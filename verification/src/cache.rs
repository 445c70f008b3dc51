//! A cache of file texts as ropes, keyed by resolved path: an entry is fresh
//! while the file's (size, mtime) are those it was loaded with; the total
//! size of the cached texts is kept under a byte budget by evicting the least
//! recently used entries.
use vstd::prelude::*;
use vstd::utf8::*;
use lru::LruCache;
use ropey::Rope;
use crate::protocol::{DetailValue, DetailView, EngineError, ErrorCode, detailed_error, details_view};
use crate::rope::{rope_from_str, rope_len_bytes, rope_text, rope_clone};
use crate::workspace::io_details;

verus! {

/// The (size, mtime) pair that decides whether a cached text is stale.
#[derive(Debug, Clone, Copy, PartialEq, Eq, Structural)]
pub struct FileMeta {
    pub size: u64,
    pub mtime_ns: i128,
}

/// Nanoseconds since the Unix epoch of a modification time given as whole
/// seconds and sub-second nanoseconds; a time before the epoch counts as 0.
pub fn mtime_ns(since_epoch: Option<(u64, u32)>) -> (r: i128)
    ensures
        r == match since_epoch {
            Some((s, n)) => s as int * 1_000_000_000 + n as int,
            None => 0,
        },
{
    match since_epoch {
        Some((secs, nanos)) => {
            assert(secs as int * 1_000_000_000 <= 18446744073709551615 * 1_000_000_000) by (nonlinear_arith)
                requires
                    secs <= 18446744073709551615u64,
            ;
            (secs as i128) * 1_000_000_000i128 + (nanos as i128)
        },
        None => 0,
    }
}

/// A cached text with the metadata it was loaded under.
pub struct CacheEntry {
    pub meta: FileMeta,
    pub rope: Rope,
}

#[verifier::external_type_specification]
#[verifier::external_body]
#[verifier::reject_recursive_types(K)]
#[verifier::reject_recursive_types(V)]
#[verifier::reject_recursive_types(S)]
pub struct ExLruCache<K, V, S>(LruCache<K, V, S>);

#[verifier::external_type_specification]
#[verifier::external_body]
pub struct ExLruHasher(lru::DefaultHasher);

/// What an LRU cache of entries holds, from the least to the most recently
/// used: each key with the entry's metadata and the text of its rope.
pub uninterp spec fn lru_entries(c: LruCache<String, CacheEntry>) -> Seq<(Seq<char>, FileMeta, Seq<char>)>;

/// No key occurs twice.
pub open spec fn unique_keys(s: Seq<(Seq<char>, FileMeta, Seq<char>)>) -> bool {
    forall|i: int, j: int| 0 <= i < j < s.len() ==> s[i].0 != s[j].0
}

/// The position of key `k`, or `-1`.
pub open spec fn key_index(s: Seq<(Seq<char>, FileMeta, Seq<char>)>, k: Seq<char>) -> int
    decreases s.len(),
{
    if s.len() == 0 {
        -1
    } else if s.last().0 == k {
        s.len() - 1
    } else {
        key_index(s.drop_last(), k)
    }
}

/// The entries after storing `(k, m, t)` as the most recently used entry.
pub open spec fn put_spec(s: Seq<(Seq<char>, FileMeta, Seq<char>)>, k: Seq<char>, m: FileMeta, t: Seq<char>) -> Seq<(Seq<char>, FileMeta, Seq<char>)> {
    let i = key_index(s, k);
    if i == -1 {
        s.push((k, m, t))
    } else {
        s.remove(i).push((k, m, t))
    }
}

/// The entries after using key `k`: it becomes the most recently used.
pub open spec fn touch_spec(s: Seq<(Seq<char>, FileMeta, Seq<char>)>, k: Seq<char>) -> Seq<(Seq<char>, FileMeta, Seq<char>)> {
    let i = key_index(s, k);
    if i == -1 {
        s
    } else {
        s.remove(i).push(s[i])
    }
}

/// `LruCache::unbounded`: an empty cache that never evicts by itself.
#[verifier::external_body]
fn lru_unbounded() -> (c: LruCache<String, CacheEntry>)
    ensures
        lru_entries(c) == Seq::<(Seq<char>, FileMeta, Seq<char>)>::empty(),
{
    LruCache::unbounded()
}

/// `LruCache::len`.
#[verifier::external_body]
fn lru_len(c: &LruCache<String, CacheEntry>) -> (n: usize)
    ensures
        n == lru_entries(*c).len(),
{
    c.len()
}

/// `LruCache::peek`: the entry of a key, without changing the order.
#[verifier::external_body]
fn lru_peek<'a>(c: &'a LruCache<String, CacheEntry>, k: &String) -> (r: Option<&'a CacheEntry>)
    requires
        unique_keys(lru_entries(*c)),
    ensures
        r is None <==> key_index(lru_entries(*c), k@) == -1,
        r matches Some(e) ==> lru_entries(*c)[key_index(lru_entries(*c), k@)] == (k@, e.meta, rope_text(e.rope)),
{
    c.peek(k)
}

/// `LruCache::get`, handing out a clone of the entry's rope: the key becomes
/// the most recently used.
#[verifier::external_body]
fn lru_get_rope(c: &mut LruCache<String, CacheEntry>, k: &String) -> (r: Option<Rope>)
    requires
        unique_keys(lru_entries(*old(c))),
    ensures
        r is None <==> key_index(lru_entries(*old(c)), k@) == -1,
        r matches Some(rope) ==> rope_text(rope) == lru_entries(*old(c))[key_index(lru_entries(*old(c)), k@)].2,
        lru_entries(*final(c)) == touch_spec(lru_entries(*old(c)), k@),
        unique_keys(lru_entries(*final(c))),
{
    c.get(k).map(|e| e.rope.clone())
}

/// `LruCache::put`: stores the entry as the most recently used and gives
/// back the entry it replaces, if the key was present. The cache is
/// unbounded, so nothing else is evicted below `usize::MAX` entries.
#[verifier::external_body]
fn lru_put(c: &mut LruCache<String, CacheEntry>, k: String, v: CacheEntry) -> (r: Option<CacheEntry>)
    requires
        unique_keys(lru_entries(*old(c))),
        lru_entries(*old(c)).len() < usize::MAX,
    ensures
        lru_entries(*final(c)) == put_spec(lru_entries(*old(c)), k@, v.meta, rope_text(v.rope)),
        r is None <==> key_index(lru_entries(*old(c)), k@) == -1,
        r matches Some(o) ==> lru_entries(*old(c))[key_index(lru_entries(*old(c)), k@)] == (k@, o.meta, rope_text(o.rope)),
        unique_keys(lru_entries(*final(c))),
{
    c.put(k, v)
}

/// `LruCache::pop_lru`: removes and gives back the least recently used
/// entry.
#[verifier::external_body]
fn lru_pop_lru(c: &mut LruCache<String, CacheEntry>) -> (r: Option<(String, CacheEntry)>)
    requires
        unique_keys(lru_entries(*old(c))),
    ensures
        r is None <==> lru_entries(*old(c)).len() == 0,
        r matches Some((k, e)) ==> lru_entries(*old(c))[0] == (k@, e.meta, rope_text(e.rope)),
        lru_entries(*old(c)).len() > 0 ==> lru_entries(*final(c)) == lru_entries(*old(c)).drop_first(),
        lru_entries(*old(c)).len() == 0 ==> lru_entries(*final(c)) == lru_entries(*old(c)),
        unique_keys(lru_entries(*final(c))),
{
    c.pop_lru()
}

/// The UTF-8 size of a cached text.
pub open spec fn text_bytes(e: (Seq<char>, FileMeta, Seq<char>)) -> nat {
    encode_utf8(e.2).len()
}

/// The total UTF-8 size of the cached texts.
pub open spec fn total_bytes(s: Seq<(Seq<char>, FileMeta, Seq<char>)>) -> nat
    decreases s.len(),
{
    if s.len() == 0 {
        0
    } else {
        total_bytes(s.drop_last()) + text_bytes(s.last())
    }
}

/// The entries left after evicting from the least recently used end while
/// the total exceeds `max` and more than one entry remains.
pub open spec fn evict_spec(s: Seq<(Seq<char>, FileMeta, Seq<char>)>, max: nat) -> Seq<(Seq<char>, FileMeta, Seq<char>)>
    decreases s.len(),
{
    if total_bytes(s) > max && s.len() > 1 {
        evict_spec(s.drop_first(), max)
    } else {
        s
    }
}

pub proof fn lemma_total_drop_first(s: Seq<(Seq<char>, FileMeta, Seq<char>)>)
    requires
        s.len() > 0,
    ensures
        total_bytes(s) == text_bytes(s[0]) + total_bytes(s.drop_first()),
    decreases s.len(),
{
    if s.len() > 1 {
        let dl = s.drop_last();
        let df = s.drop_first();
        lemma_total_drop_first(dl);
        assert(dl.drop_first() =~= df.drop_last());
        assert(df.last() == s.last());
        assert(dl[0] == s[0]);
        assert(total_bytes(df) == total_bytes(df.drop_last()) + text_bytes(df.last()));
    } else {
        assert(s.drop_first() =~= Seq::<(Seq<char>, FileMeta, Seq<char>)>::empty());
        assert(s.drop_last() =~= Seq::<(Seq<char>, FileMeta, Seq<char>)>::empty());
        assert(total_bytes(s.drop_last()) == 0);
    }
}

pub proof fn lemma_total_remove(s: Seq<(Seq<char>, FileMeta, Seq<char>)>, i: int)
    requires
        0 <= i < s.len(),
    ensures
        total_bytes(s) == text_bytes(s[i]) + total_bytes(s.remove(i)),
    decreases s.len(),
{
    if i == s.len() - 1 {
        assert(s.remove(i) =~= s.drop_last());
        assert(s[i] == s.last());
    } else {
        let dl = s.drop_last();
        lemma_total_remove(dl, i);
        let r = dl.remove(i).push(s.last());
        assert(s.remove(i) =~= r);
        assert(r.drop_last() =~= dl.remove(i));
        assert(total_bytes(r) == total_bytes(r.drop_last()) + text_bytes(r.last()));
        assert(dl[i] == s[i]);
    }
}

proof fn lemma_key_index(s: Seq<(Seq<char>, FileMeta, Seq<char>)>, k: Seq<char>)
    ensures
        -1 <= key_index(s, k) < s.len(),
        key_index(s, k) >= 0 ==> s[key_index(s, k)].0 == k,
        key_index(s, k) == -1 ==> forall|j: int| 0 <= j < s.len() ==> s[j].0 != k,
    decreases s.len(),
{
    if s.len() > 0 && s.last().0 != k {
        lemma_key_index(s.drop_last(), k);
        if key_index(s, k) == -1 {
            assert forall|j: int| 0 <= j < s.len() implies s[j].0 != k by {
                if j < s.len() - 1 {
                    assert(s.drop_last()[j] == s[j]);
                }
            }
        } else {
            assert(s.drop_last()[key_index(s, k)] == s[key_index(s, k)]);
        }
    }
}

pub proof fn lemma_evict_bound(s: Seq<(Seq<char>, FileMeta, Seq<char>)>, max: nat)
    ensures
        total_bytes(evict_spec(s, max)) <= max || evict_spec(s, max).len() <= 1,
        evict_spec(s, max).len() <= s.len(),
        s.len() > 0 ==> evict_spec(s, max).len() > 0 && evict_spec(s, max).last() == s.last(),
        evict_spec(s, max) == s.skip(s.len() - evict_spec(s, max).len()),
    decreases s.len(),
{
    if total_bytes(s) > max && s.len() > 1 {
        lemma_evict_bound(s.drop_first(), max);
        let e = evict_spec(s.drop_first(), max);
        assert(s.drop_first().skip(s.drop_first().len() - e.len()) =~= s.skip(s.len() - e.len()));
    } else {
        assert(s.skip(0) =~= s);
    }
}

/// The text cache.
pub struct RopeCache {
    entries: LruCache<String, CacheEntry>,
    max_bytes: usize,
    current_bytes: usize,
}

impl RopeCache {
    /// What the cache holds, from the least to the most recently used.
    pub closed spec fn contents(&self) -> Seq<(Seq<char>, FileMeta, Seq<char>)> {
        lru_entries(self.entries)
    }

    /// The byte budget.
    pub closed spec fn budget(&self) -> nat {
        self.max_bytes as nat
    }

    /// The byte count kept alongside the entries.
    pub closed spec fn tracked_bytes(&self) -> nat {
        self.current_bytes as nat
    }

    /// The cache is well formed: keys are unique and the byte count is the
    /// total size of the cached texts.
    pub open spec fn wf(&self) -> bool {
        &&& unique_keys(self.contents())
        &&& self.tracked_bytes() == total_bytes(self.contents())
    }

    /// An empty cache with the given byte budget.
    pub fn new(max_bytes: usize) -> (c: Self)
        ensures
            c.wf(),
            c.contents() == Seq::<(Seq<char>, FileMeta, Seq<char>)>::empty(),
            c.budget() == max_bytes,
    {
        RopeCache { entries: lru_unbounded(), max_bytes, current_bytes: 0 }
    }

    /// Whether the text of `path` must be (re)loaded: it is not cached, or
    /// it was cached under other metadata.
    pub fn needs_reload(&self, path: &String, fresh: FileMeta) -> (r: bool)
        requires
            self.wf(),
        ensures
            r == (key_index(self.contents(), path@) == -1 || self.contents()[key_index(self.contents(), path@)].1 != fresh),
    {
        match lru_peek(&self.entries, path) {
            None => true,
            Some(entry) => entry.meta != fresh,
        }
    }

    /// The cached rope of `path`, which becomes the most recently used.
    pub fn get(&mut self, path: &String) -> (r: Option<Rope>)
        requires
            old(self).wf(),
        ensures
            final(self).wf(),
            final(self).budget() == old(self).budget(),
            final(self).contents() == touch_spec(old(self).contents(), path@),
            r is None <==> key_index(old(self).contents(), path@) == -1,
            r matches Some(rope) ==> rope_text(rope) == old(self).contents()[key_index(old(self).contents(), path@)].2,
    {
        let ghost s = lru_entries(self.entries);
        let r = lru_get_rope(&mut self.entries, path);
        proof {
            let o = touch_spec(s, path@);
            lemma_key_index(s, path@);
            let i = key_index(s, path@);
            if i != -1 {
                lemma_total_remove(s, i);
                assert(o.drop_last() =~= s.remove(i));
                assert(total_bytes(o) == total_bytes(o.drop_last()) + text_bytes(o.last()));
                assert forall|a: int, b: int| 0 <= a < b < o.len() implies o[a].0 != o[b].0 by {
                }
            }
        }
        r
    }

    /// Stores `rope`, loaded under `meta`, as the text of `path` (replacing
    /// any previous entry), then evicts least recently used entries while
    /// the total exceeds the budget and more than one entry remains.
    pub fn put_rope(&mut self, path: String, meta: FileMeta, rope: Rope)
        requires
            old(self).wf(),
            old(self).contents().len() < usize::MAX,
            total_bytes(put_spec(old(self).contents(), path@, meta, rope_text(rope))) <= usize::MAX,
        ensures
            final(self).wf(),
            final(self).budget() == old(self).budget(),
            final(self).contents() == evict_spec(
                put_spec(old(self).contents(), path@, meta, rope_text(rope)),
                old(self).budget(),
            ),
    {
        self.insert(path, CacheEntry { meta, rope });
    }

    /// Stores an entry as the text of `path` (replacing any previous entry,
    /// whose bytes stop counting) as the most recently used one, then evicts
    /// least recently used entries while the total exceeds the budget and
    /// more than one entry remains.
    pub fn insert(&mut self, path: String, entry: CacheEntry)
        requires
            old(self).wf(),
            old(self).contents().len() < usize::MAX,
            total_bytes(put_spec(old(self).contents(), path@, entry.meta, rope_text(entry.rope))) <= usize::MAX,
        ensures
            final(self).wf(),
            final(self).budget() == old(self).budget(),
            final(self).contents() == evict_spec(
                put_spec(old(self).contents(), path@, entry.meta, rope_text(entry.rope)),
                old(self).budget(),
            ),
    {
        let ghost s0 = lru_entries(self.entries);
        let ghost k = path@;
        let ghost v = (path@, entry.meta, rope_text(entry.rope));
        let new_bytes = rope_len_bytes(&entry.rope);
        let replaced = lru_put(&mut self.entries, path, entry);
        proof {
            lemma_key_index(s0, k);
        }
        match replaced {
            Some(old) => {
                let old_bytes = rope_len_bytes(&old.rope);
                proof {
                    lemma_total_remove(s0, key_index(s0, k));
                }
                self.current_bytes = self.current_bytes - old_bytes;
            },
            None => {},
        }
        proof {
            let s1 = lru_entries(self.entries);
            let base = if key_index(s0, k) == -1 { s0 } else { s0.remove(key_index(s0, k)) };
            assert(s1 == base.push(v));
            assert(s1.drop_last() =~= base);
        }
        self.current_bytes = self.current_bytes + new_bytes;
        let ghost put_result = lru_entries(self.entries);
        let ghost max0 = self.max_bytes;
        while self.current_bytes > self.max_bytes && lru_len(&self.entries) > 1
            invariant
                self.max_bytes == max0,
                unique_keys(lru_entries(self.entries)),
                self.current_bytes == total_bytes(lru_entries(self.entries)),
                evict_spec(lru_entries(self.entries), self.max_bytes as nat) == evict_spec(put_result, self.max_bytes as nat),
            decreases lru_entries(self.entries).len(),
        {
            let ghost s = lru_entries(self.entries);
            match lru_pop_lru(&mut self.entries) {
                Some((_, evicted)) => {
                    let b = rope_len_bytes(&evicted.rope);
                    proof {
                        lemma_total_drop_first(s);
                    }
                    self.current_bytes = self.current_bytes - b;
                },
                None => {},
            }
        }
        proof {
            let e = lru_entries(self.entries);
            assert(evict_spec(e, self.max_bytes as nat) == e);
        }
    }
}

/// The total byte count after storing a text of `n` bytes as the text of
/// key `k`: the current total, less the bytes of the text it replaces.
pub open spec fn total_after_store(s: Seq<(Seq<char>, FileMeta, Seq<char>)>, k: Seq<char>, n: nat) -> int {
    let i = key_index(s, k);
    total_bytes(s) - (if i == -1 { 0 } else { text_bytes(s[i]) as int }) + n
}

/// The byte total after a store, before any eviction, is that of
/// [`total_after_store`].
pub proof fn lemma_total_after_store(s: Seq<(Seq<char>, FileMeta, Seq<char>)>, k: Seq<char>, m: FileMeta, t: Seq<char>)
    ensures
        total_bytes(put_spec(s, k, m, t)) == total_after_store(s, k, encode_utf8(t).len()),
{
    let i = key_index(s, k);
    lemma_key_index(s, k);
    let p = put_spec(s, k, m, t);
    assert(p.drop_last() =~= (if i == -1 { s } else { s.remove(i) }));
    if i != -1 {
        lemma_total_remove(s, i);
    }
}

impl RopeCache {
    /// The cached rope of `path` when it is fresh, that is cached under the
    /// given metadata (it then becomes the most recently used); none when the
    /// file must be (re)loaded, and the cache is then left as it is.
    pub fn get_fresh_rope(&mut self, path: &String, fresh: FileMeta) -> (r: Option<Rope>)
        requires
            old(self).wf(),
        ensures
            final(self).wf(),
            final(self).budget() == old(self).budget(),
            ({
                let s = old(self).contents();
                let i = key_index(s, path@);
                if i == -1 || s[i].1 != fresh {
                    r is None && final(self).contents() == s
                } else {
                    r matches Some(rope) && rope_text(rope) == s[i].2 && final(self).contents() == touch_spec(s, path@)
                }
            }),
    {
        if self.needs_reload(path, fresh) {
            return None;
        }
        self.get(path)
    }

    /// Whether a text of `text_bytes` bytes can be stored as the text of
    /// `path` within the machine's limits: fewer than `usize::MAX` entries,
    /// and a byte total that still fits in a `usize`.
    pub fn can_store(&self, path: &String, text_bytes: usize) -> (r: bool)
        requires
            self.wf(),
        ensures
            r == (self.contents().len() < usize::MAX
                && total_after_store(self.contents(), path@, text_bytes as nat) <= usize::MAX),
    {
        let ghost s = self.contents();
        proof {
            lemma_key_index(s, path@);
        }
        if lru_len(&self.entries) == usize::MAX {
            return false;
        }
        let replaced: usize = match lru_peek(&self.entries, path) {
            None => 0,
            Some(entry) => {
                proof {
                    lemma_total_remove(s, key_index(s, path@));
                }
                rope_len_bytes(&entry.rope)
            },
        };
        self.current_bytes - replaced <= usize::MAX - text_bytes
    }

    /// Stores a text just read from disk under the metadata it was read
    /// with (as `put_rope` does) and gives its rope.
    pub fn load_text(&mut self, path: String, meta: FileMeta, text: &str) -> (r: Rope)
        requires
            old(self).wf(),
            old(self).contents().len() < usize::MAX,
            total_bytes(put_spec(old(self).contents(), path@, meta, text@)) <= usize::MAX,
        ensures
            rope_text(r) == text@,
            final(self).wf(),
            final(self).budget() == old(self).budget(),
            final(self).contents() == evict_spec(put_spec(old(self).contents(), path@, meta, text@), old(self).budget()),
    {
        let rope = rope_from_str(text);
        let kept = rope_clone(&rope);
        self.put_rope(path, meta, rope);
        kept
    }
}

/// The steps of getting a file's text, or of refreshing it after a write,
/// that can fail at the I/O level.
#[derive(Debug, Clone, Copy, PartialEq, Eq, Structural)]
pub enum CacheStep {
    /// Reading the metadata of the file to be read.
    Stat,
    /// Reading its modification time.
    Meta,
    /// Reading it as UTF-8 text.
    Read,
    /// Reading the metadata of a file just written.
    StatAfterWrite,
    /// Reading its modification time.
    MetaAfterWrite,
}

pub open spec fn cache_step_code(step: CacheStep) -> ErrorCode {
    match step {
        CacheStep::Stat => ErrorCode::NotFound,
        _ => ErrorCode::IoError,
    }
}

pub open spec fn cache_step_message(step: CacheStep) -> Seq<char> {
    match step {
        CacheStep::Stat => "File not found"@,
        CacheStep::Meta => "Failed to read file metadata"@,
        CacheStep::Read => "Failed to read file as UTF-8 text"@,
        CacheStep::StatAfterWrite => "Failed to stat file after write"@,
        CacheStep::MetaAfterWrite => "Failed to read file metadata after write"@,
    }
}

/// The refusal reported when a step failed (the I/O message); a file that
/// cannot be stat'ed counts as not found.
pub fn cache_failure(step: CacheStep, user_path: &str, io: &str) -> (e: EngineError)
    ensures
        e@ == detailed_error(cache_step_code(step), cache_step_message(step), io_details(user_path@, io@)),
{
    let (code, message) = match step {
        CacheStep::Stat => (ErrorCode::NotFound, "File not found"),
        CacheStep::Meta => (ErrorCode::IoError, "Failed to read file metadata"),
        CacheStep::Read => (ErrorCode::IoError, "Failed to read file as UTF-8 text"),
        CacheStep::StatAfterWrite => (ErrorCode::IoError, "Failed to stat file after write"),
        CacheStep::MetaAfterWrite => (ErrorCode::IoError, "Failed to read file metadata after write"),
    };
    let mut d: Vec<(String, DetailValue)> = Vec::new();
    d.push(("path".to_owned(), DetailValue::Str(user_path.to_owned())));
    d.push(("io".to_owned(), DetailValue::Str(io.to_owned())));
    proof {
        assert(details_view(d@) =~= io_details(user_path@, io@));
    }
    EngineError::new(code, message.to_owned()).with_details(d)
}

/// The cache keeps its byte count exact and, after a store, stays within
/// its budget unless only the stored entry is left.
pub proof fn lemma_put_within_budget(s: Seq<(Seq<char>, FileMeta, Seq<char>)>, k: Seq<char>, m: FileMeta, t: Seq<char>, max: nat)
    ensures
        total_bytes(evict_spec(put_spec(s, k, m, t), max)) <= max || evict_spec(put_spec(s, k, m, t), max).len() == 1,
{
    let p = put_spec(s, k, m, t);
    lemma_evict_bound(p, max);
}

/// A read after a store: right after `put_rope(path, meta, rope)`, the cache
/// holds `path` as its most recently used entry, with `meta` and the rope's
/// text, so the text is fresh for `meta` and reading it gives that text.
pub proof fn lemma_read_after_put(s: Seq<(Seq<char>, FileMeta, Seq<char>)>, k: Seq<char>, m: FileMeta, t: Seq<char>, max: nat)
    ensures
        ({
            let c = evict_spec(put_spec(s, k, m, t), max);
            &&& key_index(c, k) == c.len() - 1
            &&& c[key_index(c, k)] == (k, m, t)
        }),
{
    let p = put_spec(s, k, m, t);
    lemma_evict_bound(p, max);
    let c = evict_spec(p, max);
    assert(p.last() == (k, m, t));
    assert(c.last() == (k, m, t));
}

/// What a store does to the cache: the stored entry is the most recently
/// used one, the other entries keep their order, and only entries from the
/// least recently used end are evicted, each only while the total was over
/// the budget and more than one entry remained; afterwards the total is
/// within the budget unless the stored entry alone is left.
pub proof fn lemma_store(s: Seq<(Seq<char>, FileMeta, Seq<char>)>, k: Seq<char>, m: FileMeta, t: Seq<char>, max: nat)
    ensures
        ({
            let p = put_spec(s, k, m, t);
            let c = evict_spec(p, max);
            let dropped = p.len() - c.len();
            &&& c.len() > 0 && c.last() == (k, m, t)
            &&& 0 <= dropped < p.len()
            &&& c == p.skip(dropped)
            &&& forall|j: int| 0 <= j < dropped ==> total_bytes(#[trigger] p.skip(j)) > max && p.skip(j).len() > 1
            &&& total_bytes(c) <= max || c.len() == 1
        }),
{
    let p = put_spec(s, k, m, t);
    lemma_evict_bound(p, max);
    lemma_evict_steps(p, max);
}

proof fn lemma_evict_steps(p: Seq<(Seq<char>, FileMeta, Seq<char>)>, max: nat)
    ensures
        forall|j: int| 0 <= j < p.len() - evict_spec(p, max).len()
            ==> total_bytes(#[trigger] p.skip(j)) > max && p.skip(j).len() > 1,
    decreases p.len(),
{
    lemma_evict_bound(p, max);
    if total_bytes(p) > max && p.len() > 1 {
        let q = p.drop_first();
        lemma_evict_steps(q, max);
        assert forall|j: int| 0 <= j < p.len() - evict_spec(p, max).len()
            implies total_bytes(#[trigger] p.skip(j)) > max && p.skip(j).len() > 1 by {
            if j == 0 {
                assert(p.skip(0) =~= p);
            } else {
                assert(p.skip(j) =~= q.skip(j - 1));
            }
        }
    }
}

/// The byte budget: `AGENT_MCP_CACHE_MB` megabytes when that variable holds
/// a number (saturating), else 128 MB.
pub fn cache_max_bytes(env_value: Option<&str>) -> (r: usize)
    ensures
        r == match env_value {
            Some(s) => match crate::text::parse_usize_spec(s@) {
                Some(mb) => if mb * 1048576 > usize::MAX { usize::MAX as int } else { (mb * 1048576) as int },
                None => 134217728,
            },
            None => 134217728,
        },
{
    match env_value {
        Some(s) => match crate::text::parse_usize(s) {
            Some(mb) => if mb > usize::MAX / (1024 * 1024) {
                usize::MAX
            } else {
                mb * (1024 * 1024)
            },
            None => 128 * 1024 * 1024,
        },
        None => 128 * 1024 * 1024,
    }
}

} // verus!
