//! Listing a directory tree: each entry the walk yields is kept or skipped
//! (hidden names, unreadable entries, the root itself), and the listing stops
//! at the requested number of entries.
use vstd::prelude::*;
use crate::protocol::{
    EngineError, ErrorCode, ListDirArgs, ListDirEntry, ListDirResult, detailed_error, path_detail,
};
use crate::workspace::path_details;

verus! {

/// One item yielded by a walk of the listed directory.
#[derive(Debug, Clone, PartialEq)]
pub enum WalkItem {
    /// An entry the walk could not read.
    Unreadable,
    /// An entry: its file name, its depth below the listed directory (0 for
    /// the directory itself), its path relative to the listed directory, and
    /// what its metadata says (is a directory, is a file, length), if it
    /// could be read.
    Entry { name: String, depth: usize, relative: String, meta: Option<(bool, bool, u64)> },
}

/// The mathematical content of a [`WalkItem`].
pub enum WalkView {
    Unreadable,
    Entry { name: Seq<char>, depth: nat, relative: Seq<char>, meta: Option<(bool, bool, u64)> },
}

impl View for WalkItem {
    type V = WalkView;

    open spec fn view(&self) -> WalkView {
        match self {
            WalkItem::Unreadable => WalkView::Unreadable,
            WalkItem::Entry { name, depth, relative, meta } => WalkView::Entry {
                name: name@,
                depth: *depth as nat,
                relative: relative@,
                meta: *meta,
            },
        }
    }
}

/// A listed entry as a triple: relative path, kind, size.
pub open spec fn entry_view(e: ListDirEntry) -> (Seq<char>, Seq<char>, Option<u64>) {
    (e.path@, e.entry_type@, e.size)
}

pub open spec fn entries_view(es: Seq<ListDirEntry>) -> Seq<(Seq<char>, Seq<char>, Option<u64>)> {
    es.map_values(|e: ListDirEntry| entry_view(e))
}

/// A name that starts with a dot.
pub open spec fn is_hidden_name(name: Seq<char>) -> bool {
    name.len() > 0 && name[0] == '.'
}

/// The entry a walk item contributes to the listing, if any: unreadable
/// items, hidden entries below the root (unless asked for), the root itself
/// and entries whose metadata cannot be read contribute none.
pub open spec fn listed(include_hidden: bool, item: WalkView) -> Option<(Seq<char>, Seq<char>, Option<u64>)> {
    match item {
        WalkView::Unreadable => None,
        WalkView::Entry { name, depth, relative, meta } => {
            if !include_hidden && is_hidden_name(name) && depth > 0 {
                None
            } else if relative.len() == 0 {
                None
            } else {
                match meta {
                    None => None,
                    Some((is_dir, is_file, len)) => Some((
                        relative,
                        if is_dir { "dir"@ } else { "file"@ },
                        if is_file { Some(len) } else { None },
                    )),
                }
            }
        },
    }
}

/// The listing made of the remaining walk items, after `acc` was listed:
/// the entries and whether the walk was cut short because the limit was
/// reached while items remained.
pub open spec fn listing_from(
    include_hidden: bool,
    max: nat,
    acc: Seq<(Seq<char>, Seq<char>, Option<u64>)>,
    items: Seq<WalkView>,
) -> (Seq<(Seq<char>, Seq<char>, Option<u64>)>, bool)
    decreases items.len(),
{
    if items.len() == 0 {
        (acc, false)
    } else if acc.len() >= max {
        (acc, true)
    } else {
        let next = match listed(include_hidden, items[0]) {
            Some(e) => acc.push(e),
            None => acc,
        };
        listing_from(include_hidden, max, next, items.drop_first())
    }
}

/// Refuses a path that does not exist or is not a directory.
pub fn check_dir(args: &ListDirArgs, exists: bool, is_dir: bool) -> (r: Result<(), EngineError>)
    ensures
        !exists ==> (r matches Err(e) && e@ == detailed_error(
            ErrorCode::NotFound,
            "Directory not found"@,
            path_details(args.dir_path@),
        )),
        exists && !is_dir ==> (r matches Err(e) && e@ == detailed_error(
            ErrorCode::InvalidArgument,
            "Path is not a directory"@,
            path_details(args.dir_path@),
        )),
        exists && is_dir ==> r is Ok,
{
    if !exists {
        return Err(EngineError::new(ErrorCode::NotFound, "Directory not found".to_owned())
            .with_details(path_detail(args.dir_path.as_str())));
    }
    if !is_dir {
        return Err(EngineError::new(ErrorCode::InvalidArgument, "Path is not a directory".to_owned())
            .with_details(path_detail(args.dir_path.as_str())));
    }
    Ok(())
}

/// Takes the next walk item into the listing. When the limit is already
/// reached the listing is marked truncated and the walk should stop (false
/// is returned); otherwise the item's entry, if any, is appended.
pub fn step(args: &ListDirArgs, listing: &mut ListDirResult, item: &WalkItem) -> (more: bool)
    ensures
        old(listing).entries.len() >= args.max_entries ==> {
            &&& !more
            &&& final(listing).truncated
            &&& final(listing).entries@ == old(listing).entries@
        },
        old(listing).entries.len() < args.max_entries ==> {
            &&& more
            &&& final(listing).truncated == old(listing).truncated
            &&& entries_view(final(listing).entries@) == match listed(args.include_hidden, item@) {
                Some(e) => entries_view(old(listing).entries@).push(e),
                None => entries_view(old(listing).entries@),
            }
        },
{
    if listing.entries.len() >= args.max_entries {
        listing.truncated = true;
        return false;
    }
    match item {
        WalkItem::Unreadable => {},
        WalkItem::Entry { name, depth, relative, meta } => {
            let hidden = name.as_str().unicode_len() > 0 && name.as_str().get_char(0) == '.';
            if !args.include_hidden && hidden && *depth > 0 {
            } else if relative.as_str().unicode_len() == 0 {
            } else {
                match meta {
                    None => {},
                    Some((is_dir, is_file, len)) => {
                        let entry_type = if *is_dir { "dir" } else { "file" };
                        let size = if *is_file { Some(*len) } else { None };
                        let ghost before = listing.entries@;
                        listing.entries.push(ListDirEntry { path: relative.clone(), entry_type: entry_type.to_owned(), size });
                        proof {
                            assert(listing.entries@ == before.push(listing.entries@.last()));
                            assert(entries_view(listing.entries@) =~= entries_view(before).push(
                                entry_view(listing.entries@.last()),
                            ));
                        }
                    },
                }
            }
        },
    }
    true
}

/// Lists the items of a walk, in order.
pub fn collect(args: &ListDirArgs, items: Vec<WalkItem>) -> (r: ListDirResult)
    ensures
        (entries_view(r.entries@), r.truncated) == listing_from(
            args.include_hidden,
            args.max_entries as nat,
            Seq::empty(),
            items@.map_values(|i: WalkItem| i@),
        ),
{
    let ghost all = items@.map_values(|i: WalkItem| i@);
    let mut listing = ListDirResult { entries: Vec::new(), truncated: false };
    proof {
        assert(entries_view(listing.entries@) =~= Seq::empty());
        assert(all.skip(0) =~= all);
    }
    let mut k: usize = 0;
    while k < items.len()
        invariant
            k <= items@.len(),
            all == items@.map_values(|i: WalkItem| i@),
            !listing.truncated,
            listing_from(args.include_hidden, args.max_entries as nat, entries_view(listing.entries@), all.skip(k as int))
                == listing_from(args.include_hidden, args.max_entries as nat, Seq::empty(), all),
        decreases items.len() - k,
    {
        proof {
            assert(all.skip(k as int).drop_first() =~= all.skip(k as int + 1));
            assert(all.skip(k as int)[0] == items@[k as int]@);
        }
        let more = step(args, &mut listing, &items[k]);
        if !more {
            return listing;
        }
        k = k + 1;
    }
    proof {
        assert(all.skip(k as int).len() == 0);
    }
    listing
}

/// A listing holds at most the requested number of entries.
pub proof fn lemma_listing_bounded(
    include_hidden: bool,
    max: nat,
    acc: Seq<(Seq<char>, Seq<char>, Option<u64>)>,
    items: Seq<WalkView>,
)
    requires
        acc.len() <= max,
    ensures
        listing_from(include_hidden, max, acc, items).0.len() <= max,
    decreases items.len(),
{
    if items.len() > 0 && acc.len() < max {
        let next = match listed(include_hidden, items[0]) {
            Some(e) => acc.push(e),
            None => acc,
        };
        lemma_listing_bounded(include_hidden, max, next, items.drop_first());
    }
}

/// A walk item is hidden when its file name starts with a dot and it lies
/// below the listed directory.
pub open spec fn hidden_below_root(item: WalkView) -> bool {
    match item {
        WalkView::Entry { name, depth, .. } => name.len() > 0 && name[0] == '.' && depth > 0,
        WalkView::Unreadable => false,
    }
}

/// A listed entry comes from a walk item: a readable entry other than the
/// listed directory itself, not hidden unless hidden entries are asked for,
/// reported by its relative path as a directory or a file, with the size of
/// a file.
pub open spec fn entry_from_item(include_hidden: bool, item: WalkView, e: (Seq<char>, Seq<char>, Option<u64>)) -> bool {
    &&& include_hidden || !hidden_below_root(item)
    &&& match item {
        WalkView::Unreadable => false,
        WalkView::Entry { relative, meta, .. } => relative.len() > 0 && match meta {
            None => false,
            Some((is_dir, is_file, len)) => e == (
                relative,
                if is_dir { "dir"@ } else { "file"@ },
                if is_file { Some(len) } else { None },
            ),
        },
    }
}

/// Every entry a listing adds comes from a walk item (see
/// [`entry_from_item`]); in particular no hidden item is listed unless hidden
/// entries are asked for. The entries already listed are kept in front.
pub proof fn lemma_listing_entries_come_from_items(
    include_hidden: bool,
    max: nat,
    acc: Seq<(Seq<char>, Seq<char>, Option<u64>)>,
    items: Seq<WalkView>,
)
    ensures
        ({
            let l = listing_from(include_hidden, max, acc, items).0;
            &&& acc.len() <= l.len()
            &&& l.take(acc.len() as int) == acc
            &&& forall|k: int| #![trigger l[k]] acc.len() <= k < l.len() ==> exists|i: int|
                0 <= i < items.len() && entry_from_item(include_hidden, #[trigger] items[i], l[k])
        }),
    decreases items.len(),
{
    let l = listing_from(include_hidden, max, acc, items).0;
    if items.len() == 0 || acc.len() >= max {
        assert(l.take(acc.len() as int) =~= acc);
    } else {
        let next = match listed(include_hidden, items[0]) {
            Some(e) => acc.push(e),
            None => acc,
        };
        let rest = items.drop_first();
        lemma_listing_entries_come_from_items(include_hidden, max, next, rest);
        assert(l == listing_from(include_hidden, max, next, rest).0);
        assert(l.take(acc.len() as int) =~= l.take(next.len() as int).take(acc.len() as int));
        assert(next.take(acc.len() as int) =~= acc);
        assert forall|k: int| #![trigger l[k]] acc.len() <= k < l.len() implies exists|i: int|
            0 <= i < items.len() && entry_from_item(include_hidden, #[trigger] items[i], l[k]) by {
            if k < next.len() {
                assert(l[k] == l.take(next.len() as int)[k]);
                assert(l[k] == next[k]);
                assert(entry_from_item(include_hidden, items[0], l[k]));
            } else {
                let i = choose|i: int| 0 <= i < rest.len() && entry_from_item(include_hidden, #[trigger] rest[i], l[k]);
                assert(rest[i] == items[i + 1]);
            }
        }
    }
}

/// With hidden entries not asked for, no entry of a listing comes from a
/// hidden item alone: each added entry has a non-hidden item of the same
/// relative path behind it.
pub proof fn lemma_hidden_items_not_listed(max: nat, items: Seq<WalkView>)
    ensures
        forall|k: int| #![trigger listing_from(false, max, Seq::empty(), items).0[k]]
            0 <= k < listing_from(false, max, Seq::empty(), items).0.len() ==> exists|i: int|
            0 <= i < items.len() && !hidden_below_root(#[trigger] items[i])
            && entry_from_item(false, items[i], listing_from(false, max, Seq::empty(), items).0[k]),
{
    lemma_listing_entries_come_from_items(false, max, Seq::empty(), items);
}

/// A listing that was not cut short lists every readable, visible entry of
/// the walk (see [`entry_from_item`]), after the entries already listed.
pub proof fn lemma_untruncated_listing_is_complete(
    include_hidden: bool,
    max: nat,
    acc: Seq<(Seq<char>, Seq<char>, Option<u64>)>,
    items: Seq<WalkView>,
)
    ensures
        ({
            let (l, truncated) = listing_from(include_hidden, max, acc, items);
            !truncated ==> forall|i: int, e: (Seq<char>, Seq<char>, Option<u64>)|
                0 <= i < items.len() && #[trigger] entry_from_item(include_hidden, items[i], e) ==> l.contains(e)
        }),
    decreases items.len(),
{
    let (l, truncated) = listing_from(include_hidden, max, acc, items);
    if items.len() > 0 && acc.len() < max {
        let next = match listed(include_hidden, items[0]) {
            Some(e) => acc.push(e),
            None => acc,
        };
        let rest = items.drop_first();
        lemma_untruncated_listing_is_complete(include_hidden, max, next, rest);
        lemma_listing_entries_come_from_items(include_hidden, max, next, rest);
        if !truncated {
            assert forall|i: int, e: (Seq<char>, Seq<char>, Option<u64>)|
                0 <= i < items.len() && #[trigger] entry_from_item(include_hidden, items[i], e) implies l.contains(e) by {
                if i == 0 {
                    assert(next.len() == acc.len() + 1);
                    assert(next[acc.len() as int] == e);
                    assert(l.take(next.len() as int) == next);
                    assert(l[acc.len() as int] == e);
                } else {
                    assert(rest[i - 1] == items[i]);
                }
            }
        }
    }
}

} // verus!
