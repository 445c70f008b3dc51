//! Running shell commands in a long-lived Docker container that mounts the
//! repository: the container's lifecycle, the `docker` command lines, and
//! the splitting of the command's output streams into line-aligned chunks.
use vstd::prelude::*;
use crate::protocol::{
    DetailValue, DetailView, DockerShellArgs, DockerShellResult, EngineError, ErrorCode, EngineErrorView,
    detailed_error, details_view, plain_error,
};
use crate::text::{
    decimal, decimal_string, lossy_string, push_char, push_str, trim_matches_char, trim_str, trimmed,
    trimmed_of, utf8_lossy, lemma_lossy_empty, lemma_lossy_ends_with_newline, lemma_lossy_split_after_newline,
};

verus! {

// ---------------------------------------------------------------------------
// Container names
// ---------------------------------------------------------------------------

/// The lowercase hexadecimal digit of `d < 16`.
pub open spec fn hex_digit(d: nat) -> char {
    if d < 10 { ((48 + d) as u32) as char } else { ((87 + d) as u32) as char }
}

/// The last `k` hexadecimal digits of `n`, zero-padded.
pub open spec fn hex_fixed(n: nat, k: nat) -> Seq<char>
    decreases k,
{
    if k == 0 {
        Seq::empty()
    } else {
        hex_fixed(n / 16, (k - 1) as nat).push(hex_digit(n % 16))
    }
}

/// The name of a container made from a random number: `agent-mcp-` and the
/// number in 16 lowercase hexadecimal digits.
pub open spec fn container_name_spec(n: u64) -> Seq<char> {
    "agent-mcp-"@ + hex_fixed(n as nat, 16)
}

fn hex_char(d: u64) -> (c: char)
    requires
        d < 16,
    ensures
        c == hex_digit(d as nat),
{
    if d < 10 {
        ((48 + d) as u8) as char
    } else {
        ((87 + d) as u8) as char
    }
}

/// The container name made from the given number.
pub fn container_name(n: u64) -> (r: String)
    ensures
        r@ == container_name_spec(n),
{
    let mut digits: Vec<char> = Vec::new();
    let mut k: usize = 0;
    while k < 16
        invariant
            k <= 16,
            digits@.len() == k,
        decreases 16 - k,
    {
        digits.push('0');
        k = k + 1;
    }
    let mut m: u64 = n;
    let mut j: usize = 0;
    while j < 16
        invariant
            j <= 16,
            digits@.len() == 16,
            hex_fixed(n as nat, 16) == hex_fixed(m as nat, (16 - j) as nat) + digits@.subrange(16 - j, 16),
        decreases 16 - j,
    {
        let c = hex_char(m % 16);
        let ghost before = digits@;
        digits.set(15 - j, c);
        proof {
            assert(digits@.subrange(16 - j - 1, 16) =~= seq![c] + before.subrange(16 - j, 16));
            assert(hex_fixed(m as nat, (16 - j) as nat) == hex_fixed((m / 16) as nat, (16 - j - 1) as nat).push(c));
            assert(hex_fixed(m as nat, (16 - j) as nat) + before.subrange(16 - j, 16)
                =~= hex_fixed((m / 16) as nat, (16 - j - 1) as nat) + digits@.subrange(16 - j - 1, 16));
        }
        m = m / 16;
        j = j + 1;
    }
    let mut r = "agent-mcp-".to_owned();
    let ghost prefix = r@;
    let mut i: usize = 0;
    while i < 16
        invariant
            i <= 16,
            digits@.len() == 16,
            r@ == prefix + digits@.take(i as int),
        decreases 16 - i,
    {
        push_char(&mut r, digits[i]);
        proof {
            assert(digits@.take(i as int + 1) =~= digits@.take(i as int).push(digits@[i as int]));
        }
        i = i + 1;
    }
    proof {
        assert(digits@.take(16) =~= digits@);
        assert(digits@.subrange(0, 16) =~= digits@);
    }
    r
}

/// `rand::random::<u64>()`: a number drawn from the thread-local generator;
/// nothing is claimed of it.
#[verifier::external_body]
fn random_u64() -> u64 {
    rand::random::<u64>()
}

/// A fresh container name, made from a random number.
pub fn new_container_name() -> (r: String)
    ensures
        exists|n: u64| r@ == container_name_spec(n),
{
    let n = random_u64();
    container_name(n)
}

// ---------------------------------------------------------------------------
// The manager
// ---------------------------------------------------------------------------

pub open spec fn strings_view(v: Seq<String>) -> Seq<Seq<char>> {
    v.map_values(|s: String| s@)
}

/// The `docker` arguments that start the container: detached, removed when
/// stopped, named, running as the given user and group, with the repository
/// mounted at `/workspace` as working directory, sleeping forever.
pub open spec fn run_args_spec(root: Seq<char>, image: Seq<char>, name: Seq<char>, uid: u32, gid: u32) -> Seq<Seq<char>> {
    seq![
        "run"@, "-d"@, "--rm"@, "--name"@, name, "--user"@, decimal(uid as nat) + ":"@ + decimal(gid as nat),
        "-v"@, root + ":/workspace"@, "-w"@, "/workspace"@, image, "sleep"@, "infinity"@,
    ]
}

/// The step of a `docker` invocation that failed at the I/O level.
#[derive(Debug, Clone, Copy, PartialEq, Eq, Structural)]
pub enum DockerStep {
    SpawnRun,
    SpawnExec,
    WaitExec,
}

pub open spec fn step_message(step: DockerStep) -> Seq<char> {
    match step {
        DockerStep::SpawnRun => "Failed to spawn docker run"@,
        DockerStep::SpawnExec => "Failed to spawn docker exec"@,
        DockerStep::WaitExec => "Failed to wait for docker exec"@,
    }
}

/// The refusal reported when a step of a `docker` invocation failed (the
/// I/O message).
pub fn step_failure(step: DockerStep, io: &str) -> (e: EngineError)
    ensures
        e@ == detailed_error(ErrorCode::IoError, step_message(step), seq![("io"@, DetailView::Str(io@))]),
{
    let message = match step {
        DockerStep::SpawnRun => "Failed to spawn docker run",
        DockerStep::SpawnExec => "Failed to spawn docker exec",
        DockerStep::WaitExec => "Failed to wait for docker exec",
    };
    let mut d: Vec<(String, DetailValue)> = Vec::new();
    d.push(("io".to_owned(), DetailValue::Str(io.to_owned())));
    proof {
        assert(details_view(d@) =~= seq![("io"@, DetailView::Str(io@))]);
    }
    EngineError::new(ErrorCode::IoError, message.to_owned()).with_details(d)
}

/// The container that runs the commands of a repository: started on the
/// first command, reused by the later ones, stopped on shutdown.
pub struct DockerManager {
    container_id: Option<String>,
    repo_root: String,
    docker_image: String,
}

impl DockerManager {
    /// The id of the running container, if one was started.
    pub closed spec fn container(&self) -> Option<Seq<char>> {
        match self.container_id {
            Some(id) => Some(id@),
            None => None,
        }
    }

    /// The repository mounted into the container.
    pub closed spec fn root(&self) -> Seq<char> {
        self.repo_root@
    }

    /// The image the container runs.
    pub closed spec fn image(&self) -> Seq<char> {
        self.docker_image@
    }

    /// A manager for the repository at `repo_root`, with no container yet.
    pub fn new(repo_root: String, docker_image: String) -> (m: Self)
        ensures
            m.container() is None,
            m.root() == repo_root@,
            m.image() == docker_image@,
    {
        DockerManager { container_id: None, repo_root, docker_image }
    }

    /// The running container, if one was started.
    pub fn running_container(&self) -> (r: Option<String>)
        ensures
            match r {
                Some(id) => self.container() == Some(id@),
                None => self.container() is None,
            },
    {
        match &self.container_id {
            Some(id) => Some(id.clone()),
            None => None,
        }
    }

    /// The `docker` arguments that start the container under the given
    /// name, as the given user and group.
    pub fn run_args(&self, name: &str, uid: u32, gid: u32) -> (r: Vec<String>)
        ensures
            strings_view(r@) == run_args_spec(self.root(), self.image(), name@, uid, gid),
    {
        let mut user = decimal_string(uid as u128);
        push_str(&mut user, ":");
        push_str(&mut user, decimal_string(gid as u128).as_str());
        let mut volume = self.repo_root.clone();
        push_str(&mut volume, ":/workspace");
        let mut r: Vec<String> = Vec::new();
        r.push("run".to_owned());
        r.push("-d".to_owned());
        r.push("--rm".to_owned());
        r.push("--name".to_owned());
        r.push(name.to_owned());
        r.push("--user".to_owned());
        r.push(user);
        r.push("-v".to_owned());
        r.push(volume);
        r.push("-w".to_owned());
        r.push("/workspace".to_owned());
        r.push(self.docker_image.clone());
        r.push("sleep".to_owned());
        r.push("infinity".to_owned());
        proof {
            assert(strings_view(r@) =~= run_args_spec(self.root(), self.image(), name@, uid, gid));
        }
        r
    }

    /// Records how `docker run` exited: on success the container's id is its
    /// trimmed output, kept for the later commands; otherwise the start is
    /// refused with the trimmed error output.
    pub fn record_start(&mut self, success: bool, stdout: &[u8], stderr: &[u8]) -> (r: Result<String, EngineError>)
        ensures
            final(self).root() == old(self).root(),
            final(self).image() == old(self).image(),
            success ==> (r matches Ok(id) && id@ == trimmed(utf8_lossy(stdout@))
                && final(self).container() == Some(id@)),
            !success ==> (r matches Err(e) && e@ == detailed_error(
                ErrorCode::IoError,
                "Failed to start Docker container"@,
                seq![("stderr"@, DetailView::Str(trimmed(utf8_lossy(stderr@))))],
            ) && final(self).container() == old(self).container()),
    {
        if !success {
            let err = lossy_string(stderr);
            let mut d: Vec<(String, DetailValue)> = Vec::new();
            d.push(("stderr".to_owned(), DetailValue::Str(trim_str(err.as_str()).to_owned())));
            proof {
                assert(details_view(d@) =~= seq![("stderr"@, DetailView::Str(trimmed(utf8_lossy(stderr@))))]);
            }
            return Err(EngineError::new(ErrorCode::IoError, "Failed to start Docker container".to_owned()).with_details(d));
        }
        let out = lossy_string(stdout);
        let id = trim_str(out.as_str()).to_owned();
        self.container_id = Some(id.clone());
        Ok(id)
    }

    /// Forgets the running container, handing its id out to be stopped.
    pub fn take_container(&mut self) -> (r: Option<String>)
        ensures
            match r {
                Some(id) => old(self).container() == Some(id@),
                None => old(self).container() is None,
            },
            final(self).container() is None,
            final(self).root() == old(self).root(),
            final(self).image() == old(self).image(),
    {
        let r = match &self.container_id {
            Some(id) => Some(id.clone()),
            None => None,
        };
        self.container_id = None;
        r
    }
}

/// The `docker` arguments that stop a container.
pub fn stop_args(id: &str) -> (r: Vec<String>)
    ensures
        strings_view(r@) == seq!["stop"@, id@],
{
    let mut r: Vec<String> = Vec::new();
    r.push("stop".to_owned());
    r.push(id.to_owned());
    proof {
        assert(strings_view(r@) =~= seq!["stop"@, id@]);
    }
    r
}

// ---------------------------------------------------------------------------
// Commands
// ---------------------------------------------------------------------------

/// Refuses an empty command.
pub fn check_command(args: &DockerShellArgs) -> (r: Result<(), EngineError>)
    ensures
        args.command@.len() == 0 ==> (r matches Err(e) && e@ == plain_error(
            ErrorCode::InvalidArgument,
            "command must be a non-empty string"@,
        )),
        args.command@.len() > 0 ==> r is Ok,
{
    if args.command.as_str().unicode_len() == 0 {
        return Err(EngineError::new(ErrorCode::InvalidArgument, "command must be a non-empty string".to_owned()));
    }
    Ok(())
}

/// The working directory in the container: the requested one, without
/// leading or trailing slashes, below `/workspace`.
pub open spec fn work_dir_spec(work_dir: Seq<char>) -> Seq<char> {
    "/workspace/"@ + trimmed_of(work_dir, '/')
}

/// The `docker` arguments that run a command in the container with bash,
/// in the requested working directory.
pub open spec fn exec_args_spec(container_id: Seq<char>, work_dir: Seq<char>, command: Seq<char>) -> Seq<Seq<char>> {
    seq!["exec"@, "-w"@, work_dir_spec(work_dir), container_id, "/bin/bash"@, "-c"@, command]
}

/// The `docker` arguments that run the command in the container.
pub fn exec_args(container_id: &str, args: &DockerShellArgs) -> (r: Vec<String>)
    ensures
        strings_view(r@) == exec_args_spec(container_id@, args.work_dir@, args.command@),
{
    let mut work_dir = "/workspace/".to_owned();
    push_str(&mut work_dir, trim_matches_char(args.work_dir.as_str(), '/'));
    let mut r: Vec<String> = Vec::new();
    r.push("exec".to_owned());
    r.push("-w".to_owned());
    r.push(work_dir);
    r.push(container_id.to_owned());
    r.push("/bin/bash".to_owned());
    r.push("-c".to_owned());
    r.push(args.command.clone());
    proof {
        assert(strings_view(r@) =~= exec_args_spec(container_id@, args.work_dir@, args.command@));
    }
    r
}

/// The refusal of a command that did not finish in time.
pub fn timeout_error(timeout_ms: u64) -> (e: EngineError)
    ensures
        e@ == plain_error(ErrorCode::IoError, "Command timed out after "@ + decimal(timeout_ms as nat) + "ms"@),
{
    let mut message = "Command timed out after ".to_owned();
    push_str(&mut message, decimal_string(timeout_ms as u128).as_str());
    push_str(&mut message, "ms");
    EngineError::new(ErrorCode::IoError, message)
}

/// The result of a finished command, given its exit code (`None` when it
/// was killed by a signal): the code (-1 for a signal), success exactly when
/// the code is 0 (as `ExitStatus::success` defines it), and its output
/// chunks.
pub fn exit_result(code: Option<i32>, output: Vec<(String, String)>) -> (r: DockerShellResult)
    ensures
        r.exit_code == match code {
            Some(c) => c,
            None => -1i32,
        },
        r.success == (code == Some(0i32)),
        r.output == output,
{
    let (exit_code, success) = match code {
        Some(c) => (c, c == 0),
        None => (-1i32, false),
    };
    DockerShellResult { exit_code, output, success }
}

// ---------------------------------------------------------------------------
// Output chunks
// ---------------------------------------------------------------------------

/// The index of the last newline byte, or -1.
pub open spec fn last_newline(b: Seq<u8>) -> int
    decreases b.len(),
{
    if b.len() == 0 {
        -1
    } else if b.last() == 10u8 {
        b.len() - 1
    } else {
        last_newline(b.drop_last())
    }
}

proof fn lemma_last_newline(b: Seq<u8>)
    ensures
        -1 <= last_newline(b) < b.len(),
        last_newline(b) >= 0 ==> b[last_newline(b)] == 10u8,
    decreases b.len(),
{
    if b.len() > 0 && b.last() != 10u8 {
        lemma_last_newline(b.drop_last());
    }
}

/// A chunk of output with the stream it came from.
pub open spec fn chunk_view(c: (String, String)) -> (Seq<char>, Seq<char>) {
    (c.0@, c.1@)
}

pub open spec fn chunks_view(cs: Seq<(String, String)>) -> Seq<(Seq<char>, Seq<char>)> {
    cs.map_values(|c: (String, String)| chunk_view(c))
}

pub open spec fn stream_label(is_stderr: bool) -> Seq<char> {
    if is_stderr { "stderr"@ } else { "stdout"@ }
}

/// The bytes of one stream among the raw chunks, in order.
pub open spec fn stream_bytes(sources: Seq<(bool, Seq<u8>)>, is_stderr: bool) -> Seq<u8>
    decreases sources.len(),
{
    if sources.len() == 0 {
        Seq::empty()
    } else {
        stream_bytes(sources.drop_last(), is_stderr) + if sources.last().0 == is_stderr {
            sources.last().1
        } else {
            Seq::empty()
        }
    }
}

/// The chunks made of raw chunks: each decoded leniently, with its stream.
pub open spec fn labelled(sources: Seq<(bool, Seq<u8>)>) -> Seq<(Seq<char>, Seq<char>)> {
    sources.map_values(|c: (bool, Seq<u8>)| (utf8_lossy(c.1), stream_label(c.0)))
}

/// The raw chunks once both streams ended: the complete ones, then what is
/// pending on stdout, then on stderr, each only if not empty.
pub open spec fn flushed(sources: Seq<(bool, Seq<u8>)>, stdout_rest: Seq<u8>, stderr_rest: Seq<u8>) -> Seq<(bool, Seq<u8>)> {
    sources + (if stdout_rest.len() > 0 { seq![(false, stdout_rest)] } else { Seq::empty() })
        + (if stderr_rest.len() > 0 { seq![(true, stderr_rest)] } else { Seq::empty() })
}

proof fn lemma_stream_bytes_push(sources: Seq<(bool, Seq<u8>)>, c: (bool, Seq<u8>), is_stderr: bool)
    ensures
        stream_bytes(sources.push(c), is_stderr) == stream_bytes(sources, is_stderr) + if c.0 == is_stderr {
            c.1
        } else {
            Seq::empty()
        },
{
    assert(sources.push(c).drop_last() =~= sources);
}

/// The text of one stream among the chunks: the texts of the chunks with
/// that stream's label, joined in order.
pub open spec fn stream_text(cs: Seq<(Seq<char>, Seq<char>)>, label: Seq<char>) -> Seq<char>
    decreases cs.len(),
{
    if cs.len() == 0 {
        Seq::empty()
    } else {
        stream_text(cs.drop_last(), label) + if cs.last().1 == label { cs.last().0 } else { Seq::empty() }
    }
}

/// A byte sequence that ends with a newline.
pub open spec fn ends_with_newline(b: Seq<u8>) -> bool {
    b.len() > 0 && b.last() == 10u8
}

/// Every raw chunk of a stream that another chunk of the same stream
/// follows ends with a newline.
pub open spec fn newline_ended_but_last(srcs: Seq<(bool, Seq<u8>)>) -> bool {
    forall|i: int, j: int| 0 <= i < j < srcs.len() && (#[trigger] srcs[i]).0 == (#[trigger] srcs[j]).0
        ==> ends_with_newline(srcs[i].1)
}

proof fn lemma_stream_bytes_newline(srcs: Seq<(bool, Seq<u8>)>, st: bool)
    requires
        forall|i: int| 0 <= i < srcs.len() && (#[trigger] srcs[i]).0 == st ==> ends_with_newline(srcs[i].1),
    ensures
        stream_bytes(srcs, st).len() == 0 || ends_with_newline(stream_bytes(srcs, st)),
    decreases srcs.len(),
{
    if srcs.len() > 0 {
        let d = srcs.drop_last();
        assert forall|i: int| 0 <= i < d.len() && (#[trigger] d[i]).0 == st implies ends_with_newline(d[i].1) by {
            assert(d[i] == srcs[i]);
        }
        lemma_stream_bytes_newline(d, st);
        if srcs.last().0 == st {
            assert(srcs[srcs.len() - 1] == srcs.last());
        } else {
            assert(stream_bytes(d, st) + Seq::<u8>::empty() =~= stream_bytes(d, st));
        }
    }
}

/// Decoding chunks separately and joining a stream's texts gives the lenient
/// decoding of all of the stream's bytes, when every chunk but the stream's
/// last ends with a newline.
pub proof fn lemma_stream_text_joins(srcs: Seq<(bool, Seq<u8>)>, st: bool)
    requires
        newline_ended_but_last(srcs),
    ensures
        stream_text(labelled(srcs), stream_label(st)) == utf8_lossy(stream_bytes(srcs, st)),
    decreases srcs.len(),
{
    lemma_lossy_empty();
    if srcs.len() == 0 {
        assert(stream_bytes(srcs, st) =~= Seq::<u8>::empty());
    } else {
        let d = srcs.drop_last();
        let c = srcs.last();
        assert forall|i: int, j: int| 0 <= i < j < d.len() && (#[trigger] d[i]).0 == (#[trigger] d[j]).0
            implies ends_with_newline(d[i].1) by {
            assert(d[i] == srcs[i] && d[j] == srcs[j]);
        }
        lemma_stream_text_joins(d, st);
        assert(labelled(srcs).drop_last() =~= labelled(d));
        assert(labelled(srcs).last() == (utf8_lossy(c.1), stream_label(c.0)));
        reveal_strlit("stdout");
        reveal_strlit("stderr");
        let x = stream_bytes(d, st);
        if c.0 == st {
            assert forall|i: int| 0 <= i < d.len() && (#[trigger] d[i]).0 == st implies ends_with_newline(d[i].1) by {
                assert(d[i] == srcs[i]);
                assert(srcs[srcs.len() - 1] == c);
            }
            lemma_stream_bytes_newline(d, st);
            if x.len() == 0 {
                assert(x + c.1 =~= c.1);
                assert(x =~= Seq::<u8>::empty());
                assert(stream_text(labelled(srcs), stream_label(st)) =~= utf8_lossy(x) + utf8_lossy(c.1));
            } else {
                lemma_lossy_split_after_newline(x, c.1);
            }
        } else {
            assert("stdout"@[3] != "stderr"@[3]);
            assert(stream_label(c.0) != stream_label(st));
            assert(x + Seq::<u8>::empty() =~= x);
            assert(stream_text(labelled(d), stream_label(st)) + Seq::<char>::empty() =~= stream_text(labelled(d), stream_label(st)));
        }
    }
}

/// The raw chunks once both streams ended keep every chunk of a stream but
/// its last ending with a newline, when the complete ones all do.
proof fn lemma_flushed_newlines(src: Seq<(bool, Seq<u8>)>, so: Seq<u8>, se: Seq<u8>)
    requires
        forall|i: int| 0 <= i < src.len() ==> ends_with_newline((#[trigger] src[i]).1),
    ensures
        newline_ended_but_last(flushed(src, so, se)),
{
    let f = flushed(src, so, se);
    assert forall|i: int, j: int| 0 <= i < j < f.len() && (#[trigger] f[i]).0 == (#[trigger] f[j]).0
        implies ends_with_newline(f[i].1) by {
        if i < src.len() {
            assert(f[i] == src[i]);
        } else {
            let s1 = src + (if so.len() > 0 { seq![(false, so)] } else { Seq::empty() });
            assert(i == src.len() && so.len() > 0);
            assert(f[i] == (false, so));
            assert(j == i + 1 && se.len() > 0);
            assert(f[j] == (true, se));
        }
    }
}

/// The chunks of a command's output, per stream: their texts joined in
/// order are the lenient decoding of everything the stream wrote, and every
/// chunk but a stream's last ends with a newline.
pub proof fn lemma_output_chunks(src: Seq<(bool, Seq<u8>)>, so: Seq<u8>, se: Seq<u8>)
    requires
        forall|i: int| 0 <= i < src.len() ==> ends_with_newline((#[trigger] src[i]).1),
    ensures
        ({
            let f = flushed(src, so, se);
            let cs = labelled(f);
            &&& stream_text(cs, "stdout"@) == utf8_lossy(stream_bytes(f, false))
            &&& stream_text(cs, "stderr"@) == utf8_lossy(stream_bytes(f, true))
            &&& forall|i: int, j: int| 0 <= i < j < cs.len() && (#[trigger] cs[i]).1 == (#[trigger] cs[j]).1
                ==> cs[i].0.len() > 0 && cs[i].0.last() == '\n'
        }),
{
    let f = flushed(src, so, se);
    let cs = labelled(f);
    lemma_flushed_newlines(src, so, se);
    lemma_stream_text_joins(f, false);
    lemma_stream_text_joins(f, true);
    reveal_strlit("stdout");
    reveal_strlit("stderr");
    assert("stdout"@[3] != "stderr"@[3]);
    assert forall|i: int, j: int| 0 <= i < j < cs.len() && (#[trigger] cs[i]).1 == (#[trigger] cs[j]).1
        implies cs[i].0.len() > 0 && cs[i].0.last() == '\n' by {
        assert(cs[i] == (utf8_lossy(f[i].1), stream_label(f[i].0)));
        assert(cs[j] == (utf8_lossy(f[j].1), stream_label(f[j].0)));
        assert(f[i].0 == f[j].0);
        lemma_lossy_ends_with_newline(f[i].1);
    }
}

/// Collects a command's output streams into chunks that end at a newline,
/// each with its stream, in the order they become complete; what follows
/// the last newline of a stream waits for more of it.
pub struct OutputCollector {
    stdout_pending: Vec<u8>,
    stderr_pending: Vec<u8>,
    chunks: Vec<(String, String)>,
    sources: Ghost<Seq<(bool, Seq<u8>)>>,
    taken_stdout: Ghost<Seq<u8>>,
    taken_stderr: Ghost<Seq<u8>>,
}

impl OutputCollector {
    /// The bytes of a stream that wait for a newline.
    pub closed spec fn pending(&self, is_stderr: bool) -> Seq<u8> {
        if is_stderr { self.stderr_pending@ } else { self.stdout_pending@ }
    }

    /// The complete chunks so far.
    pub closed spec fn chunks(&self) -> Seq<(Seq<char>, Seq<char>)> {
        chunks_view(self.chunks@)
    }

    /// The raw bytes of the complete chunks so far, with their streams.
    pub closed spec fn sources(&self) -> Seq<(bool, Seq<u8>)> {
        self.sources@
    }

    /// Everything taken in from a stream so far.
    pub closed spec fn taken(&self, is_stderr: bool) -> Seq<u8> {
        if is_stderr { self.taken_stderr@ } else { self.taken_stdout@ }
    }

    /// Each chunk is the lenient decoding of its raw bytes, which end with a
    /// newline; per stream, the raw chunks followed by what is pending are
    /// exactly what was taken in.
    pub closed spec fn wf(&self) -> bool {
        &&& self.chunks() == labelled(self.sources())
        &&& forall|i: int| 0 <= i < self.sources().len() ==> (#[trigger] self.sources()[i]).1.len() > 0
            && self.sources()[i].1.last() == 10u8
        &&& stream_bytes(self.sources(), false) + self.pending(false) == self.taken(false)
        &&& stream_bytes(self.sources(), true) + self.pending(true) == self.taken(true)
    }

    pub fn new() -> (c: Self)
        ensures
            c.wf(),
            c.pending(false) == Seq::<u8>::empty(),
            c.pending(true) == Seq::<u8>::empty(),
            c.chunks() == Seq::<(Seq<char>, Seq<char>)>::empty(),
            c.taken(false) == Seq::<u8>::empty(),
            c.taken(true) == Seq::<u8>::empty(),
    {
        let c = OutputCollector {
            stdout_pending: Vec::new(),
            stderr_pending: Vec::new(),
            chunks: Vec::new(),
            sources: Ghost(Seq::empty()),
            taken_stdout: Ghost(Seq::empty()),
            taken_stderr: Ghost(Seq::empty()),
        };
        proof {
            assert(chunks_view(c.chunks@) =~= Seq::<(Seq<char>, Seq<char>)>::empty());
            assert(labelled(Seq::empty()) =~= Seq::<(Seq<char>, Seq<char>)>::empty());
            assert(Seq::<u8>::empty() + Seq::<u8>::empty() =~= Seq::<u8>::empty());
        }
        c
    }

    /// Takes in bytes read from a stream: everything up to their last
    /// newline (with what was pending) becomes a chunk, decoded leniently;
    /// the rest waits.
    #[verifier::rlimit(40)]
    pub fn take_in(&mut self, is_stderr: bool, data: &[u8])
        requires
            old(self).wf(),
        ensures
            final(self).wf(),
            final(self).taken(is_stderr) == old(self).taken(is_stderr) + data@,
            final(self).taken(!is_stderr) == old(self).taken(!is_stderr),
            final(self).pending(!is_stderr) == old(self).pending(!is_stderr),
            ({
                let b = old(self).pending(is_stderr) + data@;
                let p = last_newline(b);
                if p >= 0 {
                    &&& final(self).chunks() == old(self).chunks().push(
                        (utf8_lossy(b.take(p + 1)), stream_label(is_stderr)),
                    )
                    &&& final(self).pending(is_stderr) == b.skip(p + 1)
                } else {
                    &&& final(self).chunks() == old(self).chunks()
                    &&& final(self).pending(is_stderr) == b
                }
            }),
    {
        let mut buf: Vec<u8> = Vec::new();
        if is_stderr {
            std::mem::swap(&mut buf, &mut self.stderr_pending);
        } else {
            std::mem::swap(&mut buf, &mut self.stdout_pending);
        }
        let ghost b0 = buf@;
        proof {
            assert(b0 == old(self).pending(is_stderr));
        }
        let mut i: usize = 0;
        while i < data.len()
            invariant
                i <= data@.len(),
                buf@ == b0 + data@.take(i as int),
            decreases data@.len() - i,
        {
            buf.push(data[i]);
            proof {
                assert(data@.take(i as int + 1) =~= data@.take(i as int).push(data@[i as int]));
            }
            i = i + 1;
        }
        proof {
            assert(data@.take(i as int) =~= data@);
            if is_stderr {
                self.taken_stderr = Ghost(self.taken_stderr@ + data@);
            } else {
                self.taken_stdout = Ghost(self.taken_stdout@ + data@);
            }
        }
        let ghost b = buf@;
        let mut k: usize = buf.len();
        proof {
            assert(b.take(k as int) =~= b);
        }
        while k > 0 && buf[k - 1] != 10u8
            invariant
                k <= buf@.len(),
                buf@ == b,
                last_newline(b.take(k as int)) == last_newline(b),
            decreases k,
        {
            proof {
                assert(b.take(k as int).drop_last() =~= b.take(k as int - 1));
            }
            k = k - 1;
        }
        proof {
            if k == 0 {
                assert(b.take(0) =~= Seq::<u8>::empty());
            } else {
                assert(b.take(k as int).last() == 10u8);
            }
        }
        if k > 0 {
            let rest = buf.split_off(k);
            let text = lossy_string(buf.as_slice());
            let label = if is_stderr { "stderr".to_owned() } else { "stdout".to_owned() };
            let ghost before = self.chunks@;
            let ghost src0 = self.sources@;
            self.chunks.push((text, label));
            proof {
                let c = (is_stderr, b.take(k as int));
                self.sources = Ghost(src0.push(c));
                assert(chunks_view(self.chunks@) =~= chunks_view(before).push((utf8_lossy(b.take(k as int)), stream_label(is_stderr))));
                assert(labelled(src0.push(c)) =~= labelled(src0).push((utf8_lossy(c.1), stream_label(c.0))));
                assert(buf@ =~= b.take(k as int));
                assert(rest@ =~= b.skip(k as int));
                lemma_stream_bytes_push(src0, c, is_stderr);
                lemma_stream_bytes_push(src0, c, !is_stderr);
                assert(b.take(k as int) + b.skip(k as int) =~= b);
                assert(c.1.last() == 10u8);
                assert forall|j: int| 0 <= j < self.sources@.len() implies (#[trigger] self.sources@[j]).1.len() > 0
                    && self.sources@[j].1.last() == 10u8 by {
                    if j < src0.len() {
                        assert(self.sources@[j] == src0[j]);
                    }
                }
            }
            if is_stderr {
                self.stderr_pending = rest;
            } else {
                self.stdout_pending = rest;
            }
            proof {
                let sb = stream_bytes(src0, is_stderr);
                assert(sb + b0 + data@ =~= sb + b.take(k as int) + b.skip(k as int));
            }
        } else {
            if is_stderr {
                self.stderr_pending = buf;
            } else {
                self.stdout_pending = buf;
            }
            proof {
                let sb = stream_bytes(self.sources@, is_stderr);
                assert(sb + (b0 + data@) =~= sb + b0 + data@);
            }
        }
    }

    /// The chunks once both streams ended: the complete ones, then what was
    /// pending on stdout, then on stderr, each only if not empty. Per
    /// stream, their raw bytes are everything taken in, in order.
    pub fn finish(self) -> (r: Vec<(String, String)>)
        requires
            self.wf(),
        ensures
            chunks_view(r@) == self.chunks()
                + (if self.pending(false).len() > 0 { seq![(utf8_lossy(self.pending(false)), "stdout"@)] } else { Seq::empty() })
                + (if self.pending(true).len() > 0 { seq![(utf8_lossy(self.pending(true)), "stderr"@)] } else { Seq::empty() }),
            chunks_view(r@) == labelled(flushed(self.sources(), self.pending(false), self.pending(true))),
            stream_bytes(flushed(self.sources(), self.pending(false), self.pending(true)), false) == self.taken(false),
            stream_bytes(flushed(self.sources(), self.pending(false), self.pending(true)), true) == self.taken(true),
            stream_text(chunks_view(r@), "stdout"@) == utf8_lossy(self.taken(false)),
            stream_text(chunks_view(r@), "stderr"@) == utf8_lossy(self.taken(true)),
            forall|i: int, j: int| 0 <= i < j < r@.len() && (#[trigger] r@[i]).1@ == (#[trigger] r@[j]).1@
                ==> r@[i].0@.len() > 0 && r@[i].0@.last() == '\n',
    {
        let ghost src = self.sources@;
        let ghost so = self.stdout_pending@;
        let ghost se = self.stderr_pending@;
        let OutputCollector { stdout_pending, stderr_pending, chunks, sources: _, taken_stdout: _, taken_stderr: _ } = self;
        let mut r = chunks;
        let ghost c0 = chunks_view(r@);
        if stdout_pending.len() > 0 {
            r.push((lossy_string(stdout_pending.as_slice()), "stdout".to_owned()));
        }
        let ghost c1 = chunks_view(r@);
        let ghost s1 = src + (if so.len() > 0 { seq![(false, so)] } else { Seq::empty() });
        proof {
            assert(c1 =~= c0 + (if stdout_pending@.len() > 0 { seq![(utf8_lossy(stdout_pending@), "stdout"@)] } else { Seq::empty() }));
            if so.len() > 0 {
                assert(s1 =~= src.push((false, so)));
                lemma_stream_bytes_push(src, (false, so), false);
                lemma_stream_bytes_push(src, (false, so), true);
            } else {
                assert(s1 =~= src);
            }
        }
        if stderr_pending.len() > 0 {
            r.push((lossy_string(stderr_pending.as_slice()), "stderr".to_owned()));
        }
        proof {
            assert(chunks_view(r@) =~= c1 + (if stderr_pending@.len() > 0 { seq![(utf8_lossy(stderr_pending@), "stderr"@)] } else { Seq::empty() }));
            let s2 = flushed(src, so, se);
            if se.len() > 0 {
                assert(s2 =~= s1.push((true, se)));
                lemma_stream_bytes_push(s1, (true, se), false);
                lemma_stream_bytes_push(s1, (true, se), true);
            } else {
                assert(s2 =~= s1);
            }
            assert(labelled(s2) =~= chunks_view(r@));
            assert(stream_bytes(src, false) + Seq::<u8>::empty() =~= stream_bytes(src, false));
            assert(stream_bytes(src, true) + Seq::<u8>::empty() =~= stream_bytes(src, true));
            assert(stream_bytes(s1, true) + Seq::<u8>::empty() =~= stream_bytes(s1, true));
            assert(stream_bytes(s1, false) + Seq::<u8>::empty() =~= stream_bytes(s1, false));
            lemma_output_chunks(src, so, se);
            assert forall|i: int, j: int| 0 <= i < j < r@.len() && (#[trigger] r@[i]).1@ == (#[trigger] r@[j]).1@
                implies r@[i].0@.len() > 0 && r@[i].0@.last() == '\n' by {
                assert(chunks_view(r@)[i] == chunk_view(r@[i]));
                assert(chunks_view(r@)[j] == chunk_view(r@[j]));
            }
        }
        r
    }
}

} // verus!
