//! The sandbox: every user-supplied path is resolved relative to the
//! repository root, and nothing outside the root is ever handed out.
use vstd::prelude::*;
use crate::protocol::{
    DetailValue, DetailView, EngineError, EngineErrorView, ErrorCode, details_view,
    detailed_error, path_detail,
};
use crate::text::push_str;

verus! {

/// What the file system says about a path: it does not exist, it exists and
/// canonicalizes to the given path, or canonicalizing it failed with the
/// given message.
#[derive(Debug, Clone, PartialEq)]
pub enum PathProbe {
    Missing,
    Canonical(String),
    Failed(String),
}

/// The mathematical content of a [`PathProbe`].
pub enum ProbeView {
    Missing,
    Canonical(Seq<char>),
    Failed(Seq<char>),
}

impl View for PathProbe {
    type V = ProbeView;

    open spec fn view(&self) -> ProbeView {
        match self {
            PathProbe::Missing => ProbeView::Missing,
            PathProbe::Canonical(c) => ProbeView::Canonical(c@),
            PathProbe::Failed(m) => ProbeView::Failed(m@),
        }
    }
}

/// A path that starts at the file system root.
pub open spec fn is_absolute_path(p: Seq<char>) -> bool {
    p.len() > 0 && p[0] == '/'
}

/// A `..` component occurs at char `i`.
pub open spec fn parent_component_at(p: Seq<char>, i: int) -> bool {
    &&& 0 <= i
    &&& i + 2 <= p.len()
    &&& p[i] == '.'
    &&& p[i + 1] == '.'
    &&& (i == 0 || p[i - 1] == '/')
    &&& (i + 2 == p.len() || p[i + 2] == '/')
}

/// Some component of the path is `..`.
pub open spec fn has_parent_component(p: Seq<char>) -> bool {
    exists|i: int| parent_component_at(p, i)
}

/// A relative path joined onto a root, as `Path::join` does it.
pub open spec fn joined(root: Seq<char>, user: Seq<char>) -> Seq<char> {
    if root.len() > 0 && root.last() == '/' {
        root + user
    } else {
        root + seq!['/'] + user
    }
}

/// `p` is the root or lies below it, component-wise.
pub open spec fn within_root(root: Seq<char>, p: Seq<char>) -> bool {
    ||| p == root
    ||| (p.len() > root.len() && p.take(root.len() as int) == root && ((root.len() > 0
        && root.last() == '/') || p[root.len() as int] == '/'))
}

pub open spec fn path_details(user: Seq<char>) -> Seq<(Seq<char>, DetailView)> {
    seq![("path"@, DetailView::Str(user))]
}

pub open spec fn io_details(user: Seq<char>, io: Seq<char>) -> Seq<(Seq<char>, DetailView)> {
    seq![("path"@, DetailView::Str(user)), ("io"@, DetailView::Str(io))]
}

/// Where a user path resolves to, given what the file system says about the
/// joined path and its parent, or why it is refused.
pub open spec fn resolve_spec(
    root: Seq<char>,
    user: Seq<char>,
    target: ProbeView,
    parent: ProbeView,
) -> Result<Seq<char>, EngineErrorView> {
    if is_absolute_path(user) {
        Err(detailed_error(ErrorCode::PathOutsideRoot, "Absolute paths are not allowed"@, path_details(user)))
    } else if has_parent_component(user) {
        Err(detailed_error(ErrorCode::PathOutsideRoot, "Path traversal is not allowed"@, path_details(user)))
    } else {
        match target {
            ProbeView::Canonical(c) => if within_root(root, c) {
                Ok(c)
            } else {
                Err(detailed_error(ErrorCode::PathOutsideRoot, "Resolved path is outside repo root"@, path_details(user)))
            },
            ProbeView::Failed(m) => Err(detailed_error(ErrorCode::IoError, "Failed to canonicalize path"@, io_details(user, m))),
            ProbeView::Missing => match parent {
                ProbeView::Canonical(c) => if within_root(root, c) {
                    Ok(joined(root, user))
                } else {
                    Err(detailed_error(ErrorCode::PathOutsideRoot, "Resolved parent is outside repo root"@, path_details(user)))
                },
                ProbeView::Failed(m) => Err(detailed_error(ErrorCode::IoError, "Failed to canonicalize parent"@, io_details(user, m))),
                ProbeView::Missing => Ok(joined(root, user)),
            },
        }
    }
}

/// The repository root that all paths are resolved against.
pub struct Workspace {
    repo_root: String,
}

impl Workspace {
    /// The root, as a sequence of chars.
    pub closed spec fn root(&self) -> Seq<char> {
        self.repo_root@
    }

    /// A workspace rooted at `repo_root`, which must already be the canonical
    /// absolute form of the root directory.
    pub fn new(repo_root: String) -> (w: Self)
        ensures
            w.root() == repo_root@,
    {
        Workspace { repo_root }
    }

    pub fn repo_root(&self) -> (r: &str)
        ensures
            r@ == self.root(),
    {
        self.repo_root.as_str()
    }

    /// The user path joined onto the root.
    pub fn join(&self, user_path: &str) -> (r: String)
        ensures
            r@ == joined(self.root(), user_path@),
    {
        let mut r = self.repo_root.clone();
        let n = self.repo_root.as_str().unicode_len();
        if n > 0 && self.repo_root.as_str().get_char(n - 1) == '/' {
            push_str(&mut r, user_path);
        } else {
            push_str(&mut r, "/");
            proof {
                reveal_strlit("/");
            }
            push_str(&mut r, user_path);
        }
        r
    }

    /// Resolves a user-supplied path: absolute paths and `..` components
    /// are refused; an existing target must canonicalize inside the root
    /// and is given in canonical form; a missing target is given joined
    /// onto the root, provided its parent, if it exists, lies inside the
    /// root.
    pub fn resolve_path(&self, user_path: &str, target: &PathProbe, parent: &PathProbe) -> (r: Result<String, EngineError>)
        ensures
            match r {
                Ok(p) => resolve_spec(self.root(), user_path@, target@, parent@) == Ok::<Seq<char>, EngineErrorView>(p@),
                Err(e) => resolve_spec(self.root(), user_path@, target@, parent@) == Err::<Seq<char>, EngineErrorView>(e@),
            },
    {
        if is_absolute(user_path) {
            return Err(EngineError::new(ErrorCode::PathOutsideRoot, "Absolute paths are not allowed".to_owned())
                .with_details(path_detail(user_path)));
        }
        if has_parent_dir(user_path) {
            return Err(EngineError::new(ErrorCode::PathOutsideRoot, "Path traversal is not allowed".to_owned())
                .with_details(path_detail(user_path)));
        }
        match target {
            PathProbe::Canonical(c) => {
                if self.contains(c.as_str()) {
                    Ok(c.clone())
                } else {
                    Err(EngineError::new(ErrorCode::PathOutsideRoot, "Resolved path is outside repo root".to_owned())
                        .with_details(path_detail(user_path)))
                }
            },
            PathProbe::Failed(m) => Err(io_error("Failed to canonicalize path", user_path, m.as_str())),
            PathProbe::Missing => match parent {
                PathProbe::Canonical(c) => {
                    if self.contains(c.as_str()) {
                        Ok(self.join(user_path))
                    } else {
                        Err(EngineError::new(ErrorCode::PathOutsideRoot, "Resolved parent is outside repo root".to_owned())
                            .with_details(path_detail(user_path)))
                    }
                },
                PathProbe::Failed(m) => Err(io_error("Failed to canonicalize parent", user_path, m.as_str())),
                PathProbe::Missing => Ok(self.join(user_path)),
            },
        }
    }

    /// `p` is the root or lies below it.
    pub fn contains(&self, p: &str) -> (r: bool)
        ensures
            r == within_root(self.root(), p@),
    {
        let root = self.repo_root.as_str();
        let rn = root.unicode_len();
        let pn = p.unicode_len();
        if pn < rn {
            proof {
                if p@ == root@ {
                    assert(false);
                }
            }
            return false;
        }
        let mut i: usize = 0;
        while i < rn
            invariant
                root@ == self.root(),
                rn == root@.len(),
                pn == p@.len(),
                rn <= pn,
                i <= rn,
                forall|k: int| 0 <= k < i ==> root@[k] == p@[k],
            decreases rn - i,
        {
            if root.get_char(i) != p.get_char(i) {
                proof {
                    assert(p@.take(rn as int)[i as int] != root@[i as int]);
                    assert(p@.take(rn as int) != root@);
                    if p@ == root@ {
                        assert(p@[i as int] == root@[i as int]);
                    }
                }
                return false;
            }
            i = i + 1;
        }
        proof {
            assert(p@.take(rn as int) =~= root@);
        }
        if pn == rn {
            proof {
                assert(p@ =~= root@);
            }
            return true;
        }
        (rn > 0 && root.get_char(rn - 1) == '/') || p.get_char(rn) == '/'
    }
}

/// An `IoError` with the path and the I/O message as details.
pub fn io_error(message: &str, user_path: &str, io: &str) -> (e: EngineError)
    ensures
        e@ == detailed_error(ErrorCode::IoError, message@, io_details(user_path@, io@)),
{
    let mut d: Vec<(String, DetailValue)> = Vec::new();
    d.push(("path".to_owned(), DetailValue::Str(user_path.to_owned())));
    d.push(("io".to_owned(), DetailValue::Str(io.to_owned())));
    proof {
        assert(details_view(d@) =~= io_details(user_path@, io@));
    }
    EngineError::new(ErrorCode::IoError, message.to_owned()).with_details(d)
}

/// The path starts at the file system root.
pub fn is_absolute(p: &str) -> (r: bool)
    ensures
        r == is_absolute_path(p@),
{
    p.unicode_len() > 0 && p.get_char(0) == '/'
}

/// Some component of the path is `..`.
pub fn has_parent_dir(p: &str) -> (r: bool)
    ensures
        r == has_parent_component(p@),
{
    let n = p.unicode_len();
    let mut i: usize = 0;
    while n >= 2 && i <= n - 2
        invariant
            n == p@.len(),
            forall|k: int| 0 <= k < i ==> !parent_component_at(p@, k),
        decreases n - i,
    {
        if p.get_char(i) == '.' && p.get_char(i + 1) == '.' && (i == 0 || p.get_char(i - 1) == '/')
            && (i + 2 == n || p.get_char(i + 2) == '/') {
            proof {
                assert(parent_component_at(p@, i as int));
            }
            return true;
        }
        i = i + 1;
    }
    proof {
        assert forall|k: int| !parent_component_at(p@, k) by {
            if k >= i {
                assert(n < 2 || k > n - 2);
            }
        }
    }
    false
}

/// The sandbox never hands out a path outside the root: whatever the file
/// system reports, a resolved path is the root or lies below it.
pub proof fn lemma_resolved_within_root(root: Seq<char>, user: Seq<char>, target: ProbeView, parent: ProbeView)
    ensures
        resolve_spec(root, user, target, parent) matches Ok(p) ==> within_root(root, p),
{
    let j = joined(root, user);
    if root.len() > 0 && root.last() == '/' {
        assert(j.take(root.len() as int) =~= root);
        if user.len() == 0 {
            assert(j =~= root);
        }
    } else {
        assert(j.take(root.len() as int) =~= root);
        assert(j[root.len() as int] == '/');
    }
}

/// A relative path without a `..` component is accepted wherever the file
/// system places it inside the root: an existing target is given in its
/// canonical form; a new target is given joined onto the root, whether its
/// parent does not exist yet (nested paths being created) or exists inside
/// the root.
pub proof fn lemma_inside_paths_resolve(root: Seq<char>, user: Seq<char>, target: ProbeView, parent: ProbeView)
    requires
        !is_absolute_path(user),
        !has_parent_component(user),
    ensures
        target matches ProbeView::Canonical(c) ==> (within_root(root, c)
            ==> resolve_spec(root, user, target, parent) == Ok::<Seq<char>, EngineErrorView>(c)),
        target is Missing && parent is Missing
            ==> resolve_spec(root, user, target, parent) == Ok::<Seq<char>, EngineErrorView>(joined(root, user)),
        target is Missing ==> (parent matches ProbeView::Canonical(c) ==> (within_root(root, c)
            ==> resolve_spec(root, user, target, parent) == Ok::<Seq<char>, EngineErrorView>(joined(root, user)))),
{
}

/// Absolute paths and paths with a `..` component are refused, whatever the
/// file system reports.
pub proof fn lemma_escapes_refused(root: Seq<char>, user: Seq<char>, target: ProbeView, parent: ProbeView)
    requires
        is_absolute_path(user) || has_parent_component(user),
    ensures
        resolve_spec(root, user, target, parent) matches Err(e) && e.code == ErrorCode::PathOutsideRoot,
{
}

} // verus!
