//! Request-path resolution helpers.
//!
//! A request path is trimmed of trailing slashes, joined onto the served
//! root and canonicalized by the caller; the guard here accepts only
//! canonical paths that stay inside the canonical root. The decision
//! functions turn the facts the caller gathered (does the path exist, is
//! it a directory, does a sibling `.tar` file exist) into the action the
//! response must take.

use vstd::prelude::*;
use vstd::string::*;

verus! {

/// `s` without its trailing `/` characters.
pub open spec fn trim_trailing_slashes(s: Seq<char>) -> Seq<char>
    decreases s.len(),
{
    if s.len() > 0 && s.last() == '/' {
        trim_trailing_slashes(s.drop_last())
    } else {
        s
    }
}

proof fn lemma_trim_take(s: Seq<char>, i: int)
    requires
        0 <= i <= s.len(),
        forall|j: int| i <= j < s.len() ==> s[j] == '/',
        i == 0 || s[i - 1] != '/',
    ensures
        trim_trailing_slashes(s) == s.take(i),
    decreases s.len(),
{
    if s.len() == 0 {
        assert(s.take(0) =~= s);
    } else if s.last() == '/' {
        assert(i < s.len());
        lemma_trim_take(s.drop_last(), i);
        assert(s.drop_last().take(i) =~= s.take(i));
    } else {
        assert(i == s.len());
        assert(s.take(i) =~= s);
    }
}

/// `s` with all trailing `/` characters removed.
pub fn trim_slashes(s: &str) -> (r: &str)
    ensures
        r@ == trim_trailing_slashes(s@),
{
    let n = s.unicode_len();
    let mut i = n;
    while i > 0 && s.get_char(i - 1) == '/'
        invariant
            0 <= i <= n,
            n == s@.len(),
            forall|j: int| i <= j < s@.len() ==> s@[j] == '/',
        decreases i,
    {
        i = i - 1;
    }
    proof {
        lemma_trim_take(s@, i as int);
    }
    s.substring_char(0, i)
}

/// A canonical path `c` lies inside the canonical root `root`: it is the
/// root itself, or the root followed by a `/`-separated remainder. A root
/// of `/` contains every absolute path.
pub open spec fn is_descendant_spec(root: Seq<char>, c: Seq<char>) -> bool {
    if root =~= seq!['/'] {
        c.len() > 0 && c[0] == '/'
    } else {
        c =~= root || (c.len() > root.len() && c.take(root.len() as int) =~= root && c[root.len()
            as int] == '/')
    }
}

/// Decides whether the canonical path `c` stays inside the canonical
/// root; the path-traversal guard.
pub fn is_descendant(root: &str, c: &str) -> (r: bool)
    ensures
        r == is_descendant_spec(root@, c@),
{
    let root_len = root.unicode_len();
    let c_len = c.unicode_len();
    if root_len == 1 && root.get_char(0) == '/' {
        proof {
            assert(root@ =~= seq!['/']);
        }
        return c_len > 0 && c.get_char(0) == '/';
    }
    proof {
        assert(!(root@ =~= seq!['/']));
    }
    if c_len < root_len {
        proof {
            assert(!(c@ =~= root@));
        }
        return false;
    }
    let mut i: usize = 0;
    while i < root_len
        invariant
            0 <= i <= root_len,
            root_len == root@.len(),
            c_len == c@.len(),
            root_len <= c_len,
            forall|j: int| 0 <= j < i ==> c@[j] == root@[j],
        decreases root_len - i,
    {
        if c.get_char(i) != root.get_char(i) {
            proof {
                assert(!(c@ =~= root@));
                assert(!(c@.take(root@.len() as int) =~= root@));
            }
            return false;
        }
        i = i + 1;
    }
    if c_len == root_len {
        proof {
            assert(c@ =~= root@);
        }
        true
    } else {
        proof {
            assert(c@.take(root@.len() as int) =~= root@);
            assert(!(c@ =~= root@));
        }
        c.get_char(root_len) == '/'
    }
}

/// What a `.tar` request must do.
#[derive(PartialEq, Eq, Structural, Debug, Clone, Copy)]
pub enum TarAction {
    /// A real file named `<path>.tar` is already on disk inside the root:
    /// serve it byte for byte, without walking anything.
    ServeExisting,
    /// The path is a directory inside the root: stream a fresh archive.
    StreamArchive,
    /// Missing target, or a canonical path outside the root.
    NotFound,
}

/// The action for a `.tar` request, given the canonical root, the
/// canonicalized stripped target (`None` when it does not exist), the
/// canonicalized literal `<path>.tar` sibling (`None` when it does not
/// exist), whether that sibling is a regular file, and whether the
/// target is a directory. The existing-file bypass comes first, before
/// any walk, and does not need the stripped target to exist at all:
/// only the `.tar` file itself, inside the root. Each canonical path
/// is held to the traversal guard on its own.
pub open spec fn tar_action_spec(
    root: Seq<char>,
    canonical: Option<Seq<char>>,
    tar_canonical: Option<Seq<char>>,
    tar_is_file: bool,
    is_directory: bool,
) -> TarAction {
    let serve_existing = match tar_canonical {
        Option::Some(t) => is_descendant_spec(root, t) && tar_is_file,
        Option::None => false,
    };
    if serve_existing {
        TarAction::ServeExisting
    } else {
        match canonical {
            Option::None => TarAction::NotFound,
            Option::Some(c) => if !is_descendant_spec(root, c) {
                TarAction::NotFound
            } else if is_directory {
                TarAction::StreamArchive
            } else {
                TarAction::NotFound
            },
        }
    }
}

/// Decides a `.tar` request; see `tar_action_spec`.
pub fn tar_request_action(
    root: &str,
    canonical: Option<&str>,
    tar_canonical: Option<&str>,
    tar_is_file: bool,
    is_directory: bool,
) -> (a: TarAction)
    ensures
        a == tar_action_spec(
            root@,
            match canonical {
                Option::Some(c) => Option::Some(c@),
                Option::None => Option::None,
            },
            match tar_canonical {
                Option::Some(t) => Option::Some(t@),
                Option::None => Option::None,
            },
            tar_is_file,
            is_directory,
        ),
{
    let serve_existing = match tar_canonical {
        Option::Some(t) => is_descendant(root, t) && tar_is_file,
        Option::None => false,
    };
    if serve_existing {
        TarAction::ServeExisting
    } else {
        match canonical {
            Option::None => TarAction::NotFound,
            Option::Some(c) => {
                if !is_descendant(root, c) {
                    TarAction::NotFound
                } else if is_directory {
                    TarAction::StreamArchive
                } else {
                    TarAction::NotFound
                }
            },
        }
    }
}

/// What a `.zip` request must do.
#[derive(PartialEq, Eq, Structural, Debug, Clone, Copy)]
pub enum ZipAction {
    /// The path is a directory inside the root: build the archive.
    BuildArchive,
    /// Missing target, a non-directory, or a path outside the root.
    NotFound,
}

/// The action for a `.zip` request: build only for a directory whose
/// canonical path stays inside the root.
pub open spec fn zip_action_spec(
    root: Seq<char>,
    canonical: Option<Seq<char>>,
    is_directory: bool,
) -> ZipAction {
    match canonical {
        Option::None => ZipAction::NotFound,
        Option::Some(c) => if is_descendant_spec(root, c) && is_directory {
            ZipAction::BuildArchive
        } else {
            ZipAction::NotFound
        },
    }
}

/// Decides a `.zip` request; see `zip_action_spec`.
pub fn zip_request_action(root: &str, canonical: Option<&str>, is_directory: bool) -> (a: ZipAction)
    ensures
        a == zip_action_spec(
            root@,
            match canonical {
                Option::Some(c) => Option::Some(c@),
                Option::None => Option::None,
            },
            is_directory,
        ),
{
    match canonical {
        Option::None => ZipAction::NotFound,
        Option::Some(c) => {
            if is_descendant(root, c) && is_directory {
                ZipAction::BuildArchive
            } else {
                ZipAction::NotFound
            }
        },
    }
}

/// The final path component of `s`: everything after the last `/`.
pub open spec fn basename_spec(s: Seq<char>) -> Seq<char>
    decreases s.len(),
{
    if s.len() == 0 {
        s
    } else if s.last() == '/' {
        Seq::empty()
    } else {
        basename_spec(s.drop_last()).push(s.last())
    }
}

/// The final path component of `s`.
pub fn basename(s: &str) -> (r: &str)
    ensures
        r@ == basename_spec(s@),
{
    let n = s.unicode_len();
    let mut i = n;
    while i > 0 && s.get_char(i - 1) != '/'
        invariant
            0 <= i <= n,
            n == s@.len(),
            forall|j: int| i <= j < s@.len() ==> s@[j] != '/',
        decreases i,
    {
        i = i - 1;
    }
    proof {
        lemma_basename_skip(s@, i as int);
    }
    s.substring_char(i, n)
}

proof fn lemma_basename_skip(s: Seq<char>, i: int)
    requires
        0 <= i <= s.len(),
        forall|j: int| i <= j < s.len() ==> s[j] != '/',
        i == 0 || s[i - 1] == '/',
    ensures
        basename_spec(s) == s.skip(i),
    decreases s.len(),
{
    if s.len() == 0 {
        assert(s.skip(0) =~= s);
    } else if s.last() == '/' {
        assert(i == s.len());
        assert(s.skip(i) =~= Seq::<char>::empty());
    } else {
        if i == s.len() {
            assert(s[i - 1] == '/');
            assert(s[i - 1] != '/');
        }
        lemma_basename_skip(s.drop_last(), i);
        assert(basename_spec(s.drop_last()).push(s.last()) =~= s.skip(i));
    }
}

/// The attachment name for a zip of the directory requested as `tail`:
/// the basename of the trimmed tail, with a `.zip` extension.
pub open spec fn zip_download_name_spec(tail: Seq<char>) -> Seq<char> {
    basename_spec(trim_trailing_slashes(tail)) + ".zip"@
}

/// The download filename for a zip of the directory requested as `tail`.
pub fn zip_download_name(tail: &str) -> (r: String)
    ensures
        r@ == zip_download_name_spec(tail@),
{
    let trimmed = trim_slashes(tail);
    let base = basename(trimmed);
    let mut out = String::new();
    out.append(base);
    out.append(".zip");
    out
}

/// The body of every missing-target response.
pub fn not_found_message() -> (r: &'static str)
    ensures
        r@ == "Directory not found\n"@,
{
    "Directory not found\n"
}

} // verus!
