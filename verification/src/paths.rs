//! Path text: parents, prefixes and the directory labels shown in plans and previews.

use crate::text::{has_char, push_str, split_on, starts_with};
use std::path::Path;
use vstd::prelude::*;

verus! {

/// An absolute path in the form a canonical scan produces: `/`, or `/`-separated
/// non-empty segments other than `.` and `..`, with no trailing slash.
pub open spec fn clean_abs(p: Seq<char>) -> bool {
    ||| p == seq!['/']
    ||| {
        &&& p.len() > 1
        &&& p[0] == '/'
        &&& p.last() != '/'
        &&& forall|k: int|
            0 <= k < split_on(p.skip(1), '/').len() ==> {
                let seg = #[trigger] split_on(p.skip(1), '/')[k];
                seg.len() > 0 && seg != seq!['.'] && seg != seq!['.', '.']
            }
    }
}

/// Index of the last `/` in `p`.
pub open spec fn last_slash(p: Seq<char>) -> int
    decreases p.len(),
{
    if p.len() == 0 {
        -1
    } else if p.last() == '/' {
        p.len() - 1
    } else {
        last_slash(p.drop_last())
    }
}

/// The parent of a clean absolute path, as `Path::parent` gives it.
pub open spec fn clean_parent(p: Seq<char>) -> Option<Seq<char>> {
    if p == seq!['/'] {
        None
    } else if last_slash(p) <= 0 {
        Some(seq!['/'])
    } else {
        Some(p.take(last_slash(p)))
    }
}

/// `Path::strip_prefix` between clean absolute paths.
pub open spec fn clean_strip_prefix(p: Seq<char>, base: Seq<char>) -> Option<Seq<char>> {
    if base == seq!['/'] {
        Some(p.skip(1))
    } else if p == base {
        Some(Seq::<char>::empty())
    } else if starts_with(p, base.push('/')) {
        Some(p.skip(base.len() as int + 1))
    } else {
        None
    }
}

/// What `Path::parent` returns for `p`, as text.
pub uninterp spec fn path_parent_of(p: Seq<char>) -> Option<Seq<char>>;

/// Whether `Path::new(a) == Path::new(b)` (component-wise equality).
pub uninterp spec fn path_eq_of(a: Seq<char>, b: Seq<char>) -> bool;

/// What `Path::strip_prefix` returns for `p` and `base`, as text.
pub uninterp spec fn path_strip_of(p: Seq<char>, base: Seq<char>) -> Option<Seq<char>>;

/// `Path::parent`. The result is named by `path_parent_of`; it is the path without its
/// final component, as the documentation says, so it is shorter than `p`; for a clean
/// absolute path it is the text before the last `/`.
#[verifier::external_body]
pub(crate) fn path_parent(p: &str) -> (r: Option<String>)
    ensures
        match r {
            Some(s) => path_parent_of(p@) == Some(s@) && s@.len() < p@.len(),
            None => path_parent_of(p@) == None::<Seq<char>>,
        },
        clean_abs(p@) ==> match r {
            Some(s) => clean_parent(p@) == Some(s@),
            None => clean_parent(p@) == None::<Seq<char>>,
        },
{
    Path::new(p).parent().map(|q| q.to_string_lossy().into_owned())
}

/// `Path` equality, which compares components. The result is named by `path_eq_of`;
/// for clean absolute paths it is text equality.
#[verifier::external_body]
pub(crate) fn path_eq(a: &str, b: &str) -> (r: bool)
    ensures
        r == path_eq_of(a@, b@),
        clean_abs(a@) && clean_abs(b@) ==> (r <==> a@ == b@),
{
    Path::new(a) == Path::new(b)
}

/// `Path::strip_prefix`, as text. The result is named by `path_strip_of`; for clean
/// absolute paths it is the rest after `base` and its separator, when `base` is a
/// leading run of whole components.
#[verifier::external_body]
pub(crate) fn path_strip_prefix(p: &str, base: &str) -> (r: Option<String>)
    ensures
        match r {
            Some(s) => path_strip_of(p@, base@) == Some(s@),
            None => path_strip_of(p@, base@) == None::<Seq<char>>,
        },
        clean_abs(p@) && clean_abs(base@) ==> match r {
            Some(s) => clean_strip_prefix(p@, base@) == Some(s@),
            None => clean_strip_prefix(p@, base@) == None::<Seq<char>>,
        },
{
    Path::new(p).strip_prefix(base).ok().map(|q| q.to_string_lossy().into_owned())
}

/// The directory label of `path` relative to `root`: `.` for the root itself, the
/// path below the root, or the absolute parent when it lies elsewhere.
pub open spec fn spec_parent_relative(path: Seq<char>, root: Seq<char>) -> Seq<char> {
    let parent = match path_parent_of(path) {
        Some(q) => q,
        None => seq!['/'],
    };
    if path_eq_of(parent, root) {
        seq!['.']
    } else {
        match path_strip_of(parent, root) {
            Some(rel) => rel,
            None => parent,
        }
    }
}

/// Directory label of `path` relative to `root` (see `spec_parent_relative`).
pub fn parent_relative(path: &str, root: &str) -> (r: String)
    ensures
        r@ == spec_parent_relative(path@, root@),
{
    let parent = match path_parent(path) {
        Some(q) => q,
        None => {
            let mut s = String::new();
            push_str(&mut s, "/");
            proof {
                reveal_strlit("/");
                assert(s@ =~= seq!['/']);
            }
            s
        },
    };
    if path_eq(parent.as_str(), root) {
        let mut s = String::new();
        push_str(&mut s, ".");
        proof {
            reveal_strlit(".");
            assert(s@ =~= seq!['.']);
        }
        s
    } else {
        match path_strip_prefix(parent.as_str(), root) {
            Some(rel) => rel,
            None => parent,
        }
    }
}


/// What `Path::file_name` returns for `p`, as text.
pub uninterp spec fn path_file_name_of(p: Seq<char>) -> Option<Seq<char>>;

/// `Path::file_name`: the last component. The result is named by `path_file_name_of`;
/// for a clean absolute path other than `/` it is the text after the last `/`, and for
/// `/` there is none, as the documentation says.
#[verifier::external_body]
pub(crate) fn path_file_name(p: &str) -> (r: Option<String>)
    ensures
        match r {
            Some(s) => path_file_name_of(p@) == Some(s@),
            None => path_file_name_of(p@) == None::<Seq<char>>,
        },
        clean_abs(p@) ==> match r {
            Some(s) => p@ != seq!['/'] && s@ == p@.skip(last_slash(p@) + 1),
            None => p@ == seq!['/'],
        },
{
    Path::new(p).file_name().map(|n| n.to_string_lossy().into_owned())
}

} // verus!
