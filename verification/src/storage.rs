//! Where the body of a page is kept on disk.

use crate::text::chars_of;
use vstd::prelude::*;

verus! {

/// `path` without the slashes at its start.
pub open spec fn without_leading_slashes(path: Seq<char>) -> Seq<char>
    decreases path.len(),
{
    if path.len() > 0 && path[0] == '/' {
        without_leading_slashes(path.drop_first())
    } else {
        path
    }
}

/// `path` without the slashes at its end.
pub open spec fn without_trailing_slashes(path: Seq<char>) -> Seq<char>
    decreases path.len(),
{
    if path.len() > 0 && path.last() == '/' {
        without_trailing_slashes(path.drop_last())
    } else {
        path
    }
}

/// `path` without the slashes at its start and at its end.
pub open spec fn without_outer_slashes(path: Seq<char>) -> Seq<char> {
    without_trailing_slashes(without_leading_slashes(path))
}

/// The file that keeps the page at `url_path`, below the storage
/// directory: the path without its outer slashes, or `index` where nothing
/// is left of it, with the extension `.html`.
pub open spec fn document_path_of(url_path: Seq<char>) -> Seq<char> {
    let inner = without_outer_slashes(url_path);
    if inner.len() == 0 {
        "index.html"@
    } else {
        inner + ".html"@
    }
}

/// The file that keeps the page at `url_path`, below the storage directory.
pub fn document_path(url_path: &str) -> (file: String)
    ensures
        file@ == document_path_of(url_path@),
{
    let chars = chars_of(url_path);
    let ghost path = url_path@;
    let mut from: usize = 0;
    proof {
        assert(path.skip(0) =~= path);
    }
    while from < chars.len() && chars[from] == '/'
        invariant
            from <= chars.len(),
            chars@ == path,
            without_leading_slashes(path) == without_leading_slashes(path.skip(from as int)),
        decreases chars.len() - from,
    {
        proof {
            assert(path.skip(from as int).drop_first() =~= path.skip(from + 1));
        }
        from = from + 1;
    }
    let ghost rest = path.skip(from as int);
    proof {
        assert(without_leading_slashes(path) == rest);
        assert(rest =~= path.subrange(from as int, path.len() as int));
    }
    let mut to: usize = chars.len();
    while to > from && chars[to - 1] == '/'
        invariant
            from <= to <= chars.len(),
            chars@ == path,
            without_trailing_slashes(rest) == without_trailing_slashes(
                path.subrange(from as int, to as int),
            ),
        decreases to,
    {
        proof {
            assert(path.subrange(from as int, to as int).drop_last() =~= path.subrange(
                from as int,
                to - 1,
            ));
        }
        to = to - 1;
    }
    proof {
        assert(without_outer_slashes(path) == path.subrange(from as int, to as int));
    }
    if from == to {
        "index.html".to_owned()
    } else {
        let mut file = url_path.substring_char(from, to).to_owned();
        file.append(".html");
        file
    }
}

} // verus!
