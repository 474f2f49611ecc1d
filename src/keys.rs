//! Table keys: a file's path with the root's components taken off, rendered
//! as text with a separator.
use vstd::prelude::*;

verus! {

/// Whether `root`'s components begin `path`.
pub open spec fn is_under(root: Seq<Seq<char>>, path: Seq<Seq<char>>) -> bool {
    root.len() <= path.len() && path.take(root.len() as int) == root
}

/// The components written one after another with `sep` between each two.
pub open spec fn joined(parts: Seq<Seq<char>>, sep: Seq<char>) -> Seq<char>
    decreases parts.len(),
{
    if parts.len() == 0 {
        Seq::empty()
    } else if parts.len() == 1 {
        parts[0]
    } else {
        joined(parts.drop_last(), sep) + sep + parts.last()
    }
}

/// The key of `path` below `root`: what follows the root's components,
/// joined by `sep`.
pub open spec fn key_below(root: Seq<Seq<char>>, path: Seq<Seq<char>>, sep: Seq<char>) -> Seq<
    char,
> {
    joined(path.skip(root.len() as int), sep)
}

/// Whether `root`'s components begin `path`, for a path at least as long.
fn same_head(root: &Vec<String>, path: &Vec<String>) -> (r: bool)
    requires
        root.len() <= path.len(),
    ensures
        r == is_under(root.deep_view(), path.deep_view()),
{
    let mut i: usize = 0;
    while i < root.len()
        invariant
            i <= root.len() <= path.len(),
            forall|k: int| 0 <= k < i ==> root.deep_view()[k] == path.deep_view()[k],
        decreases root.len() - i,
    {
        if !(root[i] == path[i]) {
            assert(path.deep_view().take(root.len() as int)[i as int] != root.deep_view()[i as int]);
            return false;
        }
        i += 1;
    }
    assert(path.deep_view().take(root.len() as int) =~= root.deep_view());
    true
}

/// The key of a file at `path` in a table rooted at `root`, with `sep`
/// between components; none where the path does not lie below the root.
pub fn relative_key(root: &Vec<String>, path: &Vec<String>, sep: &str) -> (r: Option<String>)
    ensures
        r is Some <==> is_under(root.deep_view(), path.deep_view()),
        r is Some ==> r->Some_0@ == key_below(root.deep_view(), path.deep_view(), sep@),
{
    if root.len() > path.len() {
        return None;
    }
    if !same_head(root, path) {
        return None;
    }
    let ghost parts = path.deep_view();
    let ghost start = root.len() as int;
    let mut key = String::new();
    let mut j: usize = root.len();
    while j < path.len()
        invariant
            root.len() <= j <= path.len(),
            parts == path.deep_view(),
            start == root.len(),
            key@ == joined(parts.subrange(start, j as int), sep@),
        decreases path.len() - j,
    {
        assert(parts.subrange(start, j + 1).drop_last() =~= parts.subrange(start, j as int));
        if j > root.len() {
            key.append(sep);
        }
        key.append(path[j].as_str());
        j += 1;
    }
    assert(parts.subrange(start, path.len() as int) =~= parts.skip(start));
    Some(key)
}

} // verus!
