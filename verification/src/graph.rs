//! Paths and circles: names that lead to names.

use vstd::prelude::*;

verus! {

/// Whether each name on `path` leads to the next.
pub open spec fn is_path(
    leads: spec_fn(Seq<char>, Seq<char>) -> bool,
    path: Seq<Seq<char>>,
) -> bool
    decreases path.len(),
{
    path.len() <= 1 || (is_path(leads, path.drop_last()) && leads(
        path[path.len() - 2],
        path.last(),
    ))
}

/// Whether `path` leads from a name back to it.
pub open spec fn is_circle(
    leads: spec_fn(Seq<char>, Seq<char>) -> bool,
    path: Seq<Seq<char>>,
) -> bool {
    &&& path.len() >= 2
    &&& path[0] == path.last()
    &&& is_path(leads, path)
}

/// Whether what each name in `order` leads to comes before it.
pub open spec fn settled(
    leads: spec_fn(Seq<char>, Seq<char>) -> bool,
    order: Seq<Seq<char>>,
) -> bool {
    forall|k: int, name: Seq<char>|
        0 <= k < order.len() && #[trigger] leads(order[k], name) ==> order.take(k).contains(name)
}

/// A path goes on to what its last name leads to.
pub proof fn lemma_path_push(
    leads: spec_fn(Seq<char>, Seq<char>) -> bool,
    path: Seq<Seq<char>>,
    name: Seq<char>,
)
    requires
        is_path(leads, path),
        path.len() > 0 ==> leads(path.last(), name),
    ensures
        is_path(leads, path.push(name)),
{
    assert(path.push(name).drop_last() =~= path);
}

/// What is left of a path without its first names is a path.
pub proof fn lemma_path_skip(
    leads: spec_fn(Seq<char>, Seq<char>) -> bool,
    path: Seq<Seq<char>>,
    k: int,
)
    requires
        is_path(leads, path),
        0 <= k <= path.len(),
    ensures
        is_path(leads, path.skip(k)),
    decreases path.len(),
{
    if path.len() - k > 1 {
        lemma_path_skip(leads, path.drop_last(), k);
        assert(path.skip(k).drop_last() =~= path.drop_last().skip(k));
    }
}

/// A path that comes back to one of its names holds a circle.
pub proof fn lemma_circle(
    leads: spec_fn(Seq<char>, Seq<char>) -> bool,
    path: Seq<Seq<char>>,
    k: int,
)
    requires
        is_path(leads, path),
        0 <= k < path.len() - 1,
        path[k] == path.last(),
    ensures
        is_circle(leads, path.skip(k)),
{
    lemma_path_skip(leads, path, k);
}

/// From a name in a settled order, each step of a path goes back in that order.
proof fn lemma_back(
    leads: spec_fn(Seq<char>, Seq<char>) -> bool,
    order: Seq<Seq<char>>,
    path: Seq<Seq<char>>,
    i: int,
) -> (j: int)
    requires
        settled(leads, order),
        is_path(leads, path),
        path.len() > 0,
        0 <= i < order.len(),
        order[i] == path[0],
    ensures
        0 <= j <= i - (path.len() - 1),
        order[j] == path.last(),
    decreases path.len(),
{
    if path.len() == 1 {
        i
    } else {
        let before = lemma_back(leads, order, path.drop_last(), i);
        assert(leads(order[before], path.last()));
        let j = choose|j: int|
            0 <= j < order.take(before).len() && order.take(before)[j] == path.last();
        j
    }
}

/// No circle goes through a settled order.
pub proof fn lemma_no_circle(
    leads: spec_fn(Seq<char>, Seq<char>) -> bool,
    order: Seq<Seq<char>>,
    path: Seq<Seq<char>>,
    i: int,
)
    requires
        settled(leads, order),
        path.len() > 0,
        0 <= i < order.len(),
        order[i] == path[0],
    ensures
        !is_circle(leads, path),
    decreases i,
{
    if is_circle(leads, path) {
        let j = lemma_back(leads, order, path, i);
        lemma_no_circle(leads, order, path, j);
    }
}

/// The first name on a path leads to the second.
pub proof fn lemma_first_step(leads: spec_fn(Seq<char>, Seq<char>) -> bool, path: Seq<Seq<char>>)
    requires
        is_path(leads, path),
        path.len() >= 2,
    ensures
        leads(path[0], path[1]),
    decreases path.len(),
{
    if path.len() > 2 {
        lemma_first_step(leads, path.drop_last());
    }
}

} // verus!
