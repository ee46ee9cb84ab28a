//! Paths through the trust graph, and who lies within a distance budget.

use crate::record::TrustLevel;
use crate::timestamp::Timestamped;
use crate::trustdb::TrustDistanceParams;
use vstd::prelude::*;

verus! {

/// The length of the edge from `a` to `b`, where `a` has stated a level of
/// trust in `b` that passes trust on.
pub open spec fn edge_distance(
    edges: Map<Seq<u8>, Map<Seq<u8>, Timestamped<TrustLevel>>>,
    params: TrustDistanceParams,
    a: Seq<u8>,
    b: Seq<u8>,
) -> Option<u64> {
    if edges.contains_key(a) && edges[a].contains_key(b) {
        params.spec_distance_by_level(edges[a][b].value)
    } else {
        None
    }
}

/// The length of the step from `path[i]` to `path[i + 1]`.
pub open spec fn step_distance(
    edges: Map<Seq<u8>, Map<Seq<u8>, Timestamped<TrustLevel>>>,
    params: TrustDistanceParams,
    path: Seq<Seq<u8>>,
    i: int,
) -> Option<u64> {
    edge_distance(edges, params, path[i], path[i + 1])
}

/// `path` is not empty and every step of it follows an edge.
pub open spec fn is_trust_path(
    edges: Map<Seq<u8>, Map<Seq<u8>, Timestamped<TrustLevel>>>,
    params: TrustDistanceParams,
    path: Seq<Seq<u8>>,
) -> bool {
    &&& path.len() > 0
    &&& forall|i: int|
        0 <= i < path.len() - 1 ==> (#[trigger] step_distance(edges, params, path, i)) is Some
}

/// The sum of the lengths of the steps of `path`.
pub open spec fn path_distance(
    edges: Map<Seq<u8>, Map<Seq<u8>, Timestamped<TrustLevel>>>,
    params: TrustDistanceParams,
    path: Seq<Seq<u8>>,
) -> nat
    decreases path.len(),
{
    if path.len() <= 1 {
        0
    } else {
        path_distance(edges, params, path.drop_last()) + step_distance(
            edges,
            params,
            path,
            path.len() - 2,
        ).unwrap() as nat
    }
}

/// `path` leads from `root` to `id` and is no longer than `budget`.
pub open spec fn leads_to(
    edges: Map<Seq<u8>, Map<Seq<u8>, Timestamped<TrustLevel>>>,
    params: TrustDistanceParams,
    root: Seq<u8>,
    id: Seq<u8>,
    budget: int,
    path: Seq<Seq<u8>>,
) -> bool {
    &&& is_trust_path(edges, params, path)
    &&& path[0] == root
    &&& path.last() == id
    &&& path_distance(edges, params, path) <= budget
}

/// Some path from `root` to `id` is no longer than `budget`.
pub open spec fn within(
    edges: Map<Seq<u8>, Map<Seq<u8>, Timestamped<TrustLevel>>>,
    params: TrustDistanceParams,
    root: Seq<u8>,
    id: Seq<u8>,
    budget: int,
) -> bool {
    exists|path: Seq<Seq<u8>>| leads_to(edges, params, root, id, budget, path)
}

/// Everybody that `root` trusts: those within `params.max_distance` of it.
pub open spec fn trust_set(
    edges: Map<Seq<u8>, Map<Seq<u8>, Timestamped<TrustLevel>>>,
    params: TrustDistanceParams,
    root: Seq<u8>,
) -> Set<Seq<u8>> {
    Set::new(|id: Seq<u8>| within(edges, params, root, id, params.max_distance as int))
}

/// The root is within any budget of itself.
pub proof fn lemma_root_within(
    edges: Map<Seq<u8>, Map<Seq<u8>, Timestamped<TrustLevel>>>,
    params: TrustDistanceParams,
    root: Seq<u8>,
    budget: int,
)
    requires
        0 <= budget,
    ensures
        within(edges, params, root, root, budget),
{
    let path = seq![root];
    assert(leads_to(edges, params, root, root, budget, path));
}

/// A larger budget reaches at least as far.
pub proof fn lemma_within_monotone(
    edges: Map<Seq<u8>, Map<Seq<u8>, Timestamped<TrustLevel>>>,
    params: TrustDistanceParams,
    root: Seq<u8>,
    id: Seq<u8>,
    small: int,
    large: int,
)
    requires
        within(edges, params, root, id, small),
        small <= large,
    ensures
        within(edges, params, root, id, large),
{
    let path = choose|path: Seq<Seq<u8>>| leads_to(edges, params, root, id, small, path);
    assert(leads_to(edges, params, root, id, large, path));
}

/// Whoever is within `budget`, and has an edge of length `w` to `v`, brings
/// `v` within `budget + w`.
pub proof fn lemma_within_extend(
    edges: Map<Seq<u8>, Map<Seq<u8>, Timestamped<TrustLevel>>>,
    params: TrustDistanceParams,
    root: Seq<u8>,
    u: Seq<u8>,
    v: Seq<u8>,
    budget: int,
    w: u64,
)
    requires
        within(edges, params, root, u, budget),
        edge_distance(edges, params, u, v) == Some(w),
    ensures
        within(edges, params, root, v, budget + w),
{
    let path = choose|path: Seq<Seq<u8>>| leads_to(edges, params, root, u, budget, path);
    let longer = path.push(v);
    assert(longer.drop_last() =~= path);
    assert forall|i: int| 0 <= i < longer.len() - 1 implies (#[trigger] step_distance(
        edges,
        params,
        longer,
        i,
    )) is Some by {
        if i < path.len() - 1 {
            assert(step_distance(edges, params, path, i) is Some);
            assert(longer[i] == path[i] && longer[i + 1] == path[i + 1]);
        } else {
            assert(longer[i] == u && longer[i + 1] == v);
        }
    }
    assert(step_distance(edges, params, longer, longer.len() - 2) == Some(w));
    assert(leads_to(edges, params, root, v, budget + w, longer));
}

/// A prefix of a path is a path, and is no longer than the whole.
pub proof fn lemma_path_prefix(
    edges: Map<Seq<u8>, Map<Seq<u8>, Timestamped<TrustLevel>>>,
    params: TrustDistanceParams,
    path: Seq<Seq<u8>>,
)
    requires
        is_trust_path(edges, params, path),
        path.len() > 1,
    ensures
        is_trust_path(edges, params, path.drop_last()),
        step_distance(edges, params, path, path.len() - 2) is Some,
        path_distance(edges, params, path) == path_distance(edges, params, path.drop_last())
            + step_distance(edges, params, path, path.len() - 2).unwrap(),
{
    let shorter = path.drop_last();
    assert forall|i: int| 0 <= i < shorter.len() - 1 implies (#[trigger] step_distance(
        edges,
        params,
        shorter,
        i,
    )) is Some by {
        assert(step_distance(edges, params, path, i) is Some);
        assert(shorter[i] == path[i] && shorter[i + 1] == path[i + 1]);
    }
    assert(step_distance(edges, params, path, path.len() - 2) is Some);
}

} // verus!
