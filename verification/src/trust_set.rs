//! The walk through the trust graph that finds everybody within the
//! distance budget of a root: a best-first relaxation that always goes on
//! from the nearest identity it has not yet gone on from.

use crate::bytes::{bytes_lt, rank_bytes, Rank};
use crate::id::Id;
use crate::ordset::{OrdSet, Ordered};
use crate::reach::{
    edge_distance, is_trust_path, lemma_path_prefix, lemma_root_within, lemma_within_extend,
    lemma_within_monotone, path_distance, step_distance, trust_set, within,
};
use crate::record::TrustLevel;
use crate::timestamp::Timestamped;
use crate::trustdb::TrustDistanceParams;
use crate::vecmap::VecMap;
use vstd::prelude::*;

verus! {

/// An identity waiting to be gone on from, with the distance at which it was reached.
/// Visits are ordered by distance, then by identity.
#[derive(Debug, PartialEq, Eq, PartialOrd, Ord)]
pub struct Visit {
    pub distance: u64,
    pub id: Id,
}

impl View for Visit {
    type V = (u64, Seq<u8>);

    open spec fn view(&self) -> (u64, Seq<u8>) {
        (self.distance, self.id@)
    }
}

impl Ordered for Visit {
    open spec fn precedes(a: (u64, Seq<u8>), b: (u64, Seq<u8>)) -> bool {
        a.0 < b.0 || (a.0 == b.0 && bytes_lt(a.1, b.1))
    }

    proof fn lemma_strict_total_order(a: (u64, Seq<u8>), b: (u64, Seq<u8>), c: (u64, Seq<u8>)) {
        crate::bytes::lemma_bytes_lt_irreflexive(a.1);
        if bytes_lt(a.1, b.1) && bytes_lt(b.1, c.1) {
            crate::bytes::lemma_bytes_lt_transitive(a.1, b.1, c.1);
        }
        crate::bytes::lemma_bytes_lt_connected(a.1, b.1);
    }

    fn rank(&self, other: &Self) -> (r: Rank) {
        if self.distance < other.distance {
            Rank::Before
        } else if self.distance > other.distance {
            Rank::After
        } else {
            rank_bytes(self.id.as_slice(), other.id.as_slice())
        }
    }
}

/// What an identity counts for in the measure of the work left: the distance
/// at which it was reached, or one more than the budget while it was not.
spec fn cost(reached: Map<Seq<u8>, u64>, id: Seq<u8>, max: u64) -> nat {
    if reached.contains_key(id) {
        reached[id] as nat
    } else {
        max as nat + 1
    }
}

/// The cost of the targets of one identity's edges.
spec fn row_cost(targets: Seq<Seq<u8>>, reached: Map<Seq<u8>, u64>, max: u64) -> nat
    decreases targets.len(),
{
    if targets.len() == 0 {
        0
    } else {
        row_cost(targets.drop_last(), reached, max) + cost(reached, targets.last(), max)
    }
}

/// The cost of the targets of all edges.
spec fn total_cost(rows: Seq<Seq<Seq<u8>>>, reached: Map<Seq<u8>, u64>, max: u64) -> nat
    decreases rows.len(),
{
    if rows.len() == 0 {
        0
    } else {
        total_cost(rows.drop_last(), reached, max) + row_cost(rows.last(), reached, max)
    }
}

/// Nobody costs more in `after` than in `before`.
spec fn improves(before: Map<Seq<u8>, u64>, after: Map<Seq<u8>, u64>, max: u64) -> bool {
    forall|x: Seq<u8>| #[trigger] cost(after, x, max) <= cost(before, x, max)
}

/// Where nobody costs more, a row costs no more.
proof fn lemma_row_cost_improves(
    targets: Seq<Seq<u8>>,
    before: Map<Seq<u8>, u64>,
    after: Map<Seq<u8>, u64>,
    max: u64,
)
    requires
        improves(before, after, max),
    ensures
        row_cost(targets, after, max) <= row_cost(targets, before, max),
    decreases targets.len(),
{
    if targets.len() > 0 {
        lemma_row_cost_improves(targets.drop_last(), before, after, max);
        assert(cost(after, targets.last(), max) <= cost(before, targets.last(), max));
    }
}

/// Where nobody costs more and one target of a row costs less, the row costs less.
proof fn lemma_row_cost_strict(
    targets: Seq<Seq<u8>>,
    before: Map<Seq<u8>, u64>,
    after: Map<Seq<u8>, u64>,
    max: u64,
    i: int,
)
    requires
        improves(before, after, max),
        0 <= i < targets.len(),
        cost(after, targets[i], max) < cost(before, targets[i], max),
    ensures
        row_cost(targets, after, max) < row_cost(targets, before, max),
    decreases targets.len(),
{
    if i == targets.len() - 1 {
        lemma_row_cost_improves(targets.drop_last(), before, after, max);
    } else {
        lemma_row_cost_strict(targets.drop_last(), before, after, max, i);
        assert(cost(after, targets.last(), max) <= cost(before, targets.last(), max));
    }
}

/// Where nobody costs more, all rows together cost no more.
proof fn lemma_total_cost_improves(
    rows: Seq<Seq<Seq<u8>>>,
    before: Map<Seq<u8>, u64>,
    after: Map<Seq<u8>, u64>,
    max: u64,
)
    requires
        improves(before, after, max),
    ensures
        total_cost(rows, after, max) <= total_cost(rows, before, max),
    decreases rows.len(),
{
    if rows.len() > 0 {
        lemma_total_cost_improves(rows.drop_last(), before, after, max);
        lemma_row_cost_improves(rows.last(), before, after, max);
    }
}

/// Where nobody costs more and one target costs less, all rows together cost less.
proof fn lemma_total_cost_strict(
    rows: Seq<Seq<Seq<u8>>>,
    before: Map<Seq<u8>, u64>,
    after: Map<Seq<u8>, u64>,
    max: u64,
    a: int,
    i: int,
)
    requires
        improves(before, after, max),
        0 <= a < rows.len(),
        0 <= i < rows[a].len(),
        cost(after, rows[a][i], max) < cost(before, rows[a][i], max),
    ensures
        total_cost(rows, after, max) < total_cost(rows, before, max),
    decreases rows.len(),
{
    if a == rows.len() - 1 {
        lemma_total_cost_improves(rows.drop_last(), before, after, max);
        lemma_row_cost_strict(rows.last(), before, after, max, i);
    } else {
        lemma_total_cost_strict(rows.drop_last(), before, after, max, a, i);
        lemma_row_cost_improves(rows.last(), before, after, max);
    }
}

/// Everybody reached so far lies within the distance noted for it, and that
/// distance is within the budget.
spec fn sound(
    edges: Map<Seq<u8>, Map<Seq<u8>, Timestamped<TrustLevel>>>,
    params: TrustDistanceParams,
    root: Seq<u8>,
    reached: Map<Seq<u8>, u64>,
) -> bool {
    forall|v: Seq<u8>| #[trigger]
        reached.contains_key(v) ==> reached[v] <= params.max_distance && within(
            edges,
            params,
            root,
            v,
            reached[v] as int,
        )
}

/// The edge from `u` to `v`, if there is one, was followed from distance `from`
/// unless that leaves the budget.
spec fn edge_relaxed(
    edges: Map<Seq<u8>, Map<Seq<u8>, Timestamped<TrustLevel>>>,
    params: TrustDistanceParams,
    reached: Map<Seq<u8>, u64>,
    u: Seq<u8>,
    v: Seq<u8>,
    from: u64,
) -> bool {
    match edge_distance(edges, params, u, v) {
        Some(w) => from + w <= params.max_distance ==> reached.contains_key(v) && reached[v]
            <= from + w,
        None => true,
    }
}

/// Every edge of `u` was followed from the distance noted for `u`.
spec fn relaxed(
    edges: Map<Seq<u8>, Map<Seq<u8>, Timestamped<TrustLevel>>>,
    params: TrustDistanceParams,
    reached: Map<Seq<u8>, u64>,
    u: Seq<u8>,
) -> bool {
    forall|v: Seq<u8>| #[trigger] edge_relaxed(edges, params, reached, u, v, reached[u])
}

/// `u` waits in the frontier at the distance noted for it, or its edges were
/// all followed from that distance.
spec fn settled(
    edges: Map<Seq<u8>, Map<Seq<u8>, Timestamped<TrustLevel>>>,
    params: TrustDistanceParams,
    reached: Map<Seq<u8>, u64>,
    frontier: Set<(u64, Seq<u8>)>,
    u: Seq<u8>,
) -> bool {
    frontier.contains((reached[u], u)) || relaxed(edges, params, reached, u)
}

/// Whoever waits in the frontier was reached, at no more than the distance it waits at.
spec fn frontier_reached(
    reached: Map<Seq<u8>, u64>,
    frontier: Set<(u64, Seq<u8>)>,
) -> bool {
    forall|e: (u64, Seq<u8>)| #[trigger]
        frontier.contains(e) ==> reached.contains_key(e.1) && reached[e.1] <= e.0
}

/// What holds of the walk between any two of its steps.
spec fn walk_inv(
    edges: Map<Seq<u8>, Map<Seq<u8>, Timestamped<TrustLevel>>>,
    params: TrustDistanceParams,
    root: Seq<u8>,
    reached: Map<Seq<u8>, u64>,
    frontier: Set<(u64, Seq<u8>)>,
) -> bool {
    &&& frontier.finite()
    &&& reached.contains_key(root)
    &&& reached[root] == 0
    &&& sound(edges, params, root, reached)
    &&& frontier_reached(reached, frontier)
}

/// Once every identity reached has had its edges followed, whatever a path
/// within the budget leads to was reached, at no more than the length of the path.
proof fn lemma_walk_complete(
    edges: Map<Seq<u8>, Map<Seq<u8>, Timestamped<TrustLevel>>>,
    params: TrustDistanceParams,
    root: Seq<u8>,
    reached: Map<Seq<u8>, u64>,
    path: Seq<Seq<u8>>,
)
    requires
        reached.contains_key(root),
        reached[root] == 0,
        forall|u: Seq<u8>| #[trigger]
            reached.contains_key(u) ==> relaxed(edges, params, reached, u),
        is_trust_path(edges, params, path),
        path[0] == root,
        path_distance(edges, params, path) <= params.max_distance,
    ensures
        reached.contains_key(path.last()),
        reached[path.last()] <= path_distance(edges, params, path),
    decreases path.len(),
{
    if path.len() > 1 {
        lemma_path_prefix(edges, params, path);
        let shorter = path.drop_last();
        lemma_walk_complete(edges, params, root, reached, shorter);
        let u = shorter.last();
        let v = path.last();
        assert(u == path[path.len() - 2]);
        assert(relaxed(edges, params, reached, u));
        assert(edge_relaxed(edges, params, reached, u, v, reached[u]));
        assert(step_distance(edges, params, path, path.len() - 2) == edge_distance(
            edges,
            params,
            u,
            v,
        ));
    }
}

/// Going on from `u`, reached at no more than `from`, along an edge of length
/// `w` to `v` improves on what was noted for `v`: all that holds of the walk
/// holds on.
proof fn lemma_improve(
    edges: Map<Seq<u8>, Map<Seq<u8>, Timestamped<TrustLevel>>>,
    params: TrustDistanceParams,
    root: Seq<u8>,
    reached: Map<Seq<u8>, u64>,
    frontier: Set<(u64, Seq<u8>)>,
    u: Seq<u8>,
    from: u64,
    v: Seq<u8>,
    w: u64,
)
    requires
        walk_inv(edges, params, root, reached, frontier),
        reached.contains_key(u),
        reached[u] <= from,
        edge_distance(edges, params, u, v) == Some(w),
        from + w <= params.max_distance,
        !reached.contains_key(v) || reached[v] > from + w,
    ensures
        walk_inv(
            edges,
            params,
            root,
            reached.insert(v, (from + w) as u64),
            frontier.insert(((from + w) as u64, v)),
        ),
        improves(reached, reached.insert(v, (from + w) as u64), params.max_distance),
        cost(reached.insert(v, (from + w) as u64), v, params.max_distance) < cost(
            reached,
            v,
            params.max_distance,
        ),
        forall|x: Seq<u8>|
            reached.contains_key(x) && #[trigger] settled(edges, params, reached, frontier, x) && x
                != v ==> settled(
                edges,
                params,
                reached.insert(v, (from + w) as u64),
                frontier.insert(((from + w) as u64, v)),
                x,
            ),
        settled(
            edges,
            params,
            reached.insert(v, (from + w) as u64),
            frontier.insert(((from + w) as u64, v)),
            v,
        ),
{
    let total = (from + w) as u64;
    let reached2 = reached.insert(v, total);
    let frontier2 = frontier.insert((total, v));
    lemma_within_monotone(edges, params, root, u, reached[u] as int, from as int);
    lemma_within_extend(edges, params, root, u, v, from as int, w);
    assert(sound(edges, params, root, reached2));
    assert(frontier_reached(reached2, frontier2));
    assert forall|x: Seq<u8>| #[trigger] cost(reached2, x, params.max_distance) <= cost(
        reached,
        x,
        params.max_distance,
    ) by {}
    assert forall|x: Seq<u8>|
        reached.contains_key(x) && #[trigger] settled(edges, params, reached, frontier, x) && x
            != v implies settled(edges, params, reached2, frontier2, x) by {
        lemma_settled_kept(edges, params, reached, frontier, reached2, frontier2, x);
    }
}

/// An identity that stays where it was stays settled while others come nearer
/// and the frontier grows.
proof fn lemma_settled_kept(
    edges: Map<Seq<u8>, Map<Seq<u8>, Timestamped<TrustLevel>>>,
    params: TrustDistanceParams,
    reached: Map<Seq<u8>, u64>,
    frontier: Set<(u64, Seq<u8>)>,
    reached2: Map<Seq<u8>, u64>,
    frontier2: Set<(u64, Seq<u8>)>,
    x: Seq<u8>,
)
    requires
        reached.contains_key(x),
        settled(edges, params, reached, frontier, x),
        reached2.contains_key(x),
        reached2[x] == reached[x],
        frontier.subset_of(frontier2),
        forall|y: Seq<u8>| #[trigger]
            reached.contains_key(y) ==> reached2.contains_key(y) && reached2[y] <= reached[y],
    ensures
        settled(edges, params, reached2, frontier2, x),
{
    if !frontier.contains((reached[x], x)) {
        assert forall|y: Seq<u8>| #[trigger]
            edge_relaxed(edges, params, reached2, x, y, reached2[x]) by {
            assert(edge_relaxed(edges, params, reached, x, y, reached[x]));
        }
    }
}

/// The targets of each identity's edges, in the order in which they are held.
spec fn rows_of(edges: &VecMap<Id, VecMap<Id, Timestamped<TrustLevel>>>) -> Seq<
    Seq<Seq<u8>>,
> {
    edges.vals().map_values(|row: VecMap<Id, Timestamped<TrustLevel>>| row.keys())
}

/// Every row of edges is well formed, as the whole is.
pub open spec fn edges_wf(edges: &VecMap<Id, VecMap<Id, Timestamped<TrustLevel>>>) -> bool {
    &&& edges.wf()
    &&& forall|k: Seq<u8>| #[trigger] edges.map().contains_key(k) ==> edges.map()[k].wf()
}

/// The edges of the graph that leave the `a`-th source are the entries of the `a`-th row.
proof fn lemma_row_is_edges(
    edges: &VecMap<Id, VecMap<Id, Timestamped<TrustLevel>>>,
    params: TrustDistanceParams,
    a: int,
)
    requires
        edges_wf(edges),
        0 <= a < edges.keys().len(),
    ensures
        edges.vals()[a].wf(),
        forall|i: int|
            0 <= i < edges.vals()[a].keys().len() ==> edge_distance(
                edges@,
                params,
                edges.keys()[a],
                #[trigger] edges.vals()[a].keys()[i],
            ) == params.spec_distance_by_level(edges.vals()[a].vals()[i].value),
        forall|v: Seq<u8>|
            (#[trigger] edge_distance(edges@, params, edges.keys()[a], v)) is Some
                ==> edges.vals()[a].keys().contains(v),
{
    edges.lemma_entries();
    let u = edges.keys()[a];
    let row = edges.vals()[a];
    assert(edges.map().contains_key(u));
    assert(edges.map()[u] == row);
    row.lemma_entries();
    assert(edges@[u] == row@);
    assert forall|i: int| 0 <= i < row.keys().len() implies edge_distance(
        edges@,
        params,
        u,
        #[trigger] row.keys()[i],
    ) == params.spec_distance_by_level(row.vals()[i].value) by {
        let v = row.keys()[i];
        assert(row.map().contains_key(v));
        assert(row.map()[v] == row.vals()[i]);
        assert(row@.contains_key(v));
        assert(row@[v] == row.map()[v]@);
    }
}

/// An identity that is no source of edges has no edge in the graph.
proof fn lemma_no_row_no_edges(
    edges: &VecMap<Id, VecMap<Id, Timestamped<TrustLevel>>>,
    params: TrustDistanceParams,
    u: Seq<u8>,
)
    requires
        !edges.map().contains_key(u),
    ensures
        forall|v: Seq<u8>| (#[trigger] edge_distance(edges@, params, u, v)) is None,
{
}

/// Notes that `candidate` was reached at `total` where that improves on what
/// was noted for it, and then lets it wait in the frontier at that distance.
fn note_reached(
    visited: &mut VecMap<Id, u64>,
    pending: &mut OrdSet<Visit>,
    candidate: &Id,
    total: u64,
) -> (improved: bool)
    requires
        old(visited).wf(),
        old(pending).wf(),
    ensures
        final(visited).wf(),
        final(pending).wf(),
        improved == (!old(visited).map().contains_key(candidate@) || old(visited).map()[candidate@]
            > total),
        improved ==> final(visited).map() == old(visited).map().insert(candidate@, total)
            && final(pending)@ == old(pending)@.insert((total, candidate@)),
        !improved ==> final(visited).map() == old(visited).map() && final(pending)@ == old(
            pending,
        )@,
{
    match visited.position(candidate) {
        Some(k) => {
            proof {
                visited.lemma_entries();
            }
            if *visited.value_at(k) > total {
                let noted = visited.value_at_mut(k);
                *noted = total;
                pending.insert(Visit { distance: total, id: candidate.clone() });
                true
            } else {
                false
            }
        },
        None => {
            visited.push_new(candidate.clone(), total);
            pending.insert(Visit { distance: total, id: candidate.clone() });
            true
        },
    }
}

/// Everybody within `params.max_distance` of `root` in the graph of `edges`.
pub fn walk(
    edges: &VecMap<Id, VecMap<Id, Timestamped<TrustLevel>>>,
    root: &Id,
    params: &TrustDistanceParams,
) -> (trusted: OrdSet<Id>)
    requires
        edges_wf(edges),
    ensures
        trusted.wf(),
        trusted@ == trust_set(edges@, *params, root@),
{
    let ghost graph = edges@;
    let ghost rows = rows_of(edges);
    let ghost max = params.max_distance;
    let mut pending: OrdSet<Visit> = OrdSet::new();
    pending.insert(Visit { distance: 0, id: root.clone() });
    let mut visited: VecMap<Id, u64> = VecMap::new();
    visited.push_new(root.clone(), 0u64);
    proof {
        pending.lemma_enumeration();
        lemma_root_within(graph, *params, root@, 0);
        assert(walk_inv(graph, *params, root@, visited.map(), pending@));
    }
    loop
        invariant
            edges_wf(edges),
            graph == edges@,
            rows == rows_of(edges),
            max == params.max_distance,
            visited.wf(),
            pending.wf(),
            walk_inv(graph, *params, root@, visited.map(), pending@),
            forall|x: Seq<u8>| #[trigger]
                visited.map().contains_key(x) ==> settled(
                    graph,
                    *params,
                    visited.map(),
                    pending@,
                    x,
                ),
        ensures
            pending@ == Set::<(u64, Seq<u8>)>::empty(),
        decreases total_cost(rows, visited.map(), max) + pending@.len(),
    {
        let ghost reached0 = visited.map();
        let ghost frontier0 = pending@;
        let current = match pending.pop_first() {
            Some(current) => current,
            None => {
                break ;
            },
        };
        let ghost u = current.id@;
        let ghost from = current.distance;
        proof {
            assert(frontier0.contains((from, u)));
            assert(pending@.len() == frontier0.len() - 1);
            assert(walk_inv(graph, *params, root@, reached0, pending@));
            assert forall|x: Seq<u8>| #[trigger] reached0.contains_key(x) && x != u implies settled(
                graph,
                *params,
                reached0,
                pending@,
                x,
            ) by {
                assert(settled(graph, *params, reached0, frontier0, x));
            }
            assert(settled(graph, *params, reached0, frontier0, u));
        }
        let stale = match visited.get(&current.id) {
            Some(noted) => *noted < current.distance,
            None => false,
        };
        if !stale {
            assert(reached0[u] == from);
            match edges.position(&current.id) {
                Some(a) => {
                    let row = edges.value_at(a);
                    proof {
                        lemma_row_is_edges(edges, *params, a as int);
                        edges.lemma_entries();
                        assert(rows[a as int] == row.keys());
                        row.lemma_entries();
                    }
                    let mut i: usize = 0;
                    while i < row.len()
                        invariant
                            edges_wf(edges),
                            graph == edges@,
                            rows == rows_of(edges),
                            max == params.max_distance,
                            visited.wf(),
                            pending.wf(),
                            row.wf(),
                            0 <= a < rows.len(),
                            rows[a as int] == row.keys(),
                            u == current.id@,
                            from == current.distance,
                            i <= row.keys().len(),
                            row.keys().len() == row.vals().len(),
                            forall|k: int|
                                0 <= k < row.keys().len() ==> edge_distance(
                                    graph,
                                    *params,
                                    u,
                                    #[trigger] row.keys()[k],
                                ) == params.spec_distance_by_level(row.vals()[k].value),
                            walk_inv(graph, *params, root@, visited.map(), pending@),
                            visited.map().contains_key(u),
                            visited.map()[u] <= from,
                            forall|x: Seq<u8>| #[trigger]
                                visited.map().contains_key(x) && x != u ==> settled(
                                    graph,
                                    *params,
                                    visited.map(),
                                    pending@,
                                    x,
                                ),
                            pending@.contains((visited.map()[u], u)) || (visited.map()[u] == from
                                && forall|k: int|
                                0 <= k < i ==> edge_relaxed(
                                    graph,
                                    *params,
                                    visited.map(),
                                    u,
                                    #[trigger] row.keys()[k],
                                    from,
                                )),
                            total_cost(rows, visited.map(), max) + pending@.len() < total_cost(
                                rows,
                                reached0,
                                max,
                            ) + frontier0.len(),
                        decreases row.keys().len() - i,
                    {
                        let candidate = row.key_at(i);
                        let level = row.value_at(i).value;
                        let ghost reached1 = visited.map();
                        let ghost frontier1 = pending@;
                        let ghost v = candidate@;
                        let mut improved = false;
                        match params.distance_by_level(level) {
                            Some(w) => match current.distance.checked_add(w) {
                                Some(total) => {
                                    if total <= params.max_distance {
                                        improved =
                                        note_reached(&mut visited, &mut pending, candidate, total);
                                        proof {
                                            if improved {
                                                lemma_improve(
                                                    graph,
                                                    *params,
                                                    root@,
                                                    reached1,
                                                    frontier1,
                                                    u,
                                                    from,
                                                    v,
                                                    w,
                                                );
                                                lemma_total_cost_strict(
                                                    rows,
                                                    reached1,
                                                    visited.map(),
                                                    max,
                                                    a as int,
                                                    i as int,
                                                );
                                            }
                                        }
                                    }
                                },
                                None => {},
                            },
                            None => {},
                        }
                        proof {
                            let reached2 = visited.map();
                            let frontier2 = pending@;
                            assert(edge_relaxed(graph, *params, reached2, u, v, from));
                            if !frontier2.contains((reached2[u], u)) {
                                assert(!frontier1.contains((reached1[u], u)));
                                assert forall|k: int| 0 <= k < i + 1 implies edge_relaxed(
                                    graph,
                                    *params,
                                    reached2,
                                    u,
                                    #[trigger] row.keys()[k],
                                    from,
                                ) by {
                                    if k < i {
                                        assert(edge_relaxed(
                                            graph,
                                            *params,
                                            reached1,
                                            u,
                                            row.keys()[k],
                                            from,
                                        ));
                                    }
                                }
                            }
                        }
                        i += 1;
                    }
                    proof {
                        let reached2 = visited.map();
                        if !pending@.contains((reached2[u], u)) {
                            assert forall|y: Seq<u8>| #[trigger]
                                edge_relaxed(graph, *params, reached2, u, y, reached2[u]) by {
                                if edge_distance(graph, *params, u, y) is Some {
                                    assert(row.keys().contains(y));
                                    let k = choose|k: int|
                                        0 <= k < row.keys().len() && row.keys()[k] == y;
                                    assert(edge_relaxed(
                                        graph,
                                        *params,
                                        reached2,
                                        u,
                                        row.keys()[k],
                                        from,
                                    ));
                                }
                            }
                        }
                        assert(settled(graph, *params, reached2, pending@, u));
                    }
                },
                None => {
                    proof {
                        lemma_no_row_no_edges(edges, *params, u);
                        assert forall|y: Seq<u8>| #[trigger]
                            edge_relaxed(graph, *params, reached0, u, y, reached0[u]) by {
                            assert(edge_distance(graph, *params, u, y) is None);
                        }
                        assert(settled(graph, *params, reached0, pending@, u));
                    }
                },
            }
        } else {
            proof {
                assert(reached0[u] < from);
                assert(settled(graph, *params, reached0, pending@, u));
            }
        }
    }
    let mut trusted: OrdSet<Id> = OrdSet::new();
    let mut k: usize = 0;
    proof {
        visited.lemma_entries();
    }
    while k < visited.len()
        invariant
            visited.wf(),
            trusted.wf(),
            k <= visited.keys().len(),
            trusted@ == visited.keys().take(k as int).to_set(),
        decreases visited.keys().len() - k,
    {
        trusted.insert(visited.key_at(k).clone());
        proof {
            let before = visited.keys().take(k as int);
            let x = visited.keys()[k as int];
            let after = visited.keys().take(k + 1);
            assert(after =~= before.push(x));
            assert forall|id: Seq<u8>| after.to_set().contains(id) <==> before.to_set().insert(
                x,
            ).contains(id) by {
                if after.contains(id) {
                    let j = choose|j: int| 0 <= j < after.len() && after[j] == id;
                    if j < before.len() {
                        assert(before[j] == id);
                    }
                }
                if before.contains(id) {
                    let j = choose|j: int| 0 <= j < before.len() && before[j] == id;
                    assert(after[j] == id);
                }
                if id == x {
                    assert(after[k as int] == id);
                }
            }
            assert(after.to_set() =~= before.to_set().insert(x));
        }
        k += 1;
    }
    proof {
        let reached = visited.map();
        assert(visited.keys().take(k as int) =~= visited.keys());
        assert forall|id: Seq<u8>| trusted@.contains(id) <==> trust_set(
            graph,
            *params,
            root@,
        ).contains(id) by {
            if reached.contains_key(id) {
                lemma_within_monotone(graph, *params, root@, id, reached[id] as int, max as int);
            }
            if within(graph, *params, root@, id, max as int) {
                let path = choose|path: Seq<Seq<u8>>|
                    crate::reach::leads_to(graph, *params, root@, id, max as int, path);
                assert forall|x: Seq<u8>| #[trigger] reached.contains_key(x) implies relaxed(
                    graph,
                    *params,
                    reached,
                    x,
                ) by {
                    assert(settled(graph, *params, reached, pending@, x));
                }
                lemma_walk_complete(graph, *params, root@, reached, path);
            }
        }
        assert(trusted@ =~= trust_set(graph, *params, root@));
    }
    trusted
}

} // verus!
