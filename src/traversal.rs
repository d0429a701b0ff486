use crate::graph::{
    bitset_flags, closed_under_edges, lemma_neighbors_in_range, lemma_neighbors_within,
    lemma_reachable_closed, pg_is_visited, pg_visit, reachable, GraphError, GraphModel,
    GraphStore,
};
use fixedbitset::FixedBitSet;
use vstd::prelude::*;

verus! {


/// The distance of a node that no walk has reached yet. Sums that would reach
/// it are held at it.
pub const INFINITY: u64 = 0xffff_ffff_ffff_ffff;

/// One observable decision of a walk, in the order the walk makes them.
#[derive(Clone, Copy, Debug, PartialEq, Eq, Structural)]
pub enum TraceEvent {
    /// `node` was taken from the frontier and its edges are examined.
    Explore { node: usize },
    /// An edge led to `node`, which is settled already: nothing is done.
    AlreadyVisited { node: usize },
    /// The distance of `node` went down from `before` to `after`.
    Relaxed { node: usize, before: u64, after: u64 },
    /// `node`, the closest unsettled neighbour of `parent`, is now settled.
    Visited { parent: usize, node: usize },
}

/// Everything a walk holds between two steps.
pub struct WalkState {
    pub dist: Seq<u64>,
    pub visited: Seq<bool>,
    pub frontier: Seq<usize>,
    pub trace: Seq<TraceEvent>,
}

/// `a + b`, held at `INFINITY`.
pub open spec fn sat_add(a: u64, b: u64) -> u64 {
    if a + b >= INFINITY {
        INFINITY
    } else {
        (a + b) as u64
    }
}

/// Examines the edge `e = (target, weight)` out of `node`: a settled target is
/// only noted; an unsettled one has its distance lowered when the way through
/// `node` is shorter, and is pushed onto the frontier either way.
pub open spec fn relax_edge(s: WalkState, node: usize, e: (usize, u64)) -> WalkState {
    let t = e.0;
    if s.visited[t as int] {
        WalkState {
            dist: s.dist,
            visited: s.visited,
            frontier: s.frontier,
            trace: s.trace.push(TraceEvent::AlreadyVisited { node: t }),
        }
    } else {
        let cand = sat_add(e.1, s.dist[node as int]);
        if s.dist[t as int] > cand {
            WalkState {
                dist: s.dist.update(t as int, cand),
                visited: s.visited,
                frontier: s.frontier.push(t),
                trace: s.trace.push(
                    TraceEvent::Relaxed { node: t, before: s.dist[t as int], after: cand },
                ),
            }
        } else {
            WalkState {
                dist: s.dist,
                visited: s.visited,
                frontier: s.frontier.push(t),
                trace: s.trace,
            }
        }
    }
}

/// The state after examining the first `k` edges of `nb`, in order.
pub open spec fn relax_prefix(s: WalkState, node: usize, nb: Seq<(usize, u64)>, k: nat) -> WalkState
    decreases k,
{
    if k == 0 {
        s
    } else {
        relax_edge(relax_prefix(s, node, nb, (k - 1) as nat), node, nb[k - 1])
    }
}

/// Among the first `k` edges of `nb` that lead to an unsettled node, the one
/// of least weight; the earliest one on a tie.
pub open spec fn closest(visited: Seq<bool>, nb: Seq<(usize, u64)>, k: nat) -> Option<
    (usize, u64),
>
    decreases k,
{
    if k == 0 {
        None
    } else {
        let best = closest(visited, nb, (k - 1) as nat);
        let e = nb[k - 1];
        if visited[e.0 as int] {
            best
        } else {
            match best {
                None => Some(e),
                Some(b) => if e.1 < b.1 {
                    Some(e)
                } else {
                    Some(b)
                },
            }
        }
    }
}

/// One step: pop the newest frontier entry, examine each of its edges, then
/// settle its closest neighbour that was unsettled when the step began.
pub open spec fn step(g: GraphModel, s: WalkState) -> WalkState {
    let node = s.frontier.last();
    let nb = g.neighbors(node);
    let s0 = WalkState {
        dist: s.dist,
        visited: s.visited,
        frontier: s.frontier.drop_last(),
        trace: s.trace.push(TraceEvent::Explore { node }),
    };
    let s1 = relax_prefix(s0, node, nb, nb.len());
    match closest(s.visited, nb, nb.len()) {
        Some(e) => WalkState {
            dist: s1.dist,
            visited: s1.visited.update(e.0 as int, true),
            frontier: s1.frontier,
            trace: s1.trace.push(TraceEvent::Visited { parent: node, node: e.0 }),
        },
        None => s1,
    }
}

/// A state that fits the graph: one distance and one flag per node, and only
/// node indices on the frontier.
pub open spec fn state_fits(g: GraphModel, s: WalkState) -> bool {
    &&& g.wf()
    &&& s.dist.len() == g.node_count()
    &&& s.visited.len() == g.node_count()
    &&& forall|j: int| 0 <= j < s.frontier.len() ==> (#[trigger] s.frontier[j]) < g.node_count()
}

/// The number of unsettled nodes.
pub open spec fn unsettled(v: Seq<bool>) -> nat
    decreases v.len(),
{
    if v.len() == 0 {
        0
    } else {
        unsettled(v.drop_last()) + if v.last() {
            0nat
        } else {
            1nat
        }
    }
}

/// The state at which the walk from `s` stops: steps are taken until the
/// frontier is empty.
pub open spec fn walk(g: GraphModel, s: WalkState) -> WalkState
    decreases unsettled(s.visited), s.frontier.len(),
    when state_fits(g, s)
    via walk_decreases
{
    if s.frontier.len() == 0 {
        s
    } else {
        walk(g, step(g, s))
    }
}

#[via_fn]
proof fn walk_decreases(g: GraphModel, s: WalkState) {
    if state_fits(g, s) && s.frontier.len() > 0 {
        lemma_step(g, s);
    }
}

/// The state a walk from `start` begins in: only `start` reached and settled,
/// and on the frontier.
pub open spec fn initial_state(n: nat, start: usize) -> WalkState {
    WalkState {
        dist: Seq::new(n, |i: int| if i == start { 0u64 } else { INFINITY }),
        visited: Seq::new(n, |i: int| i == start),
        frontier: seq![start],
        trace: Seq::empty(),
    }
}

/// The final state of the walk over `g` from `start`.
pub open spec fn traversal(g: GraphModel, start: usize) -> WalkState {
    walk(g, initial_state(g.node_count(), start))
}

pub proof fn lemma_unsettled_settle(v: Seq<bool>, t: int)
    requires
        0 <= t < v.len(),
        !v[t],
    ensures
        unsettled(v.update(t, true)) + 1 == unsettled(v),
    decreases v.len(),
{
    let u = v.update(t, true);
    if t == v.len() - 1 {
        assert(u.drop_last() =~= v.drop_last());
    } else {
        assert(u.drop_last() =~= v.drop_last().update(t, true));
        lemma_unsettled_settle(v.drop_last(), t);
    }
}

proof fn lemma_relax_prefix(s: WalkState, node: usize, nb: Seq<(usize, u64)>, k: nat, n: nat)
    requires
        k <= nb.len(),
        forall|i: int| 0 <= i < nb.len() ==> (#[trigger] nb[i]).0 < n,
        s.dist.len() == n,
        s.visited.len() == n,
        forall|j: int| 0 <= j < s.frontier.len() ==> (#[trigger] s.frontier[j]) < n,
    ensures
        relax_prefix(s, node, nb, k).visited == s.visited,
        relax_prefix(s, node, nb, k).dist.len() == n,
        forall|j: int|
            0 <= j < relax_prefix(s, node, nb, k).frontier.len() ==> (#[trigger] relax_prefix(
                s,
                node,
                nb,
                k,
            ).frontier[j]) < n,
        relax_prefix(s, node, nb, k).frontier.len() >= s.frontier.len(),
        closest(s.visited, nb, k) is None ==> relax_prefix(s, node, nb, k).frontier == s.frontier,
        closest(s.visited, nb, k) matches Some(e) ==> e.0 < n && !s.visited[e.0 as int],
        forall|i: int| 0 <= i < n ==> #[trigger] relax_prefix(s, node, nb, k).dist[i] <= s.dist[i],
        forall|i: int|
            0 <= i < n && s.visited[i] ==> #[trigger] relax_prefix(s, node, nb, k).dist[i]
                == s.dist[i],
    decreases k,
{
    if k > 0 {
        lemma_relax_prefix(s, node, nb, (k - 1) as nat, n);
        let p = relax_prefix(s, node, nb, (k - 1) as nat);
        let r = relax_prefix(s, node, nb, k);
        assert(r == relax_edge(p, node, nb[k - 1]));
        let t = nb[k - 1].0;
        assert(t < n);
        if !p.visited[t as int] {
            assert forall|j: int| 0 <= j < r.frontier.len() implies (#[trigger] r.frontier[j]) < n by {
                if j < p.frontier.len() {
                    assert(r.frontier[j] == p.frontier[j]);
                }
            }
        }
    }
}

/// One step from a fitting state with a non-empty frontier gives a fitting
/// state, and either settles one more node or leaves the settled nodes as
/// they were and shortens the frontier.
pub proof fn lemma_step(g: GraphModel, s: WalkState)
    requires
        state_fits(g, s),
        s.frontier.len() > 0,
    ensures
        state_fits(g, step(g, s)),
        unsettled(step(g, s).visited) < unsettled(s.visited) || (unsettled(step(g, s).visited)
            == unsettled(s.visited) && step(g, s).frontier.len() < s.frontier.len()),
        forall|i: int| 0 <= i < g.node_count() ==> #[trigger] step(g, s).dist[i] <= s.dist[i],
        forall|i: int| 0 <= i < g.node_count() && s.visited[i] ==> #[trigger] step(g, s).visited[i],
        forall|i: int|
            0 <= i < g.node_count() && s.visited[i] ==> #[trigger] step(g, s).dist[i] == s.dist[i],
{
    let n = g.node_count();
    let node = s.frontier.last();
    let nb = g.neighbors(node);
    let s0 = WalkState {
        dist: s.dist,
        visited: s.visited,
        frontier: s.frontier.drop_last(),
        trace: s.trace.push(TraceEvent::Explore { node }),
    };
    assert forall|j: int| 0 <= j < s0.frontier.len() implies (#[trigger] s0.frontier[j]) < n by {
        assert(s0.frontier[j] == s.frontier[j]);
    }
    lemma_neighbors_in_range(g, node);
    lemma_relax_prefix(s0, node, nb, nb.len(), n);
    let s1 = relax_prefix(s0, node, nb, nb.len());
    match closest(s.visited, nb, nb.len()) {
        Some(e) => {
            lemma_unsettled_settle(s.visited, e.0 as int);
        },
        None => {},
    }
}

/// Whatever property every step keeps from a fitting state holds where the
/// walk stops.
pub proof fn lemma_walk_keeps(g: GraphModel, s: WalkState, inv: spec_fn(WalkState) -> bool)
    requires
        state_fits(g, s),
        inv(s),
        forall|t: WalkState|
            state_fits(g, t) && t.frontier.len() > 0 && inv(t) ==> #[trigger] inv(step(g, t)),
    ensures
        inv(walk(g, s)),
        state_fits(g, walk(g, s)),
        walk(g, s).frontier.len() == 0,
    decreases unsettled(s.visited), s.frontier.len(),
{
    if s.frontier.len() > 0 {
        lemma_step(g, s);
        lemma_walk_keeps(g, step(g, s), inv);
    }
}

/// The start node ends at distance zero, and settled.
pub proof fn lemma_start_distance_zero(g: GraphModel, start: usize)
    requires
        g.wf(),
        start < g.node_count(),
    ensures
        traversal(g, start).dist[start as int] == 0,
        traversal(g, start).visited[start as int],
{
    let s = initial_state(g.node_count(), start);
    let inv = |t: WalkState| t.visited[start as int] && t.dist[start as int] == 0;
    assert forall|t: WalkState|
        state_fits(g, t) && t.frontier.len() > 0 && inv(t) implies #[trigger] inv(step(g, t)) by {
        lemma_step(g, t);
    }
    lemma_walk_keeps(g, s, inv);
}

/// No step raises a distance, so neither does the whole walk: every value
/// a node's distance takes is at most the one before.
pub proof fn lemma_distances_never_rise(g: GraphModel, s: WalkState)
    requires
        state_fits(g, s),
    ensures
        s.frontier.len() > 0 ==> forall|i: int|
            0 <= i < g.node_count() ==> #[trigger] step(g, s).dist[i] <= s.dist[i],
        forall|i: int| 0 <= i < g.node_count() ==> #[trigger] walk(g, s).dist[i] <= s.dist[i],
{
    if s.frontier.len() > 0 {
        lemma_step(g, s);
    }
    let n = g.node_count();
    let inv = |t: WalkState| forall|i: int| 0 <= i < n ==> #[trigger] t.dist[i] <= s.dist[i];
    assert forall|t: WalkState|
        state_fits(g, t) && t.frontier.len() > 0 && inv(t) implies #[trigger] inv(step(g, t)) by {
        lemma_step(g, t);
    }
    lemma_walk_keeps(g, s, inv);
}

/// A settled node stays settled after a step, and after the whole walk.
pub proof fn lemma_visited_only_grows(g: GraphModel, s: WalkState)
    requires
        state_fits(g, s),
    ensures
        s.frontier.len() > 0 ==> forall|i: int|
            0 <= i < g.node_count() && s.visited[i] ==> #[trigger] step(g, s).visited[i],
        forall|i: int| 0 <= i < g.node_count() && s.visited[i] ==> #[trigger] walk(g, s).visited[i],
{
    if s.frontier.len() > 0 {
        lemma_step(g, s);
    }
    let n = g.node_count();
    let inv = |t: WalkState| forall|i: int| 0 <= i < n && s.visited[i] ==> #[trigger] t.visited[i];
    assert forall|t: WalkState|
        state_fits(g, t) && t.frontier.len() > 0 && inv(t) implies #[trigger] inv(step(g, t)) by {
        lemma_step(g, t);
    }
    lemma_walk_keeps(g, s, inv);
}

proof fn lemma_relax_prefix_within(
    s: WalkState,
    node: usize,
    nb: Seq<(usize, u64)>,
    k: nat,
    c: Set<usize>,
)
    requires
        k <= nb.len(),
        forall|i: int| 0 <= i < nb.len() ==> c.contains((#[trigger] nb[i]).0),
        forall|i: int| 0 <= i < nb.len() ==> (#[trigger] nb[i]).0 < s.dist.len(),
        s.visited.len() == s.dist.len(),
        forall|j: int| 0 <= j < s.frontier.len() ==> c.contains(#[trigger] s.frontier[j]),
    ensures
        forall|j: int|
            0 <= j < relax_prefix(s, node, nb, k).frontier.len() ==> c.contains(
                #[trigger] relax_prefix(s, node, nb, k).frontier[j],
            ),
        forall|i: usize|
            i < s.dist.len() && !c.contains(i) ==> #[trigger] relax_prefix(s, node, nb, k).dist[i as int]
                == s.dist[i as int],
        relax_prefix(s, node, nb, k).visited == s.visited,
        relax_prefix(s, node, nb, k).dist.len() == s.dist.len(),
        closest(s.visited, nb, k) matches Some(e) ==> c.contains(e.0),
    decreases k,
{
    if k > 0 {
        lemma_relax_prefix_within(s, node, nb, (k - 1) as nat, c);
        let p = relax_prefix(s, node, nb, (k - 1) as nat);
        let r = relax_prefix(s, node, nb, k);
        assert(r == relax_edge(p, node, nb[k - 1]));
        let t = nb[k - 1].0;
        assert(c.contains(t));
        if !p.visited[t as int] {
            assert forall|j: int| 0 <= j < r.frontier.len() implies c.contains(#[trigger] r.frontier[j]) by {
                if j < p.frontier.len() {
                    assert(r.frontier[j] == p.frontier[j]);
                }
            }
            assert forall|i: usize| i < s.dist.len() && !c.contains(i) implies #[trigger] r.dist[i as int] == s.dist[i as int] by {
                assert(i != t);
            }
        }
    }
}

/// From a state whose frontier lies in an edge-closed set `c`, and whose
/// nodes outside `c` are all unreached and unsettled, the walk reaches and
/// settles no node outside `c`.
pub proof fn lemma_walk_stays_within(g: GraphModel, s: WalkState, c: Set<usize>)
    requires
        state_fits(g, s),
        closed_under_edges(g.edges, c),
        forall|j: int| 0 <= j < s.frontier.len() ==> c.contains(#[trigger] s.frontier[j]),
        forall|i: usize|
            i < g.node_count() && !c.contains(i) ==> #[trigger] s.dist[i as int] == INFINITY
                && !s.visited[i as int],
    ensures
        forall|i: usize|
            i < g.node_count() && !c.contains(i) ==> #[trigger] walk(g, s).dist[i as int]
                == INFINITY && !walk(g, s).visited[i as int],
{
    let n = g.node_count();
    let inv = |t: WalkState|
        (forall|j: int| 0 <= j < t.frontier.len() ==> c.contains(#[trigger] t.frontier[j])) && (
        forall|i: usize|
            i < n && !c.contains(i) ==> #[trigger] t.dist[i as int] == INFINITY
                && !t.visited[i as int]);
    assert forall|t: WalkState|
        state_fits(g, t) && t.frontier.len() > 0 && inv(t) implies #[trigger] inv(step(g, t)) by {
        let node = t.frontier.last();
        let nb = g.neighbors(node);
        let t0 = WalkState {
            dist: t.dist,
            visited: t.visited,
            frontier: t.frontier.drop_last(),
            trace: t.trace.push(TraceEvent::Explore { node }),
        };
        assert(c.contains(t.frontier[t.frontier.len() - 1]));
        assert forall|j: int| 0 <= j < t0.frontier.len() implies c.contains(#[trigger] t0.frontier[j])
            && t0.frontier[j] < n by {
            assert(t0.frontier[j] == t.frontier[j]);
        }
        lemma_neighbors_within(g, node, c);
        lemma_neighbors_in_range(g, node);
        lemma_step(g, t);
        lemma_relax_prefix(t0, node, nb, nb.len(), n);
        lemma_relax_prefix_within(t0, node, nb, nb.len(), c);
        let t2 = step(g, t);
        assert forall|i: usize| i < n && !c.contains(i) implies #[trigger] t2.dist[i as int]
            == INFINITY && !t2.visited[i as int] by {
            assert(t.dist[i as int] == INFINITY);
            assert(!t.visited[i as int]);
            let t1 = relax_prefix(t0, node, nb, nb.len());
            assert(t1.dist[i as int] == t0.dist[i as int]);
            assert(t1.visited == t.visited);
            match closest(t.visited, nb, nb.len()) {
                Some(e) => {
                    assert(e.0 != i);
                    assert(t2.visited == t1.visited.update(e.0 as int, true));
                    assert(t2.dist == t1.dist);
                },
                None => {
                    assert(t2 == t1);
                },
            }
        }
    }
    lemma_walk_keeps(g, s, inv);
}

/// A node that no path joins to `start` keeps the distance `INFINITY` and is
/// never settled.
pub proof fn lemma_unreachable_stays_infinite(g: GraphModel, start: usize, t: usize)
    requires
        g.wf(),
        start < g.node_count(),
        t < g.node_count(),
        !reachable(g, start, t),
    ensures
        traversal(g, start).dist[t as int] == INFINITY,
        !traversal(g, start).visited[t as int],
{
    let c = Set::new(|x: usize| reachable(g, start, x));
    lemma_reachable_closed(g, start);
    let s = initial_state(g.node_count(), start);
    assert(c.contains(start));
    assert forall|j: int| 0 <= j < s.frontier.len() implies c.contains(#[trigger] s.frontier[j]) by {
        assert(s.frontier[j] == start);
    }
    lemma_walk_stays_within(g, s, c);
    assert(!c.contains(t));
}

/// The distance of `v` that `trace` leaves: the `after` of its last
/// `Relaxed` event for `v`, or `d0` when it has none.
pub open spec fn traced_dist(trace: Seq<TraceEvent>, v: usize, d0: u64) -> u64
    decreases trace.len(),
{
    if trace.len() == 0 {
        d0
    } else {
        match trace.last() {
            TraceEvent::Relaxed { node, before, after } => if node == v {
                after
            } else {
                traced_dist(trace.drop_last(), v, d0)
            },
            _ => traced_dist(trace.drop_last(), v, d0),
        }
    }
}

/// Each `Relaxed` event for `v` in `trace` starts from the distance that the
/// events before it left, `d0` at first, and goes strictly down.
pub open spec fn relax_chain(trace: Seq<TraceEvent>, v: usize, d0: u64) -> bool
    decreases trace.len(),
{
    if trace.len() == 0 {
        true
    } else {
        relax_chain(trace.drop_last(), v, d0) && match trace.last() {
            TraceEvent::Relaxed { node, before, after } => node == v ==> before == traced_dist(
                trace.drop_last(),
                v,
                d0,
            ) && after < before,
            _ => true,
        }
    }
}

/// `trace` accounts for each distance of `dist`, from the distances `d0` it
/// began with.
pub open spec fn trace_accounts(dist: Seq<u64>, trace: Seq<TraceEvent>, d0: Seq<u64>) -> bool {
    &&& d0.len() == dist.len()
    &&& (forall|v: usize| v < dist.len() ==> #[trigger] relax_chain(trace, v, d0[v as int]))
    &&& (forall|v: usize|
        v < dist.len() ==> #[trigger] traced_dist(trace, v, d0[v as int]) == dist[v as int])
}

proof fn lemma_push_other_event(dist: Seq<u64>, trace: Seq<TraceEvent>, e: TraceEvent, d0: Seq<u64>)
    requires
        trace_accounts(dist, trace, d0),
        !(e is Relaxed),
    ensures
        trace_accounts(dist, trace.push(e), d0),
{
    let t2 = trace.push(e);
    assert(t2.drop_last() =~= trace);
    assert(t2.last() == e);
    assert forall|v: usize| v < dist.len() implies #[trigger] relax_chain(t2, v, d0[v as int]) by {
        assert(relax_chain(trace, v, d0[v as int]));
    }
    assert forall|v: usize| v < dist.len() implies #[trigger] traced_dist(t2, v, d0[v as int])
        == dist[v as int] by {
        assert(traced_dist(trace, v, d0[v as int]) == dist[v as int]);
    }
}

proof fn lemma_relax_prefix_accounts(
    s: WalkState,
    node: usize,
    nb: Seq<(usize, u64)>,
    k: nat,
    d0: Seq<u64>,
)
    requires
        k <= nb.len(),
        node < s.dist.len(),
        forall|i: int| 0 <= i < nb.len() ==> (#[trigger] nb[i]).0 < s.dist.len(),
        s.visited.len() == s.dist.len(),
        trace_accounts(s.dist, s.trace, d0),
    ensures
        trace_accounts(relax_prefix(s, node, nb, k).dist, relax_prefix(s, node, nb, k).trace, d0),
        relax_prefix(s, node, nb, k).dist.len() == s.dist.len(),
        relax_prefix(s, node, nb, k).visited == s.visited,
    decreases k,
{
    if k > 0 {
        lemma_relax_prefix_accounts(s, node, nb, (k - 1) as nat, d0);
        let p = relax_prefix(s, node, nb, (k - 1) as nat);
        let r = relax_prefix(s, node, nb, k);
        assert(r == relax_edge(p, node, nb[k - 1]));
        let t = nb[k - 1].0;
        if p.visited[t as int] {
            lemma_push_other_event(p.dist, p.trace, TraceEvent::AlreadyVisited { node: t }, d0);
        } else {
            let cand = sat_add(nb[k - 1].1, p.dist[node as int]);
            if p.dist[t as int] > cand {
                let e = TraceEvent::Relaxed { node: t, before: p.dist[t as int], after: cand };
                assert(r.trace == p.trace.push(e));
                assert(r.trace.drop_last() =~= p.trace);
                assert(r.trace.last() == e);
                assert forall|v: usize| v < r.dist.len() implies #[trigger] relax_chain(
                    r.trace,
                    v,
                    d0[v as int],
                ) by {
                    assert(traced_dist(p.trace, v, d0[v as int]) == p.dist[v as int]);
                    assert(relax_chain(p.trace, v, d0[v as int]));
                }
                assert forall|v: usize| v < r.dist.len() implies #[trigger] traced_dist(
                    r.trace,
                    v,
                    d0[v as int],
                ) == r.dist[v as int] by {
                    assert(traced_dist(p.trace, v, d0[v as int]) == p.dist[v as int]);
                }
            }
        }
    }
}

/// Read from the trace alone, each node's distance only goes down: its
/// `Relaxed` events start at `INFINITY` (or at zero for `start`), each starts
/// from the value the one before left and lowers it, and the last one gives
/// the final distance.
pub proof fn lemma_trace_accounts_for_distances(g: GraphModel, start: usize)
    requires
        g.wf(),
        start < g.node_count(),
    ensures
        trace_accounts(
            traversal(g, start).dist,
            traversal(g, start).trace,
            initial_state(g.node_count(), start).dist,
        ),
{
    let s = initial_state(g.node_count(), start);
    let d0 = s.dist;
    assert forall|v: usize| v < s.dist.len() implies #[trigger] relax_chain(s.trace, v, d0[v as int]) by {}
    assert forall|v: usize| v < s.dist.len() implies #[trigger] traced_dist(s.trace, v, d0[v as int])
        == s.dist[v as int] by {}
    let inv = |t: WalkState| trace_accounts(t.dist, t.trace, d0);
    assert forall|t: WalkState|
        state_fits(g, t) && t.frontier.len() > 0 && inv(t) implies #[trigger] inv(step(g, t)) by {
        let node = t.frontier.last();
        let nb = g.neighbors(node);
        let t0 = WalkState {
            dist: t.dist,
            visited: t.visited,
            frontier: t.frontier.drop_last(),
            trace: t.trace.push(TraceEvent::Explore { node }),
        };
        lemma_push_other_event(t.dist, t.trace, TraceEvent::Explore { node }, d0);
        lemma_neighbors_in_range(g, node);
        lemma_relax_prefix_accounts(t0, node, nb, nb.len(), d0);
        let t1 = relax_prefix(t0, node, nb, nb.len());
        match closest(t.visited, nb, nb.len()) {
            Some(e) => {
                lemma_push_other_event(t1.dist, t1.trace, TraceEvent::Visited { parent: node, node: e.0 }, d0);
            },
            None => {},
        }
    }
    lemma_walk_keeps(g, s, inv);
}

/// `trace` holds a `Visited` event for `v`.
pub open spec fn traced_settled(trace: Seq<TraceEvent>, v: usize) -> bool
    decreases trace.len(),
{
    if trace.len() == 0 {
        false
    } else {
        traced_settled(trace.drop_last(), v) || match trace.last() {
            TraceEvent::Visited { parent, node } => node == v,
            _ => false,
        }
    }
}

/// Each `Visited` event for `v` in `trace` is the first one for `v`, and none
/// names `start`.
pub open spec fn settles_once(trace: Seq<TraceEvent>, v: usize, start: usize) -> bool
    decreases trace.len(),
{
    if trace.len() == 0 {
        true
    } else {
        settles_once(trace.drop_last(), v, start) && match trace.last() {
            TraceEvent::Visited { parent, node } => node == v ==> v != start && !traced_settled(
                trace.drop_last(),
                v,
            ),
            _ => true,
        }
    }
}

/// `v` is `start`, or `trace` settles it.
pub open spec fn settled_by(trace: Seq<TraceEvent>, v: usize, start: usize) -> bool {
    v == start || traced_settled(trace, v)
}

/// The settled nodes of `visited` are `start` and the nodes that `trace`
/// settles, each once.
pub open spec fn trace_settles(visited: Seq<bool>, trace: Seq<TraceEvent>, start: usize) -> bool {
    &&& (forall|v: usize| v < visited.len() ==> #[trigger] settles_once(trace, v, start))
    &&& (forall|v: usize|
        v < visited.len() ==> visited[v as int] == #[trigger] settled_by(trace, v, start))
}

proof fn lemma_push_unsettling_event(
    visited: Seq<bool>,
    trace: Seq<TraceEvent>,
    e: TraceEvent,
    start: usize,
)
    requires
        trace_settles(visited, trace, start),
        !(e is Visited),
    ensures
        trace_settles(visited, trace.push(e), start),
{
    let t2 = trace.push(e);
    assert(t2.drop_last() =~= trace);
    assert(t2.last() == e);
    assert forall|v: usize| v < visited.len() implies #[trigger] settles_once(t2, v, start) by {
        assert(settles_once(trace, v, start));
    }
    assert forall|v: usize| v < visited.len() implies visited[v as int] == #[trigger] settled_by(
        t2,
        v,
        start,
    ) by {
        assert(visited[v as int] == settled_by(trace, v, start));
    }
}

proof fn lemma_relax_prefix_settles(
    s: WalkState,
    node: usize,
    nb: Seq<(usize, u64)>,
    k: nat,
    start: usize,
)
    requires
        k <= nb.len(),
        trace_settles(s.visited, s.trace, start),
    ensures
        trace_settles(relax_prefix(s, node, nb, k).visited, relax_prefix(s, node, nb, k).trace, start),
        relax_prefix(s, node, nb, k).visited == s.visited,
    decreases k,
{
    if k > 0 {
        lemma_relax_prefix_settles(s, node, nb, (k - 1) as nat, start);
        let p = relax_prefix(s, node, nb, (k - 1) as nat);
        let r = relax_prefix(s, node, nb, k);
        assert(r == relax_edge(p, node, nb[k - 1]));
        let t = nb[k - 1].0;
        if p.visited[t as int] {
            lemma_push_unsettling_event(p.visited, p.trace, TraceEvent::AlreadyVisited { node: t }, start);
        } else {
            let cand = sat_add(nb[k - 1].1, p.dist[node as int]);
            if p.dist[t as int] > cand {
                lemma_push_unsettling_event(
                    p.visited,
                    p.trace,
                    TraceEvent::Relaxed { node: t, before: p.dist[t as int], after: cand },
                    start,
                );
            }
        }
    }
}

/// The settled nodes at the end are exactly `start` and the nodes named by
/// `Visited` events; no two such events name the same node, and none names
/// `start`.
pub proof fn lemma_trace_accounts_for_settled(g: GraphModel, start: usize)
    requires
        g.wf(),
        start < g.node_count(),
    ensures
        trace_settles(traversal(g, start).visited, traversal(g, start).trace, start),
{
    let s = initial_state(g.node_count(), start);
    assert forall|v: usize| v < s.visited.len() implies #[trigger] settles_once(s.trace, v, start) by {}
    assert forall|v: usize| v < s.visited.len() implies s.visited[v as int] == #[trigger] settled_by(
        s.trace,
        v,
        start,
    ) by {}
    let inv = |t: WalkState| trace_settles(t.visited, t.trace, start);
    assert forall|t: WalkState|
        state_fits(g, t) && t.frontier.len() > 0 && inv(t) implies #[trigger] inv(step(g, t)) by {
        let n = g.node_count();
        let node = t.frontier.last();
        let nb = g.neighbors(node);
        let t0 = WalkState {
            dist: t.dist,
            visited: t.visited,
            frontier: t.frontier.drop_last(),
            trace: t.trace.push(TraceEvent::Explore { node }),
        };
        assert forall|j: int| 0 <= j < t0.frontier.len() implies (#[trigger] t0.frontier[j]) < n by {
            assert(t0.frontier[j] == t.frontier[j]);
        }
        lemma_push_unsettling_event(t.visited, t.trace, TraceEvent::Explore { node }, start);
        lemma_neighbors_in_range(g, node);
        lemma_relax_prefix(t0, node, nb, nb.len(), n);
        lemma_relax_prefix_settles(t0, node, nb, nb.len(), start);
        let t1 = relax_prefix(t0, node, nb, nb.len());
        match closest(t.visited, nb, nb.len()) {
            Some(e) => {
                let x = e.0;
                let ev = TraceEvent::Visited { parent: node, node: x };
                let t2 = step(g, t);
                assert(t2.trace == t1.trace.push(ev));
                assert(t2.visited == t1.visited.update(x as int, true));
                assert(t2.trace.drop_last() =~= t1.trace);
                assert(t2.trace.last() == ev);
                assert(!t1.visited[x as int]);
                assert(t1.visited[x as int] == settled_by(t1.trace, x, start));
                assert forall|v: usize| v < t2.visited.len() implies #[trigger] settles_once(
                    t2.trace,
                    v,
                    start,
                ) by {
                    assert(settles_once(t1.trace, v, start));
                }
                assert forall|v: usize| v < t2.visited.len() implies t2.visited[v as int]
                    == #[trigger] settled_by(t2.trace, v, start) by {
                    assert(t1.visited[v as int] == settled_by(t1.trace, v, start));
                }
            },
            None => {},
        }
    }
    lemma_walk_keeps(g, s, inv);
}

/// Two results that `traverse` may return for the same graph and start are
/// equal: the same distances, the same settled nodes, the same trace.
pub proof fn lemma_traversal_deterministic(g: GraphModel, start: usize, a: Traversal, b: Traversal)
    requires
        a.state() == traversal(g, start),
        b.state() == traversal(g, start),
    ensures
        a.distances@ == b.distances@,
        a.visited@ == b.visited@,
        a.trace@ == b.trace@,
{
}

/// The result of a walk: the final distance and settled flag of every node,
/// and the decisions taken on the way.
pub struct Traversal {
    pub distances: Vec<u64>,
    pub visited: Vec<bool>,
    pub trace: Vec<TraceEvent>,
}

impl Traversal {
    pub open spec fn state(&self) -> WalkState {
        WalkState {
            dist: self.distances@,
            visited: self.visited@,
            frontier: Seq::empty(),
            trace: self.trace@,
        }
    }
}

/// The closest unsettled neighbour among the edges `nb`, as `closest` picks it.
fn closest_unvisited(visited: &FixedBitSet, nb: &Vec<(usize, u64)>) -> (r: Option<(usize, u64)>)
    requires
        bitset_flags(*visited).len() <= u32::MAX,
        forall|i: int| 0 <= i < nb@.len() ==> (#[trigger] nb@[i]).0 < bitset_flags(*visited).len(),
    ensures
        r == closest(bitset_flags(*visited), nb@, nb@.len()),
{
    let mut best: Option<(usize, u64)> = None;
    let mut j: usize = 0;
    while j < nb.len()
        invariant
            j <= nb@.len(),
            bitset_flags(*visited).len() <= u32::MAX,
            forall|i: int| 0 <= i < nb@.len() ==> (#[trigger] nb@[i]).0 < bitset_flags(*visited).len(),
            best == closest(bitset_flags(*visited), nb@, j as nat),
        decreases nb@.len() - j,
    {
        let e = nb[j];
        assert(e == nb@[j as int]);
        if !pg_is_visited(visited, e.0) {
            best = match best {
                None => Some(e),
                Some(b) => if e.1 < b.1 {
                    Some(e)
                } else {
                    Some(b)
                },
            };
        }
        j = j + 1;
    }
    best
}

/// Walks `g` from `start`: the frontier is worked newest entry first; each
/// entry has its edges examined in walk order, unsettled targets relaxed and
/// pushed, and then its closest unsettled neighbour settled. Refused when
/// `start` names no node.
pub fn traverse(g: &GraphStore, start: usize) -> (r: Result<Traversal, GraphError>)
    requires
        g@.wf(),
    ensures
        start >= g@.node_count() ==> (r matches Err(e) && e == GraphError::InvalidNode),
        start < g@.node_count() ==> (r matches Ok(t) && t.state() == traversal(g@, start)),
{
    let n = g.node_count();
    if start >= n {
        return Err(GraphError::InvalidNode);
    }
    let ghost init = initial_state(n as nat, start);
    let mut dist: Vec<u64> = Vec::new();
    let mut visited = g.visit_map();
    pg_visit(&mut visited, start);
    let mut i: usize = 0;
    while i < n
        invariant
            i <= n,
            init == initial_state(n as nat, start),
            dist@.len() == i,
            forall|j: int| 0 <= j < i ==> #[trigger] dist@[j] == init.dist[j],
        decreases n - i,
    {
        if i == start {
            dist.push(0);
        } else {
            dist.push(INFINITY);
        }
        i = i + 1;
    }
    let mut frontier: Vec<usize> = Vec::new();
    frontier.push(start);
    let mut trace: Vec<TraceEvent> = Vec::new();
    assert(dist@ =~= init.dist);
    assert(bitset_flags(visited) =~= init.visited);
    assert(frontier@ =~= init.frontier);
    assert(trace@ =~= init.trace);
    while frontier.len() > 0
        invariant
            n == g@.node_count(),
            state_fits(
                g@,
                WalkState { dist: dist@, visited: bitset_flags(visited), frontier: frontier@, trace: trace@ },
            ),
            walk(
                g@,
                WalkState { dist: dist@, visited: bitset_flags(visited), frontier: frontier@, trace: trace@ },
            ) == traversal(g@, start),
        decreases unsettled(bitset_flags(visited)), frontier@.len(),
    {
        let ghost s = WalkState {
            dist: dist@,
            visited: bitset_flags(visited),
            frontier: frontier@,
            trace: trace@,
        };
        let node = match frontier.pop() {
            Some(x) => x,
            None => start,
        };
        assert(node == s.frontier.last());
        assert(frontier@ =~= s.frontier.drop_last());
        trace.push(TraceEvent::Explore { node });
        let nb = match g.neighbors(node) {
            Ok(v) => v,
            Err(_) => Vec::new(),
        };
        proof {
            lemma_neighbors_in_range(g@, node);
            lemma_step(g@, s);
        }
        let ghost s0 = WalkState {
            dist: dist@,
            visited: bitset_flags(visited),
            frontier: frontier@,
            trace: trace@,
        };
        let mut j: usize = 0;
        while j < nb.len()
            invariant
                n == g@.node_count(),
                node < n,
                j <= nb@.len(),
                nb@ == g@.neighbors(node),
                forall|k: int| 0 <= k < nb@.len() ==> (#[trigger] nb@[k]).0 < n,
                dist@.len() == n,
                bitset_flags(visited).len() == n,
                n <= u32::MAX,
                (WalkState { dist: dist@, visited: bitset_flags(visited), frontier: frontier@, trace: trace@ })
                    == relax_prefix(s0, node, nb@, j as nat),
            decreases nb@.len() - j,
        {
            let e = nb[j];
            assert(e == nb@[j as int]);
            let t = e.0;
            if pg_is_visited(&visited, t) {
                trace.push(TraceEvent::AlreadyVisited { node: t });
            } else {
                let d = dist[node];
                let cand: u64 = if e.1 > INFINITY - d {
                    INFINITY
                } else {
                    e.1 + d
                };
                if dist[t] > cand {
                    trace.push(TraceEvent::Relaxed { node: t, before: dist[t], after: cand });
                    dist.set(t, cand);
                }
                frontier.push(t);
            }
            j = j + 1;
        }
        let best = closest_unvisited(&visited, &nb);
        proof {
            lemma_relax_prefix(s0, node, nb@, nb@.len(), n as nat);
        }
        match best {
            Some(e) => {
                pg_visit(&mut visited, e.0);
                trace.push(TraceEvent::Visited { parent: node, node: e.0 });
            },
            None => {},
        }
        proof {
            let s2 = WalkState {
                dist: dist@,
                visited: bitset_flags(visited),
                frontier: frontier@,
                trace: trace@,
            };
            assert(s2 == step(g@, s));
        }
    }
    let ghost fin = WalkState {
        dist: dist@,
        visited: bitset_flags(visited),
        frontier: frontier@,
        trace: trace@,
    };
    assert(fin.frontier =~= Seq::<usize>::empty());
    let mut settled: Vec<bool> = Vec::new();
    let mut k: usize = 0;
    while k < n
        invariant
            n == g@.node_count(),
            n <= u32::MAX,
            k <= n,
            fin.visited == bitset_flags(visited),
            fin.visited.len() == n,
            settled@ =~= fin.visited.subrange(0, k as int),
        decreases n - k,
    {
        settled.push(pg_is_visited(&visited, k));
        k = k + 1;
    }
    assert(settled@ =~= fin.visited);
    let r = Traversal { distances: dist, visited: settled, trace };
    assert(r.state() == fin);
    Ok(r)
}

} // verus!
