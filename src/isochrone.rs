//! Multi-source, time-bounded flood over one profile's roads, optionally
//! riding transit trips.
use std::collections::BTreeMap;
use vstd::prelude::*;
use crate::graph::{listed_at, road_wf, Graph};
use crate::ids::{IntersectionID, ProfileID, RoadID};
use crate::priority_queue::{leaves_before, pop_min, PriorityQueueItem};

verus! {

/// How an isochrone is drawn: the reached roads, a grid of cells, or
/// contours.
#[derive(Clone, Copy, Debug, PartialEq, Eq, Structural)]
pub enum Style {
    Roads,
    Grid,
    Contours,
}

/// Crossing road `r` from intersection `j` at time `tj` reaches `i` at `t`
/// under profile `p`, in a direction that the road allows.
pub open spec fn walk_step(g: &Graph, p: int, j: int, tj: int, i: int, t: int, r: int) -> bool {
    &&& 0 <= r < g.roads@.len()
    &&& {
        let road = g.roads@[r];
        &&& t == tj + road.cost@[p]
        &&& ((road.src_i.0 == j && road.access@[p].spec_forwards() && i == road.dst_i.0)
            || (road.dst_i.0 == j && road.access@[p].spec_backwards() && i == road.src_i.0))
    }
}

/// From intersection `j` at time `tj`, departure `k` of stop `s` of road `r`
/// (an end of which is `j`) leaves no later than `end_time` and arrives at
/// time `t` on the road of its next stop, an end of which is `i`.
pub open spec fn transit_step(
    g: &Graph,
    end_time: int,
    j: int,
    tj: int,
    i: int,
    t: int,
    r: int,
    s: int,
    k: int,
) -> bool {
    &&& 0 <= r < g.roads@.len()
    &&& (g.roads@[r].src_i.0 == j || g.roads@[r].dst_i.0 == j)
    &&& 0 <= s < g.roads@[r].stops@.len()
    &&& {
        let stop = g.roads@[r].stops@[s].0 as int;
        &&& 0 <= k < g.gtfs.stops@[stop].next_steps@.len()
        &&& {
            let ns = g.gtfs.stops@[stop].next_steps@[k];
            let road2 = g.roads@[g.gtfs.stops@[ns.stop2.0 as int].road.0 as int];
            &&& tj <= ns.time1 <= end_time
            &&& t == ns.time2
            &&& (i == road2.src_i.0 || i == road2.dst_i.0)
        }
    }
}

/// One step of a flood: a road crossing, or with transit a ride.
pub open spec fn hop(g: &Graph, p: int, transit: bool, end_time: int, j: int, tj: int, i: int, t: int) -> bool {
    (exists|r: int| #[trigger] walk_step(g, p, j, tj, i, t, r))
        || (transit && exists|r: int, s: int, k: int| #[trigger] transit_step(g, end_time, j, tj, i, t, r, s, k))
}

/// Intersection `i` is reached at time `t` in `n` hops from one of `starts`
/// left at `t0`.
pub open spec fn reach(
    g: &Graph,
    p: int,
    transit: bool,
    end_time: int,
    starts: Seq<IntersectionID>,
    t0: int,
    i: int,
    t: int,
    n: nat,
) -> bool
    decreases n,
{
    if n == 0 {
        t == t0 && exists|k: int| 0 <= k < starts.len() && (#[trigger] starts[k]).0 == i
    } else {
        exists|j: int, tj: int| reach(g, p, transit, end_time, starts, t0, j, tj, (n - 1) as nat)
            && tj <= end_time && #[trigger] hop(g, p, transit, end_time, j, tj, i, t)
    }
}

/// A queued item is an intersection reached at its time, no earlier than the
/// start.
pub open spec fn item_ok(
    g: &Graph,
    p: int,
    transit: bool,
    starts: Seq<IntersectionID>,
    t0: int,
    end_time: int,
    ni: int,
    item: PriorityQueueItem<u64, usize>,
) -> bool {
    &&& item.value < ni
    &&& item.cost >= t0
    &&& exists|n: nat| reach(g, p, transit, end_time, starts, t0, item.value as int, item.cost as int, n)
}

proof fn lemma_item_ok(
    g: &Graph,
    p: int,
    transit: bool,
    starts: Seq<IntersectionID>,
    t0: int,
    end_time: int,
    ni: int,
    item: PriorityQueueItem<u64, usize>,
    n: nat,
)
    requires
        item.value < ni,
        item.cost >= t0,
        reach(g, p, transit, end_time, starts, t0, item.value as int, item.cost as int, n),
    ensures
        item_ok(g, p, transit, starts, t0, end_time, ni, item),
{
}

proof fn lemma_reach_step(
    g: &Graph,
    p: int,
    transit: bool,
    end_time: int,
    starts: Seq<IntersectionID>,
    t0: int,
    j: int,
    tj: int,
    i: int,
    t: int,
    n: nat,
)
    requires
        reach(g, p, transit, end_time, starts, t0, j, tj, n),
        tj <= end_time,
        hop(g, p, transit, end_time, j, tj, i, t),
    ensures
        reach(g, p, transit, end_time, starts, t0, i, t, n + 1),
{
    let m: nat = n + 1;
    assert(((m - 1) as nat) == n);
    assert(reach(g, p, transit, end_time, starts, t0, j, tj, (m - 1) as nat));
    assert(reach(g, p, transit, end_time, starts, t0, i, t, m));
}

/// Each start not yet expanded is unvisited and still queued at the start
/// time; `skip` is exempt.
pub open spec fn starts_pending(
    starts: Seq<IntersectionID>,
    start_time: u32,
    visited: Seq<bool>,
    queue: Seq<PriorityQueueItem<u64, usize>>,
    expanded: Set<int>,
    skip: int,
) -> bool {
    forall|k: int| 0 <= k < starts.len() && (#[trigger] starts[k]).0 != skip ==> expanded.contains(starts[k].0 as int) || (
        !visited[starts[k].0 as int] && exists|q: int| 0 <= q < queue.len() && queue[q] == (PriorityQueueItem {
            cost: start_time as u64,
            value: starts[k].0,
        }))
}

/// Every road at an expanded intersection is recorded.
pub open spec fn expanded_recorded(g: &Graph, expanded: Set<int>, visited: Seq<bool>, map: Map<usize, u64>) -> bool {
    forall|i: int| #[trigger] expanded.contains(i) ==> {
        &&& 0 <= i < g.intersections@.len()
        &&& i < visited.len() && visited[i]
        &&& forall|k: int| 0 <= k < g.intersections@[i].roads@.len() ==> map.contains_key(
            (#[trigger] g.intersections@[i].roads@[k]).0,
        )
    }
}


/// Where road `r` leads from intersection `i` under profile `p`, if the
/// profile may cross it from there.
pub open spec fn road_target(g: &Graph, p: int, i: int, r: int) -> Option<int> {
    let road = g.roads@[r];
    if road.src_i.0 == i && road.access@[p].spec_forwards() {
        Some(road.dst_i.0 as int)
    } else if road.dst_i.0 == i && road.access@[p].spec_backwards() {
        Some(road.src_i.0 as int)
    } else {
        None
    }
}

/// Crossing road `r` from the reached intersection `i` is accounted for:
/// its target was reached no later than through it, or is queued no later,
/// or was passed over as too late, through it too.
pub open spec fn settled(
    g: &Graph,
    p: int,
    end_time: int,
    arrivals: Seq<Option<u64>>,
    visited: Seq<bool>,
    queue: Seq<PriorityQueueItem<u64, usize>>,
    i: int,
    r: int,
) -> bool {
    match road_target(g, p, i, r) {
        None => true,
        Some(j) => {
            let bound = arrivals[i]->0 + g.roads@[r].cost@[p];
            ||| (arrivals[j] is Some && arrivals[j]->0 <= bound)
            ||| (arrivals[j] is None && !visited[j] && exists|q: int|
                0 <= q < queue.len() && (#[trigger] queue[q]).value == j && queue[q].cost <= bound)
            ||| (arrivals[j] is None && visited[j] && bound > end_time)
        },
    }
}

/// Every road at a reached intersection is settled, but for the roads from
/// `a` on at `ci`, which is being expanded.
pub open spec fn tri_partial(
    g: &Graph,
    p: int,
    end_time: int,
    arrivals: Seq<Option<u64>>,
    visited: Seq<bool>,
    queue: Seq<PriorityQueueItem<u64, usize>>,
    ci: int,
    a: int,
) -> bool {
    forall|i: int, k: int|
        #![trigger g.intersections@[i].roads@[k]]
        0 <= i < arrivals.len() && arrivals[i] is Some && 0 <= k < g.intersections@[i].roads@.len() && (i != ci || k < a)
        ==> settled(g, p, end_time, arrivals, visited, queue, i, g.intersections@[i].roads@[k].0 as int)
}

proof fn lemma_settled_push(
    g: &Graph,
    p: int,
    end_time: int,
    arrivals: Seq<Option<u64>>,
    visited: Seq<bool>,
    queue: Seq<PriorityQueueItem<u64, usize>>,
    item: PriorityQueueItem<u64, usize>,
    i: int,
    r: int,
)
    requires
        settled(g, p, end_time, arrivals, visited, queue, i, r),
    ensures
        settled(g, p, end_time, arrivals, visited, queue.push(item), i, r),
{
    if let Some(j) = road_target(g, p, i, r) {
        let bound = arrivals[i]->0 + g.roads@[r].cost@[p];
        if arrivals[j] is None && !visited[j] && exists|q: int|
            0 <= q < queue.len() && (#[trigger] queue[q]).value == j && queue[q].cost <= bound {
            let q = choose|q: int| 0 <= q < queue.len() && (#[trigger] queue[q]).value == j && queue[q].cost <= bound;
            assert(queue.push(item)[q] == queue[q]);
        }
    }
}

proof fn lemma_tri_push(
    g: &Graph,
    p: int,
    end_time: int,
    arrivals: Seq<Option<u64>>,
    visited: Seq<bool>,
    queue: Seq<PriorityQueueItem<u64, usize>>,
    item: PriorityQueueItem<u64, usize>,
    ci: int,
    a: int,
)
    requires
        tri_partial(g, p, end_time, arrivals, visited, queue, ci, a),
    ensures
        tri_partial(g, p, end_time, arrivals, visited, queue.push(item), ci, a),
{
    assert forall|i: int, k: int|
        #![trigger g.intersections@[i].roads@[k]]
        0 <= i < arrivals.len() && arrivals[i] is Some && 0 <= k < g.intersections@[i].roads@.len() && (i != ci || k < a)
        implies settled(g, p, end_time, arrivals, visited, queue.push(item), i, g.intersections@[i].roads@[k].0 as int) by {
        lemma_settled_push(g, p, end_time, arrivals, visited, queue, item, i, g.intersections@[i].roads@[k].0 as int);
    }
}

/// After popping `before[kq]` (at `ct`, no later than any queued item): the
/// roads stay settled once its intersection is marked, with `new_arrival`
/// (none where it is passed over as later than `end_time`).
proof fn lemma_tri_pop(
    g: &Graph,
    p: int,
    end_time: int,
    arrivals: Seq<Option<u64>>,
    visited: Seq<bool>,
    before: Seq<PriorityQueueItem<u64, usize>>,
    kq: int,
    new_arrivals: Seq<Option<u64>>,
    new_visited: Seq<bool>,
)
    requires
        g.wf(),
        0 <= p < g.num_profiles(),
        visited.len() == g.intersections@.len(),
        tri_partial(g, p, end_time, arrivals, visited, before, -1, 0),
        0 <= kq < before.len(),
        forall|q: int| 0 <= q < before.len() ==> before[kq].cost <= #[trigger] before[q].cost,
        arrivals.len() == visited.len(),
        0 <= before[kq].value < visited.len(),
        ({
            let ci = before[kq].value as int;
            let ct = before[kq].cost;
            if visited[ci] {
                new_arrivals == arrivals && new_visited == visited
            } else {
                &&& arrivals[ci] is None
                &&& new_visited == visited.update(ci, true)
                &&& if ct > end_time {
                    new_arrivals == arrivals
                } else {
                    new_arrivals == arrivals.update(ci, Some(ct))
                }
            }
        }),
    ensures
        tri_partial(g, p, end_time, new_arrivals, new_visited, before.remove(kq),
            if !visited[before[kq].value as int] && before[kq].cost <= end_time { before[kq].value as int } else { -1 }, 0),
{
    let ci = before[kq].value as int;
    let ct = before[kq].cost;
    let queue = before.remove(kq);
    let x = if !visited[ci] && ct <= end_time { ci } else { -1 };
    assert forall|i: int, k: int|
        #![trigger g.intersections@[i].roads@[k]]
        0 <= i < new_arrivals.len() && new_arrivals[i] is Some && 0 <= k < g.intersections@[i].roads@.len() && (i != x || k < 0)
        implies settled(g, p, end_time, new_arrivals, new_visited, queue, i, g.intersections@[i].roads@[k].0 as int) by {
        let r = g.intersections@[i].roads@[k].0 as int;
        assert(new_arrivals[i] == arrivals[i]);
        assert(settled(g, p, end_time, arrivals, visited, before, i, r));
        if let Some(j) = road_target(g, p, i, r) {
            let bound = arrivals[i]->0 + g.roads@[r].cost@[p];
            if arrivals[j] is None && !visited[j] && exists|q: int|
                0 <= q < before.len() && (#[trigger] before[q]).value == j && before[q].cost <= bound {
                let q = choose|q: int| 0 <= q < before.len() && (#[trigger] before[q]).value == j && before[q].cost <= bound;
                if j == ci {
                    assert(ct <= before[q].cost);
                } else {
                    assert(q != kq);
                    if q < kq {
                        assert(queue[q] == before[q]);
                    } else {
                        assert(queue[q - 1] == before[q]);
                    }
                }
            }
            assert(crate::graph::intersection_wf(&g.intersections@[i], i, g.roads@));
            assert(g.intersections@[i].roads@[k].0 < g.roads@.len());
            assert(road_wf(&g.roads@[r], r, g.intersections@.len(), g.num_profiles(), g.gtfs.stops@.len()));
            if j != ci {
                assert(new_arrivals[j] == arrivals[j]);
                assert(new_visited[j] == visited[j]);
            }
        }
    }
}

/// `nodes` is a walk under profile `p`: from each node, along its
/// `ks[k]`-th listed road, which the profile may take to the next node.
pub open spec fn foot_walk(g: &Graph, p: int, nodes: Seq<int>, ks: Seq<int>) -> bool {
    &&& nodes.len() == ks.len() + 1
    &&& forall|k: int| 0 <= k < ks.len() ==> {
        &&& 0 <= nodes[k] < g.intersections@.len()
        &&& 0 <= #[trigger] ks[k] < g.intersections@[nodes[k]].roads@.len()
        &&& road_target(g, p, nodes[k], g.intersections@[nodes[k]].roads@[ks[k]].0 as int) == Some(nodes[k + 1])
    }
}

/// The cost of the first `m` roads of a walk.
pub open spec fn walk_cost(g: &Graph, p: int, nodes: Seq<int>, ks: Seq<int>, m: int) -> int
    decreases m,
{
    if m <= 0 {
        0
    } else {
        walk_cost(g, p, nodes, ks, m - 1) + g.roads@[g.intersections@[nodes[m - 1]].roads@[ks[m - 1]].0 as int].cost@[p]
    }
}

/// Along a walk from a node reached by `t0`, with every road settled and
/// nothing queued, each node is reached no later than `t0` plus the cost so
/// far, while that is within `end_time`.
proof fn lemma_walk_reached(
    g: &Graph,
    p: int,
    end_time: int,
    arrivals: Seq<Option<u64>>,
    visited: Seq<bool>,
    nodes: Seq<int>,
    ks: Seq<int>,
    t0: int,
    m: int,
)
    requires
        g.wf(),
        0 <= p < g.num_profiles(),
        arrivals.len() == g.intersections@.len(),
        tri_partial(g, p, end_time, arrivals, visited, Seq::empty(), -1, 0),
        foot_walk(g, p, nodes, ks),
        arrivals[nodes[0]] is Some,
        arrivals[nodes[0]]->0 <= t0,
        0 <= m <= ks.len(),
        t0 + walk_cost(g, p, nodes, ks, m) <= end_time,
        forall|k: int| 0 <= k < ks.len() ==> 0 <= walk_cost(g, p, nodes, ks, k),
    ensures
        arrivals[nodes[m]] is Some,
        arrivals[nodes[m]]->0 <= t0 + walk_cost(g, p, nodes, ks, m),
    decreases m,
{
    if m > 0 {
        let c = g.roads@[g.intersections@[nodes[m - 1]].roads@[ks[m - 1]].0 as int].cost@[p];
        assert(c >= 0);
        lemma_walk_reached(g, p, end_time, arrivals, visited, nodes, ks, t0, m - 1);
        assert(0 <= #[trigger] ks[m - 1] < g.intersections@[nodes[m - 1]].roads@.len());
        assert(settled(g, p, end_time, arrivals, visited, Seq::empty(), nodes[m - 1],
            g.intersections@[nodes[m - 1]].roads@[ks[m - 1]].0 as int));
    }
}

proof fn lemma_walk_costs_nonneg(g: &Graph, p: int, nodes: Seq<int>, ks: Seq<int>, m: int)
    ensures
        forall|k: int| 0 <= k <= m ==> 0 <= #[trigger] walk_cost(g, p, nodes, ks, k),
    decreases m,
{
    if m > 0 {
        lemma_walk_costs_nonneg(g, p, nodes, ks, m - 1);
        assert forall|k: int| 0 <= k <= m implies 0 <= #[trigger] walk_cost(g, p, nodes, ks, k) by {
            if k == m {
                assert(walk_cost(g, p, nodes, ks, m - 1) >= 0);
            }
        }
    }
}

/// Each recorded road's time is no later than through either reached end,
/// and was recorded by the time `last`.
pub open spec fn recorded_least(g: &Graph, p: int, t0: int, last: int, arrivals: Seq<Option<u64>>, map: Map<usize, u64>) -> bool {
    forall|road: usize| #[trigger] map.contains_key(road) ==> {
        let rd = g.roads@[road as int];
        let c = rd.cost@[p];
        &&& map[road] + t0 - c <= last
        &&& (arrivals[rd.src_i.0 as int] is Some ==> map[road] + t0 <= arrivals[rd.src_i.0 as int]->0 + c)
        &&& (arrivals[rd.dst_i.0 as int] is Some ==> map[road] + t0 <= arrivals[rd.dst_i.0 as int]->0 + c)
    }
}

proof fn lemma_recorded_least_step(
    g: &Graph,
    p: int,
    t0: int,
    l1: int,
    l2: int,
    arr: Seq<Option<u64>>,
    arr2: Seq<Option<u64>>,
    ci: int,
    map: Map<usize, u64>,
)
    requires
        recorded_least(g, p, t0, l1, arr, map),
        l1 <= l2,
        g.wf(),
        arr.len() == g.intersections@.len(),
        forall|road: usize| #[trigger] map.contains_key(road) ==> road < g.roads@.len(),
        arr.len() == arr2.len(),
        arr2 == arr || (0 <= ci < arr.len() && arr2 == arr.update(ci, Some(l2 as u64)) && l2 == l2 as u64),
    ensures
        recorded_least(g, p, t0, l2, arr2, map),
{
    assert forall|road: usize| #[trigger] map.contains_key(road) implies {
        let rd = g.roads@[road as int];
        let c = rd.cost@[p];
        &&& map[road] + t0 - c <= l2
        &&& (arr2[rd.src_i.0 as int] is Some ==> map[road] + t0 <= arr2[rd.src_i.0 as int]->0 + c)
        &&& (arr2[rd.dst_i.0 as int] is Some ==> map[road] + t0 <= arr2[rd.dst_i.0 as int]->0 + c)
    } by {
        let rd = g.roads@[road as int];
        assert(road_wf(&g.roads@[road as int], road as int, g.intersections@.len(), g.num_profiles(), g.gtfs.stops@.len()));
        if arr2 != arr {
            if rd.src_i.0 as int != ci {
                assert(arr2[rd.src_i.0 as int] == arr[rd.src_i.0 as int]);
            }
            if rd.dst_i.0 as int != ci {
                assert(arr2[rd.dst_i.0 as int] == arr[rd.dst_i.0 as int]);
            }
        }
    }
}

/// The number of intersections not yet visited.
pub open spec fn count_unvisited(s: Seq<bool>) -> nat
    decreases s.len(),
{
    if s.len() == 0 {
        0
    } else {
        count_unvisited(s.drop_last()) + if s.last() { 0nat } else { 1nat }
    }
}

pub proof fn lemma_visit(s: Seq<bool>, k: int)
    requires
        0 <= k < s.len(),
        !s[k],
    ensures
        count_unvisited(s.update(k, true)) + 1 == count_unvisited(s),
    decreases s.len(),
{
    if k < s.len() - 1 {
        lemma_visit(s.drop_last(), k);
        assert(s.update(k, true).drop_last() =~= s.drop_last().update(k, true));
    } else {
        assert(s.update(k, true).drop_last() =~= s.drop_last());
    }
}

/// A recorded road was reached through one of its ends, at a time within the
/// window, and holds the time to cross it from there.
pub open spec fn recorded(
    g: &Graph,
    p: int,
    transit: bool,
    starts: Seq<IntersectionID>,
    start_time: int,
    end_time: int,
    road: int,
    elapsed: int,
) -> bool {
    &&& 0 <= road < g.roads@.len()
    &&& exists|i: int, t: int, n: nat| {
        &&& #[trigger] reach(g, p, transit, end_time, starts, start_time, i, t, n)
        &&& t <= end_time
        &&& (g.roads@[road].src_i.0 == i || g.roads@[road].dst_i.0 == i)
        &&& elapsed == t + g.roads@[road].cost@[p] - start_time
    }
}

impl Graph {
    /// From a list of start intersections, floods out the graph for a
    /// profile until `end_time` is reached. Returns, per reached road, the
    /// milliseconds from `start_time` until the far end of it is reached from
    /// the intersection that first reached it; every road at an intersection
    /// that some walk from a start reaches within the window is recorded.
    /// Not precise about positions along a road.
    pub fn get_costs(
        &self,
        starts: Vec<IntersectionID>,
        profile: ProfileID,
        public_transit: bool,
        start_time: u32,
        end_time: u32,
    ) -> (r: BTreeMap<usize, u64>)
        requires
            self.wf(),
            profile.0 < self.num_profiles(),
            forall|k: int| 0 <= k < starts@.len() ==> (#[trigger] starts@[k]).0 < self.intersections@.len(),
        ensures
            forall|road: usize| #[trigger] r@.contains_key(road) ==> recorded(
                self,
                profile.0 as int,
                public_transit,
                starts@,
                start_time as int,
                end_time as int,
                road as int,
                r@[road] as int,
            ),
            start_time <= end_time ==> forall|k: int, a: int|
                0 <= k < starts@.len() && 0 <= a < self.intersections@[starts@[k].0 as int].roads@.len()
                ==> r@.contains_key((#[trigger] self.intersections@[starts@[k].0 as int].roads@[a]).0),
            start_time <= end_time ==> forall|nodes: Seq<int>, ks: Seq<int>|
                (exists|k: int| 0 <= k < starts@.len() && (#[trigger] starts@[k]).0 == nodes[0]) && #[trigger] foot_walk(self, profile.0 as int, nodes, ks)
                && start_time + walk_cost(self, profile.0 as int, nodes, ks, ks.len() as int) <= end_time
                ==> forall|a: int| 0 <= a < self.intersections@[nodes.last()].roads@.len()
                    ==> r@.contains_key((#[trigger] self.intersections@[nodes.last()].roads@[a]).0)
                    && r@[self.intersections@[nodes.last()].roads@[a].0] <= walk_cost(self, profile.0 as int, nodes, ks, ks.len() as int)
                        + self.roads@[self.intersections@[nodes.last()].roads@[a].0 as int].cost@[profile.0 as int],
    {
        self.flood(starts, profile, public_transit, start_time, end_time).0
    }

    /// Floods out from the start intersections as `get_costs` does, and also
    /// returns, per intersection, when it was reached (where that was no
    /// later than `end_time`). Those times obey the triangle inequality along
    /// every road that the profile may cross.
    pub fn flood(
        &self,
        starts: Vec<IntersectionID>,
        profile: ProfileID,
        public_transit: bool,
        start_time: u32,
        end_time: u32,
    ) -> (r: (BTreeMap<usize, u64>, Vec<Option<u64>>))
        requires
            self.wf(),
            profile.0 < self.num_profiles(),
            forall|k: int| 0 <= k < starts@.len() ==> (#[trigger] starts@[k]).0 < self.intersections@.len(),
        ensures
            forall|road: usize| #[trigger] r.0@.contains_key(road) ==> recorded(
                self,
                profile.0 as int,
                public_transit,
                starts@,
                start_time as int,
                end_time as int,
                road as int,
                r.0@[road] as int,
            ),
            start_time <= end_time ==> forall|k: int, a: int|
                0 <= k < starts@.len() && 0 <= a < self.intersections@[starts@[k].0 as int].roads@.len()
                ==> r.0@.contains_key((#[trigger] self.intersections@[starts@[k].0 as int].roads@[a]).0),
            r.1@.len() == self.intersections@.len(),
            start_time <= end_time ==> forall|k: int| 0 <= k < starts@.len() ==> (#[trigger] r.1@[starts@[k].0 as int]) is Some
                && r.1@[starts@[k].0 as int]->0 <= start_time,
            start_time <= end_time ==> forall|nodes: Seq<int>, ks: Seq<int>|
                (exists|k: int| 0 <= k < starts@.len() && (#[trigger] starts@[k]).0 == nodes[0]) && #[trigger] foot_walk(self, profile.0 as int, nodes, ks)
                && start_time + walk_cost(self, profile.0 as int, nodes, ks, ks.len() as int) <= end_time
                ==> r.1@[nodes.last()] is Some && r.1@[nodes.last()]->0 <= start_time + walk_cost(self, profile.0 as int, nodes, ks, ks.len() as int)
                && forall|a: int| 0 <= a < self.intersections@[nodes.last()].roads@.len()
                    ==> r.0@.contains_key((#[trigger] self.intersections@[nodes.last()].roads@[a]).0)
                    && r.0@[self.intersections@[nodes.last()].roads@[a].0] <= walk_cost(self, profile.0 as int, nodes, ks, ks.len() as int)
                        + self.roads@[self.intersections@[nodes.last()].roads@[a].0 as int].cost@[profile.0 as int],
            forall|i: int| 0 <= i < r.1@.len() && (#[trigger] r.1@[i]) is Some ==> {
                &&& r.1@[i]->0 <= end_time
                &&& exists|n: nat| reach(self, profile.0 as int, public_transit, end_time as int, starts@, start_time as int, i, r.1@[i]->0 as int, n)
            },
            forall|i: int, k: int|
                #![trigger self.intersections@[i].roads@[k]]
                0 <= i < r.1@.len() && r.1@[i] is Some && 0 <= k < self.intersections@[i].roads@.len() ==> match road_target(
                    self, profile.0 as int, i, self.intersections@[i].roads@[k].0 as int) {
                    Some(j) => r.1@[j] is Some ==> r.1@[j]->0 <= r.1@[i]->0 + self.roads@[self.intersections@[i].roads@[k].0 as int].cost@[profile.0 as int],
                    None => true,
                },
    {
        let ghost p = profile.0 as int;
        let ghost t0 = start_time as int;
        let ghost et = end_time as int;
        let ni = self.intersections.len();
        let mut visited: Vec<bool> = Vec::new();
        let mut arrivals: Vec<Option<u64>> = Vec::new();
        let mut z: usize = 0;
        while z < ni
            invariant
                t0 == start_time as int,
                et == end_time as int,
                z <= ni,
                visited@.len() == z,
                arrivals@.len() == z,
                forall|j: int| 0 <= j < z ==> !(#[trigger] visited@[j]),
                forall|j: int| 0 <= j < z ==> (#[trigger] arrivals@[j]) is None,
            decreases ni - z,
        {
            visited.push(false);
            arrivals.push(None);
            z = z + 1;
        }
        let mut cost_per_road: BTreeMap<usize, u64> = BTreeMap::new();
        let mut queue: Vec<PriorityQueueItem<u64, usize>> = Vec::new();
        let mut k: usize = 0;
        while k < starts.len()
            invariant
                t0 == start_time as int,
                et == end_time as int,
                k <= starts@.len(),
                forall|q: int| 0 <= q < queue@.len() ==> item_ok(self, p, public_transit, starts@, t0, et, ni as int, #[trigger] queue@[q]),
                forall|kk: int| 0 <= kk < starts@.len() ==> (#[trigger] starts@[kk]).0 < self.intersections@.len(),
                ni == self.intersections@.len(),
                visited@.len() == ni,
                forall|j: int| 0 <= j < ni ==> !(#[trigger] visited@[j]),
                arrivals@.len() == ni,
                forall|j: int| 0 <= j < ni ==> (#[trigger] arrivals@[j]) is None,
                forall|kk: int| 0 <= kk < k ==> exists|q: int| 0 <= q < queue@.len() && queue@[q] == (PriorityQueueItem {
                    cost: start_time as u64,
                    value: (#[trigger] starts@[kk]).0,
                }),
            decreases starts@.len() - k,
        {
            assert(reach(self, p, public_transit, et, starts@, t0, starts@[k as int].0 as int, t0, 0));
            proof {
                lemma_item_ok(self, p, public_transit, starts@, t0, et, ni as int, PriorityQueueItem { cost: start_time as u64, value: starts@[k as int].0 }, 0);
            }
            let ghost qb = queue@;
            queue.push(PriorityQueueItem::new(start_time as u64, starts[k].0));
            proof {
                assert forall|kk: int| 0 <= kk < k + 1 implies exists|q: int| 0 <= q < queue@.len() && queue@[q] == (PriorityQueueItem {
                    cost: start_time as u64,
                    value: (#[trigger] starts@[kk]).0,
                }) by {
                    if kk < k {
                        let q = choose|q: int| 0 <= q < qb.len() && qb[q] == (PriorityQueueItem { cost: start_time as u64, value: starts@[kk].0 });
                        assert(queue@[q] == qb[q]);
                    } else {
                        assert(queue@[qb.len() as int] == (PriorityQueueItem { cost: start_time as u64, value: starts@[kk].0 }));
                    }
                }
            }
            k = k + 1;
        }
        let ghost mut expanded: Set<int> = Set::empty();
        let ghost mut last: int = 0;
        proof {
            assert(starts_pending(starts@, start_time, visited@, queue@, expanded, -1));
        }
        proof {
            broadcast use vstd::std_specs::btree::axiom_key_obeys_cmp_spec_meaning;
        }
        while queue.len() > 0
            invariant
                t0 == start_time as int,
                et == end_time as int,
                self.wf(),
                p == profile.0,
                profile.0 < self.num_profiles(),
                ni == self.intersections@.len(),
                visited@.len() == ni,
                forall|q: int| 0 <= q < queue@.len() ==> item_ok(self, p, public_transit, starts@, t0, et, ni as int, #[trigger] queue@[q]),
                recorded_least(self, p, t0, last, arrivals@, cost_per_road@),
                forall|road: usize| #[trigger] cost_per_road@.contains_key(road) ==> recorded(
                    self, p, public_transit, starts@, t0, et, road as int, cost_per_road@[road] as int),
                forall|kk: int| 0 <= kk < starts@.len() ==> (#[trigger] starts@[kk]).0 < self.intersections@.len(),
                expanded_recorded(self, expanded, visited@, cost_per_road@),
                forall|i: int| 0 <= i < ni ==> (expanded.contains(i) <==> (#[trigger] arrivals@[i]) is Some),
                start_time <= end_time ==> forall|k: int| 0 <= k < starts@.len() && expanded.contains((#[trigger] starts@[k]).0 as int)
                    ==> arrivals@[starts@[k].0 as int]->0 <= start_time,
                start_time <= end_time ==> starts_pending(starts@, start_time, visited@, queue@, expanded, -1),
                arrivals@.len() == ni,
                forall|j: int| 0 <= j < ni && (#[trigger] arrivals@[j]) is Some ==> {
                    &&& visited@[j]
                    &&& arrivals@[j]->0 <= last
                    &&& arrivals@[j]->0 <= end_time
                    &&& exists|n: nat| reach(self, p, public_transit, et, starts@, t0, j, arrivals@[j]->0 as int, n)
                },
                forall|j: int| 0 <= j < ni && (#[trigger] visited@[j]) && arrivals@[j] is None ==> last > end_time,
                forall|q: int| 0 <= q < queue@.len() ==> (#[trigger] queue@[q]).cost >= last,
                tri_partial(self, p, et, arrivals@, visited@, queue@, -1, 0),
            decreases count_unvisited(visited@), queue@.len(),
        {
            let ghost before = queue@;
            let current = pop_min(&mut queue);
            proof {
                let kq = choose|kq: int| 0 <= kq < before.len() && before[kq] == current && queue@ == before.remove(kq);
                assert(item_ok(self, p, public_transit, starts@, t0, et, ni as int, before[kq]));
                assert forall|q: int| 0 <= q < queue@.len() implies item_ok(self, p, public_transit, starts@, t0, et, ni as int, #[trigger] queue@[q]) by {
                    if q < kq {
                        assert(queue@[q] == before[q]);
                    } else {
                        assert(queue@[q] == before[q + 1]);
                    }
                }
            }
            let ci = current.value;
            let ct = current.cost;
            let ghost kpop = choose|kq: int| 0 <= kq < before.len() && before[kq] == current && queue@ == before.remove(kq);
            proof {
                assert(before[kpop].cost >= last);
                assert forall|q: int| 0 <= q < before.len() implies before[kpop].cost <= #[trigger] before[q].cost by {
                    assert(leaves_before(current, before[q]));
                }
                assert forall|q: int| 0 <= q < queue@.len() implies (#[trigger] queue@[q]).cost >= ct by {
                    if q < kpop {
                        assert(queue@[q] == before[q]);
                    } else {
                        assert(queue@[q] == before[q + 1]);
                    }
                }
                assert(item_ok(self, p, public_transit, starts@, t0, et, ni as int, before[kpop]));
            }
            proof {
                if start_time <= end_time {
                    let kq = choose|kq: int| 0 <= kq < before.len() && before[kq] == current && queue@ == before.remove(kq);
                    assert forall|k: int| 0 <= k < starts@.len() && (#[trigger] starts@[k]).0 != ci implies expanded.contains(starts@[k].0 as int) || (
                        !visited@[starts@[k].0 as int] && exists|q: int| 0 <= q < queue@.len() && queue@[q] == (PriorityQueueItem {
                            cost: start_time as u64,
                            value: starts@[k].0,
                        })) by {
                        if !expanded.contains(starts@[k].0 as int) {
                            let q = choose|q: int| 0 <= q < before.len() && before[q] == (PriorityQueueItem { cost: start_time as u64, value: starts@[k].0 });
                            assert(q != kq);
                            if q < kq {
                                assert(queue@[q] == before[q]);
                            } else {
                                assert(queue@[q - 1] == before[q]);
                            }
                        }
                    }
                    // A start that is still pending and is popped now leaves no later than its start item.
                    assert forall|k: int| 0 <= k < starts@.len() && (#[trigger] starts@[k]).0 == ci && !expanded.contains(ci as int)
                        implies !visited@[ci as int] && ct <= start_time by {
                        let q = choose|q: int| 0 <= q < before.len() && before[q] == (PriorityQueueItem { cost: start_time as u64, value: starts@[k].0 });
                        assert(leaves_before(current, before[q]));
                    }
                }
            }
            if visited[ci] {
                proof {
                    if start_time <= end_time {
                        assert forall|k: int| 0 <= k < starts@.len() && (#[trigger] starts@[k]).0 == ci implies expanded.contains(ci as int) by {}
                    }
                    lemma_tri_pop(self, p, et, arrivals@, visited@, before, kpop, arrivals@, visited@);
                    lemma_recorded_least_step(self, p, t0, last, ct as int, arrivals@, arrivals@, ci as int, cost_per_road@);
                    last = ct as int;
                }
                continue;
            }
            let ghost arrivals_before = arrivals@;
            proof {
                lemma_visit(visited@, ci as int);
            }
            let ghost visited_before = visited@;
            visited.set(ci, true);
            proof {
                assert forall|i: int| #[trigger] expanded.contains(i) implies i < visited@.len() && visited@[i] by {
                    assert(visited_before[i]);
                }
                if start_time <= end_time {
                    assert forall|k: int| 0 <= k < starts@.len() && (#[trigger] starts@[k]).0 != ci implies expanded.contains(starts@[k].0 as int) || (
                        !visited@[starts@[k].0 as int] && exists|q: int| 0 <= q < queue@.len() && queue@[q] == (PriorityQueueItem {
                            cost: start_time as u64,
                            value: starts@[k].0,
                        })) by {
                        assert(visited@[starts@[k].0 as int] == visited_before[starts@[k].0 as int]);
                    }
                }
            }
            if ct > end_time as u64 {
                proof {
                    if start_time <= end_time {
                        assert forall|k: int| 0 <= k < starts@.len() && (#[trigger] starts@[k]).0 == ci implies expanded.contains(ci as int) by {}
                    }
                    assert(arrivals@[ci as int] is None);
                    lemma_tri_pop(self, p, et, arrivals@, visited_before, before, kpop, arrivals@, visited@);
                    lemma_recorded_least_step(self, p, t0, last, ct as int, arrivals@, arrivals@, ci as int, cost_per_road@);
                    last = ct as int;
                    assert forall|j: int| 0 <= j < ni && (#[trigger] arrivals@[j]) is Some implies visited@[j] by {
                        assert(visited_before[j]);
                    }
                }
                continue;
            }
            proof {
                assert(arrivals@[ci as int] is None);
                assert forall|j: int| 0 <= j < ni && (#[trigger] visited_before[j]) implies arrivals@[j] is Some by {}
            }
            arrivals.set(ci, Some(ct));
            let ghost last0 = last;
            proof {
                lemma_tri_pop(self, p, et, arrivals_before, visited_before, before, kpop, arrivals@, visited@);
                lemma_recorded_least_step(self, p, t0, last, ct as int, arrivals_before, arrivals@, ci as int, cost_per_road@);
                last = ct as int;
            }
            let ghost arr1 = arrivals@;
            let ghost queue0 = queue@;
            let ghost map0 = cost_per_road@;
            assert(item_ok(self, p, public_transit, starts@, t0, et, ni as int, current));
            let ghost cn: nat = choose|n: nat| reach(self, p, public_transit, et, starts@, t0, ci as int, ct as int, n);
            proof {
                assert forall|j: int| 0 <= j < ni && (#[trigger] arr1[j]) is Some implies {
                    &&& visited@[j]
                    &&& arr1[j]->0 <= ct
                    &&& arr1[j]->0 <= end_time
                    &&& exists|n: nat| reach(self, p, public_transit, et, starts@, t0, j, arr1[j]->0 as int, n)
                } by {
                    if j != ci {
                        assert(arr1[j] == arrivals_before[j]);
                        assert(visited@[j] == visited_before[j]);
                        assert(arrivals_before[j]->0 <= last0);
                        assert(last0 <= ct);
                    } else {
                        assert(reach(self, p, public_transit, et, starts@, t0, ci as int, ct as int, cn));
                    }
                }
                assert forall|j: int| 0 <= j < ni && (#[trigger] visited@[j]) implies arr1[j] is Some by {
                    if j != ci {
                        assert(visited@[j] == visited_before[j]);
                        assert(arr1[j] == arrivals_before[j]);
                    }
                }
                assert(!expanded.contains(ci as int));
                assert forall|i: int| 0 <= i < ni implies (expanded.contains(i) <==> ((#[trigger] arr1[i]) is Some && i != ci)) by {
                    if i != ci {
                        assert(arr1[i] == arrivals_before[i]);
                    }
                }
                if start_time <= end_time {
                    assert forall|k: int| 0 <= k < starts@.len() && expanded.contains((#[trigger] starts@[k]).0 as int)
                        implies arr1[starts@[k].0 as int]->0 <= start_time by {
                        assert(arr1[starts@[k].0 as int] == arrivals_before[starts@[k].0 as int]);
                    }
                }
            }
            let ghost unvisited = count_unvisited(visited@);
            let roads = &self.intersections[ci].roads;
            let ghost vis = visited@;
            let mut a: usize = 0;
            while a < roads.len()
                invariant
                    t0 == start_time as int,
                    et == end_time as int,
                    self.wf(),
                    p == profile.0,
                    profile.0 < self.num_profiles(),
                    ni == self.intersections@.len(),
                    ci < ni,
                    roads@ == self.intersections@[ci as int].roads@,
                    a <= roads@.len(),
                    forall|k: int| 0 <= k < a ==> cost_per_road@.contains_key((#[trigger] roads@[k]).0),
                    visited@ == vis,
                    arrivals@ == arr1,
                    arr1.len() == ni,
                    arr1[ci as int] == Some(ct),
                    last == ct as int,
                    forall|j: int| 0 <= j < ni && (#[trigger] arr1[j]) is Some ==> vis[j] && arr1[j]->0 <= ct && arr1[j]->0 <= end_time
                        && exists|n: nat| reach(self, p, public_transit, et, starts@, t0, j, arr1[j]->0 as int, n),
                    forall|j: int| 0 <= j < ni && #[trigger] vis[j] ==> arr1[j] is Some,
                    forall|q: int| 0 <= q < queue@.len() ==> (#[trigger] queue@[q]).cost >= ct,
                    tri_partial(self, p, et, arr1, vis, queue@, ci as int, a as int),
                    expanded_recorded(self, expanded, vis, map0),
                    forall|i: int| 0 <= i < ni ==> (expanded.contains(i) <==> ((#[trigger] arr1[i]) is Some && i != ci)),
                    start_time <= end_time ==> forall|k: int| 0 <= k < starts@.len() && expanded.contains((#[trigger] starts@[k]).0 as int)
                        ==> arr1[starts@[k].0 as int]->0 <= start_time,
                    start_time <= end_time ==> forall|k: int| 0 <= k < starts@.len() && (#[trigger] starts@[k]).0 == ci ==> ct <= start_time,
                    forall|j: usize| map0.contains_key(j) ==> #[trigger] cost_per_road@.contains_key(j),
                    recorded_least(self, p, t0, ct as int, arr1, cost_per_road@),
                    queue@.len() >= queue0.len(),
                    forall|q: int| 0 <= q < queue0.len() ==> #[trigger] queue@[q] == queue0[q],
                    start_time <= end_time ==> starts_pending(starts@, start_time, vis, queue0, expanded, ci as int),
                    roads@ == self.intersections@[ci as int].roads@,
                    start_time <= ct <= end_time,
                    reach(self, p, public_transit, et, starts@, t0, ci as int, ct as int, cn),
                    visited@.len() == ni,
                    count_unvisited(visited@) == unvisited,
                    forall|q: int| 0 <= q < queue@.len() ==> item_ok(self, p, public_transit, starts@, t0, et, ni as int, #[trigger] queue@[q]),
                    forall|road: usize| #[trigger] cost_per_road@.contains_key(road) ==> recorded(
                        self, p, public_transit, starts@, t0, et, road as int, cost_per_road@[road] as int),
                decreases roads@.len() - a,
            {
                let r = roads[a];
                assert(crate::graph::intersection_wf(&self.intersections@[ci as int], ci as int, self.roads@));
                assert(self.intersections@[ci as int].roads@[a as int] == r);
                let road = &self.roads[r.0];
                assert(road_wf(&self.roads@[r.0 as int], r.0 as int, self.intersections@.len(), self.num_profiles(), self.gtfs.stops@.len()));
                let total = ct + road.cost[profile.0] as u64;
                if !cost_per_road.contains_key(&r.0) {
                    proof {
                        assert(self.roads@[r.0 as int].src_i.0 == ci || self.roads@[r.0 as int].dst_i.0 == ci);
                        assert(reach(self, p, public_transit, et, starts@, t0, ci as int, ct as int, cn));
                        assert(recorded(self, p, public_transit, starts@, t0, et, r.0 as int, total - start_time));
                        let rd = self.roads@[r.0 as int];
                        assert(self.roads_listed());
                        assert(listed_at(self.intersections@, rd.src_i.0 as int, r.0 as int));
                        assert(listed_at(self.intersections@, rd.dst_i.0 as int, r.0 as int));
                        assert forall|e: int| (e == rd.src_i.0 || e == rd.dst_i.0) && e != ci implies arr1[e] is None by {
                            if arr1[e] is Some {
                                assert(expanded.contains(e));
                                let kk = choose|kk: int| 0 <= kk < self.intersections@[e].roads@.len()
                                    && #[trigger] self.intersections@[e].roads@[kk] == RoadID(r.0);
                                assert(map0.contains_key(self.intersections@[e].roads@[kk].0));
                                assert(cost_per_road@.contains_key(r.0));
                            }
                        }
                    }
                    let ghost map_before = cost_per_road@;
                    cost_per_road.insert(r.0, total - start_time as u64);
                    proof {
                        let rd = self.roads@[r.0 as int];
                        assert forall|road: usize| #[trigger] cost_per_road@.contains_key(road) implies {
                            let rd2 = self.roads@[road as int];
                            let c = rd2.cost@[p];
                            &&& cost_per_road@[road] + t0 - c <= ct
                            &&& (arr1[rd2.src_i.0 as int] is Some ==> cost_per_road@[road] + t0 <= arr1[rd2.src_i.0 as int]->0 + c)
                            &&& (arr1[rd2.dst_i.0 as int] is Some ==> cost_per_road@[road] + t0 <= arr1[rd2.dst_i.0 as int]->0 + c)
                        } by {
                            if road != r.0 {
                                assert(map_before.contains_key(road));
                            } else {
                                if (rd.src_i.0 as int) != (ci as int) {
                                    assert(arr1[rd.src_i.0 as int] is None);
                                }
                                if (rd.dst_i.0 as int) != (ci as int) {
                                    assert(arr1[rd.dst_i.0 as int] is None);
                                }
                            }
                        }
                    }
                }
                if road.src_i.0 == ci && road.allows_forwards(profile) {
                    proof {
                        assert(walk_step(self, p, ci as int, ct as int, road.dst_i.0 as int, total as int, r.0 as int));
                        assert(hop(self, p, public_transit, et, ci as int, ct as int, road.dst_i.0 as int, total as int));
                        lemma_reach_step(self, p, public_transit, et, starts@, t0, ci as int, ct as int, road.dst_i.0 as int, total as int, cn);
                        lemma_item_ok(self, p, public_transit, starts@, t0, et, ni as int, PriorityQueueItem { cost: total, value: road.dst_i.0 }, (cn + 1) as nat);
                    }
                    let ghost qb = queue@;
                    let item = PriorityQueueItem::new(total, road.dst_i.0);
                    queue.push(item);
                    proof {
                        lemma_tri_push(self, p, et, arr1, vis, qb, item, ci as int, a as int);
                        assert(queue@[qb.len() as int] == item);
                    }
                }
                if road.dst_i.0 == ci && road.allows_backwards(profile) {
                    proof {
                        assert(walk_step(self, p, ci as int, ct as int, road.src_i.0 as int, total as int, r.0 as int));
                        assert(hop(self, p, public_transit, et, ci as int, ct as int, road.src_i.0 as int, total as int));
                        lemma_reach_step(self, p, public_transit, et, starts@, t0, ci as int, ct as int, road.src_i.0 as int, total as int, cn);
                        lemma_item_ok(self, p, public_transit, starts@, t0, et, ni as int, PriorityQueueItem { cost: total, value: road.src_i.0 }, (cn + 1) as nat);
                    }
                    let ghost qb = queue@;
                    let item = PriorityQueueItem::new(total, road.src_i.0);
                    queue.push(item);
                    proof {
                        lemma_tri_push(self, p, et, arr1, vis, qb, item, ci as int, a as int);
                        assert(queue@[qb.len() as int] == item);
                    }
                }
                proof {
                    assert(self.intersections@[ci as int].roads@[a as int] == r);
                    if let Some(j) = road_target(self, p, ci as int, r.0 as int) {
                        assert(j < ni);
                        if vis[j] {
                            assert(arr1[j] is Some);
                        } else {
                            assert(arr1[j] is None);
                        }
                    }
                    assert(settled(self, p, et, arr1, vis, queue@, ci as int, r.0 as int));
                }
                if public_transit {
                    let mut b: usize = 0;
                    while b < road.stops.len()
                        invariant
                            t0 == start_time as int,
                            et == end_time as int,
                            self.wf(),
                            p == profile.0,
                            ni == self.intersections@.len(),
                            ci < ni,
                            r.0 < self.roads@.len(),
                            road == &self.roads@[r.0 as int],
                            road.src_i.0 == ci || road.dst_i.0 == ci,
                            public_transit,
                            b <= road.stops@.len(),
                            a < roads@.len(),
                            forall|k: int| 0 <= k <= a ==> cost_per_road@.contains_key((#[trigger] roads@[k]).0),
                            roads@[a as int] == r,
                            settled(self, p, et, arr1, vis, queue@, ci as int, r.0 as int),
                            visited@ == vis,
                            arrivals@ == arr1,
                            arr1.len() == ni,
                            arr1[ci as int] == Some(ct),
                            last == ct as int,
                            forall|j: int| 0 <= j < ni && (#[trigger] arr1[j]) is Some ==> vis[j] && arr1[j]->0 <= ct && arr1[j]->0 <= end_time
                                && exists|n: nat| reach(self, p, public_transit, et, starts@, t0, j, arr1[j]->0 as int, n),
                            forall|j: int| 0 <= j < ni && #[trigger] vis[j] ==> arr1[j] is Some,
                            forall|q: int| 0 <= q < queue@.len() ==> (#[trigger] queue@[q]).cost >= ct,
                            tri_partial(self, p, et, arr1, vis, queue@, ci as int, a as int),
                            expanded_recorded(self, expanded, vis, map0),
                            forall|i: int| 0 <= i < ni ==> (expanded.contains(i) <==> ((#[trigger] arr1[i]) is Some && i != ci)),
                            start_time <= end_time ==> forall|k: int| 0 <= k < starts@.len() && expanded.contains((#[trigger] starts@[k]).0 as int)
                                ==> arr1[starts@[k].0 as int]->0 <= start_time,
                            start_time <= end_time ==> forall|k: int| 0 <= k < starts@.len() && (#[trigger] starts@[k]).0 == ci ==> ct <= start_time,
                            forall|j: usize| map0.contains_key(j) ==> #[trigger] cost_per_road@.contains_key(j),
                            recorded_least(self, p, t0, ct as int, arr1, cost_per_road@),
                            queue@.len() >= queue0.len(),
                            forall|q: int| 0 <= q < queue0.len() ==> #[trigger] queue@[q] == queue0[q],
                            start_time <= end_time ==> starts_pending(starts@, start_time, vis, queue0, expanded, ci as int),
                            roads@ == self.intersections@[ci as int].roads@,
                            start_time <= ct <= end_time,
                            reach(self, p, public_transit, et, starts@, t0, ci as int, ct as int, cn),
                            forall|q: int| 0 <= q < queue@.len() ==> item_ok(self, p, public_transit, starts@, t0, et, ni as int, #[trigger] queue@[q]),
                        decreases road.stops@.len() - b,
                    {
                        let stop1 = road.stops[b];
                        let departures = self.gtfs.trips_from(stop1, ct, end_time as u64 - ct);
                        proof {
                            lemma_departures_from(self.gtfs.stops@[stop1.0 as int].next_steps@, ct as int, et);
                            assert(departures@ == crate::gtfs::departures_within(self.gtfs.stops@[stop1.0 as int].next_steps@, ct as int, et));
                        }
                        let mut c: usize = 0;
                        while c < departures.len()
                            invariant
                                t0 == start_time as int,
                                et == end_time as int,
                                self.wf(),
                                p == profile.0,
                                ni == self.intersections@.len(),
                                ci < ni,
                                r.0 < self.roads@.len(),
                                road == &self.roads@[r.0 as int],
                                road.src_i.0 == ci || road.dst_i.0 == ci,
                                public_transit,
                                b < road.stops@.len(),
                                stop1 == road.stops@[b as int],
                                stop1.0 < self.gtfs.stops@.len(),
                                start_time <= ct <= end_time,
                                reach(self, p, public_transit, et, starts@, t0, ci as int, ct as int, cn),
                                forall|d: int| 0 <= d < departures@.len() ==> exists|kk: int|
                                    0 <= kk < self.gtfs.stops@[stop1.0 as int].next_steps@.len()
                                    && #[trigger] departures@[d] == self.gtfs.stops@[stop1.0 as int].next_steps@[kk]
                                    && ct <= departures@[d].time1 <= et,
                                c <= departures@.len(),
                                a < roads@.len(),
                                forall|k: int| 0 <= k <= a ==> cost_per_road@.contains_key((#[trigger] roads@[k]).0),
                                roads@[a as int] == r,
                                settled(self, p, et, arr1, vis, queue@, ci as int, r.0 as int),
                            roads@[a as int] == r,
                            settled(self, p, et, arr1, vis, queue@, ci as int, r.0 as int),
                                visited@ == vis,
                                arrivals@ == arr1,
                                arr1.len() == ni,
                                arr1[ci as int] == Some(ct),
                                last == ct as int,
                                forall|j: int| 0 <= j < ni && (#[trigger] arr1[j]) is Some ==> vis[j] && arr1[j]->0 <= ct && arr1[j]->0 <= end_time
                                    && exists|n: nat| reach(self, p, public_transit, et, starts@, t0, j, arr1[j]->0 as int, n),
                                forall|j: int| 0 <= j < ni && #[trigger] vis[j] ==> arr1[j] is Some,
                                forall|q: int| 0 <= q < queue@.len() ==> (#[trigger] queue@[q]).cost >= ct,
                                tri_partial(self, p, et, arr1, vis, queue@, ci as int, a as int),
                                expanded_recorded(self, expanded, vis, map0),
                                forall|i: int| 0 <= i < ni ==> (expanded.contains(i) <==> ((#[trigger] arr1[i]) is Some && i != ci)),
                                start_time <= end_time ==> forall|k: int| 0 <= k < starts@.len() && expanded.contains((#[trigger] starts@[k]).0 as int)
                                    ==> arr1[starts@[k].0 as int]->0 <= start_time,
                                start_time <= end_time ==> forall|k: int| 0 <= k < starts@.len() && (#[trigger] starts@[k]).0 == ci ==> ct <= start_time,
                                forall|j: usize| map0.contains_key(j) ==> #[trigger] cost_per_road@.contains_key(j),
                                recorded_least(self, p, t0, ct as int, arr1, cost_per_road@),
                                queue@.len() >= queue0.len(),
                                forall|q: int| 0 <= q < queue0.len() ==> #[trigger] queue@[q] == queue0[q],
                                start_time <= end_time ==> starts_pending(starts@, start_time, vis, queue0, expanded, ci as int),
                                roads@ == self.intersections@[ci as int].roads@,
                                forall|q: int| 0 <= q < queue@.len() ==> item_ok(self, p, public_transit, starts@, t0, et, ni as int, #[trigger] queue@[q]),
                            decreases departures@.len() - c,
                        {
                            let ns = departures[c];
                            let ghost kk = choose|kk: int|
                                0 <= kk < self.gtfs.stops@[stop1.0 as int].next_steps@.len()
                                && departures@[c as int] == self.gtfs.stops@[stop1.0 as int].next_steps@[kk]
                                && ct <= departures@[c as int].time1 <= et;
                            assert(self.gtfs.stops@[stop1.0 as int].next_steps@[kk].stop2.0 < self.gtfs.stops@.len());
                            let stop2_road_id = self.gtfs.stops[ns.stop2.0].road;
                            let stop2_road = &self.roads[stop2_road_id.0];
                            assert(road_wf(&self.roads@[stop2_road_id.0 as int], stop2_road_id.0 as int, self.intersections@.len(), self.num_profiles(), self.gtfs.stops@.len()));
                            proof {
                                assert(transit_step(self, et, ci as int, ct as int, stop2_road.src_i.0 as int, ns.time2 as int, r.0 as int, b as int, kk));
                                assert(transit_step(self, et, ci as int, ct as int, stop2_road.dst_i.0 as int, ns.time2 as int, r.0 as int, b as int, kk));
                                assert(hop(self, p, public_transit, et, ci as int, ct as int, stop2_road.src_i.0 as int, ns.time2 as int));
                                lemma_reach_step(self, p, public_transit, et, starts@, t0, ci as int, ct as int, stop2_road.src_i.0 as int, ns.time2 as int, cn);
                                lemma_item_ok(self, p, public_transit, starts@, t0, et, ni as int, PriorityQueueItem { cost: ns.time2, value: stop2_road.src_i.0 }, (cn + 1) as nat);
                                assert(hop(self, p, public_transit, et, ci as int, ct as int, stop2_road.dst_i.0 as int, ns.time2 as int));
                                lemma_reach_step(self, p, public_transit, et, starts@, t0, ci as int, ct as int, stop2_road.dst_i.0 as int, ns.time2 as int, cn);
                                lemma_item_ok(self, p, public_transit, starts@, t0, et, ni as int, PriorityQueueItem { cost: ns.time2, value: stop2_road.dst_i.0 }, (cn + 1) as nat);
                            }
                            assert(self.gtfs.stops@[stop1.0 as int].next_steps@[kk].time1 <= self.gtfs.stops@[stop1.0 as int].next_steps@[kk].time2);
                            let item1 = PriorityQueueItem::new(ns.time2, stop2_road.src_i.0);
                            let item2 = PriorityQueueItem::new(ns.time2, stop2_road.dst_i.0);
                            let ghost qb = queue@;
                            queue.push(item1);
                            queue.push(item2);
                            proof {
                                lemma_tri_push(self, p, et, arr1, vis, qb, item1, ci as int, a as int);
                                lemma_tri_push(self, p, et, arr1, vis, qb.push(item1), item2, ci as int, a as int);
                                lemma_settled_push(self, p, et, arr1, vis, qb, item1, ci as int, r.0 as int);
                                lemma_settled_push(self, p, et, arr1, vis, qb.push(item1), item2, ci as int, r.0 as int);
                            }
                            c = c + 1;
                        }
                        b = b + 1;
                    }
                }
                proof {
                    assert(roads@[a as int] == r);
                    assert forall|k: int| 0 <= k < a + 1 implies cost_per_road@.contains_key((#[trigger] roads@[k]).0) by {}
                    assert forall|i: int, k: int|
                        #![trigger self.intersections@[i].roads@[k]]
                        0 <= i < arr1.len() && arr1[i] is Some && 0 <= k < self.intersections@[i].roads@.len() && (i != ci || k < a + 1)
                        implies settled(self, p, et, arr1, vis, queue@, i, self.intersections@[i].roads@[k].0 as int) by {
                        if i == ci && k == a {
                            assert(self.intersections@[i].roads@[k] == r);
                        }
                    }
                }
                a = a + 1;
            }
            proof {
                let e2 = expanded.insert(ci as int);
                assert forall|i: int| #[trigger] e2.contains(i) implies {
                    &&& 0 <= i < self.intersections@.len()
                    &&& i < visited@.len() && visited@[i]
                    &&& forall|k: int| 0 <= k < self.intersections@[i].roads@.len() ==> cost_per_road@.contains_key(
                        (#[trigger] self.intersections@[i].roads@[k]).0,
                    )
                } by {
                    if i != ci {
                        assert(expanded.contains(i));
                        assert forall|k: int| 0 <= k < self.intersections@[i].roads@.len() implies cost_per_road@.contains_key(
                            (#[trigger] self.intersections@[i].roads@[k]).0) by {
                            assert(map0.contains_key(self.intersections@[i].roads@[k].0));
                        }
                    }
                }
                if start_time <= end_time {
                    assert forall|k: int| 0 <= k < starts@.len() && (#[trigger] starts@[k]).0 != -1 implies e2.contains(starts@[k].0 as int) || (
                        !visited@[starts@[k].0 as int] && exists|q: int| 0 <= q < queue@.len() && queue@[q] == (PriorityQueueItem {
                            cost: start_time as u64,
                            value: starts@[k].0,
                        })) by {
                        if starts@[k].0 != ci && !expanded.contains(starts@[k].0 as int) {
                            let q = choose|q: int| 0 <= q < queue0.len() && queue0[q] == (PriorityQueueItem { cost: start_time as u64, value: starts@[k].0 });
                            assert(queue@[q] == queue0[q]);
                        }
                    }
                }
                expanded = e2;
                assert forall|i: int, k: int|
                    #![trigger self.intersections@[i].roads@[k]]
                    0 <= i < arr1.len() && arr1[i] is Some && 0 <= k < self.intersections@[i].roads@.len() && (i != -1 || k < 0)
                    implies settled(self, p, et, arr1, vis, queue@, i, self.intersections@[i].roads@[k].0 as int) by {
                    if i == ci {
                        assert(k < roads@.len());
                    }
                }
            }
        }
        proof {
            if start_time <= end_time {
                assert forall|k: int, a: int|
                    0 <= k < starts@.len() && 0 <= a < self.intersections@[starts@[k].0 as int].roads@.len()
                    implies cost_per_road@.contains_key((#[trigger] self.intersections@[starts@[k].0 as int].roads@[a]).0) by {
                    assert(starts@[k].0 != -1);
                    assert(expanded.contains(starts@[k].0 as int));
                }
            }
        }
        proof {
            assert forall|i: int, k: int|
                #![trigger self.intersections@[i].roads@[k]]
                0 <= i < arrivals@.len() && arrivals@[i] is Some && 0 <= k < self.intersections@[i].roads@.len() implies match road_target(
                    self, p, i, self.intersections@[i].roads@[k].0 as int) {
                    Some(j) => arrivals@[j] is Some ==> arrivals@[j]->0 <= arrivals@[i]->0 + self.roads@[self.intersections@[i].roads@[k].0 as int].cost@[p],
                    None => true,
                } by {
                assert(settled(self, p, et, arrivals@, visited@, queue@, i, self.intersections@[i].roads@[k].0 as int));
            }
        }
        proof {
            if start_time <= end_time {
                assert forall|k: int| 0 <= k < starts@.len() implies (#[trigger] arrivals@[starts@[k].0 as int]) is Some
                    && arrivals@[starts@[k].0 as int]->0 <= start_time by {
                    assert(starts@[k].0 != -1);
                    assert(expanded.contains(starts@[k].0 as int));
                }
                assert(queue@ =~= Seq::<PriorityQueueItem<u64, usize>>::empty());
                assert forall|nodes: Seq<int>, ks: Seq<int>|
                    (exists|k: int| 0 <= k < starts@.len() && (#[trigger] starts@[k]).0 == nodes[0]) && #[trigger] foot_walk(self, p, nodes, ks)
                    && start_time + walk_cost(self, p, nodes, ks, ks.len() as int) <= end_time
                    implies arrivals@[nodes.last()] is Some && arrivals@[nodes.last()]->0 <= start_time + walk_cost(self, p, nodes, ks, ks.len() as int)
                    && forall|a: int| 0 <= a < self.intersections@[nodes.last()].roads@.len()
                        ==> cost_per_road@.contains_key((#[trigger] self.intersections@[nodes.last()].roads@[a]).0)
                        && cost_per_road@[self.intersections@[nodes.last()].roads@[a].0] <= walk_cost(self, p, nodes, ks, ks.len() as int)
                            + self.roads@[self.intersections@[nodes.last()].roads@[a].0 as int].cost@[p] by {
                    let k = choose|k: int| 0 <= k < starts@.len() && (#[trigger] starts@[k]).0 == nodes[0];
                    assert(arrivals@[starts@[k].0 as int] is Some);
                    lemma_walk_costs_nonneg(self, p, nodes, ks, ks.len() as int);
                    lemma_walk_reached(self, p, et, arrivals@, visited@, nodes, ks, start_time as int, ks.len() as int);
                    let last = nodes.last();
                    assert(nodes[ks.len() as int] == last);
                    if ks.len() > 0 {
                        assert(0 <= #[trigger] ks[ks.len() - 1] < self.intersections@[nodes[ks.len() - 1]].roads@.len());
                    }
                    assert(0 <= last < ni) by {
                        if ks.len() > 0 {
                            let rr = self.intersections@[nodes[ks.len() - 1]].roads@[ks[ks.len() - 1]].0 as int;
                            assert(crate::graph::intersection_wf(&self.intersections@[nodes[ks.len() - 1]], nodes[ks.len() - 1], self.roads@));
                            assert(crate::graph::road_wf(&self.roads@[rr], rr, self.intersections@.len(), self.num_profiles(), self.gtfs.stops@.len()));
                        }
                    }
                    assert(expanded.contains(last));
                    assert forall|a: int| 0 <= a < self.intersections@[last].roads@.len() implies
                        cost_per_road@.contains_key((#[trigger] self.intersections@[last].roads@[a]).0)
                        && cost_per_road@[self.intersections@[last].roads@[a].0] <= walk_cost(self, p, nodes, ks, ks.len() as int)
                            + self.roads@[self.intersections@[last].roads@[a].0 as int].cost@[p] by {
                        assert(crate::graph::intersection_wf(&self.intersections@[last], last, self.roads@));
                        assert(cost_per_road@.contains_key(self.intersections@[last].roads@[a].0));
                    }
                }
            }
        }
        (cost_per_road, arrivals)
    }
}

/// Each departure that `trips_from` returns is one of the stop's, within the
/// window.
pub proof fn lemma_departures_from(s: Seq<crate::gtfs::NextStep>, lo: int, hi: int)
    ensures
        forall|d: int| 0 <= d < crate::gtfs::departures_within(s, lo, hi).len() ==> exists|kk: int|
            0 <= kk < s.len() && #[trigger] crate::gtfs::departures_within(s, lo, hi)[d] == s[kk]
            && lo <= crate::gtfs::departures_within(s, lo, hi)[d].time1 <= hi,
    decreases s.len(),
{
    if s.len() > 0 {
        lemma_departures_from(s.drop_last(), lo, hi);
        let rest = crate::gtfs::departures_within(s.drop_last(), lo, hi);
        assert forall|d: int| 0 <= d < rest.len() implies exists|kk: int|
            0 <= kk < s.len() && #[trigger] rest[d] == s[kk] && lo <= rest[d].time1 <= hi by {
            let kk = choose|kk: int| 0 <= kk < s.drop_last().len() && rest[d] == s.drop_last()[kk]
                && lo <= rest[d].time1 <= hi;
            assert(s[kk] == s.drop_last()[kk]);
        }
        if lo <= s.last().time1 <= hi {
            assert(s.last() == s[s.len() - 1]);
        }
    }
}

} // verus!
