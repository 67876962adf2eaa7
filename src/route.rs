//! Point-to-point routing over a contraction hierarchy, one per profile.
use vstd::prelude::*;
use fast_paths::FastGraph;
use crate::ch::{self, keeps_lightest, ch_order, ch_input_edges, ch_node_count, edge_walk, edges_bounded, input_frozen, input_node_count, is_least, reachable, walk_nodes, walk_weight};
use crate::isochrone::road_target;
use crate::graph::{Graph, Road};
use crate::ids::{GraphError, IntersectionID, PathStep, Position, ProfileID, RoadID, FRACTION_HALF, FRACTION_ONE};

verus! {

/// Answers routing queries for one profile with a contraction hierarchy.
/// Node `k` of the hierarchy is intersection `k`.
pub struct Router {
    ch: FastGraph,
    num_nodes: usize,
    profile: ProfileID,
    /// The directed, weighted edges that the hierarchy was prepared from.
    edges: Ghost<Seq<(usize, usize, usize)>>,
}

/// A route between two positions.
pub struct Route {
    pub start: Position,
    pub end: Position,
    pub steps: Vec<PathStep>,
}

/// Every road has an access and a cost for `profile`.
pub open spec fn roads_have_profile(roads: Seq<Road>, profile: ProfileID) -> bool {
    &&& roads.len() <= 0x7fff_ffff
    &&& forall|r: int| 0 <= r < roads.len() ==> {
        &&& profile.0 < (#[trigger] roads[r]).access@.len()
        &&& profile.0 < roads[r].cost@.len()
        &&& roads[r].src_i.0 < usize::MAX
        &&& roads[r].dst_i.0 < usize::MAX
    }
}

/// The directed, weighted edges that road `r` gives the hierarchy of a
/// profile: none for a loop, else one along each allowed direction.
pub open spec fn road_edges(road: Road, p: int) -> Seq<(usize, usize, usize)> {
    let w = road.cost@[p] as usize;
    let a = road.src_i.0;
    let b = road.dst_i.0;
    if a == b {
        Seq::empty()
    } else {
        (if road.access@[p].spec_forwards() { seq![(a, b, w)] } else { Seq::empty() })
            + (if road.access@[p].spec_backwards() { seq![(b, a, w)] } else { Seq::empty() })
    }
}

/// The edges that the first `n` roads give the hierarchy of profile `p`.
pub open spec fn profile_edges_upto(roads: Seq<Road>, p: int, n: int) -> Seq<(usize, usize, usize)>
    decreases n,
{
    if n <= 0 {
        Seq::empty()
    } else {
        profile_edges_upto(roads, p, n - 1) + road_edges(roads[n - 1], p)
    }
}

pub open spec fn spec_profile_edges(roads: Seq<Road>, p: int) -> Seq<(usize, usize, usize)> {
    profile_edges_upto(roads, p, roads.len() as int)
}

/// The node count that `fast_paths` derives from a list of edges: one more
/// than the largest end of an edge that is neither a loop nor weightless.
pub open spec fn edges_node_count(edges: Seq<(usize, usize, usize)>) -> nat
    decreases edges.len(),
{
    if edges.len() == 0 {
        0
    } else {
        let e = edges.last();
        let rest = edges_node_count(edges.drop_last());
        if e.0 != e.1 && e.2 >= 1 {
            vstd::math::max(rest as int, vstd::math::max(e.0 as int, e.1 as int) + 1) as nat
        } else {
            rest
        }
    }
}

/// The hierarchy of a profile holds a road's edge from its source to its
/// destination exactly when the profile may cross it forwards and it is no
/// loop (and from its destination to its source exactly when it may cross
/// it backwards and it is no loop); every edge that it holds comes from some
/// road in this way.
pub proof fn lemma_router_edges(roads: Seq<Road>, p: int, r: int)
    requires
        0 <= r < roads.len(),
        forall|q: int| 0 <= q < roads.len() ==> p < (#[trigger] roads[q]).access@.len() && p < roads[q].cost@.len(),
    ensures
        road_edges(roads[r], p).contains((roads[r].src_i.0, roads[r].dst_i.0, roads[r].cost@[p] as usize))
            <==> (roads[r].access@[p].spec_forwards() && roads[r].src_i != roads[r].dst_i),
        road_edges(roads[r], p).contains((roads[r].dst_i.0, roads[r].src_i.0, roads[r].cost@[p] as usize))
            <==> (roads[r].access@[p].spec_backwards() && roads[r].src_i != roads[r].dst_i),
        forall|e: (usize, usize, usize)| road_edges(roads[r], p).contains(e) ==> spec_profile_edges(roads, p).contains(e),
        forall|e: (usize, usize, usize)| #[trigger] spec_profile_edges(roads, p).contains(e) ==> exists|q: int|
            0 <= q < roads.len() && (#[trigger] road_edges(roads[q], p)).contains(e),
{
    let road = roads[r];
    let w = road.cost@[p] as usize;
    let a = road.src_i.0;
    let b = road.dst_i.0;
    let f = if road.access@[p].spec_forwards() { seq![(a, b, w)] } else { Seq::<(usize, usize, usize)>::empty() };
    let g = if road.access@[p].spec_backwards() { seq![(b, a, w)] } else { Seq::<(usize, usize, usize)>::empty() };
    if a != b {
        assert(road_edges(road, p) == f + g);
        if road.access@[p].spec_forwards() {
            assert((f + g)[0] == (a, b, w));
        } else {
            assert(f + g == g);
        }
        if road.access@[p].spec_backwards() {
            assert((f + g)[f.len() as int] == (b, a, w));
        } else {
            assert(f + g == f);
        }
    }
    lemma_edges_upto(roads, p, roads.len() as int, r);
}

proof fn lemma_edges_upto(roads: Seq<Road>, p: int, n: int, r: int)
    requires
        0 <= n <= roads.len(),
    ensures
        0 <= r < n ==> forall|e: (usize, usize, usize)| #[trigger] road_edges(roads[r], p).contains(e) ==> profile_edges_upto(roads, p, n).contains(e),
        forall|e: (usize, usize, usize)| #[trigger] profile_edges_upto(roads, p, n).contains(e) ==> exists|q: int|
            0 <= q < n && (#[trigger] road_edges(roads[q], p)).contains(e),
    decreases n,
{
    if n > 0 {
        lemma_edges_upto(roads, p, n - 1, r);
        let prev = profile_edges_upto(roads, p, n - 1);
        let last = road_edges(roads[n - 1], p);
        assert forall|e: (usize, usize, usize)| road_edges(roads[r], p).contains(e) && 0 <= r < n implies profile_edges_upto(roads, p, n).contains(e) by {
            if r == n - 1 {
                let k = choose|k: int| 0 <= k < last.len() && last[k] == e;
                assert((prev + last)[prev.len() + k] == e);
            } else {
                assert(road_edges(roads[r], p).contains(e));
                assert(prev.contains(e));
                let k = choose|k: int| 0 <= k < prev.len() && prev[k] == e;
                assert((prev + last)[k] == e);
            }
        }
        assert forall|e: (usize, usize, usize)| #[trigger] profile_edges_upto(roads, p, n).contains(e) implies exists|q: int|
            0 <= q < n && (#[trigger] road_edges(roads[q], p)).contains(e) by {
            let k = choose|k: int| 0 <= k < (prev + last).len() && (prev + last)[k] == e;
            if k < prev.len() {
                assert(prev[k] == e);
                assert(prev.contains(e));
            } else {
                assert(last[k - prev.len()] == e);
                assert(last.contains(e));
            }
        }
    }
}

/// Lists the edges of the hierarchy of `profile`, road by road.
pub fn profile_edges(roads: &Vec<Road>, profile: ProfileID) -> (r: Vec<(usize, usize, usize)>)
    requires
        roads_have_profile(roads@, profile),
    ensures
        r@ == spec_profile_edges(roads@, profile.0 as int),
{
    let mut edges: Vec<(usize, usize, usize)> = Vec::new();
    let mut k: usize = 0;
    while k < roads.len()
        invariant
            k <= roads@.len(),
            roads_have_profile(roads@, profile),
            edges@ == profile_edges_upto(roads@, profile.0 as int, k as int),
        decreases roads@.len() - k,
    {
        let road = &roads[k];
        let cost = road.cost[profile.0] as usize;
        let a = road.src_i.0;
        let b = road.dst_i.0;
        let ghost before = edges@;
        if a != b {
            if road.allows_forwards(profile) {
                edges.push((a, b, cost));
            }
            let ghost mid = edges@;
            if road.allows_backwards(profile) {
                edges.push((b, a, cost));
            }
            assert(edges@ =~= before + road_edges(roads@[k as int], profile.0 as int));
        } else {
            assert(edges@ =~= before + road_edges(roads@[k as int], profile.0 as int));
        }
        k = k + 1;
    }
    edges
}

/// The edges of a list that `fast_paths` keeps: neither loops nor
/// weightless ones.
pub open spec fn kept_edges(edges: Seq<(usize, usize, usize)>) -> Seq<(usize, usize, usize)>
    decreases edges.len(),
{
    if edges.len() == 0 {
        edges
    } else {
        let e = edges.last();
        let rest = kept_edges(edges.drop_last());
        if e.0 != e.1 && e.2 >= 1 {
            rest.push(e)
        } else {
            rest
        }
    }
}

/// Kept edges come from the list, and their ends are below its node count.
proof fn lemma_kept_edges(edges: Seq<(usize, usize, usize)>)
    ensures
        kept_edges(edges).len() <= edges.len(),
        forall|k: int| 0 <= k < kept_edges(edges).len() ==> {
            let e = #[trigger] kept_edges(edges)[k];
            &&& edges.contains(e)
            &&& e.0 < edges_node_count(edges)
            &&& e.1 < edges_node_count(edges)
        },
    decreases edges.len(),
{
    if edges.len() > 0 {
        lemma_kept_edges(edges.drop_last());
        let rest = kept_edges(edges.drop_last());
        let cur = kept_edges(edges);
        assert forall|k: int| 0 <= k < cur.len() implies {
            let e = #[trigger] cur[k];
            &&& edges.contains(e)
            &&& e.0 < edges_node_count(edges)
            &&& e.1 < edges_node_count(edges)
        } by {
            if k < rest.len() {
                assert(cur[k] == rest[k]);
                let j = choose|j: int| 0 <= j < edges.drop_last().len() && edges.drop_last()[j] == rest[k];
                assert(edges[j] == rest[k]);
            } else {
                assert(cur[k] == edges.last());
                assert(edges[edges.len() - 1] == edges.last());
            }
        }
    }
}

/// Edge `e` is one that `road` gives the hierarchy of profile `p`.
pub open spec fn edge_of_road(e: (usize, usize, usize), road: Road, p: int) -> bool {
    &&& e.2 == road.cost@[p] as usize
    &&& e.0 != e.1
    &&& ((e.0 == road.src_i.0 && e.1 == road.dst_i.0 && road.access@[p].spec_forwards())
        || (e.0 == road.dst_i.0 && e.1 == road.src_i.0 && road.access@[p].spec_backwards()))
}

/// The edges of the first `n` roads are at most two per road.
proof fn lemma_profile_edges_len(roads: Seq<Road>, p: int, n: int)
    requires
        0 <= n <= roads.len(),
    ensures
        profile_edges_upto(roads, p, n).len() <= 2 * n,
    decreases n,
{
    if n > 0 {
        lemma_profile_edges_len(roads, p, n - 1);
    }
}

/// Roads that agree on ends, access and cost give a profile the same edges.
pub proof fn lemma_profile_edges_same(r1: Seq<Road>, r2: Seq<Road>, p: int, n: int)
    requires
        r1.len() == r2.len(),
        0 <= n <= r1.len(),
        forall|q: int| 0 <= q < r1.len() ==> {
            &&& (#[trigger] r1[q]).src_i == r2[q].src_i
            &&& r1[q].dst_i == r2[q].dst_i
            &&& r1[q].access@ == r2[q].access@
            &&& r1[q].cost@ == r2[q].cost@
        },
    ensures
        profile_edges_upto(r1, p, n) == profile_edges_upto(r2, p, n),
        n == r1.len() ==> spec_profile_edges(r1, p) == spec_profile_edges(r2, p),
    decreases n,
{
    if n > 0 {
        lemma_profile_edges_same(r1, r2, p, n - 1);
        assert(road_edges(r1[n - 1], p) == road_edges(r2[n - 1], p));
    }
}

/// An edge that a road gives is one of its allowed directions.
proof fn lemma_road_edge(road: Road, p: int, e: (usize, usize, usize))
    requires
        road_edges(road, p).contains(e),
    ensures
        edge_of_road(e, road, p),
{
    let w = road.cost@[p] as usize;
    let f = if road.access@[p].spec_forwards() { seq![(road.src_i.0, road.dst_i.0, w)] } else { Seq::<(usize, usize, usize)>::empty() };
    let g = if road.access@[p].spec_backwards() { seq![(road.dst_i.0, road.src_i.0, w)] } else { Seq::<(usize, usize, usize)>::empty() };
    let k = choose|k: int| 0 <= k < road_edges(road, p).len() && road_edges(road, p)[k] == e;
    assert(road.src_i.0 != road.dst_i.0);
    assert(road_edges(road, p) == f + g);
    if k < f.len() {
        assert((f + g)[k] == f[k]);
    } else {
        assert((f + g)[k] == g[k - f.len()]);
    }
}

/// Every edge of a profile comes from some road.
proof fn lemma_edge_from_road(roads: Seq<Road>, p: int, e: (usize, usize, usize))
    requires
        spec_profile_edges(roads, p).contains(e),
    ensures
        exists|q: int| 0 <= q < roads.len() && #[trigger] edge_of_road(e, roads[q], p),
{
    lemma_edges_upto(roads, p, roads.len() as int, 0);
    let q = choose|q: int| 0 <= q < roads.len() && (#[trigger] road_edges(roads[q], p)).contains(e);
    lemma_road_edge(roads[q], p, e);
}

/// Feeds a list of edges into a new, frozen input graph.
fn build_input_graph(edges: &Vec<(usize, usize, usize)>) -> (r: fast_paths::InputGraph)
    requires
        forall|k: int| 0 <= k < edges@.len() ==> (#[trigger] edges@[k]).0 < usize::MAX && edges@[k].1 < usize::MAX,
    ensures
        input_frozen(r),
        input_node_count(r) == edges_node_count(edges@),
        keeps_lightest(ch::input_edges_of(r), kept_edges(edges@)),
{
    let mut g = ch::new_input_graph();
    let mut k: usize = 0;
    while k < edges.len()
        invariant
            k <= edges@.len(),
            forall|j: int| 0 <= j < edges@.len() ==> (#[trigger] edges@[j]).0 < usize::MAX && edges@[j].1 < usize::MAX,
            !input_frozen(g),
            input_node_count(g) == edges_node_count(edges@.take(k as int)),
            ch::input_edges_of(g) == kept_edges(edges@.take(k as int)),
        decreases edges@.len() - k,
    {
        let (a, b, w) = edges[k];
        ch::add_edge(&mut g, a, b, w);
        assert(edges@.take(k + 1).drop_last() =~= edges@.take(k as int));
        k = k + 1;
    }
    assert(edges@.take(edges@.len() as int) =~= edges@);
    ch::freeze(&mut g);
    g
}

/// A position lies on an existing road and names one of its ends.
pub open spec fn position_wf(g: &Graph, pos: Position) -> bool {
    &&& pos.road.0 < g.roads@.len()
    &&& pos.intersection.0 < g.intersections@.len()
    &&& pos.fraction_along <= FRACTION_ONE
}

pub open spec fn road_step(road: RoadID, forwards: bool) -> PathStep {
    PathStep::Road { road: road, forwards: forwards }
}

/// The route between two positions on the same road, or meeting at one
/// intersection, which needs no search; `None` where a search is needed.
pub open spec fn direct_steps(g: &Graph, start: Position, end: Position) -> Option<Seq<PathStep>> {
    if start.road == end.road {
        Some(seq![road_step(start.road, start.fraction_along < end.fraction_along)])
    } else if start.intersection == end.intersection {
        let common = start.intersection;
        Some(
            seq![
                road_step(start.road, g.roads@[start.road.0 as int].dst_i == common),
                road_step(end.road, g.roads@[end.road.0 as int].src_i == common),
            ],
        )
    } else {
        None
    }
}

/// Among the first `k` roads of `rs`, the cheapest that profile `p` may take
/// from `i1` to `i2`; the first one on ties.
pub open spec fn best_road(g: &Graph, p: int, i1: int, i2: int, rs: Seq<RoadID>, k: int) -> Option<RoadID>
    decreases k,
{
    if k <= 0 {
        None
    } else {
        let prev = best_road(g, p, i1, i2, rs, k - 1);
        let r = rs[k - 1];
        if 0 <= r.0 < g.roads@.len() && road_target(g, p, i1, r.0 as int) == Some(i2) {
            match prev {
                None => Some(r),
                Some(b) => if g.roads@[r.0 as int].cost@[p] < g.roads@[b.0 as int].cost@[p] {
                    Some(r)
                } else {
                    prev
                },
            }
        } else {
            prev
        }
    }
}

/// The cheapest road at `i1` that profile `p` may take to `i2`.
pub open spec fn spec_find_road(g: &Graph, p: int, i1: int, i2: int) -> Option<RoadID> {
    let rs = g.intersections@[i1].roads@;
    best_road(g, p, i1, i2, rs, rs.len() as int)
}

proof fn lemma_best_road(g: &Graph, p: int, i1: int, i2: int, rs: Seq<RoadID>, k: int)
    requires
        0 <= k <= rs.len(),
    ensures
        best_road(g, p, i1, i2, rs, k) matches Some(b) ==> {
            &&& 0 <= b.0 < g.roads@.len()
            &&& road_target(g, p, i1, b.0 as int) == Some(i2)
        },
        (exists|j: int| 0 <= j < k && 0 <= (#[trigger] rs[j]).0 < g.roads@.len() && road_target(g, p, i1, rs[j].0 as int) == Some(i2))
            ==> best_road(g, p, i1, i2, rs, k) is Some,
    decreases k,
{
    if k > 0 {
        lemma_best_road(g, p, i1, i2, rs, k - 1);
    }
}

/// The steps that take the node path `nodes` on the cheapest road between
/// each pair of consecutive nodes, for its first `m` pairs; `None` where a
/// node is no intersection or no road leads on.
pub open spec fn walk_steps_upto(g: &Graph, p: int, nodes: Seq<usize>, m: int) -> Option<Seq<PathStep>>
    decreases m,
{
    if m <= 0 {
        Some(Seq::empty())
    } else {
        match walk_steps_upto(g, p, nodes, m - 1) {
            None => None,
            Some(s) => if nodes[m - 1] >= g.intersections@.len() {
                None
            } else {
                match spec_find_road(g, p, nodes[m - 1] as int, nodes[m] as int) {
                    None => None,
                    Some(r) => Some(s.push(road_step(r, g.roads@[r.0 as int].src_i.0 == nodes[m - 1]))),
                }
            },
        }
    }
}

pub open spec fn walk_steps(g: &Graph, p: int, nodes: Seq<usize>) -> Option<Seq<PathStep>> {
    walk_steps_upto(g, p, nodes, nodes.len() - 1)
}

/// A route between positions along `mid`: its first road is preceded by
/// the start's road, and its last followed by the end's road, where those
/// differ.
pub open spec fn with_ends(start: Position, end: Position, mid: Seq<PathStep>) -> Seq<PathStep> {
    let pre = if step_road(mid[0]) != start.road {
        seq![road_step(start.road, start.fraction_along > FRACTION_HALF)]
    } else {
        Seq::empty()
    };
    let post = if step_road(mid.last()) != end.road {
        seq![road_step(end.road, end.fraction_along <= FRACTION_HALF)]
    } else {
        Seq::empty()
    };
    pre + mid + post
}

/// `steps` takes, road by road, a least-weight walk along `edges` from `s`
/// to `t`.
pub open spec fn least_walk_steps(g: &Graph, p: int, edges: Seq<(usize, usize, usize)>, s: usize, t: usize, steps: Seq<PathStep>) -> bool {
    exists|idx: Seq<int>| {
        &&& edge_walk(edges, s as int, t as int, idx)
        &&& is_least(edges, s as int, t as int, walk_weight(edges, idx))
        &&& walk_steps(g, p, walk_nodes(edges, s, idx)) == Some(steps)
    }
}

proof fn lemma_walk_steps_none(g: &Graph, p: int, nodes: Seq<usize>, m: int, j: int)
    requires
        m <= j,
        walk_steps_upto(g, p, nodes, m) is None,
    ensures
        walk_steps_upto(g, p, nodes, j) is None,
    decreases j - m,
{
    if j > m {
        lemma_walk_steps_none(g, p, nodes, m, j - 1);
    }
}

/// Steps along a node path are one road each, and each road leads from a
/// node to the next in a direction the profile may take.
pub proof fn lemma_walk_steps_follow(g: &Graph, p: int, nodes: Seq<usize>, m: int)
    requires
        0 <= m < nodes.len(),
    ensures
        walk_steps_upto(g, p, nodes, m) matches Some(s) ==> {
            &&& s.len() == m
            &&& forall|k: int| 0 <= k < m ==> (#[trigger] s[k]) is Road && 0 <= step_road(s[k]).0 < g.roads@.len()
                && road_target(g, p, nodes[k] as int, step_road(s[k]).0 as int) == Some(nodes[k + 1] as int)
        },
    decreases m,
{
    if m > 0 {
        lemma_walk_steps_follow(g, p, nodes, m - 1);
        if nodes[m - 1] < g.intersections@.len() {
            let rs = g.intersections@[nodes[m - 1] as int].roads@;
            lemma_best_road(g, p, nodes[m - 1] as int, nodes[m] as int, rs, rs.len() as int);
        }
    }
}

/// Along a walk of a router's edges in a well-formed graph, every pair of
/// consecutive nodes has a road.
proof fn lemma_walk_steps_some(g: &Graph, p: int, edges: Seq<(usize, usize, usize)>, s: usize, idx: Seq<int>, m: int)
    requires
        g.wf(),
        0 <= p < g.num_profiles(),
        keeps_lightest(edges, kept_edges(spec_profile_edges(g.roads@, p))),
        edge_walk(edges, s as int, edges[idx.last()].1 as int, idx),
        0 <= m <= idx.len(),
    ensures
        walk_steps_upto(g, p, walk_nodes(edges, s, idx), m) is Some,
    decreases m,
{
    if m > 0 {
        lemma_walk_steps_some(g, p, edges, s, idx, m - 1);
        let nodes = walk_nodes(edges, s, idx);
        let e = edges[idx[m - 1]];
        assert(nodes[m] == e.1);
        if m - 1 == 0 {
            assert(nodes[0] == s);
        } else {
            assert(nodes[m - 1] == edges[idx[m - 2]].1);
            assert(edges[idx[m - 2]].1 == edges[idx[(m - 2) + 1]].0);
        }
        assert(nodes[m - 1] == e.0);
        lemma_kept_edges(spec_profile_edges(g.roads@, p));
        let pe = spec_profile_edges(g.roads@, p);
        assert(kept_edges(pe).contains(e));
        let ki = choose|ki: int| 0 <= ki < kept_edges(pe).len() && kept_edges(pe)[ki] == e;
        assert(pe.contains(kept_edges(pe)[ki]));
        assert(pe.contains(e));
        lemma_edge_from_road(g.roads@, p, e);
        let q = choose|q: int| 0 <= q < g.roads@.len() && #[trigger] edge_of_road(e, g.roads@[q], p);
        assert(road_target(g, p, e.0 as int, q) == Some(e.1 as int));
        assert(crate::graph::road_wf(&g.roads@[q], q, g.intersections@.len(), g.num_profiles(), g.gtfs.stops@.len()));
        assert(g.roads_listed());
        let rs = g.intersections@[e.0 as int].roads@;
        assert(crate::graph::listed_at(g.intersections@, g.roads@[q].src_i.0 as int, q));
        assert(crate::graph::listed_at(g.intersections@, g.roads@[q].dst_i.0 as int, q));
        assert(crate::graph::listed_at(g.intersections@, e.0 as int, q));
        let j = choose|j: int| 0 <= j < rs.len() && #[trigger] rs[j] == RoadID(q as usize);
        assert(rs[j] == RoadID(q as usize));
        lemma_best_road(g, p, e.0 as int, e.1 as int, rs, rs.len() as int);
    }
}

/// The position at an end `i` of `road`: fraction `0` at its source, else
/// `FRACTION_ONE`.
pub open spec fn end_position(g: &Graph, road: RoadID, i: IntersectionID) -> Position {
    Position {
        intersection: i,
        road: road,
        fraction_along: if g.roads@[road.0 as int].src_i == i { 0 } else { FRACTION_ONE },
    }
}

pub open spec fn step_road(step: PathStep) -> RoadID {
    match step {
        PathStep::Road { road, .. } => road,
        PathStep::Transit { .. } => RoadID(0),
    }
}

/// Splits a sequence of keys (one per step of a route) into maximal runs of
/// equal keys, as `[from, to)` index ranges in order: one polyline is drawn
/// per run.
pub fn split_runs(keys: &Vec<u64>) -> (r: Vec<(usize, usize)>)
    ensures
        keys@.len() == 0 ==> r@.len() == 0,
        keys@.len() > 0 ==> {
            &&& r@.len() > 0
            &&& r@[0].0 == 0
            &&& r@.last().1 == keys@.len()
        },
        forall|k: int| 0 <= k < r@.len() ==> (#[trigger] r@[k]).0 < r@[k].1,
        forall|k: int| 0 < k < r@.len() ==> (#[trigger] r@[k]).0 == r@[k - 1].1,
        forall|k: int| 0 < k < r@.len() ==> keys@[r@[k].0 - 1] != #[trigger] keys@[r@[k].0 as int],
        forall|k: int, j: int| #![trigger r@[k], keys@[j]] 0 <= k < r@.len() && r@[k].0 < j < r@[k].1 ==> keys@[j - 1] == keys@[j],
{
    let mut out: Vec<(usize, usize)> = Vec::new();
    let n = keys.len();
    if n == 0 {
        return out;
    }
    let mut begin: usize = 0;
    let mut k: usize = 1;
    while k < n
        invariant
            n == keys@.len(),
            0 <= begin < k <= n,
            out@.len() == 0 ==> begin == 0,
            out@.len() > 0 ==> out@[0].0 == 0 && out@.last().1 == begin,
            forall|q: int| 0 <= q < out@.len() ==> (#[trigger] out@[q]).0 < out@[q].1,
            forall|q: int| 0 < q < out@.len() ==> (#[trigger] out@[q]).0 == out@[q - 1].1,
            forall|q: int| 0 < q < out@.len() ==> keys@[out@[q].0 - 1] != #[trigger] keys@[out@[q].0 as int],
            out@.len() > 0 ==> keys@[begin - 1] != keys@[begin as int],
            forall|q: int, j: int| #![trigger out@[q], keys@[j]] 0 <= q < out@.len() && out@[q].0 < j < out@[q].1 ==> keys@[j - 1] == keys@[j],
            forall|j: int| begin < j < k ==> keys@[j - 1] == #[trigger] keys@[j],
        decreases n - k,
    {
        if keys[k - 1] != keys[k] {
            out.push((begin, k));
            begin = k;
        }
        k = k + 1;
    }
    out.push((begin, n));
    out
}

/// Where a step of a route sits in it.
#[derive(Clone, Copy, Debug, PartialEq, Eq, Structural)]
pub enum StepPosition {
    First,
    Middle,
    Last,
    Only,
}

pub open spec fn step_position(k: int, n: int) -> StepPosition {
    if n == 1 {
        StepPosition::Only
    } else if k == 0 {
        StepPosition::First
    } else if k == n - 1 {
        StepPosition::Last
    } else {
        StepPosition::Middle
    }
}

/// The part of a road that a step of a route covers, as fractions `(a, b)`
/// with `a <= b` from the road's source: the first step runs from the start
/// to the road's far end, the last from the near end to the end, a single
/// step between the two, and any other step the whole road.
pub open spec fn spec_slice(pos: StepPosition, forwards: bool, start: Position, end: Position) -> (u32, u32) {
    match pos {
        StepPosition::First => if forwards {
            (start.fraction_along, FRACTION_ONE)
        } else {
            (0, start.fraction_along)
        },
        StepPosition::Last => if forwards {
            (0, end.fraction_along)
        } else {
            (end.fraction_along, FRACTION_ONE)
        },
        StepPosition::Middle => (0, FRACTION_ONE),
        StepPosition::Only => (start.fraction_along, end.fraction_along),
    }
}

/// One piece of a route's geometry: a part of a road, and whether it is
/// walked from its source towards its destination.
#[derive(Clone, Copy, Debug, PartialEq, Eq, Structural)]
pub struct RoadSlice {
    pub road: RoadID,
    pub from: u32,
    pub to: u32,
    pub forwards: bool,
}

/// The slice that road step `k` of `steps` covers.
pub open spec fn slice_of(steps: Seq<PathStep>, k: int, start: Position, end: Position) -> RoadSlice {
    let (a, b) = spec_slice(step_position(k, steps.len() as int), steps[k]->forwards, start, end);
    RoadSlice { road: step_road(steps[k]), from: a, to: b, forwards: steps[k]->forwards }
}

impl Route {
    /// Which part of each road the route covers, in order: the geometry is
    /// these parts of the roads' polylines, each reversed where it is walked
    /// backwards.
    pub fn slices(&self) -> (r: Vec<RoadSlice>)
        ensures
            r@.len() <= self.steps@.len(),
            forall|k: int| 0 <= k < self.steps@.len() && (#[trigger] self.steps@[k]) is Road ==> exists|j: int|
                0 <= j < r@.len() && r@[j].road == step_road(self.steps@[k]) && ({
                    let (a, b) = spec_slice(step_position(k, self.steps@.len() as int),
                        self.steps@[k]->forwards, self.start, self.end);
                    r@[j].from == a && r@[j].to == b && r@[j].forwards == self.steps@[k]->forwards
                }),
            (forall|k: int| 0 <= k < self.steps@.len() ==> (#[trigger] self.steps@[k]) is Road) ==> {
                &&& r@.len() == self.steps@.len()
                &&& forall|k: int| 0 <= k < r@.len() ==> #[trigger] r@[k] == slice_of(self.steps@, k, self.start, self.end)
            },
    {
        let mut out: Vec<RoadSlice> = Vec::new();
        let n = self.steps.len();
        let mut k: usize = 0;
        while k < n
            invariant
                n == self.steps@.len(),
                k <= n,
                out@.len() <= k,
                forall|q: int| 0 <= q < k && (#[trigger] self.steps@[q]) is Road ==> exists|j: int|
                    0 <= j < out@.len() && out@[j].road == step_road(self.steps@[q]) && ({
                        let (a, b) = spec_slice(step_position(q, n as int),
                            self.steps@[q]->forwards, self.start, self.end);
                        out@[j].from == a && out@[j].to == b && out@[j].forwards == self.steps@[q]->forwards
                    }),
                (forall|q: int| 0 <= q < k ==> (#[trigger] self.steps@[q]) is Road) ==> {
                    &&& out@.len() == k
                    &&& forall|q: int| 0 <= q < k ==> #[trigger] out@[q] == slice_of(self.steps@, q, self.start, self.end)
                },
            decreases n - k,
        {
            match self.steps[k] {
                PathStep::Road { road, forwards } => {
                    let pos = if n == 1 {
                        StepPosition::Only
                    } else if k == 0 {
                        StepPosition::First
                    } else if k == n - 1 {
                        StepPosition::Last
                    } else {
                        StepPosition::Middle
                    };
                    let (a, b) = match pos {
                        StepPosition::First => if forwards { (self.start.fraction_along, FRACTION_ONE) } else { (0, self.start.fraction_along) },
                        StepPosition::Last => if forwards { (0, self.end.fraction_along) } else { (self.end.fraction_along, FRACTION_ONE) },
                        StepPosition::Middle => (0, FRACTION_ONE),
                        StepPosition::Only => (self.start.fraction_along, self.end.fraction_along),
                    };
                    let ghost old_out = out@;
                    out.push(RoadSlice { road, from: a, to: b, forwards });
                    proof {
                        assert forall|q: int| 0 <= q < k + 1 && (#[trigger] self.steps@[q]) is Road implies exists|j: int|
                            0 <= j < out@.len() && out@[j].road == step_road(self.steps@[q]) && ({
                                let (a, b) = spec_slice(step_position(q, n as int),
                                    self.steps@[q]->forwards, self.start, self.end);
                                out@[j].from == a && out@[j].to == b && out@[j].forwards == self.steps@[q]->forwards
                            }) by {
                            if q == k {
                                assert(out@[old_out.len() as int] == RoadSlice { road, from: a, to: b, forwards });
                                assert(slice_of(self.steps@, q, self.start, self.end) == RoadSlice { road, from: a, to: b, forwards });
                            } else {
                                let j = choose|j: int| 0 <= j < old_out.len() && old_out[j].road == step_road(self.steps@[q]) && ({
                                    let (a, b) = spec_slice(step_position(q, n as int),
                                        self.steps@[q]->forwards, self.start, self.end);
                                    old_out[j].from == a && old_out[j].to == b && old_out[j].forwards == self.steps@[q]->forwards
                                });
                                assert(out@[j] == old_out[j]);
                            }
                        }
                    }
                },
                PathStep::Transit { .. } => {},
            }
            k = k + 1;
        }
        out
    }

    /// The intersections that the route passes, in order, without repeats
    /// next to each other; the start and end positions count by their
    /// closest intersections.
    pub fn intersections(&self, graph: &Graph) -> (r: Vec<IntersectionID>)
        requires
            graph.wf(),
            forall|k: int| 0 <= k < self.steps@.len() ==> (#[trigger] self.steps@[k]) is Road
                ==> step_road(self.steps@[k]).0 < graph.roads@.len(),
        ensures
            r@.len() >= 1,
            r@[0] == self.start.intersection,
            r@.last() == self.end.intersection,
            forall|k: int| 0 <= k < r@.len() - 1 ==> #[trigger] r@[k] != r@[k + 1],
            r@ == push_dedup(step_ends_upto(graph, self.steps@, seq![self.start.intersection], self.steps@.len() as int),
                self.end.intersection),
    {
        let mut result: Vec<IntersectionID> = Vec::new();
        result.push(self.start.intersection);
        let mut k: usize = 0;
        while k < self.steps.len()
            invariant
                k <= self.steps@.len(),
                graph.wf(),
                forall|q: int| 0 <= q < self.steps@.len() ==> (#[trigger] self.steps@[q]) is Road
                    ==> step_road(self.steps@[q]).0 < graph.roads@.len(),
                result@.len() >= 1,
                result@[0] == self.start.intersection,
                forall|q: int| 0 <= q < result@.len() - 1 ==> #[trigger] result@[q] != result@[q + 1],
                result@ == step_ends_upto(graph, self.steps@, seq![self.start.intersection], k as int),
            decreases self.steps@.len() - k,
        {
            match self.steps[k] {
                PathStep::Road { road, forwards } => {
                    let rd = &graph.roads[road.0];
                    let (a, b) = if forwards { (rd.src_i, rd.dst_i) } else { (rd.dst_i, rd.src_i) };
                    push_distinct(&mut result, a);
                    push_distinct(&mut result, b);
                },
                PathStep::Transit { .. } => {},
            }
            k = k + 1;
        }
        push_distinct(&mut result, self.end.intersection);
        result
    }
}

/// `s` with `x` appended, unless `x` is already its last element.
pub open spec fn push_dedup(s: Seq<IntersectionID>, x: IntersectionID) -> Seq<IntersectionID> {
    if s.len() > 0 && s.last() == x {
        s
    } else {
        s.push(x)
    }
}

/// The ends of the first `m` road steps, each in the order walked, folded
/// onto `s` without adjacent repeats.
pub open spec fn step_ends_upto(g: &Graph, steps: Seq<PathStep>, s: Seq<IntersectionID>, m: int) -> Seq<IntersectionID>
    decreases m,
{
    if m <= 0 {
        s
    } else {
        let prev = step_ends_upto(g, steps, s, m - 1);
        match steps[m - 1] {
            PathStep::Road { road, forwards } => {
                let rd = g.roads@[road.0 as int];
                let (a, b) = if forwards { (rd.src_i, rd.dst_i) } else { (rd.dst_i, rd.src_i) };
                push_dedup(push_dedup(prev, a), b)
            },
            PathStep::Transit { .. } => prev,
        }
    }
}

/// Appends `x` unless it equals the last element.
fn push_distinct(v: &mut Vec<IntersectionID>, x: IntersectionID)
    requires
        old(v)@.len() >= 1,
        forall|q: int| 0 <= q < old(v)@.len() - 1 ==> #[trigger] old(v)@[q] != old(v)@[q + 1],
    ensures
        final(v)@.len() >= 1,
        final(v)@[0] == old(v)@[0],
        final(v)@.last() == x,
        forall|q: int| 0 <= q < final(v)@.len() - 1 ==> #[trigger] final(v)@[q] != final(v)@[q + 1],
        final(v)@ == old(v)@ || final(v)@ == old(v)@.push(x),
        final(v)@ == push_dedup(old(v)@, x),
{
    let n = v.len();
    if v[n - 1] != x {
        v.push(x);
    }
}


impl Graph {
    /// The cheapest road at `i1` that `profile` may take to `i2`.
    pub fn find_road(&self, i1: usize, i2: usize, profile: ProfileID) -> (r: Option<RoadID>)
        requires
            self.wf(),
            i1 < self.intersections@.len(),
            profile.0 < self.num_profiles(),
        ensures
            r == spec_find_road(self, profile.0 as int, i1 as int, i2 as int),
    {
        let ghost p = profile.0 as int;
        let rs = &self.intersections[i1].roads;
        let mut best: Option<RoadID> = None;
        let mut k: usize = 0;
        while k < rs.len()
            invariant
                self.wf(),
                i1 < self.intersections@.len(),
                profile.0 < self.num_profiles(),
                p == profile.0,
                rs@ == self.intersections@[i1 as int].roads@,
                k <= rs@.len(),
                best == best_road(self, p, i1 as int, i2 as int, rs@, k as int),
                best matches Some(b) ==> b.0 < self.roads@.len(),
            decreases rs@.len() - k,
        {
            let r = rs[k];
            if r.0 < self.roads.len() {
                let road = &self.roads[r.0];
                assert(crate::graph::road_wf(&self.roads@[r.0 as int], r.0 as int, self.intersections@.len(), self.num_profiles(), self.gtfs.stops@.len()));
                let leads = if road.src_i.0 == i1 && road.allows_forwards(profile) {
                    road.dst_i.0 == i2
                } else if road.dst_i.0 == i1 && road.allows_backwards(profile) {
                    road.src_i.0 == i2
                } else {
                    false
                };
                if leads {
                    match best {
                        None => { best = Some(r); },
                        Some(b) => {
                            assert(crate::graph::road_wf(&self.roads@[b.0 as int], b.0 as int, self.intersections@.len(), self.num_profiles(), self.gtfs.stops@.len()));
                            if road.cost[profile.0] < self.roads[b.0].cost[profile.0] {
                                best = Some(r);
                            }
                        },
                    }
                }
            }
            k = k + 1;
        }
        best
    }
}

/// Takes a node path on the cheapest road between each pair of
/// consecutive nodes.
fn walk_to_steps(graph: &Graph, profile: ProfileID, nodes: &Vec<usize>) -> (r: Result<Vec<PathStep>, GraphError>)
    requires
        graph.wf(),
        profile.0 < graph.num_profiles(),
        nodes@.len() >= 1,
    ensures
        match walk_steps(graph, profile.0 as int, nodes@) {
            Some(s) => r matches Ok(v) && v@ == s,
            None => r == Err::<Vec<PathStep>, GraphError>(GraphError::NoPath),
        },
{
    let ghost p = profile.0 as int;
    let mut steps: Vec<PathStep> = Vec::new();
    let n = nodes.len();
    let mut k: usize = 0;
    while k + 1 < n
        invariant
            graph.wf(),
            profile.0 < graph.num_profiles(),
            p == profile.0,
            n == nodes@.len(),
            n >= 1,
            k + 1 <= n,
            walk_steps_upto(graph, p, nodes@, k as int) == Some(steps@),
        decreases n - k,
    {
        let i1 = nodes[k];
        let i2 = nodes[k + 1];
        if i1 >= graph.intersections.len() {
            proof {
                lemma_walk_steps_none(graph, p, nodes@, k + 1, n - 1);
            }
            return Err(GraphError::NoPath);
        }
        match graph.find_road(i1, i2, profile) {
            None => {
                proof {
                    lemma_walk_steps_none(graph, p, nodes@, k + 1, n - 1);
                }
                return Err(GraphError::NoPath);
            },
            Some(road) => {
                proof {
                    let rs = graph.intersections@[i1 as int].roads@;
                    lemma_best_road(graph, p, i1 as int, i2 as int, rs, rs.len() as int);
                }
                steps.push(PathStep::Road { road, forwards: graph.roads[road.0].src_i.0 == i1 });
            },
        }
        k = k + 1;
    }
    Ok(steps)
}

/// Adds the start's and end's roads to `mid` where they differ from its
/// first and last roads.
fn attach_ends(start: Position, end: Position, mid: Vec<PathStep>) -> (r: Vec<PathStep>)
    requires
        mid@.len() >= 1,
    ensures
        r@ == with_ends(start, end, mid@),
{
    let first = match mid[0] {
        PathStep::Road { road, .. } => road,
        PathStep::Transit { .. } => RoadID(0),
    };
    let last = match mid[mid.len() - 1] {
        PathStep::Road { road, .. } => road,
        PathStep::Transit { .. } => RoadID(0),
    };
    let mut steps: Vec<PathStep> = Vec::new();
    if first != start.road {
        steps.push(PathStep::Road { road: start.road, forwards: start.fraction_along > FRACTION_HALF });
    }
    let ghost pre = steps@;
    let mut k: usize = 0;
    while k < mid.len()
        invariant
            k <= mid@.len(),
            steps@ == pre + mid@.take(k as int),
        decreases mid@.len() - k,
    {
        steps.push(mid[k]);
        assert(mid@.take(k + 1) =~= mid@.take(k as int).push(mid@[k as int]));
        k = k + 1;
    }
    assert(mid@.take(mid@.len() as int) =~= mid@);
    if last != end.road {
        steps.push(PathStep::Road { road: end.road, forwards: end.fraction_along <= FRACTION_HALF });
    }
    proof {
        assert(steps@ =~= with_ends(start, end, mid@));
    }
    steps
}

/// Turns the node path that a search returned into a route between two
/// positions: the cheapest road between each pair of nodes, with the
/// start's and end's roads added where they differ from the first and last.
pub fn route_along(graph: &Graph, profile: ProfileID, start: Position, end: Position, nodes: &Vec<usize>) -> (r: Result<Route, GraphError>)
    requires
        graph.wf(),
        profile.0 < graph.num_profiles(),
        nodes@.len() >= 2,
    ensures
        match walk_steps(graph, profile.0 as int, nodes@) {
            Some(mid) => r matches Ok(route) && route.steps@ == with_ends(start, end, mid) && route.start == start && route.end == end,
            None => r == Err::<Route, GraphError>(GraphError::NoPath),
        },
{
    let mid = match walk_to_steps(graph, profile, nodes) {
        Ok(m) => m,
        Err(e) => { return Err(e); },
    };
    proof {
        lemma_walk_steps_follow(graph, profile.0 as int, nodes@, nodes@.len() - 1);
    }
    let steps = attach_ends(start, end, mid);
    Ok(Route { start, end, steps })
}

/// What a router's edges are built from satisfies `fast_paths`: ends below
/// `usize::MAX`, and few and light enough edges.
proof fn lemma_router_input(roads: Seq<Road>, p: ProfileID)
    requires
        roads_have_profile(roads, p),
    ensures
        forall|k: int| 0 <= k < spec_profile_edges(roads, p.0 as int).len() ==>
            (#[trigger] spec_profile_edges(roads, p.0 as int)[k]).0 < usize::MAX
            && spec_profile_edges(roads, p.0 as int)[k].1 < usize::MAX,
        edges_bounded(kept_edges(spec_profile_edges(roads, p.0 as int))),
        forall|k: int| 0 <= k < kept_edges(spec_profile_edges(roads, p.0 as int)).len() ==> {
            let e = #[trigger] kept_edges(spec_profile_edges(roads, p.0 as int))[k];
            &&& e.0 < edges_node_count(spec_profile_edges(roads, p.0 as int))
            &&& e.1 < edges_node_count(spec_profile_edges(roads, p.0 as int))
        },
{
    let pe = spec_profile_edges(roads, p.0 as int);
    lemma_profile_edges_len(roads, p.0 as int, roads.len() as int);
    lemma_kept_edges(pe);
    let ke = kept_edges(pe);
    assert forall|k: int| 0 <= k < ke.len() implies (#[trigger] ke[k]).2 <= u32::MAX by {
        lemma_edge_from_road(roads, p.0 as int, ke[k]);
    }
    assert forall|k: int| 0 <= k < pe.len() implies (#[trigger] pe[k]).0 < usize::MAX && pe[k].1 < usize::MAX by {
        assert(pe.contains(pe[k]));
        lemma_edge_from_road(roads, p.0 as int, pe[k]);
    }
}

/// Edges kept from a profile's edges stay bounded and below its node count.
proof fn lemma_frozen_edges(frozen: Seq<(usize, usize, usize)>, pe: Seq<(usize, usize, usize)>)
    requires
        keeps_lightest(frozen, kept_edges(pe)),
        edges_bounded(kept_edges(pe)),
    ensures
        edges_bounded(frozen),
        forall|k: int| 0 <= k < frozen.len() ==> (#[trigger] frozen[k]).0 < edges_node_count(pe)
            && frozen[k].1 < edges_node_count(pe),
{
    lemma_kept_edges(pe);
    let ke = kept_edges(pe);
    assert forall|k: int| 0 <= k < frozen.len() implies (#[trigger] frozen[k]).2 <= u32::MAX
        && frozen[k].0 < edges_node_count(pe) && frozen[k].1 < edges_node_count(pe) by {
        assert(ke.contains(frozen[k]));
        let j = choose|j: int| 0 <= j < ke.len() && ke[j] == frozen[k];
        assert(ke[j].2 <= u32::MAX);
    }
}

/// A router belongs to profile `p` of a graph: it was built from the
/// graph's roads for that profile.
pub open spec fn router_fits(g: &Graph, rt: &Router) -> bool {
    &&& rt.wf()
    &&& rt.profile().0 < g.num_profiles()
    &&& keeps_lightest(rt.input_edges(), kept_edges(spec_profile_edges(g.roads@, rt.profile().0 as int)))
}

impl Router {
    pub closed spec fn wf(&self) -> bool {
        &&& self.num_nodes == ch_node_count(self.ch)
        &&& ch_input_edges(self.ch) == self.edges@
        &&& edges_bounded(self.edges@)
        &&& forall|k: int| 0 <= k < self.edges@.len() ==> (#[trigger] self.edges@[k]).0 < self.num_nodes
            && self.edges@[k].1 < self.num_nodes
    }

    /// The number of nodes of the hierarchy.
    pub closed spec fn node_count(&self) -> nat {
        self.num_nodes as nat
    }

    /// The order in which the hierarchy contracted its nodes.
    pub closed spec fn node_order(&self) -> Seq<usize> {
        ch_order(self.ch)
    }

    /// The profile this router was built for.
    pub closed spec fn profile(&self) -> ProfileID {
        self.profile
    }

    /// The directed, weighted edges that the hierarchy was prepared from:
    /// one along each direction the profile may cross each road in, weighted
    /// by its cost, but for loops and weightless edges.
    pub closed spec fn input_edges(&self) -> Seq<(usize, usize, usize)> {
        self.edges@
    }

    /// Creates the router of a profile, contracting its edges.
    pub fn new(roads: &Vec<Road>, profile: ProfileID) -> (r: Self)
        requires
            roads_have_profile(roads@, profile),
        ensures
            r.wf(),
            r.profile() == profile,
            r.node_count() == edges_node_count(spec_profile_edges(roads@, profile.0 as int)),
            keeps_lightest(r.input_edges(), kept_edges(spec_profile_edges(roads@, profile.0 as int))),
    {
        let edges = profile_edges(roads, profile);
        proof {
            lemma_router_input(roads@, profile);
        }
        let input = build_input_graph(&edges);
        let num_nodes = ch::input_num_nodes(&input);
        let ch = ch::prepare(&input);
        proof {
            lemma_frozen_edges(ch::input_edges_of(input), spec_profile_edges(roads@, profile.0 as int));
        }
        Router { ch, num_nodes, profile, edges: Ghost(ch::input_edges_of(input)) }
    }

    /// Calculates a route between two positions.
    pub fn route(&self, graph: &Graph, start: Position, end: Position) -> (r: Result<Route, GraphError>)
        requires
            graph.wf(),
            router_fits(graph, self),
            position_wf(graph, start),
            position_wf(graph, end),
        ensures
            start == end ==> r == Err::<Route, GraphError>(GraphError::NoPath),
            start != end ==> match direct_steps(graph, start, end) {
                Some(s) => r matches Ok(route) && route.steps@ == s && route.start == start && route.end == end,
                None => {
                    &&& (r is Ok <==> reachable(self.input_edges(), start.intersection.0 as int, end.intersection.0 as int))
                    &&& (r matches Err(e) ==> e == GraphError::NoPath)
                    &&& (r matches Ok(route) ==> route.start == start && route.end == end && exists|mid: Seq<PathStep>| {
                        &&& least_walk_steps(graph, self.profile().0 as int, self.input_edges(),
                            start.intersection.0, end.intersection.0, mid)
                        &&& route.steps@ == with_ends(start, end, mid)
                    })
                },
            },
    {
        if start == end {
            return Err(GraphError::NoPath);
        }
        if start.road == end.road {
            let mut steps: Vec<PathStep> = Vec::new();
            steps.push(PathStep::Road { road: start.road, forwards: start.fraction_along < end.fraction_along });
            assert(steps@ =~= seq![road_step(start.road, start.fraction_along < end.fraction_along)]);
            return Ok(Route { start, end, steps });
        }
        if start.intersection == end.intersection {
            let common = start.intersection;
            let start_road = &graph.roads[start.road.0];
            let end_road = &graph.roads[end.road.0];
            let mut steps: Vec<PathStep> = Vec::new();
            steps.push(PathStep::Road { road: start.road, forwards: start_road.dst_i == common });
            steps.push(PathStep::Road { road: end.road, forwards: end_road.src_i == common });
            assert(steps@ =~= seq![
                road_step(start.road, graph.roads@[start.road.0 as int].dst_i == common),
                road_step(end.road, graph.roads@[end.road.0 as int].src_i == common),
            ]);
            return Ok(Route { start, end, steps });
        }
        let s = start.intersection.0;
        let t = end.intersection.0;
        let mid = match self.least_steps(graph, s, t) {
            Err(e) => { return Err(e); },
            Ok(mid) => mid,
        };
        let steps = attach_ends(start, end, mid);
        Ok(Route { start, end, steps })
    }

    /// The steps of a least-weight walk between two distinct intersections,
    /// road by road; `NoPath` exactly when there is none.
    fn least_steps(&self, graph: &Graph, s: usize, t: usize) -> (r: Result<Vec<PathStep>, GraphError>)
        requires
            graph.wf(),
            router_fits(graph, self),
            s != t,
        ensures
            r is Ok <==> reachable(self.input_edges(), s as int, t as int),
            r matches Err(e) ==> e == GraphError::NoPath,
            r matches Ok(v) ==> v@.len() >= 1 && least_walk_steps(graph, self.profile().0 as int, self.input_edges(), s, t, v@),
    {
        let ghost p = self.profile.0 as int;
        let ghost e = self.edges@;
        if s >= self.num_nodes || t >= self.num_nodes {
            proof {
                if reachable(e, s as int, t as int) {
                    let idx = choose|idx: Seq<int>| edge_walk(e, s as int, t as int, idx);
                    assert(e[idx[0]].0 < self.num_nodes);
                    assert(e[idx.last()].1 < self.num_nodes);
                }
            }
            return Err(GraphError::NoPath);
        }
        match ch::calc_path(&self.ch, s, t) {
            None => Err(GraphError::NoPath),
            Some((_, nodes)) => {
                let ghost idx = choose|idx: Seq<int>| {
                    &&& edge_walk(e, s as int, t as int, idx)
                    &&& nodes@ == walk_nodes(e, s, idx)
                    &&& is_least(e, s as int, t as int, walk_weight(e, idx))
                };
                proof {
                    assert(e[idx.last()].1 == t);
                    lemma_walk_steps_some(graph, p, e, s, idx, idx.len() as int);
                    assert(nodes@.len() == idx.len() + 1);
                }
                let steps = walk_to_steps(graph, self.profile, &nodes);
                proof {
                    lemma_walk_steps_follow(graph, p, nodes@, nodes@.len() - 1);
                }
                steps
            },
        }
    }

    /// Calculates a route between two intersections.
    pub fn route_between_intersections(
        &self,
        graph: &Graph,
        start_i: IntersectionID,
        end_i: IntersectionID,
    ) -> (r: Result<Route, GraphError>)
        requires
            graph.wf(),
            router_fits(graph, self),
        ensures
            start_i == end_i ==> r == Err::<Route, GraphError>(GraphError::NoPath),
            start_i != end_i ==> (r is Ok <==> reachable(self.input_edges(), start_i.0 as int, end_i.0 as int)),
            r matches Err(e) ==> e == GraphError::NoPath,
            r matches Ok(route) ==> {
                &&& least_walk_steps(graph, self.profile().0 as int, self.input_edges(), start_i.0, end_i.0, route.steps@)
                &&& route.steps@.len() >= 1
                &&& route.start == end_position(graph, step_road(route.steps@[0]), start_i)
                &&& route.end == end_position(graph, step_road(route.steps@.last()), end_i)
            },
    {
        if start_i == end_i {
            return Err(GraphError::NoPath);
        }
        let steps = match self.least_steps(graph, start_i.0, end_i.0) {
            Err(e) => { return Err(e); },
            Ok(steps) => steps,
        };
        let ghost idx = choose|idx: Seq<int>| {
            &&& edge_walk(self.edges@, start_i.0 as int, end_i.0 as int, idx)
            &&& is_least(self.edges@, start_i.0 as int, end_i.0 as int, walk_weight(self.edges@, idx))
            &&& walk_steps(graph, self.profile.0 as int, walk_nodes(self.edges@, start_i.0, idx)) == Some(steps@)
        };
        proof {
            let nodes = walk_nodes(self.edges@, start_i.0, idx);
            lemma_walk_steps_follow(graph, self.profile.0 as int, nodes, nodes.len() - 1);
        }
        let first_road = match steps[0] {
            PathStep::Road { road, .. } => road,
            PathStep::Transit { .. } => RoadID(0),
        };
        let last_road = match steps[steps.len() - 1] {
            PathStep::Road { road, .. } => road,
            PathStep::Transit { .. } => RoadID(0),
        };
        let start = Position {
            intersection: start_i,
            road: first_road,
            fraction_along: if graph.roads[first_road.0].src_i == start_i { 0 } else { FRACTION_ONE },
        };
        let end = Position {
            intersection: end_i,
            road: last_road,
            fraction_along: if graph.roads[last_road.0].src_i == end_i { 0 } else { FRACTION_ONE },
        };
        Ok(Route { start, end, steps })
    }

    /// Calculates a route through a sequence of waypoints, joining the routes
    /// between consecutive ones. There may be spurs and doubling back.
    #[verifier::rlimit(50)]
    pub fn route_between_many_intersections(
        &self,
        graph: &Graph,
        waypoints: Vec<IntersectionID>,
    ) -> (r: Result<Route, GraphError>)
        requires
            graph.wf(),
            router_fits(graph, self),
        ensures
            r is Ok <==> waypoints@.len() >= 2 && forall|k: int| 0 <= k < waypoints@.len() - 1 ==>
                #[trigger] waypoints@[k] != waypoints@[k + 1]
                && reachable(self.input_edges(), waypoints@[k].0 as int, waypoints@[k + 1].0 as int),
            r matches Err(e) ==> e == GraphError::NoPath,
            r matches Ok(route) ==> {
                &&& route.start.intersection == waypoints@[0]
                &&& route.end.intersection == waypoints@.last()
                &&& exists|parts: Seq<Seq<PathStep>>| {
                    &&& parts.len() == waypoints@.len() - 1
                    &&& route.steps@ == concat(parts)
                    &&& forall|k: int| 0 <= k < parts.len() ==> least_walk_steps(graph, self.profile().0 as int,
                        self.input_edges(), waypoints@[k].0, waypoints@[k + 1].0, #[trigger] parts[k])
                }
            },
    {
        if waypoints.len() < 2 {
            return Err(GraphError::NoPath);
        }
        let mut route = match self.route_between_intersections(graph, waypoints[0], waypoints[1]) {
            Err(e) => { return Err(e); },
            Ok(route) => route,
        };
        let ghost mut parts: Seq<Seq<PathStep>> = seq![route.steps@];
        proof {
            assert(parts.drop_last() =~= Seq::<Seq<PathStep>>::empty());
            assert(concat(Seq::<Seq<PathStep>>::empty()) == Seq::<PathStep>::empty());
            assert(concat(parts) == concat(parts.drop_last()) + parts.last());
            assert(concat(parts) =~= route.steps@);
        }
        let mut k: usize = 2;
        while k < waypoints.len()
            invariant
                graph.wf(),
                router_fits(graph, self),
                2 <= k <= waypoints@.len(),
                route.start.intersection == waypoints@[0],
                route.end.intersection == waypoints@[k - 1],
                parts.len() == k - 1,
                route.steps@ == concat(parts),
                forall|j: int| 0 <= j < parts.len() ==> least_walk_steps(graph, self.profile().0 as int,
                    self.input_edges(), waypoints@[j].0, waypoints@[j + 1].0, #[trigger] parts[j]),
                forall|j: int| 0 <= j < k - 1 ==> #[trigger] waypoints@[j] != waypoints@[j + 1]
                    && reachable(self.input_edges(), waypoints@[j].0 as int, waypoints@[j + 1].0 as int),
            decreases waypoints@.len() - k,
        {
            let append = match self.route_between_intersections(graph, waypoints[k - 1], waypoints[k]) {
                Err(e) => { return Err(e); },
                Ok(a) => a,
            };
            let ghost old_parts = parts;
            proof {
                parts = parts.push(append.steps@);
                assert(parts.drop_last() =~= old_parts);
            }
            let ghost before_steps = route.steps@;
            let mut more = append.steps;
            route.steps.append(&mut more);
            route.end = append.end;
            proof {
                assert(concat(parts) == concat(parts.drop_last()) + parts.last());
                assert(route.steps@ =~= concat(parts));
                assert forall|j: int| 0 <= j < parts.len() implies least_walk_steps(graph, self.profile().0 as int,
                    self.input_edges(), waypoints@[j].0, waypoints@[j + 1].0, #[trigger] parts[j]) by {
                    if j < old_parts.len() {
                        assert(parts[j] == old_parts[j]);
                    }
                }
            }
            k = k + 1;
        }
        Ok(route)
    }

    /// After per-road costs changed, contracts the hierarchy again in its
    /// previous node order. Access must be the same as when the router was
    /// built; where the new edges span another number of nodes, the router is
    /// left as it was and `AccessChanged` is returned.
    pub fn update_costs(&mut self, roads: &Vec<Road>, profile: ProfileID) -> (r: Result<(), GraphError>)
        requires
            old(self).wf(),
            roads_have_profile(roads@, profile),
        ensures
            final(self).wf(),
            final(self).node_count() == old(self).node_count(),
            final(self).profile() == old(self).profile(),
            r is Ok <==> edges_node_count(spec_profile_edges(roads@, profile.0 as int)) == old(self).node_count(),
            r matches Err(e) ==> e == GraphError::AccessChanged,
            r is Ok ==> keeps_lightest(final(self).input_edges(), kept_edges(spec_profile_edges(roads@, profile.0 as int))),
            r is Ok ==> final(self).node_order() == old(self).node_order(),
            r is Err ==> final(self).input_edges() == old(self).input_edges(),
    {
        let edges = profile_edges(roads, profile);
        proof {
            lemma_router_input(roads@, profile);
        }
        let input = build_input_graph(&edges);
        let order = ch::get_node_ordering(&self.ch);
        match ch::prepare_with_order(&input, &order) {
            Ok(ch) => {
                self.ch = ch;
                proof {
                    lemma_frozen_edges(ch::input_edges_of(input), spec_profile_edges(roads@, profile.0 as int));
                }
                self.edges = Ghost(ch::input_edges_of(input));
                Ok(())
            },
            Err(_) => Err(GraphError::AccessChanged),
        }
    }
}

/// The step sequences one after another.
pub open spec fn concat(parts: Seq<Seq<PathStep>>) -> Seq<PathStep>
    decreases parts.len(),
{
    if parts.len() == 0 {
        Seq::empty()
    } else {
        concat(parts.drop_last()) + parts.last()
    }
}

} // verus!
