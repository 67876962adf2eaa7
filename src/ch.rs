//! The contraction hierarchy comes from the `fast_paths` crate. These are the
//! items of it that the router relies on, with what its source shows of them.
use fast_paths::{FastGraph, InputGraph};
use vstd::prelude::*;

verus! {

#[verifier::external_type_specification]
#[verifier::external_body]
pub struct ExInputGraph(InputGraph);

#[verifier::external_type_specification]
#[verifier::external_body]
pub struct ExFastGraph(FastGraph);

/// One more than the largest node of an edge that an input graph kept.
pub uninterp spec fn input_node_count(g: InputGraph) -> nat;

/// The edges `(from, to, weight)` of an input graph: those `add_edge` kept,
/// in the order added, until `freeze` sorts them and keeps the lightest of
/// each pair of ends.
pub uninterp spec fn input_edges_of(g: InputGraph) -> Seq<(usize, usize, usize)>;

/// `frozen` keeps, of the edges `added`, the lightest between each pair of
/// ends: every kept edge was added, and every added edge has a kept edge
/// between the same ends that weighs no more.
pub open spec fn keeps_lightest(frozen: Seq<(usize, usize, usize)>, added: Seq<(usize, usize, usize)>) -> bool {
    &&& frozen.len() <= added.len()
    &&& forall|k: int| 0 <= k < frozen.len() ==> added.contains(#[trigger] frozen[k])
    &&& forall|k: int| #![trigger added[k]] 0 <= k < added.len() ==> exists|j: int|
        0 <= j < frozen.len() && (#[trigger] frozen[j]).0 == added[k].0 && frozen[j].1 == added[k].1
        && frozen[j].2 <= added[k].2
}

/// The node ordering of a prepared hierarchy: the node of each rank.
pub uninterp spec fn ch_order(g: FastGraph) -> Seq<usize>;

/// The edges of the input graph that a hierarchy was prepared from.
pub uninterp spec fn ch_input_edges(g: FastGraph) -> Seq<(usize, usize, usize)>;

/// `idx` lists edges of `edges` that lead one after another from `s` to `t`.
pub open spec fn edge_walk(edges: Seq<(usize, usize, usize)>, s: int, t: int, idx: Seq<int>) -> bool {
    &&& idx.len() >= 1
    &&& forall|k: int| 0 <= k < idx.len() ==> 0 <= #[trigger] idx[k] < edges.len()
    &&& edges[idx[0]].0 == s
    &&& edges[idx.last()].1 == t
    &&& forall|k: int| 0 <= k < idx.len() - 1 ==> #[trigger] edges[idx[k]].1 == edges[idx[k + 1]].0
}

/// The total weight of the edges `idx`.
pub open spec fn walk_weight(edges: Seq<(usize, usize, usize)>, idx: Seq<int>) -> int
    decreases idx.len(),
{
    if idx.len() == 0 {
        0
    } else {
        walk_weight(edges, idx.drop_last()) + edges[idx.last()].2
    }
}

/// The nodes that the walk `idx` from `s` passes, `s` first.
pub open spec fn walk_nodes(edges: Seq<(usize, usize, usize)>, s: usize, idx: Seq<int>) -> Seq<usize> {
    seq![s] + Seq::new(idx.len(), |k: int| edges[idx[k]].1)
}

/// Some walk along `edges` leads from `s` to `t`.
pub open spec fn reachable(edges: Seq<(usize, usize, usize)>, s: int, t: int) -> bool {
    exists|idx: Seq<int>| edge_walk(edges, s, t, idx)
}

/// No walk from `s` to `t` weighs less than `w`.
pub open spec fn is_least(edges: Seq<(usize, usize, usize)>, s: int, t: int, w: int) -> bool {
    forall|idx: Seq<int>| edge_walk(edges, s, t, idx) ==> walk_weight(edges, idx) >= w
}

/// Weights and counts small enough that no sum of weights overflows.
pub open spec fn edges_bounded(edges: Seq<(usize, usize, usize)>) -> bool {
    &&& edges.len() <= u32::MAX
    &&& forall|k: int| 0 <= k < edges.len() ==> (#[trigger] edges[k]).2 <= u32::MAX
}

/// Whether an input graph was frozen, so that it can be prepared.
pub uninterp spec fn input_frozen(g: InputGraph) -> bool;

/// The number of nodes of a prepared hierarchy.
pub uninterp spec fn ch_node_count(g: FastGraph) -> nat;

/// A node ordering of `n` nodes: a permutation of `0 .. n`.
pub open spec fn is_node_order(s: Seq<usize>, n: nat) -> bool {
    &&& s.len() == n
    &&& forall|k: int| 0 <= k < s.len() ==> s[k] < n
    &&& forall|a: int, b: int| 0 <= a < b < s.len() ==> s[a] != s[b]
}

/// Relies on `InputGraph::new`: an empty, unfrozen graph.
#[verifier::external_body]
pub(crate) fn new_input_graph() -> (r: InputGraph)
    ensures
        input_node_count(r) == 0,
        input_edges_of(r) == Seq::<(usize, usize, usize)>::empty(),
        !input_frozen(r),
{
    InputGraph::new()
}

/// Relies on `InputGraph::add_edge`: a loop or a zero weight is skipped; any
/// other edge is kept and raises the node count to cover both of its ends
/// (computed as `max(from, to) + 1`, so an end of `usize::MAX` is refused).
#[verifier::external_body]
pub(crate) fn add_edge(g: &mut InputGraph, from: usize, to: usize, weight: usize)
    requires
        !input_frozen(*old(g)),
        from < usize::MAX,
        to < usize::MAX,
    ensures
        !input_frozen(*final(g)),
        input_edges_of(*final(g)) == if from != to && weight >= 1 {
            input_edges_of(*old(g)).push((from, to, weight))
        } else {
            input_edges_of(*old(g))
        },
        input_node_count(*final(g)) == if from != to && weight >= 1 {
            vstd::math::max(
                input_node_count(*old(g)) as int,
                vstd::math::max(from as int, to as int) + 1,
            ) as nat
        } else {
            input_node_count(*old(g))
        },
{
    g.add_edge(from, to, weight);
}

/// Relies on `InputGraph::freeze`, which panics on a frozen graph: it sorts
/// the edges by ends and weight and keeps the first, lightest, of each pair
/// of ends.
#[verifier::external_body]
pub(crate) fn freeze(g: &mut InputGraph)
    requires
        !input_frozen(*old(g)),
    ensures
        input_frozen(*final(g)),
        input_node_count(*final(g)) == input_node_count(*old(g)),
        keeps_lightest(input_edges_of(*final(g)), input_edges_of(*old(g))),
{
    g.freeze();
}

/// Relies on `InputGraph::get_num_nodes`, which panics before `freeze`.
#[verifier::external_body]
pub(crate) fn input_num_nodes(g: &InputGraph) -> (r: usize)
    requires
        input_frozen(*g),
    ensures
        r == input_node_count(*g),
{
    g.get_num_nodes()
}

/// Relies on `fast_paths::prepare`: the hierarchy has the input's nodes.
#[verifier::external_body]
pub(crate) fn prepare(g: &InputGraph) -> (r: FastGraph)
    requires
        input_frozen(*g),
    ensures
        ch_node_count(r) == input_node_count(*g),
        ch_input_edges(r) == input_edges_of(*g),
{
    fast_paths::prepare(g)
}

/// Relies on `fast_paths::prepare_with_order`: it refuses an ordering whose
/// length differs from the node count, and contracts in the given order,
/// giving node `order[k]` rank `k`.
#[verifier::external_body]
pub(crate) fn prepare_with_order(g: &InputGraph, order: &Vec<usize>) -> (r: Result<FastGraph, String>)
    requires
        input_frozen(*g),
        order@.len() == input_node_count(*g) ==> is_node_order(order@, input_node_count(*g)),
    ensures
        r is Ok <==> order@.len() == input_node_count(*g),
        r matches Ok(f) ==> ch_node_count(f) == input_node_count(*g) && ch_input_edges(f) == input_edges_of(*g)
            && ch_order(f) == order@,
{
    fast_paths::prepare_with_order(g, order)
}

/// Relies on `fast_paths::get_node_ordering`: the inverse of the ranks, a
/// permutation of the nodes.
#[verifier::external_body]
pub(crate) fn get_node_ordering(g: &FastGraph) -> (r: Vec<usize>)
    ensures
        is_node_order(r@, ch_node_count(*g)),
        r@ == ch_order(*g),
{
    fast_paths::get_node_ordering(g)
}

/// Relies on `fast_paths::calc_path`, documented to calculate the shortest
/// path, which panics on a node out of range: there is a path exactly when
/// the target is reachable along the input edges, and a found path is the
/// nodes of a least-weight walk along them, with that weight.
#[verifier::external_body]
pub(crate) fn calc_path(g: &FastGraph, source: usize, target: usize) -> (r: Option<(usize, Vec<usize>)>)
    requires
        source < ch_node_count(*g),
        target < ch_node_count(*g),
        source != target,
        edges_bounded(ch_input_edges(*g)),
    ensures
        r is Some <==> reachable(ch_input_edges(*g), source as int, target as int),
        r matches Some(p) ==> exists|idx: Seq<int>| {
            &&& edge_walk(ch_input_edges(*g), source as int, target as int, idx)
            &&& p.1@ == walk_nodes(ch_input_edges(*g), source, idx)
            &&& p.0 == walk_weight(ch_input_edges(*g), idx)
            &&& is_least(ch_input_edges(*g), source as int, target as int, p.0 as int)
        },
{
    fast_paths::calc_path(g, source, target).map(|p| (p.get_weight(), p.get_nodes().clone()))
}

} // verus!
