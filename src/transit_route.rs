//! A time-dependent search that mixes walking along roads with riding
//! scheduled trips. Drawing the result is left to the caller.
use vstd::prelude::*;
use crate::graph::{intersection_wf, road_wf, Graph};
use crate::gtfs::{departures_within, StopID};
use crate::ids::{GraphError, IntersectionID, PathStep, Position, ProfileID};
use crate::isochrone::{count_unvisited, lemma_departures_from, lemma_visit};
use crate::priority_queue::PriorityQueueItem;

verus! {

/// How long a search waits at a stop for a departure: 30 minutes.
pub const MAX_TRANSIT_WAIT_MS: u64 = 1_800_000;

/// One leg of a transit route: from an intersection, a step, and when it
/// starts and finishes.
#[derive(Clone, Copy, Debug, PartialEq, Eq, Structural)]
pub struct Leg {
    pub from: IntersectionID,
    pub step: PathStep,
    pub time1: u64,
    pub time2: u64,
}

/// A leg from `from` to `to` is a walk along a road in an allowed direction
/// with its cost, or a scheduled ride from a stop on a road at `from` to a
/// stop on a road at `to`.
pub open spec fn leg_ok(g: &Graph, p: int, leg: Leg, to: int) -> bool {
    let from = leg.from.0 as int;
    match leg.step {
        PathStep::Road { road, forwards } => {
            &&& road.0 < g.roads@.len()
            &&& {
                let rd = g.roads@[road.0 as int];
                &&& leg.time2 == leg.time1 + rd.cost@[p]
                &&& if forwards {
                    rd.src_i.0 == from && rd.dst_i.0 == to && rd.access@[p].spec_forwards()
                } else {
                    rd.dst_i.0 == from && rd.src_i.0 == to && rd.access@[p].spec_backwards()
                }
            }
        },
        PathStep::Transit { stop1, trip, stop2 } => {
            &&& stop1.0 < g.gtfs.stops@.len()
            &&& stop2.0 < g.gtfs.stops@.len()
            &&& {
                let r1 = g.roads@[g.gtfs.stops@[stop1.0 as int].road.0 as int];
                let r2 = g.roads@[g.gtfs.stops@[stop2.0 as int].road.0 as int];
                &&& (r1.src_i.0 == from || r1.dst_i.0 == from)
                &&& (r2.src_i.0 == to || r2.dst_i.0 == to)
                &&& exists|k: int| 0 <= k < g.gtfs.stops@[stop1.0 as int].next_steps@.len()
                    && #[trigger] g.gtfs.stops@[stop1.0 as int].next_steps@[k] == (crate::gtfs::NextStep {
                        time1: leg.time1,
                        trip: trip,
                        stop2: stop2,
                        time2: leg.time2,
                    })
            }
        },
    }
}

/// The legs lead from `start` to `end`, each from where the last one ended.
pub open spec fn legs_chain(g: &Graph, p: int, legs: Seq<Leg>, start: int, end: int) -> bool {
    &&& legs.len() >= 1
    &&& legs[0].from.0 == start
    &&& forall|k: int| 0 <= k < legs.len() - 1 ==> leg_ok(g, p, #[trigger] legs[k], legs[k + 1].from.0 as int)
    &&& leg_ok(g, p, legs.last(), end)
}

/// How an intersection was first reached.
#[derive(Clone, Copy, Debug, PartialEq, Eq, Structural)]
pub struct Backreference {
    pub src_i: IntersectionID,
    pub step: PathStep,
    pub time1: u64,
    pub time2: u64,
    /// How many intersections were reached before this one.
    pub rank: usize,
}

pub open spec fn backref_leg(b: Backreference) -> Leg {
    Leg { from: b.src_i, step: b.step, time1: b.time1, time2: b.time2 }
}

/// Every recorded back-reference is a leg that arrives at its intersection.
pub open spec fn backrefs_ok(g: &Graph, p: int, backrefs: Seq<Option<Backreference>>) -> bool {
    forall|i: int| 0 <= i < backrefs.len() && (#[trigger] backrefs[i]) is Some ==> {
        &&& leg_ok(g, p, backref_leg(backrefs[i]->0), i)
        &&& backrefs[i]->0.src_i.0 < backrefs.len()
    }
}

/// What a search found: the legs of the route, and, when asked for, the
/// intersections in the order they were explored, each with how it was
/// reached (the start has none).
pub struct TransitSearch {
    pub legs: Vec<Leg>,
    pub explored: Vec<(IntersectionID, Option<Backreference>)>,
}

/// Two consecutive legs are drawn together: both walks, or rides of one
/// trip.
pub open spec fn same_group(a: Leg, b: Leg) -> bool {
    match (a.step, b.step) {
        (PathStep::Road { .. }, PathStep::Road { .. }) => true,
        (PathStep::Transit { trip: t1, .. }, PathStep::Transit { trip: t2, .. }) => t1 == t2,
        _ => false,
    }
}

/// Splits legs into maximal runs that are drawn together, as `[from, to)`
/// index ranges in order.
pub fn group_legs(legs: &Vec<Leg>) -> (r: Vec<(usize, usize)>)
    ensures
        legs@.len() == 0 ==> r@.len() == 0,
        legs@.len() > 0 ==> {
            &&& r@.len() > 0
            &&& r@[0].0 == 0
            &&& r@.last().1 == legs@.len()
        },
        forall|k: int| 0 <= k < r@.len() ==> (#[trigger] r@[k]).0 < r@[k].1,
        forall|k: int| 0 < k < r@.len() ==> (#[trigger] r@[k]).0 == r@[k - 1].1,
        forall|k: int| 0 < k < r@.len() ==> !same_group(legs@[r@[k].0 - 1], #[trigger] legs@[r@[k].0 as int]),
        forall|k: int, j: int| #![trigger r@[k], legs@[j]] 0 <= k < r@.len() && r@[k].0 < j < r@[k].1 ==> same_group(legs@[j - 1], legs@[j]),
{
    let mut out: Vec<(usize, usize)> = Vec::new();
    let n = legs.len();
    if n == 0 {
        return out;
    }
    let mut begin: usize = 0;
    let mut k: usize = 1;
    while k < n
        invariant
            n == legs@.len(),
            0 <= begin < k <= n,
            out@.len() == 0 ==> begin == 0,
            out@.len() > 0 ==> out@[0].0 == 0 && out@.last().1 == begin,
            forall|q: int| 0 <= q < out@.len() ==> (#[trigger] out@[q]).0 < out@[q].1,
            forall|q: int| 0 < q < out@.len() ==> (#[trigger] out@[q]).0 == out@[q - 1].1,
            forall|q: int| 0 < q < out@.len() ==> !same_group(legs@[out@[q].0 - 1], #[trigger] legs@[out@[q].0 as int]),
            out@.len() > 0 ==> !same_group(legs@[begin - 1], legs@[begin as int]),
            forall|q: int, j: int| #![trigger out@[q], legs@[j]] 0 <= q < out@.len() && out@[q].0 < j < out@[q].1 ==> same_group(legs@[j - 1], legs@[j]),
            forall|j: int| begin < j < k ==> same_group(legs@[j - 1], #[trigger] legs@[j]),
        decreases n - k,
    {
        let a = legs[k - 1];
        let b = legs[k];
        let together = match (a.step, b.step) {
            (PathStep::Road { .. }, PathStep::Road { .. }) => true,
            (PathStep::Transit { trip: t1, .. }, PathStep::Transit { trip: t2, .. }) => t1 == t2,
            _ => false,
        };
        if !together {
            out.push((begin, k));
            begin = k;
        }
        k = k + 1;
    }
    out.push((begin, n));
    out
}

/// Back-references respect time: each starts no earlier than the search
/// and ends no earlier than it starts, and the intersection it starts from
/// (other than the start) was reached no later than it starts.
pub open spec fn backrefs_timed(backrefs: Seq<Option<Backreference>>, start: int, start_time: int) -> bool {
    forall|i: int| 0 <= i < backrefs.len() && (#[trigger] backrefs[i]) is Some ==> {
        let b = backrefs[i]->0;
        &&& start_time <= b.time1 <= b.time2
        &&& b.src_i.0 != start ==> {
            &&& b.src_i.0 < backrefs.len()
            &&& backrefs[b.src_i.0 as int] is Some
            &&& backrefs[b.src_i.0 as int]->0.time2 <= b.time1
        }
    }
}

/// Each queued time is no earlier than the search, and is the time at which
/// its intersection (other than the start) was first reached.
pub open spec fn queue_timed(
    queue: Seq<PriorityQueueItem<u64, usize>>,
    times: Seq<u64>,
    backrefs: Seq<Option<Backreference>>,
    start: int,
    start_time: int,
) -> bool {
    forall|q: int| 0 <= q < queue.len() ==> {
        &&& start_time <= #[trigger] times[q]
        &&& queue[q].value != start ==> {
            &&& queue[q].value < backrefs.len()
            &&& backrefs[queue[q].value as int] is Some
            &&& backrefs[queue[q].value as int]->0.time2 == times[q]
        }
    }
}

/// The legs start no earlier than `start_time`, each ends no earlier than it
/// starts, and each starts no earlier than the previous one ends.
pub open spec fn legs_timed(legs: Seq<Leg>, start_time: int) -> bool {
    &&& legs.len() > 0 ==> legs[0].time1 >= start_time
    &&& forall|k: int| 0 <= k < legs.len() ==> (#[trigger] legs[k]).time1 <= legs[k].time2
    &&& forall|k: int| 0 <= k < legs.len() - 1 ==> (#[trigger] legs[k]).time2 <= legs[k + 1].time1
}

pub open spec fn discovered_matches(d: Seq<bool>, b: Seq<Option<Backreference>>) -> bool {
    &&& d.len() == b.len()
    &&& forall|i: int| 0 <= i < d.len() ==> #[trigger] d[i] == (b[i] is Some)
}

impl Graph {
    /// Searches for the earliest arrival at `end`'s intersection leaving
    /// `start`'s at `start_time`, walking with the transit walking profile
    /// and riding trips that leave within 30 minutes of reaching a stop's
    /// road. The queue is ordered by arrival time plus `heuristic` of the
    /// intersection (zero where it has no entry).
    #[verifier::rlimit(60)]
    pub fn transit_route(
        &self,
        start: Position,
        end: Position,
        debug_search: bool,
        heuristic: &Vec<u64>,
        start_time: u64,
    ) -> (r: Result<TransitSearch, GraphError>)
        requires
            self.wf(),
            start.intersection.0 < self.intersections@.len(),
            end.intersection.0 < self.intersections@.len(),
        ensures
            start == end ==> r == Err::<TransitSearch, GraphError>(GraphError::NoPath),
            start != end && self.walking_profile_for_transit is None ==> r == Err::<TransitSearch, GraphError>(GraphError::TransitNotSetUp),
            r matches Err(e) ==> e == GraphError::NoPath || e == GraphError::TransitNotSetUp,
            r matches Ok(found) ==> found.legs@.len() == 0 ==> start.intersection == end.intersection,
            r matches Ok(found) ==> found.legs@.len() > 0 ==> legs_chain(
                self,
                (self.walking_profile_for_transit->0).0 as int,
                found.legs@,
                start.intersection.0 as int,
                end.intersection.0 as int,
            ),
            r matches Ok(found) ==> legs_timed(found.legs@, start_time as int),
            start != end && self.walking_profile_for_transit is Some && start.intersection == end.intersection
                ==> (r matches Ok(found) && found.legs@.len() == 0),
    {
        if start == end {
            return Err(GraphError::NoPath);
        }
        let profile = match self.walking_profile_for_transit {
            None => { return Err(GraphError::TransitNotSetUp); },
            Some(p) => p,
        };
        if start.intersection == end.intersection {
            return Ok(TransitSearch { legs: Vec::new(), explored: Vec::new() });
        }
        let ghost p = profile.0 as int;
        let ghost si = start.intersection.0 as int;
        let ghost st = start_time as int;
        let ni = self.intersections.len();
        let mut backrefs: Vec<Option<Backreference>> = Vec::new();
        let mut discovered: Vec<bool> = Vec::new();
        let mut z: usize = 0;
        while z < ni
            invariant
                z <= ni,
                backrefs@.len() == z,
                discovered_matches(discovered@, backrefs@),
                forall|i: int| 0 <= i < z ==> backrefs@[i] is None,
                count_unvisited(discovered@) == z,
            decreases ni - z,
        {
            backrefs.push(None);
            let ghost d0 = discovered@;
            discovered.push(false);
            assert(discovered@.drop_last() =~= d0);
            z = z + 1;
        }
        let mut next_rank: usize = 0;
        let mut search_record: Vec<IntersectionID> = Vec::new();
        let mut queue: Vec<PriorityQueueItem<u64, usize>> = Vec::new();
        let mut times: Vec<u64> = Vec::new();
        let h0 = if start.intersection.0 < heuristic.len() { heuristic[start.intersection.0] } else { 0 };
        queue.push(PriorityQueueItem::new(start_time.saturating_add(h0), start.intersection.0));
        times.push(start_time);
        let mut found = false;
        while queue.len() > 0
            invariant_except_break
                !found,
            invariant
                self.wf(),
                p == profile.0,
                profile.0 < self.num_profiles(),
                self.walking_profile_for_transit == Some(profile),
                ni == self.intersections@.len(),
                si == start.intersection.0,
                st == start_time,
                end.intersection.0 < ni,
                search_ok(self, p, si, st, ni as int, backrefs@, discovered@, queue@, times@, next_rank as int),
                si != end.intersection.0,
                found ==> backrefs@[end.intersection.0 as int] is Some,
            decreases count_unvisited(discovered@) + queue@.len(),
        {
            let current = pop_next(&mut queue, &mut times, Ghost(self), Ghost(p), Ghost(si), Ghost(st), Ghost(ni as int), Ghost(backrefs@), Ghost(discovered@), Ghost(next_rank as int));
            let current_i = current.0;
            let current_time = current.1;
            if current_i == end.intersection.0 {
                found = true;
                break;
            }
            if debug_search {
                search_record.push(IntersectionID(current_i));
            }
            proof {
                assert(current_ok(backrefs@, current_i as int, current_time as int, si, st));
            }
            self.expand_from(profile, current_i, current_time, heuristic, &mut backrefs, &mut discovered,
                &mut queue, &mut times, &mut next_rank, Ghost(si), Ghost(st));
        }
        if !found {
            return Err(GraphError::NoPath);
        }
        let explored = if debug_search {
            let mut explored: Vec<(IntersectionID, Option<Backreference>)> = Vec::new();
            let mut k: usize = 0;
            while k < search_record.len()
                invariant
                    k <= search_record@.len(),
                    backrefs@.len() == ni,
                decreases search_record@.len() - k,
            {
                let i = search_record[k];
                let b = if k > 0 && i.0 < backrefs.len() { backrefs[i.0] } else { None };
                explored.push((i, b));
                k = k + 1;
            }
            explored
        } else {
            Vec::new()
        };
        if start.intersection == end.intersection {
            return Ok(TransitSearch { legs: Vec::new(), explored });
        }
        let legs = unwind(&backrefs, start.intersection.0, end.intersection.0, Ghost(self), Ghost(p), Ghost(st))?;
        Ok(TransitSearch { legs, explored })
    }
}


/// The state of a search: back-references are legs that respect time, and
/// each queued intersection has the time at which it was first reached.
pub open spec fn search_ok(
    g: &Graph,
    p: int,
    si: int,
    st: int,
    ni: int,
    backrefs: Seq<Option<Backreference>>,
    discovered: Seq<bool>,
    queue: Seq<PriorityQueueItem<u64, usize>>,
    times: Seq<u64>,
    next_rank: int,
) -> bool {
    &&& 0 <= next_rank
    &&& next_rank + count_unvisited(discovered) == ni
    &&& forall|i: int| 0 <= i < backrefs.len() && (#[trigger] backrefs[i]) is Some ==> {
        &&& backrefs[i]->0.rank < next_rank
        &&& backrefs[i]->0.src_i.0 != si ==> backrefs[backrefs[i]->0.src_i.0 as int]->0.rank < backrefs[i]->0.rank
    }
    &&& backrefs.len() == ni
    &&& discovered_matches(discovered, backrefs)
    &&& backrefs_ok(g, p, backrefs)
    &&& backrefs_timed(backrefs, si, st)
    &&& queue.len() == times.len()
    &&& forall|q: int| 0 <= q < queue.len() ==> (#[trigger] queue[q]).value < ni
    &&& queue_timed(queue, times, backrefs, si, st)
}

/// The intersection being expanded was reached at `ct`.
pub open spec fn current_ok(backrefs: Seq<Option<Backreference>>, ci: int, ct: int, si: int, st: int) -> bool {
    &&& st <= ct
    &&& ci != si ==> (0 <= ci < backrefs.len() && backrefs[ci] is Some && backrefs[ci]->0.time2 == ct)
}

/// Records `b` as how `to` was reached and queues `to`, unless it was
/// reached before.
fn relax(
    to: usize,
    b: Backreference,
    heuristic: &Vec<u64>,
    backrefs: &mut Vec<Option<Backreference>>,
    discovered: &mut Vec<bool>,
    queue: &mut Vec<PriorityQueueItem<u64, usize>>,
    times: &mut Vec<u64>,
    next_rank: &mut usize,
    Ghost(g): Ghost<&Graph>,
    Ghost(p): Ghost<int>,
    Ghost(si): Ghost<int>,
    Ghost(st): Ghost<int>,
    Ghost(ni): Ghost<int>,
)
    requires
        search_ok(g, p, si, st, ni, old(backrefs)@, old(discovered)@, old(queue)@, old(times)@, *old(next_rank) as int),
        to < ni,
        b.src_i.0 < ni,
        leg_ok(g, p, backref_leg(b), to as int),
        st <= b.time1,
        b.src_i.0 != si ==> (old(backrefs)@[b.src_i.0 as int] is Some
            && old(backrefs)@[b.src_i.0 as int]->0.time2 <= b.time1),
        b.time1 <= b.time2,
    ensures
        search_ok(g, p, si, st, ni, final(backrefs)@, final(discovered)@, final(queue)@, final(times)@, *final(next_rank) as int),
        count_unvisited(final(discovered)@) + final(queue)@.len() <= count_unvisited(old(discovered)@) + old(queue)@.len(),
        forall|j: int| 0 <= j < ni && (#[trigger] old(backrefs)@[j]) is Some ==> final(backrefs)@[j] == old(backrefs)@[j],
{
    if !discovered[to] {
        proof {
            lemma_visit(discovered@, to as int);
        }
        let ghost (q0, t0, b0) = (queue@, times@, backrefs@);
        let n = backrefs.len();
        proof {
            assert(count_unvisited(old(discovered)@) >= 1);
            assert(*next_rank < n);
        }
        let b = Backreference { src_i: b.src_i, step: b.step, time1: b.time1, time2: b.time2, rank: *next_rank };
        record(backrefs, discovered, to, b, Ghost(g), Ghost(p), Ghost(si), Ghost(st));
        *next_rank = *next_rank + 1;
        proof {
            assert forall|i: int| 0 <= i < backrefs@.len() && (#[trigger] backrefs@[i]) is Some implies {
                &&& backrefs@[i]->0.rank < *next_rank
                &&& backrefs@[i]->0.src_i.0 != si ==> backrefs@[backrefs@[i]->0.src_i.0 as int]->0.rank < backrefs@[i]->0.rank
            } by {
                if i != to {
                    assert(b0[i] is Some);
                    let src = b0[i]->0.src_i.0 as int;
                    if src != si {
                        assert(backrefs_timed(b0, si, st));
                        assert(b0[src] is Some);
                        assert(src != to);
                    }
                } else {
                    if b.src_i.0 != si {
                        assert(b.src_i.0 != to);
                    }
                }
            }
        }
        let h = if to < heuristic.len() { heuristic[to] } else { 0 };
        let item = PriorityQueueItem::new(b.time2.saturating_add(h), to);
        queue.push(item);
        times.push(b.time2);
        proof {
            lemma_queue_timed_push(q0, t0, b0, backrefs@, to as int, b, item, si, st);
            assert forall|q: int| 0 <= q < queue@.len() implies (#[trigger] queue@[q]).value < ni by {
                if q < q0.len() {
                    assert(queue@[q] == q0[q]);
                }
            }
        }
    }
}

impl Graph {
    /// Queues, for each departure from `stop1` (on road `r`, at
    /// `current_i`) within the wait, both ends of the road of its next stop.
    fn ride_from(
        &self,
        stop1: StopID,
        r: crate::ids::RoadID,
        current_i: usize,
        current_time: u64,
        heuristic: &Vec<u64>,
        backrefs: &mut Vec<Option<Backreference>>,
        discovered: &mut Vec<bool>,
        queue: &mut Vec<PriorityQueueItem<u64, usize>>,
        times: &mut Vec<u64>,
        next_rank: &mut usize,
        Ghost(p): Ghost<int>,
        Ghost(si): Ghost<int>,
        Ghost(st): Ghost<int>,
        Ghost(b): Ghost<int>,
    )
        requires
            self.wf(),
            0 <= p < self.num_profiles(),
            current_i < self.intersections@.len(),
            r.0 < self.roads@.len(),
            self.roads@[r.0 as int].src_i.0 == current_i || self.roads@[r.0 as int].dst_i.0 == current_i,
            0 <= b < self.roads@[r.0 as int].stops@.len(),
            stop1 == self.roads@[r.0 as int].stops@[b],
            search_ok(self, p, si, st, self.intersections@.len() as int, old(backrefs)@, old(discovered)@, old(queue)@, old(times)@, *old(next_rank) as int),
            current_ok(old(backrefs)@, current_i as int, current_time as int, si, st),
        ensures
            search_ok(self, p, si, st, self.intersections@.len() as int, final(backrefs)@, final(discovered)@, final(queue)@, final(times)@, *final(next_rank) as int),
            current_ok(final(backrefs)@, current_i as int, current_time as int, si, st),
            count_unvisited(final(discovered)@) + final(queue)@.len() <= count_unvisited(old(discovered)@) + old(queue)@.len(),
    {
        let ghost ni = self.intersections@.len() as int;
        assert(road_wf(&self.roads@[r.0 as int], r.0 as int, self.intersections@.len(), self.num_profiles(), self.gtfs.stops@.len()));
        let departures = self.gtfs.trips_from(stop1, current_time, MAX_TRANSIT_WAIT_MS);
        proof {
            lemma_departures_from(self.gtfs.stops@[stop1.0 as int].next_steps@, current_time as int, current_time + MAX_TRANSIT_WAIT_MS);
            assert(departures@ == departures_within(self.gtfs.stops@[stop1.0 as int].next_steps@, current_time as int, current_time + MAX_TRANSIT_WAIT_MS));
        }
        let ghost budget = count_unvisited(discovered@) + queue@.len();
        let mut c: usize = 0;
        while c < departures.len()
            invariant
                self.wf(),
                0 <= p < self.num_profiles(),
                ni == self.intersections@.len(),
                current_i < ni,
                r.0 < self.roads@.len(),
                self.roads@[r.0 as int].src_i.0 == current_i || self.roads@[r.0 as int].dst_i.0 == current_i,
                stop1 == self.roads@[r.0 as int].stops@[b],
                0 <= b < self.roads@[r.0 as int].stops@.len(),
                stop1.0 < self.gtfs.stops@.len(),
                forall|d: int| 0 <= d < departures@.len() ==> exists|kk: int|
                    0 <= kk < self.gtfs.stops@[stop1.0 as int].next_steps@.len()
                    && #[trigger] departures@[d] == self.gtfs.stops@[stop1.0 as int].next_steps@[kk]
                    && current_time <= departures@[d].time1,
                c <= departures@.len(),
                search_ok(self, p, si, st, ni, backrefs@, discovered@, queue@, times@, *next_rank as int),
                current_ok(backrefs@, current_i as int, current_time as int, si, st),
                count_unvisited(discovered@) + queue@.len() <= budget,
            decreases departures@.len() - c,
        {
            let ns = departures[c];
            let ghost kk = choose|kk: int|
                0 <= kk < self.gtfs.stops@[stop1.0 as int].next_steps@.len()
                && departures@[c as int] == self.gtfs.stops@[stop1.0 as int].next_steps@[kk]
                && current_time <= departures@[c as int].time1;
            assert(self.gtfs.stops@[stop1.0 as int].next_steps@[kk].stop2.0 < self.gtfs.stops@.len());
            assert(self.gtfs.stops@[stop1.0 as int].next_steps@[kk].time1 <= self.gtfs.stops@[stop1.0 as int].next_steps@[kk].time2);
            assert(self.stops_on_roads());
            assert(self.roads@[r.0 as int].stops@[b] == stop1);
            assert(self.gtfs.stops@[stop1.0 as int].road.0 == r.0);
            let stop2_road_id = self.gtfs.stops[ns.stop2.0].road;
            let stop2_road = &self.roads[stop2_road_id.0];
            assert(road_wf(&self.roads@[stop2_road_id.0 as int], stop2_road_id.0 as int, self.intersections@.len(), self.num_profiles(), self.gtfs.stops@.len()));
            let step = PathStep::Transit { stop1, trip: ns.trip, stop2: ns.stop2 };
            let bref = Backreference { src_i: IntersectionID(current_i), step, time1: ns.time1, time2: ns.time2, rank: 0 };
            proof {
                assert(self.gtfs.stops@[stop1.0 as int].next_steps@[kk] == (crate::gtfs::NextStep {
                    time1: bref.time1,
                    trip: ns.trip,
                    stop2: ns.stop2,
                    time2: bref.time2,
                }));
                assert(self.roads@[self.gtfs.stops@[stop1.0 as int].road.0 as int] == self.roads@[r.0 as int]);
                assert(leg_ok(self, p, backref_leg(bref), stop2_road.src_i.0 as int));
                assert(leg_ok(self, p, backref_leg(bref), stop2_road.dst_i.0 as int));
            }
            let ghost b1 = backrefs@;
            relax(stop2_road.src_i.0, bref, heuristic, backrefs, discovered, queue, times, next_rank,
                Ghost(self), Ghost(p), Ghost(si), Ghost(st), Ghost(ni));
            proof {
                if current_i != si {
                    assert(b1[current_i as int] is Some);
                }
            }
            let ghost b2 = backrefs@;
            relax(stop2_road.dst_i.0, bref, heuristic, backrefs, discovered, queue, times, next_rank,
                Ghost(self), Ghost(p), Ghost(si), Ghost(st), Ghost(ni));
            proof {
                if current_i != si {
                    assert(b2[current_i as int] is Some);
                }
            }
            c = c + 1;
        }
    }
}

impl Graph {
    /// Relaxes every walk and ride that leaves `current_i`, reached at
    /// `current_time`.
    fn expand_from(
        &self,
        profile: ProfileID,
        current_i: usize,
        current_time: u64,
        heuristic: &Vec<u64>,
        backrefs: &mut Vec<Option<Backreference>>,
        discovered: &mut Vec<bool>,
        queue: &mut Vec<PriorityQueueItem<u64, usize>>,
        times: &mut Vec<u64>,
        next_rank: &mut usize,
        Ghost(si): Ghost<int>,
        Ghost(st): Ghost<int>,
    )
        requires
            self.wf(),
            profile.0 < self.num_profiles(),
            current_i < self.intersections@.len(),
            search_ok(self, profile.0 as int, si, st, self.intersections@.len() as int, old(backrefs)@, old(discovered)@, old(queue)@, old(times)@, *old(next_rank) as int),
            current_ok(old(backrefs)@, current_i as int, current_time as int, si, st),
        ensures
            search_ok(self, profile.0 as int, si, st, self.intersections@.len() as int, final(backrefs)@, final(discovered)@, final(queue)@, final(times)@, *final(next_rank) as int),
            count_unvisited(final(discovered)@) + final(queue)@.len() <= count_unvisited(old(discovered)@) + old(queue)@.len(),
    {
        let ghost p = profile.0 as int;
        let ni = self.intersections.len();
        let ghost budget = count_unvisited(discovered@) + queue@.len();
        let roads = &self.intersections[current_i].roads;
        let mut a: usize = 0;
        while a < roads.len()
            invariant
                self.wf(),
                p == profile.0,
                profile.0 < self.num_profiles(),
                ni == self.intersections@.len(),
                current_i < ni,
                roads@ == self.intersections@[current_i as int].roads@,
                a <= roads@.len(),
                search_ok(self, p, si, st, ni as int, backrefs@, discovered@, queue@, times@, *next_rank as int),
                current_ok(backrefs@, current_i as int, current_time as int, si, st),
                count_unvisited(discovered@) + queue@.len() <= budget,
            decreases roads@.len() - a,
        {
            let r = roads[a];
            assert(intersection_wf(&self.intersections@[current_i as int], current_i as int, self.roads@));
            assert(self.intersections@[current_i as int].roads@[a as int] == r);
            let road = &self.roads[r.0];
            assert(road_wf(&self.roads@[r.0 as int], r.0 as int, self.intersections@.len(), self.num_profiles(), self.gtfs.stops@.len()));
            match current_time.checked_add(road.cost[profile.0] as u64) {
                None => {},
                Some(total_cost) => {
                    let mut next: Option<(usize, bool)> = None;
                    if road.src_i.0 == current_i && road.allows_forwards(profile) {
                        next = Some((road.dst_i.0, true));
                    } else if road.dst_i.0 == current_i && road.allows_backwards(profile) {
                        next = Some((road.src_i.0, false));
                    }
                    if let Some((to, forwards)) = next {
                        let b = Backreference {
                            src_i: IntersectionID(current_i),
                            step: PathStep::Road { road: r, forwards },
                            time1: current_time,
                            time2: total_cost,
                            rank: 0,
                        };
                        relax(to, b, heuristic, backrefs, discovered, queue, times, next_rank,
                            Ghost(self), Ghost(p), Ghost(si), Ghost(st), Ghost(ni as int));
                    }
                },
            }
            let mut b: usize = 0;
            while b < road.stops.len()
                invariant
                    self.wf(),
                    p == profile.0,
                    ni == self.intersections@.len(),
                    current_i < ni,
                    r.0 < self.roads@.len(),
                    road == &self.roads@[r.0 as int],
                    road.src_i.0 == current_i || road.dst_i.0 == current_i,
                    b <= road.stops@.len(),
                    profile.0 < self.num_profiles(),
                    search_ok(self, p, si, st, ni as int, backrefs@, discovered@, queue@, times@, *next_rank as int),
                    current_ok(backrefs@, current_i as int, current_time as int, si, st),
                    count_unvisited(discovered@) + queue@.len() <= budget,
                decreases road.stops@.len() - b,
            {
                let stop1 = road.stops[b];
                self.ride_from(stop1, r, current_i, current_time, heuristic, backrefs, discovered,
                    queue, times, next_rank, Ghost(p), Ghost(si), Ghost(st), Ghost(b as int));
                b = b + 1;
            }
            a = a + 1;
        }
    }
}

/// Records how `i` was first reached.
fn record(
    backrefs: &mut Vec<Option<Backreference>>,
    discovered: &mut Vec<bool>,
    i: usize,
    b: Backreference,
    Ghost(g): Ghost<&Graph>,
    Ghost(p): Ghost<int>,
    Ghost(si): Ghost<int>,
    Ghost(st): Ghost<int>,
)
    requires
        i < old(backrefs)@.len(),
        old(backrefs)@[i as int] is None,
        backrefs_timed(old(backrefs)@, si, st),
        st <= b.time1 <= b.time2,
        b.src_i.0 != si ==> (old(backrefs)@[b.src_i.0 as int] is Some && old(backrefs)@[b.src_i.0 as int]->0.time2 <= b.time1),
        discovered_matches(old(discovered)@, old(backrefs)@),
        backrefs_ok(g, p, old(backrefs)@),
        leg_ok(g, p, backref_leg(b), i as int),
        b.src_i.0 < old(backrefs)@.len(),
    ensures
        final(backrefs)@ == old(backrefs)@.update(i as int, Some(b)),
        final(discovered)@ == old(discovered)@.update(i as int, true),
        discovered_matches(final(discovered)@, final(backrefs)@),
        backrefs_ok(g, p, final(backrefs)@),
        backrefs_timed(final(backrefs)@, si, st),
{
    backrefs.set(i, Some(b));
    discovered.set(i, true);
}

proof fn lemma_queue_timed_push(
    queue: Seq<PriorityQueueItem<u64, usize>>,
    times: Seq<u64>,
    old_backrefs: Seq<Option<Backreference>>,
    backrefs: Seq<Option<Backreference>>,
    i: int,
    b: Backreference,
    item: PriorityQueueItem<u64, usize>,
    si: int,
    st: int,
)
    requires
        queue_timed(queue, times, old_backrefs, si, st),
        0 <= i < old_backrefs.len(),
        old_backrefs[i] is None,
        backrefs == old_backrefs.update(i, Some(b)),
        item.value == i,
        st <= b.time2,
        queue.len() == times.len(),
    ensures
        queue_timed(queue.push(item), times.push(b.time2), backrefs, si, st),
{
    let q2 = queue.push(item);
    let t2 = times.push(b.time2);
    assert forall|q: int| 0 <= q < q2.len() implies {
        &&& st <= #[trigger] t2[q]
        &&& q2[q].value != si ==> {
            &&& q2[q].value < backrefs.len()
            &&& backrefs[q2[q].value as int] is Some
            &&& backrefs[q2[q].value as int]->0.time2 == t2[q]
        }
    } by {
        if q < queue.len() {
            assert(q2[q] == queue[q]);
            assert(t2[q] == times[q]);
            assert(st <= times[q]);
            if queue[q].value != si {
                assert(queue[q].value != i);
            }
        }
    }
}

/// Pops the first item of a search's queue: an intersection, and the time at
/// which it was first reached.
fn pop_next(
    queue: &mut Vec<PriorityQueueItem<u64, usize>>,
    times: &mut Vec<u64>,
    Ghost(g): Ghost<&Graph>,
    Ghost(p): Ghost<int>,
    Ghost(si): Ghost<int>,
    Ghost(st): Ghost<int>,
    Ghost(ni): Ghost<int>,
    Ghost(backrefs): Ghost<Seq<Option<Backreference>>>,
    Ghost(discovered): Ghost<Seq<bool>>,
    Ghost(nr): Ghost<int>,
) -> (r: (usize, u64))
    requires
        old(queue)@.len() > 0,
        search_ok(g, p, si, st, ni, backrefs, discovered, old(queue)@, old(times)@, nr),
    ensures
        search_ok(g, p, si, st, ni, backrefs, discovered, final(queue)@, final(times)@, nr),
        final(queue)@.len() == old(queue)@.len() - 1,
        r.0 < ni,
        current_ok(backrefs, r.0 as int, r.1 as int, si, st),
{
    let ghost before = queue@;
    let ghost times_before = times@;
    let current = pop_min_with(queue, times);
    proof {
        let k = choose|k: int| 0 <= k < before.len() && before[k].value == current.0
            && queue@ == before.remove(k) && times_before[k] == current.1
            && times@ == times_before.remove(k);
        assert(st <= times_before[k]);
        assert(before[k].value < ni);
        assert forall|q: int| 0 <= q < queue@.len() implies {
            &&& st <= #[trigger] times@[q]
            &&& queue@[q].value != si ==> {
                &&& queue@[q].value < backrefs.len()
                &&& backrefs[queue@[q].value as int] is Some
                &&& backrefs[queue@[q].value as int]->0.time2 == times@[q]
            }
        } by {
            if q < k {
                assert(times@[q] == times_before[q]);
                assert(queue@[q] == before[q]);
            } else {
                assert(times@[q] == times_before[q + 1]);
                assert(queue@[q] == before[q + 1]);
            }
        }
        assert forall|q: int| 0 <= q < queue@.len() implies (#[trigger] queue@[q]).value < ni by {
            if q < k {
                assert(queue@[q] == before[q]);
            } else {
                assert(queue@[q] == before[q + 1]);
            }
        }
    }
    current
}

/// Pops the first item of the queue, with the time stored beside it.
fn pop_min_with(queue: &mut Vec<PriorityQueueItem<u64, usize>>, times: &mut Vec<u64>) -> (r: (usize, u64))
    requires
        old(queue)@.len() > 0,
        old(queue)@.len() == old(times)@.len(),
    ensures
        final(queue)@.len() == old(queue)@.len() - 1,
        final(queue)@.len() == final(times)@.len(),
        exists|k: int| 0 <= k < old(queue)@.len() && old(queue)@[k].value == r.0
            && final(queue)@ == old(queue)@.remove(k) && old(times)@[k] == r.1
            && final(times)@ == old(times)@.remove(k),
{
    let mut best: usize = 0;
    let mut k: usize = 1;
    while k < queue.len()
        invariant
            queue@ == old(queue)@,
            queue@.len() > 0,
            best < queue@.len(),
            1 <= k <= queue@.len(),
        decreases queue@.len() - k,
    {
        let a = queue[k];
        let b = queue[best];
        if a.cost < b.cost || (a.cost == b.cost && a.value > b.value) {
            best = k;
        }
        k = k + 1;
    }
    let item = queue.remove(best);
    let t = times.remove(best);
    (item.value, t)
}

/// Walks the back-references from `end` to `start`, giving the legs in order.
fn unwind(
    backrefs: &Vec<Option<Backreference>>,
    start: usize,
    end: usize,
    Ghost(g): Ghost<&Graph>,
    Ghost(p): Ghost<int>,
    Ghost(st): Ghost<int>,
) -> (r: Result<Vec<Leg>, GraphError>)
    requires
        backrefs_ok(g, p, backrefs@),
        backrefs_timed(backrefs@, start as int, st),
        end < backrefs@.len(),
        start != end,
        backrefs@[end as int] is Some,
        forall|i: int| 0 <= i < backrefs@.len() && (#[trigger] backrefs@[i]) is Some ==> {
            &&& backrefs@[i]->0.rank < backrefs@.len()
            &&& backrefs@[i]->0.src_i.0 != start ==> backrefs@[backrefs@[i]->0.src_i.0 as int]->0.rank < backrefs@[i]->0.rank
        },
    ensures
        r is Ok,
        r matches Ok(legs) ==> legs_chain(g, p, legs@, start as int, end as int),
        r matches Ok(legs) ==> legs_timed(legs@, st),
{
    let mut rev: Vec<Leg> = Vec::new();
    let mut at: usize = end;
    let mut fuel: usize = backrefs.len();
    while at != start
        invariant
            backrefs_ok(g, p, backrefs@),
            at < backrefs@.len(),
            rev@.len() == 0 ==> at == end,
            rev@.len() > 0 ==> rev@[0].from.0 < backrefs@.len() && leg_ok(g, p, rev@[0], end as int),
            rev@.len() > 0 ==> rev@.last().from.0 == at,
            forall|k: int| 0 < k < rev@.len() ==> leg_ok(g, p, #[trigger] rev@[k], rev@[k - 1].from.0 as int),
            backrefs_timed(backrefs@, start as int, st),
            forall|k: int| 0 <= k < rev@.len() ==> st <= (#[trigger] rev@[k]).time1 <= rev@[k].time2,
            forall|k: int| 0 < k < rev@.len() ==> (#[trigger] rev@[k]).time2 <= rev@[k - 1].time1,
            rev@.len() > 0 && at != start ==> backrefs@[at as int] is Some && backrefs@[at as int]->0.time2 <= rev@.last().time1,
            at != start ==> backrefs@[at as int] is Some && backrefs@[at as int]->0.rank < fuel,
            fuel <= backrefs@.len(),
            forall|i: int| 0 <= i < backrefs@.len() && (#[trigger] backrefs@[i]) is Some ==> {
                &&& backrefs@[i]->0.rank < backrefs@.len()
                &&& backrefs@[i]->0.src_i.0 != start ==> backrefs@[backrefs@[i]->0.src_i.0 as int]->0.rank < backrefs@[i]->0.rank
            },
        decreases fuel,
    {
        if fuel == 0 {
            return Err(GraphError::NoPath);
        }
        fuel = fuel - 1;
        let b = match backrefs[at] {
            None => { return Err(GraphError::NoPath); },
            Some(b) => b,
        };
        let leg = Leg { from: b.src_i, step: b.step, time1: b.time1, time2: b.time2 };
        assert(leg == backref_leg(backrefs@[at as int]->0));
        proof {
            if b.src_i.0 != start {
                assert(backrefs_timed(backrefs@, start as int, st));
            }
        }
        let ghost rev0 = rev@;
        rev.push(leg);
        proof {
            assert forall|k: int| 0 < k < rev@.len() implies (#[trigger] rev@[k]).time2 <= rev@[k - 1].time1 by {
                if k < rev0.len() {
                    assert(rev@[k] == rev0[k]);
                    assert(rev@[k - 1] == rev0[k - 1]);
                }
            }
        }
        at = b.src_i.0;
    }
    if rev.len() == 0 {
        return Err(GraphError::NoPath);
    }
    let mut legs: Vec<Leg> = Vec::new();
    let mut k: usize = rev.len();
    let ghost n = rev@.len();
    while k > 0
        invariant
            k <= n,
            n == rev@.len(),
            n > 0,
            legs@.len() == n - k,
            forall|j: int| 0 <= j < legs@.len() ==> #[trigger] legs@[j] == rev@[n - 1 - j],
            forall|j: int| 0 <= j < n ==> st <= (#[trigger] rev@[j]).time1 <= rev@[j].time2,
            forall|j: int| 0 < j < n ==> (#[trigger] rev@[j]).time2 <= rev@[j - 1].time1,
        decreases k,
    {
        k = k - 1;
        legs.push(rev[k]);
    }
    proof {
        assert forall|j: int| 0 <= j < legs@.len() - 1 implies leg_ok(g, p, #[trigger] legs@[j], legs@[j + 1].from.0 as int) by {
            assert(legs@[j] == rev@[n - 1 - j]);
            assert(legs@[j + 1] == rev@[n - 1 - (j + 1)]);
        }
        assert(legs@.last() == rev@[0]);
        assert forall|j: int| 0 <= j < legs@.len() - 1 implies (#[trigger] legs@[j]).time2 <= legs@[j + 1].time1 by {
            assert(legs@[j] == rev@[n - 1 - j]);
            assert(legs@[j + 1] == rev@[n - 1 - (j + 1)]);
        }
        assert forall|j: int| 0 <= j < legs@.len() implies (#[trigger] legs@[j]).time1 <= legs@[j].time2 by {
            assert(legs@[j] == rev@[n - 1 - j]);
        }
        assert(legs@[0] == rev@[n - 1]);
    }
    Ok(legs)
}

} // verus!
