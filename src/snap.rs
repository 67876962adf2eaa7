//! Greedy snapping of a polyline onto the graph. The geometry is measured
//! outside: for each intersection, where along the input polyline its
//! closest point lies (in millionths of the input's length) and how far that
//! point is from it (in centimetres). The walk is decided here.
use vstd::prelude::*;
use crate::graph::{intersection_wf, Graph};
use crate::ids::{GraphError, PathStep, Position};
use crate::route::{road_step, Route};

verus! {

/// Where along the input polyline an intersection's closest point lies, and
/// how far it is from the intersection; `None` where that is undefined.
pub type Located = Option<(u32, u64)>;

/// Leaving intersection `cur` along road `r`: the other end and the step, or
/// `None` for a loop.
pub open spec fn next_step_along(g: &Graph, cur: int, r: crate::ids::RoadID) -> Option<(int, PathStep)> {
    let road = g.roads@[r.0 as int];
    if road.src_i.0 != cur {
        Some((road.src_i.0 as int, road_step(r, false)))
    } else if road.dst_i.0 != cur {
        Some((road.dst_i.0 as int, road_step(r, true)))
    } else {
        None
    }
}

/// Among the first `k` roads of `rs` at `cur`, the candidate that lies
/// furthest along nothing but beyond `frac` on the input and closest to it;
/// the first one on ties.
pub open spec fn best_upto(
    g: &Graph,
    locate: Seq<Located>,
    cur: int,
    frac: int,
    rs: Seq<crate::ids::RoadID>,
    k: int,
) -> Option<(int, PathStep, u32, u64)>
    decreases k,
{
    if k <= 0 {
        None
    } else {
        let prev = best_upto(g, locate, cur, frac, rs, k - 1);
        match next_step_along(g, cur, rs[k - 1]) {
            None => prev,
            Some((i, step)) => if 0 <= i < locate.len() && locate[i] is Some && (locate[i]->0).0 > frac {
                let (t, d) = locate[i]->0;
                match prev {
                    None => Some((i, step, t, d)),
                    Some(b) => if d < b.3 {
                        Some((i, step, t, d))
                    } else {
                        prev
                    },
                }
            } else {
                prev
            },
        }
    }
}

/// The best next step from `cur` having reached `frac` along the input.
pub open spec fn best_next(g: &Graph, locate: Seq<Located>, cur: int, frac: int) -> Option<(int, PathStep, u32, u64)> {
    let rs = g.intersections@[cur].roads@;
    best_upto(g, locate, cur, frac, rs, rs.len() as int)
}

/// The steps of the greedy walk from `cur`, having reached `frac` along the
/// input, to `end_i`; `None` where it gets stuck.
pub open spec fn greedy_steps(g: &Graph, locate: Seq<Located>, cur: int, frac: int, end_i: int) -> Option<Seq<PathStep>>
    decreases u32::MAX - frac,
{
    if cur == end_i {
        Some(Seq::empty())
    } else if !(0 <= cur < g.intersections@.len()) {
        None
    } else {
        match best_next(g, locate, cur, frac) {
            None => None,
            Some((i, step, t, _)) => if frac < t <= u32::MAX {
                match greedy_steps(g, locate, i, t as int, end_i) {
                    Some(rest) => Some(seq![step] + rest),
                    None => None,
                }
            } else {
                None
            },
        }
    }
}

/// The fractions along the input that a greedy walk reaches, one per step.
pub open spec fn greedy_fractions(g: &Graph, locate: Seq<Located>, cur: int, frac: int, end_i: int) -> Seq<int>
    decreases u32::MAX - frac,
{
    if cur == end_i || !(0 <= cur < g.intersections@.len()) {
        Seq::empty()
    } else {
        match best_next(g, locate, cur, frac) {
            None => Seq::empty(),
            Some((i, step, t, _)) => if frac < t <= u32::MAX {
                seq![t as int] + greedy_fractions(g, locate, i, t as int, end_i)
            } else {
                Seq::empty()
            },
        }
    }
}

/// A greedy snap never moves back along the input: the fractions it reaches,
/// one per step of the route, strictly increase from the starting fraction.
pub proof fn lemma_snap_never_retreats(g: &Graph, locate: Seq<Located>, cur: int, frac: int, end_i: int)
    requires
        greedy_steps(g, locate, cur, frac, end_i) is Some,
    ensures
        ({
            let fs = greedy_fractions(g, locate, cur, frac, end_i);
            &&& fs.len() == greedy_steps(g, locate, cur, frac, end_i)->0.len()
            &&& fs.len() > 0 ==> fs[0] > frac
            &&& forall|k: int| 0 <= k < fs.len() - 1 ==> #[trigger] fs[k] < fs[k + 1]
        }),
    decreases u32::MAX - frac,
{
    if cur != end_i && 0 <= cur < g.intersections@.len() {
        if let Some((i, step, t, _)) = best_next(g, locate, cur, frac) {
            if frac < t <= u32::MAX {
                lemma_snap_never_retreats(g, locate, i, t as int, end_i);
                let rest = greedy_fractions(g, locate, i, t as int, end_i);
                let fs = seq![t as int] + rest;
                assert forall|k: int| 0 <= k < fs.len() - 1 implies #[trigger] fs[k] < fs[k + 1] by {
                    if k > 0 {
                        assert(fs[k] == rest[k - 1]);
                        assert(fs[k + 1] == rest[k]);
                    }
                }
            }
        }
    }
}

proof fn lemma_best_upto_props(g: &Graph, locate: Seq<Located>, cur: int, frac: int, rs: Seq<crate::ids::RoadID>, k: int)
    ensures
        best_upto(g, locate, cur, frac, rs, k) matches Some(b) ==> b.2 > frac && 0 <= b.0 < locate.len()
            && locate[b.0] == Some((b.2, b.3)),
    decreases k,
{
    if k > 0 {
        lemma_best_upto_props(g, locate, cur, frac, rs, k - 1);
    }
}

impl Graph {
    /// Leaves `cur` along road `r`: the other end and the step, or `None`
    /// for a loop.
    fn next_step_from(&self, cur: usize, r: crate::ids::RoadID) -> (res: Option<(usize, PathStep)>)
        requires
            r.0 < self.roads@.len(),
        ensures
            match next_step_along(self, cur as int, r) {
                Some(c) => res matches Some(x) && x.0 == c.0 && x.1 == c.1,
                None => res is None,
            },
    {
        let road = &self.roads[r.0];
        if road.src_i.0 != cur {
            Some((road.src_i.0, PathStep::Road { road: r, forwards: false }))
        } else if road.dst_i.0 != cur {
            Some((road.dst_i.0, PathStep::Road { road: r, forwards: true }))
        } else {
            None
        }
    }

    /// Map-matches a polyline, given the snapped `start` and `end` and what
    /// `locate` says of each intersection: from the start's intersection,
    /// repeatedly moves to the neighbour whose closest point on the input is
    /// further along than the last one and nearest to it, until the end's
    /// intersection. Fails with `SnapStuck`, and no partial route, where no
    /// neighbour moves forward along the input.
    pub fn snap_route(&self, locate: &Vec<Located>, start: Position, end: Position) -> (r: Result<Route, GraphError>)
        requires
            self.wf(),
        ensures
            match greedy_steps(self, locate@, start.intersection.0 as int, 0, end.intersection.0 as int) {
                Some(s) => r matches Ok(route) && route.steps@ == s && route.start == start && route.end == end,
                None => r == Err::<Route, GraphError>(GraphError::SnapStuck),
            },
    {
        let ghost whole = greedy_steps(self, locate@, start.intersection.0 as int, 0, end.intersection.0 as int);
        let mut current: usize = start.intersection.0;
        let mut fraction_along: u32 = 0;
        let mut steps: Vec<PathStep> = Vec::new();
        while current != end.intersection.0
            invariant
                self.wf(),
                whole == greedy_steps(self, locate@, start.intersection.0 as int, 0, end.intersection.0 as int),
                whole == match greedy_steps(self, locate@, current as int, fraction_along as int, end.intersection.0 as int) {
                    Some(rest) => Some(steps@ + rest),
                    None => None::<Seq<PathStep>>,
                },
            decreases u32::MAX - fraction_along,
        {
            if current >= self.intersections.len() {
                return Err(GraphError::SnapStuck);
            }
            let roads = &self.intersections[current].roads;
            let mut best: Option<(usize, PathStep, u32, u64)> = None;
            let mut k: usize = 0;
            while k < roads.len()
                invariant
                    self.wf(),
                    current < self.intersections@.len(),
                    roads@ == self.intersections@[current as int].roads@,
                    k <= roads@.len(),
                    match best_upto(self, locate@, current as int, fraction_along as int, roads@, k as int) {
                        Some(b) => best matches Some(x) && x.0 == b.0 && x.1 == b.1 && x.2 == b.2 && x.3 == b.3,
                        None => best is None,
                    },
                decreases roads@.len() - k,
            {
                let r = roads[k];
                assert(intersection_wf(&self.intersections@[current as int], current as int, self.roads@));
                assert(self.intersections@[current as int].roads@[k as int] == r);
                match self.next_step_from(current, r) {
                    None => {},
                    Some((i, step)) => {
                        if i < locate.len() {
                            match locate[i] {
                                Some((t, d)) => {
                                    if t > fraction_along {
                                        match best {
                                            None => { best = Some((i, step, t, d)); },
                                            Some((_, _, _, bd)) => {
                                                if d < bd {
                                                    best = Some((i, step, t, d));
                                                }
                                            },
                                        }
                                    }
                                },
                                None => {},
                            }
                        }
                    },
                }
                k = k + 1;
            }
            proof {
                lemma_best_upto_props(self, locate@, current as int, fraction_along as int, roads@, roads@.len() as int);
            }
            match best {
                None => {
                    return Err(GraphError::SnapStuck);
                },
                Some((i, step, t, _)) => {
                    proof {
                        let rest = greedy_steps(self, locate@, i as int, t as int, end.intersection.0 as int);
                        if rest is Some {
                            assert(steps@.push(step) + rest->0 =~= steps@ + (seq![step] + rest->0));
                        }
                    }
                    steps.push(step);
                    current = i;
                    fraction_along = t;
                },
            }
        }
        proof {
            assert(steps@ + Seq::<PathStep>::empty() =~= steps@);
        }
        Ok(Route { start, end, steps })
    }
}

} // verus!
