//! The unified network: roads between intersections, with per-profile access
//! and costs, the transit schedule, and one router per profile.
use vstd::prelude::*;
use crate::gtfs::{sorted_by_departure, GtfsModel, StopID};
use crate::ids::{str_eq, Direction, GraphError, IntersectionID, Position, ProfileID, RoadID, FRACTION_HALF};
use crate::route::Router;

verus! {

broadcast use vstd::seq_lib::group_to_multiset_ensures;

/// An edge going between exactly two intersections.
pub struct Road {
    pub id: RoadID,
    pub src_i: IntersectionID,
    pub dst_i: IntersectionID,
    pub way: i64,
    pub node1: i64,
    pub node2: i64,
    pub osm_tags: Vec<(String, String)>,
    /// Per profile, in which direction this road can be crossed.
    pub access: Vec<Direction>,
    /// Per profile, milliseconds to cross this road in an allowed direction.
    pub cost: Vec<u32>,
    /// The transit stops associated with this road.
    pub stops: Vec<StopID>,
}

/// An intersection between one or more roads. This might be a dead end.
pub struct Intersection {
    pub id: IntersectionID,
    pub node: i64,
    /// The incident roads, clockwise from north.
    pub roads: Vec<RoadID>,
}

/// A study area: roads, intersections, profiles, and transit.
pub struct Graph {
    pub roads: Vec<Road>,
    pub intersections: Vec<Intersection>,
    /// The name of each profile, indexed by `ProfileID`.
    pub profile_names: Vec<String>,
    pub walking_profile_for_transit: Option<ProfileID>,
    /// Per profile
    pub routers: Vec<Router>,
    pub gtfs: GtfsModel,
}

impl Road {
    /// Can this profile cross this road in the forwards direction?
    pub fn allows_forwards(&self, profile: ProfileID) -> (r: bool)
        requires
            profile.0 < self.access@.len(),
        ensures
            r == self.access@[profile.0 as int].spec_forwards(),
    {
        match self.access[profile.0] {
            Direction::Forwards | Direction::Both => true,
            _ => false,
        }
    }

    /// Can this profile cross this road in the backwards direction?
    pub fn allows_backwards(&self, profile: ProfileID) -> (r: bool)
        requires
            profile.0 < self.access@.len(),
        ensures
            r == self.access@[profile.0 as int].spec_backwards(),
    {
        match self.access[profile.0] {
            Direction::Backwards | Direction::Both => true,
            _ => false,
        }
    }
}

/// The road at `r` is consistent with a graph of `ni` intersections,
/// `np` profiles and `ns` stops.
pub open spec fn road_wf(road: &Road, r: int, ni: nat, np: nat, ns: nat) -> bool {
    &&& road.id.0 == r
    &&& road.src_i.0 < ni
    &&& road.dst_i.0 < ni
    &&& road.access@.len() == np
    &&& road.cost@.len() == np
    &&& forall|k: int| 0 <= k < road.stops@.len() ==> (#[trigger] road.stops@[k]).0 < ns
}

/// The intersection at `i` only lists existing roads that end at it.
pub open spec fn intersection_wf(inter: &Intersection, i: int, roads: Seq<Road>) -> bool {
    &&& inter.id.0 == i
    &&& forall|k: int| 0 <= k < inter.roads@.len() ==> {
        let r = (#[trigger] inter.roads@[k]).0;
        &&& r < roads.len()
        &&& (roads[r as int].src_i.0 == i || roads[r as int].dst_i.0 == i)
    }
}

/// Some tag has key `k`.
pub open spec fn has_tag(tags: Seq<(String, String)>, k: Seq<char>) -> bool {
    exists|i: int| 0 <= i < tags.len() && (#[trigger] tags[i]).0@ == k
}

/// Some tag has key `k` and value `v`.
pub open spec fn tag_is(tags: Seq<(String, String)>, k: Seq<char>, v: Seq<char>) -> bool {
    exists|i: int| 0 <= i < tags.len() && (#[trigger] tags[i]).0@ == k && tags[i].1@ == v
}

/// An OSM way becomes roads when it is a highway that is not merely
/// proposed and not an area, and some profile may cross it.
pub open spec fn spec_accept_way(tags: Seq<(String, String)>, access: Seq<Direction>) -> bool {
    &&& has_tag(tags, "highway"@)
    &&& !tag_is(tags, "highway"@, "proposed"@)
    &&& !tag_is(tags, "area"@, "yes"@)
    &&& exists|p: int| 0 <= p < access.len() && #[trigger] access[p] != Direction::Neither
}

/// Whether an OSM way with these tags, and these directions for each
/// profile, becomes roads.
pub fn accept_way(tags: &Vec<(String, String)>, access: &Vec<Direction>) -> (r: bool)
    ensures
        r == spec_accept_way(tags@, access@),
{
    proof {
        reveal_strlit("highway");
        reveal_strlit("proposed");
        reveal_strlit("area");
        reveal_strlit("yes");
    }
    let mut highway = false;
    let mut proposed = false;
    let mut area = false;
    let mut k: usize = 0;
    while k < tags.len()
        invariant
            k <= tags@.len(),
            highway == exists|i: int| 0 <= i < k && (#[trigger] tags@[i]).0@ == "highway"@,
            proposed == exists|i: int| 0 <= i < k && (#[trigger] tags@[i]).0@ == "highway"@ && tags@[i].1@ == "proposed"@,
            area == exists|i: int| 0 <= i < k && (#[trigger] tags@[i]).0@ == "area"@ && tags@[i].1@ == "yes"@,
        decreases tags@.len() - k,
    {
        let key = tags[k].0.as_str();
        let value = tags[k].1.as_str();
        if str_eq(key, "highway") {
            highway = true;
            if str_eq(value, "proposed") {
                proposed = true;
            }
        }
        if str_eq(key, "area") && str_eq(value, "yes") {
            area = true;
        }
        k = k + 1;
    }
    let mut any = false;
    let mut p: usize = 0;
    while p < access.len()
        invariant
            p <= access@.len(),
            any == exists|x: int| 0 <= x < p && #[trigger] access@[x] != Direction::Neither,
        decreases access@.len() - p,
    {
        if access[p] != Direction::Neither {
            any = true;
        }
        p = p + 1;
    }
    highway && !proposed && !area && any
}

/// Keyed roads are in non-decreasing order of key.
pub open spec fn sorted_by_key(s: Seq<(i64, RoadID)>) -> bool {
    forall|i: int, j: int| 0 <= i <= j < s.len() ==> s[i].0 <= s[j].0
}

/// Orders the roads at an intersection clockwise from north, given each
/// with a key that is its outbound bearing in fixed point; equal keys keep
/// their order.
pub fn sort_by_bearing(roads: Vec<(i64, RoadID)>) -> (r: Vec<(i64, RoadID)>)
    ensures
        sorted_by_key(r@),
        r@.to_multiset() == roads@.to_multiset(),
{
    let mut out: Vec<(i64, RoadID)> = Vec::new();
    let mut k: usize = 0;
    while k < roads.len()
        invariant
            k <= roads@.len(),
            sorted_by_key(out@),
            out@.to_multiset() == roads@.take(k as int).to_multiset(),
        decreases roads@.len() - k,
    {
        let x = roads[k];
        let mut pos: usize = out.len();
        let ghost out0 = out@;
        while pos > 0 && out[pos - 1].0 > x.0
            invariant
                out@ == out0,
                pos <= out@.len(),
                forall|j: int| pos <= j < out@.len() ==> out@[j].0 > x.0,
            decreases pos,
        {
            pos = pos - 1;
        }
        proof {
            vstd::seq_lib::to_multiset_insert(out@, pos as int, x);
            assert(roads@.take(k + 1) =~= roads@.take(k as int).push(x));
        }
        out.insert(pos, x);
        k = k + 1;
    }
    proof {
        assert(roads@.take(roads@.len() as int) =~= roads@);
    }
    out
}

/// Some profile may cross the road in some direction.
pub open spec fn some_access(road: &Road) -> bool {
    exists|p: int| 0 <= p < road.access@.len() && #[trigger] road.access@[p] != Direction::Neither
}

/// Road `r` is listed at intersection `i`.
pub open spec fn listed_at(intersections: Seq<Intersection>, i: int, r: int) -> bool {
    exists|k: int| 0 <= k < intersections[i].roads@.len() && #[trigger] intersections[i].roads@[k] == RoadID(r as usize)
}

/// Every road is listed at both of its ends.
pub open spec fn roads_listed_in(roads: Seq<Road>, intersections: Seq<Intersection>) -> bool {
    forall|r: int| 0 <= r < roads.len() ==> listed_at(intersections, (#[trigger] roads[r]).src_i.0 as int, r)
        && listed_at(intersections, roads[r].dst_i.0 as int, r)
}

/// Roads and intersections that a graph with `np` profiles and no transit
/// can be made of: dense identifiers, each road listed at both of its ends
/// and crossable by some profile, no intersection without roads.
pub open spec fn network_valid(roads: Seq<Road>, intersections: Seq<Intersection>, np: nat) -> bool {
    &&& roads.len() <= 0x7fff_ffff
    &&& forall|r: int| 0 <= r < roads.len() ==> road_wf(#[trigger] &roads[r], r, intersections.len(), np, 0)
    &&& forall|r: int| 0 <= r < roads.len() ==> some_access(#[trigger] &roads[r])
    &&& forall|i: int| 0 <= i < intersections.len() ==> intersection_wf(#[trigger] &intersections[i], i, roads)
    &&& forall|i: int| 0 <= i < intersections.len() ==> (#[trigger] intersections[i]).roads@.len() > 0
    &&& roads_listed_in(roads, intersections)
}

/// A transit schedule that can be attached to a graph of `nr` roads, with the
/// road that each stop snapped to.
pub open spec fn gtfs_valid(gtfs: &GtfsModel, stop_roads: Seq<Option<RoadID>>, nr: nat) -> bool {
    &&& stop_roads.len() == gtfs.stops@.len()
    &&& forall|s: int| 0 <= s < stop_roads.len() ==> match #[trigger] stop_roads[s] {
        Some(r) => r.0 < nr,
        None => nr > 0,
    }
    &&& forall|s: int| 0 <= s < gtfs.stops@.len() ==> {
        &&& sorted_by_departure(#[trigger] gtfs.stops@[s].next_steps@)
        &&& forall|k: int| 0 <= k < gtfs.stops@[s].next_steps@.len() ==> {
            &&& (#[trigger] gtfs.stops@[s].next_steps@[k]).stop2.0 < gtfs.stops@.len()
            &&& gtfs.stops@[s].next_steps@[k].time1 <= gtfs.stops@[s].next_steps@[k].time2
        }
    }
}

/// The stops among the first `n` that snapped to road `r`, in order.
pub open spec fn snapped_to(stop_roads: Seq<Option<RoadID>>, r: int, n: int) -> Seq<StopID>
    decreases n,
{
    if n <= 0 {
        Seq::empty()
    } else if stop_roads[n - 1] == Some(RoadID(r as usize)) {
        snapped_to(stop_roads, r, n - 1).push(StopID((n - 1) as usize))
    } else {
        snapped_to(stop_roads, r, n - 1)
    }
}

impl Graph {
    /// Makes a graph from lifted roads and intersections and a list of
    /// profile names (each road holding an access and a cost per profile),
    /// building one router per profile. Fails with `InputParse` where the
    /// pieces do not fit together.
    pub fn new(roads: Vec<Road>, intersections: Vec<Intersection>, profile_names: Vec<String>) -> (r: Result<Graph, GraphError>)
        ensures
            r is Ok <==> network_valid(roads@, intersections@, profile_names@.len()),
            r matches Err(e) ==> e == GraphError::InputParse,
            r matches Ok(g) ==> {
                &&& g.wf()
                &&& g.roads@ == roads@
                &&& g.intersections@ == intersections@
                &&& g.profile_names@ == profile_names@
                &&& g.walking_profile_for_transit is None
                &&& g.gtfs.stops@.len() == 0
            },
    {
        let np = profile_names.len();
        let ni = intersections.len();
        let nr = roads.len();
        let mut k: usize = 0;
        while k < nr
            invariant
                nr == roads@.len(),
                ni == intersections@.len(),
                np == profile_names@.len(),
                k <= nr,
                forall|q: int| 0 <= q < k ==> road_wf(#[trigger] &roads@[q], q, ni as nat, np as nat, 0),
            decreases nr - k,
        {
            let road = &roads[k];
            if road.id.0 != k || road.src_i.0 >= ni || road.dst_i.0 >= ni || road.access.len() != np
                || road.cost.len() != np || road.stops.len() != 0 {
                proof {
                    if road.stops@.len() != 0 {
                        assert(road.stops@[0].0 >= 0);
                    }
                    assert(!road_wf(&roads@[k as int], k as int, ni as nat, np as nat, 0));
                }
                return Err(GraphError::InputParse);
            }
            k = k + 1;
        }
        let mut i: usize = 0;
        while i < ni
            invariant
                nr == roads@.len(),
                ni == intersections@.len(),
                i <= ni,
                forall|q: int| 0 <= q < i ==> intersection_wf(#[trigger] &intersections@[q], q, roads@),
            decreases ni - i,
        {
            let inter = &intersections[i];
            if inter.id.0 != i {
                assert(!intersection_wf(&intersections@[i as int], i as int, roads@));
                return Err(GraphError::InputParse);
            }
            let mut j: usize = 0;
            while j < inter.roads.len()
                invariant
                    nr == roads@.len(),
                    ni == intersections@.len(),
                    i < ni,
                    inter == &intersections@[i as int],
                    inter.id.0 == i,
                    j <= inter.roads@.len(),
                    forall|q: int| 0 <= q < j ==> {
                        let r = (#[trigger] inter.roads@[q]).0;
                        &&& r < roads@.len()
                        &&& (roads@[r as int].src_i.0 == i || roads@[r as int].dst_i.0 == i)
                    },
                decreases inter.roads@.len() - j,
            {
                let r = inter.roads[j].0;
                if r >= nr || (roads[r].src_i.0 != i && roads[r].dst_i.0 != i) {
                    assert(inter.roads@[j as int].0 == r);
                    assert(!intersection_wf(&intersections@[i as int], i as int, roads@));
                    return Err(GraphError::InputParse);
                }
                j = j + 1;
            }
            i = i + 1;
        }
        if nr > 0x7fff_ffff || !check_listing(&roads, &intersections) {
            return Err(GraphError::InputParse);
        }
        let mut routers: Vec<Router> = Vec::new();
        let mut p: usize = 0;
        while p < np
            invariant
                np == profile_names@.len(),
                nr == roads@.len(),
                ni == intersections@.len(),
                p <= np,
                routers@.len() == p,
                forall|q: int| 0 <= q < nr ==> road_wf(#[trigger] &roads@[q], q, ni as nat, np as nat, 0),
                nr <= 0x7fff_ffff,
                forall|q: int| 0 <= q < p ==> (#[trigger] routers@[q]).profile().0 == q
                    && routers@[q].wf()
                    && crate::ch::keeps_lightest(routers@[q].input_edges(), crate::route::kept_edges(crate::route::spec_profile_edges(roads@, q))),
            decreases np - p,
        {
            assert(crate::route::roads_have_profile(roads@, ProfileID(p))) by {
                assert forall|q: int| 0 <= q < roads@.len() implies {
                    &&& ProfileID(p).0 < (#[trigger] roads@[q]).access@.len()
                    &&& ProfileID(p).0 < roads@[q].cost@.len()
                    &&& roads@[q].src_i.0 < usize::MAX
                    &&& roads@[q].dst_i.0 < usize::MAX
                } by {
                    assert(road_wf(&roads@[q], q, ni as nat, np as nat, 0));
                }
            }
            routers.push(Router::new(&roads, ProfileID(p)));
            p = p + 1;
        }
        Ok(Graph {
            roads,
            intersections,
            profile_names,
            walking_profile_for_transit: None,
            routers,
            gtfs: GtfsModel::empty(),
        })
    }

    /// The position at `fraction_along` of `road`, with the closer end:
    /// the source up to half way, else the destination.
    pub fn snap_to_road(&self, road: RoadID, fraction_along: u32) -> (r: Position)
        requires
            road.0 < self.roads@.len(),
        ensures
            r.road == road,
            r.fraction_along == fraction_along,
            r.intersection == if fraction_along <= FRACTION_HALF {
                self.roads@[road.0 as int].src_i
            } else {
                self.roads@[road.0 as int].dst_i
            },
    {
        let rd = &self.roads[road.0];
        let intersection = if fraction_along <= FRACTION_HALF { rd.src_i } else { rd.dst_i };
        Position { road, fraction_along, intersection }
    }

    /// Attaches a transit schedule, walked with `profile`, given the road
    /// that each stop snapped to (`None` for a stop that snapped to none,
    /// which keeps the first road as a placeholder and is listed on no
    /// road). This can happen once.
    pub fn setup_gtfs(&mut self, gtfs: GtfsModel, profile: ProfileID, stop_roads: Vec<Option<RoadID>>) -> (r: Result<(), GraphError>)
        requires
            old(self).wf(),
        ensures
            final(self).wf(),
            (old(self).walking_profile_for_transit is Some || old(self).gtfs.stops@.len() != 0) ==> r
                == Err::<(), GraphError>(GraphError::GtfsAlreadyConfigured),
            r is Ok <==> {
                &&& old(self).walking_profile_for_transit is None
                &&& old(self).gtfs.stops@.len() == 0
                &&& profile.0 < old(self).num_profiles()
                &&& gtfs_valid(&gtfs, stop_roads@, old(self).roads@.len())
            },
            r is Ok ==> {
                &&& final(self).walking_profile_for_transit == Some(profile)
                &&& final(self).gtfs.stops@.len() == gtfs.stops@.len()
                &&& forall|s: int| 0 <= s < stop_roads@.len() ==> ((#[trigger] stop_roads@[s]) matches Some(rd)
                    ==> final(self).gtfs.stops@[s].road == rd && final(self).roads@[rd.0 as int].stops@.contains(StopID(s as usize)))
                &&& final(self).roads@.len() == old(self).roads@.len()
                &&& forall|r: int| 0 <= r < final(self).roads@.len() ==> {
                    &&& (#[trigger] final(self).roads@[r]).id == old(self).roads@[r].id
                    &&& final(self).roads@[r].src_i == old(self).roads@[r].src_i
                    &&& final(self).roads@[r].dst_i == old(self).roads@[r].dst_i
                    &&& final(self).roads@[r].access@ == old(self).roads@[r].access@
                    &&& final(self).roads@[r].cost@ == old(self).roads@[r].cost@
                    &&& final(self).roads@[r].way == old(self).roads@[r].way
                    &&& final(self).roads@[r].osm_tags == old(self).roads@[r].osm_tags
                    &&& final(self).roads@[r].stops@ == snapped_to(stop_roads@, r, stop_roads@.len() as int)
                }
                &&& final(self).intersections == old(self).intersections
            },
            r is Err ==> *final(self) == *old(self),
    {
        if self.walking_profile_for_transit.is_some() || self.gtfs.stops.len() != 0 {
            return Err(GraphError::GtfsAlreadyConfigured);
        }
        if profile.0 >= self.profile_names.len() {
            return Err(GraphError::UnknownProfile);
        }
        if !check_gtfs(&gtfs, &stop_roads, self.roads.len()) {
            return Err(GraphError::InputParse);
        }
        let mut gtfs = gtfs;
        proof {
            assert forall|r: int| 0 <= r < self.roads@.len() implies (#[trigger] self.roads@[r]).stops@ == snapped_to(stop_roads@, r, 0) by {
                assert(road_wf(&self.roads@[r], r, self.intersections@.len(), self.num_profiles(), 0));
                if self.roads@[r].stops@.len() > 0 {
                    assert(self.roads@[r].stops@[0].0 < 0);
                }
                assert(self.roads@[r].stops@ =~= Seq::<StopID>::empty());
            }
        }
        let ns = gtfs.stops.len();
        let nr = self.roads.len();
        let ghost old_roads = self.roads@;
        let mut s: usize = 0;
        while s < ns
            invariant
                ns == gtfs.stops@.len(),
                nr == self.roads@.len(),
                s <= ns,
                gtfs_valid(&gtfs, stop_roads@, nr as nat),
                self.roads@.len() == old_roads.len(),
                old_roads == old(self).roads@,
                self.intersections == old(self).intersections,
                self.profile_names == old(self).profile_names,
                self.routers == old(self).routers,
                self.walking_profile_for_transit == old(self).walking_profile_for_transit,
                old(self).gtfs.stops@.len() == 0,
                old(self).wf(),
                forall|r: int| 0 <= r < nr ==> {
                    &&& (#[trigger] self.roads@[r]).id == old_roads[r].id
                    &&& self.roads@[r].src_i == old_roads[r].src_i
                    &&& self.roads@[r].dst_i == old_roads[r].dst_i
                    &&& self.roads@[r].access@ == old_roads[r].access@
                    &&& self.roads@[r].cost@ == old_roads[r].cost@
                    &&& self.roads@[r].way == old_roads[r].way
                    &&& self.roads@[r].node1 == old_roads[r].node1
                    &&& self.roads@[r].node2 == old_roads[r].node2
                    &&& self.roads@[r].osm_tags == old_roads[r].osm_tags
                    &&& self.roads@[r].stops@ == snapped_to(stop_roads@, r, s as int)
                },
                forall|r: int, k: int| 0 <= r < nr && 0 <= k < self.roads@[r].stops@.len() ==> {
                    &&& (#[trigger] self.roads@[r].stops@[k]).0 < s
                    &&& gtfs.stops@[self.roads@[r].stops@[k].0 as int].road.0 == r
                },
                forall|q: int| 0 <= q < s ==> ((#[trigger] stop_roads@[q]) matches Some(rd) ==> gtfs.stops@[q].road == rd
                    && self.roads@[rd.0 as int].stops@.contains(StopID(q as usize))),
                forall|q: int| 0 <= q < s ==> (#[trigger] gtfs.stops@[q]).road.0 < nr,
            decreases ns - s,
        {
            let ghost roads_before = self.roads@;
            let ghost gtfs_before = gtfs.stops@;
            match stop_roads[s] {
                Some(rd) => {
                    self.roads[rd.0].stops.push(StopID(s));
                    gtfs.stops[s].road = rd;
                    proof {
                        assert(self.roads@[rd.0 as int].stops@.last() == StopID(s));
                        assert forall|q: int| 0 <= q < s + 1 implies ((#[trigger] stop_roads@[q]) matches Some(rd2) ==> gtfs.stops@[q].road == rd2
                            && self.roads@[rd2.0 as int].stops@.contains(StopID(q as usize))) by {
                            if q < s {
                                if let Some(rd2) = stop_roads@[q] {
                                    let w = choose|w: int| 0 <= w < roads_before[rd2.0 as int].stops@.len() && roads_before[rd2.0 as int].stops@[w] == StopID(q as usize);
                                    assert(self.roads@[rd2.0 as int].stops@[w] == StopID(q as usize));
                                }
                            } else {
                                let w = self.roads@[rd.0 as int].stops@.len() - 1;
                                assert(self.roads@[rd.0 as int].stops@[w] == StopID(q as usize));
                            }
                        }
                        assert forall|r: int, k: int| 0 <= r < nr && 0 <= k < self.roads@[r].stops@.len() implies {
                            &&& (#[trigger] self.roads@[r].stops@[k]).0 < s + 1
                            &&& gtfs.stops@[self.roads@[r].stops@[k].0 as int].road.0 == r
                        } by {
                            if r != rd.0 || k < roads_before[r].stops@.len() {
                                assert(self.roads@[r].stops@[k] == roads_before[r].stops@[k]);
                            }
                        }
                    }
                },
                None => {
                    gtfs.stops[s].road = RoadID(0);
                },
            }
            proof {
                assert forall|q: int| 0 <= q < gtfs.stops@.len() implies (#[trigger] gtfs.stops@[q]).next_steps@ == gtfs_before[q].next_steps@ by {
                    if q != s {
                        assert(gtfs.stops@[q] == gtfs_before[q]);
                    }
                }
                assert(gtfs_valid(&gtfs, stop_roads@, nr as nat));
                assert forall|r: int| 0 <= r < nr implies (#[trigger] self.roads@[r]).stops@ == snapped_to(stop_roads@, r, s + 1) by {
                    if stop_roads@[s as int] != Some(RoadID(r as usize)) {
                        assert(self.roads@[r] == roads_before[r]);
                    }
                }
            }
            s = s + 1;
        }
        let ghost graph_before = *self;
        self.gtfs = gtfs;
        self.walking_profile_for_transit = Some(profile);
        proof {
            assert forall|r: int| 0 <= r < self.roads@.len() implies road_wf(
                #[trigger] &self.roads@[r], r, self.intersections@.len(), self.num_profiles(), self.gtfs.stops@.len()) by {
                assert(road_wf(&old(self).roads@[r], r, self.intersections@.len(), self.num_profiles(), 0));
            }
            assert forall|i: int| 0 <= i < self.intersections@.len() implies intersection_wf(
                #[trigger] &self.intersections@[i], i, self.roads@) by {
                assert(intersection_wf(&old(self).intersections@[i], i, old(self).roads@));
                assert forall|k: int| 0 <= k < self.intersections@[i].roads@.len() implies {
                    let r = (#[trigger] self.intersections@[i].roads@[k]).0;
                    &&& r < self.roads@.len()
                    &&& (self.roads@[r as int].src_i.0 == i || self.roads@[r as int].dst_i.0 == i)
                } by {
                    let r = self.intersections@[i].roads@[k].0;
                    assert(old(self).roads@[r as int].src_i == self.roads@[r as int].src_i);
                }
            }
            assert(self.gtfs_wf());
            assert(self.stops_on_roads());
            assert forall|r: int| 0 <= r < self.roads@.len() implies listed_at(self.intersections@, (#[trigger] self.roads@[r]).src_i.0 as int, r)
                && listed_at(self.intersections@, self.roads@[r].dst_i.0 as int, r) by {
                assert(old(self).roads_listed());
                assert(listed_at(old(self).intersections@, old(self).roads@[r].src_i.0 as int, r));
            }
            assert forall|p: int| 0 <= p < self.routers@.len() implies (#[trigger] self.routers@[p]).profile().0 == p
                && crate::route::router_fits(self, &self.routers@[p]) by {
                assert(crate::route::router_fits(old(self), &old(self).routers@[p]));
                crate::route::lemma_profile_edges_same(old(self).roads@, self.roads@, old(self).routers@[p].profile().0 as int, self.roads@.len() as int);
            }
        }
        Ok(())
    }
}

/// Checks that every road is listed at both of its ends and crossable by
/// some profile, and that every intersection has a road.
fn check_listing(roads: &Vec<Road>, intersections: &Vec<Intersection>) -> (r: bool)
    requires
        forall|q: int| 0 <= q < roads@.len() ==> (#[trigger] roads@[q]).src_i.0 < intersections@.len()
            && roads@[q].dst_i.0 < intersections@.len(),
    ensures
        r == (roads_listed_in(roads@, intersections@)
            && (forall|q: int| 0 <= q < roads@.len() ==> some_access(#[trigger] &roads@[q]))
            && (forall|i: int| 0 <= i < intersections@.len() ==> (#[trigger] intersections@[i]).roads@.len() > 0)),
{
    let mut i: usize = 0;
    while i < intersections.len()
        invariant
            i <= intersections@.len(),
            forall|j: int| 0 <= j < i ==> (#[trigger] intersections@[j]).roads@.len() > 0,
        decreases intersections@.len() - i,
    {
        if intersections[i].roads.len() == 0 {
            return false;
        }
        i = i + 1;
    }
    let mut r: usize = 0;
    while r < roads.len()
        invariant
            r <= roads@.len(),
            forall|q: int| 0 <= q < roads@.len() ==> (#[trigger] roads@[q]).src_i.0 < intersections@.len()
                && roads@[q].dst_i.0 < intersections@.len(),
            forall|j: int| 0 <= j < intersections@.len() ==> (#[trigger] intersections@[j]).roads@.len() > 0,
            forall|q: int| 0 <= q < r ==> listed_at(intersections@, (#[trigger] roads@[q]).src_i.0 as int, q)
                && listed_at(intersections@, roads@[q].dst_i.0 as int, q) && some_access(&roads@[q]),
        decreases roads@.len() - r,
    {
        let road = &roads[r];
        let mut any = false;
        let mut p: usize = 0;
        while p < road.access.len()
            invariant
                p <= road.access@.len(),
                any == exists|x: int| 0 <= x < p && #[trigger] road.access@[x] != Direction::Neither,
            decreases road.access@.len() - p,
        {
            if road.access[p] != Direction::Neither {
                any = true;
            }
            p = p + 1;
        }
        if !any {
            return false;
        }
        if !is_listed(intersections, road.src_i.0, r) || !is_listed(intersections, road.dst_i.0, r) {
            return false;
        }
        r = r + 1;
    }
    true
}

/// Whether road `r` is listed at intersection `i`.
fn is_listed(intersections: &Vec<Intersection>, i: usize, r: usize) -> (b: bool)
    requires
        i < intersections@.len(),
    ensures
        b == listed_at(intersections@, i as int, r as int),
{
    let rs = &intersections[i].roads;
    let mut k: usize = 0;
    while k < rs.len()
        invariant
            rs@ == intersections@[i as int].roads@,
            k <= rs@.len(),
            forall|j: int| 0 <= j < k ==> #[trigger] rs@[j] != RoadID(r),
        decreases rs@.len() - k,
    {
        if rs[k].0 == r {
            assert(rs@[k as int] == RoadID(r));
            return true;
        }
        k = k + 1;
    }
    false
}

/// Checks a transit schedule and the roads its stops snapped to.
fn check_gtfs(gtfs: &GtfsModel, stop_roads: &Vec<Option<RoadID>>, nr: usize) -> (r: bool)
    ensures
        r == gtfs_valid(gtfs, stop_roads@, nr as nat),
{
    let ns = gtfs.stops.len();
    if stop_roads.len() != ns {
        return false;
    }
    let mut s: usize = 0;
    while s < ns
        invariant
            ns == gtfs.stops@.len(),
            ns == stop_roads@.len(),
            s <= ns,
            forall|q: int| 0 <= q < s ==> match #[trigger] stop_roads@[q] {
                Some(r) => r.0 < nr,
                None => nr > 0,
            },
            forall|q: int| 0 <= q < s ==> {
                &&& sorted_by_departure(#[trigger] gtfs.stops@[q].next_steps@)
                &&& forall|k: int| 0 <= k < gtfs.stops@[q].next_steps@.len() ==> {
                    &&& (#[trigger] gtfs.stops@[q].next_steps@[k]).stop2.0 < ns
                    &&& gtfs.stops@[q].next_steps@[k].time1 <= gtfs.stops@[q].next_steps@[k].time2
                }
            },
        decreases ns - s,
    {
        match stop_roads[s] {
            Some(r) => { if r.0 >= nr { return false; } },
            None => { if nr == 0 { return false; } },
        }
        let steps = &gtfs.stops[s].next_steps;
        let mut k: usize = 0;
        while k < steps.len()
            invariant
                ns == gtfs.stops@.len(),
                s < ns,
                steps@ == gtfs.stops@[s as int].next_steps@,
                k <= steps@.len(),
                forall|a: int, b: int| 0 <= a <= b < k ==> steps@[a].time1 <= steps@[b].time1,
                forall|j: int| 0 <= j < k ==> {
                    &&& (#[trigger] steps@[j]).stop2.0 < ns
                    &&& steps@[j].time1 <= steps@[j].time2
                },
            decreases steps@.len() - k,
        {
            let x = steps[k];
            if x.stop2.0 >= ns || x.time1 > x.time2 {
                return false;
            }
            if k > 0 && steps[k - 1].time1 > x.time1 {
                return false;
            }
            k = k + 1;
        }
        s = s + 1;
    }
    true
}

impl Graph {
    pub open spec fn num_profiles(&self) -> nat {
        self.profile_names@.len()
    }

    /// The transit schedule refers only to existing stops, trips and roads,
    /// and each stop's departures are ordered by time.
    pub open spec fn gtfs_wf(&self) -> bool {
        &&& forall|s: int| 0 <= s < self.gtfs.stops@.len() ==> {
            &&& (#[trigger] self.gtfs.stops@[s]).road.0 < self.roads@.len()
            &&& sorted_by_departure(self.gtfs.stops@[s].next_steps@)
            &&& forall|k: int| 0 <= k < self.gtfs.stops@[s].next_steps@.len() ==> {
                &&& (#[trigger] self.gtfs.stops@[s].next_steps@[k]).stop2.0 < self.gtfs.stops@.len()
                &&& self.gtfs.stops@[s].next_steps@[k].time1 <= self.gtfs.stops@[s].next_steps@[k].time2
            }
        }
    }

    /// The graph's identifiers are dense and its cross-references valid.
    pub open spec fn wf(&self) -> bool {
        &&& forall|r: int| 0 <= r < self.roads@.len() ==> road_wf(
            #[trigger] &self.roads@[r],
            r,
            self.intersections@.len(),
            self.num_profiles(),
            self.gtfs.stops@.len(),
        )
        &&& forall|i: int| 0 <= i < self.intersections@.len() ==> intersection_wf(
            #[trigger] &self.intersections@[i],
            i,
            self.roads@,
        )
        &&& self.routers@.len() == self.num_profiles()
        &&& forall|p: int| 0 <= p < self.routers@.len() ==> (#[trigger] self.routers@[p]).wf()
        &&& self.walking_profile_for_transit matches Some(p) ==> p.0 < self.num_profiles()
        &&& self.gtfs_wf()
        &&& self.stops_on_roads()
        &&& self.roads_listed()
        &&& self.roads@.len() <= 0x7fff_ffff
        &&& forall|p: int| 0 <= p < self.routers@.len() ==> (#[trigger] self.routers@[p]).profile().0 == p
            && crate::route::router_fits(self, &self.routers@[p])
    }

    /// Every road is listed at both of its ends.
    pub open spec fn roads_listed(&self) -> bool {
        roads_listed_in(self.roads@, self.intersections@)
    }

    /// A stop listed on a road has that road as its own.
    pub open spec fn stops_on_roads(&self) -> bool {
        forall|r: int, k: int| 0 <= r < self.roads@.len() && 0 <= k < self.roads@[r].stops@.len()
            ==> self.gtfs.stops@[(#[trigger] self.roads@[r].stops@[k]).0 as int].road.0 == r
    }

    /// The first road at `i1`, in its listed order, whose other end or own
    /// end is `i2`.
    pub open spec fn spec_find_edge(&self, i1: int, i2: int) -> Option<RoadID> {
        find_edge_in(self.roads@, self.intersections@[i1].roads@, i2)
    }

    /// Finds the road going from `i1` to `i2` or back.
    pub fn find_edge(&self, i1: IntersectionID, i2: IntersectionID) -> (r: Option<RoadID>)
        requires
            self.wf(),
            i1.0 < self.intersections@.len(),
        ensures
            r == self.spec_find_edge(i1.0 as int, i2.0 as int),
            r matches Some(id) ==> id.0 < self.roads@.len(),
    {
        let roads = &self.intersections[i1.0].roads;
        let mut k: usize = 0;
        assert(roads@.subrange(0, roads@.len() as int) =~= roads@);
        while k < roads.len()
            invariant
                self.wf(),
                i1.0 < self.intersections@.len(),
                roads@ == self.intersections@[i1.0 as int].roads@,
                k <= roads@.len(),
                find_edge_in(self.roads@, roads@, i2.0 as int)
                    == find_edge_in(self.roads@, roads@.subrange(k as int, roads@.len() as int), i2.0 as int),
            decreases roads@.len() - k,
        {
            let r = roads[k];
            assert(intersection_wf(&self.intersections@[i1.0 as int], i1.0 as int, self.roads@));
            assert(r.0 < self.roads@.len());
            let road = &self.roads[r.0];
            assert(roads@.subrange(k as int, roads@.len() as int)[0] == r);
            if road.src_i == i2 || road.dst_i == i2 {
                return Some(r);
            }
            assert(roads@.subrange(k as int, roads@.len() as int).drop_first()
                =~= roads@.subrange(k + 1, roads@.len() as int));
            k = k + 1;
        }
        None
    }
}

/// The first road of `rs` that has `i2` as one of its ends.
pub open spec fn find_edge_in(roads: Seq<Road>, rs: Seq<RoadID>, i2: int) -> Option<RoadID>
    decreases rs.len(),
{
    if rs.len() == 0 {
        None
    } else if 0 <= rs[0].0 < roads.len() && (roads[rs[0].0 as int].src_i.0 == i2
        || roads[rs[0].0 as int].dst_i.0 == i2) {
        Some(rs[0])
    } else {
        find_edge_in(roads, rs.drop_first(), i2)
    }
}

/// In a well-formed graph, every road listed at an intersection has that
/// intersection as its source or its destination.
pub proof fn lemma_incident_roads_end_here(g: &Graph, i: int, k: int)
    requires
        g.wf(),
        0 <= i < g.intersections@.len(),
        0 <= k < g.intersections@[i].roads@.len(),
    ensures
        ({
            let r = g.intersections@[i].roads@[k].0 as int;
            &&& 0 <= r < g.roads@.len()
            &&& (g.roads@[r].src_i.0 == i || g.roads@[r].dst_i.0 == i)
        }),
{
    assert(intersection_wf(&g.intersections@[i], i, g.roads@));
}

pub proof fn lemma_find_edge_in_range(roads: Seq<Road>, rs: Seq<RoadID>, i2: int)
    ensures
        find_edge_in(roads, rs, i2) matches Some(r) ==> r.0 < roads.len(),
    decreases rs.len(),
{
    if rs.len() > 0 {
        lemma_find_edge_in_range(roads, rs.drop_first(), i2);
    }
}

} // verus!
