//! The public-transit schedule: stops, trips, routes, and for each stop the
//! departures that leave it, ordered by time. Times are milliseconds since
//! midnight of the single modelled service day.
use std::collections::BTreeMap;
use vstd::prelude::*;
use vstd::laws_cmp::obeys_cmp;
use crate::ids::RoadID;
use chrono::Timelike;

verus! {

broadcast use vstd::seq_lib::group_to_multiset_ensures;

#[derive(Clone, Copy, Debug, PartialEq, Eq, Structural, Hash, PartialOrd, Ord)]
pub struct StopID(pub usize);

#[derive(Clone, Copy, Debug, PartialEq, Eq, Structural, Hash, PartialOrd, Ord)]
pub struct TripID(pub usize);

#[derive(Clone, Copy, Debug, PartialEq, Eq, Structural, Hash, PartialOrd, Ord)]
pub struct RouteID(pub usize);

/// A dense numeric identifier, made from its index.
pub trait CheapID: Copy + Sized {
    spec fn index(&self) -> nat;

    fn new(x: usize) -> (r: Self)
        ensures
            r.index() == x,
    ;
}

impl CheapID for StopID {
    open spec fn index(&self) -> nat {
        self.0 as nat
    }

    fn new(x: usize) -> (r: Self) {
        StopID(x)
    }
}

impl CheapID for TripID {
    open spec fn index(&self) -> nat {
        self.0 as nat
    }

    fn new(x: usize) -> (r: Self) {
        TripID(x)
    }
}

impl CheapID for RouteID {
    open spec fn index(&self) -> nat {
        self.0 as nat
    }

    fn new(x: usize) -> (r: Self) {
        RouteID(x)
    }
}

/// Assigns dense identifiers `0, 1, 2, ...` to GTFS identifiers, in the
/// order in which they are first inserted.
pub struct IDMapping<K: Ord, V> {
    orig_to_cheap: BTreeMap<K, V>,
}

/// The identifiers are dense and distinct: each below the number of keys,
/// no two keys sharing one.
pub open spec fn ids_dense<K, V: CheapID>(m: Map<K, V>) -> bool {
    &&& m.dom().finite()
    &&& forall|k: K| #[trigger] m.contains_key(k) ==> m[k].index() < m.len()
    &&& forall|k1: K, k2: K| #[trigger] m.contains_key(k1) && #[trigger] m.contains_key(k2) && k1 != k2
        ==> m[k1].index() != m[k2].index()
}

impl<K: Ord, V: CheapID> IDMapping<K, V> {
    pub closed spec fn view(&self) -> Map<K, V> {
        self.orig_to_cheap@
    }

    pub fn new() -> (r: Self)
        ensures
            r.view() == Map::<K, V>::empty(),
            ids_dense(r.view()),
    {
        IDMapping { orig_to_cheap: BTreeMap::new() }
    }

    /// Assigns the next identifier to `orig`, which must not be known yet.
    pub fn insert_new(&mut self, orig: K) -> (r: Result<V, crate::ids::GraphError>)
        ensures
            obeys_cmp::<K>() ==> match r {
                Ok(v) => {
                    &&& !old(self).view().contains_key(orig)
                    &&& v.index() == old(self).view().len()
                    &&& final(self).view() == old(self).view().insert(orig, v)
                },
                Err(e) => {
                    &&& e == crate::ids::GraphError::DuplicateId
                    &&& old(self).view().contains_key(orig)
                    &&& exists|v: V| v.index() == old(self).view().len() && final(self).view() == old(self).view().insert(orig, v)
                },
            },
            obeys_cmp::<K>() && ids_dense(old(self).view()) && r is Ok ==> ids_dense(final(self).view()),
    {
        proof {
            broadcast use vstd::std_specs::btree::axiom_key_obeys_cmp_spec_meaning;
            broadcast use vstd::std_specs::btree::axiom_spec_btree_map_len;
        }
        broadcast use vstd::std_specs::btree::axiom_btree_map_view_finite_dom;
        let ghost old_map = self.orig_to_cheap@;
        let cheap = V::new(self.orig_to_cheap.len());
        if self.orig_to_cheap.insert(orig, cheap).is_some() {
            return Err(crate::ids::GraphError::DuplicateId);
        }
        proof {
            if obeys_cmp::<K>() && ids_dense(old_map) {
                let m = self.orig_to_cheap@;
                assert(m.dom() == old_map.dom().insert(orig));
                assert(m.len() == old_map.len() + 1);
                assert forall|k: K| #[trigger] m.contains_key(k) implies m[k].index() < m.len() by {
                    if k != orig {
                        assert(old_map.contains_key(k));
                    }
                }
                assert forall|k1: K, k2: K| #[trigger] m.contains_key(k1) && #[trigger] m.contains_key(k2) && k1 != k2
                    implies m[k1].index() != m[k2].index() by {
                    if k1 != orig && k2 != orig {
                        assert(old_map.contains_key(k1) && old_map.contains_key(k2));
                    } else if k1 == orig {
                        assert(old_map.contains_key(k2));
                    } else {
                        assert(old_map.contains_key(k1));
                    }
                }
            }
        }
        Ok(cheap)
    }

    /// Looks up the identifier assigned to `orig`.
    pub fn get(&self, orig: &K) -> (r: Option<V>)
        ensures
            obeys_cmp::<K>() ==> match r {
                Some(v) => self.view().contains_key(*orig) && self.view()[*orig] == v,
                None => !self.view().contains_key(*orig),
            },
    {
        proof {
            broadcast use vstd::std_specs::btree::axiom_maps_deref_key_to_value;
            broadcast use vstd::std_specs::btree::axiom_contains_deref_key;
        }
        match self.orig_to_cheap.get(orig) {
            Some(v) => Some(*v),
            None => None,
        }
    }

    /// The map from GTFS to dense identifiers.
    pub fn borrow(&self) -> (r: &BTreeMap<K, V>)
        ensures
            r@ == self.view(),
    {
        &self.orig_to_cheap
    }
}

impl<K: Ord + Clone, V: CheapID> IDMapping<K, V> {
    /// Returns the identifier of `orig`, assigning the next one if it is new.
    pub fn insert_idempotent(&mut self, orig: &K) -> (r: V)
        ensures
            obeys_cmp::<K>() ==> if old(self).view().contains_key(*orig) {
                &&& r == old(self).view()[*orig]
                &&& final(self).view() == old(self).view()
            } else {
                &&& r.index() == old(self).view().len()
                &&& exists|k: K| final(self).view() == old(self).view().insert(k, r)
            },
    {
        proof {
            broadcast use vstd::std_specs::btree::axiom_key_obeys_cmp_spec_meaning;
            broadcast use vstd::std_specs::btree::axiom_spec_btree_map_len;
            broadcast use vstd::std_specs::btree::axiom_maps_deref_key_to_value;
            broadcast use vstd::std_specs::btree::axiom_contains_deref_key;
        }
        match self.orig_to_cheap.get(orig) {
            Some(x) => *x,
            None => {
                let v = V::new(self.orig_to_cheap.len());
                let k = orig.clone();
                self.orig_to_cheap.insert(k, v);
                v
            },
        }
    }
}

/// `trip` leaves some stop at `time1`, and next reaches `stop2` at `time2`.
#[derive(Clone, Copy, Debug, PartialEq, Eq, Structural)]
pub struct NextStep {
    pub time1: u64,
    pub trip: TripID,
    pub stop2: StopID,
    pub time2: u64,
}

pub struct Stop {
    pub name: String,
    pub orig_id: String,
    /// The closest road that the transit walking profile can use.
    pub road: RoadID,
    /// Sorted by `time1`.
    pub next_steps: Vec<NextStep>,
}

pub struct Trip {
    /// (stop, arrival time) in order
    pub stop_sequence: Vec<(StopID, u64)>,
    pub route: RouteID,
}

pub struct Route {
    pub orig_id: String,
    pub short_name: Option<String>,
    pub long_name: Option<String>,
    pub description: Option<String>,
}

pub struct GtfsModel {
    /// Indexed by `StopID`
    pub stops: Vec<Stop>,
    /// Indexed by `TripID`
    pub trips: Vec<Trip>,
    /// Indexed by `RouteID`
    pub routes: Vec<Route>,
}

impl Route {
    /// A name for the route: its description, else its long name, else its
    /// short name, else its GTFS identifier.
    pub fn describe(&self) -> (r: String)
        ensures
            r@ == match self.description {
                Some(d) => d@,
                None => match self.long_name {
                    Some(l) => l@,
                    None => match self.short_name {
                        Some(s) => s@,
                        None => self.orig_id@,
                    },
                },
            },
    {
        match &self.description {
            Some(d) => d.clone(),
            None => match &self.long_name {
                Some(l) => l.clone(),
                None => match &self.short_name {
                    Some(s) => s.clone(),
                    None => self.orig_id.clone(),
                },
            },
        }
    }
}


/// One row of a schedule's stop times, with its trip as an index into the
/// schedule's trips, its stop where the stop is known and in the study area,
/// and its arrival in milliseconds after midnight where it parsed.
#[derive(Clone, Copy, Debug, PartialEq, Eq, Structural)]
pub struct StopTimeRow {
    pub trip: usize,
    pub stop: Option<StopID>,
    pub arrival: Option<u64>,
}

/// The seconds after midnight of a clock time written `HH:MM:SS`, as chrono
/// reads it; `None` where it does not parse (as for hours of 24 and more).
pub uninterp spec fn clock_seconds_of(s: Seq<char>) -> Option<u32>;

/// Relies on `chrono::NaiveTime::parse_from_str` with the format `%H:%M:%S`,
/// and on `num_seconds_from_midnight`, which counts the non-leap seconds
/// since midnight: below 86400.
#[verifier::external_body]
fn parse_clock_seconds(s: &str) -> (r: Option<u32>)
    ensures
        r == clock_seconds_of(s@),
        r matches Some(x) ==> x < 86400,
{
    match chrono::NaiveTime::parse_from_str(s, "%H:%M:%S") {
        Ok(t) => Some(t.num_seconds_from_midnight()),
        Err(_) => None,
    }
}

/// A stop-time row, with its arrival read from `HH:MM:SS` into
/// milliseconds after midnight (`None` where it does not parse).
pub fn stop_time_row(trip: usize, stop: Option<StopID>, arrival_time: &str) -> (r: StopTimeRow)
    ensures
        r.trip == trip,
        r.stop == stop,
        r.arrival == match clock_seconds_of(arrival_time@) {
            Some(x) => Some((x * 1000) as u64),
            None => None::<u64>,
        },
{
    let arrival = match parse_clock_seconds(arrival_time) {
        Some(x) => Some(x as u64 * 1000),
        None => None,
    };
    StopTimeRow { trip, stop, arrival }
}

/// The calls that the first `m` rows give trip `t`: rows of that trip with
/// a known stop and time, where the trip's service runs on the modelled day.
pub open spec fn kept_calls(rows: Seq<StopTimeRow>, runs: Seq<Option<bool>>, t: int, m: int) -> Seq<(StopID, u64)>
    decreases m,
{
    if m <= 0 {
        Seq::empty()
    } else {
        let prev = kept_calls(rows, runs, t, m - 1);
        let row = rows[m - 1];
        if row.trip == t && row.stop is Some && row.arrival is Some && 0 <= t < runs.len() && runs[t] == Some(true) {
            prev.push((row.stop->0, row.arrival->0))
        } else {
            prev
        }
    }
}

/// The trips among the first `n` that have at least one call, in order.
pub open spec fn used_trips(rows: Seq<StopTimeRow>, runs: Seq<Option<bool>>, n: int) -> Seq<int>
    decreases n,
{
    if n <= 0 {
        Seq::empty()
    } else if kept_calls(rows, runs, n - 1, rows.len() as int).len() > 0 {
        used_trips(rows, runs, n - 1).push(n - 1)
    } else {
        used_trips(rows, runs, n - 1)
    }
}

/// The rows can be assembled: a row with a known stop and time names an
/// existing trip and an existing stop, and every used trip names an existing
/// route.
pub open spec fn rows_ok(
    rows: Seq<StopTimeRow>,
    runs: Seq<Option<bool>>,
    trip_route: Seq<usize>,
    num_stops: nat,
    num_routes: nat,
) -> bool {
    &&& trip_route.len() == runs.len()
    &&& forall|k: int| 0 <= k < rows.len() && (#[trigger] rows[k]).stop is Some && rows[k].arrival is Some
        ==> rows[k].trip < runs.len() && (rows[k].stop->0).0 < num_stops
    &&& forall|t: int| 0 <= t < runs.len() && kept_calls(rows, runs, t, rows.len() as int).len() > 0
        ==> #[trigger] trip_route[t] < num_routes
}

proof fn lemma_kept_calls_valid(rows: Seq<StopTimeRow>, runs: Seq<Option<bool>>, t: int, m: int, ns: nat)
    requires
        m <= rows.len(),
        forall|q: int| 0 <= q < rows.len() && (#[trigger] rows[q]).stop is Some && rows[q].arrival is Some
            ==> (rows[q].stop->0).0 < ns,
    ensures
        forall|c: int| 0 <= c < kept_calls(rows, runs, t, m).len() ==> (#[trigger] kept_calls(rows, runs, t, m)[c]).0.0 < ns,
    decreases m,
{
    if m > 0 {
        lemma_kept_calls_valid(rows, runs, t, m - 1, ns);
        let prev = kept_calls(rows, runs, t, m - 1);
        let cur = kept_calls(rows, runs, t, m);
        assert forall|c: int| 0 <= c < cur.len() implies (#[trigger] cur[c]).0.0 < ns by {
            if c < prev.len() {
                assert(cur[c] == prev[c]);
            } else {
                assert(rows[m - 1].stop is Some && rows[m - 1].arrival is Some);
            }
        }
    }
}

/// The calls of one trip of a stop-sequence variant: its times at the kept
/// stops, with those stops' identifiers, in order (first `m` stops).
pub open spec fn variant_calls(ids: Seq<StopID>, keep: Seq<bool>, times: Seq<u64>, m: int) -> Seq<(StopID, u64)>
    decreases m,
{
    if m <= 0 {
        Seq::empty()
    } else {
        let prev = variant_calls(ids, keep, times, m - 1);
        if keep[m - 1] {
            prev.push((ids[m - 1], times[m - 1]))
        } else {
            prev
        }
    }
}

/// `ids` gives, for each kept stop of a variant, a stop with its GTFS
/// identifier.
pub open spec fn ids_match(stops: Seq<Stop>, stop_info: Seq<(String, String)>, keep: Seq<bool>, ids: Seq<StopID>) -> bool {
    &&& ids.len() == stop_info.len()
    &&& forall|k: int| 0 <= k < ids.len() && keep[k] ==> (#[trigger] ids[k]).0 < stops.len()
        && stops[ids[k].0 as int].orig_id@ == stop_info[k].0@
}

/// The lengths of a variant agree: a keep flag per stop, a time per stop in
/// every trip.
pub open spec fn variant_fits(stop_info: Seq<(String, String)>, keep: Seq<bool>, trips: Seq<Vec<u64>>) -> bool {
    &&& keep.len() == stop_info.len()
    &&& forall|t: int| 0 <= t < trips.len() ==> (#[trigger] trips[t])@.len() == stop_info.len()
}

/// The departures are ordered by time.
pub open spec fn sorted_by_departure(s: Seq<NextStep>) -> bool {
    forall|i: int, j: int| 0 <= i <= j < s.len() ==> s[i].time1 <= s[j].time1
}

/// The departures of `s` that leave within `[lo, hi]`, in order.
pub open spec fn departures_within(s: Seq<NextStep>, lo: int, hi: int) -> Seq<NextStep>
    decreases s.len(),
{
    if s.len() == 0 {
        s
    } else {
        let rest = departures_within(s.drop_last(), lo, hi);
        if lo <= s.last().time1 <= hi {
            rest.push(s.last())
        } else {
            rest
        }
    }
}

proof fn lemma_departures_stop(s: Seq<NextStep>, lo: int, hi: int, k: int, j: int)
    requires
        sorted_by_departure(s),
        0 <= k <= j <= s.len(),
        k < s.len() ==> s[k].time1 > hi,
    ensures
        departures_within(s.take(j), lo, hi) == departures_within(s.take(k), lo, hi),
    decreases j - k,
{
    if j > k {
        lemma_departures_stop(s, lo, hi, k, j - 1);
        assert(s.take(j).drop_last() =~= s.take(j - 1));
    }
}


/// The departures that the pairs `0 .. m` of consecutive calls of a trip add
/// to stop `s`, in order.
pub open spec fn pair_steps(seq: Seq<(StopID, u64)>, trip: TripID, s: nat, m: int) -> Seq<NextStep>
    decreases m,
{
    if m <= 0 {
        Seq::empty()
    } else {
        let rest = pair_steps(seq, trip, s, m - 1);
        if seq[m - 1].0.0 == s {
            rest.push(
                NextStep {
                    time1: seq[m - 1].1,
                    trip: trip,
                    stop2: seq[m].0,
                    time2: seq[m].1,
                },
            )
        } else {
            rest
        }
    }
}

/// The number of consecutive pairs in a sequence of calls.
pub open spec fn num_pairs(len: int) -> int {
    if len == 0 { 0 } else { len - 1 }
}

/// The departures that the first `n` trips add to stop `s`, in order.
pub open spec fn trips_steps(trips: Seq<Trip>, s: nat, n: int) -> Seq<NextStep>
    decreases n,
{
    if n <= 0 {
        Seq::empty()
    } else {
        trips_steps(trips, s, n - 1) + pair_steps(
            trips[n - 1].stop_sequence@,
            TripID((n - 1) as usize),
            s,
            num_pairs(trips[n - 1].stop_sequence@.len() as int),
        )
    }
}

/// Every stop that the trips call at exists.
pub open spec fn trips_well_formed(trips: Seq<Trip>, num_stops: nat) -> bool {
    forall|t: int, k: int|
        0 <= t < trips.len() && 0 <= k < trips[t].stop_sequence@.len() ==> #[trigger] trips[t].stop_sequence@[k].0.0 < num_stops
}

/// Inserts `x` after every element that does not depart later, keeping the
/// order sorted and stable.
fn insert_sorted(v: &mut Vec<NextStep>, x: NextStep)
    requires
        sorted_by_departure(old(v)@),
    ensures
        sorted_by_departure(final(v)@),
        final(v)@.to_multiset() == old(v)@.to_multiset().insert(x),
{
    let mut pos: usize = v.len();
    while pos > 0 && v[pos - 1].time1 > x.time1
        invariant
            pos <= v@.len(),
            v@ == old(v)@,
            forall|j: int| pos <= j < v@.len() ==> v@[j].time1 > x.time1,
        decreases pos,
    {
        pos = pos - 1;
    }
    proof {
        vstd::seq_lib::to_multiset_insert(v@, pos as int, x);
    }
    v.insert(pos, x);
}

/// Sorts departures by time, keeping equal times in their order.
fn sort_by_departure(v: Vec<NextStep>) -> (r: Vec<NextStep>)
    ensures
        sorted_by_departure(r@),
        r@.to_multiset() == v@.to_multiset(),
{
    let mut r: Vec<NextStep> = Vec::new();
    let mut k: usize = 0;
    while k < v.len()
        invariant
            k <= v@.len(),
            sorted_by_departure(r@),
            r@.to_multiset() == v@.take(k as int).to_multiset(),
        decreases v@.len() - k,
    {
        proof {
            assert(v@.take(k + 1) =~= v@.take(k as int).push(v@[k as int]));
        }
        insert_sorted(&mut r, v[k]);
        k = k + 1;
    }
    proof {
        assert(v@.take(v@.len() as int) =~= v@);
    }
    r
}

impl GtfsModel {
    pub fn empty() -> (r: Self)
        ensures
            r.stops@.len() == 0,
            r.trips@.len() == 0,
            r.routes@.len() == 0,
    {
        GtfsModel { stops: Vec::new(), trips: Vec::new(), routes: Vec::new() }
    }



    /// Assembles a schedule from its parsed tables: the stops in the study
    /// area, the routes, and per trip whether its service runs on the
    /// modelled day (`None` where the service is unknown) and its route.
    /// Trips keep their order and get dense identifiers; a trip with no
    /// kept call is dropped. Then each stop's departures are computed.
    pub fn from_rows(
        stops: Vec<Stop>,
        routes: Vec<Route>,
        runs: Vec<Option<bool>>,
        trip_route: Vec<usize>,
        rows: Vec<StopTimeRow>,
    ) -> (r: Result<GtfsModel, crate::ids::GraphError>)
        ensures
            r is Ok <==> rows_ok(rows@, runs@, trip_route@, stops@.len(), routes@.len()),
            r matches Err(e) ==> e == crate::ids::GraphError::InputParse,
            r matches Ok(m) ==> {
                let used = used_trips(rows@, runs@, runs@.len() as int);
                &&& m.stops@.len() == stops@.len()
                &&& m.trips@.len() == used.len()
                &&& forall|k: int| 0 <= k < used.len() ==> {
                    &&& (#[trigger] m.trips@[k]).stop_sequence@ == kept_calls(rows@, runs@, used[k], rows@.len() as int)
                    &&& m.trips@[k].route.0 < m.routes@.len()
                    &&& m.routes@[m.trips@[k].route.0 as int] == routes@[trip_route@[used[k]] as int]
                }
                &&& forall|s: int| 0 <= s < m.stops@.len() ==> {
                    &&& sorted_by_departure(#[trigger] m.stops@[s].next_steps@)
                    &&& m.stops@[s].name == stops@[s].name
                    &&& m.stops@[s].orig_id == stops@[s].orig_id
                    &&& m.stops@[s].road == stops@[s].road
                    &&& m.stops@[s].next_steps@.to_multiset() == (stops@[s].next_steps@
                        + trips_steps(m.trips@, s as nat, m.trips@.len() as int)).to_multiset()
                }
            },
    {
        let n = runs.len();
        let ns = stops.len();
        let nroutes = routes.len();
        let ghost routes_len = routes@.len();
        if trip_route.len() != n {
            return Err(crate::ids::GraphError::InputParse);
        }
        let mut calls: Vec<Vec<(StopID, u64)>> = Vec::new();
        let mut z: usize = 0;
        while z < n
            invariant
                nroutes == routes_len,
                routes@.len() == routes_len,
                z <= n,
                calls@.len() == z,
                forall|t: int| 0 <= t < z ==> (#[trigger] calls@[t])@.len() == 0,
            decreases n - z,
        {
            calls.push(Vec::new());
            z = z + 1;
        }
        proof {
            assert forall|t: int| 0 <= t < n implies (#[trigger] calls@[t])@ == kept_calls(rows@, runs@, t, 0) by {}
        }
        let mut k: usize = 0;
        while k < rows.len()
            invariant
                nroutes == routes_len,
                routes@.len() == routes_len,
                n == runs@.len(),
                ns == stops@.len(),
                k <= rows@.len(),
                calls@.len() == n,
                forall|t: int| 0 <= t < n ==> (#[trigger] calls@[t])@ == kept_calls(rows@, runs@, t, k as int),
                forall|q: int| 0 <= q < k && (#[trigger] rows@[q]).stop is Some && rows@[q].arrival is Some
                    ==> rows@[q].trip < n && (rows@[q].stop->0).0 < ns,
            decreases rows@.len() - k,
        {
            let row = rows[k];
            if let (Some(stop), Some(arrival)) = (row.stop, row.arrival) {
                if row.trip >= n || stop.0 >= ns {
                    return Err(crate::ids::GraphError::InputParse);
                }
                if runs[row.trip] == Some(true) {
                    calls[row.trip].push((stop, arrival));
                }
            }
            k = k + 1;
        }
        let mut route_of: Vec<Option<RouteID>> = Vec::new();
        let mut z: usize = 0;
        while z < nroutes
            invariant
                nroutes == routes_len,
                routes@.len() == routes_len,
                z <= nroutes,
                route_of@.len() == z,
                forall|q: int| 0 <= q < z ==> (#[trigger] route_of@[q]) is None,
            decreases nroutes - z,
        {
            route_of.push(None);
            z = z + 1;
        }
        let mut routes_left: Vec<Option<Route>> = Vec::new();
        let ghost routes_in = routes@;
        let mut pool = routes;
        assert(pool@ == routes_in);
        let mut z: usize = nroutes;
        while z > 0
            invariant
                nroutes == routes_len,
                routes@.len() == routes_len,
                routes@ == routes_in,
                z <= nroutes,
                nroutes == routes_in.len(),
                pool@ == routes_in.take(z as int),
                routes_left@.len() == nroutes - z,
                forall|q: int| 0 <= q < nroutes - z ==> #[trigger] routes_left@[q] == Some(routes_in[nroutes - 1 - q]),
            decreases z,
        {
            let route = pool.pop().unwrap();
            routes_left.push(Some(route));
            z = z - 1;
            assert(routes_in.take(z + 1).drop_last() =~= routes_in.take(z as int));
        }
        let mut trips: Vec<Trip> = Vec::new();
        let mut out_routes: Vec<Route> = Vec::new();
        let mut t: usize = 0;
        while t < n
            invariant
                nroutes == routes_len,
                routes@.len() == routes_len,
                routes@ == routes_in,
                n == runs@.len(),
                n == trip_route@.len(),
                ns == stops@.len(),
                nroutes == routes_in.len(),
                t <= n,
                calls@.len() == n,
                forall|q: int| t <= q < n ==> (#[trigger] calls@[q])@ == kept_calls(rows@, runs@, q, rows@.len() as int),
                forall|q: int| 0 <= q < rows@.len() && (#[trigger] rows@[q]).stop is Some && rows@[q].arrival is Some
                    ==> rows@[q].trip < n && (rows@[q].stop->0).0 < ns,
                forall|q: int| 0 <= q < t && kept_calls(rows@, runs@, q, rows@.len() as int).len() > 0
                    ==> #[trigger] trip_route@[q] < nroutes,
                trips@.len() == used_trips(rows@, runs@, t as int).len(),
                route_of@.len() == nroutes,
                routes_left@.len() == nroutes,
                forall|q: int| 0 <= q < nroutes ==> match #[trigger] route_of@[q] {
                    Some(id) => id.0 < out_routes@.len() && out_routes@[id.0 as int] == routes_in[q] && routes_left@[nroutes - 1 - q] is None,
                    None => routes_left@[nroutes - 1 - q] == Some(routes_in[q]),
                },
                forall|j: int| 0 <= j < trips@.len() ==> {
                    let u = used_trips(rows@, runs@, t as int)[j];
                    &&& (#[trigger] trips@[j]).stop_sequence@ == kept_calls(rows@, runs@, u, rows@.len() as int)
                    &&& trips@[j].route.0 < out_routes@.len()
                    &&& out_routes@[trips@[j].route.0 as int] == routes_in[trip_route@[u] as int]
                    &&& forall|c: int| 0 <= c < trips@[j].stop_sequence@.len() ==> (#[trigger] trips@[j].stop_sequence@[c]).0.0 < ns
                },
            decreases n - t,
        {
            proof {
                lemma_kept_calls_valid(rows@, runs@, t as int, rows@.len() as int, ns as nat);
            }
            if calls[t].len() > 0 {
                let ri = trip_route[t];
                if ri >= nroutes {
                    proof {
                        assert(kept_calls(rows@, runs@, t as int, rows@.len() as int).len() > 0);
                        assert(trip_route@[t as int] >= nroutes);
                        assert(!rows_ok(rows@, runs@, trip_route@, stops@.len(), routes_len));
                    }
                    return Err(crate::ids::GraphError::InputParse);
                }
                let id = match route_of[ri] {
                    Some(id) => id,
                    None => {
                        let id = RouteID(out_routes.len());
                        let mut slot: Option<Route> = None;
                        std::mem::swap(&mut slot, &mut routes_left[nroutes - 1 - ri]);
                        let route = slot.unwrap();
                        out_routes.push(route);
                        route_of.set(ri, Some(id));
                        assert forall|q: int| 0 <= q < nroutes implies match #[trigger] route_of@[q] {
                            Some(id) => id.0 < out_routes@.len() && out_routes@[id.0 as int] == routes_in[q] && routes_left@[nroutes - 1 - q] is None,
                            None => routes_left@[nroutes - 1 - q] == Some(routes_in[q]),
                        } by {
                            if q != ri {
                                assert(nroutes - 1 - q != nroutes - 1 - ri);
                            }
                        }
                        id
                    },
                };
                let mut seq: Vec<(StopID, u64)> = Vec::new();
                std::mem::swap(&mut seq, &mut calls[t]);
                let ghost before = trips@;
                trips.push(Trip { stop_sequence: seq, route: id });
                proof {
                    assert(used_trips(rows@, runs@, t + 1) == used_trips(rows@, runs@, t as int).push(t as int));
                    assert forall|j: int| 0 <= j < trips@.len() implies {
                        let u = used_trips(rows@, runs@, t + 1)[j];
                        &&& (#[trigger] trips@[j]).stop_sequence@ == kept_calls(rows@, runs@, u, rows@.len() as int)
                        &&& trips@[j].route.0 < out_routes@.len()
                        &&& out_routes@[trips@[j].route.0 as int] == routes_in[trip_route@[u] as int]
                        &&& forall|c: int| 0 <= c < trips@[j].stop_sequence@.len() ==> (#[trigger] trips@[j].stop_sequence@[c]).0.0 < ns
                    } by {
                        if j < before.len() {
                            assert(trips@[j] == before[j]);
                        } else {
                            assert(route_of@[ri as int] == Some(id));
                        }
                    }
                }
            } else {
                proof {
                    assert(used_trips(rows@, runs@, t + 1) == used_trips(rows@, runs@, t as int));
                }
            }
            t = t + 1;
        }
        assert(nroutes == routes_len);
        let mut model = GtfsModel { stops, trips, routes: out_routes };
        proof {
            assert(rows_ok(rows@, runs@, trip_route@, ns as nat, nroutes as nat));
            assert forall|tt: int, c: int|
                0 <= tt < model.trips@.len() && 0 <= c < model.trips@[tt].stop_sequence@.len() implies
                #[trigger] model.trips@[tt].stop_sequence@[c].0.0 < model.stops@.len() by {
                assert(model.trips@[tt] == trips@[tt]);
            }
        }
        model.precompute_next_steps();
        Ok(model)
    }


    /// The stop with GTFS identifier `id`, added with `name` if new.
    fn stop_for(&mut self, id: &String, name: &String) -> (r: StopID)
        ensures
            r.0 < final(self).stops@.len(),
            final(self).stops@[r.0 as int].orig_id@ == id@,
            final(self).stops@.len() >= old(self).stops@.len(),
            forall|k: int| 0 <= k < old(self).stops@.len() ==> #[trigger] final(self).stops@[k] == old(self).stops@[k],
            final(self).trips@ == old(self).trips@,
            final(self).routes@ == old(self).routes@,
    {
        let mut k: usize = 0;
        while k < self.stops.len()
            invariant
                k <= self.stops@.len(),
            decreases self.stops@.len() - k,
        {
            if crate::ids::str_eq(self.stops[k].orig_id.as_str(), id.as_str()) {
                return StopID(k);
            }
            k = k + 1;
        }
        let n = self.stops.len();
        self.stops.push(Stop { name: name.clone(), orig_id: id.clone(), road: RoadID(0), next_steps: Vec::new() });
        StopID(n)
    }

    /// Adds one stop-sequence variant of an indexed extract: the stops in
    /// order (GTFS identifier and name), which of them lie in the study area,
    /// the route, and each trip's arrival times at every stop. Stops and
    /// routes are shared by GTFS identifier; each trip keeps its times at the
    /// kept stops. Fails with `InputParse`, changing nothing, where the
    /// lengths disagree; changes nothing where no stop is kept.
    pub fn add_variant(
        &mut self,
        stop_info: Vec<(String, String)>,
        keep: Vec<bool>,
        route: Route,
        trips: Vec<Vec<u64>>,
    ) -> (r: Result<(), crate::ids::GraphError>)
        ensures
            r is Err <==> !variant_fits(stop_info@, keep@, trips@),
            r matches Err(e) ==> e == crate::ids::GraphError::InputParse,
            r is Err || (forall|k: int| 0 <= k < keep@.len() ==> !(#[trigger] keep@[k])) ==> {
                &&& final(self).stops@ == old(self).stops@
                &&& final(self).trips@ == old(self).trips@
                &&& final(self).routes@ == old(self).routes@
            },
            r is Ok ==> {
                &&& forall|k: int| 0 <= k < old(self).stops@.len() ==> #[trigger] final(self).stops@[k] == old(self).stops@[k]
                &&& forall|k: int| 0 <= k < old(self).routes@.len() ==> #[trigger] final(self).routes@[k] == old(self).routes@[k]
                &&& forall|k: int| 0 <= k < old(self).trips@.len() ==> #[trigger] final(self).trips@[k] == old(self).trips@[k]
            },
            r is Ok && (exists|k: int| 0 <= k < keep@.len() && #[trigger] keep@[k]) ==> {
                &&& final(self).trips@.len() == old(self).trips@.len() + trips@.len()
                &&& exists|ids: Seq<StopID>| {
                    &&& #[trigger] ids_match(final(self).stops@, stop_info@, keep@, ids)
                    &&& forall|t: int| 0 <= t < trips@.len() ==> {
                        let trip = #[trigger] final(self).trips@[old(self).trips@.len() + t];
                        &&& trip.stop_sequence@ == variant_calls(ids, keep@, trips@[t]@, stop_info@.len() as int)
                        &&& trip.route.0 < final(self).routes@.len()
                        &&& final(self).routes@[trip.route.0 as int].orig_id@ == route.orig_id@
                    }
                }
            },
    {
        let n = stop_info.len();
        if keep.len() != n {
            return Err(crate::ids::GraphError::InputParse);
        }
        let mut t: usize = 0;
        while t < trips.len()
            invariant
                n == stop_info@.len(),
                t <= trips@.len(),
                forall|j: int| 0 <= j < t ==> (#[trigger] trips@[j])@.len() == n,
            decreases trips@.len() - t,
        {
            if trips[t].len() != n {
                return Err(crate::ids::GraphError::InputParse);
            }
            t = t + 1;
        }
        let mut any = false;
        let mut k: usize = 0;
        while k < n
            invariant
                n == keep@.len(),
                k <= n,
                any == exists|j: int| 0 <= j < k && #[trigger] keep@[j],
            decreases n - k,
        {
            if keep[k] {
                any = true;
            }
            k = k + 1;
        }
        if !any {
            return Ok(());
        }
        let ghost old_stops = self.stops@;
        let ghost old_trips = self.trips@;
        let ghost old_routes = self.routes@;
        let mut ids: Vec<StopID> = Vec::new();
        let mut k: usize = 0;
        while k < n
            invariant
                n == stop_info@.len(),
                n == keep@.len(),
                k <= n,
                ids@.len() == k,
                self.stops@.len() >= old_stops.len(),
                forall|j: int| 0 <= j < old_stops.len() ==> #[trigger] self.stops@[j] == old_stops[j],
                self.trips@ == old_trips,
                self.routes@ == old_routes,
                forall|j: int| 0 <= j < k && keep@[j] ==> (#[trigger] ids@[j]).0 < self.stops@.len()
                    && self.stops@[ids@[j].0 as int].orig_id@ == stop_info@[j].0@,
            decreases n - k,
        {
            if keep[k] {
                let ghost before = self.stops@;
                let id = self.stop_for(&stop_info[k].0, &stop_info[k].1);
                proof {
                    assert forall|j: int| 0 <= j < old_stops.len() implies #[trigger] self.stops@[j] == old_stops[j] by {
                        assert(self.stops@[j] == before[j]);
                    }
                    assert forall|j: int| 0 <= j < k && keep@[j] implies (#[trigger] ids@[j]).0 < self.stops@.len()
                        && self.stops@[ids@[j].0 as int].orig_id@ == stop_info@[j].0@ by {
                        assert(self.stops@[ids@[j].0 as int] == before[ids@[j].0 as int]);
                    }
                }
                ids.push(id);
            } else {
                ids.push(StopID(0));
            }
            k = k + 1;
        }
        let mut route_id: usize = self.routes.len();
        let mut j: usize = 0;
        while j < self.routes.len()
            invariant
                j <= self.routes@.len(),
                route_id == self.routes@.len() || (route_id < self.routes@.len() && self.routes@[route_id as int].orig_id@ == route.orig_id@),
            decreases self.routes@.len() - j,
        {
            if route_id == self.routes.len() && crate::ids::str_eq(self.routes[j].orig_id.as_str(), route.orig_id.as_str()) {
                route_id = j;
            }
            j = j + 1;
        }
        if route_id == self.routes.len() {
            self.routes.push(route);
        }
        let ghost stops_now = self.stops@;
        let mut t: usize = 0;
        while t < trips.len()
            invariant
                n == stop_info@.len(),
                n == keep@.len(),
                ids@.len() == n,
                forall|jj: int| 0 <= jj < trips@.len() ==> (#[trigger] trips@[jj])@.len() == n,
                self.stops@ == stops_now,
                route_id < self.routes@.len(),
                self.routes@[route_id as int].orig_id@ == route.orig_id@,
                forall|jj: int| 0 <= jj < old_routes.len() ==> #[trigger] self.routes@[jj] == old_routes[jj],
                t <= trips@.len(),
                self.trips@.len() == old_trips.len() + t,
                forall|jj: int| 0 <= jj < old_trips.len() ==> #[trigger] self.trips@[jj] == old_trips[jj],
                forall|u: int| 0 <= u < t ==> {
                    let trip = #[trigger] self.trips@[old_trips.len() + u];
                    &&& trip.stop_sequence@ == variant_calls(ids@, keep@, trips@[u]@, n as int)
                    &&& trip.route.0 == route_id
                },
            decreases trips@.len() - t,
        {
            let times = &trips[t];
            let mut seq: Vec<(StopID, u64)> = Vec::new();
            let mut k: usize = 0;
            while k < n
                invariant
                    n == keep@.len(),
                    ids@.len() == n,
                    times@.len() == n,
                    k <= n,
                    seq@ == variant_calls(ids@, keep@, times@, k as int),
                decreases n - k,
            {
                if keep[k] {
                    seq.push((ids[k], times[k]));
                }
                k = k + 1;
            }
            let ghost before = self.trips@;
            self.trips.push(Trip { stop_sequence: seq, route: RouteID(route_id) });
            proof {
                assert forall|jj: int| 0 <= jj < old_trips.len() implies #[trigger] self.trips@[jj] == old_trips[jj] by {
                    assert(self.trips@[jj] == before[jj]);
                }
                assert forall|u: int| 0 <= u < t + 1 implies {
                    let trip = #[trigger] self.trips@[old_trips.len() + u];
                    &&& trip.stop_sequence@ == variant_calls(ids@, keep@, trips@[u]@, n as int)
                    &&& trip.route.0 == route_id
                } by {
                    if u < t {
                        assert(self.trips@[old_trips.len() + u] == before[old_trips.len() + u]);
                    }
                }
            }
            t = t + 1;
        }
        proof {
            assert(ids_match(self.stops@, stop_info@, keep@, ids@));
        }
        Ok(())
    }

    /// Records, for each pair of consecutive calls of each trip, a departure
    /// at the first stop of the pair; then orders each stop's departures by
    /// time.
    pub fn precompute_next_steps(&mut self)
        requires
            trips_well_formed(old(self).trips@, old(self).stops@.len()),
        ensures
            final(self).trips@ == old(self).trips@,
            final(self).routes@ == old(self).routes@,
            final(self).stops@.len() == old(self).stops@.len(),
            forall|s: int| 0 <= s < final(self).stops@.len() ==> {
                &&& sorted_by_departure(#[trigger] final(self).stops@[s].next_steps@)
                &&& final(self).stops@[s].next_steps@.to_multiset() == (old(self).stops@[s].next_steps@
                    + trips_steps(old(self).trips@, s as nat, old(self).trips@.len() as int)).to_multiset()
                &&& final(self).stops@[s].road == old(self).stops@[s].road
                &&& final(self).stops@[s].name == old(self).stops@[s].name
                &&& final(self).stops@[s].orig_id == old(self).stops@[s].orig_id
            },
    {
        let ghost orig = self.stops@;
        let mut idx: usize = 0;
        while idx < self.trips.len()
            invariant
                self.routes@ == old(self).routes@,
                idx <= self.trips@.len(),
                self.trips@ == old(self).trips@,
                trips_well_formed(self.trips@, self.stops@.len()),
                self.stops@.len() == orig.len(),
                forall|s: int| 0 <= s < orig.len() ==> {
                    &&& #[trigger] self.stops@[s].next_steps@ == orig[s].next_steps@
                        + trips_steps(self.trips@, s as nat, idx as int)
                },
                forall|j: int| 0 <= j < orig.len() ==> #[trigger] self.stops@[j].road == orig[j].road
                    && self.stops@[j].name == orig[j].name && self.stops@[j].orig_id == orig[j].orig_id,
            decreases self.trips@.len() - idx,
        {
            let trip_id = TripID(idx);
            let n = self.trips[idx].stop_sequence.len();
            let mut k: usize = 0;
            while k + 1 < n
                invariant
                    self.routes@ == old(self).routes@,
                    idx < self.trips@.len(),
                    n == self.trips@[idx as int].stop_sequence@.len(),
                    self.trips@ == old(self).trips@,
                    trips_well_formed(self.trips@, self.stops@.len()),
                    self.stops@.len() == orig.len(),
                    k <= num_pairs(n as int),
                    forall|s: int| 0 <= s < orig.len() ==> {
                        &&& #[trigger] self.stops@[s].next_steps@ == orig[s].next_steps@
                            + trips_steps(self.trips@, s as nat, idx as int)
                            + pair_steps(self.trips@[idx as int].stop_sequence@, trip_id, s as nat, k as int)
                    },
                    forall|j: int| 0 <= j < orig.len() ==> #[trigger] self.stops@[j].road == orig[j].road
                    && self.stops@[j].name == orig[j].name && self.stops@[j].orig_id == orig[j].orig_id,
                decreases n - k,
            {
                let (stop1, time1) = self.trips[idx].stop_sequence[k];
                let (stop2, time2) = self.trips[idx].stop_sequence[k + 1];
                assert(stop1.0 < self.stops@.len()) by {
                    assert(self.trips@[idx as int].stop_sequence@[k as int].0.0 < self.stops@.len());
                }
                let step = NextStep { time1, trip: trip_id, stop2, time2 };
                self.stops[stop1.0].next_steps.push(step);
                k = k + 1;
            }
            proof {
                assert forall|s: int| 0 <= s < orig.len() implies #[trigger] self.stops@[s].next_steps@
                    == orig[s].next_steps@ + trips_steps(self.trips@, s as nat, idx + 1) by {
                    assert(k == num_pairs(n as int));
                    vstd::seq_lib::lemma_concat_associative(orig[s].next_steps@,
                        trips_steps(self.trips@, s as nat, idx as int),
                        pair_steps(self.trips@[idx as int].stop_sequence@, trip_id, s as nat, k as int));
                }
            }
            idx = idx + 1;
        }
        let mut s: usize = 0;
        while s < self.stops.len()
            invariant
                self.routes@ == old(self).routes@,
                s <= self.stops@.len(),
                self.trips@ == old(self).trips@,
                self.stops@.len() == orig.len(),
                forall|j: int| 0 <= j < orig.len() ==> #[trigger] self.stops@[j].road == orig[j].road
                    && self.stops@[j].name == orig[j].name && self.stops@[j].orig_id == orig[j].orig_id,
                forall|j: int| 0 <= j < s ==> sorted_by_departure(#[trigger] self.stops@[j].next_steps@),
                forall|j: int| 0 <= j < orig.len() ==> (#[trigger] self.stops@[j].next_steps@).to_multiset()
                    == (orig[j].next_steps@ + trips_steps(self.trips@, j as nat, self.trips@.len() as int)).to_multiset(),
            decreases self.stops@.len() - s,
        {
            let mut steps: Vec<NextStep> = Vec::new();
            std::mem::swap(&mut steps, &mut self.stops[s].next_steps);
            self.stops[s].next_steps = sort_by_departure(steps);
            s = s + 1;
        }
    }

    /// Starting from a stop at some time, finds all the next trips going
    /// somewhere, waiting up to `max_wait`.
    pub fn trips_from(&self, stop1: StopID, time: u64, max_wait: u64) -> (r: Vec<NextStep>)
        requires
            stop1.0 < self.stops@.len(),
            sorted_by_departure(self.stops@[stop1.0 as int].next_steps@),
        ensures
            r@ == departures_within(
                self.stops@[stop1.0 as int].next_steps@,
                time as int,
                time + max_wait,
            ),
    {
        let steps = &self.stops[stop1.0].next_steps;
        let limit = time.saturating_add(max_wait);
        let mut results: Vec<NextStep> = Vec::new();
        let mut k: usize = 0;
        while k < steps.len()
            invariant
                k <= steps@.len(),
                sorted_by_departure(steps@),
                limit as int == if time + max_wait > u64::MAX { u64::MAX as int } else { time + max_wait },
                results@ == departures_within(steps@.take(k as int), time as int, time + max_wait),
            ensures
                k <= steps@.len(),
                k < steps@.len() ==> steps@[k as int].time1 > time + max_wait,
                results@ == departures_within(steps@.take(k as int), time as int, time + max_wait),
            decreases steps@.len() - k,
        {
            let next_step = steps[k];
            if next_step.time1 > limit {
                break;
            }
            if next_step.time1 >= time {
                results.push(next_step);
            }
            assert(steps@.take(k + 1).drop_last() =~= steps@.take(k as int));
            k = k + 1;
        }
        proof {
            lemma_departures_stop(steps@, time as int, time + max_wait, k as int, steps@.len() as int);
            assert(steps@.take(steps@.len() as int) =~= steps@);
        }
        results
    }
}

} // verus!
