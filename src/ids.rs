use vstd::prelude::*;

verus! {

/// A fraction along a road is held in millionths: `0` is the road's source end,
/// `FRACTION_ONE` its destination end.
pub const FRACTION_ONE: u32 = 1_000_000;

/// Half of the way along a road.
pub const FRACTION_HALF: u32 = 500_000;

#[derive(Clone, Copy, Debug, PartialEq, Eq, Structural, Hash, PartialOrd, Ord)]
pub struct RoadID(pub usize);

#[derive(Clone, Copy, Debug, PartialEq, Eq, Structural, Hash, PartialOrd, Ord)]
pub struct IntersectionID(pub usize);

#[derive(Clone, Copy, Debug, PartialEq, Eq, Structural, Hash, PartialOrd, Ord)]
pub struct ProfileID(pub usize);

/// How can a `Road` be crossed by a particular profile?
#[derive(Clone, Copy, Debug, PartialEq, Eq, Structural)]
pub enum Direction {
    Forwards,
    Backwards,
    Both,
    Neither,
}

impl Direction {
    pub open spec fn spec_forwards(self) -> bool {
        self == Direction::Forwards || self == Direction::Both
    }

    pub open spec fn spec_backwards(self) -> bool {
        self == Direction::Backwards || self == Direction::Both
    }
}

/// Combines whether the forward and the backward lanes are usable into a
/// direction.
pub fn bool_to_dir(f: bool, b: bool) -> (r: Direction)
    ensures
        r.spec_forwards() == f,
        r.spec_backwards() == b,
        (f && b) ==> r == Direction::Both,
        (f && !b) ==> r == Direction::Forwards,
        (!f && b) ==> r == Direction::Backwards,
        (!f && !b) ==> r == Direction::Neither,
{
    if f && b {
        Direction::Both
    } else if f {
        Direction::Forwards
    } else if b {
        Direction::Backwards
    } else {
        Direction::Neither
    }
}

/// The fixed travel modes.
#[derive(Clone, Copy, Debug, PartialEq, Eq, Structural)]
pub enum Mode {
    Car,
    Bicycle,
    Foot,
}

/// What a mode name means; "transit" walks between stops.
pub open spec fn spec_parse_mode(x: Seq<char>) -> Option<Mode> {
    if x == "car"@ {
        Some(Mode::Car)
    } else if x == "bicycle"@ {
        Some(Mode::Bicycle)
    } else if x == "foot"@ || x == "transit"@ {
        Some(Mode::Foot)
    } else {
        None
    }
}

/// The kinds of failure that the library reports.
#[derive(Clone, Copy, Debug, PartialEq, Eq, Structural)]
pub enum GraphError {
    /// OSM or GTFS input is malformed.
    InputParse,
    /// A request names a profile that is not registered.
    UnknownProfile,
    /// No route exists, or start and end coincide.
    NoPath,
    /// Greedy snapping has no candidate that moves forward along the input.
    SnapStuck,
    /// A query point is outside the study area.
    OutOfBounds,
    /// A time is not in the expected format.
    TimeFormat,
    /// Transit was already set up on this graph.
    GtfsAlreadyConfigured,
    /// A source identifier was inserted twice into an `IDMapping`.
    DuplicateId,
    /// Transit was not set up on this graph.
    TransitNotSetUp,
    /// A router's costs were updated with roads whose access changed.
    AccessChanged,
}

impl Mode {
    /// Parses a mode name. "transit" is treated as `Mode::Foot`.
    pub fn parse(x: &str) -> (r: Result<Mode, GraphError>)
        ensures
            match spec_parse_mode(x@) {
                Some(m) => r == Ok::<Mode, GraphError>(m),
                None => r == Err::<Mode, GraphError>(GraphError::UnknownProfile),
            },
    {
        if str_eq(x, "car") {
            Ok(Mode::Car)
        } else if str_eq(x, "bicycle") {
            Ok(Mode::Bicycle)
        } else if str_eq(x, "foot") {
            Ok(Mode::Foot)
        } else if str_eq(x, "transit") {
            Ok(Mode::Foot)
        } else {
            Err(GraphError::UnknownProfile)
        }
    }
}

/// Compares two strings character by character.
pub fn str_eq(a: &str, b: &str) -> (r: bool)
    ensures
        r == (a@ == b@),
{
    let n = a.unicode_len();
    if n != b.unicode_len() {
        return false;
    }
    let mut k: usize = 0;
    while k < n
        invariant
            n == a@.len(),
            n == b@.len(),
            k <= n,
            forall|j: int| 0 <= j < k ==> a@[j] == b@[j],
        decreases n - k,
    {
        if a.get_char(k) != b.get_char(k) {
            return false;
        }
        k = k + 1;
    }
    proof {
        assert(a@ =~= b@);
    }
    true
}

/// A position along a road, with the closer of its two intersections.
#[derive(Clone, Copy, Debug, PartialEq, Eq, Structural)]
pub struct Position {
    pub road: RoadID,
    /// In millionths of the road's length, from its source end.
    pub fraction_along: u32,
    pub intersection: IntersectionID,
}

/// Where a transit graph comes from.
pub enum GtfsSource {
    Dir(String),
    Geomedea(String),
    Empty,
}

/// A single step along a route.
#[derive(Clone, Copy, Debug, PartialEq, Eq, Structural)]
pub enum PathStep {
    Road { road: RoadID, forwards: bool },
    Transit { stop1: crate::gtfs::StopID, trip: crate::gtfs::TripID, stop2: crate::gtfs::StopID },
}

} // verus!
