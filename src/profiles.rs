//! Deriving a road's direction for a travel mode from the access levels of
//! its lanes. Decoding OSM tags into lanes is done outside.
use vstd::prelude::*;
use crate::ids::{bool_to_dir, Direction};

verus! {

/// The base access level of a lane for one mode, as OSM tags it.
#[derive(Clone, Copy, Debug, PartialEq, Eq, Structural)]
pub enum AccessLevel {
    Yes,
    No,
    Private,
    Permissive,
    Permit,
    Destination,
    Delivery,
    Customers,
    Designated,
    UseSidepath,
    Dismount,
    Agricultural,
    Forestry,
    Discouraged,
    Unknown,
}

pub open spec fn spec_allowed(a: AccessLevel) -> bool {
    a == AccessLevel::Designated || a == AccessLevel::Yes || a == AccessLevel::Permissive
        || a == AccessLevel::Discouraged || a == AccessLevel::Destination
        || a == AccessLevel::Customers || a == AccessLevel::Private
}

/// Whether a lane with this access level may be used.
pub fn access_level_allowed(access: AccessLevel) -> (r: bool)
    ensures
        r == spec_allowed(access),
{
    match access {
        AccessLevel::Designated | AccessLevel::Yes | AccessLevel::Permissive | AccessLevel::Discouraged
        | AccessLevel::Destination | AccessLevel::Customers | AccessLevel::Private => true,
        _ => false,
    }
}

/// One travel lane: the base access level of its forward and of its
/// backward direction for a mode, where the tags give one.
#[derive(Clone, Copy, Debug, PartialEq, Eq, Structural)]
pub struct TravelLane {
    pub forward: Option<AccessLevel>,
    pub backward: Option<AccessLevel>,
}

pub open spec fn lane_allows(a: Option<AccessLevel>) -> bool {
    a matches Some(l) && spec_allowed(l)
}

/// A road can be travelled forwards when some travel lane's forward access
/// allows it, and backwards likewise.
pub fn calculate_access(lanes: &Vec<TravelLane>) -> (r: Direction)
    ensures
        r.spec_forwards() == exists|k: int| 0 <= k < lanes@.len() && lane_allows(#[trigger] lanes@[k].forward),
        r.spec_backwards() == exists|k: int| 0 <= k < lanes@.len() && lane_allows(#[trigger] lanes@[k].backward),
{
    let mut forwards = false;
    let mut backwards = false;
    let mut k: usize = 0;
    while k < lanes.len()
        invariant
            k <= lanes@.len(),
            forwards == exists|j: int| 0 <= j < k && lane_allows(#[trigger] lanes@[j].forward),
            backwards == exists|j: int| 0 <= j < k && lane_allows(#[trigger] lanes@[j].backward),
        decreases lanes@.len() - k,
    {
        let lane = lanes[k];
        if let Some(a) = lane.forward {
            if access_level_allowed(a) {
                forwards = true;
            }
        }
        if let Some(a) = lane.backward {
            if access_level_allowed(a) {
                backwards = true;
            }
        }
        k = k + 1;
    }
    bool_to_dir(forwards, backwards)
}

} // verus!
