//! A multi-modal transport network: roads and intersections with per-profile
//! access and costs, a public-transit schedule, and the queries over them
//! (point-to-point routes, time-bounded floods, transit searches and polyline
//! snapping).
mod ch;
pub mod gtfs;
pub mod ids;
pub mod graph;
pub mod isochrone;
pub mod priority_queue;
pub mod profiles;
pub mod route;
pub mod snap;
pub mod transit_route;

pub use crate::graph::{Graph, Intersection, Road};
pub use crate::gtfs::{CheapID, GtfsModel, IDMapping, NextStep, RouteID, Stop, StopID, Trip, TripID};
pub use crate::ids::{
    bool_to_dir, Direction, GraphError, GtfsSource, IntersectionID, Mode, PathStep, Position,
    ProfileID, RoadID, FRACTION_ONE,
};
pub use crate::priority_queue::PriorityQueueItem;
pub use crate::route::{Route, Router};
