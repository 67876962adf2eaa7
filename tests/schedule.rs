use graph::gtfs::{stop_time_row, Route, StopTimeRow};
use graph::profiles::{access_level_allowed, calculate_access, AccessLevel, TravelLane};
use graph::{Direction, GraphError, GtfsModel, RoadID, Stop, StopID};

fn stop(name: &str) -> Stop {
    Stop {
        name: name.to_string(),
        orig_id: name.to_string(),
        road: RoadID(0),
        next_steps: Vec::new(),
    }
}

fn route(id: &str) -> Route {
    Route {
        orig_id: id.to_string(),
        short_name: None,
        long_name: None,
        description: None,
    }
}

#[test]
fn stop_time_rows_parse_clock_times() {
    let r = stop_time_row(3, Some(StopID(1)), "07:05:30");
    assert_eq!(r.trip, 3);
    assert_eq!(r.stop, Some(StopID(1)));
    assert_eq!(r.arrival, Some((7 * 3600 + 5 * 60 + 30) * 1000));
    assert_eq!(stop_time_row(0, None, "25:00:00").arrival, None);
    assert_eq!(stop_time_row(0, None, "noon").arrival, None);
    assert_eq!(stop_time_row(0, None, "00:00:00").arrival, Some(0));
}

#[test]
fn schedule_from_rows() {
    let rows = vec![
        stop_time_row(1, Some(StopID(0)), "08:00:00"),
        stop_time_row(0, Some(StopID(1)), "09:00:00"),
        stop_time_row(1, Some(StopID(1)), "08:10:00"),
        stop_time_row(0, Some(StopID(0)), "09:20:00"),
        // Outside the study area, unparseable, or on a trip that does not
        // run on the modelled day: dropped.
        stop_time_row(1, None, "08:20:00"),
        stop_time_row(1, Some(StopID(0)), "24:30:00"),
        stop_time_row(2, Some(StopID(0)), "10:00:00"),
    ];
    let model = GtfsModel::from_rows(
        vec![stop("a"), stop("b")],
        vec![route("R0"), route("R1")],
        vec![Some(true), Some(true), Some(false)],
        vec![1, 0, 0],
        rows,
    )
    .unwrap();
    assert_eq!(model.trips.len(), 2);
    assert_eq!(
        model.trips[0].stop_sequence,
        vec![(StopID(1), 9 * 3600 * 1000), (StopID(0), (9 * 3600 + 20 * 60) * 1000)]
    );
    assert_eq!(model.routes[model.trips[0].route.0].orig_id, "R1");
    assert_eq!(model.routes[model.trips[1].route.0].orig_id, "R0");
    assert_eq!(model.routes.len(), 2);
    let from_a: Vec<u64> = model.stops[0].next_steps.iter().map(|x| x.time1).collect();
    assert_eq!(from_a, vec![8 * 3600 * 1000]);
    let from_b: Vec<u64> = model.stops[1].next_steps.iter().map(|x| x.time1).collect();
    assert_eq!(from_b, vec![9 * 3600 * 1000]);
}

#[test]
fn schedule_rejects_unknown_trip_or_route() {
    let rows = vec![StopTimeRow {
        trip: 5,
        stop: Some(StopID(0)),
        arrival: Some(0),
    }];
    let r = GtfsModel::from_rows(vec![stop("a")], vec![route("R")], vec![Some(true)], vec![0], rows);
    assert_eq!(r.err(), Some(GraphError::InputParse));
    let rows = vec![StopTimeRow {
        trip: 0,
        stop: Some(StopID(0)),
        arrival: Some(0),
    }];
    let r = GtfsModel::from_rows(vec![stop("a")], vec![route("R")], vec![Some(true)], vec![4], rows);
    assert_eq!(r.err(), Some(GraphError::InputParse));
}

#[test]
fn lane_access_levels() {
    assert!(access_level_allowed(AccessLevel::Private));
    assert!(access_level_allowed(AccessLevel::Designated));
    assert!(!access_level_allowed(AccessLevel::No));
    assert!(!access_level_allowed(AccessLevel::Agricultural));
    let lanes = vec![
        TravelLane {
            forward: Some(AccessLevel::Yes),
            backward: None,
        },
        TravelLane {
            forward: None,
            backward: Some(AccessLevel::No),
        },
    ];
    assert_eq!(calculate_access(&lanes), Direction::Forwards);
    let both = vec![TravelLane {
        forward: Some(AccessLevel::Permissive),
        backward: Some(AccessLevel::Destination),
    }];
    assert_eq!(calculate_access(&both), Direction::Both);
    assert_eq!(calculate_access(&Vec::new()), Direction::Neither);
}

#[test]
fn extract_variants_share_stops_and_routes() {
    let mut model = GtfsModel::empty();
    let info = |id: &str| (id.to_string(), format!("stop {id}"));
    model
        .add_variant(
            vec![info("a"), info("b"), info("c")],
            vec![true, false, true],
            route("R"),
            vec![vec![10, 20, 30], vec![40, 50, 60]],
        )
        .unwrap();
    assert_eq!(model.stops.len(), 2);
    assert_eq!(model.trips.len(), 2);
    assert_eq!(model.trips[0].stop_sequence, vec![(StopID(0), 10), (StopID(1), 30)]);
    assert_eq!(model.trips[1].stop_sequence, vec![(StopID(0), 40), (StopID(1), 60)]);
    model
        .add_variant(vec![info("c"), info("d")], vec![true, true], route("R"), vec![vec![70, 80]])
        .unwrap();
    assert_eq!(model.stops.len(), 3);
    assert_eq!(model.routes.len(), 1);
    assert_eq!(model.trips[2].stop_sequence, vec![(StopID(1), 70), (StopID(2), 80)]);
    assert_eq!(model.trips[2].route, model.trips[0].route);
    // Nothing kept: nothing changes.
    model.add_variant(vec![info("z")], vec![false], route("Q"), vec![vec![1]]).unwrap();
    assert_eq!((model.stops.len(), model.trips.len(), model.routes.len()), (3, 3, 1));
    // Lengths that disagree.
    let r = model.add_variant(vec![info("z")], vec![true], route("Q"), vec![vec![1, 2]]);
    assert_eq!(r, Err(GraphError::InputParse));
    assert_eq!(model.trips.len(), 3);
}

#[test]
fn id_mapping_overwrites_on_duplicate() {
    let mut m: graph::IDMapping<String, StopID> = graph::IDMapping::new();
    assert_eq!(m.insert_new("x".to_string()), Ok(StopID(0)));
    assert_eq!(m.insert_new("x".to_string()), Err(GraphError::DuplicateId));
    assert_eq!(m.get(&"x".to_string()), Some(StopID(1)));
}
