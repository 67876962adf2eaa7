use graph::graph::{accept_way, sort_by_bearing};
use graph::route::split_runs;
use graph::gtfs::Route as TransitRoute;
use graph::route::{profile_edges, RoadSlice};
use graph::transit_route::{group_legs, Leg};
use graph::{
    bool_to_dir, Direction, Graph, GraphError, GtfsModel, IDMapping, Intersection, IntersectionID,
    Mode, NextStep, PathStep, Position, ProfileID, Road, RoadID, Stop, StopID, Trip, TripID,
    FRACTION_ONE,
};

fn road(id: usize, src: usize, dst: usize, access: Vec<Direction>, cost: Vec<u32>) -> Road {
    Road {
        id: RoadID(id),
        src_i: IntersectionID(src),
        dst_i: IntersectionID(dst),
        way: id as i64,
        node1: src as i64,
        node2: dst as i64,
        osm_tags: vec![("highway".to_string(), "residential".to_string())],
        access,
        cost,
        stops: Vec::new(),
    }
}

fn intersections_for(roads: &[Road], n: usize) -> Vec<Intersection> {
    (0..n)
        .map(|i| Intersection {
            id: IntersectionID(i),
            node: i as i64,
            roads: roads
                .iter()
                .filter(|r| r.src_i.0 == i || r.dst_i.0 == i)
                .map(|r| r.id)
                .collect(),
        })
        .collect()
}

/// A straight chain of `n` roads, each crossable both ways by one profile.
fn chain(n: usize, cost_ms: u32) -> Graph {
    let roads: Vec<Road> = (0..n)
        .map(|k| road(k, k, k + 1, vec![Direction::Both], vec![cost_ms]))
        .collect();
    let intersections = intersections_for(&roads, n + 1);
    Graph::new(roads, intersections, vec!["foot".to_string()]).unwrap()
}

fn pos(road: usize, fraction_along: u32, intersection: usize) -> Position {
    Position {
        road: RoadID(road),
        fraction_along,
        intersection: IntersectionID(intersection),
    }
}

fn road_step(road: usize, forwards: bool) -> PathStep {
    PathStep::Road {
        road: RoadID(road),
        forwards,
    }
}

#[test]
fn trivial_road() {
    // One 100 m road at 10 m/s: 10 s to cross.
    let roads = vec![road(0, 0, 1, vec![Direction::Both], vec![10_000])];
    let intersections = intersections_for(&roads, 2);
    let g = Graph::new(roads, intersections, vec!["car".to_string()]).unwrap();
    let route = g.routers[0]
        .route(&g, pos(0, 0, 0), pos(0, FRACTION_ONE, 1))
        .unwrap();
    assert_eq!(route.steps, vec![road_step(0, true)]);
    assert_eq!(
        route.slices(),
        vec![RoadSlice {
            road: RoadID(0),
            from: 0,
            to: FRACTION_ONE,
            forwards: true
        }]
    );
    assert_eq!(g.roads[0].cost[0], 10_000);

    let between = g.routers[0]
        .route_between_intersections(&g, IntersectionID(0), IntersectionID(1))
        .unwrap();
    assert_eq!(between.steps, vec![road_step(0, true)]);
    assert_eq!(between.start, pos(0, 0, 0));
    assert_eq!(between.end, pos(0, FRACTION_ONE, 1));
}

#[test]
fn snap_to_endpoint() {
    let g = chain(1, 10_000);
    // 3 m along a 100 m road.
    let p = g.snap_to_road(RoadID(0), 30_000);
    assert_eq!(p.road, RoadID(0));
    assert!(p.fraction_along <= 50_000);
    assert_eq!(p.intersection, IntersectionID(0));
    let far = g.snap_to_road(RoadID(0), 500_001);
    assert_eq!(far.intersection, IntersectionID(1));
    let half = g.snap_to_road(RoadID(0), 500_000);
    assert_eq!(half.intersection, IntersectionID(0));
}

#[test]
fn same_road_routing() {
    let g = chain(1, 10_000);
    let route = g.routers[0]
        .route(&g, pos(0, 200_000, 0), pos(0, 800_000, 1))
        .unwrap();
    assert_eq!(route.steps, vec![road_step(0, true)]);
    assert_eq!(
        route.slices(),
        vec![RoadSlice {
            road: RoadID(0),
            from: 200_000,
            to: 800_000,
            forwards: true
        }]
    );
    let back = g.routers[0]
        .route(&g, pos(0, 800_000, 1), pos(0, 200_000, 0))
        .unwrap();
    assert_eq!(back.steps, vec![road_step(0, false)]);
    assert_eq!(
        back.slices(),
        vec![RoadSlice {
            road: RoadID(0),
            from: 800_000,
            to: 200_000,
            forwards: false
        }]
    );
}

#[test]
fn route_start_equals_end() {
    let g = chain(2, 1_000);
    let p = pos(0, 100_000, 0);
    assert_eq!(g.routers[0].route(&g, p, p).err(), Some(GraphError::NoPath));
}

#[test]
fn route_meeting_at_intersection() {
    let g = chain(2, 1_000);
    let route = g.routers[0]
        .route(&g, pos(0, 900_000, 1), pos(1, 100_000, 1))
        .unwrap();
    assert_eq!(route.steps, vec![road_step(0, true), road_step(1, true)]);
}

#[test]
fn route_over_hierarchy_adds_partial_roads() {
    let g = chain(4, 1_000);
    // From a quarter along road 0 (nearest intersection 0) to three quarters
    // along road 3 (nearest intersection 4).
    let route = g.routers[0]
        .route(&g, pos(0, 250_000, 0), pos(3, 750_000, 4))
        .unwrap();
    assert_eq!(
        route.steps,
        vec![
            road_step(0, true),
            road_step(1, true),
            road_step(2, true),
            road_step(3, true)
        ]
    );
    let slices = route.slices();
    assert_eq!(slices.len(), 4);
    assert_eq!((slices[0].from, slices[0].to), (250_000, FRACTION_ONE));
    assert_eq!((slices[1].from, slices[1].to), (0, FRACTION_ONE));
    assert_eq!((slices[3].from, slices[3].to), (0, 750_000));
    assert_eq!(
        route.intersections(&g),
        vec![
            IntersectionID(0),
            IntersectionID(1),
            IntersectionID(2),
            IntersectionID(3),
            IntersectionID(4)
        ]
    );

    // Starting past the middle of road 1 heading back: the start road is
    // prepended.
    let route = g.routers[0]
        .route(&g, pos(1, 600_000, 2), pos(3, 600_000, 4))
        .unwrap();
    assert_eq!(
        route.steps,
        vec![road_step(1, true), road_step(2, true), road_step(3, true)]
    );
}

#[test]
fn route_respects_one_way_roads() {
    let roads = vec![
        road(0, 0, 1, vec![Direction::Forwards], vec![1_000]),
        road(1, 1, 2, vec![Direction::Forwards], vec![1_000]),
    ];
    let intersections = intersections_for(&roads, 3);
    let g = Graph::new(roads, intersections, vec!["car".to_string()]).unwrap();
    let ok = g.routers[0].route_between_intersections(&g, IntersectionID(0), IntersectionID(2));
    assert_eq!(ok.unwrap().steps, vec![road_step(0, true), road_step(1, true)]);
    let wrong_way =
        g.routers[0].route_between_intersections(&g, IntersectionID(2), IntersectionID(0));
    assert_eq!(wrong_way.err(), Some(GraphError::NoPath));
    let same = g.routers[0].route_between_intersections(&g, IntersectionID(1), IntersectionID(1));
    assert_eq!(same.err(), Some(GraphError::NoPath));
}

#[test]
fn route_between_waypoints() {
    let g = chain(3, 1_000);
    let route = g.routers[0]
        .route_between_many_intersections(
            &g,
            vec![IntersectionID(0), IntersectionID(2), IntersectionID(1)],
        )
        .unwrap();
    assert_eq!(
        route.steps,
        vec![road_step(0, true), road_step(1, true), road_step(1, false)]
    );
    assert_eq!(route.start.intersection, IntersectionID(0));
    assert_eq!(route.end.intersection, IntersectionID(1));
    let too_few = g.routers[0].route_between_many_intersections(&g, vec![IntersectionID(0)]);
    assert_eq!(too_few.err(), Some(GraphError::NoPath));
}

#[test]
fn router_edges_follow_access() {
    let roads = vec![
        road(0, 0, 1, vec![Direction::Forwards], vec![5]),
        road(1, 1, 2, vec![Direction::Backwards], vec![6]),
        road(2, 2, 2, vec![Direction::Both], vec![7]),
        road(3, 2, 3, vec![Direction::Both], vec![8]),
        road(4, 3, 0, vec![Direction::Neither], vec![9]),
    ];
    assert_eq!(
        profile_edges(&roads, ProfileID(0)),
        vec![(0, 1, 5), (2, 1, 6), (2, 3, 8), (3, 2, 8)]
    );
}

#[test]
fn update_costs_with_same_roads() {
    let mut g = chain(3, 1_000);
    let before = g.routers[0]
        .route_between_intersections(&g, IntersectionID(0), IntersectionID(3))
        .unwrap();
    let roads = std::mem::take(&mut g.roads);
    assert_eq!(g.routers[0].update_costs(&roads, ProfileID(0)), Ok(()));
    g.roads = roads;
    let after = g.routers[0]
        .route_between_intersections(&g, IntersectionID(0), IntersectionID(3))
        .unwrap();
    assert_eq!(before.steps, after.steps);
}

#[test]
fn update_costs_refuses_changed_access() {
    let mut g = chain(3, 1_000);
    let mut roads = std::mem::take(&mut g.roads);
    roads[2].access[0] = Direction::Neither;
    assert_eq!(
        g.routers[0].update_costs(&roads, ProfileID(0)),
        Err(GraphError::AccessChanged)
    );
}

#[test]
fn graph_new_rejects_bad_input() {
    let roads = vec![road(0, 0, 5, vec![Direction::Both], vec![1])];
    let intersections = intersections_for(&roads, 2);
    assert_eq!(
        Graph::new(roads, intersections, vec!["foot".to_string()]).err(),
        Some(GraphError::InputParse)
    );
    let roads = vec![road(0, 0, 1, vec![Direction::Both], vec![1])];
    let intersections = intersections_for(&roads, 2);
    assert_eq!(
        Graph::new(roads, intersections, vec!["foot".to_string(), "car".to_string()]).err(),
        Some(GraphError::InputParse)
    );
}

#[test]
fn isochrone_cap() {
    let g = chain(10, 60_000);
    let costs = g.get_costs(vec![IntersectionID(0)], ProfileID(0), false, 0, 150_000);
    assert_eq!(costs.len(), 3);
    // Each reached road holds the time to its far end from the intersection
    // that first reached it.
    assert_eq!(costs.get(&0), Some(&60_000));
    assert_eq!(costs.get(&1), Some(&120_000));
    assert_eq!(costs.get(&2), Some(&180_000));
}

#[test]
fn isochrone_from_two_starts() {
    let g = chain(4, 10_000);
    let costs = g.get_costs(
        vec![IntersectionID(0), IntersectionID(4)],
        ProfileID(0),
        false,
        1_000,
        1_000,
    );
    assert_eq!(costs.len(), 2);
    assert_eq!(costs.get(&0), Some(&10_000));
    assert_eq!(costs.get(&3), Some(&10_000));
}

fn transit_graph() -> Graph {
    // Two foot roads joined only by a trip: road 0 (0-1), road 1 (2-3).
    let roads = vec![
        road(0, 0, 1, vec![Direction::Both], vec![60_000]),
        road(1, 2, 3, vec![Direction::Both], vec![60_000]),
    ];
    let intersections = intersections_for(&roads, 4);
    let mut g = Graph::new(roads, intersections, vec!["foot".to_string()]).unwrap();
    let h = |hh: u64, mm: u64| (hh * 3600 + mm * 60) * 1000;
    let stop = |name: &str, next_steps: Vec<NextStep>| Stop {
        name: name.to_string(),
        orig_id: name.to_string(),
        road: RoadID(0),
        next_steps,
    };
    let gtfs = GtfsModel {
        stops: vec![
            stop(
                "S1",
                vec![NextStep {
                    time1: h(7, 5),
                    trip: TripID(0),
                    stop2: StopID(1),
                    time2: h(7, 10),
                }],
            ),
            stop("S2", Vec::new()),
        ],
        trips: vec![Trip {
            stop_sequence: vec![(StopID(0), h(7, 5)), (StopID(1), h(7, 10))],
            route: graph::RouteID(0),
        }],
        routes: Vec::new(),
    };
    g.setup_gtfs(gtfs, ProfileID(0), vec![Some(RoadID(0)), Some(RoadID(1))])
        .unwrap();
    g
}

#[test]
fn transit_transfer() {
    let g = transit_graph();
    let start_time = 7 * 3600 * 1000;
    let found = g
        .transit_route(pos(0, 100_000, 0), pos(1, 900_000, 3), false, &Vec::new(), start_time)
        .unwrap();
    assert_eq!(found.legs.len(), 1);
    assert_eq!(
        found.legs[0],
        Leg {
            from: IntersectionID(0),
            step: PathStep::Transit {
                stop1: StopID(0),
                trip: TripID(0),
                stop2: StopID(1)
            },
            time1: (7 * 3600 + 5 * 60) * 1000,
            time2: (7 * 3600 + 10 * 60) * 1000,
        }
    );
    assert_eq!(group_legs(&found.legs), vec![(0, 1)]);
}

#[test]
fn transit_missed_departure() {
    let g = transit_graph();
    let start_time = (7 * 3600 + 6 * 60) * 1000;
    let found = g.transit_route(pos(0, 100_000, 0), pos(1, 900_000, 3), false, &Vec::new(), start_time);
    assert_eq!(found.err(), Some(GraphError::NoPath));
}

#[test]
fn transit_requires_setup() {
    let g = chain(2, 1_000);
    let found = g.transit_route(pos(0, 0, 0), pos(1, FRACTION_ONE, 2), false, &Vec::new(), 0);
    assert_eq!(found.err(), Some(GraphError::TransitNotSetUp));
}

#[test]
fn transit_debug_search_records_exploration() {
    let g = transit_graph();
    let found = g
        .transit_route(pos(0, 0, 0), pos(1, FRACTION_ONE, 3), true, &Vec::new(), 7 * 3600 * 1000)
        .unwrap();
    assert!(!found.explored.is_empty());
    assert_eq!(found.explored[0].0, IntersectionID(0));
    assert_eq!(found.explored[0].1, None);
}

#[test]
fn setup_gtfs_twice() {
    let mut g = transit_graph();
    let again = g.setup_gtfs(GtfsModel::empty(), ProfileID(0), Vec::new());
    assert_eq!(again, Err(GraphError::GtfsAlreadyConfigured));
}

#[test]
fn flood_rides_transit() {
    let g = transit_graph();
    let start = 7 * 3600 * 1000;
    let costs = g.get_costs(vec![IntersectionID(0)], ProfileID(0), true, start, start + 15 * 60 * 1000);
    // Road 1 is reached by riding at 07:05, arriving 07:10, then crossing it.
    assert_eq!(costs.get(&1), Some(&(11 * 60 * 1000)));
    let walking_only = g.get_costs(vec![IntersectionID(0)], ProfileID(0), false, start, start + 15 * 60 * 1000);
    assert_eq!(walking_only.get(&1), None);
}

#[test]
fn stuck_snap() {
    let g = chain(2, 1_000);
    // The input reaches intersection 1 half way, then doubles back so that
    // intersection 2's closest point lies before it.
    let locate = vec![Some((0, 0)), Some((500_000, 10)), Some((300_000, 10))];
    let r = g.snap_route(&locate, pos(0, 0, 0), pos(1, FRACTION_ONE, 2));
    assert_eq!(r.err(), Some(GraphError::SnapStuck));
}

#[test]
fn greedy_snap_follows_input() {
    let g = chain(3, 1_000);
    let locate = vec![
        Some((0, 0)),
        Some((300_000, 50)),
        Some((600_000, 20)),
        Some((FRACTION_ONE, 0)),
    ];
    let route = g
        .snap_route(&locate, pos(0, 0, 0), pos(2, FRACTION_ONE, 3))
        .unwrap();
    assert_eq!(
        route.steps,
        vec![road_step(0, true), road_step(1, true), road_step(2, true)]
    );
}

#[test]
fn greedy_snap_prefers_closest_candidate() {
    // A star: intersection 0 joined to 1 and 2, both joined to 3.
    let roads = vec![
        road(0, 0, 1, vec![Direction::Both], vec![1_000]),
        road(1, 0, 2, vec![Direction::Both], vec![1_000]),
        road(2, 1, 3, vec![Direction::Both], vec![1_000]),
        road(3, 2, 3, vec![Direction::Both], vec![1_000]),
    ];
    let intersections = intersections_for(&roads, 4);
    let g = Graph::new(roads, intersections, vec!["foot".to_string()]).unwrap();
    let locate = vec![
        Some((0, 0)),
        Some((500_000, 900)),
        Some((500_000, 30)),
        Some((FRACTION_ONE, 0)),
    ];
    let route = g
        .snap_route(&locate, pos(0, 0, 0), pos(3, FRACTION_ONE, 3))
        .unwrap();
    assert_eq!(route.steps, vec![road_step(1, true), road_step(3, true)]);
}

#[test]
fn trips_from_window() {
    let mk = |t: u64| NextStep {
        time1: t,
        trip: TripID(0),
        stop2: StopID(0),
        time2: t + 10,
    };
    let gtfs = GtfsModel {
        stops: vec![Stop {
            name: "a".to_string(),
            orig_id: "a".to_string(),
            road: RoadID(0),
            next_steps: vec![mk(10), mk(20), mk(30), mk(40), mk(50)],
        }],
        trips: Vec::new(),
        routes: Vec::new(),
    };
    let found: Vec<u64> = gtfs
        .trips_from(StopID(0), 20, 20)
        .iter()
        .map(|x| x.time1)
        .collect();
    assert_eq!(found, vec![20, 30, 40]);
    assert!(gtfs.trips_from(StopID(0), 60, 100).is_empty());
    assert_eq!(gtfs.trips_from(StopID(0), 0, u64::MAX).len(), 5);
}

#[test]
fn next_steps_sorted_by_departure() {
    let stop = |name: &str| Stop {
        name: name.to_string(),
        orig_id: name.to_string(),
        road: RoadID(0),
        next_steps: Vec::new(),
    };
    let mut gtfs = GtfsModel {
        stops: vec![stop("a"), stop("b"), stop("c")],
        trips: vec![
            Trip {
                stop_sequence: vec![(StopID(0), 900), (StopID(1), 950), (StopID(2), 990)],
                route: graph::RouteID(0),
            },
            Trip {
                stop_sequence: vec![(StopID(0), 100), (StopID(2), 300)],
                route: graph::RouteID(0),
            },
            Trip {
                stop_sequence: vec![(StopID(0), 500), (StopID(1), 600)],
                route: graph::RouteID(0),
            },
        ],
        routes: Vec::new(),
    };
    gtfs.precompute_next_steps();
    let a: Vec<(u64, usize, usize, u64)> = gtfs.stops[0]
        .next_steps
        .iter()
        .map(|x| (x.time1, x.trip.0, x.stop2.0, x.time2))
        .collect();
    assert_eq!(a, vec![(100, 1, 2, 300), (500, 2, 1, 600), (900, 0, 1, 950)]);
    assert_eq!(gtfs.stops[1].next_steps.len(), 1);
    assert_eq!(gtfs.stops[1].next_steps[0].stop2, StopID(2));
    assert!(gtfs.stops[2].next_steps.is_empty());
}

#[test]
fn id_mapping_assigns_dense_ids() {
    let mut m: IDMapping<String, StopID> = IDMapping::new();
    assert_eq!(m.insert_new("x".to_string()), Ok(StopID(0)));
    assert_eq!(m.insert_new("y".to_string()), Ok(StopID(1)));
    assert_eq!(
        m.insert_new("x".to_string()),
        Err(GraphError::DuplicateId)
    );
    assert_eq!(m.get(&"y".to_string()), Some(StopID(1)));
    assert_eq!(m.get(&"z".to_string()), None);
    assert_eq!(m.insert_idempotent(&"y".to_string()), StopID(1));
    assert_eq!(m.insert_idempotent(&"z".to_string()), StopID(2));
    assert_eq!(m.borrow().len(), 3);
}

#[test]
fn mode_parse() {
    assert_eq!(Mode::parse("car"), Ok(Mode::Car));
    assert_eq!(Mode::parse("bicycle"), Ok(Mode::Bicycle));
    assert_eq!(Mode::parse("foot"), Ok(Mode::Foot));
    assert_eq!(Mode::parse("transit"), Ok(Mode::Foot));
    assert_eq!(Mode::parse("boat"), Err(GraphError::UnknownProfile));
}

#[test]
fn directions_from_lanes() {
    assert_eq!(bool_to_dir(true, true), Direction::Both);
    assert_eq!(bool_to_dir(true, false), Direction::Forwards);
    assert_eq!(bool_to_dir(false, true), Direction::Backwards);
    assert_eq!(bool_to_dir(false, false), Direction::Neither);
    let r = road(0, 0, 1, vec![Direction::Backwards], vec![1]);
    assert!(!r.allows_forwards(ProfileID(0)));
    assert!(r.allows_backwards(ProfileID(0)));
}

#[test]
fn transit_route_names() {
    let mut r = TransitRoute {
        orig_id: "R1".to_string(),
        short_name: Some("1".to_string()),
        long_name: Some("Long".to_string()),
        description: None,
    };
    assert_eq!(r.describe(), "Long");
    r.long_name = None;
    assert_eq!(r.describe(), "1");
    r.short_name = None;
    assert_eq!(r.describe(), "R1");
    r.description = Some("Desc".to_string());
    assert_eq!(r.describe(), "Desc");
}

#[test]
fn legs_grouped_by_kind_and_trip() {
    let walk = |from: usize| Leg {
        from: IntersectionID(from),
        step: road_step(from, true),
        time1: 0,
        time2: 0,
    };
    let ride = |trip: usize| Leg {
        from: IntersectionID(0),
        step: PathStep::Transit {
            stop1: StopID(0),
            trip: TripID(trip),
            stop2: StopID(1),
        },
        time1: 0,
        time2: 0,
    };
    let legs = vec![walk(0), walk(1), ride(4), ride(4), ride(5), walk(2)];
    assert_eq!(group_legs(&legs), vec![(0, 2), (2, 4), (4, 5), (5, 6)]);
    assert!(group_legs(&Vec::new()).is_empty());
}

#[test]
fn flood_arrival_times_obey_triangle_inequality() {
    // A triangle: 0-1 costs 10 s, 1-2 costs 10 s, 0-2 costs 30 s.
    let roads = vec![
        road(0, 0, 1, vec![Direction::Both], vec![10_000]),
        road(1, 1, 2, vec![Direction::Both], vec![10_000]),
        road(2, 0, 2, vec![Direction::Both], vec![30_000]),
    ];
    let intersections = intersections_for(&roads, 3);
    let g = Graph::new(roads, intersections, vec!["foot".to_string()]).unwrap();
    let (costs, arrivals) = g.flood(vec![IntersectionID(0)], ProfileID(0), false, 0, 100_000);
    assert_eq!(arrivals, vec![Some(0), Some(10_000), Some(20_000)]);
    // Road 2 is first reached from intersection 0.
    assert_eq!(costs.get(&2), Some(&30_000));
    let (_, cut) = g.flood(vec![IntersectionID(0)], ProfileID(0), false, 0, 15_000);
    assert_eq!(cut, vec![Some(0), Some(10_000), None]);
}

#[test]
fn roads_ordered_by_bearing() {
    let sorted = sort_by_bearing(vec![
        (270_000_000, RoadID(0)),
        (90_000_000, RoadID(1)),
        (0, RoadID(2)),
        (90_000_000, RoadID(3)),
    ]);
    assert_eq!(
        sorted,
        vec![
            (0, RoadID(2)),
            (90_000_000, RoadID(1)),
            (90_000_000, RoadID(3)),
            (270_000_000, RoadID(0))
        ]
    );
    assert!(sort_by_bearing(Vec::new()).is_empty());
}

#[test]
fn route_takes_the_cheapest_parallel_road() {
    // Two roads join 0 and 1; the second is cheaper. Road 2 joins 1 and 2.
    let roads = vec![
        road(0, 0, 1, vec![Direction::Both], vec![9_000]),
        road(1, 0, 1, vec![Direction::Both], vec![2_000]),
        road(2, 1, 2, vec![Direction::Both], vec![1_000]),
    ];
    let intersections = intersections_for(&roads, 3);
    let g = Graph::new(roads, intersections, vec!["foot".to_string()]).unwrap();
    let r = g.routers[0]
        .route_between_intersections(&g, IntersectionID(0), IntersectionID(2))
        .unwrap();
    assert_eq!(r.steps, vec![road_step(1, true), road_step(2, true)]);
    assert_eq!(g.find_road(0, 1, ProfileID(0)), Some(RoadID(1)));
}

#[test]
fn route_avoids_roads_the_profile_may_not_take() {
    // The short way 0-1-2 is one-way against us; the long way 0-3-2 is open.
    let roads = vec![
        road(0, 1, 0, vec![Direction::Forwards], vec![1_000]),
        road(1, 1, 2, vec![Direction::Both], vec![1_000]),
        road(2, 0, 3, vec![Direction::Both], vec![5_000]),
        road(3, 3, 2, vec![Direction::Both], vec![5_000]),
    ];
    let intersections = intersections_for(&roads, 4);
    let g = Graph::new(roads, intersections, vec!["car".to_string()]).unwrap();
    let r = g.routers[0]
        .route_between_intersections(&g, IntersectionID(0), IntersectionID(2))
        .unwrap();
    assert_eq!(r.steps, vec![road_step(2, true), road_step(3, true)]);
    assert_eq!(g.find_road(0, 1, ProfileID(0)), None);
}

#[test]
fn graph_new_requires_listed_roads_and_access() {
    // Road 1 is missing from intersection 2's list.
    let roads = vec![
        road(0, 0, 1, vec![Direction::Both], vec![1]),
        road(1, 1, 2, vec![Direction::Both], vec![1]),
    ];
    let mut intersections = intersections_for(&roads, 3);
    intersections[2].roads.clear();
    assert_eq!(
        Graph::new(roads, intersections, vec!["foot".to_string()]).err(),
        Some(GraphError::InputParse)
    );
    // A road no profile may cross.
    let roads = vec![road(0, 0, 1, vec![Direction::Neither], vec![1])];
    let intersections = intersections_for(&roads, 2);
    assert_eq!(
        Graph::new(roads, intersections, vec!["foot".to_string()]).err(),
        Some(GraphError::InputParse)
    );
}

#[test]
fn flood_records_roads_along_walks() {
    let g = chain(5, 10_000);
    let costs = g.get_costs(vec![IntersectionID(2)], ProfileID(0), false, 0, 10_000);
    // Intersections 1, 2 and 3 are reached within the window.
    let mut keys: Vec<usize> = costs.keys().copied().collect();
    keys.sort();
    assert_eq!(keys, vec![0, 1, 2, 3]);
}

#[test]
fn ways_accepted_by_tags_and_access() {
    let t = |k: &str, v: &str| (k.to_string(), v.to_string());
    assert!(accept_way(&vec![t("highway", "primary")], &vec![Direction::Both]));
    assert!(!accept_way(&vec![t("highway", "proposed")], &vec![Direction::Both]));
    assert!(!accept_way(&vec![t("highway", "service"), t("area", "yes")], &vec![Direction::Both]));
    assert!(!accept_way(&vec![t("name", "x")], &vec![Direction::Both]));
    assert!(!accept_way(&vec![t("highway", "primary")], &vec![Direction::Neither, Direction::Neither]));
}

#[test]
fn runs_of_equal_keys() {
    assert_eq!(split_runs(&vec![1, 1, 2, 2, 2, 1]), vec![(0, 2), (2, 5), (5, 6)]);
    assert!(split_runs(&Vec::new()).is_empty());
}
