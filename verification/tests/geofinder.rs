use geo::Contains;
use mimirsbrunn::admin::{Admin, AdminStore};
use mimirsbrunn::admin_geofinder::{AdminGeoFinder, IndexError, MAX_DEPTH};
use mimirsbrunn::boundary::{Boundary, Polygon};
use mimirsbrunn::coord::{BoundingBox, Coord};

fn at(lon: i32, lat: i32) -> Coord {
    Coord { lon, lat }
}

fn ring(points: &[(i32, i32)]) -> Vec<Coord> {
    points.iter().map(|&(lon, lat)| at(lon, lat)).collect()
}

fn rectangle(west: i32, south: i32, east: i32, north: i32) -> Polygon {
    Polygon {
        exterior: ring(&[(west, south), (east, south), (east, north), (west, north)]),
        interiors: vec![],
    }
}

fn region(name: &str, level: u32, boundary: Option<Boundary>) -> Admin {
    Admin {
        id: format!("admin:osm:{}", name),
        level,
        name: name.to_string(),
        zip_code: String::new(),
        weight: 1,
        coord: None,
        boundary,
        insee: String::new(),
    }
}

fn boxed(name: &str, level: u32, west: i32, south: i32, east: i32, north: i32) -> Admin {
    region(name, level, Some(Boundary { polygons: vec![rectangle(west, south, east, north)] }))
}

fn names(finder: &AdminGeoFinder, p: Coord) -> Vec<String> {
    let mut found: Vec<String> =
        finder.get_admins_for_coord(&p).iter().map(|a| a.name.clone()).collect();
    found.sort();
    found
}

fn sorted(mut handles: Vec<usize>) -> Vec<usize> {
    handles.sort();
    handles
}

#[test]
fn empty_index_finds_nothing() {
    let finder = AdminGeoFinder::new();
    assert_eq!(finder.len(), 0);
    assert!(finder.get_admins_for_coord(&at(0, 0)).is_empty());
    assert!(finder.handles_for_coord(at(0, 0)).is_empty());
    assert!(finder.candidates_for_coord(at(0, 0)).is_empty());
}

#[test]
fn point_inside_a_polygon_finds_its_region() {
    let mut finder = AdminGeoFinder::new();
    finder.add_admin(boxed("square", 8, 0, 0, 100, 100));
    assert_eq!(names(&finder, at(50, 50)), vec!["square"]);
    assert_eq!(names(&finder, at(1, 99)), vec!["square"]);
    assert_eq!(finder.handles_for_coord(at(50, 50)), vec![0]);
}

#[test]
fn point_outside_every_polygon_finds_nothing() {
    let mut finder = AdminGeoFinder::new();
    finder.add_admin(boxed("square", 8, 0, 0, 100, 100));
    finder.add_admin(boxed("far", 8, 1000, 1000, 1100, 1100));
    for p in [at(-1, 50), at(101, 50), at(50, -1), at(50, 101), at(500, 500), at(-50, -50)] {
        assert!(names(&finder, p).is_empty(), "{:?}", p);
    }
}

#[test]
fn point_on_the_edge_or_a_vertex_is_not_inside() {
    let mut finder = AdminGeoFinder::new();
    finder.add_admin(boxed("square", 8, 0, 0, 100, 100));
    for p in [at(0, 50), at(100, 50), at(50, 0), at(50, 100), at(0, 0), at(100, 100)] {
        assert!(names(&finder, p).is_empty(), "{:?}", p);
        assert_eq!(finder.candidates_for_coord(p), vec![0], "{:?}", p);
    }
}

#[test]
fn nested_regions_are_all_found() {
    let mut finder = AdminGeoFinder::new();
    finder.add_admin(boxed("country", 2, -1000, -1000, 1000, 1000));
    finder.add_admin(boxed("region", 4, 0, 0, 500, 500));
    finder.add_admin(boxed("city", 8, 100, 100, 200, 200));
    assert_eq!(names(&finder, at(150, 150)), vec!["city", "country", "region"]);
    assert_eq!(names(&finder, at(300, 300)), vec!["country", "region"]);
    assert_eq!(names(&finder, at(-300, 300)), vec!["country"]);
    assert!(names(&finder, at(2000, 0)).is_empty());
}

#[test]
fn region_without_boundary_is_never_found() {
    let mut finder = AdminGeoFinder::new();
    finder.add_admin(region("nowhere", 8, None));
    finder.add_admin(region("empty", 8, Some(Boundary { polygons: vec![] })));
    finder.add_admin(region(
        "hollow",
        8,
        Some(Boundary { polygons: vec![Polygon { exterior: vec![], interiors: vec![] }] }),
    ));
    finder.add_admin(boxed("square", 8, 0, 0, 100, 100));
    assert_eq!(finder.len(), 4);
    assert_eq!(finder.handles_for_coord(at(50, 50)), vec![3]);
    assert_eq!(finder.candidates_for_coord(at(50, 50)), vec![3]);
    assert_eq!(finder.admin(0).name, "nowhere");
    assert_eq!(finder.store().get(2).name, "hollow");
}

#[test]
fn hole_is_outside() {
    let mut finder = AdminGeoFinder::new();
    let ring_shaped = Polygon {
        exterior: ring(&[(0, 0), (100, 0), (100, 100), (0, 100)]),
        interiors: vec![ring(&[(40, 40), (60, 40), (60, 60), (40, 60)])],
    };
    finder.add_admin(region("ring", 8, Some(Boundary { polygons: vec![ring_shaped] })));
    assert_eq!(names(&finder, at(20, 20)), vec!["ring"]);
    assert!(names(&finder, at(50, 50)).is_empty());
    assert_eq!(finder.candidates_for_coord(at(50, 50)), vec![0]);
}

#[test]
fn every_polygon_of_a_boundary_counts() {
    let mut finder = AdminGeoFinder::new();
    let islands = Boundary {
        polygons: vec![rectangle(0, 0, 10, 10), rectangle(1000, 1000, 1010, 1010)],
    };
    finder.add_admin(region("islands", 8, Some(islands)));
    assert_eq!(names(&finder, at(5, 5)), vec!["islands"]);
    assert_eq!(names(&finder, at(1005, 1005)), vec!["islands"]);
    assert!(names(&finder, at(500, 500)).is_empty());
    assert_eq!(finder.candidates_for_coord(at(500, 500)), vec![0]);
    assert!(finder.candidates_for_coord(at(1011, 500)).is_empty());
}

#[test]
fn triangle_is_tested_exactly_within_its_box() {
    let mut finder = AdminGeoFinder::new();
    let triangle = Polygon { exterior: ring(&[(0, 0), (100, 0), (0, 100)]), interiors: vec![] };
    finder.add_admin(region("triangle", 8, Some(Boundary { polygons: vec![triangle] })));
    assert_eq!(names(&finder, at(10, 10)), vec!["triangle"]);
    assert!(names(&finder, at(90, 90)).is_empty());
    assert_eq!(finder.candidates_for_coord(at(90, 90)), vec![0]);
}

#[test]
fn closed_ring_and_open_ring_are_the_same_polygon() {
    let open = Boundary { polygons: vec![rectangle(0, 0, 100, 100)] };
    let closed = Boundary {
        polygons: vec![Polygon {
            exterior: ring(&[(0, 0), (100, 0), (100, 100), (0, 100), (0, 0)]),
            interiors: vec![],
        }],
    };
    for p in [at(50, 50), at(0, 0), at(100, 50), at(101, 50), at(-1, -1)] {
        assert_eq!(open.contains(p), closed.contains(p), "{:?}", p);
    }
    assert!(open.contains(at(50, 50)));
}

#[test]
fn bounding_box_is_the_extent_of_the_outer_rings() {
    let boundary = Boundary {
        polygons: vec![
            Polygon {
                exterior: ring(&[(5, -7), (30, 2), (11, 40)]),
                interiors: vec![ring(&[(-100, -100), (200, 200), (0, 300)])],
            },
            rectangle(-3, 0, 4, 8),
        ],
    };
    assert_eq!(
        boundary.bounding_box(),
        Some(BoundingBox { min_lon: -3, min_lat: -7, max_lon: 30, max_lat: 40 })
    );
    assert_eq!(Boundary { polygons: vec![] }.bounding_box(), None);
    let single = Boundary {
        polygons: vec![Polygon { exterior: ring(&[(9, 8)]), interiors: vec![] }],
    };
    assert_eq!(
        single.bounding_box(),
        Some(BoundingBox { min_lon: 9, min_lat: 8, max_lon: 9, max_lat: 8 })
    );
    assert!(!single.contains(at(9, 8)));
}

#[test]
fn extreme_coordinates_are_handled() {
    let mut finder = AdminGeoFinder::new();
    finder.add_admin(boxed("world", 2, i32::MIN, i32::MIN, i32::MAX, i32::MAX));
    finder.add_admin(boxed("corner", 8, i32::MAX - 10, i32::MAX - 10, i32::MAX, i32::MAX));
    assert_eq!(names(&finder, at(0, 0)), vec!["world"]);
    assert_eq!(names(&finder, at(i32::MAX - 5, i32::MAX - 5)), vec!["corner", "world"]);
    assert!(names(&finder, at(i32::MAX, i32::MAX)).is_empty());
    assert_eq!(names(&finder, at(i32::MIN + 1, i32::MIN + 1)), vec!["world"]);
}

#[test]
fn grid_of_cells_is_searched_through_the_tree() {
    let mut finder = AdminGeoFinder::new();
    let side = 1_000_000;
    for row in 0..20 {
        for col in 0..20 {
            let west = col * side;
            let south = row * side;
            finder.add_admin(boxed(
                &format!("cell {} {}", row, col),
                8,
                west,
                south,
                west + side,
                south + side,
            ));
        }
    }
    finder.add_admin(boxed("all", 4, 0, 0, 20 * side, 20 * side));
    assert_eq!(finder.len(), 401);
    for row in 0..20 {
        for col in 0..20 {
            let p = at(col * side + side / 2, row * side + side / 3);
            let mut expected = vec!["all".to_string(), format!("cell {} {}", row, col)];
            expected.sort();
            assert_eq!(names(&finder, p), expected);
            assert_eq!(
                sorted(finder.handles_for_coord(p)),
                vec![(row * 20 + col) as usize, 400]
            );
        }
    }
    assert!(names(&finder, at(-1, -1)).is_empty());
    let shared = finder.candidates_for_coord(at(side, side));
    assert_eq!(sorted(shared), vec![0, 1, 20, 21, 400]);
    assert_eq!(finder.handles_for_coord(at(side, side)), vec![400]);
}

#[test]
fn many_regions_at_one_place_are_all_found() {
    let mut finder = AdminGeoFinder::new();
    for i in 0..50 {
        finder.add_admin(boxed(&format!("{:02}", i), 8, 10, 10, 20 + i, 20 + i));
    }
    let found = names(&finder, at(15, 15));
    assert_eq!(found.len(), 50);
    let handles = sorted(finder.handles_for_coord(at(15, 15)));
    assert_eq!(handles, (0..50).collect::<Vec<usize>>());
    let far = sorted(finder.handles_for_coord(at(60, 60)));
    assert_eq!(far, (41..50).collect::<Vec<usize>>());
}

#[test]
fn tiny_regions_stop_at_the_depth_limit() {
    assert_eq!(MAX_DEPTH, 16);
    let mut finder = AdminGeoFinder::new();
    for i in 0..64 {
        finder.add_admin(boxed(&format!("{:02}", i), 8, 4 * i, 0, 4 * i + 2, 2));
    }
    for i in 0..64 {
        assert_eq!(finder.handles_for_coord(at(4 * i + 1, 1)), vec![i as usize]);
        assert!(finder.handles_for_coord(at(4 * i + 3, 1)).is_empty());
    }
}

#[test]
fn same_query_twice_gives_the_same_regions() {
    let mut finder = AdminGeoFinder::new();
    finder.add_admin(boxed("country", 2, -1000, -1000, 1000, 1000));
    finder.add_admin(boxed("city", 8, 100, 100, 200, 200));
    finder.add_admin(boxed("other", 8, 150, 150, 300, 300));
    let p = at(160, 160);
    let first = finder.handles_for_coord(p);
    let second = finder.handles_for_coord(p);
    assert_eq!(first, second);
    assert_eq!(sorted(first), vec![0, 1, 2]);
}

#[test]
fn candidates_include_every_hit() {
    let mut finder = AdminGeoFinder::new();
    let triangle = Polygon { exterior: ring(&[(0, 0), (100, 0), (0, 100)]), interiors: vec![] };
    finder.add_admin(region("triangle", 8, Some(Boundary { polygons: vec![triangle] })));
    finder.add_admin(boxed("square", 8, 50, 50, 150, 150));
    finder.add_admin(boxed("far", 8, 500, 500, 600, 600));
    for lon in (-20..180).step_by(7) {
        for lat in (-20..180).step_by(7) {
            let p = at(lon, lat);
            let candidates = finder.candidates_for_coord(p);
            for h in finder.handles_for_coord(p) {
                assert!(candidates.contains(&h), "{:?}", p);
                assert!(finder.admin(h).contains(p), "{:?}", p);
            }
            for h in 0..finder.len() {
                let inside = finder.admin(h).contains(p);
                assert_eq!(finder.handles_for_coord(p).contains(&h), inside, "{:?}", p);
            }
        }
    }
}

#[test]
fn build_indexes_regions_in_their_order() {
    let finder = AdminGeoFinder::build(vec![
        boxed("a", 8, 0, 0, 10, 10),
        region("b", 8, None),
        boxed("c", 8, 5, 5, 15, 15),
    ]);
    assert_eq!(finder.len(), 3);
    assert_eq!(finder.admin(0).name, "a");
    assert_eq!(finder.admin(1).name, "b");
    assert_eq!(finder.admin(2).name, "c");
    assert_eq!(sorted(finder.handles_for_coord(at(7, 7))), vec![0, 2]);
    assert!(AdminGeoFinder::build(vec![]).handles_for_coord(at(0, 0)).is_empty());
}

#[test]
fn store_hands_out_handles_in_order() {
    let mut store = AdminStore::new();
    assert_eq!(store.len(), 0);
    assert_eq!(store.insert(region("a", 2, None)), 0);
    assert_eq!(store.insert(region("b", 4, None)), 1);
    assert_eq!(store.len(), 2);
    assert_eq!(store.get(0).name, "a");
    assert_eq!(store.get(1).level, 4);
}

#[test]
fn quadrants_partition_a_rectangle() {
    let bb = BoundingBox { min_lon: -3, min_lat: 0, max_lon: 4, max_lat: 1 };
    assert!(bb.can_split());
    assert_eq!(bb.quadrant_box(0), BoundingBox { min_lon: -3, min_lat: 0, max_lon: 0, max_lat: 0 });
    assert_eq!(bb.quadrant_box(1), BoundingBox { min_lon: 1, min_lat: 0, max_lon: 4, max_lat: 0 });
    assert_eq!(bb.quadrant_box(2), BoundingBox { min_lon: -3, min_lat: 1, max_lon: 0, max_lat: 1 });
    assert_eq!(bb.quadrant_box(3), BoundingBox { min_lon: 1, min_lat: 1, max_lon: 4, max_lat: 1 });
    for lon in -3..=4 {
        for lat in 0..=1 {
            let p = at(lon, lat);
            let slot = bb.quadrant_index(p);
            for s in 0..4u8 {
                assert_eq!(bb.quadrant_box(s).contains(p), s == slot);
            }
        }
    }
    assert!(!BoundingBox { min_lon: 0, min_lat: 0, max_lon: 0, max_lat: 9 }.can_split());
    let world = BoundingBox::world();
    assert_eq!(world.quadrant_box(3).min_lon, 0);
    assert_eq!(world.quadrant_box(0).max_lon, -1);
    assert_eq!(world.quadrant_index(at(-1, 0)), 2);
    assert_eq!(BoundingBox::at(at(3, 4)).extended(at(-1, 9)),
        BoundingBox { min_lon: -1, min_lat: 4, max_lon: 3, max_lat: 9 });
}

#[test]
fn index_without_any_boundary_is_not_searchable() {
    assert!(!AdminGeoFinder::new().has_boundaries());
    let unbounded = || {
        vec![
            region("nowhere", 8, None),
            region("empty", 8, Some(Boundary { polygons: vec![] })),
            region(
                "hollow",
                8,
                Some(Boundary {
                    polygons: vec![Polygon {
                        exterior: vec![],
                        interiors: vec![ring(&[(0, 0), (1, 0), (1, 1)])],
                    }],
                }),
            ),
        ]
    };
    assert!(!AdminGeoFinder::build(unbounded()).has_boundaries());
    assert_eq!(AdminGeoFinder::build_searchable(unbounded()).err(), Some(IndexError::NoBoundary));
    assert_eq!(AdminGeoFinder::build_searchable(vec![]).err(), Some(IndexError::NoBoundary));
    let mut some = unbounded();
    some.push(boxed("square", 8, 0, 0, 10, 10));
    let finder = AdminGeoFinder::build_searchable(some).ok().unwrap();
    assert!(finder.has_boundaries());
    assert_eq!(finder.len(), 4);
    assert_eq!(finder.handles_for_coord(at(5, 5)), vec![3]);
    let mut grown = AdminGeoFinder::new();
    grown.add_admin(region("nowhere", 8, None));
    assert!(!grown.has_boundaries());
    grown.add_admin(boxed("point", 8, 3, 3, 3, 3));
    assert!(grown.has_boundaries());
    assert!(grown.handles_for_coord(at(3, 3)).is_empty());
    assert_eq!(grown.candidates_for_coord(at(3, 3)), vec![1]);
}

#[test]
fn region_tests_a_point_against_its_boundary() {
    let square = boxed("square", 8, 0, 0, 100, 100);
    assert!(square.contains(at(50, 50)));
    assert!(!square.contains(at(150, 50)));
    assert!(!square.contains(at(100, 50)));
    assert!(!region("nowhere", 8, None).contains(at(0, 0)));
}

fn to_geo(boundary: &Boundary) -> geo::MultiPolygon<i128> {
    let line = |ring: &Vec<Coord>| {
        geo::LineString::from(
            ring.iter().map(|c| (c.lon as i128, c.lat as i128)).collect::<Vec<_>>(),
        )
    };
    geo::MultiPolygon::new(
        boundary
            .polygons
            .iter()
            .map(|p| geo::Polygon::new(line(&p.exterior), p.interiors.iter().map(line).collect()))
            .collect(),
    )
}

/// A small generator of numbers, the same on every run.
struct Sequence(u64);

impl Sequence {
    fn next(&mut self, below: i32) -> i32 {
        self.0 = self.0.wrapping_mul(6364136223846793005).wrapping_add(1442695040888963407);
        ((self.0 >> 33) % below as u64) as i32
    }
}

#[test]
fn containment_is_the_answer_of_the_polygon_test() {
    let mut numbers = Sequence(17);
    for round in 0..60 {
        let mut polygons = Vec::new();
        for _ in 0..1 + numbers.next(3) {
            let vertices = 3 + numbers.next(6);
            let exterior: Vec<Coord> =
                (0..vertices).map(|_| at(numbers.next(200) - 100, numbers.next(200) - 100)).collect();
            let interiors = if numbers.next(3) == 0 {
                vec![(0..3).map(|_| at(numbers.next(100) - 50, numbers.next(100) - 50)).collect()]
            } else {
                vec![]
            };
            polygons.push(Polygon { exterior, interiors });
        }
        let boundary = Boundary { polygons };
        let shape = to_geo(&boundary);
        let extent = boundary.bounding_box().unwrap();
        let mut finder = AdminGeoFinder::new();
        finder.add_admin(boxed("filler", 4, -50, -50, 50, 50));
        finder.add_admin(region("shape", 8, Some(boundary.clone())));
        for lon in (-120..=120).step_by(5) {
            for lat in (-120..=120).step_by(5) {
                let p = at(lon, lat);
                let expected = shape.contains(&geo::Point::new(lon as i128, lat as i128));
                assert_eq!(boundary.contains(p), expected, "round {} at {:?}", round, p);
                assert!(!expected || extent.contains(p), "round {} at {:?}", round, p);
                assert_eq!(
                    finder.handles_for_coord(p).contains(&1),
                    expected,
                    "round {} at {:?}",
                    round,
                    p
                );
            }
        }
    }
}
