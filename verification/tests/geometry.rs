use nesting::geometry::Point;
use nesting::job::{ErrorType, Input, Part, Sheet};
use nesting::nest_polygon::{GeomError, NestPolygon};
use nesting::nesting_runner::{validate, NestPart};
use nesting::packing::PlacementSequence;

fn pts(raw: &[(i64, i64)]) -> Vec<Point> {
    raw.iter().map(|&(x, y)| Point { x, y }).collect()
}

#[test]
fn three_vertex_polygons_are_convex() {
    let p = NestPolygon::new(pts(&[(70, 10), (80, 20), (90, 40)])).unwrap();
    assert!(p.is_convex);
}

#[test]
fn square_canonicalizes_counter_clockwise() {
    // Clockwise input is re-wound; the vertex set is unchanged.
    let p = NestPolygon::new(pts(&[(20, 20), (20, 40), (40, 40), (40, 20)])).unwrap();
    assert_eq!(p.verts.len(), 4);
    assert_eq!(p.min_x, 20);
    assert_eq!(p.max_x, 40);
    assert_eq!(p.min_y, 20);
    assert_eq!(p.max_y, 40);
    assert_eq!(p.bottom_left, Point { x: 20, y: 20 });
}

#[test]
fn too_few_vertices_is_invalid_geometry() {
    let r = NestPolygon::new(pts(&[(0, 0), (10, 0)]));
    assert_eq!(r.unwrap_err(), GeomError::InvalidGeometry);
}

#[test]
fn zero_area_contour_is_invalid_geometry() {
    let r = NestPolygon::new(pts(&[(0, 0), (10, 10), (20, 20)]));
    assert_eq!(r.unwrap_err(), GeomError::InvalidGeometry);
}

#[test]
fn repeated_vertex_is_invalid_geometry() {
    let r = NestPolygon::new(pts(&[(0, 0), (10, 0), (10, 0), (5, 8)]));
    assert_eq!(r.unwrap_err(), GeomError::InvalidGeometry);
}

#[test]
fn minkowski_sum_vertex_bound() {
    let a = NestPolygon::new(pts(&[(20, 20), (40, 20), (40, 40), (20, 40)])).unwrap();
    let b = NestPolygon::new(pts(&[(70, 10), (80, 20), (90, 40)])).unwrap();
    let nfp = a.minkowski_sum(&b).unwrap();
    assert!(nfp.verts.len() <= a.verts.len() + b.verts.len());
}

#[test]
fn minkowski_sum_of_concave_is_unsupported() {
    let concave = NestPolygon::new(pts(&[(0, 0), (40, 0), (40, 40), (20, 10), (0, 40)])).unwrap();
    assert!(!concave.is_convex);
    let square = NestPolygon::new(pts(&[(0, 0), (10, 0), (10, 10), (0, 10)])).unwrap();
    let r = concave.minkowski_sum(&square);
    assert_eq!(r.unwrap_err(), GeomError::UnsupportedGeometry);
}

#[test]
fn evaluation_is_deterministic() {
    let parts = vec![NestPart {
        quantity: 2,
        polygon: NestPolygon::new(pts(&[(70, 10), (80, 20), (90, 40)])).unwrap(),
        rotations: vec![0, 90],
    }];
    let sheet = Sheet { length: 500, width: 500, cost: 1 };
    let genes = vec![
        nesting::job::Placement { part_index: 0, nth_part: 0, angle: 90 },
        nesting::job::Placement { part_index: 0, nth_part: 1, angle: 0 },
    ];
    let seq = PlacementSequence { placements: genes };
    let r1 = seq.pack(&parts, &sheet).unwrap();
    let r2 = seq.pack(&parts, &sheet).unwrap();
    assert_eq!(r1.fitness, r2.fitness);
    assert_eq!(r1.sheet_count, r2.sheet_count);
    assert_eq!(r1.placed_at, r2.placed_at);
    assert_eq!(r1.placed_at.len(), 2);
}

#[test]
fn fitness_has_the_exact_utilization_value() {
    // The triangle's doubled area is 100; one sheet of 1000 x 1000 consumes a
    // doubled area of 2_000_000, so utilization is 50 parts per million. The
    // single part lands with its bounding box at the sheet origin.
    let parts = vec![NestPart {
        quantity: 1,
        polygon: NestPolygon::new(pts(&[(70, 10), (80, 20), (90, 40)])).unwrap(),
        rotations: vec![0],
    }];
    let sheet = Sheet { length: 1000, width: 1000, cost: 1 };
    let seq = PlacementSequence {
        placements: vec![nesting::job::Placement { part_index: 0, nth_part: 0, angle: 0 }],
    };
    let r = seq.pack(&parts, &sheet).unwrap();
    assert_eq!(r.fitness, 50);
    assert_eq!(r.sheet_count, 1);
    assert_eq!(r.placed_area2, 100);
    assert_eq!(r.placed_at, vec![Point { x: -70, y: -10 }]);
}

#[test]
fn unsupported_rotation_angle_fails_evaluation() {
    let parts = vec![NestPart {
        quantity: 1,
        polygon: NestPolygon::new(pts(&[(70, 10), (80, 20), (90, 40)])).unwrap(),
        rotations: vec![45],
    }];
    let sheet = Sheet { length: 500, width: 500, cost: 1 };
    let genes = vec![nesting::job::Placement { part_index: 0, nth_part: 0, angle: 45 }];
    let seq = PlacementSequence { placements: genes };
    assert_eq!(
        seq.pack(&parts, &sheet).unwrap_err(),
        GeomError::UnsupportedGeometry
    );
}

#[test]
fn validate_accepts_a_plain_job() {
    let input = Input {
        nesting_job_ulid: String::from("job-1"),
        parts: vec![Part {
            quantity: 2,
            contour: pts(&[(0, 0), (10, 0), (10, 10)]),
            rotations: vec![0, 90],
        }],
        sheets: vec![Sheet { length: 100, width: 100, cost: 1 }],
        tool_diameter: 0,
        timeout: 60,
    };
    let (parts, sheet) = validate(&input).unwrap();
    assert_eq!(parts.len(), 1);
    assert_eq!(parts[0].quantity, 2);
    assert_eq!(sheet.length, 100);
}

#[test]
fn validate_rejects_empty_and_degenerate_jobs() {
    let empty = Input {
        nesting_job_ulid: String::from("job-2"),
        parts: vec![],
        sheets: vec![Sheet { length: 100, width: 100, cost: 1 }],
        tool_diameter: 0,
        timeout: 60,
    };
    assert!(matches!(
        validate(&empty).unwrap_err().error_type,
        ErrorType::InvalidInput
    ));
    let flat = Input {
        nesting_job_ulid: String::from("job-3"),
        parts: vec![Part {
            quantity: 1,
            contour: pts(&[(0, 0), (5, 5), (10, 10)]),
            rotations: vec![0],
        }],
        sheets: vec![Sheet { length: 100, width: 100, cost: 1 }],
        tool_diameter: 0,
        timeout: 60,
    };
    assert!(matches!(
        validate(&flat).unwrap_err().error_type,
        ErrorType::InvalidInput
    ));
}
