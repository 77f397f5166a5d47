use earcut::Earcut;
use earcut::EarcutError;
use earcut::Node;
use earcut::Point;
use earcut::Triangle;

/// Twice the signed area of a triangle, computed independently of the
/// library.
fn twice_area(t: &Triangle) -> i64 {
    let (ax, ay) = (t.0.x as i64, t.0.y as i64);
    let (bx, by) = (t.1.x as i64, t.1.y as i64);
    let (cx, cy) = (t.2.x as i64, t.2.y as i64);
    (bx - ax) * (cy - ay) - (cx - ax) * (by - ay)
}

/// Twice the signed area of a polygon by the shoelace formula, computed
/// independently of the library.
fn twice_polygon_area(poly: &[Point]) -> i64 {
    let mut sum: i64 = 0;
    for i in 0..poly.len() {
        let a = poly[i];
        let b = poly[(i + 1) % poly.len()];
        sum += a.x as i64 * b.y as i64 - b.x as i64 * a.y as i64;
    }
    sum
}

#[test]
fn earcut_new_is_valid_indices() {
    let polygon = [Point::new(0, 0); 3];

    let earcut = Earcut::new(&polygon).unwrap();

    assert_eq!(
        earcut.nodes.as_slice(),
        &[
            Node {
                pos: Point::new(0, 0),
                prev: 2,
                next: 1
            },
            Node {
                pos: Point::new(0, 0),
                prev: 0,
                next: 2
            },
            Node {
                pos: Point::new(0, 0),
                prev: 1,
                next: 0
            },
        ]
    )
}

#[test]
fn new_rejects_empty_input() {
    let polygon: [Point; 0] = [];
    assert_eq!(Earcut::new(&polygon), Err(EarcutError::InvalidInput));
}

#[test]
fn new_rejects_one_point() {
    let polygon = [Point::new(1, 2)];
    assert_eq!(Earcut::new(&polygon), Err(EarcutError::InvalidInput));
}

#[test]
fn new_rejects_two_points() {
    let polygon = [Point::new(0, 0), Point::new(1, 0)];
    assert_eq!(Earcut::new(&polygon), Err(EarcutError::InvalidInput));
}

#[test]
fn new_links_square_ring() {
    let polygon = [
        Point::new(0, 0),
        Point::new(2, 0),
        Point::new(2, 2),
        Point::new(0, 2),
    ];
    let earcut = Earcut::new(&polygon).unwrap();
    assert_eq!(earcut.nodes.len(), 4);
    for (i, node) in earcut.nodes.iter().enumerate() {
        assert_eq!(node.pos, polygon[i]);
        assert_eq!(node.prev, (i + 3) % 4);
        assert_eq!(node.next, (i + 1) % 4);
        // the ring invariant both ways
        assert_eq!(earcut.nodes[node.next].prev, i);
        assert_eq!(earcut.nodes[node.prev].next, i);
    }
}

#[test]
fn triangle_input_gives_one_triangle() {
    let polygon = [Point::new(0, 0), Point::new(1, 0), Point::new(0, 1)];
    let tris = Earcut::new(&polygon).unwrap().earcut();
    assert_eq!(tris.len(), 1);
    // the clip emits (previous, current, next) starting at vertex 0: the
    // input triangle, rotated to start at its last vertex
    assert_eq!(
        tris[0],
        Triangle(Point::new(0, 1), Point::new(0, 0), Point::new(1, 0))
    );
    assert_eq!(twice_area(&tris[0]), twice_polygon_area(&polygon));
}

#[test]
fn square_gives_two_triangles_with_full_area() {
    let polygon = [
        Point::new(0, 0),
        Point::new(2, 0),
        Point::new(2, 2),
        Point::new(0, 2),
    ];
    let tris = Earcut::new(&polygon).unwrap().earcut();
    assert_eq!(tris.len(), 2);
    let total: i64 = tris.iter().map(twice_area).sum();
    // both triangles wind positively, so signed and unsigned areas agree:
    // combined area 4, i.e. doubled area 8
    assert!(tris.iter().all(|t| twice_area(t) > 0));
    assert_eq!(total, 8);
    assert_eq!(total, twice_polygon_area(&polygon));
}

#[test]
fn concave_notch_gives_three_triangles_with_full_area() {
    // a square with a triangular notch cut from the top edge; (2, 1) is the
    // reflex vertex
    let polygon = [
        Point::new(0, 0),
        Point::new(4, 0),
        Point::new(4, 4),
        Point::new(2, 1),
        Point::new(0, 4),
    ];
    let tris = Earcut::new(&polygon).unwrap().earcut();
    assert_eq!(tris.len(), 3);
    let total: i64 = tris.iter().map(twice_area).sum();
    assert!(tris.iter().all(|t| twice_area(t) > 0));
    assert_eq!(total, twice_polygon_area(&polygon));

    // no emitted triangle holds the reflex vertex strictly inside it
    let reflex = Point::new(2, 1);
    for t in &tris {
        if t.0 == reflex || t.1 == reflex || t.2 == reflex {
            continue;
        }
        let inside_strictly = strictly_inside(t, reflex);
        assert!(!inside_strictly);
    }
}

/// Whether `p` lies strictly inside `t` (boundary excluded), computed
/// independently of the library.
fn strictly_inside(t: &Triangle, p: Point) -> bool {
    let cross = |a: Point, b: Point| -> i64 {
        let (ax, ay) = ((a.x - p.x) as i64, (a.y - p.y) as i64);
        let (bx, by) = ((b.x - p.x) as i64, (b.y - p.y) as i64);
        ax * by - bx * ay
    };
    cross(t.2, t.0) > 0 && cross(t.0, t.1) > 0 && cross(t.1, t.2) > 0
}

#[test]
fn convex_hexagon_gives_four_triangles_with_full_area() {
    let polygon = [
        Point::new(2, 0),
        Point::new(4, 1),
        Point::new(4, 3),
        Point::new(2, 4),
        Point::new(0, 3),
        Point::new(0, 1),
    ];
    let tris = Earcut::new(&polygon).unwrap().earcut();
    assert_eq!(tris.len(), 4);
    let total: i64 = tris.iter().map(twice_area).sum();
    assert_eq!(total, twice_polygon_area(&polygon));
    assert_eq!(total, 24);
}

#[test]
fn colinear_points_give_partial_empty_result() {
    // three points on one line: every corner is exactly straight, which the
    // reflex test treats as reflex, so no ear is ever found and the
    // best-effort result is empty
    let polygon = [Point::new(0, 0), Point::new(1, 0), Point::new(2, 0)];
    let tris = Earcut::new(&polygon).unwrap().earcut();
    assert_eq!(tris.len(), 0);
}

#[test]
fn contains_is_inclusive_and_exact() {
    let t = Triangle(Point::new(0, 0), Point::new(4, 0), Point::new(0, 4));
    assert!(t.contains(Point::new(1, 1)));
    // boundary and corners count as contained
    assert!(t.contains(Point::new(2, 0)));
    assert!(t.contains(Point::new(0, 0)));
    assert!(t.contains(Point::new(2, 2)));
    // outside
    assert!(!t.contains(Point::new(5, 5)));
    assert!(!t.contains(Point::new(-1, 0)));
    assert!(!t.contains(Point::new(3, 2)));
}

#[test]
fn is_reflex_follows_winding_and_treats_colinear_as_reflex() {
    let ccw = Triangle(Point::new(0, 0), Point::new(1, 0), Point::new(0, 1));
    assert!(!ccw.is_reflex());
    let cw = Triangle(Point::new(0, 0), Point::new(0, 1), Point::new(1, 0));
    assert!(cw.is_reflex());
    let colinear = Triangle(Point::new(0, 0), Point::new(1, 0), Point::new(2, 0));
    assert!(colinear.is_reflex());
}

#[test]
fn primitives_are_pure() {
    let t = Triangle(Point::new(0, 0), Point::new(7, 1), Point::new(3, 5));
    let p = Point::new(2, 2);
    assert_eq!(t.contains(p), t.contains(p));
    assert_eq!(t.is_reflex(), t.is_reflex());
    // interleaving other calls changes nothing
    let first = t.contains(p);
    let _ = t.is_reflex();
    let _ = Triangle(Point::new(0, 0), Point::new(1, 0), Point::new(0, 1)).contains(p);
    assert_eq!(t.contains(p), first);
}
