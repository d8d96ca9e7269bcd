use octree::volume::{Aabb3, MinVolume, Point3, Surround, MIN_SIDE};

fn cube(lo: i64, hi: i64) -> Aabb3 {
    Aabb3::new(Point3::new(lo, lo, lo), Point3::new(hi, hi, hi))
}

#[test]
fn new_orders_the_corners_axis_by_axis() {
    let v = Aabb3::new(Point3::new(5, -2, 9), Point3::new(-1, 7, 3));
    assert_eq!(v.min, Point3::new(-1, -2, 3));
    assert_eq!(v.max, Point3::new(5, 7, 9));
    assert_eq!(v, Aabb3::new(Point3::new(-1, 7, 3), Point3::new(5, -2, 9)));
}

#[test]
fn contains_takes_the_minimum_and_leaves_the_maximum() {
    let v = cube(-100, 100);
    assert!(v.contains(&Point3::new(-100, -100, -100)));
    assert!(v.contains(&Point3::new(99, 99, 99)));
    assert!(v.contains(&Point3::new(0, 0, 0)));
    assert!(!v.contains(&Point3::new(100, 100, 100)));
    assert!(!v.contains(&Point3::new(100, 0, 0)));
    assert!(!v.contains(&Point3::new(0, 100, 0)));
    assert!(!v.contains(&Point3::new(0, 0, 100)));
    assert!(!v.contains(&Point3::new(-101, 0, 0)));
    assert!(!v.contains(&Point3::new(0, -101, 0)));
    assert!(!v.contains(&Point3::new(0, 0, -101)));
}

#[test]
fn surrounds_needs_every_axis_in_both_directions() {
    let outer = cube(-10, 10);
    assert!(outer.surrounds(&cube(-10, 10)));
    assert!(outer.surrounds(&cube(-3, 4)));
    assert!(!cube(-3, 4).surrounds(&outer));
    let wide = Aabb3::new(Point3::new(-11, 0, 0), Point3::new(5, 5, 5));
    assert!(!outer.surrounds(&wide));
    let tall = Aabb3::new(Point3::new(0, 0, 0), Point3::new(5, 11, 5));
    assert!(!outer.surrounds(&tall));
    let deep = Aabb3::new(Point3::new(0, 0, -11), Point3::new(5, 5, 5));
    assert!(!outer.surrounds(&deep));
}

#[test]
fn is_min_looks_at_the_side_along_x() {
    assert_eq!(MIN_SIDE, 1);
    assert!(cube(3, 3).is_min());
    assert!(cube(3, 4).is_min());
    assert!(!cube(3, 5).is_min());
    let flat = Aabb3::new(Point3::new(0, 0, 0), Point3::new(1, 50, 50));
    assert!(flat.is_min());
    let long = Aabb3::new(Point3::new(0, 0, 0), Point3::new(50, 1, 1));
    assert!(!long.is_min());
    let widest = Aabb3::new(
        Point3::new(i64::MIN, i64::MIN, i64::MIN),
        Point3::new(i64::MAX, i64::MAX, i64::MAX),
    );
    assert!(!widest.is_min());
}

#[test]
fn octants_split_at_the_centre_in_routing_order() {
    let parts = cube(-100, 100).octants();
    assert_eq!(parts.len(), 8);
    assert_eq!(parts[0], Aabb3::new(Point3::new(-100, -100, -100), Point3::new(0, 0, 0)));
    assert_eq!(parts[1], Aabb3::new(Point3::new(0, -100, -100), Point3::new(100, 0, 0)));
    assert_eq!(parts[2], Aabb3::new(Point3::new(-100, 0, -100), Point3::new(0, 100, 0)));
    assert_eq!(parts[3], Aabb3::new(Point3::new(0, 0, -100), Point3::new(100, 100, 0)));
    assert_eq!(parts[4], Aabb3::new(Point3::new(-100, -100, 0), Point3::new(0, 0, 100)));
    assert_eq!(parts[5], Aabb3::new(Point3::new(0, -100, 0), Point3::new(100, 0, 100)));
    assert_eq!(parts[6], Aabb3::new(Point3::new(-100, 0, 0), Point3::new(0, 100, 100)));
    assert_eq!(parts[7], Aabb3::new(Point3::new(0, 0, 0), Point3::new(100, 100, 100)));
}

#[test]
fn an_odd_side_is_split_with_the_shorter_half_first() {
    let v = Aabb3::new(Point3::new(0, -3, 10), Point3::new(5, 4, 11));
    let parts = v.octants();
    assert_eq!(parts[0], Aabb3::new(Point3::new(0, -3, 10), Point3::new(2, 0, 10)));
    assert_eq!(parts[7], Aabb3::new(Point3::new(2, 0, 10), Point3::new(5, 4, 11)));
}

#[test]
fn octants_of_the_widest_volume_do_not_overflow() {
    let widest = Aabb3::new(
        Point3::new(i64::MIN, i64::MIN, i64::MIN),
        Point3::new(i64::MAX, i64::MAX, i64::MAX),
    );
    let parts = widest.octants();
    assert_eq!(parts[0].min, Point3::new(i64::MIN, i64::MIN, i64::MIN));
    assert_eq!(parts[0].max, Point3::new(-1, -1, -1));
    assert_eq!(parts[7].min, Point3::new(-1, -1, -1));
    assert_eq!(parts[7].max, Point3::new(i64::MAX, i64::MAX, i64::MAX));
}

#[test]
fn every_point_of_a_volume_lies_in_exactly_one_octant() {
    let v = Aabb3::new(Point3::new(-3, 0, 2), Point3::new(4, 5, 4));
    let parts = v.octants();
    for x in -5..7 {
        for y in -2..8 {
            for z in 0..7 {
                let p = Point3::new(x, y, z);
                let hits = parts.iter().filter(|part| part.contains(&p)).count();
                assert_eq!(hits, if v.contains(&p) { 1 } else { 0 });
            }
        }
    }
    for part in parts.iter() {
        assert!(v.surrounds(part));
    }
}
