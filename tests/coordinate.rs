use antsim::coordinate::{reverse_direction, wrap_with_noise, Coordinate, X_SIZE, Y_SIZE};

#[test]
fn coordinate_distance() {
    let a = Coordinate::new(5, 5);
    let b = Coordinate::new(0, 0);

    assert_eq!(a.dist(&b), 7);
    assert_eq!(a.dist(&b), b.dist(&a));

    // points are pinned into the world, so (-4, 0) is (0, 0)
    let a = Coordinate::new(-4, 0);
    let b = Coordinate::new(0, 0);

    assert_eq!(a.dist(&b), 0);
    assert_eq!(a.dist(&b), b.dist(&a));

    let a = Coordinate::new(0, 4);
    let b = Coordinate::new(0, 0);

    assert_eq!(a.dist(&b), 4);
    assert_eq!(a.dist(&b), b.dist(&a));
}

#[test]
fn coordinate_direction() {
    let a = Coordinate::new(5, 5);
    let b = Coordinate::new(0, 0);

    assert_eq!(a.direction(&b), 225);
    assert_eq!(b.direction(&a), 45);
}

#[test]
fn coordinate_traverse() {
    let a = Coordinate::new(0, 0);
    let new_coor = a.traverse_direction(0, 5);
    assert_eq!(new_coor.y, a.y);
    assert_eq!(new_coor.x, a.x + 5);

    // the step west is stopped at the world's edge
    let new_coor = a.traverse_direction(135, 7);
    assert_eq!(new_coor.y, a.y + 5);
    assert_eq!(new_coor.x, 0);

    let new_coor = a.traverse_direction(225, 7);
    assert_eq!(new_coor, a);

    let c = Coordinate::new(500, 500);
    let new_coor = c.traverse_direction(128, 13);
    assert!((c.dist(&new_coor) as i64 - 13).abs() <= 1);
    assert!((c.direction(&new_coor) as i64 - 128).abs() <= 2);
}

#[test]
fn new_pins_points_into_the_world() {
    assert_eq!(Coordinate::new(-10, 2000), Coordinate { x: 0, y: Y_SIZE });
    assert_eq!(Coordinate::new(X_SIZE + 1, -1), Coordinate { x: X_SIZE, y: 0 });
    assert_eq!(Coordinate::new(3, 4), Coordinate { x: 3, y: 4 });
}

#[test]
fn check_and_enforce_bounds_clamp() {
    let c = Coordinate { x: 50, y: -3 };
    assert_eq!(c.check_bounds(0, 40, 0, 10), Coordinate { x: 40, y: 0 });
    let mut d = Coordinate { x: 5, y: 70 };
    d.enforce_bounds(10, 20, 0, 60);
    assert_eq!(d, Coordinate { x: 10, y: 60 });
}

#[test]
fn squared_distance_is_exact() {
    let a = Coordinate::new(1, 2);
    let b = Coordinate::new(4, 6);
    assert_eq!(a.dist_sq_exec(&b), 25);
    assert_eq!(a.dist(&b), 5);
}

#[test]
fn distance_is_symmetric_on_samples() {
    let pts = [(0, 0), (3, 999), (1000, 1000), (17, 250), (640, 12), (500, 500)];
    for &(ax, ay) in pts.iter() {
        for &(bx, by) in pts.iter() {
            let a = Coordinate::new(ax, ay);
            let b = Coordinate::new(bx, by);
            assert_eq!(a.dist(&b), b.dist(&a));
            assert_eq!(a.dist_sq_exec(&b), b.dist_sq_exec(&a));
        }
    }
}

#[test]
fn bearings_are_in_range_and_opposite() {
    let pts = [(0, 0), (3, 999), (1000, 1000), (17, 250), (640, 12), (500, 500), (500, 0)];
    for &(ax, ay) in pts.iter() {
        for &(bx, by) in pts.iter() {
            let a = Coordinate::new(ax, ay);
            let b = Coordinate::new(bx, by);
            let ab = a.direction(&b);
            let ba = b.direction(&a);
            assert!(ab < 360 && ba < 360);
            if a != b {
                assert_eq!(ba, (ab + 180) % 360);
            }
        }
    }
}

#[test]
fn bearings_of_the_axes() {
    let c = Coordinate::new(500, 500);
    assert_eq!(c.direction(&Coordinate::new(600, 500)), 0);
    assert_eq!(c.direction(&Coordinate::new(500, 600)), 90);
    assert_eq!(c.direction(&Coordinate::new(400, 500)), 180);
    assert_eq!(c.direction(&Coordinate::new(500, 400)), 270);
    assert_eq!(c.direction(&c), 0);
}

#[test]
fn zero_step_stays_in_place() {
    for &(x, y) in [(0, 0), (1000, 1000), (250, 730)].iter() {
        let p = Coordinate::new(x, y);
        for d in 0..360 {
            assert_eq!(p.traverse_direction(d, 0), p);
        }
    }
}

#[test]
fn step_length_round_trip() {
    let p = Coordinate::new(500, 500);
    for d in 0..360 {
        for r in [1u64, 5, 13, 100, 400] {
            let q = p.traverse_direction(d, r);
            assert!((p.dist(&q) as i64 - r as i64).abs() <= 1, "d={} r={}", d, r);
        }
    }
}

#[test]
fn steps_stop_at_the_wall() {
    let p = Coordinate::new(995, 500);
    assert_eq!(p.traverse_direction(0, 20), Coordinate::new(1000, 500));
}

#[test]
fn wrapping_and_reversing_bearings() {
    assert_eq!(wrap_with_noise(350, 15), 5);
    assert_eq!(wrap_with_noise(10, -20), 350);
    assert_eq!(wrap_with_noise(10, 0), 10);
    assert_eq!(wrap_with_noise(0, -720), 0);
    assert_eq!(reverse_direction(0), 180);
    assert_eq!(reverse_direction(180), 0);
    assert_eq!(reverse_direction(270), 90);
}
