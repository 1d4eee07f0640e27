use antsim::coordinate::Coordinate;
use antsim::navigable::{nearest_point_index, Navigable};
use antsim::scent::{decay, Scent, SCENT_LIFE};
use rand_distr::{Distribution, Normal};

fn marker(x: i64, y: i64, direction: u32, life: u32) -> Scent {
    Scent { position: Coordinate::new(x, y), direction, life }
}

#[test]
fn new_scent_has_half_strength() {
    let s = Scent::new(10, -5, 90);
    assert_eq!(s.position, Coordinate { x: 10, y: 0 });
    assert_eq!(s.direction, 90);
    assert_eq!(s.life, SCENT_LIFE / 2);
}

#[test]
fn marker_lasts_exactly_its_strength() {
    let mut trail = vec![marker(1, 1, 0, 5), marker(2, 2, 10, 3), marker(3, 3, 20, 9)];
    for n in 1..3 {
        decay(&mut trail);
        assert!(trail.iter().any(|m| m.position == Coordinate::new(2, 2) && m.life == 3 - n));
    }
    decay(&mut trail);
    assert!(!trail.iter().any(|m| m.position == Coordinate::new(2, 2)));
    assert_eq!(trail, vec![marker(1, 1, 0, 2), marker(3, 3, 20, 6)]);
}

#[test]
fn decay_of_empty_trail() {
    let mut trail: Vec<Scent> = vec![];
    decay(&mut trail);
    assert!(trail.is_empty());
}

#[test]
fn nearest_marker_first_wins_on_ties() {
    let pts = vec![
        Coordinate::new(110, 100),
        Coordinate::new(90, 100),
        Coordinate::new(100, 103),
        Coordinate::new(100, 97),
    ];
    let pos = Coordinate::new(100, 100);
    assert_eq!(nearest_point_index(&pts, &pos, 50), Some(2));
    assert_eq!(nearest_point_index(&pts, &pos, 3), None);
    assert_eq!(nearest_point_index(&pts, &pos, 4), Some(2));
    assert_eq!(nearest_point_index(&vec![], &pos, 4), None);
}

#[test]
fn trail_nearest_within_a_step_is_the_marker() {
    let trail = vec![marker(103, 100, 0, 5), marker(130, 100, 0, 5)];
    let pos = Coordinate::new(100, 100);
    assert_eq!(trail.get_nearest(&pos, 50, 5, 0), Some(Coordinate::new(103, 100)));
}

#[test]
fn trail_nearest_beyond_a_step_is_a_step_towards_it() {
    let trail = vec![marker(100, 140, 0, 5)];
    let pos = Coordinate::new(100, 100);
    assert_eq!(trail.get_nearest(&pos, 50, 5, 0), Some(Coordinate::new(100, 105)));
    assert_eq!(trail.get_nearest(&pos, 40, 5, 0), None);
}

#[test]
fn trail_average_bearing_is_the_mean() {
    let trail = vec![marker(100, 110, 10, 5), marker(95, 100, 50, 5), marker(400, 400, 300, 5)];
    let pos = Coordinate::new(100, 100);
    assert_eq!(trail.get_avg_direction(&pos, 50, 5, 200, 7), 30);
}

#[test]
fn trail_average_bearing_without_markers_uses_noise() {
    let trail = vec![marker(400, 400, 300, 5)];
    let pos = Coordinate::new(100, 100);
    assert_eq!(trail.get_avg_direction(&pos, 50, 5, 200, 7), 207);
    assert_eq!(trail.get_avg_direction(&pos, 50, 5, 355, 10), 5);
}

#[test]
fn exploration_is_centred_on_the_bearing() {
    let trail: Vec<Scent> = vec![];
    let pos = Coordinate::new(100, 100);
    let normal = Normal::new(0.0f64, 15.0).unwrap();
    let mut rng = rand::thread_rng();
    let trials = 4000;
    let mut total: f64 = 0.0;
    for _ in 0..trials {
        let noise = normal.sample(&mut rng).round() as i32;
        total += trail.get_avg_direction(&pos, 50, 5, 180, noise) as f64;
    }
    let mean = total / trials as f64;
    assert!((mean - 180.0).abs() < 2.0, "mean {}", mean);
}

#[test]
fn points_nearest_and_centroid() {
    let food = vec![Coordinate::new(120, 100), Coordinate::new(100, 120), Coordinate::new(900, 900)];
    let pos = Coordinate::new(100, 100);
    assert_eq!(food.get_nearest(&pos, 50, 5, 0), Some(Coordinate::new(120, 100)));
    assert_eq!(food.get_nearest(&pos, 10, 5, 0), None);
    assert_eq!(food.get_avg_direction(&pos, 50, 5, 0, 0), 45);
    assert_eq!(food.get_avg_direction(&pos, 10, 5, 90, -30), 60);
}

#[test]
fn single_point_navigation() {
    let nest = Coordinate::new(500, 500);
    let pos = Coordinate::new(500, 530);
    assert_eq!(nest.get_nearest(&pos, 50, 5, 0), Some(nest));
    assert_eq!(nest.get_nearest(&pos, 30, 5, 0), None);
    assert_eq!(nest.get_avg_direction(&pos, 50, 5, 0, 0), 270);
    assert_eq!(nest.get_avg_direction(&pos, 30, 5, 100, 5), 105);
}
