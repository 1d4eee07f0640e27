use antsim::ant::{Ant, ANT_LIFE, ANT_SPEED};
use antsim::coordinate::Coordinate;
use antsim::scent::Scent;
use antsim::world::{gen_food_cluster, Config, State, INITIAL_FOOD};

fn quiet_state() -> State {
    let mut s = State::new();
    s.home_food = 0;
    s
}

fn ant(x: i64, y: i64, direction: u32, has_food: bool, speed: u64, life: u32) -> Ant {
    Ant { position: Coordinate::new(x, y), direction, has_food, speed, life }
}

#[test]
fn new_state_is_empty_with_nest_in_the_middle() {
    let s = State::new();
    assert_eq!(s.home_position, Coordinate::new(500, 500));
    assert!(s.ants.is_empty() && s.food_positions.is_empty());
    assert!(s.home_scents.is_empty() && s.food_scents.is_empty());
    assert_eq!(s.home_food, INITIAL_FOOD);
    assert_eq!(s.config, Config::default());
}

#[test]
fn new_ant_faces_a_valid_bearing() {
    for _ in 0..200 {
        let a = Ant::new(-5, 1200);
        assert_eq!(a.position, Coordinate { x: 0, y: 1000 });
        assert!(a.direction < 360);
        assert!(!a.has_food);
        assert_eq!(a.speed, ANT_SPEED);
        assert_eq!(a.life, ANT_LIFE);
    }
}

#[test]
fn searching_ant_finds_nearby_food() {
    let mut s = quiet_state();
    s.food_positions.push(Coordinate::new(540, 500));
    s.ants.push(ant(500, 500, 90, false, 5, 10_000));
    let mut picked = false;
    for _ in 0..20 {
        s.advance(&vec![], 0);
        if s.ants[0].has_food {
            picked = true;
            break;
        }
    }
    assert!(picked);
    assert_eq!(s.ants[0].position, Coordinate::new(540, 500));
    assert!(s.food_positions.is_empty());
}

#[test]
fn carrying_ant_drops_food_at_the_nest() {
    let mut s = quiet_state();
    s.ants.push(ant(510, 500, 0, true, 5, 100));
    s.advance(&vec![], 0);
    assert!(!s.ants[0].has_food);
    assert_eq!(s.home_food, 1);
}

#[test]
fn ant_with_one_tick_left_dies() {
    let mut s = quiet_state();
    s.ants.push(ant(300, 300, 0, false, 5, 1));
    s.advance(&vec![], 0);
    assert!(s.ants.is_empty());
}

#[test]
fn ants_lay_opposite_markers() {
    let mut s = quiet_state();
    s.ants.push(ant(300, 300, 10, false, 5, 100));
    s.ants.push(ant(700, 700, 200, true, 5, 100));
    s.advance(&vec![], 0);
    let c = s.config;
    assert_eq!(s.home_scents, vec![Scent { position: Coordinate::new(300, 300), direction: 190, life: c.scent_life }]);
    assert_eq!(s.food_scents, vec![Scent { position: Coordinate::new(700, 700), direction: 20, life: c.scent_life }]);
}

#[test]
fn spawning_costs_stored_food() {
    let mut s = State::new();
    s.advance(&vec![], 42);
    assert_eq!(s.home_food, INITIAL_FOOD - s.config.spawn_cost);
    assert_eq!(s.ants.len(), 1);
    assert_eq!(s.ants[0].life, s.config.ant_life - 1);
    s.advance(&vec![], 42);
    assert_eq!(s.ants.len(), 1);
}

#[test]
fn update_spawns_with_some_bearing() {
    let mut s = State::new();
    s.update(&vec![]);
    assert_eq!(s.ants.len(), 1);
    assert!(s.ants[0].direction < 360);
}

#[test]
fn trails_decay_each_tick() {
    let mut s = quiet_state();
    s.home_scents.push(Scent { position: Coordinate::new(1, 1), direction: 0, life: 2 });
    s.advance(&vec![], 0);
    assert_eq!(s.home_scents[0].life, 1);
    s.advance(&vec![], 0);
    assert!(s.home_scents.is_empty());
}

#[test]
fn exploring_ant_follows_its_noise() {
    let mut s = quiet_state();
    s.ants.push(ant(300, 300, 0, false, 10, 100));
    s.advance(&vec![90], 0);
    assert_eq!(s.ants[0].direction, 90);
    assert_eq!(s.ants[0].position, Coordinate::new(300, 310));
}

#[test]
fn food_cluster_shape() {
    for _ in 0..50 {
        let c = gen_food_cluster(20, 100, 100);
        assert_eq!(c.len(), 20);
        for p in c.iter() {
            assert!(p.x >= 90 && p.x < 95);
            assert!(p.y >= 90 && p.y < 95);
        }
    }
    let small = gen_food_cluster(3, -50, 2000);
    assert_eq!(small, vec![Coordinate::new(0, 999); 3]);
    assert!(gen_food_cluster(0, 5, 5).is_empty());
}
