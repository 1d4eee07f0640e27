use vstd::prelude::*;
use crate::ant::{Ant, ANT_LIFE, ANT_SPEED};
use crate::chance::random_below;
use crate::coordinate::{reverse_bearing, reverse_direction, Coordinate, X_SIZE, Y_SIZE};
use crate::navigable::{
    all_in_bounds, in_range, nearest_index, nearest_point, nearest_point_index, Navigable,
};
use crate::scent::{average_bearing, decay, decayed, trail_wf, Scent, SCENT_LIFE};

verus! {

/// How far an agent senses food, the nest and trail markers.
pub const ANT_DETECTION_RANGE: u64 = 50;

/// Radius of the nest: a carrying agent closer than this drops its food.
pub const HOME_SIZE: u64 = 25;

/// Stored food that a new agent costs.
pub const SPAWN_COST: u64 = 5;

/// Stored food of a new colony.
pub const INITIAL_FOOD: u64 = 6;

/// The colony's tunable numbers.
#[derive(Clone, Copy, Debug, PartialEq, Eq, Structural)]
pub struct Config {
    /// Speed of a newly spawned agent.
    pub speed: u64,
    pub detection_range: u64,
    pub home_size: u64,
    pub spawn_cost: u64,
    /// Strength of a freshly laid trail marker.
    pub scent_life: u32,
    /// Lifespan of a newly spawned agent.
    pub ant_life: u32,
}

impl Config {
    /// Markers and new agents last at least one tick.
    pub open spec fn wf(self) -> bool {
        self.scent_life > 0 && self.ant_life > 0
    }
}

/// The configuration a new colony starts with.
pub open spec fn default_config() -> Config {
    Config {
        speed: ANT_SPEED,
        detection_range: ANT_DETECTION_RANGE,
        home_size: HOME_SIZE,
        spawn_cost: SPAWN_COST,
        scent_life: SCENT_LIFE / 2,
        ant_life: ANT_LIFE,
    }
}

impl Default for Config {
    fn default() -> (r: Config)
        ensures
            r == default_config(),
    {
        Config {
            speed: ANT_SPEED,
            detection_range: ANT_DETECTION_RANGE,
            home_size: HOME_SIZE,
            spawn_cost: SPAWN_COST,
            scent_life: SCENT_LIFE / 2,
            ant_life: ANT_LIFE,
        }
    }
}

/// The whole colony as mathematical values.
pub struct WorldView {
    pub home: Coordinate,
    pub food: Seq<Coordinate>,
    pub ants: Seq<Ant>,
    pub home_scents: Seq<Scent>,
    pub food_scents: Seq<Scent>,
    pub home_food: u64,
    pub config: Config,
}

impl WorldView {
    /// Everything lies in the world, every marker is well formed and every
    /// agent is alive.
    pub open spec fn wf(self) -> bool {
        &&& self.home.in_bounds()
        &&& all_in_bounds(self.food)
        &&& trail_wf(self.home_scents)
        &&& trail_wf(self.food_scents)
        &&& forall|i: int| 0 <= i < self.ants.len() ==> #[trigger] ants_ok(self.ants[i])
        &&& self.config.wf()
    }
}

/// The agent is well formed and alive.
pub open spec fn ants_ok(a: Ant) -> bool {
    a.wf() && a.life > 0
}

/// The marker an agent lays where it stands: pointing back the way it came.
pub open spec fn marker_of(a: Ant, life: u32) -> Scent {
    Scent { position: a.position, direction: reverse_bearing(a.direction as int) as u32, life }
}

/// `v + 1`, held at `u64::MAX`.
pub open spec fn incremented(v: u64) -> u64 {
    if v < u64::MAX {
        (v + 1) as u64
    } else {
        v
    }
}

/// The exploration noise handed to the agent at index `i`: none beyond the
/// end of `noise`.
pub open spec fn noise_at(noise: Seq<i32>, i: int) -> int {
    if 0 <= i < noise.len() {
        noise[i] as int
    } else {
        0
    }
}

/// One agent's turn within a tick: the colony afterwards, and the agent if it
/// is still alive.
///
/// The agent ages by one tick and is gone when its life runs out. A carrying
/// agent lays a food-trail marker, moves towards the nest (sensed directly, or
/// by the nest trail), and drops its food when it ends closer than the nest's
/// radius. A searching agent lays a nest-trail marker; food closer than one
/// step is picked up (the agent moves onto it and turns round), otherwise it
/// moves towards sensed food or by the food trail.
#[verifier::opaque]
pub open spec fn ant_turn(w: WorldView, a: Ant, noise: int) -> (WorldView, Option<Ant>) {
    let c = w.config;
    let range = c.detection_range as int;
    let aged = Ant { life: (a.life - 1) as u32, ..a };
    let marker = marker_of(a, c.scent_life);
    if aged.life == 0 {
        (w, None)
    } else if a.has_food {
        let moved = aged.traversed(
            w.home.nearest_spec(a.position, range, a.speed as int, a.direction as int),
            average_bearing(w.home_scents, a.position, range, a.direction as int, noise),
        );
        let w1 = WorldView { food_scents: w.food_scents.push(marker), ..w };
        if moved.position.within(w.home, c.home_size as int) {
            (
                WorldView { home_food: incremented(w.home_food), ..w1 },
                Some(Ant { has_food: false, ..moved }),
            )
        } else {
            (w1, Some(moved))
        }
    } else {
        let w1 = WorldView { home_scents: w.home_scents.push(marker), ..w };
        match nearest_index(w.food, a.position, a.speed as int) {
            Some(f) => (
                WorldView { food: w.food.remove(f), ..w1 },
                Some(
                    Ant {
                        position: w.food[f],
                        direction: reverse_bearing(a.direction as int) as u32,
                        has_food: true,
                        ..aged
                    },
                ),
            ),
            None => (
                w1,
                Some(
                    aged.traversed(
                        nearest_point(w.food, a.position, range),
                        average_bearing(
                            w.food_scents,
                            a.position,
                            range,
                            a.direction as int,
                            noise,
                        ),
                    ),
                ),
            ),
        }
    }
}

/// The turns of `ants`, in order: the colony afterwards and the agents still
/// alive, in their order.
pub open spec fn ants_run(w: WorldView, ants: Seq<Ant>, noise: Seq<i32>) -> (WorldView, Seq<Ant>)
    decreases ants.len(),
{
    if ants.len() == 0 {
        (w, Seq::empty())
    } else {
        let prev = ants_run(w, ants.drop_last(), noise);
        let turn = ant_turn(prev.0, ants.last(), noise_at(noise, ants.len() - 1));
        (
            turn.0,
            match turn.1 {
                Some(b) => prev.1.push(b),
                None => prev.1,
            },
        )
    }
}

/// The colony before the agents' turns: trails decayed, and a new agent with
/// bearing `spawn_dir` at the nest if the stored food pays for it.
pub open spec fn prepared(w: WorldView, spawn_dir: int) -> WorldView {
    let c = w.config;
    let w0 = WorldView { home_scents: decayed(w.home_scents), food_scents: decayed(w.food_scents), ..w };
    if w0.home_food >= c.spawn_cost {
        WorldView {
            home_food: (w0.home_food - c.spawn_cost) as u64,
            ants: w0.ants.push(
                Ant {
                    position: w.home,
                    direction: spawn_dir as u32,
                    has_food: false,
                    speed: c.speed,
                    life: c.ant_life,
                },
            ),
            ..w0
        }
    } else {
        w0
    }
}

/// The colony one tick later.
pub open spec fn ticked(w: WorldView, noise: Seq<i32>, spawn_dir: int) -> WorldView {
    let w1 = prepared(w, spawn_dir);
    let r = ants_run(w1, w1.ants, noise);
    WorldView { ants: r.1, ..r.0 }
}

proof fn lemma_trail_push(s: Seq<Scent>, m: Scent)
    requires
        trail_wf(s),
        m.wf(),
    ensures
        trail_wf(s.push(m)),
{
    assert forall|j: int| 0 <= j < s.push(m).len() implies #[trigger] s.push(m)[j].wf() by {
        if j < s.len() {
            assert(s[j].wf());
        }
    }
}

proof fn lemma_food_remove(s: Seq<Coordinate>, f: int)
    requires
        all_in_bounds(s),
        0 <= f < s.len(),
    ensures
        all_in_bounds(s.remove(f)),
{
    assert forall|j: int| 0 <= j < s.remove(f).len() implies #[trigger] s.remove(f)[j].in_bounds() by {
        if j < f {
            assert(s[j].in_bounds());
        } else {
            assert(s[j + 1].in_bounds());
        }
    }
}

/// `p` is one of the points that a cluster of `size` around `c` may hold:
/// `(c.x - size / 2 + ox, c.y - size / 2 + oy)`, pinned into the world, for
/// offsets `ox`, `oy` below `size / 4` (zero for clusters under four).
pub open spec fn in_cluster(c: Coordinate, size: int, p: Coordinate) -> bool {
    exists|ox: int, oy: int|
        0 <= ox < cluster_spread(size) && 0 <= oy < cluster_spread(size) && p
            == #[trigger] Coordinate::clamped(c.x - size / 2 + ox, c.y - size / 2 + oy)
}

/// The number of offsets a cluster of `size` draws from.
pub open spec fn cluster_spread(size: int) -> int {
    if size / 4 > 0 {
        size / 4
    } else {
        1
    }
}

/// A cluster of `size` food sources scattered at random around the world point
/// nearest to `(x, y)`.
pub fn gen_food_cluster(size: u32, x: i64, y: i64) -> (r: Vec<Coordinate>)
    ensures
        r@.len() == size,
        all_in_bounds(r@),
        forall|i: int|
            0 <= i < r@.len() ==> in_cluster(
                Coordinate::clamped(x as int, y as int),
                size as int,
                #[trigger] r@[i],
            ),
{
    let c = Coordinate::new(x, y);
    let half = (size / 2) as i64;
    let spread: u64 = if size / 4 > 0 {
        (size / 4) as u64
    } else {
        1
    };
    let mut coords: Vec<Coordinate> = Vec::new();
    let mut k: u32 = 0;
    while k < size
        invariant
            k <= size,
            coords@.len() == k,
            c == Coordinate::clamped(x as int, y as int),
            c.in_bounds(),
            half == size / 2,
            spread == cluster_spread(size as int),
            all_in_bounds(coords@),
            forall|i: int| 0 <= i < coords@.len() ==> in_cluster(c, size as int, #[trigger] coords@[i]),
        decreases size - k,
    {
        let ox = random_below(spread) as i64;
        let oy = random_below(spread) as i64;
        let p = Coordinate::new(c.x - half + ox, c.y - half + oy);
        proof {
            assert(p == Coordinate::clamped(c.x - size / 2 + ox, c.y - size / 2 + oy));
            assert(in_cluster(c, size as int, p));
        }
        let ghost before = coords@;
        coords.push(p);
        proof {
            assert forall|i: int| 0 <= i < coords@.len() implies #[trigger] coords@[i].in_bounds() && in_cluster(c, size as int, coords@[i]) by {
                if i < before.len() {
                    assert(before[i].in_bounds());
                    assert(in_cluster(c, size as int, before[i]));
                }
            }
        }
        k = k + 1;
    }
    coords
}

fn point_in_world(p: &Coordinate) -> (r: bool)
    ensures
        r == p.in_bounds(),
{
    0 <= p.x && p.x <= X_SIZE && 0 <= p.y && p.y <= Y_SIZE
}

fn trail_valid(s: &Vec<Scent>) -> (r: bool)
    ensures
        r == trail_wf(s@),
{
    let mut i: usize = 0;
    while i < s.len()
        invariant
            0 <= i <= s.len(),
            forall|j: int| 0 <= j < i ==> #[trigger] s@[j].wf(),
        decreases s.len() - i,
    {
        let m = s[i];
        if !(point_in_world(&m.position) && m.direction < 360 && m.life > 0) {
            proof {
                assert(!s@[i as int].wf());
            }
            return false;
        }
        i = i + 1;
    }
    true
}

/// The colony: its nest, food sources, agents, the two trails and the food
/// stored at the nest.
pub struct State {
    pub home_position: Coordinate,
    pub food_positions: Vec<Coordinate>,
    pub ants: Vec<Ant>,
    /// Markers that lead towards the nest, laid by searching agents.
    pub home_scents: Vec<Scent>,
    /// Markers that lead towards food, laid by carrying agents.
    pub food_scents: Vec<Scent>,
    pub home_food: u64,
    pub config: Config,
}

impl View for State {
    type V = WorldView;

    open spec fn view(&self) -> WorldView {
        WorldView {
            home: self.home_position,
            food: self.food_positions@,
            ants: self.ants@,
            home_scents: self.home_scents@,
            food_scents: self.food_scents@,
            home_food: self.home_food,
            config: self.config,
        }
    }
}

impl State {
    pub open spec fn wf(&self) -> bool {
        self@.wf()
    }

    /// Whether the colony is well formed, so that it may be advanced.
    pub fn is_valid(&self) -> (r: bool)
        ensures
            r == self.wf(),
    {
        let c = self.config;
        if !(c.scent_life > 0 && c.ant_life > 0) {
            return false;
        }
        if !point_in_world(&self.home_position) {
            return false;
        }
        let mut i: usize = 0;
        while i < self.food_positions.len()
            invariant
                0 <= i <= self.food_positions.len(),
                forall|j: int| 0 <= j < i ==> #[trigger] self.food_positions@[j].in_bounds(),
            decreases self.food_positions.len() - i,
        {
            if !point_in_world(&self.food_positions[i]) {
                proof {
                    assert(!self.food_positions@[i as int].in_bounds());
                }
                return false;
            }
            i = i + 1;
        }
        if !trail_valid(&self.home_scents) || !trail_valid(&self.food_scents) {
            return false;
        }
        let mut k: usize = 0;
        while k < self.ants.len()
            invariant
                0 <= k <= self.ants.len(),
                forall|j: int| 0 <= j < k ==> #[trigger] ants_ok(self.ants@[j]),
            decreases self.ants.len() - k,
        {
            let a = self.ants[k];
            if !(point_in_world(&a.position) && a.direction < 360 && a.life > 0) {
                proof {
                    assert(!ants_ok(self.ants@[k as int]));
                    assert(self@.ants[k as int] == self.ants@[k as int]);
                    assert(!self@.wf());
                }
                return false;
            }
            k = k + 1;
        }
        true
    }

    /// An empty colony with its nest in the middle of the world, the default
    /// configuration and `INITIAL_FOOD` stored.
    pub fn new() -> (r: State)
        ensures
            r@.home == Coordinate::clamped(X_SIZE / 2, Y_SIZE / 2),
            r@.food.len() == 0,
            r@.ants.len() == 0,
            r@.home_scents.len() == 0,
            r@.food_scents.len() == 0,
            r@.home_food == INITIAL_FOOD,
            r@.config == default_config(),
            r.wf(),
    {
        State {
            home_position: Coordinate::new(X_SIZE / 2, Y_SIZE / 2),
            food_positions: Vec::new(),
            ants: Vec::new(),
            home_scents: Vec::new(),
            food_scents: Vec::new(),
            home_food: INITIAL_FOOD,
            config: Config::default(),
        }
    }

    /// Advances the colony by one tick. The agent at index `i` explores with
    /// `noise[i]` degrees of deviation (none where `noise` is shorter); an
    /// agent spawned this tick faces `spawn_direction`.
    pub fn advance(&mut self, noise: &Vec<i32>, spawn_direction: u32)
        requires
            old(self).wf(),
            spawn_direction < 360,
        ensures
            final(self)@ == ticked(old(self)@, noise@, spawn_direction as int),
            final(self).wf(),
    {
        self.prepare(spawn_direction);
        let ghost w1 = self@;
        assert(w1 == prepared(old(self)@, spawn_direction as int));
        let mut survivors: Vec<Ant> = Vec::new();
        let mut i: usize = 0;
        while i < self.ants.len()
            invariant
                0 <= i <= self.ants.len(),
                self.ants@ == w1.ants,
                self.wf(),
                forall|j: int| 0 <= j < survivors@.len() ==> #[trigger] ants_ok(survivors@[j]),
                ants_run(w1, w1.ants.subrange(0, i as int), noise@) == (self@, survivors@),
            decreases self.ants.len() - i,
        {
            let a = self.ants[i];
            let n: i32 = if i < noise.len() {
                noise[i]
            } else {
                0
            };
            proof {
                let s = w1.ants.subrange(0, i as int + 1);
                assert(s.drop_last() =~= w1.ants.subrange(0, i as int));
                assert(s.last() == a);
                assert(ants_ok(self@.ants[i as int]));
                assert(noise_at(noise@, i as int) == n);
            }
            match self.turn(a, n) {
                Some(b) => survivors.push(b),
                None => {},
            }
            i = i + 1;
        }
        proof {
            assert(w1.ants.subrange(0, self.ants.len() as int) =~= w1.ants);
        }
        self.ants = survivors;
    }

    /// Decays both trails and spawns an agent at the nest if stored food pays
    /// for it.
    fn prepare(&mut self, spawn_direction: u32)
        requires
            old(self).wf(),
            spawn_direction < 360,
        ensures
            final(self)@ == prepared(old(self)@, spawn_direction as int),
            final(self).wf(),
    {
        decay(&mut self.home_scents);
        decay(&mut self.food_scents);
        assert(self@.ants == old(self)@.ants);
        assert forall|i: int| 0 <= i < self@.ants.len() implies #[trigger] ants_ok(self@.ants[i]) by {
            assert(ants_ok(old(self)@.ants[i]));
        }
        if self.home_food >= self.config.spawn_cost {
            self.home_food = self.home_food - self.config.spawn_cost;
            let ghost before = self.ants@;
            self.ants.push(
                Ant {
                    position: self.home_position,
                    direction: spawn_direction,
                    has_food: false,
                    speed: self.config.speed,
                    life: self.config.ant_life,
                },
            );
            proof {
                assert forall|i: int| 0 <= i < self@.ants.len() implies #[trigger] ants_ok(self@.ants[i]) by {
                    if i < before.len() {
                        assert(ants_ok(before[i]));
                    }
                }
            }
        }
    }

    /// One agent's turn, as `ant_turn` describes it; the agent if it lives on.
    fn turn(&mut self, a: Ant, noise: i32) -> (r: Option<Ant>)
        requires
            old(self).wf(),
            ants_ok(a),
        ensures
            (final(self)@, r) == ant_turn(old(self)@, a, noise as int),
            final(self).wf(),
            final(self)@.ants == old(self)@.ants,
            r matches Some(b) ==> ants_ok(b),
    {
        reveal(ant_turn);
        let mut b = a;
        b.life = a.life - 1;
        if b.life == 0 {
            return None;
        }
        let marker = Scent {
            position: a.position,
            direction: reverse_direction(a.direction),
            life: self.config.scent_life,
        };
        proof {
            lemma_trail_push(self.food_scents@, marker);
            lemma_trail_push(self.home_scents@, marker);
        }
        if a.has_food {
            self.food_scents.push(marker);
            b.traverse(Some(&self.home_position), &self.home_scents, self.config.detection_range, noise);
            if in_range(&b.position, &self.home_position, self.config.home_size) {
                b.has_food = false;
                if self.home_food < u64::MAX {
                    self.home_food = self.home_food + 1;
                }
            }
        } else {
            self.home_scents.push(marker);
            match nearest_point_index(&self.food_positions, &a.position, a.speed) {
                Some(f) => {
                    proof {
                        assert(self.food_positions@[f as int].in_bounds());
                        lemma_food_remove(self.food_positions@, f as int);
                    }
                    b.position = self.food_positions[f];
                    b.direction = reverse_direction(a.direction);
                    b.has_food = true;
                    self.food_positions.remove(f);
                },
                None => {
                    b.traverse(
                        Some(&self.food_positions),
                        &self.food_scents,
                        self.config.detection_range,
                        noise,
                    );
                },
            }
        }
        assert(self@.ants == old(self)@.ants);
        assert forall|i: int| 0 <= i < self@.ants.len() implies #[trigger] ants_ok(self@.ants[i]) by {
            assert(ants_ok(old(self)@.ants[i]));
        }
        Some(b)
    }

    /// Advances the colony by one tick as `advance` does; an agent spawned this
    /// tick faces a random bearing.
    pub fn update(&mut self, noise: &Vec<i32>)
        requires
            old(self).wf(),
        ensures
            exists|d: int| 0 <= d < 360 && final(self)@ == ticked(old(self)@, noise@, d),
            final(self).wf(),
    {
        let d = random_below(360) as u32;
        self.advance(noise, d);
    }
}

} // verus!
