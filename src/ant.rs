use vstd::prelude::*;
use crate::chance::random_below;
use crate::coordinate::Coordinate;
use crate::navigable::Navigable;

verus! {

/// How far an agent moves in one tick.
pub const ANT_SPEED: u64 = 3;

/// How many ticks a new agent lives.
pub const ANT_LIFE: u32 = 4000;

/// A forager.
#[derive(Clone, Copy, Debug, PartialEq, Eq, Structural)]
pub struct Ant {
    pub position: Coordinate,
    /// Bearing in whole degrees, `0..360`.
    pub direction: u32,
    pub has_food: bool,
    pub speed: u64,
    /// Ticks left to live.
    pub life: u32,
}

impl Ant {
    /// The agent stands in the world and holds a bearing in `0..360`.
    pub open spec fn wf(self) -> bool {
        self.position.in_bounds() && self.direction < 360
    }

    /// The agent after one move: towards `sensed` when something was sensed,
    /// otherwise along the `suggested` bearing.
    pub open spec fn traversed(self, sensed: Option<Coordinate>, suggested: int) -> Ant {
        let b = match sensed {
            Some(p) => self.position.bearing_to(p),
            None => suggested,
        };
        Ant { position: self.position.stepped(b, self.speed as int), direction: b as u32, ..self }
    }

    /// A searching agent at the world point nearest to `(x, y)`, facing a
    /// random bearing, with speed `ANT_SPEED` and `ANT_LIFE` ticks to live.
    pub fn new(x: i64, y: i64) -> (r: Ant)
        ensures
            r.position == Coordinate::clamped(x as int, y as int),
            r.direction < 360,
            !r.has_food,
            r.speed == ANT_SPEED,
            r.life == ANT_LIFE,
            r.wf(),
    {
        let dir = random_below(360) as u32;
        Ant { position: Coordinate::new(x, y), direction: dir, has_food: false, speed: ANT_SPEED, life: ANT_LIFE }
    }

    /// One move. A target among `targets` sensed within `range` is headed for
    /// directly; otherwise the agent follows the bearing that `waypoints`
    /// suggest, or its own bearing turned by `noise` where they suggest none.
    pub fn traverse<T: Navigable, U: Navigable>(
        &mut self,
        targets: Option<&T>,
        waypoints: &U,
        range: u64,
        noise: i32,
    )
        requires
            old(self).wf(),
            targets matches Some(t) ==> t.well_formed(),
            waypoints.well_formed(),
        ensures
            *final(self) == old(self).traversed(
                match targets {
                    Some(t) => t.nearest_spec(
                        old(self).position,
                        range as int,
                        old(self).speed as int,
                        old(self).direction as int,
                    ),
                    None => None,
                },
                waypoints.avg_direction_spec(
                    old(self).position,
                    range as int,
                    old(self).speed as int,
                    old(self).direction as int,
                    noise as int,
                ),
            ),
            final(self).wf(),
    {
        let sensed = match targets {
            Some(t) => t.get_nearest(&self.position, range, self.speed, self.direction),
            None => None,
        };
        match sensed {
            Some(p) => {
                self.direction = self.position.direction(&p);
            },
            None => {
                self.direction = waypoints.get_avg_direction(
                    &self.position,
                    range,
                    self.speed,
                    self.direction,
                    noise,
                );
            },
        }
        self.position = self.position.traverse_direction(self.direction, self.speed);
    }
}

} // verus!
