use vstd::prelude::*;
use crate::coordinate::{wrap_degrees, wrap_with_noise, Coordinate};

verus! {

/// `i` is the first of the points of `pts` closest to `pos` among those
/// strictly within `range` of it.
pub open spec fn is_first_nearest(pts: Seq<Coordinate>, pos: Coordinate, range: int, i: int) -> bool {
    &&& 0 <= i < pts.len()
    &&& pos.within(pts[i], range)
    &&& forall|j: int|
        0 <= j < pts.len() && pos.within(#[trigger] pts[j], range) ==> pos.dist_sq(pts[i])
            <= pos.dist_sq(pts[j])
    &&& forall|j: int|
        0 <= j < i && pos.within(#[trigger] pts[j], range) ==> pos.dist_sq(pts[i]) < pos.dist_sq(
            pts[j],
        )
}

/// Some point of `pts` lies strictly within `range` of `pos`.
pub open spec fn any_within(pts: Seq<Coordinate>, pos: Coordinate, range: int) -> bool {
    exists|j: int| 0 <= j < pts.len() && pos.within(#[trigger] pts[j], range)
}

/// Index of the closest point of `pts` strictly within `range` of `pos`, the
/// first one found on a tie; `None` when no point is in range.
pub open spec fn nearest_index(pts: Seq<Coordinate>, pos: Coordinate, range: int) -> Option<int> {
    if any_within(pts, pos, range) {
        Some(choose|i: int| is_first_nearest(pts, pos, range, i))
    } else {
        None
    }
}

/// The bearing to follow when nothing can be sensed: `dir` turned by `noise`
/// degrees, reduced into `0..360`.
pub open spec fn exploration_bearing(dir: int, noise: int) -> int {
    wrap_degrees(dir + noise)
}

/// The nearest-first index is unique.
pub proof fn lemma_first_nearest_unique(
    pts: Seq<Coordinate>,
    pos: Coordinate,
    range: int,
    i1: int,
    i2: int,
)
    requires
        is_first_nearest(pts, pos, range, i1),
        is_first_nearest(pts, pos, range, i2),
    ensures
        i1 == i2,
{
    if i1 < i2 {
        assert(pos.within(pts[i1], range));
    } else if i2 < i1 {
        assert(pos.within(pts[i2], range));
    }
}

/// Once a first-nearest index is exhibited, it is the one `nearest_index` names.
pub proof fn lemma_nearest_index_is(pts: Seq<Coordinate>, pos: Coordinate, range: int, i: int)
    requires
        is_first_nearest(pts, pos, range, i),
    ensures
        nearest_index(pts, pos, range) == Some(i),
{
    assert(any_within(pts, pos, range));
    let c = choose|k: int| is_first_nearest(pts, pos, range, k);
    lemma_first_nearest_unique(pts, pos, range, i, c);
}

/// Something an agent can steer by: a set of points it may sense directly, or
/// a trail whose markers suggest a bearing.
pub trait Navigable {
    /// The value can be queried.
    spec fn well_formed(&self) -> bool;

    /// Where `get_nearest` leads from `pos`.
    spec fn nearest_spec(&self, pos: Coordinate, range: int, dist: int, dir: int) -> Option<
        Coordinate,
    >;

    /// The bearing `get_avg_direction` suggests at `pos`.
    spec fn avg_direction_spec(
        &self,
        pos: Coordinate,
        range: int,
        dist: int,
        dir: int,
        noise: int,
    ) -> int;

    /// The point to head for from `pos`, if anything is sensed within `range`.
    /// `dist` is how far the caller moves in one step, `dir` its bearing.
    fn get_nearest(&self, pos: &Coordinate, range: u64, dist: u64, dir: u32) -> (r: Option<
        Coordinate,
    >)
        requires
            self.well_formed(),
            pos.in_bounds(),
            dir < 360,
        ensures
            r == self.nearest_spec(*pos, range as int, dist as int, dir as int),
            r matches Some(c) ==> c.in_bounds(),
    ;

    /// The bearing suggested at `pos`; when nothing is within `range`, the
    /// caller's bearing `dir` turned by the exploration `noise`.
    fn get_avg_direction(&self, pos: &Coordinate, range: u64, dist: u64, dir: u32, noise: i32) -> (r:
        u32)
        requires
            self.well_formed(),
            pos.in_bounds(),
            dir < 360,
        ensures
            r == self.avg_direction_spec(*pos, range as int, dist as int, dir as int, noise as int),
            r < 360,
    ;
}

/// A single point, such as the nest.
impl Navigable for Coordinate {
    open spec fn well_formed(&self) -> bool {
        self.in_bounds()
    }

    open spec fn nearest_spec(&self, pos: Coordinate, range: int, dist: int, dir: int) -> Option<
        Coordinate,
    > {
        if pos.within(*self, range) {
            Some(*self)
        } else {
            None
        }
    }

    open spec fn avg_direction_spec(
        &self,
        pos: Coordinate,
        range: int,
        dist: int,
        dir: int,
        noise: int,
    ) -> int {
        if pos.within(*self, range) {
            pos.bearing_to(*self)
        } else {
            exploration_bearing(dir, noise)
        }
    }

    fn get_nearest(&self, pos: &Coordinate, range: u64, dist: u64, dir: u32) -> (r: Option<
        Coordinate,
    >) {
        if in_range(pos, self, range) {
            Some(*self)
        } else {
            None
        }
    }

    fn get_avg_direction(&self, pos: &Coordinate, range: u64, dist: u64, dir: u32, noise: i32) -> (r:
        u32) {
        if in_range(pos, self, range) {
            pos.direction(self)
        } else {
            wrap_with_noise(dir, noise)
        }
    }
}

/// `b` lies strictly within `range` of `a`.
pub fn in_range(a: &Coordinate, b: &Coordinate, range: u64) -> (r: bool)
    requires
        a.in_bounds(),
        b.in_bounds(),
    ensures
        r == a.within(*b, range as int),
{
    let d = a.dist_sq_exec(b);
    (d as u128) < square(range)
}

/// `v * v`, without overflow.
pub fn square(v: u64) -> (r: u128)
    ensures
        r == v * v,
{
    proof {
        assert(v * v <= 0xffff_ffff_ffff_ffff * 0xffff_ffff_ffff_ffffnat) by (nonlinear_arith)
            requires
                v <= 0xffff_ffff_ffff_ffffnat,
        ;
    }
    (v as u128) * (v as u128)
}

/// Number of the points of `pts` within `range` of `pos`.
pub open spec fn count_within(pts: Seq<Coordinate>, pos: Coordinate, range: int) -> int
    decreases pts.len(),
{
    if pts.len() == 0 {
        0
    } else {
        count_within(pts.drop_last(), pos, range) + if pos.within(pts.last(), range) {
            1int
        } else {
            0
        }
    }
}

/// Sum of the x coordinates of the points of `pts` within `range` of `pos`.
pub open spec fn sum_x_within(pts: Seq<Coordinate>, pos: Coordinate, range: int) -> int
    decreases pts.len(),
{
    if pts.len() == 0 {
        0
    } else {
        sum_x_within(pts.drop_last(), pos, range) + if pos.within(pts.last(), range) {
            pts.last().x as int
        } else {
            0
        }
    }
}

/// Sum of the y coordinates of the points of `pts` within `range` of `pos`.
pub open spec fn sum_y_within(pts: Seq<Coordinate>, pos: Coordinate, range: int) -> int
    decreases pts.len(),
{
    if pts.len() == 0 {
        0
    } else {
        sum_y_within(pts.drop_last(), pos, range) + if pos.within(pts.last(), range) {
            pts.last().y as int
        } else {
            0
        }
    }
}

/// Every point lies inside the world.
pub open spec fn all_in_bounds(pts: Seq<Coordinate>) -> bool {
    forall|i: int| 0 <= i < pts.len() ==> #[trigger] pts[i].in_bounds()
}

/// The centroid (rounded down) of the points of `pts` within `range` of `pos`;
/// only meaningful when there is at least one.
pub open spec fn centroid_within(pts: Seq<Coordinate>, pos: Coordinate, range: int) -> Coordinate {
    let n = count_within(pts, pos, range);
    Coordinate {
        x: (sum_x_within(pts, pos, range) / n) as i64,
        y: (sum_y_within(pts, pos, range) / n) as i64,
    }
}

/// The closest point of `pts` strictly within `range` of `pos`, the first one
/// on a tie.
pub open spec fn nearest_point(pts: Seq<Coordinate>, pos: Coordinate, range: int) -> Option<Coordinate> {
    match nearest_index(pts, pos, range) {
        Some(i) => Some(pts[i]),
        None => None,
    }
}

/// The bearing from `pos` towards the centroid of the points of `pts` within
/// `range`, or the exploration bearing when there are none.
pub open spec fn centroid_bearing(pts: Seq<Coordinate>, pos: Coordinate, range: int, dir: int, noise: int) -> int {
    if count_within(pts, pos, range) == 0 {
        exploration_bearing(dir, noise)
    } else {
        pos.bearing_to(centroid_within(pts, pos, range))
    }
}

/// A list of points, such as the food sources.
impl Navigable for Vec<Coordinate> {
    open spec fn well_formed(&self) -> bool {
        all_in_bounds(self@)
    }

    open spec fn nearest_spec(&self, pos: Coordinate, range: int, dist: int, dir: int) -> Option<
        Coordinate,
    > {
        nearest_point(self@, pos, range)
    }

    open spec fn avg_direction_spec(
        &self,
        pos: Coordinate,
        range: int,
        dist: int,
        dir: int,
        noise: int,
    ) -> int {
        centroid_bearing(self@, pos, range, dir, noise)
    }

    fn get_nearest(&self, pos: &Coordinate, range: u64, dist: u64, dir: u32) -> (r: Option<
        Coordinate,
    >) {
        match nearest_point_index(self, pos, range) {
            Some(i) => {
                proof {
                    assert(self@[i as int].in_bounds());
                }
                Some(self[i])
            },
            None => None,
        }
    }

    fn get_avg_direction(&self, pos: &Coordinate, range: u64, dist: u64, dir: u32, noise: i32) -> (r:
        u32) {
        let mut sum_x: u128 = 0;
        let mut sum_y: u128 = 0;
        let mut count: u128 = 0;
        let mut i: usize = 0;
        while i < self.len()
            invariant
                0 <= i <= self.len(),
                all_in_bounds(self@),
                pos.in_bounds(),
                count == count_within(self@.subrange(0, i as int), *pos, range as int),
                sum_x == sum_x_within(self@.subrange(0, i as int), *pos, range as int),
                sum_y == sum_y_within(self@.subrange(0, i as int), *pos, range as int),
                count <= i,
                sum_x <= count * 1000,
                sum_y <= count * 1000,
            decreases self.len() - i,
        {
            let p = self[i];
            proof {
                let s = self@.subrange(0, i as int + 1);
                assert(s.drop_last() =~= self@.subrange(0, i as int));
                assert(s.last() == p);
                assert(self@[i as int].in_bounds());
            }
            if in_range(pos, &p, range) {
                sum_x = sum_x + p.x as u128;
                sum_y = sum_y + p.y as u128;
                count = count + 1;
            }
            i = i + 1;
        }
        proof {
            assert(self@.subrange(0, self.len() as int) =~= self@);
        }
        if count == 0 {
            return wrap_with_noise(dir, noise);
        }
        let cx = sum_x / count;
        let cy = sum_y / count;
        proof {
            assert(sum_x / count <= 1000) by (nonlinear_arith)
                requires
                    sum_x <= count * 1000,
                    count > 0,
            ;
            assert(sum_y / count <= 1000) by (nonlinear_arith)
                requires
                    sum_y <= count * 1000,
                    count > 0,
            ;
        }
        let centroid = Coordinate { x: cx as i64, y: cy as i64 };
        pos.direction(&centroid)
    }
}

/// Index of the closest point of `pts` strictly within `range` of `pos`, the
/// first one on a tie.
pub fn nearest_point_index(pts: &Vec<Coordinate>, pos: &Coordinate, range: u64) -> (r: Option<
    usize,
>)
    requires
        all_in_bounds(pts@),
        pos.in_bounds(),
    ensures
        match r {
            Some(i) => i < pts.len() && nearest_index(pts@, *pos, range as int) == Some(i as int),
            None => nearest_index(pts@, *pos, range as int) is None,
        },
{
    let mut best: Option<usize> = None;
    let mut best_d: u64 = 0;
    let mut i: usize = 0;
    while i < pts.len()
        invariant
            0 <= i <= pts.len(),
            all_in_bounds(pts@),
            pos.in_bounds(),
            best is None ==> forall|j: int|
                0 <= j < i ==> !pos.within(#[trigger] pts@[j], range as int),
            best matches Some(b) ==> {
                &&& b < i
                &&& pos.within(pts@[b as int], range as int)
                &&& best_d == pos.dist_sq(pts@[b as int])
                &&& forall|j: int|
                    0 <= j < i && pos.within(#[trigger] pts@[j], range as int) ==> best_d
                        <= pos.dist_sq(pts@[j])
                &&& forall|j: int|
                    0 <= j < b && pos.within(#[trigger] pts@[j], range as int) ==> best_d
                        < pos.dist_sq(pts@[j])
            },
        decreases pts.len() - i,
    {
        let p = pts[i];
        if in_range(pos, &p, range) {
            let d = pos.dist_sq_exec(&p);
            match best {
                None => {
                    best = Some(i);
                    best_d = d;
                },
                Some(_) => {
                    if d < best_d {
                        best = Some(i);
                        best_d = d;
                    }
                },
            }
        }
        i = i + 1;
    }
    match best {
        Some(b) => {
            proof {
                lemma_nearest_index_is(pts@, *pos, range as int, b as int);
            }
        },
        None => {},
    }
    best
}

} // verus!
