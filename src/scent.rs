use vstd::prelude::*;
use crate::coordinate::{wrap_with_noise, Coordinate};
use crate::navigable::{
    all_in_bounds, exploration_bearing, in_range, square, nearest_index, nearest_point_index, Navigable,
};

verus! {

/// Reference strength of a trail marker; a freshly laid one gets half of it.
pub const SCENT_LIFE: u32 = 500;

/// A trail marker: a point, the bearing it suggests, and the number of ticks
/// it still lasts.
#[derive(Clone, Copy, Debug, PartialEq, Eq, Structural)]
pub struct Scent {
    pub position: Coordinate,
    pub direction: u32,
    pub life: u32,
}

impl Scent {
    /// The marker lies in the world, holds a bearing in `0..360` and has not
    /// run out.
    pub open spec fn wf(self) -> bool {
        self.position.in_bounds() && self.direction < 360 && self.life > 0
    }

    /// The same marker `n` ticks older.
    pub open spec fn aged(self, n: int) -> Scent {
        Scent { life: (self.life - n) as u32, ..self }
    }

    /// A fresh marker at the world point nearest to `(x, y)`, with strength
    /// `SCENT_LIFE / 2`.
    pub fn new(x: i64, y: i64, direction: u32) -> (r: Scent)
        ensures
            r.position == Coordinate::clamped(x as int, y as int),
            r.direction == direction,
            r.life == SCENT_LIFE / 2,
    {
        Scent { position: Coordinate::new(x, y), direction, life: SCENT_LIFE / 2 }
    }
}

/// Every marker of the trail is well formed.
pub open spec fn trail_wf(s: Seq<Scent>) -> bool {
    forall|i: int| 0 <= i < s.len() ==> #[trigger] s[i].wf()
}

/// The positions of the markers, in order.
pub open spec fn positions(s: Seq<Scent>) -> Seq<Coordinate> {
    s.map_values(|m: Scent| m.position)
}

/// The trail one tick later: every marker loses one unit of strength, and
/// those that reach zero are gone. The order of the others is kept.
pub open spec fn decayed(s: Seq<Scent>) -> Seq<Scent>
    decreases s.len(),
{
    if s.len() == 0 {
        s
    } else if s.last().life > 1 {
        decayed(s.drop_last()).push(s.last().aged(1))
    } else {
        decayed(s.drop_last())
    }
}

/// The trail after `n` ticks.
pub open spec fn decayed_times(s: Seq<Scent>, n: nat) -> Seq<Scent>
    decreases n,
{
    if n == 0 {
        s
    } else {
        decayed(decayed_times(s, (n - 1) as nat))
    }
}

/// Number of markers within `range` of `pos`.
pub open spec fn count_scents_within(s: Seq<Scent>, pos: Coordinate, range: int) -> int
    decreases s.len(),
{
    if s.len() == 0 {
        0
    } else {
        count_scents_within(s.drop_last(), pos, range) + if pos.within(s.last().position, range) {
            1int
        } else {
            0
        }
    }
}

/// Sum of the bearings of the markers within `range` of `pos`.
pub open spec fn sum_bearings_within(s: Seq<Scent>, pos: Coordinate, range: int) -> int
    decreases s.len(),
{
    if s.len() == 0 {
        0
    } else {
        sum_bearings_within(s.drop_last(), pos, range) + if pos.within(
            s.last().position,
            range,
        ) {
            s.last().direction as int
        } else {
            0
        }
    }
}

/// The bearing a trail suggests at `pos`: the mean of the bearings of the
/// markers within `range`, rounded down, or the exploration bearing when
/// there are none.
pub open spec fn average_bearing(s: Seq<Scent>, pos: Coordinate, range: int, dir: int, noise: int) -> int {
    let n = count_scents_within(s, pos, range);
    if n == 0 {
        exploration_bearing(dir, noise)
    } else {
        sum_bearings_within(s, pos, range) / n
    }
}

/// Decaying keeps a trail well formed.
pub proof fn lemma_decayed_wf(s: Seq<Scent>)
    requires
        trail_wf(s),
    ensures
        trail_wf(decayed(s)),
    decreases s.len(),
{
    if s.len() > 0 {
        assert(trail_wf(s.drop_last())) by {
            assert forall|i: int| 0 <= i < s.drop_last().len() implies #[trigger] s.drop_last()[i].wf() by {
                assert(s.drop_last()[i] == s[i]);
            }
        }
        lemma_decayed_wf(s.drop_last());
        let last = s[s.len() - 1];
        assert(s.last() == last);
        assert(last.wf());
        let d = decayed(s.drop_last());
        if last.life > 1 {
            assert forall|i: int| 0 <= i < d.push(last.aged(1)).len() implies #[trigger] d.push(
                last.aged(1),
            )[i].wf() by {
                if i < d.len() {
                    assert(d[i].wf());
                }
            }
        }
    }
}

/// Decay acts on each marker on its own: decaying two trails laid end to end
/// is decaying each of them.
pub proof fn lemma_decayed_append(a: Seq<Scent>, b: Seq<Scent>)
    ensures
        decayed(a + b) == decayed(a) + decayed(b),
    decreases b.len(),
{
    if b.len() == 0 {
        assert(a + b =~= a);
        assert(decayed(b) =~= Seq::<Scent>::empty());
        assert(decayed(a) + decayed(b) =~= decayed(a));
    } else {
        assert((a + b).drop_last() =~= a + b.drop_last());
        assert((a + b).last() == b.last());
        lemma_decayed_append(a, b.drop_last());
        if b.last().life > 1 {
            assert(decayed(a) + decayed(b.drop_last()).push(b.last().aged(1)) =~= (decayed(a)
                + decayed(b.drop_last())).push(b.last().aged(1)));
        }
    }
}

/// Decay over several ticks acts on each marker on its own as well.
pub proof fn lemma_decayed_times_append(a: Seq<Scent>, b: Seq<Scent>, n: nat)
    ensures
        decayed_times(a + b, n) == decayed_times(a, n) + decayed_times(b, n),
    decreases n,
{
    if n > 0 {
        lemma_decayed_times_append(a, b, (n - 1) as nat);
        lemma_decayed_append(decayed_times(a, (n - 1) as nat), decayed_times(b, (n - 1) as nat));
    }
}

/// A lone marker of strength `S` is still there, `n` ticks weaker, after
/// `n < S` ticks, and gone after `S` or more.
pub proof fn lemma_single_marker_lifetime(m: Scent, n: nat)
    requires
        m.life > 0,
    ensures
        n < m.life ==> decayed_times(seq![m], n) == seq![m.aged(n as int)],
        n >= m.life ==> decayed_times(seq![m], n) == Seq::<Scent>::empty(),
    decreases n,
{
    let empty = Seq::<Scent>::empty();
    assert(decayed(empty) == empty);
    if n == 0 {
        assert(m.aged(0) == m);
    } else {
        lemma_single_marker_lifetime(m, (n - 1) as nat);
        let prev = decayed_times(seq![m], (n - 1) as nat);
        assert(decayed_times(seq![m], n) == decayed(prev));
        if n - 1 < m.life {
            let one = seq![m.aged(n - 1)];
            assert(prev == one);
            assert(one.drop_last() =~= empty);
            assert(one.last() == m.aged(n - 1));
            if n < m.life {
                assert(m.aged(n - 1).aged(1) == m.aged(n as int));
                assert(decayed(one) == empty.push(m.aged(n as int)));
                assert(empty.push(m.aged(n as int)) =~= seq![m.aged(n as int)]);
            } else {
                assert(decayed(one) == decayed(empty));
            }
        } else {
            assert(prev == empty);
        }
    }
}

/// A marker laid with strength `S` anywhere in a trail is present, `n` ticks
/// weaker and between the survivors of the markers around it, after `n < S`
/// decay ticks, and absent after exactly `S` (or more).
pub proof fn lemma_marker_lifetime(before: Seq<Scent>, m: Scent, after: Seq<Scent>, n: nat)
    requires
        m.life > 0,
    ensures
        n < m.life ==> decayed_times(before + seq![m] + after, n) == decayed_times(before, n)
            + seq![m.aged(n as int)] + decayed_times(after, n),
        n >= m.life ==> decayed_times(before + seq![m] + after, n) == decayed_times(before, n)
            + decayed_times(after, n),
{
    lemma_decayed_times_append(before + seq![m], after, n);
    lemma_decayed_times_append(before, seq![m], n);
    lemma_single_marker_lifetime(m, n);
    if n >= m.life {
        assert(decayed_times(before, n) + Seq::<Scent>::empty() =~= decayed_times(before, n));
    }
}

/// Removes one unit of strength from every marker and drops those that run out.
pub fn decay(scents: &mut Vec<Scent>)
    ensures
        final(scents)@ == decayed(old(scents)@),
        trail_wf(old(scents)@) ==> trail_wf(final(scents)@),
{
    let mut kept: Vec<Scent> = Vec::new();
    let mut i: usize = 0;
    while i < scents.len()
        invariant
            0 <= i <= scents.len(),
            kept@ == decayed(scents@.subrange(0, i as int)),
        decreases scents.len() - i,
    {
        let m = scents[i];
        proof {
            let s = scents@.subrange(0, i as int + 1);
            assert(s.drop_last() =~= scents@.subrange(0, i as int));
            assert(s.last() == m);
        }
        if m.life > 1 {
            kept.push(Scent { position: m.position, direction: m.direction, life: m.life - 1 });
        }
        i = i + 1;
    }
    proof {
        assert(scents@.subrange(0, scents.len() as int) =~= scents@);
        if trail_wf(scents@) {
            lemma_decayed_wf(scents@);
        }
    }
    *scents = kept;
}

/// The positions of the markers, in order.
fn scent_positions(scents: &Vec<Scent>) -> (r: Vec<Coordinate>)
    ensures
        r@ == positions(scents@),
{
    let mut r: Vec<Coordinate> = Vec::new();
    let mut i: usize = 0;
    while i < scents.len()
        invariant
            0 <= i <= scents.len(),
            r@ =~= positions(scents@).subrange(0, i as int),
        decreases scents.len() - i,
    {
        r.push(scents[i].position);
        i = i + 1;
    }
    r
}

/// Where the nearest marker within `range` of `pos` leads: to the marker
/// itself when it is within one step (`dist`), otherwise one step towards it.
pub open spec fn trail_nearest(s: Seq<Scent>, pos: Coordinate, range: int, dist: int) -> Option<Coordinate> {
    match nearest_index(positions(s), pos, range) {
        Some(i) => {
            let target = s[i].position;
            if pos.dist_sq(target) <= dist * dist {
                Some(target)
            } else {
                Some(pos.stepped(pos.bearing_to(target), dist))
            }
        },
        None => None,
    }
}

/// A trail of markers.
impl Navigable for Vec<Scent> {
    open spec fn well_formed(&self) -> bool {
        trail_wf(self@)
    }

    /// The nearest marker within `range`: its own position when it is within
    /// one step (`dist`), otherwise a step of `dist` towards it.
    open spec fn nearest_spec(&self, pos: Coordinate, range: int, dist: int, dir: int) -> Option<
        Coordinate,
    > {
        trail_nearest(self@, pos, range, dist)
    }

    open spec fn avg_direction_spec(
        &self,
        pos: Coordinate,
        range: int,
        dist: int,
        dir: int,
        noise: int,
    ) -> int {
        average_bearing(self@, pos, range, dir, noise)
    }

    fn get_nearest(&self, pos: &Coordinate, range: u64, dist: u64, dir: u32) -> (r: Option<
        Coordinate,
    >) {
        let pts = scent_positions(self);
        proof {
            assert forall|i: int| 0 <= i < pts@.len() implies #[trigger] pts@[i].in_bounds() by {
                assert(self@[i].wf());
            }
        }
        match nearest_point_index(&pts, pos, range) {
            Some(i) => {
                let target = self[i].position;
                proof {
                    assert(self@[i as int].wf());
                }
                let d = pos.dist_sq_exec(&target);
                if (d as u128) <= square(dist) {
                    Some(target)
                } else {
                    let b = pos.direction(&target);
                    Some(pos.traverse_direction(b, dist))
                }
            },
            None => None,
        }
    }

    fn get_avg_direction(&self, pos: &Coordinate, range: u64, dist: u64, dir: u32, noise: i32) -> (r:
        u32) {
        let mut sum: u128 = 0;
        let mut count: u128 = 0;
        let mut i: usize = 0;
        while i < self.len()
            invariant
                0 <= i <= self.len(),
                trail_wf(self@),
                pos.in_bounds(),
                count == count_scents_within(self@.subrange(0, i as int), *pos, range as int),
                sum == sum_bearings_within(self@.subrange(0, i as int), *pos, range as int),
                count <= i,
                sum <= count * 359,
            decreases self.len() - i,
        {
            let m = self[i];
            proof {
                let s = self@.subrange(0, i as int + 1);
                assert(s.drop_last() =~= self@.subrange(0, i as int));
                assert(s.last() == m);
                assert(self@[i as int].wf());
            }
            if in_range(pos, &m.position, range) {
                sum = sum + m.direction as u128;
                count = count + 1;
            }
            i = i + 1;
        }
        proof {
            assert(self@.subrange(0, self.len() as int) =~= self@);
        }
        if count == 0 {
            return wrap_with_noise(dir, noise);
        }
        proof {
            assert(sum / count <= 359) by (nonlinear_arith)
                requires
                    sum <= count * 359,
                    count > 0,
            ;
        }
        (sum / count) as u32
    }
}

} // verus!
