//! The body: a chain of anchors solved head to tail.

use vstd::prelude::*;
use crate::geometry::{
    Vec2, abs, scale_to, scale_to_spec, rotate90, rotate90_spec, lemma_scale_to_near, near_length,
};
use crate::anchor::{Anchor, COORD_LIMIT, MAX_RADIUS, in_box, diff, vec_of, sq_len};
use crate::random::random_below;

verus! {

/// The most anchors a body can hold.
pub const MAX_LEN: usize = 40_000;

/// Where the head rests between ticks, per axis.
pub const HEAD_REST: i64 = 1_099_511_627_776;

/// Where the head may be while a tick is under way, per axis.
pub const HEAD_LIMIT: i64 = 2_199_023_255_552;

/// How far the head moves each tick.
pub const STEP: i64 = 7_500_000;

/// Share of the first follower's half-width, in hundredths, added to the heading by a turn.
pub const TURN_BIAS: i64 = 33;

/// Radius of an anchor added when the body grows.
pub const GROWTH_RADIUS: i64 = 30_000_000;

/// `c * num / den`, rounded toward zero.
pub open spec fn frac(c: int, num: int, den: int) -> int {
    if c < 0 { -((-c) * num / den) } else { c * num / den }
}

/// `c * num / den`, rounded toward zero.
pub fn scale_frac(c: i64, num: i64, den: i64) -> (r: i64)
    requires
        -COORD_LIMIT <= c <= COORD_LIMIT,
        0 <= num <= den <= 1000,
        den > 0,
    ensures
        r == frac(c as int, num as int, den as int),
        abs(r as int) <= abs(c as int),
{
    let a: i64 = if c < 0 { -c } else { c };
    assert(a * num <= a * den) by (nonlinear_arith)
        requires
            a >= 0,
            num <= den,
    ;
    assert(a * den <= COORD_LIMIT * 1000) by (nonlinear_arith)
        requires
            0 <= a <= COORD_LIMIT,
            den <= 1000,
    ;
    assert(a * num >= 0) by (nonlinear_arith)
        requires
            a >= 0,
            num >= 0,
    ;
    let q: i64 = a * num / den;
    proof {
        vstd::arithmetic::div_mod::lemma_div_is_ordered((a * num) as int, (a * den) as int, den as int);
        vstd::arithmetic::div_mod::lemma_div_multiples_vanish(a as int, den as int);
        assert(a * den == den * a) by (nonlinear_arith);
    }
    if c < 0 { -q } else { q }
}

/// The head re-aimed along the line toward the first follower.
pub open spec fn oriented_head(head: Anchor, next: Anchor) -> Anchor {
    let fp = vec_of(scale_to_spec(diff(next.point, head.point), head.distance as int));
    Anchor {
        point: head.point,
        from_parent: fp,
        rhs: vec_of(scale_to_spec(rotate90_spec(fp), head.distance as int)),
        distance: head.distance,
    }
}

/// The direction the head is pushed in: forward from the first follower,
/// bent by a share of its half-width for each turn held.
pub open spec fn heading(a: Anchor, left: bool, right: bool) -> Vec2 {
    let lx = if left { frac(a.rhs.x as int, TURN_BIAS as int, 100) } else { 0 };
    let ly = if left { frac(a.rhs.y as int, TURN_BIAS as int, 100) } else { 0 };
    let rx = if right { frac(a.rhs.x as int, TURN_BIAS as int, 100) } else { 0 };
    let ry = if right { frac(a.rhs.y as int, TURN_BIAS as int, 100) } else { 0 };
    Vec2 { x: (-a.from_parent.x - lx + rx) as i64, y: (-a.from_parent.y - ly + ry) as i64 }
}

/// The two ribbon edge points of each anchor, in chain order.
pub open spec fn ribbon_spec(body: Seq<Anchor>) -> Seq<Vec2> {
    Seq::new(
        2 * body.len(),
        |j: int|
            if j % 2 == 0 {
                Vec2 {
                    x: (body[j / 2].point.x + body[j / 2].rhs.x) as i64,
                    y: (body[j / 2].point.y + body[j / 2].rhs.y) as i64,
                }
            } else {
                Vec2 {
                    x: (body[j / 2].point.x - body[j / 2].rhs.x) as i64,
                    y: (body[j / 2].point.y - body[j / 2].rhs.y) as i64,
                }
            },
    )
}

/// An eye: the head point, moved by `side` times its half-width and three
/// tenths of its heading.
pub open spec fn eye_spec(head: Anchor, side: int) -> Vec2 {
    Vec2 {
        x: (head.point.x + side * head.rhs.x + frac(head.from_parent.x as int, 3, 10)) as i64,
        y: (head.point.y + side * head.rhs.y + frac(head.from_parent.y as int, 3, 10)) as i64,
    }
}

/// `new` is `old` solved head to tail: every follower pulled onto its parent's
/// circle, then the head aimed at its first follower.
pub open spec fn solved(old: Seq<Anchor>, new: Seq<Anchor>) -> bool {
    &&& new.len() == old.len()
    &&& new.len() >= 2
    &&& new[0] == oriented_head(old[0], new[1])
    &&& forall|k: int| 1 <= k < new.len() ==> #[trigger] new[k] == old[k].resolved(new[k - 1])
}

/// After a solve, every follower sits on the circle of its parent's radius
/// within `TOLERANCE`: the link to its parent, its `from_parent` and its
/// half-width `rhs` all have the length asked for, up to a ten-thousandth of a unit.
pub proof fn lemma_solved_constraint(old: Seq<Anchor>, new: Seq<Anchor>, k: int)
    requires
        solved(old, new),
        1 <= k < new.len(),
        old[k].wf(),
        new[k - 1].wf(),
        new[k].wf(),
    ensures
        new[k].point == (Vec2 {
            x: (new[k - 1].point.x + new[k].from_parent.x) as i64,
            y: (new[k - 1].point.y + new[k].from_parent.y) as i64,
        }),
        near_length(sq_len(diff(new[k].point, new[k - 1].point)), new[k - 1].distance as int),
        near_length(sq_len(new[k].from_parent), new[k - 1].distance as int),
        near_length(sq_len(new[k].rhs), new[k].distance as int),
{
    let parent = new[k - 1];
    assert(old[k].wf() && parent.wf() && new[k].wf());
    let v = diff(old[k].point, parent.point);
    lemma_scale_to_near(v, parent.distance as int);
    assert(new[k] == old[k].resolved(parent));
    let fp = vec_of(scale_to_spec(v, parent.distance as int));
    assert(diff(new[k].point, parent.point) == fp);
    lemma_scale_to_near(rotate90_spec(fp), new[k].distance as int);
}

#[derive(Clone, Debug)]
pub struct Snake {
    /// Index 0 is the head, the last index the tail.
    pub body: Vec<Anchor>,
}

impl Snake {
    /// At least a head and one follower, every anchor in range, the head within `head_lim`.
    pub open spec fn chain_ok(self, head_lim: int) -> bool {
        &&& 2 <= self.body.len() <= MAX_LEN
        &&& forall|k: int| 0 <= k < self.body.len() ==> #[trigger] self.body[k].wf()
        &&& in_box(self.body[0].point, head_lim)
    }

    pub open spec fn wf(self) -> bool {
        self.chain_ok(HEAD_REST as int)
    }

    /// A body of `size` anchors at random points with random radii.
    pub fn new(size: usize) -> (r: Snake)
        requires
            size <= MAX_LEN,
        ensures
            size >= 2 ==> r.wf(),
            r.body.len() == size,
            forall|k: int|
                0 <= k < size ==> (#[trigger] r.body[k]) == Anchor::new_spec(r.body[k].point, r.body[k].distance)
                    && 0 <= r.body[k].point.x < 720_000_000 && 0 <= r.body[k].point.y < 720_000_000
                    && 0 <= r.body[k].distance < MAX_RADIUS,
    {
        let mut body: Vec<Anchor> = Vec::with_capacity(size);
        let mut i: usize = 0;
        while i < size
            invariant
                i <= size,
                body.len() == i,
                forall|k: int|
                    0 <= k < i ==> (#[trigger] body[k]).wf() && body[k] == Anchor::new_spec(body[k].point, body[k].distance)
                        && 0 <= body[k].point.x < 720_000_000 && 0 <= body[k].point.y < 720_000_000
                        && 0 <= body[k].distance < MAX_RADIUS,
            decreases size - i,
        {
            let x = random_below(720_000_000) as i64;
            let y = random_below(720_000_000) as i64;
            let d = random_below(MAX_RADIUS as u64) as i64;
            body.push(Anchor::new(Vec2 { x, y }, d));
            i = i + 1;
        }
        if size >= 2 {
            assert(body[0].wf());
        }
        Snake { body }
    }

    /// A body made of the given anchors.
    pub fn from_body(body: Vec<Anchor>) -> (r: Snake)
        ensures
            r.body == body,
    {
        Snake { body }
    }

    /// Move the head one step forward, bent toward a held turn.
    pub fn input(&mut self, left: bool, right: bool)
        requires
            old(self).wf(),
        ensures
            final(self).chain_ok(HEAD_LIMIT as int),
            final(self).body.len() == old(self).body.len(),
            forall|k: int| 1 <= k < old(self).body.len() ==> #[trigger] final(self).body[k] == old(self).body[k],
            final(self).body[0] == (Anchor {
                point: Vec2 {
                    x: (old(self).body[0].point.x + scale_to_spec(heading(old(self).body[1], left, right), STEP as int).0) as i64,
                    y: (old(self).body[0].point.y + scale_to_spec(heading(old(self).body[1], left, right), STEP as int).1) as i64,
                },
                ..old(self).body[0]
            }),
    {
        let a = self.body[1];
        assert(a.wf());
        let mut dx: i64 = -a.from_parent.x;
        let mut dy: i64 = -a.from_parent.y;
        if left {
            dx = dx - scale_frac(a.rhs.x, TURN_BIAS, 100);
            dy = dy - scale_frac(a.rhs.y, TURN_BIAS, 100);
        }
        if right {
            dx = dx + scale_frac(a.rhs.x, TURN_BIAS, 100);
            dy = dy + scale_frac(a.rhs.y, TURN_BIAS, 100);
        }
        let dir = Vec2 { x: dx, y: dy };
        assert(dir == heading(a, left, right));
        let step = scale_to(dir, STEP);
        let mut head = self.body[0];
        assert(head.wf());
        head.point = Vec2 { x: head.point.x + step.x, y: head.point.y + step.y };
        self.body.set(0, head);
        assert(final(self).body[0].wf());
        assert forall|k: int| 0 <= k < self.body.len() implies #[trigger] self.body[k].wf() by {
            if k > 0 {
                assert(self.body[k] == old(self).body[k]);
            }
        }
    }

    /// Pull every follower, head to tail, onto the circle of its parent,
    /// then aim the head at its first follower.
    pub fn update(&mut self)
        requires
            old(self).chain_ok(HEAD_LIMIT as int),
        ensures
            final(self).chain_ok(HEAD_LIMIT as int),
            solved(old(self).body@, final(self).body@),
    {
        let n = self.body.len();
        let ghost head = self.body[0];
        let mut i: usize = 0;
        while i < n - 1
            invariant
                n == self.body.len(),
                2 <= n <= MAX_LEN,
                i < n,
                self.body[0] == head,
                in_box(head.point, HEAD_LIMIT as int),
                forall|k: int| 0 <= k < n ==> #[trigger] self.body[k].wf(),
                forall|k: int|
                    0 <= k <= i ==> abs(#[trigger] self.body[k].point.x - head.point.x) <= k * MAX_RADIUS
                        && abs(self.body[k].point.y - head.point.y) <= k * MAX_RADIUS,
                forall|k: int| i < k < n ==> #[trigger] self.body[k] == old(self).body[k],
                forall|k: int|
                    1 <= k <= i ==> #[trigger] self.body[k] == old(self).body[k].resolved(self.body[k - 1]),
            decreases n - 1 - i,
        {
            let a = self.body[i];
            let mut b = self.body[i + 1];
            assert(a.wf() && b.wf());
            assert(abs(a.point.x - head.point.x) <= i * MAX_RADIUS);
            assert(i * MAX_RADIUS <= MAX_LEN * MAX_RADIUS) by (nonlinear_arith)
                requires
                    i <= MAX_LEN,
            ;
            b.scale_to_dist(&a);
            self.body.set(i + 1, b);
            assert((i + 1) * MAX_RADIUS == i * MAX_RADIUS + MAX_RADIUS) by (nonlinear_arith);
            assert(self.body[i + 1] == old(self).body[i + 1 as int].resolved(self.body[i as int]));
            i = i + 1;
        }
        let h = self.body[0];
        let next = self.body[1];
        assert(h.wf() && next.wf());
        assert(abs(next.point.x - head.point.x) <= MAX_RADIUS);
        let fp = scale_to(
            Vec2 { x: next.point.x - h.point.x, y: next.point.y - h.point.y },
            h.distance,
        );
        let rhs = scale_to(rotate90(fp), h.distance);
        let oriented = Anchor { point: h.point, from_parent: fp, rhs, distance: h.distance };
        self.body.set(0, oriented);
        assert forall|k: int| 0 <= k < n implies #[trigger] self.body[k].wf() by {}
        assert forall|k: int| 1 <= k < n implies #[trigger] self.body[k] == old(self).body[k].resolved(
            self.body[k - 1],
        ) by {
            if k == 1 {
                assert(self.body[1] == old(self).body[1].resolved(h));
                assert(h.point == oriented.point);
                assert(old(self).body[1].resolved(h) == old(self).body[1].resolved(oriented));
            }
        }
    }

    /// Add a tail anchor of the growth radius at `p`.
    pub fn grow(&mut self, p: Vec2)
        requires
            old(self).body.len() < MAX_LEN,
            in_box(p, COORD_LIMIT as int),
        ensures
            final(self).body@ == old(self).body@.push(Anchor::new_spec(p, GROWTH_RADIUS)),
    {
        self.body.push(Anchor::new(p, GROWTH_RADIUS));
    }

    /// The ribbon of the body: each anchor's `point + rhs`, then its `point - rhs`.
    pub fn ribbon(&self) -> (r: Vec<Vec2>)
        requires
            self.chain_ok(HEAD_LIMIT as int),
        ensures
            r@ == ribbon_spec(self.body@),
    {
        let mut points: Vec<Vec2> = Vec::new();
        let mut i: usize = 0;
        while i < self.body.len()
            invariant
                self.chain_ok(HEAD_LIMIT as int),
                i <= self.body.len(),
                points@ =~= ribbon_spec(self.body@.take(i as int)),
            decreases self.body.len() - i,
        {
            let a = self.body[i];
            assert(a.wf());
            points.push(Vec2 { x: a.point.x + a.rhs.x, y: a.point.y + a.rhs.y });
            points.push(Vec2 { x: a.point.x - a.rhs.x, y: a.point.y - a.rhs.y });
            i = i + 1;
            assert(points@ =~= ribbon_spec(self.body@.take(i as int)));
        }
        assert(self.body@.take(i as int) =~= self.body@);
        points
    }

    /// The two eye markers near the head: on the `+rhs` side, then the `-rhs` side.
    pub fn eyes(&self) -> (r: (Vec2, Vec2))
        requires
            self.chain_ok(HEAD_LIMIT as int),
        ensures
            r.0 == eye_spec(self.body[0], 1),
            r.1 == eye_spec(self.body[0], -1),
    {
        let h = self.body[0];
        assert(h.wf());
        let fx = scale_frac(h.from_parent.x, 3, 10);
        let fy = scale_frac(h.from_parent.y, 3, 10);
        (
            Vec2 { x: h.point.x + h.rhs.x + fx, y: h.point.y + h.rhs.y + fy },
            Vec2 { x: h.point.x - h.rhs.x + fx, y: h.point.y - h.rhs.y + fy },
        )
    }
}

} // verus!
