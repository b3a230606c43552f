//! One joint of the body: a point held at a fixed distance from its parent.

use vstd::prelude::*;
use crate::geometry::{
    Vec2, abs, scale_to, scale_to_spec, rotate90, rotate90_spec, DIR_SCALE,
    sqrt_floor, lemma_sqrt_floor_unique, lemma_scale_to_length, lemma_rescale_close, TOLERANCE,
};
use vstd::arithmetic::div_mod::lemma_div_multiples_vanish;

verus! {

/// Every anchor point stays within this distance of the origin on each axis.
pub const COORD_LIMIT: i64 = 4_398_046_511_104;

/// The largest radius an anchor may have.
pub const MAX_RADIUS: i64 = 50_000_000;

pub open spec fn in_box(p: Vec2, lim: int) -> bool {
    -lim <= p.x <= lim && -lim <= p.y <= lim
}

/// `a - b`, as a vector.
pub open spec fn diff(a: Vec2, b: Vec2) -> Vec2 {
    Vec2 { x: (a.x - b.x) as i64, y: (a.y - b.y) as i64 }
}

/// The integer pair `p` as a vector.
pub open spec fn vec_of(p: (int, int)) -> Vec2 {
    Vec2 { x: p.0 as i64, y: p.1 as i64 }
}

pub open spec fn sq_len(v: Vec2) -> int {
    v.x * v.x + v.y * v.y
}

#[derive(Clone, Copy, Debug, PartialEq, Eq, Structural)]
pub struct Anchor {
    /// Position of the joint.
    pub point: Vec2,
    /// Displacement from the parent to this joint after the last solve.
    pub from_parent: Vec2,
    /// Half-width vector, perpendicular to `from_parent`, of length `distance`.
    pub rhs: Vec2,
    /// Radius of the joint; also how far its child is held from it.
    pub distance: i64,
}

impl Anchor {
    pub open spec fn wf(self) -> bool {
        &&& in_box(self.point, COORD_LIMIT as int)
        &&& in_box(self.from_parent, MAX_RADIUS as int)
        &&& in_box(self.rhs, MAX_RADIUS as int)
        &&& 0 <= self.distance <= MAX_RADIUS
    }

    /// The joint after it is pulled onto the circle of `parent.distance` around
    /// `parent.point`, keeping its heading from the parent.
    pub open spec fn resolved(self, parent: Anchor) -> Anchor {
        let fp = vec_of(scale_to_spec(diff(self.point, parent.point), parent.distance as int));
        Anchor {
            point: Vec2 { x: (parent.point.x + fp.x) as i64, y: (parent.point.y + fp.y) as i64 },
            from_parent: fp,
            rhs: vec_of(scale_to_spec(rotate90_spec(fp), self.distance as int)),
            distance: self.distance,
        }
    }

    pub open spec fn new_spec(point: Vec2, distance: i64) -> Anchor {
        Anchor { point, from_parent: Vec2 { x: 0, y: 0 }, rhs: Vec2 { x: 0, y: 0 }, distance }
    }

    pub fn new(point: Vec2, distance: i64) -> (r: Anchor)
        requires
            in_box(point, COORD_LIMIT as int),
            0 <= distance <= MAX_RADIUS,
        ensures
            r == Anchor::new_spec(point, distance),
            r.wf(),
    {
        Anchor { point, from_parent: Vec2 { x: 0, y: 0 }, rhs: Vec2 { x: 0, y: 0 }, distance }
    }

    /// Put this joint `parent.distance` away from the parent, along its current heading.
    pub fn scale_to_dist(&mut self, parent: &Anchor)
        requires
            old(self).wf(),
            parent.wf(),
            in_box(parent.point, COORD_LIMIT - MAX_RADIUS),
        ensures
            *final(self) == old(self).resolved(*parent),
            final(self).wf(),
    {
        let off = Vec2 { x: self.point.x - parent.point.x, y: self.point.y - parent.point.y };
        let fp = scale_to(off, parent.distance);
        self.from_parent = fp;
        self.point = Vec2 { x: parent.point.x + fp.x, y: parent.point.y + fp.y };
        self.rhs = scale_to(rotate90(fp), self.distance);
    }
}

/// A joint that already sits exactly on its parent's circle is left where it
/// is, and its displacement from the parent keeps its direction.
pub proof fn lemma_resolve_fixed_point(a: Anchor, parent: Anchor)
    requires
        a.wf(),
        parent.wf(),
        sq_len(diff(a.point, parent.point)) == parent.distance * parent.distance,
    ensures
        a.resolved(parent).from_parent == diff(a.point, parent.point),
        a.resolved(parent).point == a.point,
{
    let v = diff(a.point, parent.point);
    let d = parent.distance as int;
    assert(v.x == a.point.x - parent.point.x && v.y == a.point.y - parent.point.y);
    let ax = abs(v.x as int);
    let ay = abs(v.y as int);
    assert(ax * ax == v.x * v.x) by (nonlinear_arith)
        requires
            ax == v.x || ax == -v.x,
    ;
    assert(ay * ay == v.y * v.y) by (nonlinear_arith)
        requires
            ay == v.y || ay == -v.y,
    ;
    if v.x == 0 && v.y == 0 {
        assert(d == 0) by (nonlinear_arith)
            requires
                d * d == 0,
        ;
    } else {
        let s = DIR_SCALE as int;
        let sx = ax * s;
        let sy = ay * s;
        assert(sx * sx + sy * sy == (s * d) * (s * d)) by (nonlinear_arith)
            requires
                sx == ax * s,
                sy == ay * s,
                ax * ax + ay * ay == d * d,
        ;
        assert((s * d) * (s * d) < (s * d + 1) * (s * d + 1)) by (nonlinear_arith)
            requires
                s * d >= 0,
        ;
        lemma_sqrt_floor_unique((sx * sx + sy * sy) as nat, (s * d) as nat);
        assert(d > 0) by {
            if d == 0 {
                assert(ax == 0) by (nonlinear_arith)
                    requires
                        ax * ax + ay * ay == 0,
                        ax >= 0,
                        ay >= 0,
                ;
                assert(ay == 0) by (nonlinear_arith)
                    requires
                        ax * ax + ay * ay == 0,
                        ax >= 0,
                        ay >= 0,
                ;
            }
        }
        assert(sx * d == (s * d) * ax) by (nonlinear_arith)
            requires
                sx == ax * s,
        ;
        assert(sy * d == (s * d) * ay) by (nonlinear_arith)
            requires
                sy == ay * s,
        ;
        assert(s * d > 0) by (nonlinear_arith)
            requires
                s > 0,
                d > 0,
        ;
        lemma_div_multiples_vanish(ax, s * d);
        lemma_div_multiples_vanish(ay, s * d);
        assert(sqrt_floor((sx * sx + sy * sy) as nat) == s * d);
    }
}

/// Resolving a joint a second time against the same parent moves it by at
/// most `TOLERANCE`, and turns its `from_parent` by at most 70 millionths per
/// axis: a resolved joint is a fixed point up to rounding.
pub proof fn lemma_resolve_twice(a: Anchor, parent: Anchor)
    requires
        a.wf(),
        parent.wf(),
        in_box(parent.point, COORD_LIMIT - MAX_RADIUS),
        parent.distance >= 4,
    ensures
        ({
            let once = a.resolved(parent);
            let twice = once.resolved(parent);
            &&& sq_len(diff(twice.point, once.point)) <= TOLERANCE * TOLERANCE
            &&& abs(twice.from_parent.x - once.from_parent.x) <= 70
            &&& abs(twice.from_parent.y - once.from_parent.y) <= 70
        }),
{
    let d = parent.distance as int;
    let v = diff(a.point, parent.point);
    lemma_scale_to_length(v, d);
    let once = a.resolved(parent);
    assert(diff(once.point, parent.point) == once.from_parent);
    lemma_rescale_close(once.from_parent, d);
    let twice = once.resolved(parent);
    let g = diff(twice.point, once.point);
    assert(-70 <= g.x <= 70 && -70 <= g.y <= 70);
    assert(g.x * g.x + g.y * g.y <= 10_000) by (nonlinear_arith)
        requires
            -70 <= g.x <= 70,
            -70 <= g.y <= 70,
    ;
}

} // verus!
