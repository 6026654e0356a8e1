//! Points, segments and circles on an integer lattice, and the first time at
//! which a moving point touches one of them.
//!
//! A ray is the motion `origin + t * dir` for `t` in `[0, 1)`. Times are
//! fractions `p / q`; nothing here rounds until a hit time is reported, and
//! then it is rounded down to a multiple of `1 / TICKS_PER_UNIT`.

use vstd::prelude::*;
use crate::quadratic::{
    form,
    lemma_form_add,
    lemma_form_of_product,
    lemma_form_sub,
    lemma_mul_bound,
    time_before,
    Constraint,
};

verus! {

/// Largest absolute value of a coordinate.
pub const COORD_LIMIT: i64 = 0x8_0000;

/// Hit times are reported in steps of one over this.
pub const TICKS_PER_UNIT: u32 = 0x1_0000;

/// A position or a displacement, in lattice units.
#[derive(Clone, Copy, Debug, PartialEq, Eq, Structural)]
pub struct Vector {
    pub x: i64,
    pub y: i64,
}

/// The motion from `origin` to `origin + dir`.
#[derive(Clone, Copy, Debug, PartialEq, Eq, Structural)]
pub struct Ray {
    pub origin: Vector,
    pub dir: Vector,
}

/// The closed segment between `a` and `b`.
#[derive(Clone, Copy, Debug, PartialEq, Eq, Structural)]
pub struct Segment {
    pub a: Vector,
    pub b: Vector,
}

/// The closed disc around `center`.
#[derive(Clone, Copy, Debug, PartialEq, Eq, Structural)]
pub struct Circle {
    pub center: Vector,
    pub radius: i64,
}

/// A hit time rounded down: the hit lies in
/// `[ticks / TICKS_PER_UNIT, (ticks + 1) / TICKS_PER_UNIT)`.
#[derive(Clone, Copy, Debug, PartialEq, Eq, Structural)]
pub struct HitTime {
    pub ticks: u32,
}

impl Vector {
    /// Both coordinates are within `COORD_LIMIT` of zero.
    pub open spec fn in_world(&self) -> bool {
        &&& -COORD_LIMIT <= self.x <= COORD_LIMIT
        &&& -COORD_LIMIT <= self.y <= COORD_LIMIT
    }

    /// Decides `in_world`.
    pub fn is_in_world(&self) -> (r: bool)
        ensures
            r == self.in_world(),
    {
        -COORD_LIMIT <= self.x && self.x <= COORD_LIMIT && -COORD_LIMIT <= self.y && self.y
            <= COORD_LIMIT
    }
}

impl Ray {
    /// Both ends of the motion are in the world.
    pub open spec fn wf(&self) -> bool {
        &&& self.origin.in_world()
        &&& -COORD_LIMIT <= self.origin.x + self.dir.x <= COORD_LIMIT
        &&& -COORD_LIMIT <= self.origin.y + self.dir.y <= COORD_LIMIT
    }

    /// The motion that starts at `from` and reaches `to` at time 1.
    pub fn between(from: Vector, to: Vector) -> (r: Ray)
        requires
            from.in_world(),
            to.in_world(),
        ensures
            r.wf(),
            r.origin == from,
            r.dir.x == to.x - from.x,
            r.dir.y == to.y - from.y,
    {
        Ray { origin: from, dir: Vector { x: to.x - from.x, y: to.y - from.y } }
    }
}

impl Segment {
    /// Both ends are in the world.
    pub open spec fn wf(&self) -> bool {
        self.a.in_world() && self.b.in_world()
    }
}

impl Circle {
    /// The centre is in the world and the radius is between 0 and `COORD_LIMIT`.
    pub open spec fn wf(&self) -> bool {
        self.center.in_world() && 0 <= self.radius <= COORD_LIMIT
    }
}

/// At time `p / q` the moving point is in the disc: `q` times its offset
/// from the centre is no longer than `q` times the radius.
pub open spec fn circle_hit_at(ray: Ray, circle: Circle, p: int, q: int) -> bool {
    let x = q * (ray.origin.x - circle.center.x) + p * ray.dir.x;
    let y = q * (ray.origin.y - circle.center.y) + p * ray.dir.y;
    x * x + y * y <= q * q * (circle.radius * circle.radius)
}

/// At time `p / q` the moving point is on the segment: seen from it, the two
/// ends lie in exactly opposite directions, or it is one of them.
pub open spec fn segment_hit_at(ray: Ray, segment: Segment, p: int, q: int) -> bool {
    let ax = q * (ray.origin.x - segment.a.x) + p * ray.dir.x;
    let ay = q * (ray.origin.y - segment.a.y) + p * ray.dir.y;
    let bx = q * (ray.origin.x - segment.b.x) + p * ray.dir.x;
    let by = q * (ray.origin.y - segment.b.y) + p * ray.dir.y;
    ax * by - ay * bx == 0 && ax * bx + ay * by <= 0
}

/// The moving point is in the disc at some time in `[0, num / den)`.
pub open spec fn circle_hit_before(ray: Ray, circle: Circle, num: int, den: int) -> bool {
    exists|p: int, q: int| time_before(p, q, num, den) && #[trigger] circle_hit_at(ray, circle, p, q)
}

/// The moving point is on the segment at some time in `[0, num / den)`.
pub open spec fn segment_hit_before(ray: Ray, segment: Segment, num: int, den: int) -> bool {
    exists|p: int, q: int|
        time_before(p, q, num, den) && #[trigger] segment_hit_at(ray, segment, p, q)
}

/// `t` is the first hit of the disc, rounded down to a tick.
pub open spec fn circle_first_hit(ray: Ray, circle: Circle, t: HitTime) -> bool {
    &&& t.ticks < TICKS_PER_UNIT
    &&& !circle_hit_before(ray, circle, t.ticks as int, TICKS_PER_UNIT as int)
    &&& circle_hit_before(ray, circle, t.ticks + 1, TICKS_PER_UNIT as int)
}

/// `t` is the first hit of the segment, rounded down to a tick.
pub open spec fn segment_first_hit(ray: Ray, segment: Segment, t: HitTime) -> bool {
    &&& t.ticks < TICKS_PER_UNIT
    &&& !segment_hit_before(ray, segment, t.ticks as int, TICKS_PER_UNIT as int)
    &&& segment_hit_before(ray, segment, t.ticks + 1, TICKS_PER_UNIT as int)
}

/// Bound on the difference of two coordinates.
pub const SPAN: i128 = 0x10_0000;

/// A sum of two squares is zero only where both numbers are.
proof fn lemma_zero_length(x: int, y: int)
    requires
        x * x + y * y == 0,
    ensures
        x == 0,
        y == 0,
{
    assert(x == 0 && y == 0) by (nonlinear_arith)
        requires
            x * x + y * y == 0,
    ;
}

/// The constraint that holds exactly when the moving point is in the disc.
fn circle_constraint(ray: &Ray, circle: &Circle) -> (k: Constraint)
    requires
        ray.wf(),
        circle.wf(),
    ensures
        k.bounded(),
        forall|p: int, q: int| #[trigger] k.holds_at(p, q) == circle_hit_at(*ray, *circle, p, q),
{
    let dx: i128 = ray.dir.x as i128;
    let dy: i128 = ray.dir.y as i128;
    let wx: i128 = ray.origin.x as i128 - circle.center.x as i128;
    let wy: i128 = ray.origin.y as i128 - circle.center.y as i128;
    let r: i128 = circle.radius as i128;
    proof {
        lemma_mul_bound(dx as int, dx as int, SPAN as int, SPAN as int);
        lemma_mul_bound(dy as int, dy as int, SPAN as int, SPAN as int);
        lemma_mul_bound(wx as int, dx as int, SPAN as int, SPAN as int);
        lemma_mul_bound(wy as int, dy as int, SPAN as int, SPAN as int);
        lemma_mul_bound(wx as int, wx as int, SPAN as int, SPAN as int);
        lemma_mul_bound(wy as int, wy as int, SPAN as int, SPAN as int);
        lemma_mul_bound(r as int, r as int, COORD_LIMIT as int, COORD_LIMIT as int);
        assert(dx * dx >= 0 && dy * dy >= 0 && wx * wx >= 0 && wy * wy >= 0 && r * r >= 0)
            by (nonlinear_arith);
    }
    let a: i128 = dx * dx + dy * dy;
    let b: i128 = 2 * (wx * dx + wy * dy);
    let c: i128 = wx * wx + wy * wy - r * r;
    let k = Constraint { line0: 0, line1: 0, a, b, c };
    proof {
        if a == 0 {
            lemma_zero_length(dx as int, dy as int);
            assert(wx * dx == 0 && wy * dy == 0) by (nonlinear_arith)
                requires
                    dx == 0,
                    dy == 0,
            ;
        }
        assert forall|p: int, q: int| #[trigger]
            k.holds_at(p, q) == circle_hit_at(*ray, *circle, p, q) by {
            let x = q * (ray.origin.x - circle.center.x) + p * ray.dir.x;
            let y = q * (ray.origin.y - circle.center.y) + p * ray.dir.y;
            lemma_form_of_product(wx as int, dx as int, wx as int, dx as int, p, q);
            lemma_form_of_product(wy as int, dy as int, wy as int, dy as int, p, q);
            lemma_form_add(
                dx * dx,
                wx * dx + dx * wx,
                wx * wx,
                dy * dy,
                wy * dy + dy * wy,
                wy * wy,
                p,
                q,
            );
            lemma_form_sub(
                dx * dx + dy * dy,
                wx * dx + dx * wx + (wy * dy + dy * wy),
                wx * wx + wy * wy,
                0,
                0,
                r * r,
                p,
                q,
            );
            assert(dx * wx == wx * dx && dy * wy == wy * dy) by (nonlinear_arith);
            assert(form(0, 0, r * r, p, q) == q * q * (r * r)) by (nonlinear_arith)
                requires
                    form(0, 0, r * r, p, q) == 0 * p * p + 0 * p * q + (r * r) * q * q,
            ;
            assert(form(a as int, b as int, c as int, p, q) == x * x + y * y - q * q * (r * r));
            assert(0 * q + 0 * p == 0);
        }
    }
    k
}

/// The constraint that holds exactly when the moving point is on the segment.
fn segment_constraint(ray: &Ray, segment: &Segment) -> (k: Constraint)
    requires
        ray.wf(),
        segment.wf(),
    ensures
        k.bounded(),
        forall|p: int, q: int|
            q > 0 ==> #[trigger] k.holds_at(p, q) == segment_hit_at(*ray, *segment, p, q),
{
    let dx: i128 = ray.dir.x as i128;
    let dy: i128 = ray.dir.y as i128;
    let ux: i128 = ray.origin.x as i128 - segment.a.x as i128;
    let uy: i128 = ray.origin.y as i128 - segment.a.y as i128;
    let vx: i128 = ray.origin.x as i128 - segment.b.x as i128;
    let vy: i128 = ray.origin.y as i128 - segment.b.y as i128;
    let ex: i128 = ux - vx;
    let ey: i128 = uy - vy;
    proof {
        lemma_mul_bound(dx as int, dx as int, SPAN as int, SPAN as int);
        lemma_mul_bound(dy as int, dy as int, SPAN as int, SPAN as int);
        lemma_mul_bound(ux as int, vx as int, SPAN as int, SPAN as int);
        lemma_mul_bound(uy as int, vy as int, SPAN as int, SPAN as int);
        lemma_mul_bound(ux as int, vy as int, SPAN as int, SPAN as int);
        lemma_mul_bound(uy as int, vx as int, SPAN as int, SPAN as int);
        lemma_mul_bound(ux + vx, dx as int, 2 * SPAN as int, SPAN as int);
        lemma_mul_bound(uy + vy, dy as int, 2 * SPAN as int, SPAN as int);
        lemma_mul_bound(ex as int, dy as int, SPAN as int, SPAN as int);
        lemma_mul_bound(ey as int, dx as int, SPAN as int, SPAN as int);
        assert(dx * dx >= 0 && dy * dy >= 0) by (nonlinear_arith);
    }
    let a: i128 = dx * dx + dy * dy;
    let b: i128 = (ux + vx) * dx + (uy + vy) * dy;
    let c: i128 = ux * vx + uy * vy;
    let line0: i128 = ux * vy - uy * vx;
    let line1: i128 = ex * dy - ey * dx;
    let k = Constraint { line0, line1, a, b, c };
    proof {
        if a == 0 {
            lemma_zero_length(dx as int, dy as int);
            assert((ux + vx) * dx == 0 && (uy + vy) * dy == 0) by (nonlinear_arith)
                requires
                    dx == 0,
                    dy == 0,
            ;
        }
        assert forall|p: int, q: int| q > 0 implies #[trigger] k.holds_at(p, q) == segment_hit_at(
            *ray,
            *segment,
            p,
            q,
        ) by {
            let ax = q * (ray.origin.x - segment.a.x) + p * ray.dir.x;
            let ay = q * (ray.origin.y - segment.a.y) + p * ray.dir.y;
            let bx = q * (ray.origin.x - segment.b.x) + p * ray.dir.x;
            let by = q * (ray.origin.y - segment.b.y) + p * ray.dir.y;
            // the dot product
            lemma_form_of_product(ux as int, dx as int, vx as int, dx as int, p, q);
            lemma_form_of_product(uy as int, dy as int, vy as int, dy as int, p, q);
            lemma_form_add(
                dx * dx,
                ux * dx + dx * vx,
                ux * vx,
                dy * dy,
                uy * dy + dy * vy,
                uy * vy,
                p,
                q,
            );
            assert((ux + vx) * dx == ux * dx + dx * vx) by (nonlinear_arith);
            assert((uy + vy) * dy == uy * dy + dy * vy) by (nonlinear_arith);
            assert(form(a as int, b as int, c as int, p, q) == ax * bx + ay * by);
            // the cross product
            lemma_form_of_product(ux as int, dx as int, vy as int, dy as int, p, q);
            lemma_form_of_product(uy as int, dy as int, vx as int, dx as int, p, q);
            lemma_form_sub(
                dx * dy,
                ux * dy + dx * vy,
                ux * vy,
                dy * dx,
                uy * dx + dy * vx,
                uy * vx,
                p,
                q,
            );
            assert(dx * dy - dy * dx == 0) by (nonlinear_arith);
            assert(ux * dy + dx * vy - (uy * dx + dy * vx) == line1) by (nonlinear_arith)
                requires
                    line1 == (ux - vx) * dy - (uy - vy) * dx,
            ;
            assert(form(0, line1 as int, line0 as int, p, q) == ax * by - ay * bx);
            assert(form(0, line1 as int, line0 as int, p, q) == q * (line0 * q + line1 * p))
                by (nonlinear_arith)
                requires
                    form(0, line1 as int, line0 as int, p, q) == 0 * p * p + line1 * p * q + line0
                        * q * q,
            ;
            assert((ax * by - ay * bx == 0) == (line0 * q + line1 * p == 0)) by (nonlinear_arith)
                requires
                    ax * by - ay * bx == q * (line0 * q + line1 * p),
                    q > 0,
            ;
        }
    }
    k
}

/// A time limit may be written over any denominator.
proof fn lemma_unit_limit(p: int, q: int, den: int)
    requires
        den > 0,
    ensures
        time_before(p, q, den, den) == time_before(p, q, 1, 1),
{
    assert((p * den < den * q) == (p * 1 < 1 * q)) by (nonlinear_arith)
        requires
            den > 0,
    ;
}

/// The first time in `[0, 1)` at which the moving point is in the disc,
/// rounded down to a tick; `None` where there is none.
pub fn intersect_ray_circle(ray: &Ray, circle: &Circle) -> (r: Option<HitTime>)
    requires
        ray.wf(),
        circle.wf(),
    ensures
        r is Some <==> circle_hit_before(*ray, *circle, 1, 1),
        r matches Some(t) ==> circle_first_hit(*ray, *circle, t),
{
    let k = circle_constraint(ray, circle);
    proof {
        assert forall|num: int, den: int|
            k.met_before(num, den) == circle_hit_before(*ray, *circle, num, den) by {
            if k.met_before(num, den) {
                let (p, q) = choose|p: int, q: int|
                    time_before(p, q, num, den) && #[trigger] k.holds_at(p, q);
                assert(circle_hit_at(*ray, *circle, p, q));
            }
            if circle_hit_before(*ray, *circle, num, den) {
                let (p, q) = choose|p: int, q: int|
                    time_before(p, q, num, den) && #[trigger] circle_hit_at(*ray, *circle, p, q);
                assert(k.holds_at(p, q));
            }
        }
        assert forall|p: int, q: int|
            time_before(p, q, TICKS_PER_UNIT as int, TICKS_PER_UNIT as int) == time_before(
                p,
                q,
                1,
                1,
            ) by {
            lemma_unit_limit(p, q, TICKS_PER_UNIT as int);
        }
    }
    match k.first_step(TICKS_PER_UNIT as i128) {
        None => None,
        Some(t) => Some(HitTime { ticks: t as u32 }),
    }
}

/// The first time in `[0, 1)` at which the moving point is on the segment,
/// rounded down to a tick; `None` where there is none.
pub fn intersect_ray_segment(ray: &Ray, segment: &Segment) -> (r: Option<HitTime>)
    requires
        ray.wf(),
        segment.wf(),
    ensures
        r is Some <==> segment_hit_before(*ray, *segment, 1, 1),
        r matches Some(t) ==> segment_first_hit(*ray, *segment, t),
{
    let k = segment_constraint(ray, segment);
    proof {
        assert forall|num: int, den: int|
            k.met_before(num, den) == segment_hit_before(*ray, *segment, num, den) by {
            if k.met_before(num, den) {
                let (p, q) = choose|p: int, q: int|
                    time_before(p, q, num, den) && #[trigger] k.holds_at(p, q);
                assert(segment_hit_at(*ray, *segment, p, q));
            }
            if segment_hit_before(*ray, *segment, num, den) {
                let (p, q) = choose|p: int, q: int|
                    time_before(p, q, num, den) && #[trigger] segment_hit_at(
                        *ray,
                        *segment,
                        p,
                        q,
                    );
                assert(k.holds_at(p, q));
            }
        }
        assert forall|p: int, q: int|
            time_before(p, q, TICKS_PER_UNIT as int, TICKS_PER_UNIT as int) == time_before(
                p,
                q,
                1,
                1,
            ) by {
            lemma_unit_limit(p, q, TICKS_PER_UNIT as int);
        }
    }
    match k.first_step(TICKS_PER_UNIT as i128) {
        None => None,
        Some(t) => Some(HitTime { ticks: t as u32 }),
    }
}

/// A time before one limit is before every later limit.
pub proof fn lemma_time_before_later(p: int, q: int, n1: int, d1: int, n2: int, d2: int)
    requires
        d1 > 0,
        d2 > 0,
        n1 * d2 <= n2 * d1,
        time_before(p, q, n1, d1),
    ensures
        time_before(p, q, n2, d2),
{
    assert(p * d2 < n2 * q) by (nonlinear_arith)
        requires
            q > 0,
            d1 > 0,
            d2 > 0,
            p * d1 < n1 * q,
            n1 * d2 <= n2 * d1,
    {
        assert((p * d1) * d2 < (n1 * q) * d2);
        assert((n1 * d2) * q <= (n2 * d1) * q);
        assert((p * d2) * d1 < (n2 * q) * d1);
    }
}

/// A disc hit before one limit is hit before every later limit.
pub proof fn lemma_circle_hit_later(
    ray: Ray,
    circle: Circle,
    n1: int,
    d1: int,
    n2: int,
    d2: int,
)
    requires
        d1 > 0,
        d2 > 0,
        n1 * d2 <= n2 * d1,
        circle_hit_before(ray, circle, n1, d1),
    ensures
        circle_hit_before(ray, circle, n2, d2),
{
    let (p, q) = choose|p: int, q: int|
        time_before(p, q, n1, d1) && #[trigger] circle_hit_at(ray, circle, p, q);
    lemma_time_before_later(p, q, n1, d1, n2, d2);
}

/// A segment hit before one limit is hit before every later limit.
pub proof fn lemma_segment_hit_later(
    ray: Ray,
    segment: Segment,
    n1: int,
    d1: int,
    n2: int,
    d2: int,
)
    requires
        d1 > 0,
        d2 > 0,
        n1 * d2 <= n2 * d1,
        segment_hit_before(ray, segment, n1, d1),
    ensures
        segment_hit_before(ray, segment, n2, d2),
{
    let (p, q) = choose|p: int, q: int|
        time_before(p, q, n1, d1) && #[trigger] segment_hit_at(ray, segment, p, q);
    lemma_time_before_later(p, q, n1, d1, n2, d2);
}

/// The first hit of a disc is determined: two ticks that both are the first
/// hit are the same tick.
pub proof fn lemma_circle_first_hit_unique(ray: Ray, circle: Circle, s: HitTime, t: HitTime)
    requires
        circle_first_hit(ray, circle, s),
        circle_first_hit(ray, circle, t),
    ensures
        s == t,
{
    if s.ticks < t.ticks {
        lemma_circle_hit_later(
            ray,
            circle,
            s.ticks + 1,
            TICKS_PER_UNIT as int,
            t.ticks as int,
            TICKS_PER_UNIT as int,
        );
    }
    if t.ticks < s.ticks {
        lemma_circle_hit_later(
            ray,
            circle,
            t.ticks + 1,
            TICKS_PER_UNIT as int,
            s.ticks as int,
            TICKS_PER_UNIT as int,
        );
    }
}

/// The first hit of a segment is determined: two ticks that both are the
/// first hit are the same tick.
pub proof fn lemma_segment_first_hit_unique(ray: Ray, segment: Segment, s: HitTime, t: HitTime)
    requires
        segment_first_hit(ray, segment, s),
        segment_first_hit(ray, segment, t),
    ensures
        s == t,
{
    if s.ticks < t.ticks {
        lemma_segment_hit_later(
            ray,
            segment,
            s.ticks + 1,
            TICKS_PER_UNIT as int,
            t.ticks as int,
            TICKS_PER_UNIT as int,
        );
    }
    if t.ticks < s.ticks {
        lemma_segment_hit_later(
            ray,
            segment,
            t.ticks + 1,
            TICKS_PER_UNIT as int,
            s.ticks as int,
            TICKS_PER_UNIT as int,
        );
    }
}

} // verus!
