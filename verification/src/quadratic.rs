//! Deciding whether a straight motion meets a constraint before a given time.
//!
//! A point moves along `origin + t * dir`. The shapes of this crate turn
//! "the point touches the shape at time `t`" into one linear equation and
//! one quadratic inequality in `t`, both with integer coefficients. Time is
//! a fraction `p / q`, so everything is stated and decided over integers.

use vstd::prelude::*;

verus! {

/// Bound on the linear coefficients and on `a` and `c`: within it, and with
/// the two bounds below, every product that the decision computes fits into
/// 128 bits.
pub const COEFF_LIMIT: i128 = 0x200_0000_0000;

/// Bound on `b`.
pub const MIDDLE_LIMIT: i128 = 0x400_0000_0000;

/// Bound on the numerator and denominator of a time limit.
pub const TIME_LIMIT: i128 = 0x1_0000;

/// `line0 + line1 * t == 0` and `a * t^2 + b * t + c <= 0`.
#[derive(Clone, Copy, Debug)]
pub struct Constraint {
    pub line0: i128,
    pub line1: i128,
    pub a: i128,
    pub b: i128,
    pub c: i128,
}

/// `q * q` times the value of `a * t^2 + b * t + c` at `t = p / q`.
pub open spec fn form(a: int, b: int, c: int, p: int, q: int) -> int {
    a * p * p + b * p * q + c * q * q
}

/// `p / q` is a time in `[0, num / den)`.
pub open spec fn time_before(p: int, q: int, num: int, den: int) -> bool {
    q > 0 && p >= 0 && p * den < num * q
}

impl Constraint {
    /// The coefficients are small enough for the decision to be computed.
    pub open spec fn bounded(&self) -> bool {
        &&& -COEFF_LIMIT <= self.line0 <= COEFF_LIMIT
        &&& -COEFF_LIMIT <= self.line1 <= COEFF_LIMIT
        &&& 0 <= self.a <= COEFF_LIMIT
        &&& -MIDDLE_LIMIT <= self.b <= MIDDLE_LIMIT
        &&& -COEFF_LIMIT <= self.c <= COEFF_LIMIT
        &&& (self.a == 0 ==> self.b == 0)
    }

    /// The constraint holds at time `p / q`.
    pub open spec fn holds_at(&self, p: int, q: int) -> bool {
        &&& self.line0 * q + self.line1 * p == 0
        &&& form(self.a as int, self.b as int, self.c as int, p, q) <= 0
    }

    /// The constraint holds at some time in `[0, num / den)`.
    pub open spec fn met_before(&self, num: int, den: int) -> bool {
        exists|p: int, q: int| time_before(p, q, num, den) && #[trigger] self.holds_at(p, q)
    }
}

/// With no negative coefficient the form is positive at every time that is not negative.
proof fn lemma_positive_coefficients(a: int, b: int, c: int, p: int, q: int)
    requires
        a >= 0,
        b >= 0,
        c > 0,
        p >= 0,
        q > 0,
    ensures
        form(a, b, c, p, q) > 0,
{
    assert(a * p * p >= 0) by (nonlinear_arith)
        requires
            a >= 0,
            p >= 0,
    ;
    assert(b * p * q >= 0) by (nonlinear_arith)
        requires
            b >= 0,
            p >= 0,
            q > 0,
    ;
    assert(c * q * q > 0) by (nonlinear_arith)
        requires
            c > 0,
            q > 0,
    ;
}

/// `k * (u + v + w)` term by term.
proof fn lemma_distribute(k: int, u: int, v: int, w: int)
    ensures
        k * (u + v + w) == k * u + k * v + k * w,
{
    assert(k * (u + v + w) == k * u + k * v + k * w) by (nonlinear_arith);
}

/// `(x + y) * (u + v)` term by term.
proof fn lemma_product_of_sums(x: int, y: int, u: int, v: int)
    ensures
        (x + y) * (u + v) == x * u + x * v + y * u + y * v,
{
    assert((x + y) * (u + v) == x * u + x * v + y * u + y * v) by (nonlinear_arith);
}

/// `k * k` times the form at `(p, q)` is the form at `(p * k, q * k)`,
/// written out.
proof fn lemma_scaled_form(a: int, b: int, c: int, p: int, q: int, k: int)
    ensures
        k * k * form(a, b, c, p, q) == a * ((p * k) * (p * k)) + b * ((p * k) * (q * k)) + c * ((q
            * k) * (q * k)),
{
    lemma_distribute(k * k, a * p * p, b * p * q, c * q * q);
    assert(k * k * (a * p * p) == a * ((p * k) * (p * k))) by (nonlinear_arith);
    assert(k * k * (b * p * q) == b * ((p * k) * (q * k))) by (nonlinear_arith);
    assert(k * k * (c * q * q) == c * ((q * k) * (q * k))) by (nonlinear_arith);
}

/// The product of two values that move linearly in time is a form.
pub proof fn lemma_form_of_product(u: int, d: int, v: int, e: int, p: int, q: int)
    ensures
        (q * u + p * d) * (q * v + p * e) == form(d * e, u * e + d * v, u * v, p, q),
{
    lemma_product_of_sums(q * u, p * d, q * v, p * e);
    assert((q * u) * (q * v) == (u * v) * q * q) by (nonlinear_arith);
    assert((p * d) * (p * e) == (d * e) * p * p) by (nonlinear_arith);
    assert((q * u) * (p * e) == (u * e) * (p * q)) by (nonlinear_arith);
    assert((p * d) * (q * v) == (d * v) * (p * q)) by (nonlinear_arith);
    assert((u * e + d * v) * (p * q) == (u * e) * (p * q) + (d * v) * (p * q))
        by (nonlinear_arith);
    assert((u * e + d * v) * p * q == (u * e + d * v) * (p * q)) by (nonlinear_arith);
}

/// Forms add coefficient by coefficient.
pub proof fn lemma_form_add(
    a1: int,
    b1: int,
    c1: int,
    a2: int,
    b2: int,
    c2: int,
    p: int,
    q: int,
)
    ensures
        form(a1 + a2, b1 + b2, c1 + c2, p, q) == form(a1, b1, c1, p, q) + form(a2, b2, c2, p, q),
{
    assert((a1 + a2) * p * p == a1 * p * p + a2 * p * p) by (nonlinear_arith);
    assert((b1 + b2) * p * q == b1 * p * q + b2 * p * q) by (nonlinear_arith);
    assert((c1 + c2) * q * q == c1 * q * q + c2 * q * q) by (nonlinear_arith);
}

/// Forms subtract coefficient by coefficient.
pub proof fn lemma_form_sub(
    a1: int,
    b1: int,
    c1: int,
    a2: int,
    b2: int,
    c2: int,
    p: int,
    q: int,
)
    ensures
        form(a1 - a2, b1 - b2, c1 - c2, p, q) == form(a1, b1, c1, p, q) - form(a2, b2, c2, p, q),
{
    assert((a1 - a2) * p * p == a1 * p * p - a2 * p * p) by (nonlinear_arith);
    assert((b1 - b2) * p * q == b1 * p * q - b2 * p * q) by (nonlinear_arith);
    assert((c1 - c2) * q * q == c1 * q * q - c2 * q * q) by (nonlinear_arith);
}

/// With a negative discriminant the form is positive everywhere.
proof fn lemma_negative_discriminant(a: int, b: int, c: int, p: int, q: int)
    requires
        a > 0,
        b * b < 4 * a * c,
        q > 0,
    ensures
        form(a, b, c, p, q) > 0,
{
    let f = form(a, b, c, p, q);
    let x = 2 * (a * p);
    let y = b * q;
    let s = x + y;
    let d = 4 * a * c - b * b;
    let m1 = (a * p) * (a * p);
    let m2 = (a * p) * (b * q);
    let m3 = (b * q) * (b * q);
    let m4 = a * c * (q * q);
    lemma_product_of_sums(x, y, x, y);
    assert(x * x == 4 * m1) by (nonlinear_arith)
        requires
            x == 2 * (a * p),
            m1 == (a * p) * (a * p),
    ;
    assert(x * y == 2 * m2 && y * x == 2 * m2) by (nonlinear_arith)
        requires
            x == 2 * (a * p),
            y == b * q,
            m2 == (a * p) * (b * q),
    ;
    assert(s * s == 4 * m1 + 4 * m2 + m3);
    lemma_distribute(a, a * p * p, b * p * q, c * q * q);
    assert(a * (a * p * p) == m1) by (nonlinear_arith)
        requires
            m1 == (a * p) * (a * p),
    ;
    assert(a * (b * p * q) == m2) by (nonlinear_arith)
        requires
            m2 == (a * p) * (b * q),
    ;
    assert(a * (c * q * q) == m4) by (nonlinear_arith)
        requires
            m4 == a * c * (q * q),
    ;
    assert(a * f == m1 + m2 + m4);
    assert(d * (q * q) == 4 * m4 - m3) by (nonlinear_arith)
        requires
            d == 4 * a * c - b * b,
            m3 == (b * q) * (b * q),
            m4 == a * c * (q * q),
    ;
    assert(4 * (a * f) == s * s + d * (q * q));
    assert(s * s >= 0) by (nonlinear_arith);
    assert(d * (q * q) > 0) by (nonlinear_arith)
        requires
            d > 0,
            q > 0,
    ;
    assert(f > 0) by (nonlinear_arith)
        requires
            4 * (a * f) > 0,
            a > 0,
    ;
}

/// At the vertex `-b / (2 a)` the form is `a` times the negated discriminant.
proof fn lemma_vertex_value(a: int, b: int, c: int)
    ensures
        form(a, b, c, -b, 2 * a) == a * (4 * a * c - b * b),
{
    assert(a * (-b) * (-b) + b * (-b) * (2 * a) + c * (2 * a) * (2 * a) == a * (4 * a * c - b * b))
        by (nonlinear_arith);
}

/// Left of the vertex the form falls: a time before `num / den` has a larger
/// value than `num / den` itself.
proof fn lemma_falling_before_vertex(
    a: int,
    b: int,
    c: int,
    p: int,
    q: int,
    num: int,
    den: int,
)
    requires
        a > 0,
        q > 0,
        den > 0,
        num >= 0,
        p >= 0,
        p * den < num * q,
        2 * a * num + b * den <= 0,
        form(a, b, c, num, den) >= 0,
    ensures
        form(a, b, c, p, q) > 0,
{
    let f = form(a, b, c, p, q);
    let big = form(a, b, c, num, den);
    let x = p * den;
    let y = num * q;
    let z = q * den;
    let w = den * q;
    let gap = x - y;
    let slope = a * (x + y) + b * z;
    lemma_scaled_form(a, b, c, p, q, den);
    lemma_scaled_form(a, b, c, num, den, q);
    assert(z == w) by (nonlinear_arith)
        requires
            z == q * den,
            w == den * q,
    ;
    assert(den * den * f - q * q * big == a * (x * x) - a * (y * y) + b * (x * z) - b * (y * z));
    lemma_product_of_sums(x, -y, a * (x + y), b * z);
    assert(x * (a * (x + y)) == a * (x * x) + a * (x * y)) by (nonlinear_arith);
    assert((-y) * (a * (x + y)) == -(a * (x * y)) - a * (y * y)) by (nonlinear_arith);
    assert(x * (b * z) == b * (x * z)) by (nonlinear_arith);
    assert((-y) * (b * z) == -(b * (y * z))) by (nonlinear_arith);
    assert(gap * slope == a * (x * x) - a * (y * y) + b * (x * z) - b * (y * z));
    assert(slope < 0) by (nonlinear_arith)
        requires
            slope == a * (x + y) + b * z,
            x == p * den,
            y == num * q,
            z == q * den,
            a > 0,
            q > 0,
            x < y,
            2 * a * num + b * den <= 0,
    ;
    assert(gap * slope > 0) by (nonlinear_arith)
        requires
            gap < 0,
            slope < 0,
    ;
    assert(q * q * big >= 0) by (nonlinear_arith)
        requires
            big >= 0,
    ;
    assert(f > 0) by (nonlinear_arith)
        requires
            den * den * f > 0,
            den > 0,
    ;
}

/// Where the form is negative at `num / den`, it is negative a little earlier too.
proof fn lemma_negative_just_before(a: int, b: int, c: int, num: int, den: int) -> (w: (int, int))
    requires
        a > 0,
        num >= 1,
        den >= 1,
        2 * a * num + b * den <= 0,
        form(a, b, c, num, den) < 0,
    ensures
        time_before(w.0, w.1, num, den),
        form(a, b, c, w.0, w.1) <= 0,
{
    let big = form(a, b, c, num, den);
    let g = -(2 * a * num + b * den);
    let m = g + a + 1;
    let x = num * m;
    let z = den * m;
    let p = x - 1;
    let q = z;
    let f = form(a, b, c, p, q);
    lemma_scaled_form(a, b, c, num, den, m);
    assert(a * p * p == a * (x * x) - 2 * (a * x) + a) by (nonlinear_arith)
        requires
            p == x - 1,
    ;
    assert(b * p * q == b * (x * z) - b * z) by (nonlinear_arith)
        requires
            p == x - 1,
            q == z,
    ;
    assert(c * q * q == c * (z * z)) by (nonlinear_arith)
        requires
            q == z,
    ;
    assert(m * g == -2 * (a * x) - b * z) by (nonlinear_arith)
        requires
            g == -(2 * a * num + b * den),
            x == num * m,
            z == den * m,
    ;
    assert(f == m * m * big + m * g + a);
    assert(m * m * big <= -(m * m)) by (nonlinear_arith)
        requires
            big <= -1,
    ;
    assert(m * g - m * m == -(m * (a + 1))) by (nonlinear_arith)
        requires
            m == g + a + 1,
    ;
    assert(m * (a + 1) >= a + 1) by (nonlinear_arith)
        requires
            m >= 1,
            a > 0,
    ;
    assert(x >= 1) by (nonlinear_arith)
        requires
            x == num * m,
            num >= 1,
            m >= 1,
    ;
    assert(q > 0) by (nonlinear_arith)
        requires
            q == den * m,
            den >= 1,
            m >= 1,
    ;
    assert(p * den < num * q) by (nonlinear_arith)
        requires
            p == num * m - 1,
            q == den * m,
            den >= 1,
    ;
    (p, q)
}

/// Two fractions with the same value give the form the same sign.
proof fn lemma_same_time_same_sign(a: int, b: int, c: int, p: int, q: int, p0: int, q0: int)
    requires
        q > 0,
        q0 > 0,
        p * q0 == p0 * q,
    ensures
        form(a, b, c, p, q) <= 0 <==> form(a, b, c, p0, q0) <= 0,
        p >= 0 <==> p0 >= 0,
{
    let f = form(a, b, c, p, q);
    let f0 = form(a, b, c, p0, q0);
    lemma_scaled_form(a, b, c, p, q, q0);
    lemma_scaled_form(a, b, c, p0, q0, q);
    assert(q * q0 == q0 * q) by (nonlinear_arith);
    assert(q0 * q0 * f == q * q * f0);
    assert(f <= 0 <==> f0 <= 0) by (nonlinear_arith)
        requires
            q0 * q0 * f == q * q * f0,
            q > 0,
            q0 > 0,
    ;
    assert(p >= 0 <==> p0 >= 0) by (nonlinear_arith)
        requires
            p * q0 == p0 * q,
            q > 0,
            q0 > 0,
    ;
}

/// Two fractions with the same value lie on the same side of a limit.
proof fn lemma_same_time_same_side(p: int, q: int, p0: int, q0: int, num: int, den: int)
    requires
        q > 0,
        q0 > 0,
        p * q0 == p0 * q,
    ensures
        p * den < num * q <==> p0 * den < num * q0,
{
    assert(q0 * (p * den - num * q) == q * (p0 * den - num * q0)) by (nonlinear_arith)
        requires
            p * q0 == p0 * q,
    ;
    assert(p * den < num * q <==> p0 * den < num * q0) by (nonlinear_arith)
        requires
            q0 * (p * den - num * q) == q * (p0 * den - num * q0),
            q > 0,
            q0 > 0,
    ;
}

/// The form is not positive at some time in `[0, num / den)`.
pub open spec fn nonpositive_before(a: int, b: int, c: int, num: int, den: int) -> bool {
    exists|p: int, q: int| time_before(p, q, num, den) && #[trigger] form(a, b, c, p, q) <= 0
}

/// A product is bounded by the product of the bounds.
pub proof fn lemma_mul_bound(x: int, y: int, bx: int, by: int)
    requires
        -bx <= x <= bx,
        -by <= y <= by,
    ensures
        -(bx * by) <= x * y <= bx * by,
{
    assert(-(bx * by) <= x * y <= bx * by) by (nonlinear_arith)
        requires
            -bx <= x <= bx,
            -by <= y <= by,
    ;
}

/// Decides `nonpositive_before`.
fn decide_nonpositive_before(a: i128, b: i128, c: i128, num: i128, den: i128) -> (r: bool)
    requires
        0 <= a <= COEFF_LIMIT,
        -MIDDLE_LIMIT <= b <= MIDDLE_LIMIT,
        -COEFF_LIMIT <= c <= COEFF_LIMIT,
        a == 0 ==> b == 0,
        1 <= num <= TIME_LIMIT,
        1 <= den <= TIME_LIMIT,
    ensures
        r == nonpositive_before(a as int, b as int, c as int, num as int, den as int),
{
    if c <= 0 {
        proof {
            assert(form(a as int, b as int, c as int, 0, 1) == c) by (nonlinear_arith)
                requires
                    form(a as int, b as int, c as int, 0, 1) == a * 0 * 0 + b * 0 * 1 + c * 1 * 1,
            ;
            assert(time_before(0, 1, num as int, den as int));
        }
        return true;
    }
    if b >= 0 {
        proof {
            assert forall|p: int, q: int| time_before(p, q, num as int, den as int) implies !(
            #[trigger] form(a as int, b as int, c as int, p, q) <= 0) by {
                lemma_positive_coefficients(a as int, b as int, c as int, p, q);
            }
        }
        return false;
    }
    proof {
        lemma_mul_bound(b as int, b as int, MIDDLE_LIMIT as int, MIDDLE_LIMIT as int);
        lemma_mul_bound(a as int, c as int, COEFF_LIMIT as int, COEFF_LIMIT as int);
        lemma_mul_bound(b as int, den as int, MIDDLE_LIMIT as int, TIME_LIMIT as int);
        lemma_mul_bound(a as int, num as int, COEFF_LIMIT as int, TIME_LIMIT as int);
    }
    if b * b < 4 * (a * c) {
        proof {
            assert(4 * a * c == 4 * (a * c)) by (nonlinear_arith);
            assert forall|p: int, q: int| time_before(p, q, num as int, den as int) implies !(
            #[trigger] form(a as int, b as int, c as int, p, q) <= 0) by {
                lemma_negative_discriminant(a as int, b as int, c as int, p, q);
            }
        }
        return false;
    }
    if -(b * den) < 2 * (a * num) {
        proof {
            lemma_vertex_value(a as int, b as int, c as int);
            assert(4 * a * c == 4 * (a * c)) by (nonlinear_arith);
            assert(a * (4 * a * c - b * b) <= 0) by (nonlinear_arith)
                requires
                    a > 0,
                    4 * a * c - b * b <= 0,
            ;
            assert((-b) * den == -(b * den)) by (nonlinear_arith);
            assert(num * (2 * a) == 2 * (a * num)) by (nonlinear_arith);
            assert(time_before(-b as int, 2 * a, num as int, den as int));
        }
        return true;
    }
    proof {
        lemma_mul_bound(a * num, num as int, COEFF_LIMIT * TIME_LIMIT, TIME_LIMIT as int);
        lemma_mul_bound(b as int, num as int, MIDDLE_LIMIT as int, TIME_LIMIT as int);
        lemma_mul_bound(b * num, den as int, MIDDLE_LIMIT * TIME_LIMIT, TIME_LIMIT as int);
        lemma_mul_bound(c as int, den as int, COEFF_LIMIT as int, TIME_LIMIT as int);
        lemma_mul_bound(c * den, den as int, COEFF_LIMIT * TIME_LIMIT, TIME_LIMIT as int);
    }
    let f = a * num * num + b * num * den + c * den * den;
    proof {
        assert(2 * a * num == 2 * (a * num)) by (nonlinear_arith);
    }
    if f < 0 {
        proof {
            let w = lemma_negative_just_before(
                a as int,
                b as int,
                c as int,
                num as int,
                den as int,
            );
            assert(form(a as int, b as int, c as int, w.0, w.1) <= 0);
        }
        true
    } else {
        proof {
            assert forall|p: int, q: int| time_before(p, q, num as int, den as int) implies !(
            #[trigger] form(a as int, b as int, c as int, p, q) <= 0) by {
                lemma_falling_before_vertex(
                    a as int,
                    b as int,
                    c as int,
                    p,
                    q,
                    num as int,
                    den as int,
                );
            }
        }
        false
    }
}

impl Constraint {
    /// Decides `met_before` where the line is crossed at one time only:
    /// that time must lie before the limit and satisfy the inequality.
    fn is_met_at_crossing(&self, num: i128, den: i128) -> (r: bool)
        requires
            self.bounded(),
            self.line1 != 0,
            1 <= num <= TIME_LIMIT,
            1 <= den <= TIME_LIMIT,
        ensures
            r == self.met_before(num as int, den as int),
    {
        // the crossing is at p0 / q0, with q0 positive
        let p0: i128 = if self.line1 > 0 {
            -self.line0
        } else {
            self.line0
        };
        let q0: i128 = if self.line1 > 0 {
            self.line1
        } else {
            -self.line1
        };
        proof {
            assert(self.line0 * q0 + self.line1 * p0 == 0) by (nonlinear_arith)
                requires
                    (q0 == self.line1 && p0 == -self.line0) || (q0 == -self.line1 && p0
                        == self.line0),
            ;
            assert forall|p: int, q: int|
                time_before(p, q, num as int, den as int) && #[trigger] self.holds_at(
                    p,
                    q,
                ) implies time_before(p0 as int, q0 as int, num as int, den as int)
                && self.holds_at(p0 as int, q0 as int) by {
                assert(p * q0 == p0 * q) by (nonlinear_arith)
                    requires
                        self.line0 * q + self.line1 * p == 0,
                        (q0 == self.line1 && p0 == -self.line0) || (q0 == -self.line1 && p0
                            == self.line0),
                ;
                lemma_same_time_same_sign(
                    self.a as int,
                    self.b as int,
                    self.c as int,
                    p,
                    q,
                    p0 as int,
                    q0 as int,
                );
                lemma_same_time_same_side(p, q, p0 as int, q0 as int, num as int, den as int);
            }
            lemma_mul_bound(p0 as int, den as int, COEFF_LIMIT as int, TIME_LIMIT as int);
            lemma_mul_bound(num as int, q0 as int, TIME_LIMIT as int, COEFF_LIMIT as int);
        }
        if p0 < 0 || p0 * den >= num * q0 {
            return false;
        }
        proof {
            lemma_mul_bound(self.a as int, p0 as int, COEFF_LIMIT as int, COEFF_LIMIT as int);
            lemma_mul_bound(self.a * p0, p0 as int, COEFF_LIMIT * COEFF_LIMIT, COEFF_LIMIT as int);
            lemma_mul_bound(self.b as int, p0 as int, MIDDLE_LIMIT as int, COEFF_LIMIT as int);
            lemma_mul_bound(self.b * p0, q0 as int, MIDDLE_LIMIT * COEFF_LIMIT, COEFF_LIMIT as int);
            lemma_mul_bound(self.c as int, q0 as int, COEFF_LIMIT as int, COEFF_LIMIT as int);
            lemma_mul_bound(self.c * q0, q0 as int, COEFF_LIMIT * COEFF_LIMIT, COEFF_LIMIT as int);
        }
        let f = self.a * p0 * p0 + self.b * p0 * q0 + self.c * q0 * q0;
        proof {
            assert(f == form(self.a as int, self.b as int, self.c as int, p0 as int, q0 as int));
            assert(time_before(p0 as int, q0 as int, num as int, den as int));
            assert(self.holds_at(p0 as int, q0 as int) == (f <= 0));
        }
        f <= 0
    }

    /// Decides `met_before`.
    pub fn is_met_before(&self, num: i128, den: i128) -> (r: bool)
        requires
            self.bounded(),
            0 <= num <= TIME_LIMIT,
            1 <= den <= TIME_LIMIT,
        ensures
            r == self.met_before(num as int, den as int),
    {
        if num == 0 {
            proof {
                assert forall|p: int, q: int| time_before(p, q, num as int, den as int) implies !(
                #[trigger] self.holds_at(p, q)) by {
                    assert(p * den >= 0) by (nonlinear_arith)
                        requires
                            p >= 0,
                            den >= 1,
                    ;
                }
            }
            false
        } else if self.line1 != 0 {
            self.is_met_at_crossing(num, den)
        } else if self.line0 != 0 {
            proof {
                assert forall|p: int, q: int| time_before(p, q, num as int, den as int) implies !(
                #[trigger] self.holds_at(p, q)) by {
                    assert(self.line0 * q != 0) by (nonlinear_arith)
                        requires
                            self.line0 != 0,
                            q > 0,
                    ;
                    assert(self.line1 * p == 0) by (nonlinear_arith)
                        requires
                            self.line1 == 0,
                    ;
                }
            }
            false
        } else {
            let r = decide_nonpositive_before(self.a, self.b, self.c, num, den);
            proof {
                assert forall|p: int, q: int| #[trigger]
                    self.holds_at(p, q) == (form(
                        self.a as int,
                        self.b as int,
                        self.c as int,
                        p,
                        q,
                    ) <= 0) by {
                    assert(self.line0 * q + self.line1 * p == 0) by (nonlinear_arith)
                        requires
                            self.line0 == 0,
                            self.line1 == 0,
                    ;
                }
                if r {
                    let (p, q) = choose|p: int, q: int|
                        time_before(p, q, num as int, den as int) && #[trigger] form(
                            self.a as int,
                            self.b as int,
                            self.c as int,
                            p,
                            q,
                        ) <= 0;
                    assert(self.holds_at(p, q));
                }
            }
            r
        }
    }
}

impl Constraint {
    /// The first of `den` equal steps of time in which the constraint is met:
    /// it is not met before `t / den`, and is met before `(t + 1) / den`.
    /// `None` where it is not met before time 1.
    pub fn first_step(&self, den: i128) -> (r: Option<i128>)
        requires
            self.bounded(),
            1 <= den <= TIME_LIMIT,
        ensures
            r is Some <==> self.met_before(den as int, den as int),
            r matches Some(t) ==> 0 <= t < den && !self.met_before(t as int, den as int)
                && self.met_before(t + 1, den as int),
    {
        if !self.is_met_before(den, den) {
            return None;
        }
        let mut lo: i128 = 0;
        let mut hi: i128 = den;
        proof {
            assert forall|p: int, q: int| time_before(p, q, 0, den as int) implies !(
            #[trigger] self.holds_at(p, q)) by {
                assert(p * den >= 0) by (nonlinear_arith)
                    requires
                        p >= 0,
                        den >= 1,
                ;
            }
        }
        while hi - lo > 1
            invariant
                self.bounded(),
                1 <= den <= TIME_LIMIT,
                0 <= lo < hi <= den,
                !self.met_before(lo as int, den as int),
                self.met_before(hi as int, den as int),
            decreases hi - lo,
        {
            let mid: i128 = lo + (hi - lo) / 2;
            if self.is_met_before(mid, den) {
                hi = mid;
            } else {
                lo = mid;
            }
        }
        Some(lo)
    }
}

} // verus!
