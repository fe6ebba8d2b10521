//! Three-component fixed-point vectors.
use crate::ray::DIR_LIMIT;
use crate::fixed::{div_floor, fmul, floor_sqrt, isqrt, lemma_floor_sqrt_dominates, ONE, SQRT_INPUT_LIMIT};
use vstd::arithmetic::div_mod::{lemma_div_is_ordered, lemma_div_multiples_vanish};
use rand::Rng;
use vstd::prelude::*;

verus! {

/// Components of a general vector stay within 2^40 in magnitude.
pub const LIMIT: i64 = 1099511627776;

/// A position, direction or color; each component is a fixed-point scalar.
#[derive(Clone, Copy, Debug, PartialEq, Eq, Structural)]
pub struct Vec3 {
    pub x: i64,
    pub y: i64,
    pub z: i64,
}

pub open spec fn abs_le(a: int, m: int) -> bool {
    -m <= a <= m
}

/// Every component lies in `[-m, m]`.
pub open spec fn bounded(v: Vec3, m: int) -> bool {
    abs_le(v.x as int, m) && abs_le(v.y as int, m) && abs_le(v.z as int, m)
}

/// The exact dot product, in units of `1 / ONE^2`.
pub open spec fn dot_raw(a: Vec3, b: Vec3) -> int {
    a.x * b.x + a.y * b.y + a.z * b.z
}

/// The fixed-point dot product, rounded down.
pub open spec fn dot_fixed(a: Vec3, b: Vec3) -> int {
    dot_raw(a, b) / (ONE as int)
}

pub open spec fn sum_of(a: Vec3, b: Vec3) -> Vec3 {
    Vec3 { x: (a.x + b.x) as i64, y: (a.y + b.y) as i64, z: (a.z + b.z) as i64 }
}

pub open spec fn difference_of(a: Vec3, b: Vec3) -> Vec3 {
    Vec3 { x: (a.x - b.x) as i64, y: (a.y - b.y) as i64, z: (a.z - b.z) as i64 }
}

pub open spec fn negation_of(a: Vec3) -> Vec3 {
    Vec3 { x: (-a.x) as i64, y: (-a.y) as i64, z: (-a.z) as i64 }
}

/// Each component multiplied by the fixed-point scalar `s`, rounded down.
pub open spec fn scaled_by(s: int, v: Vec3) -> Vec3 {
    Vec3 { x: fmul(s, v.x as int) as i64, y: fmul(s, v.y as int) as i64, z: fmul(s, v.z as int) as i64 }
}

/// Componentwise fixed-point product, rounded down.
pub open spec fn product_of(a: Vec3, b: Vec3) -> Vec3 {
    Vec3 {
        x: fmul(a.x as int, b.x as int) as i64,
        y: fmul(a.y as int, b.y as int) as i64,
        z: fmul(a.z as int, b.z as int) as i64,
    }
}

/// The vector scaled to unit length (each component rounded down); the zero
/// vector stays zero.
pub open spec fn unit_of(v: Vec3) -> Vec3 {
    let l = fine_length_of(v);
    if l == 0 {
        Vec3 { x: 0, y: 0, z: 0 }
    } else {
        Vec3 {
            x: ((v.x * ONE * ONE) / l) as i64,
            y: ((v.y * ONE * ONE) / l) as i64,
            z: ((v.z * ONE * ONE) / l) as i64,
        }
    }
}

/// The Euclidean length in units of `1 / ONE^2` (`ONE` times the
/// fixed-point length), rounded down: precise enough to scale even the
/// shortest vectors to unit length.
pub open spec fn fine_length_of(v: Vec3) -> int {
    floor_sqrt(dot_raw(v, v) * (ONE * ONE))
}

/// `v` mirrored about the plane with normal `n`: `v - 2 (v . n) n`.
pub open spec fn reflection_of(v: Vec3, n: Vec3) -> Vec3 {
    difference_of(v, scaled_by(2 * dot_fixed(v, n), n))
}

/// The cosine used by refraction: `min(-uv . n, 1)`.
pub open spec fn refraction_cos(uv: Vec3, n: Vec3) -> int {
    let c = dot_fixed(negation_of(uv), n);
    if c < ONE {
        c
    } else {
        ONE as int
    }
}

/// The component of a refracted ray perpendicular to `n`.
pub open spec fn refraction_perp(uv: Vec3, n: Vec3, ratio: int) -> Vec3 {
    scaled_by(ratio, sum_of(uv, scaled_by(refraction_cos(uv, n), n)))
}

/// The length of the refracted component along `n`: `sqrt(|1 - |perp|^2|)`.
pub open spec fn refraction_parallel_len(perp: Vec3) -> int {
    let d = ONE * ONE - dot_raw(perp, perp);
    floor_sqrt(if d < 0 { -d } else { d })
}

/// Snell's law: `uv` refracted through a surface with normal `n`, where `ratio`
/// is the quotient of the two refractive indices.
pub open spec fn refraction_of(uv: Vec3, n: Vec3, ratio: int) -> Vec3 {
    let perp = refraction_perp(uv, n, ratio);
    sum_of(perp, negation_of(scaled_by(refraction_parallel_len(perp), n)))
}

pub proof fn lemma_mul_abs_bound(a: int, b: int, ma: int, mb: int)
    requires
        abs_le(a, ma),
        abs_le(b, mb),
    ensures
        abs_le(a * b, ma * mb),
{
    assert(abs_le(a * b, ma * mb)) by (nonlinear_arith)
        requires
            abs_le(a, ma),
            abs_le(b, mb),
    ;
}

/// A quotient by a positive divisor of a value in `[-m d, m d]` lies in `[-m, m]`.
pub proof fn lemma_div_abs_bound(x: int, m: int, d: int)
    requires
        0 < d,
        0 <= m,
        abs_le(x, m * d),
    ensures
        abs_le(x / d, m),
{
    lemma_div_is_ordered(x, m * d, d);
    lemma_div_is_ordered(-(m * d), x, d);
    assert((m * d) / d == m) by {
        lemma_div_multiples_vanish(m, d);
        assert(m * d == d * m) by (nonlinear_arith);
    }
    assert((-(m * d)) / d == -m) by {
        lemma_div_multiples_vanish(-m, d);
        assert(-(m * d) == d * -m) by (nonlinear_arith);
    }
}

/// A fixed-point product of bounded values is bounded.
pub proof fn lemma_fmul_bound(a: int, b: int, ma: int, mb: int, m: int)
    requires
        abs_le(a, ma),
        abs_le(b, mb),
        0 <= m,
        ma * mb <= m * ONE,
    ensures
        abs_le(fmul(a, b), m),
{
    lemma_mul_abs_bound(a, b, ma, mb);
    lemma_div_abs_bound(a * b, m, ONE as int);
}

pub proof fn lemma_dot_bound(a: Vec3, b: Vec3, ma: int, mb: int)
    requires
        bounded(a, ma),
        bounded(b, mb),
    ensures
        abs_le(dot_raw(a, b), 3 * (ma * mb)),
{
    lemma_mul_abs_bound(a.x as int, b.x as int, ma, mb);
    lemma_mul_abs_bound(a.y as int, b.y as int, ma, mb);
    lemma_mul_abs_bound(a.z as int, b.z as int, ma, mb);
}

/// Each component, scaled by `ONE`, is bounded by the fine length; a non-zero
/// vector has a fine length of at least `ONE`.
pub proof fn lemma_fine_length_dominates(v: Vec3)
    ensures
        abs_le(v.x * ONE, fine_length_of(v)),
        abs_le(v.y * ONE, fine_length_of(v)),
        abs_le(v.z * ONE, fine_length_of(v)),
        0 <= fine_length_of(v),
        dot_raw(v, v) == 0 <==> v == (Vec3 { x: 0, y: 0, z: 0 }),
        v != (Vec3 { x: 0, y: 0, z: 0 }) ==> ONE <= fine_length_of(v),
{
    let n = dot_raw(v, v);
    let nn = n * (ONE * ONE);
    assert(v.x * v.x <= n && v.y * v.y <= n && v.z * v.z <= n) by (nonlinear_arith)
        requires
            n == v.x * v.x + v.y * v.y + v.z * v.z,
    ;
    assert(n == 0 <==> (v.x == 0 && v.y == 0 && v.z == 0)) by (nonlinear_arith)
        requires
            n == v.x * v.x + v.y * v.y + v.z * v.z,
    ;
    lemma_component_dominated(v.x as int, n);
    lemma_component_dominated(v.y as int, n);
    lemma_component_dominated(v.z as int, n);
    if n != 0 {
        assert(ONE * ONE <= nn) by (nonlinear_arith)
            requires
                n >= 1,
                nn == n * (ONE * ONE),
        ;
        lemma_floor_sqrt_dominates(nn, ONE as int);
    } else {
        lemma_floor_sqrt_dominates(nn, 0);
    }
}

proof fn lemma_component_dominated(x: int, n: int)
    requires
        x * x <= n,
    ensures
        abs_le(x * ONE, floor_sqrt(n * (ONE * ONE))),
{
    let ax: int = if x < 0 { -x * ONE } else { x * ONE };
    assert(ax * ax <= n * (ONE * ONE) && ax >= 0) by (nonlinear_arith)
        requires
            ax == x * ONE || ax == -x * ONE,
            ax == (if x < 0 { -x * ONE } else { x * ONE }),
            x * x <= n,
    ;
    lemma_floor_sqrt_dominates(n * (ONE * ONE), ax);
}

/// A unit vector has components in `[-ONE, ONE]`.
pub proof fn lemma_unit_bounded(v: Vec3)
    ensures
        bounded(unit_of(v), ONE as int),
{
    lemma_fine_length_dominates(v);
    let l = fine_length_of(v);
    if l != 0 {
        lemma_mul_abs_bound(v.x * ONE, ONE as int, l, ONE as int);
        lemma_mul_abs_bound(v.y * ONE, ONE as int, l, ONE as int);
        lemma_mul_abs_bound(v.z * ONE, ONE as int, l, ONE as int);
        assert(l * ONE == ONE * l) by (nonlinear_arith);
        assert(v.x * ONE * ONE == (v.x * ONE) * ONE) by (nonlinear_arith);
        assert(v.y * ONE * ONE == (v.y * ONE) * ONE) by (nonlinear_arith);
        assert(v.z * ONE * ONE == (v.z * ONE) * ONE) by (nonlinear_arith);
        lemma_div_abs_bound(v.x * ONE * ONE, ONE as int, l);
        lemma_div_abs_bound(v.y * ONE * ONE, ONE as int, l);
        lemma_div_abs_bound(v.z * ONE * ONE, ONE as int, l);
    }
}

/// One component of `unit_of`: `r = a / l` rounded down, where `|a| < (l + 1) ONE`
/// and `l >= ONE`, squared and scaled by `l^2`, lies within `2 l (l + 1) ONE + l^2`
/// above and `2 l (l + 1) ONE` below `a^2`.
proof fn lemma_rounded_component(a: int, l: int)
    requires
        ONE <= l,
        abs_le(a, (l + 1) * ONE - 1),
    ensures
        (a / l) * (a / l) * (l * l) <= a * a + 2 * (l * ((l + 1) * ONE)) + l * l,
        (a / l) * (a / l) * (l * l) >= a * a - 2 * (l * ((l + 1) * ONE)),
{
    let r = a / l;
    let m = a % l;
    vstd::arithmetic::div_mod::lemma_fundamental_div_mod(a, l);
    vstd::arithmetic::div_mod::lemma_mod_bound(a, l);
    assert(a == l * r + m && 0 <= m < l);
    let rl = r * l;
    assert(rl == l * r) by (nonlinear_arith)
        requires
            rl == r * l,
    ;
    assert(rl * rl == r * r * (l * l)) by (nonlinear_arith)
        requires
            rl == r * l,
    ;
    let b: int = if a < 0 { -a } else { a };
    assert(b * b == a * a) by (nonlinear_arith)
        requires
            b == a || b == -a,
    ;
    assert(b * l <= l * ((l + 1) * ONE)) by (nonlinear_arith)
        requires
            0 <= b <= (l + 1) * ONE,
            l >= 0,
    ;
    if a >= 0 {
        // a - l < rl <= a
        lemma_div_is_ordered(0, a, l);
        vstd::arithmetic::div_mod::lemma_div_by_multiple(0, l);
        assert(rl >= 0) by (nonlinear_arith)
            requires
                rl == r * l,
                r >= 0,
                l >= 0,
        ;
        assert(rl * rl <= a * a) by (nonlinear_arith)
            requires
                0 <= rl,
                0 <= a,
                a - l < rl,
                rl <= a,
                0 < l,
        ;
        if a >= l {
            assert(rl * rl >= (a - l) * (a - l)) by (nonlinear_arith)
                requires
                    a - l < rl,
                    a - l >= 0,
            ;
            assert((a - l) * (a - l) >= a * a - 2 * (a * l)) by (nonlinear_arith);
        } else {
            assert(rl * rl >= 0) by (nonlinear_arith);
            assert(a * a - 2 * (a * l) <= 0) by (nonlinear_arith)
                requires
                    0 <= a < l,
            ;
        }
        assert(a * l == b * l);
    } else {
        // rl <= a < 0 and rl > a - l
        assert(rl * rl >= a * a) by (nonlinear_arith)
            requires
                rl <= a,
                a < 0,
        ;
        assert(rl * rl <= (a - l) * (a - l)) by (nonlinear_arith)
            requires
                a - l < rl,
                rl <= a,
                a < 0,
        ;
        assert((a - l) * (a - l) == a * a + 2 * (b * l) + l * l) by (nonlinear_arith)
            requires
                b == -a,
        ;
        assert(b * l >= 0) by (nonlinear_arith)
            requires
                b >= 0,
                l >= 0,
        ;
    }
}

/// A non-zero vector scaled by `unit_of` has length within 5 units of `ONE`:
/// its squared length lies strictly between `ONE^2 - 7 ONE` and `ONE^2 + 10 ONE`.
pub proof fn lemma_unit_length(v: Vec3)
    requires
        v != (Vec3 { x: 0, y: 0, z: 0 }),
    ensures
        ONE * ONE - 7 * ONE < dot_raw(unit_of(v), unit_of(v)) < ONE * ONE + 10 * ONE,
{
    lemma_fine_length_dominates(v);
    lemma_unit_bounded(v);
    let n = dot_raw(v, v);
    let nn = n * (ONE * ONE);
    let l = fine_length_of(v);
    crate::fixed::lemma_isqrt_spec(nn);
    assert(l * l <= nn && nn < (l + 1) * (l + 1));
    let (ax, ay, az) = (v.x * ONE * ONE, v.y * ONE * ONE, v.z * ONE * ONE);
    assert(ax * ax + ay * ay + az * az == nn * (ONE * ONE)) by (nonlinear_arith)
        requires
            ax == v.x * ONE * ONE,
            ay == v.y * ONE * ONE,
            az == v.z * ONE * ONE,
            nn == (v.x * v.x + v.y * v.y + v.z * v.z) * (ONE * ONE),
    ;
    lemma_scaled_component(v.x as int, l);
    lemma_scaled_component(v.y as int, l);
    lemma_scaled_component(v.z as int, l);
    lemma_rounded_component(ax, l);
    lemma_rounded_component(ay, l);
    lemma_rounded_component(az, l);
    let (rx, ry, rz) = (ax / l, ay / l, az / l);
    lemma_div_abs_bound(ax, ONE as int, l);
    lemma_div_abs_bound(ay, ONE as int, l);
    lemma_div_abs_bound(az, ONE as int, l);
    let u = unit_of(v);
    assert(u.x == rx && u.y == ry && u.z == rz);
    let sum = rx * rx + ry * ry + rz * rz;
    assert(dot_raw(u, u) == sum);
    let e = l * ((l + 1) * ONE);
    assert(sum * (l * l) <= nn * (ONE * ONE) + 6 * e + 3 * (l * l)) by (nonlinear_arith)
        requires
            rx * rx * (l * l) <= ax * ax + 2 * e + l * l,
            ry * ry * (l * l) <= ay * ay + 2 * e + l * l,
            rz * rz * (l * l) <= az * az + 2 * e + l * l,
            ax * ax + ay * ay + az * az == nn * (ONE * ONE),
            sum == rx * rx + ry * ry + rz * rz,
    ;
    assert(sum * (l * l) >= nn * (ONE * ONE) - 6 * e) by (nonlinear_arith)
        requires
            rx * rx * (l * l) >= ax * ax - 2 * e,
            ry * ry * (l * l) >= ay * ay - 2 * e,
            rz * rz * (l * l) >= az * az - 2 * e,
            ax * ax + ay * ay + az * az == nn * (ONE * ONE),
            sum == rx * rx + ry * ry + rz * rz,
    ;
    assert(sum < ONE * ONE + 10 * ONE) by (nonlinear_arith)
        requires
            sum * (l * l) <= nn * (ONE * ONE) + 6 * e + 3 * (l * l),
            nn < (l + 1) * (l + 1),
            e == l * ((l + 1) * ONE),
            ONE <= l,
    ;
    assert(sum > ONE * ONE - 7 * ONE) by (nonlinear_arith)
        requires
            sum * (l * l) >= nn * (ONE * ONE) - 6 * e,
            l * l <= nn,
            e == l * ((l + 1) * ONE),
            ONE <= l,
    ;
}

proof fn lemma_scaled_component(x: int, l: int)
    requires
        abs_le(x * ONE, l),
    ensures
        abs_le(x * ONE * ONE, (l + 1) * ONE - 1),
        abs_le(x * ONE * ONE, ONE * l),
{
    assert(abs_le(x * ONE * ONE, l * ONE)) by (nonlinear_arith)
        requires
            abs_le(x * ONE, l),
    ;
    assert(l * ONE == ONE * l) by (nonlinear_arith);
}

/// The vector with all three components equal to `x`.
pub fn vec3(x: i64) -> (r: Vec3)
    ensures
        r == (Vec3 { x: x, y: x, z: x }),
{
    Vec3 { x, y: x, z: x }
}

impl Vec3 {
    pub fn new(x: i64, y: i64, z: i64) -> (r: Vec3)
        ensures
            r == (Vec3 { x: x, y: y, z: z }),
    {
        Vec3 { x, y, z }
    }

    pub fn plus(&self, o: &Vec3) -> (r: Vec3)
        requires
            bounded(*self, LIMIT as int),
            bounded(*o, LIMIT as int),
        ensures
            r == sum_of(*self, *o),
    {
        Vec3 { x: self.x + o.x, y: self.y + o.y, z: self.z + o.z }
    }

    pub fn minus(&self, o: &Vec3) -> (r: Vec3)
        requires
            bounded(*self, LIMIT as int),
            bounded(*o, LIMIT as int),
        ensures
            r == difference_of(*self, *o),
    {
        Vec3 { x: self.x - o.x, y: self.y - o.y, z: self.z - o.z }
    }

    pub fn negated(&self) -> (r: Vec3)
        requires
            bounded(*self, LIMIT as int),
        ensures
            r == negation_of(*self),
    {
        Vec3 { x: -self.x, y: -self.y, z: -self.z }
    }

    /// Multiplies each component by the fixed-point scalar `s`.
    pub fn scaled(&self, s: i64) -> (r: Vec3)
        requires
            abs_le(s as int, LIMIT as int),
            bounded(*self, LIMIT as int),
            abs_le(s * self.x, LIMIT * ONE),
            abs_le(s * self.y, LIMIT * ONE),
            abs_le(s * self.z, LIMIT * ONE),
        ensures
            r == scaled_by(s as int, *self),
            bounded(r, LIMIT as int),
    {
        proof {
            lemma_div_abs_bound(s * self.x, LIMIT as int, ONE as int);
            lemma_div_abs_bound(s * self.y, LIMIT as int, ONE as int);
            lemma_div_abs_bound(s * self.z, LIMIT as int, ONE as int);
        }
        Vec3 { x: fixed_mul(s, self.x), y: fixed_mul(s, self.y), z: fixed_mul(s, self.z) }
    }

    /// Componentwise fixed-point product.
    pub fn times(&self, o: &Vec3) -> (r: Vec3)
        requires
            bounded(*self, LIMIT as int),
            abs_le(self.x * o.x, LIMIT * ONE),
            abs_le(self.y * o.y, LIMIT * ONE),
            abs_le(self.z * o.z, LIMIT * ONE),
        ensures
            r == product_of(*self, *o),
    {
        proof {
            lemma_div_abs_bound(self.x * o.x, LIMIT as int, ONE as int);
            lemma_div_abs_bound(self.y * o.y, LIMIT as int, ONE as int);
            lemma_div_abs_bound(self.z * o.z, LIMIT as int, ONE as int);
        }
        Vec3 { x: fixed_mul(self.x, o.x), y: fixed_mul(self.y, o.y), z: fixed_mul(self.z, o.z) }
    }

    /// The squared length in units of `1 / ONE^2`.
    pub fn length_squared(&self) -> (r: i128)
        requires
            bounded(*self, LIMIT as int),
        ensures
            r == dot_raw(*self, *self),
    {
        dot_wide(self, self)
    }

    /// The vector scaled to unit length; the zero vector stays zero.
    pub fn normalize(&self) -> (r: Vec3)
        requires
            bounded(*self, LIMIT as int),
        ensures
            r == unit_of(*self),
            bounded(r, ONE as int),
            *self != (Vec3 { x: 0, y: 0, z: 0 }) ==> ONE * ONE - 7 * ONE < dot_raw(r, r) < ONE * ONE
                + 10 * ONE,
    {
        proof {
            if *self != (Vec3 { x: 0, y: 0, z: 0 }) {
                lemma_unit_length(*self);
            }
        }
        let n = dot_wide(self, self);
        proof {
            lemma_dot_bound(*self, *self, LIMIT as int, LIMIT as int);
            lemma_unit_bounded(*self);
            assert(0 <= n) by (nonlinear_arith)
                requires
                    n == self.x * self.x + self.y * self.y + self.z * self.z,
            ;
            assert(n * (ONE * ONE) < SQRT_INPUT_LIMIT) by (nonlinear_arith)
                requires
                    0 <= n <= 3 * (LIMIT * LIMIT),
            ;
            lemma_mul_abs_bound(self.x as int, ONE * ONE, LIMIT as int, ONE * ONE);
            lemma_mul_abs_bound(self.y as int, ONE * ONE, LIMIT as int, ONE * ONE);
            lemma_mul_abs_bound(self.z as int, ONE * ONE, LIMIT as int, ONE * ONE);
        }
        let l = isqrt(n * (ONE as i128 * ONE as i128));
        if l == 0 {
            return Vec3 { x: 0, y: 0, z: 0 };
        }
        let sq: i128 = ONE as i128 * ONE as i128;
        let x = div_floor(self.x as i128 * sq, l);
        let y = div_floor(self.y as i128 * sq, l);
        let z = div_floor(self.z as i128 * sq, l);
        Vec3 { x: x as i64, y: y as i64, z: z as i64 }
    }

    /// No component differs from zero.
    pub fn near_zero(&self) -> (r: bool)
        ensures
            r == (self.x == 0 && self.y == 0 && self.z == 0),
    {
        self.x == 0 && self.y == 0 && self.z == 0
    }
}

/// Fixed-point product of two scalars, rounded down.
pub fn fixed_mul(a: i64, b: i64) -> (r: i64)
    requires
        abs_le(a as int, LIMIT as int) || abs_le(b as int, LIMIT as int),
        abs_le(a * b, LIMIT * ONE),
    ensures
        r == fmul(a as int, b as int),
{
    proof {
        lemma_div_abs_bound(a * b, LIMIT as int, ONE as int);
    }
    div_floor(a as i128 * b as i128, ONE as i128) as i64
}

/// The exact dot product, in units of `1 / ONE^2`.
pub fn dot_wide(a: &Vec3, b: &Vec3) -> (r: i128)
    requires
        bounded(*a, LIMIT as int),
        bounded(*b, LIMIT as int),
    ensures
        r == dot_raw(*a, *b),
{
    proof {
        lemma_mul_abs_bound(a.x as int, b.x as int, LIMIT as int, LIMIT as int);
        lemma_mul_abs_bound(a.y as int, b.y as int, LIMIT as int, LIMIT as int);
        lemma_mul_abs_bound(a.z as int, b.z as int, LIMIT as int, LIMIT as int);
    }
    a.x as i128 * b.x as i128 + a.y as i128 * b.y as i128 + a.z as i128 * b.z as i128
}

/// The fixed-point dot product, rounded down.
pub fn dot(a: &Vec3, b: &Vec3) -> (r: i64)
    requires
        bounded(*a, LIMIT as int),
        bounded(*b, LIMIT as int),
        abs_le(dot_raw(*a, *b), LIMIT * ONE),
    ensures
        r == dot_fixed(*a, *b),
{
    let d = dot_wide(a, b);
    proof {
        lemma_div_abs_bound(dot_raw(*a, *b), LIMIT as int, ONE as int);
    }
    div_floor(d, ONE as i128) as i64
}

/// Negating the first argument negates the dot product.
pub proof fn lemma_dot_negated(a: Vec3, b: Vec3)
    requires
        bounded(a, LIMIT as int),
    ensures
        dot_raw(negation_of(a), b) == -dot_raw(a, b),
{
    let na = negation_of(a);
    assert(na.x * b.x + na.y * b.y + na.z * b.z == -(a.x * b.x + a.y * b.y + a.z * b.z))
        by (nonlinear_arith)
        requires
            na.x == -a.x,
            na.y == -a.y,
            na.z == -a.z,
    ;
}

/// A scaled bounded vector is bounded.
pub proof fn lemma_scaled_bound(s: int, v: Vec3, ms: int, mv: int, m: int)
    requires
        abs_le(s, ms),
        bounded(v, mv),
        0 <= m,
        ms * mv <= m * ONE,
    ensures
        bounded(scaled_by(s, v), m),
{
    lemma_fmul_bound(s, v.x as int, ms, mv, m);
    lemma_fmul_bound(s, v.y as int, ms, mv, m);
    lemma_fmul_bound(s, v.z as int, ms, mv, m);
}

/// `v - 2 (v . n) n`: `v` mirrored about the plane with normal `n`. The
/// normal has components in `[-ONE, ONE]`; `v` may be as long as a ray
/// direction.
pub fn reflect(v: Vec3, n: Vec3) -> (r: Vec3)
    requires
        bounded(v, DIR_LIMIT as int),
        bounded(n, ONE as int),
    ensures
        r == reflection_of(v, n),
        bounded(r, 8 * DIR_LIMIT),
{
    proof {
        lemma_dot_bound(v, n, DIR_LIMIT as int, ONE as int);
        lemma_div_abs_bound(dot_raw(v, n), 3 * DIR_LIMIT, ONE as int);
    }
    let d = dot(&v, &n);
    proof {
        lemma_mul_abs_bound(2 * d, n.x as int, 6 * DIR_LIMIT, ONE as int);
        lemma_mul_abs_bound(2 * d, n.y as int, 6 * DIR_LIMIT, ONE as int);
        lemma_mul_abs_bound(2 * d, n.z as int, 6 * DIR_LIMIT, ONE as int);
        lemma_scaled_bound(2 * d, n, 6 * DIR_LIMIT, ONE as int, 6 * DIR_LIMIT);
    }
    let s = n.scaled(2 * d);
    v.minus(&s)
}

/// Refracts the unit vector `uv` through a surface with unit normal `n` (both
/// with components in `[-ONE, ONE]`), where
/// `etai_over_etat` is the quotient of the refractive indices (incident over
/// transmitted).
pub fn refract(uv: Vec3, n: Vec3, etai_over_etat: i64) -> (r: Vec3)
    requires
        bounded(uv, ONE as int),
        bounded(n, ONE as int),
        0 < etai_over_etat <= 64 * ONE,
    ensures
        r == refraction_of(uv, n, etai_over_etat as int),
        bounded(r, 67108864),
{
    let neg = uv.negated();
    proof {
        lemma_dot_bound(neg, n, ONE as int, ONE as int);
        lemma_div_abs_bound(dot_raw(neg, n), 3 * ONE, ONE as int);
    }
    let c = dot(&neg, &n);
    let cos: i64 = if c < ONE { c } else { ONE };
    proof {
        lemma_mul_abs_bound(cos as int, n.x as int, 3 * ONE, ONE as int);
        lemma_mul_abs_bound(cos as int, n.y as int, 3 * ONE, ONE as int);
        lemma_mul_abs_bound(cos as int, n.z as int, 3 * ONE, ONE as int);
        lemma_scaled_bound(cos as int, n, 3 * ONE, ONE as int, 3 * ONE);
    }
    let along = n.scaled(cos);
    let t = uv.plus(&along);
    assert(bounded(t, 4 * ONE));
    proof {
        let ratio = etai_over_etat as int;
        lemma_mul_abs_bound(ratio, t.x as int, 64 * ONE, 4 * ONE);
        lemma_mul_abs_bound(ratio, t.y as int, 64 * ONE, 4 * ONE);
        lemma_mul_abs_bound(ratio, t.z as int, 64 * ONE, 4 * ONE);
        lemma_scaled_bound(ratio, t, 64 * ONE, 4 * ONE, 256 * ONE);
    }
    let perp = t.scaled(etai_over_etat);
    proof {
        lemma_dot_bound(perp, perp, 256 * ONE, 256 * ONE);
    }
    let pp = dot_wide(&perp, &perp);
    let d: i128 = ONE as i128 * ONE as i128 - pp;
    let ad: i128 = if d < 0 { -d } else { d };
    let s = isqrt(ad);
    proof {
        if s > 33554432 {
            assert(s * s > 33554432 * 33554432) by (nonlinear_arith)
                requires
                    s > 33554432,
            ;
        }
        lemma_mul_abs_bound(s as int, n.x as int, 33554432, ONE as int);
        lemma_mul_abs_bound(s as int, n.y as int, 33554432, ONE as int);
        lemma_mul_abs_bound(s as int, n.z as int, 33554432, ONE as int);
        lemma_scaled_bound(s as int, n, 33554432, ONE as int, 33554432);
    }
    let par = n.scaled(s as i64).negated();
    perp.plus(&par)
}

/// Relies on `rand::Rng::gen_range` over the thread-local generator: a value
/// drawn from `[lo, hi)`.
#[verifier::external_body]
pub(crate) fn random_range(lo: i64, hi: i64) -> (r: i64)
    requires
        lo < hi,
    ensures
        lo <= r < hi,
{
    rand::thread_rng().gen_range(lo..hi)
}

/// A vector with each component drawn from `[0, ONE)`.
pub fn random_vec3() -> (r: Vec3)
    ensures
        0 <= r.x < ONE && 0 <= r.y < ONE && 0 <= r.z < ONE,
{
    random_vec3_range(0, ONE)
}

/// A vector with each component drawn from `[min, max)`.
pub fn random_vec3_range(min: i64, max: i64) -> (r: Vec3)
    requires
        min < max,
    ensures
        min <= r.x < max && min <= r.y < max && min <= r.z < max,
{
    let x = random_range(min, max);
    let y = random_range(min, max);
    let z = random_range(min, max);
    Vec3 { x, y, z }
}

/// Rejection sampling gives up after this many draws (the chance of that is
/// below 10^-20) and returns the point (1/2, 0, 0).
pub const SPHERE_SAMPLE_ATTEMPTS: u32 = 64;

/// `u` is a direction drawn from the unit sphere: a non-zero point of the
/// open unit ball scaled to unit length.
pub open spec fn is_unit_draw(u: Vec3) -> bool {
    exists|p: Vec3| 0 < dot_raw(p, p) < ONE * ONE && u == #[trigger] unit_of(p)
}

/// A drawn unit vector has components in `[-ONE, ONE]` and length within 5
/// units of `ONE`.
pub proof fn lemma_unit_draw_bounded(u: Vec3)
    requires
        is_unit_draw(u),
    ensures
        bounded(u, ONE as int),
        ONE * ONE - 7 * ONE < dot_raw(u, u) < ONE * ONE + 10 * ONE,
{
    let p = choose|p: Vec3| 0 < dot_raw(p, p) < ONE * ONE && u == #[trigger] unit_of(p);
    lemma_unit_bounded(p);
    lemma_fine_length_dominates(p);
    lemma_unit_length(p);
}

/// `p` lies in the open unit ball and is not the center.
pub open spec fn in_unit_ball(p: Vec3) -> bool {
    0 < dot_raw(p, p) < ONE * ONE
}

/// Every component lies in `[-ONE, ONE)`: a draw from the cube `[-1, 1)^3`.
pub open spec fn in_cube(p: Vec3) -> bool {
    -ONE <= p.x < ONE && -ONE <= p.y < ONE && -ONE <= p.z < ONE
}

/// The first of `draws` that lies in the unit ball, if any.
pub open spec fn first_in_ball_spec(draws: Seq<Vec3>) -> Option<Vec3>
    decreases draws.len(),
{
    if draws.len() == 0 {
        None
    } else if in_unit_ball(draws[0]) {
        Some(draws[0])
    } else {
        first_in_ball_spec(draws.drop_first())
    }
}

/// The point that rejection sampling returns for the draws `draws`: the first
/// one in the ball, or `(1/2, 0, 0)` where none is.
pub open spec fn sphere_sample_of(draws: Seq<Vec3>) -> Vec3 {
    match first_in_ball_spec(draws) {
        Some(p) => p,
        None => Vec3 { x: 32768, y: 0, z: 0 },
    }
}

/// Appending a draw changes the first point in the ball only where there was none.
pub proof fn lemma_first_in_ball_push(draws: Seq<Vec3>, p: Vec3)
    ensures
        first_in_ball_spec(draws.push(p)) == (match first_in_ball_spec(draws) {
            Some(q) => Some(q),
            None => if in_unit_ball(p) {
                Some(p)
            } else {
                None
            },
        }),
    decreases draws.len(),
{
    let pushed = draws.push(p);
    assert(pushed[0] == if draws.len() > 0 { draws[0] } else { p });
    if draws.len() > 0 {
        assert(pushed.drop_first() =~= draws.drop_first().push(p));
        lemma_first_in_ball_push(draws.drop_first(), p);
    } else {
        assert(pushed.drop_first() =~= Seq::<Vec3>::empty());
        assert(first_in_ball_spec(Seq::<Vec3>::empty()) is None);
    }
}

/// The first of `draws` that lies in the unit ball, if any.
pub fn first_in_ball(draws: &Vec<Vec3>) -> (r: Option<Vec3>)
    requires
        forall|k: int| 0 <= k < draws.len() ==> bounded(#[trigger] draws@[k], LIMIT as int),
    ensures
        r == first_in_ball_spec(draws@),
{
    let mut i: usize = 0;
    assert(draws@.subrange(0, draws.len() as int) =~= draws@);
    while i < draws.len()
        invariant
            0 <= i <= draws.len(),
            forall|k: int| 0 <= k < draws.len() ==> bounded(#[trigger] draws@[k], LIMIT as int),
            first_in_ball_spec(draws@) == first_in_ball_spec(draws@.subrange(i as int, draws.len() as int)),
        decreases draws.len() - i,
    {
        let p = draws[i];
        let l = p.length_squared();
        let ghost rest = draws@.subrange(i as int, draws.len() as int);
        assert(rest[0] == p);
        if 0 < l && l < ONE as i128 * ONE as i128 {
            return Some(p);
        }
        assert(rest.drop_first() =~= draws@.subrange(i + 1, draws.len() as int));
        i = i + 1;
    }
    assert(draws@.subrange(i as int, draws.len() as int) =~= Seq::<Vec3>::empty());
    None
}

/// A non-zero point drawn from the open unit ball by rejection sampling from
/// the cube `[-1, 1)^3`: the first draw whose squared length lies strictly
/// between 0 and 1. The center itself is rejected, so that the point has a
/// direction. After `SPHERE_SAMPLE_ATTEMPTS` rejected draws it returns
/// `(1/2, 0, 0)`.
pub fn random_in_unit_sphere() -> (r: Vec3)
    ensures
        exists|draws: Seq<Vec3>|
            draws.len() <= SPHERE_SAMPLE_ATTEMPTS && (forall|k: int| 0 <= k < draws.len() ==> in_cube(#[trigger] draws[k]))
                && r == sphere_sample_of(draws),
        in_unit_ball(r),
        bounded(r, ONE as int),
{
    let ghost mut drawn: Seq<Vec3> = Seq::empty();
    let mut attempt: u32 = 0;
    while attempt < SPHERE_SAMPLE_ATTEMPTS
        invariant
            drawn.len() == attempt,
            attempt <= SPHERE_SAMPLE_ATTEMPTS,
            forall|k: int| 0 <= k < drawn.len() ==> in_cube(#[trigger] drawn[k]),
            first_in_ball_spec(drawn) is None,
        decreases SPHERE_SAMPLE_ATTEMPTS - attempt,
    {
        let p = random_vec3_range(-ONE, ONE);
        let l = p.length_squared();
        let one_squared: i128 = 4294967296;
        proof {
            lemma_first_in_ball_push(drawn, p);
            let next = drawn.push(p);
            assert forall|k: int| 0 <= k < next.len() implies in_cube(#[trigger] next[k]) by {
                if k < drawn.len() {
                    assert(next[k] == drawn[k]);
                }
            }
            drawn = next;
        }
        if 0 < l && l < one_squared {
            assert(sphere_sample_of(drawn) == p);
            return p;
        }
        attempt = attempt + 1;
    }
    let half = Vec3 { x: 32768, y: 0, z: 0 };
    assert(dot_raw(half, half) == 1073741824);
    assert(sphere_sample_of(drawn) == half);
    half
}

/// A direction drawn from the unit sphere: a point of the unit ball scaled to
/// unit length.
pub fn random_unit_vector() -> (r: Vec3)
    ensures
        is_unit_draw(r),
        bounded(r, ONE as int),
        ONE * ONE - 7 * ONE < dot_raw(r, r) < ONE * ONE + 10 * ONE,
{
    let p = random_in_unit_sphere();
    proof {
        assert(bounded(p, LIMIT as int));
        lemma_fine_length_dominates(p);
    }
    let r = p.normalize();
    assert(0 < dot_raw(p, p) < ONE * ONE && r == unit_of(p));
    r
}

/// A random unit direction on the hemisphere around `normal`: a drawn unit
/// vector, negated where it points away from `normal`.
pub fn random_on_hemisphere(normal: Vec3) -> (r: Vec3)
    requires
        bounded(normal, LIMIT as int),
    ensures
        exists|u: Vec3|
            #[trigger] is_unit_draw(u) && r == (if dot_raw(u, normal) > 0 {
                u
            } else {
                negation_of(u)
            }),
        bounded(r, ONE as int),
        ONE * ONE - 7 * ONE < dot_raw(r, r) < ONE * ONE + 10 * ONE,
        dot_raw(r, normal) >= 0,
{
    let on_unit_sphere = random_unit_vector();
    proof {
        let u = on_unit_sphere;
        let nu = negation_of(u);
        assert(dot_raw(nu, nu) == dot_raw(u, u)) by (nonlinear_arith)
            requires
                nu.x == -u.x,
                nu.y == -u.y,
                nu.z == -u.z,
        ;
    }
    if dot_wide(&on_unit_sphere, &normal) > 0 {
        on_unit_sphere
    } else {
        let r = on_unit_sphere.negated();
        proof {
            lemma_dot_negated(on_unit_sphere, normal);
        }
        r
    }
}

} // verus!
