//! Fixed-point math kernel: integer square root, Q8.8 multiply/divide,
//! and the 3-vector operations used by the renderer.
//!
//! Q8.8 fixed-point values are plain integers scaled by 256, so 256
//! stands for 1.0.

use vstd::prelude::*;
use vstd::arithmetic::div_mod::lemma_div_nonincreasing;
use vstd::arithmetic::div_mod::lemma_div_is_ordered;
use vstd::arithmetic::div_mod::lemma_div_is_ordered_by_denominator;
use vstd::arithmetic::div_mod::lemma_div_multiples_vanish;
use vstd::arithmetic::div_mod::lemma_div_pos_is_pos;
use vstd::arithmetic::div_mod::lemma_fundamental_div_mod;
use vstd::arithmetic::div_mod::lemma_mod_division_less_than_divisor;
use vstd::arithmetic::power2::pow2;
use vstd::arithmetic::power2::lemma_pow2_adds;
use vstd::arithmetic::power2::lemma_pow2_pos;
use vstd::arithmetic::power2::lemma_pow2_strictly_increases;
use vstd::arithmetic::power2::lemma2_to64;

verus! {

/// An integer 3-vector: a position or a direction. A "normalized"
/// direction has magnitude about 256 (1.0 in Q8.8).
#[derive(Clone, Copy, PartialEq, Eq, Structural, Debug)]
pub struct Vec3 {
    pub x: i32,
    pub y: i32,
    pub z: i32,
}

/// Absolute value of a mathematical integer.
pub open spec fn abs_val(a: int) -> int {
    if a >= 0 {
        a
    } else {
        -a
    }
}

/// Truncating integer division (rounds toward zero): the semantics of
/// Rust's `/` on signed integers. Spec-mode `/` on `int` is Euclidean,
/// which agrees with truncation on non-negative operands.
pub open spec fn tdiv(a: int, b: int) -> int {
    if (a >= 0) == (b >= 0) {
        abs_val(a) / abs_val(b)
    } else {
        -(abs_val(a) / abs_val(b))
    }
}

/// Floor of the real square root: the unique `r` with `r*r <= n < (r+1)*(r+1)`.
pub open spec fn isqrt_spec(n: nat) -> nat
    decreases n,
{
    if n == 0 {
        0
    } else {
        let r = isqrt_spec((n - 1) as nat);
        if (r + 1) * (r + 1) <= n {
            (r + 1) as nat
        } else {
            r
        }
    }
}

/// `isqrt_spec(n)` indeed brackets `n` between consecutive squares.
pub proof fn lemma_isqrt_bounds(n: nat)
    ensures
        isqrt_spec(n) * isqrt_spec(n) <= n,
        n < (isqrt_spec(n) + 1) * (isqrt_spec(n) + 1),
    decreases n,
{
    if n != 0 {
        let p = isqrt_spec((n - 1) as nat);
        lemma_isqrt_bounds((n - 1) as nat);
        if (p + 1) * (p + 1) <= n {
            assert(isqrt_spec(n) == p + 1);
            assert(n == (p + 1) * (p + 1));
            assert(isqrt_spec(n) * isqrt_spec(n) <= n && n < (isqrt_spec(n) + 1) * (isqrt_spec(
                n,
            ) + 1)) by (nonlinear_arith)
                requires
                    isqrt_spec(n) == p + 1,
                    n == (p + 1) * (p + 1),
                    p >= 0,
            ;
        } else {
            assert(isqrt_spec(n) == p);
            assert(isqrt_spec(n) * isqrt_spec(n) <= n && n < (isqrt_spec(n) + 1) * (isqrt_spec(
                n,
            ) + 1)) by (nonlinear_arith)
                requires
                    isqrt_spec(n) == p,
                    p * p + 1 <= n,
                    n < (p + 1) * (p + 1),
            ;
        }
    } else {
        assert(isqrt_spec(n) == 0);
        assert(isqrt_spec(n) * isqrt_spec(n) <= n && n < (isqrt_spec(n) + 1) * (isqrt_spec(n)
            + 1)) by (nonlinear_arith)
            requires
                isqrt_spec(n) == 0,
                n == 0,
        ;
    }
}

/// Any `r` bracketed between consecutive squares is the integer square root.
pub proof fn lemma_isqrt_unique(n: nat, r: nat)
    requires
        r * r <= n,
        n < (r + 1) * (r + 1),
    ensures
        r == isqrt_spec(n),
{
    let s = isqrt_spec(n);
    lemma_isqrt_bounds(n);
    if r < s {
        assert(false) by (nonlinear_arith)
            requires
                r + 1 <= s,
                r >= 0,
                s * s <= n,
                n < (r + 1) * (r + 1),
        ;
    }
    if s < r {
        assert(false) by (nonlinear_arith)
            requires
                s + 1 <= r,
                s >= 0,
                r * r <= n,
                n < (s + 1) * (s + 1),
        ;
    }
}

/// A Euclidean quotient by a positive divisor lies between the dividend
/// and zero (inclusive of the dividend, and of -1 on the negative side).
pub proof fn lemma_floor_div_range(p: int, d: int)
    requires
        d >= 1,
    ensures
        p >= 0 ==> 0 <= p / d <= p,
        p < 0 ==> p <= p / d <= -1,
{
    if p >= 0 {
        lemma_div_pos_is_pos(p, d);
        lemma_div_nonincreasing(p, d);
    } else {
        lemma_fundamental_div_mod(p, d);
        let q = p / d;
        let m = p % d;
        assert(q >= p && q <= -1) by (nonlinear_arith)
            requires
                p == d * q + m,
                0 <= m < d,
                d >= 1,
                p < 0,
        ;
    }
}

/// Integer square root of a 32-bit value, by the binary digit-by-digit
/// (non-restoring) method: a fixed pass over 16 bit pairs, no floating
/// point. Returns the largest `r` with `r * r <= n`; in particular 0 for 0.
pub fn sqrt(n: u32) -> (root: i32)
    ensures
        0 <= root <= 0xffff,
        root * root <= n,
        n < (root + 1) * (root + 1),
        root == isqrt_spec(n as nat),
{
    let mut f: u32 = 0;
    let mut p: u32 = 0x40000000;
    let mut r: u32 = n;

    // Ghost decomposition of the loop state: while `p != 0`, `p == s * s`
    // with `s == pow2(e)`, and `rt` is the part of the root recovered so
    // far, an even multiple `2 * j` of `s`.
    let ghost mut e: nat = 15nat;
    let ghost mut s: int = 0x8000;

    proof {
        lemma2_to64();
        assert(p == s * s) by (nonlinear_arith)
            requires
                s == 0x8000,
                p == 0x40000000,
        ;
    }

    while p > r
        invariant
            r == n,
            (p == 0 && n == 0) || (p == s * s && s == pow2(e) && e <= 15 && n < 4 * p),
        decreases p,
    {
        proof {
            lemma2_to64();
            if e == 0 {
                assert(s == 1);
                assert(p == 1) by (nonlinear_arith)
                    requires
                        p == s * s,
                        s == 1,
                ;
                assert(n == 0);
            } else {
                assert(pow2(e) == 2 * pow2((e - 1) as nat)) by {
                    lemma_pow2_adds(1, (e - 1) as nat);
                }
                lemma_pow2_pos((e - 1) as nat);
                let s2 = s / 2;
                assert(s == 2 * s2 && s2 >= 1);
                assert(s2 * s2 == (s * s) / 4 && 4 * ((s * s) / 4) == s * s && s2 * s2 >= 1)
                    by (nonlinear_arith)
                    requires
                        s == 2 * s2,
                        s2 >= 1,
                ;
                assert(n < 4 * (p / 4));
            }
        }
        p = p / 4;
        proof {
            if p != 0 {
                s = s / 2;
                e = (e - 1) as nat;
            }
        }
    }

    let ghost mut rt: int = 0;
    let ghost mut j: int = 0;

    proof {
        if p != 0 {
            assert(rt == 2 * j * s && f == 2 * rt * s && r == n - rt * rt && n < (rt + 2 * s) * (
            rt + 2 * s)) by (nonlinear_arith)
                requires
                    rt == 0,
                    j == 0,
                    f == 0,
                    r == n,
                    n < 4 * (s * s),
                    p == s * s,
            ;
        } else {
            assert(rt * rt <= n && n < (rt + 1) * (rt + 1)) by (nonlinear_arith)
                requires
                    rt == 0,
                    n == 0,
            ;
        }
    }

    while p != 0
        invariant
            p != 0 ==> {
                &&& p == s * s
                &&& s == pow2(e)
                &&& e <= 15
                &&& rt == 2 * j * s
                &&& j >= 0
                &&& rt >= 0
                &&& f == 2 * rt * s
                &&& r == n - rt * rt
                &&& n < (rt + 2 * s) * (rt + 2 * s)
            },
            p == 0 ==> {
                &&& f == rt
                &&& 0 <= rt <= 0xffff
                &&& rt * rt <= n
                &&& n < (rt + 1) * (rt + 1)
            },
        decreases p,
    {
        proof {
            lemma2_to64();
            lemma_pow2_pos(e);
            if e < 15 {
                lemma_pow2_strictly_increases(e, 15);
            }
            assert(1 <= s <= 0x8000);
            // The recovered root is bounded by the 16-bit square-root range.
            assert(rt <= 0xffff) by (nonlinear_arith)
                requires
                    n - rt * rt >= 0,
                    n < 0x100000000,
                    rt >= 0,
            ;
            // rt plus two more bits of weight s still fits in 2^16.
            assert(pow2((e + 1) as nat) == 2 * s) by {
                lemma_pow2_adds(1, e);
            }
            assert(pow2((e + 1) as nat) * pow2((15 - e) as nat) == 0x10000) by {
                lemma_pow2_adds((e + 1) as nat, (15 - e) as nat);
            }
            lemma_pow2_pos((15 - e) as nat);
            assert(j < pow2((15 - e) as nat)) by (nonlinear_arith)
                requires
                    rt == 2 * j * s,
                    rt <= 0xffff,
                    (2 * s) * pow2((15 - e) as nat) == 0x10000,
                    s >= 1,
                    j >= 0,
                    pow2((15 - e) as nat) >= 1,
            ;
            assert(rt + 2 * s <= 0x10000) by (nonlinear_arith)
                requires
                    rt == 2 * j * s,
                    j + 1 <= pow2((15 - e) as nat),
                    (2 * s) * pow2((15 - e) as nat) == 0x10000,
                    s >= 1,
                    j >= 0,
            ;
            // Both exec sums below stay within u32.
            assert(f + p < 0x100000000 && f + 3 * p < 0x100000000) by (nonlinear_arith)
                requires
                    f == 2 * rt * s,
                    p == s * s,
                    rt >= 0,
                    s >= 1,
                    rt + 2 * s <= 0x10000,
            ;
        }
        let ghost rt0: int = rt;
        let ghost took: bool = r >= f + p;
        if r >= f + p {
            r = r - (f + p);
            f = f + 2 * p;
            proof {
                rt = rt0 + s;
                assert(r == n - rt * rt && f == 2 * rt * s && n - rt * rt >= 0 && rt >= 0 && n < (
                rt + s) * (rt + s)) by (nonlinear_arith)
                    requires
                        rt == rt0 + s,
                        rt0 >= 0,
                        s >= 1,
                        r == n - rt0 * rt0 - (2 * rt0 * s + s * s),
                        r >= 0,
                        f == 2 * rt0 * s + 2 * (s * s),
                        n < (rt0 + 2 * s) * (rt0 + 2 * s),
                ;
            }
        } else {
            proof {
                // The two new root bits are zero: the upper bound tightens.
                assert(n < (rt + s) * (rt + s)) by (nonlinear_arith)
                    requires
                        r == n - rt * rt,
                        f == 2 * rt * s,
                        p == s * s,
                        r < f + p,
                        r >= 0,
                ;
            }
        }
        let ghost f1: int = f as int;
        let ghost p1: int = p as int;
        f = f / 2;
        p = p / 4;
        proof {
            lemma2_to64();
            if e == 0 {
                assert(s == 1);
                assert(p1 == 1 && f1 == 2 * rt && n < (rt + 1) * (rt + 1)) by (nonlinear_arith)
                    requires
                        p1 == s * s,
                        f1 == 2 * rt * s,
                        s == 1,
                        n < (rt + s) * (rt + s),
                ;
                assert(p == 0 && f == rt);
                assert(rt <= 0xffff) by (nonlinear_arith)
                    requires
                        n - rt * rt >= 0,
                        n < 0x100000000,
                        rt >= 0,
                ;
            } else {
                assert(pow2(e) == 2 * pow2((e - 1) as nat)) by {
                    lemma_pow2_adds(1, (e - 1) as nat);
                }
                lemma_pow2_pos((e - 1) as nat);
                let s2 = s / 2;
                assert(s == 2 * s2 && s2 >= 1 && s2 == pow2((e - 1) as nat));
                let j2 = if took {
                    2 * j + 1
                } else {
                    2 * j
                };
                assert(rt == 2 * j2 * s2 && f1 == 4 * (rt * s2) && p1 == 4 * (s2 * s2) && n < (rt
                    + 2 * s2) * (rt + 2 * s2) && s2 * s2 >= 1 && j2 >= 0) by (nonlinear_arith)
                    requires
                        s == 2 * s2,
                        s2 >= 1,
                        j >= 0,
                        f1 == 2 * rt * s,
                        p1 == s * s,
                        n < (rt + s) * (rt + s),
                        (took && rt == 2 * j * s + s && j2 == 2 * j + 1) || (!took && rt == 2 * j
                            * s && j2 == 2 * j),
                ;
                assert(f == 2 * (rt * s2) && p == s2 * s2);
                assert(f == 2 * rt * s2) by (nonlinear_arith)
                    requires
                        f == 2 * (rt * s2),
                ;
                s = s2;
                e = (e - 1) as nat;
                j = j2;
            }
        }
    }

    proof {
        lemma_isqrt_unique(n as nat, f as nat);
    }
    f as i32
}

/// Q8.8 fixed-point product: `(a * b) >> 8` with an arithmetic shift,
/// that is, the product divided by 256 rounding toward negative infinity.
pub fn multiply(a: i32, b: i32) -> (r: i32)
    requires
        -0x80000000 <= a * b <= 0x7fffffff,
    ensures
        r == (a * b) / 256,
{
    let p: i32 = a * b;
    let q = p.checked_div_euclid(256);
    proof {
        lemma_floor_div_range(p as int, 256);
    }
    q.unwrap()
}

/// Q8.8 fixed-point quotient: `(a << 8) / b` with Rust's truncating
/// signed division. Undefined when `b == 0`, so the precondition
/// excludes it; every call site guards it explicitly.
pub fn divide(a: i32, b: i32) -> (r: i32)
    requires
        -0x800000 <= a <= 0x7fffff,
        b != 0,
        !(a == -0x800000 && b == -1),
    ensures
        r == tdiv(256 * a, b as int),
{
    let shifted: i32 = a * 256;
    let q = shifted.checked_div(b);
    proof {
        let x = shifted as int;
        let d = b as int;
        let ax = abs_val(x);
        let ad = abs_val(d);
        lemma_div_pos_is_pos(ax, ad);
        lemma_div_nonincreasing(ax, ad);
        if ad >= 2 {
            lemma_div_is_ordered_by_denominator(ax, 2, ad);
            assert(0x80000000int / 2 == 0x40000000);
            lemma_div_is_ordered(ax, 0x80000000, 2);
        }
        assert(q is Some);
        assert(q->Some_0 == tdiv(x, d));
    }
    q.unwrap()
}

/// Plain integer dot product of two 3-vectors (not fixed-point scaled).
pub open spec fn dot3_spec(a: Vec3, b: Vec3) -> int {
    a.x * b.x + a.y * b.y + a.z * b.z
}

/// Sum of the squared components: the squared magnitude of `v`.
pub open spec fn norm_sq(v: Vec3) -> int {
    v.x * v.x + v.y * v.y + v.z * v.z
}

/// Integer magnitude of `v`: the integer square root of `norm_sq`.
pub open spec fn norm_val(v: Vec3) -> int {
    isqrt_spec(norm_sq(v) as nat) as int
}

/// A square is never negative.
pub proof fn lemma_sq_nonneg(a: int)
    ensures
        a * a >= 0,
{
    assert(a * a >= 0) by (nonlinear_arith);
}

/// Plain integer dot product: `a.x*b.x + a.y*b.y + a.z*b.z`.
pub fn dot3(a: &Vec3, b: &Vec3) -> (r: i32)
    requires
        -0x80000000 <= a.x * b.x <= 0x7fffffff,
        -0x80000000 <= a.y * b.y <= 0x7fffffff,
        -0x80000000 <= a.z * b.z <= 0x7fffffff,
        -0x80000000 <= a.x * b.x + a.y * b.y <= 0x7fffffff,
        -0x80000000 <= dot3_spec(*a, *b) <= 0x7fffffff,
    ensures
        r == dot3_spec(*a, *b),
{
    a.x * b.x + a.y * b.y + a.z * b.z
}

/// Integer magnitude of a 3-vector: `sqrt(x*x + y*y + z*z)`.
pub fn norm3(v: &Vec3) -> (r: i32)
    requires
        norm_sq(*v) <= 0x7fffffff,
    ensures
        r == norm_val(*v),
        0 <= r <= 0xffff,
        r * r <= norm_sq(*v),
        norm_sq(*v) < (r + 1) * (r + 1),
{
    proof {
        lemma_sq_nonneg(v.x as int);
        lemma_sq_nonneg(v.y as int);
        lemma_sq_nonneg(v.z as int);
    }
    let sum: i32 = v.x * v.x + v.y * v.y + v.z * v.z;
    sqrt(sum as u32)
}

/// Normalizes `v` in place to a Q8.8 unit vector: each component becomes
/// `divide(component, norm)`. The norm must not be zero (the vector must
/// not be the zero vector); callers guard that explicitly.
pub fn unit3(v: &mut Vec3)
    requires
        0 < norm_sq(*old(v)) <= 0x7fffffff,
    ensures
        final(v).x == tdiv(256 * old(v).x, norm_val(*old(v))),
        final(v).y == tdiv(256 * old(v).y, norm_val(*old(v))),
        final(v).z == tdiv(256 * old(v).z, norm_val(*old(v))),
        abs_val(final(v).x as int) <= 256,
        abs_val(final(v).y as int) <= 256,
        abs_val(final(v).z as int) <= 256,
{
    let n = norm3(&*v);
    proof {
        let ghost sq = norm_sq(*v);
        lemma_sq_nonneg(v.x as int);
        lemma_sq_nonneg(v.y as int);
        lemma_sq_nonneg(v.z as int);
        if n == 0 {
            assert((n + 1) * (n + 1) == 1) by (nonlinear_arith)
                requires
                    n == 0,
            ;
            assert(false);
        }
        lemma_unit_component_ok(v.x as int, sq, n as int);
        lemma_unit_component_ok(v.y as int, sq, n as int);
        lemma_unit_component_ok(v.z as int, sq, n as int);
    }
    v.x = divide(v.x, n);
    v.y = divide(v.y, n);
    v.z = divide(v.z, n);
}

/// Squared scaled quotient bounds: for `n >= 1`, the square of
/// `n * tdiv(256*c, n)` lies between `(256*c)^2 - 2*(256*|c|)*n` and
/// `(256*c)^2`.
proof fn lemma_scaled_div_sq(c: int, n: int)
    requires
        n >= 1,
    ensures
        ({
            let u = tdiv(256 * c, n);
            &&& n * n * (u * u) <= 65536 * (c * c)
            &&& n * n * (u * u) >= 65536 * (c * c) - 512 * abs_val(c) * n
        }),
{
    let a = 256 * abs_val(c);
    let q = a / n;
    let m = a % n;
    lemma_fundamental_div_mod(a, n);
    lemma_div_pos_is_pos(a, n);
    lemma_mod_division_less_than_divisor(a, n);
    let u = tdiv(256 * c, n);
    assert(abs_val(256 * c) == a);
    assert(u == q || u == -q);
    lemma_sq_abs(c);
    assert(n * n * (u * u) <= 65536 * (c * c) && n * n * (u * u) >= 65536 * (c * c) - 512
        * abs_val(c) * n) by (nonlinear_arith)
        requires
            a == n * q + m,
            0 <= m < n,
            q >= 0,
            a == 256 * abs_val(c),
            abs_val(c) >= 0,
            c * c == abs_val(c) * abs_val(c),
            u == q || u == -q,
            n >= 1,
    ;
}

/// A square equals the square of the absolute value.
proof fn lemma_sq_abs(c: int)
    ensures
        c * c == abs_val(c) * abs_val(c),
{
    assert(c * c == abs_val(c) * abs_val(c)) by (nonlinear_arith)
        requires
            abs_val(c) == if c >= 0 {
                c
            } else {
                -c
            },
    ;
}

/// Normalization accuracy: a vector whose integer magnitude is at least
/// 85 normalizes to a Q8.8 vector whose own integer magnitude lies
/// within 2 of 256 (in fact within [254, 258]). Tiny vectors are
/// excluded: their normalization is too coarse for the bound (the unit
/// of (1, 1, 1) has magnitude 443).
pub proof fn lemma_normalize_magnitude(v: Vec3)
    requires
        7225 <= norm_sq(v) <= 0x7fffffff,
    ensures
        ({
            let n = norm_val(v);
            let ux = tdiv(256 * v.x, n);
            let uy = tdiv(256 * v.y, n);
            let uz = tdiv(256 * v.z, n);
            254 <= isqrt_spec((ux * ux + uy * uy + uz * uz) as nat) <= 258
        }),
{
    let sq = norm_sq(v);
    let n = norm_val(v);
    lemma_isqrt_bounds(sq as nat);
    assert(n * n <= sq < (n + 1) * (n + 1));
    assert(n >= 85) by (nonlinear_arith)
        requires
            sq >= 7225,
            sq < (n + 1) * (n + 1),
            n >= 0,
    ;
    let x = v.x as int;
    let y = v.y as int;
    let z = v.z as int;
    let ux = tdiv(256 * x, n);
    let uy = tdiv(256 * y, n);
    let uz = tdiv(256 * z, n);
    lemma_scaled_div_sq(x, n);
    lemma_scaled_div_sq(y, n);
    lemma_scaled_div_sq(z, n);
    lemma_sq_abs(x);
    lemma_sq_abs(y);
    lemma_sq_abs(z);
    let total = ux * ux + uy * uy + uz * uz;
    let a = abs_val(x) + abs_val(y) + abs_val(z);
    // Cauchy-Schwarz-style bound on the component sum, then 5*a <= 9*n.
    assert(a * a <= 3 * sq) by (nonlinear_arith)
        requires
            a == abs_val(x) + abs_val(y) + abs_val(z),
            abs_val(x) >= 0 && abs_val(y) >= 0 && abs_val(z) >= 0,
            x * x == abs_val(x) * abs_val(x),
            y * y == abs_val(y) * abs_val(y),
            z * z == abs_val(z) * abs_val(z),
            sq == x * x + y * y + z * z,
    ;
    assert(5 * a <= 9 * n) by (nonlinear_arith)
        requires
            a * a <= 3 * sq,
            sq < (n + 1) * (n + 1),
            n >= 85,
            a >= 0,
    ;
    // Upper bound: n*n*total <= 65536*sq <= 65536*(n*n + 2*n).
    assert(total * (n * n) <= 65536 * (n * n) + 131072 * n) by (nonlinear_arith)
        requires
            n * n * (ux * ux) <= 65536 * (x * x),
            n * n * (uy * uy) <= 65536 * (y * y),
            n * n * (uz * uz) <= 65536 * (z * z),
            total == ux * ux + uy * uy + uz * uz,
            sq == x * x + y * y + z * z,
            sq < (n + 1) * (n + 1),
            n >= 1,
    ;
    assert(total <= 67078) by (nonlinear_arith)
        requires
            total * (n * n) <= 65536 * (n * n) + 131072 * n,
            n >= 85,
    ;
    // Lower bound: n*n*total >= 65536*sq - 512*a*n >= 65536*n*n - 512*a*n.
    assert(total * (n * n) >= 65536 * sq - 512 * (a * n)) by (nonlinear_arith)
        requires
            n * n * (ux * ux) >= 65536 * (x * x) - 512 * abs_val(x) * n,
            n * n * (uy * uy) >= 65536 * (y * y) - 512 * abs_val(y) * n,
            n * n * (uz * uz) >= 65536 * (z * z) - 512 * abs_val(z) * n,
            total == ux * ux + uy * uy + uz * uz,
            sq == x * x + y * y + z * z,
            a == abs_val(x) + abs_val(y) + abs_val(z),
    ;
    assert(2560 * (a * n) <= 4608 * (n * n)) by (nonlinear_arith)
        requires
            5 * a <= 9 * n,
            a >= 0,
            n >= 1,
    ;
    assert(5 * (total * (n * n)) >= 323072 * (n * n)) by (nonlinear_arith)
        requires
            total * (n * n) >= 65536 * sq - 512 * (a * n),
            2560 * (a * n) <= 4608 * (n * n),
            sq >= n * n,
    ;
    assert(total >= 64615) by (nonlinear_arith)
        requires
            5 * (total * (n * n)) >= 323072 * (n * n),
            n >= 85,
    ;
    let m = isqrt_spec(total as nat) as int;
    lemma_isqrt_bounds(total as nat);
    assert(254 <= m <= 258) by (nonlinear_arith)
        requires
            m * m <= total,
            total < (m + 1) * (m + 1),
            64615 <= total <= 67078,
            m >= 0,
    ;
}

/// A truncating quotient is no larger in magnitude than `m` whenever the
/// dividend is at most `m` times the divisor in magnitude.
pub proof fn lemma_tdiv_le(a: int, b: int, m: int)
    requires
        b != 0,
        m >= 0,
        abs_val(a) <= m * abs_val(b),
    ensures
        abs_val(tdiv(a, b)) <= m,
{
    let aa = abs_val(a);
    let ab = abs_val(b);
    assert(m * ab == ab * m) by (nonlinear_arith);
    lemma_div_is_ordered(aa, ab * m, ab);
    lemma_div_multiples_vanish(m, ab);
    lemma_div_pos_is_pos(aa, ab);
}

/// Truncating signed division (Rust `/`) for a positive divisor.
pub fn tdiv32(a: i32, b: i32) -> (r: i32)
    requires
        b >= 1,
    ensures
        r == tdiv(a as int, b as int),
        abs_val(r as int) <= abs_val(a as int),
{
    let q = a.checked_div(b);
    proof {
        let x = a as int;
        let d = b as int;
        lemma_div_pos_is_pos(abs_val(x), d);
        lemma_div_nonincreasing(abs_val(x), d);
        assert(q is Some);
        assert(q->Some_0 == tdiv(x, d));
    }
    q.unwrap()
}

/// Flooring signed division (round toward negative infinity) for a
/// positive divisor: the value of an arithmetic right shift when the
/// divisor is a power of two.
pub fn fdiv32(a: i32, b: i32) -> (r: i32)
    requires
        b >= 1,
    ensures
        r == a as int / b as int,
{
    proof {
        lemma_floor_div_range(a as int, b as int);
    }
    a.checked_div_euclid(b).unwrap()
}

/// Euclidean remainder for a positive modulus: the value of a
/// two's-complement `& (b - 1)` mask when `b` is a power of two.
pub fn emod32(a: i32, b: i32) -> (r: i32)
    requires
        b >= 1,
    ensures
        r == a as int % b as int,
        0 <= r < b,
{
    proof {
        lemma_mod_division_less_than_divisor(a as int, b as int);
    }
    a.checked_rem_euclid(b).unwrap()
}

/// For a component `c` of a vector of squared magnitude `sq` and norm `n`
/// (with `n*n <= sq < (n+1)*(n+1)`), dividing `256*c` by `n` stays within
/// the Q8.8 unit range and within `divide`'s domain.
proof fn lemma_unit_component_ok(c: int, sq: int, n: int)
    requires
        c * c <= sq,
        sq <= 0x7fffffff,
        n >= 1,
        n * n <= sq,
        sq < (n + 1) * (n + 1),
    ensures
        -0x800000 <= c <= 0x7fffff,
        abs_val(tdiv(256 * c, n)) <= 256,
{
    assert(abs_val(c) <= n && abs_val(c) <= 46340) by (nonlinear_arith)
        requires
            c * c <= sq,
            sq <= 0x7fffffff,
            n >= 1,
            sq < (n + 1) * (n + 1),
    ;
    let ac = abs_val(c);
    assert(abs_val(256 * c) == 256 * ac);
    lemma_div_is_ordered(256 * ac, 256 * n, n);
    lemma_div_multiples_vanish(256, n);
    assert((256 * ac) / n <= 256);
    lemma_div_pos_is_pos(256 * ac, n);
}

} // verus!
