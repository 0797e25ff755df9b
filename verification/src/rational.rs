//! Exact rational numbers over `i128`.
//!
//! A [`Rat`] stores a fraction `num / den` with `den > 0`. Every operation
//! reduces its result by the greatest common divisor, states the exact value
//! of the result as a cross-multiplication equation, and reports overflow
//! through `Option` instead of panicking.

use vstd::prelude::*;
use vstd::arithmetic::div_mod::*;
use vstd::arithmetic::mul::*;
use vstd::arithmetic::power::pow;

verus! {

/// An exact rational number `num / den`, kept with a positive denominator.
#[derive(Clone, Copy, Debug, PartialEq, Eq, Structural)]
pub struct Rat {
    pub num: i128,
    pub den: i128,
}

/// Well-formed rational: positive denominator; `i128::MIN` is excluded from
/// the numerator so that negation and absolute value never overflow.
pub open spec fn rat_wf(r: Rat) -> bool {
    &&& r.den > 0
    &&& r.num > i128::MIN
}

/// The mathematical value of `r` as a pair (numerator, denominator) of
/// unbounded integers.
pub open spec fn pv(r: Rat) -> (int, int) {
    (r.num as int, r.den as int)
}

/// Exact sum of two fraction pairs.
pub open spec fn padd(a: (int, int), b: (int, int)) -> (int, int) {
    (a.0 * b.1 + b.0 * a.1, a.1 * b.1)
}

/// Exact difference of two fraction pairs.
pub open spec fn psub(a: (int, int), b: (int, int)) -> (int, int) {
    (a.0 * b.1 - b.0 * a.1, a.1 * b.1)
}

/// Exact product of two fraction pairs.
pub open spec fn pmul(a: (int, int), b: (int, int)) -> (int, int) {
    (a.0 * b.0, a.1 * b.1)
}

/// Exact quotient of two fraction pairs, with the sign normalized into the
/// numerator so that the result is well-formed whenever `b.0 != 0`.
pub open spec fn pdiv(a: (int, int), b: (int, int)) -> (int, int) {
    if b.0 >= 0 {
        (a.0 * b.1, a.1 * b.0)
    } else {
        (0 - a.0 * b.1, 0 - a.1 * b.0)
    }
}

/// Exact negation of a fraction pair.
pub open spec fn pneg(a: (int, int)) -> (int, int) {
    (0 - a.0, a.1)
}

/// Value equality of two fraction pairs (cross multiplication).
pub open spec fn peq(a: (int, int), b: (int, int)) -> bool {
    a.0 * b.1 == b.0 * a.1
}

/// Value order of two fraction pairs; meaningful when both denominators are
/// positive.
pub open spec fn ple(a: (int, int), b: (int, int)) -> bool {
    a.0 * b.1 <= b.0 * a.1
}

/// `r` holds exactly the value of the fraction pair `p`.
pub open spec fn rat_has(r: Rat, p: (int, int)) -> bool {
    r.num * p.1 == p.0 * r.den
}

/// `x` is representable as an `i128` numerator (the minimum is excluded so
/// that negation stays safe).
pub open spec fn in_rng(x: int) -> bool {
    i128::MIN < x <= i128::MAX
}

/// The exact sum of `a` and `b` can be computed without `i128` overflow.
pub open spec fn add_fits(a: (int, int), b: (int, int)) -> bool {
    &&& in_rng(a.0 * b.1)
    &&& in_rng(b.0 * a.1)
    &&& in_rng(a.0 * b.1 + b.0 * a.1)
    &&& in_rng(a.1 * b.1)
}

/// The exact difference of `a` and `b` can be computed without overflow.
pub open spec fn sub_fits(a: (int, int), b: (int, int)) -> bool {
    &&& in_rng(a.0 * b.1)
    &&& in_rng(b.0 * a.1)
    &&& in_rng(a.0 * b.1 - b.0 * a.1)
    &&& in_rng(a.1 * b.1)
}

/// The exact product of `a` and `b` can be computed without overflow.
pub open spec fn mul_fits(a: (int, int), b: (int, int)) -> bool {
    &&& in_rng(a.0 * b.0)
    &&& in_rng(a.1 * b.1)
}

/// The exact quotient of `a` by `b` can be computed without overflow.
pub open spec fn div_fits(a: (int, int), b: (int, int)) -> bool {
    &&& in_rng(a.0 * b.1)
    &&& in_rng(a.1 * b.0)
}

/// A product of two factors of bounded magnitude stays representable.
pub proof fn lemma_mul_in_rng(x: int, y: int, bx: int, by: int)
    requires
        vstd::math::abs(x) <= bx,
        vstd::math::abs(y) <= by,
        bx * by <= i128::MAX as int,
    ensures
        in_rng(x * y),
        vstd::math::abs(x * y) <= bx * by,
{
    assert(vstd::math::abs(x * y) == vstd::math::abs(x) * vstd::math::abs(y))
        by (nonlinear_arith);
    assert(vstd::math::abs(x) * vstd::math::abs(y) <= bx * by) by (nonlinear_arith)
        requires
            vstd::math::abs(x) <= bx,
            vstd::math::abs(y) <= by,
            0 <= vstd::math::abs(x),
            0 <= vstd::math::abs(y),
    ;
}

/// A sum of two terms of bounded magnitude stays representable.
pub proof fn lemma_sum_in_rng(x: int, y: int, bx: int, by: int)
    requires
        vstd::math::abs(x) <= bx,
        vstd::math::abs(y) <= by,
        bx + by <= i128::MAX as int,
    ensures
        in_rng(x + y),
        vstd::math::abs(x + y) <= bx + by,
{
}

/// Sums and differences of two bounded integer-valued rationals can be
/// computed without overflow.
pub proof fn lemma_int_fits(a: Rat, b: Rat, ba: int, bb: int)
    requires
        rat_wf(a),
        rat_wf(b),
        a.den == 1,
        b.den == 1,
        vstd::math::abs(a.num as int) <= ba,
        vstd::math::abs(b.num as int) <= bb,
        ba + bb <= i128::MAX as int,
    ensures
        add_fits(pv(a), pv(b)),
        sub_fits(pv(a), pv(b)),
{
    lemma_sum_in_rng(a.num as int, b.num as int, ba, bb);
    lemma_sum_in_rng(a.num as int, 0 - b.num as int, ba, bb);
    assert(add_fits(pv(a), pv(b)) && sub_fits(pv(a), pv(b))) by (nonlinear_arith)
        requires
            a.den == 1 && b.den == 1,
            i128::MIN < a.num && i128::MIN < b.num,
            in_rng(a.num + b.num),
            in_rng(a.num - b.num),
            add_fits(pv(a), pv(b)) == (in_rng(a.num as int * 1) && in_rng(b.num as int * 1)
                && in_rng(a.num as int * 1 + b.num as int * 1) && in_rng(1int * 1)),
            sub_fits(pv(a), pv(b)) == (in_rng(a.num as int * 1) && in_rng(b.num as int * 1)
                && in_rng(a.num as int * 1 - b.num as int * 1) && in_rng(1int * 1)),
            in_rng(a.num as int * 1) == (i128::MIN < a.num as int * 1 <= i128::MAX),
            in_rng(b.num as int * 1) == (i128::MIN < b.num as int * 1 <= i128::MAX),
            in_rng(a.num as int * 1 + b.num as int * 1) == (i128::MIN
                < a.num as int * 1 + b.num as int * 1 <= i128::MAX),
            in_rng(a.num as int * 1 - b.num as int * 1) == (i128::MIN
                < a.num as int * 1 - b.num as int * 1 <= i128::MAX),
            in_rng(1int * 1) == (i128::MIN < 1int * 1 <= i128::MAX),
            in_rng(a.num + b.num) == (i128::MIN < a.num + b.num <= i128::MAX),
            in_rng(a.num - b.num) == (i128::MIN < a.num - b.num <= i128::MAX),
    ;
}

/// Cancel a common nonzero factor in an equation.
pub proof fn lemma_mul_cancel_eq(x: int, y: int, c: int)
    requires
        c != 0,
        x * c == y * c,
    ensures
        x == y,
{
    assert((x - y) * c == 0) by (nonlinear_arith)
        requires x * c == y * c;
    assert(x - y == 0) by (nonlinear_arith)
        requires (x - y) * c == 0 && c != 0;
}

/// Cancel a common positive factor in an inequality.
pub proof fn lemma_mul_cancel_le(x: int, y: int, c: int)
    requires
        c > 0,
        x * c <= y * c,
    ensures
        x <= y,
{
    assert(x <= y) by (nonlinear_arith)
        requires c > 0 && x * c <= y * c;
}

/// Value equality of fraction pairs is transitive through a pair with a
/// nonzero denominator.
#[verifier::rlimit(50)]
pub proof fn lemma_peq_trans(p1: (int, int), p2: (int, int), p3: (int, int))
    requires
        peq(p1, p2),
        peq(p2, p3),
        p2.1 != 0,
    ensures
        peq(p1, p3),
{
    assert((p1.0 * p3.1) * p2.1 == (p3.0 * p1.1) * p2.1) by (nonlinear_arith)
        requires
            p1.0 * p2.1 == p2.0 * p1.1,
            p2.0 * p3.1 == p3.0 * p2.1,
    ;
    lemma_mul_cancel_eq(p1.0 * p3.1, p3.0 * p1.1, p2.1);
}

/// Regroup a product of four factors.
proof fn lemma_four_swap(x: int, y: int, u: int, v: int)
    ensures
        (x * y) * (u * v) == (x * u) * (y * v),
{
    assert((x * y) * (u * v) == (x * u) * (y * v)) by (nonlinear_arith);
}

/// Distribute a sum over a product.
proof fn lemma_distribute(p: int, q: int, r: int)
    ensures
        (p + q) * r == p * r + q * r,
        (p - q) * r == p * r - q * r,
{
    assert((p + q) * r == p * r + q * r) by (nonlinear_arith);
    assert((p - q) * r == p * r - q * r) by (nonlinear_arith);
}

/// Addition of fraction pairs respects value equality.
#[verifier::rlimit(50)]
pub proof fn lemma_padd_peq(a1: (int, int), a2: (int, int), b1: (int, int), b2: (int, int))
    requires
        peq(a1, a2),
        peq(b1, b2),
    ensures
        peq(padd(a1, b1), padd(a2, b2)),
{
    lemma_distribute(a1.0 * b1.1, b1.0 * a1.1, a2.1 * b2.1);
    lemma_distribute(a2.0 * b2.1, b2.0 * a2.1, a1.1 * b1.1);
    lemma_four_swap(a1.0, b1.1, a2.1, b2.1);
    lemma_four_swap(a2.0, b2.1, a1.1, b1.1);
    lemma_four_swap(b1.0, a1.1, b2.1, a2.1);
    lemma_four_swap(b2.0, a2.1, b1.1, a1.1);
    assert((a1.0 * a2.1) * (b1.1 * b2.1) == (a2.0 * a1.1) * (b2.1 * b1.1));
    assert((b1.0 * b2.1) * (a1.1 * a2.1) == (b2.0 * b1.1) * (a2.1 * a1.1));
}

/// Subtraction of fraction pairs respects value equality.
#[verifier::rlimit(50)]
pub proof fn lemma_psub_peq(a1: (int, int), a2: (int, int), b1: (int, int), b2: (int, int))
    requires
        peq(a1, a2),
        peq(b1, b2),
    ensures
        peq(psub(a1, b1), psub(a2, b2)),
{
    lemma_distribute(a1.0 * b1.1, b1.0 * a1.1, a2.1 * b2.1);
    lemma_distribute(a2.0 * b2.1, b2.0 * a2.1, a1.1 * b1.1);
    lemma_four_swap(a1.0, b1.1, a2.1, b2.1);
    lemma_four_swap(a2.0, b2.1, a1.1, b1.1);
    lemma_four_swap(b1.0, a1.1, b2.1, a2.1);
    lemma_four_swap(b2.0, a2.1, b1.1, a1.1);
    assert((a1.0 * a2.1) * (b1.1 * b2.1) == (a2.0 * a1.1) * (b2.1 * b1.1));
    assert((b1.0 * b2.1) * (a1.1 * a2.1) == (b2.0 * b1.1) * (a2.1 * a1.1));
}

/// Multiplication of fraction pairs respects value equality.
#[verifier::rlimit(50)]
pub proof fn lemma_pmul_peq(a1: (int, int), a2: (int, int), b1: (int, int), b2: (int, int))
    requires
        peq(a1, a2),
        peq(b1, b2),
    ensures
        peq(pmul(a1, b1), pmul(a2, b2)),
{
    assert((a1.0 * b1.0) * (a2.1 * b2.1) == (a2.0 * b2.0) * (a1.1 * b1.1)) by (nonlinear_arith)
        requires
            a1.0 * a2.1 == a2.0 * a1.1,
            b1.0 * b2.1 == b2.0 * b1.1,
    ;
}

/// Division of fraction pairs respects value equality.
#[verifier::rlimit(50)]
pub proof fn lemma_pdiv_peq(a1: (int, int), a2: (int, int), b1: (int, int), b2: (int, int))
    requires
        peq(a1, a2),
        peq(b1, b2),
    ensures
        peq(pdiv(a1, b1), pdiv(a2, b2)),
{
    lemma_four_swap(a1.0, b1.1, a2.1, b2.0);
    lemma_four_swap(a2.0, b2.1, a1.1, b1.0);
    assert((a1.0 * a2.1) * (b1.1 * b2.0) == (a2.0 * a1.1) * (b2.1 * b1.0));
    assert((a1.0 * b1.1) * (a2.1 * b2.0) == (a2.0 * b2.1) * (a1.1 * b1.0));
    assert(peq(pdiv(a1, b1), pdiv(a2, b2))) by (nonlinear_arith)
        requires
            (a1.0 * b1.1) * (a2.1 * b2.0) == (a2.0 * b2.1) * (a1.1 * b1.0),
            pdiv(a1, b1) == (if b1.0 >= 0 { (a1.0 * b1.1, a1.1 * b1.0) } else {
                (0 - a1.0 * b1.1, 0 - a1.1 * b1.0)
            }),
            pdiv(a2, b2) == (if b2.0 >= 0 { (a2.0 * b2.1, a2.1 * b2.0) } else {
                (0 - a2.0 * b2.1, 0 - a2.1 * b2.0)
            }),
    ;
}

/// A rational that holds the value of `p1` also holds the value of any
/// pair value-equal to `p1`.
#[verifier::rlimit(50)]
pub proof fn lemma_rat_has_trans(r: Rat, p1: (int, int), p2: (int, int))
    requires
        rat_has(r, p1),
        peq(p1, p2),
        p1.1 != 0,
    ensures
        rat_has(r, p2),
{
    lemma_peq_trans(pv(r), p1, p2);
}

/// Cancel a common positive factor in a strict inequality.
pub proof fn lemma_mul_cancel_lt(x: int, y: int, c: int)
    requires
        c > 0,
        x * c < y * c,
    ensures
        x < y,
{
    assert(x < y) by (nonlinear_arith)
        requires c > 0 && x * c < y * c;
}

/// Subtracting a sum is subtracting both parts in turn.
pub proof fn lemma_psub_padd_nest(tg: (int, int), a: (int, int), x: (int, int))
    ensures
        peq(psub(tg, padd(a, x)), psub(psub(tg, a), x)),
{
    assert((tg.0 * (a.1 * x.1) - (a.0 * x.1 + x.0 * a.1) * tg.1) * ((tg.1 * a.1) * x.1)
        == ((tg.0 * a.1 - a.0 * tg.1) * x.1 - x.0 * (tg.1 * a.1)) * (tg.1 * (a.1 * x.1)))
        by (nonlinear_arith);
}

/// Adding to `a` the difference `b - a` restores the value `b`.
#[verifier::rlimit(50)]
pub proof fn lemma_padd_psub_restore(a: (int, int), b: (int, int))
    ensures
        peq(padd(a, psub(b, a)), b),
{
    assert((a.0 * (b.1 * a.1) + (b.0 * a.1 - a.0 * b.1) * a.1) * b.1
        == b.0 * (a.1 * (b.1 * a.1))) by (nonlinear_arith);
}

/// A floor-quantization bound proved against a rational holding a value
/// transfers to any pair with that value.
#[verifier::rlimit(50)]
pub proof fn lemma_quant_transfer(k: int, t: Rat, p: (int, int), q: int)
    requires
        rat_wf(t),
        rat_has(t, p),
        p.1 > 0,
        q > 0,
        k * t.den <= t.num * q,
        t.num * q < (k + 1) * t.den,
    ensures
        k * p.1 <= p.0 * q,
        p.0 * q < (k + 1) * p.1,
{
    assert((k * p.1) * t.den <= (p.0 * q) * t.den) by (nonlinear_arith)
        requires
            k * t.den <= t.num * q,
            t.num * p.1 == p.0 * t.den,
            p.1 > 0,
            t.den > 0,
    ;
    lemma_mul_cancel_le(k * p.1, p.0 * q, t.den as int);
    assert((p.0 * q) * t.den < ((k + 1) * p.1) * t.den) by (nonlinear_arith)
        requires
            t.num * q < (k + 1) * t.den,
            t.num * p.1 == p.0 * t.den,
            p.1 > 0,
            t.den > 0,
    ;
    lemma_mul_cancel_lt(p.0 * q, (k + 1) * p.1, t.den as int);
}

/// Addition of fraction pairs is associative up to value equality.
#[verifier::rlimit(50)]
pub proof fn lemma_padd_assoc(a: (int, int), b: (int, int), c: (int, int))
    ensures
        peq(padd(padd(a, b), c), padd(a, padd(b, c))),
{
    assert(((a.0 * b.1 + b.0 * a.1) * c.1 + c.0 * (a.1 * b.1)) * (a.1 * (b.1 * c.1))
        == (a.0 * (b.1 * c.1) + (b.0 * c.1 + c.0 * b.1) * a.1) * ((a.1 * b.1) * c.1))
        by (nonlinear_arith);
}

/// If `a + s` has the value `t`, then `s` has the value `t - a`.
#[verifier::rlimit(50)]
pub proof fn lemma_padd_move(a: (int, int), s: (int, int), t: (int, int))
    requires
        peq(padd(a, s), t),
    ensures
        peq(s, psub(t, a)),
{
    lemma_distribute(a.0 * s.1, s.0 * a.1, t.1);
    lemma_distribute(t.0 * a.1, a.0 * t.1, s.1);
    assert(s.0 * (t.1 * a.1) == (s.0 * a.1) * t.1) by (nonlinear_arith);
    assert((t.0 * a.1) * s.1 == t.0 * (a.1 * s.1)) by (nonlinear_arith);
    assert((a.0 * t.1) * s.1 == (a.0 * s.1) * t.1) by (nonlinear_arith);
}

/// Adding `b` and then subtracting `b` restores the original value.
#[verifier::rlimit(50)]
pub proof fn lemma_padd_psub_cancel(a: (int, int), b: (int, int))
    ensures
        peq(psub(padd(a, b), b), a),
{
    assert((padd(a, b).0 * b.1 - b.0 * padd(a, b).1) * a.1
        == a.0 * (padd(a, b).1 * b.1)) by (nonlinear_arith)
        requires
            padd(a, b) == (a.0 * b.1 + b.0 * a.1, a.1 * b.1),
    ;
}

/// Multiplying by nonzero `k` and then dividing by `k` restores the value.
#[verifier::rlimit(50)]
pub proof fn lemma_pmul_pdiv_cancel(a: (int, int), k: (int, int))
    requires
        k.0 != 0,
    ensures
        peq(pdiv(pmul(a, k), k), a),
{
    assert(peq(pdiv(pmul(a, k), k), a)) by (nonlinear_arith)
        requires
            pmul(a, k) == (a.0 * k.0, a.1 * k.1),
            pdiv(pmul(a, k), k) == (if k.0 >= 0 {
                ((a.0 * k.0) * k.1, (a.1 * k.1) * k.0)
            } else {
                (0 - (a.0 * k.0) * k.1, 0 - (a.1 * k.1) * k.0)
            }),
            peq(pdiv(pmul(a, k), k), a) == (pdiv(pmul(a, k), k).0 * a.1
                == a.0 * pdiv(pmul(a, k), k).1),
    ;
}

/// Dividing by nonzero `u` and then multiplying by `u` restores the value.
#[verifier::rlimit(50)]
pub proof fn lemma_pdiv_pmul_cancel(q: (int, int), u: (int, int))
    requires
        u.0 != 0,
    ensures
        peq(pmul(pdiv(q, u), u), q),
{
    assert(peq(pmul(pdiv(q, u), u), q)) by (nonlinear_arith)
        requires
            pdiv(q, u) == (if u.0 >= 0 {
                (q.0 * u.1, q.1 * u.0)
            } else {
                (0 - q.0 * u.1, 0 - q.1 * u.0)
            }),
            pmul(pdiv(q, u), u) == (pdiv(q, u).0 * u.0, pdiv(q, u).1 * u.1),
            peq(pmul(pdiv(q, u), u), q) == (pmul(pdiv(q, u), u).0 * q.1
                == q.0 * pmul(pdiv(q, u), u).1),
    ;
}

/// A positive divisor `g` of positive `x` is at most `x`.
proof fn lemma_divisor_le(x: int, g: int)
    requires
        x > 0,
        g > 0,
        x % g == 0,
    ensures
        g <= x,
{
    lemma_fundamental_div_mod(x, g);
    let q = x / g;
    assert(x == g * q);
    if q <= 0 {
        assert(g * q <= 0) by (nonlinear_arith)
            requires g > 0 && q <= 0;
        assert(false);
    }
    assert(g * q >= g) by (nonlinear_arith)
        requires g > 0 && q >= 1;
}

/// Divisibility passes from `b` and `a % b` to `a`.
proof fn lemma_divides_step(a: int, b: int, g: int)
    requires
        a >= 0,
        b > 0,
        g > 0,
        b % g == 0,
        (a % b) % g == 0,
    ensures
        a % g == 0,
{
    lemma_fundamental_div_mod(a, b);
    let q = a / b;
    assert(a == b * q + a % b);
    lemma_mul_mod_noop_left(b, q, g);
    assert((b % g) * q == 0 * q);
    assert(0 * q == 0) by (nonlinear_arith);
    assert((b * q) % g == 0int % g);
    lemma_small_mod(0, g as nat);
    lemma_add_mod_noop(b * q, a % b, g);
}

/// Greatest common divisor by Euclid's algorithm. The contract states what
/// the callers need: the result is positive and divides both arguments.
fn gcd(a: u128, b: u128) -> (g: u128)
    requires
        a > 0,
    ensures
        g > 0,
        a as int % g as int == 0,
        b as int % g as int == 0,
        g <= a,
    decreases b,
{
    if b == 0 {
        proof {
            lemma_mod_self_0(a as int);
            lemma_small_mod(0, a as nat);
        }
        a
    } else {
        let r = a % b;
        let g = gcd(b, r);
        proof {
            lemma_divides_step(a as int, b as int, g as int);
            lemma_divisor_le(a as int, g as int);
        }
        g
    }
}

/// Divide numerator and denominator by their greatest common divisor.
/// The value is unchanged and the components only shrink.
fn reduce(r: Rat) -> (out: Rat)
    requires
        r.den > 0,
        r.num > i128::MIN,
    ensures
        rat_wf(out),
        rat_has(out, pv(r)),
        out.den <= r.den,
        r.num >= 0 ==> 0 <= out.num <= r.num,
        r.num < 0 ==> r.num <= out.num <= 0,
{
    if r.num == 0 {
        return Rat { num: 0, den: 1 };
    }
    let neg: bool = r.num < 0;
    let na: u128 = if neg { (-r.num) as u128 } else { r.num as u128 };
    let da: u128 = r.den as u128;
    let g = gcd(na, da);
    proof {
        lemma_divisor_le(da as int, g as int);
    }
    let n2: u128 = na / g;
    let d2: u128 = da / g;
    proof {
        lemma_fundamental_div_mod(na as int, g as int);
        lemma_fundamental_div_mod(da as int, g as int);
        assert(na as int == g as int * n2 as int);
        assert(da as int == g as int * d2 as int);
        if d2 == 0 {
            assert(g as int * 0 == 0) by (nonlinear_arith);
            assert(false);
        }
        // value preservation for the magnitudes:
        // (na/g) * da == na * (da/g)
        assert(n2 as int * (g as int * d2 as int) == (g as int * n2 as int) * d2 as int)
            by (nonlinear_arith);
    }
    proof {
        lemma_div_nonincreasing(na as int, g as int);
    }
    let num2: i128 = if neg { -(n2 as i128) } else { n2 as i128 };
    let out = Rat { num: num2, den: d2 as i128 };
    proof {
        assert(out.num * pv(r).1 == pv(r).0 * out.den) by (nonlinear_arith)
            requires
                n2 as int * (da as int) == (na as int) * (d2 as int),
                out.den == d2 as int,
                out.num == if neg { -(n2 as int) } else { n2 as int },
                pv(r).0 == if neg { -(na as int) } else { na as int },
                pv(r).1 == da as int,
        ;
    }
    out
}

impl Rat {
    /// The rational zero.
    pub fn zero() -> (r: Rat)
        ensures
            rat_wf(r),
            r.num == 0,
            r.den == 1,
    {
        Rat { num: 0, den: 1 }
    }

    /// The rational one.
    pub fn one() -> (r: Rat)
        ensures
            rat_wf(r),
            r.num == 1,
            r.den == 1,
    {
        Rat { num: 1, den: 1 }
    }

    /// An integer as a rational.
    pub fn from_int(n: i64) -> (r: Rat)
        ensures
            rat_wf(r),
            pv(r) == (n as int, 1int),
    {
        Rat { num: n as i128, den: 1 }
    }

    /// A rational from a numerator and a denominator; `None` when the
    /// denominator is zero or a component is the unrepresentable minimum.
    pub fn new(num: i128, den: i128) -> (r: Option<Rat>)
        ensures
            r is Some ==> rat_wf(r->Some_0) && rat_has(r->Some_0, (num as int, den as int)),
            den != 0 && num > i128::MIN && den > i128::MIN ==> r is Some,
    {
        if den == 0 || num == i128::MIN || den == i128::MIN {
            return None;
        }
        let (n2, d2): (i128, i128) = if den < 0 { (-num, -den) } else { (num, den) };
        let out = reduce(Rat { num: n2, den: d2 });
        proof {
            assert(out.num * den as int == num as int * out.den) by (nonlinear_arith)
                requires
                    out.num * d2 as int == n2 as int * out.den,
                    (n2 as int == num as int && d2 as int == den as int)
                        || (n2 as int == -(num as int) && d2 as int == -(den as int)),
            ;
        }
        Some(out)
    }

    /// Exact negation; never fails.
    pub fn neg(self) -> (r: Rat)
        requires
            rat_wf(self),
        ensures
            rat_wf(r),
            rat_has(r, pneg(pv(self))),
    {
        Rat { num: -self.num, den: self.den }
    }

    /// Exact sum; `None` only on `i128` overflow.
    pub fn add(self, rhs: Rat) -> (r: Option<Rat>)
        requires
            rat_wf(self),
            rat_wf(rhs),
        ensures
            r is Some ==> rat_wf(r->Some_0) && rat_has(r->Some_0, padd(pv(self), pv(rhs))),
            r is Some ==> vstd::math::abs(r->Some_0.num as int)
                <= vstd::math::abs(self.num as int) * rhs.den
                    + vstd::math::abs(rhs.num as int) * self.den,
            r is Some ==> r->Some_0.den as int <= self.den as int * rhs.den as int,
            add_fits(pv(self), pv(rhs)) ==> r is Some,
            r is None ==> !add_fits(pv(self), pv(rhs)),
    {
        let p1 = match self.num.checked_mul(rhs.den) {
            Some(v) => v,
            None => { return None; },
        };
        let p2 = match rhs.num.checked_mul(self.den) {
            Some(v) => v,
            None => { return None; },
        };
        let n = match p1.checked_add(p2) {
            Some(v) => v,
            None => { return None; },
        };
        let d = match self.den.checked_mul(rhs.den) {
            Some(v) => v,
            None => { return None; },
        };
        if n == i128::MIN {
            return None;
        }
        proof {
            lemma_mul_strictly_positive(self.den as int, rhs.den as int);
            assert(vstd::math::abs(p1 as int)
                == vstd::math::abs(self.num as int) * rhs.den as int) by (nonlinear_arith)
                requires p1 as int == self.num as int * rhs.den as int && rhs.den > 0;
            assert(vstd::math::abs(p2 as int)
                == vstd::math::abs(rhs.num as int) * self.den as int) by (nonlinear_arith)
                requires p2 as int == rhs.num as int * self.den as int && self.den > 0;
        }
        Some(reduce(Rat { num: n, den: d }))
    }

    /// Exact difference; `None` only on `i128` overflow.
    pub fn sub(self, rhs: Rat) -> (r: Option<Rat>)
        requires
            rat_wf(self),
            rat_wf(rhs),
        ensures
            r is Some ==> rat_wf(r->Some_0) && rat_has(r->Some_0, psub(pv(self), pv(rhs))),
            r is Some ==> vstd::math::abs(r->Some_0.num as int)
                <= vstd::math::abs(self.num as int) * rhs.den
                    + vstd::math::abs(rhs.num as int) * self.den,
            r is Some ==> r->Some_0.den as int <= self.den as int * rhs.den as int,
            sub_fits(pv(self), pv(rhs)) ==> r is Some,
            r is None ==> !sub_fits(pv(self), pv(rhs)),
    {
        let p1 = match self.num.checked_mul(rhs.den) {
            Some(v) => v,
            None => { return None; },
        };
        let p2 = match rhs.num.checked_mul(self.den) {
            Some(v) => v,
            None => { return None; },
        };
        let n = match p1.checked_sub(p2) {
            Some(v) => v,
            None => { return None; },
        };
        let d = match self.den.checked_mul(rhs.den) {
            Some(v) => v,
            None => { return None; },
        };
        if n == i128::MIN {
            return None;
        }
        proof {
            lemma_mul_strictly_positive(self.den as int, rhs.den as int);
            assert(vstd::math::abs(p1 as int)
                == vstd::math::abs(self.num as int) * rhs.den as int) by (nonlinear_arith)
                requires p1 as int == self.num as int * rhs.den as int && rhs.den > 0;
            assert(vstd::math::abs(p2 as int)
                == vstd::math::abs(rhs.num as int) * self.den as int) by (nonlinear_arith)
                requires p2 as int == rhs.num as int * self.den as int && self.den > 0;
        }
        Some(reduce(Rat { num: n, den: d }))
    }

    /// Exact product; `None` only on `i128` overflow.
    pub fn mul(self, rhs: Rat) -> (r: Option<Rat>)
        requires
            rat_wf(self),
            rat_wf(rhs),
        ensures
            r is Some ==> rat_wf(r->Some_0) && rat_has(r->Some_0, pmul(pv(self), pv(rhs))),
            r is Some ==> vstd::math::abs(r->Some_0.num as int)
                <= vstd::math::abs(self.num as int * rhs.num as int),
            r is Some ==> r->Some_0.den as int <= self.den as int * rhs.den as int,
            mul_fits(pv(self), pv(rhs)) ==> r is Some,
            r is None ==> !mul_fits(pv(self), pv(rhs)),
    {
        let n = match self.num.checked_mul(rhs.num) {
            Some(v) => v,
            None => { return None; },
        };
        let d = match self.den.checked_mul(rhs.den) {
            Some(v) => v,
            None => { return None; },
        };
        if n == i128::MIN {
            return None;
        }
        proof {
            lemma_mul_strictly_positive(self.den as int, rhs.den as int);
        }
        Some(reduce(Rat { num: n, den: d }))
    }

    /// Exact quotient; `None` on a zero divisor or on `i128` overflow.
    pub fn div(self, rhs: Rat) -> (r: Option<Rat>)
        requires
            rat_wf(self),
            rat_wf(rhs),
        ensures
            r is Some ==> rat_wf(r->Some_0) && rat_has(r->Some_0, pdiv(pv(self), pv(rhs))),
            r is Some ==> vstd::math::abs(r->Some_0.num as int)
                <= vstd::math::abs(self.num as int * rhs.den as int),
            r is Some ==> r->Some_0.den as int
                <= vstd::math::abs(self.den as int * rhs.num as int),
            rhs.num == 0 ==> r is None,
            rhs.num != 0 && div_fits(pv(self), pv(rhs)) ==> r is Some,
            r is None ==> rhs.num == 0 || !div_fits(pv(self), pv(rhs)),
    {
        if rhs.num == 0 {
            return None;
        }
        let n = match self.num.checked_mul(rhs.den) {
            Some(v) => v,
            None => { return None; },
        };
        let d = match self.den.checked_mul(rhs.num) {
            Some(v) => v,
            None => { return None; },
        };
        if n == i128::MIN || d == i128::MIN {
            return None;
        }
        let (n2, d2): (i128, i128) = if d < 0 { (-n, -d) } else { (n, d) };
        proof {
            if rhs.num > 0 {
                lemma_mul_strictly_positive(self.den as int, rhs.num as int);
            } else {
                lemma_mul_strictly_positive(self.den as int, -(rhs.num as int));
                assert(self.den as int * -(rhs.num as int) == -(self.den as int * rhs.num as int))
                    by (nonlinear_arith);
            }
        }
        let out = reduce(Rat { num: n2, den: d2 });
        proof {
            assert(vstd::math::abs(n2 as int)
                == vstd::math::abs(self.num as int * rhs.den as int));
            assert(d2 as int == vstd::math::abs(self.den as int * rhs.num as int));
            assert(out.num * pdiv(pv(self), pv(rhs)).1 == pdiv(pv(self), pv(rhs)).0 * out.den)
                by (nonlinear_arith)
                requires
                    out.num * d2 as int == n2 as int * out.den,
                    n2 as int == if d < 0 { -(n as int) } else { n as int },
                    d2 as int == if d < 0 { -(d as int) } else { d as int },
                    n as int == self.num as int * rhs.den as int,
                    d as int == self.den as int * rhs.num as int,
                    rhs.num != 0,
                    self.den > 0,
                    pdiv(pv(self), pv(rhs)) == if rhs.num as int >= 0 {
                        (self.num as int * rhs.den as int, self.den as int * rhs.num as int)
                    } else {
                        (0 - self.num as int * rhs.den as int, 0 - self.den as int * rhs.num as int)
                    },
            ;
        }
        Some(out)
    }

    /// Value order (`self <= rhs`); `None` only on `i128` overflow.
    pub fn le(self, rhs: Rat) -> (r: Option<bool>)
        requires
            rat_wf(self),
            rat_wf(rhs),
        ensures
            r is Some ==> (r->Some_0 <==> ple(pv(self), pv(rhs))),
            in_rng(pv(self).0 * pv(rhs).1) && in_rng(pv(rhs).0 * pv(self).1) ==> r is Some,
            r is None ==> !(in_rng(pv(self).0 * pv(rhs).1) && in_rng(pv(rhs).0 * pv(self).1)),
    {
        let p1 = match self.num.checked_mul(rhs.den) {
            Some(v) => v,
            None => { return None; },
        };
        let p2 = match rhs.num.checked_mul(self.den) {
            Some(v) => v,
            None => { return None; },
        };
        Some(p1 <= p2)
    }

    /// Value equality test; `None` only on `i128` overflow.
    pub fn eq_val(self, rhs: Rat) -> (r: Option<bool>)
        requires
            rat_wf(self),
            rat_wf(rhs),
        ensures
            r is Some ==> (r->Some_0 <==> peq(pv(self), pv(rhs))),
            in_rng(pv(self).0 * pv(rhs).1) && in_rng(pv(rhs).0 * pv(self).1) ==> r is Some,
            r is None ==> !(in_rng(pv(self).0 * pv(rhs).1) && in_rng(pv(rhs).0 * pv(self).1)),
    {
        let p1 = match self.num.checked_mul(rhs.den) {
            Some(v) => v,
            None => { return None; },
        };
        let p2 = match rhs.num.checked_mul(self.den) {
            Some(v) => v,
            None => { return None; },
        };
        Some(p1 == p2)
    }
}

/// Reciprocal of a fraction pair, sign normalized into the numerator.
pub open spec fn pinv(p: (int, int)) -> (int, int) {
    if p.0 >= 0 {
        (p.1, p.0)
    } else {
        (0 - p.1, 0 - p.0)
    }
}

/// Componentwise power of a fraction pair.
pub open spec fn ppow(p: (int, int), k: nat) -> (int, int) {
    (pow(p.0, k), pow(p.1, k))
}

/// All intermediate powers up to exponent `k` fit in `i128`.
pub open spec fn pow_fits(p: (int, int), k: nat) -> bool {
    forall|i: nat| 1 <= i <= k ==> -(i128::MAX as int) <= #[trigger] pow(p.0, i) <= i128::MAX
        && pow(p.1, i) <= i128::MAX
}

impl Rat {
    /// Nonnegative integer power by iterated multiplication.
    fn pow_nonneg(self, k: u32) -> (r: Option<Rat>)
        requires
            rat_wf(self),
        ensures
            r is Some ==> rat_wf(r->Some_0) && rat_has(r->Some_0, ppow(pv(self), k as nat)),
            pow_fits(pv(self), k as nat) ==> r is Some,
    {
        let ghost p = pv(self);
        let mut acc = Rat::one();
        let mut i: u32 = 0;
        proof {
            vstd::arithmetic::power::lemma_pow0(p.0);
            vstd::arithmetic::power::lemma_pow0(p.1);
        }
        while i < k
            invariant
                rat_wf(self),
                rat_wf(acc),
                p == pv(self),
                i <= k,
                rat_has(acc, ppow(p, i as nat)),
                vstd::math::abs(acc.num as int) <= vstd::math::abs(pow(p.0, i as nat)),
                acc.den as int <= pow(p.1, i as nat),
                pow(p.1, i as nat) > 0,
            decreases k - i,
        {
            proof {
                vstd::arithmetic::power::lemma_pow_positive(p.1, (i + 1) as nat);
                vstd::arithmetic::power::lemma_pow_adds(p.0, i as nat, 1);
                vstd::arithmetic::power::lemma_pow_adds(p.1, i as nat, 1);
                vstd::arithmetic::power::lemma_pow1(p.0);
                vstd::arithmetic::power::lemma_pow1(p.1);
                assert(pow(p.0, (i + 1) as nat) == pow(p.0, i as nat) * p.0);
                assert(pow(p.1, (i + 1) as nat) == pow(p.1, i as nat) * p.1);
                assert(pow(p.0, (i + 1) as nat) == p.0 * pow(p.0, i as nat)) by (nonlinear_arith)
                    requires pow(p.0, (i + 1) as nat) == pow(p.0, i as nat) * p.0;
                assert(pow(p.1, (i + 1) as nat) == p.1 * pow(p.1, i as nat)) by (nonlinear_arith)
                    requires pow(p.1, (i + 1) as nat) == pow(p.1, i as nat) * p.1;
                assert(vstd::math::abs(acc.num as int) * vstd::math::abs(p.0)
                    <= vstd::math::abs(pow(p.0, i as nat)) * vstd::math::abs(p.0))
                    by (nonlinear_arith)
                    requires
                        vstd::math::abs(acc.num as int) <= vstd::math::abs(pow(p.0, i as nat)),
                        vstd::math::abs(p.0) >= 0,
                ;
                assert(vstd::math::abs(acc.num as int * p.0)
                    == vstd::math::abs(acc.num as int) * vstd::math::abs(p.0)) by (nonlinear_arith);
                assert(vstd::math::abs(pow(p.0, i as nat) * p.0)
                    == vstd::math::abs(pow(p.0, i as nat)) * vstd::math::abs(p.0))
                    by (nonlinear_arith);
                assert(acc.den as int * p.1 <= pow(p.1, i as nat) * p.1) by (nonlinear_arith)
                    requires
                        acc.den as int <= pow(p.1, i as nat),
                        p.1 > 0,
                ;
                if pow_fits(p, k as nat) {
                    assert(-(i128::MAX as int) <= pow(p.0, (i + 1) as nat) <= i128::MAX);
                    assert(pow(p.1, (i + 1) as nat) <= i128::MAX);
                }
            }
            let next = match acc.mul(self) {
                Some(v) => v,
                None => {
                    proof {
                        if pow_fits(p, k as nat) {
                            assert(mul_fits(pv(acc), pv(self)));
                        }
                    }
                    return None;
                },
            };
            proof {
                lemma_pmul_peq(pv(acc), ppow(p, i as nat), pv(self), pv(self));
                lemma_peq_trans(pv(next), pmul(pv(acc), pv(self)), pmul(ppow(p, i as nat), p));
                assert(pmul(ppow(p, i as nat), p) == ppow(p, (i + 1) as nat));
            }
            acc = next;
            i = i + 1;
        }
        Some(acc)
    }

    /// Integer power. A negative exponent inverts first; `None` on a zero
    /// base with a negative exponent or on `i128` overflow.
    pub fn pow(self, k: i32) -> (r: Option<Rat>)
        requires
            rat_wf(self),
        ensures
            k >= 0 && r is Some ==> rat_wf(r->Some_0)
                && rat_has(r->Some_0, ppow(pv(self), k as nat)),
            k >= 0 && pow_fits(pv(self), k as nat) ==> r is Some,
            k < 0 && r is Some ==> rat_wf(r->Some_0)
                && rat_has(r->Some_0, ppow(pinv(pv(self)), (-(k as int)) as nat)),
            k < 0 && self.num == 0 ==> r is None,
            k < 0 && self.num != 0 && pow_fits(pinv(pv(self)), (-(k as int)) as nat)
                ==> r is Some,
    {
        if k >= 0 {
            self.pow_nonneg(k as u32)
        } else if self.num == 0 {
            None
        } else {
            let inv = if self.num > 0 {
                Rat { num: self.den, den: self.num }
            } else {
                Rat { num: -self.den, den: -self.num }
            };
            proof {
                assert(pv(inv) == pinv(pv(self)));
            }
            let n: u32 = (-(k as i64)) as u32;
            inv.pow_nonneg(n)
        }
    }
}

/// Grid onto which rounded increments and rounded sum terms fall: a
/// rounded value is an integer multiple of `1 / QUANT`.
pub const QUANT: i128 = 1000000000;

/// Grid used by [`Rat::sqrt_floor`]: the result is exact to within
/// `1 / SQRT_SCALE`.
pub const SQRT_SCALE: i128 = 1000000;

/// `r * r <= p` as values (`p` with a positive denominator).
pub open spec fn sqrt_lb(r: Rat, p: (int, int)) -> bool {
    (r.num * r.num) * p.1 <= p.0 * (r.den * r.den)
}

/// `p < (r + 1/s)^2` as values (`p` with a positive denominator).
pub open spec fn sqrt_ub(r: Rat, p: (int, int), s: int) -> bool {
    p.0 * ((r.den * s) * (r.den * s)) < ((r.num * s + r.den) * (r.num * s + r.den)) * p.1
}

/// The intermediate product of [`Rat::sqrt_floor`] fits in `i128`.
pub open spec fn sqrt_fits(p: (int, int), s: int) -> bool {
    in_rng(p.0 * (s * s))
}

/// Square root bounds proved against a rational holding a value transfer
/// to any pair with that value.
#[verifier::rlimit(50)]
pub proof fn lemma_sqrt_bounds_transfer(m: Rat, d: Rat, p: (int, int), s: int)
    requires
        rat_wf(m),
        rat_wf(d),
        rat_has(d, p),
        p.1 > 0,
        sqrt_lb(m, pv(d)),
        sqrt_ub(m, pv(d), s),
    ensures
        sqrt_lb(m, p),
        sqrt_ub(m, p, s),
{
    assert(((m.num * m.num) * p.1) * (d.den as int)
        <= (p.0 * (m.den * m.den)) * (d.den as int)) by (nonlinear_arith)
        requires
            (m.num * m.num) * d.den <= d.num * (m.den * m.den),
            d.num * p.1 == p.0 * d.den,
            p.1 > 0,
            d.den > 0,
    ;
    lemma_mul_cancel_le((m.num * m.num) * p.1, p.0 * (m.den * m.den), d.den as int);
    assert((p.0 * ((m.den * s) * (m.den * s))) * (d.den as int)
        < (((m.num * s + m.den) * (m.num * s + m.den)) * p.1) * (d.den as int))
        by (nonlinear_arith)
        requires
            d.num * ((m.den * s) * (m.den * s))
                < ((m.num * s + m.den) * (m.num * s + m.den)) * d.den,
            d.num * p.1 == p.0 * d.den,
            p.1 > 0,
            d.den > 0,
    ;
    assert(p.0 * ((m.den * s) * (m.den * s))
        < ((m.num * s + m.den) * (m.num * s + m.den)) * p.1) by (nonlinear_arith)
        requires
            (p.0 * ((m.den * s) * (m.den * s))) * (d.den as int)
                < (((m.num * s + m.den) * (m.num * s + m.den)) * p.1) * (d.den as int),
            d.den > 0,
    ;
}

/// Floor square root of an unsigned integer.
fn isqrt(n: u128) -> (r: u128)
    ensures
        r * r <= n,
        n < (r + 1) * (r + 1),
{
    if n == 0 {
        return 0;
    }
    let mut lo: u128 = 0;
    let mut hi: u128 = 18446744073709551616u128;
    proof {
        assert(n < 18446744073709551616int * 18446744073709551616int);
    }
    while lo + 1 < hi
        invariant
            lo < hi,
            hi <= 18446744073709551616u128,
            lo * lo <= n,
            n < hi * hi,
        decreases hi - lo,
    {
        let mid = lo + (hi - lo) / 2;
        proof {
            assert(mid * mid <= 18446744073709551615int * 18446744073709551615int)
                by (nonlinear_arith)
                requires 0 <= mid <= 18446744073709551615int;
        }
        let sq = mid * mid;
        if sq <= n {
            lo = mid;
        } else {
            hi = mid;
        }
    }
    lo
}

/// A product of a nonnegative and a positive factor is nonnegative.
proof fn lemma_prod_sign(a: int, b: int)
    requires
        a >= 0,
        b > 0,
    ensures
        a * b >= 0,
{
    assert(a * b >= 0) by (nonlinear_arith)
        requires a >= 0 && b > 0;
}

impl Rat {
    /// Floor-style square root on the `1 / SQRT_SCALE` grid: the result `r`
    /// satisfies `r^2 <= self < (r + 1/SQRT_SCALE)^2`. `None` only on
    /// `i128` overflow.
    pub fn sqrt_floor(self) -> (r: Option<Rat>)
        requires
            rat_wf(self),
            self.num >= 0,
        ensures
            r is Some ==> rat_wf(r->Some_0),
            r is Some ==> r->Some_0.num >= 0,
            r is Some ==> r->Some_0.den == SQRT_SCALE,
            r is Some ==> sqrt_lb(r->Some_0, pv(self)),
            r is Some ==> sqrt_ub(r->Some_0, pv(self), SQRT_SCALE as int),
            r is Some ==> r->Some_0.num * r->Some_0.num
                <= pv(self).0 * ((SQRT_SCALE as int) * (SQRT_SCALE as int)),
            sqrt_fits(pv(self), SQRT_SCALE as int) ==> r is Some,
    {
        let s2: i128 = SQRT_SCALE * SQRT_SCALE;
        let t1 = match self.num.checked_mul(s2) {
            Some(v) => v,
            None => { return None; },
        };
        proof {
            lemma_prod_sign(self.num as int, s2 as int);
        }
        let t: u128 = (t1 as u128) / (self.den as u128);
        proof {
            lemma_fundamental_div_mod(t1 as int, self.den as int);
            lemma_mod_bound(t1 as int, self.den as int);
            lemma_div_nonincreasing(t1 as int, self.den as int);
            lemma_div_pos_is_pos(t1 as int, self.den as int);
            let dd = self.den as int;
            let tt = t as int;
            assert(tt * dd <= t1 as int && (t1 as int) < (tt + 1) * dd) by (nonlinear_arith)
                requires
                    t1 as int == dd * tt + ((t1 as int) % dd),
                    0 <= (t1 as int) % dd < dd,
                    dd > 0,
            ;
        }
        let k128 = isqrt(t);
        proof {
            if k128 as int > 0xffff_ffff_ffff_ffff {
                assert(k128 * k128 > t) by (nonlinear_arith)
                    requires
                        k128 as int > 0xffff_ffff_ffff_ffff,
                        t as int <= i128::MAX,
                ;
                assert(false);
            }
        }
        let k: i128 = k128 as i128;
        let out = Rat { num: k, den: SQRT_SCALE };
        proof {
            let nn = self.num as int;
            let dd = self.den as int;
            let s = SQRT_SCALE as int;
            let kk = k as int;
            let tt = t as int;
            // lower bound: k^2 * dd <= t * dd <= nn * s^2
            assert(kk * kk <= tt);
            assert((kk * kk) * dd <= tt * dd) by (nonlinear_arith)
                requires kk * kk <= tt && dd > 0;
            assert(tt * dd <= nn * (s * s));
            assert(sqrt_lb(out, pv(self))) by (nonlinear_arith)
                requires
                    (kk * kk) * dd <= nn * (s * s),
                    out.num == kk,
                    out.den == s,
                    pv(self) == (nn, dd),
                    sqrt_lb(out, pv(self)) == ((out.num * out.num) * dd
                        <= nn * (out.den * out.den)),
            ;
            // upper bound: nn * s^2 < (t + 1) * dd <= (k + 1)^2 * dd
            assert(tt < (kk + 1) * (kk + 1));
            assert((tt + 1) * dd <= ((kk + 1) * (kk + 1)) * dd) by (nonlinear_arith)
                requires tt + 1 <= (kk + 1) * (kk + 1) && dd > 0;
            assert(nn * (s * s) < ((kk + 1) * (kk + 1)) * dd);
            assert((nn * (s * s)) * (s * s) < (((kk + 1) * (kk + 1)) * dd) * (s * s))
                by (nonlinear_arith)
                requires nn * (s * s) < ((kk + 1) * (kk + 1)) * dd && s > 0;
            assert(sqrt_ub(out, pv(self), s)) by (nonlinear_arith)
                requires
                    (nn * (s * s)) * (s * s) < (((kk + 1) * (kk + 1)) * dd) * (s * s),
                    out.num == kk,
                    out.den == s,
                    s > 0,
                    pv(self) == (nn, dd),
                    sqrt_ub(out, pv(self), s) == (nn * ((out.den * s) * (out.den * s))
                        < ((out.num * s + out.den) * (out.num * s + out.den)) * dd),
            ;
            // numerator envelope for callers
            assert(kk * kk <= nn * (s * s)) by (nonlinear_arith)
                requires
                    kk * kk <= tt,
                    tt * dd <= nn * (s * s),
                    dd >= 1,
                    tt >= 0,
            ;
        }
        Some(out)
    }

    /// Round down onto the grid of multiples of `1 / q`: the result is the
    /// unique grid point `r` with `r <= self < r + 1/q`. `None` only on
    /// `i128` overflow.
    pub fn quantize_floor(self, q: i128) -> (r: Option<Rat>)
        requires
            rat_wf(self),
            q > 0,
        ensures
            r is Some ==> rat_wf(r->Some_0),
            r is Some ==> r->Some_0.den == q,
            r is Some ==> r->Some_0.num * self.den as int <= self.num as int * q,
            r is Some ==> self.num as int * q < (r->Some_0.num + 1) * self.den as int,
            in_rng(pv(self).0 * q) ==> r is Some,
    {
        let t = match self.num.checked_mul(q) {
            Some(v) => v,
            None => { return None; },
        };
        if t == i128::MIN {
            return None;
        }
        let k: i128;
        let du: u128 = self.den as u128;
        if t >= 0 {
            let ku: u128 = (t as u128) / du;
            proof {
                lemma_fundamental_div_mod(t as int, du as int);
                lemma_mod_bound(t as int, du as int);
                lemma_div_nonincreasing(t as int, du as int);
                lemma_div_pos_is_pos(t as int, du as int);
                let dd = self.den as int;
                let kk = ku as int;
                assert(kk * dd <= t as int && (t as int) < (kk + 1) * dd)
                    by (nonlinear_arith)
                    requires
                        t as int == dd * kk + ((t as int) % dd),
                        0 <= (t as int) % dd < dd,
                        dd > 0,
                ;
            }
            k = ku as i128;
        } else {
            let x = -t;
            let ju: u128 = ((x - 1) as u128) / du + 1;
            proof {
                lemma_fundamental_div_mod((x - 1) as int, du as int);
                lemma_mod_bound((x - 1) as int, du as int);
                lemma_div_pos_is_pos((x - 1) as int, du as int);
                lemma_div_nonincreasing((x - 1) as int, du as int);
            }
            let j = ju as i128;
            k = -j;
            proof {
                let dd = self.den as int;
                let q0 = ((x - 1) as int) / dd;
                assert((k as int) * dd <= t as int && (t as int) < ((k as int) + 1) * dd)
                    by (nonlinear_arith)
                    requires
                        k as int == -(q0 + 1),
                        (x as int) - 1 == dd * q0 + (((x as int) - 1) % dd),
                        0 <= ((x as int) - 1) % dd < dd,
                        x as int == -(t as int),
                        dd > 0,
                ;
            }
        }
        Some(Rat { num: k, den: q })
    }
}

} // verus!
