//! Exact decimal numbers: a mantissa `m` and a scale `s` standing for the
//! rational number `m / 10^s`. All ledger arithmetic is exact; operations
//! that would exceed the mantissa's capacity report failure instead of
//! rounding.

use vstd::prelude::*;
use vstd::arithmetic::power::{pow, lemma_pow_adds, lemma_pow_positive, lemma_pow0, lemma_pow1};
use vstd::math::abs;

verus! {

/// `10^e` as a mathematical integer.
pub open spec fn pow10(e: nat) -> int {
    pow(10, e)
}

pub proof fn lemma_pow10_pos(e: nat)
    ensures
        pow10(e) > 0,
{
    lemma_pow_positive(10, e);
}

pub proof fn lemma_pow10_adds(a: nat, b: nat)
    ensures
        pow10(a + b) == pow10(a) * pow10(b),
{
    lemma_pow_adds(10, a, b);
}

pub proof fn lemma_pow10_zero()
    ensures
        pow10(0) == 1,
{
    lemma_pow0(10);
}

pub proof fn lemma_pow10_one()
    ensures
        pow10(1) == 10,
{
    lemma_pow1(10);
}

/// A rational value written as (numerator, scale): the number `p.0 / 10^p.1`.
/// These pairs are the mathematical model every contract speaks of.
pub open spec fn req(a: (int, nat), b: (int, nat)) -> bool {
    a.0 * pow10(b.1) == b.0 * pow10(a.1)
}

/// Exact sum of two rational pairs, over the common denominator.
pub open spec fn padd(a: (int, nat), b: (int, nat)) -> (int, nat) {
    (a.0 * pow10(b.1) + b.0 * pow10(a.1), a.1 + b.1)
}

/// Exact product of two rational pairs.
pub open spec fn pmul(a: (int, nat), b: (int, nat)) -> (int, nat) {
    (a.0 * b.0, a.1 + b.1)
}

/// Exact negation of a rational pair.
pub open spec fn pneg(a: (int, nat)) -> (int, nat) {
    (-a.0, a.1)
}

pub proof fn lemma_req_refl(a: (int, nat))
    ensures
        req(a, a),
{
}

pub proof fn lemma_req_sym(a: (int, nat), b: (int, nat))
    requires
        req(a, b),
    ensures
        req(b, a),
{
}

pub proof fn lemma_req_trans(a: (int, nat), b: (int, nat), c: (int, nat))
    requires
        req(a, b),
        req(b, c),
    ensures
        req(a, c),
{
    lemma_pow10_pos(a.1);
    lemma_pow10_pos(b.1);
    lemma_pow10_pos(c.1);
    assert(a.0 * pow10(b.1) * pow10(c.1) == b.0 * pow10(a.1) * pow10(c.1)) by (nonlinear_arith)
        requires
            a.0 * pow10(b.1) == b.0 * pow10(a.1),
    ;
    assert(b.0 * pow10(c.1) * pow10(a.1) == c.0 * pow10(b.1) * pow10(a.1)) by (nonlinear_arith)
        requires
            b.0 * pow10(c.1) == c.0 * pow10(b.1),
    ;
    assert(a.0 * pow10(c.1) * pow10(b.1) == c.0 * pow10(a.1) * pow10(b.1)) by (nonlinear_arith)
        requires
            a.0 * pow10(b.1) * pow10(c.1) == b.0 * pow10(a.1) * pow10(c.1),
            b.0 * pow10(c.1) * pow10(a.1) == c.0 * pow10(b.1) * pow10(a.1),
    ;
    assert(a.0 * pow10(c.1) == c.0 * pow10(a.1)) by (nonlinear_arith)
        requires
            a.0 * pow10(c.1) * pow10(b.1) == c.0 * pow10(a.1) * pow10(b.1),
            pow10(b.1) > 0,
    ;
}

/// Sum does not depend on the order of its operands.
pub proof fn lemma_padd_comm(a: (int, nat), b: (int, nat))
    ensures
        padd(a, b) == padd(b, a),
{
}

/// Sum does not depend on grouping.
pub proof fn lemma_padd_assoc(a: (int, nat), b: (int, nat), c: (int, nat))
    ensures
        padd(padd(a, b), c) == padd(a, padd(b, c)),
{
    lemma_pow10_adds(a.1, b.1);
    lemma_pow10_adds(b.1, c.1);
    let pa = pow10(a.1);
    let pb = pow10(b.1);
    let pc = pow10(c.1);
    assert((a.0 * pb + b.0 * pa) * pc == a.0 * pb * pc + b.0 * pa * pc) by (nonlinear_arith);
    assert((b.0 * pc + c.0 * pb) * pa == b.0 * pa * pc + c.0 * (pa * pb)) by (nonlinear_arith);
    assert(a.0 * pb * pc == a.0 * (pb * pc)) by (nonlinear_arith);
}

/// Replacing either operand by an equal value gives an equal sum.
#[verifier::rlimit(100)]
pub proof fn lemma_padd_congruence(a: (int, nat), a2: (int, nat), b: (int, nat), b2: (int, nat))
    requires
        req(a, a2),
        req(b, b2),
    ensures
        req(padd(a, b), padd(a2, b2)),
{
    lemma_pow10_adds(a2.1, b2.1);
    lemma_pow10_adds(a.1, b.1);
    let pa = pow10(a.1);
    let pb = pow10(b.1);
    let pa2 = pow10(a2.1);
    let pb2 = pow10(b2.1);
    assert((a.0 * pb + b.0 * pa) * (pa2 * pb2) == (a.0 * pb) * (pa2 * pb2) + (b.0 * pa) * (pa2
        * pb2)) by (nonlinear_arith);
    assert((a.0 * pb) * (pa2 * pb2) == (a.0 * pa2) * (pb * pb2)) by (nonlinear_arith);
    assert((b.0 * pa) * (pa2 * pb2) == (b.0 * pb2) * (pa * pa2)) by (nonlinear_arith);
    assert((a.0 * pa2) * (pb * pb2) == (a2.0 * pa) * (pb * pb2)) by (nonlinear_arith)
        requires
            a.0 * pa2 == a2.0 * pa,
    ;
    assert((b.0 * pb2) * (pa * pa2) == (b2.0 * pb) * (pa * pa2)) by (nonlinear_arith)
        requires
            b.0 * pb2 == b2.0 * pb,
    ;
    assert((a2.0 * pb2 + b2.0 * pa2) * (pa * pb) == (a2.0 * pb2) * (pa * pb) + (b2.0 * pa2) * (pa
        * pb)) by (nonlinear_arith);
    assert((a2.0 * pb2) * (pa * pb) == (a2.0 * pa) * (pb * pb2)) by (nonlinear_arith);
    assert((b2.0 * pa2) * (pa * pb) == (b2.0 * pb) * (pa * pa2)) by (nonlinear_arith);
}

pub proof fn lemma_pneg_congruence(a: (int, nat), b: (int, nat))
    requires
        req(a, b),
    ensures
        req(pneg(a), pneg(b)),
{
    assert((-a.0) * pow10(b.1) == (-b.0) * pow10(a.1)) by (nonlinear_arith)
        requires
            a.0 * pow10(b.1) == b.0 * pow10(a.1),
    ;
}

/// An exact decimal: the rational number `m / 10^s`, kept in canonical form
/// (no trailing zero digits in the mantissa while the scale is positive, and
/// zero is written with scale zero), so that equal values have equal fields.
#[derive(Clone, Copy, Debug, PartialEq, Eq, Hash, Structural)]
pub struct Decimal {
    m: i128,
    s: u32,
}

impl Decimal {
    #[verifier::type_invariant]
    spec fn inv(self) -> bool {
        &&& self.m > i128::MIN
        &&& (self.s > 0 ==> abs(self.m as int) % 10 != 0)
        &&& (self.m == 0 ==> self.s == 0)
    }

    /// The mantissa as a mathematical integer.
    pub closed spec fn num(self) -> int {
        self.m as int
    }

    /// The scale: the value is `num / 10^scale`.
    pub closed spec fn scale(self) -> nat {
        self.s as nat
    }

    /// The rational pair this decimal stands for.
    pub open spec fn pair(self) -> (int, nat) {
        (self.num(), self.scale())
    }

    /// The zero value.
    pub fn zero() -> (r: Decimal)
        ensures
            r.pair() == (0int, 0nat),
    {
        Decimal { m: 0, s: 0 }
    }

    /// The value `i` (an integer, scale zero).
    pub fn from_int(i: i64) -> (r: Decimal)
        ensures
            r.pair() == (i as int, 0nat),
    {
        Decimal { m: i as i128, s: 0 }
    }

    /// The exact value `m / 10^s`, brought to canonical form.
    pub fn new(m: i128, s: u32) -> (r: Decimal)
        requires
            m != i128::MIN,
        ensures
            req(r.pair(), (m as int, s as nat)),
            r.scale() <= s as nat,
    {
        if m == 0 {
            let r = Decimal { m: 0, s: 0 };
            proof {
                lemma_pow10_pos(s as nat);
                lemma_pow10_zero();
                assert(r.num() == 0);
                assert(r.num() * pow10(s as nat) == 0);
                assert((m as int) * pow10(r.scale()) == 0);
            }
            return r;
        }
        let neg: bool = m < 0;
        let mut a: u128 = if neg {
            (-m) as u128
        } else {
            m as u128
        };
        let mut k: u32 = s;
        proof {
            lemma_pow10_pos(s as nat);
        }
        while k > 0 && a % 10 == 0
            invariant
                1 <= a <= i128::MAX as u128,
                k <= s,
                neg == (m < 0),
                m != 0,
                m != i128::MIN,
                (if neg {
                    -(a as int)
                } else {
                    a as int
                }) * pow10(s as nat) == m * pow10(k as nat),
            decreases k,
        {
            proof {
                lemma_pow10_pos((k - 1) as nat);
                lemma_pow10_one();
                lemma_pow10_adds(1, (k - 1) as nat);
                assert(a == 10 * (a / 10)) by (nonlinear_arith)
                    requires
                        a % 10 == 0,
                        a >= 1,
                ;
                let av: int = if neg {
                    -(a as int)
                } else {
                    a as int
                };
                let av2: int = if neg {
                    -((a / 10) as int)
                } else {
                    (a / 10) as int
                };
                assert(av == 10 * av2);
                assert(av2 * pow10(s as nat) * 10 == m * (10 * pow10((k - 1) as nat)))
                    by (nonlinear_arith)
                    requires
                        av * pow10(s as nat) == m * pow10(k as nat),
                        av == 10 * av2,
                        pow10(k as nat) == 10 * pow10((k - 1) as nat),
                ;
                assert(av2 * pow10(s as nat) == m * pow10((k - 1) as nat)) by (nonlinear_arith)
                    requires
                        av2 * pow10(s as nat) * 10 == m * (10 * pow10((k - 1) as nat)),
                ;
            }
            a = a / 10;
            k = k - 1;
        }
        let mr: i128 = if neg {
            -(a as i128)
        } else {
            a as i128
        };
        proof {
            assert(abs(mr as int) == a as int);
        }
        Decimal { m: mr, s: k }
    }

    /// Whether this decimal is exactly zero. Zero is always stored with
    /// scale zero, so a zero decimal's pair is exactly `(0, 0)`.
    pub fn is_zero(&self) -> (r: bool)
        ensures
            r == (self.num() == 0),
            r ==> self.pair() == (0int, 0nat),
    {
        proof {
            use_type_invariant(&*self);
        }
        self.m == 0
    }

    /// Whether this decimal is strictly negative.
    pub fn is_negative(&self) -> (r: bool)
        ensures
            r == (self.num() < 0),
    {
        self.m < 0
    }

    /// Whether this decimal is strictly positive.
    pub fn is_positive(&self) -> (r: bool)
        ensures
            r == (self.num() > 0),
    {
        self.m > 0
    }

    /// The mantissa and scale, for callers that render or convert the value.
    pub fn parts(&self) -> (r: (i128, u32))
        ensures
            r.0 as int == self.num(),
            r.1 as nat == self.scale(),
    {
        (self.m, self.s)
    }

    /// The exact negation.
    pub fn negated(&self) -> (r: Decimal)
        ensures
            r.pair() == pneg(self.pair()),
    {
        proof {
            use_type_invariant(&*self);
        }
        Decimal { m: -self.m, s: self.s }
    }

    /// The absolute value.
    pub fn abs_value(&self) -> (r: Decimal)
        ensures
            r.pair() == (if self.num() < 0 {
                pneg(self.pair())
            } else {
                self.pair()
            }),
    {
        if self.is_negative() {
            self.negated()
        } else {
            proof {
                use_type_invariant(&*self);
            }
            Decimal { m: self.m, s: self.s }
        }
    }

    /// Two decimals stand for the same number exactly when their canonical
    /// fields agree.
    pub fn eq_value(&self, other: &Decimal) -> (r: bool)
        ensures
            r == req(self.pair(), other.pair()),
    {
        proof {
            use_type_invariant(&*self);
            use_type_invariant(&*other);
            if req(self.pair(), other.pair()) {
                if self.s <= other.s {
                    lemma_canonical_le(*self, *other);
                } else {
                    lemma_req_sym(self.pair(), other.pair());
                    lemma_canonical_le(*other, *self);
                }
            }
        }
        self.m == other.m && self.s == other.s
    }

    /// Exact sum; `None` when the result would exceed the mantissa capacity.
    pub fn checked_add(&self, other: &Decimal) -> (r: Option<Decimal>)
        ensures
            r.is_some() == add_fits(*self, *other),
            r matches Some(v) ==> req(v.pair(), padd(self.pair(), other.pair())),
            r matches Some(v) ==> v.scale() <= (if self.scale() >= other.scale() {
                self.scale()
            } else {
                other.scale()
            }),
    {
        proof {
            use_type_invariant(&*self);
            use_type_invariant(&*other);
            lemma_pow10_zero();
        }
        if self.s >= other.s {
            let r = add_parts(self.m, self.s, other.m, other.s);
            proof {
                assert(self.num() * pow10(0) == self.num());
                assert(add_fits(*self, *other) == parts_fit(
                    self.num(),
                    self.scale(),
                    other.num(),
                    other.scale(),
                ));
            }
            r
        } else {
            let r = add_parts(other.m, other.s, self.m, self.s);
            proof {
                lemma_padd_comm(self.pair(), other.pair());
                assert(other.num() * pow10(0) == other.num());
                assert(add_fits(*self, *other) == parts_fit(
                    other.num(),
                    other.scale(),
                    self.num(),
                    self.scale(),
                ));
            }
            r
        }
    }

    /// Exact product; `None` when the result would exceed the mantissa
    /// capacity or the scale range.
    pub fn checked_mul(&self, other: &Decimal) -> (r: Option<Decimal>)
        ensures
            r.is_some() == mul_fits(*self, *other),
            r matches Some(v) ==> req(v.pair(), pmul(self.pair(), other.pair())),
            r matches Some(v) ==> v.scale() <= self.scale() + other.scale(),
    {
        proof {
            use_type_invariant(&*self);
            use_type_invariant(&*other);
        }
        let m = match self.m.checked_mul(other.m) {
            Some(x) => x,
            None => {
                return None;
            },
        };
        if m == i128::MIN {
            return None;
        }
        let s = match self.s.checked_add(other.s) {
            Some(x) => x,
            None => {
                return None;
            },
        };
        let r = Decimal::new(m, s);
        proof {
            lemma_req_trans(r.pair(), (m as int, s as nat), pmul(self.pair(), other.pair()));
        }
        Some(r)
    }
}

/// Whether the exact sum of two rational pairs stays within the mantissa
/// capacity once both are written over their common denominator.
pub open spec fn pfits(a: (int, nat), b: (int, nat)) -> bool {
    let s: nat = if a.1 >= b.1 {
        a.1
    } else {
        b.1
    };
    let av = a.0 * pow10((s - a.1) as nat);
    let bv = b.0 * pow10((s - b.1) as nat);
    &&& -(i128::MAX as int) <= av <= i128::MAX as int
    &&& -(i128::MAX as int) <= bv <= i128::MAX as int
    &&& -(i128::MAX as int) <= av + bv <= i128::MAX as int
}

/// Whether the exact sum of `a` and `b` stays within the mantissa capacity
/// once both are written over their common denominator.
pub open spec fn add_fits(a: Decimal, b: Decimal) -> bool {
    pfits(a.pair(), b.pair())
}

/// Whether the exact product of `a` and `b` stays within the mantissa and
/// scale capacity.
pub open spec fn mul_fits(a: Decimal, b: Decimal) -> bool {
    &&& -(i128::MAX as int) <= a.num() * b.num() <= i128::MAX as int
    &&& a.scale() + b.scale() <= u32::MAX as nat
}

/// Equal canonical-form decimals are field-equal: the representation of a
/// value is unique.
proof fn lemma_canonical_le(a: Decimal, b: Decimal)
    requires
        a.inv(),
        b.inv(),
        req(a.pair(), b.pair()),
        a.s <= b.s,
    ensures
        a.m == b.m,
        a.s == b.s,
{
    let d: nat = (b.s - a.s) as nat;
    let pa = pow10(a.s as nat);
    let pd = pow10(d);
    lemma_pow10_adds(a.s as nat, d);
    lemma_pow10_pos(a.s as nat);
    lemma_pow10_pos(d);
    assert((a.m as int) * (pa * pd) == (b.m as int) * pa);
    assert((a.m as int) * pd == b.m as int) by (nonlinear_arith)
        requires
            (a.m as int) * (pa * pd) == (b.m as int) * pa,
            pa > 0,
    ;
    if d == 0 {
        lemma_pow10_zero();
    } else {
        if a.m == 0 {
            assert(b.m == 0);
            assert(b.s == 0);
            assert(false);
        } else {
            lemma_pow10_one();
            lemma_pow10_adds(1, (d - 1) as nat);
            let t = (a.m as int) * pow10((d - 1) as nat);
            assert(b.m as int == 10 * t) by (nonlinear_arith)
                requires
                    (a.m as int) * pow10(d) == b.m as int,
                    pow10(d) == 10 * pow10((d - 1) as nat),
                    t == (a.m as int) * pow10((d - 1) as nat),
            ;
            assert(b.s > 0);
            assert(abs(b.m as int) % 10 != 0);
            if t >= 0 {
                assert(abs(b.m as int) == t * 10);
                vstd::arithmetic::div_mod::lemma_mod_multiples_basic(t, 10);
            } else {
                assert(abs(b.m as int) == (-t) * 10);
                vstd::arithmetic::div_mod::lemma_mod_multiples_basic(-t, 10);
            }
            assert(false);
        }
    }
}

/// Exact sum of `mh / 10^sh` and `ml / 10^sl` where `sl <= sh`, by scaling
/// the smaller-scale mantissa up to the common denominator.
fn add_parts(mh: i128, sh: u32, ml: i128, sl: u32) -> (r: Option<Decimal>)
    requires
        sl <= sh,
        mh > i128::MIN,
        ml > i128::MIN,
    ensures
        r.is_some() == parts_fit(mh as int, sh as nat, ml as int, sl as nat),
        r matches Some(v) ==> req(v.pair(), padd((mh as int, sh as nat), (ml as int, sl as nat))),
        r matches Some(v) ==> v.scale() <= sh as nat,
{
    let ghost d: nat = (sh - sl) as nat;
    let ghost target: int = (ml as int) * pow10(d);
    let mut acc: i128 = ml;
    let mut j: u32 = sh - sl;
    proof {
        lemma_pow10_zero();
        lemma_pow10_pos(d);
    }
    while j > 0
        invariant
            j <= sh - sl,
            acc > i128::MIN,
            d == (sh - sl) as nat,
            target == (ml as int) * pow10(d),
            (acc as int) * pow10(j as nat) == target,
        decreases j,
    {
        proof {
            lemma_pow10_pos((j - 1) as nat);
            lemma_pow10_one();
            lemma_pow10_adds(1, (j - 1) as nat);
        }
        let next = match acc.checked_mul(10) {
            Some(x) => x,
            None => {
                proof {
                    lemma_add_parts_unfit(acc as int, j as nat, ml as int, d);
                }
                return None;
            },
        };
        if next == i128::MIN {
            proof {
                lemma_add_parts_unfit(acc as int, j as nat, ml as int, d);
            }
            return None;
        }
        proof {
            assert((next as int) * pow10((j - 1) as nat) == target) by (nonlinear_arith)
                requires
                    next == acc * 10,
                    (acc as int) * pow10(j as nat) == target,
                    pow10(j as nat) == 10 * pow10((j - 1) as nat),
            ;
        }
        acc = next;
        j = j - 1;
    }
    proof {
        assert(acc as int == target);
    }
    let sum = match acc.checked_add(mh) {
        Some(x) => x,
        None => {
            return None;
        },
    };
    if sum == i128::MIN {
        return None;
    }
    let r = Decimal::new(sum, sh);
    proof {
        let a = (mh as int, sh as nat);
        let b = (ml as int, sl as nat);
        lemma_pow10_adds(sl as nat, d);
        lemma_pow10_adds(sh as nat, sl as nat);
        assert(a.1 + b.1 == (sh as nat) + (sl as nat));
        assert((sum as int) * pow10((sh as nat) + (sl as nat)) == ((mh as int) * pow10(sl as nat)
            + (ml as int) * pow10(sh as nat)) * pow10(sh as nat)) by (nonlinear_arith)
            requires
                sum as int == (mh as int) + (ml as int) * pow10(d),
                pow10((sh as nat) + (sl as nat)) == pow10(sh as nat) * pow10(sl as nat),
                pow10(sh as nat) == pow10(sl as nat) * pow10(d),
        ;
        assert(req((sum as int, sh as nat), padd(a, b)));
        lemma_req_trans(r.pair(), (sum as int, sh as nat), padd(a, b));
    }
    Some(r)
}

/// If scaling the mantissa up overflows midway, the aligned value is out of
/// capacity.
proof fn lemma_add_parts_unfit(acc: int, j: nat, ml: int, d: nat)
    requires
        j >= 1,
        acc * pow10(j) == ml * pow10(d),
        acc * 10 > i128::MAX || acc * 10 < -(i128::MAX as int),
    ensures
        !(-(i128::MAX as int) <= ml * pow10(d) <= i128::MAX as int),
{
    lemma_pow10_pos(j);
    lemma_pow10_pos((j - 1) as nat);
    lemma_pow10_one();
    lemma_pow10_adds(1, (j - 1) as nat);
    assert(acc * pow10(j) == (acc * 10) * pow10((j - 1) as nat)) by (nonlinear_arith)
        requires
            pow10(j) == 10 * pow10((j - 1) as nat),
    ;
    if acc * 10 > i128::MAX {
        assert((acc * 10) * pow10((j - 1) as nat) >= acc * 10) by (nonlinear_arith)
            requires
                acc * 10 > 0,
                pow10((j - 1) as nat) >= 1,
        ;
    } else {
        assert((acc * 10) * pow10((j - 1) as nat) <= acc * 10) by (nonlinear_arith)
            requires
                acc * 10 < 0,
                pow10((j - 1) as nat) >= 1,
        ;
    }
}

/// Capacity condition for `add_parts`: the scaled-up low mantissa and the
/// sum both stay within range.
pub open spec fn parts_fit(mh: int, sh: nat, ml: int, sl: nat) -> bool {
    let lv = ml * pow10((sh - sl) as nat);
    &&& -(i128::MAX as int) <= lv <= i128::MAX as int
    &&& -(i128::MAX as int) <= lv + mh <= i128::MAX as int
}

/// The product `q * b`, named so that divisibility can be quantified.
pub open spec fn times(q: int, b: int) -> int {
    q * b
}

/// `a` is `q * b` for some `q` within the mantissa range.
pub open spec fn is_multiple_within(a: int, b: int) -> bool {
    exists|q: int|
        #[trigger] times(q, b) == a && -(i128::MAX as int) <= q <= i128::MAX as int
}

impl Decimal {
    /// Exact quotient; `None` when no exact decimal within this capacity
    /// equals it (a repeating expansion, or a mantissa out of range).
    /// Success is promised at least whenever the divisor's mantissa divides
    /// the dividend's within range and the divisor's scale does not exceed
    /// the dividend's.
    pub fn checked_div(&self, other: &Decimal) -> (r: Option<Decimal>)
        requires
            other.num() != 0,
        ensures
            r matches Some(v) ==> req(pmul(v.pair(), other.pair()), self.pair()),
            (other.scale() <= self.scale() && is_multiple_within(self.num(), other.num()))
                ==> r.is_some(),
    {
        proof {
            use_type_invariant(&*self);
            use_type_invariant(&*other);
        }
        let neg: bool = (self.m < 0) != (other.m < 0);
        let mut cur: u128 = if self.m < 0 {
            (-self.m) as u128
        } else {
            self.m as u128
        };
        let den: u128 = if other.m < 0 {
            (-other.m) as u128
        } else {
            other.m as u128
        };
        let mut k: u32 = 0;
        proof {
            lemma_pow10_zero();
            assert(den as int == abs(other.num()));
            assert(cur as int == abs(self.num()) * pow10(0));
        }
        while cur % den != 0
            invariant
                den >= 1,
                den as int == abs(other.num()),
                other.num() != 0,
                cur as int == abs(self.num()) * pow10(k as nat),
                k <= 200,
                k >= 1 ==> (abs(self.num()) as int) % (den as int) != 0,
            decreases 200 - k,
        {
            proof {
                if k == 0 {
                    lemma_pow10_zero();
                    assert(cur as int == abs(self.num()));
                }
                assert((abs(self.num()) as int) % (den as int) != 0);
            }
            if k >= 200 || cur > u128::MAX / 10 {
                proof {
                    if is_multiple_within(self.num(), other.num()) {
                        lemma_sufficient_unpack(*self, *other);
                    }
                }
                return None;
            }
            proof {
                lemma_pow10_adds(k as nat, 1);
                lemma_pow10_one();
                assert((cur * 10) as int == abs(self.num()) * (pow10(k as nat) * 10))
                    by (nonlinear_arith)
                    requires
                        cur as int == abs(self.num()) * pow10(k as nat),
                ;
            }
            cur = cur * 10;
            k = k + 1;
        }
        let qa: u128 = cur / den;
        proof {
            vstd::arithmetic::div_mod::lemma_fundamental_div_mod(cur as int, den as int);
            assert((qa as int) * (den as int) == cur as int) by (nonlinear_arith)
                requires
                    den >= 1,
                    qa as int == (cur as int) / (den as int),
                    (cur as int) % (den as int) == 0,
                    cur as int == (den as int) * ((cur as int) / (den as int)) + (cur as int) % (
                    den as int),
            ;
        }
        if qa > i128::MAX as u128 {
            proof {
                if is_multiple_within(self.num(), other.num()) {
                    lemma_sufficient_unpack(*self, *other);
                    if k == 0 {
                        lemma_pow10_zero();
                        vstd::arithmetic::div_mod::lemma_fundamental_div_mod_converse(
                            cur as int,
                            den as int,
                            qa as int,
                            0,
                        );
                    }
                }
            }
            return None;
        }
        let q: i128 = if neg {
            -(qa as i128)
        } else {
            qa as i128
        };
        proof {
            lemma_div_sign_combine(self.num(), other.num(), q as int, qa as int, k as nat);
        }
        let sk = match self.s.checked_add(k) {
            Some(x) => x,
            None => {
                proof {
                    assert(k >= 1);
                    if is_multiple_within(self.num(), other.num()) {
                        lemma_sufficient_unpack(*self, *other);
                    }
                }
                return None;
            },
        };
        if sk >= other.s {
            let v = Decimal::new(q, sk - other.s);
            proof {
                lemma_div_scale_down(*self, *other, v, q as int, k as nat);
            }
            Some(v)
        } else {
            proof {
                lemma_pow10_zero();
                assert(!(other.scale() <= self.scale() && is_multiple_within(
                    self.num(),
                    other.num(),
                ))) by {
                    if other.scale() <= self.scale() && is_multiple_within(
                        self.num(),
                        other.num(),
                    ) {
                        lemma_sufficient_unpack(*self, *other);
                        assert(false);
                    }
                }
            }
            let mut qq: i128 = q;
            let mut j: u32 = other.s - sk;
            let ghost d0: nat = (other.s - sk) as nat;
            proof {
                lemma_pow10_pos(d0);
            }
            while j > 0
                invariant
                    qq > i128::MIN,
                    other.num() != 0,
                    !(other.scale() <= self.scale() && is_multiple_within(
                        self.num(),
                        other.num(),
                    )),
                    (qq as int) * pow10(j as nat) == (q as int) * pow10(d0),
                decreases j,
            {
                proof {
                    lemma_pow10_one();
                    lemma_pow10_adds(1, (j - 1) as nat);
                }
                let nxt = match qq.checked_mul(10) {
                    Some(x) => x,
                    None => {
                        return None;
                    },
                };
                if nxt == i128::MIN {
                    return None;
                }
                proof {
                    assert((nxt as int) * pow10((j - 1) as nat) == (qq as int) * (10 * pow10(
                        (j - 1) as nat,
                    ))) by (nonlinear_arith)
                        requires
                            nxt as int == (qq as int) * 10,
                    ;
                }
                qq = nxt;
                j = j - 1;
            }
            let v = Decimal::new(qq, 0);
            proof {
                lemma_pow10_zero();
                assert((qq as int) * 1 == (q as int) * pow10(d0));
                lemma_div_scale_up(*self, *other, v, q as int, qq as int, k as nat, d0);
            }
            Some(v)
        }
    }
}

/// Under the promised sufficient condition, the dividend's mantissa is an
/// in-range multiple of the divisor's.
proof fn lemma_sufficient_unpack(a: Decimal, b: Decimal)
    requires
        b.num() != 0,
        is_multiple_within(a.num(), b.num()),
    ensures
        (abs(a.num()) as int) % (abs(b.num()) as int) == 0,
        (abs(a.num()) as int) / (abs(b.num()) as int) <= i128::MAX as int,
{
    let q = choose|q: int|
        #[trigger] times(q, b.num()) == a.num() && -(i128::MAX as int) <= q <= i128::MAX as int;
    assert(q * b.num() == a.num());
    assert(abs(q) * abs(b.num()) == abs(a.num())) by (nonlinear_arith)
        requires
            q * b.num() == a.num(),
    ;
    vstd::arithmetic::div_mod::lemma_fundamental_div_mod_converse(
        abs(a.num()) as int,
        abs(b.num()) as int,
        abs(q) as int,
        0,
    );
}

/// Combines the unsigned quotient with the operand signs.
proof fn lemma_div_sign_combine(am: int, bm: int, q: int, qa: int, k: nat)
    requires
        bm != 0,
        qa >= 0,
        qa * abs(bm) == abs(am) * pow10(k),
        q == (if (am < 0) != (bm < 0) {
            -qa
        } else {
            qa
        }),
    ensures
        q * bm == am * pow10(k),
{
    lemma_pow10_pos(k);
    if am < 0 && bm < 0 {
        assert(qa * (-bm) == (-am) * pow10(k) ==> qa * bm == am * pow10(k)) by (nonlinear_arith);
    } else if am < 0 {
        assert(qa * bm == (-am) * pow10(k) ==> (-qa) * bm == am * pow10(k)) by (nonlinear_arith);
    } else if bm < 0 {
        assert(qa * (-bm) == am * pow10(k) ==> (-qa) * bm == am * pow10(k)) by (nonlinear_arith);
    }
}

/// Quotient correctness when the result scale is reduced by the divisor's.
proof fn lemma_div_scale_down(a: Decimal, b: Decimal, v: Decimal, q: int, k: nat)
    requires
        b.num() != 0,
        q * b.num() == a.num() * pow10(k),
        a.scale() + k >= b.scale(),
        req(v.pair(), (q, (a.scale() + k - b.scale()) as nat)),
    ensures
        req(pmul(v.pair(), b.pair()), a.pair()),
{
    let s2: nat = (a.scale() + k - b.scale()) as nat;
    lemma_pow10_pos(s2);
    lemma_pow10_adds(v.scale(), b.scale());
    lemma_pow10_adds(a.scale(), k);
    lemma_pow10_adds(b.scale(), s2);
    let vn = v.num();
    let vs = pow10(v.scale());
    let an = a.num();
    let pa = pow10(a.scale());
    let bn = b.num();
    let pb = pow10(b.scale());
    let ps2 = pow10(s2);
    let pk = pow10(k);
    assert(((vn * bn) * pa) * ps2 == (vn * ps2) * (bn * pa)) by (nonlinear_arith);
    assert((vn * ps2) * (bn * pa) == (q * vs) * (bn * pa)) by (nonlinear_arith)
        requires
            vn * ps2 == q * vs,
    ;
    assert((q * vs) * (bn * pa) == (q * bn) * (vs * pa)) by (nonlinear_arith);
    assert((q * bn) * (vs * pa) == (an * pk) * (vs * pa)) by (nonlinear_arith)
        requires
            q * bn == an * pk,
    ;
    assert((an * pk) * (vs * pa) == (an * vs) * (pa * pk)) by (nonlinear_arith);
    assert(pa * pk == pb * ps2);
    assert((an * vs) * (pb * ps2) == ((an * (vs * pb))) * ps2) by (nonlinear_arith);
    assert(((vn * bn) * pa) * ps2 == (an * (vs * pb)) * ps2);
    assert((vn * bn) * pa == an * (vs * pb)) by (nonlinear_arith)
        requires
            ((vn * bn) * pa) * ps2 == (an * (vs * pb)) * ps2,
            ps2 > 0,
    ;
}

/// Quotient correctness when the mantissa is scaled up to an integer
/// result.
proof fn lemma_div_scale_up(a: Decimal, b: Decimal, v: Decimal, q: int, qq: int, k: nat, d0: nat)
    requires
        b.num() != 0,
        q * b.num() == a.num() * pow10(k),
        a.scale() + k + d0 == b.scale(),
        qq == q * pow10(d0),
        req(v.pair(), (qq, 0nat)),
    ensures
        req(pmul(v.pair(), b.pair()), a.pair()),
{
    lemma_pow10_zero();
    lemma_pow10_adds(v.scale(), b.scale());
    lemma_pow10_adds(a.scale(), k);
    lemma_pow10_adds((a.scale() + k) as nat, d0);
    let vn = v.num();
    let vs = pow10(v.scale());
    let an = a.num();
    let pa = pow10(a.scale());
    let bn = b.num();
    let pb = pow10(b.scale());
    let pk = pow10(k);
    let pd = pow10(d0);
    assert(vn * 1 == qq * vs);
    assert((vn * bn) * pa == (qq * vs) * (bn * pa)) by (nonlinear_arith)
        requires
            vn == qq * vs,
    ;
    assert((qq * vs) * (bn * pa) == ((q * pd) * vs) * (bn * pa)) by (nonlinear_arith)
        requires
            qq == q * pd,
    ;
    assert(((q * pd) * vs) * (bn * pa) == (q * bn) * ((pd * vs) * pa)) by (nonlinear_arith);
    assert((q * bn) * ((pd * vs) * pa) == (an * pk) * ((pd * vs) * pa)) by (nonlinear_arith)
        requires
            q * bn == an * pk,
    ;
    assert((an * pk) * ((pd * vs) * pa) == (an * vs) * ((pa * pk) * pd)) by (nonlinear_arith);
    assert((pa * pk) * pd == pb);
    assert((an * vs) * pb == an * (vs * pb)) by (nonlinear_arith);
}

/// Scaling by a power of ten scales the absolute value.
pub proof fn lemma_abs_mul_pow10(x: int, e: nat)
    ensures
        abs(x * pow10(e)) == abs(x) * pow10(e),
{
    lemma_pow10_pos(e);
    if x >= 0 {
        assert(x * pow10(e) >= 0) by (nonlinear_arith)
            requires
                x >= 0,
                pow10(e) > 0,
        ;
    } else {
        assert(x * pow10(e) < 0) by (nonlinear_arith)
            requires
                x < 0,
                pow10(e) > 0,
        ;
        assert(-(x * pow10(e)) == (-x) * pow10(e)) by (nonlinear_arith);
    }
}

/// Equal rationals are zero together.
pub proof fn lemma_req_zero_iff(x: (int, nat), y: (int, nat))
    requires
        req(x, y),
    ensures
        (x.0 == 0) == (y.0 == 0),
{
    lemma_pow10_pos(x.1);
    lemma_pow10_pos(y.1);
    assert(x.0 == 0 ==> y.0 * pow10(x.1) == 0);
    assert(y.0 * pow10(x.1) == 0 ==> y.0 == 0) by (nonlinear_arith)
        requires
            pow10(x.1) > 0,
    ;
    assert(y.0 == 0 ==> x.0 * pow10(y.1) == 0);
    assert(x.0 * pow10(y.1) == 0 ==> x.0 == 0) by (nonlinear_arith)
        requires
            pow10(y.1) > 0,
    ;
}

/// A value bound carries across equal rationals: bounds are stated per unit
/// of the denominator.
pub proof fn lemma_req_abs_bound(x: (int, nat), y: (int, nat), b: int)
    requires
        req(x, y),
        0 <= b,
        abs(y.0) <= b * pow10(y.1),
    ensures
        abs(x.0) <= b * pow10(x.1),
{
    lemma_pow10_pos(x.1);
    lemma_pow10_pos(y.1);
    lemma_abs_mul_pow10(x.0, y.1);
    lemma_abs_mul_pow10(y.0, x.1);
    assert(abs(x.0) * pow10(y.1) == abs(y.0) * pow10(x.1));
    assert(abs(y.0) * pow10(x.1) <= (b * pow10(y.1)) * pow10(x.1)) by (nonlinear_arith)
        requires
            abs(y.0) <= b * pow10(y.1),
            pow10(x.1) > 0,
    ;
    assert((b * pow10(y.1)) * pow10(x.1) == (b * pow10(x.1)) * pow10(y.1)) by (nonlinear_arith);
    assert(abs(x.0) <= b * pow10(x.1)) by (nonlinear_arith)
        requires
            abs(x.0) * pow10(y.1) <= (b * pow10(x.1)) * pow10(y.1),
            pow10(y.1) > 0,
    ;
}

/// A bound for the exact sum, from bounds on the operands.
pub proof fn lemma_padd_abs_bound(a: (int, nat), b: (int, nat), v: (int, nat), ba: int, bb: int)
    requires
        req(v, padd(a, b)),
        0 <= ba,
        0 <= bb,
        abs(a.0) <= ba * pow10(a.1),
        abs(b.0) <= bb * pow10(b.1),
    ensures
        abs(v.0) <= (ba + bb) * pow10(v.1),
{
    lemma_pow10_adds(a.1, b.1);
    lemma_pow10_pos(a.1);
    lemma_pow10_pos(b.1);
    lemma_abs_mul_pow10(a.0, b.1);
    lemma_abs_mul_pow10(b.0, a.1);
    assert(abs(a.0 * pow10(b.1) + b.0 * pow10(a.1)) <= abs(a.0) * pow10(b.1) + abs(b.0) * pow10(
        a.1,
    ));
    assert(abs(a.0) * pow10(b.1) <= (ba * pow10(a.1)) * pow10(b.1)) by (nonlinear_arith)
        requires
            abs(a.0) <= ba * pow10(a.1),
            pow10(b.1) > 0,
    ;
    assert(abs(b.0) * pow10(a.1) <= (bb * pow10(b.1)) * pow10(a.1)) by (nonlinear_arith)
        requires
            abs(b.0) <= bb * pow10(b.1),
            pow10(a.1) > 0,
    ;
    assert((ba * pow10(a.1)) * pow10(b.1) + (bb * pow10(b.1)) * pow10(a.1) == (ba + bb) * (pow10(
        a.1,
    ) * pow10(b.1))) by (nonlinear_arith);
    lemma_req_abs_bound(v, padd(a, b), ba + bb);
}

/// Bounded operands at modest scales always fit: their exact sum stays
/// within the mantissa capacity.
pub proof fn lemma_pfits_bounded(a: (int, nat), b: (int, nat), ba: int, bb: int)
    requires
        0 <= ba,
        0 <= bb,
        ba + bb <= 1000000000000000000000000000000,
        abs(a.0) <= ba * pow10(a.1),
        abs(b.0) <= bb * pow10(b.1),
        a.1 <= 8,
        b.1 <= 8,
    ensures
        pfits(a, b),
{
    let s: nat = if a.1 >= b.1 {
        a.1
    } else {
        b.1
    };
    lemma_pow10_adds(a.1, (s - a.1) as nat);
    lemma_pow10_adds(b.1, (s - b.1) as nat);
    lemma_pow10_pos(a.1);
    lemma_pow10_pos(b.1);
    lemma_pow10_pos((s - a.1) as nat);
    lemma_pow10_pos((s - b.1) as nat);
    lemma_abs_mul_pow10(a.0, (s - a.1) as nat);
    lemma_abs_mul_pow10(b.0, (s - b.1) as nat);
    assert(pow10(8) == 100000000) by {
        reveal_with_fuel(vstd::arithmetic::power::pow, 9);
    }
    vstd::arithmetic::power::lemma_pow_increases(10, s, 8);
    let av = a.0 * pow10((s - a.1) as nat);
    let bv = b.0 * pow10((s - b.1) as nat);
    assert(abs(av) <= ba * pow10(s)) by (nonlinear_arith)
        requires
            abs(a.0) <= ba * pow10(a.1),
            abs(av) == abs(a.0) * pow10((s - a.1) as nat),
            pow10(s) == pow10(a.1) * pow10((s - a.1) as nat),
            pow10((s - a.1) as nat) > 0,
            0 <= ba,
    ;
    assert(abs(bv) <= bb * pow10(s)) by (nonlinear_arith)
        requires
            abs(b.0) <= bb * pow10(b.1),
            abs(bv) == abs(b.0) * pow10((s - b.1) as nat),
            pow10(s) == pow10(b.1) * pow10((s - b.1) as nat),
            pow10((s - b.1) as nat) > 0,
            0 <= bb,
    ;
    assert(ba * pow10(s) + bb * pow10(s) <= (ba + bb) * 100000000) by (nonlinear_arith)
        requires
            pow10(s) <= 100000000,
            pow10(s) > 0,
            0 <= ba,
            0 <= bb,
    ;
    assert((ba + bb) * 100000000 <= 100000000000000000000000000000000000000) by (nonlinear_arith)
        requires
            0 <= ba + bb <= 1000000000000000000000000000000,
    ;
}

} // verus!
