//! Unsigned 256-bit integers, held as four 64-bit words.
use vstd::arithmetic::div_mod::lemma_fundamental_div_mod_converse;
use vstd::prelude::*;

verus! {

/// One 64-bit word: 2^64.
pub open spec fn word() -> nat {
    0x1_0000_0000_0000_0000nat
}

/// 2^256, one more than the largest value a `U256` holds.
pub open spec fn modulus256() -> nat {
    word() * word() * word() * word()
}

/// An unsigned 256-bit integer; `w0` is the least significant word.
#[derive(Clone, Copy, Debug, PartialEq, Eq, Structural)]
pub struct U256 {
    pub w0: u64,
    pub w1: u64,
    pub w2: u64,
    pub w3: u64,
}

/// A 320-bit intermediate: a `U256` and one more word above it.
#[derive(Clone, Copy, Debug)]
struct Wide {
    lo: U256,
    hi: u64,
}

/// Value of the three upper words.
pub open spec fn upper3(a: U256) -> nat {
    a.w1 as nat + word() * (a.w2 as nat + word() * a.w3 as nat)
}

/// Value of the two upper words.
pub open spec fn upper2(a: U256) -> nat {
    a.w2 as nat + word() * a.w3 as nat
}

impl U256 {
    /// The number this value stands for.
    pub open spec fn value(self) -> nat {
        self.w0 as nat + word() * upper3(self)
    }

    pub fn zero() -> (r: U256)
        ensures
            r.value() == 0,
    {
        U256 { w0: 0, w1: 0, w2: 0, w3: 0 }
    }

    /// Whether `self <= other` as numbers.
    pub fn le(&self, other: &U256) -> (r: bool)
        ensures
            r == (self.value() <= other.value()),
    {
        proof {
            lemma_value_lex(*self, *other);
        }
        if self.w3 != other.w3 {
            self.w3 < other.w3
        } else if self.w2 != other.w2 {
            self.w2 < other.w2
        } else if self.w1 != other.w1 {
            self.w1 < other.w1
        } else {
            self.w0 <= other.w0
        }
    }

    /// Whether `self < other` as numbers.
    pub fn lt(&self, other: &U256) -> (r: bool)
        ensures
            r == (self.value() < other.value()),
    {
        !other.le(self)
    }

    /// Equality as numbers.
    pub fn is_equal(&self, other: &U256) -> (r: bool)
        ensures
            r == (self.value() == other.value()),
            r == (*self == *other),
    {
        proof {
            lemma_value_lex(*self, *other);
        }
        self.w0 == other.w0 && self.w1 == other.w1 && self.w2 == other.w2 && self.w3 == other.w3
    }

    /// The smaller of two values.
    pub fn min(&self, other: &U256) -> (r: U256)
        ensures
            r.value() == if self.value() <= other.value() { self.value() } else { other.value() },
    {
        if self.le(other) {
            *self
        } else {
            *other
        }
    }
}

/// Value of a 320-bit intermediate, nested from the least significant word.
spec fn wide_value(x: Wide) -> nat {
    x.lo.w0 as nat + word() * (x.lo.w1 as nat + word() * (x.lo.w2 as nat + word() * (x.lo.w3 as nat
        + word() * x.hi as nat)))
}

/// The number `x` held between `lo` and `hi`, both included.
pub open spec fn clamp(x: nat, lo: nat, hi: nat) -> nat {
    if x < lo {
        lo
    } else if x > hi {
        hi
    } else {
        x
    }
}

proof fn lemma_wide_value(x: Wide)
    ensures
        wide_value(x) == x.lo.value() + modulus256() * x.hi,
{
    let w = word();
    let a = x.lo.w0 as nat;
    let b = x.lo.w1 as nat;
    let c = x.lo.w2 as nat;
    let d = x.lo.w3 as nat;
    let h = x.hi as nat;
    assert(a + w * (b + w * (c + w * (d + w * h))) == a + w * (b + w * (c + w * d)) + w * w * w * w
        * h) by (nonlinear_arith);
}

/// `x * m + carry`, split into a low and a high word.
fn mul_word(x: u64, m: u64, carry: u64) -> (r: (u64, u64))
    ensures
        r.0 as nat + word() * r.1 as nat == x as nat * m as nat + carry as nat,
{
    proof {
        let w = word();
        assert(x as nat * m as nat + carry as nat <= (w - 1) * (w - 1) + (w - 1)) by (nonlinear_arith)
            requires
                x < w,
                m < w,
                carry < w,
        ;
        assert((w - 1) * (w - 1) + (w - 1) < w * w) by (nonlinear_arith)
            requires
                w > 1,
        ;
    }
    let c: u128 = (x as u128) * (m as u128) + (carry as u128);
    let lo = (c % 0x1_0000_0000_0000_0000u128) as u64;
    let hi = c / 0x1_0000_0000_0000_0000u128;
    proof {
        let w = word();
        assert(c as nat == (c as nat % w) + w * (c as nat / w)) by (nonlinear_arith)
            requires
                w > 0,
        ;
        assert((c as nat / w) < w) by (nonlinear_arith)
            requires
                w > 0,
                c < w * w,
        ;
    }
    (lo, hi as u64)
}

/// `(r * 2^64 + x) / d` and its remainder.
fn div_word(r: u64, x: u64, d: u64) -> (res: (u64, u64))
    requires
        r < d,
    ensures
        res.1 < d,
        res.0 as nat * d as nat + res.1 as nat == r as nat * word() + x as nat,
{
    let w_exec: u128 = 0x1_0000_0000_0000_0000u128;
    proof {
        let w = word();
        assert(r as nat * w + (x as nat) < d as nat * w) by (nonlinear_arith)
            requires
                r < d,
                x < w,
        ;
        assert(d as nat * w <= w * w) by (nonlinear_arith)
            requires
                d < w,
        ;
    }
    let cur: u128 = (r as u128) * w_exec + (x as u128);
    let q = cur / (d as u128);
    let rem = cur % (d as u128);
    proof {
        let w = word();
        assert(cur as nat == (cur as nat / d as nat) * d as nat + cur as nat % d as nat)
            by (nonlinear_arith)
            requires
                d > 0,
        ;
        assert((cur as nat / d as nat) < w) by (nonlinear_arith)
            requires
                d > 0,
                cur < d as nat * w,
        ;
        assert((cur as nat % d as nat) < d) by (nonlinear_arith)
            requires
                d > 0,
        ;
    }
    (q as u64, rem as u64)
}

proof fn lemma_mul_step(k: nat, m: nat, x: nat, rest: nat, lo: nat, hi: nat)
    requires
        lo + word() * hi == m * x + k,
    ensures
        k + m * (x + word() * rest) == lo + word() * (hi + m * rest),
{
    let w = word();
    assert(k + m * (x + w * rest) == (m * x + k) + w * (m * rest)) by (nonlinear_arith);
    assert(lo + w * (hi + m * rest) == lo + w * hi + w * (m * rest)) by (nonlinear_arith);
}

proof fn lemma_div_step(t: nat, q_hi: nat, r: nat, x: nat, q: nat, r2: nat, d: nat)
    requires
        t == d * q_hi + r,
        q * d + r2 == r * word() + x,
    ensures
        x + word() * t == d * (q + word() * q_hi) + r2,
{
    let w = word();
    assert(x + w * (d * q_hi + r) == (r * w + x) + d * (w * q_hi)) by (nonlinear_arith);
    assert(d * (q + w * q_hi) == q * d + d * (w * q_hi)) by (nonlinear_arith);
}

/// `a * m` without loss.
fn mul_wide(a: &U256, m: u64) -> (r: Wide)
    ensures
        wide_value(r) == a.value() * m as nat,
{
    let (l0, c0) = mul_word(a.w0, m, 0);
    let (l1, c1) = mul_word(a.w1, m, c0);
    let (l2, c2) = mul_word(a.w2, m, c1);
    let (l3, c3) = mul_word(a.w3, m, c2);
    let r = Wide { lo: U256 { w0: l0, w1: l1, w2: l2, w3: l3 }, hi: c3 };
    proof {
        let mm = m as nat;
        lemma_mul_step(c2 as nat, mm, a.w3 as nat, 0, l3 as nat, c3 as nat);
        lemma_mul_step(c1 as nat, mm, a.w2 as nat, a.w3 as nat, l2 as nat, c2 as nat);
        lemma_mul_step(c0 as nat, mm, a.w1 as nat, upper2(*a), l1 as nat, c1 as nat);
        lemma_mul_step(0, mm, a.w0 as nat, upper3(*a), l0 as nat, c0 as nat);
        assert(a.value() * mm == mm * a.value()) by (nonlinear_arith);
    }
    r
}

/// `x / d`, truncated.
fn div_wide(x: &Wide, d: u64) -> (r: Wide)
    requires
        d > 0,
    ensures
        wide_value(r) == wide_value(*x) / d as nat,
{
    let q4 = x.hi / d;
    let r4 = x.hi % d;
    let (q3, r3) = div_word(r4, x.lo.w3, d);
    let (q2, r2) = div_word(r3, x.lo.w2, d);
    let (q1, r1) = div_word(r2, x.lo.w1, d);
    let (q0, r0) = div_word(r1, x.lo.w0, d);
    let r = Wide { lo: U256 { w0: q0, w1: q1, w2: q2, w3: q3 }, hi: q4 };
    proof {
        let dd = d as nat;
        let w = word();
        assert(x.hi as nat == (d as nat) * (q4 as nat) + (r4 as nat)) by (nonlinear_arith)
            requires
                q4 == x.hi / d,
                r4 == x.hi % d,
                d > 0,
        ;
        let t3 = x.lo.w3 as nat + w * x.hi as nat;
        let t2 = x.lo.w2 as nat + w * t3;
        let t1 = x.lo.w1 as nat + w * t2;
        let hi3 = q3 as nat + w * q4 as nat;
        let hi2 = q2 as nat + w * hi3;
        let hi1 = q1 as nat + w * hi2;
        lemma_div_step(x.hi as nat, q4 as nat, r4 as nat, x.lo.w3 as nat, q3 as nat, r3 as nat, dd);
        lemma_div_step(t3, hi3, r3 as nat, x.lo.w2 as nat, q2 as nat, r2 as nat, dd);
        lemma_div_step(t2, hi2, r2 as nat, x.lo.w1 as nat, q1 as nat, r1 as nat, dd);
        lemma_div_step(t1, hi1, r1 as nat, x.lo.w0 as nat, q0 as nat, r0 as nat, dd);
        let qv = q0 as nat + w * hi1;
        assert(wide_value(*x) == dd * qv + r0 as nat);
        assert(dd * qv == qv * dd) by (nonlinear_arith);
        lemma_fundamental_div_mod_converse(
            wide_value(*x) as int,
            dd as int,
            wide_value(r) as int,
            r0 as int,
        );
    }
    r
}

/// `t * m / d` truncated, then held within `[t / 4, t * 4]`.
pub fn scale_clamped(t: &U256, m: u64, d: u64) -> (r: U256)
    requires
        d > 0,
        4 * t.value() < modulus256(),
    ensures
        r.value() == clamp(t.value() * m as nat / d as nat, t.value() / 4, 4 * t.value()),
{
    let scaled = div_wide(&mul_wide(t, m), d);
    let quarter_wide = div_wide(&Wide { lo: *t, hi: 0 }, 4);
    let quarter = quarter_wide.lo;
    let four = mul_wide(t, 4);
    proof {
        lemma_wide_value(scaled);
        lemma_wide_value(Wide { lo: *t, hi: 0 });
        lemma_wide_value(quarter_wide);
        lemma_value_bound(quarter);
        assert(quarter_wide.hi == 0) by (nonlinear_arith)
            requires
                quarter.value() + modulus256() * quarter_wide.hi == t.value() / 4,
                t.value() < modulus256(),
        ;
        lemma_wide_value(four);
        lemma_value_bound(four.lo);
        lemma_value_bound(scaled.lo);
        assert(four.hi == 0) by (nonlinear_arith)
            requires
                four.lo.value() + modulus256() * four.hi == t.value() * 4,
                4 * t.value() < modulus256(),
        ;
    }
    if scaled.hi != 0 {
        proof {
            assert(modulus256() * scaled.hi >= modulus256()) by (nonlinear_arith)
                requires
                    scaled.hi > 0,
            ;
        }
        return four.lo;
    }
    if scaled.lo.lt(&quarter) {
        quarter
    } else if four.lo.lt(&scaled.lo) {
        four.lo
    } else {
        scaled.lo
    }
}

/// `hi * B + lo` orders lexicographically when both low parts are below `B`.
proof fn lemma_lex_step(a_hi: nat, a_lo: nat, b_hi: nat, b_lo: nat, b: nat)
    requires
        a_lo < b,
        b_lo < b,
    ensures
        a_hi < b_hi ==> a_lo + b * a_hi < b_lo + b * b_hi,
        a_hi == b_hi ==> (a_lo + b * a_hi <= b_lo + b * b_hi <==> a_lo <= b_lo),
        a_lo + b * a_hi == b_lo + b * b_hi ==> a_hi == b_hi && a_lo == b_lo,
{
    if a_hi < b_hi {
        assert(b * a_hi + b <= b * b_hi) by (nonlinear_arith)
            requires
                a_hi < b_hi,
        ;
    }
    if a_hi > b_hi {
        assert(b * b_hi + b <= b * a_hi) by (nonlinear_arith)
            requires
                a_hi > b_hi,
        ;
    }
}

/// Values compare as their words do, most significant first.
pub proof fn lemma_value_lex(a: U256, b: U256)
    ensures
        a.w3 != b.w3 ==> (a.value() <= b.value() <==> a.w3 < b.w3),
        a.w3 == b.w3 && a.w2 != b.w2 ==> (a.value() <= b.value() <==> a.w2 < b.w2),
        a.w3 == b.w3 && a.w2 == b.w2 && a.w1 != b.w1 ==> (a.value() <= b.value() <==> a.w1
            < b.w1),
        a.w3 == b.w3 && a.w2 == b.w2 && a.w1 == b.w1 ==> (a.value() <= b.value() <==> a.w0
            <= b.w0),
        a.value() == b.value() <==> a == b,
{
    let w = word();
    lemma_lex_step(a.w3 as nat, a.w2 as nat, b.w3 as nat, b.w2 as nat, w);
    lemma_upper2_bound(a);
    lemma_upper2_bound(b);
    lemma_lex_step(upper2(a), a.w1 as nat, upper2(b), b.w1 as nat, w);
    lemma_upper3_bound(a);
    lemma_upper3_bound(b);
    lemma_lex_step(upper3(a), a.w0 as nat, upper3(b), b.w0 as nat, w);
}

proof fn lemma_upper2_bound(a: U256)
    ensures
        upper2(a) < word() * word(),
{
    let w = word();
    let x = a.w2 as nat;
    let y = a.w3 as nat;
    assert(x + w * y < w * w) by (nonlinear_arith)
        requires
            x < w,
            y < w,
    ;
}

proof fn lemma_upper3_bound(a: U256)
    ensures
        upper3(a) < word() * word() * word(),
{
    let w = word();
    lemma_upper2_bound(a);
    let x = a.w1 as nat;
    let y = upper2(a);
    assert(x + w * y < w * w * w) by (nonlinear_arith)
        requires
            x < w,
            y < w * w,
    ;
}

/// Every `U256` is below 2^256.
pub proof fn lemma_value_bound(a: U256)
    ensures
        a.value() < modulus256(),
{
    let w = word();
    lemma_upper3_bound(a);
    let x = a.w0 as nat;
    let y = upper3(a);
    assert(x + w * y < w * w * w * w) by (nonlinear_arith)
        requires
            x < w,
            y < w * w * w,
    ;
}

/// A value whose top word is below 2^62 can be multiplied by four.
pub proof fn lemma_times_four_fits(a: U256)
    requires
        a.w3 < 0x4000_0000_0000_0000,
    ensures
        4 * a.value() < modulus256(),
{
    let w = word();
    let x = a.w0 as nat;
    let y = a.w1 as nat;
    let z = a.w2 as nat;
    let t = a.w3 as nat;
    assert(4 * (x + w * (y + w * (z + w * t))) < w * w * w * w) by (nonlinear_arith)
        requires
            x < w,
            y < w,
            z < w,
            t < 0x4000_0000_0000_0000,
            w == 0x1_0000_0000_0000_0000nat,
    ;
}

} // verus!
