//! Products of 128-bit integers, kept whole in 256 bits, and their order.

use vstd::arithmetic::div_mod::{lemma_fundamental_div_mod, lemma_mod_pos_bound};
use vstd::prelude::*;

verus! {

/// 2^64.
pub const LIMB: u128 = 0x1_0000_0000_0000_0000;

/// 2^128.
pub open spec fn half() -> int {
    0x1_0000_0000_0000_0000_0000_0000_0000_0000int
}

/// A non-negative integer below 2^256, as its high and low 128 bits.
#[derive(Clone, Copy, Debug)]
pub struct Wide {
    pub hi: u128,
    pub lo: u128,
}

impl Wide {
    pub open spec fn value(&self) -> int {
        self.hi * half() + self.lo
    }
}

proof fn lemma_mul_upper(a: int, b: int, m: int, n: int)
    requires
        0 <= a <= m,
        0 <= b <= n,
    ensures
        0 <= a * b <= m * n,
{
    assert(0 <= a * b <= m * n) by (nonlinear_arith)
        requires
            0 <= a <= m,
            0 <= b <= n,
    ;
}

/// `x` split at bit 64.
proof fn lemma_split(x: int)
    requires
        0 <= x,
    ensures
        x == LIMB * (x / (LIMB as int)) + x % (LIMB as int),
        0 <= x % (LIMB as int) < LIMB,
        0 <= x / (LIMB as int),
        x < half() ==> x / (LIMB as int) < LIMB,
{
    lemma_fundamental_div_mod(x, (LIMB as int));
    lemma_mod_pos_bound(x, (LIMB as int));
    if x / (LIMB as int) < 0 {
        assert(LIMB * (x / (LIMB as int)) <= -(LIMB as int));
    }
}

/// `a * b`, whole.
pub fn mul_wide(a: u128, b: u128) -> (r: Wide)
    ensures
        r.value() == a * b,
{
    let a1 = a / LIMB;
    let a0 = a % LIMB;
    let b1 = b / LIMB;
    let b0 = b % LIMB;
    let ghost m: int = LIMB - 1;
    proof {
        lemma_split(a as int);
        lemma_split(b as int);
        lemma_mul_upper(a0 as int, b0 as int, m, m);
        lemma_mul_upper(a0 as int, b1 as int, m, m);
        lemma_mul_upper(a1 as int, b0 as int, m, m);
        lemma_mul_upper(a1 as int, b1 as int, m, m);
    }
    let p00 = a0 * b0;
    let p01 = a0 * b1;
    let p10 = a1 * b0;
    let p11 = a1 * b1;
    proof {
        lemma_split(p00 as int);
        lemma_split(p01 as int);
        lemma_split(p10 as int);
        assert(a * b == half() * p11 + LIMB * (p01 + p10) + p00) by (nonlinear_arith)
            requires
                a == LIMB * a1 + a0,
                b == LIMB * b1 + b0,
                p00 == a0 * b0,
                p01 == a0 * b1,
                p10 == a1 * b0,
                p11 == a1 * b1,
                half() == LIMB * LIMB,
        ;
    }
    let t = p00 / LIMB + p01 % LIMB + p10 % LIMB;
    proof {
        lemma_split(t as int);
    }
    let lo = (t % LIMB) * LIMB + p00 % LIMB;
    let hi = p11 + p01 / LIMB + p10 / LIMB + t / LIMB;
    Wide { hi, lo }
}

/// `x * m`, whole, where it fits in 256 bits.
pub fn mul_wide_by(x: Wide, m: u128) -> (r: Wide)
    requires
        x.value() * m < half() * half(),
    ensures
        r.value() == x.value() * m,
{
    let low = mul_wide(x.lo, m);
    proof {
        assert(x.hi * m * half() <= x.value() * m) by (nonlinear_arith)
            requires
                x.value() == x.hi * half() + x.lo,
                x.lo >= 0,
                m >= 0,
        ;
        assert(x.hi * m < half()) by (nonlinear_arith)
            requires
                x.hi * m * half() < half() * half(),
                half() > 0,
        ;
        assert(x.value() * m == (x.hi * m + low.hi) * half() + low.lo) by (nonlinear_arith)
            requires
                x.value() == x.hi * half() + x.lo,
                low.hi * half() + low.lo == x.lo * m,
        ;
        assert(x.hi * m + low.hi < half()) by (nonlinear_arith)
            requires
                x.value() * m == (x.hi * m + low.hi) * half() + low.lo,
                x.value() * m < half() * half(),
                low.lo >= 0,
                half() > 0,
        ;
    }
    Wide { hi: x.hi * m + low.hi, lo: low.lo }
}

/// Whether `a < b`.
pub fn wide_less(a: Wide, b: Wide) -> (r: bool)
    ensures
        r == (a.value() < b.value()),
{
    proof {
        assert(a.hi < b.hi ==> a.value() < b.value()) by (nonlinear_arith)
            requires
                a.value() == a.hi * half() + a.lo,
                b.value() == b.hi * half() + b.lo,
                a.lo < half(),
                b.lo >= 0,
        ;
        assert(b.hi < a.hi ==> b.value() < a.value()) by (nonlinear_arith)
            requires
                a.value() == a.hi * half() + a.lo,
                b.value() == b.hi * half() + b.lo,
                b.lo < half(),
                a.lo >= 0,
        ;
    }
    a.hi < b.hi || (a.hi == b.hi && a.lo < b.lo)
}

/// `a - b`, for `b <= a`.
pub fn wide_sub(a: Wide, b: Wide) -> (r: Wide)
    requires
        b.value() <= a.value(),
    ensures
        r.value() == a.value() - b.value(),
{
    proof {
        assert(b.hi <= a.hi) by (nonlinear_arith)
            requires
                b.hi * half() + b.lo <= a.hi * half() + a.lo,
                a.lo < half(),
                b.lo >= 0,
        ;
        if a.lo < b.lo {
            assert(b.hi < a.hi) by (nonlinear_arith)
                requires
                    b.hi * half() + b.lo <= a.hi * half() + a.lo,
                    a.lo < b.lo,
                    b.hi <= a.hi,
            ;
        }
    }
    if a.lo >= b.lo {
        Wide { hi: a.hi - b.hi, lo: a.lo - b.lo }
    } else {
        Wide { hi: a.hi - b.hi - 1, lo: (u128::MAX - b.lo) + a.lo + 1 }
    }
}

/// A non-negative integer below 2^384, as three 128-bit parts, the highest
/// first.
#[derive(Clone, Copy, Debug)]
pub struct Wide3 {
    pub top: u128,
    pub mid: u128,
    pub low: u128,
}

impl Wide3 {
    pub open spec fn value(&self) -> int {
        self.top * (half() * half()) + self.mid * half() + self.low
    }
}

/// `a + b` as a low part and a carry.
fn add_carry(a: u128, b: u128) -> (r: (u128, u128))
    ensures
        r.0 + r.1 * half() == a + b,
        r.1 <= 1,
{
    if a <= u128::MAX - b {
        (a + b, 0)
    } else {
        (a - (u128::MAX - b) - 1, 1)
    }
}

/// `a * b`, whole, where it fits in 384 bits.
pub fn mul_wide_wide(a: Wide, b: Wide) -> (r: Wide3)
    requires
        a.value() * b.value() < half() * half() * half(),
    ensures
        r.value() == a.value() * b.value(),
{
    let ll = mul_wide(a.lo, b.lo);
    let lh = mul_wide(a.lo, b.hi);
    let hl = mul_wide(a.hi, b.lo);
    let hh = mul_wide(a.hi, b.hi);
    let (x1, c1) = add_carry(ll.hi, lh.lo);
    let (mid, c2) = add_carry(x1, hl.lo);
    proof {
        let h = half();
        let (pll, plh, phl, phh) = (a.lo * b.lo, a.lo * b.hi, a.hi * b.lo, a.hi * b.hi);
        assert(a.value() * b.value() == phh * (h * h) + (plh + phl) * h + pll) by (nonlinear_arith)
            requires
                a.value() == a.hi * h + a.lo,
                b.value() == b.hi * h + b.lo,
                pll == a.lo * b.lo,
                plh == a.lo * b.hi,
                phl == a.hi * b.lo,
                phh == a.hi * b.hi,
        ;
        let top = hh.hi * h + hh.lo + lh.hi + hl.hi + c1 + c2;
        assert(phh * (h * h) + (plh + phl) * h + pll == top * (h * h) + mid * h + ll.lo) by (nonlinear_arith)
            requires
                pll == ll.hi * h + ll.lo,
                plh == lh.hi * h + lh.lo,
                phl == hl.hi * h + hl.lo,
                phh == hh.hi * h + hh.lo,
                x1 + c1 * h == ll.hi + lh.lo,
                mid + c2 * h == x1 + hl.lo,
                top == hh.hi * h + hh.lo + lh.hi + hl.hi + c1 + c2,
        ;
        assert(top * (h * h) < h * (h * h)) by (nonlinear_arith)
            requires
                a.value() * b.value() == top * (h * h) + mid * h + ll.lo,
                a.value() * b.value() < h * h * h,
                mid >= 0,
                ll.lo >= 0,
                h > 0,
        ;
        assert(top < h) by (nonlinear_arith)
            requires
                top * (h * h) < h * (h * h),
                h > 0,
        ;
        if hh.hi > 0 {
            assert(hh.hi * h >= h) by (nonlinear_arith)
                requires
                    hh.hi >= 1,
                    h > 0,
            ;
        }
    }
    Wide3 { top: hh.lo + lh.hi + hl.hi + c1 + c2, mid, low: ll.lo }
}

/// `x * m`, whole.
pub fn mul_wide3_by(x: Wide, m: u128) -> (r: Wide3)
    ensures
        r.value() == x.value() * m,
{
    let lo = mul_wide(x.lo, m);
    let hi = mul_wide(x.hi, m);
    let (mid, c) = add_carry(hi.lo, lo.hi);
    let ghost h = half();
    proof {
        assert(x.value() * m == (hi.hi + c) * (h * h) + mid * h + lo.lo) by (nonlinear_arith)
            requires
                x.value() == x.hi * h + x.lo,
                lo.hi * h + lo.lo == x.lo * m,
                hi.hi * h + hi.lo == x.hi * m,
                mid + c * h == hi.lo + lo.hi,
        ;
        assert(x.value() * m < h * h * h) by (nonlinear_arith)
            requires
                x.value() == x.hi * h + x.lo,
                0 <= x.hi < h,
                0 <= x.lo < h,
                0 <= m < h,
        ;
        assert(hi.hi + c < h) by (nonlinear_arith)
            requires
                x.value() * m == (hi.hi + c) * (h * h) + mid * h + lo.lo,
                x.value() * m < h * h * h,
                mid >= 0,
                lo.lo >= 0,
                h > 0,
        ;
    }
    Wide3 { top: hi.hi + c, mid, low: lo.lo }
}

/// Whether `a < b`.
pub fn wide3_less(a: Wide3, b: Wide3) -> (r: bool)
    ensures
        r == (a.value() < b.value()),
{
    let ghost h = half();
    proof {
        assert(a.mid * h + a.low < h * h && b.mid * h + b.low < h * h) by (nonlinear_arith)
            requires
                0 <= a.mid < h,
                0 <= a.low < h,
                0 <= b.mid < h,
                0 <= b.low < h,
        ;
        assert(a.top < b.top ==> a.value() < b.value()) by (nonlinear_arith)
            requires
                a.value() == a.top * (h * h) + (a.mid * h + a.low),
                b.value() == b.top * (h * h) + (b.mid * h + b.low),
                a.mid * h + a.low < h * h,
                b.mid * h + b.low >= 0,
        ;
        assert(b.top < a.top ==> b.value() < a.value()) by (nonlinear_arith)
            requires
                a.value() == a.top * (h * h) + (a.mid * h + a.low),
                b.value() == b.top * (h * h) + (b.mid * h + b.low),
                b.mid * h + b.low < h * h,
                a.mid * h + a.low >= 0,
        ;
        assert(a.top == b.top && a.mid < b.mid ==> a.value() < b.value()) by (nonlinear_arith)
            requires
                a.value() == a.top * (h * h) + a.mid * h + a.low,
                b.value() == b.top * (h * h) + b.mid * h + b.low,
                a.low < h,
                b.low >= 0,
        ;
        assert(a.top == b.top && b.mid < a.mid ==> b.value() < a.value()) by (nonlinear_arith)
            requires
                a.value() == a.top * (h * h) + a.mid * h + a.low,
                b.value() == b.top * (h * h) + b.mid * h + b.low,
                b.low < h,
                a.low >= 0,
        ;
    }
    a.top < b.top || (a.top == b.top && (a.mid < b.mid || (a.mid == b.mid && a.low < b.low)))
}

} // verus!
