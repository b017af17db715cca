use vstd::prelude::*;

verus! {

/// 2^64.
pub const HALF: u128 = 0x1_0000_0000_0000_0000;

/// A non-negative integer below 2^256, as two 128-bit words.
#[derive(Debug, Clone, Copy, PartialEq, Eq, Structural)]
pub struct Wide {
    pub hi: u128,
    pub lo: u128,
}

/// 2^128.
pub open spec fn word() -> int {
    0x1_0000_0000_0000_0000int * 0x1_0000_0000_0000_0000int
}

impl Wide {
    pub open spec fn val(self) -> int {
        self.hi * word() + self.lo
    }
}

/// The full product of two 128-bit words.
pub fn mul_wide(a: u128, b: u128) -> (r: Wide)
    ensures
        r.val() == a * b,
{
    let a1 = a / HALF;
    let a0 = a % HALF;
    let b1 = b / HALF;
    let b0 = b % HALF;
    let ghost bb = HALF as int;
    assert(a == a1 * bb + a0 && 0 <= a0 < bb && 0 <= a1 < bb) by {
        vstd::arithmetic::div_mod::lemma_fundamental_div_mod(a as int, bb);
    }
    assert(b == b1 * bb + b0 && 0 <= b0 < bb && 0 <= b1 < bb) by {
        vstd::arithmetic::div_mod::lemma_fundamental_div_mod(b as int, bb);
    }
    assert(a0 * b0 <= (bb - 1) * (bb - 1) && a0 * b1 <= (bb - 1) * (bb - 1) && a1 * b0 <= (bb
        - 1) * (bb - 1) && a1 * b1 <= (bb - 1) * (bb - 1)) by (nonlinear_arith)
        requires
            0 <= a0 < bb,
            0 <= a1 < bb,
            0 <= b0 < bb,
            0 <= b1 < bb,
    ;
    let p00 = a0 * b0;
    let p01 = a0 * b1;
    let p10 = a1 * b0;
    let p11 = a1 * b1;
    assert(a * b == p11 * (bb * bb) + p01 * bb + p10 * bb + p00) by (nonlinear_arith)
        requires
            a == a1 * bb + a0,
            b == b1 * bb + b0,
            p00 == a0 * b0,
            p01 == a0 * b1,
            p10 == a1 * b0,
            p11 == a1 * b1,
    ;
    proof {
        vstd::arithmetic::div_mod::lemma_fundamental_div_mod(p00 as int, bb);
        vstd::arithmetic::div_mod::lemma_fundamental_div_mod(p01 as int, bb);
        vstd::arithmetic::div_mod::lemma_fundamental_div_mod(p10 as int, bb);
        vstd::arithmetic::div_mod::lemma_mod_pos_bound(p00 as int, bb);
        vstd::arithmetic::div_mod::lemma_mod_pos_bound(p01 as int, bb);
        vstd::arithmetic::div_mod::lemma_mod_pos_bound(p10 as int, bb);
        assert(p01 / HALF < bb && p10 / HALF < bb && p00 / HALF < bb);
    }
    let mid = p00 / HALF + p01 % HALF + p10 % HALF;
    proof {
        vstd::arithmetic::div_mod::lemma_fundamental_div_mod(mid as int, bb);
        vstd::arithmetic::div_mod::lemma_mod_pos_bound(mid as int, bb);
        assert(mid / HALF < 3);
    }
    let lo = p00 % HALF + (mid % HALF) * HALF;
    let hi = p11 + p01 / HALF + p10 / HALF + mid / HALF;
    proof {
        assert(bb * bb == word());
        let q00 = p00 as int / bb;
        let r00 = p00 as int % bb;
        let q01 = p01 as int / bb;
        let r01 = p01 as int % bb;
        let q10 = p10 as int / bb;
        let r10 = p10 as int % bb;
        let qm = mid as int / bb;
        let rm = mid as int % bb;
        assert(hi * word() + lo == a * b) by (nonlinear_arith)
            requires
                a * b == p11 * (bb * bb) + p01 * bb + p10 * bb + p00,
                p00 == bb * q00 + r00,
                p01 == bb * q01 + r01,
                p10 == bb * q10 + r10,
                mid == q00 + r01 + r10,
                mid == bb * qm + rm,
                lo == r00 + rm * bb,
                hi == p11 + q01 + q10 + qm,
                word() == bb * bb,
        ;
    }
    Wide { hi, lo }
}

/// The sum of two wide integers whose sum stays below 2^256.
pub fn add_wide(a: Wide, b: Wide) -> (r: Wide)
    requires
        a.val() + b.val() < word() * word(),
    ensures
        r.val() == a.val() + b.val(),
{
    let (lo, carry): (u128, u128) = if a.lo <= u128::MAX - b.lo {
        (a.lo + b.lo, 0)
    } else {
        (a.lo - (u128::MAX - b.lo) - 1, 1)
    };
    proof {
        assert(a.lo + b.lo == lo + carry * word());
        assert(a.hi + b.hi + carry < word()) by (nonlinear_arith)
            requires
                a.hi * word() + a.lo + b.hi * word() + b.lo < word() * word(),
                a.lo + b.lo == lo + carry * word(),
                0 <= lo,
                word() > 0,
        ;
    }
    Wide { hi: a.hi + b.hi + carry, lo }
}

/// The product of a wide integer and a word, when it stays below 2^256.
pub fn mul_word(a: Wide, k: u128) -> (r: Wide)
    requires
        a.val() * k < word() * word(),
    ensures
        r.val() == a.val() * k,
{
    let p = mul_wide(a.lo, k);
    proof {
        assert(a.hi * k < word() && p.hi + a.hi * k < word()) by (nonlinear_arith)
            requires
                (a.hi * word() + a.lo) * k < word() * word(),
                p.hi * word() + p.lo == a.lo * k,
                0 <= p.lo,
                0 <= a.lo,
                0 <= k,
                0 <= p.hi,
                word() > 0,
        ;
        assert((a.hi * word() + a.lo) * k == (a.hi * k) * word() + a.lo * k) by (nonlinear_arith);
    }
    Wide { hi: p.hi + a.hi * k, lo: p.lo }
}

/// Whether `a < b`.
pub fn lt_wide(a: Wide, b: Wide) -> (r: bool)
    ensures
        r == (a.val() < b.val()),
{
    proof {
        assert(a.hi < b.hi ==> a.val() < b.val()) by (nonlinear_arith)
            requires
                a.lo < word(),
                0 <= b.lo,
                word() > 0,
                a.val() == a.hi * word() + a.lo,
                b.val() == b.hi * word() + b.lo,
        ;
        assert(a.hi > b.hi ==> a.val() > b.val()) by (nonlinear_arith)
            requires
                b.lo < word(),
                0 <= a.lo,
                word() > 0,
                a.val() == a.hi * word() + a.lo,
                b.val() == b.hi * word() + b.lo,
        ;
    }
    a.hi < b.hi || (a.hi == b.hi && a.lo < b.lo)
}

} // verus!
