//! Wide unsigned arithmetic used by the fixed-point price math.
use vstd::arithmetic::div_mod::*;
use vstd::arithmetic::mul::*;
use vstd::arithmetic::power2::*;
use vstd::prelude::*;

verus! {

/// 2^64, the base of one 64-bit limb.
pub open spec fn base64() -> nat {
    0x1_0000_0000_0000_0000
}

/// 2^128.
pub open spec fn base128() -> nat {
    0x1_0000_0000_0000_0000_0000_0000_0000_0000nat
}

/// Value of a 256-bit number given as its high and low 128-bit halves.
pub open spec fn wide_value(hi: u128, lo: u128) -> nat {
    hi as nat * base128() + lo as nat
}

/// The full 256-bit product of two 128-bit numbers, as (high half, low half).
pub fn mul_u128_full(a: u128, b: u128) -> (res: (u128, u128))
    ensures
        wide_value(res.0, res.1) == a as nat * b as nat,
{
    let b64: u128 = 0x1_0000_0000_0000_0000;
    let a1 = a / b64;
    let a0 = a % b64;
    let b1 = b / b64;
    let b0 = b % b64;
    assert(a1 < b64 && b1 < b64);
    assert(a0 * b0 <= (b64 - 1) * (b64 - 1)) by (nonlinear_arith)
        requires a0 < b64, b0 < b64;
    assert(a0 * b1 <= (b64 - 1) * (b64 - 1)) by (nonlinear_arith)
        requires a0 < b64, b1 < b64;
    assert(a1 * b0 <= (b64 - 1) * (b64 - 1)) by (nonlinear_arith)
        requires a1 < b64, b0 < b64;
    assert(a1 * b1 <= (b64 - 1) * (b64 - 1)) by (nonlinear_arith)
        requires a1 < b64, b1 < b64;
    let p00 = a0 * b0;
    let p01 = a0 * b1;
    let p10 = a1 * b0;
    let p11 = a1 * b1;
    let mid = p00 / b64 + p01 % b64 + p10 % b64;
    let lo = p00 % b64 + (mid % b64) * b64;
    proof {
        assert(a as nat * b as nat == p11 * base128() + (p01 + p10) * base64() + p00)
            by (nonlinear_arith)
            requires
                a == a1 * b64 + a0,
                b == b1 * b64 + b0,
                p00 == a0 * b0, p01 == a0 * b1, p10 == a1 * b0, p11 == a1 * b1,
                b64 == base64(), base128() == base64() * base64();
        assert(p01 == (p01 / b64) * b64 + p01 % b64);
        assert(p10 == (p10 / b64) * b64 + p10 % b64);
        assert(p00 == (p00 / b64) * b64 + p00 % b64);
        assert(mid == (mid / b64) * b64 + mid % b64);
        assert(a as nat * b as nat == (p11 + p01 / b64 + p10 / b64 + mid / b64) * base128()
            + (mid % b64) * base64() + p00 % b64) by (nonlinear_arith)
            requires
                a as nat * b as nat == p11 * base128() + (p01 + p10) * base64() + p00,
                p01 == (p01 / b64) * b64 + p01 % b64,
                p10 == (p10 / b64) * b64 + p10 % b64,
                p00 == (p00 / b64) * b64 + p00 % b64,
                mid == p00 / b64 + p01 % b64 + p10 % b64,
                mid == (mid / b64) * b64 + mid % b64,
                b64 == base64(), base128() == base64() * base64();
        assert((a as nat) * (b as nat) < base128() * base128()) by (nonlinear_arith)
            requires a < base128(), b < base128();
        assert((mid % b64) * b64 + p00 % b64 < base128()) by (nonlinear_arith)
            requires mid % b64 < b64, p00 % b64 < b64, b64 == base64(), base128() == base64() * base64();
        assert(p11 + p01 / b64 + p10 / b64 + mid / b64 < base128()) by (nonlinear_arith)
            requires
                a as nat * b as nat == (p11 + p01 / b64 + p10 / b64 + mid / b64) * base128()
                    + (mid % b64) * base64() + p00 % b64,
                (a as nat) * (b as nat) < base128() * base128(),
                (mid % b64) * b64 + p00 % b64 >= 0, b64 == base64();
    }
    let hi = p11 + p01 / b64 + p10 / b64 + mid / b64;
    (hi, lo)
}


/// 2^127.
pub open spec fn top_bit() -> nat {
    0x8000_0000_0000_0000_0000_0000_0000_0000nat
}

proof fn lemma_pow2_facts()
    ensures
        pow2(64) == base64(),
        pow2(127) == top_bit(),
        pow2(128) == base128(),
{
    lemma2_to64();
    lemma2_to64_rest();
    lemma_pow2_adds(64, 63);
    lemma_pow2_adds(64, 64);
}

/// One step of binary long division: splitting off the next bit of the unprocessed part.
proof fn lemma_next_bit(x: nat, rest: nat, j: nat)
    requires
        j < 128,
        x == rest * pow2(j),
        rest < pow2((128 - j) as nat),
    ensures
        x / top_bit() == rest / pow2((127 - j) as nat),
        x / top_bit() <= 1,
        x % top_bit() == (rest % pow2((127 - j) as nat)) * pow2(j),
        rest == (x / top_bit()) * pow2((127 - j) as nat) + rest % pow2((127 - j) as nat),
        (rest % pow2((127 - j) as nat)) * pow2(j) * 2 == (rest % pow2((127 - j) as nat)) * pow2(j + 1),
        (rest % pow2((127 - j) as nat)) < pow2((128 - (j + 1)) as nat),
{
    let m1 = (127 - j) as nat;
    lemma_pow2_facts();
    lemma_pow2_adds(j, m1);
    lemma_pow2_adds(m1, 1);
    lemma_pow2_adds(j, 1);
    lemma2_to64();
    lemma_pow2_pos(m1);
    lemma_pow2_pos(j);
    let b = rest / pow2(m1);
    let rr = rest % pow2(m1);
    lemma_fundamental_div_mod(rest as int, pow2(m1) as int);
    assert(rest == b * pow2(m1) + rr);
    assert(pow2((128 - j) as nat) == pow2(m1) * 2);
    assert(b <= 1) by (nonlinear_arith)
        requires rest == b * pow2(m1) + rr, rest < pow2(m1) * 2, rr >= 0, pow2(m1) > 0;
    assert(x == b * top_bit() + rr * pow2(j)) by (nonlinear_arith)
        requires x == rest * pow2(j), rest == b * pow2(m1) + rr, pow2(j) * pow2(m1) == top_bit();
    assert(rr * pow2(j) < top_bit()) by (nonlinear_arith)
        requires rr < pow2(m1), pow2(j) > 0, pow2(j) * pow2(m1) == top_bit();
    lemma_fundamental_div_mod_converse(x as int, top_bit() as int, b as int, (rr * pow2(j)) as int);
    assert(rr * pow2(j) * 2 == rr * pow2(j + 1)) by (nonlinear_arith)
        requires pow2(j + 1) == pow2(j) * 2;
}

/// Divides the 256-bit number `hi * 2^128 + lo` by `d`. The quotient fits in
/// 128 bits because `hi < d`.
pub fn div_wide(hi: u128, lo: u128, d: u128) -> (res: (u128, u128))
    requires
        d > 0,
        hi < d,
    ensures
        wide_value(hi, lo) == res.0 as nat * d as nat + res.1 as nat,
        res.1 < d,
{
    let b64: u128 = 0x1_0000_0000_0000_0000;
    if d <= b64 {
        let l1 = lo / b64;
        let l0 = lo % b64;
        assert(hi * b64 + l1 < d * b64) by (nonlinear_arith)
            requires hi < d, l1 < b64;
        assert(d * b64 <= b64 * b64) by (nonlinear_arith)
            requires d <= b64;
        let c1 = hi * b64 + l1;
        let q1 = c1 / d;
        let r1 = c1 % d;
        proof { lemma_fundamental_div_mod(c1 as int, d as int); }
        assert(r1 * b64 + l0 < d * b64) by (nonlinear_arith)
            requires r1 < d, l0 < b64;
        let c0 = r1 * b64 + l0;
        let q0 = c0 / d;
        let r0 = c0 % d;
        proof { lemma_fundamental_div_mod(c0 as int, d as int); lemma_fundamental_div_mod(lo as int, b64 as int); }
        proof {
            assert(c1 == q1 * d + r1) by (nonlinear_arith) requires c1 == d * q1 + r1;
            assert(c0 == q0 * d + r0) by (nonlinear_arith) requires c0 == d * q0 + r0;
            assert(q1 < b64) by (nonlinear_arith)
                requires c1 == q1 * d + r1, c1 < d * b64, r1 >= 0, d > 0;
            assert(q0 < b64) by (nonlinear_arith)
                requires c0 == q0 * d + r0, c0 < d * b64, r0 >= 0, d > 0;
            assert(q1 * b64 + q0 < base128()) by (nonlinear_arith)
                requires q1 < b64, q0 < b64, b64 == base64(), base128() == base64() * base64();
            assert(wide_value(hi, lo) == (q1 * b64 + q0) * d + r0) by (nonlinear_arith)
                requires
                    lo == l1 * b64 + l0,
                    c1 == hi * b64 + l1, c1 == q1 * d + r1,
                    c0 == r1 * b64 + l0, c0 == q0 * d + r0,
                    wide_value(hi, lo) == hi * base128() + lo,
                    b64 == base64(), base128() == base64() * base64();
        }
        (q1 * b64 + q0, r0)
    } else {
        let top: u128 = 0x8000_0000_0000_0000_0000_0000_0000_0000;
        let mut q: u128 = 0;
        let mut r: u128 = hi;
        let mut x: u128 = lo;
        let mut j: u32 = 0;
        let ghost mut rest: nat = lo as nat;
        proof {
            lemma_pow2_facts();
            lemma2_to64();
            assert(pow2(0) == 1);
            assert(x == rest * pow2(0));
            assert(wide_value(hi, lo) == (q * d + r) * pow2(128) + rest);
        }
        while j < 128
            invariant
                j <= 128,
                d > 0,
                r < d,
                x as nat == rest * pow2(j as nat),
                rest < pow2((128 - j) as nat),
                wide_value(hi, lo) == (q as nat * d as nat + r as nat) * pow2((128 - j) as nat) + rest,
                q < pow2(j as nat),
                top == top_bit(),
            decreases 128 - j,
        {
            let ghost jj = j as nat;
            let ghost m1 = (127 - jj) as nat;
            proof {
                lemma_next_bit(x as nat, rest, jj);
                lemma_pow2_adds(m1, 1);
                lemma_pow2_adds(jj, 1);
                lemma_pow2_facts();
                lemma2_to64();
                assert((128 - jj) as nat == m1 + 1);
                if jj < 127 {
                    lemma_pow2_strictly_increases(jj, 127);
                }
            }
            let bit = x / top;
            let xr = x % top;
            let ghost old_q = q as nat;
            let ghost old_r = r as nat;
            if r >= top {
                assert(r - (d - r) + bit < d);
                r = r - (d - r) + bit;
                q = q * 2 + 1;
            } else {
                let r2 = r * 2 + bit;
                if r2 >= d {
                    r = r2 - d;
                    q = q * 2 + 1;
                } else {
                    r = r2;
                    q = q * 2;
                }
            }
            proof {
                assert(q as nat * d as nat + r as nat == (old_q * d as nat + old_r) * 2 + bit) by (nonlinear_arith)
                    requires
                        (q == old_q * 2 + 1 && r + d == old_r * 2 + bit)
                        || (q == old_q * 2 && r == old_r * 2 + bit);
                let rr = rest % pow2(m1);
                assert((old_q * d as nat + old_r) * pow2((128 - jj) as nat) + rest
                    == (q as nat * d as nat + r as nat) * pow2(m1) + rr) by (nonlinear_arith)
                    requires
                        q as nat * d as nat + r as nat == (old_q * d as nat + old_r) * 2 + bit,
                        rest == bit * pow2(m1) + rr,
                        pow2((128 - jj) as nat) == pow2(m1) * 2;
                assert(pow2(jj + 1) == 2 * pow2(jj)) by (nonlinear_arith)
                    requires pow2(jj) * pow2(1) == pow2(jj + 1), pow2(1) == 2;
                assert(q < pow2(jj + 1));
                rest = rr;
            }
            x = xr * 2;
            j = j + 1;
        }
        proof {
            assert((128 - j) as nat == 0);
            assert(pow2((128 - j) as nat) == 1) by { lemma2_to64(); }
        }
        (q, r)
    }
}


/// An unsigned 256-bit integer, as its high and low 128-bit halves.
#[derive(Clone, Copy, Debug, PartialEq, Eq, Structural)]
pub struct U256 {
    pub hi: u128,
    pub lo: u128,
}

impl View for U256 {
    type V = nat;

    open spec fn view(&self) -> nat {
        wide_value(self.hi, self.lo)
    }
}

/// 2^256.
pub open spec fn base256() -> nat {
    base128() * base128()
}

/// Every 256-bit number is below 2^256.
pub proof fn lemma_u256_bound(v: U256)
    ensures
        v@ < base256(),
{
    assert(v.hi * base128() + v.lo < base128() * base128()) by (nonlinear_arith)
        requires v.hi < base128(), v.lo < base128();
}

impl U256 {
    /// The value `v`, widened.
    pub fn from_u128(v: u128) -> (res: U256)
        ensures
            res@ == v as nat,
    {
        U256 { hi: 0, lo: v }
    }

    /// The number `hi * 2^128 + lo`.
    pub fn from_halves(hi: u128, lo: u128) -> (res: U256)
        ensures
            res@ == wide_value(hi, lo),
    {
        U256 { hi, lo }
    }

    /// Whether the value is zero.
    pub fn is_zero(&self) -> (res: bool)
        ensures
            res == (self@ == 0),
    {
        self.hi == 0 && self.lo == 0
    }

    /// The value as a `u128`, or `None` when it does not fit.
    pub fn to_u128(&self) -> (res: Option<u128>)
        ensures
            self@ < base128() ==> res == Some(self.lo) && self.lo as nat == self@,
            self@ >= base128() ==> res.is_none(),
    {
        if self.hi == 0 {
            Some(self.lo)
        } else {
            None
        }
    }

    /// The product, or `None` when it does not fit in 256 bits.
    pub fn checked_mul(&self, rhs: &U256) -> (res: Option<U256>)
        ensures
            self@ * rhs@ < base256() ==> (res matches Some(p) && p@ == self@ * rhs@),
            self@ * rhs@ >= base256() ==> res.is_none(),
    {
        let a = *self;
        let b = *rhs;
        if a.hi == 0 && b.hi == 0 {
            let (hi, lo) = mul_u128_full(a.lo, b.lo);
            Some(U256 { hi, lo })
        } else if a.hi != 0 && b.hi != 0 {
            proof {
                assert(a@ * b@ >= base256()) by (nonlinear_arith)
                    requires
                        a@ == a.hi * base128() + a.lo, b@ == b.hi * base128() + b.lo,
                        a.hi >= 1, b.hi >= 1, base256() == base128() * base128();
            }
            None
        } else {
            let (big, small) = if a.hi != 0 { (a, b.lo) } else { (b, a.lo) };
            assert(a@ * b@ == big@ * small) by (nonlinear_arith)
                requires
                    (big == a && small == b.lo && b.hi == 0) || (big == b && small == a.lo && a.hi == 0),
                    a@ == a.hi * base128() + a.lo, b@ == b.hi * base128() + b.lo;
            let (ph, pl) = mul_u128_full(big.lo, small);
            assert(big@ * small == (big.hi * small + ph) * base128() + pl) by (nonlinear_arith)
                requires
                    big@ == big.hi * base128() + big.lo,
                    ph * base128() + pl == big.lo * small;
            match big.hi.checked_mul(small) {
                None => {
                    assert(a@ * b@ >= base256()) by (nonlinear_arith)
                        requires
                            a@ * b@ == (big.hi * small + ph) * base128() + pl,
                            big.hi * small >= base128(), ph >= 0, pl >= 0,
                            base256() == base128() * base128();
                    None
                },
                Some(t) => match t.checked_add(ph) {
                    None => {
                        assert(a@ * b@ >= base256()) by (nonlinear_arith)
                            requires
                                a@ * b@ == (t + ph) * base128() + pl,
                                t + ph >= base128(), pl >= 0,
                                base256() == base128() * base128();
                        None
                    },
                    Some(h) => {
                        assert(a@ * b@ < base256()) by (nonlinear_arith)
                            requires
                                a@ * b@ == h * base128() + pl,
                                h < base128(), pl < base128(),
                                base256() == base128() * base128();
                        Some(U256 { hi: h, lo: pl })
                    },
                },
            }
        }
    }

    /// The sum, or `None` when it does not fit in 256 bits.
    pub fn checked_add(&self, rhs: &U256) -> (res: Option<U256>)
        ensures
            self@ + rhs@ < base256() ==> (res matches Some(v) && v@ == self@ + rhs@),
            self@ + rhs@ >= base256() ==> res.is_none(),
    {
        let (lo, carry): (u128, u128) = if self.lo <= u128::MAX - rhs.lo {
            (self.lo + rhs.lo, 0)
        } else {
            (self.lo - (u128::MAX - rhs.lo) - 1, 1)
        };
        assert(self.lo + rhs.lo == lo + carry * base128());
        proof {
            lemma_u256_bound(*self);
            lemma_u256_bound(*rhs);
        }
        match self.hi.checked_add(rhs.hi) {
            None => {
                assert(self@ + rhs@ >= base256()) by (nonlinear_arith)
                    requires
                        self@ == self.hi * base128() + self.lo, rhs@ == rhs.hi * base128() + rhs.lo,
                        self.hi + rhs.hi >= base128(), self.lo >= 0, rhs.lo >= 0,
                        base256() == base128() * base128();
                None
            },
            Some(h) => match h.checked_add(carry) {
                None => {
                    assert(self@ + rhs@ >= base256()) by (nonlinear_arith)
                        requires
                            self@ + rhs@ == (h + carry) * base128() + lo,
                            h + carry >= base128(), lo >= 0,
                            base256() == base128() * base128();
                    None
                },
                Some(hh) => {
                    assert(self@ + rhs@ == hh * base128() + lo) by (nonlinear_arith)
                        requires
                            self@ == self.hi * base128() + self.lo, rhs@ == rhs.hi * base128() + rhs.lo,
                            h == self.hi + rhs.hi, hh == h + carry,
                            self.lo + rhs.lo == lo + carry * base128();
                    proof {
                        lemma_u256_bound(U256 { hi: hh, lo });
                    }
                    Some(U256 { hi: hh, lo })
                },
            },
        }
    }

    /// The difference, or `None` when `rhs` exceeds `self`.
    pub fn checked_sub(&self, rhs: &U256) -> (res: Option<U256>)
        ensures
            rhs@ <= self@ ==> (res matches Some(v) && v@ == self@ - rhs@),
            rhs@ > self@ ==> res.is_none(),
    {
        let (lo, borrow): (u128, u128) = if self.lo >= rhs.lo {
            (self.lo - rhs.lo, 0)
        } else {
            (u128::MAX - (rhs.lo - self.lo) + 1, 1)
        };
        assert(self.lo + borrow * base128() == lo + rhs.lo);
        match self.hi.checked_sub(rhs.hi) {
            None => {
                assert(rhs@ > self@) by (nonlinear_arith)
                    requires
                        self@ == self.hi * base128() + self.lo, rhs@ == rhs.hi * base128() + rhs.lo,
                        self.hi < rhs.hi, self.lo < base128(), rhs.lo >= 0;
                None
            },
            Some(h) => match h.checked_sub(borrow) {
                None => {
                    assert(rhs@ > self@) by (nonlinear_arith)
                        requires
                            self@ == self.hi * base128() + self.lo, rhs@ == rhs.hi * base128() + rhs.lo,
                            h == self.hi - rhs.hi, h < borrow, borrow == 1,
                            self.lo + borrow * base128() == lo + rhs.lo, lo >= 0;
                    None
                },
                Some(hh) => {
                    assert(self@ - rhs@ == hh * base128() + lo) by (nonlinear_arith)
                        requires
                            self@ == self.hi * base128() + self.lo, rhs@ == rhs.hi * base128() + rhs.lo,
                            h == self.hi - rhs.hi, hh == h - borrow,
                            self.lo + borrow * base128() == lo + rhs.lo;
                    Some(U256 { hi: hh, lo })
                },
            },
        }
    }

    /// The quotient of the division by a nonzero `d`, rounded down.
    pub fn div_u128(&self, d: u128) -> (res: U256)
        requires
            d > 0,
        ensures
            res@ == self@ / (d as nat),
    {
        let qh = self.hi / d;
        let rh = self.hi % d;
        let (ql, r) = div_wide(rh, self.lo, d);
        proof {
            lemma_fundamental_div_mod(self.hi as int, d as int);
            assert(self.hi == qh * d + rh) by (nonlinear_arith) requires self.hi == d * qh + rh;
            assert(self@ == wide_value(qh, ql) * d + r) by (nonlinear_arith)
                requires
                    self.hi == qh * d + rh,
                    wide_value(rh, self.lo) == ql * d + r,
                    self@ == self.hi * base128() + self.lo,
                    wide_value(rh, self.lo) == rh * base128() + self.lo,
                    wide_value(qh, ql) == qh * base128() + ql;
            lemma_fundamental_div_mod_converse(self@ as int, d as int, wide_value(qh, ql) as int, r as int);
        }
        U256 { hi: qh, lo: ql }
    }
}

} // verus!
