//! Unsigned integers of up to 512 bits, as eight 64-bit limbs, for the
//! intermediate products of the big-number divisions.
use crate::math::uint::{base128, base256, base64, lemma_u256_bound, wide_value, U256};
use vstd::arithmetic::div_mod::*;
use vstd::arithmetic::power2::*;
use vstd::prelude::*;

verus! {

/// Number of limbs.
pub const LIMBS: usize = 8;

/// 2^(64 i).
pub open spec fn limb_weight(i: nat) -> nat
    decreases i,
{
    if i == 0 {
        1
    } else {
        base64() * limb_weight((i - 1) as nat)
    }
}

/// Value of the first `n` limbs of `s`, least significant first.
pub open spec fn limbs_value(s: Seq<u64>, n: nat) -> nat
    decreases n,
{
    if n == 0 {
        0
    } else {
        limbs_value(s, (n - 1) as nat) + s[n - 1] as nat * limb_weight((n - 1) as nat)
    }
}

/// An unsigned integer below 2^512.
pub struct WideUint {
    limbs: Vec<u64>,
}

impl WideUint {
    /// The limb vector has exactly `LIMBS` entries.
    pub closed spec fn wf(&self) -> bool {
        self.limbs@.len() == LIMBS
    }

    /// The number represented.
    pub closed spec fn value(&self) -> nat {
        limbs_value(self.limbs@, LIMBS as nat)
    }
}

pub proof fn lemma_limb_weight_pos(i: nat)
    ensures
        limb_weight(i) >= 1,
    decreases i,
{
    if i > 0 {
        lemma_limb_weight_pos((i - 1) as nat);
    }
}

pub proof fn lemma_limb_weight_mono(i: nat, j: nat)
    requires
        i <= j,
    ensures
        limb_weight(i) <= limb_weight(j),
    decreases j,
{
    if i < j {
        lemma_limb_weight_mono(i, (j - 1) as nat);
        lemma_limb_weight_pos((j - 1) as nat);
    }
}

/// The value of `n` limbs stays below 2^(64 n).
pub proof fn lemma_limbs_value_bound(s: Seq<u64>, n: nat)
    requires
        n <= s.len(),
    ensures
        limbs_value(s, n) < limb_weight(n),
    decreases n,
{
    if n > 0 {
        let m = (n - 1) as nat;
        lemma_limbs_value_bound(s, m);
        let w = limb_weight(m);
        assert(limbs_value(s, m) + s[m as int] as nat * w < base64() * w) by (nonlinear_arith)
            requires
                limbs_value(s, m) < w,
                s[m as int] < base64();
    }
}

/// Values only depend on the limbs they read.
pub proof fn lemma_limbs_value_ext(s: Seq<u64>, t: Seq<u64>, n: nat)
    requires
        n <= s.len(),
        n <= t.len(),
        forall|k: int| 0 <= k < n ==> s[k] == t[k],
    ensures
        limbs_value(s, n) == limbs_value(t, n),
    decreases n,
{
    if n > 0 {
        lemma_limbs_value_ext(s, t, (n - 1) as nat);
    }
}

/// Zero limbs from `k` up do not add to the value.
pub proof fn lemma_limbs_value_high_zero(s: Seq<u64>, k: nat, n: nat)
    requires
        k <= n <= s.len(),
        forall|j: int| k <= j < n ==> s[j] == 0,
    ensures
        limbs_value(s, n) == limbs_value(s, k),
    decreases n,
{
    if n > k {
        lemma_limbs_value_high_zero(s, k, (n - 1) as nat);
    }
}

/// The value grows with the number of limbs read, and each limb's term is part of it.
pub proof fn lemma_limbs_value_ge_term(s: Seq<u64>, j: nat, n: nat)
    requires
        j < n <= s.len(),
    ensures
        limbs_value(s, n) >= s[j as int] as nat * limb_weight(j),
    decreases n,
{
    if n > j + 1 {
        lemma_limbs_value_ge_term(s, j, (n - 1) as nat);
        lemma_limb_weight_pos((n - 1) as nat);
    }
}

/// A lower limb that is smaller decides the order when the higher limbs agree.
pub proof fn lemma_limbs_value_lt(s: Seq<u64>, t: Seq<u64>, j: nat, n: nat)
    requires
        j < n <= s.len(),
        n <= t.len(),
        s[j as int] < t[j as int],
        forall|k: int| j < k < n ==> s[k] == t[k],
    ensures
        limbs_value(s, n) < limbs_value(t, n),
    decreases n,
{
    if n > j + 1 {
        lemma_limbs_value_lt(s, t, j, (n - 1) as nat);
    } else {
        lemma_limbs_value_bound(s, j);
        let w = limb_weight(j);
        assert(limbs_value(s, j) + s[j as int] as nat * w < limbs_value(t, j) + t[j as int] as nat * w)
            by (nonlinear_arith)
            requires
                limbs_value(s, j) < w,
                s[j as int] < t[j as int],
                limbs_value(t, j) >= 0;
    }
}

pub proof fn lemma_limb_weight_values()
    ensures
        limb_weight(0) == 1,
        limb_weight(1) == base64(),
        limb_weight(2) == base128(),
        limb_weight(3) == base128() * base64(),
        limb_weight(4) == base256(),
        limb_weight(5) == base256() * base64(),
        limb_weight(7) == base256() * base128() * base64(),
        limb_weight(8) == base256() * base256(),
{
    reveal_with_fuel(limb_weight, 9);
    assert(limb_weight(4) == base64() * (base64() * (base64() * base64())));
    assert(limb_weight(5) == base64() * limb_weight(4));
    assert(limb_weight(6) == base64() * limb_weight(5));
    assert(limb_weight(7) == base64() * limb_weight(6));
    assert(limb_weight(8) == base64() * limb_weight(7));
    assert(base256() == base128() * base128());
    assert(base128() == base64() * base64());
    assert(limb_weight(8) == base256() * base256()) by (nonlinear_arith)
        requires
            limb_weight(8) == base64() * limb_weight(7),
            limb_weight(7) == base64() * limb_weight(6),
            limb_weight(6) == base64() * limb_weight(5),
            limb_weight(5) == base64() * limb_weight(4),
            limb_weight(4) == base64() * (base64() * (base64() * base64())),
            base256() == base128() * base128(),
            base128() == base64() * base64();
    assert(limb_weight(7) == base256() * base128() * base64()) by (nonlinear_arith)
        requires
            limb_weight(7) == base64() * limb_weight(6),
            limb_weight(6) == base64() * limb_weight(5),
            limb_weight(5) == base64() * limb_weight(4),
            limb_weight(4) == base64() * (base64() * (base64() * base64())),
            base256() == base128() * base128(),
            base128() == base64() * base64();
    assert(limb_weight(5) == base256() * base64()) by (nonlinear_arith)
        requires
            limb_weight(5) == base64() * limb_weight(4),
            limb_weight(4) == base64() * (base64() * (base64() * base64())),
            base256() == base128() * base128(),
            base128() == base64() * base64();
}

impl WideUint {
    /// Zero.
    pub fn zero() -> (res: WideUint)
        ensures
            res.wf(),
            res.value() == 0,
    {
        let mut limbs: Vec<u64> = Vec::new();
        let mut i: usize = 0;
        while i < LIMBS
            invariant
                i <= LIMBS,
                limbs@.len() == i,
                forall|k: int| 0 <= k < i ==> limbs@[k] == 0,
            decreases LIMBS - i,
        {
            limbs.push(0);
            i = i + 1;
        }
        proof {
            lemma_limbs_value_high_zero(limbs@, 0, LIMBS as nat);
        }
        WideUint { limbs }
    }

    /// The 256-bit number `v`.
    pub fn from_u256(v: U256) -> (res: WideUint)
        ensures
            res.wf(),
            res.value() == v@,
    {
        let b64: u128 = 0x1_0000_0000_0000_0000;
        let mut limbs: Vec<u64> = Vec::new();
        limbs.push((v.lo % b64) as u64);
        limbs.push((v.lo / b64) as u64);
        limbs.push((v.hi % b64) as u64);
        limbs.push((v.hi / b64) as u64);
        limbs.push(0);
        limbs.push(0);
        limbs.push(0);
        limbs.push(0);
        proof {
            let s = limbs@;
            lemma_limbs_value_high_zero(s, 4, LIMBS as nat);
            lemma_limb_weight_values();
            assert(limb_weight(0) == 1);
            assert(limbs_value(s, 0) == 0);
            assert(limbs_value(s, 1) == s[0] * limb_weight(0));
            assert(limbs_value(s, 2) == s[0] * limb_weight(0) + s[1] * limb_weight(1));
            assert(limbs_value(s, 3) == s[0] * limb_weight(0) + s[1] * limb_weight(1)
                + s[2] * limb_weight(2));
            assert(limbs_value(s, 4) == s[0] * limb_weight(0) + s[1] * limb_weight(1)
                + s[2] * limb_weight(2) + s[3] * limb_weight(3));
            assert(limbs_value(s, 4) == s[0] + s[1] * base64() + s[2] * base128()
                + s[3] * (base128() * base64())) by (nonlinear_arith)
                requires
                    limbs_value(s, 4) == s[0] * limb_weight(0) + s[1] * limb_weight(1)
                        + s[2] * limb_weight(2) + s[3] * limb_weight(3),
                    limb_weight(0) == 1,
                    limb_weight(1) == base64(),
                    limb_weight(2) == base128(),
                    limb_weight(3) == base128() * base64();
            assert(v.lo == (v.lo / b64) * b64 + v.lo % b64);
            assert(v.hi == (v.hi / b64) * b64 + v.hi % b64);
            assert(limbs_value(s, 4) == wide_value(v.hi, v.lo)) by (nonlinear_arith)
                requires
                    limbs_value(s, 4) == s[0] + s[1] * base64() + s[2] * base128()
                        + s[3] * (base128() * base64()),
                    s[0] == v.lo % b64, s[1] == v.lo / b64, s[2] == v.hi % b64, s[3] == v.hi / b64,
                    v.lo == (v.lo / b64) * b64 + v.lo % b64,
                    v.hi == (v.hi / b64) * b64 + v.hi % b64,
                    b64 == base64(), base128() == base64() * base64(),
                    wide_value(v.hi, v.lo) == v.hi * base128() + v.lo;
        }
        WideUint { limbs }
    }
}

impl WideUint {
    /// A copy of the number.
    pub fn duplicate(&self) -> (res: WideUint)
        requires
            self.wf(),
        ensures
            res.wf(),
            res.value() == self.value(),
    {
        let mut limbs: Vec<u64> = Vec::new();
        let mut i: usize = 0;
        while i < LIMBS
            invariant
                i <= LIMBS,
                self.wf(),
                limbs@.len() == i,
                forall|k: int| 0 <= k < i ==> limbs@[k] == self.limbs@[k],
            decreases LIMBS - i,
        {
            limbs.push(self.limbs[i]);
            i = i + 1;
        }
        proof {
            lemma_limbs_value_ext(limbs@, self.limbs@, LIMBS as nat);
        }
        WideUint { limbs }
    }

    /// The sum.
    pub fn add(&self, rhs: &WideUint) -> (res: WideUint)
        requires
            self.wf(),
            rhs.wf(),
            self.value() + rhs.value() < limb_weight(LIMBS as nat),
        ensures
            res.wf(),
            res.value() == self.value() + rhs.value(),
    {
        let b64: u128 = 0x1_0000_0000_0000_0000;
        let mut limbs: Vec<u64> = Vec::new();
        let mut carry: u128 = 0;
        let mut i: usize = 0;
        while i < LIMBS
            invariant
                i <= LIMBS,
                self.wf(),
                rhs.wf(),
                limbs@.len() == i,
                carry <= 1,
                b64 == base64(),
                limbs_value(limbs@, i as nat) + carry * limb_weight(i as nat)
                    == limbs_value(self.limbs@, i as nat) + limbs_value(rhs.limbs@, i as nat),
            decreases LIMBS - i,
        {
            let a = self.limbs[i] as u128;
            let b = rhs.limbs[i] as u128;
            let sum = a + b + carry;
            let ghost old_limbs = limbs@;
            limbs.push((sum % b64) as u64);
            proof {
                lemma_limbs_value_ext(old_limbs, limbs@, i as nat);
                let w = limb_weight(i as nat);
                let new_carry = sum / b64;
                assert(sum == new_carry * b64 + sum % b64);
                assert((sum % b64) * w + new_carry * (base64() * w) + limbs_value(old_limbs, i as nat)
                    == limbs_value(self.limbs@, i as nat) + a * w + limbs_value(rhs.limbs@, i as nat) + b * w)
                    by (nonlinear_arith)
                    requires
                        sum == new_carry * b64 + sum % b64,
                        sum == a + b + carry,
                        b64 == base64(),
                        limbs_value(old_limbs, i as nat) + carry * w
                            == limbs_value(self.limbs@, i as nat) + limbs_value(rhs.limbs@, i as nat);
                assert(limb_weight(i as nat + 1) == base64() * w);
            }
            carry = sum / b64;
            i = i + 1;
        }
        proof {
            lemma_limbs_value_bound(limbs@, LIMBS as nat);
            let w = limb_weight(LIMBS as nat);
            assert(carry == 0) by (nonlinear_arith)
                requires
                    limbs_value(limbs@, LIMBS as nat) + carry * w == self.value() + rhs.value(),
                    self.value() + rhs.value() < w,
                    limbs_value(limbs@, LIMBS as nat) >= 0,
                    carry <= 1;
        }
        WideUint { limbs }
    }

    /// The difference, for `rhs` not above `self`.
    pub fn sub(&self, rhs: &WideUint) -> (res: WideUint)
        requires
            self.wf(),
            rhs.wf(),
            rhs.value() <= self.value(),
        ensures
            res.wf(),
            res.value() == self.value() - rhs.value(),
    {
        let b64: u128 = 0x1_0000_0000_0000_0000;
        let mut limbs: Vec<u64> = Vec::new();
        let mut borrow: u128 = 0;
        let mut i: usize = 0;
        while i < LIMBS
            invariant
                i <= LIMBS,
                self.wf(),
                rhs.wf(),
                limbs@.len() == i,
                borrow <= 1,
                b64 == base64(),
                limbs_value(limbs@, i as nat) + limbs_value(rhs.limbs@, i as nat)
                    == limbs_value(self.limbs@, i as nat) + borrow * limb_weight(i as nat),
            decreases LIMBS - i,
        {
            let a = self.limbs[i] as u128;
            let b = rhs.limbs[i] as u128;
            let diff = a + b64 - b - borrow;
            let ghost old_limbs = limbs@;
            limbs.push((diff % b64) as u64);
            proof {
                lemma_limbs_value_ext(old_limbs, limbs@, i as nat);
                let w = limb_weight(i as nat);
                let q = diff / b64;
                assert(diff == q * b64 + diff % b64);
                assert(q <= 1) by (nonlinear_arith)
                    requires diff == q * b64 + diff % b64, diff < 2 * b64, diff % b64 >= 0, b64 > 0;
                assert((diff % b64) * w + b * w + borrow * w == a * w + (1 - q) * (base64() * w))
                    by (nonlinear_arith)
                    requires diff == q * b64 + diff % b64, diff == a + b64 - b - borrow, b64 == base64();
                assert(limb_weight(i as nat + 1) == base64() * w);
            }
            borrow = 1 - diff / b64;
            i = i + 1;
        }
        proof {
            lemma_limbs_value_bound(limbs@, LIMBS as nat);
            let w = limb_weight(LIMBS as nat);
            assert(borrow == 0) by (nonlinear_arith)
                requires
                    limbs_value(limbs@, LIMBS as nat) + rhs.value() == self.value() + borrow * w,
                    rhs.value() <= self.value(),
                    limbs_value(limbs@, LIMBS as nat) < w,
                    borrow <= 1;
        }
        WideUint { limbs }
    }

    /// Whether `self` is below `rhs`.
    pub fn lt(&self, rhs: &WideUint) -> (res: bool)
        requires
            self.wf(),
            rhs.wf(),
        ensures
            res == (self.value() < rhs.value()),
    {
        let mut i: usize = LIMBS;
        while i > 0
            invariant
                i <= LIMBS,
                self.wf(),
                rhs.wf(),
                forall|k: int| i <= k < LIMBS ==> self.limbs@[k] == rhs.limbs@[k],
            decreases i,
        {
            i = i - 1;
            if self.limbs[i] != rhs.limbs[i] {
                proof {
                    if self.limbs@[i as int] < rhs.limbs@[i as int] {
                        lemma_limbs_value_lt(self.limbs@, rhs.limbs@, i as nat, LIMBS as nat);
                    } else {
                        lemma_limbs_value_lt(rhs.limbs@, self.limbs@, i as nat, LIMBS as nat);
                    }
                }
                return self.limbs[i] < rhs.limbs[i];
            }
        }
        proof {
            lemma_limbs_value_ext(self.limbs@, rhs.limbs@, LIMBS as nat);
        }
        false
    }

    /// The product with a single limb.
    pub fn mul_small(&self, m: u64) -> (res: WideUint)
        requires
            self.wf(),
            self.value() * m < limb_weight(LIMBS as nat),
        ensures
            res.wf(),
            res.value() == self.value() * m,
    {
        let b64: u128 = 0x1_0000_0000_0000_0000;
        let mut limbs: Vec<u64> = Vec::new();
        let mut carry: u128 = 0;
        let mut i: usize = 0;
        proof {
            assert(limbs_value(self.limbs@, 0) == 0);
            assert(limbs_value(limbs@, 0) == 0);
            assert(limbs_value(self.limbs@, 0) * m == 0) by (nonlinear_arith)
                requires limbs_value(self.limbs@, 0) == 0;
        }
        while i < LIMBS
            invariant
                i <= LIMBS,
                self.wf(),
                limbs@.len() == i,
                carry < b64,
                b64 == base64(),
                limbs_value(limbs@, i as nat) + carry * limb_weight(i as nat)
                    == limbs_value(self.limbs@, i as nat) * m,
            decreases LIMBS - i,
        {
            let a = self.limbs[i] as u128;
            assert(a * m + carry < b64 * b64) by (nonlinear_arith)
                requires a < b64, m < b64, carry < b64;
            let cur = a * (m as u128) + carry;
            let ghost old_limbs = limbs@;
            limbs.push((cur % b64) as u64);
            proof {
                lemma_limbs_value_ext(old_limbs, limbs@, i as nat);
                let w = limb_weight(i as nat);
                let new_carry = cur / b64;
                assert(cur == new_carry * b64 + cur % b64);
                assert(new_carry < b64) by (nonlinear_arith)
                    requires cur == new_carry * b64 + cur % b64, cur < b64 * b64, cur % b64 >= 0, b64 > 0;
                assert((cur % b64) * w + new_carry * (base64() * w) + limbs_value(old_limbs, i as nat)
                    == (limbs_value(self.limbs@, i as nat) + a * w) * m)
                    by (nonlinear_arith)
                    requires
                        cur == new_carry * b64 + cur % b64,
                        cur == a * m + carry,
                        b64 == base64(),
                        limbs_value(old_limbs, i as nat) + carry * w == limbs_value(self.limbs@, i as nat) * m;
                assert(limb_weight(i as nat + 1) == base64() * w);
            }
            carry = cur / b64;
            i = i + 1;
        }
        proof {
            lemma_limbs_value_bound(limbs@, LIMBS as nat);
            let w = limb_weight(LIMBS as nat);
            assert(carry == 0) by (nonlinear_arith)
                requires
                    limbs_value(limbs@, LIMBS as nat) + carry * w == self.value() * m,
                    self.value() * m < w,
                    limbs_value(limbs@, LIMBS as nat) >= 0,
                    carry >= 0;
        }
        WideUint { limbs }
    }

    /// Whether the number is below 2^(64 k).
    pub fn fits_limbs(&self, k: usize) -> (res: bool)
        requires
            self.wf(),
            k <= LIMBS,
        ensures
            res == (self.value() < limb_weight(k as nat)),
    {
        let mut j: usize = k;
        while j < LIMBS
            invariant
                k <= j <= LIMBS,
                self.wf(),
                forall|i: int| k <= i < j ==> self.limbs@[i] == 0,
            decreases LIMBS - j,
        {
            if self.limbs[j] != 0 {
                proof {
                    lemma_limbs_value_ge_term(self.limbs@, j as nat, LIMBS as nat);
                    lemma_limb_weight_mono(k as nat, j as nat);
                    assert(self.limbs@[j as int] as nat * limb_weight(j as nat) >= limb_weight(j as nat))
                        by (nonlinear_arith)
                        requires self.limbs@[j as int] >= 1;
                }
                return false;
            }
            j = j + 1;
        }
        proof {
            lemma_limbs_value_high_zero(self.limbs@, k as nat, LIMBS as nat);
            lemma_limbs_value_bound(self.limbs@, k as nat);
        }
        true
    }

    /// The number as a 256-bit integer, when it fits.
    pub fn to_u256(&self) -> (res: U256)
        requires
            self.wf(),
            self.value() < limb_weight(4),
        ensures
            res@ == self.value(),
    {
        let b64: u128 = 0x1_0000_0000_0000_0000;
        proof {
            let s = self.limbs@;
            assert forall|j: int| 4 <= j < LIMBS implies s[j] == 0 by {
                if s[j] != 0 {
                    lemma_limbs_value_ge_term(s, j as nat, LIMBS as nat);
                    lemma_limb_weight_mono(4, j as nat);
                    assert(s[j] as nat * limb_weight(j as nat) >= limb_weight(j as nat))
                        by (nonlinear_arith)
                        requires s[j] >= 1;
                }
            }
            lemma_limbs_value_high_zero(s, 4, LIMBS as nat);
            lemma_limb_weight_values();
            assert(limbs_value(s, 0) == 0);
            assert(limbs_value(s, 1) == s[0] * limb_weight(0));
            assert(limbs_value(s, 2) == s[0] * limb_weight(0) + s[1] * limb_weight(1));
            assert(limbs_value(s, 3) == s[0] * limb_weight(0) + s[1] * limb_weight(1)
                + s[2] * limb_weight(2));
            assert(limbs_value(s, 4) == s[0] * limb_weight(0) + s[1] * limb_weight(1)
                + s[2] * limb_weight(2) + s[3] * limb_weight(3));
            assert(limbs_value(s, 4) == (s[0] + s[1] * base64()) + (s[2] + s[3] * base64()) * base128())
                by (nonlinear_arith)
                requires
                    limbs_value(s, 4) == s[0] * limb_weight(0) + s[1] * limb_weight(1)
                        + s[2] * limb_weight(2) + s[3] * limb_weight(3),
                    limb_weight(0) == 1,
                    limb_weight(1) == base64(),
                    limb_weight(2) == base128(),
                    limb_weight(3) == base128() * base64();
            assert(s[1] * b64 + s[0] < b64 * b64) by (nonlinear_arith)
                requires s[0] < b64, s[1] < b64;
            assert(s[3] * b64 + s[2] < b64 * b64) by (nonlinear_arith)
                requires s[2] < b64, s[3] < b64;
        }
        let lo = self.limbs[0] as u128 + (self.limbs[1] as u128) * b64;
        let hi = self.limbs[2] as u128 + (self.limbs[3] as u128) * b64;
        U256::from_halves(hi, lo)
    }
}

impl WideUint {
    /// The 256-bit number `v`, widened from 128 bits.
    pub fn from_u128(v: u128) -> (res: WideUint)
        ensures
            res.wf(),
            res.value() == v as nat,
    {
        WideUint::from_u256(U256::from_u128(v))
    }

    /// Quotient and remainder of the division by a nonzero `d`.
    pub fn div_rem(&self, d: &WideUint) -> (res: (WideUint, WideUint))
        requires
            self.wf(),
            d.wf(),
            d.value() > 0,
            2 * self.value() < limb_weight(LIMBS as nat),
        ensures
            res.0.wf(),
            res.1.wf(),
            self.value() == res.0.value() * d.value() + res.1.value(),
            res.1.value() < d.value(),
    {
        let w = Ghost(limb_weight(LIMBS as nat));
        if self.lt(d) {
            let q = WideUint::zero();
            proof {
                assert(q.value() * d.value() == 0) by (nonlinear_arith)
                    requires q.value() == 0;
            }
            return (q, self.duplicate());
        }
        let one = WideUint::from_u128(1);
        let mut multiples: Vec<WideUint> = Vec::new();
        let mut powers: Vec<WideUint> = Vec::new();
        multiples.push(d.duplicate());
        powers.push(one);
        proof {
            lemma2_to64();
            assert(d.value() * pow2(0) == d.value()) by (nonlinear_arith)
                requires pow2(0) == 1;
        }
        while !self.lt(&multiples[multiples.len() - 1])
            invariant
                self.wf(),
                d.wf(),
                d.value() > 0,
                2 * self.value() < w@,
                w@ == limb_weight(LIMBS as nat),
                multiples@.len() == powers@.len(),
                multiples@.len() >= 1,
                forall|k: int| 0 <= k < multiples@.len() ==> (#[trigger] multiples@[k]).wf()
                    && multiples@[k].value() == d.value() * pow2(k as nat),
                forall|k: int| 0 <= k < powers@.len() ==> (#[trigger] powers@[k]).wf()
                    && powers@[k].value() == pow2(k as nat),
                multiples@[multiples@.len() - 1].value() <= 2 * self.value() + 1,
            decreases 2 * self.value() + 1 - multiples@[multiples@.len() - 1].value(),
        {
            let k = multiples.len() - 1;
            proof {
                lemma2_to64();
                lemma_pow2_adds(k as nat, 1);
                lemma_pow2_pos(k as nat);
                assert(pow2(k as nat) <= d.value() * pow2(k as nat)) by (nonlinear_arith)
                    requires d.value() >= 1;
            }
            let next_multiple = multiples[k].add(&multiples[k]);
            let next_power = powers[k].add(&powers[k]);
            proof {
                assert(d.value() * pow2(k as nat) + d.value() * pow2(k as nat) == d.value() * pow2(k as nat + 1))
                    by (nonlinear_arith)
                    requires pow2(k as nat) * pow2(1) == pow2(k as nat + 1), pow2(1) == 2;
                assert(d.value() * pow2(k as nat) >= 1) by (nonlinear_arith)
                    requires d.value() >= 1, pow2(k as nat) >= 1;
            }
            multiples.push(next_multiple);
            powers.push(next_power);
        }
        let mut q = WideUint::zero();
        let mut r = self.duplicate();
        let mut i: usize = multiples.len();
        proof {
            let last = (multiples@.len() - 1) as nat;
            lemma_pow2_adds(last, 1);
            lemma_pow2_pos(last);
            assert(d.value() * pow2(last) <= d.value() * pow2(i as nat)) by (nonlinear_arith)
                requires pow2(last) * pow2(1) == pow2(i as nat), pow2(1) == 2, pow2(last) >= 1;
            assert(q.value() * d.value() == 0) by (nonlinear_arith)
                requires q.value() == 0;
        }
        while i > 0
            invariant
                i <= multiples@.len(),
                self.wf(),
                d.wf(),
                q.wf(),
                r.wf(),
                d.value() > 0,
                2 * self.value() < w@,
                w@ == limb_weight(LIMBS as nat),
                multiples@.len() == powers@.len(),
                forall|k: int| 0 <= k < multiples@.len() ==> (#[trigger] multiples@[k]).wf()
                    && multiples@[k].value() == d.value() * pow2(k as nat),
                forall|k: int| 0 <= k < powers@.len() ==> (#[trigger] powers@[k]).wf()
                    && powers@[k].value() == pow2(k as nat),
                self.value() == q.value() * d.value() + r.value(),
                r.value() < d.value() * pow2(i as nat),
            decreases i,
        {
            i = i - 1;
            proof {
                lemma_pow2_adds(i as nat, 1);
                lemma2_to64();
            }
            if !r.lt(&multiples[i]) {
                let ghost old_q = q.value();
                let ghost old_r = r.value();
                proof {
                    assert((old_q + pow2(i as nat)) * d.value() <= self.value()) by (nonlinear_arith)
                        requires
                            self.value() == old_q * d.value() + old_r,
                            d.value() * pow2(i as nat) <= old_r;
                    assert(old_q + pow2(i as nat) <= (old_q + pow2(i as nat)) * d.value())
                        by (nonlinear_arith)
                        requires d.value() >= 1;
                }
                r = r.sub(&multiples[i]);
                q = q.add(&powers[i]);
                proof {
                    assert(self.value() == q.value() * d.value() + r.value()) by (nonlinear_arith)
                        requires
                            self.value() == old_q * d.value() + old_r,
                            q.value() == old_q + pow2(i as nat),
                            r.value() == old_r - d.value() * pow2(i as nat);
                    assert(r.value() < d.value() * pow2(i as nat)) by (nonlinear_arith)
                        requires
                            old_r < d.value() * pow2(i as nat + 1),
                            pow2(i as nat) * pow2(1) == pow2(i as nat + 1),
                            pow2(1) == 2,
                            r.value() == old_r - d.value() * pow2(i as nat);
                }
            } else {
                assert(true);
            }
        }
        proof {
            assert(pow2(0) == 1);
        }
        (q, r)
    }
}

impl U256 {
    /// The quotient, or `None` when `rhs` is zero.
    pub fn checked_div(&self, rhs: &U256) -> (res: Option<U256>)
        ensures
            rhs@ > 0 ==> (res matches Some(q) && q@ == self@ / rhs@),
            rhs@ == 0 ==> res.is_none(),
    {
        if rhs.is_zero() {
            return None;
        }
        let n = WideUint::from_u256(*self);
        let d = WideUint::from_u256(*rhs);
        proof {
            lemma_u256_bound(*self);
            lemma_limb_weight_values();
            assert(2 * self@ < base256() * base256()) by (nonlinear_arith)
                requires self@ < base256(), base256() >= 2;
        }
        let (q, r) = n.div_rem(&d);
        proof {
            lemma_fundamental_div_mod_converse(self@ as int, rhs@ as int, q.value() as int, r.value() as int);
            lemma_div_is_ordered(self@ as int, base256() as int, rhs@ as int);
            lemma_div_is_ordered_by_denominator(base256() as int, 1, rhs@ as int);
        }
        Some(q.to_u256())
    }
}

} // verus!
