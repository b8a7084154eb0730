//! Account addresses.
use vstd::prelude::*;

verus! {

/// A 32-byte account address, held as its big-endian value in two halves:
/// `hi` is read from bytes 0..16 and `lo` from bytes 16..32, so that the
/// numeric order of `(hi, lo)` is the lexicographic order of the bytes.
#[derive(Clone, Copy, Debug, PartialEq, Eq, Structural)]
pub struct AccountId {
    pub hi: u128,
    pub lo: u128,
}

/// Big-endian value of the first `n` bytes of `s`.
pub open spec fn be_value(s: Seq<u8>, n: nat) -> nat
    decreases n,
{
    if n == 0 {
        0
    } else {
        be_value(s, (n - 1) as nat) * 256 + s[n - 1] as nat
    }
}

/// The big-endian value of `n` bytes stays below 256^n.
proof fn lemma_be_value_bound(s: Seq<u8>, n: nat)
    requires
        n <= s.len(),
    ensures
        be_value(s, n) < vstd::arithmetic::power2::pow2(8 * n),
    decreases n,
{
    vstd::arithmetic::power2::lemma2_to64();
    if n > 0 {
        let m = (n - 1) as nat;
        lemma_be_value_bound(s, m);
        vstd::arithmetic::power2::lemma_pow2_adds(8 * m, 8);
        assert(8 * m + 8 == 8 * n);
        let p = vstd::arithmetic::power2::pow2(8 * m);
        assert(be_value(s, m) * 256 + s[m as int] < p * 256) by (nonlinear_arith)
            requires be_value(s, m) < p, s[m as int] < 256;
    }
}

/// Whole-address order.
pub open spec fn account_lt(a: AccountId, b: AccountId) -> bool {
    a.hi < b.hi || (a.hi == b.hi && a.lo < b.lo)
}

/// Big-endian value of 16 bytes.
fn be_u128(bytes: &[u8; 32], start: usize) -> (res: u128)
    requires
        start == 0 || start == 16,
    ensures
        res == be_value(bytes@.subrange(start as int, start + 16), 16),
{
    let ghost part = bytes@.subrange(start as int, start + 16);
    let mut v: u128 = 0;
    let mut i: usize = 0;
    while i < 16
        invariant
            i <= 16,
            start == 0 || start == 16,
            part == bytes@.subrange(start as int, start + 16),
            v == be_value(part, i as nat),
        decreases 16 - i,
    {
        proof {
            lemma_be_value_bound(part, (i + 1) as nat);
            if i + 1 < 16 {
                vstd::arithmetic::power2::lemma_pow2_strictly_increases((8 * (i + 1)) as nat, 128);
            }
            vstd::arithmetic::power2::lemma2_to64();
            vstd::arithmetic::power2::lemma2_to64_rest();
            vstd::arithmetic::power2::lemma_pow2_adds(64, 64);
        }
        v = v * 256 + bytes[start + i] as u128;
        i = i + 1;
    }
    v
}

/// The big-endian value of the first `n` bytes depends on those bytes only.
proof fn lemma_be_value_prefix(s: Seq<u8>, t: Seq<u8>, n: nat)
    requires
        n <= s.len(),
        n <= t.len(),
        forall|i: int| 0 <= i < n ==> s[i] == t[i],
    ensures
        be_value(s, n) == be_value(t, n),
    decreases n,
{
    if n > 0 {
        lemma_be_value_prefix(s, t, (n - 1) as nat);
    }
}

/// Writes the 16 big-endian bytes of `v` at `start`, leaving the other bytes alone.
fn write_be_u128(bytes: &mut [u8; 32], start: usize, v: u128)
    requires
        start == 0 || start == 16,
    ensures
        be_value(final(bytes)@.subrange(start as int, start + 16), 16) == v,
        forall|i: int| 0 <= i < 32 && !(start <= i < start + 16) ==> final(bytes)@[i] == old(bytes)@[i],
{
    let ghost orig = bytes@;
    assert(v >> 128u128 == 0) by (bit_vector);
    let mut i: usize = 0;
    while i < 16
        invariant
            i <= 16,
            start == 0 || start == 16,
            bytes@.len() == 32,
            orig.len() == 32,
            be_value(bytes@.subrange(start as int, start + 16), i as nat) == (v >> ((8 * (16 - i)) as u128)),
            forall|j: int| 0 <= j < 32 && !(start <= j < start + 16) ==> bytes@[j] == orig[j],
        decreases 16 - i,
    {
        let sh: u128 = (8 * (15 - i)) as u128;
        let byte: u128 = (v >> sh) & 0xff;
        assert(byte < 256) by (bit_vector)
            requires byte == (v >> sh) & 0xff;
        assert((v >> (sh + 8)) * 256 + ((v >> sh) & 0xff) == v >> sh) by (bit_vector)
            requires sh <= 120;
        let ghost before = bytes@;
        bytes[start + i] = byte as u8;
        proof {
            let old_part = before.subrange(start as int, start + 16);
            let new_part = bytes@.subrange(start as int, start + 16);
            lemma_be_value_prefix(old_part, new_part, i as nat);
            assert(new_part[i as int] == byte as u8);
            assert(sh + 8 == (8 * (16 - i)) as u128);
        }
        i = i + 1;
    }
    assert(v >> 0u128 == v) by (bit_vector);
}

impl AccountId {
    /// The address with the given bytes.
    pub fn from_bytes(bytes: [u8; 32]) -> (res: AccountId)
        ensures
            res.hi == be_value(bytes@.subrange(0, 16), 16),
            res.lo == be_value(bytes@.subrange(16, 32), 16),
    {
        AccountId { hi: be_u128(&bytes, 0), lo: be_u128(&bytes, 16) }
    }

    /// The bytes of the address: `from_bytes` gives back the address from them.
    pub fn to_bytes(&self) -> (res: [u8; 32])
        ensures
            be_value(res@.subrange(0, 16), 16) == self.hi,
            be_value(res@.subrange(16, 32), 16) == self.lo,
    {
        let mut bytes = [0u8; 32];
        write_be_u128(&mut bytes, 0, self.hi);
        let ghost first = bytes@;
        write_be_u128(&mut bytes, 16, self.lo);
        proof {
            lemma_be_value_prefix(first.subrange(0, 16), bytes@.subrange(0, 16), 16);
        }
        bytes
    }

    /// Whether `self` orders before `other`.
    pub fn lt(&self, other: &AccountId) -> (res: bool)
        ensures
            res == account_lt(*self, *other),
    {
        self.hi < other.hi || (self.hi == other.hi && self.lo < other.lo)
    }
}

} // verus!
