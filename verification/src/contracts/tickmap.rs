//! The tick map: one bit per usable tick of each pool, set while the tick is
//! initialized. Bits are kept in chunks of 64, keyed by chunk number and pool.
use crate::contracts::collections::{
    assoc_map, keys_distinct, lemma_assoc_map_dom, lemma_assoc_map_index, lemma_assoc_map_update,
};
use crate::contracts::storage::PoolKey;
use crate::math::consts::MAX_TICK;
use crate::math::error::MathError;
use crate::math::types::sqrt_price::{spec_sqrt_price, tick_in_range, SqrtPrice};
use vstd::arithmetic::div_mod::*;
use vstd::prelude::*;

verus! {

/// Number of ticks that one chunk of the tick map covers.
pub const CHUNK_SIZE: i32 = 64;

/// Index of an aligned tick on the map of its spacing: `tick / spacing + (MAX_TICK as int) / spacing`,
/// so that the lowest usable tick has index 0.
pub open spec fn spec_tick_index(tick: int, spacing: int) -> int {
    tick / spacing + (MAX_TICK as int) / spacing
}

/// Chunk and bit at which the map keeps an aligned tick.
pub open spec fn spec_tick_to_position(tick: int, spacing: int) -> (int, int) {
    (spec_tick_index(tick, spacing) / 64, spec_tick_index(tick, spacing) % 64)
}

/// Whether bit `bit` of `chunk` is set.
pub open spec fn spec_bit(chunk: u64, bit: u64) -> bool {
    (chunk >> bit) & 1u64 == 1u64
}

/// The chunk stored under `(chunk, key)`, or 0 where none is.
pub open spec fn spec_chunk(m: Map<(u16, PoolKey), u64>, chunk: int, key: PoolKey) -> u64 {
    if m.dom().contains((chunk as u16, key)) {
        m[(chunk as u16, key)]
    } else {
        0
    }
}

/// Whether the bit with map index `i` of pool `key` is set; indices beyond
/// the last chunk are never set.
pub open spec fn spec_index_set(m: Map<(u16, PoolKey), u64>, key: PoolKey, i: int) -> bool {
    &&& 0 <= i < 64 * 65536
    &&& spec_bit(spec_chunk(m, i / 64, key), (i % 64) as u64)
}

/// Whether the aligned tick `tick` of pool `key`, on a grid of `spacing`, is marked initialized.
pub open spec fn spec_tick_initialized(m: Map<(u16, PoolKey), u64>, key: PoolKey, tick: int, spacing: int) -> bool {
    spec_index_set(m, key, spec_tick_index(tick, spacing))
}

/// Number of set bits of pool `key` with map index in `[lo, hi]`.
pub open spec fn spec_count_set(m: Map<(u16, PoolKey), u64>, key: PoolKey, lo: int, hi: int) -> nat
    decreases hi - lo + 1,
{
    if hi < lo {
        0
    } else {
        spec_count_set(m, key, lo, hi - 1) + if spec_index_set(m, key, hi) {
            1nat
        } else {
            0nat
        }
    }
}

/// The map with the bit of the aligned tick `tick` of pool `key` flipped.
pub open spec fn spec_flipped(m: Map<(u16, PoolKey), u64>, key: PoolKey, tick: int, spacing: int) -> Map<(u16, PoolKey), u64> {
    let (chunk, bit) = spec_tick_to_position(tick, spacing);
    m.insert((chunk as u16, key), spec_chunk(m, chunk, key) ^ (1u64 << (bit as u64)))
}

/// No more bits are set in a range of indices than it holds.
pub proof fn lemma_count_set_bound(m: Map<(u16, PoolKey), u64>, key: PoolKey, lo: int, hi: int)
    ensures
        hi < lo ==> spec_count_set(m, key, lo, hi) == 0,
        lo <= hi ==> spec_count_set(m, key, lo, hi) <= hi - lo + 1,
    decreases hi - lo + 1,
{
    if lo <= hi {
        lemma_count_set_bound(m, key, lo, hi - 1);
    }
}

/// Flipping the bit of an aligned tick changes that bit and no other.
pub proof fn lemma_flipped_bits(m: Map<(u16, PoolKey), u64>, key: PoolKey, tick: int, spacing: int)
    requires
        aligned_tick(tick, spacing),
    ensures
        forall|k: PoolKey, i: int| #[trigger] spec_index_set(spec_flipped(m, key, tick, spacing), k, i) == if k == key && i
            == spec_tick_index(tick, spacing) {
            !spec_index_set(m, key, i)
        } else {
            spec_index_set(m, k, i)
        },
{
    lemma_tick_index(tick, tick, spacing);
    let idx = spec_tick_index(tick, spacing);
    let (chunk, bit) = spec_tick_to_position(tick, spacing);
    lemma_fundamental_div_mod(idx, 64);
    lemma_mod_bound(idx, 64);
    lemma_div_is_ordered(0, idx, 64);
    lemma_div_is_ordered(idx, 64 * 65536 - 1, 64);
    let returned = spec_chunk(m, chunk, key);
    let b = bit as u64;
    let m2 = spec_flipped(m, key, tick, spacing);
    assert forall|k: PoolKey, i: int| #[trigger] spec_index_set(m2, k, i) == if k == key && i == idx {
        !spec_index_set(m, key, i)
    } else {
        spec_index_set(m, k, i)
    } by {
        if k == key && 0 <= i < 64 * 65536 && i / 64 == chunk {
            let j = (i % 64) as u64;
            lemma_mod_bound(i, 64);
            assert(spec_chunk(m2, i / 64, k) == returned ^ (1u64 << b));
            assert(spec_bit(returned ^ (1u64 << b), j) == if j == b {
                !spec_bit(returned, j)
            } else {
                spec_bit(returned, j)
            }) by (bit_vector)
                requires
                    b < 64,
                    j < 64,
            ;
            lemma_fundamental_div_mod(i, 64);
        } else if k == key && 0 <= i < 64 * 65536 {
            assert((i / 64) as u16 != chunk as u16) by {
                lemma_div_is_ordered(0, i, 64);
                lemma_div_is_ordered(i, 64 * 65536 - 1, 64);
            }
        }
    }
}

/// A tick that `check_tick` accepts: a multiple of the spacing within the tick range.
pub open spec fn aligned_tick(tick: int, spacing: int) -> bool {
    &&& spacing > 0
    &&& tick % spacing == 0
    &&& -(MAX_TICK as int) <= tick <= MAX_TICK
}

/// Map indices of aligned ticks lie in `[0, 2 * MAX_TICK]`, and two aligned
/// ticks share an index only when they are the same tick.
pub proof fn lemma_tick_index(tick: int, other: int, spacing: int)
    requires
        aligned_tick(tick, spacing),
        aligned_tick(other, spacing),
    ensures
        0 <= spec_tick_index(tick, spacing) <= 2 * MAX_TICK,
        spec_tick_index(tick, spacing) <= 2 * ((MAX_TICK as int) / spacing),
        spec_tick_index(tick, spacing) == spec_tick_index(other, spacing) ==> tick == other,
        tick < other ==> spec_tick_index(tick, spacing) < spec_tick_index(other, spacing),
{
    lemma_fundamental_div_mod(tick, spacing);
    lemma_fundamental_div_mod(other, spacing);
    let q = tick / spacing;
    let r = other / spacing;
    assert(tick == spacing * q);
    assert(other == spacing * r);
    let mq = (MAX_TICK as int) / spacing;
    lemma_fundamental_div_mod(MAX_TICK as int, spacing);
    lemma_div_is_ordered_by_denominator(MAX_TICK as int, 1, spacing);
    assert(-mq <= q <= mq) by (nonlinear_arith)
        requires
            tick == spacing * q,
            spacing >= 1,
            -(MAX_TICK as int) <= tick <= MAX_TICK,
            MAX_TICK == spacing * mq + (MAX_TICK as int) % spacing,
            0 <= (MAX_TICK as int) % spacing < spacing,
    ;
    assert(0 <= mq <= MAX_TICK);
    if tick < other {
        assert(q < r) by (nonlinear_arith)
            requires
                tick == spacing * q,
                other == spacing * r,
                spacing >= 1,
                tick < other,
        ;
    }
    if tick > other {
        assert(q > r) by (nonlinear_arith)
            requires
                tick == spacing * q,
                other == spacing * r,
                spacing >= 1,
                tick > other,
        ;
    }
}

/// Chunk and bit of an aligned tick on the map of its spacing.
pub fn tick_to_position(tick: i32, tick_spacing: u16) -> (res: (u16, u8))
    requires
        aligned_tick(tick as int, tick_spacing as int),
    ensures
        res.0 as int == spec_tick_to_position(tick as int, tick_spacing as int).0,
        res.1 as int == spec_tick_to_position(tick as int, tick_spacing as int).1,
        0 <= spec_tick_index(tick as int, tick_spacing as int) <= 2 * MAX_TICK,
{
    let s = tick_spacing as i64;
    let ghost q = (tick as int) / (tick_spacing as int);
    let ghost mq = (MAX_TICK as int) / (tick_spacing as int);
    proof {
        lemma_tick_index(tick as int, tick as int, tick_spacing as int);
        lemma_fundamental_div_mod(tick as int, tick_spacing as int);
        lemma_fundamental_div_mod(MAX_TICK as int, tick_spacing as int);
        assert((tick as int) + mq * (tick_spacing as int) == (tick_spacing as int) * (q + mq)) by (nonlinear_arith)
            requires
                tick as int == (tick_spacing as int) * q,
        ;
        assert(0 <= (tick_spacing as int) * (q + mq) <= 65535 * (2 * MAX_TICK)) by (nonlinear_arith)
            requires
                0 <= q + mq <= 2 * MAX_TICK,
                1 <= tick_spacing <= 65535,
        ;
        assert(0 <= mq * (tick_spacing as int) <= MAX_TICK) by (nonlinear_arith)
            requires
                0 <= mq,
                MAX_TICK == (tick_spacing as int) * mq + (MAX_TICK as int) % (tick_spacing as int),
                0 <= (MAX_TICK as int) % (tick_spacing as int),
        ;
        lemma_fundamental_div_mod(MAX_TICK as int, tick_spacing as int);
        lemma_div_multiples_vanish(q + mq, tick_spacing as int);
    }
    let max_index: i64 = (MAX_TICK as i64) / s;
    let shifted: i64 = tick as i64 + max_index * s;
    let index: u64 = (shifted as u64) / (tick_spacing as u64);
    ((index / 64) as u16, (index % 64) as u8)
}

/// The bits of every pool's usable ticks, in chunks of 64.
pub struct Tickmap {
    chunks: Vec<((u16, PoolKey), u64)>,
}

impl View for Tickmap {
    type V = Map<(u16, PoolKey), u64>;

    closed spec fn view(&self) -> Map<(u16, PoolKey), u64> {
        assoc_map(self.chunks@)
    }
}

impl Tickmap {
    /// No chunk is stored twice.
    pub closed spec fn wf(&self) -> bool {
        keys_distinct(self.chunks@)
    }

    /// The stored chunks, in storage order.
    pub closed spec fn entry_list(&self) -> Seq<((u16, PoolKey), u64)> {
        self.chunks@
    }

    /// An empty map: no tick is initialized.
    pub fn new() -> (res: Tickmap)
        ensures
            res.wf(),
            res@ == Map::<(u16, PoolKey), u64>::empty(),
    {
        Tickmap { chunks: Vec::new() }
    }

    fn find(&self, chunk: u16, key: PoolKey) -> (res: Option<usize>)
        requires
            self.wf(),
        ensures
            res matches Some(i) ==> i < self.chunks@.len() && self.chunks@[i as int].0 == (chunk, key),
            res is None ==> !self@.dom().contains((chunk, key)),
    {
        let mut i: usize = 0;
        while i < self.chunks.len()
            invariant
                i <= self.chunks@.len(),
                forall|j: int| 0 <= j < i ==> #[trigger] self.chunks@[j].0 != (chunk, key),
            decreases self.chunks@.len() - i,
        {
            let e = &self.chunks[i];
            if e.0.0 == chunk && e.0.1 == key {
                return Some(i);
            }
            i = i + 1;
        }
        proof {
            lemma_assoc_map_dom(self.chunks@, (chunk, key));
        }
        None
    }

    /// The chunk stored under `(chunk, key)`, or 0.
    pub fn get_chunk(&self, chunk: u16, key: PoolKey) -> (res: u64)
        requires
            self.wf(),
        ensures
            res == spec_chunk(self@, chunk as int, key),
    {
        match self.find(chunk, key) {
            Some(i) => {
                proof {
                    lemma_assoc_map_index(self.chunks@, i as int);
                }
                self.chunks[i].1
            },
            None => 0,
        }
    }

    fn set_chunk(&mut self, chunk: u16, key: PoolKey, value: u64)
        requires
            old(self).wf(),
        ensures
            final(self).wf(),
            final(self)@ == old(self)@.insert((chunk, key), value),
    {
        match self.find(chunk, key) {
            Some(i) => {
                proof {
                    lemma_assoc_map_update(self.chunks@, i as int, value);
                }
                self.chunks.set(i, ((chunk, key), value));
            },
            None => {
                let ghost before = self.chunks@;
                proof {
                    lemma_assoc_map_dom(before, (chunk, key));
                }
                self.chunks.push(((chunk, key), value));
                proof {
                    assert(self.chunks@.drop_last() =~= before);
                    assert forall|a: int, b: int| 0 <= a < b < self.chunks@.len() implies #[trigger] self.chunks@[a].0
                        != #[trigger] self.chunks@[b].0 by {
                        if b == self.chunks@.len() - 1 {
                            assert(before[a].0 != (chunk, key));
                        } else {
                            assert(before[a].0 != before[b].0);
                        }
                    }
                }
            },
        }
    }

    /// Whether the aligned tick `tick` of pool `key` is marked initialized.
    pub fn get(&self, tick: i32, tick_spacing: u16, key: PoolKey) -> (res: bool)
        requires
            self.wf(),
            aligned_tick(tick as int, tick_spacing as int),
        ensures
            res == spec_tick_initialized(self@, key, tick as int, tick_spacing as int),
    {
        let (chunk, bit) = tick_to_position(tick, tick_spacing);
        let value = self.get_chunk(chunk, key);
        (value >> bit) & 1u64 == 1u64
    }

    /// Marks the aligned tick `tick` of pool `key` initialized (`value`) or not;
    /// the mark must change. Every other bit stays as it was.
    pub fn flip(&mut self, value: bool, tick: i32, tick_spacing: u16, key: PoolKey)
        requires
            old(self).wf(),
            aligned_tick(tick as int, tick_spacing as int),
            spec_tick_initialized(old(self)@, key, tick as int, tick_spacing as int) != value,
        ensures
            final(self).wf(),
            final(self)@ == spec_flipped(old(self)@, key, tick as int, tick_spacing as int),
            forall|k: PoolKey, i: int| #[trigger] spec_index_set(final(self)@, k, i) == if k == key && i == spec_tick_index(tick as int, tick_spacing as int) {
                value
            } else {
                spec_index_set(old(self)@, k, i)
            },
    {
        let (chunk, bit) = tick_to_position(tick, tick_spacing);
        let returned = self.get_chunk(chunk, key);
        let flipped = returned ^ (1u64 << (bit as u64));
        let ghost before = self@;
        self.set_chunk(chunk, key, flipped);
        proof {
            let m2 = spec_flipped(before, key, tick as int, tick_spacing as int);
            lemma_flipped_bits(before, key, tick as int, tick_spacing as int);
            assert(self@ == m2);
            assert forall|k: PoolKey, i: int| #[trigger] spec_index_set(self@, k, i) == if k == key && i
                == spec_tick_index(tick as int, tick_spacing as int) {
                value
            } else {
                spec_index_set(before, k, i)
            } by {
                assert(spec_index_set(m2, k, i) == spec_index_set(self@, k, i));
            }
        }
    }

    /// Number of set bits of pool `key` with map index in `[lo, hi]`.
    pub fn count_set(&self, key: PoolKey, lo: u32, hi: u32) -> (res: u32)
        requires
            self.wf(),
            hi < 64 * 65536,
        ensures
            res == spec_count_set(self@, key, lo as int, hi as int),
    {
        if hi < lo {
            return 0;
        }
        let mut amount: u32 = 0;
        let mut i: u32 = lo;
        let mut chunk: u16 = (lo / 64) as u16;
        let mut value: u64 = self.get_chunk(chunk, key);
        while i <= hi
            invariant
                self.wf(),
                lo <= i <= hi + 1,
                hi < 64 * 65536,
                amount == spec_count_set(self@, key, lo as int, i - 1),
                amount <= i - lo,
                value == spec_chunk(self@, chunk as int, key),
            decreases hi + 1 - i,
        {
            if (i / 64) as u16 != chunk {
                chunk = (i / 64) as u16;
                value = self.get_chunk(chunk, key);
            }
            let bit: u64 = (i % 64) as u64;
            proof {
                lemma_div_is_ordered(i as int, 64 * 65536 - 1, 64);
                assert(chunk as int == i as int / 64);
            }
            if (value >> bit) & 1u64 == 1u64 {
                amount = amount + 1;
            }
            i = i + 1;
        }
        amount
    }

    /// Restores a map from stored chunks; `None` when a chunk is stored twice.
    pub fn from_entries(entries: Vec<((u16, PoolKey), u64)>) -> (res: Option<Tickmap>)
        ensures
            res is Some <==> keys_distinct(entries@),
            res matches Some(t) ==> t.wf() && t@ == assoc_map(entries@) && t.entry_list() == entries@,
    {
        let mut i: usize = 0;
        while i < entries.len()
            invariant
                i <= entries@.len(),
                forall|a: int, b: int| 0 <= a < b < i ==> #[trigger] entries@[a].0 != #[trigger] entries@[b].0,
            decreases entries@.len() - i,
        {
            let mut j: usize = 0;
            while j < i
                invariant
                    j <= i < entries@.len(),
                    forall|a: int| 0 <= a < j ==> #[trigger] entries@[a].0 != entries@[i as int].0,
                decreases i - j,
            {
                if entries[j].0.0 == entries[i].0.0 && entries[j].0.1 == entries[i].0.1 {
                    return None;
                }
                j = j + 1;
            }
            i = i + 1;
        }
        Some(Tickmap { chunks: entries })
    }

    /// The stored chunks, as `from_entries` takes them.
    pub fn entries(&self) -> (res: Vec<((u16, PoolKey), u64)>)
        ensures
            res@ == self.entry_list(),
    {
        let mut res: Vec<((u16, PoolKey), u64)> = Vec::new();
        let mut i: usize = 0;
        while i < self.chunks.len()
            invariant
                i <= self.chunks.len(),
                res@ == self.chunks@.take(i as int),
            decreases self.chunks.len() - i,
        {
            res.push(self.chunks[i]);
            i = i + 1;
            assert(res@ =~= self.chunks@.take(i as int));
        }
        assert(self.chunks@.take(i as int) =~= self.chunks@);
        res
    }
}

/// How far a search for an initialized tick looks, in ticks of the grid.
pub const TICK_SEARCH_RANGE: i32 = 256;

/// The farthest tick a search from the aligned `tick` looks at, upwards (`up`)
/// or downwards: `TICK_SEARCH_RANGE` grid ticks away, or the last usable tick.
pub open spec fn spec_search_limit(tick: int, spacing: int, up: bool) -> int {
    let index = tick / spacing;
    let bound = (MAX_TICK as int) / spacing;
    if up {
        (if index + 256 < bound {
            index + 256
        } else {
            bound
        }) * spacing
    } else {
        (if index - 256 > -bound {
            index - 256
        } else {
            -bound
        }) * spacing
    }
}

/// The highest marked tick of pool `key` among the grid ticks `t, t - s, ...`
/// down to `lo`, if any.
pub open spec fn spec_scan_down(m: Map<(u16, PoolKey), u64>, key: PoolKey, t: int, lo: int, s: int) -> Option<int>
    decreases (if t < lo {
        0
    } else {
        t - lo + 1
    }),
    when s > 0
{
    if t < lo {
        None
    } else if spec_tick_initialized(m, key, t, s) {
        Some(t)
    } else {
        spec_scan_down(m, key, t - s, lo, s)
    }
}

/// The lowest marked tick of pool `key` among the grid ticks `t, t + s, ...`
/// up to `hi`, if any.
pub open spec fn spec_scan_up(m: Map<(u16, PoolKey), u64>, key: PoolKey, t: int, hi: int, s: int) -> Option<int>
    decreases (if t > hi {
        0
    } else {
        hi - t + 1
    }),
    when s > 0
{
    if t > hi {
        None
    } else if spec_tick_initialized(m, key, t, s) {
        Some(t)
    } else {
        spec_scan_up(m, key, t + s, hi, s)
    }
}

/// The nearest initialized tick strictly above the aligned `tick`, within the search limit.
pub open spec fn spec_next_initialized(m: Map<(u16, PoolKey), u64>, key: PoolKey, tick: int, s: int) -> Option<int> {
    if tick + s > MAX_TICK {
        None
    } else {
        spec_scan_up(m, key, tick + s, spec_search_limit(tick, s, true), s)
    }
}

/// The nearest initialized tick at or below the aligned `tick`, within the search limit.
pub open spec fn spec_prev_initialized(m: Map<(u16, PoolKey), u64>, key: PoolKey, tick: int, s: int) -> Option<int> {
    spec_scan_down(m, key, tick, spec_search_limit(tick, s, false), s)
}

/// Where a swap step from the aligned `current_tick` stops: the price of the
/// nearest initialized tick in the swap's direction, or of the search limit
/// when there is none, unless the swap's own price limit comes first. The tick
/// is returned with whether it is initialized; none for the price limit.
pub open spec fn spec_closer_limit(
    m: Map<(u16, PoolKey), u64>,
    key: PoolKey,
    sqrt_price_limit: nat,
    x_to_y: bool,
    current_tick: int,
    s: int,
) -> (nat, Option<(int, bool)>) {
    let closest = if x_to_y {
        spec_prev_initialized(m, key, current_tick, s)
    } else {
        spec_next_initialized(m, key, current_tick, s)
    };
    let (index, initialized) = match closest {
        Some(i) => (i, true),
        None => (spec_search_limit(current_tick, s, !x_to_y), false),
    };
    let price = spec_sqrt_price(index);
    if (x_to_y && price > sqrt_price_limit) || (!x_to_y && price < sqrt_price_limit) {
        (price, Some((index, initialized)))
    } else {
        (sqrt_price_limit, None)
    }
}

/// A search limit is a usable tick of the grid.
pub proof fn lemma_search_limit(tick: int, spacing: int, up: bool)
    requires
        aligned_tick(tick, spacing),
    ensures
        aligned_tick(spec_search_limit(tick, spacing, up), spacing),
        up ==> spec_search_limit(tick, spacing, up) >= tick,
        !up ==> spec_search_limit(tick, spacing, up) <= tick,
{
    let index = tick / spacing;
    let bound = (MAX_TICK as int) / spacing;
    lemma_fundamental_div_mod(tick, spacing);
    lemma_fundamental_div_mod(MAX_TICK as int, spacing);
    lemma_div_is_ordered_by_denominator(MAX_TICK as int, 1, spacing);
    assert(-bound <= index <= bound) by (nonlinear_arith)
        requires
            tick == spacing * index,
            spacing >= 1,
            -(MAX_TICK as int) <= tick <= MAX_TICK,
            MAX_TICK == spacing * bound + (MAX_TICK as int) % spacing,
            0 <= (MAX_TICK as int) % spacing < spacing,
    ;
    let k = if up {
        if index + 256 < bound {
            index + 256
        } else {
            bound
        }
    } else {
        if index - 256 > -bound {
            index - 256
        } else {
            -bound
        }
    };
    assert(-bound <= k <= bound);
    assert(-(MAX_TICK as int) <= k * spacing <= MAX_TICK) by (nonlinear_arith)
        requires
            -bound <= k <= bound,
            spacing >= 1,
            MAX_TICK == spacing * bound + (MAX_TICK as int) % spacing,
            0 <= (MAX_TICK as int) % spacing,
    ;
    lemma_mod_multiples_basic(k, spacing);
    if up {
        assert(k * spacing >= tick) by (nonlinear_arith)
            requires
                k >= index,
                tick == spacing * index,
                spacing >= 1,
        ;
    } else {
        assert(k * spacing <= tick) by (nonlinear_arith)
            requires
                k <= index,
                tick == spacing * index,
                spacing >= 1,
        ;
    }
}

/// The search limit from `tick` (see `spec_search_limit`).
pub fn get_search_limit(tick: i32, tick_spacing: u16, up: bool) -> (res: i32)
    requires
        aligned_tick(tick as int, tick_spacing as int),
    ensures
        res as int == spec_search_limit(tick as int, tick_spacing as int, up),
{
    proof {
        lemma_search_limit(tick as int, tick_spacing as int, up);
        lemma_fundamental_div_mod(tick as int, tick_spacing as int);
        lemma_div_is_ordered_by_denominator(MAX_TICK as int, 1, tick_spacing as int);
        assert(-(MAX_TICK as int) <= (tick as int) / (tick_spacing as int) <= MAX_TICK) by (nonlinear_arith)
            requires
                tick as int == (tick_spacing as int) * ((tick as int) / (tick_spacing as int)),
                tick_spacing >= 1,
                -(MAX_TICK as int) <= tick <= MAX_TICK,
        ;
    }
    let spacing = tick_spacing as i32;
    let index = tick.checked_div_euclid(spacing).unwrap();
    let bound = MAX_TICK / spacing;
    let limit = if up {
        if index + 256 < bound {
            index + 256
        } else {
            bound
        }
    } else {
        if index - 256 > -bound {
            index - 256
        } else {
            -bound
        }
    };
    proof {
        assert(-(MAX_TICK as int) <= (limit as int) * (spacing as int) <= MAX_TICK);
    }
    limit * spacing
}

impl Tickmap {
    /// The nearest initialized tick at or below `tick` within the search
    /// limit (see `spec_prev_initialized`).
    pub fn prev_initialized(&self, tick: i32, tick_spacing: u16, key: PoolKey) -> (res: Option<i32>)
        requires
            self.wf(),
            aligned_tick(tick as int, tick_spacing as int),
        ensures
            match (res, spec_prev_initialized(self@, key, tick as int, tick_spacing as int)) {
                (Some(t), Some(u)) => t as int == u,
                (None, None) => true,
                _ => false,
            },
    {
        let limit = get_search_limit(tick, tick_spacing, false);
        proof {
            lemma_search_limit(tick as int, tick_spacing as int, false);
        }
        let spacing = tick_spacing as i32;
        let mut t = tick;
        while t >= limit
            invariant
                self.wf(),
                tick_spacing > 0,
                spacing == tick_spacing as i32,
                aligned_tick(limit as int, tick_spacing as int),
                limit <= t + spacing,
                t <= tick,
                t >= limit ==> aligned_tick(t as int, tick_spacing as int),
                spec_prev_initialized(self@, key, tick as int, tick_spacing as int) == spec_scan_down(
                    self@,
                    key,
                    t as int,
                    limit as int,
                    tick_spacing as int,
                ),
            decreases (if t < limit {
                0
            } else {
                t - limit + 1
            }),
        {
            if self.get(t, tick_spacing, key) {
                return Some(t);
            }
            proof {
                if t - spacing >= limit {
                    lemma_mod_sub_multiples_vanish(t as int, spacing as int);
                    assert((t - spacing) as int % (spacing as int) == 0) by {
                        lemma_mod_multiples_vanish(-1, t as int, spacing as int);
                    }
                }
            }
            t = t - spacing;
        }
        None
    }

    /// The nearest initialized tick strictly above `tick` within the search
    /// limit (see `spec_next_initialized`).
    pub fn next_initialized(&self, tick: i32, tick_spacing: u16, key: PoolKey) -> (res: Option<i32>)
        requires
            self.wf(),
            aligned_tick(tick as int, tick_spacing as int),
        ensures
            match (res, spec_next_initialized(self@, key, tick as int, tick_spacing as int)) {
                (Some(t), Some(u)) => t as int == u,
                (None, None) => true,
                _ => false,
            },
    {
        let spacing = tick_spacing as i32;
        if tick + spacing > MAX_TICK {
            return None;
        }
        let limit = get_search_limit(tick, tick_spacing, true);
        proof {
            lemma_search_limit(tick as int, tick_spacing as int, true);
        }
        let mut t = tick + spacing;
        proof {
            lemma_mod_multiples_vanish(1, tick as int, spacing as int);
        }
        while t <= limit
            invariant
                self.wf(),
                tick_spacing > 0,
                spacing == tick_spacing as i32,
                aligned_tick(limit as int, tick_spacing as int),
                t <= limit + spacing,
                t > tick,
                t <= limit ==> aligned_tick(t as int, tick_spacing as int),
                spec_next_initialized(self@, key, tick as int, tick_spacing as int) == spec_scan_up(
                    self@,
                    key,
                    t as int,
                    limit as int,
                    tick_spacing as int,
                ),
            decreases (if t > limit {
                0
            } else {
                limit - t + 1
            }),
        {
            if self.get(t, tick_spacing, key) {
                return Some(t);
            }
            proof {
                lemma_mod_multiples_vanish(1, t as int, spacing as int);
            }
            t = t + spacing;
        }
        None
    }

    /// Where a swap step stops (see `spec_closer_limit`).
    pub fn get_closer_limit(
        &self,
        sqrt_price_limit: SqrtPrice,
        x_to_y: bool,
        current_tick: i32,
        tick_spacing: u16,
        key: PoolKey,
    ) -> (res: (SqrtPrice, Option<(i32, bool)>))
        requires
            self.wf(),
            aligned_tick(current_tick as int, tick_spacing as int),
        ensures
            ({
                let (p, t) = spec_closer_limit(self@, key, sqrt_price_limit.0 as nat, x_to_y, current_tick as int, tick_spacing as int);
                &&& res.0.0 == p
                &&& match (res.1, t) {
                    (Some((i, b)), Some((j, c))) => i as int == j && b == c && aligned_tick(j, tick_spacing as int),
                    (None, None) => true,
                    _ => false,
                }
            }),
    {
        let closest = if x_to_y {
            self.prev_initialized(current_tick, tick_spacing, key)
        } else {
            self.next_initialized(current_tick, tick_spacing, key)
        };
        let (index, initialized) = match closest {
            Some(i) => (i, true),
            None => (get_search_limit(current_tick, tick_spacing, !x_to_y), false),
        };
        proof {
            lemma_search_limit(current_tick as int, tick_spacing as int, !x_to_y);
            if initialized {
                lemma_scan_aligned(self@, key, current_tick as int, tick_spacing as int, x_to_y);
            }
        }
        let price = match SqrtPrice::from_tick(index) {
            Ok(p) => p,
            Err(_) => SqrtPrice::new(0),
        };
        if (x_to_y && price.get() > sqrt_price_limit.get()) || (!x_to_y && price.get() < sqrt_price_limit.get()) {
            (price, Some((index, initialized)))
        } else {
            (sqrt_price_limit, None)
        }
    }
}

/// The ticks that the searches find are usable ticks of the grid.
pub proof fn lemma_scan_aligned(m: Map<(u16, PoolKey), u64>, key: PoolKey, tick: int, s: int, down: bool)
    requires
        aligned_tick(tick, s),
    ensures
        down ==> (spec_prev_initialized(m, key, tick, s) matches Some(t) ==> aligned_tick(t, s)),
        !down ==> (spec_next_initialized(m, key, tick, s) matches Some(t) ==> aligned_tick(t, s)),
{
    lemma_search_limit(tick, s, down == false);
    if down {
        lemma_scan_down_aligned(m, key, tick, spec_search_limit(tick, s, false), s);
    } else if tick + s <= MAX_TICK {
        lemma_mod_multiples_vanish(1, tick, s);
        lemma_scan_up_aligned(m, key, tick + s, spec_search_limit(tick, s, true), s);
    }
}

proof fn lemma_scan_down_aligned(m: Map<(u16, PoolKey), u64>, key: PoolKey, t: int, lo: int, s: int)
    requires
        s > 0,
        t % s == 0,
        t <= MAX_TICK,
        aligned_tick(lo, s),
    ensures
        spec_scan_down(m, key, t, lo, s) matches Some(u) ==> aligned_tick(u, s),
    decreases (if t < lo {
        0
    } else {
        t - lo + 1
    }),
{
    if t >= lo && !spec_tick_initialized(m, key, t, s) {
        lemma_mod_multiples_vanish(-1, t, s);
        lemma_scan_down_aligned(m, key, t - s, lo, s);
    }
}

proof fn lemma_scan_up_aligned(m: Map<(u16, PoolKey), u64>, key: PoolKey, t: int, hi: int, s: int)
    requires
        s > 0,
        t % s == 0,
        t >= -(MAX_TICK as int),
        aligned_tick(hi, s),
    ensures
        spec_scan_up(m, key, t, hi, s) matches Some(u) ==> aligned_tick(u, s),
    decreases (if t > hi {
        0
    } else {
        hi - t + 1
    }),
{
    if t <= hi && !spec_tick_initialized(m, key, t, s) {
        lemma_mod_multiples_vanish(1, t, s);
        lemma_scan_up_aligned(m, key, t + s, hi, s);
    }
}

} // verus!
