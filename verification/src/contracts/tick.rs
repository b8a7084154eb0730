//! Initialized ticks: where liquidity starts or stops counting, and the fee
//! growth collected on the far side of each.
use crate::contracts::collections::{
    assoc_map, keys_distinct, lemma_assoc_map_dom, lemma_assoc_map_index, lemma_assoc_map_remove,
    lemma_assoc_map_update,
};
use crate::contracts::errors::InvariantError;
use crate::math::clamm::wrap_sub;
use crate::math::error::MathError;
use crate::contracts::storage::{Pool, PoolKey};
use crate::math::types::fee_growth::FeeGrowth;
use crate::math::types::liquidity::Liquidity;
use crate::math::types::sqrt_price::{spec_sqrt_price, tick_in_range, SqrtPrice};
use crate::math::uint::base128;
use vstd::prelude::*;

verus! {

/// An initialized tick of a pool.
#[derive(Clone, Copy, Debug, PartialEq, Eq, Structural)]
pub struct Tick {
    pub index: i32,
    pub sign: bool,
    pub liquidity_change: Liquidity,
    pub liquidity_gross: Liquidity,
    pub sqrt_price: SqrtPrice,
    pub fee_growth_outside_x: FeeGrowth,
    pub fee_growth_outside_y: FeeGrowth,
    pub seconds_outside: u64,
}

/// A new tick at `index` of `pool` at time `current_timestamp`: no liquidity;
/// a tick at or below the current tick counts all fee growth and time so far
/// as outside, a tick above it none.
pub open spec fn spec_tick_create(index: int, pool: Pool, current_timestamp: u64) -> Tick {
    let below = index <= pool.current_tick_index;
    Tick {
        index: index as i32,
        sign: true,
        liquidity_change: Liquidity(0),
        liquidity_gross: Liquidity(0),
        sqrt_price: SqrtPrice(spec_sqrt_price(index) as u128),
        fee_growth_outside_x: if below {
            pool.fee_growth_global_x
        } else {
            FeeGrowth(0)
        },
        fee_growth_outside_y: if below {
            pool.fee_growth_global_y
        } else {
            FeeGrowth(0)
        },
        seconds_outside: if below {
            (current_timestamp - pool.start_timestamp) as u64
        } else {
            0
        },
    }
}

impl Tick {
    /// A new tick at `index` of `pool` (see `spec_tick_create`).
    pub fn create(index: i32, pool: &Pool, current_timestamp: u64) -> (res: Tick)
        requires
            tick_in_range(index as int),
            index <= pool.current_tick_index ==> current_timestamp >= pool.start_timestamp,
        ensures
            res == spec_tick_create(index as int, *pool, current_timestamp),
    {
        let below_current_tick = index <= pool.current_tick_index;
        let sqrt_price = match SqrtPrice::from_tick(index) {
            Ok(p) => p,
            Err(_) => SqrtPrice::new(0),
        };
        Tick {
            index,
            sign: true,
            liquidity_change: Liquidity::new(0),
            liquidity_gross: Liquidity::new(0),
            sqrt_price,
            fee_growth_outside_x: if below_current_tick {
                pool.fee_growth_global_x
            } else {
                FeeGrowth::new(0)
            },
            fee_growth_outside_y: if below_current_tick {
                pool.fee_growth_global_y
            } else {
                FeeGrowth::new(0)
            },
            seconds_outside: if below_current_tick {
                current_timestamp - pool.start_timestamp
            } else {
                0
            },
        }
    }
}

/// The tick after a position adds (`is_deposit`) or withdraws `delta` liquidity,
/// the position ending here (`is_upper`) or starting here. Its gross liquidity
/// moves by `delta` and must stay below `max`; its net change of liquidity when
/// crossed upwards moves by `delta` the way the position dictates, flipping the
/// sign where it passes zero. `None` when the gross liquidity would leave
/// `[0, max)`.
pub open spec fn spec_tick_update(tick: Tick, delta: nat, max: nat, is_upper: bool, is_deposit: bool) -> Option<Tick> {
    let gross = tick.liquidity_gross.0 as nat;
    if !is_deposit && gross < delta {
        None
    } else {
        let new_gross: nat = if is_deposit {
            gross + delta
        } else {
            (gross - delta) as nat
        };
        if is_deposit && new_gross >= max {
            None
        } else {
            let add = is_deposit != is_upper;
            let change = tick.liquidity_change.0 as nat;
            let (new_change, new_sign): (nat, bool) = if tick.sign != add {
                if change > delta {
                    ((change - delta) as nat, tick.sign)
                } else {
                    ((delta - change) as nat, !tick.sign)
                }
            } else {
                (change + delta, tick.sign)
            };
            Some(
                Tick {
                    liquidity_gross: Liquidity(new_gross as u128),
                    liquidity_change: Liquidity(new_change as u128),
                    sign: new_sign,
                    ..tick
                },
            )
        }
    }
}

/// Whether `Tick::update` runs through: an added net change still fits a `u128`.
pub open spec fn tick_update_runs(tick: Tick, delta: nat, is_upper: bool, is_deposit: bool) -> bool {
    tick.sign != (is_deposit != is_upper) || tick.liquidity_change.0 + delta < base128()
}

impl Tick {
    /// Applies a position's change of liquidity (see `spec_tick_update`);
    /// `Err` and the tick unchanged when the gross liquidity would leave range.
    pub fn update(&mut self, liquidity_delta: Liquidity, max_liquidity_per_tick: Liquidity, is_upper: bool, is_deposit: bool) -> (res: Result<(), MathError>)
        requires
            max_liquidity_per_tick.0 < base128(),
            tick_update_runs(*old(self), liquidity_delta.0 as nat, is_upper, is_deposit),
        ensures
            res is Ok <==> spec_tick_update(*old(self), liquidity_delta.0 as nat, max_liquidity_per_tick.0 as nat, is_upper, is_deposit) is Some,
            res is Ok ==> Some(*final(self)) == spec_tick_update(*old(self), liquidity_delta.0 as nat, max_liquidity_per_tick.0 as nat, is_upper, is_deposit),
            res is Err ==> *final(self) == *old(self),
    {
        let delta = liquidity_delta.get();
        let gross = self.liquidity_gross.get();
        if !is_deposit && gross < delta {
            return Err(MathError::Sub);
        }
        let new_gross = if is_deposit {
            if gross > u128::MAX - delta {
                return Err(MathError::Add);
            }
            gross + delta
        } else {
            gross - delta
        };
        if is_deposit && new_gross >= max_liquidity_per_tick.get() {
            return Err(MathError::Add);
        }
        self.liquidity_gross = Liquidity::new(new_gross);
        let add = is_deposit != is_upper;
        let change = self.liquidity_change.get();
        if self.sign != add {
            if change > delta {
                self.liquidity_change = Liquidity::new(change - delta);
            } else {
                self.liquidity_change = Liquidity::new(delta - change);
                self.sign = !self.sign;
            }
        } else {
            self.liquidity_change = Liquidity::new(change + delta);
        }
        Ok(())
    }
}

/// What crossing `tick` at time `ts` leaves of the tick and the pool: the
/// tick's growth and time outside flip to the other side (wrapping), the
/// pool's clock moves to `ts`, and the pool's liquidity takes the tick's net
/// change, added when the crossing enters the ranges that start here. A time
/// before the pool's start stops after the growth; a liquidity that would leave
/// `u128` stays as it was.
pub open spec fn spec_tick_cross(tick: Tick, pool: Pool, ts: u64) -> (Tick, Pool) {
    let t1 = Tick {
        fee_growth_outside_x: FeeGrowth(wrap_sub(pool.fee_growth_global_x.0, tick.fee_growth_outside_x.0)),
        fee_growth_outside_y: FeeGrowth(wrap_sub(pool.fee_growth_global_y.0, tick.fee_growth_outside_y.0)),
        ..tick
    };
    if ts < pool.start_timestamp {
        (t1, pool)
    } else {
        let passed = (ts - pool.start_timestamp) as u64;
        let t2 = Tick { seconds_outside: passed.wrapping_sub(tick.seconds_outside), ..t1 };
        let p1 = Pool { last_timestamp: ts, ..pool };
        let change = tick.liquidity_change.0 as nat;
        if (pool.current_tick_index >= tick.index) != tick.sign {
            if pool.liquidity.0 + change >= base128() {
                (t2, p1)
            } else {
                (t2, Pool { liquidity: Liquidity((pool.liquidity.0 + change) as u128), ..p1 })
            }
        } else {
            if pool.liquidity.0 < change {
                (t2, p1)
            } else {
                (t2, Pool { liquidity: Liquidity((pool.liquidity.0 - change) as u128), ..p1 })
            }
        }
    }
}

impl Tick {
    /// Crosses the tick (see `spec_tick_cross`).
    pub fn cross(&mut self, pool: &mut Pool, current_timestamp: u64)
        ensures
            (*final(self), *final(pool)) == spec_tick_cross(*old(self), *old(pool), current_timestamp),
    {
        self.fee_growth_outside_x = FeeGrowth::new(pool.fee_growth_global_x.get().wrapping_sub(self.fee_growth_outside_x.get()));
        self.fee_growth_outside_y = FeeGrowth::new(pool.fee_growth_global_y.get().wrapping_sub(self.fee_growth_outside_y.get()));
        if current_timestamp < pool.start_timestamp {
            return;
        }
        let passed = current_timestamp - pool.start_timestamp;
        self.seconds_outside = passed.wrapping_sub(self.seconds_outside);
        pool.last_timestamp = current_timestamp;
        let change = self.liquidity_change.get();
        if (pool.current_tick_index >= self.index) != self.sign {
            if pool.liquidity.get() <= u128::MAX - change {
                pool.liquidity = Liquidity::new(pool.liquidity.get() + change);
            }
        } else {
            if pool.liquidity.get() >= change {
                pool.liquidity = Liquidity::new(pool.liquidity.get() - change);
            }
        }
    }
}

/// The initialized ticks of all pools, by pool key and tick index.
pub struct Ticks {
    entries: Vec<((PoolKey, i32), Tick)>,
}

impl View for Ticks {
    type V = Map<(PoolKey, i32), Tick>;

    closed spec fn view(&self) -> Map<(PoolKey, i32), Tick> {
        assoc_map(self.entries@)
    }
}

impl Ticks {
    /// No tick is stored twice.
    pub closed spec fn wf(&self) -> bool {
        keys_distinct(self.entries@)
    }

    /// The stored ticks, in storage order.
    pub closed spec fn entry_list(&self) -> Seq<((PoolKey, i32), Tick)> {
        self.entries@
    }

    /// The stored ticks have distinct keys and make up the view.
    pub proof fn lemma_view(&self)
        requires
            self.wf(),
        ensures
            keys_distinct(self.entry_list()),
            self@ == assoc_map(self.entry_list()),
    {
    }

    /// No tick.
    pub fn new() -> (res: Ticks)
        ensures
            res.wf(),
            res@ == Map::<(PoolKey, i32), Tick>::empty(),
    {
        Ticks { entries: Vec::new() }
    }

    fn find(&self, key: PoolKey, index: i32) -> (res: Option<usize>)
        requires
            self.wf(),
        ensures
            res matches Some(i) ==> i < self.entries@.len() && self.entries@[i as int].0 == (key, index),
            res is None ==> !self@.dom().contains((key, index)),
    {
        let mut i: usize = 0;
        while i < self.entries.len()
            invariant
                i <= self.entries@.len(),
                forall|j: int| 0 <= j < i ==> #[trigger] self.entries@[j].0 != (key, index),
            decreases self.entries@.len() - i,
        {
            let e = &self.entries[i];
            if e.0.0 == key && e.0.1 == index {
                return Some(i);
            }
            i = i + 1;
        }
        proof {
            lemma_assoc_map_dom(self.entries@, (key, index));
        }
        None
    }

    /// The tick at `index` of pool `key`, or `TickNotFound`.
    pub fn get(&self, key: PoolKey, index: i32) -> (res: Result<Tick, InvariantError>)
        requires
            self.wf(),
        ensures
            res == if self@.dom().contains((key, index)) {
                Ok::<Tick, InvariantError>(self@[(key, index)])
            } else {
                Err(InvariantError::TickNotFound)
            },
    {
        match self.find(key, index) {
            Some(i) => {
                proof {
                    lemma_assoc_map_index(self.entries@, i as int);
                }
                Ok(self.entries[i].1)
            },
            None => Err(InvariantError::TickNotFound),
        }
    }

    /// Stores a new tick; `TickAlreadyExist` when one is stored there.
    pub fn add(&mut self, key: PoolKey, index: i32, tick: &Tick) -> (res: Result<(), InvariantError>)
        requires
            old(self).wf(),
        ensures
            final(self).wf(),
            res is Ok <==> !old(self)@.dom().contains((key, index)),
            res is Ok ==> final(self)@ == old(self)@.insert((key, index), *tick),
            res is Err ==> res == Err::<(), InvariantError>(InvariantError::TickAlreadyExist)
                && final(self)@ == old(self)@,
    {
        match self.find(key, index) {
            Some(i) => {
                proof {
                    lemma_assoc_map_index(self.entries@, i as int);
                }
                Err(InvariantError::TickAlreadyExist)
            },
            None => {
                let ghost before = self.entries@;
                proof {
                    lemma_assoc_map_dom(before, (key, index));
                }
                self.entries.push(((key, index), *tick));
                proof {
                    assert(self.entries@.drop_last() =~= before);
                    assert forall|a: int, b: int| 0 <= a < b < self.entries@.len() implies #[trigger] self.entries@[a].0
                        != #[trigger] self.entries@[b].0 by {
                        if b == self.entries@.len() - 1 {
                            assert(before[a].0 != (key, index));
                        } else {
                            assert(before[a].0 != before[b].0);
                        }
                    }
                }
                Ok(())
            },
        }
    }

    /// Replaces a stored tick; `TickNotFound` when none is stored there.
    pub fn update(&mut self, key: PoolKey, index: i32, tick: &Tick) -> (res: Result<(), InvariantError>)
        requires
            old(self).wf(),
        ensures
            final(self).wf(),
            res is Ok <==> old(self)@.dom().contains((key, index)),
            res is Ok ==> final(self)@ == old(self)@.insert((key, index), *tick),
            res is Err ==> res == Err::<(), InvariantError>(InvariantError::TickNotFound) && final(self)@ == old(self)@,
    {
        match self.find(key, index) {
            Some(i) => {
                proof {
                    lemma_assoc_map_index(self.entries@, i as int);
                    lemma_assoc_map_update(self.entries@, i as int, *tick);
                }
                self.entries.set(i, ((key, index), *tick));
                Ok(())
            },
            None => Err(InvariantError::TickNotFound),
        }
    }

    /// Removes a stored tick; `TickNotFound` when none is stored there.
    pub fn remove(&mut self, key: PoolKey, index: i32) -> (res: Result<(), InvariantError>)
        requires
            old(self).wf(),
        ensures
            final(self).wf(),
            res is Ok <==> old(self)@.dom().contains((key, index)),
            res is Ok ==> final(self)@ == old(self)@.remove((key, index)),
            res is Err ==> res == Err::<(), InvariantError>(InvariantError::TickNotFound) && final(self)@ == old(self)@,
    {
        match self.find(key, index) {
            Some(i) => {
                proof {
                    lemma_assoc_map_index(self.entries@, i as int);
                    lemma_assoc_map_remove(self.entries@, i as int);
                }
                self.entries.remove(i);
                Ok(())
            },
            None => Err(InvariantError::TickNotFound),
        }
    }

    /// Restores the collection from stored ticks; `None` when a tick is stored twice.
    pub fn from_entries(entries: Vec<((PoolKey, i32), Tick)>) -> (res: Option<Ticks>)
        ensures
            res is Some <==> keys_distinct(entries@),
            res matches Some(t) ==> t.wf() && t@ == assoc_map(entries@) && t.entry_list() == entries@,
    {
        let mut i: usize = 0;
        while i < entries.len()
            invariant
                i <= entries@.len(),
                forall|a: int, b: int| 0 <= a < b < i ==> #[trigger] entries@[a].0 != #[trigger] entries@[b].0,
            decreases entries@.len() - i,
        {
            let mut j: usize = 0;
            while j < i
                invariant
                    j <= i < entries@.len(),
                    forall|a: int| 0 <= a < j ==> #[trigger] entries@[a].0 != entries@[i as int].0,
                decreases i - j,
            {
                if entries[j].0.0 == entries[i].0.0 && entries[j].0.1 == entries[i].0.1 {
                    return None;
                }
                j = j + 1;
            }
            i = i + 1;
        }
        Some(Ticks { entries })
    }

    /// The stored ticks, as `from_entries` takes them.
    pub fn entries(&self) -> (res: Vec<((PoolKey, i32), Tick)>)
        ensures
            res@ == self.entry_list(),
    {
        let mut res: Vec<((PoolKey, i32), Tick)> = Vec::new();
        let mut i: usize = 0;
        while i < self.entries.len()
            invariant
                i <= self.entries.len(),
                res@ == self.entries@.take(i as int),
            decreases self.entries.len() - i,
        {
            res.push(self.entries[i]);
            i = i + 1;
            assert(res@ =~= self.entries@.take(i as int));
        }
        assert(self.entries@.take(i as int) =~= self.entries@);
        res
    }
}

} // verus!
