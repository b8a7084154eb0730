//! Liquidity positions: a share of a pool's liquidity on a tick range, with
//! the fees it has earned.
use crate::contracts::account::AccountId;
use crate::contracts::collections::{
    assoc_map, keys_distinct, lemma_assoc_map_dom, lemma_assoc_map_index, lemma_assoc_map_remove,
};
use crate::contracts::errors::InvariantError;
use crate::contracts::storage::{Pool, PoolKey};
use crate::contracts::tick::{spec_tick_update, tick_update_runs, Tick};
use crate::math::clamm::{
    calculate_fee_growth_inside, calculate_max_liquidity_per_tick, spec_fee_growth_inside,
    spec_max_liquidity_per_tick, wrap_sub,
};
use crate::math::error::MathError;
use crate::math::types::token_amount::TokenAmount;
use crate::math::types::fee_growth::FeeGrowth;
use crate::math::types::liquidity::Liquidity;
use crate::math::types::sqrt_price::SqrtPrice;
use crate::math::uint::base128;
use vstd::prelude::*;

verus! {

/// A liquidity position of an owner in a pool.
#[derive(Clone, Copy, Debug, PartialEq, Eq, Structural)]
pub struct Position {
    pub pool_key: PoolKey,
    pub liquidity: Liquidity,
    pub lower_tick_index: i32,
    pub upper_tick_index: i32,
    pub fee_growth_inside_x: FeeGrowth,
    pub fee_growth_inside_y: FeeGrowth,
    pub last_block_number: u64,
    pub tokens_owed_x: TokenAmount,
    pub tokens_owed_y: TokenAmount,
}

/// The position after its liquidity changes by `delta` (added when `sign`)
/// with the fee growth inside its range now at `fgx` and `fgy`: the fees earned
/// since the last update, at the old liquidity, are added to what it is owed.
/// `Err` when neither the position nor the change has liquidity, when more is
/// withdrawn than it has, or when a sum overflows.
pub open spec fn spec_position_update(p: Position, sign: bool, delta: nat, fgx: u128, fgy: u128) -> Result<Position, MathError> {
    if delta == 0 && p.liquidity.0 == 0 {
        Err(MathError::Sub)
    } else {
        match (
            FeeGrowth::spec_to_fee(wrap_sub(fgx, p.fee_growth_inside_x.0), p.liquidity.0),
            FeeGrowth::spec_to_fee(wrap_sub(fgy, p.fee_growth_inside_y.0), p.liquidity.0),
        ) {
            (Ok(owed_x), Ok(owed_y)) => if !sign && p.liquidity.0 < delta {
                Err(MathError::Sub)
            } else if sign && p.liquidity.0 + delta >= base128() {
                Err(MathError::Add)
            } else if p.tokens_owed_x.0 + owed_x >= base128() || p.tokens_owed_y.0 + owed_y >= base128() {
                Err(MathError::Add)
            } else {
                Ok(
                    Position {
                        liquidity: Liquidity(
                            (if sign {
                                p.liquidity.0 + delta
                            } else {
                                p.liquidity.0 - delta
                            }) as u128,
                        ),
                        fee_growth_inside_x: FeeGrowth(fgx),
                        fee_growth_inside_y: FeeGrowth(fgy),
                        tokens_owed_x: TokenAmount((p.tokens_owed_x.0 + owed_x) as u128),
                        tokens_owed_y: TokenAmount((p.tokens_owed_y.0 + owed_y) as u128),
                        ..p
                    },
                )
            },
            (Err(e), _) => Err(e),
            (_, Err(e)) => Err(e),
        }
    }
}

/// What a change of a position's liquidity by `delta` (added when `add`) at time
/// `ts` leaves: the position, the pool, the upper and the lower tick, and the
/// amounts of x and y it moves. The pool's clock moves to `ts`; both ticks take
/// the change, the position takes the fees earned inside its range, and the
/// pool the liquidity.
pub open spec fn spec_modify(
    p: Position,
    pool: Pool,
    upper: Tick,
    lower: Tick,
    delta: nat,
    add: bool,
    ts: u64,
    tick_spacing: int,
) -> Result<(Position, Pool, Tick, Tick, nat, nat), MathError> {
    let pool1 = Pool { last_timestamp: ts, ..pool };
    let max = spec_max_liquidity_per_tick(tick_spacing);
    match (spec_tick_update(lower, delta, max, false, add), spec_tick_update(upper, delta, max, true, add)) {
        (Some(lower2), Some(upper2)) => {
            let fgx = spec_fee_growth_inside(
                lower2.index as int,
                lower2.fee_growth_outside_x.0,
                upper2.index as int,
                upper2.fee_growth_outside_x.0,
                pool1.current_tick_index as int,
                pool1.fee_growth_global_x.0,
            );
            let fgy = spec_fee_growth_inside(
                lower2.index as int,
                lower2.fee_growth_outside_y.0,
                upper2.index as int,
                upper2.fee_growth_outside_y.0,
                pool1.current_tick_index as int,
                pool1.fee_growth_global_y.0,
            );
            match spec_position_update(p, add, delta, fgx, fgy) {
                Err(e) => Err(e),
                Ok(p2) => match Pool::spec_update_liquidity(pool1, delta, add, upper2.index as int, lower2.index as int) {
                    Err(e) => Err(e),
                    Ok((pool2, x, y)) => Ok((p2, pool2, upper2, lower2, x, y)),
                },
            }
        },
        _ => Err(MathError::Add),
    }
}

/// Whether `Position::modify` runs through on these values.
pub open spec fn modify_runs(pool: Pool, upper: Tick, lower: Tick, delta: nat, add: bool, tick_spacing: int) -> bool {
    &&& tick_spacing > 0
    &&& tick_update_runs(lower, delta, false, add)
    &&& tick_update_runs(upper, delta, true, add)
    &&& pool.sqrt_price.0 > 0
}

/// A new position of `liquidity` on `[lower.index, upper.index]` of the pool at
/// block `block`: refused with `PriceLimitReached` unless the pool's price lies
/// within the slippage limits; otherwise the result of adding the liquidity to an
/// empty position, `None` where that fails.
pub open spec fn spec_position_create(
    pool: Pool,
    pool_key: PoolKey,
    lower: Tick,
    upper: Tick,
    ts: u64,
    liquidity: nat,
    slippage_limit_lower: SqrtPrice,
    slippage_limit_upper: SqrtPrice,
    block: u64,
    tick_spacing: int,
) -> Option<Result<(Position, Pool, Tick, Tick, nat, nat), InvariantError>> {
    if pool.sqrt_price.0 < slippage_limit_lower.0 || pool.sqrt_price.0 > slippage_limit_upper.0 {
        Some(Err(InvariantError::PriceLimitReached))
    } else {
        let empty = Position {
            pool_key,
            liquidity: Liquidity(0),
            lower_tick_index: lower.index,
            upper_tick_index: upper.index,
            fee_growth_inside_x: FeeGrowth(0),
            fee_growth_inside_y: FeeGrowth(0),
            last_block_number: block,
            tokens_owed_x: TokenAmount(0),
            tokens_owed_y: TokenAmount(0),
        };
        match spec_modify(empty, pool, upper, lower, liquidity, true, ts, tick_spacing) {
            Ok(r) => Some(Ok(r)),
            Err(_) => None,
        }
    }
}

/// What removing a position leaves: the pool, the upper and the lower tick, the
/// amounts of x and y paid out (the withdrawn liquidity and the fees owed), and
/// whether each tick is left without liquidity; `None` where that fails.
pub open spec fn spec_position_remove(p: Position, pool: Pool, ts: u64, lower: Tick, upper: Tick, tick_spacing: int) -> Option<(Pool, Tick, Tick, nat, nat, bool, bool)> {
    match spec_modify(p, pool, upper, lower, p.liquidity.0 as nat, false, ts, tick_spacing) {
        Err(_) => None,
        Ok((p2, pool2, upper2, lower2, x, y)) => if x + p2.tokens_owed_x.0 >= base128() || y + p2.tokens_owed_y.0 >= base128() {
            None
        } else {
            Some(
                (
                    pool2,
                    upper2,
                    lower2,
                    (x + p2.tokens_owed_x.0) as nat,
                    (y + p2.tokens_owed_y.0) as nat,
                    lower2.liquidity_gross.0 == 0,
                    upper2.liquidity_gross.0 == 0,
                ),
            )
        },
    }
}

/// What claiming a position's fees leaves: the position with nothing owed,
/// the pool, the upper and the lower tick, and the fees paid out; `None` where
/// bringing the fees up to date fails.
pub open spec fn spec_position_claim_fee(p: Position, pool: Pool, upper: Tick, lower: Tick, ts: u64) -> Option<(Position, Pool, Tick, Tick, nat, nat)> {
    match spec_modify(p, pool, upper, lower, 0, true, ts, p.pool_key.fee_tier.tick_spacing as int) {
        Err(_) => None,
        Ok((p2, pool2, upper2, lower2, _, _)) => Some(
            (
                Position { tokens_owed_x: TokenAmount(0), tokens_owed_y: TokenAmount(0), ..p2 },
                pool2,
                upper2,
                lower2,
                p2.tokens_owed_x.0 as nat,
                p2.tokens_owed_y.0 as nat,
            ),
        ),
    }
}

impl Position {
    /// Brings the position's fees up to date and changes its liquidity (see
    /// `spec_position_update`); on `Err` the position is unchanged.
    pub fn update(&mut self, sign: bool, liquidity_delta: Liquidity, fee_growth_inside_x: FeeGrowth, fee_growth_inside_y: FeeGrowth) -> (res: Result<(), MathError>)
        ensures
            match (res, spec_position_update(*old(self), sign, liquidity_delta.0 as nat, fee_growth_inside_x.0, fee_growth_inside_y.0)) {
                (Ok(()), Ok(p)) => *final(self) == p,
                (Err(e), Err(f)) => e == f && *final(self) == *old(self),
                _ => false,
            },
    {
        if liquidity_delta.get() == 0 && self.liquidity.get() == 0 {
            return Err(MathError::Sub);
        }
        let owed_x = match FeeGrowth::new(fee_growth_inside_x.get().wrapping_sub(self.fee_growth_inside_x.get())).to_fee(self.liquidity) {
            Ok(v) => v,
            Err(e) => return Err(e),
        };
        let owed_y = match FeeGrowth::new(fee_growth_inside_y.get().wrapping_sub(self.fee_growth_inside_y.get())).to_fee(self.liquidity) {
            Ok(v) => v,
            Err(e) => return Err(e),
        };
        let liquidity = self.liquidity.get();
        let delta = liquidity_delta.get();
        if !sign && liquidity < delta {
            return Err(MathError::Sub);
        }
        if sign && liquidity > u128::MAX - delta {
            return Err(MathError::Add);
        }
        if self.tokens_owed_x.get() > u128::MAX - owed_x.get() || self.tokens_owed_y.get() > u128::MAX - owed_y.get() {
            return Err(MathError::Add);
        }
        self.liquidity = Liquidity::new(
            if sign {
                liquidity + delta
            } else {
                liquidity - delta
            },
        );
        self.fee_growth_inside_x = fee_growth_inside_x;
        self.fee_growth_inside_y = fee_growth_inside_y;
        self.tokens_owed_x = TokenAmount::new(self.tokens_owed_x.get() + owed_x.get());
        self.tokens_owed_y = TokenAmount::new(self.tokens_owed_y.get() + owed_y.get());
        Ok(())
    }

    /// Changes the position's liquidity by `liquidity_delta` at `current_timestamp`
    /// and returns the token amounts it moves (see `spec_modify`).
    pub fn modify(
        &mut self,
        pool: &mut Pool,
        upper_tick: &mut Tick,
        lower_tick: &mut Tick,
        liquidity_delta: Liquidity,
        add: bool,
        current_timestamp: u64,
        tick_spacing: u16,
    ) -> (res: Result<(TokenAmount, TokenAmount), MathError>)
        requires
            modify_runs(*old(pool), *old(upper_tick), *old(lower_tick), liquidity_delta.0 as nat, add, tick_spacing as int),
        ensures
            res is Ok <==> spec_modify(*old(self), *old(pool), *old(upper_tick), *old(lower_tick), liquidity_delta.0 as nat, add, current_timestamp, tick_spacing as int) is Ok,
            res matches Ok((x, y)) ==> spec_modify(*old(self), *old(pool), *old(upper_tick), *old(lower_tick), liquidity_delta.0 as nat, add, current_timestamp, tick_spacing as int)
                == Ok::<(Position, Pool, Tick, Tick, nat, nat), MathError>((*final(self), *final(pool), *final(upper_tick), *final(lower_tick), x.0 as nat, y.0 as nat)),
    {
        pool.last_timestamp = current_timestamp;
        let max_liquidity_per_tick = calculate_max_liquidity_per_tick(tick_spacing);
        proof {
            vstd::arithmetic::div_mod::lemma_div_is_ordered(65535, 1330911int, tick_spacing as int);
            vstd::arithmetic::div_mod::lemma_div_is_ordered_by_denominator(65535, tick_spacing as int, 65535);
            vstd::arithmetic::div_mod::lemma_div_is_ordered_by_denominator(u128::MAX as int, 1, (1330911int / (tick_spacing as int)));
        }
        match lower_tick.update(liquidity_delta, max_liquidity_per_tick, false, add) {
            Ok(()) => {},
            Err(e) => return Err(e),
        }
        match upper_tick.update(liquidity_delta, max_liquidity_per_tick, true, add) {
            Ok(()) => {},
            Err(e) => return Err(e),
        }
        let (fee_growth_inside_x, fee_growth_inside_y) = calculate_fee_growth_inside(
            lower_tick.index,
            lower_tick.fee_growth_outside_x,
            lower_tick.fee_growth_outside_y,
            upper_tick.index,
            upper_tick.fee_growth_outside_x,
            upper_tick.fee_growth_outside_y,
            pool.current_tick_index,
            pool.fee_growth_global_x,
            pool.fee_growth_global_y,
        );
        match self.update(add, liquidity_delta, fee_growth_inside_x, fee_growth_inside_y) {
            Ok(()) => {},
            Err(e) => return Err(e),
        }
        pool.update_liquidity(liquidity_delta, add, upper_tick.index, lower_tick.index)
    }

    /// A new position (see `spec_position_create`).
    pub fn create(
        pool: &mut Pool,
        pool_key: PoolKey,
        lower_tick: &mut Tick,
        upper_tick: &mut Tick,
        current_timestamp: u64,
        liquidity_delta: Liquidity,
        slippage_limit_lower: SqrtPrice,
        slippage_limit_upper: SqrtPrice,
        block_number: u64,
        tick_spacing: u16,
    ) -> (res: Result<(Position, TokenAmount, TokenAmount), InvariantError>)
        requires
            modify_runs(*old(pool), *old(upper_tick), *old(lower_tick), liquidity_delta.0 as nat, true, tick_spacing as int),
            spec_position_create(*old(pool), pool_key, *old(lower_tick), *old(upper_tick), current_timestamp, liquidity_delta.0 as nat, slippage_limit_lower, slippage_limit_upper, block_number, tick_spacing as int) is Some,
        ensures
            match (res, spec_position_create(*old(pool), pool_key, *old(lower_tick), *old(upper_tick), current_timestamp, liquidity_delta.0 as nat, slippage_limit_lower, slippage_limit_upper, block_number, tick_spacing as int)) {
                (Ok((p, x, y)), Some(Ok((sp, spool, supper, slower, sx, sy)))) => p == sp && *final(pool) == spool && *final(upper_tick) == supper
                    && *final(lower_tick) == slower && x.0 == sx && y.0 == sy,
                (Err(e), Some(Err(f))) => e == f,
                _ => false,
            },
    {
        if pool.sqrt_price.get() < slippage_limit_lower.get() || pool.sqrt_price.get() > slippage_limit_upper.get() {
            return Err(InvariantError::PriceLimitReached);
        }
        let mut position = Position {
            pool_key,
            liquidity: Liquidity::new(0),
            lower_tick_index: lower_tick.index,
            upper_tick_index: upper_tick.index,
            fee_growth_inside_x: FeeGrowth::new(0),
            fee_growth_inside_y: FeeGrowth::new(0),
            last_block_number: block_number,
            tokens_owed_x: TokenAmount::new(0),
            tokens_owed_y: TokenAmount::new(0),
        };
        match position.modify(pool, upper_tick, lower_tick, liquidity_delta, true, current_timestamp, tick_spacing) {
            Ok((x, y)) => Ok((position, x, y)),
            Err(_) => Err(InvariantError::PriceLimitReached),
        }
    }

    /// Withdraws all of the position's liquidity (see `spec_position_remove`).
    pub fn remove(
        &mut self,
        pool: &mut Pool,
        current_timestamp: u64,
        lower_tick: &mut Tick,
        upper_tick: &mut Tick,
        tick_spacing: u16,
    ) -> (res: (TokenAmount, TokenAmount, bool, bool))
        requires
            modify_runs(*old(pool), *old(upper_tick), *old(lower_tick), old(self).liquidity.0 as nat, false, tick_spacing as int),
            spec_position_remove(*old(self), *old(pool), current_timestamp, *old(lower_tick), *old(upper_tick), tick_spacing as int) is Some,
        ensures
            spec_position_remove(*old(self), *old(pool), current_timestamp, *old(lower_tick), *old(upper_tick), tick_spacing as int)
                == Some((*final(pool), *final(upper_tick), *final(lower_tick), res.0.0 as nat, res.1.0 as nat, res.2, res.3)),
    {
        let liquidity_delta = self.liquidity;
        let (amount_x, amount_y) = match self.modify(pool, upper_tick, lower_tick, liquidity_delta, false, current_timestamp, tick_spacing) {
            Ok(r) => r,
            Err(_) => (TokenAmount::new(0), TokenAmount::new(0)),
        };
        let x = TokenAmount::new(amount_x.get() + self.tokens_owed_x.get());
        let y = TokenAmount::new(amount_y.get() + self.tokens_owed_y.get());
        (x, y, lower_tick.liquidity_gross.is_zero(), upper_tick.liquidity_gross.is_zero())
    }

    /// Pays out the fees the position has earned (see `spec_position_claim_fee`).
    pub fn claim_fee(&mut self, pool: &mut Pool, upper_tick: &mut Tick, lower_tick: &mut Tick, current_timestamp: u64) -> (res: (TokenAmount, TokenAmount))
        requires
            modify_runs(*old(pool), *old(upper_tick), *old(lower_tick), 0, true, old(self).pool_key.fee_tier.tick_spacing as int),
            spec_position_claim_fee(*old(self), *old(pool), *old(upper_tick), *old(lower_tick), current_timestamp) is Some,
        ensures
            spec_position_claim_fee(*old(self), *old(pool), *old(upper_tick), *old(lower_tick), current_timestamp)
                == Some((*final(self), *final(pool), *final(upper_tick), *final(lower_tick), res.0.0 as nat, res.1.0 as nat)),
    {
        let tick_spacing = self.pool_key.fee_tier.tick_spacing;
        match self.modify(pool, upper_tick, lower_tick, Liquidity::new(0), true, current_timestamp, tick_spacing) {
            Ok(_) => {},
            Err(_) => {},
        }
        let tokens_owed_x = self.tokens_owed_x;
        let tokens_owed_y = self.tokens_owed_y;
        self.tokens_owed_x = TokenAmount::new(0);
        self.tokens_owed_y = TokenAmount::new(0);
        (tokens_owed_x, tokens_owed_y)
    }
}

/// The positions of `owner`, in order; none for an owner without any.
pub open spec fn positions_of(m: Map<AccountId, Seq<Position>>, owner: AccountId) -> Seq<Position> {
    if m.dom().contains(owner) {
        m[owner]
    } else {
        Seq::empty()
    }
}

/// The owners' lists as mathematical sequences.
pub open spec fn owner_lists(s: Seq<(AccountId, Vec<Position>)>) -> Seq<(AccountId, Seq<Position>)> {
    s.map_values(|e: (AccountId, Vec<Position>)| (e.0, e.1@))
}

/// The positions of every owner.
pub struct Positions {
    owners: Vec<(AccountId, Vec<Position>)>,
}

impl View for Positions {
    type V = Map<AccountId, Seq<Position>>;

    closed spec fn view(&self) -> Map<AccountId, Seq<Position>> {
        assoc_map(owner_lists(self.owners@))
    }
}

impl Positions {
    /// No owner is listed twice, and every owner's positions can be counted by a `u32`.
    pub closed spec fn wf(&self) -> bool {
        &&& keys_distinct(owner_lists(self.owners@))
        &&& forall|i: int| 0 <= i < self.owners@.len() ==> (#[trigger] self.owners@[i]).1@.len() <= u32::MAX
    }

    /// Every owner's positions can be counted by a `u32`.
    pub proof fn lemma_counts(&self, owner: AccountId)
        requires
            self.wf(),
        ensures
            positions_of(self@, owner).len() <= u32::MAX,
    {
        let l = owner_lists(self.owners@);
        lemma_assoc_map_dom(l, owner);
        if self@.dom().contains(owner) {
            let i = choose|i: int| 0 <= i < l.len() && #[trigger] l[i].0 == owner;
            lemma_assoc_map_index(l, i);
            assert(self.owners@[i].1@.len() <= u32::MAX);
        }
    }

    /// Nobody has a position.
    pub fn new() -> (res: Positions)
        ensures
            res.wf(),
            res@ == Map::<AccountId, Seq<Position>>::empty(),
    {
        let res = Positions { owners: Vec::new() };
        assert(owner_lists(res.owners@) =~= Seq::empty());
        res
    }

    fn find(&self, owner: AccountId) -> (res: Option<usize>)
        requires
            self.wf(),
        ensures
            res matches Some(i) ==> i < self.owners@.len() && self.owners@[i as int].0 == owner && self@.dom().contains(owner)
                && self@[owner] == self.owners@[i as int].1@,
            res is None ==> !self@.dom().contains(owner),
    {
        let ghost l = owner_lists(self.owners@);
        let mut i: usize = 0;
        while i < self.owners.len()
            invariant
                self.wf(),
                i <= self.owners@.len(),
                l == owner_lists(self.owners@),
                forall|j: int| 0 <= j < i ==> #[trigger] self.owners@[j].0 != owner,
            decreases self.owners@.len() - i,
        {
            if self.owners[i].0 == owner {
                proof {
                    assert(l[i as int].0 == owner);
                    lemma_assoc_map_index(l, i as int);
                }
                return Some(i);
            }
            i = i + 1;
        }
        proof {
            lemma_assoc_map_dom(l, owner);
            if self@.dom().contains(owner) {
                let j = choose|j: int| 0 <= j < l.len() && #[trigger] l[j].0 == owner;
                assert(self.owners@[j].0 == owner);
            }
        }
        None
    }

    /// Number of positions of `owner`.
    pub fn get_length(&self, owner: AccountId) -> (res: u32)
        requires
            self.wf(),
        ensures
            res as nat == positions_of(self@, owner).len(),
    {
        match self.find(owner) {
            Some(i) => self.owners[i].1.len() as u32,
            None => 0,
        }
    }

    /// Position `index` of `owner`, or `PositionNotFound`.
    pub fn get(&self, owner: AccountId, index: u32) -> (res: Result<Position, InvariantError>)
        requires
            self.wf(),
        ensures
            res == if index < positions_of(self@, owner).len() {
                Ok::<Position, InvariantError>(positions_of(self@, owner)[index as int])
            } else {
                Err(InvariantError::PositionNotFound)
            },
    {
        match self.find(owner) {
            Some(i) => {
                if (index as usize) < self.owners[i].1.len() {
                    Ok(self.owners[i].1[index as usize])
                } else {
                    Err(InvariantError::PositionNotFound)
                }
            },
            None => Err(InvariantError::PositionNotFound),
        }
    }

    fn replace_list(&mut self, owner: AccountId, list: Vec<Position>)
        requires
            old(self).wf(),
            list@.len() <= u32::MAX,
        ensures
            final(self).wf(),
            final(self)@ == old(self)@.insert(owner, list@),
    {
        let ghost before = owner_lists(self.owners@);
        match self.find(owner) {
            Some(i) => {
                proof {
                    lemma_assoc_map_remove(before, i as int);
                }
                let ghost removed = self.owners@.remove(i as int);
                self.owners.remove(i);
                proof {
                    assert(owner_lists(self.owners@) =~= before.remove(i as int));
                }
            },
            None => {},
        }
        let ghost mid = owner_lists(self.owners@);
        proof {
            lemma_assoc_map_dom(mid, owner);
        }
        self.owners.push((owner, list));
        proof {
            let after = owner_lists(self.owners@);
            assert(after =~= mid.push((owner, list@)));
            assert(after.drop_last() =~= mid);
            assert forall|a: int, b: int| 0 <= a < b < after.len() implies #[trigger] after[a].0 != #[trigger] after[b].0 by {
                if b == after.len() - 1 {
                    assert(mid[a].0 != owner) by {
                        if mid[a].0 == owner {
                            assert(assoc_map(mid).dom().contains(owner));
                        }
                    }
                } else {
                    assert(mid[a].0 != mid[b].0);
                }
            }
            assert(assoc_map(mid) =~= old(self)@.remove(owner));
            assert(self@ =~= old(self)@.insert(owner, list@));
        }
    }

    fn list_of(&self, owner: AccountId) -> (res: Vec<Position>)
        requires
            self.wf(),
        ensures
            res@ == positions_of(self@, owner),
    {
        match self.find(owner) {
            Some(i) => {
                let mut res: Vec<Position> = Vec::new();
                let mut j: usize = 0;
                while j < self.owners[i].1.len()
                    invariant
                        i < self.owners@.len(),
                        j <= self.owners@[i as int].1@.len(),
                        res@ == self.owners@[i as int].1@.take(j as int),
                    decreases self.owners@[i as int].1@.len() - j,
                {
                    res.push(self.owners[i].1[j]);
                    j = j + 1;
                    assert(res@ =~= self.owners@[i as int].1@.take(j as int));
                }
                assert(self.owners@[i as int].1@.take(j as int) =~= self.owners@[i as int].1@);
                res
            },
            None => Vec::new(),
        }
    }

    /// Appends a position to `owner`'s list; the list must have room for it.
    pub fn add(&mut self, owner: AccountId, position: &Position)
        requires
            old(self).wf(),
            positions_of(old(self)@, owner).len() < u32::MAX,
        ensures
            final(self).wf(),
            final(self)@ == old(self)@.insert(owner, positions_of(old(self)@, owner).push(*position)),
    {
        let mut list = self.list_of(owner);
        list.push(*position);
        self.replace_list(owner, list);
    }

    /// Replaces position `index` of `owner`; `PositionNotFound` when there is none.
    pub fn update(&mut self, owner: AccountId, index: u32, position: &Position) -> (res: Result<(), InvariantError>)
        requires
            old(self).wf(),
        ensures
            final(self).wf(),
            res is Ok <==> index < positions_of(old(self)@, owner).len(),
            res is Ok ==> final(self)@ == old(self)@.insert(owner, positions_of(old(self)@, owner).update(index as int, *position)),
            res is Err ==> res == Err::<(), InvariantError>(InvariantError::PositionNotFound) && final(self)@ == old(self)@,
    {
        let mut list = self.list_of(owner);
        if (index as usize) >= list.len() {
            return Err(InvariantError::PositionNotFound);
        }
        list.set(index as usize, *position);
        proof {
            self.lemma_counts(owner);
        }
        self.replace_list(owner, list);
        Ok(())
    }

    /// Removes position `index` of `owner`: the last position takes its place.
    /// `PositionNotFound` when there is none.
    pub fn remove(&mut self, owner: AccountId, index: u32) -> (res: Result<Position, InvariantError>)
        requires
            old(self).wf(),
        ensures
            final(self).wf(),
            res is Ok <==> index < positions_of(old(self)@, owner).len(),
            res is Ok ==> res == Ok::<Position, InvariantError>(positions_of(old(self)@, owner)[index as int])
                && final(self)@ == old(self)@.insert(owner, spec_swap_remove(positions_of(old(self)@, owner), index as int)),
            res is Err ==> res == Err::<Position, InvariantError>(InvariantError::PositionNotFound) && final(self)@ == old(self)@,
    {
        let mut list = self.list_of(owner);
        if (index as usize) >= list.len() {
            return Err(InvariantError::PositionNotFound);
        }
        let removed = list[index as usize];
        let last = list.len() - 1;
        if (index as usize) < last {
            let moved = list[last];
            list.set(index as usize, moved);
        }
        list.pop();
        proof {
            assert(list@ =~= spec_swap_remove(positions_of(old(self)@, owner), index as int));
            self.lemma_counts(owner);
        }
        self.replace_list(owner, list);
        Ok(removed)
    }

    /// The stored lists, as `from_entries` takes them.
    pub fn entries(&self) -> (res: Vec<(AccountId, Vec<Position>)>)
        requires
            self.wf(),
        ensures
            assoc_map(owner_lists(res@)) == self@,
            keys_distinct(owner_lists(res@)),
            forall|i: int| 0 <= i < res@.len() ==> (#[trigger] res@[i]).1@.len() <= u32::MAX,
    {
        let mut res: Vec<(AccountId, Vec<Position>)> = Vec::new();
        let mut i: usize = 0;
        while i < self.owners.len()
            invariant
                self.wf(),
                i <= self.owners.len(),
                res@.len() == i,
                owner_lists(res@) == owner_lists(self.owners@).take(i as int),
                forall|j: int| 0 <= j < i ==> (#[trigger] res@[j]).1@.len() <= u32::MAX,
            decreases self.owners.len() - i,
        {
            let owner = self.owners[i].0;
            let list = self.list_of_index(i);
            let ghost before = res@;
            res.push((owner, list));
            proof {
                assert(res@ =~= before.push((owner, list)));
                assert(owner_lists(res@) =~= owner_lists(before).push((owner, list@)));
                assert(owner_lists(self.owners@)[i as int] == (owner, list@));
                assert(self.owners@[i as int].1@.len() <= u32::MAX);
            }
            i = i + 1;
            assert(owner_lists(res@) =~= owner_lists(self.owners@).take(i as int));
        }
        assert(owner_lists(self.owners@).take(i as int) =~= owner_lists(self.owners@));
        res
    }

    fn list_of_index(&self, i: usize) -> (res: Vec<Position>)
        requires
            i < self.owners@.len(),
        ensures
            res@ == self.owners@[i as int].1@,
    {
        let mut res: Vec<Position> = Vec::new();
        let mut j: usize = 0;
        while j < self.owners[i].1.len()
            invariant
                i < self.owners@.len(),
                j <= self.owners@[i as int].1@.len(),
                res@ == self.owners@[i as int].1@.take(j as int),
            decreases self.owners@[i as int].1@.len() - j,
        {
            res.push(self.owners[i].1[j]);
            j = j + 1;
            assert(res@ =~= self.owners@[i as int].1@.take(j as int));
        }
        assert(self.owners@[i as int].1@.take(j as int) =~= self.owners@[i as int].1@);
        res
    }

    /// Restores the lists; `None` when an owner is listed twice or has more than `u32::MAX` positions.
    pub fn from_entries(entries: Vec<(AccountId, Vec<Position>)>) -> (res: Option<Positions>)
        ensures
            res is Some <==> keys_distinct(owner_lists(entries@)) && forall|i: int| 0 <= i < entries@.len() ==> (#[trigger] entries@[i]).1@.len() <= u32::MAX,
            res matches Some(p) ==> p.wf() && p@ == assoc_map(owner_lists(entries@)),
    {
        let ghost l = owner_lists(entries@);
        let mut i: usize = 0;
        while i < entries.len()
            invariant
                i <= entries@.len(),
                l == owner_lists(entries@),
                forall|a: int, b: int| 0 <= a < b < i ==> #[trigger] l[a].0 != #[trigger] l[b].0,
                forall|a: int| 0 <= a < i ==> (#[trigger] entries@[a]).1@.len() <= u32::MAX,
            decreases entries@.len() - i,
        {
            if entries[i].1.len() > u32::MAX as usize {
                return None;
            }
            let mut j: usize = 0;
            while j < i
                invariant
                    j <= i < entries@.len(),
                    l == owner_lists(entries@),
                    forall|a: int| 0 <= a < j ==> #[trigger] l[a].0 != l[i as int].0,
                decreases i - j,
            {
                if entries[j].0 == entries[i].0 {
                    proof {
                        assert(l[j as int].0 == l[i as int].0);
                    }
                    return None;
                }
                j = j + 1;
            }
            i = i + 1;
        }
        Some(Positions { owners: entries })
    }
}

/// The list with item `i` replaced by the last item, and the last dropped.
pub open spec fn spec_swap_remove(s: Seq<Position>, i: int) -> Seq<Position> {
    if i < s.len() - 1 {
        s.update(i, s.last()).drop_last()
    } else {
        s.drop_last()
    }
}

} // verus!
