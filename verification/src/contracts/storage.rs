//! What the contract stores: its configuration, fee tiers, pool keys and pools.
use crate::contracts::account::{account_lt, AccountId};
use crate::contracts::errors::InvariantError;
use crate::math::clamm::{calculate_amount_delta, fee_of, spec_amount_delta, spec_fee_of, wrap_add, PERCENTAGE_ONE};
use crate::math::uint::base128;
use crate::math::error::MathError;
use crate::math::consts::{pow10, MAX_TICK};
use crate::math::types::token_amount::TokenAmount;
use crate::math::types::fee_growth::FeeGrowth;
use crate::math::types::liquidity::Liquidity;
use crate::math::types::percentage::Percentage;
use crate::math::types::sqrt_price::{
    check_tick_to_sqrt_price_relationship, spec_tick_matches_sqrt_price, SqrtPrice,
};
use vstd::prelude::*;

verus! {

/// The widest tick spacing a fee tier may have.
pub const MAX_TICK_SPACING: u16 = 100;

/// Who administers the contract and which share of swap fees it keeps.
#[derive(Clone, Copy, Debug, PartialEq, Eq, Structural)]
pub struct InvariantConfig {
    pub admin: AccountId,
    pub protocol_fee: Percentage,
}

/// A swap fee together with the spacing of the ticks on which liquidity may be placed.
#[derive(Clone, Copy, Debug, PartialEq, Eq, Structural)]
pub struct FeeTier {
    pub fee: Percentage,
    pub tick_spacing: u16,
}

/// A fee tier can be offered: its spacing is in `1..=MAX_TICK_SPACING` and its fee below 100%.
pub open spec fn fee_tier_valid(fee_tier: FeeTier) -> bool {
    &&& 1 <= fee_tier.tick_spacing <= MAX_TICK_SPACING
    &&& fee_tier.fee.v < pow10(12)
}

/// The fee tier with the given fee and spacing, or why it cannot be offered.
pub open spec fn spec_fee_tier(fee: Percentage, tick_spacing: u16) -> Result<FeeTier, InvariantError> {
    if tick_spacing == 0 || tick_spacing > MAX_TICK_SPACING {
        Err(InvariantError::InvalidTickSpacing)
    } else if fee.v >= pow10(12) {
        Err(InvariantError::InvalidFee)
    } else {
        Ok(FeeTier { fee, tick_spacing })
    }
}

impl FeeTier {
    /// A fee tier, checked: the spacing must lie in `1..=MAX_TICK_SPACING`
    /// (else `InvalidTickSpacing`) and the fee below 100% (else `InvalidFee`).
    pub fn new(fee: Percentage, tick_spacing: u16) -> (res: Result<FeeTier, InvariantError>)
        ensures
            res == spec_fee_tier(fee, tick_spacing),
            res matches Ok(f) ==> fee_tier_valid(f),
    {
        if tick_spacing == 0 || tick_spacing > MAX_TICK_SPACING {
            return Err(InvariantError::InvalidTickSpacing);
        }
        if fee.get() >= Percentage::one().get() {
            return Err(InvariantError::InvalidFee);
        }
        Ok(FeeTier { fee, tick_spacing })
    }
}

/// Identifies a pool: its two tokens, the smaller address first, and its fee tier.
#[derive(Clone, Copy, Debug, PartialEq, Eq, Structural)]
pub struct PoolKey {
    pub token_x: AccountId,
    pub token_y: AccountId,
    pub fee_tier: FeeTier,
}

/// The key of the pool of two tokens, given in either order, or `TokensAreSame`.
pub open spec fn spec_pool_key(token_0: AccountId, token_1: AccountId, fee_tier: FeeTier) -> Result<PoolKey, InvariantError> {
    if token_0 == token_1 {
        Err(InvariantError::TokensAreSame)
    } else if account_lt(token_0, token_1) {
        Ok(PoolKey { token_x: token_0, token_y: token_1, fee_tier })
    } else {
        Ok(PoolKey { token_x: token_1, token_y: token_0, fee_tier })
    }
}

impl PoolKey {
    /// The key of the pool of `token_0` and `token_1`, ordered so that `token_x`
    /// is the smaller address; two equal tokens are refused with `TokensAreSame`.
    pub fn new(token_0: AccountId, token_1: AccountId, fee_tier: FeeTier) -> (res: Result<PoolKey, InvariantError>)
        ensures
            res == spec_pool_key(token_0, token_1, fee_tier),
            res matches Ok(k) ==> account_lt(k.token_x, k.token_y),
    {
        if token_0 == token_1 {
            return Err(InvariantError::TokensAreSame);
        }
        if token_0.lt(&token_1) {
            Ok(PoolKey { token_x: token_0, token_y: token_1, fee_tier })
        } else {
            Ok(PoolKey { token_x: token_1, token_y: token_0, fee_tier })
        }
    }
}

/// The state of one pool.
#[derive(Clone, Copy, Debug, PartialEq, Eq, Structural)]
pub struct Pool {
    pub liquidity: Liquidity,
    pub sqrt_price: SqrtPrice,
    pub current_tick_index: i32,
    pub fee_growth_global_x: FeeGrowth,
    pub fee_growth_global_y: FeeGrowth,
    pub fee_protocol_token_x: TokenAmount,
    pub fee_protocol_token_y: TokenAmount,
    pub start_timestamp: u64,
    pub last_timestamp: u64,
    pub fee_receiver: AccountId,
}

/// A fresh pool: no liquidity, no fees, started at `timestamp`.
pub open spec fn spec_fresh_pool(sqrt_price: SqrtPrice, tick: i32, timestamp: u64, fee_receiver: AccountId) -> Pool {
    Pool {
        liquidity: Liquidity(0),
        sqrt_price,
        current_tick_index: tick,
        fee_growth_global_x: FeeGrowth(0),
        fee_growth_global_y: FeeGrowth(0),
        fee_protocol_token_x: TokenAmount(0),
        fee_protocol_token_y: TokenAmount(0),
        start_timestamp: timestamp,
        last_timestamp: timestamp,
        fee_receiver,
    }
}

/// The pool that `Pool::create` makes, or why it refuses.
pub open spec fn spec_new_pool(
    init_sqrt_price: SqrtPrice,
    init_tick: i32,
    timestamp: u64,
    tick_spacing: u16,
    fee_receiver: AccountId,
) -> Result<Pool, InvariantError> {
    match spec_tick_matches_sqrt_price(init_tick as int, tick_spacing as int, init_sqrt_price.0 as nat) {
        Err(_) => Err(InvariantError::InvalidInitTick),
        Ok(false) => Err(InvariantError::InvalidInitSqrtPrice),
        Ok(true) => Ok(spec_fresh_pool(init_sqrt_price, init_tick, timestamp, fee_receiver)),
    }
}

impl Pool {
    /// A new pool at `init_sqrt_price` and `init_tick`; the price must lie in the
    /// price range of the tick (else `InvalidInitSqrtPrice`), and a tick outside
    /// the tick range is refused with `InvalidInitTick`.
    pub fn create(
        init_sqrt_price: SqrtPrice,
        init_tick: i32,
        current_timestamp: u64,
        tick_spacing: u16,
        fee_receiver: AccountId,
    ) -> (res: Result<Pool, InvariantError>)
        requires
            init_tick > i32::MIN,
            init_tick + tick_spacing <= i32::MAX,
            init_tick + tick_spacing > MAX_TICK ==> tick_spacing > 0,
        ensures
            res == spec_new_pool(init_sqrt_price, init_tick, current_timestamp, tick_spacing, fee_receiver),
    {
        match check_tick_to_sqrt_price_relationship(init_tick, tick_spacing, init_sqrt_price) {
            Err(_) => Err(InvariantError::InvalidInitTick),
            Ok(false) => Err(InvariantError::InvalidInitSqrtPrice),
            Ok(true) => Ok(Pool {
                liquidity: Liquidity::new(0),
                sqrt_price: init_sqrt_price,
                current_tick_index: init_tick,
                fee_growth_global_x: FeeGrowth::new(0),
                fee_growth_global_y: FeeGrowth::new(0),
                fee_protocol_token_x: TokenAmount::new(0),
                fee_protocol_token_y: TokenAmount::new(0),
                start_timestamp: current_timestamp,
                last_timestamp: current_timestamp,
                fee_receiver,
            }),
        }
    }

    /// Hands out the protocol fees collected so far and sets them to zero.
    pub fn withdraw_protocol_fee(&mut self) -> (res: (TokenAmount, TokenAmount))
        ensures
            res == (old(self).fee_protocol_token_x, old(self).fee_protocol_token_y),
            *final(self) == (Pool {
                fee_protocol_token_x: TokenAmount(0),
                fee_protocol_token_y: TokenAmount(0),
                ..*old(self)
            }),
    {
        let fee_protocol_token_x = self.fee_protocol_token_x;
        let fee_protocol_token_y = self.fee_protocol_token_y;
        self.fee_protocol_token_x = TokenAmount::new(0);
        self.fee_protocol_token_y = TokenAmount::new(0);
        (fee_protocol_token_x, fee_protocol_token_y)
    }

    /// The pool after a position on `[lower_tick, upper_tick]` adds (`liquidity_sign`)
    /// or withdraws `liquidity_delta`, with the token amounts moved: the pool's
    /// own liquidity changes only when the range holds the current tick.
    pub open spec fn spec_update_liquidity(pool: Pool, liquidity_delta: nat, liquidity_sign: bool, upper_tick: int, lower_tick: int) -> Result<(Pool, nat, nat), MathError> {
        match spec_amount_delta(pool.current_tick_index as int, pool.sqrt_price.0 as nat, liquidity_delta, liquidity_sign, upper_tick, lower_tick) {
            Err(e) => Err(e),
            Ok((x, y, update)) => if !update {
                Ok((pool, x, y))
            } else if liquidity_sign {
                if pool.liquidity.0 + liquidity_delta > u128::MAX {
                    Err(MathError::Add)
                } else {
                    Ok((Pool { liquidity: Liquidity((pool.liquidity.0 + liquidity_delta) as u128), ..pool }, x, y))
                }
            } else {
                if pool.liquidity.0 < liquidity_delta {
                    Err(MathError::Sub)
                } else {
                    Ok((Pool { liquidity: Liquidity((pool.liquidity.0 - liquidity_delta) as u128), ..pool }, x, y))
                }
            },
        }
    }

    /// Applies a position's change of liquidity to the pool and returns the token
    /// amounts it moves (see `spec_update_liquidity`); on `Err` the pool is unchanged.
    pub fn update_liquidity(&mut self, liquidity_delta: Liquidity, liquidity_sign: bool, upper_tick: i32, lower_tick: i32) -> (res: Result<(TokenAmount, TokenAmount), MathError>)
        requires
            old(self).sqrt_price.0 > 0,
        ensures
            match (res, Self::spec_update_liquidity(*old(self), liquidity_delta.0 as nat, liquidity_sign, upper_tick as int, lower_tick as int)) {
                (Ok((x, y)), Ok((p, sx, sy))) => *final(self) == p && x.0 == sx && y.0 == sy,
                (Err(e), Err(f)) => e == f && *final(self) == *old(self),
                _ => false,
            },
    {
        let (x, y, update) = match calculate_amount_delta(
            self.current_tick_index,
            self.sqrt_price,
            liquidity_delta,
            liquidity_sign,
            upper_tick,
            lower_tick,
        ) {
            Ok(r) => r,
            Err(e) => return Err(e),
        };
        if !update {
            return Ok((x, y));
        }
        if liquidity_sign {
            if self.liquidity.get() > u128::MAX - liquidity_delta.get() {
                return Err(MathError::Add);
            }
            self.liquidity = Liquidity::new(self.liquidity.get() + liquidity_delta.get());
        } else {
            if self.liquidity.get() < liquidity_delta.get() {
                return Err(MathError::Sub);
            }
            self.liquidity = Liquidity::new(self.liquidity.get() - liquidity_delta.get());
        }
        Ok((x, y))
    }

    /// The pool after a swap step's fee `amount`, paid in x (`in_x`) or y: the
    /// protocol keeps `protocol_fee` of it, rounded up, and the rest grows the
    /// fee per unit of liquidity (wrapping). A pool without liquidity, or a
    /// zero fee, keeps nothing.
    pub open spec fn spec_add_fee(pool: Pool, amount: nat, in_x: bool, protocol_fee: nat) -> Result<Pool, MathError> {
        let protocol = spec_fee_of(amount, protocol_fee);
        let pool_fee = (amount - protocol) as nat;
        if (pool_fee == 0 && protocol == 0) || pool.liquidity.0 == 0 {
            Ok(pool)
        } else {
            match FeeGrowth::spec_from_fee(pool.liquidity.0, pool_fee as u128) {
                Err(e) => Err(e),
                Ok(growth) => if in_x {
                    if pool.fee_protocol_token_x.0 + protocol >= base128() {
                        Err(MathError::Add)
                    } else {
                        Ok(
                            Pool {
                                fee_growth_global_x: FeeGrowth(wrap_add(pool.fee_growth_global_x.0, growth)),
                                fee_protocol_token_x: TokenAmount((pool.fee_protocol_token_x.0 + protocol) as u128),
                                ..pool
                            },
                        )
                    }
                } else {
                    if pool.fee_protocol_token_y.0 + protocol >= base128() {
                        Err(MathError::Add)
                    } else {
                        Ok(
                            Pool {
                                fee_growth_global_y: FeeGrowth(wrap_add(pool.fee_growth_global_y.0, growth)),
                                fee_protocol_token_y: TokenAmount((pool.fee_protocol_token_y.0 + protocol) as u128),
                                ..pool
                            },
                        )
                    }
                },
            }
        }
    }

    /// Books a swap step's fee (see `spec_add_fee`); on `Err` the pool is unchanged.
    pub fn add_fee(&mut self, amount: TokenAmount, in_x: bool, protocol_fee: Percentage) -> (res: Result<(), MathError>)
        requires
            protocol_fee.v <= PERCENTAGE_ONE,
        ensures
            match (res, Self::spec_add_fee(*old(self), amount.0 as nat, in_x, protocol_fee.v as nat)) {
                (Ok(()), Ok(p)) => *final(self) == p,
                (Err(e), Err(f)) => e == f && *final(self) == *old(self),
                _ => false,
            },
    {
        let protocol = fee_of(amount, protocol_fee);
        proof {
            let a = amount.0 as nat;
            let pc = PERCENTAGE_ONE as nat;
            assert(a * (protocol_fee.v as nat) + pc - 1 <= a * pc + pc - 1) by (nonlinear_arith)
                requires
                    protocol_fee.v <= PERCENTAGE_ONE,
                    pc == PERCENTAGE_ONE,
            ;
            vstd::arithmetic::div_mod::lemma_div_is_ordered((a * (protocol_fee.v as nat) + pc - 1) as int, (a * pc + pc - 1) as int, pc as int);
            vstd::arithmetic::div_mod::lemma_fundamental_div_mod_converse((a * pc + pc - 1) as int, pc as int, a as int, (pc - 1) as int);
        }
        let pool_fee = TokenAmount::new(amount.get() - protocol.get());
        if (pool_fee.get() == 0 && protocol.get() == 0) || self.liquidity.get() == 0 {
            return Ok(());
        }
        let growth = match FeeGrowth::from_fee(self.liquidity, pool_fee) {
            Ok(g) => g,
            Err(e) => return Err(e),
        };
        if in_x {
            if self.fee_protocol_token_x.get() > u128::MAX - protocol.get() {
                return Err(MathError::Add);
            }
            self.fee_growth_global_x = FeeGrowth::new(self.fee_growth_global_x.get().wrapping_add(growth.get()));
            self.fee_protocol_token_x = TokenAmount::new(self.fee_protocol_token_x.get() + protocol.get());
        } else {
            if self.fee_protocol_token_y.get() > u128::MAX - protocol.get() {
                return Err(MathError::Add);
            }
            self.fee_growth_global_y = FeeGrowth::new(self.fee_growth_global_y.get().wrapping_add(growth.get()));
            self.fee_protocol_token_y = TokenAmount::new(self.fee_protocol_token_y.get() + protocol.get());
        }
        Ok(())
    }
}

} // verus!
