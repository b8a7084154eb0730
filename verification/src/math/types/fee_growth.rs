//! Fee collected per unit of liquidity.
use crate::math::error::MathError;
use crate::math::types::token_amount::TokenAmount;
use crate::math::types::liquidity::Liquidity;
use crate::math::uint::{base128, base256, U256};
use vstd::prelude::*;

verus! {

/// Fee collected per unit of liquidity: a decimal with 28 fractional digits, stored as its value times 10^28.
#[derive(Clone, Copy, Debug, Default, PartialEq, Eq, Structural)]
pub struct FeeGrowth(pub u128);

impl FeeGrowth {
    /// The scale: number of fractional digits.
    pub open spec fn scale() -> nat {
        28
    }

    /// The number whose scaled representation is `v`.
    pub fn new(v: u128) -> (res: FeeGrowth)
        ensures
            res.0 == v,
    {
        FeeGrowth(v)
    }

    /// The scaled representation.
    pub fn get(&self) -> (res: u128)
        ensures
            res == self.0,
    {
        self.0
    }

    /// The fee that `liquidity` collected over this growth:
    /// `growth * liquidity / 10^34`, rounded down; `Cast` when it does not fit a `u128`.
    pub open spec fn spec_to_fee(growth: u128, liquidity: u128) -> Result<nat, MathError> {
        let v = growth as nat * liquidity as nat / 10000000000000000000000000000000000nat;
        if v >= base128() {
            Err(MathError::Cast)
        } else {
            Ok(v)
        }
    }

    /// The fee that `liquidity` collected over this growth (see `spec_to_fee`).
    pub fn to_fee(self, liquidity: Liquidity) -> (res: Result<TokenAmount, MathError>)
        ensures
            match (res, Self::spec_to_fee(self.0, liquidity.0)) {
                (Ok(t), Ok(v)) => t.0 == v,
                (Err(e), Err(f)) => e == f,
                _ => false,
            },
    {
        proof {
            assert((self.0 as nat) * (liquidity.0 as nat) < base256()) by (nonlinear_arith)
                requires
                    self.0 < base128(),
                    liquidity.0 < base128(),
                    base256() == base128() * base128(),
            ;
        }
        let product = match U256::from_u128(self.get()).checked_mul(&U256::from_u128(liquidity.get())) {
            Some(p) => p,
            None => U256::from_u128(0),
        };
        match product.div_u128(10000000000000000000000000000000000u128).to_u128() {
            Some(v) => Ok(TokenAmount::new(v)),
            None => Err(MathError::Cast),
        }
    }

    /// The growth that `fee` spread over `liquidity` makes:
    /// `fee * 10^34 / liquidity`, rounded down; `Div` for no liquidity,
    /// `Cast` when it does not fit a `u128`.
    pub open spec fn spec_from_fee(liquidity: u128, fee: u128) -> Result<u128, MathError> {
        if liquidity == 0 {
            Err(MathError::Div)
        } else if fee as nat * 10000000000000000000000000000000000nat / (liquidity as nat) >= base128() {
            Err(MathError::Cast)
        } else {
            Ok((fee as nat * 10000000000000000000000000000000000nat / (liquidity as nat)) as u128)
        }
    }

    /// The growth that `fee` spread over `liquidity` makes (see `spec_from_fee`).
    pub fn from_fee(liquidity: Liquidity, fee: TokenAmount) -> (res: Result<FeeGrowth, MathError>)
        ensures
            match (res, Self::spec_from_fee(liquidity.0, fee.0)) {
                (Ok(g), Ok(v)) => g.0 == v,
                (Err(e), Err(f)) => e == f,
                _ => false,
            },
    {
        if liquidity.get() == 0 {
            return Err(MathError::Div);
        }
        proof {
            assert((fee.0 as nat) * 10000000000000000000000000000000000nat < base256()) by (nonlinear_arith)
                requires
                    fee.0 < base128(),
                    base256() == base128() * base128(),
                    10000000000000000000000000000000000nat < base128(),
            ;
        }
        let product = match U256::from_u128(fee.get()).checked_mul(&U256::from_u128(10000000000000000000000000000000000u128)) {
            Some(p) => p,
            None => U256::from_u128(0),
        };
        match product.div_u128(liquidity.get()).to_u128() {
            Some(v) => Ok(FeeGrowth::new(v)),
            None => Err(MathError::Cast),
        }
    }
}

} // verus!
