//! Errors of the fixed-point and tick math.
use vstd::prelude::*;

verus! {

/// Why a price or tick computation was refused.
#[derive(Clone, Copy, Debug, PartialEq, Eq, Structural)]
pub enum MathError {
    /// The tick index lies outside `[-MAX_TICK, MAX_TICK]`.
    TickOverBounds,
    /// The square-root price lies outside `[MIN_SQRT_PRICE, MAX_SQRT_PRICE]`.
    SqrtPriceOutOfRange,
    /// A multiplication left its integer width.
    Mul,
    /// A division by zero.
    Div,
    /// An addition left its integer width.
    Add,
    /// A subtraction went below zero.
    Sub,
    /// A result did not fit the target type.
    Cast,
    /// A tick index is not a multiple of the tick spacing.
    InvalidTickSpacing,
    /// A tick index lies outside the usable range of its spacing.
    InvalidTickIndex,
}

impl MathError {
    /// A short description of the cause.
    pub fn cause(&self) -> (res: &'static str)
        ensures
            *self == MathError::TickOverBounds ==> res@ == "tick over bounds"@,
            *self == MathError::SqrtPriceOutOfRange ==> res@ == "sqrt_price out of range"@,
            *self == MathError::Mul ==> res@ == "multiplication overflow"@,
            *self == MathError::Div ==> res@ == "division by zero"@,
            *self == MathError::Add ==> res@ == "addition overflow"@,
            *self == MathError::Sub ==> res@ == "subtraction underflow"@,
            *self == MathError::Cast ==> res@ == "conversion overflow"@,
            *self == MathError::InvalidTickSpacing ==> res@ == "InvalidTickSpacing"@,
            *self == MathError::InvalidTickIndex ==> res@ == "InvalidTickIndex"@,
    {
        match self {
            MathError::TickOverBounds => "tick over bounds",
            MathError::SqrtPriceOutOfRange => "sqrt_price out of range",
            MathError::Mul => "multiplication overflow",
            MathError::Div => "division by zero",
            MathError::Add => "addition overflow",
            MathError::Sub => "subtraction underflow",
            MathError::Cast => "conversion overflow",
            MathError::InvalidTickSpacing => "InvalidTickSpacing",
            MathError::InvalidTickIndex => "InvalidTickIndex",
        }
    }
}

} // verus!
