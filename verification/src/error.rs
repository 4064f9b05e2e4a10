//! The errors the rollup service reports, and how each is answered.

use crate::bignum::BigNum;
use crate::decimal::decimal_digits;
use vstd::prelude::*;
use vstd::string::StringExecFns;

verus! {

/// A failed request.
#[derive(Debug, Clone, Copy, PartialEq, Eq, Structural)]
pub enum RollupError {
    AccountNotFound { id: u32 },
    InsufficientBalance { available: u64, requested: u64 },
    InvalidSignature,
    StateRootMismatch,
}

/// The human-readable message of an error.
pub open spec fn message_of(e: RollupError) -> Seq<char> {
    match e {
        RollupError::AccountNotFound { id } => "account "@ + decimal_digits(id as nat)
            + " not found"@,
        RollupError::InsufficientBalance { available, requested } => "insufficient balance: have "@
            + decimal_digits(available as nat) + ", need "@ + decimal_digits(requested as nat),
        RollupError::InvalidSignature => "invalid signature"@,
        RollupError::StateRootMismatch => "state root mismatch"@,
    }
}

impl RollupError {
    /// The human-readable message in the response body.
    pub fn message(&self) -> (m: String)
        ensures
            m@ == message_of(*self),
    {
        match self {
            RollupError::AccountNotFound { id } => {
                let digits = BigNum::from_u64(*id as u64).to_decimal();
                let mut m = String::from_str("account ");
                m.append(digits.as_str());
                m.append(" not found");
                m
            },
            RollupError::InsufficientBalance { available, requested } => {
                let have = BigNum::from_u64(*available).to_decimal();
                let need = BigNum::from_u64(*requested).to_decimal();
                let mut m = String::from_str("insufficient balance: have ");
                m.append(have.as_str());
                m.append(", need ");
                m.append(need.as_str());
                m
            },
            RollupError::InvalidSignature => String::from_str("invalid signature"),
            RollupError::StateRootMismatch => String::from_str("state root mismatch"),
        }
    }

    /// The HTTP status that answers the error.
    pub fn status_code(&self) -> (code: u16)
        ensures
            code == match *self {
                RollupError::AccountNotFound { .. } => 404u16,
                RollupError::InsufficientBalance { .. } => 400u16,
                RollupError::InvalidSignature => 401u16,
                RollupError::StateRootMismatch => 409u16,
            },
    {
        match self {
            RollupError::AccountNotFound { .. } => 404,
            RollupError::InsufficientBalance { .. } => 400,
            RollupError::InvalidSignature => 401,
            RollupError::StateRootMismatch => 409,
        }
    }

    /// The machine-readable error code in the response body.
    pub fn code(&self) -> (code: &'static str)
        ensures
            code@ == match *self {
                RollupError::AccountNotFound { .. } => "ACCOUNT_NOT_FOUND"@,
                RollupError::InsufficientBalance { .. } => "INSUFFICIENT_BALANCE"@,
                RollupError::InvalidSignature => "INVALID_SIGNATURE"@,
                RollupError::StateRootMismatch => "STATE_ROOT_MISMATCH"@,
            },
    {
        match self {
            RollupError::AccountNotFound { .. } => "ACCOUNT_NOT_FOUND",
            RollupError::InsufficientBalance { .. } => "INSUFFICIENT_BALANCE",
            RollupError::InvalidSignature => "INVALID_SIGNATURE",
            RollupError::StateRootMismatch => "STATE_ROOT_MISMATCH",
        }
    }
}

} // verus!
