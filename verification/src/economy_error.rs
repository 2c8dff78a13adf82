//! Errors of the monetary-policy layer.
use vstd::prelude::*;

verus! {

/// Why a monetary operation was refused.
#[derive(Debug, Clone, Copy, PartialEq, Eq, Structural)]
pub enum EconomyError {
    Overflow,
    Underflow,
    EmptyEligibleSet,
    DuplicateBeneficiary,
    InvalidDuration,
    InvalidPolicy,
    ChannelExceeded,
    TotalExceeded,
    InvalidGenesis,
    InvalidSnapshot,
    UnexpectedEpoch,
    OpeningSupplyMismatch,
    InvalidEpochPlan,
    LimitExceeded,
    MalformedEncoding,
}

/// The name an error is displayed by: its variant's name.
pub open spec fn error_name(e: EconomyError) -> Seq<char> {
    match e {
        EconomyError::Overflow => "Overflow"@,
        EconomyError::Underflow => "Underflow"@,
        EconomyError::EmptyEligibleSet => "EmptyEligibleSet"@,
        EconomyError::DuplicateBeneficiary => "DuplicateBeneficiary"@,
        EconomyError::InvalidDuration => "InvalidDuration"@,
        EconomyError::InvalidPolicy => "InvalidPolicy"@,
        EconomyError::ChannelExceeded => "ChannelExceeded"@,
        EconomyError::TotalExceeded => "TotalExceeded"@,
        EconomyError::InvalidGenesis => "InvalidGenesis"@,
        EconomyError::InvalidSnapshot => "InvalidSnapshot"@,
        EconomyError::UnexpectedEpoch => "UnexpectedEpoch"@,
        EconomyError::OpeningSupplyMismatch => "OpeningSupplyMismatch"@,
        EconomyError::InvalidEpochPlan => "InvalidEpochPlan"@,
        EconomyError::LimitExceeded => "LimitExceeded"@,
        EconomyError::MalformedEncoding => "MalformedEncoding"@,
    }
}

impl EconomyError {
    /// The variant's name, as the error is displayed.
    pub fn describe(&self) -> (s: &'static str)
        ensures
            s@ == error_name(*self),
    {
        match self {
            EconomyError::Overflow => "Overflow",
            EconomyError::Underflow => "Underflow",
            EconomyError::EmptyEligibleSet => "EmptyEligibleSet",
            EconomyError::DuplicateBeneficiary => "DuplicateBeneficiary",
            EconomyError::InvalidDuration => "InvalidDuration",
            EconomyError::InvalidPolicy => "InvalidPolicy",
            EconomyError::ChannelExceeded => "ChannelExceeded",
            EconomyError::TotalExceeded => "TotalExceeded",
            EconomyError::InvalidGenesis => "InvalidGenesis",
            EconomyError::InvalidSnapshot => "InvalidSnapshot",
            EconomyError::UnexpectedEpoch => "UnexpectedEpoch",
            EconomyError::OpeningSupplyMismatch => "OpeningSupplyMismatch",
            EconomyError::InvalidEpochPlan => "InvalidEpochPlan",
            EconomyError::LimitExceeded => "LimitExceeded",
            EconomyError::MalformedEncoding => "MalformedEncoding",
        }
    }
}

} // verus!
