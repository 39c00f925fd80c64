//! Errors of the ledger's calls, and the words the network prints.

use vstd::prelude::*;

verus! {

/// Why a call was refused. A refused call leaves the state unchanged.
#[derive(Clone, Copy, Debug, PartialEq, Eq, Structural)]
pub enum Error {
    /// The call came without a signer context.
    NoSignerContext,
    /// A transfer call was not signed.
    TransferUnsigned,
    /// A delegate call was not signed.
    DelegateUnsigned,
    /// The signer holds fewer coins than the call moves.
    InsufficientFunds,
    /// An amount would not fit in 64 bits.
    Overflow,
    /// The call came without a validator-set context.
    NoValidatorContext,
    /// A validator address did not decode to 32 bytes.
    InvalidValidatorAddress,
}

/// The message the network gives for each refusal.
pub open spec fn message_of(e: Error) -> Seq<char> {
    match e {
        Error::NoSignerContext => "No signer context available"@,
        Error::TransferUnsigned => "Transfer calls must be signed"@,
        Error::DelegateUnsigned => "Delegate calls must be signed"@,
        Error::InsufficientFunds => "Insufficient funds"@,
        Error::Overflow => "Value overflowed"@,
        Error::NoValidatorContext => "No validator context available"@,
        Error::InvalidValidatorAddress => "invalid validator address"@,
    }
}

impl Error {
    /// The message the network gives for this refusal.
    pub fn message(&self) -> (r: &'static str)
        ensures
            r@ == message_of(*self),
    {
        match self {
            Error::NoSignerContext => "No signer context available",
            Error::TransferUnsigned => "Transfer calls must be signed",
            Error::DelegateUnsigned => "Delegate calls must be signed",
            Error::InsufficientFunds => "Insufficient funds",
            Error::Overflow => "Value overflowed",
            Error::NoValidatorContext => "No validator context available",
            Error::InvalidValidatorAddress => "invalid validator address",
        }
    }
}

/// The ending of "validator" for a count: "" for one, "s" otherwise.
pub open spec fn plural_suffix_of(n: usize) -> Seq<char> {
    if n == 1 {
        ""@
    } else {
        "s"@
    }
}

/// The ending of "validator" for a count, as the delegation listing prints it.
pub fn plural_suffix(n: usize) -> (r: &'static str)
    ensures
        r@ == plural_suffix_of(n),
{
    if n == 1 {
        ""
    } else {
        "s"
    }
}

} // verus!
