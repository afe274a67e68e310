//! Error kinds: consensus verdicts are values, never control flow; the
//! harness-level kinds separate structural, resource and invariant
//! failures from consensus ones.

use vstd::prelude::*;
use crate::script::ScriptError;

verus! {

/// Why a block or transaction violates consensus.
#[derive(Clone, Copy, PartialEq, Eq, Structural, Debug)]
pub enum InvalidKind {
    /// A block with no transactions, or a transaction with no inputs
    /// or no outputs.
    BadStructure,
    /// The header hash does not meet the target its bits claim.
    BadPow,
    /// The header's target bits are negative, zero or out of range.
    BadTarget,
    /// The header time is not past the median of its predecessors.
    BadTimestamp,
    /// The merkle root does not match the transactions.
    BadMerkle,
    /// The first transaction is not a coinbase, or a later one is.
    BadCoinbase,
    /// The coinbase script does not commit to the height where it must.
    BadHeightCommitment,
    /// A transaction spends the same outpoint twice.
    DuplicateInput,
    /// A spent outpoint is not in the UTXO set.
    MissingUtxo,
    /// A coinbase output spent before it matured.
    CoinbaseImmaturity,
    /// An output value or sum outside the money range.
    ValueOutOfRange,
    /// Outputs exceed inputs on a non-coinbase transaction.
    FeeNegative,
    /// A script failed validation.
    BadScript(ScriptError),
    /// Signature-operation count over the limit.
    SigopLimit,
    /// Block weight over the limit.
    WeightLimit,
    /// The coinbase claims more than subsidy plus fees.
    OverSubsidy,
    /// A created output already exists unspent.
    DuplicateUtxo,
    /// A transaction is not final at this height.
    NonFinal,
    /// Witness data present without a coinbase witness commitment.
    MissingWitnessCommitment,
    /// The witness commitment does not match the witness transaction ids.
    BadWitnessCommitment,
}

/// A block's verdict.
#[derive(Clone, Copy, PartialEq, Eq, Structural, Debug)]
pub enum Verdict {
    Valid,
    Invalid(InvalidKind),
}

/// A structural failure: the unit is skipped, not judged.
#[derive(Clone, Copy, PartialEq, Eq, Structural, Debug)]
pub enum StreamError {
    /// A truncated or ill-framed block, transaction or chunk frame.
    Malformed,
}

} // verus!
