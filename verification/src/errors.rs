//! Error taxonomy.
//!
//! Every failure aborts the whole operation: no public operation of this
//! library commits a partial state change together with an error.

use vstd::prelude::*;

verus! {

/// Why a batch text failed to decode.
#[derive(Clone, Copy, PartialEq, Eq, Structural, Debug)]
pub enum ParseError {
    /// The top level is not an array.
    NotAnArray,
    /// A batch element is not an object.
    PairNotAnObject,
    /// An object field other than the receipt address or the rewards list.
    UnknownField,
    /// The receipt address value is not a string.
    ReceiptNotAString,
    /// The rewards value is not an array of two-element arrays.
    RewardsNotAnArray,
    /// An order id is neither a number nor a numeric string, or overflows.
    BadOrderId,
    /// An order amount is not a string holding a well-formed decimal.
    BadAmount,
    /// An order amount is negative.
    NegativeAmount,
    /// A batch element without a non-empty receipt address.
    MissingReceipt,
    /// The text ended inside a structure or a literal.
    UnexpectedEnd,
    /// A character that no production allows at its position.
    UnexpectedChar,
    /// Text left over after the closing bracket of the batch.
    TrailingText,
}

/// Why a ledger operation failed.
#[derive(Clone, Copy, PartialEq, Eq, Structural, Debug)]
pub enum ClaimError {
    /// The submitted batch text failed to decode.
    Malformed(ParseError),
    /// A submitted reward amount is negative.
    NegativeAmount,
    /// A submitted token does not match the funds container, or an order
    /// operation names a token other than the designated order-reward token.
    TokenMismatch,
    /// A checked addition on a balance or a running total overflowed.
    LedgerOverflow,
    /// The supplied funds container holds less than the computed requirement.
    InsufficientFunds,
    /// A removal needs a custody vault that was never created.
    MissingVault,
    /// Custody holds less than the ledger promises: a desynchronization,
    /// reported distinctly from a caller's insufficient funds.
    CustodyShortfall,
    /// A presented credential does not come from the expected issuer.
    WrongCredential,
}

} // verus!
