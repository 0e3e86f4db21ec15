//! The two error taxonomies: malformed text, and rejected transactions.

use vstd::prelude::*;
use vstd::string::StringExecFns;

verus! {

/// A text that is neither a decimal amount nor a transaction kind.
#[derive(Debug, Clone, Copy, PartialEq, Eq, Structural)]
pub struct ParsingError();

/// Why the engine rejected a transaction. A rejected transaction changes no
/// balance and no ledger entry.
#[derive(Debug, Clone, Copy, PartialEq, Eq, Structural)]
pub enum TransactionProcessingError {
    Duplicated,
    TargetAccountLocked,
    NotEnoughAvailable,
    NotEnoughHeld,
    NotEnoughTotal,
    MissingTargetTransaction,
    AlreadyDisputed,
    DisputingWrongTransactionType,
    MissingTransactionAmount,
    ClientDoesNotMatch,
    NotDisputed,
}

impl ParsingError {
    /// The message shown for a parsing error.
    pub open spec fn message_text(self) -> Seq<char> {
        "Could not parse string"@
    }

    pub fn message(&self) -> (s: String)
        ensures
            s@ == self.message_text(),
    {
        String::from_str("Could not parse string")
    }
}

impl TransactionProcessingError {
    /// The message shown for each rejection reason.
    pub open spec fn message_text(self) -> Seq<char> {
        match self {
            TransactionProcessingError::Duplicated => "Duplicated. Tx already known"@,
            TransactionProcessingError::TargetAccountLocked => "Target account is locked"@,
            TransactionProcessingError::NotEnoughAvailable => "Available money is less than withdraw amount"@,
            TransactionProcessingError::NotEnoughHeld => "Held money is less than expected"@,
            TransactionProcessingError::NotEnoughTotal => "Total money is less than expected"@,
            TransactionProcessingError::MissingTargetTransaction => "Target transaction does not exist"@,
            TransactionProcessingError::AlreadyDisputed => "Transaction already disputed"@,
            TransactionProcessingError::DisputingWrongTransactionType => "Can only dispute Deposit transactions"@,
            TransactionProcessingError::MissingTransactionAmount => "Missing transaction amount"@,
            TransactionProcessingError::ClientDoesNotMatch => "Client does not match"@,
            TransactionProcessingError::NotDisputed => "Transaction is not being disputed"@,
        }
    }

    pub fn message(&self) -> (s: String)
        ensures
            s@ == self.message_text(),
    {
        match self {
            TransactionProcessingError::Duplicated => String::from_str("Duplicated. Tx already known"),
            TransactionProcessingError::TargetAccountLocked => String::from_str("Target account is locked"),
            TransactionProcessingError::NotEnoughAvailable => String::from_str("Available money is less than withdraw amount"),
            TransactionProcessingError::NotEnoughHeld => String::from_str("Held money is less than expected"),
            TransactionProcessingError::NotEnoughTotal => String::from_str("Total money is less than expected"),
            TransactionProcessingError::MissingTargetTransaction => String::from_str("Target transaction does not exist"),
            TransactionProcessingError::AlreadyDisputed => String::from_str("Transaction already disputed"),
            TransactionProcessingError::DisputingWrongTransactionType => String::from_str("Can only dispute Deposit transactions"),
            TransactionProcessingError::MissingTransactionAmount => String::from_str("Missing transaction amount"),
            TransactionProcessingError::ClientDoesNotMatch => String::from_str("Client does not match"),
            TransactionProcessingError::NotDisputed => String::from_str("Transaction is not being disputed"),
        }
    }
}

} // verus!
