//! Transaction records: the events that the engine applies.

use crate::amount::Amount;
use crate::error::{ParsingError, TransactionProcessingError};
use vstd::prelude::*;
use vstd::string::StringExecFns;

verus! {

pub type ClientId = u16;

pub type TxId = u32;

/// What a transaction asks for.
#[derive(Debug, Clone, Copy, PartialEq, Eq, Structural)]
pub enum TransactionType {
    Deposit,
    Withdrawal,
    Dispute,
    Resolve,
    Chargeback,
}

/// One input event. Deposits and withdrawals carry an amount; disputes,
/// resolutions and chargebacks name an earlier transaction by its id.
#[derive(Debug, Clone, Copy, PartialEq, Eq, Structural)]
pub struct Transaction {
    pub type_: TransactionType,
    pub client: ClientId,
    pub tx: TxId,
    pub amount: Option<Amount>,
}

/// The kind that a lower-case name stands for, if any. Names are case-sensitive.
pub open spec fn kind_of_name(name: Seq<char>) -> Option<TransactionType> {
    if name == "deposit"@ {
        Some(TransactionType::Deposit)
    } else if name == "withdrawal"@ {
        Some(TransactionType::Withdrawal)
    } else if name == "dispute"@ {
        Some(TransactionType::Dispute)
    } else if name == "resolve"@ {
        Some(TransactionType::Resolve)
    } else if name == "chargeback"@ {
        Some(TransactionType::Chargeback)
    } else {
        None
    }
}

fn same_text(a: &str, b: &str) -> (r: bool)
    ensures
        r == (a@ == b@),
{
    String::from_str(a) == String::from_str(b)
}

impl TransactionType {
    /// Reads a transaction kind from its name.
    pub fn try_from(value: &str) -> (r: Result<TransactionType, ParsingError>)
        ensures
            match kind_of_name(value@) {
                Some(kind) => r == Ok::<TransactionType, ParsingError>(kind),
                None => r is Err,
            },
    {
        if same_text(value, "deposit") {
            Ok(TransactionType::Deposit)
        } else if same_text(value, "withdrawal") {
            Ok(TransactionType::Withdrawal)
        } else if same_text(value, "dispute") {
            Ok(TransactionType::Dispute)
        } else if same_text(value, "resolve") {
            Ok(TransactionType::Resolve)
        } else if same_text(value, "chargeback") {
            Ok(TransactionType::Chargeback)
        } else {
            Err(ParsingError())
        }
    }

    /// The capitalised name of the kind.
    pub open spec fn name(self) -> Seq<char> {
        match self {
            TransactionType::Deposit => "Deposit"@,
            TransactionType::Withdrawal => "Withdrawal"@,
            TransactionType::Dispute => "Dispute"@,
            TransactionType::Resolve => "Resolve"@,
            TransactionType::Chargeback => "Chargeback"@,
        }
    }

    /// The capitalised name of the kind, as a string.
    pub fn to_string(&self) -> (s: String)
        ensures
            s@ == self.name(),
    {
        match self {
            TransactionType::Deposit => String::from_str("Deposit"),
            TransactionType::Withdrawal => String::from_str("Withdrawal"),
            TransactionType::Dispute => String::from_str("Dispute"),
            TransactionType::Resolve => String::from_str("Resolve"),
            TransactionType::Chargeback => String::from_str("Chargeback"),
        }
    }
}

impl Transaction {
    /// The check that a dispute, resolution or chargeback makes of the
    /// transaction it names: that one must be a deposit of the same client.
    pub open spec fn dispute_check(self, dispute: Transaction) -> Result<
        (),
        TransactionProcessingError,
    > {
        if self.type_ != TransactionType::Deposit {
            Err(TransactionProcessingError::DisputingWrongTransactionType)
        } else if self.client != dispute.client {
            Err(TransactionProcessingError::ClientDoesNotMatch)
        } else {
            Ok(())
        }
    }

    /// Whether `dispute` may act on this transaction.
    pub fn can_be_disputed_by(&self, dispute: &Transaction) -> (r: Result<
        (),
        TransactionProcessingError,
    >)
        ensures
            r == self.dispute_check(*dispute),
    {
        if self.type_ != TransactionType::Deposit {
            return Err(TransactionProcessingError::DisputingWrongTransactionType);
        }
        if self.client != dispute.client {
            return Err(TransactionProcessingError::ClientDoesNotMatch);
        }
        Ok(())
    }
}

} // verus!
