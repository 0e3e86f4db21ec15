use wonderful_pe::amount::Amount;
use wonderful_pe::error::{ParsingError, TransactionProcessingError};
use wonderful_pe::transaction::{Transaction, TransactionType};

fn record(type_: TransactionType, client: u16, tx: u32, amount: Option<&str>) -> Transaction {
    Transaction { type_, client, tx, amount: amount.map(|a| Amount::try_from(a).unwrap()) }
}

#[test]
fn kind_names_are_read() {
    assert_eq!(TransactionType::try_from("deposit"), Ok(TransactionType::Deposit));
    assert_eq!(TransactionType::try_from("withdrawal"), Ok(TransactionType::Withdrawal));
    assert_eq!(TransactionType::try_from("dispute"), Ok(TransactionType::Dispute));
    assert_eq!(TransactionType::try_from("resolve"), Ok(TransactionType::Resolve));
    assert_eq!(TransactionType::try_from("chargeback"), Ok(TransactionType::Chargeback));
}

#[test]
fn unknown_kind_names_are_rejected() {
    assert_eq!(TransactionType::try_from("Deposit"), Err(ParsingError()));
    assert_eq!(TransactionType::try_from("deposit "), Err(ParsingError()));
    assert_eq!(TransactionType::try_from(""), Err(ParsingError()));
    assert_eq!(TransactionType::try_from("refund"), Err(ParsingError()));
}

#[test]
fn kind_names_are_written() {
    assert_eq!(TransactionType::Deposit.to_string(), "Deposit");
    assert_eq!(TransactionType::Withdrawal.to_string(), "Withdrawal");
    assert_eq!(TransactionType::Dispute.to_string(), "Dispute");
    assert_eq!(TransactionType::Resolve.to_string(), "Resolve");
    assert_eq!(TransactionType::Chargeback.to_string(), "Chargeback");
}

#[test]
fn deposit_of_same_client_can_be_disputed() {
    let deposit = record(TransactionType::Deposit, 1, 1, Some("1.0"));
    let dispute = record(TransactionType::Dispute, 1, 1, None);
    assert_eq!(deposit.can_be_disputed_by(&dispute), Ok(()));
}

#[test]
fn withdrawal_cannot_be_disputed() {
    let withdrawal = record(TransactionType::Withdrawal, 1, 1, Some("1.0"));
    let dispute = record(TransactionType::Dispute, 1, 1, None);
    assert_eq!(
        withdrawal.can_be_disputed_by(&dispute),
        Err(TransactionProcessingError::DisputingWrongTransactionType)
    );
}

#[test]
fn other_client_cannot_dispute() {
    let deposit = record(TransactionType::Deposit, 1, 1, Some("1.0"));
    let dispute = record(TransactionType::Dispute, 2, 1, None);
    assert_eq!(
        deposit.can_be_disputed_by(&dispute),
        Err(TransactionProcessingError::ClientDoesNotMatch)
    );
}

#[test]
fn wrong_kind_is_reported_before_wrong_client() {
    let withdrawal = record(TransactionType::Withdrawal, 1, 1, Some("1.0"));
    let dispute = record(TransactionType::Dispute, 2, 1, None);
    assert_eq!(
        withdrawal.can_be_disputed_by(&dispute),
        Err(TransactionProcessingError::DisputingWrongTransactionType)
    );
}

#[test]
fn error_messages() {
    assert_eq!(ParsingError().message(), "Could not parse string");
    assert_eq!(TransactionProcessingError::Duplicated.message(), "Duplicated. Tx already known");
    assert_eq!(
        TransactionProcessingError::TargetAccountLocked.message(),
        "Target account is locked"
    );
    assert_eq!(
        TransactionProcessingError::NotEnoughAvailable.message(),
        "Available money is less than withdraw amount"
    );
    assert_eq!(
        TransactionProcessingError::NotEnoughHeld.message(),
        "Held money is less than expected"
    );
    assert_eq!(
        TransactionProcessingError::NotEnoughTotal.message(),
        "Total money is less than expected"
    );
    assert_eq!(
        TransactionProcessingError::MissingTargetTransaction.message(),
        "Target transaction does not exist"
    );
    assert_eq!(
        TransactionProcessingError::AlreadyDisputed.message(),
        "Transaction already disputed"
    );
    assert_eq!(
        TransactionProcessingError::DisputingWrongTransactionType.message(),
        "Can only dispute Deposit transactions"
    );
    assert_eq!(
        TransactionProcessingError::MissingTransactionAmount.message(),
        "Missing transaction amount"
    );
    assert_eq!(TransactionProcessingError::ClientDoesNotMatch.message(), "Client does not match");
    assert_eq!(
        TransactionProcessingError::NotDisputed.message(),
        "Transaction is not being disputed"
    );
}
