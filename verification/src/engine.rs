//! The transaction processor: a ledger of applied deposits and withdrawals,
//! a table of client balances, and the rules that change them.

use crate::amount::Amount;
use crate::error::TransactionProcessingError;
use crate::holds::{
    holds_match, lemma_initial_holds_match, lemma_row_keeps_holds, lemma_step_keeps_holds,
};
use crate::transaction::{ClientId, Transaction, TransactionType, TxId};
use std::collections::HashMap;
use vstd::prelude::*;
use vstd::std_specs::hash::group_hash_axioms;

verus! {

broadcast use group_hash_axioms;

/// Where a recorded transaction stands in the dispute lifecycle:
/// `Undisputed`, then `Disputed`, then `Resolved` or `ChargedBack` for good.
#[derive(Debug, Clone, Copy, PartialEq, Eq, Structural)]
pub enum DisputeStatus {
    Undisputed,
    Disputed,
    Resolved,
    ChargedBack,
}

/// A deposit or withdrawal that was applied, with its dispute status.
#[derive(Debug, Clone, Copy, PartialEq, Eq, Structural)]
pub struct TransactionRecord {
    pub transaction: Transaction,
    pub dispute_status: DisputeStatus,
}

impl From<&Transaction> for TransactionRecord {
    /// The record of a transaction that was just applied: not disputed.
    fn from(t: &Transaction) -> (r: TransactionRecord) {
        TransactionRecord { transaction: *t, dispute_status: DisputeStatus::Undisputed }
    }
}

impl vstd::std_specs::convert::FromSpecImpl<&Transaction> for TransactionRecord {
    open spec fn obeys_from_spec() -> bool {
        true
    }

    open spec fn from_spec(t: &Transaction) -> TransactionRecord {
        TransactionRecord { transaction: *t, dispute_status: DisputeStatus::Undisputed }
    }
}

impl TransactionRecord {
    /// The amount of the recorded transaction.
    pub open spec fn amount(self) -> Amount {
        self.transaction.amount.unwrap()
    }

    /// The same record with another dispute status.
    pub open spec fn with_status(self, status: DisputeStatus) -> TransactionRecord {
        TransactionRecord { transaction: self.transaction, dispute_status: status }
    }
}

/// The funds of one client.
#[derive(Debug, Clone, Copy, PartialEq, Eq, Structural)]
pub struct ClientBalance {
    pub client: ClientId,
    pub available: Amount,
    pub held: Amount,
    pub total: Amount,
    pub locked: bool,
}

impl ClientBalance {
    /// The balance of a client that nothing has touched yet.
    pub open spec fn empty(client: ClientId) -> ClientBalance {
        ClientBalance {
            client,
            available: Amount(0),
            held: Amount(0),
            total: Amount(0),
            locked: false,
        }
    }

    /// The total is what is available plus what is held.
    pub open spec fn consistent(self) -> bool {
        self.total@ == self.available@ + self.held@
    }

    /// An unlocked balance with no funds.
    pub fn new(client: ClientId) -> (r: ClientBalance)
        ensures
            r == ClientBalance::empty(client),
    {
        ClientBalance {
            client,
            available: Amount(0),
            held: Amount(0),
            total: Amount(0),
            locked: false,
        }
    }
}

/// What an engine holds: the balance rows by client and the ledger by
/// transaction id.
pub struct EngineState {
    pub balances: Map<ClientId, ClientBalance>,
    pub history: Map<TxId, TransactionRecord>,
}

impl EngineState {
    /// The state before any transaction.
    pub open spec fn initial() -> EngineState {
        EngineState { balances: Map::empty(), history: Map::empty() }
    }

    /// The balance of a client; a client without a row has the empty balance.
    pub open spec fn balance_of(self, client: ClientId) -> ClientBalance {
        if self.balances.contains_key(client) {
            self.balances[client]
        } else {
            ClientBalance::empty(client)
        }
    }

    /// What holds of every state that transactions can lead to: each row is
    /// consistent and stands under its own client; each ledger entry stands
    /// under its own id, is a deposit or withdrawal with an amount, belongs
    /// to a client with a row, and has left `Undisputed` only if a deposit.
    pub open spec fn inv(self) -> bool {
        &&& forall|c: ClientId| #[trigger]
            self.balances.contains_key(c) ==> self.balances[c].consistent()
                && self.balances[c].client == c
        &&& forall|t: TxId| #[trigger]
            self.history.contains_key(t) ==> {
                let rec = self.history[t];
                &&& rec.transaction.tx == t
                &&& rec.transaction.amount is Some
                &&& (rec.transaction.type_ == TransactionType::Deposit || rec.transaction.type_
                    == TransactionType::Withdrawal)
                &&& (rec.dispute_status != DisputeStatus::Undisputed ==> rec.transaction.type_
                    == TransactionType::Deposit)
                &&& self.balances.contains_key(rec.transaction.client)
            }
    }

    /// Whether the sums of `t` fit the representation: asked only of a
    /// deposit that is accepted. Every other transaction fits, a deposit
    /// that is rejected too, since it adds nothing.
    pub open spec fn fits(self, t: Transaction) -> bool {
        t.type_ == TransactionType::Deposit && self.rejection(t) is None ==> self.balance_of(
            t.client,
        ).total@ + t.amount.unwrap()@ <= u64::MAX
    }

    /// Why `t` is rejected in this state, or `None` where it is accepted.
    /// The checks come in this order and the first that fails decides.
    pub open spec fn rejection(self, t: Transaction) -> Option<TransactionProcessingError> {
        let balance = self.balance_of(t.client);
        match t.type_ {
            TransactionType::Deposit => {
                if self.history.contains_key(t.tx) {
                    Some(TransactionProcessingError::Duplicated)
                } else if balance.locked {
                    Some(TransactionProcessingError::TargetAccountLocked)
                } else if t.amount is None {
                    Some(TransactionProcessingError::MissingTransactionAmount)
                } else {
                    None
                }
            },
            TransactionType::Withdrawal => {
                if self.history.contains_key(t.tx) {
                    Some(TransactionProcessingError::Duplicated)
                } else if balance.locked {
                    Some(TransactionProcessingError::TargetAccountLocked)
                } else if t.amount is None {
                    Some(TransactionProcessingError::MissingTransactionAmount)
                } else if balance.available@ < t.amount.unwrap()@ {
                    Some(TransactionProcessingError::NotEnoughAvailable)
                } else {
                    None
                }
            },
            TransactionType::Dispute => {
                if !self.history.contains_key(t.tx) {
                    Some(TransactionProcessingError::MissingTargetTransaction)
                } else if self.history[t.tx].dispute_status != DisputeStatus::Undisputed {
                    Some(TransactionProcessingError::AlreadyDisputed)
                } else if self.history[t.tx].transaction.dispute_check(t) is Err {
                    Some(self.history[t.tx].transaction.dispute_check(t)->Err_0)
                } else if balance.available@ < self.history[t.tx].amount()@ {
                    Some(TransactionProcessingError::NotEnoughAvailable)
                } else {
                    None
                }
            },
            TransactionType::Resolve => {
                if !self.history.contains_key(t.tx) {
                    Some(TransactionProcessingError::MissingTargetTransaction)
                } else if self.history[t.tx].dispute_status != DisputeStatus::Disputed {
                    Some(TransactionProcessingError::NotDisputed)
                } else if self.history[t.tx].transaction.dispute_check(t) is Err {
                    Some(self.history[t.tx].transaction.dispute_check(t)->Err_0)
                } else if balance.held@ < self.history[t.tx].amount()@ {
                    Some(TransactionProcessingError::NotEnoughHeld)
                } else {
                    None
                }
            },
            TransactionType::Chargeback => {
                if !self.history.contains_key(t.tx) {
                    Some(TransactionProcessingError::MissingTargetTransaction)
                } else if self.history[t.tx].dispute_status != DisputeStatus::Disputed {
                    Some(TransactionProcessingError::NotDisputed)
                } else if self.history[t.tx].transaction.dispute_check(t) is Err {
                    Some(self.history[t.tx].transaction.dispute_check(t)->Err_0)
                } else if balance.held@ < self.history[t.tx].amount()@ {
                    Some(TransactionProcessingError::NotEnoughHeld)
                } else if balance.total@ < self.history[t.tx].amount()@ {
                    Some(TransactionProcessingError::NotEnoughTotal)
                } else {
                    None
                }
            },
        }
    }

    /// The balance of `t`'s client once `t`, accepted in this state, is done.
    pub open spec fn balance_after(self, t: Transaction) -> ClientBalance {
        let b = self.balance_of(t.client);
        match t.type_ {
            TransactionType::Deposit => {
                let a = t.amount.unwrap()@;
                ClientBalance {
                    available: Amount((b.available@ + a) as u64),
                    total: Amount((b.total@ + a) as u64),
                    ..b
                }
            },
            TransactionType::Withdrawal => {
                let a = t.amount.unwrap()@;
                ClientBalance {
                    available: Amount((b.available@ - a) as u64),
                    total: Amount((b.total@ - a) as u64),
                    ..b
                }
            },
            TransactionType::Dispute => {
                let a = self.history[t.tx].amount()@;
                ClientBalance {
                    available: Amount((b.available@ - a) as u64),
                    held: Amount((b.held@ + a) as u64),
                    ..b
                }
            },
            TransactionType::Resolve => {
                let a = self.history[t.tx].amount()@;
                ClientBalance {
                    held: Amount((b.held@ - a) as u64),
                    available: Amount((b.available@ + a) as u64),
                    ..b
                }
            },
            TransactionType::Chargeback => {
                let a = self.history[t.tx].amount()@;
                ClientBalance {
                    held: Amount((b.held@ - a) as u64),
                    total: Amount((b.total@ - a) as u64),
                    locked: true,
                    ..b
                }
            },
        }
    }

    /// The ledger entry of `t`'s transaction id once `t`, accepted in this
    /// state, is done.
    pub open spec fn record_after(self, t: Transaction) -> TransactionRecord {
        match t.type_ {
            TransactionType::Deposit | TransactionType::Withdrawal => TransactionRecord {
                transaction: t,
                dispute_status: DisputeStatus::Undisputed,
            },
            TransactionType::Dispute => self.history[t.tx].with_status(DisputeStatus::Disputed),
            TransactionType::Resolve => self.history[t.tx].with_status(DisputeStatus::Resolved),
            TransactionType::Chargeback => self.history[t.tx].with_status(
                DisputeStatus::ChargedBack,
            ),
        }
    }

    /// The state once `t`, accepted in this state, is done: one balance row
    /// and one ledger entry are written, nothing else changes.
    pub open spec fn commit(self, t: Transaction) -> EngineState {
        EngineState {
            balances: self.balances.insert(t.client, self.balance_after(t)),
            history: self.history.insert(t.tx, self.record_after(t)),
        }
    }

    /// The state in which `client` has a row: the row it had, or an empty
    /// one where it had none. No balance changes by it.
    pub open spec fn with_row(self, client: ClientId) -> EngineState {
        EngineState {
            balances: self.balances.insert(client, self.balance_of(client)),
            history: self.history,
        }
    }

    /// Whether `t` gets as far as its client's row: a deposit or withdrawal
    /// does once its transaction id is found to be new.
    pub open spec fn reaches_row(self, t: Transaction) -> bool {
        (t.type_ == TransactionType::Deposit || t.type_ == TransactionType::Withdrawal)
            && !self.history.contains_key(t.tx)
    }

    /// The state after `t`: committed where accepted. Where rejected, no
    /// balance and no ledger entry changes; a deposit or withdrawal under a
    /// new id that is rejected still leaves its client with a row, an empty
    /// one where the client had none.
    pub open spec fn step(self, t: Transaction) -> EngineState {
        if self.rejection(t) is None {
            self.commit(t)
        } else if self.reaches_row(t) {
            self.with_row(t.client)
        } else {
            self
        }
    }

    /// What applying `t` reports.
    pub open spec fn outcome(self, t: Transaction) -> Result<(), TransactionProcessingError> {
        match self.rejection(t) {
            Some(e) => Err(e),
            None => Ok(()),
        }
    }

    /// The state after a sequence of transactions, applied in order.
    pub open spec fn run(self, records: Seq<Transaction>) -> EngineState
        decreases records.len(),
    {
        if records.len() == 0 {
            self
        } else {
            self.run(records.drop_last()).step(records.last())
        }
    }

    /// Whether each of `records`, applied in order, fits the state it meets.
    pub open spec fn run_fits(self, records: Seq<Transaction>) -> bool
        decreases records.len(),
    {
        records.len() > 0 ==> self.run_fits(records.drop_last()) && self.run(
            records.drop_last(),
        ).fits(records.last())
    }

    /// The balance rows of the clients below `bound`, by ascending client id.
    pub open spec fn rows_below(self, bound: nat) -> Seq<ClientBalance>
        decreases bound,
    {
        if bound == 0 {
            Seq::empty()
        } else {
            let client = (bound - 1) as ClientId;
            if self.balances.contains_key(client) {
                self.rows_below((bound - 1) as nat).push(self.balances[client])
            } else {
                self.rows_below((bound - 1) as nat)
            }
        }
    }

    /// The snapshot: one row for each client that has one, by ascending
    /// client id. A client has a row once a deposit or withdrawal under a
    /// new id has named it, accepted or not.
    pub open spec fn rows(self) -> Seq<ClientBalance> {
        self.rows_below(65536)
    }
}

/// Giving a client its row keeps a valid state valid, and changes the
/// state only where the client had no row.
pub proof fn lemma_row_keeps_inv(s: EngineState, client: ClientId)
    requires
        s.inv(),
    ensures
        s.with_row(client).inv(),
        forall|c: ClientId| s.with_row(client).balance_of(c) == s.balance_of(c),
        s.balances.contains_key(client) ==> s.with_row(client) == s,
{
    let n = s.with_row(client);
    assert forall|c: ClientId| #[trigger] n.balances.contains_key(c) implies n.balances[c].consistent()
        && n.balances[c].client == c by {
        if c != client {
            assert(s.balances.contains_key(c));
        }
    }
    assert forall|x: TxId| #[trigger] n.history.contains_key(x) implies n.balances.contains_key(
        n.history[x].transaction.client,
    ) by {
        assert(s.history.contains_key(x));
    }
    if s.balances.contains_key(client) {
        assert(n.balances =~= s.balances);
    }
}

/// Every transaction that fits leads from a valid state to a valid state:
/// in particular each balance keeps its total equal to available plus held.
pub proof fn lemma_step_keeps_inv(s: EngineState, t: Transaction)
    requires
        s.inv(),
        s.fits(t),
    ensures
        s.step(t).inv(),
{
    let n = s.step(t);
    if s.rejection(t) is Some {
        if s.reaches_row(t) {
            lemma_row_keeps_inv(s, t.client);
        }
    } else {
        assert(n.balances[t.client].consistent());
        assert forall|c: ClientId| #[trigger] n.balances.contains_key(c) implies n.balances[c].consistent()
            && n.balances[c].client == c by {
            if c != t.client {
                assert(s.balances.contains_key(c));
            }
        }
        assert forall|x: TxId| #[trigger] n.history.contains_key(x) implies ({
            let rec = n.history[x];
            &&& rec.transaction.tx == x
            &&& rec.transaction.amount is Some
            &&& (rec.transaction.type_ == TransactionType::Deposit || rec.transaction.type_
                == TransactionType::Withdrawal)
            &&& (rec.dispute_status != DisputeStatus::Undisputed ==> rec.transaction.type_
                == TransactionType::Deposit)
            &&& n.balances.contains_key(rec.transaction.client)
        }) by {
            if x != t.tx {
                assert(s.history.contains_key(x));
            }
        }
    }
}

/// The state before any transaction is valid.
pub proof fn lemma_initial_inv()
    ensures
        EngineState::initial().inv(),
{
}

/// Every state that a valid state reaches through transactions that fit is
/// valid: its balances have non-negative parts that add up to the total.
pub proof fn lemma_run_keeps_inv(s: EngineState, records: Seq<Transaction>)
    requires
        s.inv(),
        s.run_fits(records),
    ensures
        s.run(records).inv(),
        forall|c: ClientId| #[trigger]
            s.run(records).balances.contains_key(c) ==> {
                let b = s.run(records).balances[c];
                b.total@ == b.available@ + b.held@ && b.available@ >= 0 && b.held@ >= 0
            },
    decreases records.len(),
{
    if records.len() > 0 {
        lemma_run_keeps_inv(s, records.drop_last());
        lemma_step_keeps_inv(s.run(records.drop_last()), records.last());
    }
}

/// Two rejections never occur in a valid state: a resolution or chargeback
/// never meets a disputed transaction that is no deposit, and a chargeback
/// that the held funds cover is covered by the total as well.
pub proof fn lemma_rejections_ruled_out(s: EngineState, t: Transaction)
    requires
        s.inv(),
    ensures
        s.rejection(t) != Some(TransactionProcessingError::NotEnoughTotal),
        t.type_ == TransactionType::Resolve || t.type_ == TransactionType::Chargeback
            ==> s.rejection(t) != Some(
            TransactionProcessingError::DisputingWrongTransactionType,
        ),
{
}

/// Applying a deposit or withdrawal a second time changes nothing, and
/// where the first was accepted, any deposit or withdrawal that comes
/// under the same transaction id afterwards is rejected as `Duplicated`.
pub proof fn lemma_duplicate_is_rejected(s: EngineState, t: Transaction, again: Transaction)
    requires
        t.type_ == TransactionType::Deposit || t.type_ == TransactionType::Withdrawal,
        again.type_ == TransactionType::Deposit || again.type_ == TransactionType::Withdrawal,
        again.tx == t.tx,
    ensures
        s.step(t).step(t) == s.step(t),
        s.rejection(t) is None ==> s.step(t).rejection(again) == Some(
            TransactionProcessingError::Duplicated,
        ) && s.step(t).step(again) == s.step(t),
{
    let once = s.step(t);
    if s.rejection(t) is Some && s.reaches_row(t) {
        assert(once.balance_of(t.client) == s.balance_of(t.client));
        assert(once.rejection(t) == s.rejection(t));
        assert(once.step(t).balances =~= once.balances);
    }
}

/// Whatever is rejected changes no balance and no ledger entry: a client
/// without a row counts as having the empty balance.
pub proof fn lemma_rejection_changes_nothing(s: EngineState, t: Transaction)
    requires
        s.rejection(t) is Some,
    ensures
        s.step(t).history == s.history,
        forall|c: ClientId| s.step(t).balance_of(c) == s.balance_of(c),
        forall|c: ClientId| c != t.client ==> s.step(t).balances.contains_key(c) == s.balances.contains_key(c),
        !s.reaches_row(t) || s.balances.contains_key(t.client) ==> s.step(t) == s,
{
    if s.reaches_row(t) && s.balances.contains_key(t.client) {
        assert(s.step(t).balances =~= s.balances);
    }
}

/// A deposit that was just accepted can be disputed by its client.
pub proof fn lemma_deposit_can_be_disputed(s: EngineState, deposit: Transaction, dispute: Transaction)
    requires
        s.inv(),
        s.fits(deposit),
        deposit.type_ == TransactionType::Deposit,
        s.rejection(deposit) is None,
        dispute.type_ == TransactionType::Dispute,
        dispute.tx == deposit.tx,
        dispute.client == deposit.client,
    ensures
        s.step(deposit).history[deposit.tx].dispute_status == DisputeStatus::Undisputed,
        s.step(deposit).rejection(dispute) is None,
{
}

/// An accepted dispute marks its transaction `Disputed`; a resolution by
/// the same client is accepted right after it and marks it `Resolved`.
pub proof fn lemma_dispute_then_resolve(s: EngineState, dispute: Transaction, resolve: Transaction)
    requires
        s.inv(),
        dispute.type_ == TransactionType::Dispute,
        s.rejection(dispute) is None,
        resolve.type_ == TransactionType::Resolve,
        resolve.tx == dispute.tx,
        resolve.client == dispute.client,
    ensures
        s.step(dispute).history[dispute.tx].dispute_status == DisputeStatus::Disputed,
        s.step(dispute).rejection(resolve) is None,
        s.step(dispute).step(resolve).history[dispute.tx].dispute_status
            == DisputeStatus::Resolved,
{
}

/// An accepted dispute marks its transaction `Disputed`; a chargeback by
/// the same client is accepted right after it, marks it `ChargedBack` and
/// locks the client's account.
pub proof fn lemma_dispute_then_chargeback(
    s: EngineState,
    dispute: Transaction,
    chargeback: Transaction,
)
    requires
        s.inv(),
        dispute.type_ == TransactionType::Dispute,
        s.rejection(dispute) is None,
        chargeback.type_ == TransactionType::Chargeback,
        chargeback.tx == dispute.tx,
        chargeback.client == dispute.client,
    ensures
        s.step(dispute).history[dispute.tx].dispute_status == DisputeStatus::Disputed,
        s.step(dispute).rejection(chargeback) is None,
        s.step(dispute).step(chargeback).history[dispute.tx].dispute_status
            == DisputeStatus::ChargedBack,
        s.step(dispute).step(chargeback).balance_of(dispute.client).locked,
{
}

/// `Resolved` and `ChargedBack` are final: no transaction changes the
/// status of an entry that has reached one of them, and every dispute,
/// resolution or chargeback that names it is rejected.
pub proof fn lemma_settled_is_terminal(s: EngineState, tx: TxId, t: Transaction)
    requires
        s.history.contains_key(tx),
        s.history[tx].dispute_status == DisputeStatus::Resolved || s.history[tx].dispute_status
            == DisputeStatus::ChargedBack,
    ensures
        s.step(t).history.contains_key(tx),
        s.step(t).history[tx] == s.history[tx],
        t.tx == tx && t.type_ == TransactionType::Dispute ==> s.rejection(t) == Some(
            TransactionProcessingError::AlreadyDisputed,
        ),
        t.tx == tx && (t.type_ == TransactionType::Resolve || t.type_
            == TransactionType::Chargeback) ==> s.rejection(t) == Some(
            TransactionProcessingError::NotDisputed,
        ),
{
}

/// A dispute of a transaction that is under dispute already is rejected
/// as `AlreadyDisputed`, and nothing changes.
pub proof fn lemma_second_dispute_is_rejected(s: EngineState, t: Transaction)
    requires
        t.type_ == TransactionType::Dispute,
        s.history.contains_key(t.tx),
        s.history[t.tx].dispute_status == DisputeStatus::Disputed,
    ensures
        s.rejection(t) == Some(TransactionProcessingError::AlreadyDisputed),
        s.step(t) == s,
{
}

/// A resolution or chargeback of a recorded transaction that is not under
/// dispute is rejected as `NotDisputed`, and nothing changes.
pub proof fn lemma_settling_needs_a_dispute(s: EngineState, t: Transaction)
    requires
        t.type_ == TransactionType::Resolve || t.type_ == TransactionType::Chargeback,
        s.history.contains_key(t.tx),
        s.history[t.tx].dispute_status != DisputeStatus::Disputed,
    ensures
        s.rejection(t) == Some(TransactionProcessingError::NotDisputed),
        s.step(t) == s,
{
}

/// A locked account stays locked whatever is applied.
pub proof fn lemma_lock_stays(s: EngineState, client: ClientId, records: Seq<Transaction>)
    requires
        s.balance_of(client).locked,
    ensures
        s.run(records).balance_of(client).locked,
    decreases records.len(),
{
    if records.len() > 0 {
        lemma_lock_stays(s, client, records.drop_last());
    }
}

/// After an accepted chargeback, and whatever is applied after it, a
/// deposit or withdrawal of the same client under a new transaction id is
/// rejected as `TargetAccountLocked`, and nothing changes.
pub proof fn lemma_lock_freeze(
    s: EngineState,
    chargeback: Transaction,
    later: Seq<Transaction>,
    t: Transaction,
)
    requires
        chargeback.type_ == TransactionType::Chargeback,
        s.rejection(chargeback) is None,
        t.type_ == TransactionType::Deposit || t.type_ == TransactionType::Withdrawal,
        t.client == chargeback.client,
        !s.step(chargeback).run(later).history.contains_key(t.tx),
    ensures
        s.step(chargeback).run(later).rejection(t) == Some(
            TransactionProcessingError::TargetAccountLocked,
        ),
        s.step(chargeback).run(later).step(t) == s.step(chargeback).run(later),
{
    let after = s.step(chargeback).run(later);
    lemma_lock_stays(s.step(chargeback), t.client, later);
    assert(after.balances.contains_key(t.client));
    assert(after.step(t).balances =~= after.balances);
}

/// The payments engine.
#[derive(Debug, Clone)]
pub struct Engine {
    balances: HashMap<ClientId, ClientBalance>,
    transaction_history: HashMap<TxId, TransactionRecord>,
}

impl View for Engine {
    type V = EngineState;

    closed spec fn view(&self) -> EngineState {
        EngineState { balances: self.balances@, history: self.transaction_history@ }
    }
}

impl Default for Engine {
    fn default() -> (r: Engine)
        ensures
            r@ == EngineState::initial(),
            r.inv(),
    {
        Engine::new()
    }
}

impl Engine {
    /// Whether the engine is in a valid state: one that `EngineState::inv`
    /// holds of, and in which the held funds are those under dispute.
    pub open spec fn inv(&self) -> bool {
        self@.inv() && holds_match(self@)
    }

    /// An engine that has seen no transaction.
    pub fn new() -> (r: Engine)
        ensures
            r@ == EngineState::initial(),
            r.inv(),
    {
        proof {
            lemma_initial_holds_match();
        }
        Engine { balances: HashMap::new(), transaction_history: HashMap::new() }
    }

    /// The ledger entry of a transaction id.
    pub fn get_tx_record(&self, tx: TxId) -> (r: Result<
        &TransactionRecord,
        TransactionProcessingError,
    >)
        ensures
            match r {
                Ok(rec) => self@.history.contains_key(tx) && *rec == self@.history[tx],
                Err(e) => !self@.history.contains_key(tx) && e
                    == TransactionProcessingError::MissingTargetTransaction,
            },
    {
        match self.transaction_history.get(&tx) {
            Some(rec) => Ok(rec),
            None => Err(TransactionProcessingError::MissingTargetTransaction),
        }
    }

    /// Enters a transaction into the ledger, not disputed. The ledger never
    /// overwrites: the id must be new.
    fn record_transaction(&mut self, transaction: &Transaction)
        requires
            !old(self)@.history.contains_key(transaction.tx),
        ensures
            final(self)@.balances == old(self)@.balances,
            final(self)@.history == old(self)@.history.insert(
                transaction.tx,
                TransactionRecord {
                    transaction: *transaction,
                    dispute_status: DisputeStatus::Undisputed,
                },
            ),
    {
        self.transaction_history.insert(transaction.tx, TransactionRecord::from(transaction));
    }

    /// Sets the dispute status of a ledger entry. Whether the lifecycle
    /// allows the change is for the caller to see to.
    fn set_dispute_status(&mut self, tx: TxId, status: DisputeStatus)
        requires
            old(self)@.history.contains_key(tx),
        ensures
            final(self)@.balances == old(self)@.balances,
            final(self)@.history == old(self)@.history.insert(
                tx,
                old(self)@.history[tx].with_status(status),
            ),
    {
        let found = self.transaction_history.get(&tx);
        let rec = *found.unwrap();
        self.transaction_history.insert(
            tx,
            TransactionRecord { transaction: rec.transaction, dispute_status: status },
        );
    }

    /// The balance row of a client, if any transaction has made one.
    pub fn balance(&self, client: ClientId) -> (r: Option<ClientBalance>)
        ensures
            r is Some <==> self@.balances.contains_key(client),
            r is Some ==> r.unwrap() == self@.balances[client],
    {
        match self.balances.get(&client) {
            Some(b) => Some(*b),
            None => None,
        }
    }

    /// The balance that a deposit or withdrawal of `client` works on. The
    /// client gets its row first, an empty one where it had none; then a
    /// locked account is refused.
    pub fn get_or_create_balance_mut(&mut self, client: ClientId) -> (r: Result<
        ClientBalance,
        TransactionProcessingError,
    >)
        requires
            old(self).inv(),
        ensures
            final(self).inv(),
            final(self)@ == old(self)@.with_row(client),
            final(self)@.history == old(self)@.history,
            final(self)@.balances == old(self)@.balances.insert(
                client,
                old(self)@.balance_of(client),
            ),
            match r {
                Ok(b) => b == old(self)@.balance_of(client) && !b.locked,
                Err(e) => e == TransactionProcessingError::TargetAccountLocked && old(
                    self,
                )@.balance_of(client).locked,
            },
    {
        proof {
            lemma_row_keeps_inv(self@, client);
            lemma_row_keeps_holds(self@, client);
        }
        if self.balances.get(&client).is_none() {
            self.balances.insert(client, ClientBalance::new(client));
        }
        assert(self@.balances =~= old(self)@.with_row(client).balances);
        let b = *self.balances.get(&client).unwrap();
        if b.locked {
            return Err(TransactionProcessingError::TargetAccountLocked);
        }
        Ok(b)
    }

    /// Whether `transaction` fits: the one thing that `apply_transaction`
    /// asks of its caller beyond a valid engine. Only a deposit that is
    /// accepted and whose sum is too large does not fit.
    pub fn fits(&self, transaction: &Transaction) -> (r: bool)
        ensures
            r == self@.fits(*transaction),
    {
        match (transaction.type_, transaction.amount) {
            (TransactionType::Deposit, Some(amount)) => {
                if self.transaction_history.get(&transaction.tx).is_some() {
                    return true;
                }
                match self.balances.get(&transaction.client) {
                    Some(b) => b.locked || amount.0 <= u64::MAX - b.total.0,
                    None => true,
                }
            },
            _ => true,
        }
    }

    /// Applies one transaction: either it is accepted and committed whole,
    /// or it is rejected, with the reason, and no balance and no ledger
    /// entry changes.
    pub fn apply_transaction(&mut self, transaction: &Transaction) -> (r: Result<
        (),
        TransactionProcessingError,
    >)
        requires
            old(self).inv(),
            old(self)@.fits(*transaction),
        ensures
            final(self).inv(),
            r == old(self)@.outcome(*transaction),
            final(self)@ == old(self)@.step(*transaction),
    {
        proof {
            lemma_step_keeps_inv(self@, *transaction);
            lemma_step_keeps_holds(self@, *transaction);
        }
        let ghost before = self@;
        match transaction.type_ {
            TransactionType::Deposit => {
                if self.transaction_history.get(&transaction.tx).is_some() {
                    return Err(TransactionProcessingError::Duplicated);
                }
                let balance = match self.get_or_create_balance_mut(transaction.client) {
                    Ok(b) => b,
                    Err(e) => {
                        return Err(e);
                    },
                };
                let amount = match transaction.amount {
                    Some(a) => a,
                    None => {
                        return Err(TransactionProcessingError::MissingTransactionAmount);
                    },
                };
                let updated = ClientBalance {
                    client: balance.client,
                    available: balance.available + amount,
                    held: balance.held,
                    total: balance.total + amount,
                    locked: balance.locked,
                };
                self.balances.insert(transaction.client, updated);
                self.record_transaction(transaction);
            },
            TransactionType::Withdrawal => {
                if self.transaction_history.get(&transaction.tx).is_some() {
                    return Err(TransactionProcessingError::Duplicated);
                }
                let balance = match self.get_or_create_balance_mut(transaction.client) {
                    Ok(b) => b,
                    Err(e) => {
                        return Err(e);
                    },
                };
                let amount = match transaction.amount {
                    Some(a) => a,
                    None => {
                        return Err(TransactionProcessingError::MissingTransactionAmount);
                    },
                };
                let available = match balance.available.checked_sub(amount) {
                    Some(a) => a,
                    None => {
                        return Err(TransactionProcessingError::NotEnoughAvailable);
                    },
                };
                let total = balance.total.checked_sub(amount).unwrap();
                let updated = ClientBalance {
                    client: balance.client,
                    available,
                    held: balance.held,
                    total,
                    locked: balance.locked,
                };
                self.balances.insert(transaction.client, updated);
                self.record_transaction(transaction);
            },
            TransactionType::Dispute => {
                let record = match self.get_tx_record(transaction.tx) {
                    Ok(rec) => *rec,
                    Err(e) => {
                        return Err(e);
                    },
                };
                if record.dispute_status != DisputeStatus::Undisputed {
                    return Err(TransactionProcessingError::AlreadyDisputed);
                }
                match record.transaction.can_be_disputed_by(transaction) {
                    Ok(()) => {},
                    Err(e) => {
                        return Err(e);
                    },
                }
                let amount = record.transaction.amount.unwrap();
                let balance = self.balance(transaction.client).unwrap();
                let available = match balance.available.checked_sub(amount) {
                    Some(a) => a,
                    None => {
                        return Err(TransactionProcessingError::NotEnoughAvailable);
                    },
                };
                let updated = ClientBalance {
                    client: balance.client,
                    available,
                    held: balance.held + amount,
                    total: balance.total,
                    locked: balance.locked,
                };
                self.balances.insert(transaction.client, updated);
                self.set_dispute_status(transaction.tx, DisputeStatus::Disputed);
            },
            TransactionType::Resolve => {
                let record = match self.get_tx_record(transaction.tx) {
                    Ok(rec) => *rec,
                    Err(e) => {
                        return Err(e);
                    },
                };
                if record.dispute_status != DisputeStatus::Disputed {
                    return Err(TransactionProcessingError::NotDisputed);
                }
                match record.transaction.can_be_disputed_by(transaction) {
                    Ok(()) => {},
                    Err(e) => {
                        return Err(e);
                    },
                }
                let amount = record.transaction.amount.unwrap();
                let balance = self.balance(transaction.client).unwrap();
                let held = match balance.held.checked_sub(amount) {
                    Some(a) => a,
                    None => {
                        return Err(TransactionProcessingError::NotEnoughHeld);
                    },
                };
                let updated = ClientBalance {
                    client: balance.client,
                    available: balance.available + amount,
                    held,
                    total: balance.total,
                    locked: balance.locked,
                };
                self.balances.insert(transaction.client, updated);
                self.set_dispute_status(transaction.tx, DisputeStatus::Resolved);
            },
            TransactionType::Chargeback => {
                let record = match self.get_tx_record(transaction.tx) {
                    Ok(rec) => *rec,
                    Err(e) => {
                        return Err(e);
                    },
                };
                if record.dispute_status != DisputeStatus::Disputed {
                    return Err(TransactionProcessingError::NotDisputed);
                }
                match record.transaction.can_be_disputed_by(transaction) {
                    Ok(()) => {},
                    Err(e) => {
                        return Err(e);
                    },
                }
                let amount = record.transaction.amount.unwrap();
                let balance = self.balance(transaction.client).unwrap();
                let held = match balance.held.checked_sub(amount) {
                    Some(a) => a,
                    None => {
                        return Err(TransactionProcessingError::NotEnoughHeld);
                    },
                };
                let total = match balance.total.checked_sub(amount) {
                    Some(a) => a,
                    None => {
                        return Err(TransactionProcessingError::NotEnoughTotal);
                    },
                };
                let updated = ClientBalance {
                    client: balance.client,
                    available: balance.available,
                    held,
                    total,
                    locked: true,
                };
                self.balances.insert(transaction.client, updated);
                self.set_dispute_status(transaction.tx, DisputeStatus::ChargedBack);
            },
        }
        assert(self@.balances =~= before.step(*transaction).balances);
        assert(self@.history =~= before.step(*transaction).history);
        Ok(())
    }

    /// Applies `records` in order, going on after each rejection, and stops
    /// only before a deposit that does not fit. Returns how many were applied.
    pub fn apply_all(&mut self, records: &Vec<Transaction>) -> (n: usize)
        requires
            old(self).inv(),
        ensures
            final(self).inv(),
            n <= records@.len(),
            final(self)@ == old(self)@.run(records@.take(n as int)),
            old(self)@.run_fits(records@.take(n as int)),
            n < records@.len() ==> !final(self)@.fits(records@[n as int]),
    {
        let mut i: usize = 0;
        while i < records.len()
            invariant
                i <= records@.len(),
                self.inv(),
                self@ == old(self)@.run(records@.take(i as int)),
                old(self)@.run_fits(records@.take(i as int)),
            decreases records@.len() - i,
        {
            if !self.fits(&records[i]) {
                return i;
            }
            let _ = self.apply_transaction(&records[i]);
            proof {
                assert(records@.take(i + 1).drop_last() =~= records@.take(i as int));
            }
            i += 1;
        }
        i
    }

    /// The snapshot of the balance table.
    pub fn balances(&self) -> (rows: Vec<ClientBalance>)
        ensures
            rows@ == self@.rows(),
    {
        let mut rows: Vec<ClientBalance> = Vec::new();
        let mut next: u32 = 0;
        while next < 65536
            invariant
                next <= 65536,
                rows@ == self@.rows_below(next as nat),
            decreases 65536 - next,
        {
            let client: ClientId = next as ClientId;
            match self.balances.get(&client) {
                Some(b) => {
                    rows.push(*b);
                },
                None => {},
            }
            next += 1;
        }
        rows
    }
}

} // verus!
