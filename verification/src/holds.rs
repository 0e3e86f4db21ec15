//! Held funds: what a client has on hold is the amount of its deposits under
//! dispute, so a dispute can always be settled.

use crate::engine::{lemma_step_keeps_inv, DisputeStatus, EngineState, TransactionRecord};
use crate::error::TransactionProcessingError;
use crate::transaction::{ClientId, Transaction, TransactionType, TxId};
use vstd::prelude::*;

verus! {

/// What a ledger entry holds back from `client`: its amount while it is
/// under dispute and belongs to the client, nothing otherwise.
pub open spec fn held_by(record: TransactionRecord, client: ClientId) -> nat {
    if record.dispute_status == DisputeStatus::Disputed && record.transaction.client == client {
        record.amount()@
    } else {
        0
    }
}

/// What the entries of a ledger with an id below `bound` hold back from
/// `client`.
pub open spec fn held_below(
    history: Map<TxId, TransactionRecord>,
    client: ClientId,
    bound: nat,
) -> nat
    decreases bound,
{
    if bound == 0 {
        0
    } else {
        let tx = (bound - 1) as TxId;
        held_below(history, client, (bound - 1) as nat) + if history.contains_key(tx) {
            held_by(history[tx], client)
        } else {
            0
        }
    }
}

/// The number of transaction ids.
pub open spec fn id_count() -> nat {
    0x1_0000_0000
}

/// Every client's held funds are the amounts of its deposits under dispute.
pub open spec fn holds_match(s: EngineState) -> bool {
    forall|c: ClientId| #[trigger] s.balance_of(c).held@ == held_below(s.history, c, id_count())
}

/// Entries of other clients, and entries not under dispute, hold nothing back.
proof fn lemma_nothing_held(s: EngineState, client: ClientId, bound: nat)
    requires
        bound <= id_count(),
        forall|x: TxId| #[trigger]
            s.history.contains_key(x) ==> held_by(s.history[x], client) == 0,
    ensures
        held_below(s.history, client, bound) == 0,
    decreases bound,
{
    if bound > 0 {
        lemma_nothing_held(s, client, (bound - 1) as nat);
    }
}

/// Writing one ledger entry changes what is held back by the difference
/// between what the new entry and the old one hold back.
proof fn lemma_held_after_write(
    s: EngineState,
    n: EngineState,
    tx: TxId,
    client: ClientId,
    bound: nat,
)
    requires
        bound <= id_count(),
        n.history == s.history.insert(tx, n.history[tx]),
    ensures
        held_below(n.history, client, bound) + (if tx < bound && s.history.contains_key(tx) {
            held_by(s.history[tx], client)
        } else {
            0
        }) == held_below(s.history, client, bound) + (if tx < bound {
            held_by(n.history[tx], client)
        } else {
            0
        }),
    decreases bound,
{
    if bound > 0 {
        lemma_held_after_write(s, n, tx, client, (bound - 1) as nat);
        let x = (bound - 1) as TxId;
        if x != tx {
            assert(n.history.contains_key(x) == s.history.contains_key(x));
            if s.history.contains_key(x) {
                assert(n.history[x] == s.history[x]);
            }
        }
    }
}

/// What is held back in all is at least what one entry holds back.
proof fn lemma_held_covers_entry(s: EngineState, tx: TxId, client: ClientId, bound: nat)
    requires
        bound <= id_count(),
        tx < bound,
        s.history.contains_key(tx),
    ensures
        held_below(s.history, client, bound) >= held_by(s.history[tx], client),
    decreases bound,
{
    if bound - 1 > tx {
        lemma_held_covers_entry(s, tx, client, (bound - 1) as nat);
    }
}

/// Before any transaction nothing is held.
pub proof fn lemma_initial_holds_match()
    ensures
        holds_match(EngineState::initial()),
{
    let s = EngineState::initial();
    assert forall|c: ClientId| #[trigger] s.balance_of(c).held@ == held_below(s.history, c, id_count()) by {
        lemma_nothing_held(s, c, id_count());
    }
}

/// Giving a client its row keeps the held funds matching.
pub proof fn lemma_row_keeps_holds(s: EngineState, client: ClientId)
    requires
        holds_match(s),
    ensures
        holds_match(s.with_row(client)),
{
    let n = s.with_row(client);
    assert forall|c: ClientId| #[trigger] n.balance_of(c).held@ == held_below(
        n.history,
        c,
        id_count(),
    ) by {
        assert(n.balance_of(c) == s.balance_of(c));
        assert(s.balance_of(c).held@ == held_below(s.history, c, id_count()));
    }
}

/// Every transaction that fits keeps the held funds of every client equal
/// to the amounts of its deposits under dispute.
pub proof fn lemma_step_keeps_holds(s: EngineState, t: Transaction)
    requires
        s.inv(),
        holds_match(s),
        s.fits(t),
    ensures
        holds_match(s.step(t)),
{
    let n = s.step(t);
    if s.rejection(t) is Some {
        if s.reaches_row(t) {
            lemma_row_keeps_holds(s, t.client);
        }
    } else {
        assert(n.history == s.history.insert(t.tx, n.history[t.tx]));
        assert forall|c: ClientId| #[trigger] n.balance_of(c).held@ == held_below(
            n.history,
            c,
            id_count(),
        ) by {
            lemma_held_after_write(s, n, t.tx, c, id_count());
            assert(s.balance_of(c).held@ == held_below(s.history, c, id_count()));
            if s.history.contains_key(t.tx) {
                lemma_held_covers_entry(s, t.tx, c, id_count());
            }
            if c != t.client {
                assert(n.balance_of(c) == s.balance_of(c));
            }
        }
    }
}

/// In a state that transactions have led to, a resolution or chargeback of
/// a transaction under dispute, by its client, is accepted: the held funds
/// cover it.
pub proof fn lemma_dispute_can_be_settled(s: EngineState, t: Transaction)
    requires
        s.inv(),
        holds_match(s),
        t.type_ == TransactionType::Resolve || t.type_ == TransactionType::Chargeback,
        s.history.contains_key(t.tx),
        s.history[t.tx].dispute_status == DisputeStatus::Disputed,
        s.history[t.tx].transaction.client == t.client,
    ensures
        s.rejection(t) is None,
{
    lemma_held_covers_entry(s, t.tx, t.client, id_count());
    assert(s.balance_of(t.client).held@ == held_below(s.history, t.client, id_count()));
}

/// In a state that transactions have led to, nothing is rejected for want
/// of held funds.
pub proof fn lemma_held_funds_suffice(s: EngineState, t: Transaction)
    requires
        s.inv(),
        holds_match(s),
    ensures
        s.rejection(t) != Some(TransactionProcessingError::NotEnoughHeld),
{
    if (t.type_ == TransactionType::Resolve || t.type_ == TransactionType::Chargeback)
        && s.history.contains_key(t.tx) && s.history[t.tx].dispute_status
        == DisputeStatus::Disputed && s.history[t.tx].transaction.client == t.client {
        lemma_dispute_can_be_settled(s, t);
    }
}

/// Every state that transactions lead to from a state where the held funds
/// match keeps them matching, so `NotEnoughHeld` never comes up in it.
pub proof fn lemma_run_keeps_holds(s: EngineState, records: Seq<Transaction>)
    requires
        s.inv(),
        holds_match(s),
        s.run_fits(records),
    ensures
        s.run(records).inv(),
        holds_match(s.run(records)),
    decreases records.len(),
{
    if records.len() > 0 {
        lemma_run_keeps_holds(s, records.drop_last());
        lemma_step_keeps_inv(s.run(records.drop_last()), records.last());
        lemma_step_keeps_holds(s.run(records.drop_last()), records.last());
    }
}

} // verus!
