use vstd::prelude::*;

use crate::ledger::inv;
use crate::ledger::spec_dispute;
use crate::ledger::spec_step;
use crate::ledger::LedgerView;
use crate::pipeline::spec_steps;
use crate::tx::Tx;
use crate::tx::TxKind;

verus! {

/// No step of the state machine breaks the ledger invariant: every stored
/// balance keeps naming its own client, and only applied transaction ids
/// are ever under dispute.
pub proof fn lemma_step_preserves_inv(l: LedgerView, t: Tx)
    requires
        inv(l),
    ensures
        inv(spec_step(l, t)),
{
}

/// Every ledger reachable from the empty one satisfies the invariant.
pub proof fn lemma_steps_preserve_inv(l: LedgerView, txs: Seq<Tx>)
    requires
        inv(l),
    ensures
        inv(spec_steps(l, txs)),
    decreases txs.len(),
{
    if txs.len() > 0 {
        lemma_step_preserves_inv(l, txs[0]);
        lemma_steps_preserve_inv(spec_step(l, txs[0]), txs.drop_first());
    }
}

/// A transaction id can be disputed at most once without an intervening
/// resolve: while the id is under dispute, a further dispute of it leaves
/// the ledger exactly as it was, whichever client names it.
pub proof fn lemma_dispute_at_most_once(l: LedgerView, client: u64, tx_id: u64)
    requires
        l.disputed.contains(tx_id),
    ensures
        spec_dispute(l, client, tx_id) == l,
{
}

/// A locked client never has `available` or `held` changed by a later
/// deposit or withdrawal: such a record leaves the whole ledger unchanged.
pub proof fn lemma_locked_client_unchanged(l: LedgerView, t: Tx)
    requires
        l.balances.contains_key(t.client),
        l.balances[t.client].locked,
        t.kind == TxKind::Deposit || t.kind == TxKind::Withdrawal,
    ensures
        spec_step(l, t) == l,
{
}

/// Applying the same deposit or withdrawal twice has the same ledger effect
/// as applying it once: either the first application recorded the
/// transaction id, which makes the second a duplicate, or the first was
/// itself a no-op.
pub proof fn lemma_replay_idempotent(l: LedgerView, t: Tx)
    requires
        t.kind == TxKind::Deposit || t.kind == TxKind::Withdrawal,
    ensures
        spec_step(spec_step(l, t), t) == spec_step(l, t),
{
}

/// Records of two different clients that name two different transaction ids
/// commute: applied in either order they reach the same ledger. A fixed
/// client's final balances are therefore invariant under reordering other
/// clients' interleaved records, as long as no record reaches across to
/// another client's transaction id.
#[verifier::rlimit(60)]
pub proof fn lemma_distinct_records_commute(l: LedgerView, a: Tx, b: Tx)
    requires
        a.client != b.client,
        a.tx_id != b.tx_id,
    ensures
        spec_step(spec_step(l, a), b) == spec_step(spec_step(l, b), a),
{
    assert(spec_step(spec_step(l, a), b) =~= spec_step(spec_step(l, b), a));
}

/// Splitting a batch: applying `s + t` is applying `s`, then `t`.
pub proof fn lemma_steps_append(l: LedgerView, s: Seq<Tx>, t: Seq<Tx>)
    ensures
        spec_steps(l, s + t) == spec_steps(spec_steps(l, s), t),
    decreases s.len(),
{
    if s.len() == 0 {
        assert(s + t =~= t);
    } else {
        assert((s + t)[0] == s[0]);
        assert((s + t).drop_first() =~= s.drop_first() + t);
        lemma_steps_append(spec_step(l, s[0]), s.drop_first(), t);
    }
}

/// The batch-level reading of commutation: swapping two adjacent records of
/// different clients and different transaction ids, anywhere in a batch,
/// does not change the final ledger. A fixed client's records keep their
/// relative order under such swaps, so its final balances are invariant
/// under any reordering of other clients' interleaved records.
pub proof fn lemma_steps_swap_adjacent(l: LedgerView, s1: Seq<Tx>, a: Tx, b: Tx, s2: Seq<Tx>)
    requires
        a.client != b.client,
        a.tx_id != b.tx_id,
    ensures
        spec_steps(l, s1 + seq![a, b] + s2) == spec_steps(l, s1 + seq![b, a] + s2),
{
    let mid = spec_steps(l, s1);
    reveal_with_fuel(spec_steps, 3);
    lemma_steps_append(l, s1, seq![a, b]);
    lemma_steps_append(l, s1, seq![b, a]);
    assert(seq![a, b].drop_first() =~= seq![b]);
    assert(seq![b].drop_first() =~= Seq::<Tx>::empty());
    assert(seq![b, a].drop_first() =~= seq![a]);
    assert(seq![a].drop_first() =~= Seq::<Tx>::empty());
    assert(spec_steps(mid, seq![a, b]) == spec_step(spec_step(mid, a), b));
    assert(spec_steps(mid, seq![b, a]) == spec_step(spec_step(mid, b), a));
    lemma_distinct_records_commute(mid, a, b);
    lemma_steps_append(l, s1 + seq![a, b], s2);
    lemma_steps_append(l, s1 + seq![b, a], s2);
}

} // verus!
