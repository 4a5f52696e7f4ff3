use vstd::prelude::*;

use std::collections::HashMap;
use std::collections::HashSet;

use crate::tx::Balance;
use crate::tx::Tx;
use crate::tx::TxKind;

verus! {

/// The mathematical state of the ledger: one balance per known client, the
/// signed amount each successfully applied deposit (+) or withdrawal (-)
/// moved, and the set of transaction ids currently under dispute.
#[verifier::ext_equal]
pub ghost struct LedgerView {
    pub balances: Map<u64, Balance>,
    pub applied: Map<u64, i64>,
    pub disputed: Set<u64>,
}

impl LedgerView {
    /// The state before any transaction has been applied.
    pub open spec fn empty() -> LedgerView {
        LedgerView {
            balances: Map::empty(),
            applied: Map::empty(),
            disputed: Set::empty(),
        }
    }
}

/// Every stored balance names its own client, and only applied transactions
/// can be under dispute.
pub open spec fn inv(l: LedgerView) -> bool {
    &&& forall|c: u64| l.balances.contains_key(c) ==> (#[trigger] l.balances[c]).client == c
    &&& forall|t: u64| l.disputed.contains(t) ==> l.applied.contains_key(t)
}

/// Whether a mathematical integer is representable as an `i64`.
pub open spec fn fits_i64(x: int) -> bool {
    i64::MIN <= x <= i64::MAX
}

/// The balance a handler works against: the stored one, or a fresh zero
/// balance for a client not seen before.
pub open spec fn balance_or_new(l: LedgerView, client: u64) -> Balance {
    if l.balances.contains_key(client) {
        l.balances[client]
    } else {
        Balance { client, available: 0, held: 0, locked: false }
    }
}

/// Why a record was applied or discarded. The pipeline discards the reason;
/// it is reported so that a caller can see which rule fired.
#[derive(Clone, Copy, Debug, PartialEq, Eq, Structural)]
pub enum Outcome {
    /// The record changed the ledger.
    Applied,
    /// A deposit or withdrawal reused an already applied transaction id.
    DuplicateTx,
    /// The record names a client the ledger does not know.
    UnknownClient,
    /// The client is locked.
    Locked,
    /// A withdrawal asked for more than the client has available.
    InsufficientFunds,
    /// A dispute, resolve or chargeback names a transaction id that was
    /// never applied.
    UnknownTx,
    /// A resolve or chargeback names a transaction id not under dispute.
    NotDisputed,
    /// A dispute names a transaction id already under dispute.
    AlreadyDisputed,
    /// Applying the record would move a balance outside the `i64` range.
    OutOfRange,
}

// --- deposit ---

pub open spec fn spec_deposit_outcome(l: LedgerView, client: u64, tx_id: u64, amount: i64) -> Outcome {
    let b = balance_or_new(l, client);
    if l.applied.contains_key(tx_id) {
        Outcome::DuplicateTx
    } else if b.locked {
        Outcome::Locked
    } else if !fits_i64(b.available + amount) {
        Outcome::OutOfRange
    } else {
        Outcome::Applied
    }
}

/// Deposit: create the client if absent, add `amount` to its available
/// funds, and record the signed amount under `tx_id`. Discarded (state
/// unchanged) on a duplicate transaction id, a locked client, or a sum
/// that `i64` cannot hold.
pub open spec fn spec_deposit(l: LedgerView, client: u64, tx_id: u64, amount: i64) -> LedgerView {
    if spec_deposit_outcome(l, client, tx_id, amount) != Outcome::Applied {
        l
    } else {
        let b = balance_or_new(l, client);
        LedgerView {
            balances: l.balances.insert(
                client,
                Balance {
                    client: b.client,
                    available: (b.available + amount) as i64,
                    held: b.held,
                    locked: b.locked,
                },
            ),
            applied: l.applied.insert(tx_id, amount),
            disputed: l.disputed,
        }
    }
}

// --- withdrawal ---

pub open spec fn spec_withdraw_outcome(l: LedgerView, client: u64, tx_id: u64, amount: i64) -> Outcome {
    if l.applied.contains_key(tx_id) {
        Outcome::DuplicateTx
    } else if !l.balances.contains_key(client) {
        Outcome::UnknownClient
    } else if l.balances[client].locked {
        Outcome::Locked
    } else if l.balances[client].available < amount {
        Outcome::InsufficientFunds
    } else if !fits_i64(l.balances[client].available - amount) || !fits_i64(0 - amount) {
        Outcome::OutOfRange
    } else {
        Outcome::Applied
    }
}

/// Withdrawal: subtract `amount` from the client's available funds and
/// record `-amount` under `tx_id`. Discarded on a duplicate transaction id,
/// an unknown client (no client is created), a locked client, or
/// insufficient available funds.
pub open spec fn spec_withdraw(l: LedgerView, client: u64, tx_id: u64, amount: i64) -> LedgerView {
    if spec_withdraw_outcome(l, client, tx_id, amount) != Outcome::Applied {
        l
    } else {
        let b = l.balances[client];
        LedgerView {
            balances: l.balances.insert(
                client,
                Balance {
                    client: b.client,
                    available: (b.available - amount) as i64,
                    held: b.held,
                    locked: b.locked,
                },
            ),
            applied: l.applied.insert(tx_id, (0 - amount) as i64),
            disputed: l.disputed,
        }
    }
}

// --- dispute ---

pub open spec fn spec_dispute_outcome(l: LedgerView, client: u64, tx_id: u64) -> Outcome {
    if !l.balances.contains_key(client) {
        Outcome::UnknownClient
    } else if !l.applied.contains_key(tx_id) {
        Outcome::UnknownTx
    } else if l.balances[client].locked {
        Outcome::Locked
    } else if l.disputed.contains(tx_id) {
        Outcome::AlreadyDisputed
    } else if !fits_i64(l.balances[client].available - l.applied[tx_id]) || !fits_i64(
        l.balances[client].held + l.applied[tx_id],
    ) {
        Outcome::OutOfRange
    } else {
        Outcome::Applied
    }
}

/// Dispute: move the originally applied signed amount of `tx_id` from the
/// client's available funds into held, and mark `tx_id` as under dispute.
/// For a disputed withdrawal the amount is negative, so held decreases and
/// available increases. Discarded on an unknown client, an unapplied
/// transaction id, a locked client, or an id already under dispute.
pub open spec fn spec_dispute(l: LedgerView, client: u64, tx_id: u64) -> LedgerView {
    if spec_dispute_outcome(l, client, tx_id) != Outcome::Applied {
        l
    } else {
        let b = l.balances[client];
        let amt = l.applied[tx_id];
        LedgerView {
            balances: l.balances.insert(
                client,
                Balance {
                    client: b.client,
                    available: (b.available - amt) as i64,
                    held: (b.held + amt) as i64,
                    locked: b.locked,
                },
            ),
            applied: l.applied,
            disputed: l.disputed.insert(tx_id),
        }
    }
}

// --- resolve ---

pub open spec fn spec_resolve_outcome(l: LedgerView, client: u64, tx_id: u64) -> Outcome {
    if !l.disputed.contains(tx_id) {
        Outcome::NotDisputed
    } else if !l.balances.contains_key(client) {
        Outcome::UnknownClient
    } else if !l.applied.contains_key(tx_id) {
        Outcome::UnknownTx
    } else if !fits_i64(l.balances[client].available + l.applied[tx_id]) || !fits_i64(
        l.balances[client].held - l.applied[tx_id],
    ) {
        Outcome::OutOfRange
    } else {
        Outcome::Applied
    }
}

/// Resolve: undo the hold of a dispute, moving the signed amount of `tx_id`
/// back from held into available, and take `tx_id` out of dispute.
/// Discarded when `tx_id` is not under dispute or the client is unknown.
pub open spec fn spec_resolve(l: LedgerView, client: u64, tx_id: u64) -> LedgerView {
    if spec_resolve_outcome(l, client, tx_id) != Outcome::Applied {
        l
    } else {
        let b = l.balances[client];
        let amt = l.applied[tx_id];
        LedgerView {
            balances: l.balances.insert(
                client,
                Balance {
                    client: b.client,
                    available: (b.available + amt) as i64,
                    held: (b.held - amt) as i64,
                    locked: b.locked,
                },
            ),
            applied: l.applied,
            disputed: l.disputed.remove(tx_id),
        }
    }
}

// --- chargeback ---

pub open spec fn spec_chargeback_outcome(l: LedgerView, client: u64, tx_id: u64) -> Outcome {
    if !l.disputed.contains(tx_id) {
        Outcome::NotDisputed
    } else if !l.balances.contains_key(client) {
        Outcome::UnknownClient
    } else if !l.applied.contains_key(tx_id) {
        Outcome::UnknownTx
    } else if !fits_i64(l.balances[client].held - l.applied[tx_id]) {
        Outcome::OutOfRange
    } else {
        Outcome::Applied
    }
}

/// Chargeback: permanently remove the disputed signed amount of `tx_id`
/// from the client's held funds and lock the client. Available funds are
/// untouched and `tx_id` stays under dispute. Discarded when `tx_id` is not
/// under dispute or the client is unknown.
pub open spec fn spec_chargeback(l: LedgerView, client: u64, tx_id: u64) -> LedgerView {
    if spec_chargeback_outcome(l, client, tx_id) != Outcome::Applied {
        l
    } else {
        let b = l.balances[client];
        let amt = l.applied[tx_id];
        LedgerView {
            balances: l.balances.insert(
                client,
                Balance {
                    client: b.client,
                    available: b.available,
                    held: (b.held - amt) as i64,
                    locked: true,
                },
            ),
            applied: l.applied,
            disputed: l.disputed,
        }
    }
}

// --- one step of the state machine ---

/// What one record does to the ledger, routed by its kind.
pub open spec fn spec_step(l: LedgerView, t: Tx) -> LedgerView {
    match t.kind {
        TxKind::Deposit => spec_deposit(l, t.client, t.tx_id, t.amount),
        TxKind::Withdrawal => spec_withdraw(l, t.client, t.tx_id, t.amount),
        TxKind::Dispute => spec_dispute(l, t.client, t.tx_id),
        TxKind::Resolve => spec_resolve(l, t.client, t.tx_id),
        TxKind::Chargeback => spec_chargeback(l, t.client, t.tx_id),
    }
}

pub open spec fn spec_step_outcome(l: LedgerView, t: Tx) -> Outcome {
    match t.kind {
        TxKind::Deposit => spec_deposit_outcome(l, t.client, t.tx_id, t.amount),
        TxKind::Withdrawal => spec_withdraw_outcome(l, t.client, t.tx_id, t.amount),
        TxKind::Dispute => spec_dispute_outcome(l, t.client, t.tx_id),
        TxKind::Resolve => spec_resolve_outcome(l, t.client, t.tx_id),
        TxKind::Chargeback => spec_chargeback_outcome(l, t.client, t.tx_id),
    }
}

/// One line of the final report. `total` is wider than the two balances so
/// that their sum is always representable.
#[derive(Clone, Copy, Debug, PartialEq, Eq, Structural)]
pub struct SnapshotRow {
    pub client: u64,
    pub available: i64,
    pub held: i64,
    pub total: i128,
    pub locked: bool,
}

pub struct Ledger {
    clients: Vec<u64>,
    balances: HashMap<u64, Balance>,
    applied: HashMap<u64, i64>,
    disputed: HashSet<u64>,
}

impl View for Ledger {
    type V = LedgerView;

    closed spec fn view(&self) -> LedgerView {
        LedgerView { balances: self.balances@, applied: self.applied@, disputed: self.disputed@ }
    }
}

impl Ledger {
    /// The representation matches the model: the invariant of [`inv`] holds,
    /// and `clients` lists each known client exactly once.
    pub closed spec fn wf(&self) -> bool {
        &&& inv(self@)
        &&& self.clients@.no_duplicates()
        &&& forall|c: u64| self.balances@.contains_key(c) <==> self.clients@.contains(c)
    }

    pub fn new() -> (l: Ledger)
        ensures
            l.wf(),
            l@ == LedgerView::empty(),
    {
        let l = Ledger {
            clients: Vec::new(),
            balances: HashMap::new(),
            applied: HashMap::new(),
            disputed: HashSet::new(),
        };
        proof {
            assert(l@ =~= LedgerView::empty());
        }
        l
    }

    /// The stored balance of `client`, if the ledger knows it.
    pub fn balance_of(&self, client: u64) -> (r: Option<Balance>)
        ensures
            r == if self@.balances.contains_key(client) {
                Some(self@.balances[client])
            } else {
                None::<Balance>
            },
    {
        match self.balances.get(&client) {
            Some(b) => Some(*b),
            None => None,
        }
    }

    /// The signed amount recorded for `tx_id`, if a deposit or withdrawal
    /// with that id was applied.
    pub fn applied_amount(&self, tx_id: u64) -> (r: Option<i64>)
        ensures
            r == if self@.applied.contains_key(tx_id) {
                Some(self@.applied[tx_id])
            } else {
                None::<i64>
            },
    {
        match self.applied.get(&tx_id) {
            Some(a) => Some(*a),
            None => None,
        }
    }

    /// Whether `tx_id` is currently under dispute.
    pub fn is_disputed(&self, tx_id: u64) -> (r: bool)
        ensures
            r == self@.disputed.contains(tx_id),
    {
        self.disputed.contains(&tx_id)
    }

    /// Apply a deposit of `tx.amount` for `tx.client`; see [`spec_deposit`].
    pub fn deposit(&mut self, tx: &Tx) -> (r: Outcome)
        requires
            old(self).wf(),
            0 <= tx.amount,
        ensures
            final(self).wf(),
            final(self)@ == spec_deposit(old(self)@, tx.client, tx.tx_id, tx.amount),
            r == spec_deposit_outcome(old(self)@, tx.client, tx.tx_id, tx.amount),
    {
        if self.applied.contains_key(&tx.tx_id) {
            return Outcome::DuplicateTx;
        }
        let is_new = !self.balances.contains_key(&tx.client);
        let b = match self.balances.get(&tx.client) {
            Some(b) => *b,
            None => Balance::new(tx.client),
        };
        if b.locked {
            return Outcome::Locked;
        }
        let sum: i128 = b.available as i128 + tx.amount as i128;
        if sum > i64::MAX as i128 {
            return Outcome::OutOfRange;
        }
        if is_new {
            self.clients.push(tx.client);
        }
        self.balances.insert(
            tx.client,
            Balance { client: b.client, available: sum as i64, held: b.held, locked: b.locked },
        );
        self.applied.insert(tx.tx_id, tx.amount);
        proof {
            broadcast use vstd::seq_lib::lemma_seq_contains_after_push;

            assert(self@ =~= spec_deposit(old(self)@, tx.client, tx.tx_id, tx.amount));
            if is_new {
                assert(self.clients@.no_duplicates()) by {
                    let s = old(self).clients@;
                    assert forall|i: int, j: int|
                        0 <= i < s.push(tx.client).len() && 0 <= j < s.push(tx.client).len() && i
                            != j implies s.push(tx.client)[i] != s.push(tx.client)[j] by {
                        if i < s.len() && j < s.len() {
                            assert(s[i] == s.push(tx.client)[i] && s[j] == s.push(tx.client)[j]);
                        } else if i == s.len() {
                            assert(s.contains(s[j]));
                        } else {
                            assert(s.contains(s[i]));
                        }
                    }
                }
            }
        }
        Outcome::Applied
    }

    /// Apply a withdrawal of `tx.amount` for `tx.client`; see
    /// [`spec_withdraw`].
    pub fn withdraw(&mut self, tx: &Tx) -> (r: Outcome)
        requires
            old(self).wf(),
            0 <= tx.amount,
        ensures
            final(self).wf(),
            final(self)@ == spec_withdraw(old(self)@, tx.client, tx.tx_id, tx.amount),
            r == spec_withdraw_outcome(old(self)@, tx.client, tx.tx_id, tx.amount),
    {
        if self.applied.contains_key(&tx.tx_id) {
            return Outcome::DuplicateTx;
        }
        let b = match self.balances.get(&tx.client) {
            Some(b) => *b,
            None => {
                return Outcome::UnknownClient;
            },
        };
        if b.locked {
            return Outcome::Locked;
        }
        if b.available < tx.amount {
            return Outcome::InsufficientFunds;
        }
        self.balances.insert(
            tx.client,
            Balance {
                client: b.client,
                available: b.available - tx.amount,
                held: b.held,
                locked: b.locked,
            },
        );
        self.applied.insert(tx.tx_id, -tx.amount);
        proof {
            assert(self@ =~= spec_withdraw(old(self)@, tx.client, tx.tx_id, tx.amount));
        }
        Outcome::Applied
    }

    /// Put `tx.tx_id` under dispute for `tx.client`; see [`spec_dispute`].
    pub fn dispute(&mut self, tx: &Tx) -> (r: Outcome)
        requires
            old(self).wf(),
        ensures
            final(self).wf(),
            final(self)@ == spec_dispute(old(self)@, tx.client, tx.tx_id),
            r == spec_dispute_outcome(old(self)@, tx.client, tx.tx_id),
    {
        let b = match self.balances.get(&tx.client) {
            Some(b) => *b,
            None => {
                return Outcome::UnknownClient;
            },
        };
        let amt = match self.applied.get(&tx.tx_id) {
            Some(a) => *a,
            None => {
                return Outcome::UnknownTx;
            },
        };
        if b.locked {
            return Outcome::Locked;
        }
        if self.disputed.contains(&tx.tx_id) {
            return Outcome::AlreadyDisputed;
        }
        let av: i128 = b.available as i128 - amt as i128;
        let hd: i128 = b.held as i128 + amt as i128;
        if av > i64::MAX as i128 || av < i64::MIN as i128 || hd > i64::MAX as i128 || hd
            < i64::MIN as i128 {
            return Outcome::OutOfRange;
        }
        self.disputed.insert(tx.tx_id);
        self.balances.insert(
            tx.client,
            Balance { client: b.client, available: av as i64, held: hd as i64, locked: b.locked },
        );
        proof {
            assert(self@ =~= spec_dispute(old(self)@, tx.client, tx.tx_id));
        }
        Outcome::Applied
    }

    /// Close the dispute of `tx.tx_id` in the client's favour; see
    /// [`spec_resolve`].
    pub fn resolve(&mut self, tx: &Tx) -> (r: Outcome)
        requires
            old(self).wf(),
        ensures
            final(self).wf(),
            final(self)@ == spec_resolve(old(self)@, tx.client, tx.tx_id),
            r == spec_resolve_outcome(old(self)@, tx.client, tx.tx_id),
    {
        if !self.disputed.contains(&tx.tx_id) {
            return Outcome::NotDisputed;
        }
        let b = match self.balances.get(&tx.client) {
            Some(b) => *b,
            None => {
                return Outcome::UnknownClient;
            },
        };
        let amt = match self.applied.get(&tx.tx_id) {
            Some(a) => *a,
            None => {
                return Outcome::UnknownTx;
            },
        };
        let av: i128 = b.available as i128 + amt as i128;
        let hd: i128 = b.held as i128 - amt as i128;
        if av > i64::MAX as i128 || av < i64::MIN as i128 || hd > i64::MAX as i128 || hd
            < i64::MIN as i128 {
            return Outcome::OutOfRange;
        }
        self.balances.insert(
            tx.client,
            Balance { client: b.client, available: av as i64, held: hd as i64, locked: b.locked },
        );
        self.disputed.remove(&tx.tx_id);
        proof {
            assert(self@ =~= spec_resolve(old(self)@, tx.client, tx.tx_id));
        }
        Outcome::Applied
    }

    /// Close the dispute of `tx.tx_id` against the client and lock the
    /// account; see [`spec_chargeback`].
    pub fn chargeback(&mut self, tx: &Tx) -> (r: Outcome)
        requires
            old(self).wf(),
        ensures
            final(self).wf(),
            final(self)@ == spec_chargeback(old(self)@, tx.client, tx.tx_id),
            r == spec_chargeback_outcome(old(self)@, tx.client, tx.tx_id),
    {
        if !self.disputed.contains(&tx.tx_id) {
            return Outcome::NotDisputed;
        }
        let b = match self.balances.get(&tx.client) {
            Some(b) => *b,
            None => {
                return Outcome::UnknownClient;
            },
        };
        let amt = match self.applied.get(&tx.tx_id) {
            Some(a) => *a,
            None => {
                return Outcome::UnknownTx;
            },
        };
        let hd: i128 = b.held as i128 - amt as i128;
        if hd > i64::MAX as i128 || hd < i64::MIN as i128 {
            return Outcome::OutOfRange;
        }
        self.balances.insert(
            tx.client,
            Balance { client: b.client, available: b.available, held: hd as i64, locked: true },
        );
        proof {
            assert(self@ =~= spec_chargeback(old(self)@, tx.client, tx.tx_id));
        }
        Outcome::Applied
    }

    /// The final report: one row per known client, in the order the clients
    /// were first seen. Every row's `total` is exactly `available + held`,
    /// computed in `i128` so that it is never truncated.
    pub fn snapshot(&self) -> (rows: Vec<SnapshotRow>)
        requires
            self.wf(),
        ensures
            forall|i: int|
                0 <= i < rows@.len() ==> {
                    let r = #[trigger] rows@[i];
                    &&& self@.balances.contains_key(r.client)
                    &&& r.available == self@.balances[r.client].available
                    &&& r.held == self@.balances[r.client].held
                    &&& r.locked == self@.balances[r.client].locked
                    &&& r.total == r.available + r.held
                },
            forall|c: u64|
                self@.balances.contains_key(c) ==> exists|i: int|
                    0 <= i < rows@.len() && (#[trigger] rows@[i]).client == c,
            forall|i: int, j: int|
                0 <= i < rows@.len() && 0 <= j < rows@.len() && i != j ==> rows@[i].client
                    != rows@[j].client,
    {
        let mut rows: Vec<SnapshotRow> = Vec::new();
        let n = self.clients.len();
        let mut idx: usize = 0;
        while idx < n
            invariant
                self.wf(),
                n == self.clients@.len(),
                idx <= n,
                rows@.len() == idx,
                forall|k: int|
                    0 <= k < idx ==> (#[trigger] rows@[k]).client == self.clients@[k],
                forall|k: int|
                    0 <= k < idx ==> {
                        let r = #[trigger] rows@[k];
                        &&& self@.balances.contains_key(r.client)
                        &&& r.available == self@.balances[r.client].available
                        &&& r.held == self@.balances[r.client].held
                        &&& r.locked == self@.balances[r.client].locked
                        &&& r.total == r.available + r.held
                    },
            decreases n - idx,
        {
            let c = self.clients[idx];
            proof {
                assert(self.clients@.contains(self.clients@[idx as int]));
            }
            let b = match self.balances.get(&c) {
                Some(b) => *b,
                None => Balance::new(c),
            };
            let total: i128 = b.available as i128 + b.held as i128;
            rows.push(
                SnapshotRow {
                    client: c,
                    available: b.available,
                    held: b.held,
                    total,
                    locked: b.locked,
                },
            );
            idx += 1;
        }
        proof {
            assert forall|c: u64| self@.balances.contains_key(c) implies exists|i: int|
                0 <= i < rows@.len() && (#[trigger] rows@[i]).client == c by {
                assert(self.clients@.contains(c));
                let i = choose|i: int| 0 <= i < self.clients@.len() && self.clients@[i] == c;
                assert(rows@[i].client == c);
            }
        }
        rows
    }

    /// Apply one record, routed by its kind; see [`spec_step`].
    pub fn apply(&mut self, tx: &Tx) -> (r: Outcome)
        requires
            old(self).wf(),
            0 <= tx.amount,
        ensures
            final(self).wf(),
            final(self)@ == spec_step(old(self)@, *tx),
            r == spec_step_outcome(old(self)@, *tx),
    {
        match tx.kind {
            TxKind::Deposit => self.deposit(tx),
            TxKind::Withdrawal => self.withdraw(tx),
            TxKind::Dispute => self.dispute(tx),
            TxKind::Resolve => self.resolve(tx),
            TxKind::Chargeback => self.chargeback(tx),
        }
    }
}

} // verus!
