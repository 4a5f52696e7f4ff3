use vstd::prelude::*;

verus! {

/// One unit of an amount is 1/10000 of the input's decimal unit, so a parsed
/// amount of `2.5` is held as `25000`.
pub const AMOUNT_SCALE: i64 = 10000;

/// The five operations the ledger understands.
#[derive(Clone, Copy, Debug, PartialEq, Eq, Structural)]
pub enum TxKind {
    Deposit,
    Withdrawal,
    Dispute,
    Resolve,
    Chargeback,
}

/// One parsed transaction record. `amount` is in fixed-point units
/// (see [`AMOUNT_SCALE`]) and is meaningful only for deposits and
/// withdrawals; the parser leaves it 0 for the other kinds.
#[derive(Clone, Copy, Debug, PartialEq, Eq, Structural)]
pub struct Tx {
    pub kind: TxKind,
    pub client: u64,
    pub tx_id: u64,
    pub amount: i64,
}

/// One client's balances. `available + held` is the client's total;
/// a locked client accepts no further deposits or withdrawals.
#[derive(Clone, Copy, Debug, PartialEq, Eq, Structural)]
pub struct Balance {
    pub client: u64,
    pub available: i64,
    pub held: i64,
    pub locked: bool,
}

impl Balance {
    /// A fresh, unlocked balance with no funds.
    pub fn new(client: u64) -> (b: Balance)
        ensures
            b == (Balance { client, available: 0, held: 0, locked: false }),
    {
        Balance { client, available: 0, held: 0, locked: false }
    }
}

} // verus!
