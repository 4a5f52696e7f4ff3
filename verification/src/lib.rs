//! A small payments ledger: deposits, withdrawals, disputes, resolves and
//! chargebacks are applied per client to a running balance table.
//!
//! Amounts are fixed-point decimals held in `i64` units of 1/10000, so the
//! whole state machine is exact integer arithmetic. The line parser, the
//! ledger state machine and the sequential pipeline are verified; the
//! concurrent driver around them lives outside this crate.

pub mod laws;
pub mod ledger;
pub mod parse;
pub mod pipeline;
pub mod tx;

pub use ledger::Ledger;
pub use ledger::LedgerView;
pub use ledger::Outcome;
pub use ledger::SnapshotRow;
pub use parse::tx_from_line;
pub use parse::ParseError;
pub use pipeline::process_txs;
pub use pipeline::run;
pub use pipeline::shard_index;
pub use tx::Balance;
pub use tx::AMOUNT_SCALE;
pub use tx::Tx;
pub use tx::TxKind;
