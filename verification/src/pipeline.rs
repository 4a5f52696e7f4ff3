use vstd::prelude::*;

use crate::ledger::spec_step;
use crate::ledger::Ledger;
use crate::ledger::LedgerView;
use crate::parse::spec_parse;
use crate::parse::tx_from_line;
use crate::tx::Tx;

verus! {

/// The ledger after a whole sequence of records has been applied in order.
pub open spec fn spec_steps(l: LedgerView, txs: Seq<Tx>) -> LedgerView
    decreases txs.len(),
{
    if txs.len() == 0 {
        l
    } else {
        spec_steps(spec_step(l, txs[0]), txs.drop_first())
    }
}

/// Apply a batch of already parsed records, in order, to a fresh ledger.
pub fn process_txs(txs: &Vec<Tx>) -> (l: Ledger)
    requires
        forall|i: int| 0 <= i < txs@.len() ==> 0 <= (#[trigger] txs@[i]).amount,
    ensures
        l.wf(),
        l@ == spec_steps(LedgerView::empty(), txs@),
{
    let mut l = Ledger::new();
    let n = txs.len();
    let mut idx: usize = 0;
    proof {
        assert(txs@.skip(0) =~= txs@);
    }
    while idx < n
        invariant
            l.wf(),
            n == txs@.len(),
            idx <= n,
            forall|i: int| 0 <= i < txs@.len() ==> 0 <= (#[trigger] txs@[i]).amount,
            spec_steps(l@, txs@.skip(idx as int)) == spec_steps(LedgerView::empty(), txs@),
        decreases n - idx,
    {
        let ghost pre = l@;
        let t = txs[idx];
        l.apply(&t);
        proof {
            let rest = txs@.skip(idx as int);
            assert(rest[0] == txs@[idx as int]);
            assert(rest.drop_first() =~= txs@.skip(idx as int + 1));
            assert(spec_steps(pre, rest) == spec_steps(l@, txs@.skip(idx as int + 1)));
        }
        idx += 1;
    }
    proof {
        assert(txs@.skip(n as int) =~= Seq::<Tx>::empty());
    }
    l
}

/// The ledger after a whole run: each line is parsed, a line that parses is
/// applied in order, and a line that does not is skipped.
pub open spec fn spec_run(l: LedgerView, lines: Seq<Seq<u8>>) -> LedgerView
    decreases lines.len(),
{
    if lines.len() == 0 {
        l
    } else {
        let l2 = match spec_parse(lines[0]) {
            Ok(t) => spec_step(l, t),
            Err(_) => l,
        };
        spec_run(l2, lines.drop_first())
    }
}

/// Process a whole input: parse every line, skip the ones that fail, and
/// apply the rest in order to a fresh ledger. The header row must already
/// have been dropped by the caller.
pub fn run(lines: &Vec<Vec<u8>>) -> (l: Ledger)
    ensures
        l.wf(),
        l@ == spec_run(LedgerView::empty(), lines.deep_view()),
{
    let mut l = Ledger::new();
    let n = lines.len();
    let mut idx: usize = 0;
    proof {
        assert(lines.deep_view().skip(0) =~= lines.deep_view());
        assert(lines.deep_view().len() == n);
    }
    while idx < n
        invariant
            l.wf(),
            n == lines@.len(),
            n == lines.deep_view().len(),
            idx <= n,
            spec_run(l@, lines.deep_view().skip(idx as int)) == spec_run(
                LedgerView::empty(),
                lines.deep_view(),
            ),
        decreases n - idx,
    {
        let ghost pre = l@;
        let ghost dv = lines.deep_view();
        proof {
            assert(dv.skip(idx as int)[0] == dv[idx as int]);
            assert(dv[idx as int] =~= lines@[idx as int]@);
            assert(dv.skip(idx as int).drop_first() =~= dv.skip(idx as int + 1));
        }
        let line = &lines[idx];
        match tx_from_line(line.as_slice()) {
            Ok(t) => {
                l.apply(&t);
            },
            Err(_) => {},
        }
        proof {
            assert(spec_run(pre, dv.skip(idx as int)) == spec_run(l@, dv.skip(idx as int + 1)));
        }
        idx += 1;
    }
    proof {
        assert(lines.deep_view().skip(n as int) =~= Seq::<Seq<u8>>::empty());
    }
    l
}

/// Which of the 256 lock-table shards serves a client: the low eight bits of
/// the client id route it, so at most one shard ever sees a given client.
pub fn shard_index(client: u64) -> (s: u8)
    ensures
        s as int == client as int % 256,
{
    (client % 256) as u8
}

} // verus!
