//! The calls that a visitor receives, as a sequence of events, and what
//! they mean for the table of outputs.
//!
//! A visitor keeps a log of its calls. A walk states which events it adds
//! to that log, and that the table of outputs afterwards is the one that
//! the events give: every input takes the output that it spends out of the
//! table, and at the end of a transaction the items that the visitor
//! returned for its outputs enter the table.

use crate::hash;
use crate::transactions::{InputView, TransactionView};
use crate::visitors::Event;
use vstd::prelude::*;

verus! {

/// The table of outputs while events are replayed: the table, and the
/// items that the visitor returned for the outputs of the transaction that
/// is being visited.
pub struct Replay<T> {
    pub table: Map<(hash::Hash, nat), T>,
    pub pending: Seq<Option<T>>,
}

/// The state of a replay between two transactions.
pub open spec fn settled<T>(table: Map<(hash::Hash, nat), T>) -> Replay<T> {
    Replay { table, pending: Seq::empty() }
}

/// The table with the items of `items` that are there, each under `txid`
/// and its position.
pub open spec fn put_all<T>(
    table: Map<(hash::Hash, nat), T>,
    txid: hash::Hash,
    items: Seq<Option<T>>,
) -> Map<(hash::Hash, nat), T>
    decreases items.len(),
{
    if items.len() == 0 {
        table
    } else {
        let before = put_all(table, txid, items.drop_last());
        match items.last() {
            Some(item) => before.insert((txid, (items.len() - 1) as nat), item),
            None => before,
        }
    }
}

/// The output that the input `input` spends.
pub open spec fn spent_by(input: InputView) -> (hash::Hash, nat) {
    (input.prev_hash, input.prev_index as nat)
}

/// What one event does to the table: an input takes the output that it
/// spends out of it, an output adds what the visitor returned to the
/// pending items, and the end of a transaction puts the pending items into
/// the table under the hash of the transaction.
pub open spec fn replay_step<T>(s: Replay<T>, e: Event<T>) -> Replay<T> {
    match e {
        Event::Input { input, output_item } => Replay {
            table: s.table.remove(spent_by(input)),
            pending: s.pending,
        },
        Event::Output { output, item } => Replay { table: s.table, pending: s.pending.push(item) },
        Event::TransactionEnd { tx } => Replay {
            table: put_all(s.table, tx.txid, s.pending),
            pending: Seq::empty(),
        },
        _ => s,
    }
}

/// What the events `events` do to the table, one after the other.
#[verifier::opaque]
pub open spec fn replay<T>(s: Replay<T>, events: Seq<Event<T>>) -> Replay<T>
    decreases events.len(),
{
    if events.len() == 0 {
        s
    } else {
        replay_step(replay(s, events.drop_last()), events.last())
    }
}

/// One more event is replayed after the others.
pub proof fn lemma_replay_push<T>(s: Replay<T>, events: Seq<Event<T>>, e: Event<T>)
    ensures
        replay(s, events.push(e)) == replay_step(replay(s, events), e),
{
    reveal(replay);
    assert(events.push(e).drop_last() =~= events);
}

/// Two runs of events are replayed one after the other.
pub proof fn lemma_replay_concat<T>(s: Replay<T>, a: Seq<Event<T>>, b: Seq<Event<T>>)
    ensures
        replay(s, a + b) == replay(replay(s, a), b),
    decreases b.len(),
{
    reveal(replay);
    if b.len() == 0 {
        assert(a + b =~= a);
    } else {
        assert((a + b).drop_last() =~= a + b.drop_last());
        lemma_replay_concat(s, a, b.drop_last());
    }
}

/// Nothing is replayed where there are no events.
pub proof fn lemma_replay_empty<T>(s: Replay<T>)
    ensures
        replay(s, Seq::<Event<T>>::empty()) == s,
{
    reveal(replay);
}

/// The events that a visitor received since its log was `before`.
pub open spec fn new_events<T>(before: Seq<Event<T>>, after: Seq<Event<T>>) -> Seq<Event<T>> {
    after.skip(before.len() as int)
}

/// What `table` holds for the output `p`.
pub open spec fn lookup<T>(table: Map<(hash::Hash, nat), T>, p: (hash::Hash, nat)) -> Option<T> {
    if table.contains_key(p) {
        Some(table[p])
    } else {
        None
    }
}

/// The table without the outputs that the first `n` of `inputs` spend.
pub open spec fn spent<T>(
    table: Map<(hash::Hash, nat), T>,
    inputs: Seq<InputView>,
    n: nat,
) -> Map<(hash::Hash, nat), T>
    decreases n,
{
    if n == 0 {
        table
    } else {
        spent(table, inputs, (n - 1) as nat).remove(spent_by(inputs[n - 1]))
    }
}

/// The number of events of the transaction `tx`.
pub open spec fn tx_len(tx: TransactionView) -> nat {
    tx.inputs.len() + tx.outputs.len() + 2
}

/// Whether `seg` is the events of the transaction `tx`, visited with the
/// table `table`: the begin; for each input, in order, the input with what
/// the table then holds for the output that it spends; for each output,
/// in order, the output, with whatever the visitor returned; the end.
#[verifier::opaque]
pub open spec fn is_tx_events<T>(
    seg: Seq<Event<T>>,
    tx: TransactionView,
    table: Map<(hash::Hash, nat), T>,
) -> bool {
    &&& seg.len() == tx_len(tx)
    &&& seg[0] == Event::<T>::TransactionBegin
    &&& forall|j: int|
        0 <= j < tx.inputs.len() ==> #[trigger] seg[1 + j] == (Event::Input {
            input: tx.inputs[j],
            output_item: lookup(spent(table, tx.inputs, j as nat), spent_by(tx.inputs[j])),
        })
    &&& forall|k: int|
        0 <= k < tx.outputs.len() ==> (#[trigger] seg[1 + tx.inputs.len() + k]) is Output && seg[1
            + tx.inputs.len() + k]->output == tx.outputs[k]
    &&& seg[tx_len(tx) - 1] == (Event::<T>::TransactionEnd { tx })
}

/// The number of events of the transactions `txs`.
pub open spec fn txs_len(txs: Seq<TransactionView>) -> nat
    decreases txs.len(),
{
    if txs.len() == 0 {
        0
    } else {
        txs_len(txs.drop_last()) + tx_len(txs.last())
    }
}

/// Whether `seg` is the events of the transactions `txs`, visited one
/// after the other, the first with the table `table` and each other one
/// with the table that the events before it give.
#[verifier::opaque]
pub open spec fn is_txs_events<T>(
    seg: Seq<Event<T>>,
    txs: Seq<TransactionView>,
    table: Map<(hash::Hash, nat), T>,
) -> bool
    decreases txs.len(),
{
    if txs.len() == 0 {
        seg.len() == 0
    } else {
        let cut = seg.len() - tx_len(txs.last());
        &&& cut >= 0
        &&& is_txs_events(seg.take(cut), txs.drop_last(), table)
        &&& is_tx_events(seg.skip(cut), txs.last(), replay(settled(table), seg.take(cut)).table)
    }
}

/// Whether `seg` is the events of a block that is visited at height
/// `height` with the table `table` and has the transactions `txs`: the
/// begin of the block, the events of the transactions, the end of the block.
#[verifier::opaque]
pub open spec fn is_block_events<T>(
    seg: Seq<Event<T>>,
    block: Seq<u8>,
    height: u64,
    txs: Seq<TransactionView>,
    table: Map<(hash::Hash, nat), T>,
) -> bool {
    &&& seg.len() == txs_len(txs) + 2
    &&& seg[0] == (Event::<T>::BlockBegin { block, height })
    &&& is_txs_events(seg.subrange(1, seg.len() - 1), txs, table)
    &&& seg[seg.len() - 1] == (Event::<T>::BlockEnd { block, height })
}

/// The events of transactions are as many as their inputs and outputs
/// ask for.
pub proof fn lemma_txs_events_len<T>(
    seg: Seq<Event<T>>,
    txs: Seq<TransactionView>,
    table: Map<(hash::Hash, nat), T>,
)
    requires
        is_txs_events(seg, txs, table),
    ensures
        seg.len() == txs_len(txs),
    decreases txs.len(),
{
    reveal(is_txs_events);
    if txs.len() > 0 {
        let cut = seg.len() - tx_len(txs.last());
        lemma_txs_events_len(seg.take(cut), txs.drop_last(), table);
    }
}

/// The events of a transaction are two more than its inputs and outputs.
pub proof fn lemma_tx_events_len<T>(
    seg: Seq<Event<T>>,
    tx: TransactionView,
    table: Map<(hash::Hash, nat), T>,
)
    requires
        is_tx_events(seg, tx, table),
    ensures
        seg.len() == tx_len(tx),
{
    reveal(is_tx_events);
}

/// No events are the events of no transactions.
pub proof fn lemma_txs_events_empty<T>(table: Map<(hash::Hash, nat), T>)
    ensures
        is_txs_events(Seq::<Event<T>>::empty(), Seq::<TransactionView>::empty(), table),
{
    reveal(is_txs_events);
}

/// The events of a block are the two of the block and those of its
/// transactions.
pub proof fn lemma_block_events_len<T>(
    seg: Seq<Event<T>>,
    block: Seq<u8>,
    height: u64,
    txs: Seq<TransactionView>,
    table: Map<(hash::Hash, nat), T>,
)
    requires
        is_block_events(seg, block, height, txs, table),
    ensures
        seg.len() == txs_len(txs) + 2,
        seg[0] is BlockBegin,
        seg[seg.len() - 1] is BlockEnd,
{
    reveal(is_block_events);
}

/// The events of one more transaction behind those of others are the
/// events of all of them.
pub proof fn lemma_txs_events_push<T>(
    seg: Seq<Event<T>>,
    txs: Seq<TransactionView>,
    table: Map<(hash::Hash, nat), T>,
    more: Seq<Event<T>>,
    tx: TransactionView,
)
    requires
        is_txs_events(seg, txs, table),
        is_tx_events(more, tx, replay(settled(table), seg).table),
    ensures
        is_txs_events(seg + more, txs.push(tx), table),
{
    reveal(is_txs_events);
    lemma_tx_events_len(more, tx, replay(settled(table), seg).table);
    let all = seg + more;
    let cut = all.len() - tx_len(tx);
    assert(all.take(cut) =~= seg);
    assert(all.skip(cut) =~= more);
    assert(txs.push(tx).drop_last() =~= txs);
}

/// The begin and the end of a block do nothing to the table.
pub proof fn lemma_replay_block<T>(s: Replay<T>, seg: Seq<Event<T>>)
    requires
        seg.len() >= 2,
        seg[0] is BlockBegin,
        seg[seg.len() - 1] is BlockEnd,
    ensures
        replay(s, seg) == replay(s, seg.subrange(1, seg.len() - 1)),
{
    reveal(replay);
    let middle = seg.subrange(1, seg.len() - 1);
    let first = seq![seg[0]];
    assert(seg.drop_last() =~= first + middle);
    lemma_replay_concat(s, first, middle);
    assert(first.drop_last() =~= Seq::<Event<T>>::empty());
    assert(replay(s, first) == s) by {
        assert(first.last() is BlockBegin);
        assert(replay(s, first.drop_last()) == s);
    }
}

/// The blocks whose visit begins in `events`, each with its height, in
/// the order of the events.
pub open spec fn begun<T>(events: Seq<Event<T>>) -> Seq<(Seq<u8>, nat)>
    decreases events.len(),
{
    if events.len() == 0 {
        Seq::empty()
    } else {
        let before = begun(events.drop_last());
        match events.last() {
            Event::BlockBegin { block, height } => before.push((block, height as nat)),
            _ => before,
        }
    }
}

/// The blocks that begin in two runs of events are those of the first run
/// and those of the second.
pub proof fn lemma_begun_concat<T>(a: Seq<Event<T>>, b: Seq<Event<T>>)
    ensures
        begun(a + b) == begun(a) + begun(b),
    decreases b.len(),
{
    if b.len() == 0 {
        assert(a + b =~= a);
        assert(begun(a) + begun(b) =~= begun(a));
    } else {
        assert((a + b).drop_last() =~= a + b.drop_last());
        assert((a + b).last() == b.last());
        lemma_begun_concat(a, b.drop_last());
        match b.last() {
            Event::BlockBegin { block, height } => {
                assert(begun(a + b) =~= begun(a) + begun(b));
            },
            _ => {},
        }
    }
}

/// No block begins in events of which none is the begin of a block.
pub proof fn lemma_begun_none<T>(events: Seq<Event<T>>)
    requires
        forall|i: int| 0 <= i < events.len() ==> !((#[trigger] events[i]) is BlockBegin),
    ensures
        begun(events) == Seq::<(Seq<u8>, nat)>::empty(),
    decreases events.len(),
{
    if events.len() > 0 {
        assert(!(events[events.len() - 1] is BlockBegin));
        assert forall|i: int| 0 <= i < events.drop_last().len() implies !((
        #[trigger] events.drop_last()[i]) is BlockBegin) by {
            assert(events.drop_last()[i] == events[i]);
        }
        lemma_begun_none(events.drop_last());
    }
}

/// No block begins in the events of a transaction.
pub proof fn lemma_begun_tx<T>(
    seg: Seq<Event<T>>,
    tx: TransactionView,
    table: Map<(hash::Hash, nat), T>,
)
    requires
        is_tx_events(seg, tx, table),
    ensures
        begun(seg) == Seq::<(Seq<u8>, nat)>::empty(),
{
    reveal(is_tx_events);
    assert forall|i: int| 0 <= i < seg.len() implies !((#[trigger] seg[i]) is BlockBegin) by {
        let m = tx.inputs.len() as int;
        if i == 0 {
        } else if i < 1 + m {
            assert(seg[1 + (i - 1)] is Input);
        } else if i < seg.len() - 1 {
            assert(seg[1 + m + (i - 1 - m)] is Output);
        } else {
        }
    }
    lemma_begun_none(seg);
}

/// No block begins in the events of transactions.
pub proof fn lemma_begun_txs<T>(
    seg: Seq<Event<T>>,
    txs: Seq<TransactionView>,
    table: Map<(hash::Hash, nat), T>,
)
    requires
        is_txs_events(seg, txs, table),
    ensures
        begun(seg) == Seq::<(Seq<u8>, nat)>::empty(),
    decreases txs.len(),
{
    reveal(is_txs_events);
    if txs.len() == 0 {
        assert(seg =~= Seq::<Event<T>>::empty());
    } else {
        let cut = seg.len() - tx_len(txs.last());
        lemma_begun_txs(seg.take(cut), txs.drop_last(), table);
        lemma_begun_tx(seg.skip(cut), txs.last(), replay(settled(table), seg.take(cut)).table);
        lemma_begun_concat(seg.take(cut), seg.skip(cut));
        assert(seg.take(cut) + seg.skip(cut) =~= seg);
    }
}

/// One block begins in the events of a block: that block, at its height.
pub proof fn lemma_begun_block<T>(
    seg: Seq<Event<T>>,
    block: Seq<u8>,
    height: u64,
    txs: Seq<TransactionView>,
    table: Map<(hash::Hash, nat), T>,
)
    requires
        is_block_events(seg, block, height, txs, table),
    ensures
        begun(seg) == seq![(block, height as nat)],
{
    reveal(is_block_events);
    let first = seq![seg[0]];
    let middle = seg.subrange(1, seg.len() - 1);
    let last = seq![seg[seg.len() - 1]];
    assert(seg =~= first + middle + last);
    lemma_begun_txs(middle, txs, table);
    lemma_begun_concat(first + middle, last);
    lemma_begun_concat(first, middle);
    assert(first.drop_last() =~= Seq::<Event<T>>::empty());
    assert(last.drop_last() =~= Seq::<Event<T>>::empty());
    assert(begun(first) =~= seq![(block, height as nat)]) by {
        assert(begun(first.drop_last()) =~= Seq::<(Seq<u8>, nat)>::empty());
    }
    assert(begun(last) =~= Seq::<(Seq<u8>, nat)>::empty()) by {
        assert(begun(last.drop_last()) =~= Seq::<(Seq<u8>, nat)>::empty());
    }
    assert(begun(seg) =~= seq![(block, height as nat)]);
}

} // verus!
