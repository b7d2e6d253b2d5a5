//! The rule by which blocks in file order become a chain in height order,
//! as a mathematical model, and what is proved of it.
//!
//! Blocks lie in the files in the order in which the node learned of them.
//! The walker hands them to the visitor parent before child: a block whose
//! parent was not the last accepted block waits in a side table under its
//! parent's hash, and the last accepted block is held back by one step, so
//! that a competing block of the same parent can still take its place.

use crate::block::{block_record, spec_read_block, zero_bytes};
use crate::error::ParseError;
use crate::hash;
use crate::header::{header_cur_hash, header_prev_hash};
use crate::transactions::{kept, made_by, spec_block_transactions, spent_in, TransactionView};
use crate::visitors::trace::{is_block_events, lemma_replay_concat, new_events, replay, settled};
use crate::visitors::trace::{begun, lemma_begun_block, lemma_begun_concat};
use crate::visitors::trace::{lemma_block_events_len, lemma_replay_empty, txs_len};
use crate::visitors::Event;
use vstd::prelude::*;

verus! {

/// The state of a traversal as contracts see it. A block is its bytes.
pub struct WalkView {
    /// The hash of the block that the next block of the chain must cite.
    pub goal_prev_hash: hash::Hash,
    /// The block that was accepted last and is not yet visited.
    pub last_block: Option<Seq<u8>>,
    /// The height that the next visited block gets.
    pub height: nat,
    /// The blocks that wait for their parent, each under its parent's hash.
    pub skipped: Map<hash::Hash, Seq<u8>>,
    /// The blocks that were handed to the visitor, each with its height.
    pub emitted: Seq<(Seq<u8>, nat)>,
}

/// The hash of the parent that the block `block` cites.
pub open spec fn prev_of(block: Seq<u8>) -> hash::Hash {
    header_prev_hash(block)
}

/// The hash of the block `block`.
pub open spec fn cur_of(block: Seq<u8>) -> hash::Hash {
    header_cur_hash(block)
}

/// The hash that the block behind the last visited one must cite: the
/// zero hash where none was visited.
pub open spec fn log_tip(emitted: Seq<(Seq<u8>, nat)>) -> hash::Hash {
    if emitted.len() == 0 {
        hash::zero_hash()
    } else {
        cur_of(emitted.last().0)
    }
}

/// The visited blocks form a chain from the genesis block on: the heights
/// are 0, 1, 2 and so on, the first block cites the zero hash, and every
/// other block cites the block before it.
pub open spec fn log_wf(emitted: Seq<(Seq<u8>, nat)>, height: nat) -> bool {
    &&& height == emitted.len()
    &&& forall|i: int| 0 <= i < emitted.len() ==> (#[trigger] emitted[i]).1 == i
    &&& forall|i: int|
        0 < i < emitted.len() ==> prev_of((#[trigger] emitted[i]).0) == cur_of(emitted[i - 1].0)
    &&& emitted.len() > 0 ==> prev_of(emitted[0].0) == hash::zero_hash()
}

impl WalkView {
    /// The state before the first block.
    pub open spec fn initial() -> WalkView {
        WalkView {
            goal_prev_hash: hash::zero_hash(),
            last_block: None,
            height: 0,
            skipped: Map::empty(),
            emitted: Seq::empty(),
        }
    }

    /// Every waiting block waits under the hash of the parent that it cites.
    pub open spec fn keyed(self) -> bool {
        forall|k: hash::Hash| #[trigger]
            self.skipped.contains_key(k) ==> prev_of(self.skipped[k]) == k
    }

    /// The hash that the next visited block must cite.
    pub open spec fn attach(self) -> hash::Hash {
        match self.last_block {
            Some(last) => prev_of(last),
            None => self.goal_prev_hash,
        }
    }

    /// The invariant of a traversal between two steps.
    pub open spec fn chain_wf(self) -> bool {
        &&& self.skipped.dom().finite()
        &&& self.keyed()
        &&& log_wf(self.emitted, self.height)
        &&& self.attach() == log_tip(self.emitted)
        &&& match self.last_block {
            Some(last) => self.goal_prev_hash == cur_of(last),
            None => !self.skipped.contains_key(self.goal_prev_hash),
        }
    }

    /// The invariant of a traversal while the children of the last visited
    /// block are taken out of the side table.
    pub open spec fn draining_wf(self) -> bool {
        &&& self.skipped.dom().finite()
        &&& self.keyed()
        &&& log_wf(self.emitted, self.height)
        &&& self.goal_prev_hash == log_tip(self.emitted)
        &&& (self.last_block is None || self.skipped.contains_key(self.goal_prev_hash))
    }

    /// The number of blocks that were visited or may yet be visited without
    /// another block being read.
    pub open spec fn pending(self) -> nat {
        self.height + self.skipped.dom().len() + (if self.last_block is Some {
            1nat
        } else {
            0nat
        })
    }

    /// The state after `block` was handed to the visitor, or the error with
    /// which the visit fails: that of reading the block's transactions.
    pub open spec fn emit(self, block: Seq<u8>) -> Result<WalkView, ParseError> {
        match spec_block_transactions(block) {
            Err(e) => Err(e),
            Ok(_) => Ok(
                WalkView {
                    emitted: self.emitted.push((block, self.height)),
                    height: self.height + 1,
                    ..self
                },
            ),
        }
    }

    /// The state after the waiting children were visited: as long as a
    /// block waits under the goal, it leaves the table and is visited,
    /// and its hash becomes the goal.
    #[verifier::opaque]
    pub open spec fn drain_children(self) -> Result<WalkView, ParseError>
        decreases self.skipped.dom().len(),
        when self.skipped.dom().finite()
    {
        if self.skipped.contains_key(self.goal_prev_hash) {
            let block = self.skipped[self.goal_prev_hash];
            let taken = WalkView { skipped: self.skipped.remove(self.goal_prev_hash), ..self };
            match taken.emit(block) {
                Err(e) => Err(e),
                Ok(visited) => (WalkView {
                    goal_prev_hash: cur_of(block),
                    last_block: None,
                    ..visited
                }).drain_children(),
            }
        } else {
            Ok(self)
        }
    }

    /// The drain phase: where a block waits under the goal, the block held
    /// back is visited, and then the waiting children.
    pub open spec fn drain(self) -> Result<WalkView, ParseError> {
        if self.skipped.contains_key(self.goal_prev_hash) {
            match self.last_block {
                Some(last) => match self.emit(last) {
                    Err(e) => Err(e),
                    Ok(visited) => visited.drain_children(),
                },
                None => self.drain_children(),
            }
        } else {
            Ok(self)
        }
    }

    /// The state after `block` was put into the side table, under the hash
    /// of its parent.
    pub open spec fn skip(self, block: Seq<u8>) -> WalkView {
        WalkView { skipped: self.skipped.insert(prev_of(block), block), ..self }
    }

    /// The state after `block`, which cites the goal, was accepted: the
    /// block held back is visited, and `block` is held back in its place.
    pub open spec fn accept(self, block: Seq<u8>) -> Result<WalkView, ParseError> {
        match (match self.last_block {
            Some(last) => self.emit(last),
            None => Ok(self),
        }) {
            Err(e) => Err(e),
            Ok(visited) => Ok(
                WalkView {
                    goal_prev_hash: cur_of(block),
                    last_block: Some(block),
                    ..visited
                },
            ),
        }
    }

    /// Whether `block` and the block held back are two children of one
    /// parent.
    pub open spec fn splits(self, block: Seq<u8>) -> bool {
        match self.last_block {
            Some(last) => prev_of(block) == prev_of(last),
            None => false,
        }
    }

    /// One step of the resolution of a split between `first`, which is
    /// held back, and `second`: the next block of `bytes` goes into the
    /// side table. If it cites `first`, `first` stays; else, if it cites
    /// `second`, `second` takes the place of `first`. The result tells
    /// whether the split is resolved, which it also is when no block is
    /// left, and gives the state and the bytes that were not read.
    pub open spec fn resolve_split_step(self, first: Seq<u8>, second: Seq<u8>, bytes: Seq<u8>) -> Result<
        (bool, WalkView, Seq<u8>),
        ParseError,
    > {
        match spec_read_block(bytes) {
            Err(e) => Err(e),
            Ok(None) => Ok((true, self, Seq::empty())),
            Ok(Some((block, rest))) => {
                let waiting = self.skip(block);
                if prev_of(block) == cur_of(first) {
                    Ok((true, waiting, rest))
                } else if prev_of(block) == cur_of(second) {
                    Ok(
                        (
                            true,
                            WalkView {
                                goal_prev_hash: cur_of(second),
                                last_block: Some(second),
                                ..waiting
                            },
                            rest,
                        ),
                    )
                } else {
                    Ok((false, waiting, rest))
                }
            },
        }
    }

    /// The resolution of a split between `first`, which is held back, and
    /// `second`: blocks are read from `bytes` and put into the side table
    /// until one cites `first` or `second`, or until no block is left. The
    /// side whose child comes first in the file wins. The result is the
    /// state and the bytes that were not read.
    #[verifier::opaque]
    pub open spec fn resolve_split(self, first: Seq<u8>, second: Seq<u8>, bytes: Seq<u8>) -> Result<
        (WalkView, Seq<u8>),
        ParseError,
    >
        decreases bytes.len(),
    {
        match self.resolve_split_step(first, second, bytes) {
            Err(e) => Err(e),
            Ok((resolved, next, rest)) => if !resolved && rest.len() < bytes.len() {
                next.resolve_split(first, second, rest)
            } else {
                Ok((next, rest))
            },
        }
    }

    /// What is done with the block `block` that was read with `rest` left
    /// behind it: if it cites the goal it is accepted; else it goes into
    /// the side table, and if it is a second child of the parent of the
    /// block held back, the split is resolved. The result is the state and
    /// the bytes that were not read.
    pub open spec fn place(self, block: Seq<u8>, rest: Seq<u8>) -> Result<
        (WalkView, Seq<u8>),
        ParseError,
    > {
        if prev_of(block) != self.goal_prev_hash {
            if self.splits(block) {
                self.skip(block).resolve_split(self.last_block.unwrap(), block, rest)
            } else {
                Ok((self.skip(block), rest))
            }
        } else {
            match self.accept(block) {
                Err(e) => Err(e),
                Ok(accepted) => Ok((accepted, rest)),
            }
        }
    }

    /// One round of the traversal of a file: the drain phase, then the
    /// next block of `bytes` is read and placed. The result is the state
    /// and the bytes that were not read, or `None` in their place where no
    /// block was left.
    #[verifier::opaque]
    pub open spec fn walk_step(self, bytes: Seq<u8>) -> Result<
        (WalkView, Option<Seq<u8>>),
        ParseError,
    > {
        match self.drain() {
            Err(e) => Err(e),
            Ok(drained) => match spec_read_block(bytes) {
                Err(e) => Err(e),
                Ok(None) => Ok((drained, None)),
                Ok(Some((block, rest))) => match drained.place(block, rest) {
                    Err(e) => Err(e),
                    Ok((placed, left)) => Ok((placed, Some(left))),
                },
            },
        }
    }

    /// The state after the blocks of one file, `bytes`, or the error with
    /// which the traversal halts: rounds are made until the file is read
    /// to its end or only zero bytes are left.
    #[verifier::opaque]
    pub open spec fn walk_slice(self, bytes: Seq<u8>) -> Result<WalkView, ParseError>
        decreases bytes.len(),
    {
        if bytes.len() == 0 {
            Ok(self)
        } else {
            match self.walk_step(bytes) {
                Err(e) => Err(e),
                Ok((next, None)) => Ok(next),
                Ok((next, Some(rest))) => if rest.len() < bytes.len() {
                    next.walk_slice(rest)
                } else {
                    Ok(next)
                },
            }
        }
    }

    /// The state after the files `files`, in their order, or the error
    /// with which the traversal halts.
    pub open spec fn walk_files(self, files: Seq<Seq<u8>>) -> Result<WalkView, ParseError>
        decreases files.len(),
    {
        if files.len() == 0 {
            Ok(self)
        } else {
            match self.walk_slice(files[0]) {
                Err(e) => Err(e),
                Ok(next) => next.walk_files(files.skip(1)),
            }
        }
    }
}

/// The transactions of the block `block`, where they can be read.
pub open spec fn txs_of(block: Seq<u8>) -> Seq<TransactionView> {
    match spec_block_transactions(block) {
        Ok(txs) => txs,
        Err(_) => Seq::empty(),
    }
}

/// Whether the output `p` is one of a transaction of the blocks that were
/// visited from position `from` of the log on.
pub open spec fn made_since(emitted: Seq<(Seq<u8>, nat)>, from: int, p: (hash::Hash, nat)) -> bool {
    exists|i: int| from <= i < emitted.len() && made_by(txs_of((#[trigger] emitted[i]).0), p)
}

/// Whether a transaction of the blocks that were visited from position
/// `from` of the log on spends the output `p`.
pub open spec fn spent_since(emitted: Seq<(Seq<u8>, nat)>, from: int, p: (hash::Hash, nat)) -> bool {
    exists|i: int| from <= i < emitted.len() && spent_in(txs_of((#[trigger] emitted[i]).0), p)
}

/// The number of events of the block `block`.
pub open spec fn block_events_len(block: Seq<u8>) -> nat {
    txs_len(txs_of(block)) + 2
}

/// Whether `seg` is the events of the blocks `blocks`, each visited at its
/// height, one after the other, the first with the table `table` and each
/// other one with the table that the events before it give.
#[verifier::opaque]
pub open spec fn is_blocks_events<T>(
    seg: Seq<Event<T>>,
    blocks: Seq<(Seq<u8>, nat)>,
    table: Map<(hash::Hash, nat), T>,
) -> bool
    decreases blocks.len(),
{
    if blocks.len() == 0 {
        seg.len() == 0
    } else {
        let last = blocks.last();
        let cut = seg.len() - block_events_len(last.0);
        &&& cut >= 0
        &&& last.1 <= u64::MAX
        &&& is_blocks_events(seg.take(cut), blocks.drop_last(), table)
        &&& is_block_events(
            seg.skip(cut),
            last.0,
            last.1 as u64,
            txs_of(last.0),
            replay(settled(table), seg.take(cut)).table,
        )
    }
}

/// What the blocks that were visited from position `from` of the log on
/// did to the table of outputs, whatever the visitor did: an output that is
/// not one of these blocks' own is in the table afterwards exactly if it
/// was before and none of them spent it, with the same item.
#[verifier::opaque]
pub open spec fn kept_since<T>(
    before: Map<(hash::Hash, nat), T>,
    after: Map<(hash::Hash, nat), T>,
    log: Seq<(Seq<u8>, nat)>,
    from: int,
) -> bool {
    &&& forall|p: (hash::Hash, nat)|
        !made_since(log, from, p) ==> (#[trigger] after.contains_key(p) <==> before.contains_key(p)
            && !spent_since(log, from, p))
    &&& forall|p: (hash::Hash, nat)|
        !made_since(log, from, p) && #[trigger] after.contains_key(p) ==> after[p] == before[p]
}

/// What a stretch of a traversal does, in which the log of visited blocks
/// grows from `log_before` to `log_after`, the visitor's log of calls from
/// `trace_before` to `trace_after` and the table of outputs changes from
/// `before` to `after`: the visitor receives exactly the calls of the
/// blocks that were visited meanwhile, each at its height and in the order
/// of the log, and the table afterwards is the one that these calls give.
/// In particular an output that is not one of these blocks' own is in the
/// table afterwards exactly if it was before and none of them spent it.
pub open spec fn visited<T>(
    before: Map<(hash::Hash, nat), T>,
    after: Map<(hash::Hash, nat), T>,
    log_before: Seq<(Seq<u8>, nat)>,
    log_after: Seq<(Seq<u8>, nat)>,
    trace_before: Seq<Event<T>>,
    trace_after: Seq<Event<T>>,
) -> bool {
    &&& log_before.is_prefix_of(log_after)
    &&& trace_before.is_prefix_of(trace_after)
    &&& is_blocks_events(
        new_events(trace_before, trace_after),
        log_after.skip(log_before.len() as int),
        before,
    )
    &&& replay(settled(before), new_events(trace_before, trace_after)) == settled(after)
    &&& kept_since(before, after, log_after, log_before.len() as int)
}

/// Nothing happens to the table while no block is visited.
pub proof fn lemma_kept_since_refl<T>(table: Map<(hash::Hash, nat), T>, log: Seq<(Seq<u8>, nat)>)
    ensures
        kept_since(table, table, log, log.len() as int),
{
    reveal(kept_since);
}

/// In a log that goes on from another, an output is made or spent since
/// a position of the shorter log if it is in the shorter log, or in the
/// part that the longer log adds.
pub proof fn lemma_since_split(
    log_middle: Seq<(Seq<u8>, nat)>,
    log_after: Seq<(Seq<u8>, nat)>,
    from: int,
    p: (hash::Hash, nat),
)
    requires
        log_middle.is_prefix_of(log_after),
        0 <= from <= log_middle.len(),
    ensures
        made_since(log_after, from, p) <==> made_since(log_middle, from, p) || made_since(
            log_after,
            log_middle.len() as int,
            p,
        ),
        spent_since(log_after, from, p) <==> spent_since(log_middle, from, p) || spent_since(
            log_after,
            log_middle.len() as int,
            p,
        ),
{
    let mid = log_middle.len() as int;
    if made_since(log_middle, from, p) {
        let i = choose|i: int|
            from <= i < log_middle.len() && made_by(txs_of((#[trigger] log_middle[i]).0), p);
        assert(log_after[i] == log_middle[i]);
    }
    if spent_since(log_middle, from, p) {
        let i = choose|i: int|
            from <= i < log_middle.len() && spent_in(txs_of((#[trigger] log_middle[i]).0), p);
        assert(log_after[i] == log_middle[i]);
    }
    if made_since(log_after, from, p) {
        let i = choose|i: int|
            from <= i < log_after.len() && made_by(txs_of((#[trigger] log_after[i]).0), p);
        if i < mid {
            assert(log_after[i] == log_middle[i]);
        }
    }
    if spent_since(log_after, from, p) {
        let i = choose|i: int|
            from <= i < log_after.len() && spent_in(txs_of((#[trigger] log_after[i]).0), p);
        if i < mid {
            assert(log_after[i] == log_middle[i]);
        }
    }
}

/// What holds of the table over two stretches of a traversal holds over
/// both together.
pub proof fn lemma_kept_since_trans<T>(
    before: Map<(hash::Hash, nat), T>,
    middle: Map<(hash::Hash, nat), T>,
    after: Map<(hash::Hash, nat), T>,
    log_before: Seq<(Seq<u8>, nat)>,
    log_middle: Seq<(Seq<u8>, nat)>,
    log_after: Seq<(Seq<u8>, nat)>,
)
    requires
        log_before.is_prefix_of(log_middle),
        log_middle.is_prefix_of(log_after),
        kept_since(before, middle, log_middle, log_before.len() as int),
        kept_since(middle, after, log_after, log_middle.len() as int),
    ensures
        kept_since(before, after, log_after, log_before.len() as int),
{
    reveal(kept_since);
    let from = log_before.len() as int;
    let mid = log_middle.len() as int;
    assert forall|p: (hash::Hash, nat)| !made_since(log_after, from, p) implies (
    #[trigger] after.contains_key(p) <==> before.contains_key(p) && !spent_since(
        log_after,
        from,
        p,
    )) by {
        lemma_since_split(log_middle, log_after, from, p);
        assert(middle.contains_key(p) <==> before.contains_key(p) && !spent_since(
            log_middle,
            from,
            p,
        ));
    }
    assert forall|p: (hash::Hash, nat)|
        !made_since(log_after, from, p) && #[trigger] after.contains_key(p) implies after[p]
        == before[p] by {
        lemma_since_split(log_middle, log_after, from, p);
        assert(middle.contains_key(p));
    }
}

/// What one block does to the table is what the blocks visited since
/// just before it do.
pub proof fn lemma_kept_since_block<T>(
    before: Map<(hash::Hash, nat), T>,
    after: Map<(hash::Hash, nat), T>,
    log: Seq<(Seq<u8>, nat)>,
    block: Seq<u8>,
    height: nat,
)
    requires
        kept(before, after, txs_of(block)),
    ensures
        kept_since(before, after, log.push((block, height)), log.len() as int),
{
    reveal(kept);
    reveal(kept_since);
    let longer = log.push((block, height));
    assert(longer[log.len() as int].0 == block);
    assert forall|p: (hash::Hash, nat)|
        (made_since(longer, log.len() as int, p) <==> made_by(txs_of(block), p)) && (spent_since(
            longer,
            log.len() as int,
            p,
        ) <==> spent_in(txs_of(block), p)) by {
        if made_since(longer, log.len() as int, p) {
            let i = choose|i: int|
                log.len() <= i < longer.len() && made_by(txs_of((#[trigger] longer[i]).0), p);
            assert(i == log.len());
        }
        if spent_since(longer, log.len() as int, p) {
            let i = choose|i: int|
                log.len() <= i < longer.len() && spent_in(txs_of((#[trigger] longer[i]).0), p);
            assert(i == log.len());
        }
    }
}

/// Nothing happens while nothing is visited.
pub proof fn lemma_visited_refl<T>(
    table: Map<(hash::Hash, nat), T>,
    log: Seq<(Seq<u8>, nat)>,
    trace: Seq<Event<T>>,
)
    ensures
        visited(table, table, log, log, trace, trace),
{
    lemma_blocks_events_unfold(
        new_events(trace, trace),
        log.skip(log.len() as int),
        table,
    );
    lemma_replay_empty(settled(table));
    lemma_kept_since_refl(table, log);
    assert(new_events(trace, trace) =~= Seq::<Event<T>>::empty());
    assert(log.skip(log.len() as int) =~= Seq::<(Seq<u8>, nat)>::empty());
}

/// What it is to be the events of some blocks, by the last of them.
pub proof fn lemma_blocks_events_unfold<T>(
    seg: Seq<Event<T>>,
    blocks: Seq<(Seq<u8>, nat)>,
    table: Map<(hash::Hash, nat), T>,
)
    ensures
        blocks.len() == 0 ==> is_blocks_events(seg, blocks, table) == (seg.len() == 0),
        blocks.len() > 0 ==> is_blocks_events(seg, blocks, table) == ({
            let last = blocks.last();
            let cut = seg.len() - block_events_len(last.0);
            &&& cut >= 0
            &&& last.1 <= u64::MAX
            &&& is_blocks_events(seg.take(cut), blocks.drop_last(), table)
            &&& is_block_events(
                seg.skip(cut),
                last.0,
                last.1 as u64,
                txs_of(last.0),
                replay(settled(table), seg.take(cut)).table,
            )
        }),
{
    reveal(is_blocks_events);
}

/// The events of some blocks behind the events of others are the events
/// of all of them.
pub proof fn lemma_blocks_events_concat<T>(
    first: Seq<Event<T>>,
    first_blocks: Seq<(Seq<u8>, nat)>,
    table: Map<(hash::Hash, nat), T>,
    middle: Map<(hash::Hash, nat), T>,
    second: Seq<Event<T>>,
    second_blocks: Seq<(Seq<u8>, nat)>,
)
    requires
        is_blocks_events(first, first_blocks, table),
        replay(settled(table), first) == settled(middle),
        is_blocks_events(second, second_blocks, middle),
    ensures
        is_blocks_events(first + second, first_blocks + second_blocks, table),
    decreases second_blocks.len(),
{
    lemma_blocks_events_unfold(second, second_blocks, middle);
    if second_blocks.len() == 0 {
        assert(first + second =~= first);
        assert(first_blocks + second_blocks =~= first_blocks);
    } else {
        let last = second_blocks.last();
        let cut = second.len() - block_events_len(last.0);
        let all = first + second;
        let all_blocks = first_blocks + second_blocks;
        lemma_blocks_events_concat(
            first,
            first_blocks,
            table,
            middle,
            second.take(cut),
            second_blocks.drop_last(),
        );
        lemma_replay_concat(settled(table), first, second.take(cut));
        lemma_blocks_events_unfold(all, all_blocks, table);
        assert(all_blocks.last() == last);
        assert(all.len() - block_events_len(last.0) == first.len() + cut);
        assert(all.take(first.len() + cut) == first + second.take(cut)) by {
            assert(all.take(first.len() + cut) =~= first + second.take(cut));
        }
        assert(all.skip(first.len() + cut) == second.skip(cut)) by {
            assert(all.skip(first.len() + cut) =~= second.skip(cut));
        }
        assert(all_blocks.drop_last() == first_blocks + second_blocks.drop_last()) by {
            assert(all_blocks.drop_last() =~= first_blocks + second_blocks.drop_last());
        }
    }
}

/// What holds over two stretches of a traversal holds over both together.
pub proof fn lemma_visited_trans<T>(
    before: Map<(hash::Hash, nat), T>,
    middle: Map<(hash::Hash, nat), T>,
    after: Map<(hash::Hash, nat), T>,
    log_before: Seq<(Seq<u8>, nat)>,
    log_middle: Seq<(Seq<u8>, nat)>,
    log_after: Seq<(Seq<u8>, nat)>,
    trace_before: Seq<Event<T>>,
    trace_middle: Seq<Event<T>>,
    trace_after: Seq<Event<T>>,
)
    requires
        visited(before, middle, log_before, log_middle, trace_before, trace_middle),
        visited(middle, after, log_middle, log_after, trace_middle, trace_after),
    ensures
        visited(before, after, log_before, log_after, trace_before, trace_after),
{
    let first = new_events(trace_before, trace_middle);
    let second = new_events(trace_middle, trace_after);
    let from = log_before.len() as int;
    let mid = log_middle.len() as int;
    assert(new_events(trace_before, trace_after) =~= first + second);
    assert(log_after.skip(from) =~= log_middle.skip(from) + log_after.skip(mid));
    lemma_blocks_events_concat(
        first,
        log_middle.skip(from),
        before,
        middle,
        second,
        log_after.skip(mid),
    );
    lemma_replay_concat(settled(before), first, second);
    lemma_kept_since_trans(before, middle, after, log_before, log_middle, log_after);
}

/// The events of one block are the events of the blocks of a log that
/// holds this block alone.
pub proof fn lemma_blocks_events_single<T>(
    seg: Seq<Event<T>>,
    block: Seq<u8>,
    height: u64,
    table: Map<(hash::Hash, nat), T>,
)
    requires
        is_block_events(seg, block, height, txs_of(block), table),
    ensures
        is_blocks_events(seg, seq![(block, height as nat)], table),
{
    let blocks = seq![(block, height as nat)];
    lemma_block_events_len(seg, block, height, txs_of(block), table);
    lemma_replay_empty(settled(table));
    lemma_blocks_events_unfold(seg, blocks, table);
    lemma_blocks_events_unfold(seg.take(0), blocks.drop_last(), table);
    assert(blocks.drop_last() =~= Seq::<(Seq<u8>, nat)>::empty());
    assert(seg.take(0) =~= Seq::<Event<T>>::empty());
    assert(seg.skip(0) =~= seg);
}

/// The visit of one block is a stretch of a traversal.
pub proof fn lemma_visited_block<T>(
    before: Map<(hash::Hash, nat), T>,
    after: Map<(hash::Hash, nat), T>,
    log: Seq<(Seq<u8>, nat)>,
    block: Seq<u8>,
    height: u64,
    trace_before: Seq<Event<T>>,
    trace_after: Seq<Event<T>>,
)
    requires
        trace_before.is_prefix_of(trace_after),
        is_block_events(
            new_events(trace_before, trace_after),
            block,
            height,
            txs_of(block),
            before,
        ),
        replay(settled(before), new_events(trace_before, trace_after)) == settled(after),
        kept(before, after, txs_of(block)),
    ensures
        visited(before, after, log, log.push((block, height as nat)), trace_before, trace_after),
{
    let longer = log.push((block, height as nat));
    assert(longer.skip(log.len() as int) =~= seq![(block, height as nat)]);
    lemma_blocks_events_single(new_events(trace_before, trace_after), block, height, before);
    lemma_kept_since_block(before, after, log, block, height as nat);
}

/// The blocks whose visit begins in the events of some blocks are these
/// blocks, each at its height, in their order.
pub proof fn lemma_begun_blocks<T>(
    seg: Seq<Event<T>>,
    blocks: Seq<(Seq<u8>, nat)>,
    table: Map<(hash::Hash, nat), T>,
)
    requires
        is_blocks_events(seg, blocks, table),
    ensures
        begun(seg) == blocks,
    decreases blocks.len(),
{
    lemma_blocks_events_unfold(seg, blocks, table);
    if blocks.len() == 0 {
        assert(seg =~= Seq::<Event<T>>::empty());
        assert(blocks =~= Seq::<(Seq<u8>, nat)>::empty());
    } else {
        let last = blocks.last();
        let cut = seg.len() - block_events_len(last.0);
        lemma_begun_blocks(seg.take(cut), blocks.drop_last(), table);
        lemma_begun_block(
            seg.skip(cut),
            last.0,
            last.1 as u64,
            txs_of(last.0),
            replay(settled(table), seg.take(cut)).table,
        );
        lemma_begun_concat(seg.take(cut), seg.skip(cut));
        assert(seg.take(cut) + seg.skip(cut) =~= seg);
        assert(blocks.drop_last() + seq![last] =~= blocks);
    }
}

/// The visitor sees the log: over a stretch of a traversal, the calls of
/// `visit_block_begin` that the visitor receives are exactly those for the
/// blocks that enter the log of visited blocks, each at its height and in
/// the order of the log.
pub proof fn lemma_visitor_sees_log<T>(
    before: Map<(hash::Hash, nat), T>,
    after: Map<(hash::Hash, nat), T>,
    log_before: Seq<(Seq<u8>, nat)>,
    log_after: Seq<(Seq<u8>, nat)>,
    trace_before: Seq<Event<T>>,
    trace_after: Seq<Event<T>>,
)
    requires
        visited(before, after, log_before, log_after, trace_before, trace_after),
    ensures
        begun(trace_after) == begun(trace_before) + log_after.skip(log_before.len() as int),
{
    let more = new_events(trace_before, trace_after);
    lemma_begun_blocks(more, log_after.skip(log_before.len() as int), before);
    lemma_begun_concat(trace_before, more);
    assert forall|i: int| 0 <= i < trace_before.len() implies trace_after[i] == trace_before[i] by {
        assert(trace_after.subrange(0, trace_before.len() as int)[i] == trace_after[i]);
    }
    assert(trace_before + more =~= trace_after);
}

/// Heights and parents as the visitor sees them: in a traversal of any
/// files from the start, by a visitor that had received no call, the calls
/// of `visit_block_begin` come at the heights 0, 1, 2 and so on without a
/// gap; the first block cites the zero hash and every other one the hash
/// of the block of the call before.
pub proof fn lemma_visitor_sees_chain<T>(
    files: Seq<Seq<u8>>,
    table: Map<(hash::Hash, nat), T>,
    trace: Seq<Event<T>>,
)
    requires
        WalkView::initial().walk_files(files) is Ok,
        visited(
            Map::<(hash::Hash, nat), T>::empty(),
            table,
            Seq::empty(),
            WalkView::initial().walk_files(files)->Ok_0.emitted,
            Seq::empty(),
            trace,
        ),
    ensures
        begun(trace) == WalkView::initial().walk_files(files)->Ok_0.emitted,
        forall|i: int| 0 <= i < begun(trace).len() ==> (#[trigger] begun(trace)[i]).1 == i,
        forall|i: int|
            0 < i < begun(trace).len() ==> prev_of((#[trigger] begun(trace)[i]).0) == cur_of(
                begun(trace)[i - 1].0,
            ),
        begun(trace).len() > 0 ==> prev_of(begun(trace)[0].0) == hash::zero_hash(),
{
    let log = WalkView::initial().walk_files(files)->Ok_0.emitted;
    lemma_walk_files(WalkView::initial(), files);
    lemma_visitor_sees_log(
        Map::<(hash::Hash, nat), T>::empty(),
        table,
        Seq::empty(),
        log,
        Seq::empty(),
        trace,
    );
    assert(begun(Seq::<Event<T>>::empty()) =~= Seq::<(Seq<u8>, nat)>::empty());
    assert(log.skip(0) =~= log);
    assert(begun(trace) =~= log);
}

/// In a traversal that started with an empty table, every output in the
/// table is one of a transaction of a visited block.
pub proof fn lemma_table_holds_visited_outputs<T>(
    table: Map<(hash::Hash, nat), T>,
    emitted: Seq<(Seq<u8>, nat)>,
    trace_before: Seq<Event<T>>,
    trace_after: Seq<Event<T>>,
    p: (hash::Hash, nat),
)
    requires
        visited(
            Map::<(hash::Hash, nat), T>::empty(),
            table,
            Seq::empty(),
            emitted,
            trace_before,
            trace_after,
        ),
        table.contains_key(p),
    ensures
        made_since(emitted, 0, p),
{
    reveal(kept_since);
}

/// The number of bytes in `files`.
pub open spec fn total_len(files: Seq<Seq<u8>>) -> nat
    decreases files.len(),
{
    if files.len() == 0 {
        0
    } else {
        files[0].len() + total_len(files.skip(1))
    }
}

/// A visit of the block that must come next keeps the log a chain.
pub proof fn lemma_emit(v: WalkView, block: Seq<u8>)
    requires
        log_wf(v.emitted, v.height),
        prev_of(block) == log_tip(v.emitted),
        v.emit(block) is Ok,
    ensures
        log_wf(v.emit(block)->Ok_0.emitted, v.emit(block)->Ok_0.height),
        log_tip(v.emit(block)->Ok_0.emitted) == cur_of(block),
{
    let w = v.emit(block)->Ok_0;
    assert forall|i: int| 0 < i < w.emitted.len() implies prev_of((#[trigger] w.emitted[i]).0)
        == cur_of(w.emitted[i - 1].0) by {
        if i < v.emitted.len() {
            assert(w.emitted[i] == v.emitted[i]);
            assert(w.emitted[i - 1] == v.emitted[i - 1]);
        } else {
            assert(w.emitted[i - 1] == v.emitted.last());
        }
    }
    assert forall|i: int| 0 <= i < w.emitted.len() implies (#[trigger] w.emitted[i]).1 == i by {
        if i < v.emitted.len() {
            assert(w.emitted[i] == v.emitted[i]);
        }
    }
    if v.emitted.len() > 0 {
        assert(w.emitted[0] == v.emitted[0]);
    }
}

/// What taking the waiting children out comes to, one child at a time.
pub proof fn lemma_drain_children_unfold(v: WalkView)
    requires
        v.skipped.dom().finite(),
    ensures
        !v.skipped.contains_key(v.goal_prev_hash) ==> v.drain_children() == Ok::<
            WalkView,
            ParseError,
        >(v),
        v.skipped.contains_key(v.goal_prev_hash) ==> v.drain_children() == (match (WalkView {
            skipped: v.skipped.remove(v.goal_prev_hash),
            ..v
        }).emit(v.skipped[v.goal_prev_hash]) {
            Err(e) => Err(e),
            Ok(visited) => (WalkView {
                goal_prev_hash: cur_of(v.skipped[v.goal_prev_hash]),
                last_block: None,
                ..visited
            }).drain_children(),
        }),
{
    reveal(WalkView::drain_children);
}

/// What the resolution of a split comes to, one block at a time.
pub proof fn lemma_resolve_split_unfold(v: WalkView, first: Seq<u8>, second: Seq<u8>, bytes: Seq<u8>)
    ensures
        v.resolve_split(first, second, bytes) == (match v.resolve_split_step(first, second, bytes) {
            Err(e) => Err(e),
            Ok((resolved, next, rest)) => if !resolved && rest.len() < bytes.len() {
                next.resolve_split(first, second, rest)
            } else {
                Ok((next, rest))
            },
        }),
{
    reveal(WalkView::resolve_split);
}

/// What one round of the traversal of a file comes to.
pub proof fn lemma_walk_step_unfold(v: WalkView, bytes: Seq<u8>)
    ensures
        v.walk_step(bytes) == (match v.drain() {
            Err(e) => Err(e),
            Ok(drained) => match spec_read_block(bytes) {
                Err(e) => Err(e),
                Ok(None) => Ok((drained, None)),
                Ok(Some((block, rest))) => match drained.place(block, rest) {
                    Err(e) => Err(e),
                    Ok((placed, left)) => Ok((placed, Some(left))),
                },
            },
        }),
{
    reveal(WalkView::walk_step);
}

/// What the traversal of a file comes to, one round at a time.
pub proof fn lemma_walk_slice_unfold(v: WalkView, bytes: Seq<u8>)
    ensures
        v.walk_slice(bytes) == (if bytes.len() == 0 {
            Ok(v)
        } else {
            match v.walk_step(bytes) {
                Err(e) => Err(e),
                Ok((next, None)) => Ok(next),
                Ok((next, Some(rest))) => if rest.len() < bytes.len() {
                    next.walk_slice(rest)
                } else {
                    Ok(next)
                },
            }
        }),
{
    reveal(WalkView::walk_slice);
}

/// Taking the waiting children out keeps the invariant, and no more
/// blocks are pending than before.
pub proof fn lemma_drain_children(v: WalkView)
    requires
        v.draining_wf(),
    ensures
        match v.drain_children() {
            Ok(w) => w.chain_wf() && w.height + w.skipped.dom().len() == v.height
                + v.skipped.dom().len() && (if v.skipped.contains_key(v.goal_prev_hash) {
                w.last_block is None
            } else {
                w == v
            }),
            Err(_) => true,
        },
    decreases v.skipped.dom().len(),
{
    lemma_drain_children_unfold(v);
    if v.skipped.contains_key(v.goal_prev_hash) {
        let block = v.skipped[v.goal_prev_hash];
        let taken = WalkView { skipped: v.skipped.remove(v.goal_prev_hash), ..v };
        if taken.emit(block) is Ok {
            let visited = taken.emit(block)->Ok_0;
            lemma_emit(taken, block);
            let next = WalkView { goal_prev_hash: cur_of(block), last_block: None, ..visited };
            assert(next.keyed()) by {
                assert forall|k: hash::Hash| #[trigger] next.skipped.contains_key(k) implies prev_of(
                    next.skipped[k],
                ) == k by {
                    assert(v.skipped.contains_key(k));
                }
            }
            lemma_drain_children(next);
        }
    }
}

/// The drain phase keeps the invariant, and no more blocks are pending
/// than before. It finds a block held back whenever a child waits.
pub proof fn lemma_drain(v: WalkView)
    requires
        v.chain_wf(),
    ensures
        match v.drain() {
            Ok(w) => w.chain_wf() && w.pending() <= v.pending(),
            Err(_) => true,
        },
        v.skipped.contains_key(v.goal_prev_hash) ==> v.last_block is Some,
{
    if v.skipped.contains_key(v.goal_prev_hash) {
        let last = v.last_block.unwrap();
        if v.emit(last) is Ok {
            let visited = v.emit(last)->Ok_0;
            lemma_emit(v, last);
            lemma_drain_children(visited);
        }
    }
}

/// Accepting a block that cites the goal keeps the invariant, and at most
/// one more block is pending.
pub proof fn lemma_accept(v: WalkView, block: Seq<u8>)
    requires
        v.chain_wf(),
        prev_of(block) == v.goal_prev_hash,
    ensures
        match v.accept(block) {
            Ok(w) => w.chain_wf() && w.pending() <= v.pending() + 1,
            Err(_) => true,
        },
{
    match v.last_block {
        Some(last) => {
            if v.emit(last) is Ok {
                lemma_emit(v, last);
            }
        },
        None => {},
    }
}

/// Putting a block into the side table keeps the invariant, unless the
/// block cites the goal while no block is held back, and at most one more
/// block is pending.
pub proof fn lemma_skip(v: WalkView, block: Seq<u8>)
    requires
        v.chain_wf(),
        prev_of(block) != v.goal_prev_hash || v.last_block is Some,
    ensures
        v.skip(block).chain_wf(),
        v.skip(block).pending() <= v.pending() + 1,
{
    let w = v.skip(block);
    assert(w.skipped.dom() =~= v.skipped.dom().insert(prev_of(block)));
}

/// One step of the resolution of a split keeps the invariant and the
/// block held back, unless the second block takes its place, and at most
/// one more block is pending for the 88 bytes or more that were read.
pub proof fn lemma_resolve_split_step(v: WalkView, first: Seq<u8>, second: Seq<u8>, bytes: Seq<u8>)
    requires
        v.chain_wf(),
        v.last_block == Some(first),
        prev_of(second) == prev_of(first),
    ensures
        match v.resolve_split_step(first, second, bytes) {
            Ok((resolved, w, rest)) => w.chain_wf() && rest.len() <= bytes.len() && 88
                * w.pending() + rest.len() <= 88 * v.pending() + bytes.len() && (!resolved ==> rest.len()
                < bytes.len() && w.last_block == Some(first)),
            Err(_) => true,
        },
{
    crate::block::lemma_read_block_consumes(bytes);
    match spec_read_block(bytes) {
        Ok(Some((block, rest))) => {
            lemma_skip(v, block);
        },
        _ => {},
    }
}

/// The resolution of a split keeps the invariant; it reads on in the same
/// bytes, and at most one more block is pending for every 88 bytes read.
pub proof fn lemma_resolve_split(v: WalkView, first: Seq<u8>, second: Seq<u8>, bytes: Seq<u8>)
    requires
        v.chain_wf(),
        v.last_block == Some(first),
        prev_of(second) == prev_of(first),
    ensures
        match v.resolve_split(first, second, bytes) {
            Ok((w, rest)) => w.chain_wf() && rest.len() <= bytes.len() && 88 * w.pending()
                + rest.len() <= 88 * v.pending() + bytes.len(),
            Err(_) => true,
        },
    decreases bytes.len(),
{
    lemma_resolve_split_unfold(v, first, second, bytes);
    lemma_resolve_split_step(v, first, second, bytes);
    match v.resolve_split_step(first, second, bytes) {
        Ok((resolved, next, rest)) => {
            if !resolved {
                lemma_resolve_split(next, first, second, rest);
            }
        },
        Err(_) => {},
    }
}

/// Placing a block that was read from 88 bytes or more keeps the
/// invariant, and at most one more block is pending for every 88 bytes
/// that were read.
pub proof fn lemma_place(v: WalkView, block: Seq<u8>, rest: Seq<u8>)
    requires
        v.chain_wf(),
    ensures
        match v.place(block, rest) {
            Ok((w, left)) => w.chain_wf() && left.len() <= rest.len() && 88 * w.pending()
                + left.len() <= 88 * v.pending() + 88 + rest.len(),
            Err(_) => true,
        },
{
    if prev_of(block) != v.goal_prev_hash {
        lemma_skip(v, block);
        if v.splits(block) {
            lemma_resolve_split(v.skip(block), v.last_block.unwrap(), block, rest);
        }
    } else {
        lemma_accept(v, block);
    }
}

/// One round of the traversal of a file keeps the invariant, reads at
/// least 88 bytes unless it stops, and at most one more block is pending
/// for every 88 bytes that were read.
pub proof fn lemma_walk_step(v: WalkView, bytes: Seq<u8>)
    requires
        v.chain_wf(),
    ensures
        match v.walk_step(bytes) {
            Ok((w, Some(rest))) => w.chain_wf() && rest.len() < bytes.len() && 88 * w.pending()
                + rest.len() <= 88 * v.pending() + bytes.len(),
            Ok((w, None)) => w.chain_wf() && w.pending() <= v.pending(),
            Err(_) => true,
        },
{
    lemma_walk_step_unfold(v, bytes);
    lemma_drain(v);
    crate::block::lemma_read_block_consumes(bytes);
    match v.drain() {
        Ok(drained) => match spec_read_block(bytes) {
            Ok(Some((block, rest))) => {
                lemma_place(drained, block, rest);
            },
            _ => {},
        },
        Err(_) => {},
    }
}

/// The traversal of one file keeps the invariant, and at most one more
/// block is pending for every 88 bytes of the file.
pub proof fn lemma_walk_slice(v: WalkView, bytes: Seq<u8>)
    requires
        v.chain_wf(),
    ensures
        match v.walk_slice(bytes) {
            Ok(w) => w.chain_wf() && 88 * w.pending() <= 88 * v.pending() + bytes.len(),
            Err(_) => true,
        },
    decreases bytes.len(),
{
    lemma_walk_slice_unfold(v, bytes);
    if bytes.len() > 0 {
        lemma_walk_step(v, bytes);
        match v.walk_step(bytes) {
            Ok((next, Some(rest))) => {
                lemma_walk_slice(next, rest);
            },
            _ => {},
        }
    }
}

/// The traversal of a run of files keeps the invariant, and at most one
/// more block is pending for every 88 bytes of the files.
pub proof fn lemma_walk_files(v: WalkView, files: Seq<Seq<u8>>)
    requires
        v.chain_wf(),
    ensures
        match v.walk_files(files) {
            Ok(w) => w.chain_wf() && 88 * w.pending() <= 88 * v.pending() + total_len(files),
            Err(_) => true,
        },
    decreases files.len(),
{
    if files.len() > 0 {
        lemma_walk_slice(v, files[0]);
        match v.walk_slice(files[0]) {
            Ok(next) => {
                lemma_walk_files(next, files.skip(1));
            },
            Err(_) => {},
        }
    }
}

/// Height monotonicity: in a traversal of any files from the start, the
/// blocks are handed to the visitor at the heights 0, 1, 2 and so on,
/// without a gap, and the height that is returned is their number.
pub proof fn lemma_heights_ascend(files: Seq<Seq<u8>>)
    ensures
        match WalkView::initial().walk_files(files) {
            Ok(w) => w.height == w.emitted.len() && forall|i: int|
                0 <= i < w.emitted.len() ==> (#[trigger] w.emitted[i]).1 == i,
            Err(_) => true,
        },
{
    lemma_walk_files(WalkView::initial(), files);
}

/// Parent continuity: in a traversal of any files from the start, the
/// first block handed to the visitor cites the zero hash, every other one
/// cites the hash of the block handed over just before it, and the block
/// that is held back at the end cites the last one handed over.
pub proof fn lemma_parent_continuity(files: Seq<Seq<u8>>)
    ensures
        match WalkView::initial().walk_files(files) {
            Ok(w) => {
                &&& forall|i: int|
                    0 < i < w.emitted.len() ==> prev_of((#[trigger] w.emitted[i]).0) == cur_of(
                        w.emitted[i - 1].0,
                    )
                &&& w.emitted.len() > 0 ==> prev_of(w.emitted[0].0) == hash::zero_hash()
                &&& w.attach() == log_tip(w.emitted)
            },
            Err(_) => true,
        },
{
    lemma_walk_files(WalkView::initial(), files);
}

/// Split determinism: the side whose child comes first in the file wins.
/// If the next block read cites the block held back, that block stays and
/// so does the goal; if it cites the competing block and not the block
/// held back, the competing block is held back from then on and its hash is
/// the goal; a block that cites neither goes into the side table, and the
/// blocks after it decide.
pub proof fn lemma_split_determinism(
    v: WalkView,
    first: Seq<u8>,
    second: Seq<u8>,
    bytes: Seq<u8>,
    block: Seq<u8>,
    rest: Seq<u8>,
)
    requires
        spec_read_block(bytes) == Ok::<Option<(Seq<u8>, Seq<u8>)>, ParseError>(Some((block, rest))),
    ensures
        prev_of(block) == cur_of(first) ==> v.resolve_split(first, second, bytes) == Ok::<
            (WalkView, Seq<u8>),
            ParseError,
        >((v.skip(block), rest)),
        prev_of(block) != cur_of(first) && prev_of(block) == cur_of(second) ==> v.resolve_split(
            first,
            second,
            bytes,
        ) == Ok::<(WalkView, Seq<u8>), ParseError>(
            (
                WalkView {
                    goal_prev_hash: cur_of(second),
                    last_block: Some(second),
                    ..v.skip(block)
                },
                rest,
            ),
        ),
        prev_of(block) != cur_of(first) && prev_of(block) != cur_of(second) ==> v.resolve_split(
            first,
            second,
            bytes,
        ) == v.skip(block).resolve_split(first, second, rest),
{
    lemma_resolve_split_unfold(v, first, second, bytes);
    crate::block::lemma_read_block_consumes(bytes);
}

/// One round at a record: the drain phase, then the block of the record
/// is placed, and the traversal goes on behind it.
pub proof fn lemma_walk_record(v: WalkView, block: Seq<u8>, rest: Seq<u8>)
    requires
        80 <= block.len() <= u32::MAX,
    ensures
        v.walk_slice(block_record(block) + rest) == (match v.drain() {
            Err(e) => Err(e),
            Ok(drained) => match drained.place(block, rest) {
                Err(e) => Err(e),
                Ok((placed, left)) => if left.len() < block.len() + 8 + rest.len() {
                    placed.walk_slice(left)
                } else {
                    Ok(placed)
                },
            },
        }),
{
    let bytes = block_record(block) + rest;
    lemma_walk_slice_unfold(v, bytes);
    lemma_walk_step_unfold(v, bytes);
    crate::block::lemma_read_block_record(block, rest);
    crate::block::lemma_record_len(block);
}

/// At the zero bytes that end a file there is the drain phase and
/// nothing else; where the file has ended there is nothing at all.
pub proof fn lemma_walk_padding(v: WalkView, padding: nat)
    ensures
        v.walk_slice(zero_bytes(padding)) == (if padding == 0 {
            Ok(v)
        } else {
            v.drain()
        }),
{
    let bytes = zero_bytes(padding);
    lemma_walk_slice_unfold(v, bytes);
    lemma_walk_step_unfold(v, bytes);
    crate::block::lemma_read_block_zeros(padding);
}

/// The drain phase does nothing where no block waits for the goal.
pub proof fn lemma_drain_nothing(v: WalkView)
    requires
        !v.skipped.contains_key(v.goal_prev_hash),
    ensures
        v.drain() == Ok::<WalkView, ParseError>(v),
{
}

/// The drain phase with one child waiting: the block held back and the
/// child are visited, one after the other, and the hash of the child is
/// the goal.
pub proof fn lemma_drain_one_child(v: WalkView, last: Seq<u8>, child: Seq<u8>)
    requires
        v.skipped.dom().finite(),
        v.last_block == Some(last),
        v.skipped.contains_key(v.goal_prev_hash),
        v.skipped[v.goal_prev_hash] == child,
        !v.skipped.remove(v.goal_prev_hash).contains_key(cur_of(child)),
        spec_block_transactions(last) is Ok,
        spec_block_transactions(child) is Ok,
    ensures
        v.drain() == Ok::<WalkView, ParseError>(
            WalkView {
                goal_prev_hash: cur_of(child),
                last_block: None,
                height: v.height + 2,
                skipped: v.skipped.remove(v.goal_prev_hash),
                emitted: v.emitted.push((last, v.height)).push((child, v.height + 1)),
            },
        ),
{
    let visited_last = v.emit(last)->Ok_0;
    lemma_drain_children_unfold(visited_last);
    let taken = WalkView { skipped: v.skipped.remove(v.goal_prev_hash), ..visited_last };
    let next = WalkView {
        goal_prev_hash: cur_of(child),
        last_block: None,
        ..taken.emit(child)->Ok_0
    };
    lemma_drain_children_unfold(next);
}

/// A block that cites the goal while no block is held back is held back,
/// and nothing is visited.
pub proof fn lemma_place_first(v: WalkView, block: Seq<u8>, rest: Seq<u8>)
    requires
        v.last_block is None,
        prev_of(block) == v.goal_prev_hash,
    ensures
        v.place(block, rest) == Ok::<(WalkView, Seq<u8>), ParseError>(
            (WalkView { goal_prev_hash: cur_of(block), last_block: Some(block), ..v }, rest),
        ),
{
}

/// A block that cites the goal takes the place of the block held back,
/// which is visited at the current height.
pub proof fn lemma_place_next(v: WalkView, last: Seq<u8>, block: Seq<u8>, rest: Seq<u8>)
    requires
        v.last_block == Some(last),
        prev_of(block) == v.goal_prev_hash,
        spec_block_transactions(last) is Ok,
    ensures
        v.place(block, rest) == Ok::<(WalkView, Seq<u8>), ParseError>(
            (
                WalkView {
                    goal_prev_hash: cur_of(block),
                    last_block: Some(block),
                    height: v.height + 1,
                    emitted: v.emitted.push((last, v.height)),
                    ..v
                },
                rest,
            ),
        ),
{
}

/// A block that does not cite the goal and is no second child of the
/// parent of the block held back waits in the side table.
pub proof fn lemma_place_deferred(v: WalkView, block: Seq<u8>, rest: Seq<u8>)
    requires
        prev_of(block) != v.goal_prev_hash,
        !v.splits(block),
    ensures
        v.place(block, rest) == Ok::<(WalkView, Seq<u8>), ParseError>((v.skip(block), rest)),
{
}

/// A split that the next block decides: `second` is a second child of the
/// parent of the block held back, `first`, and the block behind it cites
/// one of the two. If it cites `first`, `first` stays; if it cites
/// `second` and not `first`, `second` takes its place. Both siblings'
/// child waits in the side table, and so does `second`.
pub proof fn lemma_place_split(
    v: WalkView,
    first: Seq<u8>,
    second: Seq<u8>,
    decider: Seq<u8>,
    rest: Seq<u8>,
)
    requires
        v.last_block == Some(first),
        prev_of(second) != v.goal_prev_hash,
        prev_of(second) == prev_of(first),
        80 <= decider.len() <= u32::MAX,
        prev_of(decider) == cur_of(first) || prev_of(decider) == cur_of(second),
    ensures
        v.place(second, block_record(decider) + rest) == Ok::<(WalkView, Seq<u8>), ParseError>(
            (
                if prev_of(decider) == cur_of(first) {
                    v.skip(second).skip(decider)
                } else {
                    WalkView {
                        goal_prev_hash: cur_of(second),
                        last_block: Some(second),
                        ..v.skip(second).skip(decider)
                    }
                },
                rest,
            ),
        ),
{
    crate::block::lemma_read_block_record(decider, rest);
    lemma_split_determinism(
        v.skip(second),
        first,
        second,
        block_record(decider) + rest,
        decider,
        rest,
    );
}

/// The traversal of two files is that of the first and then, from where
/// it ended, that of the second.
pub proof fn lemma_walk_two_files(v: WalkView, first: Seq<u8>, second: Seq<u8>)
    ensures
        v.walk_files(seq![first, second]) == (match v.walk_slice(first) {
            Err(e) => Err(e),
            Ok(next) => next.walk_slice(second),
        }),
        v.walk_files(seq![first]) == v.walk_slice(first),
{
    reveal_with_fuel(WalkView::walk_files, 3);
    assert(seq![first, second].skip(1) =~= seq![second]);
    assert(seq![second].skip(1) =~= Seq::<Seq<u8>>::empty());
    assert(seq![first].skip(1) =~= Seq::<Seq<u8>>::empty());
}

/// A linear chain: of a file that holds a genesis block, its child and
/// its grandchild in this order, the genesis block is visited at height 0
/// and the child at height 1; the grandchild is held back, and its hash is
/// the goal.
#[verifier::spinoff_prover]
#[verifier::rlimit(60)]
pub proof fn lemma_linear_chain(
    genesis: Seq<u8>,
    block1: Seq<u8>,
    block2: Seq<u8>,
    padding: nat,
    file: Seq<u8>,
)
    requires
        80 <= genesis.len() <= u32::MAX,
        80 <= block1.len() <= u32::MAX,
        80 <= block2.len() <= u32::MAX,
        file == block_record(genesis) + (block_record(block1) + (block_record(block2)
            + zero_bytes(padding))),
        prev_of(genesis) == hash::zero_hash(),
        prev_of(block1) == cur_of(genesis),
        prev_of(block2) == cur_of(block1),
        spec_block_transactions(genesis) is Ok,
        spec_block_transactions(block1) is Ok,
    ensures
        WalkView::initial().walk_files(seq![file]) is Ok,
        WalkView::initial().walk_files(seq![file])->Ok_0.emitted == seq![
            (genesis, 0nat),
            (block1, 1nat),
        ],
        WalkView::initial().walk_files(seq![file])->Ok_0.height == 2,
        WalkView::initial().walk_files(seq![file])->Ok_0.goal_prev_hash == cur_of(block2),
        WalkView::initial().walk_files(seq![file])->Ok_0.last_block == Some(block2),
{
    let tail = zero_bytes(padding);
    let rest1 = block_record(block2) + tail;
    let rest0 = block_record(block1) + rest1;
    let v0 = WalkView::initial();
    let v1 = WalkView { goal_prev_hash: cur_of(genesis), last_block: Some(genesis), ..v0 };
    let v2 = WalkView {
        goal_prev_hash: cur_of(block1),
        last_block: Some(block1),
        height: 1,
        emitted: v0.emitted.push((genesis, 0nat)),
        ..v0
    };
    let v3 = WalkView {
        goal_prev_hash: cur_of(block2),
        last_block: Some(block2),
        height: 2,
        emitted: v2.emitted.push((block1, 1nat)),
        ..v0
    };
    assert(v0.walk_slice(file) == v1.walk_slice(rest0)) by {
        crate::block::lemma_record_len(block1);
        lemma_walk_record(v0, genesis, rest0);
        lemma_drain_nothing(v0);
        lemma_place_first(v0, genesis, rest0);
    }
    assert(v1.walk_slice(rest0) == v2.walk_slice(rest1)) by {
        crate::block::lemma_record_len(block2);
        lemma_walk_record(v1, block1, rest1);
        lemma_drain_nothing(v1);
        lemma_place_next(v1, genesis, block1, rest1);
    }
    assert(v2.walk_slice(rest1) == v3.walk_slice(tail)) by {
        lemma_walk_record(v2, block2, tail);
        lemma_drain_nothing(v2);
        lemma_place_next(v2, block1, block2, tail);
    }
    assert(v3.walk_slice(tail) == Ok::<WalkView, ParseError>(v3)) by {
        lemma_walk_padding(v3, padding);
        lemma_drain_nothing(v3);
    }
    lemma_walk_two_files(v0, file, file);
    assert(v3.emitted =~= seq![(genesis, 0nat), (block1, 1nat)]);
}

/// Deferral across files: the first file holds a genesis block and its
/// grandchild, the second the child and the great-grandchild. The
/// grandchild waits until the child has come in the second file; genesis,
/// child and grandchild are visited at the heights 0, 1 and 2, and the
/// great-grandchild is held back. The hash of the child must differ from
/// that of the genesis block and from the zero hash.
#[verifier::spinoff_prover]
#[verifier::rlimit(60)]
pub proof fn lemma_deferred_across_files(
    genesis: Seq<u8>,
    block1: Seq<u8>,
    block2: Seq<u8>,
    block3: Seq<u8>,
    first: Seq<u8>,
    second: Seq<u8>,
)
    requires
        first == block_record(genesis) + block_record(block2),
        second == block_record(block1) + block_record(block3),
        80 <= genesis.len() <= u32::MAX,
        80 <= block1.len() <= u32::MAX,
        80 <= block2.len() <= u32::MAX,
        80 <= block3.len() <= u32::MAX,
        prev_of(genesis) == hash::zero_hash(),
        prev_of(block1) == cur_of(genesis),
        prev_of(block2) == cur_of(block1),
        prev_of(block3) == cur_of(block2),
        cur_of(block1) != cur_of(genesis),
        cur_of(block1) != hash::zero_hash(),
        spec_block_transactions(genesis) is Ok,
        spec_block_transactions(block1) is Ok,
        spec_block_transactions(block2) is Ok,
    ensures
        WalkView::initial().walk_files(seq![first, second]) is Ok,
        WalkView::initial().walk_files(seq![first, second])->Ok_0.emitted == seq![
            (genesis, 0nat),
            (block1, 1nat),
            (block2, 2nat),
        ],
        WalkView::initial().walk_files(seq![first, second])->Ok_0.height == 3,
        WalkView::initial().walk_files(seq![first, second])->Ok_0.goal_prev_hash == cur_of(block3),
        WalkView::initial().walk_files(seq![first, second])->Ok_0.last_block == Some(block3),
{
    let none = Seq::<u8>::empty();
    let rest_first = block_record(block2) + none;
    let rest_second = block_record(block3) + none;
    assert(first == block_record(genesis) + rest_first && second == block_record(block1)
        + rest_second) by {
        assert(rest_first =~= block_record(block2));
        assert(rest_second =~= block_record(block3));
    }
    let v0 = WalkView::initial();
    let v1 = WalkView { goal_prev_hash: cur_of(genesis), last_block: Some(genesis), ..v0 };
    let v2 = v1.skip(block2);
    let v3 = WalkView {
        goal_prev_hash: cur_of(block1),
        last_block: Some(block1),
        height: 1,
        emitted: v0.emitted.push((genesis, 0nat)),
        ..v2
    };
    let v4 = WalkView {
        goal_prev_hash: cur_of(block2),
        last_block: None,
        height: 3,
        skipped: v3.skipped.remove(cur_of(block1)),
        emitted: v3.emitted.push((block1, 1nat)).push((block2, 2nat)),
    };
    let v5 = WalkView { goal_prev_hash: cur_of(block3), last_block: Some(block3), ..v4 };
    assert(none =~= zero_bytes(0));
    assert(v0.walk_slice(first) == v1.walk_slice(rest_first)) by {
        crate::block::lemma_record_len(block2);
        lemma_walk_record(v0, genesis, rest_first);
        lemma_drain_nothing(v0);
        lemma_place_first(v0, genesis, rest_first);
    }
    assert(v1.walk_slice(rest_first) == Ok::<WalkView, ParseError>(v2)) by {
        lemma_walk_record(v1, block2, none);
        lemma_drain_nothing(v1);
        lemma_place_deferred(v1, block2, none);
        lemma_walk_padding(v2, 0);
    }
    assert(!v2.skipped.contains_key(cur_of(genesis)));
    assert(v2.walk_slice(second) == v3.walk_slice(rest_second)) by {
        crate::block::lemma_record_len(block3);
        lemma_walk_record(v2, block1, rest_second);
        lemma_drain_nothing(v2);
        lemma_place_next(v2, genesis, block1, rest_second);
    }
    assert(v3.walk_slice(rest_second) == Ok::<WalkView, ParseError>(v5)) by {
        lemma_walk_record(v3, block3, none);
        assert(v3.skipped.dom() =~= Set::<hash::Hash>::empty().insert(cur_of(block1)));
        assert(v3.skipped.remove(cur_of(block1)) =~= Map::<hash::Hash, Seq<u8>>::empty());
        lemma_drain_one_child(v3, block1, block2);
        lemma_place_first(v4, block3, none);
        lemma_walk_padding(v5, 0);
    }
    lemma_walk_two_files(v0, first, second);
    assert(v4.emitted =~= seq![(genesis, 0nat), (block1, 1nat), (block2, 2nat)]);
}

/// The end of a two-way split: the block held back, `winner`, has a
/// child `c` waiting, and its sibling `b` waits under the hash of their
/// parent. At the next round `winner` and `c` are visited, and `b` goes
/// on waiting.
proof fn lemma_split_drained(v: WalkView, parent_hash: hash::Hash, winner: Seq<u8>, b: Seq<u8>, c: Seq<u8>)
    requires
        v.last_block == Some(winner),
        v.goal_prev_hash == cur_of(winner),
        v.skipped == Map::<hash::Hash, Seq<u8>>::empty().insert(parent_hash, b).insert(
            cur_of(winner),
            c,
        ),
        cur_of(winner) != parent_hash,
        cur_of(c) != parent_hash,
        cur_of(c) != cur_of(winner),
        spec_block_transactions(winner) is Ok,
        spec_block_transactions(c) is Ok,
    ensures
        v.drain() is Ok,
        v.drain()->Ok_0.emitted == v.emitted.push((winner, v.height)).push((c, v.height + 1)),
        v.drain()->Ok_0.height == v.height + 2,
        v.drain()->Ok_0.goal_prev_hash == cur_of(c),
        v.drain()->Ok_0.last_block is None,
        v.drain()->Ok_0.skipped.contains_key(parent_hash),
        v.drain()->Ok_0.skipped[parent_hash] == b,
{
    assert(v.skipped.dom() =~= Set::<hash::Hash>::empty().insert(parent_hash).insert(
        cur_of(winner),
    ));
    lemma_drain_one_child(v, winner, c);
}

/// A two-way split that the first child wins: behind a parent come two of
/// its children, `a` and then `b`, and then a block `c` that cites `a`,
/// and the file goes on. Parent, `a` and `c` are visited at the heights
/// 0, 1 and 2; `b` is not visited and waits in the side table. The hashes
/// of the parent, of `a` and of `c` must differ from one another.
#[verifier::spinoff_prover]
#[verifier::rlimit(60)]
pub proof fn lemma_split_first_wins(
    parent: Seq<u8>,
    a: Seq<u8>,
    b: Seq<u8>,
    c: Seq<u8>,
    padding: nat,
    file: Seq<u8>,
)
    requires
        file == block_record(parent) + (block_record(a) + (block_record(b) + (block_record(c)
            + zero_bytes(padding)))),
        80 <= parent.len() <= u32::MAX,
        80 <= a.len() <= u32::MAX,
        80 <= b.len() <= u32::MAX,
        80 <= c.len() <= u32::MAX,
        padding > 0,
        prev_of(parent) == hash::zero_hash(),
        prev_of(a) == cur_of(parent),
        prev_of(b) == cur_of(parent),
        prev_of(c) == cur_of(a),
        cur_of(a) != cur_of(parent),
        cur_of(c) != cur_of(parent),
        cur_of(c) != cur_of(a),
        spec_block_transactions(parent) is Ok,
        spec_block_transactions(a) is Ok,
        spec_block_transactions(c) is Ok,
    ensures
        WalkView::initial().walk_files(seq![file]) is Ok,
        WalkView::initial().walk_files(seq![file])->Ok_0.emitted == seq![
            (parent, 0nat),
            (a, 1nat),
            (c, 2nat),
        ],
        WalkView::initial().walk_files(seq![file])->Ok_0.height == 3,
        WalkView::initial().walk_files(seq![file])->Ok_0.goal_prev_hash == cur_of(c),
        WalkView::initial().walk_files(seq![file])->Ok_0.last_block is None,
        WalkView::initial().walk_files(seq![file])->Ok_0.skipped.contains_key(cur_of(parent)),
        WalkView::initial().walk_files(seq![file])->Ok_0.skipped[cur_of(parent)] == b,
{
    let tail = zero_bytes(padding);
    let rest2 = block_record(c) + tail;
    let rest1 = block_record(b) + rest2;
    let rest0 = block_record(a) + rest1;
    let v0 = WalkView::initial();
    let v1 = WalkView { goal_prev_hash: cur_of(parent), last_block: Some(parent), ..v0 };
    let v2 = WalkView {
        goal_prev_hash: cur_of(a),
        last_block: Some(a),
        height: 1,
        emitted: v0.emitted.push((parent, 0nat)),
        ..v0
    };
    let v3 = v2.skip(b).skip(c);
    assert(v0.walk_slice(file) == v1.walk_slice(rest0)) by {
        crate::block::lemma_record_len(a);
        lemma_walk_record(v0, parent, rest0);
        lemma_drain_nothing(v0);
        lemma_place_first(v0, parent, rest0);
    }
    assert(v1.walk_slice(rest0) == v2.walk_slice(rest1)) by {
        crate::block::lemma_record_len(b);
        lemma_walk_record(v1, a, rest1);
        lemma_drain_nothing(v1);
        lemma_place_next(v1, parent, a, rest1);
    }
    assert(v2.walk_slice(rest1) == v3.walk_slice(tail)) by {
        lemma_walk_record(v2, b, rest2);
        lemma_drain_nothing(v2);
        lemma_place_split(v2, a, b, c, tail);
    }
    assert(v3.walk_slice(tail) == v3.drain()) by {
        lemma_walk_padding(v3, padding);
    }
    lemma_split_drained(v3, cur_of(parent), a, b, c);
    lemma_walk_two_files(v0, file, file);
    assert(v3.drain()->Ok_0.emitted =~= seq![(parent, 0nat), (a, 1nat), (c, 2nat)]);
}

/// A two-way split that the second child wins: behind a parent come two
/// of its children, `a` and then `b`, and then a block `c` that cites `b`,
/// and the file goes on. Parent, `b` and `c` are visited at the heights
/// 0, 1 and 2; `a`, though it came before `b`, is not visited. The hashes
/// of the parent, of `a`, of `b` and of `c` must differ from one another.
#[verifier::spinoff_prover]
#[verifier::rlimit(60)]
pub proof fn lemma_split_second_wins(
    parent: Seq<u8>,
    a: Seq<u8>,
    b: Seq<u8>,
    c: Seq<u8>,
    padding: nat,
    file: Seq<u8>,
)
    requires
        file == block_record(parent) + (block_record(a) + (block_record(b) + (block_record(c)
            + zero_bytes(padding)))),
        80 <= parent.len() <= u32::MAX,
        80 <= a.len() <= u32::MAX,
        80 <= b.len() <= u32::MAX,
        80 <= c.len() <= u32::MAX,
        padding > 0,
        prev_of(parent) == hash::zero_hash(),
        prev_of(a) == cur_of(parent),
        prev_of(b) == cur_of(parent),
        prev_of(c) == cur_of(b),
        cur_of(a) != cur_of(parent),
        cur_of(b) != cur_of(parent),
        cur_of(b) != cur_of(a),
        cur_of(c) != cur_of(parent),
        cur_of(c) != cur_of(b),
        spec_block_transactions(parent) is Ok,
        spec_block_transactions(b) is Ok,
        spec_block_transactions(c) is Ok,
    ensures
        WalkView::initial().walk_files(seq![file]) is Ok,
        WalkView::initial().walk_files(seq![file])->Ok_0.emitted == seq![
            (parent, 0nat),
            (b, 1nat),
            (c, 2nat),
        ],
        WalkView::initial().walk_files(seq![file])->Ok_0.height == 3,
        WalkView::initial().walk_files(seq![file])->Ok_0.goal_prev_hash == cur_of(c),
        WalkView::initial().walk_files(seq![file])->Ok_0.last_block is None,
{
    let tail = zero_bytes(padding);
    let rest2 = block_record(c) + tail;
    let rest1 = block_record(b) + rest2;
    let rest0 = block_record(a) + rest1;
    let v0 = WalkView::initial();
    let v1 = WalkView { goal_prev_hash: cur_of(parent), last_block: Some(parent), ..v0 };
    let v2 = WalkView {
        goal_prev_hash: cur_of(a),
        last_block: Some(a),
        height: 1,
        emitted: v0.emitted.push((parent, 0nat)),
        ..v0
    };
    let v3 = WalkView {
        goal_prev_hash: cur_of(b),
        last_block: Some(b),
        ..v2.skip(b).skip(c)
    };
    assert(v0.walk_slice(file) == v1.walk_slice(rest0)) by {
        crate::block::lemma_record_len(a);
        lemma_walk_record(v0, parent, rest0);
        lemma_drain_nothing(v0);
        lemma_place_first(v0, parent, rest0);
    }
    assert(v1.walk_slice(rest0) == v2.walk_slice(rest1)) by {
        crate::block::lemma_record_len(b);
        lemma_walk_record(v1, a, rest1);
        lemma_drain_nothing(v1);
        lemma_place_next(v1, parent, a, rest1);
    }
    assert(v2.walk_slice(rest1) == v3.walk_slice(tail)) by {
        lemma_walk_record(v2, b, rest2);
        lemma_drain_nothing(v2);
        lemma_place_split(v2, a, b, c, tail);
    }
    assert(v3.walk_slice(tail) == v3.drain()) by {
        lemma_walk_padding(v3, padding);
    }
    lemma_split_drained(v3, cur_of(parent), b, b, c);
    lemma_walk_two_files(v0, file, file);
    assert(v3.drain()->Ok_0.emitted =~= seq![(parent, 0nat), (b, 1nat), (c, 2nat)]);
}

} // verus!
