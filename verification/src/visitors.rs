//! Visitors of a block chain.
//!
//! A traversal hands every block, transaction, input and output to a
//! visitor, in chain order. The visitor chooses what it keeps for a block,
//! for a transaction and for an output; what it keeps for an output comes
//! back to it when the output is spent.

pub mod clusterizer;
pub mod trace;
pub mod union_find;

use crate::block::Block;
use crate::error::EofError;
use crate::transactions::{InputView, OutputView, TransactionView};
use crate::transactions::{Transaction, TransactionInput, TransactionOutput};
use vstd::prelude::*;

verus! {

/// One call of a visitor, with what was handed to it and, for an output,
/// what it returned. `T` is the visitor's `OutputItem`.
pub enum Event<T> {
    /// `visit_block_begin` with the block and its height.
    BlockBegin { block: Seq<u8>, height: u64 },
    /// `visit_transaction_begin`.
    TransactionBegin,
    /// `visit_transaction_input` with the input and what the table of
    /// outputs held for the output that it spends.
    Input { input: InputView, output_item: Option<T> },
    /// `visit_transaction_output` with the output, and what it returned.
    Output { output: OutputView, item: Option<T> },
    /// `visit_transaction_end` with the transaction.
    TransactionEnd { tx: TransactionView },
    /// `visit_block_end` with the block and its height.
    BlockEnd { block: Seq<u8>, height: u64 },
}

/// The callbacks of a traversal. For each block, in ascending height:
/// `visit_block_begin`; for each of its transactions
/// `visit_transaction_begin`, `visit_transaction_input` for each input,
/// `visit_transaction_output` for each output, `visit_transaction_end`;
/// then `visit_block_end`.
///
/// A visitor keeps a log of the calls that it receives, `trace`, and every
/// callback adds its event to it. The walks say in terms of this log which
/// calls they make. An implementation that is verified holds the log as
/// ghost state; the body given here serves implementations that are not.
pub trait BlockChainVisitor<'a>: Sized {
    /// What the visitor keeps while a block is visited.
    type BlockItem;

    /// What the visitor keeps while a transaction is visited.
    type TransactionItem;

    /// What the visitor keeps for an output until it is spent.
    type OutputItem;

    /// What the visitor hands out when the traversal is over.
    type DoneItem;

    /// The calls that the visitor has received, in their order.
    open spec fn trace(&self) -> Seq<Event<Self::OutputItem>> {
        Seq::empty()
    }

    fn new() -> (visitor: Self)
        ensures
            visitor.trace() == Seq::<Event<Self::OutputItem>>::empty(),
    ;

    fn visit_block_begin(&mut self, block: Block<'a>, height: u64) -> (block_item: Self::BlockItem)
        ensures
            final(self).trace() == old(self).trace().push(
                Event::BlockBegin { block: block@, height },
            ),
    ;

    fn visit_block_end(&mut self, block: Block<'a>, height: u64, block_item: Self::BlockItem)
        ensures
            final(self).trace() == old(self).trace().push(Event::BlockEnd { block: block@, height }),
    ;

    fn visit_transaction_begin(&mut self, block_item: &mut Self::BlockItem) -> (tx_item:
        Self::TransactionItem)
        ensures
            final(self).trace() == old(self).trace().push(Event::TransactionBegin),
    ;

    /// `output_item` is what `visit_transaction_output` returned for the
    /// output that `txin` spends, if it returned something.
    fn visit_transaction_input(
        &mut self,
        txin: TransactionInput<'a>,
        block_item: &mut Self::BlockItem,
        tx_item: &mut Self::TransactionItem,
        output_item: Option<Self::OutputItem>,
    )
        ensures
            final(self).trace() == old(self).trace().push(
                Event::Input { input: txin@, output_item },
            ),
    ;

    fn visit_transaction_output(
        &mut self,
        txout: TransactionOutput<'a>,
        block_item: &mut Self::BlockItem,
        tx_item: &mut Self::TransactionItem,
    ) -> (item: Option<Self::OutputItem>)
        ensures
            final(self).trace() == old(self).trace().push(Event::Output { output: txout@, item }),
    ;

    fn visit_transaction_end(
        &mut self,
        tx: Transaction<'a>,
        block_item: &mut Self::BlockItem,
        tx_item: Self::TransactionItem,
    )
        ensures
            final(self).trace() == old(self).trace().push(Event::TransactionEnd { tx: tx@ }),
    ;

    fn done(&mut self) -> (r: Result<Self::DoneItem, EofError>)
        ensures
            final(self).trace() == old(self).trace(),
    ;
}

} // verus!
