//! Framing of blocks in a block file.
//!
//! A file is a run of records, each the network magic, a length and that
//! many bytes of block, followed by zero bytes up to the end of the file.

use crate::buffer_operations::{le_bytes, le_value};
use crate::buffer_operations::{lemma_le_prefix, lemma_le_value_bound, lemma_pow256_values};
use crate::buffer_operations::{read_slice, read_u32, spec_read_slice, spec_read_u32};
use crate::buffer_operations::spec_read_var_int;
use crate::error::ParseError;
use crate::error::EofError;
use crate::header::BlockHeader;
use crate::output_items::OutputItems;
use crate::transactions::{kept, made_by, spec_block_transactions, spent_in};
use crate::visitors::trace::{is_block_events, lemma_replay_block, lemma_txs_events_len};
use crate::visitors::trace::{new_events, replay, settled};
use crate::transactions::{TransactionView, Transactions};
use crate::visitors::BlockChainVisitor;
use vstd::prelude::*;
use vstd::slice::slice_subrange;

verus! {

/// The magic number in front of every block of Bitcoin's main network.
pub const BLOCK_MAGIC: u32 = 0xd9b4bef9;

/// `s` without its leading zero bytes.
pub open spec fn skip_zeros(s: Seq<u8>) -> Seq<u8>
    decreases s.len(),
{
    if s.len() > 0 && s[0] == 0 {
        skip_zeros(s.skip(1))
    } else {
        s
    }
}

/// What `Block::read` yields on `s`: the bytes of the next block and what
/// follows them, `None` where no block is left, or the error.
#[verifier::opaque]
pub open spec fn spec_read_block(s: Seq<u8>) -> Result<Option<(Seq<u8>, Seq<u8>)>, ParseError> {
    let t = skip_zeros(s);
    if t.len() == 0 {
        Ok(None)
    } else {
        match spec_read_u32(t) {
            None => Err(ParseError::Eof),
            Some((magic, after_magic)) => if magic == 0 {
                Ok(None)
            } else if magic == BLOCK_MAGIC {
                match spec_read_u32(after_magic) {
                    None => Err(ParseError::Eof),
                    Some((len, after_len)) => if len < 80 {
                        Err(ParseError::Eof)
                    } else {
                        match spec_read_slice(after_len, len as nat) {
                            None => Err(ParseError::Eof),
                            Some((block, rest)) => Ok(Some((block, rest))),
                        }
                    },
                }
            } else {
                Err(ParseError::Invalid)
            },
        }
    }
}

/// All the blocks that repeated reads find in `s`, in file order.
pub open spec fn spec_read_blocks(s: Seq<u8>) -> Result<Seq<Seq<u8>>, ParseError>
    decreases s.len(),
{
    match spec_read_block(s) {
        Err(e) => Err(e),
        Ok(None) => Ok(Seq::empty()),
        Ok(Some((block, rest))) => if rest.len() < s.len() {
            match spec_read_blocks(rest) {
                Err(e) => Err(e),
                Ok(blocks) => Ok(seq![block] + blocks),
            }
        } else {
            Ok(seq![block])
        },
    }
}

/// The record that holds `block` in a block file.
pub open spec fn block_record(block: Seq<u8>) -> Seq<u8> {
    le_bytes(BLOCK_MAGIC as nat, 4) + le_bytes(block.len(), 4) + block
}

/// The records of `blocks`, one after the other.
pub open spec fn block_records(blocks: Seq<Seq<u8>>) -> Seq<u8>
    decreases blocks.len(),
{
    if blocks.len() == 0 {
        Seq::empty()
    } else {
        block_record(blocks[0]) + block_records(blocks.skip(1))
    }
}

/// `n` zero bytes.
pub open spec fn zero_bytes(n: nat) -> Seq<u8> {
    Seq::new(n, |i: int| 0u8)
}

/// What is left of `s` after leading zeros is a suffix of `s` that is
/// empty or starts with a byte that is not zero.
pub proof fn lemma_skip_zeros(s: Seq<u8>)
    ensures
        skip_zeros(s).len() <= s.len(),
        skip_zeros(s) == s.skip(s.len() - skip_zeros(s).len()),
        skip_zeros(s).len() > 0 ==> skip_zeros(s)[0] != 0,
        forall|i: int| 0 <= i < s.len() - skip_zeros(s).len() ==> s[i] == 0,
    decreases s.len(),
{
    if s.len() > 0 && s[0] == 0 {
        let t = s.skip(1);
        lemma_skip_zeros(t);
        let k = t.len() - skip_zeros(t).len();
        assert(t.skip(k) =~= s.skip(k + 1));
        assert forall|i: int| 0 <= i < s.len() - skip_zeros(s).len() implies s[i] == 0 by {
            if i > 0 {
                assert(s[i] == t[i - 1]);
            }
        }
    } else {
        assert(s.skip(0) =~= s);
    }
}

/// A little-endian number whose first byte is not zero is not zero.
proof fn lemma_le_value_nonzero(b: Seq<u8>)
    requires
        b.len() > 0,
        b[0] != 0,
    ensures
        le_value(b) > 0,
{
}

/// A successful read of a block consumes at least 88 bytes, and the block
/// is at least 80 bytes long.
pub proof fn lemma_read_block_consumes(s: Seq<u8>)
    ensures
        match spec_read_block(s) {
            Ok(Some((block, rest))) => block.len() >= 80 && block.len() <= u32::MAX && rest.len()
                + block.len() + 8 <= s.len() && rest == s.skip(s.len() - rest.len()),
            _ => true,
        },
{
    reveal(spec_read_block);
    lemma_skip_zeros(s);
    let t = skip_zeros(s);
    match spec_read_block(s) {
        Ok(Some((block, rest))) => {
            let after_len = t.skip(4).skip(4);
            let len = spec_read_u32(t.skip(4)).unwrap().0;
            assert(rest == after_len.skip(len as int));
            assert(rest =~= s.skip(s.len() - rest.len()));
        },
        _ => {},
    }
}

/// A read yields no block exactly when only zero bytes are left.
pub proof fn lemma_read_block_none(s: Seq<u8>)
    ensures
        spec_read_block(s) == Ok::<Option<(Seq<u8>, Seq<u8>)>, ParseError>(None) <==> skip_zeros(
            s,
        ).len() == 0,
{
    reveal(spec_read_block);
    lemma_skip_zeros(s);
    lemma_pow256_values();
    let t = skip_zeros(s);
    if t.len() >= 4 {
        lemma_le_value_nonzero(t.take(4));
        lemma_le_value_bound(t.take(4));
    }
}

/// A borrowed view over the bytes of one block: an 80-byte header, then
/// the transactions.
#[derive(PartialEq, Eq, Debug, Clone, Copy)]
pub struct Block<'a>(&'a [u8]);

impl<'a> View for Block<'a> {
    type V = Seq<u8>;

    closed spec fn view(&self) -> Seq<u8> {
        self.0@
    }
}

impl<'a> Block<'a> {
    #[verifier::type_invariant]
    spec fn well_formed(self) -> bool {
        self.0@.len() >= 80
    }

    /// Reads the next block off the cursor: skips zero bytes, then expects
    /// the magic number, a length of at least 80 and that many bytes.
    /// `None` means that the cursor held nothing but zero bytes; it is
    /// then empty.
    pub fn read(slice: &mut &'a [u8]) -> (r: Result<Option<Block<'a>>, ParseError>)
        ensures
            match r {
                Ok(Some(block)) => spec_read_block(old(slice)@) == Ok::<
                    Option<(Seq<u8>, Seq<u8>)>,
                    ParseError,
                >(Some((block@, final(slice)@))),
                Ok(None) => spec_read_block(old(slice)@) == Ok::<
                    Option<(Seq<u8>, Seq<u8>)>,
                    ParseError,
                >(None) && final(slice)@.len() == 0,
                Err(e) => spec_read_block(old(slice)@) == Err::<
                    Option<(Seq<u8>, Seq<u8>)>,
                    ParseError,
                >(e),
            },
    {
        proof {
            reveal(spec_read_block);
        }
        while slice.len() > 0 && slice[0] == 0
            invariant
                skip_zeros(slice@) == skip_zeros(old(slice)@),
            decreases slice@.len(),
        {
            *slice = slice_subrange(*slice, 1, slice.len());
        }
        if slice.len() == 0 {
            return Ok(None);
        }
        proof {
            lemma_read_block_none(old(slice)@);
        }
        let block_magic: u32 = match read_u32(slice) {
            Ok(m) => m,
            Err(_) => {
                return Err(ParseError::Eof);
            },
        };
        if block_magic == 0 {
            Ok(None)
        } else if block_magic == BLOCK_MAGIC {
            let block_len: u32 = match read_u32(slice) {
                Ok(l) => l,
                Err(_) => {
                    return Err(ParseError::Eof);
                },
            };
            if block_len < 80 {
                Err(ParseError::Eof)
            } else {
                match read_slice(slice, block_len as usize) {
                    Ok(data) => Ok(Some(Block(data))),
                    Err(_) => Err(ParseError::Eof),
                }
            }
        } else {
            Err(ParseError::Invalid)
        }
    }

    /// The header: the first 80 bytes of the block.
    pub fn header(&self) -> (h: BlockHeader<'a>)
        ensures
            h@ == self@.subrange(0, 80),
    {
        proof {
            use_type_invariant(self);
        }
        BlockHeader::new(slice_subrange(self.0, 0, 80))
    }

    /// The hash of the parent block, as the header cites it.
    pub fn prev_hash(&self) -> (h: crate::hash::Hash)
        ensures
            h == crate::header::header_prev_hash(self@),
    {
        let header = self.header();
        proof {
            use_type_invariant(self);
            assert(header@.subrange(4, 36) =~= self@.subrange(4, 36));
        }
        header.prev_hash()
    }

    /// The hash of the block: SHA-256 applied twice to its header.
    pub fn cur_hash(&self) -> (h: crate::hash::Hash)
        ensures
            h == crate::header::header_cur_hash(self@),
    {
        let header = self.header();
        proof {
            use_type_invariant(self);
            assert(header@.subrange(0, 80) =~= self@.subrange(0, 80));
        }
        header.cur_hash()
    }

    /// The transactions of the block, which start behind the header.
    pub fn transactions(&self) -> (r: Result<Transactions<'a>, EofError>)
        ensures
            match r {
                Ok(txs) => spec_read_var_int(self@.skip(80)) == Some((txs.count, txs.slice@))
                    && txs.parsed() == spec_block_transactions(self@),
                Err(_) => spec_read_var_int(self@.skip(80)).is_none() && spec_block_transactions(
                    self@,
                ) == Err::<Seq<TransactionView>, ParseError>(ParseError::Eof),
            },
    {
        proof {
            use_type_invariant(self);
        }
        Transactions::new(slice_subrange(self.0, 80, self.0.len()))
    }

    /// Hands the block to the visitor at height `height`: its begin, its
    /// transactions in their order, and its end. It fails exactly when the
    /// transactions of the block cannot be read, with that error, and then
    /// the end of the block is not visited.
    ///
    /// On success the visitor has received exactly the calls of the block,
    /// in their order, and the table is the one that they give. In
    /// particular an output that is not one of the block's own is in the
    /// table afterwards exactly if it was before and no transaction of the
    /// block spent it.
    pub fn walk<V: BlockChainVisitor<'a>>(
        &self,
        visitor: &mut V,
        height: u64,
        output_items: &mut OutputItems<V::OutputItem>,
    ) -> (r: Result<(), ParseError>)
        requires
            old(output_items).wf(),
        ensures
            final(output_items).wf(),
            match r {
                Ok(_) => {
                    &&& spec_block_transactions(self@) is Ok
                    &&& old(visitor).trace().is_prefix_of(final(visitor).trace())
                    &&& is_block_events(
                        new_events(old(visitor).trace(), final(visitor).trace()),
                        self@,
                        height,
                        spec_block_transactions(self@)->Ok_0,
                        old(output_items)@,
                    )
                    &&& replay(
                        settled(old(output_items)@),
                        new_events(old(visitor).trace(), final(visitor).trace()),
                    ) == settled(final(output_items)@)
                    &&& kept(
                        old(output_items)@,
                        final(output_items)@,
                        spec_block_transactions(self@)->Ok_0,
                    )
                    &&& forall|p: (crate::hash::Hash, nat)|
                        !made_by(spec_block_transactions(self@)->Ok_0, p) ==> (#[trigger] final(output_items)@.contains_key(p) <==> old(output_items)@.contains_key(p) && !spent_in(
                            spec_block_transactions(self@)->Ok_0,
                            p,
                        ))
                    &&& forall|p: (crate::hash::Hash, nat)|
                        !made_by(spec_block_transactions(self@)->Ok_0, p) && #[trigger] final(output_items)@.contains_key(p) ==> final(output_items)@[p] == old(output_items)@[p]
                },
                Err(e) => spec_block_transactions(self@) == Err::<
                    Seq<TransactionView>,
                    ParseError,
                >(e),
            },
    {
        let ghost start = visitor.trace();
        let ghost table = output_items@;
        let mut block_item = visitor.visit_block_begin(*self, height);
        let transactions = match self.transactions() {
            Ok(t) => t,
            Err(_) => {
                return Err(ParseError::Eof);
            },
        };
        let ghost begun = visitor.trace();
        match transactions.walk(visitor, &mut block_item, output_items) {
            Ok(_) => {},
            Err(e) => {
                return Err(e);
            },
        }
        let ghost walked = visitor.trace();
        visitor.visit_block_end(*self, height, block_item);
        proof {
            let txs = spec_block_transactions(self@)->Ok_0;
            let middle = new_events(begun, walked);
            let seg = new_events(start, visitor.trace());
            reveal(is_block_events);
            assert(walked =~= begun + middle);
            assert(seg.subrange(1, seg.len() - 1) =~= middle);
            lemma_txs_events_len(middle, txs, table);
            lemma_replay_block(settled(table), seg);
        }
        Ok(())
    }

    /// The bytes of the block.
    pub fn as_bytes(&self) -> (b: &'a [u8])
        ensures
            b@ == self@,
            b@.len() >= 80,
    {
        proof {
            use_type_invariant(self);
        }
        self.0
    }
}

/// Reading at a record finds its block and stops just behind it.
pub proof fn lemma_read_block_record(block: Seq<u8>, rest: Seq<u8>)
    requires
        80 <= block.len() <= u32::MAX,
    ensures
        spec_read_block(block_record(block) + rest) == Ok::<
            Option<(Seq<u8>, Seq<u8>)>,
            ParseError,
        >(Some((block, rest))),
{
    reveal(spec_read_block);
    lemma_pow256_values();
    let s = block_record(block) + rest;
    let after_magic = le_bytes(block.len(), 4) + (block + rest);
    let after_len = block + rest;
    assert(s =~= le_bytes(BLOCK_MAGIC as nat, 4) + after_magic);
    lemma_le_prefix(BLOCK_MAGIC as nat, 4, after_magic);
    lemma_le_prefix(block.len(), 4, after_len);
    reveal_with_fuel(le_bytes, 2);
    assert(s[0] == 0xf9u8);
    assert(skip_zeros(s) == s);
    assert(after_len.take(block.len() as int) =~= block);
    assert(after_len.skip(block.len() as int) =~= rest);
}

/// Reading at a run of zero bytes finds no block.
pub proof fn lemma_read_block_zeros(n: nat)
    ensures
        spec_read_block(zero_bytes(n)) == Ok::<Option<(Seq<u8>, Seq<u8>)>, ParseError>(None),
        skip_zeros(zero_bytes(n)).len() == 0,
    decreases n,
{
    reveal(spec_read_block);
    if n > 0 {
        lemma_read_block_zeros((n - 1) as nat);
        assert(zero_bytes(n).skip(1) =~= zero_bytes((n - 1) as nat));
    }
}

/// Framing round trip: repeated reads over the records of any blocks,
/// each of 80 bytes or more and short enough for its length field, followed
/// by any number of zero bytes, find exactly those blocks, in order.
pub proof fn lemma_framing_round_trip(blocks: Seq<Seq<u8>>, padding: nat)
    requires
        forall|i: int| 0 <= i < blocks.len() ==> 80 <= #[trigger] blocks[i].len() <= u32::MAX,
    ensures
        spec_read_blocks(block_records(blocks) + zero_bytes(padding)) == Ok::<
            Seq<Seq<u8>>,
            ParseError,
        >(blocks),
    decreases blocks.len(),
{
    let s = block_records(blocks) + zero_bytes(padding);
    if blocks.len() == 0 {
        assert(s =~= zero_bytes(padding));
        lemma_read_block_zeros(padding);
        assert(blocks =~= Seq::<Seq<u8>>::empty());
    } else {
        let first = blocks[0];
        let others = blocks.skip(1);
        let rest = block_records(others) + zero_bytes(padding);
        assert(s == block_record(first) + rest) by {
            lemma_concat_assoc(block_record(first), block_records(others), zero_bytes(padding));
        }
        assert(80 <= first.len() <= u32::MAX);
        lemma_read_block_record(first, rest);
        assert(rest.len() < s.len()) by {
            lemma_record_len(first);
        }
        assert forall|i: int| 0 <= i < others.len() implies 80 <= #[trigger] others[i].len()
            <= u32::MAX by {
            assert(others[i] == blocks[i + 1]);
        }
        lemma_framing_round_trip(others, padding);
        assert(seq![first] + others =~= blocks);
        lemma_read_blocks_step(s, first, rest, others);
    }
}

/// Concatenation is associative.
proof fn lemma_concat_assoc(a: Seq<u8>, b: Seq<u8>, c: Seq<u8>)
    ensures
        (a + b) + c == a + (b + c),
{
    assert((a + b) + c =~= a + (b + c));
}

/// A record is eight bytes longer than its block.
pub proof fn lemma_record_len(block: Seq<u8>)
    ensures
        block_record(block).len() == block.len() + 8,
{
    crate::buffer_operations::lemma_le_bytes_len(BLOCK_MAGIC as nat, 4);
    crate::buffer_operations::lemma_le_bytes_len(block.len(), 4);
}

/// One step of repeated reading.
proof fn lemma_read_blocks_step(s: Seq<u8>, first: Seq<u8>, rest: Seq<u8>, others: Seq<Seq<u8>>)
    requires
        spec_read_block(s) == Ok::<Option<(Seq<u8>, Seq<u8>)>, ParseError>(Some((first, rest))),
        rest.len() < s.len(),
        spec_read_blocks(rest) == Ok::<Seq<Seq<u8>>, ParseError>(others),
    ensures
        spec_read_blocks(s) == Ok::<Seq<Seq<u8>>, ParseError>(seq![first] + others),
{
}

} // verus!
