//! The traversal of a block chain that lies in a run of block files.

use crate::block::Block;
use crate::chain::{cur_of, prev_of, total_len, visited, WalkView};
use crate::chain::{lemma_accept, lemma_drain, lemma_drain_children, lemma_emit, lemma_skip};
use crate::chain::{lemma_drain_children_unfold, lemma_place, lemma_resolve_split_step};
use crate::chain::{lemma_resolve_split_unfold, lemma_walk_slice_unfold, lemma_walk_step};
use crate::chain::{lemma_visited_block, lemma_visited_refl, lemma_visited_trans};
use crate::chain::lemma_walk_step_unfold;
use crate::error::ParseError;
use crate::hash;
use crate::hash_table::HashTable;
use crate::output_items::OutputItems;
use crate::visitors::BlockChainVisitor;
use vstd::prelude::*;

verus! {

/// The most blocks that a traversal can visit: heights are `u64`.
pub const MAX_HEIGHT: u64 = 0xffff_ffff_ffff_ffff;

/// The state of a traversal. It lasts from the first file to the last, so
/// that a block that waits for its parent in one file is visited when the
/// parent turns up in a later one.
pub struct Walker<'a> {
    goal_prev_hash: hash::Hash,
    last_block: Option<Block<'a>>,
    height: u64,
    skipped: HashTable<Block<'a>>,
    emitted: Ghost<Seq<(Seq<u8>, nat)>>,
}

impl<'a> View for Walker<'a> {
    type V = WalkView;

    closed spec fn view(&self) -> WalkView {
        WalkView {
            goal_prev_hash: self.goal_prev_hash,
            last_block: match self.last_block {
                Some(block) => Some(block@),
                None => None,
            },
            height: self.height as nat,
            skipped: Map::new(
                |k: hash::Hash| self.skipped@.contains_key(k),
                |k: hash::Hash| self.skipped@[k]@,
            ),
            emitted: self.emitted@,
        }
    }
}

impl<'a> Walker<'a> {
    /// The invariant of the walker between two steps.
    pub closed spec fn wf(&self) -> bool {
        self.skipped.wf() && self@.chain_wf()
    }

    /// The walker before the first block: it waits for the block that
    /// cites the zero hash, at height zero.
    pub fn new() -> (w: Walker<'a>)
        ensures
            w.wf(),
            w@ == WalkView::initial(),
    {
        let w = Walker {
            goal_prev_hash: hash::zero_hash(),
            last_block: None,
            height: 0,
            skipped: HashTable::new(),
            emitted: Ghost(Seq::empty()),
        };
        proof {
            assert(w@.skipped =~= Map::<hash::Hash, Seq<u8>>::empty());
        }
        w
    }

    /// The height that the next visited block gets: the number of blocks
    /// visited so far.
    pub fn height(&self) -> (h: u64)
        ensures
            h == self@.height,
    {
        self.height
    }

    /// The hash that the next block of the chain must cite.
    pub fn goal_prev_hash(&self) -> (h: hash::Hash)
        ensures
            h == self@.goal_prev_hash,
    {
        self.goal_prev_hash
    }

    /// The block that was accepted last and is not yet visited.
    pub fn last_block(&self) -> (b: Option<Block<'a>>)
        ensures
            match b {
                Some(block) => self@.last_block == Some(block@),
                None => self@.last_block is None,
            },
    {
        self.last_block
    }

    /// Whether a block waits for the parent with the hash `parent`.
    pub fn is_skipped(&self, parent: &hash::Hash) -> (r: bool)
        requires
            self.wf(),
        ensures
            r == self@.skipped.contains_key(*parent),
    {
        self.skipped.contains_key(parent)
    }

    /// The invariant of the side table.
    spec fn table_wf(&self) -> bool {
        self.skipped.wf()
    }

    /// The side table holds finitely many blocks.
    proof fn lemma_table_finite(&self)
        requires
            self.table_wf(),
        ensures
            self@.skipped.dom().finite(),
    {
        self.skipped.lemma_finite();
        assert(self@.skipped.dom() =~= self.skipped@.dom());
    }

    /// Hands `block` to the visitor at the current height, which then
    /// grows by one.
    fn emit<V: BlockChainVisitor<'a>>(
        &mut self,
        block: Block<'a>,
        visitor: &mut V,
        output_items: &mut OutputItems<V::OutputItem>,
    ) -> (r: Result<(), ParseError>)
        requires
            old(self).height < MAX_HEIGHT,
            old(self).table_wf(),
            old(output_items).wf(),
        ensures
            final(output_items).wf(),
            final(self).table_wf(),
            match r {
                Ok(_) => old(self)@.emit(block@) == Ok::<WalkView, ParseError>(final(self)@)
                    && visited(
                        old(output_items)@,
                        final(output_items)@,
                        old(self)@.emitted,
                        final(self)@.emitted,
                        old(visitor).trace(),
                        final(visitor).trace(),
                    ),
                Err(e) => old(self)@.emit(block@) == Err::<WalkView, ParseError>(e),
            },
    {
        match block.walk(visitor, self.height, output_items) {
            Ok(_) => {},
            Err(e) => {
                return Err(e);
            },
        }
        proof {
            lemma_visited_block(
                old(output_items)@,
                output_items@,
                self.emitted@,
                block@,
                self.height,
                old(visitor).trace(),
                visitor.trace(),
            );
            self.emitted@ = self.emitted@.push((block@, self.height as nat));
        }
        self.height = self.height + 1;
        Ok(())
    }

    /// Whether a child of the goal waits in the side table.
    fn has_child(&self) -> (r: bool)
        requires
            self.table_wf(),
        ensures
            r == self@.skipped.contains_key(self@.goal_prev_hash),
    {
        self.skipped.contains_key(&self.goal_prev_hash)
    }

    /// Takes the child of the goal out of the side table.
    fn take_child(&mut self) -> (r: Option<Block<'a>>)
        requires
            old(self).table_wf(),
        ensures
            final(self).table_wf(),
            match r {
                Some(block) => old(self)@.skipped.contains_key(old(self)@.goal_prev_hash) && block@
                    == old(self)@.skipped[old(self)@.goal_prev_hash] && final(self)@ == (WalkView {
                    skipped: old(self)@.skipped.remove(old(self)@.goal_prev_hash),
                    ..old(self)@
                }),
                None => !old(self)@.skipped.contains_key(old(self)@.goal_prev_hash) && final(self)@
                    == old(self)@,
            },
    {
        let r = self.skipped.remove(&self.goal_prev_hash);
        proof {
            if r is Some {
                assert(self@.skipped =~= old(self)@.skipped.remove(old(self)@.goal_prev_hash));
            } else {
                assert(self@.skipped =~= old(self)@.skipped);
            }
        }
        r
    }

    /// Puts `block` into the side table, under the hash of its parent.
    fn skip(&mut self, block: Block<'a>)
        requires
            old(self).table_wf(),
        ensures
            final(self).table_wf(),
            final(self)@ == old(self)@.skip(block@),
    {
        let prev = block.prev_hash();
        self.skipped.insert(prev, block);
        proof {
            assert(self@.skipped =~= old(self)@.skip(block@).skipped);
        }
    }

    /// Makes the hash of the visited block `block` the goal. No block is
    /// held back then.
    fn follow(&mut self, block: Block<'a>)
        requires
            old(self).table_wf(),
        ensures
            final(self).table_wf(),
            final(self)@ == (WalkView {
                goal_prev_hash: cur_of(block@),
                last_block: None,
                ..old(self)@
            }),
    {
        self.goal_prev_hash = block.cur_hash();
        self.last_block = None;
    }

    /// Holds `block` back and makes its hash the goal.
    fn hold_back(&mut self, block: Block<'a>)
        requires
            old(self).table_wf(),
        ensures
            final(self).table_wf(),
            final(self)@ == (WalkView {
                goal_prev_hash: cur_of(block@),
                last_block: Some(block@),
                ..old(self)@
            }),
    {
        self.goal_prev_hash = block.cur_hash();
        self.last_block = Some(block);
    }

    /// The drain phase: where a block waits for the goal, the block held
    /// back is visited, and then the waiting children, one after the other.
    fn drain<V: BlockChainVisitor<'a>>(
        &mut self,
        visitor: &mut V,
        output_items: &mut OutputItems<V::OutputItem>,
    ) -> (r: Result<(), ParseError>)
        requires
            old(self).wf(),
            old(self)@.pending() <= MAX_HEIGHT,
            old(output_items).wf(),
        ensures
            final(output_items).wf(),
            match r {
                Ok(_) => old(self)@.drain() == Ok::<WalkView, ParseError>(final(self)@) && final(self).wf()
                    && visited(
                        old(output_items)@,
                        final(output_items)@,
                        old(self)@.emitted,
                        final(self)@.emitted,
                        old(visitor).trace(),
                        final(visitor).trace(),
                    ),
                Err(e) => old(self)@.drain() == Err::<WalkView, ParseError>(e),
            },
    {
        proof {
            lemma_drain(self@);
            self.lemma_table_finite();
            lemma_visited_refl(output_items@, self@.emitted, visitor.trace());
        }
        if self.has_child() {
            let last: Block<'a> = self.last_block().unwrap();
            match self.emit(last, visitor, output_items) {
                Ok(_) => {},
                Err(e) => {
                    return Err(e);
                },
            }
            proof {
                lemma_emit(old(self)@, last@);
            }
            while self.has_child()
                invariant
                    self.table_wf(),
                    output_items.wf(),
                    self@.draining_wf(),
                    self@.height + self@.skipped.dom().len() <= MAX_HEIGHT,
                    self@.drain_children() == old(self)@.drain(),
                    visited(
                        old(output_items)@,
                        output_items@,
                        old(self)@.emitted,
                        self@.emitted,
                        old(visitor).trace(),
                        visitor.trace(),
                    ),
                decreases self@.skipped.dom().len(),
            {
                let ghost before = self@;
                let ghost items_before = output_items@;
                let ghost trace_before = visitor.trace();
                proof {
                    lemma_drain_children_unfold(before);
                }
                let block: Block<'a> = match self.take_child() {
                    Some(block) => block,
                    None => {
                        return Ok(());
                    },
                };
                let ghost taken = self@;
                assert(self.height < MAX_HEIGHT);
                match self.emit(block, visitor, output_items) {
                    Ok(_) => {},
                    Err(e) => {
                        return Err(e);
                    },
                }
                self.follow(block);
                proof {
                    lemma_visited_trans(
                        old(output_items)@,
                        items_before,
                        output_items@,
                        old(self)@.emitted,
                        before.emitted,
                        self@.emitted,
                        old(visitor).trace(),
                        trace_before,
                        visitor.trace(),
                    );
                    lemma_emit(taken, block@);
                    self.lemma_table_finite();
                    assert(self@.keyed()) by {
                        assert forall|k: hash::Hash| #[trigger]
                            self@.skipped.contains_key(k) implies prev_of(self@.skipped[k])
                            == k by {
                            assert(before.skipped.contains_key(k));
                        }
                    }
                }
            }
            proof {
                lemma_drain_children_unfold(self@);
                lemma_drain_children(self@);
            }
        }
        Ok(())
    }

    /// Resolves a split between `first`, which is held back, and `second`:
    /// reads blocks into the side table until one cites `first`, which then
    /// stays, or `second`, which then takes its place, or the file ends.
    fn resolve_split(&mut self, first: Block<'a>, second: Block<'a>, slice: &mut &'a [u8]) -> (r:
        Result<(), ParseError>)
        requires
            old(self).wf(),
            old(self)@.last_block == Some(first@),
            prev_of(second@) == prev_of(first@),
        ensures
            match r {
                Ok(_) => old(self)@.resolve_split(first@, second@, old(slice)@) == Ok::<
                    (WalkView, Seq<u8>),
                    ParseError,
                >((final(self)@, final(slice)@)) && final(self).wf() && final(self)@.emitted
                    == old(self)@.emitted,
                Err(e) => old(self)@.resolve_split(first@, second@, old(slice)@) == Err::<
                    (WalkView, Seq<u8>),
                    ParseError,
                >(e),
            },
    {
        let first_hash = first.cur_hash();
        let second_hash = second.cur_hash();
        let mut resolved: bool = false;
        while !resolved
            invariant
                self.wf(),
                first_hash == cur_of(first@),
                second_hash == cur_of(second@),
                prev_of(second@) == prev_of(first@),
                self@.emitted == old(self)@.emitted,
                !resolved ==> self@.last_block == Some(first@),
                old(self)@.resolve_split(first@, second@, old(slice)@) == (if resolved {
                    Ok::<(WalkView, Seq<u8>), ParseError>((self@, slice@))
                } else {
                    self@.resolve_split(first@, second@, slice@)
                }),
            decreases
                    slice@.len() + (if resolved {
                        0nat
                    } else {
                        1nat
                    }),
        {
            let ghost before = self@;
            let ghost bytes = slice@;
            proof {
                lemma_resolve_split_unfold(before, first@, second@, bytes);
                lemma_resolve_split_step(before, first@, second@, bytes);
            }
            match Block::read(slice) {
                Ok(Some(block)) => {
                    let prev = block.prev_hash();
                    self.skip(block);
                    if prev == first_hash {
                        // First wins
                        resolved = true;
                    } else if prev == second_hash {
                        // Second wins
                        self.hold_back(second);
                        resolved = true;
                    }
                },
                Ok(None) => {
                    proof {
                        assert(slice@ =~= Seq::<u8>::empty());
                    }
                    resolved = true;
                },
                Err(e) => {
                    return Err(e);
                },
            }
        }
        Ok(())
    }

    /// Places the block `block`, behind which `slice` goes on: if it cites
    /// the goal it is accepted, and the block held back before it is
    /// visited; else it goes into the side table, and if it is a second
    /// child of the parent of the block held back, the split is resolved.
    fn place<V: BlockChainVisitor<'a>>(
        &mut self,
        block: Block<'a>,
        slice: &mut &'a [u8],
        visitor: &mut V,
        output_items: &mut OutputItems<V::OutputItem>,
    ) -> (r: Result<(), ParseError>)
        requires
            old(self).wf(),
            old(self)@.pending() <= MAX_HEIGHT,
            old(output_items).wf(),
        ensures
            final(output_items).wf(),
            match r {
                Ok(_) => old(self)@.place(block@, old(slice)@) == Ok::<
                    (WalkView, Seq<u8>),
                    ParseError,
                >((final(self)@, final(slice)@)) && final(self).wf() && visited(
                    old(output_items)@,
                    final(output_items)@,
                    old(self)@.emitted,
                    final(self)@.emitted,
                    old(visitor).trace(),
                    final(visitor).trace(),
                ),
                Err(e) => old(self)@.place(block@, old(slice)@) == Err::<
                    (WalkView, Seq<u8>),
                    ParseError,
                >(e),
            },
    {
        let ghost before = self@;
        proof {
            lemma_place(before, block@, slice@);
            lemma_visited_refl(output_items@, self@.emitted, visitor.trace());
        }
        let prev = block.prev_hash();
        if prev != self.goal_prev_hash() {
            let split: bool = match self.last_block() {
                Some(last) => prev == last.prev_hash(),
                None => false,
            };
            proof {
                lemma_skip(before, block@);
            }
            self.skip(block);
            if split {
                let first_orphan: Block<'a> = self.last_block().unwrap();
                let second_orphan: Block<'a> = block;
                match self.resolve_split(first_orphan, second_orphan, slice) {
                    Ok(_) => {},
                    Err(e) => {
                        return Err(e);
                    },
                }
            }
        } else {
            proof {
                lemma_accept(before, block@);
                self.lemma_table_finite();
            }
            match self.last_block() {
                Some(last) => {
                    match self.emit(last, visitor, output_items) {
                        Ok(_) => {},
                        Err(e) => {
                            return Err(e);
                        },
                    }
                },
                None => {},
            }
            self.hold_back(block);
        }
        Ok(())
    }

    /// One round: the drain phase, then the next block of the file is
    /// read and placed. It returns whether a block was left to read.
    fn step<V: BlockChainVisitor<'a>>(
        &mut self,
        slice: &mut &'a [u8],
        visitor: &mut V,
        output_items: &mut OutputItems<V::OutputItem>,
    ) -> (r: Result<bool, ParseError>)
        requires
            old(self).wf(),
            old(self)@.pending() <= MAX_HEIGHT,
            old(output_items).wf(),
        ensures
            final(output_items).wf(),
            match r {
                Ok(more) => old(self)@.walk_step(old(slice)@) == Ok::<
                    (WalkView, Option<Seq<u8>>),
                    ParseError,
                >(
                    (
                        final(self)@,
                        if more {
                            Some(final(slice)@)
                        } else {
                            None
                        },
                    ),
                ) && final(self).wf() && visited(
                    old(output_items)@,
                    final(output_items)@,
                    old(self)@.emitted,
                    final(self)@.emitted,
                    old(visitor).trace(),
                    final(visitor).trace(),
                ) && (if more {
                    final(slice)@.len() < old(slice)@.len() && 88 * final(self)@.pending()
                        + final(slice)@.len() <= 88 * old(self)@.pending() + old(slice)@.len()
                } else {
                    final(self)@.pending() <= old(self)@.pending()
                }),
                Err(e) => old(self)@.walk_step(old(slice)@) == Err::<
                    (WalkView, Option<Seq<u8>>),
                    ParseError,
                >(e),
            },
    {
        proof {
            lemma_walk_step_unfold(self@, slice@);
            lemma_walk_step(self@, slice@);
            lemma_drain(self@);
        }
        match self.drain(visitor, output_items) {
            Ok(_) => {},
            Err(e) => {
                return Err(e);
            },
        }
        let ghost drained = self@;
        let ghost items_drained = output_items@;
        let ghost trace_drained = visitor.trace();
        let block: Block<'a> = match Block::read(slice) {
            Ok(Some(block)) => block,
            Ok(None) => {
                return Ok(false);
            },
            Err(e) => {
                return Err(e);
            },
        };
        match self.place(block, slice, visitor, output_items) {
            Ok(_) => {
                proof {
                    lemma_visited_trans(
                        old(output_items)@,
                        items_drained,
                        output_items@,
                        old(self)@.emitted,
                        drained.emitted,
                        self@.emitted,
                        old(visitor).trace(),
                        trace_drained,
                        visitor.trace(),
                    );
                }
                Ok(true)
            },
            Err(e) => Err(e),
        }
    }

    /// Walks the blocks of one file: each block that cites the goal is
    /// accepted, and the block held back before it is visited; each other
    /// block waits in the side table until its parent was visited; a
    /// second child of the parent of the block held back starts the
    /// resolution of a split.
    ///
    /// The file must be short enough for the heights to stay within `u64`,
    /// at one block for every 88 bytes.
    pub fn walk_slice<V: BlockChainVisitor<'a>>(
        &mut self,
        slice: &'a [u8],
        output_items: &mut OutputItems<V::OutputItem>,
        visitor: &mut V,
    ) -> (r: Result<(), ParseError>)
        requires
            old(self).wf(),
            old(output_items).wf(),
            88 * old(self)@.pending() + slice@.len() <= 88 * MAX_HEIGHT,
        ensures
            final(output_items).wf(),
            match r {
                Ok(_) => old(self)@.walk_slice(slice@) == Ok::<WalkView, ParseError>(final(self)@)
                    && final(self).wf() && 88 * final(self)@.pending() <= 88 * old(self)@.pending() + slice@.len()
                    && visited(
                        old(output_items)@,
                        final(output_items)@,
                        old(self)@.emitted,
                        final(self)@.emitted,
                        old(visitor).trace(),
                        final(visitor).trace(),
                    ),
                Err(e) => old(self)@.walk_slice(slice@) == Err::<WalkView, ParseError>(e),
            },
    {
        let mut cursor: &'a [u8] = slice;
        let ghost whole = slice@;
        proof {
            lemma_walk_slice_unfold(self@, cursor@);
            lemma_visited_refl(output_items@, self@.emitted, visitor.trace());
        }
        while cursor.len() > 0
            invariant
                whole == slice@,
                visited(
                    old(output_items)@,
                    output_items@,
                    old(self)@.emitted,
                    self@.emitted,
                    old(visitor).trace(),
                    visitor.trace(),
                ),
                self.wf(),
                output_items.wf(),
                88 * self@.pending() + cursor@.len() <= 88 * old(self)@.pending() + whole.len(),
                88 * old(self)@.pending() + whole.len() <= 88 * MAX_HEIGHT,
                self@.walk_slice(cursor@) == old(self)@.walk_slice(whole),
                cursor@.len() == 0 ==> self@.walk_slice(cursor@) == Ok::<WalkView, ParseError>(
                    self@,
                ),
            decreases cursor@.len(),
        {
            let ghost before = self@;
            let ghost items_before = output_items@;
            let ghost trace_before = visitor.trace();
            proof {
                lemma_walk_slice_unfold(self@, cursor@);
            }
            let more = self.step(&mut cursor, visitor, output_items);
            proof {
                if more is Ok {
                    lemma_visited_trans(
                        old(output_items)@,
                        items_before,
                        output_items@,
                        old(self)@.emitted,
                        before.emitted,
                        self@.emitted,
                        old(visitor).trace(),
                        trace_before,
                        visitor.trace(),
                    );
                }
            }
            match more {
                Ok(true) => {},
                Ok(false) => {
                    return Ok(());
                },
                Err(e) => {
                    return Err(e);
                },
            }
            proof {
                lemma_walk_slice_unfold(self@, cursor@);
            }
        }
        Ok(())
    }
}

/// The bytes of the files `maps`.
pub open spec fn files_view<'a>(maps: Seq<&'a [u8]>) -> Seq<Seq<u8>> {
    Seq::new(maps.len(), |i: int| maps[i]@)
}

/// The bytes of the files from the `n`-th on are those of the `n`-th and
/// those of the files behind it.
proof fn lemma_total_len_skip(files: Seq<Seq<u8>>, n: int)
    requires
        0 <= n < files.len(),
    ensures
        total_len(files.skip(n)) == files[n].len() + total_len(files.skip(n + 1)),
{
    assert(files.skip(n).skip(1) =~= files.skip(n + 1));
}

/// The block files of a chain, in the order of their names.
pub struct BlockChain<'a> {
    maps: Vec<&'a [u8]>,
}

impl<'a> View for BlockChain<'a> {
    type V = Seq<Seq<u8>>;

    closed spec fn view(&self) -> Seq<Seq<u8>> {
        files_view(self.maps@)
    }
}

impl<'a> BlockChain<'a> {
    #[verifier::type_invariant]
    spec fn well_formed(self) -> bool {
        total_len(files_view(self.maps@)) <= MAX_HEIGHT
    }

    /// The chain in the files `maps`. There is none where the files hold
    /// more bytes than a `u64` can count.
    pub fn new(maps: Vec<&'a [u8]>) -> (r: Option<BlockChain<'a>>)
        ensures
            match r {
                Some(chain) => chain@ == files_view(maps@) && total_len(chain@) <= MAX_HEIGHT,
                None => total_len(files_view(maps@)) > MAX_HEIGHT,
            },
    {
        let ghost files = files_view(maps@);
        let mut total: u64 = 0;
        let mut i: usize = maps.len();
        proof {
            assert(files.skip(files.len() as int) =~= Seq::<Seq<u8>>::empty());
        }
        while i > 0
            invariant
                i <= maps@.len(),
                files == files_view(maps@),
                total == total_len(files.skip(i as int)),
            decreases i,
        {
            i = i - 1;
            proof {
                lemma_total_len_skip(files, i as int);
            }
            let len: usize = maps[i].len();
            total = match total.checked_add(len as u64) {
                Some(t) => t,
                None => {
                    proof {
                        lemma_total_len_grows(files, i as int);
                    }
                    return None;
                },
            };
        }
        proof {
            assert(files.skip(0) =~= files);
        }
        Some(BlockChain { maps })
    }

    /// The number of files.
    pub fn len(&self) -> (n: usize)
        ensures
            n == self@.len(),
    {
        self.maps.len()
    }

    /// Walks all blocks of all files and hands them to `visitor`, parent
    /// before child and in ascending height. It returns the number of
    /// blocks visited, the hash that the next block of the chain would
    /// have to cite, and the outputs that were remembered and not spent.
    /// The block that was accepted last is not visited.
    ///
    /// Height and hash are those of the model of the traversal; of the
    /// table, whose items are the visitor's, the contract says what holds
    /// whatever the visitor does.
    pub fn walk<V: BlockChainVisitor<'a>>(&self, visitor: &mut V) -> (r: Result<
        (u64, hash::Hash, OutputItems<V::OutputItem>),
        ParseError,
    >)
        ensures
            match r {
                Ok((height, goal_prev_hash, output_items)) => {
                    &&& WalkView::initial().walk_files(self@) is Ok
                    &&& height == WalkView::initial().walk_files(self@)->Ok_0.height
                    &&& goal_prev_hash == WalkView::initial().walk_files(
                        self@,
                    )->Ok_0.goal_prev_hash
                    &&& output_items.wf()
                    &&& visited(
                        Map::<(hash::Hash, nat), V::OutputItem>::empty(),
                        output_items@,
                        Seq::<(Seq<u8>, nat)>::empty(),
                        WalkView::initial().walk_files(self@)->Ok_0.emitted,
                        old(visitor).trace(),
                        final(visitor).trace(),
                    )
                },
                Err(e) => WalkView::initial().walk_files(self@) == Err::<WalkView, ParseError>(e),
            },
    {
        proof {
            use_type_invariant(self);
        }
        let mut walker: Walker<'a> = Walker::new();
        let mut output_items: OutputItems<V::OutputItem> = OutputItems::new();
        let ghost files = self@;
        let mut n: usize = 0;
        proof {
            assert(files.skip(0) =~= files);
            assert(WalkView::initial().skipped.dom() =~= Set::<hash::Hash>::empty());
            lemma_visited_refl(output_items@, walker@.emitted, visitor.trace());
        }
        while n < self.maps.len()
            invariant
                n <= self.maps@.len(),
                visited(
                    Map::<(hash::Hash, nat), V::OutputItem>::empty(),
                    output_items@,
                    Seq::<(Seq<u8>, nat)>::empty(),
                    walker@.emitted,
                    old(visitor).trace(),
                    visitor.trace(),
                ),
                files == files_view(self.maps@),
                walker.wf(),
                output_items.wf(),
                88 * walker@.pending() + total_len(files.skip(n as int)) <= 88 * MAX_HEIGHT,
                walker@.walk_files(files.skip(n as int)) == WalkView::initial().walk_files(files),
            decreases self.maps@.len() - n,
        {
            proof {
                lemma_total_len_skip(files, n as int);
                assert(files.skip(n as int).skip(1) =~= files.skip(n + 1));
                assert(files.skip(n as int)[0] == files[n as int]);
            }
            let ghost before = walker@;
            let ghost items_before = output_items@;
            let ghost trace_before = visitor.trace();
            match walker.walk_slice(self.maps[n], &mut output_items, visitor) {
                Ok(_) => {},
                Err(e) => {
                    return Err(e);
                },
            }
            proof {
                lemma_visited_trans(
                    Map::<(hash::Hash, nat), V::OutputItem>::empty(),
                    items_before,
                    output_items@,
                    Seq::<(Seq<u8>, nat)>::empty(),
                    before.emitted,
                    walker@.emitted,
                    old(visitor).trace(),
                    trace_before,
                    visitor.trace(),
                );
            }
            n = n + 1;
        }
        Ok((walker.height(), walker.goal_prev_hash(), output_items))
    }
}

/// The files from the `n`-th on hold no more bytes than all the files.
proof fn lemma_total_len_grows(files: Seq<Seq<u8>>, n: int)
    requires
        0 <= n <= files.len(),
    ensures
        total_len(files.skip(n)) <= total_len(files),
    decreases n,
{
    if n > 0 {
        lemma_total_len_skip(files, n - 1);
        lemma_total_len_grows(files, n - 1);
    } else {
        assert(files.skip(0) =~= files);
    }
}

} // verus!
