//! Clustering of addresses by the common-input heuristic: all the
//! addresses whose outputs one transaction spends belong to one entity.

use crate::address::{hash160_address_text, witness_address_text};
use crate::address::{Address, Hash160, PUBKEY_HASH_VERSION, SCRIPT_HASH_VERSION};
use crate::block::Block;
use crate::error::EofError;
use crate::script::{classify, HighLevel, HighLevelView};
use crate::transactions::{Transaction, TransactionInput, TransactionOutput};
use crate::visitors::union_find::DisjointSetView;
use crate::visitors::{BlockChainVisitor, Event};
use vstd::string::StringExecFns;
use crate::visitors::union_find::{lemma_after_union, lemma_compress, lemma_link};
use crate::visitors::union_find::{lemma_find_after_make_set, lemma_make_set, lemma_root};
use vstd::hash_map::StringHashMap;
use vstd::prelude::*;

verus! {

/// The number of items for which a new disjoint set reserves room.
pub const CAPACITY: usize = 1000000;

/// Tarjan's union-find structure over items named by strings, with path
/// compression and union by rank.
pub struct DisjointSet {
    set_size: usize,
    parent: Vec<usize>,
    rank: Vec<usize>,
    map: StringHashMap<usize>,  // Each item is mapped onto a dense tag.
    items: Vec<String>,  // The item of each tag.
}

impl View for DisjointSet {
    type V = DisjointSetView;

    closed spec fn view(&self) -> DisjointSetView {
        DisjointSetView {
            index: self.map@,
            items: Seq::new(self.items@.len(), |i: int| self.items@[i]@),
            parent: self.parent@,
            rank: self.rank@,
        }
    }
}

impl DisjointSet {
    /// The invariant of the structure: its forest is well formed and its
    /// size is the number of tags.
    pub closed spec fn wf(&self) -> bool {
        self@.valid() && self.set_size == self.parent@.len()
    }

    /// A structure that meets its invariant has a well-formed forest, to
    /// which the laws of the model apply.
    pub proof fn lemma_wf(&self)
        requires
            self.wf(),
        ensures
            self@.valid(),
            self@.len() <= usize::MAX,
    {
    }

    /// The structure without items, with room for a million of them.
    pub fn new() -> (s: Self)
        ensures
            s.wf(),
            s@ == DisjointSetView::empty(),
    {
        DisjointSet::with_capacity(CAPACITY)
    }

    /// The structure without items, with room for `capacity` of them.
    pub fn with_capacity(capacity: usize) -> (s: Self)
        ensures
            s.wf(),
            s@ == DisjointSetView::empty(),
    {
        let s = DisjointSet {
            set_size: 0,
            parent: Vec::with_capacity(capacity),
            rank: Vec::with_capacity(capacity),
            map: StringHashMap::with_capacity(capacity),
            items: Vec::with_capacity(capacity),
        };
        proof {
            assert(s@.index.dom() =~= Set::<Seq<char>>::empty());
            assert(s@.items =~= Seq::<Seq<char>>::empty());
        }
        s
    }

    /// The number of items.
    pub fn size(&self) -> (n: usize)
        requires
            self.wf(),
        ensures
            n == self@.len(),
    {
        self.set_size
    }

    /// Makes `x` known, as a cluster of its own. A known `x` changes nothing.
    ///
    /// In either case `find(x)` then gives a tag: for a new `x` the number
    /// of items before, which is the tag that `x` got.
    pub fn make_set(&mut self, x: String)
        requires
            old(self).wf(),
        ensures
            final(self).wf(),
            final(self)@ == old(self)@.make_set(x@),
            final(self)@.valid(),
            final(self)@.find(x@) == (if old(self)@.knows(x@) {
                old(self)@.find(x@)
            } else {
                Some(old(self)@.len() as usize)
            }),
            final(self)@.after_find(x@).find(x@) == final(self)@.find(x@),
    {
        if self.map.contains_key(x.as_str()) {
            proof {
                lemma_compress(self@, self@.tag(x@));
            }
            return ;
        }
        let ghost before = self@;
        let len: usize = self.set_size;
        self.items.push(x.clone());
        self.map.insert(x, len);
        self.parent.push(len);
        self.rank.push(0);
        let tags: usize = self.parent.len();
        proof {
            assert(tags == len + 1);
            lemma_make_set(before, x@);
            lemma_find_after_make_set(before, x@);
            assert(self@.items =~= before.items.push(x@));
        }
        self.set_size = len + 1;
    }

    /// The tag of the cluster in which `x` is, or `None` where `x` is not
    /// known. Every item on the way from `x` to the root of its tree then
    /// points straight at the root.
    pub fn find(&mut self, x: &str) -> (r: Option<usize>)
        requires
            old(self).wf(),
        ensures
            final(self).wf(),
            r == old(self)@.find(x@),
            final(self)@ == old(self)@.after_find(x@),
    {
        let pos: usize;
        match self.map.get(x) {
            Some(p) => {
                pos = *p;
            },
            None => {
                return None;
            },
        }
        let ghost before = self@;
        proof {
            lemma_compress(before, pos as int);
            lemma_root(before, pos as int);
        }
        let ret = DisjointSet::find_internal(&mut self.parent, Ghost(before), pos);
        Some(ret)
    }

    /// Implements path compression.
    fn find_internal(p: &mut Vec<usize>, Ghost(v): Ghost<DisjointSetView>, n: usize) -> (r: usize)
        requires
            v.ranked(),
            old(p)@ == v.parent,
            n < v.len(),
        ensures
            r == v.root(n as int),
            final(p)@ == v.compress(n as int).parent,
        decreases usize::MAX - v.rank[n as int],
    {
        if p[n] != n {
            let parent = p[n];
            proof {
                lemma_compress(v, parent as int);
                lemma_root(v, parent as int);
            }
            let root = DisjointSet::find_internal(p, Ghost(v), parent);
            p[n] = root;
            root
        } else {
            n
        }
    }

    /// The parent of `tag` in the forest. After `finalize` it is the tag of
    /// the cluster that holds the item of `tag`.
    pub fn parent(&self, tag: usize) -> (p: usize)
        requires
            self.wf(),
            tag < self@.len(),
        ensures
            p == self@.parent[tag as int],
    {
        self.parent[tag]
    }

    /// The item that has the tag `tag`.
    pub fn item(&self, tag: usize) -> (x: &str)
        requires
            self.wf(),
            tag < self@.len(),
        ensures
            x@ == self@.items[tag as int],
    {
        self.items[tag].as_str()
    }

    /// Unions the clusters to which `x` and `y` belong and returns the tag
    /// of the unified cluster. It is an error if `x` or `y` is not known.
    pub fn union(&mut self, x: &str, y: &str) -> (r: Result<usize, EofError>)
        requires
            old(self).wf(),
        ensures
            final(self).wf(),
            r == old(self)@.union(x@, y@),
            final(self)@ == old(self)@.after_union(x@, y@),
    {
        let ghost v = self@;
        proof {
            crate::visitors::union_find::lemma_after_union(v, x@, y@);
            if v.knows(x@) {
                lemma_compress(v, v.tag(x@));
                lemma_root(v, v.tag(x@));
                if v.knows(y@) {
                    lemma_compress(v.compress(v.tag(x@)), v.tag(y@));
                    lemma_root(v, v.tag(y@));
                }
            }
        }
        let x_root: usize = match self.find(x) {
            Some(root) => root,
            None => {
                return Err(EofError);
            },
        };
        let x_rank: usize = self.rank[x_root];
        let y_root: usize = match self.find(y) {
            Some(root) => root,
            None => {
                return Err(EofError);
            },
        };
        let y_rank: usize = self.rank[y_root];
        let ghost v2 = self@;
        proof {
            assert(v2 == v.compress(v.tag(x@)).compress(v.tag(y@)));
            assert(x_root == v.root(v.tag(x@)));
            assert(y_root == v.root(v.tag(y@)));
            lemma_root(v2, x_root as int);
            lemma_root(v2, y_root as int);
            assert(v2.root(x_root as int) == x_root);
            assert(v2.root(y_root as int) == y_root);
            lemma_link(v2, x_root as int, y_root as int);
        }

        // Implements union-by-rank optimization.
        if x_root == y_root {
            return Ok(x_root);
        }
        if x_rank > y_rank {
            self.parent[y_root] = x_root;
            assert(self@ == v2.link(x_root as int, y_root as int));
            Ok(x_root)
        } else {
            self.parent[x_root] = y_root;
            if x_rank == y_rank {
                self.rank[y_root] = y_rank + 1;
            }
            assert(self@ == v2.link(x_root as int, y_root as int));
            Ok(y_root)
        }
    }

    /// Forces all laziness: afterwards every item points straight at the
    /// root of its tree.
    pub fn finalize(&mut self)
        requires
            old(self).wf(),
        ensures
            final(self).wf(),
            final(self)@ == old(self)@.finalized(),
    {
        let ghost v = self@;
        let n: usize = self.set_size;
        let mut i: usize = 0;
        while i < n
            invariant
                i <= n,
                n == v.len(),
                self.wf(),
                self@.index == v.index,
                self@.items == v.items,
                self@.rank == v.rank,
                self@.len() == v.len(),
                forall|j: int| v.has(j) ==> #[trigger] self@.root(j) == v.root(j),
                forall|j: int| 0 <= j < i ==> (#[trigger] self@.parent[j]) == v.root(j),
            decreases n - i,
        {
            let ghost before = self@;
            proof {
                lemma_compress(before, i as int);
            }
            DisjointSet::find_internal(&mut self.parent, Ghost(before), i);
            proof {
                assert(self@ == before.compress(i as int));
                assert forall|j: int| 0 <= j < i + 1 implies (#[trigger] self@.parent[j]) == v.root(
                    j,
                ) by {
                    assert(before.root(j) == v.root(j));
                }
            }
            i = i + 1;
        }
        proof {
            assert(self@.parent =~= v.finalized().parent);
        }
    }
}

/// The decimal digit `d`.
pub open spec fn digit_char(d: nat) -> char {
    if d == 0 {
        '0'
    } else if d == 1 {
        '1'
    } else if d == 2 {
        '2'
    } else if d == 3 {
        '3'
    } else if d == 4 {
        '4'
    } else if d == 5 {
        '5'
    } else if d == 6 {
        '6'
    } else if d == 7 {
        '7'
    } else if d == 8 {
        '8'
    } else {
        '9'
    }
}

/// `n` in decimal, without leading zeros.
pub open spec fn decimal_text(n: nat) -> Seq<char>
    decreases n,
{
    if n < 10 {
        seq![digit_char(n)]
    } else {
        decimal_text(n / 10).push(digit_char(n % 10))
    }
}

/// The text of one decimal digit.
fn digit_str(d: usize) -> (s: &'static str)
    requires
        d < 10,
    ensures
        s@ == seq![digit_char(d as nat)],
{
    proof {
        reveal_strlit("0");
        reveal_strlit("1");
        reveal_strlit("2");
        reveal_strlit("3");
        reveal_strlit("4");
        reveal_strlit("5");
        reveal_strlit("6");
        reveal_strlit("7");
        reveal_strlit("8");
        reveal_strlit("9");
    }
    let s = if d == 0 {
        "0"
    } else if d == 1 {
        "1"
    } else if d == 2 {
        "2"
    } else if d == 3 {
        "3"
    } else if d == 4 {
        "4"
    } else if d == 5 {
        "5"
    } else if d == 6 {
        "6"
    } else if d == 7 {
        "7"
    } else if d == 8 {
        "8"
    } else {
        "9"
    };
    assert(s@ =~= seq![digit_char(d as nat)]);
    s
}

/// Appends `n` in decimal to `out`.
pub fn push_decimal(out: &mut String, n: usize)
    ensures
        final(out)@ == old(out)@ + decimal_text(n as nat),
    decreases n,
{
    if n >= 10 {
        push_decimal(out, n / 10);
    }
    out.append(digit_str(n % 10));
    proof {
        assert(final(out)@ =~= old(out)@ + decimal_text(n as nat));
    }
}

/// The line that tells the cluster of one address: the address, a comma,
/// the tag of the cluster's root and a line feed.
pub open spec fn cluster_line(item: Seq<char>, root: usize) -> Seq<char> {
    item + seq![','] + decimal_text(root as nat) + seq!['\n']
}

/// The lines of the first `n` items of `v`, in the order of their tags.
pub open spec fn cluster_lines(v: DisjointSetView, n: nat) -> Seq<char>
    decreases n,
{
    if n == 0 {
        Seq::empty()
    } else {
        cluster_lines(v, (n - 1) as nat) + cluster_line(v.items[n - 1], v.parent[n - 1])
    }
}

/// The address to which the locking script `script` pays, where it follows
/// a template that names one: Base58Check with version byte `0x00` for the
/// hash of a public key and `0x05` for the hash of a script, Bech32 for a
/// witness program of version zero.
pub open spec fn output_address_text(script: Seq<u8>) -> Option<Seq<char>> {
    match classify(script) {
        HighLevelView::PayToPubkeyHash(h) => Some(hash160_address_text(h, PUBKEY_HASH_VERSION)),
        HighLevelView::PayToScriptHash(h) => Some(hash160_address_text(h, SCRIPT_HASH_VERSION)),
        HighLevelView::PayToWitnessPubkeyHash(w) => witness_address_text(0, w),
        HighLevelView::PayToWitnessScriptHash(w) => witness_address_text(0, w),
        _ => None,
    }
}

/// Whether a script of this kind names an address: the hash of a public
/// key or of a script, or a witness program.
pub open spec fn names_address(kind: HighLevelView) -> bool {
    kind is PayToPubkeyHash || kind is PayToScriptHash || kind is PayToWitnessPubkeyHash
        || kind is PayToWitnessScriptHash
}

/// The forest after the items of `items` from index `i` on were made
/// known, each joined with the item before it.
pub open spec fn union_chain(v: DisjointSetView, items: Seq<Seq<char>>, i: nat) -> DisjointSetView
    decreases items.len() - i,
{
    if i >= items.len() || i == 0 {
        v
    } else {
        union_chain(v.make_set(items[i as int]).after_union(items[i - 1], items[i as int]), items, i + 1)
    }
}

/// The forest after a transaction that spends outputs of the addresses
/// `items`: with two addresses or more, all of them are known and in one
/// cluster; with fewer, nothing changes.
pub open spec fn cluster_inputs(v: DisjointSetView, items: Seq<Seq<char>>) -> DisjointSetView {
    if items.len() < 2 {
        v
    } else {
        union_chain(v.make_set(items[0]), items, 1)
    }
}

/// A chain of unions keeps the forest well formed, puts all the items in
/// one cluster and keeps together what was together.
proof fn lemma_union_chain(v: DisjointSetView, items: Seq<Seq<char>>, i: nat)
    requires
        v.valid(),
        1 <= i <= items.len(),
        v.len() + (items.len() - i) <= usize::MAX,
        forall|a: int, b: int|
            0 <= a < i && 0 <= b < i ==> v.same_set(#[trigger] items[a], #[trigger] items[b]),
    ensures
        union_chain(v, items, i).valid(),
        forall|a: int, b: int|
            0 <= a < items.len() && 0 <= b < items.len() ==> union_chain(v, items, i).same_set(
                #[trigger] items[a],
                #[trigger] items[b],
            ),
        forall|x: Seq<char>, y: Seq<char>|
            v.same_set(x, y) ==> #[trigger] union_chain(v, items, i).same_set(x, y),
    decreases items.len() - i,
{
    if i < items.len() {
        let x = items[i as int];
        let y = items[i - 1];
        let v1 = v.make_set(x);
        let v2 = v1.after_union(y, x);
        lemma_make_set(v, x);
        lemma_after_union(v1, y, x);
        assert(v.same_set(y, y));
        assert forall|a: Seq<char>, b: Seq<char>| v.same_set(a, b) implies #[trigger] v2.same_set(
            a,
            b,
        ) by {
            assert(v.has(v.tag(a)) && v.has(v.tag(b)));
            assert(v1.root(v.tag(a)) == v.root(v.tag(a)));
            assert(v1.root(v.tag(b)) == v.root(v.tag(b)));
            assert(v1.same_set(a, b));
            assert(v1.has(v1.tag(a)) && v1.has(v1.tag(b)));
        }
        assert(v2.same_set(y, x)) by {
            assert(v1.knows(y) && v1.knows(x));
        }
        assert forall|a: int, b: int| 0 <= a < i + 1 && 0 <= b < i + 1 implies v2.same_set(
            #[trigger] items[a],
            #[trigger] items[b],
        ) by {
            assert(v2.same_set(y, x));
            if a < i {
                assert(v.same_set(items[a], y));
                assert(v2.same_set(items[a], y));
            }
            if b < i {
                assert(v.same_set(items[b], y));
                assert(v2.same_set(items[b], y));
            }
        }
        lemma_union_chain(v2, items, i + 1);
    }
}

/// What a transaction does to the clusters: the forest stays well formed,
/// what was in one cluster stays in one cluster, and with two addresses or
/// more among the spent outputs all of them are in one cluster.
pub proof fn lemma_cluster_inputs(v: DisjointSetView, items: Seq<Seq<char>>)
    requires
        v.valid(),
        v.len() + items.len() <= usize::MAX,
    ensures
        cluster_inputs(v, items).valid(),
        items.len() >= 2 ==> forall|a: int, b: int|
            0 <= a < items.len() && 0 <= b < items.len() ==> cluster_inputs(v, items).same_set(
                #[trigger] items[a],
                #[trigger] items[b],
            ),
        forall|x: Seq<char>, y: Seq<char>|
            v.same_set(x, y) ==> #[trigger] cluster_inputs(v, items).same_set(x, y),
{
    if items.len() >= 2 {
        let v0 = v.make_set(items[0]);
        lemma_make_set(v, items[0]);
        assert(v0.same_set(items[0], items[0]));
        assert forall|x: Seq<char>, y: Seq<char>| v.same_set(x, y) implies #[trigger] v0.same_set(
            x,
            y,
        ) by {
            assert(v.has(v.tag(x)) && v.has(v.tag(y)));
            assert(v0.root(v.tag(x)) == v.root(v.tag(x)));
            assert(v0.root(v.tag(y)) == v.root(v.tag(y)));
        }
        lemma_union_chain(v0, items, 1);
    }
}

/// The addresses whose outputs one transaction spends, each once, in the
/// order in which they first occurred.
pub struct AddressSet {
    items: Vec<Address>,
}

impl View for AddressSet {
    type V = Seq<Seq<char>>;

    closed spec fn view(&self) -> Seq<Seq<char>> {
        Seq::new(self.items@.len(), |i: int| self.items@[i]@)
    }
}

impl AddressSet {
    #[verifier::type_invariant]
    spec fn well_formed(self) -> bool {
        forall|i: int, j: int|
            0 <= i < j < self.items@.len() ==> (#[trigger] self.items@[i])@ != (
            #[trigger] self.items@[j])@
    }

    /// The empty set.
    pub fn new() -> (s: AddressSet)
        ensures
            s@ == Seq::<Seq<char>>::empty(),
    {
        let s = AddressSet { items: Vec::new() };
        proof {
            assert(s@ =~= Seq::<Seq<char>>::empty());
        }
        s
    }

    /// The number of addresses, none of which occurs twice.
    pub fn len(&self) -> (n: usize)
        ensures
            n == self@.len(),
            self@.no_duplicates(),
    {
        proof {
            use_type_invariant(self);
            assert forall|i: int, j: int|
                0 <= i < self@.len() && 0 <= j < self@.len() && i != j implies self@[i]
                != self@[j] by {
                if i < j {
                    assert(self.items@[i]@ != self.items@[j]@);
                } else {
                    assert(self.items@[j]@ != self.items@[i]@);
                }
            }
        }
        self.items.len()
    }

    /// Whether `address` is in the set.
    pub fn contains(&self, address: &Address) -> (r: bool)
        ensures
            r == self@.contains(address@),
    {
        let mut i: usize = 0;
        while i < self.items.len()
            invariant
                i <= self.items@.len(),
                forall|j: int| 0 <= j < i ==> (#[trigger] self@[j]) != address@,
            decreases self.items@.len() - i,
        {
            if self.items[i].same(address) {
                assert(self@[i as int] == address@);
                return true;
            }
            i = i + 1;
        }
        false
    }

    /// Puts `address` into the set, behind the others, unless it is there.
    pub fn insert(&mut self, address: Address)
        ensures
            final(self)@ == (if old(self)@.contains(address@) {
                old(self)@
            } else {
                old(self)@.push(address@)
            }),
            final(self)@.no_duplicates(),
    {
        let n: usize = self.len();
        if self.contains(&address) {
            return ;
        }
        // The invariant cannot be suspended while the field is borrowed:
        // the addresses are moved out, extended and put back.
        let mut hollow = AddressSet { items: Vec::new() };
        core::mem::swap(self, &mut hollow);
        proof {
            use_type_invariant(&hollow);
        }
        let AddressSet { items: mut items } = hollow;
        proof {
            assert forall|j: int| 0 <= j < items@.len() implies (#[trigger] items@[j])@
                != address@ by {
                assert(old(self)@[j] == items@[j]@);
            }
        }
        items.push(address);
        *self = AddressSet { items };
        proof {
            assert(self@ =~= old(self)@.push(address@));
            assert forall|i: int, j: int|
                0 <= i < self@.len() && 0 <= j < self@.len() && i != j implies self@[i]
                != self@[j] by {
                if i < old(self)@.len() {
                    assert(self@[i] == old(self)@[i]);
                }
                if j < old(self)@.len() {
                    assert(self@[j] == old(self)@[j]);
                }
            }
        }
    }

    /// The address at position `i`.
    pub fn get(&self, i: usize) -> (a: &Address)
        requires
            i < self@.len(),
        ensures
            a@ == self@[i as int],
    {
        &self.items[i]
    }
}

/// The visitor that clusters addresses: it remembers the address of every
/// output that names one, collects for every transaction the addresses
/// whose outputs it spends, and unions them.
pub struct Clusterizer {
    clusters: DisjointSet,
    trace: Ghost<Seq<Event<Address>>>,
}

impl View for Clusterizer {
    type V = DisjointSetView;

    closed spec fn view(&self) -> DisjointSetView {
        self.clusters@
    }
}

impl Clusterizer {
    #[verifier::type_invariant]
    spec fn well_formed(self) -> bool {
        self.clusters.wf()
    }

    /// Moves the disjoint set out and leaves an empty one in its place.
    /// The invariant of the clusterizer cannot be suspended while one of
    /// its fields is borrowed, so whoever changes the set takes it out
    /// and puts it back.
    fn take_clusters(&mut self) -> (clusters: DisjointSet)
        ensures
            clusters.wf(),
            clusters@ == old(self)@,
            final(self).trace@ == old(self).trace@,
    {
        let ghost trace = self.trace@;
        let mut hollow = Clusterizer { clusters: DisjointSet::with_capacity(0), trace: Ghost(trace) };
        core::mem::swap(self, &mut hollow);
        proof {
            use_type_invariant(&hollow);
        }
        let Clusterizer { clusters, trace } = hollow;
        clusters
    }

    /// Puts the disjoint set back.
    fn put_clusters(&mut self, clusters: DisjointSet)
        requires
            clusters.wf(),
        ensures
            final(self)@ == clusters@,
            final(self).trace@ == old(self).trace@,
    {
        let ghost trace = self.trace@;
        *self = Clusterizer { clusters, trace: Ghost(trace) };
    }

    /// Adds an event to the log of calls.
    fn log(&mut self, Ghost(event): Ghost<Event<Address>>)
        ensures
            final(self)@ == old(self)@,
            final(self).trace@ == old(self).trace@.push(event),
    {
        proof {
            use_type_invariant(&*self);
            self.trace@ = self.trace@.push(event);
        }
    }

    /// The tag of the cluster in which `address` is, if it is known.
    pub fn find(&mut self, address: &Address) -> (r: Option<usize>)
        ensures
            old(self)@.valid(),
            r == old(self)@.find(address@),
            final(self)@ == old(self)@.after_find(address@),
            final(self).trace() == old(self).trace(),
    {
        let mut clusters = self.take_clusters();
        let r = clusters.find(address.as_str());
        self.put_clusters(clusters);
        r
    }

    /// The number of addresses in clusters.
    pub fn size(&self) -> (n: usize)
        ensures
            self@.valid(),
            n == self@.len(),
    {
        proof {
            use_type_invariant(self);
        }
        self.clusters.size()
    }
}

impl<'a> BlockChainVisitor<'a> for Clusterizer {
    type BlockItem = ();

    type TransactionItem = AddressSet;

    type OutputItem = Address;

    type DoneItem = (usize, String);

    fn new() -> (c: Self)
        ensures
            c@ == DisjointSetView::empty(),
    {
        Clusterizer { clusters: DisjointSet::new(), trace: Ghost(Seq::empty()) }
    }

    closed spec fn trace(&self) -> Seq<Event<Address>> {
        self.trace@
    }

    fn visit_block_begin(&mut self, block: Block<'a>, height: u64) -> (item: ())
        ensures
            final(self)@ == old(self)@,
    {
        self.log(Ghost(Event::BlockBegin { block: block@, height }));
    }

    fn visit_block_end(&mut self, block: Block<'a>, height: u64, block_item: ())
        ensures
            final(self)@ == old(self)@,
    {
        self.log(Ghost(Event::BlockEnd { block: block@, height }));
    }

    fn visit_transaction_begin(&mut self, block_item: &mut ()) -> (tx_item: AddressSet)
        ensures
            final(self)@ == old(self)@,
            tx_item@ == Seq::<Seq<char>>::empty(),
    {
        self.log(Ghost(Event::TransactionBegin));
        AddressSet::new()
    }

    /// A coinbase input contributes no address. Any other input
    /// contributes the address of the output that it spends, if that
    /// output had one.
    fn visit_transaction_input(
        &mut self,
        txin: TransactionInput<'a>,
        block_item: &mut (),
        tx_item: &mut AddressSet,
        output_item: Option<Address>,
    )
        ensures
            final(self)@ == old(self)@,
            txin.prev_hash == crate::hash::zero_hash() ==> final(tx_item)@ == old(tx_item)@,
            txin.prev_hash != crate::hash::zero_hash() ==> final(tx_item)@ == (match output_item {
                Some(address) => if old(tx_item)@.contains(address@) {
                    old(tx_item)@
                } else {
                    old(tx_item)@.push(address@)
                },
                None => old(tx_item)@,
            }),
    {
        self.log(Ghost(Event::Input { input: txin@, output_item }));
        // Ignore coinbase
        if txin.is_coinbase() {
            return ;
        }
        if let Some(address) = output_item {
            tx_item.insert(address);
        }
    }

    fn visit_transaction_output(
        &mut self,
        txout: TransactionOutput<'a>,
        block_item: &mut (),
        tx_item: &mut AddressSet,
    ) -> (r: Option<Address>)
        ensures
            final(self)@ == old(self)@,
            final(tx_item)@ == old(tx_item)@,
            match r {
                Some(address) => output_address_text(txout@.script) == Some(address@),
                None => output_address_text(txout@.script).is_none(),
            },
            r is Some <==> names_address(classify(txout@.script)),
    {
        let r = match txout.script.to_highlevel() {
            HighLevel::PayToPubkeyHash(pkh) => Some(
                Address::from_hash160(Hash160::from_slice(pkh), PUBKEY_HASH_VERSION),
            ),
            HighLevel::PayToScriptHash(pkh) => Some(
                Address::from_hash160(Hash160::from_slice(pkh), SCRIPT_HASH_VERSION),
            ),
            HighLevel::PayToWitnessPubkeyHash(w) => Address::from_witness_program(0, w),
            HighLevel::PayToWitnessScriptHash(w) => Address::from_witness_program(0, w),
            _ => None,
        };
        self.log(Ghost(Event::Output { output: txout@, item: r }));
        r
    }

    /// With two or more addresses among the spent outputs, all of them
    /// end in one cluster.
    fn visit_transaction_end(&mut self, tx: Transaction<'a>, block_item: &mut (), tx_item: AddressSet)
        ensures
            final(self)@ == cluster_inputs(old(self)@, tx_item@),
    {
        self.log(Ghost(Event::TransactionEnd { tx: tx@ }));
        let mut clusters = self.take_clusters();
        // Skip transactions with just one input
        let n: usize = tx_item.len();
        if n > 1 {
            clusters.make_set(tx_item.get(0).duplicate().0);
            let mut i: usize = 1;
            while i < n
                invariant
                    1 <= i <= n,
                    n == tx_item@.len(),
                    clusters.wf(),
                    union_chain(clusters@, tx_item@, i as nat) == cluster_inputs(
                        old(self)@,
                        tx_item@,
                    ),
                decreases n - i,
            {
                clusters.make_set(tx_item.get(i).duplicate().0);
                let _ = clusters.union(tx_item.get(i - 1).as_str(), tx_item.get(i).as_str());
                i = i + 1;
            }
        }
        self.put_clusters(clusters);
    }

    /// Compresses all paths and writes one line for each address, in the
    /// order of the tags: the address, a comma, the tag of the root of its
    /// cluster and a line feed. It returns the number of addresses and the
    /// lines.
    fn done(&mut self) -> (r: Result<(usize, String), EofError>)
        ensures
            final(self)@ == old(self)@.finalized(),
            r is Ok,
            r->Ok_0.0 == old(self)@.len(),
            r->Ok_0.1@ == cluster_lines(final(self)@, old(self)@.len()),
    {
        let mut clusters = self.take_clusters();
        clusters.finalize();
        let n: usize = clusters.size();
        let mut output_string = String::new();
        let mut tag: usize = 0;
        while tag < n
            invariant
                tag <= n,
                n == clusters@.len(),
                clusters.wf(),
                output_string@ == cluster_lines(clusters@, tag as nat),
            decreases n - tag,
        {
            let ghost before = output_string@;
            let root: usize = clusters.parent(tag);
            output_string.append(clusters.item(tag));
            output_string.append(",");
            push_decimal(&mut output_string, root);
            output_string.append("\n");
            proof {
                reveal_strlit(",");
                reveal_strlit("\n");
                assert(output_string@ =~= before + cluster_line(
                    clusters@.items[tag as int],
                    root,
                ));
            }
            tag = tag + 1;
        }
        self.put_clusters(clusters);
        Ok((n, output_string))
    }
}

} // verus!
