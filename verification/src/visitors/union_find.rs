//! The mathematical model of the union-find structure, and what is proved
//! of it: that path compression and linking keep it well formed, what
//! they do to the partition, and that the partition reached by a run of
//! unions does not depend on their order.

use crate::error::EofError;
use vstd::prelude::*;

verus! {

/// A union-find forest as contracts see it: the dense tag of every known
/// item, the item of every tag, and the parent and rank of every tag.
pub struct DisjointSetView {
    pub index: Map<Seq<char>, usize>,
    pub items: Seq<Seq<char>>,
    pub parent: Seq<usize>,
    pub rank: Seq<usize>,
}

/// The sum of all ranks.
pub open spec fn rank_total(rank: Seq<usize>) -> nat
    decreases rank.len(),
{
    if rank.len() == 0 {
        0
    } else {
        rank_total(rank.drop_last()) + rank.last() as nat
    }
}

/// The number of tags that are not their own parent.
pub open spec fn non_roots(parent: Seq<usize>) -> nat
    decreases parent.len(),
{
    if parent.len() == 0 {
        0
    } else {
        non_roots(parent.drop_last()) + if parent.last() != parent.len() - 1 {
            1nat
        } else {
            0nat
        }
    }
}

/// Changing one rank changes the sum of the ranks by the difference; no
/// rank is above the sum.
proof fn lemma_rank_total_update(rank: Seq<usize>, k: int, x: usize)
    requires
        0 <= k < rank.len(),
    ensures
        rank_total(rank.update(k, x)) + rank[k] == rank_total(rank) + x,
        rank[k] <= rank_total(rank),
    decreases rank.len(),
{
    let updated = rank.update(k, x);
    if k == rank.len() - 1 {
        assert(updated.drop_last() =~= rank.drop_last());
    } else {
        lemma_rank_total_update(rank.drop_last(), k, x);
        assert(updated.drop_last() =~= rank.drop_last().update(k, x));
    }
}

/// Changing one parent changes the number of tags with a parent by one at
/// most; a forest with a root has fewer such tags than tags.
proof fn lemma_non_roots_update(parent: Seq<usize>, k: int, x: usize)
    requires
        0 <= k < parent.len(),
    ensures
        non_roots(parent.update(k, x)) + (if parent[k] != k {
            1nat
        } else {
            0nat
        }) == non_roots(parent) + (if x != k {
            1nat
        } else {
            0nat
        }),
        non_roots(parent) <= parent.len(),
        parent[k] == k ==> non_roots(parent) < parent.len(),
    decreases parent.len(),
{
    let updated = parent.update(k, x);
    if k == parent.len() - 1 {
        assert(updated.drop_last() =~= parent.drop_last());
        lemma_non_roots_bound(parent.drop_last());
    } else {
        lemma_non_roots_update(parent.drop_last(), k, x);
        assert(updated.drop_last() =~= parent.drop_last().update(k, x));
    }
}

/// No more tags have a parent than there are tags.
proof fn lemma_non_roots_bound(parent: Seq<usize>)
    ensures
        non_roots(parent) <= parent.len(),
    decreases parent.len(),
{
    if parent.len() > 0 {
        lemma_non_roots_bound(parent.drop_last());
    }
}

impl DisjointSetView {
    /// The number of tags.
    pub open spec fn len(self) -> nat {
        self.parent.len()
    }

    /// Whether `i` is a tag of this forest.
    pub open spec fn has(self, i: int) -> bool {
        0 <= i < self.parent.len()
    }

    /// The parent links form a forest: every parent is a tag, and the
    /// rank grows along every parent link, so that no path comes back to
    /// where it started.
    pub open spec fn ranked(self) -> bool {
        &&& self.rank.len() == self.parent.len()
        &&& self.parent.len() <= usize::MAX
        &&& forall|i: int|
            0 <= i < self.parent.len() ==> (#[trigger] self.parent[i]) < self.parent.len()
        &&& forall|i: int|
            0 <= i < self.parent.len() && (#[trigger] self.parent[i]) != i ==> self.rank[i]
                < self.rank[self.parent[i] as int]
    }

    /// The forest is well formed: the parent links form a forest, and the
    /// ranks sum up to no more than the number of tags that have got a
    /// parent, so that no rank can overflow.
    pub open spec fn links_valid(self) -> bool {
        &&& self.ranked()
        &&& rank_total(self.rank) <= non_roots(self.parent)
    }

    /// The items are numbered densely: each known item has a tag of its
    /// own, and there are as many items as tags.
    pub open spec fn index_valid(self) -> bool {
        &&& self.index.dom().finite()
        &&& self.index.dom().len() == self.parent.len()
        &&& self.items.len() == self.parent.len()
        &&& forall|i: int|
            0 <= i < self.items.len() ==> self.index.contains_key(#[trigger] self.items[i])
                && self.index[self.items[i]] == i
        &&& forall|k: Seq<char>| #[trigger]
            self.index.contains_key(k) ==> self.index[k] < self.parent.len()
        &&& forall|k1: Seq<char>, k2: Seq<char>|
            #[trigger] self.index.contains_key(k1) && #[trigger] self.index.contains_key(k2)
                && self.index[k1] == self.index[k2] ==> k1 == k2
    }

    pub open spec fn valid(self) -> bool {
        self.links_valid() && self.index_valid()
    }

    /// The forest without items.
    pub open spec fn empty() -> DisjointSetView {
        DisjointSetView {
            index: Map::empty(),
            items: Seq::empty(),
            parent: Seq::empty(),
            rank: Seq::empty(),
        }
    }

    /// The root of the tree that holds tag `i`.
    pub open spec fn root(self, i: int) -> int
        decreases usize::MAX - self.rank[i],
        when self.ranked() && 0 <= i < self.parent.len()
    {
        if self.parent[i] == i {
            i
        } else {
            self.root(self.parent[i] as int)
        }
    }

    /// This forest with the parent of `i` set to `p`.
    pub open spec fn with_parent(self, i: int, p: int) -> DisjointSetView {
        DisjointSetView { parent: self.parent.update(i, p as usize), ..self }
    }

    /// Path compression from `i`: every tag on the way from `i` to its
    /// root, the root left out, gets the root as its parent.
    pub open spec fn compress(self, i: int) -> DisjointSetView
        decreases usize::MAX - self.rank[i],
        when self.ranked() && 0 <= i < self.parent.len()
    {
        if self.parent[i] == i {
            self
        } else {
            self.compress(self.parent[i] as int).with_parent(i, self.root(i))
        }
    }

    /// The root that is left when the trees of the roots `x_root` and
    /// `y_root` are joined: the one of higher rank, and `y_root` on a tie.
    pub open spec fn link_root(self, x_root: int, y_root: int) -> int {
        if x_root == y_root || self.rank[x_root] > self.rank[y_root] {
            x_root
        } else {
            y_root
        }
    }

    /// Union by rank of the trees of two roots: the root of lower rank
    /// goes under the other; on a tie the first goes under the second,
    /// whose rank grows by one.
    pub open spec fn link(self, x_root: int, y_root: int) -> DisjointSetView {
        if x_root == y_root {
            self
        } else if self.rank[x_root] > self.rank[y_root] {
            self.with_parent(y_root, x_root)
        } else if self.rank[x_root] == self.rank[y_root] {
            DisjointSetView {
                rank: self.rank.update(y_root, (self.rank[y_root] + 1) as usize),
                ..self.with_parent(x_root, y_root)
            }
        } else {
            self.with_parent(x_root, y_root)
        }
    }

    /// Every tag points straight at its root.
    pub open spec fn finalized(self) -> DisjointSetView {
        DisjointSetView {
            parent: Seq::new(self.parent.len(), |i: int| self.root(i) as usize),
            ..self
        }
    }

    /// Whether `x` is a known item.
    pub open spec fn knows(self, x: Seq<char>) -> bool {
        self.index.contains_key(x)
    }

    /// The tag of the known item `x`.
    pub open spec fn tag(self, x: Seq<char>) -> int {
        self.index[x] as int
    }

    /// The forest after `make_set(x)`: unchanged where `x` is known, else
    /// `x` gets the next tag and is a tree of its own, of rank zero.
    pub open spec fn make_set(self, x: Seq<char>) -> DisjointSetView {
        if self.knows(x) {
            self
        } else {
            DisjointSetView {
                index: self.index.insert(x, self.parent.len() as usize),
                items: self.items.push(x),
                parent: self.parent.push(self.parent.len() as usize),
                rank: self.rank.push(0),
            }
        }
    }

    /// What `find(x)` returns: the root of the tree of `x`, if `x` is known.
    pub open spec fn find(self, x: Seq<char>) -> Option<usize> {
        if self.knows(x) {
            Some(self.root(self.tag(x)) as usize)
        } else {
            None
        }
    }

    /// The forest after `find(x)`: the path from `x` is compressed.
    pub open spec fn after_find(self, x: Seq<char>) -> DisjointSetView {
        if self.knows(x) {
            self.compress(self.tag(x))
        } else {
            self
        }
    }

    /// What `union(x, y)` returns: the root of the joined tree, or the
    /// error where `x` or `y` is not known.
    pub open spec fn union(self, x: Seq<char>, y: Seq<char>) -> Result<usize, EofError> {
        if self.knows(x) && self.knows(y) {
            Ok(self.link_root(self.root(self.tag(x)), self.root(self.tag(y))) as usize)
        } else {
            Err(EofError)
        }
    }

    /// The forest after `union(x, y)`: both paths are compressed, as far
    /// as the items are known, and then the two trees are joined.
    pub open spec fn after_union(self, x: Seq<char>, y: Seq<char>) -> DisjointSetView {
        if !self.knows(x) {
            self
        } else if !self.knows(y) {
            self.compress(self.tag(x))
        } else {
            self.compress(self.tag(x)).compress(self.tag(y)).link(
                self.root(self.tag(x)),
                self.root(self.tag(y)),
            )
        }
    }

    /// Whether the tags `a` and `b` are in one tree.
    pub open spec fn same_tree(self, a: int, b: int) -> bool {
        self.root(a) == self.root(b)
    }

    /// Whether the known items `x` and `y` are in one cluster.
    pub open spec fn same_set(self, x: Seq<char>, y: Seq<char>) -> bool {
        self.knows(x) && self.knows(y) && self.same_tree(self.tag(x), self.tag(y))
    }

    /// The forest after the unions of `pairs`, made from first to last.
    pub open spec fn after_unions(self, pairs: Seq<(Seq<char>, Seq<char>)>) -> DisjointSetView
        decreases pairs.len(),
    {
        if pairs.len() == 0 {
            self
        } else {
            self.after_union(pairs[0].0, pairs[0].1).after_unions(pairs.skip(1))
        }
    }
}

/// The forest without items is well formed.
pub proof fn lemma_empty_valid()
    ensures
        DisjointSetView::empty().valid(),
{
    assert(DisjointSetView::empty().index.dom() =~= Set::<Seq<char>>::empty());
}

/// The root of a tag is a tag, is its own parent, and has a rank that is
/// no lower, and higher where the tag is not the root itself.
pub proof fn lemma_root(v: DisjointSetView, i: int)
    requires
        v.ranked(),
        v.has(i),
    ensures
        v.has(v.root(i)),
        v.parent[v.root(i)] == v.root(i),
        v.rank[i] <= v.rank[v.root(i)],
        v.parent[i] != i ==> v.rank[i] < v.rank[v.root(i)],
        v.parent[i] == i ==> v.root(i) == i,
        v.root(v.root(i)) == v.root(i),
    decreases usize::MAX - v.rank[i],
{
    if v.parent[i] != i {
        lemma_root(v, v.parent[i] as int);
    }
}

/// With the parent of `n` set to the root of `n`, one tag's root is
/// what it was.
proof fn lemma_with_parent_root(v: DisjointSetView, n: int, j: int)
    requires
        v.ranked(),
        v.has(n),
        v.has(j),
        v.with_parent(n, v.root(n)).ranked(),
    ensures
        v.with_parent(n, v.root(n)).root(j) == v.root(j),
    decreases usize::MAX - v.rank[j],
{
    let w = v.with_parent(n, v.root(n));
    lemma_root(v, n);
    lemma_root(v, j);
    let r = v.root(n);
    if j == n {
        if v.parent[n] != n {
            assert(w.parent[n] == r);
            assert(w.parent[r] == r);
            assert(w.root(r) == r);
            assert(w.root(n) == w.root(r));
        } else {
            assert(w.parent[n] == n);
        }
    } else if v.parent[j] == j {
        assert(w.parent[j] == j);
    } else {
        assert(w.parent[j] == v.parent[j]);
        lemma_with_parent_root(v, n, v.parent[j] as int);
    }
}

/// Setting the parent of a tag to its root keeps the forest a forest,
/// and well formed if it was, and keeps every root.
pub proof fn lemma_with_parent(v: DisjointSetView, n: int)
    requires
        v.ranked(),
        v.has(n),
    ensures
        v.with_parent(n, v.root(n)).ranked(),
        v.links_valid() ==> v.with_parent(n, v.root(n)).links_valid(),
        forall|j: int| v.has(j) ==> #[trigger] v.with_parent(n, v.root(n)).root(j) == v.root(j),
{
    let r = v.root(n);
    let w = v.with_parent(n, r);
    lemma_root(v, n);
    lemma_non_roots_update(v.parent, n, r as usize);
    assert(w.ranked()) by {
        assert forall|i: int| 0 <= i < w.parent.len() implies (#[trigger] w.parent[i])
            < w.parent.len() by {
            if i != n {
                assert(w.parent[i] == v.parent[i]);
            }
        }
        assert forall|i: int| 0 <= i < w.parent.len() && (#[trigger] w.parent[i]) != i implies w.rank[i]
            < w.rank[w.parent[i] as int] by {
            if i != n {
                assert(w.parent[i] == v.parent[i]);
            }
        }
    }
    assert forall|j: int| v.has(j) implies #[trigger] w.root(j) == v.root(j) by {
        lemma_with_parent_root(v, n, j);
    }
}

/// Path compression keeps the forest a forest, and well formed if it was,
/// and keeps the ranks, the items and every root; the tag it started from
/// then points at its root, and every other tag at its old parent or at
/// its root.
pub proof fn lemma_compress(v: DisjointSetView, i: int)
    requires
        v.ranked(),
        v.has(i),
    ensures
        v.compress(i).ranked(),
        v.links_valid() ==> v.compress(i).links_valid(),
        v.compress(i).rank == v.rank,
        v.compress(i).index == v.index,
        v.compress(i).items == v.items,
        v.compress(i).parent.len() == v.parent.len(),
        v.compress(i).parent[i] == v.root(i),
        forall|j: int| v.has(j) ==> #[trigger] v.compress(i).root(j) == v.root(j),
        forall|j: int|
            v.has(j) ==> (#[trigger] v.compress(i).parent[j]) == v.parent[j] || v.compress(
                i,
            ).parent[j] == v.root(j),
    decreases usize::MAX - v.rank[i],
{
    lemma_root(v, i);
    if v.parent[i] != i {
        let p = v.parent[i] as int;
        let above = v.compress(p);
        lemma_compress(v, p);
        assert(above.root(i) == v.root(i));
        lemma_with_parent(above, i);
        let c = v.compress(i);
        assert(c == above.with_parent(i, v.root(i)));
        assert forall|j: int| v.has(j) implies #[trigger] c.root(j) == v.root(j) by {
            assert(above.root(j) == v.root(j));
        }
        assert forall|j: int| v.has(j) implies (#[trigger] c.parent[j]) == v.parent[j]
            || c.parent[j] == v.root(j) by {
            if j != i {
                assert(c.parent[j] == above.parent[j]);
            }
        }
    }
}

/// Where one root was put under another, one tag's root is what it was,
/// or the new root where it was the root that went under.
proof fn lemma_link_root(v: DisjointSetView, w: DisjointSetView, lower: int, upper: int, j: int)
    requires
        v.links_valid(),
        w.links_valid(),
        v.has(lower),
        v.has(upper),
        v.has(j),
        lower != upper,
        v.parent[lower] == lower,
        v.parent[upper] == upper,
        w.parent == v.parent.update(lower, upper as usize),
    ensures
        w.root(j) == (if v.root(j) == lower {
            upper
        } else {
            v.root(j)
        }),
    decreases usize::MAX - v.rank[j],
{
    lemma_root(v, j);
    if v.parent[j] == j {
        if j == lower {
            assert(w.parent[lower] == upper);
            assert(w.parent[upper] == upper);
            assert(w.root(upper) == upper);
            assert(w.root(lower) == w.root(upper));
        } else {
            assert(w.parent[j] == j);
        }
    } else {
        assert(w.parent[j] == v.parent[j]);
        lemma_link_root(v, w, lower, upper, v.parent[j] as int);
    }
}

/// Linking two roots keeps the forest well formed and joins exactly their
/// two trees; no rank overflows.
pub proof fn lemma_link(v: DisjointSetView, x_root: int, y_root: int)
    requires
        v.links_valid(),
        v.has(x_root),
        v.has(y_root),
        v.parent[x_root] == x_root,
        v.parent[y_root] == y_root,
    ensures
        v.link(x_root, y_root).links_valid(),
        v.link(x_root, y_root).index == v.index,
        v.link(x_root, y_root).items == v.items,
        v.link(x_root, y_root).parent.len() == v.parent.len(),
        x_root != y_root ==> v.rank[y_root] < usize::MAX,
        forall|j: int|
            v.has(j) ==> #[trigger] v.link(x_root, y_root).root(j) == (if v.root(j) == x_root
                || v.root(j) == y_root {
                v.link_root(x_root, y_root)
            } else {
                v.root(j)
            }),
{
    let w = v.link(x_root, y_root);
    if x_root == y_root {
        assert forall|j: int| v.has(j) implies #[trigger] w.root(j) == (if v.root(j) == x_root
            || v.root(j) == y_root {
            v.link_root(x_root, y_root)
        } else {
            v.root(j)
        }) by {}
    } else {
        let (lower, upper) = if v.rank[x_root] > v.rank[y_root] {
            (y_root, x_root)
        } else {
            (x_root, y_root)
        };
        lemma_non_roots_update(v.parent, lower, upper as usize);
        lemma_non_roots_update(v.parent, upper, upper as usize);
        lemma_rank_total_update(v.rank, y_root, (v.rank[y_root] + 1) as usize);
        assert(v.rank[y_root] < usize::MAX);
        assert(w.parent == v.parent.update(lower, upper as usize));
        assert(w.links_valid()) by {
            assert forall|i: int| 0 <= i < w.parent.len() implies (#[trigger] w.parent[i])
                < w.parent.len() by {
                if i != lower {
                    assert(w.parent[i] == v.parent[i]);
                }
            }
            assert forall|i: int| 0 <= i < w.parent.len() && (#[trigger] w.parent[i])
                != i implies w.rank[i] < w.rank[w.parent[i] as int] by {
                if i != lower {
                    assert(w.parent[i] == v.parent[i]);
                }
            }
        }
        assert forall|j: int| v.has(j) implies #[trigger] w.root(j) == (if v.root(j) == x_root
            || v.root(j) == y_root {
            v.link_root(x_root, y_root)
        } else {
            v.root(j)
        }) by {
            lemma_link_root(v, w, lower, upper, j);
        }
    }
}

/// In the forest with one more item, one old tag's root is what it was.
proof fn lemma_make_set_root(v: DisjointSetView, x: Seq<char>, j: int)
    requires
        v.valid(),
        !v.knows(x),
        v.has(j),
        v.make_set(x).links_valid(),
    ensures
        v.make_set(x).root(j) == v.root(j),
    decreases usize::MAX - v.rank[j],
{
    let w = v.make_set(x);
    if v.parent[j] != j {
        assert(w.parent[j] == v.parent[j]);
        lemma_make_set_root(v, x, v.parent[j] as int);
    } else {
        assert(w.parent[j] == j);
    }
}

/// `make_set` keeps the forest well formed and the old roots; a new item
/// is the root of its own tree and gets the next tag.
pub proof fn lemma_make_set(v: DisjointSetView, x: Seq<char>)
    requires
        v.valid(),
        v.len() < usize::MAX,
    ensures
        v.make_set(x).valid(),
        v.make_set(x).knows(x),
        forall|k: Seq<char>| v.knows(k) ==> v.make_set(x).knows(k) && v.make_set(x).tag(k) == v.tag(k),
        forall|k: Seq<char>| #[trigger] v.make_set(x).knows(k) ==> v.knows(k) || k == x,
        forall|j: int| v.has(j) ==> #[trigger] v.make_set(x).root(j) == v.root(j),
        !v.knows(x) ==> v.make_set(x).tag(x) == v.len() && v.make_set(x).root(v.len() as int)
            == v.len() && v.make_set(x).len() == v.len() + 1,
{
    let w = v.make_set(x);
    if !v.knows(x) {
        let n = v.parent.len() as int;
        assert(w.parent.drop_last() =~= v.parent);
        assert(w.rank.drop_last() =~= v.rank);
        assert(w.links_valid()) by {
            assert forall|i: int| 0 <= i < w.parent.len() implies (#[trigger] w.parent[i])
                < w.parent.len() by {
                if i < n {
                    assert(w.parent[i] == v.parent[i]);
                }
            }
            assert forall|i: int| 0 <= i < w.parent.len() && (#[trigger] w.parent[i])
                != i implies w.rank[i] < w.rank[w.parent[i] as int] by {
                if i < n {
                    assert(w.parent[i] == v.parent[i]);
                }
            }
        }
        assert(w.index_valid()) by {
            assert(w.index.dom() =~= v.index.dom().insert(x));
            assert forall|i: int| 0 <= i < w.items.len() implies w.index.contains_key(
                #[trigger] w.items[i],
            ) && w.index[w.items[i]] == i by {
                if i < n {
                    assert(w.items[i] == v.items[i]);
                }
            }
        }
        assert forall|j: int| v.has(j) implies #[trigger] w.root(j) == v.root(j) by {
            lemma_make_set_root(v, x, j);
        }
        assert(w.parent[n] == n);
    }
}

/// What a union does: it keeps the forest well formed, the items and their
/// tags, and it joins the trees of `x` and `y` and no others. Where `x` or
/// `y` is unknown, no tree changes.
pub proof fn lemma_after_union(v: DisjointSetView, x: Seq<char>, y: Seq<char>)
    requires
        v.valid(),
    ensures
        v.after_union(x, y).valid(),
        v.after_union(x, y).index == v.index,
        v.after_union(x, y).items == v.items,
        v.after_union(x, y).len() == v.len(),
        !(v.knows(x) && v.knows(y)) ==> forall|j: int|
            v.has(j) ==> #[trigger] v.after_union(x, y).root(j) == v.root(j),
        v.knows(x) && v.knows(y) ==> v.union(x, y) == Ok::<usize, EofError>(
            v.after_union(x, y).root(v.tag(x)) as usize,
        ) && v.after_union(x, y).root(v.tag(x)) == v.after_union(x, y).root(v.tag(y)),
        v.knows(x) && v.knows(y) ==> forall|j: int|
            v.has(j) ==> #[trigger] v.after_union(x, y).root(j) == (if v.root(j) == v.root(v.tag(x))
                || v.root(j) == v.root(v.tag(y)) {
                v.link_root(v.root(v.tag(x)), v.root(v.tag(y)))
            } else {
                v.root(j)
            }),
{
    if v.knows(x) {
        let ix = v.tag(x);
        let v1 = v.compress(ix);
        lemma_compress(v, ix);
        lemma_root(v, ix);
        if v.knows(y) {
            let iy = v.tag(y);
            let v2 = v1.compress(iy);
            lemma_compress(v1, iy);
            lemma_root(v, iy);
            let rx = v.root(ix);
            let ry = v.root(iy);
            assert(v2.root(rx) == rx && v2.root(ry) == ry) by {
                assert(v1.root(rx) == v.root(rx));
                assert(v2.root(rx) == v1.root(rx));
                assert(v1.root(ry) == v.root(ry));
                assert(v2.root(ry) == v1.root(ry));
            }
            lemma_root(v2, rx);
            lemma_root(v2, ry);
            assert(v2.parent[rx] == rx) by {
                if v2.parent[rx] != rx {
                    assert(v2.rank[rx] < v2.rank[v2.root(rx)]);
                }
            }
            assert(v2.parent[ry] == ry) by {
                if v2.parent[ry] != ry {
                    assert(v2.rank[ry] < v2.rank[v2.root(ry)]);
                }
            }
            lemma_link(v2, rx, ry);
            let w = v2.link(rx, ry);
            assert(w == v.after_union(x, y));
            assert(v2.link_root(rx, ry) == v.link_root(rx, ry));
            assert forall|j: int| v.has(j) implies #[trigger] w.root(j) == (if v.root(j) == rx
                || v.root(j) == ry {
                v.link_root(rx, ry)
            } else {
                v.root(j)
            }) by {
                assert(v1.root(j) == v.root(j));
                assert(v2.root(j) == v1.root(j));
            }
            assert(w.root(ix) == v.link_root(rx, ry));
            assert(w.root(iy) == v.link_root(rx, ry));
        }
    }
}

/// After `make_set(x)`, `find(x)` succeeds, a second `find(x)` gives the
/// same tag as the first, and for a new item that tag is the one that
/// `make_set` assigned: the number of items before.
pub proof fn lemma_find_after_make_set(v: DisjointSetView, x: Seq<char>)
    requires
        v.valid(),
        v.len() < usize::MAX,
    ensures
        v.make_set(x).find(x).is_some(),
        v.make_set(x).after_find(x).find(x) == v.make_set(x).find(x),
        !v.knows(x) ==> v.make_set(x).find(x) == Some(v.len() as usize),
        v.knows(x) ==> v.make_set(x).find(x) == v.find(x),
{
    lemma_make_set(v, x);
    let w = v.make_set(x);
    lemma_compress(w, w.tag(x));
}

/// `find` changes no root: after `find(x)` every item is in the cluster
/// in which it was.
pub proof fn lemma_after_find(v: DisjointSetView, x: Seq<char>)
    requires
        v.valid(),
    ensures
        v.after_find(x).valid(),
        v.after_find(x).index == v.index,
        v.after_find(x).items == v.items,
        v.after_find(x).rank == v.rank,
        forall|j: int| v.has(j) ==> #[trigger] v.after_find(x).root(j) == v.root(j),
{
    if v.knows(x) {
        lemma_compress(v, v.tag(x));
    }
}

/// Two parent sequences in which the same tags are their own parent have
/// as many tags with a parent.
proof fn lemma_non_roots_same(p: Seq<usize>, q: Seq<usize>)
    requires
        p.len() == q.len(),
        forall|i: int| 0 <= i < p.len() ==> ((#[trigger] p[i]) != i <==> q[i] != i),
    ensures
        non_roots(p) == non_roots(q),
    decreases p.len(),
{
    if p.len() > 0 {
        let n = p.len() - 1;
        assert(p[n] != n <==> q[n] != n);
        assert forall|i: int| 0 <= i < n implies ((#[trigger] p.drop_last()[i]) != i <==> q.drop_last()[i]
            != i) by {
            assert(p[i] != i <==> q[i] != i);
        }
        lemma_non_roots_same(p.drop_last(), q.drop_last());
    }
}

/// Pointing every tag straight at its root keeps the forest well formed,
/// the items, the ranks and every root.
pub proof fn lemma_finalized(v: DisjointSetView)
    requires
        v.valid(),
    ensures
        v.finalized().valid(),
        v.finalized().index == v.index,
        v.finalized().items == v.items,
        v.finalized().rank == v.rank,
        forall|i: int| v.has(i) ==> (#[trigger] v.finalized().parent[i]) == v.root(i),
        forall|i: int| v.has(i) ==> #[trigger] v.finalized().root(i) == v.root(i),
{
    let f = v.finalized();
    assert forall|i: int| 0 <= i < v.parent.len() implies (#[trigger] f.parent[i]) == v.root(i)
        && f.parent[i] < f.parent.len() && (f.parent[i] != i <==> v.parent[i] != i) && (f.parent[i]
        != i ==> f.rank[i] < f.rank[f.parent[i] as int]) by {
        lemma_root(v, i);
    }
    lemma_non_roots_same(f.parent, v.parent);
    assert(f.ranked());
    assert forall|i: int| v.has(i) implies #[trigger] f.root(i) == v.root(i) by {
        lemma_root(v, i);
        let r = v.root(i);
        lemma_root(v, r);
        assert(f.parent[r] == r);
        assert(f.root(r) == r);
        if f.parent[i] != i {
            assert(f.root(i) == f.root(f.parent[i] as int));
        }
    }
}

/// Whether `e` relates every tag below `n` to itself, and is symmetric and
/// transitive on the tags below `n`.
pub open spec fn is_equivalence(e: spec_fn(int, int) -> bool, n: nat) -> bool {
    &&& forall|a: int| 0 <= a < n ==> #[trigger] e(a, a)
    &&& forall|a: int, b: int| 0 <= a < n && 0 <= b < n && #[trigger] e(a, b) ==> e(b, a)
    &&& forall|a: int, b: int, c: int|
        0 <= a < n && 0 <= b < n && 0 <= c < n && #[trigger] e(a, b) && #[trigger] e(b, c) ==> e(
            a,
            c,
        )
}

/// Whether `e` relates the two items of every pair of known items.
pub open spec fn relates_pairs(
    v: DisjointSetView,
    e: spec_fn(int, int) -> bool,
    pairs: Seq<(Seq<char>, Seq<char>)>,
) -> bool {
    forall|k: int|
        0 <= k < pairs.len() && v.knows((#[trigger] pairs[k]).0) && v.knows(pairs[k].1) ==> e(
            v.tag(pairs[k].0),
            v.tag(pairs[k].1),
        )
}

/// A run of unions keeps the forest well formed, the items and their tags;
/// tags that were in one tree stay in one tree, and the two items of every
/// pair end in one tree.
pub proof fn lemma_after_unions(v: DisjointSetView, pairs: Seq<(Seq<char>, Seq<char>)>)
    requires
        v.valid(),
    ensures
        v.after_unions(pairs).valid(),
        v.after_unions(pairs).index == v.index,
        v.after_unions(pairs).items == v.items,
        v.after_unions(pairs).len() == v.len(),
        forall|a: int, b: int|
            v.has(a) && v.has(b) && v.same_tree(a, b) ==> #[trigger] v.after_unions(
                pairs,
            ).same_tree(a, b),
        relates_pairs(v, |a: int, b: int| v.after_unions(pairs).same_tree(a, b), pairs),
    decreases pairs.len(),
{
    let w = v.after_unions(pairs);
    if pairs.len() > 0 {
        let x = pairs[0].0;
        let y = pairs[0].1;
        let v1 = v.after_union(x, y);
        let rest = pairs.skip(1);
        lemma_after_union(v, x, y);
        lemma_after_unions(v1, rest);
        assert(w == v1.after_unions(rest));
        assert forall|a: int, b: int|
            v.has(a) && v.has(b) && v.same_tree(a, b) implies #[trigger] w.same_tree(a, b) by {
            assert(v1.root(a) == v1.root(b));
            assert(v1.same_tree(a, b));
        }
        let e = |a: int, b: int| w.same_tree(a, b);
        let e1 = |a: int, b: int| v1.after_unions(rest).same_tree(a, b);
        assert(relates_pairs(v1, e1, rest));
        assert forall|k: int|
            0 <= k < pairs.len() && v.knows((#[trigger] pairs[k]).0) && v.knows(
                pairs[k].1,
            ) implies e(v.tag(pairs[k].0), v.tag(pairs[k].1)) by {
            if k == 0 {
                let ix = v.tag(x);
                let iy = v.tag(y);
                assert(v1.same_tree(ix, iy));
                assert(v1.has(ix) && v1.has(iy));
                assert(w.same_tree(ix, iy));
            } else {
                assert(rest[k - 1] == pairs[k]);
                assert(e1(v1.tag(rest[k - 1].0), v1.tag(rest[k - 1].1)));
            }
        }
    }
}

/// The partition after a run of unions is the finest that keeps the old
/// trees together and joins every pair: whatever equivalence `e` does
/// both relates all tags that end in one tree.
pub proof fn lemma_after_unions_least(
    v: DisjointSetView,
    pairs: Seq<(Seq<char>, Seq<char>)>,
    e: spec_fn(int, int) -> bool,
)
    requires
        v.valid(),
        is_equivalence(e, v.len()),
        forall|a: int, b: int| v.has(a) && v.has(b) && v.same_tree(a, b) ==> #[trigger] e(a, b),
        relates_pairs(v, e, pairs),
    ensures
        forall|a: int, b: int|
            v.has(a) && v.has(b) && v.after_unions(pairs).same_tree(a, b) ==> #[trigger] e(a, b),
    decreases pairs.len(),
{
    if pairs.len() > 0 {
        let x = pairs[0].0;
        let y = pairs[0].1;
        let v1 = v.after_union(x, y);
        let rest = pairs.skip(1);
        lemma_after_union(v, x, y);
        assert forall|a: int, b: int|
            v1.has(a) && v1.has(b) && v1.same_tree(a, b) implies #[trigger] e(a, b) by {
            if v.root(a) == v.root(b) {
                assert(v.same_tree(a, b));
            } else {
                let ix = v.tag(x);
                let iy = v.tag(y);
                assert(pairs[0].0 == x);
                assert(e(ix, iy));
                assert(e(iy, ix));
                assert(v.same_tree(a, ix) || v.same_tree(a, iy));
                assert(v.same_tree(ix, b) || v.same_tree(iy, b));
                if v.same_tree(a, ix) {
                    assert(v.same_tree(iy, b));
                    assert(e(a, ix) && e(iy, b));
                    assert(e(a, iy));
                } else {
                    assert(v.same_tree(ix, b));
                    assert(e(a, iy) && e(ix, b));
                    assert(e(a, ix));
                }
            }
        }
        assert forall|k: int|
            0 <= k < rest.len() && v1.knows((#[trigger] rest[k]).0) && v1.knows(
                rest[k].1,
            ) implies e(v1.tag(rest[k].0), v1.tag(rest[k].1)) by {
            assert(rest[k] == pairs[k + 1]);
        }
        lemma_after_unions_least(v1, rest, e);
    }
}

/// The pair `p` with its two items swapped.
pub open spec fn swapped(p: (Seq<char>, Seq<char>)) -> (Seq<char>, Seq<char>) {
    (p.1, p.0)
}

/// Whether every pair of `a` occurs in `b`, as it is or with its two
/// items swapped.
pub open spec fn pairs_among(a: Seq<(Seq<char>, Seq<char>)>, b: Seq<(Seq<char>, Seq<char>)>) -> bool {
    forall|i: int| 0 <= i < a.len() ==> b.contains(#[trigger] a[i]) || b.contains(swapped(a[i]))
}

/// Whatever a run of unions joins, a run over at least the same pairs
/// joins too.
proof fn lemma_unions_refine(
    v: DisjointSetView,
    first: Seq<(Seq<char>, Seq<char>)>,
    second: Seq<(Seq<char>, Seq<char>)>,
)
    requires
        v.valid(),
        pairs_among(first, second),
    ensures
        forall|a: int, b: int|
            v.has(a) && v.has(b) && v.after_unions(first).same_tree(a, b) ==> #[trigger] v.after_unions(
                second,
            ).same_tree(a, b),
{
    let w = v.after_unions(second);
    let e = |a: int, b: int| w.same_tree(a, b);
    lemma_after_unions(v, second);
    assert(is_equivalence(e, v.len()));
    assert(relates_pairs(v, e, first)) by {
        assert forall|k: int|
            0 <= k < first.len() && v.knows((#[trigger] first[k]).0) && v.knows(
                first[k].1,
            ) implies e(v.tag(first[k].0), v.tag(first[k].1)) by {
            if second.contains(first[k]) {
                let j = choose|j: int| 0 <= j < second.len() && second[j] == first[k];
                assert(v.knows(second[j].0) && v.knows(second[j].1));
            } else {
                let j = choose|j: int| 0 <= j < second.len() && second[j] == swapped(first[k]);
                assert(v.knows(second[j].0) && v.knows(second[j].1));
                assert(e(v.tag(second[j].0), v.tag(second[j].1)));
            }
        }
    }
    lemma_after_unions_least(v, first, e);
    assert forall|a: int, b: int|
        v.has(a) && v.has(b) && v.after_unions(first).same_tree(a, b) implies #[trigger] w.same_tree(
        a,
        b,
    ) by {
        assert(e(a, b));
    }
}

/// Order independence: two runs of unions over the same pairs, in whatever
/// order, however often each is made and whichever of its two items comes
/// first, leave the same partition. The tags of the roots may differ.
pub proof fn lemma_union_order_independent(
    v: DisjointSetView,
    first: Seq<(Seq<char>, Seq<char>)>,
    second: Seq<(Seq<char>, Seq<char>)>,
)
    requires
        v.valid(),
        pairs_among(first, second),
        pairs_among(second, first),
    ensures
        forall|x: Seq<char>, y: Seq<char>|
            v.after_unions(first).same_set(x, y) == v.after_unions(second).same_set(x, y),
{
    lemma_unions_refine(v, first, second);
    lemma_unions_refine(v, second, first);
    lemma_after_unions(v, first);
    lemma_after_unions(v, second);
    let w1 = v.after_unions(first);
    let w2 = v.after_unions(second);
    assert forall|x: Seq<char>, y: Seq<char>| w1.same_set(x, y) == w2.same_set(x, y) by {
        if v.knows(x) && v.knows(y) {
            let a = v.tag(x);
            let b = v.tag(y);
            assert(v.has(a) && v.has(b));
            if w1.same_tree(a, b) {
                assert(w2.same_tree(a, b));
            }
            if w2.same_tree(a, b) {
                assert(w1.same_tree(a, b));
            }
        }
    }
}

} // verus!
