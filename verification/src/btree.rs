//! A B-tree of `i64` keys with minimum degree `t`, after Cormen et al.:
//! every node but the root holds between `t - 1` and `2t - 1` keys, an
//! internal node has one child more than keys, and all leaves lie at the same
//! depth. Keys may repeat.
//!
//! The abstract contents of a node are its keys in order (`contents`): the
//! keys of child 0, own key 0, the keys of child 1, own key 1, ..., the keys
//! of the last child. A tree is ordered when that sequence is sorted.

use vstd::prelude::*;
use vstd::multiset::Multiset;

verus! {

broadcast use vstd::seq_lib::group_to_multiset_ensures;

/// Nondecreasing order.
pub open spec fn sorted(s: Seq<i64>) -> bool {
    forall|i: int, j: int| 0 <= i <= j < s.len() ==> s[i] <= s[j]
}

#[derive(Debug)]
pub struct BtreeNode {
    keys: Vec<i64>,
    is_leaf: bool,
    children: Vec<Box<BtreeNode>>,
}

impl BtreeNode {
    /// The in-order keys of the first `j` children, each followed by the own
    /// key after it.
    spec fn pre(self, j: nat) -> Seq<i64>
        decreases self, j,
    {
        if j == 0 || j > self.keys@.len() || j > self.children@.len() {
            Seq::empty()
        } else {
            self.pre((j - 1) as nat) + self.children@[j - 1].seq() + seq![self.keys@[j - 1]]
        }
    }

    /// The in-order keys of the subtree rooted here.
    spec fn seq(self) -> Seq<i64>
        decreases self, self.keys@.len() + 1,
    {
        if self.is_leaf {
            self.keys@
        } else if self.children@.len() == self.keys@.len() + 1 {
            self.pre(self.keys@.len()) + self.children@[self.keys@.len() as int].seq()
        } else {
            Seq::empty()
        }
    }

    /// The in-order keys after child `j`: own key `j`, child `j + 1`, and so on.
    spec fn post(self, j: nat) -> Seq<i64>
        decreases self.keys@.len() - j,
    {
        if j >= self.keys@.len() || j + 1 >= self.children@.len() {
            Seq::empty()
        } else {
            seq![self.keys@[j as int]] + self.children@[j + 1int].seq() + self.post(j + 1)
        }
    }

    /// The subtree's shape with minimum degree `t` and height `h`: at most
    /// `2t - 1` keys here, leaves exactly at height 0, one child more than
    /// keys in an internal node, and at least `t - 1` keys in every child.
    spec fn shape(self, t: nat, h: nat) -> bool
        decreases self,
    {
        &&& self.keys@.len() + 1 <= 2 * t
        &&& if h == 0 {
            self.is_leaf && self.children@.len() == 0
        } else {
            &&& !self.is_leaf
            &&& self.children@.len() == self.keys@.len() + 1
            &&& forall|j: int|
                0 <= j < self.children@.len() ==> t <= (#[trigger] self.children@[j]).keys@.len() + 1
                    && self.children@[j].shape(t, (h - 1) as nat)
        }
    }

    /// The keys of the subtree, in order.
    pub closed spec fn contents(self) -> Seq<i64> {
        self.seq()
    }

    /// The keys of the subtree, counted with repetition.
    pub closed spec fn key_multiset(self) -> Multiset<i64> {
        self.seq().to_multiset()
    }

    /// The node's own keys.
    pub closed spec fn key_seq(self) -> Seq<i64> {
        self.keys@
    }

    pub closed spec fn leaf(self) -> bool {
        self.is_leaf
    }

    /// The node's children.
    pub closed spec fn child_seq(self) -> Seq<Box<BtreeNode>> {
        self.children@
    }

    /// The height of the subtree, along its first children: 0 for a leaf.
    spec fn height(self) -> nat
        decreases self,
    {
        if self.is_leaf || self.children@.len() == 0 {
            0
        } else {
            1 + self.children@[0].height()
        }
    }

    /// Every internal node of the subtree has one child more than keys, and
    /// a leaf has none.
    pub closed spec fn formed(self) -> bool
        decreases self,
    {
        if self.is_leaf {
            self.children@.len() == 0
        } else {
            &&& self.children@.len() == self.keys@.len() + 1
            &&& forall|j: int| 0 <= j < self.children@.len() ==> (#[trigger] self.children@[j]).formed()
        }
    }

    /// A search tree: well formed, with its keys in order.
    pub closed spec fn ordered(self) -> bool {
        self.formed() && sorted(self.seq())
    }

    /// A B-tree of minimum degree `t` whose keys are in order.
    pub closed spec fn is_tree(self, t: nat) -> bool {
        self.shape(t, self.height()) && sorted(self.seq())
    }

    /// The height of the tree (0 for a leaf).
    pub closed spec fn tree_height(self) -> nat {
        self.height()
    }

    /// A tree from which a key can be removed: an internal root holds a key
    /// or has a child with at least `t` keys.
    pub closed spec fn removable(self, t: nat) -> bool {
        !self.is_leaf ==> self.keys@.len() > 0 || self.children@[0].keys@.len() >= t
    }
}

// ---------------------------------------------------------------------------
// How the in-order sequence decomposes.
// ---------------------------------------------------------------------------

impl BtreeNode {
    /// The in-order sequence around child `j`.
    proof fn lemma_around(self, j: nat)
        requires
            !self.is_leaf,
            self.children@.len() == self.keys@.len() + 1,
            j <= self.keys@.len(),
        ensures
            self.seq() == self.pre(j) + self.children@[j as int].seq() + self.post(j),
        decreases self.keys@.len() - j,
    {
        let n = self.keys@.len();
        if j == n {
            assert(self.post(j) =~= Seq::<i64>::empty());
            assert(self.seq() =~= self.pre(j) + self.children@[j as int].seq() + self.post(j));
        } else {
            self.lemma_around(j + 1);
            assert(self.pre(j + 1) == self.pre(j) + self.children@[j as int].seq() + seq![self.keys@[j as int]]);
            assert(self.post(j) == seq![self.keys@[j as int]] + self.children@[j + 1int].seq() + self.post(j + 1));
            assert(self.seq() =~= self.pre(j) + self.children@[j as int].seq() + self.post(j));
        }
    }

    /// `pre` depends only on the first keys and children.
    proof fn lemma_pre_congr(a: BtreeNode, b: BtreeNode, j: nat)
        requires
            j <= a.keys@.len(),
            j <= b.keys@.len(),
            j <= a.children@.len(),
            j <= b.children@.len(),
            forall|i: int| 0 <= i < j ==> a.keys@[i] == b.keys@[i],
            forall|i: int| 0 <= i < j ==> a.children@[i] == b.children@[i],
        ensures
            a.pre(j) == b.pre(j),
        decreases j,
    {
        if j > 0 {
            Self::lemma_pre_congr(a, b, (j - 1) as nat);
        }
    }

    /// `post` depends only on the last keys and children, wherever they stand.
    proof fn lemma_post_congr(a: BtreeNode, b: BtreeNode, ja: nat, jb: nat)
        requires
            a.children@.len() == a.keys@.len() + 1,
            b.children@.len() == b.keys@.len() + 1,
            ja <= a.keys@.len(),
            jb <= b.keys@.len(),
            a.keys@.subrange(ja as int, a.keys@.len() as int) == b.keys@.subrange(jb as int, b.keys@.len() as int),
            a.children@.subrange(ja + 1int, a.children@.len() as int) == b.children@.subrange(
                jb + 1int,
                b.children@.len() as int,
            ),
        ensures
            a.post(ja) == b.post(jb),
        decreases a.keys@.len() - ja,
    {
        assert(a.keys@.subrange(ja as int, a.keys@.len() as int).len() == b.keys@.subrange(
            jb as int,
            b.keys@.len() as int,
        ).len());
        if ja >= a.keys@.len() {
            assert(ja == a.keys@.len());
            assert(a.keys@.subrange(ja as int, a.keys@.len() as int).len() == 0);
            assert(b.keys@.subrange(jb as int, b.keys@.len() as int).len() == b.keys@.len() - jb);
            assert(jb >= b.keys@.len());
            assert(a.post(ja) =~= Seq::<i64>::empty());
            assert(b.post(jb) =~= Seq::<i64>::empty());
        } else {
            let ka = a.keys@.subrange(ja as int, a.keys@.len() as int);
            let kb = b.keys@.subrange(jb as int, b.keys@.len() as int);
            let ca = a.children@.subrange(ja + 1int, a.children@.len() as int);
            let cb = b.children@.subrange(jb + 1int, b.children@.len() as int);
            assert(ka.len() == kb.len());
            assert(a.keys@.subrange(ja + 1int, a.keys@.len() as int) =~= ka.subrange(1, ka.len() as int));
            assert(b.keys@.subrange(jb + 1int, b.keys@.len() as int) =~= kb.subrange(1, kb.len() as int));
            assert(a.children@.subrange(ja + 2int, a.children@.len() as int) =~= ca.subrange(1, ca.len() as int));
            assert(b.children@.subrange(jb + 2int, b.children@.len() as int) =~= cb.subrange(1, cb.len() as int));
            Self::lemma_post_congr(a, b, ja + 1, jb + 1);
            assert(a.keys@[ja as int] == ka[0]);
            assert(b.keys@[jb as int] == kb[0]);
            assert(a.children@[ja + 1int] == ca[0]);
            assert(b.children@[jb + 1int] == cb[0]);
            assert(a.post(ja) == seq![a.keys@[ja as int]] + a.children@[ja + 1int].seq() + a.post(ja + 1));
            assert(b.post(jb) == seq![b.keys@[jb as int]] + b.children@[jb + 1int].seq() + b.post(jb + 1));
        }
    }

    /// The in-order sequence of a node made of the keys of `a`, a key `s`
    /// and the keys of `b`, with the children of `a` followed by those of `b`.
    proof fn lemma_concat(m: BtreeNode, a: BtreeNode, s: i64, b: BtreeNode)
        requires
            m.is_leaf == a.is_leaf,
            m.is_leaf == b.is_leaf,
            m.keys@ == a.keys@ + seq![s] + b.keys@,
            m.is_leaf ==> a.children@.len() == 0 && b.children@.len() == 0 && m.children@.len() == 0,
            !m.is_leaf ==> a.children@.len() == a.keys@.len() + 1 && b.children@.len() == b.keys@.len() + 1
                && m.children@ == a.children@ + b.children@,
        ensures
            m.seq() == a.seq() + seq![s] + b.seq(),
    {
        if m.is_leaf {
        } else {
            let na = a.keys@.len();
            Self::lemma_pre_congr(m, a, na);
            assert(m.children@[na as int] == a.children@[na as int]);
            assert(m.keys@[na as int] == s);
            assert(m.pre(na + 1) == a.pre(na) + a.children@[na as int].seq() + seq![s]);
            assert(a.seq() == a.pre(na) + a.children@[na as int].seq());
            m.lemma_around(na + 1);
            b.lemma_around(0);
            assert(b.pre(0) =~= Seq::<i64>::empty());
            assert(m.children@[na + 1int] == b.children@[0]);
            assert(m.keys@.subrange(na + 1int, m.keys@.len() as int) =~= b.keys@.subrange(0, b.keys@.len() as int));
            assert(m.children@.subrange(na + 2int, m.children@.len() as int) =~= b.children@.subrange(1, b.children@.len() as int));
            Self::lemma_post_congr(m, b, na + 1, 0);
            assert(m.seq() =~= a.seq() + seq![s] + b.seq());
        }
    }

    /// Replacing child `j` by one with the same in-order keys keeps the node's.
    proof fn lemma_replace_child(a: BtreeNode, b: BtreeNode, j: nat)
        requires
            !a.is_leaf,
            !b.is_leaf,
            a.children@.len() == a.keys@.len() + 1,
            b.keys@ == a.keys@,
            b.children@.len() == a.children@.len(),
            j < a.children@.len(),
            forall|i: int| 0 <= i < a.children@.len() && i != j ==> b.children@[i] == a.children@[i],
        ensures
            b.seq() == a.pre(j) + b.children@[j as int].seq() + a.post(j),
    {
        Self::lemma_pre_congr(a, b, j);
        assert(a.keys@.subrange(j as int, a.keys@.len() as int) =~= b.keys@.subrange(j as int, b.keys@.len() as int));
        assert(a.children@.subrange(j + 1int, a.children@.len() as int) =~= b.children@.subrange(j + 1int, b.children@.len() as int));
        Self::lemma_post_congr(a, b, j, j);
        b.lemma_around(j);
    }
}


// ---------------------------------------------------------------------------
// Order facts.
// ---------------------------------------------------------------------------

/// Every element of `a` is at most every element of `b`.
pub open spec fn all_le(a: Seq<i64>, b: Seq<i64>) -> bool {
    forall|i: int, j: int| 0 <= i < a.len() && 0 <= j < b.len() ==> a[i] <= b[j]
}

/// The parts of a sorted concatenation are sorted and in order.
proof fn lemma_sorted_parts(a: Seq<i64>, b: Seq<i64>, c: Seq<i64>)
    requires
        sorted(a + b + c),
    ensures
        sorted(a),
        sorted(b),
        sorted(c),
        all_le(a, b),
        all_le(b, c),
        all_le(a, c),
{
    let s = a + b + c;
    assert forall|i: int, j: int| 0 <= i <= j < a.len() implies a[i] <= a[j] by {
        assert(s[i] == a[i] && s[j] == a[j]);
    }
    assert forall|i: int, j: int| 0 <= i <= j < b.len() implies b[i] <= b[j] by {
        assert(s[a.len() + i] == b[i] && s[a.len() + j] == b[j]);
    }
    assert forall|i: int, j: int| 0 <= i <= j < c.len() implies c[i] <= c[j] by {
        assert(s[a.len() + b.len() + i] == c[i] && s[a.len() + b.len() + j] == c[j]);
    }
    assert forall|i: int, j: int| 0 <= i < a.len() && 0 <= j < b.len() implies a[i] <= b[j] by {
        assert(s[i] == a[i] && s[a.len() + j] == b[j]);
    }
    assert forall|i: int, j: int| 0 <= i < b.len() && 0 <= j < c.len() implies b[i] <= c[j] by {
        assert(s[a.len() + i] == b[i] && s[a.len() + b.len() + j] == c[j]);
    }
    assert forall|i: int, j: int| 0 <= i < a.len() && 0 <= j < c.len() implies a[i] <= c[j] by {
        assert(s[i] == a[i] && s[a.len() + b.len() + j] == c[j]);
    }
}

/// Sorted parts in order make a sorted concatenation.
proof fn lemma_sorted_join(a: Seq<i64>, b: Seq<i64>, c: Seq<i64>)
    requires
        sorted(a),
        sorted(b),
        sorted(c),
        all_le(a, b),
        all_le(b, c),
        all_le(a, c),
    ensures
        sorted(a + b + c),
{
    let s = a + b + c;
    assert forall|i: int, j: int| 0 <= i <= j < s.len() implies s[i] <= s[j] by {
        if i < a.len() {
            if j < a.len() {
            } else if j < a.len() + b.len() {
                assert(s[j] == b[j - a.len()]);
            } else {
                assert(s[j] == c[j - a.len() - b.len()]);
            }
        } else if i < a.len() + b.len() {
            assert(s[i] == b[i - a.len()]);
            if j < a.len() + b.len() {
                assert(s[j] == b[j - a.len()]);
            } else {
                assert(s[j] == c[j - a.len() - b.len()]);
            }
        } else {
            assert(s[i] == c[i - a.len() - b.len()]);
            assert(s[j] == c[j - a.len() - b.len()]);
        }
    }
}

impl BtreeNode {
    proof fn lemma_shape_height(self, t: nat, h: nat)
        requires
            self.shape(t, h),
        ensures
            self.height() == h,
            self.formed(),
        decreases self,
    {
        if h > 0 {
            assert forall|j: int| 0 <= j < self.children@.len() implies (#[trigger] self.children@[j]).formed() by {
                self.children@[j].lemma_shape_height(t, (h - 1) as nat);
            }
            self.children@[0].lemma_shape_height(t, (h - 1) as nat);
        }
    }

    /// The own keys around child `j` bound its keys, and a sorted node has
    /// sorted children.
    proof fn lemma_child_bounds(self, j: int)
        requires
            !self.is_leaf,
            self.children@.len() == self.keys@.len() + 1,
            sorted(self.seq()),
            0 <= j < self.children@.len(),
        ensures
            sorted(self.children@[j].seq()),
            j > 0 ==> forall|i: int| 0 <= i < self.children@[j].seq().len() ==> self.keys@[j - 1] <= #[trigger] self.children@[j].seq()[i],
            j < self.keys@.len() ==> forall|i: int| 0 <= i < self.children@[j].seq().len() ==> #[trigger] self.children@[j].seq()[i] <= self.keys@[j],
            all_le(self.pre(j as nat), self.children@[j].seq()),
            all_le(self.children@[j].seq(), self.post(j as nat)),
    {
        self.lemma_around(j as nat);
        let a = self.pre(j as nat);
        let b = self.children@[j].seq();
        let c = self.post(j as nat);
        lemma_sorted_parts(a, b, c);
        if j > 0 {
            assert(a == self.pre((j - 1) as nat) + self.children@[j - 1].seq() + seq![self.keys@[j - 1]]);
            assert(a[a.len() - 1] == self.keys@[j - 1]);
        }
        if j < self.keys@.len() {
            assert(c == seq![self.keys@[j]] + self.children@[j + 1].seq() + self.post((j + 1) as nat));
            assert(c[0] == self.keys@[j]);
        }
    }

    /// The in-order sequence is at least as long as the own keys, and holds them.
    proof fn lemma_keys_in_seq(self)
        requires
            self.formed(),
        ensures
            self.seq().len() >= self.keys@.len(),
            forall|j: int| 0 <= j < self.keys@.len() ==> self.seq().contains(#[trigger] self.keys@[j]),
    {
        if self.is_leaf {
            assert forall|j: int| 0 <= j < self.keys@.len() implies self.seq().contains(#[trigger] self.keys@[j]) by {
                assert(self.seq()[j] == self.keys@[j]);
            }
        } else {
            let n = self.keys@.len();
            self.lemma_pre_len(n);
            assert forall|j: int| 0 <= j < self.keys@.len() implies self.seq().contains(#[trigger] self.keys@[j]) by {
                self.lemma_around((j + 1) as nat);
                let p = self.pre((j + 1) as nat);
                assert(p == self.pre(j as nat) + self.children@[j].seq() + seq![self.keys@[j]]);
                assert(self.seq()[p.len() - 1] == self.keys@[j]);
            }
        }
    }

    proof fn lemma_pre_len(self, j: nat)
        requires
            !self.is_leaf,
            self.children@.len() == self.keys@.len() + 1,
            j <= self.keys@.len(),
        ensures
            self.pre(j).len() >= j,
            self.seq().len() >= j,
        decreases j,
    {
        if j > 0 {
            self.lemma_pre_len((j - 1) as nat);
        }
        self.lemma_around(j);
    }
}

impl BtreeNode {
    /// The parts before and after child `j` are bounded by the own keys next to it.
    proof fn lemma_outer_bounds(self, j: int)
        requires
            !self.is_leaf,
            self.children@.len() == self.keys@.len() + 1,
            sorted(self.seq()),
            0 <= j < self.children@.len(),
        ensures
            j > 0 ==> forall|i: int| 0 <= i < self.pre(j as nat).len() ==> #[trigger] self.pre(j as nat)[i] <= self.keys@[j - 1],
            j < self.keys@.len() ==> forall|i: int| 0 <= i < self.post(j as nat).len() ==> self.keys@[j] <= #[trigger] self.post(j as nat)[i],
    {
        self.lemma_around(j as nat);
        let a = self.pre(j as nat);
        let c = self.post(j as nat);
        lemma_sorted_parts(a, self.children@[j].seq(), c);
        if j > 0 {
            assert(a == self.pre((j - 1) as nat) + self.children@[j - 1].seq() + seq![self.keys@[j - 1]]);
            assert(a[a.len() - 1] == self.keys@[j - 1]);
        }
        if j < self.keys@.len() {
            assert(c == seq![self.keys@[j]] + self.children@[j + 1].seq() + self.post((j + 1) as nat));
            assert(c[0] == self.keys@[j]);
        }
    }

    /// A key strictly between the own keys around child `j` can only be in
    /// that child.
    proof fn lemma_descend(self, j: int, k: i64)
        requires
            !self.is_leaf,
            self.children@.len() == self.keys@.len() + 1,
            sorted(self.seq()),
            0 <= j < self.children@.len(),
            j > 0 ==> self.keys@[j - 1] < k,
            j < self.keys@.len() ==> k < self.keys@[j],
        ensures
            self.seq().contains(k) <==> self.children@[j].seq().contains(k),
            self.seq().to_multiset().count(k) == self.children@[j].seq().to_multiset().count(k),
    {
        self.lemma_around(j as nat);
        self.lemma_outer_bounds(j);
        let a = self.pre(j as nat);
        let b = self.children@[j].seq();
        let c = self.post(j as nat);
        assert(!a.contains(k)) by {
            if a.contains(k) {
                let i = choose|i: int| 0 <= i < a.len() && a[i] == k;
                assert(a[i] <= self.keys@[j - 1]);
            }
        }
        assert(!c.contains(k)) by {
            if c.contains(k) {
                let i = choose|i: int| 0 <= i < c.len() && c[i] == k;
                assert(self.keys@[j] <= c[i]);
            }
        }
        vstd::seq_lib::lemma_multiset_commutative(a + b, c);
        vstd::seq_lib::lemma_multiset_commutative(a, b);
        assert(a.to_multiset().count(k) == 0);
        assert(c.to_multiset().count(k) == 0);
        vstd::seq_lib::to_multiset_contains(self.seq(), k);
        vstd::seq_lib::to_multiset_contains(b, k);
    }

    /// The first key of a nonempty subtree is that of its first child.
    proof fn lemma_first_last(self)
        requires
            !self.is_leaf,
            self.children@.len() == self.keys@.len() + 1,
        ensures
            self.children@[0].seq().len() > 0 ==> self.seq()[0] == self.children@[0].seq()[0],
            self.children@[self.keys@.len() as int].seq().len() > 0 ==> self.seq().last()
                == self.children@[self.keys@.len() as int].seq().last(),
    {
        self.lemma_around(0);
        assert(self.pre(0) =~= Seq::<i64>::empty());
        assert(self.seq() == self.pre(0) + self.children@[0].seq() + self.post(0));
        let n = self.keys@.len();
        assert(self.seq() == self.pre(n) + self.children@[n as int].seq());
    }
}

impl BtreeNode {
    /// An empty node.
    pub fn new(is_leaf: bool) -> (node: Self)
        ensures
            node.leaf() == is_leaf,
            node.key_seq() == Seq::<i64>::empty(),
            node.child_seq().len() == 0,
            is_leaf ==> node.contents() == Seq::<i64>::empty(),
            is_leaf ==> forall|t: nat| t >= 1 ==> #[trigger] node.is_tree(t),
    {
        BtreeNode { keys: Vec::new(), is_leaf, children: Vec::new() }
    }

    /// Whether the node holds the most keys allowed with minimum degree `t`.
    pub fn is_full(&self, t: usize) -> (r: bool)
        requires
            1 <= t <= usize::MAX / 2,
        ensures
            r == (self.key_seq().len() == 2 * t - 1),
    {
        self.keys.len() == 2 * t - 1
    }

    /// The smallest key of a nonempty subtree.
    fn get_min(&self, Ghost(t): Ghost<nat>) -> (r: &i64)
        requires
            t >= 2,
            self.shape(t, self.height()),
            self.seq().len() > 0,
        ensures
            *r == self.seq()[0],
        decreases self,
    {
        proof {
            self.lemma_shape_height(t, self.height());
        }
        if self.is_leaf {
            &self.keys[0]
        } else {
            proof {
                let c = self.children@[0];
                c.lemma_shape_height(t, (self.height() - 1) as nat);
                c.lemma_keys_in_seq();
                self.lemma_first_last();
            }
            self.children[0].get_min(Ghost(t))
        }
    }

    /// The largest key of a nonempty subtree.
    fn get_max(&self, Ghost(t): Ghost<nat>) -> (r: &i64)
        requires
            t >= 2,
            self.shape(t, self.height()),
            self.seq().len() > 0,
        ensures
            *r == self.seq().last(),
        decreases self,
    {
        proof {
            self.lemma_shape_height(t, self.height());
        }
        if self.is_leaf {
            &self.keys[self.keys.len() - 1]
        } else {
            let last = self.children.len() - 1;
            proof {
                let c = self.children@[last as int];
                c.lemma_shape_height(t, (self.height() - 1) as nat);
                c.lemma_keys_in_seq();
                self.lemma_first_last();
            }
            self.children[last].get_max(Ghost(t))
        }
    }

    /// Finds a node of the subtree that holds `k`, and the position of `k`
    /// among its own keys.
    pub fn search(&self, k: i64) -> (r: Option<(&BtreeNode, usize)>)
        requires
            self.ordered(),
        ensures
            match r {
                Some((n, i)) => i < n.key_seq().len() && n.key_seq()[i as int] == k
                    && self.contents().contains(k),
                None => !self.contents().contains(k),
            },
        decreases self,
    {
        let mut i: usize = 0;
        while i < self.keys.len() && k > self.keys[i]
            invariant
                0 <= i <= self.keys@.len(),
                forall|j: int| 0 <= j < i ==> self.keys@[j] < k,
            decreases self.keys@.len() - i,
        {
            i += 1;
        }
        proof {
            self.lemma_keys_in_seq();
        }
        if i < self.keys.len() && k == self.keys[i] {
            return Some((self, i));
        }
        if self.is_leaf {
            proof {
                assert forall|j: int| 0 <= j < self.keys@.len() implies self.keys@[j] != k by {
                    if j > i {
                        assert(self.seq()[i as int] <= self.seq()[j]);
                    }
                }
            }
            None
        } else {
            proof {
                self.lemma_descend(i as int, k);
                self.lemma_child_bounds(i as int);
            }
            self.children[i].search(k)
        }
    }
}

/// In a sorted concatenation, the middle part can be replaced by a sorted
/// sequence whose elements come from it or are one key `k` that fits between
/// the outer parts.
proof fn lemma_sorted_between(a: Seq<i64>, b: Seq<i64>, c: Seq<i64>, b2: Seq<i64>, k: i64)
    requires
        sorted(a + b + c),
        sorted(b2),
        forall|x: i64| b2.contains(x) ==> b.contains(x) || x == k,
        forall|i: int| 0 <= i < a.len() ==> a[i] <= k,
        forall|i: int| 0 <= i < c.len() ==> k <= c[i],
    ensures
        sorted(a + b2 + c),
{
    lemma_sorted_parts(a, b, c);
    assert forall|i: int, j: int| 0 <= i < a.len() && 0 <= j < b2.len() implies a[i] <= b2[j] by {
        assert(b2.contains(b2[j]));
        if b2[j] != k {
            let m = choose|m: int| 0 <= m < b.len() && b[m] == b2[j];
        }
    }
    assert forall|i: int, j: int| 0 <= i < b2.len() && 0 <= j < c.len() implies b2[i] <= c[j] by {
        assert(b2.contains(b2[i]));
        if b2[i] != k {
            let m = choose|m: int| 0 <= m < b.len() && b[m] == b2[i];
        }
    }
    lemma_sorted_join(a, b2, c);
}

/// The multiset of a concatenation of three parts.
proof fn lemma_ms3(a: Seq<i64>, b: Seq<i64>, c: Seq<i64>)
    ensures
        (a + b + c).to_multiset() == a.to_multiset().add(b.to_multiset()).add(c.to_multiset()),
{
    vstd::seq_lib::lemma_multiset_commutative(a + b, c);
    vstd::seq_lib::lemma_multiset_commutative(a, b);
}

impl BtreeNode {
    /// Replacing child `i` by one whose keys are those of the old child, plus
    /// (`grow`) or minus (`!grow`) one `k` that fits between the own keys
    /// around it, keeps the node ordered, with `k` added or removed.
    #[verifier::rlimit(80)]
    #[verifier::spinoff_prover]
    proof fn lemma_child_changed(q: BtreeNode, q2: BtreeNode, i: int, k: i64, grow: bool)
        requires
            !q.is_leaf,
            !q2.is_leaf,
            q.children@.len() == q.keys@.len() + 1,
            q.formed(),
            sorted(q.seq()),
            0 <= i < q.children@.len(),
            i > 0 ==> q.keys@[i - 1] <= k,
            i < q.keys@.len() ==> k <= q.keys@[i],
            q2.keys@ == q.keys@,
            q2.children@.len() == q.children@.len(),
            forall|j: int| 0 <= j < q.children@.len() && j != i ==> q2.children@[j] == q.children@[j],
            q2.children@[i].formed(),
            sorted(q2.children@[i].seq()),
            grow ==> q2.children@[i].seq().to_multiset() == q.children@[i].seq().to_multiset().insert(k),
            !grow ==> q2.children@[i].seq().to_multiset() == q.children@[i].seq().to_multiset().remove(k),
            !grow ==> q.children@[i].seq().to_multiset().count(k) > 0,
        ensures
            q2.formed(),
            sorted(q2.seq()),
            grow ==> q2.seq().to_multiset() == q.seq().to_multiset().insert(k),
            !grow ==> q2.seq().to_multiset() == q.seq().to_multiset().remove(k),
    {
        let c = q.children@[i];
        let c2 = q2.children@[i];
        Self::lemma_replace_child(q, q2, i as nat);
        q.lemma_around(i as nat);
        let a = q.pre(i as nat);
        let b = q.post(i as nat);
        assert(q2.seq() == a + c2.seq() + b);
        assert(q.seq() == a + c.seq() + b);
        assert forall|x: i64| c2.seq().to_multiset().count(x) > 0 implies c.seq().to_multiset().count(x) > 0 || x == k by {
            broadcast use vstd::multiset::group_multiset_axioms;
        }
        Self::lemma_child_changed_sorted(q, i, k, c2.seq());
        lemma_ms3(a, c.seq(), b);
        lemma_ms3(a, c2.seq(), b);
        if grow {
            assert(q2.seq().to_multiset() =~= q.seq().to_multiset().insert(k)) by {
                broadcast use vstd::multiset::group_multiset_axioms;
            }
        } else {
            assert(q2.seq().to_multiset() =~= q.seq().to_multiset().remove(k)) by {
                broadcast use vstd::multiset::group_multiset_axioms;
            }
        }
        assert forall|j: int| 0 <= j < q2.children@.len() implies (#[trigger] q2.children@[j]).formed() by {
            if j != i {
                assert(q2.children@[j] == q.children@[j]);
            }
        }
    }

    proof fn lemma_child_changed_sorted(q: BtreeNode, i: int, k: i64, s2: Seq<i64>)
        requires
            !q.is_leaf,
            q.children@.len() == q.keys@.len() + 1,
            sorted(q.seq()),
            0 <= i < q.children@.len(),
            i > 0 ==> q.keys@[i - 1] <= k,
            i < q.keys@.len() ==> k <= q.keys@[i],
            sorted(s2),
            forall|x: i64| s2.to_multiset().count(x) > 0 ==> q.children@[i].seq().to_multiset().count(x) > 0 || x == k,
        ensures
            sorted(q.pre(i as nat) + s2 + q.post(i as nat)),
    {
        let c = q.children@[i];
        q.lemma_child_bounds(i);
        q.lemma_outer_bounds(i);
        q.lemma_around(i as nat);
        let a = q.pre(i as nat);
        let b = q.post(i as nat);
        assert forall|x: i64| s2.contains(x) implies c.seq().contains(x) || x == k by {
            vstd::seq_lib::to_multiset_contains(s2, x);
            vstd::seq_lib::to_multiset_contains(c.seq(), x);
        }
        assert forall|m: int| 0 <= m < a.len() implies a[m] <= k by {
            if i > 0 {
                assert(a[m] <= q.keys@[i - 1]);
            }
        }
        assert forall|m: int| 0 <= m < b.len() implies k <= b[m] by {
            if i < q.keys@.len() {
                assert(q.keys@[i] <= b[m]);
            }
        }
        lemma_sorted_between(a, c.seq(), b, s2, k);
    }

    /// Replacing child `i` by a tree of the same height with enough keys keeps
    /// the node's shape and height.
    proof fn lemma_child_reshaped(q: BtreeNode, q2: BtreeNode, i: int, t: nat, h: nat)
        requires
            q.shape(t, h),
            h > 0,
            q2.is_leaf == q.is_leaf,
            q2.keys@.len() == q.keys@.len(),
            q2.children@.len() == q.children@.len(),
            0 <= i < q.children@.len(),
            forall|j: int| 0 <= j < q.children@.len() && j != i ==> q2.children@[j] == q.children@[j],
            q2.children@[i].shape(t, q2.children@[i].height()),
            q2.children@[i].height() == h - 1,
            t <= q2.children@[i].keys@.len() + 1,
        ensures
            q2.shape(t, h),
            q2.height() == h,
            q2.formed(),
    {
        assert forall|j: int| 0 <= j < q2.children@.len() implies t <= (#[trigger] q2.children@[j]).keys@.len() + 1
            && q2.children@[j].shape(t, (h - 1) as nat) by {
            if j != i {
                assert(q2.children@[j] == q.children@[j]);
            }
        }
        q2.lemma_shape_height(t, h);
    }

    /// A node split into `y`, `m` and `z` at key position `t - 1`.
    proof fn lemma_split_parts(c: BtreeNode, y: BtreeNode, z: BtreeNode, t: nat)
        requires
            c.formed(),
            1 <= t <= c.keys@.len(),
            y.is_leaf == c.is_leaf,
            z.is_leaf == c.is_leaf,
            y.keys@ == c.keys@.subrange(0, t - 1),
            z.keys@ == c.keys@.subrange(t as int, c.keys@.len() as int),
            c.is_leaf ==> y.children@ == c.children@ && z.children@.len() == 0,
            !c.is_leaf ==> y.children@ == c.children@.subrange(0, t as int),
            !c.is_leaf ==> z.children@ == c.children@.subrange(t as int, c.children@.len() as int),
        ensures
            c.seq() == y.seq() + seq![c.keys@[t - 1]] + z.seq(),
            y.formed(),
            z.formed(),
            forall|h: nat| #[trigger] c.shape(t, h) && c.keys@.len() + 1 == 2 * t ==> y.shape(t, h) && z.shape(t, h),
    {
        assert(c.keys@ =~= y.keys@ + seq![c.keys@[t - 1]] + z.keys@);
        if !c.is_leaf {
            assert(c.children@ =~= y.children@ + z.children@);
            assert forall|j: int| 0 <= j < y.children@.len() implies (#[trigger] y.children@[j]).formed() by {
                assert(y.children@[j] == c.children@[j]);
            }
            assert forall|j: int| 0 <= j < z.children@.len() implies (#[trigger] z.children@[j]).formed() by {
                assert(z.children@[j] == c.children@[t + j]);
            }
        }
        Self::lemma_concat(c, y, c.keys@[t - 1], z);
        assert forall|h: nat| #[trigger] c.shape(t, h) && c.keys@.len() + 1 == 2 * t implies y.shape(t, h) && z.shape(t, h) by {
            if h > 0 {
                assert forall|j: int| 0 <= j < y.children@.len() implies t <= (#[trigger] y.children@[j]).keys@.len() + 1
                    && y.children@[j].shape(t, (h - 1) as nat) by {
                    assert(y.children@[j] == c.children@[j]);
                }
                assert forall|j: int| 0 <= j < z.children@.len() implies t <= (#[trigger] z.children@[j]).keys@.len() + 1
                    && z.children@[j].shape(t, (h - 1) as nat) by {
                    assert(z.children@[j] == c.children@[t + j]);
                }
            }
        }
    }

    /// The parent after splitting child `i` into `y`, its key at `t - 1`,
    /// and `z`.
    #[verifier::rlimit(80)]
    #[verifier::spinoff_prover]
    proof fn lemma_split_parent(p: BtreeNode, p2: BtreeNode, i: int, y: BtreeNode, z: BtreeNode, t: nat)
        requires
            p.formed(),
            !p.is_leaf,
            0 <= i < p.children@.len(),
            1 <= t <= p.children@[i].keys@.len(),
            p.children@[i].seq() == y.seq() + seq![p.children@[i].keys@[t - 1]] + z.seq(),
            y.formed(),
            z.formed(),
            y.keys@ == p.children@[i].keys@.subrange(0, t - 1),
            z.keys@ == p.children@[i].keys@.subrange(t as int, p.children@[i].keys@.len() as int),
            forall|h: nat| #[trigger] p.children@[i].shape(t, h) && p.children@[i].keys@.len() + 1 == 2 * t
                ==> y.shape(t, h) && z.shape(t, h),
            !p2.is_leaf,
            p2.keys@ == p.keys@.insert(i, p.children@[i].keys@[t - 1]),
            p2.children@ == p.children@.remove(i).insert(i, Box::new(y)).insert(i + 1, Box::new(z)),
        ensures
            p2.formed(),
            p2.seq() == p.seq(),
            p2.children@.len() == p.children@.len() + 1,
            forall|j: int| 0 <= j < i ==> p2.children@[j] == p.children@[j],
            forall|j: int| i + 1 < j < p2.children@.len() ==> p2.children@[j] == p.children@[j - 1],
            p.is_tree(t) && p.children@[i].keys@.len() + 1 == 2 * t && p.keys@.len() + 2 <= 2 * t ==> p2.is_tree(t)
                && p2.height() == p.height(),
    {
        let c = *p.children@[i];
        let middle = c.keys@[t - 1];
        let n = p.keys@.len();
        assert(*p2.children@[i] == y);
        assert(*p2.children@[i + 1] == z);
        assert forall|j: int| 0 <= j < p2.children@.len() implies (#[trigger] p2.children@[j]).formed() by {
            if j < i {
                assert(p2.children@[j] == p.children@[j]);
            } else if j > i + 1 {
                assert(p2.children@[j] == p.children@[j - 1]);
            }
        }
        Self::lemma_pre_congr(p, p2, i as nat);
        assert(p.keys@.subrange(i, n as int) =~= p2.keys@.subrange(i + 1int, n + 1int));
        assert(p.children@.subrange(i + 1int, n + 1int) =~= p2.children@.subrange(i + 2int, n + 2int));
        Self::lemma_post_congr(p, p2, i as nat, (i + 1) as nat);
        p.lemma_around(i as nat);
        p2.lemma_around(i as nat);
        assert(p2.post(i as nat) == seq![middle] + z.seq() + p2.post((i + 1) as nat));
        assert(p2.seq() =~= p.seq());
        if p.is_tree(t) && c.keys@.len() + 1 == 2 * t && p.keys@.len() + 2 <= 2 * t {
            let h = p.height();
            p.lemma_shape_height(t, h);
            assert(c.shape(t, (h - 1) as nat));
            assert(y.shape(t, (h - 1) as nat) && z.shape(t, (h - 1) as nat));
            assert forall|j: int| 0 <= j < p2.children@.len() implies t <= (#[trigger] p2.children@[j]).keys@.len() + 1
                && p2.children@[j].shape(t, (h - 1) as nat) by {
                if j < i {
                    assert(p2.children@[j] == p.children@[j]);
                } else if j > i + 1 {
                    assert(p2.children@[j] == p.children@[j - 1]);
                }
            }
            assert(p2.shape(t, h));
            p2.lemma_shape_height(t, h);
        }
    }

    /// Splits child `i` around its key at position `t - 1`: the keys and
    /// children after it move to a new node placed at `i + 1`, and the key
    /// itself moves up into this node at position `i`.
    pub fn split_child(&mut self, i: usize, t: usize)
        requires
            old(self).formed(),
            !old(self).leaf(),
            i < old(self).child_seq().len(),
            1 <= t <= old(self).child_seq()[i as int].key_seq().len(),
        ensures
            final(self).formed(),
            !final(self).leaf(),
            final(self).contents() == old(self).contents(),
            final(self).key_seq() == old(self).key_seq().insert(
                i as int,
                old(self).child_seq()[i as int].key_seq()[t - 1],
            ),
            final(self).child_seq().len() == old(self).child_seq().len() + 1,
            final(self).child_seq()[i as int].key_seq() == old(self).child_seq()[i as int].key_seq().subrange(0, t - 1),
            final(self).child_seq()[i + 1].key_seq() == old(self).child_seq()[i as int].key_seq().subrange(
                t as int,
                old(self).child_seq()[i as int].key_seq().len() as int,
            ),
            forall|j: int| 0 <= j < i ==> final(self).child_seq()[j] == old(self).child_seq()[j],
            forall|j: int| i + 1 < j < final(self).child_seq().len() ==> final(self).child_seq()[j]
                == old(self).child_seq()[j - 1],
            old(self).is_tree(t as nat) && old(self).child_seq()[i as int].key_seq().len() + 1 == 2 * t
                && old(self).key_seq().len() + 2 <= 2 * t ==> final(self).is_tree(t as nat)
                && final(self).tree_height() == old(self).tree_height(),
    {
        let ghost p = *self;
        let ghost c = *self.children@[i as int];
        let nc = self.children.len();
        proof {
            assert(p.children@[i as int].formed());
        }
        let mut y = self.children.remove(i);
        let mut z = BtreeNode::new(y.is_leaf);
        z.keys = y.keys.split_off(t);
        if !y.is_leaf {
            z.children = y.children.split_off(t);
        }
        let middle = y.keys.remove(t - 1);
        proof {
            assert(y.keys@ =~= c.keys@.subrange(0, t - 1));
            Self::lemma_split_parts(c, *y, z, t as nat);
        }
        self.children.insert(i, y);
        self.children.insert(i + 1, Box::new(z));
        self.keys.insert(i, middle);
        proof {
            Self::lemma_split_parent(p, *self, i as int, *y, z, t as nat);
        }
    }

    /// A leaf with `k` inserted after the keys at most `k`.
    proof fn lemma_leaf_insert(p: BtreeNode, p2: BtreeNode, i: int, k: i64, t: nat)
        requires
            p.is_leaf,
            p.is_tree(t),
            p.keys@.len() + 2 <= 2 * t,
            p2.is_leaf == p.is_leaf,
            p2.children@ == p.children@,
            0 <= i <= p.keys@.len(),
            i > 0 ==> p.keys@[i - 1] <= k,
            forall|j: int| i <= j < p.keys@.len() ==> k < p.keys@[j],
            p2.keys@ == p.keys@.insert(i, k),
        ensures
            p2.is_tree(t),
            p2.height() == p.height(),
            p2.seq().to_multiset() == p.seq().to_multiset().insert(k),
    {
        let s = p.keys@;
        p.lemma_shape_height(t, p.height());
        assert(p.seq() == s);
        assert forall|j: int| 0 <= j < i implies s[j] <= k by {
            assert(s[j] <= s[i - 1]);
        }
        assert(p2.keys@ =~= s.subrange(0, i) + seq![k] + s.subrange(i, s.len() as int));
        assert(s =~= s.subrange(0, i) + Seq::<i64>::empty() + s.subrange(i, s.len() as int));
        lemma_sorted_between(s.subrange(0, i), Seq::<i64>::empty(), s.subrange(i, s.len() as int), seq![k], k);
        assert(p2.seq() == p2.keys@);
        assert(p2.shape(t, 0));
    }

    /// Inserts `k` into the subtree rooted at a node that is not full,
    /// splitting full children on the way down.
    #[verifier::rlimit(80)]
    #[verifier::spinoff_prover]
    pub fn insert_non_full(&mut self, k: i64, t: usize)
        requires
            old(self).is_tree(t as nat),
            old(self).key_seq().len() + 2 <= 2 * t,
            1 <= t <= usize::MAX / 2,
        ensures
            final(self).is_tree(t as nat),
            final(self).tree_height() == old(self).tree_height(),
            final(self).key_multiset() == old(self).key_multiset().insert(k),
            final(self).leaf() == old(self).leaf(),
            old(self).key_seq().len() <= final(self).key_seq().len() <= old(self).key_seq().len() + 1,
        decreases old(self).tree_height(),
    {
        let ghost p = *self;
        proof {
            p.lemma_shape_height(t as nat, p.height());
        }
        let mut i = self.keys.len();
        if self.is_leaf {
            while i > 0 && k < self.keys[i - 1]
                invariant
                    *self == p,
                    0 <= i <= self.keys@.len(),
                    forall|j: int| i <= j < self.keys@.len() ==> k < self.keys@[j],
                decreases i,
            {
                i -= 1;
            }
            self.keys.insert(i, k);
            proof {
                Self::lemma_leaf_insert(p, *self, i as int, k, t as nat);
            }
        } else {
            proof {
                assert(p.children@.len() == p.keys@.len() + 1);
            }
            while i > 0 && k < self.keys[i - 1]
                invariant
                    *self == p,
                    0 <= i <= self.keys@.len(),
                    forall|j: int| i <= j < self.keys@.len() ==> k < self.keys@[j],
                decreases i,
            {
                i -= 1;
            }
            let ghost was_tree = true;
            let ghost i0 = i;
            proof {
                let c = p.children@[i as int];
                assert(c.shape(t as nat, (p.height() - 1) as nat));
                assert(c.keys@.len() + 1 <= 2 * t);
            }
            let full = self.children[i].is_full(t);
            if full {
                self.split_child(i, t);
                if k > self.keys[i] {
                    i += 1;
                }
            }
            let ghost q = *self;
            proof {
                if full {
                    assert(q.children@[i0 as int].keys@.len() == t - 1);
                    assert(q.children@[i0 + 1].keys@.len() == t - 1);
                }
                assert(q.children@[i as int].keys@.len() + 2 <= 2 * t);
            }
            proof {
                // k lies between the keys around child i
                assert(i > 0 ==> q.keys@[i - 1] <= k);
                assert(i < q.keys@.len() ==> k <= q.keys@[i as int]);
                q.lemma_child_bounds(i as int);
                q.lemma_outer_bounds(i as int);
                q.lemma_around(i as nat);
                if was_tree {
                    q.lemma_shape_height(t as nat, p.height());
                    let c = q.children@[i as int];
                    c.lemma_shape_height(t as nat, (p.height() - 1) as nat);
                }
            }
            let mut child = self.children.remove(i);
            child.insert_non_full(k, t);
            self.children.insert(i, child);
            proof {
                let q2 = *self;
                assert(q2.children@[i as int] == child);
                child.lemma_shape_height(t as nat, child.height());
                Self::lemma_child_changed(q, q2, i as int, k, true);
                Self::lemma_child_reshaped(q, q2, i as int, t as nat, p.height());
            }
        }
    }
}

impl BtreeNode {
    /// A tree is a search tree.
    pub proof fn lemma_tree_ordered(self, t: nat)
        requires
            self.is_tree(t),
        ensures
            self.ordered(),
    {
        self.lemma_shape_height(t, self.height());
    }
}

#[derive(Debug)]
pub struct Btree {
    t: usize,
    root: Box<BtreeNode>,
}

impl Btree {
    /// The minimum degree.
    pub closed spec fn degree(self) -> nat {
        self.t as nat
    }

    /// The keys of the tree, in order.
    pub closed spec fn contents(self) -> Seq<i64> {
        self.root.contents()
    }

    /// The keys of the tree, counted with repetition.
    pub closed spec fn key_multiset(self) -> Multiset<i64> {
        self.root.key_multiset()
    }

    /// A B-tree with a usable minimum degree.
    pub closed spec fn wf(self) -> bool {
        &&& 2 <= self.t <= usize::MAX / 2
        &&& self.root.is_tree(self.t as nat)
    }

    /// An empty tree of minimum degree `t`.
    pub fn create(t: usize) -> (tree: Self)
        ensures
            tree.degree() == t,
            tree.contents() == Seq::<i64>::empty(),
            2 <= t <= usize::MAX / 2 ==> tree.wf(),
    {
        let x = BtreeNode::new(true);
        proof {
            if t >= 1 {
                assert(x.is_tree(t as nat));
            }
        }
        Btree { root: Box::new(x), t }
    }

    /// Finds a node that holds `k`, and the position of `k` among its keys.
    pub fn search(&self, k: i64) -> (r: Option<(&BtreeNode, usize)>)
        requires
            self.wf(),
        ensures
            match r {
                Some((n, i)) => i < n.key_seq().len() && n.key_seq()[i as int] == k
                    && self.contents().contains(k),
                None => !self.contents().contains(k),
            },
    {
        proof {
            self.root.lemma_tree_ordered(self.t as nat);
        }
        self.root.search(k)
    }

    /// Inserts `k`, splitting a full root first so that the tree grows at
    /// the top.
    pub fn insert(&mut self, k: i64)
        requires
            old(self).wf(),
        ensures
            final(self).wf(),
            final(self).degree() == old(self).degree(),
            final(self).key_multiset() == old(self).key_multiset().insert(k),
            sorted(final(self).contents()),
    {
        let t = self.t;
        let ghost r0 = *self.root;
        proof {
            r0.lemma_shape_height(t as nat, r0.height());
        }
        if self.root.is_full(t) {
            let mut s = BtreeNode::new(false);
            let mut old_root = Box::new(BtreeNode::new(true));
            std::mem::swap(&mut old_root, &mut self.root);
            s.children.push(old_root);
            proof {
                assert(s.children@[0] == old_root);
                assert(s.seq() =~= r0.seq()) by {
                    s.lemma_around(0);
                    assert(s.pre(0) =~= Seq::<i64>::empty());
                    assert(s.post(0) =~= Seq::<i64>::empty());
                }
                assert(s.shape(t as nat, r0.height() + 1));
                s.lemma_shape_height(t as nat, r0.height() + 1);
            }
            s.split_child(0, t);
            s.insert_non_full(k, t);
            self.root = Box::new(s);
        } else {
            let mut r = Box::new(BtreeNode::new(true));
            std::mem::swap(&mut r, &mut self.root);
            r.insert_non_full(k, t);
            self.root = r;
        }
    }
}

// ---------------------------------------------------------------------------
// Moving keys between siblings.
// ---------------------------------------------------------------------------

impl BtreeNode {
    /// `x2` is `x` with the key `s` (and, in an internal node, the child
    /// whose keys are `mv`) added at the end.
    proof fn lemma_push_back(x: BtreeNode, x2: BtreeNode, s: i64, mv: Seq<i64>)
        requires
            x2.is_leaf == x.is_leaf,
            x2.keys@ == x.keys@.push(s),
            x.is_leaf ==> x.children@.len() == 0 && x2.children@.len() == 0 && mv == Seq::<i64>::empty(),
            !x.is_leaf ==> x.children@.len() == x.keys@.len() + 1 && x2.children@.len() == x.children@.len() + 1
                && x2.children@.subrange(0, x.children@.len() as int) == x.children@
                && x2.children@.last().seq() == mv,
        ensures
            x2.seq() == x.seq() + seq![s] + mv,
    {
        if x.is_leaf {
            assert(x2.seq() =~= x.seq() + seq![s] + mv);
        } else {
            let n = x.keys@.len();
            assert forall|i: int| 0 <= i < n implies x2.keys@[i] == x.keys@[i] by {}
            assert forall|i: int| 0 <= i < n implies x2.children@[i] == x.children@[i] by {
                assert(x2.children@.subrange(0, x.children@.len() as int)[i] == x2.children@[i]);
            }
            Self::lemma_pre_congr(x, x2, n);
            assert(x2.children@[n as int] == x.children@[n as int]) by {
                assert(x2.children@.subrange(0, x.children@.len() as int)[n as int] == x2.children@[n as int]);
            }
            assert(x2.pre(n + 1) == x2.pre(n) + x2.children@[n as int].seq() + seq![s]);
            assert(x2.seq() == x2.pre(n + 1) + x2.children@[n + 1int].seq());
            assert(x2.seq() =~= x.seq() + seq![s] + mv);
        }
    }

    /// `x2` is `x` with the key `s` (and, in an internal node, the child
    /// whose keys are `mv`) added at the front.
    proof fn lemma_push_front(x: BtreeNode, x2: BtreeNode, s: i64, mv: Seq<i64>)
        requires
            x2.is_leaf == x.is_leaf,
            x2.keys@ == seq![s] + x.keys@,
            x.is_leaf ==> x.children@.len() == 0 && x2.children@.len() == 0 && mv == Seq::<i64>::empty(),
            !x.is_leaf ==> x.children@.len() == x.keys@.len() + 1 && x2.children@.len() == x.children@.len() + 1
                && x2.children@.subrange(1, x2.children@.len() as int) == x.children@
                && x2.children@[0].seq() == mv,
        ensures
            x2.seq() == mv + seq![s] + x.seq(),
    {
        if x.is_leaf {
            assert(x2.seq() =~= mv + seq![s] + x.seq());
        } else {
            let n = x.keys@.len();
            x2.lemma_around(1);
            x.lemma_around(0);
            assert(x.pre(0) =~= Seq::<i64>::empty());
            assert(x2.pre(0) =~= Seq::<i64>::empty());
            assert(x2.pre(1) == x2.pre(0) + x2.children@[0].seq() + seq![s]);
            assert(x2.children@[1] == x.children@[0]) by {
                assert(x2.children@.subrange(1, x2.children@.len() as int)[0] == x2.children@[1]);
            }
            assert(x2.keys@.subrange(1, x2.keys@.len() as int) =~= x.keys@.subrange(0, n as int));
            assert(x2.children@.subrange(2, x2.children@.len() as int) =~= x.children@.subrange(1, x.children@.len() as int));
            Self::lemma_post_congr(x2, x, 1, 0);
            assert(x2.seq() =~= mv + seq![s] + x.seq());
        }
    }
}

impl BtreeNode {
    /// Merging children `m` and `m + 1` around own key `m` keeps the node's
    /// in-order keys, and its shape when the merged child is not too big.
    #[verifier::rlimit(80)]
    #[verifier::spinoff_prover]
    proof fn lemma_merge_parent(p: BtreeNode, p2: BtreeNode, m: int, t: nat)
        requires
            p.is_tree(t),
            !p.is_leaf,
            0 <= m < p.keys@.len(),
            !p2.is_leaf,
            p2.keys@ == p.keys@.remove(m),
            p2.children@.len() == p.children@.len() - 1,
            forall|j: int| 0 <= j < m ==> p2.children@[j] == p.children@[j],
            forall|j: int| m < j < p2.children@.len() ==> p2.children@[j] == p.children@[j + 1],
            p2.children@[m].is_leaf == p.children@[m].is_leaf,
            p2.children@[m].keys@ == p.children@[m].keys@ + seq![p.keys@[m]] + p.children@[m + 1].keys@,
            p.children@[m].is_leaf ==> p2.children@[m].children@.len() == 0,
            !p.children@[m].is_leaf ==> p2.children@[m].children@ == p.children@[m].children@ + p.children@[m + 1].children@,
        ensures
            p2.seq() == p.seq(),
            p2.formed(),
            p2.children@[m].keys@.len() + 1 <= 2 * t ==> p2.is_tree(t) && p2.height() == p.height(),
    {
        let h = p.height();
        p.lemma_shape_height(t, h);
        let a = *p.children@[m];
        let b = *p.children@[m + 1];
        let c = *p2.children@[m];
        assert(a.shape(t, (h - 1) as nat));
        assert(b.shape(t, (h - 1) as nat));
        a.lemma_shape_height(t, (h - 1) as nat);
        b.lemma_shape_height(t, (h - 1) as nat);
        if !a.is_leaf {
            assert forall|j: int| 0 <= j < c.children@.len() implies (#[trigger] c.children@[j]).formed() by {
                if j < a.children@.len() {
                    assert(c.children@[j] == a.children@[j]);
                } else {
                    assert(c.children@[j] == b.children@[j - a.children@.len()]);
                }
            }
        }
        assert(c.formed());
        Self::lemma_concat(c, a, p.keys@[m], b);
        let n = p.keys@.len();
        Self::lemma_pre_congr(p, p2, m as nat);
        assert(p.keys@.subrange(m + 1int, n as int) =~= p2.keys@.subrange(m, (n - 1) as int));
        assert(p.children@.subrange(m + 2int, n + 1int) =~= p2.children@.subrange(m + 1int, n as int));
        Self::lemma_post_congr(p, p2, (m + 1) as nat, m as nat);
        p.lemma_around(m as nat);
        p2.lemma_around(m as nat);
        assert(p.post(m as nat) == seq![p.keys@[m]] + b.seq() + p.post((m + 1) as nat));
        assert(p2.seq() =~= p.seq());
        assert forall|j: int| 0 <= j < p2.children@.len() implies (#[trigger] p2.children@[j]).formed() by {
            if j < m {
                assert(p2.children@[j] == p.children@[j]);
            } else if j > m {
                assert(p2.children@[j] == p.children@[j + 1]);
            }
        }
        if c.keys@.len() + 1 <= 2 * t {
            if h - 1 > 0 {
                assert forall|j: int| 0 <= j < c.children@.len() implies t <= (#[trigger] c.children@[j]).keys@.len() + 1
                    && c.children@[j].shape(t, (h - 2) as nat) by {
                    if j < a.children@.len() {
                        assert(c.children@[j] == a.children@[j]);
                    } else {
                        assert(c.children@[j] == b.children@[j - a.children@.len()]);
                    }
                }
            }
            assert(c.shape(t, (h - 1) as nat));
            assert forall|j: int| 0 <= j < p2.children@.len() implies t <= (#[trigger] p2.children@[j]).keys@.len() + 1
                && p2.children@[j].shape(t, (h - 1) as nat) by {
                if j < m {
                    assert(p2.children@[j] == p.children@[j]);
                } else if j > m {
                    assert(p2.children@[j] == p.children@[j + 1]);
                }
            }
            assert(p2.shape(t, h));
            p2.lemma_shape_height(t, h);
        }
    }

    /// Moving keys between children `j` and `j + 1` through own key `j`
    /// keeps the node's in-order keys when the three read the same in order,
    /// and its shape when both children keep a legal number of keys.
    #[verifier::rlimit(80)]
    #[verifier::spinoff_prover]
    proof fn lemma_rotate_parent(p: BtreeNode, p2: BtreeNode, j: int, t: nat)
        requires
            p.is_tree(t),
            !p.is_leaf,
            0 <= j < p.keys@.len(),
            !p2.is_leaf,
            p2.keys@.len() == p.keys@.len(),
            forall|i: int| 0 <= i < p.keys@.len() && i != j ==> p2.keys@[i] == p.keys@[i],
            p2.children@.len() == p.children@.len(),
            forall|i: int| 0 <= i < p.children@.len() && i != j && i != j + 1 ==> p2.children@[i] == p.children@[i],
            p.children@[j].seq() + seq![p.keys@[j]] + p.children@[j + 1].seq() == p2.children@[j].seq()
                + seq![p2.keys@[j]] + p2.children@[j + 1].seq(),
            p2.children@[j].shape(t, (p.height() - 1) as nat),
            p2.children@[j + 1].shape(t, (p.height() - 1) as nat),
            t <= p2.children@[j].keys@.len() + 1,
            t <= p2.children@[j + 1].keys@.len() + 1,
        ensures
            p2.seq() == p.seq(),
            p2.is_tree(t),
            p2.height() == p.height(),
    {
        let h = p.height();
        p.lemma_shape_height(t, h);
        let n = p.keys@.len();
        Self::lemma_pre_congr(p, p2, j as nat);
        assert(p.keys@.subrange(j + 1int, n as int) =~= p2.keys@.subrange(j + 1int, n as int));
        assert(p.children@.subrange(j + 2int, n + 1int) =~= p2.children@.subrange(j + 2int, n + 1int));
        Self::lemma_post_congr(p, p2, (j + 1) as nat, (j + 1) as nat);
        p.lemma_around(j as nat);
        p2.lemma_around(j as nat);
        assert(p.post(j as nat) == seq![p.keys@[j]] + p.children@[j + 1].seq() + p.post((j + 1) as nat));
        assert(p2.post(j as nat) == seq![p2.keys@[j]] + p2.children@[j + 1].seq() + p2.post((j + 1) as nat));
        let mid = p.children@[j].seq() + seq![p.keys@[j]] + p.children@[j + 1].seq();
        let mid2 = p2.children@[j].seq() + seq![p2.keys@[j]] + p2.children@[j + 1].seq();
        assert(p.seq() =~= p.pre(j as nat) + mid + p.post((j + 1) as nat));
        assert(p2.seq() =~= p2.pre(j as nat) + mid2 + p2.post((j + 1) as nat));
        assert(p2.seq() =~= p.seq());
        assert forall|i: int| 0 <= i < p2.children@.len() implies t <= (#[trigger] p2.children@[i]).keys@.len() + 1
            && p2.children@[i].shape(t, (h - 1) as nat) by {
            if i != j && i != j + 1 {
                assert(p2.children@[i] == p.children@[i]);
            }
        }
        assert(p2.shape(t, h));
        p2.lemma_shape_height(t, h);
    }

    /// Merges child `m + 1` and own key `m` into child `m`.
    fn merge(&mut self, m: usize, Ghost(t): Ghost<nat>)
        requires
            old(self).is_tree(t),
            !old(self).is_leaf,
            m < old(self).keys@.len(),
        ensures
            final(self).seq() == old(self).seq(),
            final(self).formed(),
            !final(self).is_leaf,
            final(self).keys@ == old(self).keys@.remove(m as int),
            final(self).children@.len() == old(self).children@.len() - 1,
            final(self).children@[m as int].keys@ == old(self).children@[m as int].keys@ + seq![
                old(self).keys@[m as int],
            ] + old(self).children@[m + 1].keys@,
            final(self).children@[m as int].keys@.len() + 1 <= 2 * t ==> final(self).is_tree(t)
                && final(self).height() == old(self).height(),
    {
        let ghost p = *self;
        proof {
            p.lemma_shape_height(t, p.height());
        }
        let nk = self.keys.len();
        assert(m < nk);
        let mut sib = self.children.remove(m + 1);
        let sep = self.keys.remove(m);
        let mut child = self.children.remove(m);
        let ghost a = *child;
        let ghost b = *sib;
        proof {
            assert(a.shape(t, (p.height() - 1) as nat));
            assert(b.shape(t, (p.height() - 1) as nat));
            a.lemma_shape_height(t, (p.height() - 1) as nat);
            b.lemma_shape_height(t, (p.height() - 1) as nat);
        }
        child.keys.push(sep);
        child.keys.append(&mut sib.keys);
        if !child.is_leaf {
            child.children.append(&mut sib.children);
        }
        self.children.insert(m, child);
        proof {
            let p2 = *self;
            assert(p2.children@[m as int] == child);
            assert(child.keys@ =~= a.keys@ + seq![sep] + b.keys@);
            assert forall|j: int| m < j < p2.children@.len() implies p2.children@[j] == p.children@[j + 1] by {}
            Self::lemma_merge_parent(p, p2, m as int, t);
        }
    }
}

/// What `fill` does to a node `p` to give `q`: child `idx` borrows a key
/// from its left sibling through the separating key, else from its right
/// sibling, else it is merged with a sibling (the right one, or the left one
/// for the last child).
pub open spec fn fill_result(p: BtreeNode, q: BtreeNode, idx: int, t: nat) -> bool {
    let ks = p.key_seq();
    let cs = p.child_seq();
    if idx > 0 && cs[idx - 1].key_seq().len() >= t {
        &&& q.key_seq() == ks.update(idx - 1, cs[idx - 1].key_seq().last())
        &&& q.child_seq().len() == cs.len()
        &&& q.child_seq()[idx].key_seq() == seq![ks[idx - 1]] + cs[idx].key_seq()
        &&& q.child_seq()[idx - 1].key_seq() == cs[idx - 1].key_seq().drop_last()
    } else if idx < ks.len() && cs[idx + 1].key_seq().len() >= t {
        &&& q.key_seq() == ks.update(idx, cs[idx + 1].key_seq()[0])
        &&& q.child_seq().len() == cs.len()
        &&& q.child_seq()[idx].key_seq() == cs[idx].key_seq().push(ks[idx])
        &&& q.child_seq()[idx + 1].key_seq() == cs[idx + 1].key_seq().drop_first()
    } else {
        let m = if idx < ks.len() {
            idx
        } else {
            idx - 1
        };
        &&& q.key_seq() == ks.remove(m)
        &&& q.child_seq().len() == cs.len() - 1
        &&& q.child_seq()[m].key_seq() == cs[m].key_seq() + seq![ks[m]] + cs[m + 1].key_seq()
    }
}

impl BtreeNode {
    /// Child `idx` takes own key `idx - 1`, which is replaced by the last key
    /// of child `idx - 1`; the last child of that sibling moves along.
    #[verifier::rlimit(60)]
    #[verifier::spinoff_prover]
    fn borrow_from_prev(&mut self, idx: usize, Ghost(t): Ghost<nat>)
        requires
            old(self).is_tree(t),
            2 <= t,
            !old(self).is_leaf,
            0 < idx < old(self).children@.len(),
            old(self).children@[idx - 1].keys@.len() >= t,
            old(self).children@[idx as int].keys@.len() < t,
        ensures
            final(self).seq() == old(self).seq(),
            !final(self).is_leaf,
            final(self).is_tree(t),
            final(self).height() == old(self).height(),
            final(self).keys@ == old(self).keys@.update(idx - 1, old(self).children@[idx - 1].keys@.last()),
            final(self).children@.len() == old(self).children@.len(),
            final(self).children@[idx as int].keys@ == seq![old(self).keys@[idx - 1]] + old(self).children@[idx as int].keys@,
            final(self).children@[idx - 1].keys@ == old(self).children@[idx - 1].keys@.drop_last(),
    {
        let ghost p = *self;
        let ghost h = p.height();
        proof {
            p.lemma_shape_height(t, h);
        }
        let mut child = self.children.remove(idx);
        let mut sib = self.children.remove(idx - 1);
        let ghost a = *sib;
        let ghost b = *child;
        proof {
            assert(a == *p.children@[idx - 1]);
            assert(a.shape(t, (h - 1) as nat));
            assert(b.shape(t, (h - 1) as nat));
            a.lemma_shape_height(t, (h - 1) as nat);
            b.lemma_shape_height(t, (h - 1) as nat);
        }
        let sep = self.keys.remove(idx - 1);
        let up = sib.keys.pop().unwrap();
        self.keys.insert(idx - 1, up);
        child.keys.insert(0, sep);
        let ghost mut mv: Seq<i64> = Seq::empty();
        if !child.is_leaf {
            let moved = sib.children.pop().unwrap();
            proof {
                mv = moved.seq();
                assert(moved == a.children@.last());
                assert(moved.shape(t, (h - 2) as nat));
            }
            child.children.insert(0, moved);
        }
        proof {
            let a2 = *sib;
            let b2 = *child;
            assert(a.keys@ =~= a2.keys@.push(up));
            assert(b2.keys@ =~= seq![sep] + b.keys@);
            if !a.is_leaf {
                assert(a.children@.subrange(0, a2.children@.len() as int) =~= a2.children@);
                assert(b2.children@.subrange(1, b2.children@.len() as int) =~= b.children@);
            }
            Self::lemma_push_back(a2, a, up, mv);
            Self::lemma_push_front(b, b2, sep, mv);
            assert(a.seq() + seq![sep] + b.seq() =~= a2.seq() + seq![up] + b2.seq());
            if h - 1 > 0 {
                assert forall|j: int| 0 <= j < a2.children@.len() implies t <= (#[trigger] a2.children@[j]).keys@.len() + 1
                    && a2.children@[j].shape(t, (h - 2) as nat) by {
                    assert(a2.children@[j] == a.children@[j]);
                }
                assert forall|j: int| 0 <= j < b2.children@.len() implies t <= (#[trigger] b2.children@[j]).keys@.len() + 1
                    && b2.children@[j].shape(t, (h - 2) as nat) by {
                    if j > 0 {
                        assert(b2.children@[j] == b.children@[j - 1]);
                    }
                }
            }
            assert(a2.shape(t, (h - 1) as nat));
            assert(b2.shape(t, (h - 1) as nat));
        }
        self.children.insert(idx - 1, sib);
        self.children.insert(idx, child);
        proof {
            let p2 = *self;
            assert(p2.children@[idx - 1] == sib);
            assert(p2.children@[idx as int] == child);
            assert(p2.keys@ =~= p.keys@.update(idx - 1, up));
            assert forall|i: int| 0 <= i < p.children@.len() && i != idx - 1 && i != idx implies p2.children@[i] == p.children@[i] by {}
            Self::lemma_rotate_parent(p, p2, idx - 1, t);
            assert(sib.keys@ =~= a.keys@.drop_last());
        }
    }

    /// Child `idx` takes own key `idx`, which is replaced by the first key of
    /// child `idx + 1`; the first child of that sibling moves along.
    #[verifier::rlimit(60)]
    #[verifier::spinoff_prover]
    fn borrow_from_next(&mut self, idx: usize, Ghost(t): Ghost<nat>)
        requires
            old(self).is_tree(t),
            2 <= t,
            !old(self).is_leaf,
            idx < old(self).keys@.len(),
            old(self).children@[idx + 1].keys@.len() >= t,
            old(self).children@[idx as int].keys@.len() < t,
        ensures
            final(self).seq() == old(self).seq(),
            !final(self).is_leaf,
            final(self).is_tree(t),
            final(self).height() == old(self).height(),
            final(self).keys@ == old(self).keys@.update(idx as int, old(self).children@[idx + 1].keys@[0]),
            final(self).children@.len() == old(self).children@.len(),
            final(self).children@[idx as int].keys@ == old(self).children@[idx as int].keys@.push(old(self).keys@[idx as int]),
            final(self).children@[idx + 1].keys@ == old(self).children@[idx + 1].keys@.drop_first(),
    {
        let ghost p = *self;
        let ghost h = p.height();
        proof {
            p.lemma_shape_height(t, h);
        }
        let nk = self.keys.len();
        let mut sib = self.children.remove(idx + 1);
        let mut child = self.children.remove(idx);
        let ghost a = *child;
        let ghost b = *sib;
        proof {
            assert(b == *p.children@[idx + 1]);
            assert(a.shape(t, (h - 1) as nat));
            assert(b.shape(t, (h - 1) as nat));
            a.lemma_shape_height(t, (h - 1) as nat);
            b.lemma_shape_height(t, (h - 1) as nat);
        }
        let sep = self.keys.remove(idx);
        let up = sib.keys.remove(0);
        self.keys.insert(idx, up);
        child.keys.push(sep);
        let ghost mut mv: Seq<i64> = Seq::empty();
        if !child.is_leaf {
            let moved = sib.children.remove(0);
            proof {
                mv = moved.seq();
                assert(moved == b.children@[0]);
                assert(moved.shape(t, (h - 2) as nat));
            }
            child.children.push(moved);
        }
        proof {
            let a2 = *child;
            let b2 = *sib;
            assert(b.keys@ =~= seq![up] + b2.keys@);
            assert(a2.keys@ =~= a.keys@.push(sep));
            if !a.is_leaf {
                assert(b.children@.subrange(1, b.children@.len() as int) =~= b2.children@);
                assert(a2.children@.subrange(0, a.children@.len() as int) =~= a.children@);
            }
            Self::lemma_push_front(b2, b, up, mv);
            Self::lemma_push_back(a, a2, sep, mv);
            assert(a.seq() + seq![sep] + b.seq() =~= a2.seq() + seq![up] + b2.seq());
            if h - 1 > 0 {
                assert forall|j: int| 0 <= j < a2.children@.len() implies t <= (#[trigger] a2.children@[j]).keys@.len() + 1
                    && a2.children@[j].shape(t, (h - 2) as nat) by {
                    if j < a.children@.len() {
                        assert(a2.children@[j] == a.children@[j]);
                    }
                }
                assert forall|j: int| 0 <= j < b2.children@.len() implies t <= (#[trigger] b2.children@[j]).keys@.len() + 1
                    && b2.children@[j].shape(t, (h - 2) as nat) by {
                    assert(b2.children@[j] == b.children@[j + 1]);
                }
            }
            assert(a2.shape(t, (h - 1) as nat));
            assert(b2.shape(t, (h - 1) as nat));
        }
        self.children.insert(idx, child);
        self.children.insert(idx + 1, sib);
        proof {
            let p2 = *self;
            assert(p2.children@[idx as int] == child);
            assert(p2.children@[idx + 1] == sib);
            assert(p2.keys@ =~= p.keys@.update(idx as int, up));
            assert forall|i: int| 0 <= i < p.children@.len() && i != idx && i != idx + 1 implies p2.children@[i] == p.children@[i] by {}
            Self::lemma_rotate_parent(p, p2, idx as int, t);
            assert(sib.keys@ =~= b.keys@.drop_first());
        }
    }

    /// Gives child `idx`, which holds fewer than `t` keys, at least `t`:
    /// it borrows a key from a sibling that can spare one, through the own
    /// key between them, or else is merged with a sibling and the own key
    /// between them.
    pub fn fill(&mut self, idx: usize, t: usize)
        requires
            old(self).is_tree(t as nat),
            2 <= t <= usize::MAX / 2,
            !old(self).leaf(),
            idx < old(self).child_seq().len(),
            old(self).key_seq().len() > 0,
            old(self).child_seq()[idx as int].key_seq().len() < t,
        ensures
            final(self).contents() == old(self).contents(),
            !final(self).leaf(),
            final(self).is_tree(t as nat),
            final(self).tree_height() == old(self).tree_height(),
            fill_result(*old(self), *final(self), idx as int, t as nat),
    {
        let ghost p = *self;
        proof {
            p.lemma_shape_height(t as nat, p.height());
        }
        let nk = self.keys.len();
        if idx != 0 && self.children[idx - 1].keys.len() >= t {
            self.borrow_from_prev(idx, Ghost(t as nat));
        } else if idx < nk && self.children[idx + 1].keys.len() >= t {
            self.borrow_from_next(idx, Ghost(t as nat));
        } else {
            let merge_idx = if idx != nk {
                idx
            } else {
                idx - 1
            };
            proof {
                let a = *p.children@[merge_idx as int];
                let b = *p.children@[merge_idx + 1];
                assert(a.keys@.len() < t && b.keys@.len() < t);
            }
            self.merge(merge_idx, Ghost(t as nat));
        }
    }
}

// ---------------------------------------------------------------------------
// Removal.
// ---------------------------------------------------------------------------

/// In a sorted concatenation, the middle part can be replaced by a sorted
/// sequence of some of its elements.
proof fn lemma_sorted_subst(a: Seq<i64>, b: Seq<i64>, c: Seq<i64>, b2: Seq<i64>)
    requires
        sorted(a + b + c),
        sorted(b2),
        forall|x: i64| b2.contains(x) ==> b.contains(x),
    ensures
        sorted(a + b2 + c),
{
    lemma_sorted_parts(a, b, c);
    assert forall|i: int, j: int| 0 <= i < a.len() && 0 <= j < b2.len() implies a[i] <= b2[j] by {
        assert(b2.contains(b2[j]));
        let m = choose|m: int| 0 <= m < b.len() && b[m] == b2[j];
    }
    assert forall|i: int, j: int| 0 <= i < b2.len() && 0 <= j < c.len() implies b2[i] <= c[j] by {
        assert(b2.contains(b2[i]));
        let m = choose|m: int| 0 <= m < b.len() && b[m] == b2[i];
    }
    lemma_sorted_join(a, b2, c);
}

impl BtreeNode {
    /// Neighbouring own keys are in order.
    proof fn lemma_adjacent_keys(self, j: int)
        requires
            !self.is_leaf,
            self.children@.len() == self.keys@.len() + 1,
            sorted(self.seq()),
            0 <= j,
            j + 1 < self.keys@.len(),
        ensures
            self.keys@[j] <= self.keys@[j + 1],
    {
        self.lemma_outer_bounds(j + 1);
        self.lemma_around((j + 1) as nat);
        let a = self.pre((j + 1) as nat);
        let c = self.post((j + 1) as nat);
        assert(a == self.pre(j as nat) + self.children@[j].seq() + seq![self.keys@[j]]);
        assert(a[a.len() - 1] == self.keys@[j]);
        assert(c == seq![self.keys@[j + 1]] + self.children@[j + 2].seq() + self.post((j + 2) as nat));
        assert(c[0] == self.keys@[j + 1]);
        lemma_sorted_parts(a, self.children@[j + 1].seq(), c);
    }

    /// The own keys of child `j` lie between the own keys around it.
    proof fn lemma_child_keys_bounded(self, j: int)
        requires
            !self.is_leaf,
            self.children@.len() == self.keys@.len() + 1,
            self.formed(),
            sorted(self.seq()),
            0 <= j < self.children@.len(),
        ensures
            forall|i: int| 0 <= i < self.children@[j].keys@.len() ==> (j > 0 ==> self.keys@[j - 1] <= #[trigger] self.children@[j].keys@[i])
                && (j < self.keys@.len() ==> self.children@[j].keys@[i] <= self.keys@[j]),
    {
        let c = self.children@[j];
        assert(c.formed());
        c.lemma_keys_in_seq();
        self.lemma_child_bounds(j);
        assert forall|i: int| 0 <= i < c.keys@.len() implies (j > 0 ==> self.keys@[j - 1] <= #[trigger] c.keys@[i])
            && (j < self.keys@.len() ==> c.keys@[i] <= self.keys@[j]) by {
            assert(c.seq().contains(c.keys@[i]));
            let m = choose|m: int| 0 <= m < c.seq().len() && c.seq()[m] == c.keys@[i];
        }
    }

    /// Own key `idx` replaced by `x`, the largest key of child `idx`, and that
    /// child by one without one `x`.
    #[verifier::rlimit(80)]
    #[verifier::spinoff_prover]
    proof fn lemma_take_pred(p: BtreeNode, p2: BtreeNode, idx: int, x: i64)
        requires
            !p.is_leaf,
            !p2.is_leaf,
            p.children@.len() == p.keys@.len() + 1,
            p.formed(),
            sorted(p.seq()),
            0 <= idx < p.keys@.len(),
            p.children@[idx].seq().len() > 0,
            x == p.children@[idx].seq().last(),
            p2.keys@ == p.keys@.update(idx, x),
            p2.children@.len() == p.children@.len(),
            forall|j: int| 0 <= j < p.children@.len() && j != idx ==> p2.children@[j] == p.children@[j],
            p2.children@[idx].formed(),
            sorted(p2.children@[idx].seq()),
            p2.children@[idx].seq().to_multiset() == p.children@[idx].seq().to_multiset().remove(x),
        ensures
            p2.formed(),
            sorted(p2.seq()),
            p2.seq().to_multiset() == p.seq().to_multiset().remove(p.keys@[idx]),
    {
        let n = p.keys@.len();
        let k = p.keys@[idx];
        let c = p.children@[idx].seq();
        let c2 = p2.children@[idx].seq();
        Self::lemma_pre_congr(p, p2, idx as nat);
        assert(p.keys@.subrange(idx + 1, n as int) =~= p2.keys@.subrange(idx + 1, n as int));
        assert(p.children@.subrange(idx + 2, n + 1int) =~= p2.children@.subrange(idx + 2, n + 1int));
        Self::lemma_post_congr(p, p2, (idx + 1) as nat, (idx + 1) as nat);
        p.lemma_around(idx as nat);
        p2.lemma_around(idx as nat);
        let a = p.pre(idx as nat);
        let rest = p.children@[idx + 1].seq() + p.post((idx + 1) as nat);
        assert(p.post(idx as nat) == seq![k] + p.children@[idx + 1].seq() + p.post((idx + 1) as nat));
        assert(p2.post(idx as nat) == seq![x] + p.children@[idx + 1].seq() + p.post((idx + 1) as nat));
        assert(p.seq() =~= a + (c + seq![k]) + rest);
        assert(p2.seq() =~= a + (c2 + seq![x]) + rest);
        // the new middle is sorted and made of old middle elements
        p.lemma_child_bounds(idx);
        assert forall|y: i64| c2.contains(y) implies c.contains(y) by {
            vstd::seq_lib::to_multiset_contains(c2, y);
            vstd::seq_lib::to_multiset_contains(c, y);
            broadcast use vstd::multiset::group_multiset_axioms;
        }
        assert forall|y: i64| (c2 + seq![x]).contains(y) implies (c + seq![k]).contains(y) by {
            if y == x {
                assert((c + seq![k])[c.len() - 1] == x);
            } else {
                let m = choose|m: int| 0 <= m < (c2 + seq![x]).len() && (c2 + seq![x])[m] == y;
                assert(c2[m] == y);
                assert(c2.contains(y));
                let m2 = choose|m2: int| 0 <= m2 < c.len() && c[m2] == y;
                assert((c + seq![k])[m2] == y);
            }
        }
        assert(sorted(c2 + seq![x])) by {
            assert forall|i: int, j: int| 0 <= i <= j < (c2 + seq![x]).len() implies (c2 + seq![x])[i] <= (c2 + seq![x])[j] by {
                if j == c2.len() && i < c2.len() {
                    assert(c2.contains(c2[i]));
                    let m = choose|m: int| 0 <= m < c.len() && c[m] == c2[i];
                    assert(c[m] <= c[c.len() - 1]);
                }
            }
        }
        lemma_sorted_subst(a, c + seq![k], rest, c2 + seq![x]);
        // the multiset loses k
        lemma_ms3(a, c + seq![k], rest);
        lemma_ms3(a, c2 + seq![x], rest);
        vstd::seq_lib::lemma_multiset_commutative(c, seq![k]);
        vstd::seq_lib::lemma_multiset_commutative(c2, seq![x]);
        assert(c.to_multiset().count(x) > 0) by {
            assert(c[c.len() - 1] == x);
            vstd::seq_lib::to_multiset_contains(c, x);
        }
        assert(p2.seq().to_multiset() =~= p.seq().to_multiset().remove(k)) by {
            broadcast use vstd::multiset::group_multiset_axioms;
        }
        assert forall|j: int| 0 <= j < p2.children@.len() implies (#[trigger] p2.children@[j]).formed() by {
            if j != idx {
                assert(p2.children@[j] == p.children@[j]);
            }
        }
    }
}

impl BtreeNode {
    /// Own key `idx` replaced by `x`, the smallest key of child `idx + 1`,
    /// and that child by one without one `x`.
    #[verifier::rlimit(80)]
    #[verifier::spinoff_prover]
    proof fn lemma_take_succ(p: BtreeNode, p2: BtreeNode, idx: int, x: i64)
        requires
            !p.is_leaf,
            !p2.is_leaf,
            p.children@.len() == p.keys@.len() + 1,
            p.formed(),
            sorted(p.seq()),
            0 <= idx < p.keys@.len(),
            p.children@[idx + 1].seq().len() > 0,
            x == p.children@[idx + 1].seq()[0],
            p2.keys@ == p.keys@.update(idx, x),
            p2.children@.len() == p.children@.len(),
            forall|j: int| 0 <= j < p.children@.len() && j != idx + 1 ==> p2.children@[j] == p.children@[j],
            p2.children@[idx + 1].formed(),
            sorted(p2.children@[idx + 1].seq()),
            p2.children@[idx + 1].seq().to_multiset() == p.children@[idx + 1].seq().to_multiset().remove(x),
        ensures
            p2.formed(),
            sorted(p2.seq()),
            p2.seq().to_multiset() == p.seq().to_multiset().remove(p.keys@[idx]),
    {
        let n = p.keys@.len();
        let k = p.keys@[idx];
        let c = p.children@[idx + 1].seq();
        let c2 = p2.children@[idx + 1].seq();
        Self::lemma_pre_congr(p, p2, idx as nat);
        assert(p.keys@.subrange(idx + 1, n as int) =~= p2.keys@.subrange(idx + 1, n as int));
        assert(p.children@.subrange(idx + 2, n + 1int) =~= p2.children@.subrange(idx + 2, n + 1int));
        Self::lemma_post_congr(p, p2, (idx + 1) as nat, (idx + 1) as nat);
        p.lemma_around((idx + 1) as nat);
        p2.lemma_around((idx + 1) as nat);
        assert(p2.children@[idx] == p.children@[idx]);
        let a = p.pre(idx as nat) + p.children@[idx].seq();
        let rest = p.post((idx + 1) as nat);
        assert(p.pre((idx + 1) as nat) == p.pre(idx as nat) + p.children@[idx].seq() + seq![k]);
        assert(p2.pre((idx + 1) as nat) == p2.pre(idx as nat) + p2.children@[idx].seq() + seq![x]);
        assert(p.seq() =~= a + (seq![k] + c) + rest);
        assert(p2.seq() =~= a + (seq![x] + c2) + rest);
        p.lemma_child_bounds(idx + 1);
        assert forall|y: i64| c2.contains(y) implies c.contains(y) by {
            vstd::seq_lib::to_multiset_contains(c2, y);
            vstd::seq_lib::to_multiset_contains(c, y);
            broadcast use vstd::multiset::group_multiset_axioms;
        }
        assert forall|y: i64| (seq![x] + c2).contains(y) implies (seq![k] + c).contains(y) by {
            if y == x {
                assert((seq![k] + c)[1] == x);
            } else {
                let m = choose|m: int| 0 <= m < (seq![x] + c2).len() && (seq![x] + c2)[m] == y;
                assert(c2[m - 1] == y);
                assert(c2.contains(y));
                let m2 = choose|m2: int| 0 <= m2 < c.len() && c[m2] == y;
                assert((seq![k] + c)[m2 + 1] == y);
            }
        }
        assert(sorted(seq![x] + c2)) by {
            assert forall|i: int, j: int| 0 <= i <= j < (seq![x] + c2).len() implies (seq![x] + c2)[i] <= (seq![x] + c2)[j] by {
                if i == 0 && j > 0 {
                    assert(c2.contains(c2[j - 1]));
                    let m = choose|m: int| 0 <= m < c.len() && c[m] == c2[j - 1];
                    assert(c[0] <= c[m]);
                }
            }
        }
        lemma_sorted_subst(a, seq![k] + c, rest, seq![x] + c2);
        lemma_ms3(a, seq![k] + c, rest);
        lemma_ms3(a, seq![x] + c2, rest);
        vstd::seq_lib::lemma_multiset_commutative(seq![k], c);
        vstd::seq_lib::lemma_multiset_commutative(seq![x], c2);
        assert(c.to_multiset().count(x) > 0) by {
            vstd::seq_lib::to_multiset_contains(c, x);
        }
        assert(p2.seq().to_multiset() =~= p.seq().to_multiset().remove(k)) by {
            broadcast use vstd::multiset::group_multiset_axioms;
        }
        assert forall|j: int| 0 <= j < p2.children@.len() implies (#[trigger] p2.children@[j]).formed() by {
            if j != idx + 1 {
                assert(p2.children@[j] == p.children@[j]);
            }
        }
    }
}

impl BtreeNode {
    /// Removes one occurrence of `k` from the subtree.
    ///
    /// On the way down every child entered holds at least `t` keys, so that
    /// removing a key from it leaves it legal: a child at the minimum first
    /// borrows from or merges with a sibling (`fill`). A key found in an
    /// internal node is replaced by its predecessor or successor from a child
    /// that can spare one, or else the two children around it are merged
    /// with it and the removal goes on in the merged child. Returns whether
    /// `k` was present.
    pub fn remove(&mut self, k: i64, t: usize) -> (r: bool)
        requires
            old(self).is_tree(t as nat),
            old(self).removable(t as nat),
            2 <= t <= usize::MAX / 2,
        ensures
            final(self).is_tree(t as nat),
            final(self).tree_height() == old(self).tree_height(),
            final(self).leaf() == old(self).leaf(),
            r == old(self).contents().contains(k),
            r ==> final(self).key_multiset() == old(self).key_multiset().remove(k),
            !r ==> final(self).contents() == old(self).contents(),
            old(self).key_seq().len() <= final(self).key_seq().len() + 1,
        decreases old(self).tree_height(), 1nat,
    {
        let ghost p = *self;
        proof {
            p.lemma_shape_height(t as nat, p.height());
        }
        let mut idx: usize = 0;
        while idx < self.keys.len() && k > self.keys[idx]
            invariant
                *self == p,
                0 <= idx <= self.keys@.len(),
                forall|j: int| 0 <= j < idx ==> self.keys@[j] < k,
            decreases self.keys@.len() - idx,
        {
            idx += 1;
        }
        if idx < self.keys.len() && k == self.keys[idx] {
            if self.is_leaf {
                self.keys.remove(idx);
                proof {
                    let s = p.keys@;
                    assert(p.seq() == s);
                    assert(self.seq() == self.keys@);
                    assert(s[idx as int] == k);
                    assert(s.contains(k));
                    assert(sorted(self.keys@)) by {
                        assert forall|a: int, b: int| 0 <= a <= b < self.keys@.len() implies self.keys@[a] <= self.keys@[b] by {
                            let a0 = if a < idx { a } else { a + 1 };
                            let b0 = if b < idx { b } else { b + 1 };
                            assert(self.keys@[a] == s[a0]);
                            assert(self.keys@[b] == s[b0]);
                        }
                    }
                    assert(self.shape(t as nat, 0));
                }
            } else {
                self.remove_internal(idx, k, t);
            }
            true
        } else {
            if self.is_leaf {
                proof {
                    let s = p.keys@;
                    assert(p.seq() == s);
                    assert forall|j: int| 0 <= j < s.len() implies s[j] != k by {
                        if j >= idx {
                            assert(s[idx as int] <= s[j]);
                        }
                    }
                }
                return false;
            }
            self.remove_descend(idx, k, t)
        }
    }

    /// Removes own key `idx`, which is `k`, from an internal node.
    #[verifier::rlimit(60)]
    #[verifier::spinoff_prover]
    fn remove_internal(&mut self, idx: usize, k: i64, t: usize)
        requires
            old(self).is_tree(t as nat),
            !old(self).is_leaf,
            idx < old(self).keys@.len(),
            old(self).keys@[idx as int] == k,
            2 <= t <= usize::MAX / 2,
        ensures
            final(self).is_tree(t as nat),
            final(self).height() == old(self).height(),
            !final(self).is_leaf,
            old(self).seq().contains(k),
            final(self).seq().to_multiset() == old(self).seq().to_multiset().remove(k),
            old(self).keys@.len() <= final(self).keys@.len() + 1,
        decreases old(self).tree_height(), 0nat,
    {
        let ghost p = *self;
        let ghost h = p.height();
        proof {
            p.lemma_shape_height(t as nat, h);
            p.lemma_keys_in_seq();
        }
        if self.children[idx].keys.len() >= t {
            proof {
                let c = *p.children@[idx as int];
                assert(c.shape(t as nat, (h - 1) as nat));
                c.lemma_shape_height(t as nat, (h - 1) as nat);
                c.lemma_keys_in_seq();
                p.lemma_child_bounds(idx as int);
            }
            let pred = *self.children[idx].get_max(Ghost(t as nat));
            self.keys.set(idx, pred);
            let mut c = self.children.remove(idx);
            proof {
                let c0 = *c;
                assert(c0 == *p.children@[idx as int]);
                assert(c0.seq().contains(pred)) by {
                    assert(c0.seq()[c0.seq().len() - 1] == pred);
                }
                assert(c0.is_tree(t as nat));
            }
            let _found = c.remove(pred, t);
            self.children.insert(idx, c);
            proof {
                let p2 = *self;
                assert(p2.children@[idx as int] == c);
                c.lemma_shape_height(t as nat, c.height());
                Self::lemma_take_pred(p, p2, idx as int, pred);
                Self::lemma_child_reshaped(p, p2, idx as int, t as nat, h);
            }
        } else if self.children[idx + 1].keys.len() >= t {
            proof {
                let c = *p.children@[idx + 1];
                assert(c.shape(t as nat, (h - 1) as nat));
                c.lemma_shape_height(t as nat, (h - 1) as nat);
                c.lemma_keys_in_seq();
                p.lemma_child_bounds(idx + 1);
            }
            let succ = *self.children[idx + 1].get_min(Ghost(t as nat));
            self.keys.set(idx, succ);
            let mut c = self.children.remove(idx + 1);
            proof {
                let c0 = *c;
                assert(c0 == *p.children@[idx + 1]);
                assert(c0.seq().contains(succ)) by {
                    assert(c0.seq()[0] == succ);
                }
                assert(c0.is_tree(t as nat));
            }
            let _found = c.remove(succ, t);
            self.children.insert(idx + 1, c);
            proof {
                let p2 = *self;
                assert(p2.children@[idx + 1] == c);
                c.lemma_shape_height(t as nat, c.height());
                Self::lemma_take_succ(p, p2, idx as int, succ);
                Self::lemma_child_reshaped(p, p2, idx + 1, t as nat, h);
            }
        } else {
            self.merge(idx, Ghost(t as nat));
            let ghost q = *self;
            let mut c = self.children.remove(idx);
            proof {
                let c0 = *c;
                assert(p.children@[idx as int].keys@.len() < t);
                assert(p.children@[idx + 1].keys@.len() < t);
                assert(q.is_tree(t as nat));
                q.lemma_shape_height(t as nat, h);
                q.lemma_child_bounds(idx as int);
                assert(c0 == *q.children@[idx as int]);
                assert(c0.shape(t as nat, (h - 1) as nat));
                c0.lemma_shape_height(t as nat, (h - 1) as nat);
                c0.lemma_keys_in_seq();
                assert(c0.keys@[p.children@[idx as int].keys@.len() as int] == k);
                assert(c0.seq().contains(k));
                vstd::seq_lib::to_multiset_contains(c0.seq(), k);
                if idx > 0 {
                    p.lemma_adjacent_keys(idx - 1);
                }
                if idx + 1 < p.keys@.len() {
                    p.lemma_adjacent_keys(idx as int);
                }
            }
            let _found = c.remove(k, t);
            self.children.insert(idx, c);
            proof {
                let q2 = *self;
                assert(q2.children@[idx as int] == c);
                c.lemma_shape_height(t as nat, c.height());
                Self::lemma_child_changed(q, q2, idx as int, k, false);
                Self::lemma_child_reshaped(q, q2, idx as int, t as nat, h);
            }
        }
    }

    /// Removes `k` from the subtree below child `idx`, which is where `k`
    /// belongs, after making sure the child can spare a key.
    #[verifier::rlimit(60)]
    #[verifier::spinoff_prover]
    fn remove_descend(&mut self, idx: usize, k: i64, t: usize) -> (r: bool)
        requires
            old(self).is_tree(t as nat),
            old(self).removable(t as nat),
            !old(self).is_leaf,
            idx <= old(self).keys@.len(),
            idx > 0 ==> old(self).keys@[idx - 1] < k,
            idx < old(self).keys@.len() ==> k < old(self).keys@[idx as int],
            2 <= t <= usize::MAX / 2,
        ensures
            final(self).is_tree(t as nat),
            final(self).height() == old(self).height(),
            !final(self).is_leaf,
            r == old(self).seq().contains(k),
            r ==> final(self).seq().to_multiset() == old(self).seq().to_multiset().remove(k),
            !r ==> final(self).seq() == old(self).seq(),
            old(self).keys@.len() <= final(self).keys@.len() + 1,
        decreases old(self).tree_height(), 0nat,
    {
        let ghost p = *self;
        let ghost h = p.height();
        proof {
            p.lemma_shape_height(t as nat, h);
        }
        let nk = self.keys.len();
        let flag = idx == nk;
        if self.children[idx].keys.len() < t {
            self.fill(idx, t);
            proof {
                Self::lemma_fill_bounds(p, *self, idx as int, k, t as nat);
            }
        }
        let nk2 = self.keys.len();
        let child_idx = if flag && idx > nk2 {
            idx - 1
        } else {
            idx
        };
        let ghost q = *self;
        proof {
            assert(q.seq() == p.seq());
            assert(q.children@.len() == q.keys@.len() + 1);
            assert(child_idx > 0 ==> q.keys@[child_idx - 1] < k);
            assert(child_idx < q.keys@.len() ==> k < q.keys@[child_idx as int]);
            assert(q.children@[child_idx as int].keys@.len() >= t);
            q.lemma_descend(child_idx as int, k);
            q.lemma_shape_height(t as nat, h);
            let c0 = *q.children@[child_idx as int];
            assert(c0.shape(t as nat, (h - 1) as nat));
            c0.lemma_shape_height(t as nat, (h - 1) as nat);
            q.lemma_child_bounds(child_idx as int);
            vstd::seq_lib::to_multiset_contains(c0.seq(), k);
        }
        let mut c = self.children.remove(child_idx);
        let r = c.remove(k, t);
        self.children.insert(child_idx, c);
        proof {
            let q2 = *self;
            assert(q2.children@[child_idx as int] == c);
            c.lemma_shape_height(t as nat, c.height());
            Self::lemma_child_reshaped(q, q2, child_idx as int, t as nat, h);
            if r {
                Self::lemma_child_changed(q, q2, child_idx as int, k, false);
            } else {
                Self::lemma_replace_child(q, q2, child_idx as nat);
                q.lemma_around(child_idx as nat);
            }
        }
        r
    }

    /// After `fill` at child `idx`, a key `k` strictly between the own keys
    /// around that child is strictly between the own keys around the child
    /// it now belongs to, which holds at least `t` keys.
    #[verifier::rlimit(80)]
    #[verifier::spinoff_prover]
    proof fn lemma_fill_bounds(p: BtreeNode, q: BtreeNode, idx: int, k: i64, t: nat)
        requires
            p.is_tree(t),
            !p.is_leaf,
            2 <= t,
            0 <= idx <= p.keys@.len(),
            p.keys@.len() > 0,
            idx > 0 ==> p.keys@[idx - 1] < k,
            idx < p.keys@.len() ==> k < p.keys@[idx],
            p.children@[idx].keys@.len() < t,
            fill_result(p, q, idx, t),
            q.is_tree(t),
            q.height() == p.height(),
            !q.is_leaf,
        ensures
            ({
                let ci = if idx == p.keys@.len() && idx > q.keys@.len() {
                    idx - 1
                } else {
                    idx
                };
                &&& 0 <= ci < q.children@.len()
                &&& ci > 0 ==> q.keys@[ci - 1] < k
                &&& ci < q.keys@.len() ==> k < q.keys@[ci]
                &&& q.children@[ci].keys@.len() >= t
                &&& p.keys@.len() <= q.keys@.len() + 1
            }),
    {
        p.lemma_shape_height(t, p.height());
        q.lemma_shape_height(t, q.height());
        let n = p.keys@.len();
        let cs = p.children@;
        if idx > 0 && cs[idx - 1].keys@.len() >= t {
            p.lemma_child_keys_bounded(idx - 1);
            assert(cs[idx - 1].keys@.last() <= p.keys@[idx - 1]);
        } else if idx < n && cs[idx + 1].keys@.len() >= t {
            p.lemma_child_keys_bounded(idx + 1);
            assert(p.keys@[idx] <= cs[idx + 1].keys@[0]);
        } else {
            if idx < n {
                if idx + 1 < n {
                    p.lemma_adjacent_keys(idx);
                }
            } else {
                if idx >= 2 {
                    p.lemma_adjacent_keys(idx - 2);
                }
            }
        }
    }
}

// ---------------------------------------------------------------------------
// Laws.
// ---------------------------------------------------------------------------

/// Two sorted sequences with the same keys, counted with repetition, are equal.
pub proof fn lemma_sorted_same_keys_equal(x: Seq<i64>, y: Seq<i64>)
    requires
        sorted(x),
        sorted(y),
        x.to_multiset() == y.to_multiset(),
    ensures
        x == y,
{
    let leq = |a: i64, b: i64| a <= b;
    assert(vstd::relations::sorted_by(x, leq));
    assert(vstd::relations::sorted_by(y, leq));
    assert(vstd::relations::total_ordering(leq));
    vstd::seq_lib::lemma_sorted_unique(x, y, leq);
}

impl BtreeNode {
    /// A key is in the tree exactly when it is counted in its key multiset.
    pub proof fn lemma_contains_iff_counted(self, k: i64)
        ensures
            self.contents().contains(k) <==> self.key_multiset().count(k) > 0,
    {
        vstd::seq_lib::to_multiset_contains(self.seq(), k);
    }

    /// Inserting a key and then removing it gives back the same keys in the
    /// same order.
    pub proof fn lemma_insert_then_remove(before: BtreeNode, after: BtreeNode, k: i64, t: nat)
        requires
            before.is_tree(t),
            after.is_tree(t),
            after.key_multiset() == before.key_multiset().insert(k).remove(k),
        ensures
            after.contents() == before.contents(),
    {
        assert(before.key_multiset().insert(k).remove(k) =~= before.key_multiset()) by {
            broadcast use vstd::multiset::group_multiset_axioms;
        }
        lemma_sorted_same_keys_equal(after.seq(), before.seq());
    }
}

impl Btree {
    /// After inserting `k`, the tree holds `k`, and all it held before.
    pub proof fn lemma_inserted_key_found(before: Btree, after: Btree, k: i64)
        requires
            after.key_multiset() == before.key_multiset().insert(k),
        ensures
            after.contents().contains(k),
            forall|x: i64| before.contents().contains(x) ==> after.contents().contains(x),
    {
        after.root.lemma_contains_iff_counted(k);
        assert forall|x: i64| before.contents().contains(x) implies after.contents().contains(x) by {
            before.root.lemma_contains_iff_counted(x);
            after.root.lemma_contains_iff_counted(x);
            broadcast use vstd::multiset::group_multiset_axioms;
        }
        broadcast use vstd::multiset::group_multiset_axioms;
    }
}


impl BtreeNode {
    /// What the closed parts mean: the key multiset counts the in-order
    /// keys, and the in-order keys of a B-tree, or of any search tree, are
    /// sorted.
    pub proof fn lemma_tree_contents(self, t: nat)
        ensures
            self.key_multiset() == self.contents().to_multiset(),
            self.is_tree(t) ==> sorted(self.contents()),
            self.ordered() ==> sorted(self.contents()),
    {
    }
}

impl Btree {
    /// What the closed parts mean: the key multiset counts the in-order
    /// keys, and a well-formed tree's in-order keys are sorted.
    pub proof fn lemma_tree_contents(self)
        ensures
            self.key_multiset() == self.contents().to_multiset(),
            self.wf() ==> sorted(self.contents()),
    {
    }
}

/// A sorted sequence that gained one `k` is the old one with `k` inserted
/// at some position (and, being sorted, in its place).
pub proof fn lemma_sorted_insert_in_place(before: Seq<i64>, after: Seq<i64>, k: i64)
    requires
        sorted(before),
        sorted(after),
        after.to_multiset() == before.to_multiset().insert(k),
    ensures
        exists|i: int| 0 <= i <= before.len() && after == #[trigger] before.insert(i, k),
{
    crate::storage::btree::lemma_grown_keys_in_place(before, after, k);
    let i = crate::storage::btree::count_le(before, k) as int;
    assert(after == before.insert(i, k));
}

/// A sorted sequence that lost one `k` it held is the old one with one `k`
/// removed.
pub proof fn lemma_sorted_remove_in_place(before: Seq<i64>, after: Seq<i64>, k: i64)
    requires
        sorted(before),
        sorted(after),
        before.contains(k),
        after.to_multiset() == before.to_multiset().remove(k),
    ensures
        exists|i: int| 0 <= i < before.len() && before[i] == k && after == #[trigger] before.remove(i),
{
    let i = choose|i: int| 0 <= i < before.len() && before[i] == k;
    let r = before.remove(i);
    vstd::seq_lib::to_multiset_remove(before, i);
    assert(sorted(r)) by {
        assert forall|a: int, b: int| 0 <= a <= b < r.len() implies r[a] <= r[b] by {
            if a < i && b >= i {
                assert(r[b] == before[b + 1]);
            } else if a >= i {
                assert(r[a] == before[a + 1]);
                assert(r[b] == before[b + 1]);
            }
        }
    }
    lemma_sorted_same_keys_equal(after, r);
}

} // verus!
