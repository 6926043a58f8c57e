//! An in-memory B-tree from `i64` keys to values, with minimum degree `t`.
//!
//! The abstract contents of a node are its in-order sequence of entries
//! (`entries`): the entries of child 0, own entry 0, the entries of child 1,
//! own entry 1, ..., the entries of the last child. Lookups see the first
//! entry for a key in that order (`view`).

use vstd::prelude::*;

verus! {

/// `x` lies in the half-open key range `[lo, hi)`; a missing bound is unbounded.
pub open spec fn in_range(x: i64, lo: Option<i64>, hi: Option<i64>) -> bool {
    &&& (lo matches Some(l) ==> l <= x)
    &&& (hi matches Some(h) ==> x < h)
}

/// The map of the first entry for each key in `s`.
pub open spec fn first_map<V>(s: Seq<(i64, V)>) -> Map<i64, V>
    decreases s.len(),
{
    if s.len() == 0 {
        Map::empty()
    } else {
        first_map(s.drop_first()).insert(s[0].0, s[0].1)
    }
}

/// The keys of a sequence of entries.
pub open spec fn keys_of<V>(s: Seq<(i64, V)>) -> Seq<i64> {
    s.map_values(|e: (i64, V)| e.0)
}

/// `after` holds the keys of `before` and one more `k`, counted with
/// repetition.
pub open spec fn keys_grown(before: Seq<i64>, after: Seq<i64>, k: i64) -> bool {
    after.to_multiset() == before.to_multiset().insert(k)
}

/// Nondecreasing order.
pub open spec fn nondecreasing(s: Seq<i64>) -> bool {
    forall|i: int, j: int| 0 <= i <= j < s.len() ==> s[i] <= s[j]
}

/// Strictly increasing order.
pub open spec fn strictly_increasing(s: Seq<i64>) -> bool {
    forall|i: int, j: int| 0 <= i < j < s.len() ==> s[i] < s[j]
}

/// The number of elements of `s` that are at most `k`.
pub open spec fn count_le(s: Seq<i64>, k: i64) -> nat
    decreases s.len(),
{
    if s.len() == 0 {
        0
    } else {
        count_le(s.drop_last(), k) + if s.last() <= k {
            1nat
        } else {
            0nat
        }
    }
}

#[derive(Debug)]
pub struct Node<V> {
    leaf: bool,
    keys: Vec<i64>,
    values: Vec<V>,
    children: Vec<Box<Node<V>>>,
}

impl<V> Node<V> {
    /// The lower bound of child `j`'s key range.
    pub closed spec fn child_lo(self, j: int, lo: Option<i64>) -> Option<i64> {
        if j == 0 {
            lo
        } else {
            Some(self.keys@[j - 1])
        }
    }

    /// The upper bound of child `j`'s key range.
    pub closed spec fn child_hi(self, j: int, hi: Option<i64>) -> Option<i64> {
        if j == self.keys@.len() {
            hi
        } else {
            Some(self.keys@[j])
        }
    }

    pub closed spec fn is_leaf(self) -> bool {
        self.leaf
    }

    pub closed spec fn key_seq(self) -> Seq<i64> {
        self.keys@
    }

    pub closed spec fn value_seq(self) -> Seq<V> {
        self.values@
    }

    /// Well-formedness of the subtree rooted here, with all keys in `[lo, hi)`:
    /// own keys strictly increasing, one value per key, a leaf has no
    /// children, an internal node has one child more than keys, and child `j`
    /// holds keys between own keys `j - 1` (inclusive) and `j` (exclusive).
    pub closed spec fn wf(self, lo: Option<i64>, hi: Option<i64>) -> bool
        decreases self,
    {
        &&& self.keys@.len() == self.values@.len()
        &&& strictly_increasing(self.keys@)
        &&& forall|i: int| 0 <= i < self.keys@.len() ==> in_range(#[trigger] self.keys@[i], lo, hi)
        &&& if self.leaf {
            self.children@.len() == 0
        } else {
            &&& self.children@.len() == self.keys@.len() + 1
            &&& forall|j: int|
                0 <= j < self.children@.len() ==> (#[trigger] self.children@[j]).wf(
                    self.child_lo(j, lo),
                    self.child_hi(j, hi),
                )
        }
    }

    /// The in-order entries of the first `n` children, each followed by the
    /// own entry after it.
    spec fn entries_upto(self, n: nat) -> Seq<(i64, V)>
        decreases self, n,
    {
        if n == 0 || n > self.keys@.len() || n > self.children@.len() {
            Seq::empty()
        } else {
            self.entries_upto((n - 1) as nat) + self.children@[n - 1].entries() + seq![
                (self.keys@[n - 1], self.values@[n - 1]),
            ]
        }
    }

    /// The in-order entries of the subtree rooted here.
    spec fn entries(self) -> Seq<(i64, V)>
        decreases self, self.keys@.len() + 1,
    {
        if self.leaf {
            Seq::new(self.keys@.len(), |j: int| (self.keys@[j], self.values@[j]))
        } else if self.children@.len() == self.keys@.len() + 1 {
            self.entries_upto(self.keys@.len()) + self.children@[self.keys@.len() as int].entries()
        } else {
            Seq::empty()
        }
    }

    /// What lookups in this subtree see.
    pub closed spec fn view(self) -> Map<i64, V> {
        first_map(self.entries())
    }

    /// Well-formedness of a whole tree.
    pub closed spec fn well_formed(self) -> bool {
        self.wf(None, None)
    }

    /// Whether inserting `k` with minimum degree `t` leaves the value that
    /// lookups see for `k` untouched: the insertion passes an internal node
    /// that already holds `k` as one of its own keys without stopping there.
    /// A child about to be split whose median is `k` stops the insertion at
    /// the median instead.
    pub closed spec fn loses_update(self, k: i64, t: nat) -> bool
        decreases self,
    {
        if self.leaf || self.children@.len() != self.keys@.len() + 1 {
            false
        } else if self.keys@.contains(k) {
            true
        } else {
            let i = count_le(self.keys@, k) as int;
            if 0 <= i < self.children@.len() {
                let c = self.children@[i];
                if t >= 1 && c.keys@.len() == 2 * t - 1 && c.keys@[t - 1] == k {
                    false
                } else {
                    c.loses_update(k, t)
                }
            } else {
                false
            }
        }
    }

    /// Whether `k` is one of the own keys of an internal node of the
    /// subtree.
    pub closed spec fn held_in_internal_node(self, k: i64) -> bool
        decreases self,
    {
        &&& !self.leaf
        &&& (self.keys@.contains(k) || exists|j: int|
            0 <= j < self.children@.len() && (#[trigger] self.children@[j]).held_in_internal_node(k))
    }

    /// The largest height among the first `n` children.
    spec fn max_child_height(self, n: nat) -> nat
        decreases self, n,
    {
        if n == 0 || n > self.children@.len() {
            0
        } else {
            let a = self.max_child_height((n - 1) as nat);
            let b = self.children@[n - 1].height();
            if a >= b {
                a
            } else {
                b
            }
        }
    }

    /// The height of the subtree: 0 for a leaf.
    spec fn height(self) -> nat
        decreases self, self.children@.len() + 1,
    {
        if self.leaf {
            0
        } else {
            1 + self.max_child_height(self.children@.len())
        }
    }

    /// The height of the subtree (0 for a leaf).
    pub closed spec fn tree_height(self) -> nat {
        self.height()
    }

    /// The in-order entries of the subtree.
    pub closed spec fn contents(self) -> Seq<(i64, V)> {
        self.entries()
    }

    /// Child `i` of the node.
    pub closed spec fn child(self, i: int) -> Node<V> {
        *self.children@[i]
    }

    /// The children of the node.
    pub closed spec fn child_seq(self) -> Seq<Box<Node<V>>> {
        self.children@
    }

    /// Number of children of the node.
    pub closed spec fn child_count(self) -> nat {
        self.children@.len()
    }

    /// The keys of the subtree in order, duplicates included.
    pub closed spec fn in_order_keys(self) -> Seq<i64> {
        keys_of(self.entries())
    }
}

/// `lo2..hi2` is at least as wide as `lo..hi`.
pub open spec fn wider(lo2: Option<i64>, hi2: Option<i64>, lo: Option<i64>, hi: Option<i64>) -> bool {
    &&& (lo2 matches Some(l2) ==> lo matches Some(l) && l2 <= l)
    &&& (hi2 matches Some(h2) ==> hi matches Some(h) && h <= h2)
}

proof fn lemma_first_map_concat<V>(a: Seq<(i64, V)>, b: Seq<(i64, V)>)
    ensures
        first_map(a + b) == first_map(b).union_prefer_right(first_map(a)),
    decreases a.len(),
{
    if a.len() == 0 {
        assert(a + b =~= b);
        assert(first_map(b).union_prefer_right(first_map(a)) =~= first_map(b));
    } else {
        assert((a + b).drop_first() =~= a.drop_first() + b);
        lemma_first_map_concat(a.drop_first(), b);
        assert(first_map(a + b) =~= first_map(b).union_prefer_right(first_map(a)));
    }
}

proof fn lemma_first_map_dom<V>(s: Seq<(i64, V)>, x: i64)
    ensures
        first_map(s).contains_key(x) <==> keys_of(s).contains(x),
    decreases s.len(),
{
    if s.len() > 0 {
        lemma_first_map_dom(s.drop_first(), x);
        assert(keys_of(s.drop_first()) =~= keys_of(s).drop_first());
        if keys_of(s).contains(x) && s[0].0 != x {
            let j = choose|j: int| 0 <= j < keys_of(s).len() && keys_of(s)[j] == x;
            assert(keys_of(s.drop_first())[j - 1] == x);
        }
        if keys_of(s.drop_first()).contains(x) {
            let j = choose|j: int| 0 <= j < keys_of(s.drop_first()).len() && keys_of(s.drop_first())[j] == x;
            assert(keys_of(s)[j + 1] == x);
        }
        if s[0].0 == x {
            assert(keys_of(s)[0] == x);
        }
    }
}

impl<V> Node<V> {
    proof fn lemma_wf_loosen(self, lo: Option<i64>, hi: Option<i64>, lo2: Option<i64>, hi2: Option<i64>)
        requires
            self.wf(lo, hi),
            wider(lo2, hi2, lo, hi),
        ensures
            self.wf(lo2, hi2),
        decreases self,
    {
        if !self.leaf {
            assert forall|j: int| 0 <= j < self.children@.len() implies (#[trigger] self.children@[j]).wf(
                self.child_lo(j, lo2),
                self.child_hi(j, hi2),
            ) by {
                self.children@[j].lemma_wf_loosen(
                    self.child_lo(j, lo),
                    self.child_hi(j, hi),
                    self.child_lo(j, lo2),
                    self.child_hi(j, hi2),
                );
            }
        }
    }

    /// Every key of the subtree lies in the node's range.
    proof fn lemma_entries_in_range(self, lo: Option<i64>, hi: Option<i64>)
        requires
            self.wf(lo, hi),
        ensures
            forall|e: int| 0 <= e < self.entries().len() ==> in_range(#[trigger] self.entries()[e].0, lo, hi),
        decreases self, self.keys@.len() + 1,
    {
        if self.leaf {
        } else {
            let n = self.keys@.len();
            self.lemma_upto_in_range(lo, hi, n);
            self.children@[n as int].lemma_entries_in_range(self.child_lo(n as int, lo), self.child_hi(n as int, hi));
            let a = self.entries_upto(n);
            let b = self.children@[n as int].entries();
            assert(self.entries() == a + b);
            assert forall|e: int| 0 <= e < self.entries().len() implies in_range(#[trigger] self.entries()[e].0, lo, hi) by {
                if e < a.len() {
                    assert(self.entries()[e] == a[e]);
                } else {
                    assert(self.entries()[e] == b[e - a.len()]);
                }
            }
        }
    }

    /// The entries of the first `n` children lie in `[lo, own key n-1]`.
    proof fn lemma_upto_in_range(self, lo: Option<i64>, hi: Option<i64>, n: nat)
        requires
            self.wf(lo, hi),
            !self.leaf,
            n <= self.keys@.len(),
        ensures
            forall|e: int| 0 <= e < self.entries_upto(n).len() ==> {
                &&& in_range(#[trigger] self.entries_upto(n)[e].0, lo, hi)
                &&& self.entries_upto(n)[e].0 <= self.keys@[n - 1]
            },
        decreases self, n,
    {
        if n > 0 {
            self.lemma_upto_in_range(lo, hi, (n - 1) as nat);
            let c = self.children@[n - 1];
            c.lemma_entries_in_range(self.child_lo(n - 1, lo), self.child_hi(n - 1, hi));
            let a = self.entries_upto((n - 1) as nat);
            let b = c.entries();
            let o = seq![(self.keys@[n - 1], self.values@[n - 1])];
            assert(self.entries_upto(n) == a + b + o);
            assert forall|e: int| 0 <= e < self.entries_upto(n).len() implies {
                &&& in_range(#[trigger] self.entries_upto(n)[e].0, lo, hi)
                &&& self.entries_upto(n)[e].0 <= self.keys@[n - 1]
            } by {
                if e < a.len() {
                    assert(self.entries_upto(n)[e] == a[e]);
                    assert(self.keys@[n - 2] < self.keys@[n - 1]);
                } else if e < a.len() + b.len() {
                    assert(self.entries_upto(n)[e] == b[e - a.len()]);
                    if n - 1 > 0 {
                        assert(self.keys@[0] <= self.keys@[n - 2]);
                    }
                } else {
                    assert(self.entries_upto(n)[e] == o[0]);
                }
            }
        }
    }

    /// How a key `key`, with exactly `i` own keys below it, is seen among
    /// the entries of the first `n` children.
    proof fn lemma_lookup_upto(self, lo: Option<i64>, hi: Option<i64>, n: nat, key: i64, i: int)
        requires
            self.wf(lo, hi),
            !self.leaf,
            n <= self.keys@.len(),
            0 <= i <= self.keys@.len(),
            forall|j: int| 0 <= j < i ==> self.keys@[j] < key,
            i == self.keys@.len() || key <= self.keys@[i],
        ensures
            n <= i ==> !first_map(self.entries_upto(n)).contains_key(key),
            n > i && self.keys@[i] == key ==> first_map(self.entries_upto(n)).contains_key(key)
                && first_map(self.entries_upto(n))[key] == self.values@[i],
            n > i && self.keys@[i] != key ==> (first_map(self.entries_upto(n)).contains_key(key)
                <==> self.children@[i].view().contains_key(key)),
            n > i && self.keys@[i] != key && self.children@[i].view().contains_key(key)
                ==> first_map(self.entries_upto(n))[key] == self.children@[i].view()[key],
        decreases n,
    {
        if n > 0 {
            self.lemma_lookup_upto(lo, hi, (n - 1) as nat, key, i);
            let c = self.children@[n - 1];
            let a = self.entries_upto((n - 1) as nat);
            let b = c.entries();
            let o = seq![(self.keys@[n - 1], self.values@[n - 1])];
            assert(self.entries_upto(n) == a + b + o);
            lemma_first_map_concat(a + b, o);
            lemma_first_map_concat(a, b);
            lemma_first_map_dom(b, key);
            lemma_first_map_dom(o, key);
            assert(keys_of(o) =~= seq![self.keys@[n - 1]]);
            c.lemma_entries_in_range(self.child_lo(n - 1, lo), self.child_hi(n - 1, hi));
            if n - 1 < i {
                // the child's keys are below own key n-1 < key
                if keys_of(b).contains(key) {
                    let e = choose|e: int| 0 <= e < keys_of(b).len() && keys_of(b)[e] == key;
                    assert(in_range(b[e].0, self.child_lo(n - 1, lo), self.child_hi(n - 1, hi)));
                }
                assert(!keys_of(o).contains(key));
            } else if n - 1 == i {
                if self.keys@[i] == key {
                    if keys_of(b).contains(key) {
                        let e = choose|e: int| 0 <= e < keys_of(b).len() && keys_of(b)[e] == key;
                        assert(in_range(b[e].0, self.child_lo(n - 1, lo), self.child_hi(n - 1, hi)));
                    }
                } else {
                }
            } else {
                // own key n-1 and child n-1 lie above key
                if n - 1 > i {
                    assert(self.keys@[i] < self.keys@[n - 2] || i == n - 2);
                }
                if keys_of(b).contains(key) {
                    let e = choose|e: int| 0 <= e < keys_of(b).len() && keys_of(b)[e] == key;
                    assert(in_range(b[e].0, self.child_lo(n - 1, lo), self.child_hi(n - 1, hi)));
                    assert(self.keys@[i] <= self.keys@[n - 2]);
                }
                assert(self.keys@[i] < self.keys@[n - 1]);
                assert(!keys_of(o).contains(key));
            }
        }
    }
}

proof fn lemma_first_map_at<V>(s: Seq<(i64, V)>, j: int)
    requires
        0 <= j < s.len(),
        forall|k: int| 0 <= k < j ==> s[k].0 != s[j].0,
    ensures
        first_map(s).contains_key(s[j].0),
        first_map(s)[s[j].0] == s[j].1,
    decreases s.len(),
{
    if j > 0 {
        lemma_first_map_at(s.drop_first(), j - 1);
        assert(s.drop_first()[j - 1] == s[j]);
    }
}

proof fn lemma_keys_of_concat<V>(a: Seq<(i64, V)>, b: Seq<(i64, V)>)
    ensures
        keys_of(a + b) == keys_of(a) + keys_of(b),
{
    assert(keys_of(a + b) =~= keys_of(a) + keys_of(b));
}

impl<V> Node<V> {
    /// What the view holds for `key`, given that exactly `i` own keys lie
    /// below it.
    proof fn lemma_lookup(self, lo: Option<i64>, hi: Option<i64>, key: i64, i: int)
        requires
            self.wf(lo, hi),
            0 <= i <= self.keys@.len(),
            forall|j: int| 0 <= j < i ==> self.keys@[j] < key,
            i == self.keys@.len() || key <= self.keys@[i],
        ensures
            i < self.keys@.len() && self.keys@[i] == key ==> self.view().contains_key(key)
                && self.view()[key] == self.values@[i],
            !(i < self.keys@.len() && self.keys@[i] == key) && self.leaf ==> !self.view().contains_key(key),
            !(i < self.keys@.len() && self.keys@[i] == key) && !self.leaf ==> (self.view().contains_key(key)
                <==> self.children@[i].view().contains_key(key)),
            !(i < self.keys@.len() && self.keys@[i] == key) && !self.leaf && self.children@[i].view().contains_key(key)
                ==> self.view()[key] == self.children@[i].view()[key],
    {
        let n = self.keys@.len();
        if self.leaf {
            let s = self.entries();
            lemma_first_map_dom(s, key);
            if i < n && self.keys@[i] == key {
                assert(s[i].0 == key);
                lemma_first_map_at(s, i);
            } else if keys_of(s).contains(key) {
                let e = choose|e: int| 0 <= e < keys_of(s).len() && keys_of(s)[e] == key;
                assert(s[e].0 == self.keys@[e]);
                if e < i {
                } else {
                    assert(self.keys@[i] <= self.keys@[e]);
                }
            }
        } else {
            self.lemma_lookup_upto(lo, hi, n, key, i);
            let a = self.entries_upto(n);
            let c = self.children@[n as int];
            let b = c.entries();
            assert(self.entries() == a + b);
            lemma_first_map_concat(a, b);
            if i < n {
                lemma_first_map_dom(b, key);
                c.lemma_entries_in_range(self.child_lo(n as int, lo), self.child_hi(n as int, hi));
                if keys_of(b).contains(key) && self.keys@[i] != key {
                    let e = choose|e: int| 0 <= e < keys_of(b).len() && keys_of(b)[e] == key;
                    assert(in_range(b[e].0, self.child_lo(n as int, lo), self.child_hi(n as int, hi)));
                    assert(self.keys@[i] <= self.keys@[n - 1]);
                    assert(false);
                }
            }
        }
    }

    pub fn new(leaf: bool) -> (node: Self)
        ensures
            node.is_leaf() == leaf,
            node.key_seq() == Seq::<i64>::empty(),
            node.value_seq() == Seq::<V>::empty(),
            node.child_count() == 0,
            leaf ==> node.well_formed(),
            leaf ==> node.view() == Map::<i64, V>::empty(),
    {
        let node = Node { leaf, keys: Vec::new(), values: Vec::new(), children: Vec::new() };
        proof {
            if leaf {
                assert(node.entries() =~= Seq::<(i64, V)>::empty());
            }
        }
        node
    }

    /// Looks up `key` in the subtree rooted here.
    pub fn search(&self, key: i64) -> (r: Option<&V>)
        requires
            self.well_formed(),
        ensures
            match r {
                Some(v) => self.view().contains_key(key) && *v == self.view()[key],
                None => !self.view().contains_key(key),
            },
        decreases self,
    {
        let mut i: usize = 0;
        while i < self.keys.len() && key > self.keys[i]
            invariant
                0 <= i <= self.keys@.len(),
                forall|j: int| 0 <= j < i ==> self.keys@[j] < key,
            decreases self.keys@.len() - i,
        {
            i += 1;
        }
        proof {
            self.lemma_lookup(None, None, key, i as int);
        }
        if i < self.keys.len() && key == self.keys[i] {
            return Some(&self.values[i]);
        }
        if self.leaf {
            None
        } else {
            proof {
                self.children@[i as int].lemma_wf_loosen(
                    self.child_lo(i as int, None),
                    self.child_hi(i as int, None),
                    None,
                    None,
                );
            }
            self.children[i].search(key)
        }
    }

    /// Appends the keys of the subtree, in order, to `out`.
    pub fn keys_in_order(&self, out: &mut Vec<i64>)
        requires
            self.well_formed(),
        ensures
            final(out)@ == old(out)@ + self.in_order_keys(),
        decreases self,
    {
        if self.leaf {
            let mut i: usize = 0;
            while i < self.keys.len()
                invariant
                    0 <= i <= self.keys@.len(),
                    self.leaf,
                    self.keys@.len() == self.values@.len(),
                    out@ == old(out)@ + self.keys@.subrange(0, i as int),
                decreases self.keys@.len() - i,
            {
                out.push(self.keys[i]);
                i += 1;
                assert(self.keys@.subrange(0, i as int) =~= self.keys@.subrange(0, i - 1).push(self.keys@[i - 1]));
            }
            assert(self.keys@.subrange(0, i as int) =~= self.in_order_keys());
        } else {
            let mut i: usize = 0;
            while i < self.keys.len()
                invariant
                    0 <= i <= self.keys@.len(),
                    !self.leaf,
                    self.well_formed(),
                    self.children@.len() == self.keys@.len() + 1,
                    out@ == old(out)@ + keys_of(self.entries_upto(i as nat)),
                decreases self.keys@.len() - i,
            {
                proof {
                    self.children@[i as int].lemma_wf_loosen(
                        self.child_lo(i as int, None),
                        self.child_hi(i as int, None),
                        None,
                        None,
                    );
                }
                self.children[i].keys_in_order(out);
                out.push(self.keys[i]);
                i += 1;
                proof {
                    let a = self.entries_upto((i - 1) as nat);
                    let b = self.children@[i - 1].entries();
                    let o = seq![(self.keys@[i - 1], self.values@[i - 1])];
                    assert(self.entries_upto(i as nat) == a + b + o);
                    lemma_keys_of_concat(a + b, o);
                    lemma_keys_of_concat(a, b);
                    assert(keys_of(o) =~= seq![self.keys@[i - 1]]);
                }
            }
            let last = self.children.len() - 1;
            proof {
                self.children@[last as int].lemma_wf_loosen(
                    self.child_lo(last as int, None),
                    self.child_hi(last as int, None),
                    None,
                    None,
                );
            }
            self.children[last].keys_in_order(out);
            proof {
                lemma_keys_of_concat(self.entries_upto(i as nat), self.children@[last as int].entries());
            }
        }
    }
}

/// `out` holds the entries of `s` in order, each value a clone of the one
/// stored.
pub open spec fn cloned_entries<V: Clone>(out: Seq<(i64, V)>, s: Seq<(i64, V)>) -> bool {
    &&& out.len() == s.len()
    &&& forall|i: int| 0 <= i < s.len() ==> (#[trigger] out[i]).0 == s[i].0 && cloned(s[i].1, out[i].1)
}

impl<V: Clone> Node<V> {
    /// Appends the (key, value) entries of the subtree, in order, to `out`,
    /// each value cloned.
    pub fn entries_in_order(&self, out: &mut Vec<(i64, V)>)
        requires
            self.well_formed(),
        ensures
            final(out)@.subrange(0, old(out)@.len() as int) == old(out)@,
            final(out)@.len() >= old(out)@.len(),
            cloned_entries(final(out)@.subrange(old(out)@.len() as int, final(out)@.len() as int), self.contents()),
        decreases self,
    {
        let ghost o0 = out@;
        if self.leaf {
            let mut i: usize = 0;
            while i < self.keys.len()
                invariant
                    0 <= i <= self.keys@.len(),
                    self.leaf,
                    self.keys@.len() == self.values@.len(),
                    out@.len() == o0.len() + i,
                    out@.subrange(0, o0.len() as int) == o0,
                    forall|j: int| 0 <= j < i ==> (#[trigger] out@[o0.len() + j]).0 == self.keys@[j]
                        && cloned(self.values@[j], out@[o0.len() + j].1),
                decreases self.keys@.len() - i,
            {
                let v = self.values[i].clone();
                out.push((self.keys[i], v));
                i += 1;
                assert(out@.subrange(0, o0.len() as int) =~= o0);
            }
            proof {
                let tail = out@.subrange(o0.len() as int, out@.len() as int);
                assert forall|j: int| 0 <= j < self.entries().len() implies (#[trigger] tail[j]).0 == self.entries()[j].0
                    && cloned(self.entries()[j].1, tail[j].1) by {
                    assert(tail[j] == out@[o0.len() + j]);
                }
            }
        } else {
            let mut i: usize = 0;
            while i < self.keys.len()
                invariant
                    0 <= i <= self.keys@.len(),
                    !self.leaf,
                    self.well_formed(),
                    self.children@.len() == self.keys@.len() + 1,
                    self.keys@.len() == self.values@.len(),
                    out@.len() >= o0.len(),
                    out@.subrange(0, o0.len() as int) == o0,
                    cloned_entries(out@.subrange(o0.len() as int, out@.len() as int), self.entries_upto(i as nat)),
                decreases self.keys@.len() - i,
            {
                proof {
                    self.children@[i as int].lemma_wf_loosen(
                        self.child_lo(i as int, None),
                        self.child_hi(i as int, None),
                        None,
                        None,
                    );
                }
                let ghost o1 = out@;
                self.children[i].entries_in_order(out);
                let ghost o2 = out@;
                let v = self.values[i].clone();
                out.push((self.keys[i], v));
                i += 1;
                proof {
                    let a = self.entries_upto((i - 1) as nat);
                    let b = self.children@[i - 1].entries();
                    let o = seq![(self.keys@[i - 1], self.values@[i - 1])];
                    assert(self.entries_upto(i as nat) == a + b + o);
                    assert(o2.subrange(0, o1.len() as int) == o1);
                    assert(out@.subrange(0, o0.len() as int) =~= o0) by {
                        assert forall|j: int| 0 <= j < o0.len() implies out@[j] == o0[j] by {
                            assert(out@[j] == o2[j]);
                            assert(o2[j] == o1.subrange(0, o1.len() as int)[j]);
                            assert(o1[j] == o1.subrange(0, o0.len() as int)[j]);
                        }
                    }
                    let tail = out@.subrange(o0.len() as int, out@.len() as int);
                    let t1 = o1.subrange(o0.len() as int, o1.len() as int);
                    let t2 = o2.subrange(o1.len() as int, o2.len() as int);
                    assert forall|j: int| 0 <= j < (a + b + o).len() implies (#[trigger] tail[j]).0 == (a + b + o)[j].0
                        && cloned((a + b + o)[j].1, tail[j].1) by {
                        if j < a.len() {
                            assert(tail[j] == out@[o0.len() + j]);
                            assert(out@[o0.len() + j] == o2[o0.len() + j]);
                            assert(o2[o0.len() + j] == o1[o0.len() + j]) by {
                                assert(o2.subrange(0, o1.len() as int)[o0.len() + j] == o1[o0.len() + j]);
                            }
                            assert(t1[j] == o1[o0.len() + j]);
                        } else if j < a.len() + b.len() {
                            assert(tail[j] == o2[o1.len() + (j - a.len())]);
                            assert(t2[j - a.len()] == o2[o1.len() + (j - a.len())]);
                        } else {
                            assert(tail[j] == out@[out@.len() - 1]);
                        }
                    }
                }
            }
            let last = self.children.len() - 1;
            proof {
                self.children@[last as int].lemma_wf_loosen(
                    self.child_lo(last as int, None),
                    self.child_hi(last as int, None),
                    None,
                    None,
                );
            }
            let ghost o1 = out@;
            self.children[last].entries_in_order(out);
            proof {
                let a = self.entries_upto(i as nat);
                let b = self.children@[last as int].entries();
                assert(self.entries() == a + b);
                let o2 = out@;
                assert(out@.subrange(0, o0.len() as int) =~= o0) by {
                    assert forall|j: int| 0 <= j < o0.len() implies out@[j] == o0[j] by {
                        assert(o2.subrange(0, o1.len() as int)[j] == o1[j]);
                        assert(o1.subrange(0, o0.len() as int)[j] == o1[j]);
                    }
                }
                let tail = out@.subrange(o0.len() as int, out@.len() as int);
                let t1 = o1.subrange(o0.len() as int, o1.len() as int);
                let t2 = o2.subrange(o1.len() as int, o2.len() as int);
                assert forall|j: int| 0 <= j < (a + b).len() implies (#[trigger] tail[j]).0 == (a + b)[j].0
                    && cloned((a + b)[j].1, tail[j].1) by {
                    if j < a.len() {
                        assert(o2.subrange(0, o1.len() as int)[o0.len() + j] == o1[o0.len() + j]);
                        assert(t1[j] == o1[o0.len() + j]);
                    } else {
                        assert(t2[j - a.len()] == o2[o1.len() + (j - a.len())]);
                    }
                }
            }
        }
    }
}

impl<V> Node<V> {
    proof fn lemma_upto_congr(a: Node<V>, b: Node<V>, n: nat)
        requires
            n <= a.keys@.len(),
            n <= b.keys@.len(),
            n <= a.children@.len(),
            n <= b.children@.len(),
            n <= a.values@.len(),
            n <= b.values@.len(),
            a.keys@.subrange(0, n as int) == b.keys@.subrange(0, n as int),
            a.values@.subrange(0, n as int) == b.values@.subrange(0, n as int),
            a.children@.subrange(0, n as int) == b.children@.subrange(0, n as int),
        ensures
            a.entries_upto(n) == b.entries_upto(n),
        decreases n,
    {
        if n > 0 {
            assert(a.keys@.subrange(0, n - 1) == a.keys@.subrange(0, n as int).subrange(0, n - 1));
            assert(b.keys@.subrange(0, n - 1) == b.keys@.subrange(0, n as int).subrange(0, n - 1));
            assert(a.values@.subrange(0, n - 1) == a.values@.subrange(0, n as int).subrange(0, n - 1));
            assert(b.values@.subrange(0, n - 1) == b.values@.subrange(0, n as int).subrange(0, n - 1));
            assert(a.children@.subrange(0, n - 1) == a.children@.subrange(0, n as int).subrange(0, n - 1));
            assert(b.children@.subrange(0, n - 1) == b.children@.subrange(0, n as int).subrange(0, n - 1));
            Self::lemma_upto_congr(a, b, (n - 1) as nat);
            assert(a.keys@[n - 1] == a.keys@.subrange(0, n as int)[n - 1]);
            assert(b.keys@[n - 1] == b.keys@.subrange(0, n as int)[n - 1]);
            assert(a.values@[n - 1] == a.values@.subrange(0, n as int)[n - 1]);
            assert(b.values@[n - 1] == b.values@.subrange(0, n as int)[n - 1]);
            assert(a.children@[n - 1] == a.children@.subrange(0, n as int)[n - 1]);
            assert(b.children@[n - 1] == b.children@.subrange(0, n as int)[n - 1]);
        }
    }

    /// For a node `z` made of the keys, values and children of `c` from
    /// position `p` on, `c`'s in-order prefix continues with `z`'s.
    proof fn lemma_upto_shift(c: Node<V>, z: Node<V>, p: nat, j: nat)
        requires
            p <= c.keys@.len(),
            c.keys@.len() == c.values@.len(),
            c.children@.len() == c.keys@.len() + 1,
            z.keys@ == c.keys@.subrange(p as int, c.keys@.len() as int),
            z.values@ == c.values@.subrange(p as int, c.values@.len() as int),
            z.children@ == c.children@.subrange(p as int, c.children@.len() as int),
            j <= z.keys@.len(),
        ensures
            c.entries_upto(p + j) == c.entries_upto(p) + z.entries_upto(j),
        decreases j,
    {
        if j == 0 {
            assert(c.entries_upto(p) + z.entries_upto(0) =~= c.entries_upto(p));
        } else {
            Self::lemma_upto_shift(c, z, p, (j - 1) as nat);
            assert(z.keys@[j - 1] == c.keys@[p + j - 1]);
            assert(z.values@[j - 1] == c.values@[p + j - 1]);
            assert(z.children@[j - 1] == c.children@[p + j - 1]);
            assert(c.entries_upto(p + j) =~= c.entries_upto(p) + z.entries_upto(j));
        }
    }

    /// Splitting a node `c` at key position `q` into `y` (before), the entry
    /// at `q`, and `z` (after) keeps its in-order entries, and both halves are
    /// well formed in the ranges the split key separates.
    proof fn lemma_split_parts(c: Node<V>, y: Node<V>, z: Node<V>, q: nat, lo: Option<i64>, hi: Option<i64>)
        requires
            c.wf(lo, hi),
            q < c.keys@.len(),
            y.leaf == c.leaf,
            z.leaf == c.leaf,
            y.keys@ == c.keys@.subrange(0, q as int),
            y.values@ == c.values@.subrange(0, q as int),
            z.keys@ == c.keys@.subrange(q + 1int, c.keys@.len() as int),
            z.values@ == c.values@.subrange(q + 1int, c.values@.len() as int),
            c.leaf ==> y.children@.len() == 0 && z.children@.len() == 0,
            !c.leaf ==> y.children@ == c.children@.subrange(0, q + 1int),
            !c.leaf ==> z.children@ == c.children@.subrange(q + 1int, c.children@.len() as int),
        ensures
            c.entries() == y.entries() + seq![(c.keys@[q as int], c.values@[q as int])] + z.entries(),
            y.wf(lo, Some(c.keys@[q as int])),
            z.wf(Some(c.keys@[q as int]), hi),
    {
        let m = c.keys@.len();
        let mid = (c.keys@[q as int], c.values@[q as int]);
        if c.leaf {
            assert(c.entries() =~= y.entries() + seq![mid] + z.entries());
        } else {
            assert(y.keys@.subrange(0, q as int) =~= c.keys@.subrange(0, q as int));
            assert(y.values@.subrange(0, q as int) =~= c.values@.subrange(0, q as int));
            assert(y.children@.subrange(0, q as int) =~= c.children@.subrange(0, q as int));
            Self::lemma_upto_congr(y, c, q);
            let p = q + 1;
            Self::lemma_upto_shift(c, z, p, (m - p) as nat);
            assert(y.children@[q as int] == c.children@[q as int]);
            assert(z.children@[(m - p) as int] == c.children@[m as int]);
            assert(c.entries_upto(p) == c.entries_upto(q) + c.children@[q as int].entries() + seq![mid]);
            assert(y.entries() == y.entries_upto(q) + y.children@[q as int].entries());
            assert(z.entries() == z.entries_upto((m - p) as nat) + z.children@[(m - p) as int].entries());
            assert(c.entries() =~= y.entries() + seq![mid] + z.entries());
            assert forall|j: int| 0 <= j < y.children@.len() implies (#[trigger] y.children@[j]).wf(
                y.child_lo(j, lo),
                y.child_hi(j, Some(c.keys@[q as int])),
            ) by {
                assert(y.children@[j] == c.children@[j]);
                assert(c.children@[j].wf(c.child_lo(j, lo), c.child_hi(j, hi)));
            }
            assert forall|j: int| 0 <= j < z.children@.len() implies (#[trigger] z.children@[j]).wf(
                z.child_lo(j, Some(c.keys@[q as int])),
                z.child_hi(j, hi),
            ) by {
                assert(z.children@[j] == c.children@[p + j]);
                assert(c.children@[p + j].wf(c.child_lo(p + j, lo), c.child_hi(p + j, hi)));
            }
        }
        assert forall|j: int| 0 <= j < y.keys@.len() implies in_range(#[trigger] y.keys@[j], lo, Some(c.keys@[q as int])) by {
            assert(y.keys@[j] == c.keys@[j]);
        }
        assert forall|j: int| 0 <= j < z.keys@.len() implies in_range(#[trigger] z.keys@[j], Some(c.keys@[q as int]), hi) by {
            assert(z.keys@[j] == c.keys@[q + 1 + j]);
        }
    }
}

/// `p2` is `p` with child `i` split into `y`, the entry `(mk, mv)` and `z`.
spec fn split_at_child<V>(p: Node<V>, p2: Node<V>, i: int, y: Node<V>, z: Node<V>, mk: i64, mv: V) -> bool {
    &&& !p.leaf
    &&& !p2.leaf
    &&& 0 <= i < p.children@.len()
    &&& p.children@.len() == p.keys@.len() + 1
    &&& p.keys@.len() == p.values@.len()
    &&& p2.keys@ == p.keys@.insert(i, mk)
    &&& p2.values@ == p.values@.insert(i, mv)
    &&& p2.children@.len() == p.children@.len() + 1
    &&& forall|j: int| 0 <= j < i ==> p2.children@[j] == p.children@[j]
    &&& *p2.children@[i] == y
    &&& *p2.children@[i + 1] == z
    &&& forall|j: int| i + 1 < j < p2.children@.len() ==> p2.children@[j] == p.children@[j - 1]
}

impl<V> Node<V> {
    proof fn lemma_split_upto_after(p: Node<V>, p2: Node<V>, i: int, y: Node<V>, z: Node<V>, mk: i64, mv: V, n: nat)
        requires
            split_at_child(p, p2, i, y, z, mk, mv),
            p.children@[i].entries() == y.entries() + seq![(mk, mv)] + z.entries(),
            i < n <= p.keys@.len(),
        ensures
            p2.entries_upto(n + 1) == p.entries_upto(n),
        decreases n,
    {
        if n == i + 1 {
            assert(p2.keys@.subrange(0, i) =~= p.keys@.subrange(0, i));
            assert(p2.values@.subrange(0, i) =~= p.values@.subrange(0, i));
            assert(p2.children@.subrange(0, i) =~= p.children@.subrange(0, i));
            Self::lemma_upto_congr(p2, p, i as nat);
            assert(p2.keys@[i] == mk);
            assert(p2.values@[i] == mv);
            assert(p2.keys@[i + 1] == p.keys@[i]);
            assert(p2.values@[i + 1] == p.values@[i]);
            assert(p2.entries_upto((i + 1) as nat) == p2.entries_upto(i as nat) + y.entries() + seq![(mk, mv)]);
            assert(p2.entries_upto((i + 2) as nat) == p2.entries_upto((i + 1) as nat) + z.entries() + seq![(p.keys@[i], p.values@[i])]);
            assert(p.entries_upto((i + 1) as nat) == p.entries_upto(i as nat) + p.children@[i].entries() + seq![(p.keys@[i], p.values@[i])]);
            assert(p2.entries_upto(n + 1) =~= p.entries_upto(n));
        } else {
            Self::lemma_split_upto_after(p, p2, i, y, z, mk, mv, (n - 1) as nat);
            assert(p2.keys@[n as int] == p.keys@[n - 1]);
            assert(p2.values@[n as int] == p.values@[n - 1]);
            assert(p2.children@[n as int] == p.children@[n - 1]);
        }
    }

    /// Splitting a child keeps the parent's in-order entries and its
    /// well-formedness.
    proof fn lemma_split_parent(p: Node<V>, p2: Node<V>, i: int, y: Node<V>, z: Node<V>, mk: i64, mv: V, lo: Option<i64>, hi: Option<i64>)
        requires
            split_at_child(p, p2, i, y, z, mk, mv),
            p.wf(lo, hi),
            p.children@[i].entries() == y.entries() + seq![(mk, mv)] + z.entries(),
            y.wf(p.child_lo(i, lo), Some(mk)),
            z.wf(Some(mk), p.child_hi(i, hi)),
            in_range(mk, p.child_lo(i, lo), p.child_hi(i, hi)),
        ensures
            p2.entries() == p.entries(),
            (p.child_lo(i, lo) matches Some(l) ==> l < mk) ==> p2.wf(lo, hi),
    {
        let len = p.keys@.len();
        let mid = (mk, mv);
        if i < len {
            Self::lemma_split_upto_after(p, p2, i, y, z, mk, mv, len);
            assert(p2.children@[len + 1int] == p.children@[len as int]);
            assert(p2.entries() == p2.entries_upto(len + 1) + p2.children@[len + 1int].entries());
        } else {
            assert(p2.keys@.subrange(0, i) =~= p.keys@.subrange(0, i));
            assert(p2.values@.subrange(0, i) =~= p.values@.subrange(0, i));
            assert(p2.children@.subrange(0, i) =~= p.children@.subrange(0, i));
            Self::lemma_upto_congr(p2, p, i as nat);
            assert(p2.keys@[i] == mk);
            assert(p2.values@[i] == mv);
            assert(p2.entries_upto((i + 1) as nat) == p2.entries_upto(i as nat) + y.entries() + seq![mid]);
            assert(p2.entries() == p2.entries_upto(len + 1) + z.entries());
            assert(p.entries() == p.entries_upto(len) + p.children@[i].entries());
            assert(p2.entries() =~= p.entries());
        }
        if p.child_lo(i, lo) matches Some(l) ==> l < mk {
            Self::lemma_split_parent_wf(p, p2, i, y, z, mk, mv, lo, hi);
        }
    }

    proof fn lemma_split_parent_wf(p: Node<V>, p2: Node<V>, i: int, y: Node<V>, z: Node<V>, mk: i64, mv: V, lo: Option<i64>, hi: Option<i64>)
        requires
            split_at_child(p, p2, i, y, z, mk, mv),
            p.wf(lo, hi),
            y.wf(p.child_lo(i, lo), Some(mk)),
            z.wf(Some(mk), p.child_hi(i, hi)),
            in_range(mk, p.child_lo(i, lo), p.child_hi(i, hi)),
            p.child_lo(i, lo) matches Some(l) ==> l < mk,
        ensures
            p2.wf(lo, hi),
    {
        let len = p.keys@.len();
        assert forall|a: int, b: int| 0 <= a < b < p2.keys@.len() implies p2.keys@[a] < p2.keys@[b] by {
            if i > 0 {
                assert(p.keys@[0] <= p.keys@[i - 1]);
            }
            if a < i && b == i {
                assert(p.keys@[a] <= p.keys@[i - 1]);
            }
            if a == i && b > i {
                assert(p.keys@[i] <= p.keys@[b - 1]);
            }
        }
        assert forall|a: int| 0 <= a < p2.keys@.len() implies in_range(#[trigger] p2.keys@[a], lo, hi) by {
            if a == i {
                if i > 0 {
                    assert(in_range(p.keys@[i - 1], lo, hi));
                }
                if i < len {
                    assert(in_range(p.keys@[i], lo, hi));
                }
            } else if a < i {
                assert(p2.keys@[a] == p.keys@[a]);
            } else {
                assert(p2.keys@[a] == p.keys@[a - 1]);
            }
        }
        assert forall|j: int| 0 <= j < p2.children@.len() implies (#[trigger] p2.children@[j]).wf(
            p2.child_lo(j, lo),
            p2.child_hi(j, hi),
        ) by {
            if j < i {
                assert(p.children@[j].wf(p.child_lo(j, lo), p.child_hi(j, hi)));
            } else if j == i {
            } else if j == i + 1 {
            } else {
                assert(p.children@[j - 1].wf(p.child_lo(j - 1, lo), p.child_hi(j - 1, hi)));
            }
        }
    }
}

proof fn lemma_contains_concat<V>(a: Seq<(i64, V)>, b: Seq<(i64, V)>, x: i64)
    ensures
        keys_of(a + b).contains(x) <==> keys_of(a).contains(x) || keys_of(b).contains(x),
{
    lemma_keys_of_concat(a, b);
    let ka = keys_of(a);
    let kb = keys_of(b);
    if ka.contains(x) {
        let e = choose|e: int| 0 <= e < ka.len() && ka[e] == x;
        assert((ka + kb)[e] == x);
    }
    if kb.contains(x) {
        let e = choose|e: int| 0 <= e < kb.len() && kb[e] == x;
        assert((ka + kb)[ka.len() + e] == x);
    }
    if (ka + kb).contains(x) {
        let e = choose|e: int| 0 <= e < (ka + kb).len() && (ka + kb)[e] == x;
        if e < ka.len() {
            assert(ka[e] == x);
        } else {
            assert(kb[e - ka.len()] == x);
        }
    }
}

impl<V> Node<V> {
    /// Own keys and the keys of every child occur among the node's entries.
    proof fn lemma_parts_in_entries(self)
        requires
            !self.leaf,
            self.children@.len() == self.keys@.len() + 1,
        ensures
            forall|j: int| 0 <= j < self.keys@.len() ==> keys_of(self.entries()).contains(#[trigger] self.keys@[j]),
            forall|j: int, x: i64|
                0 <= j < self.children@.len() && #[trigger] keys_of(self.children@[j].entries()).contains(x)
                    ==> keys_of(self.entries()).contains(x),
    {
        let n = self.keys@.len();
        assert(self.entries() == self.entries_upto(n) + self.children@[n as int].entries());
        assert forall|j: int| 0 <= j < self.keys@.len() implies keys_of(self.entries()).contains(#[trigger] self.keys@[j]) by {
            self.lemma_upto_contains(n, j);
            lemma_contains_concat(self.entries_upto(n), self.children@[n as int].entries(), self.keys@[j]);
        }
        assert forall|j: int, x: i64|
            0 <= j < self.children@.len() && #[trigger] keys_of(self.children@[j].entries()).contains(x)
                implies keys_of(self.entries()).contains(x) by {
            lemma_contains_concat(self.entries_upto(n), self.children@[n as int].entries(), x);
            if j < n {
                self.lemma_upto_contains(n, j);
            }
        }
    }

    proof fn lemma_upto_contains(self, n: nat, j: int)
        requires
            !self.leaf,
            self.children@.len() == self.keys@.len() + 1,
            0 <= j < n <= self.keys@.len(),
        ensures
            keys_of(self.entries_upto(n)).contains(self.keys@[j]),
            forall|x: i64| keys_of(self.children@[j].entries()).contains(x) ==> keys_of(self.entries_upto(n)).contains(x),
        decreases n,
    {
        let a = self.entries_upto((n - 1) as nat);
        let b = self.children@[n - 1].entries();
        let o = seq![(self.keys@[n - 1], self.values@[n - 1])];
        assert(self.entries_upto(n) == a + b + o);
        assert(keys_of(o) =~= seq![self.keys@[n - 1]]);
        assert(keys_of(o)[0] == self.keys@[n - 1]);
        if j < n - 1 {
            self.lemma_upto_contains((n - 1) as nat, j);
        }
        lemma_contains_concat(a + b, o, self.keys@[j]);
        lemma_contains_concat(a, b, self.keys@[j]);
        assert forall|x: i64| keys_of(self.children@[j].entries()).contains(x) implies keys_of(self.entries_upto(n)).contains(x) by {
            lemma_contains_concat(a + b, o, x);
            lemma_contains_concat(a, b, x);
        }
    }

    /// A well-formed node whose keys all lie in `[lo, hi)` is well formed
    /// with those bounds.
    proof fn lemma_wf_tighten(self, lo1: Option<i64>, hi1: Option<i64>, lo: Option<i64>, hi: Option<i64>)
        requires
            self.wf(lo1, hi1),
            forall|x: i64| keys_of(self.entries()).contains(x) ==> in_range(x, lo, hi),
        ensures
            self.wf(lo, hi),
        decreases self,
    {
        if self.leaf {
            assert forall|a: int| 0 <= a < self.keys@.len() implies in_range(#[trigger] self.keys@[a], lo, hi) by {
                assert(keys_of(self.entries())[a] == self.keys@[a]);
            }
        } else {
            self.lemma_parts_in_entries();
            assert forall|j: int| 0 <= j < self.children@.len() implies (#[trigger] self.children@[j]).wf(
                self.child_lo(j, lo),
                self.child_hi(j, hi),
            ) by {
                let c = self.children@[j];
                c.lemma_entries_in_range(self.child_lo(j, lo1), self.child_hi(j, hi1));
                assert forall|x: i64| keys_of(c.entries()).contains(x) implies in_range(x, self.child_lo(j, lo), self.child_hi(j, hi)) by {
                    let e = choose|e: int| 0 <= e < keys_of(c.entries()).len() && keys_of(c.entries())[e] == x;
                    assert(keys_of(c.entries())[e] == c.entries()[e].0);
                    assert(in_range(c.entries()[e].0, self.child_lo(j, lo1), self.child_hi(j, hi1)));
                    assert(keys_of(self.children@[j].entries()).contains(x));
                    assert(keys_of(self.entries()).contains(x));
                    assert(in_range(x, lo, hi));
                }
                c.lemma_wf_tighten(self.child_lo(j, lo1), self.child_hi(j, hi1), self.child_lo(j, lo), self.child_hi(j, hi));
            }
        }
    }
}

impl<V> Node<V> {
    /// Splits child `i`, whose last `t - 1` keys (and last `t` children)
    /// move to a new sibling placed at `i + 1`, and whose key before them
    /// moves up into this node at position `i`.
    pub fn split_child(&mut self, i: usize, t: usize)
        requires
            old(self).well_formed(),
            !old(self).is_leaf(),
            i < old(self).child_count(),
            1 <= t <= old(self).child(i as int).key_seq().len(),
        ensures
            final(self).contents() == old(self).contents(),
            final(self).view() == old(self).view(),
            final(self).in_order_keys() == old(self).in_order_keys(),
            !final(self).is_leaf(),
            final(self).child_count() == old(self).child_count() + 1,
            final(self).key_seq() == old(self).key_seq().insert(
                i as int,
                old(self).child(i as int).key_seq()[old(self).child(i as int).key_seq().len() - t],
            ),
            final(self).child(i as int).key_seq() == old(self).child(i as int).key_seq().subrange(
                0,
                old(self).child(i as int).key_seq().len() - t,
            ),
            final(self).child(i as int + 1).key_seq() == old(self).child(i as int).key_seq().subrange(
                old(self).child(i as int).key_seq().len() - t + 1,
                old(self).child(i as int).key_seq().len() as int,
            ),
            final(self).child(i as int).is_leaf() == old(self).child(i as int).is_leaf(),
            old(self).child(i as int).is_leaf() ==> final(self).child(i as int).child_seq().len() == 0
                && final(self).child(i as int + 1).child_seq().len() == 0,
            final(self).child(i as int + 1).is_leaf() == old(self).child(i as int).is_leaf(),
            !old(self).child(i as int).is_leaf() ==> final(self).child(i as int).child_seq()
                == old(self).child(i as int).child_seq().subrange(0, old(self).child(i as int).key_seq().len() - t + 1),
            !old(self).child(i as int).is_leaf() ==> final(self).child(i as int + 1).child_seq()
                == old(self).child(i as int).child_seq().subrange(
                old(self).child(i as int).key_seq().len() - t + 1,
                old(self).child(i as int).child_seq().len() as int,
            ),
            t < old(self).child(i as int).key_seq().len() ==> final(self).well_formed(),
    {
        let nchildren = self.children.len();
        let ghost p = *self;
        let ghost c = *self.children@[i as int];
        let ghost clo = p.child_lo(i as int, None);
        let ghost chi = p.child_hi(i as int, None);
        proof {
            assert(c.wf(clo, chi));
        }
        let mut y = self.children.remove(i);
        let mut z = Box::new(Node::new(y.leaf));
        let ghost m = c.keys@.len();
        let mut r: usize = 0;
        while r < t - 1
            invariant
                1 <= t <= m,
                m == c.keys@.len(),
                c.keys@.len() == c.values@.len(),
                0 <= r <= t - 1,
                y.leaf == c.leaf,
                z.leaf == c.leaf,
                y.children@ == c.children@,
                z.children@.len() == 0,
                y.keys@ == c.keys@.subrange(0, m - r),
                y.values@ == c.values@.subrange(0, m - r),
                z.keys@ == c.keys@.subrange(m - r, m as int),
                z.values@ == c.values@.subrange(m - r, m as int),
            decreases t - 1 - r,
        {
            let kk = y.keys.pop().unwrap();
            z.keys.insert(0, kk);
            let vv = y.values.pop().unwrap();
            z.values.insert(0, vv);
            r += 1;
            proof {
                assert(y.keys@ =~= c.keys@.subrange(0, m - r));
                assert(y.values@ =~= c.values@.subrange(0, m - r));
                assert(z.keys@ =~= c.keys@.subrange(m - r, m as int));
                assert(z.values@ =~= c.values@.subrange(m - r, m as int));
            }
        }
        if !y.leaf {
            let mut r: usize = 0;
            while r < t
                invariant
                    1 <= t <= m,
                    m == c.keys@.len(),
                    !c.leaf,
                    c.children@.len() == m + 1,
                    0 <= r <= t,
                    c.keys@.len() == c.values@.len(),
                    y.leaf == c.leaf,
                    z.leaf == c.leaf,
                    y.keys@ == c.keys@.subrange(0, m - (t - 1)),
                    y.values@ == c.values@.subrange(0, m - (t - 1)),
                    z.keys@ == c.keys@.subrange(m - (t - 1), m as int),
                    z.values@ == c.values@.subrange(m - (t - 1), m as int),
                    y.children@ == c.children@.subrange(0, m + 1 - r),
                    z.children@ == c.children@.subrange(m + 1 - r, m + 1int),
                decreases t - r,
            {
                let ch = y.children.pop().unwrap();
                z.children.insert(0, ch);
                r += 1;
                proof {
                    assert(y.children@ =~= c.children@.subrange(0, m + 1 - r));
                    assert(z.children@ =~= c.children@.subrange(m + 1 - r, m + 1int));
                }
            }
        }
        let mid_key = y.keys.pop().unwrap();
        let mid_val = y.values.pop().unwrap();
        proof {
            let q = (m - t) as nat;
            assert(y.keys@ =~= c.keys@.subrange(0, q as int));
            assert(y.values@ =~= c.values@.subrange(0, q as int));
            assert(z.keys@ =~= c.keys@.subrange(q + 1int, m as int));
            assert(z.values@ =~= c.values@.subrange(q + 1int, m as int));
            if c.leaf {
                assert(y.children@.len() == 0);
            }
            Self::lemma_split_parts(c, *y, *z, q, clo, chi);
        }
        self.keys.insert(i, mid_key);
        self.values.insert(i, mid_val);
        self.children.insert(i, y);
        assert(i < nchildren);
        self.children.insert(i + 1, z);
        proof {
            let p2 = *self;
            assert(split_at_child(p, p2, i as int, *y, *z, mid_key, mid_val));
            Self::lemma_split_parent(p, p2, i as int, *y, *z, mid_key, mid_val, None, None);
            if t < m {
                assert(c.keys@[0] < c.keys@[m - t]);
                assert(in_range(c.keys@[0], clo, chi));
            }
            assert(p2.child(i as int) == *y);
            assert(p2.child(i as int + 1) == *z);
            if !c.leaf {
                assert(y.children@ =~= c.children@.subrange(0, m - t + 1));
            }
        }
    }
}

proof fn lemma_count_le(s: Seq<i64>, k: i64, i: int)
    requires
        0 <= i <= s.len(),
        forall|j: int| 0 <= j < i ==> s[j] <= k,
        forall|j: int| i <= j < s.len() ==> k < s[j],
    ensures
        count_le(s, k) == i,
    decreases s.len(),
{
    if s.len() > 0 {
        if i == s.len() {
            lemma_count_le(s.drop_last(), k, i - 1);
        } else {
            lemma_count_le(s.drop_last(), k, i);
        }
    }
}

proof fn lemma_first_map_update<V>(s: Seq<(i64, V)>, j: int, v: V)
    requires
        0 <= j < s.len(),
        forall|l: int| 0 <= l < s.len() && l != j ==> s[l].0 != s[j].0,
    ensures
        first_map(s.update(j, (s[j].0, v))) == first_map(s).insert(s[j].0, v),
    decreases s.len(),
{
    let k = s[j].0;
    if j == 0 {
        assert(s.update(j, (k, v)).drop_first() =~= s.drop_first());
        assert(first_map(s.update(j, (k, v))) =~= first_map(s).insert(k, v));
    } else {
        lemma_first_map_update(s.drop_first(), j - 1, v);
        assert(s.update(j, (k, v)).drop_first() =~= s.drop_first().update(j - 1, (k, v)));
        assert(s[0].0 != k);
        assert(first_map(s.update(j, (k, v))) =~= first_map(s).insert(k, v));
    }
}

proof fn lemma_first_map_insert<V>(s: Seq<(i64, V)>, j: int, k: i64, v: V)
    requires
        0 <= j <= s.len(),
        !keys_of(s).contains(k),
    ensures
        first_map(s.insert(j, (k, v))) == first_map(s).insert(k, v),
    decreases s.len(),
{
    if j == 0 {
        assert(s.insert(j, (k, v)).drop_first() =~= s);
        assert(first_map(s.insert(j, (k, v))) =~= first_map(s).insert(k, v));
    } else {
        if keys_of(s.drop_first()).contains(k) {
            let e = choose|e: int| 0 <= e < keys_of(s.drop_first()).len() && keys_of(s.drop_first())[e] == k;
            assert(keys_of(s)[e + 1] == k);
        }
        lemma_first_map_insert(s.drop_first(), j - 1, k, v);
        assert(s.insert(j, (k, v)).drop_first() =~= s.drop_first().insert(j - 1, (k, v)));
        assert(keys_of(s)[0] == s[0].0);
        assert(s[0].0 != k);
        assert(first_map(s.insert(j, (k, v))) =~= first_map(s).insert(k, v));
    }
}

proof fn lemma_key_set_concat<V>(a: Seq<(i64, V)>, b: Seq<(i64, V)>)
    ensures
        keys_of(a + b).to_set() == keys_of(a).to_set() + keys_of(b).to_set(),
{
    assert forall|x: i64| keys_of(a + b).to_set().contains(x) <==> (keys_of(a).to_set() + keys_of(b).to_set()).contains(x) by {
        lemma_contains_concat(a, b, x);
    }
    assert(keys_of(a + b).to_set() =~= keys_of(a).to_set() + keys_of(b).to_set());
}

impl<V> Node<V> {
    /// Replacing child `i` by `c2` changes only that child's segment of the
    /// in-order entries; returns the segment after it.
    proof fn lemma_replace_child(p: Node<V>, p2: Node<V>, i: int) -> (r: Seq<(i64, V)>)
        requires
            !p.leaf,
            !p2.leaf,
            p.children@.len() == p.keys@.len() + 1,
            p.keys@.len() == p.values@.len(),
            p2.keys@ == p.keys@,
            p2.values@ == p.values@,
            p2.children@.len() == p.children@.len(),
            0 <= i < p.children@.len(),
            forall|j: int| 0 <= j < p.children@.len() && j != i ==> p2.children@[j] == p.children@[j],
        ensures
            p2.entries_upto(i as nat) == p.entries_upto(i as nat),
            p.entries() == p.entries_upto(i as nat) + p.children@[i].entries() + r,
            p2.entries() == p.entries_upto(i as nat) + p2.children@[i].entries() + r,
    {
        let n = p.keys@.len();
        assert(p2.keys@.subrange(0, i) =~= p.keys@.subrange(0, i));
        assert(p2.values@.subrange(0, i) =~= p.values@.subrange(0, i));
        assert(p2.children@.subrange(0, i) =~= p.children@.subrange(0, i));
        Self::lemma_upto_congr(p2, p, i as nat);
        if i == n {
            assert(p.entries() =~= p.entries_upto(i as nat) + p.children@[i].entries() + Seq::empty());
            assert(p2.entries() =~= p.entries_upto(i as nat) + p2.children@[i].entries() + Seq::empty());
            Seq::empty()
        } else {
            let r = Self::lemma_replace_child_upto(p, p2, i, n);
            let last = p.children@[n as int].entries();
            assert(p2.children@[n as int] == p.children@[n as int]);
            assert(p.entries() =~= p.entries_upto(i as nat) + p.children@[i].entries() + (r + last));
            assert(p2.entries() =~= p.entries_upto(i as nat) + p2.children@[i].entries() + (r + last));
            r + last
        }
    }

    proof fn lemma_replace_child_upto(p: Node<V>, p2: Node<V>, i: int, n: nat) -> (r: Seq<(i64, V)>)
        requires
            !p.leaf,
            !p2.leaf,
            p.children@.len() == p.keys@.len() + 1,
            p.keys@.len() == p.values@.len(),
            p2.keys@ == p.keys@,
            p2.values@ == p.values@,
            p2.children@.len() == p.children@.len(),
            0 <= i < n <= p.keys@.len(),
            forall|j: int| 0 <= j < p.children@.len() && j != i ==> p2.children@[j] == p.children@[j],
            p2.entries_upto(i as nat) == p.entries_upto(i as nat),
        ensures
            p.entries_upto(n) == p.entries_upto(i as nat) + p.children@[i].entries() + r,
            p2.entries_upto(n) == p.entries_upto(i as nat) + p2.children@[i].entries() + r,
        decreases n,
    {
        let o = seq![(p.keys@[n - 1], p.values@[n - 1])];
        if n == i + 1 {
            assert(p.entries_upto(n) =~= p.entries_upto(i as nat) + p.children@[i].entries() + o);
            assert(p2.entries_upto(n) =~= p.entries_upto(i as nat) + p2.children@[i].entries() + o);
            o
        } else {
            let r0 = Self::lemma_replace_child_upto(p, p2, i, (n - 1) as nat);
            let c = p.children@[n - 1].entries();
            assert(p2.children@[n - 1] == p.children@[n - 1]);
            assert(p.entries_upto(n) =~= p.entries_upto(i as nat) + p.children@[i].entries() + (r0 + c + o));
            assert(p2.entries_upto(n) =~= p.entries_upto(i as nat) + p2.children@[i].entries() + (r0 + c + o));
            r0 + c + o
        }
    }

    /// The view after replacing a segment, from the views of the segments.
    proof fn lemma_view_of_segments(a: Seq<(i64, V)>, d: Seq<(i64, V)>, d2: Seq<(i64, V)>, r: Seq<(i64, V)>, k: i64, v: V)
        ensures
            first_map(d2) == first_map(d) ==> first_map(a + d2 + r) == first_map(a + d + r),
            first_map(d2) == first_map(d).insert(k, v) && !keys_of(a).contains(k) ==> first_map(a + d2 + r)
                == first_map(a + d + r).insert(k, v),
            keys_of(d2).to_set() == keys_of(d).to_set().insert(k) ==> keys_of(a + d2 + r).to_set()
                == keys_of(a + d + r).to_set().insert(k),
            (first_map(d2) == first_map(d) || first_map(d2) == first_map(d).insert(k, v)) && keys_of(a).contains(k)
                ==> first_map(a + d2 + r) == first_map(a + d + r),
    {
        lemma_first_map_concat(a + d, r);
        lemma_first_map_concat(a, d);
        lemma_first_map_concat(a + d2, r);
        lemma_first_map_concat(a, d2);
        lemma_first_map_dom(a, k);
        if first_map(d2) == first_map(d).insert(k, v) && !keys_of(a).contains(k) {
            assert(first_map(a + d2 + r) =~= first_map(a + d + r).insert(k, v));
        }
        if first_map(d2) == first_map(d).insert(k, v) && keys_of(a).contains(k) {
            assert(first_map(a + d2 + r) =~= first_map(a + d + r));
        }
        lemma_key_set_concat(a + d, r);
        lemma_key_set_concat(a, d);
        lemma_key_set_concat(a + d2, r);
        lemma_key_set_concat(a, d2);
        if keys_of(d2).to_set() == keys_of(d).to_set().insert(k) {
            assert(keys_of(a + d2 + r).to_set() =~= keys_of(a + d + r).to_set().insert(k));
        }
    }
}

proof fn lemma_count_le_props(s: Seq<i64>, k: i64)
    requires
        nondecreasing(s),
    ensures
        count_le(s, k) <= s.len(),
        forall|j: int| 0 <= j < count_le(s, k) ==> s[j] <= k,
        forall|j: int| count_le(s, k) <= j < s.len() ==> k < s[j],
    decreases s.len(),
{
    if s.len() > 0 {
        let s1 = s.drop_last();
        assert(nondecreasing(s1));
        lemma_count_le_props(s1, k);
        assert forall|j: int| 0 <= j < count_le(s, k) implies s[j] <= k by {
            if j < count_le(s1, k) {
                assert(s[j] == s1[j]);
            }
        }
        assert forall|j: int| count_le(s, k) <= j < s.len() implies k < s[j] by {
            if j < s.len() - 1 {
                assert(s[j] == s1[j]);
            } else {
                if count_le(s1, k) < s1.len() {
                    assert(s1[s1.len() - 1] <= s[j]);
                }
            }
        }
    }
}

impl<V> Node<V> {
    /// Splitting a full child at its median does not change whether an
    /// insertion of a key other than the median loses its update below it.
    proof fn lemma_loses_after_split(c: Node<V>, y: Node<V>, z: Node<V>, t: nat, k: i64)
        requires
            t >= 2,
            c.keys@.len() == 2 * t - 1,
            strictly_increasing(c.keys@),
            y.leaf == c.leaf,
            z.leaf == c.leaf,
            y.keys@ == c.keys@.subrange(0, t - 1),
            z.keys@ == c.keys@.subrange(t as int, 2 * t - 1),
            !c.leaf ==> c.children@.len() == 2 * t,
            !c.leaf ==> y.children@ == c.children@.subrange(0, t as int),
            !c.leaf ==> z.children@ == c.children@.subrange(t as int, 2 * t as int),
            k != c.keys@[t - 1],
        ensures
            k < c.keys@[t - 1] ==> y.loses_update(k, t) == c.loses_update(k, t),
            k > c.keys@[t - 1] ==> z.loses_update(k, t) == c.loses_update(k, t),
    {
        if !c.leaf {
            let mid = c.keys@[t - 1];
            assert(nondecreasing(c.keys@));
            lemma_count_le_props(c.keys@, k);
            let i = count_le(c.keys@, k) as int;
            if k < mid {
                assert(i <= t - 1);
                lemma_count_le(y.keys@, k, i);
                if c.keys@.contains(k) {
                    let e = choose|e: int| 0 <= e < c.keys@.len() && c.keys@[e] == k;
                    assert(e < t - 1);
                    assert(y.keys@[e] == k);
                }
                if y.keys@.contains(k) {
                    let e = choose|e: int| 0 <= e < y.keys@.len() && y.keys@[e] == k;
                    assert(c.keys@[e] == k);
                }
                assert(y.children@[i] == c.children@[i]);
            } else {
                assert(i >= t);
                assert forall|j: int| 0 <= j < i - t implies z.keys@[j] <= k by {
                    assert(z.keys@[j] == c.keys@[t + j]);
                }
                assert forall|j: int| i - t <= j < z.keys@.len() implies k < z.keys@[j] by {
                    assert(z.keys@[j] == c.keys@[t + j]);
                }
                lemma_count_le(z.keys@, k, i - t);
                if c.keys@.contains(k) {
                    let e = choose|e: int| 0 <= e < c.keys@.len() && c.keys@[e] == k;
                    assert(e >= t);
                    assert(z.keys@[e - t] == k);
                }
                if z.keys@.contains(k) {
                    let e = choose|e: int| 0 <= e < z.keys@.len() && z.keys@[e] == k;
                    assert(c.keys@[e + t] == k);
                }
                assert(z.children@[i - t] == c.children@[i]);
            }
        }
    }

    /// Replacing the value of own entry `i` changes only that entry of the
    /// in-order entries.
    proof fn lemma_replace_own_value(p: Node<V>, p2: Node<V>, i: int) -> (r: Seq<(i64, V)>)
        requires
            !p.leaf,
            !p2.leaf,
            p.children@.len() == p.keys@.len() + 1,
            p.keys@.len() == p.values@.len(),
            p2.keys@ == p.keys@,
            p2.children@ == p.children@,
            p2.values@.len() == p.values@.len(),
            0 <= i < p.keys@.len(),
            forall|j: int| 0 <= j < p.values@.len() && j != i ==> p2.values@[j] == p.values@[j],
        ensures
            p.entries() == p.entries_upto(i as nat) + p.children@[i].entries() + seq![(p.keys@[i], p.values@[i])] + r,
            p2.entries() == p.entries_upto(i as nat) + p.children@[i].entries() + seq![(p.keys@[i], p2.values@[i])] + r,
    {
        let n = p.keys@.len();
        assert(p2.keys@.subrange(0, i) =~= p.keys@.subrange(0, i));
        assert(p2.values@.subrange(0, i) =~= p.values@.subrange(0, i));
        assert(p2.children@.subrange(0, i) =~= p.children@.subrange(0, i));
        Self::lemma_upto_congr(p2, p, i as nat);
        let r = Self::lemma_replace_own_upto(p, p2, i, n);
        let last = p.children@[n as int].entries();
        assert(p.entries() =~= p.entries_upto(i as nat) + p.children@[i].entries() + seq![(p.keys@[i], p.values@[i])] + (r + last));
        assert(p2.entries() =~= p.entries_upto(i as nat) + p.children@[i].entries() + seq![(p.keys@[i], p2.values@[i])] + (r + last));
        r + last
    }

    proof fn lemma_replace_own_upto(p: Node<V>, p2: Node<V>, i: int, n: nat) -> (r: Seq<(i64, V)>)
        requires
            !p.leaf,
            !p2.leaf,
            p.children@.len() == p.keys@.len() + 1,
            p.keys@.len() == p.values@.len(),
            p2.keys@ == p.keys@,
            p2.children@ == p.children@,
            p2.values@.len() == p.values@.len(),
            0 <= i < n <= p.keys@.len(),
            forall|j: int| 0 <= j < p.values@.len() && j != i ==> p2.values@[j] == p.values@[j],
            p2.entries_upto(i as nat) == p.entries_upto(i as nat),
        ensures
            p.entries_upto(n) == p.entries_upto(i as nat) + p.children@[i].entries() + seq![(p.keys@[i], p.values@[i])] + r,
            p2.entries_upto(n) == p.entries_upto(i as nat) + p.children@[i].entries() + seq![(p.keys@[i], p2.values@[i])] + r,
        decreases n,
    {
        if n == i + 1 {
            assert(p.entries_upto(n) =~= p.entries_upto(i as nat) + p.children@[i].entries() + seq![(p.keys@[i], p.values@[i])] + Seq::empty());
            assert(p2.entries_upto(n) =~= p.entries_upto(i as nat) + p.children@[i].entries() + seq![(p.keys@[i], p2.values@[i])] + Seq::empty());
            Seq::empty()
        } else {
            let r0 = Self::lemma_replace_own_upto(p, p2, i, (n - 1) as nat);
            let c = p.children@[n - 1].entries();
            let o = seq![(p.keys@[n - 1], p.values@[n - 1])];
            assert(p2.values@[n - 1] == p.values@[n - 1]);
            assert(p.entries_upto(n) =~= p.entries_upto(i as nat) + p.children@[i].entries() + seq![(p.keys@[i], p.values@[i])] + (r0 + c + o));
            assert(p2.entries_upto(n) =~= p.entries_upto(i as nat) + p.children@[i].entries() + seq![(p.keys@[i], p2.values@[i])] + (r0 + c + o));
            r0 + c + o
        }
    }
}

impl<V> Node<V> {
    proof fn lemma_max_ge(self, n: nat, j: int)
        requires
            0 <= j < n <= self.children@.len(),
        ensures
            self.children@[j].height() <= self.max_child_height(n),
        decreases n,
    {
        if j < n - 1 {
            self.lemma_max_ge((n - 1) as nat, j);
        }
    }

    proof fn lemma_max_le(self, n: nat, m: nat)
        requires
            n <= self.children@.len(),
            forall|j: int| 0 <= j < n ==> (#[trigger] self.children@[j]).height() <= m,
        ensures
            self.max_child_height(n) <= m,
        decreases n,
    {
        if n > 0 {
            self.lemma_max_le((n - 1) as nat, m);
        }
    }

    proof fn lemma_child_height(self, j: int)
        requires
            !self.leaf,
            0 <= j < self.children@.len(),
        ensures
            self.children@[j].height() < self.height(),
    {
        self.lemma_max_ge(self.children@.len(), j);
    }

    /// A node whose children are all children of `c`, at the same level,
    /// is no taller than `c`.
    proof fn lemma_part_height(c: Node<V>, y: Node<V>)
        requires
            y.leaf == c.leaf,
            c.leaf ==> y.children@.len() == 0,
            forall|j: int| 0 <= j < y.children@.len() ==> c.children@.contains(#[trigger] y.children@[j]),
        ensures
            y.height() <= c.height(),
    {
        if !c.leaf {
            let m = c.max_child_height(c.children@.len());
            assert forall|j: int| 0 <= j < y.children@.len() implies (#[trigger] y.children@[j]).height() <= m by {
                let e = choose|e: int| 0 <= e < c.children@.len() && c.children@[e] == y.children@[j];
                c.lemma_max_ge(c.children@.len(), e);
            }
            y.lemma_max_le(y.children@.len(), m);
        }
    }
}

impl<V> Node<V> {
    proof fn lemma_leaf_update(p0: Node<V>, p1: Node<V>, j: int, k: i64, value: V)
        requires
            p0.wf(None, None),
            p0.leaf,
            p1.leaf,
            p1.keys@ == p0.keys@,
            p1.children@ == p0.children@,
            0 <= j < p0.keys@.len(),
            p0.keys@[j] == k,
            p1.values@ == p0.values@.update(j, value),
        ensures
            p1.wf(None, None),
            p1.view() == p0.view().insert(k, value),
            p1.in_order_keys().to_set() == p0.in_order_keys().to_set().insert(k),
            p1.in_order_keys() == p0.in_order_keys(),
    {
        let s0 = p0.entries();
        assert(p1.entries() =~= s0.update(j, (k, value)));
        lemma_first_map_update(s0, j, value);
        assert(keys_of(p1.entries()) =~= keys_of(s0));
        assert(keys_of(s0)[j] == k);
        assert(keys_of(s0).to_set().insert(k) =~= keys_of(s0).to_set());
    }

    proof fn lemma_leaf_insert(p0: Node<V>, p1: Node<V>, i: int, k: i64, value: V)
        requires
            p0.wf(None, None),
            p0.leaf,
            p1.leaf,
            p1.keys@ == p0.keys@.insert(i, k),
            p1.values@ == p0.values@.insert(i, value),
            p1.children@ == p0.children@,
            0 <= i <= p0.keys@.len(),
            i > 0 ==> p0.keys@[i - 1] < k,
            forall|j: int| i <= j < p0.keys@.len() ==> k < p0.keys@[j],
        ensures
            p1.wf(None, None),
            p1.view() == p0.view().insert(k, value),
            p1.in_order_keys().to_set() == p0.in_order_keys().to_set().insert(k),
            keys_grown(p0.in_order_keys(), p1.in_order_keys(), k),
    {
        let s0 = p0.entries();
        let ks = keys_of(s0);
        if ks.contains(k) {
            let e = choose|e: int| 0 <= e < ks.len() && ks[e] == k;
            assert(ks[e] == p0.keys@[e]);
            if e < i {
                assert(p0.keys@[e] <= p0.keys@[i - 1]);
            }
        }
        assert(p1.entries() =~= s0.insert(i, (k, value)));
        lemma_first_map_insert(s0, i, k, value);
        let ks1 = keys_of(p1.entries());
        assert(ks1 =~= ks.insert(i, k));
        vstd::seq_lib::to_multiset_insert(ks, i, k);
        assert forall|x: i64| ks1.to_set().contains(x) <==> ks.to_set().insert(k).contains(x) by {
            if ks1.contains(x) {
                let e = choose|e: int| 0 <= e < ks1.len() && ks1[e] == x;
                if e < i {
                    assert(ks[e] == x);
                } else if e > i {
                    assert(ks[e - 1] == x);
                }
            }
            if ks.contains(x) {
                let e = choose|e: int| 0 <= e < ks.len() && ks[e] == x;
                if e < i {
                    assert(ks1[e] == x);
                } else {
                    assert(ks1[e + 1] == x);
                }
            }
            if x == k {
                assert(ks1[i] == k);
            }
        }
        assert(ks1.to_set() =~= ks.to_set().insert(k));
        assert forall|a: int, b: int| 0 <= a < b < p1.keys@.len() implies p1.keys@[a] < p1.keys@[b] by {
            if a < i && b == i {
                assert(p0.keys@[a] <= p0.keys@[i - 1]);
            }
            if a < i && b > i {
                assert(p1.keys@[b] == p0.keys@[b - 1]);
            }
            if a > i {
                assert(p1.keys@[a] == p0.keys@[a - 1]);
                assert(p1.keys@[b] == p0.keys@[b - 1]);
            }
        }
    }

    /// Facts about the key position `i` found by the descent in an
    /// internal node.
    proof fn lemma_descent_position(p0: Node<V>, i: int, k: i64, t: nat)
        requires
            p0.wf(None, None),
            !p0.leaf,
            0 <= i <= p0.keys@.len(),
            i > 0 ==> p0.keys@[i - 1] <= k,
            forall|j: int| i <= j < p0.keys@.len() ==> k < p0.keys@[j],
            t >= 1,
        ensures
            count_le(p0.keys@, k) == i,
            (i > 0 && p0.keys@[i - 1] == k) <==> p0.keys@.contains(k),
            (i > 0 && p0.keys@[i - 1] == k) ==> p0.loses_update(k, t),
            !(i > 0 && p0.keys@[i - 1] == k) && !(p0.children@[i].keys@.len() == 2 * t - 1) ==> p0.loses_update(k, t)
                == p0.children@[i].loses_update(k, t),
            !(i > 0 && p0.keys@[i - 1] == k) && p0.children@[i].keys@.len() == 2 * t - 1 ==> p0.loses_update(k, t)
                == (p0.children@[i].keys@[t - 1] != k && p0.children@[i].loses_update(k, t)),
            p0.children@[i].height() < p0.height(),
            in_range(k, p0.child_lo(i, None), p0.child_hi(i, None)),
    {
        assert forall|j: int| 0 <= j < i implies p0.keys@[j] <= k by {
            if j < i - 1 {
                assert(p0.keys@[j] < p0.keys@[i - 1]);
            }
        }
        lemma_count_le(p0.keys@, k, i);
        if p0.keys@.contains(k) {
            let e = choose|e: int| 0 <= e < p0.keys@.len() && p0.keys@[e] == k;
            if e < i - 1 {
                assert(p0.keys@[e] < p0.keys@[i - 1]);
            }
        }
        if i > 0 && p0.keys@[i - 1] == k {
            assert(p0.keys@[i - 1] == k);
        }
        p0.lemma_child_height(i);
    }

    /// After a split of child `i` of `p0` into `ps`: heights do not grow,
    /// and for keys other than the median the question whether the update
    /// is lost is the same in the half the key belongs to.
    proof fn lemma_after_split(p0: Node<V>, ps: Node<V>, i: int, k: i64, t: nat)
        requires
            p0.wf(None, None),
            ps.wf(None, None),
            !p0.leaf,
            !ps.leaf,
            0 <= i < p0.children@.len(),
            t >= 2,
            p0.children@[i].keys@.len() == 2 * t - 1,
            ps.keys@ == p0.keys@.insert(i, p0.children@[i].keys@[t - 1]),
            ps.children@[i].keys@ == p0.children@[i].keys@.subrange(0, t - 1),
            ps.children@[i + 1].keys@ == p0.children@[i].keys@.subrange(t as int, 2 * t - 1),
            ps.children@[i].leaf == p0.children@[i].leaf,
            ps.children@[i + 1].leaf == p0.children@[i].leaf,
            p0.children@[i].leaf ==> ps.children@[i].children@.len() == 0 && ps.children@[i + 1].children@.len() == 0,
            !p0.children@[i].leaf ==> ps.children@[i].children@ == p0.children@[i].children@.subrange(0, t as int),
            !p0.children@[i].leaf ==> ps.children@[i + 1].children@ == p0.children@[i].children@.subrange(
                t as int,
                p0.children@[i].children@.len() as int,
            ),
        ensures
            ps.children@[i].height() <= p0.children@[i].height(),
            ps.children@[i + 1].height() <= p0.children@[i].height(),
            k < ps.keys@[i] ==> ps.children@[i].loses_update(k, t) == p0.children@[i].loses_update(k, t),
            k > ps.keys@[i] ==> ps.children@[i + 1].loses_update(k, t) == p0.children@[i].loses_update(k, t),
    {
        let c = *p0.children@[i];
        let y = *ps.children@[i];
        let z = *ps.children@[i + 1];
        assert(c.wf(p0.child_lo(i, None), p0.child_hi(i, None)));
        if !c.leaf {
            assert(c.children@.len() == 2 * t);
            assert forall|j: int| 0 <= j < y.children@.len() implies c.children@.contains(#[trigger] y.children@[j]) by {
                assert(c.children@[j] == y.children@[j]);
            }
            assert forall|j: int| 0 <= j < z.children@.len() implies c.children@.contains(#[trigger] z.children@[j]) by {
                assert(c.children@[t + j] == z.children@[j]);
            }
        }
        Self::lemma_part_height(c, y);
        Self::lemma_part_height(c, z);
        assert(ps.keys@[i] == c.keys@[t - 1]);
        if k != c.keys@[t - 1] {
            Self::lemma_loses_after_split(c, y, z, t, k);
        }
    }

    /// Updating the median that a split just moved up into `ps` at
    /// position `i` replaces the value that lookups see for it.
    proof fn lemma_update_median(ps: Node<V>, pf: Node<V>, i: int, k: i64, value: V)
        requires
            ps.wf(None, None),
            !ps.leaf,
            !pf.leaf,
            0 <= i < ps.keys@.len(),
            ps.keys@[i] == k,
            i > 0 ==> ps.keys@[i - 1] < k,
            pf.keys@ == ps.keys@,
            pf.children@ == ps.children@,
            pf.values@ == ps.values@.update(i, value),
        ensures
            pf.wf(None, None),
            pf.view() == ps.view().insert(k, value),
            pf.in_order_keys().to_set() == ps.in_order_keys().to_set().insert(k),
            pf.in_order_keys() == ps.in_order_keys(),
    {
        let r = Self::lemma_replace_own_value(ps, pf, i);
        let y = *ps.children@[i];
        let pu = ps.entries_upto(i as nat);
        let a = pu + y.entries();
        let mv = ps.values@[i];
        assert(first_map(seq![(k, value)]) =~= first_map(seq![(k, mv)]).insert(k, value)) by {
            assert(seq![(k, value)].drop_first() =~= Seq::<(i64, V)>::empty());
            assert(seq![(k, mv)].drop_first() =~= Seq::<(i64, V)>::empty());
        }
        assert(keys_of(seq![(k, value)]) =~= seq![k]);
        assert(keys_of(seq![(k, mv)]) =~= seq![k]);
        assert(seq![k].to_set() =~= seq![k].to_set().insert(k)) by {
            assert(seq![k][0] == k);
        }
        ps.lemma_upto_in_range(None, None, i as nat);
        assert(y.wf(ps.child_lo(i, None), ps.child_hi(i, None)));
        y.lemma_entries_in_range(ps.child_lo(i, None), ps.child_hi(i, None));
        lemma_contains_concat(pu, y.entries(), k);
        if keys_of(pu).contains(k) {
            let e = choose|e: int| 0 <= e < keys_of(pu).len() && keys_of(pu)[e] == k;
            assert(keys_of(pu)[e] == pu[e].0);
        }
        if keys_of(y.entries()).contains(k) {
            let e = choose|e: int| 0 <= e < keys_of(y.entries()).len() && keys_of(y.entries())[e] == k;
            assert(keys_of(y.entries())[e] == y.entries()[e].0);
        }
        Self::lemma_view_of_segments(a, seq![(k, mv)], seq![(k, value)], r, k, value);
        lemma_keys_of_concat(a + seq![(k, mv)], r);
        lemma_keys_of_concat(a + seq![(k, value)], r);
        lemma_keys_of_concat(a, seq![(k, mv)]);
        lemma_keys_of_concat(a, seq![(k, value)]);
    }

    /// After inserting into child `i` of `pb` (giving `pf`), the node is
    /// still well formed and its view follows the child's.
    proof fn lemma_after_child_insert(pb: Node<V>, pf: Node<V>, i: int, k: i64, value: V, lost: bool)
        requires
            pb.wf(None, None),
            !pb.leaf,
            !pf.leaf,
            pf.keys@ == pb.keys@,
            pf.values@ == pb.values@,
            pf.children@.len() == pb.children@.len(),
            0 <= i < pb.children@.len(),
            forall|j: int| 0 <= j < pb.children@.len() && j != i ==> pf.children@[j] == pb.children@[j],
            in_range(k, pb.child_lo(i, None), pb.child_hi(i, None)),
            i > 0 ==> pb.keys@[i - 1] <= k,
            pf.children@[i].wf(None, None),
            pf.children@[i].view() == (if lost {
                pb.children@[i].view()
            } else {
                pb.children@[i].view().insert(k, value)
            }),
            pf.children@[i].in_order_keys().to_set() == pb.children@[i].in_order_keys().to_set().insert(k),
            pf.children@[i].in_order_keys() == pb.children@[i].in_order_keys() || keys_grown(
                pb.children@[i].in_order_keys(),
                pf.children@[i].in_order_keys(),
                k,
            ),
        ensures
            pf.wf(None, None),
            (i > 0 && pb.keys@[i - 1] == k) || lost ==> pf.view() == pb.view(),
            !(i > 0 && pb.keys@[i - 1] == k) && !lost ==> pf.view() == pb.view().insert(k, value),
            pf.in_order_keys().to_set() == pb.in_order_keys().to_set().insert(k),
            pf.children@[i].in_order_keys() == pb.children@[i].in_order_keys() ==> pf.in_order_keys()
                == pb.in_order_keys(),
            keys_grown(pb.children@[i].in_order_keys(), pf.children@[i].in_order_keys(), k) ==> keys_grown(
                pb.in_order_keys(),
                pf.in_order_keys(),
                k,
            ),
    {
        let d = *pb.children@[i];
        let d2 = *pf.children@[i];
        let dlo = pb.child_lo(i, None);
        let dhi = pb.child_hi(i, None);
        assert(d.wf(dlo, dhi));
        d.lemma_entries_in_range(dlo, dhi);
        assert forall|x: i64| keys_of(d2.entries()).contains(x) implies in_range(x, dlo, dhi) by {
            assert(keys_of(d2.entries()).to_set().contains(x));
            if x != k {
                assert(keys_of(d.entries()).to_set().contains(x));
                let e = choose|e: int| 0 <= e < keys_of(d.entries()).len() && keys_of(d.entries())[e] == x;
                assert(keys_of(d.entries())[e] == d.entries()[e].0);
            }
        }
        d2.lemma_wf_tighten(None, None, dlo, dhi);
        assert forall|j: int| 0 <= j < pf.children@.len() implies (#[trigger] pf.children@[j]).wf(
            pf.child_lo(j, None),
            pf.child_hi(j, None),
        ) by {
            if j != i {
                assert(pf.children@[j] == pb.children@[j]);
                assert(pb.children@[j].wf(pb.child_lo(j, None), pb.child_hi(j, None)));
            }
        }
        let r = Self::lemma_replace_child(pb, pf, i);
        let a = pb.entries_upto(i as nat);
        pb.lemma_upto_in_range(None, None, i as nat);
        if i > 0 && pb.keys@[i - 1] == k {
            pb.lemma_upto_contains(i as nat, i - 1);
        } else if keys_of(a).contains(k) {
            let e = choose|e: int| 0 <= e < keys_of(a).len() && keys_of(a)[e] == k;
            assert(keys_of(a)[e] == a[e].0);
        }
        Self::lemma_view_of_segments(a, d.entries(), d2.entries(), r, k, value);
        lemma_keys_of_concat(a + d.entries(), r);
        lemma_keys_of_concat(a + d2.entries(), r);
        lemma_keys_of_concat(a, d.entries());
        lemma_keys_of_concat(a, d2.entries());
        if keys_grown(keys_of(d.entries()), keys_of(d2.entries()), k) {
            let ka = keys_of(a);
            let kr = keys_of(r);
            let kd = keys_of(d.entries());
            let kd2 = keys_of(d2.entries());
            vstd::seq_lib::lemma_multiset_commutative(ka + kd, kr);
            vstd::seq_lib::lemma_multiset_commutative(ka + kd2, kr);
            vstd::seq_lib::lemma_multiset_commutative(ka, kd);
            vstd::seq_lib::lemma_multiset_commutative(ka, kd2);
            assert((ka + kd2 + kr).to_multiset() =~= (ka + kd + kr).to_multiset().insert(k)) by {
                broadcast use vstd::multiset::group_multiset_axioms;
            }
        }
    }
}

impl<V> Node<V> {
    /// An insertion of a key that the subtree does not hold adds it: its
    /// update cannot be lost, so lookups then find the key, which the keys
    /// would not hold were they unchanged.
    proof fn lemma_new_key_grows(p0: Node<V>, pf: Node<V>, k: i64, value: V, t: nat)
        requires
            p0.wf(None, None),
            pf.view() == (if p0.loses_update(k, t) {
                p0.view()
            } else {
                p0.view().insert(k, value)
            }),
            pf.in_order_keys() == p0.in_order_keys() || keys_grown(p0.in_order_keys(), pf.in_order_keys(), k),
        ensures
            !p0.in_order_keys().contains(k) ==> keys_grown(p0.in_order_keys(), pf.in_order_keys(), k),
    {
        if !p0.in_order_keys().contains(k) {
            if p0.loses_update(k, t) {
                p0.lemma_lost_key_is_stored(k, t);
            }
            lemma_first_map_dom(pf.entries(), k);
        }
    }
}

impl<V> Node<V> {
    /// Inserts `k -> value` into the subtree rooted here, splitting full
    /// children (those with `2t - 1` keys) on the way down. An existing key
    /// in a leaf, or a key equal to the median of a child being split, gets
    /// its value replaced.
    #[verifier::rlimit(60)]
    #[verifier::spinoff_prover]
    pub fn insert_not_full(&mut self, k: i64, value: V, t: usize)
        requires
            old(self).well_formed(),
            2 <= t <= usize::MAX / 2,
        ensures
            final(self).well_formed(),
            final(self).is_leaf() == old(self).is_leaf(),
            final(self).view() == (if old(self).loses_update(k, t as nat) {
                old(self).view()
            } else {
                old(self).view().insert(k, value)
            }),
            final(self).in_order_keys().to_set() == old(self).in_order_keys().to_set().insert(k),
            final(self).in_order_keys() == old(self).in_order_keys() || keys_grown(
                old(self).in_order_keys(),
                final(self).in_order_keys(),
                k,
            ),
            !old(self).in_order_keys().contains(k) ==> keys_grown(
                old(self).in_order_keys(),
                final(self).in_order_keys(),
                k,
            ),
            old(self).in_order_keys().contains(k) && !old(self).loses_update(k, t as nat)
                ==> final(self).in_order_keys() == old(self).in_order_keys(),
        decreases old(self).tree_height(),
    {
        let ghost p0 = *self;
        let mut i = self.keys.len();
        if self.leaf {
            while i >= 1 && k < self.keys[i - 1]
                invariant
                    *self == p0,
                    i <= self.keys@.len(),
                    forall|j: int| i <= j < self.keys@.len() ==> k < self.keys@[j],
                decreases i,
            {
                i -= 1;
            }
            if i > 0 && self.keys[i - 1] == k {
                self.values.set(i - 1, value);
                proof {
                    Self::lemma_leaf_update(p0, *self, i - 1, k, value);
                    assert(p0.in_order_keys()[i - 1] == k);
                    Self::lemma_new_key_grows(p0, *self, k, value, t as nat);
                }
                return;
            }
            self.keys.insert(i, k);
            self.values.insert(i, value);
            proof {
                Self::lemma_leaf_insert(p0, *self, i as int, k, value);
                if p0.in_order_keys().contains(k) {
                    let e = choose|e: int| 0 <= e < p0.in_order_keys().len() && p0.in_order_keys()[e] == k;
                    assert(p0.in_order_keys()[e] == p0.keys@[e]);
                    if e < i - 1 {
                        assert(p0.keys@[e] < p0.keys@[i - 1]);
                    }
                }
            }
        } else {
            while i > 0 && k < self.keys[i - 1]
                invariant
                    *self == p0,
                    i <= self.keys@.len(),
                    forall|j: int| i <= j < self.keys@.len() ==> k < self.keys@[j],
                decreases i,
            {
                i -= 1;
            }
            let ghost i0 = i as int;
            let ghost own = i0 > 0 && p0.keys@[i0 - 1] == k;
            proof {
                Self::lemma_descent_position(p0, i0, k, t as nat);
            }
            let full = self.children[i].keys.len() == 2 * t - 1;
            if full {
                self.split_child(i, t);
                let ghost ps = *self;
                proof {
                    Self::lemma_after_split(p0, ps, i0, k, t as nat);
                }
                let nk = self.keys.len();
                if k > self.keys[i] {
                    assert(i < nk);
                    i += 1;
                } else if k == self.keys[i] {
                    self.values.set(i, value);
                    proof {
                        Self::lemma_update_median(ps, *self, i0, k, value);
                        Self::lemma_new_key_grows(p0, *self, k, value, t as nat);
                    }
                    return;
                }
            }
            let ghost pb = *self;
            let ghost lost = pb.children@[i as int].loses_update(k, t as nat);
            proof {
                assert(pb.wf(None, None));
                let d = *pb.children@[i as int];
                assert(d.wf(pb.child_lo(i as int, None), pb.child_hi(i as int, None)));
                d.lemma_wf_loosen(pb.child_lo(i as int, None), pb.child_hi(i as int, None), None, None);
                assert(i as int > 0 ==> pb.keys@[i - 1] <= k);
                assert(own ==> pb.keys@[i - 1] == k);
                assert(!own ==> p0.loses_update(k, t as nat) == lost);
                assert(pb.view() == p0.view());
                assert(pb.in_order_keys() == p0.in_order_keys());
                if !own {
                    assert forall|j: int| 0 <= j < i implies pb.keys@[j] < k by {
                        assert(pb.keys@[j] <= pb.keys@[i - 1]);
                    }
                    pb.lemma_lookup(None, None, k, i as int);
                    lemma_first_map_dom(p0.entries(), k);
                    lemma_first_map_dom(d.entries(), k);
                    assert(p0.in_order_keys().contains(k) <==> d.in_order_keys().contains(k));
                }
            }
            self.children[i].insert_not_full(k, value, t);
            proof {
                Self::lemma_after_child_insert(pb, *self, i as int, k, value, lost);
                Self::lemma_new_key_grows(p0, *self, k, value, t as nat);
            }
        }
    }
}

proof fn lemma_nondecreasing_concat(a: Seq<i64>, b: Seq<i64>)
    requires
        nondecreasing(a),
        nondecreasing(b),
        forall|i: int, j: int| 0 <= i < a.len() && 0 <= j < b.len() ==> a[i] <= b[j],
    ensures
        nondecreasing(a + b),
{
    assert forall|i: int, j: int| 0 <= i <= j < (a + b).len() implies (a + b)[i] <= (a + b)[j] by {
        if j < a.len() {
        } else if i >= a.len() {
            assert((a + b)[i] == b[i - a.len()]);
            assert((a + b)[j] == b[j - a.len()]);
        } else {
            assert((a + b)[j] == b[j - a.len()]);
        }
    }
}

impl<V> Node<V> {
    proof fn lemma_upto_sorted(self, lo: Option<i64>, hi: Option<i64>, n: nat)
        requires
            self.wf(lo, hi),
            !self.leaf,
            n <= self.keys@.len(),
        ensures
            nondecreasing(keys_of(self.entries_upto(n))),
        decreases self, n,
    {
        if n > 0 {
            self.lemma_upto_sorted(lo, hi, (n - 1) as nat);
            self.lemma_upto_in_range(lo, hi, (n - 1) as nat);
            let c = self.children@[n - 1];
            c.lemma_entries_sorted(self.child_lo(n - 1, lo), self.child_hi(n - 1, hi));
            c.lemma_entries_in_range(self.child_lo(n - 1, lo), self.child_hi(n - 1, hi));
            let a = self.entries_upto((n - 1) as nat);
            let b = c.entries();
            let o = seq![(self.keys@[n - 1], self.values@[n - 1])];
            lemma_keys_of_concat(a + b, o);
            lemma_keys_of_concat(a, b);
            assert(keys_of(o) =~= seq![self.keys@[n - 1]]);
            assert forall|i: int, j: int| 0 <= i < keys_of(a).len() && 0 <= j < keys_of(b).len() implies keys_of(a)[i] <= keys_of(b)[j] by {
                assert(keys_of(a)[i] == a[i].0);
                assert(keys_of(b)[j] == b[j].0);
            }
            lemma_nondecreasing_concat(keys_of(a), keys_of(b));
            assert forall|i: int, j: int| 0 <= i < keys_of(a + b).len() && 0 <= j < keys_of(o).len() implies keys_of(a + b)[i] <= keys_of(o)[j] by {
                if i < a.len() {
                    assert(keys_of(a + b)[i] == a[i].0);
                    if n > 1 {
                        assert(self.keys@[n - 2] < self.keys@[n - 1]);
                    }
                } else {
                    assert(keys_of(a + b)[i] == b[i - a.len()].0);
                }
            }
            lemma_nondecreasing_concat(keys_of(a + b), keys_of(o));
        }
    }

    /// The in-order keys of a well-formed subtree are in ascending order.
    proof fn lemma_entries_sorted(self, lo: Option<i64>, hi: Option<i64>)
        requires
            self.wf(lo, hi),
        ensures
            nondecreasing(keys_of(self.entries())),
        decreases self, self.keys@.len() + 1,
    {
        if self.leaf {
            assert forall|i: int, j: int| 0 <= i <= j < keys_of(self.entries()).len() implies keys_of(self.entries())[i] <= keys_of(self.entries())[j] by {
                if i < j {
                    assert(self.keys@[i] < self.keys@[j]);
                }
            }
        } else {
            let n = self.keys@.len();
            self.lemma_upto_sorted(lo, hi, n);
            self.lemma_upto_in_range(lo, hi, n);
            let c = self.children@[n as int];
            c.lemma_entries_sorted(self.child_lo(n as int, lo), self.child_hi(n as int, hi));
            c.lemma_entries_in_range(self.child_lo(n as int, lo), self.child_hi(n as int, hi));
            let a = self.entries_upto(n);
            let b = c.entries();
            lemma_keys_of_concat(a, b);
            assert forall|i: int, j: int| 0 <= i < keys_of(a).len() && 0 <= j < keys_of(b).len() implies keys_of(a)[i] <= keys_of(b)[j] by {
                assert(keys_of(a)[i] == a[i].0);
                assert(keys_of(b)[j] == b[j].0);
            }
            lemma_nondecreasing_concat(keys_of(a), keys_of(b));
        }
    }

    /// An insertion only loses its update for a key that is already stored.
    proof fn lemma_lost_key_is_stored(self, k: i64, t: nat)
        requires
            self.wf(None, None),
            self.loses_update(k, t),
        ensures
            keys_of(self.entries()).contains(k),
        decreases self,
    {
        self.lemma_parts_in_entries();
        if self.keys@.contains(k) {
            let e = choose|e: int| 0 <= e < self.keys@.len() && self.keys@[e] == k;
            assert(keys_of(self.entries()).contains(self.keys@[e]));
        } else {
            let i = count_le(self.keys@, k) as int;
            let c = *self.children@[i];
            assert(c.wf(self.child_lo(i, None), self.child_hi(i, None)));
            c.lemma_wf_loosen(self.child_lo(i, None), self.child_hi(i, None), None, None);
            c.lemma_lost_key_is_stored(k, t);
            assert(keys_of(self.children@[i].entries()).contains(k));
        }
    }
}

#[derive(Debug)]
pub struct Btree<T> {
    t: usize,
    root: Box<Node<T>>,
}

impl<V> Btree<V> {
    /// Well-formedness of the tree.
    pub closed spec fn wf(self) -> bool {
        self.root.well_formed()
    }

    /// The minimum degree the tree was made with.
    pub closed spec fn degree(self) -> nat {
        self.t as nat
    }

    /// What lookups in the tree see.
    pub closed spec fn view(self) -> Map<i64, V> {
        self.root.view()
    }

    /// The keys of the tree in order, duplicates included.
    pub closed spec fn in_order_keys(self) -> Seq<i64> {
        self.root.in_order_keys()
    }

    /// The (key, value) entries of the tree in order. A key appears more
    /// than once only after an update that lookups do not see (see
    /// `insert_loses_update`); lookups see its first entry.
    pub closed spec fn contents(self) -> Seq<(i64, V)> {
        self.root.contents()
    }

    /// Whether `k` is held above the leaves: by the root, or by an
    /// internal node.
    pub closed spec fn held_above_leaves(self, k: i64) -> bool {
        self.root.keys@.contains(k) || self.root.held_in_internal_node(k)
    }

    /// Whether `insert(k, _)` leaves the value that lookups see for `k`
    /// untouched: either the root is full and `k` is its median, which moves
    /// up into a new root that the insertion then passes without stopping,
    /// or the insertion passes an internal node holding `k` (see
    /// `Node::loses_update`).
    pub closed spec fn insert_loses_update(self, k: i64) -> bool {
        let t = self.t as nat;
        ||| (t >= 1 && self.root.keys@.len() == 2 * t - 1 && self.root.keys@[t - 1] == k)
        ||| self.root.loses_update(k, t)
    }

    /// An empty tree of minimum degree `t`.
    pub fn new(t: usize) -> (tree: Self)
        ensures
            tree.wf(),
            tree.degree() == t,
            tree.view() == Map::<i64, V>::empty(),
            tree.in_order_keys() == Seq::<i64>::empty(),
    {
        let root = Node::new(true);
        proof {
            assert(root.entries() =~= Seq::<(i64, V)>::empty());
            assert(root.in_order_keys() =~= Seq::<i64>::empty());
        }
        Self { t, root: Box::new(root) }
    }

    /// Looks up `key`.
    pub fn search(&self, key: i64) -> (r: Option<&V>)
        requires
            self.wf(),
        ensures
            match r {
                Some(v) => self.view().contains_key(key) && *v == self.view()[key],
                None => !self.view().contains_key(key),
            },
    {
        self.root.search(key)
    }

    /// All keys in ascending key order.
    pub fn keys_in_order(&self) -> (out: Vec<i64>)
        requires
            self.wf(),
        ensures
            out@ == self.in_order_keys(),
    {
        let mut out = Vec::new();
        self.root.keys_in_order(&mut out);
        assert(out@ =~= self.in_order_keys());
        out
    }

    /// Inserts `key -> value`; a full root is split first, growing the tree
    /// by one level. The minimum degree is at least 2, as the definition of
    /// a B-tree asks: with degree 1 a split moves up a median that may equal
    /// the key before it in the parent.
    pub fn insert(&mut self, key: i64, value: V)
        requires
            old(self).wf(),
            2 <= old(self).degree() <= usize::MAX / 2,
        ensures
            final(self).wf(),
            final(self).degree() == old(self).degree(),
            final(self).view() == (if old(self).insert_loses_update(key) {
                old(self).view()
            } else {
                old(self).view().insert(key, value)
            }),
            final(self).in_order_keys().to_set() == old(self).in_order_keys().to_set().insert(key),
            final(self).in_order_keys() == old(self).in_order_keys() || keys_grown(
                old(self).in_order_keys(),
                final(self).in_order_keys(),
                key,
            ),
            !old(self).in_order_keys().contains(key) ==> keys_grown(
                old(self).in_order_keys(),
                final(self).in_order_keys(),
                key,
            ),
            old(self).in_order_keys().contains(key) && !old(self).insert_loses_update(key)
                ==> final(self).in_order_keys() == old(self).in_order_keys(),
    {
        let t = self.t;
        if self.root.keys.len() == 2 * t - 1 {
            let ghost r0 = *self.root;
            let mut s = Box::new(Node::new(false));
            let mut old_root = Box::new(Node::new(true));
            std::mem::swap(&mut old_root, &mut self.root);
            s.children.push(old_root);
            let ghost s0 = *s;
            proof {
                assert(s0.children@[0] == r0);
                assert(s0.entries_upto(0) =~= Seq::<(i64, V)>::empty());
                assert(s0.entries() =~= r0.entries());
                assert(s0.wf(None, None)) by {
                    assert forall|j: int| 0 <= j < s0.children@.len() implies (#[trigger] s0.children@[j]).wf(
                        s0.child_lo(j, None),
                        s0.child_hi(j, None),
                    ) by {
                        assert(j == 0);
                    }
                }
            }
            s.split_child(0, t);
            let ghost ss = *s;
            proof {
                Node::<V>::lemma_after_split(s0, ss, 0, key, t as nat);
                let mid = ss.keys@[0];
                assert(ss.keys@ =~= seq![mid]);
                let y = *ss.children@[0];
                let z = *ss.children@[1];
                if key == mid {
                    assert(ss.keys@.contains(key));
                } else {
                    assert(!ss.keys@.contains(key));
                    if key < mid {
                        lemma_count_le(ss.keys@, key, 0);
                    } else {
                        lemma_count_le(ss.keys@, key, 1);
                    }
                    assert(y.keys@.len() == t - 1);
                    assert(z.keys@.len() == t - 1);
                }
                assert(ss.loses_update(key, t as nat) == (key == r0.keys@[t - 1] || r0.loses_update(key, t as nat)));
            }
            s.insert_not_full(key, value, t);
            self.root = s;
        } else {
            self.root.insert_not_full(key, value, t);
        }
    }
}

impl<V: Clone> Btree<V> {
    /// Returns all (key, value) pairs in ascending key order, each value
    /// cloned. A key whose update was lost (see `insert_loses_update`)
    /// appears again after its first pair, the one lookups see.
    pub fn in_order(&self) -> (out: Vec<(i64, V)>)
        requires
            self.wf(),
        ensures
            cloned_entries(out@, self.contents()),
    {
        let mut out = Vec::new();
        self.root.entries_in_order(&mut out);
        assert(out@.subrange(0, out@.len() as int) =~= out@);
        out
    }
}

impl<V> Node<V> {
    /// What a node's parts mean: lookups see the first entry for each key in
    /// the in-order entries, and the in-order keys are the keys of those
    /// entries.
    pub proof fn lemma_view_of_contents(self)
        ensures
            self.view() == first_map(self.contents()),
            self.in_order_keys() == keys_of(self.contents()),
    {
    }
}

/// What the tree's parts mean: lookups see the first entry for each key in
/// the in-order entries, and the in-order keys are the keys of those
/// entries.
pub proof fn lemma_view_of_contents<V>(tree: Btree<V>)
    ensures
        tree.view() == first_map(tree.contents()),
        tree.in_order_keys() == keys_of(tree.contents()),
{
}

/// The entries that `in_order` lists come in ascending key order; each key
/// is one that lookups find, and the first entry for a key carries the
/// value that lookups return. Where no key repeats, every entry is exactly
/// `(k, view[k])`, and every key that lookups find is listed.
pub proof fn lemma_in_order_pairs<V>(tree: Btree<V>)
    requires
        tree.wf(),
    ensures
        nondecreasing(keys_of(tree.contents())),
        forall|i: int| 0 <= i < tree.contents().len() ==> tree.view().contains_key(#[trigger] tree.contents()[i].0),
        forall|i: int|
            0 <= i < tree.contents().len() && (i == 0 || tree.contents()[i - 1].0 < tree.contents()[i].0)
                ==> tree.view()[#[trigger] tree.contents()[i].0] == tree.contents()[i].1,
        forall|k: i64| tree.view().contains_key(k) ==> exists|i: int|
            0 <= i < tree.contents().len() && #[trigger] tree.contents()[i] == (k, tree.view()[k]),
        strictly_increasing(keys_of(tree.contents())) ==> forall|i: int|
            0 <= i < tree.contents().len() ==> tree.view()[#[trigger] tree.contents()[i].0] == tree.contents()[i].1,
{
    let s = tree.root.entries();
    tree.root.lemma_entries_sorted(None, None);
    assert forall|i: int| 0 <= i < s.len() implies tree.view().contains_key(#[trigger] s[i].0) by {
        lemma_first_map_dom(s, s[i].0);
        assert(keys_of(s)[i] == s[i].0);
    }
    assert forall|i: int| 0 <= i < s.len() && (i == 0 || s[i - 1].0 < s[i].0) implies tree.view()[#[trigger] s[i].0]
        == s[i].1 by {
        assert forall|m: int| 0 <= m < i implies s[m].0 != s[i].0 by {
            assert(keys_of(s)[m] <= keys_of(s)[i - 1]);
        }
        lemma_first_map_at(s, i);
    }
    assert forall|k: i64| tree.view().contains_key(k) implies exists|i: int| 0 <= i < s.len() && #[trigger] s[i] == (k, tree.view()[k]) by {
        lemma_first_map_dom(s, k);
        let j = choose|j: int| 0 <= j < keys_of(s).len() && keys_of(s)[j] == k;
        let f = choose|f: int| 0 <= f <= j && s[f].0 == k && forall|m: int| 0 <= m < f ==> s[m].0 != k;
        assert(exists|f: int| 0 <= f <= j && s[f].0 == k && forall|m: int| 0 <= m < f ==> s[m].0 != k) by {
            lemma_first_index(s, k, j);
        }
        lemma_first_map_at(s, f);
        assert(s[f] == (k, tree.view()[k]));
    }
    if strictly_increasing(keys_of(s)) {
        assert forall|i: int| 0 <= i < s.len() implies tree.view()[#[trigger] s[i].0] == s[i].1 by {
            if i > 0 {
                assert(keys_of(s)[i - 1] < keys_of(s)[i]);
            }
        }
    }
}

/// Some entry of `s` at or before index `j` is the first with key `k`.
proof fn lemma_first_index<V>(s: Seq<(i64, V)>, k: i64, j: int)
    requires
        0 <= j < s.len(),
        s[j].0 == k,
    ensures
        exists|f: int| 0 <= f <= j && s[f].0 == k && forall|m: int| 0 <= m < f ==> s[m].0 != k,
    decreases j,
{
    if exists|m: int| 0 <= m < j && s[m].0 == k {
        let m = choose|m: int| 0 <= m < j && s[m].0 == k;
        lemma_first_index(s, k, m);
    } else {
        assert(forall|m: int| 0 <= m < j ==> s[m].0 != k);
    }
}

/// The keys listed in order are sorted, and they are exactly the keys
/// that lookups find.
pub proof fn lemma_in_order_sorted_and_complete<V>(tree: Btree<V>, k: i64)
    requires
        tree.wf(),
    ensures
        nondecreasing(tree.in_order_keys()),
        tree.in_order_keys().contains(k) <==> tree.view().contains_key(k),
{
    tree.root.lemma_entries_sorted(None, None);
    lemma_first_map_dom(tree.root.entries(), k);
}

/// Inserting a key that the tree does not hold makes lookups of it
/// return the inserted value, and leaves every other lookup unchanged.
pub proof fn lemma_insert_new_key_is_found<V>(tree: Btree<V>, k: i64)
    requires
        tree.wf(),
        !tree.view().contains_key(k),
    ensures
        !tree.insert_loses_update(k),
{
    lemma_first_map_dom(tree.root.entries(), k);
    if tree.root.loses_update(k, tree.t as nat) {
        tree.root.lemma_lost_key_is_stored(k, tree.t as nat);
    }
    let t = tree.t as nat;
    if t >= 1 && tree.root.keys@.len() == 2 * t - 1 && tree.root.keys@[t - 1] == k {
        if tree.root.leaf {
            assert(keys_of(tree.root.entries())[t - 1] == k);
        } else {
            tree.root.lemma_parts_in_entries();
        }
    }
}


/// While no update is lost, the keys stay strictly ascending, each once:
/// inserting a new key puts it in its place among the others, and
/// inserting a held key leaves the keys as they were.
pub proof fn lemma_insert_keeps_keys_distinct<V>(before: Btree<V>, after: Btree<V>, k: i64)
    requires
        before.wf(),
        after.wf(),
        strictly_increasing(before.in_order_keys()),
        !before.insert_loses_update(k),
        after.in_order_keys() == before.in_order_keys() || keys_grown(before.in_order_keys(), after.in_order_keys(), k),
        !before.in_order_keys().contains(k) ==> keys_grown(before.in_order_keys(), after.in_order_keys(), k),
        before.in_order_keys().contains(k) ==> after.in_order_keys() == before.in_order_keys(),
    ensures
        strictly_increasing(after.in_order_keys()),
        !before.in_order_keys().contains(k) ==> after.in_order_keys() == before.in_order_keys().insert(
            count_le(before.in_order_keys(), k) as int,
            k,
        ),
{
    if !before.in_order_keys().contains(k) {
        before.root.lemma_entries_sorted(None, None);
        after.root.lemma_entries_sorted(None, None);
        lemma_grown_keys_in_place(before.in_order_keys(), after.in_order_keys(), k);
    }
}

/// A sorted key sequence that gained one `k` is the old one with `k` put
/// after every key not above it; so a new key keeps the keys strictly
/// ascending.
pub proof fn lemma_grown_keys_in_place(before: Seq<i64>, after: Seq<i64>, k: i64)
    requires
        nondecreasing(before),
        nondecreasing(after),
        keys_grown(before, after, k),
    ensures
        count_le(before, k) <= before.len(),
        after == before.insert(count_le(before, k) as int, k),
        strictly_increasing(before) && !before.contains(k) ==> strictly_increasing(after),
{
    lemma_count_le_props(before, k);
    let i = count_le(before, k) as int;
    let ins = before.insert(i, k);
    vstd::seq_lib::to_multiset_insert(before, i, k);
    assert(nondecreasing(ins)) by {
        assert forall|a: int, b: int| 0 <= a <= b < ins.len() implies ins[a] <= ins[b] by {
            if a < i && b == i {
            } else if a < i && b > i {
                assert(ins[b] == before[b - 1]);
            } else if a == i && b > i {
                assert(ins[b] == before[b - 1]);
            } else if a > i {
                assert(ins[a] == before[a - 1]);
                assert(ins[b] == before[b - 1]);
            }
        }
    }
    lemma_nondecreasing_same_multiset(after, ins);
    if strictly_increasing(before) && !before.contains(k) {
        assert forall|a: int, b: int| 0 <= a < b < ins.len() implies ins[a] < ins[b] by {
            if a < i && b == i {
                assert(before[a] != k);
            } else if a < i && b > i {
                assert(ins[b] == before[b - 1]);
            } else if a == i && b > i {
                assert(ins[b] == before[b - 1]);
                assert(before[b - 1] != k);
            } else if a > i {
                assert(ins[a] == before[a - 1]);
                assert(ins[b] == before[b - 1]);
            }
        }
    }
}

/// Two nondecreasing sequences with the same keys, counted with
/// repetition, are equal.
proof fn lemma_nondecreasing_same_multiset(x: Seq<i64>, y: Seq<i64>)
    requires
        nondecreasing(x),
        nondecreasing(y),
        x.to_multiset() == y.to_multiset(),
    ensures
        x == y,
{
    let leq = |a: i64, b: i64| a <= b;
    assert(vstd::relations::sorted_by(x, leq));
    assert(vstd::relations::sorted_by(y, leq));
    assert(vstd::relations::total_ordering(leq));
    vstd::seq_lib::lemma_sorted_unique(x, y, leq);
}


impl<V> Node<V> {
    /// The in-order keys of a well-formed subtree are sorted.
    pub proof fn lemma_node_keys_sorted(self)
        requires
            self.well_formed(),
        ensures
            nondecreasing(self.in_order_keys()),
    {
        self.lemma_entries_sorted(None, None);
    }

    /// An insertion into a leaf never loses its update: the value is
    /// stored, or replaces the one held.
    pub proof fn lemma_leaf_keeps_update(self, k: i64, t: nat)
        ensures
            self.is_leaf() ==> !self.loses_update(k, t),
    {
    }

    /// An insertion loses its update only for a key that an internal node
    /// on its path already holds; the key is then among the in-order keys.
    pub proof fn lemma_lost_update_held_above(self, k: i64, t: nat)
        requires
            self.well_formed(),
        ensures
            self.loses_update(k, t) ==> self.held_in_internal_node(k) && self.in_order_keys().contains(k),
    {
        if self.loses_update(k, t) {
            self.lemma_lost_key_is_stored(k, t);
            self.lemma_lost_is_internal(k, t);
        }
    }

    proof fn lemma_lost_is_internal(self, k: i64, t: nat)
        requires
            self.loses_update(k, t),
        ensures
            self.held_in_internal_node(k),
        decreases self,
    {
        if !self.keys@.contains(k) {
            let i = count_le(self.keys@, k) as int;
            let c = self.children@[i];
            c.lemma_lost_is_internal(k, t);
            assert(self.children@[i].held_in_internal_node(k));
        }
    }

    /// While no update is lost, the keys stay strictly ascending, each once:
    /// inserting a new key puts it in its place among the others, and
    /// inserting a held key leaves the keys as they were.
    pub proof fn lemma_node_insert_keeps_keys_distinct(before: Node<V>, after: Node<V>, k: i64, t: nat)
        requires
            before.well_formed(),
            after.well_formed(),
            strictly_increasing(before.in_order_keys()),
            !before.loses_update(k, t),
            after.in_order_keys() == before.in_order_keys() || keys_grown(before.in_order_keys(), after.in_order_keys(), k),
            !before.in_order_keys().contains(k) ==> keys_grown(before.in_order_keys(), after.in_order_keys(), k),
            before.in_order_keys().contains(k) ==> after.in_order_keys() == before.in_order_keys(),
        ensures
            strictly_increasing(after.in_order_keys()),
            !before.in_order_keys().contains(k) ==> after.in_order_keys() == before.in_order_keys().insert(
                count_le(before.in_order_keys(), k) as int,
                k,
            ),
    {
        if !before.in_order_keys().contains(k) {
            before.lemma_entries_sorted(None, None);
            after.lemma_entries_sorted(None, None);
            lemma_grown_keys_in_place(before.in_order_keys(), after.in_order_keys(), k);
        }
    }
}

impl<V> Btree<V> {
    /// An insertion into the tree loses its update only for a key held
    /// above the leaves (by the root or by an internal node), which is then
    /// among the in-order keys; a key held only by leaves below the root
    /// gets its value replaced.
    pub proof fn lemma_lost_update_held_above(self, k: i64)
        requires
            self.wf(),
        ensures
            self.insert_loses_update(k) ==> self.held_above_leaves(k) && self.in_order_keys().contains(k),
    {
        let t = self.t as nat;
        self.root.lemma_lost_update_held_above(k, t);
        if t >= 1 && self.root.keys@.len() == 2 * t - 1 && self.root.keys@[t - 1] == k {
            assert(self.root.keys@.contains(k));
        }
        if !self.view().contains_key(k) {
            lemma_insert_new_key_is_found(self, k);
        }
        lemma_in_order_sorted_and_complete(self, k);
    }
}

} // verus!
