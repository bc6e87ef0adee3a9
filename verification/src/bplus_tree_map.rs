//! The B+ tree map itself: the node model, its abstract view as a
//! `Map<i64, V>`, the well-formedness invariant, and the core operations.

use vstd::prelude::*;

use crate::node_balancer::{BalanceResult, InsertionBalancer, RemovalBalancer};

verus! {

/// A terminal node holding the actual key-value pairs, keys strictly
/// ascending and values parallel-indexed to keys.
pub struct LeafNode<V> {
    pub keys: Vec<i64>,
    pub values: Vec<V>,
}

/// An interior node holding separator keys and child subtrees.
/// A separator only routes searches; it has no associated value.
pub struct BranchNode<V> {
    pub keys: Vec<i64>,
    pub children: Vec<Node<V>>,
}

/// A node of the tree: either a leaf or a branch.
pub enum Node<V> {
    Leaf(LeafNode<V>),
    Branch(BranchNode<V>),
}

/// The kind of node stored at the root of the tree. This is useful in tests
/// and for debugging the tree structure.
#[derive(Debug, PartialEq, Eq, Structural, Clone, Copy)]
pub enum RootKind {
    /// The tree is empty.
    Empty,
    /// The root is a leaf node.
    Leaf,
    /// The root is a branch node.
    Branch,
}

/// The error raised when a tree is constructed with a branching factor
/// below two; the tree is never created.
#[derive(Debug, PartialEq, Eq, Structural, Clone, Copy)]
pub struct ConfigurationError;

// ---------------------------------------------------------------------------
// The abstract model: the sequence of entries a node holds, in traversal
// order, and the finite map it denotes.
// ---------------------------------------------------------------------------

/// The key-value pairs of a leaf, in storage order.
pub open spec fn leaf_entries<V>(l: LeafNode<V>) -> Seq<(i64, V)> {
    Seq::new(l.keys@.len(), |i: int| (l.keys@[i], l.values@[i]))
}

/// The key-value pairs held below a node, leaves left to right.
pub open spec fn node_entries<V>(n: Node<V>) -> Seq<(i64, V)>
    decreases n,
{
    match n {
        Node::Leaf(l) => leaf_entries(l),
        Node::Branch(b) => children_entries(b.children@),
    }
}

/// The concatenation of the entries of a sequence of sibling subtrees.
pub open spec fn children_entries<V>(cs: Seq<Node<V>>) -> Seq<(i64, V)>
    decreases cs, cs.len(),
{
    if cs.len() == 0 {
        Seq::empty()
    } else {
        node_entries(cs[0]) + children_entries(cs.subrange(1, cs.len() as int))
    }
}

/// The finite map denoted by a sequence of entries; a later pair with the
/// same key overrides an earlier one.
pub open spec fn map_of_entries<V>(s: Seq<(i64, V)>) -> Map<i64, V>
    decreases s.len(),
{
    if s.len() == 0 {
        Map::empty()
    } else {
        map_of_entries(s.drop_last()).insert(s.last().0, s.last().1)
    }
}

/// The number of keys a node holds at its top level.
pub open spec fn node_key_count<V>(n: Node<V>) -> nat {
    match n {
        Node::Leaf(l) => l.keys@.len(),
        Node::Branch(b) => b.keys@.len(),
    }
}

/// Strict ascending order on a sequence of keys.
pub open spec fn keys_sorted(s: Seq<i64>) -> bool {
    forall|i: int, j: int| 0 <= i < j < s.len() ==> s[i] < s[j]
}

/// Every key of the entries lies strictly below `bound`.
pub open spec fn entries_below<V>(s: Seq<(i64, V)>, bound: i64) -> bool {
    forall|i: int| 0 <= i < s.len() ==> (#[trigger] s[i]).0 < bound
}

/// Every key of the entries lies strictly above `bound`.
pub open spec fn entries_above<V>(s: Seq<(i64, V)>, bound: i64) -> bool {
    forall|i: int| 0 <= i < s.len() ==> (#[trigger] s[i]).0 > bound
}

/// Every key of the entries lies at or above `bound`.
pub open spec fn entries_at_least<V>(s: Seq<(i64, V)>, bound: i64) -> bool {
    forall|i: int| 0 <= i < s.len() ==> (#[trigger] s[i]).0 >= bound
}

/// Strict ascending key order over a sequence of entries.
pub open spec fn entries_sorted<V>(s: Seq<(i64, V)>) -> bool {
    forall|i: int, j: int| 0 <= i < j < s.len() ==> s[i].0 < s[j].0
}

// ---------------------------------------------------------------------------
// Well-formedness.
// ---------------------------------------------------------------------------

/// A leaf is well-formed when its keys are strictly ascending and its
/// values are parallel-indexed to its keys.
pub open spec fn leaf_wf<V>(l: LeafNode<V>) -> bool {
    &&& l.keys@.len() == l.values@.len()
    &&& keys_sorted(l.keys@)
}

/// Every node of the subtree, this one included, holds at most `b`
/// keys. This is the occupancy bound the splitter enforces: a completed
/// insert or remove never leaves a node over the branching factor.
pub open spec fn node_keys_bounded<V>(n: Node<V>, b: nat) -> bool
    decreases n,
{
    match n {
        Node::Leaf(l) => l.keys@.len() <= b,
        Node::Branch(br) => br.keys@.len() <= b && forall|i: int|
            0 <= i < br.children@.len() ==> node_keys_bounded(#[trigger] br.children@[i], b),
    }
}

/// Every child subtree of the node keeps to the occupancy bound; the
/// node's own key count is left open. This is the transient state of a
/// node that has just absorbed one key too many.
pub open spec fn node_children_bounded<V>(n: Node<V>, b: nat) -> bool {
    match n {
        Node::Leaf(_) => true,
        Node::Branch(br) => forall|i: int|
            0 <= i < br.children@.len() ==> node_keys_bounded(#[trigger] br.children@[i], b),
    }
}

/// A node is well-formed when, besides each part being well-formed, a
/// branch with separators k0 < ... < k_{m-1} and children c_0 .. c_m keeps
/// all keys of subtree c_i in the half-open range [k_{i-1}, k_i). A branch
/// that has lost all of its children (which the tree keeps only at the
/// root) must have no separators left either; every remaining child holds
/// at least one entry.
pub open spec fn node_wf<V>(n: Node<V>) -> bool
    decreases n, 1int,
{
    match n {
        Node::Leaf(l) => leaf_wf(l),
        Node::Branch(b) => branch_form_wf(b.keys@, b.children@),
    }
}

/// The branch well-formedness conditions, stated over the separator and
/// child sequences themselves so that shapes that exist only during a
/// structural rewrite can be reasoned about.
pub open spec fn branch_form_wf<V>(ks: Seq<i64>, cs: Seq<Node<V>>) -> bool
    decreases cs, 0int,
{
    &&& keys_sorted(ks)
    &&& (cs.len() == ks.len() + 1 || (ks.len() == 0 && cs.len() == 0))
    &&& forall|i: int| 0 <= i < cs.len() ==> node_wf(#[trigger] cs[i])
    &&& forall|i: int| 0 <= i < cs.len() ==> node_entries(#[trigger] cs[i]).len() >= 1
    &&& forall|i: int|
        1 <= i < cs.len() ==> entries_at_least(node_entries(#[trigger] cs[i]), ks[i - 1])
    &&& forall|i: int|
        0 <= i < cs.len() && i < ks.len() ==> entries_below(
            node_entries(#[trigger] cs[i]),
            ks[i],
        )
}

// ---------------------------------------------------------------------------
// Lemmas about the model.
// ---------------------------------------------------------------------------

/// The entries of a single subtree, as a one-node sibling sequence.
pub proof fn lemma_children_entries_singleton<V>(n: Node<V>)
    ensures
        children_entries(seq![n]) == node_entries(n),
{
    let s = seq![n];
    assert(s.subrange(1, 1) =~= Seq::<Node<V>>::empty());
    assert(children_entries(Seq::<Node<V>>::empty()) =~= Seq::<(i64, V)>::empty());
    assert(children_entries(s) == node_entries(s[0]) + children_entries(s.subrange(1, 1)));
    assert(children_entries(s) =~= node_entries(n));
}

/// Splitting a sibling sequence splits its entries.
pub proof fn lemma_children_entries_split<V>(cs: Seq<Node<V>>, i: int)
    requires
        0 <= i <= cs.len(),
    ensures
        children_entries(cs) == children_entries(cs.subrange(0, i)) + children_entries(
            cs.subrange(i, cs.len() as int),
        ),
    decreases i,
{
    if i == 0 {
        assert(cs.subrange(0, 0) =~= Seq::<Node<V>>::empty());
        assert(cs.subrange(0, cs.len() as int) =~= cs);
        assert(children_entries(cs) =~= children_entries(cs.subrange(0, 0)) + children_entries(
            cs.subrange(0, cs.len() as int),
        ));
    } else {
        let tail = cs.subrange(1, cs.len() as int);
        lemma_children_entries_split(tail, i - 1);
        assert(tail.subrange(0, i - 1) =~= cs.subrange(0, i).subrange(1, i));
        assert(tail.subrange(i - 1, tail.len() as int) =~= cs.subrange(i, cs.len() as int));
        assert(children_entries(cs.subrange(0, i)) == node_entries(cs[0]) + children_entries(
            tail.subrange(0, i - 1),
        ));
        assert(children_entries(cs) =~= children_entries(cs.subrange(0, i)) + children_entries(
            cs.subrange(i, cs.len() as int),
        ));
    }
}

/// The entries of a sibling sequence, decomposed around position `i`.
pub proof fn lemma_children_entries_decompose<V>(cs: Seq<Node<V>>, i: int)
    requires
        0 <= i < cs.len(),
    ensures
        children_entries(cs) == children_entries(cs.subrange(0, i)) + node_entries(cs[i])
            + children_entries(cs.subrange(i + 1, cs.len() as int)),
{
    lemma_children_entries_split(cs, i);
    lemma_children_entries_split(cs.subrange(i, cs.len() as int), 1);
    let mid = cs.subrange(i, cs.len() as int);
    assert(mid.subrange(0, 1) =~= seq![cs[i]]);
    lemma_children_entries_singleton(cs[i]);
    assert(mid.subrange(1, mid.len() as int) =~= cs.subrange(i + 1, cs.len() as int));
    assert(children_entries(cs) =~= children_entries(cs.subrange(0, i)) + node_entries(cs[i])
        + children_entries(cs.subrange(i + 1, cs.len() as int)));
}

/// The map of a concatenation is the union of the maps, the right side
/// overriding the left.
pub proof fn lemma_map_of_entries_concat<V>(a: Seq<(i64, V)>, b: Seq<(i64, V)>)
    ensures
        map_of_entries(a + b) == map_of_entries(a).union_prefer_right(map_of_entries(b)),
    decreases b.len(),
{
    if b.len() == 0 {
        assert(a + b =~= a);
        assert(map_of_entries(a).union_prefer_right(map_of_entries(b)) =~= map_of_entries(a));
    } else {
        lemma_map_of_entries_concat(a, b.drop_last());
        assert((a + b).drop_last() =~= a + b.drop_last());
        assert((a + b).last() == b.last());
        assert(map_of_entries(a).union_prefer_right(map_of_entries(b.drop_last())).insert(
            b.last().0,
            b.last().1,
        ) =~= map_of_entries(a).union_prefer_right(map_of_entries(b)));
    }
}

/// A key is in the map of an entry sequence exactly when some entry
/// carries it.
pub proof fn lemma_map_of_entries_dom<V>(s: Seq<(i64, V)>, k: i64)
    ensures
        map_of_entries(s).contains_key(k) <==> exists|i: int| 0 <= i < s.len() && s[i].0 == k,
    decreases s.len(),
{
    if s.len() > 0 {
        lemma_map_of_entries_dom(s.drop_last(), k);
        if s.last().0 == k {
            assert(s[s.len() - 1].0 == k);
        } else if map_of_entries(s).contains_key(k) {
            let i = choose|i: int| 0 <= i < s.drop_last().len() && s.drop_last()[i].0 == k;
            assert(s[i].0 == k);
        } else {
            assert(forall|i: int| 0 <= i < s.len() - 1 ==> s[i] == s.drop_last()[i]);
        }
    }
}

/// The map of the entry sequence is always finite.
pub proof fn lemma_map_of_entries_finite<V>(s: Seq<(i64, V)>)
    ensures
        map_of_entries(s).dom().finite(),
    decreases s.len(),
{
    if s.len() > 0 {
        lemma_map_of_entries_finite(s.drop_last());
    }
}

/// Over a sequence whose keys are strictly ascending, the map reads back
/// each entry exactly, and its domain is as large as the sequence.
pub proof fn lemma_map_of_entries_sorted<V>(s: Seq<(i64, V)>)
    requires
        entries_sorted(s),
    ensures
        map_of_entries(s).dom().finite(),
        map_of_entries(s).dom().len() == s.len(),
        forall|i: int|
            0 <= i < s.len() ==> map_of_entries(s).contains_key((#[trigger] s[i]).0)
                && map_of_entries(s)[s[i].0] == s[i].1,
    decreases s.len(),
{
    lemma_map_of_entries_finite(s);
    if s.len() > 0 {
        lemma_map_of_entries_sorted(s.drop_last());
        lemma_map_of_entries_dom(s.drop_last(), s.last().0);
        assert(forall|i: int| 0 <= i < s.len() - 1 ==> s[i] == s.drop_last()[i]);
        assert(!map_of_entries(s.drop_last()).contains_key(s.last().0));
        assert(map_of_entries(s).dom() =~= map_of_entries(s.drop_last()).dom().insert(
            s.last().0,
        ));
        vstd::set::axiom_set_insert_len(map_of_entries(s.drop_last()).dom(), s.last().0);
    }
}

/// Concatenating sorted runs whose keys are separated by `bound` yields a
/// sorted run.
pub proof fn lemma_entries_sorted_concat<V>(a: Seq<(i64, V)>, b: Seq<(i64, V)>, bound: i64)
    requires
        entries_sorted(a),
        entries_sorted(b),
        entries_below(a, bound),
        entries_at_least(b, bound),
    ensures
        entries_sorted(a + b),
{
    assert forall|i: int, j: int| 0 <= i < j < (a + b).len() implies (a + b)[i].0 < (a + b)[j].0 by {
        if i < a.len() && j >= a.len() {
            assert(a[i].0 < bound <= b[j - a.len()].0);
        }
    }
}

/// Well-formedness makes the entries of a node strictly ascending by key,
/// and keeps them inside any bounds its separators establish.
pub proof fn lemma_node_wf_entries_sorted<V>(n: Node<V>)
    requires
        node_wf(n),
    ensures
        entries_sorted(node_entries(n)),
    decreases n, 1int, 0int,
{
    match n {
        Node::Leaf(l) => {
            assert forall|i: int, j: int|
                0 <= i < j < leaf_entries(l).len() implies leaf_entries(l)[i].0 < leaf_entries(
                l,
            )[j].0 by {
                assert(l.keys@[i] < l.keys@[j]);
            }
        },
        Node::Branch(b) => {
            lemma_branch_prefix_sorted(b.keys@, b.children@, b.children@.len() as int);
            assert(b.children@.subrange(0, b.children@.len() as int) =~= b.children@);
        },
    }
}

/// The entries of the first `i` children of a well-formed branch are
/// sorted; when `i` lands on a separator, they lie strictly below it.
pub proof fn lemma_branch_prefix_sorted<V>(ks: Seq<i64>, cs: Seq<Node<V>>, i: int)
    requires
        branch_form_wf(ks, cs),
        0 <= i <= cs.len(),
    ensures
        entries_sorted(children_entries(cs.subrange(0, i))),
        i >= 1 && i - 1 < ks.len() ==> entries_below(
            children_entries(cs.subrange(0, i)),
            ks[i - 1],
        ),
    decreases cs, 0int, i,
{
    if i == 0 {
        assert(cs.subrange(0, 0) =~= Seq::<Node<V>>::empty());
    } else {
        lemma_branch_prefix_sorted(ks, cs, i - 1);
        lemma_children_entries_split(cs.subrange(0, i), i - 1);
        assert(cs.subrange(0, i).subrange(0, i - 1) =~= cs.subrange(0, i - 1));
        assert(cs.subrange(0, i).subrange(i - 1, i) =~= seq![cs[i - 1]]);
        lemma_children_entries_singleton(cs[i - 1]);
        assert(node_wf(cs[i - 1]));
        lemma_node_wf_entries_sorted(cs[i - 1]);
        let prefix = children_entries(cs.subrange(0, i - 1));
        let childe = node_entries(cs[i - 1]);
        if i - 2 >= 0 {
            // prefix entries < keys[i - 2] <= child's entries
            assert(entries_below(prefix, ks[i - 2]));
            assert(entries_at_least(childe, ks[i - 2]));
            lemma_entries_sorted_concat(prefix, childe, ks[i - 2]);
        } else {
            assert(prefix =~= Seq::<(i64, V)>::empty());
            assert(children_entries(cs.subrange(0, i)) =~= childe);
        }
        assert(children_entries(cs.subrange(0, i)) == prefix + childe);
        if i - 1 < ks.len() {
            assert forall|j: int|
                0 <= j < (prefix + childe).len() implies (#[trigger] (prefix + childe)[j]).0
                < ks[i - 1] by {
                if j < prefix.len() {
                    if i - 2 >= 0 {
                        assert((prefix + childe)[j].0 < ks[i - 2]);
                        assert(ks[i - 2] < ks[i - 1]);
                    }
                } else {
                    assert(entries_below(childe, ks[i - 1]));
                    assert((prefix + childe)[j] == childe[j - prefix.len()]);
                }
            }
        }
    }
}

/// Concatenating sibling sequences concatenates their entries.
pub proof fn lemma_children_entries_concat<V>(a: Seq<Node<V>>, b: Seq<Node<V>>)
    ensures
        children_entries(a + b) == children_entries(a) + children_entries(b),
{
    lemma_children_entries_split(a + b, a.len() as int);
    assert((a + b).subrange(0, a.len() as int) =~= a);
    assert((a + b).subrange(a.len() as int, (a + b).len() as int) =~= b);
}

/// The entries of the children from position `i` on lie at or above the
/// separator to their left.
pub proof fn lemma_branch_suffix_at_least<V>(ks: Seq<i64>, cs: Seq<Node<V>>, i: int)
    requires
        branch_form_wf(ks, cs),
        1 <= i <= cs.len(),
    ensures
        entries_at_least(
            children_entries(cs.subrange(i, cs.len() as int)),
            ks[i - 1],
        ),
    decreases cs.len() - i,
{
    let suffix = cs.subrange(i, cs.len() as int);
    if i < cs.len() {
        lemma_branch_suffix_at_least(ks, cs, i + 1);
        assert(suffix.subrange(1, suffix.len() as int) =~= cs.subrange(i + 1, cs.len() as int));
        assert(children_entries(suffix) == node_entries(cs[i]) + children_entries(
            cs.subrange(i + 1, cs.len() as int),
        ));
        assert(entries_at_least(node_entries(cs[i]), ks[i - 1]));
        let tail_entries = children_entries(cs.subrange(i + 1, cs.len() as int));
        assert forall|j: int|
            0 <= j < children_entries(suffix).len() implies (#[trigger] children_entries(
            suffix,
        )[j]).0 >= ks[i - 1] by {
            let head = node_entries(cs[i]);
            if j >= head.len() {
                assert(children_entries(suffix)[j] == tail_entries[j - head.len()]);
                if i < ks.len() {
                    assert(tail_entries[j - head.len()].0 >= ks[i]);
                    assert(ks[i - 1] < ks[i]);
                }
            }
        }
    }
}

/// In a well-formed branch of the regular shape, every separator lies
/// strictly between the first and past the last entry key.
pub proof fn lemma_branch_key_bounds<V>(ks: Seq<i64>, cs: Seq<Node<V>>)
    requires
        branch_form_wf(ks, cs),
        cs.len() == ks.len() + 1,
    ensures
        children_entries(cs).len() >= 1,
        forall|j: int|
            0 <= j < ks.len() ==> children_entries(cs).first().0 < #[trigger] ks[j],
        forall|j: int|
            0 <= j < ks.len() ==> children_entries(cs).last().0 >= #[trigger] ks[j],
{
    let all = children_entries(cs);
    lemma_children_entries_decompose(cs, 0);
    assert(cs.subrange(0, 0) =~= Seq::<Node<V>>::empty());
    assert(node_entries(cs[0]).len() >= 1);
    assert(all.len() >= 1);
    assert(all.first() == node_entries(cs[0]).first());
    assert forall|j: int| 0 <= j < ks.len() implies all.first().0 < #[trigger] ks[j] by {
        assert(entries_below(node_entries(cs[0]), ks[0]));
        assert(node_entries(cs[0])[0].0 < ks[0]);
        assert(ks[0] <= ks[j]);
    }
    assert forall|j: int| 0 <= j < ks.len() implies all.last().0 >= #[trigger] ks[j] by {
        let m = ks.len() as int;
        lemma_children_entries_decompose(cs, m);
        assert(cs.subrange(m + 1, cs.len() as int) =~= Seq::<Node<V>>::empty());
        let laste = node_entries(cs[m]);
        assert(laste.len() >= 1);
        assert(all == children_entries(cs.subrange(0, m)) + laste + children_entries(
            cs.subrange(m + 1, cs.len() as int),
        ));
        assert(all.last() == laste.last());
        assert(entries_at_least(laste, ks[m - 1]));
        assert(laste.last().0 >= ks[m - 1]);
        assert(ks[j] <= ks[m - 1]);
    }
}

/// Bounds on the entries of a sibling sequence carry to each child.
pub proof fn lemma_child_bounds<V>(cs: Seq<Node<V>>, i: int, bound: i64)
    requires
        0 <= i < cs.len(),
    ensures
        entries_below(children_entries(cs), bound) ==> entries_below(node_entries(cs[i]), bound),
        entries_at_least(children_entries(cs), bound) ==> entries_at_least(
            node_entries(cs[i]),
            bound,
        ),
{
    lemma_children_entries_decompose(cs, i);
    let pre = children_entries(cs.subrange(0, i));
    let mine = node_entries(cs[i]);
    if entries_below(children_entries(cs), bound) {
        assert forall|j: int| 0 <= j < mine.len() implies (#[trigger] mine[j]).0 < bound by {
            assert(children_entries(cs)[pre.len() + j] == mine[j]);
        }
    }
    if entries_at_least(children_entries(cs), bound) {
        assert forall|j: int| 0 <= j < mine.len() implies (#[trigger] mine[j]).0 >= bound by {
            assert(children_entries(cs)[pre.len() + j] == mine[j]);
        }
    }
}

/// Inserting a fresh pair at its sorted position inserts its key in the
/// map view.
pub proof fn lemma_map_of_insert_at<V>(s: Seq<(i64, V)>, i: int, k: i64, v: V)
    requires
        entries_sorted(s),
        0 <= i <= s.len(),
        forall|j: int| 0 <= j < i ==> (#[trigger] s[j]).0 < k,
        forall|j: int| i <= j < s.len() ==> (#[trigger] s[j]).0 > k,
    ensures
        entries_sorted(s.insert(i, (k, v))),
        map_of_entries(s.insert(i, (k, v))) == map_of_entries(s).insert(k, v),
        !map_of_entries(s).contains_key(k),
    decreases s.len(),
{
    lemma_map_of_entries_dom(s, k);
    let t = s.insert(i, (k, v));
    assert(entries_sorted(t));
    if i == s.len() {
        assert(t.drop_last() =~= s);
        assert(t.last() == (k, v));
    } else {
        let t2 = s.drop_last().insert(i, (k, v));
        lemma_map_of_insert_at(s.drop_last(), i, k, v);
        assert(t.drop_last() =~= t2);
        assert(t.last() == s.last());
        // the two inserted keys differ, so the inserts commute
        assert(s.last().0 > k);
        assert(map_of_entries(t) == map_of_entries(s.drop_last()).insert(k, v).insert(
            s.last().0,
            s.last().1,
        ));
        assert(map_of_entries(s.drop_last()).insert(k, v).insert(s.last().0, s.last().1)
            =~= map_of_entries(s.drop_last()).insert(s.last().0, s.last().1).insert(k, v));
    }
}

/// Overwriting the pair at a key's sorted position updates that key in
/// the map view, whose prior value was the pair's.
pub proof fn lemma_map_of_update_at<V>(s: Seq<(i64, V)>, i: int, v: V)
    requires
        entries_sorted(s),
        0 <= i < s.len(),
    ensures
        entries_sorted(s.update(i, (s[i].0, v))),
        map_of_entries(s.update(i, (s[i].0, v))) == map_of_entries(s).insert(s[i].0, v),
        map_of_entries(s).contains_key(s[i].0),
        map_of_entries(s)[s[i].0] == s[i].1,
    decreases s.len(),
{
    let k = s[i].0;
    let t = s.update(i, (k, v));
    assert(entries_sorted(t));
    if i == s.len() - 1 {
        assert(t.drop_last() =~= s.drop_last());
        assert(t.last() == (k, v));
    } else {
        lemma_map_of_update_at(s.drop_last(), i, v);
        assert(t.drop_last() =~= s.drop_last().update(i, (k, v)));
        assert(t.last() == s.last());
        assert(s.last().0 > k);
        assert(map_of_entries(s.drop_last()).insert(k, v).insert(s.last().0, s.last().1)
            =~= map_of_entries(s.drop_last()).insert(s.last().0, s.last().1).insert(k, v));
    }
}

/// Removing the pair at a key's sorted position removes that key from
/// the map view.
pub proof fn lemma_map_of_remove_at<V>(s: Seq<(i64, V)>, i: int)
    requires
        entries_sorted(s),
        0 <= i < s.len(),
    ensures
        entries_sorted(s.remove(i)),
        map_of_entries(s.remove(i)) == map_of_entries(s).remove(s[i].0),
        map_of_entries(s).contains_key(s[i].0),
        map_of_entries(s)[s[i].0] == s[i].1,
    decreases s.len(),
{
    let k = s[i].0;
    let t = s.remove(i);
    assert(entries_sorted(t));
    lemma_map_of_update_at(s, i, s[i].1);
    assert(s.update(i, (s[i].0, s[i].1)) =~= s);
    if i == s.len() - 1 {
        assert(t =~= s.drop_last());
        lemma_map_of_entries_dom(s.drop_last(), k);
        assert(forall|j: int|
            0 <= j < s.len() - 1 ==> (#[trigger] s.drop_last()[j]) == s[j]);
        assert(!map_of_entries(s.drop_last()).contains_key(k));
        assert(map_of_entries(s.drop_last()) =~= map_of_entries(s.drop_last()).insert(
            k,
            s[i].1,
        ).remove(k));
    } else {
        lemma_map_of_remove_at(s.drop_last(), i);
        assert(t.drop_last() =~= s.drop_last().remove(i));
        assert(t.last() == s.last());
        assert(s.last().0 > k);
        assert(map_of_entries(s.drop_last()).remove(k).insert(s.last().0, s.last().1)
            =~= map_of_entries(s.drop_last()).insert(s.last().0, s.last().1).remove(k));
    }
}

/// Two separated well-formed subtrees make a well-formed two-child
/// branch form whose entries are theirs, in order.
pub proof fn lemma_two_child_root<V>(l: Node<V>, r: Node<V>, separator: i64)
    requires
        node_wf(l),
        node_wf(r),
        node_entries(l).len() >= 1,
        node_entries(r).len() >= 1,
        entries_below(node_entries(l), separator),
        entries_at_least(node_entries(r), separator),
    ensures
        branch_form_wf(seq![separator], seq![l, r]),
        children_entries(seq![l, r]) == node_entries(l) + node_entries(r),
{
    let cs = seq![l, r];
    lemma_children_entries_split(cs, 1);
    assert(cs.subrange(0, 1) =~= seq![l]);
    assert(cs.subrange(1, 2) =~= seq![r]);
    lemma_children_entries_singleton(l);
    lemma_children_entries_singleton(r);
    assert forall|i: int| 0 <= i < cs.len() implies node_wf(#[trigger] cs[i]) by {
        if i == 0 {
            assert(cs[0] == l);
        } else {
            assert(cs[1] == r);
        }
    }
    assert forall|i: int|
        0 <= i < cs.len() implies node_entries(#[trigger] cs[i]).len() >= 1 by {
        if i == 0 {
            assert(cs[0] == l);
        } else {
            assert(cs[1] == r);
        }
    }
    assert(entries_at_least(node_entries(cs[1]), seq![separator][0]));
    assert(entries_below(node_entries(cs[0]), seq![separator][0]));
}

/// The view of a well-formed tree root reads back its entries one for
/// one: the domain is exactly as large as the entry sequence.
pub proof fn lemma_sorted_entries_view<V>(s: Seq<(i64, V)>)
    requires
        entries_sorted(s),
    ensures
        map_of_entries(s).dom().finite(),
        map_of_entries(s).dom().len() == s.len(),
        forall|i: int|
            0 <= i < s.len() ==> map_of_entries(s).contains_key((#[trigger] s[i]).0)
                && map_of_entries(s)[s[i].0] == s[i].1,
        forall|k: i64|
            map_of_entries(s).contains_key(k) ==> exists|i: int|
                0 <= i < s.len() && s[i].0 == k,
{
    lemma_map_of_entries_sorted(s);
    assert forall|k: i64| map_of_entries(s).contains_key(k) implies exists|i: int|
        0 <= i < s.len() && s[i].0 == k by {
        lemma_map_of_entries_dom(s, k);
    }
}

/// Replacing the middle run of an entry sequence with one whose map view
/// inserted a key updates the whole map view the same way, provided the
/// key lies strictly between the outer runs.
pub proof fn lemma_map_of_three_way<V>(
    pre: Seq<(i64, V)>,
    mid: Seq<(i64, V)>,
    suf: Seq<(i64, V)>,
    mid2: Seq<(i64, V)>,
    key: i64,
    value: V,
)
    requires
        map_of_entries(mid2) == map_of_entries(mid).insert(key, value),
        entries_below(pre, key),
        entries_above(suf, key),
    ensures
        map_of_entries(pre + mid2 + suf) == map_of_entries(pre + mid + suf).insert(key, value),
        map_of_entries(pre + mid + suf).contains_key(key) <==> map_of_entries(mid).contains_key(
            key,
        ),
        map_of_entries(mid).contains_key(key) ==> map_of_entries(pre + mid + suf)[key]
            == map_of_entries(mid)[key],
{
    lemma_map_of_entries_concat(pre, mid);
    lemma_map_of_entries_concat(pre + mid, suf);
    lemma_map_of_entries_concat(pre, mid2);
    lemma_map_of_entries_concat(pre + mid2, suf);
    assert forall|i: int| 0 <= i < pre.len() implies (#[trigger] pre[i]).0 != key by {
        assert(pre[i].0 < key);
    }
    lemma_map_of_entries_dom(pre, key);
    assert forall|i: int| 0 <= i < suf.len() implies (#[trigger] suf[i]).0 != key by {
        assert(suf[i].0 > key);
    }
    lemma_map_of_entries_dom(suf, key);
    let p = map_of_entries(pre);
    let m = map_of_entries(mid);
    let sm = map_of_entries(suf);
    assert(map_of_entries(pre + mid2 + suf) == p.union_prefer_right(m.insert(key, value))
        .union_prefer_right(sm));
    assert(p.union_prefer_right(m.insert(key, value)).union_prefer_right(sm)
        =~= p.union_prefer_right(m).union_prefer_right(sm).insert(key, value));
}

/// Replacing one child of a well-formed branch with a well-formed,
/// nonempty subtree that respects the child's key range keeps the branch
/// well-formed, and decomposes its entries around the replacement.
pub proof fn lemma_branch_replace_wf<V>(ks: Seq<i64>, cs: Seq<Node<V>>, i: int, c2: Node<V>)
    requires
        branch_form_wf(ks, cs),
        cs.len() == ks.len() + 1,
        0 <= i < cs.len(),
        node_wf(c2),
        node_entries(c2).len() >= 1,
        i >= 1 ==> entries_at_least(node_entries(c2), ks[i - 1]),
        i < ks.len() ==> entries_below(node_entries(c2), ks[i]),
    ensures
        branch_form_wf(ks, cs.update(i, c2)),
        children_entries(cs.update(i, c2)) == children_entries(cs.subrange(0, i)) + node_entries(
            c2,
        ) + children_entries(cs.subrange(i + 1, cs.len() as int)),
{
    let cs2 = cs.update(i, c2);
    lemma_children_entries_decompose(cs2, i);
    assert(cs2.subrange(0, i) =~= cs.subrange(0, i));
    assert(cs2.subrange(i + 1, cs2.len() as int) =~= cs.subrange(i + 1, cs.len() as int));
    assert forall|j: int| 0 <= j < cs2.len() implies node_wf(#[trigger] cs2[j]) by {
        if j != i {
            assert(cs2[j] == cs[j]);
        }
    }
    assert forall|j: int|
        0 <= j < cs2.len() implies node_entries(#[trigger] cs2[j]).len() >= 1 by {
        if j != i {
            assert(cs2[j] == cs[j]);
        }
    }
    assert forall|j: int|
        1 <= j < cs2.len() implies entries_at_least(node_entries(#[trigger] cs2[j]), ks[j - 1])
        by {
        if j != i {
            assert(cs2[j] == cs[j]);
        }
    }
    assert forall|j: int|
        0 <= j < cs2.len() && j < ks.len() implies entries_below(
        node_entries(#[trigger] cs2[j]),
        ks[j],
    ) by {
        if j != i {
            assert(cs2[j] == cs[j]);
        }
    }
}

/// Replacing one child of a well-formed branch with two subtrees around
/// a fresh separator that fits the child's key range keeps the branch
/// well-formed, and decomposes its entries around the replacement.
#[verifier::rlimit(100)]
#[verifier::spinoff_prover]
pub proof fn lemma_branch_hoist_wf<V>(
    ks: Seq<i64>,
    cs: Seq<Node<V>>,
    i: int,
    a2: Node<V>,
    b2: Node<V>,
    m: i64,
)
    requires
        branch_form_wf(ks, cs),
        cs.len() == ks.len() + 1,
        0 <= i < cs.len(),
        node_wf(a2),
        node_wf(b2),
        node_entries(a2).len() >= 1,
        node_entries(b2).len() >= 1,
        entries_below(node_entries(a2), m),
        entries_at_least(node_entries(b2), m),
        i >= 1 ==> entries_at_least(node_entries(a2), ks[i - 1]) && m > ks[i - 1],
        i < ks.len() ==> entries_below(node_entries(b2), ks[i]) && m < ks[i],
    ensures
        branch_form_wf(
            ks.insert(i, m),
            cs.subrange(0, i) + seq![a2, b2] + cs.subrange(i + 1, cs.len() as int),
        ),
        children_entries(cs.subrange(0, i) + seq![a2, b2] + cs.subrange(i + 1, cs.len() as int))
            == children_entries(cs.subrange(0, i)) + (node_entries(a2) + node_entries(b2))
            + children_entries(cs.subrange(i + 1, cs.len() as int)),
{
    let ks2 = ks.insert(i, m);
    let cs2 = cs.subrange(0, i) + seq![a2, b2] + cs.subrange(i + 1, cs.len() as int);
    lemma_children_entries_concat(cs.subrange(0, i), seq![a2, b2]);
    lemma_children_entries_concat(
        cs.subrange(0, i) + seq![a2, b2],
        cs.subrange(i + 1, cs.len() as int),
    );
    lemma_children_entries_split(seq![a2, b2], 1);
    assert(seq![a2, b2].subrange(0, 1) =~= seq![a2]);
    assert(seq![a2, b2].subrange(1, 2) =~= seq![b2]);
    lemma_children_entries_singleton(a2);
    lemma_children_entries_singleton(b2);
    assert(keys_sorted(ks2)) by {
        assert forall|x: int, y: int| 0 <= x < y < ks2.len() implies ks2[x] < ks2[y] by {
            if x < i && y == i {
                assert(ks2[x] == ks[x]);
                assert(ks[x] <= ks[i - 1]);
            } else if x == i && y > i {
                assert(ks2[y] == ks[y - 1]);
                assert(ks[i] <= ks[y - 1]);
            }
        }
    }
    assert(cs2.len() == ks2.len() + 1);
    assert forall|j: int| 0 <= j < cs2.len() implies node_wf(#[trigger] cs2[j]) by {
        if j < i {
            assert(cs2[j] == cs[j]);
        } else if j == i {
            assert(cs2[j] == a2);
        } else if j == i + 1 {
            assert(cs2[j] == b2);
        } else {
            assert(cs2[j] == cs[j - 1]);
        }
    }
    assert forall|j: int|
        0 <= j < cs2.len() implies node_entries(#[trigger] cs2[j]).len() >= 1 by {
        if j < i {
            assert(cs2[j] == cs[j]);
        } else if j == i {
            assert(cs2[j] == a2);
        } else if j == i + 1 {
            assert(cs2[j] == b2);
        } else {
            assert(cs2[j] == cs[j - 1]);
        }
    }
    assert forall|j: int|
        1 <= j < cs2.len() implies entries_at_least(node_entries(#[trigger] cs2[j]), ks2[j - 1])
        by {
        if j < i {
            assert(cs2[j] == cs[j]);
            assert(ks2[j - 1] == ks[j - 1]);
        } else if j == i {
            assert(cs2[j] == a2);
            assert(ks2[j - 1] == ks[j - 1]);
        } else if j == i + 1 {
            assert(cs2[j] == b2);
            assert(ks2[j - 1] == m);
        } else {
            assert(cs2[j] == cs[j - 1]);
            assert(ks2[j - 1] == ks[j - 2]);
        }
    }
    assert forall|j: int|
        0 <= j < cs2.len() && j < ks2.len() implies entries_below(
        node_entries(#[trigger] cs2[j]),
        ks2[j],
    ) by {
        if j < i {
            assert(cs2[j] == cs[j]);
            assert(ks2[j] == ks[j]);
        } else if j == i {
            assert(cs2[j] == a2);
            assert(ks2[j] == m);
        } else if j == i + 1 {
            assert(cs2[j] == b2);
            assert(ks2[j] == ks[j - 1]);
            assert(entries_below(node_entries(b2), ks[i]));
        } else {
            assert(cs2[j] == cs[j - 1]);
            assert(ks2[j] == ks[j - 1]);
        }
    }
}

/// When an entry sequence's map view is another's with one key
/// inserted, every key bound that held of the old entries and admits the
/// new key holds of the new entries.
pub proof fn lemma_bounds_after_insert<V>(
    old_e: Seq<(i64, V)>,
    new_e: Seq<(i64, V)>,
    key: i64,
    value: V,
)
    requires
        map_of_entries(new_e) == map_of_entries(old_e).insert(key, value),
    ensures
        forall|b: i64| #![auto]
            entries_below(old_e, b) && key < b ==> entries_below(new_e, b),
        forall|b: i64| #![auto]
            entries_at_least(old_e, b) && key >= b ==> entries_at_least(new_e, b),
{
    assert forall|j: int|
        0 <= j < new_e.len() implies (#[trigger] new_e[j]).0 == key || exists|t: int|
        0 <= t < old_e.len() && old_e[t].0 == new_e[j].0 by {
        lemma_map_of_entries_dom(new_e, new_e[j].0);
        assert(map_of_entries(new_e).contains_key(new_e[j].0));
        if new_e[j].0 != key {
            assert(map_of_entries(old_e).contains_key(new_e[j].0));
            lemma_map_of_entries_dom(old_e, new_e[j].0);
        }
    }
    assert forall|b: i64| #![auto]
        entries_below(old_e, b) && key < b implies entries_below(new_e, b) by {
        assert forall|j: int| 0 <= j < new_e.len() implies (#[trigger] new_e[j]).0 < b by {
            if new_e[j].0 != key {
                let t = choose|t: int| 0 <= t < old_e.len() && old_e[t].0 == new_e[j].0;
                assert(old_e[t].0 < b);
            }
        }
    }
    assert forall|b: i64| #![auto]
        entries_at_least(old_e, b) && key >= b implies entries_at_least(new_e, b) by {
        assert forall|j: int| 0 <= j < new_e.len() implies (#[trigger] new_e[j]).0 >= b by {
            if new_e[j].0 != key {
                let t = choose|t: int| 0 <= t < old_e.len() && old_e[t].0 == new_e[j].0;
                assert(old_e[t].0 >= b);
            }
        }
    }
}

/// Replacing the middle run of an entry sequence with one whose map view
/// dropped a key removes that key from the whole map view, provided the
/// key lies strictly between the outer runs.
pub proof fn lemma_map_of_three_way_remove<V>(
    pre: Seq<(i64, V)>,
    mid: Seq<(i64, V)>,
    suf: Seq<(i64, V)>,
    mid2: Seq<(i64, V)>,
    key: i64,
)
    requires
        map_of_entries(mid2) == map_of_entries(mid).remove(key),
        entries_below(pre, key),
        entries_above(suf, key),
    ensures
        map_of_entries(pre + mid2 + suf) == map_of_entries(pre + mid + suf).remove(key),
        map_of_entries(pre + mid + suf).contains_key(key) <==> map_of_entries(mid).contains_key(
            key,
        ),
        map_of_entries(mid).contains_key(key) ==> map_of_entries(pre + mid + suf)[key]
            == map_of_entries(mid)[key],
{
    lemma_map_of_entries_concat(pre, mid);
    lemma_map_of_entries_concat(pre + mid, suf);
    lemma_map_of_entries_concat(pre, mid2);
    lemma_map_of_entries_concat(pre + mid2, suf);
    assert forall|i: int| 0 <= i < pre.len() implies (#[trigger] pre[i]).0 != key by {
        assert(pre[i].0 < key);
    }
    lemma_map_of_entries_dom(pre, key);
    assert forall|i: int| 0 <= i < suf.len() implies (#[trigger] suf[i]).0 != key by {
        assert(suf[i].0 > key);
    }
    lemma_map_of_entries_dom(suf, key);
    let p = map_of_entries(pre);
    let m = map_of_entries(mid);
    let sm = map_of_entries(suf);
    assert(map_of_entries(pre + mid2 + suf) == p.union_prefer_right(m.remove(key))
        .union_prefer_right(sm));
    assert(p.union_prefer_right(m.remove(key)).union_prefer_right(sm)
        =~= p.union_prefer_right(m).union_prefer_right(sm).remove(key));
}

/// When an entry sequence's map view is another's with one key removed,
/// every key bound on the old entries holds of the new entries.
pub proof fn lemma_bounds_after_remove<V>(old_e: Seq<(i64, V)>, new_e: Seq<(i64, V)>, key: i64)
    requires
        map_of_entries(new_e) == map_of_entries(old_e).remove(key),
    ensures
        forall|b: i64| #![auto] entries_below(old_e, b) ==> entries_below(new_e, b),
        forall|b: i64| #![auto] entries_at_least(old_e, b) ==> entries_at_least(new_e, b),
{
    assert forall|j: int| #![trigger new_e[j]]
        0 <= j < new_e.len() implies exists|t: int|
        0 <= t < old_e.len() && (#[trigger] old_e[t]).0 == new_e[j].0 by {
        lemma_map_of_entries_dom(new_e, new_e[j].0);
        assert(map_of_entries(new_e).contains_key(new_e[j].0));
        assert(map_of_entries(old_e).contains_key(new_e[j].0));
        lemma_map_of_entries_dom(old_e, new_e[j].0);
    }
    assert forall|b: i64| #![auto] entries_below(old_e, b) implies entries_below(new_e, b) by {
        assert forall|j: int| 0 <= j < new_e.len() implies (#[trigger] new_e[j]).0 < b by {
            let t = choose|t: int| 0 <= t < old_e.len() && (#[trigger] old_e[t]).0 == new_e[j].0;
            assert(old_e[t].0 < b);
        }
    }
    assert forall|b: i64| #![auto]
        entries_at_least(old_e, b) implies entries_at_least(new_e, b) by {
        assert forall|j: int| 0 <= j < new_e.len() implies (#[trigger] new_e[j]).0 >= b by {
            let t = choose|t: int| 0 <= t < old_e.len() && (#[trigger] old_e[t]).0 == new_e[j].0;
            assert(old_e[t].0 >= b);
        }
    }
}

/// The entries of a sibling sequence, decomposed around an adjacent pair.
pub proof fn lemma_children_entries_decompose2<V>(cs: Seq<Node<V>>, p: int)
    requires
        1 <= p < cs.len(),
    ensures
        children_entries(cs) == children_entries(cs.subrange(0, p - 1)) + (node_entries(
            cs[p - 1],
        ) + node_entries(cs[p])) + children_entries(cs.subrange(p + 1, cs.len() as int)),
{
    lemma_children_entries_decompose(cs, p - 1);
    let rest = cs.subrange(p, cs.len() as int);
    lemma_children_entries_split(cs, p);
    lemma_children_entries_split(rest, 1);
    assert(rest.subrange(0, 1) =~= seq![cs[p]]);
    lemma_children_entries_singleton(cs[p]);
    assert(rest.subrange(1, rest.len() as int) =~= cs.subrange(p + 1, cs.len() as int));
    lemma_children_entries_split(cs, p - 1);
    let head = cs.subrange(p - 1, cs.len() as int);
    lemma_children_entries_split(head, 1);
    assert(head.subrange(0, 1) =~= seq![cs[p - 1]]);
    lemma_children_entries_singleton(cs[p - 1]);
    assert(head.subrange(1, head.len() as int) =~= rest);
    assert(children_entries(cs) =~= children_entries(cs.subrange(0, p - 1)) + (node_entries(
        cs[p - 1],
    ) + node_entries(cs[p])) + children_entries(cs.subrange(p + 1, cs.len() as int)));
}

/// Dropping a child, together with its adjoining separator on the left,
/// keeps a branch form well-formed.
pub proof fn lemma_branch_child_dropped<V>(ks: Seq<i64>, cs: Seq<Node<V>>, i: int)
    requires
        branch_form_wf(ks, cs),
        cs.len() == ks.len() + 1,
        1 <= i < cs.len(),
    ensures
        branch_form_wf(ks.remove(i - 1), cs.remove(i)),
        children_entries(cs.remove(i)) == children_entries(cs.subrange(0, i)) + children_entries(
            cs.subrange(i + 1, cs.len() as int),
        ),
{
    let ks2 = ks.remove(i - 1);
    let cs2 = cs.remove(i);
    lemma_children_entries_split(cs2, i);
    assert(cs2.subrange(0, i) =~= cs.subrange(0, i));
    assert(cs2.subrange(i, cs2.len() as int) =~= cs.subrange(i + 1, cs.len() as int));
    assert forall|j: int| 0 <= j < cs2.len() implies node_wf(#[trigger] cs2[j]) by {
        if j < i {
            assert(cs2[j] == cs[j]);
        } else {
            assert(cs2[j] == cs[j + 1]);
        }
    }
    assert forall|j: int|
        0 <= j < cs2.len() implies node_entries(#[trigger] cs2[j]).len() >= 1 by {
        if j < i {
            assert(cs2[j] == cs[j]);
        } else {
            assert(cs2[j] == cs[j + 1]);
        }
    }
    assert forall|j: int|
        1 <= j < cs2.len() implies entries_at_least(node_entries(#[trigger] cs2[j]), ks2[j - 1])
        by {
        if j < i {
            assert(cs2[j] == cs[j]);
            if j == i - 1 {
                assert(ks2[j - 1] == ks[j - 1]);
            } else {
                assert(ks2[j - 1] == ks[j - 1]);
            }
        } else {
            assert(cs2[j] == cs[j + 1]);
            assert(ks2[j - 1] == ks[j]);
        }
    }
    assert forall|j: int|
        0 <= j < cs2.len() && j < ks2.len() implies entries_below(
        node_entries(#[trigger] cs2[j]),
        ks2[j],
    ) by {
        if j < i - 1 {
            assert(cs2[j] == cs[j]);
            assert(ks2[j] == ks[j]);
        } else if j == i - 1 {
            assert(cs2[j] == cs[j]);
            assert(ks2[j] == ks[j + 1]);
            assert(entries_below(node_entries(cs[j]), ks[j]));
            assert forall|t: int|
                0 <= t < node_entries(cs[j]).len() implies (#[trigger] node_entries(cs[j])[t]).0
                < ks[j + 1] by {
                assert(node_entries(cs[j])[t].0 < ks[j]);
                assert(ks[j] < ks[j + 1]);
            }
        } else {
            assert(cs2[j] == cs[j + 1]);
            assert(ks2[j] == ks[j + 1]);
        }
    }
}

/// Replacing an adjacent pair of children and the separator between them
/// by their merge keeps a branch form well-formed and its entries whole.
pub proof fn lemma_branch_pair_merge_wf<V>(ks: Seq<i64>, cs: Seq<Node<V>>, p: int, m: Node<V>)
    requires
        branch_form_wf(ks, cs),
        cs.len() == ks.len() + 1,
        1 <= p < cs.len(),
        node_wf(m),
        node_entries(m) == node_entries(cs[p - 1]) + node_entries(cs[p]),
        node_entries(m).len() >= 1,
    ensures
        branch_form_wf(
            ks.remove(p - 1),
            cs.subrange(0, p - 1) + seq![m] + cs.subrange(p + 1, cs.len() as int),
        ),
        children_entries(cs.subrange(0, p - 1) + seq![m] + cs.subrange(p + 1, cs.len() as int))
            == children_entries(cs),
{
    let ks2 = ks.remove(p - 1);
    let cs2 = cs.subrange(0, p - 1) + seq![m] + cs.subrange(p + 1, cs.len() as int);
    lemma_children_entries_concat(cs.subrange(0, p - 1), seq![m]);
    lemma_children_entries_concat(
        cs.subrange(0, p - 1) + seq![m],
        cs.subrange(p + 1, cs.len() as int),
    );
    lemma_children_entries_singleton(m);
    lemma_children_entries_decompose2(cs, p);
    let me = node_entries(m);
    assert forall|j: int| 0 <= j < cs2.len() implies node_wf(#[trigger] cs2[j]) by {
        if j < p - 1 {
            assert(cs2[j] == cs[j]);
        } else if j > p - 1 {
            assert(cs2[j] == cs[j + 1]);
        }
    }
    assert forall|j: int|
        0 <= j < cs2.len() implies node_entries(#[trigger] cs2[j]).len() >= 1 by {
        if j < p - 1 {
            assert(cs2[j] == cs[j]);
        } else if j > p - 1 {
            assert(cs2[j] == cs[j + 1]);
        }
    }
    assert forall|j: int|
        1 <= j < cs2.len() implies entries_at_least(node_entries(#[trigger] cs2[j]), ks2[j - 1])
        by {
        if j < p - 1 {
            assert(cs2[j] == cs[j]);
            assert(ks2[j - 1] == ks[j - 1]);
        } else if j == p - 1 {
            assert(cs2[j] == m);
            assert(ks2[j - 1] == ks[j - 1]);
            assert(entries_at_least(node_entries(cs[p - 1]), ks[p - 2]));
            assert forall|t: int| 0 <= t < me.len() implies (#[trigger] me[t]).0 >= ks2[j - 1]
                by {
                let le = node_entries(cs[p - 1]);
                if t < le.len() {
                    assert(me[t] == le[t]);
                } else {
                    assert(me[t] == node_entries(cs[p])[t - le.len()]);
                    assert(me[t].0 >= ks[p - 1]);
                    assert(ks[p - 2] < ks[p - 1]);
                }
            }
        } else {
            assert(cs2[j] == cs[j + 1]);
            assert(ks2[j - 1] == ks[j]);
        }
    }
    assert forall|j: int|
        0 <= j < cs2.len() && j < ks2.len() implies entries_below(
        node_entries(#[trigger] cs2[j]),
        ks2[j],
    ) by {
        if j < p - 1 {
            assert(cs2[j] == cs[j]);
            assert(ks2[j] == ks[j]);
        } else if j == p - 1 {
            assert(cs2[j] == m);
            assert(ks2[j] == ks[j + 1]);
            assert forall|t: int| 0 <= t < me.len() implies (#[trigger] me[t]).0 < ks2[j] by {
                let le = node_entries(cs[p - 1]);
                if t < le.len() {
                    assert(me[t] == le[t]);
                    assert(me[t].0 < ks[p - 1]);
                    assert(ks[p - 1] < ks[p]);
                } else {
                    assert(me[t] == node_entries(cs[p])[t - le.len()]);
                    assert(me[t].0 < ks[p]);
                }
            }
        } else {
            assert(cs2[j] == cs[j + 1]);
            assert(ks2[j] == ks[j + 1]);
        }
    }
}

/// Replacing an adjacent pair of children by a redistributed pair, and
/// the separator between them by the redistributed boundary, keeps a
/// branch form well-formed and its entries whole.
pub proof fn lemma_branch_pair_rebalanced_wf<V>(
    ks: Seq<i64>,
    cs: Seq<Node<V>>,
    p: int,
    l2: Node<V>,
    r2: Node<V>,
    s2: i64,
)
    requires
        branch_form_wf(ks, cs),
        cs.len() == ks.len() + 1,
        1 <= p < cs.len(),
        node_wf(l2),
        node_wf(r2),
        node_entries(l2).len() >= 1,
        node_entries(r2).len() >= 1,
        node_entries(l2) + node_entries(r2) == node_entries(cs[p - 1]) + node_entries(cs[p]),
        entries_below(node_entries(l2), s2),
        entries_at_least(node_entries(r2), s2),
    ensures
        branch_form_wf(ks.update(p - 1, s2), cs.update(p - 1, l2).update(p, r2)),
        children_entries(cs.update(p - 1, l2).update(p, r2)) == children_entries(cs),
{
    let ks2 = ks.update(p - 1, s2);
    let cs2 = cs.update(p - 1, l2).update(p, r2);
    lemma_children_entries_decompose2(cs, p);
    lemma_children_entries_decompose2(cs2, p);
    assert(cs2.subrange(0, p - 1) =~= cs.subrange(0, p - 1));
    assert(cs2.subrange(p + 1, cs2.len() as int) =~= cs.subrange(p + 1, cs.len() as int));
    assert(cs2[p - 1] == l2);
    assert(cs2[p] == r2);
    let pair_old = node_entries(cs[p - 1]) + node_entries(cs[p]);
    let le = node_entries(l2);
    let re = node_entries(r2);
    // every entry of the new pair is an entry of the old pair
    assert forall|t: int| 0 <= t < le.len() implies #[trigger] le[t] == pair_old[t] by {
        assert((le + re)[t] == le[t]);
    }
    assert forall|t: int|
        0 <= t < re.len() implies #[trigger] re[t] == pair_old[le.len() + t] by {
        assert((le + re)[le.len() + t] == re[t]);
    }
    // bounds of the old pair
    assert forall|t: int|
        0 <= t < pair_old.len() implies (p >= 2 ==> (#[trigger] pair_old[t]).0 >= ks[p - 2]) && (
        p < ks.len() ==> pair_old[t].0 < ks[p]) by {
        let a = node_entries(cs[p - 1]);
        if t < a.len() {
            assert(pair_old[t] == a[t]);
            if p < ks.len() {
                assert(a[t].0 < ks[p - 1]);
                assert(ks[p - 1] < ks[p]);
            }
        } else {
            assert(pair_old[t] == node_entries(cs[p])[t - a.len()]);
            if p >= 2 {
                assert(node_entries(cs[p])[t - a.len()].0 >= ks[p - 1]);
                assert(ks[p - 2] < ks[p - 1]);
            }
        }
    }
    assert(keys_sorted(ks2)) by {
        assert forall|x: int, y: int| 0 <= x < y < ks2.len() implies ks2[x] < ks2[y] by {
            if y == p - 1 {
                // s2 exceeds some entry of the left half, which lies at
                // or above every earlier separator
                assert(le[0].0 < s2);
                assert(le[0] == pair_old[0]);
                assert(pair_old[0].0 >= ks[x]) by {
                    let a = node_entries(cs[p - 1]);
                    assert(pair_old[0] == a[0]);
                    if p >= 2 {
                        assert(a[0].0 >= ks[p - 2]);
                        assert(ks[x] <= ks[p - 2]);
                    }
                }
            } else if x == p - 1 {
                // s2 is at most some entry of the right half, which lies
                // below every later separator
                assert(re[0].0 >= s2);
                assert(re[0] == pair_old[le.len() as int]);
                assert(pair_old[le.len() as int].0 < ks[y]) by {
                    assert(ks[p] <= ks[y]);
                }
            }
        }
    }
    assert forall|j: int| 0 <= j < cs2.len() implies node_wf(#[trigger] cs2[j]) by {
        if j != p - 1 && j != p {
            assert(cs2[j] == cs[j]);
        }
    }
    assert forall|j: int|
        0 <= j < cs2.len() implies node_entries(#[trigger] cs2[j]).len() >= 1 by {
        if j != p - 1 && j != p {
            assert(cs2[j] == cs[j]);
        }
    }
    assert forall|j: int|
        1 <= j < cs2.len() implies entries_at_least(node_entries(#[trigger] cs2[j]), ks2[j - 1])
        by {
        if j < p - 1 {
            assert(cs2[j] == cs[j]);
            assert(ks2[j - 1] == ks[j - 1]);
        } else if j == p - 1 {
            assert(ks2[j - 1] == ks[j - 1]);
            assert forall|t: int| 0 <= t < le.len() implies (#[trigger] le[t]).0 >= ks2[j - 1]
                by {
                assert(le[t] == pair_old[t]);
            }
        } else if j == p {
            assert(ks2[j - 1] == s2);
        } else {
            assert(cs2[j] == cs[j]);
            assert(ks2[j - 1] == ks[j - 1]);
        }
    }
    assert forall|j: int|
        0 <= j < cs2.len() && j < ks2.len() implies entries_below(
        node_entries(#[trigger] cs2[j]),
        ks2[j],
    ) by {
        if j < p - 1 {
            assert(cs2[j] == cs[j]);
            assert(ks2[j] == ks[j]);
        } else if j == p - 1 {
            assert(ks2[j] == s2);
        } else if j == p {
            assert(ks2[j] == ks[j]);
            assert forall|t: int| 0 <= t < re.len() implies (#[trigger] re[t]).0 < ks2[j] by {
                assert(re[t] == pair_old[le.len() + t]);
            }
        } else {
            assert(cs2[j] == cs[j]);
            assert(ks2[j] == ks[j]);
        }
    }
}

/// A sibling sequence of nonempty subtrees holds at least one entry per
/// sibling.
pub proof fn lemma_children_entries_min_len<V>(cs: Seq<Node<V>>)
    requires
        forall|i: int| 0 <= i < cs.len() ==> node_entries(#[trigger] cs[i]).len() >= 1,
    ensures
        children_entries(cs).len() >= cs.len(),
    decreases cs.len(),
{
    if cs.len() > 0 {
        let tail = cs.subrange(1, cs.len() as int);
        assert forall|i: int|
            0 <= i < tail.len() implies node_entries(#[trigger] tail[i]).len() >= 1 by {
            assert(tail[i] == cs[i + 1]);
        }
        lemma_children_entries_min_len(tail);
        assert(node_entries(cs[0]).len() >= 1);
    }
}

/// A well-formed node never holds more keys than entries.
pub proof fn lemma_key_count_le_entries<V>(n: Node<V>)
    requires
        node_wf(n),
    ensures
        node_key_count(n) <= node_entries(n).len(),
{
    match n {
        Node::Leaf(_) => {},
        Node::Branch(b) => {
            if b.children@.len() > 0 {
                lemma_children_entries_min_len(b.children@);
            }
        },
    }
}

/// A key no entry carries is not in the map view.
pub proof fn lemma_map_of_absent<V>(s: Seq<(i64, V)>, k: i64)
    requires
        forall|i: int| 0 <= i < s.len() ==> (#[trigger] s[i]).0 != k,
    ensures
        !map_of_entries(s).contains_key(k),
{
    lemma_map_of_entries_dom(s, k);
}

/// Routing a key to child `i` of a well-formed branch leaves every
/// entry of the earlier siblings strictly below the key and every entry
/// of the later siblings strictly above it.
pub proof fn lemma_branch_route<V>(ks: Seq<i64>, cs: Seq<Node<V>>, i: int, key: i64)
    requires
        branch_form_wf(ks, cs),
        cs.len() == ks.len() + 1,
        0 <= i < cs.len(),
        forall|j: int| 0 <= j < i ==> ks[j] <= key,
        i < ks.len() ==> ks[i] > key,
    ensures
        children_entries(cs) == children_entries(cs.subrange(0, i)) + node_entries(cs[i])
            + children_entries(cs.subrange(i + 1, cs.len() as int)),
        entries_below(children_entries(cs.subrange(0, i)), key),
        entries_above(children_entries(cs.subrange(i + 1, cs.len() as int)), key),
{
    lemma_children_entries_decompose(cs, i);
    lemma_branch_prefix_sorted(ks, cs, i);
    let pre_e = children_entries(cs.subrange(0, i));
    let suf_e = children_entries(cs.subrange(i + 1, cs.len() as int));
    if i >= 1 {
        assert(entries_below(pre_e, ks[i - 1]));
        assert forall|j: int| 0 <= j < pre_e.len() implies (#[trigger] pre_e[j]).0 < key by {
            assert(pre_e[j].0 < ks[i - 1]);
            assert(ks[i - 1] <= key);
        }
    } else {
        assert(cs.subrange(0, 0) =~= Seq::<Node<V>>::empty());
    }
    if i + 1 < cs.len() {
        lemma_branch_suffix_at_least(ks, cs, i + 1);
        assert forall|j: int| 0 <= j < suf_e.len() implies (#[trigger] suf_e[j]).0 > key by {
            assert(suf_e[j].0 >= ks[i]);
            assert(ks[i] > key);
        }
    } else {
        assert(cs.subrange(i + 1, cs.len() as int) =~= Seq::<Node<V>>::empty());
    }
}

/// A key that lies strictly between the outer runs of a three-part
/// entry sequence is looked up in the middle run.
pub proof fn lemma_map_of_three_way_lookup<V>(
    pre: Seq<(i64, V)>,
    mid: Seq<(i64, V)>,
    suf: Seq<(i64, V)>,
    key: i64,
)
    requires
        entries_below(pre, key),
        entries_above(suf, key),
    ensures
        map_of_entries(pre + mid + suf).contains_key(key) <==> map_of_entries(mid).contains_key(
            key,
        ),
        map_of_entries(mid).contains_key(key) ==> map_of_entries(pre + mid + suf)[key]
            == map_of_entries(mid)[key],
{
    lemma_map_of_entries_concat(pre, mid);
    lemma_map_of_entries_concat(pre + mid, suf);
    assert forall|i: int| 0 <= i < pre.len() implies (#[trigger] pre[i]).0 != key by {
        assert(pre[i].0 < key);
    }
    lemma_map_of_entries_dom(pre, key);
    assert forall|i: int| 0 <= i < suf.len() implies (#[trigger] suf[i]).0 != key by {
        assert(suf[i].0 > key);
    }
    lemma_map_of_entries_dom(suf, key);
}

/// The map view of a well-formed leaf reads back its parallel key and
/// value vectors exactly.
pub proof fn lemma_leaf_lookup<V>(l: LeafNode<V>)
    requires
        leaf_wf(l),
    ensures
        forall|j: int|
            0 <= j < l.keys@.len() ==> map_of_entries(leaf_entries(l)).contains_key(
                #[trigger] l.keys@[j],
            ) && map_of_entries(leaf_entries(l))[l.keys@[j]] == l.values@[j],
        forall|k: i64|
            map_of_entries(leaf_entries(l)).contains_key(k) ==> exists|j: int|
                0 <= j < l.keys@.len() && l.keys@[j] == k && l.values@[j] == map_of_entries(
                    leaf_entries(l),
                )[k],
{
    let es = leaf_entries(l);
    assert forall|i: int, j: int| 0 <= i < j < es.len() implies es[i].0 < es[j].0 by {
        assert(l.keys@[i] < l.keys@[j]);
    }
    lemma_sorted_entries_view(es);
    assert forall|j: int|
        0 <= j < l.keys@.len() implies map_of_entries(es).contains_key(#[trigger] l.keys@[j])
        && map_of_entries(es)[l.keys@[j]] == l.values@[j] by {
        assert(es[j] == (l.keys@[j], l.values@[j]));
        assert(map_of_entries(es).contains_key(es[j].0));
    }
    assert forall|k: i64| map_of_entries(es).contains_key(k) implies exists|j: int|
        0 <= j < l.keys@.len() && l.keys@[j] == k && l.values@[j] == map_of_entries(es)[k] by {
        let t = choose|t: int| 0 <= t < es.len() && es[t].0 == k;
        assert(es[t] == (l.keys@[t], l.values@[t]));
        assert(l.keys@[t] == k && l.values@[t] == map_of_entries(es)[k]);
    }
}

/// A sorted entry run that shrinks to the count of its key's occurrences
/// denotes, once the key is removed, the empty map.
pub proof fn lemma_drained_entries<V>(mid_e: Seq<(i64, V)>, key: i64)
    requires
        entries_sorted(mid_e),
        mid_e.len() == (if map_of_entries(mid_e).contains_key(key) {
            1int
        } else {
            0int
        }),
    ensures
        map_of_entries(mid_e).remove(key) =~= Map::<i64, V>::empty(),
{
    if map_of_entries(mid_e).contains_key(key) {
        lemma_sorted_entries_view(mid_e);
        assert forall|k2: i64|
            !(#[trigger] map_of_entries(mid_e).remove(key).contains_key(k2)) by {
            if k2 != key && map_of_entries(mid_e).contains_key(k2) {
                let t = choose|t: int| 0 <= t < mid_e.len() && mid_e[t].0 == k2;
                lemma_map_of_entries_dom(mid_e, key);
                let t2 = choose|t2: int| 0 <= t2 < mid_e.len() && mid_e[t2].0 == key;
                assert(t == 0 && t2 == 0);
            }
        }
    } else {
        assert(mid_e.len() == 0);
        lemma_map_of_entries_dom(mid_e, key);
        assert(map_of_entries(mid_e) =~= Map::<i64, V>::empty());
    }
}

// ---------------------------------------------------------------------------
// The map structure.
// ---------------------------------------------------------------------------

/// The B+ tree map: an optional root node, the branching factor (the
/// maximum number of keys a node may hold before it must split), and the
/// exact count of stored key-value pairs.
pub struct BPlusTreeMap<V> {
    root: Option<Node<V>>,
    branching_factor: usize,
    size: usize,
}

impl<V> BPlusTreeMap<V> {
    /// The entries of the tree, in traversal order.
    pub closed spec fn entry_seq(self) -> Seq<(i64, V)> {
        match self.root {
            None => Seq::empty(),
            Some(n) => node_entries(n),
        }
    }

    /// The branching factor the tree was configured with.
    pub closed spec fn spec_branching_factor(self) -> usize {
        self.branching_factor
    }

    /// Every node of the tree holds at most `branching_factor` keys.
    /// This bound is established by the constructors and preserved by
    /// insert and remove; the lower occupancy bound of a removal is
    /// enforced only for the one rebalanced pair and so is no tree-wide
    /// invariant.
    pub closed spec fn occupancy_bounded(self) -> bool {
        match self.root {
            None => true,
            Some(n) => node_keys_bounded(n, self.branching_factor as nat),
        }
    }

    /// The structural invariant of the tree. An emptied root leaf is
    /// dropped, never kept as a zero-length placeholder, so a leaf root
    /// always holds an entry; a drained branch root, by contrast, is
    /// kept.
    pub closed spec fn wf(self) -> bool {
        &&& self.branching_factor >= 2
        &&& self.size == self.entry_seq().len()
        &&& match self.root {
            None => true,
            Some(n) => node_wf(n) && (n is Leaf ==> node_entries(n).len() >= 1),
        }
    }
}

impl<V> View for BPlusTreeMap<V> {
    type V = Map<i64, V>;

    open spec fn view(&self) -> Map<i64, V> {
        map_of_entries(self.entry_seq())
    }
}

impl<V> BPlusTreeMap<V> {
    /// Creates a new empty map with the default branching factor of 4.
    pub fn new() -> (tree: Self)
        ensures
            tree.wf(),
            tree@ == Map::<i64, V>::empty(),
            tree.spec_branching_factor() == 4,
            tree.root_kind_spec() is Empty,
            tree.occupancy_bounded(),
    {
        BPlusTreeMap { root: None, branching_factor: 4, size: 0 }
    }

    /// Creates a new empty map with the given branching factor; a
    /// branching factor below two is refused.
    pub fn with_branching_factor(branching_factor: usize) -> (r: Result<Self, ConfigurationError>)
        ensures
            branching_factor >= 2 <==> r is Ok,
            r matches Ok(tree) ==> tree.wf() && tree@ == Map::<i64, V>::empty()
                && tree.spec_branching_factor() == branching_factor
                && tree.root_kind_spec() is Empty && tree.occupancy_bounded(),
    {
        if branching_factor < 2 {
            Err(ConfigurationError)
        } else {
            Ok(BPlusTreeMap { root: None, branching_factor, size: 0 })
        }
    }

    /// The entries of a well-formed tree are strictly ascending by key
    /// and read back, one for one, as its map view; in particular the
    /// view's domain is finite and exactly as large as the tree's size.
    pub proof fn lemma_view(self)
        requires
            self.wf(),
        ensures
            entries_sorted(self.entry_seq()),
            self@.dom().finite(),
            self@.dom().len() == self.entry_seq().len(),
            forall|i: int|
                0 <= i < self.entry_seq().len() ==> self@.contains_key(
                    (#[trigger] self.entry_seq()[i]).0,
                ) && self@[self.entry_seq()[i].0] == self.entry_seq()[i].1,
            forall|k: i64|
                self@.contains_key(k) ==> exists|i: int|
                    0 <= i < self.entry_seq().len() && self.entry_seq()[i].0 == k,
    {
        match self.root {
            None => {
                lemma_sorted_entries_view(self.entry_seq());
            },
            Some(n) => {
                lemma_node_wf_entries_sorted(n);
                lemma_sorted_entries_view(self.entry_seq());
            },
        }
    }

    /// Returns the number of entries in the map.
    pub fn len(&self) -> (n: usize)
        requires
            self.wf(),
        ensures
            n == self@.dom().len(),
            n == self.entry_seq().len(),
    {
        proof {
            self.lemma_view();
        }
        self.size
    }

    /// Returns true if the map holds no entry.
    pub fn is_empty(&self) -> (r: bool)
        requires
            self.wf(),
        ensures
            r <==> self@ == Map::<i64, V>::empty(),
    {
        proof {
            self.lemma_view();
            if self.entry_seq().len() == 0 {
                assert(self@ =~= Map::<i64, V>::empty());
            } else {
                assert(self@.contains_key(self.entry_seq()[0].0));
            }
        }
        self.size == 0
    }

    /// Returns the kind of node stored at the root of the tree. This is
    /// mainly for testing and debugging purposes.
    pub fn root_kind(&self) -> (k: RootKind)
        ensures
            k == self.root_kind_spec(),
    {
        match &self.root {
            None => RootKind::Empty,
            Some(Node::Leaf(_)) => RootKind::Leaf,
            Some(Node::Branch(_)) => RootKind::Branch,
        }
    }

    /// The kind of the root node, as `root_kind` reports it.
    pub closed spec fn root_kind_spec(self) -> RootKind {
        match self.root {
            None => RootKind::Empty,
            Some(Node::Leaf(_)) => RootKind::Leaf,
            Some(Node::Branch(_)) => RootKind::Branch,
        }
    }
}


impl<V> BPlusTreeMap<V> {
    /// Inserts a key-value pair into the map; returns the old value if
    /// the key already existed. The key count must still have room to
    /// grow when the key is new.
    pub fn insert(&mut self, key: i64, value: V) -> (old_value: Option<V>)
        requires
            old(self).wf(),
            old(self)@.contains_key(key) || old(self)@.dom().len() < usize::MAX,
        ensures
            final(self).wf(),
            final(self)@ == old(self)@.insert(key, value),
            final(self).spec_branching_factor() == old(self).spec_branching_factor(),
            old_value == (if old(self)@.contains_key(key) {
                Some(old(self)@[key])
            } else {
                None::<V>
            }),
            final(self)@.dom().len() == old(self)@.dom().len() + (if old(self)@.contains_key(key) {
                0int
            } else {
                1int
            }),
            !(final(self).root_kind_spec() is Empty),
            old(self).root_kind_spec() is Empty ==> final(self).root_kind_spec() is Leaf,
            old(self).root_kind_spec() is Branch ==> final(self).root_kind_spec() is Branch,
            old(self).root_kind_spec() is Leaf ==> final(self).root_kind_spec() == (if !old(
                self,
            )@.contains_key(key) && old(self)@.dom().len() + 1
                > old(self).spec_branching_factor() {
                RootKind::Branch
            } else {
                RootKind::Leaf
            }),
            old(self).occupancy_bounded() ==> final(self).occupancy_bounded(),
    {
        proof {
            old(self).lemma_view();
        }
        let balancer = InsertionBalancer::new(self.branching_factor);
        match self.root.take() {
            None => {
                let leaf = LeafNode { keys: vec![key], values: vec![value] };
                proof {
                    assert(leaf_entries(leaf) =~= seq![(key, value)]);
                    assert(leaf_entries(leaf).drop_last() =~= Seq::<(i64, V)>::empty());
                    assert(map_of_entries(leaf_entries(leaf)) =~= Map::<i64, V>::empty().insert(
                        key,
                        value,
                    ));
                }
                self.root = Some(Node::Leaf(leaf));
                self.size = 1;
                proof {
                    assert(old(self)@ =~= Map::<i64, V>::empty());
                    self.lemma_view();
                }
                None
            },
            Some(root) => {
                let (new_root, old_value) = Self::insert_recursive(root, key, value, &balancer);
                self.root = Some(new_root);
                if old_value.is_none() {
                    self.size = self.size + 1;
                }
                proof {
                    self.lemma_view();
                }
                old_value
            },
        }
    }

    /// Recursive helper for insertion: hands back the replacement
    /// subtree — a fresh two-child branch when this node had to split —
    /// and the prior value if the key already existed.
    #[verifier::rlimit(100)]
    fn insert_recursive(node: Node<V>, key: i64, value: V, balancer: &InsertionBalancer) -> (r: (
        Node<V>,
        Option<V>,
    ))
        requires
            node_wf(node),
            balancer.spec_branching_factor() >= 2,
        ensures
            node_wf(r.0),
            map_of_entries(node_entries(r.0)) == map_of_entries(node_entries(node)).insert(
                key,
                value,
            ),
            node_entries(r.0).len() >= 1,
            r.1 == (if map_of_entries(node_entries(node)).contains_key(key) {
                Some(map_of_entries(node_entries(node))[key])
            } else {
                None::<V>
            }),
            node_entries(r.0).len() == node_entries(node).len() + (if map_of_entries(
                node_entries(node),
            ).contains_key(key) {
                0int
            } else {
                1int
            }),
            forall|b: i64| #![auto]
                entries_below(node_entries(node), b) && key < b ==> entries_below(
                    node_entries(r.0),
                    b,
                ),
            forall|b: i64| #![auto]
                entries_at_least(node_entries(node), b) && key >= b ==> entries_at_least(
                    node_entries(r.0),
                    b,
                ),
            node is Branch ==> r.0 is Branch,
            node is Leaf ==> ((r.0 is Branch) <==> (!map_of_entries(
                node_entries(node),
            ).contains_key(key) && node_entries(node).len() + 1
                > balancer.spec_branching_factor())),
            node is Leaf && r.0 is Branch ==> (r.0 matches Node::Branch(nb) ==> nb.keys@.len()
                == 1 && nb.children@.len() == 2),
            node_keys_bounded(node, balancer.spec_branching_factor() as nat)
                ==> node_keys_bounded(r.0, balancer.spec_branching_factor() as nat),
        decreases node, 1int,
    {
        let ghost g = node;
        let ghost bf = balancer.spec_branching_factor() as nat;
        match node {
            Node::Leaf(leaf) => {
                let mut leaf = leaf;
                let ghost old_leaf = leaf;
                let mut idx: usize = 0;
                while idx < leaf.keys.len() && leaf.keys[idx] < key
                    invariant
                        leaf == old_leaf,
                        idx <= leaf.keys@.len(),
                        forall|j: int| 0 <= j < idx ==> leaf.keys@[j] < key,
                    decreases leaf.keys@.len() - idx,
                {
                    idx += 1;
                }
                let ghost es = leaf_entries(old_leaf);
                if idx < leaf.keys.len() && leaf.keys[idx] == key {
                    // the key already exists: replace the value in place
                    let mut v = value;
                    let ghost newv = value;
                    leaf.values.set_and_swap(idx, &mut v);
                    proof {
                        assert(es[idx as int].0 == key);
                        lemma_map_of_update_at(es, idx as int, newv);
                        assert(leaf_entries(leaf) =~= es.update(idx as int, (key, newv)));
                        assert forall|j: int|
                            0 <= j < leaf_entries(leaf).len() implies (#[trigger] leaf_entries(
                            leaf,
                        )[j]).0 == es[j].0 by {}
                    }
                    proof {
                        lemma_bounds_after_insert(es, leaf_entries(leaf), key, newv);
                        assert(leaf.keys@ == old_leaf.keys@);
                    }
                    (Node::Leaf(leaf), Some(v))
                } else {
                    // the key is new: insert it at its sorted position
                    proof {
                        assert forall|j: int|
                            idx <= j < es.len() implies (#[trigger] es[j]).0 > key by {
                            assert(old_leaf.keys@[idx as int] >= key);
                            assert(old_leaf.keys@[idx as int] != key);
                            assert(old_leaf.keys@[j] >= old_leaf.keys@[idx as int]);
                        }
                        lemma_map_of_insert_at(es, idx as int, key, value);
                    }
                    leaf.keys.insert(idx, key);
                    leaf.values.insert(idx, value);
                    proof {
                        assert(leaf_entries(leaf) =~= es.insert(idx as int, (key, value)));
                    }
                    let ghost grown = Node::<V>::Leaf(leaf);
                    match balancer.balance_node(Node::Leaf(leaf)) {
                        BalanceResult::Split { left, right, separator } => {
                            proof {
                                lemma_two_child_root(left, right, separator);
                            }
                            let new_branch = BranchNode {
                                keys: vec![separator],
                                children: vec![left, right],
                            };
                            proof {
                                assert(new_branch.keys@ =~= seq![separator]);
                                assert(new_branch.children@ =~= seq![left, right]);
                                lemma_bounds_after_insert(
                                    es,
                                    node_entries(Node::Branch(new_branch)),
                                    key,
                                    value,
                                );
                                if node_keys_bounded(g, bf) {
                                    assert(node_children_bounded(grown, bf));
                                    assert(node_key_count(grown) <= 2 * bf);
                                    assert(node_keys_bounded(left, bf));
                                    assert(node_keys_bounded(right, bf));
                                    assert forall|j: int|
                                        0 <= j < new_branch.children@.len()
                                        implies node_keys_bounded(
                                        #[trigger] new_branch.children@[j],
                                        bf,
                                    ) by {
                                        if j == 0 {
                                            assert(new_branch.children@[0] == left);
                                        } else {
                                            assert(new_branch.children@[1] == right);
                                        }
                                    }
                                }
                            }
                            (Node::Branch(new_branch), None)
                        },
                        BalanceResult::NoChange(n) => {
                            proof {
                                lemma_bounds_after_insert(es, node_entries(n), key, value);
                                assert(node_key_count(n) <= bf);
                            }
                            (n, None)
                        },
                        BalanceResult::Merged(_) => unreached(),
                        BalanceResult::Rebalanced { .. } => unreached(),
                    }
                }
            },
            Node::Branch(branch) => {
                proof {
                    assert(decreases_to!(g => branch));
                }
                Self::insert_into_branch(branch, key, value, balancer)
            },

        }
    }

    /// The branch case of insertion: descend into the routed child, put
    /// it back — hoisting a freshly split pair into this branch — then
    /// split this branch itself if it outgrew the branching factor.
    #[verifier::rlimit(100)]
    #[verifier::spinoff_prover]
    fn insert_into_branch(branch: BranchNode<V>, key: i64, value: V, balancer: &InsertionBalancer) -> (r: (
        Node<V>,
        Option<V>,
    ))
        requires
            node_wf(Node::Branch(branch)),
            balancer.spec_branching_factor() >= 2,
        ensures
            node_wf(r.0),
            r.0 is Branch,
            map_of_entries(node_entries(r.0)) == map_of_entries(
                children_entries(branch.children@),
            ).insert(key, value),
            node_entries(r.0).len() >= 1,
            r.1 == (if map_of_entries(children_entries(branch.children@)).contains_key(key) {
                Some(map_of_entries(children_entries(branch.children@))[key])
            } else {
                None::<V>
            }),
            node_entries(r.0).len() == children_entries(branch.children@).len() + (
            if map_of_entries(children_entries(branch.children@)).contains_key(key) {
                0int
            } else {
                1int
            }),
            forall|b: i64| #![auto]
                entries_below(children_entries(branch.children@), b) && key < b
                    ==> entries_below(node_entries(r.0), b),
            forall|b: i64| #![auto]
                entries_at_least(children_entries(branch.children@), b) && key >= b
                    ==> entries_at_least(node_entries(r.0), b),
            node_keys_bounded(Node::Branch(branch), balancer.spec_branching_factor() as nat)
                ==> node_keys_bounded(r.0, balancer.spec_branching_factor() as nat),
        decreases Node::Branch(branch), 0int,
    {
        let ghost g = Node::Branch(branch);
        let ghost bf = balancer.spec_branching_factor() as nat;
        {
                let mut branch = branch;
                let ghost old_branch = branch;
                let ghost ks = old_branch.keys@;
                let ghost cs = old_branch.children@;
                if branch.children.is_empty() {
                    // the childless shape: give it a first child holding
                    // the one new entry
                    let leaf = LeafNode { keys: vec![key], values: vec![value] };
                    branch.children.push(Node::Leaf(leaf));
                    proof {
                        assert(branch.children@ =~= seq![Node::Leaf(leaf)]);
                        lemma_children_entries_singleton(Node::Leaf(leaf));
                        assert(leaf_entries(leaf) =~= seq![(key, value)]);
                        assert(children_entries(cs) =~= Seq::<(i64, V)>::empty());
                        assert(leaf_entries(leaf).drop_last() =~= Seq::<(i64, V)>::empty());
                        assert(map_of_entries(leaf_entries(leaf)) =~= map_of_entries(
                            children_entries(cs),
                        ).insert(key, value));
                        assert(keys_sorted(leaf.keys@));
                        assert(branch_form_wf(branch.keys@, branch.children@));
                        lemma_bounds_after_insert(
                            children_entries(cs),
                            node_entries(Node::Branch(branch)),
                            key,
                            value,
                        );
                        assert forall|j: int|
                            0 <= j < branch.children@.len() implies node_keys_bounded(
                            #[trigger] branch.children@[j],
                            bf,
                        ) by {
                            assert(branch.children@[j] == Node::<V>::Leaf(leaf));
                        }
                    }
                    return (Node::Branch(branch), None);
                }
                let mut idx: usize = 0;
                while idx < branch.keys.len() && branch.keys[idx] <= key
                    invariant
                        branch == old_branch,
                        idx <= branch.keys@.len(),
                        forall|j: int| 0 <= j < idx ==> branch.keys@[j] <= key,
                    decreases branch.keys@.len() - idx,
                {
                    idx += 1;
                }
                let ghost i = idx as int;
                let ghost pre_e = children_entries(cs.subrange(0, i));
                let ghost mid_e = node_entries(cs[i]);
                let ghost suf_e = children_entries(cs.subrange(i + 1, cs.len() as int));
                proof {
                    assert(cs.len() == ks.len() + 1);
                    assert(i < cs.len());
                    lemma_children_entries_decompose(cs, i);
                    // everything left of the target child is strictly
                    // below the key, everything right strictly above
                    lemma_branch_prefix_sorted(ks, cs, i);
                    assert(entries_below(pre_e, key)) by {
                        if i >= 1 {
                            assert(entries_below(pre_e, ks[i - 1]));
                            assert(ks[i - 1] <= key);
                            assert forall|j: int|
                                0 <= j < pre_e.len() implies (#[trigger] pre_e[j]).0 < key by {
                                assert(pre_e[j].0 < ks[i - 1]);
                            }
                        } else {
                            assert(cs.subrange(0, 0) =~= Seq::<Node<V>>::empty());
                        }
                    }
                    assert(entries_above(suf_e, key)) by {
                        if i + 1 < cs.len() {
                            lemma_branch_suffix_at_least(ks, cs, i + 1);
                            assert(ks[i] > key);
                            assert forall|j: int|
                                0 <= j < suf_e.len() implies (#[trigger] suf_e[j]).0 > key by {
                                assert(suf_e[j].0 >= ks[i]);
                            }
                        } else {
                            assert(cs.subrange(i + 1, cs.len() as int)
                                =~= Seq::<Node<V>>::empty());
                        }
                    }
                    assert(decreases_to!(g => old_branch));
                    assert(decreases_to!(old_branch => old_branch.children));
                    assert(decreases_to!(old_branch.children => cs));
                    assert(decreases_to!(cs => cs[i]));
                }
                let child = branch.children.remove(idx);
                let (new_child, old_value) = Self::insert_recursive(child, key, value, balancer);
                let ghost mid2_e = node_entries(new_child);
                proof {
                    // the replacement child still fits the slot's range
                    if i >= 1 {
                        assert(entries_at_least(mid_e, ks[i - 1]));
                        assert(key >= ks[i - 1]);
                        assert(entries_at_least(mid2_e, ks[i - 1]));
                    }
                    if i < ks.len() {
                        assert(entries_below(mid_e, ks[i]));
                        assert(key < ks[i]);
                        assert(entries_below(mid2_e, ks[i]));
                    }
                }
                let ghost nc_g = new_child;
                // put the child back, hoisting a freshly split pair into
                // this branch
                match new_child {
                    Node::Branch(nb) if nb.keys.len() == 1 && nb.children.len() == 2 => {
                        let mut nb = nb;
                        let ghost nb0 = nb;
                        let ghost a2 = nb.children@[0];
                        let ghost b2 = nb.children@[1];
                        let ghost orig_cs = nb.children@;
                        let middle_key = nb.keys[0];
                        let second = match nb.children.pop() {
                            Some(c) => c,
                            None => unreached(),
                        };
                        let first = match nb.children.pop() {
                            Some(c) => c,
                            None => unreached(),
                        };
                        proof {
                            assert(first == a2);
                            assert(second == b2);
                            let nks = seq![middle_key];
                            let ncs = seq![a2, b2];
                            assert(orig_cs =~= ncs);
                            assert(nb.keys@ =~= nks);
                            assert(branch_form_wf(nks, ncs));
                            lemma_children_entries_split(ncs, 1);
                            assert(ncs.subrange(0, 1) =~= seq![a2]);
                            assert(ncs.subrange(1, 2) =~= seq![b2]);
                            lemma_children_entries_singleton(a2);
                            lemma_children_entries_singleton(b2);
                            assert(mid2_e == children_entries(orig_cs));
                            assert(mid2_e == node_entries(a2) + node_entries(b2));
                            lemma_branch_key_bounds(nks, ncs);
                            if i >= 1 {
                                assert(mid2_e[0].0 >= ks[i - 1]);
                                assert(middle_key > mid2_e.first().0);
                                assert(entries_at_least(node_entries(a2), ks[i - 1])) by {
                                    assert forall|j: int|
                                        0 <= j < node_entries(a2).len() implies (
                                        #[trigger] node_entries(a2)[j]).0 >= ks[i - 1] by {
                                        assert(mid2_e[j] == node_entries(a2)[j]);
                                    }
                                }
                            }
                            if i < ks.len() {
                                assert(mid2_e[mid2_e.len() - 1].0 < ks[i]);
                                assert(middle_key <= mid2_e.last().0);
                                assert(entries_below(node_entries(b2), ks[i])) by {
                                    assert forall|j: int|
                                        0 <= j < node_entries(b2).len() implies (
                                        #[trigger] node_entries(b2)[j]).0 < ks[i] by {
                                        assert(mid2_e[node_entries(a2).len() + j]
                                            == node_entries(b2)[j]);
                                    }
                                }
                            }
                            lemma_branch_hoist_wf(ks, cs, i, a2, b2, middle_key);
                        }
                        branch.children.insert(idx, second);
                        branch.children.insert(idx, first);
                        branch.keys.insert(idx, middle_key);
                        proof {
                            assert(branch.keys@ =~= ks.insert(i, middle_key));
                            assert(branch.children@ =~= cs.subrange(0, i) + seq![a2, b2]
                                + cs.subrange(i + 1, cs.len() as int));
                            assert(children_entries(branch.children@) =~= pre_e + mid2_e + suf_e);
                            if node_keys_bounded(g, bf) {
                                assert(node_keys_bounded(nc_g, bf));
                                assert(nc_g == Node::Branch(nb0));
                                assert(node_keys_bounded(nb0.children@[0], bf));
                                assert(node_keys_bounded(nb0.children@[1], bf));
                                assert forall|j: int|
                                    0 <= j < branch.children@.len() implies node_keys_bounded(
                                    #[trigger] branch.children@[j],
                                    bf,
                                ) by {
                                    if j < i {
                                        assert(branch.children@[j] == cs[j]);
                                    } else if j == i {
                                        assert(branch.children@[j] == a2);
                                    } else if j == i + 1 {
                                        assert(branch.children@[j] == b2);
                                    } else {
                                        assert(branch.children@[j] == cs[j - 1]);
                                    }
                                }
                                assert(branch.keys@.len() <= bf + 1);
                            }
                        }
                    },
                    other => {
                        branch.children.insert(idx, other);
                        proof {
                            assert(branch.children@ =~= cs.update(i, other));
                            lemma_branch_replace_wf(ks, cs, i, other);
                            assert(children_entries(branch.children@) == pre_e + mid2_e + suf_e);
                            if node_keys_bounded(g, bf) {
                                assert(node_keys_bounded(nc_g, bf));
                                assert forall|j: int|
                                    0 <= j < branch.children@.len() implies node_keys_bounded(
                                    #[trigger] branch.children@[j],
                                    bf,
                                ) by {
                                    if j != i {
                                        assert(branch.children@[j] == cs[j]);
                                    }
                                }
                                assert(branch.keys@.len() <= bf + 1);
                            }
                        }
                    },
                }
                proof {
                    lemma_map_of_three_way(pre_e, mid_e, suf_e, mid2_e, key, value);
                    assert(children_entries(cs) == pre_e + mid_e + suf_e);
                    if node_keys_bounded(g, bf) {
                        assert(node_children_bounded(Node::Branch(branch), bf));
                        assert(node_key_count(Node::Branch(branch)) <= bf + 1);
                    }
                }
                match balancer.balance_node(Node::Branch(branch)) {
                    BalanceResult::Split { left, right, separator } => {
                        proof {
                            lemma_two_child_root(left, right, separator);
                        }
                        let new_branch = BranchNode {
                            keys: vec![separator],
                            children: vec![left, right],
                        };
                        proof {
                            assert(new_branch.keys@ =~= seq![separator]);
                            assert(new_branch.children@ =~= seq![left, right]);
                            lemma_bounds_after_insert(
                                children_entries(cs),
                                node_entries(Node::Branch(new_branch)),
                                key,
                                value,
                            );
                            if node_keys_bounded(g, bf) {
                                assert(node_keys_bounded(left, bf) && node_keys_bounded(
                                    right,
                                    bf,
                                ));
                                assert forall|j: int|
                                    0 <= j < new_branch.children@.len()
                                    implies node_keys_bounded(
                                    #[trigger] new_branch.children@[j],
                                    bf,
                                ) by {
                                    if j == 0 {
                                        assert(new_branch.children@[0] == left);
                                    } else {
                                        assert(new_branch.children@[1] == right);
                                    }
                                }
                            }
                        }
                        (Node::Branch(new_branch), old_value)
                    },
                    BalanceResult::NoChange(n) => {
                        proof {
                            lemma_bounds_after_insert(children_entries(cs), node_entries(n), key, value);
                            if node_keys_bounded(g, bf) {
                                assert(node_key_count(n) <= bf);
                                assert(node_keys_bounded(n, bf));
                            }
                        }
                        (n, old_value)
                    },
                    BalanceResult::Merged(_) => unreached(),
                    BalanceResult::Rebalanced { .. } => unreached(),
                }
        }
    }
}

impl<V> BPlusTreeMap<V> {
    /// Removes a key-value pair from the map; returns the value if the
    /// key was present. An emptied leaf root leaves an empty tree behind,
    /// while a drained branch root stays a branch.
    pub fn remove(&mut self, key: &i64) -> (removed: Option<V>)
        requires
            old(self).wf(),
            old(self)@.dom().len() < usize::MAX,
        ensures
            final(self).wf(),
            final(self)@ == old(self)@.remove(*key),
            final(self).spec_branching_factor() == old(self).spec_branching_factor(),
            removed == (if old(self)@.contains_key(*key) {
                Some(old(self)@[*key])
            } else {
                None::<V>
            }),
            final(self)@.dom().len() == old(self)@.dom().len() - (if old(self)@.contains_key(
                *key,
            ) {
                1int
            } else {
                0int
            }),
            old(self).root_kind_spec() is Branch ==> final(self).root_kind_spec() is Branch,
            old(self).root_kind_spec() is Empty ==> final(self).root_kind_spec() is Empty,
            old(self).root_kind_spec() is Leaf ==> final(self).root_kind_spec() == (if old(
                self,
            )@.remove(*key).dom().len() == 0 {
                RootKind::Empty
            } else {
                RootKind::Leaf
            }),
            old(self).occupancy_bounded() ==> final(self).occupancy_bounded(),
    {
        proof {
            old(self).lemma_view();
        }
        let balancer = RemovalBalancer::new(self.branching_factor);
        match self.root.take() {
            None => {
                proof {
                    assert(old(self)@ =~= Map::<i64, V>::empty());
                    assert(old(self)@.remove(*key) =~= Map::<i64, V>::empty());
                    self.lemma_view();
                }
                None
            },
            Some(root) => {
                let was_branch = match &root {
                    Node::Branch(_) => true,
                    Node::Leaf(_) => false,
                };
                let (new_root, removed_value) = Self::remove_recursive(root, key, &balancer);
                match new_root {
                    Some(n) => {
                        self.root = Some(n);
                    },
                    None => {
                        if was_branch {
                            // a drained branch root is kept, not collapsed
                            let empty = BranchNode { keys: Vec::new(), children: Vec::new() };
                            proof {
                                assert(empty.keys@ =~= Seq::<i64>::empty());
                                assert(empty.children@ =~= Seq::<Node<V>>::empty());
                                assert(children_entries(empty.children@) =~= Seq::<(
                                    i64,
                                    V,
                                )>::empty());
                            }
                            self.root = Some(Node::Branch(empty));
                        } else {
                            self.root = None;
                        }
                    },
                }
                if removed_value.is_some() {
                    self.size = self.size - 1;
                }
                proof {
                    if !old(self)@.contains_key(*key) {
                        assert(old(self)@.remove(*key) =~= old(self)@);
                    }
                    self.lemma_view();
                }
                removed_value
            },
        }
    }

    /// Recursive helper for removal: hands back the replacement subtree
    /// (`None` when the node lost its last entry and is dropped) and the
    /// removed value if the key was present. After the targeted child
    /// reports a change, only the pair (previous sibling, modified
    /// child) is rebalanced; a leftmost child is never checked against
    /// its right neighbour.
    #[verifier::rlimit(100)]
    #[verifier::spinoff_prover]
    fn remove_recursive(node: Node<V>, key: &i64, balancer: &RemovalBalancer) -> (r: (
        Option<Node<V>>,
        Option<V>,
    ))
        requires
            node_wf(node),
            balancer.spec_min_keys() >= 1,
            balancer.spec_min_keys() * 2 <= usize::MAX,
            node_entries(node).len() < usize::MAX,
        ensures
            (match r.0 {
                Some(n) => {
                    &&& node_wf(n)
                    &&& (n is Branch <==> node is Branch)
                    &&& map_of_entries(node_entries(n)) == map_of_entries(
                        node_entries(node),
                    ).remove(*key)
                    &&& (node_entries(node).len() >= 1 ==> node_entries(n).len() >= 1)
                    &&& node_entries(n).len() == node_entries(node).len() - (if map_of_entries(
                        node_entries(node),
                    ).contains_key(*key) {
                        1int
                    } else {
                        0int
                    })
                    &&& forall|b: i64| #![auto]
                        entries_below(node_entries(node), b) ==> entries_below(
                            node_entries(n),
                            b,
                        )
                    &&& forall|b: i64| #![auto]
                        entries_at_least(node_entries(node), b) ==> entries_at_least(
                            node_entries(n),
                            b,
                        )
                },
                None => node_entries(node).len() == (if map_of_entries(
                    node_entries(node),
                ).contains_key(*key) {
                    1int
                } else {
                    0int
                }),
            }),
            r.1 == (if map_of_entries(node_entries(node)).contains_key(*key) {
                Some(map_of_entries(node_entries(node))[*key])
            } else {
                None::<V>
            }),
            (match r.0 {
                Some(n) => forall|b2: nat| #![auto]
                    node_keys_bounded(node, b2) && 2 * balancer.spec_min_keys() <= b2
                        ==> node_keys_bounded(n, b2),
                None => true,
            }),
        decreases node, 1int,
    {
        let ghost g = node;
        match node {
            Node::Leaf(leaf) => {
                let mut leaf = leaf;
                let ghost old_leaf = leaf;
                let ghost es = leaf_entries(old_leaf);
                let mut i: usize = 0;
                while i < leaf.keys.len() && leaf.keys[i] != *key
                    invariant
                        leaf == old_leaf,
                        i <= leaf.keys@.len(),
                        forall|j: int| 0 <= j < i ==> leaf.keys@[j] != *key,
                    decreases leaf.keys@.len() - i,
                {
                    i += 1;
                }
                if i < leaf.keys.len() {
                    let _removed_key = leaf.keys.remove(i);
                    let removed_value = leaf.values.remove(i);
                    proof {
                        assert(es[i as int].0 == *key);
                        lemma_map_of_remove_at(es, i as int);
                        assert(leaf_entries(leaf) =~= es.remove(i as int));
                    }
                    if leaf.keys.is_empty() {
                        proof {
                            assert(leaf_entries(leaf).len() == 0);
                        }
                        return (None, Some(removed_value));
                    }
                    proof {
                        lemma_bounds_after_remove(es, leaf_entries(leaf), *key);
                    }
                    (Some(Node::Leaf(leaf)), Some(removed_value))
                } else {
                    proof {
                        assert forall|j: int|
                            0 <= j < es.len() implies (#[trigger] es[j]).0 != *key by {
                            assert(old_leaf.keys@[j] != *key);
                        }
                        lemma_map_of_absent(es, *key);
                        assert(map_of_entries(es).remove(*key) =~= map_of_entries(es));
                    }
                    (Some(Node::Leaf(leaf)), None)
                }
            },
            Node::Branch(branch) => {
                proof {
                    assert(decreases_to!(g => branch));
                }
                Self::remove_from_branch(branch, key, balancer)
            },
        }
    }

    /// The branch case of removal: descend into the routed child, drop
    /// it if it drained, then rebalance it against its left neighbour.
    #[verifier::rlimit(100)]
    #[verifier::spinoff_prover]
    fn remove_from_branch(branch: BranchNode<V>, key: &i64, balancer: &RemovalBalancer) -> (r: (
        Option<Node<V>>,
        Option<V>,
    ))
        requires
            node_wf(Node::Branch(branch)),
            balancer.spec_min_keys() >= 1,
            balancer.spec_min_keys() * 2 <= usize::MAX,
            children_entries(branch.children@).len() < usize::MAX,
        ensures
            (match r.0 {
                Some(n) => {
                    &&& node_wf(n)
                    &&& n is Branch
                    &&& map_of_entries(node_entries(n)) == map_of_entries(
                        children_entries(branch.children@),
                    ).remove(*key)
                    &&& (children_entries(branch.children@).len() >= 1 ==> node_entries(
                        n,
                    ).len() >= 1)
                    &&& node_entries(n).len() == children_entries(branch.children@).len() - (
                    if map_of_entries(children_entries(branch.children@)).contains_key(*key) {
                        1int
                    } else {
                        0int
                    })
                    &&& forall|b: i64| #![auto]
                        entries_below(children_entries(branch.children@), b) ==> entries_below(
                            node_entries(n),
                            b,
                        )
                    &&& forall|b: i64| #![auto]
                        entries_at_least(children_entries(branch.children@), b)
                            ==> entries_at_least(node_entries(n), b)
                },
                None => children_entries(branch.children@).len() == (if map_of_entries(
                    children_entries(branch.children@),
                ).contains_key(*key) {
                    1int
                } else {
                    0int
                }),
            }),
            r.1 == (if map_of_entries(children_entries(branch.children@)).contains_key(*key) {
                Some(map_of_entries(children_entries(branch.children@))[*key])
            } else {
                None::<V>
            }),
            (match r.0 {
                Some(n) => forall|b2: nat| #![auto]
                    node_keys_bounded(Node::Branch(branch), b2) && 2 * balancer.spec_min_keys()
                        <= b2 ==> node_keys_bounded(n, b2),
                None => true,
            }),
        decreases Node::Branch(branch), 0int,
    {
                let mut branch = branch;
                let ghost old_branch = branch;
                let ghost ks = old_branch.keys@;
                let ghost cs = old_branch.children@;
                let ghost old_all = children_entries(cs);
                let mut idx: usize = 0;
                while idx < branch.keys.len() && branch.keys[idx] <= *key
                    invariant
                        branch == old_branch,
                        idx <= branch.keys@.len(),
                        forall|j: int| 0 <= j < idx ==> branch.keys@[j] <= *key,
                    decreases branch.keys@.len() - idx,
                {
                    idx += 1;
                }
                let ghost i = idx as int;
                if idx < branch.children.len() {
                    let ghost pre_e = children_entries(cs.subrange(0, i));
                    let ghost mid_e = node_entries(cs[i]);
                    let ghost suf_e = children_entries(cs.subrange(i + 1, cs.len() as int));
                    proof {
                        assert(cs.len() == ks.len() + 1);
                        lemma_branch_route(ks, cs, i, *key);
                        assert(decreases_to!(old_branch => old_branch.children));
                        assert(decreases_to!(old_branch.children => cs));
                        assert(decreases_to!(cs => cs[i]));
                    }
                    let child = branch.children.remove(idx);
                    let (new_child, removed_value) = Self::remove_recursive(child, key, balancer);
                    let ghost nc_r = new_child;
                    let ghost mid2_e = (if new_child is Some {
                        node_entries(new_child.unwrap())
                    } else {
                        Seq::<(i64, V)>::empty()
                    });
                    match new_child {
                        Some(c) => {
                            proof {
                                if i >= 1 {
                                    assert(entries_at_least(mid_e, ks[i - 1]));
                                    assert(entries_at_least(node_entries(c), ks[i - 1]));
                                }
                                if i < ks.len() {
                                    assert(entries_below(mid_e, ks[i]));
                                    assert(entries_below(node_entries(c), ks[i]));
                                }
                                lemma_branch_replace_wf(ks, cs, i, c);
                                lemma_map_of_three_way_remove(
                                    pre_e,
                                    mid_e,
                                    suf_e,
                                    node_entries(c),
                                    *key,
                                );
                            }
                            branch.children.insert(idx, c);
                            proof {
                                assert(branch.children@ =~= cs.update(i, c));
                            }
                        },
                        None => {
                            proof {
                                lemma_node_wf_entries_sorted(cs[i]);
                                lemma_drained_entries(mid_e, *key);
                                assert(map_of_entries(Seq::<(i64, V)>::empty()) =~= Map::<i64,
                                    V,
                                >::empty());
                                lemma_map_of_three_way_remove(
                                    pre_e,
                                    mid_e,
                                    suf_e,
                                    Seq::<(i64, V)>::empty(),
                                    *key,
                                );
                                assert(pre_e + Seq::<(i64, V)>::empty() + suf_e =~= pre_e
                                    + suf_e);
                            }
                            if idx > 0 {
                                branch.keys.remove(idx - 1);
                                proof {
                                    assert(branch.keys@ =~= ks.remove(i - 1));
                                    assert(branch.children@ =~= cs.remove(i));
                                    lemma_branch_child_dropped(ks, cs, i);
                                    assert(children_entries(branch.children@) =~= pre_e + mid2_e
                                        + suf_e);
                                }
                            } else if !branch.keys.is_empty() {
                                branch.keys.remove(0);
                                proof {
                                    assert(branch.children@ =~= cs.subrange(1, cs.len() as int));
                                    assert(branch.keys@ =~= ks.subrange(1, ks.len() as int));
                                    crate::node_operations::lemma_branch_form_split(ks, cs, 1);
                                    assert(cs.subrange(0, 0) =~= Seq::<Node<V>>::empty());
                                    assert(pre_e =~= Seq::<(i64, V)>::empty());
                                    assert(children_entries(branch.children@) =~= pre_e + mid2_e
                                        + suf_e);
                                }
                            } else {
                                proof {
                                    assert(cs.len() == 1);
                                    assert(branch.children@ =~= Seq::<Node<V>>::empty());
                                    assert(children_entries(branch.children@) =~= Seq::<(
                                        i64,
                                        V,
                                    )>::empty());
                                    assert(cs.subrange(0, 0) =~= Seq::<Node<V>>::empty());
                                    assert(cs.subrange(1, 1) =~= Seq::<Node<V>>::empty());
                                    assert(pre_e =~= Seq::<(i64, V)>::empty());
                                    assert(suf_e =~= Seq::<(i64, V)>::empty());
                                    assert(children_entries(branch.children@) =~= pre_e + mid2_e
                                        + suf_e);
                                    assert(branch_form_wf(branch.keys@, branch.children@));
                                }
                            }
                        },
                    }
                    let ghost ks1 = branch.keys@;
                    let ghost cs1 = branch.children@;
                    let ghost bmid = branch;
                    proof {
                        assert(branch_form_wf(ks1, cs1));
                        assert(children_entries(cs1) == pre_e + mid2_e + suf_e);
                        assert(map_of_entries(children_entries(cs1)) == map_of_entries(
                            old_all,
                        ).remove(*key));
                        // a removal never grows a node: every remaining
                        // child is an old child or its shrunken
                        // replacement, and at most one separator is gone
                        assert forall|b2: nat| #![auto]
                            node_keys_bounded(Node::Branch(old_branch), b2) && 2
                                * balancer.spec_min_keys() <= b2 implies node_keys_bounded(
                            Node::Branch(bmid),
                            b2,
                        ) by {
                            assert(node_keys_bounded(cs[i], b2));
                            assert(bmid.keys@.len() <= b2);
                            assert forall|j: int|
                                0 <= j < bmid.children@.len() implies node_keys_bounded(
                                #[trigger] bmid.children@[j],
                                b2,
                            ) by {
                                match nc_r {
                                    Some(c) => {
                                        if j != i {
                                            assert(bmid.children@[j] == cs[j]);
                                        } else {
                                            assert(bmid.children@[j] == c);
                                        }
                                    },
                                    None => {
                                        if i > 0 && j < i {
                                            assert(bmid.children@[j] == cs[j]);
                                        } else {
                                            assert(bmid.children@[j] == cs[j + 1]);
                                        }
                                    },
                                }
                            }
                        }
                    }
                    // rebalance the pair (previous sibling, modified
                    // child) when that pair exists
                    if idx > 0 && idx < branch.children.len() {
                        proof {
                            assert(children_entries(cs1).len() <= old_all.len());
                        }
                        branch = Self::rebalance_pair(branch, idx, balancer);
                    }
                    proof {
                        assert(children_entries(branch.children@) == children_entries(cs1));
                    }
                    if branch.children.is_empty() {
                        proof {
                            assert(children_entries(branch.children@).len() == 0);
                        }
                        return (None, removed_value);
                    }
                    proof {
                        lemma_bounds_after_remove(
                            old_all,
                            children_entries(branch.children@),
                            *key,
                        );
                        lemma_children_entries_decompose(branch.children@, 0);
                    }
                    (Some(Node::Branch(branch)), removed_value)
                } else {
                    // the key routes past every child: it is not stored
                    proof {
                        assert(cs.len() == 0);
                        assert(old_all =~= Seq::<(i64, V)>::empty());
                        lemma_map_of_entries_dom(old_all, *key);
                        assert(map_of_entries(old_all).remove(*key) =~= map_of_entries(old_all));
                    }
                    (Some(Node::Branch(branch)), None)
                }
    }
}

impl<V> BPlusTreeMap<V> {
    /// Rebalances the adjacent pair of children left of position `idx`
    /// against the separator between them: the pair is merged, or its
    /// entries are redistributed, or it is left alone; the branch keeps
    /// exactly its entries either way.
    #[verifier::rlimit(100)]
    #[verifier::spinoff_prover]
    fn rebalance_pair(branch: BranchNode<V>, idx: usize, balancer: &RemovalBalancer) -> (r:
        BranchNode<V>)
        requires
            branch_form_wf(branch.keys@, branch.children@),
            branch.children@.len() == branch.keys@.len() + 1,
            1 <= idx < branch.children@.len(),
            balancer.spec_min_keys() >= 1,
            balancer.spec_min_keys() * 2 <= usize::MAX,
            children_entries(branch.children@).len() < usize::MAX,
        ensures
            branch_form_wf(r.keys@, r.children@),
            r.children@.len() >= 1,
            children_entries(r.children@) == children_entries(branch.children@),
            forall|b2: nat| #![auto]
                node_keys_bounded(Node::Branch(branch), b2) && 2 * balancer.spec_min_keys()
                    <= b2 ==> node_keys_bounded(Node::Branch(r), b2),
    {
        let mut branch = branch;
        let ghost old_branch = branch;
        let ghost ks1 = branch.keys@;
        let ghost cs1 = branch.children@;
        let ghost i = idx as int;
        proof {
            lemma_children_entries_decompose2(cs1, i);
            lemma_key_count_le_entries(cs1[i - 1]);
            lemma_key_count_le_entries(cs1[i]);
            assert(node_entries(cs1[i - 1]).len() + node_entries(cs1[i]).len()
                <= children_entries(cs1).len());
        }
        let left_child = branch.children.remove(idx - 1);
        let right_child = branch.children.remove(idx - 1);
        let separator = branch.keys[idx - 1];
        proof {
            assert(left_child == cs1[i - 1]);
            assert(right_child == cs1[i]);
            assert(separator == ks1[i - 1]);
        }
        match balancer.balance_nodes(left_child, right_child, separator) {
            BalanceResult::Merged(merged_node) => {
                proof {
                    lemma_branch_pair_merge_wf(ks1, cs1, i, merged_node);
                }
                branch.children.insert(idx - 1, merged_node);
                branch.keys.remove(idx - 1);
                proof {
                    assert(branch.children@ =~= cs1.subrange(0, i - 1) + seq![merged_node]
                        + cs1.subrange(i + 1, cs1.len() as int));
                    assert(branch.keys@ =~= ks1.remove(i - 1));
                }
            },
            BalanceResult::Rebalanced { left, right, separator } => {
                proof {
                    lemma_branch_pair_rebalanced_wf(ks1, cs1, i, left, right, separator);
                }
                branch.children.insert(idx - 1, right);
                branch.children.insert(idx - 1, left);
                branch.keys.set(idx - 1, separator);
                proof {
                    assert(branch.children@ =~= cs1.update(i - 1, left).update(i, right));
                    assert(branch.keys@ =~= ks1.update(i - 1, separator));
                }
            },
            BalanceResult::Split { .. } => unreached(),
            BalanceResult::NoChange(_) => unreached(),
        }
        proof {
            assert forall|b2: nat| #![auto]
                node_keys_bounded(Node::Branch(old_branch), b2) && 2 * balancer.spec_min_keys()
                    <= b2 implies node_keys_bounded(Node::Branch(branch), b2) by {
                assert(node_keys_bounded(cs1[i - 1], b2));
                assert(node_keys_bounded(cs1[i], b2));
                assert(branch.keys@.len() <= b2);
                assert forall|j: int|
                    0 <= j < branch.children@.len() implies node_keys_bounded(
                    #[trigger] branch.children@[j],
                    b2,
                ) by {
                    if branch.children@.len() == cs1.len() {
                        // a redistributed pair sits where the old pair sat
                        if j < i - 1 || j > i {
                            assert(branch.children@[j] == cs1[j]);
                        }
                    } else {
                        // the pair was merged into one node
                        if j < i - 1 {
                            assert(branch.children@[j] == cs1[j]);
                        } else if j > i - 1 {
                            assert(branch.children@[j] == cs1[j + 1]);
                        }
                    }
                }
            }
        }
        branch
    }

    /// Gets a reference to the value associated with the key.
    pub fn get(&self, key: &i64) -> (r: Option<&V>)
        requires
            self.wf(),
        ensures
            r matches Some(v) ==> self@.contains_key(*key) && *v == self@[*key],
            r is None ==> !self@.contains_key(*key),
    {
        match self.find_leaf_for_key(key) {
            Some((leaf, _)) => {
                let mut i: usize = 0;
                while i < leaf.keys.len() && leaf.keys[i] != *key
                    invariant
                        i <= leaf.keys@.len(),
                        forall|j: int| 0 <= j < i ==> leaf.keys@[j] != *key,
                    decreases leaf.keys@.len() - i,
                {
                    i += 1;
                }
                if i < leaf.keys.len() {
                    Some(&leaf.values[i])
                } else {
                    None
                }
            },
            None => None,
        }
    }

    /// Checks if a key exists in the map.
    pub fn contains_key(&self, key: &i64) -> (r: bool)
        requires
            self.wf(),
        ensures
            r <==> self@.contains_key(*key),
    {
        self.get(key).is_some()
    }

    /// Finds the leaf node that might contain the given key, with the
    /// index of the subtree it was found under. When the leaf holds the
    /// key, the whole map holds it with the leaf's value, and the other
    /// way round.
    fn find_leaf_for_key(&self, key: &i64) -> (r: Option<(&LeafNode<V>, usize)>)
        requires
            self.wf(),
        ensures
            match r {
                Some(pair) => {
                    &&& leaf_wf(*pair.0)
                    &&& (self@.contains_key(*key) ==> exists|j: int|
                        0 <= j < pair.0.keys@.len() && pair.0.keys@[j] == *key
                            && pair.0.values@[j] == self@[*key])
                    &&& forall|j: int|
                        0 <= j < pair.0.keys@.len() && #[trigger] pair.0.keys@[j] == *key
                            ==> self@.contains_key(*key) && self@[*key] == pair.0.values@[j]
                },
                None => !self@.contains_key(*key),
            },
    {
        proof {
            self.lemma_view();
        }
        match &self.root {
            None => {
                proof {
                    assert(self@ =~= Map::<i64, V>::empty());
                }
                None
            },
            Some(root) => {
                let r = Self::find_leaf_for_key_recursive(root, key);
                proof {
                    assert(self@ == map_of_entries(node_entries(*root)));
                }
                r
            },
        }
    }

    /// Recursively finds the leaf node that might contain the given key.
    fn find_leaf_for_key_recursive<'a>(node: &'a Node<V>, key: &i64) -> (r: Option<(
        &'a LeafNode<V>,
        usize,
    )>)
        requires
            node_wf(*node),
        ensures
            ({
                let m = map_of_entries(node_entries(*node));
                match r {
                    Some(pair) => {
                        &&& leaf_wf(*pair.0)
                        &&& (m.contains_key(*key) ==> exists|j: int|
                            0 <= j < pair.0.keys@.len() && pair.0.keys@[j] == *key
                                && pair.0.values@[j] == m[*key])
                        &&& forall|j: int|
                            0 <= j < pair.0.keys@.len() && #[trigger] pair.0.keys@[j] == *key
                                ==> m.contains_key(*key) && m[*key] == pair.0.values@[j]
                    },
                    None => !m.contains_key(*key),
                }
            }),
        decreases node,
    {
        match node {
            Node::Leaf(leaf) => {
                proof {
                    lemma_leaf_lookup(*leaf);
                }
                Some((leaf, 0))
            },
            Node::Branch(branch) => {
                let ghost ks = branch.keys@;
                let ghost cs = branch.children@;
                let mut idx: usize = 0;
                while idx < branch.keys.len() && branch.keys[idx] <= *key
                    invariant
                        idx <= branch.keys@.len(),
                        forall|j: int| 0 <= j < idx ==> branch.keys@[j] <= *key,
                    decreases branch.keys@.len() - idx,
                {
                    idx += 1;
                }
                let ghost i = idx as int;
                if idx < branch.children.len() {
                    proof {
                        assert(cs.len() == ks.len() + 1);
                        lemma_branch_route(ks, cs, i, *key);
                        lemma_map_of_three_way_lookup(
                            children_entries(cs.subrange(0, i)),
                            node_entries(cs[i]),
                            children_entries(cs.subrange(i + 1, cs.len() as int)),
                            *key,
                        );
                        assert(decreases_to!(cs => cs[i]));
                    }
                    match &branch.children[idx] {
                        Node::Leaf(leaf) => {
                            proof {
                                assert(node_wf(cs[i]));
                                lemma_leaf_lookup(*leaf);
                            }
                            Some((leaf, idx))
                        },
                        Node::Branch(_) => Self::find_leaf_for_key_recursive(
                            &branch.children[idx],
                            key,
                        ),
                    }
                } else {
                    proof {
                        assert(cs.len() == 0);
                        assert(children_entries(cs) =~= Seq::<(i64, V)>::empty());
                        lemma_map_of_entries_dom(children_entries(cs), *key);
                    }
                    None
                }
            },
        }
    }
}

// ---------------------------------------------------------------------------
// Bootstrap construction and bulk loading.
// ---------------------------------------------------------------------------

/// The separator a two-leaf bootstrap uses: the given key, or the right
/// leaf's first key when none is given.
pub open spec fn branch_root_separator<V>(right_leaf: LeafNode<V>, separator_key: Option<i64>) -> i64 {
    match separator_key {
        Some(k) => k,
        None => right_leaf.keys@[0],
    }
}

impl<V> BPlusTreeMap<V> {
    /// Creates a map with a branch node as root over the two given
    /// leaves. The separator defaults to the right leaf's first key; a
    /// given separator must lie between the leaves.
    pub fn with_branch_root(
        branching_factor: usize,
        left_leaf: LeafNode<V>,
        right_leaf: LeafNode<V>,
        separator_key: Option<i64>,
    ) -> (r: Result<Self, ConfigurationError>)
        requires
            leaf_wf(left_leaf),
            leaf_wf(right_leaf),
            left_leaf.keys@.len() >= 1,
            right_leaf.keys@.len() >= 1,
            left_leaf.keys@.len() + right_leaf.keys@.len() <= usize::MAX,
            entries_below(
                leaf_entries(left_leaf),
                branch_root_separator(right_leaf, separator_key),
            ),
            entries_at_least(
                leaf_entries(right_leaf),
                branch_root_separator(right_leaf, separator_key),
            ),
        ensures
            branching_factor >= 2 <==> r is Ok,
            r matches Ok(tree) ==> {
                &&& tree.wf()
                &&& tree.entry_seq() == leaf_entries(left_leaf) + leaf_entries(right_leaf)
                &&& tree@ == map_of_entries(leaf_entries(left_leaf) + leaf_entries(right_leaf))
                &&& tree.spec_branching_factor() == branching_factor
                &&& tree.root_kind_spec() is Branch
                &&& (left_leaf.keys@.len() <= branching_factor && right_leaf.keys@.len()
                    <= branching_factor ==> tree.occupancy_bounded())
            },
    {
        if branching_factor < 2 {
            return Err(ConfigurationError);
        }
        let size = left_leaf.keys.len() + right_leaf.keys.len();
        let separator = match separator_key {
            Some(key) => key,
            None => right_leaf.keys[0],
        };
        let ghost l = Node::Leaf(left_leaf);
        let ghost rn = Node::Leaf(right_leaf);
        proof {
            lemma_two_child_root(l, rn, separator);
        }
        let branch = BranchNode {
            keys: vec![separator],
            children: vec![Node::Leaf(left_leaf), Node::Leaf(right_leaf)],
        };
        proof {
            assert(branch.keys@ =~= seq![separator]);
            assert(branch.children@ =~= seq![l, rn]);
            if left_leaf.keys@.len() <= branching_factor && right_leaf.keys@.len()
                <= branching_factor {
                assert forall|j: int|
                    0 <= j < branch.children@.len() implies node_keys_bounded(
                    #[trigger] branch.children@[j],
                    branching_factor as nat,
                ) by {
                    if j == 0 {
                        assert(branch.children@[0] == l);
                    } else {
                        assert(branch.children@[1] == rn);
                    }
                }
            }
        }
        Ok(BPlusTreeMap { root: Some(Node::Branch(branch)), branching_factor, size })
    }

    /// Builds a map from a sequence of key-value pairs by inserting them
    /// in order; a later pair with the same key overwrites an earlier
    /// one, identical to repeated manual insertion.
    pub fn from_pairs(pairs: Vec<(i64, V)>) -> (tree: Self)
        requires
            pairs@.len() < usize::MAX,
        ensures
            tree.wf(),
            tree@ == map_of_entries(pairs@),
            tree.spec_branching_factor() == 4,
            tree.occupancy_bounded(),
    {
        let mut tree = Self::new();
        tree.extend_pairs(pairs);
        proof {
            assert(Map::<i64, V>::empty().union_prefer_right(map_of_entries(pairs@))
                =~= map_of_entries(pairs@));
        }
        tree
    }

    /// Inserts each pair of the sequence in order; a later pair with the
    /// same key overwrites an earlier one and any existing entry.
    pub fn extend_pairs(&mut self, pairs: Vec<(i64, V)>)
        requires
            old(self).wf(),
            old(self)@.dom().len() + pairs@.len() < usize::MAX,
        ensures
            final(self).wf(),
            final(self)@ == old(self)@.union_prefer_right(map_of_entries(pairs@)),
            final(self).spec_branching_factor() == old(self).spec_branching_factor(),
            old(self).occupancy_bounded() ==> final(self).occupancy_bounded(),
    {
        let ghost m0 = old(self)@;
        let ghost all = pairs@;
        let mut pairs = pairs;
        let mut i: usize = 0;
        proof {
            old(self).lemma_view();
            assert(all.subrange(0, 0) =~= Seq::<(i64, V)>::empty());
            assert(m0.union_prefer_right(map_of_entries(all.subrange(0, 0))) =~= m0);
        }
        while pairs.len() > 0
            invariant
                i <= all.len(),
                pairs@ == all.subrange(i as int, all.len() as int),
                self.wf(),
                self@ == m0.union_prefer_right(map_of_entries(all.subrange(0, i as int))),
                self.spec_branching_factor() == old(self).spec_branching_factor(),
                old(self).occupancy_bounded() ==> self.occupancy_bounded(),
                m0.dom().finite(),
                m0.dom().len() + all.len() < usize::MAX,
            decreases pairs@.len(),
        {
            let (k, v) = pairs.remove(0);
            proof {
                assert((k, v) == all[i as int]);
                assert(pairs@ =~= all.subrange(i as int + 1, all.len() as int));
                assert(all.subrange(0, i as int + 1).drop_last() =~= all.subrange(0, i as int));
                assert(all.subrange(0, i as int + 1).last() == all[i as int]);
                self.lemma_view();
                lemma_map_of_entries_len_bound(all.subrange(0, i as int));
                vstd::set_lib::lemma_len_union(
                    m0.dom(),
                    map_of_entries(all.subrange(0, i as int)).dom(),
                );
                assert(self@.dom() =~= m0.dom().union(
                    map_of_entries(all.subrange(0, i as int)).dom(),
                ));
            }
            self.insert(k, v);
            proof {
                assert(self@ =~= m0.union_prefer_right(
                    map_of_entries(all.subrange(0, i as int + 1)),
                ));
            }
            i += 1;
        }
        proof {
            assert(i == all.len());
            assert(all.subrange(0, all.len() as int) =~= all);
        }
    }
}

// ---------------------------------------------------------------------------
// Read-only and value-consuming traversal.
// ---------------------------------------------------------------------------

/// The number of distinct keys never exceeds the number of entries.
pub proof fn lemma_map_of_entries_len_bound<V>(s: Seq<(i64, V)>)
    ensures
        map_of_entries(s).dom().finite(),
        map_of_entries(s).dom().len() <= s.len(),
    decreases s.len(),
{
    lemma_map_of_entries_finite(s);
    if s.len() > 0 {
        lemma_map_of_entries_len_bound(s.drop_last());
        vstd::set::axiom_set_insert_len(map_of_entries(s.drop_last()).dom(), s.last().0);
        assert(map_of_entries(s).dom() =~= map_of_entries(s.drop_last()).dom().insert(
            s.last().0,
        ));
    }
}

impl<V> BPlusTreeMap<V> {
    /// Collects the key-value pairs of the tree in ascending key order,
    /// keys copied and values borrowed.
    pub fn collect_refs<'a>(&'a self) -> (r: Vec<(i64, &'a V)>)
        requires
            self.wf(),
        ensures
            r@.len() == self.entry_seq().len(),
            forall|j: int|
                0 <= j < r@.len() ==> (#[trigger] r@[j]).0 == self.entry_seq()[j].0
                    && *r@[j].1 == self.entry_seq()[j].1,
    {
        let mut entries: Vec<(i64, &'a V)> = Vec::new();
        match &self.root {
            None => {},
            Some(root) => {
                Self::collect_refs_from_node(root, &mut entries);
                proof {
                    assert forall|j: int|
                        0 <= j < entries@.len() implies (#[trigger] entries@[j]).0
                        == self.entry_seq()[j].0 && *entries@[j].1 == self.entry_seq()[j].1 by {
                        assert(entries@[0 + j] == entries@[j]);
                    }
                }
            },
        }
        entries
    }

    /// Recursively collects borrowed key-value pairs from a subtree,
    /// leaves left to right.
    fn collect_refs_from_node<'a>(node: &'a Node<V>, entries: &mut Vec<(i64, &'a V)>)
        requires
            node_wf(*node),
        ensures
            final(entries)@.len() == old(entries)@.len() + node_entries(*node).len(),
            forall|j: int|
                0 <= j < old(entries)@.len() ==> final(entries)@[j] == #[trigger] old(
                    entries,
                )@[j],
            forall|j: int|
                0 <= j < node_entries(*node).len() ==> (#[trigger] final(entries)@[old(
                    entries,
                )@.len() + j]).0 == node_entries(*node)[j].0 && *final(entries)@[old(
                    entries,
                )@.len() + j].1 == node_entries(*node)[j].1,
        decreases node,
    {
        match node {
            Node::Leaf(leaf) => {
                let ghost base = entries@;
                let mut i: usize = 0;
                while i < leaf.keys.len()
                    invariant
                        node_wf(*node),
                        *node == Node::Leaf(*leaf),
                        i <= leaf.keys@.len(),
                        entries@.len() == base.len() + i,
                        forall|j: int| 0 <= j < base.len() ==> entries@[j] == #[trigger] base[j],
                        forall|j: int|
                            0 <= j < i ==> (#[trigger] entries@[base.len() + j]).0
                                == leaf.keys@[j] && *entries@[base.len() + j].1
                                == leaf.values@[j],
                    decreases leaf.keys@.len() - i,
                {
                    entries.push((leaf.keys[i], &leaf.values[i]));
                    i += 1;
                }
            },
            Node::Branch(branch) => {
                let ghost base = entries@;
                let ghost cs = branch.children@;
                let mut i: usize = 0;
                proof {
                    assert(cs.subrange(0, 0) =~= Seq::<Node<V>>::empty());
                }
                while i < branch.children.len()
                    invariant
                        node_wf(*node),
                        *node == Node::Branch(*branch),
                        cs == branch.children@,
                        i <= cs.len(),
                        entries@.len() == base.len() + children_entries(
                            cs.subrange(0, i as int),
                        ).len(),
                        forall|j: int| 0 <= j < base.len() ==> entries@[j] == #[trigger] base[j],
                        forall|j: int|
                            0 <= j < children_entries(cs.subrange(0, i as int)).len() ==> (
                            #[trigger] entries@[base.len() + j]).0 == children_entries(
                                cs.subrange(0, i as int),
                            )[j].0 && *entries@[base.len() + j].1 == children_entries(
                                cs.subrange(0, i as int),
                            )[j].1,
                    decreases cs.len() - i,
                {
                    proof {
                        assert(decreases_to!(*node => *branch));
                        assert(decreases_to!(*branch => branch.children));
                        assert(decreases_to!(branch.children => cs));
                        assert(decreases_to!(cs => cs[i as int]));
                    }
                    let ghost before = entries@;
                    Self::collect_refs_from_node(&branch.children[i], entries);
                    proof {
                        lemma_children_entries_split(cs.subrange(0, i as int + 1), i as int);
                        assert(cs.subrange(0, i as int + 1).subrange(0, i as int)
                            =~= cs.subrange(0, i as int));
                        assert(cs.subrange(0, i as int + 1).subrange(i as int, i as int + 1)
                            =~= seq![cs[i as int]]);
                        lemma_children_entries_singleton(cs[i as int]);
                        let pre = children_entries(cs.subrange(0, i as int));
                        let mid = node_entries(cs[i as int]);
                        assert(children_entries(cs.subrange(0, i as int + 1)) == pre + mid);
                        assert forall|j: int|
                            0 <= j < (pre + mid).len() implies (#[trigger] entries@[base.len()
                            + j]).0 == (pre + mid)[j].0 && *entries@[base.len() + j].1 == (pre
                            + mid)[j].1 by {
                            if j < pre.len() {
                                assert(entries@[base.len() + j] == before[base.len() + j]);
                            } else {
                                assert(entries@[before.len() + (j - pre.len())] == entries@[
                                    base.len() + j]);
                            }
                        }
                    }
                    i += 1;
                }
                proof {
                    assert(cs.subrange(0, cs.len() as int) =~= cs);
                }
            },
        }
    }

    /// Moves every key-value pair of a subtree into the vector, leaves
    /// left to right; the subtree is consumed.
    #[verifier::loop_isolation(false)]
    pub fn collect_entries(node: Node<V>, entries: &mut Vec<(i64, V)>)
        requires
            node_wf(node),
        ensures
            final(entries)@ == old(entries)@ + node_entries(node),
        decreases node,
    {
        let ghost g = node;
        match node {
            Node::Leaf(leaf) => {
                let mut leaf = leaf;
                let ghost le = leaf_entries(leaf);
                let ghost base = entries@;
                let ghost mut i: int = 0;
                while leaf.keys.len() > 0
                    invariant
                        0 <= i <= le.len(),
                        leaf.keys@.len() == leaf.values@.len(),
                        leaf.keys@.len() == le.len() - i,
                        leaf_entries(leaf) == le.subrange(i as int, le.len() as int),
                        entries@ == base + le.subrange(0, i as int),
                    decreases leaf.keys@.len(),
                {
                    let ghost prev = leaf;
                    let k = leaf.keys.remove(0);
                    let v = leaf.values.remove(0);
                    proof {
                        assert(leaf_entries(prev)[0] == (k, v));
                        assert((k, v) == le[i as int]);
                        assert forall|t: int|
                            0 <= t < leaf_entries(leaf).len() implies #[trigger] leaf_entries(
                            leaf,
                        )[t] == le[i + 1 + t] by {
                            assert(leaf_entries(leaf)[t] == (prev.keys@[t + 1], prev.values@[t
                                + 1]));
                            assert(leaf_entries(prev)[t + 1] == le.subrange(
                                i as int,
                                le.len() as int,
                            )[t + 1]);
                        }
                        assert(leaf_entries(leaf) =~= le.subrange(i as int + 1, le.len() as int));
                    }
                    entries.push((k, v));
                    proof {
                        assert(entries@ =~= base + le.subrange(0, i as int + 1));
                    }
                    proof {
                        i = i + 1;
                    }
                }
                proof {
                    assert(le.subrange(0, le.len() as int) =~= le);
                    assert(entries@ =~= base + le);
                }
            },
            Node::Branch(branch) => {
                let mut branch = branch;
                let ghost ob = branch;
                let ghost cs = ob.children@;
                let ghost base = entries@;
                proof {
                    assert(cs.subrange(0, 0) =~= Seq::<Node<V>>::empty());
                }
                let ghost mut i: int = 0;
                proof {
                    assert(decreases_to!(g => ob));
                }
                while branch.children.len() > 0
                    invariant
                        0 <= i <= cs.len(),
                        branch.children@ == cs.subrange(i as int, cs.len() as int),
                        forall|j: int| 0 <= j < cs.len() ==> node_wf(#[trigger] cs[j]),
                        entries@ == base + children_entries(cs.subrange(0, i as int)),
                        g == Node::Branch(ob),
                        cs == ob.children@,
                        decreases_to!(g => ob),
                    decreases cs.len() - i,
                {
                    let c = branch.children.remove(0);
                    proof {
                        assert(c == cs.subrange(i as int, cs.len() as int)[0]);
                        assert(c == cs[i as int]);
                        assert(branch.children@ =~= cs.subrange(i as int + 1, cs.len() as int));
                        assert(decreases_to!(ob => ob.children));
                        assert(decreases_to!(ob.children => cs));
                        assert(decreases_to!(cs => cs[i as int]));
                    }
                    Self::collect_entries(c, entries);
                    proof {
                        lemma_children_entries_split(cs.subrange(0, i as int + 1), i as int);
                        assert(cs.subrange(0, i as int + 1).subrange(0, i as int)
                            =~= cs.subrange(0, i as int));
                        assert(cs.subrange(0, i as int + 1).subrange(i as int, i as int + 1)
                            =~= seq![cs[i as int]]);
                        lemma_children_entries_singleton(cs[i as int]);
                        assert(entries@ =~= base + children_entries(
                            cs.subrange(0, i as int + 1),
                        ));
                        i = i + 1;
                    }
                }
                proof {
                    assert(cs.subrange(0, cs.len() as int) =~= cs);
                }
            },
        }
    }
}

// ---------------------------------------------------------------------------
// Iterators. Each walks a vector of already-collected entries; calling
// `next` repeatedly on an unmodified tree's iterator always yields the
// same ascending order.
// ---------------------------------------------------------------------------

/// A common base iterator for all the map's iterators: it hands out the
/// collected entries first to last.
pub struct TreeIterator<T> {
    entries: Vec<T>,
}

impl<T> TreeIterator<T> {
    /// The entries still to be handed out, in order.
    pub closed spec fn remaining(self) -> Seq<T> {
        self.entries@
    }

    /// Creates a new iterator over the given entries.
    pub fn new(entries: Vec<T>) -> (it: Self)
        ensures
            it.remaining() == entries@,
    {
        Self { entries }
    }

    /// Hands out the next entry, or nothing when the entries ran out.
    pub fn next(&mut self) -> (x: Option<T>)
        ensures
            old(self).remaining().len() == 0 ==> x is None && final(self).remaining()
                == old(self).remaining(),
            old(self).remaining().len() > 0 ==> x == Some(old(self).remaining()[0])
                && final(self).remaining() == old(self).remaining().drop_first(),
    {
        if self.entries.len() > 0 {
            let x = self.entries.remove(0);
            proof {
                assert(self.entries@ =~= old(self).remaining().drop_first());
            }
            Some(x)
        } else {
            None
        }
    }
}

/// An owning iterator over the entries of a `BPlusTreeMap`.
pub struct IntoIter<V> {
    inner: TreeIterator<(i64, V)>,
}

impl<V> IntoIter<V> {
    /// The entries still to be handed out, in order.
    pub closed spec fn remaining(self) -> Seq<(i64, V)> {
        self.inner.remaining()
    }

    /// Hands out the next owned key-value pair.
    pub fn next(&mut self) -> (x: Option<(i64, V)>)
        ensures
            old(self).remaining().len() == 0 ==> x is None && final(self).remaining()
                == old(self).remaining(),
            old(self).remaining().len() > 0 ==> x == Some(old(self).remaining()[0])
                && final(self).remaining() == old(self).remaining().drop_first(),
    {
        self.inner.next()
    }
}

/// A borrowing iterator over the entries of a `BPlusTreeMap`.
pub struct Iter<'a, V> {
    inner: TreeIterator<(i64, &'a V)>,
}

impl<'a, V> Iter<'a, V> {
    /// The entries still to be handed out, in order.
    pub closed spec fn remaining(self) -> Seq<(i64, &'a V)> {
        self.inner.remaining()
    }

    /// Hands out the next key and borrowed value.
    pub fn next(&mut self) -> (x: Option<(i64, &'a V)>)
        ensures
            old(self).remaining().len() == 0 ==> x is None && final(self).remaining()
                == old(self).remaining(),
            old(self).remaining().len() > 0 ==> x == Some(old(self).remaining()[0])
                && final(self).remaining() == old(self).remaining().drop_first(),
    {
        self.inner.next()
    }
}

/// An iterator over the keys of a `BPlusTreeMap`.
pub struct Keys {
    inner: TreeIterator<i64>,
}

impl Keys {
    /// The keys still to be handed out, in order.
    pub closed spec fn remaining(self) -> Seq<i64> {
        self.inner.remaining()
    }

    /// Hands out the next key.
    pub fn next(&mut self) -> (x: Option<i64>)
        ensures
            old(self).remaining().len() == 0 ==> x is None && final(self).remaining()
                == old(self).remaining(),
            old(self).remaining().len() > 0 ==> x == Some(old(self).remaining()[0])
                && final(self).remaining() == old(self).remaining().drop_first(),
    {
        self.inner.next()
    }
}

/// An iterator over the values of a `BPlusTreeMap`.
pub struct Values<'a, V> {
    inner: TreeIterator<&'a V>,
}

impl<'a, V> Values<'a, V> {
    /// The values still to be handed out, in ascending order of their
    /// keys.
    pub closed spec fn remaining(self) -> Seq<&'a V> {
        self.inner.remaining()
    }

    /// Hands out the next borrowed value.
    pub fn next(&mut self) -> (x: Option<&'a V>)
        ensures
            old(self).remaining().len() == 0 ==> x is None && final(self).remaining()
                == old(self).remaining(),
            old(self).remaining().len() > 0 ==> x == Some(old(self).remaining()[0])
                && final(self).remaining() == old(self).remaining().drop_first(),
    {
        self.inner.next()
    }
}

impl<V> BPlusTreeMap<V> {
    /// Returns an iterator over the key-value pairs of the map, in
    /// ascending order by key, values borrowed.
    pub fn iter<'a>(&'a self) -> (it: Iter<'a, V>)
        requires
            self.wf(),
        ensures
            it.remaining().len() == self.entry_seq().len(),
            forall|j: int|
                0 <= j < it.remaining().len() ==> (#[trigger] it.remaining()[j]).0
                    == self.entry_seq()[j].0 && *it.remaining()[j].1 == self.entry_seq()[j].1,
    {
        let entries = self.collect_refs();
        Iter { inner: TreeIterator::new(entries) }
    }

    /// Returns an iterator over the keys of the map, in ascending order.
    pub fn keys(&self) -> (it: Keys)
        requires
            self.wf(),
        ensures
            it.remaining().len() == self.entry_seq().len(),
            forall|j: int|
                0 <= j < it.remaining().len() ==> #[trigger] it.remaining()[j]
                    == self.entry_seq()[j].0,
    {
        let entries = self.collect_refs();
        let mut keys: Vec<i64> = Vec::new();
        let mut i: usize = 0;
        while i < entries.len()
            invariant
                i <= entries@.len(),
                keys@.len() == i,
                forall|j: int| 0 <= j < i ==> #[trigger] keys@[j] == entries@[j].0,
            decreases entries@.len() - i,
        {
            keys.push(entries[i].0);
            i += 1;
        }
        Keys { inner: TreeIterator::new(keys) }
    }

    /// Returns an iterator over the values of the map, in ascending
    /// order by key.
    pub fn values<'a>(&'a self) -> (it: Values<'a, V>)
        requires
            self.wf(),
        ensures
            it.remaining().len() == self.entry_seq().len(),
            forall|j: int|
                0 <= j < it.remaining().len() ==> *(#[trigger] it.remaining()[j])
                    == self.entry_seq()[j].1,
    {
        let entries = self.collect_refs();
        let mut values: Vec<&'a V> = Vec::new();
        let mut i: usize = 0;
        while i < entries.len()
            invariant
                i <= entries@.len(),
                values@.len() == i,
                forall|j: int| 0 <= j < i ==> #[trigger] values@[j] == entries@[j].1,
            decreases entries@.len() - i,
        {
            values.push(entries[i].1);
            i += 1;
        }
        proof {
            assert forall|j: int|
                0 <= j < values@.len() implies *(#[trigger] values@[j])
                == self.entry_seq()[j].1 by {
                assert(values@[j] == entries@[j].1);
            }
        }
        Values { inner: TreeIterator::new(values) }
    }

    /// Consumes the map and returns an owning iterator over its entries,
    /// in ascending order by key.
    pub fn into_iter(self) -> (it: IntoIter<V>)
        requires
            self.wf(),
        ensures
            it.remaining() == self.entry_seq(),
    {
        let mut entries: Vec<(i64, V)> = Vec::new();
        match self.root {
            None => {},
            Some(root) => {
                Self::collect_entries(root, &mut entries);
                proof {
                    assert(entries@ =~= self.entry_seq());
                }
            },
        }
        IntoIter { inner: TreeIterator::new(entries) }
    }
}

// ---------------------------------------------------------------------------
// Laws the library guarantees, stated over the views its contracts use.
// ---------------------------------------------------------------------------

impl<V> BPlusTreeMap<V> {
    /// Order: for any well-formed tree and any two positions of its
    /// traversal, the earlier entry's key is strictly smaller; hence for
    /// two present keys k1 < k2, a full traversal yields k1's entry
    /// strictly before k2's.
    pub proof fn lemma_traversal_order(self, i: int, j: int)
        requires
            self.wf(),
            0 <= i < j < self.entry_seq().len(),
        ensures
            self.entry_seq()[i].0 < self.entry_seq()[j].0,
    {
        self.lemma_view();
    }

    /// Every present key appears in the traversal, exactly once, with
    /// its value.
    pub proof fn lemma_traversal_complete(self)
        requires
            self.wf(),
        ensures
            self@.dom().len() == self.entry_seq().len(),
            forall|i: int|
                0 <= i < self.entry_seq().len() ==> self@.contains_key(
                    (#[trigger] self.entry_seq()[i]).0,
                ) && self@[self.entry_seq()[i].0] == self.entry_seq()[i].1,
            forall|k: i64|
                self@.contains_key(k) ==> exists|i: int|
                    0 <= i < self.entry_seq().len() && self.entry_seq()[i].0 == k,
    {
        self.lemma_view();
    }
}

/// Round trip: inserting (k, v) into any map makes `get` yield v; a
/// subsequent remove yields v again, after which the key is gone and the
/// key count has dropped back by exactly one.
pub proof fn lemma_round_trip<V>(m: Map<i64, V>, k: i64, v: V)
    requires
        m.dom().finite(),
    ensures
        m.insert(k, v).contains_key(k),
        m.insert(k, v)[k] == v,
        m.insert(k, v).remove(k) == m.remove(k),
        !m.insert(k, v).remove(k).contains_key(k),
        m.insert(k, v).remove(k).dom().len() == m.insert(k, v).dom().len() - 1,
{
    assert(m.insert(k, v).remove(k) =~= m.remove(k));
    vstd::set::axiom_set_insert_len(m.dom(), k);
    assert(m.insert(k, v).dom() =~= m.dom().insert(k));
    assert(m.insert(k, v).remove(k).dom() =~= m.dom().insert(k).remove(k));
    vstd::set::axiom_set_remove_len(m.dom().insert(k), k);
}

/// Overwrite idempotence: inserting v2 over v1 at the same key leaves
/// every other key alone and the key count unchanged; the map reports v1
/// as the prior value at the second insert.
pub proof fn lemma_overwrite<V>(m: Map<i64, V>, k: i64, v1: V, v2: V)
    requires
        m.dom().finite(),
    ensures
        m.insert(k, v1).contains_key(k),
        m.insert(k, v1)[k] == v1,
        m.insert(k, v1).insert(k, v2) == m.insert(k, v2),
        m.insert(k, v1).insert(k, v2).dom().len() == m.insert(k, v1).dom().len(),
{
    assert(m.insert(k, v1).insert(k, v2) =~= m.insert(k, v2));
    vstd::set::axiom_set_insert_len(m.dom(), k);
    assert(m.insert(k, v1).dom() =~= m.dom().insert(k));
    assert(m.insert(k, v2).dom() =~= m.dom().insert(k));
}

/// Removal preserves the rest: for any insert-then-remove history the
/// surviving entries are the inserted ones minus the removed keys; here
/// for one step, every key other than the removed one keeps its value.
pub proof fn lemma_remove_preserves_rest<V>(m: Map<i64, V>, k: i64, k2: i64)
    requires
        k2 != k,
    ensures
        m.remove(k).contains_key(k2) <==> m.contains_key(k2),
        m.contains_key(k2) ==> m.remove(k)[k2] == m[k2],
{
}

// ---------------------------------------------------------------------------
// The entry API. An entry records a key and whether it was present when
// `entry` was called; its methods are handed the map back and resolve
// everything through `get`, `insert` and `remove` — they perform no tree
// descent of their own.
// ---------------------------------------------------------------------------

/// A view into a single entry in a map, which is either occupied or
/// vacant.
pub enum Entry<V> {
    /// An occupied entry.
    Occupied(OccupiedEntry<V>),
    /// A vacant entry.
    Vacant(VacantEntry<V>),
}

/// A view into an occupied entry: the key was present when the entry
/// was made.
pub struct OccupiedEntry<V> {
    key: i64,
    marker: core::marker::PhantomData<V>,
}

/// A view into a vacant entry: the key was absent when the entry was
/// made.
pub struct VacantEntry<V> {
    key: i64,
    marker: core::marker::PhantomData<V>,
}

impl<V> Entry<V> {
    /// The key this entry is about.
    pub open spec fn spec_key(self) -> i64 {
        match self {
            Entry::Occupied(e) => e.spec_key(),
            Entry::Vacant(e) => e.spec_key(),
        }
    }

    /// An entry is in step with a map when its variant reflects whether
    /// the map holds its key.
    pub open spec fn in_step_with(self, m: Map<i64, V>) -> bool {
        m.contains_key(self.spec_key()) <==> self is Occupied
    }

    /// Returns a reference to this entry's key.
    pub fn key(&self) -> (k: i64)
        ensures
            k == self.spec_key(),
    {
        match self {
            Entry::Occupied(e) => e.key(),
            Entry::Vacant(e) => e.key(),
        }
    }

    /// Ensures a value is in the entry's slot of the map by inserting
    /// the default if the entry is vacant.
    pub fn or_insert(self, map: &mut BPlusTreeMap<V>, default: V)
        requires
            old(map).wf(),
            self.in_step_with(old(map)@),
            old(map)@.dom().len() < usize::MAX,
        ensures
            final(map).wf(),
            final(map).spec_branching_factor() == old(map).spec_branching_factor(),
            final(map)@ == (if self is Vacant {
                old(map)@.insert(self.spec_key(), default)
            } else {
                old(map)@
            }),
    {
        match self {
            Entry::Occupied(_) => {},
            Entry::Vacant(entry) => {
                entry.insert(map, default);
            },
        }
    }

    /// Ensures a value is in the entry's slot of the map by inserting
    /// the result of the default function if the entry is vacant.
    pub fn or_insert_with<F: FnOnce() -> V>(self, map: &mut BPlusTreeMap<V>, default: F)
        requires
            old(map).wf(),
            self.in_step_with(old(map)@),
            old(map)@.dom().len() < usize::MAX,
            default.requires(()),
        ensures
            final(map).wf(),
            final(map).spec_branching_factor() == old(map).spec_branching_factor(),
            self is Occupied ==> final(map)@ == old(map)@,
            self is Vacant ==> exists|v: V|
                #[trigger] default.ensures((), v) && final(map)@ == old(map)@.insert(
                    self.spec_key(),
                    v,
                ),
    {
        match self {
            Entry::Occupied(_) => {},
            Entry::Vacant(entry) => {
                let value = default();
                entry.insert(map, value);
            },
        }
    }

    /// Ensures a value is in the entry's slot of the map by inserting,
    /// if the entry is vacant, a value derived from the key.
    pub fn or_insert_with_key<F: FnOnce(i64) -> V>(self, map: &mut BPlusTreeMap<V>, default: F)
        requires
            old(map).wf(),
            self.in_step_with(old(map)@),
            old(map)@.dom().len() < usize::MAX,
            default.requires((self.spec_key(),)),
        ensures
            final(map).wf(),
            final(map).spec_branching_factor() == old(map).spec_branching_factor(),
            self is Occupied ==> final(map)@ == old(map)@,
            self is Vacant ==> exists|v: V|
                #[trigger] default.ensures((self.spec_key(),), v) && final(map)@ == old(
                    map,
                )@.insert(self.spec_key(), v),
    {
        match self {
            Entry::Occupied(_) => {},
            Entry::Vacant(entry) => {
                let value = default(entry.key());
                entry.insert(map, value);
            },
        }
    }

    /// Applies the function to the value in place if the entry is
    /// occupied, before any potential insert; hands the entry back for
    /// chaining.
    pub fn and_modify<F: FnOnce(V) -> V>(self, map: &mut BPlusTreeMap<V>, f: F) -> (r: Entry<V>)
        requires
            old(map).wf(),
            self.in_step_with(old(map)@),
            old(map)@.dom().len() < usize::MAX,
            forall|v: V| self is Occupied ==> f.requires((v,)),
        ensures
            final(map).wf(),
            final(map).spec_branching_factor() == old(map).spec_branching_factor(),
            r == self,
            r.in_step_with(final(map)@),
            self is Vacant ==> final(map)@ == old(map)@,
            self is Occupied ==> exists|v2: V|
                #[trigger] f.ensures((old(map)@[self.spec_key()],), v2) && final(map)@ == old(
                    map,
                )@.insert(self.spec_key(), v2),
    {
        match self {
            Entry::Occupied(entry) => {
                let k = entry.key();
                let value = match map.remove(&k) {
                    Some(value) => value,
                    None => unreached(),
                };
                let new_value = f(value);
                map.insert(k, new_value);
                proof {
                    assert(final(map)@ =~= old(map)@.insert(k, new_value));
                }
                Entry::Occupied(entry)
            },
            Entry::Vacant(entry) => Entry::Vacant(entry),
        }
    }
}

impl<V> OccupiedEntry<V> {
    /// The key this entry is about.
    pub closed spec fn spec_key(self) -> i64 {
        self.key
    }

    /// Gets the key of the entry.
    pub fn key(&self) -> (k: i64)
        ensures
            k == self.spec_key(),
    {
        self.key
    }

    /// Gets a reference to the value in the entry.
    pub fn get<'a>(&self, map: &'a BPlusTreeMap<V>) -> (v: &'a V)
        requires
            map.wf(),
            map@.contains_key(self.spec_key()),
        ensures
            *v == map@[self.spec_key()],
    {
        match map.get(&self.key) {
            Some(v) => v,
            None => unreached(),
        }
    }

    /// Sets the value of the entry, returning the prior value.
    pub fn insert(&self, map: &mut BPlusTreeMap<V>, value: V) -> (old_value: V)
        requires
            old(map).wf(),
            old(map)@.contains_key(self.spec_key()),
        ensures
            final(map).wf(),
            final(map).spec_branching_factor() == old(map).spec_branching_factor(),
            final(map)@ == old(map)@.insert(self.spec_key(), value),
            old_value == old(map)@[self.spec_key()],
    {
        match map.insert(self.key, value) {
            Some(old_value) => old_value,
            None => unreached(),
        }
    }

    /// Takes the value out of the entry and returns it.
    pub fn remove(self, map: &mut BPlusTreeMap<V>) -> (value: V)
        requires
            old(map).wf(),
            old(map)@.contains_key(self.spec_key()),
            old(map)@.dom().len() < usize::MAX,
        ensures
            final(map).wf(),
            final(map).spec_branching_factor() == old(map).spec_branching_factor(),
            final(map)@ == old(map)@.remove(self.spec_key()),
            value == old(map)@[self.spec_key()],
    {
        match map.remove(&self.key) {
            Some(value) => value,
            None => unreached(),
        }
    }
}

impl<V> VacantEntry<V> {
    /// The key this entry is about.
    pub closed spec fn spec_key(self) -> i64 {
        self.key
    }

    /// Gets the key that would be used when inserting through this
    /// entry.
    pub fn key(&self) -> (k: i64)
        ensures
            k == self.spec_key(),
    {
        self.key
    }

    /// Sets the value of the entry's key.
    pub fn insert(self, map: &mut BPlusTreeMap<V>, value: V)
        requires
            old(map).wf(),
            old(map)@.dom().len() < usize::MAX,
        ensures
            final(map).wf(),
            final(map).spec_branching_factor() == old(map).spec_branching_factor(),
            final(map)@ == old(map)@.insert(self.spec_key(), value),
    {
        map.insert(self.key, value);
    }
}

impl<V> BPlusTreeMap<V> {
    /// Gets the given key's corresponding entry in the map, for
    /// manipulation without repeated lookups.
    pub fn entry(&self, key: i64) -> (e: Entry<V>)
        requires
            self.wf(),
        ensures
            e.spec_key() == key,
            e.in_step_with(self@),
    {
        if self.contains_key(&key) {
            Entry::Occupied(OccupiedEntry { key, marker: core::marker::PhantomData })
        } else {
            Entry::Vacant(VacantEntry { key, marker: core::marker::PhantomData })
        }
    }
}

// ---------------------------------------------------------------------------
// The visitor: a depth-first walk, branch before children, children left
// to right; values surface only from the leaves.
// ---------------------------------------------------------------------------

/// A visitor over the nodes of the tree. The trait puts no contract on
/// its methods — a visitor is free code supplied from outside — so
/// nothing is specified about what a walk computes; the specified ways
/// to read the tree are `iter`, `keys`, `values`, `collect_refs` and
/// `into_iter`.
pub trait NodeVisitor<V> {
    /// The kind of result the visitor accumulates.
    type Result;

    /// Visit a leaf node.
    fn visit_leaf(&mut self, leaf: &LeafNode<V>);

    /// Visit a branch node.
    fn visit_branch(&mut self, branch: &BranchNode<V>);

    /// Hand out the accumulated result.
    fn result(self) -> Self::Result where Self: Sized;
}

impl<V> BPlusTreeMap<V> {
    /// Walks the tree depth-first with the given visitor.
    pub fn accept<Visitor: NodeVisitor<V>>(&self, visitor: &mut Visitor) {
        match &self.root {
            None => {},
            Some(root) => {
                Self::accept_node(root, visitor);
            },
        }
    }

    /// Walks a subtree depth-first with the given visitor: the branch
    /// first, then its children left to right.
    #[verifier::loop_isolation(false)]
    fn accept_node<Visitor: NodeVisitor<V>>(node: &Node<V>, visitor: &mut Visitor)
        decreases node,
    {
        match node {
            Node::Leaf(leaf) => {
                visitor.visit_leaf(leaf);
            },
            Node::Branch(branch) => {
                visitor.visit_branch(branch);
                let ghost cs = branch.children@;
                let mut i: usize = 0;
                while i < branch.children.len()
                    invariant
                        cs == branch.children@,
                    decreases cs.len() - i,
                {
                    proof {
                        assert(decreases_to!(cs => cs[i as int]));
                    }
                    Self::accept_node(&branch.children[i], visitor);
                    i += 1;
                }
            },
        }
    }
}

/// A visitor that collects the key-value pairs it sees in the leaves,
/// values cloned.
pub struct CollectingVisitor<V> {
    results: Vec<(i64, V)>,
}

impl<V: Clone> CollectingVisitor<V> {
    /// The pairs collected so far.
    pub closed spec fn collected(self) -> Seq<(i64, V)> {
        self.results@
    }

    /// Creates a new collecting visitor with nothing collected yet.
    pub fn new() -> (s: Self)
        ensures
            s.collected().len() == 0,
    {
        Self { results: Vec::new() }
    }
}

impl<V: Clone> NodeVisitor<V> for CollectingVisitor<V> {
    type Result = Vec<(i64, V)>;

    fn visit_leaf(&mut self, leaf: &LeafNode<V>) {
        let mut i: usize = 0;
        while i < leaf.keys.len() && i < leaf.values.len()
            decreases leaf.keys@.len() - i,
        {
            self.results.push((leaf.keys[i], leaf.values[i].clone()));
            i += 1;
        }
    }

    fn visit_branch(&mut self, _branch: &BranchNode<V>) {
    }

    fn result(self) -> Self::Result {
        self.results
    }
}

impl<V> Default for BPlusTreeMap<V> {
    /// An empty map with the default branching factor of 4.
    fn default() -> (tree: Self)
        ensures
            tree.wf(),
            tree@ == Map::<i64, V>::empty(),
            tree.spec_branching_factor() == 4,
            tree.root_kind_spec() is Empty,
            tree.occupancy_bounded(),
    {
        Self::new()
    }
}

// ---------------------------------------------------------------------------
// The write-back full scan: values are replaced wholesale, in ascending
// key order, which stands in for handing out one live accessor per
// stored value.
// ---------------------------------------------------------------------------

/// An entry run with its values replaced, in order, by the given ones.
pub open spec fn with_values<V>(s: Seq<(i64, V)>, vs: Seq<V>) -> Seq<(i64, V)> {
    Seq::new(s.len(), |j: int| (s[j].0, vs[j]))
}

/// Replacing values distributes over concatenation of entry runs.
pub proof fn lemma_with_values_concat<V>(a: Seq<(i64, V)>, b: Seq<(i64, V)>, vs: Seq<V>)
    requires
        a.len() + b.len() <= vs.len(),
    ensures
        with_values(a + b, vs.subrange(0, a.len() + b.len() as int)) == with_values(
            a,
            vs.subrange(0, a.len() as int),
        ) + with_values(b, vs.subrange(a.len() as int, a.len() + b.len() as int)),
{
    assert(with_values(a + b, vs.subrange(0, a.len() + b.len() as int)) =~= with_values(
        a,
        vs.subrange(0, a.len() as int),
    ) + with_values(b, vs.subrange(a.len() as int, a.len() + b.len() as int)));
}

impl<V> BPlusTreeMap<V> {
    /// Replaces every stored value, in ascending key order, with the
    /// next value of the given vector, and returns the prior values in
    /// that same order. The keys and the tree shape stay untouched.
    pub fn replace_values(&mut self, new_values: Vec<V>) -> (old_values: Vec<V>)
        requires
            old(self).wf(),
            new_values@.len() == old(self).entry_seq().len(),
        ensures
            final(self).wf(),
            final(self).spec_branching_factor() == old(self).spec_branching_factor(),
            final(self).entry_seq() == with_values(old(self).entry_seq(), new_values@),
            old_values@ == old(self).entry_seq().map_values(|p: (i64, V)| p.1),
    {
        let mut new_values = new_values;
        let mut old_values: Vec<V> = Vec::new();
        match self.root.take() {
            None => {
                proof {
                    assert(final(self).entry_seq() =~= with_values(
                        old(self).entry_seq(),
                        new_values@,
                    ));
                    assert(old_values@ =~= old(self).entry_seq().map_values(
                        |p: (i64, V)| p.1,
                    ));
                }
            },
            Some(root) => {
                let ghost nv_all = new_values@;
                let new_root = Self::replace_in_node(root, &mut new_values, &mut old_values);
                self.root = Some(new_root);
                proof {
                    assert(nv_all.subrange(0, node_entries(root).len() as int) =~= nv_all);
                    assert(node_entries(new_root) == with_values(
                        old(self).entry_seq(),
                        nv_all,
                    ));
                }
            },
        }
        old_values
    }

    /// Replaces the values of a subtree, leaves left to right, from the
    /// front of `new_vals`, pushing the prior values onto `old_out`.
    #[verifier::rlimit(100)]
    #[verifier::spinoff_prover]
    #[verifier::loop_isolation(false)]
    fn replace_in_node(node: Node<V>, new_vals: &mut Vec<V>, old_out: &mut Vec<V>) -> (r: Node<
        V,
    >)
        requires
            node_wf(node),
            node_entries(node).len() <= old(new_vals)@.len(),
        ensures
            node_wf(r),
            node_entries(r) == with_values(
                node_entries(node),
                old(new_vals)@.subrange(0, node_entries(node).len() as int),
            ),
            final(new_vals)@ == old(new_vals)@.subrange(
                node_entries(node).len() as int,
                old(new_vals)@.len() as int,
            ),
            final(old_out)@ == old(old_out)@ + node_entries(node).map_values(|p: (i64, V)| p.1),
            r is Leaf <==> node is Leaf,
        decreases node,
    {
        let ghost g = node;
        match node {
            Node::Leaf(leaf) => {
                let mut leaf = leaf;
                let ghost le = leaf_entries(leaf);
                let ghost nv0 = new_vals@;
                let ghost base = old_out@;
                let mut i: usize = 0;
                while i < leaf.values.len()
                    invariant
                        leaf_wf(leaf),
                        i <= leaf.values@.len(),
                        leaf.keys@ == g->Leaf_0.keys@,
                        leaf.values@.len() == le.len(),
                        le.len() <= nv0.len(),
                        forall|j: int|
                            i <= j < le.len() ==> #[trigger] leaf.values@[j] == le[j].1,
                        forall|j: int| 0 <= j < i ==> #[trigger] leaf.values@[j] == nv0[j],
                        new_vals@ == nv0.subrange(i as int, nv0.len() as int),
                        old_out@ == base + le.map_values(|p: (i64, V)| p.1).subrange(
                            0,
                            i as int,
                        ),
                        node_wf(g),
                        g is Leaf,
                        le == leaf_entries(g->Leaf_0),
                    decreases leaf.values@.len() - i,
                {
                    let mut v = new_vals.remove(0);
                    proof {
                        assert(v == nv0[i as int]);
                        assert(new_vals@ =~= nv0.subrange(i as int + 1, nv0.len() as int));
                    }
                    leaf.values.set_and_swap(i, &mut v);
                    old_out.push(v);
                    proof {
                        assert(old_out@ =~= base + le.map_values(|p: (i64, V)| p.1).subrange(
                            0,
                            i as int + 1,
                        ));
                    }
                    i += 1;
                }
                proof {
                    assert(leaf_entries(leaf) =~= with_values(le, nv0.subrange(
                        0,
                        le.len() as int,
                    )));
                    assert(old_out@ =~= base + le.map_values(|p: (i64, V)| p.1));
                }
                Node::Leaf(leaf)
            },
            Node::Branch(branch) => {
                let mut branch = branch;
                let ghost ob = branch;
                let ghost ks = ob.keys@;
                let ghost cs = ob.children@;
                let ghost all = children_entries(cs);
                let ghost nv0 = new_vals@;
                let ghost base = old_out@;
                proof {
                    assert(cs.subrange(0, 0) =~= Seq::<Node<V>>::empty());
                    assert(decreases_to!(g => ob));
                }
                let mut i: usize = 0;
                while i < branch.children.len()
                    invariant
                        i <= cs.len(),
                        branch.children@.len() == cs.len(),
                        branch.keys@ == ks,
                        forall|j: int|
                            i <= j < cs.len() ==> #[trigger] branch.children@[j] == cs[j],
                        forall|j: int|
                            0 <= j < i ==> node_wf(#[trigger] branch.children@[j])
                                && node_entries(branch.children@[j]) == with_values(
                                node_entries(cs[j]),
                                nv0.subrange(
                                    children_entries(cs.subrange(0, j)).len() as int,
                                    children_entries(cs.subrange(0, j + 1)).len() as int,
                                ),
                            ),
                        children_entries(branch.children@.subrange(0, i as int)) == with_values(
                            children_entries(cs.subrange(0, i as int)),
                            nv0.subrange(
                                0,
                                children_entries(cs.subrange(0, i as int)).len() as int,
                            ),
                        ),
                        new_vals@ == nv0.subrange(
                            children_entries(cs.subrange(0, i as int)).len() as int,
                            nv0.len() as int,
                        ),
                        old_out@ == base + children_entries(cs.subrange(0, i as int)).map_values(
                            |p: (i64, V)| p.1,
                        ),
                        branch_form_wf(ks, cs),
                        cs.len() == ks.len() + 1 || (ks.len() == 0 && cs.len() == 0),
                        all == children_entries(cs),
                        all.len() <= nv0.len(),
                        g == Node::Branch(ob),
                        cs == ob.children@,
                        decreases_to!(g => ob),
                    decreases cs.len() - i,
                {
                    let ghost pre = children_entries(cs.subrange(0, i as int));
                    proof {
                        lemma_children_entries_split(cs, i as int);
                        lemma_children_entries_split(
                            cs.subrange(i as int, cs.len() as int),
                            1,
                        );
                        assert(cs.subrange(i as int, cs.len() as int).subrange(0, 1)
                            =~= seq![cs[i as int]]);
                        lemma_children_entries_singleton(cs[i as int]);
                        assert(cs.subrange(i as int, cs.len() as int).subrange(
                            1,
                            cs.len() - i as int,
                        ) =~= cs.subrange(i as int + 1, cs.len() as int));
                        assert(all == pre + node_entries(cs[i as int]) + children_entries(
                            cs.subrange(i as int + 1, cs.len() as int),
                        ));
                        assert(decreases_to!(ob => ob.children));
                        assert(decreases_to!(ob.children => cs));
                        assert(decreases_to!(cs => cs[i as int]));
                    }
                    let ghost cb = branch.children@;
                    let child = branch.children.remove(i);
                    proof {
                        assert(child == cs[i as int]);
                    }
                    let new_child = Self::replace_in_node(child, new_vals, old_out);
                    branch.children.insert(i, new_child);
                    proof {
                        assert(branch.children@ =~= cb.update(i as int, new_child));
                        assert(branch.children@.subrange(0, i as int) =~= cb.subrange(
                            0,
                            i as int,
                        ));
                        let pre_len = pre.len() as int;
                        let mid = node_entries(cs[i as int]);
                        let mid_len = mid.len() as int;
                        assert(nv0.subrange(pre_len, nv0.len() as int).subrange(0, mid_len)
                            =~= nv0.subrange(pre_len, pre_len + mid_len));
                        assert(nv0.subrange(pre_len, nv0.len() as int).subrange(
                            mid_len,
                            nv0.len() - pre_len,
                        ) =~= nv0.subrange(pre_len + mid_len, nv0.len() as int));
                        assert((pre + mid).map_values(|p: (i64, V)| p.1) =~= pre.map_values(
                            |p: (i64, V)| p.1,
                        ) + mid.map_values(|p: (i64, V)| p.1));
                        lemma_with_values_concat(pre, mid, nv0);
                        lemma_children_entries_split(
                            branch.children@.subrange(0, i as int + 1),
                            i as int,
                        );
                        assert(branch.children@.subrange(0, i as int + 1).subrange(0, i as int)
                            =~= branch.children@.subrange(0, i as int));
                        assert(branch.children@.subrange(0, i as int + 1).subrange(
                            i as int,
                            i as int + 1,
                        ) =~= seq![new_child]);
                        lemma_children_entries_singleton(new_child);
                        lemma_children_entries_split(cs.subrange(0, i as int + 1), i as int);
                        assert(cs.subrange(0, i as int + 1).subrange(0, i as int)
                            =~= cs.subrange(0, i as int));
                        assert(cs.subrange(0, i as int + 1).subrange(i as int, i as int + 1)
                            =~= seq![cs[i as int]]);
                        assert(children_entries(branch.children@.subrange(0, i as int + 1))
                            =~= with_values(
                            children_entries(cs.subrange(0, i as int + 1)),
                            nv0.subrange(
                                0,
                                children_entries(cs.subrange(0, i as int + 1)).len() as int,
                            ),
                        ));
                        assert(old_out@ =~= base + children_entries(
                            cs.subrange(0, i as int + 1),
                        ).map_values(|p: (i64, V)| p.1));
                    }
                    i += 1;
                }
                proof {
                    assert(cs.subrange(0, cs.len() as int) =~= cs);
                    assert(branch.children@.subrange(0, cs.len() as int) =~= branch.children@);
                    // well-formedness: the keys and every entry key are
                    // untouched, so every range condition carries over
                    assert forall|j: int|
                        0 <= j < branch.children@.len() implies node_wf(
                        #[trigger] branch.children@[j],
                    ) && node_entries(branch.children@[j]).len() >= 1 by {
                        assert(node_entries(branch.children@[j]) == with_values(
                            node_entries(cs[j]),
                            nv0.subrange(
                                children_entries(cs.subrange(0, j)).len() as int,
                                children_entries(cs.subrange(0, j + 1)).len() as int,
                            ),
                        ));
                    }
                    assert forall|j: int|
                        1 <= j < branch.children@.len() implies entries_at_least(
                        node_entries(#[trigger] branch.children@[j]),
                        ks[j - 1],
                    ) by {
                        let old_e = node_entries(cs[j]);
                        let new_e = node_entries(branch.children@[j]);
                        assert forall|t: int|
                            0 <= t < new_e.len() implies (#[trigger] new_e[t]).0 >= ks[j - 1]
                            by {
                            assert(new_e[t].0 == old_e[t].0);
                        }
                    }
                    assert forall|j: int|
                        0 <= j < branch.children@.len() && j < ks.len() implies entries_below(
                        node_entries(#[trigger] branch.children@[j]),
                        ks[j],
                    ) by {
                        let old_e = node_entries(cs[j]);
                        let new_e = node_entries(branch.children@[j]);
                        assert forall|t: int|
                            0 <= t < new_e.len() implies (#[trigger] new_e[t]).0 < ks[j] by {
                            assert(new_e[t].0 == old_e[t].0);
                        }
                    }
                    assert(branch_form_wf(branch.keys@, branch.children@));
                    assert(children_entries(branch.children@) =~= with_values(
                        all,
                        nv0.subrange(0, all.len() as int),
                    ));
                }
                Node::Branch(branch)
            },
        }
    }
}

// ---------------------------------------------------------------------------
// Deep copy. Keys are copied exactly; what a cloned value guarantees is
// whatever the value type's own `clone` promises.
// ---------------------------------------------------------------------------

/// One entry run could be the result of cloning another: same keys, each
/// value a clone of its counterpart.
pub open spec fn entries_cloned<V: Clone>(a: Seq<(i64, V)>, b: Seq<(i64, V)>) -> bool {
    &&& b.len() == a.len()
    &&& forall|i: int|
        0 <= i < a.len() ==> (#[trigger] b[i]).0 == a[i].0 && cloned::<V>(a[i].1, b[i].1)
}

/// Concatenating clones of two entry runs clones their concatenation.
pub proof fn lemma_entries_cloned_concat<V: Clone>(
    a1: Seq<(i64, V)>,
    a2: Seq<(i64, V)>,
    b1: Seq<(i64, V)>,
    b2: Seq<(i64, V)>,
)
    requires
        entries_cloned(a1, b1),
        entries_cloned(a2, b2),
    ensures
        entries_cloned(a1 + a2, b1 + b2),
{
    assert forall|i: int|
        0 <= i < (a1 + a2).len() implies (#[trigger] (b1 + b2)[i]).0 == (a1 + a2)[i].0
        && cloned::<V>((a1 + a2)[i].1, (b1 + b2)[i].1) by {
        if i < a1.len() {
            assert((a1 + a2)[i] == a1[i]);
            assert((b1 + b2)[i] == b1[i]);
        } else {
            assert((a1 + a2)[i] == a2[i - a1.len()]);
            assert((b1 + b2)[i] == b2[i - a1.len()]);
        }
    }
}

/// Sorted clones denote maps with the same keys, each value a clone of
/// its counterpart.
pub proof fn lemma_entries_cloned_view<V: Clone>(a: Seq<(i64, V)>, b: Seq<(i64, V)>)
    requires
        entries_sorted(a),
        entries_cloned(a, b),
    ensures
        map_of_entries(b).dom() =~= map_of_entries(a).dom(),
        forall|k: i64|
            map_of_entries(a).contains_key(k) ==> cloned::<V>(
                map_of_entries(a)[k],
                #[trigger] map_of_entries(b)[k],
            ),
{
    assert(entries_sorted(b));
    lemma_sorted_entries_view(a);
    lemma_sorted_entries_view(b);
    assert forall|k: i64|
        map_of_entries(a).contains_key(k) == map_of_entries(b).contains_key(k) by {
        lemma_map_of_entries_dom(a, k);
        lemma_map_of_entries_dom(b, k);
        if map_of_entries(a).contains_key(k) {
            let i = choose|i: int| 0 <= i < a.len() && a[i].0 == k;
            assert(b[i].0 == k);
        } else if map_of_entries(b).contains_key(k) {
            let i = choose|i: int| 0 <= i < b.len() && b[i].0 == k;
            assert(a[i].0 == k);
        }
    }
    assert forall|k: i64| map_of_entries(a).contains_key(k) implies cloned::<V>(
        map_of_entries(a)[k],
        #[trigger] map_of_entries(b)[k],
    ) by {
        lemma_map_of_entries_dom(a, k);
        let i = choose|i: int| 0 <= i < a.len() && a[i].0 == k;
        assert(map_of_entries(a)[a[i].0] == a[i].1);
        assert(map_of_entries(b)[b[i].0] == b[i].1);
    }
}

impl<V: Clone> Clone for LeafNode<V> {
    /// A leaf with the same keys and cloned values.
    fn clone(&self) -> (res: Self)
        ensures
            res.keys@ == self.keys@,
            res.values@.len() == self.values@.len(),
            leaf_wf(*self) ==> leaf_wf(res) && entries_cloned(
                leaf_entries(*self),
                leaf_entries(res),
            ),
    {
        let keys = self.keys.clone();
        let values = self.values.clone();
        proof {
            assert forall|i: int| 0 <= i < self.keys@.len() implies #[trigger] keys@[i]
                == self.keys@[i] by {
                assert(cloned::<i64>(self.keys@[i], keys@[i]));
            }
            assert(keys@ =~= self.keys@);
            if leaf_wf(*self) {
                assert forall|i: int|
                    0 <= i < leaf_entries(*self).len() implies (#[trigger] leaf_entries(
                    LeafNode { keys, values },
                )[i]).0 == leaf_entries(*self)[i].0 && cloned::<V>(
                    leaf_entries(*self)[i].1,
                    leaf_entries(LeafNode { keys, values })[i].1,
                ) by {
                    assert(cloned::<V>(self.values@[i], values@[i]));
                }
            }
        }
        LeafNode { keys, values }
    }
}

impl<V: Clone> Clone for BranchNode<V> {
    /// A branch with the same separators, its children cloned in place.
    #[verifier::rlimit(100)]
    #[verifier::spinoff_prover]
    fn clone(&self) -> (res: Self)
        ensures
            res.keys@ == self.keys@,
            res.children@.len() == self.children@.len(),
            node_wf(Node::Branch(*self)) ==> node_wf(Node::Branch(res)) && entries_cloned(
                children_entries(self.children@),
                children_entries(res.children@),
            ),
        decreases *self, 0int,
    {
        let keys = self.keys.clone();
        proof {
            assert forall|i: int| 0 <= i < self.keys@.len() implies #[trigger] keys@[i]
                == self.keys@[i] by {
                assert(cloned::<i64>(self.keys@[i], keys@[i]));
            }
            assert(keys@ =~= self.keys@);
        }
        let ghost cs = self.children@;
        let mut children: Vec<Node<V>> = Vec::new();
        let mut i: usize = 0;
        proof {
            assert(cs.subrange(0, 0) =~= Seq::<Node<V>>::empty());
        }
        while i < self.children.len()
            invariant
                cs == self.children@,
                i <= cs.len(),
                children@.len() == i,
                keys@ == self.keys@,
                forall|j: int|
                    0 <= j < i ==> (node_wf(cs[j]) ==> node_wf(#[trigger] children@[j])
                        && entries_cloned(
                        node_entries(cs[j]),
                        node_entries(children@[j]),
                    )),
                node_wf(Node::Branch(*self)) ==> entries_cloned(
                    children_entries(cs.subrange(0, i as int)),
                    children_entries(children@),
                ),
            decreases cs.len() - i,
        {
            proof {
                assert(decreases_to!(*self => self.children));
                assert(decreases_to!(self.children => cs));
                assert(decreases_to!(cs => cs[i as int]));
            }
            let ghost before = children@;
            let c = (&self.children[i]).clone();
            children.push(c);
            proof {
                lemma_children_entries_split(cs.subrange(0, i as int + 1), i as int);
                assert(cs.subrange(0, i as int + 1).subrange(0, i as int) =~= cs.subrange(
                    0,
                    i as int,
                ));
                assert(cs.subrange(0, i as int + 1).subrange(i as int, i as int + 1)
                    =~= seq![cs[i as int]]);
                lemma_children_entries_singleton(cs[i as int]);
                lemma_children_entries_split(children@, i as int);
                assert(children@.subrange(0, i as int) =~= before);
                assert(children@.subrange(i as int, i as int + 1) =~= seq![c]);
                lemma_children_entries_singleton(c);
                if node_wf(Node::Branch(*self)) {
                    assert(node_wf(cs[i as int]));
                    lemma_entries_cloned_concat(
                        children_entries(cs.subrange(0, i as int)),
                        node_entries(cs[i as int]),
                        children_entries(before),
                        node_entries(c),
                    );
                }
            }
            i += 1;
        }
        proof {
            assert(cs.subrange(0, cs.len() as int) =~= cs);
            if node_wf(Node::Branch(*self)) {
                assert forall|j: int|
                    0 <= j < children@.len() implies node_wf(#[trigger] children@[j])
                    && node_entries(children@[j]).len() >= 1 by {
                    assert(node_wf(cs[j]));
                    assert(entries_cloned(node_entries(cs[j]), node_entries(children@[j])));
                }
                assert forall|j: int|
                    1 <= j < children@.len() implies entries_at_least(
                    node_entries(#[trigger] children@[j]),
                    keys@[j - 1],
                ) by {
                    let old_e = node_entries(cs[j]);
                    let new_e = node_entries(children@[j]);
                    assert forall|t: int|
                        0 <= t < new_e.len() implies (#[trigger] new_e[t]).0 >= keys@[j - 1]
                        by {
                        assert(new_e[t].0 == old_e[t].0);
                    }
                }
                assert forall|j: int|
                    0 <= j < children@.len() && j < keys@.len() implies entries_below(
                    node_entries(#[trigger] children@[j]),
                    keys@[j],
                ) by {
                    let old_e = node_entries(cs[j]);
                    let new_e = node_entries(children@[j]);
                    assert forall|t: int|
                        0 <= t < new_e.len() implies (#[trigger] new_e[t]).0 < keys@[j] by {
                        assert(new_e[t].0 == old_e[t].0);
                    }
                }
                assert(branch_form_wf(keys@, children@));
            }
        }
        BranchNode { keys, children }
    }
}

impl<V: Clone> Clone for Node<V> {
    /// A node whose entries have the same keys and cloned values.
    fn clone(&self) -> (res: Self)
        ensures
            node_wf(*self) ==> node_wf(res) && entries_cloned(
                node_entries(*self),
                node_entries(res),
            ),
            res is Leaf <==> self is Leaf,
        decreases *self, 1int,
    {
        match self {
            Node::Leaf(leaf) => Node::Leaf(leaf.clone()),
            Node::Branch(branch) => {
                proof {
                    assert(decreases_to!(*self => *branch));
                }
                Node::Branch(branch.clone())
            },
        }
    }
}

impl<V: Clone> Clone for BPlusTreeMap<V> {
    /// A map with the same keys and configuration, each value a clone of
    /// its counterpart.
    fn clone(&self) -> (res: Self)
        ensures
            self.wf() ==> {
                &&& res.wf()
                &&& res.spec_branching_factor() == self.spec_branching_factor()
                &&& res@.dom() =~= self@.dom()
                &&& forall|k: i64|
                    self@.contains_key(k) ==> cloned::<V>(self@[k], #[trigger] res@[k])
            },
    {
        let root = match &self.root {
            None => None,
            Some(node) => Some(node.clone()),
        };
        let res = BPlusTreeMap {
            root,
            branching_factor: self.branching_factor,
            size: self.size,
        };
        proof {
            if self.wf() {
                match &self.root {
                    None => {
                        assert(res@.dom() =~= self@.dom());
                    },
                    Some(n) => {
                        lemma_node_wf_entries_sorted(*n);
                        lemma_entries_cloned_view(self.entry_seq(), res.entry_seq());
                    },
                }
            }
        }
        res
    }
}

} // verus!
