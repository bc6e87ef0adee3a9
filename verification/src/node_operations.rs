//! Pure overflow and underflow policies: splitting an over-full node into
//! two plus a promoted separator, and merging or redistributing a pair of
//! under-full siblings. Each policy consumes the nodes it is given and
//! returns replacements; it never touches the rest of the tree.

use vstd::prelude::*;

use crate::bplus_tree_map::{
    branch_form_wf, children_entries, entries_at_least, entries_below, keys_sorted, leaf_entries,
    leaf_wf, lemma_branch_key_bounds, lemma_branch_prefix_sorted, lemma_branch_suffix_at_least,
    lemma_child_bounds, lemma_children_entries_concat, lemma_children_entries_decompose,
    lemma_children_entries_split, node_entries, node_wf, BranchNode, LeafNode, Node,
};

verus! {

/// Result of a node split operation.
pub enum SplitResult<K, N> {
    /// The node was split into two nodes with a separator key to be
    /// promoted to the parent.
    Split { left: N, right: N, separator: K },
    /// The node did not need to be split.
    NoSplit(N),
}

/// An interface for node splitting policies. The library's own splitters
/// expose their behaviour through inherent methods with full contracts;
/// the trait is the extension point for policies supplied from outside.
pub trait NodeSplitter<V, N> {
    /// Check if a node needs to be split.
    fn needs_split(&self, node: &N) -> bool;

    /// Split a node if needed.
    fn split(&self, node: N) -> SplitResult<i64, N>;
}

/// Splitter for leaf nodes.
pub struct LeafNodeSplitter {
    branching_factor: usize,
}

impl LeafNodeSplitter {
    /// The maximum number of keys a leaf may hold before it must split.
    pub closed spec fn spec_branching_factor(self) -> usize {
        self.branching_factor
    }

    /// Create a new leaf node splitter with the given branching factor.
    pub fn new(branching_factor: usize) -> (s: Self)
        ensures
            s.spec_branching_factor() == branching_factor,
    {
        Self { branching_factor }
    }

    /// A leaf overflows when it holds more keys than the branching factor.
    pub fn needs_split<V>(&self, node: &LeafNode<V>) -> (r: bool)
        ensures
            r <==> node.keys@.len() > self.spec_branching_factor(),
    {
        node.keys.len() > self.branching_factor
    }

    /// Split an over-full leaf at its midpoint. The separator is copied
    /// up: it remains the first key of the right half.
    pub fn split<V>(&self, node: LeafNode<V>) -> (r: SplitResult<i64, LeafNode<V>>)
        requires
            leaf_wf(node),
            self.spec_branching_factor() >= 1,
        ensures
            match r {
                SplitResult::NoSplit(n) => n == node && node.keys@.len()
                    <= self.spec_branching_factor(),
                SplitResult::Split { left, right, separator } => {
                    &&& node.keys@.len() > self.spec_branching_factor()
                    &&& leaf_wf(left)
                    &&& leaf_wf(right)
                    &&& leaf_entries(left) + leaf_entries(right) == leaf_entries(node)
                    &&& left.keys@ == node.keys@.subrange(0, node.keys@.len() as int / 2)
                    &&& right.keys@ == node.keys@.subrange(
                        node.keys@.len() as int / 2,
                        node.keys@.len() as int,
                    )
                    &&& separator == node.keys@[node.keys@.len() as int / 2]
                    &&& entries_below(leaf_entries(left), separator)
                    &&& entries_at_least(leaf_entries(right), separator)
                    &&& left.keys@.len() >= 1
                    &&& right.keys@.len() >= 1
                },
            },
    {
        if !self.needs_split(&node) {
            return SplitResult::NoSplit(node);
        }
        let mut node = node;
        let ghost old_node = node;
        let split_idx = node.keys.len() / 2;
        let split_key = node.keys[split_idx];
        let right_keys = node.keys.split_off(split_idx);
        let right_values = node.values.split_off(split_idx);
        let right_leaf = LeafNode { keys: right_keys, values: right_values };
        proof {
            let mid = split_idx as int;
            assert(node.keys@ =~= old_node.keys@.subrange(0, mid));
            assert(right_leaf.keys@ =~= old_node.keys@.subrange(mid, old_node.keys@.len() as int));
            assert(leaf_entries(node) + leaf_entries(right_leaf) =~= leaf_entries(old_node));
        }
        SplitResult::Split { left: node, right: right_leaf, separator: split_key }
    }
}

/// Splitter for branch nodes.
pub struct BranchNodeSplitter {
    branching_factor: usize,
}

impl BranchNodeSplitter {
    /// The maximum number of keys a branch may hold before it must split.
    pub closed spec fn spec_branching_factor(self) -> usize {
        self.branching_factor
    }

    /// Create a new branch node splitter with the given branching factor.
    pub fn new(branching_factor: usize) -> (s: Self)
        ensures
            s.spec_branching_factor() == branching_factor,
    {
        Self { branching_factor }
    }

    /// A branch overflows when it holds more keys than the branching
    /// factor.
    pub fn needs_split<V>(&self, node: &BranchNode<V>) -> (r: bool)
        ensures
            r <==> node.keys@.len() > self.spec_branching_factor(),
    {
        node.keys.len() > self.branching_factor
    }

    /// Split an over-full branch at its midpoint. The separator is pushed
    /// up, not duplicated: it leaves both halves, since branch keys are
    /// pure routers.
    pub fn split<V>(&self, node: BranchNode<V>) -> (r: SplitResult<i64, BranchNode<V>>)
        requires
            node_wf(Node::Branch(node)),
            node.children@.len() == node.keys@.len() + 1,
            self.spec_branching_factor() >= 2,
        ensures
            match r {
                SplitResult::NoSplit(n) => n == node && node.keys@.len()
                    <= self.spec_branching_factor(),
                SplitResult::Split { left, right, separator } => {
                    &&& node.keys@.len() > self.spec_branching_factor()
                    &&& node_wf(Node::Branch(left))
                    &&& node_wf(Node::Branch(right))
                    &&& left.children@.len() == left.keys@.len() + 1
                    &&& right.children@.len() == right.keys@.len() + 1
                    &&& left.keys@.len() >= 1
                    &&& right.keys@.len() >= 1
                    &&& left.keys@ == node.keys@.subrange(0, node.keys@.len() as int / 2)
                    &&& right.keys@ == node.keys@.subrange(
                        node.keys@.len() as int / 2 + 1,
                        node.keys@.len() as int,
                    )
                    &&& left.children@ == node.children@.subrange(
                        0,
                        node.keys@.len() as int / 2 + 1,
                    )
                    &&& right.children@ == node.children@.subrange(
                        node.keys@.len() as int / 2 + 1,
                        node.children@.len() as int,
                    )
                    &&& children_entries(left.children@) + children_entries(right.children@)
                        == children_entries(node.children@)
                    &&& separator == node.keys@[node.keys@.len() as int / 2]
                    &&& entries_below(children_entries(left.children@), separator)
                    &&& entries_at_least(children_entries(right.children@), separator)
                },
            },
    {
        if !self.needs_split(&node) {
            return SplitResult::NoSplit(node);
        }
        let mut node = node;
        let ghost old_node = node;
        let split_idx = node.keys.len() / 2;
        let split_key = node.keys[split_idx];
        let right_keys = node.keys.split_off(split_idx + 1);
        let right_children = node.children.split_off(split_idx + 1);
        let right_branch = BranchNode { keys: right_keys, children: right_children };
        node.keys.truncate(split_idx);
        proof {
            let mid = split_idx as int;
            let cs = old_node.children@;
            let ks = old_node.keys@;
            assert(node.keys@ =~= ks.subrange(0, mid));
            assert(right_branch.keys@ =~= ks.subrange(mid + 1, ks.len() as int));
            assert(node.children@ =~= cs.subrange(0, mid + 1));
            assert(right_branch.children@ =~= cs.subrange(mid + 1, cs.len() as int));
            lemma_children_entries_split(cs, mid + 1);
            // well-formedness of the left half
            assert forall|i: int|
                1 <= i < node.children@.len() implies entries_at_least(
                node_entries(#[trigger] node.children@[i]),
                node.keys@[i - 1],
            ) by {
                assert(node.children@[i] == cs[i]);
                assert(node.keys@[i - 1] == ks[i - 1]);
            }
            assert(node_wf(Node::Branch(node)));
            // well-formedness of the right half
            assert forall|i: int|
                1 <= i < right_branch.children@.len() implies entries_at_least(
                node_entries(#[trigger] right_branch.children@[i]),
                right_branch.keys@[i - 1],
            ) by {
                assert(right_branch.children@[i] == cs[mid + 1 + i]);
                assert(right_branch.keys@[i - 1] == ks[mid + i]);
            }
            assert forall|i: int|
                0 <= i < right_branch.children@.len() && i < right_branch.keys@.len()
                implies entries_below(
                node_entries(#[trigger] right_branch.children@[i]),
                right_branch.keys@[i],
            ) by {
                assert(right_branch.children@[i] == cs[mid + 1 + i]);
                assert(right_branch.keys@[i] == ks[mid + 1 + i]);
            }
            assert(node_wf(Node::Branch(right_branch)));
            // the separator bounds the two halves
            lemma_branch_prefix_sorted(ks, cs, mid + 1);
            lemma_branch_suffix_at_least(ks, cs, mid + 1);
        }
        SplitResult::Split { left: node, right: right_branch, separator: split_key }
    }
}

/// Result of a node merge operation.
pub enum MergeResult<K, N> {
    /// The nodes were merged into a single node; the right node is gone.
    Merged(N),
    /// The nodes did not need to be merged.
    NoMerge { left: N, right: N, separator: K },
    /// Entries moved between the nodes to restore minimum occupancy;
    /// neither node was destroyed.
    Rebalanced { left: N, right: N, separator: K },
}

/// An interface for node merging policies. The library's own mergers
/// expose their behaviour through inherent methods with full contracts;
/// the trait is the extension point for policies supplied from outside.
pub trait NodeMerger<V, N> {
    /// Check if a pair of siblings needs to be merged.
    fn needs_merge(&self, left: &N, right: &N) -> bool;

    /// Merge or redistribute the siblings if needed.
    fn merge(&self, left: N, right: N, separator: i64) -> MergeResult<i64, N>;
}

/// Merger for leaf nodes.
pub struct LeafNodeMerger {
    min_keys: usize,
}

impl LeafNodeMerger {
    /// The minimum number of keys a leaf should hold after a
    /// removal-triggered rebalance.
    pub closed spec fn spec_min_keys(self) -> usize {
        self.min_keys
    }

    /// Create a new leaf node merger for the given branching factor; the
    /// minimum occupancy is half of it.
    pub fn new(branching_factor: usize) -> (m: Self)
        ensures
            m.spec_min_keys() == branching_factor / 2,
    {
        let min_keys = branching_factor / 2;
        Self { min_keys }
    }

    /// A pair of sibling leaves needs attention when either holds fewer
    /// keys than the minimum.
    pub fn needs_merge<V>(&self, left: &LeafNode<V>, right: &LeafNode<V>) -> (r: bool)
        ensures
            r <==> (left.keys@.len() < self.spec_min_keys() || right.keys@.len()
                < self.spec_min_keys()),
    {
        left.keys.len() < self.min_keys || right.keys.len() < self.min_keys
    }

    /// Merge or redistribute a pair of sibling leaves. When neither is
    /// under-full, both are returned unchanged with the separator
    /// recomputed as the right leaf's first key. When the pair holds
    /// enough entries for two nodes, entries move across the boundary
    /// until the left holds half; otherwise the right is absorbed into
    /// the left.
    pub fn merge<V>(&self, left: LeafNode<V>, right: LeafNode<V>, separator: i64) -> (r:
        MergeResult<i64, LeafNode<V>>)
        requires
            leaf_wf(left),
            leaf_wf(right),
            entries_below(leaf_entries(left), separator),
            entries_at_least(leaf_entries(right), separator),
            self.spec_min_keys() >= 1,
            left.keys@.len() + right.keys@.len() <= usize::MAX,
            self.spec_min_keys() * 2 <= usize::MAX,
        ensures
            match r {
                MergeResult::NoMerge { left: l2, right: r2, separator: s2 } => {
                    &&& left.keys@.len() >= self.spec_min_keys()
                    &&& right.keys@.len() >= self.spec_min_keys()
                    &&& l2 == left
                    &&& r2 == right
                    &&& s2 == right.keys@[0]
                },
                MergeResult::Merged(m) => {
                    &&& (left.keys@.len() < self.spec_min_keys() || right.keys@.len()
                        < self.spec_min_keys())
                    &&& left.keys@.len() + right.keys@.len() < 2 * self.spec_min_keys()
                    &&& leaf_wf(m)
                    &&& leaf_entries(m) == leaf_entries(left) + leaf_entries(right)
                },
                MergeResult::Rebalanced { left: l2, right: r2, separator: s2 } => {
                    &&& (left.keys@.len() < self.spec_min_keys() || right.keys@.len()
                        < self.spec_min_keys())
                    &&& left.keys@.len() + right.keys@.len() >= 2 * self.spec_min_keys()
                    &&& leaf_wf(l2)
                    &&& leaf_wf(r2)
                    &&& leaf_entries(l2) + leaf_entries(r2) == leaf_entries(left) + leaf_entries(
                        right,
                    )
                    &&& l2.keys@.len() == (left.keys@.len() + right.keys@.len()) / 2
                    &&& l2.keys@.len() >= 1
                    &&& r2.keys@.len() >= 1
                    &&& s2 == r2.keys@[0]
                    &&& entries_below(leaf_entries(l2), s2)
                    &&& entries_at_least(leaf_entries(r2), s2)
                },
            },
    {
        if !self.needs_merge(&left, &right) {
            let new_separator = right.keys[0];
            return MergeResult::NoMerge { left, right, separator: new_separator };
        }
        let mut left = left;
        let mut right = right;
        let ghost old_left = left;
        let ghost old_right = right;
        proof {
            lemma_leaf_pair_keys_sorted(old_left, old_right, separator);
        }
        let total_keys = left.keys.len() + right.keys.len();
        if total_keys >= 2 * self.min_keys {
            let target_left_size = total_keys / 2;
            if left.keys.len() < target_left_size {
                // move entries from the front of the right leaf
                let move_count = target_left_size - left.keys.len();
                let mut j: usize = 0;
                while j < move_count
                    invariant
                        j <= move_count,
                        move_count <= old_right.keys@.len(),
                        old_left.keys@.len() + old_right.keys@.len() == total_keys,
                        left.keys@.len() == left.values@.len(),
                        right.keys@.len() == right.values@.len(),
                        left.keys@ == old_left.keys@ + old_right.keys@.subrange(0, j as int),
                        left.values@ == old_left.values@ + old_right.values@.subrange(0, j as int),
                        right.keys@ == old_right.keys@.subrange(
                            j as int,
                            old_right.keys@.len() as int,
                        ),
                        right.values@ == old_right.values@.subrange(
                            j as int,
                            old_right.values@.len() as int,
                        ),
                        leaf_wf(old_left),
                        leaf_wf(old_right),
                    decreases move_count - j,
                {
                    let k2 = right.keys.remove(0);
                    let v2 = right.values.remove(0);
                    left.keys.push(k2);
                    left.values.push(v2);
                    proof {
                        assert(left.keys@ =~= old_left.keys@ + old_right.keys@.subrange(
                            0,
                            j as int + 1,
                        ));
                        assert(left.values@ =~= old_left.values@ + old_right.values@.subrange(
                            0,
                            j as int + 1,
                        ));
                        assert(right.keys@ =~= old_right.keys@.subrange(
                            j as int + 1,
                            old_right.keys@.len() as int,
                        ));
                        assert(right.values@ =~= old_right.values@.subrange(
                            j as int + 1,
                            old_right.values@.len() as int,
                        ));
                    }
                    j += 1;
                }
                let new_separator = right.keys[0];
                proof {
                    assert(left.keys@ + right.keys@ =~= old_left.keys@ + old_right.keys@);
                    assert(left.values@ + right.values@ =~= old_left.values@ + old_right.values@);
                    lemma_leaf_rebalance_post(old_left, old_right, separator, left, right);
                }
                MergeResult::Rebalanced { left, right, separator: new_separator }
            } else {
                // move entries from the back of the left leaf
                let move_count = left.keys.len() - target_left_size;
                let mut j: usize = 0;
                while j < move_count
                    invariant
                        j <= move_count,
                        move_count <= old_left.keys@.len(),
                        old_left.keys@.len() + old_right.keys@.len() == total_keys,
                        left.keys@.len() == left.values@.len(),
                        right.keys@.len() == right.values@.len(),
                        left.keys@ == old_left.keys@.subrange(
                            0,
                            old_left.keys@.len() - j as int,
                        ),
                        left.values@ == old_left.values@.subrange(
                            0,
                            old_left.values@.len() - j as int,
                        ),
                        right.keys@ == old_left.keys@.subrange(
                            old_left.keys@.len() - j as int,
                            old_left.keys@.len() as int,
                        ) + old_right.keys@,
                        right.values@ == old_left.values@.subrange(
                            old_left.values@.len() - j as int,
                            old_left.values@.len() as int,
                        ) + old_right.values@,
                        leaf_wf(old_left),
                        leaf_wf(old_right),
                    decreases move_count - j,
                {
                    let k2 = match left.keys.pop() {
                        Some(k2) => k2,
                        None => unreached(),
                    };
                    let v2 = match left.values.pop() {
                        Some(v2) => v2,
                        None => unreached(),
                    };
                    right.keys.insert(0, k2);
                    right.values.insert(0, v2);
                    proof {
                        assert(left.keys@ =~= old_left.keys@.subrange(
                            0,
                            old_left.keys@.len() - j as int - 1,
                        ));
                        assert(left.values@ =~= old_left.values@.subrange(
                            0,
                            old_left.values@.len() - j as int - 1,
                        ));
                        assert(right.keys@ =~= old_left.keys@.subrange(
                            old_left.keys@.len() - j as int - 1,
                            old_left.keys@.len() as int,
                        ) + old_right.keys@);
                        assert(right.values@ =~= old_left.values@.subrange(
                            old_left.values@.len() - j as int - 1,
                            old_left.values@.len() as int,
                        ) + old_right.values@);
                    }
                    j += 1;
                }
                let new_separator = right.keys[0];
                proof {
                    assert(left.keys@ + right.keys@ =~= old_left.keys@ + old_right.keys@);
                    assert(left.values@ + right.values@ =~= old_left.values@ + old_right.values@);
                    lemma_leaf_rebalance_post(old_left, old_right, separator, left, right);
                }
                MergeResult::Rebalanced { left, right, separator: new_separator }
            }
        } else {
            left.keys.append(&mut right.keys);
            left.values.append(&mut right.values);
            proof {
                assert(left.keys@ == old_left.keys@ + old_right.keys@);
                assert(leaf_entries(left) =~= leaf_entries(old_left) + leaf_entries(old_right));
            }
            MergeResult::Merged(left)
        }
    }
}

/// Merger for branch nodes.
pub struct BranchNodeMerger {
    min_keys: usize,
}

impl BranchNodeMerger {
    /// The minimum number of keys a branch should hold after a
    /// removal-triggered rebalance.
    pub closed spec fn spec_min_keys(self) -> usize {
        self.min_keys
    }

    /// Create a new branch node merger for the given branching factor;
    /// the minimum occupancy is half of it.
    pub fn new(branching_factor: usize) -> (m: Self)
        ensures
            m.spec_min_keys() == branching_factor / 2,
    {
        let min_keys = branching_factor / 2;
        Self { min_keys }
    }

    /// A pair of sibling branches needs attention when either holds fewer
    /// keys than the minimum.
    pub fn needs_merge<V>(&self, left: &BranchNode<V>, right: &BranchNode<V>) -> (r: bool)
        ensures
            r <==> (left.keys@.len() < self.spec_min_keys() || right.keys@.len()
                < self.spec_min_keys()),
    {
        left.keys.len() < self.min_keys || right.keys.len() < self.min_keys
    }

    /// Merge or redistribute a pair of sibling branches around the
    /// separator between them. A redistribution moves separator keys and
    /// the corresponding children across the boundary, re-threading the
    /// separator that crosses it; a merge splices the old separator
    /// between the two key runs and concatenates the children.
    #[verifier::rlimit(100)]
    pub fn merge<V>(&self, left: BranchNode<V>, right: BranchNode<V>, separator: i64) -> (r:
        MergeResult<i64, BranchNode<V>>)
        requires
            node_wf(Node::Branch(left)),
            node_wf(Node::Branch(right)),
            left.children@.len() == left.keys@.len() + 1,
            right.children@.len() == right.keys@.len() + 1,
            entries_below(children_entries(left.children@), separator),
            entries_at_least(children_entries(right.children@), separator),
            self.spec_min_keys() >= 1,
            left.keys@.len() + right.keys@.len() + 1 <= usize::MAX,
            self.spec_min_keys() * 2 <= usize::MAX,
        ensures
            match r {
                MergeResult::NoMerge { left: l2, right: r2, separator: s2 } => {
                    &&& left.keys@.len() >= self.spec_min_keys()
                    &&& right.keys@.len() >= self.spec_min_keys()
                    &&& l2 == left
                    &&& r2 == right
                    &&& s2 == separator
                },
                MergeResult::Merged(m) => {
                    &&& (left.keys@.len() < self.spec_min_keys() || right.keys@.len()
                        < self.spec_min_keys())
                    &&& left.keys@.len() + right.keys@.len() + 1 < 2 * self.spec_min_keys()
                    &&& node_wf(Node::Branch(m))
                    &&& m.children@.len() == m.keys@.len() + 1
                    &&& m.keys@ == left.keys@ + seq![separator] + right.keys@
                    &&& m.children@ == left.children@ + right.children@
                    &&& children_entries(m.children@) == children_entries(left.children@)
                        + children_entries(right.children@)
                },
                MergeResult::Rebalanced { left: l2, right: r2, separator: s2 } => {
                    &&& (left.keys@.len() < self.spec_min_keys() || right.keys@.len()
                        < self.spec_min_keys())
                    &&& left.keys@.len() + right.keys@.len() + 1 >= 2 * self.spec_min_keys()
                    &&& node_wf(Node::Branch(l2))
                    &&& node_wf(Node::Branch(r2))
                    &&& l2.children@.len() == l2.keys@.len() + 1
                    &&& r2.children@.len() == r2.keys@.len() + 1
                    &&& l2.keys@ + seq![s2] + r2.keys@ == left.keys@ + seq![separator]
                        + right.keys@
                    &&& l2.children@ + r2.children@ == left.children@ + right.children@
                    &&& l2.keys@.len() == (if left.keys@.len() + 1
                        <= (left.keys@.len() + right.keys@.len() + 1) / 2 {
                        ((left.keys@.len() + right.keys@.len() + 1) / 2) as int
                    } else {
                        ((left.keys@.len() + right.keys@.len() + 1) / 2) as int - 1
                    })
                    &&& children_entries(l2.children@) + children_entries(r2.children@)
                        == children_entries(left.children@) + children_entries(right.children@)
                    &&& children_entries(l2.children@).len() >= 1
                    &&& children_entries(r2.children@).len() >= 1
                    &&& entries_below(children_entries(l2.children@), s2)
                    &&& entries_at_least(children_entries(r2.children@), s2)
                },
            },
    {
        if !self.needs_merge(&left, &right) {
            return MergeResult::NoMerge { left, right, separator };
        }
        let mut left = left;
        let mut right = right;
        let ghost old_left = left;
        let ghost old_right = right;
        let ghost kk = old_left.keys@ + seq![separator] + old_right.keys@;
        let ghost cc = old_left.children@ + old_right.children@;
        proof {
            lemma_branch_pair_combined(
                old_left.keys@,
                old_left.children@,
                old_right.keys@,
                old_right.children@,
                separator,
            );
        }
        let total_keys = left.keys.len() + right.keys.len() + 1;
        if total_keys >= 2 * self.min_keys {
            let target_left_size = total_keys / 2;
            if left.keys.len() < target_left_size {
                // move keys and children from the front of the right
                // branch, threading the old separator into the left
                left.keys.push(separator);
                let move_count = target_left_size - left.keys.len();
                let mut j: usize = 0;
                while j < move_count
                    invariant
                        j <= move_count,
                        move_count < old_right.keys@.len(),
                        left.keys@ == old_left.keys@ + seq![separator]
                            + old_right.keys@.subrange(0, j as int),
                        right.keys@ == old_right.keys@.subrange(
                            j as int,
                            old_right.keys@.len() as int,
                        ),
                        left.children@ == old_left.children@,
                        right.children@ == old_right.children@,
                    decreases move_count - j,
                {
                    let k2 = right.keys.remove(0);
                    left.keys.push(k2);
                    proof {
                        assert(left.keys@ =~= old_left.keys@ + seq![separator]
                            + old_right.keys@.subrange(0, j as int + 1));
                        assert(right.keys@ =~= old_right.keys@.subrange(
                            j as int + 1,
                            old_right.keys@.len() as int,
                        ));
                    }
                    j += 1;
                }
                let mut j: usize = 0;
                while j <= move_count
                    invariant
                        j <= move_count + 1,
                        move_count < usize::MAX,
                        move_count + 1 < old_right.children@.len(),
                        left.keys@ == old_left.keys@ + seq![separator]
                            + old_right.keys@.subrange(0, move_count as int),
                        right.keys@ == old_right.keys@.subrange(
                            move_count as int,
                            old_right.keys@.len() as int,
                        ),
                        move_count < old_right.keys@.len(),
                        left.children@ == old_left.children@ + old_right.children@.subrange(
                            0,
                            j as int,
                        ),
                        right.children@ == old_right.children@.subrange(
                            j as int,
                            old_right.children@.len() as int,
                        ),
                    decreases move_count + 1 - j,
                {
                    let c = right.children.remove(0);
                    left.children.push(c);
                    proof {
                        assert(left.children@ =~= old_left.children@
                            + old_right.children@.subrange(0, j as int + 1));
                        assert(right.children@ =~= old_right.children@.subrange(
                            j as int + 1,
                            old_right.children@.len() as int,
                        ));
                    }
                    j += 1;
                }
                let new_separator = right.keys.remove(0);
                proof {
                    let p = old_left.children@.len() + move_count as int + 1;
                    assert(left.keys@ =~= kk.subrange(0, p - 1));
                    assert(left.children@ =~= cc.subrange(0, p));
                    assert(right.keys@ =~= kk.subrange(p, kk.len() as int));
                    assert(right.children@ =~= cc.subrange(p, cc.len() as int));
                    assert(new_separator == kk[p - 1]);
                    lemma_branch_form_split(kk, cc, p);
                    assert(left.keys@ + seq![new_separator] + right.keys@ =~= kk);
                    assert(left.children@ + right.children@ =~= cc);
                }
                MergeResult::Rebalanced { left, right, separator: new_separator }
            } else {
                // move keys and children from the back of the left
                // branch, threading the old separator into the right
                right.keys.insert(0, separator);
                let move_count = left.keys.len() - target_left_size;
                let mut j: usize = 0;
                while j < move_count
                    invariant
                        j <= move_count,
                        move_count < old_left.keys@.len(),
                        left.keys@ == old_left.keys@.subrange(
                            0,
                            old_left.keys@.len() - j as int,
                        ),
                        right.keys@ == old_left.keys@.subrange(
                            old_left.keys@.len() - j as int,
                            old_left.keys@.len() as int,
                        ) + seq![separator] + old_right.keys@,
                        left.children@ == old_left.children@,
                        right.children@ == old_right.children@,
                    decreases move_count - j,
                {
                    let k2 = match left.keys.pop() {
                        Some(k2) => k2,
                        None => unreached(),
                    };
                    right.keys.insert(0, k2);
                    proof {
                        assert(left.keys@ =~= old_left.keys@.subrange(
                            0,
                            old_left.keys@.len() - j as int - 1,
                        ));
                        assert(right.keys@ =~= old_left.keys@.subrange(
                            old_left.keys@.len() - j as int - 1,
                            old_left.keys@.len() as int,
                        ) + seq![separator] + old_right.keys@);
                    }
                    j += 1;
                }
                let mut j: usize = 0;
                while j <= move_count
                    invariant
                        j <= move_count + 1,
                        move_count < usize::MAX,
                        move_count + 1 < old_left.children@.len(),
                        left.keys@ == old_left.keys@.subrange(
                            0,
                            old_left.keys@.len() - move_count as int,
                        ),
                        right.keys@ == old_left.keys@.subrange(
                            old_left.keys@.len() - move_count as int,
                            old_left.keys@.len() as int,
                        ) + seq![separator] + old_right.keys@,
                        move_count < old_left.keys@.len(),
                        left.children@ == old_left.children@.subrange(
                            0,
                            old_left.children@.len() - j as int,
                        ),
                        right.children@ == old_left.children@.subrange(
                            old_left.children@.len() - j as int,
                            old_left.children@.len() as int,
                        ) + old_right.children@,
                    decreases move_count + 1 - j,
                {
                    let c = match left.children.pop() {
                        Some(c) => c,
                        None => unreached(),
                    };
                    right.children.insert(0, c);
                    proof {
                        assert(left.children@ =~= old_left.children@.subrange(
                            0,
                            old_left.children@.len() - j as int - 1,
                        ));
                        assert(right.children@ =~= old_left.children@.subrange(
                            old_left.children@.len() - j as int - 1,
                            old_left.children@.len() as int,
                        ) + old_right.children@);
                    }
                    j += 1;
                }
                let new_separator = match left.keys.pop() {
                    Some(k2) => k2,
                    None => unreached(),
                };
                proof {
                    let p = target_left_size as int;
                    assert(left.keys@ =~= kk.subrange(0, p - 1));
                    assert(left.children@ =~= cc.subrange(0, p));
                    assert(right.keys@ =~= kk.subrange(p, kk.len() as int));
                    assert(right.children@ =~= cc.subrange(p, cc.len() as int));
                    assert(new_separator == kk[p - 1]);
                    lemma_branch_form_split(kk, cc, p);
                    assert(left.keys@ + seq![new_separator] + right.keys@ =~= kk);
                    assert(left.children@ + right.children@ =~= cc);
                }
                MergeResult::Rebalanced { left, right, separator: new_separator }
            }
        } else {
            left.keys.push(separator);
            left.keys.append(&mut right.keys);
            left.children.append(&mut right.children);
            proof {
                assert(left.keys@ =~= kk);
                assert(left.children@ =~= cc);
            }
            MergeResult::Merged(left)
        }
    }
}

/// The internal keys of a separated pair of well-formed branches lie
/// strictly on their side of the separator.
proof fn lemma_branch_pair_keys<V>(
    ksl: Seq<i64>,
    csl: Seq<Node<V>>,
    ksr: Seq<i64>,
    csr: Seq<Node<V>>,
    separator: i64,
)
    requires
        branch_form_wf(ksl, csl),
        branch_form_wf(ksr, csr),
        csl.len() == ksl.len() + 1,
        csr.len() == ksr.len() + 1,
        entries_below(children_entries(csl), separator),
        entries_at_least(children_entries(csr), separator),
    ensures
        forall|j: int| 0 <= j < ksl.len() ==> #[trigger] ksl[j] < separator,
        forall|j: int| 0 <= j < ksr.len() ==> #[trigger] ksr[j] > separator,
{
    lemma_branch_key_bounds(ksl, csl);
    lemma_branch_key_bounds(ksr, csr);
    let le = children_entries(csl);
    let re = children_entries(csr);
    assert forall|j: int| 0 <= j < ksl.len() implies #[trigger] ksl[j] < separator by {
        assert(le.last().0 >= ksl[j]);
        assert(le[le.len() - 1].0 < separator);
    }
    assert forall|j: int| 0 <= j < ksr.len() implies #[trigger] ksr[j] > separator by {
        assert(re.first().0 < ksr[j]);
        assert(re[0].0 >= separator);
    }
}

/// A separated pair of well-formed branches combines, around its
/// separator, into one well-formed branch form.
proof fn lemma_branch_pair_combined<V>(
    ksl: Seq<i64>,
    csl: Seq<Node<V>>,
    ksr: Seq<i64>,
    csr: Seq<Node<V>>,
    separator: i64,
)
    requires
        branch_form_wf(ksl, csl),
        branch_form_wf(ksr, csr),
        csl.len() == ksl.len() + 1,
        csr.len() == ksr.len() + 1,
        entries_below(children_entries(csl), separator),
        entries_at_least(children_entries(csr), separator),
    ensures
        branch_form_wf(ksl + seq![separator] + ksr, csl + csr),
        (csl + csr).len() == (ksl + seq![separator] + ksr).len() + 1,
        children_entries(csl + csr) == children_entries(csl) + children_entries(csr),
{
    lemma_branch_pair_keys(ksl, csl, ksr, csr, separator);
    lemma_children_entries_concat(csl, csr);
    let kk = ksl + seq![separator] + ksr;
    let cc = csl + csr;
    let nl = csl.len() as int;
    assert forall|i: int, j: int| 0 <= i < j < kk.len() implies kk[i] < kk[j] by {
        if i < ksl.len() && j > ksl.len() {
            assert(kk[i] == ksl[i]);
            assert(kk[j] == ksr[j - ksl.len() - 1]);
            assert(ksl[i] < separator);
            assert(ksr[j - ksl.len() - 1] > separator);
        }
    }
    assert forall|i: int|
        1 <= i < cc.len() implies entries_at_least(node_entries(#[trigger] cc[i]), kk[i - 1]) by {
        if i < nl {
            assert(cc[i] == csl[i]);
            assert(kk[i - 1] == ksl[i - 1]);
        } else if i == nl {
            assert(cc[i] == csr[0]);
            assert(kk[i - 1] == separator);
            lemma_child_bounds(csr, 0, separator);
        } else {
            assert(cc[i] == csr[i - nl]);
            assert(kk[i - 1] == ksr[i - nl - 1]);
        }
    }
    assert forall|i: int|
        0 <= i < cc.len() && i < kk.len() implies entries_below(
        node_entries(#[trigger] cc[i]),
        kk[i],
    ) by {
        if i < nl - 1 {
            assert(cc[i] == csl[i]);
            assert(kk[i] == ksl[i]);
        } else if i == nl - 1 {
            assert(cc[i] == csl[nl - 1]);
            assert(kk[i] == separator);
            lemma_child_bounds(csl, nl - 1, separator);
        } else {
            assert(cc[i] == csr[i - nl]);
            assert(kk[i] == ksr[i - nl]);
        }
    }
    assert forall|i: int| 0 <= i < cc.len() implies node_wf(#[trigger] cc[i]) by {
        if i < nl {
            assert(cc[i] == csl[i]);
        } else {
            assert(cc[i] == csr[i - nl]);
        }
    }
    assert forall|i: int|
        0 <= i < cc.len() implies node_entries(#[trigger] cc[i]).len() >= 1 by {
        if i < nl {
            assert(cc[i] == csl[i]);
        } else {
            assert(cc[i] == csr[i - nl]);
        }
    }
}

/// Splitting a well-formed branch form at a separator yields two
/// well-formed forms, its entries split cleanly around that separator.
pub proof fn lemma_branch_form_split<V>(ks: Seq<i64>, cs: Seq<Node<V>>, p: int)
    requires
        branch_form_wf(ks, cs),
        cs.len() == ks.len() + 1,
        1 <= p <= ks.len(),
    ensures
        branch_form_wf(ks.subrange(0, p - 1), cs.subrange(0, p)),
        branch_form_wf(ks.subrange(p, ks.len() as int), cs.subrange(p, cs.len() as int)),
        children_entries(cs) == children_entries(cs.subrange(0, p)) + children_entries(
            cs.subrange(p, cs.len() as int),
        ),
        entries_below(children_entries(cs.subrange(0, p)), ks[p - 1]),
        entries_at_least(children_entries(cs.subrange(p, cs.len() as int)), ks[p - 1]),
        children_entries(cs.subrange(0, p)).len() >= 1,
        children_entries(cs.subrange(p, cs.len() as int)).len() >= 1,
{
    lemma_children_entries_split(cs, p);
    lemma_branch_prefix_sorted(ks, cs, p);
    lemma_branch_suffix_at_least(ks, cs, p);
    let ksp = ks.subrange(0, p - 1);
    let csp = cs.subrange(0, p);
    let kss = ks.subrange(p, ks.len() as int);
    let css = cs.subrange(p, cs.len() as int);
    assert forall|i: int|
        1 <= i < csp.len() implies entries_at_least(node_entries(#[trigger] csp[i]), ksp[i - 1])
        by {
        assert(csp[i] == cs[i]);
        assert(ksp[i - 1] == ks[i - 1]);
    }
    assert forall|i: int|
        0 <= i < csp.len() && i < ksp.len() implies entries_below(
        node_entries(#[trigger] csp[i]),
        ksp[i],
    ) by {
        assert(csp[i] == cs[i]);
        assert(ksp[i] == ks[i]);
    }
    assert forall|i: int|
        1 <= i < css.len() implies entries_at_least(node_entries(#[trigger] css[i]), kss[i - 1])
        by {
        assert(css[i] == cs[p + i]);
        assert(kss[i - 1] == ks[p + i - 1]);
    }
    assert forall|i: int|
        0 <= i < css.len() && i < kss.len() implies entries_below(
        node_entries(#[trigger] css[i]),
        kss[i],
    ) by {
        assert(css[i] == cs[p + i]);
        assert(kss[i] == ks[p + i]);
    }
    lemma_children_entries_decompose(csp, 0);
    assert(csp[0] == cs[0]);
    lemma_children_entries_decompose(css, 0);
    assert(css[0] == cs[p]);
}

/// The keys of a separated pair of well-formed leaves form one strictly
/// ascending run.
proof fn lemma_leaf_pair_keys_sorted<V>(left: LeafNode<V>, right: LeafNode<V>, separator: i64)
    requires
        leaf_wf(left),
        leaf_wf(right),
        entries_below(leaf_entries(left), separator),
        entries_at_least(leaf_entries(right), separator),
    ensures
        keys_sorted(left.keys@ + right.keys@),
        forall|i: int| 0 <= i < left.keys@.len() ==> #[trigger] left.keys@[i] < separator,
        forall|i: int| 0 <= i < right.keys@.len() ==> #[trigger] right.keys@[i] >= separator,
{
    assert forall|i: int| 0 <= i < left.keys@.len() implies #[trigger] left.keys@[i] < separator by {
        assert(leaf_entries(left)[i].0 < separator);
    }
    assert forall|i: int|
        0 <= i < right.keys@.len() implies #[trigger] right.keys@[i] >= separator by {
        assert(leaf_entries(right)[i].0 >= separator);
    }
}

/// After a leaf rebalance, both halves are well-formed, their entries
/// concatenate to the original pair's, and the boundary is clean.
proof fn lemma_leaf_rebalance_post<V>(
    old_left: LeafNode<V>,
    old_right: LeafNode<V>,
    separator: i64,
    left: LeafNode<V>,
    right: LeafNode<V>,
)
    requires
        leaf_wf(old_left),
        leaf_wf(old_right),
        entries_below(leaf_entries(old_left), separator),
        entries_at_least(leaf_entries(old_right), separator),
        left.keys@.len() == left.values@.len(),
        right.keys@.len() == right.values@.len(),
        right.keys@.len() >= 1,
        left.keys@ + right.keys@ == old_left.keys@ + old_right.keys@,
        left.values@ + right.values@ == old_left.values@ + old_right.values@,
    ensures
        leaf_wf(left),
        leaf_wf(right),
        leaf_entries(left) + leaf_entries(right) == leaf_entries(old_left) + leaf_entries(
            old_right,
        ),
        entries_below(leaf_entries(left), right.keys@[0]),
        entries_at_least(leaf_entries(right), right.keys@[0]),
{
    lemma_leaf_pair_keys_sorted(old_left, old_right, separator);
    let all_keys = old_left.keys@ + old_right.keys@;
    assert forall|i: int| 0 <= i < left.keys@.len() implies #[trigger] left.keys@[i] == all_keys[i]
        by {
        assert((left.keys@ + right.keys@)[i] == left.keys@[i]);
    }
    assert forall|i: int|
        0 <= i < right.keys@.len() implies #[trigger] right.keys@[i] == all_keys[left.keys@.len()
        + i] by {
        assert((left.keys@ + right.keys@)[left.keys@.len() + i] == right.keys@[i]);
    }
    assert(keys_sorted(left.keys@));
    assert(keys_sorted(right.keys@));
    let all_values = old_left.values@ + old_right.values@;
    assert forall|i: int|
        0 <= i < left.values@.len() implies #[trigger] left.values@[i] == all_values[i] by {
        assert((left.values@ + right.values@)[i] == left.values@[i]);
    }
    assert forall|i: int|
        0 <= i < right.values@.len() implies #[trigger] right.values@[i] == all_values[left.values@.len()
        + i] by {
        assert((left.values@ + right.values@)[left.values@.len() + i] == right.values@[i]);
    }
    assert(leaf_entries(left) + leaf_entries(right) =~= leaf_entries(old_left) + leaf_entries(
        old_right,
    ));
    assert forall|i: int|
        0 <= i < leaf_entries(left).len() implies (#[trigger] leaf_entries(left)[i]).0
        < right.keys@[0] by {
        assert(left.keys@[i] == all_keys[i]);
        assert(right.keys@[0] == all_keys[left.keys@.len() as int]);
    }
    assert forall|i: int|
        0 <= i < leaf_entries(right).len() implies (#[trigger] leaf_entries(right)[i]).0
        >= right.keys@[0] by {
        assert(right.keys@[i] == all_keys[left.keys@.len() + i]);
        assert(right.keys@[0] == all_keys[left.keys@.len() as int]);
    }
}

} // verus!
