//! Balancers that drive the overflow and underflow policies: the
//! insertion balancer splits a node that outgrew the branching factor;
//! the removal balancer merges or redistributes a pair of under-full
//! siblings.

use vstd::prelude::*;

use crate::bplus_tree_map::{
    entries_at_least, entries_below, leaf_entries, lemma_children_entries_decompose,
    node_children_bounded, node_entries, node_key_count, node_keys_bounded, node_wf, Node,
};
use crate::node_operations::{
    BranchNodeMerger, BranchNodeSplitter, LeafNodeMerger, LeafNodeSplitter, MergeResult,
    SplitResult,
};

verus! {

/// Result of a node balancing operation.
pub enum BalanceResult<V> {
    /// The node was split into two nodes with a separator key to be
    /// promoted to the parent.
    Split { left: Node<V>, right: Node<V>, separator: i64 },
    /// The pair of nodes was merged into a single node.
    Merged(Node<V>),
    /// The pair of nodes was left as two nodes, with entries possibly
    /// moved between them and the separator recomputed.
    Rebalanced { left: Node<V>, right: Node<V>, separator: i64 },
    /// No change was needed.
    NoChange(Node<V>),
}

/// An interface for balancing policies. The library's own balancers
/// expose their behaviour through inherent methods with full contracts;
/// the trait is the extension point for policies supplied from outside.
pub trait NodeBalancer<V> {
    /// Balance a single node, potentially splitting it.
    fn balance_node(&self, node: Node<V>) -> BalanceResult<V>;

    /// Balance two sibling nodes, potentially merging or rebalancing
    /// them.
    fn balance_nodes(&self, left: Node<V>, right: Node<V>, separator: i64) -> BalanceResult<V>;
}

/// Balancer for insertion operations.
pub struct InsertionBalancer {
    branching_factor: usize,
}

impl InsertionBalancer {
    /// The maximum number of keys allowed in a node.
    pub closed spec fn spec_branching_factor(self) -> usize {
        self.branching_factor
    }

    /// Create a new insertion balancer with the given branching factor.
    pub fn new(branching_factor: usize) -> (b: Self)
        ensures
            b.spec_branching_factor() == branching_factor,
    {
        Self { branching_factor }
    }

    /// Split the node if it outgrew the branching factor; otherwise hand
    /// it back unchanged. The two halves of a split partition the node's
    /// entries around the promoted separator.
    pub fn balance_node<V>(&self, node: Node<V>) -> (r: BalanceResult<V>)
        requires
            node_wf(node),
            self.spec_branching_factor() >= 2,
        ensures
            match r {
                BalanceResult::NoChange(n) => n == node && node_key_count(node)
                    <= self.spec_branching_factor(),
                BalanceResult::Split { left, right, separator } => {
                    &&& node_key_count(node) > self.spec_branching_factor()
                    &&& node_wf(left)
                    &&& node_wf(right)
                    &&& (left is Leaf <==> node is Leaf)
                    &&& (right is Leaf <==> node is Leaf)
                    &&& node_entries(left) + node_entries(right) == node_entries(node)
                    &&& node_entries(left).len() >= 1
                    &&& node_entries(right).len() >= 1
                    &&& entries_below(node_entries(left), separator)
                    &&& entries_at_least(node_entries(right), separator)
                    &&& forall|b2: nat| #![auto]
                        node_children_bounded(node, b2) && node_key_count(node) <= 2 * b2 && b2
                            >= 1 ==> node_keys_bounded(left, b2) && node_keys_bounded(right, b2)
                },
                BalanceResult::Merged(_) => false,
                BalanceResult::Rebalanced { .. } => false,
            },
    {
        match node {
            Node::Leaf(leaf) => {
                let splitter = LeafNodeSplitter::new(self.branching_factor);
                if !splitter.needs_split(&leaf) {
                    return BalanceResult::NoChange(Node::Leaf(leaf));
                }
                match splitter.split(leaf) {
                    SplitResult::Split { left, right, separator } => {
                        proof {
                            assert forall|b2: nat| #![auto]
                                node_children_bounded(node, b2) && node_key_count(node) <= 2
                                    * b2 && b2 >= 1 implies node_keys_bounded(
                                Node::Leaf(left),
                                b2,
                            ) && node_keys_bounded(Node::Leaf(right), b2) by {}
                        }
                        BalanceResult::Split {
                            left: Node::Leaf(left),
                            right: Node::Leaf(right),
                            separator,
                        }
                    },
                    SplitResult::NoSplit(leaf) => BalanceResult::NoChange(Node::Leaf(leaf)),
                }
            },
            Node::Branch(branch) => {
                let splitter = BranchNodeSplitter::new(self.branching_factor);
                if !splitter.needs_split(&branch) {
                    return BalanceResult::NoChange(Node::Branch(branch));
                }
                proof {
                    // an over-full branch has at least one separator, so
                    // it is not of the childless shape
                    assert(branch.children@.len() == branch.keys@.len() + 1);
                }
                match splitter.split(branch) {
                    SplitResult::Split { left, right, separator } => {
                        proof {
                            lemma_children_entries_decompose(left.children@, 0);
                            lemma_children_entries_decompose(right.children@, 0);
                            assert forall|b2: nat| #![auto]
                                node_children_bounded(node, b2) && node_key_count(node) <= 2
                                    * b2 && b2 >= 1 implies node_keys_bounded(
                                Node::Branch(left),
                                b2,
                            ) && node_keys_bounded(Node::Branch(right), b2) by {
                                assert forall|i: int|
                                    0 <= i < left.children@.len() implies node_keys_bounded(
                                    #[trigger] left.children@[i],
                                    b2,
                                ) by {
                                    assert(left.children@[i] == branch.children@[i]);
                                }
                                assert forall|i: int|
                                    0 <= i < right.children@.len() implies node_keys_bounded(
                                    #[trigger] right.children@[i],
                                    b2,
                                ) by {
                                    assert(right.children@[i] == branch.children@[i
                                        + branch.keys@.len() as int / 2 + 1]);
                                }
                            }
                        }
                        BalanceResult::Split {
                            left: Node::Branch(left),
                            right: Node::Branch(right),
                            separator,
                        }
                    },
                    SplitResult::NoSplit(branch) => BalanceResult::NoChange(Node::Branch(branch)),
                }
            },
        }
    }

    /// The insertion balancer never needs to balance a pair of nodes:
    /// the left one is handed back unchanged.
    pub fn balance_nodes<V>(&self, left: Node<V>, _right: Node<V>, _separator: i64) -> (r:
        BalanceResult<V>)
        ensures
            r == BalanceResult::<V>::NoChange(left),
    {
        BalanceResult::NoChange(left)
    }
}

/// Balancer for removal operations.
pub struct RemovalBalancer {
    min_keys: usize,
}

impl RemovalBalancer {
    /// The minimum number of keys required in a node.
    pub closed spec fn spec_min_keys(self) -> usize {
        self.min_keys
    }

    /// Create a new removal balancer for the given branching factor; the
    /// minimum occupancy is half of it.
    pub fn new(branching_factor: usize) -> (b: Self)
        ensures
            b.spec_min_keys() == branching_factor / 2,
    {
        let min_keys = branching_factor / 2;
        Self { min_keys }
    }

    /// The removal balancer never changes a single node.
    pub fn balance_node<V>(&self, node: Node<V>) -> (r: BalanceResult<V>)
        ensures
            r == BalanceResult::<V>::NoChange(node),
    {
        BalanceResult::NoChange(node)
    }

    /// Balance a pair of siblings separated by the given key: merge them
    /// when either is under-full and the pair cannot fill two nodes,
    /// redistribute to half occupancy when it can, and hand a pair that
    /// needs no attention — or a mixed-kind pair — back unchanged. In
    /// every outcome the entries of the pair are preserved, in order,
    /// and any remaining boundary is clean. A branch pair counts the
    /// separator between the two nodes towards its combined size.
    #[verifier::rlimit(100)]
    #[verifier::spinoff_prover]
    pub fn balance_nodes<V>(&self, left: Node<V>, right: Node<V>, separator: i64) -> (r:
        BalanceResult<V>)
        requires
            node_wf(left),
            node_wf(right),
            node_entries(left).len() >= 1,
            node_entries(right).len() >= 1,
            entries_below(node_entries(left), separator),
            entries_at_least(node_entries(right), separator),
            self.spec_min_keys() >= 1,
            node_key_count(left) + node_key_count(right) + 1 <= usize::MAX,
            self.spec_min_keys() * 2 <= usize::MAX,
        ensures
            ({
                let lc = node_key_count(left);
                let rc = node_key_count(right);
                let min = self.spec_min_keys();
                let total = lc + rc + (if left is Branch {
                    1nat
                } else {
                    0nat
                });
                match r {
                    BalanceResult::Merged(m) => {
                        &&& node_wf(m)
                        &&& node_entries(m) == node_entries(left) + node_entries(right)
                        &&& node_entries(m).len() >= 1
                        &&& (left is Leaf <==> right is Leaf)
                        &&& (m is Leaf <==> left is Leaf)
                        &&& (lc < min || rc < min)
                        &&& total < 2 * min
                        &&& node_key_count(m) == total
                    },
                    BalanceResult::Rebalanced { left: l2, right: r2, separator: s2 } => {
                        &&& node_wf(l2)
                        &&& node_wf(r2)
                        &&& node_entries(l2) + node_entries(r2) == node_entries(left)
                            + node_entries(right)
                        &&& node_entries(l2).len() >= 1
                        &&& node_entries(r2).len() >= 1
                        &&& entries_below(node_entries(l2), s2)
                        &&& entries_at_least(node_entries(r2), s2)
                        &&& (l2 is Leaf <==> left is Leaf)
                        &&& (r2 is Leaf <==> right is Leaf)
                        &&& ((left is Leaf <==> right is Leaf) && lc >= min && rc >= min
                            ==> l2 == left && r2 == right && s2 == separator)
                        &&& (!(left is Leaf <==> right is Leaf) ==> l2 == left && r2 == right
                            && s2 == separator)
                        &&& ((left is Leaf <==> right is Leaf) && (lc < min || rc < min) ==> {
                            &&& total >= 2 * min
                            &&& node_key_count(l2) == (if left is Leaf || lc + 1 <= total / 2 {
                                (total / 2) as int
                            } else {
                                (total / 2) as int - 1
                            })
                            &&& node_key_count(l2) + node_key_count(r2) + (if left is Branch {
                                1nat
                            } else {
                                0nat
                            }) == total
                        })
                    },
                    BalanceResult::Split { .. } => false,
                    BalanceResult::NoChange(_) => false,
                }
            }),
            forall|b2: nat| #![auto]
                node_keys_bounded(left, b2) && node_keys_bounded(right, b2) && 2
                    * self.spec_min_keys() <= b2 ==> (match r {
                    BalanceResult::Merged(m) => node_keys_bounded(m, b2),
                    BalanceResult::Rebalanced { left: l2, right: r2, .. } => node_keys_bounded(
                        l2,
                        b2,
                    ) && node_keys_bounded(r2, b2),
                    _ => true,
                }),
    {
        match (left, right) {
            (Node::Leaf(left_leaf), Node::Leaf(right_leaf)) => {
                let merger = LeafNodeMerger::new(self.min_keys * 2);
                if !merger.needs_merge(&left_leaf, &right_leaf) {
                    return BalanceResult::Rebalanced {
                        left: Node::Leaf(left_leaf),
                        right: Node::Leaf(right_leaf),
                        separator,
                    };
                }
                match merger.merge(left_leaf, right_leaf, separator) {
                    MergeResult::Merged(leaf) => {
                        proof {
                            assert(leaf.keys@.len() == left_leaf.keys@.len()
                                + right_leaf.keys@.len()) by {
                                assert(leaf_entries(leaf).len() == (leaf_entries(left_leaf)
                                    + leaf_entries(right_leaf)).len());
                            }
                        }
                        BalanceResult::Merged(Node::Leaf(leaf))
                    },
                    MergeResult::Rebalanced { left: nl, right: nr, separator: ns } => {
                        proof {
                            assert(nl.keys@.len() + nr.keys@.len() == left_leaf.keys@.len()
                                + right_leaf.keys@.len()) by {
                                assert((leaf_entries(nl) + leaf_entries(nr)).len()
                                    == (leaf_entries(left_leaf) + leaf_entries(
                                    right_leaf,
                                )).len());
                            }
                        }
                        BalanceResult::Rebalanced {
                            left: Node::Leaf(nl),
                            right: Node::Leaf(nr),
                            separator: ns,
                        }
                    },
                    MergeResult::NoMerge { left: nl, right: nr, separator: ns } => {
                        BalanceResult::Rebalanced {
                            left: Node::Leaf(nl),
                            right: Node::Leaf(nr),
                            separator: ns,
                        }
                    },
                }
            },
            (Node::Branch(left_branch), Node::Branch(right_branch)) => {
                proof {
                    // nodes that still hold entries are never of the
                    // childless shape
                    assert(left_branch.children@.len() == left_branch.keys@.len() + 1);
                    assert(right_branch.children@.len() == right_branch.keys@.len() + 1);
                }
                let merger = BranchNodeMerger::new(self.min_keys * 2);
                if !merger.needs_merge(&left_branch, &right_branch) {
                    return BalanceResult::Rebalanced {
                        left: Node::Branch(left_branch),
                        right: Node::Branch(right_branch),
                        separator,
                    };
                }
                match merger.merge(left_branch, right_branch, separator) {
                    MergeResult::Merged(branch) => {
                        proof {
                            assert(branch.keys@.len() == left_branch.keys@.len() + 1
                                + right_branch.keys@.len()) by {
                                assert(branch.keys@ == left_branch.keys@ + seq![separator]
                                    + right_branch.keys@);
                            }
                            assert forall|b2: nat| #![auto]
                                node_keys_bounded(Node::Branch(left_branch), b2)
                                    && node_keys_bounded(Node::Branch(right_branch), b2) && 2
                                    * self.spec_min_keys() <= b2 implies node_keys_bounded(
                                Node::Branch(branch),
                                b2,
                            ) by {
                                assert forall|j: int|
                                    0 <= j < branch.children@.len() implies node_keys_bounded(
                                    #[trigger] branch.children@[j],
                                    b2,
                                ) by {
                                    assert(branch.children@[j] == (left_branch.children@
                                        + right_branch.children@)[j]);
                                    if j < left_branch.children@.len() {
                                        assert(branch.children@[j]
                                            == left_branch.children@[j]);
                                    } else {
                                        assert(branch.children@[j] == right_branch.children@[j
                                            - left_branch.children@.len()]);
                                    }
                                }
                            }
                        }
                        BalanceResult::Merged(Node::Branch(branch))
                    },
                    MergeResult::Rebalanced { left: nl, right: nr, separator: ns } => {
                        proof {
                            assert(nl.keys@.len() + 1 + nr.keys@.len() == left_branch.keys@.len()
                                + 1 + right_branch.keys@.len()) by {
                                assert((nl.keys@ + seq![ns] + nr.keys@).len()
                                    == (left_branch.keys@ + seq![separator]
                                    + right_branch.keys@).len());
                            }
                            assert forall|b2: nat| #![auto]
                                node_keys_bounded(Node::Branch(left_branch), b2)
                                    && node_keys_bounded(Node::Branch(right_branch), b2) && 2
                                    * self.spec_min_keys() <= b2 implies node_keys_bounded(
                                Node::Branch(nl),
                                b2,
                            ) && node_keys_bounded(Node::Branch(nr), b2) by {
                                let orig = left_branch.children@ + right_branch.children@;
                                assert forall|j: int|
                                    0 <= j < orig.len() implies node_keys_bounded(
                                    #[trigger] orig[j],
                                    b2,
                                ) by {
                                    if j < left_branch.children@.len() {
                                        assert(orig[j] == left_branch.children@[j]);
                                    } else {
                                        assert(orig[j] == right_branch.children@[j
                                            - left_branch.children@.len()]);
                                    }
                                }
                                assert(nl.children@ + nr.children@ == orig);
                                assert forall|j: int|
                                    0 <= j < nl.children@.len() implies node_keys_bounded(
                                    #[trigger] nl.children@[j],
                                    b2,
                                ) by {
                                    assert(nl.children@[j] == orig[j]);
                                }
                                assert forall|j: int|
                                    0 <= j < nr.children@.len() implies node_keys_bounded(
                                    #[trigger] nr.children@[j],
                                    b2,
                                ) by {
                                    assert(nr.children@[j] == orig[nl.children@.len() + j]);
                                }
                            }
                        }
                        BalanceResult::Rebalanced {
                            left: Node::Branch(nl),
                            right: Node::Branch(nr),
                            separator: ns,
                        }
                    },
                    MergeResult::NoMerge { left: nl, right: nr, separator: ns } => {
                        BalanceResult::Rebalanced {
                            left: Node::Branch(nl),
                            right: Node::Branch(nr),
                            separator: ns,
                        }
                    },
                }
            },
            (left_node, right_node) => BalanceResult::Rebalanced {
                left: left_node,
                right: right_node,
                separator,
            },
        }
    }
}

} // verus!
