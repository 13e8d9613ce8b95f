//! An interval tree: an AVL tree of half-open intervals, each carrying a
//! value, that answers overlap queries.

use vstd::prelude::*;

pub mod interval;
pub mod node;
pub mod iterators;

pub use interval::{Interval, IntervalKey};
pub use iterators::{Entry, EntryMut, IntervalTreeIterator, IntervalTreeIteratorMut};

use interval::{span_lt, Span};
use iterators::overlapping_keys;
use node::{
    lemma_aggregates_exact, lemma_balanced_intro, lemma_balanced_parts, lemma_map_parts,
    lemma_opt_bounds, lemma_ordered_aggregates_exact, lemma_size_is_len, opt_aggregates_exact,
    opt_balanced, opt_height, opt_map, opt_ordered, opt_size, opt_true_height, opt_wf,
    Node,
};

verus! {

/// An interval tree mapping distinct intervals to values.
#[derive(Debug)]
pub struct IntervalTree<T: IntervalKey, V> {
    root: Option<Box<Node<T, V>>>,
}

/// The subtree ordering at `n` holds: every key on the left orders before the
/// node's own interval, every key on the right after it.
pub open spec fn search_order_at<T: IntervalKey, V>(n: Node<T, V>) -> bool {
    &&& forall|k: Span| #[trigger]
        opt_map(n.left_child).contains_key(k) ==> span_lt(k, n.interval@)
    &&& forall|k: Span| #[trigger]
        opt_map(n.right_child).contains_key(k) ==> span_lt(n.interval@, k)
}

/// Height of the left subtree minus height of the right one.
pub open spec fn balance_of<T: IntervalKey, V>(n: Node<T, V>) -> int {
    opt_height(n.left_child) - opt_height(n.right_child)
}

/// `k` is a key of `m` and orders before every other key of `m`.
pub open spec fn is_least<V>(m: Map<Span, V>, k: Span) -> bool {
    m.contains_key(k) && forall|j: Span| #[trigger] m.contains_key(j) ==> j == k || span_lt(k, j)
}

/// `k` is a key of `m` and orders after every other key of `m`.
pub open spec fn is_greatest<V>(m: Map<Span, V>, k: Span) -> bool {
    m.contains_key(k) && forall|j: Span| #[trigger] m.contains_key(j) ==> j == k || span_lt(j, k)
}

/// The interval of the last node of a subtree in search order.
pub open spec fn rightmost<T: IntervalKey, V>(n: Node<T, V>) -> Span
    decreases n,
{
    match n.right_child {
        Some(c) => rightmost(*c),
        None => n.interval@,
    }
}

/// `m` with `e` added, unless its interval is already a key of `m`.
pub open spec fn insert_new<T: IntervalKey, V>(m: Map<Span, V>, e: (Interval<T>, V)) -> Map<Span, V> {
    if m.contains_key(e.0@) {
        m
    } else {
        m.insert(e.0@, e.1)
    }
}

/// The entries of an empty tree after inserting each of `s` in order.
pub open spec fn built_from<T: IntervalKey, V>(s: Seq<(Interval<T>, V)>) -> Map<Span, V>
    decreases s.len(),
{
    if s.len() == 0 {
        Map::empty()
    } else {
        insert_new(built_from(s.drop_last()), s.last())
    }
}

impl<T: IntervalKey, V> Default for IntervalTree<T, V> {
    /// An empty tree.
    fn default() -> (r: Self)
        ensures
            r.wf(),
            r@ == Map::<Span, V>::empty(),
    {
        IntervalTree::new()
    }
}

impl<T: IntervalKey, V> View for IntervalTree<T, V> {
    type V = Map<Span, V>;

    /// The stored entries, each interval with its value.
    open spec fn view(&self) -> Map<Span, V> {
        opt_map(self.spec_root())
    }
}

impl<T: IntervalKey, V> IntervalTree<T, V> {
    /// The root node, if any.
    pub closed spec fn spec_root(&self) -> Option<Box<Node<T, V>>> {
        self.root
    }

    /// Every node orders its left subtree strictly before its own interval
    /// and its right subtree strictly after, keeps exact aggregates, and
    /// has subtrees whose heights differ by at most one.
    pub open spec fn wf(&self) -> bool {
        opt_ordered(self.spec_root()) && opt_balanced(self.spec_root())
    }

    /// The height of the tree by its definition: -1 when empty.
    pub open spec fn spec_height(&self) -> int {
        opt_true_height(self.spec_root())
    }

    /// In a well-formed tree, every node's stored max, height and size equal
    /// their definitions over the node's subtree.
    pub proof fn lemma_aggregates_exact(&self)
        requires
            self.wf(),
        ensures
            opt_aggregates_exact(self.spec_root()),
    {
        lemma_ordered_aggregates_exact(self.spec_root());
    }
}

impl<T: IntervalKey, V> IntervalTree<T, V> {
    /// Single right rotation: the left child takes the node's place and the
    /// node becomes its right child.
    fn rotate_right(node: Box<Node<T, V>>) -> (r: Box<Node<T, V>>)
        requires
            node.left_child is Some,
            search_order_at(*node),
            opt_ordered(node.left_child),
            opt_ordered(node.right_child),
            node.size as int == 1 + opt_size(node.left_child) + opt_size(node.right_child),
            node.size <= i64::MAX,
        ensures
            r.interval == node.left_child.unwrap().interval,
            r.left_child == node.left_child.unwrap().left_child,
            r.right_child matches Some(m) && m.interval == node.interval
                && m.left_child == node.left_child.unwrap().right_child
                && m.right_child == node.right_child,
            r.ordered(),
            r.as_map() == node.as_map(),
            r.size == node.size,
    {
        let ghost n0 = *node;
        let ghost pivot = *node.left_child.unwrap();
        proof {
            lemma_opt_bounds(n0.left_child);
            lemma_opt_bounds(n0.right_child);
            lemma_opt_bounds(pivot.left_child);
            lemma_opt_bounds(pivot.right_child);
            assert(opt_map(n0.left_child) == pivot.as_map());
            assert forall|k: Span| #[trigger] opt_map(pivot.right_child).contains_key(k) implies span_lt(k, n0.interval@) by {
                lemma_map_parts(pivot, k);
            }
            assert forall|k: Span| #[trigger] opt_map(pivot.left_child).contains_key(k) implies span_lt(k, n0.interval@) by {
                lemma_map_parts(pivot, k);
            }
            lemma_map_parts(pivot, pivot.interval@);
        }
        let mut node = node;
        let mut y = node.left_child.unwrap();
        node.left_child = y.right_child;
        y.size = node.size;
        node.update_height();
        node.update_size();
        node.update_max();
        let ghost m = *node;
        proof {
            assert(node.ordered());
            assert forall|k: Span| #[trigger] m.as_map().contains_key(k) implies span_lt(pivot.interval@, k) by {
                lemma_map_parts(m, k);
                lemma_map_parts(pivot, k);
            }
            assert(opt_map(n0.right_child) == opt_map(m.right_child));
            assert(opt_map(pivot.left_child) == opt_map(y.left_child));
        }
        y.right_child = Some(node);
        y.update_height();
        y.update_max();
        proof {
            assert(opt_map(y.right_child) == m.as_map());
            assert forall|k: Span| #[trigger] y.as_map().contains_key(k) <==> n0.as_map().contains_key(k) by {
                lemma_map_parts(*y, k);
                lemma_map_parts(m, k);
                lemma_map_parts(pivot, k);
                lemma_map_parts(n0, k);
            }
            assert(y.as_map() =~= n0.as_map());
        }
        y
    }

    /// Single left rotation: the right child takes the node's place and the
    /// node becomes its left child.
    fn rotate_left(node: Box<Node<T, V>>) -> (r: Box<Node<T, V>>)
        requires
            node.right_child is Some,
            search_order_at(*node),
            opt_ordered(node.right_child),
            opt_ordered(node.left_child),
            node.size as int == 1 + opt_size(node.right_child) + opt_size(node.left_child),
            node.size <= i64::MAX,
        ensures
            r.interval == node.right_child.unwrap().interval,
            r.right_child == node.right_child.unwrap().right_child,
            r.left_child matches Some(m) && m.interval == node.interval
                && m.right_child == node.right_child.unwrap().left_child
                && m.left_child == node.left_child,
            r.ordered(),
            r.as_map() == node.as_map(),
            r.size == node.size,
    {
        let ghost n0 = *node;
        let ghost pivot = *node.right_child.unwrap();
        proof {
            lemma_opt_bounds(n0.right_child);
            lemma_opt_bounds(n0.left_child);
            lemma_opt_bounds(pivot.right_child);
            lemma_opt_bounds(pivot.left_child);
            assert(opt_map(n0.right_child) == pivot.as_map());
            assert forall|k: Span| #[trigger] opt_map(pivot.left_child).contains_key(k) implies span_lt(n0.interval@, k) by {
                lemma_map_parts(pivot, k);
            }
            assert forall|k: Span| #[trigger] opt_map(pivot.right_child).contains_key(k) implies span_lt(n0.interval@, k) by {
                lemma_map_parts(pivot, k);
            }
            lemma_map_parts(pivot, pivot.interval@);
        }
        let mut node = node;
        let mut y = node.right_child.unwrap();
        node.right_child = y.left_child;
        y.size = node.size;
        node.update_height();
        node.update_size();
        node.update_max();
        let ghost m = *node;
        proof {
            assert(node.ordered());
            assert forall|k: Span| #[trigger] m.as_map().contains_key(k) implies span_lt(k, pivot.interval@) by {
                lemma_map_parts(m, k);
                lemma_map_parts(pivot, k);
            }
            assert(opt_map(n0.left_child) == opt_map(m.left_child));
            assert(opt_map(pivot.right_child) == opt_map(y.right_child));
        }
        y.left_child = Some(node);
        y.update_height();
        y.update_max();
        proof {
            assert(opt_map(y.left_child) == m.as_map());
            assert forall|k: Span| #[trigger] y.as_map().contains_key(k) <==> n0.as_map().contains_key(k) by {
                lemma_map_parts(*y, k);
                lemma_map_parts(m, k);
                lemma_map_parts(pivot, k);
                lemma_map_parts(n0, k);
            }
            assert(y.as_map() =~= n0.as_map());
        }
        y
    }

    /// Restores balance at a node whose subtrees are balanced and differ in
    /// height by at most two.
    fn balance(node: Box<Node<T, V>>) -> (r: Box<Node<T, V>>)
        requires
            node.ordered(),
            opt_balanced(node.left_child),
            opt_balanced(node.right_child),
            -2 <= balance_of(*node) <= 2,
        ensures
            r.wf(),
            r.as_map() == node.as_map(),
            r.size == node.size,
            node.height - 1 <= r.height <= node.height,
            -1 <= balance_of(*node) <= 1 ==> r == node,
            balance_of(*node) == 2 && balance_of(*node.left_child.unwrap()) != 0 ==> r.height
                == node.height - 1,
            balance_of(*node) == -2 && balance_of(*node.right_child.unwrap()) != 0 ==> r.height
                == node.height - 1,
    {
        let ghost n0 = *node;
        proof {
            lemma_opt_bounds(n0.left_child);
            lemma_opt_bounds(n0.right_child);
            lemma_balanced_parts(n0.left_child);
            lemma_balanced_parts(n0.right_child);
            if n0.left_child is Some {
                lemma_balanced_parts(n0.left_child.unwrap().left_child);
                lemma_balanced_parts(n0.left_child.unwrap().right_child);
            }
            if n0.right_child is Some {
                lemma_balanced_parts(n0.right_child.unwrap().left_child);
                lemma_balanced_parts(n0.right_child.unwrap().right_child);
            }
        }
        let mut node = node;
        if Node::balance_factor(&node) < -1 {
            let ghost c = *n0.right_child.unwrap();
            proof {
                lemma_opt_bounds(c.left_child);
                lemma_opt_bounds(c.right_child);
            }
            if Node::balance_factor(node.right_child.as_ref().unwrap()) > 0 {
                let ghost g = *c.left_child.unwrap();
                proof {
                    lemma_opt_bounds(g.left_child);
                    lemma_opt_bounds(g.right_child);
                }
                node.right_child = Some(IntervalTree::rotate_right(node.right_child.unwrap()));
                proof {
                    let c2 = *node.right_child.unwrap();
                    lemma_opt_bounds(c2.right_child);
                    assert forall|k: Span| #[trigger] opt_map(node.right_child).contains_key(k) implies span_lt(n0.interval@, k) by {
                        assert(opt_map(n0.right_child).contains_key(k));
                    }
                }
            }
            node = IntervalTree::rotate_left(node);
            proof {
                lemma_opt_bounds(node.left_child);
                lemma_opt_bounds(node.right_child);
                IntervalTree::lemma_rotated_balanced(*node);
            }
        } else if Node::balance_factor(&node) > 1 {
            let ghost c = *n0.left_child.unwrap();
            proof {
                lemma_opt_bounds(c.left_child);
                lemma_opt_bounds(c.right_child);
            }
            if Node::balance_factor(node.left_child.as_ref().unwrap()) < 0 {
                let ghost g = *c.right_child.unwrap();
                proof {
                    lemma_opt_bounds(g.left_child);
                    lemma_opt_bounds(g.right_child);
                }
                node.left_child = Some(IntervalTree::rotate_left(node.left_child.unwrap()));
                proof {
                    let c2 = *node.left_child.unwrap();
                    lemma_opt_bounds(c2.left_child);
                    assert forall|k: Span| #[trigger] opt_map(node.left_child).contains_key(k) implies span_lt(k, n0.interval@) by {
                        assert(opt_map(n0.left_child).contains_key(k));
                    }
                }
            }
            node = IntervalTree::rotate_right(node);
            proof {
                lemma_opt_bounds(node.left_child);
                lemma_opt_bounds(node.right_child);
                IntervalTree::lemma_rotated_balanced(*node);
            }
        }
        node
    }

    /// After a rotation, each new child is balanced where its heights allow.
    proof fn lemma_rotated_balanced(r: Node<T, V>)
        requires
            r.ordered(),
            r.left_child matches Some(m) ==> opt_balanced(m.left_child) && opt_balanced(m.right_child),
            r.right_child matches Some(m) ==> opt_balanced(m.left_child) && opt_balanced(m.right_child),
        ensures
            r.left_child matches Some(m) && m.locally_balanced() ==> opt_balanced(r.left_child),
            r.right_child matches Some(m) && m.locally_balanced() ==> opt_balanced(r.right_child),
    {
        lemma_opt_bounds(r.left_child);
        lemma_opt_bounds(r.right_child);
        if r.left_child is Some && r.left_child.unwrap().locally_balanced() {
            lemma_balanced_intro(*r.left_child.unwrap());
        }
        if r.right_child is Some && r.right_child.unwrap().locally_balanced() {
            lemma_balanced_intro(*r.right_child.unwrap());
        }
    }

    /// Inserts into a subtree and rebalances on the way back up.
    fn insert_helper(node: Option<Box<Node<T, V>>>, interval: Interval<T>, value: V, max: T) -> (r:
        Box<Node<T, V>>)
        requires
            opt_wf(node),
            opt_size(node) < usize::MAX,
            opt_size(node) < i64::MAX,
            max == interval.end,
        ensures
            r.wf(),
            r.as_map() == (if opt_map(node).contains_key(interval@) {
                opt_map(node)
            } else {
                opt_map(node).insert(interval@, value)
            }),
            r.size == opt_size(node) + (if opt_map(node).contains_key(interval@) {
                0int
            } else {
                1int
            }),
            opt_height(node) <= r.height <= opt_height(node) + 1,
            node is Some && r.height == opt_height(node) + 1 ==> balance_of(*r) != 0,
            opt_map(node).contains_key(interval@) ==> node == Some(r),
        decreases node,
    {
        proof {
            lemma_opt_bounds(node);
            lemma_balanced_parts(node);
        }
        if node.is_none() {
            let leaf = Box::new(Node::new(interval, value, max, 0, 1));
            proof {
                assert(leaf.as_map() =~= Map::empty().insert(interval@, value));
                lemma_balanced_intro(*leaf);
            }
            return leaf;
        }
        let mut node_ref = node.unwrap();
        let ghost n0 = *node_ref;
        proof {
            lemma_opt_bounds(n0.left_child);
            lemma_opt_bounds(n0.right_child);
        }
        match interval.compare(&node_ref.interval) {
            core::cmp::Ordering::Less => {
                node_ref.left_child = Some(
                    IntervalTree::insert_helper(node_ref.left_child, interval, value, max),
                );
                proof {
                    assert forall|k: Span| #[trigger] opt_map(node_ref.left_child).contains_key(k) implies span_lt(k, n0.interval@) by {
                        if k != interval@ {
                            assert(opt_map(n0.left_child).contains_key(k));
                        }
                    }
                    assert(!opt_map(n0.right_child).contains_key(interval@));
                }
            },
            core::cmp::Ordering::Greater => {
                node_ref.right_child = Some(
                    IntervalTree::insert_helper(node_ref.right_child, interval, value, max),
                );
                proof {
                    assert forall|k: Span| #[trigger] opt_map(node_ref.right_child).contains_key(k) implies span_lt(n0.interval@, k) by {
                        if k != interval@ {
                            assert(opt_map(n0.right_child).contains_key(k));
                        }
                    }
                    assert(!opt_map(n0.left_child).contains_key(interval@));
                }
            },
            core::cmp::Ordering::Equal => {
                proof {
                    lemma_map_parts(n0, interval@);
                }
                return node_ref;
            },
        }
        node_ref.update_height();
        node_ref.update_size();
        node_ref.update_max();
        proof {
            lemma_opt_bounds(node_ref.left_child);
            lemma_opt_bounds(node_ref.right_child);
            if opt_map(node).contains_key(interval@) {
                T::lemma_rank_injective(node_ref.max, n0.max);
                assert(*node_ref == n0);
            }
            assert forall|k: Span| #[trigger] node_ref.as_map().contains_key(k) <==> (if opt_map(node).contains_key(interval@) {
                opt_map(node)
            } else {
                opt_map(node).insert(interval@, value)
            }).contains_key(k) by {
                lemma_map_parts(*node_ref, k);
                lemma_map_parts(n0, k);
            }
            assert(node_ref.as_map() =~= (if opt_map(node).contains_key(interval@) {
                opt_map(node)
            } else {
                opt_map(node).insert(interval@, value)
            }));
        }
        IntervalTree::balance(node_ref)
    }

    /// Detaches the least node of a subtree: returns what remains and that
    /// node, now a leaf.
    fn take_min(node: Box<Node<T, V>>) -> (r: (Option<Box<Node<T, V>>>, Box<Node<T, V>>))
        requires
            node.wf(),
        ensures
            opt_wf(r.0),
            r.1.wf(),
            r.1.left_child is None,
            r.1.right_child is None,
            node.as_map().contains_key(r.1.interval@),
            node.as_map()[r.1.interval@] == r.1.value,
            opt_map(r.0) == node.as_map().remove(r.1.interval@),
            forall|k: Span| #[trigger] opt_map(r.0).contains_key(k) ==> span_lt(r.1.interval@, k),
            opt_size(r.0) == node.size - 1,
            node.height - 1 <= opt_height(r.0) <= node.height,
        decreases node,
    {
        let ghost n0 = *node;
        proof {
            lemma_opt_bounds(n0.left_child);
            lemma_opt_bounds(n0.right_child);
            lemma_balanced_parts(Some(node));
        }
        let mut node = node;
        if node.left_child.is_none() {
            let n = *node;
            let end = n.interval.end;
            let leaf = Box::new(Node::new(n.interval, n.value, end, 0, 1));
            proof {
                lemma_balanced_intro(*leaf);
                lemma_map_parts(n0, n0.interval@);
                assert(opt_map(n.right_child) =~= n0.as_map().remove(n0.interval@));
            }
            return (n.right_child, leaf);
        }
        let (rest, min) = IntervalTree::take_min(node.left_child.unwrap());
        node.left_child = rest;
        proof {
            lemma_opt_bounds(node.left_child);
            assert forall|k: Span| #[trigger] opt_map(node.left_child).contains_key(k) implies span_lt(k, n0.interval@) by {
                assert(opt_map(n0.left_child).contains_key(k));
            }
            assert(opt_map(n0.left_child).contains_key(min.interval@));
            assert forall|k: Span| #[trigger] opt_map(n0.right_child).contains_key(k) implies span_lt(min.interval@, k) by {
            }
        }
        node.update_height();
        node.update_size();
        node.update_max();
        proof {
            lemma_map_parts(n0, min.interval@);
            assert(!opt_map(n0.right_child).contains_key(min.interval@));
            assert(n0.as_map()[min.interval@] == opt_map(n0.left_child)[min.interval@]);
            assert forall|k: Span| #[trigger] node.as_map().contains_key(k) <==> n0.as_map().remove(min.interval@).contains_key(k) by {
                lemma_map_parts(*node, k);
                lemma_map_parts(n0, k);
            }
            assert(node.as_map() =~= n0.as_map().remove(min.interval@));
            assert forall|k: Span| #[trigger] node.as_map().contains_key(k) implies span_lt(min.interval@, k) by {
                lemma_map_parts(*node, k);
            }
        }
        (Some(IntervalTree::balance(node)), min)
    }

    /// Removes `interval` from a subtree and rebalances on the way back up.
    fn delete_helper(node: Option<Box<Node<T, V>>>, interval: &Interval<T>) -> (r: Option<
        Box<Node<T, V>>,
    >)
        requires
            opt_wf(node),
        ensures
            opt_wf(r),
            opt_map(r) == opt_map(node).remove(interval@),
            opt_size(r) == opt_size(node) - (if opt_map(node).contains_key(interval@) {
                1int
            } else {
                0int
            }),
            opt_height(node) - 1 <= opt_height(r) <= opt_height(node),
            !opt_map(node).contains_key(interval@) ==> r == node,
        decreases node,
    {
        proof {
            lemma_opt_bounds(node);
            lemma_balanced_parts(node);
        }
        match node {
            None => {
                proof {
                    assert(opt_map(node) =~= opt_map(node).remove(interval@));
                }
                None
            },
            Some(mut node) => {
                let ghost n0 = *node;
                proof {
                    lemma_opt_bounds(n0.left_child);
                    lemma_opt_bounds(n0.right_child);
                    lemma_map_parts(n0, interval@);
                }
                match interval.compare(&node.interval) {
                    core::cmp::Ordering::Less => {
                        node.left_child = IntervalTree::delete_helper(node.left_child.take(), interval);
                        proof {
                            assert forall|k: Span| #[trigger] opt_map(node.left_child).contains_key(k) implies span_lt(k, n0.interval@) by {
                                assert(opt_map(n0.left_child).contains_key(k));
                            }
                            assert(!opt_map(n0.right_child).contains_key(interval@));
                        }
                    },
                    core::cmp::Ordering::Greater => {
                        node.right_child = IntervalTree::delete_helper(node.right_child.take(), interval);
                        proof {
                            assert forall|k: Span| #[trigger] opt_map(node.right_child).contains_key(k) implies span_lt(n0.interval@, k) by {
                                assert(opt_map(n0.right_child).contains_key(k));
                            }
                            assert(!opt_map(n0.left_child).contains_key(interval@));
                        }
                    },
                    core::cmp::Ordering::Equal => {
                        if node.left_child.is_none() {
                            proof {
                                assert(opt_map(n0.right_child) =~= n0.as_map().remove(interval@));
                            }
                            return node.right_child;
                        } else if node.right_child.is_none() {
                            proof {
                                assert(opt_map(n0.left_child) =~= n0.as_map().remove(interval@));
                            }
                            return node.left_child;
                        } else {
                            let y = *node;
                            let (rest, min) = IntervalTree::take_min(y.right_child.unwrap());
                            node = min;
                            node.right_child = rest;
                            node.left_child = y.left_child;
                            proof {
                                lemma_opt_bounds(node.right_child);
                                assert(opt_map(n0.right_child).contains_key(node.interval@));
                                assert forall|k: Span| #[trigger] opt_map(node.left_child).contains_key(k) implies span_lt(k, node.interval@) by {
                                }
                                assert forall|k: Span| #[trigger] node.as_map().contains_key(k) <==> n0.as_map().remove(interval@).contains_key(k) by {
                                    lemma_map_parts(*node, k);
                                    lemma_map_parts(n0, k);
                                    if opt_map(n0.right_child).contains_key(k) && k != node.interval@ {
                                        assert(opt_map(node.right_child).contains_key(k));
                                    }
                                }
                            }
                        }
                    },
                }
                node.update_height();
                node.update_size();
                node.update_max();
                proof {
                    if !n0.as_map().contains_key(interval@) {
                        T::lemma_rank_injective(node.max, n0.max);
                        assert(*node == n0);
                    }
                    assert forall|k: Span| #[trigger] node.as_map().contains_key(k) <==> n0.as_map().remove(interval@).contains_key(k) by {
                        lemma_map_parts(*node, k);
                        lemma_map_parts(n0, k);
                    }
                    assert(node.as_map() =~= n0.as_map().remove(interval@));
                }
                Some(IntervalTree::balance(node))
            },
        }
    }

    /// Removes the least entry of a subtree.
    fn delete_min_helper(node: Box<Node<T, V>>) -> (r: Option<Box<Node<T, V>>>)
        requires
            node.wf(),
        ensures
            opt_wf(r),
            exists|k: Span| #[trigger]
                is_least(node.as_map(), k) && opt_map(r) == node.as_map().remove(k),
            opt_size(r) == node.size - 1,
    {
        let (rest, min) = IntervalTree::take_min(node);
        proof {
            assert forall|j: Span| #[trigger] node.as_map().contains_key(j) implies j == min.interval@ || span_lt(min.interval@, j) by {
                if j != min.interval@ {
                    assert(opt_map(rest).contains_key(j));
                }
            }
            assert(is_least(node.as_map(), min.interval@));
        }
        rest
    }

    /// Removes the greatest entry of a subtree.
    fn delete_max_helper(node: Box<Node<T, V>>) -> (r: Option<Box<Node<T, V>>>)
        requires
            node.wf(),
        ensures
            opt_wf(r),
            is_greatest(node.as_map(), rightmost(*node)),
            opt_map(r) == node.as_map().remove(rightmost(*node)),
            opt_size(r) == node.size - 1,
            node.height - 1 <= opt_height(r) <= node.height,
        decreases node,
    {
        let ghost n0 = *node;
        proof {
            lemma_opt_bounds(n0.left_child);
            lemma_opt_bounds(n0.right_child);
            lemma_balanced_parts(Some(node));
            assert forall|j: Span| #[trigger] n0.as_map().contains_key(j) implies span_lt(j, n0.interval@) || j == n0.interval@ || opt_map(n0.right_child).contains_key(j) by {
                lemma_map_parts(n0, j);
            }
        }
        let mut node = node;
        if node.right_child.is_none() {
            proof {
                lemma_map_parts(n0, n0.interval@);
                assert(opt_map(n0.left_child) =~= n0.as_map().remove(n0.interval@));
            }
            return node.left_child.take();
        }
        let ghost c = *n0.right_child.unwrap();
        node.right_child = IntervalTree::delete_max_helper(node.right_child.unwrap());
        proof {
            lemma_opt_bounds(node.right_child);
            assert(rightmost(n0) == rightmost(c));
            assert(opt_map(n0.right_child).contains_key(rightmost(n0)));
            assert forall|k: Span| #[trigger] opt_map(node.right_child).contains_key(k) implies span_lt(n0.interval@, k) by {
                assert(opt_map(n0.right_child).contains_key(k));
            }
            assert forall|k: Span| #[trigger] opt_map(n0.left_child).contains_key(k) implies span_lt(k, rightmost(n0)) by {
            }
        }
        node.update_height();
        node.update_size();
        node.update_max();
        proof {
            let m = rightmost(n0);
            lemma_map_parts(n0, m);
            assert forall|k: Span| #[trigger] node.as_map().contains_key(k) <==> n0.as_map().remove(m).contains_key(k) by {
                lemma_map_parts(*node, k);
                lemma_map_parts(n0, k);
            }
            assert(node.as_map() =~= n0.as_map().remove(m));
        }
        Some(IntervalTree::balance(node))
    }

    /// An empty tree.
    pub fn new() -> (r: Self)
        ensures
            r.wf(),
            r@ == Map::<Span, V>::empty(),
    {
        IntervalTree { root: None }
    }

    /// The tree holds no interval.
    pub fn is_empty(&self) -> (r: bool)
        requires
            self.wf(),
        ensures
            r == (self@.len() == 0),
            r == (self@ == Map::<Span, V>::empty()),
    {
        proof {
            lemma_size_is_len(self.root);
            if self.root is Some {
                lemma_map_parts(*self.root.unwrap(), self.root.unwrap().interval@);
            } else {
                assert(self@ =~= Map::<Span, V>::empty());
            }
        }
        self.root.is_none()
    }

    /// The number of stored intervals.
    pub fn size(&self) -> (r: usize)
        requires
            self.wf(),
        ensures
            r == self@.len(),
    {
        proof {
            lemma_size_is_len(self.root);
        }
        Node::size(&self.root)
    }

    /// The height of the tree: -1 when empty, 0 for a single interval.
    pub fn height(&self) -> (r: i64)
        requires
            self.wf(),
        ensures
            r == self.spec_height(),
            r == -1 <==> self@.len() == 0,
    {
        proof {
            lemma_opt_bounds(self.root);
            lemma_aggregates_exact(self.root, 0);
            lemma_size_is_len(self.root);
        }
        Node::height(&self.root)
    }

    /// A lazy query for the stored intervals that overlap `interval`.
    pub fn query(&self, interval: Interval<T>) -> (r: IntervalTreeIterator<'_, T, V>)
        requires
            self.wf(),
        ensures
            r.wf(),
            r.entries() == self@,
            r.query_span() == interval@,
            r.pending() == overlapping_keys(self@, interval@),
    {
        proof {
            lemma_opt_bounds(self.root);
        }
        IntervalTreeIterator::start(&self.root, interval)
    }

    /// A lazy query for the stored intervals that overlap `interval`, handing
    /// out each one's value for change.
    pub fn query_mut(&mut self, interval: Interval<T>) -> (r: IntervalTreeIteratorMut<'_, T, V>)
        requires
            old(self).wf(),
        ensures
            r.wf(),
            r.entries() == old(self)@,
            r.query_span() == interval@,
            r.pending() == overlapping_keys(old(self)@, interval@),
    {
        proof {
            lemma_opt_bounds(self.root);
        }
        IntervalTreeIteratorMut::start(&mut self.root, interval)
    }

    /// Stores `value` under `interval`, unless the interval is already
    /// stored: then the tree keeps its value and is left unchanged.
    pub fn insert(&mut self, interval: Interval<T>, value: V)
        requires
            old(self).wf(),
            old(self)@.len() < usize::MAX,
            old(self)@.len() < i64::MAX,
        ensures
            final(self).wf(),
            final(self)@ == (if old(self)@.contains_key(interval@) {
                old(self)@
            } else {
                old(self)@.insert(interval@, value)
            }),
            old(self)@.contains_key(interval@) ==> *final(self) == *old(self),
            final(self)@.len() == old(self)@.len() + (if old(self)@.contains_key(interval@) {
                0int
            } else {
                1int
            }),
    {
        proof {
            lemma_size_is_len(self.root);
        }
        let max = interval.end;
        let root = IntervalTree::insert_helper(self.root.take(), interval, value, max);
        self.root = Some(root);
        proof {
            lemma_size_is_len(self.root);
        }
    }

    /// Removes the entry stored under `interval`, if there is one.
    pub fn delete(&mut self, interval: Interval<T>)
        requires
            old(self).wf(),
        ensures
            final(self).wf(),
            final(self)@ == old(self)@.remove(interval@),
            !old(self)@.contains_key(interval@) ==> *final(self) == *old(self),
            final(self)@.len() == old(self)@.len() - (if old(self)@.contains_key(interval@) {
                1int
            } else {
                0int
            }),
    {
        proof {
            lemma_size_is_len(self.root);
            assert(!old(self)@.contains_key(interval@) ==> old(self)@.remove(interval@) =~= old(self)@);
        }
        if !self.is_empty() {
            self.root = IntervalTree::delete_helper(self.root.take(), &interval);
        }
        proof {
            lemma_size_is_len(self.root);
        }
    }

    /// Removes the entry with the least interval; does nothing on an empty
    /// tree.
    pub fn delete_min(&mut self)
        requires
            old(self).wf(),
        ensures
            final(self).wf(),
            old(self)@.len() == 0 ==> final(self)@ == old(self)@,
            old(self)@.len() > 0 ==> exists|k: Span| #[trigger]
                is_least(old(self)@, k) && final(self)@ == old(self)@.remove(k),
    {
        if !self.is_empty() {
            self.root = IntervalTree::delete_min_helper(self.root.take().unwrap());
        }
    }

    /// Removes the entry with the greatest interval; does nothing on an empty
    /// tree.
    pub fn delete_max(&mut self)
        requires
            old(self).wf(),
        ensures
            final(self).wf(),
            old(self)@.len() == 0 ==> final(self)@ == old(self)@,
            old(self)@.len() > 0 ==> exists|k: Span| #[trigger]
                is_greatest(old(self)@, k) && final(self)@ == old(self)@.remove(k),
    {
        if !self.is_empty() {
            let root = self.root.take().unwrap();
            let ghost k = rightmost(*root);
            self.root = IntervalTree::delete_max_helper(root);
            proof {
                assert(is_greatest(old(self)@, k));
            }
        }
    }

    /// A tree holding the given entries, inserted in order: where two share
    /// an interval, the first one's value is kept.
    pub fn from_entries(entries: Vec<(Interval<T>, V)>) -> (r: Self)
        requires
            entries@.len() <= i64::MAX,
        ensures
            r.wf(),
            r@ == built_from(entries@),
    {
        let ghost s = entries@;
        let n = entries.len();
        let mut entries = entries;
        let mut reversed: Vec<(Interval<T>, V)> = Vec::new();
        while entries.len() > 0
            invariant
                entries@.len() + reversed@.len() == n,
                n == s.len(),
                entries@ == s.subrange(0, entries@.len() as int),
                forall|j: int| 0 <= j < reversed@.len() ==> #[trigger] reversed@[j] == s[n - 1 - j],
            decreases entries@.len(),
        {
            let e = entries.pop().unwrap();
            reversed.push(e);
        }
        let mut ret = IntervalTree::new();
        let mut i: usize = 0;
        while i < n
            invariant
                i + reversed@.len() == n,
                n == s.len(),
                n <= i64::MAX,
                ret.wf(),
                ret@ == built_from(s.subrange(0, i as int)),
                ret@.len() <= i,
                forall|j: int| 0 <= j < reversed@.len() ==> #[trigger] reversed@[j] == s[n - 1 - j],
            decreases n - i,
        {
            let ghost before = reversed@;
            let (interval, value) = reversed.pop().unwrap();
            proof {
                assert(before[before.len() - 1] == s[i as int]);
                assert(s.subrange(0, i + 1).drop_last() =~= s.subrange(0, i as int));
                assert(forall|j: int| 0 <= j < reversed@.len() ==> reversed@[j] == before[j]);
            }
            ret.insert(interval, value);
            i = i + 1;
        }
        proof {
            assert(s.subrange(0, n as int) =~= s);
        }
        ret
    }

    /// Removes every entry.
    pub fn clear(&mut self)
        ensures
            final(self).wf(),
            final(self)@ == Map::<Span, V>::empty(),
    {
        self.root = None;
    }
}

} // verus!
