use vstd::prelude::*;

use crate::interval::{max_int, span_lt, Interval, IntervalKey, Span};

verus! {

/// A tree node: one interval with its value, the two subtrees it owns, and
/// the aggregates of its whole subtree.
#[derive(Debug)]
pub struct Node<T: IntervalKey, V> {
    pub interval: Interval<T>,
    pub value: V,
    /// The greatest end over this subtree.
    pub max: T,
    /// The longest path from this node down to a leaf (a leaf has 0).
    pub height: usize,
    /// The number of nodes in this subtree.
    pub size: usize,
    pub left_child: Option<Box<Node<T, V>>>,
    pub right_child: Option<Box<Node<T, V>>>,
}

/// The stored height of a subtree, -1 for an absent one.
pub open spec fn opt_height<T: IntervalKey, V>(n: Option<Box<Node<T, V>>>) -> int {
    match n {
        Some(b) => b.height as int,
        None => -1,
    }
}

/// The stored size of a subtree, 0 for an absent one.
pub open spec fn opt_size<T: IntervalKey, V>(n: Option<Box<Node<T, V>>>) -> int {
    match n {
        Some(b) => b.size as int,
        None => 0,
    }
}

/// `d` raised to the stored max of a subtree, if there is one.
pub open spec fn opt_max_or<T: IntervalKey, V>(n: Option<Box<Node<T, V>>>, d: int) -> int {
    match n {
        Some(b) => max_int(d, b.max.rank()),
        None => d,
    }
}

/// The entries of a subtree.
pub open spec fn opt_map<T: IntervalKey, V>(n: Option<Box<Node<T, V>>>) -> Map<Span, V>
    decreases n,
{
    match n {
        Some(b) => b.as_map(),
        None => Map::empty(),
    }
}

/// Search order and exact aggregates hold in the whole subtree.
pub open spec fn opt_ordered<T: IntervalKey, V>(n: Option<Box<Node<T, V>>>) -> bool
    decreases n,
{
    match n {
        Some(b) => b.ordered(),
        None => true,
    }
}

/// Every node of the subtree is balanced.
pub open spec fn opt_balanced<T: IntervalKey, V>(n: Option<Box<Node<T, V>>>) -> bool
    decreases n,
{
    match n {
        Some(b) => b.balanced(),
        None => true,
    }
}

/// The subtree is ordered and balanced.
pub open spec fn opt_wf<T: IntervalKey, V>(n: Option<Box<Node<T, V>>>) -> bool {
    opt_ordered(n) && opt_balanced(n)
}

/// The height of a subtree by its definition, -1 when absent.
pub open spec fn opt_true_height<T: IntervalKey, V>(n: Option<Box<Node<T, V>>>) -> int
    decreases n,
{
    match n {
        Some(b) => 1 + max_int(opt_true_height(b.left_child), opt_true_height(b.right_child)),
        None => -1,
    }
}

/// The number of nodes of a subtree by its definition.
pub open spec fn opt_true_size<T: IntervalKey, V>(n: Option<Box<Node<T, V>>>) -> int
    decreases n,
{
    match n {
        Some(b) => 1 + opt_true_size(b.left_child) + opt_true_size(b.right_child),
        None => 0,
    }
}

/// `d` raised to the greatest end in a subtree, by its definition.
pub open spec fn opt_true_max_or<T: IntervalKey, V>(n: Option<Box<Node<T, V>>>, d: int) -> int
    decreases n,
{
    match n {
        Some(b) => opt_true_max_or(
            b.right_child,
            opt_true_max_or(b.left_child, max_int(d, b.interval.end.rank())),
        ),
        None => d,
    }
}

/// The stored fields of an ordered subtree stay in range.
pub proof fn lemma_opt_bounds<T: IntervalKey, V>(n: Option<Box<Node<T, V>>>)
    requires
        opt_ordered(n),
    ensures
        -1 <= opt_height(n) < opt_size(n) <= i64::MAX,
        n matches Some(b) ==> b.ordered(),
{
}

/// The keys of a subtree are those of its root and of its two children.
pub proof fn lemma_map_parts<T: IntervalKey, V>(n: Node<T, V>, k: Span)
    ensures
        n.as_map().contains_key(k) <==> (k == n.interval@ || opt_map(n.left_child).contains_key(k)
            || opt_map(n.right_child).contains_key(k)),
{
}

/// What a balanced subtree says of its root.
pub proof fn lemma_balanced_parts<T: IntervalKey, V>(n: Option<Box<Node<T, V>>>)
    requires
        opt_balanced(n),
    ensures
        n matches Some(b) ==> b.locally_balanced() && opt_balanced(b.left_child) && opt_balanced(
            b.right_child,
        ),
{
}

/// A node is balanced when it is locally and both its subtrees are.
pub proof fn lemma_balanced_intro<T: IntervalKey, V>(n: Node<T, V>)
    requires
        n.locally_balanced(),
        opt_balanced(n.left_child),
        opt_balanced(n.right_child),
    ensures
        n.balanced(),
        opt_balanced(Some(Box::new(n))),
{
}

/// An ordered subtree holds exactly as many entries as its stored size.
pub proof fn lemma_size_is_len<T: IntervalKey, V>(n: Option<Box<Node<T, V>>>)
    requires
        opt_ordered(n),
    ensures
        opt_map(n).dom().finite(),
        opt_map(n).len() == opt_size(n),
    decreases n,
{
    match n {
        Some(b) => {
            lemma_size_is_len(b.left_child);
            lemma_size_is_len(b.right_child);
            let l = opt_map(b.left_child);
            let r = opt_map(b.right_child);
            assert(l.dom().disjoint(r.dom())) by {
                assert forall|k: Span| l.dom().contains(k) implies !r.dom().contains(k) by {
                    assert(span_lt(k, b.interval@));
                }
            }
            vstd::set_lib::lemma_set_disjoint_lens(l.dom(), r.dom());
            assert(l.union_prefer_right(r).dom() =~= l.dom() + r.dom());
            assert(!l.union_prefer_right(r).contains_key(b.interval@));
        },
        None => {},
    }
}

/// In an ordered subtree the stored height, size and max equal their
/// definitions over the whole subtree.
pub proof fn lemma_aggregates_exact<T: IntervalKey, V>(n: Option<Box<Node<T, V>>>, d: int)
    requires
        opt_ordered(n),
    ensures
        opt_height(n) == opt_true_height(n),
        opt_size(n) == opt_true_size(n),
        opt_max_or(n, d) == opt_true_max_or(n, d),
    decreases n,
{
    match n {
        Some(b) => {
            let e = max_int(d, b.interval.end.rank());
            lemma_aggregates_exact(b.left_child, e);
            lemma_aggregates_exact(b.right_child, opt_true_max_or(b.left_child, e));
            lemma_aggregates_exact(b.left_child, b.interval.end.rank());
            lemma_aggregates_exact(b.right_child, opt_max_or(b.left_child, b.interval.end.rank()));
        },
        None => {},
    }
}

/// Every node of a subtree holds the max, height and size of its own
/// subtree, by their definitions.
pub open spec fn opt_aggregates_exact<T: IntervalKey, V>(n: Option<Box<Node<T, V>>>) -> bool
    decreases n,
{
    match n {
        Some(b) => {
            &&& b.max.rank() == opt_true_max_or(
                b.right_child,
                opt_true_max_or(b.left_child, b.interval.end.rank()),
            )
            &&& b.height as int == opt_true_height(n)
            &&& b.size as int == opt_true_size(n)
            &&& opt_aggregates_exact(b.left_child)
            &&& opt_aggregates_exact(b.right_child)
        },
        None => true,
    }
}

/// The stored aggregates of every node of an ordered subtree are exact.
pub proof fn lemma_ordered_aggregates_exact<T: IntervalKey, V>(n: Option<Box<Node<T, V>>>)
    requires
        opt_ordered(n),
    ensures
        opt_aggregates_exact(n),
    decreases n,
{
    if let Some(b) = n {
        lemma_aggregates_exact(n, 0);
        lemma_aggregates_exact(b.left_child, b.interval.end.rank());
        lemma_aggregates_exact(
            b.right_child,
            opt_true_max_or(b.left_child, b.interval.end.rank()),
        );
        lemma_ordered_aggregates_exact(b.left_child);
        lemma_ordered_aggregates_exact(b.right_child);
    }
}

/// Every end in an ordered subtree is at most its stored max.
pub proof fn lemma_ends_bounded<T: IntervalKey, V>(n: Node<T, V>, k: Span)
    requires
        n.ordered(),
        n.as_map().contains_key(k),
    ensures
        k.1 <= n.max.rank(),
    decreases n,
{
    lemma_map_parts(n, k);
    if k != n.interval@ {
        if opt_map(n.left_child).contains_key(k) {
            lemma_ends_bounded(*n.left_child.unwrap(), k);
        } else {
            lemma_ends_bounded(*n.right_child.unwrap(), k);
        }
    }
}

impl<T: IntervalKey, V> Node<T, V> {
    /// The entries of this subtree, keyed by interval.
    pub open spec fn as_map(self) -> Map<Span, V>
        decreases self,
    {
        opt_map(self.left_child).union_prefer_right(opt_map(self.right_child)).insert(
            self.interval@,
            self.value,
        )
    }

    /// Search order and aggregates hold at this node, given its children's
    /// stored fields.
    pub open spec fn locally_ordered(self) -> bool {
        &&& forall|k: Span| #[trigger]
            opt_map(self.left_child).contains_key(k) ==> span_lt(k, self.interval@)
        &&& forall|k: Span| #[trigger]
            opt_map(self.right_child).contains_key(k) ==> span_lt(self.interval@, k)
        &&& self.height as int == 1 + max_int(
            opt_height(self.left_child),
            opt_height(self.right_child),
        )
        &&& self.size as int == 1 + opt_size(self.left_child) + opt_size(self.right_child)
        &&& self.max.rank() == opt_max_or(
            self.right_child,
            opt_max_or(self.left_child, self.interval.end.rank()),
        )
        &&& self.height < self.size
        &&& self.size <= i64::MAX
    }

    /// Search order and aggregates hold at every node of this subtree.
    pub open spec fn ordered(self) -> bool
        decreases self,
    {
        &&& self.locally_ordered()
        &&& opt_ordered(self.left_child)
        &&& opt_ordered(self.right_child)
    }

    /// The heights of this node's subtrees differ by at most one.
    pub open spec fn locally_balanced(self) -> bool {
        -1 <= opt_height(self.left_child) - opt_height(self.right_child) <= 1
    }

    /// Every node of this subtree is balanced.
    pub open spec fn balanced(self) -> bool
        decreases self,
    {
        &&& self.locally_balanced()
        &&& opt_balanced(self.left_child)
        &&& opt_balanced(self.right_child)
    }

    /// A well-formed subtree: ordered, with exact aggregates, and balanced.
    pub open spec fn wf(self) -> bool {
        self.ordered() && self.balanced()
    }

    /// A fresh node with no children.
    pub fn new(interval: Interval<T>, value: V, max: T, height: usize, size: usize) -> (r: Self)
        ensures
            r.interval == interval,
            r.value == value,
            r.max == max,
            r.height == height,
            r.size == size,
            r.left_child is None,
            r.right_child is None,
    {
        Node { interval, value, max, height, size, left_child: None, right_child: None }
    }

    /// Height of the left subtree minus height of the right one.
    pub fn balance_factor(&self) -> (r: i64)
        requires
            opt_height(self.left_child) < i64::MAX,
            opt_height(self.right_child) < i64::MAX,
        ensures
            r == opt_height(self.left_child) - opt_height(self.right_child),
    {
        Node::height(&self.left_child) - Node::height(&self.right_child)
    }

    /// Recomputes the height from the children's heights.
    pub fn update_height(&mut self)
        requires
            opt_height(old(self).left_child) < usize::MAX,
            opt_height(old(self).right_child) < usize::MAX,
            opt_height(old(self).left_child) < i64::MAX,
            opt_height(old(self).right_child) < i64::MAX,
        ensures
            *final(self) == (Node {
                height: (1 + max_int(
                    opt_height(old(self).left_child),
                    opt_height(old(self).right_child),
                )) as usize,
                ..*old(self)
            }),
    {
        let h = 1 + Node::max_height(&self.left_child, &self.right_child);
        self.height = h as usize;
    }

    /// Recomputes the size from the children's sizes.
    pub fn update_size(&mut self)
        requires
            1 + opt_size(old(self).left_child) + opt_size(old(self).right_child) <= usize::MAX,
        ensures
            *final(self) == (Node {
                size: (1 + opt_size(old(self).left_child) + opt_size(
                    old(self).right_child,
                )) as usize,
                ..*old(self)
            }),
    {
        self.size = 1 + Node::size(&self.left_child) + Node::size(&self.right_child);
    }

    /// Recomputes the max from this node's end and the children's maxima.
    pub fn update_max(&mut self)
        ensures
            final(self).max.rank() == opt_max_or(
                old(self).right_child,
                opt_max_or(old(self).left_child, old(self).interval.end.rank()),
            ),
            final(self).interval == old(self).interval,
            final(self).value == old(self).value,
            final(self).height == old(self).height,
            final(self).size == old(self).size,
            final(self).left_child == old(self).left_child,
            final(self).right_child == old(self).right_child,
    {
        let mut m = self.interval.end;
        match &self.left_child {
            Some(l) => {
                if m.less(&l.max) {
                    m = l.max;
                }
            },
            None => {},
        }
        match &self.right_child {
            Some(r) => {
                if m.less(&r.max) {
                    m = r.max;
                }
            },
            None => {},
        }
        self.max = m;
    }

    /// The greater of two subtree heights.
    pub fn max_height(node1: &Option<Box<Node<T, V>>>, node2: &Option<Box<Node<T, V>>>) -> (r: i64)
        requires
            opt_height(*node1) <= i64::MAX,
            opt_height(*node2) <= i64::MAX,
        ensures
            r == max_int(opt_height(*node1), opt_height(*node2)),
    {
        let a = Node::height(node1);
        let b = Node::height(node2);
        if a < b {
            b
        } else {
            a
        }
    }

    /// The stored height of a subtree, -1 when absent.
    pub fn height(node: &Option<Box<Node<T, V>>>) -> (r: i64)
        requires
            opt_height(*node) <= i64::MAX,
        ensures
            r == opt_height(*node),
    {
        match node {
            Some(n) => n.height as i64,
            None => -1,
        }
    }

    /// The stored size of a subtree, 0 when absent.
    pub fn size(node: &Option<Box<Node<T, V>>>) -> (r: usize)
        ensures
            r == opt_size(*node),
    {
        match node {
            Some(n) => n.size,
            None => 0,
        }
    }
}

} // verus!
