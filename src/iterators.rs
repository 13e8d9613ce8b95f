use vstd::prelude::*;

use crate::interval::{span_lt, spans_overlap, Interval, IntervalKey, Span};
use crate::node::{lemma_ends_bounded, lemma_map_parts, lemma_opt_bounds, opt_map, Node};

verus! {

/// One stored interval and its value, as found by an overlap query.
#[derive(PartialEq, Eq, Debug)]
pub struct Entry<'a, T: IntervalKey, V> {
    pub value: &'a V,
    pub interval: &'a Interval<T>,
}

/// The keys of `m` that share a point with `q`.
pub open spec fn overlapping_keys<V>(m: Map<Span, V>, q: Span) -> Set<Span> {
    Set::new(|k: Span| m.contains_key(k) && spans_overlap(k, q))
}

/// The number of nodes in the subtrees of a work-list.
pub open spec fn stack_weight<T: IntervalKey, V>(s: Seq<Node<T, V>>) -> nat
    decreases s.len(),
{
    if s.len() == 0 {
        0
    } else {
        stack_weight(s.drop_last()) + s.last().size as nat
    }
}

/// The work-list with a subtree added on top, when there is one.
pub open spec fn push_child<T: IntervalKey, V>(s: Seq<Node<T, V>>, c: Option<Box<Node<T, V>>>) -> Seq<
    Node<T, V>,
> {
    match c {
        Some(b) => s.push(*b),
        None => s,
    }
}

/// The intervals of a work-list's subtrees that overlap `q`.
pub open spec fn pending_of<T: IntervalKey, V>(s: Seq<Node<T, V>>, q: Span) -> Set<Span> {
    Set::new(
        |k: Span|
            spans_overlap(k, q) && exists|i: int|
                0 <= i < s.len() && #[trigger] s[i].as_map().contains_key(k),
    )
}

/// Each subtree of a work-list is ordered, holds entries of `entries`, and
/// shares no interval with another.
pub open spec fn stack_ok<T: IntervalKey, V>(s: Seq<Node<T, V>>, entries: Map<Span, V>) -> bool {
    &&& forall|i: int| 0 <= i < s.len() ==> #[trigger] s[i].ordered()
    &&& forall|i: int, k: Span|
        0 <= i < s.len() && #[trigger] s[i].as_map().contains_key(k) ==> entries.contains_key(k)
            && entries[k] == s[i].as_map()[k]
    &&& forall|i: int, j: int, k: Span|
        0 <= i < j < s.len() && #[trigger] s[i].as_map().contains_key(k) ==> !(
        #[trigger] s[j].as_map().contains_key(k))
}

/// The work-list after visiting its top node under the pruning rule.
pub open spec fn next_stack<T: IntervalKey, V>(s: Seq<Node<T, V>>, q: Span) -> Seq<Node<T, V>> {
    let cur = s.last();
    let rest = s.drop_last();
    if q.0 < cur.max.rank() {
        if cur.interval.start.rank() < q.1 {
            push_child(push_child(rest, cur.left_child), cur.right_child)
        } else {
            push_child(rest, cur.left_child)
        }
    } else {
        rest
    }
}

/// A lazy overlap query over a tree: yields every stored interval that
/// overlaps the query interval, each once.
pub struct IntervalTreeIterator<'a, T: IntervalKey, V> {
    pub(crate) nodes: Vec<&'a Node<T, V>>,
    pub(crate) interval: Interval<T>,
    pub(crate) entries: Ghost<Map<Span, V>>,
}

impl<'a, T: IntervalKey, V> IntervalTreeIterator<'a, T, V> {
    /// The entries of the tree being queried.
    pub closed spec fn entries(&self) -> Map<Span, V> {
        self.entries@
    }

    /// The query interval.
    pub closed spec fn query_span(&self) -> Span {
        self.interval@
    }

    /// The subtrees still to visit, bottom first.
    pub closed spec fn stack(&self) -> Seq<Node<T, V>> {
        self.nodes@.map_values(|n: &Node<T, V>| *n)
    }

    /// The intervals not yet yielded.
    pub closed spec fn pending(&self) -> Set<Span> {
        pending_of(self.stack(), self.interval@)
    }

    /// The work-list is well formed for the entries being queried.
    pub closed spec fn wf(&self) -> bool {
        stack_ok(self.stack(), self.entries@)
    }

    /// Visiting the top node keeps the work-list well formed, makes it
    /// lighter, and leaves pending exactly the intervals other than the top
    /// node's.
    proof fn lemma_step(s: Seq<Node<T, V>>, q: Span, entries: Map<Span, V>)
        requires
            stack_ok(s, entries),
            s.len() > 0,
        ensures
            stack_ok(next_stack(s, q), entries),
            stack_weight(next_stack(s, q)) < stack_weight(s),
            pending_of(next_stack(s, q), q) == pending_of(s, q).remove(s.last().interval@),
            pending_of(s, q).contains(s.last().interval@) == spans_overlap(s.last().interval@, q),
            entries.contains_key(s.last().interval@),
            entries[s.last().interval@] == s.last().value,
            !(q.0 < s.last().max.rank() && s.last().interval.start.rank() < q.1) ==> !spans_overlap(
                s.last().interval@,
                q,
            ),
    {
        let cur = s.last();
        let rest = s.drop_last();
        let n = next_stack(s, q);
        assert(s[s.len() - 1] == cur);
        assert(cur.ordered());
        lemma_opt_bounds(cur.left_child);
        lemma_opt_bounds(cur.right_child);
        lemma_map_parts(cur, cur.interval@);
        assert(cur.as_map().contains_key(cur.interval@));
        assert(pending_of(s, q).contains(cur.interval@) == spans_overlap(cur.interval@, q));
        assert forall|k: Span| #[trigger] opt_map(cur.left_child).contains_key(k) implies cur.as_map().contains_key(k) && cur.as_map()[k] == opt_map(cur.left_child)[k] by {
            lemma_map_parts(cur, k);
            assert(!opt_map(cur.right_child).contains_key(k));
        }
        assert forall|k: Span| #[trigger] opt_map(cur.right_child).contains_key(k) implies cur.as_map().contains_key(k) && cur.as_map()[k] == opt_map(cur.right_child)[k] by {
            lemma_map_parts(cur, k);
            assert(span_lt(cur.interval@, k));
        }
        // The subtrees that the rule leaves out hold no overlapping interval.
        assert forall|k: Span| cur.as_map().contains_key(k) && !(q.0 < cur.max.rank()) implies !spans_overlap(k, q) by {
            lemma_ends_bounded(cur, k);
        }
        assert forall|k: Span| #[trigger] opt_map(cur.right_child).contains_key(k) && !(cur.interval.start.rank() < q.1) implies !spans_overlap(k, q) by {
            assert(span_lt(cur.interval@, k));
        }
        // The shape of the new work-list.
        let lp = q.0 < cur.max.rank() && cur.left_child is Some;
        let rp = q.0 < cur.max.rank() && cur.interval.start.rank() < q.1 && cur.right_child is Some;
        let base = rest.len() as int;
        assert(n.len() == base + (if lp { 1int } else { 0int }) + (if rp { 1int } else { 0int }));
        assert(forall|i: int| 0 <= i < base ==> n[i] == s[i]);
        assert(lp ==> n[base] == *cur.left_child.unwrap());
        assert(rp ==> n[n.len() - 1] == *cur.right_child.unwrap());
        assert(stack_weight(n) < stack_weight(s)) by {
            assert(s.drop_last() == rest);
            assert(stack_weight(s) == stack_weight(rest) + cur.size);
            let l1 = push_child(rest, cur.left_child);
            if cur.left_child is Some {
                assert(l1.drop_last() =~= rest);
                assert(stack_weight(l1) == stack_weight(rest) + cur.left_child.unwrap().size);
            }
            if cur.right_child is Some {
                let l2 = push_child(l1, cur.right_child);
                assert(l2.drop_last() =~= l1);
                assert(stack_weight(l2) == stack_weight(l1) + cur.right_child.unwrap().size);
            }
        }
        assert forall|k: Span| #[trigger] pending_of(n, q).contains(k) <==> pending_of(s, q).remove(cur.interval@).contains(k) by {
            if pending_of(s, q).remove(cur.interval@).contains(k) {
                let i = choose|i: int| 0 <= i < s.len() && #[trigger] s[i].as_map().contains_key(k);
                if i < base {
                    assert(n[i] == s[i]);
                    assert(n[i].as_map().contains_key(k));
                } else {
                    assert(i == s.len() - 1);
                    assert(cur.as_map().contains_key(k));
                    lemma_map_parts(cur, k);
                    assert(q.0 < cur.max.rank());
                    if opt_map(cur.left_child).contains_key(k) {
                        assert(n[base] == *cur.left_child.unwrap());
                        assert(n[base].as_map().contains_key(k));
                    } else {
                        assert(opt_map(cur.right_child).contains_key(k));
                        assert(cur.interval.start.rank() < q.1);
                        assert(n[n.len() - 1] == *cur.right_child.unwrap());
                        assert(n[n.len() - 1].as_map().contains_key(k));
                    }
                }
            }
            if pending_of(n, q).contains(k) {
                let i = choose|i: int| 0 <= i < n.len() && #[trigger] n[i].as_map().contains_key(k);
                if i < base {
                    assert(s[i] == n[i]);
                    assert(s[i].as_map().contains_key(k));
                    assert(s[s.len() - 1].as_map().contains_key(cur.interval@));
                    assert(k != cur.interval@);
                } else if lp && i == base {
                    assert(n[i] == *cur.left_child.unwrap());
                    assert(opt_map(cur.left_child).contains_key(k));
                    assert(span_lt(k, cur.interval@));
                    assert(s[s.len() - 1].as_map().contains_key(k));
                } else {
                    assert(n[i] == *cur.right_child.unwrap());
                    assert(opt_map(cur.right_child).contains_key(k));
                    assert(span_lt(cur.interval@, k));
                    assert(s[s.len() - 1].as_map().contains_key(k));
                }
            }
        }
        assert(pending_of(n, q) =~= pending_of(s, q).remove(cur.interval@));
        assert forall|i: int| 0 <= i < n.len() implies #[trigger] n[i].ordered() by {
            if i >= base {
                if lp && i == base {
                } else {
                    assert(n[i] == *cur.right_child.unwrap());
                }
            }
        }
        assert forall|i: int, k: Span| 0 <= i < n.len() && #[trigger] n[i].as_map().contains_key(k) implies entries.contains_key(k) && entries[k] == n[i].as_map()[k] by {
            if i >= base {
                if lp && i == base {
                    assert(n[i] == *cur.left_child.unwrap());
                    assert(opt_map(cur.left_child).contains_key(k));
                } else {
                    assert(n[i] == *cur.right_child.unwrap());
                    assert(opt_map(cur.right_child).contains_key(k));
                }
                assert(s[s.len() - 1].as_map().contains_key(k));
            }
        }
        assert forall|i: int, j: int, k: Span| 0 <= i < j < n.len() && #[trigger] n[i].as_map().contains_key(k) implies !(#[trigger] n[j].as_map().contains_key(k)) by {
            if j >= base && n[j].as_map().contains_key(k) {
                if lp && j == base {
                } else {
                    assert(n[j] == *cur.right_child.unwrap());
                }
                if i < base {
                    assert(s[i].as_map().contains_key(k));
                    assert(s[s.len() - 1].as_map().contains_key(k));
                } else {
                    assert(lp && rp);
                    assert(n[i] == *cur.left_child.unwrap());
                    assert(n[j] == *cur.right_child.unwrap());
                    assert(opt_map(cur.left_child).contains_key(k));
                    assert(opt_map(cur.right_child).contains_key(k));
                    assert(span_lt(k, cur.interval@));
                    assert(span_lt(cur.interval@, k));
                }
            }
        }
    }

    /// A query over the entries of `root`.
    pub(crate) fn start(root: &'a Option<Box<Node<T, V>>>, interval: Interval<T>) -> (r: Self)
        requires
            match root {
                Some(n) => n.ordered(),
                None => true,
            },
        ensures
            r.wf(),
            r.entries() == opt_map(*root),
            r.query_span() == interval@,
            r.pending() == overlapping_keys(opt_map(*root), interval@),
    {
        let mut nodes: Vec<&'a Node<T, V>> = Vec::new();
        match root {
            Some(n) => {
                nodes.push(&**n);
            },
            None => {},
        }
        let r = IntervalTreeIterator { nodes, interval, entries: Ghost(opt_map(*root)) };
        proof {
            let st = r.stack();
            assert forall|k: Span| #[trigger] r.pending().contains(k) <==> overlapping_keys(opt_map(*root), interval@).contains(k) by {
                if root is Some && opt_map(*root).contains_key(k) {
                    assert(st[0].as_map().contains_key(k));
                }
            }
            assert(r.pending() =~= overlapping_keys(opt_map(*root), interval@));
        }
        r
    }

    /// The next stored interval that overlaps the query, with its value.
    pub fn next(&mut self) -> (r: Option<Entry<'a, T, V>>)
        requires
            old(self).wf(),
        ensures
            final(self).wf(),
            final(self).entries() == old(self).entries(),
            final(self).query_span() == old(self).query_span(),
            match r {
                None => old(self).pending() == Set::<Span>::empty() && final(self).pending()
                    == Set::<Span>::empty(),
                Some(e) => {
                    &&& old(self).pending().contains(e.interval@)
                    &&& final(self).pending() == old(self).pending().remove(e.interval@)
                    &&& old(self).entries()[e.interval@] == *e.value
                },
            },
    {
        let ghost start_pending = self.pending();
        loop
            invariant
                self.wf(),
                self.entries() == old(self).entries(),
                self.query_span() == old(self).query_span(),
                self.pending() == start_pending,
                start_pending == old(self).pending(),
            decreases stack_weight(self.stack()),
        {
            let ghost s = self.stack();
            let cur = match self.nodes.pop() {
                None => {
                    proof {
                        assert(self.pending() =~= Set::<Span>::empty());
                    }
                    return None;
                },
                Some(node) => node,
            };
            proof {
                assert(self.stack() =~= s.drop_last());
                assert(s.last() == *cur);
            }
            if self.interval.start.less(&cur.max) {
                match &cur.left_child {
                    Some(left) => {
                        self.nodes.push(&**left);
                    },
                    None => {},
                }
                if cur.interval.start.less(&self.interval.end) {
                    match &cur.right_child {
                        Some(right) => {
                            self.nodes.push(&**right);
                        },
                        None => {},
                    }
                    proof {
                        assert(self.stack() =~= next_stack(s, self.interval@));
                        IntervalTreeIterator::lemma_step(s, self.interval@, self.entries@);
                    }
                    if cur.interval.intersect(&self.interval).is_some() {
                        return Some(Entry { value: &cur.value, interval: &cur.interval });
                    }
                    proof {
                        assert(self.pending() =~= start_pending);
                    }
                } else {
                    proof {
                        assert(self.stack() =~= next_stack(s, self.interval@));
                        IntervalTreeIterator::lemma_step(s, self.interval@, self.entries@);
                        assert(self.pending() =~= start_pending);
                    }
                }
            } else {
                proof {
                    assert(self.stack() =~= next_stack(s, self.interval@));
                    IntervalTreeIterator::lemma_step(s, self.interval@, self.entries@);
                    assert(self.pending() =~= start_pending);
                }
            }
        }
    }
}

/// One stored interval and its value, as found by a query that may change
/// values.
#[derive(Debug)]
pub struct EntryMut<'a, T: IntervalKey, V> {
    pub value: &'a mut V,
    pub interval: &'a Interval<T>,
}

/// A lazy overlap query that hands out each overlapping entry's value for
/// change.
pub struct IntervalTreeIteratorMut<'a, T: IntervalKey, V> {
    pub(crate) nodes: Vec<&'a mut Node<T, V>>,
    pub(crate) interval: Interval<T>,
    pub(crate) entries: Ghost<Map<Span, V>>,
}

impl<'a, T: IntervalKey, V> IntervalTreeIteratorMut<'a, T, V> {
    /// The entries of the tree being queried, as they were when it began.
    pub closed spec fn entries(&self) -> Map<Span, V> {
        self.entries@
    }

    /// The query interval.
    pub closed spec fn query_span(&self) -> Span {
        self.interval@
    }

    /// The subtrees still to visit, bottom first.
    pub closed spec fn stack(&self) -> Seq<Node<T, V>> {
        self.nodes@.map_values(|n: &mut Node<T, V>| *n)
    }

    /// The intervals not yet yielded.
    pub closed spec fn pending(&self) -> Set<Span> {
        pending_of(self.stack(), self.interval@)
    }

    /// The work-list is well formed for the entries being queried.
    pub closed spec fn wf(&self) -> bool {
        stack_ok(self.stack(), self.entries@)
    }

    /// A query over the entries of `root`.
    pub(crate) fn start(root: &'a mut Option<Box<Node<T, V>>>, interval: Interval<T>) -> (r: Self)
        requires
            match *old(root) {
                Some(n) => n.ordered(),
                None => true,
            },
        ensures
            r.wf(),
            r.entries() == opt_map(*old(root)),
            r.query_span() == interval@,
            r.pending() == overlapping_keys(opt_map(*old(root)), interval@),
    {
        let ghost m = opt_map(*root);
        let ghost r0 = *root;
        let mut nodes: Vec<&'a mut Node<T, V>> = Vec::new();
        match root {
            Some(n) => {
                proof {
                    assert(**n == *r0.unwrap());
                }
                let top: &'a mut Node<T, V> = &mut **n;
                proof {
                    assert(*top == *r0.unwrap());
                }
                nodes.push(top);
                proof {
                    assert(nodes@.len() == 1);
                    assert(*nodes@[0] == *r0.unwrap());
                }
            },
            None => {},
        }
        let r = IntervalTreeIteratorMut { nodes, interval, entries: Ghost(m) };
        proof {
            let st = r.stack();
            assert(r0 is Some ==> st.len() == 1 && st[0] == *r0.unwrap());
            assert forall|k: Span| #[trigger] r.pending().contains(k) <==> overlapping_keys(m, interval@).contains(k) by {
                if r0 is Some && m.contains_key(k) {
                    assert(st[0].as_map().contains_key(k));
                }
            }
            assert(r.pending() =~= overlapping_keys(m, interval@));
        }
        r
    }

    /// The next stored interval that overlaps the query, with its value
    /// open for change.
    pub fn next(&mut self) -> (r: Option<EntryMut<'a, T, V>>)
        requires
            old(self).wf(),
        ensures
            final(self).wf(),
            final(self).entries() == old(self).entries(),
            final(self).query_span() == old(self).query_span(),
            match r {
                None => old(self).pending() == Set::<Span>::empty() && final(self).pending()
                    == Set::<Span>::empty(),
                Some(e) => {
                    &&& old(self).pending().contains(e.interval@)
                    &&& final(self).pending() == old(self).pending().remove(e.interval@)
                    &&& old(self).entries()[e.interval@] == *e.value
                },
            },
    {
        let ghost start_pending = self.pending();
        loop
            invariant
                self.wf(),
                self.entries() == old(self).entries(),
                self.query_span() == old(self).query_span(),
                self.pending() == start_pending,
                start_pending == old(self).pending(),
            decreases stack_weight(self.stack()),
        {
            let ghost s = self.stack();
            let cur = match self.nodes.pop() {
                None => {
                    proof {
                        assert(self.pending() =~= Set::<Span>::empty());
                    }
                    return None;
                },
                Some(node) => node,
            };
            let ghost c = *cur;
            proof {
                assert(self.stack() =~= s.drop_last());
                assert(s.last() == c);
            }
            let Node { interval, value, max, left_child, right_child, .. } = cur;
            proof {
                assert(*left_child == c.left_child);
                assert(*right_child == c.right_child);
            }
            if self.interval.start.less(max) {
                match left_child {
                    Some(left) => {
                        let left_node: &'a mut Node<T, V> = &mut **left;
                        proof {
                            assert(*left_node == *c.left_child.unwrap());
                        }
                        self.nodes.push(left_node);
                    },
                    None => {},
                }
                if interval.start.less(&self.interval.end) {
                    match right_child {
                        Some(right) => {
                            let right_node: &'a mut Node<T, V> = &mut **right;
                            proof {
                                assert(*right_node == *c.right_child.unwrap());
                            }
                            self.nodes.push(right_node);
                        },
                        None => {},
                    }
                    proof {
                        assert(self.stack() =~= next_stack(s, self.interval@));
                        IntervalTreeIterator::lemma_step(s, self.interval@, self.entries@);
                    }
                    if interval.intersect(&self.interval).is_some() {
                        let interval: &'a Interval<T> = interval;
                        return Some(EntryMut { value, interval });
                    }
                    proof {
                        assert(self.pending() =~= start_pending);
                    }
                } else {
                    proof {
                        assert(self.stack() =~= next_stack(s, self.interval@));
                        IntervalTreeIterator::lemma_step(s, self.interval@, self.entries@);
                        assert(self.pending() =~= start_pending);
                    }
                }
            } else {
                proof {
                    assert(self.stack() =~= next_stack(s, self.interval@));
                    IntervalTreeIterator::lemma_step(s, self.interval@, self.entries@);
                    assert(self.pending() =~= start_pending);
                }
            }
        }
    }
}

} // verus!
