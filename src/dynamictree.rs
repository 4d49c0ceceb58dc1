use vstd::prelude::*;
use crate::quadtree::hits;
use crate::shapes::AABB;
use vstd::multiset::Multiset;
use vstd::seq_lib::lemma_multiset_commutative;

verus! {

broadcast use vstd::seq_lib::group_seq_lib_default, vstd::seq_lib::lemma_multiset_commutative;

/// How far a leaf's stored bounds reach past the bounds it was inserted
/// with.
pub const LEAF_MARGIN: i32 = 0;

/// `outer` reaches at least as far as `inner` in every direction.
pub open spec fn covers(outer: AABB, inner: AABB) -> bool {
    outer.min.x <= inner.min.x && outer.min.y <= inner.min.y && inner.max.x <= outer.max.x
        && inner.max.y <= outer.max.y
}

/// A node of the tree: a leaf holds a payload and its (fattened) bounds;
/// an internal node holds two children and the union of their bounds.
pub struct Node<T> {
    pub bounds: AABB,
    pub child_1: Option<Box<Node<T>>>,
    pub child_2: Option<Box<Node<T>>>,
    pub data: Option<T>,
}

impl<T: Copy> Node<T> {
    /// Leaves hold a payload and no children; internal nodes hold two
    /// children, no payload, and exactly the union of the children's bounds.
    pub open spec fn wf(self) -> bool
        decreases self,
    {
        match (self.child_1, self.child_2) {
            (Some(a), Some(b)) => self.data.is_none() && self.bounds == a.bounds.union_of(b.bounds)
                && a.wf() && b.wf(),
            (None, None) => self.data.is_some(),
            _ => false,
        }
    }

    /// (payload, stored bounds) of every leaf, first child before second.
    pub open spec fn leaves(self) -> Seq<(T, AABB)>
        decreases self,
    {
        match (self.child_1, self.child_2) {
            (Some(a), Some(b)) => a.leaves() + b.leaves(),
            _ => match self.data {
                Some(d) => seq![(d, self.bounds)],
                None => Seq::empty(),
            },
        }
    }

    /// (1 for a leaf and 0 otherwise, bounds) of every node: a node before
    /// its second child's subtree, which comes before its first child's.
    pub open spec fn nodes_pre(self) -> Seq<(usize, AABB)>
        decreases self,
    {
        seq![(if self.child_1.is_none() { 1usize } else { 0usize }, self.bounds)] + match self.child_2 {
            Some(b) => b.nodes_pre(),
            None => Seq::empty(),
        } + match self.child_1 {
            Some(a) => a.nodes_pre(),
            None => Seq::empty(),
        }
    }

    pub fn new(bounds: AABB) -> (r: Node<T>)
        ensures
            r.bounds == bounds,
            r.child_1.is_none(),
            r.child_2.is_none(),
            r.data.is_none(),
    {
        Node { bounds, child_1: None, child_2: None, data: None }
    }

    pub fn new_leaf(bounds: AABB, data: T) -> (r: Node<T>)
        ensures
            r.wf(),
            r.bounds == bounds,
            r.data == Some(data),
            r.leaves() == seq![(data, bounds)],
    {
        Node { bounds, child_1: None, child_2: None, data: Some(data) }
    }

    fn is_leaf(&self) -> (r: bool)
        ensures
            r == self.child_1.is_none(),
    {
        self.child_1.is_none()
    }
}

/// A wf node reaches as far as every leaf below it.
pub proof fn lemma_covers_leaves<T: Copy>(n: Node<T>)
    requires
        n.wf(),
    ensures
        forall|i: int| 0 <= i < n.leaves().len() ==> covers(n.bounds, (#[trigger] n.leaves()[i]).1),
    decreases n,
{
    match (n.child_1, n.child_2) {
        (Some(a), Some(b)) => {
            lemma_covers_leaves(*a);
            lemma_covers_leaves(*b);
            assert forall|i: int| 0 <= i < n.leaves().len() implies covers(n.bounds, (#[trigger] n.leaves()[i]).1) by {
                if i < a.leaves().len() {
                    assert(n.leaves()[i] == a.leaves()[i]);
                } else {
                    assert(n.leaves()[i] == b.leaves()[i - a.leaves().len()]);
                }
            }
        },
        _ => {},
    }
}

/// A subtree whose bounds miss the query has no leaf to report.
proof fn lemma_disjoint_subtree<T: Copy>(n: Node<T>, q: AABB)
    requires
        n.wf(),
        !n.bounds.overlaps(q),
    ensures
        n.leaves().filter(hits(q)) =~= Seq::<(T, AABB)>::empty(),
{
    lemma_covers_leaves(n);
    let f = n.leaves().filter(hits(q));
    if f.len() > 0 {
        assert(f.contains(f[0]));
        n.leaves().lemma_filter_contains_rev(hits(q), f[0]);
        let i = choose|i: int| 0 <= i < n.leaves().len() && n.leaves()[i] == f[0];
        assert(covers(n.bounds, n.leaves()[i].1));
        assert(false);
    }
}

/// Appends to `out` every leaf of the subtree whose bounds overlap `bounds`,
/// skipping subtrees whose bounds miss it.
fn query_node<T: Copy>(n: &Node<T>, bounds: &AABB, out: &mut Vec<(T, AABB)>)
    requires
        n.wf(),
    ensures
        final(out)@ == old(out)@ + n.leaves().filter(hits(*bounds)),
    decreases n,
{
    if !bounds.overlaps_aabb(&n.bounds) {
        proof {
            lemma_disjoint_subtree(*n, *bounds);
            assert(final(out)@ =~= old(out)@ + n.leaves().filter(hits(*bounds)));
        }
        return;
    }
    match (&n.child_1, &n.child_2) {
        (Some(a), Some(b)) => {
            query_node(a, bounds, out);
            query_node(b, bounds, out);
            proof {
                assert(final(out)@ =~= old(out)@ + n.leaves().filter(hits(*bounds)));
            }
        },
        _ => {
            match &n.data {
                Some(d) => {
                    proof {
                        assert(seq![(*d, n.bounds)] =~= Seq::<(T, AABB)>::empty().push((*d, n.bounds)));
                        Seq::<(T, AABB)>::empty().lemma_filter_push((*d, n.bounds), hits(*bounds));
                    }
                    out.push((*d, n.bounds));
                    proof {
                        assert(final(out)@ =~= old(out)@ + n.leaves().filter(hits(*bounds)));
                    }
                },
                None => {},
            }
        },
    }
}

/// The subtree holds a leaf with payload `p` whose stored bounds contain `b`.
pub open spec fn fits_leaf<T>(leaves: Seq<(T, AABB)>, p: T, b: AABB) -> bool {
    exists|i: int| 0 <= i < leaves.len() && leaves[i].0 == p && b.within(#[trigger] leaves[i].1)
}

/// Looks for a leaf holding `data` whose bounds contain `bounds`; subtrees
/// whose bounds miss `bounds` cannot hold such a leaf and are skipped.
fn find_fitting_leaf<T: Copy + PartialEq>(n: &Node<T>, bounds: &AABB, data: &T) -> (r: bool)
    requires
        n.wf(),
        vstd::laws_eq::obeys_concrete_eq::<T>(),
    ensures
        r == fits_leaf(n.leaves(), *data, *bounds),
    decreases n,
{
    match (&n.child_1, &n.child_2) {
        (Some(a), Some(b)) => {
            if !bounds.overlaps_aabb(&n.bounds) {
                proof {
                    lemma_covers_leaves(*n);
                    if fits_leaf(n.leaves(), *data, *bounds) {
                        let i = choose|i: int| 0 <= i < n.leaves().len() && n.leaves()[i].0 == *data && bounds.within(#[trigger] n.leaves()[i].1);
                        assert(covers(n.bounds, n.leaves()[i].1));
                    }
                }
                return false;
            }
            let r1 = find_fitting_leaf(a, bounds, data);
            let r2 = if r1 { true } else { find_fitting_leaf(b, bounds, data) };
            proof {
                let la = a.leaves();
                let lb = b.leaves();
                assert(n.leaves() == la + lb);
                if fits_leaf(n.leaves(), *data, *bounds) {
                    let i = choose|i: int| 0 <= i < n.leaves().len() && n.leaves()[i].0 == *data && bounds.within(#[trigger] n.leaves()[i].1);
                    if i < la.len() {
                        assert(la[i] == n.leaves()[i]);
                    } else {
                        assert(lb[i - la.len()] == n.leaves()[i]);
                    }
                }
                if r1 {
                    let i = choose|i: int| 0 <= i < la.len() && la[i].0 == *data && bounds.within(#[trigger] la[i].1);
                    assert(n.leaves()[i] == la[i]);
                }
                if r2 && !r1 {
                    let i = choose|i: int| 0 <= i < lb.len() && lb[i].0 == *data && bounds.within(#[trigger] lb[i].1);
                    assert(n.leaves()[i + la.len()] == lb[i]);
                }
            }
            r2
        },
        _ => {
            match &n.data {
                Some(d) => {
                    let same = *d == *data;
                    let r = same && bounds.is_within_aabb(&n.bounds);
                    proof {
                        reveal(vstd::laws_eq::obeys_concrete_eq);
                        assert(n.leaves() =~= seq![(*d, n.bounds)]);
                        assert(n.leaves()[0] == (*d, n.bounds));
                        if r {
                            assert(bounds.within(n.leaves()[0].1));
                        }
                    }
                    r
                },
                None => false,
            }
        },
    }
}

/// The tree `node` after inserting `leaf` next to its best sibling: at each
/// internal node the descent takes the child whose bounds, grown to hold
/// the leaf, have the smaller perimeter (the second child on a tie); the
/// sibling is replaced by a new internal node over (sibling, leaf), and each
/// node on the way back up gets the union of its children's bounds.
pub open spec fn with_leaf<T>(node: Node<T>, leaf: Node<T>) -> Node<T>
    decreases node,
{
    match (node.child_1, node.child_2) {
        (Some(c1), Some(c2)) => {
            let cost_1 = c1.bounds.union_of(leaf.bounds).perimeter_of();
            let cost_2 = c2.bounds.union_of(leaf.bounds).perimeter_of();
            if cost_1 < cost_2 {
                let n1 = with_leaf(*c1, leaf);
                Node { bounds: n1.bounds.union_of(c2.bounds), child_1: Some(Box::new(n1)), child_2: Some(c2), data: None }
            } else {
                let n2 = with_leaf(*c2, leaf);
                Node { bounds: c1.bounds.union_of(n2.bounds), child_1: Some(c1), child_2: Some(Box::new(n2)), data: None }
            }
        },
        _ => Node {
            bounds: node.bounds.union_of(leaf.bounds),
            child_1: Some(Box::new(node)),
            child_2: Some(Box::new(leaf)),
            data: None,
        },
    }
}

/// Inserts the leaf next to the best sibling below `node`: at each internal
/// node the descent takes the child whose bounds, grown to hold the leaf,
/// have the smaller perimeter (the second child on a tie). The sibling is
/// replaced by a new internal node over (sibling, leaf), and each node on
/// the way back up is refit to the union of its children.
fn insert_at_best_sibling<T: Copy>(node: Box<Node<T>>, leaf: Node<T>) -> (r: Box<Node<T>>)
    requires
        node.wf(),
        leaf.wf(),
        leaf.child_1.is_none(),
    ensures
        r.wf(),
        r.leaves().to_multiset() =~= node.leaves().to_multiset().add(leaf.leaves().to_multiset()),
        r.bounds == node.bounds.union_of(leaf.bounds),
        *r == with_leaf(*node, leaf),
    decreases node,
{
    let mut node = node;
    if node.is_leaf() {
        let bounds = node.bounds.union(&leaf.bounds);
        let r = Node { bounds, child_1: Some(node), child_2: Some(Box::new(leaf)), data: None };
        return Box::new(r);
    }
    let ghost old_node = *node;
    let c1 = node.child_1.take().unwrap();
    let c2 = node.child_2.take().unwrap();
    let cost_1 = c1.bounds.union(&leaf.bounds).perimeter();
    let cost_2 = c2.bounds.union(&leaf.bounds).perimeter();
    let (n1, n2) = if cost_1 < cost_2 {
        (insert_at_best_sibling(c1, leaf), c2)
    } else {
        (c1, insert_at_best_sibling(c2, leaf))
    };
    let bounds = n1.bounds.union(&n2.bounds);
    let ghost l1 = n1.leaves();
    let ghost l2 = n2.leaves();
    let r = Node { bounds, child_1: Some(n1), child_2: Some(n2), data: None };
    proof {
        assert(r.leaves() == l1 + l2);
        lemma_multiset_commutative(l1, l2);
        lemma_multiset_commutative(old_node.child_1.unwrap().leaves(), old_node.child_2.unwrap().leaves());
        assert(old_node.leaves() == old_node.child_1.unwrap().leaves() + old_node.child_2.unwrap().leaves());
    }
    Box::new(r)
}

/// A dynamic bounding-volume tree over payloads of type `T`.
pub struct DynamicTree<T> {
    pub root: Option<Box<Node<T>>>,
}

impl<T: Copy> DynamicTree<T> {
    /// Every node is well formed; in particular each internal node's bounds
    /// are exactly the union of its two children's bounds.
    pub open spec fn wf(self) -> bool {
        match self.root {
            Some(n) => n.wf(),
            None => true,
        }
    }

    /// (payload, stored bounds) of every leaf.
    pub open spec fn leaves(self) -> Seq<(T, AABB)> {
        match self.root {
            Some(n) => n.leaves(),
            None => Seq::empty(),
        }
    }

    /// What a query over `q` reports: each leaf whose stored bounds overlap
    /// `q`.
    pub open spec fn query_spec(self, q: AABB) -> Seq<(T, AABB)> {
        self.leaves().filter(hits(q))
    }

    /// The bounds a leaf stores for an object with bounds `b`.
    pub open spec fn fattened(b: AABB) -> AABB {
        AABB {
            min: crate::shapes::Point {
                x: crate::shapes::max_int(b.min.x - LEAF_MARGIN, i32::MIN as int) as i32,
                y: crate::shapes::max_int(b.min.y - LEAF_MARGIN, i32::MIN as int) as i32,
            },
            max: crate::shapes::Point {
                x: crate::shapes::min_int(b.max.x + LEAF_MARGIN, i32::MAX as int) as i32,
                y: crate::shapes::min_int(b.max.y + LEAF_MARGIN, i32::MAX as int) as i32,
            },
        }
    }

    pub fn new() -> (r: DynamicTree<T>)
        ensures
            r.wf(),
            r.leaves() == Seq::<(T, AABB)>::empty(),
    {
        DynamicTree { root: None }
    }

    pub fn clear(&mut self)
        ensures
            final(self).wf(),
            final(self).leaves() == Seq::<(T, AABB)>::empty(),
    {
        self.root = None;
    }

    /// Every leaf whose stored bounds overlap `bounds`.
    pub fn query(&self, bounds: &AABB) -> (r: Vec<(T, AABB)>)
        requires
            self.wf(),
        ensures
            r@ == self.query_spec(*bounds),
    {
        let mut out = Vec::new();
        match &self.root {
            Some(n) => query_node(n, bounds, &mut out),
            None => {},
        }
        assert(out@ =~= self.query_spec(*bounds));
        out
    }

    /// Whether the object `data`, moved to `bounds`, still fits in the
    /// fattened bounds of a leaf that holds it, so that the tree needs no
    /// change. The tree is left as it is either way.
    pub fn try_update_body(&mut self, bounds: AABB, data: T) -> (r: bool) where T: PartialEq
        requires
            old(self).wf(),
            vstd::laws_eq::obeys_concrete_eq::<T>(),
        ensures
            *final(self) == *old(self),
            r == fits_leaf(old(self).leaves(), data, bounds),
    {
        match &self.root {
            Some(n) => find_fitting_leaf(n, &bounds, &data),
            None => false,
        }
    }

    /// Adds a leaf for `data` with `bounds` fattened by the leaf margin.
    pub fn insert(&mut self, data: T, bounds: &AABB)
        requires
            old(self).wf(),
        ensures
            final(self).wf(),
            final(self).leaves().to_multiset() =~= old(self).leaves().to_multiset().insert(
                (data, Self::fattened(*bounds)),
            ),
            ({
                let leaf = Node { bounds: Self::fattened(*bounds), child_1: None, child_2: None, data: Some(data) };
                final(self).root == match old(self).root {
                    None => Some(Box::new(leaf)),
                    Some(r) => Some(Box::new(with_leaf(*r, leaf))),
                }
            }),
    {
        let expanded = bounds.expand(LEAF_MARGIN);
        let leaf = Node::new_leaf(expanded, data);
        proof {
            assert(expanded == Self::fattened(*bounds));
            assert(leaf.leaves().to_multiset() =~= Multiset::singleton((data, expanded))) by {
                broadcast use vstd::seq_lib::group_to_multiset_ensures;
                assert(leaf.leaves() =~= Seq::<(T, AABB)>::empty().push((data, expanded)));
            }
        }
        match self.root.take() {
            None => {
                proof {
                    assert(old(self).leaves() =~= Seq::<(T, AABB)>::empty());
                    broadcast use vstd::seq_lib::group_to_multiset_ensures;
                }
                self.root = Some(Box::new(leaf));
            },
            Some(r) => {
                self.root = Some(insert_at_best_sibling(r, leaf));
            },
        }
    }

    /// (1 for a leaf and 0 otherwise, bounds) of every node, depth first.
    pub fn get_debug_info(&self) -> (r: Vec<(usize, AABB)>)
        ensures
            r@ == match self.root {
                Some(n) => n.nodes_pre(),
                None => Seq::empty(),
            },
    {
        let mut out = Vec::new();
        match &self.root {
            Some(n) => debug_node(n, &mut out),
            None => {},
        }
        proof {
            assert(out@ =~= match self.root {
                Some(n) => n.nodes_pre(),
                None => Seq::<(usize, AABB)>::empty(),
            });
        }
        out
    }
}

fn debug_node<T: Copy>(n: &Node<T>, out: &mut Vec<(usize, AABB)>)
    ensures
        final(out)@ == old(out)@ + n.nodes_pre(),
    decreases n,
{
    let is_leaf: usize = if n.is_leaf() { 1 } else { 0 };
    out.push((is_leaf, n.bounds));
    match &n.child_2 {
        Some(b) => debug_node(b, out),
        None => {},
    }
    match &n.child_1 {
        Some(a) => debug_node(a, out),
        None => {},
    }
    proof {
        assert(final(out)@ =~= old(out)@ + n.nodes_pre());
    }
}

/// A leaf stores exactly the bounds it was inserted with.
pub proof fn lemma_leaf_keeps_bounds<T: Copy>(b: AABB)
    ensures
        DynamicTree::<T>::fattened(b) == b,
{
}

/// A query reports only leaves whose stored bounds overlap the query region.
pub proof fn lemma_tree_no_false_positives<T: Copy>(t: DynamicTree<T>, q: AABB, e: (T, AABB))
    requires
        t.wf(),
        t.query_spec(q).contains(e),
    ensures
        e.1.overlaps(q),
{
    t.leaves().lemma_filter_contains_rev(hits(q), e);
}

/// A query reports every leaf whose stored bounds overlap the query region.
pub proof fn lemma_tree_no_false_negatives<T: Copy>(t: DynamicTree<T>, q: AABB, e: (T, AABB))
    requires
        t.wf(),
        t.leaves().contains(e),
        e.1.overlaps(q),
    ensures
        t.query_spec(q).contains(e),
{
    let i = choose|i: int| 0 <= i < t.leaves().len() && t.leaves()[i] == e;
    t.leaves().lemma_filter_contains(hits(q), i);
}

/// When an object's new bounds still fit in its leaf, leaving the tree as it
/// is loses nothing: every query that overlaps the new bounds still reports
/// that leaf.
pub proof fn lemma_fitting_update_keeps_queries<T: Copy>(t: DynamicTree<T>, p: T, b: AABB, q: AABB)
    requires
        t.wf(),
        fits_leaf(t.leaves(), p, b),
        b.overlaps(q),
    ensures
        exists|i: int| 0 <= i < t.leaves().len() && t.leaves()[i].0 == p && t.query_spec(q).contains(
            #[trigger] t.leaves()[i],
        ),
{
    let i = choose|i: int| 0 <= i < t.leaves().len() && t.leaves()[i].0 == p && b.within(#[trigger] t.leaves()[i].1);
    assert(t.leaves()[i].1.overlaps(q));
    t.leaves().lemma_filter_contains(hits(q), i);
}

} // verus!
