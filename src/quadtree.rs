use vstd::prelude::*;
use crate::shapes::{AABB, HasBounds, Point};
use vstd::multiset::Multiset;
use vstd::seq_lib::lemma_multiset_commutative;

verus! {

broadcast use vstd::seq_lib::group_seq_lib_default, vstd::seq_lib::lemma_multiset_commutative;

/// A node splits once its bucket holds more elements than this.
pub const MAX_ELEMENTS: usize = 16;

/// How far each quadrant reaches past its quarter of the parent on every
/// side, so that small elements on a dividing line still fit in a child.
pub const QUADRANT_OVERLAP: i64 = 8;

/// Keeps an element whose bounds overlap `q`.
pub open spec fn hits<T>(q: AABB) -> spec_fn((T, AABB)) -> bool {
    |e: (T, AABB)| e.1.overlaps(q)
}

/// One node of the quadtree: its region, the elements it houses, and either
/// no children or four quadrants.
pub struct Node<T> {
    pub bounds: AABB,
    pub children: Option<Box<Quadrants<T>>>,
    pub elements: Vec<(T, AABB)>,
}

/// The four children of a split node.
pub struct Quadrants<T> {
    pub nw: Node<T>,
    pub ne: Node<T>,
    pub sw: Node<T>,
    pub se: Node<T>,
}

impl<T: Copy> Quadrants<T> {
    pub open spec fn elems(self) -> Seq<(T, AABB)>
        decreases self,
    {
        self.nw.elems() + self.ne.elems() + self.sw.elems() + self.se.elems()
    }

    /// Every quadrant keeps its elements inside its region.
    pub open spec fn ok(self) -> bool
        decreases self,
    {
        self.nw.ok(false) && self.ne.ok(false) && self.sw.ok(false) && self.se.ok(false)
    }

    /// The height of the tallest quadrant.
    pub open spec fn height(self) -> nat
        decreases self,
    {
        let a = self.nw.height();
        let b = self.ne.height();
        let c = self.sw.height();
        let d = self.se.height();
        let ab = if a >= b { a } else { b };
        let cd = if c >= d { c } else { d };
        if ab >= cd { ab } else { cd }
    }

    pub open spec fn nodes_post(self) -> Seq<(usize, AABB)>
        decreases self,
    {
        self.nw.nodes_post() + self.ne.nodes_post() + self.sw.nodes_post() + self.se.nodes_post()
    }

    /// `after` is `before` with `e` added to the first quadrant whose region
    /// holds `e`'s bounds; the other quadrants and all regions are as they
    /// were.
    pub open spec fn inserted_first_fit(before: Quadrants<T>, after: Quadrants<T>, e: (T, AABB)) -> bool {
        let b = e.1;
        &&& after.nw.bounds == before.nw.bounds && after.ne.bounds == before.ne.bounds
        &&& after.sw.bounds == before.sw.bounds && after.se.bounds == before.se.bounds
        &&& if b.within(before.nw.bounds) {
            after.nw.elems().to_multiset() =~= before.nw.elems().to_multiset().insert(e)
                && after.ne == before.ne && after.sw == before.sw && after.se == before.se
        } else if b.within(before.ne.bounds) {
            after.ne.elems().to_multiset() =~= before.ne.elems().to_multiset().insert(e)
                && after.nw == before.nw && after.sw == before.sw && after.se == before.se
        } else if b.within(before.sw.bounds) {
            after.sw.elems().to_multiset() =~= before.sw.elems().to_multiset().insert(e)
                && after.nw == before.nw && after.ne == before.ne && after.se == before.se
        } else {
            after.se.elems().to_multiset() =~= before.se.elems().to_multiset().insert(e)
                && after.nw == before.nw && after.ne == before.ne && after.sw == before.sw
        }
    }

    /// Inserts into the first quadrant whose region holds `bounds`, if any.
    fn insert_fitting(&mut self, data: &T, bounds: &AABB, depth: u8, max_depth: u8, rebalance: bool) -> (r: bool)
        requires
            old(self).ok(),
            depth < max_depth,
        ensures
            final(self).ok(),
            final(self).nw.bounds == old(self).nw.bounds,
            final(self).ne.bounds == old(self).ne.bounds,
            final(self).sw.bounds == old(self).sw.bounds,
            final(self).se.bounds == old(self).se.bounds,
            r == (bounds.within(old(self).nw.bounds) || bounds.within(old(self).ne.bounds)
                || bounds.within(old(self).sw.bounds) || bounds.within(old(self).se.bounds)),
            r ==> final(self).elems().to_multiset() =~= old(self).elems().to_multiset().insert(
                (*data, *bounds),
            ),
            !r ==> *final(self) == *old(self),
            !rebalance && bounds.within(old(self).nw.bounds) ==> placed_no_split(old(self).nw, final(self).nw, (*data, *bounds), depth + 1, max_depth as int),
            !rebalance && !bounds.within(old(self).nw.bounds) && bounds.within(old(self).ne.bounds) ==> placed_no_split(old(self).ne, final(self).ne, (*data, *bounds), depth + 1, max_depth as int),
            !rebalance && !bounds.within(old(self).nw.bounds) && !bounds.within(old(self).ne.bounds) && bounds.within(old(self).sw.bounds)
                ==> placed_no_split(old(self).sw, final(self).sw, (*data, *bounds), depth + 1, max_depth as int),
            !rebalance && !bounds.within(old(self).nw.bounds) && !bounds.within(old(self).ne.bounds) && !bounds.within(old(self).sw.bounds)
                && bounds.within(old(self).se.bounds) ==> placed_no_split(old(self).se, final(self).se, (*data, *bounds), depth + 1, max_depth as int),
            bounds.within(old(self).nw.bounds) ==> {
                &&& final(self).nw.elems().to_multiset() =~= old(self).nw.elems().to_multiset().insert((*data, *bounds))
                &&& final(self).ne == old(self).ne && final(self).sw == old(self).sw && final(self).se == old(self).se
            },
            !bounds.within(old(self).nw.bounds) && bounds.within(old(self).ne.bounds) ==> {
                &&& final(self).ne.elems().to_multiset() =~= old(self).ne.elems().to_multiset().insert((*data, *bounds))
                &&& final(self).nw == old(self).nw && final(self).sw == old(self).sw && final(self).se == old(self).se
            },
            !bounds.within(old(self).nw.bounds) && !bounds.within(old(self).ne.bounds) && bounds.within(old(self).sw.bounds) ==> {
                &&& final(self).sw.elems().to_multiset() =~= old(self).sw.elems().to_multiset().insert((*data, *bounds))
                &&& final(self).nw == old(self).nw && final(self).ne == old(self).ne && final(self).se == old(self).se
            },
            !bounds.within(old(self).nw.bounds) && !bounds.within(old(self).ne.bounds) && !bounds.within(old(self).sw.bounds)
                && bounds.within(old(self).se.bounds) ==> {
                &&& final(self).se.elems().to_multiset() =~= old(self).se.elems().to_multiset().insert((*data, *bounds))
                &&& final(self).nw == old(self).nw && final(self).ne == old(self).ne && final(self).sw == old(self).sw
            },
        decreases max_depth - depth, 1int,
    {
        let ghost a = self.nw.elems();
        let ghost b = self.ne.elems();
        let ghost c = self.sw.elems();
        let ghost d = self.se.elems();
        let ghost e = (*data, *bounds);
        if bounds.is_within_aabb(&self.nw.bounds) {
            self.nw.insert(data, bounds, depth + 1, max_depth, rebalance);
            proof {
                let a2 = self.nw.elems();
                assert(a2.to_multiset() =~= a.to_multiset().insert(e));
                assert(self.elems() == a2 + b + c + d);
                assert((a2 + b + c + d).to_multiset() =~= a2.to_multiset().add(b.to_multiset()).add(c.to_multiset()).add(d.to_multiset()));
                assert((a + b + c + d).to_multiset() =~= a.to_multiset().add(b.to_multiset()).add(c.to_multiset()).add(d.to_multiset()));
            }
            true
        } else if bounds.is_within_aabb(&self.ne.bounds) {
            self.ne.insert(data, bounds, depth + 1, max_depth, rebalance);
            proof {
                let b2 = self.ne.elems();
                assert(self.elems() == a + b2 + c + d);
                assert((a + b2 + c + d).to_multiset() =~= a.to_multiset().add(b2.to_multiset()).add(c.to_multiset()).add(d.to_multiset()));
                assert((a + b + c + d).to_multiset() =~= a.to_multiset().add(b.to_multiset()).add(c.to_multiset()).add(d.to_multiset()));
            }
            true
        } else if bounds.is_within_aabb(&self.sw.bounds) {
            self.sw.insert(data, bounds, depth + 1, max_depth, rebalance);
            proof {
                let c2 = self.sw.elems();
                assert(self.elems() == a + b + c2 + d);
                assert((a + b + c2 + d).to_multiset() =~= a.to_multiset().add(b.to_multiset()).add(c2.to_multiset()).add(d.to_multiset()));
                assert((a + b + c + d).to_multiset() =~= a.to_multiset().add(b.to_multiset()).add(c.to_multiset()).add(d.to_multiset()));
            }
            true
        } else if bounds.is_within_aabb(&self.se.bounds) {
            self.se.insert(data, bounds, depth + 1, max_depth, rebalance);
            proof {
                let d2 = self.se.elems();
                assert(self.elems() == a + b + c + d2);
                assert((a + b + c + d2).to_multiset() =~= a.to_multiset().add(b.to_multiset()).add(c.to_multiset()).add(d2.to_multiset()));
                assert((a + b + c + d).to_multiset() =~= a.to_multiset().add(b.to_multiset()).add(c.to_multiset()).add(d.to_multiset()));
            }
            true
        } else {
            false
        }
    }
}

/// `v` clamped to the range of `i32`.
pub open spec fn to_coord(v: int) -> i32 {
    if v < i32::MIN {
        i32::MIN
    } else if v > i32::MAX {
        i32::MAX
    } else {
        v as i32
    }
}

/// One quadrant of `p`: the quarter at column `qx` and row `qy` (each 0 or
/// 1, half of `p`'s size rounded down), grown by the quadrant overlap on
/// every side; only the range of `i32` limits it.
pub open spec fn quadrant_of(p: AABB, qx: bool, qy: bool) -> AABB {
    let hw = if p.max.x - p.min.x > 0 { (p.max.x - p.min.x) / 2 } else { 0 };
    let hh = if p.max.y - p.min.y > 0 { (p.max.y - p.min.y) / 2 } else { 0 };
    let x0 = if qx { p.min.x + hw } else { p.min.x as int };
    let y0 = if qy { p.min.y + hh } else { p.min.y as int };
    AABB {
        min: Point { x: to_coord(x0 - QUADRANT_OVERLAP), y: to_coord(y0 - QUADRANT_OVERLAP) },
        max: Point { x: to_coord(x0 + hw + QUADRANT_OVERLAP), y: to_coord(y0 + hh + QUADRANT_OVERLAP) },
    }
}

/// `b` lies within one of the four quadrants.
pub open spec fn fits_quadrant<T>(q: Quadrants<T>, b: AABB) -> bool {
    b.within(q.nw.bounds) || b.within(q.ne.bounds) || b.within(q.sw.bounds) || b.within(q.se.bounds)
}

/// Without splitting, `after` is `before` with `e` added: while the depth
/// limit allows and one of a node's quadrants holds `e`'s bounds, `e` goes
/// down into the first such quadrant (the others untouched); it is stored in
/// the bucket of the first node where that fails, whose quadrants stay as
/// they were. Regions never change.
pub open spec fn placed_no_split<T>(before: Node<T>, after: Node<T>, e: (T, AABB), depth: int, max_depth: int) -> bool
    decreases before,
{
    &&& after.bounds == before.bounds
    &&& match before.children {
        Some(q0) => if depth < max_depth && fits_quadrant(*q0, e.1) {
            &&& after.elements@ == before.elements@
            &&& match after.children {
                Some(q1) => if e.1.within(q0.nw.bounds) {
                    placed_no_split(q0.nw, q1.nw, e, depth + 1, max_depth) && q1.ne == q0.ne && q1.sw == q0.sw
                        && q1.se == q0.se
                } else if e.1.within(q0.ne.bounds) {
                    placed_no_split(q0.ne, q1.ne, e, depth + 1, max_depth) && q1.nw == q0.nw && q1.sw == q0.sw
                        && q1.se == q0.se
                } else if e.1.within(q0.sw.bounds) {
                    placed_no_split(q0.sw, q1.sw, e, depth + 1, max_depth) && q1.nw == q0.nw && q1.ne == q0.ne
                        && q1.se == q0.se
                } else {
                    placed_no_split(q0.se, q1.se, e, depth + 1, max_depth) && q1.nw == q0.nw && q1.ne == q0.ne
                        && q1.sw == q0.sw
                },
                None => false,
            }
        } else {
            after.elements@ == before.elements@.push(e) && after.children == before.children
        },
        None => after.elements@ == before.elements@.push(e) && after.children == before.children,
    }
}

fn to_coord_exec(v: i64) -> (r: i32)
    ensures
        r == to_coord(v as int),
{
    if v < i32::MIN as i64 {
        i32::MIN
    } else if v > i32::MAX as i64 {
        i32::MAX
    } else {
        v as i32
    }
}

fn quadrant(p: &AABB, qx: bool, qy: bool) -> (r: AABB)
    ensures
        r == quadrant_of(*p, qx, qy),
{
    let (w, h) = p.size();
    let hw: i64 = if w > 0 { w / 2 } else { 0 };
    let hh: i64 = if h > 0 { h / 2 } else { 0 };
    let x0: i64 = if qx { p.min.x as i64 + hw } else { p.min.x as i64 };
    let y0: i64 = if qy { p.min.y as i64 + hh } else { p.min.y as i64 };
    AABB {
        min: Point { x: to_coord_exec(x0 - QUADRANT_OVERLAP), y: to_coord_exec(y0 - QUADRANT_OVERLAP) },
        max: Point { x: to_coord_exec(x0 + hw + QUADRANT_OVERLAP), y: to_coord_exec(y0 + hh + QUADRANT_OVERLAP) },
    }
}

/// Every element of `s` lies within `b` when `s` holds no more copies of
/// anything than `t`, all of whose elements do.
proof fn lemma_within_sub<T>(s: Seq<(T, AABB)>, t: Seq<(T, AABB)>, b: AABB)
    requires
        forall|x: (T, AABB)| #[trigger] t.contains(x) ==> x.1.within(b),
        forall|x: (T, AABB)| #[trigger] s.to_multiset().count(x) <= t.to_multiset().count(x),
    ensures
        forall|x: (T, AABB)| #[trigger] s.contains(x) ==> x.1.within(b),
{
    broadcast use vstd::seq_lib::to_multiset_contains;
    assert forall|x: (T, AABB)| #[trigger] s.contains(x) implies x.1.within(b) by {
        assert(s.to_multiset().count(x) > 0);
        assert(t.to_multiset().count(x) > 0);
    }
}

/// Adding an element that lies within `b` keeps every element within `b`.
proof fn lemma_within_insert<T>(s: Seq<(T, AABB)>, t: Seq<(T, AABB)>, e: (T, AABB), b: AABB)
    requires
        forall|x: (T, AABB)| #[trigger] t.contains(x) ==> x.1.within(b),
        e.1.within(b),
        s.to_multiset() =~= t.to_multiset().insert(e),
    ensures
        forall|x: (T, AABB)| #[trigger] s.contains(x) ==> x.1.within(b),
{
    broadcast use vstd::seq_lib::to_multiset_contains, vstd::multiset::group_multiset_axioms;
    assert forall|x: (T, AABB)| #[trigger] s.contains(x) implies x.1.within(b) by {
        assert(s.to_multiset().count(x) > 0);
        if x != e {
            assert(t.to_multiset().count(x) > 0);
        }
    }
}

proof fn lemma_ms_push_front<A>(a: Seq<A>, b: Seq<A>, e: A)
    ensures
        (a.push(e) + b).to_multiset() =~= (a + b).to_multiset().insert(e),
{
    broadcast use vstd::seq_lib::group_to_multiset_ensures;
    lemma_multiset_commutative(a.push(e), b);
    lemma_multiset_commutative(a, b);
}

proof fn lemma_ms_tail<A>(s: Seq<A>, i: int)
    requires
        0 <= i < s.len(),
    ensures
        s.subrange(i, s.len() as int).to_multiset() =~= s.subrange(i + 1, s.len() as int).to_multiset().insert(s[i]),
{
    broadcast use vstd::seq_lib::group_to_multiset_ensures;
    let t = s.subrange(i + 1, s.len() as int);
    assert(s.subrange(i, s.len() as int) =~= seq![s[i]] + t);
    assert(seq![s[i]] =~= Seq::<A>::empty().push(s[i]));
    lemma_multiset_commutative(seq![s[i]], t);
    lemma_multiset_commutative(Seq::<A>::empty(), t);
}

impl<T: Copy> Node<T> {
    /// Every element in the subtree, this node's bucket first, then the
    /// quadrants in order.
    pub open spec fn elems(self) -> Seq<(T, AABB)>
        decreases self,
    {
        self.elements@ + match self.children {
            Some(q) => q.elems(),
            None => Seq::empty(),
        }
    }

    /// The number of levels below this node.
    pub open spec fn height(self) -> nat
        decreases self,
    {
        match self.children {
            Some(q) => q.height() + 1,
            None => 0,
        }
    }

    /// Every element housed below this node.
    pub open spec fn sub_elems(self) -> Seq<(T, AABB)>
        decreases self,
    {
        match self.children {
            Some(q) => q.elems(),
            None => Seq::empty(),
        }
    }

    /// The subtree's invariant: below the root, every element of a node's
    /// subtree lies inside the node's region (it passed that region's
    /// containment test on the way down); the root may hold anything.
    pub open spec fn ok(self, is_root: bool) -> bool
        decreases self,
    {
        &&& (is_root || forall|x: (T, AABB)| #[trigger] self.elems().contains(x) ==> x.1.within(self.bounds))
        &&& match self.children {
            Some(q) => q.ok(),
            None => true,
        }
    }

    /// (bucket size, region) of every node, children before their parent.
    pub open spec fn nodes_post(self) -> Seq<(usize, AABB)>
        decreases self,
    {
        match self.children {
            Some(q) => q.nodes_post(),
            None => Seq::empty(),
        }.push((self.elements.len(), self.bounds))
    }

    pub fn new(bounds: AABB, _depth: u8) -> (r: Node<T>)
        ensures
            r.bounds == bounds,
            r.elems() == Seq::<(T, AABB)>::empty(),
            r.children.is_none(),
            r.ok(false),
    {
        let r = Node { bounds, children: None, elements: Vec::new() };
        assert(r.elems() =~= Seq::<(T, AABB)>::empty());
        r
    }

    /// Appends (bucket size, region) of every node of the subtree to `out`,
    /// children before their parent.
    pub fn get_debug_info(&self, out: &mut Vec<(usize, AABB)>)
        ensures
            final(out)@ == old(out)@ + self.nodes_post(),
        decreases self,
    {
        match &self.children {
            Some(q) => {
                q.nw.get_debug_info(out);
                q.ne.get_debug_info(out);
                q.sw.get_debug_info(out);
                q.se.get_debug_info(out);
            },
            None => {},
        }
        out.push((self.elements.len(), self.bounds));
        proof {
            assert(final(out)@ =~= old(out)@ + self.nodes_post());
        }
    }

    /// Stores `(data, bounds)` in the deepest node whose region holds
    /// `bounds`, descending through the first fitting quadrant at each level;
    /// splits an overflowing leaf when `should_rebalance` is set.
    pub fn insert(&mut self, data: &T, bounds: &AABB, depth: u8, max_depth: u8, should_rebalance: bool)
        requires
            old(self).ok(depth == 0),
            depth == 0 || bounds.within(old(self).bounds),
        ensures
            final(self).ok(depth == 0),
            final(self).bounds == old(self).bounds,
            final(self).elems().to_multiset() =~= old(self).elems().to_multiset().insert(
                (*data, *bounds),
            ),
            ({
                let fits = depth < max_depth && old(self).children is Some && fits_quadrant(
                    *old(self).children.unwrap(),
                    *bounds,
                );
                let splits = should_rebalance && old(self).children is None && old(self).elements@.len() + 1
                    > MAX_ELEMENTS && depth < max_depth;
                &&& fits ==> {
                    &&& final(self).elements@ == old(self).elements@
                    &&& final(self).children is Some
                    &&& Quadrants::inserted_first_fit(*old(self).children.unwrap(), *final(self).children.unwrap(), (*data, *bounds))
                }
                &&& (!fits && !splits) ==> final(self).elements@ == old(self).elements@.push((*data, *bounds))
                    && final(self).children == old(self).children
                &&& !should_rebalance ==> placed_no_split(*old(self), *final(self), (*data, *bounds), depth as int, max_depth as int)
                &&& (!fits && splits) ==> {
                    let q = *final(self).children.unwrap();
                    &&& final(self).children is Some
                    &&& q.nw.bounds == quadrant_of(old(self).bounds, false, true)
                    &&& q.ne.bounds == quadrant_of(old(self).bounds, true, true)
                    &&& q.sw.bounds == quadrant_of(old(self).bounds, false, false)
                    &&& q.se.bounds == quadrant_of(old(self).bounds, true, false)
                    &&& forall|k: int| 0 <= k < final(self).elements@.len()
                        ==> !fits_quadrant(q, (#[trigger] final(self).elements@[k]).1)
                }
            }),
        decreases max_depth - depth, 3int,
    {
        let ghost e = (*data, *bounds);
        let ghost before = self.elems();
        if depth < max_depth {
            match &mut self.children {
                Some(q) => {
                    let ghost q0 = **q;
                    if q.insert_fitting(data, bounds, depth, max_depth, should_rebalance) {
                        proof {
                            assert(self.elems() == self.elements@ + q.elems());
                            lemma_multiset_commutative(self.elements@, q.elems());
                            lemma_multiset_commutative(self.elements@, q0.elems());
                            if depth != 0 {
                                lemma_within_insert(self.elems(), before, e, self.bounds);
                            }
                        }
                        return;
                    }
                },
                None => {},
            }
        }
        proof {
            lemma_ms_push_front(self.elements@, self.sub_elems(), e);
        }
        self.elements.push((*data, *bounds));
        proof {
            if depth != 0 {
                lemma_within_insert(self.elems(), before, e, self.bounds);
            }
        }
        if should_rebalance && self.children.is_none() && self.elements.len() > MAX_ELEMENTS
            && depth < max_depth {
            self.rebalance(depth, max_depth);
        }
    }

    /// Splits the node into four quadrants (if not yet split) and moves each
    /// housed element into the first quadrant that holds it.
    pub fn rebalance(&mut self, depth: u8, max_depth: u8)
        requires
            old(self).ok(depth == 0),
            depth < max_depth,
        ensures
            final(self).ok(depth == 0),
            final(self).bounds == old(self).bounds,
            final(self).elems().to_multiset() =~= old(self).elems().to_multiset(),
            final(self).children is Some,
            old(self).children is None ==> {
                let q = *final(self).children.unwrap();
                &&& q.nw.bounds == quadrant_of(old(self).bounds, false, true)
                &&& q.ne.bounds == quadrant_of(old(self).bounds, true, true)
                &&& q.sw.bounds == quadrant_of(old(self).bounds, false, false)
                &&& q.se.bounds == quadrant_of(old(self).bounds, true, false)
            },
            old(self).children is Some ==> {
                let q = *final(self).children.unwrap();
                let q0 = *old(self).children.unwrap();
                &&& q.nw.bounds == q0.nw.bounds
                &&& q.ne.bounds == q0.ne.bounds
                &&& q.sw.bounds == q0.sw.bounds
                &&& q.se.bounds == q0.se.bounds
            },
            forall|k: int| 0 <= k < final(self).elements@.len()
                ==> !fits_quadrant(*final(self).children.unwrap(), (#[trigger] final(self).elements@[k]).1),
        decreases max_depth - depth, 2int,
    {
        let ghost m0 = self.elems().to_multiset();
        let ghost is_root = depth == 0;
        let d = depth + 1;
        if self.children.is_none() {
            let q = Quadrants {
                nw: Node::new(quadrant(&self.bounds, false, true), d),
                ne: Node::new(quadrant(&self.bounds, true, true), d),
                sw: Node::new(quadrant(&self.bounds, false, false), d),
                se: Node::new(quadrant(&self.bounds, true, false), d),
            };
            assert(q.elems() =~= Seq::<(T, AABB)>::empty());
            self.children = Some(Box::new(q));
            proof {
                lemma_multiset_commutative(self.elements@, Seq::<(T, AABB)>::empty());
                assert(self.elements@ + Seq::<(T, AABB)>::empty() =~= self.elements@);
            }
        }
        let mut to_replace: Vec<(T, AABB)> = Vec::new();
        proof {
            lemma_multiset_commutative(self.elements@, self.children.unwrap().elems());
        }
        std::mem::swap(&mut self.elements, &mut to_replace);
        proof {
            lemma_multiset_commutative(self.elements@, self.children.unwrap().elems());
            assert(self.elements@ + self.children.unwrap().elems() =~= self.children.unwrap().elems());
            assert(to_replace@.subrange(0, to_replace@.len() as int) =~= to_replace@);
            if !is_root {
                broadcast use vstd::multiset::group_multiset_axioms;
                assert forall|x: (T, AABB)| #[trigger] self.elems().to_multiset().count(x) <= old(self).elems().to_multiset().count(x) by {
                    assert(self.elems().to_multiset().add(to_replace@.to_multiset()).count(x) == m0.count(x));
                }
                lemma_within_sub(self.elems(), old(self).elems(), self.bounds);
            }
        }
        let ghost q1 = *self.children.unwrap();
        let n = to_replace.len();
        let mut i: usize = 0;
        while i < n
            invariant
                n == to_replace@.len(),
                0 <= i <= n,
                depth < max_depth,
                is_root == (depth == 0),
                self.children.is_some(),
                (*self.children.unwrap()).nw.bounds == q1.nw.bounds,
                (*self.children.unwrap()).ne.bounds == q1.ne.bounds,
                (*self.children.unwrap()).sw.bounds == q1.sw.bounds,
                (*self.children.unwrap()).se.bounds == q1.se.bounds,
                forall|k: int| 0 <= k < self.elements@.len()
                    ==> !fits_quadrant(q1, (#[trigger] self.elements@[k]).1),
                self.ok(is_root),
                self.bounds == old(self).bounds,
                !is_root ==> forall|x: (T, AABB)| #[trigger] old(self).elems().contains(x) ==> x.1.within(self.bounds),
                m0 == old(self).elems().to_multiset(),
                self.elems().to_multiset().add(to_replace@.subrange(i as int, n as int).to_multiset()) =~= m0,
            decreases n - i,
        {
            let el = to_replace[i];
            proof {
                lemma_ms_tail(to_replace@, i as int);
                lemma_multiset_commutative(self.elements@, self.children.unwrap().elems());
            }
            let inserted = match &mut self.children {
                Some(q) => q.insert_fitting(&el.0, &el.1, depth, max_depth, true),
                None => false,
            };
            if !inserted {
                proof {
                    lemma_ms_push_front(self.elements@, self.children.unwrap().elems(), el);
                }
                self.elements.push(el);
            }
            proof {
                lemma_multiset_commutative(self.elements@, self.children.unwrap().elems());
                lemma_ms_tail(to_replace@, i as int);
                if !is_root {
                    broadcast use vstd::multiset::group_multiset_axioms;
                    assert forall|x: (T, AABB)| #[trigger] self.elems().to_multiset().count(x) <= old(self).elems().to_multiset().count(x) by {
                        assert(self.elems().to_multiset().add(to_replace@.subrange(i + 1, n as int).to_multiset()).count(x) == m0.count(x));
                    }
                    lemma_within_sub(self.elems(), old(self).elems(), self.bounds);
                }
            }
            i = i + 1;
        }
        proof {
            assert(to_replace@.subrange(n as int, n as int) =~= Seq::<(T, AABB)>::empty());
        }
    }

    /// Appends to `out` every element of the subtree whose bounds overlap
    /// `bounds`: the node's own bucket is always checked, and a quadrant is
    /// visited only when its region overlaps `bounds`.
    pub fn query(&self, bounds: &AABB, out: &mut Vec<(T, AABB)>)
        requires
            self.ok(true),
        ensures
            final(out)@ == old(out)@ + self.elems().filter(hits(*bounds)),
    {
        self.collect_bucket(bounds, out);
        match &self.children {
            Some(q) => q.query_each(bounds, out),
            None => {},
        }
        proof {
            assert(final(out)@ =~= old(out)@ + self.elems().filter(hits(*bounds)));
        }
    }

    fn query_recursive(&self, bounds: &AABB, out: &mut Vec<(T, AABB)>)
        requires
            self.ok(false),
        ensures
            final(out)@ == old(out)@ + self.elems().filter(hits(*bounds)),
        decreases self, 1int,
    {
        if bounds.overlaps_aabb(&self.bounds) {
            self.collect_bucket(bounds, out);
            match &self.children {
                Some(q) => q.query_each(bounds, out),
                None => {},
            }
            proof {
                assert(final(out)@ =~= old(out)@ + self.elems().filter(hits(*bounds)));
            }
        } else {
            proof {
                lemma_disjoint_region(*self, *bounds);
                assert(final(out)@ =~= old(out)@ + self.elems().filter(hits(*bounds)));
            }
        }
    }

    fn collect_bucket(&self, bounds: &AABB, out: &mut Vec<(T, AABB)>)
        ensures
            final(out)@ == old(out)@ + self.elements@.filter(hits(*bounds)),
    {
        let n = self.elements.len();
        let mut i: usize = 0;
        while i < n
            invariant
                n == self.elements@.len(),
                0 <= i <= n,
                out@ == old(out)@ + self.elements@.subrange(0, i as int).filter(hits(*bounds)),
            decreases n - i,
        {
            let el = self.elements[i];
            proof {
                assert(self.elements@.subrange(0, i + 1) =~= self.elements@.subrange(0, i as int).push(el));
                self.elements@.subrange(0, i as int).lemma_filter_push(el, hits(*bounds));
            }
            if bounds.overlaps_aabb(&el.1) {
                out.push(el);
            }
            i = i + 1;
        }
        proof {
            assert(self.elements@.subrange(0, n as int) =~= self.elements@);
        }
    }

    /// The number of elements in the subtree.
    pub fn get_total(&self) -> (r: usize)
        requires
            self.elems().len() <= usize::MAX,
        ensures
            r == self.elems().len(),
    {
        let mut total: usize = 0;
        self.get_total_recursive(&mut total);
        total
    }

    fn get_total_recursive(&self, total: &mut usize)
        requires
            *old(total) + self.elems().len() <= usize::MAX,
        ensures
            *final(total) == *old(total) + self.elems().len(),
        decreases self,
    {
        *total = *total + self.elements.len();
        match &self.children {
            Some(q) => {
                q.nw.get_total_recursive(total);
                q.ne.get_total_recursive(total);
                q.sw.get_total_recursive(total);
                q.se.get_total_recursive(total);
            },
            None => {},
        }
    }
}

impl<T: Copy> Quadrants<T> {
    fn query_each(&self, bounds: &AABB, out: &mut Vec<(T, AABB)>)
        requires
            self.ok(),
        ensures
            final(out)@ == old(out)@ + self.elems().filter(hits(*bounds)),
        decreases self, 2int,
    {
        self.nw.query_recursive(bounds, out);
        self.ne.query_recursive(bounds, out);
        self.sw.query_recursive(bounds, out);
        self.se.query_recursive(bounds, out);
        proof {
            assert(final(out)@ =~= old(out)@ + self.elems().filter(hits(*bounds)));
        }
    }
}

/// Below the root, every element of a subtree lies inside the subtree's
/// region.
pub proof fn lemma_subtree_within<T: Copy>(n: Node<T>)
    requires
        n.ok(false),
    ensures
        forall|i: int| 0 <= i < n.elems().len() ==> (#[trigger] n.elems()[i]).1.within(n.bounds),
{
    assert forall|i: int| 0 <= i < n.elems().len() implies (#[trigger] n.elems()[i]).1.within(n.bounds) by {
        assert(n.elems().contains(n.elems()[i]));
    }
}

/// A subtree whose region misses the query has nothing to report.
proof fn lemma_disjoint_region<T: Copy>(n: Node<T>, q: AABB)
    requires
        n.ok(false),
        !n.bounds.overlaps(q),
    ensures
        n.elems().filter(hits(q)) =~= Seq::<(T, AABB)>::empty(),
{
    lemma_subtree_within(n);
    let f = n.elems().filter(hits(q));
    if f.len() > 0 {
        assert(f.contains(f[0]));
        n.elems().lemma_filter_contains_rev(hits(q), f[0]);
        let i = choose|i: int| 0 <= i < n.elems().len() && n.elems()[i] == f[0];
        assert(n.elems()[i].1.within(n.bounds));
        assert(false);
    }
}

/// The payloads of `s`, as a multiset.
pub open spec fn payloads<T>(s: Seq<(T, AABB)>) -> Multiset<T> {
    s.map_values(|e: (T, AABB)| e.0).to_multiset()
}

/// Entries may only go from `Some` to `None`.
pub open spec fn only_cleared<T>(before: Seq<Option<T>>, after: Seq<Option<T>>) -> bool {
    before.len() == after.len() && forall|i: int| 0 <= i < before.len() ==> (#[trigger] after[i] == before[i]
        || (before[i] is Some && after[i] is None))
}

/// The values of the entries that went from `Some` to `None`.
pub open spec fn consumed<T>(before: Seq<Option<T>>, after: Seq<Option<T>>) -> Multiset<T>
    decreases before.len(),
{
    if before.len() == 0 || after.len() == 0 {
        Multiset::empty()
    } else {
        consumed(before.drop_last(), after.drop_last()).add(
            if before.last() is Some && after.last() is None {
                Multiset::singleton(before.last()->Some_0)
            } else {
                Multiset::empty()
            },
        )
    }
}

/// No entry of `entries` still asks for the payload of an element of `s`.
pub open spec fn none_asked<T>(s: Seq<(T, AABB)>, entries: Seq<Option<T>>) -> bool {
    forall|k: int, i: int| 0 <= k < s.len() && 0 <= i < entries.len() ==> #[trigger] entries[i] != Some(
        #[trigger] s[k].0,
    )
}

proof fn lemma_consumed_same<T>(a: Seq<Option<T>>)
    ensures
        consumed(a, a) =~= Multiset::<T>::empty(),
    decreases a.len(),
{
    if a.len() > 0 {
        lemma_consumed_same(a.drop_last());
    }
}

proof fn lemma_consumed_trans<T>(a: Seq<Option<T>>, b: Seq<Option<T>>, c: Seq<Option<T>>)
    requires
        only_cleared(a, b),
        only_cleared(b, c),
    ensures
        only_cleared(a, c),
        consumed(a, c) =~= consumed(a, b).add(consumed(b, c)),
    decreases a.len(),
{
    if a.len() > 0 {
        let (a1, b1, c1) = (a.drop_last(), b.drop_last(), c.drop_last());
        assert(only_cleared(a1, b1));
        assert(only_cleared(b1, c1));
        lemma_consumed_trans(a1, b1, c1);
        let n = a.len() - 1;
        assert(a.last() == a[n] && b.last() == b[n] && c.last() == c[n]);
    }
}

proof fn lemma_consumed_one<T>(a: Seq<Option<T>>, i: int)
    requires
        0 <= i < a.len(),
        a[i] is Some,
    ensures
        only_cleared(a, a.update(i, None)),
        consumed(a, a.update(i, None)) =~= Multiset::singleton(a[i]->Some_0),
    decreases a.len(),
{
    let b = a.update(i, None);
    if i == a.len() - 1 {
        assert(a.drop_last() =~= b.drop_last());
        lemma_consumed_same(a.drop_last());
    } else {
        assert(b.drop_last() =~= a.drop_last().update(i, None));
        lemma_consumed_one(a.drop_last(), i);
    }
}

proof fn lemma_none_asked_stays<T>(s: Seq<(T, AABB)>, b: Seq<Option<T>>, c: Seq<Option<T>>)
    requires
        none_asked(s, b),
        only_cleared(b, c),
    ensures
        none_asked(s, c),
{
    assert forall|k: int, i: int| 0 <= k < s.len() && 0 <= i < c.len() implies #[trigger] c[i] != Some(#[trigger] s[k].0) by {
        assert(b[i] != Some(s[k].0));
    }
}

proof fn lemma_payloads_add<T>(a: Seq<(T, AABB)>, b: Seq<(T, AABB)>)
    ensures
        payloads(a + b) =~= payloads(a).add(payloads(b)),
{
    let f = |e: (T, AABB)| e.0;
    assert((a + b).map_values(f) =~= a.map_values(f) + b.map_values(f));
    lemma_multiset_commutative(a.map_values(f), b.map_values(f));
}

proof fn lemma_payloads_empty<T>()
    ensures
        payloads(Seq::<(T, AABB)>::empty()) =~= Multiset::<T>::empty(),
{
    broadcast use vstd::seq_lib::group_to_multiset_ensures;
    let m = Seq::<(T, AABB)>::empty().map_values(|e: (T, AABB)| e.0);
    assert(m =~= Seq::<T>::empty());
    assert forall|a: T| m.to_multiset().count(a) == 0 by {
        assert(!m.contains(a));
    }
}

proof fn lemma_payloads_push<T>(a: Seq<(T, AABB)>, e: (T, AABB))
    ensures
        payloads(a.push(e)) =~= payloads(a).insert(e.0),
{
    broadcast use vstd::seq_lib::group_to_multiset_ensures;
    let f = |e: (T, AABB)| e.0;
    assert(a.push(e).map_values(f) =~= a.map_values(f).push(e.0));
}

/// The position of the first entry equal to `Some(x)`, if any.
fn find_entry<T: Copy + PartialEq>(entries: &Vec<Option<T>>, x: &T) -> (r: Option<usize>)
    requires
        vstd::laws_eq::obeys_concrete_eq::<T>(),
    ensures
        match r {
            Some(i) => i < entries@.len() && entries@[i as int] == Some(*x),
            None => forall|i: int| 0 <= i < entries@.len() ==> #[trigger] entries@[i] != Some(*x),
        },
{
    let n = entries.len();
    let mut i: usize = 0;
    while i < n
        invariant
            n == entries@.len(),
            0 <= i <= n,
            vstd::laws_eq::obeys_concrete_eq::<T>(),
            forall|j: int| 0 <= j < i ==> #[trigger] entries@[j] != Some(*x),
        decreases n - i,
    {
        match &entries[i] {
            Some(v) => {
                let same = *v == *x;
                proof {
                    reveal(vstd::laws_eq::obeys_concrete_eq);
                }
                if same {
                    return Some(i);
                }
            },
            None => {},
        }
        i = i + 1;
    }
    None
}

impl<T: Copy + PartialEq> Node<T> {
    /// Removes, for each entry `Some(x)` of `to_remove`, one element with
    /// payload `x`, and clears that entry; the quadrants are done before the
    /// node's own bucket. Afterwards no remaining entry asks for a remaining
    /// element.
    pub fn remove_all(&mut self, to_remove: &mut Vec<Option<T>>)
        requires
            vstd::laws_eq::obeys_concrete_eq::<T>(),
        ensures
            final(self).bounds == old(self).bounds,
            old(self).ok(false) ==> final(self).ok(false),
            old(self).ok(true) ==> final(self).ok(true),
            final(self).elems().to_multiset().subset_of(old(self).elems().to_multiset()),
            only_cleared(old(to_remove)@, final(to_remove)@),
            payloads(old(self).elems()) =~= payloads(final(self).elems()).add(
                consumed(old(to_remove)@, final(to_remove)@),
            ),
            none_asked(final(self).elems(), final(to_remove)@),
        decreases old(self).height(), 1int,
    {
        let ghost tr0 = to_remove@;
        let ghost node0 = *self;
        proof {
            lemma_consumed_same(tr0);
        }
        match &mut self.children {
            Some(q) => {
                q.remove_all_each(to_remove);
            },
            None => {
                proof {
                    lemma_payloads_empty::<T>();
                }
            },
        }
        let ghost tr1 = to_remove@;
        let ghost sub1 = self.sub_elems();
        let mut kept: Vec<(T, AABB)> = Vec::new();
        let mut bucket: Vec<(T, AABB)> = Vec::new();
        std::mem::swap(&mut self.elements, &mut bucket);
        let n = bucket.len();
        let mut j: usize = 0;
        proof {
            assert(bucket@.subrange(0, 0) =~= Seq::<(T, AABB)>::empty());
            lemma_consumed_same(tr1);
            lemma_payloads_empty::<T>();
        }
        while j < n
            invariant
                n == bucket@.len(),
                bucket@ == node0.elements@,
                0 <= j <= n,
                vstd::laws_eq::obeys_concrete_eq::<T>(),
                only_cleared(tr0, tr1),
                only_cleared(tr1, to_remove@),
                payloads(bucket@.subrange(0, j as int)) =~= payloads(kept@).add(consumed(tr1, to_remove@)),
                kept@.to_multiset().subset_of(bucket@.subrange(0, j as int).to_multiset()),
                forall|k: int| 0 <= k < kept@.len() ==> bucket@.contains(#[trigger] kept@[k]),
                none_asked(kept@, to_remove@),
                none_asked(sub1, to_remove@),
            decreases n - j,
        {
            let el = bucket[j];
            let ghost tr_before = to_remove@;
            proof {
                assert(bucket@.subrange(0, j + 1) =~= bucket@.subrange(0, j as int).push(el));
                lemma_payloads_push(bucket@.subrange(0, j as int), el);
                broadcast use vstd::seq_lib::group_to_multiset_ensures;
            }
            match find_entry(to_remove, &el.0) {
                Some(i) => {
                    to_remove.set(i, None);
                    proof {
                        lemma_consumed_one(tr_before, i as int);
                        lemma_consumed_trans(tr1, tr_before, to_remove@);
                        lemma_none_asked_stays(kept@, tr_before, to_remove@);
                        lemma_none_asked_stays(sub1, tr_before, to_remove@);
                        lemma_consumed_trans(tr0, tr1, tr_before);
                        assert(tr_before[i as int] == Some(el.0));
                        assert(payloads(bucket@.subrange(0, j + 1)) =~= payloads(kept@).add(consumed(tr1, to_remove@)));
                    }
                },
                None => {
                    let ghost kept_before = kept@;
                    kept.push(el);
                    proof {
                        lemma_payloads_push(kept_before, el);
                        assert(kept@ == kept_before.push(el));
                        assert(kept@.drop_last() =~= kept_before);
                        assert(payloads(kept@) =~= payloads(kept_before).insert(el.0));
                        assert(payloads(bucket@.subrange(0, j + 1)) =~= payloads(kept@).add(consumed(tr1, to_remove@)));
                        assert forall|k: int, i: int| 0 <= k < kept@.len() && 0 <= i < to_remove@.len()
                            implies #[trigger] to_remove@[i] != Some(#[trigger] kept@[k].0) by {
                            if k < kept@.len() - 1 {
                                assert(kept@[k] == kept@.drop_last()[k]);
                            }
                        }
                        assert forall|k: int| 0 <= k < kept@.len() implies bucket@.contains(#[trigger] kept@[k]) by {
                            if k < kept@.len() - 1 {
                                assert(kept@[k] == kept@.drop_last()[k]);
                            } else {
                                assert(bucket@[j as int] == el);
                            }
                        }
                    }
                },
            }
            j = j + 1;
        }
        self.elements = kept;
        proof {
            let sub0 = node0.sub_elems();
            assert(bucket@.subrange(0, n as int) =~= bucket@);
            lemma_consumed_trans(tr0, tr1, to_remove@);
            lemma_payloads_add(node0.elements@, sub0);
            lemma_payloads_add(self.elements@, sub1);
            lemma_multiset_commutative(self.elements@, sub1);
            lemma_multiset_commutative(node0.elements@, sub0);
            assert(self.elems() == self.elements@ + sub1);
            assert(node0.elems() == node0.elements@ + sub0);
            assert(payloads(node0.elems()) =~= payloads(self.elems()).add(consumed(tr0, to_remove@)));
            assert forall|x: (T, AABB)| #[trigger] self.elems().to_multiset().count(x) <= node0.elems().to_multiset().count(x) by {
                assert(self.elements@.to_multiset().count(x) <= node0.elements@.to_multiset().count(x));
                assert(sub1.to_multiset().count(x) <= sub0.to_multiset().count(x));
            }
            assert forall|k: int, i: int| 0 <= k < self.elems().len() && 0 <= i < to_remove@.len()
                implies #[trigger] to_remove@[i] != Some(#[trigger] self.elems()[k].0) by {
                if k < self.elements@.len() {
                    assert(self.elems()[k] == self.elements@[k]);
                } else {
                    assert(self.elems()[k] == sub1[k - self.elements@.len()]);
                }
            }
            if node0.ok(false) {
                lemma_within_sub(self.elems(), node0.elems(), self.bounds);
            }
        }
    }
}

impl<T: Copy + PartialEq> Quadrants<T> {
    fn remove_all_each(&mut self, to_remove: &mut Vec<Option<T>>)
        requires
            vstd::laws_eq::obeys_concrete_eq::<T>(),
        ensures
            final(self).nw.bounds == old(self).nw.bounds,
            final(self).ne.bounds == old(self).ne.bounds,
            final(self).sw.bounds == old(self).sw.bounds,
            final(self).se.bounds == old(self).se.bounds,
            old(self).ok() ==> final(self).ok(),
            final(self).elems().to_multiset().subset_of(old(self).elems().to_multiset()),
            only_cleared(old(to_remove)@, final(to_remove)@),
            payloads(old(self).elems()) =~= payloads(final(self).elems()).add(
                consumed(old(to_remove)@, final(to_remove)@),
            ),
            none_asked(final(self).elems(), final(to_remove)@),
        decreases old(self).height(), 2int,
    {
        let ghost t0 = to_remove@;
        let ghost q0 = *self;
        self.nw.remove_all(to_remove);
        let ghost t1 = to_remove@;
        self.ne.remove_all(to_remove);
        let ghost t2 = to_remove@;
        self.sw.remove_all(to_remove);
        let ghost t3 = to_remove@;
        self.se.remove_all(to_remove);
        proof {
            lemma_consumed_trans(t0, t1, t2);
            lemma_consumed_trans(t0, t2, t3);
            lemma_consumed_trans(t0, t3, to_remove@);
            let (a, b, c, d) = (self.nw.elems(), self.ne.elems(), self.sw.elems(), self.se.elems());
            let (a0, b0, c0, d0) = (q0.nw.elems(), q0.ne.elems(), q0.sw.elems(), q0.se.elems());
            lemma_payloads_add(a, b);
            lemma_payloads_add(a + b, c);
            lemma_payloads_add(a + b + c, d);
            lemma_payloads_add(a0, b0);
            lemma_payloads_add(a0 + b0, c0);
            lemma_payloads_add(a0 + b0 + c0, d0);
            lemma_consumed_trans(t1, t2, t3);
            lemma_consumed_trans(t1, t3, to_remove@);
            lemma_consumed_trans(t2, t3, to_remove@);
            lemma_none_asked_stays(a, t1, to_remove@);
            lemma_none_asked_stays(b, t2, to_remove@);
            lemma_none_asked_stays(c, t3, to_remove@);
            let all = a + b + c + d;
            assert(self.elems() == all);
            assert forall|k: int, i: int| 0 <= k < all.len() && 0 <= i < to_remove@.len()
                implies #[trigger] to_remove@[i] != Some(#[trigger] all[k].0) by {
                if k < a.len() {
                    assert(all[k] == a[k]);
                } else if k < a.len() + b.len() {
                    assert(all[k] == b[k - a.len()]);
                } else if k < a.len() + b.len() + c.len() {
                    assert(all[k] == c[k - a.len() - b.len()]);
                } else {
                    assert(all[k] == d[k - a.len() - b.len() - c.len()]);
                }
            }
            lemma_multiset_commutative(a, b);
            lemma_multiset_commutative(a + b, c);
            lemma_multiset_commutative(a + b + c, d);
            lemma_multiset_commutative(a0, b0);
            lemma_multiset_commutative(a0 + b0, c0);
            lemma_multiset_commutative(a0 + b0 + c0, d0);
            assert forall|x: (T, AABB)| #[trigger] self.elems().to_multiset().count(x) <= q0.elems().to_multiset().count(x) by {
                assert(a.to_multiset().count(x) <= a0.to_multiset().count(x));
                assert(b.to_multiset().count(x) <= b0.to_multiset().count(x));
                assert(c.to_multiset().count(x) <= c0.to_multiset().count(x));
                assert(d.to_multiset().count(x) <= d0.to_multiset().count(x));
            }
        }
    }
}

/// A quadtree: a root node over a fixed region and the depth below which
/// nodes may split.
pub struct QuadTree<T> {
    pub root: Node<T>,
    pub max_depth: u8,
}

impl<T: Copy> QuadTree<T> {
    pub open spec fn wf(self) -> bool {
        self.root.ok(true)
    }

    /// Every stored element.
    pub open spec fn elems(self) -> Seq<(T, AABB)> {
        self.root.elems()
    }

    /// What a query over `q` reports: each stored element whose bounds
    /// overlap `q`, in storage order.
    pub open spec fn query_spec(self, q: AABB) -> Seq<(T, AABB)> {
        self.root.elems().filter(hits(q))
    }

    /// A tree over the region from `-1.5 * (width, height)` to
    /// `1.5 * (width, height)`, rounded toward zero.
    pub fn new(width: i32, height: i32, max_depth: u8) -> (r: QuadTree<T>)
        requires
            0 <= width <= 0x4000_0000,
            0 <= height <= 0x4000_0000,
        ensures
            r.wf(),
            r.elems() == Seq::<(T, AABB)>::empty(),
            r.max_depth == max_depth,
            r.root.bounds.max.x == width + width / 2,
            r.root.bounds.max.y == height + height / 2,
            r.root.bounds.min.x == -(width + width / 2),
            r.root.bounds.min.y == -(height + height / 2),
    {
        let w = width + width / 2;
        let h = height + height / 2;
        let bounds = AABB { min: Point { x: -w, y: -h }, max: Point { x: w, y: h } };
        QuadTree { root: Node::new(bounds, 0), max_depth }
    }

    pub fn len(&self) -> (r: usize)
        requires
            self.elems().len() <= usize::MAX,
        ensures
            r == self.elems().len(),
    {
        self.root.get_total()
    }

    /// Adds `data` under the shape's bounds, without splitting nodes.
    pub fn insert<S: HasBounds>(&mut self, data: T, shape: &S)
        requires
            old(self).wf(),
        ensures
            final(self).wf(),
            final(self).max_depth == old(self).max_depth,
            final(self).root.bounds == old(self).root.bounds,
            final(self).elems().to_multiset() =~= old(self).elems().to_multiset().insert(
                (data, shape.bounds_spec()),
            ),
    {
        let b = shape.bounds();
        self.root.insert(&data, &b, 0, self.max_depth, false);
    }

    /// Adds `data` under the shape's bounds, splitting any leaf that
    /// overflows on the way.
    pub fn insert_with_rebalance<S: HasBounds>(&mut self, data: T, shape: &S)
        requires
            old(self).wf(),
        ensures
            final(self).wf(),
            final(self).max_depth == old(self).max_depth,
            final(self).root.bounds == old(self).root.bounds,
            final(self).elems().to_multiset() =~= old(self).elems().to_multiset().insert(
                (data, shape.bounds_spec()),
            ),
    {
        let b = shape.bounds();
        self.root.insert(&data, &b, 0, self.max_depth, true);
    }

    /// Every stored element whose bounds overlap `bounds`.
    pub fn query(&self, bounds: &AABB) -> (r: Vec<(T, AABB)>)
        requires
            self.wf(),
        ensures
            r@ == self.query_spec(*bounds),
    {
        let mut out = Vec::new();
        self.root.query(bounds, &mut out);
        assert(out@ =~= self.query_spec(*bounds));
        out
    }

    /// (bucket size, region) of every node, children before their parent.
    pub fn get_debug_info(&self) -> (r: Vec<(usize, AABB)>)
        ensures
            r@ == self.root.nodes_post(),
    {
        let mut out = Vec::new();
        self.root.get_debug_info(&mut out);
        assert(out@ =~= self.root.nodes_post());
        out
    }
}

impl<T: Copy + PartialEq> QuadTree<T> {
    /// Removes one element for each entry `Some(x)` of `to_remove` (an
    /// element with payload `x`), then empties `to_remove`. What remains
    /// matches none of the entries that found nothing to remove.
    pub fn remove_all(&mut self, to_remove: &mut Vec<Option<T>>)
        requires
            old(self).wf(),
            vstd::laws_eq::obeys_concrete_eq::<T>(),
        ensures
            final(self).wf(),
            final(self).max_depth == old(self).max_depth,
            final(self).root.bounds == old(self).root.bounds,
            final(self).elems().to_multiset().subset_of(old(self).elems().to_multiset()),
            final(to_remove)@ == Seq::<Option<T>>::empty(),
            exists|left: Seq<Option<T>>| {
                &&& only_cleared(old(to_remove)@, left)
                &&& payloads(old(self).elems()) =~= payloads(final(self).elems()).add(consumed(old(to_remove)@, left))
                &&& none_asked(final(self).elems(), left)
            },
    {
        self.root.remove_all(to_remove);
        let ghost left = to_remove@;
        to_remove.clear();
        assert(only_cleared(old(to_remove)@, left));
    }
}

/// A query reports only elements whose bounds overlap the query region: an
/// element disjoint from it is never returned.
pub proof fn lemma_quadtree_no_false_positives<T: Copy>(t: QuadTree<T>, q: AABB, e: (T, AABB))
    requires
        t.wf(),
        t.query_spec(q).contains(e),
    ensures
        e.1.overlaps(q),
{
    t.elems().lemma_filter_contains_rev(hits(q), e);
}

/// A query reports every stored element whose bounds overlap the query
/// region.
pub proof fn lemma_quadtree_no_false_negatives<T: Copy>(t: QuadTree<T>, q: AABB, e: (T, AABB))
    requires
        t.wf(),
        t.elems().contains(e),
        e.1.overlaps(q),
    ensures
        t.query_spec(q).contains(e),
{
    let i = choose|i: int| 0 <= i < t.elems().len() && t.elems()[i] == e;
    t.elems().lemma_filter_contains(hits(q), i);
}

} // verus!
