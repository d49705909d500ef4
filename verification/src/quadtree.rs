//! A quadtree: entries with a place in the plane, kept so that those within
//! a box are found without looking at all of them.
//!
//! A place is a pair of keys, unsigned numbers of which only the order is
//! used; [`crate::double::double_key`] gives the key of a double. The tree is
//! built once from all its entries and not changed after. [`Tree`] is what
//! the contracts see of it.

use vstd::multiset::Multiset;
use vstd::prelude::*;
use vstd::seq_lib::{lemma_multiset_commutative, to_multiset_build};

verus! {

/// The number of entries from which on a node is cut in four.
pub const LEAF_CAPACITY: usize = 64;

/// Something at the place `(x, y)`.
#[derive(Debug, Clone, PartialEq, Eq)]
pub struct Entry<T> {
    pub x: u64,
    pub y: u64,
    pub value: T,
}

/// The box of the places from `(min_x, min_y)` to `(max_x, max_y)`, both
/// included.
#[derive(Debug, Clone, Copy, PartialEq, Eq)]
pub struct Bounds {
    pub min_x: u64,
    pub min_y: u64,
    pub max_x: u64,
    pub max_y: u64,
}

impl Bounds {
    /// The place `(x, y)` lies in the box.
    pub open spec fn holds(self, x: u64, y: u64) -> bool {
        self.min_x <= x <= self.max_x && self.min_y <= y <= self.max_y
    }

    /// Some place lies in both boxes.
    pub open spec fn meets(self, other: Bounds) -> bool {
        &&& self.min_x <= other.max_x
        &&& other.min_x <= self.max_x
        &&& self.min_y <= other.max_y
        &&& other.min_y <= self.max_y
        &&& self.min_x <= self.max_x
        &&& self.min_y <= self.max_y
        &&& other.min_x <= other.max_x
        &&& other.min_y <= other.max_y
    }

    /// Every place of `other` lies in the box.
    pub open spec fn covers(self, other: Bounds) -> bool {
        &&& self.min_x <= other.min_x
        &&& self.min_y <= other.min_y
        &&& other.max_x <= self.max_x
        &&& other.max_y <= self.max_y
    }

    /// The box can be cut in four boxes, each smaller than it.
    pub open spec fn splits(self) -> bool {
        self.min_x < self.max_x && self.min_y < self.max_y
    }

    /// How far the box reaches, across and down; 0 for a box that cannot be
    /// cut.
    pub open spec fn span(self) -> nat {
        if self.splits() {
            ((self.max_x - self.min_x) + (self.max_y - self.min_y)) as nat
        } else {
            0
        }
    }

    /// The column at which a box that can be cut is cut: the places up to
    /// it are on the left, those after it on the right.
    pub open spec fn mid_x(self) -> u64 {
        (self.min_x + (self.max_x - self.min_x) / 2) as u64
    }

    /// The row at which a box that can be cut is cut: the places up to it
    /// are above, those after it below.
    pub open spec fn mid_y(self) -> u64 {
        (self.min_y + (self.max_y - self.min_y) / 2) as u64
    }

    /// The part of the box to the left of and above the cuts of `by`.
    pub open spec fn upper_left(self, by: Bounds) -> Bounds {
        Bounds { max_x: by.mid_x(), max_y: by.mid_y(), ..self }
    }

    /// The part of the box to the right of and above the cuts of `by`.
    pub open spec fn upper_right(self, by: Bounds) -> Bounds {
        Bounds { min_x: (by.mid_x() + 1) as u64, max_y: by.mid_y(), ..self }
    }

    /// The part of the box to the left of and below the cuts of `by`.
    pub open spec fn lower_left(self, by: Bounds) -> Bounds {
        Bounds { max_x: by.mid_x(), min_y: (by.mid_y() + 1) as u64, ..self }
    }

    /// The part of the box to the right of and below the cuts of `by`.
    pub open spec fn lower_right(self, by: Bounds) -> Bounds {
        Bounds { min_x: (by.mid_x() + 1) as u64, min_y: (by.mid_y() + 1) as u64, ..self }
    }

    /// The box of all places.
    pub open spec fn all() -> Bounds {
        Bounds { min_x: 0, min_y: 0, max_x: u64::MAX, max_y: u64::MAX }
    }

    /// The box of all places.
    pub fn everything() -> (b: Self)
        ensures
            b == Bounds::all(),
            forall|x: u64, y: u64| b.holds(x, y),
    {
        Bounds { min_x: 0, min_y: 0, max_x: u64::MAX, max_y: u64::MAX }
    }

    /// Whether the place `(x, y)` lies in the box.
    pub fn contains(&self, x: u64, y: u64) -> (r: bool)
        ensures
            r == self.holds(x, y),
    {
        self.min_x <= x && x <= self.max_x && self.min_y <= y && y <= self.max_y
    }

    /// Whether some place lies in both boxes.
    pub fn intersects(&self, other: &Bounds) -> (r: bool)
        ensures
            r == self.meets(*other),
    {
        self.min_x <= other.max_x && other.min_x <= self.max_x && self.min_y <= other.max_y
            && other.min_y <= self.max_y && self.min_x <= self.max_x && self.min_y <= self.max_y
            && other.min_x <= other.max_x && other.min_y <= other.max_y
    }
}

/// A place that lies in two boxes is a place where they meet.
pub proof fn lemma_meets(a: Bounds, b: Bounds, x: u64, y: u64)
    requires
        a.holds(x, y),
        b.holds(x, y),
    ensures
        a.meets(b),
{
}

/// Those of `entries` that lie in the box `q`, in their order.
pub open spec fn hits<T>(entries: Seq<Entry<T>>, q: Bounds) -> Seq<Entry<T>>
    decreases entries.len(),
{
    if entries.len() == 0 {
        Seq::empty()
    } else if q.holds(entries.last().x, entries.last().y) {
        hits(entries.drop_last(), q).push(entries.last())
    } else {
        hits(entries.drop_last(), q)
    }
}

/// The entries of two runs that lie in a box are those of the first run and
/// then those of the second.
pub proof fn lemma_hits_add<T>(a: Seq<Entry<T>>, b: Seq<Entry<T>>, q: Bounds)
    ensures
        hits(a + b, q) == hits(a, q) + hits(b, q),
    decreases b.len(),
{
    if b.len() == 0 {
        assert(a + b == a);
    } else {
        assert((a + b).drop_last() == a + b.drop_last());
        assert((a + b).last() == b.last());
        lemma_hits_add(a, b.drop_last(), q);
    }
}

/// Of entries none of which lies in the box, none is a hit.
pub proof fn lemma_hits_none<T>(entries: Seq<Entry<T>>, q: Bounds)
    requires
        forall|i: int| 0 <= i < entries.len() ==> !q.holds((#[trigger] entries[i]).x, entries[i].y),
    ensures
        hits(entries, q) == Seq::<Entry<T>>::empty(),
    decreases entries.len(),
{
    if entries.len() > 0 {
        assert(entries.last() == entries[entries.len() - 1]);
        assert forall|i: int| 0 <= i < entries.drop_last().len() implies !q.holds(
            (#[trigger] entries.drop_last()[i]).x,
            entries.drop_last()[i].y,
        ) by {
            assert(entries.drop_last()[i] == entries[i]);
        }
        lemma_hits_none(entries.drop_last(), q);
    }
}

/// The hits are the entries that lie in the box, each as often as it is
/// among the entries.
pub proof fn lemma_hits_multiset<T>(entries: Seq<Entry<T>>, q: Bounds)
    ensures
        hits(entries, q).to_multiset() == entries.to_multiset().filter(
            |e: Entry<T>| q.holds(e.x, e.y),
        ),
    decreases entries.len(),
{
    broadcast use vstd::multiset::group_multiset_axioms;

    let inside = |e: Entry<T>| q.holds(e.x, e.y);
    if entries.len() == 0 {
        entries.to_multiset_ensures();
        hits(entries, q).to_multiset_ensures();
        assert(hits(entries, q).to_multiset() =~= entries.to_multiset().filter(inside));
    } else {
        let before = entries.drop_last();
        let last = entries.last();
        lemma_hits_multiset(before, q);
        assert(entries == before.push(last));
        to_multiset_build(before, last);
        if q.holds(last.x, last.y) {
            to_multiset_build(hits(before, q), last);
        }
        assert(hits(entries, q).to_multiset() =~= entries.to_multiset().filter(inside));
    }
}

/// What a [`QuadTree`] holds: a leaf with its entries and the box in which
/// they all lie, or a branch with the four trees that it is cut into.
pub enum Tree<T> {
    Leaf { entries: Seq<Entry<T>>, region: Bounds },
    Branch {
        upper_left: Box<Tree<T>>,
        upper_right: Box<Tree<T>>,
        lower_left: Box<Tree<T>>,
        lower_right: Box<Tree<T>>,
    },
}

impl<T> Tree<T> {
    /// The entries of the leaves, from the first leaf to the last.
    pub open spec fn entries(self) -> Seq<Entry<T>>
        decreases self,
    {
        match self {
            Tree::Leaf { entries, .. } => entries,
            Tree::Branch { upper_left, upper_right, lower_left, lower_right } => upper_left.entries()
                + upper_right.entries() + lower_left.entries() + lower_right.entries(),
        }
    }

    /// The entries of each leaf lie in the box of the leaf.
    pub open spec fn boxed(self) -> bool
        decreases self,
    {
        match self {
            Tree::Leaf { entries, region } => forall|i: int|
                0 <= i < entries.len() ==> region.holds((#[trigger] entries[i]).x, entries[i].y),
            Tree::Branch { upper_left, upper_right, lower_left, lower_right } => upper_left.boxed()
                && upper_right.boxed() && lower_left.boxed() && lower_right.boxed(),
        }
    }

    /// The tree is cut as far as `bbox` lets it be, and no further: a tree
    /// of more than [`LEAF_CAPACITY`] entries is a branch if `bbox` can be
    /// cut, and a leaf otherwise; a tree of fewer is a leaf. The four trees
    /// of a branch are cut in that way over the quarters of `bbox`. The box
    /// of a leaf is `region` as the cuts above the leaf have left it.
    pub open spec fn cut(self, bbox: Bounds, region: Bounds) -> bool
        decreases self,
    {
        match self {
            Tree::Leaf { entries, region: r } => r == region && (entries.len() <= LEAF_CAPACITY
                || !bbox.splits()),
            Tree::Branch { upper_left, upper_right, lower_left, lower_right } => {
                &&& self.entries().len() > LEAF_CAPACITY
                &&& bbox.splits()
                &&& upper_left.cut(bbox.upper_left(bbox), region.upper_left(bbox))
                &&& upper_right.cut(bbox.upper_right(bbox), region.upper_right(bbox))
                &&& lower_left.cut(bbox.lower_left(bbox), region.lower_left(bbox))
                &&& lower_right.cut(bbox.lower_right(bbox), region.lower_right(bbox))
            },
        }
    }
}

/// In a tree that is cut over `bbox`, with the boxes of its leaves cut out
/// of a `region` that covers `bbox`, every entry lies in `region`. So the
/// entries of each of the four trees of a branch lie on their side of the
/// cuts: up to the middle column or after it, up to the middle row or after
/// it.
pub proof fn lemma_entries_in_region<T>(t: Tree<T>, bbox: Bounds, region: Bounds)
    requires
        t.cut(bbox, region),
        t.boxed(),
        region.covers(bbox),
    ensures
        forall|i: int|
            0 <= i < t.entries().len() ==> region.holds((#[trigger] t.entries()[i]).x, t.entries()[i].y),
    decreases t,
{
    match t {
        Tree::Leaf { .. } => {},
        Tree::Branch { upper_left, upper_right, lower_left, lower_right } => {
            lemma_entries_in_region(*upper_left, bbox.upper_left(bbox), region.upper_left(bbox));
            lemma_entries_in_region(*upper_right, bbox.upper_right(bbox), region.upper_right(bbox));
            lemma_entries_in_region(*lower_left, bbox.lower_left(bbox), region.lower_left(bbox));
            lemma_entries_in_region(*lower_right, bbox.lower_right(bbox), region.lower_right(bbox));
            let (a, b, c, d) = (
                upper_left.entries(),
                upper_right.entries(),
                lower_left.entries(),
                lower_right.entries(),
            );
            assert forall|i: int| 0 <= i < t.entries().len() implies region.holds(
                (#[trigger] t.entries()[i]).x,
                t.entries()[i].y,
            ) by {
                let all = a + b + c + d;
                if i < a.len() {
                    assert(all[i] == a[i]);
                } else if i < a.len() + b.len() {
                    assert(all[i] == b[i - a.len()]);
                } else if i < a.len() + b.len() + c.len() {
                    assert(all[i] == c[i - a.len() - b.len()]);
                } else {
                    assert(all[i] == d[i - a.len() - b.len() - c.len()]);
                }
            }
        },
    }
}

/// A node of the tree: a leaf with its entries and the box in which they all
/// lie, or a branch with the four nodes that it is cut into.
enum Node<T> {
    Leaf(Vec<Entry<T>>, Bounds),
    Branch(Box<Node<T>>, Box<Node<T>>, Box<Node<T>>, Box<Node<T>>),
}

impl<T> Node<T> {
    /// What the node holds.
    spec fn shape(self) -> Tree<T>
        decreases self,
    {
        match self {
            Node::Leaf(items, region) => Tree::Leaf { entries: items@, region },
            Node::Branch(a, b, c, d) => Tree::Branch {
                upper_left: Box::new(a.shape()),
                upper_right: Box::new(b.shape()),
                lower_left: Box::new(c.shape()),
                lower_right: Box::new(d.shape()),
            },
        }
    }

    /// The node for `elements`, all of which lie in `region`.
    ///
    /// With more than [`LEAF_CAPACITY`] elements, and a `bbox` that can be cut,
    /// the node is a branch: `bbox` is cut in four at its middle, and each
    /// element goes into the quarter on whose side of the cuts it lies. Else
    /// it is a leaf.
    fn new(bbox: Bounds, region: Bounds, elements: Vec<Entry<T>>) -> (n: Self)
        requires
            forall|i: int|
                0 <= i < elements@.len() ==> region.holds((#[trigger] elements@[i]).x, elements@[i].y),
        ensures
            n.shape().boxed(),
            n.shape().cut(bbox, region),
            n.shape().entries().to_multiset() == elements@.to_multiset(),
        decreases bbox.span(),
    {
        if elements.len() <= LEAF_CAPACITY || !(bbox.min_x < bbox.max_x && bbox.min_y < bbox.max_y) {
            return Node::Leaf(elements, region);
        }
        let mid_x: u64 = bbox.min_x + (bbox.max_x - bbox.min_x) / 2;
        let mid_y: u64 = bbox.min_y + (bbox.max_y - bbox.min_y) / 2;
        proof {
            elements@.to_multiset_ensures();
        }
        let ghost count = elements@.len();
        let mut rest = elements;
        let mut a: Vec<Entry<T>> = Vec::new();
        let mut b: Vec<Entry<T>> = Vec::new();
        let mut c: Vec<Entry<T>> = Vec::new();
        let mut d: Vec<Entry<T>> = Vec::new();
        let ghost all = rest@.to_multiset();
        assert(all.len() == count);
        proof {
            broadcast use vstd::multiset::group_multiset_axioms;

            a@.to_multiset_ensures();
            assert(a@.to_multiset() =~= Multiset::empty());
            assert(rest@.to_multiset().add(Multiset::empty()) =~= rest@.to_multiset());
        }
        while rest.len() > 0
            invariant
                bbox.min_x <= mid_x < bbox.max_x,
                bbox.min_y <= mid_y < bbox.max_y,
                all == rest@.to_multiset().add(a@.to_multiset()).add(b@.to_multiset()).add(
                    c@.to_multiset(),
                ).add(d@.to_multiset()),
                forall|i: int|
                    0 <= i < rest@.len() ==> region.holds((#[trigger] rest@[i]).x, rest@[i].y),
                forall|i: int|
                    0 <= i < a@.len() ==> region.holds((#[trigger] a@[i]).x, a@[i].y) && a@[i].x
                        <= mid_x && a@[i].y <= mid_y,
                forall|i: int|
                    0 <= i < b@.len() ==> region.holds((#[trigger] b@[i]).x, b@[i].y) && b@[i].x
                        > mid_x && b@[i].y <= mid_y,
                forall|i: int|
                    0 <= i < c@.len() ==> region.holds((#[trigger] c@[i]).x, c@[i].y) && c@[i].x
                        <= mid_x && c@[i].y > mid_y,
                forall|i: int|
                    0 <= i < d@.len() ==> region.holds((#[trigger] d@[i]).x, d@[i].y) && d@[i].x
                        > mid_x && d@[i].y > mid_y,
            decreases rest@.len(),
        {
            let ghost before = rest@;
            let ghost (sa, sb, sc, sd) = (a@, b@, c@, d@);
            let e = rest.pop().unwrap();
            proof {
                assert(before == rest@.push(e));
                to_multiset_build(rest@, e);
                to_multiset_build(sa, e);
                to_multiset_build(sb, e);
                to_multiset_build(sc, e);
                to_multiset_build(sd, e);
            }
            if e.x <= mid_x {
                if e.y <= mid_y {
                    a.push(e);
                } else {
                    c.push(e);
                }
            } else {
                if e.y <= mid_y {
                    b.push(e);
                } else {
                    d.push(e);
                }
            }
            proof {
                broadcast use vstd::multiset::group_multiset_axioms;

                assert(all =~= rest@.to_multiset().add(a@.to_multiset()).add(b@.to_multiset()).add(
                    c@.to_multiset(),
                ).add(d@.to_multiset()));
            }
        }
        let na = Node::new(
            Bounds { max_x: mid_x, max_y: mid_y, ..bbox },
            Bounds { max_x: mid_x, max_y: mid_y, ..region },
            a,
        );
        let nb = Node::new(
            Bounds { min_x: mid_x + 1, max_y: mid_y, ..bbox },
            Bounds { min_x: mid_x + 1, max_y: mid_y, ..region },
            b,
        );
        let nc = Node::new(
            Bounds { max_x: mid_x, min_y: mid_y + 1, ..bbox },
            Bounds { max_x: mid_x, min_y: mid_y + 1, ..region },
            c,
        );
        let nd = Node::new(
            Bounds { min_x: mid_x + 1, min_y: mid_y + 1, ..bbox },
            Bounds { min_x: mid_x + 1, min_y: mid_y + 1, ..region },
            d,
        );
        proof {
            broadcast use vstd::multiset::group_multiset_axioms;

            let (ea, eb, ec, ed) = (
                na.shape().entries(),
                nb.shape().entries(),
                nc.shape().entries(),
                nd.shape().entries(),
            );
            lemma_multiset_commutative(ea, eb);
            lemma_multiset_commutative(ea + eb, ec);
            lemma_multiset_commutative(ea + eb + ec, ed);
            rest@.to_multiset_ensures();
            assert(rest@.to_multiset() =~= Multiset::empty());
            assert((ea + eb + ec + ed).to_multiset() =~= all);
            (ea + eb + ec + ed).to_multiset_ensures();
            assert(all.len() > LEAF_CAPACITY);
        }
        Node::Branch(Box::new(na), Box::new(nb), Box::new(nc), Box::new(nd))
    }

    /// Adds to `out` the entries that lie in the box `q`.
    fn collect<'a>(&'a self, q: &Bounds, out: &mut Vec<&'a Entry<T>>)
        requires
            self.shape().boxed(),
        ensures
            entries_of(final(out)@) == entries_of(old(out)@) + hits(self.shape().entries(), *q),
        decreases self,
    {
        match self {
            Node::Branch(a, b, c, d) => {
                let ghost start = entries_of(out@);
                a.collect(q, out);
                b.collect(q, out);
                c.collect(q, out);
                d.collect(q, out);
                proof {
                    let (ea, eb, ec, ed) = (
                        a.shape().entries(),
                        b.shape().entries(),
                        c.shape().entries(),
                        d.shape().entries(),
                    );
                    lemma_hits_add(ea, eb, *q);
                    lemma_hits_add(ea + eb, ec, *q);
                    lemma_hits_add(ea + eb + ec, ed, *q);
                    assert(self.shape().entries() == ea + eb + ec + ed);
                    assert(entries_of(out@) == start + hits(self.shape().entries(), *q));
                }
            },
            Node::Leaf(items, region) => {
                let ghost leaf = Tree::Leaf { entries: items@, region: *region };
                assert(self.shape() == leaf);
                assert(leaf.boxed());
                assert(leaf matches Tree::Leaf { entries, region: r } && entries == items@ && r == *region);
                assert(forall|i: int|
                    0 <= i < items@.len() ==> region.holds((#[trigger] items@[i]).x, items@[i].y));
                if !region.intersects(q) {
                    proof {
                        assert forall|i: int| 0 <= i < items@.len() implies !q.holds(
                            (#[trigger] items@[i]).x,
                            items@[i].y,
                        ) by {
                            if q.holds(items@[i].x, items@[i].y) {
                                lemma_meets(*region, *q, items@[i].x, items@[i].y);
                            }
                        }
                        lemma_hits_none(items@, *q);
                        assert(entries_of(out@) + Seq::<Entry<T>>::empty() == entries_of(out@));
                    }
                    return ;
                }
                let ghost start = entries_of(out@);
                let mut i: usize = 0;
                assert(items@.take(0) == Seq::<Entry<T>>::empty());
                assert(start + Seq::<Entry<T>>::empty() == start);
                while i < items.len()
                    invariant
                        0 <= i <= items@.len(),
                        entries_of(out@) == start + hits(items@.take(i as int), *q),
                    decreases items@.len() - i,
                {
                    let ghost before = entries_of(out@);
                    proof {
                        assert(items@.take(i + 1).drop_last() == items@.take(i as int));
                        assert(items@.take(i + 1).last() == items@[i as int]);
                    }
                    if q.contains(items[i].x, items[i].y) {
                        out.push(&items[i]);
                        assert(entries_of(out@) == before.push(items@[i as int]));
                    }
                    i += 1;
                }
                assert(items@.take(i as int) == items@);
            },
        }
    }
}

/// The entries that the references point to.
pub open spec fn entries_of<T>(refs: Seq<&Entry<T>>) -> Seq<Entry<T>> {
    Seq::new(refs.len(), |i: int| *refs[i])
}

/// Entries with their places, arranged for the search within a box.
pub struct QuadTree<T> {
    root: Node<T>,
}

impl<T> View for QuadTree<T> {
    type V = Tree<T>;

    closed spec fn view(&self) -> Tree<T> {
        self.root.shape()
    }
}

impl<T> QuadTree<T> {
    #[verifier::type_invariant]
    spec fn boxed(&self) -> bool {
        self.root.shape().boxed()
    }

    /// The tree of `elements`. It holds each of them, wherever it lies.
    ///
    /// More than [`LEAF_CAPACITY`] elements are cut in four along the middle
    /// column and the middle row of `bbox`, and so on in each quarter with
    /// the quarter of `bbox`, until at most [`LEAF_CAPACITY`] are left or the
    /// quarter is down to one column or one row: see [`Tree::cut`]. An
    /// element on a middle goes to the left and up.
    ///
    /// The middles are those of the keys. Where the keys are those of
    /// doubles, that is not the centre of the box in the plane, since keys
    /// do not grow evenly with the doubles; what a search finds is the same.
    /// Each cut halves the box, so no more than 64 cuts lie above a leaf.
    pub fn new(bbox: Bounds, elements: Vec<Entry<T>>) -> (tree: Self)
        ensures
            tree@.entries().to_multiset() == elements@.to_multiset(),
            tree@.entries().len() == elements@.len(),
            tree@.cut(bbox, Bounds::all()),
            tree@.boxed(),
    {
        let ghost given = elements@;
        let tree = QuadTree { root: Node::new(bbox, Bounds::everything(), elements) };
        proof {
            given.to_multiset_ensures();
            tree@.entries().to_multiset_ensures();
        }
        tree
    }

    /// The entries that lie in the box `q`, in the order in which the tree
    /// holds them.
    pub fn in_range(&self, q: &Bounds) -> (r: Vec<&Entry<T>>)
        ensures
            entries_of(r@) == hits(self@.entries(), *q),
    {
        proof {
            use_type_invariant(self);
        }
        let mut out: Vec<&Entry<T>> = Vec::new();
        assert(entries_of(out@) == Seq::<Entry<T>>::empty());
        self.root.collect(q, &mut out);
        assert(Seq::<Entry<T>>::empty() + hits(self@.entries(), *q) == hits(self@.entries(), *q));
        out
    }
}

/// What [`QuadTree::in_range`] finds in a tree is what a look at each of the
/// elements that the tree was made of finds: the elements that lie in the
/// box, each as often as it was given.
pub proof fn lemma_in_range_is_scan<T>(tree: Seq<Entry<T>>, elements: Seq<Entry<T>>, q: Bounds)
    requires
        tree.to_multiset() == elements.to_multiset(),
    ensures
        hits(tree, q).to_multiset() == elements.to_multiset().filter(
            |e: Entry<T>| q.holds(e.x, e.y),
        ),
{
    lemma_hits_multiset(tree, q);
}

} // verus!
