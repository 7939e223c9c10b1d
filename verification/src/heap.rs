//! A meldable priority queue: a leftist tree of ownership cells, keyed by a
//! caller-supplied total order. Merge, insert and pop-min are O(log n) by the
//! leftist rank invariant, which bounds the right spine.
use crate::cap::Ref;
use crate::cap::faithful_clone;
use crate::cap::lemma_ref_eq;
use crate::cap::lemma_ref_smaller;
use vstd::multiset::Multiset;
use vstd::prelude::*;

verus! {

broadcast use lemma_ref_smaller, vstd::multiset::group_multiset_axioms;

/// The total order the heap is keyed by. An implementor states the order as
/// a spec relation, proves it total, transitive and antisymmetric, proves
/// that cloning keeps the value (the heap copies elements out of shared
/// cells, which must not disturb the order), and supplies the executable
/// comparison.
pub trait TotalOrder: Clone + Sized {
    /// Whether `self` sorts no later than `other`.
    spec fn le_spec(self, other: Self) -> bool;

    /// The order is total (and hence reflexive).
    proof fn lemma_total(a: Self, b: Self)
        ensures
            a.le_spec(b) || b.le_spec(a),
    ;

    proof fn lemma_transitive(a: Self, b: Self, c: Self)
        requires
            a.le_spec(b),
            b.le_spec(c),
        ensures
            a.le_spec(c),
    ;

    proof fn lemma_antisymmetric(a: Self, b: Self)
        requires
            a.le_spec(b),
            b.le_spec(a),
        ensures
            a == b,
    ;

    /// A clone of an element equals the element.
    proof fn lemma_clone_faithful()
        ensures
            faithful_clone::<Self>(),
    ;

    /// The executable comparison.
    fn le(&self, other: &Self) -> (r: bool)
        ensures
            r == self.le_spec(*other),
    ;
}

impl TotalOrder for i8 {
    open spec fn le_spec(self, other: i8) -> bool {
        self <= other
    }

    proof fn lemma_total(a: i8, b: i8) {
    }

    proof fn lemma_transitive(a: i8, b: i8, c: i8) {
    }

    proof fn lemma_antisymmetric(a: i8, b: i8) {
    }

    proof fn lemma_clone_faithful() {
    }

    fn le(&self, other: &i8) -> (r: bool) {
        *self <= *other
    }
}

impl TotalOrder for i32 {
    open spec fn le_spec(self, other: i32) -> bool {
        self <= other
    }

    proof fn lemma_total(a: i32, b: i32) {
    }

    proof fn lemma_transitive(a: i32, b: i32, c: i32) {
    }

    proof fn lemma_antisymmetric(a: i32, b: i32) {
    }

    proof fn lemma_clone_faithful() {
    }

    fn le(&self, other: &i32) -> (r: bool) {
        *self <= *other
    }
}

impl TotalOrder for u64 {
    open spec fn le_spec(self, other: u64) -> bool {
        self <= other
    }

    proof fn lemma_total(a: u64, b: u64) {
    }

    proof fn lemma_transitive(a: u64, b: u64, c: u64) {
    }

    proof fn lemma_antisymmetric(a: u64, b: u64) {
    }

    proof fn lemma_clone_faithful() {
    }

    fn le(&self, other: &u64) -> (r: bool) {
        *self <= *other
    }
}

/// One cell of the leftist tree: empty, or a node carrying its rank (the
/// length of its right spine), its element, and two subtrees.
pub enum HeapCell<T: TotalOrder> {
    Empty,
    Node { rank: i32, elt: T, left: Ref<HeapCell<T>>, right: Ref<HeapCell<T>> },
}

impl<T: TotalOrder> HeapCell<T> {
    /// The elements the tree holds, as a bag.
    pub open spec fn ms(self) -> Multiset<T>
        decreases self,
    {
        match self {
            HeapCell::Empty => Multiset::empty(),
            HeapCell::Node { rank, elt, left, right } => left@.ms().insert(elt).add(right@.ms()),
        }
    }

    /// The length of the right spine.
    pub open spec fn rank_of(self) -> nat
        decreases self,
    {
        match self {
            HeapCell::Empty => 0,
            HeapCell::Node { right, .. } => 1 + right@.rank_of(),
        }
    }

    /// The leftist invariants: the stored rank is the right spine length,
    /// the left spine rank dominates the right, and each node's element
    /// sorts no later than everything below it.
    pub open spec fn wf(self) -> bool
        decreases self,
    {
        match self {
            HeapCell::Empty => true,
            HeapCell::Node { rank, elt, left, right } => {
                &&& left@.wf()
                &&& right@.wf()
                &&& rank as int == 1 + right@.rank_of()
                &&& left@.rank_of() >= right@.rank_of()
                &&& forall|e: T| #[trigger] left@.ms().count(e) > 0 ==> elt.le_spec(e)
                &&& forall|e: T| #[trigger] right@.ms().count(e) > 0 ==> elt.le_spec(e)
            },
        }
    }
}

/// A leftist tree's right spine is never longer than its element count.
proof fn lemma_rank_le_size<T: TotalOrder>(c: HeapCell<T>)
    requires
        c.wf(),
    ensures
        c.rank_of() <= c.ms().len(),
    decreases c,
{
    match c {
        HeapCell::Empty => {},
        HeapCell::Node { rank, elt, left, right } => {
            lemma_rank_le_size(right@);
        },
    }
}

/// A cell clone is spec-equal to its source: elements keep their values by
/// the order's own obligation, and subtrees are shared.
proof fn lemma_heapcell_faithful<T: TotalOrder>()
    ensures
        faithful_clone::<HeapCell<T>>(),
{
    T::lemma_clone_faithful();
    assert forall|a: HeapCell<T>, b: HeapCell<T>| cloned::<HeapCell<T>>(a, b) implies b == a by {}
}

impl<T: TotalOrder> Clone for HeapCell<T> {
    /// Shares the subtrees and clones the root element, which keeps its
    /// value by the order's obligation.
    fn clone(&self) -> (r: Self)
        ensures
            faithful_clone::<T>() ==> r == *self,
    {
        match self {
            HeapCell::Empty => HeapCell::Empty,
            HeapCell::Node { rank, elt, left, right } => {
                let e = elt.clone();
                proof {
                    assert(cloned::<T>(*elt, e));
                }
                let c = HeapCell::Node { rank: *rank, elt: e, left: left.clone(), right: right.clone() };
                c
            },
        }
    }
}

impl<T: TotalOrder> HeapCell<T> {
    /// The empty tree.
    pub fn new() -> (r: HeapCell<T>)
        ensures
            r == HeapCell::<T>::Empty,
    {
        HeapCell::Empty
    }

    /// Whether the tree holds nothing.
    pub fn is_empty(&self) -> (r: bool)
        ensures
            r <==> (*self is Empty),
            r <==> self.ms().len() == 0,
    {
        match *self {
            HeapCell::Empty => true,
            _ => false,
        }
    }

    fn rank(&self) -> (r: i32)
        requires
            self.wf(),
        ensures
            r as int == self.rank_of(),
    {
        match *self {
            HeapCell::Empty => 0,
            HeapCell::Node { rank, .. } => rank,
        }
    }

    /// Builds a node over `x` and two trees every element of which sorts no
    /// earlier than `x`, putting the higher-ranked tree on the left.
    fn make_node(x: T, h1: Ref<HeapCell<T>>, h2: Ref<HeapCell<T>>) -> (r: HeapCell<T>)
        requires
            h1@.wf(),
            h2@.wf(),
            h1@.ms().len() + h2@.ms().len() <= i32::MAX,
            forall|e: T| #[trigger] h1@.ms().count(e) > 0 ==> x.le_spec(e),
            forall|e: T| #[trigger] h2@.ms().count(e) > 0 ==> x.le_spec(e),
        ensures
            r.wf(),
            r.ms() == h1@.ms().add(h2@.ms()).insert(x),
    {
        proof {
            lemma_rank_le_size(h1@);
            lemma_rank_le_size(h2@);
        }
        let r1 = h1.borrow().rank();
        let r2 = h2.borrow().rank();
        let r = if r1 >= r2 {
            HeapCell::Node { rank: r2 + 1, elt: x, left: h1, right: h2 }
        } else {
            HeapCell::Node { rank: r1 + 1, elt: x, left: h2, right: h1 }
        };
        proof {
            assert(r.ms() =~= h1@.ms().add(h2@.ms()).insert(x));
        }
        r
    }

    /// Whether `x` sorts no later than every element of the tree.
    fn all_ge(&self, x: &T) -> (r: bool)
        ensures
            r == (forall|e: T| #[trigger] self.ms().count(e) > 0 ==> x.le_spec(e)),
        decreases *self,
    {
        match self {
            HeapCell::Empty => true,
            HeapCell::Node { rank, elt, left, right } => {
                let c1 = x.le(elt);
                let c2 = left.borrow().all_ge(x);
                let c3 = right.borrow().all_ge(x);
                let r = c1 && c2 && c3;
                proof {
                    if r {
                        assert forall|e: T| #[trigger] self.ms().count(e) > 0 implies x.le_spec(
                            e,
                        ) by {
                            if left@.ms().count(e) > 0 {
                            } else if right@.ms().count(e) > 0 {
                            } else {
                                assert(e == *elt);
                            }
                        }
                    } else if !c1 {
                        assert(self.ms().count(*elt) > 0);
                    } else if !c2 {
                        let e = choose|e: T| left@.ms().count(e) > 0 && !x.le_spec(e);
                        assert(self.ms().count(e) > 0);
                    } else {
                        let e = choose|e: T| right@.ms().count(e) > 0 && !x.le_spec(e);
                        assert(self.ms().count(e) > 0);
                    }
                }
                r
            },
        }
    }

    /// Walks the whole tree and reports whether the leftist and heap-order
    /// invariants hold of every node; the verified operations keep them, so
    /// this can only answer no on a tree assembled by hand.
    pub fn check_wf(&self) -> (r: bool)
        ensures
            r == self.wf(),
        decreases *self,
    {
        match self {
            HeapCell::Empty => true,
            HeapCell::Node { rank, elt, left, right } => {
                if !left.borrow().check_wf() {
                    return false;
                }
                if !right.borrow().check_wf() {
                    return false;
                }
                let rr = right.borrow().rank();
                if !(*rank >= 1 && rr <= i32::MAX - 1 && *rank - 1 == rr) {
                    return false;
                }
                let rl = left.borrow().rank();
                if rl < rr {
                    return false;
                }
                let r = left.borrow().all_ge(elt) && right.borrow().all_ge(elt);
                r
            },
        }
    }

    /// Melds two trees. The roots are compared and the lesser becomes the
    /// new root, a tie keeping the left operand's root, so the result is
    /// deterministic; its right subtree is the recursive meld.
    pub fn merge(self, other: Self) -> (r: Self)
        requires
            self.wf(),
            other.wf(),
            self.ms().len() + other.ms().len() <= i32::MAX,
        ensures
            r.wf(),
            r.ms() == self.ms().add(other.ms()),
        decreases self.rank_of() + other.rank_of(),
    {
        proof {
            lemma_heapcell_faithful::<T>();
        }
        let ghost sm = self.ms();
        let ghost om = other.ms();
        match (self, other) {
            (HeapCell::Empty, h) => {
                proof {
                    assert(h.ms() =~= sm.add(om));
                }
                h
            },
            (h, HeapCell::Empty) => {
                proof {
                    assert(h.ms() =~= sm.add(om));
                }
                h
            },
            (
                HeapCell::Node { rank: n1, elt: x, left: a1, right: b1 },
                HeapCell::Node { rank: n2, elt: y, left: a2, right: b2 },
            ) => {
                if x.le(&y) {
                    let h2 = HeapCell::Node { rank: n2, elt: y, left: a2, right: b2 };
                    let b1v = b1.consume();
                    let merged = b1v.merge(h2);
                    proof {
                        assert forall|e: T| #[trigger] merged.ms().count(e) > 0 implies x.le_spec(
                            e,
                        ) by {
                            if b1@.ms().count(e) > 0 {
                            } else if a2@.ms().count(e) > 0 {
                                T::lemma_transitive(x, y, e);
                            } else if b2@.ms().count(e) > 0 {
                                T::lemma_transitive(x, y, e);
                            } else {
                                assert(e == y);
                            }
                        }
                    }
                    let r = Self::make_node(x, a1, Ref::new(merged));
                    proof {
                        assert(r.ms() =~= sm.add(om));
                    }
                    r
                } else {
                    proof {
                        T::lemma_total(x, y);
                    }
                    let h1 = HeapCell::Node { rank: n1, elt: x, left: a1, right: b1 };
                    let b2v = b2.consume();
                    let merged = b2v.merge(h1);
                    proof {
                        assert forall|e: T| #[trigger] merged.ms().count(e) > 0 implies y.le_spec(
                            e,
                        ) by {
                            if b2@.ms().count(e) > 0 {
                            } else if a1@.ms().count(e) > 0 {
                                T::lemma_transitive(y, x, e);
                            } else if b1@.ms().count(e) > 0 {
                                T::lemma_transitive(y, x, e);
                            } else {
                                assert(e == x);
                            }
                        }
                    }
                    let r = Self::make_node(y, a2, Ref::new(merged));
                    proof {
                        assert(r.ms() =~= sm.add(om));
                    }
                    r
                }
            },
        }
    }

    /// Melds a single-element tree into this one.
    pub fn insert(self, x: T) -> (r: Self)
        requires
            self.wf(),
            self.ms().len() < i32::MAX,
        ensures
            r.wf(),
            r.ms() == self.ms().insert(x),
    {
        let le = Ref::new(HeapCell::new());
        let re = Ref::new(HeapCell::new());
        let single = HeapCell::Node { rank: 1, elt: x, left: le, right: re };
        let ghost sm = self.ms();
        proof {
            assert(le@ == HeapCell::<T>::Empty);
            assert(re@ == HeapCell::<T>::Empty);
            assert(le@.ms() == Multiset::<T>::empty());
            assert(re@.ms() == Multiset::<T>::empty());
            assert(le@.rank_of() == 0);
            assert(re@.rank_of() == 0);
            assert(le@.wf());
            assert(re@.wf());
            assert(single.ms() =~= Multiset::<T>::empty().insert(x));
            assert(forall|e: T| #[trigger] le@.ms().count(e) > 0 ==> x.le_spec(e));
            assert(forall|e: T| #[trigger] re@.ms().count(e) > 0 ==> x.le_spec(e));
            assert(single.wf());
        }
        let r = self.merge(single);
        proof {
            assert(r.ms() =~= sm.insert(x));
        }
        r
    }

    /// Takes the root out: the least element, together with the meld of the
    /// two subtrees. The empty tree yields the absent value.
    pub fn pop_min(self) -> (r: Option<(T, Self)>)
        requires
            self.wf(),
            self.ms().len() <= i32::MAX,
        ensures
            r is None <==> (self is Empty),
            (r matches Some((x, rest)) ==> self.ms().count(x) > 0 && rest.wf() && rest.ms()
                == self.ms().remove(x) && (forall|e: T|
                #[trigger] self.ms().count(e) > 0 ==> x.le_spec(e))),
    {
        proof {
            lemma_heapcell_faithful::<T>();
        }
        let ghost sm = self.ms();
        match self {
            HeapCell::Empty => None,
            HeapCell::Node { rank, elt, left, right } => {
                let lv = left.consume();
                let rv = right.consume();
                let rest = lv.merge(rv);
                proof {
                    assert(rest.ms() =~= sm.remove(elt));
                    assert forall|e: T| #[trigger] sm.count(e) > 0 implies elt.le_spec(e) by {
                        if e == elt {
                            T::lemma_total(elt, elt);
                        }
                    }
                }
                Some((elt, rest))
            },
        }
    }
}

/// The priority queue: one cell holding a well-formed leftist tree.
pub struct Heap<T: TotalOrder> {
    cell: Ref<HeapCell<T>>,
}

impl<T: TotalOrder> View for Heap<T> {
    type V = Multiset<T>;

    closed spec fn view(&self) -> Multiset<T> {
        self.cell@.ms()
    }
}

impl<T: TotalOrder> Heap<T> {
    #[verifier::type_invariant]
    spec fn inv(self) -> bool {
        &&& self.cell@.wf()
        &&& self.cell@.ms().len() <= i32::MAX
    }

    /// The empty heap.
    pub fn new() -> (r: Heap<T>)
        ensures
            r@ == Multiset::<T>::empty(),
    {
        Heap { cell: Ref::new(HeapCell::new()) }
    }

    /// Whether the heap holds nothing.
    pub fn is_empty(&self) -> (r: bool)
        ensures
            r <==> self@.len() == 0,
    {
        proof {
            use_type_invariant(&*self);
        }
        self.cell.borrow().is_empty()
    }

    /// Puts `x` into the heap; O(log n).
    pub fn insert(&mut self, x: T)
        requires
            old(self)@.len() < i32::MAX,
        ensures
            final(self)@ == old(self)@.insert(x),
    {
        proof {
            use_type_invariant(&*self);
            lemma_heapcell_faithful::<T>();
        }
        let mut c = Ref::new(HeapCell::new());
        core::mem::swap(&mut self.cell, &mut c);
        let cell = c.consume();
        let grown = cell.insert(x);
        self.cell = Ref::new(grown);
    }

    /// Takes a least element out, or reports the absent value on an empty
    /// heap, which it leaves unchanged; O(log n).
    pub fn pop_min(&mut self) -> (r: Option<T>)
        ensures
            r is Some <==> old(self)@.len() > 0,
            old(self)@.len() == 0 ==> *final(self) == *old(self),
            (r matches Some(x) ==> old(self)@.count(x) > 0 && final(self)@ == old(self)@.remove(x)
                && (forall|e: T| #[trigger] old(self)@.count(e) > 0 ==> x.le_spec(e))),
    {
        proof {
            use_type_invariant(&*self);
            lemma_heapcell_faithful::<T>();
        }
        if self.cell.borrow().is_empty() {
            return None;
        }
        let mut c = Ref::new(HeapCell::new());
        core::mem::swap(&mut self.cell, &mut c);
        let cell = c.consume();
        match cell.pop_min() {
            Some((x, rest)) => {
                self.cell = Ref::new(rest);
                Some(x)
            },
            None => vstd::pervasive::unreached(),
        }
    }

    /// A walk over this heap itself, least element first; the heap is spent
    /// by it.
    pub fn to_iter(self) -> (r: Iter<T>)
        ensures
            r@ == self@,
    {
        Iter { heap: self }
    }

    /// A walk over a snapshot of the heap, least element first.
    pub fn iter(&self) -> (r: Iter<T>)
        ensures
            r@ == self@,
    {
        self.clone().to_iter()
    }
}

impl<T: TotalOrder> Clone for Heap<T> {
    /// An O(1) snapshot: the copy shares the tree with the original.
    fn clone(&self) -> (r: Self)
        ensures
            r == *self,
    {
        proof {
            use_type_invariant(&*self);
        }
        let c = self.cell.clone();
        proof {
            lemma_ref_eq(c, self.cell);
        }
        Heap { cell: c }
    }
}

/// A lazy walk that pops the least remaining element on each step.
pub struct Iter<T: TotalOrder> {
    heap: Heap<T>,
}

impl<T: TotalOrder> View for Iter<T> {
    type V = Multiset<T>;

    closed spec fn view(&self) -> Multiset<T> {
        self.heap@
    }
}

impl<T: TotalOrder> Iter<T> {
    /// Yields a least element of what remains, or the absent value once
    /// spent.
    pub fn next(&mut self) -> (r: Option<T>)
        ensures
            r is Some <==> old(self)@.len() > 0,
            old(self)@.len() == 0 ==> *final(self) == *old(self),
            (r matches Some(x) ==> old(self)@.count(x) > 0 && final(self)@ == old(self)@.remove(x)
                && (forall|e: T| #[trigger] old(self)@.count(e) > 0 ==> x.le_spec(e))),
    {
        self.heap.pop_min()
    }
}

/// Two least elements taken in turn come out in order: what `pop_min` hands
/// back never sorts later than anything still in the heap, so a full drain
/// is ascending.
pub proof fn lemma_pop_min_ascending<T: TotalOrder>(m: Multiset<T>, a: T, b: T)
    requires
        m.count(a) > 0,
        forall|e: T| #[trigger] m.count(e) > 0 ==> a.le_spec(e),
        m.remove(a).count(b) > 0,
    ensures
        a.le_spec(b),
{
    broadcast use vstd::multiset::group_multiset_axioms;

    assert(m.count(b) > 0);
}

} // verus!
