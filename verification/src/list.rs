//! A singly-linked list of ownership cells: prepend and pop-front are O(1),
//! append and pop-back walk the chain, and teardown is iterative so a long
//! chain cannot exhaust the call stack.
use crate::cap::Ref;
use crate::cap::faithful_clone;
use crate::cap::lemma_ref_smaller;
use vstd::prelude::*;

verus! {

broadcast use lemma_ref_smaller;

/// One link of the chain. The value sits in an `Option` so that a pop can
/// take it out exactly once: a node cannot be destructured, because it
/// carries its own teardown.
pub struct Node<T> {
    next: Option<Ref<Node<T>>>,
    elt: Option<T>,
}

/// Elementwise: every entry of `dst` is a clone of the matching entry of
/// `src` (and hence equal to it whenever `T`'s clone is faithful).
pub open spec fn seq_cloned<T: Clone>(src: Seq<T>, dst: Seq<T>) -> bool {
    &&& dst.len() == src.len()
    &&& forall|i: int| 0 <= i < src.len() ==> cloned::<T>(src[i], #[trigger] dst[i])
}

/// The number of nodes reachable from `n`, this one included.
pub closed spec fn node_count<T>(n: Node<T>) -> nat
    decreases n,
{
    match n.next {
        Some(r) => 1 + node_count(r@),
        None => 1,
    }
}

/// The elements held by the chain starting at `n`, front first. A node whose
/// value was already taken out contributes nothing.
pub closed spec fn node_seq<T>(n: Node<T>) -> Seq<T>
    decreases n,
{
    let here = match n.elt {
        Some(x) => seq![x],
        None => Seq::<T>::empty(),
    };
    match n.next {
        Some(r) => here + node_seq(r@),
        None => here,
    }
}

/// Every node reachable from `n` still holds its value.
pub closed spec fn node_full<T>(n: Node<T>) -> bool
    decreases n,
{
    &&& n.elt is Some
    &&& match n.next {
        Some(r) => node_full(r@),
        None => true,
    }
}

/// The successor cell of `n`.
pub closed spec fn node_next<T>(n: Node<T>) -> Option<Ref<Node<T>>> {
    n.next
}

/// The value held by `n`, if it was not taken out yet.
pub closed spec fn node_elt<T>(n: Node<T>) -> Option<T> {
    n.elt
}

pub(crate) closed spec fn opt_seq<T>(o: Option<Ref<Node<T>>>) -> Seq<T> {
    match o {
        Some(r) => node_seq(r@),
        None => Seq::<T>::empty(),
    }
}

pub(crate) closed spec fn opt_count<T>(o: Option<Ref<Node<T>>>) -> nat {
    match o {
        Some(r) => node_count(r@),
        None => 0,
    }
}

pub(crate) closed spec fn opt_full<T>(o: Option<Ref<Node<T>>>) -> bool {
    match o {
        Some(r) => node_full(r@),
        None => true,
    }
}

proof fn lemma_full_seq_len<T>(n: Node<T>)
    requires
        node_full(n),
    ensures
        node_seq(n).len() >= 1,
    decreases n,
{
    match n.next {
        Some(r) => lemma_full_seq_len(r@),
        None => {},
    }
}

/// What consuming a shared cell can hand back: the clone keeps the chain and
/// the element count, and keeps the elements themselves whenever `T`'s clone
/// is faithful.
proof fn lemma_cloned_node<T: Clone>(a: Node<T>, b: Node<T>)
    requires
        cloned::<Node<T>>(a, b),
    ensures
        node_next(b) == node_next(a),
        node_count(b) == node_count(a),
        node_full(a) ==> node_full(b),
        node_full(a) ==> node_seq(b).len() == node_seq(a).len(),
        node_full(a) ==> node_seq(b).drop_first() == node_seq(a).drop_first(),
        node_full(a) ==> cloned::<T>(node_seq(a)[0], node_seq(b)[0]),
        node_full(a) ==> seq_cloned(node_seq(a), node_seq(b)),
        faithful_clone::<T>() ==> b == a,
{
    if b != a {
        // `b` came out of `Node::clone`, whose contract relates the fields.
        assert(node_next(b) == node_next(a));
    }
    assert(node_count(b) == node_count(a));
    if node_full(a) {
        assert(node_full(b));
        let x = node_elt(a)->Some_0;
        let y = node_elt(b)->Some_0;
        assert(node_seq(a) == seq![x] + opt_seq(a.next));
        assert(node_seq(b) == seq![y] + opt_seq(a.next));
        assert(node_seq(b).drop_first() =~= node_seq(a).drop_first());
        assert forall|i: int| 0 <= i < node_seq(a).len() implies cloned::<T>(
            node_seq(a)[i],
            #[trigger] node_seq(b)[i],
        ) by {
            if i > 0 {
                assert(node_seq(b)[i] == node_seq(a)[i]);
            }
        }
    }
}

impl<T: Clone> Clone for Node<T> {
    /// Shares the tail and clones the held value; exact when `T`'s clone is.
    fn clone(&self) -> (r: Self)
        ensures
            node_next(r) == node_next(*self),
            node_elt(r) is Some <==> node_elt(*self) is Some,
            (node_elt(*self) matches Some(x) ==> node_elt(r) matches Some(y) && cloned::<T>(
                x,
                y,
            )),
            faithful_clone::<T>() ==> r == *self,
    {
        let r = Node { next: self.next.clone(), elt: self.elt.clone() };
        r
    }
}

impl<T> Drop for Node<T> {
    /// Tears the chain down iteratively: repeatedly unwraps the next cell as
    /// long as this handle is its last owner, stopping at a cell that is
    /// still shared. A recursive teardown would use one stack frame per node
    /// and exhaust the stack on long chains.
    fn drop(&mut self)
        opens_invariants none
        no_unwind
    {
        let mut opt: Option<Ref<Node<T>>> = None;
        core::mem::swap(&mut self.next, &mut opt);
        loop
            decreases opt_count(opt),
        {
            match opt {
                None => {
                    break ;
                },
                Some(r) => {
                    match r.try_consume() {
                        Some(mut node) => {
                            let mut rest: Option<Ref<Node<T>>> = None;
                            core::mem::swap(&mut node.next, &mut rest);
                            opt = rest;
                        },
                        None => {
                            break ;
                        },
                    }
                },
            }
        }
    }
}

/// Appends `x` after the last node of the chain `n`. Walked cells are
/// reclaimed and rebuilt; a cell that was shared is copied out, so each
/// element past the head crosses at most one clone. The head itself and `x`
/// are moved, never cloned.
fn node_append<T: Clone>(n: Node<T>, x: T) -> (r: Node<T>)
    requires
        node_full(n),
    ensures
        node_full(r),
        node_seq(r).len() == node_seq(n).len() + 1,
        node_seq(r)[0] == node_seq(n)[0],
        node_seq(r).last() == x,
        seq_cloned(node_seq(n).push(x), node_seq(r)),
        faithful_clone::<T>() ==> node_seq(r) == node_seq(n).push(x),
    decreases node_count(n),
{
    let mut n = n;
    let ghost orig = n;
    let mut next: Option<Ref<Node<T>>> = None;
    core::mem::swap(&mut n.next, &mut next);
    match next {
        None => {
            let last = Node { elt: Some(x), next: None };
            let lref = Ref::new(last);
            proof {
                assert(node_seq(lref@) =~= seq![x]);
                assert(node_full(lref@));
            }
            n.next = Some(lref);
            proof {
                assert(n.elt == orig.elt);
                assert(node_seq(orig) =~= seq![node_elt(orig)->Some_0]);
                assert(node_seq(n) =~= seq![node_elt(orig)->Some_0] + node_seq(lref@));
                assert(node_seq(n) =~= node_seq(orig).push(x));
                assert(seq_cloned(node_seq(orig).push(x), node_seq(n)));
            }
            n
        },
        Some(r) => {
            proof {
                lemma_full_seq_len(r@);
            }
            let tail = r.consume();
            proof {
                lemma_cloned_node(r@, tail);
            }
            let new_tail = node_append(tail, x);
            n.next = Some(Ref::new(new_tail));
            proof {
                let e0 = node_elt(orig)->Some_0;
                assert(node_seq(n) =~= seq![e0] + node_seq(new_tail));
                assert(node_seq(orig) =~= seq![e0] + node_seq(r@));
                assert forall|i: int| 0 <= i < node_seq(orig).push(x).len() implies cloned::<T>(
                    node_seq(orig).push(x)[i],
                    #[trigger] node_seq(n)[i],
                ) by {
                    if i == 0 {
                        assert(node_seq(n)[0] == e0);
                    } else if i == 1 {
                        // the walked head: one clone out of the shared cell
                        assert(node_seq(n)[1] == node_seq(new_tail)[0]);
                        assert(node_seq(new_tail)[0] == node_seq(tail)[0]);
                        assert(cloned::<T>(node_seq(r@)[0], node_seq(tail)[0]));
                    } else {
                        // deeper entries: the cells were shared unchanged, so
                        // the recursive call saw the original values
                        assert(node_seq(n)[i] == node_seq(new_tail)[i - 1]);
                        assert(cloned::<T>(
                            node_seq(tail).push(x)[i - 1],
                            node_seq(new_tail)[i - 1],
                        ));
                        if i - 1 < node_seq(tail).len() {
                            assert(node_seq(tail)[i - 1] == node_seq(tail).drop_first()[i - 2]);
                            assert(node_seq(tail)[i - 1] == node_seq(r@)[i - 1]);
                        }
                    }
                }
                if faithful_clone::<T>() {
                    assert(node_seq(n) =~= node_seq(orig).push(x));
                }
            }
            n
        },
    }
}

/// Takes the last element out of the chain `n` and hands back the remaining
/// chain, or nothing when `n` was its only node. As in `node_append`, each
/// element crosses at most one clone, and only where a cell was shared.
fn node_pop_back<T: Clone>(n: Node<T>) -> (res: (Option<Node<T>>, T))
    requires
        node_full(n),
    ensures
        cloned::<T>(node_seq(n).last(), res.1),
        node_seq(n).len() == 1 ==> res.1 == node_seq(n).last(),
        res.0 is None <==> node_seq(n).len() == 1,
        (res.0 matches Some(m) ==> node_full(m) && node_seq(m).len() == node_seq(n).len() - 1
            && node_seq(m)[0] == node_seq(n)[0] && seq_cloned(
            node_seq(n).drop_last(),
            node_seq(m),
        )),
        faithful_clone::<T>() ==> res.1 == node_seq(n).last() && (res.0 matches Some(m)
            ==> node_seq(m) == node_seq(n).drop_last()),
    decreases node_count(n),
{
    let mut n = n;
    let ghost orig = n;
    let mut next: Option<Ref<Node<T>>> = None;
    core::mem::swap(&mut n.next, &mut next);
    match next {
        None => {
            let mut elt: Option<T> = None;
            core::mem::swap(&mut n.elt, &mut elt);
            (None, elt.unwrap())
        },
        Some(r) => {
            proof {
                lemma_full_seq_len(r@);
            }
            let tail = r.consume();
            proof {
                lemma_cloned_node(r@, tail);
            }
            let (rest, x) = node_pop_back(tail);
            proof {
                let e0 = node_elt(orig)->Some_0;
                assert(node_seq(orig) =~= seq![e0] + node_seq(r@));
                assert(node_seq(orig).last() == node_seq(r@).last());
                if node_seq(r@).len() >= 2 {
                    // past the head the cells are shared, so the last values agree
                    assert(node_seq(tail).last() == node_seq(tail).drop_first()[node_seq(
                        tail,
                    ).len() - 2]);
                    assert(node_seq(r@).last() == node_seq(r@).drop_first()[node_seq(r@).len()
                        - 2]);
                    assert(node_seq(r@).last() == node_seq(tail).last());
                } else {
                    // a single node below: its value is moved out exactly,
                    // and was cloned once when the cell was consumed
                    assert(node_seq(tail).last() == node_seq(tail)[0]);
                    assert(cloned::<T>(node_seq(r@).last(), node_seq(tail)[0]));
                }
                assert(node_seq(orig).drop_last() =~= seq![e0] + node_seq(r@).drop_last());
            }
            match rest {
                None => {
                    proof {
                        assert(node_seq(n) =~= seq![node_elt(orig)->Some_0]);
                        assert(seq_cloned(node_seq(orig).drop_last(), node_seq(n)));
                    }
                    (Some(n), x)
                },
                Some(m) => {
                    let mref = Ref::new(m);
                    n.next = Some(mref);
                    proof {
                        let e0 = node_elt(orig)->Some_0;
                        let kept = node_seq(n);
                        let want = node_seq(orig).drop_last();
                        assert(kept =~= seq![e0] + node_seq(m));
                        assert(kept.len() == want.len());
                        assert forall|i: int| 0 <= i < want.len() implies cloned::<T>(
                            want[i],
                            #[trigger] kept[i],
                        ) by {
                            if i == 0 {
                                assert(kept[0] == e0);
                            } else if i == 1 {
                                assert(kept[1] == node_seq(m)[0]);
                                assert(node_seq(m)[0] == node_seq(tail)[0]);
                                assert(cloned::<T>(node_seq(r@)[0], node_seq(tail)[0]));
                                assert(want[1] == node_seq(r@).drop_last()[0]);
                            } else {
                                assert(kept[i] == node_seq(m)[i - 1]);
                                assert(cloned::<T>(
                                    node_seq(tail).drop_last()[i - 1],
                                    node_seq(m)[i - 1],
                                ));
                                assert(node_seq(tail)[i - 1] == node_seq(tail).drop_first()[i
                                    - 2]);
                                assert(node_seq(tail)[i - 1] == node_seq(r@)[i - 1]);
                                assert(want[i] == node_seq(r@).drop_last()[i - 1]);
                            }
                        }
                        if faithful_clone::<T>() {
                            assert(kept =~= want);
                        }
                    }
                    (Some(n), x)
                },
            }
        },
    }
}

/// The list: a length counter and the head of the chain. The counter always
/// equals the number of reachable nodes, and every reachable node holds a
/// value.
pub struct List<T> {
    len: i32,
    first: Option<Ref<Node<T>>>,
}

impl<T> View for List<T> {
    type V = Seq<T>;

    closed spec fn view(&self) -> Seq<T> {
        opt_seq(self.first)
    }
}

impl<T> List<T> {
    #[verifier::type_invariant]
    spec fn wf(self) -> bool {
        &&& opt_full(self.first)
        &&& self.len as int == opt_seq(self.first).len()
    }

    /// The empty list.
    pub fn new() -> (r: List<T>)
        ensures
            r@ == Seq::<T>::empty(),
    {
        List { len: 0, first: None }
    }

    /// How many elements the list holds.
    pub fn len(&self) -> (r: i32)
        ensures
            r as int == self@.len() as int,
    {
        proof {
            use_type_invariant(&*self);
        }
        self.len
    }
}

impl<T: Clone> List<T> {
    /// Takes the front element out; O(1). Returns the absent value on an
    /// empty list, which it leaves unchanged.
    pub fn pop_front(&mut self) -> (r: Option<T>)
        ensures
            r is Some <==> old(self)@.len() > 0,
            old(self)@.len() == 0 ==> *final(self) == *old(self),
            old(self)@.len() > 0 ==> final(self)@ == old(self)@.drop_first() && (r matches Some(x)
                && cloned::<T>(old(self)@[0], x)),
            faithful_clone::<T>() && old(self)@.len() > 0 ==> r == Some(old(self)@[0]),
    {
        proof {
            use_type_invariant(&*self);
        }
        let mut tmp = List { len: 0, first: None };
        core::mem::swap(self, &mut tmp);
        let List { len, first } = tmp;
        match first {
            None => {
                *self = List { len, first: None };
                None
            },
            Some(r) => {
                proof {
                    lemma_full_seq_len(r@);
                }
                let mut n = r.consume();
                proof {
                    lemma_cloned_node(r@, n);
                }
                let mut rest: Option<Ref<Node<T>>> = None;
                core::mem::swap(&mut n.next, &mut rest);
                let mut elt: Option<T> = None;
                core::mem::swap(&mut n.elt, &mut elt);
                *self = List { len: len - 1, first: rest };
                elt
            },
        }
    }

    /// Takes the last element out; walks the whole chain. Returns the absent
    /// value on an empty list, which it leaves unchanged.
    pub fn pop_back(&mut self) -> (r: Option<T>)
        ensures
            r is Some <==> old(self)@.len() > 0,
            old(self)@.len() == 0 ==> *final(self) == *old(self),
            old(self)@.len() > 0 ==> final(self)@.len() == old(self)@.len() - 1 && (r matches Some(
                x,
            ) && cloned::<T>(old(self)@.last(), x)) && seq_cloned(
                old(self)@.drop_last(),
                final(self)@,
            ),
            faithful_clone::<T>() && old(self)@.len() > 0 ==> r == Some(old(self)@.last())
                && final(self)@ == old(self)@.drop_last(),
    {
        proof {
            use_type_invariant(&*self);
        }
        let mut tmp = List { len: 0, first: None };
        core::mem::swap(self, &mut tmp);
        let List { len, first } = tmp;
        match first {
            None => {
                *self = List { len, first: None };
                None
            },
            Some(r) => {
                proof {
                    lemma_full_seq_len(r@);
                }
                let n = r.consume();
                proof {
                    lemma_cloned_node(r@, n);
                }
                let (rest, x) = node_pop_back(n);
                proof {
                    let orig = node_seq(r@);
                    if orig.len() >= 2 {
                        assert(node_seq(n).last() == node_seq(n).drop_first()[node_seq(n).len()
                            - 2]);
                        assert(orig.last() == orig.drop_first()[orig.len() - 2]);
                        assert(node_seq(n).last() == orig.last());
                    } else {
                        assert(node_seq(n).last() == node_seq(n)[0]);
                        assert(x == node_seq(n)[0]);
                        assert(cloned::<T>(orig.last(), x));
                    }
                }
                match rest {
                    None => {
                        *self = List { len: len - 1, first: None };
                        Some(x)
                    },
                    Some(m) => {
                        proof {
                            let orig = node_seq(r@);
                            let got = node_seq(m);
                            let want = orig.drop_last();
                            assert(got.len() == want.len());
                            assert forall|i: int| 0 <= i < want.len() implies cloned::<T>(
                                want[i],
                                #[trigger] got[i],
                            ) by {
                                if i == 0 {
                                    assert(got[0] == node_seq(n)[0]);
                                    assert(cloned::<T>(orig[0], node_seq(n)[0]));
                                } else {
                                    assert(cloned::<T>(node_seq(n).drop_last()[i], got[i]));
                                    assert(node_seq(n)[i] == node_seq(n).drop_first()[i - 1]);
                                    assert(node_seq(n)[i] == orig[i]);
                                }
                            }
                            if faithful_clone::<T>() {
                                assert(got =~= want);
                            }
                        }
                        *self = List { len: len - 1, first: Some(Ref::new(m)) };
                        Some(x)
                    },
                }
            },
        }
    }

    /// Puts `x` behind the last element; walks the whole chain. Elements the
    /// walk copies out of shared cells stay equal whenever `T`'s clone is
    /// faithful; `x` itself is never copied.
    pub fn append(&mut self, x: T)
        requires
            old(self)@.len() < i32::MAX,
        ensures
            final(self)@.len() == old(self)@.len() + 1,
            final(self)@.last() == x,
            seq_cloned(old(self)@.push(x), final(self)@),
            faithful_clone::<T>() ==> final(self)@ == old(self)@.push(x),
    {
        proof {
            use_type_invariant(&*self);
        }
        let mut tmp = List { len: 0, first: None };
        core::mem::swap(self, &mut tmp);
        let List { len, first } = tmp;
        match first {
            None => {
                let node = Node { elt: Some(x), next: None };
                *self = List { len: 1, first: Some(Ref::new(node)) };
                proof {
                    assert(final(self)@ =~= old(self)@.push(x));
                }
            },
            Some(r) => {
                proof {
                    lemma_full_seq_len(r@);
                }
                let n = r.consume();
                proof {
                    lemma_cloned_node(r@, n);
                }
                let appended = node_append(n, x);
                *self = List { len: len + 1, first: Some(Ref::new(appended)) };
                proof {
                    let orig = node_seq(r@);
                    let got = node_seq(appended);
                    assert(node_seq(n).push(x).len() == got.len());
                    assert forall|i: int| 0 <= i < orig.push(x).len() implies cloned::<T>(
                        orig.push(x)[i],
                        #[trigger] got[i],
                    ) by {
                        if i == 0 {
                            assert(got[0] == node_seq(n)[0]);
                            assert(cloned::<T>(orig[0], node_seq(n)[0]));
                        } else if i < orig.len() {
                            assert(node_seq(n)[i] == node_seq(n).drop_first()[i - 1]);
                            assert(node_seq(n)[i] == orig[i]);
                            assert(cloned::<T>(node_seq(n).push(x)[i], got[i]));
                        } else {
                            assert(got[i] == x);
                        }
                    }
                    if faithful_clone::<T>() {
                        assert(got =~= orig.push(x));
                    }
                }
            },
        }
    }

    /// Puts `x` at the front; O(1).
    pub fn prepend(&mut self, x: T)
        requires
            old(self)@.len() < i32::MAX,
        ensures
            final(self)@ == seq![x] + old(self)@,
    {
        proof {
            use_type_invariant(&*self);
        }
        let mut tmp = List { len: 0, first: None };
        core::mem::swap(self, &mut tmp);
        let List { len, first } = tmp;
        let node = Node { elt: Some(x), next: first };
        *self = List { len: len + 1, first: Some(Ref::new(node)) };
    }

    /// A lazy forward walk over a snapshot of the list; the list itself stays
    /// usable, since the iterator shares its cells.
    pub fn iter(&self) -> (r: Iter<T>)
        ensures
            r@ == self@,
    {
        proof {
            use_type_invariant(&*self);
        }
        Iter { cur: self.first.clone() }
    }

    /// The consuming variant of `iter`.
    pub fn to_iter(self) -> (r: Iter<T>)
        ensures
            r@ == self@,
    {
        proof {
            use_type_invariant(&self);
        }
        let List { len: _, first } = self;
        Iter { cur: first }
    }
}

impl<T: Clone> Clone for List<T> {
    /// An O(1) snapshot: the copy shares every cell with the original, and
    /// later mutation of either is invisible through the other.
    fn clone(&self) -> (r: Self)
        ensures
            r == *self,
    {
        proof {
            use_type_invariant(&*self);
        }
        List { len: self.len, first: self.first.clone() }
    }
}

/// A list clone equals its source as a value, whatever `T::clone` does,
/// because the copy shares the cells instead of copying elements.
pub proof fn lemma_list_clone_faithful<T: Clone>()
    ensures
        faithful_clone::<List<T>>(),
{
    assert forall|a: List<T>, b: List<T>| cloned::<List<T>>(a, b) implies b == a by {}
}

/// A lazy, finite, non-restartable forward walk: each `next` call pops one
/// element off the walk (the underlying list is unaffected where it shares
/// the cells).
pub struct Iter<T> {
    cur: Option<Ref<Node<T>>>,
}

impl<T> View for Iter<T> {
    type V = Seq<T>;

    closed spec fn view(&self) -> Seq<T> {
        opt_seq(self.cur)
    }
}

impl<T> Iter<T> {
    #[verifier::type_invariant]
    spec fn wf(self) -> bool {
        opt_full(self.cur)
    }
}

impl<T: Clone> Iter<T> {
    /// Yields the front of what remains, or the absent value once spent.
    pub fn next(&mut self) -> (r: Option<T>)
        ensures
            r is Some <==> old(self)@.len() > 0,
            old(self)@.len() == 0 ==> *final(self) == *old(self),
            old(self)@.len() > 0 ==> final(self)@ == old(self)@.drop_first() && (r matches Some(x)
                && cloned::<T>(old(self)@[0], x)),
            faithful_clone::<T>() && old(self)@.len() > 0 ==> r == Some(old(self)@[0]),
    {
        proof {
            use_type_invariant(&*self);
        }
        let mut cur: Option<Ref<Node<T>>> = None;
        core::mem::swap(&mut self.cur, &mut cur);
        match cur {
            None => None,
            Some(r) => {
                proof {
                    lemma_full_seq_len(r@);
                }
                let node = r.borrow();
                let x = match &node.elt {
                    Some(v) => v.clone(),
                    None => vstd::pervasive::unreached(),
                };
                let rest = node.next.clone();
                *self = Iter { cur: rest };
                proof {
                    assert(cloned::<T>(node_seq(r@)[0], x));
                }
                Some(x)
            },
        }
    }
}

} // verus!
