//! A two-ended queue built from two lists: the logical order is the front
//! list followed by the back list reversed. When one side runs dry a pop
//! falls back to the far end of the other side — correct, though not the
//! amortized-O(1) split-and-reverse rebalance of a full banker's queue; that
//! fallback is kept deliberately, as the simpler behaviour.
use crate::cap::Ref;
use crate::cap::faithful_clone;
use crate::cap::lemma_ref_eq;
use crate::list::List;
use crate::list::lemma_list_clone_faithful;
use crate::list::seq_cloned;
use vstd::prelude::*;

verus! {

/// Two list cells; the deque reads `front ++ back.reverse()`.
pub struct Deque<T> {
    front: Ref<List<T>>,
    back: Ref<List<T>>,
}

impl<T> View for Deque<T> {
    type V = Seq<T>;

    closed spec fn view(&self) -> Seq<T> {
        self.front@@ + self.back@@.reverse()
    }
}

impl<T: Clone> Deque<T> {
    /// The empty deque.
    pub fn new() -> (r: Deque<T>)
        ensures
            r@ == Seq::<T>::empty(),
    {
        let r = Deque { front: Ref::new(List::new()), back: Ref::new(List::new()) };
        proof {
            assert(r@ =~= Seq::<T>::empty());
        }
        r
    }

    /// Puts `x` at the logical front; O(1).
    pub fn push_front(&mut self, x: T)
        requires
            old(self)@.len() < i32::MAX,
        ensures
            final(self)@ == seq![x] + old(self)@,
    {
        let mut f = Ref::new(List::new());
        core::mem::swap(&mut self.front, &mut f);
        let mut l = f.consume();
        proof {
            lemma_list_clone_faithful::<T>();
        }
        l.prepend(x);
        self.front = Ref::new(l);
        proof {
            assert(final(self)@ =~= seq![x] + old(self)@);
        }
    }

    /// Puts `x` at the logical back; O(1).
    pub fn push_back(&mut self, x: T)
        requires
            old(self)@.len() < i32::MAX,
        ensures
            final(self)@ == old(self)@.push(x),
    {
        let mut b = Ref::new(List::new());
        core::mem::swap(&mut self.back, &mut b);
        let mut l = b.consume();
        proof {
            lemma_list_clone_faithful::<T>();
        }
        l.prepend(x);
        self.back = Ref::new(l);
        proof {
            assert(final(self)@ =~= old(self)@.push(x));
        }
    }

    /// Takes the logical front element out: from the front list, or, once
    /// that is empty, from the far end of the back list. Returns the absent
    /// value on an empty deque, which it leaves unchanged.
    pub fn pop_front(&mut self) -> (r: Option<T>)
        ensures
            r is Some <==> old(self)@.len() > 0,
            old(self)@.len() == 0 ==> *final(self) == *old(self),
            old(self)@.len() > 0 ==> final(self)@.len() == old(self)@.len() - 1 && (r matches Some(
                x,
            ) && cloned::<T>(old(self)@[0], x)) && seq_cloned(
                old(self)@.drop_first(),
                final(self)@,
            ),
            faithful_clone::<T>() && old(self)@.len() > 0 ==> r == Some(old(self)@[0])
                && final(self)@ == old(self)@.drop_first(),
    {
        let mut f = Ref::new(List::new());
        core::mem::swap(&mut self.front, &mut f);
        let mut l = f.consume();
        proof {
            lemma_list_clone_faithful::<T>();
        }
        let popped = l.pop_front();
        self.front = Ref::new(l);
        match popped {
            Some(x) => {
                proof {
                    assert(final(self)@ =~= old(self)@.drop_first());
                    assert(seq_cloned(old(self)@.drop_first(), final(self)@));
                }
                Some(x)
            },
            None => {
                let mut b = Ref::new(List::new());
                core::mem::swap(&mut self.back, &mut b);
                let mut bl = b.consume();
                proof {
                    lemma_list_clone_faithful::<T>();
                }
                let r = bl.pop_back();
                self.back = Ref::new(bl);
                proof {
                    let ob = old(self).back@@;
                    if ob.len() == 0 {
                        assert(old(self)@.len() == 0);
                        assert(final(self)@ =~= old(self)@);
                        lemma_ref_eq(final(self).front, old(self).front);
                        lemma_ref_eq(final(self).back, old(self).back);
                        assert(*final(self) == *old(self));
                    } else {
                        assert(old(self)@ =~= ob.reverse());
                        assert(old(self)@[0] == ob.last());
                        let nb = final(self).back@@;
                        assert(nb.len() == ob.len() - 1);
                        assert(final(self)@ =~= nb.reverse());
                        assert forall|i: int| 0 <= i < old(self)@.drop_first().len() implies
                            cloned::<T>(
                            old(self)@.drop_first()[i],
                            #[trigger] final(self)@[i],
                        ) by {
                            assert(final(self)@[i] == nb[nb.len() - 1 - i]);
                            assert(cloned::<T>(
                                ob.drop_last()[nb.len() - 1 - i],
                                nb[nb.len() - 1 - i],
                            ));
                            assert(old(self)@.drop_first()[i] == ob.reverse()[i + 1]);
                            assert(ob.reverse()[i + 1] == ob[ob.len() - 2 - i]);
                        }
                        if faithful_clone::<T>() {
                            assert(final(self)@ =~= old(self)@.drop_first());
                        }
                    }
                }
                r
            },
        }
    }

    /// Takes the logical back element out: from the back list, or, once that
    /// is empty, from the far end of the front list. Returns the absent value
    /// on an empty deque, which it leaves unchanged.
    pub fn pop_back(&mut self) -> (r: Option<T>)
        ensures
            r is Some <==> old(self)@.len() > 0,
            old(self)@.len() == 0 ==> *final(self) == *old(self),
            old(self)@.len() > 0 ==> final(self)@.len() == old(self)@.len() - 1 && (r matches Some(
                x,
            ) && cloned::<T>(old(self)@.last(), x)) && seq_cloned(
                old(self)@.drop_last(),
                final(self)@,
            ),
            faithful_clone::<T>() && old(self)@.len() > 0 ==> r == Some(old(self)@.last())
                && final(self)@ == old(self)@.drop_last(),
    {
        let mut b = Ref::new(List::new());
        core::mem::swap(&mut self.back, &mut b);
        let mut bl = b.consume();
        proof {
            lemma_list_clone_faithful::<T>();
        }
        let popped = bl.pop_front();
        self.back = Ref::new(bl);
        match popped {
            Some(x) => {
                proof {
                    let ob = old(self).back@@;
                    assert(old(self)@.last() == ob.reverse().last());
                    assert(ob.reverse().last() == ob[0]);
                    assert(final(self)@ =~= old(self)@.drop_last());
                    assert(seq_cloned(old(self)@.drop_last(), final(self)@));
                }
                Some(x)
            },
            None => {
                let mut f = Ref::new(List::new());
                core::mem::swap(&mut self.front, &mut f);
                let mut fl = f.consume();
                proof {
                    lemma_list_clone_faithful::<T>();
                }
                let r = fl.pop_back();
                self.front = Ref::new(fl);
                proof {
                    let of = old(self).front@@;
                    if of.len() == 0 {
                        assert(old(self)@.len() == 0);
                        assert(final(self)@ =~= old(self)@);
                        lemma_ref_eq(final(self).front, old(self).front);
                        lemma_ref_eq(final(self).back, old(self).back);
                        assert(*final(self) == *old(self));
                    } else {
                        assert(old(self)@ =~= of);
                        assert(final(self)@ =~= final(self).front@@);
                        if faithful_clone::<T>() {
                            assert(final(self)@ =~= old(self)@.drop_last());
                        }
                    }
                }
                r
            },
        }
    }

    /// Swaps the roles of the two sides; O(1).
    pub fn reverse(&mut self)
        ensures
            final(self)@ == old(self)@.reverse(),
    {
        let mut f = Ref::new(List::new());
        core::mem::swap(&mut self.front, &mut f);
        core::mem::swap(&mut self.back, &mut f);
        core::mem::swap(&mut self.front, &mut f);
        proof {
            let a = old(self).front@@;
            let b = old(self).back@@;
            assert(final(self)@ =~= b + a.reverse());
            assert((a + b.reverse()).reverse() =~= b + a.reverse());
        }
    }

    /// A lazy walk over a snapshot, logical front first.
    pub fn iter(&self) -> (r: Iter<T>)
        ensures
            r@ == self@,
    {
        self.clone().to_iter()
    }

    /// A lazy walk over a snapshot, logical back first.
    pub fn rev_iter(&self) -> (r: Iter<T>)
        ensures
            r@ == self@.reverse(),
    {
        let mut cln = self.clone();
        cln.reverse();
        cln.to_iter()
    }

    fn to_iter(self) -> (r: Iter<T>)
        ensures
            r@ == self@,
    {
        Iter { deque: self }
    }
}

impl<T: Clone> Clone for Deque<T> {
    /// An O(1) snapshot: the copy shares both lists with the original.
    fn clone(&self) -> (r: Self)
        ensures
            r == *self,
    {
        Deque { front: self.front.clone(), back: self.back.clone() }
    }
}

/// A lazy, finite, non-restartable walk that consumes its snapshot of the
/// deque one front element at a time.
pub struct Iter<T> {
    deque: Deque<T>,
}

impl<T> View for Iter<T> {
    type V = Seq<T>;

    closed spec fn view(&self) -> Seq<T> {
        self.deque@
    }
}

impl<T: Clone> Iter<T> {
    /// Yields the front of what remains, or the absent value once spent.
    pub fn next(&mut self) -> (r: Option<T>)
        ensures
            r is Some <==> old(self)@.len() > 0,
            old(self)@.len() == 0 ==> *final(self) == *old(self),
            old(self)@.len() > 0 ==> final(self)@.len() == old(self)@.len() - 1 && (r matches Some(
                x,
            ) && cloned::<T>(old(self)@[0], x)) && seq_cloned(
                old(self)@.drop_first(),
                final(self)@,
            ),
            faithful_clone::<T>() && old(self)@.len() > 0 ==> r == Some(old(self)@[0])
                && final(self)@ == old(self)@.drop_first(),
    {
        self.deque.pop_front()
    }
}

} // verus!
