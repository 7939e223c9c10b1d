//! The spine-backed list: the same public shape as the cell-based list, over
//! one contiguous spine. Any backing store serves as the spine as long as it
//! iterates in logical front-to-back order and hands out the last element by
//! position; here it is a plain growable array.
use crate::cap::faithful_clone;
use crate::list::seq_cloned;
use vstd::prelude::*;

verus! {

/// A list over a contiguous spine.
pub struct SpineList<T> {
    spine: Vec<T>,
}

impl<T> View for SpineList<T> {
    type V = Seq<T>;

    closed spec fn view(&self) -> Seq<T> {
        self.spine@
    }
}

impl<T: Clone> SpineList<T> {
    /// The empty list.
    pub fn new() -> (r: SpineList<T>)
        ensures
            r@ == Seq::<T>::empty(),
    {
        SpineList { spine: Vec::new() }
    }

    /// Puts `x` at the front.
    pub fn prepend(&mut self, x: T)
        requires
            old(self)@.len() < usize::MAX,
        ensures
            final(self)@ == seq![x] + old(self)@,
    {
        self.spine.insert(0, x);
        proof {
            assert(final(self)@ =~= seq![x] + old(self)@);
        }
    }

    /// Puts `x` right behind position `idx`.
    pub fn insert(&mut self, idx: usize, x: T)
        requires
            idx < old(self)@.len(),
            old(self)@.len() < usize::MAX,
        ensures
            final(self)@ == old(self)@.insert(idx + 1, x),
    {
        self.spine.insert(idx + 1, x);
        proof {
            assert(final(self)@ =~= old(self)@.insert(idx + 1, x));
        }
    }

    /// Puts `x` behind the last element.
    pub fn append(&mut self, x: T)
        requires
            old(self)@.len() < usize::MAX,
        ensures
            final(self)@ == old(self)@.push(x),
    {
        self.spine.push(x);
    }

    /// Takes the front element out, or reports the absent value on an empty
    /// list, which it leaves unchanged.
    pub fn pop_front(&mut self) -> (r: Option<T>)
        ensures
            r is Some <==> old(self)@.len() > 0,
            old(self)@.len() == 0 ==> *final(self) == *old(self),
            old(self)@.len() > 0 ==> r == Some(old(self)@[0]) && final(self)@ == old(
                self,
            )@.drop_first(),
    {
        if self.spine.len() == 0 {
            None
        } else {
            let x = self.spine.remove(0);
            proof {
                assert(final(self)@ =~= old(self)@.drop_first());
            }
            Some(x)
        }
    }

    /// Takes the last element out, or reports the absent value on an empty
    /// list, which it leaves unchanged.
    pub fn pop_back(&mut self) -> (r: Option<T>)
        ensures
            r is Some <==> old(self)@.len() > 0,
            old(self)@.len() == 0 ==> *final(self) == *old(self),
            old(self)@.len() > 0 ==> r == Some(old(self)@.last()) && final(self)@ == old(
                self,
            )@.drop_last(),
    {
        if self.spine.len() == 0 {
            None
        } else {
            let r = self.spine.pop();
            proof {
                assert(final(self)@ =~= old(self)@.drop_last());
            }
            r
        }
    }

    /// How many elements the list holds.
    pub fn len(&self) -> (r: usize)
        ensures
            r == self@.len(),
    {
        self.spine.len()
    }

    /// A lazy forward walk over a copy of the spine; the list stays usable.
    pub fn iter(&self) -> (r: Iter<T>)
        ensures
            seq_cloned(self@, r@),
            faithful_clone::<T>() ==> r@ == self@,
    {
        let cur = self.spine.clone();
        proof {
            if faithful_clone::<T>() {
                assert(cur@ =~= self.spine@);
            }
        }
        Iter { cur }
    }

    /// The consuming variant of `iter`.
    pub fn to_iter(self) -> (r: Iter<T>)
        ensures
            r@ == self@,
    {
        let SpineList { spine } = self;
        Iter { cur: spine }
    }
}

impl<T: Clone> Clone for SpineList<T> {
    /// Copies the spine element by element: a contiguous spine shares no
    /// cells, so a snapshot here is O(n), unlike the cell-based list's.
    fn clone(&self) -> (r: Self)
        ensures
            seq_cloned(self@, r@),
            faithful_clone::<T>() ==> r@ == self@,
    {
        let spine = self.spine.clone();
        proof {
            if faithful_clone::<T>() {
                assert(spine@ =~= self.spine@);
            }
        }
        SpineList { spine }
    }
}

/// A lazy, finite, non-restartable forward walk over a spine.
pub struct Iter<T> {
    cur: Vec<T>,
}

impl<T> View for Iter<T> {
    type V = Seq<T>;

    closed spec fn view(&self) -> Seq<T> {
        self.cur@
    }
}

impl<T: Clone> Iter<T> {
    /// Yields the front of what remains, or the absent value once spent.
    pub fn next(&mut self) -> (r: Option<T>)
        ensures
            r is Some <==> old(self)@.len() > 0,
            old(self)@.len() == 0 ==> *final(self) == *old(self),
            old(self)@.len() > 0 ==> r == Some(old(self)@[0]) && final(self)@ == old(
                self,
            )@.drop_first(),
    {
        if self.cur.len() == 0 {
            None
        } else {
            let x = self.cur.remove(0);
            proof {
                assert(final(self)@ =~= old(self)@.drop_first());
            }
            Some(x)
        }
    }
}

} // verus!
