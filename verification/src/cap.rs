//! The ownership capability: a shared cell `Ref<T>` with functional
//! (copy-on-write) semantics, backed by a reference-counted pointer.
//! Collections are written against `new` / `borrow` / `clone` / `consume` /
//! `apply` alone, so another backend with the same contract could stand here.
use std::rc::Rc;
use vstd::prelude::*;

verus! {

/// A shared ownership cell. Cloning a `Ref` is O(1) and shares the value
/// structurally; a mutation (`apply`) replaces this handle's value while
/// aliases keep observing the old one.
pub struct Ref<T> {
    ptr: Rc<T>,
}

impl<T> View for Ref<T> {
    type V = T;

    closed spec fn view(&self) -> T {
        *self.ptr
    }
}

/// Holds when every value `T::clone` may return equals its input. All
/// integer primitives satisfy it; a type whose `clone` has no contract
/// (a derived one on a non-`Copy` type) does not provably satisfy it.
pub open spec fn faithful_clone<T: Clone>() -> bool {
    forall|a: T, b: T| #[trigger] cloned::<T>(a, b) ==> b == a
}

/// Relies on std's `Rc::clone`: the returned handle points to the same
/// allocation, hence carries the same value.
#[verifier::external_body]
fn rc_dup<T>(rc: &Rc<T>) -> (r: Rc<T>)
    ensures
        r == *rc,
{
    rc.clone()
}

/// Relies on std's `Rc::try_unwrap`: it returns the value when the argument
/// was the last handle and hands the argument back otherwise, and it neither
/// panics nor unwinds.
#[verifier::external_body]
fn rc_try_unwrap<T>(rc: Rc<T>) -> (r: Result<T, Rc<T>>)
    ensures
        match r {
            Ok(v) => v == rc,
            Err(e) => e == rc,
        },
    opens_invariants none
    no_unwind
{
    Rc::try_unwrap(rc)
}

impl<T> Ref<T> {
    /// Allocates a fresh cell; the caller is its sole owner.
    pub fn new(value: T) -> (r: Ref<T>)
        ensures
            r@ == value,
    {
        Ref { ptr: Rc::new(value) }
    }

    /// Dereference for read.
    pub fn borrow(&self) -> (r: &T)
        ensures
            *r == self@,
    {
        &*self.ptr
    }

    /// Reclaims the contained value when this handle is the last owner, and
    /// reports failure otherwise. Unlike `consume` it never copies, so it
    /// serves teardown code that must stop at a still-shared cell.
    pub fn try_consume(self) -> (r: Option<T>)
        ensures
            r matches Some(v) ==> v == self@,
        opens_invariants none
        no_unwind
    {
        match rc_try_unwrap(self.ptr) {
            Ok(value) => Some(value),
            Err(_) => None,
        }
    }
}

impl<T: Clone> Ref<T> {
    /// Reclaims the contained value: moves it out when this handle is the
    /// last owner, and otherwise falls back to cloning the value out, since
    /// sharing is the normal mode under functional semantics.
    pub fn consume(self) -> (r: T)
        ensures
            cloned::<T>(self@, r),
            faithful_clone::<T>() ==> r == self@,
    {
        match rc_try_unwrap(self.ptr) {
            Ok(value) => value,
            Err(shared) => (*shared).clone(),
        }
    }

    /// Functional update: replaces this handle's value with `f` applied to a
    /// copy of the current value; aliases keep the old value.
    pub fn apply<F: FnOnce(T) -> T>(&mut self, f: F)
        requires
            forall|v: T| cloned::<T>(old(self)@, v) ==> call_requires(f, (v,)),
        ensures
            exists|v: T, w: T|
                cloned::<T>(old(self)@, v) && call_ensures(f, (v,), w) && final(self)@ == w,
    {
        let v = self.borrow().clone();
        proof {
            assert(cloned::<T>(self@, v));
        }
        let w = f(v);
        *self = Ref { ptr: Rc::new(w) };
    }
}

/// Two cells are the same value exactly when they hold the same value: a
/// cell adds no identity of its own.
pub proof fn lemma_ref_eq<T>(a: Ref<T>, b: Ref<T>)
    requires
        a@ == b@,
    ensures
        a == b,
{
}

/// A cell is strictly larger than the value it holds, so a recursive walk
/// that steps from a cell to its content terminates.
pub broadcast proof fn lemma_ref_smaller<T>(r: Ref<T>)
    ensures
        #[trigger] (decreases_to!(r => r@)),
{
}

impl<T> Clone for Ref<T> {
    /// A second handle to the same value; O(1), no deep copy.
    fn clone(&self) -> (r: Self)
        ensures
            r == *self,
            r@ == self@,
    {
        Ref { ptr: rc_dup(&self.ptr) }
    }
}

} // verus!
