//! Laws of the sequence collections, stated over the same views that their
//! contracts use, and proved once and for all.
use vstd::prelude::*;

verus! {

/// One mutating step on a list or deque, as its contract describes it on the
/// view: `PushFront` is the list's prepend, `PushBack` its append.
pub enum SeqOp<T> {
    PushFront(T),
    PushBack(T),
    PopFront,
    PopBack,
}

/// What a step does to the view: pushes add their element at their end, pops
/// drop one element when there is one and leave an empty view alone.
pub open spec fn apply_op<T>(s: Seq<T>, op: SeqOp<T>) -> Seq<T> {
    match op {
        SeqOp::PushFront(x) => seq![x] + s,
        SeqOp::PushBack(x) => s.push(x),
        SeqOp::PopFront => if s.len() == 0 {
            s
        } else {
            s.drop_first()
        },
        SeqOp::PopBack => if s.len() == 0 {
            s
        } else {
            s.drop_last()
        },
    }
}

/// How a step changes the count: one more for an insertion, one less for a
/// pop that found an element, nothing for a pop on an empty view.
pub open spec fn op_delta<T>(s: Seq<T>, op: SeqOp<T>) -> int {
    match op {
        SeqOp::PushFront(_) => 1,
        SeqOp::PushBack(_) => 1,
        SeqOp::PopFront => if s.len() == 0 {
            0
        } else {
            -1
        },
        SeqOp::PopBack => if s.len() == 0 {
            0
        } else {
            -1
        },
    }
}

/// The view after a whole run of steps.
pub open spec fn apply_ops<T>(s: Seq<T>, ops: Seq<SeqOp<T>>) -> Seq<T>
    decreases ops.len(),
{
    if ops.len() == 0 {
        s
    } else {
        apply_op(apply_ops(s, ops.drop_last()), ops.last())
    }
}

/// The net count of a whole run: insertions minus effective removals.
pub open spec fn net_count<T>(s: Seq<T>, ops: Seq<SeqOp<T>>) -> int
    decreases ops.len(),
{
    if ops.len() == 0 {
        0
    } else {
        net_count(s, ops.drop_last()) + op_delta(apply_ops(s, ops.drop_last()), ops.last())
    }
}

/// After any run of pushes and pops, the length equals the starting length
/// plus the net count of insertions minus removals.
pub proof fn lemma_len_net_count<T>(s: Seq<T>, ops: Seq<SeqOp<T>>)
    ensures
        apply_ops(s, ops).len() == s.len() + net_count(s, ops),
    decreases ops.len(),
{
    if ops.len() > 0 {
        lemma_len_net_count(s, ops.drop_last());
    }
}

/// Emptiness is stable under pops: a pop that found nothing left the view
/// empty, so every later pop finds nothing too, until an insertion.
pub proof fn lemma_empty_pops_stay_empty<T>(s: Seq<T>, op: SeqOp<T>)
    requires
        s.len() == 0,
        op is PopFront || op is PopBack,
    ensures
        apply_op(s, op) == s,
        apply_op(s, op).len() == 0,
{
}

/// The sequence a front-first drain yields from a view: the head, then what
/// draining the rest yields. Both the forward iterator and repeated
/// `pop_front` step like this, by their contracts.
pub open spec fn drain<T>(s: Seq<T>) -> Seq<T>
    decreases s.len(),
{
    if s.len() == 0 {
        Seq::empty()
    } else {
        seq![s[0]] + drain(s.drop_first())
    }
}

/// Round trip: draining a collection built from a sequence reproduces that
/// sequence, whether the drain is the forward iterator or repeated
/// `pop_front` — both yield `drain` of the same view.
pub proof fn lemma_drain_reproduces<T>(s: Seq<T>)
    ensures
        drain(s) == s,
    decreases s.len(),
{
    if s.len() > 0 {
        lemma_drain_reproduces(s.drop_first());
        assert(drain(s) =~= s);
    } else {
        assert(drain(s) =~= s);
    }
}

} // verus!
