use cow_collections::cap::Ref;
use cow_collections::deque::Deque;
use cow_collections::heap::Heap;
use cow_collections::heap::HeapCell;
use cow_collections::list::List;
use cow_collections::spinelist::SpineList;

#[test]
fn cap_new_borrow_consume() {
    let r = Ref::new(41);
    assert_eq!(41, *r.borrow());
    assert_eq!(41, r.consume());
}

#[test]
fn cap_consume_shared_clones_out() {
    let a = Ref::new(String::from("shared"));
    let b = a.clone();
    assert_eq!("shared", a.consume());
    assert_eq!("shared", b.consume());
}

#[test]
fn cap_try_consume_unique_and_shared() {
    let a = Ref::new(7);
    assert_eq!(Some(7), a.try_consume());

    let b = Ref::new(8);
    let c = b.clone();
    assert_eq!(None, b.try_consume());
    assert_eq!(Some(8), c.try_consume());
}

#[test]
fn cap_apply_is_copy_on_write() {
    let mut a = Ref::new(10);
    let b = a.clone();
    a.apply(|v| v + 5);
    assert_eq!(15, *a.borrow());
    assert_eq!(10, *b.borrow());
}

#[test]
fn list_fifo_append_pop_front() {
    let mut lst: List<i32> = List::new();
    lst.append(1);
    lst.append(2);
    lst.append(3);

    assert_eq!(Some(1), lst.pop_front());
    assert_eq!(Some(2), lst.pop_front());
    assert_eq!(Some(3), lst.pop_front());
    assert_eq!(None, lst.pop_front());
}

#[test]
fn list_len_tracks_net_count() {
    let mut lst: List<i32> = List::new();
    lst.prepend(1);
    lst.append(2);
    lst.prepend(3);
    assert_eq!(3, lst.len());
    lst.pop_back();
    assert_eq!(2, lst.len());
    lst.pop_front();
    lst.pop_front();
    assert_eq!(0, lst.len());
    lst.pop_front();
    lst.pop_back();
    assert_eq!(0, lst.len());
}

#[test]
fn list_pop_back_single_element() {
    let mut lst: List<i32> = List::new();
    lst.prepend(9);
    assert_eq!(Some(9), lst.pop_back());
    assert_eq!(0, lst.len());
    assert_eq!(None, lst.pop_back());
}

#[test]
fn list_pop_front_after_prepend() {
    let mut lst: List<i32> = List::new();
    lst.prepend(42);
    assert_eq!(Some(42), lst.pop_front());
    assert_eq!(None, lst.pop_front());
}

#[test]
fn list_empty_pops_stay_absent() {
    let mut lst: List<i32> = List::new();
    assert_eq!(None, lst.pop_front());
    assert_eq!(None, lst.pop_back());
    assert_eq!(None, lst.pop_front());
    lst.prepend(1);
    assert_eq!(Some(1), lst.pop_front());
    assert_eq!(None, lst.pop_front());
}

#[test]
fn list_round_trip_iter_matches_pops() {
    let mut lst: List<i32> = List::new();
    for x in [10, 20, 30, 40] {
        lst.append(x);
    }

    let mut by_iter = Vec::new();
    let mut it = lst.iter();
    while let Some(v) = it.next() {
        by_iter.push(v);
    }

    let mut by_pop = Vec::new();
    while let Some(v) = lst.pop_front() {
        by_pop.push(v);
    }

    assert_eq!(vec![10, 20, 30, 40], by_iter);
    assert_eq!(by_iter, by_pop);
}

#[test]
fn list_to_iter_consumes() {
    let mut lst: List<i32> = List::new();
    lst.append(7);
    lst.append(8);
    let mut it = lst.to_iter();
    assert_eq!(Some(7), it.next());
    assert_eq!(Some(8), it.next());
    assert_eq!(None, it.next());
    assert_eq!(None, it.next());
}

#[test]
fn deque_round_trip_iter_matches_pops() {
    let mut d: Deque<i32> = Deque::new();
    d.push_back(1);
    d.push_back(2);
    d.push_front(0);
    d.push_back(3);

    let mut by_iter = Vec::new();
    let mut it = d.iter();
    while let Some(v) = it.next() {
        by_iter.push(v);
    }

    let mut by_pop = Vec::new();
    while let Some(v) = d.pop_front() {
        by_pop.push(v);
    }

    assert_eq!(vec![0, 1, 2, 3], by_iter);
    assert_eq!(by_iter, by_pop);
}

#[test]
fn deque_rev_iter_runs_backwards() {
    let mut d: Deque<i32> = Deque::new();
    d.push_back(1);
    d.push_back(2);
    d.push_back(3);

    let mut got = Vec::new();
    let mut it = d.rev_iter();
    while let Some(v) = it.next() {
        got.push(v);
    }
    assert_eq!(vec![3, 2, 1], got);

    assert_eq!(Some(1), d.pop_front());
}

#[test]
fn deque_empty_pops_stay_absent() {
    let mut d: Deque<i32> = Deque::new();
    assert_eq!(None, d.pop_front());
    assert_eq!(None, d.pop_back());
    assert_eq!(None, d.pop_front());
    d.push_back(5);
    assert_eq!(Some(5), d.pop_back());
    assert_eq!(None, d.pop_back());
}

#[test]
fn heap_duplicates_come_out_together() {
    let mut h: Heap<i32> = Heap::new();
    h.insert(5);
    h.insert(1);
    h.insert(3);
    h.insert(1);

    assert_eq!(Some(1), h.pop_min());
    assert_eq!(Some(1), h.pop_min());
    assert_eq!(Some(3), h.pop_min());
    assert_eq!(Some(5), h.pop_min());
    assert_eq!(None, h.pop_min());
}

#[test]
fn heap_pops_ascend_after_interleaving() {
    let mut h: Heap<i32> = Heap::new();
    for x in [9, -3, 7, 0, 7, 2] {
        h.insert(x);
    }
    assert_eq!(Some(-3), h.pop_min());
    h.insert(-10);
    assert_eq!(Some(-10), h.pop_min());

    let mut last = i32::MIN;
    let mut count = 0;
    while let Some(v) = h.pop_min() {
        assert!(last <= v);
        last = v;
        count += 1;
    }
    assert_eq!(5, count);
}

#[test]
fn heap_is_empty_reports() {
    let mut h: Heap<i32> = Heap::new();
    assert!(h.is_empty());
    h.insert(1);
    assert!(!h.is_empty());
    h.pop_min();
    assert!(h.is_empty());
    assert_eq!(None, h.pop_min());
    assert!(h.is_empty());
}

#[test]
fn heap_snapshot_survives_draining() {
    let mut h: Heap<i8> = Heap::new();
    h.insert(2);
    h.insert(1);

    let snapshot = h.clone();
    assert_eq!(Some(1), h.pop_min());
    assert_eq!(Some(2), h.pop_min());
    assert_eq!(None, h.pop_min());

    let mut again = snapshot;
    assert_eq!(Some(1), again.pop_min());
    assert_eq!(Some(2), again.pop_min());
}

#[test]
fn spinelist_insert_after_position() {
    let mut lst: SpineList<i32> = SpineList::new();
    lst.append(1);
    lst.append(3);
    lst.insert(0, 2);

    assert_eq!(Some(1), lst.pop_front());
    assert_eq!(Some(2), lst.pop_front());
    assert_eq!(Some(3), lst.pop_front());
    assert_eq!(None, lst.pop_front());
}

#[test]
fn spinelist_empty_pops_stay_absent() {
    let mut lst: SpineList<i32> = SpineList::new();
    assert_eq!(None, lst.pop_front());
    assert_eq!(None, lst.pop_back());
    assert_eq!(None, lst.pop_front());
    lst.append(4);
    assert_eq!(Some(4), lst.pop_back());
    assert_eq!(None, lst.pop_back());
}

#[test]
fn spinelist_round_trip_iter_matches_pops() {
    let mut lst: SpineList<i32> = SpineList::new();
    for x in [5, 6, 7] {
        lst.append(x);
    }

    let mut by_iter = Vec::new();
    let mut it = lst.iter();
    while let Some(v) = it.next() {
        by_iter.push(v);
    }

    let mut by_pop = Vec::new();
    while let Some(v) = lst.pop_front() {
        by_pop.push(v);
    }

    assert_eq!(vec![5, 6, 7], by_iter);
    assert_eq!(by_iter, by_pop);
}

#[test]
fn list_long_chain_drops_without_overflow() {
    let mut lst: List<i32> = List::new();
    for i in 0..200_000 {
        lst.prepend(i);
    }
    drop(lst);

    let mut shared: List<i32> = List::new();
    for i in 0..200_000 {
        shared.prepend(i);
    }
    let alias = shared.clone();
    drop(shared);
    drop(alias);
}

#[test]
fn heap_cell_invariant_holds_after_inserts_and_merge() {
    let a: HeapCell<i32> = HeapCell::new().insert(4).insert(2).insert(7);
    assert!(a.check_wf());
    let b: HeapCell<i32> = HeapCell::new().insert(1).insert(9);
    assert!(b.check_wf());
    let merged = a.merge(b);
    assert!(merged.check_wf());
    match merged.pop_min() {
        Some((x, rest)) => {
            assert_eq!(1, x);
            assert!(rest.check_wf());
        }
        None => panic!("merged heap cannot be empty"),
    }
}

#[test]
fn heap_cell_checker_rejects_bad_rank() {
    let bad: HeapCell<i32> = HeapCell::Node {
        rank: 5,
        elt: 1,
        left: Ref::new(HeapCell::Empty),
        right: Ref::new(HeapCell::Empty),
    };
    assert!(!bad.check_wf());
}

#[test]
fn heap_cell_checker_rejects_bad_order() {
    let child: HeapCell<i32> = HeapCell::new().insert(0);
    let bad: HeapCell<i32> = HeapCell::Node {
        rank: 1,
        elt: 3,
        left: Ref::new(child),
        right: Ref::new(HeapCell::Empty),
    };
    assert!(!bad.check_wf());
}
