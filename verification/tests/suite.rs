use cow_collections::cap::Ref;
use cow_collections::deque::Deque;
use cow_collections::heap::Heap;
use cow_collections::list::List;
use cow_collections::spinelist::SpineList;

#[test]
fn deque_pop_front() {
    let mut d = Deque::new();
    d.push_front(2);
    d.push_front(1);
    d.push_back(3);

    assert_eq!(Some(1), d.pop_front());
    assert_eq!(Some(2), d.pop_front());
    assert_eq!(Some(3), d.pop_front());
    assert_eq!(None, d.pop_front());
}

#[test]
fn deque_pop_back() {
    let mut d = Deque::new();
    d.push_front(2);
    d.push_front(1);
    d.push_back(3);

    assert_eq!(Some(3), d.pop_back());
    assert_eq!(Some(2), d.pop_back());
    assert_eq!(Some(1), d.pop_back());
    assert_eq!(None, d.pop_back());
}

#[test]
fn deque_reverse() {
    let mut d = Deque::new();
    d.push_front(2);
    d.push_front(1);
    d.push_back(3);
    d.push_back(4);

    d.reverse();

    assert_eq!(Some(4), d.pop_front());
    assert_eq!(Some(3), d.pop_front());
    assert_eq!(Some(2), d.pop_front());
    assert_eq!(Some(1), d.pop_front());
    assert_eq!(None, d.pop_back());
}

#[test]
fn deque_iter() {
    let mut d = Deque::new();
    d.push_front(2);
    d.push_front(1);
    d.push_back(3);
    d.push_back(4);

    let mut i = 1;
    let mut it = d.iter();
    while let Some(v) = it.next() {
        assert_eq!(i, v);
        i += 1;
    }
}

#[test]
fn heap_empty() {
    let mut h: Heap<i8> = Heap::new();
    assert_eq!(None, h.pop_min())
}

#[test]
fn heap_min() {
    let mut h: Heap<i8> = Heap::new();
    h.insert(4);
    h.insert(2);
    h.insert(1);
    h.insert(5);
    h.insert(3);
    assert_eq!(Some(1), h.pop_min());
    assert_eq!(Some(2), h.pop_min());
    assert_eq!(Some(3), h.pop_min());
    assert_eq!(Some(4), h.pop_min());
    assert_eq!(Some(5), h.pop_min());
    assert_eq!(None, h.pop_min());
    assert_eq!(None, h.pop_min());
}

#[test]
fn heap_iter() {
    let mut h: Heap<i8> = Heap::new();
    h.insert(4);
    h.insert(2);
    h.insert(1);
    h.insert(5);
    h.insert(3);

    let mut i = 1;
    let mut it = h.iter();
    while let Some(v) = it.next() {
        assert_eq!(i, v);
        i += 1;
    }

    let mut i = 1;
    let mut it = h.to_iter();
    while let Some(v) = it.next() {
        assert_eq!(i, v);
        i += 1;
    }
}

#[test]
fn list_lst_len() {
    let mut lst: List<i32> = List::new();
    assert_eq!(0, lst.len());

    lst.prepend(1);
    assert_eq!(1, lst.len());

    lst.prepend(2);
    assert_eq!(2, lst.len());

    lst.prepend(3);
    assert_eq!(3, lst.len());

    lst.pop_front();
    assert_eq!(2, lst.len());
}

#[test]
fn list_lst_pop_front() {
    let mut lst: List<i32> = List::new();
    lst.prepend(3);
    lst.prepend(2);
    lst.prepend(1);

    assert_eq!(Some(1), lst.pop_front());
    assert_eq!(Some(2), lst.pop_front());
    assert_eq!(Some(3), lst.pop_front());
    assert_eq!(None, lst.pop_front());
    assert_eq!(None, lst.pop_front());
}

#[test]
fn list_lst_pop_back() {
    let mut lst: List<i32> = List::new();
    lst.prepend(3);
    lst.prepend(2);
    lst.prepend(1);

    assert_eq!(Some(3), lst.pop_back());
    assert_eq!(Some(2), lst.pop_back());
    assert_eq!(Some(1), lst.pop_back());
    assert_eq!(None, lst.pop_front());
    assert_eq!(None, lst.pop_front());
}

#[test]
fn list_lst_copy() {
    let mut lst1: Ref<List<i32>> = Ref::new(List::new());
    lst1.apply(|mut l| {
        l.prepend(1);
        l
    });
    let lst2: Ref<List<i32>>;
    lst1.apply(|mut l| {
        l.prepend(2);
        l
    });

    lst2 = lst1.clone();

    lst1.apply(|mut l| {
        l.prepend(3);
        l
    });

    assert!(3 == lst1.borrow().len());
    assert!(2 == lst2.borrow().len());
}

#[test]
fn list_lst_iter() {
    let mut lst1: List<i32> = List::new();
    lst1.prepend(3);
    lst1.prepend(2);
    lst1.prepend(1);

    let mut cnt = 1;
    let mut it = lst1.iter();
    while let Some(v) = it.next() {
        assert_eq!(v, cnt);
        cnt = cnt + 1;
    }
}

#[test]
fn spinelist_lst_len() {
    let mut lst: SpineList<i32> = SpineList::new();
    assert_eq!(0, lst.len());

    lst.prepend(1);
    assert_eq!(1, lst.len());

    lst.prepend(2);
    assert_eq!(2, lst.len());

    lst.prepend(3);
    assert_eq!(3, lst.len());

    lst.pop_front();
    assert_eq!(2, lst.len());
}

#[test]
fn spinelist_lst_pop_front() {
    let mut lst: SpineList<i32> = SpineList::new();
    lst.prepend(3);
    lst.prepend(2);
    lst.prepend(1);

    assert_eq!(Some(1), lst.pop_front());
    assert_eq!(Some(2), lst.pop_front());
    assert_eq!(Some(3), lst.pop_front());
    assert_eq!(None, lst.pop_front());
    assert_eq!(None, lst.pop_front());
}

#[test]
fn lst_append() {
    let mut lst = SpineList::<i32>::new();
    lst.append(1);
    lst.append(2);
    lst.append(3);

    assert_eq!(Some(1), lst.pop_front());
    assert_eq!(Some(2), lst.pop_front());
    assert_eq!(Some(3), lst.pop_front());
    assert_eq!(None, lst.pop_front());
    assert_eq!(None, lst.pop_front());
}

#[test]
fn spinelist_lst_pop_back() {
    let mut lst: SpineList<i32> = SpineList::new();
    lst.prepend(3);
    lst.prepend(2);
    lst.prepend(1);

    assert_eq!(Some(3), lst.pop_back());
    assert_eq!(Some(2), lst.pop_back());
    assert_eq!(Some(1), lst.pop_back());
    assert_eq!(None, lst.pop_front());
    assert_eq!(None, lst.pop_front());
}

#[test]
fn spinelist_lst_copy() {
    let mut lst1: Ref<SpineList<i32>> = Ref::new(SpineList::new());
    lst1.apply(|mut l| {
        l.prepend(1);
        l
    });
    let lst2: Ref<SpineList<i32>>;
    lst1.apply(|mut l| {
        l.prepend(2);
        l
    });

    lst2 = lst1.clone();

    lst1.apply(|mut l| {
        l.prepend(3);
        l
    });

    assert!(3 == lst1.borrow().len());
    assert!(2 == lst2.borrow().len());
}

#[test]
fn spinelist_lst_iter() {
    let mut lst1: SpineList<i32> = SpineList::new();
    lst1.prepend(3);
    lst1.prepend(2);
    lst1.prepend(1);

    let mut cnt = 1;
    let mut it = lst1.iter();
    while let Some(v) = it.next() {
        assert_eq!(v, cnt);
        cnt = cnt + 1;
    }
}
