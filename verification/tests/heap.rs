use libcix::book::BuyComparer;
use libcix::heap::{DefaultComparer, HeapHandle, HeapIterator, TreeHeap, TreeHeapOrd};
use libcix::order::trade_types::{Order, OrderId, OrderSide, OrderTime};

fn drain(h: &mut TreeHeap<u32, DefaultComparer<u32>>) -> Vec<u32> {
    let mut out = Vec::new();
    while !h.is_empty() {
        out.push(h.pop());
        assert!(h.validate());
    }
    out
}

#[test]
fn insert_update_remove_pop_keeps_the_heap_valid() {
    let mut h = TreeHeapOrd::<u32>::new(32);
    let mut handles: Vec<HeapHandle> = Vec::new();
    assert!(h.validate());
    for x in 0..10u32 {
        handles.push(h.insert(x).unwrap());
        assert!(h.validate());
    }
    for x in 0..10usize {
        h.update(handles[x], |v| v * 3);
        assert!(h.validate());
        assert_eq!(*h.get(handles[x]), (x as u32) * 3);
    }
    for x in vec![8usize, 5, 2, 7] {
        h.remove(handles[x]);
        assert!(h.validate());
    }
    assert_eq!(h.len(), 6);
    assert_eq!(drain(&mut h), vec![27, 18, 12, 9, 3, 0]);
}

#[test]
fn pop_returns_values_largest_first() {
    let mut h = TreeHeapOrd::<u32>::new(16);
    for x in vec![5u32, 1, 10, 7, 7, 3, 12, 0] {
        h.insert(x).unwrap();
    }
    assert_eq!(drain(&mut h), vec![12, 10, 7, 7, 5, 3, 1, 0]);
}

#[test]
fn peek_names_the_largest_value() {
    let mut h = TreeHeapOrd::<u32>::new(4);
    assert!(h.peek().is_none());
    h.insert(4).unwrap();
    let big = h.insert(9).unwrap();
    h.insert(6).unwrap();
    let top = h.peek().unwrap();
    assert_eq!(*h.get(top), 9);
    assert_eq!(*h.get(big), 9);
}

#[test]
fn heap_fills_exactly_and_fails_at_one_more() {
    let mut h = TreeHeapOrd::<u32>::new(3);
    assert_eq!(h.capacity(), 3);
    assert!(h.insert(1).is_ok());
    assert!(h.insert(2).is_ok());
    assert!(h.insert(3).is_ok());
    assert_eq!(h.insert(4).err(), Some("heap full"));
    assert_eq!(h.len(), 3);
    assert!(h.validate());
    assert_eq!(h.pop(), 3);
    assert!(h.insert(4).is_ok());
    assert_eq!(h.insert(5).err(), Some("heap full"));
    assert_eq!(drain(&mut h), vec![4, 2, 1]);
}

#[test]
fn heap_of_no_capacity_takes_nothing() {
    let mut h = TreeHeapOrd::<u32>::new(0);
    assert!(h.is_empty());
    assert_eq!(h.insert(1).err(), Some("heap full"));
}

#[test]
fn handles_stay_with_their_values() {
    let mut h = TreeHeapOrd::<u64>::new(8);
    let a = h.insert(10).unwrap();
    let b = h.insert(30).unwrap();
    let c = h.insert(20).unwrap();
    h.insert(40).unwrap();
    h.insert(5).unwrap();
    assert_eq!(*h.get(a), 10);
    assert_eq!(*h.get(b), 30);
    assert_eq!(*h.get(c), 20);
    h.remove(b);
    assert_eq!(*h.get(a), 10);
    assert_eq!(*h.get(c), 20);
    h.update(a, |v| v + 100);
    assert_eq!(*h.get(a), 110);
    assert_eq!(*h.get(c), 20);
    assert_eq!(*h.get(h.peek().unwrap()), 110);
}

#[test]
fn freed_slot_is_handed_out_next() {
    let mut h = TreeHeapOrd::<u32>::new(4);
    let a = h.insert(1).unwrap();
    let _b = h.insert(2).unwrap();
    h.remove(a);
    let c = h.insert(3).unwrap();
    assert_eq!(*h.get(c), 3);
    assert_eq!(h.len(), 2);
    assert!(h.validate());
}

#[test]
fn iterator_yields_in_priority_order_and_leaves_the_heap() {
    let mut h = TreeHeapOrd::<u32>::new(16);
    for x in vec![5u32, 1, 10, 7, 3, 12, 0, 8] {
        h.insert(x).unwrap();
    }
    let mut seen = Vec::new();
    {
        let mut it = HeapIterator::new(&h);
        while let Some(v) = it.next() {
            seen.push(v);
        }
    }
    assert_eq!(seen, vec![12, 10, 8, 7, 5, 3, 1, 0]);
    assert_eq!(h.len(), 8);
    assert!(h.validate());
}

#[test]
fn iterator_over_a_full_heap_reaches_every_value() {
    let mut h = TreeHeapOrd::<u32>::new(64);
    for x in 0..64u32 {
        h.insert((x * 37) % 64).unwrap();
    }
    let mut it = HeapIterator::new(&h);
    let mut expect = 64u32;
    while let Some(v) = it.next() {
        expect -= 1;
        assert_eq!(v, expect);
    }
    assert_eq!(expect, 0);
}

#[test]
fn iterator_over_an_empty_heap_yields_nothing() {
    let h = TreeHeapOrd::<i32>::new(4);
    let mut it = HeapIterator::new(&h);
    assert!(it.next().is_none());
}

#[test]
fn signed_values_rank_by_size() {
    let mut h = TreeHeapOrd::<i64>::new(4);
    h.insert(-5).unwrap();
    h.insert(3).unwrap();
    h.insert(-1).unwrap();
    assert_eq!(h.pop(), 3);
    assert_eq!(h.pop(), -1);
    assert_eq!(h.pop(), -5);
}

#[test]
fn value_can_be_changed_in_place_where_its_rank_stays() {
    let mut h: TreeHeap<Order, BuyComparer> = TreeHeap::new(4);
    let mut handles = Vec::new();
    for (i, price) in vec![10u64, 30, 20].into_iter().enumerate() {
        let mut o = Order::default_at(OrderTime { sec: i as i64, nsec: 0 });
        o.id = OrderId::new(0, OrderSide::Buy, i as u64).unwrap();
        o.price = price;
        o.quantity = 100;
        handles.push(h.insert(o).unwrap());
    }
    h.get_mut(handles[1]).quantity = 60;
    assert!(h.validate());
    assert_eq!(h.get(handles[1]).quantity, 60);
    assert_eq!(h.get(handles[0]).quantity, 100);
    let top = h.pop();
    assert_eq!((top.price, top.quantity), (30, 60));
}

#[test]
fn rows_list_the_heap_from_the_top_down() {
    let mut h = TreeHeapOrd::<u32>::new(8);
    assert!(h.rows().is_empty());
    h.insert(5).unwrap();
    assert_eq!(h.rows(), vec![vec![Some(5)], vec![None, None]]);
    h.insert(9).unwrap();
    h.insert(7).unwrap();
    h.insert(1).unwrap();
    let rows = h.rows();
    assert_eq!(rows[0], vec![Some(9)]);
    assert_eq!(rows.len(), 4);
    assert_eq!(rows[1].len(), 2);
    assert_eq!(rows[2].len(), 4);
    assert!(rows[3].iter().all(|v| v.is_none()));
    let mut values: Vec<u32> = rows.iter().flatten().filter_map(|v| *v).collect();
    values.sort();
    assert_eq!(values, vec![1, 5, 7, 9]);
    for row in 1..rows.len() {
        let above = rows[row - 1].iter().filter(|v| v.is_some()).count();
        assert_eq!(rows[row].len(), 2 * above);
    }
}
