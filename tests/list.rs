use clob_core::arena::{Arena, Index};
use clob_core::list::{List, Node};
use clob_core::types::{ActorId, MakerView, Side};
use clob_core::u256::U256;
use std::collections::HashSet;
use std::collections::VecDeque;

fn assert_list_invariants<T>(list: &List, arena: &Arena<Node<T>>) {
    match (list.head, list.tail) {
        (None, None) => return,
        (Some(_), Some(_)) => {}
        _ => panic!(
            "head/tail mismatch: head={:?}, tail={:?}",
            list.head, list.tail
        ),
    }

    // Head.prev == None, Tail.next == None
    let head = list.head.unwrap();
    let tail = list.tail.unwrap();

    let head_node = arena.get(head).expect("head points to missing node");
    assert!(head_node.prev.is_none(), "head.prev must be None");

    let tail_node = arena.get(tail).expect("tail points to missing node");
    assert!(tail_node.next.is_none(), "tail.next must be None");

    // Walk forward, verify prev links and that tail is reachable, no cycles.
    let mut seen = HashSet::new();
    let mut cur = list.head;
    let mut prev = None;
    let mut last = None;

    while let Some(i) = cur {
        assert!(seen.insert(i), "cycle detected at {:?}", i);
        let node = arena.get(i).expect("list points to missing node");

        assert_eq!(node.prev, prev, "broken prev link at {:?}", i);

        prev = Some(i);
        last = Some(i);
        cur = node.next;
    }

    assert_eq!(
        last, list.tail,
        "tail mismatch: walked last={:?}, tail={:?}",
        last, list.tail
    );
}

#[test]
fn list_push_pop_fifo() {
    let mut arena: Arena<Node<i32>> = Arena::new();
    let mut list = List::new();

    list.push_back(&mut arena, 1);
    list.push_back(&mut arena, 2);
    list.push_back(&mut arena, 3);

    assert_eq!(list.peek_front(&arena), Some(&1));
    assert_eq!(list.pop_front(&mut arena), Some(1));
    assert_eq!(list.pop_front(&mut arena), Some(2));
    assert_eq!(list.pop_front(&mut arena), Some(3));
    assert_eq!(list.pop_front(&mut arena), None);
    assert!(list.head.is_none());
}

#[test]
fn list_remove_middle() {
    let mut arena: Arena<Node<i32>> = Arena::new();
    let mut list = List::new();

    let _a = list.push_back(&mut arena, 10);
    let b = list.push_back(&mut arena, 20);
    let _c = list.push_back(&mut arena, 30);

    assert_eq!(list.remove(&mut arena, b), Some(20));
    assert_eq!(list.pop_front(&mut arena), Some(10));
    assert_eq!(list.pop_front(&mut arena), Some(30));
    assert!(list.head.is_none());
}

#[test]
fn list_remove_head_tail() {
    let mut arena: Arena<Node<i32>> = Arena::new();
    let mut list = List::new();

    let a = list.push_back(&mut arena, 1);
    let b = list.push_back(&mut arena, 2);

    assert_eq!(list.remove(&mut arena, a), Some(1));
    assert_eq!(list.peek_front(&arena), Some(&2));
    assert_eq!(list.peek_back(&arena), Some(&2));

    assert_eq!(list.remove(&mut arena, b), Some(2));
    assert!(list.head.is_none());
}

#[test]
fn list_push_front_pop_front_lifo() {
    let mut arena: Arena<Node<i32>> = Arena::new();
    let mut list = List::new();

    list.push_front(&mut arena, 1);
    assert_list_invariants(&list, &arena);

    list.push_front(&mut arena, 2);
    assert_list_invariants(&list, &arena);

    list.push_front(&mut arena, 3);
    assert_list_invariants(&list, &arena);

    assert_eq!(list.pop_front(&mut arena), Some(3));
    assert_list_invariants(&list, &arena);

    assert_eq!(list.pop_front(&mut arena), Some(2));
    assert_list_invariants(&list, &arena);

    assert_eq!(list.pop_front(&mut arena), Some(1));
    assert_list_invariants(&list, &arena);

    assert_eq!(list.pop_front(&mut arena), None);
    assert!(list.head.is_none() && list.tail.is_none());
}

#[test]
fn list_push_back_pop_back_lifo() {
    let mut arena: Arena<Node<i32>> = Arena::new();
    let mut list = List::new();

    list.push_back(&mut arena, 1);
    list.push_back(&mut arena, 2);
    list.push_back(&mut arena, 3);
    assert_list_invariants(&list, &arena);

    assert_eq!(list.pop_back(&mut arena), Some(3));
    assert_list_invariants(&list, &arena);

    assert_eq!(list.pop_back(&mut arena), Some(2));
    assert_list_invariants(&list, &arena);

    assert_eq!(list.pop_back(&mut arena), Some(1));
    assert_list_invariants(&list, &arena);

    assert_eq!(list.pop_back(&mut arena), None);
    assert!(list.head.is_none() && list.tail.is_none());
}

#[test]
fn list_pop_on_empty() {
    let mut arena: Arena<Node<i32>> = Arena::new();
    let mut list = List::new();

    assert_eq!(list.pop_front(&mut arena), None);
    assert_eq!(list.pop_back(&mut arena), None);
    assert_list_invariants(&list, &arena);
}

#[test]
fn list_remove_single_elem() {
    let mut arena: Arena<Node<i32>> = Arena::new();
    let mut list = List::new();

    let idx = list.push_back(&mut arena, 42);
    assert_list_invariants(&list, &arena);

    assert_eq!(list.remove(&mut arena, idx), Some(42));
    assert!(list.head.is_none() && list.tail.is_none());
    assert_list_invariants(&list, &arena);
}

#[test]
fn list_remove_head_then_tail() {
    let mut arena: Arena<Node<i32>> = Arena::new();
    let mut list = List::new();

    let a = list.push_back(&mut arena, 10);
    let _b = list.push_back(&mut arena, 20);
    let c = list.push_back(&mut arena, 30);
    assert_list_invariants(&list, &arena);

    assert_eq!(list.remove(&mut arena, a), Some(10));
    assert_list_invariants(&list, &arena);
    assert_eq!(list.peek_front(&arena), Some(&20));

    assert_eq!(list.remove(&mut arena, c), Some(30));
    assert_list_invariants(&list, &arena);
    assert_eq!(list.peek_front(&arena), Some(&20));
    assert_eq!(list.peek_back(&arena), Some(&20));
}

#[test]
fn list_remove_invalid_index_returns_none_and_keeps_list() {
    let mut arena: Arena<Node<i32>> = Arena::new();
    let mut list = List::new();

    list.push_back(&mut arena, 1);
    list.push_back(&mut arena, 2);
    assert_list_invariants(&list, &arena);

    let invalid_idx = Index::new(999_999);
    assert_eq!(list.remove(&mut arena, invalid_idx), None);
    assert_list_invariants(&list, &arena);

    assert_eq!(list.pop_front(&mut arena), Some(1));
    assert_eq!(list.pop_front(&mut arena), Some(2));
    assert_eq!(list.pop_front(&mut arena), None);
}

fn next_u32(seed: &mut u64) -> u32 {
    *seed = seed.wrapping_mul(6364136223846793005).wrapping_add(1);
    (*seed >> 32) as u32
}

#[test]
fn list_random_model_based() {
        let mut arena: Arena<Node<i32>> = Arena::new();
    let mut list = List::new();

    let mut model: VecDeque<(Index, i32)> = VecDeque::new();

    let mut seed: u64 = 0x1234_5678_9ABC_DEF0;

    for step in 0..10_000 {
        let r = next_u32(&mut seed) % 100;

        if model.is_empty() {
            let v = (next_u32(&mut seed) % 1000) as i32;
            if r < 50 {
                let idx = list.push_back(&mut arena, v);
                model.push_back((idx, v));
            } else {
                let idx = list.push_front(&mut arena, v);
                model.push_front((idx, v));
            }
            assert_list_invariants(&list, &arena);
            continue;
        }

        match r {
            0..=29 => {
                // push_back
                let v = (next_u32(&mut seed) % 1000) as i32;
                let idx = list.push_back(&mut arena, v);
                model.push_back((idx, v));
                assert_list_invariants(&list, &arena);
            }
            30..=49 => {
                // push_front
                let v = (next_u32(&mut seed) % 1000) as i32;
                let idx = list.push_front(&mut arena, v);
                model.push_front((idx, v));
                assert_list_invariants(&list, &arena);
            }
            50..=64 => {
                // pop_front
                let got = list.pop_front(&mut arena);
                let exp = model.pop_front().map(|(_, v)| v);
                assert_eq!(got, exp, "mismatch at step {} (pop_front)", step);
                assert_list_invariants(&list, &arena);
            }
            65..=79 => {
                // pop_back
                let got = list.pop_back(&mut arena);
                let exp = model.pop_back().map(|(_, v)| v);
                assert_eq!(got, exp, "mismatch at step {} (pop_back)", step);
                assert_list_invariants(&list, &arena);
            }
            _ => {
                // remove random existing element
                let k = (next_u32(&mut seed) as usize) % model.len();
                let (idx, v) = model.remove(k).unwrap();
                let got = list.remove(&mut arena, idx);
                assert_eq!(got, Some(v), "mismatch at step {} (remove)", step);
                assert_list_invariants(&list, &arena);
            }
        }

        let exp_front = model.front().map(|(_, v)| *v);
        let exp_back = model.back().map(|(_, v)| *v);

        assert_eq!(list.peek_front(&arena).copied(), exp_front);
        assert_eq!(list.peek_back(&arena).copied(), exp_back);
    }
}

fn mock_order(id: u64, price: u64) -> MakerView {
    MakerView {
        id,
        owner: ActorId { bytes: [0u8; 32] },
        side: Side::Buy,
        price: U256::from(price),
        remaining_base: U256::from(100u64),
        reserved_quote: U256::zero(),
    }
}

#[test]
fn test_push_pop() {
    let mut arena = Arena::new();
    let mut queue = List::new();

    let o1 = mock_order(1, 100);
    let o2 = mock_order(2, 100);

    let idx1 = queue.push_back(&mut arena, o1);
    let idx2 = queue.push_back(&mut arena, o2);

    assert_eq!(queue.head, Some(idx1));
    assert_eq!(queue.tail, Some(idx2));

    let popped1 = queue.pop_front(&mut arena).unwrap();
    assert_eq!(popped1.id, 1);
    assert_eq!(queue.head, Some(idx2));

    let popped2 = queue.pop_front(&mut arena).unwrap();
    assert_eq!(popped2.id, 2);
    assert!(queue.head.is_none());
    assert!(queue.tail.is_none());
}

#[test]
fn test_remove_middle() {
    let mut arena = Arena::new();
    let mut queue = List::new();

    let idx1 = queue.push_back(&mut arena, mock_order(1, 100));
    let idx2 = queue.push_back(&mut arena, mock_order(2, 100));
    let idx3 = queue.push_back(&mut arena, mock_order(3, 100));

    // Remove middle
    let removed = queue.remove(&mut arena, idx2).unwrap();
    assert_eq!(removed.id, 2);

    // Check links
    let node1 = arena.get(idx1).unwrap();
    let node3 = arena.get(idx3).unwrap();

    assert_eq!(node1.next, Some(idx3));
    assert_eq!(node3.prev, Some(idx1));

    // Head/Tail unchanged
    assert_eq!(queue.head, Some(idx1));
    assert_eq!(queue.tail, Some(idx3));
}

#[test]
fn test_remove_head() {
    let mut arena = Arena::new();
    let mut queue = List::new();

    let idx1 = queue.push_back(&mut arena, mock_order(1, 100));
    let idx2 = queue.push_back(&mut arena, mock_order(2, 100));

    let removed = queue.remove(&mut arena, idx1).unwrap();
    assert_eq!(removed.id, 1);

    assert_eq!(queue.head, Some(idx2));
    assert!(arena.get(idx2).unwrap().prev.is_none());
}

#[test]
fn test_remove_tail() {
    let mut arena = Arena::new();
    let mut queue = List::new();

    let idx1 = queue.push_back(&mut arena, mock_order(1, 100));
    let idx2 = queue.push_back(&mut arena, mock_order(2, 100));

    let removed = queue.remove(&mut arena, idx2).unwrap();
    assert_eq!(removed.id, 2);

    assert_eq!(queue.tail, Some(idx1));
    assert!(arena.get(idx1).unwrap().next.is_none());
}
