use sbox_hasher::hasher_single;
use std::cell::{Cell, RefCell};

fn add(a: &i32, b: &i32) -> i32 {
    a + b
}

#[test]
fn it_works() {
    assert_eq!(4, 4);
}

#[test]
fn three_slots_four_inputs_added() {
    let mut sbox = [0, 0, 0];
    let inp = [1, 2, 3, 4];
    hasher_single(inp.iter(), &mut sbox, add);
    assert_eq!(sbox, [5, 2, 3]);
}

#[test]
fn one_slot_takes_every_input() {
    let mut sbox = [0];
    let inp = [1, 2, 3];
    hasher_single(inp.iter(), &mut sbox, add);
    assert_eq!(sbox, [6]);
}

#[test]
fn no_input_leaves_four_slots_unchanged() {
    let mut sbox = [7, -1, 0, 42];
    let inp: [i32; 0] = [];
    hasher_single(inp.iter(), &mut sbox, add);
    assert_eq!(sbox, [7, -1, 0, 42]);
}

#[test]
fn empty_buffer_is_left_alone() {
    let mut sbox: [i32; 0] = [];
    let inp = [1, 2, 3];
    let calls = Cell::new(0usize);
    hasher_single(inp.iter(), &mut sbox, |a: &i32, b: &i32| {
        calls.set(calls.get() + 1);
        a + b
    });
    assert_eq!(sbox.len(), 0);
    assert_eq!(calls.get(), 0);
}

#[test]
fn empty_buffer_returns_on_endless_input() {
    let mut sbox: Vec<u8> = Vec::new();
    let one = 1u8;
    hasher_single(std::iter::repeat(&one), &mut sbox, |a: &u8, b: &u8| a ^ b);
    assert!(sbox.is_empty());
}

#[test]
fn empty_buffer_takes_nothing_from_the_input() {
    let mut sbox: [u32; 0] = [];
    let inp = [10u32, 20, 30];
    let mut it = inp.iter();
    hasher_single(&mut it, &mut sbox, |a: &u32, b: &u32| a + b);
    assert_eq!(it.next(), Some(&10));
}

#[test]
fn whole_rounds_reach_every_slot_equally_often_and_in_order() {
    // 3 slots, 4 rounds: slot j gets inputs j, j + 3, j + 6, j + 9
    let mut sbox: [Vec<usize>; 3] = [vec![], vec![], vec![]];
    let inp: Vec<Vec<usize>> = (0..12).map(|k| vec![k]).collect();
    hasher_single(inp.iter(), &mut sbox, |a: &Vec<usize>, b: &Vec<usize>| {
        let mut joined = a.clone();
        joined.extend(b.iter().copied());
        joined
    });
    assert_eq!(sbox[0], vec![0, 3, 6, 9]);
    assert_eq!(sbox[1], vec![1, 4, 7, 10]);
    assert_eq!(sbox[2], vec![2, 5, 8, 11]);
}

#[test]
fn a_last_round_may_be_short() {
    // 5 inputs over 3 slots: the first 5 % 3 = 2 slots get one input more
    let mut sbox = [100, 200, 300];
    let inp = [1, 2, 3, 4, 5];
    hasher_single(inp.iter(), &mut sbox, add);
    assert_eq!(sbox, [100 + 1 + 4, 200 + 2 + 5, 300 + 3]);
}

#[test]
fn fewer_inputs_than_slots_leave_the_later_slots_alone() {
    let mut sbox = [10, 20, 30, 40];
    let inp = [1, 2];
    hasher_single(inp.iter(), &mut sbox, add);
    assert_eq!(sbox, [11, 22, 30, 40]);
}

#[test]
fn order_of_the_inputs_matters() {
    let sub = |a: &i32, b: &i32| a - b;
    let mut first = [0, 0];
    let ab = [1, 2];
    hasher_single(ab.iter(), &mut first, sub);
    let mut second = [0, 0];
    let ba = [2, 1];
    hasher_single(ba.iter(), &mut second, sub);
    assert_eq!(first, [-1, -2]);
    assert_eq!(second, [-2, -1]);
    assert_ne!(first, second);
}

#[test]
fn order_matters_even_for_a_commutative_operation() {
    let mut first = [0, 0];
    let ab = [1, 2];
    hasher_single(ab.iter(), &mut first, add);
    let mut second = [0, 0];
    let ba = [2, 1];
    hasher_single(ba.iter(), &mut second, add);
    assert_eq!(first, [1, 2]);
    assert_eq!(second, [2, 1]);
}

#[test]
fn slot_value_is_the_first_operand_and_input_the_second() {
    let mut sbox = [1i64];
    let inp = [2i64, 3];
    hasher_single(inp.iter(), &mut sbox, |state: &i64, x: &i64| state * 10 + x);
    assert_eq!(sbox, [123]);

    let mut sbox = [8i64, 9];
    let inp = [1i64, 2, 3];
    hasher_single(inp.iter(), &mut sbox, |state: &i64, x: &i64| state - 2 * x);
    assert_eq!(sbox, [8 - 2 - 6, 9 - 4]);
}

#[test]
fn same_inputs_same_buffer_same_result() {
    let mix = |a: &u32, b: &u32| a.rotate_left(5) ^ b.wrapping_mul(0x9e37_79b9);
    let inp: Vec<u32> = (1..=50).collect();
    let mut first = [3u32, 1, 4, 1, 5, 9, 2];
    let mut second = first;
    hasher_single(inp.iter(), &mut first, mix);
    hasher_single(inp.iter(), &mut second, mix);
    assert_eq!(first, second);
}

#[test]
fn result_matches_a_slot_by_slot_fold() {
    let mix = |a: &u32, b: &u32| a.rotate_left(5) ^ b.wrapping_mul(0x9e37_79b9);
    let inp: Vec<u32> = (1..=50).collect();
    let start = [3u32, 1, 4, 1, 5, 9, 2];
    let mut sbox = start;
    hasher_single(inp.iter(), &mut sbox, mix);
    for j in 0..start.len() {
        let lane = inp.iter().skip(j).step_by(start.len());
        let expected = lane.fold(start[j], |acc, x| mix(&acc, x));
        assert_eq!(sbox[j], expected);
    }
}

#[test]
fn every_input_is_used_exactly_once() {
    let inp = [11u64, 22, 33, 44];
    for slots in [1usize, 3, 4, 10] {
        let seen: RefCell<Vec<u64>> = RefCell::new(Vec::new());
        let mut sbox = vec![0u64; slots];
        hasher_single(inp.iter(), &mut sbox, |a: &u64, b: &u64| {
            seen.borrow_mut().push(*b);
            a + b
        });
        assert_eq!(*seen.borrow(), vec![11, 22, 33, 44]);
        assert_eq!(sbox.iter().sum::<u64>(), 110);
    }
}

#[test]
fn each_call_sees_the_slot_as_the_fold_left_it() {
    let inp = [1u8, 2, 3, 4, 5];
    let firsts: RefCell<Vec<u8>> = RefCell::new(Vec::new());
    let mut sbox = [10u8, 20];
    hasher_single(inp.iter(), &mut sbox, |a: &u8, b: &u8| {
        firsts.borrow_mut().push(*a);
        a + b
    });
    // slots in turn: 0, 1, 0, 1, 0
    assert_eq!(*firsts.borrow(), vec![10, 20, 11, 22, 14]);
    assert_eq!(sbox, [19, 26]);
}

#[test]
fn folding_in_two_passes_restarts_at_slot_zero() {
    let mut sbox = [0, 0, 0];
    let head = [1, 2];
    let tail = [3, 4];
    hasher_single(head.iter(), &mut sbox, add);
    hasher_single(tail.iter(), &mut sbox, add);
    assert_eq!(sbox, [1 + 3, 2 + 4, 0]);
}

#[test]
fn works_on_values_that_are_not_copied() {
    let mut sbox = [String::from("a"), String::from("b")];
    let inp = [String::from("1"), String::from("2"), String::from("3")];
    hasher_single(inp.iter(), &mut sbox, |a: &String, b: &String| format!("{a}{b}"));
    assert_eq!(sbox, [String::from("a13"), String::from("b2")]);
}
