use run_length_encode::{IteratorExt, RunLengthEncode};
use std::collections::VecDeque;

#[derive(Debug)]
struct Item {
    a: usize,
    b: usize,
}

impl PartialEq for Item {
    fn eq(&self, other: &Self) -> bool {
        self.a.eq(&other.a)
    }
}

impl Eq for Item {}

fn chars(s: &str) -> Vec<char> {
    s.chars().collect()
}

fn items() -> Vec<Item> {
    let mut items: Vec<Item> = Vec::with_capacity(100);
    for i in 0..100 {
        let item = Item {
            a: i / 10,
            b: i % 10,
        };
        items.push(item);
    }
    items
}

fn alternate(mut rle: RunLengthEncode<char>, mut forward: bool) -> Vec<(usize, char)> {
    let mut observed = Vec::new();
    loop {
        let next = if forward { rle.next() } else { rle.next_back() };
        forward = !forward;
        match next {
            None => break,
            Some(x) => observed.push(x),
        };
    }
    observed
}

#[test]
fn returns_none_on_empty_source() {
    let mut rle = chars("").run_length_encode();
    assert!(rle.next().is_none());
}

#[test]
fn counts_chars_in_sorted_str() {
    let observed = chars("122333444455555").run_length_encode().collect_vec();
    let expected = vec![(1, '1'), (2, '2'), (3, '3'), (4, '4'), (5, '5')];
    assert_eq!(observed, expected);
}

#[test]
fn counts_chars_in_unsorted_str() {
    let observed = chars("501hexdead").run_length_encode().collect_vec();
    let expected = vec![
        (1, '5'),
        (1, '0'),
        (1, '1'),
        (1, 'h'),
        (1, 'e'),
        (1, 'x'),
        (1, 'd'),
        (1, 'e'),
        (1, 'a'),
        (1, 'd'),
    ];
    assert_eq!(observed, expected);
}

#[test]
fn extra_calls_continue_to_yield_none() {
    let mut observed = chars("5").run_length_encode();
    for i in 0..100 {
        if i == 0 {
            assert!(observed.next().is_some());
        } else {
            assert!(observed.next().is_none());
        }
    }
}

#[test]
fn can_encode_backwards() {
    let reversed: Vec<char> = "122333444455555".chars().rev().collect();
    let observed = reversed.run_length_encode().collect_vec();
    let mut expected = vec![(1, '1'), (2, '2'), (3, '3'), (4, '4'), (5, '5')];
    expected.reverse();
    assert_eq!(observed, expected);
}

#[test]
fn can_encode_forwards_and_backwards_alternating_starting_forward() {
    let observed = alternate(chars("122333444455555").run_length_encode(), true);
    let expected = vec![(1, '1'), (5, '5'), (2, '2'), (4, '4'), (3, '3')];
    assert_eq!(observed, expected);
}

#[test]
fn can_encode_forwards_and_backwards_alternating_starting_backward() {
    let observed = alternate(chars("122333444455555").run_length_encode(), false);
    let expected = vec![(5, '5'), (1, '1'), (4, '4'), (2, '2'), (3, '3')];
    assert_eq!(observed, expected);
}

#[test]
#[allow(non_snake_case)]
fn iterate_forwards_T_is_first_in_subsequence() {
    for (_, item) in items().run_length_encode().collect_vec() {
        assert_eq!(item.b, 0);
    }
}

#[test]
#[allow(non_snake_case)]
fn iterate_backwards_T_is_last_in_subsequence() {
    for (_, item) in items().run_length_encode().collect_vec_rev() {
        assert_eq!(item.b, 9);
    }
}

#[test]
#[allow(non_snake_case)]
fn iterate_alternating_forwards_backwards_T_alternates_first_last_in_subsequence() {
    let mut rle = items().run_length_encode();
    let mut forward = true;
    loop {
        let item = if forward { rle.next() } else { rle.next_back() };
        match item {
            Some((_, item)) => {
                let expected = if forward { 0 } else { 9 };
                assert_eq!(item.b, expected);
            }
            None => break,
        };
        forward = !forward;
    }
}

#[test]
fn can_fold() {
    let rle = chars("122333444455555").run_length_encode();
    let expected = 15;
    let observed = rle.collect_vec().iter().fold(0, |acc, item| acc + item.0);
    assert_eq!(expected, observed);
}

#[test]
fn longest_subsequence() {
    let rle = chars("1223336666666666444455555").run_length_encode();
    let expected = Some((10, '6'));
    let observed = rle.collect_vec().into_iter().max_by_key(|item| item.0);
    assert_eq!(expected, observed);
}

#[test]
fn back_drain_reverses_runs() {
    let observed = chars("122333444455555").run_length_encode().collect_vec_rev();
    let expected = vec![(5, '5'), (4, '4'), (3, '3'), (2, '2'), (1, '1')];
    assert_eq!(observed, expected);
}

#[test]
fn exhaustion_is_final_on_both_ends() {
    let mut rle = chars("aab").run_length_encode();
    assert_eq!(rle.next_back(), Some((1, 'b')));
    assert_eq!(rle.next(), Some((2, 'a')));
    for _ in 0..10 {
        assert_eq!(rle.next(), None);
        assert_eq!(rle.next_back(), None);
    }
}

#[test]
fn counts_add_up_to_length() {
    let s = "1223336666666666444455555";
    let front: usize = chars(s).run_length_encode().collect_vec().iter().map(|p| p.0).sum();
    let back: usize = chars(s).run_length_encode().collect_vec_rev().iter().map(|p| p.0).sum();
    assert_eq!(front, s.len());
    assert_eq!(back, s.len());
}

#[test]
fn interleaved_drain_reports_each_run_once() {
    let mut rle = chars("aabbbcdd").run_length_encode();
    let mut observed = Vec::new();
    for forward in [false, true, true, false, true, false, true] {
        let next = if forward { rle.next() } else { rle.next_back() };
        if let Some(p) = next {
            observed.push(p);
        }
    }
    assert_eq!(observed, vec![(2, 'd'), (2, 'a'), (3, 'b'), (1, 'c')]);
    assert_eq!(observed.iter().map(|p| p.0).sum::<usize>(), 8);
}

#[test]
fn both_ends_meet_inside_one_run() {
    let mut rle = chars("xaaaay").run_length_encode();
    assert_eq!(rle.next(), Some((1, 'x')));
    assert_eq!(rle.next_back(), Some((1, 'y')));
    assert_eq!(rle.next(), Some((4, 'a')));
    assert_eq!(rle.next_back(), None);
}

#[test]
fn meeting_run_takes_calling_side_element() {
    let source = vec![
        Item { a: 0, b: 1 },
        Item { a: 1, b: 2 },
        Item { a: 1, b: 3 },
        Item { a: 1, b: 4 },
        Item { a: 2, b: 5 },
    ];
    let mut rle = source.run_length_encode();
    assert_eq!(rle.next().map(|(c, i)| (c, i.b)), Some((1, 1)));
    assert_eq!(rle.next_back().map(|(c, i)| (c, i.b)), Some((1, 5)));
    assert_eq!(rle.next_back().map(|(c, i)| (c, i.b)), Some((3, 4)));
    assert!(rle.next().is_none());
}

#[test]
fn single_element_then_other_end_is_empty() {
    let mut rle = chars("z").run_length_encode();
    assert_eq!(rle.next_back(), Some((1, 'z')));
    assert_eq!(rle.next(), None);
}

#[test]
fn size_hint_bounds_remaining_runs() {
    let rle = chars("aabbb").run_length_encode();
    let (lower, upper) = rle.size_hint();
    assert_eq!(lower, 1);
    assert_eq!(upper, Some(5));
    let empty = chars("").run_length_encode();
    assert_eq!(empty.size_hint(), (0, Some(0)));
}

#[test]
fn encodes_a_deque_source() {
    let source: VecDeque<u32> = vec![7, 7, 8].into_iter().collect();
    let observed = RunLengthEncode::new(source).collect_vec();
    assert_eq!(observed, vec![(2, 7), (1, 8)]);
}
