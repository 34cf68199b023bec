use ndrange::{into_iter_from_state, Coord, IterState, NdRange, Range2, Range3};

fn range3(start: [usize; 3], end: [usize; 3]) -> Range3 {
    NdRange::new(Coord::new(start), Coord::new(end))
}

fn sample() -> Vec<Range3> {
    vec![
        range3([1, 2, 3], [5, 4, 6]),
        range3([0, 0, 0], [3, 2, 4]),
        range3([0, 3, 8], [4, 5, 12]),
        range3([7, 0, 1], [8, 1, 2]),
        range3([2, 2, 2], [2, 5, 5]),
        range3([0, 0, 0], [6, 1, 1]),
        range3([0, 0, 0], [1, 1, 6]),
    ]
}

fn forward(range: Range3) -> Vec<Coord<3>> {
    range.into_iter().collect()
}

#[test]
fn length_is_the_product_of_the_extents() {
    for range in sample() {
        let mut product = 1;
        for i in 0..3 {
            product *= range.end.get(i) - range.start.get(i);
        }
        assert_eq!(range.len(), product);
    }
    assert_eq!(range3([2, 2, 2], [2, 5, 5]).len(), 0);
    assert_eq!(range3([1, 2, 3], [5, 4, 6]).len(), 24);
}

#[test]
fn full_traversal_visits_each_position_once() {
    for range in sample() {
        let all = forward(range);
        assert_eq!(all.len(), range.len());
        for (k, p) in all.iter().enumerate() {
            for i in 0..3 {
                assert!(range.start.get(i) <= p.get(i) && p.get(i) < range.end.get(i));
            }
            assert!(!all[..k].contains(p));
        }
    }
}

#[test]
fn rank_three_example() {
    let range = range3([1, 2, 3], [5, 4, 6]);
    assert_eq!(range.len(), 24);
    let all = forward(range);
    assert_eq!(all[0], Coord::new([1, 2, 3]));
    assert_eq!(all[1], Coord::new([1, 2, 4]));
    assert_eq!(all[2], Coord::new([1, 2, 5]));
    assert_eq!(all[3], Coord::new([1, 3, 3]));
    assert_eq!(all[23], Coord::new([4, 3, 5]));
    let mut backward = range.into_iter().collect_rev();
    backward.reverse();
    assert_eq!(all, backward);
}

#[test]
fn forward_is_the_reverse_of_backward() {
    for range in sample() {
        let mut backward = range.into_iter().collect_rev();
        backward.reverse();
        assert_eq!(forward(range), backward);
    }
}

#[test]
fn interleaved_steps_visit_each_position_once() {
    for range in sample() {
        let len = range.len();
        for pattern in 0..8usize {
            let mut iter = range.into_iter();
            let mut front = Vec::new();
            let mut back = Vec::new();
            let mut step = 0;
            loop {
                let forward_step = (pattern >> (step % 3)) & 1 == 1;
                let yielded = if forward_step { iter.next() } else { iter.next_back() };
                match yielded {
                    Some(p) if forward_step => front.push(p),
                    Some(p) => back.push(p),
                    None => break,
                }
                step += 1;
                assert_eq!(iter.len(), len - step);
            }
            assert_eq!(step, len);
            back.reverse();
            front.extend(back);
            assert_eq!(front, forward(range));
        }
    }
}

#[test]
fn split_then_join_is_the_whole() {
    for range in sample() {
        let len = range.len();
        if len == 0 {
            continue;
        }
        for index in 0..=len {
            let (left, right) = IterState::from_range(range).split_at(index);
            let mut joined = into_iter_from_state(left).collect();
            joined.extend(into_iter_from_state(right).collect());
            assert_eq!(joined, forward(range));
        }
    }
}

fn leaves(state: IterState<3>, depth: usize, out: &mut Vec<Coord<3>>) {
    if depth == 0 || state.len == 0 {
        out.extend(into_iter_from_state(state).collect());
    } else {
        let index = (state.len * (depth + 1)) / 7 % (state.len + 1);
        let (left, right) = state.split_at(index);
        leaves(left, depth - 1, out);
        leaves(right, depth - 1, out);
    }
}

#[test]
fn recursive_split_then_join_is_the_whole() {
    for range in sample() {
        for depth in 0..5 {
            let mut joined = Vec::new();
            leaves(IterState::from_range(range), depth, &mut joined);
            assert_eq!(joined, forward(range));
        }
    }
}

#[test]
fn at_is_what_forward_stepping_reaches() {
    for range in sample() {
        if range.len() == 0 {
            continue;
        }
        let state = IterState::from_range(range);
        let mut stepped = IterState::from_range(range);
        for index in 0..range.len() {
            assert_eq!(state.at(index), stepped.head);
            stepped.increment();
        }
    }
}

#[test]
fn rank_two_example() {
    let mut iter = Range2::new(Coord::new([7, 1]), Coord::new([9, 4])).into_iter();
    assert_eq!(iter.len(), 6);
    assert!(iter.next().is_some());
    assert_eq!(iter.len(), 5);
    assert_eq!(iter.next(), Some(Coord::new([7, 2])));
    assert_eq!(iter.next(), Some(Coord::new([7, 3])));
    assert_eq!(iter.next_back(), Some(Coord::new([8, 3])));
}

#[test]
fn split_example() {
    let state = IterState::from_range(range3([0, 3, 8], [4, 5, 12]));
    assert_eq!(state.len, 32);
    let tail = state.tail;
    let (left, right) = state.split_at(3);
    assert_eq!(left.len, 3);
    assert_eq!(left.head, Coord::new([0, 3, 8]));
    assert_eq!(left.tail, Coord::new([0, 3, 11]));
    assert_eq!(right.len, 29);
    assert_eq!(right.head, Coord::new([0, 3, 11]));
    assert_eq!(right.tail, tail);
}

fn nested_loops(range: Range3) -> Vec<Coord<3>> {
    let mut all = Vec::new();
    for a in range.start.get(0)..range.end.get(0) {
        for b in range.start.get(1)..range.end.get(1) {
            for c in range.start.get(2)..range.end.get(2) {
                all.push(Coord::new([a, b, c]));
            }
        }
    }
    all
}

fn small_ranges() -> Vec<Range3> {
    let mut ranges = Vec::new();
    for s in 0..27usize {
        for e in 0..27usize {
            let start = [s / 9, s / 3 % 3, s % 3];
            let extent = [e / 9, e / 3 % 3, e % 3];
            let end = [start[0] + extent[0], start[1] + extent[1], start[2] + extent[2]];
            ranges.push(range3(start, end));
        }
    }
    ranges
}

#[test]
fn every_small_range_is_traversed_like_nested_loops() {
    for range in small_ranges() {
        let expected = nested_loops(range);
        assert_eq!(range.len(), expected.len());
        assert_eq!(range.checked_len(), Some(expected.len()));
        assert_eq!(forward(range), expected);
        let mut backward = range.into_iter().collect_rev();
        backward.reverse();
        assert_eq!(backward, expected);
    }
}

#[test]
fn every_small_range_splits_and_indexes_like_nested_loops() {
    for range in small_ranges() {
        let expected = nested_loops(range);
        if expected.is_empty() {
            continue;
        }
        let state = IterState::from_range(range);
        for (index, p) in expected.iter().enumerate() {
            assert_eq!(state.at(index), *p);
        }
        for index in 0..=expected.len() {
            let (left, right) = state.clone().split_at(index);
            assert_eq!(into_iter_from_state(left.clone()).collect(), expected[..index]);
            assert_eq!(into_iter_from_state(right.clone()).collect(), expected[index..]);
            let mut left_back = into_iter_from_state(left).collect_rev();
            left_back.reverse();
            assert_eq!(left_back, expected[..index]);
            let mut right_back = into_iter_from_state(right).collect_rev();
            right_back.reverse();
            assert_eq!(right_back, expected[index..]);
        }
    }
}
