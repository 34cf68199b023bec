use ndarray::{Dim, Dimension, IntoDimension};
use ndrange::{Coord, NdRange, Range1, Range2, Range3, Range5};

fn coord3(t: (usize, usize, usize)) -> Coord<3> {
    let d = t.into_dimension();
    Coord::new([d[0], d[1], d[2]])
}

fn range3(start: (usize, usize, usize), end: (usize, usize, usize)) -> Range3 {
    NdRange::new(coord3(start), coord3(end))
}

#[test]
fn types_len() {
    assert_eq!(range3((0, 0, 0), (1, 1, 1)).len(), 1);
    assert_eq!(range3((0, 0, 0), (1, 1, 5)).len(), 5);
    assert_eq!(range3((0, 0, 0), (1, 5, 1)).len(), 5);
    assert_eq!(range3((0, 0, 0), (5, 1, 1)).len(), 5);
    assert_eq!(range3((1, 1, 1), (5, 2, 3)).len(), 8);
    assert_eq!(range3((5, 6, 7), (10, 10, 10)).len(), 5 * 4 * 3);
    assert_eq!(range3((100, 10, 100), (102, 19, 133)).len(), 2 * 9 * 33);
}

#[test]
fn new_keeps_both_bounds() {
    let r = range3((1, 2, 3), (5, 4, 6));
    assert_eq!(r.start, Coord::new([1, 2, 3]));
    assert_eq!(r.end, Coord::new([5, 4, 6]));
}

#[test]
fn len_is_zero_on_an_empty_axis() {
    assert_eq!(range3((0, 0, 0), (0, 4, 4)).len(), 0);
    assert_eq!(range3((0, 0, 0), (4, 0, 4)).len(), 0);
    assert_eq!(range3((0, 0, 0), (4, 4, 0)).len(), 0);
    assert_eq!(range3((3, 7, 9), (3, 7, 9)).len(), 0);
    assert_eq!(Range1::new(Coord::new([5]), Coord::new([5])).len(), 0);
}

#[test]
fn len_of_other_ranks() {
    assert_eq!(Range1::new(Coord::new([3]), Coord::new([10])).len(), 7);
    assert_eq!(Range2::new(Coord::new([7, 1]), Coord::new([9, 4])).len(), 6);
    let r = Range5::new(Coord::new([0, 1, 2, 3, 4]), Coord::new([2, 4, 6, 8, 10]));
    assert_eq!(r.len(), 2 * 3 * 4 * 5 * 6);
}

#[test]
fn len_agrees_with_ndarray() {
    let cases = [
        ((0, 0, 0), (1, 1, 1)),
        ((1, 1, 1), (5, 2, 3)),
        ((5, 6, 7), (10, 10, 10)),
        ((100, 10, 100), (102, 19, 133)),
        ((4, 4, 4), (4, 9, 9)),
    ];
    for (s, e) in cases {
        let expected = (e.into_dimension() - s.into_dimension()).size();
        assert_eq!(range3(s, e).len(), expected);
        assert_eq!(range3(s, e).checked_len(), Some(expected));
    }
}

#[test]
fn checked_len_of_valid_ranges() {
    assert_eq!(range3((1, 1, 1), (5, 2, 3)).checked_len(), Some(8));
    assert_eq!(range3((1, 1, 1), (1, 2, 3)).checked_len(), Some(0));
    let max = usize::MAX;
    assert_eq!(Range1::new(Coord::new([0]), Coord::new([max])).checked_len(), Some(max));
}

#[test]
fn checked_len_refuses_start_beyond_end() {
    assert_eq!(range3((2, 0, 0), (1, 5, 5)).checked_len(), None);
    assert_eq!(range3((0, 6, 0), (5, 5, 5)).checked_len(), None);
    assert_eq!(range3((0, 0, 9), (5, 5, 5)).checked_len(), None);
}

#[test]
fn checked_len_refuses_a_length_beyond_usize() {
    let max = usize::MAX;
    assert_eq!(range3((0, 0, 0), (max, 2, 1)).checked_len(), None);
    assert_eq!(range3((0, 0, 0), (2, 1, max)).checked_len(), None);
    assert_eq!(range3((0, 0, 0), (max, max, max)).checked_len(), None);
}

#[test]
fn checked_len_is_zero_whatever_the_other_axes() {
    let max = usize::MAX;
    assert_eq!(range3((0, 0, 0), (max, max, 0)).checked_len(), Some(0));
    assert_eq!(range3((0, 0, 0), (0, max, max)).checked_len(), Some(0));
    assert_eq!(range3((0, 0, 0), (max, max, 0)).len(), 0);
}

#[test]
fn coord_get_set_and_ndim() {
    let mut c = Coord::new([4, 5, 6]);
    assert_eq!(c.ndim(), 3);
    assert_eq!(c.get(0), 4);
    assert_eq!(c.get(2), 6);
    c.set(1, 9);
    assert_eq!(c, Coord::new([4, 9, 6]));
    assert_eq!(c.axes, [4, 9, 6]);
}

#[test]
fn coord_le_compares_every_axis() {
    let a = Coord::new([1, 2, 3]);
    assert!(a.le(&Coord::new([1, 2, 3])));
    assert!(a.le(&Coord::new([2, 2, 4])));
    assert!(!a.le(&Coord::new([0, 9, 9])));
    assert!(!a.le(&Coord::new([9, 9, 2])));
}

#[test]
fn coord_sub_and_size() {
    let d = Coord::new([10, 10, 10]).sub(&Coord::new([5, 6, 7]));
    assert_eq!(d, Coord::new([5, 4, 3]));
    assert_eq!(d.size(), 60);
    assert_eq!(d.checked_size(), Some(60));
    assert_eq!(Coord::new([3, 0, 7]).size(), 0);
    assert_eq!(Coord::<0>::new([]).size(), 1);
    assert_eq!(Coord::new([usize::MAX, 2]).checked_size(), None);
}

#[test]
fn coord_sub_and_size_agree_with_ndarray() {
    let a = [10usize, 19, 133, 7];
    let b = [5usize, 10, 100, 7];
    let expected = Dim(a) - Dim(b);
    let d = Coord::new(a).sub(&Coord::new(b));
    assert_eq!(&d.axes[..], expected.slice());
    assert_eq!(d.size(), expected.size());
    assert_eq!(Coord::new(a).size(), Dim(a).size());
}
