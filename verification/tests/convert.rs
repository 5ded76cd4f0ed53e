use ndshape::{Dim, Dimension, IntoDimension, Ix0, Ix1, Ix2, Ix3, Ix4, Ix5, IxDyn};

#[test]
fn shapes_from_integers_and_tuples() {
    assert_eq!(Dim(()), Ix0());
    assert_eq!(Dim(7), Ix1(7));
    assert_eq!(Dim((7,)), Ix1(7));
    assert_eq!(Dim((7, 8)), Ix2(7, 8));
    assert_eq!(Dim((7, 8, 9)), Ix3(7, 8, 9));
    assert_eq!(Dim((7, 8, 9, 10)), Ix4(7, 8, 9, 10));
    assert_eq!(Dim((7, 8, 9, 10, 11)), Ix5(7, 8, 9, 10, 11));
}

#[test]
fn shapes_from_arrays() {
    assert_eq!(Dim([0usize; 0]), Ix0());
    assert_eq!(Dim([7]), Ix1(7));
    assert_eq!(Dim([7, 8]), Ix2(7, 8));
    assert_eq!(Dim([7, 8, 9]), Ix3(7, 8, 9));
    assert_eq!(Dim([7, 8, 9, 10]), Ix4(7, 8, 9, 10));
    assert_eq!(Dim([7, 8, 9, 10, 11]), Ix5(7, 8, 9, 10, 11));
    assert_eq!(Dim::new([7, 8]), Ix2(7, 8));
}

#[test]
fn shapes_from_sequences() {
    assert_eq!(Dim(vec![7, 8, 9]), IxDyn(&[7, 8, 9]));
    let words: &[usize] = &[1, 2, 3, 4, 5, 6];
    assert_eq!(Dim(words), IxDyn(&[1, 2, 3, 4, 5, 6]));
    assert_eq!(Dim(Vec::<usize>::new()), IxDyn(&[]));
    assert_eq!(Dim::new(vec![7usize, 8]), IxDyn(&[7, 8]));
}

#[test]
fn shapes_convert_into_themselves() {
    assert_eq!(Ix3(7, 8, 9).into_dimension(), Ix3(7, 8, 9));
    assert_eq!(Dim(Ix2(7, 8)), Ix2(7, 8));
    assert_eq!(IxDyn(&[7, 8]).into_dimension(), IxDyn(&[7, 8]));
    assert_eq!(5usize.into_dimension(), Ix1(5));
    assert_eq!((5, 6).into_dimension(), Ix2(5, 6));
}

#[test]
fn patterns_of_shapes() {
    assert_eq!(Ix0().into_pattern(), ());
    assert_eq!(Ix1(7).into_pattern(), 7);
    assert_eq!(Ix2(7, 8).into_pattern(), (7, 8));
    assert_eq!(Ix3(7, 8, 9).into_pattern(), (7, 8, 9));
    assert_eq!(Ix4(7, 8, 9, 10).into_pattern(), (7, 8, 9, 10));
    assert_eq!(Ix5(7, 8, 9, 10, 11).into_pattern(), (7, 8, 9, 10, 11));
    assert_eq!(IxDyn(&[7, 8]).into_pattern(), IxDyn(&[7, 8]));
}

#[test]
fn pattern_and_shape_round_trip() {
    assert_eq!(Dim(Ix3(7, 8, 9).into_pattern()), Ix3(7, 8, 9));
    assert_eq!(Dim((1, 2, 3, 4)).into_pattern(), (1, 2, 3, 4));
    assert_eq!(Dim(Ix1(3).into_pattern()), Ix1(3));
}
