use ndshape::{abs_index, stride_offset, to_signed, to_unsigned, Axis};

#[test]
fn stride_offset_multiplies() {
    assert_eq!(stride_offset(3, 4), 12);
    assert_eq!(stride_offset(0, 4), 0);
    assert_eq!(stride_offset(5, 0), 0);
    assert_eq!(stride_offset(1, isize::MAX as usize), isize::MAX);
}

#[test]
fn stride_offset_reads_the_stride_as_signed() {
    assert_eq!(stride_offset(3, (-4isize) as usize), -12);
    assert_eq!(stride_offset(7, usize::MAX), -7);
    assert_eq!(stride_offset(1, isize::MIN as usize), isize::MIN);
}

#[test]
fn stride_offset_reads_the_count_as_signed() {
    assert_eq!(stride_offset(usize::MAX, 5), -5);
    assert_eq!(stride_offset(usize::MAX, usize::MAX), 1);
}

#[test]
fn signed_reading_of_words() {
    assert_eq!(to_signed(0), 0);
    assert_eq!(to_signed(17), 17);
    assert_eq!(to_signed(isize::MAX as usize), isize::MAX);
    assert_eq!(to_signed(isize::MAX as usize + 1), isize::MIN);
    assert_eq!(to_signed(usize::MAX), -1);
    assert_eq!(to_signed(usize::MAX - 9), -10);
}

#[test]
fn words_of_signed_numbers() {
    assert_eq!(to_unsigned(0), 0);
    assert_eq!(to_unsigned(17), 17);
    assert_eq!(to_unsigned(isize::MAX), isize::MAX as usize);
    assert_eq!(to_unsigned(isize::MIN), isize::MAX as usize + 1);
    assert_eq!(to_unsigned(-1), usize::MAX);
    assert_eq!(to_unsigned(-10), usize::MAX - 9);
}

#[test]
fn signed_and_unsigned_are_inverse() {
    for value in [isize::MIN, -77, -1, 0, 1, 77, isize::MAX] {
        assert_eq!(to_signed(to_unsigned(value)), value);
    }
    for word in [0, 1, 77, usize::MAX / 2, usize::MAX / 2 + 1, usize::MAX] {
        assert_eq!(to_unsigned(to_signed(word)), word);
    }
}

#[test]
fn abs_index_counts_negative_from_the_end() {
    assert_eq!(abs_index(10, 4), 4);
    assert_eq!(abs_index(10, 0), 0);
    assert_eq!(abs_index(10, 10), 10);
    assert_eq!(abs_index(10, -1), 9);
    assert_eq!(abs_index(10, -3), 7);
    assert_eq!(abs_index(10, -10), 0);
}

#[test]
fn abs_index_before_the_axis_is_stored_in_twos_complement() {
    assert_eq!(abs_index(10, -11), usize::MAX);
    assert_eq!(abs_index(0, -2), usize::MAX - 1);
}

#[test]
fn axis_index() {
    assert_eq!(Axis(0).axis(), 0);
    assert_eq!(Axis(4).axis(), 4);
    let axis = Axis(2);
    let copy = axis;
    assert_eq!(axis, copy);
    assert!(Axis(1) < Axis(2));
    assert!(Axis(3) >= Axis(3));
    assert_ne!(Axis(0), Axis(1));
    assert_eq!(format!("{:?}", Axis(5)), "Axis(5)");
}
