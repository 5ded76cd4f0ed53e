use ndshape::slicing::step_size;
use ndshape::{do_sub, slices_applicable, Dimension, Ix1, Ix2, Ix3, Ix4, IxDyn, Si};

#[test]
fn full_ranges_change_nothing() {
    let mut dim = Ix1(7);
    let mut strides = Ix1(3);
    assert_eq!(Ix1::do_slices(&mut dim, &mut strides, &[Si(0, None, 1)]), 0);
    assert_eq!((dim, strides), (Ix1(7), Ix1(3)));

    let mut dim = Ix2(4, 5);
    let mut strides = Ix2(5, 1);
    let slices = [Si(0, Some(4), 1), Si(0, None, 1)];
    assert_eq!(Ix2::do_slices(&mut dim, &mut strides, &slices), 0);
    assert_eq!((dim, strides), (Ix2(4, 5), Ix2(5, 1)));

    let mut dim = Ix4(4, 0, 1, 6);
    let mut strides = Ix4(1, 24, (-4isize) as usize, 4);
    let slices = [Si(0, None, 1), Si(0, Some(0), 1), Si(0, Some(1), 1), Si(0, Some(6), 1)];
    assert_eq!(Ix4::do_slices(&mut dim, &mut strides, &slices), 0);
    assert_eq!((dim, strides), (Ix4(4, 0, 1, 6), Ix4(1, 24, (-4isize) as usize, 4)));

    let mut dim = IxDyn(&[2, 3, 4, 5, 6, 7]);
    let mut strides = dim.default_strides();
    let slices = vec![Si(0, None, 1); 6];
    assert_eq!(IxDyn::do_slices(&mut dim, &mut strides, &slices), 0);
    assert_eq!(dim, IxDyn(&[2, 3, 4, 5, 6, 7]));
    assert_eq!(strides, IxDyn(&[2520, 840, 210, 42, 7, 1]));
}

#[test]
fn slices_narrow_and_displace() {
    let mut dim = Ix2(4, 5);
    let mut strides = Ix2(5, 1);
    let slices = [Si(1, Some(3), 1), Si(2, None, 1)];
    assert_eq!(Ix2::do_slices(&mut dim, &mut strides, &slices), 7);
    assert_eq!((dim, strides), (Ix2(2, 3), Ix2(5, 1)));
}

#[test]
fn slices_step_rounds_the_extent_up() {
    let mut dim = Ix3(10, 10, 10);
    let mut strides = Ix3(100, 10, 1);
    let slices = [Si(0, None, 2), Si(0, None, 3), Si(1, Some(9), 4)];
    assert_eq!(Ix3::do_slices(&mut dim, &mut strides, &slices), 1);
    assert_eq!((dim, strides), (Ix3(5, 4, 2), Ix3(200, 30, 4)));
}

#[test]
fn slices_count_negative_bounds_from_the_end() {
    let mut dim = Ix1(10);
    let mut strides = Ix1(2);
    assert_eq!(Ix1::do_slices(&mut dim, &mut strides, &[Si(-3, None, 1)]), 14);
    assert_eq!((dim, strides), (Ix1(3), Ix1(2)));

    let mut dim = Ix1(10);
    let mut strides = Ix1(1);
    assert_eq!(Ix1::do_slices(&mut dim, &mut strides, &[Si(2, Some(-2), 1)]), 2);
    assert_eq!((dim, strides), (Ix1(6), Ix1(1)));

    let mut dim = Ix1(10);
    let mut strides = Ix1(1);
    assert_eq!(Ix1::do_slices(&mut dim, &mut strides, &[Si(-10, Some(-9), 1)]), 0);
    assert_eq!((dim, strides), (Ix1(1), Ix1(1)));
}

#[test]
fn slices_raise_the_end_to_the_start() {
    let mut dim = Ix1(10);
    let mut strides = Ix1(3);
    assert_eq!(Ix1::do_slices(&mut dim, &mut strides, &[Si(5, Some(2), 1)]), 15);
    assert_eq!((dim, strides), (Ix1(0), Ix1(3)));

    let mut dim = Ix1(10);
    let mut strides = Ix1(3);
    assert_eq!(Ix1::do_slices(&mut dim, &mut strides, &[Si(10, None, 1)]), 30);
    assert_eq!((dim, strides), (Ix1(0), Ix1(3)));
}

#[test]
fn slices_with_step_minus_one_reverse_the_axis() {
    let mut dim = Ix1(5);
    let mut strides = Ix1(1);
    assert_eq!(Ix1::do_slices(&mut dim, &mut strides, &[Si(0, None, -1)]), 4);
    assert_eq!((dim, strides), (Ix1(5), Ix1(usize::MAX)));

    let mut dim = Ix2(3, 4);
    let mut strides = Ix2(4, 1);
    let slices = [Si(1, None, -1), Si(0, Some(3), -1)];
    // 1 * 4 + (2 - 1) * 4 for the rows, 0 + (3 - 1) * 1 for the columns
    assert_eq!(Ix2::do_slices(&mut dim, &mut strides, &slices), 10);
    assert_eq!((dim, strides), (Ix2(2, 3), Ix2((-4isize) as usize, usize::MAX)));
}

#[test]
fn slices_with_negative_step_anchor_by_the_new_extent() {
    let mut dim = Ix1(5);
    let mut strides = Ix1(1);
    // three positions are kept; the displacement is (3 - 1) * 1
    assert_eq!(Ix1::do_slices(&mut dim, &mut strides, &[Si(0, None, -2)]), 2);
    assert_eq!((dim, strides), (Ix1(3), Ix1((-2isize) as usize)));

    let mut dim = IxDyn(&[9, 7]);
    let mut strides = IxDyn(&[7, 1]);
    let slices = [Si(1, Some(8), -3), Si(0, None, 1)];
    // 1 * 7 for the start and (3 - 1) * 7 for the reversal
    assert_eq!(IxDyn::do_slices(&mut dim, &mut strides, &slices), 21);
    assert_eq!(dim, IxDyn(&[3, 7]));
    assert_eq!(strides, IxDyn(&[(-21isize) as usize, 1]));
}

#[test]
fn slices_with_negative_step_of_empty_range() {
    let mut dim = Ix1(5);
    let mut strides = Ix1(3);
    // nothing is kept; the displacement is 2 * 3 + (0 - 1) * 3
    assert_eq!(Ix1::do_slices(&mut dim, &mut strides, &[Si(2, Some(2), -1)]), 3);
    assert_eq!((dim, strides), (Ix1(0), Ix1((-3isize) as usize)));
}

#[test]
fn slices_of_negative_strides() {
    let mut dim = Ix1(6);
    let mut strides = Ix1((-2isize) as usize);
    assert_eq!(Ix1::do_slices(&mut dim, &mut strides, &[Si(1, Some(5), 2)]), -2);
    assert_eq!((dim, strides), (Ix1(2), Ix1((-4isize) as usize)));

    let mut dim = Ix1(6);
    let mut strides = Ix1((-2isize) as usize);
    assert_eq!(Ix1::do_slices(&mut dim, &mut strides, &[Si(0, None, -1)]), -10);
    assert_eq!((dim, strides), (Ix1(6), Ix1(2)));
}

#[test]
fn slicing_twice_composes() {
    let mut dim = Ix1(20);
    let mut strides = Ix1(1);
    let first = Ix1::do_slices(&mut dim, &mut strides, &[Si(2, Some(18), 2)]);
    let second = Ix1::do_slices(&mut dim, &mut strides, &[Si(1, Some(7), 3)]);
    // positions 2, 4, .., 16 and of those the ones numbered 1 and 4
    assert_eq!(first + second, 4);
    assert_eq!((dim, strides), (Ix1(2), Ix1(6)));
}

#[test]
fn step_size_is_the_absolute_value() {
    assert_eq!(step_size(1), 1);
    assert_eq!(step_size(-1), 1);
    assert_eq!(step_size(25), 25);
    assert_eq!(step_size(-25), 25);
    assert_eq!(step_size(isize::MAX), isize::MAX as usize);
    assert_eq!(step_size(isize::MIN), isize::MAX as usize + 1);
}

#[test]
fn do_sub_collapses_the_axis() {
    let mut dims = Ix2(3, 4);
    assert_eq!(do_sub(&mut dims, &Ix2(4, 1), 0, 2), 8);
    assert_eq!(dims, Ix2(1, 4));

    let mut dims = Ix3(3, 4, 5);
    assert_eq!(do_sub(&mut dims, &Ix3(20, 5, 1), 2, 4), 4);
    assert_eq!(dims, Ix3(3, 4, 1));

    let mut dims = Ix3(3, 4, 5);
    assert_eq!(do_sub(&mut dims, &Ix3(20, 5, 1), 1, 0), 0);
    assert_eq!(dims, Ix3(3, 1, 5));

    let mut dims = IxDyn(&[2, 3, 4, 5]);
    assert_eq!(do_sub(&mut dims, &IxDyn(&[60, (-20isize) as usize, 5, 1]), 1, 2), -40);
    assert_eq!(dims, IxDyn(&[2, 1, 4, 5]));
}

#[test]
fn range_descriptors_compare_by_value() {
    assert_eq!(Si(0, None, 1), Si(0, None, 1));
    assert_ne!(Si(0, None, 1), Si(0, Some(0), 1));
    let slice = Si(1, Some(-1), 2);
    let copy = slice;
    assert_eq!(slice, copy);
    assert_eq!((slice.0, slice.1, slice.2), (1, Some(-1), 2));
}

#[test]
fn applicable_slices_are_recognised() {
    let slices = [Si(1, Some(3), 1), Si(0, None, 2)];
    assert!(slices_applicable(&Ix2(4, 5), &Ix2(5, 1), &slices));
    assert!(slices_applicable(&Ix1(5), &Ix1(1), &[Si(5, None, 1)]));
    assert!(slices_applicable(&Ix1(5), &Ix1(1), &[Si(-5, Some(-5), -3)]));
    assert!(slices_applicable(&Ix1(5), &Ix1(1), &[Si(4, Some(0), isize::MIN)]));
    assert!(slices_applicable(&Ix1(0), &Ix1(1), &[Si(0, None, -1)]));
    assert!(slices_applicable(&IxDyn(&[]), &IxDyn(&[]), &[]));
    let minus_seven = (-7isize) as usize;
    assert!(slices_applicable(
        &IxDyn(&[3, 4, 5]),
        &IxDyn(&[20, minus_seven, 1]),
        &[Si(0, None, -1), Si(1, Some(-1), 2), Si(-2, None, 1)]
    ));
}

#[test]
fn slices_need_one_descriptor_per_axis() {
    assert!(!slices_applicable(&Ix2(4, 5), &Ix2(5, 1), &[Si(0, None, 1)]));
    assert!(!slices_applicable(&Ix1(4), &Ix1(1), &[Si(0, None, 1), Si(0, None, 1)]));
    assert!(!slices_applicable(&IxDyn(&[4, 5]), &IxDyn(&[5, 1]), &[]));
    assert!(!slices_applicable(&IxDyn(&[4, 5]), &IxDyn(&[5]), &[Si(0, None, 1); 2]));
}

#[test]
fn slices_need_a_step_other_than_zero() {
    assert!(!slices_applicable(&Ix1(5), &Ix1(1), &[Si(0, None, 0)]));
    assert!(!slices_applicable(
        &Ix2(5, 5),
        &Ix2(5, 1),
        &[Si(0, None, 1), Si(1, Some(2), 0)]
    ));
}

#[test]
fn slices_need_bounds_on_the_axis() {
    assert!(!slices_applicable(&Ix1(5), &Ix1(1), &[Si(6, None, 1)]));
    assert!(!slices_applicable(&Ix1(5), &Ix1(1), &[Si(0, Some(6), 1)]));
    assert!(!slices_applicable(&Ix1(5), &Ix1(1), &[Si(-6, None, 1)]));
    assert!(!slices_applicable(&Ix1(5), &Ix1(1), &[Si(0, Some(-6), 1)]));
    assert!(!slices_applicable(&Ix1(5), &Ix1(1), &[Si(isize::MIN, None, 1)]));
    assert!(!slices_applicable(&Ix1(0), &Ix1(1), &[Si(1, None, 1)]));
    assert!(!slices_applicable(
        &Ix3(5, 5, 5),
        &Ix3(25, 5, 1),
        &[Si(0, None, 1), Si(0, None, 1), Si(2, Some(7), 1)]
    ));
}

#[test]
fn slices_need_representable_results() {
    let big = isize::MAX as usize / 2 + 1;
    // the new stride
    assert!(!slices_applicable(&Ix1(5), &Ix1(isize::MAX as usize), &[Si(0, None, 2)]));
    assert!(slices_applicable(&Ix1(5), &Ix1(big - 1), &[Si(0, None, 2)]));
    // start times stride
    assert!(!slices_applicable(&Ix1(3), &Ix1(big), &[Si(2, None, 1)]));
    assert!(slices_applicable(&Ix1(3), &Ix1(big), &[Si(1, None, 1)]));
    // the displacement of a reversed axis
    assert!(!slices_applicable(&Ix1(3), &Ix1(big), &[Si(0, None, -1)]));
    // the running sum
    assert!(!slices_applicable(
        &Ix2(2, 2),
        &Ix2(big, big),
        &[Si(1, None, 1), Si(1, None, 1)]
    ));
    assert!(slices_applicable(
        &Ix2(2, 2),
        &Ix2(big, big - 1),
        &[Si(1, None, 1), Si(1, None, 1)]
    ));
    // an extent that the signed type cannot hold
    assert!(!slices_applicable(&Ix1(usize::MAX), &Ix1(1), &[Si(0, None, 1)]));
    assert!(slices_applicable(&Ix1(isize::MAX as usize), &Ix1(1), &[Si(0, None, 1)]));
}
