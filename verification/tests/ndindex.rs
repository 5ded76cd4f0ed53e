use ndshape::{Ix0, Ix1, Ix2, Ix3, Ix4, Ix5, IxDyn, NdIndex};

#[test]
fn shapes_index_themselves() {
    assert_eq!(Ix2(1, 2).index_checked(&Ix2(2, 3), &Ix2(3, 1)), Some(5));
    assert_eq!(Ix2(2, 2).index_checked(&Ix2(2, 3), &Ix2(3, 1)), None);
    assert_eq!(Ix2(1, 2).index_unchecked(&Ix2(3, 1)), 5);
    assert_eq!(
        Ix4(1, 2, 3, 4).index_checked(&Ix4(2, 3, 4, 5), &Ix4(60, 20, 5, 1)),
        Some(119)
    );
    assert_eq!(Ix4(1, 2, 3, 4).index_unchecked(&Ix4(60, 20, 5, 1)), 119);
    assert_eq!(
        IxDyn(&[1, 0, 2]).index_checked(&IxDyn(&[2, 1, 3]), &IxDyn(&[3, 3, 1])),
        Some(5)
    );
    assert_eq!(
        IxDyn(&[1, 1, 2]).index_checked(&IxDyn(&[2, 1, 3]), &IxDyn(&[3, 3, 1])),
        None
    );
    assert_eq!(IxDyn(&[1, 0, 2]).index_unchecked(&IxDyn(&[3, 3, 1])), 5);
}

#[test]
fn unit_indexes_rank_zero() {
    assert_eq!(().index_checked(&Ix0(), &Ix0()), Some(0));
    assert_eq!(().index_unchecked(&Ix0()), 0);
}

#[test]
fn integer_indexes_rank_one() {
    assert_eq!(4usize.index_checked(&Ix1(5), &Ix1(3)), Some(12));
    assert_eq!(0usize.index_checked(&Ix1(5), &Ix1(3)), Some(0));
    assert_eq!(5usize.index_checked(&Ix1(5), &Ix1(3)), None);
    assert_eq!(0usize.index_checked(&Ix1(0), &Ix1(1)), None);
    assert_eq!(4usize.index_unchecked(&Ix1(3)), 12);
    assert_eq!(4usize.index_unchecked(&Ix1((-3isize) as usize)), -12);
}

#[test]
fn tuples_index_fixed_ranks() {
    assert_eq!((1, 2).index_checked(&Ix2(2, 3), &Ix2(3, 1)), Some(5));
    assert_eq!((1, 3).index_checked(&Ix2(2, 3), &Ix2(3, 1)), None);
    assert_eq!((1, 2).index_unchecked(&Ix2(3, 1)), 5);

    assert_eq!((1, 2, 1).index_checked(&Ix3(2, 3, 2), &Ix3(6, 2, 1)), Some(11));
    assert_eq!((2, 2, 1).index_checked(&Ix3(2, 3, 2), &Ix3(6, 2, 1)), None);
    assert_eq!((1, 2, 1).index_unchecked(&Ix3(6, 2, 1)), 11);

    let dim = Ix4(2, 3, 4, 5);
    let strides = Ix4(60, 20, 5, 1);
    assert_eq!((1, 2, 3, 4).index_checked(&dim, &strides), Some(119));
    assert_eq!((1, 2, 4, 4).index_checked(&dim, &strides), None);
    assert_eq!((1, 2, 3, 4).index_unchecked(&strides), 119);
    assert_eq!((0, 0, 0, 1).index_unchecked(&Ix4(2, 3, 5, 7)), 7);

    let dim = Ix5(2, 3, 4, 5, 6);
    let strides = Ix5(360, 120, 30, 6, 1);
    assert_eq!((1, 2, 3, 4, 5).index_checked(&dim, &strides), Some(719));
    assert_eq!((1, 2, 3, 4, 6).index_checked(&dim, &strides), None);
    assert_eq!((1, 2, 3, 4, 5).index_unchecked(&strides), 719);
    assert_eq!((0, 0, 0, 0, 0).index_unchecked(&strides), 0);
    assert_eq!((1, 1, 1, 1, 1).index_unchecked(&Ix5(2, 3, 5, 7, 11)), 28);
}

#[test]
fn arrays_index_ranks_two_and_three() {
    assert_eq!([1, 2].index_checked(&Ix2(2, 3), &Ix2(3, 1)), Some(5));
    assert_eq!([2, 0].index_checked(&Ix2(2, 3), &Ix2(3, 1)), None);
    assert_eq!([1, 2].index_unchecked(&Ix2(3, 1)), 5);
    assert_eq!([1, 2, 1].index_checked(&Ix3(2, 3, 2), &Ix3(6, 2, 1)), Some(11));
    assert_eq!([1, 3, 1].index_checked(&Ix3(2, 3, 2), &Ix3(6, 2, 1)), None);
    assert_eq!([1, 2, 1].index_unchecked(&Ix3(6, 2, 1)), 11);
}

#[test]
fn arrays_index_ranks_four_and_five() {
    let dim = Ix4(2, 3, 4, 5);
    let strides = Ix4(60, 20, 5, 1);
    assert_eq!([1, 2, 3, 4].index_checked(&dim, &strides), Some(119));
    assert_eq!([1, 2, 3, 5].index_checked(&dim, &strides), None);
    assert_eq!([1, 2, 3, 4].index_unchecked(&strides), 119);
    let dim = Ix5(2, 3, 4, 5, 6);
    let strides = Ix5(360, 120, 30, 6, 1);
    assert_eq!([1, 2, 3, 4, 5].index_checked(&dim, &strides), Some(719));
    assert_eq!([2, 2, 3, 4, 5].index_checked(&dim, &strides), None);
    assert_eq!([1, 0, 1, 0, 1].index_unchecked(&strides), 391);
}

#[test]
fn sequences_index_dynamic_rank() {
    let dim = IxDyn(&[2, 3, 4, 5]);
    let strides = IxDyn(&[60, 20, 5, 1]);
    let index: &[usize] = &[1, 2, 3, 4];
    assert_eq!(index.index_checked(&dim, &strides), Some(119));
    assert_eq!(index.index_unchecked(&strides), 119);
    let outside: &[usize] = &[1, 3, 3, 4];
    assert_eq!(outside.index_checked(&dim, &strides), None);

    assert_eq!(vec![1, 2, 3, 4].index_checked(&dim, &strides), Some(119));
    assert_eq!(vec![0, 0, 0, 0].index_checked(&dim, &strides), Some(0));
    assert_eq!(vec![2, 0, 0, 0].index_checked(&dim, &strides), None);
    assert_eq!(vec![1, 2, 3, 4].index_unchecked(&strides), 119);
}

#[test]
fn sequence_offsets_pair_each_component_with_its_own_stride() {
    // strides and components that differ on every axis
    let strides = IxDyn(&[1000, 100, 10, 1]);
    assert_eq!(vec![1, 2, 3, 4].index_unchecked(&strides), 1234);
    assert_eq!(vec![4, 3, 2, 1].index_unchecked(&strides), 4321);
    let index: &[usize] = &[0, 0, 7, 0];
    assert_eq!(index.index_unchecked(&strides), 70);
    let minus_hundred = (-100isize) as usize;
    assert_eq!(
        vec![1, 2, 3].index_unchecked(&IxDyn(&[1000, minus_hundred, 10])),
        830
    );
    let empty: Vec<usize> = Vec::new();
    assert_eq!(empty.index_unchecked(&IxDyn(&[])), 0);
    assert_eq!(empty.index_checked(&IxDyn(&[]), &IxDyn(&[])), Some(0));
}
