use ndshape::{Axis, Dim, Dimension, Ix0, Ix1, Ix2, Ix3, Ix4, Ix5, IxDyn, RemoveAxis};

#[test]
fn remove_axis_keeps_the_other_extents_in_order() {
    assert_eq!(Ix1(7).remove_axis(Axis(0)), Ix0());
    assert_eq!(Ix2(7, 8).remove_axis(Axis(0)), Ix1(8));
    assert_eq!(Ix2(7, 8).remove_axis(Axis(1)), Ix1(7));
    assert_eq!(Ix3(7, 8, 9).remove_axis(Axis(0)), Ix2(8, 9));
    assert_eq!(Ix3(7, 8, 9).remove_axis(Axis(1)), Ix2(7, 9));
    assert_eq!(Ix3(7, 8, 9).remove_axis(Axis(2)), Ix2(7, 8));
    assert_eq!(Ix4(6, 7, 8, 9).remove_axis(Axis(0)), Ix3(7, 8, 9));
    assert_eq!(Ix4(6, 7, 8, 9).remove_axis(Axis(2)), Ix3(6, 7, 9));
    assert_eq!(Ix4(6, 7, 8, 9).remove_axis(Axis(3)), Ix3(6, 7, 8));
    assert_eq!(Ix5(5, 6, 7, 8, 9).remove_axis(Axis(0)), Ix4(6, 7, 8, 9));
    assert_eq!(Ix5(5, 6, 7, 8, 9).remove_axis(Axis(1)), Ix4(5, 7, 8, 9));
    assert_eq!(Ix5(5, 6, 7, 8, 9).remove_axis(Axis(4)), Ix4(5, 6, 7, 8));
}

#[test]
fn remove_axis_of_dynamic_rank() {
    assert_eq!(IxDyn(&[7]).remove_axis(Axis(0)), IxDyn(&[]));
    assert_eq!(IxDyn(&[4, 5, 6]).remove_axis(Axis(1)), IxDyn(&[4, 6]));
    assert_eq!(
        IxDyn(&[1, 2, 3, 4, 5, 6, 7]).remove_axis(Axis(6)),
        IxDyn(&[1, 2, 3, 4, 5, 6])
    );
    assert_eq!(
        IxDyn(&[1, 2, 3, 4, 5, 6, 7]).remove_axis(Axis(0)),
        IxDyn(&[2, 3, 4, 5, 6, 7])
    );
}

#[test]
fn remove_axis_leaves_the_shape_unchanged() {
    let dim = Ix3(7, 8, 9);
    let _ = dim.remove_axis(Axis(1));
    assert_eq!(dim, Ix3(7, 8, 9));
    let dim = IxDyn(&[7, 8, 9]);
    let _ = dim.remove_axis(Axis(1));
    assert_eq!(dim, IxDyn(&[7, 8, 9]));
}

#[test]
fn removing_an_inserted_axis_gives_the_shape_back() {
    let base = vec![3usize, 4, 5, 6];
    for at in 0..=base.len() {
        let mut extents = base.clone();
        extents.insert(at, 99);
        assert_eq!(IxDyn(&extents).remove_axis(Axis(at)), IxDyn(&base));
    }
    assert_eq!(Ix3(3, 99, 4).remove_axis(Axis(1)), Ix2(3, 4));
    assert_eq!(Ix3(99, 3, 4).remove_axis(Axis(0)), Ix2(3, 4));
    assert_eq!(Ix3(3, 4, 99).remove_axis(Axis(2)), Ix2(3, 4));
    assert_eq!(Ix1(99).remove_axis(Axis(0)), Ix0());
}

#[test]
fn default_strides_of_the_smaller_shape() {
    assert_eq!(
        Ix2(3, 4).remove_axis(Axis(0)).default_strides(),
        Dim(4).default_strides()
    );
    assert_eq!(Ix2(3, 4).remove_axis(Axis(1)).default_strides(), Ix1(1));
    for axis in 0..3 {
        let reduced = [(4, 5), (3, 5), (3, 4)][axis];
        assert_eq!(
            Ix3(3, 4, 5).remove_axis(Axis(axis)).default_strides(),
            Dim(reduced).default_strides()
        );
    }
    for axis in 0..4 {
        let reduced = [(4, 5, 6), (3, 5, 6), (3, 4, 6), (3, 4, 5)][axis];
        assert_eq!(
            Ix4(3, 4, 5, 6).remove_axis(Axis(axis)).default_strides(),
            Dim(reduced).default_strides()
        );
    }
    for axis in 0..5 {
        let reduced = [
            (4, 5, 6, 7),
            (3, 5, 6, 7),
            (3, 4, 6, 7),
            (3, 4, 5, 7),
            (3, 4, 5, 6),
        ][axis];
        assert_eq!(
            Ix5(3, 4, 5, 6, 7).remove_axis(Axis(axis)).default_strides(),
            Dim(reduced).default_strides()
        );
    }
    assert_eq!(
        Ix4(3, 4, 5, 6).remove_axis(Axis(1)).default_strides(),
        Ix3(30, 6, 1)
    );
}

#[test]
fn default_strides_commute_with_removing_the_outermost_axis() {
    let dim = Ix2(3, 4);
    assert_eq!(
        dim.remove_axis(Axis(0)).default_strides(),
        dim.default_strides().remove_axis(Axis(0))
    );
    let dim = Ix3(3, 4, 5);
    assert_eq!(
        dim.remove_axis(Axis(0)).default_strides(),
        dim.default_strides().remove_axis(Axis(0))
    );
    let dim = Ix4(3, 4, 5, 6);
    assert_eq!(
        dim.remove_axis(Axis(0)).default_strides(),
        dim.default_strides().remove_axis(Axis(0))
    );
    let dim = Ix5(3, 4, 5, 6, 7);
    assert_eq!(
        dim.remove_axis(Axis(0)).default_strides(),
        dim.default_strides().remove_axis(Axis(0))
    );
    let dim = IxDyn(&[3, 4, 5, 6, 7, 8]);
    assert_eq!(
        dim.remove_axis(Axis(0)).default_strides(),
        dim.default_strides().remove_axis(Axis(0))
    );
}

#[test]
fn default_strides_commute_with_removing_an_axis_of_extent_one() {
    let dim = Ix3(3, 1, 5);
    assert_eq!(
        dim.remove_axis(Axis(1)).default_strides(),
        dim.default_strides().remove_axis(Axis(1))
    );
    let dim = Ix4(3, 4, 5, 1);
    assert_eq!(
        dim.remove_axis(Axis(3)).default_strides(),
        dim.default_strides().remove_axis(Axis(3))
    );
    let dim = Ix5(3, 4, 1, 6, 7);
    assert_eq!(
        dim.remove_axis(Axis(2)).default_strides(),
        dim.default_strides().remove_axis(Axis(2))
    );
    // with any other extent the outer strides shrink
    let dim = Ix3(3, 4, 5);
    assert_eq!(dim.remove_axis(Axis(1)).default_strides(), Ix2(5, 1));
    assert_eq!(dim.default_strides().remove_axis(Axis(1)), Ix2(20, 1));
}
