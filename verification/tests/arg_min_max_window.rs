use polars_kernels::min_max::{MaxPropagateNan, MinMaxPolicy, MinPropagateNan, Scalar};
use polars_kernels::rolling::arg_min_max::{ArgMaxWindow, ArgMinMaxWindow, ArgMinWindow};

fn vals(xs: &[i128]) -> Vec<Scalar> {
    xs.iter().map(|&x| Scalar::Value(x)).collect()
}

#[test]
fn window_tracks_best_as_it_slides() {
    let values = vals(&[4, 9, 2, 9, 1, 7]);
    let mut w: ArgMaxWindow = ArgMinMaxWindow::new(&values, None, 0, 3);
    assert_eq!(w.get_agg(2), Some(1));
    w.update(1, 4);
    // Ties go to the earliest position.
    assert_eq!(w.get_agg(3), Some(0));
    w.update(2, 5);
    assert_eq!(w.get_agg(4), Some(1));
    // Jump past the old end.
    w.update(5, 6);
    assert_eq!(w.get_agg(5), Some(0));
    assert_eq!(w.slice_len(), 6);
}

#[test]
fn window_with_mask_counts_non_nulls() {
    let values = vals(&[5, 1, 3, 0]);
    let validity = [true, false, true, false];
    let mut w: ArgMinWindow = ArgMinMaxWindow::new(&values, Some(&validity), 0, 2);
    assert_eq!(w.get_agg(1), Some(0));
    assert!(w.is_valid(1));
    assert!(!w.is_valid(2));
    w.update(1, 2);
    assert_eq!(w.get_agg(1), None);
    assert!(w.is_valid(0));
    assert!(!w.is_valid(1));
    w.update(1, 4);
    assert_eq!(w.get_agg(3), Some(1));
    assert!(w.is_valid(1));
}

#[test]
fn empty_window_has_no_answer() {
    let values = vals(&[1, 2]);
    let w: ArgMaxWindow = ArgMinMaxWindow::new(&values, None, 1, 1);
    assert_eq!(w.get_agg(0), None);
}

#[test]
fn policies_order_values_and_nan() {
    let one = Scalar::Value(1);
    let two = Scalar::Value(2);
    assert!(MaxPropagateNan::is_better(&two, &one));
    assert!(!MaxPropagateNan::is_better(&one, &one));
    assert!(MinPropagateNan::is_better(&one, &two));
    assert!(MaxPropagateNan::is_better(&Scalar::Nan, &two));
    assert!(MinPropagateNan::is_better(&Scalar::Nan, &one));
    assert!(!MinPropagateNan::is_better(&Scalar::Nan, &Scalar::Nan));
    assert!(!MaxPropagateNan::is_better(&one, &Scalar::Nan));
}
