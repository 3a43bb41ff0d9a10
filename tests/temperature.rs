use onebrc::format::mean_tenths;
use onebrc::temperature::Temperature;

#[test]
fn new_record() {
    let t = Temperature::new(-42);
    assert_eq!((t.min, t.max, t.sum, t.count), (-42, -42, -42, 1));
}

#[test]
fn update_single_folds_one_sample() {
    let mut t = Temperature::new(5);
    t.update_single(-3);
    t.update_single(9);
    assert_eq!((t.min, t.max, t.sum, t.count), (-3, 9, 11, 3));
}

#[test]
fn update_merges_records() {
    let mut a = Temperature::new(5);
    a.update_single(7);
    let mut b = Temperature::new(-999);
    b.update_single(999);
    a.update(&b);
    assert_eq!((a.min, a.max, a.sum, a.count), (-999, 999, 12, 4));
}

#[test]
fn mean_rounding() {
    assert_eq!(mean_tenths(150, 5), 30);
    assert_eq!(mean_tenths(1, 2), 0);
    assert_eq!(mean_tenths(3, 2), 2);
    assert_eq!(mean_tenths(5, 2), 2);
    assert_eq!(mean_tenths(-3, 2), -2);
    assert_eq!(mean_tenths(-5, 2), -2);
    assert_eq!(mean_tenths(2, 3), 1);
    assert_eq!(mean_tenths(-2, 3), -1);
    assert_eq!(mean_tenths(-1, 3), 0);
    assert_eq!(mean_tenths(999 * 4, 4), 999);
}
