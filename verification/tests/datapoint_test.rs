use chrono::{TimeZone, Utc};
use datatoolkit::DataPoint;

#[test]
fn datapoint_test_datapoint_operations() {
    let dt1 = Utc.with_ymd_and_hms(2007, 3, 31, 23, 59, 59).unwrap();
    let dt2 = Utc.with_ymd_and_hms(2007, 4, 1, 0, 0, 0).unwrap();

    let r1 = DataPoint::new(dt1, 10f64);
    let r2 = DataPoint::new(dt1, 5f64);
    let mut r3 = DataPoint::new(dt2, 5f64);

    assert!(r1 != r2);
    assert!(r2 != r3);

    assert_eq!((&r1 + &r2).unwrap().get(), &15f64);
    assert_eq!((&r1 - &r2).unwrap().get(), &5f64);
    assert_eq!((&r1 * &r2).unwrap().get(), &50f64);
    assert_eq!((&r1 / &r2).unwrap().get(), &2f64);
    assert_eq!(&r1 + &r3, None);

    r3.apply(|&x: &f64| x.powf(2f64));
    assert_eq!(r3.get(), &25f64);
}

#[test]
fn datapoint_accessors() {
    let mut p = DataPoint::new(3usize, 'a');
    assert_eq!(p.get_index(), &3);
    assert_eq!(p.get(), &'a');
    p.set('b');
    assert_eq!(p.get(), &'b');
    assert_eq!(p.get_index(), &3);
    let q = p.clone();
    assert_eq!(p, q);
    assert!(DataPoint::new(1usize, 'z') < DataPoint::new(2usize, 'a'));
}
