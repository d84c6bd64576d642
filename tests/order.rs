use bstree::TotalOrder;
use std::cmp::Ordering;

#[test]
fn compare_integers() {
    assert_eq!(1i32.compare(&2), Ordering::Less);
    assert_eq!(2i32.compare(&2), Ordering::Equal);
    assert_eq!(3i32.compare(&2), Ordering::Greater);
    assert_eq!(i64::MIN.compare(&i64::MAX), Ordering::Less);
    assert_eq!(u64::MAX.compare(&0), Ordering::Greater);
    assert_eq!(0u64.compare(&0), Ordering::Equal);
}
