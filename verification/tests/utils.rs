use starkom::field::{from_const, Field, Scalar};
use starkom::utils::{is_pseudo_negative, isize_to_scalar, scalar_to_isize};

fn max() -> Scalar {
    -from_const(1)
}

#[test]
fn test_isize_to_scalar() {
    assert_eq!(isize_to_scalar::<Scalar>(0), from_const(0));
    assert_eq!(isize_to_scalar::<Scalar>(1), from_const(1));
    assert_eq!(isize_to_scalar::<Scalar>(2), from_const(2));
    assert_eq!(isize_to_scalar::<Scalar>(-1), max());
    assert_eq!(isize_to_scalar::<Scalar>(-2), max() - from_const(1));
    assert_eq!(isize_to_scalar::<Scalar>(-3), max() - from_const(2));
}

#[test]
fn test_is_pseudo_negative() {
    assert!(!is_pseudo_negative(&from_const(0)));
    assert!(!is_pseudo_negative(&from_const(1)));
    assert!(!is_pseudo_negative(&from_const(2)));
    assert!(is_pseudo_negative(&(max())));
    assert!(is_pseudo_negative(&(max() - from_const(1))));
    assert!(is_pseudo_negative(&(max() - from_const(2))));
    let half_range = max() * from_const(2).invert().unwrap();
    assert!(!is_pseudo_negative(&(half_range - from_const(2))));
    assert!(!is_pseudo_negative(&(half_range - from_const(1))));
    assert!(!is_pseudo_negative(&(half_range)));
    assert!(is_pseudo_negative(&(half_range + from_const(1))));
    assert!(is_pseudo_negative(&(half_range + from_const(2))));
}

#[test]
fn test_scalar_to_isize() {
    assert_eq!(scalar_to_isize(from_const(0)).unwrap(), 0);
    assert_eq!(scalar_to_isize(from_const(1)).unwrap(), 1);
    assert_eq!(scalar_to_isize(from_const(2)).unwrap(), 2);
    assert_eq!(
        scalar_to_isize(from_const((isize::MAX - 1) as u64)).unwrap(),
        isize::MAX - 1
    );
    assert_eq!(
        scalar_to_isize(from_const(isize::MAX as u64)).unwrap(),
        isize::MAX
    );
    assert!(scalar_to_isize(from_const(isize::MAX as u64) + from_const(1)).is_err());
}

#[test]
fn test_pseudo_negative_scalar_to_isize() {
    assert_eq!(scalar_to_isize(-from_const(0)).unwrap(), 0);
    assert_eq!(scalar_to_isize(-from_const(1)).unwrap(), -1);
    assert_eq!(scalar_to_isize(-from_const(2)).unwrap(), -2);
    assert_eq!(scalar_to_isize(-from_const(3)).unwrap(), -3);
    assert_eq!(-isize::MAX, isize::MIN + 1);
    let min = -from_const(isize::MAX as u64) - from_const(1);
    assert_eq!(
        scalar_to_isize(min + from_const(2)).unwrap(),
        isize::MIN + 2
    );
    assert_eq!(
        scalar_to_isize(min + from_const(1)).unwrap(),
        isize::MIN + 1
    );
    assert_eq!(scalar_to_isize(min).unwrap(), isize::MIN);
    assert!(scalar_to_isize(min - from_const(1)).is_err());
}
