use hbt::belnap::Belnap::{Both, False, True, Unknown};
use hbt::belnap::{Belnap, BelnapVec};
use hbt::kleene::{Kleene, KleeneVec, OutOfBounds};

#[test]
fn scalar_not() {
    assert_eq!(!Belnap::True, Belnap::False);
    assert_eq!(!Belnap::False, Belnap::True);
    assert_eq!(!Belnap::Unknown, Belnap::Unknown);
    assert_eq!(!Belnap::Both, Belnap::Both);
}

#[test]
fn scalar_and_truth_table() {
    // Full 4x4 truth table per Wikipedia B4
    // Rows/columns follow `variants` order: N, T, F, B
    let expected: [[Belnap; 4]; 4] = [
        //         N       T       F      B
        /* N */
        [Unknown, Unknown, False, False],
        /* T */ [Unknown, True, False, Both],
        /* F */ [False, False, False, False],
        /* B */ [False, Both, False, Both],
    ];
    let variants = [Unknown, True, False, Both];
    for (i, &a) in variants.iter().enumerate() {
        for (j, &b) in variants.iter().enumerate() {
            assert_eq!(a & b, expected[i][j], "{a:?} & {b:?}");
        }
    }
}

#[test]
fn scalar_or_truth_table() {
    // Full 4x4 truth table per Wikipedia B4
    // Rows/columns follow `variants` order: N, T, F, B
    let expected: [[Belnap; 4]; 4] = [
        //         N       T     F       B
        /* N */
        [Unknown, True, Unknown, True],
        /* T */ [True, True, True, True],
        /* F */ [Unknown, True, False, Both],
        /* B */ [True, True, Both, Both],
    ];
    let variants = [Unknown, True, False, Both];
    for (i, &a) in variants.iter().enumerate() {
        for (j, &b) in variants.iter().enumerate() {
            assert_eq!(a | b, expected[i][j], "{a:?} | {b:?}");
        }
    }
}

#[test]
fn scalar_merge() {
    assert_eq!(Unknown.merge(Unknown), Unknown);
    assert_eq!(Unknown.merge(True), True);
    assert_eq!(Unknown.merge(False), False);
    assert_eq!(True.merge(False), Both);
    assert_eq!(Both.merge(True), Both);
    assert_eq!(Both.merge(False), Both);
    assert_eq!(Both.merge(Unknown), Both);
    assert_eq!(True.merge(True), True);
    assert_eq!(False.merge(False), False);
}

#[test]
fn scalar_queries() {
    assert!(!Unknown.has_info());
    assert!(True.has_info());
    assert!(False.has_info());
    assert!(Both.has_info());

    assert!(!Unknown.is_determined());
    assert!(True.is_determined());
    assert!(False.is_determined());
    assert!(!Both.is_determined());

    assert!(!Unknown.is_contradicted());
    assert!(!True.is_contradicted());
    assert!(!False.is_contradicted());
    assert!(Both.is_contradicted());

    assert_eq!(Unknown.to_bool(), None);
    assert_eq!(True.to_bool(), Some(true));
    assert_eq!(False.to_bool(), Some(false));
    assert_eq!(Both.to_bool(), None);
}

#[test]
fn scalar_conversions() {
    // Kleene -> Belnap (infallible)
    assert_eq!(Belnap::from(Kleene::Unknown), Belnap::Unknown);
    assert_eq!(Belnap::from(Kleene::True), Belnap::True);
    assert_eq!(Belnap::from(Kleene::False), Belnap::False);

    // Belnap -> Kleene (fallible)
    assert_eq!(Kleene::try_from(Belnap::Unknown), Ok(Kleene::Unknown));
    assert_eq!(Kleene::try_from(Belnap::True), Ok(Kleene::True));
    assert_eq!(Kleene::try_from(Belnap::False), Ok(Kleene::False));
    assert_eq!(Kleene::try_from(Belnap::Both), Err(()));
}

#[test]
fn vec_get_set_all_four() {
    let mut v = BelnapVec::new(4);
    v.set(0, Belnap::Unknown);
    v.set(1, Belnap::True);
    v.set(2, Belnap::False);
    v.set(3, Belnap::Both);
    assert_eq!(v.get(0).unwrap(), Belnap::Unknown);
    assert_eq!(v.get(1).unwrap(), Belnap::True);
    assert_eq!(v.get(2).unwrap(), Belnap::False);
    assert_eq!(v.get(3).unwrap(), Belnap::Both);
}

#[test]
fn vec_bulk_and() {
    let a = BelnapVec::all_true(64);
    let b = BelnapVec::all_false(64);
    let c = a.and(&b);
    assert!(c.is_all_false());
}

#[test]
fn vec_bulk_or() {
    let a = BelnapVec::all_false(64);
    let b = BelnapVec::all_true(64);
    let c = a.or(&b);
    assert!(c.is_all_true());
}

#[test]
fn vec_bulk_not() {
    let a = BelnapVec::all_true(100);
    let b = a.not();
    assert!(b.is_all_false());
    let c = b.not();
    assert!(c.is_all_true());
}

#[test]
fn vec_bulk_merge() {
    let a = BelnapVec::all_true(64);
    let b = BelnapVec::all_false(64);
    let c = a.merge(&b);
    // Merging True and False should give Both everywhere
    assert_eq!(c.count_both(), 64);
    assert_eq!(c.count_true(), 0);
    assert_eq!(c.count_false(), 0);
    assert_eq!(c.count_unknown(), 0);
}

#[test]
fn vec_is_consistent() {
    let a = BelnapVec::all_true(64);
    assert!(a.is_consistent());

    let mut b = BelnapVec::new(10);
    b.set(0, Belnap::True);
    b.set(1, Belnap::False);
    assert!(b.is_consistent());

    b.set(2, Belnap::Both);
    assert!(!b.is_consistent());
}

#[test]
fn vec_is_all_determined() {
    let mut v = BelnapVec::new(4);
    v.set(0, Belnap::True);
    v.set(1, Belnap::False);
    v.set(2, Belnap::True);
    v.set(3, Belnap::False);
    assert!(v.is_all_determined());

    v.set(3, Belnap::Unknown);
    assert!(!v.is_all_determined());

    v.set(3, Belnap::Both);
    assert!(!v.is_all_determined());
}

#[test]
fn vec_counts() {
    let mut v = BelnapVec::new(10);
    v.set(0, Belnap::True);
    v.set(1, Belnap::True);
    v.set(2, Belnap::False);
    v.set(3, Belnap::Both);
    assert_eq!(v.count_true(), 2);
    assert_eq!(v.count_false(), 1);
    assert_eq!(v.count_both(), 1);
    assert_eq!(v.count_unknown(), 6);
}

#[test]
fn vec_to_kleene() {
    let mut v = BelnapVec::new(10);
    v.set(0, Belnap::True);
    v.set(1, Belnap::False);
    let k = v.to_kleene();
    assert!(k.is_some());
    let k = k.unwrap();
    assert_eq!(k.get(0), Ok(Kleene::True));
    assert_eq!(k.get(1), Ok(Kleene::False));
    assert_eq!(k.get(2), Ok(Kleene::Unknown));

    // With Both, conversion should fail
    v.set(2, Belnap::Both);
    assert!(v.to_kleene().is_none());
}

#[test]
fn vec_from_kleene() {
    let mut k = KleeneVec::new(10);
    k.set(0, Kleene::True);
    k.set(1, Kleene::False);
    let b = BelnapVec::from(&k);
    assert_eq!(b.get(0).unwrap(), Belnap::True);
    assert_eq!(b.get(1).unwrap(), Belnap::False);
    assert_eq!(b.get(2).unwrap(), Belnap::Unknown);
    assert!(b.is_consistent());
}

#[test]
fn vec_auto_grow() {
    let mut v = BelnapVec::new(10);
    v.set(100, Belnap::Both);
    assert_eq!(v.width(), 101);
    assert_eq!(v.get(100), Ok(Belnap::Both));
    assert_eq!(v.get(50), Ok(Belnap::Unknown));
    assert_eq!(v.get(200), Err(OutOfBounds));
}

#[test]
fn vec_resize() {
    // grow with Unknown fill
    let mut v = BelnapVec::all_true(10);
    v.resize(100, Belnap::Unknown);
    assert_eq!(v.width(), 100);
    assert_eq!(v.count_true(), 10);
    assert_eq!(v.count_unknown(), 90);

    // grow with Both fill
    let mut v = BelnapVec::all_true(10);
    v.resize(100, Belnap::Both);
    assert_eq!(v.width(), 100);
    assert_eq!(v.count_true(), 10);
    assert_eq!(v.count_both(), 90);

    // grow with False fill
    let mut v = BelnapVec::all_true(10);
    v.resize(100, Belnap::False);
    assert_eq!(v.width(), 100);
    assert_eq!(v.count_true(), 10);
    assert_eq!(v.count_false(), 90);

    // grow with True fill
    let mut v = BelnapVec::new(10);
    v.resize(100, Belnap::True);
    assert_eq!(v.width(), 100);
    assert_eq!(v.count_unknown(), 10);
    assert_eq!(v.count_true(), 90);

    // grow across word boundary
    let mut v = BelnapVec::all_false(60);
    v.resize(200, Belnap::True);
    assert_eq!(v.width(), 200);
    assert_eq!(v.count_false(), 60);
    assert_eq!(v.count_true(), 140);

    // shrink
    let mut v = BelnapVec::all_true(100);
    v.resize(10, Belnap::False);
    assert_eq!(v.width(), 10);
    assert!(v.is_all_true());

    // grow from empty
    let mut v = BelnapVec::new(0);
    v.resize(64, Belnap::True);
    assert_eq!(v.width(), 64);
    assert!(v.is_all_true());

    let mut v = BelnapVec::new(0);
    v.resize(100, Belnap::False);
    assert_eq!(v.width(), 100);
    assert!(v.is_all_false());
}

#[test]
fn vec_truncate() {
    let mut v = BelnapVec::all_true(100);
    v.truncate(100);
    assert_eq!(v.width(), 100);
    assert!(v.is_all_true());

    let mut v = BelnapVec::all_true(200);
    v.truncate(65);
    assert_eq!(v.width(), 65);
    assert!(v.is_all_true());
    assert_eq!(v.count_true(), 65);
}

#[test]
fn vec_and_different_widths() {
    let mut short = BelnapVec::new(10);
    short.set(0, Belnap::True);
    short.set(1, Belnap::False);
    short.set(2, Belnap::Both);

    let mut long = BelnapVec::new(100);
    long.set(0, Belnap::True);
    long.set(1, Belnap::True);
    long.set(2, Belnap::True);
    long.set(99, Belnap::True);

    let ab = short.and(&long);
    let ba = long.and(&short);
    assert_eq!(ab.width(), 100);
    assert_eq!(ba.width(), 100);
    assert_eq!(ab, ba);

    // True & True = True
    assert_eq!(ab.get(0).unwrap(), Belnap::True);
    // False & True = False
    assert_eq!(ab.get(1).unwrap(), Belnap::False);
    // Both & True = Both
    assert_eq!(ab.get(2).unwrap(), Belnap::Both);
    // Unknown (short) & True (long) = Unknown
    assert_eq!(ab.get(99).unwrap(), Belnap::Unknown);
    // Beyond short: Unknown & Unknown = Unknown
    assert_eq!(ab.get(50).unwrap(), Belnap::Unknown);
}

#[test]
fn vec_or_different_widths() {
    let mut short = BelnapVec::new(10);
    short.set(0, Belnap::True);
    short.set(1, Belnap::False);
    short.set(2, Belnap::Both);

    let mut long = BelnapVec::new(100);
    long.set(0, Belnap::False);
    long.set(1, Belnap::True);
    long.set(2, Belnap::False);
    long.set(99, Belnap::False);

    let ab = short.or(&long);
    let ba = long.or(&short);
    assert_eq!(ab.width(), 100);
    assert_eq!(ba.width(), 100);
    assert_eq!(ab, ba);

    // True | False = True
    assert_eq!(ab.get(0).unwrap(), Belnap::True);
    // False | True = True
    assert_eq!(ab.get(1).unwrap(), Belnap::True);
    // Both | False = Both
    assert_eq!(ab.get(2).unwrap(), Belnap::Both);
    // Unknown (short) | False (long) = Unknown
    assert_eq!(ab.get(99).unwrap(), Belnap::Unknown);
    // Beyond short: Unknown | Unknown = Unknown
    assert_eq!(ab.get(50).unwrap(), Belnap::Unknown);
}

#[test]
fn vec_merge_different_widths() {
    let mut short = BelnapVec::new(10);
    short.set(0, Belnap::True);
    short.set(1, Belnap::False);

    let mut long = BelnapVec::new(100);
    long.set(0, Belnap::False);
    long.set(1, Belnap::True);
    long.set(99, Belnap::True);

    let ab = short.merge(&long);
    let ba = long.merge(&short);
    assert_eq!(ab.width(), 100);
    assert_eq!(ba.width(), 100);
    assert_eq!(ab, ba);

    // True merge False = Both
    assert_eq!(ab.get(0).unwrap(), Belnap::Both);
    // False merge True = Both
    assert_eq!(ab.get(1).unwrap(), Belnap::Both);
    // Unknown (short) merge True (long) = True
    assert_eq!(ab.get(99).unwrap(), Belnap::True);
    // Beyond short: Unknown merge Unknown = Unknown
    assert_eq!(ab.get(50).unwrap(), Belnap::Unknown);
}

#[test]
fn vec_implies_different_widths() {
    let short = BelnapVec::all_true(10);
    let long = BelnapVec::all_true(100);
    let result = short.implies(&long);
    assert_eq!(result.width(), 100);
    // True -> True = True for first 10
    assert_eq!(result.get(0).unwrap(), Belnap::True);
    // Unknown -> True = True for positions beyond short
    assert_eq!(result.get(50).unwrap(), Belnap::True);
}
