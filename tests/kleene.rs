use hbt::kleene::Kleene::{False, True, Unknown};
use hbt::kleene::{Kleene, KleeneVec, OutOfBounds};

#[test]
fn scalar_ops() {
    assert_eq!(!True, False);
    assert_eq!(!False, True);
    assert_eq!(!Unknown, Unknown);

    assert_eq!(True & True, True);
    assert_eq!(True & False, False);
    assert_eq!(True & Unknown, Unknown);
    assert_eq!(False & Unknown, False);
    assert_eq!(Unknown & Unknown, Unknown);

    assert_eq!(False | False, False);
    assert_eq!(False | True, True);
    assert_eq!(False | Unknown, Unknown);
    assert_eq!(True | Unknown, True);
    assert_eq!(Unknown | Unknown, Unknown);
}

#[test]
fn vec_get_set() {
    let mut v = KleeneVec::new(100);
    assert_eq!(v.get(0).unwrap(), Kleene::Unknown);
    v.set(0, Kleene::True);
    v.set(1, Kleene::False);
    v.set(99, Kleene::True);
    assert_eq!(v.get(0).unwrap(), Kleene::True);
    assert_eq!(v.get(1).unwrap(), Kleene::False);
    assert_eq!(v.get(2).unwrap(), Kleene::Unknown);
    assert_eq!(v.get(99).unwrap(), Kleene::True);
}

#[test]
fn vec_and() {
    let a = KleeneVec::all_true(64);
    let b = KleeneVec::all_false(64);
    let c = a.and(&b);
    assert!(c.is_all_false());
}

#[test]
fn vec_or() {
    let a = KleeneVec::all_false(64);
    let b = KleeneVec::all_true(64);
    let c = a.or(&b);
    assert!(c.is_all_true());
}

#[test]
fn vec_not() {
    let a = KleeneVec::all_true(100);
    let b = a.not();
    assert!(b.is_all_false());
    let c = b.not();
    assert!(c.is_all_true());
}

#[test]
fn vec_unknown_and() {
    let a = KleeneVec::new(64);
    let b = KleeneVec::all_true(64);
    let c = a.and(&b);
    assert_eq!(c.count_unknown(), 64);

    let d = KleeneVec::all_false(64);
    let e = a.and(&d);
    assert!(e.is_all_false());
}

#[test]
fn counts() {
    let mut v = KleeneVec::new(10);
    v.set(0, Kleene::True);
    v.set(1, Kleene::True);
    v.set(2, Kleene::False);
    assert_eq!(v.count_true(), 2);
    assert_eq!(v.count_false(), 1);
    assert_eq!(v.count_unknown(), 7);
}

#[test]
fn get_out_of_bounds() {
    let v = KleeneVec::new(10);
    assert_eq!(v.get(10), Err(OutOfBounds));
    assert_eq!(v.get(100), Err(OutOfBounds));
}

#[test]
fn set_auto_grows() {
    let mut v = KleeneVec::new(10);
    v.set(100, Kleene::True);
    assert_eq!(v.width(), 101);
    assert_eq!(v.get(100), Ok(Kleene::True));
    assert_eq!(v.get(50), Ok(Kleene::Unknown));
    assert_eq!(v.get(200), Err(OutOfBounds));
}

#[test]
fn truncate() {
    let mut v = KleeneVec::all_true(100);
    v.truncate(100);
    assert_eq!(v.width(), 100);
    assert!(v.is_all_true());
    v.truncate(200);
    assert_eq!(v.width(), 100);
    assert!(v.is_all_true());

    let mut v = KleeneVec::all_true(100);
    v.truncate(0);
    assert_eq!(v.width(), 0);
    assert_eq!(v.count_true(), 0);

    let mut v = KleeneVec::all_true(64);
    v.truncate(30);
    assert_eq!(v.width(), 30);
    assert!(v.is_all_true());
    assert_eq!(v.count_true(), 30);

    let mut v = KleeneVec::all_true(200);
    v.truncate(65);
    assert_eq!(v.width(), 65);
    assert!(v.is_all_true());
    assert_eq!(v.count_true(), 65);
}

#[test]
fn resize() {
    let mut v = KleeneVec::all_true(10);
    v.resize(100, Kleene::Unknown);
    assert_eq!(v.width(), 100);
    assert_eq!(v.count_true(), 10);
    assert_eq!(v.count_unknown(), 90);

    let mut v = KleeneVec::all_true(10);
    v.resize(100, Kleene::False);
    assert_eq!(v.width(), 100);
    assert_eq!(v.count_true(), 10);
    assert_eq!(v.count_false(), 90);
    assert_eq!(v.count_unknown(), 0);

    let mut v = KleeneVec::new(10);
    v.resize(100, Kleene::True);
    assert_eq!(v.width(), 100);
    assert_eq!(v.count_unknown(), 10);
    assert_eq!(v.count_true(), 90);

    let mut v = KleeneVec::all_false(60);
    v.resize(200, Kleene::True);
    assert_eq!(v.width(), 200);
    assert_eq!(v.count_false(), 60);
    assert_eq!(v.count_true(), 140);

    let mut v = KleeneVec::all_true(100);
    v.resize(10, Kleene::False);
    assert_eq!(v.width(), 10);
    assert!(v.is_all_true());

    let mut v = KleeneVec::new(0);
    v.resize(64, Kleene::True);
    assert_eq!(v.width(), 64);
    assert!(v.is_all_true());

    let mut v = KleeneVec::new(0);
    v.resize(100, Kleene::False);
    assert_eq!(v.width(), 100);
    assert!(v.is_all_false());
}
