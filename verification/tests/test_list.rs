use rs_pderiv::regex::list::{List, member};
use std::rc::Rc;

fn list(v: &[u64]) -> List<u64> {
    let mut l = List::Nil;
    for x in v.iter().rev() {
        l = List::Cons(*x, Rc::new(l));
    }
    l
}

#[test]
fn member_and_contains() {
    let l = list(&[3, 1, 4]);
    assert!(member(&1, &l));
    assert!(!member(&2, &l));
    assert!(l.contains(&4));
    assert!(!List::<u64>::Nil.contains(&4));
}

#[test]
fn nub_keeps_the_last_occurrence() {
    let l = list(&[1, 2, 1, 3, 2]);
    assert_eq!(l.nub(), list(&[1, 3, 2]));
    assert_eq!(list(&[]).nub(), list(&[]));
}

#[test]
fn append_and_length() {
    let l = list(&[1, 2]).append(list(&[3]));
    assert_eq!(l, list(&[1, 2, 3]));
    assert_eq!(l.length(), 3);
    assert_eq!(List::<u64>::Nil.length(), 0);
}

#[test]
fn map_and_foldl() {
    let l = list(&[1, 2, 3]);
    assert_eq!(l.map(|x: &u64| *x * 10), list(&[10, 20, 30]));
    // a left fold: ((((0 - 1) * 2) - 2) * 2 - 3) * 2
    let s = l.foldl(0i64, |acc: i64, x: &u64| (acc - *x as i64) * 2);
    assert_eq!(s, -22);
    let digits = l.foldl(0u64, |acc: u64, x: &u64| acc * 10 + *x);
    assert_eq!(digits, 123);
}
