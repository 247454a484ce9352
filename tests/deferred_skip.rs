use skak::skip::Skip;
use skak::source::{Cursor, Source};

#[test]
fn cursor_yields_the_slice() {
    let v: Vec<i32> = vec![4, 5, 6];
    let mut c = Cursor::new(&v);
    assert_eq!(c.size_hint(), (3, Some(3)));
    assert_eq!(c.next(), Some(&4));
    assert_eq!(c.nth(0), Some(&5));
    assert_eq!(c.advance_by(2), Err(1));
    assert_eq!(c.next(), None);
}

#[test]
fn skip_yields_the_suffix() {
    let v: Vec<i32> = vec![1, 2, 3, 4, 5];
    let mut s = Skip::new(Cursor::new(&v), 2);
    assert_eq!(s.next(), Some(&3));
    assert_eq!(s.next(), Some(&4));
    assert_eq!(s.next(), Some(&5));
    assert_eq!(s.next(), None);
}

#[test]
fn skip_of_the_whole_length_is_empty() {
    let v: Vec<i32> = vec![1, 2, 3];
    let mut s = Skip::new(Cursor::new(&v), 3);
    assert_eq!(s.size_hint(), (0, Some(0)));
    assert_eq!(s.next(), None);
    let mut s = Skip::new(Cursor::new(&v), 9);
    assert_eq!(s.next(), None);
}

#[test]
fn skip_nth() {
    let v: Vec<i32> = vec![1, 2, 3, 4, 5, 6];
    let mut s = Skip::new(Cursor::new(&v), 2);
    assert_eq!(s.nth(1), Some(&4));
    assert_eq!(s.nth(0), Some(&5));
    assert_eq!(s.nth(5), None);
    let mut s = Skip::new(Cursor::new(&v), 10);
    assert_eq!(s.nth(0), None);
}

#[test]
fn skip_count_and_last() {
    let v: Vec<i32> = vec![1, 2, 3, 4, 5];
    assert_eq!(Skip::new(Cursor::new(&v), 2).count(), 3);
    assert_eq!(Skip::new(Cursor::new(&v), 0).count(), 5);
    assert_eq!(Skip::new(Cursor::new(&v), 7).count(), 0);
    assert_eq!(Skip::new(Cursor::new(&v), 2).last(), Some(&5));
    assert_eq!(Skip::new(Cursor::new(&v), 5).last(), None);
}

#[test]
fn skip_size_hint_saturates() {
    let v: Vec<i32> = vec![1, 2, 3, 4, 5];
    assert_eq!(Skip::new(Cursor::new(&v), 2).size_hint(), (3, Some(3)));
    assert_eq!(Skip::new(Cursor::new(&v), 8).size_hint(), (0, Some(0)));
}

#[test]
fn advance_by_is_exact() {
    let v: Vec<i32> = vec![1, 2, 3, 4, 5, 6];
    let mut s = Skip::new(Cursor::new(&v), 2);
    assert_eq!(s.advance_by(3), Ok(()));
    assert_eq!(s.next(), Some(&6));
    let mut s = Skip::new(Cursor::new(&v), 2);
    assert_eq!(s.advance_by(10), Err(4));
    assert_eq!(s.next(), None);
    let mut s = Skip::new(Cursor::new(&v), 2);
    assert_eq!(s.advance_by(4), Ok(()));
    assert_eq!(s.next(), None);
}

#[test]
fn advance_by_with_counts_that_would_overflow() {
    let v: Vec<i32> = vec![1, 2, 3, 4, 5, 6];
    let mut s = Skip::new(Cursor::new(&v), usize::MAX);
    assert_eq!(s.advance_by(usize::MAX), Err(0));
    let mut s = Skip::new(Cursor::new(&v), 3);
    assert_eq!(s.advance_by(usize::MAX), Err(3));
    let mut s = Skip::new(Cursor::new(&v), usize::MAX);
    assert_eq!(s.advance_by(0), Ok(()));
    assert_eq!(s.next(), None);
}

#[test]
fn advance_by_zero_keeps_position() {
    let v: Vec<i32> = vec![1, 2, 3];
    let mut s = Skip::new(Cursor::new(&v), 1);
    assert_eq!(s.advance_by(0), Ok(()));
    assert_eq!(s.next(), Some(&2));
}

#[test]
fn composed_skips_act_as_one() {
    let v: Vec<i32> = vec![1, 2, 3, 4, 5, 6, 7];
    let mut a = Skip::new(Cursor::new(&v), 2);
    a.defer(3);
    let mut b = Skip::new(Cursor::new(&v), 5);
    assert_eq!(a.size_hint(), b.size_hint());
    assert_eq!(a.next(), b.next());
    assert_eq!(a.next(), Some(&7));
    assert_eq!(b.next(), Some(&7));
    let mut nested = Skip::new(Skip::new(Cursor::new(&v), 2), 3);
    assert_eq!(nested.next(), Some(&6));
    let mut c = Skip::new(Cursor::new(&v), 1);
    c.defer(2);
    assert_eq!(c.clone().count(), 4);
    assert_eq!(c.clone().last(), Some(&7));
    assert_eq!(c.advance_by(5), Err(4));
}

#[test]
fn defer_past_the_largest_count() {
    let v: Vec<i32> = vec![1, 2, 3];
    let mut s = Skip::new(Cursor::new(&v), usize::MAX);
    s.defer(usize::MAX);
    assert_eq!(s.next(), None);
    let mut s = Skip::new(Cursor::new(&v), 1);
    s.defer(usize::MAX);
    assert_eq!(s.size_hint(), (0, Some(0)));
    assert_eq!(s.next(), None);
}

#[test]
fn duplicate_is_independent() {
    let v: Vec<i32> = vec![1, 2, 3, 4];
    let mut s = Skip::new(Cursor::new(&v), 1);
    let mut d = s.duplicate();
    assert_eq!(d.next(), Some(&2));
    assert_eq!(d.next(), Some(&3));
    assert_eq!(s.next(), Some(&2));
}

#[test]
fn skip_fold_sums_the_suffix() {
    let v: Vec<i32> = vec![1, 2, 3, 4, 5];
    let total = Skip::new(Cursor::new(&v), 2).fold(0, |a: i32, x: &i32| a + *x);
    assert_eq!(total, 12);
    let none = Skip::new(Cursor::new(&v), 9).fold(100, |a: i32, x: &i32| a + *x);
    assert_eq!(none, 100);
    let order = Skip::new(Cursor::new(&v), 1).fold(0, |a: i32, x: &i32| a * 10 + *x);
    assert_eq!(order, 2345);
}

#[test]
fn skip_try_fold_stops_at_the_first_err() {
    let v: Vec<i32> = vec![1, 2, 3, 4, 5, 6];
    let mut s = Skip::new(Cursor::new(&v), 1);
    let r: Result<i32, i32> = s.try_fold(0, |a: i32, x: &i32| if *x == 4 { Err(a) } else { Ok(a + *x) });
    assert_eq!(r, Err(5));
    assert_eq!(s.next(), Some(&5));
    let mut s = Skip::new(Cursor::new(&v), 3);
    let r: Result<i32, i32> = s.try_fold(0, |a: i32, x: &i32| Ok(a + *x));
    assert_eq!(r, Ok(15));
    assert_eq!(s.next(), None);
    let mut s = Skip::new(Cursor::new(&v), 8);
    let r: Result<i32, i32> = s.try_fold(7, |a: i32, x: &i32| Ok(a + *x));
    assert_eq!(r, Ok(7));
}
