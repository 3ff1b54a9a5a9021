use klavier_helper::{merge_option, sliding};

#[test]
fn lib_empty() {
    let tbl: Vec<i32> = vec![];
    let mut s = sliding(&tbl);
    assert_eq!(s.next(), None);
}

#[test]
fn single() {
    let tbl: Vec<i32> = vec![1];
    let mut s = sliding(&tbl);
    assert_eq!(s.next(), None);
}

#[test]
fn two() {
    let tbl: Vec<i32> = vec![1, 5];
    let mut s = sliding(&tbl);
    assert_eq!(s.next(), Some((1, 5)));
    assert_eq!(s.next(), None);
}

#[test]
fn many() {
    let tbl = ["One", "Two", "Three"];
    let mut s = sliding(&tbl);
    assert_eq!(s.next(), Some(("One", "Two")));
    assert_eq!(s.next(), Some(("Two", "Three")));
    assert_eq!(s.next(), None);
}

#[test]
fn can_merge_option() {
    assert_eq!(merge_option(None, None, |_, _| 0), None);
    assert_eq!(merge_option(Some(1), None, |_, _| 2), Some(1));
    assert_eq!(merge_option(None, Some(1), |_, _| 2), Some(1));
    assert_eq!(merge_option(Some(1), Some(2), |v0, v1| v0 + v1), Some(3));
}
