use sample_split::slice_util::SkipFromRightWhile;
use sample_split::slice_util::SkipWhile;
use sample_split::slice_util::TakeUntil;

#[test]
fn test_skip_while() {
    let a: &[usize] = &[2, 2, 2, 3, 3, 3, 4, 4, 4];
    let b = a.skip_while(|x| x == 2);
    assert_eq!(b, [3, 3, 3, 4, 4, 4]);
    let c = b.skip_while(|x| x == 3);
    assert_eq!(c, [4, 4, 4]);
    assert_eq!(a.skip_while(|x| x == 2).skip_while(|x| x == 3), [4, 4, 4]);
}

#[test]
fn test_skip_from_right_while() {
    let slice: &[usize] = &[1, 2, 3, 4, 5, 6];
    assert_eq!(slice.skip_from_right_while(|x| x > 3), [1, 2, 3]);
}

#[test]
fn test_take_until() {
    let slice: &[usize] = &[1, 2, 3, 4, 5, 6];
    assert_eq!(slice.take_until(|x| x > 3), [1, 2, 3]);
}

#[test]
fn skip_while_is_idempotent() {
    let a: &[i32] = &[0, 0, 7, 0, 9];
    let once = a.skip_while(|x| x == 0);
    let twice = once.skip_while(|x| x == 0);
    assert_eq!(once, [7, 0, 9]);
    assert_eq!(twice, once);
    let all: &[i32] = &[0, 0, 0];
    let empty = all.skip_while(|x| x == 0);
    assert_eq!(empty, []);
    assert_eq!(empty.skip_while(|x| x == 0), empty);
}

#[test]
fn skip_while_prefix_reconstructs() {
    let a: &[u8] = &[9, 9, 1, 9, 2];
    let kept = a.skip_while(|x| x == 9);
    assert_eq!(kept, [1, 9, 2]);
    let dropped = &a[..a.len() - kept.len()];
    assert!(dropped.iter().all(|&x| x == 9));
    let mut rebuilt = dropped.to_vec();
    rebuilt.extend_from_slice(&kept);
    assert_eq!(rebuilt, a);
}

#[test]
fn skip_from_right_while_keeps_everything_or_nothing() {
    let a: &[usize] = &[5, 5];
    assert_eq!(a.skip_from_right_while(|x| x == 5), []);
    assert_eq!(a.skip_from_right_while(|x| x == 9), [5, 5]);
}

#[test]
fn take_until_without_match_returns_all() {
    let a: &[usize] = &[1, 2, 3];
    assert_eq!(a.take_until(|x| x > 10), [1, 2, 3]);
    assert_eq!(a.take_until(|x| x >= 1), []);
}
