use balanced_trees::btree::slice_util::{insert_split, insert_split_spill, shift};

#[test]
fn test_insert_split_spill_start() {
    let xs = [1, 2, 3, 4, 5, 6];
    let x = 0;
    let ip = 0;
    let ((left, left_fill), mid, (right, right_fill)) = insert_split_spill(&xs, ip, x);

    assert_eq!(left, [0, 1, 2, 0, 0, 0]);
    assert_eq!(left_fill, 3);

    assert_eq!(mid, 3);

    assert_eq!(right, [4, 5, 6, 0, 0, 0]);
    assert_eq!(right_fill, 3);
}

#[test]
fn test_insert_split_spill_after_first() {
    let xs = [2, 4, 6, 8, 10, 12];
    let x = 3;
    let ip = 1;
    let ((left, left_fill), mid, (right, right_fill)) = insert_split_spill(&xs, ip, x);

    assert_eq!(left, [2, 3, 4, 0, 0, 0]);
    assert_eq!(left_fill, 3);

    assert_eq!(mid, 6);

    assert_eq!(right, [8, 10, 12, 0, 0, 0]);
    assert_eq!(right_fill, 3);
}

#[test]
fn test_insert_split_spill_mid() {
    let xs = [2, 4, 6, 8, 10, 12];
    let x = 7;
    let ip = 3;
    let ((left, left_fill), mid, (right, right_fill)) = insert_split_spill(&xs, ip, x);

    assert_eq!(left, [2, 4, 6, 0, 0, 0]);
    assert_eq!(left_fill, 3);

    assert_eq!(mid, 7);

    assert_eq!(right, [8, 10, 12, 0, 0, 0]);
    assert_eq!(right_fill, 3);
}

#[test]
fn test_insert_split_spill_last() {
    let xs = [2, 4, 6, 8, 10, 12];
    let x = 13;
    let ip = 6;
    let ((left, left_fill), mid, (right, right_fill)) = insert_split_spill(&xs, ip, x);

    assert_eq!(left, [2, 4, 6, 0, 0, 0]);
    assert_eq!(left_fill, 3);

    assert_eq!(mid, 8);

    assert_eq!(right, [10, 12, 13, 0, 0, 0]);
    assert_eq!(right_fill, 3);
}

#[test]
fn test_shift() {
    let mut xs = [1, 2, 3];
    shift(&mut xs, 92);
    assert_eq!(xs, [92, 1, 2]);
}

#[test]
fn test_shift_nothing() {
    let mut xs: [i32; 0] = [];
    shift(&mut xs, 92);
    assert_eq!(xs, []);
}

#[test]
fn test_shift_one() {
    let mut xs = [7];
    shift(&mut xs, 92);
    assert_eq!(xs, [92]);
}

#[test]
fn test_insert_split_start() {
    let mut xs = [1, 2, 3, 4, 5, 6, 7];
    let x = 0;
    let ip = 0;
    let (left, right) = insert_split(&mut xs, ip, x);

    assert_eq!(left, [0, 1, 2, 3, 0, 0, 0]);
    assert_eq!(right, [4, 5, 6, 7, 0, 0, 0]);
}

#[test]
fn test_insert_split_after_first() {
    let mut xs = [2, 4, 6, 8, 10, 12, 14];
    let x = 3;
    let ip = 1;
    let (left, right) = insert_split(&mut xs, ip, x);

    assert_eq!(left, [2, 3, 4, 6, 0, 0, 0]);
    assert_eq!(right, [8, 10, 12, 14, 0, 0, 0]);
}

#[test]
fn test_insert_split_mid() {
    let mut xs = [2, 4, 6, 8, 10, 12, 14];
    let x = 7;
    let ip = 3;
    let (left, right) = insert_split(&mut xs, ip, x);

    assert_eq!(left, [2, 4, 6, 7, 0, 0, 0]);

    assert_eq!(right, [8, 10, 12, 14, 0, 0, 0]);
}

#[test]
fn test_insert_split_last() {
    let mut xs = [2, 4, 6, 8, 10, 12, 14];
    let x = 15;
    let ip = 7;
    let (left, right) = insert_split(&mut xs, ip, x);

    assert_eq!(left, [2, 4, 6, 8, 0, 0, 0]);
    assert_eq!(right, [10, 12, 14, 15, 0, 0, 0]);
}

#[test]
fn test_insert_split_leaves_defaults_behind() {
    let mut xs = [Some(1), Some(2), Some(3), Some(4), Some(5), Some(6), Some(7)];
    let (left, right) = insert_split(&mut xs, 2, Some(9));

    assert_eq!(xs, [None; 7]);
    assert_eq!(left, [Some(1), Some(2), Some(9), Some(3), None, None, None]);
    assert_eq!(right, [Some(4), Some(5), Some(6), Some(7), None, None, None]);
}
