use csv_viewer::order::{bytes_lt, sort_order};

#[test]
fn bytes_are_compared_from_the_first_difference() {
    assert!(bytes_lt(b"a", b"b"));
    assert!(!bytes_lt(b"b", b"a"));
    assert!(bytes_lt(b"ab", b"b"));
    assert!(bytes_lt(b"10", b"9"));
    assert!(bytes_lt(b"B", b"a"));
}

#[test]
fn prefix_comes_first() {
    assert!(bytes_lt(b"", b"a"));
    assert!(bytes_lt(b"a", b"ab"));
    assert!(!bytes_lt(b"ab", b"a"));
}

#[test]
fn nothing_comes_before_itself() {
    assert!(!bytes_lt(b"", b""));
    assert!(!bytes_lt(b"abc", b"abc"));
}

#[test]
fn order_agrees_with_the_order_of_slices() {
    let samples: [&[u8]; 7] = [b"", b"a", b"ab", b"b", b"\xff", b"a\x00", b"aa"];
    for a in samples {
        for b in samples {
            assert_eq!(bytes_lt(a, b), a < b);
        }
    }
}

#[test]
fn positions_are_sorted_by_key() {
    let keys: Vec<Vec<u8>> = vec![b"pear".to_vec(), b"apple".to_vec(), b"fig".to_vec()];
    assert_eq!(sort_order(&keys), vec![1, 2, 0]);
}

#[test]
fn equal_keys_keep_the_order_of_their_positions() {
    let keys: Vec<Vec<u8>> = vec![b"b".to_vec(), b"a".to_vec(), b"b".to_vec(), b"a".to_vec(), b"b".to_vec()];
    assert_eq!(sort_order(&keys), vec![1, 3, 0, 2, 4]);
}

#[test]
fn order_of_nothing_and_of_one() {
    assert_eq!(sort_order(&Vec::new()), Vec::<usize>::new());
    assert_eq!(sort_order(&vec![b"x".to_vec()]), vec![0]);
}

#[test]
fn order_is_that_of_a_stable_sort() {
    let mut keys: Vec<Vec<u8>> = Vec::new();
    let mut seed: u32 = 12345;
    for _ in 0..500 {
        seed = seed.wrapping_mul(1103515245).wrapping_add(12345);
        let len = (seed >> 16) % 3;
        let mut key = Vec::new();
        for _ in 0..len {
            seed = seed.wrapping_mul(1103515245).wrapping_add(12345);
            key.push(b'a' + ((seed >> 16) % 3) as u8);
        }
        keys.push(key);
    }
    let mut expected: Vec<usize> = (0..keys.len()).collect();
    expected.sort_by(|a, b| keys[*a].cmp(&keys[*b]));
    assert_eq!(sort_order(&keys), expected);
}
