use protohackers::means::{handle_message, i32_from_be, insert_data, query_data, MeansAction};

fn message(kind: u8, a: i32, b: i32) -> [u8; 9] {
    let mut m = [0u8; 9];
    m[0] = kind;
    m[1..5].copy_from_slice(&a.to_be_bytes());
    m[5..9].copy_from_slice(&b.to_be_bytes());
    m
}

#[test]
fn session_example() {
    let mut prices: Vec<[i32; 2]> = Vec::new();
    assert_eq!(handle_message(&mut prices, &message(b'I', 12345, 101)), MeansAction::Continue);
    assert_eq!(handle_message(&mut prices, &message(b'I', 12346, 102)), MeansAction::Continue);
    assert_eq!(handle_message(&mut prices, &message(b'I', 12347, 100)), MeansAction::Continue);
    assert_eq!(handle_message(&mut prices, &message(b'I', 40960, 5)), MeansAction::Continue);
    assert_eq!(handle_message(&mut prices, &message(b'Q', 12288, 16384)), MeansAction::Reply(101));
}

#[test]
fn duplicate_timestamp_closes() {
    let mut prices: Vec<[i32; 2]> = Vec::new();
    assert_eq!(insert_data(&mut prices, 5, 10), Ok(()));
    assert_eq!(insert_data(&mut prices, 5, 11), Err(()));
    assert_eq!(prices, vec![[5, 10]]);
    assert_eq!(handle_message(&mut prices, &message(b'I', 5, 12)), MeansAction::Close);
}

#[test]
fn unknown_type_closes() {
    let mut prices: Vec<[i32; 2]> = Vec::new();
    assert_eq!(handle_message(&mut prices, &message(b'X', 1, 2)), MeansAction::Close);
    assert!(prices.is_empty());
}

#[test]
fn query_edges() {
    let prices = vec![[1, 10], [2, -20], [3, 7]];
    assert_eq!(query_data(&prices, 3, 1), 0);
    assert_eq!(query_data(&prices, 10, 20), 0);
    assert_eq!(query_data(&prices, 1, 2), -5);
    assert_eq!(query_data(&prices, 2, 3), -6);
    assert_eq!(query_data(&prices, 3, 3), 7);
    let big = vec![[0, i32::MAX], [1, i32::MAX]];
    assert_eq!(query_data(&big, 0, 1), i32::MAX);
}

#[test]
fn big_endian_reading() {
    assert_eq!(i32_from_be(0x00, 0x00, 0x30, 0x39), 12345);
    assert_eq!(i32_from_be(0xff, 0xff, 0xff, 0xff), -1);
    assert_eq!(i32_from_be(0x80, 0x00, 0x00, 0x00), i32::MIN);
}
