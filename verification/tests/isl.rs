use protohackers::isl::{
    addn, addpos, cipher_spec_complete, decode, encode, get_most_copies, is_valid_toy_line,
    parse_ops, revesebits, subn, subpos, toy_copies, xorn, xorpos, IslConnection, Op,
};

#[test]
fn single_operations() {
    let mut b = [0x01u8, 0x80, 0xff];
    revesebits(&mut b);
    assert_eq!(b, [0x80, 0x01, 0xff]);
    let mut b = [0x10u8, 0x11];
    xorn(&mut b, 0x01);
    assert_eq!(b, [0x11, 0x10]);
    let mut b = [0x00u8, 0x00, 0x00];
    xorpos(&mut b, 5);
    assert_eq!(b, [5, 6, 7]);
    let mut b = [0xffu8, 0x01];
    addn(&mut b, 2);
    assert_eq!(b, [0x01, 0x03]);
    subn(&mut b, 2);
    assert_eq!(b, [0xff, 0x01]);
    let mut b = [0xfeu8, 0x00];
    addpos(&mut b, 1);
    assert_eq!(b, [0xff, 0x02]);
    subpos(&mut b, 1);
    assert_eq!(b, [0xfe, 0x00]);
}

#[test]
fn xorpos_wraps_position_to_a_byte() {
    let mut b = [0u8, 0];
    xorpos(&mut b, 255);
    assert_eq!(b, [255, 0]);
}

#[test]
fn parse_xor_then_reversebits() {
    let spec = [0x02u8, 0x01, 0x01, 0x00];
    assert!(cipher_spec_complete(&spec, 4));
    let ops = parse_ops(&spec, 4);
    assert_eq!(ops, vec![Op::Xorn(1), Op::Rev]);
}

#[test]
fn parse_skips_unknown_and_stops_at_zero() {
    let spec = [0x07u8, 0x05, 0x00, 0x01];
    let ops = parse_ops(&spec, 4);
    assert_eq!(ops, vec![Op::Addpos]);
}

#[test]
fn incomplete_spec_is_reported() {
    let spec = [0x01u8, 0x02];
    assert!(!cipher_spec_complete(&spec, 2));
    assert!(cipher_spec_complete(&spec, 1));
}

#[test]
fn encode_examples() {
    let ops = vec![Op::Xorn(1), Op::Rev];
    let mut data = b"hello".to_vec();
    encode(&ops, &mut data, 0);
    assert_eq!(data, vec![0x96, 0x26, 0xb6, 0xb6, 0x76]);

    let ops = vec![Op::Addpos, Op::Addpos];
    let mut data = b"hello".to_vec();
    encode(&ops, &mut data, 0);
    assert_eq!(data, vec![0x68, 0x67, 0x70, 0x72, 0x77]);
}

#[test]
fn decode_undoes_encode() {
    let ops = vec![Op::Xorn(123), Op::Addpos, Op::Rev, Op::Addn(7), Op::Xorpos];
    let plain = b"4x dog,5x car\n".to_vec();
    let mut data = plain.clone();
    encode(&ops, &mut data, 17);
    assert_ne!(data, plain);
    decode(&ops, &mut data, 17);
    assert_eq!(data, plain);
}

#[test]
fn most_copies_example() {
    let line = b"10x toy car,15x dog on a string,4x inflatable motorcycle";
    assert!(is_valid_toy_line(line));
    assert_eq!(get_most_copies(line), b"15x dog on a string\n".to_vec());
}

#[test]
fn most_copies_takes_last_of_equals() {
    let line = b"3x a,5x b,5x c,1x d";
    assert_eq!(get_most_copies(line), b"5x c\n".to_vec());
}

#[test]
fn toy_counts() {
    assert_eq!(toy_copies(b"10x toy car"), Some(10));
    assert_eq!(toy_copies(b"toy car"), None);
    assert_eq!(toy_copies(b"ax car"), None);
    assert!(!is_valid_toy_line(b"10x car,bad"));
}

#[test]
fn noop_cipher_ends_connection() {
    let ops = vec![Op::Xorn(0)];
    let mut c = IslConnection::new();
    let mut chunk = b"hello\n".to_vec();
    assert!(!c.decode_chunk(&ops, &mut chunk));
    assert_eq!(c.in_cnt, 0);
}

#[test]
fn connection_counts_and_splits_lines() {
    let ops = vec![Op::Xorn(1)];
    let mut c = IslConnection::new();
    let mut first = b"1x a,2x b\n3".to_vec();
    encode(&ops, &mut first, 0);
    assert!(c.decode_chunk(&ops, &mut first));
    assert_eq!(c.in_cnt, 11);
    let lines = c.take_lines(&first);
    assert_eq!(lines, vec![b"1x a,2x b".to_vec()]);
    assert_eq!(c.data_line, b"3".to_vec());
    let reply = c.respond(&ops, &lines[0]);
    let mut expect = b"2x b\n".to_vec();
    encode(&ops, &mut expect, 0);
    assert_eq!(reply, expect);
    assert_eq!(c.out_cnt, 5);
    let lines = c.take_lines(b"x c\n");
    assert_eq!(lines, vec![b"3x c".to_vec()]);
    assert!(c.data_line.is_empty());
}
