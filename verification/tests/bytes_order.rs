use staging_index::bytes::{
    copy_bytes, has_zero, lex_position, push_all, push_be16, push_be32, same_bytes, Position,
};

#[test]
fn big_endian_writes_the_most_significant_byte_first() {
    let mut out = vec![0xEE];
    push_be32(&mut out, 0x0102_0304);
    push_be16(&mut out, 0xA1B2);
    push_be32(&mut out, u32::MAX);
    push_be32(&mut out, 0);
    assert_eq!(out, vec![0xEE, 1, 2, 3, 4, 0xA1, 0xB2, 255, 255, 255, 255, 0, 0, 0, 0]);
    assert_eq!(&out[1..5], &0x0102_0304u32.to_be_bytes());
}

#[test]
fn bytes_are_copied_and_appended_as_they_are() {
    assert_eq!(copy_bytes(&[]), Vec::<u8>::new());
    assert_eq!(copy_bytes(&[0, 255, 7]), vec![0, 255, 7]);
    let mut out = vec![1, 2];
    push_all(&mut out, &[3, 0, 4]);
    push_all(&mut out, &[]);
    assert_eq!(out, vec![1, 2, 3, 0, 4]);
}

#[test]
fn zero_bytes_are_found_wherever_they_are() {
    assert!(!has_zero(&[]));
    assert!(!has_zero(b"no zero here"));
    assert!(has_zero(&[0]));
    assert!(has_zero(&[b'a', b'b', 0]));
    assert!(has_zero(&[0, b'a']));
}

#[test]
fn same_bytes_compares_length_and_content() {
    assert!(same_bytes(b"", b""));
    assert!(same_bytes(b".git", b".git"));
    assert!(!same_bytes(b".git", b".gix"));
    assert!(!same_bytes(b".git", b".gi"));
    assert!(!same_bytes(b"", b"a"));
}

#[test]
fn lexicographic_order_goes_by_the_first_difference() {
    assert_eq!(lex_position(b"a", b"b"), Position::Before);
    assert_eq!(lex_position(b"b", b"a"), Position::After);
    assert_eq!(lex_position(b"abc", b"abd"), Position::Before);
    assert_eq!(lex_position(b"abd", b"abc"), Position::After);
    assert_eq!(lex_position(b"same", b"same"), Position::Same);
    assert_eq!(lex_position(b"", b""), Position::Same);
}

#[test]
fn a_proper_prefix_comes_first() {
    assert_eq!(lex_position(b"", b"a"), Position::Before);
    assert_eq!(lex_position(b"a", b""), Position::After);
    assert_eq!(lex_position(b"a", b"a.txt"), Position::Before);
    assert_eq!(lex_position(b"a/b", b"a"), Position::After);
}

#[test]
fn bytes_compare_unsigned() {
    assert_eq!(lex_position(&[0x7F], &[0x80]), Position::Before);
    assert_eq!(lex_position(&[0xFF], &[0x00, 0x01]), Position::After);
    // '-' (0x2D) sorts before '/' (0x2F), which sorts before '0' (0x30).
    assert_eq!(lex_position(b"a-b", b"a/b"), Position::Before);
    assert_eq!(lex_position(b"a/b", b"a0"), Position::Before);
}

#[test]
fn lexicographic_order_agrees_with_slices() {
    let samples: [&[u8]; 7] = [b"", b"a", b"a.txt", b"a/b", b"b", b"b/c.txt", &[0xFF, 0x00]];
    for a in samples {
        for b in samples {
            let expected = match a.cmp(b) {
                std::cmp::Ordering::Less => Position::Before,
                std::cmp::Ordering::Equal => Position::Same,
                std::cmp::Ordering::Greater => Position::After,
            };
            assert_eq!(lex_position(a, b), expected);
        }
    }
}
