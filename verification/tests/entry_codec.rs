use staging_index::{Entry, FileStat, IndexError};

fn stat(mode: u32) -> FileStat {
    FileStat {
        ctime: 0x0102_0304,
        ctime_nsec: 0x0506_0708,
        mtime: 0x1112_1314,
        mtime_nsec: 0x1516_1718,
        dev: 0x2122_2324,
        ino: 0x2526_2728,
        mode,
        uid: 0x3132_3334,
        gid: 0x3536_3738,
        size: 0x4142_4344,
    }
}

fn oid() -> [u8; 20] {
    let mut id = [0u8; 20];
    for (i, byte) in id.iter_mut().enumerate() {
        *byte = 0xA0 + i as u8;
    }
    id
}

fn entry_with_path_len(len: usize) -> Entry {
    Entry::new(vec![b'p'; len], [0u8; 20], stat(0o100644)).unwrap()
}

#[test]
fn encode_length_is_a_multiple_of_eight() {
    for len in [0usize, 1, 7, 8, 4095, 4096, 10000] {
        let bytes = entry_with_path_len(len).encode();
        assert_eq!(bytes.len() % 8, 0, "path of {} bytes", len);
    }
}

#[test]
fn encode_pads_with_one_to_eight_zero_bytes() {
    let expected = [(0usize, 64usize), (1, 64), (2, 72), (7, 72), (8, 72), (9, 72), (10, 80)];
    for (len, total) in expected {
        let bytes = entry_with_path_len(len).encode();
        assert_eq!(bytes.len(), total, "path of {} bytes", len);
        assert!(bytes[62 + len..].iter().all(|b| *b == 0));
    }
}

#[test]
fn encode_appends_a_whole_block_when_already_aligned() {
    // 62 + 2 = 64 is a multiple of eight: eight zero bytes follow all the same.
    let bytes = entry_with_path_len(2).encode();
    assert_eq!(bytes.len(), 72);
    assert_eq!(&bytes[64..], &[0u8; 8]);
}

#[test]
fn flags_hold_the_path_length_up_to_4095() {
    for (len, flags) in [(0usize, 0u16), (1, 1), (4094, 4094), (4095, 4095), (4096, 4095), (10000, 4095)] {
        let entry = entry_with_path_len(len);
        assert_eq!(entry.flags(), flags, "path of {} bytes", len);
        let bytes = entry.encode();
        assert_eq!(&bytes[60..62], &flags.to_be_bytes());
    }
}

#[test]
fn mode_depends_on_the_owner_execute_bit_alone() {
    for mode in [0o100755u32, 0o100700, 0o100100, 0o777, 0o100, 0o40755, 0xFFFF_FFFF] {
        let entry = Entry::new(b"x".to_vec(), [0u8; 20], stat(mode)).unwrap();
        assert_eq!(entry.mode(), 0x0000_81ED, "mode {:o}", mode);
        assert_eq!(&entry.encode()[24..28], &[0x00, 0x00, 0x81, 0xED]);
    }
    for mode in [0o100644u32, 0o100600, 0o100011, 0o677, 0, 0o40655, 0xFFFF_FFBF] {
        let entry = Entry::new(b"x".to_vec(), [0u8; 20], stat(mode)).unwrap();
        assert_eq!(entry.mode(), 0x0000_81A4, "mode {:o}", mode);
        assert_eq!(&entry.encode()[24..28], &[0x00, 0x00, 0x81, 0xA4]);
    }
}

#[test]
fn encode_lays_the_fields_out_big_endian() {
    let entry = Entry::new(b"dir/file.rs".to_vec(), oid(), stat(0o100755)).unwrap();
    let mut expected: Vec<u8> = vec![
        0x01, 0x02, 0x03, 0x04, // ctime
        0x05, 0x06, 0x07, 0x08, // ctime_nsec
        0x11, 0x12, 0x13, 0x14, // mtime
        0x15, 0x16, 0x17, 0x18, // mtime_nsec
        0x21, 0x22, 0x23, 0x24, // dev
        0x25, 0x26, 0x27, 0x28, // ino
        0x00, 0x00, 0x81, 0xED, // mode
        0x31, 0x32, 0x33, 0x34, // uid
        0x35, 0x36, 0x37, 0x38, // gid
        0x41, 0x42, 0x43, 0x44, // size
    ];
    expected.extend_from_slice(&oid());
    expected.extend_from_slice(&[0x00, 0x0B]);
    expected.extend_from_slice(b"dir/file.rs");
    expected.extend_from_slice(&[0u8; 7]);
    assert_eq!(expected.len(), 80);
    assert_eq!(entry.encode(), expected);
}

#[test]
fn new_keeps_the_low_32_bits() {
    let wide = FileStat {
        ctime: 0x1_0000_0005,
        ctime_nsec: -1,
        mtime: -2,
        mtime_nsec: i64::MIN,
        dev: 0xFFFF_FFFF_0000_0001,
        ino: u64::MAX,
        mode: 0,
        uid: u32::MAX,
        gid: 0,
        size: 0x7_0000_0000,
    };
    let entry = Entry::new(b"f".to_vec(), [0u8; 20], wide).unwrap();
    assert_eq!(entry.ctime(), 5);
    assert_eq!(entry.ctime_nsec(), 0xFFFF_FFFF);
    assert_eq!(entry.mtime(), 0xFFFF_FFFE);
    assert_eq!(entry.mtime_nsec(), 0);
    assert_eq!(entry.dev(), 1);
    assert_eq!(entry.ino(), 0xFFFF_FFFF);
    assert_eq!(entry.uid(), u32::MAX);
    assert_eq!(entry.gid(), 0);
    assert_eq!(entry.size(), 0);
    assert_eq!(entry.ctime(), (wide.ctime as u64 & 0xFFFF_FFFF) as u32);
    assert_eq!(entry.mtime(), wide.mtime.to_be_bytes()[4..8].iter().fold(0u32, |n, b| n << 8 | *b as u32));
}

#[test]
fn new_keeps_path_and_content_id() {
    let entry = Entry::new(b"a/b".to_vec(), oid(), stat(0o644)).unwrap();
    assert_eq!(entry.path(), b"a/b");
    assert_eq!(entry.oid(), oid());
    assert_eq!(entry.uid(), 0x3132_3334);
    assert_eq!(entry.gid(), 0x3536_3738);
    assert_eq!(entry.ino(), 0x2526_2728);
    assert_eq!(entry.dev(), 0x2122_2324);
    assert_eq!(entry.size(), 0x4142_4344);
    assert_eq!(entry.mtime_nsec(), 0x1516_1718);
}

#[test]
fn a_path_with_a_zero_byte_is_refused() {
    for path in [vec![0u8], vec![b'a', 0, b'b'], vec![b'a', b'b', 0]] {
        let made = Entry::new(path, [0u8; 20], stat(0o100644));
        assert_eq!(made.err(), Some(IndexError::EncodingError));
    }
}

#[test]
fn decode_gives_back_what_was_encoded() {
    let entry = Entry::new(b"src/main.rs".to_vec(), oid(), stat(0o100755)).unwrap();
    let bytes = entry.encode();
    let back = Entry::decode(&bytes).unwrap();
    assert_eq!(back.ctime(), entry.ctime());
    assert_eq!(back.ctime_nsec(), entry.ctime_nsec());
    assert_eq!(back.mtime(), entry.mtime());
    assert_eq!(back.mtime_nsec(), entry.mtime_nsec());
    assert_eq!(back.dev(), entry.dev());
    assert_eq!(back.ino(), entry.ino());
    assert_eq!(back.mode(), entry.mode());
    assert_eq!(back.uid(), entry.uid());
    assert_eq!(back.gid(), entry.gid());
    assert_eq!(back.size(), entry.size());
    assert_eq!(back.oid(), entry.oid());
    assert_eq!(back.flags(), entry.flags());
    assert_eq!(back.path(), entry.path());
    assert_eq!(back.encode(), bytes);
}

#[test]
fn decode_round_trips_at_every_padding() {
    for len in [0usize, 1, 2, 3, 7, 8, 9, 4095, 4096, 10000] {
        let entry = entry_with_path_len(len);
        let bytes = entry.encode();
        let back = Entry::decode(&bytes).unwrap();
        assert_eq!(back.path().len(), len);
        assert_eq!(back.flags(), entry.flags());
        assert_eq!(back.encode(), bytes);
    }
}

#[test]
fn decode_reads_the_first_of_several_records() {
    let first = Entry::new(b"a.txt".to_vec(), oid(), stat(0o100644)).unwrap();
    let second = Entry::new(b"b/c.txt".to_vec(), [7u8; 20], stat(0o100755)).unwrap();
    let mut bytes = first.encode();
    let first_len = bytes.len();
    bytes.extend_from_slice(&second.encode());
    let one = Entry::decode(&bytes).unwrap();
    assert_eq!(one.path(), b"a.txt");
    assert_eq!(one.encode().len(), first_len);
    let two = Entry::decode(&bytes[first_len..]).unwrap();
    assert_eq!(two.path(), b"b/c.txt");
    assert_eq!(two.mode(), 0x81ED);
    assert_eq!(two.oid(), [7u8; 20]);
}

#[test]
fn decode_refuses_what_is_no_record() {
    let good = Entry::new(b"a.txt".to_vec(), oid(), stat(0o100644)).unwrap().encode();
    assert_eq!(good.len(), 72);

    // Too short for the fixed part, or cut inside the padding.
    assert_eq!(Entry::decode(&[]).err(), Some(IndexError::EncodingError));
    assert_eq!(Entry::decode(&good[..62]).err(), Some(IndexError::EncodingError));
    assert_eq!(Entry::decode(&good[..67]).err(), Some(IndexError::EncodingError));
    assert_eq!(Entry::decode(&good[..71]).err(), Some(IndexError::EncodingError));

    // No zero byte after the path.
    let mut endless = good.clone();
    for byte in endless[67..].iter_mut() {
        *byte = b'z';
    }
    assert_eq!(Entry::decode(&endless).err(), Some(IndexError::EncodingError));

    // Padding that is not zero.
    let mut dirty = good.clone();
    dirty[70] = 1;
    assert_eq!(Entry::decode(&dirty).err(), Some(IndexError::EncodingError));

    // A mode that the index does not know.
    let mut odd_mode = good.clone();
    odd_mode[27] = 0xA5;
    assert_eq!(Entry::decode(&odd_mode).err(), Some(IndexError::EncodingError));

    // Flags that do not belong to the path.
    let mut odd_flags = good.clone();
    odd_flags[61] = 6;
    assert_eq!(Entry::decode(&odd_flags).err(), Some(IndexError::EncodingError));

    assert!(Entry::decode(&good).is_ok());
}

#[test]
fn clone_keeps_every_field() {
    let entry = Entry::new(b"a/b".to_vec(), oid(), stat(0o755)).unwrap();
    let copy = entry.clone();
    assert_eq!(copy.encode(), entry.encode());
}
