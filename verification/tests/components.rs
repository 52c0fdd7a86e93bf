use ass::{bits, ASS, MemFile, OpeningError, Task};

fn v(b: &[u8]) -> Vec<u8> {
    Vec::from(b)
}

#[test]
fn test_bits_msb_first() {
    // 0xB4 = 1011_0100
    assert_eq!(
        bits(&[0xB4]),
        vec![true, false, true, true, false, true, false, false]
    );
    assert_eq!(bits(&[]), Vec::<bool>::new());
    assert_eq!(
        bits(&[0x80, 0x01]),
        vec![
            true, false, false, false, false, false, false, false, false, false, false, false,
            false, false, false, true
        ]
    );
}

#[test]
fn test_gather_key_inverts_bits() {
    let key = v(b"Spongebob");
    let task = Task {
        node_pos: 0,
        path: bits(&key),
    };
    assert_eq!(task.gather_key(), key);
}

#[test]
fn test_gather_key_empty_path() {
    let task = Task {
        node_pos: 0,
        path: Vec::new(),
    };
    assert_eq!(task.gather_key(), v(b""));
}

#[test]
fn test_open_writes_the_fresh_image() {
    let ass = ASS::open(MemFile::new()).unwrap();
    let image = ass.into_file().to_vec();
    let mut expected = v(b"ASS v1\0");
    // Pinned first block: prev = NIL, length = 24, next = NIL.
    expected.extend_from_slice(&0u64.to_be_bytes());
    expected.extend_from_slice(&24u64.to_be_bytes());
    expected.extend_from_slice(&0u64.to_be_bytes());
    // Root node: false_child, true_child, content all NIL.
    expected.extend_from_slice(&0u64.to_be_bytes());
    expected.extend_from_slice(&0u64.to_be_bytes());
    expected.extend_from_slice(&0u64.to_be_bytes());
    assert_eq!(image, expected);
    assert_eq!(image.len(), 55);
}

#[test]
fn test_open_accepts_its_own_file() {
    let ass = ASS::open(MemFile::new()).unwrap();
    let file = ass.into_file();
    assert!(ASS::open(file).is_ok());
}

#[test]
fn test_open_rejects_foreign_bytes() {
    let r = ASS::open(MemFile::from_vec(v(b"BMP v1\0 and then some")));
    assert!(matches!(r, Err(OpeningError::Assless())));
}

#[test]
fn test_open_rejects_short_file() {
    let r = ASS::open(MemFile::from_vec(v(b"ASS")));
    assert!(matches!(r, Err(OpeningError::Assless())));
}

#[test]
fn test_first_set_appends_after_pinned_block() {
    let mut ass = ASS::open(MemFile::new()).unwrap();
    assert_eq!(ass.set(b"", b"xy"), None);
    let image = ass.into_file().to_vec();
    // The content block lands right after the pinned block's payload, at
    // offset 55: prev = 7, length = 2, next = NIL, then the payload.
    assert_eq!(image.len(), 55 + 24 + 2);
    assert_eq!(&image[55..63], &7u64.to_be_bytes());
    assert_eq!(&image[63..71], &2u64.to_be_bytes());
    assert_eq!(&image[71..79], &0u64.to_be_bytes());
    assert_eq!(&image[79..81], b"xy");
    // The pinned block's next field points at it.
    assert_eq!(&image[23..31], &55u64.to_be_bytes());
    // The root node's content field holds the block's address.
    assert_eq!(&image[47..55], &55u64.to_be_bytes());
}
