use ass::{ASS, ASSFile, MemFile};

fn v(b: &[u8]) -> Vec<u8> {
    Vec::from(b)
}

fn set_get() -> ASS<MemFile> {
    let mut ass = ASS::open(MemFile::new()).unwrap();
    assert_eq!(ass.set(b"Drunk", b"Driving"), None);
    assert_eq!(ass.set(b"Spongebob", b"Squarewave"), None);
    assert_eq!(ass.set(b"Drunk", b"Driving"), Some(v(b"Driving")));
    assert_eq!(ass.get(b"Spongebob"), Some(v(b"Squarewave")));
    assert_eq!(ass.get(b"Drunk"), Some(v(b"Driving")));
    assert_eq!(ass.get(b"DISTONN"), None);
    ass
}

fn len<F: ASSFile>(ass: &mut ASS<F>) -> u64 {
    ass.file_len()
}

#[test]
fn test_set_get() {
    set_get();
}

#[test]
fn test_replacing() {
    let mut ass = set_get();

    let len_1 = len(&mut ass);

    assert_eq!(
        ass.set(b"Spongebob", b"Squarepants"),
        Some(Vec::from(b"Squarewave" as &[u8]))
    );

    let len_2 = len(&mut ass);

    assert_eq!(len_1, len_2 - 1);

    assert_eq!(
        ass.set(b"Spongebob", b"Squarepants"),
        Some(Vec::from(b"Squarepants" as &[u8]))
    );

    let len_3 = len(&mut ass);

    assert_eq!(len_2, len_3);
}

#[test]
fn test_listing() {
    let mut ass = set_get();

    let mut lister = ass.list();
    let mut listed: Vec<(Vec<u8>, Vec<u8>)> = Vec::new();
    while let Some(pair) = lister.next(&mut ass) {
        listed.push(pair);
    }

    assert_eq!(
        listed,
        vec![
            (v(b"Spongebob"), v(b"Squarewave")),
            (v(b"Drunk"), v(b"Driving"))
        ]
    );
}

#[test]
fn test_removing() {
    let mut ass = set_get();

    assert_eq!(ass.remove(b"Spongebob"), Some(v(b"Squarewave")));
    assert_eq!(ass.remove(b"Spongebob"), None);
}

#[test]
fn test_branch_reduction() {
    let mut ass = set_get();

    let source_len = len(&mut ass);

    assert_eq!(ass.set(b"Spongebob1", b"TEST"), None);

    let len_after_addition = len(&mut ass);

    assert_eq!(source_len, len_after_addition - (24 * 2) * 8 - 24 - 4);

    assert_eq!(ass.remove(b"Spongebob1"), Some(v(b"TEST")));
    assert_eq!(ass.remove(b"Spongebob1"), None);
    assert_eq!(ass.get(b"Spongebob"), Some(v(b"Squarewave")));

    let len_after_removal = len(&mut ass);

    assert_eq!(source_len, len_after_removal);
}

#[test]
fn test_empty_value_is_distinct_from_absence() {
    let mut ass = ASS::open(MemFile::new()).unwrap();
    assert_eq!(ass.set(b"k", b""), None);
    assert_eq!(ass.get(b"k"), Some(v(b"")));
    assert_eq!(ass.remove(b"k"), Some(v(b"")));
    assert_eq!(ass.get(b"k"), None);
}

#[test]
fn test_empty_value_leaves_file_length_alone() {
    let mut ass = ASS::open(MemFile::new()).unwrap();
    let fresh = len(&mut ass);
    // The empty value is stored as a sentinel, without a block; only the
    // trie nodes for the key's bits grow the file.
    assert_eq!(ass.set(b"", b""), None);
    assert_eq!(len(&mut ass), fresh);
    assert_eq!(ass.remove(b""), Some(v(b"")));
    assert_eq!(len(&mut ass), fresh);
}

#[test]
fn test_empty_key_uses_the_root_node() {
    let mut ass = ASS::open(MemFile::new()).unwrap();
    assert_eq!(ass.get(b""), None);
    assert_eq!(ass.set(b"", b"rootward"), None);
    assert_eq!(ass.get(b""), Some(v(b"rootward")));
    assert_eq!(ass.set(b"", b"again"), Some(v(b"rootward")));

    let mut lister = ass.list();
    let mut listed: Vec<(Vec<u8>, Vec<u8>)> = Vec::new();
    while let Some(pair) = lister.next(&mut ass) {
        listed.push(pair);
    }
    assert_eq!(listed, vec![(v(b""), v(b"again"))]);

    assert_eq!(ass.remove(b""), Some(v(b"again")));
    assert_eq!(ass.get(b""), None);
}

#[test]
fn test_set_remove_restores_length_from_fresh() {
    let mut ass = ASS::open(MemFile::new()).unwrap();
    let fresh = len(&mut ass);
    assert_eq!(ass.set(b"some key", b"some value"), None);
    assert!(len(&mut ass) > fresh);
    assert_eq!(ass.remove(b"some key"), Some(v(b"some value")));
    assert_eq!(len(&mut ass), fresh);
}

#[test]
fn test_get_agrees_with_last_write() {
    let mut ass = ASS::open(MemFile::new()).unwrap();
    assert_eq!(ass.set(b"a", b"1"), None);
    assert_eq!(ass.set(b"a", b"2"), Some(v(b"1")));
    assert_eq!(ass.get(b"a"), Some(v(b"2")));
    assert_eq!(ass.remove(b"a"), Some(v(b"2")));
    assert_eq!(ass.get(b"a"), None);
    assert_eq!(ass.set(b"a", b"3"), None);
    assert_eq!(ass.get(b"a"), Some(v(b"3")));
}

#[test]
fn test_prefix_keys_do_not_alias() {
    let mut ass = ASS::open(MemFile::new()).unwrap();
    assert_eq!(ass.set(b"ab", b"long"), None);
    assert_eq!(ass.set(b"a", b"short"), None);
    assert_eq!(ass.get(b"ab"), Some(v(b"long")));
    assert_eq!(ass.get(b"a"), Some(v(b"short")));
    assert_eq!(ass.remove(b"a"), Some(v(b"short")));
    assert_eq!(ass.get(b"ab"), Some(v(b"long")));
}

#[test]
fn test_set_remove_restores_bytes() {
    let mut ass = ASS::open(MemFile::new()).unwrap();
    assert_eq!(ass.set(b"bytes", b"exact"), None);
    assert_eq!(ass.remove(b"bytes"), Some(v(b"exact")));
    let after = ass.into_file().to_vec();
    let fresh = ASS::open(MemFile::new()).unwrap().into_file().to_vec();
    assert_eq!(after, fresh);
}

#[test]
fn test_set_twice_same_bytes() {
    let mut once = ASS::open(MemFile::new()).unwrap();
    assert_eq!(once.set(b"idem", b"potent"), None);
    let once_image = once.into_file().to_vec();

    let mut twice = ASS::open(MemFile::new()).unwrap();
    assert_eq!(twice.set(b"idem", b"potent"), None);
    assert_eq!(twice.set(b"idem", b"potent"), Some(v(b"potent")));
    let twice_image = twice.into_file().to_vec();

    assert_eq!(once_image, twice_image);
}

#[test]
fn test_reopening_keeps_entries() {
    let mut ass = ASS::open(MemFile::new()).unwrap();
    assert_eq!(ass.set(b"stay", b"put"), None);
    let file = ass.into_file();
    let mut reopened = ASS::open(file).unwrap();
    assert_eq!(reopened.get(b"stay"), Some(v(b"put")));
}
