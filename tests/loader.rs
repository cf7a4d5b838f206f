use hdb_acc::entry::{classify, name_less, shard_order, DirEntryInfo, EntryKind};
use hdb_acc::scalar::{hash_bytes_to_scalar, Scalar};
use hdb_acc::shard::{
    append_shard_scalars, scalars_of_shards, HdbAccError, ShardFile, ENTRY_BYTE_LENGTH,
    HASH_BYTE_LENGTH,
};

fn file(name: &str) -> DirEntryInfo {
    DirEntryInfo { name: name.as_bytes().to_vec(), is_dir: false }
}

fn dir(name: &str) -> DirEntryInfo {
    DirEntryInfo { name: name.as_bytes().to_vec(), is_dir: true }
}

fn record(first: u8, second: u8) -> [u8; ENTRY_BYTE_LENGTH] {
    let mut entry = [0u8; ENTRY_BYTE_LENGTH];
    entry[0] = first;
    entry[1] = second;
    entry
}

/// Reads the listed shards, in the order the library chooses, from `files`
/// (name and contents of every plain file of the listing).
fn load(entries: &Vec<DirEntryInfo>, files: &[(&str, Vec<u8>)]) -> Result<Vec<Scalar>, HdbAccError> {
    let order = shard_order(entries);
    let mut shards = Vec::new();
    for i in order {
        let name = &entries[i].name;
        let contents = files
            .iter()
            .find(|(n, _)| n.as_bytes() == name.as_slice())
            .map(|(_, c)| c.clone())
            .unwrap_or_default();
        shards.push(ShardFile { path: name.clone(), contents });
    }
    scalars_of_shards(&shards)
}

fn sample_listing() -> (Vec<DirEntryInfo>, Vec<(&'static str, Vec<u8>)>, Vec<Scalar>) {
    let mut expected = Vec::new();
    let mut shard00 = Vec::new();
    for i in 0..3u8 {
        let entry = record(0x00, i);
        shard00.extend_from_slice(&entry);
        expected.push(hash_bytes_to_scalar(&entry[..HASH_BYTE_LENGTH]));
    }
    let mut shard02 = Vec::new();
    for i in 10..12u8 {
        let entry = record(0x02, i);
        shard02.extend_from_slice(&entry);
        expected.push(hash_bytes_to_scalar(&entry[..HASH_BYTE_LENGTH]));
    }
    let entries = vec![
        file("some_other_file.txt"),
        file("02"),
        dir("index"),
        file("hlt.json"),
        file("00"),
        file("BUILD_INFO.json"),
    ];
    let files = vec![
        ("00", shard00),
        ("02", shard02),
        ("hlt.json", vec![1u8; 40]),
        ("BUILD_INFO.json", vec![2u8; 39]),
        ("some_other_file.txt", vec![3u8; 7]),
    ];
    (entries, files, expected)
}

fn small_scalar_bytes(first: u8, second: u8) -> Vec<u8> {
    let mut b = vec![0u8; 32];
    b[0] = first;
    b[1] = second;
    b
}

#[test]
fn test_load_hdb_hashes() {
    let (entries, files, expected_scalars) = sample_listing();
    let loaded_scalars = load(&entries, &files).unwrap();
    assert_eq!(loaded_scalars.len(), 5);
    assert_eq!(loaded_scalars, expected_scalars);
}

#[test]
fn test_load_hdb_hashes_empty_dir() {
    let loaded_scalars = load(&Vec::new(), &[]).unwrap();
    assert!(loaded_scalars.is_empty());
}

#[test]
fn test_load_hdb_invalid_entry_size() {
    let entries = vec![file("00")];
    let files = [("00", vec![0u8; ENTRY_BYTE_LENGTH - 1])];
    let result = load(&entries, &files);
    assert!(result.is_err());
    let err = result.unwrap_err();
    assert!(matches!(err, HdbAccError::InvalidEntrySize(ref p, sz) if sz == ENTRY_BYTE_LENGTH - 1 && p.as_slice() == b"00"));
}

#[test]
fn sample_scalars_are_the_record_prefixes() {
    let (entries, files, _) = sample_listing();
    let loaded = load(&entries, &files).unwrap();
    let bytes: Vec<Vec<u8>> = loaded.iter().map(|s| s.to_le_bytes()).collect();
    assert_eq!(
        bytes,
        vec![
            small_scalar_bytes(0x00, 0),
            small_scalar_bytes(0x00, 1),
            small_scalar_bytes(0x00, 2),
            small_scalar_bytes(0x02, 10),
            small_scalar_bytes(0x02, 11),
        ]
    );
}

#[test]
fn hash_above_modulus_is_reduced() {
    let s = hash_bytes_to_scalar(&[0xffu8; 32]);
    assert_eq!(
        s.to_le_bytes(),
        vec![
            253, 255, 255, 255, 1, 0, 0, 0, 2, 72, 3, 0, 250, 183, 132, 88, 245, 79, 188, 236,
            239, 79, 140, 153, 111, 5, 197, 172, 89, 177, 36, 24,
        ]
    );
}

#[test]
fn modulus_plus_five_reduces_to_five() {
    let mut modulus: Vec<u8> = vec![
        1, 0, 0, 0, 255, 255, 255, 255, 254, 91, 254, 255, 2, 164, 189, 83, 5, 216, 161, 9, 8,
        216, 57, 51, 72, 125, 157, 41, 83, 167, 237, 115,
    ];
    assert_eq!(hash_bytes_to_scalar(&modulus).to_le_bytes(), vec![0u8; 32]);
    modulus[0] += 5;
    assert_eq!(hash_bytes_to_scalar(&modulus).to_le_bytes(), small_scalar_bytes(5, 0));
}

#[test]
fn ignored_entries_contribute_nothing() {
    let (entries, mut files, expected) = sample_listing();
    files[2].1 = vec![9u8; 80];
    files[3].1 = vec![9u8; 80];
    files[4].1 = vec![9u8; 80];
    assert_eq!(load(&entries, &files).unwrap(), expected);
}

#[test]
fn only_ignored_entries_give_nothing() {
    let entries = vec![dir("index"), file("hlt.json"), file("BUILD_INFO.json"), file("x.wip")];
    let files = [("hlt.json", vec![1u8; 3]), ("x.wip", vec![1u8; 40])];
    assert!(shard_order(&entries).is_empty());
    assert!(load(&entries, &files).unwrap().is_empty());
}

#[test]
fn record_count_and_order_within_a_shard() {
    let mut contents = Vec::new();
    for i in 0..4u8 {
        contents.extend_from_slice(&record(7, 40 - i));
    }
    let mut out = Vec::new();
    append_shard_scalars(&mut out, &b"ab".to_vec(), &contents).unwrap();
    assert_eq!(out.len(), 4);
    for (i, s) in out.iter().enumerate() {
        assert_eq!(s.to_le_bytes(), small_scalar_bytes(7, 40 - i as u8));
    }
}

#[test]
fn shard_order_ignores_listing_order() {
    let forward = vec![file("00"), file("0a"), file("1"), file("ff")];
    let backward = vec![file("ff"), file("1"), file("0a"), file("00")];
    assert_eq!(shard_order(&forward), vec![0, 1, 2, 3]);
    assert_eq!(shard_order(&backward), vec![3, 2, 1, 0]);
    let files = [
        ("00", record(1, 0).to_vec()),
        ("0a", record(2, 0).to_vec()),
        ("1", record(3, 0).to_vec()),
        ("ff", record(4, 0).to_vec()),
    ];
    assert_eq!(load(&forward, &files).unwrap(), load(&backward, &files).unwrap());
}

#[test]
fn earlier_name_comes_first() {
    let entries = vec![file("b"), file("ab"), file("a")];
    let files = [("b", record(3, 0).to_vec()), ("ab", record(2, 0).to_vec()), ("a", record(1, 0).to_vec())];
    assert_eq!(shard_order(&entries), vec![2, 1, 0]);
    let bytes: Vec<Vec<u8>> = load(&entries, &files).unwrap().iter().map(|s| s.to_le_bytes()).collect();
    assert_eq!(bytes, vec![small_scalar_bytes(1, 0), small_scalar_bytes(2, 0), small_scalar_bytes(3, 0)]);
}

#[test]
fn trailing_bytes_do_not_matter() {
    let mut a = record(5, 6);
    let mut b = record(5, 6);
    a[35] = 0xaa;
    b[39] = 0x55;
    let mut out = Vec::new();
    append_shard_scalars(&mut out, &b"x".to_vec(), &a).unwrap();
    append_shard_scalars(&mut out, &b"y".to_vec(), &b).unwrap();
    assert_eq!(out[0], out[1]);
}

#[test]
fn first_ill_sized_shard_is_reported() {
    let entries = vec![file("c"), file("b"), file("a")];
    let files = [("a", vec![0u8; 80]), ("b", vec![0u8; 41]), ("c", vec![0u8; 1])];
    match load(&entries, &files) {
        Err(HdbAccError::InvalidEntrySize(p, n)) => {
            assert_eq!(p, b"b".to_vec());
            assert_eq!(n, 41);
        }
        other => panic!("unexpected result {:?}", other),
    }
}

#[test]
fn failed_append_leaves_output_unchanged() {
    let mut out = vec![hash_bytes_to_scalar(&[1u8; 32])];
    let before = out.clone();
    let r = append_shard_scalars(&mut out, &b"p".to_vec(), &[0u8; 79]);
    assert!(matches!(r, Err(HdbAccError::InvalidEntrySize(_, 79))));
    assert_eq!(out, before);
}

#[test]
fn classification() {
    assert_eq!(classify(b"index", true), EntryKind::Ignore);
    assert_eq!(classify(b"00", true), EntryKind::Ignore);
    assert_eq!(classify(b"hlt.json", false), EntryKind::Ignore);
    assert_eq!(classify(b"BUILD_INFO.json", false), EntryKind::Ignore);
    assert_eq!(classify(b"some_other_file.txt", false), EntryKind::Ignore);
    assert_eq!(classify(b"00.i", false), EntryKind::Ignore);
    assert_eq!(classify(b"00.", false), EntryKind::Ignore);
    assert_eq!(classify(b".hidden", false), EntryKind::Shard);
    assert_eq!(classify(b"00", false), EntryKind::Shard);
    assert_eq!(classify(b"index", false), EntryKind::Shard);
    assert_eq!(classify(b"hlt", false), EntryKind::Shard);
}

#[test]
fn byte_wise_name_order() {
    assert!(name_less(b"", b"0"));
    assert!(name_less(b"0", b"00"));
    assert!(name_less(b"0f", b"1"));
    assert!(name_less(b"Z", b"a"));
    assert!(!name_less(b"ab", b"ab"));
    assert!(!name_less(b"b", b"ab"));
}
