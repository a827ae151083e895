use litegit::directory::{Directory, Path};
use litegit::hash;
use litegit::tree::{read_tree, EntryType, FileType, Mode, TreeIter};
use litegit::Error;

fn entry(mode: &str, name: &str, fill: u8) -> Vec<u8> {
    let mut v = format!("{} {}\0", mode, name).into_bytes();
    v.extend_from_slice(&[fill; 20]);
    v
}

#[test]
fn tree_round_trip() {
    let mut dir = Directory::new();
    dir.insert(b"b.txt".to_vec(), hash::Hash::new([2; 20]), Mode::RegularFile);
    dir.insert(b"a".to_vec(), hash::Hash::new([1; 20]), Mode::Directory);
    dir.insert(b"run".to_vec(), hash::Hash::new([3; 20]), Mode::ExecutableFile);
    let bytes = dir.serialize();
    let entries = read_tree(&bytes).unwrap();
    assert_eq!(entries.len(), 3);
    assert_eq!(entries[0].0, b"a".to_vec());
    assert_eq!(entries[0].2, Mode::Directory);
    assert_eq!(entries[1].0, b"b.txt".to_vec());
    assert_eq!(entries[2].0, b"run".to_vec());
    assert!(entries[2].1 == hash::Hash::new([3; 20]));
}

#[test]
fn directory_mode_written_without_leading_zero() {
    let mut dir = Directory::new();
    dir.insert(b"d".to_vec(), hash::Hash::new([7; 20]), Mode::Directory);
    assert_eq!(dir.serialize(), entry("40000", "d", 7));
}

#[test]
fn directories_sort_as_if_ending_with_slash() {
    let mut dir = Directory::new();
    dir.insert(b"a".to_vec(), hash::Hash::new([1; 20]), Mode::Directory);
    dir.insert(b"a.txt".to_vec(), hash::Hash::new([2; 20]), Mode::RegularFile);
    let mut expected = entry("100644", "a.txt", 2);
    expected.extend(entry("40000", "a", 1));
    assert_eq!(dir.serialize(), expected);
}

#[test]
fn both_directory_mode_spellings_decode() {
    for mode in ["040000", "40000"] {
        let bytes = entry(mode, "x", 9);
        let mut it = TreeIter::new(&bytes);
        let (name, h, m) = it.next().unwrap().unwrap();
        assert_eq!(name, b"x".to_vec());
        assert!(h == hash::Hash::new([9; 20]));
        assert_eq!(m, Mode::Directory);
        assert!(it.next().unwrap().is_none());
    }
}

#[test]
fn every_file_mode_decodes() {
    let cases = [
        ("100644", Mode::RegularFile),
        ("100664", Mode::GroupWriteableFile),
        ("100755", Mode::ExecutableFile),
        ("120000", Mode::SymbolicLink),
        ("160000", Mode::Gitlink),
    ];
    for (text, mode) in cases {
        let bytes = entry(text, "f", 1);
        assert_eq!(read_tree(&bytes).unwrap()[0].2, mode);
    }
}

#[test]
fn unknown_mode_is_invalid_object() {
    for text in ["100645", "0040000", "4000", ""] {
        let bytes = entry(text, "f", 1);
        assert!(matches!(read_tree(&bytes), Err(Error::InvalidObject)));
    }
}

#[test]
fn missing_nul_or_truncated_hash_is_invalid_object() {
    assert!(matches!(read_tree(b"100644 f"), Err(Error::InvalidObject)));
    let mut short = entry("100644", "f", 1);
    short.pop();
    assert!(matches!(read_tree(&short), Err(Error::InvalidObject)));
    assert!(matches!(read_tree(b"100644f\0aaaaaaaaaaaaaaaaaaaa"), Err(Error::InvalidObject)));
}

#[test]
fn empty_tree_has_no_entries() {
    assert!(read_tree(b"").unwrap().is_empty());
}

#[test]
fn directory_insert_remove_and_get() {
    let mut dir = Directory::new();
    dir.insert(b"f".to_vec(), hash::Hash::new([1; 20]), Mode::RegularFile);
    dir.insert(b"f".to_vec(), hash::Hash::new([2; 20]), Mode::ExecutableFile);
    assert_eq!(dir.len(), 1);
    let (h, m) = dir.get(b"f").unwrap();
    assert!(h == hash::Hash::new([2; 20]));
    assert_eq!(m, Mode::ExecutableFile);
    let before = dir.serialize();
    dir.insert(b"g".to_vec(), hash::Hash::new([3; 20]), Mode::RegularFile);
    dir.remove(b"g");
    assert_eq!(dir.serialize(), before);
    dir.remove(b"f");
    assert!(dir.is_empty());
}

#[test]
fn from_tree_rejects_slash_in_name() {
    let bytes = entry("100644", "a/b", 1);
    assert!(matches!(Directory::from_tree(&bytes), Err(Error::InvalidObject)));
}

#[test]
fn path_components() {
    let p = Path::new("/a//b/c.txt/");
    assert_eq!(p.all(), vec![b"a".to_vec(), b"b".to_vec(), b"c.txt".to_vec()]);
    assert_eq!(p.dirs().unwrap(), vec![b"a".to_vec(), b"b".to_vec()]);
    assert_eq!(p.file().unwrap(), b"c.txt".to_vec());
}

#[test]
fn empty_path_is_path_error() {
    for text in ["", "///"] {
        let p = Path::new(text);
        assert!(matches!(p.dirs(), Err(Error::PathError)));
        assert!(matches!(p.file(), Err(Error::PathError)));
        assert!(p.all().is_empty());
    }
}

#[test]
fn mode_filters_and_file_types() {
    assert!(Mode::Directory.matches(EntryType::Directory));
    assert!(!Mode::Directory.matches(EntryType::File));
    assert!(Mode::Directory.matches(EntryType::All));
    assert!(Mode::RegularFile.matches(EntryType::File));
    assert!(!Mode::SymbolicLink.matches(EntryType::Directory));
    assert_eq!(Mode::from(FileType::Gitlink), Mode::Gitlink);
    assert_eq!(Mode::from(FileType::GroupWriteableFile), Mode::GroupWriteableFile);
}

#[test]
fn non_utf8_entry_name_is_invalid_object() {
    let mut bytes = b"100644 \xff\0".to_vec();
    bytes.extend_from_slice(&[1; 20]);
    assert!(matches!(read_tree(&bytes), Err(Error::InvalidObject)));
}
