use litegit::clone::{capability_offers_shallow, fetch_request, find_reference, is_packfile_marker, ls_refs_request, match_ref_line};
use litegit::hash;
use sha1::{Digest, Sha1};
use litegit::objects::{object_hash, ObjectType};
use litegit::push::{check_unpack, IdSet, PushPlan};
use litegit::tree::read_tree;
use litegit::{EntryType, Error, FileType, Mode, Reference, Repository};

fn tree_entries(repo: &Repository, id: hash::Hash) -> Vec<(Vec<u8>, hash::Hash, Mode)> {
    let content = repo.object_store().get_as(id, ObjectType::Tree).unwrap();
    read_tree(content).unwrap()
}

#[test]
fn stage_and_commit_nested_file() {
    let mut repo = Repository::new();
    repo.stage("a/b/c.txt", Some((b"hello".to_vec(), FileType::RegularFile))).unwrap();
    let head = repo.commit("m", ("N", "e"), ("N", "e"), Some(0)).unwrap();
    assert!(repo.head_hash() == head);
    let commit = repo.object_store().get_as(head, ObjectType::Commit).unwrap().to_vec();
    let text = String::from_utf8(commit).unwrap();
    let root = repo.root_hash().unwrap();
    let expected = format!(
        "tree {}\nauthor N <e> 0 +0000\ncommitter N <e> 0 +0000\n\nm\n",
        String::from_utf8(root.to_hex()).unwrap()
    );
    assert_eq!(text, expected);
    let top = tree_entries(&repo, root);
    assert_eq!(top.len(), 1);
    assert_eq!(top[0].0, b"a".to_vec());
    assert_eq!(top[0].2, Mode::Directory);
    let mid = tree_entries(&repo, top[0].1);
    assert_eq!(mid.len(), 1);
    assert_eq!(mid[0].0, b"b".to_vec());
    let low = tree_entries(&repo, mid[0].1);
    assert_eq!(low.len(), 1);
    assert_eq!(low[0].0, b"c.txt".to_vec());
    assert_eq!(low[0].2, Mode::RegularFile);
    assert_eq!(low[0].1.to_hex(), b"b6fc4c620b67d95f953a5c1c1230aaab5db5a1b0".to_vec());
}

#[test]
fn commit_records_root_as_tree_of_head() {
    let mut repo = Repository::new();
    repo.stage("x", Some((b"1".to_vec(), FileType::ExecutableFile))).unwrap();
    let head = repo.commit("first", ("A", "a@b"), ("C", "c@d"), Some(42)).unwrap();
    assert!(repo.get_commit_root(head).unwrap() == repo.root_hash());
    repo.stage("x", None).unwrap();
    assert!(repo.root_hash().is_none());
    let second = repo.commit("second", ("A", "a@b"), ("C", "c@d"), Some(43)).unwrap();
    let tree = repo.get_commit_root(second).unwrap().unwrap();
    assert!(tree.is_zero());
    let commit = repo.object_store().get_as(second, ObjectType::Commit).unwrap();
    let text = String::from_utf8(commit.to_vec()).unwrap();
    assert!(text.contains(&format!("parent {}\n", String::from_utf8(head.to_hex()).unwrap())));
}

#[test]
fn commit_rejects_bad_person_strings() {
    let mut repo = Repository::new();
    for (name, email) in [("a<b", "e"), ("n", "e>"), ("n\nx", "e")] {
        assert!(matches!(repo.commit("m", (name, email), ("N", "e"), Some(0)), Err(Error::InvalidObject)));
        assert!(matches!(repo.commit("m", ("N", "e"), (name, email), Some(0)), Err(Error::InvalidObject)));
    }
    assert!(repo.head_hash().is_zero());
}

#[test]
fn stage_then_unstage_restores_root() {
    let mut repo = Repository::new();
    repo.stage("keep/me.txt", Some((b"k".to_vec(), FileType::RegularFile))).unwrap();
    let before = repo.root_hash().unwrap();
    repo.stage("new/dir/file", Some((b"n".to_vec(), FileType::RegularFile))).unwrap();
    assert!(!(repo.root_hash().unwrap() == before));
    repo.stage("new/dir/file", None).unwrap();
    assert!(repo.root_hash().unwrap() == before);
    let mut empty = Repository::new();
    empty.stage("a/b", Some((b"x".to_vec(), FileType::SymbolicLink))).unwrap();
    empty.stage("a/b", None).unwrap();
    assert!(empty.root_hash().is_none());
}

#[test]
fn staged_copy_of_committed_object_is_dropped() {
    let mut repo = Repository::new();
    repo.stage("f", Some((b"same".to_vec(), FileType::RegularFile))).unwrap();
    repo.commit("m", ("N", "e"), ("N", "e"), Some(0)).unwrap();
    let blob = object_hash(ObjectType::Blob, b"same");
    assert!(repo.object_store().has(blob));
    repo.stage("g", Some((b"same".to_vec(), FileType::RegularFile))).unwrap();
    assert!(!repo.scratch_store().has(blob));
}

#[test]
fn stage_on_empty_path_is_path_error() {
    let mut repo = Repository::new();
    assert!(matches!(repo.stage("/", Some((b"x".to_vec(), FileType::RegularFile))), Err(Error::PathError)));
    assert!(repo.root_hash().is_none());
}

#[test]
fn read_back_staged_files() {
    let mut repo = Repository::new();
    repo.stage("docs/readme.md", Some((b"# hi".to_vec(), FileType::RegularFile))).unwrap();
    repo.stage("docs/img", Some((b"x".to_vec(), FileType::SymbolicLink))).unwrap();
    repo.stage("top", Some((b"t".to_vec(), FileType::RegularFile))).unwrap();
    assert_eq!(repo.read_file("docs/readme.md").unwrap(), b"# hi".to_vec());
    assert_eq!(repo.read_text("top").unwrap(), "t");
    let all = repo.read_dir("", EntryType::All).unwrap();
    assert_eq!(all.len(), 2);
    let dirs = repo.read_dir("/", EntryType::Directory).unwrap();
    assert_eq!(dirs, vec![(Mode::Directory, b"docs".to_vec())]);
    let files = repo.read_dir("docs", EntryType::File).unwrap();
    assert_eq!(files.len(), 2);
    assert!(matches!(repo.read_file("docs"), Err(Error::PathError)));
    assert!(matches!(repo.read_file("nope"), Err(Error::PathError)));
    assert!(matches!(Repository::new().read_file("x"), Err(Error::PathError)));
}

#[test]
fn clone_refuses_dirty_workspace() {
    let mut repo = Repository::new();
    assert!(repo.check_clean().is_ok());
    repo.stage("f", Some((b"x".to_vec(), FileType::RegularFile))).unwrap();
    assert!(matches!(repo.check_clean(), Err(Error::DirtyWorkspace)));
    repo.commit("m", ("N", "e"), ("N", "e"), Some(0)).unwrap();
    assert!(matches!(repo.check_clean(), Err(Error::DirtyWorkspace)));
    repo.complete_push();
    assert!(repo.check_clean().is_ok());
}

#[test]
fn discard_returns_to_upstream() {
    let mut repo = Repository::new();
    repo.stage("f", Some((b"x".to_vec(), FileType::RegularFile))).unwrap();
    repo.commit("m", ("N", "e"), ("N", "e"), Some(0)).unwrap();
    repo.complete_push();
    let root = repo.root_hash();
    repo.stage("g", Some((b"y".to_vec(), FileType::RegularFile))).unwrap();
    repo.commit("m2", ("N", "e"), ("N", "e"), Some(1)).unwrap();
    repo.discard().unwrap();
    assert!(repo.head_hash() == repo.upstream_hash());
    assert!(repo.root_hash() == root);
    assert!(repo.check_clean().is_ok());
}

#[test]
fn push_sets_upstream_to_head() {
    let mut repo = Repository::new();
    repo.stage("f", Some((b"x".to_vec(), FileType::RegularFile))).unwrap();
    let head = repo.commit("m", ("N", "e"), ("N", "e"), Some(0)).unwrap();
    assert!(repo.upstream_hash().is_zero());
    repo.complete_push();
    assert!(repo.upstream_hash() == head);
}

#[test]
fn shallow_clone_of_recorded_pack() {
    let mut source = Repository::new();
    source.stage("one.txt", Some((b"1".to_vec(), FileType::RegularFile))).unwrap();
    source.commit("c1", ("N", "e"), ("N", "e"), Some(1)).unwrap();
    source.stage("two.txt", Some((b"2".to_vec(), FileType::RegularFile))).unwrap();
    source.commit("c2", ("N", "e"), ("N", "e"), Some(2)).unwrap();
    source.stage("one.txt", Some((b"one".to_vec(), FileType::RegularFile))).unwrap();
    let tip = source.commit("c3", ("N", "e"), ("N", "e"), Some(3)).unwrap();
    let parent = litegit::commit::CommitParentsIter::new(
        source.object_store().get_as(tip, ObjectType::Commit).unwrap(),
    )
    .next()
    .unwrap()
    .unwrap();
    let mut keep = IdSet::new();
    keep.insert(parent);
    let pack = source.pack(keep, &[("main", tip)]).unwrap();
    assert_eq!(&pack[8..12], &[0, 0, 0, 4]);
    let mut clone = Repository::new();
    clone.import_packfile(pack, Some(tip)).unwrap();
    assert!(clone.head_hash() == tip);
    assert!(clone.upstream_hash() == tip);
    assert!(clone.get_commit_root(tip).unwrap() == clone.root_hash());
    assert!(clone.object_store().has(tip));
    assert!(!clone.object_store().has(parent));
    assert_eq!(clone.read_file("one.txt").unwrap(), b"one".to_vec());
    assert_eq!(clone.read_file("two.txt").unwrap(), b"2".to_vec());
}

#[test]
fn unknown_branch_is_not_matched() {
    let lines: [&[u8]; 2] = [
        b"1111111111111111111111111111111111111111 HEAD",
        b"2222222222222222222222222222222222222222 refs/heads/main",
    ];
    for line in lines {
        assert!(match_ref_line(line, &Reference::Branch("no-such")).unwrap().is_none());
    }
    let main = match_ref_line(lines[1], &Reference::Branch("main")).unwrap().unwrap();
    assert_eq!(main.to_hex(), b"2222222222222222222222222222222222222222".to_vec());
    let head = match_ref_line(lines[0], &Reference::Head).unwrap().unwrap();
    assert_eq!(head.to_hex(), b"1111111111111111111111111111111111111111".to_vec());
    assert!(matches!(match_ref_line(b"nospace", &Reference::Head), Err(Error::GitProtocolError)));
    assert!(matches!(match_ref_line(b"xyz HEAD", &Reference::Head), Err(Error::GitProtocolError)));
}

#[test]
fn deepen_needs_shallow_capability() {
    let want = hash::Hash::new([0xab; 20]);
    assert!(matches!(fetch_request(want, Some(1), false), Err(Error::UnsupportedByRemote)));
    let req = String::from_utf8(fetch_request(want, Some(1), true).unwrap()).unwrap();
    let hex = "ab".repeat(20);
    assert_eq!(
        req,
        format!("0012command=fetch\n00010031want {}000fno-progress000cdeepen 10008done0000", hex)
    );
    let full = String::from_utf8(fetch_request(want, None, false).unwrap()).unwrap();
    assert!(!full.contains("deepen"));
    assert!(capability_offers_shallow(b"fetch=shallow wait-for-done"));
    assert!(capability_offers_shallow(b"fetch=filter shallow"));
    assert!(!capability_offers_shallow(b"fetch=filter"));
    assert!(!capability_offers_shallow(b"ls-refs=shallow"));
    assert_eq!(ls_refs_request(), b"0014command=ls-refs\n00010000".to_vec());
    assert!(is_packfile_marker(b"packfile\n"));
    assert!(!is_packfile_marker(b"packfile"));
}

#[test]
fn push_with_thin_pack_and_force() {
    let mut repo = Repository::new();
    repo.stage("f", Some((b"old".to_vec(), FileType::RegularFile))).unwrap();
    let old = repo.commit("1", ("N", "e"), ("N", "e"), Some(1)).unwrap();
    repo.stage("g", Some((b"new".to_vec(), FileType::RegularFile))).unwrap();
    let new = repo.commit("2", ("N", "e"), ("N", "e"), Some(2)).unwrap();
    let old_hex = String::from_utf8(old.to_hex()).unwrap();
    let new_hex = String::from_utf8(new.to_hex()).unwrap();

    let mut plan = PushPlan::new(&[("main", new)]);
    let advert = format!("{} refs/heads/main\0report-status thin-pack side-band", old_hex);
    let walk = plan.on_advertised_ref(&repo, advert.as_bytes(), true).unwrap();
    assert!(walk.unwrap() == old);
    plan.check_capabilities().unwrap();
    let commands = String::from_utf8(plan.commands().unwrap()).unwrap();
    let line = format!("{} {} refs/heads/main\0report-status thin-pack\n", old_hex, new_hex);
    assert_eq!(commands, format!("{:04x}{}0000", line.len() + 4, line));

    let mut skip = IdSet::new();
    let mut seen = Vec::new();
    repo.collect_objects(old, &mut skip, &mut seen).unwrap();
    let pack = repo.pack(skip, &[("main", new)]).unwrap();
    assert_eq!(&pack[0..12], &[b'P', b'A', b'C', b'K', 0, 0, 0, 2, 0, 0, 0, 3]);
    let body = &pack[..pack.len() - 20];
    let digest: [u8; 20] = Sha1::digest(body).into();
    assert_eq!(&pack[pack.len() - 20..], &digest);
    let mut check = Repository::new();
    check.import_packfile(pack.clone(), None).unwrap();
    assert!(check.object_store().has(new));
    assert!(!check.object_store().has(old));

    check_unpack(Some(b"unpack ok")).unwrap();
    assert!(matches!(check_unpack(Some(b"unpack error")), Err(Error::GitProtocolError)));
    assert!(matches!(plan.finish(), Err(Error::GitProtocolError)));
    plan.on_report_line(b"ok refs/heads/main").unwrap();
    plan.finish().unwrap();
    assert!(matches!(plan.on_report_line(b"ng refs/heads/main"), Err(Error::GitProtocolError)));
}

#[test]
fn push_without_force_needs_known_old_tip() {
    let repo = Repository::new();
    let mut plan = PushPlan::new(&[("main", hash::Hash::new([1; 20]))]);
    let advert = format!("{} refs/heads/main\0report-status", "cd".repeat(20));
    assert!(matches!(plan.on_advertised_ref(&repo, advert.as_bytes(), false), Err(Error::MustForcePush)));
    let mut other = PushPlan::new(&[("main", hash::Hash::new([1; 20]))]);
    let no_report = format!("{} refs/heads/dev\0thin-pack", "cd".repeat(20));
    assert!(other.on_advertised_ref(&repo, no_report.as_bytes(), false).unwrap().is_none());
    assert!(matches!(other.check_capabilities(), Err(Error::UnsupportedByRemote)));
}

#[test]
fn reference_resolution_over_advertised_lines() {
    let lines = vec![
        format!("{} HEAD", "11".repeat(20)).into_bytes(),
        format!("{} refs/heads/main", "22".repeat(20)).into_bytes(),
    ];
    assert!(matches!(find_reference(&lines, &Reference::Branch("no-such")), Err(Error::NoSuchReference)));
    assert_eq!(find_reference(&lines, &Reference::Branch("main")).unwrap().to_hex(), "22".repeat(20).into_bytes());
    assert_eq!(find_reference(&lines, &Reference::Head).unwrap().to_hex(), "11".repeat(20).into_bytes());
    let h = hash::Hash::new([3; 20]);
    assert!(find_reference(&Vec::new(), &Reference::Commit(h)).unwrap() == h);
    assert!(matches!(find_reference(&vec![b"bad".to_vec()], &Reference::Head), Err(Error::GitProtocolError)));
}
