use litegit::clone::{capability_offers_shallow, fetch_request, is_packfile_marker, match_ref_line};
use litegit::objects::ObjectType;
use litegit::packfile::PackfileReader;
use litegit::protocol::{decode_frame, Frame};
use litegit::push::IdSet;
use litegit::{FileType, Reference, Repository};

fn pkt(payload: &[u8]) -> Vec<u8> {
    let mut v = format!("{:04x}", payload.len() + 4).into_bytes();
    v.extend_from_slice(payload);
    v
}

/// Splits a response into lines; `None` stands for a flush, delimiter or response-end.
fn lines(mut buf: &[u8]) -> Vec<Option<Vec<u8>>> {
    let mut out = Vec::new();
    while !buf.is_empty() {
        match decode_frame(buf).unwrap() {
            Frame::Data(n) => {
                out.push(Some(buf[4..n].to_vec()));
                buf = &buf[n..];
            },
            Frame::Incomplete => panic!("truncated response"),
            _ => {
                out.push(None);
                buf = &buf[4..];
            },
        }
    }
    out
}

#[test]
fn replayed_upload_pack_exchange() {
    let mut source = Repository::new();
    source.stage("a.txt", Some((b"first".to_vec(), FileType::RegularFile))).unwrap();
    source.commit("one", ("N", "e"), ("N", "e"), Some(1)).unwrap();
    source.stage("b.txt", Some((b"second".to_vec(), FileType::RegularFile))).unwrap();
    source.commit("two", ("N", "e"), ("N", "e"), Some(2)).unwrap();
    source.stage("a.txt", Some((b"third".to_vec(), FileType::RegularFile))).unwrap();
    let tip = source.commit("three", ("N", "e"), ("N", "e"), Some(3)).unwrap();
    let parent = litegit::commit::CommitParentsIter::new(
        source.object_store().get_as(tip, ObjectType::Commit).unwrap(),
    )
    .next()
    .unwrap()
    .unwrap();
    let mut shallow = IdSet::new();
    shallow.insert(parent);
    let pack = source.pack(shallow, &[("main", tip)]).unwrap();
    let tip_hex = String::from_utf8(tip.to_hex()).unwrap();

    let mut caps = pkt(b"version 2\n");
    caps.extend(pkt(b"ls-refs=unborn\n"));
    caps.extend(pkt(b"fetch=shallow wait-for-done\n"));
    caps.extend(b"0000");
    let mut refs = pkt(format!("{} HEAD\n", tip_hex).as_bytes());
    refs.extend(pkt(format!("{} refs/heads/main\n", tip_hex).as_bytes()));
    refs.extend(b"0000");
    let mut fetched = pkt(b"shallow-info\n");
    fetched.extend(b"0001");
    fetched.extend(pkt(b"packfile\n"));
    for chunk in pack.chunks(1000) {
        let mut line = vec![1u8];
        line.extend_from_slice(chunk);
        fetched.extend(pkt(&line));
    }
    fetched.extend(b"0000");

    let mut repo = Repository::new();
    repo.check_clean().unwrap();

    let mut shallow_supported = false;
    for line in lines(&caps).into_iter().flatten() {
        let line = litegit::protocol::trim_line(&line);
        shallow_supported |= capability_offers_shallow(&line);
    }
    assert!(shallow_supported);

    let mut head = None;
    for line in lines(&refs).into_iter().flatten() {
        let line = litegit::protocol::trim_line(&line);
        if let Some(h) = match_ref_line(&line, &Reference::Branch("main")).unwrap() {
            head = Some(h);
        }
    }
    let head = head.unwrap();
    assert!(head == tip);
    assert!(fetch_request(head, Some(1), shallow_supported).is_ok());

    let response = lines(&fetched);
    let start = response.iter().position(|l| matches!(l, Some(l) if is_packfile_marker(l))).unwrap();
    let mut reader = PackfileReader::new();
    let mut pending = response[start + 1..].iter();
    let mut feed = |reader: &mut PackfileReader| {
        let line = pending.next().unwrap().as_ref().unwrap();
        assert!(reader.push_line(line).unwrap().is_none());
    };
    while !reader.read_header().unwrap() {
        feed(&mut reader);
    }
    let mut records = Vec::new();
    for _ in 0..reader.num_objects() {
        loop {
            match reader.next_object().unwrap() {
                Some(o) => {
                    records.push(o);
                    break;
                },
                None => feed(&mut reader),
            }
        }
    }
    assert_eq!(records.len(), 4);
    repo.store_records(records).unwrap();
    repo.install_head(head).unwrap();

    let mut counts = [0usize; 4];
    let tree = repo.get_commit_root(tip).unwrap().unwrap();
    assert!(repo.object_store().get_as(tip, ObjectType::Commit).is_some());
    counts[0] += 1;
    let entries = litegit::tree::read_tree(repo.object_store().get_as(tree, ObjectType::Tree).unwrap()).unwrap();
    counts[1] += 1;
    for (_, h, _) in &entries {
        assert!(repo.object_store().get_as(*h, ObjectType::Blob).is_some());
        counts[2] += 1;
    }
    assert_eq!(counts, [1, 1, 2, 0]);
    assert!(!repo.object_store().has(parent));
    assert!(repo.head_hash() == tip && repo.upstream_hash() == tip);
    assert!(repo.root_hash().unwrap() == tree);
    assert!(repo.check_clean().is_ok());
    assert_eq!(repo.read_file("a.txt").unwrap(), b"third".to_vec());
}

#[test]
fn unknown_reference_leaves_repository_untouched() {
    let mut refs = pkt(format!("{} HEAD\n", "ab".repeat(20)).as_bytes());
    refs.extend(pkt(format!("{} refs/heads/main\n", "ab".repeat(20)).as_bytes()));
    let repo = Repository::new();
    let mut found = None;
    for line in lines(&refs).into_iter().flatten() {
        let line = litegit::protocol::trim_line(&line);
        if let Some(h) = match_ref_line(&line, &Reference::Branch("no-such")).unwrap() {
            found = Some(h);
        }
    }
    assert!(found.is_none());
    assert!(repo.head_hash().is_zero());
    assert!(repo.root_hash().is_none());
}
