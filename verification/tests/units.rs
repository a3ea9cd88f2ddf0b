use dircmp::cmp::files;
use dircmp::cmp::path::Status as PathStatus;
use dircmp::cmp::sorted_vec::SortedVec;
use dircmp::crawler::{accumulate, child_action, empty_hash, is_sorted, ChildAction, Error, Message};
use dircmp::entry::{Directory, Entry, Status};
use dircmp::index::Index;
use dircmp::linker::matching_hashes;

fn entry(hash: [u8; 16], path: &[u8]) -> Entry {
    Entry {
        hash: dircmp::entry::Hash::new(hash),
        path: path.to_vec(),
        status: Status::Unique,
    }
}

#[test]
fn md5_of_known_inputs() {
    let e = dircmp::crawler::hash(b"");
    assert_eq!(
        e.bytes,
        [
            0xd4, 0x1d, 0x8c, 0xd9, 0x8f, 0x00, 0xb2, 0x04, 0xe9, 0x80, 0x09, 0x98, 0xec, 0xf8,
            0x42, 0x7e
        ]
    );
    let h = dircmp::crawler::hash(b"hello");
    assert_eq!(
        h.bytes,
        [
            0x5d, 0x41, 0x40, 0x2a, 0xbc, 0x4b, 0x2a, 0x76, 0xb9, 0x71, 0x9d, 0x91, 0x10, 0x17,
            0xc5, 0x92
        ]
    );
    assert_eq!(empty_hash(), e);
}

#[test]
fn decrement_rightmost_nonzero() {
    let mut b = [0u8; 16];
    b[15] = 5;
    assert_eq!(dircmp::entry::Hash::new(b).decrement().bytes[15], 4);

    let mut c = [0u8; 16];
    c[7] = 2;
    let d = dircmp::entry::Hash::new(c).decrement();
    assert_eq!(d.bytes[7], 1);
    assert_eq!(&d.bytes[8..], &[0u8; 8]);

    let z = dircmp::entry::Hash::new([0u8; 16]);
    assert_eq!(z.decrement(), z);

    let mut one = [0u8; 16];
    one[0] = 1;
    let less = dircmp::entry::Hash::new(one).decrement();
    assert_eq!(less.bytes, [0u8; 16]);
}

#[test]
fn hash_order_and_equality() {
    let a = dircmp::entry::Hash::new([1u8; 16]);
    let b = dircmp::entry::Hash::new([2u8; 16]);
    assert!(a.lt_hash(&b));
    assert!(!b.lt_hash(&a));
    assert!(a.eq_hash(&a));
    assert!(!a.eq_hash(&b));
    assert_eq!(a.first_byte(), 1);
}

#[test]
fn entry_order_is_digest_then_path() {
    let a = entry([1u8; 16], b"z");
    let b = entry([2u8; 16], b"a");
    let c = entry([2u8; 16], b"b");
    assert!(a.lt(&b));
    assert!(b.lt(&c));
    assert!(!c.lt(&b));
    assert!(a.key_eq(&a));
    assert!(!a.key_eq(&b));
}

#[test]
fn entry_new_strips_the_base() {
    let h = dircmp::entry::Hash::new([3u8; 16]);
    let e = Entry::new(b"/base/sub/file", b"/base", h).unwrap();
    assert_eq!(e.path, b"sub/file".to_vec());
    assert_eq!(e.hash, h);
    assert_eq!(e.status, Status::Unique);
    assert!(Entry::new(b"/elsewhere/f", b"/base", h).is_none());
    assert!(Entry::new(b"/base", b"/base", h).is_none());
    assert!(Entry::new(b"/base/", b"/base", h).is_none());
}

#[test]
fn accumulate_sorts_and_tags_unique() {
    let msgs = vec![
        Message::Queued,
        Message::Hash(dircmp::entry::Hash::new([9u8; 16]), b"/t/b".to_vec()),
        Message::Queued,
        Message::Hash(dircmp::entry::Hash::new([1u8; 16]), b"/t/a".to_vec()),
        Message::Done,
    ];
    let out = accumulate(&msgs, b"/t").unwrap();
    assert_eq!(out.len(), 2);
    assert_eq!(out[0].path, b"a".to_vec());
    assert_eq!(out[1].path, b"b".to_vec());
    assert!(out.iter().all(|e| *e.status() == Status::Unique));
    assert!(is_sorted(&out));
}

#[test]
fn accumulate_rejects_foreign_paths() {
    let msgs = vec![Message::Hash(
        dircmp::entry::Hash::new([1u8; 16]),
        b"/other/x".to_vec(),
    )];
    match accumulate(&msgs, b"/t") {
        Err(Error::StripPrefix(base, path)) => {
            assert_eq!(base, b"/t".to_vec());
            assert_eq!(path, b"/other/x".to_vec());
        }
        other => panic!("unexpected {:?}", other),
    }
}

#[test]
fn accumulate_rejects_full_collisions() {
    let h = dircmp::entry::Hash::new([7u8; 16]);
    let msgs = vec![
        Message::Hash(h, b"/t/x".to_vec()),
        Message::Hash(h, b"/t/x".to_vec()),
    ];
    match accumulate(&msgs, b"/t") {
        Err(Error::FullCollision(p)) => assert_eq!(p, b"x".to_vec()),
        other => panic!("unexpected {:?}", other),
    }
}

#[test]
fn accumulate_propagates_worker_errors() {
    let msgs = vec![Message::Error(Error::DirUnreadable(b"/t/sub".to_vec()))];
    match accumulate(&msgs, b"/t") {
        Err(Error::DirUnreadable(p)) => assert_eq!(p, b"/t/sub".to_vec()),
        other => panic!("unexpected {:?}", other),
    }
}

#[test]
fn is_sorted_detects_disorder() {
    let good = vec![entry([1u8; 16], b"a"), entry([2u8; 16], b"a")];
    assert!(is_sorted(&good));
    let bad = vec![entry([2u8; 16], b"a"), entry([1u8; 16], b"a")];
    assert!(!is_sorted(&bad));
    let dup = vec![entry([1u8; 16], b"a"), entry([1u8; 16], b"a")];
    assert!(!is_sorted(&dup));
}

#[test]
fn matching_hashes_finds_the_digest_range() {
    let children = vec![
        entry([1u8; 16], b"a"),
        entry([2u8; 16], b"a"),
        entry([2u8; 16], b"b"),
        entry([3u8; 16], b"a"),
    ];
    let h = dircmp::entry::Hash::new([2u8; 16]);
    assert_eq!(matching_hashes(&h, 0, &children), vec![1, 2]);
    assert_eq!(matching_hashes(&h, 4, &children), vec![1, 2]);
    let missing = dircmp::entry::Hash::new([4u8; 16]);
    assert!(matching_hashes(&missing, 2, &children).is_empty());
}

#[test]
fn scanner_child_decisions() {
    assert_eq!(child_action(true, false, false), ChildAction::Skip);
    assert_eq!(child_action(true, true, true), ChildAction::Recurse);
    assert_eq!(child_action(true, true, false), ChildAction::HashFile);
    assert_eq!(child_action(false, true, true), ChildAction::Recurse);
    assert_eq!(child_action(false, true, false), ChildAction::HashFile);
}

#[test]
fn status_ranks() {
    assert_eq!(Status::Same(0).as_index(), 0);
    assert_eq!(Status::Moved(0).as_index(), 1);
    assert_eq!(Status::Modified(0).as_index(), 2);
    assert_eq!(Status::Maybe(vec![0, 1]).as_index(), 3);
    assert_eq!(Status::Unique.as_index(), 4);
    assert_eq!(Status::Empty.as_index(), 5);
}

#[test]
fn directory_accessors() {
    let es = vec![entry([1u8; 16], b"a")];
    let d = Directory::new(b"/root".to_vec(), es);
    assert_eq!(d.path(), &b"/root".to_vec());
    assert_eq!(d.entries().len(), 1);
    assert_eq!(d.entries()[0].hash(), &dircmp::entry::Hash::new([1u8; 16]));
    assert_eq!(d.entries()[0].path(), &b"a".to_vec());
    assert_eq!(*d.entries()[0].status(), Status::Unique);
    let (p, es) = d.decompose();
    assert_eq!(p, b"/root".to_vec());
    assert_eq!(es.len(), 1);
}

#[test]
fn index_accessors() {
    let es = vec![entry([1u8; 16], b"a"), entry([2u8; 16], b"b")];
    let ix = Index::new(b"/root".to_vec(), es);
    assert_eq!(ix.path(), &b"/root".to_vec());
    assert_eq!(ix.len(), 2);
    assert_eq!(ix.children().len(), 2);
    let (p, cs) = ix.decompose();
    assert_eq!(p, b"/root".to_vec());
    assert_eq!(cs.len(), 2);
}

#[test]
fn sorted_vec_sorts_and_merges() {
    let s = SortedVec::new(vec![b"b".to_vec(), b"a".to_vec(), b"a".to_vec()]);
    assert_eq!(
        s.0,
        vec![b"a".to_vec(), b"a".to_vec(), b"b".to_vec()]
    );
    let t = SortedVec::new(vec![b"c".to_vec(), b"a".to_vec()]);
    let merged = s.merge(t);
    assert_eq!(
        merged.to_iter(),
        vec![
            b"a".to_vec(),
            b"a".to_vec(),
            b"a".to_vec(),
            b"b".to_vec(),
            b"c".to_vec()
        ]
    );
}

#[test]
fn file_statuses() {
    let x = b"x".to_vec();
    let y = b"y".to_vec();
    assert_eq!(files(None, None), Err(dircmp::cmp::Error::TwoMissingFiles));
    assert_eq!(files(Some(&x), None), Ok(PathStatus::MissingRight));
    assert_eq!(files(None, Some(&y)), Ok(PathStatus::MissingLeft));
    assert_eq!(files(Some(&x), Some(&x)), Ok(PathStatus::Equal));
    assert_eq!(files(Some(&x), Some(&y)), Ok(PathStatus::Partial));
}

#[test]
fn tree_nodes_expose_name_and_status() {
    let f = dircmp::cmp::path::File {
        name: b"f".to_vec(),
        status: PathStatus::Equal,
    };
    assert_eq!(f.name(), &b"f".to_vec());
    assert_eq!(f.status(), PathStatus::Equal);
    let d = dircmp::cmp::path::Dir {
        name: b"d".to_vec(),
        status: PathStatus::Partial,
        children: vec![dircmp::cmp::path::TreeNode::File(f)],
    };
    assert_eq!(d.name(), &b"d".to_vec());
    assert_eq!(d.status(), PathStatus::Partial);
    assert_eq!(d.children[0].name(), &b"f".to_vec());
    assert_eq!(d.children[0].status(), PathStatus::Equal);
}

#[test]
fn accumulate_is_order_independent() {
    let h1 = dircmp::crawler::hash(b"alpha");
    let h2 = dircmp::crawler::hash(b"beta");
    let h3 = dircmp::crawler::hash(b"gamma");
    let one = vec![
        Message::Queued,
        Message::Hash(h1, b"/t/x".to_vec()),
        Message::Hash(h2, b"/t/y".to_vec()),
        Message::Hash(h3, b"/t/z".to_vec()),
        Message::Done,
    ];
    let two = vec![
        Message::Done,
        Message::Hash(h3, b"/t/z".to_vec()),
        Message::Hash(h1, b"/t/x".to_vec()),
        Message::Queued,
        Message::Hash(h2, b"/t/y".to_vec()),
    ];
    assert_eq!(
        accumulate(&one, b"/t").unwrap(),
        accumulate(&two, b"/t").unwrap()
    );
}
