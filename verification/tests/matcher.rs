use dircmp::compare;
use dircmp::crawler::{accumulate, Message};
use dircmp::entry::{Directory, Entry, Status};

fn index(base: &str, files: &[(&str, &[u8])]) -> Vec<Entry> {
    let msgs: Vec<Message> = files
        .iter()
        .map(|(p, c)| {
            let abs = format!("{}/{}", base, p).into_bytes();
            Message::Hash(dircmp::crawler::hash(c), abs)
        })
        .collect();
    accumulate(&msgs, base.as_bytes()).expect("crawl failed")
}

fn run(l: &[(&str, &[u8])], r: &[(&str, &[u8])]) -> (Directory, Directory) {
    let le = index("/left", l);
    let re = index("/right", r);
    compare(b"/left".to_vec(), le, b"/right".to_vec(), re)
}

#[test]
fn identical_trees() {
    let (l, r) = run(
        &[("a/1", b"hello"), ("a/2", b"world")],
        &[("a/1", b"hello"), ("a/2", b"world")],
    );
    assert_eq!(l.entries().len(), 2);
    assert_eq!(r.entries().len(), 2);
    for (i, e) in l.entries().iter().enumerate() {
        match e.status() {
            Status::Same(j) => match r.entries()[*j].status() {
                Status::Same(k) => assert_eq!(*k, i),
                other => panic!("right status {:?}", other),
            },
            other => panic!("left status {:?}", other),
        }
    }
}

#[test]
fn pure_rename() {
    let (l, r) = run(&[("docs/old.txt", b"X")], &[("docs/new.txt", b"X")]);
    assert_eq!(*l.entries()[0].status(), Status::Moved(0));
    assert_eq!(*r.entries()[0].status(), Status::Moved(0));
}

#[test]
fn in_place_edit() {
    let (l, r) = run(&[("a", b"old")], &[("a", b"new")]);
    assert_eq!(*l.entries()[0].status(), Status::Modified(0));
    assert_eq!(*r.entries()[0].status(), Status::Modified(0));
}

#[test]
fn ambiguous_duplicates() {
    let (l, r) = run(&[("a", b"X"), ("b", b"X")], &[("c", b"X"), ("d", b"X")]);
    assert_eq!(*l.entries()[0].status(), Status::Maybe(vec![0, 1]));
    assert_eq!(*l.entries()[1].status(), Status::Maybe(vec![0, 1]));
    assert_eq!(*r.entries()[0].status(), Status::Maybe(vec![0, 1]));
    assert_eq!(*r.entries()[1].status(), Status::Maybe(vec![0, 1]));
}

#[test]
fn empty_files_never_link() {
    let (l, r) = run(&[("e1", b"")], &[("e2", b"")]);
    assert_eq!(*l.entries()[0].status(), Status::Empty);
    assert_eq!(*r.entries()[0].status(), Status::Empty);
}

#[test]
fn empty_files_at_same_path_are_exact_matches() {
    let (l, r) = run(&[("e", b"")], &[("e", b"")]);
    assert_eq!(*l.entries()[0].status(), Status::Same(0));
    assert_eq!(*r.entries()[0].status(), Status::Same(0));
}

#[test]
fn add_and_delete() {
    let (l, r) = run(&[("only_l", b"A")], &[("only_r", b"B")]);
    assert_eq!(*l.entries()[0].status(), Status::Unique);
    assert_eq!(*r.entries()[0].status(), Status::Unique);
}

#[test]
fn empty_trees() {
    let (l, r) = run(&[], &[]);
    assert_eq!(l.path(), &b"/left".to_vec());
    assert_eq!(r.path(), &b"/right".to_vec());
    assert!(l.entries().is_empty());
    assert!(r.entries().is_empty());
}

#[test]
fn single_file_against_itself() {
    let (l, r) = run(&[("f", b"data")], &[("f", b"data")]);
    assert_eq!(*l.entries()[0].status(), Status::Same(0));
    assert_eq!(*r.entries()[0].status(), Status::Same(0));
}

#[test]
fn rename_with_surviving_copy() {
    // the digest of "X" also survives at its old path on the right, so the
    // left entry keeps both candidates and no move is concluded
    let (l, r) = run(&[("a", b"X")], &[("a", b"X"), ("b", b"X")]);
    assert_eq!(*l.entries()[0].status(), Status::Same(0));
    match r.entries()[1].status() {
        Status::Moved(0) => {}
        other => panic!("right status {:?}", other),
    }
}

#[test]
fn modified_beats_nothing_but_same() {
    // left "p" changed content; left also has a second file whose digest
    // matches nothing, so it stays unique
    let (l, r) = run(&[("p", b"one"), ("q", b"two")], &[("p", b"uno")]);
    let p = l
        .entries()
        .iter()
        .position(|e| e.path() == &b"p".to_vec())
        .unwrap();
    let q = l
        .entries()
        .iter()
        .position(|e| e.path() == &b"q".to_vec())
        .unwrap();
    assert_eq!(*l.entries()[p].status(), Status::Modified(0));
    assert_eq!(*l.entries()[q].status(), Status::Unique);
    assert_eq!(*r.entries()[0].status(), Status::Modified(p));
}

#[test]
fn commutes_on_same_links() {
    let files_l: &[(&str, &[u8])] = &[("a/1", b"hello"), ("a/2", b"world"), ("b", b"gone")];
    let files_r: &[(&str, &[u8])] = &[("a/1", b"hello"), ("a/2", b"other")];
    let (l1, r1) = run(files_l, files_r);
    let re = index("/left", files_r);
    let le = index("/right", files_l);
    let (l2, _r2) = compare(b"/left".to_vec(), re, b"/right".to_vec(), le);
    for (a, e) in l1.entries().iter().enumerate() {
        if let Status::Same(b) = e.status() {
            assert_eq!(*l2.entries()[*b].status(), Status::Same(a));
            assert_eq!(*r1.entries()[*b].status(), Status::Same(a));
        }
    }
}
