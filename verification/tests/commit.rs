use gitobj::object::commit::Commit;
use gitobj::object::GitObject;

fn sample(parents: &[&str]) -> Commit {
    Commit {
        tree_hash: String::from("4b825dc642cb6eb9a060e54bf8d69288fbee4904"),
        parent_hashes: parents.iter().map(|p| String::from(*p)).collect(),
        author: String::from("A U Thor <author@example.com> 1700000000 +0100"),
        committer: String::from("C O Mitter <committer@example.com> 1700000001 -0800"),
        message: String::from("subject\n\nbody line\n"),
    }
}

#[test]
fn commit_decodes_header_lines_and_message() {
    let payload = b"tree 4b825dc642cb6eb9a060e54bf8d69288fbee4904\nparent 1111111111111111111111111111111111111111\nauthor A <a@x> 0 +0000\ncommitter C <c@x> 1 +0000\n\nhello\nworld\n";
    let commit = Commit::from(payload).unwrap();
    assert_eq!(commit.tree_hash, "4b825dc642cb6eb9a060e54bf8d69288fbee4904");
    assert_eq!(commit.parent_hashes, vec![String::from("1111111111111111111111111111111111111111")]);
    assert_eq!(commit.author, "A <a@x> 0 +0000");
    assert_eq!(commit.committer, "C <c@x> 1 +0000");
    assert_eq!(commit.message, "hello\nworld\n");
}

#[test]
fn commit_encode_writes_fixed_order() {
    let commit = sample(&["1111111111111111111111111111111111111111", "2222222222222222222222222222222222222222"]);
    let expected = "tree 4b825dc642cb6eb9a060e54bf8d69288fbee4904\n\
parent 1111111111111111111111111111111111111111\n\
parent 2222222222222222222222222222222222222222\n\
author A U Thor <author@example.com> 1700000000 +0100\n\
committer C O Mitter <committer@example.com> 1700000001 -0800\n\
\n\
subject\n\nbody line\n";
    assert_eq!(commit.encode(), expected.as_bytes().to_vec());
    assert_eq!(commit.to_string(), expected);
}

#[test]
fn commit_round_trip() {
    for parents in [vec![], vec!["aa"], vec!["aa", "bb", "cc"]] {
        let commit = sample(&parents);
        let payload = commit.encode();
        assert_eq!(Commit::from(&payload), Some(commit.clone()));
        assert_eq!(Commit::from(&payload).unwrap().encode(), payload);
        assert_eq!(GitObject::new(&commit.as_bytes()), Some(GitObject::Commit(commit)));
    }
}

#[test]
fn commit_round_trip_edge_values() {
    let commit = Commit {
        tree_hash: String::new(),
        parent_hashes: vec![String::new(), String::from(" spaced  out ")],
        author: String::from("\u{5c71}\u{7530} <y@x>"),
        committer: String::new(),
        message: String::new(),
    };
    let payload = commit.encode();
    assert_eq!(payload, "tree \nparent \nparent  spaced  out \nauthor \u{5c71}\u{7530} <y@x>\ncommitter \n\n".as_bytes().to_vec());
    assert_eq!(Commit::from(&payload), Some(commit));
}

#[test]
fn commit_message_is_kept_verbatim() {
    let payload = b"tree t\nauthor a\ncommitter c\n\n\n\nparent x\n\0tail\n\n";
    let commit = Commit::from(payload).unwrap();
    assert_eq!(commit.message, "\n\nparent x\n\0tail\n\n");
    assert_eq!(commit.parent_hashes.len(), 0);
    assert_eq!(commit.encode(), payload.to_vec());
}

#[test]
fn commit_reencodes_byte_for_byte() {
    let payloads: [&[u8]; 3] = [
        b"tree t\nauthor a\ncommitter c\n\n",
        b"tree  two spaces\nparent first\nparent second\nauthor a b c\ncommitter \n\nmsg",
        "tree t\nauthor \u{e9}\ncommitter c\n\n\u{1F600}".as_bytes(),
    ];
    for payload in payloads {
        assert_eq!(Commit::from(payload).unwrap().encode(), payload.to_vec());
    }
}

#[test]
fn commit_rejects_missing_tree() {
    assert_eq!(Commit::from(b""), None);
    assert_eq!(Commit::from(b"author a\ncommitter c\n\nmsg"), None);
    assert_eq!(Commit::from(b"parent p\ntree t\nauthor a\ncommitter c\n\n"), None);
    assert_eq!(Commit::from(b"Tree t\nauthor a\ncommitter c\n\n"), None);
    assert_eq!(Commit::from(b"trees t\nauthor a\ncommitter c\n\n"), None);
}

#[test]
fn commit_rejects_line_without_value() {
    assert_eq!(Commit::from(b"tree\nauthor a\ncommitter c\n\n"), None);
    assert_eq!(Commit::from(b"tree t\nauthor\ncommitter c\n\n"), None);
    assert_eq!(Commit::from(b"tree t\nauthor a\ncommitter\n\n"), None);
    assert_eq!(Commit::from(b"tree\tt\nauthor a\ncommitter c\n\n"), None);
}

#[test]
fn commit_rejects_missing_blank_line() {
    assert_eq!(Commit::from(b"tree t\nauthor a\ncommitter c\n"), None);
    assert_eq!(Commit::from(b"tree t\nauthor a\ncommitter c"), None);
    assert_eq!(Commit::from(b"tree t\nauthor a\ncommitter c\nmsg\n"), None);
    assert_eq!(Commit::from(b"tree t\nauthor a\ncommitter c\n \nmsg\n"), None);
}

#[test]
fn commit_rejects_lines_out_of_order() {
    assert_eq!(Commit::from(b"tree t\ncommitter c\nauthor a\n\n"), None);
    assert_eq!(Commit::from(b"tree t\nauthor a\nparent p\ncommitter c\n\n"), None);
    assert_eq!(Commit::from(b"tree t\nauthor a\n\n"), None);
    assert_eq!(Commit::from(b"tree t\ncommitter c\n\n"), None);
    assert_eq!(Commit::from(b"tree t\ntree u\nauthor a\ncommitter c\n\n"), None);
    assert_eq!(Commit::from(b"tree t\nauthor a\ncommitter c\nencoding x\n\n"), None);
}

#[test]
fn commit_rejects_bad_utf8() {
    assert_eq!(Commit::from(b"tree t\nauthor a\ncommitter c\n\n\xff"), None);
    assert_eq!(Commit::from(b"tree \xc3\nauthor a\ncommitter c\n\n"), None);
}

#[test]
fn commit_canonical_bytes_and_hash() {
    let commit = Commit {
        tree_hash: String::from("4b825dc642cb6eb9a060e54bf8d69288fbee4904"),
        parent_hashes: vec![],
        author: String::from("A <a@x> 0 +0000"),
        committer: String::from("C <c@x> 0 +0000"),
        message: String::from("msg\n"),
    };
    let bytes = commit.as_bytes();
    assert_eq!(&bytes[..11], b"commit 100\0");
    assert_eq!(bytes.len(), 111);
    assert_eq!(hex::encode(commit.calc_hash()), "579279665116241b13bdf255b5a85433c6031300");
}
