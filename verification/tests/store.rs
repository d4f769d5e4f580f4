use gitobj::object::blob::Blob;
use gitobj::object::tree::{File, Tree};
use gitobj::object::GitObject;
use gitobj::store::{is_hex_digit, object_id, object_path, pack, unpack, FileRead, StoreError};
use gitobj::{cat_file_p, hash_object};
use std::io::{Read, Write};

fn deflate(raw: &[u8]) -> Vec<u8> {
    let mut encoder = libflate::zlib::Encoder::new(Vec::new()).unwrap();
    encoder.write_all(raw).unwrap();
    encoder.finish().into_result().unwrap()
}

fn inflate(stored: &[u8]) -> Vec<u8> {
    let mut decoder = libflate::zlib::Decoder::new(stored).unwrap();
    let mut raw = Vec::new();
    decoder.read_to_end(&mut raw).unwrap();
    raw
}

#[test]
fn cat_file_of_stored_blob_shows_hello() {
    let id = "abcdef0123456789abcdef0123456789abcdef01";
    let (dir, file) = object_path(id).unwrap();
    assert_eq!(dir, "ab");
    assert_eq!(file, "cdef0123456789abcdef0123456789abcdef01");
    let stored = deflate(b"blob 5\0hello");
    let object = cat_file_p(&FileRead::Content(stored)).unwrap();
    assert_eq!(object, GitObject::Blob(Blob { data: b"hello".to_vec() }));
    assert!(object.to_string().contains("hello"));
}

#[test]
fn cat_file_of_missing_file_is_not_found() {
    assert_eq!(cat_file_p(&FileRead::Missing), Err(StoreError::NotFound));
}

#[test]
fn cat_file_of_unreadable_file_is_io_error() {
    assert_eq!(cat_file_p(&FileRead::Failed), Err(StoreError::IoError));
}

#[test]
fn cat_file_of_bad_content_is_invalid_data() {
    assert_eq!(cat_file_p(&FileRead::Content(vec![])), Err(StoreError::InvalidData));
    assert_eq!(cat_file_p(&FileRead::Content(b"blob 5\0hello".to_vec())), Err(StoreError::InvalidData));
    assert_eq!(cat_file_p(&FileRead::Content(deflate(b"widget 4\0data"))), Err(StoreError::InvalidData));
    let tree = deflate(b"tree 32\0100644 a.txt\0nineteen bytes only");
    assert_eq!(cat_file_p(&FileRead::Content(tree)), Err(StoreError::InvalidData));
}

#[test]
fn unpack_decodes_stored_objects() {
    let stored = deflate(b"blob 5\0hello");
    assert_eq!(unpack(&stored), Ok(GitObject::Blob(Blob { data: b"hello".to_vec() })));
    assert_eq!(unpack(&deflate(b"tree 0\0")), Ok(GitObject::Tree(Tree { contents: vec![] })));
}

#[test]
fn unpack_reads_streams_of_other_compressors() {
    let best: [u8; 20] = [120, 156, 75, 202, 201, 79, 82, 48, 101, 200, 72, 205, 201, 201, 7, 0, 25, 170, 4, 9];
    let plain: [u8; 23] = [120, 1, 1, 12, 0, 243, 255, 98, 108, 111, 98, 32, 53, 0, 104, 101, 108, 108, 111, 25, 170, 4, 9];
    let expected = GitObject::Blob(Blob { data: b"hello".to_vec() });
    assert_eq!(unpack(&best), Ok(expected.clone()));
    assert_eq!(unpack(&plain), Ok(expected));
}

#[test]
fn hash_object_of_hello() {
    let blob = hash_object(&FileRead::Content(b"hello".to_vec())).unwrap();
    assert_eq!(blob, Blob { data: b"hello".to_vec() });
    let id = object_id(&GitObject::Blob(blob));
    assert_eq!(id, "b6fc4c620b67d95f953a5c1c1230aaab5db5a1b0");
    assert_eq!(id.len(), 40);
    assert_eq!(id, hex::encode(<sha1::Sha1 as sha1::Digest>::digest(b"blob 5\0hello")));
}

#[test]
fn hash_object_keeps_any_bytes() {
    let data = vec![0u8, 0xff, b'\n', b'\r', 0x80];
    assert_eq!(hash_object(&FileRead::Content(data.clone())), Ok(Blob { data }));
    assert_eq!(hash_object(&FileRead::Content(vec![])), Ok(Blob { data: vec![] }));
}

#[test]
fn hash_object_of_unread_file_is_invalid_input() {
    assert_eq!(hash_object(&FileRead::Missing), Err(StoreError::InvalidInput));
    assert_eq!(hash_object(&FileRead::Failed), Err(StoreError::InvalidInput));
}

#[test]
fn object_id_is_lower_case_hex() {
    let id = object_id(&GitObject::Tree(Tree { contents: vec![] }));
    assert_eq!(id, "4b825dc642cb6eb9a060e54bf8d69288fbee4904");
    assert!(id.chars().all(|c| c.is_ascii_digit() || ('a'..='f').contains(&c)));
}

#[test]
fn unpack_rejects_what_is_not_a_zlib_stream() {
    assert_eq!(unpack(b""), Err(StoreError::InvalidData));
    assert_eq!(unpack(b"blob 5\0hello"), Err(StoreError::InvalidData));
    assert_eq!(unpack(&[120, 156]), Err(StoreError::InvalidData));
    let stored = deflate(b"blob 5\0hello");
    assert_eq!(unpack(&stored[..stored.len() - 1]), Err(StoreError::InvalidData));
    let mut bad = stored.clone();
    let last = bad.len() - 1;
    bad[last] ^= 0xff;
    assert_eq!(unpack(&bad), Err(StoreError::InvalidData));
}

#[test]
fn unpack_rejects_what_is_not_an_object() {
    assert_eq!(unpack(&deflate(b"widget 4\0data")), Err(StoreError::InvalidData));
    assert_eq!(unpack(&deflate(b"blob 5 hello")), Err(StoreError::InvalidData));
    assert_eq!(unpack(&deflate(b"")), Err(StoreError::InvalidData));
    assert_eq!(unpack(&deflate(b"tree 3\0abc")), Err(StoreError::InvalidData));
}

#[test]
fn pack_compresses_canonical_bytes() {
    let object = GitObject::Blob(Blob { data: b"hello".to_vec() });
    let (id, stored) = pack(&object).unwrap();
    assert_eq!(id, "b6fc4c620b67d95f953a5c1c1230aaab5db5a1b0");
    assert_ne!(stored, object.as_bytes());
    assert_eq!(inflate(&stored), b"blob 5\0hello".to_vec());
    assert_eq!(stored, deflate(b"blob 5\0hello"));
}

#[test]
fn pack_then_unpack() {
    let objects = vec![
        GitObject::Blob(Blob { data: vec![] }),
        GitObject::Blob(Blob { data: vec![7; 100_000] }),
        GitObject::Tree(Tree { contents: vec![File { mode: 100644, name: String::from("a"), hash: vec![9; 20] }] }),
    ];
    for object in objects {
        let (id, stored) = pack(&object).unwrap();
        assert_eq!(id, object_id(&object));
        assert_eq!(unpack(&stored), Ok(object));
    }
}

#[test]
fn pack_is_idempotent() {
    let object = GitObject::Blob(Blob { data: b"same".to_vec() });
    assert_eq!(pack(&object), pack(&object));
    assert_eq!(pack(&object), pack(&object.clone()));
}

#[test]
fn object_path_splits_two_and_thirty_eight() {
    let id = "b6fc4c620b67d95f953a5c1c1230aaab5db5a1b0";
    assert_eq!(
        object_path(id),
        Ok((String::from("b6"), String::from("fc4c620b67d95f953a5c1c1230aaab5db5a1b0")))
    );
    let upper = "ABCDEF0123456789abcdef0123456789ABCDEF01";
    assert_eq!(
        object_path(upper),
        Ok((String::from("AB"), String::from("CDEF0123456789abcdef0123456789ABCDEF01")))
    );
}

#[test]
fn object_path_of_computed_id() {
    let object = GitObject::Blob(Blob { data: b"hello".to_vec() });
    let (dir, file) = object_path(&object_id(&object)).unwrap();
    assert_eq!(dir, "b6");
    assert_eq!(file.len(), 38);
}

#[test]
fn object_path_rejects_what_is_no_id() {
    assert_eq!(object_path(""), Err(StoreError::NotFound));
    assert_eq!(object_path("b"), Err(StoreError::NotFound));
    assert_eq!(object_path("b6fc4c620b67d95f953a5c1c1230aaab5db5a1b"), Err(StoreError::NotFound));
    assert_eq!(object_path("b6fc4c620b67d95f953a5c1c1230aaab5db5a1b00"), Err(StoreError::NotFound));
    assert_eq!(object_path("g6fc4c620b67d95f953a5c1c1230aaab5db5a1b0"), Err(StoreError::NotFound));
    assert_eq!(object_path("../c4c620b67d95f953a5c1c1230aaab5db5a1b0"), Err(StoreError::NotFound));
    assert_eq!(object_path("b6fc4c620b67d95f953a5c1c1230aaab5db5a1b\u{e9}"), Err(StoreError::NotFound));
    assert_eq!(object_path("b6fc4c620b67d95f953a5c1c1230aaab5db5a1 0"), Err(StoreError::NotFound));
}

#[test]
fn hex_digits() {
    for c in "0123456789abcdefABCDEF".chars() {
        assert!(is_hex_digit(c));
    }
    for c in "gG/:@`xX \u{ff10}".chars() {
        assert!(!is_hex_digit(c));
    }
}

#[test]
fn object_id_spells_every_byte_in_two_digits() {
    let digits = b"0123456789abcdef";
    let mut seen = [false; 256];
    let mut n = 0u32;
    while seen.iter().any(|s| !s) && n < 2000 {
        let object = GitObject::Blob(Blob { data: n.to_be_bytes().to_vec() });
        let hash = object.calc_hash();
        let id = object_id(&object).into_bytes();
        assert_eq!(id.len(), 2 * hash.len());
        for (i, byte) in hash.iter().enumerate() {
            assert_eq!(id[2 * i], digits[(byte / 16) as usize]);
            assert_eq!(id[2 * i + 1], digits[(byte % 16) as usize]);
            seen[*byte as usize] = true;
        }
        n += 1;
    }
    assert!(seen.iter().all(|s| *s));
}
