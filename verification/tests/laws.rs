use gitobj::object::commit::Commit;
use gitobj::object::tree::{File, Tree};
use gitobj::object::GitObject;
use gitobj::store::{pack, unpack};

/// A small deterministic generator, so that every run sees the same inputs.
struct Gen(u64);

impl Gen {
    fn next(&mut self) -> u64 {
        self.0 ^= self.0 << 13;
        self.0 ^= self.0 >> 7;
        self.0 ^= self.0 << 17;
        self.0
    }

    fn below(&mut self, n: u64) -> u64 {
        self.next() % n
    }

    /// Bytes that lean towards the delimiters and words of the formats.
    fn bytes(&mut self, max: u64) -> Vec<u8> {
        let words: [&[u8]; 14] = [
            b"\0", b" ", b"\n", b"tree", b"parent", b"author", b"committer", b"blob", b"commit",
            b"100644", b"\t", b"+", b"\xc3\xa9", b"\xff",
        ];
        let mut out = Vec::new();
        let len = self.below(max + 1);
        while (out.len() as u64) < len {
            if self.below(3) == 0 {
                out.push(self.below(256) as u8);
            } else {
                out.extend_from_slice(words[self.below(14) as usize]);
            }
        }
        out
    }

    fn name(&mut self) -> String {
        let alphabet = ['a', 'b', ' ', '\t', '.', '\u{e9}', '\u{65e5}', '\n', '/', '0'];
        let mut name = String::new();
        name.push(['x', 'y', '\u{e9}', '1', '-'][self.below(5) as usize]);
        for _ in 0..self.below(6) {
            name.push(alphabet[self.below(10) as usize]);
        }
        name
    }

    fn line(&mut self) -> String {
        let alphabet = ['a', 'b', ' ', '\t', '<', '>', '\u{e9}', '\0', '+', '0'];
        let mut line = String::new();
        for _ in 0..self.below(8) {
            line.push(alphabet[self.below(10) as usize]);
        }
        line
    }
}

#[test]
fn random_trees_round_trip() {
    let mut gen = Gen(0x9e3779b97f4a7c15);
    for _ in 0..500 {
        let mut contents = Vec::new();
        for _ in 0..gen.below(5) {
            let mode = match gen.below(4) {
                0 => 0,
                1 => usize::MAX,
                2 => 100644,
                _ => gen.next() as usize,
            };
            let hash: Vec<u8> = (0..20).map(|_| gen.below(4) as u8 * 0x20).collect();
            contents.push(File { mode, name: gen.name(), hash });
        }
        let tree = Tree { contents };
        let payload = tree.encode();
        assert_eq!(Tree::from(&payload), Some(tree.clone()));
        assert_eq!(GitObject::new(&tree.as_bytes()), Some(GitObject::Tree(tree)));
    }
}

#[test]
fn random_commits_round_trip() {
    let mut gen = Gen(0x2545f4914f6cdd1d);
    for _ in 0..500 {
        let commit = Commit {
            tree_hash: gen.line(),
            parent_hashes: (0..gen.below(4)).map(|_| gen.line()).collect(),
            author: gen.line(),
            committer: gen.line(),
            message: gen.line() + "\n" + &gen.line() + "\n\n" + &gen.line(),
        };
        let payload = commit.encode();
        assert_eq!(Commit::from(&payload), Some(commit.clone()));
        assert_eq!(GitObject::new(&commit.as_bytes()), Some(GitObject::Commit(commit)));
    }
}

#[test]
fn whatever_decodes_is_stable() {
    let mut gen = Gen(0xdeadbeefcafef00d);
    let mut decoded = 0;
    for round in 0..20000 {
        let mut bytes = gen.bytes(48);
        if round % 4 == 0 {
            let mut framed = [b"tree 1\0".as_slice(), b"commit 1\0", b"blob 1\0"][round / 4 % 3].to_vec();
            framed.append(&mut bytes);
            bytes = framed;
        }
        if let Some(object) = GitObject::new(&bytes) {
            decoded += 1;
            let canonical = object.as_bytes();
            assert_eq!(GitObject::new(&canonical), Some(object.clone()));
            assert_eq!(object.calc_hash(), GitObject::new(&canonical).unwrap().calc_hash());
        }
        if let Some(tree) = Tree::from(&bytes) {
            assert_eq!(Tree::from(&tree.encode()), Some(tree));
        }
        if let Some(commit) = Commit::from(&bytes) {
            assert_eq!(commit.encode(), bytes);
        }
    }
    assert!(decoded > 100);
}

#[test]
fn accepted_commit_payloads_are_canonical() {
    let mut gen = Gen(0x0123456789abcdef);
    let mut accepted = 0;
    for _ in 0..20000 {
        let mut payload = b"tree ".to_vec();
        for part in [b"\nauthor ".as_slice(), b"\ncommitter ", b"\n\n"] {
            payload.extend_from_slice(&gen.bytes(6));
            if gen.below(8) != 0 {
                payload.extend_from_slice(part);
            }
        }
        payload.extend_from_slice(&gen.bytes(6));
        if let Some(commit) = Commit::from(&payload) {
            accepted += 1;
            assert_eq!(commit.encode(), payload);
        }
    }
    assert!(accepted > 100);
}

#[test]
fn truncating_a_tree_anywhere_in_its_last_hash_rejects_it() {
    let mut gen = Gen(0xfeedface12345678);
    for _ in 0..200 {
        let mut contents = Vec::new();
        for _ in 0..1 + gen.below(3) {
            let hash: Vec<u8> = (0..20).map(|_| 1 + gen.below(255) as u8).collect();
            contents.push(File { mode: 100644, name: gen.name(), hash });
        }
        let payload = Tree { contents }.encode();
        for cut in 1..=20 {
            assert_eq!(Tree::from(&payload[..payload.len() - cut]), None);
        }
    }
}

#[test]
fn random_objects_survive_the_store() {
    let mut gen = Gen(0x1122334455667788);
    for _ in 0..50 {
        let data = gen.bytes(2000);
        let object = GitObject::new(&[b"blob 0\0".as_slice(), &data].concat()).unwrap();
        let (id, stored) = pack(&object).unwrap();
        assert_eq!(id.len(), 40);
        assert_eq!(unpack(&stored), Ok(object));
    }
}
