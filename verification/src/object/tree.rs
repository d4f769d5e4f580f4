//! The tree codec: an ordered list of entries, each framed as
//! `<mode> <name>`, NUL, and twenty raw bytes of hash.

use super::{canonical, frame, ObjectType};
use crate::digest::{hex_encode, hex_text, sha1_digest, sha1_of, HASH_LEN};
use crate::text::decimal::{
    decimal, decimal_bytes, decimal_string, is_digit, lemma_decimal, parse_decimal, parse_usize,
};
use crate::text::scan::{
    find_byte, free_of, index_of, is_space, lemma_index_of, lemma_index_of_prefix,
    lemma_index_of_props, lemma_run_len_is, lemma_run_len_props, not_space, run_len, skip_spaces,
    skip_word, space,
};
use crate::text::utf8::{
    append, as_text, chars_of, lemma_encode_ascii, lemma_encode_concat, lemma_encode_nul,
    substring,
};
use vstd::prelude::*;
use vstd::slice::{slice_subrange, slice_to_vec};
use vstd::string::*;
use vstd::utf8::*;

verus! {

/// One entry of a tree, as a mathematical value.
pub struct FileView {
    pub mode: nat,
    pub name: Seq<char>,
    pub hash: Seq<u8>,
}

impl FileView {
    /// The text in front of the NUL: the mode in decimal, one space, the
    /// name.
    pub open spec fn head(self) -> Seq<char> {
        decimal(self.mode) + seq![' '] + self.name
    }

    /// The bytes of the entry: head, NUL, hash.
    pub open spec fn bytes(self) -> Seq<u8> {
        encode_utf8(self.head()) + seq![0u8] + self.hash
    }

    /// How an entry is shown: the mode in decimal, one space, the hash in
    /// hex, a tab, the name.
    pub open spec fn line(self) -> Seq<char> {
        decimal(self.mode) + seq![' '] + hex_text(self.hash) + seq!['\t'] + self.name
    }

    /// What an entry must satisfy for its bytes to decode to itself: a
    /// hash of twenty bytes, a mode that fits, and a name that is not empty,
    /// holds no NUL and does not begin with whitespace.
    pub open spec fn wf(self) -> bool {
        &&& self.hash.len() == HASH_LEN
        &&& self.mode <= usize::MAX
        &&& self.name.len() > 0
        &&& !is_space(self.name[0])
        &&& free_of(self.name, '\0')
    }
}

/// The mode and name that the text in front of an entry's NUL denotes: the
/// text is split at its first run of whitespace, what stands before the run
/// must denote a number that fits, and what follows it is the name, which
/// must not be empty.
pub open spec fn parse_head(text: Seq<char>) -> Option<(nat, Seq<char>)> {
    let word = run_len(text, not_space()) as int;
    let rest = text.skip(word);
    let name = rest.skip(run_len(rest, space()) as int);
    match parse_decimal(text.take(word)) {
        Some(mode) => if mode <= usize::MAX && name.len() > 0 {
            Some((mode, name))
        } else {
            None
        },
        None => None,
    }
}

/// The entry made of the bytes in front of the NUL and the bytes of the
/// hash: the former must be well-formed UTF-8 that `parse_head` accepts, the
/// latter twenty bytes.
pub open spec fn parse_file(header: Seq<u8>, hash: Seq<u8>) -> Option<FileView> {
    if valid_utf8(header) && hash.len() == HASH_LEN {
        match parse_head(decode_utf8(header)) {
            Some((mode, name)) => Some(FileView { mode, name, hash }),
            None => None,
        }
    } else {
        None
    }
}

/// The entries that a tree payload denotes. The payload is read entry by
/// entry until it is exhausted: up to the next NUL is the head, the twenty
/// bytes behind the NUL are the hash. `None` if bytes remain without a NUL,
/// if fewer than twenty bytes follow a NUL, or if an entry is not accepted.
pub open spec fn parse_entries(bytes: Seq<u8>) -> Option<Seq<FileView>>
    decreases bytes.len(),
{
    let nul = index_of(bytes, 0u8) as int;
    if bytes.len() == 0 {
        Some(Seq::empty())
    } else if nul >= bytes.len() || bytes.len() - (nul + 1) < HASH_LEN {
        None
    } else {
        match parse_file(bytes.take(nul), bytes.subrange(nul + 1, nul + 1 + HASH_LEN)) {
            Some(first) => match parse_entries(bytes.skip(nul + 1 + HASH_LEN)) {
                Some(rest) => Some(seq![first] + rest),
                None => None,
            },
            None => None,
        }
    }
}

/// Whether every entry is well formed.
pub open spec fn all_wf(entries: Seq<FileView>) -> bool {
    forall|i: int| 0 <= i < entries.len() ==> (#[trigger] entries[i]).wf()
}

/// The payload of a tree: the bytes of its entries, in order, with nothing
/// between them.
pub open spec fn tree_payload(entries: Seq<FileView>) -> Seq<u8>
    decreases entries.len(),
{
    if entries.len() == 0 {
        Seq::empty()
    } else {
        entries[0].bytes() + tree_payload(entries.drop_first())
    }
}

/// How a tree is shown: the line of each entry, in order, each followed by a
/// line end.
pub open spec fn tree_text(entries: Seq<FileView>) -> Seq<char>
    decreases entries.len(),
{
    if entries.len() == 0 {
        Seq::empty()
    } else {
        tree_text(entries.drop_last()) + entries.last().line() + seq!['\n']
    }
}

/// One entry of a tree: a mode, a name, and the hash of the object that the
/// name stands for.
#[derive(Debug, Clone, PartialEq, Eq)]
pub struct File {
    pub mode: usize,
    pub name: String,
    pub hash: Vec<u8>,
}

impl View for File {
    type V = FileView;

    open spec fn view(&self) -> FileView {
        FileView { mode: self.mode as nat, name: self.name@, hash: self.hash@ }
    }
}

impl File {
    /// An entry with the given fields.
    pub fn new(mode: usize, name: String, hash: &[u8]) -> (file: File)
        ensures
            file@ == (FileView { mode: mode as nat, name: name@, hash: hash@ }),
    {
        File { mode, name, hash: slice_to_vec(hash) }
    }

    /// Decodes an entry from the bytes in front of its NUL and the bytes of
    /// its hash. Where those bytes hold no NUL themselves, the entry is well
    /// formed.
    pub fn from(header: &[u8], hash: &[u8]) -> (r: Option<File>)
        ensures
            match r {
                Some(file) => parse_file(header@, hash@) == Some(file@),
                None => parse_file(header@, hash@) is None,
            },
            free_of(header@, 0u8) ==> (r matches Some(file) ==> file@.wf()),
    {
        proof {
            if parse_file(header@, hash@) is Some && free_of(header@, 0u8) {
                lemma_parsed_file_wf(header@, hash@);
            }
        }
        if hash.len() != HASH_LEN {
            return None;
        }
        let text = match as_text(header) {
            Some(text) => text,
            None => {
                return None;
            },
        };
        let chars = chars_of(text);
        let word = skip_word(chars.as_slice(), 0);
        let start = skip_spaces(chars.as_slice(), word);
        assert(chars@.skip(0) =~= chars@);
        assert(chars@.subrange(0, word as int) =~= chars@.take(word as int));
        assert(chars@.subrange(start as int, chars@.len() as int) =~= chars@.skip(
            word as int,
        ).skip(start - word));
        let mode = match parse_usize(slice_subrange(chars.as_slice(), 0, word)) {
            Some(mode) => mode,
            None => {
                return None;
            },
        };
        if start == chars.len() {
            return None;
        }
        let name = substring(text, start, chars.len());
        Some(File::new(mode, name, hash))
    }

    /// The entry as text for a reader.
    pub fn to_string(&self) -> (text: String)
        ensures
            text@ == self@.line(),
    {
        let mut text = decimal_string(self.mode);
        let hash = hex_encode(self.hash.as_slice());
        text.append(" ");
        text.append(hash.as_str());
        text.append("\t");
        text.append(self.name.as_str());
        proof {
            reveal_strlit(" ");
            reveal_strlit("\t");
            assert(" "@ =~= seq![' ']);
            assert("\t"@ =~= seq!['\t']);
        }
        text
    }

    /// The bytes of the entry.
    pub fn encode(&self) -> (out: Vec<u8>)
        ensures
            out@ == self@.bytes(),
    {
        let mut out = decimal_bytes(self.mode);
        out.push(0x20u8);
        append(&mut out, self.name.as_str().as_bytes());
        out.push(0u8);
        append(&mut out, self.hash.as_slice());
        proof {
            lemma_encode_concat(decimal(self.mode as nat) + seq![' '], self.name@);
            lemma_encode_concat(decimal(self.mode as nat), seq![' ']);
            lemma_encode_ascii(' ');
            assert(out@ =~= self@.bytes());
        }
        out
    }
}

/// A tree: the entries of a directory, in the order in which they are
/// stored.
#[derive(Debug, Clone, PartialEq, Eq)]
pub struct Tree {
    pub contents: Vec<File>,
}

impl View for Tree {
    type V = Seq<FileView>;

    open spec fn view(&self) -> Seq<FileView> {
        Seq::new(self.contents@.len(), |i: int| self.contents@[i]@)
    }
}

impl Tree {
    /// Decodes a tree payload. The entries of a decoded tree are well
    /// formed and stand in the order of the payload.
    pub fn from(bytes: &[u8]) -> (r: Option<Tree>)
        ensures
            match r {
                Some(tree) => parse_entries(bytes@) == Some(tree@),
                None => parse_entries(bytes@) is None,
            },
            r matches Some(tree) ==> all_wf(tree@),
    {
        proof {
            if parse_entries(bytes@) is Some {
                parsed_entries_wf(bytes@);
            }
        }
        let mut contents: Vec<File> = Vec::new();
        let mut at: usize = 0;
        let ghost mut done: Seq<FileView> = Seq::empty();
        assert(bytes@.skip(0) =~= bytes@);
        while at < bytes.len()
            invariant
                at <= bytes@.len(),
                done == Seq::new(contents@.len(), |i: int| contents@[i]@),
                parse_entries(bytes@) == match parse_entries(bytes@.skip(at as int)) {
                    Some(rest) => Some(done + rest),
                    None => None,
                },
            decreases bytes@.len() - at,
        {
            let ghost left = bytes@.skip(at as int);
            let nul = find_byte(bytes, at, 0u8);
            if nul >= bytes.len() || bytes.len() - (nul + 1) < HASH_LEN {
                return None;
            }
            let header = slice_subrange(bytes, at, nul);
            let hash = slice_subrange(bytes, nul + 1, nul + 1 + HASH_LEN);
            assert(header@ =~= left.take(nul - at));
            assert(hash@ =~= left.subrange(nul - at + 1, nul - at + 1 + HASH_LEN));
            assert(bytes@.skip(nul + 1 + HASH_LEN) =~= left.skip(nul - at + 1 + HASH_LEN));
            let file = match File::from(header, hash) {
                Some(file) => file,
                None => {
                    return None;
                },
            };
            proof {
                let next = done.push(file@);
                match parse_entries(bytes@.skip(nul + 1 + HASH_LEN)) {
                    Some(rest) => {
                        assert(done + (seq![file@] + rest) =~= next + rest);
                    },
                    None => {},
                }
                done = next;
            }
            contents.push(file);
            assert(done =~= Seq::new(contents@.len(), |i: int| contents@[i]@));
            at = nul + 1 + HASH_LEN;
        }
        assert(bytes@.skip(at as int) =~= Seq::<u8>::empty());
        let tree = Tree { contents };
        assert(tree@ =~= done + Seq::<FileView>::empty());
        Some(tree)
    }

    /// The payload of the tree. Where the entries are well formed, the
    /// payload decodes to them.
    pub fn encode(&self) -> (out: Vec<u8>)
        ensures
            out@ == tree_payload(self@),
            all_wf(self@) ==> parse_entries(out@) == Some(self@),
    {
        proof {
            if all_wf(self@) {
                tree_roundtrip(self@);
            }
        }
        let mut out: Vec<u8> = Vec::new();
        let mut i: usize = 0;
        assert(self@.take(0) =~= Seq::<FileView>::empty());
        while i < self.contents.len()
            invariant
                i <= self.contents@.len(),
                self@.len() == self.contents@.len(),
                out@ == tree_payload(self@.take(i as int)),
            decreases self.contents@.len() - i,
        {
            let entry = self.contents[i].encode();
            append(&mut out, entry.as_slice());
            proof {
                lemma_payload_push(self@.take(i as int), self@[i as int]);
                assert(self@.take(i as int).push(self@[i as int]) =~= self@.take(i + 1));
            }
            i += 1;
        }
        assert(self@.take(i as int) =~= self@);
        out
    }

    /// The tree as text for a reader.
    pub fn to_string(&self) -> (text: String)
        ensures
            text@ == tree_text(self@),
    {
        let mut text = String::new();
        let mut i: usize = 0;
        assert(self@.take(0) =~= Seq::<FileView>::empty());
        while i < self.contents.len()
            invariant
                i <= self.contents@.len(),
                self@.len() == self.contents@.len(),
                text@ == tree_text(self@.take(i as int)),
            decreases self.contents@.len() - i,
        {
            let line = self.contents[i].to_string();
            text.append(line.as_str());
            text.append("\n");
            proof {
                reveal_strlit("\n");
                assert("\n"@ =~= seq!['\n']);
                let next = self@.take(i + 1);
                assert(next.drop_last() =~= self@.take(i as int));
                assert(next.last() == self@[i as int]);
            }
            i += 1;
        }
        assert(self@.take(i as int) =~= self@);
        text
    }

    /// The canonical bytes of the tree: header and payload.
    pub fn as_bytes(&self) -> (out: Vec<u8>)
        ensures
            out@ == canonical(ObjectType::Tree, tree_payload(self@)),
    {
        let content = self.encode();
        frame(ObjectType::Tree, content.as_slice())
    }

    /// The identity hash of the tree.
    pub fn calc_hash(&self) -> (out: Vec<u8>)
        ensures
            out@ == sha1_of(canonical(ObjectType::Tree, tree_payload(self@))),
            out@.len() == HASH_LEN,
    {
        let bytes = self.as_bytes();
        sha1_digest(bytes.as_slice())
    }
}

/// The payload of a concatenation is the concatenation of the payloads.
pub proof fn lemma_payload_concat(a: Seq<FileView>, b: Seq<FileView>)
    ensures
        tree_payload(a + b) == tree_payload(a) + tree_payload(b),
    decreases a.len(),
{
    if a.len() == 0 {
        assert(a + b =~= b);
        assert(tree_payload(a) + tree_payload(b) =~= tree_payload(b));
    } else {
        lemma_payload_concat(a.drop_first(), b);
        assert((a + b).drop_first() =~= a.drop_first() + b);
        assert((a + b)[0] == a[0]);
        assert(tree_payload(a + b) =~= tree_payload(a) + tree_payload(b));
    }
}

/// Appending an entry appends its bytes to the payload.
pub proof fn lemma_payload_push(a: Seq<FileView>, e: FileView)
    ensures
        tree_payload(a.push(e)) == tree_payload(a) + e.bytes(),
{
    lemma_payload_concat(a, seq![e]);
    assert(a.push(e) =~= a + seq![e]);
    let one = seq![e];
    assert(one.drop_first() =~= Seq::<FileView>::empty());
    assert(one[0] == e);
    assert(tree_payload(one.drop_first()) =~= Seq::<u8>::empty());
    assert(tree_payload(one) =~= e.bytes());
}

/// The head of a well-formed entry denotes the entry's mode and name.
pub proof fn lemma_head_roundtrip(file: FileView)
    requires
        file.wf(),
    ensures
        parse_head(file.head()) == Some((file.mode, file.name)),
        free_of(file.head(), '\0'),
{
    let number = decimal(file.mode);
    let text = file.head();
    let word = number.len() as int;
    lemma_decimal(file.mode);
    assert forall|j: int| 0 <= j < word implies not_space()(#[trigger] text[j]) by {
        assert(text[j] == number[j]);
        assert(is_digit(number[j]));
    }
    assert(text[word] == ' ');
    lemma_run_len_is(text, not_space(), word);
    let rest = text.skip(word);
    assert(rest[0] == ' ');
    assert(rest[1] == file.name[0]);
    lemma_run_len_is(rest, space(), 1);
    assert(rest.skip(1) =~= file.name);
    assert(text.take(word) =~= number);
    assert forall|j: int| 0 <= j < text.len() implies #[trigger] text[j] != '\0' by {
        if j < word {
            assert(text[j] == number[j]);
            assert(is_digit(number[j]));
        } else if j > word {
            assert(text[j] == file.name[j - word - 1]);
        }
    }
}

/// Decoding the bytes of a well-formed entry gives the entry back.
pub proof fn file_roundtrip(file: FileView)
    requires
        file.wf(),
    ensures
        parse_file(encode_utf8(file.head()), file.hash) == Some(file),
{
    lemma_head_roundtrip(file);
    encode_utf8_valid_utf8(file.head());
    encode_utf8_decode_utf8(file.head());
}

/// Decoding the payload of a tree of well-formed entries gives the same
/// entries back, in the same order.
pub proof fn tree_roundtrip(entries: Seq<FileView>)
    requires
        all_wf(entries),
    ensures
        parse_entries(tree_payload(entries)) == Some(entries),
    decreases entries.len(),
{
    if entries.len() == 0 {
        assert(entries =~= Seq::<FileView>::empty());
    } else {
        let first = entries[0];
        let rest = entries.drop_first();
        let head = encode_utf8(first.head());
        let tail = tree_payload(rest);
        let bytes = tree_payload(entries);
        assert(first.wf());
        assert forall|i: int| 0 <= i < rest.len() implies (#[trigger] rest[i]).wf() by {
            assert(rest[i] == entries[i + 1]);
        }
        tree_roundtrip(rest);
        file_roundtrip(first);
        lemma_head_roundtrip(first);
        lemma_encode_nul(first.head());
        assert(bytes =~= head + seq![0u8] + (first.hash + tail));
        lemma_index_of(head, 0u8, first.hash + tail);
        let nul = head.len() as int;
        assert(bytes.take(nul) =~= head);
        assert(bytes.subrange(nul + 1, nul + 1 + HASH_LEN) =~= first.hash);
        assert(bytes.skip(nul + 1 + HASH_LEN) =~= tail);
        assert(seq![first] + rest =~= entries);
    }
}

/// An entry decoded from bytes that hold no NUL is well formed.
pub proof fn lemma_parsed_file_wf(header: Seq<u8>, hash: Seq<u8>)
    requires
        parse_file(header, hash) is Some,
        free_of(header, 0u8),
    ensures
        parse_file(header, hash).unwrap().wf(),
{
    let text = decode_utf8(header);
    decode_utf8_encode_utf8(header);
    lemma_encode_nul(text);
    let word = run_len(text, not_space()) as int;
    let rest = text.skip(word);
    let gap = run_len(rest, space()) as int;
    let name = rest.skip(gap);
    lemma_run_len_props(text, not_space());
    lemma_run_len_props(rest, space());
    assert(name[0] == rest[gap]);
    assert forall|i: int| 0 <= i < name.len() implies #[trigger] name[i] != '\0' by {
        assert(name[i] == text[word + gap + i]);
    }
}

/// Every entry of a decoded tree is well formed.
pub proof fn parsed_entries_wf(bytes: Seq<u8>)
    requires
        parse_entries(bytes) is Some,
    ensures
        all_wf(parse_entries(bytes).unwrap()),
    decreases bytes.len(),
{
    if bytes.len() > 0 {
        let nul = index_of(bytes, 0u8) as int;
        let header = bytes.take(nul);
        let hash = bytes.subrange(nul + 1, nul + 1 + HASH_LEN);
        let first = parse_file(header, hash).unwrap();
        let rest = parse_entries(bytes.skip(nul + 1 + HASH_LEN)).unwrap();
        lemma_index_of_props(bytes, 0u8);
        lemma_parsed_file_wf(header, hash);
        parsed_entries_wf(bytes.skip(nul + 1 + HASH_LEN));
        let all = seq![first] + rest;
        assert forall|i: int| 0 <= i < all.len() implies (#[trigger] all[i]).wf() by {
            if i > 0 {
                assert(all[i] == rest[i - 1]);
            }
        }
    }
}

/// Encoding a decoded tree and decoding it again gives the same entries in
/// the same order: a tree is never reordered.
pub proof fn tree_order_preserved(bytes: Seq<u8>)
    requires
        parse_entries(bytes) is Some,
    ensures
        parse_entries(tree_payload(parse_entries(bytes).unwrap())) == parse_entries(bytes),
{
    parsed_entries_wf(bytes);
    tree_roundtrip(parse_entries(bytes).unwrap());
}

/// A payload that decodes, followed by more bytes, decodes to its entries
/// followed by the entries of those bytes, or to nothing if those bytes do
/// not decode.
pub proof fn lemma_parse_entries_concat(a: Seq<u8>, b: Seq<u8>)
    requires
        parse_entries(a) is Some,
    ensures
        parse_entries(a + b) == match parse_entries(b) {
            Some(more) => Some(parse_entries(a).unwrap() + more),
            None => None,
        },
    decreases a.len(),
{
    if a.len() == 0 {
        assert(a + b =~= b);
        match parse_entries(b) {
            Some(more) => {
                assert(parse_entries(a).unwrap() + more =~= more);
            },
            None => {},
        }
    } else {
        let nul = index_of(a, 0u8) as int;
        let end = nul + 1 + HASH_LEN;
        lemma_index_of_prefix(a, b, 0u8);
        assert((a + b).take(nul) =~= a.take(nul));
        assert((a + b).subrange(nul + 1, end) =~= a.subrange(nul + 1, end));
        assert((a + b).skip(end) =~= a.skip(end) + b);
        lemma_parse_entries_concat(a.skip(end), b);
        let first = parse_file(a.take(nul), a.subrange(nul + 1, end)).unwrap();
        let rest = parse_entries(a.skip(end)).unwrap();
        match parse_entries(b) {
            Some(more) => {
                assert(seq![first] + (rest + more) =~= (seq![first] + rest) + more);
            },
            None => {},
        }
    }
}

/// A payload whose last entry has fewer than twenty bytes behind its NUL is
/// rejected, whatever entries stand before it.
pub proof fn truncated_entry_rejected(front: Seq<u8>, head: Seq<u8>, cut: Seq<u8>)
    requires
        parse_entries(front) is Some,
        free_of(head, 0u8),
        cut.len() < HASH_LEN,
    ensures
        parse_entries(front + (head + seq![0u8] + cut)) is None,
{
    let last = head + seq![0u8] + cut;
    lemma_index_of(head, 0u8, cut);
    assert(parse_entries(last) is None);
    lemma_parse_entries_concat(front, last);
}

} // verus!
