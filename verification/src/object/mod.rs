//! The three kinds of object, the header that frames a payload, and the
//! dispatch from canonical bytes to the codec of the kind that the header
//! names.

pub mod blob;
pub mod commit;
pub mod tree;

use crate::digest::{sha1_of, HASH_LEN};
use crate::object::blob::{blob_text, Blob};
use crate::object::commit::{
    commit_payload_canonical, commit_roundtrip, decode_commit, Commit, CommitView,
};
use crate::object::tree::{
    all_wf, parse_entries, parsed_entries_wf, tree_payload, tree_roundtrip, tree_text, FileView,
    Tree,
};
use crate::text::decimal::{decimal, decimal_bytes, is_digit, lemma_decimal};
use crate::text::scan::{
    find_byte, free_of, index_of, is_space, lemma_index_of, lemma_run_len_is, not_space, run_len,
    skip_spaces, skip_word, space,
};
use crate::text::utf8::{
    append, as_text, chars_of, lemma_encode_ascii, lemma_encode_concat, lemma_encode_nul, spells,
};
use vstd::prelude::*;
use vstd::slice::slice_subrange;
use vstd::string::*;
use vstd::utf8::*;

verus! {

/// The kind of an object.
#[derive(Debug, Clone, Copy, PartialEq, Eq, Structural)]
pub enum ObjectType {
    Blob,
    Tree,
    Commit,
}

/// The first whitespace-delimited word of `s`: what follows the leading
/// whitespace, up to the next whitespace. Empty if `s` holds no word.
pub open spec fn first_word(s: Seq<char>) -> Seq<char> {
    let rest = s.skip(run_len(s, space()) as int);
    rest.take(run_len(rest, not_space()) as int)
}

/// The text of an object header, without the NUL that ends it: the kind's
/// name, one space, and the payload length in decimal.
pub open spec fn header_text(kind: ObjectType, len: nat) -> Seq<char> {
    kind.name() + seq![' '] + decimal(len)
}

/// The canonical bytes of an object of the given kind and payload: header,
/// NUL, payload.
pub open spec fn canonical(kind: ObjectType, payload: Seq<u8>) -> Seq<u8> {
    encode_utf8(header_text(kind, payload.len())) + seq![0u8] + payload
}

impl ObjectType {
    /// The name of the kind as headers spell it.
    pub open spec fn name(self) -> Seq<char> {
        match self {
            ObjectType::Blob => "blob"@,
            ObjectType::Tree => "tree"@,
            ObjectType::Commit => "commit"@,
        }
    }

    /// The kind that the word `w` names, if it names one.
    pub open spec fn named(w: Seq<char>) -> Option<ObjectType> {
        if w == ObjectType::Blob.name() {
            Some(ObjectType::Blob)
        } else if w == ObjectType::Tree.name() {
            Some(ObjectType::Tree)
        } else if w == ObjectType::Commit.name() {
            Some(ObjectType::Commit)
        } else {
            None
        }
    }

    /// The kind named by the first whitespace-delimited word of `s`.
    pub fn from(s: &str) -> (r: Option<Self>)
        ensures
            r == Self::named(first_word(s@)),
    {
        let chars = chars_of(s);
        let start = skip_spaces(chars.as_slice(), 0);
        let end = skip_word(chars.as_slice(), start);
        let word = slice_subrange(chars.as_slice(), start, end);
        assert(chars@.skip(0) =~= chars@);
        assert(word@ =~= first_word(s@));
        if spells(word, "blob") {
            Some(ObjectType::Blob)
        } else if spells(word, "tree") {
            Some(ObjectType::Tree)
        } else if spells(word, "commit") {
            Some(ObjectType::Commit)
        } else {
            None
        }
    }

    /// The name of the kind as headers spell it.
    pub fn to_string(&self) -> (r: String)
        ensures
            r@ == self.name(),
    {
        match *self {
            ObjectType::Blob => String::from_str("blob"),
            ObjectType::Tree => String::from_str("tree"),
            ObjectType::Commit => String::from_str("commit"),
        }
    }
}

/// The canonical bytes of an object of the given kind and payload.
pub fn frame(kind: ObjectType, payload: &[u8]) -> (out: Vec<u8>)
    ensures
        out@ == canonical(kind, payload@),
{
    let name = kind.to_string();
    let mut out = name.as_str().as_bytes_vec();
    out.push(0x20u8);
    let size = decimal_bytes(payload.len());
    append(&mut out, size.as_slice());
    out.push(0u8);
    append(&mut out, payload);
    proof {
        let len = payload@.len();
        lemma_encode_concat(kind.name() + seq![' '], decimal(len));
        lemma_encode_concat(kind.name(), seq![' ']);
        lemma_encode_ascii(' ');
        assert(out@ =~= canonical(kind, payload@));
    }
    out
}

/// An object as a mathematical value.
pub enum ObjectView {
    Blob(Seq<u8>),
    Tree(Seq<FileView>),
    Commit(CommitView),
}

impl ObjectView {
    /// The kind of the object.
    pub open spec fn kind(self) -> ObjectType {
        match self {
            ObjectView::Blob(_) => ObjectType::Blob,
            ObjectView::Tree(_) => ObjectType::Tree,
            ObjectView::Commit(_) => ObjectType::Commit,
        }
    }

    /// The payload of the object, as its codec encodes it.
    pub open spec fn payload(self) -> Seq<u8> {
        match self {
            ObjectView::Blob(data) => data,
            ObjectView::Tree(entries) => tree_payload(entries),
            ObjectView::Commit(commit) => commit.payload(),
        }
    }

    /// The canonical bytes of the object: header, NUL, payload.
    pub open spec fn bytes(self) -> Seq<u8> {
        canonical(self.kind(), self.payload())
    }

    /// The identity of the object: the digest of its canonical bytes.
    pub open spec fn hash(self) -> Seq<u8> {
        sha1_of(self.bytes())
    }

    /// How the object is shown to a reader.
    pub open spec fn shown(self) -> Seq<char> {
        match self {
            ObjectView::Blob(data) => blob_text(data),
            ObjectView::Tree(entries) => tree_text(entries),
            ObjectView::Commit(commit) => commit.text(),
        }
    }

    /// What an object must satisfy for its canonical bytes to decode to
    /// itself.
    pub open spec fn wf(self) -> bool {
        match self {
            ObjectView::Blob(_) => true,
            ObjectView::Tree(entries) => all_wf(entries),
            ObjectView::Commit(commit) => commit.wf(),
        }
    }
}

/// The object of the given kind that a payload denotes.
pub open spec fn decode_payload(kind: ObjectType, payload: Seq<u8>) -> Option<ObjectView> {
    match kind {
        ObjectType::Blob => Some(ObjectView::Blob(payload)),
        ObjectType::Tree => match parse_entries(payload) {
            Some(entries) => Some(ObjectView::Tree(entries)),
            None => None,
        },
        ObjectType::Commit => match decode_commit(payload) {
            Some(commit) => Some(ObjectView::Commit(commit)),
            None => None,
        },
    }
}

/// The object that canonical bytes denote. The header is all that stands
/// before the first NUL; it must be well-formed UTF-8 and its first word the
/// name of a kind. The payload is all that stands behind that NUL, and the
/// codec of the kind decodes it. The length that the header declares is not
/// consulted.
pub open spec fn parse_object(bytes: Seq<u8>) -> Option<ObjectView> {
    let nul = index_of(bytes, 0u8) as int;
    if nul < bytes.len() && valid_utf8(bytes.take(nul)) {
        match ObjectType::named(first_word(decode_utf8(bytes.take(nul)))) {
            Some(kind) => decode_payload(kind, bytes.skip(nul + 1)),
            None => None,
        }
    } else {
        None
    }
}

/// An object of the store: a blob, a tree or a commit.
#[derive(Debug, Clone, PartialEq, Eq)]
pub enum GitObject {
    Blob(Blob),
    Tree(Tree),
    Commit(Commit),
}

impl View for GitObject {
    type V = ObjectView;

    open spec fn view(&self) -> ObjectView {
        match self {
            GitObject::Blob(blob) => ObjectView::Blob(blob@),
            GitObject::Tree(tree) => ObjectView::Tree(tree@),
            GitObject::Commit(commit) => ObjectView::Commit(commit@),
        }
    }
}

impl GitObject {
    /// The identity hash of the object: the digest of its canonical bytes.
    pub fn calc_hash(&self) -> (out: Vec<u8>)
        ensures
            out@ == self@.hash(),
            out@.len() == HASH_LEN,
    {
        match self {
            Self::Blob(obj) => obj.calc_hash(),
            Self::Tree(obj) => obj.calc_hash(),
            Self::Commit(obj) => obj.calc_hash(),
        }
    }

    /// The object as text for a reader.
    pub fn to_string(&self) -> (text: String)
        ensures
            text@ == self@.shown(),
    {
        match self {
            Self::Blob(obj) => obj.to_string(),
            Self::Tree(obj) => obj.to_string(),
            Self::Commit(obj) => obj.to_string(),
        }
    }

    /// The canonical bytes of the object. Where the object is well formed,
    /// the bytes decode to it.
    pub fn as_bytes(&self) -> (out: Vec<u8>)
        ensures
            out@ == self@.bytes(),
            self@.wf() ==> parse_object(out@) == Some(self@),
    {
        proof {
            if self@.wf() {
                object_roundtrip(self@);
            }
        }
        match self {
            Self::Blob(obj) => obj.as_bytes(),
            Self::Tree(obj) => obj.as_bytes(),
            Self::Commit(obj) => obj.as_bytes(),
        }
    }

    /// Decodes an object from its canonical bytes. A decoded object is well
    /// formed.
    pub fn new(bytes: &[u8]) -> (r: Option<Self>)
        ensures
            match r {
                Some(object) => parse_object(bytes@) == Some(object@),
                None => parse_object(bytes@) is None,
            },
            r matches Some(object) ==> object@.wf(),
    {
        proof {
            if parse_object(bytes@) is Some {
                parsed_object_stable(bytes@);
            }
        }
        let nul = find_byte(bytes, 0, 0u8);
        assert(bytes@.skip(0) =~= bytes@);
        if nul >= bytes.len() {
            return None;
        }
        let header = slice_subrange(bytes, 0, nul);
        let payload = slice_subrange(bytes, nul + 1, bytes.len());
        assert(header@ =~= bytes@.take(nul as int));
        assert(payload@ =~= bytes@.skip(nul + 1));
        let text = match as_text(header) {
            Some(text) => text,
            None => {
                return None;
            },
        };
        let kind = match ObjectType::from(text) {
            Some(kind) => kind,
            None => {
                return None;
            },
        };
        match kind {
            ObjectType::Blob => match Blob::from(payload) {
                Some(blob) => Some(GitObject::Blob(blob)),
                None => None,
            },
            ObjectType::Tree => match Tree::from(payload) {
                Some(tree) => Some(GitObject::Tree(tree)),
                None => None,
            },
            ObjectType::Commit => match Commit::from(payload) {
                Some(commit) => Some(GitObject::Commit(commit)),
                None => None,
            },
        }
    }
}

/// The text of a header holds no NUL, its first word is the name of its
/// kind, and that name names no other kind.
pub proof fn lemma_header(kind: ObjectType, len: nat)
    ensures
        free_of(header_text(kind, len), '\0'),
        first_word(header_text(kind, len)) == kind.name(),
        ObjectType::named(kind.name()) == Some(kind),
{
    reveal_strlit("blob");
    reveal_strlit("tree");
    reveal_strlit("commit");
    let name = kind.name();
    let number = decimal(len);
    let text = header_text(kind, len);
    lemma_decimal(len);
    assert("blob"@ != "tree"@) by {
        assert("blob"@[0] != "tree"@[0]);
    }
    assert("blob"@ != "commit"@) by {
        assert("blob"@[0] != "commit"@[0]);
    }
    assert("tree"@ != "commit"@) by {
        assert("tree"@[0] != "commit"@[0]);
    }
    assert forall|j: int| 0 <= j < name.len() implies !is_space(
        #[trigger] name[j],
    ) && name[j] != '\0' by {}
    assert forall|j: int| 0 <= j < text.len() implies #[trigger] text[j] != '\0' by {
        if j < name.len() {
            assert(text[j] == name[j]);
        } else if j > name.len() {
            assert(text[j] == number[j - name.len() - 1]);
            assert(is_digit(number[j - name.len() - 1]));
        }
    }
    assert(text[0] == name[0]);
    lemma_run_len_is(text, space(), 0);
    assert(text.skip(0) =~= text);
    assert forall|j: int| 0 <= j < name.len() implies not_space()(#[trigger] text[j]) by {
        assert(text[j] == name[j]);
    }
    assert(text[name.len() as int] == ' ');
    lemma_run_len_is(text, not_space(), name.len() as int);
    assert(text.take(name.len() as int) =~= name);
}

/// Each codec decodes what it encodes: decoding the payload of a
/// well-formed object with the codec of its kind gives the object back, and
/// encoding what was decoded gives the same payload.
pub proof fn payload_roundtrip(object: ObjectView)
    requires
        object.wf(),
    ensures
        decode_payload(object.kind(), object.payload()) == Some(object),
        decode_payload(object.kind(), object.payload()).unwrap().payload() == object.payload(),
{
    match object {
        ObjectView::Blob(_) => {},
        ObjectView::Tree(entries) => {
            tree_roundtrip(entries);
        },
        ObjectView::Commit(commit) => {
            commit_roundtrip(commit);
        },
    }
}

/// Decoding the canonical bytes of a well-formed object gives the object
/// back, and encoding what was decoded gives the same bytes.
pub proof fn object_roundtrip(object: ObjectView)
    requires
        object.wf(),
    ensures
        parse_object(object.bytes()) == Some(object),
        parse_object(object.bytes()).unwrap().bytes() == object.bytes(),
{
    let kind = object.kind();
    let payload = object.payload();
    let text = header_text(kind, payload.len());
    let header = encode_utf8(text);
    let bytes = object.bytes();
    lemma_header(kind, payload.len());
    lemma_encode_nul(text);
    assert(bytes =~= header + seq![0u8] + payload);
    lemma_index_of(header, 0u8, payload);
    let nul = header.len() as int;
    assert(bytes.take(nul) =~= header);
    assert(bytes.skip(nul + 1) =~= payload);
    encode_utf8_valid_utf8(text);
    encode_utf8_decode_utf8(text);
    payload_roundtrip(object);
}

/// Whatever decodes is well formed: encoding a decoded object and decoding
/// it again gives the same object.
pub proof fn parsed_object_stable(bytes: Seq<u8>)
    requires
        parse_object(bytes) is Some,
    ensures
        parse_object(bytes).unwrap().wf(),
        parse_object(parse_object(bytes).unwrap().bytes()) == parse_object(bytes),
{
    let nul = index_of(bytes, 0u8) as int;
    let payload = bytes.skip(nul + 1);
    match parse_object(bytes).unwrap() {
        ObjectView::Blob(_) => {},
        ObjectView::Tree(_) => {
            parsed_entries_wf(payload);
        },
        ObjectView::Commit(_) => {
            commit_payload_canonical(payload);
        },
    }
    object_roundtrip(parse_object(bytes).unwrap());
}

/// The identity hash is a function of the kind and the content alone: two
/// objects with the same content have the same hash.
pub proof fn hash_determined(a: GitObject, b: GitObject)
    requires
        a@ == b@,
    ensures
        a@.hash() == b@.hash(),
{
}

} // verus!
