//! The loose object store, without its files: the name under which an
//! object is stored, and the compressed form in which it is stored.

use crate::digest::{hex_encode, hex_text, sha1_digest, HASH_LEN};
use crate::object::{parse_object, GitObject, ObjectView};
use crate::text::utf8::{chars_of, substring};
use vstd::prelude::*;
use vstd::string::*;

verus! {

/// The ways in which reading or writing an object fails.
#[derive(Debug, Clone, Copy, PartialEq, Eq, Structural)]
pub enum StoreError {
    /// No object is stored under the name.
    NotFound,
    /// The file system or the compressor failed.
    IoError,
    /// What is stored is not an object.
    InvalidData,
    /// What was to be hashed could not be read.
    InvalidInput,
}

/// What came of reading a file.
#[derive(Debug, Clone, PartialEq, Eq)]
pub enum FileRead {
    /// No file exists at the path.
    Missing,
    /// The file exists and could not be read.
    Failed,
    /// The whole content of the file.
    Content(Vec<u8>),
}

/// Whether `c` is a hex digit, of either case.
pub open spec fn is_hex(c: char) -> bool {
    ||| '0' <= c <= '9'
    ||| 'a' <= c <= 'f'
    ||| 'A' <= c <= 'F'
}

/// Whether `id` can name an object: forty hex digits.
pub open spec fn is_object_id(id: Seq<char>) -> bool {
    &&& id.len() == 2 * HASH_LEN
    &&& forall|i: int| 0 <= i < id.len() ==> is_hex(#[trigger] id[i])
}

/// What the `libflate` ZLIB decoder makes of `stored`: the bytes it yields,
/// or `None` where it reports an error.
pub uninterp spec fn inflated(stored: Seq<u8>) -> Option<Seq<u8>>;

/// What the `libflate` ZLIB encoder makes of `raw` with its default
/// options: the stream it writes, or `None` where it reports an error.
pub uninterp spec fn deflated(raw: Seq<u8>) -> Option<Seq<u8>>;

/// Runs `libflate::zlib::Decoder` over `stored` and reads it to its end.
///
/// Trusted: whether the decoder succeeds and what it yields depend on the
/// given bytes alone; the outcome is named `inflated`.
#[verifier::external_body]
fn zlib_decode(stored: &[u8]) -> (r: Option<Vec<u8>>)
    ensures
        match r {
            Some(raw) => inflated(stored@) == Some(raw@),
            None => inflated(stored@) is None,
        },
{
    let mut decoder = libflate::zlib::Decoder::new(stored).ok()?;
    let mut raw = Vec::new();
    std::io::Read::read_to_end(&mut decoder, &mut raw).ok()?;
    Some(raw)
}

/// Runs `libflate::zlib::Encoder` with its default options over `raw` and
/// finishes the stream.
///
/// Trusted: whether the encoder succeeds and what it writes depend on the
/// given bytes alone; the outcome is named `deflated`.
#[verifier::external_body]
fn zlib_encode(raw: &[u8]) -> (r: Option<Vec<u8>>)
    ensures
        match r {
            Some(stored) => deflated(raw@) == Some(stored@),
            None => deflated(raw@) is None,
        },
{
    let mut encoder = libflate::zlib::Encoder::new(Vec::new()).ok()?;
    std::io::Write::write_all(&mut encoder, raw).ok()?;
    encoder.finish().into_result().ok()
}

/// The object that a stored file holds: what its bytes inflate to must be
/// the canonical bytes of an object.
pub open spec fn stored_object(stored: Seq<u8>) -> Option<ObjectView> {
    match inflated(stored) {
        Some(raw) => parse_object(raw),
        None => None,
    }
}

/// The hex text of a hash can name an object.
pub proof fn lemma_hex_names_object(hash: Seq<u8>)
    requires
        hash.len() == HASH_LEN,
    ensures
        is_object_id(hex_text(hash)),
{
    let id = hex_text(hash);
    assert forall|i: int| 0 <= i < id.len() implies is_hex(#[trigger] id[i]) by {
        let byte = hash[i / 2] as int;
        assert(0 <= byte / 16 < 16);
        assert(0 <= byte % 16 < 16);
    }
}

/// The name of the object in the store: the hex text of its identity hash.
pub fn object_id(object: &GitObject) -> (id: String)
    ensures
        id@ == hex_text(object@.hash()),
        is_object_id(id@),
{
    let hash = object.calc_hash();
    proof {
        lemma_hex_names_object(hash@);
    }
    hex_encode(hash.as_slice())
}

/// Whether `c` is a hex digit, of either case.
pub fn is_hex_digit(c: char) -> (b: bool)
    ensures
        b == is_hex(c),
{
    ('0' <= c && c <= '9') || ('a' <= c && c <= 'f') || ('A' <= c && c <= 'F')
}

/// The directory and the file under which the object named `id` is stored:
/// the first two characters of the name, and the other thirty-eight.
/// Nothing is stored under a name that is not forty hex digits: for such a
/// name the result is `NotFound`.
pub fn object_path(id: &str) -> (r: Result<(String, String), StoreError>)
    ensures
        match r {
            Ok((dir, file)) => is_object_id(id@) && dir@ == id@.take(2) && file@ == id@.skip(2),
            Err(e) => e == StoreError::NotFound && !is_object_id(id@),
        },
{
    let chars = chars_of(id);
    if chars.len() != 2 * HASH_LEN {
        return Err(StoreError::NotFound);
    }
    let mut i: usize = 0;
    while i < chars.len()
        invariant
            i <= chars@.len(),
            chars@ == id@,
            forall|j: int| 0 <= j < i ==> is_hex(#[trigger] chars@[j]),
        decreases chars@.len() - i,
    {
        if !is_hex_digit(chars[i]) {
            return Err(StoreError::NotFound);
        }
        i += 1;
    }
    let dir = substring(id, 0, 2);
    let file = substring(id, 2, chars.len());
    assert(id@.subrange(0, 2) =~= id@.take(2));
    assert(id@.subrange(2, chars@.len() as int) =~= id@.skip(2));
    Ok((dir, file))
}

/// Decodes the object that a stored file holds. A decoded object is well
/// formed; whatever else is stored is `InvalidData`.
pub fn unpack(stored: &[u8]) -> (r: Result<GitObject, StoreError>)
    ensures
        match r {
            Ok(object) => stored_object(stored@) == Some(object@),
            Err(e) => e == StoreError::InvalidData && stored_object(stored@) is None,
        },
        r matches Ok(object) ==> object@.wf(),
{
    let raw = match zlib_decode(stored) {
        Some(raw) => raw,
        None => {
            return Err(StoreError::InvalidData);
        },
    };
    match GitObject::new(raw.as_slice()) {
        Some(object) => Ok(object),
        None => Err(StoreError::InvalidData),
    }
}

/// The name under which an object is stored, and the bytes of its file:
/// the hex text of the hash of its canonical bytes, and those bytes
/// compressed. Both depend on the content of the object alone, so that
/// storing an object twice stores the same bytes under the same name.
pub fn pack(object: &GitObject) -> (r: Result<(String, Vec<u8>), StoreError>)
    ensures
        match r {
            Ok((id, stored)) => {
                &&& id@ == hex_text(object@.hash())
                &&& is_object_id(id@)
                &&& deflated(object@.bytes()) == Some(stored@)
            },
            Err(e) => e == StoreError::IoError && deflated(object@.bytes()) is None,
        },
{
    let raw = object.as_bytes();
    let stored = match zlib_encode(raw.as_slice()) {
        Some(stored) => stored,
        None => {
            return Err(StoreError::IoError);
        },
    };
    let hash = sha1_digest(raw.as_slice());
    proof {
        lemma_hex_names_object(hash@);
    }
    Ok((hex_encode(hash.as_slice()), stored))
}

/// Storing is idempotent: two objects with the same content are stored
/// under the same name, with the same bytes.
pub proof fn store_idempotent(a: GitObject, b: GitObject)
    requires
        a@ == b@,
    ensures
        hex_text(a@.hash()) == hex_text(b@.hash()),
        deflated(a@.bytes()) == deflated(b@.bytes()),
{
}

} // verus!
