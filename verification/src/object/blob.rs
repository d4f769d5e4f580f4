//! The blob codec: a payload of bytes without any structure.

use super::{canonical, frame, ObjectType};
use crate::digest::{hex_encode, hex_text, sha1_digest, sha1_of, HASH_LEN};
use crate::text::utf8::as_text;
use vstd::prelude::*;
use vstd::slice::slice_to_vec;
use vstd::string::*;
use vstd::utf8::*;

verus! {

/// How a blob is shown: as the text that its bytes encode, or, where they
/// are not well-formed UTF-8, as their hex text.
pub open spec fn blob_text(data: Seq<u8>) -> Seq<char> {
    if valid_utf8(data) {
        decode_utf8(data)
    } else {
        hex_text(data)
    }
}

/// A blob: the content of a file, byte for byte.
#[derive(Debug, Clone, PartialEq, Eq)]
pub struct Blob {
    pub data: Vec<u8>,
}

impl View for Blob {
    type V = Seq<u8>;

    open spec fn view(&self) -> Seq<u8> {
        self.data@
    }
}

impl Blob {
    /// Decodes a blob payload. Every payload is a blob: the bytes are kept
    /// as they are, NUL bytes and line ends included.
    pub fn from(bytes: &[u8]) -> (r: Option<Blob>)
        ensures
            r matches Some(blob) && blob@ == bytes@,
    {
        Some(Blob { data: slice_to_vec(bytes) })
    }

    /// The payload of the blob: its bytes, unchanged.
    pub fn encode(&self) -> (out: Vec<u8>)
        ensures
            out@ == self@,
    {
        slice_to_vec(self.data.as_slice())
    }

    /// The blob as text for a reader.
    pub fn to_string(&self) -> (text: String)
        ensures
            text@ == blob_text(self@),
    {
        match as_text(self.data.as_slice()) {
            Some(text) => text.to_owned(),
            None => hex_encode(self.data.as_slice()),
        }
    }

    /// The canonical bytes of the blob: header and payload.
    pub fn as_bytes(&self) -> (out: Vec<u8>)
        ensures
            out@ == canonical(ObjectType::Blob, self@),
    {
        frame(ObjectType::Blob, self.data.as_slice())
    }

    /// The identity hash of the blob.
    pub fn calc_hash(&self) -> (out: Vec<u8>)
        ensures
            out@ == sha1_of(canonical(ObjectType::Blob, self@)),
            out@.len() == HASH_LEN,
    {
        let bytes = self.as_bytes();
        sha1_digest(bytes.as_slice())
    }
}

} // verus!
