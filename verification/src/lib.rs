//! Git loose objects: the blob, tree and commit codecs, the canonical
//! serialisation with its header, the identity hash, and the compressed
//! stored form.
//!
//! The library does no input or output. A caller reads the file of an
//! object, or the file to hash, and hands on what came of it.

pub mod digest;
pub mod object;
pub mod store;
pub mod text;

use crate::object::blob::Blob;
use crate::object::GitObject;
use crate::store::{stored_object, unpack, FileRead, StoreError};
use vstd::prelude::*;

verus! {

/// The object of the store whose file was read with the given outcome: the
/// object that the content of the file holds. A missing file is `NotFound`,
/// a file that could not be read is `IoError`, and content that is not a
/// stored object is `InvalidData`.
pub fn cat_file_p(file: &FileRead) -> (r: Result<GitObject, StoreError>)
    ensures
        match *file {
            FileRead::Missing => r matches Err(e) && e == StoreError::NotFound,
            FileRead::Failed => r matches Err(e) && e == StoreError::IoError,
            FileRead::Content(stored) => match r {
                Ok(object) => stored_object(stored@) == Some(object@) && object@.wf(),
                Err(e) => e == StoreError::InvalidData && stored_object(stored@) is None,
            },
        },
{
    match file {
        FileRead::Missing => Err(StoreError::NotFound),
        FileRead::Failed => Err(StoreError::IoError),
        FileRead::Content(stored) => unpack(stored.as_slice()),
    }
}

/// The blob to hash for a file that was read with the given outcome: the
/// content of the file, byte for byte. A file that is missing or could not
/// be read is `InvalidInput`.
pub fn hash_object(file: &FileRead) -> (r: Result<Blob, StoreError>)
    ensures
        match *file {
            FileRead::Content(data) => r matches Ok(blob) && blob@ == data@,
            _ => r matches Err(e) && e == StoreError::InvalidInput,
        },
{
    match file {
        FileRead::Content(data) => match Blob::from(data.as_slice()) {
            Some(blob) => Ok(blob),
            None => Err(StoreError::InvalidInput),
        },
        _ => Err(StoreError::InvalidInput),
    }
}

} // verus!
