//! The ways in which loading or saving a snapshot can fail.

use vstd::prelude::*;

verus! {

/// Why a snapshot could not be loaded or saved.
#[derive(Clone, Copy, Debug, PartialEq, Eq, Structural)]
pub enum StoreError {
    /// There is no snapshot at the configured place.
    NotFound,
    /// The bytes of the snapshot are not the encoding of any records.
    CorruptSnapshot,
    /// Reading or writing the snapshot failed.
    IoError,
}

impl StoreError {
    /// A short description of the error, for messages and logs.
    pub fn describe(&self) -> (text: String)
        ensures
            text@ == match *self {
                StoreError::NotFound => "snapshot not found"@,
                StoreError::CorruptSnapshot => "snapshot is corrupt"@,
                StoreError::IoError => "snapshot could not be read or written"@,
            },
    {
        match self {
            StoreError::NotFound => "snapshot not found".to_owned(),
            StoreError::CorruptSnapshot => "snapshot is corrupt".to_owned(),
            StoreError::IoError => "snapshot could not be read or written".to_owned(),
        }
    }
}

} // verus!
