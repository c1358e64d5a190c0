//! Conversion of on-disk records to and from bytes.

use vstd::prelude::*;

verus! {

/// Why a record could not be read back from bytes.
#[derive(Debug, Clone, Copy, PartialEq, Eq, Structural)]
pub enum SedesError {
    /// The buffer is shorter than the record.
    DeserialBufferTooSmall,
    /// The bytes of a name are not UTF-8.
    InvalidName,
}

/// A record with a fixed byte layout.
pub trait Serialize {
    /// The bytes that stand for `self` on disk.
    spec fn spec_serialize(&self) -> Seq<u8>;

    fn serialize(&self) -> (v: Vec<u8>)
        ensures
            v@ == self.spec_serialize(),
    ;
}

/// A record that can be read back from the front of a buffer.
pub trait Deserialize: Sized {
    /// Why no record can be read from `buf`, if none can.
    spec fn spec_deserialize_err(buf: Seq<u8>) -> Option<SedesError>;

    /// Whether `r` is the record that the front of `buf` stands for.
    spec fn spec_deserialized(buf: Seq<u8>, r: &Self) -> bool;

    fn deserialize(buf: &mut Vec<u8>) -> (r: Result<Self, SedesError>)
        ensures
            r is Ok <==> Self::spec_deserialize_err(old(buf)@) is None,
            r is Ok ==> Self::spec_deserialized(old(buf)@, &r->Ok_0),
            r is Err ==> Self::spec_deserialize_err(old(buf)@) == Some(r->Err_0),
    ;
}

/// The error of a buffer `buf` that must hold at least `min` bytes.
pub open spec fn too_small(buf: Seq<u8>, min: nat) -> Option<SedesError> {
    if buf.len() < min {
        Some(SedesError::DeserialBufferTooSmall)
    } else {
        None
    }
}

} // verus!
