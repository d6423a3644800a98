//! The key and value plug-in surface: user types that encode to byte
//! strings. The engine itself works on the encoded bytes.
use vstd::prelude::*;

use crate::error::EikvResult;

verus! {

/// A key type: encodes to the bytes the store orders and persists.
pub trait Key: Sized {
    fn encode(self) -> EikvResult<Vec<u8>>;

    fn decode(bytes: Vec<u8>) -> EikvResult<Self>;
}

/// A value type: encodes to the bytes the store persists.
pub trait Value: Sized {
    fn encode(self) -> EikvResult<Vec<u8>>;

    fn decode(bytes: Vec<u8>) -> EikvResult<Self>;
}

/// Byte keys and values pass through unchanged.
pub fn identity_bytes(bytes: Vec<u8>) -> (r: EikvResult<Vec<u8>>)
    ensures
        r == Ok::<Vec<u8>, crate::error::EikvError>(bytes),
{
    Ok(bytes)
}

impl Key for Vec<u8> {
    fn encode(self) -> EikvResult<Vec<u8>> {
        identity_bytes(self)
    }

    fn decode(bytes: Vec<u8>) -> EikvResult<Vec<u8>> {
        identity_bytes(bytes)
    }
}

impl Value for Vec<u8> {
    fn encode(self) -> EikvResult<Vec<u8>> {
        identity_bytes(self)
    }

    fn decode(bytes: Vec<u8>) -> EikvResult<Vec<u8>> {
        identity_bytes(bytes)
    }
}

} // verus!
