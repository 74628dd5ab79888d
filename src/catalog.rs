//! Rows of the durable catalog, as the library sees them once read.
use vstd::prelude::*;
use crate::codec::{decode_coefs, entries_of, BlobError, BLOB_LEN};
use crate::signature::{HaarSignature, Lumin};

verus! {

/// A catalog row: the internal id and the stored signature.
#[derive(Clone, Copy, Debug, PartialEq, Eq)]
pub struct SqlRow {
    pub id: u32,
    pub s: HaarSignature,
}

impl SqlRow {
    /// Builds a row from its columns: the id, the luminance averages and
    /// the blob of each channel.
    pub fn from_columns(id: u32, avglf: Lumin, sig0: &[u8], sig1: &[u8], sig2: &[u8]) -> (r: Result<
        SqlRow,
        BlobError,
    >)
        ensures
            r is Ok <==> (sig0@.len() == BLOB_LEN && sig1@.len() == BLOB_LEN && sig2@.len() == BLOB_LEN),
            r matches Ok(row) ==> row.id == id && row.s.avglf == avglf && row.s.sig0@ == entries_of(sig0@)
                && row.s.sig1@ == entries_of(sig1@) && row.s.sig2@ == entries_of(sig2@),
            r matches Err(e) ==> e == (BlobError::WrongLength {
                len: (if sig0@.len() != BLOB_LEN {
                    sig0@.len()
                } else if sig1@.len() != BLOB_LEN {
                    sig1@.len()
                } else {
                    sig2@.len()
                }) as usize,
            }),
    {
        let s0 = match decode_coefs(sig0) {
            Ok(s) => s,
            Err(e) => return Err(e),
        };
        let s1 = match decode_coefs(sig1) {
            Ok(s) => s,
            Err(e) => return Err(e),
        };
        let s2 = match decode_coefs(sig2) {
            Ok(s) => s,
            Err(e) => return Err(e),
        };
        Ok(SqlRow { id, s: HaarSignature { avglf, sig0: s0, sig1: s1, sig2: s2 } })
    }
}

} // verus!
