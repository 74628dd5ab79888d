//! Byte form of a channel's coefficient entries, as the catalog stores it:
//! each entry as its 16-bit two's-complement pattern, low byte first.
use vstd::prelude::*;
use crate::imglib::NUM_COEFS;
use crate::signature::SigT;

verus! {

/// Bytes in the blob of one channel.
pub const BLOB_LEN: usize = 80;

/// Why a blob could not be read.
#[derive(Clone, Copy, Debug, PartialEq, Eq)]
pub enum BlobError {
    /// The blob does not hold exactly `BLOB_LEN` bytes.
    WrongLength { len: usize },
}

/// The 16-bit pattern of `v`.
pub open spec fn pattern(v: i16) -> int {
    if v < 0 { v + 0x10000 } else { v as int }
}

/// The value whose 16-bit pattern has low byte `lo` and high byte `hi`.
pub open spec fn value_of(lo: u8, hi: u8) -> int {
    let u = lo + 256 * hi;
    if u >= 0x8000 { u - 0x10000 } else { u }
}

/// The blob of the entries `s`: two bytes per entry, low byte first.
pub open spec fn blob_of(s: Seq<i16>) -> Seq<u8> {
    Seq::new(
        2 * s.len(),
        |k: int| if k % 2 == 0 { (pattern(s[k / 2]) % 256) as u8 } else { (pattern(s[k / 2]) / 256) as u8 },
    )
}

/// The entries that a blob of even length holds.
pub open spec fn entries_of(b: Seq<u8>) -> Seq<i16> {
    Seq::new(b.len() / 2, |i: int| value_of(b[2 * i], b[2 * i + 1]) as i16)
}

proof fn lemma_half(i: int)
    requires
        0 <= i,
    ensures
        (2 * i) / 2 == i,
        (2 * i) % 2 == 0,
        (2 * i + 1) / 2 == i,
        (2 * i + 1) % 2 == 1,
{
}

/// Encodes the entries of one channel.
pub fn encode_coefs(sig: &SigT) -> (r: Vec<u8>)
    ensures
        r@ == blob_of(sig@),
        r@.len() == BLOB_LEN,
{
    let mut r: Vec<u8> = Vec::with_capacity(BLOB_LEN);
    let mut i: usize = 0;
    while i < NUM_COEFS
        invariant
            i <= NUM_COEFS,
            sig@.len() == NUM_COEFS,
            r@.len() == 2 * i,
            forall|k: int| 0 <= k < 2 * i ==> #[trigger] r@[k] == blob_of(sig@)[k],
        decreases NUM_COEFS - i,
    {
        let v = sig[i];
        let u: u32 = if v < 0 { (v as i32 + 0x10000) as u32 } else { v as u32 };
        proof {
            lemma_half(i as int);
        }
        r.push((u % 256) as u8);
        r.push((u / 256) as u8);
        i = i + 1;
    }
    assert(r@ =~= blob_of(sig@));
    r
}

/// Decodes the entries of one channel; the blob must hold `BLOB_LEN`
/// bytes.
pub fn decode_coefs(blob: &[u8]) -> (r: Result<SigT, BlobError>)
    ensures
        blob@.len() == BLOB_LEN <==> r is Ok,
        r matches Ok(s) ==> s@ == entries_of(blob@),
        r matches Err(e) ==> e == (BlobError::WrongLength { len: blob@.len() as usize }),
{
    if blob.len() != BLOB_LEN {
        return Err(BlobError::WrongLength { len: blob.len() });
    }
    let mut s: SigT = [0; 40];
    let mut i: usize = 0;
    while i < NUM_COEFS
        invariant
            i <= NUM_COEFS,
            blob@.len() == BLOB_LEN,
            s@.len() == NUM_COEFS,
            forall|k: int| 0 <= k < i ==> #[trigger] s@[k] == entries_of(blob@)[k],
        decreases NUM_COEFS - i,
    {
        let lo = blob[2 * i];
        let hi = blob[2 * i + 1];
        let u: i32 = lo as i32 + 256 * hi as i32;
        let v: i16 = if u >= 0x8000 { (u - 0x10000) as i16 } else { u as i16 };
        s[i] = v;
        i = i + 1;
    }
    assert(s@ =~= entries_of(blob@));
    Ok(s)
}

/// Reading back the blob of some entries gives those entries.
pub proof fn lemma_decode_encode(s: Seq<i16>)
    ensures
        entries_of(blob_of(s)) == s,
{
    assert forall|i: int| 0 <= i < s.len() implies #[trigger] entries_of(blob_of(s))[i] == s[i] by {
        lemma_half(i);
    }
    assert(entries_of(blob_of(s)) =~= s);
}

/// Every blob of even length is the blob of the entries it holds.
pub proof fn lemma_encode_decode(b: Seq<u8>)
    requires
        b.len() % 2 == 0,
    ensures
        blob_of(entries_of(b)) == b,
{
    assert forall|k: int| 0 <= k < b.len() implies #[trigger] blob_of(entries_of(b))[k] == b[k] by {
        let i = k / 2;
        if k % 2 == 0 {
            assert(k == 2 * i);
        } else {
            assert(k == 2 * i + 1);
        }
    }
    assert(blob_of(entries_of(b)) =~= b);
}

} // verus!
