//! The Haar signature record: three luminance averages and, per channel,
//! the signed positions of the forty strongest wavelet coefficients.
use vstd::prelude::*;
use image::DynamicImage;
use crate::haar::{is_signature_of, signature_of_rgb};
use crate::imglib::{NUM_COEFS, NUM_PIXELS, NUM_PIXELS_SQUARED};
use crate::raster::{decodes, image_of, load_from_memory, raster_of, resize_rgb};

verus! {

/// Luminance averages, one per channel, in millionths.
pub type Lumin = [i32; 3];

/// Signed coefficient positions of one channel.
pub type SigT = [i16; 40];

/// Luminance units per unit: averages are stored in millionths.
pub const LUMIN_SCALE: i64 = 1_000_000;

/// `|avglf[1]| + |avglf[2]|` below this many millionths (0.006) marks a
/// grayscale signature.
pub const GRAYSCALE_LIMIT: i64 = 6000;

/// Why an upload gave no signature.
#[derive(Clone, Copy, Debug, PartialEq, Eq)]
pub enum DecodeError {
    /// The bytes are no image file that could be decoded.
    Undecodable,
}

/// Names one of the three channels.
pub enum SigIndex {
    S0,
    S1,
    S2,
}

impl SigIndex {
    pub open spec fn spec_index(self) -> int {
        match self {
            SigIndex::S0 => 0,
            SigIndex::S1 => 1,
            SigIndex::S2 => 2,
        }
    }

    /// The channel with number `value`.
    pub fn from_index(value: usize) -> (r: SigIndex)
        requires
            value < 3,
        ensures
            r.spec_index() == value,
    {
        if value == 0 {
            SigIndex::S0
        } else if value == 1 {
            SigIndex::S1
        } else {
            SigIndex::S2
        }
    }

    /// The number of the channel.
    pub fn as_index(&self) -> (r: usize)
        ensures
            r == self.spec_index(),
    {
        match self {
            SigIndex::S0 => 0,
            SigIndex::S1 => 1,
            SigIndex::S2 => 2,
        }
    }
}

pub open spec fn abs(x: int) -> int {
    if x < 0 { -x } else { x }
}

/// A valid coefficient entry names a position in `1..16384`.
pub open spec fn valid_coef(v: i16) -> bool {
    1 <= abs(v as int) < NUM_PIXELS_SQUARED
}

/// The coefficient entries of the three channels.
#[derive(Clone, Copy, Debug, PartialEq, Eq)]
pub struct SignatureT {
    pub sig: [SigT; 3],
}

impl SignatureT {
    /// All entries, channel after channel.
    pub fn flatten(&self) -> (r: Vec<i16>)
        ensures
            r@ == self.sig@[0]@ + self.sig@[1]@ + self.sig@[2]@,
    {
        let mut r: Vec<i16> = Vec::with_capacity(3 * NUM_COEFS);
        let mut c: usize = 0;
        while c < 3
            invariant
                c <= 3,
                r@ == if c == 0 {
                    Seq::<i16>::empty()
                } else if c == 1 {
                    self.sig@[0]@
                } else if c == 2 {
                    self.sig@[0]@ + self.sig@[1]@
                } else {
                    self.sig@[0]@ + self.sig@[1]@ + self.sig@[2]@
                },
            decreases 3 - c,
        {
            let ghost before = r@;
            let ch = &self.sig[c];
            let mut i: usize = 0;
            while i < NUM_COEFS
                invariant
                    c < 3,
                    ch@ == self.sig@[c as int]@,
                    i <= NUM_COEFS,
                    r@ == before + ch@.take(i as int),
                decreases NUM_COEFS - i,
            {
                r.push(ch[i]);
                assert(ch@.take(i + 1) =~= ch@.take(i as int).push(ch@[i as int]));
                assert(r@ =~= before + ch@.take(i + 1));
                i = i + 1;
            }
            assert(ch@.take(NUM_COEFS as int) =~= ch@);
            c = c + 1;
        }
        r
    }
}

/// The Haar signature of an image.
#[derive(Clone, Copy, Debug, PartialEq, Eq)]
pub struct HaarSignature {
    pub avglf: Lumin,
    pub sig0: SigT,
    pub sig1: SigT,
    pub sig2: SigT,
}

impl HaarSignature {
    /// Coefficient entries of channel `c`.
    pub open spec fn coefs(self, c: int) -> Seq<i16> {
        if c == 0 {
            self.sig0@
        } else if c == 1 {
            self.sig1@
        } else {
            self.sig2@
        }
    }

    /// Luminance average of channel `c`.
    pub open spec fn lumin(self, c: int) -> int {
        self.avglf@[c] as int
    }

    pub open spec fn spec_is_grayscale(self) -> bool {
        abs(self.lumin(1)) + abs(self.lumin(2)) < GRAYSCALE_LIMIT
    }

    pub open spec fn spec_num_colors(self) -> int {
        if self.spec_is_grayscale() { 1 } else { 3 }
    }

    /// Every entry of every channel names a position in `1..16384`.
    pub open spec fn coefs_in_range(self) -> bool {
        forall|c: int, i: int| 0 <= c < 3 && 0 <= i < NUM_COEFS ==> valid_coef(#[trigger] self.coefs(c)[i])
    }

    /// The entries of a channel name distinct positions.
    pub open spec fn positions_distinct(self) -> bool {
        forall|c: int, i: int, j: int|
            0 <= c < 3 && 0 <= i < NUM_COEFS && 0 <= j < NUM_COEFS && i != j
                ==> abs(#[trigger] self.coefs(c)[i] as int) != abs(#[trigger] self.coefs(c)[j] as int)
    }

    /// The shape that signature computation produces.
    pub open spec fn wf(self) -> bool {
        self.coefs_in_range() && self.positions_distinct()
    }

    /// A blank signature: all averages and entries zero.
    pub fn new() -> (r: HaarSignature)
        ensures
            forall|c: int| 0 <= c < 3 ==> r.lumin(c) == 0,
            forall|c: int, i: int| 0 <= c < 3 && 0 <= i < NUM_COEFS ==> r.coefs(c)[i] == 0,
    {
        let r = HaarSignature { avglf: [0; 3], sig0: [0; 40], sig1: [0; 40], sig2: [0; 40] };
        assert(r.avglf@ =~= seq![0i32, 0i32, 0i32]);
        r
    }

    /// True when the chrominance averages are (nearly) zero.
    pub fn is_grayscale(&self) -> (r: bool)
        ensures
            r == self.spec_is_grayscale(),
    {
        let i = self.avglf[1] as i64;
        let q = self.avglf[2] as i64;
        let ai = if i < 0 { -i } else { i };
        let aq = if q < 0 { -q } else { q };
        ai + aq < GRAYSCALE_LIMIT
    }

    /// Channels that take part in scoring: 1 for grayscale, else 3.
    pub fn num_colors(&self) -> (r: usize)
        ensures
            r == self.spec_num_colors(),
    {
        if self.is_grayscale() {
            1
        } else {
            3
        }
    }

    /// Entries of the channel `c`.
    pub fn index(&self, c: SigIndex) -> (r: &SigT)
        ensures
            r@ == self.coefs(c.spec_index()),
    {
        match c {
            SigIndex::S0 => &self.sig0,
            SigIndex::S1 => &self.sig1,
            SigIndex::S2 => &self.sig2,
        }
    }

    /// Entry `i` of channel `c`.
    pub fn coef(&self, c: usize, i: usize) -> (r: i16)
        requires
            c < 3,
            i < NUM_COEFS,
        ensures
            r == self.coefs(c as int)[i as int],
    {
        let ch = self.index(SigIndex::from_index(c));
        ch[i]
    }

    /// The signature of an image, resampled to 128×128 pixels first.
    pub fn from_image(img: &DynamicImage) -> (r: HaarSignature)
        ensures
            r.wf(),
            is_signature_of(raster_of(*img, 128, 128), r),
    {
        let side = NUM_PIXELS as u32;
        let rgb = resize_rgb(img, side, side);
        signature_of_rgb(&rgb)
    }

    /// The signature of an image file held in memory; `Err` when the bytes
    /// do not decode.
    pub fn from_bytes(bytes: &[u8]) -> (r: Result<HaarSignature, DecodeError>)
        ensures
            r is Ok <==> decodes(bytes@),
            r matches Ok(s) ==> s.wf() && is_signature_of(raster_of(image_of(bytes@), 128, 128), s),
            r matches Err(e) ==> e == DecodeError::Undecodable,
    {
        match load_from_memory(bytes) {
            Ok(img) => Ok(HaarSignature::from_image(&img)),
            Err(_) => Err(DecodeError::Undecodable),
        }
    }

    /// Whether the index takes this signature: its first average is no
    /// tombstone and every entry names a position.
    pub fn is_indexable(&self) -> (r: bool)
        ensures
            r == (self.lumin(0) != 0 && self.coefs_in_range()),
    {
        self.avglf[0] != 0 && self.can_index()
    }

    /// True when every entry names a position in `1..16384`, so that the
    /// signature can be placed in the index.
    pub fn can_index(&self) -> (r: bool)
        ensures
            r == self.coefs_in_range(),
    {
        let mut c: usize = 0;
        while c < 3
            invariant
                c <= 3,
                forall|c2: int, i: int| 0 <= c2 < c && 0 <= i < NUM_COEFS ==> valid_coef(#[trigger] self.coefs(c2)[i]),
            decreases 3 - c,
        {
            let mut i: usize = 0;
            while i < NUM_COEFS
                invariant
                    c < 3,
                    i <= NUM_COEFS,
                    forall|c2: int, i2: int| 0 <= c2 < c && 0 <= i2 < NUM_COEFS ==> valid_coef(#[trigger] self.coefs(c2)[i2]),
                    forall|i2: int| 0 <= i2 < i ==> valid_coef(#[trigger] self.coefs(c as int)[i2]),
                decreases NUM_COEFS - i,
            {
                let v = self.coef(c, i);
                if v == i16::MIN || v == 0 || v >= 16384 || v <= -16384 {
                    return false;
                }
                i = i + 1;
            }
            c = c + 1;
        }
        true
    }
}

} // verus!
