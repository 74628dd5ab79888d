//! The inverted index: a bucket per (channel, sign, position) listing the
//! internal ids of the images whose signature holds that entry, and a
//! dense table of per-image information.
use vstd::prelude::*;
use crate::imglib::{bin_of, initialize_imgbin, NUM_COEFS, NUM_PIXELS_SQUARED};
use crate::signature::{abs, valid_coef, HaarSignature, Lumin};
use crate::topk::{lemma_step_insert, lemma_step_skip, ranks_prefix, transitive};

verus! {

/// An external image id.
pub type ImageId = u32;

/// An internal id: the slot of an image in the info table.
pub type IqdbId = u32;

/// An external (booru) post id.
pub type PostId = u32;

/// A similarity score in units of 10^-8; lower is more similar.
pub type Score = i64;

pub type Bucket = Vec<u32>;

/// Buckets in all: 3 channels × 2 signs × 16384 positions.
pub const N_BUCKETS: usize = 98304;

/// Slots added beyond an id that does not fit the info table.
pub const GROW_BY: usize = 5000;

/// Factor from a weight in hundredths to a score unit.
pub const WEIGHT_SCALE: i64 = 1_000_000;

/// Weight of row `row` (0..=5) for channel `c` (Y, I, Q), in hundredths.
/// Row 0 weighs the luminance averages, rows 1 to 5 matching coefficients.
pub open spec fn weight(row: int, c: int) -> int {
    if row == 0 {
        if c == 0 { 500 } else if c == 1 { 1921 } else { 3437 }
    } else if row == 1 {
        if c == 0 { 83 } else if c == 1 { 126 } else { 36 }
    } else if row == 2 {
        if c == 0 { 101 } else if c == 1 { 44 } else { 45 }
    } else if row == 3 {
        if c == 0 { 52 } else if c == 1 { 53 } else { 14 }
    } else if row == 4 {
        if c == 0 { 47 } else if c == 1 { 28 } else { 18 }
    } else {
        if c == 0 { 30 } else if c == 1 { 14 } else { 27 }
    }
}

/// The weight table, in hundredths.
pub fn weight_of(row: usize, c: usize) -> (r: i64)
    requires
        row <= 5,
        c < 3,
    ensures
        r == weight(row as int, c as int),
{
    let w: [i64; 3] = if row == 0 {
        [500, 1921, 3437]
    } else if row == 1 {
        [83, 126, 36]
    } else if row == 2 {
        [101, 44, 45]
    } else if row == 3 {
        [52, 53, 14]
    } else if row == 4 {
        [47, 28, 18]
    } else {
        [30, 14, 27]
    };
    w[c]
}

/// Per-image record: the post id and the luminance averages. A slot whose
/// first average is zero is a tombstone.
#[derive(Clone, Copy, Debug, PartialEq, Eq)]
pub struct ImageInfo {
    pub id: ImageId,
    pub avgl: Lumin,
}

/// The abstract state of an index.
pub struct BinModel {
    pub info: Seq<ImageInfo>,
    pub buckets: Seq<Seq<u32>>,
}

pub open spec fn sign_of(v: i16) -> int {
    if v < 0 { 1 } else { 0 }
}

/// Bucket of entry `v` of channel `c`.
pub open spec fn bucket_of(c: int, v: i16) -> int {
    (c * 2 + sign_of(v)) * NUM_PIXELS_SQUARED + abs(v as int)
}

/// The buckets that a signature touches, channel by channel, entry by
/// entry; only the channels that take part in scoring count.
pub open spec fn touched(s: HaarSignature) -> Seq<int> {
    Seq::new(
        (s.spec_num_colors() * NUM_COEFS) as nat,
        |k: int| bucket_of(k / 40, s.coefs(k / 40)[k % 40]),
    )
}

/// Occurrences of `x` in `s`.
pub open spec fn occ<A>(s: Seq<A>, x: A) -> nat
    decreases s.len(),
{
    if s.len() == 0 {
        0
    } else {
        occ(s.drop_last(), x) + if s.last() == x { 1nat } else { 0nat }
    }
}

/// `id` appended to each touched bucket, once per touching entry.
pub open spec fn added(bk: Seq<Seq<u32>>, id: u32, ts: Seq<int>) -> Seq<Seq<u32>> {
    Seq::new(bk.len(), |b: int| bk[b] + Seq::new(occ(ts, b), |k: int| id))
}

/// Keeps the ids other than `id`.
pub open spec fn not_id(id: u32) -> spec_fn(u32) -> bool {
    |x: u32| x != id
}

/// Every `id` dropped from each touched bucket.
pub open spec fn purged(bk: Seq<Seq<u32>>, id: u32, ts: Seq<int>) -> Seq<Seq<u32>> {
    Seq::new(bk.len(), |b: int| if ts.contains(b) { bk[b].filter(not_id(id)) } else { bk[b] })
}

/// Occurrences of slot `i` in bucket `s`.
pub open spec fn count_id(s: Seq<u32>, i: int) -> nat
    decreases s.len(),
{
    if s.len() == 0 {
        0
    } else {
        count_id(s.drop_last(), i) + if s.last() as int == i { 1nat } else { 0nat }
    }
}

/// Luminance part of the score of record `e` against the query `q`: the
/// weighted distance of the averages over the channels that `q` scores.
pub open spec fn lum_score(e: ImageInfo, q: HaarSignature) -> int {
    let d0 = weight(0, 0) * abs(e.avgl@[0] - q.lumin(0));
    let d1 = weight(0, 1) * abs(e.avgl@[1] - q.lumin(1));
    let d2 = weight(0, 2) * abs(e.avgl@[2] - q.lumin(2));
    if q.spec_num_colors() == 1 {
        d0
    } else {
        d0 + d1 + d2
    }
}

/// Score units that entry `k` of `touched(q)` takes off each image in
/// its bucket: the weight of the entry's position row and channel.
pub open spec fn coef_weight(q: HaarSignature, k: int) -> int {
    WEIGHT_SCALE * weight(bin_of(abs(q.coefs(k / 40)[k % 40] as int)), k / 40)
}

/// What the first `n` entries of `q` take off the score of slot `i`.
pub open spec fn discount(bk: Seq<Seq<u32>>, q: HaarSignature, i: int, n: int) -> int
    decreases n,
{
    if n <= 0 {
        0
    } else {
        discount(bk, q, i, n - 1) + coef_weight(q, n - 1) * count_id(bk[touched(q)[n - 1]], i)
    }
}

/// The score of slot `i` against `q` before the lower bound of `Score`.
pub open spec fn exact_score(m: BinModel, q: HaarSignature, i: int) -> int {
    lum_score(m.info[i], q) - discount(m.buckets, q, i, touched(q).len() as int)
}

/// `x` held to the range of `Score` from below.
pub open spec fn clamp(x: int) -> int {
    if x < i64::MIN { i64::MIN as int } else { x }
}

/// The score of slot `i` against `q`; lower is more similar.
pub open spec fn score(m: BinModel, q: HaarSignature, i: int) -> int {
    clamp(exact_score(m, q, i))
}

/// Order of results: by score, then post id, then slot.
pub open spec fn before(m: BinModel, q: HaarSignature, i: int, j: int) -> bool {
    let si = score(m, q, i);
    let sj = score(m, q, j);
    si < sj || (si == sj && (m.info[i].id < m.info[j].id || (m.info[i].id == m.info[j].id && i < j)))
}

/// `slots` are the best `k` live slots against `q` (all of them if there
/// are fewer), best first.
pub open spec fn is_ranking(m: BinModel, q: HaarSignature, k: int, slots: Seq<usize>) -> bool {
    &&& slots.len() <= k
    &&& forall|t: int| 0 <= t < slots.len() ==> m.live(#[trigger] slots[t] as int)
    &&& forall|t: int, u: int| 0 <= t < u < slots.len() ==> before(m, q, #[trigger] slots[t] as int, #[trigger] slots[u] as int)
    &&& forall|i: int|
        #![trigger m.live(i)]
        m.live(i) && !slots.contains(i as usize) ==> slots.len() == k && forall|t: int|
            0 <= t < slots.len() ==> before(m, q, #[trigger] slots[t] as int, i)
}

/// `r` answers the query `q` for the best `k` images: the post ids and
/// scores of the ranked slots, best first.
pub open spec fn answers(m: BinModel, q: HaarSignature, k: int, r: Seq<SimValue>) -> bool {
    exists|slots: Seq<usize>|
        {
            &&& is_ranking(m, q, k, slots)
            &&& r.len() == slots.len()
            &&& forall|t: int|
                0 <= t < slots.len() ==> (#[trigger] r[t]).id == m.info[slots[t] as int].id && r[t].score
                    == score(m, q, slots[t] as int)
        }
}

/// The record of an empty slot.
pub open spec fn blank() -> ImageInfo {
    ImageInfo { id: 0, avgl: [0i32, 0i32, 0i32] }
}

/// The info table `info` with record `e` at slot `id`, grown first with
/// empty slots to `GROW_BY` past `id` where `id` does not fit.
pub open spec fn info_added(info: Seq<ImageInfo>, id: int, e: ImageInfo) -> Seq<ImageInfo> {
    Seq::new(
        grown_len(info.len() as int, id) as nat,
        |i: int|
            if i == id {
                e
            } else if i < info.len() {
                info[i]
            } else {
                blank()
            },
    )
}

/// A signature that can be indexed: its luminance is no tombstone and its
/// entries name positions.
pub open spec fn indexable(s: HaarSignature) -> bool {
    s.lumin(0) != 0 && s.coefs_in_range()
}

/// Length of the info table once slot `id` must fit.
pub open spec fn grown_len(len: int, id: int) -> int {
    if id < len { len } else { id + GROW_BY }
}

impl BinModel {
    /// Buckets are all there and name slots of the info table.
    pub open spec fn wf(self) -> bool {
        &&& self.buckets.len() == N_BUCKETS
        &&& forall|b: int, t: int|
            0 <= b < N_BUCKETS && 0 <= t < self.buckets[b].len() ==> #[trigger] self.buckets[b][t]
                < self.info.len()
    }

    pub open spec fn live(self, i: int) -> bool {
        0 <= i < self.info.len() && self.info[i].avgl@[0] != 0
    }

    /// Slot `id` exists or the table can grow to hold it.
    pub open spec fn fits(self, id: int) -> bool {
        id < self.info.len() || id + GROW_BY <= usize::MAX
    }

    /// `next` is this index with record `e` at slot `id` and the entries
    /// of `s` in their buckets; new slots beyond the old table are empty.
    pub open spec fn adds(self, id: u32, e: ImageInfo, s: HaarSignature, next: BinModel) -> bool {
        &&& next.info == info_added(self.info, id as int, e)
        &&& next.buckets == added(self.buckets, id, touched(s))
    }

    /// `next` is this index with `id` dropped from the buckets that `s`
    /// touches and slot `id` made a tombstone.
    pub open spec fn removes(self, id: u32, s: HaarSignature, next: BinModel) -> bool {
        &&& next.info.len() == self.info.len()
        &&& next.info[id as int].id == self.info[id as int].id
        &&& next.info[id as int].avgl@ == self.info[id as int].avgl@.update(0, 0)
        &&& forall|i: int|
            0 <= i < self.info.len() && i != id ==> #[trigger] next.info[i] == self.info[i]
        &&& next.buckets == purged(self.buckets, id, touched(s))
    }
}

/// The inverted index.
pub struct ImgBin {
    bin: Vec<usize>,
    buckets: Vec<Bucket>,
    info: Vec<ImageInfo>,
}

pub open spec fn bucket_view(v: Seq<Vec<u32>>) -> Seq<Seq<u32>> {
    Seq::new(v.len(), |b: int| v[b]@)
}

impl ImgBin {
    /// The weight mask is in place and there is a bucket for every cell.
    pub closed spec fn inv(&self) -> bool {
        &&& self.bin@.len() == NUM_PIXELS_SQUARED
        &&& forall|p: int| 0 <= p < NUM_PIXELS_SQUARED ==> #[trigger] self.bin@[p] == bin_of(p)
        &&& self.buckets@.len() == N_BUCKETS
    }

    pub open spec fn wf(&self) -> bool {
        self.inv() && self@.wf()
    }
}

impl View for ImgBin {
    type V = BinModel;

    closed spec fn view(&self) -> BinModel {
        BinModel { info: self.info@, buckets: bucket_view(self.buckets@) }
    }
}

proof fn lemma_div_mod_40(c: int, i: int)
    requires
        0 <= c,
        0 <= i < 40,
    ensures
        (c * 40 + i) / 40 == c,
        (c * 40 + i) % 40 == i,
{
    assert((c * 40 + i) / 40 == c && (c * 40 + i) % 40 == i) by (nonlinear_arith)
        requires
            0 <= c,
            0 <= i < 40,
    ;
}

/// Bucket of entry `coef` of channel `color`.
fn at(color: usize, coef: i16) -> (r: usize)
    requires
        color < 3,
        valid_coef(coef),
    ensures
        r == bucket_of(color as int, coef),
        r < N_BUCKETS,
{
    let sign: usize = if coef < 0 { 1 } else { 0 };
    let pos: usize = if coef < 0 { (-coef) as usize } else { coef as usize };
    (color * 2 + sign) * NUM_PIXELS_SQUARED + pos
}

/// The buckets that `sig` touches, in the order of `touched`.
pub fn each_bucket(sig: &HaarSignature) -> (r: Vec<usize>)
    requires
        sig.coefs_in_range(),
    ensures
        r@.len() == touched(*sig).len(),
        forall|k: int| 0 <= k < r@.len() ==> #[trigger] r@[k] == touched(*sig)[k],
        forall|k: int| 0 <= k < r@.len() ==> #[trigger] r@[k] < N_BUCKETS,
{
    let nc = sig.num_colors();
    let mut r: Vec<usize> = Vec::with_capacity(nc * NUM_COEFS);
    let mut c: usize = 0;
    while c < nc
        invariant
            nc == sig.spec_num_colors(),
            sig.coefs_in_range(),
            c <= nc,
            r@.len() == c * 40,
            forall|k: int| 0 <= k < r@.len() ==> #[trigger] r@[k] == touched(*sig)[k],
            forall|k: int| 0 <= k < r@.len() ==> #[trigger] r@[k] < N_BUCKETS,
        decreases nc - c,
    {
        let mut i: usize = 0;
        while i < NUM_COEFS
            invariant
                nc == sig.spec_num_colors(),
                sig.coefs_in_range(),
                c < nc,
                i <= NUM_COEFS,
                r@.len() == c * 40 + i,
                forall|k: int| 0 <= k < r@.len() ==> #[trigger] r@[k] == touched(*sig)[k],
                forall|k: int| 0 <= k < r@.len() ==> #[trigger] r@[k] < N_BUCKETS,
            decreases NUM_COEFS - i,
        {
            let v = sig.coef(c, i);
            assert(valid_coef(sig.coefs(c as int)[i as int]));
            let b = at(c, v);
            proof {
                lemma_div_mod_40(c as int, i as int);
            }
            r.push(b);
            i = i + 1;
        }
        c = c + 1;
    }
    r
}

proof fn lemma_occ_take(ts: Seq<int>, k: int, b: int)
    requires
        0 <= k < ts.len(),
    ensures
        occ(ts.take(k + 1), b) == occ(ts.take(k), b) + if ts[k] == b { 1nat } else { 0nat },
{
    assert(ts.take(k + 1).drop_last() =~= ts.take(k));
}

proof fn lemma_filter_take(s: Seq<u32>, k: int, id: u32)
    requires
        0 <= k < s.len(),
    ensures
        s.take(k + 1).filter(not_id(id)) == if s[k] != id {
            s.take(k).filter(not_id(id)).push(s[k])
        } else {
            s.take(k).filter(not_id(id))
        },
{
    reveal(Seq::filter);
    assert(s.take(k + 1).drop_last() =~= s.take(k));
}

proof fn lemma_filter_twice(s: Seq<u32>, id: u32)
    ensures
        s.filter(not_id(id)).filter(not_id(id)) == s.filter(not_id(id)),
    decreases s.len(),
{
    reveal(Seq::filter);
    if s.len() > 0 {
        lemma_filter_twice(s.drop_last(), id);
        let f = s.drop_last().filter(not_id(id));
        if s.last() != id {
            assert(f.push(s.last()).drop_last() =~= f);
        }
    }
}

/// The ids of `bucket` other than `id`, in order.
fn retain_other(bucket: &Vec<u32>, id: u32) -> (r: Vec<u32>)
    ensures
        r@ == bucket@.filter(not_id(id)),
        forall|t: int| 0 <= t < r@.len() ==> bucket@.contains(#[trigger] r@[t]),
{
    let mut r: Vec<u32> = Vec::new();
    let mut i: usize = 0;
    while i < bucket.len()
        invariant
            i <= bucket@.len(),
            r@ == bucket@.take(i as int).filter(not_id(id)),
            forall|t: int| 0 <= t < r@.len() ==> bucket@.contains(#[trigger] r@[t]),
        decreases bucket@.len() - i,
    {
        proof {
            lemma_filter_take(bucket@, i as int, id);
        }
        let x = bucket[i];
        if x != id {
            r.push(x);
        }
        i = i + 1;
    }
    assert(bucket@.take(bucket@.len() as int) =~= bucket@);
    r
}

impl ImgBin {
    /// An empty index.
    pub fn new() -> (r: ImgBin)
        ensures
            r.wf(),
            r@.info.len() == 0,
            forall|b: int| 0 <= b < N_BUCKETS ==> (#[trigger] r@.buckets[b]).len() == 0,
    {
        let bin = initialize_imgbin();
        let mut buckets: Vec<Bucket> = Vec::with_capacity(N_BUCKETS);
        let mut b: usize = 0;
        while b < N_BUCKETS
            invariant
                b <= N_BUCKETS,
                buckets@.len() == b,
                forall|b2: int| 0 <= b2 < b ==> (#[trigger] buckets@[b2])@.len() == 0,
            decreases N_BUCKETS - b,
        {
            buckets.push(Vec::new());
            b = b + 1;
        }
        ImgBin { bin, buckets, info: Vec::new() }
    }

    /// Slots in the info table, tombstones included.
    pub fn len(&self) -> (r: usize)
        ensures
            r == self@.info.len(),
    {
        self.info.len()
    }

    /// Ids held in bucket `b`, as many times as they occur.
    pub fn bucket_len(&self, b: usize) -> (r: usize)
        requires
            self.wf(),
            b < N_BUCKETS,
        ensures
            r == self@.buckets[b as int].len(),
    {
        self.buckets[b].len()
    }

    /// Whether slot `iqdb_id` is a tombstone (or was never filled).
    pub fn is_deleted(&self, iqdb_id: IqdbId) -> (r: bool)
        requires
            iqdb_id < self@.info.len(),
        ensures
            r == !self@.live(iqdb_id as int),
    {
        self.info[iqdb_id as usize].avgl[0] == 0
    }

    /// Appends `iqdb_id` to every bucket that `sig` touches.
    pub fn add(&mut self, sig: &HaarSignature, iqdb_id: IqdbId)
        requires
            old(self).wf(),
            sig.coefs_in_range(),
            iqdb_id < old(self)@.info.len(),
        ensures
            final(self).wf(),
            final(self)@.info == old(self)@.info,
            final(self)@.buckets == added(old(self)@.buckets, iqdb_id, touched(*sig)),
    {
        let ts = each_bucket(sig);
        let ghost bk = old(self)@.buckets;
        let mut k: usize = 0;
        while k < ts.len()
            invariant
                self.inv(),
                self@.info == old(self)@.info,
                iqdb_id < self@.info.len(),
                bk == old(self)@.buckets,
                bk.len() == N_BUCKETS,
                ts@.len() == touched(*sig).len(),
                forall|j: int| 0 <= j < ts@.len() ==> #[trigger] ts@[j] == touched(*sig)[j],
                forall|j: int| 0 <= j < ts@.len() ==> #[trigger] ts@[j] < N_BUCKETS,
                k <= ts@.len(),
                forall|b: int|
                    0 <= b < N_BUCKETS ==> #[trigger] self.buckets@[b]@ == bk[b] + Seq::new(
                        occ(touched(*sig).take(k as int), b),
                        |j: int| iqdb_id,
                    ),
                self@.wf(),
            decreases ts@.len() - k,
        {
            let b = ts[k];
            proof {
                assert forall|b2: int| 0 <= b2 < N_BUCKETS implies occ(touched(*sig).take(k + 1), b2)
                    == occ(touched(*sig).take(k as int), b2) + if b2 == b { 1nat } else { 0nat } by {
                    lemma_occ_take(touched(*sig), k as int, b2);
                }
            }
            let ghost pre = self.buckets@;
            let ghost pre_m = self@;
            self.buckets[b].push(iqdb_id);
            proof {
                let n = occ(touched(*sig).take(k as int), b as int);
                assert(self.buckets@[b as int]@ =~= bk[b as int] + Seq::new(n + 1, |j: int| iqdb_id));
                assert forall|b2: int, t: int|
                    0 <= b2 < N_BUCKETS && 0 <= t < self@.buckets[b2].len() implies #[trigger] self@.buckets[b2][t]
                        < self@.info.len() by {
                    if b2 != b {
                        assert(self.buckets@[b2] == pre[b2]);
                        assert(pre_m.buckets[b2][t] < pre_m.info.len());
                    } else if t < pre[b2]@.len() {
                        assert(self.buckets@[b2]@[t] == pre[b2]@[t]);
                        assert(pre_m.buckets[b2][t] < pre_m.info.len());
                    }
                }
            }
            k = k + 1;
        }
        proof {
            assert(touched(*sig).take(ts@.len() as int) =~= touched(*sig));
            assert(self@.buckets =~= added(bk, iqdb_id, touched(*sig)));
        }
    }
}

impl ImgBin {
    /// Drops every `iqdb_id` from the buckets that `sig` touches.
    pub fn remove(&mut self, sig: &HaarSignature, iqdb_id: IqdbId)
        requires
            old(self).wf(),
            sig.coefs_in_range(),
        ensures
            final(self).wf(),
            final(self)@.info == old(self)@.info,
            final(self)@.buckets == purged(old(self)@.buckets, iqdb_id, touched(*sig)),
    {
        let ts = each_bucket(sig);
        let ghost bk = old(self)@.buckets;
        let ghost tch = touched(*sig);
        let mut k: usize = 0;
        while k < ts.len()
            invariant
                self.inv(),
                self@.info == old(self)@.info,
                bk == old(self)@.buckets,
                bk.len() == N_BUCKETS,
                tch == touched(*sig),
                ts@.len() == tch.len(),
                forall|j: int| 0 <= j < ts@.len() ==> #[trigger] ts@[j] == tch[j],
                forall|j: int| 0 <= j < ts@.len() ==> #[trigger] ts@[j] < N_BUCKETS,
                k <= ts@.len(),
                forall|b: int|
                    0 <= b < N_BUCKETS ==> #[trigger] self.buckets@[b]@ == if tch.take(k as int).contains(b) {
                        bk[b].filter(not_id(iqdb_id))
                    } else {
                        bk[b]
                    },
                self@.wf(),
            decreases ts@.len() - k,
        {
            let b = ts[k];
            let ghost pre = self.buckets@;
            let ghost pre_m = self@;
            let kept = retain_other(&self.buckets[b], iqdb_id);
            self.buckets[b] = kept;
            proof {
                assert(tch.take(k + 1) =~= tch.take(k as int).push(b as int));
                if tch.take(k as int).contains(b as int) {
                    lemma_filter_twice(bk[b as int], iqdb_id);
                }
                assert forall|b2: int|
                    0 <= b2 < N_BUCKETS implies #[trigger] self.buckets@[b2]@ == if tch.take(k + 1).contains(b2) {
                        bk[b2].filter(not_id(iqdb_id))
                    } else {
                        bk[b2]
                    } by {
                    if b2 != b {
                        assert(self.buckets@[b2] == pre[b2]);
                        assert(tch.take(k + 1).contains(b2) == tch.take(k as int).contains(b2));
                    } else {
                        assert(tch.take(k + 1)[k as int] == b2);
                        assert(tch.take(k + 1).contains(b2));
                    }
                }
                assert forall|b2: int, t: int|
                    0 <= b2 < N_BUCKETS && 0 <= t < self@.buckets[b2].len() implies #[trigger] self@.buckets[b2][t]
                        < self@.info.len() by {
                    if b2 != b {
                        assert(self.buckets@[b2] == pre[b2]);
                        assert(pre_m.buckets[b2][t] < pre_m.info.len());
                    } else {
                        let x = self@.buckets[b2][t];
                        assert(pre[b2]@.contains(x));
                        let u = choose|u: int| 0 <= u < pre[b2]@.len() && pre[b2]@[u] == x;
                        assert(pre_m.buckets[b2][u] < pre_m.info.len());
                    }
                }
            }
            k = k + 1;
        }
        proof {
            assert(tch.take(ts@.len() as int) =~= tch);
            assert(self@.buckets =~= purged(bk, iqdb_id, tch));
        }
    }

    /// Takes image `iqdb_id`, whose signature is `sig`, out of the index:
    /// its buckets lose it and its slot becomes a tombstone.
    pub fn remove_image(&mut self, sig: &HaarSignature, iqdb_id: IqdbId)
        requires
            old(self).wf(),
            sig.coefs_in_range(),
            iqdb_id < old(self)@.info.len(),
        ensures
            final(self).wf(),
            old(self)@.removes(iqdb_id, *sig, final(self)@),
    {
        self.remove(sig, iqdb_id);
        let old_info = self.info[iqdb_id as usize];
        let e = ImageInfo { id: old_info.id, avgl: [0, old_info.avgl[1], old_info.avgl[2]] };
        let ghost pre_m = self@;
        self.info[iqdb_id as usize] = e;
        proof {
            assert(e.avgl@ =~= old_info.avgl@.update(0, 0));
            assert forall|b2: int, t: int|
                0 <= b2 < N_BUCKETS && 0 <= t < self@.buckets[b2].len() implies #[trigger] self@.buckets[b2][t]
                    < self@.info.len() by {
                assert(pre_m.buckets[b2][t] < pre_m.info.len());
            }
        }
    }

    /// Puts image `iqdb_id` with post id `post_id` and signature `haar`
    /// into the index, growing the info table by `GROW_BY` slots past the
    /// id where it does not fit. A signature whose first luminance average
    /// is zero (a tombstone) or whose entries name no position is refused.
    pub fn add_image_in_memory(&mut self, iqdb_id: IqdbId, post_id: PostId, haar: &HaarSignature) -> (r:
        Option<IqdbId>)
        requires
            old(self).wf(),
        ensures
            final(self).wf(),
            indexable(*haar) && old(self)@.fits(iqdb_id as int) ==> r == Some(iqdb_id) && old(self)@.adds(
                iqdb_id,
                (ImageInfo { id: post_id, avgl: haar.avglf }),
                *haar,
                final(self)@,
            ),
            !(indexable(*haar) && old(self)@.fits(iqdb_id as int)) ==> r is None && final(self)@ == old(
                self,
            )@,
    {
        if haar.avglf[0] == 0 || !haar.can_index() {
            return None;
        }
        let id = iqdb_id as usize;
        if id >= self.info.len() {
            if id > usize::MAX - GROW_BY {
                return None;
            }
            let target = id + GROW_BY;
            while self.info.len() < target
                invariant
                    self.inv(),
                    self@.buckets == old(self)@.buckets,
                    old(self)@.wf(),
                    old(self)@.info.len() <= self@.info.len() <= target,
                    self@.info.take(old(self)@.info.len() as int) == old(self)@.info,
                    forall|i: int| old(self)@.info.len() <= i < self@.info.len() ==> #[trigger] self@.info[i] == blank(),
                decreases target - self@.info.len(),
            {
                let empty = ImageInfo { id: 0, avgl: [0, 0, 0] };
                assert(empty == blank());
                let ghost pre_info = self@.info;
                self.info.push(empty);
                assert(self@.info.take(old(self)@.info.len() as int) =~= pre_info.take(old(self)@.info.len() as int));
            }
        }
        let ghost grown = self@;
        self.info[id] = ImageInfo { id: post_id, avgl: haar.avglf };
        proof {
            assert forall|b2: int, t: int|
                0 <= b2 < N_BUCKETS && 0 <= t < self@.buckets[b2].len() implies #[trigger] self@.buckets[b2][t]
                    < self@.info.len() by {
                assert(old(self)@.buckets[b2][t] < old(self)@.info.len());
            }
            assert forall|i: int| 0 <= i < old(self)@.info.len() && i != iqdb_id implies #[trigger] self@.info[i]
                == old(self)@.info[i] by {
                assert(grown.info.take(old(self)@.info.len() as int)[i] == grown.info[i]);
            }
        }
        self.add(haar, iqdb_id);
        proof {
            let e = ImageInfo { id: post_id, avgl: haar.avglf };
            assert forall|i: int| 0 <= i < self@.info.len() implies #[trigger] self@.info[i] == info_added(
                old(self)@.info,
                iqdb_id as int,
                e,
            )[i] by {
                if i != iqdb_id && i < old(self)@.info.len() {
                    assert(grown.info.take(old(self)@.info.len() as int)[i] == grown.info[i]);
                }
            }
            assert(self@.info =~= info_added(old(self)@.info, iqdb_id as int, e));
        }
        Some(iqdb_id)
    }
}

/// A query result: post id and score.
#[derive(Clone, Copy, Debug, PartialEq, Eq)]
pub struct SimValue {
    pub id: ImageId,
    pub score: Score,
}

fn abs_diff(a: i32, b: i32) -> (r: i64)
    ensures
        r == abs(a - b),
        r <= 0x1_0000_0000,
{
    let d = a as i64 - b as i64;
    if d < 0 {
        -d
    } else {
        d
    }
}

/// `s - w` held to the range of `Score` from below.
fn sub_clamped(s: i64, w: i64) -> (r: i64)
    requires
        w >= 0,
    ensures
        r == clamp(s - w),
{
    if s >= i64::MIN + w {
        s - w
    } else {
        i64::MIN
    }
}

proof fn lemma_clamp_sub(e: int, w: int)
    requires
        w >= 0,
    ensures
        clamp(clamp(e) - w) == clamp(e - w),
{
}

proof fn lemma_count_take(s: Seq<u32>, t: int, i: int)
    requires
        0 <= t < s.len(),
    ensures
        count_id(s.take(t + 1), i) == count_id(s.take(t), i) + if s[t] as int == i { 1nat } else { 0nat },
{
    assert(s.take(t + 1).drop_last() =~= s.take(t));
}

/// Luminance part of the score of `e` against `q`.
fn lum_score_of(e: &ImageInfo, q: &HaarSignature, nc: usize) -> (r: i64)
    requires
        nc == q.spec_num_colors(),
    ensures
        r == lum_score(*e, *q),
        0 <= r,
{
    let d0 = weight_of(0, 0) * abs_diff(e.avgl[0], q.avglf[0]);
    if nc == 1 {
        d0
    } else {
        let d1 = weight_of(0, 1) * abs_diff(e.avgl[1], q.avglf[1]);
        let d2 = weight_of(0, 2) * abs_diff(e.avgl[2], q.avglf[2]);
        d0 + d1 + d2
    }
}

impl ImgBin {
    /// The score of every slot against `q`, tombstones included.
    pub fn scores(&self, q: &HaarSignature) -> (r: Vec<Score>)
        requires
            self.wf(),
            q.coefs_in_range(),
        ensures
            r@.len() == self@.info.len(),
            forall|j: int| 0 <= j < r@.len() ==> #[trigger] r@[j] == score(self@, *q, j),
    {
        let m = Ghost(self@);
        let n = self.info.len();
        let nc = q.num_colors();
        let mut scores: Vec<Score> = Vec::with_capacity(n);
        let mut i: usize = 0;
        while i < n
            invariant
                n == m@.info.len(),
                m@ == self@,
                nc == q.spec_num_colors(),
                i <= n,
                scores@.len() == i,
                forall|j: int| 0 <= j < i ==> #[trigger] scores@[j] == lum_score(m@.info[j], *q),
            decreases n - i,
        {
            scores.push(lum_score_of(&self.info[i], q, nc));
            i = i + 1;
        }
        let ts = each_bucket(q);
        let ghost tch = touched(*q);
        let mut k: usize = 0;
        while k < ts.len()
            invariant
                self.wf(),
                m@ == self@,
                n == m@.info.len(),
                q.coefs_in_range(),
                tch == touched(*q),
                ts@.len() == tch.len(),
                forall|j: int| 0 <= j < ts@.len() ==> #[trigger] ts@[j] == tch[j],
                forall|j: int| 0 <= j < ts@.len() ==> #[trigger] ts@[j] < N_BUCKETS,
                k <= ts@.len(),
                scores@.len() == n,
                forall|j: int|
                    0 <= j < n ==> #[trigger] scores@[j] == clamp(
                        lum_score(m@.info[j], *q) - discount(m@.buckets, *q, j, k as int),
                    ),
            decreases ts@.len() - k,
        {
            let b = ts[k];
            let c = k / NUM_COEFS;
            let p = k % NUM_COEFS;
            proof {
                assert(touched(*q).len() == q.spec_num_colors() * 40);
                assert(c < 3) by (nonlinear_arith)
                    requires
                        c == k / 40,
                        k < q.spec_num_colors() * 40,
                        q.spec_num_colors() <= 3,
                ;
                assert(crate::signature::valid_coef(q.coefs(c as int)[p as int]));
            }
            let v = q.coef(c, p);
            let pos: usize = if v < 0 { (-v) as usize } else { v as usize };
            let row = self.bin[pos];
            let w = WEIGHT_SCALE * weight_of(row, c);
            assert(w == coef_weight(*q, k as int));
            let bucket = &self.buckets[b];
            let ghost bk = m@.buckets[b as int];
            assert(bucket@ == bk);
            assert forall|j: int| 0 <= j < n implies #[trigger] scores@[j] == clamp(
                lum_score(m@.info[j], *q) - discount(m@.buckets, *q, j, k as int) - w * count_id(bk.take(0), j),
            ) by {
                assert(bk.take(0).len() == 0);
                assert(count_id(bk.take(0), j) == 0);
                assert(w * count_id(bk.take(0), j) == 0);
            }
            let mut t: usize = 0;
            while t < bucket.len()
                invariant
                    bucket@ == bk,
                    m@.wf(),
                    bk == m@.buckets[b as int],
                    0 <= b < N_BUCKETS,
                    n == m@.info.len(),
                    w >= 0,
                    t <= bk.len(),
                    scores@.len() == n,
                    forall|j: int|
                        0 <= j < n ==> #[trigger] scores@[j] == clamp(
                            lum_score(m@.info[j], *q) - discount(m@.buckets, *q, j, k as int) - w
                                * count_id(bk.take(t as int), j),
                        ),
                decreases bk.len() - t,
            {
                let id = bucket[t] as usize;
                assert(m@.buckets[b as int][t as int] < m@.info.len());
                let cur = scores[id];
                proof {
                    assert forall|j: int| 0 <= j < n implies count_id(bk.take(t + 1), j)
                        == count_id(bk.take(t as int), j) + if j == id { 1nat } else { 0nat } by {
                        lemma_count_take(bk, t as int, j);
                    }
                    let e = lum_score(m@.info[id as int], *q) - discount(m@.buckets, *q, id as int, k as int);
                    let c0 = count_id(bk.take(t as int), id as int);
                    assert(w * (c0 + 1) == w * c0 + w) by (nonlinear_arith);
                    lemma_clamp_sub(e - w * c0, w as int);
                }
                scores[id] = sub_clamped(cur, w);
                t = t + 1;
            }
            proof {
                assert(bk.take(bk.len() as int) =~= bk);
                assert(tch[k as int] == b);
            }
            k = k + 1;
        }
        scores
    }
}

/// Whether slot `i` comes before slot `j` in the order of results.
fn comes_before(scores: &Vec<Score>, info: &Vec<ImageInfo>, i: usize, j: usize) -> (r: bool)
    requires
        i < scores@.len(),
        j < scores@.len(),
        scores@.len() == info@.len(),
    ensures
        r == (scores@[i as int] < scores@[j as int] || (scores@[i as int] == scores@[j as int] && (
        info@[i as int].id < info@[j as int].id || (info@[i as int].id == info@[j as int].id && i < j)))),
{
    scores[i] < scores[j] || (scores[i] == scores[j] && (info[i].id < info[j].id || (info[i].id
        == info[j].id && i < j)))
}

impl ImgBin {
    /// The best `num_res` live slots by `scores`, best first.
    fn rank_slots(&self, q: &HaarSignature, scores: &Vec<Score>, num_res: usize) -> (r: Vec<usize>)
        requires
            self.wf(),
            scores@.len() == self@.info.len(),
            forall|j: int| 0 <= j < scores@.len() ==> #[trigger] scores@[j] == score(self@, *q, j),
        ensures
            is_ranking(self@, *q, num_res as int, r@),
    {
        let ghost m = self@;
        let ghost lt = |a: int, b: int| before(m, *q, a, b);
        let ghost ok = |j: int| m.live(j);
        assert(transitive(lt));
        let n = self.info.len();
        let mut top: Vec<usize> = Vec::new();
        let mut i: usize = 0;
        while i < n
            invariant
                m == self@,
                lt == (|a: int, b: int| before(m, *q, a, b)),
                ok == (|j: int| m.live(j)),
                transitive(lt),
                n == m.info.len(),
                scores@.len() == n,
                forall|j: int| 0 <= j < scores@.len() ==> #[trigger] scores@[j] == score(m, *q, j),
                i <= n,
                ranks_prefix(lt, ok, num_res as int, top@, i as int),
            decreases n - i,
        {
            if self.info[i].avgl[0] != 0 {
                let mut p: usize = 0;
                while p < top.len() && comes_before(scores, &self.info, top[p], i)
                    invariant
                        m == self@,
                        lt == (|a: int, b: int| before(m, *q, a, b)),
                        n == m.info.len(),
                        scores@.len() == n,
                        forall|j: int| 0 <= j < scores@.len() ==> #[trigger] scores@[j] == score(m, *q, j),
                        i < n,
                        p <= top@.len(),
                        ranks_prefix(lt, ok, num_res as int, top@, i as int),
                        forall|t: int| 0 <= t < p ==> lt(#[trigger] top@[t] as int, i as int),
                    decreases top@.len() - p,
                {
                    p = p + 1;
                }
                let ghost old_top = top@;
                if p < top.len() {
                    assert(top@[p as int] < i);
                    assert(lt(i as int, top@[p as int] as int));
                }
                if top.len() < num_res || p < top.len() {
                    top.insert(p, i);
                    if top.len() > num_res {
                        let _ = top.pop();
                        assert(top@ =~= old_top.insert(p as int, i).take(num_res as int));
                    }
                    proof {
                        lemma_step_insert(lt, ok, num_res as int, old_top, p as int, i, top@);
                    }
                } else {
                    proof {
                        lemma_step_skip(lt, ok, num_res as int, top@, i as int);
                    }
                }
            } else {
                proof {
                    lemma_step_skip(lt, ok, num_res as int, top@, i as int);
                }
            }
            i = i + 1;
        }
        proof {
            assert forall|t: int, u: int| 0 <= t < u < top@.len() implies before(m, *q, #[trigger] top@[t] as int, #[trigger] top@[u] as int) by {
                assert(lt(top@[t] as int, top@[u] as int));
            }
            assert forall|j: int| #![trigger m.live(j)] m.live(j) && !top@.contains(j as usize) implies top@.len() == num_res
                && forall|t: int| 0 <= t < top@.len() ==> before(m, *q, #[trigger] top@[t] as int, j) by {
                assert(0 <= j < n);
                assert(ok(j));
                assert forall|t: int| 0 <= t < top@.len() implies before(m, *q, #[trigger] top@[t] as int, j) by {
                    assert(lt(top@[t] as int, j));
                }
            }
            assert forall|t: int| 0 <= t < top@.len() implies m.live(#[trigger] top@[t] as int) by {
                assert(ok(top@[t] as int));
            }
        }
        top
    }

    /// The `num_res` indexed images most similar to `signature`, best
    /// first: post id and score of each.
    pub fn query_from_signature(&self, signature: &HaarSignature, num_res: usize) -> (r: Vec<SimValue>)
        requires
            self.wf(),
            signature.coefs_in_range(),
        ensures
            answers(self@, *signature, num_res as int, r@),
    {
        let scores = self.scores(signature);
        let slots = self.rank_slots(signature, &scores, num_res);
        let mut r: Vec<SimValue> = Vec::with_capacity(slots.len());
        let mut t: usize = 0;
        while t < slots.len()
            invariant
                is_ranking(self@, *signature, num_res as int, slots@),
                scores@.len() == self@.info.len(),
                forall|j: int| 0 <= j < scores@.len() ==> #[trigger] scores@[j] == score(self@, *signature, j),
                t <= slots@.len(),
                r@.len() == t,
                forall|u: int|
                    0 <= u < t ==> (#[trigger] r@[u]).id == self@.info[slots@[u] as int].id && r@[u].score
                        == score(self@, *signature, slots@[u] as int),
            decreases slots@.len() - t,
        {
            let s = slots[t];
            assert(self@.live(slots@[t as int] as int));
            r.push(SimValue { id: self.info[s].id, score: scores[s] });
            t = t + 1;
        }
        r
    }
}

} // verus!
