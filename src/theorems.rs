//! Laws of the index that relate several operations.
use vstd::prelude::*;
use crate::imglib::NUM_PIXELS_SQUARED;
use crate::imgdb::{
    added, answers, before, coef_weight, count_id, discount, is_ranking, lum_score, not_id, occ, purged,
    score, sign_of, touched, BinModel, ImageInfo, SimValue, N_BUCKETS, WEIGHT_SCALE,
};
use crate::iqdb::empty_buckets;
use crate::signature::{abs, HaarSignature};

verus! {

proof fn lemma_filter_all_pass(s: Seq<u32>, id: u32)
    requires
        !s.contains(id),
    ensures
        s.filter(not_id(id)) == s,
    decreases s.len(),
{
    reveal(Seq::filter);
    if s.len() > 0 {
        assert(!s.drop_last().contains(id)) by {
            if s.drop_last().contains(id) {
                let u = choose|u: int| 0 <= u < s.drop_last().len() && s.drop_last()[u] == id;
                assert(s[u] == id);
            }
        }
        lemma_filter_all_pass(s.drop_last(), id);
        assert(s.last() != id) by {
            assert(s[s.len() - 1] == s.last());
        }
        assert(s.drop_last().push(s.last()) =~= s);
    }
}

proof fn lemma_filter_repeat(n: nat, id: u32)
    ensures
        Seq::new(n, |k: int| id).filter(not_id(id)) == Seq::<u32>::empty(),
    decreases n,
{
    reveal(Seq::filter);
    if n > 0 {
        lemma_filter_repeat((n - 1) as nat, id);
        assert(Seq::new(n, |k: int| id).drop_last() =~= Seq::new((n - 1) as nat, |k: int| id));
    }
}

/// Adding an image and then removing it with the same signature gives
/// back the buckets as they were, when the id was in none of them.
pub proof fn lemma_add_then_remove(bk: Seq<Seq<u32>>, id: u32, s: HaarSignature)
    requires
        forall|b: int| 0 <= b < bk.len() ==> !(#[trigger] bk[b]).contains(id),
    ensures
        purged(added(bk, id, touched(s)), id, touched(s)) == bk,
{
    let ts = touched(s);
    let a = added(bk, id, ts);
    assert forall|b: int| 0 <= b < bk.len() implies #[trigger] purged(a, id, ts)[b] == bk[b] by {
        if ts.contains(b) {
            let rep = Seq::new(occ(ts, b), |k: int| id);
            Seq::filter_distributes_over_add(bk[b], rep, not_id(id));
            lemma_filter_all_pass(bk[b], id);
            lemma_filter_repeat(occ(ts, b), id);
            assert(bk[b] + Seq::<u32>::empty() =~= bk[b]);
        } else {
            assert(occ(ts, b) == 0) by {
                lemma_occ_absent(ts, b);
            }
            assert(a[b] =~= bk[b]);
        }
    }
    assert(purged(a, id, ts) =~= bk);
}

proof fn lemma_occ_absent(ts: Seq<int>, b: int)
    requires
        !ts.contains(b),
    ensures
        occ(ts, b) == 0,
    decreases ts.len(),
{
    if ts.len() > 0 {
        assert(!ts.drop_last().contains(b)) by {
            if ts.drop_last().contains(b) {
                let u = choose|u: int| 0 <= u < ts.drop_last().len() && ts.drop_last()[u] == b;
                assert(ts[u] == b);
            }
        }
        lemma_occ_absent(ts.drop_last(), b);
        assert(ts[ts.len() - 1] == ts.last());
    }
}

/// Adding a signature, removing it, and adding it again (under the same or
/// a fresh id) leaves every bucket as long as one addition does.
pub proof fn lemma_readd_bucket_counts(bk: Seq<Seq<u32>>, id: u32, id2: u32, s: HaarSignature)
    requires
        forall|b: int| 0 <= b < bk.len() ==> !(#[trigger] bk[b]).contains(id),
    ensures
        forall|b: int|
            0 <= b < bk.len() ==> (#[trigger] added(purged(added(bk, id, touched(s)), id, touched(s)), id2, touched(s))[b]).len()
                == added(bk, id, touched(s))[b].len(),
{
    lemma_add_then_remove(bk, id, s);
}

/// A removed image ranks in no query result on the index after removal.
pub proof fn lemma_removed_not_ranked(
    m: BinModel,
    id: u32,
    s: HaarSignature,
    next: BinModel,
    q: HaarSignature,
    k: int,
    slots: Seq<usize>,
)
    requires
        id < m.info.len(),
        m.removes(id, s, next),
        is_ranking(next, q, k, slots),
    ensures
        !slots.contains(id as usize),
{
    if slots.contains(id as usize) {
        let t = choose|t: int| 0 <= t < slots.len() && slots[t] == id as usize;
        assert(next.live(slots[t] as int));
    }
}

/// Adding other images keeps a tombstone a tombstone, so a removed image
/// stays out of every later result.
pub proof fn lemma_tombstone_stays(
    m: BinModel,
    id: int,
    other: u32,
    e: ImageInfo,
    s: HaarSignature,
    next: BinModel,
)
    requires
        0 <= id < m.info.len(),
        !m.live(id),
        other != id,
        m.adds(other, e, s, next),
    ensures
        !next.live(id),
{
    assert(next.info[id] == m.info[id]);
}

/// The loaded layout is a function of the catalog's rows: two restarts on
/// the same rows build the same buckets.
pub proof fn lemma_restart_deterministic(rows: Seq<crate::catalog::SqlRow>, m1: BinModel, m2: BinModel)
    requires
        m1.buckets == crate::iqdb::loaded_buckets(rows),
        m2.buckets == crate::iqdb::loaded_buckets(rows),
    ensures
        m1.buckets == m2.buckets,
{
}

/// A restart reproduces the live layout: the buckets of a running index
/// that added an image and removed it again are those that loading the
/// remaining rows builds, when the image's id was fresh.
pub proof fn lemma_restart_matches_live(rows: Seq<crate::catalog::SqlRow>, id: u32, s: HaarSignature)
    requires
        forall|b: int|
            0 <= b < crate::iqdb::loaded_buckets(rows).len() ==> !(#[trigger] crate::iqdb::loaded_buckets(
                rows,
            )[b]).contains(id),
    ensures
        purged(added(crate::iqdb::loaded_buckets(rows), id, touched(s)), id, touched(s))
            == crate::iqdb::loaded_buckets(rows),
{
    lemma_add_then_remove(crate::iqdb::loaded_buckets(rows), id, s);
}

proof fn lemma_discount_channel_zero(bk1: Seq<Seq<u32>>, bk2: Seq<Seq<u32>>, q: HaarSignature, i: int, n: int)
    requires
        q.spec_is_grayscale(),
        q.coefs_in_range(),
        0 <= n <= touched(q).len(),
        forall|b: int| 0 <= b < 2 * NUM_PIXELS_SQUARED ==> #[trigger] bk1[b] == bk2[b],
    ensures
        discount(bk1, q, i, n) == discount(bk2, q, i, n),
    decreases n,
{
    if n > 0 {
        lemma_discount_channel_zero(bk1, bk2, q, i, n - 1);
        let k = n - 1;
        assert(k / 40 == 0);
        assert(crate::signature::valid_coef(q.coefs(0)[k % 40]));
        assert(touched(q)[k] < 2 * NUM_PIXELS_SQUARED);
    }
}

/// The two indexes hold the same slots with the same post ids and the
/// same first luminance average.
pub open spec fn same_channel_zero_info(m1: BinModel, m2: BinModel) -> bool {
    &&& m1.info.len() == m2.info.len()
    &&& forall|i: int|
        0 <= i < m1.info.len() ==> (#[trigger] m1.info[i]).id == m2.info[i].id && m1.info[i].avgl@[0]
            == m2.info[i].avgl@[0]
}

/// A grayscale query reads only the channel-0 buckets and the first
/// luminance averages: two indexes that agree on those (and on post ids)
/// give every slot the same score, and so the same rankings and answers.
pub proof fn lemma_grayscale_reads_channel_zero(m1: BinModel, m2: BinModel, q: HaarSignature)
    requires
        m1.wf(),
        m2.wf(),
        q.spec_is_grayscale(),
        q.coefs_in_range(),
        same_channel_zero_info(m1, m2),
        forall|b: int| 0 <= b < 2 * NUM_PIXELS_SQUARED ==> #[trigger] m1.buckets[b] == m2.buckets[b],
    ensures
        forall|i: int| 0 <= i < m1.info.len() ==> #[trigger] score(m1, q, i) == score(m2, q, i),
        forall|k: int, slots: Seq<usize>| #[trigger] is_ranking(m1, q, k, slots) == is_ranking(m2, q, k, slots),
        forall|k: int, r: Seq<SimValue>| #[trigger] answers(m1, q, k, r) == answers(m2, q, k, r),
{
    assert forall|i: int| 0 <= i < m1.info.len() implies #[trigger] score(m1, q, i) == score(m2, q, i) by {
        lemma_discount_channel_zero(m1.buckets, m2.buckets, q, i, touched(q).len() as int);
        assert(lum_score(m1.info[i], q) == lum_score(m2.info[i], q));
    }
    assert forall|k: int, slots: Seq<usize>| #[trigger] is_ranking(m1, q, k, slots) == is_ranking(m2, q, k, slots) by {
        if is_ranking(m1, q, k, slots) {
            lemma_ranking_transfer(m1, m2, q, k, slots);
        }
        if is_ranking(m2, q, k, slots) {
            lemma_ranking_transfer(m2, m1, q, k, slots);
        }
    }
    assert forall|k: int, r: Seq<SimValue>| #[trigger] answers(m1, q, k, r) == answers(m2, q, k, r) by {
        if answers(m1, q, k, r) {
            lemma_answers_transfer(m1, m2, q, k, r);
        }
        if answers(m2, q, k, r) {
            lemma_answers_transfer(m2, m1, q, k, r);
        }
    }
}

proof fn lemma_answers_transfer(m1: BinModel, m2: BinModel, q: HaarSignature, k: int, r: Seq<SimValue>)
    requires
        same_channel_zero_info(m1, m2),
        forall|i: int| 0 <= i < m1.info.len() ==> #[trigger] score(m1, q, i) == score(m2, q, i),
        answers(m1, q, k, r),
    ensures
        answers(m2, q, k, r),
{
    let slots = choose|slots: Seq<usize>|
        {
            &&& is_ranking(m1, q, k, slots)
            &&& r.len() == slots.len()
            &&& forall|t: int|
                0 <= t < slots.len() ==> (#[trigger] r[t]).id == m1.info[slots[t] as int].id && r[t].score
                    == score(m1, q, slots[t] as int)
        };
    lemma_ranking_transfer(m1, m2, q, k, slots);
    assert forall|t: int| 0 <= t < slots.len() implies (#[trigger] r[t]).id == m2.info[slots[t] as int].id
        && r[t].score == score(m2, q, slots[t] as int) by {
        assert(m1.live(slots[t] as int));
        assert(m1.info[slots[t] as int].id == m2.info[slots[t] as int].id);
    }
}

proof fn lemma_ranking_transfer(m1: BinModel, m2: BinModel, q: HaarSignature, k: int, slots: Seq<usize>)
    requires
        same_channel_zero_info(m1, m2),
        forall|i: int| 0 <= i < m1.info.len() ==> #[trigger] score(m1, q, i) == score(m2, q, i),
        is_ranking(m1, q, k, slots),
    ensures
        is_ranking(m2, q, k, slots),
{
    assert forall|i: int| 0 <= i < m1.info.len() implies #[trigger] m1.live(i) == m2.live(i) by {
        assert(m1.info[i].avgl@[0] == m2.info[i].avgl@[0]);
    }
    assert forall|i: int| #![trigger m2.live(i)] m2.live(i) implies m1.live(i) by {
        assert(m1.info[i].avgl@[0] == m2.info[i].avgl@[0]);
    }
    assert forall|i: int, j: int| m1.live(i) && m1.live(j) implies #[trigger] before(m1, q, i, j) == #[trigger] before(m2, q, i, j) by {
        assert(score(m1, q, i) == score(m2, q, i));
        assert(score(m1, q, j) == score(m2, q, j));
        assert(m1.info[i].id == m2.info[i].id);
        assert(m1.info[j].id == m2.info[j].id);
    }
    assert forall|t: int| 0 <= t < slots.len() implies m2.live(#[trigger] slots[t] as int) by {
        assert(m1.live(slots[t] as int));
    }
    assert forall|t: int, u: int| 0 <= t < u < slots.len() implies before(m2, q, #[trigger] slots[t] as int, #[trigger] slots[u] as int) by {
        assert(m1.live(slots[t] as int) && m1.live(slots[u] as int));
        assert(before(m1, q, slots[t] as int, slots[u] as int));
    }
    assert forall|i: int|
        #![trigger m2.live(i)]
        m2.live(i) && !slots.contains(i as usize) implies slots.len() == k && forall|t: int|
            0 <= t < slots.len() ==> before(m2, q, #[trigger] slots[t] as int, i) by {
        assert(m1.live(i));
        assert forall|t: int| 0 <= t < slots.len() implies before(m2, q, #[trigger] slots[t] as int, i) by {
            assert(m1.live(slots[t] as int));
            assert(before(m1, q, slots[t] as int, i));
        }
    }
}

/// What the first `n` entries of `q` weigh together.
pub open spec fn total_weight(q: HaarSignature, n: int) -> int
    decreases n,
{
    if n <= 0 {
        0
    } else {
        total_weight(q, n - 1) + coef_weight(q, n - 1)
    }
}

proof fn lemma_total_weight_bounds(q: HaarSignature, n: int)
    requires
        0 <= n,
    ensures
        0 <= total_weight(q, n) <= n * 3437 * WEIGHT_SCALE,
    decreases n,
{
    if n > 0 {
        lemma_total_weight_bounds(q, n - 1);
    }
}

proof fn lemma_count_repeat(n: nat, id: u32)
    ensures
        count_id(Seq::new(n, |k: int| id), id as int) == n,
    decreases n,
{
    if n > 0 {
        lemma_count_repeat((n - 1) as nat, id);
        assert(Seq::new(n, |k: int| id).drop_last() =~= Seq::new((n - 1) as nat, |k: int| id));
    }
}

proof fn lemma_occ_distinct(ts: Seq<int>, k: int)
    requires
        0 <= k < ts.len(),
        forall|a: int, b: int| 0 <= a < b < ts.len() ==> #[trigger] ts[a] != #[trigger] ts[b],
    ensures
        occ(ts, ts[k]) == 1,
    decreases ts.len(),
{
    let l = ts.len() - 1;
    if k == l {
        assert(!ts.drop_last().contains(ts[k])) by {
            if ts.drop_last().contains(ts[k]) {
                let u = choose|u: int| 0 <= u < ts.drop_last().len() && ts.drop_last()[u] == ts[k];
                assert(ts[u] == ts[k]);
            }
        }
        lemma_occ_absent(ts.drop_last(), ts[k]);
    } else {
        lemma_occ_distinct(ts.drop_last(), k);
        assert(ts.last() == ts[l]);
    }
}

proof fn lemma_touched_distinct(s: HaarSignature)
    requires
        s.wf(),
    ensures
        forall|a: int, b: int| 0 <= a < b < touched(s).len() ==> #[trigger] touched(s)[a] != #[trigger] touched(s)[b],
{
    let ts = touched(s);
    assert forall|a: int, b: int| 0 <= a < b < ts.len() implies #[trigger] ts[a] != #[trigger] ts[b] by {
        let (ca, pa, cb, pb) = (a / 40, a % 40, b / 40, b % 40);
        let va = s.coefs(ca)[pa];
        let vb = s.coefs(cb)[pb];
        assert(ts.len() <= 120);
        assert(crate::signature::valid_coef(va));
        assert(crate::signature::valid_coef(vb));
        let xa = ca * 2 + sign_of(va);
        let xb = cb * 2 + sign_of(vb);
        let ya = abs(va as int);
        let yb = abs(vb as int);
        if ts[a] == ts[b] {
            assert(xa == xb && ya == yb) by (nonlinear_arith)
                requires
                    xa * 16384 + ya == xb * 16384 + yb,
                    0 <= ya < 16384,
                    0 <= yb < 16384,
            ;
            assert(ca == cb);
            assert(pa != pb);
        }
    }
}

proof fn lemma_discount_self(bk: Seq<Seq<u32>>, s: HaarSignature, id: u32, n: int)
    requires
        s.wf(),
        0 <= n <= touched(s).len(),
        bk == added(empty_buckets(), id, touched(s)),
    ensures
        discount(bk, s, id as int, n) == total_weight(s, n),
    decreases n,
{
    if n > 0 {
        lemma_discount_self(bk, s, id, n - 1);
        let ts = touched(s);
        let b = ts[n - 1];
        lemma_touched_distinct(s);
        lemma_occ_distinct(ts, n - 1);
        assert(0 <= b < 98304) by {
            let k = n - 1;
            assert(crate::signature::valid_coef(s.coefs(k / 40)[k % 40]));
            assert(ts.len() <= 120);
        }
        assert(bk[b] =~= Seq::new(occ(ts, b), |k: int| id));
        lemma_count_repeat(occ(ts, b), id);
    }
}

/// Querying an index that holds exactly one image with that image's own
/// signature ranks the image first, with the negated sum of the weights of
/// its entries as score.
pub proof fn lemma_self_match(m: BinModel, s: HaarSignature, id: u32, slots: Seq<usize>)
    requires
        s.wf(),
        m.live(id as int),
        m.info[id as int].avgl == s.avglf,
        forall|i: int| #[trigger] m.live(i) ==> i == id,
        m.buckets == added(empty_buckets(), id, touched(s)),
        is_ranking(m, s, 1, slots),
    ensures
        slots == seq![id as usize],
        score(m, s, id as int) == -total_weight(s, touched(s).len() as int),
{
    lemma_discount_self(m.buckets, s, id, touched(s).len() as int);
    lemma_total_weight_bounds(s, touched(s).len() as int);
    assert(touched(s).len() <= 120);
    assert(lum_score(m.info[id as int], s) == 0);
    if !slots.contains(id as usize) {
        assert(m.live(slots[0] as int));
    }
    let t = choose|t: int| 0 <= t < slots.len() && slots[t] == id as usize;
    assert(slots =~= seq![id as usize]);
}

/// After image `id` is removed, no answer to any query names its post id,
/// when no other live slot carries that post id (the coordinator gives
/// every image its own id as post id).
pub proof fn lemma_removed_post_not_answered(
    m: BinModel,
    id: u32,
    s: HaarSignature,
    next: BinModel,
    q: HaarSignature,
    k: int,
    r: Seq<SimValue>,
)
    requires
        id < m.info.len(),
        m.removes(id, s, next),
        forall|i: int| #[trigger] next.live(i) && i != id ==> next.info[i].id != m.info[id as int].id,
        answers(next, q, k, r),
    ensures
        forall|t: int| 0 <= t < r.len() ==> (#[trigger] r[t]).id != m.info[id as int].id,
{
    let slots = choose|slots: Seq<usize>|
        {
            &&& is_ranking(next, q, k, slots)
            &&& r.len() == slots.len()
            &&& forall|t: int|
                0 <= t < slots.len() ==> (#[trigger] r[t]).id == next.info[slots[t] as int].id && r[t].score
                    == score(next, q, slots[t] as int)
        };
    assert forall|t: int| 0 <= t < r.len() implies (#[trigger] r[t]).id != m.info[id as int].id by {
        assert(next.live(slots[t] as int));
        assert(r[t].id == next.info[slots[t] as int].id);
    }
}

proof fn lemma_count_concat(a: Seq<u32>, b: Seq<u32>, i: int)
    ensures
        count_id(a + b, i) == count_id(a, i) + count_id(b, i),
    decreases b.len(),
{
    if b.len() == 0 {
        assert(a + b =~= a);
    } else {
        lemma_count_concat(a, b.drop_last(), i);
        assert((a + b).drop_last() =~= a + b.drop_last());
        assert((a + b).last() == b.last());
    }
}

proof fn lemma_count_repeat_other(n: nat, x: u32, i: int)
    requires
        x as int != i,
    ensures
        count_id(Seq::new(n, |k: int| x), i) == 0,
    decreases n,
{
    if n > 0 {
        lemma_count_repeat_other((n - 1) as nat, x, i);
        assert(Seq::new(n, |k: int| x).drop_last() =~= Seq::new((n - 1) as nat, |k: int| x));
    }
}

proof fn lemma_count_absent(s: Seq<u32>, x: u32)
    requires
        !s.contains(x),
    ensures
        count_id(s, x as int) == 0,
    decreases s.len(),
{
    if s.len() > 0 {
        assert(!s.drop_last().contains(x)) by {
            if s.drop_last().contains(x) {
                let u = choose|u: int| 0 <= u < s.drop_last().len() && s.drop_last()[u] == x;
                assert(s[u] == x);
            }
        }
        lemma_count_absent(s.drop_last(), x);
        assert(s[s.len() - 1] == s.last());
    }
}

proof fn lemma_touched_in_range(q: HaarSignature)
    requires
        q.coefs_in_range(),
    ensures
        forall|k: int| 0 <= k < touched(q).len() ==> 0 <= #[trigger] touched(q)[k] < N_BUCKETS,
{
    assert forall|k: int| 0 <= k < touched(q).len() implies 0 <= #[trigger] touched(q)[k] < N_BUCKETS by {
        assert(touched(q).len() <= 120);
        assert(crate::signature::valid_coef(q.coefs(k / 40)[k % 40]));
    }
}

proof fn lemma_discount_same_counts(bk: Seq<Seq<u32>>, q: HaarSignature, i: int, j: int, n: int)
    requires
        q.coefs_in_range(),
        0 <= n <= touched(q).len(),
        forall|b: int| 0 <= b < N_BUCKETS ==> count_id(#[trigger] bk[b], i) == count_id(bk[b], j),
    ensures
        discount(bk, q, i, n) == discount(bk, q, j, n),
    decreases n,
{
    if n > 0 {
        lemma_discount_same_counts(bk, q, i, j, n - 1);
        lemma_touched_in_range(q);
        assert(0 <= touched(q)[n - 1] < N_BUCKETS);
    }
}

/// Two images added with one signature, under ids that were in no bucket,
/// score alike against every query, and the lower id ranks first.
pub proof fn lemma_duplicates_tie(
    m0: BinModel,
    s: HaarSignature,
    id1: u32,
    id2: u32,
    m1: BinModel,
    m2: BinModel,
    q: HaarSignature,
)
    requires
        m0.wf(),
        id1 != id2,
        forall|b: int| 0 <= b < N_BUCKETS ==> !(#[trigger] m0.buckets[b]).contains(id1) && !m0.buckets[b].contains(id2),
        m0.adds(id1, (ImageInfo { id: id1, avgl: s.avglf }), s, m1),
        m1.adds(id2, (ImageInfo { id: id2, avgl: s.avglf }), s, m2),
        q.coefs_in_range(),
    ensures
        score(m2, q, id1 as int) == score(m2, q, id2 as int),
        id1 < id2 ==> before(m2, q, id1 as int, id2 as int),
{
    let ts = touched(s);
    assert forall|b: int| 0 <= b < N_BUCKETS implies count_id(#[trigger] m2.buckets[b], id1 as int) == count_id(
        m2.buckets[b],
        id2 as int,
    ) by {
        let r1 = Seq::new(occ(ts, b), |k: int| id1);
        let r2 = Seq::new(occ(ts, b), |k: int| id2);
        assert(m2.buckets[b] == m0.buckets[b] + r1 + r2);
        lemma_count_concat(m0.buckets[b] + r1, r2, id1 as int);
        lemma_count_concat(m0.buckets[b], r1, id1 as int);
        lemma_count_concat(m0.buckets[b] + r1, r2, id2 as int);
        lemma_count_concat(m0.buckets[b], r1, id2 as int);
        lemma_count_absent(m0.buckets[b], id1);
        lemma_count_absent(m0.buckets[b], id2);
        lemma_count_repeat(occ(ts, b), id1);
        lemma_count_repeat(occ(ts, b), id2);
        lemma_count_repeat_other(occ(ts, b), id1, id2 as int);
        lemma_count_repeat_other(occ(ts, b), id2, id1 as int);
    }
    lemma_discount_same_counts(m2.buckets, q, id1 as int, id2 as int, touched(q).len() as int);
    assert(m2.info[id1 as int] == m1.info[id1 as int]);
}

/// Restart reproduces the live index: adding a catalog row to the index
/// loaded from the rows before it gives the index that loading all the
/// rows builds, and so the same answers to every query.
pub proof fn lemma_live_add_matches_reload(
    rows: Seq<crate::catalog::SqlRow>,
    row: crate::catalog::SqlRow,
    m: BinModel,
    next: BinModel,
)
    requires
        m.info == crate::iqdb::loaded_info(rows),
        m.buckets == crate::iqdb::loaded_buckets(rows),
        crate::iqdb::accepts(m.info.len() as int, row),
        m.adds(row.id, (ImageInfo { id: row.id, avgl: row.s.avglf }), row.s, next),
    ensures
        next.info == crate::iqdb::loaded_info(rows.push(row)),
        next.buckets == crate::iqdb::loaded_buckets(rows.push(row)),
        forall|q: HaarSignature, k: int, r: Seq<SimValue>|
            #[trigger] answers(next, q, k, r) == answers(
                (BinModel {
                    info: crate::iqdb::loaded_info(rows.push(row)),
                    buckets: crate::iqdb::loaded_buckets(rows.push(row)),
                }),
                q,
                k,
                r,
            ),
{
    assert(rows.push(row).drop_last() =~= rows);
    assert(rows.push(row).last() == row);
}

/// Occurrences of `i` that the rows put in bucket `b` when loaded in
/// order: one per entry of each taken row with id `i` that touches `b`.
pub open spec fn row_count(rows: Seq<crate::catalog::SqlRow>, b: int, i: int) -> nat
    decreases rows.len(),
{
    if rows.len() == 0 {
        0
    } else {
        let row = rows.last();
        row_count(rows.drop_last(), b, i) + if row.id as int == i && crate::iqdb::accepts(
            crate::iqdb::loaded_info(rows.drop_last()).len() as int,
            row,
        ) {
            occ(touched(row.s), b)
        } else {
            0
        }
    }
}

/// The loaded layout up to order inside each bucket: bucket `b` holds id
/// `i` once for each entry of a taken row with id `i` that touches `b`.
pub proof fn lemma_loaded_bucket_counts(rows: Seq<crate::catalog::SqlRow>, b: int, i: int)
    requires
        0 <= b < N_BUCKETS,
    ensures
        count_id(crate::iqdb::loaded_buckets(rows)[b], i) == row_count(rows, b, i),
    decreases rows.len(),
{
    if rows.len() == 0 {
        assert(crate::iqdb::loaded_buckets(rows)[b] =~= Seq::<u32>::empty());
    } else {
        let prev = rows.drop_last();
        let row = rows.last();
        lemma_loaded_bucket_counts(prev, b, i);
        if crate::iqdb::accepts(crate::iqdb::loaded_info(prev).len() as int, row) {
            let rep = Seq::new(occ(touched(row.s), b), |k: int| row.id);
            lemma_loaded_len(prev);
            lemma_count_concat(crate::iqdb::loaded_buckets(prev)[b], rep, i);
            if row.id as int == i {
                lemma_count_repeat(occ(touched(row.s), b), row.id);
            } else {
                lemma_count_repeat_other(occ(touched(row.s), b), row.id, i);
            }
        }
    }
}

proof fn lemma_loaded_len(rows: Seq<crate::catalog::SqlRow>)
    ensures
        crate::iqdb::loaded_buckets(rows).len() == N_BUCKETS,
    decreases rows.len(),
{
    if rows.len() > 0 {
        lemma_loaded_len(rows.drop_last());
    }
}

} // verus!
