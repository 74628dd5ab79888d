use iqdb::catalog::SqlRow;
use iqdb::codec::encode_coefs;
use iqdb::imgdb::{each_bucket, weight_of, ImgBin, SimValue, N_BUCKETS};
use iqdb::iqdb::{add_image, load_catalog, remove_image};
use iqdb::signature::HaarSignature;

/// Channel `c` holds the positions `first + c .. first + c + 40` of row 0,
/// every third one negative.
fn sig(avglf: [i32; 3], first: i16) -> HaarSignature {
    let mut s = HaarSignature::new();
    s.avglf = avglf;
    for i in 0..40 {
        let p = first + i as i16;
        let v = if i % 3 == 0 { -p } else { p };
        s.sig0[i] = v;
        s.sig1[i] = v;
        s.sig2[i] = v;
    }
    s
}

const GRAY: [i32; 3] = [500_000, 0, 0];
const COLOR: [i32; 3] = [500_000, 10_000, 10_000];

/// Weights of positions 1..=40 of row 0, in hundredths: rows 1, 2, 3, 4,
/// then row 5 for the other 36.
const Y_SUM: i64 = 83 + 101 + 52 + 47 + 36 * 30;
const I_SUM: i64 = 126 + 44 + 53 + 28 + 36 * 14;
const Q_SUM: i64 = 36 + 45 + 14 + 18 + 36 * 27;

fn total_entries(bin: &ImgBin) -> Vec<usize> {
    (0..N_BUCKETS).map(|b| bin.bucket_len(b)).collect()
}

#[test]
fn weight_table() {
    assert_eq!(weight_of(0, 0), 500);
    assert_eq!(weight_of(0, 2), 3437);
    assert_eq!(weight_of(1, 1), 126);
    assert_eq!(weight_of(5, 2), 27);
}

#[test]
fn empty_index_query() {
    let bin = ImgBin::new();
    assert_eq!(bin.len(), 0);
    assert!(bin.query_from_signature(&sig(COLOR, 1), 10).is_empty());
}

#[test]
fn self_match_gray() {
    let mut bin = ImgBin::new();
    let s = sig(GRAY, 1);
    assert_eq!(bin.add_image_in_memory(3, 3, &s), Some(3));
    let r = bin.query_from_signature(&s, 1);
    assert_eq!(r, vec![SimValue { id: 3, score: -Y_SUM * 1_000_000 }]);
}

#[test]
fn self_match_color() {
    let mut bin = ImgBin::new();
    let s = sig(COLOR, 1);
    assert_eq!(bin.add_image_in_memory(0, 42, &s), Some(0));
    let r = bin.query_from_signature(&s, 1);
    assert_eq!(r, vec![SimValue { id: 42, score: -(Y_SUM + I_SUM + Q_SUM) * 1_000_000 }]);
}

#[test]
fn luminance_distance() {
    let mut bin = ImgBin::new();
    let stored = sig([600_000, 20_000, -10_000], 200);
    bin.add_image_in_memory(1, 1, &stored);
    // No entry in common: the score is the luminance distance alone.
    let q = sig([500_000, 10_000, 10_000], 1);
    let r = bin.query_from_signature(&q, 5);
    let expected = 500 * 100_000 + 1921 * 10_000 + 3437 * 20_000;
    assert_eq!(r, vec![SimValue { id: 1, score: expected }]);
}

#[test]
fn gray_versus_color() {
    let mut bin = ImgBin::new();
    let gray = sig(GRAY, 1);
    let color = sig(COLOR, 1);
    bin.add_image_in_memory(1, 1, &color);
    bin.add_image_in_memory(2, 2, &gray);
    // A grayscale query compares channel 0 only, so both images score
    // alike and the lower post id comes first.
    let r = bin.query_from_signature(&gray, 2);
    assert_eq!(r.len(), 2);
    assert_eq!(r[0].score, r[1].score);
    assert_eq!(r[0].id, 1);
    assert_eq!(r[1].id, 2);
    // A colour query separates them.
    let r = bin.query_from_signature(&color, 2);
    assert_eq!(r[0].id, 1);
    assert!(r[0].score < r[1].score);
}

#[test]
fn grayscale_query_reads_channel_zero() {
    let mut a = ImgBin::new();
    let mut b = ImgBin::new();
    let mut other = sig(COLOR, 1);
    for i in 0..40 {
        other.sig1[i] = 1000 + i as i16;
        other.sig2[i] = -(2000 + i as i16);
    }
    a.add_image_in_memory(1, 1, &sig(COLOR, 1));
    b.add_image_in_memory(1, 1, &other);
    let q = sig(GRAY, 1);
    assert_eq!(a.query_from_signature(&q, 3), b.query_from_signature(&q, 3));
    assert_eq!(each_bucket(&q).len(), 40);
    assert!(each_bucket(&q).iter().all(|&bk| bk < 2 * 16384));
}

#[test]
fn remove_then_query() {
    let mut bin = ImgBin::new();
    let a = sig(COLOR, 1);
    let b = sig(COLOR, 3);
    bin.add_image_in_memory(1, 1, &a);
    bin.add_image_in_memory(2, 2, &b);
    bin.remove_image(&a, 1);
    assert!(bin.is_deleted(1));
    assert!(!bin.is_deleted(2));
    let r = bin.query_from_signature(&a, 5);
    assert!(r.iter().all(|v| v.id != 1));
    assert_eq!(r.len(), 1);
    // Adding others later keeps it out.
    bin.add_image_in_memory(3, 3, &sig(COLOR, 100));
    let r = bin.query_from_signature(&a, 5);
    assert!(r.iter().all(|v| v.id != 1));
}

#[test]
fn readd_keeps_bucket_counts() {
    let s = sig(COLOR, 7);
    let mut once = ImgBin::new();
    once.add_image_in_memory(1, 1, &s);
    let mut again = ImgBin::new();
    again.add_image_in_memory(1, 1, &s);
    again.remove_image(&s, 1);
    again.add_image_in_memory(2, 2, &s);
    assert_eq!(total_entries(&once), total_entries(&again));
    let mut same_id = ImgBin::new();
    same_id.add_image_in_memory(1, 1, &s);
    same_id.remove_image(&s, 1);
    same_id.add_image_in_memory(1, 1, &s);
    assert_eq!(total_entries(&once), total_entries(&same_id));
}

#[test]
fn tombstone_signature_refused() {
    let mut bin = ImgBin::new();
    let s = sig([0, 10_000, 10_000], 1);
    assert_eq!(bin.add_image_in_memory(1, 1, &s), None);
    assert_eq!(bin.len(), 0);
    let mut bad = sig(COLOR, 1);
    bad.sig1[0] = 0;
    assert_eq!(bin.add_image_in_memory(1, 1, &bad), None);
    assert_eq!(bin.len(), 0);
}

#[test]
fn info_grows_past_the_id() {
    let mut bin = ImgBin::new();
    bin.add_image_in_memory(10, 10, &sig(COLOR, 1));
    assert_eq!(bin.len(), 5010);
    assert!(bin.is_deleted(0));
    assert!(!bin.is_deleted(10));
    bin.add_image_in_memory(20, 20, &sig(COLOR, 2));
    assert_eq!(bin.len(), 5010);
}

#[test]
fn duplicate_insert_guard() {
    let mut bin = ImgBin::new();
    let s = sig(COLOR, 5);
    assert_eq!(add_image(&mut bin, 2, &s), Some(2));
    assert_eq!(add_image(&mut bin, 1, &s), Some(1));
    let r = bin.query_from_signature(&s, 2);
    assert_eq!(r.len(), 2);
    assert_eq!(r[0].score, r[1].score);
    assert_eq!(r[0].id, 1);
    assert_eq!(r[1].id, 2);
}

#[test]
fn coordinator_refuses_bad_ids() {
    let mut bin = ImgBin::new();
    let s = sig(COLOR, 5);
    assert_eq!(add_image(&mut bin, -1, &s), None);
    assert_eq!(add_image(&mut bin, 1 << 40, &s), None);
    assert_eq!(bin.len(), 0);
}

#[test]
fn coordinator_remove() {
    let mut bin = ImgBin::new();
    let s = sig(COLOR, 5);
    add_image(&mut bin, 4, &s);
    assert_eq!(remove_image(&mut bin, 4, None), None);
    assert_eq!(remove_image(&mut bin, 9, Some(SqlRow { id: 9000, s })), None);
    assert_eq!(remove_image(&mut bin, 4, Some(SqlRow { id: 4, s })), Some(4));
    assert!(bin.is_deleted(4));
    assert!(bin.query_from_signature(&s, 3).is_empty());
}

fn stored(id: u32, s: &HaarSignature) -> SqlRow {
    let b0 = encode_coefs(&s.sig0);
    let b1 = encode_coefs(&s.sig1);
    let b2 = encode_coefs(&s.sig2);
    SqlRow::from_columns(id, s.avglf, &b0, &b1, &b2).unwrap()
}

#[test]
fn reload_gives_same_ranking() {
    let a = sig(COLOR, 1);
    let b = sig([400_000, 20_000, 0], 3);
    let c = sig([450_000, 0, 30_000], 20);
    let mut live = ImgBin::new();
    add_image(&mut live, 1, &a);
    add_image(&mut live, 2, &b);
    add_image(&mut live, 3, &c);
    let before = live.query_from_signature(&a, 3);
    assert_eq!(before.len(), 3);
    assert_eq!(before[0].id, 1);
    let rows = vec![stored(1, &a), stored(2, &b), stored(3, &c)];
    let reloaded = load_catalog(&rows);
    assert_eq!(reloaded.query_from_signature(&a, 3), before);
    assert_eq!(total_entries(&reloaded), total_entries(&live));
    let again = load_catalog(&rows);
    assert_eq!(total_entries(&again), total_entries(&reloaded));
}

#[test]
fn ranking_keeps_the_best() {
    let mut bin = ImgBin::new();
    let q = sig(COLOR, 1);
    for id in 1..=6u32 {
        bin.add_image_in_memory(id, 100 + id, &sig(COLOR, id as i16));
    }
    let r = bin.query_from_signature(&q, 3);
    assert_eq!(r.len(), 3);
    assert_eq!(r[0].id, 101);
    assert!(r[0].score <= r[1].score && r[1].score <= r[2].score);
    let all = bin.query_from_signature(&q, 10);
    assert_eq!(all.len(), 6);
    assert_eq!(&all[0..3], &r[..]);
    assert!(bin.query_from_signature(&q, 0).is_empty());
}

#[test]
fn imgdb_max_paths() {
    let img_bin: ImgBin = ImgBin::new();
    assert_eq!(img_bin.len(), 0);
    assert_eq!(img_bin.bucket_len(N_BUCKETS - 1), 0);
}

#[test]
fn loaded_info_records() {
    let a = sig(COLOR, 1);
    let refused = sig([0, 10_000, 10_000], 2);
    let rows = vec![stored(2, &a), stored(3, &refused), stored(5, &a)];
    let bin = load_catalog(&rows);
    assert_eq!(bin.len(), 5002);
    assert!(bin.is_deleted(0));
    assert!(!bin.is_deleted(2));
    assert!(bin.is_deleted(3));
    assert!(bin.is_deleted(4));
    assert!(!bin.is_deleted(5));
    let r = bin.query_from_signature(&a, 5);
    assert_eq!(r.iter().map(|v| v.id).collect::<Vec<_>>(), vec![2, 5]);
}
