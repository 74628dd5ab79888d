use iqdb::imglib::{initialize_imgbin, max, min};

#[test]
fn imglib_max_paths() {
    let x: usize = 1;
    let y: usize = 2;
    assert_eq!(y, max(x, y));
    assert_eq!(y, max(y, x));
    assert_eq!(y, max(y, y));
}

#[test]
fn min_paths() {
    let x: usize = 1;
    let y: usize = 2;
    assert_eq!(x, min(x, y));
    assert_eq!(x, min(y, x));
    assert_eq!(y, min(y, y));
}

#[test]
fn weight_mask_corners() {
    let bin = initialize_imgbin();
    assert_eq!(bin.len(), 16384);
    assert_eq!(bin[0], 0);
    assert_eq!(bin[5 * 128 + 0], 5);
    assert_eq!(bin[4 * 128 + 4], 4);
    assert_eq!(bin[6 * 128 + 6], 5);
    assert_eq!(bin[0 * 128 + 3], 3);
    assert_eq!(bin[127 * 128 + 127], 5);
}
