use iqdb::catalog::SqlRow;
use iqdb::codec::{decode_coefs, encode_coefs, BlobError};

fn sample() -> [i16; 40] {
    let mut s = [0i16; 40];
    for i in 0..40 {
        let v = (i as i16) * 409 + 1;
        s[i] = if i % 3 == 0 { -v } else { v };
    }
    s[39] = -16383;
    s
}

#[test]
fn blob_round_trip() {
    let s = sample();
    let blob = encode_coefs(&s);
    assert_eq!(blob.len(), 80);
    assert_eq!(decode_coefs(&blob), Ok(s));
}

#[test]
fn blob_layout_low_byte_first() {
    let mut s = [0i16; 40];
    s[0] = 0x0102;
    s[1] = -1;
    s[2] = -16383;
    let blob = encode_coefs(&s);
    assert_eq!(&blob[0..6], &[0x02, 0x01, 0xff, 0xff, 0x01, 0xc0]);
}

#[test]
fn blob_wrong_length() {
    let blob = vec![0u8; 79];
    assert_eq!(decode_coefs(&blob), Err(BlobError::WrongLength { len: 79 }));
    assert_eq!(decode_coefs(&[]), Err(BlobError::WrongLength { len: 0 }));
}

#[test]
fn row_from_columns() {
    let s = sample();
    let b = encode_coefs(&s);
    let row = SqlRow::from_columns(7, [1, -2, 3], &b, &b, &b).unwrap();
    assert_eq!(row.id, 7);
    assert_eq!(row.s.avglf, [1, -2, 3]);
    assert_eq!(row.s.sig0, s);
    assert_eq!(row.s.sig2, s);
    let short = vec![0u8; 10];
    assert_eq!(
        SqlRow::from_columns(7, [1, 0, 0], &b, &short, &b),
        Err(BlobError::WrongLength { len: 10 })
    );
}
