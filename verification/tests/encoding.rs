use paracord::short_string::as_str;
use paracord::short_string::encode_into;
use paracord::short_string::len_of;

#[test]
fn short_form_exact_bytes() {
    let mut out: Vec<u8> = Vec::new();
    encode_into("foo", &mut out);
    assert_eq!(out, vec![3u8, b'f', b'o', b'o']);
    assert_eq!(len_of("foo"), 4);
}

#[test]
fn short_form_round_trip() {
    let mut out: Vec<u8> = Vec::new();
    encode_into("héllo", &mut out);
    assert_eq!(as_str(&out), Some("héllo"));
}

#[test]
fn empty_string_encodes() {
    let mut out: Vec<u8> = Vec::new();
    encode_into("", &mut out);
    assert_eq!(out, vec![0u8]);
    assert_eq!(as_str(&out), Some(""));
}

#[test]
fn long_form_prefix() {
    let long = "x".repeat(300);
    let mut out: Vec<u8> = Vec::new();
    encode_into(&long, &mut out);
    assert_eq!(out.len(), 309);
    assert_eq!(out[0], 255);
    // 300 in little-endian bytes
    assert_eq!(&out[1..9], &[44u8, 1, 0, 0, 0, 0, 0, 0]);
    assert_eq!(out[9], b'x');
    assert_eq!(as_str(&out), Some(long.as_str()));
}

#[test]
fn appends_after_existing_bytes() {
    let mut out: Vec<u8> = vec![9u8, 9];
    encode_into("ab", &mut out);
    assert_eq!(out, vec![9u8, 9, 2, b'a', b'b']);
}

#[test]
fn rejects_bad_encodings() {
    // empty input
    assert_eq!(as_str(&[]), None);
    // length prefix longer than the payload
    assert_eq!(as_str(&[5u8, b'a']), None);
    // payload longer than the length prefix
    assert_eq!(as_str(&[1u8, b'a', b'b']), None);
    // long marker without a length
    assert_eq!(as_str(&[255u8]), None);
    // long form whose payload would have fit the short form
    let mut non_canonical = vec![255u8, 2, 0, 0, 0, 0, 0, 0, 0];
    non_canonical.extend_from_slice(b"ab");
    assert_eq!(as_str(&non_canonical), None);
    // payload that is not UTF-8
    assert_eq!(as_str(&[2u8, 0xff, 0xfe]), None);
}