use auth_core::base64url::{encode, decode};
use auth_core::claims::{payload_bytes, parse_payload};
use auth_core::identity::Identity;

#[test]
fn base64url_known_values() {
    assert_eq!(encode(b""), b"".to_vec());
    assert_eq!(encode(b"f"), b"Zg".to_vec());
    assert_eq!(encode(b"fo"), b"Zm8".to_vec());
    assert_eq!(encode(b"foo"), b"Zm9v".to_vec());
    assert_eq!(encode(b"foob"), b"Zm9vYg".to_vec());
    assert_eq!(encode(b"fooba"), b"Zm9vYmE".to_vec());
    assert_eq!(encode(b"foobar"), b"Zm9vYmFy".to_vec());
}

#[test]
fn base64url_uses_url_alphabet() {
    // 0xfb 0xff encodes to characters 62 and 63 of the url-safe alphabet
    let e = encode(&[0xfbu8, 0xff]);
    assert_eq!(e, b"-_8".to_vec());
}

#[test]
fn base64url_round_trip() {
    let inputs: Vec<Vec<u8>> = vec![
        vec![],
        vec![0],
        vec![255],
        vec![1, 2],
        vec![1, 2, 3],
        vec![1, 2, 3, 4],
        (0u8..=255).collect(),
    ];
    for input in inputs {
        let e = encode(&input);
        let d = decode(&e).expect("an encoding must decode");
        assert_eq!(d, input);
    }
}

#[test]
fn base64url_decode_rejects_bad_input() {
    assert!(decode(b"A").is_none());
    assert!(decode(b"A=").is_none());
    assert!(decode(b"A.b").is_none());
    assert!(decode(b"Zm+v").is_none());
    assert!(decode(b"Zm/v").is_none());
}

#[test]
fn payload_round_trip() {
    let sub = b"01234567-89ab-cdef-0123-456789abcdef".to_vec();
    let p = payload_bytes(&sub, 1000, 87400);
    assert_eq!(
        p,
        b"{\"sub\":\"01234567-89ab-cdef-0123-456789abcdef\",\"iat\":1000,\"exp\":87400}".to_vec()
    );
    let (sub2, iat, exp) = parse_payload(&p).expect("a serialized payload must parse");
    assert_eq!(sub2, sub);
    assert_eq!(iat, 1000);
    assert_eq!(exp, 87400);
}

#[test]
fn payload_parse_rejects_garbage() {
    assert!(parse_payload(b"").is_none());
    assert!(parse_payload(b"{}").is_none());
    assert!(parse_payload(b"{\"sub\":\"a\"}").is_none());
    assert!(parse_payload(b"{\"sub\":\"a\",\"iat\":1,\"exp\":}").is_none());
    assert!(parse_payload(b"{\"sub\":\"a\",\"iat\":x,\"exp\":2}").is_none());
    // trailing bytes after the closing brace are refused
    assert!(parse_payload(b"{\"sub\":\"a\",\"iat\":1,\"exp\":2} ").is_none());
    // a timestamp past the 64-bit range is refused
    assert!(parse_payload(b"{\"sub\":\"a\",\"iat\":1,\"exp\":99999999999999999999}").is_none());
}

#[test]
fn identity_parse_accepts_canonical_text() {
    let id = Identity::parse(b"01234567-89ab-cdef-0123-456789abcdef").expect("canonical id");
    assert_eq!(id.to_vec(), b"01234567-89ab-cdef-0123-456789abcdef".to_vec());
    assert!(Identity::parse(b"01234567-89AB-CDEF-0123-456789ABCDEF").is_some());
}

#[test]
fn identity_parse_rejects_other_text() {
    assert!(Identity::parse(b"").is_none());
    assert!(Identity::parse(b"not-an-id").is_none());
    assert!(Identity::parse(b"0123456789ab-cdef-0123-456789abcdef-").is_none());
    assert!(Identity::parse(b"01234567x89ab-cdef-0123-456789abcdef").is_none());
    assert!(Identity::parse(b"g1234567-89ab-cdef-0123-456789abcdef").is_none());
}
