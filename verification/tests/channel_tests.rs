use base64::Engine;

use zanbil::channel::{decode, encode, encode_record, DecodeError, Dependency};

fn dep(dirs: &[&[u8]]) -> Dependency {
    Dependency { dirs: dirs.iter().map(|d| d.to_vec()).collect() }
}

#[test]
fn round_trip_simple() {
    let m = dep(&[b"/out/core/hdrs", b"/out/app/hdrs"]);
    let text = encode(&m).unwrap();
    assert_eq!(decode(&text), Ok(m));
}

#[test]
fn round_trip_empty_record() {
    let m = dep(&[]);
    let text = encode(&m).unwrap();
    assert_eq!(decode(&text), Ok(m));
}

#[test]
fn round_trip_empty_dir_name() {
    let m = dep(&[b""]);
    let text = encode(&m).unwrap();
    assert_eq!(decode(&text), Ok(m));
}

#[test]
fn round_trip_hostile_bytes() {
    let m = dep(&[b"/a \"b\"/c", b"C:\\temp\\x", b"\x00\x01\xff\x7f", b"~!@#$%^&*()"]);
    let text = encode(&m).unwrap();
    assert_eq!(decode(&text), Ok(m));
}

#[test]
fn transport_layer_is_real_base64() {
    // The encoded value must be genuine transport text over the framed
    // record, not the record itself.
    let m = dep(&[b"/a"]);
    let text = encode(&m).unwrap();
    let payload = base64::prelude::BASE64_URL_SAFE.decode(&text).unwrap();
    assert_eq!(payload, b"dirs = [\"/a\"]".to_vec());
    assert_ne!(text, payload);
}

#[test]
fn frame_escapes_quotes_and_backslashes() {
    let framed = encode_record(&vec![vec![34u8], vec![92u8], vec![7u8]]);
    assert_eq!(framed, b"dirs = [\"\\\"\",\"\\\\\",\"\\x07\"]".to_vec());
}

#[test]
fn frame_of_empty_record() {
    let framed = encode_record(&vec![]);
    assert_eq!(framed, b"dirs = []".to_vec());
}

#[test]
fn decode_rejects_bad_transport_text() {
    assert_eq!(decode(&b"%%% not transport text %%%".to_vec()), Err(DecodeError::Transport));
}

#[test]
fn decode_rejects_malformed_frame() {
    let text = base64::prelude::BASE64_URL_SAFE.encode(b"dirs = [oops]").into_bytes();
    assert_eq!(decode(&text), Err(DecodeError::Malformed));
    let text = base64::prelude::BASE64_URL_SAFE.encode(b"nonsense").into_bytes();
    assert_eq!(decode(&text), Err(DecodeError::Malformed));
    let text = base64::prelude::BASE64_URL_SAFE.encode(b"dirs = [\"/a\"] ").into_bytes();
    assert_eq!(decode(&text), Err(DecodeError::Malformed));
}
