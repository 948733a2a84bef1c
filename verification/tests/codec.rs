use gorums_rs::codec::{decode_metadata, DecodeError, GorumsCodec};
use gorums_rs::envelope::Envelope;

#[test]
fn encode() {
    let md = Envelope {
        correlation_id: 1,
        method: "foo".to_string(),
        payload: "bar".as_bytes().to_vec(),
        status: None,
    };
    let mut buf = Vec::new();
    let mut codec = GorumsCodec::default();

    let result = codec.encoder().encode_msg(&md, &mut buf);

    assert!(result.is_ok());
}

#[test]
fn decode() {
    // one frame: metadata {id=1, method=foo}; the payload happens to hold
    // another encoded metadata message, {id=2, method=bar}.
    let raw_msg: Vec<u8> = vec![7, 8, 1, 18, 3, 102, 111, 111, 7, 8, 2, 18, 3, 98, 97, 114];
    let mut codec = GorumsCodec::default();

    let (md, consumed) = codec.decoder().decode_msg(&raw_msg, 0).unwrap();
    // decode the payload, which in this case is itself a metadata message.
    let msg = decode_metadata(&md.payload).unwrap();

    assert_eq!(1, md.correlation_id);
    assert_eq!("foo", md.method);
    assert_eq!(2, msg.correlation_id);
    assert_eq!("bar", msg.method);
    assert_eq!(consumed, raw_msg.len());
}

#[test]
fn encode_and_decode() {
    let md = Envelope {
        correlation_id: 1,
        method: "foo".to_string(),
        payload: "bar".as_bytes().to_vec(),
        status: None,
    };
    let mut buf = Vec::new();
    let mut codec = GorumsCodec::default();

    let encode_result = codec.encoder().encode_msg(&md.clone(), &mut buf);
    assert!(encode_result.is_ok());
    let decode_result = codec.decoder().decode_msg(&buf, 0);
    assert!(decode_result.is_ok());

    let (decoded_msg, _) = decode_result.unwrap();
    assert_eq!(md, decoded_msg);
}

fn round_trip(e: &Envelope) {
    let mut codec = GorumsCodec::default();
    let mut buf = Vec::new();
    codec.encoder().encode_msg(e, &mut buf).unwrap();
    let (back, consumed) = codec.decoder().decode_msg(&buf, 0).unwrap();
    assert_eq!(*e, back);
    assert_eq!(consumed, buf.len());
}

#[test]
fn round_trip_payload_sizes() {
    // boundaries of the one- and two-byte length prefixes, and a size whose
    // prefix spans three bytes.
    for size in [0usize, 1, 127, 128, 16384] {
        let e = Envelope {
            correlation_id: 42,
            method: "m".to_string(),
            payload: vec![0xabu8; size],
            status: None,
        };
        round_trip(&e);
    }
}

#[test]
fn round_trip_with_status() {
    let e = Envelope {
        correlation_id: u64::MAX,
        method: "a method with a longer name".to_string(),
        payload: vec![],
        status: Some(12),
    };
    round_trip(&e);
}

#[test]
fn round_trip_unicode_method() {
    let e = Envelope {
        correlation_id: 7,
        method: "règle.ΔMéthode".to_string(),
        payload: vec![1, 2, 3],
        status: Some(u32::MAX),
    };
    round_trip(&e);
}

#[test]
fn decode_malformed_varint() {
    // a lone continuation byte: the length prefix never ends.
    let buf: Vec<u8> = vec![0x80];
    let mut codec = GorumsCodec::default();
    let r = codec.decoder().decode_msg(&buf, 0);
    assert_eq!(r, Err(DecodeError::MalformedVarint));
}

#[test]
fn decode_overlong_varint() {
    // eleven continuation bytes: over the ten-byte limit of a 64-bit value.
    let mut buf: Vec<u8> = vec![0x80; 11];
    buf.push(0x00);
    let mut codec = GorumsCodec::default();
    let r = codec.decoder().decode_msg(&buf, 0);
    assert_eq!(r, Err(DecodeError::MalformedVarint));
}

#[test]
fn decode_truncated_metadata() {
    // the metadata segment declares ten bytes; only one follows.
    let buf: Vec<u8> = vec![10, 8];
    let mut codec = GorumsCodec::default();
    let r = codec.decoder().decode_msg(&buf, 0);
    assert_eq!(r, Err(DecodeError::TruncatedMetadata));
}

#[test]
fn decode_invalid_metadata() {
    // an unknown field tag inside the metadata segment.
    let buf: Vec<u8> = vec![1, 99, 0];
    let mut codec = GorumsCodec::default();
    let r = codec.decoder().decode_msg(&buf, 0);
    assert_eq!(r, Err(DecodeError::InvalidMetadata));
}

#[test]
fn decode_invalid_method_utf8() {
    // metadata: method of one byte that is not valid UTF-8.
    let buf: Vec<u8> = vec![3, 18, 1, 0xff, 0];
    let mut codec = GorumsCodec::default();
    let r = codec.decoder().decode_msg(&buf, 0);
    assert_eq!(r, Err(DecodeError::InvalidMetadata));
}

#[test]
fn decode_truncated_payload() {
    // sound metadata, but the payload declares three bytes and only two
    // follow.
    let buf: Vec<u8> = vec![2, 8, 5, 3, 1, 2];
    let mut codec = GorumsCodec::default();
    let r = codec.decoder().decode_msg(&buf, 0);
    assert_eq!(r, Err(DecodeError::TruncatedPayload));
}

#[test]
fn decode_maps_failure_to_internal_status() {
    let buf: Vec<u8> = vec![0x80];
    let mut codec = GorumsCodec::default();
    let r = codec.decoder().decode(&buf, 0);
    assert_eq!(r, Err(gorums_rs::server::STATUS_INTERNAL));
}

#[test]
fn encode_always_succeeds() {
    // a growable sink always accepts the frame, so the status-mapping
    // encoder never reports a failure.
    let e = Envelope {
        correlation_id: 3,
        method: "m".to_string(),
        payload: vec![1],
        status: None,
    };
    let mut buf = Vec::new();
    let r = GorumsCodec::default().encoder().encode(&e, &mut buf);
    assert_eq!(r, Ok(()));
    assert!(!buf.is_empty());
}

#[test]
fn encoded_metadata_omits_payload() {
    // the metadata segment must not duplicate the payload: for this
    // envelope the segment is exactly the seven bytes of {id=1, "foo"}.
    let e = Envelope {
        correlation_id: 1,
        method: "foo".to_string(),
        payload: vec![9; 100],
        status: None,
    };
    let mut codec = GorumsCodec::default();
    let mut buf = Vec::new();
    codec.encoder().encode_msg(&e, &mut buf).unwrap();
    assert_eq!(buf[0], 7);
    assert_eq!(&buf[..8], &[7, 8, 1, 18, 3, 102, 111, 111]);
    assert_eq!(buf[8], 100);
    assert_eq!(buf.len(), 1 + 7 + 1 + 100);
}
