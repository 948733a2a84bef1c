use gorums_rs::envelope::Envelope;
use gorums_rs::Message;

#[test]
fn it_works() {
    assert_eq!(2 + 2, 4);
}

#[test]
fn metadata_view_clears_payload() {
    let e = Envelope {
        correlation_id: 4,
        method: "m".to_string(),
        payload: vec![1, 2, 3],
        status: Some(2),
    };
    let md = e.get_metadata();
    assert_eq!(md.correlation_id, 4);
    assert_eq!(md.method, "m");
    assert_eq!(md.payload, Vec::<u8>::new());
    assert_eq!(md.status, Some(2));
    assert_eq!(*e.get_message(), vec![1, 2, 3]);
}

#[test]
fn envelope_equality_by_fields() {
    let a = Envelope {
        correlation_id: 1,
        method: "m".to_string(),
        payload: vec![1],
        status: None,
    };
    let b = a.clone();
    assert_eq!(a, b);
    let c = Envelope { correlation_id: 2, ..a.clone() };
    assert_ne!(a, c);
    let d = Envelope { payload: vec![2], ..a.clone() };
    assert_ne!(a, d);
}
