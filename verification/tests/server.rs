use gorums_rs::codec::{DecodeError, GorumsCodec};
use gorums_rs::envelope::Envelope;
use gorums_rs::server::{
    GorumsService, GorumsServiceBuilder, Handler, STATUS_NOT_FOUND,
};

/// A handler made of a plain function pointer, as the surrounding
/// application would register one.
struct FnHandler(fn(&Vec<u8>) -> Result<Vec<u8>, u32>);

impl Handler for FnHandler {
    fn handle(&self, payload: &Vec<u8>) -> Result<Vec<u8>, u32> {
        (self.0)(payload)
    }
}

fn echo(payload: &Vec<u8>) -> Result<Vec<u8>, u32> {
    Ok(payload.clone())
}

fn reverse(payload: &Vec<u8>) -> Result<Vec<u8>, u32> {
    let mut out = payload.clone();
    out.reverse();
    Ok(out)
}

fn always_fails(_payload: &Vec<u8>) -> Result<Vec<u8>, u32> {
    Err(7)
}

fn demo_service() -> GorumsService<FnHandler> {
    let mut builder = GorumsServiceBuilder::new();
    builder.add_handler("echo".to_string(), FnHandler(echo));
    builder.add_handler("reverse".to_string(), FnHandler(reverse));
    builder.add_handler("fails".to_string(), FnHandler(always_fails));
    builder.build()
}

fn request(id: u64, method: &str, payload: Vec<u8>) -> Envelope {
    Envelope { correlation_id: id, method: method.to_string(), payload, status: None }
}

#[test]
fn dispatch_success() {
    let service = demo_service();
    let reply = service.dispatch(&request(5, "reverse", vec![1, 2, 3]));
    assert_eq!(reply.correlation_id, 5);
    assert_eq!(reply.method, "reverse");
    assert_eq!(reply.payload, vec![3, 2, 1]);
    assert_eq!(reply.status, None);
}

#[test]
fn dispatch_handler_failure() {
    let service = demo_service();
    let reply = service.dispatch(&request(9, "fails", vec![1]));
    assert_eq!(reply.correlation_id, 9);
    assert_eq!(reply.method, "fails");
    assert_eq!(reply.payload, Vec::<u8>::new());
    assert_eq!(reply.status, Some(7));
}

#[test]
fn dispatch_unknown_method() {
    let service = demo_service();
    let reply = service.dispatch(&request(11, "does_not_exist", vec![1, 2]));
    assert_eq!(reply.correlation_id, 11);
    assert_eq!(reply.method, "does_not_exist");
    assert_eq!(reply.payload, Vec::<u8>::new());
    assert_eq!(reply.status, Some(STATUS_NOT_FOUND));
}

#[test]
fn replies_correlate_whatever_the_order() {
    // two outstanding requests; the one that arrived second is answered
    // first, and each reply still carries its own request's correlation id.
    let service = demo_service();
    let slow = request(1, "reverse", vec![1, 2, 3]);
    let fast = request(2, "echo", vec![9]);
    let reply_fast = service.dispatch(&fast);
    let reply_slow = service.dispatch(&slow);
    assert_eq!(reply_fast.correlation_id, 2);
    assert_eq!(reply_fast.payload, vec![9]);
    assert_eq!(reply_slow.correlation_id, 1);
    assert_eq!(reply_slow.payload, vec![3, 2, 1]);
}

#[test]
fn register_replaces_entry() {
    let mut builder = GorumsServiceBuilder::new();
    builder.add_handler("echo".to_string(), FnHandler(echo));
    builder.add_handler("echo".to_string(), FnHandler(reverse));
    let service = builder.build();
    let reply = service.dispatch(&request(3, "echo", vec![1, 2]));
    assert_eq!(reply.payload, vec![2, 1]);
}

fn frame(e: &Envelope) -> Vec<u8> {
    let mut buf = Vec::new();
    GorumsCodec::default().encoder().encode_msg(e, &mut buf).unwrap();
    buf
}

#[test]
fn node_stream_one_reply_per_request() {
    let service = demo_service();
    let mut input = frame(&request(1, "echo", vec![1]));
    input.extend(frame(&request(2, "missing", vec![])));
    input.extend(frame(&request(3, "fails", vec![5])));
    let out = service.node_stream(&input);
    assert_eq!(out.error, None);
    assert_eq!(out.replies.len(), 3);
    assert_eq!(out.replies[0].correlation_id, 1);
    assert_eq!(out.replies[0].payload, vec![1]);
    assert_eq!(out.replies[0].status, None);
    assert_eq!(out.replies[1].correlation_id, 2);
    assert_eq!(out.replies[1].status, Some(STATUS_NOT_FOUND));
    assert_eq!(out.replies[2].correlation_id, 3);
    assert_eq!(out.replies[2].status, Some(7));
}

#[test]
fn node_stream_stops_at_truncated_payload() {
    // first frame: sound metadata, but its payload declares a hundred bytes
    // and far fewer remain; the stream dies there, and the well-formed frame
    // inside those remaining bytes is never processed.
    let service = demo_service();
    let mut input: Vec<u8> = vec![2, 8, 1, 100];
    input.extend(frame(&request(2, "echo", vec![1])));
    let out = service.node_stream(&input);
    assert_eq!(out.replies.len(), 0);
    assert_eq!(out.error, Some(DecodeError::TruncatedPayload));
}

#[test]
fn node_stream_empty_input() {
    let service = demo_service();
    let out = service.node_stream(&Vec::new());
    assert_eq!(out.replies.len(), 0);
    assert_eq!(out.error, None);
}
