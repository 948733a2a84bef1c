//! The handler registry and the stream dispatcher.
//!
//! The registry is built once, before serving starts, and is read-only
//! afterwards. The dispatcher consumes one stream's inbound frames in
//! arrival order and answers every decoded request with exactly one reply —
//! a success, a handler failure, or method-not-found — carrying the
//! request's correlation id. A framing failure is fatal: the stream ends
//! there and no later bytes are processed.

use vstd::prelude::*;

use crate::codec::{lemma_parse_frame_bounds, parse_frame, DecodeError, GorumsDecoder};
use crate::envelope::{Envelope, EnvelopeData};

verus! {

/// Status code of a reply to a request whose method no handler serves.
pub const STATUS_NOT_FOUND: u32 = 12;

/// Status code surfaced to the transport when a stream dies of a framing
/// failure.
pub const STATUS_INTERNAL: u32 = 13;

/// A handler capability: a pure function-like object over payload bytes. It
/// owns no reference into the registry or the dispatcher.
pub trait Handler {
    /// Serves one request payload: the reply payload, or a status code
    /// describing the failure.
    fn handle(&self, payload: &Vec<u8>) -> Result<Vec<u8>, u32>;
}

// ---------------------------------------------------------------------------
// Reply shapes.
// ---------------------------------------------------------------------------

/// The reply for a request whose handler returned `out`: same correlation
/// id, same method, the handler's output as payload, no status.
pub open spec fn success_reply(req: EnvelopeData, out: Seq<u8>) -> EnvelopeData {
    EnvelopeData {
        correlation_id: req.correlation_id,
        method: req.method,
        payload: out,
        status: None,
    }
}

/// The reply for a request that failed with `code`: same correlation id,
/// same method, empty payload, the code as status.
pub open spec fn failure_reply(req: EnvelopeData, code: u32) -> EnvelopeData {
    EnvelopeData {
        correlation_id: req.correlation_id,
        method: req.method,
        payload: Seq::empty(),
        status: Some(code),
    }
}

/// Whether `rep` is a reply the dispatcher may give to `req`: a success
/// carrying some output, or a failure carrying some status code.
pub open spec fn is_reply_to(req: EnvelopeData, rep: EnvelopeData) -> bool {
    ||| (exists|out: Seq<u8>| rep == success_reply(req, out))
    ||| (exists|code: u32| rep == failure_reply(req, code))
}

/// Correlation preservation: every reply — success, handler failure or
/// method-not-found — carries the request's correlation id and its method,
/// so the caller can match it to the request whatever order replies arrive
/// in.
pub proof fn lemma_reply_correlation(req: EnvelopeData, rep: EnvelopeData)
    requires
        is_reply_to(req, rep),
    ensures
        rep.correlation_id == req.correlation_id,
        rep.method == req.method,
{
}

/// Builds the success reply for `req` carrying the handler's output.
pub fn build_success_reply(req: &Envelope, payload: Vec<u8>) -> (r: Envelope)
    ensures
        r@ == success_reply(req@, payload@),
{
    let r = Envelope {
        correlation_id: req.correlation_id,
        method: req.method.clone(),
        payload,
        status: None,
    };
    proof {
        assert(r@ =~= success_reply(req@, r.payload@));
    }
    r
}

/// Builds the failure reply for `req` carrying `code`.
pub fn build_failure_reply(req: &Envelope, code: u32) -> (r: Envelope)
    ensures
        r@ == failure_reply(req@, code),
{
    let r = Envelope {
        correlation_id: req.correlation_id,
        method: req.method.clone(),
        payload: Vec::new(),
        status: Some(code),
    };
    proof {
        assert(r@ =~= failure_reply(req@, code));
    }
    r
}

/// Builds the one reply a handler outcome deserves: the output as a success
/// reply, or the code as a failure reply.
pub fn build_reply(req: &Envelope, outcome: Result<Vec<u8>, u32>) -> (r: Envelope)
    ensures
        match outcome {
            Ok(out) => r@ == success_reply(req@, out@),
            Err(code) => r@ == failure_reply(req@, code),
        },
{
    match outcome {
        Ok(out) => build_success_reply(req, out),
        Err(code) => build_failure_reply(req, code),
    }
}

// ---------------------------------------------------------------------------
// The registry: a mapping from method name to handler, keys unique.
// ---------------------------------------------------------------------------

/// No two entries share a method name.
pub open spec fn keys_unique<H>(pairs: Seq<(String, H)>) -> bool {
    forall|i: int, j: int| 0 <= i < j < pairs.len() ==> pairs[i].0@ != pairs[j].0@
}

/// The mapping the entries spell out.
pub open spec fn methods_map<H>(pairs: Seq<(String, H)>) -> Map<Seq<char>, H> {
    Map::new(
        |k: Seq<char>| exists|i: int| 0 <= i < pairs.len() && pairs[i].0@ == k,
        |k: Seq<char>|
            pairs[choose|i: int| 0 <= i < pairs.len() && pairs[i].0@ == k].1,
    )
}

proof fn lemma_entries_insert<H>(oldp: Seq<(String, H)>, newp: Seq<(String, H)>, idx: int)
    requires
        keys_unique(oldp),
        0 <= idx < newp.len(),
        newp.len() >= oldp.len(),
        newp.len() <= oldp.len() + 1,
        idx < oldp.len() ==> newp.len() == oldp.len() && oldp[idx].0@ == newp[idx].0@,
        idx == oldp.len() ==> newp.len() == oldp.len() + 1,
        forall|j: int| 0 <= j < newp.len() && j != idx ==> newp[j] == oldp[j],
        forall|j: int| 0 <= j < oldp.len() && j != idx ==> oldp[j].0@ != newp[idx].0@,
    ensures
        keys_unique(newp),
        methods_map(newp) == methods_map(oldp).insert(newp[idx].0@, newp[idx].1),
{
    let key = newp[idx].0@;
    let h = newp[idx].1;
    assert(keys_unique(newp)) by {
        assert forall|a: int, b: int| 0 <= a < b < newp.len() implies newp[a].0@ != newp[b].0@ by {
            if a != idx && b != idx {
                assert(oldp[a].0@ != oldp[b].0@);
            }
        }
    }
    let m_new = methods_map(newp);
    let m_ins = methods_map(oldp).insert(key, h);
    assert forall|k: Seq<char>| #[trigger] m_new.dom().contains(k) implies m_ins.dom().contains(
        k,
    ) by {
        let i = choose|i: int| 0 <= i < newp.len() && newp[i].0@ == k;
        if i != idx {
            assert(0 <= i < oldp.len() && oldp[i].0@ == k);
        }
    }
    assert forall|k: Seq<char>| #[trigger] m_ins.dom().contains(k) implies m_new.dom().contains(
        k,
    ) by {
        if k != key {
            let i = choose|i: int| 0 <= i < oldp.len() && oldp[i].0@ == k;
            assert(i != idx);
            assert(newp[i].0@ == k);
        }
    }
    assert forall|k: Seq<char>| #[trigger] m_new.dom().contains(k) implies m_new[k]
        == m_ins[k] by {
        let i = choose|i: int| 0 <= i < newp.len() && newp[i].0@ == k;
        if k == key {
            assert(i == idx) by {
                if i != idx {
                    assert(oldp[i].0@ != key);
                }
            }
            assert(m_new[k] == h);
        } else {
            assert(i != idx);
            assert(0 <= i < oldp.len() && oldp[i].0@ == k);
            let i2 = choose|i2: int| 0 <= i2 < oldp.len() && oldp[i2].0@ == k;
            assert(i2 == i);
            assert(i2 != idx);
            assert(m_ins[k] == oldp[i2].1);
            assert(m_new[k] == newp[i].1);
        }
    }
    assert(m_new =~= m_ins);
}

/// Collects handlers before the server starts serving: insert or replace,
/// one entry per method name.
pub struct GorumsServiceBuilder<H> {
    methods: Vec<(String, H)>,
}

impl<H> View for GorumsServiceBuilder<H> {
    type V = Map<Seq<char>, H>;

    closed spec fn view(&self) -> Map<Seq<char>, H> {
        methods_map(self.methods@)
    }
}

impl<H> GorumsServiceBuilder<H> {
    /// Well-formed: no two entries share a method name.
    pub closed spec fn wf(&self) -> bool {
        keys_unique(self.methods@)
    }

    /// An empty registry under construction.
    pub fn new() -> (r: Self)
        ensures
            r.wf(),
            r@ == Map::<Seq<char>, H>::empty(),
    {
        let r = GorumsServiceBuilder { methods: Vec::new() };
        proof {
            assert(r@ =~= Map::<Seq<char>, H>::empty());
        }
        r
    }

    /// Inserts the handler for `method`, replacing any earlier entry for
    /// the same name.
    #[verifier::loop_isolation(false)]
    pub fn add_handler(&mut self, method: String, handler: H)
        requires
            old(self).wf(),
        ensures
            final(self).wf(),
            final(self)@ == old(self)@.insert(method@, handler),
    {
        let ghost oldp = self.methods@;
        let ghost key = method@;
        let n = self.methods.len();
        let mut i: usize = 0;
        while i < n
            invariant
                n == self.methods@.len(),
                i <= n,
                self.methods@ == oldp,
                key == method@,
                forall|j: int| 0 <= j < i ==> oldp[j].0@ != key,
                keys_unique(oldp),
            decreases n - i,
        {
            let hit = self.methods[i].0.eq(&method);
            if hit {
                self.methods.remove(i);
                self.methods.insert(i, (method, handler));
                proof {
                    assert(self.methods@[i as int].0@ == key);
                    assert(forall|j: int|
                        0 <= j < self.methods@.len() && j != i ==> self.methods@[j] == oldp[j]);
                    assert(forall|j: int|
                        0 <= j < oldp.len() && j != i ==> oldp[j].0@ != key) by {
                        assert(oldp[i as int].0@ == key);
                    }
                    lemma_entries_insert(oldp, self.methods@, i as int);
                }
                return ;
            }
            i = i + 1;
        }
        self.methods.push((method, handler));
        proof {
            assert(self.methods@[oldp.len() as int].0@ == key);
            lemma_entries_insert(oldp, self.methods@, oldp.len() as int);
        }
    }

    /// Freezes the registry: serving may now share it read-only.
    pub fn build(self) -> (r: GorumsService<H>)
        requires
            self.wf(),
        ensures
            r.wf(),
            r@ == self@,
    {
        GorumsService { methods: self.methods }
    }
}

/// The frozen registry a server dispatches with: read-only once built, so
/// any number of streams may consult it at once.
pub struct GorumsService<H> {
    methods: Vec<(String, H)>,
}

impl<H> View for GorumsService<H> {
    type V = Map<Seq<char>, H>;

    closed spec fn view(&self) -> Map<Seq<char>, H> {
        methods_map(self.methods@)
    }
}

impl<H> GorumsService<H> {
    /// Well-formed: no two entries share a method name.
    pub closed spec fn wf(&self) -> bool {
        keys_unique(self.methods@)
    }

    /// Pure lookup of the handler registered for `method`.
    pub fn lookup(&self, method: &String) -> (r: Option<&H>)
        requires
            self.wf(),
        ensures
            match r {
                Some(h) => self@.contains_key(method@) && *h == self@[method@],
                None => !self@.contains_key(method@),
            },
    {
        let n = self.methods.len();
        let mut i: usize = 0;
        while i < n
            invariant
                self.wf(),
                n == self.methods@.len(),
                i <= n,
                forall|j: int| 0 <= j < i ==> self.methods@[j].0@ != method@,
            decreases n - i,
        {
            if self.methods[i].0.eq(method) {
                proof {
                    let pairs = self.methods@;
                    assert(pairs[i as int].0@ == method@);
                    let j = choose|j: int| 0 <= j < pairs.len() && pairs[j].0@ == method@;
                    assert(j == i) by {
                        if j != i {
                            assert(pairs[j].0@ != pairs[i as int].0@);
                        }
                    }
                }
                return Some(&self.methods[i].1);
            }
            i = i + 1;
        }
        proof {
            if self@.contains_key(method@) {
                let pairs = self.methods@;
                let j = choose|j: int| 0 <= j < pairs.len() && pairs[j].0@ == method@;
                assert(false);
            }
        }
        None
    }
}

// ---------------------------------------------------------------------------
// Dispatch: exactly one reply per decoded request.
// ---------------------------------------------------------------------------

/// The envelopes of the frames at the front of `s`, in arrival order, up to
/// the first framing failure or the end of the input.
pub open spec fn stream_frames(s: Seq<u8>) -> Seq<EnvelopeData>
    decreases s.len(),
{
    if s.len() == 0 {
        Seq::empty()
    } else {
        match parse_frame(s) {
            Ok((e, n)) => if 0 < n <= s.len() {
                seq![e] + stream_frames(s.skip(n))
            } else {
                seq![e]
            },
            Err(_) => Seq::empty(),
        }
    }
}

/// The framing failure that tears the stream down: what stops the frames of
/// [`stream_frames`], unless the input ends cleanly at a frame boundary.
pub open spec fn stream_error(s: Seq<u8>) -> Option<DecodeError>
    decreases s.len(),
{
    if s.len() == 0 {
        None
    } else {
        match parse_frame(s) {
            Ok((e, n)) => if 0 < n <= s.len() {
                stream_error(s.skip(n))
            } else {
                None
            },
            Err(err) => Some(err),
        }
    }
}

/// What one stream's consumption loop produced: the replies, one per decoded
/// request in arrival order, and the framing failure that ended the stream,
/// if one did.
pub struct StreamOutput {
    /// One reply per decoded request, in the requests' arrival order.
    pub replies: Vec<Envelope>,
    /// The framing failure that tore the stream down, or `None` when the
    /// inbound bytes ended cleanly at a frame boundary.
    pub error: Option<DecodeError>,
}

impl<H: Handler> GorumsService<H> {
    /// Serves one decoded request: looks the method up, invokes its handler,
    /// and builds the one reply the request is owed. A request is never
    /// dropped: an unknown method or a failed handler still gets a
    /// correlated failure reply.
    pub fn dispatch(&self, req: &Envelope) -> (reply: Envelope)
        requires
            self.wf(),
        ensures
            is_reply_to(req@, reply@),
            reply@.correlation_id == req@.correlation_id,
            reply@.method == req@.method,
            !self@.contains_key(req@.method) ==> reply@ == failure_reply(
                req@,
                STATUS_NOT_FOUND,
            ),
    {
        match self.lookup(&req.method) {
            Some(handler) => {
                let outcome = handler.handle(&req.payload);
                let ghost gout = outcome;
                let reply = build_reply(req, outcome);
                proof {
                    match gout {
                        Ok(out) => {
                            assert(reply@ == success_reply(req@, out@));
                        },
                        Err(code) => {
                            assert(reply@ == failure_reply(req@, code));
                        },
                    }
                }
                reply
            },
            None => build_failure_reply(req, STATUS_NOT_FOUND),
        }
    }

    /// Drives one stream's protocol loop over its inbound bytes: decodes
    /// each frame in arrival order, dispatches it, and collects exactly one
    /// reply per decoded request. The first framing failure ends the stream;
    /// frames after it are never processed.
    #[verifier::loop_isolation(false)]
    pub fn node_stream(&self, input: &Vec<u8>) -> (out: StreamOutput)
        requires
            self.wf(),
        ensures
            out.replies@.len() == stream_frames(input@).len(),
            forall|i: int|
                0 <= i < out.replies@.len() ==> is_reply_to(
                    stream_frames(input@)[i],
                    (#[trigger] out.replies@[i])@,
                ),
            forall|i: int|
                0 <= i < out.replies@.len() ==> (#[trigger] out.replies@[i])@.correlation_id
                    == stream_frames(input@)[i].correlation_id && out.replies@[i]@.method
                    == stream_frames(input@)[i].method,
            forall|i: int|
                0 <= i < out.replies@.len() && !self@.contains_key(stream_frames(input@)[i].method)
                    ==> (#[trigger] out.replies@[i])@ == failure_reply(
                    stream_frames(input@)[i],
                    STATUS_NOT_FOUND,
                ),
            out.error == stream_error(input@),
    {
        let ghost frames = stream_frames(input@);
        let mut decoder = GorumsDecoder {  };
        let mut replies: Vec<Envelope> = Vec::new();
        let mut pos: usize = 0;
        let n = input.len();
        proof {
            assert(input@.skip(0) =~= input@);
            assert(frames.skip(0) =~= frames);
        }
        while pos < n
            invariant
                pos <= n,
                replies@.len() <= frames.len(),
                stream_frames(input@.skip(pos as int)) =~= frames.skip(replies@.len() as int),
                stream_error(input@.skip(pos as int)) == stream_error(input@),
                forall|i: int|
                    0 <= i < replies@.len() ==> is_reply_to(
                        frames[i],
                        (#[trigger] replies@[i])@,
                    ),
                forall|i: int|
                    0 <= i < replies@.len() ==> (#[trigger] replies@[i])@.correlation_id
                        == frames[i].correlation_id && replies@[i]@.method == frames[i].method,
                forall|i: int|
                    0 <= i < replies@.len() && !self@.contains_key(frames[i].method) ==> (
                    #[trigger] replies@[i])@ == failure_reply(frames[i], STATUS_NOT_FOUND),
            decreases n - pos,
        {
            let ghost suffix = input@.skip(pos as int);
            let ghost done = replies@.len() as int;
            match decoder.decode_msg(input, pos) {
                Ok((env, next)) => {
                    proof {
                        lemma_parse_frame_bounds(suffix);
                        assert(stream_frames(suffix) == seq![env@] + stream_frames(
                            suffix.skip(next - pos),
                        ));
                        assert(stream_error(suffix) == stream_error(suffix.skip(next - pos)));
                        assert(suffix.skip(next - pos) =~= input@.skip(next as int));
                        assert(frames.skip(done)[0] == env@);
                        assert(frames[done] == env@);
                        assert(stream_frames(suffix.skip(next - pos)) =~= frames.skip(done).skip(
                            1,
                        ));
                        assert(frames.skip(done).skip(1) =~= frames.skip(done + 1));
                        assert(stream_frames(input@.skip(next as int)) =~= frames.skip(done + 1));
                    }
                    let reply = self.dispatch(&env);
                    replies.push(reply);
                    pos = next;
                },
                Err(e) => {
                    proof {
                        assert(stream_frames(suffix) =~= Seq::<EnvelopeData>::empty());
                        assert(frames.skip(done).len() == 0);
                        assert(replies@.len() == frames.len());
                        assert(stream_error(suffix) == Some(e));
                    }
                    return StreamOutput { replies, error: Some(e) };
                },
            }
        }
        proof {
            assert(input@.skip(pos as int).len() == 0);
            assert(stream_frames(input@.skip(pos as int)) =~= Seq::<EnvelopeData>::empty());
            assert(frames.skip(replies@.len() as int).len() == 0);
            assert(replies@.len() == frames.len());
        }
        StreamOutput { replies, error: None }
    }
}

} // verus!
