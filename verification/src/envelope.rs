//! The envelope: the unit of correlation and dispatch.

use vstd::prelude::*;

use crate::Message;

verus! {

/// The abstract value of an [`Envelope`]: what the contracts of the codec
/// and the dispatcher speak of.
#[verifier::ext_equal]
pub struct EnvelopeData {
    /// Caller-assigned identifier linking a request to its reply.
    pub correlation_id: u64,
    /// Name of the logical RPC to invoke; opaque to the framing layer.
    pub method: Seq<char>,
    /// Opaque application bytes; never inspected by codec or dispatcher.
    pub payload: Seq<u8>,
    /// Optional outcome code; present only on replies that report a failure.
    pub status: Option<u32>,
}

impl EnvelopeData {
    /// The same envelope with the payload cleared: what the metadata
    /// segment of a frame carries.
    pub open spec fn metadata_view(self) -> EnvelopeData {
        EnvelopeData { payload: Seq::empty(), ..self }
    }
}

/// One message on the wire: correlation id, method name, opaque payload and
/// an optional status code.
#[derive(Debug)]
pub struct Envelope {
    /// Caller-assigned identifier linking a request to its reply.
    pub correlation_id: u64,
    /// Name of the logical RPC to invoke; opaque to the framing layer.
    pub method: String,
    /// Opaque application bytes; never inspected by codec or dispatcher.
    pub payload: Vec<u8>,
    /// Optional outcome code; present only on replies that report a failure.
    pub status: Option<u32>,
}

impl View for Envelope {
    type V = EnvelopeData;

    open spec fn view(&self) -> EnvelopeData {
        EnvelopeData {
            correlation_id: self.correlation_id,
            method: self.method@,
            payload: self.payload@,
            status: self.status,
        }
    }
}

impl Clone for Envelope {
    fn clone(&self) -> (r: Self)
        ensures
            r@ == self@,
    {
        Envelope {
            correlation_id: self.correlation_id,
            method: self.method.clone(),
            payload: clone_bytes(&self.payload),
            status: self.status,
        }
    }
}

impl PartialEq for Envelope {
    fn eq(&self, other: &Self) -> (r: bool) {
        let r = self.correlation_id == other.correlation_id && str_eq(&self.method, &other.method)
            && bytes_eq(&self.payload, &other.payload) && opt_u32_eq(&self.status, &other.status);
        proof {
            if r {
                assert(self@ =~= other@);
            } else if self@ == other@ {
                assert(self.method@ == other.method@);
                assert(self.payload@ == other.payload@);
                assert(false);
            }
        }
        r
    }
}

impl vstd::std_specs::cmp::PartialEqSpecImpl for Envelope {
    open spec fn obeys_eq_spec() -> bool {
        true
    }

    open spec fn eq_spec(&self, other: &Envelope) -> bool {
        self@ == other@
    }
}

impl Message for Envelope {
    open spec fn metadata_model(&self) -> EnvelopeData {
        self@.metadata_view()
    }

    open spec fn payload_model(&self) -> Seq<u8> {
        self@.payload
    }

    fn get_metadata(&self) -> (md: Envelope) {
        let md = Envelope {
            correlation_id: self.correlation_id,
            method: self.method.clone(),
            payload: Vec::new(),
            status: self.status,
        };
        proof {
            assert(md@ =~= self@.metadata_view());
        }
        md
    }

    fn get_message(&self) -> (msg: &Vec<u8>) {
        &self.payload
    }
}

/// Byte-wise copy with a full contract; used where a derived clone would
/// say nothing about the result.
pub fn clone_bytes(v: &Vec<u8>) -> (r: Vec<u8>)
    ensures
        r@ == v@,
{
    let mut r: Vec<u8> = Vec::new();
    let mut i: usize = 0;
    while i < v.len()
        invariant
            i <= v@.len(),
            r@ =~= v@.take(i as int),
        decreases v@.len() - i,
    {
        r.push(v[i]);
        i = i + 1;
    }
    proof {
        assert(r@ =~= v@);
    }
    r
}

/// Byte-wise equality with a full contract.
pub fn bytes_eq(a: &Vec<u8>, b: &Vec<u8>) -> (r: bool)
    ensures
        r == (a@ == b@),
{
    if a.len() != b.len() {
        proof {
            assert(a@.len() != b@.len());
        }
        return false;
    }
    let mut i: usize = 0;
    while i < a.len()
        invariant
            i <= a@.len(),
            a@.len() == b@.len(),
            forall|j: int| 0 <= j < i ==> a@[j] == b@[j],
        decreases a@.len() - i,
    {
        if a[i] != b[i] {
            return false;
        }
        i = i + 1;
    }
    proof {
        assert(a@ =~= b@);
    }
    true
}

fn str_eq(a: &String, b: &String) -> (r: bool)
    ensures
        r == (a@ == b@),
{
    a.eq(b)
}

fn opt_u32_eq(a: &Option<u32>, b: &Option<u32>) -> (r: bool)
    ensures
        r == (a == b),
{
    match (a, b) {
        (Some(x), Some(y)) => *x == *y,
        (None, None) => true,
        _ => false,
    }
}

} // verus!
