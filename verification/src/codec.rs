//! The frame codec: lossless byte-level transcoding of one envelope.
//!
//! One frame is two length-prefixed segments, in this order:
//! 1. the metadata segment: a variable-length integer giving the byte length,
//!    then that many bytes holding the correlation id, the method name and
//!    the optional status as tagged fields (the payload field stays empty);
//! 2. the payload segment: a variable-length integer giving the byte length,
//!    then exactly that many raw, uninterpreted bytes.
//!
//! The two segments are decoded independently: the payload bytes are never
//! parsed as metadata, whatever they happen to contain.

use vstd::prelude::*;

use vstd::utf8::{decode_utf8, encode_utf8, valid_utf8};

use crate::envelope::{Envelope, EnvelopeData};

verus! {

/// Why a frame failed to decode. Every framing failure is fatal to the
/// stream it came from.
#[derive(Clone, Copy, Debug, PartialEq, Eq, Structural)]
pub enum DecodeError {
    /// A length prefix was truncated, over ten bytes long, or encoded a
    /// value that does not fit in 64 bits.
    MalformedVarint,
    /// The metadata segment's declared length exceeds the remaining bytes.
    TruncatedMetadata,
    /// The metadata segment's bytes do not hold well-formed tagged fields.
    InvalidMetadata,
    /// The payload segment's declared length exceeds the remaining bytes.
    TruncatedPayload,
}

/// Field tag of the correlation id in the metadata segment.
pub const TAG_CORRELATION_ID: u8 = 8;

/// Field tag of the method name in the metadata segment.
pub const TAG_METHOD: u8 = 18;

/// Field tag of the status code in the metadata segment.
pub const TAG_STATUS: u8 = 32;

// ---------------------------------------------------------------------------
// Variable-length integers: base-128, least significant group first, the
// high bit of every byte but the last set.
// ---------------------------------------------------------------------------

/// The variable-length encoding of `n`.
pub open spec fn varint_encoding(n: nat) -> Seq<u8>
    decreases n,
{
    if n < 128 {
        seq![n as u8]
    } else {
        seq![(n % 128 + 128) as u8] + varint_encoding(n / 128)
    }
}

/// Reads one variable-length integer from the front of `s`: the value and
/// how many bytes it occupied, or `None` if `s` is empty or ends inside the
/// integer.
pub open spec fn parse_varint(s: Seq<u8>) -> Option<(nat, int)>
    decreases s.len(),
{
    if s.len() == 0 {
        None
    } else if s[0] < 128 {
        Some((s[0] as nat, 1))
    } else {
        match parse_varint(s.drop_first()) {
            Some((v, k)) => Some((((s[0] - 128) + 128 * v) as nat, k + 1)),
            None => None,
        }
    }
}

/// [`parse_varint`] restricted to what the decoder accepts: at most ten
/// bytes, and a value that fits in 64 bits.
pub open spec fn take_varint(s: Seq<u8>) -> Option<(u64, int)> {
    match parse_varint(s) {
        Some((v, k)) => if k <= 10 && v <= u64::MAX as nat {
            Some((v as u64, k))
        } else {
            None
        },
        None => None,
    }
}

/// 128 to the power `k`; the weight of the `k`-th byte group.
spec fn pow128(k: nat) -> nat
    decreases k,
{
    if k == 0 {
        1nat
    } else {
        128 * pow128((k - 1) as nat)
    }
}

proof fn lemma_pow128_pos(k: nat)
    ensures
        pow128(k) >= 1,
    decreases k,
{
    if k > 0 {
        lemma_pow128_pos((k - 1) as nat);
    }
}

proof fn lemma_pow128_monotone(a: nat, b: nat)
    requires
        a <= b,
    ensures
        0 < pow128(a) <= pow128(b),
    decreases b,
{
    lemma_pow128_pos(a);
    if a < b {
        lemma_pow128_monotone(a, (b - 1) as nat);
        assert(pow128(b) == 128 * pow128((b - 1) as nat));
    }
}

proof fn lemma_parse_varint_bounds(s: Seq<u8>)
    ensures
        match parse_varint(s) {
            Some((v, k)) => 1 <= k <= s.len(),
            None => true,
        },
    decreases s.len(),
{
    if s.len() > 0 && s[0] >= 128 {
        lemma_parse_varint_bounds(s.drop_first());
    }
}

/// Parsing starts over wherever an encoding was laid down: whatever follows
/// it, the value and the length come back exactly.
proof fn lemma_parse_varint_prepend(n: nat, rest: Seq<u8>)
    ensures
        parse_varint(varint_encoding(n) + rest) == Some((n, varint_encoding(n).len() as int)),
    decreases n,
{
    let s = varint_encoding(n) + rest;
    if n < 128 {
        assert(s[0] == n as u8);
    } else {
        let b = (n % 128 + 128) as u8;
        assert(s[0] == b);
        assert(b >= 128);
        lemma_parse_varint_prepend(n / 128, rest);
        assert(s.drop_first() =~= varint_encoding(n / 128) + rest);
        vstd::arithmetic::div_mod::lemma_fundamental_div_mod(n as int, 128);
        assert(((s[0] - 128) + 128 * (n / 128)) as nat == n);
    }
}

proof fn lemma_varint_encoding_len(n: nat, k: nat)
    requires
        1 <= k,
        n < pow128(k),
    ensures
        1 <= varint_encoding(n).len() <= k,
    decreases k,
{
    if n >= 128 {
        assert(k >= 2) by {
            reveal_with_fuel(pow128, 3);
            if k < 2 {
                assert(pow128(k) == 128);
            }
        }
        assert(pow128(k) == 128 * pow128((k - 1) as nat));
        assert(n / 128 < pow128((k - 1) as nat)) by (nonlinear_arith)
            requires
                n < 128 * pow128((k - 1) as nat),
        ;
        lemma_varint_encoding_len(n / 128, (k - 1) as nat);
    }
}

/// A value that fits in 64 bits is encoded in at most ten bytes, so the
/// decoder takes back exactly what the encoder laid down.
proof fn lemma_take_varint_prepend(n: u64, rest: Seq<u8>)
    ensures
        take_varint(varint_encoding(n as nat) + rest) == Some(
            (n, varint_encoding(n as nat).len() as int),
        ),
        1 <= varint_encoding(n as nat).len() <= 10,
{
    lemma_parse_varint_prepend(n as nat, rest);
    assert(pow128(10) == 0x400000000000000000) by {
        reveal_with_fuel(pow128, 11);
    }
    lemma_varint_encoding_len(n as nat, 10);
}

// ---------------------------------------------------------------------------
// The metadata segment: tagged fields in a fixed order, each omitted when it
// carries its empty value, together filling the segment exactly.
// ---------------------------------------------------------------------------

/// Bytes of the correlation id field; absent when the id is zero.
pub open spec fn correlation_id_field(id: u64) -> Seq<u8> {
    if id == 0 {
        Seq::empty()
    } else {
        seq![TAG_CORRELATION_ID] + varint_encoding(id as nat)
    }
}

/// Bytes of the method field; absent when the method is empty.
pub open spec fn method_field(m: Seq<char>) -> Seq<u8> {
    let b = encode_utf8(m);
    if b.len() == 0 {
        Seq::empty()
    } else {
        seq![TAG_METHOD] + varint_encoding(b.len()) + b
    }
}

/// Bytes of the status field; absent when there is no status.
pub open spec fn status_field(st: Option<u32>) -> Seq<u8> {
    match st {
        None => Seq::empty(),
        Some(c) => seq![TAG_STATUS] + varint_encoding(c as nat),
    }
}

/// The bytes of the metadata segment for `e`. The payload is carried by its
/// own segment and never duplicated here.
pub open spec fn metadata_bytes(e: EnvelopeData) -> Seq<u8> {
    correlation_id_field(e.correlation_id) + method_field(e.method) + status_field(e.status)
}

pub open spec fn parse_correlation_id_field(s: Seq<u8>) -> Option<(u64, Seq<u8>)> {
    if s.len() > 0 && s[0] == TAG_CORRELATION_ID {
        match take_varint(s.drop_first()) {
            Some((v, k)) => Some((v, s.drop_first().skip(k))),
            None => None,
        }
    } else {
        Some((0u64, s))
    }
}

pub open spec fn parse_method_field(s: Seq<u8>) -> Option<(Seq<char>, Seq<u8>)> {
    if s.len() > 0 && s[0] == TAG_METHOD {
        match take_varint(s.drop_first()) {
            Some((len, k)) => {
                let rest = s.drop_first().skip(k);
                if len <= rest.len() && valid_utf8(rest.take(len as int)) {
                    Some((decode_utf8(rest.take(len as int)), rest.skip(len as int)))
                } else {
                    None
                }
            },
            None => None,
        }
    } else {
        Some((Seq::empty(), s))
    }
}

pub open spec fn parse_status_field(s: Seq<u8>) -> Option<(Option<u32>, Seq<u8>)> {
    if s.len() > 0 && s[0] == TAG_STATUS {
        match take_varint(s.drop_first()) {
            Some((v, k)) => if v <= u32::MAX as u64 {
                Some((Some(v as u32), s.drop_first().skip(k)))
            } else {
                None
            },
            None => None,
        }
    } else {
        Some((None::<u32>, s))
    }
}

/// Decodes a whole metadata segment: the three fields in order, each
/// optional, consuming the segment exactly. The payload field comes back
/// empty; the payload segment is decoded separately.
pub open spec fn parse_metadata(s: Seq<u8>) -> Option<EnvelopeData> {
    match parse_correlation_id_field(s) {
        None => None,
        Some((id, s1)) => match parse_method_field(s1) {
            None => None,
            Some((m, s2)) => match parse_status_field(s2) {
                None => None,
                Some((st, s3)) => if s3.len() == 0 {
                    Some(
                        EnvelopeData {
                            correlation_id: id,
                            method: m,
                            payload: Seq::empty(),
                            status: st,
                        },
                    )
                } else {
                    None
                },
            },
        },
    }
}

// ---------------------------------------------------------------------------
// Whole frames.
// ---------------------------------------------------------------------------

/// The wire frame of `e`: length-prefixed metadata, then the length-prefixed
/// raw payload.
pub open spec fn frame_bytes(e: EnvelopeData) -> Seq<u8> {
    let md = metadata_bytes(e);
    varint_encoding(md.len()) + md + varint_encoding(e.payload.len()) + e.payload
}

/// Reads one frame from the front of `s`: the envelope and how many bytes
/// the frame occupied, or which framing failure stopped it.
pub open spec fn parse_frame(s: Seq<u8>) -> Result<(EnvelopeData, int), DecodeError> {
    match take_varint(s) {
        None => Err(DecodeError::MalformedVarint),
        Some((md_len, k1)) => if s.len() < k1 + md_len {
            Err(DecodeError::TruncatedMetadata)
        } else {
            match parse_metadata(s.subrange(k1, k1 + md_len)) {
                None => Err(DecodeError::InvalidMetadata),
                Some(meta) => match take_varint(s.skip(k1 + md_len)) {
                    None => Err(DecodeError::MalformedVarint),
                    Some((p_len, k2)) => if s.len() < k1 + md_len + k2 + p_len {
                        Err(DecodeError::TruncatedPayload)
                    } else {
                        Ok(
                            (
                                EnvelopeData {
                                    payload: s.subrange(
                                        k1 + md_len + k2,
                                        k1 + md_len + k2 + p_len,
                                    ),
                                    ..meta
                                },
                                k1 + md_len + k2 + p_len,
                            ),
                        )
                    },
                },
            }
        },
    }
}

/// A decoded frame occupies at least its two length prefixes and never more
/// than the input.
pub proof fn lemma_parse_frame_bounds(s: Seq<u8>)
    ensures
        match parse_frame(s) {
            Ok((e, n)) => 2 <= n <= s.len(),
            Err(_) => true,
        },
{
    lemma_parse_varint_bounds(s);
    if parse_frame(s) is Ok {
        let (md_len, k1) = take_varint(s).unwrap();
        lemma_parse_varint_bounds(s.skip(k1 + md_len));
    }
}

// ---------------------------------------------------------------------------
// Round-trip identity.
// ---------------------------------------------------------------------------

proof fn lemma_encode_utf8_nonempty(m: Seq<char>)
    ensures
        (encode_utf8(m).len() == 0) <==> (m.len() == 0),
{
    if m.len() > 0 {
        assert(encode_utf8(m) == vstd::utf8::encode_scalar(m[0] as u32) + encode_utf8(
            m.drop_first(),
        ));
        assert(vstd::utf8::encode_scalar(m[0] as u32).len() >= 1);
    }
}

/// Decoding a metadata segment gives back exactly the envelope it was
/// encoded from, with the payload empty.
pub proof fn lemma_parse_metadata_round_trip(e: EnvelopeData)
    requires
        metadata_bytes(e).len() <= u64::MAX,
    ensures
        parse_metadata(metadata_bytes(e)) == Some(e.metadata_view()),
{
    let idf = correlation_id_field(e.correlation_id);
    let b = encode_utf8(e.method);
    let mf = method_field(e.method);
    let sf = status_field(e.status);
    let s = metadata_bytes(e);
    let s1 = mf + sf;
    if e.correlation_id == 0 {
        assert(s =~= s1);
        if s1.len() > 0 {
            if mf.len() > 0 {
                assert(s1[0] == TAG_METHOD);
            } else {
                assert(s1 =~= sf);
                assert(s1[0] == TAG_STATUS);
            }
        }
        assert(parse_correlation_id_field(s) == Some((e.correlation_id, s1)));
    } else {
        let vi = varint_encoding(e.correlation_id as nat);
        assert(s[0] == TAG_CORRELATION_ID);
        assert(s.drop_first() =~= vi + s1);
        lemma_take_varint_prepend(e.correlation_id, s1);
        assert(s.drop_first().skip(vi.len() as int) =~= s1);
        assert(parse_correlation_id_field(s) == Some((e.correlation_id, s1)));
    }
    if e.method.len() == 0 {
        assert(b.len() == 0);
        assert(s1 =~= sf);
        if s1.len() > 0 {
            assert(s1[0] == TAG_STATUS);
        }
        assert(parse_method_field(s1) == Some((Seq::<char>::empty(), s1)));
        assert(Seq::<char>::empty() =~= e.method);
    } else {
        lemma_encode_utf8_nonempty(e.method);
        assert(b.len() <= mf.len());
        assert(mf.len() <= s.len());
        let bl = b.len() as u64;
        assert(bl as nat == b.len());
        assert(s1[0] == TAG_METHOD);
        let vm = varint_encoding(b.len());
        assert(s1.drop_first() =~= vm + (b + sf));
        lemma_take_varint_prepend(bl, b + sf);
        let rest = s1.drop_first().skip(vm.len() as int);
        assert(rest =~= b + sf);
        assert(rest.take(bl as int) =~= b);
        vstd::utf8::encode_utf8_valid_utf8(e.method);
        vstd::utf8::encode_utf8_decode_utf8(e.method);
        assert(rest.skip(bl as int) =~= sf);
        assert(parse_method_field(s1) == Some((e.method, sf)));
    }
    match e.status {
        None => {
            assert(parse_status_field(sf) == Some((None::<u32>, sf)));
            assert(sf.len() == 0);
        },
        Some(c) => {
            let vs = varint_encoding(c as nat);
            assert(sf[0] == TAG_STATUS);
            assert(sf.drop_first() =~= vs + Seq::<u8>::empty());
            lemma_take_varint_prepend(c as u64, Seq::<u8>::empty());
            assert(sf.drop_first().skip(vs.len() as int) =~= Seq::<u8>::empty());
            assert((c as u64) <= u32::MAX as u64);
            assert(parse_status_field(sf) == Some((Some(c), Seq::<u8>::empty())));
        },
    }
    assert(parse_metadata(s) matches Some(d) && d =~= e.metadata_view());
}

/// Round-trip identity at the start of a longer stream: a frame followed by
/// anything decodes to the envelope it was encoded from, consuming exactly
/// the frame.
pub proof fn lemma_frame_round_trip_prefix(e: EnvelopeData, rest: Seq<u8>)
    requires
        metadata_bytes(e).len() <= u64::MAX,
        e.payload.len() <= u64::MAX,
    ensures
        parse_frame(frame_bytes(e) + rest) == Ok::<(EnvelopeData, int), DecodeError>(
            (e, frame_bytes(e).len() as int),
        ),
{
    let md = metadata_bytes(e);
    let pl = e.payload;
    let lv1 = varint_encoding(md.len());
    let lv2 = varint_encoding(pl.len());
    let s = frame_bytes(e) + rest;
    assert(s =~= lv1 + (md + lv2 + pl + rest));
    lemma_take_varint_prepend(md.len() as u64, md + lv2 + pl + rest);
    let k1 = lv1.len() as int;
    assert(take_varint(s) == Some((md.len() as u64, k1)));
    assert(s.len() >= k1 + md.len());
    assert(s.subrange(k1, k1 + md.len() as int) =~= md);
    lemma_parse_metadata_round_trip(e);
    let s_pl = s.skip(k1 + md.len() as int);
    assert(s_pl =~= lv2 + (pl + rest));
    lemma_take_varint_prepend(pl.len() as u64, pl + rest);
    let k2 = lv2.len() as int;
    assert(take_varint(s_pl) == Some((pl.len() as u64, k2)));
    let total = k1 + md.len() + k2 + pl.len();
    assert(s.len() >= total);
    assert(s.subrange(k1 + md.len() as int + k2, total as int) =~= pl);
    assert(total == frame_bytes(e).len());
    match parse_frame(s) {
        Ok((d, n)) => {
            assert(d =~= e);
            assert(n == total);
        },
        Err(_) => {
            assert(false);
        },
    }
}

/// Round-trip identity: decoding the frame of any envelope gives the
/// envelope back — its correlation id, method, status, and payload bytes —
/// consuming the whole frame.
pub proof fn lemma_frame_round_trip(e: EnvelopeData)
    requires
        metadata_bytes(e).len() <= u64::MAX,
        e.payload.len() <= u64::MAX,
    ensures
        parse_frame(frame_bytes(e)) == Ok::<(EnvelopeData, int), DecodeError>(
            (e, frame_bytes(e).len() as int),
        ),
{
    lemma_frame_round_trip_prefix(e, Seq::<u8>::empty());
    assert(frame_bytes(e) + Seq::<u8>::empty() =~= frame_bytes(e));
}

// ---------------------------------------------------------------------------
// Executable encoding.
// ---------------------------------------------------------------------------

/// Appends the variable-length encoding of `n` to `out`.
pub fn encode_varint(n: u64, out: &mut Vec<u8>)
    ensures
        final(out)@ == old(out)@ + varint_encoding(n as nat),
    decreases n,
{
    if n < 128 {
        out.push(n as u8);
        proof {
            assert(out@ =~= old(out)@ + varint_encoding(n as nat));
        }
    } else {
        let b = (n % 128 + 128) as u8;
        out.push(b);
        encode_varint(n / 128, out);
        proof {
            assert((n as nat) / 128 == (n / 128) as nat);
            assert(out@ =~= old(out)@ + varint_encoding(n as nat));
        }
    }
}

/// Appends a copy of `b` to `out`.
fn push_bytes(out: &mut Vec<u8>, b: &[u8])
    ensures
        final(out)@ == old(out)@ + b@,
{
    let n = b.len();
    let mut i: usize = 0;
    while i < n
        invariant
            n == b@.len(),
            i <= n,
            out@ =~= old(out)@ + b@.take(i as int),
        decreases n - i,
    {
        out.push(b[i]);
        i = i + 1;
    }
    proof {
        assert(out@ =~= old(out)@ + b@);
    }
}

/// Appends the metadata segment's bytes (without the length prefix).
fn encode_metadata(e: &Envelope, out: &mut Vec<u8>)
    ensures
        final(out)@ == old(out)@ + metadata_bytes(e@),
{
    if e.correlation_id != 0 {
        out.push(TAG_CORRELATION_ID);
        encode_varint(e.correlation_id, out);
    }
    proof {
        assert(out@ =~= old(out)@ + correlation_id_field(e.correlation_id));
    }
    let mb: &[u8] = e.method.as_str().as_bytes();
    if mb.len() > 0 {
        out.push(TAG_METHOD);
        encode_varint(mb.len() as u64, out);
        push_bytes(out, mb);
    }
    proof {
        assert(out@ =~= old(out)@ + correlation_id_field(e.correlation_id) + method_field(
            e.method@,
        ));
    }
    match e.status {
        None => {},
        Some(c) => {
            out.push(TAG_STATUS);
            encode_varint(c as u64, out);
        },
    }
    proof {
        assert(out@ =~= old(out)@ + metadata_bytes(e@));
    }
}

// ---------------------------------------------------------------------------
// Executable decoding.
// ---------------------------------------------------------------------------

/// Reads one variable-length integer from `buf` starting at `pos`: the value
/// and the position just past it.
pub fn decode_varint(buf: &Vec<u8>, pos: usize) -> (r: Result<(u64, usize), DecodeError>)
    requires
        pos <= buf@.len(),
    ensures
        match take_varint(buf@.skip(pos as int)) {
            Some((v, k)) => r == Ok::<(u64, usize), DecodeError>((v, (pos + k) as usize)),
            None => r == Err::<(u64, usize), DecodeError>(DecodeError::MalformedVarint),
        },
{
    let ghost s = buf@.skip(pos as int);
    let mut value: u64 = 0;
    let mut mult: u64 = 1;
    let mut i: usize = 0;
    proof {
        lemma_parse_varint_bounds(s);
        assert(s.skip(0) =~= s);
    }
    while i < 10
        invariant
            pos <= buf@.len(),
            s == buf@.skip(pos as int),
            i <= 9,
            pos + i <= buf@.len(),
            mult as nat == pow128(i as nat),
            value < mult,
            match parse_varint(s.skip(i as int)) {
                Some((v, k)) => parse_varint(s) == Some::<(nat, int)>(
                    ((value + mult * v) as nat, i + k),
                ),
                None => parse_varint(s) == None::<(nat, int)>,
            },
        decreases 10 - i,
    {
        proof {
            if i <= 8 {
                lemma_pow128_monotone(i as nat, 8);
            }
            assert(pow128(8) == 0x100000000000000) by {
                reveal_with_fuel(pow128, 9);
            }
        }
        proof {
            assert(pos + i <= buf.len());
        }
        if pos + i == buf.len() {
            proof {
                assert(s.skip(i as int).len() == 0);
            }
            return Err(DecodeError::MalformedVarint);
        }
        let b = buf[pos + i];
        proof {
            assert(s.skip(i as int)[0] == b);
            assert(s.skip(i as int).len() > 0);
        }
        if b < 128 {
            let ghost v_total = (value + mult * (b as nat)) as nat;
            proof {
                assert(parse_varint(s.skip(i as int)) == Some::<(nat, int)>((b as nat, 1)));
                assert(parse_varint(s) == Some::<(nat, int)>((v_total, i + 1)));
            }
            if i == 9 {
                if b >= 2 {
                    proof {
                        assert(mult as nat == pow128(9));
                        assert(pow128(9) == 0x8000000000000000) by {
                            reveal_with_fuel(pow128, 10);
                        }
                        assert(mult * (b as nat) >= 0x10000000000000000) by (nonlinear_arith)
                            requires
                                mult == 0x8000000000000000,
                                b >= 2,
                        ;
                        assert(v_total > u64::MAX as nat);
                    }
                    return Err(DecodeError::MalformedVarint);
                }
                proof {
                    assert(mult as nat == pow128(9));
                    assert(pow128(9) == 0x8000000000000000) by {
                        reveal_with_fuel(pow128, 10);
                    }
                    assert(mult * (b as nat) <= 0x8000000000000000) by (nonlinear_arith)
                        requires
                            mult == 0x8000000000000000,
                            b <= 1,
                    ;
                }
                let add = mult * (b as u64);
                let result = value + add;
                return Ok((result, pos + i + 1));
            }
            proof {
                assert(mult * (b as nat) <= 0x100000000000000 * 127) by (nonlinear_arith)
                    requires
                        mult <= 0x100000000000000,
                        b <= 127,
                ;
            }
            let add = mult * (b as u64);
            let result = value + add;
            return Ok((result, pos + i + 1));
        } else {
            if i == 9 {
                proof {
                    lemma_parse_varint_bounds(s.skip(9));
                    lemma_parse_varint_bounds(s.skip(9).drop_first());
                    match parse_varint(s.skip(9)) {
                        Some((v, k)) => {
                            assert(parse_varint(s.skip(9).drop_first()) is Some);
                            assert(k >= 2);
                            assert(parse_varint(s) matches Some(t) && t.1 >= 11);
                        },
                        None => {},
                    }
                }
                return Err(DecodeError::MalformedVarint);
            }
            let low = (b - 128) as u64;
            proof {
                assert(s.skip(i as int).drop_first() =~= s.skip(i + 1));
                assert(mult * (low as nat) <= 0x100000000000000 * 127) by (nonlinear_arith)
                    requires
                        mult <= 0x100000000000000,
                        low <= 127,
                ;
                assert(value + mult * (low as nat) < mult * 128) by (nonlinear_arith)
                    requires
                        value < mult,
                        low <= 127,
                        mult >= 1,
                ;
                match parse_varint(s.skip(i + 1)) {
                    Some((v, k)) => {
                        assert(parse_varint(s.skip(i as int)) == Some::<(nat, int)>(
                            (((b - 128) + 128 * v) as nat, k + 1),
                        ));
                        assert((value + mult * (((b - 128) + 128 * v) as nat)) as nat == ((value
                            + mult * (low as nat)) + (mult * 128) * v) as nat) by (nonlinear_arith)
                            requires
                                low == b - 128,
                                b >= 128,
                        ;
                    },
                    None => {
                        assert(parse_varint(s.skip(i as int)) is None);
                    },
                }
            }
            value = value + mult * low;
            mult = mult * 128;
            i = i + 1;
        }
    }
    proof {
        assert(false);
    }
    Err(DecodeError::MalformedVarint)
}

/// Copies `buf[start..end]` into a fresh vector.
fn copy_range(buf: &Vec<u8>, start: usize, end: usize) -> (r: Vec<u8>)
    requires
        start <= end <= buf@.len(),
    ensures
        r@ == buf@.subrange(start as int, end as int),
{
    let mut r: Vec<u8> = Vec::new();
    let mut i: usize = start;
    while i < end
        invariant
            start <= i <= end <= buf@.len(),
            r@ =~= buf@.subrange(start as int, i as int),
        decreases end - i,
    {
        r.push(buf[i]);
        proof {
            assert(r@ =~= buf@.subrange(start as int, i + 1));
        }
        i = i + 1;
    }
    proof {
        assert(r@ =~= buf@.subrange(start as int, end as int));
    }
    r
}

/// Relies on `String::from_utf8`: it returns `Ok` exactly on valid UTF-8
/// input, and the returned string's characters are the ones the bytes
/// encode.
#[verifier::external_body]
fn utf8_to_string(bytes: Vec<u8>) -> (r: Option<String>)
    ensures
        match r {
            Some(m) => valid_utf8(bytes@) && m@ == decode_utf8(bytes@),
            None => !valid_utf8(bytes@),
        },
{
    String::from_utf8(bytes).ok()
}

fn decode_id_field(buf: &Vec<u8>, pos: usize) -> (r: Option<(u64, usize)>)
    requires
        pos <= buf@.len(),
    ensures
        match parse_correlation_id_field(buf@.skip(pos as int)) {
            Some((id, rest)) => r matches Some((v, p)) && v == id && pos <= p <= buf@.len()
                && buf@.skip(p as int) == rest,
            None => r is None,
        },
{
    let ghost s = buf@.skip(pos as int);
    if pos < buf.len() && buf[pos] == TAG_CORRELATION_ID {
        proof {
            assert(s[0] == buf@[pos as int]);
            assert(s.drop_first() =~= buf@.skip(pos + 1));
        }
        match decode_varint(buf, pos + 1) {
            Ok((v, p)) => {
                proof {
                    lemma_parse_varint_bounds(buf@.skip(pos + 1));
                    assert(s.drop_first().skip(p - (pos + 1)) =~= buf@.skip(p as int));
                }
                Some((v, p))
            },
            Err(_) => None,
        }
    } else {
        Some((0, pos))
    }
}

#[verifier::rlimit(50)]
fn decode_method_field(buf: &Vec<u8>, pos: usize) -> (r: Option<(String, usize)>)
    requires
        pos <= buf@.len(),
    ensures
        match parse_method_field(buf@.skip(pos as int)) {
            Some((m, rest)) => r matches Some((s, p)) && s@ == m && pos <= p <= buf@.len()
                && buf@.skip(p as int) == rest,
            None => r is None,
        },
{
    let ghost s = buf@.skip(pos as int);
    let n = buf.len();
    if pos < n && buf[pos] == TAG_METHOD {
        proof {
            assert(s[0] == buf@[pos as int]);
            assert(s.drop_first() =~= buf@.skip(pos + 1));
        }
        match decode_varint(buf, pos + 1) {
            Ok((len, p2)) => {
                proof {
                    lemma_parse_varint_bounds(buf@.skip(pos + 1));
                    assert(s.drop_first().skip(p2 - (pos + 1)) =~= buf@.skip(p2 as int));
                }
                if len > (n - p2) as u64 {
                    return None;
                }
                let len_us = len as usize;
                let mbytes = copy_range(buf, p2, p2 + len_us);
                proof {
                    assert(buf@.skip(p2 as int).take(len as int) =~= buf@.subrange(
                        p2 as int,
                        p2 + len_us,
                    ));
                }
                match utf8_to_string(mbytes) {
                    Some(m) => {
                        proof {
                            assert(buf@.skip(p2 as int).skip(len as int) =~= buf@.skip(
                                p2 + len_us,
                            ));
                        }
                        Some((m, p2 + len_us))
                    },
                    None => None,
                }
            },
            Err(_) => None,
        }
    } else {
        Some((String::new(), pos))
    }
}

fn decode_status_field(buf: &Vec<u8>, pos: usize) -> (r: Option<(Option<u32>, usize)>)
    requires
        pos <= buf@.len(),
    ensures
        match parse_status_field(buf@.skip(pos as int)) {
            Some((st, rest)) => r matches Some((v, p)) && v == st && pos <= p <= buf@.len()
                && buf@.skip(p as int) == rest,
            None => r is None,
        },
{
    let ghost s = buf@.skip(pos as int);
    if pos < buf.len() && buf[pos] == TAG_STATUS {
        proof {
            assert(s[0] == buf@[pos as int]);
            assert(s.drop_first() =~= buf@.skip(pos + 1));
        }
        match decode_varint(buf, pos + 1) {
            Ok((v, p)) => {
                proof {
                    lemma_parse_varint_bounds(buf@.skip(pos + 1));
                    assert(s.drop_first().skip(p - (pos + 1)) =~= buf@.skip(p as int));
                }
                if v > u32::MAX as u64 {
                    return None;
                }
                Some((Some(v as u32), p))
            },
            Err(_) => None,
        }
    } else {
        Some((None, pos))
    }
}

/// Decodes a whole metadata segment (no length prefix): the tagged fields in
/// order, consuming the buffer exactly. The returned envelope's payload is
/// empty; the payload travels in its own segment.
pub fn decode_metadata(buf: &Vec<u8>) -> (r: Option<Envelope>)
    ensures
        match parse_metadata(buf@) {
            Some(d) => r matches Some(env) && env@ == d,
            None => r is None,
        },
{
    proof {
        assert(buf@.skip(0) =~= buf@);
    }
    let (id, pos1) = match decode_id_field(buf, 0) {
        Some(x) => x,
        None => {
            return None;
        },
    };
    let (method, pos2) = match decode_method_field(buf, pos1) {
        Some(x) => x,
        None => {
            return None;
        },
    };
    let (status, pos3) = match decode_status_field(buf, pos2) {
        Some(x) => x,
        None => {
            return None;
        },
    };
    if pos3 != buf.len() {
        proof {
            assert(buf@.skip(pos3 as int).len() > 0);
        }
        return None;
    }
    let env = Envelope { correlation_id: id, method, payload: Vec::new(), status };
    proof {
        assert(buf@.skip(pos3 as int).len() == 0);
        assert(env@ =~= parse_metadata(buf@).unwrap());
    }
    Some(env)
}

/// Builds the encoder and the decoder for one stream's frames.
#[derive(Default)]
pub struct GorumsCodec {}

impl GorumsCodec {
    /// The encoder half of the codec.
    pub fn encoder(&mut self) -> GorumsEncoder {
        GorumsEncoder {  }
    }

    /// The decoder half of the codec.
    pub fn decoder(&mut self) -> GorumsDecoder {
        GorumsDecoder {  }
    }
}

/// The encoder's failure kind: a sink that cannot take more bytes. A
/// growable in-memory sink always accepts, so encoding never reports it.
#[derive(Clone, Copy, Debug, PartialEq, Eq, Structural)]
pub enum EncodeError {
    /// The byte sink rejected further bytes.
    SinkFull,
}

/// Encodes envelopes into frames.
#[derive(Debug, Clone, Default)]
pub struct GorumsEncoder {}

impl GorumsEncoder {
    /// Appends the frame of `msg` to `buf`: the length-prefixed metadata
    /// segment, then the length-prefixed raw payload. A growable sink
    /// always accepts the frame, so the result is always `Ok`.
    pub fn encode_msg(&mut self, msg: &Envelope, buf: &mut Vec<u8>) -> (r: Result<
        (),
        EncodeError,
    >)
        ensures
            r is Ok,
            final(buf)@ == old(buf)@ + frame_bytes(msg@),
    {
        let mut md: Vec<u8> = Vec::new();
        encode_metadata(msg, &mut md);
        encode_varint(md.len() as u64, buf);
        buf.append(&mut md);
        encode_varint(msg.payload.len() as u64, buf);
        push_bytes(buf, msg.payload.as_slice());
        proof {
            assert(buf@ =~= old(buf)@ + frame_bytes(msg@));
        }
        Ok(())
    }

    /// [`Self::encode_msg`], with a sink failure surfaced as the
    /// transport-level internal status that tears the stream down; with a
    /// growable sink there is none to surface.
    pub fn encode(&mut self, item: &Envelope, buf: &mut Vec<u8>) -> (r: Result<(), u32>)
        ensures
            r is Ok,
            final(buf)@ == old(buf)@ + frame_bytes(item@),
    {
        match self.encode_msg(item, buf) {
            Ok(()) => Ok(()),
            Err(_) => Err(crate::server::STATUS_INTERNAL),
        }
    }
}

/// Decodes frames back into envelopes.
#[derive(Debug, Clone, Default)]
pub struct GorumsDecoder {}

impl GorumsDecoder {
    /// Reads one frame from `buf` starting at `pos`: the decoded envelope
    /// and the position just past the frame, or the framing failure that
    /// stopped it.
    pub fn decode_msg(&mut self, buf: &Vec<u8>, pos: usize) -> (r: Result<
        (Envelope, usize),
        DecodeError,
    >)
        requires
            pos <= buf@.len(),
        ensures
            match parse_frame(buf@.skip(pos as int)) {
                Ok((d, n)) => r matches Ok((env, p)) && env@ == d && p == pos + n,
                Err(e) => r == Err::<(Envelope, usize), DecodeError>(e),
            },
    {
        let ghost s = buf@.skip(pos as int);
        let n = buf.len();
        let (md_len, p1) = match decode_varint(buf, pos) {
            Ok(x) => x,
            Err(e) => {
                return Err(e);
            },
        };
        proof {
            lemma_parse_varint_bounds(s);
        }
        if md_len > (n - p1) as u64 {
            return Err(DecodeError::TruncatedMetadata);
        }
        let md_len_us = md_len as usize;
        let md_end = p1 + md_len_us;
        let md_buf = copy_range(buf, p1, md_end);
        proof {
            assert(md_buf@ =~= s.subrange(p1 - pos, p1 - pos + md_len));
        }
        let env0 = match decode_metadata(&md_buf) {
            Some(e) => e,
            None => {
                return Err(DecodeError::InvalidMetadata);
            },
        };
        proof {
            assert(s.skip(md_end - pos) =~= buf@.skip(md_end as int));
        }
        let (p_len, p2) = match decode_varint(buf, md_end) {
            Ok(x) => x,
            Err(e) => {
                return Err(e);
            },
        };
        proof {
            lemma_parse_varint_bounds(buf@.skip(md_end as int));
        }
        if p_len > (n - p2) as u64 {
            return Err(DecodeError::TruncatedPayload);
        }
        let p_len_us = p_len as usize;
        let payload = copy_range(buf, p2, p2 + p_len_us);
        proof {
            assert(payload@ =~= s.subrange(p2 - pos, p2 - pos + p_len));
        }
        let mut env = env0;
        env.payload = payload;
        proof {
            let (d, fl) = parse_frame(s).unwrap();
            assert(env@ =~= d);
        }
        Ok((env, p2 + p_len_us))
    }

    /// [`Self::decode_msg`], with every framing failure surfaced as the
    /// transport-level internal status that tears the stream down.
    pub fn decode(&mut self, buf: &Vec<u8>, pos: usize) -> (r: Result<(Envelope, usize), u32>)
        requires
            pos <= buf@.len(),
        ensures
            match parse_frame(buf@.skip(pos as int)) {
                Ok((d, n)) => r matches Ok((env, p)) && env@ == d && p == pos + n,
                Err(_) => r == Err::<(Envelope, usize), u32>(crate::server::STATUS_INTERNAL),
            },
    {
        match self.decode_msg(buf, pos) {
            Ok(x) => Ok(x),
            Err(_) => Err(crate::server::STATUS_INTERNAL),
        }
    }
}

} // verus!
