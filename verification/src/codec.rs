//! The wire codec: a compact, self-describing binary encoding of requests
//! and responses.
//!
//! A message is a one-entry map from the variant's name (a text string) to
//! a map of its named fields, so the format is forward-extensible and not
//! positional. Unsigned values and length prefixes use the shortest of a
//! one, two, four or eight byte big-endian form behind a single tag byte;
//! text is UTF-8. The decoder accepts exactly the encodings the encoder
//! produces, and rejects anything else as `MalformedPayload`.

use vstd::arithmetic::div_mod::lemma_fundamental_div_mod;
use vstd::arithmetic::mul::lemma_mul_inequality;
use vstd::prelude::*;
use vstd::std_specs::vec::spec_vec_len;
use vstd::string::StrSliceExecFns;
use vstd::utf8::{decode_utf8, encode_utf8, valid_utf8};

use crate::protocol::{ExchangeError, Request, RequestView, Response, ResponseView};

verus! {

/// The `w`-byte big-endian form of `n` (modulo `256^w`).
pub open spec fn be_bytes(n: nat, w: nat) -> Seq<u8>
    decreases w,
{
    if w == 0 {
        Seq::empty()
    } else {
        be_bytes(n / 256, (w - 1) as nat) + seq![(n % 256) as u8]
    }
}

/// The value a big-endian byte sequence stands for.
pub open spec fn be_value(s: Seq<u8>) -> nat
    decreases s.len(),
{
    if s.len() == 0 {
        0
    } else {
        (be_value(s.drop_last()) * 256 + s.last()) as nat
    }
}

/// `256^w`.
pub open spec fn pow256(w: nat) -> nat
    decreases w,
{
    if w == 0 {
        1nat
    } else {
        256 * pow256((w - 1) as nat)
    }
}

pub proof fn lemma_be_bytes_len(n: nat, w: nat)
    ensures
        be_bytes(n, w).len() == w,
    decreases w,
{
    if w > 0 {
        lemma_be_bytes_len(n / 256, (w - 1) as nat);
    }
}

pub proof fn lemma_be_value_bound(s: Seq<u8>)
    ensures
        be_value(s) < pow256(s.len()),
    decreases s.len(),
{
    if s.len() > 0 {
        lemma_be_value_bound(s.drop_last());
        lemma_mul_inequality(
            be_value(s.drop_last()) as int + 1,
            pow256((s.len() - 1) as nat) as int,
            256,
        );
    }
}

/// Reading back the big-endian bytes of `n` recovers `n`.
pub proof fn lemma_be_value_be_bytes(n: nat, w: nat)
    requires
        n < pow256(w),
    ensures
        be_value(be_bytes(n, w)) == n,
    decreases w,
{
    if w > 0 {
        lemma_fundamental_div_mod(n as int, 256);
        if n / 256 >= pow256((w - 1) as nat) {
            lemma_mul_inequality(pow256((w - 1) as nat) as int, (n / 256) as int, 256);
            assert(false);
        }
        lemma_be_value_be_bytes(n / 256, (w - 1) as nat);
        lemma_be_bytes_len(n / 256, (w - 1) as nat);
        assert(be_bytes(n, w).drop_last() =~= be_bytes(n / 256, (w - 1) as nat));
    }
}

/// A length-or-value header: `base` selects what the value introduces
/// (0x00 a bare unsigned value, 0x40 a byte string, 0x60 a text string),
/// and the value follows in its shortest big-endian form.
pub open spec fn spec_hdr(base: u8, n: nat) -> Seq<u8> {
    if n < 24 {
        seq![(base + n) as u8]
    } else if n < 0x100 {
        seq![(base + 24) as u8] + be_bytes(n, 1)
    } else if n < 0x10000 {
        seq![(base + 25) as u8] + be_bytes(n, 2)
    } else if n < 0x100000000 {
        seq![(base + 26) as u8] + be_bytes(n, 4)
    } else {
        seq![(base + 27) as u8] + be_bytes(n, 8)
    }
}

/// An unsigned value.
pub open spec fn spec_uint(n: nat) -> Seq<u8> {
    spec_hdr(0x00, n)
}

/// A length-prefixed byte string.
pub open spec fn spec_bytestr(b: Seq<u8>) -> Seq<u8> {
    spec_hdr(0x40, b.len()) + b
}

/// A length-prefixed text string holding UTF-8 bytes.
pub open spec fn spec_textstr(b: Seq<u8>) -> Seq<u8> {
    spec_hdr(0x60, b.len()) + b
}

/// The encoded map key `"Publish"`.
pub open spec fn key_publish() -> Seq<u8> {
    seq![0x67u8, 0x50u8, 0x75u8, 0x62u8, 0x6cu8, 0x69u8, 0x73u8, 0x68u8]
}

/// The encoded map key `"Subscribe"`.
pub open spec fn key_subscribe() -> Seq<u8> {
    seq![0x69u8, 0x53u8, 0x75u8, 0x62u8, 0x73u8, 0x63u8, 0x72u8, 0x69u8, 0x62u8, 0x65u8]
}

/// The encoded map key `"Unsubscribe"`.
pub open spec fn key_unsubscribe() -> Seq<u8> {
    seq![
        0x6bu8,
        0x55u8,
        0x6eu8,
        0x73u8,
        0x75u8,
        0x62u8,
        0x73u8,
        0x63u8,
        0x72u8,
        0x69u8,
        0x62u8,
        0x65u8,
    ]
}

/// The encoded map key `"client_id"`.
pub open spec fn key_client_id() -> Seq<u8> {
    seq![0x69u8, 0x63u8, 0x6cu8, 0x69u8, 0x65u8, 0x6eu8, 0x74u8, 0x5fu8, 0x69u8, 0x64u8]
}

/// The encoded map key `"payload"`.
pub open spec fn key_payload() -> Seq<u8> {
    seq![0x67u8, 0x70u8, 0x61u8, 0x79u8, 0x6cu8, 0x6fu8, 0x61u8, 0x64u8]
}

/// The encoded map key `"Success"`.
pub open spec fn key_success() -> Seq<u8> {
    seq![0x67u8, 0x53u8, 0x75u8, 0x63u8, 0x63u8, 0x65u8, 0x73u8, 0x73u8]
}

/// The encoded map key `"Error"`.
pub open spec fn key_error() -> Seq<u8> {
    seq![0x65u8, 0x45u8, 0x72u8, 0x72u8, 0x6fu8, 0x72u8]
}

/// The encoded map key `"message"`.
pub open spec fn key_message() -> Seq<u8> {
    seq![0x67u8, 0x6du8, 0x65u8, 0x73u8, 0x73u8, 0x61u8, 0x67u8, 0x65u8]
}

/// The encoded map key `"bytes"`.
pub open spec fn key_bytes() -> Seq<u8> {
    seq![0x65u8, 0x62u8, 0x79u8, 0x74u8, 0x65u8, 0x73u8]
}

/// The wire bytes of a request: a one-entry map from the variant's name to
/// its named fields.
pub open spec fn spec_encode_request(v: RequestView) -> Seq<u8> {
    match v {
        RequestView::Publish { client_id, payload } => seq![0xa1u8] + key_publish() + seq![0xa2u8]
            + key_client_id() + spec_uint(client_id as nat) + key_payload() + spec_bytestr(payload),
        RequestView::Subscribe { client_id } => seq![0xa1u8] + key_subscribe() + seq![0xa1u8]
            + key_client_id() + spec_uint(client_id as nat),
        RequestView::Unsubscribe { client_id } => seq![0xa1u8] + key_unsubscribe() + seq![0xa1u8]
            + key_client_id() + spec_uint(client_id as nat),
    }
}

/// The wire bytes of a response.
pub open spec fn spec_encode_response(v: ResponseView) -> Seq<u8> {
    match v {
        ResponseView::Success { message, bytes } => seq![0xa1u8] + key_success() + seq![0xa2u8]
            + key_message() + spec_textstr(encode_utf8(message)) + key_bytes() + spec_bytestr(
            bytes,
        ),
        ResponseView::Error { message } => seq![0xa1u8] + key_error() + seq![0xa1u8] + key_message()
            + spec_textstr(encode_utf8(message)),
    }
}

/// A request whose fields fit the wire format's length headers. Every
/// request an executable program can hold satisfies this.
pub open spec fn request_wf(v: RequestView) -> bool {
    match v {
        RequestView::Publish { payload, .. } => payload.len() < 0x10000000000000000,
        _ => true,
    }
}

/// Append the `w`-byte big-endian form of `n`.
fn emit_be(out: &mut Vec<u8>, n: u64, w: usize)
    ensures
        final(out)@ == old(out)@ + be_bytes(n as nat, w as nat),
    decreases w,
{
    if w > 0 {
        emit_be(out, n / 256, w - 1);
        out.push((n % 256) as u8);
        proof {
            assert(out@ =~= old(out)@ + be_bytes(n as nat, w as nat));
        }
    } else {
        proof {
            assert(out@ =~= old(out)@ + be_bytes(n as nat, 0));
        }
    }
}

/// Append a length-or-value header for `n` under `base`.
fn emit_hdr(out: &mut Vec<u8>, base: u8, n: u64)
    requires
        base == 0x00 || base == 0x40 || base == 0x60,
    ensures
        final(out)@ == old(out)@ + spec_hdr(base, n as nat),
{
    if n < 24 {
        out.push(base + (n as u8));
        proof {
            assert(out@ =~= old(out)@ + spec_hdr(base, n as nat));
        }
    } else if n < 0x100 {
        out.push(base + 24);
        emit_be(out, n, 1);
        proof {
            assert(out@ =~= old(out)@ + spec_hdr(base, n as nat));
        }
    } else if n < 0x10000 {
        out.push(base + 25);
        emit_be(out, n, 2);
        proof {
            assert(out@ =~= old(out)@ + spec_hdr(base, n as nat));
        }
    } else if n < 0x100000000 {
        out.push(base + 26);
        emit_be(out, n, 4);
        proof {
            assert(out@ =~= old(out)@ + spec_hdr(base, n as nat));
        }
    } else {
        out.push(base + 27);
        emit_be(out, n, 8);
        proof {
            assert(out@ =~= old(out)@ + spec_hdr(base, n as nat));
        }
    }
}

/// Append every byte of `data`.
fn emit_bytes(out: &mut Vec<u8>, data: &Vec<u8>)
    ensures
        final(out)@ == old(out)@ + data@,
{
    let mut i: usize = 0;
    while i < data.len()
        invariant
            i <= data@.len(),
            out@ == old(out)@ + data@.take(i as int),
        decreases data@.len() - i,
    {
        out.push(data[i]);
        i += 1;
        proof {
            assert(data@.take(i as int) =~= data@.take(i - 1).push(data@[i - 1]));
        }
    }
    proof {
        assert(old(out)@ + data@.take(data@.len() as int) =~= old(out)@ + data@);
    }
}

/// A response whose fields fit the wire format's length headers. Every
/// response an executable program can hold satisfies this.
pub open spec fn response_wf(v: ResponseView) -> bool {
    match v {
        ResponseView::Success { message, bytes } => encode_utf8(message).len()
            < 0x10000000000000000 && bytes.len() < 0x10000000000000000,
        ResponseView::Error { message } => encode_utf8(message).len() < 0x10000000000000000,
    }
}

/// Serialize a request. Deterministic, and never fails for a request the
/// dispatcher can construct.
pub fn encode_request(req: &Request) -> (r: Vec<u8>)
    ensures
        r@ == spec_encode_request(req@),
        request_wf(req@),
{
    let mut out: Vec<u8> = Vec::new();
    match req {
        Request::Publish { client_id, payload } => {
            out.push(0xa1);
            let k = key_publish_vec();
            emit_bytes(&mut out, &k);
            out.push(0xa2);
            let k = key_client_id_vec();
            emit_bytes(&mut out, &k);
            emit_hdr(&mut out, 0x00, *client_id);
            let k = key_payload_vec();
            emit_bytes(&mut out, &k);
            emit_hdr(&mut out, 0x40, payload.len() as u64);
            emit_bytes(&mut out, payload);
            proof {
                assert(out@ =~= spec_encode_request(req@));
            }
        },
        Request::Subscribe { client_id } => {
            out.push(0xa1);
            let k = key_subscribe_vec();
            emit_bytes(&mut out, &k);
            out.push(0xa1);
            let k = key_client_id_vec();
            emit_bytes(&mut out, &k);
            emit_hdr(&mut out, 0x00, *client_id);
            proof {
                assert(out@ =~= spec_encode_request(req@));
            }
        },
        Request::Unsubscribe { client_id } => {
            out.push(0xa1);
            let k = key_unsubscribe_vec();
            emit_bytes(&mut out, &k);
            out.push(0xa1);
            let k = key_client_id_vec();
            emit_bytes(&mut out, &k);
            emit_hdr(&mut out, 0x00, *client_id);
            proof {
                assert(out@ =~= spec_encode_request(req@));
            }
        },
    }
    out
}

/// Serialize a response, for the loopback half of the protocol: what a
/// broker answering `message`/`bytes` would put on the wire.
pub fn encode_response(resp: &Response) -> (r: Vec<u8>)
    ensures
        r@ == spec_encode_response(resp@),
        response_wf(resp@),
{
    let mut out: Vec<u8> = Vec::new();
    match resp {
        Response::Success { message, bytes } => {
            out.push(0xa1);
            let k = key_success_vec();
            emit_bytes(&mut out, &k);
            out.push(0xa2);
            let k = key_message_vec();
            emit_bytes(&mut out, &k);
            let mb = message.as_str().as_bytes_vec();
            emit_hdr(&mut out, 0x60, mb.len() as u64);
            emit_bytes(&mut out, &mb);
            let k = key_bytes_vec();
            emit_bytes(&mut out, &k);
            emit_hdr(&mut out, 0x40, bytes.len() as u64);
            emit_bytes(&mut out, bytes);
            proof {
                assert(out@ =~= spec_encode_response(resp@));
            }
        },
        Response::Error { message } => {
            out.push(0xa1);
            let k = key_error_vec();
            emit_bytes(&mut out, &k);
            out.push(0xa1);
            let k = key_message_vec();
            emit_bytes(&mut out, &k);
            let mb = message.as_str().as_bytes_vec();
            emit_hdr(&mut out, 0x60, mb.len() as u64);
            emit_bytes(&mut out, &mb);
            proof {
                assert(out@ =~= spec_encode_response(resp@));
            }
        },
    }
    out
}

/// The key `"Publish"` as runtime bytes.
fn key_publish_vec() -> (r: Vec<u8>)
    ensures
        r@ == key_publish(),
{
    let r: Vec<u8> = vec![0x67, 0x50, 0x75, 0x62, 0x6c, 0x69, 0x73, 0x68];
    proof {
        assert(r@ =~= key_publish());
    }
    r
}

/// The key `"Subscribe"` as runtime bytes.
fn key_subscribe_vec() -> (r: Vec<u8>)
    ensures
        r@ == key_subscribe(),
{
    let r: Vec<u8> = vec![0x69, 0x53, 0x75, 0x62, 0x73, 0x63, 0x72, 0x69, 0x62, 0x65];
    proof {
        assert(r@ =~= key_subscribe());
    }
    r
}

/// The key `"Unsubscribe"` as runtime bytes.
fn key_unsubscribe_vec() -> (r: Vec<u8>)
    ensures
        r@ == key_unsubscribe(),
{
    let r: Vec<u8> = vec![0x6b, 0x55, 0x6e, 0x73, 0x75, 0x62, 0x73, 0x63, 0x72, 0x69, 0x62, 0x65];
    proof {
        assert(r@ =~= key_unsubscribe());
    }
    r
}

/// The key `"client_id"` as runtime bytes.
fn key_client_id_vec() -> (r: Vec<u8>)
    ensures
        r@ == key_client_id(),
{
    let r: Vec<u8> = vec![0x69, 0x63, 0x6c, 0x69, 0x65, 0x6e, 0x74, 0x5f, 0x69, 0x64];
    proof {
        assert(r@ =~= key_client_id());
    }
    r
}

/// The key `"payload"` as runtime bytes.
fn key_payload_vec() -> (r: Vec<u8>)
    ensures
        r@ == key_payload(),
{
    let r: Vec<u8> = vec![0x67, 0x70, 0x61, 0x79, 0x6c, 0x6f, 0x61, 0x64];
    proof {
        assert(r@ =~= key_payload());
    }
    r
}

/// The key `"Success"` as runtime bytes.
fn key_success_vec() -> (r: Vec<u8>)
    ensures
        r@ == key_success(),
{
    let r: Vec<u8> = vec![0x67, 0x53, 0x75, 0x63, 0x63, 0x65, 0x73, 0x73];
    proof {
        assert(r@ =~= key_success());
    }
    r
}

/// The key `"Error"` as runtime bytes.
fn key_error_vec() -> (r: Vec<u8>)
    ensures
        r@ == key_error(),
{
    let r: Vec<u8> = vec![0x65, 0x45, 0x72, 0x72, 0x6f, 0x72];
    proof {
        assert(r@ =~= key_error());
    }
    r
}

/// The key `"message"` as runtime bytes.
fn key_message_vec() -> (r: Vec<u8>)
    ensures
        r@ == key_message(),
{
    let r: Vec<u8> = vec![0x67, 0x6d, 0x65, 0x73, 0x73, 0x61, 0x67, 0x65];
    proof {
        assert(r@ =~= key_message());
    }
    r
}

/// `s` occurs in `d` starting at position `i`.
pub open spec fn starts_with_at(d: Seq<u8>, i: int, s: Seq<u8>) -> bool {
    &&& 0 <= i
    &&& i + s.len() <= d.len()
    &&& d.subrange(i, i + s.len()) == s
}

/// A concatenation occurs at `i` exactly when its parts occur back to back.
pub proof fn lemma_starts_with_concat(d: Seq<u8>, i: int, a: Seq<u8>, b: Seq<u8>)
    ensures
        starts_with_at(d, i, a + b) <==> (starts_with_at(d, i, a) && starts_with_at(
            d,
            i + a.len(),
            b,
        )),
{
    if starts_with_at(d, i, a + b) {
        let ab = a + b;
        assert forall|k: int| 0 <= k < a.len() implies d.subrange(i, i + a.len())[k] == a[k] by {
            assert(d.subrange(i, i + ab.len())[k] == d[i + k]);
            assert(ab[k] == a[k]);
        }
        assert(d.subrange(i, i + a.len()) =~= a);
        assert forall|k: int|
            0 <= k < b.len() implies d.subrange(i + a.len(), i + a.len() + b.len())[k] == b[k] by {
            assert(d.subrange(i, i + ab.len())[a.len() + k] == d[i + a.len() + k]);
            assert(ab[a.len() + k] == b[k]);
        }
        assert(d.subrange(i + a.len(), i + a.len() + b.len()) =~= b);
    }
    if starts_with_at(d, i, a) && starts_with_at(d, i + a.len(), b) {
        assert(d.subrange(i, i + a.len() + b.len()) =~= a + b);
    }
}

pub proof fn lemma_pow256_pos(w: nat)
    ensures
        pow256(w) >= 1,
    decreases w,
{
    if w > 0 {
        lemma_pow256_pos((w - 1) as nat);
    }
}

pub proof fn lemma_pow256_mono(a: nat, b: nat)
    requires
        a <= b,
    ensures
        pow256(a) <= pow256(b),
    decreases b,
{
    if a < b {
        lemma_pow256_mono(a, (b - 1) as nat);
        lemma_pow256_pos((b - 1) as nat);
    }
}

proof fn lemma_pow256_values()
    ensures
        pow256(1) == 0x100,
        pow256(2) == 0x10000,
        pow256(4) == 0x100000000,
        pow256(8) == 0x10000000000000000,
{
    assert(pow256(0) == 1);
    assert(pow256(1) == 0x100);
    assert(pow256(2) == 0x10000);
    assert(pow256(3) == 0x1000000);
    assert(pow256(4) == 0x100000000);
    assert(pow256(5) == 0x10000000000);
    assert(pow256(6) == 0x1000000000000);
    assert(pow256(7) == 0x100000000000000);
    assert(pow256(8) == 0x10000000000000000);
}

/// The big-endian bytes of a sequence's value are the sequence itself.
pub proof fn lemma_be_bytes_be_value(s: Seq<u8>)
    ensures
        be_bytes(be_value(s), s.len()) == s,
    decreases s.len(),
{
    if s.len() > 0 {
        let v = be_value(s);
        let hv = be_value(s.drop_last());
        vstd::arithmetic::div_mod::lemma_fundamental_div_mod_converse(
            v as int,
            256,
            hv as int,
            s.last() as int,
        );
        lemma_be_bytes_be_value(s.drop_last());
        assert(be_bytes(v, s.len()) =~= s);
    }
}

/// The first byte and the length of a header, by the width class of `n`.
pub proof fn lemma_spec_hdr_shape(base: u8, n: nat)
    requires
        base == 0x00 || base == 0x40 || base == 0x60,
    ensures
        spec_hdr(base, n).len() >= 1,
        n < 24 ==> spec_hdr(base, n) =~= seq![(base + n) as u8],
        24 <= n < 0x100 ==> spec_hdr(base, n).len() == 2 && spec_hdr(base, n)[0] == base + 24,
        0x100 <= n < 0x10000 ==> spec_hdr(base, n).len() == 3 && spec_hdr(base, n)[0] == base + 25,
        0x10000 <= n < 0x100000000 ==> spec_hdr(base, n).len() == 5 && spec_hdr(base, n)[0] == base
            + 26,
        0x100000000 <= n ==> spec_hdr(base, n).len() == 9 && spec_hdr(base, n)[0] == base + 27,
{
    lemma_be_bytes_len(n, 1);
    lemma_be_bytes_len(n, 2);
    lemma_be_bytes_len(n, 4);
    lemma_be_bytes_len(n, 8);
}

/// Read a `w`-byte big-endian value.
fn read_be(data: &Vec<u8>, i: usize, w: usize) -> (r: u64)
    requires
        i + w <= data@.len(),
        w <= 8,
    ensures
        r as nat == be_value(data@.subrange(i as int, i + w)),
    decreases w,
{
    if w == 0 {
        0
    } else {
        let hi = read_be(data, i, w - 1);
        proof {
            assert(spec_vec_len(data) == data@.len());
            let pre = data@.subrange(i as int, i + w - 1);
            lemma_be_value_bound(pre);
            lemma_pow256_mono((w - 1) as nat, 7);
            lemma_pow256_values();
            assert(pow256(7) == 0x100000000000000) by {
                assert(pow256(8) == 256 * pow256(7));
            }
            lemma_mul_inequality(hi as int, 0x100000000000000 - 1, 256);
            assert(data@.subrange(i as int, i + w).drop_last() =~= pre);
        }
        hi * 256 + (data[i + w - 1] as u64)
    }
}

/// Read one length-or-value header under `base` at position `i`.
///
/// On success the header is the unique one occurring there; on failure no
/// header under `base` occurs there at all, so the data cannot be an
/// encoding that expects one.
fn parse_hdr(data: &Vec<u8>, i: usize, base: u8) -> (r: Option<(u64, usize)>)
    requires
        i <= data@.len(),
        base == 0x00 || base == 0x40 || base == 0x60,
    ensures
        match r {
            Some(vj) => {
                &&& i < vj.1 <= data@.len()
                &&& vj.1 == i + spec_hdr(base, vj.0 as nat).len()
                &&& starts_with_at(data@, i as int, spec_hdr(base, vj.0 as nat))
                &&& forall|m: u64|
                    starts_with_at(data@, i as int, spec_hdr(base, m as nat)) ==> m == vj.0
            },
            None => forall|m: u64| !starts_with_at(data@, i as int, spec_hdr(base, m as nat)),
        },
{
    proof {
        assert(spec_vec_len(data) == data@.len());
        lemma_pow256_values();
    }
    if data.len() - i < 1 {
        proof {
            assert forall|m: u64| !starts_with_at(data@, i as int, spec_hdr(base, m as nat)) by {
                lemma_spec_hdr_shape(base, m as nat);
            }
        }
        return None;
    }
    let b = data[i];
    if b < base || b - base > 27 {
        proof {
            assert forall|m: u64| !starts_with_at(data@, i as int, spec_hdr(base, m as nat)) by {
                lemma_spec_hdr_shape(base, m as nat);
                if starts_with_at(data@, i as int, spec_hdr(base, m as nat)) {
                    let hdr = spec_hdr(base, m as nat);
                    assert(data@.subrange(i as int, i + hdr.len())[0] == data@[i as int]);
                }
            }
        }
        return None;
    }
    let t = b - base;
    if t < 24 {
        let v = t as u64;
        proof {
            lemma_spec_hdr_shape(base, v as nat);
            assert(data@.subrange(i as int, i + 1) =~= seq![data@[i as int]]);
            assert(starts_with_at(data@, i as int, spec_hdr(base, v as nat)));
            assert forall|m: u64|
                starts_with_at(data@, i as int, spec_hdr(base, m as nat)) implies m == v by {
                lemma_spec_hdr_shape(base, m as nat);
                let hdr = spec_hdr(base, m as nat);
                assert(data@.subrange(i as int, i + hdr.len())[0] == data@[i as int]);
            }
        }
        Some((v, i + 1))
    } else if t == 24 {
        if data.len() - i < 2 {
            proof {
                assert forall|m: u64|
                    !starts_with_at(data@, i as int, spec_hdr(base, m as nat)) by {
                    lemma_spec_hdr_shape(base, m as nat);
                    if starts_with_at(data@, i as int, spec_hdr(base, m as nat)) {
                        let hdr = spec_hdr(base, m as nat);
                        assert(data@.subrange(i as int, i + hdr.len())[0] == data@[i as int]);
                    }
                }
            }
            return None;
        }
        let v = data[i + 1];
        if v < 24 {
            proof {
                assert forall|m: u64|
                    !starts_with_at(data@, i as int, spec_hdr(base, m as nat)) by {
                    lemma_spec_hdr_shape(base, m as nat);
                    if starts_with_at(data@, i as int, spec_hdr(base, m as nat)) {
                        let hdr = spec_hdr(base, m as nat);
                        assert(data@.subrange(i as int, i + hdr.len())[0] == data@[i as int]);
                        if 24 <= m < 0x100 {
                            lemma_starts_with_concat(
                                data@,
                                i as int,
                                seq![(base + 24) as u8],
                                be_bytes(m as nat, 1),
                            );
                            lemma_be_bytes_len(m as nat, 1);
                            assert(data@.subrange(i + 1, i + 2) == be_bytes(m as nat, 1));
                            assert(data@.subrange(i + 1, i + 2)[0] == data@[i + 1]);
                            lemma_be_value_be_bytes(m as nat, 1);
                            assert(be_value(data@.subrange(i + 1, i + 2)) == m as nat);
                            assert(be_value(seq![data@[i + 1]]) == data@[i + 1] as nat) by {
                                assert(seq![data@[i + 1]].drop_last() =~= Seq::<u8>::empty());
                            }
                            assert(data@.subrange(i + 1, i + 2) =~= seq![data@[i + 1]]);
                        }
                    }
                }
            }
            None
        } else {
            let val = v as u64;
            proof {
                lemma_spec_hdr_shape(base, val as nat);
                lemma_be_bytes_len(val as nat, 1);
                assert(be_bytes(val as nat, 1) =~= seq![v]) by {
                    assert(be_bytes(val as nat, 1) == be_bytes((val as nat) / 256, 0) + seq![
                        ((val as nat) % 256) as u8,
                    ]);
                }
                assert(data@.subrange(i as int, i + 1) =~= seq![(base + 24) as u8]);
                assert(data@.subrange(i + 1, i + 2) =~= seq![v]);
                lemma_starts_with_concat(data@, i as int, seq![(base + 24) as u8], seq![v]);
                assert(spec_hdr(base, val as nat) == seq![(base + 24) as u8] + seq![v]);
                assert(starts_with_at(data@, i as int, spec_hdr(base, val as nat)));
                assert forall|m: u64|
                    starts_with_at(data@, i as int, spec_hdr(base, m as nat)) implies m == val by {
                    lemma_spec_hdr_shape(base, m as nat);
                    let hdr = spec_hdr(base, m as nat);
                    assert(data@.subrange(i as int, i + hdr.len())[0] == data@[i as int]);
                    if 24 <= m < 0x100 {
                        lemma_starts_with_concat(
                            data@,
                            i as int,
                            seq![(base + 24) as u8],
                            be_bytes(m as nat, 1),
                        );
                        lemma_be_bytes_len(m as nat, 1);
                        assert(data@.subrange(i + 1, i + 2) == be_bytes(m as nat, 1));
                        assert(data@.subrange(i + 1, i + 2)[0] == data@[i + 1]);
                        lemma_be_value_be_bytes(m as nat, 1);
                        assert(be_value(seq![data@[i + 1]]) == data@[i + 1] as nat) by {
                            assert(seq![data@[i + 1]].drop_last() =~= Seq::<u8>::empty());
                        }
                        assert(data@.subrange(i + 1, i + 2) =~= seq![data@[i + 1]]);
                    }
                }
            }
            Some((val, i + 2))
        }
    } else {
        let w: usize = if t == 25 {
            2
        } else if t == 26 {
            4
        } else {
            8
        };
        let lo: u64 = if t == 25 {
            0x100
        } else if t == 26 {
            0x10000
        } else {
            0x100000000
        };
        if data.len() - i < 1 + w {
            proof {
                assert forall|m: u64|
                    !starts_with_at(data@, i as int, spec_hdr(base, m as nat)) by {
                    lemma_spec_hdr_shape(base, m as nat);
                    if starts_with_at(data@, i as int, spec_hdr(base, m as nat)) {
                        let hdr = spec_hdr(base, m as nat);
                        assert(data@.subrange(i as int, i + hdr.len())[0] == data@[i as int]);
                    }
                }
            }
            return None;
        }
        let v = read_be(data, i + 1, w);
        proof {
            lemma_be_value_bound(data@.subrange(i + 1, i + 1 + w));
        }
        if v < lo {
            proof {
                assert forall|m: u64|
                    !starts_with_at(data@, i as int, spec_hdr(base, m as nat)) by {
                    lemma_spec_hdr_shape(base, m as nat);
                    if starts_with_at(data@, i as int, spec_hdr(base, m as nat)) {
                        let hdr = spec_hdr(base, m as nat);
                        assert(data@.subrange(i as int, i + hdr.len())[0] == data@[i as int]);
                        if m as nat >= lo as nat && (t == 27 || (m as nat) < (if t == 25 { 0x10000nat } else { 0x100000000nat })) {
                            lemma_starts_with_concat(
                                data@,
                                i as int,
                                seq![b],
                                be_bytes(m as nat, w as nat),
                            );
                            lemma_be_bytes_len(m as nat, w as nat);
                            assert(data@.subrange(i + 1, i + 1 + w) == be_bytes(m as nat, w as nat));
                            lemma_be_value_be_bytes(m as nat, w as nat);
                        }
                    }
                }
            }
            None
        } else {
            proof {
                lemma_spec_hdr_shape(base, v as nat);
                lemma_be_bytes_be_value(data@.subrange(i + 1, i + 1 + w));
                assert(be_bytes(v as nat, w as nat) == data@.subrange(i + 1, i + 1 + w));
                assert(data@.subrange(i as int, i + 1) =~= seq![b]);
                lemma_starts_with_concat(data@, i as int, seq![b], be_bytes(v as nat, w as nat));
                assert(starts_with_at(data@, i as int, spec_hdr(base, v as nat)));
                assert forall|m: u64|
                    starts_with_at(data@, i as int, spec_hdr(base, m as nat)) implies m == v by {
                    lemma_spec_hdr_shape(base, m as nat);
                    let hdr = spec_hdr(base, m as nat);
                    assert(data@.subrange(i as int, i + hdr.len())[0] == data@[i as int]);
                    if m as nat >= lo as nat && (t == 27 || (m as nat) < (if t == 25 { 0x10000nat } else { 0x100000000nat })) {
                        lemma_starts_with_concat(
                            data@,
                            i as int,
                            seq![b],
                            be_bytes(m as nat, w as nat),
                        );
                        lemma_be_bytes_len(m as nat, w as nat);
                        assert(data@.subrange(i + 1, i + 1 + w) == be_bytes(m as nat, w as nat));
                        lemma_be_value_be_bytes(m as nat, w as nat);
                    }
                }
            }
            Some((v, i + 1 + w))
        }
    }
}

/// An occurrence pins down each byte it covers.
pub proof fn lemma_sw_index(d: Seq<u8>, i: int, s: Seq<u8>, k: int)
    requires
        starts_with_at(d, i, s),
        0 <= k < s.len(),
    ensures
        d[i + k] == s[k],
{
    assert(d.subrange(i, i + s.len())[k] == d[i + k]);
}

/// Do the bytes of `pat` occur at position `i`?
fn match_at(data: &Vec<u8>, i: usize, pat: &Vec<u8>) -> (r: bool)
    requires
        i <= data@.len(),
    ensures
        r == starts_with_at(data@, i as int, pat@),
{
    proof {
        assert(spec_vec_len(data) == data@.len());
    }
    if data.len() - i < pat.len() {
        return false;
    }
    let mut k: usize = 0;
    while k < pat.len()
        invariant
            data@.len() <= usize::MAX,
            i + pat@.len() <= data@.len(),
            k <= pat@.len(),
            forall|j: int| 0 <= j < k ==> data@[i + j] == pat@[j],
        decreases pat@.len() - k,
    {
        if data[i + k] != pat[k] {
            proof {
                if starts_with_at(data@, i as int, pat@) {
                    lemma_sw_index(data@, i as int, pat@, k as int);
                }
            }
            return false;
        }
        k += 1;
    }
    proof {
        assert(data@.subrange(i as int, i + pat@.len()) =~= pat@);
    }
    true
}

/// Read one length-prefixed string (byte string under 0x40, text under
/// 0x60) at position `i` and hand back its content bytes.
fn parse_lenval(data: &Vec<u8>, i: usize, base: u8) -> (r: Option<(Vec<u8>, usize)>)
    requires
        i <= data@.len(),
        base == 0x40 || base == 0x60,
    ensures
        match r {
            Some(cj) => {
                &&& i < cj.1 <= data@.len()
                &&& cj.1 == i + spec_hdr(base, cj.0@.len()).len() + cj.0@.len()
                &&& starts_with_at(data@, i as int, spec_hdr(base, cj.0@.len()) + cj.0@)
                &&& forall|s: Seq<u8>|
                    s.len() < 0x10000000000000000 && starts_with_at(
                        data@,
                        i as int,
                        spec_hdr(base, s.len()) + s,
                    ) ==> s == cj.0@
            },
            None => forall|s: Seq<u8>|
                s.len() < 0x10000000000000000 ==> !starts_with_at(
                    data@,
                    i as int,
                    spec_hdr(base, s.len()) + s,
                ),
        },
{
    proof {
        assert(spec_vec_len(data) == data@.len());
    }
    match parse_hdr(data, i, base) {
        None => {
            proof {
                assert forall|s: Seq<u8>|
                    s.len() < 0x10000000000000000 implies !starts_with_at(
                    data@,
                    i as int,
                    spec_hdr(base, s.len()) + s,
                ) by {
                    if starts_with_at(data@, i as int, spec_hdr(base, s.len()) + s) {
                        lemma_starts_with_concat(data@, i as int, spec_hdr(base, s.len()), s);
                        assert(spec_hdr(base, (s.len() as u64) as nat) == spec_hdr(
                            base,
                            s.len(),
                        ));
                    }
                }
            }
            None
        },
        Some((len, j)) => {
            let remaining = data.len() - j;
            if len > remaining as u64 {
                proof {
                    assert forall|s: Seq<u8>|
                        s.len() < 0x10000000000000000 implies !starts_with_at(
                        data@,
                        i as int,
                        spec_hdr(base, s.len()) + s,
                    ) by {
                        if starts_with_at(data@, i as int, spec_hdr(base, s.len()) + s) {
                            lemma_starts_with_concat(data@, i as int, spec_hdr(base, s.len()), s);
                            assert(spec_hdr(base, (s.len() as u64) as nat) == spec_hdr(
                                base,
                                s.len(),
                            ));
                        }
                    }
                }
                return None;
            }
            let l = len as usize;
            let mut content: Vec<u8> = Vec::new();
            let mut k: usize = 0;
            while k < l
                invariant
                    data@.len() <= usize::MAX,
                    j + l <= data@.len(),
                    k <= l,
                    content@ == data@.subrange(j as int, j + k),
                decreases l - k,
            {
                content.push(data[j + k]);
                k += 1;
                proof {
                    assert(data@.subrange(j as int, j + k) =~= data@.subrange(
                        j as int,
                        j + k - 1,
                    ).push(data@[j + k - 1]));
                }
            }
            proof {
                assert(starts_with_at(data@, j as int, content@));
                lemma_starts_with_concat(data@, i as int, spec_hdr(base, content@.len()), content@);
                assert(starts_with_at(data@, i as int, spec_hdr(base, content@.len()) + content@));
                assert forall|s: Seq<u8>|
                    s.len() < 0x10000000000000000 && starts_with_at(
                        data@,
                        i as int,
                        spec_hdr(base, s.len()) + s,
                    ) implies s == content@ by {
                    lemma_starts_with_concat(data@, i as int, spec_hdr(base, s.len()), s);
                    assert(spec_hdr(base, (s.len() as u64) as nat) == spec_hdr(base, s.len()));
                    assert(s.len() == len as nat);
                    assert(s == data@.subrange(j as int, j + s.len()));
                }
            }
            Some((content, j + l))
        },
    }
}

/// Relies on `String::from_utf8`: it succeeds exactly on valid UTF-8, and
/// the returned string's characters are those bytes decoded.
#[verifier::external_body]
fn string_from_utf8(bytes: Vec<u8>) -> (r: Option<String>)
    ensures
        r is Some <==> valid_utf8(bytes@),
        r matches Some(s) ==> s@ == decode_utf8(bytes@),
{
    String::from_utf8(bytes).ok()
}

/// Where each piece of an encoded response sits.
pub proof fn lemma_response_enc_parts(d: Seq<u8>, v: ResponseView)
    requires
        response_wf(v),
        d == spec_encode_response(v),
    ensures
        starts_with_at(d, 0, seq![0xa1u8]),
        match v {
            ResponseView::Success { message, bytes } => {
                let mb = encode_utf8(message);
                let e: int = spec_hdr(0x60, mb.len()).len() as int + mb.len() as int;
                &&& starts_with_at(d, 1, key_success())
                &&& starts_with_at(d, 9, seq![0xa2u8])
                &&& starts_with_at(d, 10, key_message())
                &&& starts_with_at(d, 18, spec_hdr(0x60, mb.len()) + mb)
                &&& starts_with_at(d, 18 + e, key_bytes())
                &&& starts_with_at(d, 24 + e, spec_hdr(0x40, bytes.len()) + bytes)
                &&& d.len() == 24 + e + spec_hdr(0x40, bytes.len()).len() + bytes.len()
            },
            ResponseView::Error { message } => {
                let mb = encode_utf8(message);
                &&& starts_with_at(d, 1, key_error())
                &&& starts_with_at(d, 7, seq![0xa1u8])
                &&& starts_with_at(d, 8, key_message())
                &&& starts_with_at(d, 16, spec_hdr(0x60, mb.len()) + mb)
                &&& d.len() == 16 + spec_hdr(0x60, mb.len()).len() + mb.len()
            },
        },
{
    assert(d.subrange(0, d.len() as int) =~= d);
    match v {
        ResponseView::Success { message, bytes } => {
            let mb = encode_utf8(message);
            let a = seq![0xa1u8];
            let b = key_success();
            let c = seq![0xa2u8];
            let k = key_message();
            let e = spec_textstr(mb);
            let f = key_bytes();
            let g = spec_bytestr(bytes);
            assert(starts_with_at(d, 0, a + b + c + k + e + f + g));
            lemma_starts_with_concat(d, 0, a + b + c + k + e + f, g);
            lemma_starts_with_concat(d, 0, a + b + c + k + e, f);
            lemma_starts_with_concat(d, 0, a + b + c + k, e);
            lemma_starts_with_concat(d, 0, a + b + c, k);
            lemma_starts_with_concat(d, 0, a + b, c);
            lemma_starts_with_concat(d, 0, a, b);
        },
        ResponseView::Error { message } => {
            let mb = encode_utf8(message);
            let a = seq![0xa1u8];
            let b = key_error();
            let c = seq![0xa1u8];
            let k = key_message();
            let e = spec_textstr(mb);
            assert(starts_with_at(d, 0, a + b + c + k + e));
            lemma_starts_with_concat(d, 0, a + b + c + k, e);
            lemma_starts_with_concat(d, 0, a + b + c, k);
            lemma_starts_with_concat(d, 0, a + b, c);
            lemma_starts_with_concat(d, 0, a, b);
        },
    }
}

/// Read one text-string field at `i` as a string value.
///
/// On success the field is the unique UTF-8 text occurring there; on
/// failure no well-formed text field occurs there at all.
fn parse_text_field(data: &Vec<u8>, i: usize) -> (r: Option<(String, usize)>)
    requires
        i <= data@.len(),
    ensures
        match r {
            Some(sj) => {
                let mb = encode_utf8(sj.0@);
                &&& i < sj.1 <= data@.len()
                &&& sj.1 == i + spec_hdr(0x60, mb.len()).len() + mb.len()
                &&& starts_with_at(data@, i as int, spec_hdr(0x60, mb.len()) + mb)
                &&& forall|m: Seq<char>|
                    encode_utf8(m).len() < 0x10000000000000000 && starts_with_at(
                        data@,
                        i as int,
                        spec_hdr(0x60, encode_utf8(m).len()) + encode_utf8(m),
                    ) ==> m == sj.0@
            },
            None => forall|m: Seq<char>|
                encode_utf8(m).len() < 0x10000000000000000 ==> !starts_with_at(
                    data@,
                    i as int,
                    spec_hdr(0x60, encode_utf8(m).len()) + encode_utf8(m),
                ),
        },
{
    match parse_lenval(data, i, 0x60) {
        None => {
            proof {
                assert forall|m: Seq<char>|
                    encode_utf8(m).len() < 0x10000000000000000 implies !starts_with_at(
                    data@,
                    i as int,
                    spec_hdr(0x60, encode_utf8(m).len()) + encode_utf8(m),
                ) by {}
            }
            None
        },
        Some((mb, j)) => {
            let ghost mbv = mb@;
            match string_from_utf8(mb) {
                None => {
                    proof {
                        assert forall|m: Seq<char>|
                            encode_utf8(m).len() < 0x10000000000000000 implies !starts_with_at(
                            data@,
                            i as int,
                            spec_hdr(0x60, encode_utf8(m).len()) + encode_utf8(m),
                        ) by {
                            if starts_with_at(
                                data@,
                                i as int,
                                spec_hdr(0x60, encode_utf8(m).len()) + encode_utf8(m),
                            ) {
                                assert(encode_utf8(m) == mbv);
                                vstd::utf8::encode_utf8_valid_utf8(m);
                            }
                        }
                    }
                    None
                },
                Some(msg) => {
                    proof {
                        vstd::utf8::decode_utf8_encode_utf8(mbv);
                        assert(encode_utf8(msg@) == mbv);
                        assert forall|m: Seq<char>|
                            encode_utf8(m).len() < 0x10000000000000000 && starts_with_at(
                                data@,
                                i as int,
                                spec_hdr(0x60, encode_utf8(m).len()) + encode_utf8(m),
                            ) implies m == msg@ by {
                            assert(encode_utf8(m) == mbv);
                            vstd::utf8::encode_utf8_decode_utf8(m);
                        }
                    }
                    Some((msg, j))
                },
            }
        },
    }
}

/// With the `"Success"` key in place, only a `Success` response can have
/// produced the data, and its pieces sit at fixed offsets.
proof fn lemma_success_shape(d: Seq<u8>, v: ResponseView)
    requires
        response_wf(v),
        d == spec_encode_response(v),
        starts_with_at(d, 1, key_success()),
    ensures
        v is Success,
        match v {
            ResponseView::Success { message, bytes } => {
                let mb = encode_utf8(message);
                let e: int = spec_hdr(0x60, mb.len()).len() as int + mb.len() as int;
                &&& d.len() >= 10
                &&& d[9] == 0xa2
                &&& starts_with_at(d, 10, key_message())
                &&& starts_with_at(d, 18, spec_hdr(0x60, mb.len()) + mb)
                &&& starts_with_at(d, 18 + e, key_bytes())
                &&& starts_with_at(d, 24 + e, spec_hdr(0x40, bytes.len()) + bytes)
                &&& d.len() == 24 + e + spec_hdr(0x40, bytes.len()).len() + bytes.len()
            },
            ResponseView::Error { .. } => true,
        },
{
    lemma_response_enc_parts(d, v);
    match v {
        ResponseView::Success { message, bytes } => {
            lemma_sw_index(d, 9, seq![0xa2u8], 0);
        },
        ResponseView::Error { message } => {
            lemma_sw_index(d, 1, key_error(), 0);
            lemma_sw_index(d, 1, key_success(), 0);
            assert(false);
        },
    }
}

/// With the `"Error"` key in place, only an `Error` response can have
/// produced the data, and its pieces sit at fixed offsets.
proof fn lemma_error_shape(d: Seq<u8>, v: ResponseView)
    requires
        response_wf(v),
        d == spec_encode_response(v),
        starts_with_at(d, 1, key_error()),
    ensures
        v is Error,
        match v {
            ResponseView::Error { message } => {
                let mb = encode_utf8(message);
                &&& d.len() >= 8
                &&& d[7] == 0xa1
                &&& starts_with_at(d, 8, key_message())
                &&& starts_with_at(d, 16, spec_hdr(0x60, mb.len()) + mb)
                &&& d.len() == 16 + spec_hdr(0x60, mb.len()).len() + mb.len()
            },
            ResponseView::Success { .. } => true,
        },
{
    lemma_response_enc_parts(d, v);
    match v {
        ResponseView::Success { message, bytes } => {
            lemma_sw_index(d, 1, key_error(), 0);
            lemma_sw_index(d, 1, key_success(), 0);
            assert(false);
        },
        ResponseView::Error { message } => {
            lemma_sw_index(d, 7, seq![0xa1u8], 0);
        },
    }
}

/// The `Success` arm of [`decode_response`], once its key has matched.
#[verifier::rlimit(100)]
fn decode_response_success(data: &Vec<u8>) -> (r: Result<Response, ExchangeError>)
    requires
        data@.len() >= 1,
        data@[0] == 0xa1,
        starts_with_at(data@, 1, key_success()),
    ensures
        r matches Ok(resp) ==> {
            &&& data@ == spec_encode_response(resp@)
            &&& response_wf(resp@)
            &&& forall|v: ResponseView|
                response_wf(v) && data@ == spec_encode_response(v) ==> v == resp@
        },
        r matches Err(e) ==> e == ExchangeError::MalformedPayload && forall|v: ResponseView|
            response_wf(v) ==> data@ != spec_encode_response(v),
{
    proof {
        assert(spec_vec_len(data) == data@.len());
    }
    if data.len() < 10 || data[9] != 0xa2 {
        proof {
            assert forall|v: ResponseView|
                response_wf(v) implies data@ != spec_encode_response(v) by {
                if data@ == spec_encode_response(v) {
                    lemma_success_shape(data@, v);
                }
            }
        }
        return Err(ExchangeError::MalformedPayload);
    }
    let km = key_message_vec();
    if !match_at(data, 10, &km) {
        proof {
            assert forall|v: ResponseView|
                response_wf(v) implies data@ != spec_encode_response(v) by {
                if data@ == spec_encode_response(v) {
                    lemma_success_shape(data@, v);
                }
            }
        }
        return Err(ExchangeError::MalformedPayload);
    }
    match parse_text_field(data, 18) {
        None => {
            proof {
                assert forall|v: ResponseView|
                    response_wf(v) implies data@ != spec_encode_response(v) by {
                    if data@ == spec_encode_response(v) {
                        lemma_success_shape(data@, v);
                    }
                }
            }
            Err(ExchangeError::MalformedPayload)
        },
        Some((msg, j)) => {
            let ghost msgv = msg@;
            let kb = key_bytes_vec();
            if !match_at(data, j, &kb) {
                proof {
                    assert forall|v: ResponseView|
                        response_wf(v) implies data@ != spec_encode_response(v) by {
                        if data@ == spec_encode_response(v) {
                            lemma_success_shape(data@, v);
                        }
                    }
                }
                return Err(ExchangeError::MalformedPayload);
            }
            match parse_lenval(data, j + 6, 0x40) {
                None => {
                    proof {
                        assert forall|v: ResponseView|
                            response_wf(v) implies data@ != spec_encode_response(v) by {
                            if data@ == spec_encode_response(v) {
                                lemma_success_shape(data@, v);
                            }
                        }
                    }
                    Err(ExchangeError::MalformedPayload)
                },
                Some((bs, j2)) => {
                    if j2 != data.len() {
                        proof {
                            assert forall|v: ResponseView|
                                response_wf(v) implies data@ != spec_encode_response(v) by {
                                if data@ == spec_encode_response(v) {
                                    lemma_success_shape(data@, v);
                                }
                            }
                        }
                        return Err(ExchangeError::MalformedPayload);
                    }
                    let resp = Response::Success { message: msg, bytes: bs };
                    proof {
                        let a = seq![0xa1u8];
                        let b = key_success();
                        let c = seq![0xa2u8];
                        let k = key_message();
                        let mb = encode_utf8(msgv);
                        let e = spec_hdr(0x60, mb.len()) + mb;
                        let f = key_bytes();
                        let g = spec_hdr(0x40, bs@.len()) + bs@;
                        assert(data@.subrange(0, 1) =~= seq![data@[0]]);
                        assert(starts_with_at(data@, 0, a));
                        assert(data@.subrange(9, 10) =~= seq![data@[9int]]);
                        assert(starts_with_at(data@, 9, c));
                        lemma_starts_with_concat(data@, 0, a, b);
                        lemma_starts_with_concat(data@, 0, a + b, c);
                        lemma_starts_with_concat(data@, 0, a + b + c, k);
                        lemma_starts_with_concat(data@, 0, a + b + c + k, e);
                        lemma_starts_with_concat(data@, 0, a + b + c + k + e, f);
                        lemma_starts_with_concat(data@, 0, a + b + c + k + e + f, g);
                        assert(starts_with_at(data@, 0, a + b + c + k + e + f + g));
                        assert(data@ =~= data@.subrange(0, data@.len() as int));
                        assert(data@ == a + b + c + k + e + f + g);
                        assert(data@ == spec_encode_response(resp@));
                        assert forall|v: ResponseView|
                            response_wf(v) && data@ == spec_encode_response(v) implies v
                            == resp@ by {
                            lemma_success_shape(data@, v);
                            match v {
                                ResponseView::Success { message, bytes } => {
                                    assert(message == msgv);
                                    assert(bytes == bs@);
                                },
                                ResponseView::Error { .. } => {},
                            }
                        }
                    }
                    Ok(resp)
                },
            }
        },
    }
}

/// The `Error` arm of [`decode_response`], once its key has matched.
#[verifier::rlimit(100)]
fn decode_response_error(data: &Vec<u8>) -> (r: Result<Response, ExchangeError>)
    requires
        data@.len() >= 1,
        data@[0] == 0xa1,
        starts_with_at(data@, 1, key_error()),
    ensures
        r matches Ok(resp) ==> {
            &&& data@ == spec_encode_response(resp@)
            &&& response_wf(resp@)
            &&& forall|v: ResponseView|
                response_wf(v) && data@ == spec_encode_response(v) ==> v == resp@
        },
        r matches Err(e) ==> e == ExchangeError::MalformedPayload && forall|v: ResponseView|
            response_wf(v) ==> data@ != spec_encode_response(v),
{
    proof {
        assert(spec_vec_len(data) == data@.len());
    }
    if data.len() < 8 || data[7] != 0xa1 {
        proof {
            assert forall|v: ResponseView|
                response_wf(v) implies data@ != spec_encode_response(v) by {
                if data@ == spec_encode_response(v) {
                    lemma_error_shape(data@, v);
                }
            }
        }
        return Err(ExchangeError::MalformedPayload);
    }
    let km = key_message_vec();
    if !match_at(data, 8, &km) {
        proof {
            assert forall|v: ResponseView|
                response_wf(v) implies data@ != spec_encode_response(v) by {
                if data@ == spec_encode_response(v) {
                    lemma_error_shape(data@, v);
                }
            }
        }
        return Err(ExchangeError::MalformedPayload);
    }
    match parse_text_field(data, 16) {
        None => {
            proof {
                assert forall|v: ResponseView|
                    response_wf(v) implies data@ != spec_encode_response(v) by {
                    if data@ == spec_encode_response(v) {
                        lemma_error_shape(data@, v);
                    }
                }
            }
            Err(ExchangeError::MalformedPayload)
        },
        Some((msg, j)) => {
            let ghost msgv = msg@;
            if j != data.len() {
                proof {
                    assert forall|v: ResponseView|
                        response_wf(v) implies data@ != spec_encode_response(v) by {
                        if data@ == spec_encode_response(v) {
                            lemma_error_shape(data@, v);
                        }
                    }
                }
                return Err(ExchangeError::MalformedPayload);
            }
            let resp = Response::Error { message: msg };
            proof {
                let a = seq![0xa1u8];
                let b = key_error();
                let c = seq![0xa1u8];
                let k = key_message();
                let mb = encode_utf8(msgv);
                let e = spec_hdr(0x60, mb.len()) + mb;
                assert(data@.subrange(0, 1) =~= seq![data@[0]]);
                assert(starts_with_at(data@, 0, a));
                assert(data@.subrange(7, 8) =~= seq![data@[7int]]);
                assert(starts_with_at(data@, 7, c));
                lemma_starts_with_concat(data@, 0, a, b);
                lemma_starts_with_concat(data@, 0, a + b, c);
                lemma_starts_with_concat(data@, 0, a + b + c, k);
                lemma_starts_with_concat(data@, 0, a + b + c + k, e);
                assert(starts_with_at(data@, 0, a + b + c + k + e));
                assert(data@ =~= data@.subrange(0, data@.len() as int));
                assert(data@ == a + b + c + k + e);
                assert(data@ == spec_encode_response(resp@));
                assert forall|v: ResponseView|
                    response_wf(v) && data@ == spec_encode_response(v) implies v == resp@ by {
                    lemma_error_shape(data@, v);
                    match v {
                        ResponseView::Error { message } => {
                            assert(message == msgv);
                        },
                        ResponseView::Success { .. } => {},
                    }
                }
            }
            Ok(resp)
        },
    }
}

/// Deserialize a response.
///
/// Succeeds exactly on the wire encodings the codec produces: on success
/// the input is the encoding of the returned response and of no other;
/// everything else is rejected as `MalformedPayload`.
#[verifier::rlimit(100)]
pub fn decode_response(data: &Vec<u8>) -> (r: Result<Response, ExchangeError>)
    ensures
        r matches Ok(resp) ==> {
            &&& data@ == spec_encode_response(resp@)
            &&& response_wf(resp@)
            &&& forall|v: ResponseView|
                response_wf(v) && data@ == spec_encode_response(v) ==> v == resp@
        },
        r matches Err(e) ==> e == ExchangeError::MalformedPayload && forall|v: ResponseView|
            response_wf(v) ==> data@ != spec_encode_response(v),
{
    proof {
        assert(spec_vec_len(data) == data@.len());
    }
    if data.len() < 1 || data[0] != 0xa1 {
        proof {
            assert forall|v: ResponseView|
                response_wf(v) implies data@ != spec_encode_response(v) by {
                if data@ == spec_encode_response(v) {
                    lemma_response_enc_parts(data@, v);
                    lemma_sw_index(data@, 0, seq![0xa1u8], 0);
                }
            }
        }
        return Err(ExchangeError::MalformedPayload);
    }
    let ks = key_success_vec();
    let ke = key_error_vec();
    if match_at(data, 1, &ks) {
        decode_response_success(data)
    } else if match_at(data, 1, &ke) {
        decode_response_error(data)
    } else {
        proof {
            assert forall|v: ResponseView| response_wf(v) implies data@ != spec_encode_response(
                v,
            ) by {
                if data@ == spec_encode_response(v) {
                    lemma_response_enc_parts(data@, v);
                }
            }
        }
        Err(ExchangeError::MalformedPayload)
    }
}

/// The key `"bytes"` as runtime bytes.
fn key_bytes_vec() -> (r: Vec<u8>)
    ensures
        r@ == key_bytes(),
{
    let r: Vec<u8> = vec![0x65, 0x62, 0x79, 0x74, 0x65, 0x73];
    proof {
        assert(r@ =~= key_bytes());
    }
    r
}


/// Where each piece of an encoded request sits.
pub proof fn lemma_request_enc_parts(d: Seq<u8>, v: RequestView)
    requires
        request_wf(v),
        d == spec_encode_request(v),
    ensures
        starts_with_at(d, 0, seq![0xa1u8]),
        match v {
            RequestView::Publish { client_id, payload } => {
                let u = spec_uint(client_id as nat);
                let ul: int = u.len() as int;
                &&& starts_with_at(d, 1, key_publish())
                &&& starts_with_at(d, 9, seq![0xa2u8])
                &&& starts_with_at(d, 10, key_client_id())
                &&& starts_with_at(d, 20, u)
                &&& starts_with_at(d, 20 + ul, key_payload())
                &&& starts_with_at(d, 28 + ul, spec_hdr(0x40, payload.len()) + payload)
                &&& d.len() == 28 + u.len() + spec_hdr(0x40, payload.len()).len() + payload.len()
            },
            RequestView::Subscribe { client_id } => {
                let u = spec_uint(client_id as nat);
                &&& starts_with_at(d, 1, key_subscribe())
                &&& starts_with_at(d, 11, seq![0xa1u8])
                &&& starts_with_at(d, 12, key_client_id())
                &&& starts_with_at(d, 22, u)
                &&& d.len() == 22 + u.len()
            },
            RequestView::Unsubscribe { client_id } => {
                let u = spec_uint(client_id as nat);
                &&& starts_with_at(d, 1, key_unsubscribe())
                &&& starts_with_at(d, 13, seq![0xa1u8])
                &&& starts_with_at(d, 14, key_client_id())
                &&& starts_with_at(d, 24, u)
                &&& d.len() == 24 + u.len()
            },
        },
{
    assert(d.subrange(0, d.len() as int) =~= d);
    match v {
        RequestView::Publish { client_id, payload } => {
            let a = seq![0xa1u8];
            let b = key_publish();
            let c = seq![0xa2u8];
            let k = key_client_id();
            let u = spec_uint(client_id as nat);
            let f = key_payload();
            let g = spec_bytestr(payload);
            assert(starts_with_at(d, 0, a + b + c + k + u + f + g));
            lemma_starts_with_concat(d, 0, a + b + c + k + u + f, g);
            lemma_starts_with_concat(d, 0, a + b + c + k + u, f);
            lemma_starts_with_concat(d, 0, a + b + c + k, u);
            lemma_starts_with_concat(d, 0, a + b + c, k);
            lemma_starts_with_concat(d, 0, a + b, c);
            lemma_starts_with_concat(d, 0, a, b);
        },
        RequestView::Subscribe { client_id } => {
            let a = seq![0xa1u8];
            let b = key_subscribe();
            let c = seq![0xa1u8];
            let k = key_client_id();
            let u = spec_uint(client_id as nat);
            assert(starts_with_at(d, 0, a + b + c + k + u));
            lemma_starts_with_concat(d, 0, a + b + c + k, u);
            lemma_starts_with_concat(d, 0, a + b + c, k);
            lemma_starts_with_concat(d, 0, a + b, c);
            lemma_starts_with_concat(d, 0, a, b);
        },
        RequestView::Unsubscribe { client_id } => {
            let a = seq![0xa1u8];
            let b = key_unsubscribe();
            let c = seq![0xa1u8];
            let k = key_client_id();
            let u = spec_uint(client_id as nat);
            assert(starts_with_at(d, 0, a + b + c + k + u));
            lemma_starts_with_concat(d, 0, a + b + c + k, u);
            lemma_starts_with_concat(d, 0, a + b + c, k);
            lemma_starts_with_concat(d, 0, a + b, c);
            lemma_starts_with_concat(d, 0, a, b);
        },
    }
}

/// The variant keys open with distinct bytes, so at most one can match.
proof fn lemma_request_keys_distinct(d: Seq<u8>, v: RequestView)
    requires
        request_wf(v),
        d == spec_encode_request(v),
    ensures
        starts_with_at(d, 1, key_publish()) ==> v is Publish,
        starts_with_at(d, 1, key_subscribe()) ==> v is Subscribe,
        starts_with_at(d, 1, key_unsubscribe()) ==> v is Unsubscribe,
{
    lemma_request_enc_parts(d, v);
    match v {
        RequestView::Publish { .. } => {
            lemma_sw_index(d, 1, key_publish(), 0);
            if starts_with_at(d, 1, key_subscribe()) {
                lemma_sw_index(d, 1, key_subscribe(), 0);
            }
            if starts_with_at(d, 1, key_unsubscribe()) {
                lemma_sw_index(d, 1, key_unsubscribe(), 0);
            }
        },
        RequestView::Subscribe { .. } => {
            lemma_sw_index(d, 1, key_subscribe(), 0);
            if starts_with_at(d, 1, key_publish()) {
                lemma_sw_index(d, 1, key_publish(), 0);
            }
            if starts_with_at(d, 1, key_unsubscribe()) {
                lemma_sw_index(d, 1, key_unsubscribe(), 0);
            }
        },
        RequestView::Unsubscribe { .. } => {
            lemma_sw_index(d, 1, key_unsubscribe(), 0);
            if starts_with_at(d, 1, key_publish()) {
                lemma_sw_index(d, 1, key_publish(), 0);
            }
            if starts_with_at(d, 1, key_subscribe()) {
                lemma_sw_index(d, 1, key_subscribe(), 0);
            }
        },
    }
}

/// The `Publish` arm of [`decode_request`], once its key has matched.
#[verifier::rlimit(100)]
fn decode_request_publish(data: &Vec<u8>) -> (r: Result<Request, ExchangeError>)
    requires
        data@.len() >= 1,
        data@[0] == 0xa1,
        starts_with_at(data@, 1, key_publish()),
    ensures
        r matches Ok(req) ==> {
            &&& data@ == spec_encode_request(req@)
            &&& request_wf(req@)
            &&& forall|v: RequestView|
                request_wf(v) && data@ == spec_encode_request(v) ==> v == req@
        },
        r matches Err(e) ==> e == ExchangeError::MalformedPayload && forall|v: RequestView|
            request_wf(v) ==> data@ != spec_encode_request(v),
{
    proof {
        assert(spec_vec_len(data) == data@.len());
    }
    if data.len() < 10 || data[9] != 0xa2 {
        proof {
            assert forall|v: RequestView| request_wf(v) implies data@ != spec_encode_request(
                v,
            ) by {
                if data@ == spec_encode_request(v) {
                    lemma_request_keys_distinct(data@, v);
                    lemma_request_enc_parts(data@, v);
                    lemma_sw_index(data@, 9, seq![0xa2u8], 0);
                }
            }
        }
        return Err(ExchangeError::MalformedPayload);
    }
    let kc = key_client_id_vec();
    if !match_at(data, 10, &kc) {
        proof {
            assert forall|v: RequestView| request_wf(v) implies data@ != spec_encode_request(
                v,
            ) by {
                if data@ == spec_encode_request(v) {
                    lemma_request_keys_distinct(data@, v);
                    lemma_request_enc_parts(data@, v);
                }
            }
        }
        return Err(ExchangeError::MalformedPayload);
    }
    match parse_hdr(data, 20, 0x00) {
        None => {
            proof {
                assert forall|v: RequestView|
                    request_wf(v) implies data@ != spec_encode_request(v) by {
                    if data@ == spec_encode_request(v) {
                        lemma_request_keys_distinct(data@, v);
                        lemma_request_enc_parts(data@, v);
                    }
                }
            }
            Err(ExchangeError::MalformedPayload)
        },
        Some((cid, j)) => {
            let kp = key_payload_vec();
            if !match_at(data, j, &kp) {
                proof {
                    assert forall|v: RequestView|
                        request_wf(v) implies data@ != spec_encode_request(v) by {
                        if data@ == spec_encode_request(v) {
                            lemma_request_keys_distinct(data@, v);
                            lemma_request_enc_parts(data@, v);
                        }
                    }
                }
                return Err(ExchangeError::MalformedPayload);
            }
            match parse_lenval(data, j + 8, 0x40) {
                None => {
                    proof {
                        assert forall|v: RequestView|
                            request_wf(v) implies data@ != spec_encode_request(v) by {
                            if data@ == spec_encode_request(v) {
                                lemma_request_keys_distinct(data@, v);
                                lemma_request_enc_parts(data@, v);
                            }
                        }
                    }
                    Err(ExchangeError::MalformedPayload)
                },
                Some((pl, j2)) => {
                    if j2 != data.len() {
                        proof {
                            assert forall|v: RequestView|
                                request_wf(v) implies data@ != spec_encode_request(v) by {
                                if data@ == spec_encode_request(v) {
                                    lemma_request_keys_distinct(data@, v);
                                    lemma_request_enc_parts(data@, v);
                                }
                            }
                        }
                        return Err(ExchangeError::MalformedPayload);
                    }
                    let req = Request::Publish { client_id: cid, payload: pl };
                    proof {
                        let a = seq![0xa1u8];
                        let b = key_publish();
                        let c = seq![0xa2u8];
                        let k = key_client_id();
                        let u = spec_hdr(0x00, cid as nat);
                        let f = key_payload();
                        let g = spec_hdr(0x40, pl@.len()) + pl@;
                        assert(data@.subrange(0, 1) =~= seq![data@[0]]);
                        assert(starts_with_at(data@, 0, a));
                        assert(data@.subrange(9, 10) =~= seq![data@[9int]]);
                        assert(starts_with_at(data@, 9, c));
                        lemma_starts_with_concat(data@, 0, a, b);
                        lemma_starts_with_concat(data@, 0, a + b, c);
                        lemma_starts_with_concat(data@, 0, a + b + c, k);
                        lemma_starts_with_concat(data@, 0, a + b + c + k, u);
                        lemma_starts_with_concat(data@, 0, a + b + c + k + u, f);
                        lemma_starts_with_concat(data@, 0, a + b + c + k + u + f, g);
                        assert(starts_with_at(data@, 0, a + b + c + k + u + f + g));
                        assert(data@ =~= data@.subrange(0, data@.len() as int));
                        assert(data@ == a + b + c + k + u + f + g);
                        assert(data@ == spec_encode_request(req@));
                        assert forall|v: RequestView|
                            request_wf(v) && data@ == spec_encode_request(v) implies v == req@ by {
                            lemma_request_keys_distinct(data@, v);
                            lemma_request_enc_parts(data@, v);
                            match v {
                                RequestView::Publish { client_id, payload } => {
                                    assert(client_id == cid);
                                    assert(payload == pl@);
                                },
                                _ => {},
                            }
                        }
                    }
                    Ok(req)
                },
            }
        },
    }
}

/// The `Subscribe` arm of [`decode_request`], once its key has matched.
#[verifier::rlimit(100)]
fn decode_request_subscribe(data: &Vec<u8>) -> (r: Result<Request, ExchangeError>)
    requires
        data@.len() >= 1,
        data@[0] == 0xa1,
        starts_with_at(data@, 1, key_subscribe()),
    ensures
        r matches Ok(req) ==> {
            &&& data@ == spec_encode_request(req@)
            &&& request_wf(req@)
            &&& forall|v: RequestView|
                request_wf(v) && data@ == spec_encode_request(v) ==> v == req@
        },
        r matches Err(e) ==> e == ExchangeError::MalformedPayload && forall|v: RequestView|
            request_wf(v) ==> data@ != spec_encode_request(v),
{
    proof {
        assert(spec_vec_len(data) == data@.len());
    }
    if data.len() < 12 || data[11] != 0xa1 {
        proof {
            assert forall|v: RequestView| request_wf(v) implies data@ != spec_encode_request(
                v,
            ) by {
                if data@ == spec_encode_request(v) {
                    lemma_request_keys_distinct(data@, v);
                    lemma_request_enc_parts(data@, v);
                    lemma_sw_index(data@, 11, seq![0xa1u8], 0);
                }
            }
        }
        return Err(ExchangeError::MalformedPayload);
    }
    let kc = key_client_id_vec();
    if !match_at(data, 12, &kc) {
        proof {
            assert forall|v: RequestView| request_wf(v) implies data@ != spec_encode_request(
                v,
            ) by {
                if data@ == spec_encode_request(v) {
                    lemma_request_keys_distinct(data@, v);
                    lemma_request_enc_parts(data@, v);
                }
            }
        }
        return Err(ExchangeError::MalformedPayload);
    }
    match parse_hdr(data, 22, 0x00) {
        None => {
            proof {
                assert forall|v: RequestView|
                    request_wf(v) implies data@ != spec_encode_request(v) by {
                    if data@ == spec_encode_request(v) {
                        lemma_request_keys_distinct(data@, v);
                        lemma_request_enc_parts(data@, v);
                    }
                }
            }
            Err(ExchangeError::MalformedPayload)
        },
        Some((cid, j)) => {
            if j != data.len() {
                proof {
                    assert forall|v: RequestView|
                        request_wf(v) implies data@ != spec_encode_request(v) by {
                        if data@ == spec_encode_request(v) {
                            lemma_request_keys_distinct(data@, v);
                            lemma_request_enc_parts(data@, v);
                        }
                    }
                }
                return Err(ExchangeError::MalformedPayload);
            }
            let req = Request::Subscribe { client_id: cid };
            proof {
                let a = seq![0xa1u8];
                let b = key_subscribe();
                let c = seq![0xa1u8];
                let k = key_client_id();
                let u = spec_hdr(0x00, cid as nat);
                assert(data@.subrange(0, 1) =~= seq![data@[0]]);
                assert(starts_with_at(data@, 0, a));
                assert(data@.subrange(11, 12) =~= seq![data@[11int]]);
                assert(starts_with_at(data@, 11, c));
                lemma_starts_with_concat(data@, 0, a, b);
                lemma_starts_with_concat(data@, 0, a + b, c);
                lemma_starts_with_concat(data@, 0, a + b + c, k);
                lemma_starts_with_concat(data@, 0, a + b + c + k, u);
                assert(starts_with_at(data@, 0, a + b + c + k + u));
                assert(data@ =~= data@.subrange(0, data@.len() as int));
                assert(data@ == a + b + c + k + u);
                assert(data@ == spec_encode_request(req@));
                assert forall|v: RequestView|
                    request_wf(v) && data@ == spec_encode_request(v) implies v == req@ by {
                    lemma_request_keys_distinct(data@, v);
                    lemma_request_enc_parts(data@, v);
                    match v {
                        RequestView::Subscribe { client_id } => {
                            assert(client_id == cid);
                        },
                        _ => {},
                    }
                }
            }
            Ok(req)
        },
    }
}

/// The `Unsubscribe` arm of [`decode_request`], once its key has matched.
#[verifier::rlimit(100)]
fn decode_request_unsubscribe(data: &Vec<u8>) -> (r: Result<Request, ExchangeError>)
    requires
        data@.len() >= 1,
        data@[0] == 0xa1,
        starts_with_at(data@, 1, key_unsubscribe()),
    ensures
        r matches Ok(req) ==> {
            &&& data@ == spec_encode_request(req@)
            &&& request_wf(req@)
            &&& forall|v: RequestView|
                request_wf(v) && data@ == spec_encode_request(v) ==> v == req@
        },
        r matches Err(e) ==> e == ExchangeError::MalformedPayload && forall|v: RequestView|
            request_wf(v) ==> data@ != spec_encode_request(v),
{
    proof {
        assert(spec_vec_len(data) == data@.len());
    }
    if data.len() < 14 || data[13] != 0xa1 {
        proof {
            assert forall|v: RequestView| request_wf(v) implies data@ != spec_encode_request(
                v,
            ) by {
                if data@ == spec_encode_request(v) {
                    lemma_request_keys_distinct(data@, v);
                    lemma_request_enc_parts(data@, v);
                    lemma_sw_index(data@, 13, seq![0xa1u8], 0);
                }
            }
        }
        return Err(ExchangeError::MalformedPayload);
    }
    let kc = key_client_id_vec();
    if !match_at(data, 14, &kc) {
        proof {
            assert forall|v: RequestView| request_wf(v) implies data@ != spec_encode_request(
                v,
            ) by {
                if data@ == spec_encode_request(v) {
                    lemma_request_keys_distinct(data@, v);
                    lemma_request_enc_parts(data@, v);
                }
            }
        }
        return Err(ExchangeError::MalformedPayload);
    }
    match parse_hdr(data, 24, 0x00) {
        None => {
            proof {
                assert forall|v: RequestView|
                    request_wf(v) implies data@ != spec_encode_request(v) by {
                    if data@ == spec_encode_request(v) {
                        lemma_request_keys_distinct(data@, v);
                        lemma_request_enc_parts(data@, v);
                    }
                }
            }
            Err(ExchangeError::MalformedPayload)
        },
        Some((cid, j)) => {
            if j != data.len() {
                proof {
                    assert forall|v: RequestView|
                        request_wf(v) implies data@ != spec_encode_request(v) by {
                        if data@ == spec_encode_request(v) {
                            lemma_request_keys_distinct(data@, v);
                            lemma_request_enc_parts(data@, v);
                        }
                    }
                }
                return Err(ExchangeError::MalformedPayload);
            }
            let req = Request::Unsubscribe { client_id: cid };
            proof {
                let a = seq![0xa1u8];
                let b = key_unsubscribe();
                let c = seq![0xa1u8];
                let k = key_client_id();
                let u = spec_hdr(0x00, cid as nat);
                assert(data@.subrange(0, 1) =~= seq![data@[0]]);
                assert(starts_with_at(data@, 0, a));
                assert(data@.subrange(13, 14) =~= seq![data@[13int]]);
                assert(starts_with_at(data@, 13, c));
                lemma_starts_with_concat(data@, 0, a, b);
                lemma_starts_with_concat(data@, 0, a + b, c);
                lemma_starts_with_concat(data@, 0, a + b + c, k);
                lemma_starts_with_concat(data@, 0, a + b + c + k, u);
                assert(starts_with_at(data@, 0, a + b + c + k + u));
                assert(data@ =~= data@.subrange(0, data@.len() as int));
                assert(data@ == a + b + c + k + u);
                assert(data@ == spec_encode_request(req@));
                assert forall|v: RequestView|
                    request_wf(v) && data@ == spec_encode_request(v) implies v == req@ by {
                    lemma_request_keys_distinct(data@, v);
                    lemma_request_enc_parts(data@, v);
                    match v {
                        RequestView::Unsubscribe { client_id } => {
                            assert(client_id == cid);
                        },
                        _ => {},
                    }
                }
            }
            Ok(req)
        },
    }
}

/// Deserialize a request, the loopback partner of [`encode_request`].
///
/// Succeeds exactly on the wire encodings the codec produces: on success
/// the input is the encoding of the returned request and of no other;
/// everything else is rejected as `MalformedPayload`.
pub fn decode_request(data: &Vec<u8>) -> (r: Result<Request, ExchangeError>)
    ensures
        r matches Ok(req) ==> {
            &&& data@ == spec_encode_request(req@)
            &&& request_wf(req@)
            &&& forall|v: RequestView|
                request_wf(v) && data@ == spec_encode_request(v) ==> v == req@
        },
        r matches Err(e) ==> e == ExchangeError::MalformedPayload && forall|v: RequestView|
            request_wf(v) ==> data@ != spec_encode_request(v),
{
    proof {
        assert(spec_vec_len(data) == data@.len());
    }
    if data.len() < 1 || data[0] != 0xa1 {
        proof {
            assert forall|v: RequestView| request_wf(v) implies data@ != spec_encode_request(
                v,
            ) by {
                if data@ == spec_encode_request(v) {
                    lemma_request_enc_parts(data@, v);
                    lemma_sw_index(data@, 0, seq![0xa1u8], 0);
                }
            }
        }
        return Err(ExchangeError::MalformedPayload);
    }
    let kp = key_publish_vec();
    let ks = key_subscribe_vec();
    let ku = key_unsubscribe_vec();
    if match_at(data, 1, &kp) {
        decode_request_publish(data)
    } else if match_at(data, 1, &ks) {
        decode_request_subscribe(data)
    } else if match_at(data, 1, &ku) {
        decode_request_unsubscribe(data)
    } else {
        proof {
            assert forall|v: RequestView| request_wf(v) implies data@ != spec_encode_request(
                v,
            ) by {
                if data@ == spec_encode_request(v) {
                    lemma_request_enc_parts(data@, v);
                }
            }
        }
        Err(ExchangeError::MalformedPayload)
    }
}

/// Law: decoding the encoding of any constructible request recovers an
/// equal request.
pub fn codec_round_trip_request(req: &Request) -> (r: Request)
    ensures
        r@ == req@,
{
    let data = encode_request(req);
    let out = decode_request(&data);
    proof {
        if out is Err {
            assert(data@ != spec_encode_request(req@));
        }
    }
    out.unwrap()
}

/// Law: decoding the encoding of any constructible response recovers an
/// equal response.
pub fn codec_round_trip_response(resp: &Response) -> (r: Response)
    ensures
        r@ == resp@,
{
    let data = encode_response(resp);
    let out = decode_response(&data);
    proof {
        if out is Err {
            assert(data@ != spec_encode_response(resp@));
        }
    }
    out.unwrap()
}

} // verus!
