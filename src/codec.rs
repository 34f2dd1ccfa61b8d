//! The stored values of a topic: the enqueued record kept in the message store,
//! and the index record kept in the index store.
//!
//! A byte field is its length as eight big-endian bytes followed by the bytes;
//! text is stored as its UTF-8 bytes.  The priority is stored shifted by 2^31
//! so that it is a non-negative number.
use crate::utils::{be8, be_value, lemma_be_round_trip, msgid_from_u64, msgid_to_u64};
use vstd::prelude::*;
use vstd::slice::{slice_subrange, slice_to_vec};
use vstd::utf8::{decode_utf8, encode_utf8, encode_utf8_decode_utf8, encode_utf8_valid_utf8, valid_utf8};

verus! {

/// A message as a producer hands it in.
pub struct EnqueueRequest {
    pub topic: String,
    pub payload: Vec<u8>,
    pub meta: String,
    pub priority: i32,
    pub deliver_after: u32,
}

/// The contents of an enqueued record.
pub struct RequestView {
    pub topic: Seq<char>,
    pub payload: Seq<u8>,
    pub meta: Seq<char>,
    pub priority: i32,
    pub deliver_after: u32,
}

impl View for EnqueueRequest {
    type V = RequestView;

    open spec fn view(&self) -> RequestView {
        RequestView {
            topic: self.topic@,
            payload: self.payload@,
            meta: self.meta@,
            priority: self.priority,
            deliver_after: self.deliver_after,
        }
    }
}

/// What the index store keeps of a task: enough to schedule it again.
pub struct IndexRecord {
    pub priority: i32,
    pub timestamp: u64,
    pub message_id: Vec<u8>,
}

/// A byte field: its length, then its bytes.
pub open spec fn field(b: Seq<u8>) -> Seq<u8> {
    be8(b.len() as u64) + b
}

/// A priority as a non-negative number.
pub open spec fn priority_code(p: i32) -> u64 {
    (p as int + 0x8000_0000) as u64
}

/// The bytes that store an enqueued record.
pub open spec fn request_bytes(r: RequestView) -> Seq<u8> {
    field(encode_utf8(r.topic)) + (field(r.payload) + (field(encode_utf8(r.meta)) + (be8(
        priority_code(r.priority),
    ) + be8(r.deliver_after as u64))))
}

/// The bytes that store an index record for a task.
pub open spec fn index_bytes(priority: i32, timestamp: u64, id: u64) -> Seq<u8> {
    be8(priority_code(priority)) + (be8(timestamp) + be8(id))
}

/// The bytes are the stored form of some index record.
pub open spec fn is_index_record(b: Seq<u8>) -> bool {
    exists|p: i32, t: u64, id: u64| #[trigger] index_bytes(p, t, id) == b
}

/// The priority, due time and id that an index record's bytes store.
pub open spec fn index_fields(b: Seq<u8>) -> (i32, u64, u64) {
    choose|f: (i32, u64, u64)| #[trigger] index_bytes(f.0, f.1, f.2) == b
}

/// Relies on `String::from_utf8`: it accepts exactly the valid UTF-8 byte
/// strings and keeps their characters.
#[verifier::external_body]
fn string_from_utf8(b: Vec<u8>) -> (r: Option<String>)
    ensures
        r is Some <==> valid_utf8(b@),
        r matches Some(s) ==> s@ == decode_utf8(b@),
{
    String::from_utf8(b).ok()
}

/// Appends `src` to `out`.
fn put_bytes(out: &mut Vec<u8>, src: &[u8])
    ensures
        final(out)@ == old(out)@ + src@,
{
    let mut v = slice_to_vec(src);
    out.append(&mut v);
}

/// Appends a length-prefixed byte field.
fn put_field(out: &mut Vec<u8>, src: &[u8])
    ensures
        final(out)@ == old(out)@ + field(src@),
{
    let mut len = msgid_from_u64(src.len() as u64);
    out.append(&mut len);
    put_bytes(out, src);
    assert(final(out)@ =~= old(out)@ + field(src@));
}

/// The stored form of an enqueued record.
pub fn encode_request(r: &EnqueueRequest) -> (out: Vec<u8>)
    ensures
        out@ == request_bytes(r@),
{
    let mut out: Vec<u8> = Vec::new();
    put_field(&mut out, r.topic.as_str().as_bytes());
    put_field(&mut out, r.payload.as_slice());
    put_field(&mut out, r.meta.as_str().as_bytes());
    let mut p = msgid_from_u64((r.priority as i64 + 0x8000_0000i64) as u64);
    out.append(&mut p);
    let mut d = msgid_from_u64(r.deliver_after as u64);
    out.append(&mut d);
    assert(out@ =~= request_bytes(r@));
    out
}

/// The stored form of an index record.
pub fn encode_index(priority: i32, timestamp: u64, id: u64) -> (out: Vec<u8>)
    ensures
        out@ == index_bytes(priority, timestamp, id),
{
    let mut out = msgid_from_u64((priority as i64 + 0x8000_0000i64) as u64);
    let mut t = msgid_from_u64(timestamp);
    out.append(&mut t);
    let mut i = msgid_from_u64(id);
    out.append(&mut i);
    assert(out@ =~= index_bytes(priority, timestamp, id));
    out
}

/// Reads eight big-endian bytes at `pos`.
fn read_u64(b: &[u8], pos: usize) -> (r: Option<u64>)
    ensures
        r is Some <==> pos + 8 <= b@.len(),
        r matches Some(n) ==> n == be_value(b@.subrange(pos as int, pos + 8)),
{
    if b.len() < 8 || pos > b.len() - 8 {
        None
    } else {
        Some(msgid_to_u64(slice_subrange(b, pos, pos + 8)))
    }
}

/// Reads a length-prefixed byte field at `pos`; gives its bytes and the
/// position after it.
fn read_field(b: &[u8], pos: usize) -> (r: Option<(Vec<u8>, usize)>)
    ensures
        r matches Some((f, next)) ==> pos + 8 <= next <= b@.len() && f@ == b@.subrange(pos + 8, next as int)
            && next - pos - 8 == be_value(b@.subrange(pos as int, pos + 8)),
        forall|x: Seq<u8>, rest: Seq<u8>|
            pos <= b@.len() && #[trigger] b@.skip(pos as int) == field(x) + rest ==> (r matches Some((f, next)) && f@
                == x && b@.skip(next as int) == rest),
{
    let blen = b.len();
    proof {
        assert forall|x: Seq<u8>, rest: Seq<u8>|
            pos <= b@.len() && #[trigger] b@.skip(pos as int) == field(x) + rest implies b@.subrange(
            pos as int,
            pos + 8,
        ) == be8(x.len() as u64) && be_value(be8(x.len() as u64)) == x.len() && pos + 8 + x.len() <= b@.len()
            && b@.subrange(pos + 8, pos + 8 + x.len() as int) == x && b@.skip(pos + 8 + x.len() as int) == rest by {
            let s = b@.skip(pos as int);
            assert(s.len() == 8 + x.len() + rest.len());
            lemma_be_round_trip(x.len() as u64);
            assert(s.subrange(0, 8) =~= be8(x.len() as u64));
            assert(b@.subrange(pos as int, pos + 8) =~= s.subrange(0, 8));
            assert(s.subrange(8, 8 + x.len() as int) =~= x);
            assert(b@.subrange(pos + 8, pos + 8 + x.len() as int) =~= s.subrange(8, 8 + x.len() as int));
            assert(b@.skip(pos + 8 + x.len() as int) =~= s.skip(8 + x.len() as int));
            assert(s.skip(8 + x.len() as int) =~= rest);
        }
    }
    match read_u64(b, pos) {
        None => None,
        Some(n) => {
            let start = pos + 8;
            if n > (b.len() - start) as u64 {
                None
            } else {
                let next = start + n as usize;
                let f = slice_to_vec(slice_subrange(b, start, next));
                Some((f, next))
            }
        },
    }
}

/// Reads a stored text field.
fn read_text(b: &[u8], pos: usize) -> (r: Option<(String, usize)>)
    ensures
        r matches Some((s, next)) ==> pos + 8 <= next <= b@.len() && encode_utf8(s@) == b@.subrange(
            pos + 8,
            next as int,
        ) && next - pos - 8 == be_value(b@.subrange(pos as int, pos + 8)),
        forall|x: Seq<char>, rest: Seq<u8>|
            pos <= b@.len() && #[trigger] b@.skip(pos as int) == field(encode_utf8(x)) + rest ==> (r matches Some(
                (s, next),
            ) && s@ == x && b@.skip(next as int) == rest),
{
    broadcast use encode_utf8_decode_utf8, encode_utf8_valid_utf8, vstd::utf8::decode_utf8_encode_utf8;

    match read_field(b, pos) {
        None => None,
        Some((f, next)) => {
            let ghost fv = f@;
            match string_from_utf8(f) {
                Some(s) => Some((s, next)),
                None => None,
            }
        },
    }
}

/// Reads a stored enqueued record; `None` exactly when `b` is not the stored
/// form of one.
#[verifier::rlimit(80)]
pub fn decode_request(b: &[u8]) -> (r: Option<EnqueueRequest>)
    ensures
        r matches Some(q) ==> request_bytes(q@) == b@,
        (exists|v: RequestView| #[trigger] request_bytes(v) == b@) ==> r is Some,
{
    let blen = b.len();
    let ghost v = choose|v: RequestView| #[trigger] request_bytes(v) == b@;
    let ghost is_enc = request_bytes(v) == b@;
    let ghost tail = be8(priority_code(v.priority)) + be8(v.deliver_after as u64);
    let ghost r2 = field(encode_utf8(v.meta)) + tail;
    let ghost r1 = field(v.payload) + r2;
    proof {
        if is_enc {
            assert(b@.skip(0) =~= b@);
            assert(b@.skip(0) == field(encode_utf8(v.topic)) + r1);
        }
    }
    let (topic, p1) = match read_text(b, 0) {
        Some(x) => x,
        None => {
            return None;
        },
    };
    proof {
        if is_enc {
            assert(b@.skip(p1 as int) == field(v.payload) + r2);
        }
    }
    let (payload, p2) = match read_field(b, p1) {
        Some(x) => x,
        None => {
            return None;
        },
    };
    proof {
        if is_enc {
            assert(b@.skip(p2 as int) == field(encode_utf8(v.meta)) + tail);
        }
    }
    let (meta, p3) = match read_text(b, p2) {
        Some(x) => x,
        None => {
            return None;
        },
    };
    proof {
        if is_enc {
            assert(b@.skip(p3 as int) == tail);
            lemma_be_round_trip(priority_code(v.priority));
            lemma_be_round_trip(v.deliver_after as u64);
            assert(b@.subrange(p3 as int, p3 + 8) =~= tail.subrange(0, 8));
            assert(tail.subrange(0, 8) =~= be8(priority_code(v.priority)));
            assert(b@.subrange(p3 + 8, p3 + 16) =~= tail.subrange(8, 16));
            assert(tail.subrange(8, 16) =~= be8(v.deliver_after as u64));
            assert(b@.len() == p3 + 16);
        }
    }
    let pc = match read_u64(b, p3) {
        Some(x) => x,
        None => {
            return None;
        },
    };
    let d = match read_u64(b, p3 + 8) {
        Some(x) => x,
        None => {
            return None;
        },
    };
    if p3 + 16 != b.len() || pc > 0xFFFF_FFFFu64 || d > 0xFFFF_FFFFu64 {
        return None;
    }
    let q = EnqueueRequest {
        topic,
        payload,
        meta,
        priority: (pc as i64 - 0x8000_0000i64) as i32,
        deliver_after: d as u32,
    };
    proof {
        let bv = b@;
        lemma_be_round_trip(pc);
        lemma_be_round_trip(d);
        assert(be8(priority_code(q.priority)) =~= bv.subrange(p3 as int, p3 + 8)) by {
            lemma_be_injective_on(bv.subrange(p3 as int, p3 + 8));
        }
        assert(be8(q.deliver_after as u64) =~= bv.subrange(p3 + 8, p3 + 16)) by {
            lemma_be_injective_on(bv.subrange(p3 + 8, p3 + 16));
        }
        lemma_field_at(bv, 0, encode_utf8(q.topic@), p1 as int);
        lemma_field_at(bv, p1 as int, q.payload@, p2 as int);
        lemma_field_at(bv, p2 as int, encode_utf8(q.meta@), p3 as int);
        assert(bv =~= bv.subrange(0, p1 as int) + (bv.subrange(p1 as int, p2 as int) + (bv.subrange(
            p2 as int,
            p3 as int,
        ) + (bv.subrange(p3 as int, p3 + 8) + bv.subrange(p3 + 8, p3 + 16)))));
        assert(request_bytes(q@) =~= bv);
    }
    Some(q)
}

/// Eight bytes are the big-endian form of the number they denote.
pub proof fn lemma_be_injective_on(s: Seq<u8>)
    requires
        s.len() == 8,
    ensures
        be8(be_value(s)) == s,
{
    let b0 = s[0];
    let b1 = s[1];
    let b2 = s[2];
    let b3 = s[3];
    let b4 = s[4];
    let b5 = s[5];
    let b6 = s[6];
    let b7 = s[7];
    let v = be_value(s);
    assert(v == ((b0 as u64) << 56u64) | ((b1 as u64) << 48u64) | ((b2 as u64) << 40u64) | ((
    b3 as u64) << 32u64) | ((b4 as u64) << 24u64) | ((b5 as u64) << 16u64) | ((b6 as u64)
        << 8u64) | (b7 as u64));
    assert((v >> 56u64) as u8 == b0 && (v >> 48u64) as u8 == b1 && (v >> 40u64) as u8 == b2 && (v
        >> 32u64) as u8 == b3 && (v >> 24u64) as u8 == b4 && (v >> 16u64) as u8 == b5 && (v
        >> 8u64) as u8 == b6 && v as u8 == b7) by (bit_vector)
        requires
            v == ((b0 as u64) << 56u64) | ((b1 as u64) << 48u64) | ((b2 as u64) << 40u64) | ((
            b3 as u64) << 32u64) | ((b4 as u64) << 24u64) | ((b5 as u64) << 16u64) | ((b6 as u64)
                << 8u64) | (b7 as u64),
    ;
    assert(be8(v) =~= s);
}

/// A field read at `pos` that ends at `next` is the subrange between them.
proof fn lemma_field_at(b: Seq<u8>, pos: int, x: Seq<u8>, next: int)
    requires
        0 <= pos,
        pos + 8 <= next <= b.len(),
        b.subrange(pos + 8, next) == x,
        next - pos - 8 == be_value(b.subrange(pos, pos + 8)),
    ensures
        b.subrange(pos, next) == field(x),
{
    lemma_be_injective_on(b.subrange(pos, pos + 8));
    assert(be8(x.len() as u64) == b.subrange(pos, pos + 8));
    assert(b.subrange(pos, next) =~= b.subrange(pos, pos + 8) + b.subrange(pos + 8, next));
}

/// Reads a stored index record; `None` unless `b` is the stored form of one.
pub fn decode_index(b: &[u8]) -> (r: Option<IndexRecord>)
    ensures
        r matches Some(x) ==> x.message_id@.len() == 8 && index_bytes(
            x.priority,
            x.timestamp,
            be_value(x.message_id@),
        ) == b@,
        forall|p: i32, t: u64, id: u64| #[trigger] index_bytes(p, t, id) == b@ ==> (r matches Some(x)
            && x.priority == p && x.timestamp == t && x.message_id@ == be8(id)),
{
    if b.len() != 24 {
        proof {
            assert forall|p: i32, t: u64, id: u64| #[trigger] index_bytes(p, t, id) != b@ by {
                assert(index_bytes(p, t, id).len() == 24);
            }
        }
        return None;
    }
    let pc = msgid_to_u64(slice_subrange(b, 0, 8));
    let t = msgid_to_u64(slice_subrange(b, 8, 16));
    let idv = slice_to_vec(slice_subrange(b, 16, 24));
    if pc > 0xFFFF_FFFFu64 {
        proof {
            assert forall|p: i32, t: u64, id: u64| #[trigger] index_bytes(p, t, id) != b@ by {
                if index_bytes(p, t, id) == b@ {
                    assert(b@.subrange(0, 8) =~= be8(priority_code(p)));
                    lemma_be_round_trip(priority_code(p));
                }
            }
        }
        return None;
    }
    let x = IndexRecord { priority: (pc as i64 - 0x8000_0000i64) as i32, timestamp: t, message_id: idv };
    proof {
        let bv = b@;
        lemma_be_round_trip(pc);
        lemma_be_injective_on(bv.subrange(0, 8));
        lemma_be_injective_on(bv.subrange(8, 16));
        lemma_be_injective_on(bv.subrange(16, 24));
        assert(bv =~= bv.subrange(0, 8) + (bv.subrange(8, 16) + bv.subrange(16, 24)));
        assert(index_bytes(x.priority, x.timestamp, be_value(x.message_id@)) =~= bv);
        assert forall|p: i32, t2: u64, id: u64| #[trigger] index_bytes(p, t2, id) == bv implies x.priority
            == p && x.timestamp == t2 && x.message_id@ == be8(id) by {
            assert(bv.subrange(0, 8) =~= be8(priority_code(p)));
            assert(bv.subrange(8, 16) =~= be8(t2));
            assert(bv.subrange(16, 24) =~= be8(id));
            lemma_be_round_trip(priority_code(p));
            lemma_be_round_trip(t2);
        }
    }
    Some(x)
}

/// The fields of a record are short enough for their lengths to be stored.
pub open spec fn storable(v: RequestView) -> bool {
    encode_utf8(v.topic).len() <= u64::MAX && v.payload.len() <= u64::MAX && encode_utf8(v.meta).len()
        <= u64::MAX
}

/// A length-prefixed field is read back unambiguously.
proof fn lemma_field_split(x: Seq<u8>, r1: Seq<u8>, y: Seq<u8>, r2: Seq<u8>)
    requires
        x.len() <= u64::MAX,
        y.len() <= u64::MAX,
        field(x) + r1 == field(y) + r2,
    ensures
        x == y,
        r1 == r2,
{
    let b = field(x) + r1;
    lemma_be_round_trip(x.len() as u64);
    lemma_be_round_trip(y.len() as u64);
    assert(b.subrange(0, 8) =~= be8(x.len() as u64));
    assert((field(y) + r2).subrange(0, 8) =~= be8(y.len() as u64));
    assert(x.len() == y.len());
    assert(x =~= b.subrange(8, 8 + x.len() as int));
    assert(y =~= (field(y) + r2).subrange(8, 8 + y.len() as int));
    assert(r1 =~= b.skip(8 + x.len() as int));
    assert(r2 =~= (field(y) + r2).skip(8 + y.len() as int));
}

/// Two records with the same stored form are the same record.
pub proof fn lemma_request_round_trip(v: RequestView, w: RequestView)
    requires
        storable(v),
        storable(w),
    ensures
        request_bytes(v) == request_bytes(w) ==> v == w,
{
    if request_bytes(v) == request_bytes(w) {
        broadcast use encode_utf8_decode_utf8;

        let tv = be8(priority_code(v.priority)) + be8(v.deliver_after as u64);
        let tw = be8(priority_code(w.priority)) + be8(w.deliver_after as u64);
        lemma_field_split(
            encode_utf8(v.topic),
            field(v.payload) + (field(encode_utf8(v.meta)) + tv),
            encode_utf8(w.topic),
            field(w.payload) + (field(encode_utf8(w.meta)) + tw),
        );
        lemma_field_split(
            v.payload,
            field(encode_utf8(v.meta)) + tv,
            w.payload,
            field(encode_utf8(w.meta)) + tw,
        );
        lemma_field_split(encode_utf8(v.meta), tv, encode_utf8(w.meta), tw);
        assert(tv.subrange(0, 8) =~= be8(priority_code(v.priority)));
        assert(tw.subrange(0, 8) =~= be8(priority_code(w.priority)));
        assert(tv.subrange(8, 16) =~= be8(v.deliver_after as u64));
        assert(tw.subrange(8, 16) =~= be8(w.deliver_after as u64));
        lemma_be_round_trip(priority_code(v.priority));
        lemma_be_round_trip(priority_code(w.priority));
        lemma_be_round_trip(v.deliver_after as u64);
        lemma_be_round_trip(w.deliver_after as u64);
        assert(decode_utf8(encode_utf8(v.topic)) == v.topic);
        assert(decode_utf8(encode_utf8(w.topic)) == w.topic);
        assert(decode_utf8(encode_utf8(v.meta)) == v.meta);
        assert(decode_utf8(encode_utf8(w.meta)) == w.meta);
    }
}

} // verus!
