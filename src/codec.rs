use crate::models::{Memo, MemoId, MemoView, Timestamp};
use crate::repository::views_of;
use vstd::bytes::{
    lemma_auto_spec_u128_to_from_le_bytes, lemma_auto_spec_u32_to_from_le_bytes,
    lemma_auto_spec_u64_to_from_le_bytes, spec_u128_to_le_bytes, spec_u32_from_le_bytes,
    spec_u32_to_le_bytes, spec_u64_from_le_bytes, spec_u64_to_le_bytes, u128_from_le_bytes,
    u128_to_le_bytes, u32_from_le_bytes, u32_to_le_bytes, u64_from_le_bytes, u64_to_le_bytes,
};
use vstd::prelude::*;
use vstd::slice::slice_subrange;
use vstd::utf8::{
    decode_utf8, decode_utf8_encode_utf8, encode_utf8, encode_utf8_decode_utf8,
    encode_utf8_valid_utf8, valid_utf8,
};

verus! {

// The stored form of a memo store is its memos' records one after another. A record
// holds, little-endian: the identifier (16 bytes), the seconds (8, two's complement),
// the nanoseconds (4), the offset (4, two's complement), the length in bytes of the
// path (8), the path in UTF-8, the length in bytes of the content (8), the content
// in UTF-8.

/// The bytes that stand for one memo.
pub open spec fn record_bytes(m: MemoView) -> Seq<u8> {
    let p = encode_utf8(m.created_path);
    let c = encode_utf8(m.content);
    spec_u128_to_le_bytes(m.id) + spec_u64_to_le_bytes(m.created_date.secs as u64)
        + spec_u32_to_le_bytes(m.created_date.nanos) + spec_u32_to_le_bytes(
        m.created_date.offset as u32,
    ) + spec_u64_to_le_bytes(p.len() as u64) + p + spec_u64_to_le_bytes(c.len() as u64) + c
}

/// The memo's path and content are short enough for their lengths to be written.
pub open spec fn encodable(m: MemoView) -> bool {
    encode_utf8(m.created_path).len() <= u64::MAX && encode_utf8(m.content).len() <= u64::MAX
}

/// Every memo of `s` is encodable.
pub open spec fn all_encodable(s: Seq<MemoView>) -> bool {
    forall|i: int| 0 <= i < s.len() ==> encodable(#[trigger] s[i])
}

/// The bytes that stand for a sequence of memos.
pub open spec fn store_bytes(s: Seq<MemoView>) -> Seq<u8>
    decreases s.len(),
{
    if s.len() == 0 {
        Seq::empty()
    } else {
        record_bytes(s[0]) + store_bytes(s.drop_first())
    }
}

/// `b` is the stored form of some sequence of memos.
pub open spec fn decodable(b: Seq<u8>) -> bool {
    exists|s: Seq<MemoView>| all_encodable(s) && store_bytes(s) == b
}

/// The sequence of memos whose stored form is `b`.
pub open spec fn decoded(b: Seq<u8>) -> Seq<MemoView> {
    choose|s: Seq<MemoView>| all_encodable(s) && store_bytes(s) == b
}

/// Relies on `std::str::from_utf8`, which accepts exactly the valid UTF-8 byte
/// sequences and then gives the characters they encode.
#[verifier::external_body]
fn utf8_text(b: &[u8]) -> (r: Option<&str>)
    ensures
        r is Some <==> valid_utf8(b@),
        r matches Some(s) ==> s@ == decode_utf8(b@),
{
    std::str::from_utf8(b).ok()
}

/// Where each field of a record lies in the record followed by `t`.
proof fn lemma_record_fields(x: MemoView, t: Seq<u8>)
    requires
        encodable(x),
    ensures
        ({
            let b = record_bytes(x) + t;
            let p = encode_utf8(x.created_path);
            let c = encode_utf8(x.content);
            let pe = 40 + p.len() as int;
            let ce = pe + 8 + c.len() as int;
            &&& b.len() == ce + t.len()
            &&& b.subrange(0, 16) == spec_u128_to_le_bytes(x.id)
            &&& b.subrange(16, 24) == spec_u64_to_le_bytes(x.created_date.secs as u64)
            &&& b.subrange(24, 28) == spec_u32_to_le_bytes(x.created_date.nanos)
            &&& b.subrange(28, 32) == spec_u32_to_le_bytes(x.created_date.offset as u32)
            &&& b.subrange(32, 40) == spec_u64_to_le_bytes(p.len() as u64)
            &&& b.subrange(40, pe) == p
            &&& b.subrange(pe, pe + 8) == spec_u64_to_le_bytes(c.len() as u64)
            &&& b.subrange(pe + 8, ce) == c
            &&& b.subrange(ce, b.len() as int) == t
        }),
{
    lemma_auto_spec_u128_to_from_le_bytes();
    lemma_auto_spec_u64_to_from_le_bytes();
    lemma_auto_spec_u32_to_from_le_bytes();
    let b = record_bytes(x) + t;
    let p = encode_utf8(x.created_path);
    let c = encode_utf8(x.content);
    let pe = 40 + p.len() as int;
    let ce = pe + 8 + c.len() as int;
    let f0 = spec_u128_to_le_bytes(x.id);
    let f1 = spec_u64_to_le_bytes(x.created_date.secs as u64);
    let f2 = spec_u32_to_le_bytes(x.created_date.nanos);
    let f3 = spec_u32_to_le_bytes(x.created_date.offset as u32);
    let f4 = spec_u64_to_le_bytes(p.len() as u64);
    let f6 = spec_u64_to_le_bytes(c.len() as u64);
    assert(b =~= f0 + f1 + f2 + f3 + f4 + p + f6 + c + t);
    assert(b.subrange(0, 16) =~= f0);
    assert(b.subrange(16, 24) =~= f1);
    assert(b.subrange(24, 28) =~= f2);
    assert(b.subrange(28, 32) =~= f3);
    assert(b.subrange(32, 40) =~= f4);
    assert(b.subrange(40, pe) =~= p);
    assert(b.subrange(pe, pe + 8) =~= f6);
    assert(b.subrange(pe + 8, ce) =~= c);
    assert(b.subrange(ce, b.len() as int) =~= t);
}

/// A record followed by anything determines the memo and what follows it.
proof fn lemma_record_unique(x: MemoView, y: MemoView, t: Seq<u8>, u: Seq<u8>)
    requires
        encodable(x),
        encodable(y),
        record_bytes(x) + t == record_bytes(y) + u,
    ensures
        x == y,
        t == u,
{
    lemma_auto_spec_u128_to_from_le_bytes();
    lemma_auto_spec_u64_to_from_le_bytes();
    lemma_auto_spec_u32_to_from_le_bytes();
    lemma_record_fields(x, t);
    lemma_record_fields(y, u);
    encode_utf8_decode_utf8(x.created_path);
    encode_utf8_decode_utf8(y.created_path);
    encode_utf8_decode_utf8(x.content);
    encode_utf8_decode_utf8(y.content);
    let (dx, dy) = (x.created_date, y.created_date);
    lemma_signed_casts(dx.secs, dy.secs, dx.offset, dy.offset, 0, 0);
    assert(dx == dy);
}

/// Reading a signed number through its unsigned bit pattern loses nothing.
proof fn lemma_signed_casts(a: i64, b: i64, c: i32, d: i32, u: u64, v: u32)
    ensures
        (a as u64 == b as u64) ==> a == b,
        (c as u32 == d as u32) ==> c == d,
        (u as i64) as u64 == u,
        (v as i32) as u32 == v,
{
    assert((a as u64 == b as u64) ==> a == b) by (bit_vector);
    assert((c as u32 == d as u32) ==> c == d) by (bit_vector);
    assert((u as i64) as u64 == u) by (bit_vector);
    assert((v as i32) as u32 == v) by (bit_vector);
}

/// The stored form of a sequence with one more memo at the end.
proof fn lemma_store_bytes_push(s: Seq<MemoView>, m: MemoView)
    ensures
        store_bytes(s.push(m)) == store_bytes(s) + record_bytes(m),
    decreases s.len(),
{
    if s.len() == 0 {
        assert(s.push(m).drop_first() =~= Seq::<MemoView>::empty());
        assert(store_bytes(s.push(m).drop_first()) == Seq::<u8>::empty());
        assert(store_bytes(s) == Seq::<u8>::empty());
        assert(store_bytes(s.push(m)) =~= store_bytes(s) + record_bytes(m));
    } else {
        lemma_store_bytes_push(s.drop_first(), m);
        assert(s.push(m).drop_first() =~= s.drop_first().push(m));
        assert(store_bytes(s.push(m)) =~= store_bytes(s) + record_bytes(m));
    }
}

/// Where the stored form of `o` followed by `t` is the stored form of `s`, `s` starts
/// with `o` and the rest of it is stored as `t`.
proof fn lemma_store_prefix(o: Seq<MemoView>, s: Seq<MemoView>, t: Seq<u8>)
    requires
        all_encodable(o),
        all_encodable(s),
        store_bytes(o) + t == store_bytes(s),
    ensures
        o.len() <= s.len(),
        s.subrange(0, o.len() as int) == o,
        store_bytes(s.subrange(o.len() as int, s.len() as int)) == t,
    decreases o.len(),
{
    if o.len() == 0 {
        assert(store_bytes(o) + t =~= t);
        assert(s.subrange(0, 0) =~= o);
        assert(s.subrange(0, s.len() as int) =~= s);
    } else {
        lemma_record_fields(o[0], store_bytes(o.drop_first()) + t);
        if s.len() == 0 {
            assert((store_bytes(o) + t).len() > 0);
        } else {
            assert(encodable(o[0]));
            assert(encodable(s[0]));
            assert(store_bytes(o) + t =~= record_bytes(o[0]) + (store_bytes(o.drop_first()) + t));
            lemma_record_unique(o[0], s[0], store_bytes(o.drop_first()) + t, store_bytes(s.drop_first()));
            let (o1, s1) = (o.drop_first(), s.drop_first());
            assert(all_encodable(o1));
            assert(all_encodable(s1));
            lemma_store_prefix(o1, s1, t);
            assert(s.subrange(0, o.len() as int) =~= seq![s[0]] + s1.subrange(0, o1.len() as int));
            assert(o =~= seq![o[0]] + o1);
            assert(s.subrange(o.len() as int, s.len() as int) =~= s1.subrange(
                o1.len() as int,
                s1.len() as int,
            ));
        }
    }
}

/// Distinct sequences of memos have distinct stored forms.
pub proof fn lemma_store_bytes_injective(s1: Seq<MemoView>, s2: Seq<MemoView>)
    requires
        all_encodable(s1),
        all_encodable(s2),
        store_bytes(s1) == store_bytes(s2),
    ensures
        s1 == s2,
{
    assert(store_bytes(s1) + Seq::<u8>::empty() =~= store_bytes(s2));
    lemma_store_prefix(s1, s2, Seq::<u8>::empty());
    let rest = s2.subrange(s1.len() as int, s2.len() as int);
    if rest.len() > 0 {
        assert(encodable(rest[0]));
        lemma_record_fields(rest[0], store_bytes(rest.drop_first()));
    }
    assert(s2 =~= s1);
}

/// Reading back the stored form of memos gives exactly those memos.
pub proof fn lemma_round_trip(s: Seq<MemoView>)
    requires
        all_encodable(s),
    ensures
        decodable(store_bytes(s)),
        decoded(store_bytes(s)) == s,
{
    assert(all_encodable(s) && store_bytes(s) == store_bytes(s));
    let d = decoded(store_bytes(s));
    lemma_store_bytes_injective(d, s);
}

/// Appends the bytes `b` to `out`.
fn push_all(out: &mut Vec<u8>, b: &[u8])
    ensures
        final(out)@ == old(out)@ + b@,
{
    out.extend_from_slice(b);
    assert(final(out)@ =~= old(out)@ + b@);
}

/// Appends the record of `m` to `out`.
fn append_record(m: &Memo, out: &mut Vec<u8>)
    ensures
        final(out)@ == old(out)@ + record_bytes(m@),
        encodable(m@),
{
    let when = m.created_date();
    let p = m.created_path().as_bytes();
    let c = m.content().as_bytes();
    push_all(out, u128_to_le_bytes(m.id().0).as_slice());
    push_all(out, u64_to_le_bytes(when.secs as u64).as_slice());
    push_all(out, u32_to_le_bytes(when.nanos).as_slice());
    push_all(out, u32_to_le_bytes(when.offset as u32).as_slice());
    push_all(out, u64_to_le_bytes(p.len() as u64).as_slice());
    push_all(out, p);
    push_all(out, u64_to_le_bytes(c.len() as u64).as_slice());
    push_all(out, c);
    assert(final(out)@ =~= old(out)@ + record_bytes(m@));
}

/// The stored form of `memos`.
pub fn encode_records(memos: &Vec<Memo>) -> (r: Vec<u8>)
    ensures
        r@ == store_bytes(views_of(memos@)),
        all_encodable(views_of(memos@)),
{
    let mut out: Vec<u8> = Vec::new();
    let mut i: usize = 0;
    assert(views_of(memos@).subrange(0, 0) =~= Seq::<MemoView>::empty());
    while i < memos.len()
        invariant
            0 <= i <= memos@.len(),
            out@ == store_bytes(views_of(memos@).subrange(0, i as int)),
            all_encodable(views_of(memos@).subrange(0, i as int)),
        decreases memos@.len() - i,
    {
        let ghost before = views_of(memos@).subrange(0, i as int);
        append_record(&memos[i], &mut out);
        proof {
            let m = memos@[i as int]@;
            lemma_store_bytes_push(before, m);
            assert(views_of(memos@).subrange(0, i + 1) =~= before.push(m));
        }
        i += 1;
    }
    assert(views_of(memos@).subrange(0, memos@.len() as int) =~= views_of(memos@));
    out
}

/// Reads the record that starts at `pos`, and where it ends.
fn parse_record(b: &[u8], pos: usize) -> (r: Option<(Memo, usize)>)
    requires
        pos <= b@.len(),
    ensures
        r matches Some((m, q)) ==> pos < q <= b@.len() && b@.subrange(pos as int, q as int)
            == record_bytes(m@) && encodable(m@),
        r is None ==> forall|x: MemoView, t: Seq<u8>|
            encodable(x) ==> b@.subrange(pos as int, b@.len() as int) != #[trigger] (
            record_bytes(x) + t),
{
    proof {
        lemma_auto_spec_u128_to_from_le_bytes();
        lemma_auto_spec_u64_to_from_le_bytes();
        lemma_auto_spec_u32_to_from_le_bytes();
    }
    let ghost tail = b@.subrange(pos as int, b@.len() as int);
    let n = b.len();
    if n - pos < 40 {
        assert forall|x: MemoView, t: Seq<u8>| encodable(x) implies tail != #[trigger] (
        record_bytes(x) + t) by {
            lemma_record_fields(x, t);
        }
        return None;
    }
    let id = u128_from_le_bytes(slice_subrange(b, pos, pos + 16));
    let secs = u64_from_le_bytes(slice_subrange(b, pos + 16, pos + 24)) as i64;
    let nanos = u32_from_le_bytes(slice_subrange(b, pos + 24, pos + 28));
    let offset = u32_from_le_bytes(slice_subrange(b, pos + 28, pos + 32)) as i32;
    let plen = u64_from_le_bytes(slice_subrange(b, pos + 32, pos + 40));
    assert(tail.subrange(32, 40) =~= b@.subrange(pos + 32, pos + 40));
    if plen > (n - pos - 40) as u64 {
        assert forall|x: MemoView, t: Seq<u8>| encodable(x) implies tail != #[trigger] (
        record_bytes(x) + t) by {
            lemma_record_fields(x, t);
        }
        return None;
    }
    let p_end = pos + 40 + plen as usize;
    assert(tail.subrange(40, p_end - pos) =~= b@.subrange(pos + 40, p_end as int));
    if n - p_end < 8 {
        assert forall|x: MemoView, t: Seq<u8>| encodable(x) implies tail != #[trigger] (
        record_bytes(x) + t) by {
            lemma_record_fields(x, t);
        }
        return None;
    }
    let clen = u64_from_le_bytes(slice_subrange(b, p_end, p_end + 8));
    assert(tail.subrange(p_end - pos, p_end - pos + 8) =~= b@.subrange(p_end as int, p_end + 8));
    if clen > (n - p_end - 8) as u64 {
        assert forall|x: MemoView, t: Seq<u8>| encodable(x) implies tail != #[trigger] (
        record_bytes(x) + t) by {
            lemma_record_fields(x, t);
        }
        return None;
    }
    let c_end = p_end + 8 + clen as usize;
    assert(tail.subrange(p_end - pos + 8, c_end - pos) =~= b@.subrange(p_end + 8, c_end as int));
    let path = match utf8_text(slice_subrange(b, pos + 40, p_end)) {
        Some(s) => s,
        None => {
            assert forall|x: MemoView, t: Seq<u8>| encodable(x) implies tail != #[trigger] (
            record_bytes(x) + t) by {
                lemma_record_fields(x, t);
                encode_utf8_valid_utf8(x.created_path);
            }
            return None;
        },
    };
    let content = match utf8_text(slice_subrange(b, p_end + 8, c_end)) {
        Some(s) => s,
        None => {
            assert forall|x: MemoView, t: Seq<u8>| encodable(x) implies tail != #[trigger] (
            record_bytes(x) + t) by {
                lemma_record_fields(x, t);
                encode_utf8_valid_utf8(x.content);
            }
            return None;
        },
    };
    let when = Timestamp { secs, nanos, offset };
    let m = Memo::new(MemoId(id), String::from_str(content), when, String::from_str(path));
    proof {
        let pb = b@.subrange(pos + 40, p_end as int);
        let cb = b@.subrange(p_end + 8, c_end as int);
        decode_utf8_encode_utf8(pb);
        decode_utf8_encode_utf8(cb);
        let x = m@;
        let raw_secs = spec_u64_from_le_bytes(b@.subrange(pos + 16, pos + 24));
        let raw_offset = spec_u32_from_le_bytes(b@.subrange(pos + 28, pos + 32));
        lemma_signed_casts(0, 0, 0, 0, raw_secs, raw_offset);
        assert(encode_utf8(x.created_path) == pb);
        assert(encode_utf8(x.content) == cb);
        assert(spec_u64_to_le_bytes(secs as u64) == b@.subrange(pos + 16, pos + 24));
        assert(spec_u32_to_le_bytes(offset as u32) == b@.subrange(pos + 28, pos + 32));
        assert(b@.subrange(pos as int, c_end as int) =~= b@.subrange(pos as int, pos + 16)
            + b@.subrange(pos + 16, pos + 24) + b@.subrange(pos + 24, pos + 28) + b@.subrange(
            pos + 28,
            pos + 32,
        ) + b@.subrange(pos + 32, pos + 40) + pb + b@.subrange(p_end as int, p_end + 8) + cb);
    }
    Some((m, c_end))
}

/// The memos whose stored form is `b`, or `None` where `b` is the stored form of no
/// sequence of memos.
pub fn decode_records(b: &[u8]) -> (r: Option<Vec<Memo>>)
    ensures
        r is None <==> !decodable(b@),
        r matches Some(v) ==> views_of(v@) == decoded(b@) && all_encodable(views_of(v@))
            && store_bytes(views_of(v@)) == b@,
{
    let n = b.len();
    let mut out: Vec<Memo> = Vec::new();
    let mut pos: usize = 0;
    assert(views_of(out@) =~= Seq::<MemoView>::empty());
    assert(b@.subrange(0, 0) =~= Seq::<u8>::empty());
    while pos < n
        invariant
            n == b@.len(),
            pos <= n,
            all_encodable(views_of(out@)),
            store_bytes(views_of(out@)) == b@.subrange(0, pos as int),
        decreases n - pos,
    {
        match parse_record(b, pos) {
            Some((m, q)) => {
                let ghost before = views_of(out@);
                let ghost mv = m@;
                out.push(m);
                proof {
                    assert(views_of(out@) =~= before.push(mv));
                    lemma_store_bytes_push(before, mv);
                    assert(b@.subrange(0, q as int) =~= b@.subrange(0, pos as int) + b@.subrange(
                        pos as int,
                        q as int,
                    ));
                }
                pos = q;
            },
            None => {
                proof {
                    let o = views_of(out@);
                    if decodable(b@) {
                        let s = choose|s: Seq<MemoView>| all_encodable(s) && store_bytes(s) == b@;
                        let tail = b@.subrange(pos as int, n as int);
                        assert(store_bytes(o) + tail =~= b@);
                        lemma_store_prefix(o, s, tail);
                        let rest = s.subrange(o.len() as int, s.len() as int);
                        if rest.len() == 0 {
                            assert(tail.len() == 0);
                        } else {
                            assert(encodable(rest[0]));
                            assert(tail == record_bytes(rest[0]) + store_bytes(rest.drop_first()));
                        }
                    }
                }
                return None;
            },
        }
    }
    proof {
        assert(b@.subrange(0, n as int) =~= b@);
        let v = views_of(out@);
        assert(decodable(b@));
        lemma_store_bytes_injective(v, decoded(b@));
    }
    Some(out)
}

} // verus!
