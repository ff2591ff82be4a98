//! Decoding what was encoded gives it back: for names, queries, records and
//! whole packets, provided every name is one that decoding reproduces.
use vstd::prelude::*;
use vstd::utf8::{decode_utf8, encode_utf8, valid_utf8};

use crate::header::{bit, flags_hi, flags_lo, header_at, header_bytes, Header};
use crate::name::lemma_name_nonempty;
use crate::packet::{
    counted_header, read_packet, read_queries, read_records, write_packet, write_queries,
    write_records, write_sections, PacketModel,
};
use crate::packet_buffer::overwrite;
use crate::packet_buffer::{be16, be32, u16_at, u32_at};
use crate::packet_buffer::then_fixed;
use crate::query::{read_query, write_query, QueryModel, INTERNET_CLASS};
use crate::query_type::{lemma_type_round_trip, type_num, type_of_num, type_wf, QueryType};
use crate::resource_record::{
    read_rdata, read_record, segments_at, segments_wire, with_sized_name, write_common,
    write_record, RecordModel,
};
use crate::return_code::{code_num, code_of_num, lemma_code_round_trip};
use crate::name::{
    ascii_lower,
    dot_split, join_labels, join_texts, label_text, lower_text, labels_wire, lemma_dot_split_at, name_labels,
    name_walk, utf8_text, write_labels, write_name, DOT,
};

verus! {

broadcast use vstd::utf8::group_utf8_lib;

/// A label that decoding reproduces: not empty, at most 63 bytes, and
/// unchanged by lowercasing.
pub open spec fn label_round_trips(l: Seq<u8>) -> bool {
    0 < l.len() <= 63 && lower_text(decode_utf8(l)) == decode_utf8(l)
}

/// A name that decoding reproduces: each of its labels does.
#[verifier::opaque]
pub open spec fn name_round_trips(name: Seq<char>) -> bool {
    forall|i: int| 0 <= i < name_labels(name).len() ==> label_round_trips(#[trigger] name_labels(name)[i])
}

/// The bytes `b` stand in `d` from `at` on.
pub open spec fn holds_at(d: Seq<u8>, at: int, b: Seq<u8>) -> bool {
    0 <= at && at + b.len() <= d.len() && forall|k: int| 0 <= k < b.len() ==> d[at + k] == #[trigger] b[k]
}

/// The index of the first dot of `b`, or its length when it has none.
pub open spec fn first_dot(b: Seq<u8>) -> int
    decreases b.len(),
{
    if b.len() == 0 {
        0
    } else if b[0] == DOT {
        0
    } else {
        1 + first_dot(b.drop_first())
    }
}

proof fn lemma_first_dot(b: Seq<u8>)
    ensures
        0 <= first_dot(b) <= b.len(),
        forall|i: int| 0 <= i < first_dot(b) ==> b[i] != DOT,
        first_dot(b) < b.len() ==> b[first_dot(b)] == DOT,
    decreases b.len(),
{
    if b.len() > 0 && b[0] != DOT {
        lemma_first_dot(b.drop_first());
        assert forall|i: int| 0 <= i < first_dot(b) implies b[i] != DOT by {
            if i > 0 {
                assert(b[i] == b.drop_first()[i - 1]);
            }
        }
    }
}

/// Joining a first text onto the rest.
proof fn lemma_join_texts_front(t: Seq<char>, ts: Seq<Seq<char>>)
    ensures
        ts.len() == 0 ==> join_texts(seq![t] + ts) == t,
        ts.len() > 0 ==> join_texts(seq![t] + ts) == t + seq!['.'] + join_texts(ts),
    decreases ts.len(),
{
    let all = seq![t] + ts;
    if ts.len() == 0 {
        assert(all =~= seq![t]);
    } else if ts.len() == 1 {
        assert(all.drop_last() =~= seq![t]);
        assert(all.last() == ts[0]);
        assert(join_texts(seq![t]) == t);
    } else {
        lemma_join_texts_front(t, ts.drop_last());
        assert(all.drop_last() =~= seq![t] + ts.drop_last());
        assert(all.last() == ts.last());
        assert(join_texts(all) =~= t + seq!['.'] + join_texts(ts));
    }
}

/// Joining a first label onto the rest.
proof fn lemma_join_front(l: Seq<u8>, ls: Seq<Seq<u8>>)
    ensures
        ls.len() == 0 ==> join_labels(seq![l] + ls) == label_text(l),
        ls.len() > 0 ==> join_labels(seq![l] + ls) == label_text(l) + seq!['.'] + join_labels(ls),
{
    reveal(join_labels);
    let f = |x: Seq<u8>| label_text(x);
    assert((seq![l] + ls).map_values(f) =~= seq![label_text(l)] + ls.map_values(f));
    lemma_join_texts_front(label_text(l), ls.map_values(f));
}

/// Splitting at dots gives at least one piece.
proof fn lemma_dot_split_len(b: Seq<u8>)
    ensures
        dot_split(b).len() >= 1,
    decreases b.len(),
{
    if b.len() > 0 {
        lemma_dot_split_len(b.drop_first());
    }
}

/// A dot decodes as itself, and the bytes after it decode on their own.
proof fn lemma_decode_dot(t: Seq<u8>)
    requires
        valid_utf8(t),
        t.len() > 0,
        t[0] == DOT,
    ensures
        valid_utf8(t.drop_first()),
        decode_utf8(t) == seq!['.'] + decode_utf8(t.drop_first()),
{
    reveal_with_fuel(valid_utf8, 2);
    assert(vstd::utf8::pop_first_scalar(t) =~= t.drop_first());
    let dot: u8 = DOT;
    assert(dot & 0x7Fu8 == dot) by (bit_vector)
        requires
            dot == 0x2Eu8,
    ;
    assert(('.' as u32) == 0x2Eu32);
    vstd::utf8::char_u32_cast('.', 0x2Eu32);
    assert((vstd::utf8::decode_first_scalar(t) as char) == '.');
}

/// Valid UTF-8 that is split at its dots decodes label by label.
proof fn lemma_split_decode(b: Seq<u8>)
    requires
        valid_utf8(b),
        forall|i: int| 0 <= i < dot_split(b).len() ==> label_round_trips(#[trigger] dot_split(b)[i]),
    ensures
        join_labels(dot_split(b)) == decode_utf8(b),
    decreases b.len(),
{
    reveal(label_text);
    lemma_first_dot(b);
    let k = first_dot(b);
    lemma_dot_split_at(b, k);
    if k == b.len() {
        assert(dot_split(b)[0] == b);
        assert(seq![b] + Seq::<Seq<u8>>::empty() =~= dot_split(b));
        lemma_join_front(b, Seq::empty());
        assert(join_labels(dot_split(b)) == label_text(b));
        assert(label_round_trips(dot_split(b)[0]));
        assert(utf8_text(b) == decode_utf8(b));
        assert(label_text(b) == lower_text(decode_utf8(b)));
        assert(join_labels(dot_split(b)) == decode_utf8(b));
    } else {
        let head = b.subrange(0, k);
        let rest = b.subrange(k + 1, b.len() as int);
        let tail = b.subrange(k, b.len() as int);
        assert(vstd::utf8::is_char_boundary(b, k)) by {
            vstd::utf8::is_char_boundary_iff_not_is_continuation_byte(b, k);
        }
        vstd::utf8::valid_utf8_split(b, k);
        vstd::utf8::decode_utf8_split(b, k);
        assert(tail.drop_first() =~= rest);
        lemma_decode_dot(tail);
        assert(dot_split(b) == seq![head] + dot_split(rest));
        assert forall|i: int| 0 <= i < dot_split(rest).len() implies label_round_trips(
            #[trigger] dot_split(rest)[i],
        ) by {
            assert(dot_split(rest)[i] == dot_split(b)[i + 1]);
        }
        lemma_split_decode(rest);
        assert(dot_split(b)[0] == head);
        lemma_join_front(head, dot_split(rest));
        assert(label_round_trips(dot_split(b)[0]));
        assert(utf8_text(head) == decode_utf8(head));
        assert(label_text(head) == decode_utf8(head));
        assert(decode_utf8(b) =~= decode_utf8(head) + seq!['.'] + decode_utf8(rest));
        lemma_dot_split_len(rest);
        assert(join_labels(dot_split(b)) == decode_utf8(b));
    }
}

/// The labels of a name that round-trips join back into the name.
pub proof fn lemma_name_text(name: Seq<char>)
    requires
        name_round_trips(name),
    ensures
        join_labels(name_labels(name)) == name,
{
    reveal(name_round_trips);
    let b = encode_utf8(name);
    assert forall|i: int| 0 <= i < dot_split(b).len() implies label_round_trips(
        #[trigger] dot_split(b)[i],
    ) by {
        assert(name_labels(name)[i] == dot_split(b)[i]);
    }
    lemma_split_decode(b);
}

/// Bytes that stand somewhere also stand there in two parts.
pub proof fn lemma_holds_split(d: Seq<u8>, at: int, a: Seq<u8>, b: Seq<u8>)
    requires
        holds_at(d, at, a + b),
    ensures
        holds_at(d, at, a),
        holds_at(d, at + a.len(), b),
{
    assert forall|k: int| 0 <= k < a.len() implies d[at + k] == #[trigger] a[k] by {
        assert((a + b)[k] == a[k]);
    }
    assert forall|k: int| 0 <= k < b.len() implies d[at + a.len() + k] == #[trigger] b[k] by {
        assert((a + b)[a.len() + k] == b[k]);
    }
}

pub proof fn lemma_u16_at(d: Seq<u8>, at: int, v: u16)
    requires
        holds_at(d, at, be16(v)),
    ensures
        u16_at(d, at) == v,
{
    assert(d[at] == be16(v)[0]);
    assert(d[at + 1] == be16(v)[1]);
    assert((v / 256) as int * 256 + (v % 256) as int == v as int);
}

pub proof fn lemma_u32_at(d: Seq<u8>, at: int, v: u32)
    requires
        holds_at(d, at, be32(v)),
    ensures
        u32_at(d, at) == v,
{
    lemma_holds_split(d, at, be16((v / 65536) as u16), be16((v % 65536) as u16));
    lemma_u16_at(d, at, (v / 65536) as u16);
    lemma_u16_at(d, at + 2, (v % 65536) as u16);
    assert((v / 65536) as int * 65536 + (v % 65536) as int == v as int);
}

proof fn lemma_labels_wire_len(ls: Seq<Seq<u8>>)
    ensures
        labels_wire(ls).len() >= 1,
    decreases ls.len(),
{
    if ls.len() > 0 {
        lemma_labels_wire_len(ls.drop_first());
    }
}

/// What writing labels gives, when it succeeds, is their wire form, within
/// the buffer.
proof fn lemma_write_labels_ok(at: int, ls: Seq<Seq<u8>>)
    requires
        write_labels(at, ls) is Ok,
    ensures
        write_labels(at, ls)->Ok_0 == labels_wire(ls),
        at + labels_wire(ls).len() <= 512,
    decreases ls.len(),
{
    if ls.len() > 0 {
        lemma_write_labels_ok(at + 1 + ls[0].len(), ls.drop_first());
        assert(seq![ls[0].len() as u8] + ls[0] + labels_wire(ls.drop_first()) =~= labels_wire(ls));
    }
}

/// Labels in their wire form decode back to themselves, ending past the zero byte.
proof fn lemma_walk_labels(d: Seq<u8>, at: int, ls: Seq<Seq<u8>>)
    requires
        d.len() == 512,
        holds_at(d, at, labels_wire(ls)),
        forall|i: int| 0 <= i < ls.len() ==> 0 < (#[trigger] ls[i]).len() <= 63,
    ensures
        name_walk(d, at, 0) == Ok::<(Seq<Seq<u8>>, int), crate::error::DnsError>(
            (ls, at + labels_wire(ls).len()),
        ),
    decreases ls.len(),
{
    if ls.len() == 0 {
        assert(d[at] == labels_wire(ls)[0]);
        assert(ls =~= Seq::<Seq<u8>>::empty());
    } else {
        let l = ls[0];
        let rest = ls.drop_first();
        let head = seq![l.len() as u8] + l;
        assert(labels_wire(ls) == head + labels_wire(rest));
        lemma_holds_split(d, at, head, labels_wire(rest));
        lemma_labels_wire_len(rest);
        assert(d[at] == head[0]);
        assert(d.subrange(at + 1, at + 1 + l.len()) =~= l) by {
            assert forall|k: int| 0 <= k < l.len() implies d.subrange(at + 1, at + 1 + l.len())[k]
                == l[k] by {
                assert(head[1 + k] == l[k]);
            }
        }
        assert forall|i: int| 0 <= i < rest.len() implies 0 < (#[trigger] rest[i]).len() <= 63 by {
            assert(rest[i] == ls[i + 1]);
        }
        lemma_walk_labels(d, at + 1 + l.len(), rest);
        assert(seq![l] + rest =~= ls);
        assert(d[at] as int == l.len());
        assert(labels_wire(ls).len() == 1 + l.len() + labels_wire(rest).len());
        let sub = d.subrange(at + 1, at + 1 + l.len());
        assert(name_walk(d, at + 1 + l.len(), 0) == Ok::<(Seq<Seq<u8>>, int), crate::error::DnsError>(
            (rest, at + 1 + l.len() + labels_wire(rest).len()),
        ));
        assert(name_walk(d, at, 0) == Ok::<(Seq<Seq<u8>>, int), crate::error::DnsError>(
            (seq![sub] + rest, at + 1 + l.len() + labels_wire(rest).len()),
        ));
        assert(seq![sub] + rest =~= ls);
    }
}

/// A name that round-trips, written from `at`, decodes from `at` to the same
/// name and ends where the writing ended.
pub proof fn lemma_name_round_trip(d: Seq<u8>, at: int, name: Seq<char>)
    requires
        d.len() == 512,
        name_round_trips(name),
        write_name(at, name) is Ok,
        holds_at(d, at, write_name(at, name)->Ok_0),
    ensures
        name_walk(d, at, 0) == Ok::<(Seq<Seq<u8>>, int), crate::error::DnsError>(
            (name_labels(name), at + write_name(at, name)->Ok_0.len()),
        ),
        join_labels(name_labels(name)) == name,
{
    reveal(name_round_trips);
    let ls = name_labels(name);
    lemma_write_labels_ok(at, ls);
    assert forall|i: int| 0 <= i < ls.len() implies 0 < (#[trigger] ls[i]).len() <= 63 by {
        assert(label_round_trips(name_labels(name)[i]));
    }
    lemma_walk_labels(d, at, ls);
    lemma_name_text(name);
}

/// A header with a four-bit opcode decodes from its wire form to itself.
pub proof fn lemma_header_round_trip(d: Seq<u8>, at: int, h: Header)
    requires
        h.opcode < 16,
        holds_at(d, at, header_bytes(h)),
    ensures
        header_at(d, at) == h,
{
    let b = header_bytes(h);
    lemma_holds_split(d, at, be16(h.id) + seq![flags_hi(h), flags_lo(h)] + be16(h.queries_total) + be16(h.answer_rr_total) + be16(h.authoritative_rr_total), be16(h.additional_rr_total));
    lemma_holds_split(d, at, be16(h.id) + seq![flags_hi(h), flags_lo(h)] + be16(h.queries_total) + be16(h.answer_rr_total), be16(h.authoritative_rr_total));
    lemma_holds_split(d, at, be16(h.id) + seq![flags_hi(h), flags_lo(h)] + be16(h.queries_total), be16(h.answer_rr_total));
    lemma_holds_split(d, at, be16(h.id) + seq![flags_hi(h), flags_lo(h)], be16(h.queries_total));
    lemma_holds_split(d, at, be16(h.id), seq![flags_hi(h), flags_lo(h)]);
    lemma_u16_at(d, at, h.id);
    lemma_u16_at(d, at + 4, h.queries_total);
    lemma_u16_at(d, at + 6, h.answer_rr_total);
    lemma_u16_at(d, at + 8, h.authoritative_rr_total);
    lemma_u16_at(d, at + 10, h.additional_rr_total);
    assert(d[at + 2] == flags_hi(h));
    assert(d[at + 3] == flags_lo(h));
    let r = bit(h.response);
    let o = h.opcode;
    let a = bit(h.authoritative_answer);
    let t = bit(h.truncated_message);
    let rd = bit(h.recursion_desired);
    let hi = flags_hi(h);
    assert(hi == (r << 7u8) | ((o & 0x0Fu8) << 3u8) | (a << 2u8) | (t << 1u8) | rd);
    assert((hi & 0x80u8 != 0) == (r == 1) && (hi >> 3u8) & 0x0Fu8 == o && (hi & 0x04u8 != 0) == (a
        == 1) && (hi & 0x02u8 != 0) == (t == 1) && (hi & 0x01u8 != 0) == (rd == 1)) by (bit_vector)
        requires
            r <= 1 && o < 16 && a <= 1 && t <= 1 && rd <= 1,
            hi == (r << 7u8) | ((o & 0x0Fu8) << 3u8) | (a << 2u8) | (t << 1u8) | rd,
    ;
    let ra = bit(h.recursion_available);
    let z = bit(h.z);
    let ad = bit(h.authenticated_data);
    let cd = bit(h.checking_disabled);
    let c = code_num(h.return_code);
    let lo = flags_lo(h);
    assert(lo == (ra << 7u8) | (z << 6u8) | (ad << 5u8) | (cd << 4u8) | c);
    assert((lo & 0x80u8 != 0) == (ra == 1) && (lo & 0x40u8 != 0) == (z == 1) && (lo & 0x20u8 != 0)
        == (ad == 1) && (lo & 0x10u8 != 0) == (cd == 1) && lo & 0x0Fu8 == c) by (bit_vector)
        requires
            ra <= 1 && z <= 1 && ad <= 1 && cd <= 1 && c < 16,
            lo == (ra << 7u8) | (z << 6u8) | (ad << 5u8) | (cd << 4u8) | c,
    ;
    lemma_code_round_trip(h.return_code);
}

/// A query that decoding reproduces: its name round-trips and its type is
/// named by its own variant.
pub open spec fn query_round_trips(q: QueryModel) -> bool {
    name_round_trips(q.qname) && type_wf(q.qtype)
}

/// A record that decoding reproduces: of a supported type, with names that
/// round-trip and addresses of their full length.
pub open spec fn record_round_trips(r: RecordModel) -> bool {
    match r {
        RecordModel::UNKNOWN { .. } => false,
        RecordModel::A { domain, ip_addr, .. } => name_round_trips(domain) && ip_addr.len() == 4,
        RecordModel::AAAA { domain, ip_addr, .. } => name_round_trips(domain) && ip_addr.len() == 8,
        RecordModel::NS { domain, host, .. } => name_round_trips(domain) && name_round_trips(host),
        RecordModel::CNAME { domain, host, .. } => name_round_trips(domain) && name_round_trips(host),
        RecordModel::MX { domain, exchange, .. } => name_round_trips(domain) && name_round_trips(
            exchange,
        ),
    }
}

/// A query written from `at` decodes from `at` to itself.
pub proof fn lemma_query_round_trip(d: Seq<u8>, at: int, q: QueryModel)
    requires
        d.len() == 512,
        query_round_trips(q),
        write_query(at, q) is Ok,
        holds_at(d, at, write_query(at, q)->Ok_0),
    ensures
        read_query(d, at) == Ok::<(QueryModel, int), crate::error::DnsError>(
            (q, at + write_query(at, q)->Ok_0.len()),
        ),
{
    let nb = write_name(at, q.qname)->Ok_0;
    let fixed = be16(type_num(q.qtype)) + be16(INTERNET_CLASS);
    lemma_holds_split(d, at, nb, fixed);
    lemma_name_round_trip(d, at, q.qname);
    lemma_holds_split(d, at + nb.len(), be16(type_num(q.qtype)), be16(INTERNET_CLASS));
    lemma_u16_at(d, at + nb.len(), type_num(q.qtype));
    lemma_type_round_trip(q.qtype);
}

/// The fields every record starts with decode to what was written.
#[verifier::rlimit(100)]
proof fn lemma_common_round_trip(
    d: Seq<u8>,
    at: int,
    domain: Seq<char>,
    t: QueryType,
    ttl: u32,
    rest: Seq<u8>,
)
    requires
        d.len() == 512,
        name_round_trips(domain),
        write_common(at, domain, t, ttl) is Ok,
        holds_at(d, at, write_common(at, domain, t, ttl)->Ok_0 + rest),
    ensures
        ({
            let cb = write_common(at, domain, t, ttl)->Ok_0;
            &&& cb.len() >= 8
            &&& name_walk(d, at, 0) == Ok::<(Seq<Seq<u8>>, int), crate::error::DnsError>(
                (name_labels(domain), at + cb.len() - 8),
            )
            &&& join_labels(name_labels(domain)) == domain
            &&& u16_at(d, at + cb.len() - 8) == type_num(t)
            &&& u32_at(d, at + cb.len() - 4) == ttl
            &&& holds_at(d, at + cb.len(), rest)
        }),
{
    let cb = write_common(at, domain, t, ttl)->Ok_0;
    let nb = write_name(at, domain)->Ok_0;
    let fixed = be16(type_num(t)) + be16(INTERNET_CLASS) + be32(ttl);
    assert(cb == nb + fixed);
    lemma_holds_split(d, at, cb, rest);
    lemma_holds_split(d, at, nb, fixed);
    lemma_name_round_trip(d, at, domain);
    lemma_holds_split(d, at + nb.len(), be16(type_num(t)) + be16(INTERNET_CLASS), be32(ttl));
    lemma_holds_split(d, at + nb.len(), be16(type_num(t)), be16(INTERNET_CLASS));
    lemma_u16_at(d, at + nb.len(), type_num(t));
    lemma_u32_at(d, at + nb.len() + 4, ttl);
}

proof fn lemma_segments_round_trip(d: Seq<u8>, at: int, s: Seq<u16>)
    requires
        s.len() == 8,
        holds_at(d, at, segments_wire(s)),
    ensures
        segments_at(d, at) == s,
{
    let w = segments_wire(s);
    assert(w =~= Seq::new(
        16,
        |k: int|
            if k % 2 == 0 {
                (s[k / 2] / 256) as u8
            } else {
                (s[k / 2] % 256) as u8
            },
    ));
    assert forall|i: int| 0 <= i < 8 implies #[trigger] segments_at(d, at)[i] == s[i] by {
        assert(d[at + 2 * i] == w[2 * i]);
        assert(d[at + 2 * i + 1] == w[2 * i + 1]);
        assert((s[i] / 256) as int * 256 + (s[i] % 256) as int == s[i] as int);
    }
    assert(segments_at(d, at) =~= s);
}

/// A record of a supported type, written from `at`, decodes from `at` to itself.
pub proof fn lemma_record_round_trip(d: Seq<u8>, at: int, r: RecordModel)
    requires
        d.len() == 512,
        record_round_trips(r),
        write_record(at, r) is Ok,
        holds_at(d, at, write_record(at, r)->Ok_0),
    ensures
        read_record(d, at) == Ok::<(RecordModel, int), crate::error::DnsError>(
            (r, at + write_record(at, r)->Ok_0.len()),
        ),
{
    match r {
        RecordModel::A { .. } => lemma_a_round_trip(d, at, r),
        RecordModel::AAAA { .. } => lemma_aaaa_round_trip(d, at, r),
        RecordModel::NS { .. } => lemma_ns_round_trip(d, at, r),
        RecordModel::CNAME { .. } => lemma_cname_round_trip(d, at, r),
        RecordModel::MX { .. } => lemma_mx_round_trip(d, at, r),
        RecordModel::UNKNOWN { .. } => {},
    }
}

#[verifier::rlimit(100)]
proof fn lemma_a_round_trip(d: Seq<u8>, at: int, r: RecordModel)
    requires
        d.len() == 512,
        record_round_trips(r),
        r is A,
        write_record(at, r) is Ok,
        holds_at(d, at, write_record(at, r)->Ok_0),
    ensures
        read_record(d, at) == Ok::<(RecordModel, int), crate::error::DnsError>(
            (r, at + write_record(at, r)->Ok_0.len()),
        ),
{
    reveal(write_record);
    reveal(read_record);
    let b = write_record(at, r)->Ok_0;
    match r {
        RecordModel::A { domain, ip_addr, ttl } => {
            let cb = write_common(at, domain, QueryType::A, ttl)->Ok_0;
            lemma_common_round_trip(d, at, domain, QueryType::A, ttl, be16(4) + ip_addr);
            lemma_holds_split(d, at + cb.len(), be16(4), ip_addr);
            lemma_type_round_trip(QueryType::A);
            let p = at + cb.len() + 2;
            assert(d.subrange(p, p + 4) =~= ip_addr) by {
                assert forall|k: int| 0 <= k < 4 implies d.subrange(p, p + 4)[k] == ip_addr[k] by {
                    assert(d[p + k] == ip_addr[k]);
                }
            }
        },
        _ => {},
    }
}

#[verifier::rlimit(100)]
proof fn lemma_aaaa_round_trip(d: Seq<u8>, at: int, r: RecordModel)
    requires
        d.len() == 512,
        record_round_trips(r),
        r is AAAA,
        write_record(at, r) is Ok,
        holds_at(d, at, write_record(at, r)->Ok_0),
    ensures
        read_record(d, at) == Ok::<(RecordModel, int), crate::error::DnsError>(
            (r, at + write_record(at, r)->Ok_0.len()),
        ),
{
    reveal(write_record);
    reveal(read_record);
    let b = write_record(at, r)->Ok_0;
    match r {
        RecordModel::AAAA { domain, ip_addr, ttl } => {
            let cb = write_common(at, domain, QueryType::AAAA, ttl)->Ok_0;
            lemma_common_round_trip(
                d,
                at,
                domain,
                QueryType::AAAA,
                ttl,
                be16(16) + segments_wire(ip_addr),
            );
            lemma_holds_split(d, at + cb.len(), be16(16), segments_wire(ip_addr));
            lemma_segments_round_trip(d, at + cb.len() + 2, ip_addr);
            lemma_type_round_trip(QueryType::AAAA);
        },
        _ => {},
    }
}

#[verifier::rlimit(100)]
proof fn lemma_ns_round_trip(d: Seq<u8>, at: int, r: RecordModel)
    requires
        d.len() == 512,
        record_round_trips(r),
        r is NS,
        write_record(at, r) is Ok,
        holds_at(d, at, write_record(at, r)->Ok_0),
    ensures
        read_record(d, at) == Ok::<(RecordModel, int), crate::error::DnsError>(
            (r, at + write_record(at, r)->Ok_0.len()),
        ),
{
    reveal(write_record);
    reveal(read_record);
    let b = write_record(at, r)->Ok_0;
    match r {
        RecordModel::NS { domain, host, ttl } => {
            let cb = write_common(at, domain, QueryType::NS, ttl)->Ok_0;
            let hb = write_name(at + cb.len() + 2, host)->Ok_0;
            assert(b == cb + (be16(hb.len() as u16) + hb));
            lemma_common_round_trip(d, at, domain, QueryType::NS, ttl, be16(hb.len() as u16) + hb);
            lemma_holds_split(d, at + cb.len(), be16(hb.len() as u16), hb);
            lemma_name_round_trip(d, at + cb.len() + 2, host);
            lemma_type_round_trip(QueryType::NS);
        },
        _ => {},
    }
}

#[verifier::rlimit(100)]
proof fn lemma_cname_round_trip(d: Seq<u8>, at: int, r: RecordModel)
    requires
        d.len() == 512,
        record_round_trips(r),
        r is CNAME,
        write_record(at, r) is Ok,
        holds_at(d, at, write_record(at, r)->Ok_0),
    ensures
        read_record(d, at) == Ok::<(RecordModel, int), crate::error::DnsError>(
            (r, at + write_record(at, r)->Ok_0.len()),
        ),
{
    reveal(write_record);
    reveal(read_record);
    let b = write_record(at, r)->Ok_0;
    match r {
        RecordModel::CNAME { domain, host, ttl } => {
            let cb = write_common(at, domain, QueryType::CNAME, ttl)->Ok_0;
            let hb = write_name(at + cb.len() + 2, host)->Ok_0;
            assert(b == cb + (be16(hb.len() as u16) + hb));
            lemma_common_round_trip(d, at, domain, QueryType::CNAME, ttl, be16(hb.len() as u16) + hb);
            lemma_holds_split(d, at + cb.len(), be16(hb.len() as u16), hb);
            lemma_name_round_trip(d, at + cb.len() + 2, host);
            lemma_type_round_trip(QueryType::CNAME);
        },
        _ => {},
    }
}

#[verifier::rlimit(100)]
proof fn lemma_mx_round_trip(d: Seq<u8>, at: int, r: RecordModel)
    requires
        d.len() == 512,
        record_round_trips(r),
        r is MX,
        write_record(at, r) is Ok,
        holds_at(d, at, write_record(at, r)->Ok_0),
    ensures
        read_record(d, at) == Ok::<(RecordModel, int), crate::error::DnsError>(
            (r, at + write_record(at, r)->Ok_0.len()),
        ),
{
    reveal(write_record);
    reveal(read_record);
    let b = write_record(at, r)->Ok_0;
    match r {
        RecordModel::MX { domain, priority, exchange, ttl } => {
            let cb = write_common(at, domain, QueryType::MX, ttl)->Ok_0;
            let xb = write_name(at + cb.len() + 4, exchange)->Ok_0;
            let rest = be16((2 + xb.len()) as u16) + (be16(priority) + xb);
            assert(b == cb + rest);
            lemma_common_round_trip(d, at, domain, QueryType::MX, ttl, rest);
            lemma_holds_split(d, at + cb.len(), be16((2 + xb.len()) as u16), be16(priority) + xb);
            lemma_holds_split(d, at + cb.len() + 2, be16(priority), xb);
            lemma_u16_at(d, at + cb.len() + 2, priority);
            lemma_name_round_trip(d, at + cb.len() + 4, exchange);
            lemma_type_round_trip(QueryType::MX);
        },
        _ => {},
    }
}
/// A packet that decoding reproduces: a four-bit opcode, and queries and
/// records that round-trip.
pub open spec fn packet_round_trips(p: PacketModel) -> bool {
    &&& p.header.opcode < 16
    &&& forall|i: int| 0 <= i < p.queries.len() ==> query_round_trips(#[trigger] p.queries[i])
    &&& forall|i: int| 0 <= i < p.answers.len() ==> record_round_trips(#[trigger] p.answers[i])
    &&& forall|i: int| 0 <= i < p.authorities.len() ==> record_round_trips(#[trigger] p.authorities[i])
    &&& forall|i: int| 0 <= i < p.additionals.len() ==> record_round_trips(#[trigger] p.additionals[i])
}

/// A record written from a position within the buffer ends within it, and
/// one of a supported type writes at least one byte.
#[verifier::rlimit(60)]
pub proof fn lemma_record_fits(at: int, r: RecordModel)
    requires
        at <= 512,
        write_record(at, r) is Ok,
    ensures
        at + write_record(at, r)->Ok_0.len() <= 512,
        !(r is UNKNOWN) ==> write_record(at, r)->Ok_0.len() >= 1,
{
    reveal(write_record);
    match r {
        RecordModel::NS { domain, host, ttl } => {
            let cb = write_common(at, domain, QueryType::NS, ttl)->Ok_0;
            lemma_name_nonempty(at + cb.len() + 2, host);
        },
        RecordModel::CNAME { domain, host, ttl } => {
            let cb = write_common(at, domain, QueryType::CNAME, ttl)->Ok_0;
            lemma_name_nonempty(at + cb.len() + 2, host);
        },
        RecordModel::MX { domain, exchange, ttl, .. } => {
            let cb = write_common(at, domain, QueryType::MX, ttl)->Ok_0;
            lemma_name_nonempty(at + cb.len() + 4, exchange);
        },
        _ => {},
    }
}

/// Queries written one after another decode to themselves.
proof fn lemma_queries_round_trip(d: Seq<u8>, at: int, qs: Seq<QueryModel>)
    requires
        d.len() == 512,
        forall|i: int| 0 <= i < qs.len() ==> query_round_trips(#[trigger] qs[i]),
        write_queries(at, qs) is Ok,
        holds_at(d, at, write_queries(at, qs)->Ok_0),
    ensures
        read_queries(d, at, qs.len()) == Ok::<(Seq<QueryModel>, int), crate::error::DnsError>(
            (qs, at + write_queries(at, qs)->Ok_0.len()),
        ),
        qs.len() <= write_queries(at, qs)->Ok_0.len(),
    decreases qs.len(),
{
    if qs.len() > 0 {
        let b0 = write_query(at, qs[0])->Ok_0;
        let rest = qs.drop_first();
        let rb = write_queries(at + b0.len(), rest)->Ok_0;
        lemma_holds_split(d, at, b0, rb);
        assert(query_round_trips(qs[0]));
        lemma_query_round_trip(d, at, qs[0]);
        lemma_name_nonempty(at, qs[0].qname);
        assert forall|i: int| 0 <= i < rest.len() implies query_round_trips(#[trigger] rest[i]) by {
            assert(rest[i] == qs[i + 1]);
        }
        lemma_queries_round_trip(d, at + b0.len(), rest);
        assert(seq![qs[0]] + rest =~= qs);
    } else {
        assert(qs =~= Seq::<QueryModel>::empty());
    }
}

/// Records written one after another decode to themselves.
proof fn lemma_records_round_trip(d: Seq<u8>, at: int, rs: Seq<RecordModel>)
    requires
        d.len() == 512,
        forall|i: int| 0 <= i < rs.len() ==> record_round_trips(#[trigger] rs[i]),
        write_records(at, rs) is Ok,
        holds_at(d, at, write_records(at, rs)->Ok_0),
    ensures
        read_records(d, at, rs.len()) == Ok::<(Seq<RecordModel>, int), crate::error::DnsError>(
            (rs, at + write_records(at, rs)->Ok_0.len()),
        ),
        rs.len() <= write_records(at, rs)->Ok_0.len(),
    decreases rs.len(),
{
    if rs.len() > 0 {
        let b0 = write_record(at, rs[0])->Ok_0;
        let rest = rs.drop_first();
        let rb = write_records(at + b0.len(), rest)->Ok_0;
        lemma_holds_split(d, at, b0, rb);
        assert(record_round_trips(rs[0]));
        lemma_record_round_trip(d, at, rs[0]);
        lemma_record_fits(at, rs[0]);
        assert forall|i: int| 0 <= i < rest.len() implies record_round_trips(#[trigger] rest[i]) by {
            assert(rest[i] == rs[i + 1]);
        }
        lemma_records_round_trip(d, at + b0.len(), rest);
        assert(seq![rs[0]] + rest =~= rs);
    } else {
        assert(rs =~= Seq::<RecordModel>::empty());
    }
}

proof fn lemma_queries_fit(at: int, qs: Seq<QueryModel>)
    requires
        at <= 512,
        write_queries(at, qs) is Ok,
    ensures
        at + write_queries(at, qs)->Ok_0.len() <= 512,
    decreases qs.len(),
{
    if qs.len() > 0 {
        let b0 = write_query(at, qs[0])->Ok_0;
        lemma_queries_fit(at + b0.len(), qs.drop_first());
    }
}

proof fn lemma_records_fit(at: int, rs: Seq<RecordModel>)
    requires
        at <= 512,
        write_records(at, rs) is Ok,
    ensures
        at + write_records(at, rs)->Ok_0.len() <= 512,
    decreases rs.len(),
{
    if rs.len() > 0 {
        let b0 = write_record(at, rs[0])->Ok_0;
        lemma_record_fits(at, rs[0]);
        lemma_records_fit(at + b0.len(), rs.drop_first());
    }
}

/// Decoding what a packet encodes to gives the packet back, with its four
/// counts set from the lengths of its sections.
#[verifier::rlimit(100)]
pub proof fn lemma_packet_round_trip(d: Seq<u8>, at: int, p: PacketModel)
    requires
        d.len() == 512,
        0 <= at,
        packet_round_trips(p),
        write_packet(at, p) is Ok,
    ensures
        read_packet(overwrite(d, at, write_packet(at, p)->Ok_0), at) == Ok::<
            (PacketModel, int),
            crate::error::DnsError,
        >(
            (
                PacketModel { header: counted_header(p), ..p },
                at + write_packet(at, p)->Ok_0.len(),
            ),
        ),
{
    let h = counted_header(p);
    let hb = header_bytes(h);
    let qb = write_queries(at + 12, p.queries)->Ok_0;
    let a1 = at + 12 + qb.len();
    let ab = write_records(a1, p.answers)->Ok_0;
    let nb = write_records(a1 + ab.len(), p.authorities)->Ok_0;
    let rb = write_records(a1 + ab.len() + nb.len(), p.additionals)->Ok_0;
    let b = write_packet(at, p)->Ok_0;
    assert(b == hb + qb + (ab + nb + rb));
    lemma_queries_fit(at + 12, p.queries);
    lemma_records_fit(a1, p.answers);
    lemma_records_fit(a1 + ab.len(), p.authorities);
    lemma_records_fit(a1 + ab.len() + nb.len(), p.additionals);
    let dd = overwrite(d, at, b);
    assert(holds_at(dd, at, b));
    lemma_holds_split(dd, at, hb + qb, ab + nb + rb);
    lemma_holds_split(dd, at, hb, qb);
    lemma_holds_split(dd, a1, ab + nb, rb);
    lemma_holds_split(dd, a1, ab, nb);
    lemma_header_round_trip(dd, at, h);
    lemma_queries_round_trip(dd, at + 12, p.queries);
    lemma_records_round_trip(dd, a1, p.answers);
    lemma_records_round_trip(dd, a1 + ab.len(), p.authorities);
    lemma_records_round_trip(dd, a1 + ab.len() + nb.len(), p.additionals);
}

/// A name in lowercase ASCII whose labels are each 1 to 63 bytes long.
pub open spec fn lowercase_ascii_name(name: Seq<char>) -> bool {
    &&& forall|i: int| 0 <= i < name.len() ==> '\0' <= #[trigger] name[i] <= '\u{7f}' && !('A'
        <= name[i] <= 'Z')
    &&& forall|i: int|
        0 <= i < name_labels(name).len() ==> 0 < (#[trigger] name_labels(name)[i]).len() <= 63
}

/// Bytes of lowercase ASCII.
pub open spec fn lowercase_ascii_bytes(b: Seq<u8>) -> bool {
    forall|k: int| 0 <= k < b.len() ==> #[trigger] b[k] < 0x80 && !(0x41 <= b[k] <= 0x5A)
}

proof fn lemma_split_keeps_ascii(b: Seq<u8>)
    requires
        lowercase_ascii_bytes(b),
    ensures
        forall|i: int| 0 <= i < dot_split(b).len() ==> lowercase_ascii_bytes(#[trigger] dot_split(b)[i]),
    decreases b.len(),
{
    if b.len() > 0 {
        let t = b.drop_first();
        assert(lowercase_ascii_bytes(t)) by {
            assert forall|k: int| 0 <= k < t.len() implies #[trigger] t[k] < 0x80 && !(0x41 <= t[k] <= 0x5A) by {
                assert(t[k] == b[k + 1]);
            }
        }
        lemma_split_keeps_ascii(t);
        lemma_dot_split_len(t);
        let rest = dot_split(t);
        if b[0] != DOT {
            let first = seq![b[0]] + rest[0];
            assert(lowercase_ascii_bytes(rest[0]));
            assert(lowercase_ascii_bytes(first)) by {
                assert forall|k: int| 0 <= k < first.len() implies #[trigger] first[k] < 0x80 && !(0x41 <= first[k] <= 0x5A) by {
                    if k > 0 {
                        assert(first[k] == rest[0][k - 1]);
                    }
                }
            }
            assert forall|i: int| 0 <= i < dot_split(b).len() implies lowercase_ascii_bytes(#[trigger] dot_split(b)[i]) by {
                if i > 0 {
                    assert(dot_split(b)[i] == rest[i]);
                }
            }
        } else {
            assert forall|i: int| 0 <= i < dot_split(b).len() implies lowercase_ascii_bytes(#[trigger] dot_split(b)[i]) by {
                if i > 0 {
                    assert(dot_split(b)[i] == rest[i - 1]);
                } else {
                    assert(dot_split(b)[0] =~= Seq::<u8>::empty());
                }
            }
        }
    }
}

/// Lowercase ASCII bytes are valid UTF-8 and decode byte for byte.
proof fn lemma_ascii_decode(l: Seq<u8>)
    requires
        lowercase_ascii_bytes(l),
    ensures
        valid_utf8(l),
        decode_utf8(l).len() == l.len(),
        forall|k: int| 0 <= k < l.len() ==> (#[trigger] decode_utf8(l)[k]) as nat == l[k] as nat,
    decreases l.len(),
{
    reveal_with_fuel(valid_utf8, 2);
    if l.len() > 0 {
        let t = l.drop_first();
        assert(lowercase_ascii_bytes(t)) by {
            assert forall|k: int| 0 <= k < t.len() implies #[trigger] t[k] < 0x80 && !(0x41 <= t[k] <= 0x5A) by {
                assert(t[k] == l[k + 1]);
            }
        }
        lemma_ascii_decode(t);
        let b0 = l[0];
        assert(b0 < 0x80);
        assert(b0 & 0x7Fu8 == b0) by (bit_vector)
            requires
                b0 < 0x80u8,
        ;
        assert(vstd::utf8::pop_first_scalar(l) =~= t);
        let c = vstd::utf8::decode_first_scalar(l);
        assert(c == b0 as u32);
        vstd::utf8::char_u32_cast((c as char), c);
        assert((c as char) as nat == b0 as nat);
        assert forall|k: int| 0 <= k < l.len() implies (#[trigger] decode_utf8(l)[k]) as nat == l[k] as nat by {
            if k > 0 {
                assert(decode_utf8(l)[k] == decode_utf8(t)[k - 1]);
            }
        }
    }
}

/// Where a character stands among the ASCII ones, by its number.
proof fn lemma_char_range(c: char)
    ensures
        (c as nat) < 128 ==> '\0' <= c <= '\u{7f}',
        !(65 <= (c as nat) <= 90) ==> !('A' <= c <= 'Z'),
{
}

/// A label of lowercase ASCII is unchanged by lowercasing.
proof fn lemma_ascii_label_round_trips(l: Seq<u8>)
    requires
        lowercase_ascii_bytes(l),
        0 < l.len() <= 63,
    ensures
        label_round_trips(l),
{
    lemma_ascii_decode(l);
    let s = decode_utf8(l);
    assert(vstd::utf8::is_ascii_chars(s)) by {
        assert forall|i: int| 0 <= i < s.len() implies '\0' <= #[trigger] s[i] <= '\u{7f}' by {
            lemma_char_range(s[i]);
        }
    }
    assert(s.map_values(|c: char| ascii_lower(c)) =~= s) by {
        assert forall|i: int| 0 <= i < s.len() implies ascii_lower(#[trigger] s[i]) == s[i] by {
            lemma_char_range(s[i]);
        }
    }
}

/// A name in lowercase ASCII with labels of 1 to 63 bytes is reproduced by
/// decoding.
pub proof fn lemma_lowercase_ascii_round_trips(name: Seq<char>)
    requires
        lowercase_ascii_name(name),
    ensures
        name_round_trips(name),
{
    reveal(name_round_trips);
    let b = encode_utf8(name);
    assert(vstd::utf8::is_ascii_chars(name));
    vstd::utf8::is_ascii_chars_encode_utf8(name);
    assert(lowercase_ascii_bytes(b)) by {
        assert forall|k: int| 0 <= k < b.len() implies #[trigger] b[k] < 0x80 && !(0x41 <= b[k] <= 0x5A) by {
            assert(b[k] == name[k] as u8);
            assert((name[k] as nat) < 128);
        }
    }
    lemma_split_keeps_ascii(b);
    assert forall|i: int| 0 <= i < name_labels(name).len() implies label_round_trips(
        #[trigger] name_labels(name)[i],
    ) by {
        lemma_ascii_label_round_trips(name_labels(name)[i]);
    }
}

/// A record of a supported type whose names are in lowercase ASCII with
/// labels of 1 to 63 bytes, and whose address has its full length.
pub open spec fn record_lowercase_ascii(r: RecordModel) -> bool {
    match r {
        RecordModel::UNKNOWN { .. } => false,
        RecordModel::A { domain, ip_addr, .. } => lowercase_ascii_name(domain) && ip_addr.len()
            == 4,
        RecordModel::AAAA { domain, ip_addr, .. } => lowercase_ascii_name(domain) && ip_addr.len()
            == 8,
        RecordModel::NS { domain, host, .. } => lowercase_ascii_name(domain) && lowercase_ascii_name(
            host,
        ),
        RecordModel::CNAME { domain, host, .. } => lowercase_ascii_name(domain)
            && lowercase_ascii_name(host),
        RecordModel::MX { domain, exchange, .. } => lowercase_ascii_name(domain)
            && lowercase_ascii_name(exchange),
    }
}

/// A packet with a four-bit opcode, queries of named or unnamed-number types,
/// supported records, and every name in lowercase ASCII with labels of 1 to
/// 63 bytes.
pub open spec fn packet_lowercase_ascii(p: PacketModel) -> bool {
    &&& p.header.opcode < 16
    &&& forall|i: int|
        0 <= i < p.queries.len() ==> lowercase_ascii_name((#[trigger] p.queries[i]).qname)
            && type_wf(p.queries[i].qtype)
    &&& forall|i: int| 0 <= i < p.answers.len() ==> record_lowercase_ascii(#[trigger] p.answers[i])
    &&& forall|i: int|
        0 <= i < p.authorities.len() ==> record_lowercase_ascii(#[trigger] p.authorities[i])
    &&& forall|i: int|
        0 <= i < p.additionals.len() ==> record_lowercase_ascii(#[trigger] p.additionals[i])
}

proof fn lemma_record_ascii_round_trips(r: RecordModel)
    requires
        record_lowercase_ascii(r),
    ensures
        record_round_trips(r),
{
    match r {
        RecordModel::A { domain, .. } => lemma_lowercase_ascii_round_trips(domain),
        RecordModel::AAAA { domain, .. } => lemma_lowercase_ascii_round_trips(domain),
        RecordModel::NS { domain, host, .. } => {
            lemma_lowercase_ascii_round_trips(domain);
            lemma_lowercase_ascii_round_trips(host);
        },
        RecordModel::CNAME { domain, host, .. } => {
            lemma_lowercase_ascii_round_trips(domain);
            lemma_lowercase_ascii_round_trips(host);
        },
        RecordModel::MX { domain, exchange, .. } => {
            lemma_lowercase_ascii_round_trips(domain);
            lemma_lowercase_ascii_round_trips(exchange);
        },
        RecordModel::UNKNOWN { .. } => {},
    }
}

/// Decoding what a packet of lowercase ASCII names encodes to gives the
/// packet back, with its four counts set from the lengths of its sections.
pub proof fn lemma_lowercase_ascii_packet_round_trip(d: Seq<u8>, at: int, p: PacketModel)
    requires
        d.len() == 512,
        0 <= at,
        packet_lowercase_ascii(p),
        write_packet(at, p) is Ok,
    ensures
        read_packet(overwrite(d, at, write_packet(at, p)->Ok_0), at) == Ok::<
            (PacketModel, int),
            crate::error::DnsError,
        >(
            (
                PacketModel { header: counted_header(p), ..p },
                at + write_packet(at, p)->Ok_0.len(),
            ),
        ),
{
    assert forall|i: int| 0 <= i < p.queries.len() implies query_round_trips(#[trigger] p.queries[i]) by {
        lemma_lowercase_ascii_round_trips(p.queries[i].qname);
    }
    assert forall|i: int| 0 <= i < p.answers.len() implies record_round_trips(#[trigger] p.answers[i]) by {
        lemma_record_ascii_round_trips(p.answers[i]);
    }
    assert forall|i: int| 0 <= i < p.authorities.len() implies record_round_trips(#[trigger] p.authorities[i]) by {
        lemma_record_ascii_round_trips(p.authorities[i]);
    }
    assert forall|i: int| 0 <= i < p.additionals.len() implies record_round_trips(#[trigger] p.additionals[i]) by {
        lemma_record_ascii_round_trips(p.additionals[i]);
    }
    lemma_packet_round_trip(d, at, p);
}

/// After serialization the four count fields on the wire equal the lengths
/// of the four sections.
pub proof fn lemma_counts_written(at: int, p: PacketModel)
    requires
        write_packet(at, p) is Ok,
        p.queries.len() <= 0xFFFF,
        p.answers.len() <= 0xFFFF,
        p.authorities.len() <= 0xFFFF,
        p.additionals.len() <= 0xFFFF,
    ensures
        u16_at(write_packet(at, p)->Ok_0, 4) == p.queries.len(),
        u16_at(write_packet(at, p)->Ok_0, 6) == p.answers.len(),
        u16_at(write_packet(at, p)->Ok_0, 8) == p.authorities.len(),
        u16_at(write_packet(at, p)->Ok_0, 10) == p.additionals.len(),
{
    let h = counted_header(p);
    let b = write_packet(at, p)->Ok_0;
    let qb = write_queries(at + 12, p.queries)->Ok_0;
    let sb = write_sections(at + 12 + qb.len(), p)->Ok_0;
    assert(b == header_bytes(h) + (qb + sb));
    assert(holds_at(b, 0, b));
    lemma_holds_split(b, 0, header_bytes(h), qb + sb);
    let hb = header_bytes(h);
    let pre = be16(h.id) + seq![flags_hi(h), flags_lo(h)];
    lemma_holds_split(b, 0, pre + be16(h.queries_total) + be16(h.answer_rr_total) + be16(h.authoritative_rr_total), be16(h.additional_rr_total));
    lemma_holds_split(b, 0, pre + be16(h.queries_total) + be16(h.answer_rr_total), be16(h.authoritative_rr_total));
    lemma_holds_split(b, 0, pre + be16(h.queries_total), be16(h.answer_rr_total));
    lemma_holds_split(b, 0, pre, be16(h.queries_total));
    lemma_u16_at(b, 4, h.queries_total);
    lemma_u16_at(b, 6, h.answer_rr_total);
    lemma_u16_at(b, 8, h.authoritative_rr_total);
    lemma_u16_at(b, 10, h.additional_rr_total);
}

} // verus!
