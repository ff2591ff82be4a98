use vstd::prelude::*;

use crate::addr::Ipv4Addr;
use crate::error::DnsError;
use crate::header::{header_at, header_bytes, Header, HEADER_LEN};
use crate::name::DOT;
use vstd::utf8::encode_utf8;
use crate::packet_buffer::{lemma_overwrite_append, overwrite, u16_at, PacketBuffer, BUF_SIZE};
use crate::query::{read_query, write_query, Query, QueryModel};
use crate::resource_record::{read_record, write_record, RecordModel, ResourceRecord};

verus! {

/// A whole DNS message: header, questions, and the answer, authority and
/// additional record sections, each in wire order.
#[derive(Clone, Debug, PartialEq)]
pub struct Packet {
    pub header: Header,
    pub queries: Vec<Query>,
    pub answer_records: Vec<ResourceRecord>,
    pub authoritative_records: Vec<ResourceRecord>,
    pub additional_records: Vec<ResourceRecord>,
}

/// What a packet stands for.
pub struct PacketModel {
    pub header: Header,
    pub queries: Seq<QueryModel>,
    pub answers: Seq<RecordModel>,
    pub authorities: Seq<RecordModel>,
    pub additionals: Seq<RecordModel>,
}

pub open spec fn query_models(v: Seq<Query>) -> Seq<QueryModel> {
    v.map_values(|q: Query| q@)
}

pub open spec fn record_models(v: Seq<ResourceRecord>) -> Seq<RecordModel> {
    v.map_values(|r: ResourceRecord| r@)
}

impl View for Packet {
    type V = PacketModel;

    open spec fn view(&self) -> PacketModel {
        PacketModel {
            header: self.header,
            queries: query_models(self.queries@),
            answers: record_models(self.answer_records@),
            authorities: record_models(self.authoritative_records@),
            additionals: record_models(self.additional_records@),
        }
    }
}

/// The header of `p` with its four counts set from the section lengths.
pub open spec fn counted_header(p: PacketModel) -> Header {
    Header {
        queries_total: p.queries.len() as u16,
        answer_rr_total: p.answers.len() as u16,
        authoritative_rr_total: p.authorities.len() as u16,
        additional_rr_total: p.additionals.len() as u16,
        ..p.header
    }
}

/// What writing the queries `qs` one after another from `at` gives.
pub open spec fn write_queries(at: int, qs: Seq<QueryModel>) -> Result<Seq<u8>, DnsError>
    decreases qs.len(),
{
    if qs.len() == 0 {
        Ok(Seq::empty())
    } else {
        match write_query(at, qs[0]) {
            Ok(b) => match write_queries(at + b.len(), qs.drop_first()) {
                Ok(rest) => Ok(b + rest),
                Err(e) => Err(e),
            },
            Err(e) => Err(e),
        }
    }
}

/// What writing the records `rs` one after another from `at` gives.
pub open spec fn write_records(at: int, rs: Seq<RecordModel>) -> Result<Seq<u8>, DnsError>
    decreases rs.len(),
{
    if rs.len() == 0 {
        Ok(Seq::empty())
    } else {
        match write_record(at, rs[0]) {
            Ok(b) => match write_records(at + b.len(), rs.drop_first()) {
                Ok(rest) => Ok(b + rest),
                Err(e) => Err(e),
            },
            Err(e) => Err(e),
        }
    }
}

/// What writing the three record sections from `at` gives.
pub open spec fn write_sections(at: int, p: PacketModel) -> Result<Seq<u8>, DnsError> {
    match write_records(at, p.answers) {
        Ok(ab) => match write_records(at + ab.len(), p.authorities) {
            Ok(nb) => match write_records(at + ab.len() + nb.len(), p.additionals) {
                Ok(rb) => Ok(ab + nb + rb),
                Err(e) => Err(e),
            },
            Err(e) => Err(e),
        },
        Err(e) => Err(e),
    }
}

/// What writing the packet `p` from `at` gives: its header with the counts
/// set from the section lengths, then every section in order.
pub open spec fn write_packet(at: int, p: PacketModel) -> Result<Seq<u8>, DnsError> {
    if at + 12 > 512 {
        Err(DnsError::EndOfBuffer)
    } else {
        match write_queries(at + 12, p.queries) {
            Ok(qb) => match write_sections(at + 12 + qb.len(), p) {
                Ok(sb) => Ok(header_bytes(counted_header(p)) + qb + sb),
                Err(e) => Err(e),
            },
            Err(e) => Err(e),
        }
    }
}

/// The `n` queries that the bytes of `d` from `at` on stand for, and where they end.
pub open spec fn read_queries(d: Seq<u8>, at: int, n: nat) -> Result<(Seq<QueryModel>, int), DnsError>
    decreases n,
{
    if n == 0 {
        Ok((Seq::empty(), at))
    } else {
        match read_query(d, at) {
            Ok((q, end)) => match read_queries(d, end, (n - 1) as nat) {
                Ok((qs, fin)) => Ok((seq![q] + qs, fin)),
                Err(e) => Err(e),
            },
            Err(e) => Err(e),
        }
    }
}

/// The `n` records that the bytes of `d` from `at` on stand for, and where they end.
pub open spec fn read_records(d: Seq<u8>, at: int, n: nat) -> Result<(Seq<RecordModel>, int), DnsError>
    decreases n,
{
    if n == 0 {
        Ok((Seq::empty(), at))
    } else {
        match read_record(d, at) {
            Ok((r, end)) => match read_records(d, end, (n - 1) as nat) {
                Ok((rs, fin)) => Ok((seq![r] + rs, fin)),
                Err(e) => Err(e),
            },
            Err(e) => Err(e),
        }
    }
}

/// The packet that the bytes of `d` from `at` on stand for, and where it ends:
/// the header, then as many entries of each section as its count says.
pub open spec fn read_packet(d: Seq<u8>, at: int) -> Result<(PacketModel, int), DnsError> {
    if at + 12 > 512 {
        Err(DnsError::EndOfBuffer)
    } else {
        let h = header_at(d, at);
        match read_queries(d, at + 12, h.queries_total as nat) {
            Ok((qs, e1)) => match read_records(d, e1, h.answer_rr_total as nat) {
                Ok((an, e2)) => match read_records(d, e2, h.authoritative_rr_total as nat) {
                    Ok((ns, e3)) => match read_records(d, e3, h.additional_rr_total as nat) {
                        Ok((ar, e4)) => Ok(
                            (
                                PacketModel {
                                    header: h,
                                    queries: qs,
                                    answers: an,
                                    authorities: ns,
                                    additionals: ar,
                                },
                                e4,
                            ),
                        ),
                        Err(e) => Err(e),
                    },
                    Err(e) => Err(e),
                },
                Err(e) => Err(e),
            },
            Err(e) => Err(e),
        }
    }
}

/// True when `z` is the whole of `q` or a suffix of it that starts right
/// after a dot; the empty zone, the root, holds every name.
pub open spec fn in_zone(q: Seq<u8>, z: Seq<u8>) -> bool {
    z.len() == 0 || (z.len() <= q.len() && q.subrange(q.len() - z.len(), q.len() as int) == z && (
    q.len() == z.len() || q[q.len() - z.len() - 1] == DOT))
}

/// True when the name `qname` lies within the zone `zone`, label by label.
pub open spec fn name_in_zone(qname: Seq<char>, zone: Seq<char>) -> bool {
    in_zone(encode_utf8(qname), encode_utf8(zone))
}

/// The octets of a sequence of IPv4 addresses.
pub open spec fn addr_octets(v: Seq<Ipv4Addr>) -> Seq<Seq<u8>> {
    v.map_values(|a: Ipv4Addr| a.octets@)
}

/// The addresses of the A records of `rs`, in order.
pub open spec fn a_addrs(rs: Seq<RecordModel>) -> Seq<Seq<u8>>
    decreases rs.len(),
{
    if rs.len() == 0 {
        Seq::empty()
    } else {
        let init = a_addrs(rs.drop_last());
        match rs.last() {
            RecordModel::A { ip_addr, .. } => init.push(ip_addr),
            _ => init,
        }
    }
}

/// The addresses of the A records of `rs` whose owner name is `host`, in order.
pub open spec fn a_addrs_of(rs: Seq<RecordModel>, host: Seq<char>) -> Seq<Seq<u8>>
    decreases rs.len(),
{
    if rs.len() == 0 {
        Seq::empty()
    } else {
        let init = a_addrs_of(rs.drop_last(), host);
        match rs.last() {
            RecordModel::A { domain, ip_addr, .. } => if domain == host {
                init.push(ip_addr)
            } else {
                init
            },
            _ => init,
        }
    }
}

/// The hosts of the NS records of `rs` whose zone holds `qname`, in order.
pub open spec fn ns_hosts(rs: Seq<RecordModel>, qname: Seq<char>) -> Seq<Seq<char>>
    decreases rs.len(),
{
    if rs.len() == 0 {
        Seq::empty()
    } else {
        let init = ns_hosts(rs.drop_last(), qname);
        match rs.last() {
            RecordModel::NS { domain, host, .. } => if name_in_zone(qname, domain) {
                init.push(host)
            } else {
                init
            },
            _ => init,
        }
    }
}

/// For each host in order, the addresses that the records `rs` give it.
pub open spec fn glue_addrs(hosts: Seq<Seq<char>>, rs: Seq<RecordModel>) -> Seq<Seq<u8>>
    decreases hosts.len(),
{
    if hosts.len() == 0 {
        Seq::empty()
    } else {
        glue_addrs(hosts.drop_last(), rs) + a_addrs_of(rs, hosts.last())
    }
}

/// Whether the name `qname` lies within the zone `zone`.
fn is_in_zone(qname: &str, zone: &str) -> (r: bool)
    ensures
        r == name_in_zone(qname@, zone@),
{
    let q = qname.as_bytes();
    let z = zone.as_bytes();
    assert(q@ == encode_utf8(qname@));
    assert(z@ == encode_utf8(zone@));
    if z.len() == 0 {
        return true;
    }
    if z.len() > q.len() {
        return false;
    }
    assert(q@ == encode_utf8(qname@));
    assert(z@ == encode_utf8(zone@));
    let off = q.len() - z.len();
    let mut i: usize = 0;
    while i < z.len()
        invariant
            i <= z@.len(),
            off + z@.len() == q@.len(),
            q@.len() == q.len(),
            z@.len() == z.len(),
            forall|k: int| 0 <= k < i ==> q@[off + k] == z@[k],
            q@ == encode_utf8(qname@),
            z@ == encode_utf8(zone@),
        decreases z@.len() - i,
    {
        if q[off + i] != z[i] {
            assert(q@.subrange(off as int, q@.len() as int)[i as int] != z@[i as int]);
            return false;
        }
        i = i + 1;
    }
    assert(q@.subrange(off as int, q@.len() as int) =~= z@);
    off == 0 || q[off - 1] == DOT
}

/// Decodes `n` queries from the cursor on.
fn read_query_list(buffer: &mut PacketBuffer, n: u16) -> (r: Result<Vec<Query>, DnsError>)
    ensures
        final(buffer).data() == old(buffer).data(),
        match read_queries(old(buffer).data(), old(buffer).cursor(), n as nat) {
            Ok((qs, end)) => r is Ok && query_models(r->Ok_0@) == qs && final(buffer).cursor() == end,
            Err(e) => r == Err::<Vec<Query>, DnsError>(e),
        },
{
    let ghost d = buffer.data();
    let ghost c = buffer.cursor();
    let mut list: Vec<Query> = Vec::new();
    let mut i: u16 = 0;
    proof {
        assert(query_models(list@) =~= Seq::<QueryModel>::empty());
        assert forall|qs: Seq<QueryModel>| Seq::<QueryModel>::empty() + qs =~= qs by {}
    }
    while i < n
        invariant
            i <= n,
            buffer.data() == d,
            d == old(buffer).data(),
            c == old(buffer).cursor(),
            read_queries(d, c, n as nat) == match read_queries(d, buffer.cursor(), (n - i) as nat) {
                Ok((qs, end)) => Ok::<(Seq<QueryModel>, int), DnsError>((query_models(list@) + qs, end)),
                Err(e) => Err(e),
            },
        decreases n - i,
    {
        let ghost before = query_models(list@);
        let query = Query::from_buffer(buffer)?;
        list.push(query);
        proof {
            assert(query_models(list@) =~= before.push(query@));
            assert forall|qs: Seq<QueryModel>| before + (seq![query@] + qs) =~= before.push(query@) + qs by {}
        }
        i = i + 1;
    }
    proof {
        assert(query_models(list@) + Seq::<QueryModel>::empty() =~= query_models(list@));
    }
    Ok(list)
}

/// Decodes `n` records from the cursor on.
fn read_record_list(buffer: &mut PacketBuffer, n: u16) -> (r: Result<Vec<ResourceRecord>, DnsError>)
    ensures
        final(buffer).data() == old(buffer).data(),
        match read_records(old(buffer).data(), old(buffer).cursor(), n as nat) {
            Ok((rs, end)) => r is Ok && record_models(r->Ok_0@) == rs && final(buffer).cursor() == end,
            Err(e) => r == Err::<Vec<ResourceRecord>, DnsError>(e),
        },
{
    let ghost d = buffer.data();
    let ghost c = buffer.cursor();
    let mut list: Vec<ResourceRecord> = Vec::new();
    let mut i: u16 = 0;
    proof {
        assert(record_models(list@) =~= Seq::<RecordModel>::empty());
        assert forall|rs: Seq<RecordModel>| Seq::<RecordModel>::empty() + rs =~= rs by {}
    }
    while i < n
        invariant
            i <= n,
            buffer.data() == d,
            d == old(buffer).data(),
            c == old(buffer).cursor(),
            read_records(d, c, n as nat) == match read_records(d, buffer.cursor(), (n - i) as nat) {
                Ok((rs, end)) => Ok::<(Seq<RecordModel>, int), DnsError>((record_models(list@) + rs, end)),
                Err(e) => Err(e),
            },
        decreases n - i,
    {
        let ghost before = record_models(list@);
        let record = ResourceRecord::from_buffer(buffer)?;
        list.push(record);
        proof {
            assert(record_models(list@) =~= before.push(record@));
            assert forall|rs: Seq<RecordModel>| before + (seq![record@] + rs) =~= before.push(record@) + rs by {}
        }
        i = i + 1;
    }
    proof {
        assert(record_models(list@) + Seq::<RecordModel>::empty() =~= record_models(list@));
    }
    Ok(list)
}

/// Encodes the queries one after another from the cursor on.
fn write_query_list(buffer: &mut PacketBuffer, list: &Vec<Query>) -> (r: Result<(), DnsError>)
    ensures
        match write_queries(old(buffer).cursor(), query_models(list@)) {
            Ok(b) => r is Ok && final(buffer).data() == overwrite(
                old(buffer).data(),
                old(buffer).cursor(),
                b,
            ) && final(buffer).cursor() == old(buffer).cursor() + b.len(),
            Err(e) => r == Err::<(), DnsError>(e),
        },
{
    let ghost d = buffer.data();
    let ghost c = buffer.cursor();
    let ghost all = query_models(list@);
    let ghost mut written: Seq<u8> = Seq::empty();
    let mut i: usize = 0;
    proof {
        assert(all.subrange(0, all.len() as int) =~= all);
        assert(overwrite(d, c, written) =~= d);
    }
    while i < list.len()
        invariant
            i <= list@.len(),
            all == query_models(list@),
            d == old(buffer).data(),
            c == old(buffer).cursor(),
            buffer.data() == overwrite(d, c, written),
            buffer.cursor() == c + written.len(),
            write_queries(c, all) == match write_queries(buffer.cursor(), all.subrange(i as int, all.len() as int)) {
                Ok(rest) => Ok::<Seq<u8>, DnsError>(written + rest),
                Err(e) => Err(e),
            },
        decreases list@.len() - i,
    {
        let ghost at = buffer.cursor();
        list[i].write_to_buffer(buffer)?;
        proof {
            let b = write_query(at, all[i as int]);
            let tail = all.subrange(i as int, all.len() as int);
            assert(tail[0] == all[i as int]);
            assert(tail.drop_first() =~= all.subrange(i + 1, all.len() as int));
            lemma_overwrite_append(d, c, written, b->Ok_0);
            assert forall|rest: Seq<u8>| written + (b->Ok_0 + rest) =~= (written + b->Ok_0) + rest by {}
            written = written + b->Ok_0;
        }
        i = i + 1;
    }
    proof {
        assert(written + Seq::<u8>::empty() =~= written);
    }
    Ok(())
}

/// Encodes the records one after another from the cursor on.
fn write_record_list(buffer: &mut PacketBuffer, list: &Vec<ResourceRecord>) -> (r: Result<(), DnsError>)
    ensures
        match write_records(old(buffer).cursor(), record_models(list@)) {
            Ok(b) => r is Ok && final(buffer).data() == overwrite(
                old(buffer).data(),
                old(buffer).cursor(),
                b,
            ) && final(buffer).cursor() == old(buffer).cursor() + b.len(),
            Err(e) => r == Err::<(), DnsError>(e),
        },
{
    let ghost d = buffer.data();
    let ghost c = buffer.cursor();
    let ghost all = record_models(list@);
    let ghost mut written: Seq<u8> = Seq::empty();
    let mut i: usize = 0;
    proof {
        assert(all.subrange(0, all.len() as int) =~= all);
        assert(overwrite(d, c, written) =~= d);
    }
    while i < list.len()
        invariant
            i <= list@.len(),
            all == record_models(list@),
            d == old(buffer).data(),
            c == old(buffer).cursor(),
            buffer.data() == overwrite(d, c, written),
            buffer.cursor() == c + written.len(),
            write_records(c, all) == match write_records(buffer.cursor(), all.subrange(i as int, all.len() as int)) {
                Ok(rest) => Ok::<Seq<u8>, DnsError>(written + rest),
                Err(e) => Err(e),
            },
        decreases list@.len() - i,
    {
        let ghost at = buffer.cursor();
        list[i].write_to_buffer(buffer)?;
        proof {
            let b = write_record(at, all[i as int]);
            let tail = all.subrange(i as int, all.len() as int);
            assert(tail[0] == all[i as int]);
            assert(tail.drop_first() =~= all.subrange(i + 1, all.len() as int));
            lemma_overwrite_append(d, c, written, b->Ok_0);
            assert forall|rest: Seq<u8>| written + (b->Ok_0 + rest) =~= (written + b->Ok_0) + rest by {}
            written = written + b->Ok_0;
        }
        i = i + 1;
    }
    proof {
        assert(written + Seq::<u8>::empty() =~= written);
    }
    Ok(())
}

impl Packet {
    pub fn new() -> (r: Packet)
        ensures
            r.header == crate::header::empty_header(),
            r.queries@.len() == 0,
            r.answer_records@.len() == 0,
            r.authoritative_records@.len() == 0,
            r.additional_records@.len() == 0,
    {
        Packet {
            header: Header::new(),
            queries: Vec::new(),
            answer_records: Vec::new(),
            authoritative_records: Vec::new(),
            additional_records: Vec::new(),
        }
    }

    /// Decodes a whole packet from the cursor on: the header, then as many
    /// queries and records of each section as its counts say.
    pub fn from_buffer(buffer: &mut PacketBuffer) -> (r: Result<Packet, DnsError>)
        ensures
            final(buffer).data() == old(buffer).data(),
            match read_packet(old(buffer).data(), old(buffer).cursor()) {
                Ok((p, end)) => r is Ok && r->Ok_0@ == p && final(buffer).cursor() == end,
                Err(e) => r == Err::<Packet, DnsError>(e),
            },
    {
        let header = Header::from_buffer(buffer)?;
        let queries = read_query_list(buffer, header.queries_total)?;
        let answer_records = read_record_list(buffer, header.answer_rr_total)?;
        let authoritative_records = read_record_list(buffer, header.authoritative_rr_total)?;
        let additional_records = read_record_list(buffer, header.additional_rr_total)?;
        Ok(Packet { header, queries, answer_records, authoritative_records, additional_records })
    }

    /// Sets the four section counts from the section lengths, then encodes the
    /// packet from the cursor on. A record of an unknown type counts in its
    /// section but writes no bytes, so a packet that holds one does not decode
    /// back to itself; only packets of supported records round-trip.
    #[verifier::rlimit(40)]
    pub fn write_to_buffer(&mut self, buffer: &mut PacketBuffer) -> (r: Result<(), DnsError>)
        ensures
            final(self)@ == (PacketModel { header: counted_header(old(self)@), ..old(self)@ }),
            final(self).header.queries_total == old(self).queries@.len() as u16,
            final(self).header.answer_rr_total == old(self).answer_records@.len() as u16,
            final(self).header.authoritative_rr_total == old(self).authoritative_records@.len() as u16,
            final(self).header.additional_rr_total == old(self).additional_records@.len() as u16,
            match write_packet(old(buffer).cursor(), old(self)@) {
                Ok(b) => r is Ok && final(buffer).data() == overwrite(
                    old(buffer).data(),
                    old(buffer).cursor(),
                    b,
                ) && final(buffer).cursor() == old(buffer).cursor() + b.len(),
                Err(e) => r == Err::<(), DnsError>(e),
            },
            r is Ok && old(self).queries@.len() <= 0xFFFF && old(self).answer_records@.len() <= 0xFFFF
                && old(self).authoritative_records@.len() <= 0xFFFF
                && old(self).additional_records@.len() <= 0xFFFF ==> {
                let d = final(buffer).data();
                let c = old(buffer).cursor();
                &&& u16_at(d, c + 4) == old(self).queries@.len()
                &&& u16_at(d, c + 6) == old(self).answer_records@.len()
                &&& u16_at(d, c + 8) == old(self).authoritative_records@.len()
                &&& u16_at(d, c + 10) == old(self).additional_records@.len()
            },
    {
        let ghost d = buffer.data();
        let ghost c = buffer.cursor();
        self.header.queries_total = self.queries.len() as u16;
        self.header.answer_rr_total = self.answer_records.len() as u16;
        self.header.authoritative_rr_total = self.authoritative_records.len() as u16;
        self.header.additional_rr_total = self.additional_records.len() as u16;
        assert(self.header == counted_header(old(self)@));
        self.header.write(buffer)?;
        let ghost hb = header_bytes(self.header);
        write_query_list(buffer, &self.queries)?;
        let ghost qb = write_queries(c + 12, self@.queries)->Ok_0;
        proof {
            lemma_overwrite_append(d, c, hb, qb);
        }
        let ghost w = hb + qb;
        write_record_list(buffer, &self.answer_records)?;
        let ghost ab = write_records(c + w.len(), self@.answers)->Ok_0;
        proof {
            lemma_overwrite_append(d, c, w, ab);
        }
        let ghost w2 = w + ab;
        write_record_list(buffer, &self.authoritative_records)?;
        let ghost nb = write_records(c + w2.len(), self@.authorities)->Ok_0;
        proof {
            lemma_overwrite_append(d, c, w2, nb);
        }
        let ghost w3 = w2 + nb;
        write_record_list(buffer, &self.additional_records)?;
        let ghost rb = write_records(c + w3.len(), self@.additionals)->Ok_0;
        proof {
            lemma_overwrite_append(d, c, w3, rb);
            assert(w3 + rb =~= hb + qb + (ab + nb + rb));
            let b = write_packet(c, old(self)@)->Ok_0;
            buffer.lemma_data_len();
            old(buffer).lemma_data_len();
            if old(self).queries@.len() <= 0xFFFF && old(self).answer_records@.len() <= 0xFFFF
                && old(self).authoritative_records@.len() <= 0xFFFF
                && old(self).additional_records@.len() <= 0xFFFF {
                crate::round_trip::lemma_counts_written(c, old(self)@);
                assert(buffer.data()[c + 4] == b[4] && buffer.data()[c + 5] == b[5]);
                assert(buffer.data()[c + 6] == b[6] && buffer.data()[c + 7] == b[7]);
                assert(buffer.data()[c + 8] == b[8] && buffer.data()[c + 9] == b[9]);
                assert(buffer.data()[c + 10] == b[10] && buffer.data()[c + 11] == b[11]);
            }
        }
        Ok(())
    }
}

impl Packet {
    /// The addresses of the A records of the answer section, in order.
    pub fn get_answer_a_records(&self) -> (r: Vec<Ipv4Addr>)
        ensures
            addr_octets(r@) == a_addrs(self@.answers),
    {
        let ghost rs = self@.answers;
        let mut out: Vec<Ipv4Addr> = Vec::new();
        let mut i: usize = 0;
        proof {
            assert(addr_octets(out@) =~= a_addrs(rs.subrange(0, 0)));
        }
        while i < self.answer_records.len()
            invariant
                i <= self.answer_records@.len(),
                rs == self@.answers,
                addr_octets(out@) == a_addrs(rs.subrange(0, i as int)),
            decreases self.answer_records@.len() - i,
        {
            let ghost before = out@;
            proof {
                assert(rs.subrange(0, i + 1).drop_last() =~= rs.subrange(0, i as int));
                assert(rs.subrange(0, i + 1).last() == self.answer_records@[i as int]@);
            }
            match &self.answer_records[i] {
                ResourceRecord::A { ip_addr, .. } => {
                    out.push(*ip_addr);
                    assert(addr_octets(out@) =~= addr_octets(before).push(ip_addr.octets@));
                },
                _ => {},
            }
            i = i + 1;
        }
        proof {
            assert(rs.subrange(0, rs.len() as int) =~= rs);
        }
        out
    }

    /// The hosts of the NS records of the authority section whose zone holds
    /// `qname`, in order.
    pub fn get_ns_hosts(&self, qname: &str) -> (r: Vec<String>)
        ensures
            r@.map_values(|h: String| h@) == ns_hosts(self@.authorities, qname@),
    {
        let ghost rs = self@.authorities;
        let mut out: Vec<String> = Vec::new();
        let mut i: usize = 0;
        proof {
            assert(out@.map_values(|h: String| h@) =~= ns_hosts(rs.subrange(0, 0), qname@));
        }
        while i < self.authoritative_records.len()
            invariant
                i <= self.authoritative_records@.len(),
                rs == self@.authorities,
                out@.map_values(|h: String| h@) == ns_hosts(rs.subrange(0, i as int), qname@),
            decreases self.authoritative_records@.len() - i,
        {
            let ghost before = out@;
            proof {
                assert(rs.subrange(0, i + 1).drop_last() =~= rs.subrange(0, i as int));
                assert(rs.subrange(0, i + 1).last() == self.authoritative_records@[i as int]@);
            }
            match &self.authoritative_records[i] {
                ResourceRecord::NS { domain, host, .. } => {
                    if is_in_zone(qname, domain.as_str()) {
                        out.push(host.clone());
                        assert(out@.map_values(|h: String| h@) =~= before.map_values(
                            |h: String| h@,
                        ).push(host@));
                    }
                },
                _ => {},
            }
            i = i + 1;
        }
        proof {
            assert(rs.subrange(0, rs.len() as int) =~= rs);
        }
        out
    }

    /// The addresses that the additional section gives the hosts of
    /// `get_ns_hosts(qname)`: host by host, the addresses of the A records
    /// owned by that host, in order.
    pub fn get_ns_from_additional_records(&self, qname: &str) -> (r: Vec<Ipv4Addr>)
        ensures
            addr_octets(r@) == glue_addrs(ns_hosts(self@.authorities, qname@), self@.additionals),
    {
        let hosts = self.get_ns_hosts(qname);
        let ghost hs = hosts@.map_values(|h: String| h@);
        let ghost adds = self@.additionals;
        let mut out: Vec<Ipv4Addr> = Vec::new();
        let mut i: usize = 0;
        proof {
            assert(addr_octets(out@) =~= glue_addrs(hs.subrange(0, 0), adds));
        }
        while i < hosts.len()
            invariant
                i <= hosts@.len(),
                hs == hosts@.map_values(|h: String| h@),
                adds == self@.additionals,
                addr_octets(out@) == glue_addrs(hs.subrange(0, i as int), adds),
            decreases hosts@.len() - i,
        {
            let host = &hosts[i];
            let ghost base = out@;
            let mut j: usize = 0;
            proof {
                assert(addr_octets(base) + a_addrs_of(adds.subrange(0, 0), host@) =~= addr_octets(out@));
            }
            while j < self.additional_records.len()
                invariant
                    j <= self.additional_records@.len(),
                    adds == self@.additionals,
                    addr_octets(out@) == addr_octets(base) + a_addrs_of(adds.subrange(0, j as int), host@),
                decreases self.additional_records@.len() - j,
            {
                let ghost before = out@;
                proof {
                    assert(adds.subrange(0, j + 1).drop_last() =~= adds.subrange(0, j as int));
                    assert(adds.subrange(0, j + 1).last() == self.additional_records@[j as int]@);
                }
                match &self.additional_records[j] {
                    ResourceRecord::A { domain, ip_addr, .. } => {
                        if *domain == *host {
                            out.push(*ip_addr);
                            assert(addr_octets(out@) =~= addr_octets(before).push(ip_addr.octets@));
                        }
                    },
                    _ => {},
                }
                j = j + 1;
            }
            proof {
                assert(adds.subrange(0, adds.len() as int) =~= adds);
                assert(hs.subrange(0, i + 1).drop_last() =~= hs.subrange(0, i as int));
                assert(hs.subrange(0, i + 1).last() == host@);
            }
            i = i + 1;
        }
        proof {
            assert(hs.subrange(0, hs.len() as int) =~= hs);
        }
        out
    }
}

} // verus!
