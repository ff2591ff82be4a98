use vstd::prelude::*;

use crate::addr::{Ipv4Addr, Ipv6Addr};
use crate::error::DnsError;
use crate::name::{join_labels, lemma_name_nonempty, name_walk, write_name};
use crate::packet_buffer::{
    be16, be32, lemma_overwrite_append, overwrite, then_fixed, u16_at, u32_at, PacketBuffer,
    BUF_SIZE,
};
use crate::query::INTERNET_CLASS;
use crate::query_type::{type_num, type_of_num, QueryType};

verus! {

/// A resource record of the answer, authority or additional section.
#[derive(Debug, Clone, PartialEq)]
pub enum ResourceRecord {
    /// A record of a type without a reader; its data is skipped on decode and
    /// the record is skipped on encode.
    UNKNOWN { domain: String, qtype: u16, data_len: u16, ttl: u32 },
    A { domain: String, ip_addr: Ipv4Addr, ttl: u32 },
    NS { domain: String, host: String, ttl: u32 },
    CNAME { domain: String, host: String, ttl: u32 },
    MX { domain: String, priority: u16, exchange: String, ttl: u32 },
    AAAA { domain: String, ip_addr: Ipv6Addr, ttl: u32 },
}

/// What a resource record stands for: names as text, addresses as their
/// octets or segments.
pub enum RecordModel {
    UNKNOWN { domain: Seq<char>, qtype: u16, data_len: u16, ttl: u32 },
    A { domain: Seq<char>, ip_addr: Seq<u8>, ttl: u32 },
    NS { domain: Seq<char>, host: Seq<char>, ttl: u32 },
    CNAME { domain: Seq<char>, host: Seq<char>, ttl: u32 },
    MX { domain: Seq<char>, priority: u16, exchange: Seq<char>, ttl: u32 },
    AAAA { domain: Seq<char>, ip_addr: Seq<u16>, ttl: u32 },
}

impl View for ResourceRecord {
    type V = RecordModel;

    open spec fn view(&self) -> RecordModel {
        match self {
            ResourceRecord::UNKNOWN { domain, qtype, data_len, ttl } => RecordModel::UNKNOWN {
                domain: domain@,
                qtype: *qtype,
                data_len: *data_len,
                ttl: *ttl,
            },
            ResourceRecord::A { domain, ip_addr, ttl } => RecordModel::A {
                domain: domain@,
                ip_addr: ip_addr.octets@,
                ttl: *ttl,
            },
            ResourceRecord::NS { domain, host, ttl } => RecordModel::NS {
                domain: domain@,
                host: host@,
                ttl: *ttl,
            },
            ResourceRecord::CNAME { domain, host, ttl } => RecordModel::CNAME {
                domain: domain@,
                host: host@,
                ttl: *ttl,
            },
            ResourceRecord::MX { domain, priority, exchange, ttl } => RecordModel::MX {
                domain: domain@,
                priority: *priority,
                exchange: exchange@,
                ttl: *ttl,
            },
            ResourceRecord::AAAA { domain, ip_addr, ttl } => RecordModel::AAAA {
                domain: domain@,
                ip_addr: ip_addr.segments@,
                ttl: *ttl,
            },
        }
    }
}

/// The big-endian bytes of the eight segments of an IPv6 address.
pub open spec fn segments_wire(s: Seq<u16>) -> Seq<u8> {
    be16(s[0]) + be16(s[1]) + be16(s[2]) + be16(s[3]) + be16(s[4]) + be16(s[5]) + be16(s[6])
        + be16(s[7])
}

/// What writing the fields that every record starts with gives: owner name,
/// type, class and time to live.
pub open spec fn write_common(at: int, domain: Seq<char>, qtype: QueryType, ttl: u32) -> Result<
    Seq<u8>,
    DnsError,
> {
    then_fixed(at, write_name(at, domain), be16(type_num(qtype)) + be16(INTERNET_CLASS) + be32(ttl))
}

/// What writing a name behind a two-byte length slot gives, once the common
/// fields `cb` stand from `at` on: the slot holds the name's length.
pub open spec fn with_sized_name(at: int, cb: Seq<u8>, name: Seq<char>) -> Result<Seq<u8>, DnsError> {
    match write_name(at + cb.len() + 2, name) {
        Ok(nb) => Ok(cb + be16(nb.len() as u16) + nb),
        Err(e) => Err(e),
    }
}

/// What writing the record `r` from position `at` gives; a record of an
/// unknown type writes nothing.
#[verifier::opaque]
pub open spec fn write_record(at: int, r: RecordModel) -> Result<Seq<u8>, DnsError> {
    match r {
        RecordModel::A { domain, ip_addr, ttl } => then_fixed(
            at,
            write_common(at, domain, QueryType::A, ttl),
            be16(4) + ip_addr,
        ),
        RecordModel::AAAA { domain, ip_addr, ttl } => then_fixed(
            at,
            write_common(at, domain, QueryType::AAAA, ttl),
            be16(16) + segments_wire(ip_addr),
        ),
        RecordModel::NS { domain, host, ttl } => match write_common(at, domain, QueryType::NS, ttl) {
            Ok(cb) => with_sized_name(at, cb, host),
            Err(e) => Err(e),
        },
        RecordModel::CNAME { domain, host, ttl } => match write_common(
            at,
            domain,
            QueryType::CNAME,
            ttl,
        ) {
            Ok(cb) => with_sized_name(at, cb, host),
            Err(e) => Err(e),
        },
        RecordModel::MX { domain, priority, exchange, ttl } => match write_common(
            at,
            domain,
            QueryType::MX,
            ttl,
        ) {
            Ok(cb) => if at + cb.len() + 4 > 512 {
                Err(DnsError::EndOfBuffer)
            } else {
                match write_name(at + cb.len() + 4, exchange) {
                    Ok(nb) => Ok(cb + be16((2 + nb.len()) as u16) + be16(priority) + nb),
                    Err(e) => Err(e),
                }
            },
            Err(e) => Err(e),
        },
        RecordModel::UNKNOWN { .. } => Ok(Seq::empty()),
    }
}

/// The eight 16-bit segments of the 16 bytes of `d` from `at` on.
pub open spec fn segments_at(d: Seq<u8>, at: int) -> Seq<u16> {
    Seq::new(8, |i: int| u16_at(d, at + 2 * i))
}

/// The record data from `at` on, for a record whose common fields have been
/// read, and where it ends.
pub open spec fn read_rdata(
    d: Seq<u8>,
    at: int,
    domain: Seq<char>,
    qtype: u16,
    ttl: u32,
    data_len: u16,
) -> Result<(RecordModel, int), DnsError> {
    match type_of_num(qtype) {
        QueryType::A => if at + 4 > 512 {
            Err(DnsError::EndOfBuffer)
        } else {
            Ok((RecordModel::A { domain, ip_addr: d.subrange(at, at + 4), ttl }, at + 4))
        },
        QueryType::AAAA => if at + 16 > 512 {
            Err(DnsError::EndOfBuffer)
        } else {
            Ok((RecordModel::AAAA { domain, ip_addr: segments_at(d, at), ttl }, at + 16))
        },
        QueryType::NS => match name_walk(d, at, 0) {
            Ok((labels, end)) => Ok((RecordModel::NS { domain, host: join_labels(labels), ttl }, end)),
            Err(e) => Err(e),
        },
        QueryType::CNAME => match name_walk(d, at, 0) {
            Ok((labels, end)) => Ok(
                (RecordModel::CNAME { domain, host: join_labels(labels), ttl }, end),
            ),
            Err(e) => Err(e),
        },
        QueryType::MX => if at + 2 > 512 {
            Err(DnsError::EndOfBuffer)
        } else {
            match name_walk(d, at + 2, 0) {
                Ok((labels, end)) => Ok(
                    (
                        RecordModel::MX {
                            domain,
                            priority: u16_at(d, at),
                            exchange: join_labels(labels),
                            ttl,
                        },
                        end,
                    ),
                ),
                Err(e) => Err(e),
            }
        },
        QueryType::UNKNOWN(_) => Ok(
            (RecordModel::UNKNOWN { domain, qtype, data_len, ttl }, at + data_len),
        ),
    }
}

/// The record that the bytes of `d` from `at` on stand for, and where it ends.
#[verifier::opaque]
pub open spec fn read_record(d: Seq<u8>, at: int) -> Result<(RecordModel, int), DnsError> {
    match name_walk(d, at, 0) {
        Ok((labels, end)) => if end + 10 > 512 {
            Err(DnsError::EndOfBuffer)
        } else {
            read_rdata(
                d,
                end + 10,
                join_labels(labels),
                u16_at(d, end),
                u32_at(d, end + 4),
                u16_at(d, end + 8),
            )
        },
        Err(e) => Err(e),
    }
}

/// Writes the fields that every record starts with.
fn write_common_fields(buffer: &mut PacketBuffer, domain: &String, qtype: QueryType, ttl: u32) -> (r:
    Result<(), DnsError>)
    ensures
        match write_common(old(buffer).cursor(), domain@, qtype, ttl) {
            Ok(b) => r is Ok && final(buffer).data() == overwrite(
                old(buffer).data(),
                old(buffer).cursor(),
                b,
            ) && final(buffer).cursor() == old(buffer).cursor() + b.len(),
            Err(e) => r == Err::<(), DnsError>(e),
        },
{
    let ghost d = buffer.data();
    let ghost c = buffer.cursor();
    buffer.write_compressed_name(domain.as_str())?;
    let ghost nb = write_name(c, domain@)->Ok_0;
    buffer.write_u16(qtype.to_num())?;
    proof {
        lemma_overwrite_append(d, c, nb, be16(type_num(qtype)));
    }
    let ghost w = nb + be16(type_num(qtype));
    buffer.write_u16(INTERNET_CLASS)?;
    proof {
        lemma_overwrite_append(d, c, w, be16(INTERNET_CLASS));
    }
    let ghost w2 = w + be16(INTERNET_CLASS);
    buffer.write_u32(ttl)?;
    proof {
        lemma_overwrite_append(d, c, w2, be32(ttl));
        assert(w2 + be32(ttl) =~= nb + (be16(type_num(qtype)) + be16(INTERNET_CLASS) + be32(ttl)));
    }
    Ok(())
}

/// Writes a name behind a two-byte slot and then fills the slot with the
/// name's length.
fn write_compressed_name_with_size(buffer: &mut PacketBuffer, name: &String) -> (r: Result<(), DnsError>)
    requires
        old(buffer).cursor() <= BUF_SIZE,
    ensures
        match write_name(old(buffer).cursor() + 2, name@) {
            Ok(nb) => r is Ok && final(buffer).data() == overwrite(
                old(buffer).data(),
                old(buffer).cursor(),
                be16(nb.len() as u16) + nb,
            ) && final(buffer).cursor() == old(buffer).cursor() + 2 + nb.len(),
            Err(e) => r == Err::<(), DnsError>(e),
        },
{
    let ghost d = buffer.data();
    let ghost c = buffer.cursor();
    proof {
        buffer.lemma_data_len();
    }
    let size_field_len: usize = 2;
    buffer.step(size_field_len);
    let name_start = buffer.pos();
    buffer.write_compressed_name(name.as_str())?;
    let ghost nb = write_name(c + 2, name@)->Ok_0;
    proof {
        buffer.lemma_data_len();
        lemma_name_nonempty(c + 2, name@);
    }
    let name_size = buffer.pos() - name_start;
    buffer.set_u16(name_start - size_field_len, name_size as u16)?;
    proof {
        lemma_fill_slot(d, c, Seq::empty(), be16(nb.len() as u16), nb);
        assert(Seq::<u8>::empty() + be16(nb.len() as u16) + nb =~= be16(nb.len() as u16) + nb);
        assert(overwrite(d, c, Seq::<u8>::empty()) =~= d);
    }
    Ok(())
}

impl ResourceRecord {
    /// Decodes the record at the cursor. Known types read their data; the data
    /// of an unknown type is stepped over by its length.
    pub fn from_buffer(buffer: &mut PacketBuffer) -> (r: Result<ResourceRecord, DnsError>)
        ensures
            final(buffer).data() == old(buffer).data(),
            match read_record(old(buffer).data(), old(buffer).cursor()) {
                Ok((rec, end)) => r is Ok && r->Ok_0@ == rec && final(buffer).cursor() == end,
                Err(e) => r == Err::<ResourceRecord, DnsError>(e),
            },
    {
        reveal(read_record);
        let ghost d = buffer.data();
        proof {
            buffer.lemma_data_len();
        }
        let domain = buffer.read_compressed_name()?;
        let qtype_num = buffer.read_u16()?;
        let qtype = QueryType::from_num(qtype_num);
        let _class = buffer.read_u16()?;
        let ttl = buffer.read_u32()?;
        let data_len = buffer.read_u16()?;
        let ghost p = buffer.cursor();
        proof {
            buffer.lemma_data_len();
        }
        match qtype {
            QueryType::A => {
                let a = buffer.read_u8()?;
                let b = buffer.read_u8()?;
                let c = buffer.read_u8()?;
                let e = buffer.read_u8()?;
                let ip_addr = Ipv4Addr::new(a, b, c, e);
                assert(p + 4 <= 512);
                assert(d.len() == 512);
                assert(a == d[p] && b == d[p + 1] && c == d[p + 2] && e == d[p + 3]);
                proof {
                    buffer.lemma_data_len();
                }
                let ghost sub = d.subrange(p, p + 4);
                assert(sub.len() == 4);
                assert(sub[0] == a && sub[1] == b && sub[2] == c && sub[3] == e);
                assert(sub =~= seq![a, b, c, e]);
                assert(ip_addr.octets@ == seq![a, b, c, e]);
                Ok(ResourceRecord::A { domain, ip_addr, ttl })
            },
            QueryType::AAAA => {
                let s0 = buffer.read_u16()?;
                let s1 = buffer.read_u16()?;
                let s2 = buffer.read_u16()?;
                let s3 = buffer.read_u16()?;
                let s4 = buffer.read_u16()?;
                let s5 = buffer.read_u16()?;
                let s6 = buffer.read_u16()?;
                let s7 = buffer.read_u16()?;
                let ip_addr = Ipv6Addr::new(s0, s1, s2, s3, s4, s5, s6, s7);
                assert(ip_addr.segments@ =~= segments_at(d, p));
                Ok(ResourceRecord::AAAA { domain, ip_addr, ttl })
            },
            QueryType::NS => {
                let host = buffer.read_compressed_name()?;
                Ok(ResourceRecord::NS { domain, host, ttl })
            },
            QueryType::CNAME => {
                let host = buffer.read_compressed_name()?;
                Ok(ResourceRecord::CNAME { domain, host, ttl })
            },
            QueryType::MX => {
                let priority = buffer.read_u16()?;
                let exchange = buffer.read_compressed_name()?;
                Ok(ResourceRecord::MX { domain, priority, exchange, ttl })
            },
            QueryType::UNKNOWN(_) => {
                buffer.step(data_len as usize);
                Ok(ResourceRecord::UNKNOWN { domain, qtype: qtype_num, data_len, ttl })
            },
        }
    }

    /// Encodes the record at the cursor. Names are written uncompressed, and
    /// the data length of a record that holds a name is filled in once the
    /// name is written. A record of an unknown type writes nothing.
    pub fn write_to_buffer(&self, buffer: &mut PacketBuffer) -> (r: Result<(), DnsError>)
        ensures
            match write_record(old(buffer).cursor(), self@) {
                Ok(b) => r is Ok && final(buffer).data() == overwrite(
                    old(buffer).data(),
                    old(buffer).cursor(),
                    b,
                ) && final(buffer).cursor() == old(buffer).cursor() + b.len(),
                Err(e) => r == Err::<(), DnsError>(e),
            },
    {
        match self {
            ResourceRecord::A { domain, ip_addr, ttl } => write_a(buffer, domain, ip_addr, *ttl),
            ResourceRecord::AAAA { domain, ip_addr, ttl } => write_aaaa(buffer, domain, ip_addr, *ttl),
            ResourceRecord::NS { domain, host, ttl } => write_host_record(
                buffer,
                domain,
                QueryType::NS,
                host,
                *ttl,
            ),
            ResourceRecord::CNAME { domain, host, ttl } => write_host_record(
                buffer,
                domain,
                QueryType::CNAME,
                host,
                *ttl,
            ),
            ResourceRecord::MX { domain, priority, exchange, ttl } => write_mx(
                buffer,
                domain,
                *priority,
                exchange,
                *ttl,
            ),
            ResourceRecord::UNKNOWN { .. } => {
                reveal(write_record);
                assert(buffer.data() =~= overwrite(buffer.data(), buffer.cursor(), Seq::empty()));
                Ok(())
            },
        }
    }
}

/// The common fields, once written, end within the buffer.
proof fn lemma_write_common_fits(at: int, domain: Seq<char>, qtype: QueryType, ttl: u32)
    requires
        write_common(at, domain, qtype, ttl) is Ok,
    ensures
        at + write_common(at, domain, qtype, ttl)->Ok_0.len() <= 512,
{
}

/// The bytes of the first `n` segments.
pub open spec fn segments_prefix(s: Seq<u16>, n: int) -> Seq<u8>
    decreases n,
{
    if n <= 0 {
        Seq::empty()
    } else {
        segments_prefix(s, n - 1) + be16(s[n - 1])
    }
}

/// Writes a data length and that many bytes of fixed-size record data.
fn write_fixed_data(buffer: &mut PacketBuffer, data: &[u8], len: u16) -> (r: Result<(), DnsError>)
    requires
        data@.len() == len,
    ensures
        old(buffer).cursor() + 2 + len <= BUF_SIZE ==> r is Ok && final(buffer).data() == overwrite(
            old(buffer).data(),
            old(buffer).cursor(),
            be16(len) + data@,
        ) && final(buffer).cursor() == old(buffer).cursor() + 2 + len,
        old(buffer).cursor() + 2 + len > BUF_SIZE ==> r == Err::<(), DnsError>(DnsError::EndOfBuffer),
{
    let ghost d = buffer.data();
    let ghost c = buffer.cursor();
    buffer.write_u16(len)?;
    let mut i: usize = 0;
    while i < data.len()
        invariant
            i <= data@.len(),
            data@.len() == len,
            d == old(buffer).data(),
            c == old(buffer).cursor(),
            buffer.cursor() <= BUF_SIZE,
            buffer.data() == overwrite(d, c, be16(len) + data@.subrange(0, i as int)),
            buffer.cursor() == c + 2 + i,
        decreases data@.len() - i,
    {
        buffer.write_u8(data[i])?;
        proof {
            lemma_overwrite_append(d, c, be16(len) + data@.subrange(0, i as int), seq![data@[i as int]]);
            assert(be16(len) + data@.subrange(0, i as int) + seq![data@[i as int]] =~= be16(len) + data@.subrange(0, i + 1));
        }
        i = i + 1;
    }
    proof {
        assert(data@.subrange(0, len as int) =~= data@);
    }
    Ok(())
}

/// Writes an A record: the common fields, then the four octets.
fn write_a(buffer: &mut PacketBuffer, domain: &String, ip_addr: &Ipv4Addr, ttl: u32) -> (r: Result<
    (),
    DnsError,
>)
    ensures
        match write_record(
            old(buffer).cursor(),
            RecordModel::A { domain: domain@, ip_addr: ip_addr.octets@, ttl },
        ) {
            Ok(b) => r is Ok && final(buffer).data() == overwrite(
                old(buffer).data(),
                old(buffer).cursor(),
                b,
            ) && final(buffer).cursor() == old(buffer).cursor() + b.len(),
            Err(e) => r == Err::<(), DnsError>(e),
        },
{
    reveal(write_record);
    let ghost d = buffer.data();
    let ghost c = buffer.cursor();
    write_common_fields(buffer, domain, QueryType::A, ttl)?;
    let ghost cb = write_common(c, domain@, QueryType::A, ttl)->Ok_0;
    proof {
        lemma_write_common_fits(c, domain@, QueryType::A, ttl);
    }
    write_fixed_data(buffer, &ip_addr.octets(), 4)?;
    proof {
        lemma_overwrite_append(d, c, cb, be16(4) + ip_addr.octets@);
    }
    Ok(())
}

/// Writes an AAAA record: the common fields, then the eight segments.
fn write_aaaa(buffer: &mut PacketBuffer, domain: &String, ip_addr: &Ipv6Addr, ttl: u32) -> (r: Result<
    (),
    DnsError,
>)
    ensures
        match write_record(
            old(buffer).cursor(),
            RecordModel::AAAA { domain: domain@, ip_addr: ip_addr.segments@, ttl },
        ) {
            Ok(b) => r is Ok && final(buffer).data() == overwrite(
                old(buffer).data(),
                old(buffer).cursor(),
                b,
            ) && final(buffer).cursor() == old(buffer).cursor() + b.len(),
            Err(e) => r == Err::<(), DnsError>(e),
        },
{
    reveal(write_record);
    let ghost d = buffer.data();
    let ghost c = buffer.cursor();
    write_common_fields(buffer, domain, QueryType::AAAA, ttl)?;
    let ghost cb = write_common(c, domain@, QueryType::AAAA, ttl)->Ok_0;
    proof {
        lemma_write_common_fits(c, domain@, QueryType::AAAA, ttl);
    }
    let segments = ip_addr.segments();
    let mut bytes: Vec<u8> = Vec::new();
    let mut i: usize = 0;
    while i < 8
        invariant
            i <= 8,
            segments@ == ip_addr.segments@,
            bytes@ == segments_prefix(segments@, i as int),
        decreases 8 - i,
    {
        bytes.push((segments[i] / 256) as u8);
        bytes.push((segments[i] % 256) as u8);
        proof {
            assert(bytes@ =~= segments_prefix(segments@, i + 1));
        }
        i = i + 1;
    }
    proof {
        reveal_with_fuel(segments_prefix, 9);
        assert(bytes@ =~= segments_wire(ip_addr.segments@));
    }
    write_fixed_data(buffer, bytes.as_slice(), 16)?;
    proof {
        lemma_overwrite_append(d, c, cb, be16(16) + segments_wire(ip_addr.segments@));
    }
    Ok(())
}

/// Writes an NS or CNAME record: the common fields, then the host name
/// behind its length.
fn write_host_record(
    buffer: &mut PacketBuffer,
    domain: &String,
    qtype: QueryType,
    host: &String,
    ttl: u32,
) -> (r: Result<(), DnsError>)
    requires
        qtype == QueryType::NS || qtype == QueryType::CNAME,
    ensures
        match write_record(
            old(buffer).cursor(),
            if qtype == QueryType::NS {
                RecordModel::NS { domain: domain@, host: host@, ttl }
            } else {
                RecordModel::CNAME { domain: domain@, host: host@, ttl }
            },
        ) {
            Ok(b) => r is Ok && final(buffer).data() == overwrite(
                old(buffer).data(),
                old(buffer).cursor(),
                b,
            ) && final(buffer).cursor() == old(buffer).cursor() + b.len(),
            Err(e) => r == Err::<(), DnsError>(e),
        },
{
    reveal(write_record);
    let ghost d = buffer.data();
    let ghost c = buffer.cursor();
    write_common_fields(buffer, domain, qtype, ttl)?;
    let ghost cb = write_common(c, domain@, qtype, ttl)->Ok_0;
    proof {
        lemma_write_common_fits(c, domain@, qtype, ttl);
    }
    write_compressed_name_with_size(buffer, host)?;
    proof {
        let nb = write_name(c + cb.len() + 2, host@)->Ok_0;
        lemma_overwrite_append(d, c, cb, be16(nb.len() as u16) + nb);
        assert(cb + (be16(nb.len() as u16) + nb) =~= cb + be16(nb.len() as u16) + nb);
    }
    Ok(())
}

/// Writes an MX record: the common fields, then the priority and the
/// exchange name behind their joint length.
fn write_mx(
    buffer: &mut PacketBuffer,
    domain: &String,
    priority: u16,
    exchange: &String,
    ttl: u32,
) -> (r: Result<(), DnsError>)
    ensures
        match write_record(
            old(buffer).cursor(),
            RecordModel::MX { domain: domain@, priority, exchange: exchange@, ttl },
        ) {
            Ok(b) => r is Ok && final(buffer).data() == overwrite(
                old(buffer).data(),
                old(buffer).cursor(),
                b,
            ) && final(buffer).cursor() == old(buffer).cursor() + b.len(),
            Err(e) => r == Err::<(), DnsError>(e),
        },
{
    reveal(write_record);
    let ghost d = buffer.data();
    let ghost c = buffer.cursor();
    write_common_fields(buffer, domain, QueryType::MX, ttl)?;
    let ghost cb = write_common(c, domain@, QueryType::MX, ttl)->Ok_0;
    proof {
        lemma_write_common_fits(c, domain@, QueryType::MX, ttl);
    }
    let ghost d1 = buffer.data();
    proof {
        buffer.lemma_data_len();
    }
    let size_field_len: usize = 2;
    buffer.step(size_field_len);
    let data_start = buffer.pos();
    buffer.write_u16(priority)?;
    buffer.write_compressed_name(exchange.as_str())?;
    let ghost nb = write_name(c + cb.len() + 4, exchange@)->Ok_0;
    proof {
        buffer.lemma_data_len();
        lemma_name_nonempty(c + cb.len() + 4, exchange@);
        lemma_overwrite_append(d1, c + cb.len() + 2, be16(priority), nb);
    }
    let data_size = buffer.pos() - data_start;
    buffer.set_u16(data_start - size_field_len, data_size as u16)?;
    proof {
        lemma_fill_slot(d, c, cb, be16((2 + nb.len()) as u16), be16(priority) + nb);
        assert(cb + be16((2 + nb.len()) as u16) + (be16(priority) + nb) =~= cb + be16(
            (2 + nb.len()) as u16,
        ) + be16(priority) + nb);
    }
    Ok(())
}

/// Bytes written after a two-byte slot, and then the slot, make one write.
proof fn lemma_fill_slot(d: Seq<u8>, c: int, head: Seq<u8>, slot: Seq<u8>, body: Seq<u8>)
    requires
        slot.len() == 2,
    ensures
        overwrite(
            overwrite(overwrite(d, c, head), c + head.len() + 2, body),
            c + head.len(),
            slot,
        ) == overwrite(d, c, head + slot + body),
{
    assert(overwrite(overwrite(overwrite(d, c, head), c + head.len() + 2, body), c + head.len(), slot)
        =~= overwrite(d, c, head + slot + body));
}

} // verus!
