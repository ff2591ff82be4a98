use iris::addr::{Ipv4Addr, Ipv6Addr};
use iris::error::DnsError;
use iris::header::Header;
use iris::packet::Packet;
use iris::packet_buffer::PacketBuffer;
use iris::query::Query;
use iris::query_type::QueryType;
use iris::resource_record::ResourceRecord;
use iris::return_code::ReturnCode;

fn round_trip(packet: &mut Packet) -> Packet {
    let mut buffer = PacketBuffer::new();
    packet.write_to_buffer(&mut buffer).unwrap();
    let end = buffer.pos();
    buffer.seek(0);
    let parsed = Packet::from_buffer(&mut buffer).unwrap();
    assert_eq!(buffer.pos(), end);
    parsed
}

#[test]
fn write_and_read_packet() {
    let mut packet = Packet::new();

    packet
        .queries
        .push(Query::new("google.com".to_string(), QueryType::NS));
    packet.answer_records.push(ResourceRecord::NS {
        domain: "google.com".to_string(),
        host: "ns1.google.com".to_string(),
        ttl: 64,
    });
    packet.answer_records.push(ResourceRecord::NS {
        domain: "google.com".to_string(),
        host: "ns2.google.com".to_string(),
        ttl: 64,
    });

    let mut buffer = PacketBuffer::new();
    packet.write_to_buffer(&mut buffer).unwrap();

    buffer.seek(0);
    let parsed_packet = Packet::from_buffer(&mut buffer).unwrap();

    assert_eq!(packet.queries[0], parsed_packet.queries[0]);
    assert_eq!(packet.answer_records[0], parsed_packet.answer_records[0]);
    assert_eq!(packet.answer_records[1], parsed_packet.answer_records[1]);
}

#[test]
fn a_record_round_trip() {
    let mut packet = Packet::new();
    packet
        .queries
        .push(Query::new("google.com".to_string(), QueryType::A));
    packet.answer_records.push(ResourceRecord::A {
        domain: "google.com".to_string(),
        ip_addr: Ipv4Addr::new(8, 8, 8, 8),
        ttl: 300,
    });
    let parsed = round_trip(&mut packet);
    assert_eq!(parsed.queries[0], packet.queries[0]);
    assert_eq!(parsed.answer_records[0], packet.answer_records[0]);
    assert_eq!(parsed, packet);
}

#[test]
fn ns_record_length_is_back_patched() {
    let mut packet = Packet::new();
    packet.authoritative_records.push(ResourceRecord::NS {
        domain: "google.com".to_string(),
        host: "ns1.google.com".to_string(),
        ttl: 64,
    });
    packet.authoritative_records.push(ResourceRecord::NS {
        domain: "google.com".to_string(),
        host: "ns2.google.com".to_string(),
        ttl: 64,
    });
    let mut buffer = PacketBuffer::new();
    packet.write_to_buffer(&mut buffer).unwrap();
    // header (12), owner name (12), type, class, ttl (8), then the data length
    let rdlength = buffer.get_range(32, 2).unwrap();
    assert_eq!(rdlength, &[0u8, 16][..]);
    buffer.seek(0);
    let parsed = Packet::from_buffer(&mut buffer).unwrap();
    assert_eq!(parsed.authoritative_records, packet.authoritative_records);
}

#[test]
fn every_supported_record_round_trips() {
    let mut packet = Packet::new();
    packet.header.id = 4321;
    packet.header.response = true;
    packet.header.opcode = 2;
    packet.header.truncated_message = true;
    packet.header.recursion_available = true;
    packet.header.checking_disabled = true;
    packet.header.return_code = ReturnCode::REFUSED;
    packet
        .queries
        .push(Query::new("example.org".to_string(), QueryType::MX));
    packet.answer_records.push(ResourceRecord::MX {
        domain: "example.org".to_string(),
        priority: 10,
        exchange: "mail.example.org".to_string(),
        ttl: 3600,
    });
    packet.answer_records.push(ResourceRecord::CNAME {
        domain: "www.example.org".to_string(),
        host: "example.org".to_string(),
        ttl: 60,
    });
    packet.additional_records.push(ResourceRecord::AAAA {
        domain: "example.org".to_string(),
        ip_addr: Ipv6Addr::new(0x2001, 0xdb8, 0, 0, 0, 0, 0, 1),
        ttl: 7,
    });
    let parsed = round_trip(&mut packet);
    assert_eq!(parsed, packet);
}

#[test]
fn counts_follow_the_sections() {
    let mut packet = Packet::new();
    packet.header.queries_total = 9;
    packet.header.answer_rr_total = 9;
    packet
        .queries
        .push(Query::new("a.b".to_string(), QueryType::A));
    packet.additional_records.push(ResourceRecord::A {
        domain: "a.b".to_string(),
        ip_addr: Ipv4Addr::new(1, 2, 3, 4),
        ttl: 1,
    });
    let mut buffer = PacketBuffer::new();
    packet.write_to_buffer(&mut buffer).unwrap();
    assert_eq!(packet.header.queries_total, 1);
    assert_eq!(packet.header.answer_rr_total, 0);
    assert_eq!(packet.header.authoritative_rr_total, 0);
    assert_eq!(packet.header.additional_rr_total, 1);
    assert_eq!(buffer.get_range(4, 8).unwrap(), &[0u8, 1, 0, 0, 0, 0, 0, 1][..]);
}

#[test]
fn header_flags_on_the_wire() {
    let mut header = Header::new();
    header.id = 0xABCD;
    header.response = true;
    header.opcode = 1;
    header.recursion_desired = true;
    header.recursion_available = true;
    header.return_code = ReturnCode::NXDOMAIN;
    let mut buffer = PacketBuffer::new();
    header.write(&mut buffer).unwrap();
    assert_eq!(buffer.pos(), 12);
    assert_eq!(buffer.get_range(0, 4).unwrap(), &[0xABu8, 0xCD, 0x89, 0x83][..]);
    buffer.seek(0);
    assert_eq!(Header::from_buffer(&mut buffer).unwrap(), header);
}

#[test]
fn unknown_record_is_skipped_on_decode() {
    let mut buffer = PacketBuffer::new();
    buffer.write_compressed_name("x.y").unwrap();
    buffer.write_u16(99).unwrap();
    buffer.write_u16(1).unwrap();
    buffer.write_u32(30).unwrap();
    buffer.write_u16(3).unwrap();
    buffer.write_u8(7).unwrap();
    buffer.write_u8(7).unwrap();
    buffer.write_u8(7).unwrap();
    let end = buffer.pos();
    buffer.seek(0);
    let record = ResourceRecord::from_buffer(&mut buffer).unwrap();
    assert_eq!(
        record,
        ResourceRecord::UNKNOWN {
            domain: "x.y".to_string(),
            qtype: 99,
            data_len: 3,
            ttl: 30
        }
    );
    assert_eq!(buffer.pos(), end);
}

#[test]
fn unknown_record_writes_nothing() {
    let record = ResourceRecord::UNKNOWN {
        domain: "x.y".to_string(),
        qtype: 99,
        data_len: 3,
        ttl: 30,
    };
    let mut buffer = PacketBuffer::new();
    record.write_to_buffer(&mut buffer).unwrap();
    assert_eq!(buffer.pos(), 0);
}

#[test]
fn decoded_names_are_lowercased() {
    let mut buffer = PacketBuffer::new();
    buffer.write_compressed_name("WWW.Example.COM").unwrap();
    buffer.seek(0);
    assert_eq!(buffer.read_compressed_name().unwrap(), "www.example.com");
}

#[test]
fn invalid_utf8_label_is_replaced() {
    let mut buffer = PacketBuffer::new();
    buffer.write_u8(2).unwrap();
    buffer.write_u8(0xFF).unwrap();
    buffer.write_u8(b'a').unwrap();
    buffer.write_u8(0).unwrap();
    buffer.seek(0);
    assert_eq!(buffer.read_compressed_name().unwrap(), "\u{FFFD}a");
}

#[test]
fn packet_too_large_fails() {
    let mut packet = Packet::new();
    for _ in 0..40 {
        packet.answer_records.push(ResourceRecord::A {
            domain: "google.com".to_string(),
            ip_addr: Ipv4Addr::new(1, 1, 1, 1),
            ttl: 1,
        });
    }
    let mut buffer = PacketBuffer::new();
    assert_eq!(packet.write_to_buffer(&mut buffer), Err(DnsError::EndOfBuffer));
}

#[test]
fn truncated_packet_fails_to_decode() {
    let mut buffer = PacketBuffer::new();
    let mut header = Header::new();
    header.answer_rr_total = 1;
    header.write(&mut buffer).unwrap();
    buffer.seek(0);
    // the answer reads as an empty name followed by zero bytes up to the end
    let parsed = Packet::from_buffer(&mut buffer).unwrap();
    assert_eq!(
        parsed.answer_records[0],
        ResourceRecord::UNKNOWN {
            domain: String::new(),
            qtype: 0,
            data_len: 0,
            ttl: 0
        }
    );
    buffer.seek(505);
    assert_eq!(Header::from_buffer(&mut buffer), Err(DnsError::EndOfBuffer));
}

#[test]
fn opcode_keeps_to_four_bits() {
    let mut header = Header::new();
    header.opcode = 0x1F;
    let mut buffer = PacketBuffer::new();
    header.write(&mut buffer).unwrap();
    assert_eq!(buffer.get_range(2, 1).unwrap(), &[0x78u8][..]);
    buffer.seek(0);
    let parsed = Header::from_buffer(&mut buffer).unwrap();
    assert!(!parsed.response);
    assert_eq!(parsed.opcode, 0x0F);
}
