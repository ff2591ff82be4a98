use iris::error::DnsError;
use iris::name::join_label_texts;
use iris::packet_buffer::PacketBuffer;
use iris::query_type::QueryType;
use iris::return_code::ReturnCode;

#[test]
fn big_endian_reads_and_writes() {
    let mut buffer = PacketBuffer::new();
    buffer.write_u8(0x01).unwrap();
    buffer.write_u16(0x0203).unwrap();
    buffer.write_u32(0x0405_0607).unwrap();
    assert_eq!(buffer.pos(), 7);
    assert_eq!(buffer.get_range(0, 7).unwrap(), &[1u8, 2, 3, 4, 5, 6, 7][..]);
    buffer.seek(0);
    assert_eq!(buffer.read_u8().unwrap(), 1);
    assert_eq!(buffer.read_u16().unwrap(), 0x0203);
    assert_eq!(buffer.read_u32().unwrap(), 0x0405_0607);
}

#[test]
fn set_u16_leaves_the_cursor() {
    let mut buffer = PacketBuffer::new();
    buffer.step(10);
    buffer.set_u16(2, 0xBEEF).unwrap();
    assert_eq!(buffer.pos(), 10);
    assert_eq!(buffer.get_range(2, 2).unwrap(), &[0xBEu8, 0xEF][..]);
    assert_eq!(buffer.set_u16(511, 1), Err(DnsError::EndOfBuffer));
}

#[test]
fn no_access_at_or_past_capacity() {
    let mut buffer = PacketBuffer::from_u8_array([7; 512]);
    buffer.seek(511);
    assert_eq!(buffer.read_u8().unwrap(), 7);
    assert_eq!(buffer.read_u8(), Err(DnsError::EndOfBuffer));
    buffer.seek(511);
    assert_eq!(buffer.read_u16(), Err(DnsError::EndOfBuffer));
    buffer.seek(509);
    assert_eq!(buffer.read_u32(), Err(DnsError::EndOfBuffer));
    buffer.seek(512);
    assert_eq!(buffer.write_u8(1), Err(DnsError::EndOfBuffer));
    assert_eq!(buffer.pos(), 512);
    buffer.seek(511);
    assert_eq!(buffer.write_u16(1), Err(DnsError::EndOfBuffer));
    assert_eq!(buffer.get_range(500, 12), Err(DnsError::EndOfBuffer));
    assert_eq!(buffer.get_range(500, 11).unwrap().len(), 11);
    assert_eq!(buffer.get_range(usize::MAX, 2), Err(DnsError::EndOfBuffer));
}

#[test]
fn name_encoding_is_uncompressed_labels() {
    let mut buffer = PacketBuffer::new();
    buffer.write_compressed_name("google.com").unwrap();
    assert_eq!(buffer.pos(), 12);
    assert_eq!(
        buffer.get_range(0, 12).unwrap(),
        &[6u8, b'g', b'o', b'o', b'g', b'l', b'e', 3, b'c', b'o', b'm', 0][..]
    );
}

#[test]
fn label_longer_than_63_is_rejected() {
    let mut buffer = PacketBuffer::new();
    let long = "a".repeat(64);
    assert_eq!(
        buffer.write_compressed_name(&format!("www.{}.com", long)),
        Err(DnsError::LabelTooLong)
    );
    let mut buffer = PacketBuffer::new();
    let ok = "a".repeat(63);
    buffer.write_compressed_name(&ok).unwrap();
    assert_eq!(buffer.pos(), 65);
}

#[test]
fn name_past_capacity_fails() {
    let mut buffer = PacketBuffer::new();
    buffer.seek(505);
    assert_eq!(
        buffer.write_compressed_name("google.com"),
        Err(DnsError::EndOfBuffer)
    );
}

fn write_google_com_at_12(buffer: &mut PacketBuffer) {
    buffer.seek(12);
    buffer.write_compressed_name("google.com").unwrap();
}

#[test]
fn compressed_name_decode() {
    let mut buffer = PacketBuffer::new();
    write_google_com_at_12(&mut buffer);
    buffer.seek(40);
    buffer.write_u8(3).unwrap();
    buffer.write_u8(b'n').unwrap();
    buffer.write_u8(b's').unwrap();
    buffer.write_u8(b'1').unwrap();
    buffer.write_u8(0xC0).unwrap();
    buffer.write_u8(0x0C).unwrap();
    buffer.seek(40);
    assert_eq!(buffer.read_compressed_name().unwrap(), "ns1.google.com");
    // the cursor ends right after the pointer
    assert_eq!(buffer.pos(), 46);
}

#[test]
fn nested_pointers_are_followed() {
    let mut buffer = PacketBuffer::new();
    write_google_com_at_12(&mut buffer);
    buffer.seek(100);
    for _ in 0..5 {
        let at = buffer.pos();
        let target = if at == 100 { 12 } else { at - 2 };
        buffer.write_u8(0xC0).unwrap();
        buffer.write_u8(target as u8).unwrap();
    }
    // a chain of five pointers ending at google.com
    buffer.seek(108);
    assert_eq!(buffer.read_compressed_name().unwrap(), "google.com");
    assert_eq!(buffer.pos(), 110);
}

#[test]
fn jump_limit_defense() {
    let mut buffer = PacketBuffer::new();
    buffer.seek(100);
    buffer.write_u8(0xC0).unwrap();
    buffer.write_u8(100).unwrap();
    buffer.seek(100);
    assert_eq!(
        buffer.read_compressed_name(),
        Err(DnsError::JumpLimitExceeded)
    );
}

#[test]
fn six_pointers_exceed_the_limit() {
    let mut buffer = PacketBuffer::new();
    write_google_com_at_12(&mut buffer);
    buffer.seek(100);
    for _ in 0..6 {
        let at = buffer.pos();
        let target = if at == 100 { 12 } else { at - 2 };
        buffer.write_u8(0xC0).unwrap();
        buffer.write_u8(target as u8).unwrap();
    }
    buffer.seek(110);
    assert_eq!(
        buffer.read_compressed_name(),
        Err(DnsError::JumpLimitExceeded)
    );
}

#[test]
fn query_type_numbers() {
    for (t, n) in [
        (QueryType::A, 1u16),
        (QueryType::NS, 2),
        (QueryType::CNAME, 5),
        (QueryType::MX, 15),
        (QueryType::AAAA, 28),
        (QueryType::UNKNOWN(99), 99),
    ] {
        assert_eq!(t.to_num(), n);
        assert_eq!(QueryType::from_num(n), t);
        assert_eq!(QueryType::from_num(t.to_num()), t);
    }
    assert_eq!(QueryType::from_num(0), QueryType::UNKNOWN(0));
}

#[test]
fn return_code_is_tolerant() {
    let expected = [
        ReturnCode::NOERROR,
        ReturnCode::FORMERR,
        ReturnCode::SERVFAIL,
        ReturnCode::NXDOMAIN,
        ReturnCode::NOTIMP,
        ReturnCode::REFUSED,
    ];
    for n in 0u8..=255 {
        let code = ReturnCode::from_num(n);
        if (n as usize) < expected.len() {
            assert_eq!(code, expected[n as usize]);
            assert_eq!(code.to_num(), n);
        } else {
            assert_eq!(code, ReturnCode::NOERROR);
        }
    }
}

#[test]
fn self_pointer_leaves_cursor_past_first_pointer() {
    let mut bytes = [0u8; 512];
    bytes[20] = 0xC0;
    bytes[21] = 0x14;
    let mut buffer = PacketBuffer::from_u8_array(bytes);
    buffer.seek(20);
    assert_eq!(
        buffer.read_compressed_name(),
        Err(DnsError::JumpLimitExceeded)
    );
    assert_eq!(buffer.pos(), 22);
    assert_eq!(buffer.get_range(18, 6).unwrap(), &[0u8, 0, 0xC0, 0x14, 0, 0][..]);
}

#[test]
fn failed_name_without_pointer_keeps_cursor() {
    let mut buffer = PacketBuffer::new();
    buffer.seek(505);
    buffer.write_u8(10).unwrap();
    buffer.seek(505);
    assert_eq!(buffer.read_compressed_name(), Err(DnsError::EndOfBuffer));
    assert_eq!(buffer.pos(), 505);
}

#[test]
fn failed_writes_fill_what_fits() {
    let mut buffer = PacketBuffer::new();
    buffer.seek(511);
    assert_eq!(buffer.write_u16(0xABCD), Err(DnsError::EndOfBuffer));
    assert_eq!(buffer.pos(), 512);
    buffer.seek(509);
    assert_eq!(buffer.write_u32(0x0102_0304), Err(DnsError::EndOfBuffer));
    assert_eq!(buffer.pos(), 512);
    assert_eq!(buffer.get_range(505, 6).unwrap(), &[0u8, 0, 0, 0, 1, 2][..]);
    assert_eq!(buffer.set_u16(511, 0xEEFF), Err(DnsError::EndOfBuffer));
    buffer.seek(511);
    assert_eq!(buffer.read_u8().unwrap(), 0xEE);
}

#[test]
fn label_texts_join_with_dots() {
    assert_eq!(join_label_texts(&vec![]), "");
    assert_eq!(join_label_texts(&vec!["com".to_string()]), "com");
    assert_eq!(
        join_label_texts(&vec!["ns1".to_string(), "google".to_string(), "com".to_string()]),
        "ns1.google.com"
    );
}
