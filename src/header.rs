use vstd::prelude::*;

use crate::error::DnsError;
use crate::packet_buffer::{be16, lemma_overwrite_append, overwrite, u16_at, PacketBuffer, BUF_SIZE};
use crate::return_code::{code_num, code_of_num, ReturnCode};

verus! {

/// Length of a header on the wire.
pub const HEADER_LEN: usize = 12;

/// The fixed 12-byte header of a DNS message.
#[derive(Clone, Copy, Debug, PartialEq, Eq, Structural)]
pub struct Header {
    pub id: u16,
    pub response: bool,
    /// Four bits on the wire.
    pub opcode: u8,
    pub authoritative_answer: bool,
    pub truncated_message: bool,
    pub recursion_desired: bool,
    pub recursion_available: bool,
    pub z: bool,
    pub authenticated_data: bool,
    pub checking_disabled: bool,
    /// Four bits on the wire.
    pub return_code: ReturnCode,
    pub queries_total: u16,
    pub answer_rr_total: u16,
    pub authoritative_rr_total: u16,
    pub additional_rr_total: u16,
}

/// A header with every field zero or false and the code `NOERROR`.
pub open spec fn empty_header() -> Header {
    Header {
        id: 0,
        response: false,
        opcode: 0,
        authoritative_answer: false,
        truncated_message: false,
        recursion_desired: false,
        recursion_available: false,
        z: false,
        authenticated_data: false,
        checking_disabled: false,
        return_code: ReturnCode::NOERROR,
        queries_total: 0,
        answer_rr_total: 0,
        authoritative_rr_total: 0,
        additional_rr_total: 0,
    }
}

pub open spec fn bit(b: bool) -> u8 {
    if b {
        1
    } else {
        0
    }
}

/// The first flag byte: QR, the opcode, AA, TC and RD from the top bit down.
pub open spec fn flags_hi(h: Header) -> u8 {
    (bit(h.response) << 7u8) | ((h.opcode & 0x0Fu8) << 3u8) | (bit(h.authoritative_answer) << 2u8) | (bit(
        h.truncated_message,
    ) << 1u8) | bit(h.recursion_desired)
}

/// The second flag byte: RA, Z, AD, CD and the response code from the top bit down.
pub open spec fn flags_lo(h: Header) -> u8 {
    (bit(h.recursion_available) << 7u8) | (bit(h.z) << 6u8) | (bit(h.authenticated_data) << 5u8)
        | (bit(h.checking_disabled) << 4u8) | code_num(h.return_code)
}

/// The wire form of a header.
pub open spec fn header_bytes(h: Header) -> Seq<u8> {
    be16(h.id) + seq![flags_hi(h), flags_lo(h)] + be16(h.queries_total) + be16(h.answer_rr_total)
        + be16(h.authoritative_rr_total) + be16(h.additional_rr_total)
}

/// The header that the 12 bytes of `d` from `at` on stand for.
pub open spec fn header_at(d: Seq<u8>, at: int) -> Header {
    let hi = d[at + 2];
    let lo = d[at + 3];
    Header {
        id: u16_at(d, at),
        response: hi & 0x80u8 != 0,
        opcode: (hi >> 3u8) & 0x0Fu8,
        authoritative_answer: hi & 0x04u8 != 0,
        truncated_message: hi & 0x02u8 != 0,
        recursion_desired: hi & 0x01u8 != 0,
        recursion_available: lo & 0x80u8 != 0,
        z: lo & 0x40u8 != 0,
        authenticated_data: lo & 0x20u8 != 0,
        checking_disabled: lo & 0x10u8 != 0,
        return_code: code_of_num(lo & 0x0Fu8),
        queries_total: u16_at(d, at + 4),
        answer_rr_total: u16_at(d, at + 6),
        authoritative_rr_total: u16_at(d, at + 8),
        additional_rr_total: u16_at(d, at + 10),
    }
}

impl Header {
    pub fn new() -> (r: Header)
        ensures
            r == empty_header(),
    {
        Header {
            id: 0,
            response: false,
            opcode: 0,
            authoritative_answer: false,
            truncated_message: false,
            recursion_desired: false,
            recursion_available: false,
            z: false,
            authenticated_data: false,
            checking_disabled: false,
            return_code: ReturnCode::NOERROR,
            queries_total: 0,
            answer_rr_total: 0,
            authoritative_rr_total: 0,
            additional_rr_total: 0,
        }
    }

    /// Decodes the header at the cursor.
    pub fn from_buffer(buffer: &mut PacketBuffer) -> (r: Result<Header, DnsError>)
        ensures
            final(buffer).data() == old(buffer).data(),
            old(buffer).cursor() + HEADER_LEN <= BUF_SIZE ==> r == Ok::<Header, DnsError>(
                header_at(old(buffer).data(), old(buffer).cursor()),
            ) && final(buffer).cursor() == old(buffer).cursor() + HEADER_LEN,
            old(buffer).cursor() + HEADER_LEN > BUF_SIZE ==> r == Err::<Header, DnsError>(
                DnsError::EndOfBuffer,
            ),
    {
        let mut header = Header::new();
        header.id = buffer.read_u16()?;
        let flags = buffer.read_u16()?;
        let hi = (flags / 256) as u8;
        let lo = (flags % 256) as u8;
        header.response = hi & 0x80 != 0;
        header.opcode = (hi >> 3) & 0x0F;
        header.authoritative_answer = hi & 0x04 != 0;
        header.truncated_message = hi & 0x02 != 0;
        header.recursion_desired = hi & 0x01 != 0;
        header.recursion_available = lo & 0x80 != 0;
        header.z = lo & 0x40 != 0;
        header.authenticated_data = lo & 0x20 != 0;
        header.checking_disabled = lo & 0x10 != 0;
        header.return_code = ReturnCode::from_num(lo & 0x0F);
        header.queries_total = buffer.read_u16()?;
        header.answer_rr_total = buffer.read_u16()?;
        header.authoritative_rr_total = buffer.read_u16()?;
        header.additional_rr_total = buffer.read_u16()?;
        Ok(header)
    }

    /// Encodes the header at the cursor.
    pub fn write(&self, buffer: &mut PacketBuffer) -> (r: Result<(), DnsError>)
        ensures
            old(buffer).cursor() + HEADER_LEN <= BUF_SIZE ==> r is Ok && final(buffer).data()
                == overwrite(old(buffer).data(), old(buffer).cursor(), header_bytes(*self))
                && final(buffer).cursor() == old(buffer).cursor() + HEADER_LEN,
            old(buffer).cursor() + HEADER_LEN > BUF_SIZE ==> r == Err::<(), DnsError>(
                DnsError::EndOfBuffer,
            ),
    {
        let ghost d = buffer.data();
        let ghost c = buffer.cursor();
        let hi: u8 = ((self.response as u8) << 7) | ((self.opcode & 0x0F) << 3) | ((
        self.authoritative_answer as u8) << 2) | ((self.truncated_message as u8) << 1) | (
        self.recursion_desired as u8);
        let lo: u8 = ((self.recursion_available as u8) << 7) | ((self.z as u8) << 6) | ((
        self.authenticated_data as u8) << 5) | ((self.checking_disabled as u8) << 4)
            | self.return_code.to_num();
        assert(hi == flags_hi(*self));
        assert(lo == flags_lo(*self));
        buffer.write_u16(self.id)?;
        buffer.write_u8(hi)?;
        proof {
            lemma_overwrite_append(d, c, be16(self.id), seq![hi]);
        }
        buffer.write_u8(lo)?;
        proof {
            lemma_overwrite_append(d, c, be16(self.id) + seq![hi], seq![lo]);
            assert(be16(self.id) + seq![hi] + seq![lo] =~= be16(self.id) + seq![hi, lo]);
        }
        let ghost w = be16(self.id) + seq![hi, lo];
        buffer.write_u16(self.queries_total)?;
        proof {
            lemma_overwrite_append(d, c, w, be16(self.queries_total));
        }
        let ghost w = w + be16(self.queries_total);
        buffer.write_u16(self.answer_rr_total)?;
        proof {
            lemma_overwrite_append(d, c, w, be16(self.answer_rr_total));
        }
        let ghost w = w + be16(self.answer_rr_total);
        buffer.write_u16(self.authoritative_rr_total)?;
        proof {
            lemma_overwrite_append(d, c, w, be16(self.authoritative_rr_total));
        }
        let ghost w = w + be16(self.authoritative_rr_total);
        buffer.write_u16(self.additional_rr_total)?;
        proof {
            lemma_overwrite_append(d, c, w, be16(self.additional_rr_total));
        }
        Ok(())
    }
}

} // verus!
