use vstd::prelude::*;

use crate::error::DnsError;
use crate::name::{
    cursor_after_failure, dot_split, first_pointer, join_label_texts, lemma_dot_split_at,
    join_labels, label_text, lowercase, name_labels, name_walk, prepend, utf8_lossy, write_labels,
    write_name, DOT, MAX_JUMPS, MAX_LABEL_LEN, POINTER_MASK,
};

verus! {

/// Capacity of a packet buffer: the largest DNS message carried over UDP.
pub const BUF_SIZE: usize = 512;

/// The big-endian bytes of a 16-bit value.
pub open spec fn be16(v: u16) -> Seq<u8> {
    seq![(v / 256) as u8, (v % 256) as u8]
}

/// The big-endian bytes of a 32-bit value.
pub open spec fn be32(v: u32) -> Seq<u8> {
    be16((v / 65536) as u16) + be16((v % 65536) as u16)
}

/// The 16-bit value of two big-endian bytes.
pub open spec fn u16_at(d: Seq<u8>, at: int) -> u16 {
    (d[at] as int * 256 + d[at + 1] as int) as u16
}

/// The 32-bit value of four big-endian bytes.
pub open spec fn u32_at(d: Seq<u8>, at: int) -> u32 {
    (u16_at(d, at) as int * 65536 + u16_at(d, at + 2) as int) as u32
}

/// `d` with the bytes `b` written from index `at` on; bytes that would fall
/// outside `d` are dropped.
pub open spec fn overwrite(d: Seq<u8>, at: int, b: Seq<u8>) -> Seq<u8> {
    Seq::new(d.len(), |i: int| if at <= i < at + b.len() { b[i - at] } else { d[i] })
}

/// A successful write outcome `r` from `at` on, followed by the fixed bytes
/// `tail`, which fail only for want of room.
pub open spec fn then_fixed(at: int, r: Result<Seq<u8>, DnsError>, tail: Seq<u8>) -> Result<
    Seq<u8>,
    DnsError,
> {
    match r {
        Ok(b) => if at + b.len() + tail.len() <= 512 {
            Ok(b + tail)
        } else {
            Err(DnsError::EndOfBuffer)
        },
        Err(e) => Err(e),
    }
}

/// Two writes one after the other are one write of both byte runs.
pub proof fn lemma_overwrite_append(d: Seq<u8>, at: int, w: Seq<u8>, v: Seq<u8>)
    ensures
        overwrite(overwrite(d, at, w), at + w.len(), v) == overwrite(d, at, w + v),
{
    assert(overwrite(overwrite(d, at, w), at + w.len(), v) =~= overwrite(d, at, w + v));
}

/// A fixed-capacity byte buffer with a cursor, read and written big-endian.
pub struct PacketBuffer {
    buf: [u8; BUF_SIZE],
    pos: usize,
}

impl PacketBuffer {
    /// The buffer's bytes; always `BUF_SIZE` of them.
    pub closed spec fn data(&self) -> Seq<u8> {
        self.buf@
    }

    /// The cursor: where the next read or write takes place.
    pub closed spec fn cursor(&self) -> int {
        self.pos as int
    }

    /// A buffer always holds `BUF_SIZE` bytes, and its cursor is a `usize`.
    pub proof fn lemma_data_len(&self)
        ensures
            self.data().len() == BUF_SIZE,
            0 <= self.cursor() <= usize::MAX,
    {
    }

    pub fn new() -> (r: PacketBuffer)
        ensures
            r.data() == Seq::new(BUF_SIZE as nat, |i: int| 0u8),
            r.cursor() == 0,
    {
        let r = PacketBuffer { buf: [0; BUF_SIZE], pos: 0 };
        assert(r.data() =~= Seq::new(BUF_SIZE as nat, |i: int| 0u8));
        r
    }

    pub fn from_u8_array(buf: [u8; BUF_SIZE]) -> (r: PacketBuffer)
        ensures
            r.data() == buf@,
            r.cursor() == 0,
    {
        PacketBuffer { buf, pos: 0 }
    }

    pub fn pos(&self) -> (r: usize)
        ensures
            r == self.cursor(),
    {
        self.pos
    }

    /// Moves the cursor forward; the bytes in between are left as they are.
    pub fn step(&mut self, steps: usize)
        requires
            old(self).cursor() + steps <= usize::MAX,
        ensures
            final(self).data() == old(self).data(),
            final(self).cursor() == old(self).cursor() + steps,
    {
        self.pos = self.pos + steps;
    }

    pub fn seek(&mut self, pos: usize)
        ensures
            final(self).data() == old(self).data(),
            final(self).cursor() == pos,
    {
        self.pos = pos;
    }

    /// The single place where positions are checked against the capacity.
    fn check_end_of_buf(&self, pos: usize) -> (r: Result<(), DnsError>)
        ensures
            r is Ok <==> pos < BUF_SIZE,
            r is Err ==> r == Err::<(), DnsError>(DnsError::EndOfBuffer),
    {
        if pos >= BUF_SIZE {
            return Err(DnsError::EndOfBuffer);
        }
        Ok(())
    }

    fn get(&self, pos: usize) -> (r: Result<u8, DnsError>)
        ensures
            pos < BUF_SIZE ==> r == Ok::<u8, DnsError>(self.data()[pos as int]),
            pos >= BUF_SIZE ==> r == Err::<u8, DnsError>(DnsError::EndOfBuffer),
    {
        self.check_end_of_buf(pos)?;
        Ok(self.buf[pos])
    }

    /// The `len` bytes from `start` on; refused unless `start + len` lies
    /// below the capacity.
    pub fn get_range(&self, start: usize, len: usize) -> (r: Result<&[u8], DnsError>)
        ensures
            start + len < BUF_SIZE ==> r is Ok && r->Ok_0@ == self.data().subrange(
                start as int,
                start + len,
            ),
            start + len >= BUF_SIZE ==> r == Err::<&[u8], DnsError>(DnsError::EndOfBuffer),
    {
        if start >= BUF_SIZE || len >= BUF_SIZE - start {
            return Err(DnsError::EndOfBuffer);
        }
        Ok(&self.buf.as_slice()[start..start + len])
    }
    pub fn read_u8(&mut self) -> (r: Result<u8, DnsError>)
        ensures
            final(self).data() == old(self).data(),
            old(self).cursor() < BUF_SIZE ==> r == Ok::<u8, DnsError>(old(self).data()[old(self).cursor()])
                && final(self).cursor() == old(self).cursor() + 1,
            old(self).cursor() >= BUF_SIZE ==> r == Err::<u8, DnsError>(DnsError::EndOfBuffer),
    {
        let res = self.get(self.pos)?;
        self.pos = self.pos + 1;
        Ok(res)
    }

    pub fn read_u16(&mut self) -> (r: Result<u16, DnsError>)
        ensures
            final(self).data() == old(self).data(),
            old(self).cursor() + 2 <= BUF_SIZE ==> r == Ok::<u16, DnsError>(
                u16_at(old(self).data(), old(self).cursor()),
            ) && final(self).cursor() == old(self).cursor() + 2,
            old(self).cursor() + 2 > BUF_SIZE ==> r == Err::<u16, DnsError>(DnsError::EndOfBuffer),
    {
        let hi = self.read_u8()?;
        let lo = self.read_u8()?;
        Ok(hi as u16 * 256 + lo as u16)
    }

    pub fn read_u32(&mut self) -> (r: Result<u32, DnsError>)
        ensures
            final(self).data() == old(self).data(),
            old(self).cursor() + 4 <= BUF_SIZE ==> r == Ok::<u32, DnsError>(
                u32_at(old(self).data(), old(self).cursor()),
            ) && final(self).cursor() == old(self).cursor() + 4,
            old(self).cursor() + 4 > BUF_SIZE ==> r == Err::<u32, DnsError>(DnsError::EndOfBuffer),
    {
        let hi = self.read_u16()?;
        let lo = self.read_u16()?;
        Ok(hi as u32 * 65536 + lo as u32)
    }

    pub fn write_u8(&mut self, val: u8) -> (r: Result<(), DnsError>)
        ensures
            old(self).cursor() < BUF_SIZE ==> r is Ok && final(self).data() == overwrite(
                old(self).data(),
                old(self).cursor(),
                seq![val],
            ) && final(self).cursor() == old(self).cursor() + 1,
            old(self).cursor() >= BUF_SIZE ==> r == Err::<(), DnsError>(DnsError::EndOfBuffer)
                && *final(self) == *old(self),
    {
        self.check_end_of_buf(self.pos)?;
        self.buf[self.pos] = val;
        self.pos = self.pos + 1;
        assert(self.data() =~= overwrite(old(self).data(), old(self).cursor(), seq![val]));
        Ok(())
    }

    pub fn write_u16(&mut self, val: u16) -> (r: Result<(), DnsError>)
        ensures
            old(self).cursor() + 2 <= BUF_SIZE ==> r is Ok && final(self).data() == overwrite(
                old(self).data(),
                old(self).cursor(),
                be16(val),
            ) && final(self).cursor() == old(self).cursor() + 2,
            old(self).cursor() + 2 > BUF_SIZE ==> r == Err::<(), DnsError>(DnsError::EndOfBuffer)
                && final(self).data() == overwrite(old(self).data(), old(self).cursor(), be16(val))
                && final(self).cursor() == if old(self).cursor() < BUF_SIZE {
                BUF_SIZE as int
            } else {
                old(self).cursor()
            },
    {
        let ghost d = self.data();
        let ghost c = self.cursor();
        proof {
            self.lemma_data_len();
        }
        if let Err(e) = self.write_u8((val / 256) as u8) {
            assert(self.data() =~= overwrite(d, c, be16(val)));
            return Err(e);
        }
        if let Err(e) = self.write_u8((val % 256) as u8) {
            assert(self.data() =~= overwrite(d, c, be16(val)));
            return Err(e);
        }
        assert(self.data() =~= overwrite(d, c, be16(val)));
        Ok(())
    }

    pub fn write_u32(&mut self, val: u32) -> (r: Result<(), DnsError>)
        ensures
            old(self).cursor() + 4 <= BUF_SIZE ==> r is Ok && final(self).data() == overwrite(
                old(self).data(),
                old(self).cursor(),
                be32(val),
            ) && final(self).cursor() == old(self).cursor() + 4,
            old(self).cursor() + 4 > BUF_SIZE ==> r == Err::<(), DnsError>(DnsError::EndOfBuffer)
                && final(self).data() == overwrite(old(self).data(), old(self).cursor(), be32(val))
                && final(self).cursor() == if old(self).cursor() < BUF_SIZE {
                BUF_SIZE as int
            } else {
                old(self).cursor()
            },
    {
        let ghost d = self.data();
        let ghost c = self.cursor();
        proof {
            self.lemma_data_len();
        }
        if let Err(e) = self.write_u16((val / 65536) as u16) {
            assert(self.data() =~= overwrite(d, c, be32(val)));
            return Err(e);
        }
        if let Err(e) = self.write_u16((val % 65536) as u16) {
            assert(self.data() =~= overwrite(d, c, be32(val)));
            return Err(e);
        }
        assert(self.data() =~= overwrite(d, c, be32(val)));
        Ok(())
    }

    fn set_u8(&mut self, pos: usize, val: u8) -> (r: Result<(), DnsError>)
        ensures
            final(self).cursor() == old(self).cursor(),
            pos < BUF_SIZE ==> r is Ok && final(self).data() == overwrite(
                old(self).data(),
                pos as int,
                seq![val],
            ),
            pos >= BUF_SIZE ==> r == Err::<(), DnsError>(DnsError::EndOfBuffer)
                && final(self).data() == old(self).data(),
    {
        self.check_end_of_buf(pos)?;
        self.buf[pos] = val;
        assert(self.data() =~= overwrite(old(self).data(), pos as int, seq![val]));
        Ok(())
    }

    /// Overwrites two bytes at an absolute position without moving the cursor.
    pub fn set_u16(&mut self, pos: usize, val: u16) -> (r: Result<(), DnsError>)
        ensures
            final(self).cursor() == old(self).cursor(),
            pos + 2 <= BUF_SIZE ==> r is Ok && final(self).data() == overwrite(
                old(self).data(),
                pos as int,
                be16(val),
            ),
            pos + 2 > BUF_SIZE ==> r == Err::<(), DnsError>(DnsError::EndOfBuffer)
                && final(self).data() == overwrite(old(self).data(), pos as int, be16(val)),
    {
        let ghost d = self.data();
        proof {
            self.lemma_data_len();
        }
        if let Err(e) = self.set_u8(pos, (val / 256) as u8) {
            assert(self.data() =~= overwrite(d, pos as int, be16(val)));
            return Err(e);
        }
        if let Err(e) = self.set_u8(pos + 1, (val % 256) as u8) {
            assert(self.data() =~= overwrite(d, pos as int, be16(val)));
            return Err(e);
        }
        assert(self.data() =~= overwrite(d, pos as int, be16(val)));
        Ok(())
    }
    /// Decodes the name at the cursor, following compression pointers. The
    /// cursor ends past the name's own bytes: past its zero byte, or past the
    /// first pointer when one was followed.
    pub fn read_compressed_name(&mut self) -> (r: Result<String, DnsError>)
        ensures
            final(self).data() == old(self).data(),
            match name_walk(old(self).data(), old(self).cursor(), 0) {
                Ok((labels, end)) => r is Ok && r->Ok_0@ == join_labels(labels)
                    && final(self).cursor() == end,
                Err(e) => r == Err::<String, DnsError>(e) && final(self).cursor()
                    == cursor_after_failure(old(self).data(), old(self).cursor()),
            },
    {
        let ghost d = self.data();
        let ghost start = self.cursor();
        let ghost mut labels: Seq<Seq<u8>> = Seq::empty();
        let ghost mut first_end: int = 0;
        let mut texts: Vec<String> = Vec::new();
        let mut pos = self.pos;
        let mut jumps: usize = 0;
        proof {
            self.lemma_data_len();
            assert(forall|ls: Seq<Seq<u8>>| labels + ls =~= ls);
            assert(texts@.map_values(|t: String| t@) =~= labels.map_values(
                |l: Seq<u8>| label_text(l),
            ));
        }
        loop
            invariant_except_break
                name_walk(d, start, 0) == match name_walk(d, pos as int, jumps as int) {
                    Ok((ls, end)) => Ok::<(Seq<Seq<u8>>, int), DnsError>(
                        (labels + ls, if jumps == 0 { end } else { first_end }),
                    ),
                    Err(e) => Err(e),
                },
                jumps == 0 ==> first_pointer(d, start) == first_pointer(d, pos as int),
            invariant
                self.data() == d,
                d == old(self).data(),
                start == old(self).cursor(),
                d.len() == BUF_SIZE,
                jumps <= MAX_JUMPS + 1,
                jumps == 0 ==> self.cursor() == start,
                jumps > 0 ==> self.cursor() == first_end,
                jumps > 0 ==> first_pointer(d, start) == Some(first_end - 2),
                texts@.map_values(|t: String| t@) == labels.map_values(|l: Seq<u8>| label_text(l)),
            ensures
                name_walk(d, start, 0) == Ok::<(Seq<Seq<u8>>, int), DnsError>(
                    (labels, if jumps == 0 { pos as int } else { first_end }),
                ),
            decreases MAX_JUMPS + 1 - jumps, BUF_SIZE - pos,
        {
            if jumps > MAX_JUMPS {
                assert(name_walk(d, pos as int, jumps as int) == Err::<(Seq<Seq<u8>>, int), DnsError>(DnsError::JumpLimitExceeded));
                return Err(DnsError::JumpLimitExceeded);
            }
            if pos >= BUF_SIZE {
                assert(name_walk(d, pos as int, jumps as int) == Err::<(Seq<Seq<u8>>, int), DnsError>(DnsError::EndOfBuffer));
                assert(first_pointer(d, pos as int) is None);
            }
            let label_len = self.get(pos)?;
            if label_len >= POINTER_MASK {
                if jumps == 0 {
                    proof {
                        first_end = pos + 2;
                    }
                    self.seek(pos + 2);
                }
                let next = self.get(pos + 1)?;
                pos = (label_len - POINTER_MASK) as usize * 256 + next as usize;
                jumps = jumps + 1;
            } else {
                pos = pos + 1;
                if label_len == 0 {
                    break;
                }
                let label = self.get_range(pos, label_len as usize)?;
                let text = lowercase(utf8_lossy(label).as_str());
                let ghost before = texts@;
                proof {
                    reveal(label_text);
                    assert(text@ == label_text(label@));
                }
                texts.push(text);
                proof {
                    let l = label@;
                    assert(texts@ == before.push(text));
                    assert(texts@.map_values(|t: String| t@) =~= before.map_values(|t: String| t@).push(label_text(l)));
                    let new_labels = labels.push(l);
                    assert forall|ls: Seq<Seq<u8>>| new_labels + ls =~= labels + (seq![l] + ls) by {}
                    assert(new_labels.map_values(|l: Seq<u8>| label_text(l)) =~= labels.map_values(
                        |l: Seq<u8>| label_text(l),
                    ).push(label_text(l)));
                    labels = new_labels;
                }
                pos = pos + label_len as usize;
            }
        }
        if jumps == 0 {
            self.seek(pos);
        }
        proof {
            reveal(join_labels);
        }
        Ok(join_label_texts(&texts))
    }

    /// Encodes a dotted name as length-prefixed labels and a zero byte, with
    /// no compression. A label longer than 63 bytes is refused before its
    /// length byte is written.
    pub fn write_compressed_name(&mut self, name: &str) -> (r: Result<(), DnsError>)
        ensures
            match write_name(old(self).cursor(), name@) {
                Ok(b) => r is Ok && final(self).data() == overwrite(
                    old(self).data(),
                    old(self).cursor(),
                    b,
                ) && final(self).cursor() == old(self).cursor() + b.len(),
                Err(e) => r == Err::<(), DnsError>(e),
            },
    {
        let bytes = name.as_bytes();
        let n = bytes.len();
        let ghost b = bytes@;
        let ghost c0 = self.cursor();
        let ghost mut written: Seq<u8> = Seq::empty();
        let mut start: usize = 0;
        proof {
            assert(b.subrange(0, b.len() as int) =~= b);
            assert(overwrite(old(self).data(), c0, written) =~= old(self).data());
        }
        loop
            invariant_except_break
                start <= n,
                write_name(c0, name@) == prepend(
                    written,
                    write_labels(self.cursor(), dot_split(b.subrange(start as int, n as int))),
                ),
            invariant
                b == bytes@,
                n == b.len(),
                b == vstd::utf8::encode_utf8(name@),
                c0 == old(self).cursor(),
                self.data() == overwrite(old(self).data(), c0, written),
                self.cursor() == c0 + written.len(),
            ensures
                write_name(c0, name@) == prepend(written, write_labels(self.cursor(), Seq::empty())),
            decreases n - start,
        {
            let mut end = start;
            while end < n && bytes[end] != DOT
                invariant
                    start <= end <= n,
                    n == b.len(),
                    b == bytes@,
                    forall|i: int| start <= i < end ==> b[i] != DOT,
                decreases n - end,
            {
                end = end + 1;
            }
            let ghost rest = b.subrange(start as int, n as int);
            let ghost label = b.subrange(start as int, end as int);
            let ghost tail = if end < n {
                dot_split(b.subrange(end + 1, n as int))
            } else {
                Seq::empty()
            };
            proof {
                lemma_dot_split_at(rest, end - start);
                assert(rest.subrange(0, end - start) =~= label);
                if end < n {
                    assert(rest.subrange(end - start + 1, rest.len() as int) =~= b.subrange(end + 1, n as int));
                } else {
                    assert(rest =~= label);
                }
                assert(dot_split(rest) =~= seq![label] + tail);
                assert(dot_split(rest).drop_first() =~= tail);
                assert(dot_split(rest)[0] == label);
            }
            let len = end - start;
            if len > MAX_LABEL_LEN {
                return Err(DnsError::LabelTooLong);
            }
            let ghost label_cursor = self.cursor();
            let ghost base = written;
            self.write_u8(len as u8)?;
            proof {
                lemma_overwrite_append(old(self).data(), c0, written, seq![len as u8]);
                written = written + seq![len as u8];
            }
            let mut i = start;
            while i < end
                invariant
                    start <= i <= end <= n,
                    n == b.len(),
                    b == bytes@,
                    label == b.subrange(start as int, end as int),
                    c0 == old(self).cursor(),
                    written == base + seq![len as u8] + b.subrange(start as int, i as int),
                    self.data() == overwrite(old(self).data(), c0, written),
                    self.cursor() == c0 + written.len(),
                    self.cursor() == label_cursor + 1 + (i - start),
                    len == end - start,
                    len <= MAX_LABEL_LEN,
                    self.cursor() <= BUF_SIZE,
                    label_cursor + 1 + len <= BUF_SIZE ==> write_labels(label_cursor, seq![label] + tail)
                        == prepend(seq![len as u8] + label, write_labels(label_cursor + 1 + len, tail)),
                    label_cursor + 1 + len > BUF_SIZE ==> write_labels(label_cursor, seq![label] + tail)
                        == Err::<Seq<u8>, DnsError>(DnsError::EndOfBuffer),
                    write_name(c0, name@) == prepend(base, write_labels(label_cursor, seq![label] + tail)),
                decreases end - i,
            {
                self.write_u8(bytes[i])?;
                proof {
                    lemma_overwrite_append(old(self).data(), c0, written, seq![b[i as int]]);
                    assert(base + seq![len as u8] + b.subrange(start as int, i + 1) =~= written + seq![b[i as int]]);
                    written = written + seq![b[i as int]];
                }
                i = i + 1;
            }
            proof {
                assert(written =~= base + (seq![len as u8] + label));
                let tl = write_labels(label_cursor + 1 + len, tail);
                assert(prepend(base, prepend(seq![len as u8] + label, tl)) == prepend(written, tl)) by {
                    match tl {
                        Ok(x) => {
                            assert(base + ((seq![len as u8] + label) + x) =~= written + x);
                        },
                        Err(_) => {},
                    }
                }
            }
            if end == n {
                break;
            }
            start = end + 1;
        }
        self.write_u8(0)?;
        proof {
            lemma_overwrite_append(old(self).data(), c0, written, seq![0u8]);
        }
        Ok(())
    }
}

} // verus!
