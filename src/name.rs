//! Domain names on the wire: a dotted name is split into labels, each written
//! as a length byte and its bytes, and the name ends with a zero byte. On
//! decode a length byte with both top bits set is a pointer: with the next
//! byte it gives an absolute offset where the name goes on.
use vstd::prelude::*;

use crate::error::DnsError;
use vstd::string::StringExecFns;

verus! {

/// The byte that separates the labels of a dotted name.
pub const DOT: u8 = 0x2E;

/// The longest label that can be encoded.
pub const MAX_LABEL_LEN: usize = 63;

/// The most compression pointers that one name may follow.
pub const MAX_JUMPS: usize = 5;

/// The length byte of a label, or the first byte of a pointer when at least this.
pub const POINTER_MASK: u8 = 0xC0;

/// The pieces of `b` between the dots, in order; there is always at least one.
pub open spec fn dot_split(b: Seq<u8>) -> Seq<Seq<u8>>
    decreases b.len(),
{
    if b.len() == 0 {
        seq![Seq::<u8>::empty()]
    } else {
        let rest = dot_split(b.drop_first());
        if b[0] == DOT {
            seq![Seq::<u8>::empty()] + rest
        } else {
            rest.update(0, seq![b[0]] + rest[0])
        }
    }
}

/// The labels of a dotted name, as the bytes of its UTF-8 encoding.
pub open spec fn name_labels(name: Seq<char>) -> Seq<Seq<u8>> {
    dot_split(vstd::utf8::encode_utf8(name))
}

/// The wire form of a label sequence: each label behind its length byte, then
/// a zero byte.
pub open spec fn labels_wire(ls: Seq<Seq<u8>>) -> Seq<u8>
    decreases ls.len(),
{
    if ls.len() == 0 {
        seq![0u8]
    } else {
        seq![ls[0].len() as u8] + ls[0] + labels_wire(ls.drop_first())
    }
}

/// What writing the labels `ls` from position `at` of a buffer of `BUF_SIZE`
/// bytes gives: the bytes written, or the first failure in writing order (a
/// label is checked for length before its length byte is written).
pub open spec fn write_labels(at: int, ls: Seq<Seq<u8>>) -> Result<Seq<u8>, DnsError>
    decreases ls.len(),
{
    if ls.len() == 0 {
        if at < 512 {
            Ok(seq![0u8])
        } else {
            Err(DnsError::EndOfBuffer)
        }
    } else if ls[0].len() > 63 {
        Err(DnsError::LabelTooLong)
    } else if at + 1 + ls[0].len() > 512 {
        Err(DnsError::EndOfBuffer)
    } else {
        match write_labels(at + 1 + ls[0].len(), ls.drop_first()) {
            Ok(rest) => Ok(seq![ls[0].len() as u8] + ls[0] + rest),
            Err(e) => Err(e),
        }
    }
}

/// What writing the dotted name `name` from position `at` gives.
pub open spec fn write_name(at: int, name: Seq<char>) -> Result<Seq<u8>, DnsError> {
    write_labels(at, name_labels(name))
}

/// `w` put in front of the bytes of a successful outcome.
pub open spec fn prepend(w: Seq<u8>, r: Result<Seq<u8>, DnsError>) -> Result<Seq<u8>, DnsError> {
    match r {
        Ok(b) => Ok(w + b),
        Err(e) => Err(e),
    }
}

/// Following a name from `pos` in the buffer bytes `d`, with `jumps` pointers
/// followed so far: the raw labels met, and where the name's own bytes end
/// (past the zero byte, or past the first pointer when one was followed).
pub open spec fn name_walk(d: Seq<u8>, pos: int, jumps: int) -> Result<
    (Seq<Seq<u8>>, int),
    DnsError,
>
    decreases 6 - jumps, 512 - pos,
{
    if jumps > 5 || jumps < 0 {
        Err(DnsError::JumpLimitExceeded)
    } else if pos < 0 || pos >= 512 || d.len() != 512 {
        Err(DnsError::EndOfBuffer)
    } else {
        let len = d[pos];
        if len >= POINTER_MASK {
            if pos + 1 >= 512 {
                Err(DnsError::EndOfBuffer)
            } else {
                let target = (len - POINTER_MASK) * 256 + d[pos + 1];
                match name_walk(d, target, jumps + 1) {
                    Ok((ls, _)) => Ok((ls, pos + 2)),
                    Err(e) => Err(e),
                }
            }
        } else if len == 0 {
            Ok((Seq::empty(), pos + 1))
        } else if pos + 1 + len >= 512 {
            Err(DnsError::EndOfBuffer)
        } else {
            match name_walk(d, pos + 1 + len, jumps) {
                Ok((ls, end)) => Ok((seq![d.subrange(pos + 1, pos + 1 + len)] + ls, end)),
                Err(e) => Err(e),
            }
        }
    }
}

/// What bytes that are not valid UTF-8 decode to, with the invalid parts replaced.
pub uninterp spec fn lossy_of(b: Seq<u8>) -> Seq<char>;

/// What the bytes of a label decode to: their plain decoding when they are
/// valid UTF-8.
pub open spec fn utf8_text(b: Seq<u8>) -> Seq<char> {
    if vstd::utf8::valid_utf8(b) {
        vstd::utf8::decode_utf8(b)
    } else {
        lossy_of(b)
    }
}

/// The lowercase form of a text that is not all ASCII.
pub uninterp spec fn lower_of(s: Seq<char>) -> Seq<char>;

/// A character with the ASCII capitals mapped to small letters.
pub open spec fn ascii_lower(c: char) -> char {
    if 'A' <= c <= 'Z' {
        ((c as u32) + 32) as char
    } else {
        c
    }
}

/// The lowercase form of a text: letter by letter for ASCII text.
pub open spec fn lower_text(s: Seq<char>) -> Seq<char> {
    if vstd::utf8::is_ascii_chars(s) {
        s.map_values(|c: char| ascii_lower(c))
    } else {
        lower_of(s)
    }
}

/// The text of one decoded label.
#[verifier::opaque]
pub open spec fn label_text(l: Seq<u8>) -> Seq<char> {
    lower_text(utf8_text(l))
}

/// Texts joined with a dot between each two.
pub open spec fn join_texts(ts: Seq<Seq<char>>) -> Seq<char>
    decreases ts.len(),
{
    if ts.len() == 0 {
        Seq::empty()
    } else if ts.len() == 1 {
        ts[0]
    } else {
        join_texts(ts.drop_last()) + seq!['.'] + ts.last()
    }
}

/// The dotted text of decoded labels.
#[verifier::opaque]
pub open spec fn join_labels(ls: Seq<Seq<u8>>) -> Seq<char> {
    join_texts(ls.map_values(|l: Seq<u8>| label_text(l)))
}

/// Where the first pointer of a name that starts at `pos` stands, when the
/// name reaches one before it ends or fails.
pub open spec fn first_pointer(d: Seq<u8>, pos: int) -> Option<int>
    decreases 512 - pos,
{
    if pos < 0 || pos >= 512 || d.len() != 512 {
        None
    } else {
        let len = d[pos];
        if len >= POINTER_MASK {
            Some(pos)
        } else if len == 0 || pos + 1 + len >= 512 {
            None
        } else {
            first_pointer(d, pos + 1 + len)
        }
    }
}

/// Where the cursor stands once a name from `pos` has failed to decode: past
/// the name's first pointer when one was reached, else where it was.
pub open spec fn cursor_after_failure(d: Seq<u8>, pos: int) -> int {
    match first_pointer(d, pos) {
        Some(p) => p + 2,
        None => pos,
    }
}

/// Joins label texts with a dot between each two.
pub fn join_label_texts(texts: &Vec<String>) -> (r: String)
    ensures
        r@ == join_texts(texts@.map_values(|t: String| t@)),
{
    let ghost ts = texts@.map_values(|t: String| t@);
    let mut name = String::new();
    let mut i: usize = 0;
    proof {
        reveal_strlit(".");
        assert(ts.subrange(0, 0).len() == 0);
    }
    while i < texts.len()
        invariant
            i <= texts@.len(),
            ts == texts@.map_values(|t: String| t@),
            name@ == join_texts(ts.subrange(0, i as int)),
            ".".view() == seq!['.'],
        decreases texts@.len() - i,
    {
        if i > 0 {
            name.append(".");
        }
        name.append(texts[i].as_str());
        proof {
            let next = ts.subrange(0, i + 1);
            assert(next.drop_last() =~= ts.subrange(0, i as int));
            assert(next.last() == texts@[i as int]@);
            assert(name@ =~= join_texts(next));
        }
        i = i + 1;
    }
    proof {
        assert(ts.subrange(0, ts.len() as int) =~= ts);
    }
    name
}

/// Relies on `String::from_utf8_lossy`: valid UTF-8 is decoded as it is, and
/// otherwise the result depends on the bytes alone.
#[verifier::external_body]
pub(crate) fn utf8_lossy(b: &[u8]) -> (r: String)
    ensures
        vstd::utf8::valid_utf8(b@) ==> r@ == vstd::utf8::decode_utf8(b@),
        !vstd::utf8::valid_utf8(b@) ==> r@ == lossy_of(b@),
{
    String::from_utf8_lossy(b).into_owned()
}

/// Relies on `str::to_lowercase`: the result depends on the text alone, and
/// in ASCII text only the capitals A to Z change, each to its small letter.
#[verifier::external_body]
pub(crate) fn lowercase(s: &str) -> (r: String)
    ensures
        vstd::utf8::is_ascii_chars(s@) ==> r@ == s@.map_values(|c: char| ascii_lower(c)),
        !vstd::utf8::is_ascii_chars(s@) ==> r@ == lower_of(s@),
{
    s.to_lowercase()
}

/// A dotted name splits into pieces around the first dot of the text.
pub proof fn lemma_dot_split_at(s: Seq<u8>, k: int)
    requires
        0 <= k <= s.len(),
        forall|i: int| 0 <= i < k ==> s[i] != DOT,
        k == s.len() || s[k] == DOT,
    ensures
        k == s.len() ==> dot_split(s) == seq![s],
        k < s.len() ==> dot_split(s) == seq![s.subrange(0, k)] + dot_split(
            s.subrange(k + 1, s.len() as int),
        ),
    decreases k,
{
    if k == 0 {
        if s.len() == 0 {
            assert(s =~= Seq::<u8>::empty());
        } else {
            assert(s.drop_first() =~= s.subrange(1, s.len() as int));
            assert(s.subrange(0, 0) =~= Seq::<u8>::empty());
        }
    } else {
        let t = s.drop_first();
        lemma_dot_split_at(t, k - 1);
        let rest = dot_split(t);
        if k == s.len() {
            assert(seq![s[0]] + t =~= s);
            assert(rest.update(0, seq![s[0]] + rest[0]) =~= seq![s]);
        } else {
            assert(seq![s[0]] + t.subrange(0, k - 1) =~= s.subrange(0, k));
            assert(t.subrange(k, t.len() as int) =~= s.subrange(k + 1, s.len() as int));
            assert(rest.update(0, seq![s[0]] + rest[0]) =~= seq![s.subrange(0, k)] + dot_split(
                s.subrange(k + 1, s.len() as int),
            ));
        }
    }
}

/// A written name holds at least its zero byte, and ends within the buffer.
pub proof fn lemma_name_nonempty(at: int, name: Seq<char>)
    requires
        write_name(at, name) is Ok,
    ensures
        write_name(at, name)->Ok_0.len() >= 1,
        at + write_name(at, name)->Ok_0.len() <= 512,
{
    lemma_write_labels_bounds(at, name_labels(name));
}

proof fn lemma_write_labels_bounds(at: int, ls: Seq<Seq<u8>>)
    requires
        write_labels(at, ls) is Ok,
    ensures
        write_labels(at, ls)->Ok_0.len() >= 1,
        at + write_labels(at, ls)->Ok_0.len() <= 512,
    decreases ls.len(),
{
    if ls.len() > 0 {
        lemma_write_labels_bounds(at + 1 + ls[0].len(), ls.drop_first());
    }
}

/// Whether decoding a name from `pos`, with `jumps` pointers followed so far,
/// would go on to follow more than five pointers in all, were there no limit.
pub open spec fn follows_too_many(d: Seq<u8>, pos: int, jumps: int) -> bool
    decreases 6 - jumps, 512 - pos,
{
    if jumps > 5 {
        true
    } else if jumps < 0 || pos < 0 || pos >= 512 || d.len() != 512 {
        false
    } else {
        let len = d[pos];
        if len >= POINTER_MASK {
            pos + 1 < 512 && follows_too_many(d, (len - POINTER_MASK) * 256 + d[pos + 1], jumps + 1)
        } else if len == 0 || pos + 1 + len >= 512 {
            false
        } else {
            follows_too_many(d, pos + 1 + len, jumps)
        }
    }
}

/// A name fails to decode with `JumpLimitExceeded` exactly when decoding it
/// would follow more than five compression pointers.
pub proof fn lemma_jump_limit(d: Seq<u8>, pos: int, jumps: int)
    requires
        0 <= jumps,
    ensures
        follows_too_many(d, pos, jumps) <==> name_walk(d, pos, jumps) == Err::<
            (Seq<Seq<u8>>, int),
            DnsError,
        >(DnsError::JumpLimitExceeded),
    decreases 6 - jumps, 512 - pos,
{
    if jumps > 5 || pos < 0 || pos >= 512 || d.len() != 512 {
    } else {
        let len = d[pos];
        if len >= POINTER_MASK {
            if pos + 1 < 512 {
                lemma_jump_limit(d, (len - POINTER_MASK) * 256 + d[pos + 1], jumps + 1);
            }
        } else if len == 0 || pos + 1 + len >= 512 {
        } else {
            lemma_jump_limit(d, pos + 1 + len, jumps);
        }
    }
}

/// Encoding refuses a name with a label longer than 63 bytes, wherever it is
/// written.
pub proof fn lemma_long_label_rejected(at: int, name: Seq<char>, i: int)
    requires
        0 <= i < name_labels(name).len(),
        name_labels(name)[i].len() > MAX_LABEL_LEN,
    ensures
        write_name(at, name) is Err,
{
    lemma_write_labels_long(at, name_labels(name), i);
}

proof fn lemma_write_labels_long(at: int, ls: Seq<Seq<u8>>, i: int)
    requires
        0 <= i < ls.len(),
        ls[i].len() > MAX_LABEL_LEN,
    ensures
        write_labels(at, ls) is Err,
    decreases ls.len(),
{
    if i > 0 && ls[0].len() <= 63 && at + 1 + ls[0].len() <= 512 {
        lemma_write_labels_long(at + 1 + ls[0].len(), ls.drop_first(), i - 1);
    }
}

} // verus!
