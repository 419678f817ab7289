use vstd::prelude::*;
use crate::fs::FilesystemError;
use vstd::string::StringSliceAdditionalSpecFns;
use vstd::utf8::{encode_utf8, is_ascii_chars, is_ascii_chars_encode_utf8};
use crate::wire::{le_bytes, lemma_le_round_trip, lemma_pow256_values, buf_bytes, buf_put_slice, buf_put_u32_le, buf_put_u8, le_value, lp_string, pow256, push_char, read_u32_at, read_u64_at, text_of};

verus! {

/// Writing the strings of the header format.
pub trait ShaiyaWrite {
    /// The bytes written so far.
    spec fn written(&self) -> Seq<u8>;

    /// Writes a zero-terminated string, prefixed with its length plus one as a
    /// little-endian `u32`.
    fn put_length_prefixed_string(&mut self, string: &str)
        requires
            string.spec_bytes().len() < u32::MAX,
        ensures
            final(self).written() == old(self).written() + lp_string(string.spec_bytes()),
    ;
}

/// Reading the strings of the header format.
pub trait ShaiyaRead {
    /// The bytes not read yet.
    spec fn remaining(&self) -> Seq<u8>;

    /// Reads `length` bytes as text, dropping the zero bytes.
    fn read_fixed_length_string(&mut self, length: usize) -> (r: Result<String, FilesystemError>)
        ensures
            length <= old(self).remaining().len() ==> {
                &&& r matches Ok(s) && s@ == text_of(old(self).remaining().take(length as int))
                &&& final(self).remaining() == old(self).remaining().skip(length as int)
            },
            length > old(self).remaining().len() ==> r matches Err(FilesystemError::UnexpectedEof),
    ;

    /// Reads a string prefixed with its length as a little-endian `u32`,
    /// dropping the zero bytes among the bytes it counts.
    fn read_length_prefixed_string(&mut self) -> (r: Result<String, FilesystemError>)
        ensures
            match parse_lp_string(old(self).remaining()) {
                Some((s, rest)) => r matches Ok(t) && t@ == s && final(self).remaining() == rest,
                None => r matches Err(FilesystemError::UnexpectedEof),
            },
    ;
}

/// The little-endian `u32` at the front of `s`, and what follows it.
pub open spec fn parse_u32(s: Seq<u8>) -> Option<(nat, Seq<u8>)> {
    if s.len() >= 4 {
        Some((le_value(s.take(4)), s.skip(4)))
    } else {
        None
    }
}

/// The little-endian `u64` at the front of `s`, and what follows it.
pub open spec fn parse_u64(s: Seq<u8>) -> Option<(nat, Seq<u8>)> {
    if s.len() >= 8 {
        Some((le_value(s.take(8)), s.skip(8)))
    } else {
        None
    }
}

/// The length-prefixed string at the front of `s`, and what follows it.
pub open spec fn parse_lp_string(s: Seq<u8>) -> Option<(Seq<char>, Seq<u8>)> {
    match parse_u32(s) {
        Some((n, rest)) => if n <= rest.len() {
            Some((text_of(rest.take(n as int)), rest.skip(n as int)))
        } else {
            None
        },
        None => None,
    }
}

/// Bytes that hold no zero byte pass the zero filter unchanged.
proof fn lemma_filter_nonzero(b: Seq<u8>)
    requires
        forall|i: int| 0 <= i < b.len() ==> #[trigger] b[i] != 0,
    ensures
        b.filter(|x: u8| x != 0) == b,
    decreases b.len(),
{
    reveal_with_fuel(Seq::filter, 1);
    if b.len() > 0 {
        lemma_filter_nonzero(b.drop_last());
        assert(b.drop_last().push(b.last()) =~= b);
    } else {
        assert(b.filter(|x: u8| x != 0) =~= b);
    }
}

/// The reader's text of the bytes of an ASCII text without a zero
/// character, followed by the terminating zero, is that text.
pub proof fn lemma_text_of_ascii(s: Seq<char>, b: Seq<u8>)
    requires
        b.len() == s.len(),
        forall|i: int| 0 <= i < s.len() ==> '\0' < #[trigger] s[i] <= '\u{7f}',
        forall|i: int| 0 <= i < s.len() ==> #[trigger] b[i] == s[i] as u8,
    ensures
        text_of(b.push(0u8)) == s,
        text_of(b) == s,
{
    assert forall|i: int| 0 <= i < b.len() implies #[trigger] b[i] != 0 by {
        assert(b[i] == s[i] as u8);
    }
    lemma_filter_nonzero(b);
    assert(b.push(0u8).drop_last() =~= b);
    assert(b.push(0u8).filter(|x: u8| x != 0) == b) by {
        reveal_with_fuel(Seq::filter, 1);
    }
    assert forall|i: int| 0 <= i < s.len() implies (b[i] as char) == #[trigger] s[i] by {
        assert(b[i] == s[i] as u8);
    }
    assert(text_of(b.push(0u8)) =~= s);
    assert(text_of(b) =~= s);
}

/// A text of ASCII characters without a zero character, written as a
/// length-prefixed string and read back, is itself, and what followed it is
/// left unread.
pub proof fn lemma_length_prefixed_round_trip(s: Seq<char>, rest: Seq<u8>)
    requires
        is_ascii_chars(s),
        forall|i: int| 0 <= i < s.len() ==> #[trigger] s[i] != '\0',
        s.len() + 1 < u32::MAX,
    ensures
        parse_lp_string(lp_string(encode_utf8(s)) + rest) == Some((s, rest)),
{
    is_ascii_chars_encode_utf8(s);
    lemma_pow256_values();
    let b = encode_utf8(s);
    let n = (b.len() + 1) as nat;
    lemma_le_round_trip(n, 4);
    let all = lp_string(b) + rest;
    assert(all.take(4) =~= le_bytes(n, 4));
    let after = all.skip(4);
    assert(after =~= b.push(0u8) + rest);
    assert(after.take(n as int) =~= b.push(0u8));
    assert(after.skip(n as int) =~= rest);
    assert forall|i: int| 0 <= i < s.len() implies '\0' < #[trigger] s[i] <= '\u{7f}' by {
        assert(s[i] != '\0');
    }
    lemma_text_of_ascii(s, b);
}

impl ShaiyaWrite for bytes::BytesMut {
    open spec fn written(&self) -> Seq<u8> {
        buf_bytes(*self)
    }

    fn put_length_prefixed_string(&mut self, string: &str) {
        let bytes = string.as_bytes();
        buf_put_u32_le(self, (bytes.len() + 1) as u32);
        buf_put_slice(self, bytes);
        buf_put_u8(self, 0);
        assert(buf_bytes(*self) =~= old(self).written() + lp_string(string.spec_bytes()));
    }
}

/// A read position in a header buffer.
pub struct ByteCursor<'a> {
    pub bytes: &'a [u8],
    pub pos: usize,
}

impl<'a> ByteCursor<'a> {
    /// A cursor at the start of `bytes`.
    pub fn new(bytes: &'a [u8]) -> (r: ByteCursor<'a>)
        ensures
            r.remaining() == bytes@,
    {
        let r = ByteCursor { bytes, pos: 0 };
        assert(r.bytes@.skip(0) =~= bytes@);
        r
    }

    /// The number of bytes not read yet.
    pub fn remaining_len(&self) -> (r: usize)
        ensures
            r == self.remaining().len(),
            self.pos <= self.bytes@.len() ==> r == self.bytes@.len() - self.pos,
            self.pos > self.bytes@.len() ==> r == 0,
    {
        if self.pos <= self.bytes.len() {
            self.bytes.len() - self.pos
        } else {
            0
        }
    }

    /// Reads a little-endian `u32`.
    pub fn read_u32_le(&mut self) -> (r: Result<u32, FilesystemError>)
        ensures
            match parse_u32(old(self).remaining()) {
                Some((n, rest)) => r == Ok::<u32, FilesystemError>(n as u32) && n < pow256(4)
                    && final(self).remaining() == rest,
                None => r matches Err(FilesystemError::UnexpectedEof),
            },
    {
        if self.pos > self.bytes.len() || self.bytes.len() - self.pos < 4 {
            return Err(FilesystemError::UnexpectedEof);
        }
        let n = read_u32_at(self.bytes, self.pos);
        proof { lemma_pow256_values(); }
        proof {
            assert(self.remaining().take(4) =~= self.bytes@.subrange(self.pos as int, self.pos + 4));
        }
        self.pos = self.pos + 4;
        assert(self.remaining() =~= old(self).remaining().skip(4));
        Ok(n)
    }

    /// Reads a little-endian `u64`.
    pub fn read_u64_le(&mut self) -> (r: Result<u64, FilesystemError>)
        ensures
            match parse_u64(old(self).remaining()) {
                Some((n, rest)) => r == Ok::<u64, FilesystemError>(n as u64) && n < pow256(8)
                    && final(self).remaining() == rest,
                None => r matches Err(FilesystemError::UnexpectedEof),
            },
    {
        if self.pos > self.bytes.len() || self.bytes.len() - self.pos < 8 {
            return Err(FilesystemError::UnexpectedEof);
        }
        let n = read_u64_at(self.bytes, self.pos);
        proof { lemma_pow256_values(); }
        proof {
            assert(self.remaining().take(8) =~= self.bytes@.subrange(self.pos as int, self.pos + 8));
        }
        self.pos = self.pos + 8;
        assert(self.remaining() =~= old(self).remaining().skip(8));
        Ok(n)
    }

    /// Moves past `count` bytes, or to the end where fewer remain.
    pub fn skip(&mut self, count: usize)
        ensures
            count <= old(self).remaining().len() ==> final(self).remaining() == old(self).remaining().skip(count as int),
            count > old(self).remaining().len() ==> final(self).remaining() == Seq::<u8>::empty(),
    {
        if self.pos <= self.bytes.len() && count <= self.bytes.len() - self.pos {
            self.pos = self.pos + count;
            assert(self.remaining() =~= old(self).remaining().skip(count as int));
        } else {
            self.pos = self.bytes.len();
            assert(self.remaining() =~= Seq::<u8>::empty());
        }
    }
}

impl<'a> ShaiyaRead for ByteCursor<'a> {
    open spec fn remaining(&self) -> Seq<u8> {
        if self.pos <= self.bytes@.len() {
            self.bytes@.skip(self.pos as int)
        } else {
            Seq::empty()
        }
    }

    fn read_fixed_length_string(&mut self, length: usize) -> (r: Result<String, FilesystemError>) {
        if self.remaining_len() < length {
            return Err(FilesystemError::UnexpectedEof);
        }
        if self.pos > self.bytes.len() {
            self.pos = self.bytes.len();
            assert(self.remaining() =~= old(self).remaining());
        }
        let ghost start = self.remaining();
        let ghost start_pos = self.pos as int;
        assert(start == self.bytes@.skip(self.pos as int));
        let mut string = String::new();
        let mut i: usize = 0;
        while i < length
            invariant
                i <= length,
                length <= start.len(),
                self.bytes == old(self).bytes,
                0 <= start_pos,
                self.pos == start_pos + i,
                start_pos + length <= self.bytes@.len(),
                start == self.bytes@.skip(start_pos),
                string@ == text_of(start.take(i as int)),
            decreases length - i,
        {
            let b = self.bytes[self.pos];
            proof {
                assert(start.take(i + 1).drop_last() =~= start.take(i as int));
                assert(self.bytes@[self.pos as int] == b);
                assert(start[i as int] == self.bytes@[start_pos + i]);
                assert(start.take(i + 1).last() == b);
                reveal_with_fuel(Seq::filter, 1);
            }
            if b != 0 {
                push_char(&mut string, b as char);
                assert(string@ =~= text_of(start.take(i + 1)));
            } else {
                assert(string@ =~= text_of(start.take(i + 1)));
            }
            self.pos = self.pos + 1;
            i = i + 1;
        }
        assert(self.remaining() =~= start.skip(length as int));
        assert(string@ == text_of(start.take(length as int)));
        Ok(string)
    }

    fn read_length_prefixed_string(&mut self) -> (r: Result<String, FilesystemError>) {
        let length = match self.read_u32_le() {
            Ok(n) => n,
            Err(e) => return Err(e),
        };
        proof { lemma_pow256_values(); }
        if self.remaining_len() < length as usize {
            return Err(FilesystemError::UnexpectedEof);
        }
        self.read_fixed_length_string(length as usize)
    }
}

} // verus!
