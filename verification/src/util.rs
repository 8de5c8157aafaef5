use crate::error::MapError;
use vstd::prelude::*;
use vstd::slice::slice_subrange;
use vstd::string::StringExecFns;
use vstd::string::StrSliceExecFns;

verus! {

/// The unsigned 16-bit little-endian value of the two bytes at `i`.
pub open spec fn le_u16(s: Seq<u8>, i: int) -> int {
    s[i] as int + 256 * (s[i + 1] as int)
}

/// The unsigned 32-bit little-endian value of the four bytes at `i`.
pub open spec fn le_u32(s: Seq<u8>, i: int) -> int {
    s[i] as int + 256 * (s[i + 1] as int) + 65536 * (s[i + 2] as int) + 16777216 * (s[i + 3] as int)
}

/// The signed (two's complement) 32-bit little-endian value of the four bytes at `i`.
pub open spec fn le_i32(s: Seq<u8>, i: int) -> int {
    if le_u32(s, i) >= 0x8000_0000 {
        le_u32(s, i) - 0x1_0000_0000
    } else {
        le_u32(s, i)
    }
}

/// The text that permissive UTF-8 decoding makes of `bytes`: valid sequences
/// decode to their characters, and invalid ones are replaced by U+FFFD.
pub uninterp spec fn lossy_utf8(bytes: Seq<u8>) -> Seq<char>;

/// Calls `String::from_utf8_lossy` and takes ownership of what it returns.
/// Trusted: the result is the permissive decoding of exactly these bytes,
/// which depends on nothing else.
#[verifier::external_body]
fn decode_lossy(bytes: &[u8]) -> (s: String)
    ensures
        s@ == lossy_utf8(bytes@),
{
    String::from_utf8_lossy(bytes).into_owned()
}

/// A sequential little-endian reader over a byte buffer.
pub struct DataReader<'a> {
    data: &'a [u8],
    offset: usize,
}

/// A reader over `data` that starts at its first byte.
pub fn new_data_reader(data: &[u8]) -> (r: DataReader<'_>)
    ensures
        r.bytes() == data@,
        r.position() == 0,
{
    new_data_reader_with_offset(data, 0)
}

/// A reader over `data` that starts at `offset`. An offset past the end is
/// accepted: every read from there fails.
pub fn new_data_reader_with_offset(data: &[u8], offset: usize) -> (r: DataReader<'_>)
    ensures
        r.bytes() == data@,
        r.position() == offset,
{
    DataReader { data, offset }
}

impl<'a> DataReader<'a> {
    /// The whole buffer that is read from.
    pub closed spec fn bytes(&self) -> Seq<u8> {
        self.data@
    }

    /// The index of the next byte to read.
    pub closed spec fn position(&self) -> nat {
        self.offset as nat
    }

    /// Whether `n` more bytes can be read.
    pub open spec fn has(&self, n: nat) -> bool {
        self.position() + n <= self.bytes().len()
    }

    /// The bytes that were not read so far; none where the position lies
    /// past the end.
    pub open spec fn unread(&self) -> Seq<u8> {
        if self.position() <= self.bytes().len() {
            self.bytes().subrange(self.position() as int, self.bytes().len() as int)
        } else {
            Seq::empty()
        }
    }

    /// The reader after `n` bytes were consumed.
    pub open spec fn advanced(&self, next: &Self, n: nat) -> bool {
        &&& next.bytes() == self.bytes()
        &&& next.position() == self.position() + n
    }

    /// The index of the next byte to read.
    pub fn offset(&self) -> (o: usize)
        ensures
            o == self.position(),
    {
        self.offset
    }

    fn room(&self, n: usize) -> (b: bool)
        ensures
            b == self.has(n as nat),
    {
        self.offset <= self.data.len() && self.data.len() - self.offset >= n
    }

    /// Decodes the next `size` bytes permissively as UTF-8 and advances by
    /// exactly `size`, whatever the bytes hold.
    pub fn read_utf8_string(&mut self, size: usize) -> (r: Result<String, MapError>)
        ensures
            (match r {
                Ok(s) => old(self).has(size as nat) && old(self).advanced(final(self), size as nat)
                    && s@ == lossy_utf8(
                    old(self).bytes().subrange(
                        old(self).position() as int,
                        old(self).position() + size,
                    ),
                ),
                Err(e) => e == MapError::TruncatedInput && !old(self).has(size as nat) && *final(self) == *old(self),
            }),
    {
        if !self.room(size) {
            return Err(MapError::TruncatedInput);
        }
        let total: usize = self.data.len();
        assert(self.offset + size <= total);
        let field = slice_subrange(self.data, self.offset, self.offset + size);
        let s = decode_lossy(field);
        self.offset += size;
        Ok(s)
    }

    /// Reads an unsigned 32-bit value.
    pub fn read_u32(&mut self) -> (r: Result<u32, MapError>)
        ensures
            (match r {
                Ok(v) => old(self).has(4) && old(self).advanced(final(self), 4) && v == le_u32(
                    old(self).bytes(),
                    old(self).position() as int,
                ),
                Err(e) => e == MapError::TruncatedInput && !old(self).has(4) && *final(self) == *old(self),
            }),
    {
        if !self.room(4) {
            return Err(MapError::TruncatedInput);
        }
        let b0 = self.data[self.offset] as u32;
        let b1 = self.data[self.offset + 1] as u32;
        let b2 = self.data[self.offset + 2] as u32;
        let b3 = self.data[self.offset + 3] as u32;
        self.offset += 4;
        Ok(b0 + 256 * b1 + 65536 * b2 + 16777216 * b3)
    }

    /// Reads a signed 32-bit value.
    pub fn read_i32(&mut self) -> (r: Result<i32, MapError>)
        ensures
            (match r {
                Ok(v) => old(self).has(4) && old(self).advanced(final(self), 4) && v == le_i32(
                    old(self).bytes(),
                    old(self).position() as int,
                ),
                Err(e) => e == MapError::TruncatedInput && !old(self).has(4) && *final(self) == *old(self),
            }),
    {
        match self.read_u32() {
            Ok(u) => {
                if u >= 0x8000_0000 {
                    Ok(((u - 0x8000_0000) as i32) + i32::MIN)
                } else {
                    Ok(u as i32)
                }
            },
            Err(e) => Err(e),
        }
    }

    /// Reads an unsigned 16-bit value.
    pub fn read_u16(&mut self) -> (r: Result<u16, MapError>)
        ensures
            (match r {
                Ok(v) => old(self).has(2) && old(self).advanced(final(self), 2) && v == le_u16(
                    old(self).bytes(),
                    old(self).position() as int,
                ),
                Err(e) => e == MapError::TruncatedInput && !old(self).has(2) && *final(self) == *old(self),
            }),
    {
        if !self.room(2) {
            return Err(MapError::TruncatedInput);
        }
        let b0 = self.data[self.offset] as u16;
        let b1 = self.data[self.offset + 1] as u16;
        self.offset += 2;
        Ok(b0 + 256 * b1)
    }

    /// Reads a 16-bit word as a truth value: any word but zero is `true`.
    pub fn read_bool(&mut self) -> (r: Result<bool, MapError>)
        ensures
            (match r {
                Ok(v) => old(self).has(2) && old(self).advanced(final(self), 2) && v == (le_u16(
                    old(self).bytes(),
                    old(self).position() as int,
                ) != 0),
                Err(e) => e == MapError::TruncatedInput && !old(self).has(2) && *final(self) == *old(self),
            }),
    {
        match self.read_u16() {
            Ok(u) => Ok(u != 0),
            Err(e) => Err(e),
        }
    }

    /// The bytes that were not read so far, without consuming them.
    pub fn unread_bytes(&self) -> (rest: &[u8])
        ensures
            rest@ == self.unread(),
    {
        if self.offset <= self.data.len() {
            slice_subrange(self.data, self.offset, self.data.len())
        } else {
            slice_subrange(self.data, 0, 0)
        }
    }
}

/// `s` cut to its first `len` items where it is longer, and extended to
/// `len` items with `fill` where it is shorter.
pub open spec fn padded<T>(s: Seq<T>, len: nat, fill: T) -> Seq<T> {
    if s.len() >= len {
        s.subrange(0, len as int)
    } else {
        s + Seq::new((len - s.len()) as nat, |i: int| fill)
    }
}

/// Extends `v` with `fill` until it holds `len` items.
pub fn pad_to<T: Copy>(v: &mut Vec<T>, len: usize, fill: T)
    requires
        old(v)@.len() <= len,
    ensures
        final(v)@ == padded(old(v)@, len as nat, fill),
{
    let ghost base = v@;
    while v.len() < len
        invariant
            base.len() <= v@.len() <= len,
            v@ =~= base + Seq::new((v@.len() - base.len()) as nat, |i: int| fill),
        decreases len - v@.len(),
    {
        v.push(fill);
    }
    assert(v@ =~= padded(base, len as nat, fill));
}

/// `s` without its NUL characters, the rest in order.
pub open spec fn without_nuls(s: Seq<char>) -> Seq<char> {
    s.filter(|c: char| c != '\0')
}

/// Removes every NUL character from `s` and keeps the rest in order.
pub fn strip_nuls(s: &str) -> (out: String)
    ensures
        out@ == without_nuls(s@),
{
    let ghost keep = |c: char| c != '\0';
    let n: usize = s.unicode_len();
    let mut out = String::new();
    let mut i: usize = 0;
    while i < n
        invariant
            n == s@.len(),
            i <= n,
            keep == |c: char| c != '\0',
            out@ == s@.subrange(0, i as int).filter(keep),
        decreases n - i,
    {
        let c = s.get_char(i);
        proof {
            reveal(Seq::filter);
            assert(s@.subrange(0, i + 1).drop_last() =~= s@.subrange(0, i as int));
        }
        if c != '\0' {
            out.append(s.substring_char(i, i + 1));
            assert(s@.subrange(i as int, i + 1) =~= seq![c]);
            assert(out@ =~= s@.subrange(0, i as int).filter(keep).push(c));
        }
        i += 1;
    }
    proof {
        assert(s@.subrange(0, n as int) =~= s@);
    }
    out
}

} // verus!
