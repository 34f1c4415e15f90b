use vstd::prelude::*;
use crate::error::WPPkgFsError;

verus! {

/// Byte order of the multi-byte integers a stream decodes.
#[derive(Debug, Clone, Copy, PartialEq, Eq, Structural)]
pub enum Endian {
    BigEndian,
    LittleEndian,
}

/// `256` raised to the `n`th power.
pub open spec fn pow256(n: nat) -> nat
    decreases n,
{
    if n == 0 {
        1
    } else {
        256 * pow256((n - 1) as nat)
    }
}

/// The unsigned integer whose least significant byte comes first.
pub open spec fn le_value(s: Seq<u8>) -> nat
    decreases s.len(),
{
    if s.len() == 0 {
        0
    } else {
        s[0] as nat + 256 * le_value(s.drop_first())
    }
}

/// The unsigned integer whose most significant byte comes first.
pub open spec fn be_value(s: Seq<u8>) -> nat
    decreases s.len(),
{
    if s.len() == 0 {
        0
    } else {
        be_value(s.drop_last()) * 256 + s.last() as nat
    }
}

/// The unsigned integer that the bytes `s` encode in byte order `e`.
pub open spec fn uint_of(s: Seq<u8>, e: Endian) -> nat {
    match e {
        Endian::BigEndian => be_value(s),
        Endian::LittleEndian => le_value(s),
    }
}

/// The two's-complement reading of a 32-bit pattern.
pub open spec fn i32_of_bits(v: nat) -> int {
    if v < 0x8000_0000 {
        v as int
    } else {
        v - 0x1_0000_0000
    }
}

/// Whether `width` bytes are available at position `pos` of `d`.
pub open spec fn available(d: Seq<u8>, pos: int, width: int) -> bool {
    0 <= pos && pos + width <= d.len()
}

pub proof fn lemma_pow256_pos(n: nat)
    ensures
        pow256(n) >= 1,
    decreases n,
{
    if n > 0 {
        lemma_pow256_pos((n - 1) as nat);
    }
}

pub proof fn lemma_le_bound(s: Seq<u8>)
    ensures
        le_value(s) < pow256(s.len()),
    decreases s.len(),
{
    if s.len() > 0 {
        lemma_le_bound(s.drop_first());
    }
}

pub proof fn lemma_be_bound(s: Seq<u8>)
    ensures
        be_value(s) < pow256(s.len()),
    decreases s.len(),
{
    if s.len() > 0 {
        lemma_be_bound(s.drop_last());
    }
}

pub proof fn lemma_uint_bound(s: Seq<u8>, e: Endian)
    ensures
        uint_of(s, e) < pow256(s.len()),
{
    lemma_le_bound(s);
    lemma_be_bound(s);
}

/// Decodes `width` bytes of `d` starting at `pos` in byte order `e`.
pub fn decode_uint(d: &Vec<u8>, pos: usize, width: usize, e: Endian) -> (r: u64)
    requires
        width <= 8,
        pos + width <= d@.len(),
    ensures
        r as nat == uint_of(d@.subrange(pos as int, pos + width), e),
{
    proof {
        lemma_uint_bound(d@.subrange(pos as int, pos + width), e);
        reveal_with_fuel(pow256, 9);
    }
    let n: usize = d.len();
    let mut acc: u64 = 0;
    match e {
        Endian::BigEndian => {
            let mut i: usize = 0;
            while i < width
                invariant
                    i <= width <= 8,
                    pos + width <= d@.len() == n,
                    acc as nat == be_value(d@.subrange(pos as int, pos + i)),
                decreases width - i,
            {
                let ghost prefix = d@.subrange(pos as int, pos + i + 1);
                proof {
                    assert(prefix.drop_last() =~= d@.subrange(pos as int, pos + i));
                    lemma_be_bound(d@.subrange(pos as int, pos + i));
                    reveal_with_fuel(pow256, 9);
                    lemma_pow_mono(i as nat, 7);
                }
                acc = acc * 256 + d[pos + i] as u64;
                i = i + 1;
            }
        },
        Endian::LittleEndian => {
            let mut i: usize = width;
            while i > 0
                invariant
                    i <= width <= 8,
                    pos + width <= d@.len() == n,
                    acc as nat == le_value(d@.subrange(pos + i, pos + width)),
                decreases i,
            {
                let ghost tail = d@.subrange(pos + i - 1, pos + width);
                proof {
                    assert(tail.drop_first() =~= d@.subrange(pos + i, pos + width));
                    lemma_le_bound(d@.subrange(pos + i, pos + width));
                    reveal_with_fuel(pow256, 9);
                    lemma_pow_mono((width - i) as nat, 7);
                }
                acc = acc * 256 + d[pos + i - 1] as u64;
                i = i - 1;
            }
            assert(d@.subrange(pos as int, pos + width) =~= d@.subrange(pos + i, pos + width));
        },
    }
    acc
}

pub proof fn lemma_pow_mono(a: nat, b: nat)
    requires
        a <= b,
    ensures
        pow256(a) <= pow256(b),
    decreases b,
{
    if a < b {
        lemma_pow_mono(a, (b - 1) as nat);
        lemma_pow256_pos((b - 1) as nat);
    }
}

/// What `String::from_utf8` makes of a byte sequence: the decoded text,
/// or nothing when the bytes are not valid UTF-8.
pub uninterp spec fn utf8_decode(b: Seq<u8>) -> Option<Seq<char>>;

/// Relies on `String::from_utf8`: it succeeds exactly on valid UTF-8, and
/// its result depends on the bytes alone.
#[verifier::external_body]
fn decode_utf8(b: Vec<u8>) -> (r: Option<String>)
    ensures
        match r {
            Some(s) => utf8_decode(b@) == Some(s@),
            None => utf8_decode(b@) is None,
        },
{
    String::from_utf8(b).ok()
}

/// The bytes of a `u32`-length-prefixed record at `pos`, and the position
/// just past it.
pub open spec fn sized_bytes_at(d: Seq<u8>, pos: int, e: Endian) -> Result<(Seq<u8>, int), WPPkgFsError> {
    if !available(d, pos, 4) {
        Err(WPPkgFsError::UnexpectedEof)
    } else {
        let n = uint_of(d.subrange(pos, pos + 4), e) as int;
        if !available(d, pos + 4, n) {
            Err(WPPkgFsError::UnexpectedEof)
        } else {
            Ok((d.subrange(pos + 4, pos + 4 + n), pos + 4 + n))
        }
    }
}

/// The text of a `u32`-length-prefixed UTF-8 string at `pos`, and the
/// position just past it.
pub open spec fn sized_string_at(d: Seq<u8>, pos: int, e: Endian) -> Result<(Seq<char>, int), WPPkgFsError> {
    match sized_bytes_at(d, pos, e) {
        Err(err) => Err(err),
        Ok((b, next)) => match utf8_decode(b) {
            None => Err(WPPkgFsError::InvalidUtf8),
            Some(s) => Ok((s, next)),
        },
    }
}

/// A cursor over an in-memory copy of a binary source, decoding integers in
/// a configurable byte order.
pub struct FsBinaryStream {
    data: Vec<u8>,
    pos: u64,
    endian: Endian,
}

impl FsBinaryStream {
    /// The bytes of the source.
    pub closed spec fn content(&self) -> Seq<u8> {
        self.data@
    }

    /// The absolute offset of the next read.
    pub closed spec fn pos(&self) -> u64 {
        self.pos
    }

    /// The byte order of integer reads.
    pub closed spec fn order(&self) -> Endian {
        self.endian
    }

    /// The stream is unchanged but for its position, now `p`.
    pub open spec fn moved_to(&self, before: &Self, p: int) -> bool {
        &&& self.content() == before.content()
        &&& self.order() == before.order()
        &&& self.pos() as int == p
    }

    /// The `n` bytes that the next read of width `n` consumes.
    pub open spec fn next_bytes(&self, n: int) -> Seq<u8> {
        self.content().subrange(self.pos() as int, self.pos() + n)
    }

    /// Whether `n` bytes remain from the current position.
    pub open spec fn has(&self, n: int) -> bool {
        available(self.content(), self.pos() as int, n)
    }

    /// A little-endian stream positioned at the start of `data`.
    pub fn new(data: Vec<u8>) -> (r: Self)
        ensures
            r.content() == data@,
            r.pos() == 0,
            r.order() == Endian::LittleEndian,
    {
        FsBinaryStream { data, pos: 0, endian: Endian::LittleEndian }
    }

    pub fn get_endian(&self) -> (r: Endian)
        ensures
            r == self.order(),
    {
        self.endian
    }

    pub fn set_endian(&mut self, endian: Endian)
        ensures
            final(self).content() == old(self).content(),
            final(self).pos() == old(self).pos(),
            final(self).order() == endian,
    {
        self.endian = endian;
    }

    pub fn get_position(&self) -> (r: u64)
        ensures
            r == self.pos(),
    {
        self.pos
    }

    /// Moves to an absolute offset; an offset past the end makes later reads fail.
    pub fn set_position(&mut self, pos: u64)
        ensures
            final(self).moved_to(old(self), pos as int),
    {
        self.pos = pos;
    }

    /// Moves back to the start of the source.
    pub fn reposition(&mut self)
        ensures
            final(self).moved_to(old(self), 0),
    {
        self.set_position(0);
    }

    /// The index of the next read, if `width` bytes are available there.
    fn index_for(&self, width: usize) -> (r: Option<usize>)
        ensures
            r is Some <==> available(self.content(), self.pos() as int, width as int),
            r matches Some(i) ==> i == self.pos() && i + width <= self.content().len() <= usize::MAX,
    {
        let len: usize = self.data.len();
        if self.pos <= len as u64 && width <= len - self.pos as usize {
            Some(self.pos as usize)
        } else {
            None
        }
    }

    pub fn read_u16(&mut self) -> (r: Result<u16, WPPkgFsError>)
        ensures
            r is Ok <==> old(self).has(2),
            r matches Ok(v) ==> v as nat == uint_of(old(self).next_bytes(2), old(self).order())
                && final(self).moved_to(old(self), old(self).pos() + 2),
            r matches Err(e) ==> e == WPPkgFsError::UnexpectedEof && final(self).moved_to(old(self), old(self).pos() as int),
    {
        let v = self.read_uint(2)?;
        proof {
            lemma_le_bound(old(self).next_bytes(2));
            lemma_be_bound(old(self).next_bytes(2));
            reveal_with_fuel(pow256, 9);
        }
        Ok(v as u16)
    }

    pub fn read_u32(&mut self) -> (r: Result<u32, WPPkgFsError>)
        ensures
            r is Ok <==> old(self).has(4),
            r matches Ok(v) ==> v as nat == uint_of(old(self).next_bytes(4), old(self).order())
                && final(self).moved_to(old(self), old(self).pos() + 4),
            r matches Err(e) ==> e == WPPkgFsError::UnexpectedEof && final(self).moved_to(old(self), old(self).pos() as int),
    {
        let v = self.read_uint(4)?;
        proof {
            lemma_le_bound(old(self).next_bytes(4));
            lemma_be_bound(old(self).next_bytes(4));
            reveal_with_fuel(pow256, 9);
        }
        Ok(v as u32)
    }

    pub fn read_u64(&mut self) -> (r: Result<u64, WPPkgFsError>)
        ensures
            r is Ok <==> old(self).has(8),
            r matches Ok(v) ==> v as nat == uint_of(old(self).next_bytes(8), old(self).order())
                && final(self).moved_to(old(self), old(self).pos() + 8),
            r matches Err(e) ==> e == WPPkgFsError::UnexpectedEof && final(self).moved_to(old(self), old(self).pos() as int),
    {
        let v = self.read_uint(8)?;
        proof {
            lemma_le_bound(old(self).next_bytes(8));
            lemma_be_bound(old(self).next_bytes(8));
            reveal_with_fuel(pow256, 9);
        }
        Ok(v as u64)
    }

    pub fn read_u8(&mut self) -> (r: Result<u8, WPPkgFsError>)
        ensures
            r is Ok <==> old(self).has(1),
            r matches Ok(v) ==> v == old(self).content()[old(self).pos() as int]
                && final(self).moved_to(old(self), old(self).pos() + 1),
            r matches Err(e) ==> e == WPPkgFsError::UnexpectedEof && final(self).moved_to(old(self), old(self).pos() as int),
    {
        let v = self.read_uint(1)?;
        proof {
            let b = old(self).next_bytes(1);
            assert(b.drop_first() =~= Seq::<u8>::empty());
            assert(b.drop_last() =~= Seq::<u8>::empty());
            reveal_with_fuel(le_value, 2);
            reveal_with_fuel(be_value, 2);
        }
        Ok(v as u8)
    }

    /// Reads four bytes as a two's-complement integer.
    pub fn read_i32(&mut self) -> (r: Result<i32, WPPkgFsError>)
        ensures
            r is Ok <==> old(self).has(4),
            r matches Ok(v) ==> v as int == i32_of_bits(uint_of(old(self).next_bytes(4), old(self).order()))
                && final(self).moved_to(old(self), old(self).pos() + 4),
            r matches Err(e) ==> e == WPPkgFsError::UnexpectedEof && final(self).moved_to(old(self), old(self).pos() as int),
    {
        let v = self.read_uint(4)?;
        proof {
            lemma_uint_bound(old(self).next_bytes(4), old(self).order());
            reveal_with_fuel(pow256, 5);
        }
        if v < 0x8000_0000 {
            Ok(v as i32)
        } else {
            Ok(((v - 0x8000_0000) as i32) - 0x7FFF_FFFF - 1)
        }
    }

    /// Fills `buf` with the next `buf.len()` bytes.
    pub fn read(&mut self, buf: &mut Vec<u8>) -> (r: Result<(), WPPkgFsError>)
        ensures
            r is Ok <==> old(self).has(old(buf)@.len() as int),
            r is Ok ==> final(buf)@ == old(self).next_bytes(old(buf)@.len() as int)
                && final(self).moved_to(old(self), old(self).pos() + old(buf)@.len()),
            r matches Err(e) ==> e == WPPkgFsError::UnexpectedEof && final(self).moved_to(old(self), old(self).pos() as int)
                && *final(buf) == *old(buf),
    {
        let width: usize = buf.len();
        match self.index_for(width) {
            None => Err(WPPkgFsError::UnexpectedEof),
            Some(start) => {
                let mut i: usize = 0;
                while i < width
                    invariant
                        i <= width == buf@.len() == old(buf)@.len(),
                        start + width <= self.data@.len() <= usize::MAX,
                        start == self.pos,
                        forall|k: int| 0 <= k < i ==> buf@[k] == self.data@[start + k],
                    decreases width - i,
                {
                    buf.set(i, self.data[start + i]);
                    i = i + 1;
                }
                assert(buf@ =~= self.next_bytes(width as int));
                self.pos = (start + width) as u64;
                Ok(())
            },
        }
    }

    /// Reads a `u32` length in the stream's byte order, then that many bytes
    /// as UTF-8 text. On failure the stream is left where it was.
    pub fn read_sized_string(&mut self) -> (r: Result<String, WPPkgFsError>)
        ensures
            match r {
                Ok(s) => {
                    &&& sized_string_at(old(self).content(), old(self).pos() as int, old(self).order())
                        == Ok::<(Seq<char>, int), WPPkgFsError>((s@, final(self).pos() as int))
                    &&& final(self).content() == old(self).content()
                    &&& final(self).order() == old(self).order()
                },
                Err(e) => {
                    &&& sized_string_at(old(self).content(), old(self).pos() as int, old(self).order())
                        == Err::<(Seq<char>, int), WPPkgFsError>(e)
                    &&& final(self).moved_to(old(self), old(self).pos() as int)
                },
            },
    {
        let n = self.read_uint(4)?;
        proof {
            lemma_uint_bound(old(self).next_bytes(4), old(self).order());
            reveal_with_fuel(pow256, 5);
        }
        let len: usize = self.data.len();
        if n > len as u64 || (n as usize) > len - self.pos as usize {
            self.pos = self.pos - 4;
            assert(!available(old(self).content(), old(self).pos() + 4, n as int));
            return Err(WPPkgFsError::UnexpectedEof);
        }
        let mut buf: Vec<u8> = Vec::new();
        let start: usize = self.pos as usize;
        let stop: usize = start + n as usize;
        let mut i: usize = start;
        while i < stop
            invariant
                start <= i <= stop <= self.data@.len(),
                buf@ =~= self.data@.subrange(start as int, i as int),
            decreases stop - i,
        {
            buf.push(self.data[i]);
            i = i + 1;
        }
        proof {
            let d = old(self).content();
            let p = old(self).pos() as int;
            assert(sized_bytes_at(d, p, old(self).order()) == Ok::<(Seq<u8>, int), WPPkgFsError>((buf@, stop as int)));
        }
        match decode_utf8(buf) {
            None => {
                self.pos = self.pos - 4;
                Err(WPPkgFsError::InvalidUtf8)
            },
            Some(s) => {
                self.pos = stop as u64;
                assert(sized_string_at(old(self).content(), old(self).pos() as int, old(self).order())
                    == Ok::<(Seq<char>, int), WPPkgFsError>((s@, stop as int)));
                Ok(s)
            },
        }
    }

    fn read_uint(&mut self, width: usize) -> (r: Result<u64, WPPkgFsError>)
        requires
            width <= 8,
        ensures
            match r {
                Ok(v) => {
                    &&& available(old(self).content(), old(self).pos() as int, width as int)
                    &&& v as nat == uint_of(
                        old(self).content().subrange(old(self).pos() as int, old(self).pos() + width),
                        old(self).order(),
                    )
                    &&& final(self).moved_to(old(self), old(self).pos() + width)
                },
                Err(e) => {
                    &&& !available(old(self).content(), old(self).pos() as int, width as int)
                    &&& e == WPPkgFsError::UnexpectedEof
                    &&& final(self).moved_to(old(self), old(self).pos() as int)
                },
            },
    {
        match self.index_for(width) {
            None => Err(WPPkgFsError::UnexpectedEof),
            Some(i) => {
                let v = decode_uint(&self.data, i, width, self.endian);
                self.pos = (i + width) as u64;
                Ok(v)
            },
        }
    }
}

} // verus!
