//! Big-endian integers on the wire and a bounds-checked reading cursor.

use vstd::prelude::*;

verus! {

/// The two bytes of `v` in network order.
pub open spec fn be16(v: u16) -> Seq<u8> {
    seq![(v / 256) as u8, (v % 256) as u8]
}

/// The four bytes of `v` in network order.
pub open spec fn be32(v: u32) -> Seq<u8> {
    seq![(v / 0x100_0000) as u8, ((v / 0x1_0000) % 256) as u8, ((v / 256) % 256) as u8, (v % 256) as u8]
}

/// The 16-bit value held by the two bytes of `s` at `pos`.
pub open spec fn read16(s: Seq<u8>, pos: int) -> u16 {
    (s[pos] as int * 256 + s[pos + 1] as int) as u16
}

/// The 32-bit value held by the four bytes of `s` at `pos`.
pub open spec fn read32(s: Seq<u8>, pos: int) -> u32 {
    (s[pos] as int * 0x100_0000 + s[pos + 1] as int * 0x1_0000 + s[pos + 2] as int * 256
        + s[pos + 3] as int) as u32
}

/// Reading back the bytes of a 16-bit value gives the value.
pub proof fn lemma_read16_be16(v: u16, s: Seq<u8>, pos: int)
    requires
        0 <= pos,
        pos + 2 <= s.len(),
        s.subrange(pos, pos + 2) == be16(v),
    ensures
        read16(s, pos) == v,
{
    assert(s[pos] == s.subrange(pos, pos + 2)[0]);
    assert(s[pos + 1] == s.subrange(pos, pos + 2)[1]);
}

/// Reading back the bytes of a 32-bit value gives the value.
pub proof fn lemma_read32_be32(v: u32, s: Seq<u8>, pos: int)
    requires
        0 <= pos,
        pos + 4 <= s.len(),
        s.subrange(pos, pos + 4) == be32(v),
    ensures
        read32(s, pos) == v,
{
    assert(s[pos] == s.subrange(pos, pos + 4)[0]);
    assert(s[pos + 1] == s.subrange(pos, pos + 4)[1]);
    assert(s[pos + 2] == s.subrange(pos, pos + 4)[2]);
    assert(s[pos + 3] == s.subrange(pos, pos + 4)[3]);
}

/// Writing the value read from two bytes reproduces those bytes.
pub proof fn lemma_be16_read16(s: Seq<u8>, pos: int)
    requires
        0 <= pos,
        pos + 2 <= s.len(),
    ensures
        be16(read16(s, pos)) == s.subrange(pos, pos + 2),
{
    assert(be16(read16(s, pos)) =~= s.subrange(pos, pos + 2));
}

/// Writing the value read from four bytes reproduces those bytes.
pub proof fn lemma_be32_read32(s: Seq<u8>, pos: int)
    requires
        0 <= pos,
        pos + 4 <= s.len(),
    ensures
        be32(read32(s, pos)) == s.subrange(pos, pos + 4),
{
    let v = read32(s, pos);
    let (a, b, c, d) = (s[pos] as int, s[pos + 1] as int, s[pos + 2] as int, s[pos + 3] as int);
    assert(v as int == a * 0x100_0000 + b * 0x1_0000 + c * 256 + d);
    assert(v / 0x100_0000 == a) by (nonlinear_arith)
        requires v as int == a * 0x100_0000 + b * 0x1_0000 + c * 256 + d, 0 <= a < 256, 0 <= b < 256, 0 <= c < 256, 0 <= d < 256;
    assert((v / 0x1_0000) % 256 == b) by (nonlinear_arith)
        requires v as int == a * 0x100_0000 + b * 0x1_0000 + c * 256 + d, 0 <= a < 256, 0 <= b < 256, 0 <= c < 256, 0 <= d < 256;
    assert((v / 256) % 256 == c) by (nonlinear_arith)
        requires v as int == a * 0x100_0000 + b * 0x1_0000 + c * 256 + d, 0 <= a < 256, 0 <= b < 256, 0 <= c < 256, 0 <= d < 256;
    assert(v % 256 == d) by (nonlinear_arith)
        requires v as int == a * 0x100_0000 + b * 0x1_0000 + c * 256 + d, 0 <= a < 256, 0 <= b < 256, 0 <= c < 256, 0 <= d < 256;
    assert(be32(v) =~= s.subrange(pos, pos + 4));
}

/// Appends the two bytes of `v` in network order.
pub fn push_u16(target: &mut Vec<u8>, v: u16)
    ensures
        final(target)@ == old(target)@ + be16(v),
{
    target.push((v / 256) as u8);
    target.push((v % 256) as u8);
    assert(final(target)@ =~= old(target)@ + be16(v));
}

/// Appends the four bytes of `v` in network order.
pub fn push_u32(target: &mut Vec<u8>, v: u32)
    ensures
        final(target)@ == old(target)@ + be32(v),
{
    target.push((v / 0x100_0000) as u8);
    target.push(((v / 0x1_0000) % 256) as u8);
    target.push(((v / 256) % 256) as u8);
    target.push((v % 256) as u8);
    assert(final(target)@ =~= old(target)@ + be32(v));
}

/// The buffer ended before a structural field was complete.
#[derive(Clone, Copy, Debug, PartialEq, Eq, Structural)]
pub struct ShortBuf;

/// A reading position inside a message.
///
/// The cursor never moves past the end of its data: a read that would go
/// beyond it fails with `ShortBuf` and leaves the position unchanged.
pub struct Parser {
    data: Vec<u8>,
    pos: usize,
}

impl Parser {
    /// The message bytes.
    pub closed spec fn data(&self) -> Seq<u8> {
        self.data@
    }

    /// The current position.
    pub closed spec fn pos(&self) -> int {
        self.pos as int
    }

    pub closed spec fn wf(&self) -> bool {
        self.pos <= self.data@.len()
    }

    /// A cursor at the start of `data`.
    pub fn from_vec(data: Vec<u8>) -> (r: Parser)
        ensures
            r.wf(),
            r.data() == data@,
            r.pos() == 0,
    {
        Parser { data, pos: 0 }
    }

    /// The message bytes.
    pub fn as_slice(&self) -> (r: &[u8])
        ensures
            r@ == self.data(),
    {
        self.data.as_slice()
    }

    /// The current position.
    pub fn position(&self) -> (r: usize)
        requires
            self.wf(),
        ensures
            r == self.pos(),
    {
        self.pos
    }

    /// The number of bytes left after the current position.
    pub fn remaining(&self) -> (r: usize)
        requires
            self.wf(),
        ensures
            r == self.data().len() - self.pos(),
    {
        self.data.len() - self.pos
    }

    /// Moves the cursor to `pos`, which may lie anywhere within the data.
    pub fn seek(&mut self, pos: usize) -> (r: Result<(), ShortBuf>)
        requires
            old(self).wf(),
        ensures
            final(self).wf(),
            final(self).data() == old(self).data(),
            r is Ok <==> pos <= old(self).data().len(),
            final(self).pos() == if r is Ok { pos as int } else { old(self).pos() },
    {
        if pos <= self.data.len() {
            self.pos = pos;
            Ok(())
        } else {
            Err(ShortBuf)
        }
    }

    /// Moves the cursor `len` bytes forward.
    pub fn advance(&mut self, len: usize) -> (r: Result<(), ShortBuf>)
        requires
            old(self).wf(),
        ensures
            final(self).wf(),
            final(self).data() == old(self).data(),
            r is Ok <==> old(self).pos() + len <= old(self).data().len(),
            final(self).pos() == if r is Ok { old(self).pos() + len } else { old(self).pos() },
    {
        if len <= self.data.len() - self.pos {
            self.pos = self.pos + len;
            Ok(())
        } else {
            Err(ShortBuf)
        }
    }

    /// Reads a big-endian 16-bit integer.
    pub fn parse_u16(&mut self) -> (r: Result<u16, ShortBuf>)
        requires
            old(self).wf(),
        ensures
            final(self).wf(),
            final(self).data() == old(self).data(),
            r is Ok <==> old(self).pos() + 2 <= old(self).data().len(),
            r matches Ok(v) ==> v == read16(old(self).data(), old(self).pos())
                && final(self).pos() == old(self).pos() + 2,
            r is Err ==> final(self).pos() == old(self).pos(),
    {
        if self.data.len() - self.pos < 2 {
            return Err(ShortBuf);
        }
        let v = (self.data[self.pos] as u16) * 256 + self.data[self.pos + 1] as u16;
        self.pos = self.pos + 2;
        Ok(v)
    }

    /// Reads a big-endian 32-bit integer.
    pub fn parse_u32(&mut self) -> (r: Result<u32, ShortBuf>)
        requires
            old(self).wf(),
        ensures
            final(self).wf(),
            final(self).data() == old(self).data(),
            r is Ok <==> old(self).pos() + 4 <= old(self).data().len(),
            r matches Ok(v) ==> v == read32(old(self).data(), old(self).pos())
                && final(self).pos() == old(self).pos() + 4,
            r is Err ==> final(self).pos() == old(self).pos(),
    {
        if self.data.len() - self.pos < 4 {
            return Err(ShortBuf);
        }
        let p = self.pos;
        let v = (self.data[p] as u32) * 0x100_0000 + (self.data[p + 1] as u32) * 0x1_0000
            + (self.data[p + 2] as u32) * 256 + self.data[p + 3] as u32;
        self.pos = p + 4;
        Ok(v)
    }

    /// Copies the next `len` bytes and moves past them.
    pub fn parse_bytes(&mut self, len: usize) -> (r: Result<Vec<u8>, ShortBuf>)
        requires
            old(self).wf(),
        ensures
            final(self).wf(),
            final(self).data() == old(self).data(),
            r is Ok <==> old(self).pos() + len <= old(self).data().len(),
            r matches Ok(v) ==> v@ == old(self).data().subrange(old(self).pos(), old(self).pos() + len)
                && final(self).pos() == old(self).pos() + len,
            r is Err ==> final(self).pos() == old(self).pos(),
    {
        if self.data.len() - self.pos < len {
            return Err(ShortBuf);
        }
        let mut out: Vec<u8> = Vec::new();
        let mut i: usize = self.pos;
        let end: usize = self.pos + len;
        while i < end
            invariant
                self.wf(),
                self.pos <= i <= end,
                end == self.pos + len,
                end <= self.data@.len(),
                out@ == self.data@.subrange(self.pos as int, i as int),
            decreases end - i,
        {
            out.push(self.data[i]);
            i = i + 1;
            assert(out@ =~= self.data@.subrange(self.pos as int, i as int));
        }
        self.pos = end;
        Ok(out)
    }
}

} // verus!
