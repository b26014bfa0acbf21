//! EDNS options: the Expire and TCP keepalive options and a builder for
//! an option list.

use vstd::prelude::*;
use crate::octets::{be16, be32, push_u16, push_u32, read16, read32, Parser, ShortBuf};
use crate::octets::{lemma_be16_read16, lemma_be32_read32, lemma_read16_be16, lemma_read32_be32};

verus! {

/// The option code of the Expire option.
pub const EXPIRE_CODE: u16 = 9;

/// The option code of the TCP keepalive option.
pub const TCP_KEEPALIVE_CODE: u16 = 11;

/// The largest length of an option list: it must fit the data length of
/// the record that carries it.
pub const MAX_OPT_LEN: usize = 65535;

/// Why the data of an option could not be read.
#[derive(Clone, Copy, Debug, PartialEq, Eq, Structural)]
pub enum OptParseError {
    /// The message ended before the option data.
    ShortBuf,
    /// The option data has a length the option does not allow.
    Form,
}

/// Whether the `len` bytes at `pos` lie within `data`.
pub open spec fn region_fits(data: Seq<u8>, pos: int, len: int) -> bool {
    pos + len <= data.len()
}

//------------ Expire --------------------------------------------------------

/// The Expire option: the seconds until a secondary's copy of a zone
/// expires, absent when the option only asks for the value.
#[derive(Clone, Copy, Debug, PartialEq, Eq, Structural)]
pub struct Expire(pub Option<u32>);

/// The option data of an Expire value.
pub open spec fn expire_wire(e: Option<u32>) -> Seq<u8> {
    match e {
        Some(v) => be32(v),
        None => seq![],
    }
}

/// What an Expire option data region of `len` bytes at `pos` holds: absent
/// when the region is empty, else the 32-bit value at its start.
pub open spec fn expire_parse(data: Seq<u8>, pos: int, len: int) -> Result<Option<u32>, OptParseError> {
    if !region_fits(data, pos, len) {
        Err(OptParseError::ShortBuf)
    } else if len == 0 {
        Ok(None)
    } else if len < 4 {
        Err(OptParseError::ShortBuf)
    } else {
        Ok(Some(read32(data, pos)))
    }
}

impl Expire {
    pub fn new(expire: Option<u32>) -> (r: Self)
        ensures
            r.0 == expire,
    {
        Expire(expire)
    }

    /// Appends an Expire option to the option list in `builder`.
    pub fn push(builder: &mut OptBuilder, expire: Option<u32>) -> (r: Result<(), ShortBuf>)
        requires
            old(builder).wf(),
        ensures
            final(builder).wf(),
            r is Ok <==> old(builder).bytes().len() + 4 + expire_wire(expire).len() <= MAX_OPT_LEN,
            final(builder).bytes() == if r is Ok {
                old(builder).bytes() + option_wire(EXPIRE_CODE, expire_wire(expire))
            } else {
                old(builder).bytes()
            },
    {
        builder.push(&OptData::Expire(Self::new(expire)))
    }

    pub fn expire(self) -> (r: Option<u32>)
        ensures
            r == self.0,
    {
        self.0
    }

    /// Reads the value from the `len` bytes of option data at the cursor.
    pub fn parse(parser: &mut Parser, len: usize) -> (r: Result<Expire, OptParseError>)
        requires
            old(parser).wf(),
        ensures
            final(parser).wf(),
            final(parser).data() == old(parser).data(),
            match r {
                Ok(e) => expire_parse(old(parser).data(), old(parser).pos(), len as int) == Ok::<Option<u32>, OptParseError>(e.0),
                Err(x) => expire_parse(old(parser).data(), old(parser).pos(), len as int) == Err::<Option<u32>, OptParseError>(x),
            },
            final(parser).pos() == match r {
                Ok(e) => old(parser).pos() + expire_wire(e.0).len(),
                Err(_) => old(parser).pos(),
            },
    {
        if parser.remaining() < len {
            Err(OptParseError::ShortBuf)
        } else if len == 0 {
            Ok(Expire::new(None))
        } else if len < 4 {
            Err(OptParseError::ShortBuf)
        } else {
            match parser.parse_u32() {
                Ok(v) => Ok(Expire::new(Some(v))),
                Err(_) => Err(OptParseError::ShortBuf),
            }
        }
    }

    /// Moves past the `len` bytes of option data at the cursor, failing
    /// where `parse` would.
    pub fn skip(parser: &mut Parser, len: usize) -> (r: Result<(), OptParseError>)
        requires
            old(parser).wf(),
        ensures
            final(parser).wf(),
            final(parser).data() == old(parser).data(),
            r is Ok <==> expire_parse(old(parser).data(), old(parser).pos(), len as int) is Ok,
            r matches Err(e) ==> expire_parse(old(parser).data(), old(parser).pos(), len as int) == Err::<Option<u32>, OptParseError>(e),
            final(parser).pos() == match expire_parse(old(parser).data(), old(parser).pos(), len as int) {
                Ok(e) => old(parser).pos() + expire_wire(e).len(),
                Err(_) => old(parser).pos(),
            },
    {
        if parser.remaining() < len {
            Err(OptParseError::ShortBuf)
        } else if len == 0 {
            Ok(())
        } else if len < 4 {
            Err(OptParseError::ShortBuf)
        } else {
            match parser.advance(4) {
                Ok(()) => Ok(()),
                Err(_) => Err(OptParseError::ShortBuf),
            }
        }
    }

    /// The length of the option data.
    pub fn compose_len(&self) -> (r: usize)
        ensures
            r == expire_wire(self.0).len(),
    {
        match self.0 {
            Some(_) => 4,
            None => 0,
        }
    }

    /// Appends the option data: nothing when absent, four bytes otherwise.
    pub fn compose(&self, target: &mut Vec<u8>)
        ensures
            final(target)@ == old(target)@ + expire_wire(self.0),
    {
        match self.0 {
            Some(v) => push_u32(target, v),
            None => {
                assert(old(target)@ + expire_wire(self.0) =~= old(target)@);
            },
        }
    }
}

/// Parsing the data that an Expire value composes to gives the value back.
pub proof fn lemma_expire_parse_compose(e: Option<u32>, data: Seq<u8>, pos: int)
    requires
        0 <= pos,
        pos + expire_wire(e).len() <= data.len(),
        data.subrange(pos, pos + expire_wire(e).len()) == expire_wire(e),
    ensures
        expire_parse(data, pos, expire_wire(e).len() as int) == Ok::<Option<u32>, OptParseError>(e),
{
    if let Some(v) = e {
        lemma_read32_be32(v, data, pos);
    }
}

/// Composing the value parsed from Expire option data reproduces the bytes
/// it was read from.
pub proof fn lemma_expire_compose_parse(data: Seq<u8>, pos: int, len: int)
    requires
        0 <= pos,
        expire_parse(data, pos, len) is Ok,
    ensures
        expire_wire(expire_parse(data, pos, len)->Ok_0)
            == data.subrange(pos, pos + expire_wire(expire_parse(data, pos, len)->Ok_0).len()),
{
    if len >= 4 {
        lemma_be32_read32(data, pos);
    } else {
        assert(data.subrange(pos, pos) =~= seq![]);
    }
}

//------------ TcpKeepalive --------------------------------------------------

/// The TCP keepalive option: an idle timeout in units of 100 ms, where
/// 0 asks the peer to close promptly.
#[derive(Clone, Copy, Debug, PartialEq, Eq, Structural)]
pub struct TcpKeepalive(pub u16);

/// What a TCP keepalive option data region of `len` bytes at `pos` holds:
/// the 16-bit value at its start.
pub open spec fn tcp_keepalive_parse(data: Seq<u8>, pos: int, len: int) -> Result<u16, OptParseError> {
    if !region_fits(data, pos, len) {
        Err(OptParseError::ShortBuf)
    } else if len < 2 {
        Err(OptParseError::ShortBuf)
    } else {
        Ok(read16(data, pos))
    }
}

impl TcpKeepalive {
    pub fn new(timeout: u16) -> (r: Self)
        ensures
            r.0 == timeout,
    {
        TcpKeepalive(timeout)
    }

    /// Appends a TCP keepalive option to the option list in `builder`.
    pub fn push(builder: &mut OptBuilder, timeout: u16) -> (r: Result<(), ShortBuf>)
        requires
            old(builder).wf(),
        ensures
            final(builder).wf(),
            r is Ok <==> old(builder).bytes().len() + 6 <= MAX_OPT_LEN,
            final(builder).bytes() == if r is Ok {
                old(builder).bytes() + option_wire(TCP_KEEPALIVE_CODE, be16(timeout))
            } else {
                old(builder).bytes()
            },
    {
        builder.push(&OptData::TcpKeepalive(Self::new(timeout)))
    }

    pub fn timeout(self) -> (r: u16)
        ensures
            r == self.0,
    {
        self.0
    }

    /// Reads the timeout from the `len` bytes of option data at the cursor.
    pub fn parse(parser: &mut Parser, len: usize) -> (r: Result<TcpKeepalive, OptParseError>)
        requires
            old(parser).wf(),
        ensures
            final(parser).wf(),
            final(parser).data() == old(parser).data(),
            match r {
                Ok(t) => tcp_keepalive_parse(old(parser).data(), old(parser).pos(), len as int) == Ok::<u16, OptParseError>(t.0),
                Err(x) => tcp_keepalive_parse(old(parser).data(), old(parser).pos(), len as int) == Err::<u16, OptParseError>(x),
            },
            final(parser).pos() == if r is Ok { old(parser).pos() + 2 } else { old(parser).pos() },
    {
        if parser.remaining() < len || len < 2 {
            Err(OptParseError::ShortBuf)
        } else {
            match parser.parse_u16() {
                Ok(v) => Ok(TcpKeepalive::new(v)),
                Err(_) => Err(OptParseError::ShortBuf),
            }
        }
    }

    /// Moves past the `len` bytes of option data at the cursor, failing
    /// where `parse` would.
    pub fn skip(parser: &mut Parser, len: usize) -> (r: Result<(), OptParseError>)
        requires
            old(parser).wf(),
        ensures
            final(parser).wf(),
            final(parser).data() == old(parser).data(),
            r is Ok <==> tcp_keepalive_parse(old(parser).data(), old(parser).pos(), len as int) is Ok,
            r matches Err(e) ==> tcp_keepalive_parse(old(parser).data(), old(parser).pos(), len as int) == Err::<u16, OptParseError>(e),
            final(parser).pos() == if r is Ok { old(parser).pos() + 2 } else { old(parser).pos() },
    {
        if parser.remaining() < len || len < 2 {
            Err(OptParseError::ShortBuf)
        } else {
            match parser.advance(2) {
                Ok(()) => Ok(()),
                Err(_) => Err(OptParseError::ShortBuf),
            }
        }
    }

    /// Appends the option data: always two bytes.
    pub fn compose(&self, target: &mut Vec<u8>)
        ensures
            final(target)@ == old(target)@ + be16(self.0),
    {
        push_u16(target, self.0)
    }
}

/// Parsing the data that a timeout composes to gives the timeout back.
pub proof fn lemma_tcp_keepalive_parse_compose(t: u16, data: Seq<u8>, pos: int)
    requires
        0 <= pos,
        pos + 2 <= data.len(),
        data.subrange(pos, pos + 2) == be16(t),
    ensures
        tcp_keepalive_parse(data, pos, 2) == Ok::<u16, OptParseError>(t),
{
    lemma_read16_be16(t, data, pos);
}

/// Composing the timeout parsed from option data reproduces the bytes it
/// was read from.
pub proof fn lemma_tcp_keepalive_compose_parse(data: Seq<u8>, pos: int, len: int)
    requires
        0 <= pos,
        tcp_keepalive_parse(data, pos, len) is Ok,
    ensures
        be16(tcp_keepalive_parse(data, pos, len)->Ok_0) == data.subrange(pos, pos + 2),
{
    lemma_be16_read16(data, pos);
}

//------------ OptData and OptBuilder ----------------------------------------

/// The data of one option, by kind.
#[derive(Clone, Copy, Debug, PartialEq, Eq, Structural)]
pub enum OptData {
    Expire(Expire),
    TcpKeepalive(TcpKeepalive),
}

impl OptData {
    pub open spec fn spec_code(&self) -> u16 {
        match self {
            OptData::Expire(_) => EXPIRE_CODE,
            OptData::TcpKeepalive(_) => TCP_KEEPALIVE_CODE,
        }
    }

    pub open spec fn wire(&self) -> Seq<u8> {
        match self {
            OptData::Expire(e) => expire_wire(e.0),
            OptData::TcpKeepalive(t) => be16(t.0),
        }
    }

    /// The option code of this kind of option.
    pub fn code(&self) -> (r: u16)
        ensures
            r == self.spec_code(),
    {
        match self {
            OptData::Expire(_) => EXPIRE_CODE,
            OptData::TcpKeepalive(_) => TCP_KEEPALIVE_CODE,
        }
    }

    /// Appends the option data.
    pub fn compose(&self, target: &mut Vec<u8>)
        ensures
            final(target)@ == old(target)@ + self.wire(),
    {
        match self {
            OptData::Expire(e) => e.compose(target),
            OptData::TcpKeepalive(t) => t.compose(target),
        }
    }

    /// Reads the data of an option with code `code` that fills the `len`
    /// bytes at the cursor; `None` for a code of another kind. Data that
    /// leaves bytes of the region unread is an error of form. On failure
    /// the cursor stays where it was.
    pub fn parse(code: u16, parser: &mut Parser, len: usize) -> (r: Result<Option<OptData>, OptParseError>)
        requires
            old(parser).wf(),
        ensures
            final(parser).wf(),
            final(parser).data() == old(parser).data(),
            code == EXPIRE_CODE ==> match expire_parse(old(parser).data(), old(parser).pos(), len as int) {
                Ok(e) => if expire_wire(e).len() == len {
                    r == Ok::<Option<OptData>, OptParseError>(Some(OptData::Expire(Expire(e))))
                } else {
                    r == Err::<Option<OptData>, OptParseError>(OptParseError::Form)
                },
                Err(x) => r == Err::<Option<OptData>, OptParseError>(x),
            },
            code == TCP_KEEPALIVE_CODE ==> match tcp_keepalive_parse(old(parser).data(), old(parser).pos(), len as int) {
                Ok(t) => if len == 2 {
                    r == Ok::<Option<OptData>, OptParseError>(Some(OptData::TcpKeepalive(TcpKeepalive(t))))
                } else {
                    r == Err::<Option<OptData>, OptParseError>(OptParseError::Form)
                },
                Err(x) => r == Err::<Option<OptData>, OptParseError>(x),
            },
            code != EXPIRE_CODE && code != TCP_KEEPALIVE_CODE ==> r == Ok::<Option<OptData>, OptParseError>(None),
            final(parser).pos() == if r matches Ok(Some(_)) {
                old(parser).pos() + len
            } else {
                old(parser).pos()
            },
    {
        let start = parser.position();
        if code == EXPIRE_CODE {
            match Expire::parse(parser, len) {
                Ok(e) => if e.compose_len() == len {
                    Ok(Some(OptData::Expire(e)))
                } else {
                    let _ = parser.seek(start);
                    Err(OptParseError::Form)
                },
                Err(err) => Err(err),
            }
        } else if code == TCP_KEEPALIVE_CODE {
            match TcpKeepalive::parse(parser, len) {
                Ok(t) => if len == 2 {
                    Ok(Some(OptData::TcpKeepalive(t)))
                } else {
                    let _ = parser.seek(start);
                    Err(OptParseError::Form)
                },
                Err(err) => Err(err),
            }
        } else {
            Ok(None)
        }
    }
}

/// An option entry: code, data length, data.
pub open spec fn option_wire(code: u16, data: Seq<u8>) -> Seq<u8> {
    be16(code) + be16(data.len() as u16) + data
}

/// The data of an OPT record under construction: a list of options.
pub struct OptBuilder {
    target: Vec<u8>,
}

impl OptBuilder {
    /// The options written so far.
    pub closed spec fn bytes(&self) -> Seq<u8> {
        self.target@
    }

    pub closed spec fn wf(&self) -> bool {
        self.target@.len() <= MAX_OPT_LEN
    }

    /// An empty option list.
    pub fn new() -> (r: OptBuilder)
        ensures
            r.wf(),
            r.bytes() == Seq::<u8>::empty(),
    {
        OptBuilder { target: Vec::new() }
    }

    /// The options written so far.
    pub fn as_slice(&self) -> (r: &[u8])
        ensures
            r@ == self.bytes(),
    {
        self.target.as_slice()
    }

    /// Trades the builder for the options written.
    pub fn finish(self) -> (r: Vec<u8>)
        ensures
            r@ == self.bytes(),
    {
        self.target
    }

    /// Appends one option entry: code, data length, data; fails, leaving the list as it was, where the list would
    /// outgrow `MAX_OPT_LEN`.
    pub fn push(&mut self, data: &OptData) -> (r: Result<(), ShortBuf>)
        requires
            old(self).wf(),
        ensures
            final(self).wf(),
            r is Ok <==> old(self).bytes().len() + 4 + data.wire().len() <= MAX_OPT_LEN,
            final(self).bytes() == if r is Ok {
                old(self).bytes() + option_wire(data.spec_code(), data.wire())
            } else {
                old(self).bytes()
            },
    {
        let start = self.target.len();
        let len = match data {
            OptData::Expire(e) => e.compose_len(),
            OptData::TcpKeepalive(_) => 2,
        };
        if start + 4 + len > MAX_OPT_LEN {
            return Err(ShortBuf);
        }
        push_u16(&mut self.target, data.code());
        push_u16(&mut self.target, len as u16);
        data.compose(&mut self.target);
        assert(self.target@ =~= old(self).bytes() + option_wire(data.spec_code(), data.wire()));
        Ok(())
    }
}

} // verus!
