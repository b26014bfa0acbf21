//! Resource records and their headers: parsing, composing with the data
//! length patched in after the data, and composing with name compression.

use vstd::prelude::*;
use crate::compress::{compressed_name, first_known, new_entries, Compressor};
use crate::iana::{Class, Rtype};
use crate::name::{
    MAX_POINTER_OFFSET, labels_valid, lemma_decode_extend, lemma_decode_name_wire, lemma_name_end_bound, lemma_name_in_full,
    name_end, name_parse_result, name_wire, Dname, NameError,
};
use crate::octets::{
    be16, be32, lemma_be16_read16, lemma_be32_read32, lemma_read16_be16, lemma_read32_be32, push_u16,
    push_u32, read16, read32, Parser, ShortBuf,
};
use crate::rdata::{
    data_parse, data_rtype, data_valid, data_wire, implemented, lemma_data_compose_parse,
    lemma_data_parse_extend, lemma_data_parse_wire, lemma_data_reads_compressed, lemma_name_parse_extend,
    compressed_data, DataError, DataModel,
    RecordData,
};

verus! {

/// The largest TTL: a value with the top bit set is reserved.
pub const MAX_TTL: u32 = 0x7FFF_FFFF;

/// The largest record data.
pub const MAX_RDLEN: usize = 65535;

/// A TTL with its reserved top bit set.
#[derive(Clone, Copy, Debug, PartialEq, Eq, Structural)]
pub struct ParseTtlError;

/// Why a record header could not be read.
#[derive(Clone, Copy, Debug, PartialEq, Eq, Structural)]
pub enum RecordHeaderParseError {
    Name(NameError),
    Ttl(ParseTtlError),
    ShortBuf,
}

/// Why a record could not be read.
#[derive(Clone, Copy, Debug, PartialEq, Eq, Structural)]
pub enum RecordParseError {
    Name(NameError),
    Ttl(ParseTtlError),
    Data(DataError),
    ShortBuf,
}

/// Why a record could not be written.
#[derive(Clone, Copy, Debug, PartialEq, Eq, Structural)]
pub enum ComposeError {
    /// The record data is longer than its 16-bit length field can say.
    LongData,
}

pub open spec fn header_error_to_record(e: RecordHeaderParseError) -> RecordParseError {
    match e {
        RecordHeaderParseError::Name(n) => RecordParseError::Name(n),
        RecordHeaderParseError::Ttl(t) => RecordParseError::Ttl(t),
        RecordHeaderParseError::ShortBuf => RecordParseError::ShortBuf,
    }
}

impl From<RecordHeaderParseError> for RecordParseError {
    fn from(err: RecordHeaderParseError) -> (r: Self) {
        match err {
            RecordHeaderParseError::Name(n) => RecordParseError::Name(n),
            RecordHeaderParseError::Ttl(t) => RecordParseError::Ttl(t),
            RecordHeaderParseError::ShortBuf => RecordParseError::ShortBuf,
        }
    }
}

impl vstd::std_specs::convert::FromSpecImpl<RecordHeaderParseError> for RecordParseError {
    open spec fn obeys_from_spec() -> bool {
        true
    }

    open spec fn from_spec(v: RecordHeaderParseError) -> RecordParseError {
        header_error_to_record(v)
    }
}

impl From<ShortBuf> for RecordHeaderParseError {
    fn from(_err: ShortBuf) -> (r: Self) {
        RecordHeaderParseError::ShortBuf
    }
}

impl vstd::std_specs::convert::FromSpecImpl<ShortBuf> for RecordHeaderParseError {
    open spec fn obeys_from_spec() -> bool {
        true
    }

    open spec fn from_spec(v: ShortBuf) -> RecordHeaderParseError {
        RecordHeaderParseError::ShortBuf
    }
}

impl From<ShortBuf> for RecordParseError {
    fn from(_err: ShortBuf) -> (r: Self) {
        RecordParseError::ShortBuf
    }
}

impl vstd::std_specs::convert::FromSpecImpl<ShortBuf> for RecordParseError {
    open spec fn obeys_from_spec() -> bool {
        true
    }

    open spec fn from_spec(v: ShortBuf) -> RecordParseError {
        RecordParseError::ShortBuf
    }
}

//------------ Models and wire forms -----------------------------------------

/// What a record header holds.
pub struct HeaderModel {
    pub name: Seq<Seq<u8>>,
    pub rtype: Rtype,
    pub class: Class,
    pub ttl: u32,
    pub rdlen: u16,
}

/// What a record holds.
pub struct RecordModel {
    pub name: Seq<Seq<u8>>,
    pub class: Class,
    pub ttl: u32,
    pub data: DataModel,
}

/// The ten bytes after the name of a header.
pub open spec fn header_fields(t: Rtype, c: Class, ttl: u32, rdlen: u16) -> Seq<u8> {
    be16(t.spec_to_int()) + be16(c.spec_to_int()) + be32(ttl) + be16(rdlen)
}

/// The wire form of a record, names written in full.
pub open spec fn record_wire(r: RecordModel) -> Seq<u8> {
    name_wire(r.name) + header_fields(data_rtype(r.data), r.class, r.ttl, data_wire(r.data).len() as u16)
        + data_wire(r.data)
}

/// Whether a record reads back as itself from its wire form.
pub open spec fn record_valid(r: RecordModel) -> bool {
    &&& labels_valid(r.name)
    &&& r.class.canonical()
    &&& r.ttl <= MAX_TTL
    &&& data_valid(r.data)
    &&& data_wire(r.data).len() <= MAX_RDLEN
}

/// The header at `pos` and the position after it, or why there is none.
pub open spec fn header_parse(buf: Seq<u8>, pos: int) -> Result<(HeaderModel, int), RecordHeaderParseError> {
    match name_parse_result(buf, pos) {
        Err(e) => Err(RecordHeaderParseError::Name(e)),
        Ok((name, p)) => if p + 8 > buf.len() {
            Err(RecordHeaderParseError::ShortBuf)
        } else if read32(buf, p + 4) > MAX_TTL {
            Err(RecordHeaderParseError::Ttl(ParseTtlError))
        } else if p + 10 > buf.len() {
            Err(RecordHeaderParseError::ShortBuf)
        } else {
            Ok((
                HeaderModel {
                    name,
                    rtype: Rtype::spec_from_int(read16(buf, p)),
                    class: Class::spec_from_int(read16(buf, p + 2)),
                    ttl: read32(buf, p + 4),
                    rdlen: read16(buf, p + 8),
                },
                p + 10,
            ))
        },
    }
}

/// The record made of header `h` and the data at `start`.
pub open spec fn body_parse(buf: Seq<u8>, h: HeaderModel, start: int) -> Result<RecordModel, RecordParseError> {
    if start + h.rdlen > buf.len() {
        Err(RecordParseError::ShortBuf)
    } else {
        match data_parse(buf, h.rtype, start, h.rdlen as int) {
            Ok(d) => Ok(RecordModel { name: h.name, class: h.class, ttl: h.ttl, data: d }),
            Err(e) => Err(RecordParseError::Data(e)),
        }
    }
}

/// The record at `pos` and the position after it, or why there is none.
pub open spec fn record_parse(buf: Seq<u8>, pos: int) -> Result<(RecordModel, int), RecordParseError> {
    match header_parse(buf, pos) {
        Err(e) => Err(header_error_to_record(e)),
        Ok((h, p)) => match body_parse(buf, h, p) {
            Ok(r) => Ok((r, p + h.rdlen)),
            Err(e) => Err(e),
        },
    }
}

/// The fixed fields of a header read back as written.
proof fn lemma_fields_read(buf: Seq<u8>, p: int, t: Rtype, c: Class, ttl: u32, rdlen: u16)
    requires
        0 <= p,
        p + 10 <= buf.len(),
        buf.subrange(p, p + 10) == header_fields(t, c, ttl, rdlen),
    ensures
        read16(buf, p) == t.spec_to_int(),
        read16(buf, p + 2) == c.spec_to_int(),
        read32(buf, p + 4) == ttl,
        read16(buf, p + 8) == rdlen,
{
    let f = header_fields(t, c, ttl, rdlen);
    assert(buf.subrange(p, p + 2) =~= f.subrange(0, 2));
    assert(f.subrange(0, 2) =~= be16(t.spec_to_int()));
    lemma_read16_be16(t.spec_to_int(), buf, p);
    assert(buf.subrange(p + 2, p + 4) =~= f.subrange(2, 4));
    assert(f.subrange(2, 4) =~= be16(c.spec_to_int()));
    lemma_read16_be16(c.spec_to_int(), buf, p + 2);
    assert(buf.subrange(p + 4, p + 8) =~= f.subrange(4, 8));
    assert(f.subrange(4, 8) =~= be32(ttl));
    lemma_read32_be32(ttl, buf, p + 4);
    assert(buf.subrange(p + 8, p + 10) =~= f.subrange(8, 10));
    assert(f.subrange(8, 10) =~= be16(rdlen));
    lemma_read16_be16(rdlen, buf, p + 8);
}

/// A record whose name reads back from `pos` to `p`, followed by its fixed
/// fields and its data, reads back as the record.
/// A record whose name reads back from `pos` to `p`, followed by its fixed
/// fields with data length `dl` and data that reads back as its data,
/// reads back as the record.
proof fn lemma_record_fields_then_data(buf: Seq<u8>, pos: int, p: int, r: RecordModel, dl: int)
    requires
        0 <= pos <= p,
        0 <= dl <= MAX_RDLEN,
        record_valid(r),
        name_parse_result(buf, pos) == Ok::<(Seq<Seq<u8>>, int), NameError>((r.name, p)),
        p + 10 + dl <= buf.len(),
        buf.subrange(p, p + 10) == header_fields(data_rtype(r.data), r.class, r.ttl, dl as u16),
        data_parse(buf, data_rtype(r.data), p + 10, dl) == Ok::<DataModel, DataError>(r.data),
    ensures
        record_parse(buf, pos) == Ok::<(RecordModel, int), RecordParseError>((r, p + 10 + dl)),
{
    lemma_fields_read(buf, p, data_rtype(r.data), r.class, r.ttl, dl as u16);
    assert(Rtype::spec_from_int(data_rtype(r.data).spec_to_int()) == data_rtype(r.data));
}

proof fn lemma_record_after_name(buf: Seq<u8>, pos: int, p: int, r: RecordModel)
    requires
        0 <= pos <= p,
        record_valid(r),
        name_parse_result(buf, pos) == Ok::<(Seq<Seq<u8>>, int), NameError>((r.name, p)),
        p + 10 + data_wire(r.data).len() <= buf.len(),
        buf.subrange(p, p + 10 + data_wire(r.data).len())
            == header_fields(data_rtype(r.data), r.class, r.ttl, data_wire(r.data).len() as u16) + data_wire(r.data),
    ensures
        record_parse(buf, pos) == Ok::<(RecordModel, int), RecordParseError>((r, p + 10 + data_wire(r.data).len())),
{
    let d = data_wire(r.data);
    let f = header_fields(data_rtype(r.data), r.class, r.ttl, d.len() as u16);
    let all = f + d;
    assert(buf.subrange(p, p + 10) =~= all.subrange(0, 10));
    assert(all.subrange(0, 10) =~= f);
    assert(buf.subrange(p + 10, p + 10 + d.len()) =~= all.subrange(10, all.len() as int));
    assert(all.subrange(10, all.len() as int) =~= d);
    lemma_data_parse_wire(buf, p + 10, r.data);
    lemma_record_fields_then_data(buf, pos, p, r, d.len() as int);
}

/// Parsing the wire form of a valid record gives the record back, and the
/// position just after it.
pub proof fn lemma_record_parse_compose(r: RecordModel, buf: Seq<u8>, pos: int)
    requires
        record_valid(r),
        0 <= pos,
        pos + record_wire(r).len() <= buf.len(),
        buf.subrange(pos, pos + record_wire(r).len()) == record_wire(r),
    ensures
        record_parse(buf, pos) == Ok::<(RecordModel, int), RecordParseError>((r, pos + record_wire(r).len())),
{
    let w = record_wire(r);
    let nw = name_wire(r.name);
    let p = pos + nw.len();
    assert(buf.subrange(pos, p) =~= w.subrange(0, nw.len() as int));
    assert(w.subrange(0, nw.len() as int) =~= nw);
    lemma_decode_name_wire(buf, pos, r.name);
    assert(buf.subrange(p, pos + w.len()) =~= w.subrange(nw.len() as int, w.len() as int));
    assert(w.subrange(nw.len() as int, w.len() as int)
        =~= header_fields(data_rtype(r.data), r.class, r.ttl, data_wire(r.data).len() as u16) + data_wire(r.data));
    lemma_record_after_name(buf, pos, p, r);
}

/// Composing a record read from bytes in which its names are written in
/// full, its owner name and its data each taking the length of their
/// uncompressed form, reproduces those bytes.
pub proof fn lemma_record_compose_parse(buf: Seq<u8>, pos: int)
    requires
        0 <= pos,
        record_parse(buf, pos) is Ok,
        name_end(buf, pos) == pos + name_wire(record_parse(buf, pos)->Ok_0.0.name).len(),
        record_parse(buf, pos)->Ok_0.1 - pos == record_wire(record_parse(buf, pos)->Ok_0.0).len(),
    ensures
        buf.subrange(pos, record_parse(buf, pos)->Ok_0.1) == record_wire(record_parse(buf, pos)->Ok_0.0),
{
    let (r, end) = record_parse(buf, pos)->Ok_0;
    let (h, q) = header_parse(buf, pos)->Ok_0;
    let p = q - 10;
    let d = data_wire(r.data);
    assert(p == name_end(buf, pos));
    lemma_name_in_full(buf, pos, pos);
    lemma_data_compose_parse(buf, h.rtype, q, h.rdlen as int);
    lemma_be16_read16(buf, p);
    lemma_be16_read16(buf, p + 2);
    lemma_be32_read32(buf, p + 4);
    lemma_be16_read16(buf, p + 8);
    assert(buf.subrange(p, p + 10) =~= buf.subrange(p, p + 2) + buf.subrange(p + 2, p + 4)
        + buf.subrange(p + 4, p + 8) + buf.subrange(p + 8, p + 10));
    assert(buf.subrange(pos, end) =~= buf.subrange(pos, p) + buf.subrange(p, p + 10) + buf.subrange(p + 10, end));
}

/// A record read from a message reads the same, and ends at the same
/// place, after more is appended to the message.
pub proof fn lemma_record_parse_extend(a: Seq<u8>, b: Seq<u8>, pos: int)
    requires
        0 <= pos,
        record_parse(a, pos) is Ok,
    ensures
        record_parse(a + b, pos) == record_parse(a, pos),
{
    let c = a + b;
    lemma_name_parse_extend(a, b, pos);
    let (h, q) = header_parse(a, pos)->Ok_0;
    let p = q - 10;
    lemma_name_end_bound(a, pos, pos);
    assert(forall|i: int| p <= i < q ==> c[i] == a[i]);
    lemma_data_parse_extend(a, b, h.rtype, q, h.rdlen as int);
}

/// A buffer that ends before the ten fixed bytes after a well-formed name
/// are complete gives a buffer-exhaustion error, unless the TTL it does hold
/// is reserved.
pub proof fn lemma_header_short_buffer(buf: Seq<u8>, pos: int)
    requires
        name_parse_result(buf, pos) is Ok,
        name_parse_result(buf, pos)->Ok_0.1 + 10 > buf.len(),
        name_parse_result(buf, pos)->Ok_0.1 + 8 <= buf.len()
            ==> read32(buf, name_parse_result(buf, pos)->Ok_0.1 + 4) <= MAX_TTL,
    ensures
        header_parse(buf, pos) == Err::<(HeaderModel, int), RecordHeaderParseError>(RecordHeaderParseError::ShortBuf),
        record_parse(buf, pos) == Err::<(RecordModel, int), RecordParseError>(RecordParseError::ShortBuf),
{
}

/// A record of a type without a variant of its own, whose data lies within
/// the buffer, reads as opaque data holding exactly its data bytes, and
/// reading ends at the end of that data, where the next record begins.
pub proof fn lemma_unknown_type_opaque(buf: Seq<u8>, pos: int)
    requires
        header_parse(buf, pos) is Ok,
        !implemented(header_parse(buf, pos)->Ok_0.0.rtype),
        header_parse(buf, pos)->Ok_0.1 + header_parse(buf, pos)->Ok_0.0.rdlen <= buf.len(),
    ensures
        ({
            let (h, q) = header_parse(buf, pos)->Ok_0;
            record_parse(buf, pos) == Ok::<(RecordModel, int), RecordParseError>((
                RecordModel {
                    name: h.name,
                    class: h.class,
                    ttl: h.ttl,
                    data: DataModel::Unknown(h.rtype, buf.subrange(q, q + h.rdlen)),
                },
                q + h.rdlen,
            ))
        }),
{
}

/// After a record of a type without a variant of its own, a record written
/// in full reads back as itself: the opaque one keeps the framing.
pub proof fn lemma_unknown_then_record(buf: Seq<u8>, pos: int, r: RecordModel)
    requires
        header_parse(buf, pos) is Ok,
        !implemented(header_parse(buf, pos)->Ok_0.0.rtype),
        ({
            let (h, q) = header_parse(buf, pos)->Ok_0;
            &&& q + h.rdlen + record_wire(r).len() <= buf.len()
            &&& buf.subrange(q + h.rdlen, q + h.rdlen + record_wire(r).len()) == record_wire(r)
        }),
        record_valid(r),
    ensures
        ({
            let (h, q) = header_parse(buf, pos)->Ok_0;
            &&& record_parse(buf, pos) matches Ok((first, end)) && end == q + h.rdlen
                && first.data == DataModel::Unknown(h.rtype, buf.subrange(q, q + h.rdlen))
            &&& record_parse(buf, q + h.rdlen) == Ok::<(RecordModel, int), RecordParseError>((r, q + h.rdlen + record_wire(r).len()))
        }),
{
    let (h, q) = header_parse(buf, pos)->Ok_0;
    lemma_name_end_bound(buf, pos, pos);
    lemma_unknown_type_opaque(buf, pos);
    lemma_record_parse_compose(r, buf, q + h.rdlen);
}

/// A record whose data is empty is written with a data length of zero.
pub proof fn lemma_empty_data_rdlength(r: RecordModel)
    requires
        data_wire(r.data).len() == 0,
    ensures
        ({
            let at: int = name_wire(r.name).len() as int + 8;
            record_wire(r).subrange(at, at + 2) == seq![0u8, 0u8]
        }),
{
    let at: int = name_wire(r.name).len() as int + 8;
    assert(record_wire(r).subrange(at, at + 2) =~= seq![0u8, 0u8]);
}

//------------ RecordHeader --------------------------------------------------

/// The header of a resource record.
#[derive(Debug)]
pub struct RecordHeader {
    name: Dname,
    rtype: Rtype,
    class: Class,
    ttl: u32,
    rdlen: u16,
}

impl View for RecordHeader {
    type V = HeaderModel;

    closed spec fn view(&self) -> HeaderModel {
        HeaderModel {
            name: self.name@,
            rtype: self.rtype,
            class: self.class,
            ttl: self.ttl,
            rdlen: self.rdlen,
        }
    }
}

impl RecordHeader {
    /// A header from its parts.
    pub fn new(name: Dname, rtype: Rtype, class: Class, ttl: u32, rdlen: u16) -> (r: Self)
        ensures
            r@ == (HeaderModel { name: name@, rtype, class, ttl, rdlen }),
    {
        RecordHeader { name, rtype, class, ttl, rdlen }
    }

    /// Reads a header. On failure the cursor stays where it was.
    pub fn parse(parser: &mut Parser) -> (r: Result<RecordHeader, RecordHeaderParseError>)
        requires
            old(parser).wf(),
        ensures
            final(parser).wf(),
            final(parser).data() == old(parser).data(),
            match r {
                Ok(h) => header_parse(old(parser).data(), old(parser).pos())
                    == Ok::<(HeaderModel, int), RecordHeaderParseError>((h@, final(parser).pos())),
                Err(e) => header_parse(old(parser).data(), old(parser).pos())
                    == Err::<(HeaderModel, int), RecordHeaderParseError>(e)
                    && final(parser).pos() == old(parser).pos(),
            },
    {
        let start = parser.position();
        let name = match Dname::parse(parser) {
            Ok(n) => n,
            Err(e) => return Err(RecordHeaderParseError::Name(e)),
        };
        let after_name = parser.position();
        if parser.remaining() < 8 {
            let _ = parser.seek(start);
            return Err(RecordHeaderParseError::ShortBuf);
        }
        let rtype = match parser.parse_u16() {
            Ok(v) => Rtype::from_int(v),
            Err(_) => return Err(RecordHeaderParseError::ShortBuf),
        };
        let class = match parser.parse_u16() {
            Ok(v) => Class::from_int(v),
            Err(_) => return Err(RecordHeaderParseError::ShortBuf),
        };
        let ttl = match parser.parse_u32() {
            Ok(v) => v,
            Err(_) => return Err(RecordHeaderParseError::ShortBuf),
        };
        if ttl > MAX_TTL {
            let _ = parser.seek(start);
            return Err(RecordHeaderParseError::Ttl(ParseTtlError));
        }
        let rdlen = match parser.parse_u16() {
            Ok(v) => v,
            Err(_) => {
                let _ = parser.seek(start);
                return Err(RecordHeaderParseError::ShortBuf);
            },
        };
        assert(after_name + 10 == parser.pos());
        Ok(RecordHeader { name, rtype, class, ttl, rdlen })
    }

    /// Reads a header and moves past the record data without reading it.
    pub fn parse_and_skip(parser: &mut Parser) -> (r: Result<RecordHeader, RecordHeaderParseError>)
        requires
            old(parser).wf(),
        ensures
            final(parser).wf(),
            final(parser).data() == old(parser).data(),
            match r {
                Ok(h) => header_parse(old(parser).data(), old(parser).pos()) matches Ok((h2, p))
                    && h2 == h@ && p + h@.rdlen <= old(parser).data().len()
                    && final(parser).pos() == p + h@.rdlen,
                Err(RecordHeaderParseError::ShortBuf) => match header_parse(old(parser).data(), old(parser).pos()) {
                    Ok((h, p)) => p + h.rdlen > old(parser).data().len(),
                    Err(e) => e == RecordHeaderParseError::ShortBuf,
                },
                Err(e) => header_parse(old(parser).data(), old(parser).pos())
                    == Err::<(HeaderModel, int), RecordHeaderParseError>(e),
            },
    {
        let header = Self::parse(parser)?;
        match parser.advance(header.rdlen as usize) {
            Ok(()) => Ok(header),
            Err(_) => Err(RecordHeaderParseError::ShortBuf),
        }
    }

    /// Reads the record data that follows this header and makes the record.
    /// Where the data is malformed, the cursor still moves to the end of
    /// the record, so that the records after it can be read.
    pub fn parse_into_record(self, parser: &mut Parser) -> (r: Result<Record, RecordParseError>)
        requires
            old(parser).wf(),
        ensures
            final(parser).wf(),
            final(parser).data() == old(parser).data(),
            match r {
                Ok(rec) => body_parse(old(parser).data(), self@, old(parser).pos())
                    == Ok::<RecordModel, RecordParseError>(rec@),
                Err(e) => body_parse(old(parser).data(), self@, old(parser).pos())
                    == Err::<RecordModel, RecordParseError>(e),
            },
            final(parser).pos() == if old(parser).pos() + self@.rdlen > old(parser).data().len() {
                old(parser).pos()
            } else {
                old(parser).pos() + self@.rdlen
            },
    {
        let len = self.rdlen as usize;
        if parser.remaining() < len {
            return Err(RecordParseError::ShortBuf);
        }
        let total = parser.as_slice().len();
        assert(parser.pos() + len <= total);
        let end = parser.position() + len;
        match RecordData::parse(self.rtype, parser, len) {
            Ok(data) => Ok(self.into_record(data)),
            Err(e) => {
                let _ = parser.seek(end);
                Err(RecordParseError::Data(e))
            },
        }
    }

    pub fn name(&self) -> (r: &Dname)
        ensures
            r@ == self@.name,
    {
        &self.name
    }

    pub fn rtype(&self) -> (r: Rtype)
        ensures
            r == self@.rtype,
    {
        self.rtype
    }

    pub fn class(&self) -> (r: Class)
        ensures
            r == self@.class,
    {
        self.class
    }

    pub fn ttl(&self) -> (r: u32)
        ensures
            r == self@.ttl,
    {
        self.ttl
    }

    pub fn rdlen(&self) -> (r: u16)
        ensures
            r == self@.rdlen,
    {
        self.rdlen
    }

    /// The record made of this header and `data`.
    pub fn into_record(self, data: RecordData) -> (r: Record)
        ensures
            r@ == (RecordModel { name: self@.name, class: self@.class, ttl: self@.ttl, data: data@ }),
    {
        Record { name: self.name, class: self.class, ttl: self.ttl, data }
    }

    /// The length of the wire form, the name written in full.
    pub fn compose_len(&self) -> (r: usize)
        ensures
            r == name_wire(self@.name).len() + 10,
    {
        proof { use_type_invariant(&self.name); }
        self.name.compose_len() + 10
    }

    /// Appends the header, the name written in full.
    pub fn compose(&self, target: &mut Vec<u8>)
        ensures
            final(target)@ == old(target)@ + name_wire(self@.name)
                + header_fields(self@.rtype, self@.class, self@.ttl, self@.rdlen),
    {
        self.name.compose(target);
        push_u16(target, self.rtype.to_int());
        push_u16(target, self.class.to_int());
        push_u32(target, self.ttl);
        push_u16(target, self.rdlen);
        assert(final(target)@ =~= old(target)@ + name_wire(self@.name)
            + header_fields(self.rtype, self.class, self.ttl, self.rdlen));
    }

    /// Appends the header, the name compressed.
    pub fn compress(&self, buf: &mut Compressor)
        requires
            old(buf).wf(),
        ensures
            final(buf).wf(),
            final(buf).bytes() == old(buf).bytes() + compressed_name(old(buf).table(), self@.name)
                + header_fields(self@.rtype, self@.class, self@.ttl, self@.rdlen),
            name_parse_result(final(buf).bytes(), old(buf).bytes().len() as int)
                == Ok::<(Seq<Seq<u8>>, int), NameError>((self@.name, final(buf).bytes().len() - 10)),
            final(buf).names_before(final(buf).bytes().len() - 10),
            final(buf).table() == old(buf).table() + new_entries(self@.name, old(buf).bytes().len() as int,
                first_known(old(buf).table(), self@.name, 0)),
    {
        let head = RecordHeaderRef { name: &self.name, rtype: self.rtype, class: self.class, ttl: self.ttl };
        head.compress(buf);
        let ghost mid = buf.bytes();
        buf.push_u16(self.rdlen);
        proof {
            let fin = buf.bytes();
            assert(fin =~= old(buf).bytes() + compressed_name(old(buf).table(), self@.name)
                + header_fields(self@.rtype, self@.class, self@.ttl, self@.rdlen));
            assert(fin.subrange(0, mid.len() as int) =~= mid);
            lemma_name_prefix(fin, mid, old(buf).bytes().len() as int);
        }
    }
}

/// A record written as its compressed name, its fixed fields, the data
/// length and data that reads back as its data, reads back as the record.
proof fn lemma_compressed_record(fin: Seq<u8>, h: Seq<u8>, start: int, r: RecordModel, cd: Seq<u8>)
    requires
        0 <= start,
        h.len() >= start + 8,
        name_parse_result(h, start) == Ok::<(Seq<Seq<u8>>, int), NameError>((r.name, h.len() - 8)),
        h.subrange(h.len() - 8, h.len() as int)
            == be16(data_rtype(r.data).spec_to_int()) + be16(r.class.spec_to_int()) + be32(r.ttl),
        cd.len() <= MAX_RDLEN,
        fin == h + be16(cd.len() as u16) + cd,
        record_valid(r) ==> data_parse(fin, data_rtype(r.data), h.len() + 2int, cd.len() as int)
            == Ok::<DataModel, DataError>(r.data),
    ensures
        record_valid(r) ==> record_parse(fin, start) == Ok::<(RecordModel, int), RecordParseError>((r, fin.len() as int)),
{
    let p = h.len() - 8;
    assert(fin.subrange(0, h.len() as int) =~= h);
    lemma_name_prefix(fin, h, start);
    assert(fin.subrange(p, p + 10) =~= header_fields(data_rtype(r.data), r.class, r.ttl, cd.len() as u16)) by {
        assert(fin.subrange(p, h.len() as int) =~= h.subrange(p, h.len() as int));
    };
    if record_valid(r) {
        lemma_record_fields_then_data(fin, start, p, r, cd.len() as int);
    }
}

/// A name read from a prefix of the message reads the same from the whole.
proof fn lemma_name_prefix(buf: Seq<u8>, prefix: Seq<u8>, pos: int)
    requires
        prefix.len() <= buf.len(),
        buf.subrange(0, prefix.len() as int) == prefix,
        crate::name::decode_name(prefix, pos, pos) is Some,
    ensures
        name_parse_result(buf, pos) == name_parse_result(prefix, pos),
{
    lemma_decode_extend(prefix, buf.subrange(prefix.len() as int, buf.len() as int), pos, pos);
    assert(prefix + buf.subrange(prefix.len() as int, buf.len() as int) =~= buf);
}

//------------ Record --------------------------------------------------------

/// A resource record: owner name, class, TTL and data. Its type is that
/// of its data.
#[derive(Debug)]
pub struct Record {
    name: Dname,
    class: Class,
    ttl: u32,
    data: RecordData,
}

impl View for Record {
    type V = RecordModel;

    closed spec fn view(&self) -> RecordModel {
        RecordModel { name: self.name@, class: self.class, ttl: self.ttl, data: self.data@ }
    }
}

impl Record {
    /// A record from its parts.
    pub fn new(name: Dname, class: Class, ttl: u32, data: RecordData) -> (r: Self)
        ensures
            r@ == (RecordModel { name: name@, class, ttl, data: data@ }),
    {
        Record { name, class, ttl, data }
    }

    pub fn name(&self) -> (r: &Dname)
        ensures
            r@ == self@.name,
    {
        &self.name
    }

    /// The record type, which is that of the data.
    pub fn rtype(&self) -> (r: Rtype)
        ensures
            r == data_rtype(self@.data),
    {
        self.data.rtype()
    }

    pub fn class(&self) -> (r: Class)
        ensures
            r == self@.class,
    {
        self.class
    }

    pub fn set_class(&mut self, class: Class)
        ensures
            final(self)@ == (RecordModel { class, ..old(self)@ }),
    {
        self.class = class
    }

    pub fn ttl(&self) -> (r: u32)
        ensures
            r == self@.ttl,
    {
        self.ttl
    }

    pub fn set_ttl(&mut self, ttl: u32)
        ensures
            final(self)@ == (RecordModel { ttl, ..old(self)@ }),
    {
        self.ttl = ttl
    }

    pub fn data(&self) -> (r: &RecordData)
        ensures
            r@ == self@.data,
    {
        &self.data
    }

    pub fn data_mut(&mut self) -> (r: &mut RecordData)
        ensures
            r@ == old(self)@.data,
            final(self)@ == (RecordModel { data: final(r)@, ..old(self)@ }),
    {
        &mut self.data
    }

    /// Trades the record for its data.
    pub fn into_data(self) -> (r: RecordData)
        ensures
            r@ == self@.data,
    {
        self.data
    }

    /// Reads a record. A type without a variant of its own gives opaque
    /// data. Where the data is malformed, the cursor still moves to the end
    /// of the record; where the data runs past the buffer, it stays after
    /// the header; where the header cannot be read, it stays where it was.
    pub fn parse(parser: &mut Parser) -> (r: Result<Record, RecordParseError>)
        requires
            old(parser).wf(),
        ensures
            final(parser).wf(),
            final(parser).data() == old(parser).data(),
            match r {
                Ok(rec) => record_parse(old(parser).data(), old(parser).pos())
                    == Ok::<(RecordModel, int), RecordParseError>((rec@, final(parser).pos())),
                Err(e) => record_parse(old(parser).data(), old(parser).pos())
                    == Err::<(RecordModel, int), RecordParseError>(e),
            },
            match header_parse(old(parser).data(), old(parser).pos()) {
                Ok((h, p)) => final(parser).pos() == if p + h.rdlen > old(parser).data().len() {
                    p
                } else {
                    p + h.rdlen
                },
                Err(_) => final(parser).pos() == old(parser).pos(),
            },
    {
        let header = match RecordHeader::parse(parser) {
            Ok(h) => h,
            Err(e) => return Err(RecordParseError::from(e)),
        };
        header.parse_into_record(parser)
    }

    /// The length of the wire form, names written in full.
    pub fn compose_len(&self) -> (r: usize)
        requires
            name_wire(self@.name).len() + data_wire(self@.data).len() + 10 <= usize::MAX,
        ensures
            r == record_wire(self@).len(),
    {
        proof { use_type_invariant(&self.name); }
        self.name.compose_len() + self.data.compose_len() + 10
    }

    /// Appends the record, names written in full: the header with a
    /// placeholder for the data length, then the data, then the length of
    /// what was written patched into the placeholder. Fails, leaving
    /// `target` as it was, where the data is too long for the field.
    pub fn compose(&self, target: &mut Vec<u8>) -> (r: Result<(), ComposeError>)
        ensures
            r is Err <==> data_wire(self@.data).len() > MAX_RDLEN,
            r is Ok ==> final(target)@ == old(target)@ + record_wire(self@),
            r is Err ==> final(target)@ == old(target)@,
    {
        let start = target.len();
        self.name.compose(target);
        push_u16(target, self.data.rtype().to_int());
        push_u16(target, self.class.to_int());
        push_u32(target, self.ttl);
        let pos = target.len();
        push_u16(target, 0);
        let ghost head = target@;
        self.data.compose(target);
        let len = target.len() - pos - 2;
        if len > MAX_RDLEN {
            target.truncate(start);
            assert(target@ =~= old(target)@);
            return Err(ComposeError::LongData);
        }
        let lo: usize = pos + 1;
        target.set(pos, (len / 256) as u8);
        target.set(lo, (len % 256) as u8);
        assert(target@ =~= old(target)@ + record_wire(self@));
        Ok(())
    }

    /// Appends the record with its names compressed: the owner name, whose
    /// suffixes enter the table, and the names in the data, which point to
    /// names already there. The data length is patched in after the data as
    /// in `compose`. Fails, leaving the message as it was, where the data is
    /// too long for its length field. What was written reads back as this
    /// record.
    #[verifier::rlimit(60)]
    pub fn compress(&self, buf: &mut Compressor) -> (r: Result<(), ComposeError>)
        requires
            old(buf).wf(),
        ensures
            final(buf).wf(),
            r is Err <==> data_wire(self@.data).len() > MAX_RDLEN,
            r is Err ==> *final(buf) == *old(buf),
            r is Ok ==> {
                &&& final(buf).bytes() == old(buf).bytes() + compressed_name(old(buf).table(), self@.name)
                    + header_fields(data_rtype(self@.data), self@.class, self@.ttl,
                        compressed_data(final(buf).table(), self@.data).len() as u16)
                    + compressed_data(final(buf).table(), self@.data)
                &&& final(buf).names_before(final(buf).bytes().len() as int)
                &&& record_valid(self@) ==> record_parse(final(buf).bytes(), old(buf).bytes().len() as int)
                    == Ok::<(RecordModel, int), RecordParseError>((self@, final(buf).bytes().len() as int))
                &&& final(buf).table() == old(buf).table() + new_entries(self@.name, old(buf).bytes().len() as int,
                    first_known(old(buf).table(), self@.name, 0))
            },
    {
        if self.data.compose_len() > MAX_RDLEN {
            return Err(ComposeError::LongData);
        }
        let header = RecordHeaderRef { name: &self.name, rtype: self.data.rtype(), class: self.class, ttl: self.ttl };
        header.compress(buf);
        let ghost h = buf.bytes();
        let ghost t1 = buf.table();
        let pos = buf.len();
        proof { buf.lemma_names_before_mono(pos - 8, pos as int); }
        buf.push_u16(0);
        self.data.compress(buf);
        let ghost cd = compressed_data(t1, self@.data);
        let ghost before_patch = buf.bytes();
        let len = buf.len() - pos - 2;
        buf.patch_u16(pos, len as u16);
        proof {
            assert(before_patch =~= h + be16(0) + cd);
            assert(buf.bytes() =~= h + be16(len as u16) + cd);
            assert(buf.table() == t1);
            buf.lemma_names_before_mono(pos as int, pos + 2);
            if record_valid(self@) {
                assert(buf.bytes().subrange(pos + 2, buf.bytes().len() as int) =~= cd);
                lemma_data_reads_compressed(buf, pos + 2, self@.data);
            }
            lemma_compressed_record(buf.bytes(), h, old(buf).bytes().len() as int, self@, cd);
            buf.lemma_names_within();
            assert(buf.bytes() =~= old(buf).bytes() + compressed_name(old(buf).table(), self@.name)
                + header_fields(data_rtype(self@.data), self@.class, self@.ttl, cd.len() as u16) + cd);
        }
        Ok(())
    }
}

impl From<(Dname, Class, u32, RecordData)> for Record {
    fn from(x: (Dname, Class, u32, RecordData)) -> (r: Self) {
        Record { name: x.0, class: x.1, ttl: x.2, data: x.3 }
    }
}

impl vstd::std_specs::convert::FromSpecImpl<(Dname, Class, u32, RecordData)> for Record {
    open spec fn obeys_from_spec() -> bool {
        true
    }

    closed spec fn from_spec(v: (Dname, Class, u32, RecordData)) -> Record {
        Record { name: v.0, class: v.1, ttl: v.2, data: v.3 }
    }
}

/// A record of class IN from its name, TTL and data.
impl From<(Dname, u32, RecordData)> for Record {
    fn from(x: (Dname, u32, RecordData)) -> (r: Self) {
        Record { name: x.0, class: Class::In, ttl: x.1, data: x.2 }
    }
}

impl vstd::std_specs::convert::FromSpecImpl<(Dname, u32, RecordData)> for Record {
    open spec fn obeys_from_spec() -> bool {
        true
    }

    closed spec fn from_spec(v: (Dname, u32, RecordData)) -> Record {
        Record { name: v.0, class: Class::In, ttl: v.1, data: v.2 }
    }
}

/// A record made from a tuple of its parts holds those parts.
pub proof fn lemma_record_from_parts(x: (Dname, Class, u32, RecordData), y: (Dname, u32, RecordData))
    ensures
        <Record as vstd::std_specs::convert::FromSpec<(Dname, Class, u32, RecordData)>>::from_spec(x)@
            == (RecordModel { name: x.0@, class: x.1, ttl: x.2, data: x.3@ }),
        <Record as vstd::std_specs::convert::FromSpec<(Dname, u32, RecordData)>>::from_spec(y)@
            == (RecordModel { name: y.0@, class: Class::In, ttl: y.1, data: y.2@ }),
{
}

/// The parts of a header borrowed from a record, to compose it.
struct RecordHeaderRef<'a> {
    name: &'a Dname,
    rtype: Rtype,
    class: Class,
    ttl: u32,
}

impl<'a> RecordHeaderRef<'a> {
    /// Appends the name compressed and the type, class and TTL, leaving the
    /// data length to be written by the caller.
    fn compress(&self, buf: &mut Compressor)
        requires
            old(buf).wf(),
        ensures
            final(buf).wf(),
            final(buf).bytes() == old(buf).bytes() + compressed_name(old(buf).table(), self.name@)
                + be16(self.rtype.spec_to_int()) + be16(self.class.spec_to_int()) + be32(self.ttl),
            name_parse_result(final(buf).bytes(), old(buf).bytes().len() as int)
                == Ok::<(Seq<Seq<u8>>, int), NameError>((self.name@, final(buf).bytes().len() - 8)),
            final(buf).bytes().subrange(final(buf).bytes().len() - 8, final(buf).bytes().len() as int)
                == be16(self.rtype.spec_to_int()) + be16(self.class.spec_to_int()) + be32(self.ttl),
            final(buf).names_before(final(buf).bytes().len() - 8),
            final(buf).table() == old(buf).table() + new_entries(self.name@, old(buf).bytes().len() as int,
                first_known(old(buf).table(), self.name@, 0)),
    {
        buf.compress_name(self.name);
        let ghost mid = buf.bytes();
        proof { lemma_name_end_bound(mid, old(buf).bytes().len() as int, old(buf).bytes().len() as int); }
        buf.push_u16(self.rtype.to_int());
        buf.push_u16(self.class.to_int());
        buf.push_u32(self.ttl);
        proof {
            let fin = buf.bytes();
            let f = be16(self.rtype.spec_to_int()) + be16(self.class.spec_to_int()) + be32(self.ttl);
            assert(fin =~= mid + f);
            assert(fin.subrange(0, mid.len() as int) =~= mid);
            assert(fin.subrange(mid.len() as int, fin.len() as int) =~= f);
            lemma_name_prefix(fin, mid, old(buf).bytes().len() as int);
        }
    }
}

} // verus!
