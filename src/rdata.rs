//! Record data: one variant per record type implemented here, and an
//! opaque variant that keeps the data of any other type as raw bytes.

use vstd::prelude::*;
use crate::compress::{compressed_name, Compressor};
use crate::iana::Rtype;
use crate::name::{labels_valid, lemma_decode_extend, lemma_decode_name_wire, lemma_name_in_full, name_parse_result, name_wire, Dname, NameError};
use crate::octets::{
    be16, be32, lemma_be16_read16, lemma_be32_read32, lemma_read16_be16, lemma_read32_be32, push_u16,
    push_u32, read16, read32, Parser,
};

verus! {

/// The data of a record.
#[derive(Debug)]
pub enum RecordData {
    /// An IPv4 address.
    A(u32),
    /// An authoritative name server.
    Ns(Dname),
    /// The canonical name of an alias.
    Cname(Dname),
    /// A mail exchange: its preference and its name.
    Mx(u16, Dname),
    /// The data of a type not implemented here, kept verbatim.
    Unknown(Rtype, Vec<u8>),
}

/// What record data holds.
pub enum DataModel {
    A(u32),
    Ns(Seq<Seq<u8>>),
    Cname(Seq<Seq<u8>>),
    Mx(u16, Seq<Seq<u8>>),
    Unknown(Rtype, Seq<u8>),
}

impl View for RecordData {
    type V = DataModel;

    open spec fn view(&self) -> DataModel {
        match self {
            RecordData::A(a) => DataModel::A(*a),
            RecordData::Ns(n) => DataModel::Ns(n@),
            RecordData::Cname(n) => DataModel::Cname(n@),
            RecordData::Mx(p, n) => DataModel::Mx(*p, n@),
            RecordData::Unknown(t, b) => DataModel::Unknown(*t, b@),
        }
    }
}

/// Whether a type has its own variant of record data.
pub open spec fn implemented(t: Rtype) -> bool {
    t == Rtype::A || t == Rtype::Ns || t == Rtype::Cname || t == Rtype::Mx
}

/// The record type of the data.
pub open spec fn data_rtype(d: DataModel) -> Rtype {
    match d {
        DataModel::A(_) => Rtype::A,
        DataModel::Ns(_) => Rtype::Ns,
        DataModel::Cname(_) => Rtype::Cname,
        DataModel::Mx(_, _) => Rtype::Mx,
        DataModel::Unknown(t, _) => t,
    }
}

/// Whether the data can be written and read back as it is: its names are
/// valid, and opaque data has a type that no other variant covers.
pub open spec fn data_valid(d: DataModel) -> bool {
    match d {
        DataModel::A(_) => true,
        DataModel::Ns(n) => labels_valid(n),
        DataModel::Cname(n) => labels_valid(n),
        DataModel::Mx(_, n) => labels_valid(n),
        DataModel::Unknown(t, _) => t.canonical() && !implemented(t),
    }
}

/// The wire form of the data, names written in full.
pub open spec fn data_wire(d: DataModel) -> Seq<u8> {
    match d {
        DataModel::A(a) => be32(a),
        DataModel::Ns(n) => name_wire(n),
        DataModel::Cname(n) => name_wire(n),
        DataModel::Mx(p, n) => be16(p) + name_wire(n),
        DataModel::Unknown(_, b) => b,
    }
}

/// The wire form of the data with its names compressed against table `t`.
pub open spec fn compressed_data(t: Seq<(Seq<Seq<u8>>, u16)>, d: DataModel) -> Seq<u8> {
    match d {
        DataModel::A(a) => be32(a),
        DataModel::Ns(n) => compressed_name(t, n),
        DataModel::Cname(n) => compressed_name(t, n),
        DataModel::Mx(p, n) => be16(p) + compressed_name(t, n),
        DataModel::Unknown(_, b) => b,
    }
}

/// Whether the names in the data are valid.
pub open spec fn names_valid(d: DataModel) -> bool {
    match d {
        DataModel::Ns(n) => labels_valid(n),
        DataModel::Cname(n) => labels_valid(n),
        DataModel::Mx(_, n) => labels_valid(n),
        _ => true,
    }
}

/// Data written compressed at the end of a message, after every name in
/// the table, reads back as the data.
pub proof fn lemma_data_reads_compressed(c: &Compressor, q: int, d: DataModel)
    requires
        c.wf(),
        names_valid(d),
        d matches DataModel::Unknown(t, _) ==> !implemented(t),
        0 <= q,
        c.names_before(q),
        q + compressed_data(c.table(), d).len() == c.bytes().len(),
        c.bytes().subrange(q, c.bytes().len() as int) == compressed_data(c.table(), d),
    ensures
        data_parse(c.bytes(), data_rtype(d), q, compressed_data(c.table(), d).len() as int)
            == Ok::<DataModel, DataError>(d),
{
    let buf = c.bytes();
    let w = compressed_data(c.table(), d);
    match d {
        DataModel::A(a) => {
            assert(buf.subrange(q, q + 4) == be32(a));
            lemma_read32_be32(a, buf, q);
        },
        DataModel::Ns(n) => {
            c.lemma_reads_compressed(q, n);
        },
        DataModel::Cname(n) => {
            c.lemma_reads_compressed(q, n);
        },
        DataModel::Mx(p, n) => {
            assert(buf.subrange(q, q + 2) =~= w.subrange(0, 2));
            assert(w.subrange(0, 2) =~= be16(p));
            lemma_read16_be16(p, buf, q);
            assert(buf.subrange(q + 2, buf.len() as int) =~= w.subrange(2, w.len() as int));
            assert(w.subrange(2, w.len() as int) =~= compressed_name(c.table(), n));
            c.lemma_names_before_mono(q, q + 2);
            c.lemma_reads_compressed(q + 2, n);
        },
        DataModel::Unknown(t, b) => {
        },
    }
}

/// Why record data could not be read.
#[derive(Clone, Copy, Debug, PartialEq, Eq, Structural)]
pub enum DataError {
    /// The data does not have the length its type requires.
    Form,
    /// A name in the data is malformed.
    Name(NameError),
}

/// A name that must fill the data up to `end`.
pub open spec fn name_in_data(buf: Seq<u8>, pos: int, end: int) -> Result<Seq<Seq<u8>>, DataError> {
    match name_parse_result(buf, pos) {
        Ok((n, e)) => if e == end {
            Ok(n)
        } else {
            Err(DataError::Form)
        },
        Err(e) => Err(DataError::Name(e)),
    }
}

/// What the `len` bytes of data at `start` hold for a record of type `t`;
/// the bytes lie within `buf`, and names in them may point anywhere before.
pub open spec fn data_parse(buf: Seq<u8>, t: Rtype, start: int, len: int) -> Result<DataModel, DataError> {
    if t == Rtype::A {
        if len == 4 {
            Ok(DataModel::A(read32(buf, start)))
        } else {
            Err(DataError::Form)
        }
    } else if t == Rtype::Ns {
        match name_in_data(buf, start, start + len) {
            Ok(n) => Ok(DataModel::Ns(n)),
            Err(e) => Err(e),
        }
    } else if t == Rtype::Cname {
        match name_in_data(buf, start, start + len) {
            Ok(n) => Ok(DataModel::Cname(n)),
            Err(e) => Err(e),
        }
    } else if t == Rtype::Mx {
        if len < 2 {
            Err(DataError::Form)
        } else {
            match name_in_data(buf, start + 2, start + len) {
                Ok(n) => Ok(DataModel::Mx(read16(buf, start), n)),
                Err(e) => Err(e),
            }
        }
    } else {
        Ok(DataModel::Unknown(t, buf.subrange(start, start + len)))
    }
}

/// Data written in full at `start` reads back as the same data.
pub proof fn lemma_data_parse_wire(buf: Seq<u8>, start: int, d: DataModel)
    requires
        0 <= start,
        data_valid(d),
        start + data_wire(d).len() <= buf.len(),
        buf.subrange(start, start + data_wire(d).len()) == data_wire(d),
    ensures
        data_parse(buf, data_rtype(d), start, data_wire(d).len() as int) == Ok::<DataModel, DataError>(d),
{
    let w = data_wire(d);
    match d {
        DataModel::A(a) => {
            lemma_read32_be32(a, buf, start);
        },
        DataModel::Ns(n) => {
            lemma_decode_name_wire(buf, start, n);
        },
        DataModel::Cname(n) => {
            lemma_decode_name_wire(buf, start, n);
        },
        DataModel::Mx(p, n) => {
            assert(buf.subrange(start, start + 2) =~= w.subrange(0, 2));
            assert(w.subrange(0, 2) =~= be16(p));
            lemma_read16_be16(p, buf, start);
            assert(buf.subrange(start + 2, start + w.len()) =~= w.subrange(2, w.len() as int));
            assert(w.subrange(2, w.len() as int) =~= name_wire(n));
            lemma_decode_name_wire(buf, start + 2, n);
        },
        DataModel::Unknown(t, b) => {
        },
    }
}

/// A name that fills data up to `end`, where that is the length of its
/// uncompressed form, is written in full.
proof fn lemma_name_in_data_full(buf: Seq<u8>, pos: int, end: int)
    requires
        0 <= pos,
        name_in_data(buf, pos, end) is Ok,
        end - pos == name_wire(name_in_data(buf, pos, end)->Ok_0).len(),
    ensures
        buf.subrange(pos, end) == name_wire(name_in_data(buf, pos, end)->Ok_0),
{
    lemma_name_in_full(buf, pos, pos);
}

/// Data read from bytes whose length is that of the data's uncompressed
/// form composes back to those bytes, and has the type it was read as.
pub proof fn lemma_data_compose_parse(buf: Seq<u8>, t: Rtype, start: int, len: int)
    requires
        0 <= start,
        start + len <= buf.len(),
        data_parse(buf, t, start, len) is Ok,
        len == data_wire(data_parse(buf, t, start, len)->Ok_0).len(),
    ensures
        data_wire(data_parse(buf, t, start, len)->Ok_0) == buf.subrange(start, start + len),
        data_rtype(data_parse(buf, t, start, len)->Ok_0) == t,
{
    if t == Rtype::A {
        lemma_be32_read32(buf, start);
    } else if t == Rtype::Ns || t == Rtype::Cname {
        lemma_name_in_data_full(buf, start, start + len);
    } else if t == Rtype::Mx {
        lemma_be16_read16(buf, start);
        lemma_name_in_data_full(buf, start + 2, start + len);
        assert(buf.subrange(start, start + len) =~= buf.subrange(start, start + 2) + buf.subrange(start + 2, start + len));
    }
}

/// A name read from a message reads the same after more is appended.
pub proof fn lemma_name_parse_extend(a: Seq<u8>, b: Seq<u8>, pos: int)
    requires
        name_parse_result(a, pos) is Ok,
    ensures
        name_parse_result(a + b, pos) == name_parse_result(a, pos),
{
    lemma_decode_extend(a, b, pos, pos);
}

/// Data read from a message reads the same after more is appended.
pub proof fn lemma_data_parse_extend(a: Seq<u8>, b: Seq<u8>, t: Rtype, start: int, len: int)
    requires
        0 <= start,
        0 <= len,
        start + len <= a.len(),
        data_parse(a, t, start, len) is Ok,
    ensures
        data_parse(a + b, t, start, len) == data_parse(a, t, start, len),
{
    let c = a + b;
    if t == Rtype::A {
        assert(c[start] == a[start] && c[start + 1] == a[start + 1] && c[start + 2] == a[start + 2] && c[start + 3] == a[start + 3]);
    } else if t == Rtype::Ns || t == Rtype::Cname {
        lemma_name_parse_extend(a, b, start);
    } else if t == Rtype::Mx {
        assert(c[start] == a[start] && c[start + 1] == a[start + 1]);
        lemma_name_parse_extend(a, b, start + 2);
    } else {
        assert(c.subrange(start, start + len) =~= a.subrange(start, start + len));
    }
}

impl RecordData {
    /// The record type of the data.
    pub fn rtype(&self) -> (r: Rtype)
        ensures
            r == data_rtype(self@),
    {
        match self {
            RecordData::A(_) => Rtype::A,
            RecordData::Ns(_) => Rtype::Ns,
            RecordData::Cname(_) => Rtype::Cname,
            RecordData::Mx(_, _) => Rtype::Mx,
            RecordData::Unknown(t, _) => *t,
        }
    }

    /// The length of the wire form.
    pub fn compose_len(&self) -> (r: usize)
        ensures
            r == data_wire(self@).len(),
    {
        match self {
            RecordData::A(_) => 4,
            RecordData::Ns(n) => n.compose_len(),
            RecordData::Cname(n) => n.compose_len(),
            RecordData::Mx(_, n) => {
                proof { use_type_invariant(n); }
                2 + n.compose_len()
            },
            RecordData::Unknown(_, b) => b.len(),
        }
    }

    /// Appends the wire form, names written in full.
    pub fn compose(&self, target: &mut Vec<u8>)
        ensures
            final(target)@ == old(target)@ + data_wire(self@),
    {
        match self {
            RecordData::A(a) => push_u32(target, *a),
            RecordData::Ns(n) => n.compose(target),
            RecordData::Cname(n) => n.compose(target),
            RecordData::Mx(p, n) => {
                push_u16(target, *p);
                n.compose(target);
                assert(final(target)@ =~= old(target)@ + data_wire(self@));
            },
            RecordData::Unknown(_, b) => {
                let mut i: usize = 0;
                while i < b.len()
                    invariant
                        i <= b@.len(),
                        target@ == old(target)@ + b@.subrange(0, i as int),
                    decreases b.len() - i,
                {
                    target.push(b[i]);
                    i = i + 1;
                    assert(target@ =~= old(target)@ + b@.subrange(0, i as int));
                }
                assert(b@.subrange(0, i as int) =~= b@);
            },
        }
    }

    /// Appends the data, its names compressed against the names already
    /// in the message. The names in the data are not entered in the table.
    pub fn compress(&self, buf: &mut Compressor)
        requires
            old(buf).wf(),
        ensures
            final(buf).wf(),
            final(buf).bytes() == old(buf).bytes() + compressed_data(old(buf).table(), self@),
            final(buf).bytes().len() <= old(buf).bytes().len() + data_wire(self@).len(),
            final(buf).table() == old(buf).table(),
            forall|n: int| old(buf).names_before(n) ==> final(buf).names_before(n),
            names_valid(self@),
    {
        match self {
            RecordData::A(a) => buf.push_u32(*a),
            RecordData::Ns(n) => {
                proof { use_type_invariant(n); }
                buf.compress_name_unentered(n)
            },
            RecordData::Cname(n) => {
                proof { use_type_invariant(n); }
                buf.compress_name_unentered(n)
            },
            RecordData::Mx(p, n) => {
                proof { use_type_invariant(n); }
                buf.push_u16(*p);
                buf.compress_name_unentered(n);
                assert(final(buf).bytes() =~= old(buf).bytes() + compressed_data(old(buf).table(), self@));
            },
            RecordData::Unknown(_, b) => buf.push_bytes(b.as_slice()),
        }
    }

    /// Reads a name that must end exactly at `end`.
    fn parse_name_in(parser: &mut Parser, end: usize) -> (r: Result<Dname, DataError>)
        requires
            old(parser).wf(),
        ensures
            final(parser).wf(),
            final(parser).data() == old(parser).data(),
            match r {
                Ok(n) => name_in_data(old(parser).data(), old(parser).pos(), end as int)
                    == Ok::<Seq<Seq<u8>>, DataError>(n@) && final(parser).pos() == end,
                Err(e) => name_in_data(old(parser).data(), old(parser).pos(), end as int)
                    == Err::<Seq<Seq<u8>>, DataError>(e),
            },
    {
        match Dname::parse(parser) {
            Ok(n) => if parser.position() == end {
                Ok(n)
            } else {
                Err(DataError::Form)
            },
            Err(e) => Err(DataError::Name(e)),
        }
    }

    /// Reads the `len` bytes of data of a record of type `rtype` at the
    /// cursor. Types without a variant of their own give opaque data.
    /// The cursor ends after the data where it was read, and is left
    /// unspecified within the message otherwise.
    pub fn parse(rtype: Rtype, parser: &mut Parser, len: usize) -> (r: Result<RecordData, DataError>)
        requires
            old(parser).wf(),
            old(parser).pos() + len <= old(parser).data().len(),
        ensures
            final(parser).wf(),
            final(parser).data() == old(parser).data(),
            match r {
                Ok(d) => data_parse(old(parser).data(), rtype, old(parser).pos(), len as int)
                    == Ok::<DataModel, DataError>(d@)
                    && final(parser).pos() == old(parser).pos() + len,
                Err(e) => data_parse(old(parser).data(), rtype, old(parser).pos(), len as int)
                    == Err::<DataModel, DataError>(e),
            },
    {
        let start = parser.position();
        let total = parser.as_slice().len();
        assert(start + len <= total);
        let end = start + len;
        match rtype {
            Rtype::A => {
                if len != 4 {
                    return Err(DataError::Form);
                }
                match parser.parse_u32() {
                    Ok(a) => Ok(RecordData::A(a)),
                    Err(_) => Err(DataError::Form),
                }
            },
            Rtype::Ns => match Self::parse_name_in(parser, end) {
                Ok(n) => Ok(RecordData::Ns(n)),
                Err(e) => Err(e),
            },
            Rtype::Cname => match Self::parse_name_in(parser, end) {
                Ok(n) => Ok(RecordData::Cname(n)),
                Err(e) => Err(e),
            },
            Rtype::Mx => {
                if len < 2 {
                    return Err(DataError::Form);
                }
                let pref = match parser.parse_u16() {
                    Ok(p) => p,
                    Err(_) => return Err(DataError::Form),
                };
                match Self::parse_name_in(parser, end) {
                    Ok(n) => Ok(RecordData::Mx(pref, n)),
                    Err(e) => Err(e),
                }
            },
            _ => match parser.parse_bytes(len) {
                Ok(b) => Ok(RecordData::Unknown(rtype, b)),
                Err(_) => Err(DataError::Form),
            },
        }
    }
}

} // verus!
