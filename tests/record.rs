use domain::compress::Compressor;
use domain::iana::{Class, Rtype};
use domain::name::{Dname, NameError};
use domain::octets::{Parser, ShortBuf};
use domain::rdata::{DataError, RecordData};
use domain::record::{ComposeError, Record, RecordHeader, RecordHeaderParseError, RecordParseError};

fn dname(s: &str) -> Dname {
    let labels: Vec<Vec<u8>> = if s.is_empty() {
        Vec::new()
    } else {
        s.split('.').map(|l| l.as_bytes().to_vec()).collect()
    };
    Dname::from_labels(labels).unwrap()
}

fn labels_of(n: &Dname) -> Vec<Vec<u8>> {
    (0..n.label_count()).map(|i| n.label(i).to_vec()).collect()
}

fn dotted(n: &Dname) -> String {
    labels_of(n)
        .iter()
        .map(|l| String::from_utf8(l.clone()).unwrap())
        .collect::<Vec<_>>()
        .join(".")
}

const A_EXAMPLE: [u8; 29] = [
    1, b'a', 7, b'e', b'x', b'a', b'm', b'p', b'l', b'e', 3, b'c', b'o', b'm', 0, // name
    0, 1, 0, 1, 0, 0, 0x0e, 0x10, 0, 4, // type A, class IN, ttl 3600, rdlen 4
    192, 0, 2, 1,
];

#[test]
fn compose_a_record() {
    let rec = Record::new(dname("a.example.com"), Class::In, 3600, RecordData::A(0xc000_0201));
    let mut out = Vec::new();
    rec.compose(&mut out).unwrap();
    assert_eq!(out, A_EXAMPLE.to_vec());
    assert_eq!(rec.compose_len(), 29);
}

#[test]
fn parse_a_record() {
    let mut p = Parser::from_vec(A_EXAMPLE.to_vec());
    let rec = Record::parse(&mut p).unwrap();
    assert_eq!(dotted(rec.name()), "a.example.com");
    assert_eq!(rec.rtype(), Rtype::A);
    assert_eq!(rec.class(), Class::In);
    assert_eq!(rec.ttl(), 3600);
    assert!(matches!(rec.data(), RecordData::A(0xc000_0201)));
    assert_eq!(p.position(), 29);
}

#[test]
fn round_trip_mx_record() {
    let rec = Record::new(dname("example.org"), Class::Ch, 60, RecordData::Mx(10, dname("mail.example.org")));
    let mut out = Vec::new();
    rec.compose(&mut out).unwrap();
    let mut p = Parser::from_vec(out.clone());
    let back = Record::parse(&mut p).unwrap();
    assert_eq!(dotted(back.name()), "example.org");
    assert_eq!(back.class(), Class::Ch);
    assert_eq!(back.ttl(), 60);
    match back.data() {
        RecordData::Mx(pref, n) => {
            assert_eq!(*pref, 10);
            assert_eq!(dotted(n), "mail.example.org");
        }
        _ => panic!("not an MX record"),
    }
    let mut again = Vec::new();
    back.compose(&mut again).unwrap();
    assert_eq!(again, out);
}

#[test]
fn header_short_buffer() {
    let bytes = A_EXAMPLE[..24].to_vec();
    let mut p = Parser::from_vec(bytes);
    assert_eq!(RecordHeader::parse(&mut p).unwrap_err(), RecordHeaderParseError::ShortBuf);
    assert_eq!(p.position(), 0);
    let mut q = Parser::from_vec(A_EXAMPLE[..24].to_vec());
    assert_eq!(Record::parse(&mut q).unwrap_err(), RecordParseError::ShortBuf);
}

#[test]
fn header_parse_and_skip() {
    let mut bytes = A_EXAMPLE.to_vec();
    bytes.push(0xaa);
    let mut p = Parser::from_vec(bytes);
    let h = RecordHeader::parse_and_skip(&mut p).unwrap();
    assert_eq!(h.rdlen(), 4);
    assert_eq!(h.rtype(), Rtype::A);
    assert_eq!(h.ttl(), 3600);
    assert_eq!(h.class(), Class::In);
    assert_eq!(dotted(h.name()), "a.example.com");
    assert_eq!(p.position(), 29);
    let mut q = Parser::from_vec(A_EXAMPLE[..27].to_vec());
    assert_eq!(RecordHeader::parse_and_skip(&mut q).unwrap_err(), RecordHeaderParseError::ShortBuf);
}

#[test]
fn reserved_ttl_is_an_error() {
    let mut bytes = A_EXAMPLE.to_vec();
    bytes[19] = 0x80;
    let mut p = Parser::from_vec(bytes);
    assert!(matches!(Record::parse(&mut p), Err(RecordParseError::Ttl(_))));
}

#[test]
fn malformed_name_is_an_error() {
    let mut p = Parser::from_vec(vec![0x40, 0, 0, 1]);
    assert_eq!(Record::parse(&mut p).unwrap_err(), RecordParseError::Name(NameError::Malformed));
    let mut q = Parser::from_vec(vec![0xc0, 0x05]);
    assert_eq!(Dname::parse(&mut q).unwrap_err(), NameError::Malformed);
}

#[test]
fn long_name_is_an_error() {
    let mut bytes = Vec::new();
    for _ in 0..5 {
        bytes.push(63);
        bytes.extend(std::iter::repeat(b'x').take(63));
    }
    bytes.push(0);
    let mut p = Parser::from_vec(bytes);
    assert_eq!(Dname::parse(&mut p).unwrap_err(), NameError::LongName);
}

#[test]
fn unrecognized_type_is_kept_opaque() {
    let mut bytes = vec![0, 0xff, 0x00, 0, 1, 0, 0, 0, 0, 0, 5, 9, 8, 7, 6, 5];
    bytes.extend_from_slice(&A_EXAMPLE);
    let mut p = Parser::from_vec(bytes.clone());
    let first = Record::parse(&mut p).unwrap();
    assert_eq!(first.rtype(), Rtype::Int(0xff00));
    match first.data() {
        RecordData::Unknown(t, b) => {
            assert_eq!(*t, Rtype::Int(0xff00));
            assert_eq!(b, &vec![9, 8, 7, 6, 5]);
        }
        _ => panic!("not opaque"),
    }
    let second = Record::parse(&mut p).unwrap();
    assert_eq!(dotted(second.name()), "a.example.com");
    assert_eq!(p.position(), bytes.len());
    let mut out = Vec::new();
    first.compose(&mut out).unwrap();
    assert_eq!(out, bytes[..16].to_vec());
}

#[test]
fn malformed_data_keeps_framing() {
    let mut bytes = vec![0, 0, 1, 0, 1, 0, 0, 0, 0, 0, 3, 1, 2, 3];
    bytes.extend_from_slice(&A_EXAMPLE);
    let mut p = Parser::from_vec(bytes);
    assert_eq!(Record::parse(&mut p).unwrap_err(), RecordParseError::Data(DataError::Form));
    assert_eq!(p.position(), 14);
    let next = Record::parse(&mut p).unwrap();
    assert_eq!(dotted(next.name()), "a.example.com");
}

#[test]
fn ns_name_must_fill_data() {
    let mut bytes = vec![0, 0, 2, 0, 1, 0, 0, 0, 0, 0, 2, 0, 0];
    let mut p = Parser::from_vec(bytes.clone());
    assert_eq!(Record::parse(&mut p).unwrap_err(), RecordParseError::Data(DataError::Form));
    assert_eq!(p.position(), 13);
    bytes[10] = 1;
    bytes.pop();
    let mut q = Parser::from_vec(bytes);
    let rec = Record::parse(&mut q).unwrap();
    assert!(matches!(rec.data(), RecordData::Ns(n) if n.label_count() == 0));
}

#[test]
fn compression_shares_suffix() {
    let mut c = Compressor::new();
    let r1 = Record::new(dname("a.example.com"), Class::In, 3600, RecordData::A(0xc000_0201));
    let r2 = Record::new(dname("b.example.com"), Class::In, 3600, RecordData::A(0xc000_0202));
    r1.compress(&mut c).unwrap();
    assert_eq!(c.len(), 29);
    r2.compress(&mut c).unwrap();
    let bytes = c.finish();
    assert_eq!(bytes[..29].to_vec(), A_EXAMPLE.to_vec());
    assert_eq!(bytes[29..33].to_vec(), vec![1, b'b', 0xc0, 2]);
    assert_eq!(bytes.len(), 29 + 4 + 14);
    let mut p = Parser::from_vec(bytes);
    let a = Record::parse(&mut p).unwrap();
    let b = Record::parse(&mut p).unwrap();
    assert_eq!(dotted(a.name()), "a.example.com");
    assert_eq!(dotted(b.name()), "b.example.com");
    assert!(matches!(b.data(), RecordData::A(0xc000_0202)));
}

#[test]
fn compression_whole_name_repeated() {
    let mut c = Compressor::new();
    let r = Record::new(dname("example.com"), Class::In, 1, RecordData::Unknown(Rtype::Txt, vec![1, b'x']));
    r.compress(&mut c).unwrap();
    r.compress(&mut c).unwrap();
    let bytes = c.finish();
    assert_eq!(bytes[25..27].to_vec(), vec![0xc0, 0]);
    let mut p = Parser::from_vec(bytes);
    Record::parse(&mut p).unwrap();
    let again = Record::parse(&mut p).unwrap();
    assert_eq!(dotted(again.name()), "example.com");
}

#[test]
fn zero_length_data_has_zero_rdlength() {
    let rec = Record::new(dname(""), Class::In, 0, RecordData::Unknown(Rtype::Opt, Vec::new()));
    let mut out = Vec::new();
    rec.compose(&mut out).unwrap();
    assert_eq!(out, vec![0, 0, 41, 0, 1, 0, 0, 0, 0, 0, 0]);
    let mut c = Compressor::new();
    rec.compress(&mut c).unwrap();
    assert_eq!(c.as_slice().to_vec(), out);
}

#[test]
fn too_long_data_is_an_error() {
    let rec = Record::new(dname("x"), Class::In, 0, RecordData::Unknown(Rtype::Txt, vec![0; 65536]));
    let mut out = vec![7];
    assert_eq!(rec.compose(&mut out), Err(ComposeError::LongData));
    assert_eq!(out, vec![7]);
    let mut c = Compressor::new();
    assert_eq!(rec.compress(&mut c), Err(ComposeError::LongData));
    assert_eq!(c.len(), 0);
}

#[test]
fn record_setters() {
    let mut rec = Record::new(dname("a"), Class::In, 5, RecordData::A(1));
    rec.set_class(Class::Hs);
    rec.set_ttl(9);
    *rec.data_mut() = RecordData::A(2);
    assert_eq!(rec.class(), Class::Hs);
    assert_eq!(rec.ttl(), 9);
    assert!(matches!(rec.into_data(), RecordData::A(2)));
}

#[test]
fn header_into_record() {
    let h = RecordHeader::new(dname("a.b"), Rtype::A, Class::In, 7, 4);
    let mut out = Vec::new();
    h.compose(&mut out);
    assert_eq!(out.len(), h.compose_len());
    out.extend_from_slice(&[10, 0, 0, 1]);
    let mut p = Parser::from_vec(out);
    let parsed = RecordHeader::parse(&mut p).unwrap();
    let rec = parsed.parse_into_record(&mut p).unwrap();
    assert!(matches!(rec.data(), RecordData::A(0x0a00_0001)));
    let rec2 = RecordHeader::new(dname("c"), Rtype::A, Class::In, 1, 0).into_record(RecordData::A(3));
    assert_eq!(dotted(rec2.name()), "c");
}

#[test]
fn type_and_class_codes() {
    assert_eq!(Rtype::from_int(15), Rtype::Mx);
    assert_eq!(Rtype::Aaaa.to_int(), 28);
    assert_eq!(Rtype::from_int(999), Rtype::Int(999));
    assert_eq!(Class::from_int(255), Class::Any);
    assert_eq!(Class::Int(7).to_int(), 7);
}

#[test]
fn names_from_labels() {
    assert!(Dname::from_labels(vec![Vec::new()]).is_none());
    assert!(Dname::from_labels(vec![vec![b'a'; 64]]).is_none());
    assert!(Dname::from_labels(vec![vec![b'a'; 63]; 4]).is_none());
    assert!(Dname::from_labels(vec![vec![b'a'; 63], vec![b'a'; 63], vec![b'a'; 63], vec![b'a'; 61]]).is_some());
    assert_eq!(Dname::root().label_count(), 0);
}

#[test]
fn record_from_tuples() {
    let r: Record = (dname("a"), Class::Ch, 5u32, RecordData::A(1)).into();
    assert_eq!(r.class(), Class::Ch);
    assert_eq!(r.ttl(), 5);
    let s: Record = (dname("b"), 6u32, RecordData::A(2)).into();
    assert_eq!(s.class(), Class::In);
    assert_eq!(s.ttl(), 6);
    assert_eq!(dotted(s.name()), "b");
}

#[test]
fn parse_ignores_bytes_after_record() {
    let mut bytes = A_EXAMPLE.to_vec();
    bytes.extend_from_slice(&[0xff, 0xff, 0xff]);
    let mut p = Parser::from_vec(bytes);
    let rec = Record::parse(&mut p).unwrap();
    assert_eq!(dotted(rec.name()), "a.example.com");
    assert_eq!(p.position(), 29);
    assert_eq!(p.remaining(), 3);
}

#[test]
fn errors_from_short_buf() {
    assert_eq!(RecordHeaderParseError::from(ShortBuf), RecordHeaderParseError::ShortBuf);
    assert_eq!(RecordParseError::from(ShortBuf), RecordParseError::ShortBuf);
    assert_eq!(
        RecordParseError::from(RecordHeaderParseError::Name(NameError::LongName)),
        RecordParseError::Name(NameError::LongName)
    );
}

#[test]
fn compression_inside_data() {
    let mut c = Compressor::new();
    let r1 = Record::new(dname("example.com"), Class::In, 60, RecordData::A(1));
    let r2 = Record::new(dname("example.com"), Class::In, 60, RecordData::Mx(5, dname("mail.example.com")));
    r1.compress(&mut c).unwrap();
    assert_eq!(c.len(), 27);
    r2.compress(&mut c).unwrap();
    let bytes = c.finish();
    // owner name: pointer to offset 0; data: preference, "mail", pointer to 0
    assert_eq!(bytes[27..29].to_vec(), vec![0xc0, 0]);
    assert_eq!(bytes[37..39].to_vec(), vec![0, 9]);
    assert_eq!(bytes[39..].to_vec(), vec![0, 5, 4, b'm', b'a', b'i', b'l', 0xc0, 0]);
    let mut p = Parser::from_vec(bytes);
    Record::parse(&mut p).unwrap();
    let mx = Record::parse(&mut p).unwrap();
    match mx.data() {
        RecordData::Mx(pref, n) => {
            assert_eq!(*pref, 5);
            assert_eq!(dotted(n), "mail.example.com");
        }
        _ => panic!("not an MX record"),
    }
}
