use domain::octets::Parser;
use domain::opt::{
    Expire, OptBuilder, OptData, OptParseError, TcpKeepalive, EXPIRE_CODE, TCP_KEEPALIVE_CODE,
};

#[test]
fn expire_absent_from_empty_region() {
    let mut p = Parser::from_vec(vec![]);
    let e = Expire::parse(&mut p, 0).unwrap();
    assert_eq!(e.expire(), None);
    let mut out = Vec::new();
    e.compose(&mut out);
    assert!(out.is_empty());
}

#[test]
fn expire_present_3600() {
    let mut p = Parser::from_vec(vec![0x00, 0x00, 0x0E, 0x10]);
    let e = Expire::parse(&mut p, 4).unwrap();
    assert_eq!(e.expire(), Some(3600));
    assert_eq!(p.position(), 4);
    let mut out = Vec::new();
    Expire::new(Some(3600)).compose(&mut out);
    assert_eq!(out, vec![0x00, 0x00, 0x0E, 0x10]);
}

#[test]
fn expire_bad_length() {
    let mut p = Parser::from_vec(vec![1, 2, 3]);
    assert_eq!(Expire::parse(&mut p, 3), Err(OptParseError::ShortBuf));
    assert_eq!(Expire::parse(&mut p, 4), Err(OptParseError::ShortBuf));
    assert_eq!(p.position(), 0);
    assert_eq!(Expire::skip(&mut p, 2), Err(OptParseError::ShortBuf));
    assert_eq!(Expire::skip(&mut p, 0), Ok(()));
}

#[test]
fn expire_skip_moves_past_value() {
    let mut p = Parser::from_vec(vec![0, 0, 0, 5, 9]);
    assert_eq!(Expire::skip(&mut p, 4), Ok(()));
    assert_eq!(p.position(), 4);
}

#[test]
fn tcp_keepalive_150() {
    let mut p = Parser::from_vec(vec![0x00, 0x96]);
    let t = TcpKeepalive::parse(&mut p, 2).unwrap();
    assert_eq!(t.timeout(), 150);
    let mut out = Vec::new();
    TcpKeepalive::new(150).compose(&mut out);
    assert_eq!(out, vec![0x00, 0x96]);
}

#[test]
fn tcp_keepalive_errors() {
    let mut p = Parser::from_vec(vec![0x01]);
    assert_eq!(TcpKeepalive::parse(&mut p, 2), Err(OptParseError::ShortBuf));
    assert_eq!(TcpKeepalive::parse(&mut p, 1), Err(OptParseError::ShortBuf));
    assert_eq!(TcpKeepalive::skip(&mut p, 1), Err(OptParseError::ShortBuf));
    let mut q = Parser::from_vec(vec![0x01, 0x02]);
    assert_eq!(TcpKeepalive::skip(&mut q, 2), Ok(()));
    assert_eq!(q.position(), 2);
}

#[test]
fn option_list_push() {
    let mut b = OptBuilder::new();
    Expire::push(&mut b, Some(7)).unwrap();
    Expire::push(&mut b, None).unwrap();
    TcpKeepalive::push(&mut b, 0).unwrap();
    assert_eq!(
        b.finish(),
        vec![0, 9, 0, 4, 0, 0, 0, 7, 0, 9, 0, 0, 0, 11, 0, 2, 0, 0]
    );
}

#[test]
fn option_list_limit() {
    let mut b = OptBuilder::new();
    let mut n = 0;
    while TcpKeepalive::push(&mut b, 1).is_ok() {
        n += 1;
    }
    assert_eq!(n, 65535 / 6);
    assert_eq!(b.as_slice().len(), n * 6);
}

#[test]
fn option_dispatch_by_code() {
    let mut p = Parser::from_vec(vec![0x00, 0x96, 0, 0, 0, 1]);
    assert_eq!(
        OptData::parse(TCP_KEEPALIVE_CODE, &mut p, 2),
        Ok(Some(OptData::TcpKeepalive(TcpKeepalive(150))))
    );
    assert_eq!(
        OptData::parse(EXPIRE_CODE, &mut p, 4),
        Ok(Some(OptData::Expire(Expire(Some(1)))))
    );
    assert_eq!(OptData::parse(3, &mut p, 0), Ok(None));
    assert_eq!(OptData::Expire(Expire(None)).code(), 9);
    assert_eq!(OptData::TcpKeepalive(TcpKeepalive(0)).code(), 11);
}

#[test]
fn longer_regions_read_one_value() {
    let mut p = Parser::from_vec(vec![0, 0, 0x0e, 0x10, 0xaa]);
    assert_eq!(Expire::parse(&mut p, 5), Ok(Expire(Some(3600))));
    assert_eq!(p.position(), 4);
    let mut q = Parser::from_vec(vec![0x00, 0x96, 0xbb]);
    assert_eq!(TcpKeepalive::parse(&mut q, 3), Ok(TcpKeepalive(150)));
    assert_eq!(q.position(), 2);
    let mut r = Parser::from_vec(vec![0, 0, 0x0e, 0x10, 0xaa]);
    assert_eq!(Expire::skip(&mut r, 5), Ok(()));
    assert_eq!(r.position(), 4);
}

#[test]
fn option_list_rejects_unread_bytes() {
    let mut p = Parser::from_vec(vec![0, 0, 0x0e, 0x10, 0xaa]);
    assert_eq!(OptData::parse(EXPIRE_CODE, &mut p, 5), Err(OptParseError::Form));
    assert_eq!(p.position(), 0);
    assert_eq!(OptData::parse(TCP_KEEPALIVE_CODE, &mut p, 3), Err(OptParseError::Form));
    assert_eq!(p.position(), 0);
}
