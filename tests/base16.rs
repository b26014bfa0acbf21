use domain::base16::{decode, display, encode_display, encode_string, DecodeError, Decoder};

#[test]
fn decode_str() {
    assert_eq!(&decode("").unwrap(), b"");
    assert_eq!(&decode("F0").unwrap(), b"\xF0");
    assert_eq!(&decode("F00f").unwrap(), b"\xF0\x0F");
}

#[test]
fn test_display() {
    fn fmt(s: &[u8]) -> String {
        let mut out = String::new();
        display(s, &mut out);
        out
    }

    assert_eq!(fmt(b""), "");
    assert_eq!(fmt(b"\xf0"), "F0");
    assert_eq!(fmt(b"\xf0\x0f"), "F00F");
}

#[test]
fn decode_rejects_illegal_char() {
    assert_eq!(decode("F0G1"), Err(DecodeError::IllegalChar('G')));
    assert_eq!(decode("x"), Err(DecodeError::IllegalChar('x')));
}

#[test]
fn decode_rejects_odd_length() {
    assert_eq!(decode("F0A"), Err(DecodeError::ShortInput));
}

#[test]
fn decode_mixed_case() {
    assert_eq!(decode("aBcD09").unwrap(), vec![0xAB, 0xCD, 0x09]);
}

#[test]
fn encode_string_upper_case() {
    assert_eq!(encode_string(&[0x00, 0x9f, 0xab, 0xff]), "009FABFF");
    assert_eq!(encode_display(&[0x12, 0x3c]), "123C");
    assert_eq!(encode_string(&[]), "");
}

#[test]
fn encode_then_decode() {
    let bytes = vec![0u8, 1, 0x7f, 0x80, 0xfe, 0xff];
    assert_eq!(decode(&encode_string(&bytes)).unwrap(), bytes);
}

#[test]
fn decoder_keeps_error() {
    let mut d = Decoder::new();
    assert_eq!(d.push('1'), Ok(()));
    assert_eq!(d.push('z'), Err(DecodeError::IllegalChar('z')));
    assert_eq!(d.push('2'), Err(DecodeError::IllegalChar('z')));
    assert_eq!(d.finalize(), Err(DecodeError::IllegalChar('z')));
}

#[test]
fn decoder_short_input() {
    let mut d = Decoder::default();
    assert_eq!(d.push('a'), Ok(()));
    assert_eq!(d.push('b'), Ok(()));
    assert_eq!(d.push('c'), Ok(()));
    assert_eq!(d.finalize(), Err(DecodeError::ShortInput));
}
