//! Base 16 (hex) decoding and encoding of octets, with upper-case digits
//! on output and digits of either case accepted on input.

use vstd::prelude::*;

verus! {

/// Why a string is no Base 16 encoding.
#[derive(Clone, Copy, Debug, PartialEq, Eq, Structural)]
pub enum DecodeError {
    /// A character that is no hex digit.
    IllegalChar(char),
    /// An odd number of digits: the last octet is incomplete.
    ShortInput,
}

/// The value of a hex digit of either case.
pub open spec fn hex_value(c: char) -> Option<u8> {
    if '0' <= c && c <= '9' {
        Some((c as u32 - '0' as u32) as u8)
    } else if 'a' <= c && c <= 'f' {
        Some((c as u32 - 'a' as u32 + 10) as u8)
    } else if 'A' <= c && c <= 'F' {
        Some((c as u32 - 'A' as u32 + 10) as u8)
    } else {
        None
    }
}

/// The position of the first character of `s` that is no hex digit.
pub open spec fn first_illegal(s: Seq<char>) -> Option<int>
    decreases s.len(),
{
    if s.len() == 0 {
        None
    } else {
        match first_illegal(s.subrange(0, s.len() - 1)) {
            Some(k) => Some(k),
            None => if hex_value(s[s.len() - 1]) is None {
                Some(s.len() - 1)
            } else {
                None
            },
        }
    }
}

/// The octets spelled by the digit pairs of `s`, an odd last digit left out.
pub open spec fn decode_pairs(s: Seq<char>) -> Seq<u8>
    decreases s.len(),
{
    if s.len() < 2 {
        seq![]
    } else {
        let n: int = if s.len() % 2 == 0 { s.len() as int } else { s.len() - 1 };
        decode_pairs(s.subrange(0, n - 2)).push(
            (hex_value(s[n - 2])->Some_0 * 16 + hex_value(s[n - 1])->Some_0) as u8,
        )
    }
}

/// The result of decoding all of `s`.
pub open spec fn decode_spec(s: Seq<char>) -> Result<Seq<u8>, DecodeError> {
    match first_illegal(s) {
        Some(k) => Err(DecodeError::IllegalChar(s[k])),
        None => if s.len() % 2 == 1 {
            Err(DecodeError::ShortInput)
        } else {
            Ok(decode_pairs(s))
        },
    }
}

/// The upper-case digit for a value below 16.
pub open spec fn digit_char(v: u8) -> char {
    if v < 10 {
        ((48 + v) as u8) as char
    } else {
        ((55 + v) as u8) as char
    }
}

/// The Base 16 encoding of `b`: two upper-case digits per octet.
pub open spec fn encode_spec(b: Seq<u8>) -> Seq<char>
    decreases b.len(),
{
    if b.len() == 0 {
        seq![]
    } else {
        encode_spec(b.subrange(0, b.len() - 1)) + seq![
            digit_char(b[b.len() - 1] / 16),
            digit_char(b[b.len() - 1] % 16),
        ]
    }
}

fn hex_digit(ch: char) -> (r: Option<u8>)
    ensures
        r == hex_value(ch),
{
    if '0' <= ch && ch <= '9' {
        Some((ch as u32 - '0' as u32) as u8)
    } else if 'a' <= ch && ch <= 'f' {
        Some((ch as u32 - 'a' as u32 + 10) as u8)
    } else if 'A' <= ch && ch <= 'F' {
        Some((ch as u32 - 'A' as u32 + 10) as u8)
    } else {
        None
    }
}

fn digit(v: u8) -> (r: char)
    requires
        v < 16,
    ensures
        r == digit_char(v),
{
    if v < 10 {
        (48 + v) as char
    } else {
        (55 + v) as char
    }
}

/// Relies on String::push: the character is appended to the string.
#[verifier::external_body]
fn push_char(s: &mut String, c: char)
    ensures
        final(s)@ == old(s)@.push(c),
{
    s.push(c)
}

//------------ Decoder -------------------------------------------------------

/// The state of decoding a sequence of hex digits, one character at a time.
pub struct Decoder {
    /// The upper half of an octet whose lower digit is still to come.
    buf: Option<u8>,
    /// The octets decoded so far, or the error that stopped decoding.
    target: Result<Vec<u8>, DecodeError>,
}

impl Decoder {
    /// The pending upper half-octet.
    pub closed spec fn pending(&self) -> Option<u8> {
        self.buf
    }

    /// The octets decoded so far, or the error met.
    pub closed spec fn target(&self) -> Result<Seq<u8>, DecodeError> {
        match self.target {
            Ok(v) => Ok(v@),
            Err(e) => Err(e),
        }
    }

    /// Whether the decoder is in the state reached by pushing the hex digits
    /// of `s`, all of them legal.
    pub open spec fn decoded(&self, s: Seq<char>) -> bool {
        &&& first_illegal(s) is None
        &&& self.target() == Ok::<Seq<u8>, DecodeError>(decode_pairs(s))
        &&& self.pending() == if s.len() % 2 == 1 {
            Some((hex_value(s[s.len() - 1])->Some_0 * 16) as u8)
        } else {
            None
        }
    }

    /// A decoder that has seen nothing.
    pub fn new() -> (r: Self)
        ensures
            r.decoded(seq![]),
    {
        Decoder { buf: None, target: Ok(Vec::new()) }
    }

    /// Ends decoding: the octets, or an error where a digit was illegal or
    /// the last octet lacks its lower digit.
    pub fn finalize(self) -> (r: Result<Vec<u8>, DecodeError>)
        ensures
            self.pending() is Some ==> r == Err::<Vec<u8>, DecodeError>(DecodeError::ShortInput),
            self.pending() is None ==> match r {
                Ok(v) => self.target() == Ok::<Seq<u8>, DecodeError>(v@),
                Err(e) => self.target() == Err::<Seq<u8>, DecodeError>(e),
            },
    {
        if self.buf.is_some() {
            return Err(DecodeError::ShortInput);
        }
        self.target
    }

    /// Decodes one more character. An illegal one puts the decoder into an
    /// error state that every later push reports again.
    pub fn push(&mut self, ch: char) -> (r: Result<(), DecodeError>)
        ensures
            hex_value(ch) is None ==> r == Err::<(), DecodeError>(DecodeError::IllegalChar(ch))
                && final(self).target() == Err::<Seq<u8>, DecodeError>(DecodeError::IllegalChar(ch))
                && final(self).pending() == old(self).pending(),
            hex_value(ch) matches Some(v) ==> {
                &&& final(self).pending() == match old(self).pending() {
                    Some(_) => None,
                    None => Some((v * 16) as u8),
                }
                &&& final(self).target() == match (old(self).pending(), old(self).target()) {
                    (Some(upper), Ok(t)) => Ok(t.push(upper | v)),
                    (_, t) => t,
                }
                &&& r is Ok <==> final(self).target() is Ok
                &&& r matches Err(e) ==> final(self).target() == Err::<Seq<u8>, DecodeError>(e)
            },
    {
        let value = match hex_digit(ch) {
            Some(value) => value,
            None => {
                self.target = Err(DecodeError::IllegalChar(ch));
                return Err(DecodeError::IllegalChar(ch));
            },
        };
        if let Some(upper) = self.buf.take() {
            self.append(upper | value);
        } else {
            self.buf = Some(value * 16);
        }
        match &self.target {
            Ok(_) => Ok(()),
            Err(err) => Err(*err),
        }
    }

    /// Appends a decoded octet, unless decoding has failed.
    fn append(&mut self, value: u8)
        ensures
            final(self).pending() == old(self).pending(),
            final(self).target() == match old(self).target() {
                Ok(t) => Ok(t.push(value)),
                Err(e) => Err::<Seq<u8>, DecodeError>(e),
            },
    {
        match &mut self.target {
            Ok(target) => target.push(value),
            Err(_) => {},
        }
    }
}

impl Default for Decoder {
    fn default() -> (r: Self)
        ensures
            r.decoded(seq![]),
    {
        Self::new()
    }
}

//------------ Convenience Functions -----------------------------------------

/// Decodes a whole string of hex digits.
pub fn decode(s: &str) -> (r: Result<Vec<u8>, DecodeError>)
    ensures
        match r {
            Ok(v) => decode_spec(s@) == Ok::<Seq<u8>, DecodeError>(v@),
            Err(e) => decode_spec(s@) == Err::<Seq<u8>, DecodeError>(e),
        },
{
    let mut decoder = Decoder::new();
    let n = s.unicode_len();
    let mut i: usize = 0;
    while i < n
        invariant
            n == s@.len(),
            i <= n,
            decoder.decoded(s@.subrange(0, i as int)),
        decreases n - i,
    {
        let ch = s.get_char(i);
        let ghost pre = s@.subrange(0, i as int);
        let ghost post = s@.subrange(0, i + 1);
        assert(post.subrange(0, i as int) =~= pre);
        match decoder.push(ch) {
            Ok(()) => {},
            Err(e) => {
                proof {
                    assert(first_illegal(post) == Some(i as int));
                    lemma_first_illegal_extends(s@, i as int + 1);
                }
                return Err(e);
            },
        }
        proof {
            if i > 0 {
                assert(pre[i - 1] == post[i - 1]);
            }
            let v = hex_value(ch)->Some_0;
            assert(post[i as int] == ch);
            if i % 2 == 1 {
                assert(post.subrange(0, i - 1) =~= pre.subrange(0, i - 1));
                if i >= 3 {
                    assert(pre.subrange(0, i - 1).subrange(0, i - 3) =~= pre.subrange(0, i - 3));
                }
                assert(decode_pairs(pre) == decode_pairs(pre.subrange(0, i - 1)));
                let h = hex_value(pre[i - 1])->Some_0;
                assert(h < 16 && v < 16);
                assert(((h * 16) as u8 | v) == (h * 16 + v) as u8) by (bit_vector)
                    requires
                        h < 16u8,
                        v < 16u8,
                ;
            } else if i >= 2 {
                assert(post.subrange(0, i - 2) =~= pre.subrange(0, i - 2));
                assert(pre[i - 2] == post[i - 2]);
            }
        }
        i = i + 1;
    }
    assert(s@.subrange(0, n as int) =~= s@);
    decoder.finalize()
}

proof fn lemma_first_illegal_extends(s: Seq<char>, i: int)
    requires
        0 <= i <= s.len(),
        first_illegal(s.subrange(0, i)) is Some,
    ensures
        first_illegal(s) == first_illegal(s.subrange(0, i)),
    decreases s.len() - i,
{
    if i < s.len() {
        assert(s.subrange(0, i + 1).subrange(0, i) =~= s.subrange(0, i));
        lemma_first_illegal_extends(s, i + 1);
    } else {
        assert(s.subrange(0, i) =~= s);
    }
}

/// Appends the Base 16 encoding of `octets` to `f`.
pub fn display(octets: &[u8], f: &mut String)
    ensures
        final(f)@ == old(f)@ + encode_spec(octets@),
{
    let mut i: usize = 0;
    while i < octets.len()
        invariant
            i <= octets@.len(),
            f@ == old(f)@ + encode_spec(octets@.subrange(0, i as int)),
        decreases octets.len() - i,
    {
        let octet = octets[i];
        push_char(f, digit(octet / 16));
        push_char(f, digit(octet % 16));
        assert(octets@.subrange(0, i + 1).subrange(0, i as int) =~= octets@.subrange(0, i as int));
        i = i + 1;
        assert(f@ =~= old(f)@ + encode_spec(octets@.subrange(0, i as int)));
    }
    assert(octets@.subrange(0, i as int) =~= octets@);
}

/// The Base 16 encoding of `bytes` as a new string.
pub fn encode_string(bytes: &[u8]) -> (r: String)
    ensures
        r@ == encode_spec(bytes@),
{
    let mut res = String::new();
    display(bytes, &mut res);
    assert(res@ =~= encode_spec(bytes@));
    res
}

/// The Base 16 encoding of `octets`, ready for display.
pub fn encode_display(octets: &[u8]) -> (r: String)
    ensures
        r@ == encode_spec(octets@),
{
    encode_string(octets)
}

} // verus!
