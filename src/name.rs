//! Domain names on the wire: labels, their uncompressed encoding, the
//! decoding of compressed names, and the compressor that writes names with
//! pointers to suffixes already present in a message.

use vstd::prelude::*;
use crate::octets::Parser;

verus! {

/// The longest label.
pub const MAX_LABEL_LEN: usize = 63;

/// The longest name in its uncompressed wire form.
pub const MAX_NAME_LEN: usize = 255;

/// The largest offset a compression pointer can hold.
pub const MAX_POINTER_OFFSET: usize = 16383;

/// The uncompressed wire form of a sequence of labels, without the root
/// label that ends a name.
pub open spec fn labels_wire(ls: Seq<Seq<u8>>) -> Seq<u8>
    decreases ls.len(),
{
    if ls.len() == 0 {
        seq![]
    } else {
        seq![ls[0].len() as u8] + ls[0] + labels_wire(ls.drop_first())
    }
}

/// The uncompressed wire form of the name made of `ls`.
pub open spec fn name_wire(ls: Seq<Seq<u8>>) -> Seq<u8> {
    labels_wire(ls).push(0u8)
}

/// Whether `ls` are the labels of a name: each of 1 to 63 octets, the
/// whole wire form at most 255 octets.
pub open spec fn labels_valid(ls: Seq<Seq<u8>>) -> bool {
    &&& forall|i: int| 0 <= i < ls.len() ==> 1 <= #[trigger] ls[i].len() <= MAX_LABEL_LEN
    &&& name_wire(ls).len() <= MAX_NAME_LEN
}

/// The labels of the name at `pos`, reading pointers; `start` is where the
/// part of the name that holds `pos` begins. A pointer must lead before
/// that start, so decoding always ends.
pub open spec fn decode_name(buf: Seq<u8>, start: int, pos: int) -> Option<Seq<Seq<u8>>>
    decreases start, buf.len() - pos,
{
    if start < 0 || pos < start || pos >= buf.len() {
        None
    } else if buf[pos] == 0 {
        Some(seq![])
    } else if buf[pos] <= 63 {
        let next = pos + 1 + buf[pos];
        if next > buf.len() {
            None
        } else {
            match decode_name(buf, start, next) {
                Some(rest) => Some(seq![buf.subrange(pos + 1, next)] + rest),
                None => None,
            }
        }
    } else if buf[pos] >= 192 && pos + 2 <= buf.len() {
        let target = (buf[pos] - 192) * 256 + buf[pos + 1];
        if target < start {
            decode_name(buf, target, target)
        } else {
            None
        }
    } else {
        None
    }
}

/// Where the name at `pos` ends in the message: after its root label or
/// after its first pointer.
pub open spec fn name_end(buf: Seq<u8>, pos: int) -> int
    decreases buf.len() - pos,
{
    if pos < 0 || pos >= buf.len() {
        pos
    } else if buf[pos] == 0 {
        pos + 1
    } else if buf[pos] <= 63 {
        if pos + 1 + buf[pos] > buf.len() {
            pos
        } else {
            name_end(buf, pos + 1 + buf[pos])
        }
    } else {
        pos + 2
    }
}

/// The name read at `pos` and the position after it, or `None` where the
/// bytes hold no valid name.
pub open spec fn parse_name(buf: Seq<u8>, pos: int) -> Option<(Seq<Seq<u8>>, int)> {
    match decode_name(buf, pos, pos) {
        Some(ls) => if labels_valid(ls) {
            Some((ls, name_end(buf, pos)))
        } else {
            None
        },
        None => None,
    }
}

/// The name read at `pos` and the position after it, or why there is none.
pub open spec fn name_parse_result(buf: Seq<u8>, pos: int) -> Result<(Seq<Seq<u8>>, int), NameError> {
    match decode_name(buf, pos, pos) {
        Some(ls) => if labels_valid(ls) {
            Ok((ls, name_end(buf, pos)))
        } else {
            Err(NameError::LongName)
        },
        None => Err(NameError::Malformed),
    }
}

/// The two bytes of a pointer to `offset`.
pub open spec fn pointer_wire(offset: u16) -> Seq<u8> {
    seq![(192 + offset / 256) as u8, (offset % 256) as u8]
}

/// The wire form of the labels joined is that of each part joined.
pub proof fn lemma_labels_wire_concat(a: Seq<Seq<u8>>, b: Seq<Seq<u8>>)
    ensures
        labels_wire(a + b) == labels_wire(a) + labels_wire(b),
    decreases a.len(),
{
    if a.len() == 0 {
        assert(a + b =~= b);
        assert(labels_wire(a) + labels_wire(b) =~= labels_wire(b));
    } else {
        assert((a + b).drop_first() =~= a.drop_first() + b);
        lemma_labels_wire_concat(a.drop_first(), b);
        assert(labels_wire(a + b) =~= labels_wire(a) + labels_wire(b));
    }
}

/// The wire form of one more label.
pub proof fn lemma_labels_wire_push(a: Seq<Seq<u8>>, l: Seq<u8>)
    ensures
        labels_wire(a.push(l)) == labels_wire(a) + seq![l.len() as u8] + l,
{
    lemma_labels_wire_concat(a, seq![l]);
    assert(a.push(l) =~= a + seq![l]);
    assert(seq![l].drop_first() =~= Seq::<Seq<u8>>::empty());
    assert(labels_wire(seq![l]) =~= seq![l.len() as u8] + l + labels_wire(Seq::<Seq<u8>>::empty()));
    assert(labels_wire(a) + labels_wire(seq![l]) =~= labels_wire(a) + seq![l.len() as u8] + l);
}

/// Decoding depends only on the bytes it reads, which lie before the end
/// of the buffer it succeeded on: appending leaves it unchanged.
pub proof fn lemma_decode_extend(a: Seq<u8>, b: Seq<u8>, start: int, pos: int)
    requires
        decode_name(a, start, pos) is Some,
    ensures
        decode_name(a + b, start, pos) == decode_name(a, start, pos),
        name_end(a + b, pos) == name_end(a, pos),
    decreases start, a.len() - pos,
{
    let c = a + b;
    assert(c[pos] == a[pos]);
    if a[pos] == 0 {
    } else if a[pos] <= 63 {
        let next = pos + 1 + a[pos];
        lemma_decode_extend(a, b, start, next);
        assert(c.subrange(pos + 1, next) =~= a.subrange(pos + 1, next));
    } else {
        assert(c[pos + 1] == a[pos + 1]);
        let target = (a[pos] - 192) * 256 + a[pos + 1];
        lemma_decode_extend(a, b, target, target);
    }
}

/// Literal labels followed by the rest of a name decode to the labels
/// followed by what the rest decodes to.
pub proof fn lemma_decode_literal(buf: Seq<u8>, start: int, pos: int, ls: Seq<Seq<u8>>)
    requires
        0 <= start <= pos,
        forall|i: int| 0 <= i < ls.len() ==> 1 <= #[trigger] ls[i].len() <= MAX_LABEL_LEN,
        pos + labels_wire(ls).len() <= buf.len(),
        buf.subrange(pos, pos + labels_wire(ls).len()) == labels_wire(ls),
        decode_name(buf, start, pos + labels_wire(ls).len()) is Some,
    ensures
        decode_name(buf, start, pos) == Some(ls + decode_name(buf, start, pos + labels_wire(ls).len())->Some_0),
        name_end(buf, pos) == name_end(buf, pos + labels_wire(ls).len()),
    decreases ls.len(),
{
    let w = labels_wire(ls);
    if ls.len() == 0 {
        assert(ls + decode_name(buf, start, pos)->Some_0 =~= decode_name(buf, start, pos)->Some_0);
    } else {
        let l = ls[0];
        let rest = ls.drop_first();
        let next = pos + 1 + l.len() as int;
        assert(w =~= seq![l.len() as u8] + l + labels_wire(rest));
        assert(buf[pos] == w[0]);
        assert(buf.subrange(pos + 1, next) =~= w.subrange(1, 1 + l.len() as int));
        assert(w.subrange(1, 1 + l.len() as int) =~= l);
        assert(buf.subrange(next, next + labels_wire(rest).len()) =~= w.subrange(1 + l.len() as int, w.len() as int));
        assert(w.subrange(1 + l.len() as int, w.len() as int) =~= labels_wire(rest));
        lemma_decode_literal(buf, start, next, rest);
        assert(seq![l] + (rest + decode_name(buf, start, pos + w.len())->Some_0)
            =~= ls + decode_name(buf, start, pos + w.len())->Some_0);
    }
}

/// The uncompressed wire form of a valid name decodes to that name.
pub proof fn lemma_decode_name_wire(buf: Seq<u8>, pos: int, ls: Seq<Seq<u8>>)
    requires
        0 <= pos,
        labels_valid(ls),
        pos + name_wire(ls).len() <= buf.len(),
        buf.subrange(pos, pos + name_wire(ls).len()) == name_wire(ls),
    ensures
        parse_name(buf, pos) == Some((ls, pos + name_wire(ls).len())),
{
    let w = labels_wire(ls);
    let q = pos + w.len();
    assert(buf.subrange(pos, q) =~= name_wire(ls).subrange(0, w.len() as int));
    assert(name_wire(ls).subrange(0, w.len() as int) =~= w);
    assert(buf[q] == name_wire(ls)[w.len() as int]);
    assert(decode_name(buf, pos, q) == Some(Seq::<Seq<u8>>::empty()));
    lemma_decode_literal(buf, pos, pos, ls);
    assert(ls + Seq::<Seq<u8>>::empty() =~= ls);
}

/// A pointer to a decodable name decodes to that name.
pub proof fn lemma_decode_pointer(buf: Seq<u8>, start: int, pos: int, offset: u16)
    requires
        0 <= offset < start <= pos,
        offset <= MAX_POINTER_OFFSET,
        pos + 2 <= buf.len(),
        buf.subrange(pos, pos + 2) == pointer_wire(offset),
        decode_name(buf, offset as int, offset as int) is Some,
    ensures
        decode_name(buf, start, pos) == decode_name(buf, offset as int, offset as int),
        name_end(buf, pos) == pos + 2,
{
    assert(buf[pos] == pointer_wire(offset)[0]);
    assert(buf[pos + 1] == pointer_wire(offset)[1]);
}

//------------ Dname ---------------------------------------------------------

/// An absolute domain name, kept as its labels without the root label.
#[derive(Debug)]
pub struct Dname {
    labels: Vec<Vec<u8>>,
}

impl Dname {
    #[verifier::type_invariant]
    pub open spec fn inv(&self) -> bool {
        labels_valid(self@)
    }
}

impl View for Dname {
    type V = Seq<Seq<u8>>;

    closed spec fn view(&self) -> Seq<Seq<u8>> {
        self.labels.deep_view()
    }
}

fn copy_bytes(b: &[u8]) -> (r: Vec<u8>)
    ensures
        r@ == b@,
{
    let mut r: Vec<u8> = Vec::new();
    let mut i: usize = 0;
    while i < b.len()
        invariant
            i <= b@.len(),
            r@ == b@.subrange(0, i as int),
        decreases b.len() - i,
    {
        r.push(b[i]);
        i = i + 1;
        assert(r@ =~= b@.subrange(0, i as int));
    }
    assert(b@.subrange(0, i as int) =~= b@);
    r
}

fn bytes_eq(a: &[u8], b: &[u8]) -> (r: bool)
    ensures
        r == (a@ == b@),
{
    if a.len() != b.len() {
        return false;
    }
    let mut i: usize = 0;
    while i < a.len()
        invariant
            a@.len() == b@.len(),
            i <= a@.len(),
            a@.subrange(0, i as int) == b@.subrange(0, i as int),
        decreases a.len() - i,
    {
        if a[i] != b[i] {
            assert(a@[i as int] != b@[i as int]);
            return false;
        }
        assert(a@.subrange(0, i + 1) =~= a@.subrange(0, i as int).push(a@[i as int]));
        assert(b@.subrange(0, i + 1) =~= b@.subrange(0, i as int).push(b@[i as int]));
        i = i + 1;
    }
    assert(a@ =~= a@.subrange(0, i as int));
    assert(b@ =~= b@.subrange(0, i as int));
    true
}

/// Whether the labels of `a` from `from` on are the labels of `b`.
pub(crate) fn suffix_eq(a: &Vec<Vec<u8>>, from: usize, b: &Vec<Vec<u8>>) -> (r: bool)
    requires
        from <= a@.len(),
    ensures
        r == (a.deep_view().subrange(from as int, a@.len() as int) == b.deep_view()),
{
    if a.len() - from != b.len() {
        assert(a.deep_view().subrange(from as int, a@.len() as int).len() != b.deep_view().len());
        return false;
    }
    let mut i: usize = 0;
    while i < b.len()
        invariant
            from <= a@.len(),
            a@.len() - from == b@.len(),
            i <= b@.len(),
            forall|k: int| 0 <= k < i ==> a.deep_view()[from + k] == b.deep_view()[k],
        decreases b.len() - i,
    {
        let j: usize = a.len() - b.len() + i;
        assert(j == from + i);
        if !bytes_eq(a[j].as_slice(), b[i].as_slice()) {
            assert(a.deep_view()[from + i] == a@[from + i]@);
            assert(b.deep_view()[i as int] == b@[i as int]@);
            assert(a.deep_view().subrange(from as int, a@.len() as int)[i as int] != b.deep_view()[i as int]);
            return false;
        }
        i = i + 1;
    }
    assert(a.deep_view().subrange(from as int, a@.len() as int) =~= b.deep_view());
    true
}

/// The wire length of labels, or `None` once it passes `MAX_NAME_LEN`.
fn name_wire_len(labels: &Vec<Vec<u8>>) -> (r: Option<usize>)
    ensures
        r matches Some(n) ==> n == name_wire(labels.deep_view()).len() && n <= MAX_NAME_LEN,
        r is None ==> name_wire(labels.deep_view()).len() > MAX_NAME_LEN,
{
    let mut n: usize = 1;
    let mut i: usize = 0;
    while i < labels.len()
        invariant
            i <= labels@.len(),
            n == labels_wire(labels.deep_view().subrange(0, i as int)).len() + 1,
            n <= MAX_NAME_LEN,
        decreases labels.len() - i,
    {
        let ghost pre = labels.deep_view().subrange(0, i as int);
        proof {
            assert(labels.deep_view().subrange(0, i + 1) =~= pre.push(labels.deep_view()[i as int]));
            lemma_labels_wire_push(pre, labels.deep_view()[i as int]);
        }
        if labels[i].len() >= MAX_NAME_LEN - n {
            proof {
                lemma_labels_wire_concat(labels.deep_view().subrange(0, i + 1),
                    labels.deep_view().subrange(i + 1, labels@.len() as int));
                assert(labels.deep_view().subrange(0, i + 1) + labels.deep_view().subrange(i + 1, labels@.len() as int)
                    =~= labels.deep_view());
            }
            return None;
        }
        n = n + labels[i].len() + 1;
        i = i + 1;
    }
    assert(labels.deep_view().subrange(0, i as int) =~= labels.deep_view());
    Some(n)
}

/// Appends the wire form of `ls[from..to]` to `target`.
pub(crate) fn push_labels(target: &mut Vec<u8>, labels: &Vec<Vec<u8>>, from: usize, to: usize)
    requires
        from <= to <= labels@.len(),
        forall|i: int| 0 <= i < labels@.len() ==> #[trigger] labels@[i]@.len() <= MAX_LABEL_LEN,
    ensures
        final(target)@ == old(target)@ + labels_wire(labels.deep_view().subrange(from as int, to as int)),
{
    let mut i: usize = from;
    while i < to
        invariant
            from <= i <= to <= labels@.len(),
            forall|i: int| 0 <= i < labels@.len() ==> #[trigger] labels@[i]@.len() <= MAX_LABEL_LEN,
            target@ == old(target)@ + labels_wire(labels.deep_view().subrange(from as int, i as int)),
        decreases to - i,
    {
        let ghost pre = labels.deep_view().subrange(from as int, i as int);
        let label = &labels[i];
        assert(label@.len() <= MAX_LABEL_LEN);
        target.push(label.len() as u8);
        let mut k: usize = 0;
        let ghost mid = target@;
        while k < label.len()
            invariant
                k <= label@.len(),
                target@ == mid + label@.subrange(0, k as int),
            decreases label.len() - k,
        {
            target.push(label[k]);
            k = k + 1;
            assert(target@ =~= mid + label@.subrange(0, k as int));
        }
        proof {
            assert(label@.subrange(0, k as int) =~= label@);
            assert(labels.deep_view().subrange(from as int, i + 1) =~= pre.push(labels.deep_view()[i as int]));
            lemma_labels_wire_push(pre, labels.deep_view()[i as int]);
        }
        i = i + 1;
        assert(target@ =~= old(target)@ + labels_wire(labels.deep_view().subrange(from as int, i as int)));
    }
}

/// Why a name could not be read.
#[derive(Clone, Copy, Debug, PartialEq, Eq, Structural)]
pub enum NameError {
    /// A label type, a pointer or a length the format does not allow, or a
    /// name that ends beyond the message.
    Malformed,
    /// A name longer than 255 octets once decompressed.
    LongName,
}

/// The labels of the name at `pos` and the end of its first part.
fn decode_labels(buf: &[u8], start: usize, pos: usize) -> (r: Option<(Vec<Vec<u8>>, usize)>)
    ensures
        match r {
            Some((ls, end)) => decode_name(buf@, start as int, pos as int) == Some(ls.deep_view())
                && end == name_end(buf@, pos as int)
                && forall|i: int| 0 <= i < ls@.len() ==> 1 <= #[trigger] ls@[i]@.len() <= MAX_LABEL_LEN,
            None => decode_name(buf@, start as int, pos as int) is None,
        },
    decreases start, buf@.len() - pos,
{
    if pos < start || pos >= buf.len() {
        return None;
    }
    let b = buf[pos];
    if b == 0 {
        let ls: Vec<Vec<u8>> = Vec::new();
        assert(ls.deep_view() =~= Seq::<Seq<u8>>::empty());
        Some((ls, pos + 1))
    } else if b <= 63 {
        if b as usize > buf.len() - pos - 1 {
            return None;
        }
        let next = pos + 1 + b as usize;
        match decode_labels(buf, start, next) {
            Some((mut rest, end)) => {
                let label = copy_bytes(&buf[pos + 1..next]);
                let ghost old_rest = rest.deep_view();
                let ghost old_v = rest@;
                let ghost l = label@;
                rest.insert(0, label);
                assert(rest@ == old_v.insert(0, label));
                assert forall|k: int| 0 <= k < rest@.len() implies rest.deep_view()[k]
                    == (seq![l] + old_rest)[k] by {
                    if k > 0 {
                        assert(rest@[k] == old_v[k - 1]);
                    }
                };
                assert(rest.deep_view() =~= seq![buf@.subrange(pos + 1, next as int)] + old_rest);
                Some((rest, end))
            },
            None => None,
        }
    } else if b >= 192 && pos + 1 < buf.len() {
        let target = (b as usize - 192) * 256 + buf[pos + 1] as usize;
        if target < start {
            match decode_labels(buf, target, target) {
                Some((ls, _)) => Some((ls, pos + 2)),
                None => None,
            }
        } else {
            None
        }
    } else {
        None
    }
}

impl Dname {
    /// The name made of `labels`, or `None` where they break the limits
    /// on labels and names.
    pub fn from_labels(labels: Vec<Vec<u8>>) -> (r: Option<Dname>)
        ensures
            r matches Some(n) ==> n@ == labels.deep_view() && labels_valid(n@),
            r is None ==> !labels_valid(labels.deep_view()),
    {
        let mut i: usize = 0;
        while i < labels.len()
            invariant
                i <= labels@.len(),
                forall|k: int| 0 <= k < i ==> 1 <= #[trigger] labels.deep_view()[k].len() <= MAX_LABEL_LEN,
            decreases labels.len() - i,
        {
            if labels[i].len() == 0 || labels[i].len() > MAX_LABEL_LEN {
                assert(labels.deep_view()[i as int].len() == labels@[i as int]@.len());
                return None;
            }
            i = i + 1;
        }
        match name_wire_len(&labels) {
            Some(_) => Some(Dname { labels }),
            None => None,
        }
    }

    /// The root name, with no labels.
    pub fn root() -> (r: Dname)
        ensures
            r@ == Seq::<Seq<u8>>::empty(),
            labels_valid(r@),
    {
        let r = Dname { labels: Vec::new() };
        assert(r@ =~= Seq::<Seq<u8>>::empty());
        r
    }

    pub(crate) fn labels(&self) -> (r: &Vec<Vec<u8>>)
        ensures
            r.deep_view() == self@,
    {
        &self.labels
    }

    /// The number of labels, the root label not counted.
    pub fn label_count(&self) -> (r: usize)
        ensures
            r == self@.len(),
    {
        self.labels.len()
    }

    /// The label at `i`, counted from the left.
    pub fn label(&self, i: usize) -> (r: &[u8])
        requires
            i < self@.len(),
        ensures
            r@ == self@[i as int],
    {
        self.labels[i].as_slice()
    }

    /// The length of the uncompressed wire form.
    pub fn compose_len(&self) -> (r: usize)
        ensures
            r == name_wire(self@).len(),
    {
        proof { use_type_invariant(self); }
        match name_wire_len(&self.labels) {
            Some(n) => n,
            None => MAX_NAME_LEN,
        }
    }

    /// Appends the uncompressed wire form.
    pub fn compose(&self, target: &mut Vec<u8>)
        ensures
            final(target)@ == old(target)@ + name_wire(self@),
    {
        proof { use_type_invariant(self); }
        assert forall|i: int| 0 <= i < self.labels@.len() implies #[trigger] self.labels@[i]@.len() <= MAX_LABEL_LEN by {
            assert(self@[i] == self.labels@[i]@);
        };
        push_labels(target, &self.labels, 0, self.labels.len());
        assert(self.labels.deep_view().subrange(0, self.labels@.len() as int) =~= self@);
        target.push(0);
    }

    /// Reads a name at the cursor, following pointers, and moves past it.
    /// On failure the cursor stays where it was.
    pub fn parse(parser: &mut Parser) -> (r: Result<Dname, NameError>)
        requires
            old(parser).wf(),
        ensures
            final(parser).wf(),
            final(parser).data() == old(parser).data(),
            match r {
                Ok(n) => name_parse_result(old(parser).data(), old(parser).pos())
                    == Ok::<(Seq<Seq<u8>>, int), NameError>((n@, final(parser).pos())) && labels_valid(n@),
                Err(e) => name_parse_result(old(parser).data(), old(parser).pos())
                    == Err::<(Seq<Seq<u8>>, int), NameError>(e) && final(parser).pos() == old(parser).pos(),
            },
    {
        let pos = parser.position();
        let decoded = decode_labels(parser.as_slice(), pos, pos);
        match decoded {
            Some((labels, end)) => {
                match name_wire_len(&labels) {
                    Some(_) => {
                        proof { lemma_name_end_bound(parser.data(), pos as int, pos as int); }
                        let _ = parser.seek(end);
                        Ok(Dname { labels })
                    },
                    None => Err(NameError::LongName),
                }
            },
            None => Err(NameError::Malformed),
        }
    }
}

/// A decodable name ends within the buffer.
pub proof fn lemma_name_end_bound(buf: Seq<u8>, start: int, pos: int)
    requires
        decode_name(buf, start, pos) is Some,
    ensures
        pos < name_end(buf, pos) <= buf.len(),
    decreases buf.len() - pos,
{
    if buf[pos] != 0 && buf[pos] <= 63 {
        lemma_name_end_bound(buf, start, pos + 1 + buf[pos]);
    }
}

/// A name that takes exactly the length of its uncompressed wire form is
/// written in full, without a pointer.
pub proof fn lemma_name_in_full(buf: Seq<u8>, start: int, pos: int)
    requires
        decode_name(buf, start, pos) is Some,
        forall|i: int| 0 <= i < decode_name(buf, start, pos)->Some_0.len()
            ==> 1 <= #[trigger] decode_name(buf, start, pos)->Some_0[i].len(),
        name_end(buf, pos) == pos + name_wire(decode_name(buf, start, pos)->Some_0).len(),
    ensures
        buf.subrange(pos, name_end(buf, pos)) == name_wire(decode_name(buf, start, pos)->Some_0),
    decreases buf.len() - pos,
{
    let ls = decode_name(buf, start, pos)->Some_0;
    if buf[pos] == 0 {
        assert(buf.subrange(pos, pos + 1) =~= name_wire(ls));
    } else if buf[pos] <= 63 {
        let next = pos + 1 + buf[pos];
        let rest = decode_name(buf, start, next)->Some_0;
        assert(ls.drop_first() =~= rest);
        assert(forall|i: int| 0 <= i < rest.len() ==> rest[i] == ls[i + 1]);
        assert(labels_wire(ls) == seq![ls[0].len() as u8] + ls[0] + labels_wire(rest));
        lemma_name_in_full(buf, start, next);
        lemma_name_end_bound(buf, start, next);
        let end = name_end(buf, pos);
        assert(buf.subrange(pos, end) =~= seq![buf[pos]] + buf.subrange(pos + 1, next) + buf.subrange(next, end));
        assert(name_wire(ls) =~= seq![ls[0].len() as u8] + ls[0] + name_wire(rest));
    } else {
        let target = (buf[pos] - 192) * 256 + buf[pos + 1];
        if ls.len() > 0 {
            assert(labels_wire(ls) == seq![ls[0].len() as u8] + ls[0] + labels_wire(ls.drop_first()));
        }
    }
}

} // verus!
