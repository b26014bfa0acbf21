//! Composing a message with name compression: the bytes written so far and
//! the names they hold, each with the offset where it starts.

use vstd::prelude::*;
use crate::octets::{be16, be32, push_u16, push_u32};
use crate::name::{
    decode_name, labels_valid, labels_wire, lemma_decode_extend, lemma_decode_literal,
    lemma_decode_pointer, lemma_labels_wire_concat, name_end, name_parse_result, name_wire, parse_name, pointer_wire,
    Dname, NameError, MAX_LABEL_LEN, MAX_POINTER_OFFSET,
};

verus! {

/// Whether the name `ls` can be read at `offset` from the first `end`
/// bytes of `buf`, and a pointer can reach it.
pub open spec fn entry_ok(buf: Seq<u8>, ls: Seq<Seq<u8>>, offset: u16, end: int) -> bool {
    &&& offset <= MAX_POINTER_OFFSET
    &&& 0 <= end <= buf.len()
    &&& decode_name(buf.subrange(0, end), offset as int, offset as int) == Some(ls)
}

/// Whether a table of names holds the name `ls`.
pub open spec fn table_has(t: Seq<(Seq<Seq<u8>>, u16)>, ls: Seq<Seq<u8>>) -> bool {
    exists|i: int| 0 <= i < t.len() && #[trigger] t[i].0 == ls
}

/// What ends a name written with compression: a pointer, or the root label.
pub open spec fn name_tail(ptr: Option<u16>) -> Seq<u8> {
    match ptr {
        Some(off) => pointer_wire(off),
        None => seq![0u8],
    }
}

/// The entries that composing `ls` at offset `start` adds for its labels
/// before `k`, in order: each suffix written in full whose offset a
/// pointer can hold, at that offset.
pub open spec fn new_entries(ls: Seq<Seq<u8>>, start: int, k: int) -> Seq<(Seq<Seq<u8>>, u16)>
    decreases k,
{
    if k <= 0 {
        seq![]
    } else {
        let q = start + labels_wire(ls.subrange(0, k - 1)).len();
        if q <= MAX_POINTER_OFFSET {
            new_entries(ls, start, k - 1).push((ls.subrange(k - 1, ls.len() as int), q as u16))
        } else {
            new_entries(ls, start, k - 1)
        }
    }
}

/// Whether the labels of `ls` from `k` on form a name that some entry of
/// the table holds.
pub open spec fn suffix_known(t: Seq<(Seq<Seq<u8>>, u16)>, ls: Seq<Seq<u8>>, k: int) -> bool {
    table_has(t, ls.subrange(k, ls.len() as int))
}

/// The index of the first entry of `t`, from `i` on, that holds `ls`;
/// the length of `t` where none does.
pub open spec fn first_entry(t: Seq<(Seq<Seq<u8>>, u16)>, ls: Seq<Seq<u8>>, i: int) -> int
    decreases t.len() - i,
{
    if i < 0 || i >= t.len() {
        t.len() as int
    } else if t[i].0 == ls {
        i
    } else {
        first_entry(t, ls, i + 1)
    }
}

/// The least index from `k` on at which a suffix of `ls` is in the table;
/// the length of `ls` where there is none.
pub open spec fn first_known(t: Seq<(Seq<Seq<u8>>, u16)>, ls: Seq<Seq<u8>>, k: int) -> int
    decreases ls.len() - k,
{
    if k < 0 || k >= ls.len() {
        ls.len() as int
    } else if suffix_known(t, ls, k) {
        k
    } else {
        first_known(t, ls, k + 1)
    }
}

/// What composing the name `ls` against the table `t` writes: its labels
/// up to the longest suffix in the table, then a pointer to the first
/// entry holding that suffix; the whole name where no suffix is there.
pub open spec fn compressed_name(t: Seq<(Seq<Seq<u8>>, u16)>, ls: Seq<Seq<u8>>) -> Seq<u8> {
    let j = first_known(t, ls, 0);
    if j < ls.len() {
        labels_wire(ls.subrange(0, j)) + pointer_wire(t[first_entry(t, ls.subrange(j, ls.len() as int), 0)].1)
    } else {
        name_wire(ls)
    }
}

proof fn lemma_first_entry_skip(t: Seq<(Seq<Seq<u8>>, u16)>, ls: Seq<Seq<u8>>, a: int, b: int)
    requires
        0 <= a <= b <= t.len(),
        forall|k: int| a <= k < b ==> #[trigger] t[k].0 != ls,
    ensures
        first_entry(t, ls, a) == first_entry(t, ls, b),
    decreases b - a,
{
    if a < b {
        lemma_first_entry_skip(t, ls, a + 1, b);
    }
}

proof fn lemma_first_known_skip(t: Seq<(Seq<Seq<u8>>, u16)>, ls: Seq<Seq<u8>>, a: int, b: int)
    requires
        0 <= a <= b <= ls.len(),
        forall|k: int| a <= k < b ==> !#[trigger] suffix_known(t, ls, k),
    ensures
        first_known(t, ls, a) == first_known(t, ls, b),
    decreases b - a,
{
    if a < b {
        lemma_first_known_skip(t, ls, a + 1, b);
    }
}

proof fn lemma_first_known_bound(t: Seq<(Seq<Seq<u8>>, u16)>, ls: Seq<Seq<u8>>, k: int)
    ensures
        first_known(t, ls, k) <= ls.len(),
    decreases ls.len() - k,
{
    if 0 <= k < ls.len() && !suffix_known(t, ls, k) {
        lemma_first_known_bound(t, ls, k + 1);
    }
}

proof fn lemma_first_known_found(t: Seq<(Seq<Seq<u8>>, u16)>, ls: Seq<Seq<u8>>, k: int)
    requires
        0 <= k,
        first_known(t, ls, k) < ls.len(),
    ensures
        k <= first_known(t, ls, k),
        suffix_known(t, ls, first_known(t, ls, k)),
    decreases ls.len() - k,
{
    if k < ls.len() && !suffix_known(t, ls, k) {
        lemma_first_known_found(t, ls, k + 1);
    }
}

proof fn lemma_first_entry_found(t: Seq<(Seq<Seq<u8>>, u16)>, ls: Seq<Seq<u8>>, a: int, i: int)
    requires
        0 <= a <= i < t.len(),
        t[i].0 == ls,
    ensures
        a <= first_entry(t, ls, a) <= i,
        t[first_entry(t, ls, a)].0 == ls,
    decreases i - a,
{
    if t[a].0 != ls {
        lemma_first_entry_found(t, ls, a + 1, i);
    }
}

/// A message under composition, with a table of the names in it.
///
/// One compressor serves one message: its offsets mean nothing in another.
pub struct Compressor {
    buf: Vec<u8>,
    names: Vec<(Vec<Vec<u8>>, u16)>,
    ends: Ghost<Seq<int>>,
}

fn copy_suffix(labels: &Vec<Vec<u8>>, from: usize) -> (r: Vec<Vec<u8>>)
    requires
        from <= labels@.len(),
    ensures
        r.deep_view() == labels.deep_view().subrange(from as int, labels@.len() as int),
{
    let mut r: Vec<Vec<u8>> = Vec::new();
    let mut i: usize = from;
    while i < labels.len()
        invariant
            from <= i <= labels@.len(),
            r.deep_view() == labels.deep_view().subrange(from as int, i as int),
        decreases labels.len() - i,
    {
        let mut l: Vec<u8> = Vec::new();
        let mut k: usize = 0;
        while k < labels[i].len()
            invariant
                i < labels@.len(),
                k <= labels@[i as int]@.len(),
                l@ == labels@[i as int]@.subrange(0, k as int),
            decreases labels@[i as int]@.len() - k,
        {
            l.push(labels[i][k]);
            k = k + 1;
            assert(l@ =~= labels@[i as int]@.subrange(0, k as int));
        }
        assert(l@ =~= labels@[i as int]@);
        let ghost pre = r@;
        let ghost pre_deep = r.deep_view();
        let ghost lv = l@;
        r.push(l);
        proof {
            assert(r@ == pre.push(l));
            assert forall|k: int| 0 <= k < r@.len() implies r.deep_view()[k] == pre_deep.push(lv)[k] by {
                if k < pre.len() {
                    assert(r@[k] == pre[k]);
                }
            };
            assert(r.deep_view() =~= pre_deep.push(lv));
            assert(labels.deep_view()[i as int] == labels@[i as int]@);
            assert(labels.deep_view().subrange(from as int, i + 1)
                =~= labels.deep_view().subrange(from as int, i as int).push(labels.deep_view()[i as int]));
        }
        i = i + 1;
    }
    r
}

/// A name written as the literal labels `ls[..j]` followed by a pointer to
/// an earlier copy of `ls[j..]`, or by the root label where `j` is the end,
/// decodes to `ls` from the start of each of its literal labels.
proof fn lemma_compressed(buf: Seq<u8>, p: int, ls: Seq<Seq<u8>>, j: int, ptr: Option<u16>, k: int)
    requires
        0 <= p,
        0 <= k <= j <= ls.len(),
        forall|i: int| 0 <= i < ls.len() ==> 1 <= #[trigger] ls[i].len() <= MAX_LABEL_LEN,
        buf.subrange(p, buf.len() as int) == labels_wire(ls.subrange(0, j)) + match ptr {
            Some(off) => pointer_wire(off),
            None => seq![0u8],
        },
        p + labels_wire(ls.subrange(0, j)).len() <= buf.len(),
        ptr is None ==> j == ls.len(),
        ptr matches Some(off) ==> off < p && off <= MAX_POINTER_OFFSET
            && decode_name(buf, off as int, off as int) == Some(ls.subrange(j, ls.len() as int)),
    ensures
        ({
            let q = p + labels_wire(ls.subrange(0, k)).len();
            decode_name(buf, q, q) == Some(ls.subrange(k, ls.len() as int)) && name_end(buf, q) == buf.len()
        }),
{
    let tail = buf.subrange(p, buf.len() as int);
    let lit = ls.subrange(k, j);
    lemma_labels_wire_concat(ls.subrange(0, k), lit);
    assert(ls.subrange(0, k) + lit =~= ls.subrange(0, j));
    let q = p + labels_wire(ls.subrange(0, k)).len();
    let r = q + labels_wire(lit).len();
    assert(r == p + labels_wire(ls.subrange(0, j)).len());
    assert(buf.subrange(q, r) =~= tail.subrange(q - p, r - p));
    assert(tail.subrange(q - p, r - p) =~= labels_wire(lit));
    match ptr {
        Some(off) => {
            assert(tail.len() == r - p + 2);
            assert(buf.subrange(r, r + 2) =~= tail.subrange(r - p, r - p + 2));
            assert(tail.subrange(r - p, r - p + 2) =~= pointer_wire(off));
            lemma_decode_pointer(buf, q, r, off);
        },
        None => {
            assert(tail.len() == r - p + 1);
            assert(tail[r - p] == 0u8);
            assert(buf[r] == tail[r - p]);
            assert(ls.subrange(j, ls.len() as int) =~= Seq::<Seq<u8>>::empty());
        },
    }
    lemma_decode_literal(buf, q, q, lit);
    assert(lit + ls.subrange(j, ls.len() as int) =~= ls.subrange(k, ls.len() as int));
}

impl Compressor {
    /// The message bytes written so far.
    pub closed spec fn bytes(&self) -> Seq<u8> {
        self.buf@
    }

    /// Whether every name in the table lies within the first `n` bytes.
    pub closed spec fn names_before(&self, n: int) -> bool {
        forall|i: int| 0 <= i < self.ends@.len() ==> #[trigger] self.ends@[i] <= n
    }

    /// The names in the table with their offsets.
    pub closed spec fn table(&self) -> Seq<(Seq<Seq<u8>>, u16)> {
        self.names@.map_values(|e: (Vec<Vec<u8>>, u16)| (e.0.deep_view(), e.1))
    }

    pub closed spec fn wf(&self) -> bool {
        &&& self.names@.len() == self.ends@.len()
        &&& forall|i: int| 0 <= i < self.names@.len() ==> entry_ok(self.buf@,
            #[trigger] self.names@[i].0.deep_view(), self.names@[i].1, self.ends@[i])
    }

    /// An empty message.
    pub fn new() -> (r: Compressor)
        ensures
            r.wf(),
            r.bytes() == Seq::<u8>::empty(),
            r.table() == Seq::<(Seq<Seq<u8>>, u16)>::empty(),
    {
        let r = Compressor { buf: Vec::new(), names: Vec::new(), ends: Ghost(Seq::empty()) };
        assert(r.table() =~= Seq::<(Seq<Seq<u8>>, u16)>::empty());
        r
    }

    /// The length of the message so far.
    pub fn len(&self) -> (r: usize)
        ensures
            r == self.bytes().len(),
    {
        self.buf.len()
    }

    /// The message bytes written so far.
    pub fn as_slice(&self) -> (r: &[u8])
        ensures
            r@ == self.bytes(),
    {
        self.buf.as_slice()
    }

    /// Trades the compressor for the message bytes.
    pub fn finish(self) -> (r: Vec<u8>)
        ensures
            r@ == self.bytes(),
    {
        self.buf
    }

    /// The compressed form of a valid name against this table, written at
    /// the end of the message after every name in the table, reads back as
    /// the name.
    pub proof fn lemma_reads_compressed(&self, p: int, ls: Seq<Seq<u8>>)
        requires
            self.wf(),
            labels_valid(ls),
            0 <= p,
            self.names_before(p),
            p + compressed_name(self.table(), ls).len() == self.bytes().len(),
            self.bytes().subrange(p, self.bytes().len() as int) == compressed_name(self.table(), ls),
        ensures
            name_parse_result(self.bytes(), p) == Ok::<(Seq<Seq<u8>>, int), NameError>((ls, self.bytes().len() as int)),
    {
        let t = self.table();
        let j = first_known(t, ls, 0);
        let buf = self.bytes();
        lemma_first_known_bound(t, ls, 0);
        if j < ls.len() {
            lemma_first_known_found(t, ls, 0);
            let x = ls.subrange(j, ls.len() as int);
            let i0 = choose|i: int| 0 <= i < t.len() && #[trigger] t[i].0 == x;
            lemma_first_entry_found(t, x, 0, i0);
            let e = first_entry(t, x, 0);
            let off = t[e].1;
            assert(t[e] == (self.names@[e].0.deep_view(), self.names@[e].1));
            assert(entry_ok(self.buf@, self.names@[e].0.deep_view(), self.names@[e].1, self.ends@[e]));
            let end = self.ends@[e];
            lemma_decode_start_bound(buf.subrange(0, end), off as int);
            lemma_decode_extend(buf.subrange(0, end), buf.subrange(end, buf.len() as int), off as int, off as int);
            assert(buf.subrange(0, end) + buf.subrange(end, buf.len() as int) =~= buf);
            lemma_compressed(buf, p, ls, j, Some(off), 0);
        } else {
            assert(ls.subrange(0, j) =~= ls);
            assert(labels_wire(ls.subrange(0, j)) + seq![0u8] =~= name_wire(ls));
            lemma_compressed(buf, p, ls, j, None, 0);
        }
        assert(ls.subrange(0, 0) =~= Seq::<Seq<u8>>::empty());
        assert(ls.subrange(0, ls.len() as int) =~= ls);
    }

    /// Every name in the table lies within the message.
    pub proof fn lemma_names_within(&self)
        requires
            self.wf(),
        ensures
            self.names_before(self.bytes().len() as int),
    {
        assert forall|i: int| 0 <= i < self.ends@.len() implies #[trigger] self.ends@[i] <= self.bytes().len() by {
            assert(entry_ok(self.buf@, self.names@[i].0.deep_view(), self.names@[i].1, self.ends@[i]));
        };
    }

    /// A bound on the names in the table holds of every larger bound.
    pub proof fn lemma_names_before_mono(&self, a: int, b: int)
        requires
            self.names_before(a),
            a <= b,
        ensures
            self.names_before(b),
    {
    }

    proof fn lemma_append_keeps(&self, old_c: &Compressor)
        requires
            old_c.wf(),
            self.names == old_c.names,
            self.ends == old_c.ends,
            self.buf@.len() >= old_c.buf@.len(),
            self.buf@.subrange(0, old_c.buf@.len() as int) == old_c.buf@,
        ensures
            self.wf(),
    {
        assert forall|i: int| 0 <= i < self.names@.len() implies entry_ok(self.buf@,
            #[trigger] self.names@[i].0.deep_view(), self.names@[i].1, self.ends@[i]) by {
            let e = self.ends@[i];
            assert(entry_ok(old_c.buf@, old_c.names@[i].0.deep_view(), old_c.names@[i].1, old_c.ends@[i]));
            assert(self.buf@.subrange(0, e) =~= old_c.buf@.subrange(0, e));
        };
    }

    /// Appends a big-endian 16-bit integer.
    pub fn push_u16(&mut self, v: u16)
        requires
            old(self).wf(),
        ensures
            final(self).wf(),
            final(self).bytes() == old(self).bytes() + be16(v),
            final(self).table() == old(self).table(),
            forall|n: int| old(self).names_before(n) ==> final(self).names_before(n),
    {
        push_u16(&mut self.buf, v);
        proof {
            assert(self.buf@.subrange(0, old(self).buf@.len() as int) =~= old(self).buf@);
            self.lemma_append_keeps(old(self));
        }
    }

    /// Appends a big-endian 32-bit integer.
    pub fn push_u32(&mut self, v: u32)
        requires
            old(self).wf(),
        ensures
            final(self).wf(),
            final(self).bytes() == old(self).bytes() + be32(v),
            final(self).table() == old(self).table(),
            forall|n: int| old(self).names_before(n) ==> final(self).names_before(n),
    {
        push_u32(&mut self.buf, v);
        proof {
            assert(self.buf@.subrange(0, old(self).buf@.len() as int) =~= old(self).buf@);
            self.lemma_append_keeps(old(self));
        }
    }

    /// Appends raw bytes, which are never taken for a name.
    pub fn push_bytes(&mut self, b: &[u8])
        requires
            old(self).wf(),
        ensures
            final(self).wf(),
            final(self).bytes() == old(self).bytes() + b@,
            final(self).table() == old(self).table(),
            forall|n: int| old(self).names_before(n) ==> final(self).names_before(n),
    {
        let mut i: usize = 0;
        while i < b.len()
            invariant
                i <= b@.len(),
                self.names == old(self).names,
                self.ends == old(self).ends,
                self.buf@ == old(self).buf@ + b@.subrange(0, i as int),
            decreases b.len() - i,
        {
            self.buf.push(b[i]);
            i = i + 1;
            assert(self.buf@ =~= old(self).buf@ + b@.subrange(0, i as int));
        }
        proof {
            assert(b@.subrange(0, i as int) =~= b@);
            assert(self.buf@.subrange(0, old(self).buf@.len() as int) =~= old(self).buf@);
            self.lemma_append_keeps(old(self));
        }
    }

    /// Overwrites the two bytes at `pos` with `v` in network order. No name
    /// in the table may reach those bytes.
    pub fn patch_u16(&mut self, pos: usize, v: u16)
        requires
            old(self).wf(),
            pos + 2 <= old(self).bytes().len(),
            old(self).names_before(pos as int),
        ensures
            final(self).wf(),
            final(self).bytes() == old(self).bytes().subrange(0, pos as int) + be16(v)
                + old(self).bytes().subrange(pos + 2, old(self).bytes().len() as int),
            final(self).table() == old(self).table(),
            forall|n: int| old(self).names_before(n) ==> final(self).names_before(n),
    {
        let n: usize = self.buf.len();
        assert(pos + 2 <= n);
        let next: usize = pos + 1;
        self.buf.set(pos, (v / 256) as u8);
        self.buf.set(next, (v % 256) as u8);
        proof {
            assert(self.buf@ =~= old(self).bytes().subrange(0, pos as int) + be16(v)
                + old(self).bytes().subrange(pos + 2, old(self).bytes().len() as int));
            assert forall|i: int| 0 <= i < self.names@.len() implies entry_ok(self.buf@,
                #[trigger] self.names@[i].0.deep_view(), self.names@[i].1, self.ends@[i]) by {
                let e = self.ends@[i];
                assert(entry_ok(old(self).buf@, old(self).names@[i].0.deep_view(), old(self).names@[i].1, old(self).ends@[i]));
                assert(e <= pos);
                assert(self.buf@.subrange(0, e) =~= old(self).buf@.subrange(0, e));
            };
        }
    }

    /// The offset of a name in the table equal to the labels of `labels`
    /// from `from` on.
    fn find(&self, labels: &Vec<Vec<u8>>, from: usize) -> (r: Option<u16>)
        requires
            from <= labels@.len(),
        ensures
            r matches Some(off) ==> exists|i: int| 0 <= i < self.names@.len()
                && self.names@[i].0.deep_view() == labels.deep_view().subrange(from as int, labels@.len() as int)
                && #[trigger] self.names@[i].1 == off,
            r matches Some(off) ==> off == self.table()[first_entry(self.table(),
                labels.deep_view().subrange(from as int, labels@.len() as int), 0)].1,
            r is None ==> forall|i: int| 0 <= i < self.names@.len()
                ==> #[trigger] self.names@[i].0.deep_view() != labels.deep_view().subrange(from as int, labels@.len() as int),
    {
        let mut i: usize = 0;
        while i < self.names.len()
            invariant
                from <= labels@.len(),
                i <= self.names@.len(),
                forall|k: int| 0 <= k < i ==> #[trigger] self.names@[k].0.deep_view()
                    != labels.deep_view().subrange(from as int, labels@.len() as int),
            decreases self.names.len() - i,
        {
            if crate::name::suffix_eq(labels, from, &self.names[i].0) {
                proof {
                    let x = labels.deep_view().subrange(from as int, labels@.len() as int);
                    assert forall|k: int| 0 <= k < i implies #[trigger] self.table()[k].0 != x by {
                        assert(self.table()[k].0 == self.names@[k].0.deep_view());
                    };
                    lemma_first_entry_skip(self.table(), x, 0, i as int);
                    assert(self.table()[i as int].0 == self.names@[i as int].0.deep_view());
                }
                return Some(self.names[i].1);
            }
            i = i + 1;
        }
        None
    }
}

/// A decodable name starts within the buffer.
proof fn lemma_decode_start_bound(buf: Seq<u8>, start: int)
    requires
        decode_name(buf, start, start) is Some,
    ensures
        0 <= start < buf.len(),
{
}

/// The wire form of at least one label takes at least two bytes.
proof fn lemma_labels_wire_nonempty(ls: Seq<Seq<u8>>)
    requires
        ls.len() > 0,
        ls[0].len() >= 1,
    ensures
        labels_wire(ls).len() >= 2,
{
}

impl Compressor {
    /// Appends the name, replacing its longest suffix already in the table
    /// by a pointer, and enters each suffix it writes in full whose offset
    /// a pointer can hold.
    pub fn compress_name(&mut self, name: &Dname)
        requires
            old(self).wf(),
        ensures
            final(self).wf(),
            final(self).names_before(final(self).bytes().len() as int),
            final(self).bytes() == old(self).bytes() + compressed_name(old(self).table(), name@),
            final(self).bytes().len() <= old(self).bytes().len() + name_wire(name@).len(),
            final(self).table() == old(self).table() + new_entries(name@, old(self).bytes().len() as int,
                first_known(old(self).table(), name@, 0)),
            parse_name(final(self).bytes(), old(self).bytes().len() as int)
                == Some((name@, final(self).bytes().len() as int)),
            (exists|j: int| 0 <= j < name@.len() && #[trigger] suffix_known(old(self).table(), name@, j))
                ==> final(self).bytes().len() < old(self).bytes().len() + name_wire(name@).len(),
    {
        self.write_name(name, true)
    }

    /// Appends the name as `compress_name` does, but leaves the table as it
    /// is: for names whose place may later be passed over by a patch.
    pub fn compress_name_unentered(&mut self, name: &Dname)
        requires
            old(self).wf(),
        ensures
            final(self).wf(),
            final(self).bytes() == old(self).bytes() + compressed_name(old(self).table(), name@),
            final(self).bytes().len() <= old(self).bytes().len() + name_wire(name@).len(),
            final(self).table() == old(self).table(),
            forall|n: int| old(self).names_before(n) ==> final(self).names_before(n),
    {
        self.write_name(name, false)
    }

    fn write_name(&mut self, name: &Dname, enter: bool)
        requires
            old(self).wf(),
        ensures
            !enter ==> final(self).table() == old(self).table(),
            !enter ==> forall|n: int| old(self).names_before(n) ==> final(self).names_before(n),
            final(self).wf(),
            final(self).bytes() == old(self).bytes() + compressed_name(old(self).table(), name@),
            final(self).bytes().len() <= old(self).bytes().len() + name_wire(name@).len(),
            enter ==> final(self).names_before(final(self).bytes().len() as int),
            enter ==> final(self).table() == old(self).table() + new_entries(name@, old(self).bytes().len() as int,
                first_known(old(self).table(), name@, 0)),
            parse_name(final(self).bytes(), old(self).bytes().len() as int)
                == Some((name@, final(self).bytes().len() as int)),
            (exists|j: int| 0 <= j < name@.len() && #[trigger] suffix_known(old(self).table(), name@, j))
                ==> final(self).bytes().len() < old(self).bytes().len() + name_wire(name@).len(),
    {
        proof { use_type_invariant(name); }
        let ghost old_c = *self;
        let labels = name.labels();
        let p = self.buf.len();
        let n = labels.len();
        let mut j: usize = 0;
        let mut found: Option<u16> = None;
        while found.is_none() && j < n
            invariant
                n == labels@.len(),
                j <= n,
                *self == old_c,
                labels.deep_view() == name@,
                forall|k: int, i: int| 0 <= k < j && 0 <= i < self.names@.len()
                    ==> #[trigger] self.names@[i].0.deep_view() != #[trigger] name@.subrange(k, n as int),
                found matches Some(off) ==> j < n && exists|i: int| 0 <= i < self.names@.len()
                    && self.names@[i].0.deep_view() == name@.subrange(j as int, n as int)
                    && #[trigger] self.names@[i].1 == off,
                found matches Some(off) ==> off == self.table()[first_entry(self.table(),
                    name@.subrange(j as int, n as int), 0)].1,
            decreases n - j + if found is None { 1int } else { 0int },
        {
            let f = self.find(labels, j);
            if f.is_none() {
                j = j + 1;
            } else {
                found = f;
            }
        }
        proof {
            if found is None {
                assert(j == n);
            }
            assert forall|jj: int| 0 <= jj < j && #[trigger] suffix_known(old_c.table(), name@, jj) implies false by {
                let i = choose|i: int| 0 <= i < old_c.table().len() && #[trigger] old_c.table()[i].0 == name@.subrange(jj, n as int);
                assert(old_c.table()[i].0 == old_c.names@[i].0.deep_view());
            };
            lemma_first_known_skip(old_c.table(), name@, 0, j as int);
            if let Some(off) = found {
                let i = choose|i: int| 0 <= i < old_c.names@.len()
                    && old_c.names@[i].0.deep_view() == name@.subrange(j as int, n as int)
                    && #[trigger] old_c.names@[i].1 == off;
                assert(old_c.table()[i].0 == name@.subrange(j as int, n as int));
                assert(suffix_known(old_c.table(), name@, j as int));
            }
            assert(first_known(old_c.table(), name@, 0) == j);
            assert forall|i: int| 0 <= i < labels@.len() implies #[trigger] labels@[i]@.len() <= MAX_LABEL_LEN by {
                assert(name@[i] == labels@[i]@);
            };
        }
        crate::name::push_labels(&mut self.buf, labels, 0, j);
        let ghost lit = self.buf@;
        match found {
            Some(off) => {
                self.buf.push((192 + off / 256) as u8);
                self.buf.push((off % 256) as u8);
            },
            None => {
                self.buf.push(0);
            },
        }
        let end = self.buf.len();
        let ghost tail = name_tail(found);
        proof {
            assert(self.buf@ =~= old_c.buf@ + labels_wire(name@.subrange(0, j as int)) + tail);
            if found is None {
                assert(name@.subrange(0, j as int) =~= name@);
            }
            assert(self.buf@ =~= old_c.buf@ + compressed_name(old_c.table(), name@));
            assert(self.buf@.subrange(p as int, end as int) =~= labels_wire(name@.subrange(0, j as int)) + tail);
            assert(self.buf@.subrange(0, p as int) =~= old_c.buf@);
            self.lemma_append_keeps(&old_c);
            if let Some(off) = found {
                let i = choose|i: int| 0 <= i < self.names@.len()
                    && self.names@[i].0.deep_view() == name@.subrange(j as int, n as int)
                    && #[trigger] self.names@[i].1 == off;
                let e = self.ends@[i];
                assert(entry_ok(old_c.buf@, old_c.names@[i].0.deep_view(), old_c.names@[i].1, old_c.ends@[i]));
                assert(old_c.buf@.subrange(0, e) =~= self.buf@.subrange(0, e));
                lemma_decode_start_bound(self.buf@.subrange(0, e), off as int);
                lemma_decode_extend(self.buf@.subrange(0, e), self.buf@.subrange(e, end as int), off as int, off as int);
                assert(self.buf@.subrange(0, e) + self.buf@.subrange(e, end as int) =~= self.buf@);
            }
            lemma_compressed(self.buf@, p as int, name@, j as int, found, 0);
            assert(name@.subrange(0, 0) =~= Seq::<Seq<u8>>::empty());
            assert(name@.subrange(0, n as int) =~= name@);
            lemma_labels_wire_concat(name@.subrange(0, j as int), name@.subrange(j as int, n as int));
            assert(name@.subrange(0, j as int) + name@.subrange(j as int, n as int) =~= name@);
            if found is Some {
                lemma_labels_wire_nonempty(name@.subrange(j as int, n as int));
            }
        }
        if enter {
            self.enter_suffixes(labels, p, j, found);
        }
    }

    /// Enters in the table the suffixes of the name just written at `p`
    /// whose labels before `j` were written in full.
    fn enter_suffixes(&mut self, labels: &Vec<Vec<u8>>, p: usize, j: usize, found: Option<u16>)
        requires
            old(self).wf(),
            labels_valid(labels.deep_view()),
            j <= labels@.len(),
            found is None ==> j == labels@.len(),
            p + labels_wire(labels.deep_view().subrange(0, j as int)).len() <= old(self).bytes().len(),
            old(self).bytes().subrange(p as int, old(self).bytes().len() as int)
                == labels_wire(labels.deep_view().subrange(0, j as int)) + name_tail(found),
            found matches Some(off) ==> off < p && off <= MAX_POINTER_OFFSET
                && decode_name(old(self).bytes(), off as int, off as int)
                    == Some(labels.deep_view().subrange(j as int, labels@.len() as int)),
        ensures
            final(self).wf(),
            final(self).bytes() == old(self).bytes(),
            final(self).names_before(final(self).bytes().len() as int),
            final(self).table() == old(self).table() + new_entries(labels.deep_view(), p as int, j as int),
    {
        let n = labels.len();
        let end = self.buf.len();
        let ghost tail = name_tail(found);
        proof { self.lemma_names_within(); }
        assert(old(self).table() + new_entries(labels.deep_view(), p as int, 0) =~= old(self).table());
        let mut k: usize = 0;
        let mut q: usize = p;
        while k < j
            invariant
                self.wf(),
                self.buf@ == old(self).buf@,
                end == self.buf@.len(),
                old(self).names_before(end as int),
                self.names_before(end as int),
                k <= j <= n,
                n == labels@.len(),
                labels_valid(labels.deep_view()),
                q == p + labels_wire(labels.deep_view().subrange(0, k as int)).len(),
                q <= end,
                p + labels_wire(labels.deep_view().subrange(0, j as int)).len() <= end,
                self.buf@.subrange(p as int, end as int) == labels_wire(labels.deep_view().subrange(0, j as int)) + tail,
                tail == name_tail(found),
                found is None ==> j == n,
                found matches Some(off) ==> off < p && off <= MAX_POINTER_OFFSET
                    && decode_name(self.buf@, off as int, off as int) == Some(labels.deep_view().subrange(j as int, n as int)),
                self.table() == old(self).table() + new_entries(labels.deep_view(), p as int, k as int),
            decreases j - k,
        {
            if q <= MAX_POINTER_OFFSET {
                proof {
                    lemma_compressed(self.buf@, p as int, labels.deep_view(), j as int, found, k as int);
                    assert(self.buf@.subrange(0, end as int) =~= self.buf@);
                }
                let suffix = copy_suffix(labels, k);
                let ghost before = self.names@;
                let ghost sv = suffix.deep_view();
                let ghost tb = self.table();
                self.names.push((suffix, q as u16));
                self.ends = Ghost(self.ends@.push(end as int));
                proof {
                    assert(self.names@ == before.push((suffix, q as u16)));
                    assert(self.table() =~= tb.push((sv, q as u16))) by {
                        assert forall|i: int| 0 <= i < tb.len() implies self.table()[i] == tb[i] by {
                            assert(self.names@[i] == before[i]);
                        };
                        assert(self.table()[tb.len() as int] == (self.names@[tb.len() as int].0.deep_view(), q as u16));
                    };
                    assert(new_entries(labels.deep_view(), p as int, k + 1)
                        == new_entries(labels.deep_view(), p as int, k as int).push((labels.deep_view().subrange(k as int, n as int), q as u16)));
                    assert(self.table() =~= old(self).table() + new_entries(labels.deep_view(), p as int, k + 1));
                }
            } else {
                proof {
                    assert(new_entries(labels.deep_view(), p as int, k + 1) == new_entries(labels.deep_view(), p as int, k as int));
                }
            }
            proof {
                assert(labels.deep_view().subrange(0, k + 1) =~= labels.deep_view().subrange(0, k as int).push(labels.deep_view()[k as int]));
                crate::name::lemma_labels_wire_push(labels.deep_view().subrange(0, k as int), labels.deep_view()[k as int]);
                lemma_labels_wire_concat(labels.deep_view().subrange(0, k + 1), labels.deep_view().subrange(k + 1, j as int));
                assert(labels.deep_view().subrange(0, k + 1) + labels.deep_view().subrange(k + 1, j as int) =~= labels.deep_view().subrange(0, j as int));
                assert(labels.deep_view()[k as int] == labels@[k as int]@);
            }
            q = q + 1 + labels[k].len();
            k = k + 1;
        }
    }
}

} // verus!