//! Writing big-endian binary data.
use crate::read::{be_u16, be_u32, to_i16, to_i32, Readable};
use vstd::prelude::*;

verus! {

/// The two big-endian bytes of a 16-bit value.
pub open spec fn u16_bytes(v: int) -> Seq<u8> {
    seq![(v / 256) as u8, (v % 256) as u8]
}

/// The four big-endian bytes of a 32-bit value.
pub open spec fn u32_bytes(v: int) -> Seq<u8> {
    seq![
        (v / 0x100_0000) as u8,
        (v / 0x1_0000 % 256) as u8,
        (v / 256 % 256) as u8,
        (v % 256) as u8,
    ]
}

/// A writable stream of binary data.
pub struct Writer(Vec<u8>);

impl View for Writer {
    type V = Seq<u8>;

    closed spec fn view(&self) -> Seq<u8> {
        self.0@
    }
}

/// Trait for an object that can be written into a byte stream.
pub trait Writeable {
    /// The bytes that writing the value appends.
    spec fn spec_bytes(&self) -> Seq<u8>;

    /// Write the value into the stream.
    fn write(&self, w: &mut Writer)
        ensures
            final(w)@ == old(w)@ + self.spec_bytes(),
    ;
}

/// The zeros that pad `len` bytes to a multiple of `to`.
pub open spec fn align_padding(len: int, to: int) -> Seq<u8> {
    Seq::new(((to - len % to) % to) as nat, |i: int| 0u8)
}

impl Writer {
    /// Create a new writable stream of binary data.
    pub fn new() -> (w: Self)
        ensures
            w@ == Seq::<u8>::empty(),
    {
        Self(Vec::with_capacity(1024))
    }

    /// Create a new writable stream of binary data with a capacity.
    pub fn with_capacity(capacity: usize) -> (w: Self)
        ensures
            w@ == Seq::<u8>::empty(),
    {
        Self(Vec::with_capacity(capacity))
    }

    /// Write `T` into the data.
    pub fn write<T: Writeable>(&mut self, data: T)
        ensures
            final(self)@ == old(self)@ + data.spec_bytes(),
    {
        data.write(self);
    }

    /// Write each element of a slice.
    pub fn write_vector<T: Writeable>(&mut self, data: &[T])
        ensures
            final(self)@ == old(self)@ + seq_bytes(data@),
    {
        let mut i: usize = 0;
        while i < data.len()
            invariant
                0 <= i <= data@.len(),
                self@ == old(self)@ + seq_bytes(data@.take(i as int)),
            decreases data@.len() - i,
        {
            proof {
                assert(data@.take(i + 1).drop_last() == data@.take(i as int));
            }
            data[i].write(self);
            i = i + 1;
        }
        assert(data@.take(data@.len() as int) == data@);
    }

    /// Give bytes into the writer.
    pub fn extend(&mut self, bytes: &[u8])
        ensures
            final(self)@ == old(self)@ + bytes@,
    {
        self.0.extend_from_slice(bytes);
        assert(self.0@ =~= old(self)@ + bytes@);
    }

    /// Append a single byte.
    pub fn push(&mut self, byte: u8)
        ensures
            final(self)@ == old(self)@.push(byte),
    {
        self.0.push(byte);
    }

    /// Align the contents to a byte boundary.
    pub fn align(&mut self, to: usize)
        requires
            to > 0,
        ensures
            final(self)@.len() as int % (to as int) == 0,
            final(self)@.len() >= old(self)@.len(),
            final(self)@.len() < old(self)@.len() + to,
            final(self)@.subrange(0, old(self)@.len() as int) == old(self)@,
            forall|i: int| old(self)@.len() <= i < final(self)@.len() ==> final(self)@[i] == 0,
            final(self)@ == old(self)@ + align_padding(old(self)@.len() as int, to as int),
    {
        let len = self.0.len();
        let pad: usize = (to - len % to) % to;
        proof {
            let l = len as int;
            let t = to as int;
            assert((l + (t - l % t) % t) % t == 0) by (nonlinear_arith) requires t > 0, l >= 0;
        }
        let mut i: usize = 0;
        while i < pad
            invariant
                i <= pad,
                self@.len() == len + i,
                len == old(self)@.len(),
                self@.subrange(0, len as int) == old(self)@,
                forall|j: int| len <= j < self@.len() ==> self@[j] == 0,
            decreases pad - i,
        {
            self.0.push(0);
            i = i + 1;
            assert(self@.subrange(0, len as int) =~= old(self)@);
        }
        assert(self@ =~= old(self)@ + align_padding(len as int, to as int));
    }

    /// The number of written bytes.
    pub fn len(&self) -> (res: usize)
        ensures
            res == self@.len(),
    {
        self.0.len()
    }

    /// Return the written bytes.
    pub fn finish(self) -> (res: Vec<u8>)
        ensures
            res@ == self@,
    {
        self.0
    }
}

/// The bytes of a sequence of writeable values, one after the other.
pub open spec fn seq_bytes<T: Writeable>(s: Seq<T>) -> Seq<u8>
    decreases s.len(),
{
    if s.len() == 0 {
        Seq::empty()
    } else {
        seq_bytes(s.drop_last()) + s.last().spec_bytes()
    }
}

impl Writeable for u8 {
    open spec fn spec_bytes(&self) -> Seq<u8> {
        seq![*self]
    }

    fn write(&self, w: &mut Writer) {
        w.push(*self);
    }
}

impl Writeable for u16 {
    open spec fn spec_bytes(&self) -> Seq<u8> {
        u16_bytes(*self as int)
    }

    fn write(&self, w: &mut Writer) {
        w.push((*self / 256) as u8);
        w.push((*self % 256) as u8);
        assert(w@ =~= old(w)@ + self.spec_bytes());
    }
}

impl Writeable for i16 {
    open spec fn spec_bytes(&self) -> Seq<u8> {
        u16_bytes(if *self < 0 { *self + 0x10000 } else { *self as int })
    }

    fn write(&self, w: &mut Writer) {
        let v: u16 = if *self < 0 { (*self as i32 + 0x10000) as u16 } else { *self as u16 };
        v.write(w);
    }
}

impl Writeable for u32 {
    open spec fn spec_bytes(&self) -> Seq<u8> {
        u32_bytes(*self as int)
    }

    fn write(&self, w: &mut Writer) {
        let v = *self;
        w.push((v / 0x100_0000) as u8);
        w.push((v / 0x1_0000 % 256) as u8);
        w.push((v / 256 % 256) as u8);
        w.push((v % 256) as u8);
        assert(w@ =~= old(w)@ + self.spec_bytes());
    }
}

impl Writeable for i32 {
    open spec fn spec_bytes(&self) -> Seq<u8> {
        u32_bytes(if *self < 0 { *self + 0x1_0000_0000 } else { *self as int })
    }

    fn write(&self, w: &mut Writer) {
        let v: u32 = if *self < 0 { (*self as i64 + 0x1_0000_0000) as u32 } else { *self as u32 };
        v.write(w);
    }
}

/// Writing a `u16` and reading it back gives the same value.
pub proof fn lemma_u16_roundtrip(v: u16)
    ensures
        v.spec_bytes().len() == <u16 as Readable>::spec_size(),
        <u16 as Readable>::spec_parse(v.spec_bytes()) == Some(v),
{
    let b = v.spec_bytes();
    assert(be_u16(b[0], b[1]) == v);
}

/// Writing an `i16` and reading it back gives the same value.
pub proof fn lemma_i16_roundtrip(v: i16)
    ensures
        v.spec_bytes().len() == <i16 as Readable>::spec_size(),
        <i16 as Readable>::spec_parse(v.spec_bytes()) == Some(v),
{
    let b = v.spec_bytes();
    let u: int = if v < 0 { v + 0x10000 } else { v as int };
    assert(be_u16(b[0], b[1]) == u);
    assert(to_i16(u) == v);
}

/// Writing a `u32` and reading it back gives the same value.
pub proof fn lemma_u32_roundtrip(v: u32)
    ensures
        v.spec_bytes().len() == <u32 as Readable>::spec_size(),
        <u32 as Readable>::spec_parse(v.spec_bytes()) == Some(v),
{
    let b = v.spec_bytes();
    assert(be_u32(b[0], b[1], b[2], b[3]) == v);
}

/// Writing an `i32` and reading it back gives the same value.
pub proof fn lemma_i32_roundtrip(v: i32)
    ensures
        v.spec_bytes().len() == <i32 as Readable>::spec_size(),
        <i32 as Readable>::spec_parse(v.spec_bytes()) == Some(v),
{
    let b = v.spec_bytes();
    let u: int = if v < 0 { v + 0x1_0000_0000 } else { v as int };
    assert(be_u32(b[0], b[1], b[2], b[3]) == u);
    assert(to_i32(u) == v);
}

/// Byte strings one after the other: what a new writer holds after each of them has been
/// written to it in order.
pub open spec fn concat_parts(parts: Seq<Seq<u8>>) -> Seq<u8>
    decreases parts.len(),
{
    if parts.len() == 0 {
        Seq::empty()
    } else {
        concat_parts(parts.drop_last()) + parts.last()
    }
}

/// Law: a writer holds what was written to it, in the order it was written. A new writer
/// holds nothing; writing one more part appends it; and each part lies at the total length
/// of the parts written before it.
pub proof fn lemma_writes_concatenate(parts: Seq<Seq<u8>>, part: Seq<u8>)
    ensures
        concat_parts(Seq::empty()) == Seq::<u8>::empty(),
        concat_parts(parts.push(part)) == concat_parts(parts) + part,
        forall|j: int, t: int|
            0 <= j < parts.len() && 0 <= t < parts[j].len() ==> #[trigger] concat_parts(parts)[concat_parts(
                parts.take(j),
            ).len() + t] == #[trigger] parts[j][t],
{
    assert(parts.push(part).drop_last() =~= parts);
    assert forall|j: int, t: int|
        0 <= j < parts.len() && 0 <= t < parts[j].len() implies #[trigger] concat_parts(parts)[concat_parts(
            parts.take(j),
        ).len() + t] == #[trigger] parts[j][t] by {
        lemma_part_at(parts, j, t);
    }
}

/// Part `j` lies at the total length of the parts before it.
proof fn lemma_part_at(parts: Seq<Seq<u8>>, j: int, t: int)
    requires
        0 <= j < parts.len(),
        0 <= t < parts[j].len(),
    ensures
        concat_parts(parts.take(j)).len() + t < concat_parts(parts).len(),
        concat_parts(parts)[concat_parts(parts.take(j)).len() + t] == parts[j][t],
    decreases parts.len(),
{
    let init = parts.drop_last();
    if j < parts.len() - 1 {
        lemma_part_at(init, j, t);
        assert(parts.take(j) =~= init.take(j));
        assert(init[j] == parts[j]);
    } else {
        assert(parts.take(j) =~= init);
    }
}

/// The total length of byte strings.
pub open spec fn parts_len(parts: Seq<Seq<u8>>) -> int
    decreases parts.len(),
{
    if parts.len() == 0 {
        0
    } else {
        parts_len(parts.drop_last()) + parts.last().len()
    }
}

/// The contents after the first `k` writes are the first `k` parts, one after the other.
proof fn lemma_history_prefix(parts: Seq<Seq<u8>>, ws: Seq<Seq<u8>>, k: int)
    requires
        ws.len() == parts.len() + 1,
        ws[0] == Seq::<u8>::empty(),
        forall|j: int| 0 <= j < parts.len() ==> #[trigger] ws[j + 1] == ws[j] + parts[j],
        0 <= k < ws.len(),
    ensures
        ws[k] == concat_parts(parts.take(k)),
        ws[k].len() == parts_len(parts.take(k)),
    decreases k,
{
    if k == 0 {
        assert(parts.take(0) =~= Seq::<Seq<u8>>::empty());
    } else {
        lemma_history_prefix(parts, ws, k - 1);
        let j = k - 1;
        assert(ws[j + 1] == ws[j] + parts[j]);
        assert(j + 1 == k);
        assert(parts.take(k).drop_last() =~= parts.take(k - 1));
        assert(parts.take(k).last() == parts[k - 1]);
    }
}

/// Law: a writer holds everything written to it, in the order of the calls. `ws` are a
/// writer's contents when new, then after each of a sequence of calls, each of which
/// appends its part (as `write`, `extend`, `push` and `align` state). Then after `k` calls
/// it holds the first `k` parts one after the other; in the end it holds all the parts,
/// and its length, which `finish` hands back with them, is the sum of their lengths.
pub proof fn lemma_writer_history(parts: Seq<Seq<u8>>, ws: Seq<Seq<u8>>)
    requires
        ws.len() == parts.len() + 1,
        ws[0] == Seq::<u8>::empty(),
        forall|j: int| 0 <= j < parts.len() ==> #[trigger] ws[j + 1] == ws[j] + parts[j],
    ensures
        forall|k: int| 0 <= k < ws.len() ==> #[trigger] ws[k] == concat_parts(parts.take(k)),
        ws.last() == concat_parts(parts),
        ws.last().len() == parts_len(parts),
{
    assert forall|k: int| 0 <= k < ws.len() implies #[trigger] ws[k] == concat_parts(parts.take(k)) by {
        lemma_history_prefix(parts, ws, k);
    }
    lemma_history_prefix(parts, ws, parts.len() as int);
    assert(parts.take(parts.len() as int) =~= parts);
}

} // verus!
