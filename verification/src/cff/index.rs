//! CFF INDEX structures: reading and writing.
use crate::cff::number::{u24_bytes, U24, U24_MAX};
use crate::read::{
    be_u16, be_u32, lemma_has_rest, lemma_reader_advance, lemma_reader_rest, Readable, Reader,
};
use crate::write::{u16_bytes, u32_bytes, Writeable, Writer};
use crate::Error;
use vstd::prelude::*;

verus! {

/// The type of the count field of an INDEX.
pub trait IndexSize: Readable {
    /// The count as a 32-bit number.
    spec fn spec_to_u32(&self) -> u32;

    /// The count as a 32-bit number.
    fn to_u32(self) -> (res: u32)
        ensures
            res == self.spec_to_u32(),
    ;
}

impl IndexSize for u16 {
    open spec fn spec_to_u32(&self) -> u32 {
        *self as u32
    }

    fn to_u32(self) -> u32 {
        self as u32
    }
}

impl IndexSize for u32 {
    open spec fn spec_to_u32(&self) -> u32 {
        *self
    }

    fn to_u32(self) -> u32 {
        self
    }
}

/// The size of the offsets in an INDEX.
#[derive(Clone, Copy, PartialEq, Eq, Structural, Debug)]
pub enum OffsetSize {
    /// One byte.
    Size1,
    /// Two bytes.
    Size2,
    /// Three bytes.
    Size3,
    /// Four bytes.
    Size4,
}

/// The number of bytes of an offset size.
pub open spec fn os_len(o: OffsetSize) -> nat {
    match o {
        OffsetSize::Size1 => 1,
        OffsetSize::Size2 => 2,
        OffsetSize::Size3 => 3,
        OffsetSize::Size4 => 4,
    }
}

/// The offset size a byte stands for.
pub open spec fn os_of_byte(b: u8) -> Option<OffsetSize> {
    if b == 1 {
        Some(OffsetSize::Size1)
    } else if b == 2 {
        Some(OffsetSize::Size2)
    } else if b == 3 {
        Some(OffsetSize::Size3)
    } else if b == 4 {
        Some(OffsetSize::Size4)
    } else {
        None
    }
}

impl OffsetSize {
    /// The number of bytes.
    pub fn to_u32(self) -> (res: u32)
        ensures
            res == os_len(self),
    {
        match self {
            OffsetSize::Size1 => 1,
            OffsetSize::Size2 => 2,
            OffsetSize::Size3 => 3,
            OffsetSize::Size4 => 4,
        }
    }

    /// The number of bytes.
    pub fn to_usize(self) -> (res: usize)
        ensures
            res == os_len(self),
    {
        match self {
            OffsetSize::Size1 => 1,
            OffsetSize::Size2 => 2,
            OffsetSize::Size3 => 3,
            OffsetSize::Size4 => 4,
        }
    }
}

impl Readable for OffsetSize {
    open spec fn spec_size() -> nat { 1 }

    open spec fn spec_parse(bytes: Seq<u8>) -> Option<OffsetSize> {
        os_of_byte(bytes[0])
    }

    fn size() -> usize { 1 }

    fn read(r: &mut Reader) -> (res: Option<OffsetSize>) {
        let b = r.read::<u8>()?;
        match b {
            1 => Some(OffsetSize::Size1),
            2 => Some(OffsetSize::Size2),
            3 => Some(OffsetSize::Size3),
            4 => Some(OffsetSize::Size4),
            _ => None,
        }
    }
}

/// The big-endian value of `n` bytes (`n` from 1 to 4).
pub open spec fn be_n(b: Seq<u8>, n: nat) -> int {
    if n == 1 {
        b[0] as int
    } else if n == 2 {
        be_u16(b[0], b[1])
    } else if n == 3 {
        (b[0] * 256 + b[1]) * 256 + b[2]
    } else {
        be_u32(b[0], b[1], b[2], b[3])
    }
}

/// The offsets of an INDEX, stored with a variable size.
#[derive(Clone, Copy, Debug)]
pub struct VarOffsets<'a> {
    /// The offset bytes.
    pub data: &'a [u8],
    /// The size of each offset.
    pub offset_size: OffsetSize,
}

/// The number of offsets in the offset bytes `d` of offset size `o`.
pub open spec fn spec_offsets_len(d: Seq<u8>, o: OffsetSize) -> int {
    (d.len() as u32 / (os_len(o) as u32)) as int
}

/// The offset at `index` (shifted back by one), if there is one.
pub open spec fn spec_offsets_get(d: Seq<u8>, o: OffsetSize, index: int) -> Option<u32> {
    if 0 <= index < spec_offsets_len(d, o) {
        let sz = os_len(o);
        let v = be_n(d.subrange(index * sz, index * sz + sz), sz);
        if v >= 1 {
            Some((v - 1) as u32)
        } else {
            None
        }
    } else {
        None
    }
}

/// The last offset, if there is one.
pub open spec fn spec_offsets_last(d: Seq<u8>, o: OffsetSize) -> Option<u32> {
    if spec_offsets_len(d, o) > 0 {
        spec_offsets_get(d, o, spec_offsets_len(d, o) - 1)
    } else {
        None
    }
}

impl<'a> VarOffsets<'a> {
    /// The offset at `index`, shifted back by one, since offsets count from 1.
    pub fn get(&self, index: u32) -> (res: Option<u32>)
        ensures
            res == spec_offsets_get(self.data@, self.offset_size, index as int),
    {
        if index >= self.len() {
            return None;
        }
        let sz = self.offset_size.to_usize();
        let dl: usize = self.data.len();
        #[verifier::truncate]
        let lu: u32 = dl as u32;
        proof {
            let n = (lu / (sz as u32)) as int;
            let li = lu as int;
            let szi = sz as int;
            assert(n == li / szi);
            assert(index * szi + szi <= n * szi) by (nonlinear_arith)
                requires index < n, szi >= 1;
            assert(n * szi <= li) by (nonlinear_arith) requires szi >= 1, n == li / szi, li >= 0;
            assert(lu as int <= dl) by (bit_vector) requires lu == dl as u32;
        }
        let start = index as usize * sz;
        let mut r = Reader::new_at(self.data, start);
        let ghost r0 = r;
        let n: u32 = match self.offset_size {
            OffsetSize::Size1 => {
                let b = r.read::<u8>();
                proof { lemma_reader_rest(r0, 1nat); }
                b.unwrap() as u32
            },
            OffsetSize::Size2 => {
                let b = r.read::<u16>();
                proof { lemma_reader_rest(r0, 2nat); }
                b.unwrap() as u32
            },
            OffsetSize::Size3 => {
                let b = r.read::<U24>();
                proof { lemma_reader_rest(r0, 3nat); }
                b.unwrap().0
            },
            OffsetSize::Size4 => {
                let b = r.read::<u32>();
                proof { lemma_reader_rest(r0, 4nat); }
                b.unwrap()
            },
        };
        if n >= 1 {
            Some(n - 1)
        } else {
            None
        }
    }

    /// The last offset.
    pub fn last(&self) -> (res: Option<u32>)
        ensures
            res == spec_offsets_last(self.data@, self.offset_size),
    {
        if !self.is_empty() {
            self.get(self.len() - 1)
        } else {
            None
        }
    }

    /// The number of offsets.
    pub fn len(&self) -> (res: u32)
        ensures
            res == spec_offsets_len(self.data@, self.offset_size),
    {
        #[verifier::truncate]
        let l: u32 = self.data.len() as u32;
        l / self.offset_size.to_u32()
    }

    /// Whether there are no offsets.
    pub fn is_empty(&self) -> (res: bool)
        ensures
            res == (spec_offsets_len(self.data@, self.offset_size) == 0),
    {
        self.len() == 0
    }
}

/// An INDEX: a list of byte strings.
#[derive(Clone, Copy, Debug)]
pub struct Index<'a> {
    /// The data of all items, one after the other.
    pub data: &'a [u8],
    /// The offsets of the items.
    pub offsets: VarOffsets<'a>,
}

/// The contents of an INDEX: its data, offset bytes and offset size.
pub struct IndexView {
    /// The data of all items.
    pub data: Seq<u8>,
    /// The offset bytes.
    pub offsets: Seq<u8>,
    /// The size of each offset.
    pub offset_size: OffsetSize,
}

impl IndexView {
    /// The number of items.
    pub open spec fn len(self) -> int {
        let n = spec_offsets_len(self.offsets, self.offset_size);
        if n > 0 { n - 1 } else { 0 }
    }

    /// The item at `index`, if its offsets are in order and within the data.
    pub open spec fn get(self, index: int) -> Option<Seq<u8>> {
        if index + 1 > u32::MAX {
            None
        } else {
            match (
                spec_offsets_get(self.offsets, self.offset_size, index),
                spec_offsets_get(self.offsets, self.offset_size, index + 1),
            ) {
                (Some(start), Some(end)) => if start <= end <= self.data.len() {
                    Some(self.data.subrange(start as int, end as int))
                } else {
                    None
                },
                _ => None,
            }
        }
    }
}

/// The empty INDEX.
pub open spec fn empty_index_view() -> IndexView {
    IndexView { data: Seq::empty(), offsets: Seq::empty(), offset_size: OffsetSize::Size1 }
}

impl<'a> View for Index<'a> {
    type V = IndexView;

    open spec fn view(&self) -> IndexView {
        IndexView {
            data: self.data@,
            offsets: self.offsets.data@,
            offset_size: self.offsets.offset_size,
        }
    }
}

impl<'a> Index<'a> {
    /// An empty INDEX.
    pub fn empty() -> (res: Self)
        ensures
            res@ == empty_index_view(),
    {
        let d: &[u8] = &[];
        let o: &[u8] = &[];
        assert(d@ =~= Seq::<u8>::empty());
        assert(o@ =~= Seq::<u8>::empty());
        Index { data: d, offsets: VarOffsets { data: o, offset_size: OffsetSize::Size1 } }
    }

    /// The number of items.
    pub fn len(&self) -> (res: u32)
        ensures
            res == self@.len(),
    {
        let n = self.offsets.len();
        if n > 0 { n - 1 } else { 0 }
    }

    /// The item at `index`.
    pub fn get(&self, index: u32) -> (res: Option<&'a [u8]>)
        ensures
            match self@.get(index as int) {
                Some(d) => res matches Some(s) && s@ == d,
                None => res is None,
            },
    {
        let next_index = index.checked_add(1)?;
        let start = self.offsets.get(index)?;
        let end = self.offsets.get(next_index)?;
        if start <= end && (end as usize) <= self.data.len() {
            Some(&self.data[start as usize..end as usize])
        } else {
            None
        }
    }

    /// An iterator over the items.
    pub fn iter(&self) -> (res: IndexIter<'a>)
        ensures
            res.data@ == self@,
            res.offset_index == 0,
    {
        IndexIter { data: *self, offset_index: 0 }
    }

    /// The items, up to the first one that cannot be read.
    pub fn to_vec(&self) -> (res: Vec<&'a [u8]>)
        ensures
            res@.len() <= self@.len(),
            forall|i: int| 0 <= i < res@.len() ==> self@.get(i) == Some(#[trigger] res@[i]@),
            res@.len() < self@.len() ==> self@.get(res@.len() as int) is None,
    {
        let mut it = self.iter();
        let mut v: Vec<&'a [u8]> = Vec::new();
        loop
            invariant_except_break
                it.data@ == self@,
                it.offset_index == v@.len(),
                v@.len() <= self@.len(),
                forall|i: int| 0 <= i < v@.len() ==> self@.get(i) == Some(#[trigger] v@[i]@),
            ensures
                v@.len() <= self@.len(),
                forall|i: int| 0 <= i < v@.len() ==> self@.get(i) == Some(#[trigger] v@[i]@),
                v@.len() < self@.len() ==> self@.get(v@.len() as int) is None,
            decreases self@.len() - v@.len(),
        {
            match it.next() {
                Some(item) => v.push(item),
                None => break,
            }
        }
        v
    }
}

/// The items of an INDEX from item `i` on, up to the first one that cannot be read.
pub open spec fn spec_items_from(ix: IndexView, i: int) -> Seq<Seq<u8>>
    decreases ix.len() - i,
{
    if i < 0 || i >= ix.len() {
        Seq::empty()
    } else {
        match ix.get(i) {
            Some(d) => seq![d] + spec_items_from(ix, i + 1),
            None => Seq::empty(),
        }
    }
}

/// The items of an INDEX, up to the first one that cannot be read.
pub open spec fn spec_index_items(ix: IndexView) -> Seq<Seq<u8>> {
    spec_items_from(ix, 0)
}

/// The readable items from `i` on are the items at `i`, `i + 1`, ... of any sequence that
/// holds the readable items and stops at the first unreadable one.
pub proof fn lemma_items_from(ix: IndexView, v: Seq<Seq<u8>>, i: int)
    requires
        0 <= i <= v.len(),
        v.len() <= ix.len(),
        forall|j: int| 0 <= j < v.len() ==> ix.get(j) == Some(#[trigger] v[j]),
        v.len() < ix.len() ==> ix.get(v.len() as int) is None,
    ensures
        spec_items_from(ix, i) == v.subrange(i, v.len() as int),
    decreases v.len() - i,
{
    if i < v.len() {
        lemma_items_from(ix, v, i + 1);
        assert(v.subrange(i, v.len() as int) =~= seq![v[i]] + v.subrange(i + 1, v.len() as int));
    } else {
        assert(v.subrange(i, v.len() as int) =~= Seq::<Seq<u8>>::empty());
    }
}

impl<'a> Index<'a> {
    /// The items, up to the first one that cannot be read.
    pub fn items(&self) -> (res: Vec<&'a [u8]>)
        ensures
            res@.map_values(|s: &[u8]| s@) == spec_index_items(self@),
            res@.len() <= u32::MAX,
    {
        let _ = self.len();
        let v = self.to_vec();
        let ghost vs = v@.map_values(|s: &[u8]| s@);
        proof {
            lemma_items_from(self@, vs, 0);
            assert(vs.subrange(0, vs.len() as int) =~= vs);
        }
        v
    }
}

/// An iterator over the items of an INDEX.
pub struct IndexIter<'a> {
    /// The INDEX.
    pub data: Index<'a>,
    /// The number of items handed out so far.
    pub offset_index: u32,
}

impl<'a> IndexIter<'a> {
    /// The next item; `None` at the end or at an item that cannot be read.
    pub fn next(&mut self) -> (res: Option<&'a [u8]>)
        requires
            old(self).offset_index <= old(self).data@.len(),
        ensures
            final(self).data@ == old(self).data@,
            old(self).offset_index == old(self).data@.len() ==> res is None && *final(self)
                == *old(self),
            old(self).offset_index < old(self).data@.len() ==> {
                &&& final(self).offset_index == old(self).offset_index + 1
                &&& match old(self).data@.get(old(self).offset_index as int) {
                    Some(d) => res matches Some(s) && s@ == d,
                    None => res is None,
                }
            },
    {
        if self.offset_index == self.data.len() {
            return None;
        }
        let index = self.offset_index;
        self.offset_index = self.offset_index + 1;
        self.data.get(index)
    }
}

/// Parse the body of an INDEX (after the count) from the start of `s`: the INDEX and the
/// number of bytes it takes.
pub open spec fn spec_parse_index_impl(count: u32, s: Seq<u8>) -> Option<(IndexView, nat)> {
    if count == 0 || count == u32::MAX {
        Some((empty_index_view(), 0))
    } else if s.len() < 1 {
        None
    } else {
        match os_of_byte(s[0]) {
            None => None,
            Some(o) => {
                let ol = (count + 1) * os_len(o);
                if ol > u32::MAX || s.len() < 1 + ol {
                    None
                } else {
                    let offs = s.subrange(1, 1 + ol);
                    match spec_offsets_last(offs, o) {
                        None => Some((empty_index_view(), (1 + ol) as nat)),
                        Some(last) => if s.len() < 1 + ol + last {
                            None
                        } else {
                            Some(
                                (
                                    IndexView {
                                        data: s.subrange(1 + ol, 1 + ol + last),
                                        offsets: offs,
                                        offset_size: o,
                                    },
                                    (1 + ol + last) as nat,
                                ),
                            )
                        },
                    }
                }
            },
        }
    }
}

/// Skip the body of an INDEX (after the count) at the start of `s`: the number of bytes
/// skipped. The item data is skipped only if it is all there.
pub open spec fn spec_skip_index_impl(count: u32, s: Seq<u8>) -> Option<nat> {
    if count == 0 || count == u32::MAX {
        Some(0)
    } else if s.len() < 1 {
        None
    } else {
        match os_of_byte(s[0]) {
            None => None,
            Some(o) => {
                let ol = (count + 1) * os_len(o);
                if ol > u32::MAX || s.len() < 1 + ol {
                    None
                } else {
                    let offs = s.subrange(1, 1 + ol);
                    match spec_offsets_last(offs, o) {
                        None => Some((1 + ol) as nat),
                        Some(last) => if s.len() < 1 + ol + last {
                            Some((1 + ol) as nat)
                        } else {
                            Some((1 + ol + last) as nat)
                        },
                    }
                }
            },
        }
    }
}

/// Parse an INDEX whose count has the type `T`.
pub fn parse_index<'a, T: IndexSize>(r: &mut Reader<'a>) -> (res: Option<Index<'a>>)
    ensures
        final(r).spec_data() == old(r).spec_data(),
        !old(r).has(T::spec_size()) ==> res is None,
        old(r).has(T::spec_size()) ==> match T::spec_parse(old(r).peek_bytes(T::spec_size())) {
            None => res is None,
            Some(c) => match spec_parse_index_impl(
                c.spec_to_u32(),
                old(r).spec_rest().subrange(T::spec_size() as int, old(r).spec_rest().len() as int),
            ) {
                Some((ix, n)) => res matches Some(i) && i@ == ix && final(r).spec_offset()
                    == old(r).spec_offset() + T::spec_size() + n,
                None => res is None,
            },
        },
{
    let ghost r0 = *r;
    let count = r.read::<T>()?;
    proof {
        lemma_reader_advance(r0, *r, T::spec_size());
    }
    parse_index_impl(count.to_u32(), r)
}

/// Parse the body of an INDEX with `count` items.
pub fn parse_index_impl<'a>(count: u32, r: &mut Reader<'a>) -> (res: Option<Index<'a>>)
    ensures
        final(r).spec_data() == old(r).spec_data(),
        match spec_parse_index_impl(count, old(r).spec_rest()) {
            Some((ix, n)) => res matches Some(i) && i@ == ix && final(r).spec_offset() == old(r).spec_offset() + n,
            None => res is None,
        },
{
    if count == 0 || count == u32::MAX {
        return Some(Index::empty());
    }
    let ghost r0 = *r;
    let ghost s = r0.spec_rest();
    proof {
        lemma_has_rest(r0, 1nat);
        if r0.has(1nat) {
            lemma_reader_rest(r0, 1nat);
        }
    }
    let offset_size = r.read::<OffsetSize>()?;
    proof {
        lemma_reader_advance(r0, *r, 1nat);
    }
    let ghost r1 = *r;
    let offsets_len = (count + 1).checked_mul(offset_size.to_u32())?;
    proof {
        let c = count as int;
        let o = os_len(offset_size) as int;
        assert((c + 1) * o >= 1) by (nonlinear_arith) requires c >= 1, o >= 1;
        lemma_has_rest(r1, offsets_len as nat);
    }
    let data = r.read_bytes(offsets_len as usize)?;
    proof {
        lemma_reader_rest(r1, offsets_len as nat);
        lemma_reader_advance(r1, *r, offsets_len as nat);
        assert(data@ =~= s.subrange(1, 1 + offsets_len));
    }
    let offsets = VarOffsets { data, offset_size };
    match offsets.last() {
        Some(last_offset) => {
            let ghost r2 = *r;
            proof {
                if last_offset > 0 {
                    lemma_has_rest(r2, last_offset as nat);
                }
            }
            let data = r.read_bytes(last_offset as usize)?;
            proof {
                lemma_reader_rest(r2, last_offset as nat);
                assert(data@ =~= s.subrange(1 + offsets_len, 1 + offsets_len + last_offset));
            }
            Some(Index { data, offsets })
        },
        None => Some(Index::empty()),
    }
}

/// Skip an INDEX whose count has the type `T`.
pub fn skip_index<T: IndexSize>(r: &mut Reader) -> (res: Option<()>)
    ensures
        final(r).spec_data() == old(r).spec_data(),
        !old(r).has(T::spec_size()) ==> res is None,
        old(r).has(T::spec_size()) ==> match T::spec_parse(old(r).peek_bytes(T::spec_size())) {
            None => res is None,
            Some(c) => match spec_skip_index_impl(
                c.spec_to_u32(),
                old(r).spec_rest().subrange(T::spec_size() as int, old(r).spec_rest().len() as int),
            ) {
                Some(n) => res is Some && final(r).spec_offset() == old(r).spec_offset()
                    + T::spec_size() + n,
                None => res is None,
            },
        },
{
    let ghost r0 = *r;
    let count = r.read::<T>()?;
    proof {
        lemma_reader_advance(r0, *r, T::spec_size());
    }
    skip_index_impl(count.to_u32(), r)
}

/// Parse an INDEX with a 16-bit count (a CFF INDEX) from the start of `s`: the INDEX and the
/// number of bytes it takes.
pub open spec fn spec_parse_index16(s: Seq<u8>) -> Option<(IndexView, nat)> {
    if s.len() < 2 {
        None
    } else {
        match spec_parse_index_impl(be_u16(s[0], s[1]) as u32, s.subrange(2, s.len() as int)) {
            Some((ix, n)) => Some((ix, n + 2)),
            None => None,
        }
    }
}

/// The number of bytes that an INDEX with a 16-bit count takes at the start of `s`.
pub open spec fn spec_skip_index16(s: Seq<u8>) -> Option<nat> {
    if s.len() < 2 {
        None
    } else {
        match spec_skip_index_impl(be_u16(s[0], s[1]) as u32, s.subrange(2, s.len() as int)) {
            Some(n) => Some(n + 2),
            None => None,
        }
    }
}

/// Parse a CFF INDEX (with a 16-bit count).
pub fn parse_index16<'a>(r: &mut Reader<'a>) -> (res: Option<Index<'a>>)
    ensures
        final(r).spec_data() == old(r).spec_data(),
        match spec_parse_index16(old(r).spec_rest()) {
            Some((ix, n)) => res matches Some(i) && i@ == ix && final(r).spec_offset()
                == old(r).spec_offset() + n,
            None => res is None,
        },
{
    proof {
        lemma_has_rest(*r, 2nat);
        if r.has(2nat) {
            lemma_reader_rest(*r, 2nat);
            assert(r.peek_bytes(2nat)[0] == r.spec_rest()[0]);
            assert(r.peek_bytes(2nat)[1] == r.spec_rest()[1]);
        }
    }
    parse_index::<u16>(r)
}

/// Skip a CFF INDEX (with a 16-bit count).
pub fn skip_index16(r: &mut Reader) -> (res: Option<()>)
    ensures
        final(r).spec_data() == old(r).spec_data(),
        match spec_skip_index16(old(r).spec_rest()) {
            Some(n) => res is Some && final(r).spec_offset() == old(r).spec_offset() + n,
            None => res is None,
        },
{
    proof {
        lemma_has_rest(*r, 2nat);
        if r.has(2nat) {
            lemma_reader_rest(*r, 2nat);
            assert(r.peek_bytes(2nat)[0] == r.spec_rest()[0]);
            assert(r.peek_bytes(2nat)[1] == r.spec_rest()[1]);
        }
    }
    skip_index::<u16>(r)
}

/// Skip the body of an INDEX with `count` items.
pub fn skip_index_impl(count: u32, r: &mut Reader) -> (res: Option<()>)
    ensures
        final(r).spec_data() == old(r).spec_data(),
        match spec_skip_index_impl(count, old(r).spec_rest()) {
            Some(n) => res is Some && final(r).spec_offset() == old(r).spec_offset() + n,
            None => res is None,
        },
{
    if count == 0 || count == u32::MAX {
        return Some(());
    }
    let ghost r0 = *r;
    let ghost s = r0.spec_rest();
    proof {
        lemma_has_rest(r0, 1nat);
        if r0.has(1nat) {
            lemma_reader_rest(r0, 1nat);
        }
    }
    let offset_size = r.read::<OffsetSize>()?;
    proof {
        lemma_reader_advance(r0, *r, 1nat);
    }
    let ghost r1 = *r;
    let offsets_len = (count + 1).checked_mul(offset_size.to_u32())?;
    proof {
        let c = count as int;
        let o = os_len(offset_size) as int;
        assert((c + 1) * o >= 1) by (nonlinear_arith) requires c >= 1, o >= 1;
        lemma_has_rest(r1, offsets_len as nat);
    }
    let data = r.read_bytes(offsets_len as usize)?;
    proof {
        lemma_reader_rest(r1, offsets_len as nat);
        lemma_reader_advance(r1, *r, offsets_len as nat);
        assert(data@ =~= s.subrange(1, 1 + offsets_len));
    }
    let offsets = VarOffsets { data, offset_size };
    if let Some(last_offset) = offsets.last() {
        let ghost r2 = *r;
        proof {
            if last_offset > 0 {
                lemma_has_rest(r2, last_offset as nat);
            }
        }
        r.skip_bytes(last_offset as usize);
    }
    Some(())
}

/// The total length of the first `k` items.
pub open spec fn sum_lens(items: Seq<Seq<u8>>, k: int) -> int
    decreases k,
{
    if k <= 0 {
        0
    } else {
        sum_lens(items, k - 1) + items[k - 1].len()
    }
}

/// The first `k` items, one after the other.
pub open spec fn concat_items(items: Seq<Seq<u8>>, k: int) -> Seq<u8>
    decreases k,
{
    if k <= 0 {
        Seq::empty()
    } else {
        concat_items(items, k - 1) + items[k - 1]
    }
}

/// The bytes of one offset.
pub open spec fn offset_bytes(v: int, o: OffsetSize) -> Seq<u8> {
    match o {
        OffsetSize::Size1 => seq![v as u8],
        OffsetSize::Size2 => u16_bytes(v),
        OffsetSize::Size3 => u24_bytes(v),
        OffsetSize::Size4 => u32_bytes(v),
    }
}

/// The bytes of the first `k` offsets of an INDEX of `items` (which count from 1).
pub open spec fn offsets_bytes(items: Seq<Seq<u8>>, k: int, o: OffsetSize) -> Seq<u8>
    decreases k,
{
    if k <= 0 {
        Seq::empty()
    } else {
        offsets_bytes(items, k - 1, o) + offset_bytes(sum_lens(items, k - 1) + 1, o)
    }
}

/// The smallest offset size that holds `max`.
pub open spec fn choose_offset_size(max: int) -> OffsetSize {
    if max <= 255 {
        OffsetSize::Size1
    } else if max <= 65535 {
        OffsetSize::Size2
    } else if max <= U24_MAX {
        OffsetSize::Size3
    } else {
        OffsetSize::Size4
    }
}

/// The bytes of an INDEX holding `items`.
pub open spec fn spec_create_index(items: Seq<Seq<u8>>) -> Seq<u8> {
    let n = items.len() as int;
    if n == 0 {
        seq![0u8, 0u8]
    } else {
        let o = choose_offset_size(sum_lens(items, n) + 1);
        u16_bytes(n) + seq![os_len(o) as u8] + offsets_bytes(items, n + 1, o) + concat_items(
            items,
            n,
        )
    }
}

/// The number of header bytes (count, offset size and offsets) of an INDEX holding `items`.
pub open spec fn spec_index_header_size(items: Seq<Seq<u8>>) -> int {
    let n = items.len() as int;
    if n == 0 {
        2
    } else {
        3 + (n + 1) * os_len(choose_offset_size(sum_lens(items, n) + 1))
    }
}

/// The total length only grows with more items.
pub proof fn lemma_sum_lens_mono(items: Seq<Seq<u8>>, j: int, k: int)
    requires
        0 <= j <= k,
    ensures
        0 <= sum_lens(items, j) <= sum_lens(items, k),
    decreases k,
{
    if k > j {
        lemma_sum_lens_mono(items, j, k - 1);
    } else if k > 0 {
        lemma_sum_lens_mono(items, 0, k - 1);
    }
}

/// The concatenation of the first `k` items is as long as their total length.
pub proof fn lemma_concat_len(items: Seq<Seq<u8>>, k: int)
    requires
        0 <= k <= items.len(),
    ensures
        concat_items(items, k).len() == sum_lens(items, k),
    decreases k,
{
    if k > 0 {
        lemma_concat_len(items, k - 1);
    }
}

/// An INDEX whose data is owned.
pub struct OwnedIndex {
    /// The bytes of the INDEX.
    pub data: Vec<u8>,
    /// The number of bytes before the item data.
    pub header_size: usize,
}

impl OwnedIndex {
    /// The empty INDEX: a zero count only.
    pub fn empty() -> (res: Self)
        ensures
            res.data@ == seq![0u8, 0u8],
            res.header_size == 2,
    {
        let v = vec![0u8, 0u8];
        Self { data: v, header_size: 2 }
    }
}

impl Writeable for OwnedIndex {
    open spec fn spec_bytes(&self) -> Seq<u8> {
        self.data@
    }

    fn write(&self, w: &mut Writer) {
        w.extend(self.data.as_slice());
    }
}

/// Write one offset.
fn write_offset(w: &mut Writer, v: u32, o: OffsetSize)
    requires
        v <= match o {
            OffsetSize::Size1 => 255,
            OffsetSize::Size2 => 65535,
            OffsetSize::Size3 => U24_MAX,
            OffsetSize::Size4 => u32::MAX,
        },
    ensures
        final(w)@ == old(w)@ + offset_bytes(v as int, o),
{
    match o {
        OffsetSize::Size1 => w.push(v as u8),
        OffsetSize::Size2 => (v as u16).write(w),
        OffsetSize::Size3 => U24(v).write(w),
        OffsetSize::Size4 => v.write(w),
    }
}

/// The items of a vector of byte vectors.
pub open spec fn items_of(data: Seq<Vec<u8>>) -> Seq<Seq<u8>> {
    data.map_values(|v: Vec<u8>| v@)
}

/// Create an INDEX holding the given items.
pub fn create_index(data: Vec<Vec<u8>>) -> (res: Result<OwnedIndex, Error>)
    ensures
        match res {
            Ok(ix) => {
                &&& data@.len() <= 65535
                &&& sum_lens(items_of(data@), data@.len() as int) + 1 <= u32::MAX
                &&& ix.data@ == spec_create_index(items_of(data@))
                &&& ix.header_size == spec_index_header_size(items_of(data@))
            },
            Err(e) => e == Error::OverflowError && (data@.len() > 65535 || sum_lens(
                items_of(data@),
                data@.len() as int,
            ) + 1 > u32::MAX),
        },
{
    let ghost items = items_of(data@);
    let n = data.len();
    // Sum up the lengths of all items.
    let mut total: u32 = 0;
    let mut i: usize = 0;
    while i < n
        invariant
            n == data@.len(),
            items == items_of(data@),
            i <= n,
            total == sum_lens(items, i as int),
        decreases n - i,
    {
        let l = data[i].len();
        if l > u32::MAX as usize || total > u32::MAX - l as u32 {
            proof {
                lemma_sum_lens_mono(items, i + 1, n as int);
            }
            return Err(Error::OverflowError);
        }
        total = total + l as u32;
        i = i + 1;
    }
    if n > 65535 {
        return Err(Error::OverflowError);
    }
    if total == u32::MAX {
        return Err(Error::OverflowError);
    }
    let count = n as u16;
    // Offsets count from the byte before the data.
    let offsize: u32 = total + 1;
    if count == 0 {
        return Ok(OwnedIndex::empty());
    }
    let offset_size = if offsize <= 255 {
        OffsetSize::Size1
    } else if offsize <= 65535 {
        OffsetSize::Size2
    } else if offsize <= U24_MAX {
        OffsetSize::Size3
    } else {
        OffsetSize::Size4
    };
    let mut w = Writer::new();
    w.write(count);
    w.push(offset_size.to_u32() as u8);
    let mut cur_offset: u32 = 1;
    write_offset(&mut w, cur_offset, offset_size);
    let mut k: usize = 0;
    proof {
        assert(sum_lens(items, 0) == 0);
        assert(offsets_bytes(items, 0, offset_size) =~= Seq::<u8>::empty());
        assert(offsets_bytes(items, 1, offset_size) =~= offset_bytes(1, offset_size));
        assert(w@ =~= u16_bytes(n as int) + seq![os_len(offset_size) as u8] + offsets_bytes(
            items,
            1,
            offset_size,
        ));
    }
    while k < n
        invariant
            n == data@.len(),
            items == items_of(data@),
            n >= 1,
            k <= n,
            offsize == sum_lens(items, n as int) + 1,
            offset_size == choose_offset_size(offsize as int),
            cur_offset == sum_lens(items, k as int) + 1,
            w@ == u16_bytes(n as int) + seq![os_len(offset_size) as u8] + offsets_bytes(
                items,
                k + 1,
                offset_size,
            ),
        decreases n - k,
    {
        proof {
            lemma_sum_lens_mono(items, k + 1, n as int);
        }
        cur_offset = cur_offset + data[k].len() as u32;
        write_offset(&mut w, cur_offset, offset_size);
        k = k + 1;
    }
    let header_size = w.len();
    proof {
        assert(header_size == 3 + (n + 1) * os_len(offset_size)) by {
            lemma_offsets_bytes_len(items, n + 1, offset_size);
        }
        lemma_concat_len(items, n as int);
        let hdr = u16_bytes(n as int) + seq![os_len(offset_size) as u8] + offsets_bytes(
            items,
            n + 1,
            offset_size,
        );
        assert(spec_create_index(items) == hdr + concat_items(items, n as int));
        assert(spec_create_index(items).subrange(0, header_size as int) =~= hdr);
        assert(concat_items(items, 0) =~= Seq::<u8>::empty());
        assert(w@ =~= spec_create_index(items).subrange(0, header_size as int) + concat_items(
            items,
            0,
        ));
    }
    let mut j: usize = 0;
    while j < n
        invariant
            n == data@.len(),
            items == items_of(data@),
            j <= n,
            w@ == spec_create_index(items).subrange(0, header_size as int) + concat_items(items, j as int),
            header_size as int + sum_lens(items, n as int) == spec_create_index(items).len(),
        decreases n - j,
    {
        w.extend(data[j].as_slice());
        j = j + 1;
        proof {
            assert(items[j - 1] == data@[j - 1]@);
        }
    }
    proof {
        lemma_concat_len(items, n as int);
        assert(w@ =~= spec_create_index(items));
    }
    Ok(OwnedIndex { data: w.finish(), header_size })
}

/// The offset bytes of `k` offsets take `k` times the offset size.
pub proof fn lemma_offsets_bytes_len(items: Seq<Seq<u8>>, k: int, o: OffsetSize)
    requires
        k >= 0,
    ensures
        offsets_bytes(items, k, o).len() == k * os_len(o),
    decreases k,
{
    if k > 0 {
        lemma_offsets_bytes_len(items, k - 1, o);
        assert(k * os_len(o) == (k - 1) * os_len(o) + os_len(o)) by (nonlinear_arith);
    }
}

/// The largest offset an offset size can hold.
pub open spec fn os_max(o: OffsetSize) -> int {
    match o {
        OffsetSize::Size1 => 255,
        OffsetSize::Size2 => 65535,
        OffsetSize::Size3 => U24_MAX as int,
        OffsetSize::Size4 => u32::MAX as int,
    }
}

/// Decoding the bytes of an offset gives the offset back.
pub proof fn lemma_offset_bytes_decode(v: int, o: OffsetSize)
    requires
        0 <= v <= os_max(o),
    ensures
        offset_bytes(v, o).len() == os_len(o),
        be_n(offset_bytes(v, o), os_len(o)) == v,
{
    let b = offset_bytes(v, o);
    match o {
        OffsetSize::Size1 => {},
        OffsetSize::Size2 => {},
        OffsetSize::Size3 => {
            assert(((v / 0x1_0000 % 256) * 256 + v / 256 % 256) * 256 + v % 256 == v)
                by (nonlinear_arith) requires 0 <= v <= 16777215;
        },
        OffsetSize::Size4 => {},
    }
}

/// The offset bytes hold the encoding of offset `k` at `k` times the offset size.
pub proof fn lemma_offsets_bytes_at(items: Seq<Seq<u8>>, m: int, k: int, o: OffsetSize)
    requires
        0 <= k < m,
    ensures
        offsets_bytes(items, m, o).subrange(k * os_len(o), k * os_len(o) + os_len(o))
            == offset_bytes(sum_lens(items, k) + 1, o),
    decreases m,
{
    lemma_offsets_bytes_len(items, m - 1, o);
    let sz = os_len(o) as int;
    let prev = offsets_bytes(items, m - 1, o);
    let last = offset_bytes(sum_lens(items, m - 1) + 1, o);
    assert(last.len() == sz);
    if k == m - 1 {
        assert(offsets_bytes(items, m, o).subrange(k * sz, k * sz + sz) =~= last);
    } else {
        lemma_offsets_bytes_at(items, m - 1, k, o);
        assert(k * sz + sz <= (m - 1) * sz) by (nonlinear_arith) requires k < m - 1, sz >= 1;
        assert(offsets_bytes(items, m, o).subrange(k * sz, k * sz + sz) =~= prev.subrange(
            k * sz,
            k * sz + sz,
        ));
    }
}

/// The concatenated items hold item `k` between the total lengths before and after it.
pub proof fn lemma_concat_at(items: Seq<Seq<u8>>, m: int, k: int)
    requires
        0 <= k < m <= items.len(),
    ensures
        concat_items(items, m).subrange(sum_lens(items, k), sum_lens(items, k + 1)) == items[k],
    decreases m,
{
    lemma_concat_len(items, m - 1);
    if k == m - 1 {
        assert(concat_items(items, m).subrange(sum_lens(items, k), sum_lens(items, k + 1))
            =~= items[k]);
    } else {
        lemma_concat_at(items, m - 1, k);
        lemma_sum_lens_mono(items, k + 1, m - 1);
        lemma_sum_lens_mono(items, 0, k);
        assert(concat_items(items, m).subrange(sum_lens(items, k), sum_lens(items, k + 1))
            =~= concat_items(items, m - 1).subrange(sum_lens(items, k), sum_lens(items, k + 1)));
    }
}

/// Reading back a written INDEX, whatever follows it, gives its count and its items, and
/// takes exactly the written bytes.
pub proof fn lemma_index_roundtrip(items: Seq<Seq<u8>>, rest: Seq<u8>)
    requires
        items.len() <= 65535,
        sum_lens(items, items.len() as int) + 1 <= u32::MAX,
    ensures
        ({
            let b = spec_create_index(items);
            let s = b + rest;
            &&& b.len() >= 2
            &&& be_u16(s[0], s[1]) == items.len()
            &&& spec_parse_index_impl(items.len() as u32, s.subrange(2, s.len() as int)) matches Some(
                (ix, len),
            )
            &&& len + 2 == b.len()
            &&& ix.len() == items.len()
            &&& forall|i: int| 0 <= i < items.len() ==> #[trigger] ix.get(i) == Some(items[i])
        }),
{
    let n = items.len() as int;
    let b = spec_create_index(items);
    let s = b + rest;
    if n == 0 {
        assert(spec_parse_index_impl(0, s.subrange(2, s.len() as int)) == Some(
            (empty_index_view(), 0nat),
        ));
        return;
    }
    let total = sum_lens(items, n);
    let o = choose_offset_size(total + 1);
    let sz = os_len(o) as int;
    let ol = (n + 1) * sz;
    lemma_offsets_bytes_len(items, n + 1, o);
    lemma_concat_len(items, n);
    let offs = offsets_bytes(items, n + 1, o);
    let t = s.subrange(2, s.len() as int);
    assert(be_u16(s[0], s[1]) == n);
    assert(t[0] == sz as u8);
    assert(ol <= 65536 * 4) by (nonlinear_arith) requires 0 <= n <= 65535, 0 <= sz <= 4, ol == (n + 1) * sz;
    assert(t.subrange(1, 1 + ol) =~= offs);
    assert(spec_offsets_len(offs, o) == n + 1) by {
        assert(offs.len() == ol);
        assert((ol as u32) as int == ol);
        assert(ol / sz == n + 1) by (nonlinear_arith) requires ol == (n + 1) * sz, sz >= 1;
    }
    assert forall|k: int| 0 <= k <= n implies spec_offsets_get(offs, o, k) == Some(
        sum_lens(items, k) as u32,
    ) by {
        lemma_offsets_bytes_at(items, n + 1, k, o);
        lemma_sum_lens_mono(items, k, n);
        lemma_offset_bytes_decode(sum_lens(items, k) + 1, o);
    }
    assert(spec_offsets_last(offs, o) == Some(total as u32));
    assert(t.subrange(1 + ol, 1 + ol + total) =~= concat_items(items, n));
    let ix = IndexView {
        data: t.subrange(1 + ol, 1 + ol + total),
        offsets: offs,
        offset_size: o,
    };
    assert(spec_parse_index_impl(n as u32, t) == Some((ix, (1 + ol + total) as nat)));
    assert forall|i: int| 0 <= i < n implies #[trigger] ix.get(i) == Some(items[i]) by {
        lemma_concat_at(items, n, i);
        lemma_sum_lens_mono(items, i, i + 1);
        lemma_sum_lens_mono(items, i + 1, n);
        assert(spec_offsets_get(offs, o, i) == Some(sum_lens(items, i) as u32));
        assert(spec_offsets_get(offs, o, i + 1) == Some(sum_lens(items, i + 1) as u32));
    }
}

} // verus!
