//! Reading big-endian binary data.
use std::cmp::Ordering;
use std::marker::PhantomData;
use vstd::prelude::*;

verus! {

/// The big-endian value of two bytes.
pub open spec fn be_u16(b0: u8, b1: u8) -> int {
    b0 * 256 + b1
}

/// The big-endian value of four bytes.
pub open spec fn be_u32(b0: u8, b1: u8, b2: u8, b3: u8) -> int {
    ((b0 * 256 + b1) * 256 + b2) * 256 + b3
}

/// The signed 16-bit value with the given two's complement bits.
pub open spec fn to_i16(v: int) -> int {
    if v < 0x8000 { v } else { v - 0x10000 }
}

/// The signed 32-bit value with the given two's complement bits.
pub open spec fn to_i32(v: int) -> int {
    if v < 0x8000_0000 { v } else { v - 0x1_0000_0000 }
}

/// A readable stream of binary data.
#[derive(Clone, Copy)]
pub struct Reader<'a> {
    /// The underlying data of the reader.
    data: &'a [u8],
    /// The current offset in bytes. Is not guaranteed to be in range.
    offset: usize,
}

/// Trait for an object that can be read from a byte stream with a fixed size.
pub trait Readable: Sized {
    /// The number of bytes a value occupies.
    spec fn spec_size() -> nat;

    /// The value encoded by exactly `spec_size()` bytes, if they encode one.
    spec fn spec_parse(bytes: Seq<u8>) -> Option<Self>;

    /// The number of bytes a value occupies.
    fn size() -> (n: usize)
        ensures
            n == Self::spec_size(),
            n > 0,
    ;

    /// Read a value from the stream.
    fn read(r: &mut Reader) -> (res: Option<Self>)
        ensures
            final(r).spec_data() == old(r).spec_data(),
            old(r).has(Self::spec_size()) ==> {
                &&& res == Self::spec_parse(old(r).peek_bytes(Self::spec_size()))
                &&& final(r).spec_offset() == old(r).spec_offset() + Self::spec_size()
            },
            !old(r).has(Self::spec_size()) ==> res is None && final(r).spec_offset()
                == old(r).spec_offset(),
    ;
}

impl<'a> Reader<'a> {
    /// The bytes the reader reads from.
    pub closed spec fn spec_data(&self) -> Seq<u8> {
        self.data@
    }

    /// The current offset of the reader.
    pub closed spec fn spec_offset(&self) -> int {
        self.offset as int
    }

    /// The bytes from the current offset to the end (empty when the offset is past the end).
    pub open spec fn spec_rest(&self) -> Seq<u8> {
        if self.spec_offset() <= self.spec_data().len() {
            self.spec_data().subrange(self.spec_offset(), self.spec_data().len() as int)
        } else {
            Seq::empty()
        }
    }

    /// Whether `n` more bytes can be read from the current offset.
    pub open spec fn has(&self, n: nat) -> bool {
        self.spec_offset() + n <= self.spec_data().len()
    }

    /// The `n` bytes at the current offset.
    pub open spec fn peek_bytes(&self, n: nat) -> Seq<u8> {
        self.spec_data().subrange(self.spec_offset(), self.spec_offset() + n)
    }

    /// Create a new readable stream of binary data.
    pub fn new(data: &'a [u8]) -> (r: Self)
        ensures
            r.spec_data() == data@,
            r.spec_offset() == 0,
    {
        Self { data, offset: 0 }
    }

    /// Create a new readable stream of binary data at a specific position.
    pub fn new_at(data: &'a [u8], offset: usize) -> (r: Self)
        ensures
            r.spec_data() == data@,
            r.spec_offset() == offset,
    {
        Self { data, offset }
    }

    /// The remaining data from the current offset.
    pub fn tail(&self) -> (res: Option<&'a [u8]>)
        ensures
            self.spec_offset() <= self.spec_data().len() <==> res is Some,
            res matches Some(t) ==> t@ == self.spec_data().subrange(
                self.spec_offset(),
                self.spec_data().len() as int,
            ),
    {
        if self.offset <= self.data.len() {
            Some(&self.data[self.offset..self.data.len()])
        } else {
            None
        }
    }

    /// Returns the current offset.
    pub fn offset(&self) -> (res: usize)
        ensures
            res == self.spec_offset(),
    {
        self.offset
    }

    /// Try to read `T` from the data.
    pub fn read<T: Readable>(&mut self) -> (res: Option<T>)
        ensures
            final(self).spec_data() == old(self).spec_data(),
            old(self).has(T::spec_size()) ==> {
                &&& res == T::spec_parse(old(self).peek_bytes(T::spec_size()))
                &&& final(self).spec_offset() == old(self).spec_offset() + T::spec_size()
            },
            !old(self).has(T::spec_size()) ==> res is None && final(self).spec_offset()
                == old(self).spec_offset(),
    {
        T::read(self)
    }

    /// Try to read `T` from the data, without advancing.
    pub fn peak<T: Readable>(&self) -> (res: Option<T>)
        ensures
            self.has(T::spec_size()) ==> res == T::spec_parse(self.peek_bytes(T::spec_size())),
            !self.has(T::spec_size()) ==> res is None,
    {
        let mut r = Reader { data: self.data, offset: self.offset };
        T::read(&mut r)
    }

    /// Read a certain number of bytes.
    pub fn read_bytes(&mut self, len: usize) -> (res: Option<&'a [u8]>)
        ensures
            final(self).spec_data() == old(self).spec_data(),
            old(self).has(len as nat) <==> res is Some,
            res matches Some(b) ==> {
                &&& b@ == old(self).peek_bytes(len as nat)
                &&& b@.len() == len
                &&& final(self).spec_offset() == old(self).spec_offset() + len
            },
            res is None ==> final(self).spec_offset() == old(self).spec_offset(),
    {
        if self.offset <= self.data.len() && len <= self.data.len() - self.offset {
            let v = &self.data[self.offset..self.offset + len];
            self.offset = self.offset + len;
            Some(v)
        } else {
            None
        }
    }

    /// Reads the next `count` values as an array.
    pub fn read_array16<T: Readable>(&mut self, count: u16) -> (res: Option<LazyArray16<'a, T>>)
        ensures
            final(self).spec_data() == old(self).spec_data(),
            old(self).has((count * T::spec_size()) as nat) <==> res is Some,
            res matches Some(a) ==> {
                &&& a.spec_data() == old(self).peek_bytes((count * T::spec_size()) as nat)
                &&& final(self).spec_offset() == old(self).spec_offset() + count * T::spec_size()
            },
            res is None ==> final(self).spec_offset() == old(self).spec_offset(),
    {
        let size = T::size();
        self.read_array16_inner(count, size)
    }

    fn read_array16_inner<T: Readable>(&mut self, count: u16, size: usize) -> (res: Option<LazyArray16<'a, T>>)
        requires
            size == T::spec_size(),
            size > 0,
        ensures
            final(self).spec_data() == old(self).spec_data(),
            old(self).has((count * T::spec_size()) as nat) <==> res is Some,
            res matches Some(a) ==> {
                &&& a.spec_data() == old(self).peek_bytes((count * T::spec_size()) as nat)
                &&& final(self).spec_offset() == old(self).spec_offset() + count * T::spec_size()
            },
            res is None ==> final(self).spec_offset() == old(self).spec_offset(),
    {
        let c = count as usize;
        let dlen = self.data.len();
        if size > 0 && c > (usize::MAX / size) {
            proof {
                let sz = size as int;
                let ci = c as int;
                let m = usize::MAX as int;
                assert(ci * sz > m) by (nonlinear_arith) requires sz > 0, ci > m / sz;
            }
            return None;
        }
        proof {
            let sz = size as int;
            let ci = c as int;
            let m = usize::MAX as int;
            assert(ci * sz <= m) by (nonlinear_arith) requires sz > 0, ci <= m / sz, m >= 0;
        }
        let len = c * size;
        match self.read_bytes(len) {
            Some(b) => Some(LazyArray16::new(b)),
            None => None,
        }
    }

    /// Advances by the size of `T`.
    pub fn skip<T: Readable>(&mut self)
        ensures
            final(self).spec_data() == old(self).spec_data(),
            old(self).has(T::spec_size()) ==> final(self).spec_offset() == old(self).spec_offset()
                + T::spec_size(),
            !old(self).has(T::spec_size()) ==> final(self).spec_offset() == old(self).spec_offset(),
    {
        self.skip_bytes(T::size());
    }

    /// Check whether the reader is at the end of the buffer.
    pub fn at_end(&self) -> (res: bool)
        ensures
            res == (self.spec_offset() >= self.spec_data().len()),
    {
        self.offset >= self.data.len()
    }

    /// Jump to a specific location.
    pub fn jump(&mut self, offset: usize)
        ensures
            final(self).spec_data() == old(self).spec_data(),
            final(self).spec_offset() == offset,
    {
        self.offset = offset;
    }

    /// Skip the next `n` bytes from the stream, if there are that many.
    pub fn skip_bytes(&mut self, n: usize)
        ensures
            final(self).spec_data() == old(self).spec_data(),
            old(self).has(n as nat) ==> final(self).spec_offset() == old(self).spec_offset() + n,
            !old(self).has(n as nat) ==> final(self).spec_offset() == old(self).spec_offset(),
    {
        let _ = self.read_bytes(n);
    }
}

/// The values that the first `count` consecutive encodings in `bytes` parse to, if all of
/// them do.
pub open spec fn spec_parse_vector<T: Readable>(bytes: Seq<u8>, count: nat) -> Option<Seq<T>>
    decreases count,
{
    if count == 0 {
        Some(Seq::empty())
    } else {
        match spec_parse_vector::<T>(bytes, (count - 1) as nat) {
            None => None,
            Some(v) => match T::spec_parse(
                bytes.subrange((count - 1) * T::spec_size(), (count * T::spec_size()) as int),
            ) {
                Some(x) => Some(v.push(x)),
                None => None,
            },
        }
    }
}

/// Once an encoding does not parse, no longer prefix does.
pub proof fn lemma_parse_vector_none<T: Readable>(bytes: Seq<u8>, i: nat, count: nat)
    requires
        i <= count,
        spec_parse_vector::<T>(bytes, i) is None,
    ensures
        spec_parse_vector::<T>(bytes, count) is None,
    decreases count - i,
{
    if i < count {
        lemma_parse_vector_none::<T>(bytes, i, (count - 1) as nat);
    }
}

impl<'a> Reader<'a> {
    /// Try to read `count` values of `T` from the data.
    pub fn read_vector<T: Readable>(&mut self, count: usize) -> (res: Option<Vec<T>>)
        ensures
            final(self).spec_data() == old(self).spec_data(),
            old(self).has((count * T::spec_size()) as nat) ==> match spec_parse_vector::<T>(
                old(self).peek_bytes((count * T::spec_size()) as nat),
                count as nat,
            ) {
                Some(s) => res matches Some(v) && v@ == s && final(self).spec_offset() == old(
                    self,
                ).spec_offset() + count * T::spec_size(),
                None => res is None,
            },
            count > 0 && !old(self).has((count * T::spec_size()) as nat) ==> res is None,
            count == 0 ==> (res matches Some(v) && v@.len() == 0),
    {
        let size = T::size();
        let ghost start = self.spec_offset();
        let ghost sz = T::spec_size() as int;
        let ghost d = self.spec_data();
        let ghost all = d.subrange(start, start + count * sz);
        let mut res: Vec<T> = Vec::new();
        let mut i: usize = 0;
        while i < count
            invariant
                i <= count,
                res@.len() == i,
                sz == T::spec_size(),
                sz > 0,
                self.spec_data() == d,
                d == old(self).spec_data(),
                start == old(self).spec_offset(),
                self.spec_offset() == start + i * sz,
                start >= 0,
                i > 0 ==> start + i * sz <= d.len(),
                all == d.subrange(start, start + count * sz),
                start + count * sz <= d.len() ==> spec_parse_vector::<T>(all, i as nat) == Some(
                    res@,
                ),
            decreases count - i,
        {
            let ghost before = res@;
            proof {
                assert((i + 1) * sz == i * sz + sz) by (nonlinear_arith);
            }
            match self.read::<T>() {
                Some(x) => {
                    res.push(x);
                    proof {
                        if start + count * sz <= d.len() {
                            assert((i + 1) * sz <= count * sz) by (nonlinear_arith)
                                requires i + 1 <= count, sz > 0;
                            assert(all.subrange(i * sz, (i + 1) * sz) =~= d.subrange(
                                start + i * sz,
                                start + i * sz + sz,
                            ));
                        }
                    }
                },
                None => {
                    proof {
                        if start + count * sz <= d.len() {
                            assert((i + 1) * sz <= count * sz) by (nonlinear_arith)
                                requires i + 1 <= count, sz > 0;
                            assert(all.subrange(i * sz, (i + 1) * sz) =~= d.subrange(
                                start + i * sz,
                                start + i * sz + sz,
                            ));
                            lemma_parse_vector_none::<T>(all, (i + 1) as nat, count as nat);
                        } else {
                        }
                    }
                    return None;
                },
            }
            i = i + 1;
        }
        Some(res)
    }
}

/// Reading a byte with enough data left gives the first byte of the rest.
pub proof fn lemma_reader_rest(r: Reader<'_>, n: nat)
    requires
        r.has(n),
    ensures
        r.spec_rest().len() >= n,
        r.peek_bytes(n) == r.spec_rest().subrange(0, n as int),
{
    assert(r.peek_bytes(n) =~= r.spec_rest().subrange(0, n as int));
}

/// After reading `n` bytes, the rest is what followed them.
pub proof fn lemma_reader_advance(r0: Reader<'_>, r1: Reader<'_>, n: nat)
    requires
        r0.has(n),
        r1.spec_data() == r0.spec_data(),
        r1.spec_offset() == r0.spec_offset() + n,
    ensures
        r1.spec_rest() == r0.spec_rest().subrange(n as int, r0.spec_rest().len() as int),
{
    assert(r1.spec_rest() =~= r0.spec_rest().subrange(n as int, r0.spec_rest().len() as int));
}

/// Whether `n` bytes can be read is whether the rest holds that many.
pub proof fn lemma_has_rest(r: Reader<'_>, n: nat)
    requires
        n > 0,
    ensures
        r.has(n) <==> r.spec_rest().len() >= n,
        r.spec_offset() >= 0,
{
}

/// A slice-like container that converts internal binary data only on access.
///
/// Array values are stored in a continuous data chunk.
pub struct LazyArray16<'a, T> {
    data: &'a [u8],
    data_type: PhantomData<T>,
}

impl<'a, T> Clone for LazyArray16<'a, T> {
    fn clone(&self) -> (res: Self)
        ensures
            res.spec_data() == self.spec_data(),
    {
        LazyArray16 { data: self.data, data_type: PhantomData }
    }
}

impl<'a, T> Copy for LazyArray16<'a, T> {}

impl<'a, T> LazyArray16<'a, T> {
    /// The bytes the array holds.
    pub closed spec fn spec_data(&self) -> Seq<u8> {
        self.data@
    }
}

impl<'a, T: Readable> LazyArray16<'a, T> {
    /// The number of elements in the array.
    pub open spec fn spec_len(&self) -> int {
        (self.spec_data().len() / T::spec_size()) as int % 65536
    }

    /// The element at a 16-bit index, decoded.
    pub open spec fn spec_get_at(&self, index: u16) -> Option<T> {
        self.spec_get(index as int)
    }

    /// The element at `index`, decoded.
    pub open spec fn spec_get(&self, index: int) -> Option<T> {
        if 0 <= index < self.spec_len() {
            T::spec_parse(
                self.spec_data().subrange(index * T::spec_size(), (index + 1) * T::spec_size()),
            )
        } else {
            None
        }
    }

    /// Creates a new `LazyArray`.
    pub fn new(data: &'a [u8]) -> (res: Self)
        ensures
            res.spec_data() == data@,
    {
        LazyArray16 { data, data_type: PhantomData }
    }

    /// An empty array.
    pub fn empty() -> (res: Self)
        ensures
            res.spec_data() == Seq::<u8>::empty(),
    {
        LazyArray16 { data: &[], data_type: PhantomData }
    }

    /// Returns array's length.
    pub fn len(&self) -> (res: u16)
        ensures
            res == self.spec_len(),
    {
        let size = T::size();
        let n: usize = (self.data.len() / size) % 65536;
        n as u16
    }

    /// Checks if array is empty.
    pub fn is_empty(&self) -> (res: bool)
        ensures
            res == (self.spec_len() == 0),
    {
        self.len() == 0
    }

    /// Returns a value at `index`.
    pub fn get(&self, index: u16) -> (res: Option<T>)
        ensures
            res == self.spec_get(index as int),
    {
        let size = T::size();
        let dlen = self.data.len();
        if index < self.len() {
            proof {
                let len = self.spec_data().len() as int;
                let sz = size as int;
                let n = len / sz;
                assert(n % 65536 <= n);
                assert((index + 1) * sz <= n * sz) by (nonlinear_arith)
                    requires index + 1 <= n, sz > 0;
                assert(n * sz <= len) by (nonlinear_arith)
                    requires n == len / sz, sz > 0, len >= 0;
                assert(index * sz <= (index + 1) * sz) by (nonlinear_arith) requires sz > 0;
                assert(dlen == len);
            }
            let start = index as usize * size;
            let mut r = Reader::new_at(self.data, start);
            proof {
                assert((index as int + 1) * size == index * size + size) by (nonlinear_arith);
            }
            T::read(&mut r)
        } else {
            None
        }
    }

    /// Returns the last value.
    pub fn last(&self) -> (res: Option<T>)
        ensures
            self.spec_len() > 0 ==> res == self.spec_get(self.spec_len() - 1),
            self.spec_len() == 0 ==> res is None,
    {
        if !self.is_empty() {
            self.get(self.len() - 1)
        } else {
            None
        }
    }

    /// Returns the sub-array with the elements in `start..end`.
    pub fn slice(&self, start: u16, end: u16) -> (res: Option<Self>)
        ensures
            (start <= end && end * T::spec_size() <= self.spec_data().len()) <==> res is Some,
            res matches Some(s) ==> s.spec_data() == self.spec_data().subrange(
                start * T::spec_size(),
                end * T::spec_size(),
            ),
    {
        let size = T::size();
        let s = start as usize;
        let e = end as usize;
        if s <= e && e <= self.data.len() / size {
            proof {
                let len = self.spec_data().len() as int;
                let sz = size as int;
                assert(s * sz <= e * sz) by (nonlinear_arith) requires s <= e, sz > 0;
                assert(e * sz <= (len / sz) * sz) by (nonlinear_arith)
                    requires e <= len / sz, sz > 0;
                assert((len / sz) * sz <= len) by (nonlinear_arith) requires sz > 0, len >= 0;
            }
            let sub = &self.data[s * size..e * size];
            Some(LazyArray16 { data: sub, data_type: PhantomData })
        } else {
            proof {
                let len = self.spec_data().len() as int;
                let sz = size as int;
                if s <= e && e * sz <= len {
                    assert(e <= len / sz) by (nonlinear_arith) requires e * sz <= len, sz > 0;
                }
            }
            None
        }
    }
}

/// The place of an ordering: `Less` before `Equal` before `Greater`.
pub open spec fn ordering_rank(o: Ordering) -> int {
    match o {
        Ordering::Less => 0,
        Ordering::Equal => 1,
        Ordering::Greater => 2,
    }
}

/// Whether every element of `arr` decodes, `f` gives each element one ordering, and the
/// elements come in the order `f` compares them by: those before the one sought (`Less`),
/// then those equal to it, then those after it (`Greater`).
pub open spec fn search_ready<T: Readable, F: Fn(&T) -> Ordering>(arr: LazyArray16<T>, f: F) -> bool {
    &&& forall|i: u16| i < arr.spec_len() ==> (#[trigger] arr.spec_get_at(i)) is Some
    &&& forall|x: &T, a: Ordering, b: Ordering|
        #[trigger] f.ensures((x,), a) && #[trigger] f.ensures((x,), b) ==> a == b
    &&& forall|i: u16, j: u16, a: Ordering, b: Ordering|
        i < j < arr.spec_len() && #[trigger] f.ensures((&arr.spec_get_at(i).unwrap(),), a)
            && #[trigger] f.ensures((&arr.spec_get_at(j).unwrap(),), b) ==> ordering_rank(a)
            <= ordering_rank(b)
}

impl<'a, T: Readable> LazyArray16<'a, T> {
    /// Performs a binary search using the given comparison, which tells whether an element
    /// is before (`Less`), at (`Equal`) or after (`Greater`) the one sought.
    pub fn binary_search_by<F: Fn(&T) -> Ordering>(&self, f: F) -> (res: Option<(u16, T)>)
        requires
            forall|x: &T| #[trigger] f.requires((x,)),
        ensures
            res matches Some((i, v)) ==> self.spec_get_at(i) == Some(v) && f.ensures(
                (&v,),
                Ordering::Equal,
            ),
            search_ready(*self, f) && (exists|i: u16|
                i < self.spec_len() && #[trigger] f.ensures(
                    (&self.spec_get_at(i).unwrap(),),
                    Ordering::Equal,
                )) ==> res is Some,
    {
        let ghost ready = search_ready(*self, f);
        let mut size = self.len();
        if size == 0 {
            return None;
        }
        let mut base: u16 = 0;
        while size > 1
            invariant
                size >= 1,
                base + size <= self.spec_len(),
                forall|x: &T| #[trigger] f.requires((x,)),
                ready == search_ready(*self, f),
                ready ==> forall|k: u16, o: Ordering|
                    k < base && #[trigger] f.ensures((&self.spec_get_at(k).unwrap(),), o) ==> o
                        != Ordering::Greater,
                ready ==> forall|k: u16, o: Ordering|
                    base + size <= k < self.spec_len() && #[trigger] f.ensures(
                        (&self.spec_get_at(k).unwrap(),),
                        o,
                    ) ==> o == Ordering::Greater,
                ready ==> base == 0 || forall|o: Ordering|
                    #[trigger] f.ensures((&self.spec_get_at(base).unwrap(),), o) ==> o
                        != Ordering::Greater,
            decreases size,
        {
            let half = size / 2;
            let mid = base + half;
            let value = match self.get(mid) {
                Some(v) => v,
                None => return None,
            };
            let cmp = f(&value);
            proof {
                assert(value == self.spec_get_at(mid).unwrap());
                assert(f.ensures((&self.spec_get_at(mid).unwrap(),), cmp));
            }
            base = match cmp {
                Ordering::Greater => base,
                _ => mid,
            };
            size = size - half;
        }
        // `base` is always in [0, size) because `base <= mid`.
        let value = match self.get(base) {
            Some(v) => v,
            None => return None,
        };
        let cmp = f(&value);
        proof {
            assert(value == self.spec_get_at(base).unwrap());
            assert(f.ensures((&self.spec_get_at(base).unwrap(),), cmp));
        }
        match cmp {
            Ordering::Equal => Some((base, value)),
            _ => None,
        }
    }
}

/// An iterator over a `LazyArray16`.
#[derive(Clone, Copy)]
pub struct LazyArrayIter16<'a, T> {
    data: LazyArray16<'a, T>,
    index: u16,
}

impl<'a, T: Readable> LazyArrayIter16<'a, T> {
    /// The array.
    pub closed spec fn spec_array(&self) -> LazyArray16<'a, T> {
        self.data
    }

    /// The index of the next element.
    pub closed spec fn spec_index(&self) -> int {
        self.index as int
    }

    /// The next element, if there is one.
    pub fn next(&mut self) -> (res: Option<T>)
        requires
            old(self).spec_index() < 65535,
        ensures
            final(self).spec_array() == old(self).spec_array(),
            final(self).spec_index() == old(self).spec_index() + 1,
            res == old(self).spec_array().spec_get(old(self).spec_index()),
    {
        self.index = self.index + 1;
        self.data.get(self.index - 1)
    }

    /// The number of elements left.
    pub fn count(self) -> (res: usize)
        ensures
            res == if self.spec_index() < self.spec_array().spec_len() {
                self.spec_array().spec_len() - self.spec_index()
            } else {
                0
            },
    {
        let len = self.data.len();
        if self.index < len {
            (len - self.index) as usize
        } else {
            0
        }
    }
}

impl<'a, T: Readable> LazyArray16<'a, T> {
    /// An iterator over the elements.
    pub fn into_iter(self) -> (res: LazyArrayIter16<'a, T>)
        ensures
            res.spec_array() == self,
            res.spec_index() == 0,
    {
        LazyArrayIter16 { data: self, index: 0 }
    }
}

/// Whether a 16-bit array is in ascending order.
pub open spec fn sorted_u16(a: LazyArray16<u16>) -> bool {
    forall|i: int, j: int|
        0 <= i <= j < a.spec_len() ==> (#[trigger] a.spec_get(i)).unwrap() <= (#[trigger] a.spec_get(j)).unwrap()
}

impl<'a> LazyArray16<'a, u16> {
    /// Performs a binary search for `key`. In an array in ascending order, a value equal to
    /// `key` is found if there is one.
    pub fn binary_search(&self, key: u16) -> (res: Option<(u16, u16)>)
        ensures
            res matches Some((i, v)) ==> self.spec_get(i as int) == Some(v) && v == key,
            sorted_u16(*self) && (exists|j: int| 0 <= j < self.spec_len() && self.spec_get(j) == Some(key)) ==> res is Some,
    {
        let ghost present = exists|j: int| 0 <= j < self.spec_len() && self.spec_get(j) == Some(key);
        let mut size = self.len();
        if size == 0 {
            return None;
        }
        let mut base: u16 = 0;
        while size > 1
            invariant
                size >= 1,
                base + size <= self.spec_len(),
                sorted_u16(*self) && present ==> exists|j: int| base <= j < base + size && self.spec_get(j) == Some(key),
            decreases size,
        {
            let half = size / 2;
            let mid = base + half;
            let value = self.get(mid).unwrap();
            proof {
                if sorted_u16(*self) && present {
                    let j = choose|j: int| base <= j < base + size && self.spec_get(j) == Some(key);
                    if value > key {
                        if j >= mid {
                            assert(self.spec_get(mid as int).unwrap() <= self.spec_get(j).unwrap());
                        }
                    } else if value < key {
                        if j < mid {
                            assert(self.spec_get(j).unwrap() <= self.spec_get(mid as int).unwrap());
                        }
                    }
                }
            }
            base = if value > key { base } else { mid };
            size = size - half;
        }
        let value = self.get(base).unwrap();
        if value == key {
            Some((base, value))
        } else {
            None
        }
    }
}

impl Readable for u8 {
    open spec fn spec_size() -> nat { 1 }

    open spec fn spec_parse(bytes: Seq<u8>) -> Option<u8> {
        Some(bytes[0])
    }

    fn size() -> usize { 1 }

    fn read(r: &mut Reader) -> (res: Option<u8>) {
        let b = r.read_bytes(1)?;
        Some(b[0])
    }
}

impl Readable for u16 {
    open spec fn spec_size() -> nat { 2 }

    open spec fn spec_parse(bytes: Seq<u8>) -> Option<u16> {
        Some(be_u16(bytes[0], bytes[1]) as u16)
    }

    fn size() -> usize { 2 }

    fn read(r: &mut Reader) -> (res: Option<u16>) {
        let b = r.read_bytes(2)?;
        Some(b[0] as u16 * 256 + b[1] as u16)
    }
}

impl Readable for i16 {
    open spec fn spec_size() -> nat { 2 }

    open spec fn spec_parse(bytes: Seq<u8>) -> Option<i16> {
        Some(to_i16(be_u16(bytes[0], bytes[1])) as i16)
    }

    fn size() -> usize { 2 }

    fn read(r: &mut Reader) -> (res: Option<i16>) {
        let b = r.read_bytes(2)?;
        let v: u16 = b[0] as u16 * 256 + b[1] as u16;
        if v < 0x8000 {
            Some(v as i16)
        } else {
            Some((v as i32 - 0x10000) as i16)
        }
    }
}

impl Readable for u32 {
    open spec fn spec_size() -> nat { 4 }

    open spec fn spec_parse(bytes: Seq<u8>) -> Option<u32> {
        Some(be_u32(bytes[0], bytes[1], bytes[2], bytes[3]) as u32)
    }

    fn size() -> usize { 4 }

    fn read(r: &mut Reader) -> (res: Option<u32>) {
        let b = r.read_bytes(4)?;
        Some(((b[0] as u32 * 256 + b[1] as u32) * 256 + b[2] as u32) * 256 + b[3] as u32)
    }
}

impl Readable for i32 {
    open spec fn spec_size() -> nat { 4 }

    open spec fn spec_parse(bytes: Seq<u8>) -> Option<i32> {
        Some(to_i32(be_u32(bytes[0], bytes[1], bytes[2], bytes[3])) as i32)
    }

    fn size() -> usize { 4 }

    fn read(r: &mut Reader) -> (res: Option<i32>) {
        let b = r.read_bytes(4)?;
        let v: u32 = ((b[0] as u32 * 256 + b[1] as u32) * 256 + b[2] as u32) * 256 + b[3] as u32;
        if v < 0x8000_0000 {
            Some(v as i32)
        } else {
            Some((v as i64 - 0x1_0000_0000) as i32)
        }
    }
}

} // verus!
