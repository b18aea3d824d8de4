//! Remapping of numbers (glyph IDs, font DICT indices) to a contiguous range.
use std::collections::BTreeMap;
use vstd::prelude::*;

verus! {

broadcast use vstd::std_specs::btree::group_btree_axioms, vstd::laws_cmp::group_laws_cmp;

/// A wrapper trait around `checked_add`.
pub trait CheckedAdd: Sized {
    /// The sum, if it does not overflow.
    fn checked_add(&self, v: &Self) -> Option<Self>;
}

impl CheckedAdd for u8 {
    fn checked_add(&self, v: &Self) -> (res: Option<Self>)
        ensures
            res == (if *self + *v <= u8::MAX { Some((*self + *v) as u8) } else { None }),
    {
        u8::checked_add(*self, *v)
    }
}

impl CheckedAdd for u16 {
    fn checked_add(&self, v: &Self) -> (res: Option<Self>)
        ensures
            res == (if *self + *v <= u16::MAX { Some((*self + *v) as u16) } else { None }),
    {
        u16::checked_add(*self, *v)
    }
}

impl CheckedAdd for u32 {
    fn checked_add(&self, v: &Self) -> (res: Option<Self>)
        ensures
            res == (if *self + *v <= u32::MAX { Some((*self + *v) as u32) } else { None }),
    {
        u32::checked_add(*self, *v)
    }
}

/// A structure that remaps numbers to new numbers so that they form a contiguous
/// sequence starting at 0, in the order in which they were first remapped.
pub struct Remapper {
    /// The next number to be assigned.
    counter: u16,
    /// The map from old numbers to new ones.
    forward: BTreeMap<u16, u16>,
    /// The old numbers, by their new number.
    backward: Vec<u16>,
}

impl Remapper {
    /// The old numbers, in the order of their new numbers.
    pub closed spec fn spec_backward(&self) -> Seq<u16> {
        self.backward@
    }

    /// The number of remapped values.
    pub open spec fn spec_len(&self) -> nat {
        self.spec_backward().len()
    }

    /// The new number of an old one, if it has been remapped.
    pub open spec fn spec_get(&self, old: u16) -> Option<u16> {
        if exists|i: int| 0 <= i < self.spec_len() && self.spec_backward()[i] == old {
            Some((choose|i: int| 0 <= i < self.spec_len() && self.spec_backward()[i] == old) as u16)
        } else {
            None
        }
    }

    /// The old numbers are distinct and there are at most 65536 of them.
    pub open spec fn spec_distinct(&self) -> bool {
        &&& self.spec_len() <= 65536
        &&& forall|i: int, j: int|
            0 <= i < j < self.spec_len() ==> self.spec_backward()[i] != self.spec_backward()[j]
    }

    /// Whether the internal state is consistent.
    pub closed spec fn wf(&self) -> bool {
        &&& self.spec_distinct()
        &&& self.counter as int == self.backward@.len() || (self.counter == u16::MAX
            && self.backward@.len() == 65536)
        &&& self.backward@.len() <= 65535
        &&& forall|k: u16|
            self.forward@.contains_key(k) <==> exists|i: int|
                0 <= i < self.backward@.len() && self.backward@[i] == k
        &&& forall|i: int|
            0 <= i < self.backward@.len() ==> #[trigger] self.forward@[self.backward@[i]] == i
    }

    /// A consistent remapper holds distinct values, fewer than 65536.
    pub proof fn lemma_wf(&self)
        requires
            self.wf(),
        ensures
            self.spec_distinct(),
            self.spec_len() <= 65535,
    {
    }

    /// Create a new, empty remapper.
    pub fn new() -> (res: Self)
        ensures
            res.wf(),
            res.spec_backward() == Seq::<u16>::empty(),
    {
        Self { counter: 0, forward: BTreeMap::new(), backward: Vec::new() }
    }

    /// Get the new number of a value that has been remapped before.
    pub fn get(&self, old: u16) -> (res: Option<u16>)
        requires
            self.wf(),
        ensures
            res == self.spec_get(old),
    {
        match self.forward.get(&old) {
            Some(v) => {
                proof {
                    let i = *v as int;
                    let w = choose|j: int| 0 <= j < self.backward@.len() && self.backward@[j] == old;
                    assert(self.forward@[self.backward@[w]] == w);
                }
                Some(*v)
            },
            None => None,
        }
    }

    /// Remap a value: return its new number if it has one, or else assign it the next number.
    pub fn remap(&mut self, value: u16) -> (res: u16)
        requires
            old(self).wf(),
            old(self).spec_get(value) is Some || old(self).spec_len() < 65535,
        ensures
            final(self).wf(),
            final(self).spec_get(value) == Some(res),
            old(self).spec_get(value) is Some ==> *final(self) == *old(self) && old(self).spec_get(value)
                == Some(res),
            old(self).spec_get(value) is None ==> final(self).spec_backward() == old(self).spec_backward().push(value) && res == old(self).spec_len(),
            final(self).spec_backward() == remap_step(old(self).spec_backward(), value),
    {
        proof {
            if old(self).spec_backward().contains(value) {
                let k = choose|k: int|
                    0 <= k < old(self).spec_len() && old(self).spec_backward()[k] == value;
                assert(old(self).spec_get(value) is Some);
            }
        }
        match self.forward.get(&value) {
            Some(v) => {
                let r = *v;
                proof {
                    let w = choose|j: int| 0 <= j < self.backward@.len() && self.backward@[j] == value;
                    assert(self.forward@[self.backward@[w]] == w);
                }
                r
            },
            None => {
                let new = self.counter;
                let ghost prev = self.backward@;
                let ghost prev_fwd = self.forward@;
                self.backward.push(value);
                self.forward.insert(value, new);
                self.counter = self.counter + 1;
                proof {
                    assert forall|k: u16|
                        self.forward@.contains_key(k) <==> exists|i: int|
                            0 <= i < self.backward@.len() && self.backward@[i] == k by {
                        if self.forward@.contains_key(k) {
                            if k == value {
                                assert(self.backward@[prev.len() as int] == value);
                            } else {
                                assert(prev_fwd.contains_key(k));
                                let i = choose|i: int| 0 <= i < prev.len() && prev[i] == k;
                                assert(self.backward@[i] == k);
                            }
                        }
                        if exists|i: int| 0 <= i < self.backward@.len() && self.backward@[i] == k {
                            let i = choose|i: int|
                                0 <= i < self.backward@.len() && self.backward@[i] == k;
                            if i < prev.len() {
                                assert(prev[i] == k);
                                assert(prev_fwd.contains_key(k));
                            }
                        }
                    }
                    assert forall|i: int| 0 <= i < self.backward@.len() implies #[trigger] self.forward@[self.backward@[i]] == i by {
                        if i < prev.len() {
                            assert(prev[i] != value);
                            assert(self.backward@[i] == prev[i]);
                        }
                    }
                    assert(self.backward@[prev.len() as int] == value);
                    lemma_spec_get_unique(*self, value, prev.len() as int);
                }
                new
            },
        }
    }

    /// The number of values that have been remapped.
    pub fn len(&self) -> (res: u16)
        requires
            self.wf(),
        ensures
            res == self.spec_len(),
    {
        self.counter
    }

    /// The old values, in the order of their new numbers.
    pub fn sorted_iter(&self) -> (res: Vec<u16>)
        requires
            self.wf(),
        ensures
            res@ == self.spec_backward(),
    {
        self.backward.clone()
    }

    /// The old value with a given new number.
    pub fn get_reverse(&self, new: u16) -> (res: Option<u16>)
        requires
            self.wf(),
        ensures
            res == (if new < self.spec_len() { Some(self.spec_backward()[new as int]) } else { None }),
    {
        if (new as usize) < self.backward.len() {
            Some(self.backward[new as usize])
        } else {
            None
        }
    }

    /// The old values, in the order of their new numbers.
    pub fn backward_slice(&self) -> (res: &[u16])
        ensures
            res@ == self.spec_backward(),
    {
        self.backward.as_slice()
    }
}

impl Clone for Remapper {
    fn clone(&self) -> (res: Self)
        ensures
            self.wf() ==> res.wf(),
            res.spec_backward() == self.spec_backward(),
    {
        Remapper {
            counter: self.counter,
            forward: self.forward.clone(),
            backward: self.backward.clone(),
        }
    }
}

/// The kind of a glyph remapper.
enum GlyphRemapperType {
    /// A remapper that assigns new glyph IDs in the order of remapping.
    CustomRemapper(Remapper),
    /// A remapper that maps each glyph to itself.
    IdentityRemapper,
}

/// A remapper that allows to assign a new ordering to a subset of glyphs.
/// For example, to subset a font so that it only contains the glyphs 4, 9 and 16,
/// the remapper could assign the following glyph IDs:
/// 0 -> 0 (The .notdef glyph will always be included)
/// 4 -> 1
/// 9 -> 2
/// 16 -> 3
/// This is necessary because a font needs to have a contiguous sequence of
/// glyph IDs that start from 0.
pub struct GlyphRemapper(GlyphRemapperType);

impl GlyphRemapper {
    /// Whether this is the identity remapper.
    pub closed spec fn spec_is_identity(&self) -> bool {
        self.0 is IdentityRemapper
    }

    /// The old glyphs, in the order of their new IDs (empty for the identity remapper).
    pub closed spec fn spec_gids(&self) -> Seq<u16> {
        match self.0 {
            GlyphRemapperType::CustomRemapper(r) => r.spec_backward(),
            GlyphRemapperType::IdentityRemapper => Seq::empty(),
        }
    }

    /// The new ID of an old glyph, if it has one.
    pub closed spec fn spec_get(&self, old: u16) -> Option<u16> {
        match self.0 {
            GlyphRemapperType::CustomRemapper(r) => r.spec_get(old),
            GlyphRemapperType::IdentityRemapper => Some(old),
        }
    }

    /// Whether the internal state is consistent: a custom remapper maps `.notdef` (glyph 0)
    /// to 0.
    pub closed spec fn wf(&self) -> bool {
        match self.0 {
            GlyphRemapperType::CustomRemapper(r) => r.wf() && r.spec_len() >= 1
                && r.spec_backward()[0] == 0,
            GlyphRemapperType::IdentityRemapper => true,
        }
    }

    /// The number of glyphs of a custom remapper.
    pub open spec fn spec_num_gids(&self) -> nat {
        self.spec_gids().len()
    }

    /// A custom remapper holds `.notdef` (glyph 0) as its first glyph.
    pub proof fn lemma_has_notdef(&self)
        requires
            self.wf(),
            !self.spec_is_identity(),
        ensures
            self.spec_num_gids() >= 1,
            self.spec_gids()[0] == 0,
    {
    }

    /// The new ID of a glyph is its position among the remapped glyphs.
    pub proof fn lemma_get_is_position(&self, old: u16)
        requires
            self.wf(),
            !self.spec_is_identity(),
        ensures
            self.spec_num_gids() <= 65535,
            self.spec_get(old) matches Some(n) ==> n < self.spec_num_gids()
                && self.spec_gids()[n as int] == old,
            self.spec_get(old) is None ==> !self.spec_gids().contains(old),
            forall|i: int|
                0 <= i < self.spec_num_gids() ==> self.spec_get(#[trigger] self.spec_gids()[i])
                    == Some(i as u16),
    {
        if let GlyphRemapperType::CustomRemapper(r) = self.0 {
            assert forall|i: int| 0 <= i < r.spec_len() implies r.spec_get(
                #[trigger] r.spec_backward()[i],
            ) == Some(i as u16) by {
                lemma_spec_get_unique(r, r.spec_backward()[i], i);
            }
            if r.spec_get(old) is Some {
                let i = choose|i: int| 0 <= i < r.spec_len() && r.spec_backward()[i] == old;
                lemma_spec_get_unique(r, old, i);
            }
        }
    }

    /// Create a new glyph remapper, which maps `.notdef` (glyph 0) to 0.
    pub fn new() -> (res: Self)
        ensures
            res.wf(),
            !res.spec_is_identity(),
            res.spec_gids() == seq![0u16],
            res.spec_get(0) == Some(0u16),
    {
        let mut remapper = Remapper::new();
        remapper.remap(0);
        proof {
            assert(remapper.spec_backward() =~= seq![0u16]);
        }
        Self(GlyphRemapperType::CustomRemapper(remapper))
    }

    /// Create a new remapper that maps each glyph to itself.
    pub fn identity() -> (res: Self)
        ensures
            res.wf(),
            res.spec_is_identity(),
            forall|g: u16| res.spec_get(g) == Some(g),
    {
        Self(GlyphRemapperType::IdentityRemapper)
    }

    /// Return whether the current mapper is an identity mapper.
    pub fn is_identity(&self) -> (res: bool)
        ensures
            res == self.spec_is_identity(),
    {
        match &self.0 {
            GlyphRemapperType::CustomRemapper(_) => false,
            GlyphRemapperType::IdentityRemapper => true,
        }
    }

    /// Create a remapper from a set of glyphs: `.notdef` and the given glyphs, in ascending
    /// order, so that the mapping is monotonically increasing.
    pub fn new_from_glyphs(glyphs: &[u16]) -> (res: Self)
        requires
            exists|m: u16| m != 0 && !glyphs@.contains(m),
        ensures
            res.wf(),
            !res.spec_is_identity(),
            forall|g: u16| (res.spec_get(g) is Some) <==> (g == 0 || glyphs@.contains(g)),
            forall|i: int, j: int|
                0 <= i < j < res.spec_num_gids() ==> res.spec_gids()[i] < res.spec_gids()[j],
    {
        let ghost m = choose|m: u16| m != 0 && !glyphs@.contains(m);
        let mut present: Vec<bool> = vec![false; 65536];
        let mut i: usize = 0;
        while i < glyphs.len()
            invariant
                i <= glyphs@.len(),
                present@.len() == 65536,
                forall|x: int|
                    0 <= x < 65536 ==> #[trigger] present@[x] == exists|k: int|
                        0 <= k < i && glyphs@[k] == x,
            decreases glyphs@.len() - i,
        {
            let g = glyphs[i] as usize;
            present.set(g, true);
            i = i + 1;
            proof {
                assert forall|x: int| 0 <= x < 65536 implies #[trigger] present@[x] == exists|
                    k: int,
                | 0 <= k < i && glyphs@[k] == x by {
                    if x == g {
                        assert(glyphs@[i - 1] == x);
                    }
                }
            }
        }
        proof {
            assert forall|x: u16| #[trigger] present@[x as int] == glyphs@.contains(x) by {
                if glyphs@.contains(x) {
                    let k = choose|k: int| 0 <= k < glyphs@.len() && glyphs@[k] == x;
                }
            }
        }
        let mut remapper = Remapper::new();
        remapper.remap(0);
        proof {
            assert(remapper.spec_backward() =~= seq![0u16]);
        }
        let mut v: usize = 1;
        while v < 65536
            invariant
                1 <= v <= 65536,
                m != 0,
                !glyphs@.contains(m),
                present@.len() == 65536,
                forall|x: u16| #[trigger] present@[x as int] == glyphs@.contains(x),
                remapper.wf(),
                remapper.spec_len() >= 1,
                remapper.spec_backward()[0] == 0,
                remapper.spec_len() <= v - (if m < v { 1int } else { 0int }),
                forall|j: int|
                    0 <= j < remapper.spec_len() ==> #[trigger] remapper.spec_backward()[j] < v,
                forall|a: int, b: int|
                    0 <= a < b < remapper.spec_len() ==> remapper.spec_backward()[a]
                        < remapper.spec_backward()[b],
                forall|x: u16|
                    #![trigger remapper.spec_get(x)]
                    x < v ==> ((remapper.spec_get(x) is Some) <==> (x == 0 || glyphs@.contains(x))),
                forall|x: u16| x >= v ==> remapper.spec_get(x) is None,
            decreases 65536 - v,
        {
            let ghost prev = remapper.spec_backward();
            let ghost old_r = remapper;
            let is_present = present[v];
            if is_present {
                proof {
                    assert(remapper.spec_get(v as u16) is None);
                    assert(present@[(v as u16) as int]);
                    assert(v as u16 != m);
                }
                remapper.remap(v as u16);
            }
            proof {
                assert forall|x: u16| x >= v + 1 implies remapper.spec_get(x) is None by {
                    if remapper.spec_get(x) is Some {
                        let j = choose|j: int|
                            0 <= j < remapper.spec_len() && remapper.spec_backward()[j] == x;
                        if j < prev.len() {
                            assert(prev[j] < v);
                        }
                    }
                }
                assert forall|x: u16|
                    #![trigger remapper.spec_get(x)]
                    x < v + 1 implies ((remapper.spec_get(x) is Some) <==> (x == 0
                        || glyphs@.contains(x))) by {
                    assert(present@[x as int] == glyphs@.contains(x));
                    if x == v {
                        if is_present {
                            assert(remapper.spec_get(x) is Some);
                        } else {
                            assert(remapper.spec_get(x) is None);
                        }
                    } else {
                        if remapper.spec_get(x) is Some {
                            let j = choose|j: int|
                                0 <= j < remapper.spec_len() && remapper.spec_backward()[j] == x;
                            if is_present {
                                assert(j < prev.len());
                            }
                            assert(prev[j] == x);
                            assert(old_r.spec_get(x) is Some);
                        }
                        if old_r.spec_get(x) is Some {
                            let j = choose|j: int|
                                0 <= j < old_r.spec_len() && old_r.spec_backward()[j] == x;
                            assert(remapper.spec_backward()[j] == x);
                            assert(remapper.spec_get(x) is Some);
                        }
                    }
                }
            }
            v = v + 1;
        }
        proof {
            assert forall|g: u16| (remapper.spec_get(g) is Some) <==> (g == 0 || glyphs@.contains(g)) by {
                assert(g < 65536);
            }
        }
        Self(GlyphRemapperType::CustomRemapper(remapper))
    }

    /// Get the number of glyphs that have been remapped.
    pub fn num_gids(&self) -> (res: u16)
        requires
            self.wf(),
            !self.spec_is_identity(),
        ensures
            res == self.spec_num_gids(),
    {
        match &self.0 {
            GlyphRemapperType::CustomRemapper(custom) => custom.len(),
            GlyphRemapperType::IdentityRemapper => 0,
        }
    }

    /// Remap a glyph ID, or return the existing mapping if the
    /// glyph ID has already been remapped before.
    pub fn remap(&mut self, glyph: u16) -> (res: u16)
        requires
            old(self).wf(),
            old(self).spec_get(glyph) is Some || old(self).spec_num_gids() < 65535,
        ensures
            final(self).wf(),
            final(self).spec_is_identity() == old(self).spec_is_identity(),
            final(self).spec_get(glyph) == Some(res),
            old(self).spec_get(glyph) is Some ==> final(self).spec_gids() == old(self).spec_gids()
                && old(self).spec_get(glyph) == Some(res)
                && (forall|g: u16| final(self).spec_get(g) == old(self).spec_get(g)),
            old(self).spec_get(glyph) is None ==> final(self).spec_gids() == old(self).spec_gids().push(glyph) && res == old(self).spec_num_gids(),
    {
        match &mut self.0 {
            GlyphRemapperType::CustomRemapper(custom) => {
                let r = custom.remap(glyph);
                r
            },
            GlyphRemapperType::IdentityRemapper => glyph,
        }
    }

    /// Get the mapping of a glyph ID, if it has been remapped before.
    pub fn get(&self, old: u16) -> (res: Option<u16>)
        requires
            self.wf(),
        ensures
            res == self.spec_get(old),
    {
        match &self.0 {
            GlyphRemapperType::CustomRemapper(custom) => custom.get(old),
            GlyphRemapperType::IdentityRemapper => Some(old),
        }
    }

    /// The old glyphs, in the order of their new IDs. For example, after the remappings
    /// 3, 39, 8, 3, 10, 2 of a new remapper, this is 0, 3, 39, 8, 10, 2.
    pub fn remapped_gids(&self) -> (res: Vec<u16>)
        requires
            self.wf(),
            !self.spec_is_identity(),
        ensures
            res@ == self.spec_gids(),
    {
        match &self.0 {
            GlyphRemapperType::CustomRemapper(custom) => custom.sorted_iter(),
            GlyphRemapperType::IdentityRemapper => Vec::new(),
        }
    }
}

impl Clone for GlyphRemapper {
    fn clone(&self) -> (res: Self)
        ensures
            self.wf() ==> res.wf(),
            res.spec_is_identity() == self.spec_is_identity(),
            res.spec_gids() == self.spec_gids(),
            self.wf() ==> forall|g: u16| res.spec_get(g) == self.spec_get(g),
    {
        match &self.0 {
            GlyphRemapperType::CustomRemapper(custom) => {
                let c = custom.clone();
                GlyphRemapper(GlyphRemapperType::CustomRemapper(c))
            },
            GlyphRemapperType::IdentityRemapper => GlyphRemapper(
                GlyphRemapperType::IdentityRemapper,
            ),
        }
    }
}

/// In a remapper with distinct values, the new number of a value is its position.
pub proof fn lemma_spec_get_unique(r: Remapper, old: u16, i: int)
    requires
        r.spec_distinct(),
        0 <= i < r.spec_len(),
        r.spec_backward()[i] == old,
    ensures
        r.spec_get(old) == Some(i as u16),
{
    let j = choose|j: int| 0 <= j < r.spec_len() && r.spec_backward()[j] == old;
    assert(j == i);
}

/// The values remapped so far after remapping `x`: unchanged if they hold it, else with `x`
/// at the end.
pub open spec fn remap_step(b: Seq<u16>, x: u16) -> Seq<u16> {
    if b.contains(x) {
        b
    } else {
        b.push(x)
    }
}

/// The values of the first `k` of `xs`, each once, in the order they first appear: what an
/// empty remapper holds after remapping them in order.
pub open spec fn remapped_in_order(xs: Seq<u16>, k: int) -> Seq<u16>
    decreases k,
{
    if k <= 0 {
        Seq::empty()
    } else {
        remap_step(remapped_in_order(xs, k - 1), xs[k - 1])
    }
}

/// The values remapped from a prefix are those of the prefix.
proof fn lemma_remapped_contains(xs: Seq<u16>, k: int, y: u16)
    requires
        0 <= k <= xs.len(),
    ensures
        remapped_in_order(xs, k).contains(y) <==> xs.take(k).contains(y),
    decreases k,
{
    if k > 0 {
        lemma_remapped_contains(xs, k - 1, y);
        let prev = remapped_in_order(xs, k - 1);
        let cur = remapped_in_order(xs, k);
        if cur.contains(y) {
            let q = choose|q: int| 0 <= q < cur.len() && #[trigger] cur[q] == y;
            if q < prev.len() {
                assert(prev[q] == y);
                let j = choose|j: int| 0 <= j < k - 1 && #[trigger] xs.take(k - 1)[j] == y;
                assert(xs.take(k)[j] == y);
            } else {
                assert(xs.take(k)[k - 1] == y);
            }
        }
        if xs.take(k).contains(y) {
            let j = choose|j: int| 0 <= j < k && #[trigger] xs.take(k)[j] == y;
            if j < k - 1 {
                assert(xs.take(k - 1)[j] == y);
                let q = choose|q: int| 0 <= q < prev.len() && #[trigger] prev[q] == y;
                if !prev.contains(xs[k - 1]) {
                    assert(cur[q] == y);
                }
            } else if !prev.contains(xs[k - 1]) {
                assert(cur[prev.len() as int] == y);
            }
        }
    }
}

/// The values remapped from a shorter prefix begin those remapped from a longer one.
proof fn lemma_remapped_prefix(xs: Seq<u16>, i: int, k: int)
    requires
        0 <= i <= k,
    ensures
        remapped_in_order(xs, i).len() <= remapped_in_order(xs, k).len(),
        forall|q: int|
            0 <= q < remapped_in_order(xs, i).len() ==> #[trigger] remapped_in_order(xs, k)[q]
                == remapped_in_order(xs, i)[q],
    decreases k - i,
{
    if i < k {
        lemma_remapped_prefix(xs, i, k - 1);
    }
}

/// Law: remapping values one after the other numbers them by first appearance. A remapper
/// that started empty and remapped the values of `xs` in order gives no number to a value
/// that `xs` lacks, and to the value first seen at position `i` the number of distinct values
/// before it.
pub proof fn lemma_remap_sequence(r: Remapper, xs: Seq<u16>)
    requires
        r.wf(),
        r.spec_backward() == remapped_in_order(xs, xs.len() as int),
    ensures
        forall|y: u16| !xs.contains(y) ==> #[trigger] r.spec_get(y) is None,
        forall|i: int|
            0 <= i < xs.len() && !xs.take(i).contains(xs[i]) ==> #[trigger] r.spec_get(xs[i])
                == Some(remapped_in_order(xs, i).len() as u16),
{
    let n = xs.len() as int;
    r.lemma_wf();
    assert(xs.take(n) =~= xs);
    assert forall|y: u16| !xs.contains(y) implies #[trigger] r.spec_get(y) is None by {
        lemma_remapped_contains(xs, n, y);
        if r.spec_get(y) is Some {
            let q = choose|q: int| 0 <= q < r.spec_len() && r.spec_backward()[q] == y;
            assert(remapped_in_order(xs, n).contains(y));
        }
    }
    assert forall|i: int|
        0 <= i < xs.len() && !xs.take(i).contains(xs[i]) implies #[trigger] r.spec_get(xs[i])
            == Some(remapped_in_order(xs, i).len() as u16) by {
        lemma_remapped_contains(xs, i, xs[i]);
        let p = remapped_in_order(xs, i).len() as int;
        assert(remapped_in_order(xs, i + 1)[p] == xs[i]);
        lemma_remapped_prefix(xs, i + 1, n);
        assert(r.spec_backward()[p] == xs[i]);
        lemma_spec_get_unique(r, xs[i], p);
    }
}

} // verus!
