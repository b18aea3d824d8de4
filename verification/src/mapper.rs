//! A mapper from old glyph IDs to new ones, which keeps the given order.
use crate::remapper::{lemma_spec_get_unique, Remapper};
use vstd::prelude::*;

verus! {

/// Glyph 0, then the glyphs of the first `k` of `gids` in the order they first appear.
pub open spec fn first_appearances(gids: Seq<u16>, k: int) -> Seq<u16>
    decreases k,
{
    if k <= 0 {
        seq![0u16]
    } else {
        let prev = first_appearances(gids, k - 1);
        if prev.contains(gids[k - 1]) {
            prev
        } else {
            prev.push(gids[k - 1])
        }
    }
}

/// A mapper from old glyph IDs to new ones, assigned in the order of first remapping;
/// glyph 0 always maps to 0.
pub struct GidMapper(Remapper);

impl GidMapper {
    /// The old glyphs, in the order of their new IDs.
    pub closed spec fn spec_gids(&self) -> Seq<u16> {
        self.0.spec_backward()
    }

    /// The new ID of an old glyph, if it has one.
    pub closed spec fn spec_get(&self, old: u16) -> Option<u16> {
        self.0.spec_get(old)
    }

    /// Whether the internal state is consistent: glyph 0 maps to 0.
    pub closed spec fn wf(&self) -> bool {
        self.0.wf() && self.0.spec_len() >= 1 && self.0.spec_backward()[0] == 0
    }

    /// Create a mapper that only maps glyph 0 to 0.
    pub fn new() -> (res: Self)
        ensures
            res.wf(),
            res.spec_gids() == seq![0u16],
            res.spec_get(0) == Some(0u16),
    {
        let mut r = Remapper::new();
        r.remap(0);
        proof {
            assert(r.spec_backward() =~= seq![0u16]);
        }
        GidMapper(r)
    }

    /// The new ID of an old glyph.
    pub fn get(&self, old_gid: u16) -> (res: Option<u16>)
        requires
            self.wf(),
        ensures
            res == self.spec_get(old_gid),
    {
        self.0.get(old_gid)
    }

    /// The old glyph with a given new ID.
    pub fn get_reverse(&self, new_gid: u16) -> (res: Option<u16>)
        requires
            self.wf(),
        ensures
            res == (if new_gid < self.spec_gids().len() {
                Some(self.spec_gids()[new_gid as int])
            } else {
                None
            }),
    {
        self.0.get_reverse(new_gid)
    }

    /// The old glyphs, in the order of their new IDs.
    pub fn old_gids(&self) -> (res: &[u16])
        ensures
            res@ == self.spec_gids(),
    {
        self.0.backward_slice()
    }

    /// Create a mapper from glyphs, in the given order (after glyph 0).
    pub fn from_gid_set(gids: &[u16]) -> (res: Self)
        requires
            exists|m: u16| m != 0 && !gids@.contains(m),
        ensures
            res.wf(),
            res.spec_gids() == first_appearances(gids@, gids@.len() as int),
            forall|g: u16| (res.spec_get(g) is Some) <==> (g == 0 || gids@.contains(g)),
    {
        let ghost m = choose|m: u16| m != 0 && !gids@.contains(m);
        let mut mapper = GidMapper::new();
        let mut i: usize = 0;
        while i < gids.len()
            invariant
                i <= gids@.len(),
                m != 0 && !gids@.contains(m),
                mapper.wf(),
                mapper.spec_gids() == first_appearances(gids@, i as int),
                forall|g: u16|
                    #![trigger mapper.spec_get(g)]
                    (mapper.spec_get(g) is Some) <==> (g == 0 || gids@.subrange(0, i as int).contains(g)),
            decreases gids@.len() - i,
        {
            let ghost old_m = mapper;
            let g = gids[i];
            proof {
                mapper.lemma_get_contains(g);
                if mapper.spec_get(g) is None {
                    assert(gids@[i as int] == g);
                    mapper.lemma_room(g, m, gids@.subrange(0, i as int));
                }
            }
            mapper.remap(g);
            i = i + 1;
            proof {
                assert forall|x: u16|
                    #![trigger mapper.spec_get(x)]
                    (mapper.spec_get(x) is Some) <==> (x == 0 || gids@.subrange(0, i as int).contains(x)) by {
                    if x != g {
                        assert(gids@.subrange(0, i as int).contains(x) <==> gids@.subrange(0, i - 1).contains(x)) by {
                            if gids@.subrange(0, i as int).contains(x) {
                                let k = choose|k: int| 0 <= k < i && #[trigger] gids@.subrange(0, i as int)[k] == x;
                                assert(gids@.subrange(0, i - 1)[k] == x);
                            }
                            if gids@.subrange(0, i - 1).contains(x) {
                                let k = choose|k: int| 0 <= k < i - 1 && #[trigger] gids@.subrange(0, i - 1)[k] == x;
                                assert(gids@.subrange(0, i as int)[k] == x);
                            }
                        }
                        mapper.lemma_remap_keeps(old_m, g, x);
                    } else {
                        assert(gids@.subrange(0, i as int)[i - 1] == x);
                    }
                }
            }
        }
        proof {
            assert(gids@.subrange(0, gids@.len() as int) =~= gids@);
        }
        mapper
    }

    /// In a consistent mapper, glyph 0 is the first glyph, and the new ID of a glyph is its
    /// position among the mapped glyphs.
    pub proof fn lemma_get_is_position(&self, old: u16)
        requires
            self.wf(),
        ensures
            1 <= self.spec_gids().len() <= 65535,
            self.spec_gids()[0] == 0,
            self.spec_get(0) == Some(0u16),
            self.spec_get(old) matches Some(n) ==> n < self.spec_gids().len()
                && self.spec_gids()[n as int] == old,
            self.spec_get(old) is None ==> !self.spec_gids().contains(old),
            forall|i: int|
                0 <= i < self.spec_gids().len() ==> self.spec_get(#[trigger] self.spec_gids()[i])
                    == Some(i as u16),
    {
        let r = self.0;
        r.lemma_wf();
        assert forall|i: int| 0 <= i < r.spec_len() implies r.spec_get(
            #[trigger] r.spec_backward()[i],
        ) == Some(i as u16) by {
            lemma_spec_get_unique(r, r.spec_backward()[i], i);
        }
        lemma_spec_get_unique(r, 0, 0);
        if r.spec_get(old) is Some {
            let i = choose|i: int| 0 <= i < r.spec_len() && r.spec_backward()[i] == old;
            lemma_spec_get_unique(r, old, i);
        } else {
            if self.spec_gids().contains(old) {
                let k = choose|k: int| 0 <= k < self.spec_gids().len() && self.spec_gids()[k] == old;
                assert(r.spec_backward()[k] == old);
            }
        }
    }

    /// A glyph is mapped exactly when it is among the mapped glyphs.
    proof fn lemma_get_contains(&self, g: u16)
        requires
            self.wf(),
        ensures
            (self.spec_get(g) is Some) <==> self.spec_gids().contains(g),
    {
        if self.spec_gids().contains(g) {
            let k = choose|k: int| 0 <= k < self.spec_gids().len() && self.spec_gids()[k] == g;
            assert(self.0.spec_backward()[k] == g);
        }
    }

    /// A mapper whose glyphs are 0 and some of `seen`, which lacks `m`, has room for a glyph
    /// `g` that it does not map yet.
    proof fn lemma_room(&self, g: u16, m: u16, seen: Seq<u16>)
        requires
            self.wf(),
            m != 0,
            m != g,
            !seen.contains(m),
            self.spec_get(g) is None,
            forall|x: u16| #![trigger self.spec_get(x)] (self.spec_get(x) is Some) ==> (x == 0 || seen.contains(x)),
        ensures
            self.spec_gids().len() < 65535,
    {
        self.0.lemma_wf();
        let s = self.spec_gids();
        assert forall|i: int| 0 <= i < s.len() implies #[trigger] s[i] != m && s[i] != g by {
            assert(self.0.spec_backward()[i] == s[i]);
            assert(self.spec_get(s[i]) is Some);
            if s[i] == g {
                assert(self.spec_get(g) is Some);
            }
        }
        lemma_distinct_avoiding(s, m, g);
    }

    /// Remapping one glyph does not change whether another glyph is mapped.
    proof fn lemma_remap_keeps(&self, old_m: GidMapper, g: u16, x: u16)
        requires
            x != g,
            old_m.wf(),
            self.wf(),
            self.spec_gids() == old_m.spec_gids() || self.spec_gids() == old_m.spec_gids().push(g),
        ensures
            (self.spec_get(x) is Some) <==> (old_m.spec_get(x) is Some),
    {
        if self.spec_get(x) is Some {
            let j = choose|j: int|
                0 <= j < self.0.spec_len() && self.0.spec_backward()[j] == x;
            assert(j < old_m.0.spec_len());
            assert(old_m.0.spec_backward()[j] == x);
        }
        if old_m.spec_get(x) is Some {
            let j = choose|j: int|
                0 <= j < old_m.0.spec_len() && old_m.0.spec_backward()[j] == x;
            assert(self.0.spec_backward()[j] == x);
        }
    }

    /// The number of mapped glyphs.
    pub fn num_gids(&self) -> (res: u16)
        requires
            self.wf(),
        ensures
            res == self.spec_gids().len(),
    {
        self.0.len()
    }

    /// Map a glyph, or return its existing new ID.
    pub fn remap(&mut self, gid: u16) -> (res: u16)
        requires
            old(self).wf(),
            old(self).spec_get(gid) is Some || old(self).spec_gids().len() < 65535,
        ensures
            final(self).wf(),
            final(self).spec_get(gid) == Some(res),
            old(self).spec_get(gid) is Some ==> final(self).spec_gids() == old(self).spec_gids()
                && old(self).spec_get(gid) == Some(res),
            old(self).spec_get(gid) is None ==> final(self).spec_gids() == old(self).spec_gids().push(gid) && res == old(self).spec_gids().len(),
    {
        self.0.remap(gid)
    }
}

/// Distinct 16-bit values that avoid two given values are at most 65534.
proof fn lemma_distinct_avoiding(s: Seq<u16>, a: u16, b: u16)
    requires
        a != b,
        forall|i: int, j: int| 0 <= i < j < s.len() ==> s[i] != s[j],
        forall|i: int| 0 <= i < s.len() ==> #[trigger] s[i] != a && s[i] != b,
    ensures
        s.len() <= 65534,
{
    let t = s.map_values(|x: u16| x as int);
    assert(t.no_duplicates()) by {
        assert forall|i: int, j: int| 0 <= i < t.len() && 0 <= j < t.len() && i != j implies t[i]
            != t[j] by {
            if i < j {
                assert(s[i] != s[j]);
            } else {
                assert(s[j] != s[i]);
            }
        }
    }
    t.unique_seq_to_set();
    let full = vstd::set_lib::set_int_range(0, 65536).remove(a as int).remove(b as int);
    vstd::set_lib::lemma_int_range(0, 65536);
    assert(full.len() == 65534);
    assert(t.to_set().subset_of(full)) by {
        assert forall|x: int| t.to_set().contains(x) implies full.contains(x) by {
            let i = choose|i: int| 0 <= i < t.len() && t[i] == x;
            assert(s[i] != a && s[i] != b);
        }
    }
    vstd::set_lib::lemma_len_subset(t.to_set(), full);
}

} // verus!
