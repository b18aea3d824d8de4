//! Remapping of string IDs and font DICT indices in CFF fonts.
use crate::cff::number::{StringId, STANDARD_STRING_LEN};
use crate::remapper::{lemma_spec_get_unique, Remapper};
use std::collections::BTreeMap;
use vstd::prelude::*;

verus! {

broadcast use vstd::std_specs::btree::group_btree_axioms, vstd::laws_cmp::group_laws_cmp;

/// Whether two byte strings are equal.
pub fn bytes_eq(a: &[u8], b: &[u8]) -> (res: bool)
    ensures
        res == (a@ == b@),
{
    if a.len() != b.len() {
        return false;
    }
    let mut i: usize = 0;
    while i < a.len()
        invariant
            a@.len() == b@.len(),
            i <= a@.len(),
            forall|j: int| 0 <= j < i ==> a@[j] == b@[j],
        decreases a@.len() - i,
    {
        if a[i] != b[i] {
            return false;
        }
        i = i + 1;
    }
    assert(a@ =~= b@);
    true
}

/// The state of a string ID remapper: its strings, by their new SID minus 391, and its map
/// from old SIDs to new SIDs.
pub struct SidState {
    pub strings: Seq<Seq<u8>>,
    pub old_sids: Map<u16, u16>,
}

/// The state after remapping a string.
pub open spec fn sid_state_remap(st: SidState, s: Seq<u8>) -> SidState {
    if st.strings.contains(s) {
        st
    } else {
        SidState { strings: st.strings.push(s), ..st }
    }
}

/// The state after remapping an old SID with its string.
pub open spec fn sid_state_remap_old(st: SidState, sid: u16, s: Seq<u8>) -> SidState {
    if st.old_sids.contains_key(sid) {
        st
    } else {
        let st2 = sid_state_remap(st, s);
        SidState {
            strings: st2.strings,
            old_sids: st.old_sids.insert(sid, (STANDARD_STRING_LEN + st2.strings.index_of(s)) as u16),
        }
    }
}

/// Remaps old SIDs to new SIDs, and also allows the insertion of new strings; the strings
/// get SIDs from 391 on, in the order in which they were first remapped.
pub struct SidRemapper {
    /// The strings, by their new SID minus 391.
    strings: Vec<Vec<u8>>,
    /// A map from old SIDs to new SIDs.
    old_sid_to_new_sid: BTreeMap<u16, u16>,
}

impl SidRemapper {
    /// The strings in the order of their new SIDs.
    pub closed spec fn spec_strings(&self) -> Seq<Seq<u8>> {
        self.strings@.map_values(|v: Vec<u8>| v@)
    }

    /// The map from old SIDs to new SIDs.
    pub closed spec fn spec_old_sids(&self) -> Map<u16, u16> {
        self.old_sid_to_new_sid@
    }

    /// The state of the remapper.
    pub open spec fn spec_state(&self) -> SidState {
        SidState { strings: self.spec_strings(), old_sids: self.spec_old_sids() }
    }

    /// The new SID of a string, if it has one.
    pub open spec fn spec_get(&self, s: Seq<u8>) -> Option<StringId> {
        if self.spec_strings().contains(s) {
            Some(StringId((STANDARD_STRING_LEN + self.spec_strings().index_of(s)) as u16))
        } else {
            None
        }
    }

    /// The strings are distinct, fit the SID range, and every new SID names one of them.
    pub open spec fn wf(&self) -> bool {
        &&& self.spec_strings().no_duplicates()
        &&& STANDARD_STRING_LEN + self.spec_strings().len() <= 65535
        &&& forall|k: u16|
            #[trigger] self.spec_old_sids().contains_key(k) ==> STANDARD_STRING_LEN
                <= self.spec_old_sids()[k] < STANDARD_STRING_LEN + self.spec_strings().len()
    }

    /// Create an empty remapper.
    pub fn new() -> (res: Self)
        ensures
            res.wf(),
            res.spec_strings() == Seq::<Seq<u8>>::empty(),
            res.spec_old_sids() == Map::<u16, u16>::empty(),
    {
        let res = Self { strings: Vec::new(), old_sid_to_new_sid: BTreeMap::new() };
        assert(res.spec_strings() =~= Seq::<Seq<u8>>::empty());
        res
    }

    /// The position of a string, if it is there.
    fn find(&self, string: &[u8]) -> (res: Option<usize>)
        ensures
            match res {
                Some(i) => i < self.spec_strings().len() && self.spec_strings()[i as int]
                    == string@ && forall|j: int| 0 <= j < i ==> self.spec_strings()[j] != string@,
                None => !self.spec_strings().contains(string@),
            },
    {
        let mut i: usize = 0;
        while i < self.strings.len()
            invariant
                i <= self.strings@.len(),
                forall|j: int| 0 <= j < i ==> self.spec_strings()[j] != string@,
            decreases self.strings@.len() - i,
        {
            if bytes_eq(self.strings[i].as_slice(), string) {
                return Some(i);
            }
            i = i + 1;
        }
        None
    }

    /// The new SID of a string.
    pub fn get(&self, string: &[u8]) -> (res: Option<StringId>)
        requires
            self.wf(),
        ensures
            res == self.spec_get(string@),
    {
        match self.find(string) {
            Some(i) => {
                proof {
                    lemma_index_of_first(self.spec_strings(), string@, i as int);
                }
                Some(StringId(STANDARD_STRING_LEN + i as u16))
            },
            None => None,
        }
    }

    /// Get the new SID to a corresponding old SID.
    pub fn get_new_sid(&self, sid: StringId) -> (res: Option<StringId>)
        ensures
            res == (if self.spec_old_sids().contains_key(sid.0) {
                Some(StringId(self.spec_old_sids()[sid.0]))
            } else {
                None
            }),
    {
        match self.old_sid_to_new_sid.get(&sid.0) {
            Some(v) => Some(StringId(*v)),
            None => None,
        }
    }

    /// Remap a string: its SID if it has one, or else the next SID.
    pub fn remap(&mut self, string: &[u8]) -> (res: StringId)
        requires
            old(self).wf(),
            old(self).spec_strings().contains(string@) || STANDARD_STRING_LEN + old(self).spec_strings().len() < 65535,
        ensures
            final(self).wf(),
            final(self).spec_get(string@) == Some(res),
            final(self).spec_old_sids() == old(self).spec_old_sids(),
            old(self).spec_strings().contains(string@) ==> final(self).spec_strings() == old(self).spec_strings(),
            !old(self).spec_strings().contains(string@) ==> final(self).spec_strings() == old(self).spec_strings().push(string@),
            STANDARD_STRING_LEN <= res.0 < STANDARD_STRING_LEN + final(self).spec_strings().len(),
    {
        match self.find(string) {
            Some(i) => {
                proof {
                    lemma_index_of_first(self.spec_strings(), string@, i as int);
                }
                StringId(STANDARD_STRING_LEN + i as u16)
            },
            None => {
                let ghost prev = self.spec_strings();
                let n = self.strings.len();
                let v = vstd::slice::slice_to_vec(string);
                self.strings.push(v);
                proof {
                    assert(self.spec_strings() =~= prev.push(string@));
                    assert(self.spec_strings()[n as int] == string@);
                    assert forall|a: int, b: int|
                        0 <= a < self.spec_strings().len() && 0 <= b < self.spec_strings().len()
                            && a != b implies self.spec_strings()[a] != self.spec_strings()[b] by {
                        if b == n {
                            assert(prev[a] == self.spec_strings()[a]);
                        } else if a == n {
                            assert(prev[b] == self.spec_strings()[b]);
                        }
                    }
                    assert(self.spec_strings().no_duplicates());
                    assert(STANDARD_STRING_LEN + self.spec_strings().len() <= 65535);
                    assert forall|k: u16| #[trigger] self.spec_old_sids().contains_key(k) implies
                        STANDARD_STRING_LEN <= self.spec_old_sids()[k] < STANDARD_STRING_LEN
                            + self.spec_strings().len() by {
                        assert(old(self).spec_old_sids().contains_key(k));
                    }
                    lemma_index_of_first(self.spec_strings(), string@, n as int);
                }
                StringId(STANDARD_STRING_LEN + n as u16)
            },
        }
    }

    /// Remap an old SID and its corresponding string.
    pub fn remap_with_old_sid(&mut self, sid: StringId, string: &[u8]) -> (res: StringId)
        requires
            old(self).wf(),
            old(self).spec_strings().contains(string@) || STANDARD_STRING_LEN + old(self).spec_strings().len() < 65535,
        ensures
            final(self).wf(),
            final(self).spec_old_sids().contains_key(sid.0),
            final(self).spec_old_sids()[sid.0] == res.0,
            old(self).spec_old_sids().contains_key(sid.0) ==> *final(self) == *old(self)
                && res.0 == old(self).spec_old_sids()[sid.0],
            !old(self).spec_old_sids().contains_key(sid.0) ==> {
                &&& final(self).spec_get(string@) == Some(res)
                &&& final(self).spec_old_sids() == old(self).spec_old_sids().insert(sid.0, res.0)
                &&& old(self).spec_strings().contains(string@) ==> final(self).spec_strings()
                    == old(self).spec_strings()
                &&& !old(self).spec_strings().contains(string@) ==> final(self).spec_strings()
                    == old(self).spec_strings().push(string@)
            },
    {
        match self.old_sid_to_new_sid.get(&sid.0) {
            Some(new_sid) => StringId(*new_sid),
            None => {
                let new_sid = self.remap(string);
                self.old_sid_to_new_sid.insert(sid.0, new_sid.0);
                new_sid
            },
        }
    }

    /// The strings, ordered by their new SID.
    pub fn sorted_strings(&self) -> (res: &Vec<Vec<u8>>)
        ensures
            res@.map_values(|v: Vec<u8>| v@) == self.spec_strings(),
    {
        &self.strings
    }
}

/// In a sequence without duplicates, the index of an element is where it occurs.
pub proof fn lemma_index_of_first(s: Seq<Seq<u8>>, x: Seq<u8>, i: int)
    requires
        0 <= i < s.len(),
        s[i] == x,
        s.no_duplicates(),
    ensures
        s.contains(x),
        s.index_of(x) == i,
{
    assert(s.contains(x));
    let k = s.index_of(x);
    assert(s[k] == x);
}

/// A remapper of font DICT indices.
pub struct FontDictRemapper(Remapper);

impl FontDictRemapper {
    /// The old font DICT indices, in the order of their new ones.
    pub closed spec fn spec_fds(&self) -> Seq<u16> {
        self.0.spec_backward()
    }

    /// The new index of an old font DICT, if it has one.
    pub closed spec fn spec_get(&self, old: u8) -> Option<u8> {
        match self.0.spec_get(old as u16) {
            Some(v) => Some(v as u8),
            None => None,
        }
    }

    /// Whether the internal state is consistent and all indices fit a byte.
    pub closed spec fn wf(&self) -> bool {
        &&& self.0.wf()
        &&& self.0.spec_len() <= 255
        &&& forall|i: int| 0 <= i < self.0.spec_len() ==> #[trigger] self.0.spec_backward()[i] < 256
    }

    /// The new index of an old font DICT is its position among the remapped ones.
    pub proof fn lemma_get_index(&self, u: u8)
        requires
            self.wf(),
        ensures
            self.spec_get(u) == (if self.spec_fds().contains(u as u16) {
                Some(self.spec_fds().index_of(u as u16) as u8)
            } else {
                None
            }),
    {
        self.0.lemma_wf();
        self.lemma_get_contains(u);
        if self.spec_fds().contains(u as u16) {
            let i = self.spec_fds().index_of(u as u16);
            lemma_spec_get_unique(self.0, u as u16, i);
        }
    }

    /// There are at most 255 remapped font DICTs.
    pub proof fn lemma_len(&self)
        requires
            self.wf(),
        ensures
            self.spec_fds().len() <= 255,
    {
    }

    /// An old font DICT has a new index exactly when it is among the remapped ones.
    pub proof fn lemma_get_contains(&self, u: u8)
        requires
            self.wf(),
        ensures
            (self.spec_get(u) is Some) <==> self.spec_fds().contains(u as u16),
    {
        if self.spec_fds().contains(u as u16) {
            let i = choose|i: int| 0 <= i < self.spec_fds().len() && self.spec_fds()[i] == u as u16;
            assert(0 <= i < self.0.spec_len() && self.0.spec_backward()[i] == u as u16);
        }
    }

    /// Create an empty remapper.
    pub fn new() -> (res: Self)
        ensures
            res.wf(),
            res.spec_fds() == Seq::<u16>::empty(),
    {
        FontDictRemapper(Remapper::new())
    }

    /// Remap a font DICT index.
    pub fn remap(&mut self, fd: u8) -> (res: u8)
        requires
            old(self).wf(),
            old(self).spec_get(fd) is Some || old(self).spec_fds().len() < 255,
        ensures
            final(self).wf(),
            final(self).spec_get(fd) == Some(res),
            old(self).spec_get(fd) is Some ==> final(self).spec_fds() == old(self).spec_fds(),
            old(self).spec_get(fd) is None ==> final(self).spec_fds() == old(self).spec_fds().push(
                fd as u16,
            ),
    {
        proof {
            self.0.lemma_wf();
        }
        let r = self.0.remap(fd as u16);
        proof {
            self.0.lemma_wf();
            lemma_spec_get_unique(self.0, fd as u16, r as int);
        }
        r as u8
    }

    /// The new index of an old font DICT.
    pub fn get(&self, old: u8) -> (res: Option<u8>)
        requires
            self.wf(),
        ensures
            res == self.spec_get(old),
            res matches Some(v) ==> (v as int) < self.spec_fds().len(),
    {
        match self.0.get(old as u16) {
            Some(v) => {
                proof {
                    self.0.lemma_wf();
                    let i = choose|i: int|
                        0 <= i < self.0.spec_len() && self.0.spec_backward()[i] == old as u16;
                    lemma_spec_get_unique(self.0, old as u16, i);
                }
                Some(v as u8)
            },
            None => None,
        }
    }

    /// The number of remapped font DICTs.
    pub fn len(&self) -> (res: u16)
        requires
            self.wf(),
        ensures
            res == self.spec_fds().len(),
    {
        self.0.len()
    }

    /// The old font DICT indices, in the order of their new ones.
    pub fn sorted_iter(&self) -> (res: Vec<u16>)
        requires
            self.wf(),
        ensures
            res@ == self.spec_fds(),
            res@.len() <= 255,
            forall|i: int| 0 <= i < res@.len() ==> #[trigger] res@[i] < 256,
    {
        self.0.sorted_iter()
    }
}

} // verus!
