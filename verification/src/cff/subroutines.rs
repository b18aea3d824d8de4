//! Access to the global and local subroutines of a CFF font.
use vstd::prelude::*;

verus! {

/// The bytes of a sequence of charstrings.
pub open spec fn charstrings_view(s: Seq<&[u8]>) -> Seq<Seq<u8>> {
    s.map_values(|c: &[u8]| c@)
}

/// The bias of a subroutine INDEX with `len` subroutines (Adobe Technical Note #5176,
/// "Local / Global Subrs INDEXes").
pub open spec fn spec_subroutine_bias(len: int) -> u16 {
    if len < 1240 {
        107
    } else if len < 33900 {
        1131
    } else {
        32768
    }
}

/// The bias of a subroutine INDEX with `len` subroutines.
pub fn calc_subroutine_bias(len: u32) -> (res: u16)
    ensures
        res == spec_subroutine_bias(len as int),
{
    if len < 1240 {
        107
    } else if len < 33900 {
        1131
    } else {
        32768
    }
}

/// The unbiased index for a biased one: their sum, if it is a non-negative `i32`.
pub open spec fn spec_unapply_bias(index: i32, bias: u16) -> Option<u32> {
    let sum = index + bias;
    if sum <= i32::MAX && sum >= 0 {
        Some(sum as u32)
    } else {
        None
    }
}

/// Remove the bias of a subroutine index.
pub fn unapply_bias(index: i32, bias: u16) -> (res: Option<u32>)
    ensures
        res == spec_unapply_bias(index, bias),
{
    let sum = index.checked_add(bias as i32)?;
    if sum >= 0 {
        Some(sum as u32)
    } else {
        None
    }
}

/// The subroutine at a biased index of a subroutine list.
pub open spec fn spec_subr_biased(subrs: Seq<Seq<u8>>, index: i32) -> Option<Seq<u8>> {
    match spec_unapply_bias(index, spec_subroutine_bias(subrs.len() as int)) {
        Some(i) => if i < subrs.len() {
            Some(subrs[i as int])
        } else {
            None
        },
        None => None,
    }
}

/// A handler for resolving subroutine indices.
#[derive(Clone, Copy)]
pub struct SubroutineHandler<'a> {
    subroutines: &'a [&'a [u8]],
    bias: u16,
}

impl<'a> SubroutineHandler<'a> {
    /// The subroutines, by their bytes.
    pub closed spec fn spec_subrs(&self) -> Seq<Seq<u8>> {
        charstrings_view(self.subroutines@)
    }

    /// The bias fits the number of subroutines.
    pub closed spec fn wf(&self) -> bool {
        self.bias == spec_subroutine_bias(self.subroutines@.len() as int)
    }

    /// A handler for a list of subroutines.
    pub fn new(char_strings: &'a [&'a [u8]]) -> (res: Self)
        requires
            char_strings@.len() <= u32::MAX,
        ensures
            res.wf(),
            res.spec_subrs() == charstrings_view(char_strings@),
    {
        Self { subroutines: char_strings, bias: calc_subroutine_bias(char_strings.len() as u32) }
    }

    /// The subroutine at a biased index.
    pub fn get_with_biased(&self, index: i32) -> (res: Option<&'a [u8]>)
        requires
            self.wf(),
        ensures
            match spec_subr_biased(self.spec_subrs(), index) {
                Some(s) => res matches Some(r) && r@ == s,
                None => res is None,
            },
    {
        self.get_with_unbiased(unapply_bias(index, self.bias)?)
    }

    /// The subroutine at an unbiased index.
    pub fn get_with_unbiased(&self, index: u32) -> (res: Option<&'a [u8]>)
        ensures
            index < self.spec_subrs().len() ==> (res matches Some(r) && r@ == self.spec_subrs()[index as int]),
            index >= self.spec_subrs().len() ==> res is None,
    {
        if (index as usize) < self.subroutines.len() {
            Some(self.subroutines[index as usize])
        } else {
            None
        }
    }
}

/// The subroutines of one INDEX.
pub struct SubroutineContainer<'a> {
    subroutines: Vec<&'a [u8]>,
}

impl<'a> SubroutineContainer<'a> {
    /// The subroutines, by their bytes.
    pub closed spec fn spec_subrs(&self) -> Seq<Seq<u8>> {
        charstrings_view(self.subroutines@)
    }

    /// A container of the given subroutines.
    pub fn new(subroutines: Vec<&'a [u8]>) -> (res: Self)
        ensures
            res.spec_subrs() == charstrings_view(subroutines@),
    {
        Self { subroutines }
    }

    /// A handler of the subroutines.
    pub fn get_handler(&self) -> (res: SubroutineHandler<'_>)
        requires
            self.spec_subrs().len() <= u32::MAX,
        ensures
            res.wf(),
            res.spec_subrs() == self.spec_subrs(),
    {
        SubroutineHandler::new(self.subroutines.as_slice())
    }
}

/// The local subroutines of each font DICT.
pub struct SubroutineCollection<'a> {
    subroutines: Vec<SubroutineContainer<'a>>,
}

impl<'a> SubroutineCollection<'a> {
    /// The subroutines of each font DICT, by their bytes.
    pub closed spec fn spec_subrs(&self) -> Seq<Seq<Seq<u8>>> {
        self.subroutines@.map_values(|c: SubroutineContainer<'a>| c.spec_subrs())
    }

    /// A collection of the given lists of subroutines.
    pub fn new(subroutines: Vec<Vec<&'a [u8]>>) -> (res: Self)
        ensures
            res.spec_subrs() == subroutines@.map_values(|v: Vec<&'a [u8]>| charstrings_view(v@)),
    {
        let mut containers: Vec<SubroutineContainer<'a>> = Vec::new();
        let mut rest = subroutines;
        let ghost all = rest@;
        let n = rest.len();
        let mut i: usize = 0;
        while i < n
            invariant
                n == all.len(),
                i <= n,
                rest@ == all.subrange(i as int, n as int),
                containers@.len() == i,
                forall|j: int|
                    0 <= j < i ==> (#[trigger] containers@[j]).spec_subrs() == charstrings_view(
                        all[j]@,
                    ),
            decreases n - i,
        {
            let v = rest.remove(0);
            containers.push(SubroutineContainer::new(v));
            i = i + 1;
            assert(rest@ =~= all.subrange(i as int, n as int));
        }
        let res = Self { subroutines: containers };
        assert(res.spec_subrs() =~= all.map_values(|v: Vec<&'a [u8]>| charstrings_view(v@)));
        res
    }

    /// A handler of the subroutines of a font DICT.
    pub fn get_handler(&self, fd_index: u8) -> (res: Option<SubroutineHandler<'_>>)
        requires
            forall|i: int| 0 <= i < self.spec_subrs().len() ==> #[trigger] self.spec_subrs()[i].len() <= u32::MAX,
        ensures
            fd_index < self.spec_subrs().len() ==> (res matches Some(h) && h.wf() && h.spec_subrs()
                == self.spec_subrs()[fd_index as int]),
            fd_index >= self.spec_subrs().len() ==> res is None,
    {
        if (fd_index as usize) < self.subroutines.len() {
            assert(self.spec_subrs()[fd_index as int] == self.subroutines@[fd_index as int].spec_subrs());
            Some(self.subroutines[fd_index as usize].get_handler())
        } else {
            None
        }
    }
}

} // verus!
