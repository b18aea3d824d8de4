//! The stack of arguments of a charstring interpreter.
use crate::cff::number::{Number, NumberView};
use crate::Error;
use vstd::prelude::*;

verus! {

/// The maximum number of operands allowed on the stack.
pub const MAX_ARGUMENTS_STACK_LEN: usize = 48;

/// The views of a sequence of numbers.
pub open spec fn numbers_view(s: Seq<Number>) -> Seq<NumberView> {
    s.map_values(|n: Number| n@)
}

/// An arguments stack for interpreting CFF DICTs and charstrings.
pub struct ArgumentsStack {
    /// The numbers on the stack, the top last.
    pub data: Vec<Number>,
}

impl View for ArgumentsStack {
    type V = Seq<NumberView>;

    open spec fn view(&self) -> Seq<NumberView> {
        numbers_view(self.data@)
    }
}

impl ArgumentsStack {
    /// Create a new, empty argument stack.
    pub fn new() -> (res: Self)
        ensures
            res@ == Seq::<NumberView>::empty(),
    {
        let res = Self { data: Vec::new() };
        assert(res@ =~= Seq::<NumberView>::empty());
        res
    }

    /// The current length of the arguments stack.
    pub fn len(&self) -> (res: usize)
        ensures
            res == self@.len(),
    {
        self.data.len()
    }

    /// Push a new number onto the stack; fails when the stack is full.
    pub fn push(&mut self, n: Number) -> (res: Result<(), Error>)
        ensures
            old(self)@.len() == MAX_ARGUMENTS_STACK_LEN ==> res == Err::<(), Error>(Error::CFFError)
                && final(self)@ == old(self)@,
            old(self)@.len() != MAX_ARGUMENTS_STACK_LEN ==> res is Ok && final(self)@ == old(self)@.push(n@),
    {
        if self.data.len() == MAX_ARGUMENTS_STACK_LEN {
            Err(Error::CFFError)
        } else {
            self.data.push(n);
            assert(self@ =~= old(self)@.push(n@));
            Ok(())
        }
    }

    /// Pop the top number from the stack.
    pub fn pop(&mut self) -> (res: Option<Number>)
        ensures
            old(self)@.len() == 0 ==> res is None && final(self)@ == old(self)@,
            old(self)@.len() > 0 ==> (res matches Some(n) && n@ == old(self)@.last()),
            old(self)@.len() > 0 ==> final(self)@ == old(self)@.drop_last(),
    {
        let res = self.data.pop();
        proof {
            if old(self)@.len() > 0 {
                assert(self@ =~= old(self)@.drop_last());
            }
        }
        res
    }

    /// Pop all numbers from the stack, returning them bottom first.
    pub fn pop_all(&mut self) -> (res: Vec<Number>)
        ensures
            numbers_view(res@) == old(self)@,
            final(self)@ == Seq::<NumberView>::empty(),
    {
        let mut ret_vec: Vec<Number> = Vec::new();
        std::mem::swap(&mut self.data, &mut ret_vec);
        assert(self@ =~= Seq::<NumberView>::empty());
        ret_vec
    }
}

} // verus!
