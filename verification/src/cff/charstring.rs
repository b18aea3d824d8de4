//! Decompilation of Type 2 charstrings: each call of a subroutine is replaced by the
//! instructions of the subroutine, so that the result needs no subroutines.
use crate::cff::argstack::ArgumentsStack;
use crate::cff::dict::lemma_number_len;
use crate::cff::number::{spec_as_i32, spec_number_bytes, spec_parse_number, Number, NumberView};
use crate::cff::operator::{spec_op_bytes, spec_op_code, Operator, OperatorType};
use crate::cff::subroutines::{spec_subr_biased, SubroutineHandler};
use crate::read::{lemma_has_rest, lemma_reader_rest, Reader};
use crate::write::{Writeable, Writer};
use crate::Error;
use vstd::prelude::*;

verus! {

/// A type of instruction in a charstring program.
pub enum Instruction<'a> {
    /// A number operand.
    Operand(Number),
    /// An operator.
    Operator(Operator),
    /// The mask bytes that follow a `hintmask` or `cntrmask` operator.
    HintMask(&'a [u8]),
}

/// The mathematical value of an instruction.
pub enum InstructionView {
    /// A number operand.
    Operand(NumberView),
    /// An operator.
    Operator(Operator),
    /// Mask bytes.
    HintMask(Seq<u8>),
}

impl<'a> View for Instruction<'a> {
    type V = InstructionView;

    open spec fn view(&self) -> InstructionView {
        match self {
            Instruction::Operand(n) => InstructionView::Operand(n@),
            Instruction::Operator(op) => InstructionView::Operator(*op),
            Instruction::HintMask(b) => InstructionView::HintMask(b@),
        }
    }
}

/// The bytes of an instruction.
pub open spec fn instruction_bytes(i: InstructionView) -> Seq<u8> {
    match i {
        InstructionView::Operand(n) => spec_number_bytes(n),
        InstructionView::Operator(op) => spec_op_bytes(op),
        InstructionView::HintMask(b) => b,
    }
}

/// The bytes of a sequence of instructions, one after the other.
pub open spec fn program_bytes(p: Seq<InstructionView>) -> Seq<u8>
    decreases p.len(),
{
    if p.len() == 0 {
        Seq::empty()
    } else {
        program_bytes(p.drop_last()) + instruction_bytes(p.last())
    }
}

/// A charstring program, decompiled into its instructions.
pub struct Program<'a>(pub Vec<Instruction<'a>>);

impl<'a> View for Program<'a> {
    type V = Seq<InstructionView>;

    open spec fn view(&self) -> Seq<InstructionView> {
        self.0@.map_values(|i: Instruction<'a>| i@)
    }
}

impl<'a> Program<'a> {
    /// An empty program.
    pub fn new() -> (res: Self)
        ensures
            res@ == Seq::<InstructionView>::empty(),
    {
        let res = Program(Vec::new());
        assert(res@ =~= Seq::<InstructionView>::empty());
        res
    }

    /// Push a new instruction to the program.
    pub fn push(&mut self, instruction: Instruction<'a>)
        ensures
            final(self)@ == old(self)@.push(instruction@),
    {
        self.0.push(instruction);
        assert(self@ =~= old(self)@.push(instruction@));
    }

    /// Remove the last instruction, if there is one.
    fn pop(&mut self)
        ensures
            old(self)@.len() > 0 ==> final(self)@ == old(self)@.drop_last(),
            old(self)@.len() == 0 ==> final(self)@ == old(self)@,
    {
        let _ = self.0.pop();
        proof {
            if old(self)@.len() > 0 {
                assert(self@ =~= old(self)@.drop_last());
            }
        }
    }

    /// Compile the program into the bytes of a charstring.
    pub fn compile(&self) -> (res: Vec<u8>)
        ensures
            res@ == program_bytes(self@),
    {
        let mut w = Writer::new();
        let mut i: usize = 0;
        while i < self.0.len()
            invariant
                i <= self.0@.len(),
                w@ == program_bytes(self@.take(i as int)),
            decreases self.0@.len() - i,
        {
            let ghost before = w@;
            match &self.0[i] {
                Instruction::Operand(num) => num.write(&mut w),
                Instruction::Operator(op) => op.write(&mut w),
                Instruction::HintMask(hm) => w.extend(hm),
            }
            proof {
                assert(self@.take(i + 1).drop_last() =~= self@.take(i as int));
                assert(self@.take(i + 1).last() == self@[i as int]);
            }
            i = i + 1;
        }
        assert(self@.take(i as int) =~= self@);
        w.finish()
    }
}

/// The state of the decompiler, with the program decompiled so far.
pub struct DecompileState {
    /// The instructions so far.
    pub program: Seq<InstructionView>,
    /// The operands on the stack.
    pub stack: Seq<NumberView>,
    /// The number of stem hints so far.
    pub hint_count: nat,
    /// The number of mask bytes after a hint mask operator, once known (else 0).
    pub hint_mask_bytes: nat,
}

/// Whether an operator code is one of the stem hint operators.
pub open spec fn is_stem_op(c: u16) -> bool {
    c == 1 || c == 3 || c == 18 || c == 23
}

/// Whether an operator code is one of the path construction operators, the flex ones
/// included.
pub open spec fn is_path_op(c: u16) -> bool {
    ||| 4 <= c <= 8
    ||| c == 21 || c == 22
    ||| 24 <= c <= 27
    ||| c == 30 || c == 31
    ||| 1234 <= c <= 1237
}

fn is_path_code(c: u16) -> (res: bool)
    ensures
        res == is_path_op(c),
{
    (4 <= c && c <= 8) || c == 21 || c == 22 || (24 <= c && c <= 27) || c == 30 || c == 31 || (
    1234 <= c && c <= 1237)
}

/// The operator at `pos` of a charstring and the position after it.
pub open spec fn spec_cs_operator(cs: Seq<u8>, pos: int) -> Option<(Operator, int)> {
    if cs[pos] == 12 {
        if pos + 1 < cs.len() {
            Some((Operator(OperatorType::TwoByteOperator(cs[pos + 1])), pos + 2))
        } else {
            None
        }
    } else {
        Some((Operator(OperatorType::OneByteOperator(cs[pos])), pos + 1))
    }
}

/// The state after counting the stem hints on the stack (two operands each), which
/// empties the stack; `None` if the count no longer fits 16 bits.
pub open spec fn spec_count_hints(st: DecompileState) -> Option<DecompileState> {
    let hc = st.hint_count + st.stack.len() / 2;
    if hc <= u16::MAX {
        Some(DecompileState { stack: Seq::empty(), hint_count: hc as nat, ..st })
    } else {
        None
    }
}

/// The state with an operator appended to the program.
pub open spec fn with_op(st: DecompileState, op: Operator) -> DecompileState {
    DecompileState { program: st.program.push(InstructionView::Operator(op)), ..st }
}

/// The result of decompiling the charstring `cs` from `pos` on, at subroutine nesting
/// `depth`, from the state `st`, with the global subroutines `g` and local ones `l`.
pub open spec fn spec_decompile(
    g: Seq<Seq<u8>>,
    l: Seq<Seq<u8>>,
    cs: Seq<u8>,
    pos: int,
    st: DecompileState,
    depth: int,
) -> Result<DecompileState, Error>
    decreases 65 - depth, cs.len() - pos,
{
    if depth > 64 {
        Err(Error::CFFError)
    } else if pos < 0 || pos >= cs.len() {
        Ok(st)
    } else if cs[pos] == 28 || cs[pos] >= 32 {
        match spec_parse_number(cs.subrange(pos, cs.len() as int), true) {
            Some((n, k)) => if 1 <= k && pos + k <= cs.len() && st.stack.len() < 48 {
                spec_decompile(
                    g,
                    l,
                    cs,
                    pos + k,
                    DecompileState {
                        program: st.program.push(InstructionView::Operand(n)),
                        stack: st.stack.push(n),
                        ..st
                    },
                    depth,
                )
            } else {
                Err(Error::CFFError)
            },
            None => Err(Error::CFFError),
        }
    } else {
        match spec_cs_operator(cs, pos) {
            None => Err(Error::CFFError),
            Some((op, next)) => {
                let c = spec_op_code(op);
                if is_path_op(c) {
                    spec_decompile(
                        g,
                        l,
                        cs,
                        next,
                        with_op(DecompileState { stack: Seq::empty(), ..st }, op),
                        depth,
                    )
                } else if is_stem_op(c) {
                    match spec_count_hints(st) {
                        Some(st1) => spec_decompile(g, l, cs, next, with_op(st1, op), depth),
                        None => Err(Error::CFFError),
                    }
                } else if c == 11 {
                    spec_decompile(g, l, cs, next, st, depth)
                } else if c == 10 || c == 29 {
                    let subrs = if c == 29 {
                        g
                    } else {
                        l
                    };
                    let prog = if st.program.len() > 0 {
                        st.program.drop_last()
                    } else {
                        st.program
                    };
                    if st.stack.len() == 0 {
                        Err(Error::CFFError)
                    } else {
                        match spec_as_i32(st.stack.last()) {
                            None => Err(Error::CFFError),
                            Some(idx) => match spec_subr_biased(subrs, idx) {
                                None => Err(Error::CFFError),
                                Some(sub) => match spec_decompile(
                                    g,
                                    l,
                                    sub,
                                    0,
                                    DecompileState {
                                        program: prog,
                                        stack: st.stack.drop_last(),
                                        ..st
                                    },
                                    depth + 1,
                                ) {
                                    Ok(st2) => spec_decompile(g, l, cs, next, st2, depth),
                                    Err(e) => Err(e),
                                },
                            },
                        }
                    }
                } else if c == 19 || c == 20 {
                    let st0 = with_op(st, op);
                    let st1 = if st.hint_mask_bytes == 0 {
                        match spec_count_hints(st0) {
                            Some(s) => Some(
                                DecompileState { hint_mask_bytes: (s.hint_count + 7) / 8, ..s },
                            ),
                            None => None,
                        }
                    } else {
                        Some(st0)
                    };
                    match st1 {
                        None => Err(Error::CFFError),
                        Some(s1) => if next + s1.hint_mask_bytes <= cs.len() {
                            spec_decompile(
                                g,
                                l,
                                cs,
                                next + s1.hint_mask_bytes,
                                DecompileState {
                                    program: s1.program.push(
                                        InstructionView::HintMask(
                                            cs.subrange(next, next + s1.hint_mask_bytes),
                                        ),
                                    ),
                                    ..s1
                                },
                                depth,
                            )
                        } else {
                            Err(Error::CFFError)
                        },
                    }
                } else if c == 14 {
                    if st.stack.len() >= 4 {
                        Err(Error::Unimplemented)
                    } else {
                        spec_decompile(g, l, cs, next, with_op(st, op), depth)
                    }
                } else {
                    Err(Error::CFFError)
                }
            },
        }
    }
}

/// The state of a fresh decompiler with an empty program.
pub open spec fn initial_state() -> DecompileState {
    DecompileState {
        program: Seq::empty(),
        stack: Seq::empty(),
        hint_count: 0,
        hint_mask_bytes: 0,
    }
}

/// The program that decompiling a whole charstring gives.
pub open spec fn spec_decompile_charstring(g: Seq<Seq<u8>>, l: Seq<Seq<u8>>, cs: Seq<u8>) -> Result<
    Seq<InstructionView>,
    Error,
> {
    match spec_decompile(g, l, cs, 0, initial_state(), 1) {
        Ok(st) => Ok(st.program),
        Err(e) => Err(e),
    }
}

/// A charstring decompiler.
pub struct Decompiler<'a> {
    gsubr_handler: SubroutineHandler<'a>,
    lsubr_handler: SubroutineHandler<'a>,
    stack: ArgumentsStack,
    hint_count: u16,
    hint_mask_bytes: u16,
}

impl<'a> Decompiler<'a> {
    /// The global subroutines.
    pub closed spec fn spec_gsubrs(&self) -> Seq<Seq<u8>> {
        self.gsubr_handler.spec_subrs()
    }

    /// The local subroutines.
    pub closed spec fn spec_lsubrs(&self) -> Seq<Seq<u8>> {
        self.lsubr_handler.spec_subrs()
    }

    /// Both handlers are well formed.
    pub closed spec fn wf(&self) -> bool {
        self.gsubr_handler.wf() && self.lsubr_handler.wf() && self.stack@.len() <= 48
    }

    /// The state of the decompiler, with a program.
    pub closed spec fn spec_state(&self, program: Seq<InstructionView>) -> DecompileState {
        DecompileState {
            program,
            stack: self.stack@,
            hint_count: self.hint_count as nat,
            hint_mask_bytes: self.hint_mask_bytes as nat,
        }
    }

    /// Create a new charstring decompiler.
    pub fn new(gsubr_handler: SubroutineHandler<'a>, lsubr_handler: SubroutineHandler<'a>) -> (res:
        Self)
        requires
            gsubr_handler.wf(),
            lsubr_handler.wf(),
        ensures
            res.wf(),
            res.spec_gsubrs() == gsubr_handler.spec_subrs(),
            res.spec_lsubrs() == lsubr_handler.spec_subrs(),
            res.spec_state(Seq::empty()) == initial_state(),
    {
        Self {
            gsubr_handler,
            lsubr_handler,
            stack: ArgumentsStack::new(),
            hint_count: 0,
            hint_mask_bytes: 0,
        }
    }

    /// Decompile a charstring.
    pub fn decompile(self, charstring: &'a [u8]) -> (res: Result<Program<'a>, Error>)
        requires
            self.wf(),
        ensures
            match spec_decompile(
                self.spec_gsubrs(),
                self.spec_lsubrs(),
                charstring@,
                0,
                self.spec_state(Seq::empty()),
                1,
            ) {
                Ok(st) => res matches Ok(p) && p@ == st.program,
                Err(e) => res matches Err(e2) && e2 == e,
            },
    {
        let mut decompiler = self;
        let mut program = Program::new();
        decompiler.decompile_inner(charstring, &mut program, 1)?;
        Ok(program)
    }

    /// Count the stem hints on the stack, emptying it.
    fn count_hints(&mut self) -> (res: Result<(), Error>)
        ensures
            final(self).gsubr_handler == old(self).gsubr_handler,
            final(self).lsubr_handler == old(self).lsubr_handler,
            final(self).hint_mask_bytes == old(self).hint_mask_bytes,
            final(self).stack@.len() == 0,
            forall|p: Seq<InstructionView>|
                match spec_count_hints(#[trigger] old(self).spec_state(p)) {
                    Some(s) => res is Ok && final(self).spec_state(p) == s,
                    None => res == Err::<(), Error>(Error::CFFError),
                },
    {
        let elements = self.stack.pop_all();
        let n = elements.len() / 2;
        if n > (u16::MAX - self.hint_count) as usize {
            return Err(Error::CFFError);
        }
        self.hint_count = self.hint_count + n as u16;
        Ok(())
    }

    #[verifier::rlimit(60)]
    fn decompile_inner(&mut self, charstring: &'a [u8], program: &mut Program<'a>, depth: u8) -> (res:
        Result<(), Error>)
        requires
            old(self).wf(),
        ensures
            final(self).wf(),
            final(self).spec_gsubrs() == old(self).spec_gsubrs(),
            final(self).spec_lsubrs() == old(self).spec_lsubrs(),
            match spec_decompile(
                old(self).spec_gsubrs(),
                old(self).spec_lsubrs(),
                charstring@,
                0,
                old(self).spec_state(old(program)@),
                depth as int,
            ) {
                Ok(st) => res is Ok && final(self).spec_state(final(program)@) == st,
                Err(e) => res == Err::<(), Error>(e),
            },
        decreases 65 - depth,
    {
        if depth > 64 {
            return Err(Error::CFFError);
        }
        let ghost g = self.spec_gsubrs();
        let ghost l = self.spec_lsubrs();
        let ghost cs = charstring@;
        let ghost st0 = self.spec_state(program@);
        let mut r = Reader::new(charstring);
        while !r.at_end()
            invariant
                r.spec_data() == cs,
                cs == charstring@,
                0 <= r.spec_offset() <= cs.len(),
                depth <= 64,
                self.wf(),
                self.spec_gsubrs() == g,
                self.spec_lsubrs() == l,
                g == old(self).spec_gsubrs(),
                l == old(self).spec_lsubrs(),
                st0 == old(self).spec_state(old(program)@),
                spec_decompile(g, l, cs, 0, st0, depth as int) == spec_decompile(
                    g,
                    l,
                    cs,
                    r.spec_offset(),
                    self.spec_state(program@),
                    depth as int,
                ),
            decreases cs.len() - r.spec_offset(),
        {
            let ghost pos = r.spec_offset();
            let ghost cur = self.spec_state(program@);
            proof {
                lemma_has_rest(r, 1nat);
                lemma_reader_rest(r, 1nat);
            }
            let op = match r.peak::<u8>() {
                Some(b) => b,
                None => return Err(Error::CFFError),
            };
            if op == 28 || op >= 32 {
                proof {
                    lemma_number_len(r.spec_rest(), true);
                    assert(r.spec_rest() =~= cs.subrange(pos, cs.len() as int));
                }
                let number = match Number::parse_char_string_number(&mut r) {
                    Some(n) => n,
                    None => return Err(Error::CFFError),
                };
                self.stack.push(number)?;
                program.push(Instruction::Operand(number));
                proof {
                    assert(self.spec_state(program@) =~= DecompileState {
                        program: cur.program.push(InstructionView::Operand(number@)),
                        stack: cur.stack.push(number@),
                        ..cur
                    });
                }
                continue;
            }
            let _ = r.read::<u8>();
            let operator = if op == 12 {
                let ghost r1 = r;
                proof {
                    lemma_has_rest(r1, 1nat);
                    if r1.has(1nat) {
                        lemma_reader_rest(r1, 1nat);
                    }
                }
                match r.read::<u8>() {
                    Some(b) => Operator::from_two_byte(b),
                    None => return Err(Error::CFFError),
                }
            } else {
                Operator::from_one_byte(op)
            };
            let ghost next = r.spec_offset();
            assert(spec_cs_operator(cs, pos) == Some((operator, next)));
            let code = operator.get();
            if is_path_code(code) {
                let _ = self.stack.pop_all();
                program.push(Instruction::Operator(operator));
                assert(self.spec_state(program@) =~= with_op(
                    DecompileState { stack: Seq::empty(), ..cur },
                    operator,
                ));
            } else if code == 1 || code == 3 || code == 18 || code == 23 {
                self.count_hints()?;
                program.push(Instruction::Operator(operator));
            } else if code == 11 {
            } else if code == 10 || code == 29 {
                program.pop();
                let n = match self.stack.pop() {
                    Some(n) => n,
                    None => return Err(Error::CFFError),
                };
                let biased_index = match n.as_i32() {
                    Some(v) => v,
                    None => return Err(Error::CFFError),
                };
                let subr = if code == 29 {
                    self.gsubr_handler.get_with_biased(biased_index)
                } else {
                    self.lsubr_handler.get_with_biased(biased_index)
                };
                let subr = match subr {
                    Some(s) => s,
                    None => return Err(Error::CFFError),
                };
                self.decompile_inner(subr, program, depth + 1)?;
            } else if code == 19 || code == 20 {
                program.push(Instruction::Operator(operator));
                if self.hint_mask_bytes == 0 {
                    self.count_hints()?;
                    self.hint_mask_bytes = ((self.hint_count as u32 + 7) / 8) as u16;
                }
                let ghost r2 = r;
                let hint_bytes = match r.read_bytes(self.hint_mask_bytes as usize) {
                    Some(b) => b,
                    None => return Err(Error::CFFError),
                };
                program.push(Instruction::HintMask(hint_bytes));
            } else if code == 14 {
                if self.stack.len() >= 4 {
                    return Err(Error::Unimplemented);
                }
                program.push(Instruction::Operator(operator));
            } else {
                return Err(Error::CFFError);
            }
        }
        Ok(())
    }
}

/// Whether a program holds no subroutine call and no return.
pub open spec fn is_desubroutinized(p: Seq<InstructionView>) -> bool {
    forall|i: int|
        0 <= i < p.len() ==> match #[trigger] p[i] {
            InstructionView::Operator(op) => spec_op_code(op) != 10 && spec_op_code(op) != 11
                && spec_op_code(op) != 29,
            _ => true,
        }
}

/// Decompiling never introduces a subroutine call or return: starting from a program without
/// any, the program that comes out has none either.
pub proof fn lemma_decompile_desubroutinized(
    g: Seq<Seq<u8>>,
    l: Seq<Seq<u8>>,
    cs: Seq<u8>,
    pos: int,
    st: DecompileState,
    depth: int,
)
    requires
        is_desubroutinized(st.program),
    ensures
        spec_decompile(g, l, cs, pos, st, depth) matches Ok(s) ==> is_desubroutinized(s.program),
    decreases 65 - depth, cs.len() - pos,
{
    if depth > 64 || pos < 0 || pos >= cs.len() {
    } else if cs[pos] == 28 || cs[pos] >= 32 {
        if let Some((n, k)) = spec_parse_number(cs.subrange(pos, cs.len() as int), true) {
            if 1 <= k && pos + k <= cs.len() && st.stack.len() < 48 {
                let st1 = DecompileState {
                    program: st.program.push(InstructionView::Operand(n)),
                    stack: st.stack.push(n),
                    ..st
                };
                assert(is_desubroutinized(st1.program)) by {
                    assert forall|i: int| 0 <= i < st1.program.len() implies match #[trigger] st1.program[i] {
                        InstructionView::Operator(op) => spec_op_code(op) != 10 && spec_op_code(op) != 11
                            && spec_op_code(op) != 29,
                        _ => true,
                    } by {
                        if i < st.program.len() {
                            assert(st1.program[i] == st.program[i]);
                        }
                    }
                }
                lemma_decompile_desubroutinized(g, l, cs, pos + k, st1, depth);
            }
        }
    } else {
        if let Some((op, next)) = spec_cs_operator(cs, pos) {
            let c = spec_op_code(op);
            if is_path_op(c) || is_stem_op(c) || c == 14 || c == 19 || c == 20 {
                assert forall|s: DecompileState| is_desubroutinized(s.program) implies is_desubroutinized(
                    #[trigger] with_op(s, op).program,
                ) by {
                    assert forall|i: int| 0 <= i < with_op(s, op).program.len() implies match #[trigger] with_op(s, op).program[i] {
                        InstructionView::Operator(o) => spec_op_code(o) != 10 && spec_op_code(o) != 11
                            && spec_op_code(o) != 29,
                        _ => true,
                    } by {
                        if i < s.program.len() {
                            assert(with_op(s, op).program[i] == s.program[i]);
                        }
                    }
                }
            }
            if is_path_op(c) {
                let s1 = with_op(DecompileState { stack: Seq::empty(), ..st }, op);
                lemma_decompile_desubroutinized(g, l, cs, next, s1, depth);
            } else if is_stem_op(c) {
                if let Some(st1) = spec_count_hints(st) {
                    lemma_decompile_desubroutinized(g, l, cs, next, with_op(st1, op), depth);
                }
            } else if c == 11 {
                lemma_decompile_desubroutinized(g, l, cs, next, st, depth);
            } else if c == 10 || c == 29 {
                let subrs = if c == 29 {
                    g
                } else {
                    l
                };
                let prog = if st.program.len() > 0 {
                    st.program.drop_last()
                } else {
                    st.program
                };
                assert(is_desubroutinized(prog)) by {
                    assert forall|i: int| 0 <= i < prog.len() implies match #[trigger] prog[i] {
                        InstructionView::Operator(o) => spec_op_code(o) != 10 && spec_op_code(o) != 11
                            && spec_op_code(o) != 29,
                        _ => true,
                    } by {
                        assert(prog[i] == st.program[i]);
                    }
                }
                if st.stack.len() > 0 {
                    if let Some(idx) = spec_as_i32(st.stack.last()) {
                        if let Some(sub) = spec_subr_biased(subrs, idx) {
                            let s1 = DecompileState { program: prog, stack: st.stack.drop_last(), ..st };
                            lemma_decompile_desubroutinized(g, l, sub, 0, s1, depth + 1);
                            if let Ok(st2) = spec_decompile(g, l, sub, 0, s1, depth + 1) {
                                lemma_decompile_desubroutinized(g, l, cs, next, st2, depth);
                            }
                        }
                    }
                }
            } else if c == 19 || c == 20 {
                let st0 = with_op(st, op);
                let st1 = if st.hint_mask_bytes == 0 {
                    match spec_count_hints(st0) {
                        Some(s) => Some(DecompileState { hint_mask_bytes: (s.hint_count + 7) / 8, ..s }),
                        None => None,
                    }
                } else {
                    Some(st0)
                };
                if let Some(s1) = st1 {
                    if next + s1.hint_mask_bytes <= cs.len() {
                        let s2 = DecompileState {
                            program: s1.program.push(
                                InstructionView::HintMask(cs.subrange(next, next + s1.hint_mask_bytes)),
                            ),
                            ..s1
                        };
                        assert(is_desubroutinized(s2.program)) by {
                            assert forall|i: int| 0 <= i < s2.program.len() implies match #[trigger] s2.program[i] {
                                InstructionView::Operator(o) => spec_op_code(o) != 10 && spec_op_code(o)
                                    != 11 && spec_op_code(o) != 29,
                                _ => true,
                            } by {
                                if i < s1.program.len() {
                                    assert(s2.program[i] == s1.program[i]);
                                }
                            }
                        }
                        lemma_decompile_desubroutinized(
                            g,
                            l,
                            cs,
                            next + s1.hint_mask_bytes,
                            s2,
                            depth,
                        );
                    }
                }
            } else if c == 14 {
                if st.stack.len() < 4 {
                    lemma_decompile_desubroutinized(g, l, cs, next, with_op(st, op), depth);
                }
            }
        }
    }
}

} // verus!
