//! Parsing of CFF DICTs: a sequence of operators, each preceded by its operands.
use crate::cff::number::{spec_as_i32, spec_parse_number, Number, NumberView, StringId};
use crate::cff::operator::{Operator, OperatorType, TWO_BYTE_OPERATOR_MARK};
use crate::read::{lemma_has_rest, lemma_reader_advance, lemma_reader_rest, Reader};
use vstd::prelude::*;

verus! {

/// The largest number of operands that are kept for one operator.
pub const MAX_OPERANDS_LEN: usize = 48;

/// Whether a byte starts an operator (and not a number) in a DICT.
pub open spec fn spec_is_op_byte(b: u8) -> bool {
    b <= 27 || b == 31 || b == 255
}

/// One-byte CFF DICT operators according to the Adobe Technical Note #5176,
/// Appendix H CFF DICT Encoding.
pub fn is_dict_one_byte_op(b: u8) -> (res: bool)
    ensures
        res == spec_is_op_byte(b),
{
    match b {
        0..=27 => true,
        28..=30 => false,
        31 => true,
        32..=254 => false,
        255 => true,
    }
}

/// Every number takes at least one byte.
pub proof fn lemma_number_len(s: Seq<u8>, charstring: bool)
    ensures
        spec_parse_number(s, charstring) matches Some((n, len)) ==> 1 <= len <= s.len(),
{
    if let Some((n, len)) = spec_parse_number(s, charstring) {
        if s[0] == 30 {
            crate::cff::number::lemma_scan_real_len(s.drop_first(), 0, Seq::empty());
        }
    }
}

/// Find the next operator of the DICT `d` from `pos` on, skipping numbers: the operator and
/// the position after it.
pub open spec fn spec_next_op(d: Seq<u8>, pos: int) -> Option<(Operator, int)>
    decreases d.len() - pos,
{
    if pos < 0 || pos >= d.len() {
        None
    } else if spec_is_op_byte(d[pos]) {
        if d[pos] == TWO_BYTE_OPERATOR_MARK {
            if pos + 1 < d.len() {
                Some((Operator(OperatorType::TwoByteOperator(d[pos + 1])), pos + 2))
            } else {
                None
            }
        } else {
            Some((Operator(OperatorType::OneByteOperator(d[pos])), pos + 1))
        }
    } else {
        match spec_parse_number(d.subrange(pos, d.len() as int), false) {
            Some((_, n)) => if n >= 1 && pos + n <= d.len() {
                spec_next_op(d, pos + n)
            } else {
                None
            },
            None => None,
        }
    }
}

/// The operands in the DICT `d` from `pos` on, up to the next operator, at most
/// `MAX_OPERANDS_LEN` of them, after the operands `acc` read so far.
pub open spec fn spec_operands(d: Seq<u8>, pos: int, acc: Seq<NumberView>) -> Option<Seq<NumberView>>
    decreases d.len() - pos,
{
    if pos < 0 || pos >= d.len() {
        Some(acc)
    } else if spec_is_op_byte(d[pos]) {
        Some(acc)
    } else {
        match spec_parse_number(d.subrange(pos, d.len() as int), false) {
            Some((v, n)) => if n >= 1 && pos + n <= d.len() {
                if acc.len() + 1 >= MAX_OPERANDS_LEN {
                    Some(acc.push(v))
                } else {
                    spec_operands(d, pos + n, acc.push(v))
                }
            } else {
                None
            },
            None => None,
        }
    }
}

/// The operator found by `spec_next_op` comes after the start position.
pub proof fn lemma_next_op_advances(d: Seq<u8>, pos: int)
    ensures
        spec_next_op(d, pos) matches Some((op, next)) ==> pos < next <= d.len(),
    decreases d.len() - pos,
{
    if pos < 0 || pos >= d.len() {
    } else if spec_is_op_byte(d[pos]) {
    } else {
        match spec_parse_number(d.subrange(pos, d.len() as int), false) {
            Some((_, n)) => if n >= 1 && pos + n <= d.len() {
                lemma_next_op_advances(d, pos + n);
            },
            None => {},
        }
    }
}

/// The string ID that operands stand for: one integer in the 16-bit range.
pub open spec fn spec_sid_of(ops: Option<Seq<NumberView>>) -> Option<StringId> {
    match ops {
        Some(ops) => if ops.len() == 1 {
            match spec_as_i32(ops[0]) {
                Some(v) => if 0 <= v <= u16::MAX {
                    Some(StringId(v as u16))
                } else {
                    None
                },
                None => None,
            }
        } else {
            None
        },
        None => None,
    }
}

/// The offset that operands stand for: one non-negative integer.
pub open spec fn spec_offset_of(ops: Option<Seq<NumberView>>) -> Option<usize> {
    match ops {
        Some(ops) => if ops.len() == 1 {
            match spec_as_i32(ops[0]) {
                Some(v) => if v >= 0 {
                    Some(v as usize)
                } else {
                    None
                },
                None => None,
            }
        } else {
            None
        },
        None => None,
    }
}

/// The range that operands stand for: a length and an offset, giving the range from the
/// offset to the offset plus the length.
pub open spec fn spec_range_of(ops: Option<Seq<NumberView>>) -> Option<(usize, usize)> {
    match ops {
        Some(ops) => if ops.len() == 2 {
            match (spec_as_i32(ops[0]), spec_as_i32(ops[1])) {
                (Some(len), Some(start)) => if len >= 0 && start >= 0 && start + len <= usize::MAX {
                    Some((start as usize, (start + len) as usize))
                } else {
                    None
                },
                _ => None,
            }
        } else {
            None
        },
        None => None,
    }
}

/// The `n` numbers that operands stand for, if there are exactly `n`.
pub open spec fn spec_numbers_of(ops: Option<Seq<NumberView>>, n: nat) -> Option<Seq<NumberView>> {
    match ops {
        Some(ops) => if ops.len() == n {
            Some(ops)
        } else {
            None
        },
        None => None,
    }
}

/// A parser of a DICT.
pub struct DictionaryParser<'a> {
    data: &'a [u8],
    /// The current offset.
    offset: usize,
    /// Offset to the operands of the last operator.
    operands_offset: usize,
    /// The parsed operands.
    operands: Vec<Number>,
}

impl<'a> DictionaryParser<'a> {
    /// The DICT bytes.
    pub closed spec fn spec_data(&self) -> Seq<u8> {
        self.data@
    }

    /// Where the search for the next operator starts.
    pub closed spec fn spec_offset(&self) -> int {
        self.offset as int
    }

    /// Where the operands of the last operator start.
    pub closed spec fn spec_operands_offset(&self) -> int {
        self.operands_offset as int
    }

    /// The operands parsed last.
    pub closed spec fn spec_operands_view(&self) -> Seq<NumberView> {
        self.operands@.map_values(|n: Number| n@)
    }

    /// Whether the offsets are within the data.
    pub closed spec fn wf(&self) -> bool {
        self.offset <= self.data@.len() && self.operands_offset <= self.data@.len()
            && self.operands@.len() <= MAX_OPERANDS_LEN
    }

    /// Create a parser of a DICT.
    pub fn new(data: &'a [u8]) -> (res: Self)
        ensures
            res.wf(),
            res.spec_data() == data@,
            res.spec_offset() == 0,
            res.spec_operands_offset() == 0,
            res.spec_operands_view() == Seq::<NumberView>::empty(),
    {
        let res = DictionaryParser {
            data,
            offset: 0,
            operands_offset: 0,
            operands: Vec::new(),
        };
        assert(res.spec_operands_view() =~= Seq::<NumberView>::empty());
        res
    }

    /// Find the next operator; its operands start where the search started.
    pub fn parse_next(&mut self) -> (res: Option<Operator>)
        requires
            old(self).wf(),
        ensures
            final(self).wf(),
            final(self).spec_data() == old(self).spec_data(),
            final(self).spec_operands_offset() == old(self).spec_offset(),
            final(self).spec_operands_view() == old(self).spec_operands_view(),
            match spec_next_op(old(self).spec_data(), old(self).spec_offset()) {
                Some((op, next)) => res == Some(op) && final(self).spec_offset() == next,
                None => res is None,
            },
    {
        let mut r = Reader::new_at(self.data, self.offset);
        self.operands_offset = self.offset;
        let ghost d = self.data@;
        let ghost start = self.offset as int;
        while !r.at_end()
            invariant
                r.spec_data() == d,
                d == self.data@,
                self.wf(),
                self.operands_offset == start,
                start == old(self).offset,
                d == old(self).data@,
                self.spec_operands_view() == old(self).spec_operands_view(),
                self.offset == old(self).offset,
                self.data == old(self).data,
                0 <= r.spec_offset() <= d.len(),
                spec_next_op(d, start) == spec_next_op(d, r.spec_offset()),
            decreases d.len() - r.spec_offset(),
        {
            let ghost r0 = r;
            proof {
                lemma_has_rest(r0, 1nat);
                lemma_reader_rest(r0, 1nat);
            }
            let b = r.peak::<u8>().unwrap();
            if is_dict_one_byte_op(b) {
                r.skip::<u8>();
                if b == TWO_BYTE_OPERATOR_MARK {
                    let ghost r1 = r;
                    proof {
                        lemma_has_rest(r1, 1nat);
                        if r1.has(1nat) {
                            lemma_reader_rest(r1, 1nat);
                        }
                    }
                    let b2 = r.read::<u8>()?;
                    self.offset = r.offset();
                    return Some(Operator::from_two_byte(b2));
                }
                self.offset = r.offset();
                return Some(Operator::from_one_byte(b));
            } else {
                proof {
                    lemma_number_len(r0.spec_rest(), false);
                    assert(r0.spec_rest() =~= d.subrange(r0.spec_offset(), d.len() as int));
                }
                let _ = Number::parse_cff_number(&mut r)?;
            }
        }
        None
    }

    /// Parse the operands of the last operator found by `parse_next`.
    pub fn parse_operands(&mut self) -> (res: Option<()>)
        requires
            old(self).wf(),
        ensures
            final(self).wf(),
            final(self).spec_data() == old(self).spec_data(),
            final(self).spec_offset() == old(self).spec_offset(),
            final(self).spec_operands_offset() == old(self).spec_operands_offset(),
            match spec_operands(old(self).spec_data(), old(self).spec_operands_offset(), Seq::empty()) {
                Some(ops) => res is Some && final(self).spec_operands_view() == ops,
                None => res is None,
            },
    {
        let mut r = Reader::new_at(self.data, self.operands_offset);
        self.operands = Vec::new();
        let ghost d = self.data@;
        let ghost start = self.operands_offset as int;
        proof {
            assert(self.spec_operands_view() =~= Seq::<NumberView>::empty());
        }
        while !r.at_end()
            invariant
                r.spec_data() == d,
                d == self.data@,
                self.offset == old(self).offset,
                self.operands_offset == old(self).operands_offset,
                self.data == old(self).data,
                start == self.operands_offset,
                start == old(self).operands_offset,
                d == old(self).data@,
                self.operands_offset <= d.len(),
                self.offset <= d.len(),
                self.operands@.len() < MAX_OPERANDS_LEN,
                0 <= r.spec_offset() <= d.len(),
                spec_operands(d, start, Seq::empty()) == spec_operands(
                    d,
                    r.spec_offset(),
                    self.spec_operands_view(),
                ),
            ensures
                spec_operands(d, start, Seq::empty()) == Some(self.spec_operands_view()),
                self.offset == old(self).offset,
                self.operands_offset == old(self).operands_offset,
                self.data == old(self).data,
                self.operands@.len() <= MAX_OPERANDS_LEN,
            decreases d.len() - r.spec_offset(),
        {
            let ghost r0 = r;
            proof {
                lemma_has_rest(r0, 1nat);
                lemma_reader_rest(r0, 1nat);
            }
            let b = r.peak::<u8>().unwrap();
            if is_dict_one_byte_op(b) {
                break;
            }
            proof {
                lemma_number_len(r0.spec_rest(), false);
                assert(r0.spec_rest() =~= d.subrange(r0.spec_offset(), d.len() as int));
            }
            let op = Number::parse_cff_number(&mut r)?;
            let ghost prev = self.spec_operands_view();
            self.operands.push(op);
            proof {
                assert(self.spec_operands_view() =~= prev.push(op@));
            }
            if self.operands.len() >= MAX_OPERANDS_LEN {
                return Some(());
            }
        }
        Some(())
    }

    /// The operands of the last operator found.
    pub open spec fn spec_pending(&self) -> Option<Seq<NumberView>> {
        spec_operands(self.spec_data(), self.spec_operands_offset(), Seq::empty())
    }

    /// Parse the operands of the last operator: one string ID.
    pub fn parse_sid(&mut self) -> (res: Option<StringId>)
        requires
            old(self).wf(),
        ensures
            final(self).wf(),
            final(self).spec_data() == old(self).spec_data(),
            final(self).spec_offset() == old(self).spec_offset(),
            res == spec_sid_of(old(self).spec_pending()),
    {
        self.parse_operands()?;
        if self.operands.len() == 1 {
            proof {
                assert(self.spec_operands_view()[0] == self.operands@[0]@);
            }
            let v = self.operands[0].as_i32()?;
            if 0 <= v && v <= u16::MAX as i32 {
                Some(StringId(v as u16))
            } else {
                None
            }
        } else {
            None
        }
    }

    /// Parse the operands of the last operator: one offset.
    pub fn parse_offset(&mut self) -> (res: Option<usize>)
        requires
            old(self).wf(),
        ensures
            final(self).wf(),
            final(self).spec_data() == old(self).spec_data(),
            final(self).spec_offset() == old(self).spec_offset(),
            res == spec_offset_of(old(self).spec_pending()),
    {
        self.parse_operands()?;
        if self.operands.len() == 1 {
            proof {
                assert(self.spec_operands_view()[0] == self.operands@[0]@);
            }
            let v = self.operands[0].as_u32()?;
            Some(v as usize)
        } else {
            None
        }
    }

    /// Parse the operands of the last operator: a length and an offset, giving the range
    /// from the offset to the offset plus the length.
    pub fn parse_range(&mut self) -> (res: Option<(usize, usize)>)
        requires
            old(self).wf(),
        ensures
            final(self).wf(),
            final(self).spec_data() == old(self).spec_data(),
            final(self).spec_offset() == old(self).spec_offset(),
            res == spec_range_of(old(self).spec_pending()),
    {
        self.parse_operands()?;
        if self.operands.len() == 2 {
            proof {
                assert(self.spec_operands_view()[0] == self.operands@[0]@);
                assert(self.spec_operands_view()[1] == self.operands@[1]@);
            }
            let len = self.operands[0].as_u32()? as usize;
            let start = self.operands[1].as_u32()? as usize;
            let end = start.checked_add(len)?;
            Some((start, end))
        } else {
            None
        }
    }

    /// Parse the operands of the last operator: four numbers.
    pub fn parse_font_bbox(&mut self) -> (res: Option<[Number; 4]>)
        requires
            old(self).wf(),
        ensures
            final(self).wf(),
            final(self).spec_data() == old(self).spec_data(),
            final(self).spec_offset() == old(self).spec_offset(),
            match old(self).spec_pending() {
                Some(ops) => if ops.len() == 4 {
                    res matches Some(a) && a@.map_values(|n: Number| n@) == ops
                } else {
                    res is None
                },
                None => res is None,
            },
    {
        self.parse_operands()?;
        if self.operands.len() == 4 {
            let a = [self.operands[0], self.operands[1], self.operands[2], self.operands[3]];
            assert(a@.map_values(|n: Number| n@) =~= self.spec_operands_view());
            Some(a)
        } else {
            None
        }
    }

    /// Parse the operands of the last operator: six numbers.
    pub fn parse_font_matrix(&mut self) -> (res: Option<[Number; 6]>)
        requires
            old(self).wf(),
        ensures
            final(self).wf(),
            final(self).spec_data() == old(self).spec_data(),
            final(self).spec_offset() == old(self).spec_offset(),
            match old(self).spec_pending() {
                Some(ops) => if ops.len() == 6 {
                    res matches Some(a) && a@.map_values(|n: Number| n@) == ops
                } else {
                    res is None
                },
                None => res is None,
            },
    {
        self.parse_operands()?;
        if self.operands.len() == 6 {
            let a = [
                self.operands[0],
                self.operands[1],
                self.operands[2],
                self.operands[3],
                self.operands[4],
                self.operands[5],
            ];
            assert(a@.map_values(|n: Number| n@) =~= self.spec_operands_view());
            Some(a)
        } else {
            None
        }
    }

    /// Parse the operands of the last operator: its first number.
    pub fn parse_number(&mut self) -> (res: Option<Number>)
        requires
            old(self).wf(),
        ensures
            final(self).wf(),
            final(self).spec_data() == old(self).spec_data(),
            final(self).spec_offset() == old(self).spec_offset(),
            match old(self).spec_pending() {
                Some(ops) => if ops.len() >= 1 {
                    res matches Some(n) && n@ == ops[0]
                } else {
                    res is None
                },
                None => res is None,
            },
    {
        self.parse_operands()?;
        if self.operands.len() >= 1 {
            proof {
                assert(self.spec_operands_view()[0] == self.operands@[0]@);
            }
            Some(self.operands[0])
        } else {
            None
        }
    }

    /// Parse the operands of the last operator: a boolean (0 or 1).
    pub fn parse_bool(&mut self) -> (res: Option<bool>)
        requires
            old(self).wf(),
        ensures
            final(self).wf(),
            final(self).spec_data() == old(self).spec_data(),
            final(self).spec_offset() == old(self).spec_offset(),
            res == match old(self).spec_pending() {
                Some(ops) => if ops.len() >= 1 {
                    match spec_as_i32(ops[0]) {
                        Some(v) => if v == 0 {
                            Some(false)
                        } else if v == 1 {
                            Some(true)
                        } else {
                            None
                        },
                        None => None,
                    }
                } else {
                    None
                },
                None => None,
            },
    {
        let n = self.parse_number()?;
        match n.as_i32()? {
            0 => Some(false),
            1 => Some(true),
            _ => None,
        }
    }

    /// Parse the operands of the last operator: all of them.
    pub fn parse_delta(&mut self) -> (res: Option<Vec<Number>>)
        requires
            old(self).wf(),
        ensures
            final(self).wf(),
            final(self).spec_data() == old(self).spec_data(),
            final(self).spec_offset() == old(self).spec_offset(),
            match old(self).spec_pending() {
                Some(ops) => res matches Some(v) && v@.map_values(|n: Number| n@) == ops,
                None => res is None,
            },
    {
        self.parse_operands()?;
        Some(self.operands.clone())
    }

    /// The operands parsed last.
    pub fn operands(&self) -> (res: &[Number])
        ensures
            res@.map_values(|n: Number| n@) == self.spec_operands_view(),
    {
        self.operands.as_slice()
    }

    /// The operand at `i`.
    pub fn operand(&self, i: usize) -> (res: Number)
        requires
            i < self.spec_operands_view().len(),
        ensures
            res@ == self.spec_operands_view()[i as int],
    {
        self.operands[i]
    }
}

} // verus!
