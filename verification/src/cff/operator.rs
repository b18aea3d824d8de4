//! Operators of CFF DICTs and charstrings.
use crate::write::{Writeable, Writer};
use vstd::prelude::*;

verus! {

/// The first byte of a two-byte operator.
pub const TWO_BYTE_OPERATOR_MARK: u8 = 12;

/// The kind of an operator, with its distinguishing byte.
#[derive(Clone, Copy, Debug, PartialEq, Eq, Structural)]
pub enum OperatorType {
    /// A one-byte operator.
    OneByteOperator(u8),
    /// A two-byte operator `12 b`, by its second byte `b`.
    TwoByteOperator(u8),
}

/// An operator.
#[derive(Clone, Copy, Debug, PartialEq, Eq, Structural)]
pub struct Operator(pub OperatorType);

/// The code of an operator: its byte, or 1200 plus the second byte for two-byte operators
/// (so `12 3` is 1203).
pub open spec fn spec_op_code(op: Operator) -> u16 {
    match op.0 {
        OperatorType::OneByteOperator(b) => b as u16,
        OperatorType::TwoByteOperator(b) => (1200 + b) as u16,
    }
}

/// The bytes of an operator.
pub open spec fn spec_op_bytes(op: Operator) -> Seq<u8> {
    match op.0 {
        OperatorType::OneByteOperator(b) => seq![b],
        OperatorType::TwoByteOperator(b) => seq![TWO_BYTE_OPERATOR_MARK, b],
    }
}

/// The operator with a given code.
pub open spec fn spec_op_from_code(code: u16) -> Operator {
    if code >= 1200 {
        Operator(OperatorType::TwoByteOperator((code - 1200) as u8))
    } else {
        Operator(OperatorType::OneByteOperator(code as u8))
    }
}

impl Operator {
    /// A one-byte operator.
    pub fn from_one_byte(b: u8) -> (res: Self)
        ensures
            res == Operator(OperatorType::OneByteOperator(b)),
    {
        Self(OperatorType::OneByteOperator(b))
    }

    /// A two-byte operator `12 b`.
    pub fn from_two_byte(b: u8) -> (res: Self)
        ensures
            res == Operator(OperatorType::TwoByteOperator(b)),
    {
        Self(OperatorType::TwoByteOperator(b))
    }

    /// The operator with the given code (see `get`).
    pub fn from_code(code: u16) -> (res: Self)
        requires
            code < 256 || 1200 <= code < 1456,
        ensures
            res == spec_op_from_code(code),
            spec_op_code(res) == code,
    {
        if code >= 1200 {
            Self(OperatorType::TwoByteOperator((code - 1200) as u8))
        } else {
            Self(OperatorType::OneByteOperator(code as u8))
        }
    }

    /// The code of the operator: its byte, or 1200 plus its second byte.
    pub fn get(self) -> (res: u16)
        ensures
            res == spec_op_code(self),
    {
        match self.0 {
            OperatorType::OneByteOperator(b) => b as u16,
            OperatorType::TwoByteOperator(b) => 1200 + b as u16,
        }
    }

    /// The bytes of the operator.
    pub fn as_bytes(&self) -> (res: Vec<u8>)
        ensures
            res@ == spec_op_bytes(*self),
    {
        match self.0 {
            OperatorType::OneByteOperator(b) => vec![b],
            OperatorType::TwoByteOperator(b) => vec![TWO_BYTE_OPERATOR_MARK, b],
        }
    }
}

impl Writeable for Operator {
    open spec fn spec_bytes(&self) -> Seq<u8> {
        spec_op_bytes(*self)
    }

    fn write(&self, w: &mut Writer) {
        match self.0 {
            OperatorType::OneByteOperator(b) => w.push(b),
            OperatorType::TwoByteOperator(b) => {
                w.push(TWO_BYTE_OPERATOR_MARK);
                w.push(b);
            },
        }
        assert(w@ =~= old(w)@ + self.spec_bytes());
    }
}

/// Write the operator with a given code.
pub fn write_op(w: &mut Writer, code: u16)
    requires
        code < 256 || 1200 <= code < 1456,
    ensures
        final(w)@ == old(w)@ + spec_op_bytes(spec_op_from_code(code)),
{
    Operator::from_code(code).write(w);
}

} // verus!
