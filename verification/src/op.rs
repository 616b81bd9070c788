//! Numeric operators and the labels that encode them in numbers.

use vstd::prelude::*;

use crate::name::Val;

verus! {

/// A binary operator on native numbers.
#[derive(Debug, Clone, Copy, PartialEq, Eq, Structural, Hash)]
#[allow(clippy::upper_case_acronyms)]
pub enum Op {
    ADD,
    SUB,
    MUL,
    DIV,
    MOD,
    EQ,
    NE,
    LT,
    GT,
    AND,
    OR,
    XOR,
    NOT,
    LSH,
    RSH,
}

/// The label of an operator.
pub open spec fn op_label(op: Op) -> int {
    match op {
        Op::ADD => 1,
        Op::SUB => 2,
        Op::MUL => 3,
        Op::DIV => 4,
        Op::MOD => 5,
        Op::EQ => 6,
        Op::NE => 7,
        Op::LT => 8,
        Op::GT => 9,
        Op::AND => 10,
        Op::OR => 11,
        Op::XOR => 12,
        Op::NOT => 13,
        Op::LSH => 14,
        Op::RSH => 15,
    }
}

/// The operator with the given label, if there is one.
pub open spec fn labeled_op(label: int) -> Option<Op> {
    if exists|op: Op| op_label(op) == label {
        Some(choose|op: Op| op_label(op) == label)
    } else {
        None
    }
}

/// Numbers below this bound carry no operator.
pub const NUM_BOUND: Val = 0x100_0000;

impl Op {
    /// The operator with the given label: there is one for each label from 1 to 15.
    pub fn from_hvmc_label(value: Val) -> (res: Option<Op>)
        ensures
            res == labeled_op(value as int),
            res is Some <==> 1 <= value <= 15,
            res matches Some(op) ==> op_label(op) == value,
            value == 1 ==> res == Some(Op::ADD),
            value == 2 ==> res == Some(Op::SUB),
            value == 3 ==> res == Some(Op::MUL),
            value == 4 ==> res == Some(Op::DIV),
            value == 5 ==> res == Some(Op::MOD),
            value == 6 ==> res == Some(Op::EQ),
            value == 7 ==> res == Some(Op::NE),
            value == 8 ==> res == Some(Op::LT),
            value == 9 ==> res == Some(Op::GT),
            value == 10 ==> res == Some(Op::AND),
            value == 11 ==> res == Some(Op::OR),
            value == 12 ==> res == Some(Op::XOR),
            value == 13 ==> res == Some(Op::NOT),
            value == 14 ==> res == Some(Op::LSH),
            value == 15 ==> res == Some(Op::RSH),
    {
        let res = match value {
            0x1 => Some(Op::ADD),
            0x2 => Some(Op::SUB),
            0x3 => Some(Op::MUL),
            0x4 => Some(Op::DIV),
            0x5 => Some(Op::MOD),
            0x6 => Some(Op::EQ),
            0x7 => Some(Op::NE),
            0x8 => Some(Op::LT),
            0x9 => Some(Op::GT),
            0xa => Some(Op::AND),
            0xb => Some(Op::OR),
            0xc => Some(Op::XOR),
            0xd => Some(Op::NOT),
            0xe => Some(Op::LSH),
            0xf => Some(Op::RSH),
            _ => None,
        };
        proof {
            if let Some(op) = res {
                assert(op_label(op) == value);
            }
        }
        res
    }
}

/// Every operator has a label of its own.
pub proof fn law_label_gives_operator(op: Op)
    ensures
        labeled_op(op_label(op)) == Some(op),
{
    let found = choose|other: Op| op_label(other) == op_label(op);
    assert(op_label(found) == op_label(op));
}

/// There is an operator for each label from 1 to 15, and for no other.
pub proof fn law_labels_are_from_one_to_fifteen(label: int)
    ensures
        labeled_op(label) is Some <==> 1 <= label <= 15,
        labeled_op(label) matches Some(op) ==> op_label(op) == label,
{
    if 1 <= label <= 15 {
        let op = if label == 1 {
            Op::ADD
        } else if label == 2 {
            Op::SUB
        } else if label == 3 {
            Op::MUL
        } else if label == 4 {
            Op::DIV
        } else if label == 5 {
            Op::MOD
        } else if label == 6 {
            Op::EQ
        } else if label == 7 {
            Op::NE
        } else if label == 8 {
            Op::LT
        } else if label == 9 {
            Op::GT
        } else if label == 10 {
            Op::AND
        } else if label == 11 {
            Op::OR
        } else if label == 12 {
            Op::XOR
        } else if label == 13 {
            Op::NOT
        } else if label == 14 {
            Op::LSH
        } else {
            Op::RSH
        };
        assert(op_label(op) == label);
    }
}

/// A number and an operator that were packed into one value come apart again: the value is a
/// number, and splitting it gives back both.
pub proof fn law_split_undoes_packing(num: Val, op: Op)
    requires
        num < NUM_BOUND,
    ensures
        ({
            let packed = op_label(op) * NUM_BOUND + num;
            &&& 0 <= packed <= Val::MAX
            &&& packed % NUM_BOUND as int == num
            &&& labeled_op(packed / NUM_BOUND as int) == Some(op)
        }),
{
    law_label_gives_operator(op);
}

/// Splits a number into its low 24 bits and the operator whose label its high bits hold, if
/// they hold one.
pub fn split_num_with_op(num: Val) -> (res: (Val, Option<Op>))
    ensures
        res.0 == num % NUM_BOUND,
        res.1 == labeled_op(num as int / NUM_BOUND as int),
        res.0 == num % 0x100_0000,
        res.1 is Some <==> 0x100_0000 <= num < 0x1000_0000,
        res.1 matches Some(op) ==> op_label(op) == num / 0x100_0000,
{
    assert(num >> 24 == num / 0x100_0000) by (bit_vector);
    assert(num & 0xff_ffff == num % 0x100_0000) by (bit_vector);
    let op = Op::from_hvmc_label(num >> 24);
    let num: Val = num & 0xff_ffff;
    (num, op)
}

} // verus!
