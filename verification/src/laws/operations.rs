//! What operations on native numbers read as.

use vstd::prelude::*;

use crate::name::Val;
use crate::op::{law_label_gives_operator, law_labels_are_from_one_to_fifteen, op_label, Op};
use crate::reading::applied;
use crate::term::TermView;

verus! {

/// The labels of the operators.
pub proof fn law_operators_have_these_labels()
    ensures
        op_label(Op::ADD) == 1,
        op_label(Op::SUB) == 2,
        op_label(Op::MUL) == 3,
        op_label(Op::DIV) == 4,
        op_label(Op::MOD) == 5,
        op_label(Op::EQ) == 6,
        op_label(Op::NE) == 7,
        op_label(Op::LT) == 8,
        op_label(Op::GT) == 9,
        op_label(Op::AND) == 10,
        op_label(Op::OR) == 11,
        op_label(Op::XOR) == 12,
        op_label(Op::NOT) == 13,
        op_label(Op::LSH) == 14,
        op_label(Op::RSH) == 15,
{
}

/// A value that packs an operator in its high bits and a number in its low 24 bits reads, with
/// another operand, as the operation on the number and that operand.
pub proof fn law_packed_number_is_the_first_operand(op: Op, num: Val, val: Val, arg: TermView)
    requires
        num < 0x100_0000,
        val == op_label(op) * 0x100_0000 + num,
    ensures
        applied(TermView::Num { val }, arg) == Some(
            TermView::Opx {
                op,
                fst: Box::new(TermView::Num { val: num }),
                snd: Box::new(arg),
            },
        ),
{
    law_label_gives_operator(op);
}

/// A value that holds an operator in its low 24 bits and none in its high bits reads, with an
/// operand, as the operation on that operand, which lacks the second.
pub proof fn law_operator_alone_takes_the_first_operand(
    op: Op,
    high: int,
    val: Val,
    arg: TermView,
)
    requires
        high == 0 || 16 <= high,
        val == high * 0x100_0000 + op_label(op),
    ensures
        applied(TermView::Num { val }, arg) == Some(
            TermView::Opx { op, fst: Box::new(arg), snd: Box::new(TermView::Era) },
        ),
{
    law_label_gives_operator(op);
    law_labels_are_from_one_to_fifteen(high);
}

/// A value that holds no operator, neither in its high bits nor in its low 24 bits, makes no
/// operation.
pub proof fn law_plain_number_is_no_operator(high: int, low: int, val: Val, arg: TermView)
    requires
        high == 0 || 16 <= high,
        low == 0 || 16 <= low < 0x100_0000,
        val == high * 0x100_0000 + low,
    ensures
        applied(TermView::Num { val }, arg) is None,
{
    law_labels_are_from_one_to_fifteen(high);
    law_labels_are_from_one_to_fifteen(low);
}

/// An operation reads, with another operand, as the operation on its first operand and that one.
pub proof fn law_operation_gets_its_second_operand(
    op: Op,
    fst: TermView,
    snd: TermView,
    arg: TermView,
)
    ensures
        applied(TermView::Opx { op, fst: Box::new(fst), snd: Box::new(snd) }, arg) == Some(
            TermView::Opx { op, fst: Box::new(fst), snd: Box::new(arg) },
        ),
{
}

/// An operator that is alone is applied to two operands in turn.
pub proof fn law_operator_takes_two_operands(op: Op, val: Val, fst: TermView, snd: TermView)
    requires
        val == op_label(op),
    ensures
        applied(TermView::Num { val }, fst) matches Some(partial) && applied(partial, snd) == Some(
            TermView::Opx { op, fst: Box::new(fst), snd: Box::new(snd) },
        ),
{
    law_operator_alone_takes_the_first_operand(op, 0, val, fst);
}

/// Nothing but numbers and operations makes an operation.
pub proof fn law_other_terms_are_no_operators(term: TermView, arg: TermView)
    requires
        term !is Num,
        term !is Opx,
    ensures
        applied(term, arg) is None,
{
}

} // verus!
