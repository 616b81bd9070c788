use readback::name::{var_id_to_name, Name, Val};
use readback::op::{split_num_with_op, Op, NUM_BOUND};
use readback::reading::apply;
use readback::term::Term;

const OPERATORS: [Op; 15] = [
    Op::ADD,
    Op::SUB,
    Op::MUL,
    Op::DIV,
    Op::MOD,
    Op::EQ,
    Op::NE,
    Op::LT,
    Op::GT,
    Op::AND,
    Op::OR,
    Op::XOR,
    Op::NOT,
    Op::LSH,
    Op::RSH,
];

fn num(val: Val) -> Term {
    Term::Num { val }
}

fn opx(op: Op, fst: Term, snd: Term) -> Term {
    Term::Opx { op, fst: Box::new(fst), snd: Box::new(snd) }
}

#[test]
fn ids_are_spelled_in_letters() {
    assert_eq!(var_id_to_name(0), Name::new("a"));
    assert_eq!(var_id_to_name(1), Name::new("b"));
    assert_eq!(var_id_to_name(25), Name::new("z"));
    assert_eq!(var_id_to_name(26), Name::new("ab"));
    assert_eq!(var_id_to_name(27), Name::new("bb"));
    assert_eq!(var_id_to_name(26 * 26), Name::new("aab"));
}

#[test]
fn largest_id_has_a_name() {
    // 4294967295 in base 26, the least digit first: 21 23 11 17 12 23 13.
    assert_eq!(var_id_to_name(Val::MAX), Name::new("vxlrmxn"));
}

#[test]
fn different_ids_have_different_names() {
    let names: Vec<Name> = (0..2000).map(var_id_to_name).collect();
    for (i, name) in names.iter().enumerate() {
        for other in &names[..i] {
            assert_ne!(name, other);
        }
    }
}

#[test]
fn every_label_has_its_operator() {
    for (i, op) in OPERATORS.iter().enumerate() {
        assert_eq!(Op::from_hvmc_label(i as Val + 1), Some(*op));
    }
}

#[test]
fn other_labels_have_no_operator() {
    assert_eq!(Op::from_hvmc_label(0), None);
    assert_eq!(Op::from_hvmc_label(0x10), None);
    assert_eq!(Op::from_hvmc_label(Val::MAX), None);
}

#[test]
fn plain_number_splits_into_itself() {
    assert_eq!(split_num_with_op(5), (5, None));
    assert_eq!(split_num_with_op(NUM_BOUND - 1), (0xff_ffff, None));
}

#[test]
fn packed_number_splits_into_number_and_operator() {
    assert_eq!(split_num_with_op(0x100_0005), (5, Some(Op::ADD)));
    assert_eq!(split_num_with_op(0xfff_ffff), (0xff_ffff, Some(Op::RSH)));
}

#[test]
fn high_bits_without_operator_are_dropped() {
    assert_eq!(split_num_with_op(0x1000_0007), (7, None));
    assert_eq!(split_num_with_op(Val::MAX), (0xff_ffff, None));
}

#[test]
fn splitting_undoes_packing() {
    for (i, op) in OPERATORS.iter().enumerate() {
        let label = i as Val + 1;
        for val in [0, 1, 42, 0xff_ffff] {
            assert_eq!(split_num_with_op(label * NUM_BOUND + val), (val, Some(*op)));
        }
    }
}

#[test]
fn packed_number_takes_the_second_operand() {
    assert_eq!(apply(num(0x200_0009), num(4)), opx(Op::SUB, num(9), num(4)));
}

#[test]
fn operator_alone_takes_the_first_operand() {
    assert_eq!(apply(num(3), num(4)), opx(Op::MUL, num(4), Term::Era));
}

#[test]
fn operation_takes_the_operand_it_lacks() {
    let partial = apply(num(3), num(4));
    assert_eq!(apply(partial, num(9)), opx(Op::MUL, num(4), num(9)));
}
