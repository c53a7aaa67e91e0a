use r1cs_core::constraint_system::{
    ConstraintSystem, ConstraintSystemError, LinearCombination, Variable,
};
use r1cs_core::field::FrElement;

fn fe(v: u64) -> FrElement {
    FrElement::from_u64(v)
}

/// The circuit of `x * x * x + x + 5 == out` with the given assignment.
fn cubic_circuit(x: u64, sym_1: u64, y: u64, sym_2: u64, out: u64) -> ConstraintSystem {
    let mut cs = ConstraintSystem::new();
    let x = cs.new_witness_variable(fe(x));
    let sym_1 = cs.new_witness_variable(fe(sym_1));
    let y = cs.new_witness_variable(fe(y));
    let sym_2 = cs.new_witness_variable(fe(sym_2));
    let out = cs.new_input_variable(fe(out));
    let one = FrElement::one();
    cs.enforce_constraint(
        LinearCombination(vec![(one, x)]),
        LinearCombination(vec![(one, x)]),
        LinearCombination(vec![(one, sym_1)]),
    );
    cs.enforce_constraint(
        LinearCombination(vec![(one, sym_1)]),
        LinearCombination(vec![(one, x)]),
        LinearCombination(vec![(one, y)]),
    );
    cs.enforce_constraint(
        LinearCombination(vec![(one, x), (one, y)]),
        LinearCombination(vec![(one, Variable::One)]),
        LinearCombination(vec![(one, sym_2)]),
    );
    cs.enforce_constraint(
        LinearCombination(vec![(one, sym_2), (fe(5), Variable::One)]),
        LinearCombination(vec![(one, Variable::One)]),
        LinearCombination(vec![(one, out)]),
    );
    cs
}

#[test]
fn dummy() {
    let mut cs = ConstraintSystem::new();

    let _x = FrElement::from_u64(3);
    let _sym_1 = FrElement::from_u64(9);
    let _y = FrElement::from_u64(27);
    let _sym_2 = FrElement::from_u64(30);

    let _out = FrElement::from_u64(35);

    let x = cs.new_witness_variable(_x);
    let sym_1 = cs.new_witness_variable(_sym_1);
    let y = cs.new_witness_variable(_y);
    let sym_2 = cs.new_witness_variable(_sym_2);

    let out = cs.new_input_variable(_out);

    cs.enforce_constraint(
        LinearCombination(vec![(FrElement::one(), x)]),
        LinearCombination(vec![(FrElement::one(), x)]),
        LinearCombination(vec![(FrElement::one(), sym_1)]),
    );
    cs.enforce_constraint(
        LinearCombination(vec![(FrElement::one(), sym_1)]),
        LinearCombination(vec![(FrElement::one(), x)]),
        LinearCombination(vec![(FrElement::one(), y)]),
    );
    cs.enforce_constraint(
        LinearCombination(vec![(FrElement::one(), x), (FrElement::one(), y)]),
        LinearCombination(vec![(FrElement::one(), Variable::One)]),
        LinearCombination(vec![(FrElement::one(), sym_2)]),
    );
    cs.enforce_constraint(
        LinearCombination(vec![
            (FrElement::one(), sym_2),
            (FrElement::from_u64(5), Variable::One),
        ]),
        LinearCombination(vec![(FrElement::one(), Variable::One)]),
        LinearCombination(vec![(FrElement::one(), out)]),
    );

    println!("lol");
}

#[test]
fn new_system_has_only_the_constant_wire() {
    let mut cs = ConstraintSystem::new();
    assert_eq!(cs.num_public_vars(), 1);
    assert_eq!(cs.num_witness_vars(), 0);
    assert_eq!(cs.num_constraints(), 0);
    assert_eq!(cs.num_linear_combs(), 0);
    assert_eq!(cs.assigned_value(Variable::Public(0)), Some(FrElement::one()));
    assert_eq!(cs.assigned_value(Variable::One), Some(FrElement::one()));
    assert_eq!(cs.assigned_value(Variable::Zero), Some(FrElement::zero()));
}

#[test]
fn constant_wire_survives_allocations() {
    let mut cs = cubic_circuit(3, 9, 27, 30, 35);
    cs.new_input_variable(fe(8));
    assert_eq!(cs.assigned_value(Variable::Public(0)), Some(FrElement::one()));
    assert_eq!(cs.assigned_value(Variable::One), Some(FrElement::one()));
}

#[test]
fn witnesses_are_allocated_in_order() {
    let mut cs = ConstraintSystem::new();
    let values = [11u64, 22, 33, 44, 55];
    for (i, v) in values.iter().enumerate() {
        assert_eq!(cs.new_witness_variable(fe(*v)), Variable::Witness(i));
    }
    assert_eq!(cs.num_witness_vars(), 5);
    for (i, v) in values.iter().enumerate() {
        assert_eq!(cs.assigned_value(Variable::Witness(i)), Some(fe(*v)));
    }
    assert_eq!(cs.assigned_value(Variable::Witness(5)), None);
}

#[test]
fn inputs_are_allocated_after_the_constant_wire() {
    let mut cs = ConstraintSystem::new();
    assert_eq!(cs.new_input_variable(fe(7)), Variable::Public(1));
    assert_eq!(cs.new_input_variable(fe(8)), Variable::Public(2));
    assert_eq!(cs.num_public_vars(), 3);
    assert_eq!(cs.assigned_value(Variable::Public(2)), Some(fe(8)));
    assert_eq!(cs.assigned_value(Variable::Public(3)), None);
}

#[test]
fn lc_value_is_memoized() {
    let mut cs = ConstraintSystem::new();
    let x = cs.new_witness_variable(fe(4));
    let lc = cs.new_lc(LinearCombination(vec![(fe(3), x), (fe(2), Variable::One)]));
    assert_eq!(cs.assigned_value(lc), Some(fe(14)));
    assert_eq!(cs.assigned_value(lc), Some(fe(14)));
    assert_eq!(cs.num_linear_combs(), 1);
}

#[test]
fn nested_combinations_are_evaluated() {
    let mut cs = ConstraintSystem::new();
    let x = cs.new_witness_variable(fe(4));
    let inner = cs.new_lc(LinearCombination(vec![(fe(3), x)]));
    let outer = cs.new_lc(LinearCombination(vec![(fe(2), inner), (fe(1), Variable::Zero)]));
    assert_eq!(cs.assigned_value(outer), Some(fe(24)));
    assert_eq!(cs.assigned_value(inner), Some(fe(12)));
}

#[test]
fn earlier_reference_has_a_value() {
    let mut cs = ConstraintSystem::new();
    let first = cs.new_lc(LinearCombination(vec![(fe(1), Variable::One)]));
    let index = first.get_lc_index().unwrap();
    assert_eq!(index.index(), 0);
    let second = cs.new_lc(LinearCombination(vec![(fe(1), first)]));
    assert_eq!(cs.assigned_value(second), Some(fe(1)));
}

#[test]
fn forward_reference_has_no_value() {
    // Indices 0, 1 and 2 taken from another system.
    let mut other = ConstraintSystem::new();
    let other_0 = other.new_lc(LinearCombination(vec![]));
    let _other_1 = other.new_lc(LinearCombination(vec![]));
    let other_2 = other.new_lc(LinearCombination(vec![]));

    let mut cs = ConstraintSystem::new();
    // Combination 0 refers to combination 2, registered after it.
    let forward = cs.new_lc(LinearCombination(vec![(fe(1), other_2)]));
    assert_eq!(forward.get_lc_index().unwrap().index(), 0);
    let _filler = cs.new_lc(LinearCombination(vec![(fe(1), Variable::One)]));
    let target = cs.new_lc(LinearCombination(vec![(fe(4), Variable::One)]));
    assert_eq!(target.get_lc_index().unwrap().index(), 2);
    assert_eq!(cs.assigned_value(target), Some(fe(4)));
    assert_eq!(cs.assigned_value(forward), None);

    // Combination 3 refers to itself through an index of the other system.
    let mut cs = ConstraintSystem::new();
    let self_ref = cs.new_lc(LinearCombination(vec![(fe(1), other_0)]));
    assert_eq!(self_ref, other_0);
    assert_eq!(cs.assigned_value(self_ref), None);

    // Never registered.
    let mut empty = ConstraintSystem::new();
    assert_eq!(empty.assigned_value(other_2), None);
}

#[test]
fn missing_witness_through_nested_combination_is_an_error() {
    let mut cs = ConstraintSystem::new();
    let x = cs.new_witness_variable(fe(2));
    let inner = cs.new_lc(LinearCombination(vec![(fe(1), Variable::Witness(7))]));
    let outer = cs.new_lc(LinearCombination(vec![(fe(1), x), (fe(1), inner)]));
    assert_eq!(cs.assigned_value(outer), None);
    cs.enforce_constraint(
        LinearCombination(vec![(fe(1), outer)]),
        LinearCombination(vec![(fe(1), Variable::One)]),
        LinearCombination(vec![(fe(1), x)]),
    );
    assert_eq!(
        cs.which_is_unsatisfied(),
        Err(ConstraintSystemError::AssignmentMissing)
    );
}

#[test]
fn every_single_witness_change_is_reported() {
    let good = [3u64, 9, 27, 30];
    let expected_index = [0usize, 0, 1, 2];
    for w in 0..4 {
        let mut values = good;
        values[w] += 1;
        let mut cs = cubic_circuit(values[0], values[1], values[2], values[3], 35);
        assert_eq!(cs.which_is_unsatisfied(), Ok(Some(expected_index[w])));
    }
}

#[test]
fn empty_combination_is_zero() {
    let mut cs = ConstraintSystem::new();
    let lc = cs.new_lc(LinearCombination(vec![]));
    assert_eq!(cs.assigned_value(lc), Some(FrElement::zero()));
}

#[test]
fn satisfied_circuit() {
    let mut cs = cubic_circuit(3, 9, 27, 30, 35);
    assert_eq!(cs.num_constraints(), 4);
    assert_eq!(cs.num_linear_combs(), 12);
    assert_eq!(cs.which_is_unsatisfied(), Ok(None));
}

#[test]
fn wrong_witness_is_reported_at_the_first_violated_constraint() {
    let mut cs = cubic_circuit(3, 8, 27, 30, 35);
    assert_eq!(cs.which_is_unsatisfied(), Ok(Some(0)));
    let mut cs = cubic_circuit(3, 9, 27, 31, 35);
    assert_eq!(cs.which_is_unsatisfied(), Ok(Some(2)));
    let mut cs = cubic_circuit(3, 9, 27, 30, 36);
    assert_eq!(cs.which_is_unsatisfied(), Ok(Some(3)));
}

#[test]
fn missing_witness_is_an_error() {
    let mut cs = ConstraintSystem::new();
    let x = cs.new_witness_variable(fe(2));
    cs.enforce_constraint(
        LinearCombination(vec![(fe(1), x)]),
        LinearCombination(vec![(fe(1), Variable::Witness(1))]),
        LinearCombination(vec![(fe(1), x)]),
    );
    assert_eq!(
        cs.which_is_unsatisfied(),
        Err(ConstraintSystemError::AssignmentMissing)
    );
}

#[test]
fn variable_kinds() {
    let mut cs = ConstraintSystem::new();
    let lc = cs.new_lc(LinearCombination(vec![]));
    assert!(Variable::Zero.is_zero() && !Variable::Zero.is_one());
    assert!(Variable::One.is_one() && !Variable::One.is_lc());
    assert!(Variable::Public(1).is_public_var() && !Variable::Public(1).is_witness_var());
    assert!(Variable::Witness(0).is_witness_var() && !Variable::Witness(0).is_public_var());
    assert!(lc.is_lc());
    assert_eq!(Variable::One.get_lc_index(), None);
    assert_eq!(lc.get_lc_index().map(|i| i.index()), Some(0));
}

#[test]
fn constraint_triples_are_exposed() {
    let cs = cubic_circuit(3, 9, 27, 30, 35);
    let (a, b, c) = cs.constraint(1).unwrap();
    assert_eq!((a.index(), b.index(), c.index()), (3, 4, 5));
    assert!(cs.constraint(4).is_none());
    assert_eq!(cs.public_assignments().len(), 2);
    assert_eq!(cs.witness_assignments()[2], fe(27));
    let lc = cs.linear_combination(a).unwrap();
    assert_eq!(lc.0.len(), 1);
}

#[test]
fn default_combination_is_empty() {
    assert!(LinearCombination::default().0.is_empty());
}
