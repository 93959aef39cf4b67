use r1cs_num::cs::{ConstraintSystem, Index, SynthesisError, Variable};
use r1cs_num::field::{Fp, MODULUS};
use r1cs_num::num::AllocatedNum;

fn fp(x: u64) -> Fp {
    Fp::from_u64(x)
}

#[test]
fn test_allocated_num() {
    let mut cs = ConstraintSystem::new(true);

    let n = AllocatedNum::allocate(&mut cs, Some(fp(1))).unwrap();

    assert!(cs.get(n.get_variable()) == fp(1));
}

#[test]
fn test_allocated_infallible_num() {
    let mut cs = ConstraintSystem::new(true);

    let n = AllocatedNum::alloc_infallible(&mut cs, fp(1));

    assert!(cs.get(n.get_variable()) == fp(1));
}

#[test]
fn test_num_addition() {
    let mut cs = ConstraintSystem::new(true);

    let mod_minus_one = fp(MODULUS - 1);

    let a = AllocatedNum::allocate(&mut cs, Some(mod_minus_one)).unwrap();
    let b = AllocatedNum::allocate(&mut cs, Some(fp(1))).unwrap();
    let c = a.add(&mut cs, &b).unwrap();

    assert!(cs.is_satisfied());
    assert!(cs.get(c.get_variable()) == fp(0));
    assert!(c.value.unwrap() == fp(0));
    cs.set(c.get_variable(), fp(1));
    assert!(!cs.is_satisfied());
}

#[test]
fn test_num_subraction() {
    let mut cs = ConstraintSystem::new(true);

    let mod_minus_one = fp(MODULUS - 1);

    let a = AllocatedNum::allocate(&mut cs, Some(fp(0))).unwrap();
    let b = AllocatedNum::allocate(&mut cs, Some(fp(1))).unwrap();
    let c = a.sub(&mut cs, &b).unwrap();

    assert!(cs.is_satisfied());
    assert!(cs.get(c.get_variable()) == mod_minus_one);
    assert!(c.value.unwrap() == mod_minus_one);
    cs.set(c.get_variable(), fp(1));
    assert!(!cs.is_satisfied());
}

#[test]
fn test_num_negation() {
    let mut cs = ConstraintSystem::new(true);

    let a = AllocatedNum::allocate(&mut cs, Some(fp(123))).unwrap();
    let out = a.neg(&mut cs).unwrap();
    let out_exp = fp(MODULUS - 123);

    assert!(cs.is_satisfied());
    assert!(cs.get(out.get_variable()) == out_exp);
    assert!(out.value.unwrap() == out_exp);
    cs.set(out.get_variable(), fp(5));
    assert!(!cs.is_satisfied());
}

#[test]
fn test_num_squaring() {
    let mut cs = ConstraintSystem::new(true);

    let n = AllocatedNum::allocate(&mut cs, Some(fp(3))).unwrap();
    let n2 = n.square(&mut cs).unwrap();

    assert!(cs.is_satisfied());
    assert!(cs.get(n2.get_variable()) == fp(9));
    assert!(n2.value.unwrap() == fp(9));
    cs.set(n2.get_variable(), fp(10));
    assert!(!cs.is_satisfied());
}

#[test]
fn test_num_multiplication() {
    let mut cs = ConstraintSystem::new(true);

    let n = AllocatedNum::allocate(&mut cs, Some(fp(12))).unwrap();
    let n2 = AllocatedNum::allocate(&mut cs, Some(fp(10))).unwrap();
    let n3 = n.mul(&mut cs, &n2).unwrap();

    assert!(cs.is_satisfied());
    assert!(cs.get(n3.get_variable()) == fp(120));
    assert!(n3.value.unwrap() == fp(120));
    cs.set(n3.get_variable(), fp(121));
    assert!(!cs.is_satisfied());
}

#[test]
fn test_num_division() {
    let mut cs = ConstraintSystem::new(true);

    let a = AllocatedNum::allocate(&mut cs, Some(fp(120))).unwrap();
    let b = AllocatedNum::allocate(&mut cs, Some(fp(10))).unwrap();
    let c = a.div(&mut cs, &b).unwrap();

    assert!(cs.is_satisfied());
    assert!(cs.get(c.get_variable()) == fp(12));
    assert!(c.value.unwrap() == fp(12));
    cs.set(c.get_variable(), fp(11));
    assert!(!cs.is_satisfied());
}

#[test]
fn test_num_nonzero() {
    {
        let mut cs = ConstraintSystem::new(true);

        let _n = AllocatedNum::allocate(&mut cs, Some(fp(3))).unwrap();
        _n.assert_nonzero(&mut cs).unwrap();

        assert!(cs.is_satisfied());
        cs.set(Variable::new_unchecked(Index::Aux(1)), fp(3));
        assert!(cs.which_is_unsatisfied() == Some(0));
    }
    {
        let mut cs = ConstraintSystem::new(true);

        let n = AllocatedNum::allocate(&mut cs, Some(fp(0))).unwrap();
        assert!(n.assert_nonzero(&mut cs).is_err());
    }
}

#[test]
fn test_nonzero_error_kind() {
    let mut cs = ConstraintSystem::new(true);
    let n = AllocatedNum::allocate(&mut cs, Some(fp(0))).unwrap();
    assert_eq!(n.assert_nonzero(&mut cs), Err(SynthesisError::DivisionByZero));
}

#[test]
fn test_inputize() {
    let mut cs = ConstraintSystem::new(true);
    let n = AllocatedNum::allocate(&mut cs, Some(fp(7))).unwrap();
    n.inputize(&mut cs).unwrap();
    assert!(cs.is_satisfied());
    cs.set(Variable::new_unchecked(Index::Input(1)), fp(8));
    assert!(!cs.is_satisfied());
}

#[test]
fn test_alloc_maybe_input() {
    let mut cs = ConstraintSystem::new(true);
    let a = AllocatedNum::alloc_maybe_input(&mut cs, true, Some(fp(4))).unwrap();
    let b = AllocatedNum::alloc_maybe_input(&mut cs, false, Some(fp(5))).unwrap();
    assert!(matches!(a.get_variable().0, Index::Input(1)));
    assert!(matches!(b.get_variable().0, Index::Aux(0)));
    assert!(cs.get(a.get_variable()) == fp(4));
    assert!(cs.get(b.get_variable()) == fp(5));
}

#[test]
fn test_setup_mode_keeps_no_hints() {
    let mut cs = ConstraintSystem::new(false);
    let a = AllocatedNum::allocate(&mut cs, None).unwrap();
    let b = AllocatedNum::allocate(&mut cs, Some(fp(3))).unwrap();
    assert!(a.value.is_none());
    assert!(b.value.is_none());
    let c = a.add(&mut cs, &b).unwrap();
    assert!(c.value.is_none());
    assert!(matches!(a.is_zero(&mut cs), Err(SynthesisError::AssignmentMissing)));
}

#[test]
fn test_witness_mode_requires_value() {
    let mut cs = ConstraintSystem::new(true);
    assert_eq!(
        AllocatedNum::allocate(&mut cs, None).err(),
        Some(SynthesisError::AssignmentMissing)
    );
}
