use r1cs_num::boolean::Boolean;
use r1cs_num::cs::{ConstraintSystem, LinearCombination, SynthesisError};
use r1cs_num::field::Fp;
use r1cs_num::num::AllocatedNum;

fn fp(x: u64) -> Fp {
    Fp::from_u64(x)
}

fn out_variable(b: &Boolean) -> r1cs_num::cs::Variable {
    match b {
        Boolean::Is(bit) => bit.get_variable(),
        _ => panic!("expected an allocated bit"),
    }
}

#[test]
fn test_num_is_zero() {
    {
        let mut cs = ConstraintSystem::new(true);
        let a = AllocatedNum::allocate(&mut cs, Some(fp(77))).unwrap();
        let is_zero = a.is_zero(&mut cs).unwrap();

        assert!(cs.is_satisfied());
        assert!(cs.get(out_variable(&is_zero)) == fp(0));
        assert!(!is_zero.get_value().unwrap());
        cs.set(out_variable(&is_zero), fp(1));
        assert!(!cs.is_satisfied());
    }

    {
        let mut cs = ConstraintSystem::new(true);
        let a = AllocatedNum::allocate(&mut cs, Some(fp(0))).unwrap();
        let is_zero = a.is_zero(&mut cs).unwrap();
        assert!(cs.is_satisfied());
        assert!(cs.get(out_variable(&is_zero)) == fp(1));
        assert!(is_zero.get_value().unwrap());
        cs.set(out_variable(&is_zero), fp(0));
        assert!(!cs.is_satisfied());
    }
}

#[test]
fn test_num_is_equal() {
    {
        let mut cs = ConstraintSystem::new(true);
        let a = AllocatedNum::allocate(&mut cs, Some(fp(5))).unwrap();
        let b = AllocatedNum::allocate(&mut cs, Some(fp(9))).unwrap();
        let is_equal = a.is_equal(&mut cs, &b).unwrap();

        assert!(cs.is_satisfied());
        assert!(cs.get(out_variable(&is_equal)) == fp(0));
        assert!(!is_equal.get_value().unwrap());
        cs.set(out_variable(&is_equal), fp(1));
        assert!(!cs.is_satisfied());
    }

    {
        let mut cs = ConstraintSystem::new(true);
        let a = AllocatedNum::allocate(&mut cs, Some(fp(5))).unwrap();
        let b = a;
        let is_equal = a.is_equal(&mut cs, &b).unwrap();

        assert!(cs.is_satisfied());
        assert!(cs.get(out_variable(&is_equal)) == fp(1));
        assert!(is_equal.get_value().unwrap());
        cs.set(out_variable(&is_equal), fp(0));
        assert!(!cs.is_satisfied());
    }
}

#[test]
fn test_num_conditional_select() {
    {
        let mut cs = ConstraintSystem::new(true);

        let a = AllocatedNum::allocate(&mut cs, Some(fp(31))).unwrap();
        let b = AllocatedNum::allocate(&mut cs, Some(fp(47))).unwrap();
        let condition = Boolean::constant(false);
        let c = AllocatedNum::conditionally_select(&mut cs, &a, &b, &condition).unwrap();

        assert!(cs.is_satisfied());
        assert_eq!(a.value.unwrap(), c.value.unwrap());
    }

    {
        let mut cs = ConstraintSystem::new(true);

        let a = AllocatedNum::allocate(&mut cs, Some(fp(31))).unwrap();
        let b = AllocatedNum::allocate(&mut cs, Some(fp(47))).unwrap();
        let condition = Boolean::constant(true);
        let c = AllocatedNum::conditionally_select(&mut cs, &a, &b, &condition).unwrap();

        assert!(cs.is_satisfied());
        assert_eq!(b.value.unwrap(), c.value.unwrap());
    }
}

#[test]
fn test_num_conditional_reversal() {
    {
        let mut cs = ConstraintSystem::new(true);

        let a = AllocatedNum::allocate(&mut cs, Some(fp(13))).unwrap();
        let b = AllocatedNum::allocate(&mut cs, Some(fp(200))).unwrap();
        let condition = Boolean::constant(false);
        let (c, d) = AllocatedNum::conditionally_reverse(&mut cs, &a, &b, &condition).unwrap();

        assert!(cs.is_satisfied());

        assert_eq!(a.value.unwrap(), c.value.unwrap());
        assert_eq!(b.value.unwrap(), d.value.unwrap());
    }

    {
        let mut cs = ConstraintSystem::new(true);

        let a = AllocatedNum::allocate(&mut cs, Some(fp(13))).unwrap();
        let b = AllocatedNum::allocate(&mut cs, Some(fp(200))).unwrap();
        let condition = Boolean::constant(true);
        let (c, d) = AllocatedNum::conditionally_reverse(&mut cs, &a, &b, &condition).unwrap();

        assert!(cs.is_satisfied());

        assert_eq!(a.value.unwrap(), d.value.unwrap());
        assert_eq!(b.value.unwrap(), c.value.unwrap());
    }
}

#[test]
fn test_mux_tree() {
    let conditions = vec![(false, false), (false, true), (true, false), (true, true)];

    for (c1, c0) in conditions {
        let mut cs = ConstraintSystem::new(true);

        let condition0 = Boolean::constant(c0);
        let condition1 = Boolean::constant(c1);
        let select = vec![condition1, condition0];

        let a0 = AllocatedNum::allocate(&mut cs, Some(fp(11))).unwrap();
        let a1 = AllocatedNum::allocate(&mut cs, Some(fp(22))).unwrap();
        let a2 = AllocatedNum::allocate(&mut cs, Some(fp(33))).unwrap();
        let a3 = AllocatedNum::allocate(&mut cs, Some(fp(44))).unwrap();
        let inputs = vec![a0, a1, a2, a3];

        let res = AllocatedNum::mux_tree(&mut cs, &select, &inputs);
        assert!(res.is_ok());
        let res = res.unwrap();

        let res_expected = match (c1, c0) {
            (false, false) => a0,
            (false, true) => a1,
            (true, false) => a2,
            (true, true) => a3,
        };
        assert_eq!(res_expected.value.unwrap(), res.value.unwrap());
        cs.enforce(
            LinearCombination::zero(),
            LinearCombination::zero(),
            LinearCombination::zero().add_var(res_expected.get_variable()).sub_var(
                res.get_variable(),
            ),
        );

        assert!(cs.is_satisfied());
        assert_eq!(cs.num_constraints(), 4);
    }
}

#[test]
fn test_mux_tree_mismatch() {
    let mut cs = ConstraintSystem::new(true);
    let bit = Boolean::constant(false);
    let select = vec![bit];
    let a0 = AllocatedNum::allocate(&mut cs, Some(fp(1))).unwrap();
    let a1 = AllocatedNum::allocate(&mut cs, Some(fp(2))).unwrap();
    let a2 = AllocatedNum::allocate(&mut cs, Some(fp(3))).unwrap();
    let inputs = vec![a0, a1, a2];
    let res = AllocatedNum::mux_tree(&mut cs, &select, &inputs);
    assert!(matches!(res, Err(SynthesisError::Unsatisfiable)));
    assert_eq!(cs.num_constraints(), 0);
}

#[test]
fn test_mux_tree_tamper() {
    let mut cs = ConstraintSystem::new(true);
    let select = vec![Boolean::constant(true), Boolean::constant(false)];
    let a0 = AllocatedNum::allocate(&mut cs, Some(fp(11))).unwrap();
    let a1 = AllocatedNum::allocate(&mut cs, Some(fp(22))).unwrap();
    let a2 = AllocatedNum::allocate(&mut cs, Some(fp(33))).unwrap();
    let a3 = AllocatedNum::allocate(&mut cs, Some(fp(44))).unwrap();
    let inputs = vec![a0, a1, a2, a3];
    let res = AllocatedNum::mux_tree(&mut cs, &select, &inputs).unwrap();
    assert!(cs.is_satisfied());
    assert_eq!(res.value.unwrap(), fp(33));
    cs.set(res.get_variable(), fp(34));
    assert!(!cs.is_satisfied());
}
