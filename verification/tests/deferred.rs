use r1cs_num::boolean::{AllocatedBit, Boolean};
use r1cs_num::cs::{ConstraintSystem, Index, LinearCombination, Variable};
use r1cs_num::field::{Fp, MODULUS};
use r1cs_num::num::{AllocatedNum, Num};

fn fp(x: u64) -> Fp {
    Fp::from_u64(x)
}

#[test]
fn test_num_partial_addition() {
    let a = Num::zero();
    let b = Num { value: None, lc: Default::default() };
    let c = a.clone().add(&b);
    assert!(c.value.is_none());
    let c = b.clone().add(&a);
    assert!(c.value.is_none());
    let c = b.clone().add(&b);
    assert!(c.value.is_none());
    let c = a.clone().add(&a);
    assert!(c.value == Some(fp(0)));
}

#[test]
fn test_num_scale() {
    let n = 5;

    let mut lc = LinearCombination::zero();

    let mut expected_sums = vec![fp(0); n];
    let mut value = fp(0);
    for (i, expected_sum) in expected_sums.iter_mut().enumerate() {
        let coeff = fp(7 * i as u64 + 3);
        lc = lc.add_term(coeff, Variable::new_unchecked(Index::Aux(i)));
        *expected_sum = fp((expected_sum.v + coeff.v) % MODULUS);

        value = fp((value.v + coeff.v) % MODULUS);
    }

    let scalar = fp(42);
    let num = Num { value: Some(value), lc };

    let scaled_num = num.clone().scale(scalar);

    let scaled_value = fp(num.value.unwrap().v * scalar.v % MODULUS);

    assert_eq!(scaled_value, scaled_num.value.unwrap());

    // Each variable has the expected coefficient, the sum of those added
    // by its index, rescaled.
    for k in 0..scaled_num.lc.len() {
        let (var, coeff) = scaled_num.lc.term_at(k);
        match var.0 {
            Index::Aux(i) => {
                let tmp = fp(expected_sums[i].v * scalar.v % MODULUS);
                assert_eq!(tmp, coeff)
            },
            _ => panic!("unexpected variable type"),
        }
    }
}

#[test]
fn test_num_add_bool_with_coeff() {
    let one = ConstraintSystem::one();
    let set = Num::zero().add_bool_with_coeff(one, &Boolean::constant(true), fp(9));
    assert_eq!(set.value.unwrap(), fp(9));
    let clear = Num::zero().add_bool_with_coeff(one, &Boolean::constant(false), fp(9));
    assert_eq!(clear.value.unwrap(), fp(0));
    // an absent bit hint anywhere makes the whole chain's hint absent
    let unknown_bit = Boolean::Is(AllocatedBit {
        value: None,
        variable: Variable::new_unchecked(Index::Aux(0)),
    });
    let absent = set.add_bool_with_coeff(one, &unknown_bit, fp(1));
    assert!(absent.value.is_none());
    let still_absent = absent.add_bool_with_coeff(one, &Boolean::constant(true), fp(2));
    assert!(still_absent.value.is_none());
}

#[test]
fn test_num_from_allocated() {
    let mut cs = ConstraintSystem::new(true);
    let n = AllocatedNum::allocate(&mut cs, Some(fp(15))).unwrap();
    let num = Num::from(n);
    assert_eq!(num.value.unwrap(), fp(15));
    assert_eq!(num.lc.len(), 1);
    let (var, coeff) = num.lc.term_at(0);
    assert!(var == n.get_variable());
    assert_eq!(coeff, fp(1));
}

#[test]
fn test_num_lc_prescaled() {
    let mut cs = ConstraintSystem::new(true);
    let n = AllocatedNum::allocate(&mut cs, Some(fp(4))).unwrap();
    let num = Num::from(n);
    let lc = num.lc(fp(10));
    assert_eq!(lc.len(), 1);
    let (var, coeff) = lc.term_at(0);
    assert!(var == n.get_variable());
    assert_eq!(coeff, fp(10));
}

#[test]
fn test_num_add_merges_keys() {
    let mut cs = ConstraintSystem::new(true);
    let n = AllocatedNum::allocate(&mut cs, Some(fp(6))).unwrap();
    let a = Num::from(n).scale(fp(2));
    let b = Num::from(n).scale(fp(5));
    let merged = a.add(&b);
    // the shared variable keeps a single entry with the summed coefficient
    assert_eq!(merged.lc.len(), 1);
    let (var, coeff) = merged.lc.term_at(0);
    assert!(var == n.get_variable());
    assert_eq!(coeff, fp(7));
    assert_eq!(merged.value.unwrap(), fp(42));
}
