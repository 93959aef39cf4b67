use r1cs_num::boolean::Boolean;
use r1cs_num::cs::ConstraintSystem;
use r1cs_num::field::{Fp, MODULUS, NUM_BITS};
use r1cs_num::num::AllocatedNum;

fn fp(x: u64) -> Fp {
    Fp::from_u64(x)
}

fn bit_variable(b: &Boolean) -> r1cs_num::cs::Variable {
    match b {
        Boolean::Is(bit) => bit.get_variable(),
        _ => panic!("expected an allocated bit"),
    }
}

#[test]
fn test_into_bits_strict() {
    let negone = fp(MODULUS - 1);

    let mut cs = ConstraintSystem::new(true);

    let n = AllocatedNum::allocate(&mut cs, Some(negone)).unwrap();
    let bits = n.to_bits_le_strict(&mut cs).unwrap();

    assert!(cs.is_satisfied());

    // make the bit representation the characteristic: set the low bit,
    // which the bound has clear
    cs.set(bit_variable(&bits[0]), fp(1));

    // this makes the conditional boolean constraint fail, before the
    // packing constraint is even reached
    assert_eq!(cs.which_is_unsatisfied().unwrap(), cs.num_constraints() - 2);
}

#[test]
fn test_into_bits() {
    for v in 0..MODULUS {
        let r = fp(v);
        let mut cs = ConstraintSystem::new(true);

        let n = AllocatedNum::allocate(&mut cs, Some(r)).unwrap();

        let bits = if v % 2 == 0 {
            n.to_bits_le(&mut cs).unwrap()
        } else {
            n.to_bits_le_strict(&mut cs).unwrap()
        };

        assert!(cs.is_satisfied());

        for i in 0..10usize {
            let expected = (v >> i) & 1 == 1;
            match bits.get(i) {
                Some(Boolean::Is(a)) => assert_eq!(expected, a.get_value().unwrap()),
                Some(_) => unreachable!(),
                None => assert!(!expected),
            }
        }

        cs.set(n.get_variable(), fp(v + 1));
        assert!(!cs.is_satisfied());
        cs.set(n.get_variable(), r);
        assert!(cs.is_satisfied());

        for i in 0..NUM_BITS {
            let var = bit_variable(&bits[i]);
            let cur = cs.get(var);
            let tmp = fp(1 + MODULUS - cur.v);
            cs.set(var, tmp);
            assert!(!cs.is_satisfied());
            cs.set(var, cur);
            assert!(cs.is_satisfied());
        }
    }
}

#[test]
fn test_weak_bits_admit_alias() {
    // the characteristic itself, written in binary, satisfies the weak
    // packing of zero: the weak form does not exclude the alias
    let mut cs = ConstraintSystem::new(true);
    let n = AllocatedNum::allocate(&mut cs, Some(fp(0))).unwrap();
    let bits = n.to_bits_le(&mut cs).unwrap();
    assert!(cs.is_satisfied());
    for i in 0..NUM_BITS {
        let b = (MODULUS >> i) & 1;
        cs.set(bit_variable(&bits[i]), fp(b));
    }
    assert!(cs.is_satisfied());
}

#[test]
fn test_strict_bits_reject_alias() {
    // the same aliased assignment violates the strict range check
    let mut cs = ConstraintSystem::new(true);
    let n = AllocatedNum::allocate(&mut cs, Some(fp(0))).unwrap();
    let bits = n.to_bits_le_strict(&mut cs).unwrap();
    assert!(cs.is_satisfied());
    for i in 0..NUM_BITS {
        let b = (MODULUS >> i) & 1;
        cs.set(bit_variable(&bits[i]), fp(b));
    }
    assert!(!cs.is_satisfied());
}

#[test]
fn test_strict_bits_accept_maximum() {
    // the maximal canonical value passes the strict check
    let mut cs = ConstraintSystem::new(true);
    let n = AllocatedNum::allocate(&mut cs, Some(fp(MODULUS - 1))).unwrap();
    let bits = n.to_bits_le_strict(&mut cs).unwrap();
    assert!(cs.is_satisfied());
    assert_eq!(bits.len(), NUM_BITS);
}
