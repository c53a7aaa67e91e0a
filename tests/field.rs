use r1cs_core::field::FrElement;

fn fe(v: u64) -> FrElement {
    FrElement::from_u64(v)
}

#[test]
fn mul_small_values() {
    assert_eq!(fe(3).mul(&fe(9)), fe(27));
    assert_eq!(fe(3).mul(&fe(9)).to_limbs(), [0, 0, 0, 27]);
}

#[test]
fn add_small_values() {
    assert_eq!(fe(27).add(&fe(3)), fe(30));
    assert_eq!(fe(30).add(&fe(5)).to_limbs(), [0, 0, 0, 35]);
}

#[test]
fn add_wraps_at_the_modulus() {
    let minus_one = FrElement::from_limbs([
        0x73eda753299d7d48,
        0x3339d80809a1d805,
        0x53bda402fffe5bfe,
        0xffffffff00000000,
    ])
    .unwrap();
    assert_eq!(minus_one.add(&FrElement::one()), FrElement::zero());
    assert_eq!(minus_one.mul(&minus_one), FrElement::one());
}

#[test]
fn mul_reduces_large_products() {
    let x = fe(u64::MAX);
    let x2 = x.mul(&x);
    let x4 = x2.mul(&x2);
    assert_eq!(
        x4.to_limbs(),
        [0x1824b159acc5056b, 0x998c4fefecbc4ffb, 0x5884b7fa000347fe, 0x1ffffffff]
    );
}

#[test]
fn from_limbs_rejects_the_modulus() {
    let m = [
        0x73eda753299d7d48,
        0x3339d80809a1d805,
        0x53bda402fffe5bfe,
        0xffffffff00000001,
    ];
    assert!(FrElement::from_limbs(m).is_none());
    assert!(FrElement::from_limbs([u64::MAX; 4]).is_none());
    assert_eq!(FrElement::from_limbs([0, 0, 0, 7]), Some(fe(7)));
}

#[test]
fn equality_is_by_value() {
    assert!(fe(5).equals(&fe(5)));
    assert!(!fe(5).equals(&fe(6)));
    assert_ne!(fe(0), fe(1));
}
