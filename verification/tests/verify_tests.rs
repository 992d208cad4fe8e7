use num_bigint::BigUint;
use smtverifier::field::FieldValue;
use smtverifier::poseidon::end_leaf_hash;
use smtverifier::poseidon::intermediate_leaf_hash;
use smtverifier::smtverifier::verify_extended;
use smtverifier::smtverifier::VerifyError;
use smtverifier::verify;

fn fv(dec: &str) -> FieldValue {
    let b = BigUint::parse_bytes(dec.as_bytes(), 10).unwrap();
    FieldValue::from_bytes_le(&b.to_bytes_le())
}

fn fixture_key() -> FieldValue {
    fv("500400244448261235194511589700085192056257072811")
}

fn fixture_value() -> FieldValue {
    fv("10")
}

/// The root of the fixture tree: what the Poseidon digest yields for this
/// key, value and sibling path.
fn fixture_root() -> FieldValue {
    fv("21135506078746510573119705753579567335835726524098367527812922933644667691006")
}

fn fixture_siblings() -> Vec<FieldValue> {
    vec![
        fv("13175438946403099127785287940793227584022396513432127658229341995655669945927"),
        fv("8906855681626013805208515602420790146700990181185755277830603493975762067087"),
        fv("9457781280074316365191154663065840032069867769247887694941521931147573919101"),
        fv("3886003602968045687040541715852317767887615077999207197223340281752527813105"),
        fv("5615297718669932502221460377065820025799135258753150375139282337562917282190"),
        fv("8028805327216345358010190706209509799652032446863364094962139617192615346584"),
        fv("572541247728029242828004565014369314635015057986897745288271497923406188177"),
        fv("9738042754594087795123752255236264962836518315799343893748681096434196901468"),
    ]
}

/// Recomputes the fixture root by hand: the end-leaf hash at the sentinel
/// level, hashed upward through each sibling, ordered left/right by the
/// key's bit at that level.
#[test]
fn fixture_root_matches_upward_chain() {
    let key = fixture_key();
    let sibs = fixture_siblings();
    let mut h = end_leaf_hash(&key, &fixture_value());
    for i in (0..sibs.len()).rev() {
        h = if key.bit(i) {
            intermediate_leaf_hash(&sibs[i], &h)
        } else {
            intermediate_leaf_hash(&h, &sibs[i])
        };
    }
    assert!(h.equals(&fixture_root()));
}

#[test]
fn fixture_inclusion_proof_accepts() {
    let res = verify(
        &fixture_root(),
        &fixture_key(),
        &fixture_value(),
        fixture_siblings(),
    );
    assert_eq!(res, Ok(()));
}

fn with_flipped_byte(f: &FieldValue, pos: usize) -> FieldValue {
    let mut b = f.to_bytes_le();
    b[pos] ^= 0xff;
    FieldValue::from_bytes_le(&b)
}

#[test]
fn flipping_any_byte_of_one_sibling_flips_the_outcome() {
    for pos in 0..32usize {
        let mut sibs = fixture_siblings();
        sibs[3] = with_flipped_byte(&sibs[3], pos);
        let res = verify(&fixture_root(), &fixture_key(), &fixture_value(), sibs);
        assert_eq!(res, Err(VerifyError::RootMismatch), "byte {}", pos);
    }
}

#[test]
fn flipping_a_byte_of_each_sibling_flips_the_outcome() {
    for idx in 0..8usize {
        let mut sibs = fixture_siblings();
        sibs[idx] = with_flipped_byte(&sibs[idx], 7);
        let res = verify(&fixture_root(), &fixture_key(), &fixture_value(), sibs);
        assert_eq!(res, Err(VerifyError::RootMismatch), "sibling {}", idx);
    }
}

#[test]
fn flipping_a_byte_of_the_value_flips_the_outcome() {
    let tampered = with_flipped_byte(&fixture_value(), 0);
    let res = verify(
        &fixture_root(),
        &fixture_key(),
        &tampered,
        fixture_siblings(),
    );
    assert_eq!(res, Err(VerifyError::RootMismatch));
}

#[test]
fn empty_siblings_are_malformed() {
    let res = verify(&fv("0"), &fv("1"), &fv("2"), Vec::new());
    assert_eq!(res, Err(VerifyError::MalformedInput));
}

#[test]
fn disabled_proof_accepts_anything() {
    let res = verify_extended(
        false,
        &fv("123456789"),
        &fv("0"),
        &fv("0"),
        false,
        &fv("42"),
        &fv("7"),
        false,
        vec![fv("1"), fv("2"), fv("3")],
    );
    assert_eq!(res, Ok(()));
    let res = verify_extended(
        false,
        &fv("0"),
        &fv("0"),
        &fv("0"),
        true,
        &fv("42"),
        &fv("7"),
        true,
        Vec::new(),
    );
    assert_eq!(res, Ok(()));
}

#[test]
fn exclusion_with_same_old_key_is_inconsistent() {
    // The claimed root is deliberately wrong as well: the consistency check
    // fires before and independently of the root comparison.
    let res = verify_extended(
        true,
        &fv("1"),
        &fixture_key(),
        &fv("99"),
        false,
        &fixture_key(),
        &fixture_value(),
        true,
        fixture_siblings(),
    );
    assert_eq!(res, Err(VerifyError::ExclusionConsistencyViolation));
}
