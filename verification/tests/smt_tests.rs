use num_bigint::BigUint;
use smtverifier::field::FieldValue;
use smtverifier::poseidon::end_leaf_hash;
use smtverifier::poseidon::intermediate_leaf_hash;
use smtverifier::smtverifier::level_ins;
use smtverifier::smtverifier::sm_verifier;
use smtverifier::smtverifier::switcher;
use smtverifier::smtverifier::verify_extended;
use smtverifier::smtverifier::VerifyError;

fn fv(dec: &str) -> FieldValue {
    let b = BigUint::parse_bytes(dec.as_bytes(), 10).unwrap();
    FieldValue::from_bytes_le(&b.to_bytes_le())
}

fn fvs(decs: &[&str]) -> Vec<FieldValue> {
    decs.iter().map(|d| fv(d)).collect()
}

#[test]
fn level_ins_marks_exactly_one_level() {
    let cases: Vec<Vec<FieldValue>> = vec![
        fvs(&["5", "7", "0"]),
        fvs(&["0", "0", "0"]),
        fvs(&["1", "0", "0", "0"]),
        fvs(&["0", "2", "0", "0"]),
        fvs(&["3", "4", "5", "0"]),
        fvs(&["0", "0"]),
        fvs(&["9", "0"]),
    ];
    for siblings in cases {
        let flags = level_ins(&siblings, true).unwrap();
        assert_eq!(flags.len(), siblings.len());
        assert_eq!(flags.iter().filter(|&&b| b).count(), 1);
    }
}

#[test]
fn level_ins_points_below_the_deepest_nonzero_sibling() {
    let flags = level_ins(&fvs(&["5", "7", "0"]), true).unwrap();
    assert_eq!(flags, vec![false, false, true]);
    let flags = level_ins(&fvs(&["5", "0", "0"]), true).unwrap();
    assert_eq!(flags, vec![false, true, false]);
    let flags = level_ins(&fvs(&["0", "0", "0"]), true).unwrap();
    assert_eq!(flags, vec![true, false, false]);
}

#[test]
fn level_ins_rejects_a_nonzero_sentinel_when_enabled() {
    let res = level_ins(&fvs(&["5", "7"]), true);
    assert_eq!(res, Err(VerifyError::MalformedInput));
    let res = level_ins(&fvs(&["5", "7"]), false);
    assert!(res.is_ok());
}

fn fold_flags(
    is_0: bool,
    fnc: bool,
    enabled: bool,
    lev: &[bool],
) -> (bool, bool, bool, bool, bool) {
    let mut st = sm_verifier(is_0, lev[0], fnc, enabled, false, false, false, !enabled);
    for i in 1..lev.len() {
        let (top, inew, iold, i0, na) = st;
        st = sm_verifier(is_0, lev[i], fnc, top, i0, iold, inew, na);
    }
    st
}

#[test]
fn fsm_ends_with_exactly_one_terminal_flag() {
    let n = 4usize;
    for k in 0..n {
        let mut lev = vec![false; n];
        lev[k] = true;
        for bits in 0..8u8 {
            let is_0 = bits & 1 != 0;
            let fnc = bits & 2 != 0;
            let enabled = bits & 4 != 0;
            if enabled && !fnc && is_0 && k == n - 1 {
                continue;
            }
            let (_, inew, iold, i0, na) = fold_flags(is_0, fnc, enabled, &lev);
            let sum = inew as u8 + iold as u8 + i0 as u8 + na as u8;
            assert_eq!(sum, 1, "is_0={} fnc={} enabled={} k={}", is_0, fnc, enabled, k);
        }
    }
}

#[test]
fn fsm_step_resolves_the_active_level() {
    // Active inclusion step: the level becomes the new leaf.
    assert_eq!(
        sm_verifier(false, true, false, true, false, false, false, false),
        (false, true, false, false, false)
    );
    // Active exclusion step with a real old leaf.
    assert_eq!(
        sm_verifier(false, true, true, true, false, false, false, false),
        (false, false, true, false, false)
    );
    // Active exclusion step with an empty old slot.
    assert_eq!(
        sm_verifier(true, true, true, true, false, false, false, false),
        (false, false, false, true, false)
    );
    // Inactive step below a resolved level stays not-applicable.
    assert_eq!(
        sm_verifier(false, false, false, false, false, true, false, false),
        (false, false, false, false, true)
    );
}

#[test]
fn switcher_orders_by_the_bit() {
    let a = fv("11");
    let b = fv("22");
    let (l, r) = switcher(0, &a, &b);
    assert!(l.equals(&a) && r.equals(&b));
    let (l, r) = switcher(1, &a, &b);
    assert!(l.equals(&b) && r.equals(&a));
}

#[test]
fn handmade_two_leaf_inclusion_accepts() {
    // A two-leaf tree: the key-2 leaf on the left (bit 0 of 2 is 0), the
    // key-3 leaf on the right. The proof for key 2 carries the other leaf
    // as its one sibling.
    let leaf_left = end_leaf_hash(&fv("2"), &fv("5"));
    let leaf_right = end_leaf_hash(&fv("3"), &fv("7"));
    let root = intermediate_leaf_hash(&leaf_left, &leaf_right);
    let res = smtverifier::verify(&root, &fv("2"), &fv("5"), vec![leaf_right.clone()]);
    assert_eq!(res, Ok(()));
    // The same proof with a wrong value is rejected.
    let res = smtverifier::verify(&root, &fv("2"), &fv("6"), vec![leaf_right]);
    assert_eq!(res, Err(VerifyError::RootMismatch));
}

#[test]
fn handmade_exclusion_with_old_leaf_accepts() {
    // A one-leaf tree: the root is the leaf itself. A proof that key 9 is
    // absent exhibits the old leaf occupying the diverging slot.
    let old_key = fv("2");
    let old_value = fv("5");
    let root = end_leaf_hash(&old_key, &old_value);
    let res = verify_extended(
        true,
        &root,
        &old_key,
        &old_value,
        false,
        &fv("9"),
        &fv("0"),
        true,
        vec![fv("0")],
    );
    assert_eq!(res, Ok(()));
}

#[test]
fn handmade_exclusion_into_empty_slot_accepts() {
    // A tree whose root has a single leaf on the left and nothing on the
    // right: a proof that key 1 (whose path turns right) is absent exhibits
    // the empty slot it runs into.
    let leaf = end_leaf_hash(&fv("2"), &fv("5"));
    let root = intermediate_leaf_hash(&leaf, &FieldValue::zero());
    let res = verify_extended(
        true,
        &root,
        &fv("0"),
        &fv("0"),
        true,
        &fv("1"),
        &fv("0"),
        true,
        vec![leaf],
    );
    assert_eq!(res, Ok(()));
}

#[test]
fn fsm_invariant_violation_is_reported() {
    // Inclusion mode that claims an empty old leaf, with a non-zero sibling
    // just above the sentinel: the deepest level resolves as both the new
    // leaf and the empty slot, and the sum check fails.
    let res = verify_extended(
        true,
        &fv("1"),
        &fv("0"),
        &fv("0"),
        true,
        &fv("2"),
        &fv("5"),
        false,
        fvs(&["1", "2", "3"]),
    );
    assert_eq!(res, Err(VerifyError::FsmInvariantViolation));
}

#[test]
fn verify_is_deterministic_and_borrows_its_inputs() {
    let leaf_right = end_leaf_hash(&fv("3"), &fv("7"));
    let leaf_left = end_leaf_hash(&fv("2"), &fv("5"));
    let root = intermediate_leaf_hash(&leaf_left, &leaf_right);
    let key = fv("2");
    let value = fv("5");
    let first = smtverifier::verify(&root, &key, &value, vec![leaf_right.clone()]);
    let second = smtverifier::verify(&root, &key, &value, vec![leaf_right.clone()]);
    assert_eq!(first, second);
    assert_eq!(first, Ok(()));
    // The borrowed arguments are untouched and usable again.
    assert!(key.equals(&fv("2")) && value.equals(&fv("5")));
}
