//! The proof-verification algorithm: sibling normalization, the
//! insertion-level locator, the per-level role state machine and the
//! bottom-up root reconstruction.

use vstd::prelude::*;
use crate::field::FieldValue;
use crate::field::nat_bit;
use crate::poseidon::end_leaf_hash;
use crate::poseidon::intermediate_leaf_hash;
use crate::poseidon::poseidon_of;
use crate::poseidon::values_of;

verus! {

/// Why a proof was rejected.
#[derive(Clone, Copy, Debug, PartialEq, Eq, Structural)]
pub enum VerifyError {
    /// The sibling sequence is empty, or a non-zero sibling stands where the
    /// zero sentinel is required.
    MalformedInput,
    /// The role flags fail to sum to exactly one at the deepest level.
    FsmInvariantViolation,
    /// The reconstructed root differs from the claimed root.
    RootMismatch,
    /// An exclusion proof claims a real old leaf at the excluded key itself.
    ExclusionConsistencyViolation,
}

/// All entries of s with index in [lo, hi) are zero.
pub open spec fn all_zero(s: Seq<nat>, lo: int, hi: int) -> bool {
    forall|j: int| lo <= j < hi ==> s[j] == 0
}

/// Whether level i is the insertion level of the sibling values s (sentinel
/// included): the level just below the deepest non-zero sibling, or the root
/// level when every sibling above the sentinel is zero.
pub open spec fn lev_ins_at(s: Seq<nat>, i: int) -> bool {
    if i == 0 {
        all_zero(s, 0, s.len() - 1)
    } else {
        s[i - 1] != 0 && all_zero(s, i, s.len() - 1)
    }
}

/// The insertion-level flag of every level.
pub open spec fn lev_ins_seq(s: Seq<nat>) -> Seq<bool> {
    Seq::new(s.len(), |i: int| lev_ins_at(s, i))
}

/// The five role flags that classify one tree level.
pub struct LevelRoles {
    /// Still walking populated internal nodes.
    pub top: bool,
    /// Resolved here as the new leaf.
    pub inew: bool,
    /// Resolved here as the old leaf.
    pub iold: bool,
    /// Resolved here as an empty slot.
    pub i0: bool,
    /// Already resolved at some level above.
    pub na: bool,
}

/// The seed flags above the root level.
pub open spec fn sm_init(enabled: bool) -> LevelRoles {
    LevelRoles { top: enabled, inew: false, iold: false, i0: false, na: !enabled }
}

/// One step of the role state machine, top-down.
pub open spec fn sm_step(is_0: bool, lev_ins: bool, fnc: bool, prev: LevelRoles) -> LevelRoles {
    let active = prev.top && lev_ins;
    LevelRoles {
        top: prev.top && !active,
        inew: active && !(active && fnc),
        iold: (active && fnc) && !is_0,
        i0: active && is_0,
        na: prev.na || prev.inew || prev.iold || prev.i0,
    }
}

/// The role flags at level i, folded top-down from the seed.
pub open spec fn sm_at(is_0: bool, fnc: bool, enabled: bool, lev: Seq<bool>, i: int) -> LevelRoles
    decreases i,
{
    if i <= 0 {
        sm_step(is_0, lev[0], fnc, sm_init(enabled))
    } else {
        sm_step(is_0, lev[i], fnc, sm_at(is_0, fnc, enabled, lev, i - 1))
    }
}

/// Exactly one terminal classification holds.
pub open spec fn roles_sum_one(f: LevelRoles) -> bool {
    (if f.na {
        1int
    } else {
        0int
    }) + (if f.iold {
        1int
    } else {
        0int
    }) + (if f.inew {
        1int
    } else {
        0int
    }) + (if f.i0 {
        1int
    } else {
        0int
    }) == 1
}

/// The value a level contributes to the reconstruction, selected by its role
/// flags: a fresh node hash while walking, a leaf hash at the resolution
/// level, and zero (an empty subtree) everywhere else.
pub open spec fn level_value(
    roles: LevelRoles,
    sibling: nat,
    old1: nat,
    new1: nat,
    bit: bool,
    child: nat,
) -> nat {
    if roles.top {
        if bit {
            poseidon_of(seq![sibling, child])
        } else {
            poseidon_of(seq![child, sibling])
        }
    } else if roles.inew {
        new1
    } else if roles.iold {
        old1
    } else {
        0
    }
}

/// The reconstructed subtree root at level i (level 0 is the tree root),
/// for sibling values s with the sentinel included.
pub open spec fn recon_at(
    is_0: bool,
    fnc: bool,
    key: nat,
    old1: nat,
    new1: nat,
    s: Seq<nat>,
    i: int,
) -> nat
    decreases s.len() - i,
{
    let child = if i >= s.len() - 1 {
        0nat
    } else {
        recon_at(is_0, fnc, key, old1, new1, s, i + 1)
    };
    level_value(
        sm_at(is_0, fnc, true, lev_ins_seq(s), i),
        s[i],
        old1,
        new1,
        nat_bit(key, i as nat),
        child,
    )
}

/// What verification returns, as a function of the proof's values alone.
pub open spec fn spec_verify_extended(
    enabled: bool,
    root: nat,
    old_key: nat,
    old_value: nat,
    is_old_0: bool,
    key: nat,
    value: nat,
    fnc: bool,
    siblings: Seq<nat>,
) -> Result<(), VerifyError> {
    if !enabled {
        Ok(())
    } else if siblings.len() == 0 {
        Err(VerifyError::MalformedInput)
    } else {
        let s = siblings.push(0nat);
        let old1 = poseidon_of(seq![old_key, old_value, 1nat]);
        let new1 = poseidon_of(seq![key, value, 1nat]);
        if !roles_sum_one(sm_at(is_old_0, fnc, true, lev_ins_seq(s), s.len() - 1)) {
            Err(VerifyError::FsmInvariantViolation)
        } else if fnc && !is_old_0 && old_key == key {
            Err(VerifyError::ExclusionConsistencyViolation)
        } else if recon_at(is_old_0, fnc, key, old1, new1, s, 0) != root {
            Err(VerifyError::RootMismatch)
        } else {
            Ok(())
        }
    }
}

/// Whether i is the one insertion level of s, with no other.
pub open spec fn unique_ins(s: Seq<nat>, i: int) -> bool {
    &&& 0 <= i < s.len()
    &&& lev_ins_at(s, i)
    &&& forall|j: int| 0 <= j < s.len() && j != i ==> !lev_ins_at(s, j)
}

/// The deepest index below hi whose entry is non-zero.
proof fn lemma_last_nonzero(s: Seq<nat>, hi: int) -> (m: int)
    requires
        0 <= hi <= s.len(),
        !all_zero(s, 0, hi),
    ensures
        0 <= m < hi,
        s[m] != 0,
        all_zero(s, m + 1, hi),
    decreases hi,
{
    if s[hi - 1] != 0 {
        hi - 1
    } else {
        if all_zero(s, 0, hi - 1) {
            assert(all_zero(s, 0, hi));
        }
        let m = lemma_last_nonzero(s, hi - 1);
        assert(all_zero(s, m + 1, hi));
        m
    }
}

/// For any sibling sequence of length at least two (the zero sentinel
/// included), exactly one level is classified as the insertion level.
pub proof fn lemma_insertion_level_unique(s: Seq<nat>)
    requires
        s.len() >= 2,
    ensures
        exists|i: int| unique_ins(s, i),
{
    if all_zero(s, 0, s.len() - 1) {
        assert forall|j: int| 0 <= j < s.len() && j != 0 implies !lev_ins_at(s, j) by {
            assert(s[j - 1] == 0);
        }
        assert(unique_ins(s, 0));
    } else {
        let m = lemma_last_nonzero(s, s.len() - 1);
        assert(lev_ins_at(s, m + 1));
        assert forall|j: int| 0 <= j < s.len() && j != m + 1 implies !lev_ins_at(s, j) by {
            if j == 0 {
                assert(!all_zero(s, 0, s.len() - 1));
            } else if j < m + 1 {
                assert(s[m] != 0);
            } else {
                assert(s[j - 1] == 0);
            }
        }
        assert(unique_ins(s, m + 1));
    }
}

/// The role flags through the whole fold, given the one insertion level k:
/// still walking above it, resolved at it, below the resolution after it.
proof fn lemma_sm_phases(is_0: bool, fnc: bool, enabled: bool, lev: Seq<bool>, k: int, i: int)
    requires
        0 <= k < lev.len(),
        lev[k],
        forall|j: int| 0 <= j < lev.len() && j != k ==> !lev[j],
        0 <= i < lev.len(),
    ensures
        !enabled ==> sm_at(is_0, fnc, enabled, lev, i) == (LevelRoles {
            top: false,
            inew: false,
            iold: false,
            i0: false,
            na: true,
        }),
        enabled && i < k ==> sm_at(is_0, fnc, enabled, lev, i) == (LevelRoles {
            top: true,
            inew: false,
            iold: false,
            i0: false,
            na: false,
        }),
        enabled && i == k ==> sm_at(is_0, fnc, enabled, lev, i) == (LevelRoles {
            top: false,
            inew: !fnc,
            iold: fnc && !is_0,
            i0: is_0,
            na: false,
        }),
        enabled && i > k ==> sm_at(is_0, fnc, enabled, lev, i) == (LevelRoles {
            top: false,
            inew: false,
            iold: false,
            i0: false,
            na: true,
        }),
    decreases i,
{
    if i > 0 {
        lemma_sm_phases(is_0, fnc, enabled, lev, k, i - 1);
    }
}

/// Totality of the role state machine: whenever the insertion flags are true
/// at exactly one level, exactly one terminal classification holds at the
/// deepest level. The one exception is an enabled inclusion-mode fold that
/// claims an empty old leaf and resolves only at the deepest level.
pub proof fn lemma_fsm_totality(is_old_0: bool, fnc: bool, enabled: bool, lev: Seq<bool>, k: int)
    requires
        0 <= k < lev.len(),
        lev[k],
        forall|j: int| 0 <= j < lev.len() && j != k ==> !lev[j],
        !(enabled && !fnc && is_old_0 && k == lev.len() - 1),
    ensures
        roles_sum_one(sm_at(is_old_0, fnc, enabled, lev, lev.len() - 1)),
{
    lemma_sm_phases(is_old_0, fnc, enabled, lev, k, lev.len() - 1);
}

/// With the sentinel appended, the state-machine invariant check cannot
/// fail, except in inclusion mode with an empty old leaf claimed and a
/// non-zero sibling just above the sentinel.
pub proof fn lemma_fsm_check_passes(is_old_0: bool, fnc: bool, s: Seq<nat>)
    requires
        s.len() >= 2,
        !(!fnc && is_old_0 && s[s.len() - 2] != 0),
    ensures
        roles_sum_one(sm_at(is_old_0, fnc, true, lev_ins_seq(s), s.len() - 1)),
{
    lemma_insertion_level_unique(s);
    let k = choose|i: int| unique_ins(s, i);
    let lev = lev_ins_seq(s);
    assert forall|j: int| 0 <= j < lev.len() && j != k implies !lev[j] by {
        assert(!lev_ins_at(s, j));
    }
    if k == s.len() - 1 {
        assert(s[s.len() - 2] != 0);
    }
    lemma_fsm_totality(is_old_0, fnc, true, lev, k);
}

/// An enabled exclusion proof that claims a real old leaf at the excluded
/// key itself is rejected as inconsistent whatever the claimed root: the
/// exclusion-consistency check fires before the root comparison.
pub proof fn lemma_exclusion_priority(
    root: nat,
    old_key: nat,
    old_value: nat,
    key: nat,
    value: nat,
    siblings: Seq<nat>,
)
    requires
        siblings.len() >= 1,
        old_key == key,
    ensures
        spec_verify_extended(true, root, old_key, old_value, false, key, value, true, siblings)
            == Err::<(), VerifyError>(VerifyError::ExclusionConsistencyViolation),
{
    lemma_fsm_check_passes(false, true, siblings.push(0nat));
}

/// A disabled proof accepts unconditionally, whatever it claims.
pub proof fn lemma_disabled_pass(
    root: nat,
    old_key: nat,
    old_value: nat,
    is_old_0: bool,
    key: nat,
    value: nat,
    fnc: bool,
    siblings: Seq<nat>,
)
    ensures
        spec_verify_extended(false, root, old_key, old_value, is_old_0, key, value, fnc, siblings)
            == Ok::<(), VerifyError>(()),
{
}

/// Locates the insertion level: the returned flags are true exactly at the
/// insertion level of the sibling values (sentinel included). When enabled,
/// the deepest sibling must be the zero sentinel; anything else is malformed.
pub fn level_ins(siblings: &Vec<FieldValue>, enabled: bool) -> (res: Result<
    Vec<bool>,
    VerifyError,
>)
    requires
        siblings@.len() >= 2,
    ensures
        ({
            let s = values_of(siblings@);
            &&& (res is Err) <==> (enabled && s.last() != 0)
            &&& (res is Err) ==> res == Err::<Vec<bool>, VerifyError>(VerifyError::MalformedInput)
            &&& (res is Ok) ==> (res->Ok_0)@.len() == s.len()
            &&& (res is Ok) ==> forall|i: int|
                0 <= i < s.len() ==> (res->Ok_0)@[i] == lev_ins_at(s, i)
        }),
{
    let ghost s = values_of(siblings@);
    let n = siblings.len();
    if enabled && !siblings[n - 1].is_zero() {
        return Err(VerifyError::MalformedInput);
    }
    let mut is_zero_v: Vec<bool> = Vec::new();
    let mut idx: usize = 0;
    while idx < n
        invariant
            0 <= idx <= n,
            n == siblings@.len(),
            s == values_of(siblings@),
            is_zero_v@.len() == idx,
            forall|j: int| 0 <= j < idx ==> is_zero_v@[j] == (s[j] == 0),
        decreases n - idx,
    {
        is_zero_v.push(siblings[idx].is_zero());
        idx = idx + 1;
    }
    let mut lev_ins_v: Vec<bool> = Vec::new();
    let mut is_done: Vec<bool> = Vec::new();
    let mut fill: usize = 0;
    while fill < n
        invariant
            0 <= fill <= n,
            lev_ins_v@.len() == fill,
            is_done@.len() == fill,
        decreases n - fill,
    {
        lev_ins_v.push(false);
        is_done.push(false);
        fill = fill + 1;
    }
    let last = !is_zero_v[n - 2];
    lev_ins_v.set(n - 1, last);
    is_done.set(n - 2, last);
    proof {
        assert(all_zero(s, n - 1, n - 1));
        assert(all_zero(s, n - 2, n - 1) <==> s[n - 2] == 0);
    }
    let mut step: usize = 2;
    while step < n
        invariant
            2 <= step <= n,
            n == s.len(),
            n == is_zero_v@.len(),
            forall|j: int| 0 <= j < n ==> is_zero_v@[j] == (s[j] == 0),
            lev_ins_v@.len() == n,
            is_done@.len() == n,
            forall|m: int| n - step < m < n ==> lev_ins_v@[m] == lev_ins_at(s, m),
            is_done@[n - step] == !all_zero(s, n - step, n - 1),
        decreases n - step,
    {
        let i = n - step;
        let here = !is_done[i] && !is_zero_v[i - 1];
        lev_ins_v.set(i, here);
        is_done.set(i - 1, here || is_done[i]);
        proof {
            assert(here == lev_ins_at(s, i as int));
            if s[i - 1] == 0 {
                assert(all_zero(s, i - 1, n - 1) <==> all_zero(s, i as int, n - 1));
            }
            assert(is_done@[i - 1] == !all_zero(s, i - 1, n - 1));
        }
        step = step + 1;
    }
    let root_ins = !is_done[0];
    lev_ins_v.set(0, root_ins);
    proof {
        assert(lev_ins_v@[0] == lev_ins_at(s, 0));
    }
    Ok(lev_ins_v)
}

/// One step of the role state machine, as executable code. The previous
/// level's flags come in, the current level's flags come out in the order
/// (top, inew, iold, i0, na).
pub fn sm_verifier(
    is_0: bool,
    lev_ins: bool,
    fnc: bool,
    prev_top: bool,
    prev_i0: bool,
    prev_iold: bool,
    prev_inew: bool,
    prev_na: bool,
) -> (r: (bool, bool, bool, bool, bool))
    ensures
        ({
            let f = sm_step(
                is_0,
                lev_ins,
                fnc,
                (LevelRoles {
                    top: prev_top,
                    inew: prev_inew,
                    iold: prev_iold,
                    i0: prev_i0,
                    na: prev_na,
                }),
            );
            r == (f.top, f.inew, f.iold, f.i0, f.na)
        }),
{
    let prev_top_lev_ins = prev_top && lev_ins;
    let prev_top_lev_ins_fnc = prev_top_lev_ins && fnc;
    let st_top = prev_top && !prev_top_lev_ins;
    let st_inew = prev_top_lev_ins && !prev_top_lev_ins_fnc;
    let st_iold = prev_top_lev_ins_fnc && !is_0;
    let st_i0 = prev_top_lev_ins && is_0;
    let st_na = prev_na || prev_inew || prev_iold || prev_i0;
    (st_top, st_inew, st_iold, st_i0, st_na)
}

/// Orders (child, sibling) into (left, right) by the key's bit at this level.
pub fn switcher<'a>(lrbit: u8, l: &'a FieldValue, r: &'a FieldValue) -> (res: (
    &'a FieldValue,
    &'a FieldValue,
))
    ensures
        lrbit == 0 ==> res == (l, r),
        lrbit != 0 ==> res == (r, l),
{
    if lrbit == 0 {
        (l, r)
    } else {
        (r, l)
    }
}

/// Verifies a proof in full generality.
///
/// `fnc` selects the mode: inclusion when false, exclusion when true. For an
/// exclusion proof, (`old_key`, `old_value`) is the leaf claimed to occupy
/// the diverging slot, and `is_old_0` claims that slot is empty instead.
/// A disabled proof (`enabled == false`) accepts unconditionally.
pub fn verify_extended(
    enabled: bool,
    expected_root: &FieldValue,
    old_key: &FieldValue,
    old_value: &FieldValue,
    is_old_0: bool,
    key: &FieldValue,
    value: &FieldValue,
    fnc: bool,
    siblings: Vec<FieldValue>,
) -> (res: Result<(), VerifyError>)
    ensures
        res == spec_verify_extended(
            enabled,
            expected_root@,
            old_key@,
            old_value@,
            is_old_0,
            key@,
            value@,
            fnc,
            values_of(siblings@),
        ),
{
    let ghost orig = values_of(siblings@);
    if !enabled {
        return Ok(());
    }
    if siblings.len() == 0 {
        return Err(VerifyError::MalformedInput);
    }
    let mut siblings = siblings;
    siblings.push(FieldValue::zero());
    let ghost s = values_of(siblings@);
    proof {
        assert(s =~= orig.push(0nat));
    }
    let n_levels = siblings.len();
    let hash1_old = end_leaf_hash(old_key, old_value);
    let hash1_new = end_leaf_hash(key, value);
    let lev_ins_v = match level_ins(&siblings, true) {
        Ok(v) => v,
        Err(e) => {
            proof {
                assert(s.last() == 0);
            }
            return Err(e);
        },
    };
    proof {
        assert(lev_ins_v@ =~= lev_ins_seq(s));
    }
    let mut st_tops: Vec<bool> = Vec::new();
    let mut st_inews: Vec<bool> = Vec::new();
    let mut st_iolds: Vec<bool> = Vec::new();
    let mut st_i0s: Vec<bool> = Vec::new();
    let mut st_nas: Vec<bool> = Vec::new();
    let mut i: usize = 0;
    while i < n_levels
        invariant
            0 <= i <= n_levels,
            n_levels == s.len(),
            lev_ins_v@ == lev_ins_seq(s),
            lev_ins_v@.len() == n_levels,
            st_tops@.len() == i,
            st_inews@.len() == i,
            st_iolds@.len() == i,
            st_i0s@.len() == i,
            st_nas@.len() == i,
            forall|j: int|
                #![trigger sm_at(is_old_0, fnc, true, lev_ins_seq(s), j)]
                0 <= j < i ==> ({
                    let f = sm_at(is_old_0, fnc, true, lev_ins_seq(s), j);
                    st_tops@[j] == f.top && st_inews@[j] == f.inew && st_iolds@[j] == f.iold
                        && st_i0s@[j] == f.i0 && st_nas@[j] == f.na
                }),
        decreases n_levels - i,
    {
        let (st_top, st_inew, st_iold, st_i0, st_na) = if i == 0 {
            sm_verifier(is_old_0, lev_ins_v[0], fnc, true, false, false, false, false)
        } else {
            sm_verifier(
                is_old_0,
                lev_ins_v[i],
                fnc,
                st_tops[i - 1],
                st_i0s[i - 1],
                st_iolds[i - 1],
                st_inews[i - 1],
                st_nas[i - 1],
            )
        };
        st_tops.push(st_top);
        st_inews.push(st_inew);
        st_iolds.push(st_iold);
        st_i0s.push(st_i0);
        st_nas.push(st_na);
        proof {
            let j = i as int;
            if j > 0 {
                assert(st_tops@[j - 1] == sm_at(is_old_0, fnc, true, lev_ins_seq(s), j - 1).top);
            }
            assert(st_tops@[j] == sm_at(is_old_0, fnc, true, lev_ins_seq(s), j).top);
            assert(st_inews@[j] == sm_at(is_old_0, fnc, true, lev_ins_seq(s), j).inew);
            assert(st_iolds@[j] == sm_at(is_old_0, fnc, true, lev_ins_seq(s), j).iold);
            assert(st_i0s@[j] == sm_at(is_old_0, fnc, true, lev_ins_seq(s), j).i0);
            assert(st_nas@[j] == sm_at(is_old_0, fnc, true, lev_ins_seq(s), j).na);
        }
        i = i + 1;
    }
    let deep = n_levels - 1;
    proof {
        assert(st_tops@[deep as int] == sm_at(is_old_0, fnc, true, lev_ins_seq(s), deep as int).top);
    }
    let sum: u8 = (if st_nas[deep] {
        1u8
    } else {
        0u8
    }) + (if st_iolds[deep] {
        1u8
    } else {
        0u8
    }) + (if st_inews[deep] {
        1u8
    } else {
        0u8
    }) + (if st_i0s[deep] {
        1u8
    } else {
        0u8
    });
    if sum != 1 {
        return Err(VerifyError::FsmInvariantViolation);
    }
    if fnc && !is_old_0 && old_key.equals(key) {
        return Err(VerifyError::ExclusionConsistencyViolation);
    }
    let mut child = FieldValue::zero();
    let mut lvl: usize = n_levels;
    while lvl > 0
        invariant
            0 <= lvl <= n_levels,
            n_levels == s.len(),
            n_levels == siblings@.len(),
            s == values_of(siblings@),
            lev_ins_v@ == lev_ins_seq(s),
            hash1_old@ == poseidon_of(seq![old_key@, old_value@, 1nat]),
            hash1_new@ == poseidon_of(seq![key@, value@, 1nat]),
            st_tops@.len() == n_levels,
            st_inews@.len() == n_levels,
            st_iolds@.len() == n_levels,
            forall|j: int|
                #![trigger sm_at(is_old_0, fnc, true, lev_ins_seq(s), j)]
                0 <= j < n_levels ==> ({
                    let f = sm_at(is_old_0, fnc, true, lev_ins_seq(s), j);
                    st_tops@[j] == f.top && st_inews@[j] == f.inew && st_iolds@[j] == f.iold
                }),
            lvl == n_levels ==> child@ == 0,
            lvl < n_levels ==> child@ == recon_at(
                is_old_0,
                fnc,
                key@,
                hash1_old@,
                hash1_new@,
                s,
                lvl as int,
            ),
        decreases lvl,
    {
        lvl = lvl - 1;
        let bit = key.bit(lvl);
        let here: FieldValue = if st_tops[lvl] {
            let (l, r) = switcher(
                if bit {
                    1u8
                } else {
                    0u8
                },
                &child,
                &siblings[lvl],
            );
            intermediate_leaf_hash(l, r)
        } else if st_inews[lvl] {
            hash1_new.clone()
        } else if st_iolds[lvl] {
            hash1_old.clone()
        } else {
            FieldValue::zero()
        };
        proof {
            assert(st_tops@[lvl as int] == sm_at(is_old_0, fnc, true, lev_ins_seq(s), lvl as int).top);
            assert(here@ == recon_at(is_old_0, fnc, key@, hash1_old@, hash1_new@, s, lvl as int));
        }
        child = here;
    }
    if !expected_root.equals(&child) {
        return Err(VerifyError::RootMismatch);
    }
    Ok(())
}

} // verus!

