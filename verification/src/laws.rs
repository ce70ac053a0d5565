//! The library's laws: what the resolution pipeline guarantees, proved
//! once and for all over the specification functions that the public
//! contracts use.

use crate::cargo_metadata::Package;
use crate::enumerator::{bit, blocks_before, enumerated_masks, mask_list, masks_upto, pc};
use crate::features_finder::{
    builtin_all, free_scan_from, keep_scan_p, pipeline_result,
};
use crate::rules::compile::{
    builtin_forms, conflict_forms, form_sem, implication_forms, in_universe_filter, skip_opt_feats,
    RuleCond, RuleForm,
};
use crate::cargo_metadata::skip_opt;
use crate::rules::expr::SpecExpr;
use crate::rules::new_rule::{all_present, any_present};
use crate::types::names_of;
use vstd::prelude::*;
use vstd::seq_lib::*;

verus! {

/// What the built-in rules of a package demand of a feature set, stated
/// directly over the configuration: every implication edge of the feature
/// map is respected, skipped optional dependencies stay out, no
/// denylisted feature appears, every always-included feature appears, and
/// no skip entry is fully contained.
pub open spec fn respects_config(p: Package, u: Seq<Seq<char>>, fs: Set<Seq<char>>) -> bool {
    &&& (forall|i: int|
        0 <= i < p.feature_map@.len() ==> {
            let e = #[trigger] p.feature_map@[i];
            let rhs = in_universe_filter(e.implied@, names_of(u));
            (rhs.len() > 0 && fs.contains(e.name@)) ==> all_present(rhs, fs)
        })
    &&& ((skip_opt(p) && skip_opt_feats(p).len() > 0) ==> !any_present(skip_opt_feats(p), fs))
    &&& (p.denylist@.len() > 0 ==> !any_present(p.denylist@, fs))
    &&& (p.always_include_features@.len() > 0 ==> all_present(p.always_include_features@, fs))
    &&& (forall|j: int|
        0 <= j < p.skip_feature_sets@.len() ==> ((#[trigger] p.skip_feature_sets@[j])@.len() > 0
            ==> !all_present(p.skip_feature_sets@[j]@, fs)))
}

proof fn lemma_implication_forms_elems(
    map: Seq<crate::cargo_metadata::FeatureEntry>,
    u: Seq<Seq<char>>,
    fs: Set<Seq<char>>,
)
    ensures
        (forall|k: int|
            0 <= k < implication_forms(map, u).len() ==> form_sem(
                (#[trigger] implication_forms(map, u)[k]).cond,
                fs,
            )) <==> (forall|i: int|
            0 <= i < map.len() ==> {
                let e = #[trigger] map[i];
                let rhs = in_universe_filter(e.implied@, names_of(u));
                (rhs.len() > 0 && fs.contains(e.name@)) ==> all_present(rhs, fs)
            }),
    decreases map.len(),
{
    if map.len() > 0 {
        lemma_implication_forms_elems(map.drop_last(), u, fs);
        let front = implication_forms(map.drop_last(), u);
        let whole = implication_forms(map, u);
        assert(forall|k: int| 0 <= k < front.len() ==> whole[k] == front[k]);
        assert(forall|i: int| 0 <= i < map.len() - 1 ==> map.drop_last()[i] == #[trigger] map[i]);
        let e = map.last();
        let rhs = in_universe_filter(e.implied@, names_of(u));
        if (forall|k: int|
            0 <= k < whole.len() ==> form_sem((#[trigger] whole[k]).cond, fs)) {
            assert(forall|k: int|
                0 <= k < front.len() ==> form_sem((#[trigger] front[k]).cond, fs));
            assert forall|i: int| 0 <= i < map.len() implies {
                let en = #[trigger] map[i];
                let r2 = in_universe_filter(en.implied@, names_of(u));
                (r2.len() > 0 && fs.contains(en.name@)) ==> all_present(r2, fs)
            } by {
                if i == map.len() - 1 {
                    if rhs.len() > 0 {
                        assert(whole[front.len() as int].cond == (RuleCond::Imp {
                            lhs: e.name@,
                            rhs,
                        }));
                        assert(form_sem(whole[front.len() as int].cond, fs));
                    }
                } else {
                    assert(map.drop_last()[i] == map[i]);
                }
            }
        }
        if (forall|i: int|
            0 <= i < map.len() ==> {
                let en = #[trigger] map[i];
                let r2 = in_universe_filter(en.implied@, names_of(u));
                (r2.len() > 0 && fs.contains(en.name@)) ==> all_present(r2, fs)
            }) {
            assert forall|k: int| 0 <= k < whole.len() implies form_sem(
                (#[trigger] whole[k]).cond,
                fs,
            ) by {
                if k < front.len() {
                    assert(form_sem(front[k].cond, fs));
                } else {
                    assert(rhs.len() > 0);
                    assert(map[map.len() - 1] == e);
                    assert(whole[k].cond == (RuleCond::Imp { lhs: e.name@, rhs }));
                }
            }
        }
    }
}

proof fn lemma_conflict_forms_elems(
    entries: Seq<crate::types::FeatureList>,
    fs: Set<Seq<char>>,
)
    ensures
        (forall|k: int|
            0 <= k < conflict_forms(entries).len() ==> form_sem(
                (#[trigger] conflict_forms(entries)[k]).cond,
                fs,
            )) <==> (forall|j: int|
            0 <= j < entries.len() ==> ((#[trigger] entries[j])@.len() > 0 ==> !all_present(
                entries[j]@,
                fs,
            ))),
    decreases entries.len(),
{
    if entries.len() > 0 {
        lemma_conflict_forms_elems(entries.drop_last(), fs);
        let front = conflict_forms(entries.drop_last());
        let whole = conflict_forms(entries);
        assert(forall|k: int| 0 <= k < front.len() ==> whole[k] == front[k]);
        assert(forall|j: int|
            0 <= j < entries.len() - 1 ==> entries.drop_last()[j] == #[trigger] entries[j]);
        let e = entries.last();
        if (forall|k: int|
            0 <= k < whole.len() ==> form_sem((#[trigger] whole[k]).cond, fs)) {
            assert(forall|k: int|
                0 <= k < front.len() ==> form_sem((#[trigger] front[k]).cond, fs));
            assert forall|j: int| 0 <= j < entries.len() implies ((
            #[trigger] entries[j])@.len() > 0 ==> !all_present(entries[j]@, fs)) by {
                if j == entries.len() - 1 {
                    if e@.len() > 0 {
                        assert(whole[front.len() as int].cond == (RuleCond::NotAllOf {
                            feats: e@,
                        }));
                        assert(form_sem(whole[front.len() as int].cond, fs));
                    }
                } else {
                    assert(entries.drop_last()[j] == entries[j]);
                }
            }
        }
        if (forall|j: int|
            0 <= j < entries.len() ==> ((#[trigger] entries[j])@.len() > 0 ==> !all_present(
                entries[j]@,
                fs,
            ))) {
            assert forall|k: int| 0 <= k < whole.len() implies form_sem(
                (#[trigger] whole[k]).cond,
                fs,
            ) by {
                if k < front.len() {
                    assert(form_sem(front[k].cond, fs));
                } else {
                    assert(e@.len() > 0);
                    assert(entries[entries.len() - 1] == e);
                    assert(whole[k].cond == (RuleCond::NotAllOf { feats: e@ }));
                }
            }
        }
    }
}

/// The built-in rules hold exactly when the configuration is respected:
/// implications, the optional-dependency skip, the denylist, the
/// always-include list, and every skip entry, each acting independently.
pub proof fn lemma_builtin_characterization(p: Package, u: Seq<Seq<char>>, fs: Set<Seq<char>>)
    ensures
        builtin_all(p, u, fs) <==> respects_config(p, u, fs),
{
    let forms = builtin_forms(p, u);
    let a = implication_forms(p.feature_map@, u);
    let b: Seq<RuleForm> = if skip_opt(p) && skip_opt_feats(p).len() > 0 {
        seq![
            RuleForm {
                name: "skip_optional_dependencies"@,
                cond: RuleCond::NotAnyOf { feats: skip_opt_feats(p) },
            },
        ]
    } else {
        Seq::empty()
    };
    let c: Seq<RuleForm> = if p.denylist@.len() > 0 {
        seq![RuleForm { name: "denylist"@, cond: RuleCond::NotAnyOf { feats: p.denylist@ } }]
    } else {
        Seq::empty()
    };
    let d: Seq<RuleForm> = if p.always_include_features@.len() > 0 {
        seq![
            RuleForm {
                name: "always_include_features"@,
                cond: RuleCond::AllOf { feats: p.always_include_features@ },
            },
        ]
    } else {
        Seq::empty()
    };
    let e = conflict_forms(p.skip_feature_sets@);
    assert(forms == a + b + c + d + e);
    lemma_implication_forms_elems(p.feature_map@, u, fs);
    lemma_conflict_forms_elems(p.skip_feature_sets@, fs);
    let la = a.len() as int;
    let lb = b.len() as int;
    let lc = c.len() as int;
    let ld = d.len() as int;
    assert(forall|k: int| 0 <= k < la ==> #[trigger] forms[k] == a[k]);
    assert(forall|k: int| 0 <= k < lb ==> #[trigger] forms[la + k] == b[k]);
    assert(forall|k: int| 0 <= k < lc ==> #[trigger] forms[la + lb + k] == c[k]);
    assert(forall|k: int| 0 <= k < ld ==> #[trigger] forms[la + lb + lc + k] == d[k]);
    assert(forall|k: int|
        0 <= k < e.len() ==> #[trigger] forms[la + lb + lc + ld + k] == e[k]);
    if builtin_all(p, u, fs) {
        assert forall|k: int| 0 <= k < la implies form_sem((#[trigger] a[k]).cond, fs) by {
            assert(forms[k] == a[k]);
            assert(form_sem((builtin_forms(p, u)[k]).cond, fs));
        }
        assert forall|k: int| 0 <= k < e.len() implies form_sem((#[trigger] e[k]).cond, fs) by {
            assert(forms[la + lb + lc + ld + k] == e[k]);
            assert(form_sem(forms[la + lb + lc + ld + k].cond, fs));
        }
        if skip_opt(p) && skip_opt_feats(p).len() > 0 {
            assert(form_sem(forms[la].cond, fs));
        }
        if p.denylist@.len() > 0 {
            assert(form_sem(forms[la + lb].cond, fs));
        }
        if p.always_include_features@.len() > 0 {
            assert(form_sem(forms[la + lb + lc].cond, fs));
        }
        assert(respects_config(p, u, fs));
    }
    if respects_config(p, u, fs) {
        assert forall|k: int| 0 <= k < forms.len() implies form_sem(
            (#[trigger] forms[k]).cond,
            fs,
        ) by {
            if k < la {
                assert(forms[k] == a[k]);
                assert(form_sem(a[k].cond, fs)) by {
                    lemma_implication_forms_elems(p.feature_map@, u, fs);
                }
            } else if k < la + lb {
                assert(forms[k] == b[k - la]);
            } else if k < la + lb + lc {
                assert(forms[k] == c[k - la - lb]);
            } else if k < la + lb + lc + ld {
                assert(forms[k] == d[k - la - lb - lc]);
            } else {
                assert(forms[k] == e[k - la - lb - lc - ld]);
                assert(form_sem(e[k - la - lb - lc - ld].cond, fs)) by {
                    lemma_conflict_forms_elems(p.skip_feature_sets@, fs);
                }
            }
        }
    }
}

/// A valid feature set respects every setting: skip entries remove
/// exactly the supersets of each entry (each entry independently), every
/// always-included feature is present, and every implication edge of the
/// feature map is respected — so implication chains are respected too,
/// each edge holding on the same set.
pub proof fn lemma_valid_sets_respect_config(
    p: Package,
    u: Seq<Seq<char>>,
    free: Seq<SpecExpr>,
    fs: Set<Seq<char>>,
)
    requires
        pipeline_result(p, u, free, fs) == Some(true),
    ensures
        respects_config(p, u, fs),
        forall|j: int|
            0 <= j < p.skip_feature_sets@.len() ==> ((#[trigger] p.skip_feature_sets@[j])@.len()
                > 0 ==> !all_present(p.skip_feature_sets@[j]@, fs)),
        p.always_include_features@.len() > 0 ==> all_present(p.always_include_features@, fs),
        forall|i: int|
            0 <= i < p.feature_map@.len() ==> {
                let e = #[trigger] p.feature_map@[i];
                let rhs = in_universe_filter(e.implied@, names_of(u));
                (rhs.len() > 0 && fs.contains(e.name@)) ==> all_present(rhs, fs)
            },
{
    assert(builtin_all(p, u, fs));
    lemma_builtin_characterization(p, u, fs);
}

/// When the package carries no constraints at all — no implication makes
/// a rule, no list is set, no free-form rule — every feature set is
/// valid.
pub proof fn lemma_no_rules_all_valid(
    p: Package,
    u: Seq<Seq<char>>,
    free: Seq<SpecExpr>,
    fs: Set<Seq<char>>,
)
    requires
        builtin_forms(p, u).len() == 0,
        free.len() == 0,
    ensures
        pipeline_result(p, u, free, fs) == Some(true),
{
    assert(builtin_all(p, u, fs));
}

/// Scanning masks with a pipeline that accepts everything keeps them all.
#[verifier::rlimit(50)]
pub proof fn lemma_keep_all(
    p: Package,
    u: Seq<Seq<char>>,
    free: Seq<SpecExpr>,
    masks: Seq<u64>,
    len: nat,
)
    requires
        builtin_forms(p, u).len() == 0,
        free.len() == 0,
    ensures
        keep_scan_p(p, u, free, masks, len) == Some(masks),
    decreases masks.len(),
{
    if masks.len() == 0 {
        assert(keep_scan_p(p, u, free, masks, len) == Some(Seq::<u64>::empty()));
        assert(masks =~= Seq::<u64>::empty());
    } else {
        lemma_keep_all(p, u, free, masks.drop_last(), len);
        lemma_no_rules_all_valid(p, u, free, names_of(mask_list(u, masks.last(), len)));
        assert(masks.drop_last().push(masks.last()) =~= masks);
    }
}

/// Membership in one size block: the masks below the bound of that
/// popcount.
pub proof fn lemma_masks_upto_membership(len: nat, n: nat, bound: nat, m: u64)
    ensures
        masks_upto(len, n, bound).contains(m) <==> (m < bound && pc(m, len) == n),
    decreases bound,
{
    if bound > 0 {
        lemma_masks_upto_membership(len, n, (bound - 1) as nat, m);
        let front = masks_upto(len, n, (bound - 1) as nat);
        let whole = masks_upto(len, n, bound);
        if pc((bound - 1) as u64, len) == n {
            assert(whole =~= front.push((bound - 1) as u64));
            if m == (bound - 1) as u64 {
                assert(whole[whole.len() - 1] == m);
                assert(whole.contains(m));
            }
            if whole.contains(m) {
                let i = choose|i: int| 0 <= i < whole.len() && whole[i] == m;
                if i < front.len() {
                    assert(front[i] == m);
                    assert(front.contains(m));
                }
            }
            if front.contains(m) {
                let i = choose|i: int| 0 <= i < front.len() && front[i] == m;
                assert(whole[i] == m);
            }
        } else {
            assert(whole =~= front);
        }
    }
}

/// A popcount never exceeds the number of bits counted.
pub proof fn lemma_pc_bound(m: u64, bits: nat)
    ensures
        pc(m, bits) <= bits,
    decreases bits,
{
    if bits > 0 {
        lemma_pc_bound(m, (bits - 1) as nat);
    }
}

/// Membership in the grouped blocks: the masks below the power of two
/// with popcount below the block count.
pub proof fn lemma_blocks_membership(len: nat, nb: nat, m: u64)
    requires
        len < 64,
    ensures
        blocks_before(len, nb).contains(m) <==> (m < (1u64 << (len as u64)) && pc(m, len) < nb),
    decreases nb,
{
    if nb > 0 {
        lemma_blocks_membership(len, (nb - 1) as nat, m);
        lemma_masks_upto_membership(len, (nb - 1) as nat, (1u64 << (len as u64)) as nat, m);
        let front = blocks_before(len, (nb - 1) as nat);
        let block = masks_upto(len, (nb - 1) as nat, (1u64 << (len as u64)) as nat);
        let whole = blocks_before(len, nb);
        assert(whole == front + block);
        if whole.contains(m) {
            let i = choose|i: int| 0 <= i < whole.len() && whole[i] == m;
            if i < front.len() {
                assert(front[i] == m);
                assert(front.contains(m));
            } else {
                assert(block[i - front.len()] == m);
                assert(block.contains(m));
            }
        }
        if front.contains(m) {
            let i = choose|i: int| 0 <= i < front.len() && front[i] == m;
            assert(whole[i] == m);
        }
        if block.contains(m) {
            let i = choose|i: int| 0 <= i < block.len() && block[i] == m;
            assert(whole[front.len() + i] == m);
        }
    }
}

/// The blocks hold no mask twice.
pub proof fn lemma_blocks_no_dup(len: nat, nb: nat)
    requires
        len < 64,
    ensures
        blocks_before(len, nb).no_duplicates(),
        masks_upto(len, nb, (1u64 << (len as u64)) as nat).no_duplicates(),
    decreases nb,
{
    lemma_masks_upto_no_dup(len, nb, (1u64 << (len as u64)) as nat);
    if nb == 0 {
    } else {
        lemma_blocks_no_dup(len, (nb - 1) as nat);
        let front = blocks_before(len, (nb - 1) as nat);
        let block = masks_upto(len, (nb - 1) as nat, (1u64 << (len as u64)) as nat);
        lemma_masks_upto_no_dup(len, (nb - 1) as nat, (1u64 << (len as u64)) as nat);
        assert forall|i: int, j: int|
            0 <= i < front.len() && 0 <= j < block.len() implies front[i] != block[j] by {
            assert(front.contains(front[i]));
            assert(block.contains(block[j]));
            lemma_blocks_membership(len, (nb - 1) as nat, front[i]);
            lemma_masks_upto_membership(
                len,
                (nb - 1) as nat,
                (1u64 << (len as u64)) as nat,
                block[j],
            );
        }
        lemma_no_dup_in_concat(front, block);
    }
}

proof fn lemma_masks_upto_no_dup(len: nat, n: nat, bound: nat)
    requires
        bound <= 0x1_0000_0000_0000_0000,
    ensures
        masks_upto(len, n, bound).no_duplicates(),
    decreases bound,
{
    if bound > 0 {
        lemma_masks_upto_no_dup(len, n, (bound - 1) as nat);
        let front = masks_upto(len, n, (bound - 1) as nat);
        if pc((bound - 1) as u64, len) == n {
            assert(masks_upto(len, n, bound) =~= front.push((bound - 1) as u64));
            if front.contains((bound - 1) as u64) {
                lemma_masks_upto_membership(len, n, (bound - 1) as nat, (bound - 1) as u64);
                assert(false);
            }
            let pushed = front.push((bound - 1) as u64);
            assert forall|i: int, j: int|
                0 <= i < pushed.len() && 0 <= j < pushed.len() && i != j implies pushed[i]
                != pushed[j] by {
                if i < front.len() && j < front.len() {
                    assert(front[i] == pushed[i] && front[j] == pushed[j]);
                } else if i < front.len() {
                    if pushed[i] == pushed[j] {
                        assert(front[i] == (bound - 1) as u64);
                        assert(front.contains((bound - 1) as u64));
                        lemma_masks_upto_membership(len, n, (bound - 1) as nat, (bound - 1) as u64);
                    }
                } else if j < front.len() {
                    if pushed[i] == pushed[j] {
                        assert(front[j] == (bound - 1) as u64);
                        assert(front.contains((bound - 1) as u64));
                        lemma_masks_upto_membership(len, n, (bound - 1) as nat, (bound - 1) as u64);
                    }
                }
            }
        } else {
            assert(masks_upto(len, n, bound) =~= front);
        }
    }
}

/// The full enumeration of all sizes holds every mask below the power of
/// two exactly once: its length is two to the universe size.
pub proof fn lemma_enumeration_is_power_set(len: nat)
    requires
        len < 64,
    ensures
        enumerated_masks(len, len).no_duplicates(),
        forall|m: u64|
            enumerated_masks(len, len).contains(m) <==> m < (1u64 << (len as u64)),
        enumerated_masks(len, len).len() == (1u64 << (len as u64)) as nat,
{
    let masks = enumerated_masks(len, len);
    lemma_blocks_no_dup(len, (len + 1) as nat);
    assert forall|m: u64| masks.contains(m) <==> m < (1u64 << (len as u64)) by {
        lemma_blocks_membership(len, (len + 1) as nat, m);
        lemma_pc_bound(m, len);
    }
    let full = Seq::<u64>::new((1u64 << (len as u64)) as nat, |i: int| i as u64);
    assert(full.no_duplicates()) by {
        assert forall|i: int, j: int|
            0 <= i < full.len() && 0 <= j < full.len() && i != j implies full[i] != full[j] by {
            assert(full[i] == i as u64);
            assert(full[j] == j as u64);
        }
    }
    assert(full.to_set() =~= masks.to_set()) by {
        assert forall|m: u64| #[trigger] full.to_set().contains(m) implies masks.to_set().contains(
            m,
        ) by {
            let i = choose|i: int| 0 <= i < full.len() && full[i] == m;
            assert(m < (1u64 << (len as u64)));
            assert(masks.contains(m));
        }
        assert forall|m: u64| #[trigger] masks.to_set().contains(m) implies full.to_set().contains(
            m,
        ) by {
            assert(masks.contains(m));
            assert(m < (1u64 << (len as u64)));
            assert(full[m as int] == m);
            assert(full.contains(m));
        }
    }
    masks.unique_seq_to_set();
    full.unique_seq_to_set();
    assert(masks.len() == masks.to_set().len());
    assert(full.len() == full.to_set().len());
}

/// With no free-form rules, a feature set is valid exactly when it
/// respects the configuration: the skip entries remove exactly the
/// supersets of each entry, the always-include list restricts to exactly
/// the sets containing every named feature, and every implication edge is
/// respected.
pub proof fn lemma_valid_iff_respects_config(
    p: Package,
    u: Seq<Seq<char>>,
    free: Seq<SpecExpr>,
    fs: Set<Seq<char>>,
)
    requires
        free.len() == 0,
    ensures
        (pipeline_result(p, u, free, fs) == Some(true)) <==> respects_config(p, u, fs),
{
    lemma_builtin_characterization(p, u, fs);
    assert(free_scan_from(free, 0, fs) == Some(true));
}

/// The mask whose set bits are the universe positions of the members of a
/// set of names.
pub open spec fn mask_of(u: Seq<Seq<char>>, s: Set<Seq<char>>, b: nat) -> u64
    decreases b,
{
    if b == 0 {
        0u64
    } else if s.contains(u[b - 1]) {
        mask_of(u, s, (b - 1) as nat) | (1u64 << (((b - 1) as nat) as u64))
    } else {
        mask_of(u, s, (b - 1) as nat)
    }
}

proof fn lemma_bit_or_one(x: u64, j: u64, k: u64)
    requires
        j < 64,
        k < 64,
    ensures
        (((x | (1u64 << j)) >> k) & 1 == 1) <==> (((x >> k) & 1 == 1) || j == k),
{
    assert((((x | (1u64 << j)) >> k) & 1 == 1) <==> (((x >> k) & 1 == 1) || j == k))
        by (bit_vector)
        requires
            j < 64,
            k < 64,
    ;
}

proof fn lemma_high_bits_zero(x: u64, j: u64, k: u64)
    requires
        j <= k < 64,
        j < 64,
        x < (1u64 << j),
    ensures
        (x >> k) & 1 == 0,
{
    assert((x >> k) & 1 == 0) by (bit_vector)
        requires
            j <= k < 64,
            x < (1u64 << j),
    ;
}

proof fn lemma_or_stays_below(x: u64, j: u64)
    requires
        j < 63,
        x < (1u64 << j),
    ensures
        (x | (1u64 << j)) < (1u64 << (j + 1)),
        x < (1u64 << (j + 1)),
{
    assert((x | (1u64 << j)) < (1u64 << (j + 1)) && x < (1u64 << (j + 1))) by (bit_vector)
        requires
            j < 63,
            x < (1u64 << j),
    ;
}

proof fn lemma_mask_of_below(u: Seq<Seq<char>>, s: Set<Seq<char>>, b: nat)
    requires
        b <= 63,
    ensures
        mask_of(u, s, b) < (1u64 << (b as u64)),
    decreases b,
{
    if b == 0 {
        assert(0u64 < (1u64 << 0u64)) by (bit_vector);
    } else {
        lemma_mask_of_below(u, s, (b - 1) as nat);
        if s.contains(u[b - 1]) {
            lemma_or_stays_below(mask_of(u, s, (b - 1) as nat), ((b - 1) as nat) as u64);
        } else {
            lemma_or_stays_below(mask_of(u, s, (b - 1) as nat), ((b - 1) as nat) as u64);
        }
    }
}

proof fn lemma_mask_of_bits(u: Seq<Seq<char>>, s: Set<Seq<char>>, b: nat, k: nat)
    requires
        k < b <= 63,
    ensures
        bit(mask_of(u, s, b), k) == s.contains(u[k as int]),
    decreases b,
{
    let front = mask_of(u, s, (b - 1) as nat);
    lemma_mask_of_below(u, s, (b - 1) as nat);
    if k == b - 1 {
        lemma_high_bits_zero(front, ((b - 1) as nat) as u64, k as u64);
        if s.contains(u[b - 1]) {
            lemma_bit_or_one(front, ((b - 1) as nat) as u64, k as u64);
        }
    } else {
        lemma_mask_of_bits(u, s, (b - 1) as nat, k);
        if s.contains(u[b - 1]) {
            lemma_bit_or_one(front, ((b - 1) as nat) as u64, k as u64);
        }
    }
}

proof fn lemma_shifted_bit(x: u64, k: u64)
    requires
        k < 63,
    ensures
        ((x >> 1) >> k) & 1 == (x >> (k + 1)) & 1,
        x < (1u64 << 63) ==> (x >> 1) < (1u64 << 62),
{
    assert((((x >> 1) >> k) & 1 == (x >> (k + 1)) & 1) && (x < (1u64 << 63) ==> (x >> 1) < (1u64
        << 62))) by (bit_vector)
        requires
            k < 63,
    ;
}

proof fn lemma_bits_determine(m1: u64, m2: u64, j: nat)
    requires
        j <= 63,
        m1 < (1u64 << (j as u64)),
        m2 < (1u64 << (j as u64)),
        forall|k: nat| k < j ==> bit(m1, k) == bit(m2, k),
    ensures
        m1 == m2,
    decreases j,
{
    if j == 0 {
        assert(m1 == 0 && m2 == 0) by (bit_vector)
            requires
                m1 < (1u64 << 0u64),
                m2 < (1u64 << 0u64),
        ;
    } else {
        let t1 = m1 >> 1;
        let t2 = m2 >> 1;
        let ju = j as u64;
        let jm = ((j - 1) as nat) as u64;
        assert(t1 < (1u64 << jm) && t2 < (1u64 << jm)) by (bit_vector)
            requires
                1 <= ju <= 63,
                jm == ju - 1,
                m1 < (1u64 << ju),
                m2 < (1u64 << ju),
                t1 == m1 >> 1,
                t2 == m2 >> 1,
        ;
        assert forall|k: nat| k < j - 1 implies bit(t1, k) == bit(t2, k) by {
            lemma_shifted_bit(m1, k as u64);
            lemma_shifted_bit(m2, k as u64);
            assert(bit(m1, (k + 1) as nat) == bit(m2, (k + 1) as nat));
        }
        lemma_bits_determine(t1, t2, (j - 1) as nat);
        assert(bit(m1, 0) == bit(m2, 0));
        assert(m1 == m2) by (bit_vector)
            requires
                m1 >> 1 == m2 >> 1,
                ((m1 >> 0u64) & 1 == 1) == ((m2 >> 0u64) & 1 == 1),
        ;
    }
}

/// For packages with no constraints at all — an empty compiled rule list
/// and no free-form rules — and the default size bound, the valid
/// feature sets are exactly the power set of the universe: every subset
/// appears, distinct masks carry distinct subsets, and their number is
/// two to the universe size.
pub proof fn lemma_power_set_of_unconstrained(p: Package)
    requires
        builtin_forms(p, crate::features_finder::universe_seq(p)).len() == 0,
        p.rules@.len() == 0,
        p.max_combination_size is None,
        crate::features_finder::universe_seq(p).len() < 64,
    ensures
        ({
            let u = crate::features_finder::universe_seq(p);
            let el = u.len();
            let masks = enumerated_masks(el, crate::features_finder::eff_max(p, el));
            &&& keep_scan_p(
                p,
                u,
                crate::features_finder::free_parse(p.rules@)->Some_0,
                masks,
                el,
            ) == Some(masks)
            &&& masks.len() == (1u64 << (el as u64)) as nat
            &&& masks.no_duplicates()
            &&& (forall|t: int|
                0 <= t < masks.len() ==> names_of(
                    mask_list(u, #[trigger] masks[t], el),
                ).subset_of(names_of(u)))
            &&& (forall|s: Set<Seq<char>>|
                s.subset_of(names_of(u)) ==> exists|t: int|
                    0 <= t < masks.len() && names_of(mask_list(u, #[trigger] masks[t], el)) == s)
            &&& (crate::types::distinct_features(u) ==> forall|t1: int, t2: int|
                0 <= t1 < t2 < masks.len() ==> names_of(mask_list(u, masks[t1], el)) != names_of(
                    mask_list(u, masks[t2], el),
                ))
        }),
{
    let u = crate::features_finder::universe_seq(p);
    let el = u.len();
    let free = crate::features_finder::free_parse(p.rules@)->Some_0;
    assert(crate::features_finder::free_parse(p.rules@) == Some(Seq::<SpecExpr>::empty()));
    assert(free.len() == 0);
    let masks = enumerated_masks(el, crate::features_finder::eff_max(p, el));
    assert(crate::features_finder::eff_max(p, el) == el);
    lemma_keep_all(p, u, free, masks, el);
    lemma_enumeration_is_power_set(el);
    assert forall|t: int| 0 <= t < masks.len() implies names_of(
        mask_list(u, #[trigger] masks[t], el),
    ).subset_of(names_of(u)) by {
        assert forall|x: Seq<char>|
            names_of(mask_list(u, masks[t], el)).contains(x) implies names_of(u).contains(x) by {
            lemma_mask_list_membership(u, masks[t], el, x);
            let b = choose|b: int| 0 <= b < el && bit(masks[t], b as nat) && u[b] == x;
            assert(u.contains(u[b]));
        }
    }
    assert forall|s: Set<Seq<char>>| s.subset_of(names_of(u)) implies exists|t: int|
        0 <= t < masks.len() && names_of(mask_list(u, #[trigger] masks[t], el)) == s by {
        let m = mask_of(u, s, el);
        lemma_mask_of_below(u, s, el);
        assert(masks.contains(m));
        let t = choose|t: int| 0 <= t < masks.len() && masks[t] == m;
        assert forall|x: Seq<char>|
            names_of(mask_list(u, m, el)).contains(x) <==> s.contains(x) by {
            lemma_mask_list_membership(u, m, el, x);
            if s.contains(x) {
                assert(names_of(u).contains(x));
                let b = choose|b: int| 0 <= b < u.len() && u[b] == x;
                lemma_mask_of_bits(u, s, el, b as nat);
                assert(bit(m, b as nat) && u[b] == x);
            }
            if (exists|b: int| 0 <= b < el && bit(m, b as nat) && u[b] == x) {
                let b = choose|b: int| 0 <= b < el && bit(m, b as nat) && u[b] == x;
                lemma_mask_of_bits(u, s, el, b as nat);
            }
        }
        assert(names_of(mask_list(u, m, el)) =~= s);
        assert(names_of(mask_list(u, masks[t], el)) == s);
    }
    if crate::types::distinct_features(u) {
        assert forall|t1: int, t2: int| 0 <= t1 < t2 < masks.len() implies names_of(
            mask_list(u, masks[t1], el),
        ) != names_of(mask_list(u, masks[t2], el)) by {
            let m1 = masks[t1];
            let m2 = masks[t2];
            assert(masks.contains(m1) && masks.contains(m2));
            assert(m1 != m2);
            if names_of(mask_list(u, m1, el)) == names_of(mask_list(u, m2, el)) {
                assert forall|k: nat| k < el implies bit(m1, k) == bit(m2, k) by {
                    let x = u[k as int];
                    lemma_mask_list_membership(u, m1, el, x);
                    lemma_mask_list_membership(u, m2, el, x);
                    if bit(m1, k) {
                        assert(names_of(mask_list(u, m1, el)).contains(x));
                        let b = choose|b: int|
                            0 <= b < el && bit(m2, b as nat) && u[b] == x;
                        assert(b == k);
                    }
                    if bit(m2, k) {
                        assert(names_of(mask_list(u, m2, el)).contains(x));
                        let b = choose|b: int|
                            0 <= b < el && bit(m1, b as nat) && u[b] == x;
                        assert(b == k);
                    }
                }
                lemma_bits_determine(m1, m2, el);
                assert(false);
            }
        }
    }
}

/// The kept masks of a scan are exactly the scanned masks whose subsets
/// the pipeline accepts: every kept mask was scanned and is valid, and
/// every scanned valid mask is kept.
pub proof fn lemma_keep_scan_p_characterization(
    p: Package,
    u: Seq<Seq<char>>,
    free: Seq<SpecExpr>,
    masks: Seq<u64>,
    len: nat,
)
    ensures
        match keep_scan_p(p, u, free, masks, len) {
            Option::Some(kept) => (forall|t: int|
                0 <= t < kept.len() ==> masks.contains(#[trigger] kept[t]) && pipeline_result(
                    p,
                    u,
                    free,
                    names_of(mask_list(u, kept[t], len)),
                ) == Some(true)) && (forall|t: int|
                0 <= t < masks.len() ==> (pipeline_result(
                    p,
                    u,
                    free,
                    names_of(mask_list(u, #[trigger] masks[t], len)),
                ) == Some(true) ==> kept.contains(masks[t]))),
            Option::None => true,
        },
    decreases masks.len(),
{
    if masks.len() > 0 {
        lemma_keep_scan_p_characterization(p, u, free, masks.drop_last(), len);
        match keep_scan_p(p, u, free, masks.drop_last(), len) {
            Option::None => {},
            Option::Some(front) => {
                match pipeline_result(p, u, free, names_of(mask_list(u, masks.last(), len))) {
                    Option::None => {},
                    Option::Some(ok) => {
                        let kept = if ok {
                            front.push(masks.last())
                        } else {
                            front
                        };
                        assert forall|t: int| 0 <= t < kept.len() implies masks.contains(
                            #[trigger] kept[t],
                        ) && pipeline_result(p, u, free, names_of(mask_list(u, kept[t], len)))
                            == Some(true) by {
                            if t < front.len() {
                                assert(front[t] == kept[t]);
                                assert(masks.drop_last().contains(front[t]));
                                let i = choose|i: int|
                                    0 <= i < masks.drop_last().len() && masks.drop_last()[i]
                                        == front[t];
                                assert(masks[i] == front[t]);
                            } else {
                                assert(kept[t] == masks.last());
                                assert(masks[masks.len() - 1] == masks.last());
                            }
                        }
                        assert forall|t: int|
                            0 <= t < masks.len() && pipeline_result(
                                p,
                                u,
                                free,
                                names_of(mask_list(u, #[trigger] masks[t], len)),
                            ) == Some(true) implies kept.contains(masks[t]) by {
                            if t < masks.len() - 1 {
                                assert(masks.drop_last()[t] == masks[t]);
                                assert(front.contains(masks[t]));
                                let i = choose|i: int|
                                    0 <= i < front.len() && front[i] == masks[t];
                                assert(kept[i] == masks[t]);
                            } else {
                                assert(masks[t] == masks.last());
                                assert(ok);
                                assert(kept[kept.len() - 1] == masks.last());
                            }
                        }
                    },
                }
            },
        }
    }
}

/// What a mask's feature list holds: the universe members at its set
/// bits.
pub proof fn lemma_mask_list_membership(u: Seq<Seq<char>>, m: u64, bits: nat, x: Seq<char>)
    requires
        bits <= u.len(),
    ensures
        names_of(mask_list(u, m, bits)).contains(x) <==> exists|b: int|
            0 <= b < bits && bit(m, b as nat) && u[b] == x,
    decreases bits,
{
    if bits > 0 {
        lemma_mask_list_membership(u, m, (bits - 1) as nat, x);
        let front = mask_list(u, m, (bits - 1) as nat);
        let whole = mask_list(u, m, bits);
        if bit(m, (bits - 1) as nat) {
            assert(whole =~= front.push(u[bits - 1]));
            crate::types::lemma_names_push(front, u[bits - 1]);
            if names_of(whole).contains(x) {
                if x == u[bits - 1] {
                    assert(bit(m, (bits - 1) as nat) && u[bits - 1] == x);
                }
            }
            if (exists|b: int| 0 <= b < bits && bit(m, b as nat) && u[b] == x) {
                let b = choose|b: int| 0 <= b < bits && bit(m, b as nat) && u[b] == x;
                if b < bits - 1 {
                    assert(names_of(front).contains(x));
                }
            }
        } else {
            assert(whole =~= front);
            if (exists|b: int| 0 <= b < bits && bit(m, b as nat) && u[b] == x) {
                let b = choose|b: int| 0 <= b < bits && bit(m, b as nat) && u[b] == x;
                assert(b < bits - 1);
            }
        }
    } else {
        if (exists|b: int| 0 <= b < bits && bit(m, b as nat) && u[b] == x) {
            let b = choose|b: int| 0 <= b < bits && bit(m, b as nat) && u[b] == x;
            assert(false);
        }
        assert(mask_list(u, m, 0) =~= Seq::<Seq<char>>::empty());
        if names_of(mask_list(u, m, bits)).contains(x) {
            let i = choose|i: int|
                0 <= i < mask_list(u, m, bits).len() && mask_list(u, m, bits)[i] == x;
            assert(false);
        }
    }
}

} // verus!
