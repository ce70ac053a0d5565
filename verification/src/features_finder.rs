//! The candidate universe builder and the feature-set resolution entry
//! point.
//!
//! The universe of a package: with a non-empty allowlist, exactly the
//! allowlist. Otherwise, one feature per optional dependency (unless
//! skipped; excluding denylisted ones and dependencies activated with the
//! `dep:` mechanism from a different, explicit feature), then every
//! declared feature except `default`, double-underscore internal features,
//! denylisted ones and implicit optional-dependency features, then the
//! extra features (denylist-filtered) and the always-included features.
//! The first occurrence of a name wins: the result is duplicate-free with
//! a stable order.

use crate::cargo_metadata::{
    config_conflict, skip_opt, deny_always_overlap, dep_feature_name, Dependency, FeatureEntry,
    Package,
};
use crate::enumerator::{enumerated_masks, keep_scan, mask_list, rules_result_from};
use crate::errors::Errors;
use crate::rules::compile::{builtin_forms, compile_rules, form_sem, rule_matches_form, Rule};
use crate::rules::expr::{eval_spec, eval_spec_v, expr_view, lemma_eval_view, ExprResult, SpecExpr};
use crate::rules::parser::sp_parse_str;
use crate::types::{distinct_features, names_of, Feature, FeatureList};
use vstd::prelude::*;
use vstd::string::StrSliceExecFns;

verus! {

/// Whether the implied-feature text names an optional dependency with the
/// `dep:` prefix.
pub open spec fn has_dep_prefix(v: Seq<char>) -> bool {
    v.len() >= 4 && v.subrange(0, 4) == "dep:"@
}

/// The dependency name behind the `dep:` prefix.
pub open spec fn dep_stripped(v: Seq<char>) -> Seq<char> {
    v.subrange(4, v.len() as int)
}

/// A name that starts with the internal-feature marker, two underscores.
pub open spec fn double_underscore(v: Seq<char>) -> bool {
    v.len() >= 2 && v[0] == '_' && v[1] == '_'
}

/// The feature names of the optional dependencies, in dependency order.
pub open spec fn optional_dep_seq(deps: Seq<Dependency>) -> Seq<Seq<char>>
    decreases deps.len(),
{
    if deps.len() == 0 {
        Seq::empty()
    } else {
        optional_dep_seq(deps.drop_last()) + if deps.last().optional {
            seq![dep_feature_name(deps.last())]
        } else {
            Seq::empty()
        }
    }
}

/// The declared features without `default` and internal features.
pub open spec fn declared_seq(feats: Seq<Seq<char>>) -> Seq<Seq<char>>
    decreases feats.len(),
{
    if feats.len() == 0 {
        Seq::empty()
    } else {
        declared_seq(feats.drop_last()) + if feats.last() != "default"@ && !double_underscore(
            feats.last(),
        ) {
            seq![feats.last()]
        } else {
            Seq::empty()
        }
    }
}

/// Whether one feature-map entry is an implicit optional-dependency
/// feature: its only implied effect is activating its same-named
/// dependency.
pub open spec fn entry_implicit(e: FeatureEntry) -> bool {
    e.implied@.len() == 1 && has_dep_prefix(e.implied@[0]) && dep_stripped(e.implied@[0])
        == e.name@
}

/// The names of the implicit-shaped entries of the feature map.
pub open spec fn implicit_seq(map: Seq<FeatureEntry>) -> Seq<Seq<char>>
    decreases map.len(),
{
    if map.len() == 0 {
        Seq::empty()
    } else {
        implicit_seq(map.drop_last()) + if entry_implicit(map.last()) {
            seq![map.last().name@]
        } else {
            Seq::empty()
        }
    }
}

/// The dependencies an entry activates with `dep:` outside of the
/// implicit shape.
pub open spec fn entry_elsewhere(e: FeatureEntry, k: int) -> Seq<Seq<char>>
    decreases k,
{
    if k <= 0 {
        Seq::empty()
    } else {
        entry_elsewhere(e, k - 1) + if has_dep_prefix(e.implied@[k - 1]) && !(e.implied@.len() == 1
            && dep_stripped(e.implied@[k - 1]) == e.name@) {
            seq![dep_stripped(e.implied@[k - 1])]
        } else {
            Seq::empty()
        }
    }
}

/// All dependencies activated with `dep:` from an explicit feature.
pub open spec fn elsewhere_seq(map: Seq<FeatureEntry>) -> Seq<Seq<char>>
    decreases map.len(),
{
    if map.len() == 0 {
        Seq::empty()
    } else {
        elsewhere_seq(map.drop_last()) + entry_elsewhere(
            map.last(),
            map.last().implied@.len() as int,
        )
    }
}

/// The optional-dependency additions: optional dependencies not
/// denylisted and not activated from a different, explicit feature.
pub open spec fn step_optional(p: Package, elsewhere: Set<Seq<char>>) -> Seq<Seq<char>>
    decreases p.dependencies@.len(),
{
    step_optional_of(p.dependencies@, names_of(p.denylist@), elsewhere)
}

pub open spec fn step_optional_of(
    deps: Seq<Dependency>,
    deny: Set<Seq<char>>,
    elsewhere: Set<Seq<char>>,
) -> Seq<Seq<char>>
    decreases deps.len(),
{
    if deps.len() == 0 {
        Seq::empty()
    } else {
        step_optional_of(deps.drop_last(), deny, elsewhere) + if deps.last().optional
            && !deny.contains(dep_feature_name(deps.last())) && !elsewhere.contains(
            dep_feature_name(deps.last()),
        ) {
            seq![dep_feature_name(deps.last())]
        } else {
            Seq::empty()
        }
    }
}

/// The declared-feature additions: declared features that are not
/// `default`, internal, denylisted, implicit, or already always included.
pub open spec fn step_declared(p: Package, implicit_net: Set<Seq<char>>) -> Seq<Seq<char>>
    decreases p.features@.len(),
{
    step_declared_of(
        p.features@,
        names_of(p.denylist@),
        implicit_net,
        names_of(p.always_include_features@),
    )
}

pub open spec fn step_declared_of(
    feats: Seq<Seq<char>>,
    deny: Set<Seq<char>>,
    implicit_net: Set<Seq<char>>,
    always: Set<Seq<char>>,
) -> Seq<Seq<char>>
    decreases feats.len(),
{
    if feats.len() == 0 {
        Seq::empty()
    } else {
        step_declared_of(feats.drop_last(), deny, implicit_net, always) + if feats.last()
            != "default"@ && !double_underscore(feats.last()) && !deny.contains(feats.last())
            && !implicit_net.contains(feats.last()) && !always.contains(feats.last()) {
            seq![feats.last()]
        } else {
            Seq::empty()
        }
    }
}

/// The extra-feature additions, denylist-filtered.
pub open spec fn step_extra(p: Package) -> Seq<Seq<char>>
    decreases p.extra_features@.len(),
{
    step_extra_of(p.extra_features@, names_of(p.denylist@))
}

pub open spec fn step_extra_of(feats: Seq<Seq<char>>, deny: Set<Seq<char>>) -> Seq<Seq<char>>
    decreases feats.len(),
{
    if feats.len() == 0 {
        Seq::empty()
    } else {
        step_extra_of(feats.drop_last(), deny) + if !deny.contains(feats.last()) {
            seq![feats.last()]
        } else {
            Seq::empty()
        }
    }
}

/// The net implicit features: implicit-shaped entries whose dependency is
/// not also activated from another feature.
pub open spec fn implicit_net_set(p: Package) -> Set<Seq<char>> {
    names_of(implicit_seq(p.feature_map@)).difference(names_of(elsewhere_seq(p.feature_map@)))
}

/// The ordered candidate names before de-duplication.
pub open spec fn candidate_seq(p: Package) -> Seq<Seq<char>> {
    if p.allowlist@.len() > 0 {
        p.allowlist@
    } else {
        (if !skip_opt(p) {
            step_optional(p, names_of(elsewhere_seq(p.feature_map@)))
        } else {
            Seq::empty()
        }) + step_declared(p, implicit_net_set(p)) + step_extra(p) + p.always_include_features@
    }
}

/// First occurrence of each name wins.
pub open spec fn dedup(s: Seq<Seq<char>>) -> Seq<Seq<char>>
    decreases s.len(),
{
    if s.len() == 0 {
        Seq::empty()
    } else {
        let front = dedup(s.drop_last());
        if names_of(front).contains(s.last()) {
            front
        } else {
            front.push(s.last())
        }
    }
}

/// The candidate universe of a package: ordered and duplicate-free.
pub open spec fn universe_seq(p: Package) -> Seq<Seq<char>> {
    dedup(candidate_seq(p))
}

fn has_dep_prefix_exec(f: &Feature) -> (r: bool)
    ensures
        r == has_dep_prefix(f@),
{
    let n = f.0.as_str().unicode_len();
    if n < 4 {
        return false;
    }
    proof {
        reveal_strlit("dep:");
    }
    let s = f.0.as_str();
    let r = s.get_char(0) == 'd' && s.get_char(1) == 'e' && s.get_char(2) == 'p' && s.get_char(3)
        == ':';
    if r {
        assert(f@.subrange(0, 4) =~= "dep:"@);
    } else {
        assert(f@.subrange(0, 4) != "dep:"@) by {
            if f@.subrange(0, 4) == "dep:"@ {
                assert(f@.subrange(0, 4)[0] == 'd' && f@.subrange(0, 4)[1] == 'e' && f@.subrange(
                    0,
                    4,
                )[2] == 'p' && f@.subrange(0, 4)[3] == ':');
            }
        }
    }
    r
}

fn strip_dep(f: &Feature) -> (r: Feature)
    requires
        has_dep_prefix(f@),
    ensures
        r@ == dep_stripped(f@),
{
    let n = f.0.as_str().unicode_len();
    Feature(f.0.as_str().substring_char(4, n).to_owned())
}

fn is_double_underscore(f: &Feature) -> (r: bool)
    ensures
        r == double_underscore(f@),
{
    let n = f.0.as_str().unicode_len();
    if n < 2 {
        return false;
    }
    f.0.as_str().get_char(0) == '_' && f.0.as_str().get_char(1) == '_'
}

/// The features the optional dependencies surface as, in dependency
/// order.
pub fn fetch_optional_dependencies(package: &Package) -> (r: FeatureList)
    ensures
        r@ == optional_dep_seq(package.dependencies@),
{
    let mut r = FeatureList::new();
    let mut i: usize = 0;
    while i < package.dependencies.len()
        invariant
            i <= package.dependencies@.len(),
            r@ == optional_dep_seq(package.dependencies@.take(i as int)),
        decreases package.dependencies@.len() - i,
    {
        assert(package.dependencies@.take(i + 1).drop_last() =~= package.dependencies@.take(
            i as int,
        ));
        assert(package.dependencies@.take(i + 1).last() == package.dependencies@[i as int]);
        match package.dependencies[i].as_feature() {
            Option::Some(f) => {
                let ghost pre = r@;
                r.push(f);
                assert(r@ =~= pre + seq![dep_feature_name(package.dependencies@[i as int])]);
            },
            Option::None => {
                assert(r@ =~= r@ + Seq::<Seq<char>>::empty());
            },
        }
        i += 1;
    }
    assert(package.dependencies@.take(package.dependencies@.len() as int)
        =~= package.dependencies@);
    r
}

/// The declared features without `default` and internal features, in
/// declaration order.
pub fn fetch_features(package: &Package) -> (r: FeatureList)
    ensures
        r@ == declared_seq(package.features@),
{
    let mut r = FeatureList::new();
    let mut i: usize = 0;
    while i < package.features.len()
        invariant
            i <= package.features@.len(),
            r@ == declared_seq(package.features@.take(i as int)),
        decreases package.features@.len() - i,
    {
        assert(package.features@.take(i + 1).drop_last() =~= package.features@.take(i as int));
        assert(package.features@.take(i + 1).last() == package.features@[i as int]);
        let f = package.features.get(i);
        if !f.is("default") && !is_double_underscore(f) {
            let ghost pre = r@;
            r.push(f.clone());
            assert(r@ =~= pre + seq![package.features@[i as int]]);
        } else {
            assert(r@ =~= r@ + Seq::<Seq<char>>::empty());
        }
        i += 1;
    }
    assert(package.features@.take(package.features@.len() as int) =~= package.features@);
    r
}

/// Classifies the feature map: the implicit-shaped feature names, and the
/// dependencies activated with `dep:` from a different, explicit feature.
fn classify_feature_map(package: &Package) -> (r: (FeatureList, FeatureList))
    ensures
        r.0@ == implicit_seq(package.feature_map@),
        r.1@ == elsewhere_seq(package.feature_map@),
{
    let mut implicit = FeatureList::new();
    let mut elsewhere = FeatureList::new();
    let mut i: usize = 0;
    while i < package.feature_map.len()
        invariant
            i <= package.feature_map@.len(),
            implicit@ == implicit_seq(package.feature_map@.take(i as int)),
            elsewhere@ == elsewhere_seq(package.feature_map@.take(i as int)),
        decreases package.feature_map@.len() - i,
    {
        assert(package.feature_map@.take(i + 1).drop_last() =~= package.feature_map@.take(
            i as int,
        ));
        assert(package.feature_map@.take(i + 1).last() == package.feature_map@[i as int]);
        let entry = &package.feature_map[i];
        let ghost e = package.feature_map@[i as int];
        // The implicit shape: exactly one implied entry, `dep:` of itself.
        if entry.implied.len() == 1 && has_dep_prefix_exec(entry.implied.get(0)) {
            let stripped = strip_dep(entry.implied.get(0));
            if stripped.same(&entry.name) {
                let ghost pre = implicit@;
                implicit.push(entry.name.clone());
                assert(entry_implicit(e));
                assert(implicit@ =~= pre + seq![e.name@]);
            } else {
                assert(!entry_implicit(e));
                assert(implicit@ =~= implicit@ + Seq::<Seq<char>>::empty());
            }
        } else {
            assert(!entry_implicit(e));
            assert(implicit@ =~= implicit@ + Seq::<Seq<char>>::empty());
        }
        // Everything this entry activates with `dep:` outside that shape.
        let mut k: usize = 0;
        let ghost pre_elsewhere = elsewhere@;
        while k < entry.implied.len()
            invariant
                k <= entry.implied@.len(),
                e == package.feature_map@[i as int],
                i < package.feature_map@.len(),
                entry == &package.feature_map@[i as int],
                elsewhere@ == pre_elsewhere + entry_elsewhere(e, k as int),
            decreases entry.implied@.len() - k,
        {
            let v = entry.implied.get(k);
            if has_dep_prefix_exec(v) {
                let stripped = strip_dep(v);
                if !(entry.implied.len() == 1 && stripped.same(&entry.name)) {
                    let ghost pre = elsewhere@;
                    elsewhere.push(stripped);
                    assert(elsewhere@ =~= pre + seq![dep_stripped(e.implied@[k as int])]);
                } else {
                    assert(elsewhere@ =~= elsewhere@ + Seq::<Seq<char>>::empty());
                }
            } else {
                assert(elsewhere@ =~= elsewhere@ + Seq::<Seq<char>>::empty());
            }
            k += 1;
        }
        assert(elsewhere@ =~= elsewhere_seq(package.feature_map@.take(i + 1)));
        i += 1;
    }
    assert(package.feature_map@.take(package.feature_map@.len() as int)
        =~= package.feature_map@);
    (implicit, elsewhere)
}

/// Builds the candidate universe of the package: allowlist, or the
/// derivation steps, de-duplicated in first-occurrence order.
pub fn build_universe(package: &Package) -> (r: FeatureList)
    ensures
        r@ == universe_seq(*package),
        distinct_features(r@),
{
    let mut cand = FeatureList::new();
    if !package.allowlist.is_empty() {
        let mut i: usize = 0;
        while i < package.allowlist.len()
            invariant
                i <= package.allowlist@.len(),
                cand@ == package.allowlist@.take(i as int),
            decreases package.allowlist@.len() - i,
        {
            let ghost pre = cand@;
            cand.push(package.allowlist.get(i).clone());
            assert(cand@ =~= package.allowlist@.take(i + 1));
            i += 1;
        }
        assert(cand@ =~= package.allowlist@);
    } else {
        let (implicit, elsewhere) = classify_feature_map(package);
        let ghost implicit_net = implicit_net_set(*package);
        if !package.skips_optional_dependencies() {
            let mut i: usize = 0;
            while i < package.dependencies.len()
                invariant
                    i <= package.dependencies@.len(),
                    elsewhere@ == elsewhere_seq(package.feature_map@),
                    cand@ == step_optional_of(
                        package.dependencies@.take(i as int),
                        names_of(package.denylist@),
                        names_of(elsewhere_seq(package.feature_map@)),
                    ),
                decreases package.dependencies@.len() - i,
            {
                assert(package.dependencies@.take(i + 1).drop_last()
                    =~= package.dependencies@.take(i as int));
                assert(package.dependencies@.take(i + 1).last()
                    == package.dependencies@[i as int]);
                match package.dependencies[i].as_feature() {
                    Option::Some(f) => {
                        if !package.denylist.contains(&f) && !elsewhere.contains(&f) {
                            let ghost pre = cand@;
                            cand.push(f);
                            assert(cand@ =~= pre + seq![
                                dep_feature_name(package.dependencies@[i as int]),
                            ]);
                        } else {
                            assert(cand@ =~= cand@ + Seq::<Seq<char>>::empty());
                        }
                    },
                    Option::None => {
                        assert(cand@ =~= cand@ + Seq::<Seq<char>>::empty());
                    },
                }
                i += 1;
            }
            assert(package.dependencies@.take(package.dependencies@.len() as int)
                =~= package.dependencies@);
            assert(cand@ == step_optional(*package, names_of(elsewhere_seq(package.feature_map@))));
        }
        let ghost after_opt = cand@;
        assert(after_opt =~= (if !skip_opt(*package) {
            step_optional(*package, names_of(elsewhere_seq(package.feature_map@)))
        } else {
            Seq::<Seq<char>>::empty()
        }));
        let mut i: usize = 0;
        while i < package.features.len()
            invariant
                i <= package.features@.len(),
                implicit@ == implicit_seq(package.feature_map@),
                elsewhere@ == elsewhere_seq(package.feature_map@),
                implicit_net == implicit_net_set(*package),
                cand@ == after_opt + step_declared_of(
                    package.features@.take(i as int),
                    names_of(package.denylist@),
                    implicit_net,
                    names_of(package.always_include_features@),
                ),
            decreases package.features@.len() - i,
        {
            assert(package.features@.take(i + 1).drop_last() =~= package.features@.take(i as int));
            assert(package.features@.take(i + 1).last() == package.features@[i as int]);
            let f = package.features.get(i);
            let is_implicit_net = implicit.contains(f) && !elsewhere.contains(f);
            assert(is_implicit_net == implicit_net.contains(f@));
            if !f.is("default") && !is_double_underscore(f) && !package.denylist.contains(f)
                && !is_implicit_net && !package.always_include_features.contains(f) {
                let ghost pre = cand@;
                cand.push(f.clone());
                assert(cand@ =~= pre + seq![package.features@[i as int]]);
            } else {
                assert(cand@ =~= cand@ + Seq::<Seq<char>>::empty());
            }
            i += 1;
        }
        assert(package.features@.take(package.features@.len() as int) =~= package.features@);
        let ghost after_decl = cand@;
        assert(after_decl == after_opt + step_declared(*package, implicit_net_set(*package)));
        let mut i: usize = 0;
        while i < package.extra_features.len()
            invariant
                i <= package.extra_features@.len(),
                cand@ == after_decl + step_extra_of(
                    package.extra_features@.take(i as int),
                    names_of(package.denylist@),
                ),
            decreases package.extra_features@.len() - i,
        {
            assert(package.extra_features@.take(i + 1).drop_last()
                =~= package.extra_features@.take(i as int));
            assert(package.extra_features@.take(i + 1).last()
                == package.extra_features@[i as int]);
            let f = package.extra_features.get(i);
            if !package.denylist.contains(f) {
                let ghost pre = cand@;
                cand.push(f.clone());
                assert(cand@ =~= pre + seq![package.extra_features@[i as int]]);
            } else {
                assert(cand@ =~= cand@ + Seq::<Seq<char>>::empty());
            }
            i += 1;
        }
        assert(package.extra_features@.take(package.extra_features@.len() as int)
            =~= package.extra_features@);
        let ghost after_extra = cand@;
        let mut i: usize = 0;
        while i < package.always_include_features.len()
            invariant
                i <= package.always_include_features@.len(),
                cand@ == after_extra + package.always_include_features@.take(i as int),
            decreases package.always_include_features@.len() - i,
        {
            let ghost pre = cand@;
            cand.push(package.always_include_features.get(i).clone());
            assert(cand@ =~= pre + seq![package.always_include_features@[i as int]]);
            assert(package.always_include_features@.take(i + 1)
                =~= package.always_include_features@.take(i as int).push(
                package.always_include_features@[i as int],
            ));
            assert(cand@ =~= after_extra + package.always_include_features@.take(i + 1));
            i += 1;
        }
        assert(package.always_include_features@.take(package.always_include_features@.len() as int)
            =~= package.always_include_features@);
        assert(cand@ =~= candidate_seq(*package));
    }
    assert(cand@ == candidate_seq(*package));

    let mut universe = FeatureList::new();
    let mut i: usize = 0;
    while i < cand.len()
        invariant
            i <= cand@.len(),
            universe@ == dedup(cand@.take(i as int)),
            distinct_features(universe@),
        decreases cand@.len() - i,
    {
        assert(cand@.take(i + 1).drop_last() =~= cand@.take(i as int));
        assert(cand@.take(i + 1).last() == cand@[i as int]);
        universe.push_if_absent(cand.get(i).clone());
        assert(universe@ == dedup(cand@.take(i + 1)));
        i += 1;
    }
    assert(cand@.take(cand@.len() as int) =~= cand@);
    universe
}

/// The shapes of the free-form rule strings, parsed; `None` when one does
/// not parse.
pub open spec fn free_parse(texts: Seq<String>) -> Option<Seq<SpecExpr>>
    decreases texts.len(),
{
    if texts.len() == 0 {
        Some(Seq::empty())
    } else {
        match free_parse(texts.drop_last()) {
            Option::None => Option::None,
            Option::Some(front) => match sp_parse_str(texts.last()@) {
                Option::None => Option::None,
                Option::Some(e) => Some(front.push(e)),
            },
        }
    }
}

/// All built-in rules of the package hold on the feature set.
pub open spec fn builtin_all(p: Package, u: Seq<Seq<char>>, fs: Set<Seq<char>>) -> bool {
    forall|i: int|
        0 <= i < builtin_forms(p, u).len() ==> form_sem(
            (#[trigger] builtin_forms(p, u)[i]).cond,
            fs,
        )
}

/// What the free-form rules from `k` on say about a feature set.
pub open spec fn free_scan_from(free: Seq<SpecExpr>, k: int, fs: Set<Seq<char>>) -> Option<bool>
    decreases free.len() - k,
{
    if k < 0 || k >= free.len() {
        Some(true)
    } else {
        match eval_spec_v(free[k], fs) {
            Option::Some(ExprResult::Bool(false)) => Some(false),
            Option::Some(ExprResult::Bool(true)) => free_scan_from(free, k + 1, fs),
            _ => Option::None,
        }
    }
}

/// What the whole rule list of the package says about a feature set: all
/// built-in rules (which never error), then the free-form rules in order.
pub open spec fn pipeline_result(
    p: Package,
    u: Seq<Seq<char>>,
    free: Seq<SpecExpr>,
    fs: Set<Seq<char>>,
) -> Option<bool> {
    if !builtin_all(p, u, fs) {
        Some(false)
    } else {
        free_scan_from(free, 0, fs)
    }
}

/// The mask scan of the whole pipeline: `None` on the first rule type
/// error, else the masks of the valid subsets.
pub open spec fn keep_scan_p(
    p: Package,
    u: Seq<Seq<char>>,
    free: Seq<SpecExpr>,
    masks: Seq<u64>,
    L: nat,
) -> Option<Seq<u64>>
    decreases masks.len(),
{
    if masks.len() == 0 {
        Some(Seq::empty())
    } else {
        match keep_scan_p(p, u, free, masks.drop_last(), L) {
            Option::None => Option::None,
            Option::Some(kept) => match pipeline_result(
                p,
                u,
                free,
                names_of(mask_list(u, masks.last(), L)),
            ) {
                Option::None => Option::None,
                Option::Some(true) => Some(kept.push(masks.last())),
                Option::Some(false) => Some(kept),
            },
        }
    }
}

/// The effective combination-size bound: the configured bound, capped by
/// the universe size, which is also the default.
pub open spec fn eff_max(p: Package, len: nat) -> nat {
    match p.max_combination_size {
        Option::Some(m) => if m < len {
            m as nat
        } else {
            len
        },
        Option::None => len,
    }
}

proof fn lemma_free_tail(
    rules: Seq<Rule>,
    free: Seq<SpecExpr>,
    nb: int,
    k: int,
    fs: Set<Seq<char>>,
)
    requires
        0 <= nb <= k <= rules.len(),
        rules.len() == nb + free.len(),
        forall|j: int|
            0 <= j < free.len() ==> expr_view((#[trigger] rules[nb + j]).expr) == free[j],
    ensures
        rules_result_from(rules, k, fs) == free_scan_from(free, k - nb, fs),
    decreases rules.len() - k,
{
    if k < rules.len() {
        assert(expr_view(rules[nb + (k - nb)].expr) == free[k - nb]);
        lemma_eval_view(rules[k].expr, fs);
        lemma_free_tail(rules, free, nb, k + 1, fs);
    }
}

proof fn lemma_builtin_tail(
    p: Package,
    u: Seq<Seq<char>>,
    rules: Seq<Rule>,
    free: Seq<SpecExpr>,
    k: int,
    fs: Set<Seq<char>>,
)
    requires
        0 <= k <= builtin_forms(p, u).len(),
        rules.len() == builtin_forms(p, u).len() + free.len(),
        forall|i: int|
            0 <= i < builtin_forms(p, u).len() ==> rule_matches_form(
                #[trigger] rules[i],
                builtin_forms(p, u)[i],
            ),
        forall|j: int|
            0 <= j < free.len() ==> expr_view(
                (#[trigger] rules[builtin_forms(p, u).len() + j]).expr,
            ) == free[j],
    ensures
        rules_result_from(rules, k, fs) == if (forall|i: int|
            k <= i < builtin_forms(p, u).len() ==> form_sem(
                (#[trigger] builtin_forms(p, u)[i]).cond,
                fs,
            )) {
            free_scan_from(free, 0, fs)
        } else {
            Some(false)
        },
    decreases builtin_forms(p, u).len() - k,
{
    let nb = builtin_forms(p, u).len() as int;
    if k == nb {
        lemma_free_tail(rules, free, nb, nb, fs);
    } else {
        assert(rule_matches_form(rules[k], builtin_forms(p, u)[k]));
        assert(eval_spec(rules[k].expr, fs) == Some(
            ExprResult::Bool(form_sem(builtin_forms(p, u)[k].cond, fs)),
        ));
        lemma_builtin_tail(p, u, rules, free, k + 1, fs);
        if form_sem(builtin_forms(p, u)[k].cond, fs) {
            assert((forall|i: int|
                k <= i < nb ==> form_sem((#[trigger] builtin_forms(p, u)[i]).cond, fs))
                == (forall|i: int|
                k + 1 <= i < nb ==> form_sem((#[trigger] builtin_forms(p, u)[i]).cond, fs))) by {
                if (forall|i: int|
                    k + 1 <= i < nb ==> form_sem((#[trigger] builtin_forms(p, u)[i]).cond, fs)) {
                    assert forall|i: int| k <= i < nb implies form_sem(
                        (#[trigger] builtin_forms(p, u)[i]).cond,
                        fs,
                    ) by {
                        if i == k {
                        } else {
                            assert(form_sem(builtin_forms(p, u)[i].cond, fs));
                        }
                    }
                }
            }
        } else {
            assert(!(forall|i: int|
                k <= i < nb ==> form_sem((#[trigger] builtin_forms(p, u)[i]).cond, fs)));
        }
    }
}

/// A compiled rule list and the pipeline say the same of every feature
/// set.
proof fn lemma_rules_vs_pipeline(
    p: Package,
    u: Seq<Seq<char>>,
    rules: Seq<Rule>,
    free: Seq<SpecExpr>,
    fs: Set<Seq<char>>,
)
    requires
        rules.len() == builtin_forms(p, u).len() + free.len(),
        forall|i: int|
            0 <= i < builtin_forms(p, u).len() ==> rule_matches_form(
                #[trigger] rules[i],
                builtin_forms(p, u)[i],
            ),
        forall|j: int|
            0 <= j < free.len() ==> expr_view(
                (#[trigger] rules[builtin_forms(p, u).len() + j]).expr,
            ) == free[j],
    ensures
        crate::enumerator::rules_result(rules, fs) == pipeline_result(p, u, free, fs),
{
    lemma_builtin_tail(p, u, rules, free, 0, fs);
}

/// A compiled rule list and the pipeline keep the same masks.
proof fn lemma_keep_vs(
    p: Package,
    u: Seq<Seq<char>>,
    rules: Seq<Rule>,
    free: Seq<SpecExpr>,
    masks: Seq<u64>,
    len: nat,
)
    requires
        rules.len() == builtin_forms(p, u).len() + free.len(),
        forall|i: int|
            0 <= i < builtin_forms(p, u).len() ==> rule_matches_form(
                #[trigger] rules[i],
                builtin_forms(p, u)[i],
            ),
        forall|j: int|
            0 <= j < free.len() ==> expr_view(
                (#[trigger] rules[builtin_forms(p, u).len() + j]).expr,
            ) == free[j],
    ensures
        keep_scan(u, rules, masks, len) == keep_scan_p(p, u, free, masks, len),
    decreases masks.len(),
{
    if masks.len() > 0 {
        lemma_keep_vs(p, u, rules, free, masks.drop_last(), len);
        lemma_rules_vs_pipeline(p, u, rules, free, names_of(mask_list(u, masks.last(), len)));
    }
}

/// `free_parse` succeeds exactly when every rule string parses, and then
/// holds the parses in order.
proof fn lemma_free_parse(texts: Seq<String>)
    ensures
        (free_parse(texts) is Some) <==> (forall|j: int|
            0 <= j < texts.len() ==> sp_parse_str((#[trigger] texts[j])@) is Some),
        free_parse(texts) is Some ==> free_parse(texts)->Some_0.len() == texts.len() && forall|
            j: int,
        |
            0 <= j < texts.len() ==> free_parse(texts)->Some_0[j] == sp_parse_str(
                (#[trigger] texts[j])@,
            )->Some_0,
    decreases texts.len(),
{
    if texts.len() > 0 {
        lemma_free_parse(texts.drop_last());
        assert(forall|j: int|
            0 <= j < texts.len() - 1 ==> texts.drop_last()[j] == #[trigger] texts[j]);
        if (forall|j: int|
            0 <= j < texts.len() ==> sp_parse_str((#[trigger] texts[j])@) is Some) {
            assert(forall|j: int|
                0 <= j < texts.drop_last().len() ==> sp_parse_str(
                    (#[trigger] texts.drop_last()[j])@,
                ) is Some);
        }
        if free_parse(texts) is Some {
            assert(free_parse(texts.drop_last()) is Some);
            assert(sp_parse_str(texts.last()@) is Some);
            assert(texts[texts.len() - 1] == texts.last());
        }
    }
}

impl Package {
    /// The feature sets to run on for this package; see
    /// `fetch_feature_sets`.
    pub fn feature_sets(&self) -> (r: Result<Vec<FeatureList>, Errors>)
        ensures
            ({
                let u = universe_seq(*self);
                let el = u.len();
                let masks = enumerated_masks(el, eff_max(*self, el));
                match r {
                    Result::Ok(sets) => {
                        &&& !config_conflict(*self)
                        &&& !deny_always_overlap(*self)
                        &&& el < 64
                        &&& free_parse(self.rules@) is Some
                        &&& match keep_scan_p(
                            *self,
                            u,
                            free_parse(self.rules@)->Some_0,
                            masks,
                            el,
                        ) {
                            Option::Some(kept) => sets@.len() == kept.len() && forall|i: int|
                                0 <= i < kept.len() ==> (#[trigger] sets@[i])@ == mask_list(
                                    u,
                                    kept[i],
                                    el,
                                ),
                            Option::None => false,
                        }
                    },
                    Result::Err(_) => true,
                }
            }),
    {
        fetch_feature_sets(self)
    }
}

/// Resolves the feature sets of one package: validates the configuration,
/// derives the candidate universe, compiles the rules, and enumerates
/// every subset up to the size bound that satisfies all rules. An empty
/// result with at least one rule reports the greedy filtering trace.
pub fn fetch_feature_sets(package: &Package) -> (r: Result<Vec<FeatureList>, Errors>)
    ensures
        ({
            let u = universe_seq(*package);
            let el = u.len();
            let masks = enumerated_masks(el, eff_max(*package, el));
            match r {
                Result::Ok(sets) => {
                    &&& !config_conflict(*package)
                    &&& !deny_always_overlap(*package)
                    &&& el < 64
                    &&& free_parse(package.rules@) is Some
                    &&& match keep_scan_p(
                        *package,
                        u,
                        free_parse(package.rules@)->Some_0,
                        masks,
                        el,
                    ) {
                        Option::Some(kept) => {
                            &&& sets@.len() == kept.len()
                            &&& forall|i: int|
                                0 <= i < kept.len() ==> (#[trigger] sets@[i])@ == mask_list(
                                    u,
                                    kept[i],
                                    el,
                                )
                            &&& (kept.len() > 0 || (builtin_forms(*package, u).len() == 0
                                && package.rules@.len() == 0))
                        },
                        Option::None => false,
                    }
                },
                Result::Err(e) => {
                    ||| (e is ValidationFailed && (config_conflict(*package)
                        || deny_always_overlap(*package) || el >= 64))
                    ||| (e is RuleParseFailed && free_parse(package.rules@) is None)
                    ||| (e is RuleEvaluationFailed && free_parse(package.rules@) is Some && (
                    keep_scan_p(*package, u, free_parse(package.rules@)->Some_0, masks, el) is None
                        || keep_scan_p(*package, u, free_parse(package.rules@)->Some_0, masks, el)
                        == Some(Seq::<u64>::empty())))
                    ||| (e is NoValidFeatureSets && keep_scan_p(
                        *package,
                        u,
                        free_parse(package.rules@)->Some_0,
                        masks,
                        el,
                    ) == Some(Seq::<u64>::empty()) && builtin_forms(*package, u).len()
                        + package.rules@.len() > 0)
                },
            }
        }),
{
    match package.validate() {
        Result::Err(e) => {
            return Err(e);
        },
        Result::Ok(()) => {},
    }
    let universe = build_universe(package);
    let el = universe.len();
    if el >= 64 {
        let mut m = String::new();
        m.append("too many candidate features to enumerate");
        return Err(Errors::ValidationFailed { message: m });
    }
    let max_size = match package.max_combination_size {
        Option::Some(m) => if m < el {
            m
        } else {
            el
        },
        Option::None => el,
    };
    assert(max_size as nat == eff_max(*package, universe@.len()));
    let rules = match compile_rules(package, &universe) {
        Result::Ok(rules) => rules,
        Result::Err(e) => {
            proof {
                lemma_free_parse(package.rules@);
            }
            return Err(e);
        },
    };
    proof {
        lemma_free_parse(package.rules@);
        assert forall|j: int|
            0 <= j < package.rules@.len() implies sp_parse_str(
            (#[trigger] package.rules@[j])@,
        ) is Some by {
            assert(rules@[builtin_forms(*package, universe@).len() + j].name@
                == package.rules@[j]@);
        }
        assert(free_parse(package.rules@) is Some);
    }
    let ghost free = free_parse(package.rules@)->Some_0;
    proof {
        assert forall|j: int|
            0 <= j < free.len() implies expr_view(
            (#[trigger] rules@[builtin_forms(*package, universe@).len() + j]).expr,
        ) == free[j] by {
            assert(sp_parse_str(package.rules@[j]@) == Some(
                expr_view(rules@[builtin_forms(*package, universe@).len() + j].expr),
            ));
            assert(free[j] == sp_parse_str((package.rules@[j])@)->Some_0);
        }
        lemma_keep_vs(
            *package,
            universe@,
            rules@,
            free,
            enumerated_masks(universe@.len(), max_size as nat),
            universe@.len(),
        );
    }
    let sets = match crate::enumerator::enumerate_feature_sets(&universe, &rules, max_size) {
        Result::Ok(sets) => sets,
        Result::Err(m) => {
            return Err(Errors::RuleEvaluationFailed { message: m });
        },
    };
    if sets.len() == 0 && rules.len() > 0 {
        let ghost kept = keep_scan_p(
            *package,
            universe@,
            free,
            enumerated_masks(universe@.len(), max_size as nat),
            universe@.len(),
        )->Some_0;
        assert(kept =~= Seq::<u64>::empty());
        match crate::diagnostics::report_greedy_rule_filtering(&universe, &rules, max_size) {
            Result::Ok(report) => {
                return Err(Errors::NoValidFeatureSets { report });
            },
            Result::Err(m) => {
                return Err(Errors::RuleEvaluationFailed { message: m });
            },
        }
    }
    Ok(sets)
}

} // verus!
