//! Compiles the declarative settings of a package into the uniform rule
//! list, in a fixed order: one implication rule per feature-map entry with
//! a non-empty implied list (filtered to universe members), then the
//! optional-dependency skip rule, the denylist rule, the always-include
//! rule, one conflict rule per skip entry, and finally the free-form rule
//! strings, parsed.

use crate::cargo_metadata::{dep_feature_name, skip_opt, FeatureEntry, Package};
use crate::errors::Errors;
use crate::rules::expr::{eval_spec, expr_view, Expr, ExprResult};
use crate::rules::new_rule;
use crate::rules::new_rule::{all_present, any_present};
use crate::rules::parser::sp_parse_str;
use crate::types::{comma_join, names_of, Feature, FeatureList};
use vstd::prelude::*;
use vstd::string::StringExecFns;

verus! {

/// One named constraint over a feature set. All rules must evaluate to
/// true for a subset to be valid.
pub struct Rule {
    pub name: String,
    pub expr: Expr,
}

/// The logical condition of one built-in rule.
pub ghost enum RuleCond {
    /// The feature implies all of the listed features.
    Imp { lhs: Seq<char>, rhs: Seq<Seq<char>> },
    /// None of the listed features is present.
    NotAnyOf { feats: Seq<Seq<char>> },
    /// All of the listed features are present.
    AllOf { feats: Seq<Seq<char>> },
    /// Not all of the listed features are present together.
    NotAllOf { feats: Seq<Seq<char>> },
}

/// A built-in rule in mathematical form: its name and its condition.
pub ghost struct RuleForm {
    pub name: Seq<char>,
    pub cond: RuleCond,
}

/// What a built-in rule condition means on a feature set.
pub open spec fn form_sem(c: RuleCond, fs: Set<Seq<char>>) -> bool {
    match c {
        RuleCond::Imp { lhs, rhs } => fs.contains(lhs) ==> all_present(rhs, fs),
        RuleCond::NotAnyOf { feats } => !any_present(feats, fs),
        RuleCond::AllOf { feats } => all_present(feats, fs),
        RuleCond::NotAllOf { feats } => !all_present(feats, fs),
    }
}

/// A compiled rule realizes a form: same name, and its expression
/// evaluates to the form's condition on every feature set.
pub open spec fn rule_matches_form(r: Rule, f: RuleForm) -> bool {
    &&& r.name@ == f.name
    &&& forall|fs: Set<Seq<char>>|
        eval_spec(r.expr, fs) == Some(ExprResult::Bool(form_sem(f.cond, fs)))
}

/// The features of the list that belong to the universe, in list order.
pub open spec fn in_universe_filter(feats: Seq<Seq<char>>, universe: Set<Seq<char>>) -> Seq<
    Seq<char>,
>
    decreases feats.len(),
{
    if feats.len() == 0 {
        Seq::empty()
    } else {
        in_universe_filter(feats.drop_last(), universe) + if universe.contains(feats.last()) {
            seq![feats.last()]
        } else {
            Seq::empty()
        }
    }
}

/// The implication form of one feature-map entry: none when the implied
/// list holds no universe member.
pub open spec fn entry_forms(e: FeatureEntry, universe: Seq<Seq<char>>) -> Seq<RuleForm> {
    let rhs = in_universe_filter(e.implied@, names_of(universe));
    if rhs.len() == 0 {
        Seq::empty()
    } else {
        seq![
            RuleForm {
                name: "implication:"@ + e.name@,
                cond: RuleCond::Imp { lhs: e.name@, rhs },
            },
        ]
    }
}

/// The implication forms of the whole feature map, in map order.
pub open spec fn implication_forms(map: Seq<FeatureEntry>, universe: Seq<Seq<char>>) -> Seq<
    RuleForm,
>
    decreases map.len(),
{
    if map.len() == 0 {
        Seq::empty()
    } else {
        implication_forms(map.drop_last(), universe) + entry_forms(map.last(), universe)
    }
}

/// The optional-dependency features that are not extra features: what the
/// skip rule forbids.
pub open spec fn skip_opt_feats(p: Package) -> Seq<Seq<char>>
    decreases p.dependencies@.len(),
{
    skip_opt_feats_of(p.dependencies@, names_of(p.extra_features@))
}

pub open spec fn skip_opt_feats_of(
    deps: Seq<crate::cargo_metadata::Dependency>,
    extra: Set<Seq<char>>,
) -> Seq<Seq<char>>
    decreases deps.len(),
{
    if deps.len() == 0 {
        Seq::empty()
    } else {
        skip_opt_feats_of(deps.drop_last(), extra) + if deps.last().optional && !extra.contains(
            dep_feature_name(deps.last()),
        ) {
            seq![dep_feature_name(deps.last())]
        } else {
            Seq::empty()
        }
    }
}

/// The conflict forms of the skip entries, in order; empty entries make
/// no rule.
pub open spec fn conflict_forms(entries: Seq<FeatureList>) -> Seq<RuleForm>
    decreases entries.len(),
{
    if entries.len() == 0 {
        Seq::empty()
    } else {
        conflict_forms(entries.drop_last()) + if entries.last()@.len() == 0 {
            Seq::empty()
        } else {
            seq![
                RuleForm {
                    name: "conflict:"@ + comma_join(entries.last()@),
                    cond: RuleCond::NotAllOf { feats: entries.last()@ },
                },
            ]
        }
    }
}

/// All built-in forms of a package, in compilation order.
pub open spec fn builtin_forms(p: Package, universe: Seq<Seq<char>>) -> Seq<RuleForm> {
    implication_forms(p.feature_map@, universe) + (if skip_opt(p) && skip_opt_feats(p).len() > 0 {
        seq![
            RuleForm {
                name: "skip_optional_dependencies"@,
                cond: RuleCond::NotAnyOf { feats: skip_opt_feats(p) },
            },
        ]
    } else {
        Seq::empty()
    }) + (if p.denylist@.len() > 0 {
        seq![RuleForm { name: "denylist"@, cond: RuleCond::NotAnyOf { feats: p.denylist@ } }]
    } else {
        Seq::empty()
    }) + (if p.always_include_features@.len() > 0 {
        seq![
            RuleForm {
                name: "always_include_features"@,
                cond: RuleCond::AllOf { feats: p.always_include_features@ },
            },
        ]
    } else {
        Seq::empty()
    }) + conflict_forms(p.skip_feature_sets@)
}

/// Keeps the features of `feats` that belong to the universe.
fn filter_to_universe(feats: &FeatureList, universe: &FeatureList) -> (r: FeatureList)
    ensures
        r@ == in_universe_filter(feats@, names_of(universe@)),
{
    let mut r = FeatureList::new();
    let mut i: usize = 0;
    while i < feats.len()
        invariant
            i <= feats@.len(),
            r@ == in_universe_filter(feats@.take(i as int), names_of(universe@)),
        decreases feats@.len() - i,
    {
        let ghost pre = feats@.take(i as int);
        assert(feats@.take(i + 1).drop_last() =~= pre);
        assert(feats@.take(i + 1).last() == feats@[i as int]);
        if universe.contains(feats.get(i)) {
            r.push(feats.get(i).clone());
            assert(r@ =~= in_universe_filter(pre, names_of(universe@)) + seq![feats@[i as int]]);
        } else {
            assert(r@ =~= in_universe_filter(pre, names_of(universe@))
                + Seq::<Seq<char>>::empty());
        }
        i += 1;
    }
    assert(feats@.take(feats@.len() as int) =~= feats@);
    r
}

/// The optional-dependency features not named in `extra_features`.
fn collect_skip_opt_feats(p: &Package) -> (r: FeatureList)
    ensures
        r@ == skip_opt_feats(*p),
{
    let mut r = FeatureList::new();
    let mut i: usize = 0;
    while i < p.dependencies.len()
        invariant
            i <= p.dependencies@.len(),
            r@ == skip_opt_feats_of(
                p.dependencies@.take(i as int),
                names_of(p.extra_features@),
            ),
        decreases p.dependencies@.len() - i,
    {
        let ghost pre = p.dependencies@.take(i as int);
        assert(p.dependencies@.take(i + 1).drop_last() =~= pre);
        assert(p.dependencies@.take(i + 1).last() == p.dependencies@[i as int]);
        match p.dependencies[i].as_feature() {
            Option::Some(f) => {
                if !p.extra_features.contains(&f) {
                    let ghost prelist = r@;
                    r.push(f);
                    assert(r@ =~= prelist + seq![dep_feature_name(p.dependencies@[i as int])]);
                } else {
                    assert(r@ =~= r@ + Seq::<Seq<char>>::empty());
                }
            },
            Option::None => {
                assert(r@ =~= r@ + Seq::<Seq<char>>::empty());
            },
        }
        i += 1;
    }
    assert(p.dependencies@.take(p.dependencies@.len() as int) =~= p.dependencies@);
    r
}

/// Compiles every setting of the package into the uniform rule list over
/// the given universe. An unparseable free-form rule is the only error.
pub fn compile_rules(p: &Package, universe: &FeatureList) -> (r: Result<Vec<Rule>, Errors>)
    ensures
        match r {
            Result::Ok(rules) => {
                let forms = builtin_forms(*p, universe@);
                &&& rules@.len() == forms.len() + p.rules@.len()
                &&& forall|i: int|
                    0 <= i < forms.len() ==> rule_matches_form(#[trigger] rules@[i], forms[i])
                &&& forall|j: int|
                    0 <= j < p.rules@.len() ==> (#[trigger] rules@[forms.len() + j]).name@
                        == p.rules@[j]@ && sp_parse_str(p.rules@[j]@) == Some(
                        expr_view(rules@[forms.len() + j].expr),
                    )
            },
            Result::Err(e) => e is RuleParseFailed && exists|j: int|
                0 <= j < p.rules@.len() && sp_parse_str(#[trigger] p.rules@[j]@) is None,
        },
{
    let mut rules: Vec<Rule> = Vec::new();
    let ghost mut forms: Seq<RuleForm> = Seq::empty();

    // Implication rules, one per feature-map entry that still implies
    // something inside the universe.
    let mut i: usize = 0;
    while i < p.feature_map.len()
        invariant
            i <= p.feature_map@.len(),
            forms == implication_forms(p.feature_map@.take(i as int), universe@),
            rules@.len() == forms.len(),
            forall|k: int| 0 <= k < forms.len() ==> rule_matches_form(#[trigger] rules@[k], forms[k]),
        decreases p.feature_map@.len() - i,
    {
        let ghost pre = p.feature_map@.take(i as int);
        assert(p.feature_map@.take(i + 1).drop_last() =~= pre);
        assert(p.feature_map@.take(i + 1).last() == p.feature_map@[i as int]);
        let entry = &p.feature_map[i];
        let rhs = filter_to_universe(&entry.implied, universe);
        if rhs.len() > 0 {
            let if_list = FeatureList(vec![entry.name.clone()]);
            assert(if_list@ =~= seq![entry.name@]);
            let e = match new_rule::implication(&if_list, &rhs) {
                Option::Some(e) => e,
                Option::None => {
                    proof {
                        assert(false);
                    }
                    return Err(Errors::RuleParseFailed { message: String::new() });
                },
            };
            let mut name = String::new();
            name.append("implication:");
            name.append(entry.name.0.as_str());
            assert(name@ =~= "implication:"@ + entry.name@);
            let ghost form = RuleForm {
                name: "implication:"@ + entry.name@,
                cond: RuleCond::Imp {
                    lhs: entry.name@,
                    rhs: in_universe_filter(entry.implied@, names_of(universe@)),
                },
            };
            proof {
                assert forall|fs: Set<Seq<char>>|
                    eval_spec(e, fs) == Some(ExprResult::Bool(form_sem(form.cond, fs))) by {
                    assert(all_present(if_list@, fs) == fs.contains(entry.name@)) by {
                        if fs.contains(entry.name@) {
                            assert(forall|t: int|
                                0 <= t < if_list@.len() ==> fs.contains(#[trigger] if_list@[t]));
                        } else {
                            assert(if_list@[0] == entry.name@);
                        }
                    }
                }
                forms = forms + entry_forms(p.feature_map@[i as int], universe@);
            }
            rules.push(Rule { name, expr: e });
        } else {
            proof {
                forms = forms + entry_forms(p.feature_map@[i as int], universe@);
                assert(forms =~= implication_forms(p.feature_map@.take(i + 1), universe@));
            }
        }
        assert(forms =~= implication_forms(p.feature_map@.take(i + 1), universe@));
        i += 1;
    }
    assert(p.feature_map@.take(p.feature_map@.len() as int) =~= p.feature_map@);

    // The skip rule for optional dependencies.
    let ghost skip_block = if skip_opt(*p) && skip_opt_feats(*p).len() > 0 {
        seq![
            RuleForm {
                name: "skip_optional_dependencies"@,
                cond: RuleCond::NotAnyOf { feats: skip_opt_feats(*p) },
            },
        ]
    } else {
        Seq::<RuleForm>::empty()
    };
    if p.skips_optional_dependencies() {
        let banned = collect_skip_opt_feats(p);
        match new_rule::not_any(&banned) {
            Option::Some(e) => {
                let mut name = String::new();
                name.append("skip_optional_dependencies");
                assert(name@ =~= "skip_optional_dependencies"@);
                proof {
                    forms = forms + skip_block;
                }
                rules.push(Rule { name, expr: e });
            },
            Option::None => {
                proof {
                    forms = forms + skip_block;
                    assert(skip_block =~= Seq::<RuleForm>::empty());
                    assert(forms + Seq::<RuleForm>::empty() =~= forms);
                }
            },
        }
    } else {
        proof {
            forms = forms + skip_block;
            assert(forms + Seq::<RuleForm>::empty() =~= forms);
        }
    }

    // The denylist rule.
    let ghost deny_block = if p.denylist@.len() > 0 {
        seq![RuleForm { name: "denylist"@, cond: RuleCond::NotAnyOf { feats: p.denylist@ } }]
    } else {
        Seq::<RuleForm>::empty()
    };
    match new_rule::not_any(&p.denylist) {
        Option::Some(e) => {
            let mut name = String::new();
            name.append("denylist");
            assert(name@ =~= "denylist"@);
            proof {
                forms = forms + deny_block;
            }
            rules.push(Rule { name, expr: e });
        },
        Option::None => {
            proof {
                forms = forms + deny_block;
                assert(forms + Seq::<RuleForm>::empty() =~= forms);
            }
        },
    }

    // The always-include rule.
    let ghost always_block = if p.always_include_features@.len() > 0 {
        seq![
            RuleForm {
                name: "always_include_features"@,
                cond: RuleCond::AllOf { feats: p.always_include_features@ },
            },
        ]
    } else {
        Seq::<RuleForm>::empty()
    };
    match new_rule::all(&p.always_include_features) {
        Option::Some(e) => {
            let mut name = String::new();
            name.append("always_include_features");
            assert(name@ =~= "always_include_features"@);
            proof {
                forms = forms + always_block;
            }
            rules.push(Rule { name, expr: e });
        },
        Option::None => {
            proof {
                forms = forms + always_block;
                assert(forms + Seq::<RuleForm>::empty() =~= forms);
            }
        },
    }
    let ghost forms_before_conflicts = forms;

    // One conflict rule per skip entry.
    let mut c: usize = 0;
    while c < p.skip_feature_sets.len()
        invariant
            c <= p.skip_feature_sets@.len(),
            forms == forms_before_conflicts + conflict_forms(p.skip_feature_sets@.take(c as int)),
            rules@.len() == forms.len(),
            forall|k: int| 0 <= k < forms.len() ==> rule_matches_form(#[trigger] rules@[k], forms[k]),
        decreases p.skip_feature_sets@.len() - c,
    {
        let ghost pre = p.skip_feature_sets@.take(c as int);
        assert(p.skip_feature_sets@.take(c + 1).drop_last() =~= pre);
        assert(p.skip_feature_sets@.take(c + 1).last() == p.skip_feature_sets@[c as int]);
        let entry = &p.skip_feature_sets[c];
        match new_rule::not_all(entry) {
            Option::Some(e) => {
                let mut name = String::new();
                name.append("conflict:");
                let joined = entry.comma_separated();
                name.append(joined.as_str());
                assert(name@ =~= "conflict:"@ + comma_join(entry@));
                proof {
                    forms = forms + seq![
                        RuleForm {
                            name: "conflict:"@ + comma_join(p.skip_feature_sets@[c as int]@),
                            cond: RuleCond::NotAllOf { feats: p.skip_feature_sets@[c as int]@ },
                        },
                    ];
                }
                rules.push(Rule { name, expr: e });
            },
            Option::None => {
                proof {
                    assert(forms + Seq::<RuleForm>::empty() =~= forms);
                }
            },
        }
        assert(forms =~= forms_before_conflicts + conflict_forms(
            p.skip_feature_sets@.take(c + 1),
        ));
        c += 1;
    }
    assert(p.skip_feature_sets@.take(p.skip_feature_sets@.len() as int)
        =~= p.skip_feature_sets@);
    assert(forms =~= builtin_forms(*p, universe@));

    // The free-form rules, parsed.
    let ghost nb = forms.len();
    let mut f: usize = 0;
    while f < p.rules.len()
        invariant
            f <= p.rules@.len(),
            nb == builtin_forms(*p, universe@).len(),
            rules@.len() == nb + f,
            forall|k: int|
                0 <= k < nb ==> rule_matches_form(
                    #[trigger] rules@[k],
                    builtin_forms(*p, universe@)[k],
                ),
            forall|j: int|
                0 <= j < f ==> (#[trigger] rules@[nb + j]).name@ == p.rules@[j]@ && sp_parse_str(
                    p.rules@[j]@,
                ) == Some(expr_view(rules@[nb + j].expr)),
        decreases p.rules@.len() - f,
    {
        let text = &p.rules[f];
        match crate::rules::parser::parse_expr(text.as_str()) {
            Result::Ok(e) => {
                rules.push(Rule { name: text.clone(), expr: e });
            },
            Result::Err(m) => {
                return Err(Errors::RuleParseFailed { message: m });
            },
        }
        f += 1;
    }
    Ok(rules)
}

} // verus!
