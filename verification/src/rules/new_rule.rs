//! Builders that turn feature lists into rule expressions: conjunction and
//! disjunction chains, their negations, and implications. Every builder
//! returns no expression at all for an empty feature list (a vacuously true
//! rule), and each built expression evaluates to a boolean on every feature
//! set, never to a type error.

use crate::rules::expr::{eval_spec, Expr, ExprResult, InfixOp, Literal, PrefixOp};
use crate::types::{Feature, FeatureList};
use vstd::prelude::*;

verus! {

/// A rule given as a free-form string, parsed by the rule grammar.
pub fn expr(input: &str) -> (r: Result<Expr, String>)
    ensures
        match r {
            Result::Ok(e) => crate::rules::parser::sp_parse_str(input@) == Some(
                crate::rules::expr::expr_view(e),
            ),
            Result::Err(_) => crate::rules::parser::sp_parse_str(input@) is None,
        },
{
    Expr::new(input)
}

/// All of the named features are present in the feature set.
pub open spec fn all_present(feats: Seq<Seq<char>>, fs: Set<Seq<char>>) -> bool {
    forall|i: int| 0 <= i < feats.len() ==> fs.contains(feats[i])
}

/// At least one of the named features is present in the feature set.
pub open spec fn any_present(feats: Seq<Seq<char>>, fs: Set<Seq<char>>) -> bool {
    exists|i: int| 0 <= i < feats.len() && fs.contains(feats[i])
}

/// The names of a sequence of features.
pub open spec fn feat_views(s: Seq<Feature>) -> Seq<Seq<char>> {
    Seq::new(s.len(), |i: int| s[i]@)
}

/// The left-associated chain `f0 op f1 op ... op fn` over feature literals.
pub open spec fn chain_expr(op: InfixOp, feats: Seq<Feature>) -> Expr
    recommends
        feats.len() > 0,
    decreases feats.len(),
{
    if feats.len() <= 1 {
        Expr::Literal(Literal::Feature(feats[0]))
    } else {
        Expr::Infix {
            lhs: Box::new(chain_expr(op, feats.drop_last())),
            op,
            rhs: Box::new(Expr::Literal(Literal::Feature(feats.last()))),
        }
    }
}

/// A conjunction chain evaluates to whether every feature is present.
pub proof fn lemma_chain_and(feats: Seq<Feature>, fs: Set<Seq<char>>)
    requires
        feats.len() > 0,
    ensures
        eval_spec(chain_expr(InfixOp::And, feats), fs) == Some(
            ExprResult::Bool(all_present(feat_views(feats), fs)),
        ),
    decreases feats.len(),
{
    if feats.len() == 1 {
        assert(chain_expr(InfixOp::And, feats) == Expr::Literal(Literal::Feature(feats[0])));
        assert(feat_views(feats)[0] == feats[0]@);
        if fs.contains(feats[0]@) {
            assert(forall|i: int|
                0 <= i < feat_views(feats).len() ==> fs.contains(#[trigger] feat_views(feats)[i]));
        }
        assert(all_present(feat_views(feats), fs) == fs.contains(feats[0]@));
    } else {
        lemma_chain_and(feats.drop_last(), fs);
        let e = chain_expr(InfixOp::And, feats);
        assert(e == Expr::Infix {
            lhs: Box::new(chain_expr(InfixOp::And, feats.drop_last())),
            op: InfixOp::And,
            rhs: Box::new(Expr::Literal(Literal::Feature(feats.last()))),
        });
        assert(feat_views(feats.drop_last()) =~= feat_views(feats).drop_last());
        let whole = feat_views(feats);
        let front = whole.drop_last();
        assert(all_present(whole, fs) == (all_present(front, fs) && fs.contains(whole.last())))
            by {
            if all_present(front, fs) && fs.contains(whole.last()) {
                assert forall|i: int| 0 <= i < whole.len() implies fs.contains(whole[i]) by {
                    if i < whole.len() - 1 {
                        assert(front[i] == whole[i]);
                    }
                }
            }
        }
        assert(whole.last() == feats.last()@);
        assert(eval_spec(Expr::Literal(Literal::Feature(feats.last())), fs) == Some(
            ExprResult::Bool(fs.contains(feats.last()@)),
        ));
        assert(eval_spec(e, fs) == Some(ExprResult::Bool(all_present(whole, fs))));
    }
}

/// A disjunction chain evaluates to whether some feature is present.
pub proof fn lemma_chain_or(feats: Seq<Feature>, fs: Set<Seq<char>>)
    requires
        feats.len() > 0,
    ensures
        eval_spec(chain_expr(InfixOp::Or, feats), fs) == Some(
            ExprResult::Bool(any_present(feat_views(feats), fs)),
        ),
    decreases feats.len(),
{
    if feats.len() == 1 {
        assert(chain_expr(InfixOp::Or, feats) == Expr::Literal(Literal::Feature(feats[0])));
        assert(feat_views(feats)[0] == feats[0]@);
        assert(any_present(feat_views(feats), fs) == fs.contains(feats[0]@)) by {
            if fs.contains(feats[0]@) {
                assert(fs.contains(feat_views(feats)[0]));
            }
        }
    } else {
        lemma_chain_or(feats.drop_last(), fs);
        let e = chain_expr(InfixOp::Or, feats);
        assert(e == Expr::Infix {
            lhs: Box::new(chain_expr(InfixOp::Or, feats.drop_last())),
            op: InfixOp::Or,
            rhs: Box::new(Expr::Literal(Literal::Feature(feats.last()))),
        });
        assert(feat_views(feats.drop_last()) =~= feat_views(feats).drop_last());
        let whole = feat_views(feats);
        let front = whole.drop_last();
        assert(any_present(whole, fs) == (any_present(front, fs) || fs.contains(whole.last())))
            by {
            if any_present(whole, fs) {
                let i = choose|i: int| 0 <= i < whole.len() && fs.contains(whole[i]);
                if i < whole.len() - 1 {
                    assert(front[i] == whole[i]);
                }
            }
            if any_present(front, fs) {
                let i = choose|i: int| 0 <= i < front.len() && fs.contains(front[i]);
                assert(fs.contains(whole[i]));
            }
            if fs.contains(whole.last()) {
                assert(fs.contains(whole[whole.len() - 1]));
            }
        }
        assert(whole.last() == feats.last()@);
        assert(eval_spec(Expr::Literal(Literal::Feature(feats.last())), fs) == Some(
            ExprResult::Bool(fs.contains(feats.last()@)),
        ));
        assert(eval_spec(e, fs) == Some(ExprResult::Bool(any_present(whole, fs))));
    }
}

/// Chains the features under one left-associated binary operator; no
/// expression for an empty list.
pub fn chain(op: InfixOp, features: &FeatureList) -> (r: Option<Expr>)
    ensures
        match r {
            Option::None => features@.len() == 0,
            Option::Some(e) => features@.len() > 0 && e == chain_expr(op, features.0@),
        },
{
    if features.len() == 0 {
        return None;
    }
    let mut ans = Expr::Literal(Literal::Feature(features.get(0).clone()));
    assert(ans == chain_expr(op, features.0@.take(1))) by {
        assert(features.0@.take(1)[0] == features.0@[0]);
    }
    let mut i: usize = 1;
    while i < features.len()
        invariant
            1 <= i <= features@.len(),
            features@.len() == features.0@.len(),
            ans == chain_expr(op, features.0@.take(i as int)),
        decreases features@.len() - i,
    {
        ans = ans.infix(op, Expr::Literal(Literal::Feature(features.get(i).clone())));
        assert(features.0@.take(i + 1).drop_last() =~= features.0@.take(i as int));
        assert(features.0@.take(i + 1).last() == features.0@[i as int]);
        i += 1;
    }
    assert(features.0@.take(features.0@.len() as int) =~= features.0@);
    Some(ans)
}

/// A rule that every listed feature is present.
pub fn all(features: &FeatureList) -> (r: Option<Expr>)
    ensures
        match r {
            Option::None => features@.len() == 0,
            Option::Some(e) => features@.len() > 0 && forall|fs: Set<Seq<char>>|
                eval_spec(e, fs) == Some(ExprResult::Bool(all_present(features@, fs))),
        },
{
    let r = chain(InfixOp::And, features);
    proof {
        if r is Some {
            assert(feat_views(features.0@) =~= features@);
            assert forall|fs: Set<Seq<char>>|
                eval_spec(r->Some_0, fs) == Some(
                    ExprResult::Bool(all_present(features@, fs)),
                ) by {
                lemma_chain_and(features.0@, fs);
            }
        }
    }
    r
}

/// A rule that not every listed feature is present.
pub fn not_all(features: &FeatureList) -> (r: Option<Expr>)
    ensures
        match r {
            Option::None => features@.len() == 0,
            Option::Some(e) => features@.len() > 0 && forall|fs: Set<Seq<char>>|
                eval_spec(e, fs) == Some(ExprResult::Bool(!all_present(features@, fs))),
        },
{
    match all(features) {
        Option::None => None,
        Option::Some(e) => {
            let ghost inner = e;
            let negated = e.prefix(PrefixOp::Not);
            proof {
                assert forall|fs: Set<Seq<char>>|
                    eval_spec(negated, fs) == Some(
                        ExprResult::Bool(!all_present(features@, fs)),
                    ) by {
                    assert(eval_spec(inner, fs) == Some(
                        ExprResult::Bool(all_present(features@, fs)),
                    ));
                }
            }
            Some(negated)
        },
    }
}

/// A rule that at least one listed feature is present.
pub fn any(features: &FeatureList) -> (r: Option<Expr>)
    ensures
        match r {
            Option::None => features@.len() == 0,
            Option::Some(e) => features@.len() > 0 && forall|fs: Set<Seq<char>>|
                eval_spec(e, fs) == Some(ExprResult::Bool(any_present(features@, fs))),
        },
{
    let r = chain(InfixOp::Or, features);
    proof {
        if r is Some {
            assert(feat_views(features.0@) =~= features@);
            assert forall|fs: Set<Seq<char>>|
                eval_spec(r->Some_0, fs) == Some(
                    ExprResult::Bool(any_present(features@, fs)),
                ) by {
                lemma_chain_or(features.0@, fs);
            }
        }
    }
    r
}

/// A rule that none of the listed features is present.
pub fn not_any(features: &FeatureList) -> (r: Option<Expr>)
    ensures
        match r {
            Option::None => features@.len() == 0,
            Option::Some(e) => features@.len() > 0 && forall|fs: Set<Seq<char>>|
                eval_spec(e, fs) == Some(ExprResult::Bool(!any_present(features@, fs))),
        },
{
    match any(features) {
        Option::None => None,
        Option::Some(e) => {
            let ghost inner = e;
            let negated = e.prefix(PrefixOp::Not);
            proof {
                assert forall|fs: Set<Seq<char>>|
                    eval_spec(negated, fs) == Some(
                        ExprResult::Bool(!any_present(features@, fs)),
                    ) by {
                    assert(eval_spec(inner, fs) == Some(
                        ExprResult::Bool(any_present(features@, fs)),
                    ));
                }
            }
            Some(negated)
        },
    }
}

/// A rule that whenever all features of `if_all` are present, all features
/// of `then_all` are present too; no rule when `then_all` is empty.
pub fn implication(if_all: &FeatureList, then_all: &FeatureList) -> (r: Option<Expr>)
    ensures
        match r {
            Option::None => then_all@.len() == 0,
            Option::Some(e) => then_all@.len() > 0 && forall|fs: Set<Seq<char>>|
                eval_spec(e, fs) == Some(
                    ExprResult::Bool(
                        all_present(if_all@, fs) ==> all_present(then_all@, fs),
                    ),
                ),
        },
{
    let then_expr = match all(then_all) {
        Option::None => {
            return None;
        },
        Option::Some(e) => e,
    };
    match all(if_all) {
        Option::None => {
            proof {
                assert forall|fs: Set<Seq<char>>|
                    eval_spec(then_expr, fs) == Some(
                        ExprResult::Bool(
                            all_present(if_all@, fs) ==> all_present(then_all@, fs),
                        ),
                    ) by {
                    assert(all_present(if_all@, fs));
                    assert(eval_spec(then_expr, fs) == Some(
                        ExprResult::Bool(all_present(then_all@, fs)),
                    ));
                }
            }
            Some(then_expr)
        },
        Option::Some(if_expr) => {
            let ghost gif = if_expr;
            let ghost gthen = then_expr;
            let combined = if_expr.infix(InfixOp::Implies, then_expr);
            proof {
                assert forall|fs: Set<Seq<char>>|
                    eval_spec(combined, fs) == Some(
                        ExprResult::Bool(
                            all_present(if_all@, fs) ==> all_present(then_all@, fs),
                        ),
                    ) by {
                    assert(eval_spec(gif, fs) == Some(
                        ExprResult::Bool(all_present(if_all@, fs)),
                    ));
                    assert(eval_spec(gthen, fs) == Some(
                        ExprResult::Bool(all_present(then_all@, fs)),
                    ));
                }
            }
            Some(combined)
        },
    }
}

} // verus!
