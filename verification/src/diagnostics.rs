//! The diagnostic explainer: when no subset satisfies every rule, a greedy
//! search reports which rules, applied in which order, emptied the
//! candidate space. Each round picks the remaining rule whose application
//! leaves the fewest survivors (ties broken by first-found, with an early
//! exit once a rule cannot beat the best so far), applies it, and records
//! `name (survivors/previous)`.

use crate::enumerator::{blocks_before, enumerated_masks, mask_list, masks_upto, pc, popcount};
use crate::rules::compile::Rule;
use crate::rules::expr::{eval_spec, ExprResult};
use crate::strutil::{dec_nat, usize_to_string};
use crate::types::names_of;
use vstd::prelude::*;
use vstd::string::StringExecFns;

verus! {

/// The survivor count of one rule over the masks from `i` on, starting
/// from `acc`, stopping early once the count reaches `cap`; `None` on a
/// rule evaluation error.
pub open spec fn capped_count(
    u: Seq<Seq<char>>,
    r: Rule,
    masks: Seq<u64>,
    L: nat,
    i: int,
    acc: nat,
    cap: nat,
) -> Option<nat>
    decreases masks.len() - i,
{
    if acc >= cap || i < 0 || i >= masks.len() {
        Some(acc)
    } else {
        match eval_spec(r.expr, names_of(mask_list(u, masks[i], L))) {
            Option::Some(ExprResult::Bool(true)) => capped_count(
                u,
                r,
                masks,
                L,
                i + 1,
                acc + 1,
                cap,
            ),
            Option::Some(ExprResult::Bool(false)) => capped_count(u, r, masks, L, i + 1, acc, cap),
            _ => Option::None,
        }
    }
}

/// The masks from `i` on whose subsets satisfy the rule; `None` on a rule
/// evaluation error.
pub open spec fn filter_scan(u: Seq<Seq<char>>, r: Rule, masks: Seq<u64>, L: nat, i: int) -> Option<
    Seq<u64>,
>
    decreases masks.len() - i,
{
    if i < 0 || i >= masks.len() {
        Some(Seq::empty())
    } else {
        match eval_spec(r.expr, names_of(mask_list(u, masks[i], L))) {
            Option::Some(ExprResult::Bool(true)) => match filter_scan(u, r, masks, L, i + 1) {
                Option::None => Option::None,
                Option::Some(rest) => Some(seq![masks[i]] + rest),
            },
            Option::Some(ExprResult::Bool(false)) => filter_scan(u, r, masks, L, i + 1),
            _ => Option::None,
        }
    }
}

/// Scans the rules from `k` on for the one leaving the fewest survivors,
/// carrying the best found so far.
pub open spec fn best_scan(
    u: Seq<Seq<char>>,
    rules: Seq<Rule>,
    masks: Seq<u64>,
    L: nat,
    k: int,
    best_k: int,
    best_cnt: nat,
) -> Option<(int, nat)>
    decreases rules.len() - k,
{
    if k < 0 || k >= rules.len() {
        Some((best_k, best_cnt))
    } else {
        match capped_count(u, rules[k], masks, L, 0, 0, best_cnt) {
            Option::None => Option::None,
            Option::Some(c) => if c < best_cnt {
                best_scan(u, rules, masks, L, k + 1, k, c)
            } else {
                best_scan(u, rules, masks, L, k + 1, best_k, best_cnt)
            },
        }
    }
}

/// One trace entry: the applied rule's name, its survivor count, and the
/// working-set size before it.
pub ghost struct TraceEntry {
    pub name: Seq<char>,
    pub survivors: nat,
    pub previous: nat,
}

/// The greedy filtering trace: rounds of picking and applying the most
/// damaging remaining rule, until nothing shrinks or rules run out.
pub open spec fn greedy(u: Seq<Seq<char>>, rules: Seq<Rule>, masks: Seq<u64>, L: nat) -> Option<
    Seq<TraceEntry>,
>
    decreases rules.len(),
{
    if rules.len() == 0 {
        Some(Seq::empty())
    } else {
        match best_scan(u, rules, masks, L, 0, -1, masks.len()) {
            Option::None => Option::None,
            Option::Some((bk, bc)) => if bc >= masks.len() || bk < 0 || bk >= rules.len() {
                Some(Seq::empty())
            } else {
                match filter_scan(u, rules[bk], masks, L, 0) {
                    Option::None => Option::None,
                    Option::Some(survivors) => match greedy(u, rules.remove(bk), survivors, L) {
                        Option::None => Option::None,
                        Option::Some(trace) => Some(
                            seq![
                                TraceEntry {
                                    name: rules[bk].name@,
                                    survivors: bc,
                                    previous: masks.len(),
                                },
                            ] + trace,
                        ),
                    },
                }
            },
        }
    }
}

/// The rendering of the trace entries, each ` -> name (survivors/previous)`.
pub open spec fn render_entries(trace: Seq<TraceEntry>) -> Seq<char>
    decreases trace.len(),
{
    if trace.len() == 0 {
        Seq::empty()
    } else {
        render_entries(trace.drop_last()) + " -> "@ + trace.last().name + " ("@ + dec_nat(
            trace.last().survivors,
        ) + "/"@ + dec_nat(trace.last().previous) + ")"@
    }
}

/// The whole report: the unfiltered count, then the applied rules.
pub open spec fn report_chars(initial: nat, trace: Seq<TraceEntry>) -> Seq<char> {
    "initial #sets "@ + dec_nat(initial) + render_entries(trace)
}

/// All masks of the enumeration order, materialized.
fn collect_masks(el: usize, max_size: usize) -> (r: Vec<u64>)
    requires
        el < 64,
        max_size <= el,
    ensures
        r@ == enumerated_masks(el as nat, max_size as nat),
{
    let limit: u64 = 1u64 << (el as u64);
    let mut v: Vec<u64> = Vec::new();
    let mut n: usize = 0;
    assert(v@ =~= blocks_before(el as nat, 0));
    while n <= max_size
        invariant
            el < 64,
            max_size <= el,
            n <= max_size + 1,
            limit == 1u64 << (el as u64),
            v@ == blocks_before(el as nat, n as nat),
        decreases max_size + 1 - n,
    {
        let mut mask: u64 = 0;
        while mask < limit
            invariant
                el < 64,
                n <= max_size <= el,
                limit == 1u64 << (el as u64),
                mask <= limit,
                v@ == blocks_before(el as nat, n as nat) + masks_upto(
                    el as nat,
                    n as nat,
                    mask as nat,
                ),
            decreases limit - mask,
        {
            let p = popcount(mask, el);
            if p as usize == n {
                assert(masks_upto(el as nat, n as nat, (mask + 1) as nat) =~= masks_upto(
                    el as nat,
                    n as nat,
                    mask as nat,
                ) + seq![mask]);
                let ghost pre = v@;
                v.push(mask);
                assert(v@ =~= pre + seq![mask]);
                assert(v@ =~= blocks_before(el as nat, n as nat) + masks_upto(
                    el as nat,
                    n as nat,
                    (mask + 1) as nat,
                ));
            } else {
                assert(masks_upto(el as nat, n as nat, (mask + 1) as nat) =~= masks_upto(
                    el as nat,
                    n as nat,
                    mask as nat,
                ));
            }
            mask += 1;
        }
        assert(v@ =~= blocks_before(el as nat, (n + 1) as nat));
        n += 1;
    }
    v
}

/// The survivors of one rule over the working set, or the evaluation
/// error.
fn apply_rule(
    universe: &crate::types::FeatureList,
    rule: &Rule,
    masks: &Vec<u64>,
    el: usize,
) -> (r: Result<Vec<u64>, String>)
    requires
        el == universe@.len(),
        el < 64,
    ensures
        match r {
            Result::Ok(v) => filter_scan(universe@, *rule, masks@, el as nat, 0) == Some(v@),
            Result::Err(_) => filter_scan(universe@, *rule, masks@, el as nat, 0) is None,
        },
{
    let ghost u = universe@;
    let mut out: Vec<u64> = Vec::new();
    let mut i: usize = 0;
    while i < masks.len()
        invariant
            i <= masks@.len(),
            u == universe@,
            el == universe@.len(),
            el < 64,
            match filter_scan(u, *rule, masks@, el as nat, i as int) {
                Option::Some(rest) => filter_scan(u, *rule, masks@, el as nat, 0) == Some(
                    out@ + rest,
                ),
                Option::None => filter_scan(u, *rule, masks@, el as nat, 0) is None,
            },
        decreases masks@.len() - i,
    {
        let feature_set = crate::enumerator::subset_of_mask(universe, masks[i], el);
        match rule.expr.eval(&feature_set) {
            Result::Ok(true) => {
                let ghost pre = out@;
                out.push(masks[i]);
                assert(out@ =~= pre.push(masks@[i as int]));
                assert(forall|rest: Seq<u64>|
                    pre + (seq![masks@[i as int]] + rest) =~= out@ + rest);
            },
            Result::Ok(false) => {},
            Result::Err(m) => {
                return Err(m);
            },
        }
        i += 1;
    }
    assert(filter_scan(u, *rule, masks@, el as nat, i as int) == Some(Seq::<u64>::empty()));
    assert(out@ + Seq::<u64>::empty() =~= out@);
    Ok(out)
}

/// The capped survivor count of one rule over the working set.
fn count_survivors(
    universe: &crate::types::FeatureList,
    rule: &Rule,
    masks: &Vec<u64>,
    el: usize,
    cap: usize,
) -> (r: Result<usize, String>)
    requires
        el == universe@.len(),
        el < 64,
    ensures
        match r {
            Result::Ok(c) => capped_count(universe@, *rule, masks@, el as nat, 0, 0, cap as nat)
                == Some(c as nat),
            Result::Err(_) => capped_count(universe@, *rule, masks@, el as nat, 0, 0, cap as nat)
                is None,
        },
{
    let ghost u = universe@;
    let mut count: usize = 0;
    let mut i: usize = 0;
    while i < masks.len() && count < cap
        invariant
            i <= masks@.len(),
            u == universe@,
            el == universe@.len(),
            el < 64,
            count <= cap,
            count <= i,
            capped_count(u, *rule, masks@, el as nat, 0, 0, cap as nat) == capped_count(
                u,
                *rule,
                masks@,
                el as nat,
                i as int,
                count as nat,
                cap as nat,
            ),
        decreases masks@.len() - i,
    {
        let feature_set = crate::enumerator::subset_of_mask(universe, masks[i], el);
        match rule.expr.eval(&feature_set) {
            Result::Ok(true) => {
                count += 1;
            },
            Result::Ok(false) => {},
            Result::Err(m) => {
                return Err(m);
            },
        }
        i += 1;
    }
    Ok(count)
}

/// Greedily explains which rules emptied the candidate space: the report
/// named in the unsatisfiable-rule-set error. An `Err` carries a rule
/// evaluation error hit while counting.
pub fn report_greedy_rule_filtering(
    universe: &crate::types::FeatureList,
    rules: &Vec<Rule>,
    max_size: usize,
) -> (r: Result<String, String>)
    requires
        universe@.len() < 64,
        max_size <= universe@.len(),
    ensures
        match r {
            Result::Ok(s) => match greedy(
                universe@,
                rules@,
                enumerated_masks(universe@.len(), max_size as nat),
                universe@.len(),
            ) {
                Option::Some(trace) => s@ == report_chars(
                    enumerated_masks(universe@.len(), max_size as nat).len(),
                    trace,
                ),
                Option::None => false,
            },
            Result::Err(_) => greedy(
                universe@,
                rules@,
                enumerated_masks(universe@.len(), max_size as nat),
                universe@.len(),
            ) is None,
        },
{
    let ghost u = universe@;
    let el = universe.len();
    let mut masks = collect_masks(el, max_size);
    let ghost masks0 = masks@;
    let mut remaining: Vec<Rule> = Vec::new();
    let mut ri: usize = 0;
    while ri < rules.len()
        invariant
            ri <= rules@.len(),
            remaining@ =~= rules@.take(ri as int),
        decreases rules@.len() - ri,
    {
        remaining.push(Rule { name: rules[ri].name.clone(), expr: rules[ri].expr.clone_expr() });
        assert(remaining@ =~= rules@.take(ri as int).push(rules@[ri as int]));
        assert(rules@.take(ri + 1) =~= rules@.take(ri as int).push(rules@[ri as int]));
        ri += 1;
    }
    assert(rules@.take(rules@.len() as int) =~= rules@);
    assert(remaining@ =~= rules@);

    let mut report = String::new();
    report.append("initial #sets ");
    let count0 = usize_to_string(masks.len());
    report.append(count0.as_str());
    let ghost mut trace: Seq<TraceEntry> = Seq::empty();
    assert(report@ =~= report_chars(masks0.len(), trace)) by {
        assert(render_entries(trace) =~= Seq::<char>::empty());
        assert(report@ =~= "initial #sets "@ + dec_nat(masks0.len()) + Seq::<char>::empty());
    }
    assert(match greedy(u, remaining@, masks@, el as nat) {
        Option::Some(t) => trace + t =~= t,
        Option::None => true,
    });

    loop
        invariant
            u == universe@,
            el == universe@.len(),
            el < 64,
            masks0 == enumerated_masks(universe@.len(), max_size as nat),
            report@ == report_chars(masks0.len(), trace),
            match greedy(u, remaining@, masks@, el as nat) {
                Option::Some(t) => greedy(u, rules@, masks0, el as nat) == Some(trace + t),
                Option::None => greedy(u, rules@, masks0, el as nat) is None,
            },
        decreases remaining@.len(),
    {
        if remaining.len() == 0 {
            assert(greedy(u, remaining@, masks@, el as nat) == Some(Seq::<TraceEntry>::empty()));
            assert(trace + Seq::<TraceEntry>::empty() =~= trace);
            return Ok(report);
        }
        // Find the remaining rule with the fewest survivors, first found
        // on ties, skipping a rule as soon as it cannot beat the best.
        let mut best_k: usize = 0;
        let mut best_cnt: usize = masks.len();
        let mut have_best = false;
        let mut k: usize = 0;
        while k < remaining.len()
            invariant
                u == universe@,
                el == universe@.len(),
                el < 64,
                k <= remaining@.len(),
                masks0 == enumerated_masks(universe@.len(), max_size as nat),
                report@ == report_chars(masks0.len(), trace),
                match greedy(u, remaining@, masks@, el as nat) {
                    Option::Some(t) => greedy(u, rules@, masks0, el as nat) == Some(trace + t),
                    Option::None => greedy(u, rules@, masks0, el as nat) is None,
                },
                remaining@.len() > 0,
                best_cnt <= masks@.len(),
                have_best ==> best_k < k && best_cnt < masks@.len(),
                !have_best ==> best_cnt == masks@.len(),
                best_scan(u, remaining@, masks@, el as nat, 0, -1, masks@.len())
                    == best_scan(
                    u,
                    remaining@,
                    masks@,
                    el as nat,
                    k as int,
                    if have_best {
                        best_k as int
                    } else {
                        -1
                    },
                    best_cnt as nat,
                ),
            decreases remaining@.len() - k,
        {
            match count_survivors(universe, &remaining[k], &masks, el, best_cnt) {
                Result::Ok(c) => {
                    if c < best_cnt {
                        best_k = k;
                        best_cnt = c;
                        have_best = true;
                    }
                },
                Result::Err(m) => {
                    assert(best_scan(u, remaining@, masks@, el as nat, 0, -1, masks@.len())
                        is None);
                    return Err(m);
                },
            }
            k += 1;
        }
        let ghost bs = best_scan(u, remaining@, masks@, el as nat, 0, -1, masks@.len());
        assert(bs == Some(
            (
                if have_best {
                    best_k as int
                } else {
                    -1
                },
                best_cnt as nat,
            ),
        ));
        if !have_best || best_cnt >= masks.len() {
            // The best remaining rule removes nothing: stop.
            assert(greedy(u, remaining@, masks@, el as nat) == Some(Seq::<TraceEntry>::empty()));
            assert(trace + Seq::<TraceEntry>::empty() =~= trace);
            return Ok(report);
        }
        let survivors = match apply_rule(universe, &remaining[best_k], &masks, el) {
            Result::Ok(v) => v,
            Result::Err(m) => {
                assert(greedy(u, remaining@, masks@, el as nat) is None);
                return Err(m);
            },
        };
        let ghost old_trace = trace;
        let ghost old_remaining = remaining@;
        let ghost old_masks = masks@;
        let entry_name = remaining[best_k].name.clone();
        report.append(" -> ");
        report.append(entry_name.as_str());
        report.append(" (");
        let a = usize_to_string(best_cnt);
        report.append(a.as_str());
        report.append("/");
        let b = usize_to_string(masks.len());
        report.append(b.as_str());
        report.append(")");
        proof {
            trace = trace.push(
                TraceEntry {
                    name: old_remaining[best_k as int].name@,
                    survivors: best_cnt as nat,
                    previous: old_masks.len(),
                },
            );
            assert(trace.drop_last() =~= old_trace);
            assert(report@ =~= report_chars(masks0.len(), trace));
        }
        let _ = remaining.remove(best_k);
        masks = survivors;
        proof {
            let ghost entry = TraceEntry {
                name: old_remaining[best_k as int].name@,
                survivors: best_cnt as nat,
                previous: old_masks.len(),
            };
            assert(greedy(u, old_remaining, old_masks, el as nat) == match greedy(
                u,
                remaining@,
                masks@,
                el as nat,
            ) {
                Option::Some(t) => Some(seq![entry] + t),
                Option::None => Option::None::<Seq<TraceEntry>>,
            });
            match greedy(u, remaining@, masks@, el as nat) {
                Option::Some(t) => {
                    assert(old_trace + (seq![entry] + t) =~= trace + t);
                },
                Option::None => {},
            }
        }
    }
}

} // verus!
