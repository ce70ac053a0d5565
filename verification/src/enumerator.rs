//! The combinatorial enumerator: every subset of the candidate universe up
//! to a size bound, grouped by increasing size, kept when every rule
//! evaluates to true.
//!
//! A subset of a universe of length `L` is described by the mask of its
//! member positions; the enumeration order is, for each size, the masks of
//! that popcount in increasing numeric order.

use crate::rules::compile::Rule;
use crate::rules::expr::{eval_spec, ExprResult};
use crate::types::{names_of, FeatureList};
use vstd::prelude::*;

verus! {

/// Whether bit `b` of the mask is set.
pub open spec fn bit(m: u64, b: nat) -> bool {
    (m >> (b as u64)) & 1 == 1
}

/// How many of the first `bits` bits of the mask are set.
pub open spec fn pc(m: u64, bits: nat) -> nat
    decreases bits,
{
    if bits == 0 {
        0
    } else {
        pc(m, (bits - 1) as nat) + if bit(m, (bits - 1) as nat) {
            1nat
        } else {
            0nat
        }
    }
}

/// The features of the universe selected by the first `bits` bits of the
/// mask, in universe order.
pub open spec fn mask_list(u: Seq<Seq<char>>, m: u64, bits: nat) -> Seq<Seq<char>>
    decreases bits,
{
    if bits == 0 {
        Seq::empty()
    } else {
        mask_list(u, m, (bits - 1) as nat) + if bit(m, (bits - 1) as nat) {
            seq![u[bits - 1]]
        } else {
            Seq::empty()
        }
    }
}

/// What the rules from index `k` on say about a feature set: false as soon
/// as one evaluates to false, `None` on the first type error, true when
/// all hold. Later rules are not consulted once one fails.
pub open spec fn rules_result_from(rules: Seq<Rule>, k: int, fs: Set<Seq<char>>) -> Option<bool>
    decreases rules.len() - k,
{
    if k < 0 || k >= rules.len() {
        Some(true)
    } else {
        match eval_spec(rules[k].expr, fs) {
            Option::Some(ExprResult::Bool(false)) => Some(false),
            Option::Some(ExprResult::Bool(true)) => rules_result_from(rules, k + 1, fs),
            _ => Option::None,
        }
    }
}

/// What the whole rule list says about a feature set.
pub open spec fn rules_result(rules: Seq<Rule>, fs: Set<Seq<char>>) -> Option<bool> {
    rules_result_from(rules, 0, fs)
}

/// The masks below `bound` whose popcount over `L` bits is `n`, in
/// increasing order.
pub open spec fn masks_upto(L: nat, n: nat, bound: nat) -> Seq<u64>
    decreases bound,
{
    if bound == 0 {
        Seq::empty()
    } else {
        masks_upto(L, n, (bound - 1) as nat) + if pc((bound - 1) as u64, L) == n {
            seq![(bound - 1) as u64]
        } else {
            Seq::empty()
        }
    }
}

/// The complete blocks of sizes `0, 1, ..., n - 1`, concatenated.
pub open spec fn blocks_before(L: nat, n: nat) -> Seq<u64>
    decreases n,
{
    if n == 0 {
        Seq::empty()
    } else {
        blocks_before(L, (n - 1) as nat) + masks_upto(L, (n - 1) as nat, (1u64 << (L as u64)) as nat)
    }
}

/// The full enumeration order: all masks grouped by size `0..=max_size`.
pub open spec fn enumerated_masks(L: nat, max_size: nat) -> Seq<u64> {
    blocks_before(L, max_size + 1)
}

/// Scanning the masks in order: `None` as soon as a rule evaluation hits a
/// type error, else the masks whose subsets satisfy every rule.
pub open spec fn keep_scan(u: Seq<Seq<char>>, rules: Seq<Rule>, masks: Seq<u64>, L: nat) -> Option<
    Seq<u64>,
>
    decreases masks.len(),
{
    if masks.len() == 0 {
        Some(Seq::empty())
    } else {
        match keep_scan(u, rules, masks.drop_last(), L) {
            Option::None => Option::None,
            Option::Some(kept) => match rules_result(rules, names_of(mask_list(u, masks.last(), L))) {
                Option::None => Option::None,
                Option::Some(true) => Some(kept.push(masks.last())),
                Option::Some(false) => Some(kept),
            },
        }
    }
}

/// A scan that has already failed stays failed under any extension.
pub proof fn lemma_none_extends(u: Seq<Seq<char>>, rules: Seq<Rule>, a: Seq<u64>, b: Seq<u64>, L: nat)
    requires
        keep_scan(u, rules, a, L) is None,
    ensures
        keep_scan(u, rules, a + b, L) is None,
    decreases b.len(),
{
    if b.len() == 0 {
        assert(a + b =~= a);
    } else {
        lemma_none_extends(u, rules, a, b.drop_last(), L);
        assert((a + b).drop_last() =~= a + b.drop_last());
        assert((a + b).len() > 0);
    }
}

/// Extending the still-unscanned part of a block keeps a failed scan
/// failed.
pub proof fn lemma_none_within_block(
    u: Seq<Seq<char>>,
    rules: Seq<Rule>,
    pre: Seq<u64>,
    L: nat,
    n: nat,
    b: nat,
    cap: nat,
)
    requires
        b <= cap,
        keep_scan(u, rules, pre + masks_upto(L, n, b), L) is None,
    ensures
        keep_scan(u, rules, pre + masks_upto(L, n, cap), L) is None,
    decreases cap - b,
{
    if cap > b {
        lemma_none_within_block(u, rules, pre, L, n, b, (cap - 1) as nat);
        let shorter = pre + masks_upto(L, n, (cap - 1) as nat);
        let longer = pre + masks_upto(L, n, cap);
        if pc((cap - 1) as u64, L) == n {
            assert(longer =~= shorter + seq![(cap - 1) as u64]);
            lemma_none_extends(u, rules, shorter, seq![(cap - 1) as u64], L);
            assert(keep_scan(u, rules, shorter + seq![(cap - 1) as u64], L) is None);
        } else {
            assert(longer =~= shorter);
        }
    }
}

/// A failed scan of the first blocks keeps the whole enumeration failed.
pub proof fn lemma_none_across_blocks(
    u: Seq<Seq<char>>,
    rules: Seq<Rule>,
    L: nat,
    n: nat,
    cap: nat,
)
    requires
        n <= cap,
        keep_scan(u, rules, blocks_before(L, n), L) is None,
    ensures
        keep_scan(u, rules, blocks_before(L, cap), L) is None,
    decreases cap - n,
{
    if cap > n {
        lemma_none_across_blocks(u, rules, L, n, (cap - 1) as nat);
        lemma_none_extends(
            u,
            rules,
            blocks_before(L, (cap - 1) as nat),
            masks_upto(L, (cap - 1) as nat, (1u64 << (L as u64)) as nat),
            L,
        );
    }
}

/// Counts the set bits among the first `bits` bits.
pub fn popcount(m: u64, bits: usize) -> (r: u32)
    requires
        bits <= 64,
    ensures
        r == pc(m, bits as nat),
{
    let mut count: u32 = 0;
    let mut b: usize = 0;
    while b < bits
        invariant
            b <= bits <= 64,
            count == pc(m, b as nat),
            count <= b,
        decreases bits - b,
    {
        if (m >> (b as u64)) & 1 == 1 {
            count += 1;
        }
        assert(pc(m, (b + 1) as nat) == pc(m, b as nat) + if bit(m, b as nat) {
            1nat
        } else {
            0nat
        });
        b += 1;
    }
    count
}

/// The features selected by a mask, in universe order.
pub fn subset_of_mask(universe: &FeatureList, m: u64, bits: usize) -> (r: FeatureList)
    requires
        bits <= universe@.len(),
        bits <= 64,
    ensures
        r@ == mask_list(universe@, m, bits as nat),
{
    let mut r = FeatureList::new();
    let mut b: usize = 0;
    while b < bits
        invariant
            b <= bits <= 64,
            bits <= universe@.len(),
            r@ == mask_list(universe@, m, b as nat),
        decreases bits - b,
    {
        if (m >> (b as u64)) & 1 == 1 {
            r.push(universe.get(b).clone());
            assert(r@ =~= mask_list(universe@, m, b as nat) + seq![universe@[b as int]]);
        } else {
            assert(r@ =~= mask_list(universe@, m, b as nat) + Seq::<Seq<char>>::empty());
        }
        assert(r@ == mask_list(universe@, m, (b + 1) as nat));
        b += 1;
    }
    r
}

/// Evaluates every rule in order against the feature set: false as soon as
/// one is false, an error as soon as one hits a type error.
pub fn check_rules(rules: &Vec<Rule>, feature_set: &FeatureList) -> (r: Result<bool, String>)
    ensures
        match r {
            Result::Ok(b) => rules_result(rules@, names_of(feature_set@)) == Some(b),
            Result::Err(_) => rules_result(rules@, names_of(feature_set@)) is None,
        },
{
    let ghost fs = names_of(feature_set@);
    let mut k: usize = 0;
    while k < rules.len()
        invariant
            k <= rules@.len(),
            fs == names_of(feature_set@),
            rules_result(rules@, fs) == rules_result_from(rules@, k as int, fs),
        decreases rules@.len() - k,
    {
        match rules[k].expr.eval(feature_set) {
            Result::Ok(true) => {},
            Result::Ok(false) => {
                return Ok(false);
            },
            Result::Err(m) => {
                return Err(m);
            },
        }
        k += 1;
    }
    Ok(true)
}

/// Enumerates every subset of the universe of size `0..=max_size`, by
/// increasing size, and keeps those that satisfy every rule. A rule type
/// error aborts the whole enumeration.
pub fn enumerate_feature_sets(universe: &FeatureList, rules: &Vec<Rule>, max_size: usize) -> (r:
    Result<Vec<FeatureList>, String>)
    requires
        universe@.len() < 64,
        max_size <= universe@.len(),
    ensures
        match r {
            Result::Ok(sets) => match keep_scan(
                universe@,
                rules@,
                enumerated_masks(universe@.len(), max_size as nat),
                universe@.len(),
            ) {
                Option::Some(kept) => sets@.len() == kept.len() && forall|i: int|
                    0 <= i < kept.len() ==> (#[trigger] sets@[i])@ == mask_list(
                        universe@,
                        kept[i],
                        universe@.len(),
                    ),
                Option::None => false,
            },
            Result::Err(_) => keep_scan(
                universe@,
                rules@,
                enumerated_masks(universe@.len(), max_size as nat),
                universe@.len(),
            ) is None,
        },
{
    let el = universe.len();
    let limit: u64 = 1u64 << (el as u64);
    let ghost u = universe@;
    let ghost el_g = universe@.len();
    let mut sets: Vec<FeatureList> = Vec::new();
    let ghost mut kept: Seq<u64> = Seq::empty();
    let mut n: usize = 0;
    assert(blocks_before(el_g, 0) =~= Seq::<u64>::empty());
    while n <= max_size
        invariant
            el == u.len(),
            el_g == u.len(),
            u == universe@,
            el < 64,
            max_size <= el,
            n <= max_size + 1,
            limit == 1u64 << (el as u64),
            keep_scan(u, rules@, blocks_before(el_g, n as nat), el_g) == Some(kept),
            sets@.len() == kept.len(),
            forall|i: int|
                0 <= i < kept.len() ==> (#[trigger] sets@[i])@ == mask_list(u, kept[i], el_g),
        decreases max_size + 1 - n,
    {
        let mut mask: u64 = 0;
        while mask < limit
            invariant
                el == u.len(),
                el_g == u.len(),
                u == universe@,
                el < 64,
                n <= max_size <= el,
                limit == 1u64 << (el as u64),
                mask <= limit,
                keep_scan(
                    u,
                    rules@,
                    blocks_before(el_g, n as nat) + masks_upto(el_g, n as nat, mask as nat),
                    el_g,
                ) == Some(kept),
                sets@.len() == kept.len(),
                forall|i: int|
                    0 <= i < kept.len() ==> (#[trigger] sets@[i])@ == mask_list(u, kept[i], el_g),
            decreases limit - mask,
        {
            let ghost pre = blocks_before(el_g, n as nat) + masks_upto(el_g, n as nat, mask as nat);
            let p = popcount(mask, el);
            if p as usize == n {
                assert(masks_upto(el_g, n as nat, (mask + 1) as nat) =~= masks_upto(
                    el_g,
                    n as nat,
                    mask as nat,
                ) + seq![mask]);
                let feature_set = subset_of_mask(universe, mask, el);
                let ghost nextpre = blocks_before(el_g, n as nat) + masks_upto(
                    el_g,
                    n as nat,
                    (mask + 1) as nat,
                );
                assert(nextpre =~= pre + seq![mask]);
                assert(nextpre.drop_last() =~= pre);
                assert(nextpre.last() == mask);
                match check_rules(rules, &feature_set) {
                    Result::Ok(true) => {
                        proof {
                            kept = kept.push(mask);
                        }
                        sets.push(feature_set);
                        assert(keep_scan(u, rules@, nextpre, el_g) == Some(kept));
                    },
                    Result::Ok(false) => {
                        assert(keep_scan(u, rules@, nextpre, el_g) == Some(kept));
                    },
                    Result::Err(m) => {
                        assert(keep_scan(u, rules@, nextpre, el_g) is None);
                        proof {
                            lemma_none_within_block(
                                u,
                                rules@,
                                blocks_before(el_g, n as nat),
                                el_g,
                                n as nat,
                                (mask + 1) as nat,
                                (1u64 << (el as u64)) as nat,
                            );
                            assert(keep_scan(u, rules@, blocks_before(el_g, (n + 1) as nat), el_g)
                                is None);
                            lemma_none_across_blocks(
                                u,
                                rules@,
                                el_g,
                                (n + 1) as nat,
                                (max_size + 1) as nat,
                            );
                        }
                        return Err(m);
                    },
                }
            } else {
                assert(masks_upto(el_g, n as nat, (mask + 1) as nat) =~= masks_upto(
                    el_g,
                    n as nat,
                    mask as nat,
                ));
            }
            mask += 1;
        }
        assert(blocks_before(el_g, n as nat) + masks_upto(el_g, n as nat, mask as nat)
            =~= blocks_before(el_g, (n + 1) as nat));
        n += 1;
    }
    assert(blocks_before(el_g, n as nat) == enumerated_masks(el_g, max_size as nat));
    Ok(sets)
}

} // verus!
