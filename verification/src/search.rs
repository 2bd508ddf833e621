use vstd::prelude::*;
use core::cmp::Ordering;
use crate::game_data::{Drug, DrugId, Effect, GameData, Ingredient, EFFECT_CAPACITY,
    MULTIPLIER_LIMIT};
use crate::game_data::{drug_for, game_data_wf, has_drug_entry, has_ingredient_entry,
    ingredient_for, ingredient_wf, lemma_drug_for, lemma_ingredient_for};
use crate::mix::{mix, mix_spec, EffectList};
use crate::filter::{at_least_as_good, compare_spec, filter_wf, Filter, OptimizeTarget};

verus! {

/// The ranking-relevant numbers of one scored candidate, as mathematical
/// integers.
pub ghost struct Score {
    pub cost: int,
    pub sell_price: int,
    pub profit: int,
    pub effect_count: int,
    pub multiplier: int,
    pub ingredient_count: int,
}

/// One scored candidate: a base drug, an ordered ingredient sequence, and the
/// values derived from them. `multiplier` is in hundredths.
pub struct MixResult {
    pub base_drug_id: DrugId,
    pub ingredient_ids: Vec<u8>,
    pub cost: u64,
    pub sell_price: u64,
    pub profit: u64,
    pub effects: EffectList,
    pub multiplier: u64,
}

/// The ranking keys a `MixResult` carries.
pub open spec fn score_of(m: MixResult) -> Score {
    Score {
        cost: m.cost as int,
        sell_price: m.sell_price as int,
        profit: m.profit as int,
        effect_count: m.effects@.len() as int,
        multiplier: m.multiplier as int,
        ingredient_count: m.ingredient_ids@.len() as int,
    }
}

/// The catalog ingredients an id sequence resolves to.
pub open spec fn resolve_ingredients(gd: GameData, ids: Seq<u8>) -> Seq<Ingredient> {
    ids.map_values(|id: u8| ingredient_for(gd, id))
}

/// Total acquisition cost: the sum of the buy prices, one per occurrence.
pub open spec fn cost_spec(gd: GameData, ids: Seq<u8>) -> int
    decreases ids.len(),
{
    if ids.len() == 0 {
        0
    } else {
        cost_spec(gd, ids.drop_last()) + ingredient_for(gd, ids.last()).buy_price
    }
}

/// Total multiplier (in hundredths): the sum of the multipliers of the catalog
/// effects present in `s`.
pub open spec fn mult_spec(effects: Seq<Effect>, s: Set<int>) -> int
    decreases effects.len(),
{
    if effects.len() == 0 {
        0
    } else {
        mult_spec(effects.drop_last(), s) + if s.contains(effects.last().id as int) {
            effects.last().multiplier as int
        } else {
            0
        }
    }
}

/// Sell price: the base value times one plus the multiplier, rounded to the
/// nearest integer (halves up), in integer hundredths arithmetic.
pub open spec fn sell_spec(base: int, mult: int) -> int {
    (base * (100 + mult) + 50) / 100
}

/// Profit: the saturating difference of sell price and cost, never negative.
pub open spec fn profit_spec(sell: int, cost: int) -> int {
    if sell >= cost {
        sell - cost
    } else {
        0
    }
}

/// Law: profit is `max(0, sell - cost)`; whenever the cost exceeds the sell
/// price it is exactly zero, and it is never negative.
pub proof fn lemma_profit_saturates(sell: int, cost: int)
    ensures
        profit_spec(sell, cost) >= 0,
        cost > sell ==> profit_spec(sell, cost) == 0,
        cost <= sell ==> profit_spec(sell, cost) == sell - cost,
{
}

/// All derived values of the candidate `(d, ids)`.
pub open spec fn candidate_score(gd: GameData, d: Drug, ids: Seq<u8>) -> Score {
    let s = mix_spec(d, resolve_ingredients(gd, ids));
    let cost = cost_spec(gd, ids);
    let mult = mult_spec(gd.effects@, s);
    let sell = sell_spec(d.base_sell_value as int, mult);
    Score {
        cost: cost,
        sell_price: sell,
        profit: profit_spec(sell, cost),
        effect_count: s.len() as int,
        multiplier: mult,
        ingredient_count: ids.len() as int,
    }
}

/// A candidate is admissible iff its effect set contains every required
/// effect and none of the blocked effects.
pub open spec fn admissible_spec(f: Filter, s: Set<int>) -> bool {
    &&& forall|i: int|
        0 <= i < f.required_effects@.len() ==> s.contains((#[trigger] f.required_effects@[i]) as int)
    &&& forall|i: int|
        0 <= i < f.blocked_effects@.len() ==> !s.contains((#[trigger] f.blocked_effects@[i]) as int)
}

/// Checks the required/blocked constraints against an effect set.
pub fn is_admissible(filter: &Filter, effects: &EffectList) -> (r: bool)
    requires
        forall|i: int|
            0 <= i < filter.required_effects@.len() ==> (#[trigger] filter.required_effects@[i])
                < EFFECT_CAPACITY,
        forall|i: int|
            0 <= i < filter.blocked_effects@.len() ==> (#[trigger] filter.blocked_effects@[i])
                < EFFECT_CAPACITY,
    ensures
        r == admissible_spec(*filter, effects@),
{
    let nr = filter.required_effects.len();
    for j in 0..nr
        invariant
            nr == filter.required_effects@.len(),
            forall|i: int|
                0 <= i < filter.required_effects@.len() ==> (#[trigger] filter.required_effects@[i])
                    < EFFECT_CAPACITY,
            forall|k: int|
                0 <= k < j ==> effects@.contains((#[trigger] filter.required_effects@[k]) as int),
    {
        if !effects.has_effect(&filter.required_effects[j]) {
            return false;
        }
    }
    let nb = filter.blocked_effects.len();
    for j in 0..nb
        invariant
            nb == filter.blocked_effects@.len(),
            forall|i: int|
                0 <= i < filter.blocked_effects@.len() ==> (#[trigger] filter.blocked_effects@[i])
                    < EFFECT_CAPACITY,
            forall|i: int|
                0 <= i < filter.required_effects@.len() ==> effects@.contains((
                #[trigger] filter.required_effects@[i]) as int),
            forall|k: int|
                0 <= k < j ==> !effects@.contains((#[trigger] filter.blocked_effects@[k]) as int),
    {
        if effects.has_effect(&filter.blocked_effects[j]) {
            return false;
        }
    }
    true
}

proof fn lemma_sorted_effect_index(gd: GameData, j: int)
    requires
        game_data_wf(gd),
        0 <= j < gd.effects@.len(),
    ensures
        gd.effects@[j].id >= j,
    decreases j,
{
    if j > 0 {
        lemma_sorted_effect_index(gd, j - 1);
        assert(gd.effects@[j - 1].id < gd.effects@[j].id);
    }
}

proof fn lemma_effects_len(gd: GameData)
    requires
        game_data_wf(gd),
    ensures
        gd.effects@.len() <= 64,
{
    if gd.effects@.len() > 64 {
        lemma_sorted_effect_index(gd, 64);
        assert(gd.effects@[64].id < EFFECT_CAPACITY);
        assert(false);
    }
}

proof fn lemma_mult_spec_bound(effects: Seq<Effect>, s: Set<int>)
    requires
        forall|j: int| 0 <= j < effects.len() ==> (#[trigger] effects[j]).multiplier
            <= MULTIPLIER_LIMIT,
    ensures
        0 <= mult_spec(effects, s) <= effects.len() * MULTIPLIER_LIMIT,
    decreases effects.len(),
{
    if effects.len() > 0 {
        let prev = effects.drop_last();
        assert forall|j: int| 0 <= j < prev.len() implies (#[trigger] prev[j]).multiplier
            <= MULTIPLIER_LIMIT by {
            assert(prev[j] == effects[j]);
        }
        lemma_mult_spec_bound(prev, s);
        assert(effects[effects.len() - 1].multiplier <= MULTIPLIER_LIMIT);
        assert(prev.len() == effects.len() - 1);
        assert((effects.len() - 1) * MULTIPLIER_LIMIT + MULTIPLIER_LIMIT == effects.len()
            * MULTIPLIER_LIMIT) by (nonlinear_arith);
    }
}

fn copy_ids(v: &Vec<u8>) -> (r: Vec<u8>)
    ensures
        r@ == v@,
{
    let mut r: Vec<u8> = Vec::new();
    let n = v.len();
    for j in 0..n
        invariant
            n == v@.len(),
            r@ == v@.take(j as int),
    {
        r.push(v[j]);
        proof {
            assert(v@.take(j + 1) =~= v@.take(j as int).push(v@[j as int]));
        }
    }
    proof {
        assert(v@.take(n as int) =~= v@);
    }
    r
}

/// Scores one candidate: mixes the ingredient sequence into the base drug and
/// derives cost, multiplier, sell price and profit.
pub fn score_mix(game_data: &GameData, base_drug: &Drug, ingredient_ids: &Vec<u8>) -> (r: MixResult)
    requires
        game_data_wf(*game_data),
        has_drug_entry(*game_data, base_drug.id),
        drug_for(*game_data, base_drug.id) == *base_drug,
        forall|i: int|
            0 <= i < ingredient_ids@.len() ==> has_ingredient_entry(
                *game_data,
                #[trigger] ingredient_ids@[i],
            ),
        ingredient_ids@.len() <= 0xFFFF_FFFF,
    ensures
        r.base_drug_id == base_drug.id,
        r.ingredient_ids@ == ingredient_ids@,
        r.effects@ == mix_spec(*base_drug, resolve_ingredients(*game_data, ingredient_ids@)),
        score_of(r) == candidate_score(*game_data, *base_drug, ingredient_ids@),
{
    let ghost gd = *game_data;
    let ghost ids = ingredient_ids@;
    let mut refs: Vec<&Ingredient> = Vec::new();
    let n = ingredient_ids.len();
    for j in 0..n
        invariant
            n == ingredient_ids@.len(),
            game_data_wf(gd),
            gd == *game_data,
            ids == ingredient_ids@,
            forall|i: int|
                0 <= i < ingredient_ids@.len() ==> has_ingredient_entry(
                    gd,
                    #[trigger] ingredient_ids@[i],
                ),
            refs@.len() == j,
            forall|k: int|
                0 <= k < j ==> *(#[trigger] refs@[k]) == ingredient_for(gd, ids[k]),
            forall|k: int| 0 <= k < j ==> ingredient_wf(*(#[trigger] refs@[k])),
    {
        let ing_opt = game_data.get_ingredient(ingredient_ids[j]);
        let ing = ing_opt.unwrap();
        proof {
            let jj = choose|jj: int|
                0 <= jj < game_data.ingredients@.len() && *ing == (
                #[trigger] game_data.ingredients@[jj]) && ing.id == ids[j as int];
            lemma_ingredient_for(gd, jj);
        }
        refs.push(ing);
    }
    let effects = mix(base_drug, refs.as_slice());
    proof {
        assert(refs@.map_values(|i: &Ingredient| *i) =~= resolve_ingredients(gd, ids));
    }
    let mut cost: u64 = 0;
    proof {
        assert(ids.take(0) =~= Seq::<u8>::empty());
    }
    for j in 0..n
        invariant
            n == ingredient_ids@.len(),
            n <= 0xFFFF_FFFF,
            gd == *game_data,
            ids == ingredient_ids@,
            refs@.len() == n,
            forall|k: int|
                0 <= k < n ==> *(#[trigger] refs@[k]) == ingredient_for(gd, ids[k]),
            cost == cost_spec(gd, ids.take(j as int)),
            cost <= 255 * j,
    {
        cost = cost + refs[j].buy_price as u64;
        proof {
            assert(ids.take(j + 1).drop_last() =~= ids.take(j as int));
            assert(ids.take(j + 1).last() == ids[j as int]);
        }
    }
    proof {
        assert(ids.take(n as int) =~= ids);
    }
    let ghost result_set = effects@;
    let mut multiplier: u64 = 0;
    let ne = game_data.effects.len();
    proof {
        lemma_effects_len(gd);
        assert(gd.effects@.take(0) =~= Seq::<Effect>::empty());
    }
    for j in 0..ne
        invariant
            ne == game_data.effects@.len(),
            ne <= 64,
            gd == *game_data,
            game_data_wf(gd),
            multiplier == mult_spec(gd.effects@.take(j as int), result_set),
            multiplier <= MULTIPLIER_LIMIT * j,
            result_set == effects@,
    {
        let effect = &game_data.effects[j];
        if effects.has_effect(&effect.id) {
            multiplier = multiplier + effect.multiplier;
        }
        proof {
            assert(gd.effects@.take(j + 1).drop_last() =~= gd.effects@.take(j as int));
            assert(gd.effects@.take(j + 1).last() == gd.effects@[j as int]);
        }
    }
    proof {
        assert(gd.effects@.take(ne as int) =~= gd.effects@);
        assert(multiplier <= 64 * MULTIPLIER_LIMIT);
    }
    let base = base_drug.base_sell_value as u64;
    proof {
        assert(base * (100 + multiplier) <= 255 * (100 + 64 * MULTIPLIER_LIMIT))
            by (nonlinear_arith)
            requires
                base <= 255,
                multiplier <= 64 * MULTIPLIER_LIMIT,
        ;
    }
    let sell_price = (base * (100 + multiplier) + 50) / 100;
    let profit = if sell_price >= cost {
        sell_price - cost
    } else {
        0
    };
    let owned_ids = copy_ids(ingredient_ids);
    MixResult {
        base_drug_id: base_drug.id,
        ingredient_ids: owned_ids,
        cost,
        sell_price,
        profit,
        effects,
        multiplier,
    }
}

/// An ingredient sequence the configuration admits for enumeration.
pub open spec fn seq_ok(f: Filter, s: Seq<u8>) -> bool {
    &&& 1 <= s.len() <= f.max_ingredients
    &&& forall|i: int| 0 <= i < s.len() ==> f.available_ingredients@.contains(#[trigger] s[i])
}

/// A candidate the configuration admits for enumeration.
pub open spec fn candidate_ok(f: Filter, d: DrugId, s: Seq<u8>) -> bool {
    f.available_drugs@.contains(d) && seq_ok(f, s)
}

/// The effect set of the candidate `(d, s)`.
pub open spec fn cand_effects(gd: GameData, d: Drug, s: Seq<u8>) -> Set<int> {
    mix_spec(d, resolve_ingredients(gd, s))
}

/// Whether the candidate `(d, s)` passes the admission filter.
pub open spec fn cand_admissible(f: Filter, gd: GameData, d: Drug, s: Seq<u8>) -> bool {
    admissible_spec(f, cand_effects(gd, d, s))
}

/// A `MixResult` that genuinely belongs to the search space: its candidate is
/// eligible, its fields are the candidate's derived values, and it passes the
/// admission filter.
pub open spec fn result_ok(f: Filter, gd: GameData, m: MixResult) -> bool {
    &&& candidate_ok(f, m.base_drug_id, m.ingredient_ids@)
    &&& has_drug_entry(gd, m.base_drug_id)
    &&& m.effects@ == cand_effects(gd, drug_for(gd, m.base_drug_id), m.ingredient_ids@)
    &&& score_of(m) == candidate_score(gd, drug_for(gd, m.base_drug_id), m.ingredient_ids@)
    &&& admissible_spec(f, m.effects@)
}

/// `result_ok` lifted to an optional result.
pub open spec fn opt_result_ok(f: Filter, gd: GameData, r: Option<MixResult>) -> bool {
    match r {
        None => true,
        Some(m) => result_ok(f, gd, m),
    }
}

/// Walks the target list and returns the first non-equal ordering; `Equal`
/// when every target ties.
pub fn compare_results(targets: &Vec<OptimizeTarget>, a: &MixResult, b: &MixResult) -> (r: Ordering)
    ensures
        r == compare_spec(targets@, score_of(*a), score_of(*b)),
{
    let n = targets.len();
    proof {
        assert(targets@.skip(0) =~= targets@);
    }
    for j in 0..n
        invariant
            n == targets@.len(),
            compare_spec(targets@, score_of(*a), score_of(*b)) == compare_spec(
                targets@.skip(j as int),
                score_of(*a),
                score_of(*b),
            ),
    {
        let ghost rest = targets@.skip(j as int);
        proof {
            assert(rest[0] == targets@[j as int]);
            assert(rest.drop_first() =~= targets@.skip(j + 1));
        }
        match targets[j].compare(a, b) {
            Ordering::Less => {
                return Ordering::Less;
            },
            Ordering::Greater => {
                return Ordering::Greater;
            },
            Ordering::Equal => {},
        }
    }
    Ordering::Equal
}

/// The pairwise reduction step: keeps `existing` unless `new_result` ranks
/// strictly better.
pub fn pick_better(targets: &Vec<OptimizeTarget>, existing: MixResult, new_result: MixResult) -> (r:
    MixResult)
    ensures
        compare_spec(targets@, score_of(existing), score_of(new_result)) == Ordering::Less ==> r
            == new_result,
        compare_spec(targets@, score_of(existing), score_of(new_result)) != Ordering::Less ==> r
            == existing,
{
    match compare_results(targets, &existing, &new_result) {
        Ordering::Less => new_result,
        _ => existing,
    }
}

/// An extension of `p`: a strictly longer sequence with prefix `p`, within the
/// length bound, whose added elements are all eligible.
spec fn ext_of(s: Seq<u8>, p: Seq<u8>, f: Filter) -> bool {
    &&& p.is_prefix_of(s)
    &&& p.len() < s.len() <= f.max_ingredients
    &&& forall|i: int|
        p.len() <= i < s.len() ==> f.available_ingredients@.contains(#[trigger] s[i])
}

/// An extension of `p` whose first added element is one of the first `j`
/// eligible ingredients: the part of the extension space a loop has covered.
spec fn covered(s: Seq<u8>, p: Seq<u8>, f: Filter, j: int) -> bool {
    &&& p.is_prefix_of(s)
    &&& p.len() < s.len() <= f.max_ingredients
    &&& f.available_ingredients@.take(j).contains(s[p.len() as int])
    &&& forall|i: int|
        p.len() < i < s.len() ==> f.available_ingredients@.contains(#[trigger] s[i])
}

#[verifier::loop_isolation(false)]
fn search_extensions(
    game_data: &GameData,
    filter: &Filter,
    drug: &Drug,
    prefix: &mut Vec<u8>,
    best: Option<MixResult>,
) -> (r: Option<MixResult>)
    requires
        game_data_wf(*game_data),
        filter_wf(*filter, *game_data),
        has_drug_entry(*game_data, drug.id),
        drug_for(*game_data, drug.id) == *drug,
        filter.available_drugs@.contains(drug.id),
        old(prefix)@.len() < filter.max_ingredients,
        forall|i: int|
            0 <= i < old(prefix)@.len() ==> filter.available_ingredients@.contains(
                #[trigger] old(prefix)@[i],
            ),
        opt_result_ok(*filter, *game_data, best),
    ensures
        final(prefix)@ == old(prefix)@,
        opt_result_ok(*filter, *game_data, r),
        r is None ==> best is None,
        best matches Some(b) ==> (r matches Some(m) && at_least_as_good(
            filter.optimize_targets@,
            score_of(m),
            score_of(b),
        )),
        r is None ==> forall|s: Seq<u8>|
            #[trigger] ext_of(s, old(prefix)@, *filter) ==> !cand_admissible(
                *filter,
                *game_data,
                *drug,
                s,
            ),
        r matches Some(m) ==> forall|s: Seq<u8>|
            #[trigger] ext_of(s, old(prefix)@, *filter) && cand_admissible(
                *filter,
                *game_data,
                *drug,
                s,
            ) ==> at_least_as_good(
                filter.optimize_targets@,
                score_of(m),
                candidate_score(*game_data, *drug, s),
            ),
    decreases filter.max_ingredients - old(prefix)@.len(),
{
    let ghost gd = *game_data;
    let ghost f = *filter;
    let ghost p = old(prefix)@;
    let ghost ts = filter.optimize_targets@;
    let ghost b0 = best;
    let mut best = best;
    proof {
        match b0 {
            Some(b) => {
                lemma_compare_reflexive_glue(ts, score_of(b));
            },
            None => {},
        }
    }
    let n = filter.available_ingredients.len();
    let mut j: usize = 0;
    while j < n
        invariant
            n == f.available_ingredients@.len(),
            game_data_wf(gd),
            filter_wf(f, gd),
            gd == *game_data,
            f == *filter,
            ts == f.optimize_targets@,
            has_drug_entry(gd, drug.id),
            drug_for(gd, drug.id) == *drug,
            f.available_drugs@.contains(drug.id),
            prefix@ == p,
            p.len() < f.max_ingredients,
            forall|i: int|
                0 <= i < p.len() ==> f.available_ingredients@.contains(#[trigger] p[i]),
            opt_result_ok(f, gd, best),
            best is None ==> b0 is None,
            b0 matches Some(b) ==> (best matches Some(m) && at_least_as_good(
                ts,
                score_of(m),
                score_of(b),
            )),
            best is None ==> forall|s: Seq<u8>|
                #[trigger] covered(s, p, f, j as int) ==> !cand_admissible(f, gd, *drug, s),
            best matches Some(m) ==> forall|s: Seq<u8>|
                #[trigger] covered(s, p, f, j as int) && cand_admissible(f, gd, *drug, s)
                    ==> at_least_as_good(ts, score_of(m), candidate_score(gd, *drug, s)),
            j <= n,
        decreases n - j,
    {
        let ghost best_entry = best;
        let ing_id = filter.available_ingredients[j];
        prefix.push(ing_id);
        let ghost c = p.push(ing_id);
        proof {
            assert forall|i: int| 0 <= i < c.len() implies has_ingredient_entry(
                gd,
                #[trigger] c[i],
            ) by {
                assert(f.available_ingredients@.contains(c[i]));
                let idx = choose|idx: int|
                    0 <= idx < f.available_ingredients@.len() && f.available_ingredients@[idx]
                        == c[i];
                assert(has_ingredient_entry(gd, f.available_ingredients@[idx]));
            }
        }
        let m = score_mix(game_data, drug, prefix);
        let admissible = is_admissible(filter, &m.effects);
        let ghost m_snapshot = m;
        proof {
            assert(seq_ok(f, c));
            assert(score_of(m) == candidate_score(gd, *drug, c));
            if admissible {
                assert(result_ok(f, gd, m));
                assert(cand_admissible(f, gd, *drug, c));
            } else {
                assert(!cand_admissible(f, gd, *drug, c));
            }
        }
        if admissible {
            best = match best {
                None => Some(m),
                Some(b) => {
                    proof {
                        crate::filter::lemma_compare_flip(ts, score_of(b), score_of(m));
                        lemma_compare_reflexive_glue(ts, score_of(b));
                        lemma_compare_reflexive_glue(ts, score_of(m));
                    }
                    Some(pick_better(&filter.optimize_targets, b, m))
                },
            };
        }
        let ghost best_mid = best;
        proof {
            // After the fold, the mid best ranks at least as well as the entry
            // best (if any) and as the fresh candidate (if admissible).
            match best_entry {
                Some(be) => {
                    match best_mid {
                        Some(mb) => {
                            lemma_compare_reflexive_glue(ts, score_of(be));
                            assert(at_least_as_good(ts, score_of(mb), score_of(be)));
                        },
                        None => {
                            assert(false);
                        },
                    }
                },
                None => {},
            }
            if admissible {
                match best_mid {
                    Some(mb) => {
                        lemma_compare_reflexive_glue(ts, score_of(m_snapshot));
                        assert(at_least_as_good(ts, score_of(mb), score_of(m_snapshot)));
                    },
                    None => {
                        assert(false);
                    },
                }
            }
        }
        let deep = prefix.len() < filter.max_ingredients;
        if deep {
            best = search_extensions(game_data, filter, drug, prefix, best);
        }
        let _ = prefix.pop();
        proof {
            assert(prefix@ =~= p);
            let best_end = best;
            // Coverage: everything covered at `j + 1` is covered at `j`, is the
            // fresh candidate `c`, or extends `c`.
            assert forall|s: Seq<u8>| #[trigger] covered(s, p, f, j + 1) implies covered(
                s,
                p,
                f,
                j as int,
            ) || s == c || ext_of(s, c, f) by {
                let taken = f.available_ingredients@.take(j + 1);
                assert(taken.contains(s[p.len() as int]));
                let ti = choose|ti: int| 0 <= ti < taken.len() && taken[ti] == s[p.len() as int];
                if ti < j {
                    assert(f.available_ingredients@.take(j as int)[ti] == s[p.len() as int]);
                    assert(f.available_ingredients@.take(j as int).contains(s[p.len() as int]));
                    assert(covered(s, p, f, j as int));
                } else {
                    assert(s[p.len() as int] == ing_id);
                    assert forall|i: int| 0 <= i < c.len() implies c[i] == s[i] by {
                        if i < p.len() {
                            assert(p[i] == s[i]);
                        }
                    }
                    if s.len() == c.len() {
                        assert(s =~= c);
                    } else {
                        assert(c.is_prefix_of(s));
                        assert(ext_of(s, c, f));
                    }
                }
            }
            if !deep {
                assert forall|s: Seq<u8>| !ext_of(s, c, f) by {
                    if ext_of(s, c, f) {
                        assert(c.len() < s.len() <= f.max_ingredients);
                    }
                }
            }
            match best_end {
                Some(eb) => {
                    let mb = match best_mid {
                        Some(mb) => mb,
                        None => eb,
                    };
                    if best_mid is Some {
                        lemma_compare_reflexive_glue(ts, score_of(eb));
                        assert(at_least_as_good(ts, score_of(eb), score_of(mb)));
                    }
                    match b0 {
                        Some(b) => {
                            let be = match best_entry {
                                Some(be) => be,
                                None => eb,
                            };
                            assert(at_least_as_good(ts, score_of(be), score_of(b)));
                            crate::filter::lemma_compare_transitive(
                                ts,
                                score_of(eb),
                                score_of(mb),
                                score_of(be),
                            );
                            crate::filter::lemma_compare_transitive(
                                ts,
                                score_of(eb),
                                score_of(be),
                                score_of(b),
                            );
                        },
                        None => {},
                    }
                    assert forall|s: Seq<u8>|
                        #[trigger] covered(s, p, f, j + 1) && cand_admissible(f, gd, *drug, s)
                            implies at_least_as_good(ts, score_of(eb), candidate_score(
                        gd,
                        *drug,
                        s,
                    )) by {
                        if covered(s, p, f, j as int) {
                            match best_entry {
                                Some(be) => {
                                    assert(at_least_as_good(ts, score_of(be), candidate_score(
                                        gd,
                                        *drug,
                                        s,
                                    )));
                                    crate::filter::lemma_compare_transitive(
                                        ts,
                                        score_of(eb),
                                        score_of(mb),
                                        score_of(be),
                                    );
                                    crate::filter::lemma_compare_transitive(
                                        ts,
                                        score_of(eb),
                                        score_of(be),
                                        candidate_score(gd, *drug, s),
                                    );
                                },
                                None => {
                                    assert(!cand_admissible(f, gd, *drug, s));
                                },
                            }
                        } else if s == c {
                            assert(admissible);
                            assert(at_least_as_good(ts, score_of(mb), score_of(m_snapshot)));
                            crate::filter::lemma_compare_transitive(
                                ts,
                                score_of(eb),
                                score_of(mb),
                                score_of(m_snapshot),
                            );
                        } else {
                            assert(ext_of(s, c, f));
                            assert(deep);
                            assert(at_least_as_good(ts, score_of(eb), candidate_score(
                                gd,
                                *drug,
                                s,
                            )));
                        }
                    }
                },
                None => {
                    assert(best_mid is None);
                    assert(best_entry is None);
                    assert(!admissible);
                    assert forall|s: Seq<u8>| #[trigger] covered(s, p, f, j + 1) implies
                        !cand_admissible(f, gd, *drug, s) by {
                        if covered(s, p, f, j as int) {
                        } else if s == c {
                        } else {
                            assert(ext_of(s, c, f));
                            if deep {
                            } else {
                                assert(false);
                            }
                        }
                    }
                },
            }
        }
        j = j + 1;
    }
    proof {
        assert(f.available_ingredients@.take(n as int) =~= f.available_ingredients@);
        assert forall|s: Seq<u8>| #[trigger] ext_of(s, p, f) implies covered(s, p, f, n as int) by {
            assert(f.available_ingredients@.contains(s[p.len() as int]));
        }
    }
    best
}

/// Helper: every score ranks at least as well as itself.
proof fn lemma_compare_reflexive_glue(ts: Seq<OptimizeTarget>, a: Score)
    ensures
        at_least_as_good(ts, a, a),
    decreases ts.len(),
{
    if ts.len() > 0 {
        lemma_compare_reflexive_glue(ts.drop_first(), a);
    }
}

/// The best admissible candidate that uses this base drug, or none.
pub fn best_mix_for_drug(filter: &Filter, game_data: &GameData, drug_id: DrugId) -> (r: Option<
    MixResult,
>)
    requires
        game_data_wf(*game_data),
        filter_wf(*filter, *game_data),
        filter.available_drugs@.contains(drug_id),
        has_drug_entry(*game_data, drug_id),
    ensures
        opt_result_ok(*filter, *game_data, r),
        r is None ==> forall|s: Seq<u8>|
            #[trigger] seq_ok(*filter, s) ==> !cand_admissible(
                *filter,
                *game_data,
                drug_for(*game_data, drug_id),
                s,
            ),
        r matches Some(m) ==> forall|s: Seq<u8>|
            #[trigger] seq_ok(*filter, s) && cand_admissible(
                *filter,
                *game_data,
                drug_for(*game_data, drug_id),
                s,
            ) ==> at_least_as_good(
                filter.optimize_targets@,
                score_of(m),
                candidate_score(*game_data, drug_for(*game_data, drug_id), s),
            ),
{
    best_mix_for_drug_from(filter, game_data, drug_id, None)
}

/// Enumerates every eligible candidate, scores it, discards the inadmissible,
/// and reduces the rest with the ranked comparator to a single best candidate;
/// `None` when the space is empty or nothing is admissible.
pub fn find_optimal_mix(filter: &Filter, game_data: &GameData) -> (r: Option<MixResult>)
    requires
        game_data_wf(*game_data),
        filter_wf(*filter, *game_data),
    ensures
        opt_result_ok(*filter, *game_data, r),
        r is None ==> forall|d: DrugId, s: Seq<u8>|
            #[trigger] candidate_ok(*filter, d, s) ==> !cand_admissible(
                *filter,
                *game_data,
                drug_for(*game_data, d),
                s,
            ),
        r matches Some(m) ==> forall|d: DrugId, s: Seq<u8>|
            #[trigger] candidate_ok(*filter, d, s) && cand_admissible(
                *filter,
                *game_data,
                drug_for(*game_data, d),
                s,
            ) ==> at_least_as_good(
                filter.optimize_targets@,
                score_of(m),
                candidate_score(*game_data, drug_for(*game_data, d), s),
            ),
{
    let ghost gd = *game_data;
    let ghost f = *filter;
    let ghost ts = filter.optimize_targets@;
    let mut best: Option<MixResult> = None;
    let nd = filter.available_drugs.len();
    for di in 0..nd
        invariant
            nd == f.available_drugs@.len(),
            game_data_wf(gd),
            filter_wf(f, gd),
            gd == *game_data,
            f == *filter,
            ts == f.optimize_targets@,
            opt_result_ok(f, gd, best),
            best is None ==> forall|k: int, s: Seq<u8>|
                #![trigger f.available_drugs@[k], seq_ok(f, s)]
                0 <= k < di && seq_ok(f, s) ==> !cand_admissible(
                    f,
                    gd,
                    drug_for(gd, f.available_drugs@[k]),
                    s,
                ),
            best matches Some(m) ==> forall|k: int, s: Seq<u8>|
                #![trigger f.available_drugs@[k], seq_ok(f, s)]
                0 <= k < di && seq_ok(f, s) && cand_admissible(
                    f,
                    gd,
                    drug_for(gd, f.available_drugs@[k]),
                    s,
                ) ==> at_least_as_good(
                    ts,
                    score_of(m),
                    candidate_score(gd, drug_for(gd, f.available_drugs@[k]), s),
                ),
    {
        let drug_id = filter.available_drugs[di];
        let ghost best_entry = best;
        proof {
            assert(has_drug_entry(gd, f.available_drugs@[di as int]));
        }
        best = best_mix_for_drug_from(filter, game_data, drug_id, best);
        proof {
            let best_end = best;
            match best_end {
                Some(eb) => {
                    assert forall|k: int, s: Seq<u8>|
                        #![trigger f.available_drugs@[k], seq_ok(f, s)]
                        0 <= k < di + 1 && seq_ok(f, s) && cand_admissible(
                            f,
                            gd,
                            drug_for(gd, f.available_drugs@[k]),
                            s,
                        ) implies at_least_as_good(ts, score_of(eb), candidate_score(
                        gd,
                        drug_for(gd, f.available_drugs@[k]),
                        s,
                    )) by {
                        if k < di {
                            match best_entry {
                                Some(be) => {
                                    assert(at_least_as_good(ts, score_of(be), candidate_score(
                                        gd,
                                        drug_for(gd, f.available_drugs@[k]),
                                        s,
                                    )));
                                    crate::filter::lemma_compare_transitive(
                                        ts,
                                        score_of(eb),
                                        score_of(be),
                                        candidate_score(gd, drug_for(gd, f.available_drugs@[k]), s),
                                    );
                                },
                                None => {
                                    assert(!cand_admissible(
                                        f,
                                        gd,
                                        drug_for(gd, f.available_drugs@[k]),
                                        s,
                                    ));
                                },
                            }
                        } else {
                            assert(f.available_drugs@[k] == drug_id);
                        }
                    }
                },
                None => {},
            }
        }
    }
    proof {
        let bg = best;
        if bg is None {
            assert forall|d: DrugId, s: Seq<u8>| #[trigger] candidate_ok(f, d, s) implies
                !cand_admissible(f, gd, drug_for(gd, d), s) by {
                let k = choose|k: int|
                    0 <= k < f.available_drugs@.len() && f.available_drugs@[k] == d;
                assert(seq_ok(f, s));
            }
        }
        match bg {
            Some(m) => {
                assert forall|d: DrugId, s: Seq<u8>|
                    #[trigger] candidate_ok(f, d, s) && cand_admissible(f, gd, drug_for(gd, d), s)
                        implies at_least_as_good(ts, score_of(m), candidate_score(
                    gd,
                    drug_for(gd, d),
                    s,
                )) by {
                    let k = choose|k: int|
                        0 <= k < f.available_drugs@.len() && f.available_drugs@[k] == d;
                    assert(seq_ok(f, s));
                }
            },
            None => {},
        }
    }
    best
}

/// One drug's search pass, folded onto an incoming best.
fn best_mix_for_drug_from(
    filter: &Filter,
    game_data: &GameData,
    drug_id: DrugId,
    best: Option<MixResult>,
) -> (r: Option<MixResult>)
    requires
        game_data_wf(*game_data),
        filter_wf(*filter, *game_data),
        filter.available_drugs@.contains(drug_id),
        has_drug_entry(*game_data, drug_id),
        opt_result_ok(*filter, *game_data, best),
    ensures
        opt_result_ok(*filter, *game_data, r),
        r is None ==> best is None,
        best matches Some(b) ==> (r matches Some(m) && at_least_as_good(
            filter.optimize_targets@,
            score_of(m),
            score_of(b),
        )),
        r is None ==> forall|s: Seq<u8>|
            #[trigger] seq_ok(*filter, s) ==> !cand_admissible(
                *filter,
                *game_data,
                drug_for(*game_data, drug_id),
                s,
            ),
        r matches Some(m) ==> forall|s: Seq<u8>|
            #[trigger] seq_ok(*filter, s) && cand_admissible(
                *filter,
                *game_data,
                drug_for(*game_data, drug_id),
                s,
            ) ==> at_least_as_good(
                filter.optimize_targets@,
                score_of(m),
                candidate_score(*game_data, drug_for(*game_data, drug_id), s),
            ),
{
    let ghost gd = *game_data;
    let ghost f = *filter;
    let drug_opt = game_data.get_drug(drug_id);
    let drug = drug_opt.unwrap();
    proof {
        let jj = choose|jj: int|
            0 <= jj < game_data.drugs@.len() && *drug == (#[trigger] game_data.drugs@[jj])
                && drug.id == drug_id;
        lemma_drug_for(gd, jj);
    }
    if filter.max_ingredients == 0 {
        proof {
            assert forall|s: Seq<u8>| !seq_ok(f, s) by {
                if seq_ok(f, s) {
                    assert(1 <= s.len() <= f.max_ingredients);
                }
            }
        }
        return best;
    }
    let mut prefix: Vec<u8> = Vec::new();
    let r = search_extensions(game_data, filter, drug, &mut prefix, best);
    proof {
        assert forall|s: Seq<u8>| #[trigger] seq_ok(f, s) implies ext_of(
            s,
            Seq::<u8>::empty(),
            f,
        ) by {
            assert(Seq::<u8>::empty().is_prefix_of(s));
        }
    }
    r
}

} // verus!
