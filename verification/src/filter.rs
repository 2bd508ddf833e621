use vstd::prelude::*;
use core::cmp::Ordering;
use crate::game_data::{GameData, EFFECT_CAPACITY};
use crate::game_data::{has_drug_entry, has_ingredient_entry};
use crate::search::{score_of, MixResult, Score};

verus! {

/// One ranking criterion and its preferred direction.
#[derive(Debug, Clone, Copy, PartialEq, Eq, Structural)]
pub enum OptimizeTarget {
    Profit,
    SellPrice,
    Cost,
    FewestEffects,
    MostEffects,
    Multiplier,
    Ingredients,
}

/// The signed key a target ranks by: comparing two candidates under a target
/// compares these keys, larger preferred. Targets that prefer smaller values
/// negate their key.
pub open spec fn target_key(t: OptimizeTarget, s: Score) -> int {
    match t {
        OptimizeTarget::Profit => s.profit,
        OptimizeTarget::SellPrice => s.sell_price,
        OptimizeTarget::Cost => -s.cost,
        OptimizeTarget::FewestEffects => -s.effect_count,
        OptimizeTarget::MostEffects => s.effect_count,
        OptimizeTarget::Multiplier => s.multiplier,
        OptimizeTarget::Ingredients => -s.ingredient_count,
    }
}

/// Ordering of two scored candidates under one target.
pub open spec fn compare_one(t: OptimizeTarget, a: Score, b: Score) -> Ordering {
    if target_key(t, a) < target_key(t, b) {
        Ordering::Less
    } else if target_key(t, a) > target_key(t, b) {
        Ordering::Greater
    } else {
        Ordering::Equal
    }
}

/// Lexicographic ordering over the target list: the first target where the
/// two candidates differ decides; if all targets tie the candidates are equal.
pub open spec fn compare_spec(ts: Seq<OptimizeTarget>, a: Score, b: Score) -> Ordering
    decreases ts.len(),
{
    if ts.len() == 0 {
        Ordering::Equal
    } else if compare_one(ts[0], a, b) != Ordering::Equal {
        compare_one(ts[0], a, b)
    } else {
        compare_spec(ts.drop_first(), a, b)
    }
}

/// `a` ranks at least as well as `b` under the target list.
pub open spec fn at_least_as_good(ts: Seq<OptimizeTarget>, a: Score, b: Score) -> bool {
    compare_spec(ts, a, b) != Ordering::Less
}

/// Swapping the candidates mirrors the ordering.
pub proof fn lemma_compare_flip(ts: Seq<OptimizeTarget>, a: Score, b: Score)
    ensures
        (compare_spec(ts, a, b) == Ordering::Less) == (compare_spec(ts, b, a)
            == Ordering::Greater),
        (compare_spec(ts, a, b) == Ordering::Equal) == (compare_spec(ts, b, a)
            == Ordering::Equal),
    decreases ts.len(),
{
    if ts.len() > 0 {
        lemma_compare_flip(ts.drop_first(), a, b);
    }
}

/// The comparator is a total preorder: "ranks at least as well as" is
/// transitive, which is what allows folding candidates pairwise in any order.
pub proof fn lemma_compare_transitive(ts: Seq<OptimizeTarget>, a: Score, b: Score, c: Score)
    requires
        at_least_as_good(ts, a, b),
        at_least_as_good(ts, b, c),
    ensures
        at_least_as_good(ts, a, c),
    decreases ts.len(),
{
    if ts.len() > 0 {
        if compare_one(ts[0], a, b) == Ordering::Equal && compare_one(ts[0], b, c)
            == Ordering::Equal {
            lemma_compare_transitive(ts.drop_first(), a, b, c);
        }
    }
}

/// Law: under the target list `[Cost, Profit]` the lower-cost candidate is
/// preferred whatever the profits, and only equal costs fall back to profit.
pub proof fn lemma_cost_then_profit(a: Score, b: Score)
    ensures
        a.cost < b.cost ==> compare_spec(
            seq![OptimizeTarget::Cost, OptimizeTarget::Profit],
            a,
            b,
        ) == Ordering::Greater,
        a.cost == b.cost ==> compare_spec(
            seq![OptimizeTarget::Cost, OptimizeTarget::Profit],
            a,
            b,
        ) == compare_one(OptimizeTarget::Profit, a, b),
{
    reveal_with_fuel(compare_spec, 3);
    let ts = seq![OptimizeTarget::Cost, OptimizeTarget::Profit];
    assert(ts[0] == OptimizeTarget::Cost);
    assert(ts.drop_first() =~= seq![OptimizeTarget::Profit]);
    assert(ts.drop_first()[0] == OptimizeTarget::Profit);
    assert(ts.drop_first().drop_first() =~= Seq::<OptimizeTarget>::empty());
    assert(compare_spec(ts.drop_first().drop_first(), a, b) == Ordering::Equal);
}

fn cmp_u64(x: u64, y: u64) -> (r: Ordering)
    ensures
        r == (if x < y {
            Ordering::Less
        } else if x > y {
            Ordering::Greater
        } else {
            Ordering::Equal
        }),
{
    if x < y {
        Ordering::Less
    } else if x > y {
        Ordering::Greater
    } else {
        Ordering::Equal
    }
}

fn cmp_usize(x: usize, y: usize) -> (r: Ordering)
    ensures
        r == (if x < y {
            Ordering::Less
        } else if x > y {
            Ordering::Greater
        } else {
            Ordering::Equal
        }),
{
    if x < y {
        Ordering::Less
    } else if x > y {
        Ordering::Greater
    } else {
        Ordering::Equal
    }
}

impl OptimizeTarget {
    /// Orders two scored candidates under this one target; a `Greater` result
    /// means `a` is preferred.
    pub fn compare(&self, a: &MixResult, b: &MixResult) -> (r: Ordering)
        ensures
            r == compare_one(*self, score_of(*a), score_of(*b)),
    {
        match self {
            OptimizeTarget::Profit => cmp_u64(a.profit, b.profit),
            OptimizeTarget::SellPrice => cmp_u64(a.sell_price, b.sell_price),
            OptimizeTarget::Cost => cmp_u64(b.cost, a.cost),  // reversed: lower cost wins
            OptimizeTarget::FewestEffects => cmp_usize(
                b.effects.len(),
                a.effects.len(),
            ),  // reversed: fewer effects win
            // Ranks by ascending count so that more effects win; this direction
            // is deliberate, `FewestEffects` above is its mirror image.
            OptimizeTarget::MostEffects => cmp_usize(a.effects.len(), b.effects.len()),
            OptimizeTarget::Multiplier => cmp_u64(a.multiplier, b.multiplier),
            OptimizeTarget::Ingredients => cmp_usize(
                b.ingredient_ids.len(),
                a.ingredient_ids.len(),
            ),  // reversed: fewer ingredients win
        }
    }
}

/// A fatal configuration error: a display name that resolves to nothing in
/// the catalog.
#[derive(Debug, Clone, Copy, PartialEq, Eq, Structural)]
pub enum ConfigError {
    UnknownDrug,
    UnknownIngredient,
    UnknownEffect,
}

/// The immutable configuration of one search.
#[derive(Debug)]
pub struct Filter {
    pub optimize_targets: Vec<OptimizeTarget>,
    pub available_drugs: Vec<u8>,
    pub available_ingredients: Vec<u8>,
    pub required_effects: Vec<u8>,
    pub blocked_effects: Vec<u8>,
    pub max_ingredients: usize,
}

/// The configuration only names catalog entries that exist, only mentions
/// effect ids below the capacity, and bounds the sequence length so that cost
/// sums stay within `u64`.
pub open spec fn filter_wf(f: Filter, gd: GameData) -> bool {
    &&& forall|i: int|
        0 <= i < f.available_drugs@.len() ==> has_drug_entry(gd, #[trigger] f.available_drugs@[i])
    &&& forall|i: int|
        0 <= i < f.available_ingredients@.len() ==> has_ingredient_entry(
            gd,
            #[trigger] f.available_ingredients@[i],
        )
    &&& forall|i: int|
        0 <= i < f.required_effects@.len() ==> (#[trigger] f.required_effects@[i])
            < EFFECT_CAPACITY
    &&& forall|i: int|
        0 <= i < f.blocked_effects@.len() ==> (#[trigger] f.blocked_effects@[i]) < EFFECT_CAPACITY
    &&& f.max_ingredients <= 0xFFFF_FFFF
}

fn contains_id(v: &Vec<u8>, x: u8) -> (r: bool)
    ensures
        r == v@.contains(x),
{
    let n = v.len();
    for j in 0..n
        invariant
            n == v@.len(),
            forall|k: int| 0 <= k < j ==> v@[k] != x,
    {
        if v[j] == x {
            return true;
        }
    }
    false
}

/// The sequence after inserting `id` unless it is already present.
pub open spec fn pushed_if_new(old_ids: Seq<u8>, id: u8) -> Seq<u8> {
    if old_ids.contains(id) {
        old_ids
    } else {
        old_ids.push(id)
    }
}

impl Filter {
    /// A configuration with the default targets (profit, then lower cost, then
    /// fewer ingredients), no eligible entries, no constraints, and up to 8
    /// ingredients per mix.
    pub fn new() -> (r: Self)
        ensures
            r.optimize_targets@ == seq![
                OptimizeTarget::Profit,
                OptimizeTarget::Cost,
                OptimizeTarget::Ingredients,
            ],
            r.available_drugs@ == Seq::<u8>::empty(),
            r.available_ingredients@ == Seq::<u8>::empty(),
            r.required_effects@ == Seq::<u8>::empty(),
            r.blocked_effects@ == Seq::<u8>::empty(),
            r.max_ingredients == 8,
    {
        let mut targets: Vec<OptimizeTarget> = Vec::new();
        targets.push(OptimizeTarget::Profit);
        targets.push(OptimizeTarget::Cost);
        targets.push(OptimizeTarget::Ingredients);
        proof {
            assert(targets@ =~= seq![
                OptimizeTarget::Profit,
                OptimizeTarget::Cost,
                OptimizeTarget::Ingredients,
            ]);
        }
        Filter {
            optimize_targets: targets,
            available_drugs: Vec::new(),
            available_ingredients: Vec::new(),
            required_effects: Vec::new(),
            blocked_effects: Vec::new(),
            max_ingredients: 8,
        }
    }

    /// Replaces the ordered target list.
    pub fn with_optimize_targets(&mut self, target: Vec<OptimizeTarget>)
        ensures
            *final(self) == (Filter { optimize_targets: final(self).optimize_targets, ..*old(self) }),
            final(self).optimize_targets == target,
    {
        self.optimize_targets = target;
    }

    /// Makes the named drug eligible; unknown names are reported, not applied.
    pub fn add_drug(&mut self, game_data: &GameData, drug_name: &str) -> (r: Result<
        (),
        ConfigError,
    >)
        ensures
            *final(self) == (Filter { available_drugs: final(self).available_drugs, ..*old(self) }),
            match r {
                Ok(_) => exists|j: int|
                    {
                        &&& 0 <= j < game_data.drugs@.len()
                        &&& (#[trigger] game_data.drugs@[j]).name@ == drug_name@
                        &&& final(self).available_drugs@ == pushed_if_new(
                            old(self).available_drugs@,
                            game_data.drugs@[j].id,
                        )
                    },
                Err(e) => {
                    &&& e == ConfigError::UnknownDrug
                    &&& *final(self) == *old(self)
                    &&& forall|k: int|
                        0 <= k < game_data.drugs@.len() ==> (#[trigger] game_data.drugs@[k]).name@
                            != drug_name@
                },
            },
    {
        let found = game_data.get_drug_by_name(drug_name);
        match found {
            Some(drug) => {
                if !contains_id(&self.available_drugs, drug.id) {
                    self.available_drugs.push(drug.id);
                }
                Ok(())
            },
            None => Err(ConfigError::UnknownDrug),
        }
    }

    /// Makes every drug of the catalog eligible, in catalog order.
    pub fn add_all_drugs(&mut self, game_data: &GameData)
        ensures
            *final(self) == (Filter { available_drugs: final(self).available_drugs, ..*old(self) }),
            final(self).available_drugs@.len() == game_data.drugs@.len(),
            forall|k: int|
                0 <= k < game_data.drugs@.len() ==> final(self).available_drugs@[k] == (
                #[trigger] game_data.drugs@[k]).id,
    {
        let mut ids: Vec<u8> = Vec::new();
        let n = game_data.drugs.len();
        for j in 0..n
            invariant
                n == game_data.drugs@.len(),
                ids@.len() == j,
                forall|k: int| 0 <= k < j ==> ids@[k] == (#[trigger] game_data.drugs@[k]).id,
        {
            ids.push(game_data.drugs[j].id);
        }
        self.available_drugs = ids;
    }

    /// Makes the named ingredient eligible; unknown names are reported, not
    /// applied.
    pub fn add_ingredient(&mut self, game_data: &GameData, ingredient_name: &str) -> (r: Result<
        (),
        ConfigError,
    >)
        ensures
            *final(self) == (Filter {
                available_ingredients: final(self).available_ingredients,
                ..*old(self)
            }),
            match r {
                Ok(_) => exists|j: int|
                    {
                        &&& 0 <= j < game_data.ingredients@.len()
                        &&& (#[trigger] game_data.ingredients@[j]).name@ == ingredient_name@
                        &&& final(self).available_ingredients@ == pushed_if_new(
                            old(self).available_ingredients@,
                            game_data.ingredients@[j].id,
                        )
                    },
                Err(e) => {
                    &&& e == ConfigError::UnknownIngredient
                    &&& *final(self) == *old(self)
                    &&& forall|k: int|
                        0 <= k < game_data.ingredients@.len() ==> (
                        #[trigger] game_data.ingredients@[k]).name@ != ingredient_name@
                },
            },
    {
        let found = game_data.get_ingredient_by_name(ingredient_name);
        match found {
            Some(ingredient) => {
                if !contains_id(&self.available_ingredients, ingredient.id) {
                    self.available_ingredients.push(ingredient.id);
                }
                Ok(())
            },
            None => Err(ConfigError::UnknownIngredient),
        }
    }

    /// Makes every ingredient of the catalog eligible, in catalog order.
    pub fn add_all_ingredients(&mut self, game_data: &GameData)
        ensures
            *final(self) == (Filter {
                available_ingredients: final(self).available_ingredients,
                ..*old(self)
            }),
            final(self).available_ingredients@.len() == game_data.ingredients@.len(),
            forall|k: int|
                0 <= k < game_data.ingredients@.len() ==> final(self).available_ingredients@[k]
                    == (#[trigger] game_data.ingredients@[k]).id,
    {
        let mut ids: Vec<u8> = Vec::new();
        let n = game_data.ingredients.len();
        for j in 0..n
            invariant
                n == game_data.ingredients@.len(),
                ids@.len() == j,
                forall|k: int| 0 <= k < j ==> ids@[k] == (#[trigger] game_data.ingredients@[k]).id,
        {
            ids.push(game_data.ingredients[j].id);
        }
        self.available_ingredients = ids;
    }

    /// Requires the named effect in every admissible result; unknown names are
    /// reported, not applied.
    pub fn add_required_effect(&mut self, game_data: &GameData, effect_name: &str) -> (r: Result<
        (),
        ConfigError,
    >)
        ensures
            *final(self) == (Filter { required_effects: final(self).required_effects, ..*old(self) }),
            match r {
                Ok(_) => exists|j: int|
                    {
                        &&& 0 <= j < game_data.effects@.len()
                        &&& (#[trigger] game_data.effects@[j]).name@ == effect_name@
                        &&& final(self).required_effects@ == pushed_if_new(
                            old(self).required_effects@,
                            game_data.effects@[j].id,
                        )
                    },
                Err(e) => {
                    &&& e == ConfigError::UnknownEffect
                    &&& *final(self) == *old(self)
                    &&& forall|k: int|
                        0 <= k < game_data.effects@.len() ==> (
                        #[trigger] game_data.effects@[k]).name@ != effect_name@
                },
            },
    {
        let found = game_data.get_effect_by_name(effect_name);
        match found {
            Some(effect) => {
                if !contains_id(&self.required_effects, effect.id) {
                    self.required_effects.push(effect.id);
                }
                Ok(())
            },
            None => Err(ConfigError::UnknownEffect),
        }
    }

    /// Blocks the named effect from every admissible result; unknown names are
    /// reported, not applied.
    pub fn add_blocked_effect(&mut self, game_data: &GameData, effect_name: &str) -> (r: Result<
        (),
        ConfigError,
    >)
        ensures
            *final(self) == (Filter { blocked_effects: final(self).blocked_effects, ..*old(self) }),
            match r {
                Ok(_) => exists|j: int|
                    {
                        &&& 0 <= j < game_data.effects@.len()
                        &&& (#[trigger] game_data.effects@[j]).name@ == effect_name@
                        &&& final(self).blocked_effects@ == pushed_if_new(
                            old(self).blocked_effects@,
                            game_data.effects@[j].id,
                        )
                    },
                Err(e) => {
                    &&& e == ConfigError::UnknownEffect
                    &&& *final(self) == *old(self)
                    &&& forall|k: int|
                        0 <= k < game_data.effects@.len() ==> (
                        #[trigger] game_data.effects@[k]).name@ != effect_name@
                },
            },
    {
        let found = game_data.get_effect_by_name(effect_name);
        match found {
            Some(effect) => {
                if !contains_id(&self.blocked_effects, effect.id) {
                    self.blocked_effects.push(effect.id);
                }
                Ok(())
            },
            None => Err(ConfigError::UnknownEffect),
        }
    }

    /// Sets the longest admissible ingredient sequence.
    pub fn with_max_ingredients(&mut self, max_ingredients: usize)
        ensures
            *final(self) == (Filter { max_ingredients, ..*old(self) }),
    {
        self.max_ingredients = max_ingredients;
    }

    /// Runtime check of the configuration against a catalog, for callers that
    /// assemble a `Filter` from unchecked input.
    pub fn validate(&self, game_data: &GameData) -> (r: bool)
        ensures
            r == filter_wf(*self, *game_data),
    {
        let nd = self.available_drugs.len();
        for j in 0..nd
            invariant
                nd == self.available_drugs@.len(),
                forall|k: int|
                    0 <= k < j ==> has_drug_entry(*game_data, #[trigger] self.available_drugs@[k]),
        {
            if game_data.get_drug(self.available_drugs[j]).is_none() {
                return false;
            }
        }
        let ni = self.available_ingredients.len();
        for j in 0..ni
            invariant
                ni == self.available_ingredients@.len(),
                forall|k: int|
                    0 <= k < nd as int ==> has_drug_entry(
                        *game_data,
                        #[trigger] self.available_drugs@[k],
                    ),
                nd == self.available_drugs@.len(),
                forall|k: int|
                    0 <= k < j ==> has_ingredient_entry(
                        *game_data,
                        #[trigger] self.available_ingredients@[k],
                    ),
        {
            if game_data.get_ingredient(self.available_ingredients[j]).is_none() {
                return false;
            }
        }
        let nr = self.required_effects.len();
        for j in 0..nr
            invariant
                nr == self.required_effects@.len(),
                forall|k: int|
                    0 <= k < nd as int ==> has_drug_entry(
                        *game_data,
                        #[trigger] self.available_drugs@[k],
                    ),
                nd == self.available_drugs@.len(),
                forall|k: int|
                    0 <= k < ni as int ==> has_ingredient_entry(
                        *game_data,
                        #[trigger] self.available_ingredients@[k],
                    ),
                ni == self.available_ingredients@.len(),
                forall|k: int|
                    0 <= k < j ==> (#[trigger] self.required_effects@[k]) < EFFECT_CAPACITY,
        {
            if self.required_effects[j] >= EFFECT_CAPACITY {
                return false;
            }
        }
        let nb = self.blocked_effects.len();
        for j in 0..nb
            invariant
                nb == self.blocked_effects@.len(),
                forall|k: int|
                    0 <= k < nd as int ==> has_drug_entry(
                        *game_data,
                        #[trigger] self.available_drugs@[k],
                    ),
                nd == self.available_drugs@.len(),
                forall|k: int|
                    0 <= k < ni as int ==> has_ingredient_entry(
                        *game_data,
                        #[trigger] self.available_ingredients@[k],
                    ),
                ni == self.available_ingredients@.len(),
                forall|k: int|
                    0 <= k < nr as int ==> (#[trigger] self.required_effects@[k])
                        < EFFECT_CAPACITY,
                nr == self.required_effects@.len(),
                forall|k: int|
                    0 <= k < j ==> (#[trigger] self.blocked_effects@[k]) < EFFECT_CAPACITY,
        {
            if self.blocked_effects[j] >= EFFECT_CAPACITY {
                return false;
            }
        }
        self.max_ingredients <= 0xFFFF_FFFF
    }
}

} // verus!
