use vstd::prelude::*;
use crate::game_data::{Drug, Effect, EffectId, GameData, Ingredient, EFFECT_CAPACITY};
use crate::game_data::{drug_wf, game_data_wf, ingredient_wf};

verus! {

/// Whether bit `i` of `b` is set.
pub open spec fn bit_set(b: u64, i: u64) -> bool {
    (b >> i) & 1 == 1
}

/// A fixed-capacity set of effect ids, one bit per id in `0 .. EFFECT_CAPACITY`.
/// Its mathematical view is the set of ids whose bit is set.
#[derive(Clone, Copy)]
pub struct EffectList(u64);

impl View for EffectList {
    type V = Set<int>;

    closed spec fn view(&self) -> Set<int> {
        Set::new(|i: int| 0 <= i < EFFECT_CAPACITY && bit_set(self.0, i as u64))
    }
}

proof fn lemma_bv_zero(i: u64)
    ensures
        !bit_set(0u64, i),
{
    assert((0u64 >> i) & 1 == 0) by (bit_vector);
}

proof fn lemma_bv_or(b: u64, id: u64, i: u64)
    requires
        id < 64,
        i < 64,
    ensures
        bit_set(b | (1u64 << id), i) == (bit_set(b, i) || i == id),
{
    assert(id < 64 && i < 64 ==> (((b | (1u64 << id)) >> i) & 1 == 1) == ((b >> i) & 1 == 1 || i
        == id)) by (bit_vector);
}

proof fn lemma_bv_clear(b: u64, id: u64, i: u64)
    requires
        id < 64,
        i < 64,
    ensures
        bit_set(b & !(1u64 << id), i) == (bit_set(b, i) && i != id),
{
    assert(id < 64 && i < 64 ==> (((b & !(1u64 << id)) >> i) & 1 == 1) == ((b >> i) & 1 == 1 && i
        != id)) by (bit_vector);
}

proof fn lemma_bv_test(b: u64, id: u64)
    requires
        id < 64,
    ensures
        (b & (1u64 << id) != 0) == bit_set(b, id),
{
    assert(id < 64 ==> (b & (1u64 << id) != 0) == ((b >> id) & 1 == 1)) by (bit_vector);
}

/// The ids in `0 .. n` whose bit is set in `b`.
spec fn prefix_bits(b: u64, n: int) -> Set<int> {
    Set::new(|j: int| 0 <= j < n && bit_set(b, j as u64))
}

impl EffectList {
    /// The empty effect set.
    pub fn new() -> (r: Self)
        ensures
            r@ == Set::<int>::empty(),
    {
        let r = EffectList(0);
        proof {
            assert forall|i: int| !r@.contains(i) by {
                if 0 <= i < EFFECT_CAPACITY {
                    lemma_bv_zero(i as u64);
                }
            }
            assert(r@ =~= Set::<int>::empty());
        }
        r
    }

    /// Inserts an effect id; idempotent.
    pub fn add_effect(&mut self, effect_id: &EffectId)
        requires
            *effect_id < EFFECT_CAPACITY,
        ensures
            final(self)@ == old(self)@.insert(*effect_id as int),
    {
        let ghost ob = self.0;
        let id = *effect_id;
        self.0 = self.0 | (1u64 << (id as u64));
        proof {
            assert forall|i: u64| i < 64 implies #[trigger] bit_set(self.0, i) == (bit_set(ob, i)
                || i == id as u64) by {
                lemma_bv_or(ob, id as u64, i);
            }
            assert(self@ =~= old(self)@.insert(id as int));
        }
    }

    /// Removes an effect id; idempotent.
    pub fn remove_effect(&mut self, effect_id: &EffectId)
        requires
            *effect_id < EFFECT_CAPACITY,
        ensures
            final(self)@ == old(self)@.remove(*effect_id as int),
    {
        let ghost ob = self.0;
        let id = *effect_id;
        self.0 = self.0 & !(1u64 << (id as u64));
        proof {
            assert forall|i: u64| i < 64 implies #[trigger] bit_set(self.0, i) == (bit_set(ob, i)
                && i != id as u64) by {
                lemma_bv_clear(ob, id as u64, i);
            }
            assert(self@ =~= old(self)@.remove(id as int));
        }
    }

    /// Membership test for an effect id.
    pub fn has_effect(&self, effect_id: &EffectId) -> (r: bool)
        requires
            *effect_id < EFFECT_CAPACITY,
        ensures
            r == self@.contains(*effect_id as int),
    {
        let id = *effect_id;
        let r = self.0 & (1u64 << (id as u64)) != 0;
        proof {
            lemma_bv_test(self.0, id as u64);
        }
        r
    }

    /// Number of effect ids present; always the number of ids for which
    /// `has_effect` is true.
    pub fn len(&self) -> (r: usize)
        ensures
            r == self@.len(),
            self@.finite(),
    {
        let mut count: usize = 0;
        proof {
            assert(prefix_bits(self.0, 0) =~= Set::<int>::empty());
        }
        for i in 0..64u64
            invariant
                count <= i,
                prefix_bits(self.0, i as int).finite(),
                count == prefix_bits(self.0, i as int).len(),
        {
            let ghost pre = prefix_bits(self.0, i as int);
            if (self.0 >> i) & 1 == 1 {
                count += 1;
                proof {
                    assert(!pre.contains(i as int));
                    assert(prefix_bits(self.0, i as int + 1) =~= pre.insert(i as int));
                }
            } else {
                proof {
                    assert(prefix_bits(self.0, i as int + 1) =~= pre);
                }
            }
        }
        proof {
            assert(prefix_bits(self.0, 64) =~= self@);
        }
        count
    }

    /// The effects present, as catalog entries in ascending id order.
    pub fn to_vec<'a>(&self, game_data: &'a GameData) -> (r: Vec<&'a Effect>)
        requires
            game_data_wf(*game_data),
        ensures
            r@.len() == selected_effects(self@, game_data.effects@).len(),
            forall|i: int|
                0 <= i < r@.len() ==> *(#[trigger] r@[i]) == selected_effects(
                    self@,
                    game_data.effects@,
                )[i],
    {
        let mut effects: Vec<&Effect> = Vec::new();
        let n = game_data.effects.len();
        for j in 0..n
            invariant
                n == game_data.effects@.len(),
                game_data_wf(*game_data),
                effects@.len() == selected_effects(self@, game_data.effects@.take(j as int)).len(),
                forall|i: int|
                    0 <= i < effects@.len() ==> *(#[trigger] effects@[i]) == selected_effects(
                        self@,
                        game_data.effects@.take(j as int),
                    )[i],
        {
            let ghost prefix = game_data.effects@.take(j as int);
            let effect = &game_data.effects[j];
            if self.has_effect(&effect.id) {
                effects.push(effect);
            }
            proof {
                assert(game_data.effects@.take(j + 1).drop_last() =~= prefix);
                assert(game_data.effects@.take(j + 1).last() == game_data.effects@[j as int]);
            }
        }
        proof {
            assert(game_data.effects@.take(n as int) =~= game_data.effects@);
        }
        effects
    }

    /// Builds an effect set from a list of ids.
    pub fn from_effects(effects: Vec<&EffectId>) -> (r: Self)
        requires
            forall|k: int| 0 <= k < effects@.len() ==> *(#[trigger] effects@[k]) < EFFECT_CAPACITY,
        ensures
            forall|x: int|
                r@.contains(x) == exists|k: int|
                    0 <= k < effects@.len() && *(#[trigger] effects@[k]) as int == x,
    {
        let mut effect_list = EffectList::new();
        let n = effects.len();
        for j in 0..n
            invariant
                n == effects@.len(),
                forall|k: int|
                    0 <= k < effects@.len() ==> *(#[trigger] effects@[k]) < EFFECT_CAPACITY,
                forall|x: int|
                    effect_list@.contains(x) == exists|k: int|
                        0 <= k < j && *(#[trigger] effects@[k]) as int == x,
        {
            effect_list.add_effect(effects[j]);
        }
        effect_list
    }
}

/// The subsequence of catalog effects whose id is in `s`, in catalog order.
pub open spec fn selected_effects(s: Set<int>, effects: Seq<Effect>) -> Seq<Effect>
    decreases effects.len(),
{
    if effects.len() == 0 {
        Seq::empty()
    } else {
        let prev = selected_effects(s, effects.drop_last());
        if s.contains(effects.last().id as int) {
            prev.push(effects.last())
        } else {
            prev
        }
    }
}

/// One pass over the replacement rules: a rule whose source is present and
/// whose target is absent in the pre-application set fires immediately.
pub open spec fn immediate_pass(cur: Set<int>, rules: Seq<(EffectId, EffectId)>) -> Set<int>
    decreases rules.len(),
{
    if rules.len() == 0 {
        cur
    } else {
        let prev = immediate_pass(cur, rules.drop_last());
        let f = rules.last().0 as int;
        let t = rules.last().1 as int;
        if cur.contains(f) && !cur.contains(t) {
            prev.remove(f).insert(t)
        } else {
            prev
        }
    }
}

/// The rules deferred by the first pass: source and target both present in the
/// pre-application set.
pub open spec fn deferred_of(cur: Set<int>, rules: Seq<(EffectId, EffectId)>) -> Seq<
    (EffectId, EffectId),
> {
    rules.filter(|r: (EffectId, EffectId)| cur.contains(r.0 as int) && cur.contains(r.1 as int))
}

/// Second pass: a deferred rule fires if, by now, its source is still present
/// and its target still absent.
pub open spec fn deferred_pass(start: Set<int>, rules: Seq<(EffectId, EffectId)>) -> Set<int>
    decreases rules.len(),
{
    if rules.len() == 0 {
        start
    } else {
        let prev = deferred_pass(start, rules.drop_last());
        let f = rules.last().0 as int;
        let t = rules.last().1 as int;
        if prev.contains(f) && !prev.contains(t) {
            prev.remove(f).insert(t)
        } else {
            prev
        }
    }
}

/// The ingredient's unconditional effect is granted only while fewer than 8
/// effects are present.
pub open spec fn capped_add(s: Set<int>, e: int) -> Set<int> {
    if s.len() < 8 {
        s.insert(e)
    } else {
        s
    }
}

/// The effect set after applying one ingredient: immediate replacements, the
/// capped grant of the added effect, then the deferred replacements re-checked
/// against the post-grant set.
pub open spec fn apply_ingredient(cur: Set<int>, ing: Ingredient) -> Set<int> {
    deferred_pass(
        capped_add(immediate_pass(cur, ing.replaces_effects@), ing.adds_effect as int),
        deferred_of(cur, ing.replaces_effects@),
    )
}

/// The base drug's starting effects: its inherent effect if it has one.
pub open spec fn initial_effects(d: Drug) -> Set<int> {
    match d.base_effect_id {
        Some(e) => Set::<int>::empty().insert(e as int),
        None => Set::<int>::empty(),
    }
}

/// The effect set after folding `apply_ingredient` over the sequence in order.
pub open spec fn mix_spec(d: Drug, ings: Seq<Ingredient>) -> Set<int>
    decreases ings.len(),
{
    if ings.len() == 0 {
        initial_effects(d)
    } else {
        apply_ingredient(mix_spec(d, ings.drop_last()), ings.last())
    }
}

/// No source effect repeats among `rules`.
pub open spec fn distinct_sources(rules: Seq<(EffectId, EffectId)>) -> bool {
    forall|j: int, k: int|
        0 <= j < k < rules.len() ==> (#[trigger] rules[j]).0 != (#[trigger] rules[k]).0
}

/// No rule in `rules` has `x` as its source.
pub open spec fn no_source(rules: Seq<(EffectId, EffectId)>, x: int) -> bool {
    forall|k: int| 0 <= k < rules.len() ==> (#[trigger] rules[k]).0 as int != x
}

proof fn lemma_immediate_pass_bounded(cur: Set<int>, rules: Seq<(EffectId, EffectId)>)
    requires
        cur.finite(),
        distinct_sources(rules),
    ensures
        immediate_pass(cur, rules).finite(),
        immediate_pass(cur, rules).len() <= cur.len(),
        forall|x: int|
            cur.contains(x) && no_source(rules, x) ==> #[trigger] immediate_pass(
                cur,
                rules,
            ).contains(x),
    decreases rules.len(),
{
    if rules.len() > 0 {
        let prev_rules = rules.drop_last();
        assert forall|j: int, k: int| 0 <= j < k < prev_rules.len() implies (
        #[trigger] prev_rules[j]).0 != (#[trigger] prev_rules[k]).0 by {
            assert(prev_rules[j] == rules[j]);
            assert(prev_rules[k] == rules[k]);
        }
        lemma_immediate_pass_bounded(cur, prev_rules);
        let prev = immediate_pass(cur, prev_rules);
        let f = rules.last().0 as int;
        let t = rules.last().1 as int;
        if cur.contains(f) && !cur.contains(t) {
            assert forall|k: int| 0 <= k < prev_rules.len() implies (#[trigger] prev_rules[k]).0
                as int != f by {
                assert(prev_rules[k] == rules[k]);
                assert(rules[k].0 != rules[rules.len() - 1].0);
            }
            assert(no_source(prev_rules, f));
            assert(prev.contains(f));
            assert(prev.remove(f).len() == prev.len() - 1);
            assert(immediate_pass(cur, rules) == prev.remove(f).insert(t));
            assert forall|x: int| cur.contains(x) && no_source(rules, x) implies
                #[trigger] immediate_pass(cur, rules).contains(x) by {
                assert forall|k: int| 0 <= k < prev_rules.len() implies (
                #[trigger] prev_rules[k]).0 as int != x by {
                    assert(prev_rules[k] == rules[k]);
                }
                assert(prev.contains(x));
                assert(rules[rules.len() - 1].0 as int != x);
            }
        } else {
            assert forall|x: int| cur.contains(x) && no_source(rules, x) implies
                #[trigger] immediate_pass(cur, rules).contains(x) by {
                assert forall|k: int| 0 <= k < prev_rules.len() implies (
                #[trigger] prev_rules[k]).0 as int != x by {
                    assert(prev_rules[k] == rules[k]);
                }
                assert(prev.contains(x));
            }
        }
    }
}

proof fn lemma_deferred_pass_len(start: Set<int>, rules: Seq<(EffectId, EffectId)>)
    requires
        start.finite(),
    ensures
        deferred_pass(start, rules).finite(),
        deferred_pass(start, rules).len() == start.len(),
    decreases rules.len(),
{
    if rules.len() > 0 {
        lemma_deferred_pass_len(start, rules.drop_last());
        let prev = deferred_pass(start, rules.drop_last());
        let f = rules.last().0 as int;
        let t = rules.last().1 as int;
        if prev.contains(f) && !prev.contains(t) {
            assert(prev.remove(f).len() == prev.len() - 1);
            assert(!prev.remove(f).contains(t));
        }
    }
}

proof fn lemma_apply_ingredient_bounded(cur: Set<int>, ing: Ingredient)
    requires
        cur.finite(),
        cur.len() <= 8,
        ingredient_wf(ing),
    ensures
        apply_ingredient(cur, ing).finite(),
        apply_ingredient(cur, ing).len() <= 8,
{
    lemma_immediate_pass_bounded(cur, ing.replaces_effects@);
    let mid = immediate_pass(cur, ing.replaces_effects@);
    let ca = capped_add(mid, ing.adds_effect as int);
    assert(ca.finite() && ca.len() <= 8);
    lemma_deferred_pass_len(ca, deferred_of(cur, ing.replaces_effects@));
}

/// Law: for any base drug and any ingredient sequence, the resulting effect
/// set never holds more than 8 effects.
pub proof fn lemma_mix_cardinality(d: Drug, ings: Seq<Ingredient>)
    requires
        drug_wf(d),
        forall|i: int| 0 <= i < ings.len() ==> ingredient_wf(#[trigger] ings[i]),
    ensures
        mix_spec(d, ings).finite(),
        mix_spec(d, ings).len() <= 8,
    decreases ings.len(),
{
    if ings.len() == 0 {
        match d.base_effect_id {
            Some(e) => {
                assert(Set::<int>::empty().insert(e as int).len() == 1);
            },
            None => {},
        }
    } else {
        lemma_mix_cardinality(d, ings.drop_last());
        lemma_apply_ingredient_bounded(mix_spec(d, ings.drop_last()), ings.last());
    }
}

/// Law: mixing with an empty ingredient sequence yields exactly the base
/// drug's inherent effect set (or the empty set, if it has none).
pub proof fn lemma_mix_empty(d: Drug)
    ensures
        mix_spec(d, Seq::<Ingredient>::empty()) == initial_effects(d),
{
}

/// Law, over effect-set views: after an add the id is present; after a remove
/// it is absent; adding twice is the same as adding once.
pub proof fn lemma_add_remove_idempotent(s: EffectList, id: EffectId)
    ensures
        s@.insert(id as int).contains(id as int),
        !s@.remove(id as int).contains(id as int),
        s@.insert(id as int).insert(id as int) == s@.insert(id as int),
{
    assert(s@.insert(id as int).insert(id as int) =~= s@.insert(id as int));
}

proof fn lemma_filter_push<A>(s: Seq<A>, pred: spec_fn(A) -> bool, x: A)
    ensures
        s.push(x).filter(pred) == if pred(x) {
            s.filter(pred).push(x)
        } else {
            s.filter(pred)
        },
{
    reveal(Seq::filter);
    assert(s.push(x).drop_last() =~= s);
    assert(s.push(x).last() == x);
}

/// Computes the effect set resulting from applying the ingredient sequence to
/// the base drug, in order.
pub fn mix(base_drug: &Drug, ingredients: &[&Ingredient]) -> (r: EffectList)
    requires
        drug_wf(*base_drug),
        forall|i: int| 0 <= i < ingredients@.len() ==> ingredient_wf(*(#[trigger] ingredients@[i])),
    ensures
        r@ == mix_spec(*base_drug, ingredients@.map_values(|i: &Ingredient| *i)),
{
    let ghost ings = ingredients@.map_values(|i: &Ingredient| *i);
    let mut current_effects = EffectList::new();
    if let Some(base_effect_id) = base_drug.base_effect_id {
        current_effects.add_effect(&base_effect_id);
    }
    proof {
        assert(current_effects@ == initial_effects(*base_drug));
        assert(ings.take(0) =~= Seq::<Ingredient>::empty());
    }
    let n = ingredients.len();
    for idx in 0..n
        invariant
            n == ingredients@.len(),
            ings == ingredients@.map_values(|i: &Ingredient| *i),
            forall|i: int|
                0 <= i < ingredients@.len() ==> ingredient_wf(*(#[trigger] ingredients@[i])),
            current_effects@ == mix_spec(*base_drug, ings.take(idx as int)),
    {
        let ingredient: &Ingredient = ingredients[idx];
        let ghost cur = current_effects@;
        let ghost rules = ingredient.replaces_effects@;
        let mut new_effects = current_effects;
        let mut delayed_replacers: Vec<(EffectId, EffectId)> = Vec::new();
        proof {
            assert(rules.take(0) =~= Seq::<(EffectId, EffectId)>::empty());
            assert(deferred_of(cur, rules.take(0)) =~= Seq::<(EffectId, EffectId)>::empty());
        }
        let m = ingredient.replaces_effects.len();
        for ridx in 0..m
            invariant
                m == rules.len(),
                rules == ingredient.replaces_effects@,
                ingredient_wf(*ingredient),
                current_effects@ == cur,
                new_effects@ == immediate_pass(cur, rules.take(ridx as int)),
                delayed_replacers@ == deferred_of(cur, rules.take(ridx as int)),
                forall|k: int|
                    0 <= k < delayed_replacers@.len() ==> (#[trigger] delayed_replacers@[k]).0
                        < EFFECT_CAPACITY && delayed_replacers@[k].1 < EFFECT_CAPACITY,
        {
            let ghost prefix = rules.take(ridx as int);
            let (from_effect, to_effect) = ingredient.replaces_effects[ridx];
            if current_effects.has_effect(&from_effect) {
                if current_effects.has_effect(&to_effect) {
                    delayed_replacers.push((from_effect, to_effect));
                } else {
                    new_effects.remove_effect(&from_effect);
                    new_effects.add_effect(&to_effect);
                }
            }
            proof {
                assert(rules.take(ridx + 1).drop_last() =~= prefix);
                assert(rules.take(ridx + 1).last() == rules[ridx as int]);
                lemma_filter_push(
                    prefix,
                    |r: (EffectId, EffectId)| cur.contains(r.0 as int) && cur.contains(r.1 as int),
                    rules[ridx as int],
                );
                assert(rules.take(ridx + 1) =~= prefix.push(rules[ridx as int]));
            }
        }
        proof {
            assert(rules.take(m as int) =~= rules);
        }
        if new_effects.len() < 8 {
            new_effects.add_effect(&ingredient.adds_effect);
        }
        proof {
            assert(new_effects@ == capped_add(
                immediate_pass(cur, rules),
                ingredient.adds_effect as int,
            ));
        }
        let ghost capped = new_effects@;
        let ghost deferred = delayed_replacers@;
        proof {
            assert(deferred.take(0) =~= Seq::<(EffectId, EffectId)>::empty());
        }
        let dn = delayed_replacers.len();
        for didx in 0..dn
            invariant
                dn == deferred.len(),
                deferred == delayed_replacers@,
                forall|k: int|
                    0 <= k < deferred.len() ==> (#[trigger] deferred[k]).0 < EFFECT_CAPACITY
                        && deferred[k].1 < EFFECT_CAPACITY,
                new_effects@ == deferred_pass(capped, deferred.take(didx as int)),
        {
            let ghost prefix = deferred.take(didx as int);
            let (from_effect, to_effect) = delayed_replacers[didx];
            if new_effects.has_effect(&from_effect) {
                if !new_effects.has_effect(&to_effect) {
                    new_effects.remove_effect(&from_effect);
                    new_effects.add_effect(&to_effect);
                }
            }
            proof {
                assert(deferred.take(didx + 1).drop_last() =~= prefix);
                assert(deferred.take(didx + 1).last() == deferred[didx as int]);
            }
        }
        proof {
            assert(deferred.take(dn as int) =~= deferred);
            assert(new_effects@ == apply_ingredient(cur, *ingredient));
            assert(ings.take(idx + 1).drop_last() =~= ings.take(idx as int));
            assert(ings.take(idx + 1).last() == ings[idx as int]);
            assert(ings[idx as int] == *ingredients@[idx as int]);
        }
        current_effects = new_effects;
    }
    proof {
        assert(ings.take(n as int) =~= ings);
    }
    current_effects
}

} // verus!
