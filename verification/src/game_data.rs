use vstd::prelude::*;

verus! {

/// Identifier of an effect (a binary property); always below `EFFECT_CAPACITY`.
pub type EffectId = u8;

/// Identifier of a base drug in the catalog.
pub type DrugId = u8;

/// Identifier of an ingredient (a modifier) in the catalog.
pub type IngredientId = u8;

/// Number of effect ids the catalog may use; an `EffectList` holds one bit per id.
pub const EFFECT_CAPACITY: u8 = 64;

/// Upper bound on a single effect's multiplier contribution, in hundredths
/// (34 stands for 0.34), so that price arithmetic stays within `u64`.
pub const MULTIPLIER_LIMIT: u64 = 1000000;

/// A progression tier; carried through for the configuration layer, unused by
/// the search itself.
pub struct Rank {
    pub name: String,
    pub level: u8,
}

/// A binary property a mixed item may exhibit.
pub struct Effect {
    pub id: EffectId,
    pub name: String,
    pub description: Option<String>,
    pub is_ability: bool,
    pub is_cosmetic: bool,
    /// Multiplier contribution in hundredths (34 stands for 0.34).
    pub multiplier: u64,
}

/// A base item: the starting point of a mix.
pub struct Drug {
    pub id: DrugId,
    pub name: String,
    pub base_effect_id: Option<EffectId>,
    pub base_sell_value: u8,
    pub unlock_rank: u8,
}

/// A modifier: contributes one effect unconditionally and zero or more
/// conditional effect replacements.
pub struct Ingredient {
    pub id: IngredientId,
    pub name: String,
    pub buy_price: u8,
    pub unlock_rank: u8,
    pub adds_effect: EffectId,
    /// Replacement rules `(from, to)`, evaluated in this order. Sources are
    /// pairwise distinct; keeping them sorted by source id gives a
    /// deterministic evaluation order.
    pub replaces_effects: Vec<(EffectId, EffectId)>,
}

/// The static, read-only registry of all effects, base drugs and ingredients.
/// The entry lists are kept in ascending id order.
pub struct GameData {
    pub ranks: Vec<Rank>,
    pub effects: Vec<Effect>,
    pub drugs: Vec<Drug>,
    pub ingredients: Vec<Ingredient>,
}

/// A drug only mentions effect ids below the capacity.
pub open spec fn drug_wf(d: Drug) -> bool {
    match d.base_effect_id {
        Some(e) => e < EFFECT_CAPACITY,
        None => true,
    }
}

/// An ingredient only mentions effect ids below the capacity, and no two of
/// its replacement rules share a source effect.
pub open spec fn ingredient_wf(ing: Ingredient) -> bool {
    &&& ing.adds_effect < EFFECT_CAPACITY
    &&& forall|k: int|
        0 <= k < ing.replaces_effects@.len() ==> {
            &&& (#[trigger] ing.replaces_effects@[k]).0 < EFFECT_CAPACITY
            &&& ing.replaces_effects@[k].1 < EFFECT_CAPACITY
        }
    &&& forall|j: int, k: int|
        0 <= j < k < ing.replaces_effects@.len()
            ==> (#[trigger] ing.replaces_effects@[j]).0 != (#[trigger] ing.replaces_effects@[k]).0
}

/// Catalog well-formedness: effects are strictly sorted by id (hence unique)
/// and stay below the capacity and the multiplier limit; drug and ingredient
/// ids are unique; every entry is well-formed.
pub open spec fn game_data_wf(gd: GameData) -> bool {
    &&& forall|j: int, k: int|
        0 <= j < k < gd.effects@.len() ==> (#[trigger] gd.effects@[j]).id < (#[trigger] gd.effects@[k]).id
    &&& forall|j: int|
        0 <= j < gd.effects@.len() ==> {
            &&& (#[trigger] gd.effects@[j]).id < EFFECT_CAPACITY
            &&& gd.effects@[j].multiplier <= MULTIPLIER_LIMIT
        }
    &&& forall|j: int, k: int|
        0 <= j < gd.drugs@.len() && 0 <= k < gd.drugs@.len() && j != k
            ==> (#[trigger] gd.drugs@[j]).id != (#[trigger] gd.drugs@[k]).id
    &&& forall|j: int| 0 <= j < gd.drugs@.len() ==> drug_wf(#[trigger] gd.drugs@[j])
    &&& forall|j: int, k: int|
        0 <= j < gd.ingredients@.len() && 0 <= k < gd.ingredients@.len() && j != k
            ==> (#[trigger] gd.ingredients@[j]).id != (#[trigger] gd.ingredients@[k]).id
    &&& forall|j: int| 0 <= j < gd.ingredients@.len() ==> ingredient_wf(#[trigger] gd.ingredients@[j])
}

/// Whether the catalog has an effect entry with this id.
pub open spec fn has_effect_entry(gd: GameData, id: EffectId) -> bool {
    exists|j: int| 0 <= j < gd.effects@.len() && (#[trigger] gd.effects@[j]).id == id
}

/// Whether the catalog has a drug entry with this id.
pub open spec fn has_drug_entry(gd: GameData, id: DrugId) -> bool {
    exists|j: int| 0 <= j < gd.drugs@.len() && (#[trigger] gd.drugs@[j]).id == id
}

/// The unique drug entry with this id.
pub open spec fn drug_for(gd: GameData, id: DrugId) -> Drug {
    gd.drugs@[choose|j: int| 0 <= j < gd.drugs@.len() && (#[trigger] gd.drugs@[j]).id == id]
}

/// Whether the catalog has an ingredient entry with this id.
pub open spec fn has_ingredient_entry(gd: GameData, id: IngredientId) -> bool {
    exists|j: int| 0 <= j < gd.ingredients@.len() && (#[trigger] gd.ingredients@[j]).id == id
}

/// The unique ingredient entry with this id.
pub open spec fn ingredient_for(gd: GameData, id: IngredientId) -> Ingredient {
    gd.ingredients@[choose|j: int| 0 <= j < gd.ingredients@.len() && (#[trigger] gd.ingredients@[j]).id == id]
}

/// In a well-formed catalog, the drug stored at any index is the drug its id
/// resolves to.
pub proof fn lemma_drug_for(gd: GameData, j: int)
    requires
        game_data_wf(gd),
        0 <= j < gd.drugs@.len(),
    ensures
        has_drug_entry(gd, gd.drugs@[j].id),
        drug_for(gd, gd.drugs@[j].id) == gd.drugs@[j],
{
    assert(has_drug_entry(gd, gd.drugs@[j].id));
    let k = choose|k: int| 0 <= k < gd.drugs@.len() && (#[trigger] gd.drugs@[k]).id == gd.drugs@[j].id;
    assert(k == j);
}

/// In a well-formed catalog, the ingredient stored at any index is the
/// ingredient its id resolves to.
pub proof fn lemma_ingredient_for(gd: GameData, j: int)
    requires
        game_data_wf(gd),
        0 <= j < gd.ingredients@.len(),
    ensures
        has_ingredient_entry(gd, gd.ingredients@[j].id),
        ingredient_for(gd, gd.ingredients@[j].id) == gd.ingredients@[j],
{
    assert(has_ingredient_entry(gd, gd.ingredients@[j].id));
    let k = choose|k: int|
        0 <= k < gd.ingredients@.len() && (#[trigger] gd.ingredients@[k]).id == gd.ingredients@[j].id;
    assert(k == j);
}

proof fn lemma_sorted_pair(effects: Seq<Effect>, j: int, k: int)
    requires
        forall|i: int| 1 <= i < effects.len() ==> (#[trigger] effects[i]).id > effects[i - 1].id,
        0 <= j < k < effects.len(),
    ensures
        effects[j].id < effects[k].id,
    decreases k - j,
{
    if j + 1 < k {
        lemma_sorted_pair(effects, j, k - 1);
    }
    assert(effects[k].id > effects[k - 1].id);
}

impl GameData {
    /// Runtime check of the catalog invariant, for callers that assemble a
    /// `GameData` from unchecked input; construction-time validation instead
    /// of failures deep inside the transition engine.
    #[verifier::loop_isolation(false)]
    pub fn validate(&self) -> (r: bool)
        ensures
            r == game_data_wf(*self),
    {
        let ne = self.effects.len();
        for j in 0..ne
            invariant
                ne == self.effects@.len(),
                forall|k: int|
                    0 <= k < j ==> (#[trigger] self.effects@[k]).id < EFFECT_CAPACITY
                        && self.effects@[k].multiplier <= MULTIPLIER_LIMIT,
                forall|k: int|
                    1 <= k < j ==> (#[trigger] self.effects@[k]).id > self.effects@[k - 1].id,
        {
            let e = &self.effects[j];
            if e.id >= EFFECT_CAPACITY {
                return false;
            }
            if e.multiplier > MULTIPLIER_LIMIT {
                return false;
            }
            if j > 0 && self.effects[j - 1].id >= e.id {
                return false;
            }
        }
        proof {
            assert forall|j: int, k: int| 0 <= j < k < self.effects@.len() implies (
            #[trigger] self.effects@[j]).id < (#[trigger] self.effects@[k]).id by {
                lemma_sorted_pair(self.effects@, j, k);
            }
        }
        let nd = self.drugs.len();
        for j in 0..nd
            invariant
                nd == self.drugs@.len(),
                forall|x: int, y: int|
                    0 <= x < j && x < y < nd ==> (#[trigger] self.drugs@[x]).id != (
                    #[trigger] self.drugs@[y]).id,
                forall|x: int| 0 <= x < j ==> drug_wf(#[trigger] self.drugs@[x]),
        {
            match self.drugs[j].base_effect_id {
                Some(e) => {
                    if e >= EFFECT_CAPACITY {
                        return false;
                    }
                },
                None => {},
            }
            let nd2 = nd;
            for k in (j + 1)..nd2
                invariant
                    nd2 == nd,
                    nd == self.drugs@.len(),
                    j < nd,
                    forall|y: int|
                        j < y < k ==> (#[trigger] self.drugs@[y]).id != self.drugs@[j as int].id,
            {
                if self.drugs[k].id == self.drugs[j].id {
                    return false;
                }
            }
        }
        proof {
            assert forall|x: int, y: int|
                0 <= x < self.drugs@.len() && 0 <= y < self.drugs@.len() && x != y implies (
            #[trigger] self.drugs@[x]).id != (#[trigger] self.drugs@[y]).id by {
                if y < x {
                    assert(self.drugs@[y].id != self.drugs@[x].id);
                }
            }
        }
        let ni = self.ingredients.len();
        for j in 0..ni
            invariant
                ni == self.ingredients@.len(),
                forall|x: int, y: int|
                    0 <= x < j && x < y < ni ==> (#[trigger] self.ingredients@[x]).id != (
                    #[trigger] self.ingredients@[y]).id,
                forall|x: int| 0 <= x < j ==> ingredient_wf(#[trigger] self.ingredients@[x]),
        {
            let ing = &self.ingredients[j];
            if ing.adds_effect >= EFFECT_CAPACITY {
                return false;
            }
            let m = ing.replaces_effects.len();
            for r in 0..m
                invariant
                    m == ing.replaces_effects@.len(),
                    forall|k: int|
                        0 <= k < r ==> (#[trigger] ing.replaces_effects@[k]).0 < EFFECT_CAPACITY
                            && ing.replaces_effects@[k].1 < EFFECT_CAPACITY,
                    forall|x: int, y: int|
                        0 <= x < r && x < y < m ==> (#[trigger] ing.replaces_effects@[x]).0 != (
                        #[trigger] ing.replaces_effects@[y]).0,
            {
                let (from_effect, to_effect) = ing.replaces_effects[r];
                if from_effect >= EFFECT_CAPACITY || to_effect >= EFFECT_CAPACITY {
                    proof {
                        assert(ing.replaces_effects@[r as int].0 == from_effect
                            && ing.replaces_effects@[r as int].1 == to_effect);
                        assert(!ingredient_wf(*ing));
                        assert(*ing == self.ingredients@[j as int]);
                    }
                    return false;
                }
                let m2 = m;
                for r2 in (r + 1)..m2
                    invariant
                        m2 == m,
                        m == ing.replaces_effects@.len(),
                        r < m,
                        from_effect == ing.replaces_effects@[r as int].0,
                        forall|y: int|
                            r < y < r2 ==> (#[trigger] ing.replaces_effects@[y]).0 != from_effect,
                {
                    if ing.replaces_effects[r2].0 == from_effect {
                        proof {
                            assert(ing.replaces_effects@[r as int].0 == ing.replaces_effects@[r2
                                as int].0);
                            assert(!ingredient_wf(*ing));
                            assert(*ing == self.ingredients@[j as int]);
                        }
                        return false;
                    }
                }
            }
            let ni2 = ni;
            for k in (j + 1)..ni2
                invariant
                    ni2 == ni,
                    ni == self.ingredients@.len(),
                    j < ni,
                    forall|y: int|
                        j < y < k ==> (#[trigger] self.ingredients@[y]).id
                            != self.ingredients@[j as int].id,
            {
                if self.ingredients[k].id == self.ingredients[j].id {
                    return false;
                }
            }
        }
        proof {
            assert forall|x: int, y: int|
                0 <= x < self.ingredients@.len() && 0 <= y < self.ingredients@.len() && x != y
                implies (#[trigger] self.ingredients@[x]).id != (
            #[trigger] self.ingredients@[y]).id by {
                if y < x {
                    assert(self.ingredients@[y].id != self.ingredients@[x].id);
                }
            }
        }
        true
    }
}

/// Relies on `str`'s `PartialEq`: equality of the two character sequences.
#[verifier::external_body]
fn str_eq(a: &str, b: &str) -> (r: bool)
    ensures
        r == (a@ == b@),
{
    a == b
}

impl GameData {
    /// Looks up an effect by id.
    pub fn get_effect(&self, id: EffectId) -> (r: Option<&Effect>)
        ensures
            r.is_some() == has_effect_entry(*self, id),
            r matches Some(e) ==> exists|j: int|
                0 <= j < self.effects@.len() && *e == (#[trigger] self.effects@[j]) && e.id == id,
    {
        let n = self.effects.len();
        for j in 0..n
            invariant
                n == self.effects@.len(),
                forall|k: int| 0 <= k < j ==> (#[trigger] self.effects@[k]).id != id,
        {
            if self.effects[j].id == id {
                return Some(&self.effects[j]);
            }
        }
        None
    }

    /// Looks up the first effect with this display name, in catalog order.
    pub fn get_effect_by_name(&self, name: &str) -> (r: Option<&Effect>)
        ensures
            r matches Some(e) ==> exists|j: int|
                {
                    &&& 0 <= j < self.effects@.len()
                    &&& *e == (#[trigger] self.effects@[j])
                    &&& e.name@ == name@
                    &&& forall|k: int| 0 <= k < j ==> (#[trigger] self.effects@[k]).name@ != name@
                },
            r.is_none() ==> forall|k: int|
                0 <= k < self.effects@.len() ==> (#[trigger] self.effects@[k]).name@ != name@,
    {
        let n = self.effects.len();
        for j in 0..n
            invariant
                n == self.effects@.len(),
                forall|k: int| 0 <= k < j ==> (#[trigger] self.effects@[k]).name@ != name@,
        {
            if str_eq(self.effects[j].name.as_str(), name) {
                return Some(&self.effects[j]);
            }
        }
        None
    }

    /// Looks up a drug by id.
    pub fn get_drug(&self, id: DrugId) -> (r: Option<&Drug>)
        ensures
            r.is_some() == has_drug_entry(*self, id),
            r matches Some(d) ==> exists|j: int|
                0 <= j < self.drugs@.len() && *d == (#[trigger] self.drugs@[j]) && d.id == id,
    {
        let n = self.drugs.len();
        for j in 0..n
            invariant
                n == self.drugs@.len(),
                forall|k: int| 0 <= k < j ==> (#[trigger] self.drugs@[k]).id != id,
        {
            if self.drugs[j].id == id {
                return Some(&self.drugs[j]);
            }
        }
        None
    }

    /// Looks up the first drug with this display name, in catalog order.
    pub fn get_drug_by_name(&self, name: &str) -> (r: Option<&Drug>)
        ensures
            r matches Some(d) ==> exists|j: int|
                {
                    &&& 0 <= j < self.drugs@.len()
                    &&& *d == (#[trigger] self.drugs@[j])
                    &&& d.name@ == name@
                    &&& forall|k: int| 0 <= k < j ==> (#[trigger] self.drugs@[k]).name@ != name@
                },
            r.is_none() ==> forall|k: int|
                0 <= k < self.drugs@.len() ==> (#[trigger] self.drugs@[k]).name@ != name@,
    {
        let n = self.drugs.len();
        for j in 0..n
            invariant
                n == self.drugs@.len(),
                forall|k: int| 0 <= k < j ==> (#[trigger] self.drugs@[k]).name@ != name@,
        {
            if str_eq(self.drugs[j].name.as_str(), name) {
                return Some(&self.drugs[j]);
            }
        }
        None
    }

    /// Looks up an ingredient by id.
    pub fn get_ingredient(&self, id: IngredientId) -> (r: Option<&Ingredient>)
        ensures
            r.is_some() == has_ingredient_entry(*self, id),
            r matches Some(i) ==> exists|j: int|
                0 <= j < self.ingredients@.len() && *i == (#[trigger] self.ingredients@[j]) && i.id == id,
    {
        let n = self.ingredients.len();
        for j in 0..n
            invariant
                n == self.ingredients@.len(),
                forall|k: int| 0 <= k < j ==> (#[trigger] self.ingredients@[k]).id != id,
        {
            if self.ingredients[j].id == id {
                return Some(&self.ingredients[j]);
            }
        }
        None
    }

    /// Looks up the first ingredient with this display name, in catalog order.
    pub fn get_ingredient_by_name(&self, name: &str) -> (r: Option<&Ingredient>)
        ensures
            r matches Some(i) ==> exists|j: int|
                {
                    &&& 0 <= j < self.ingredients@.len()
                    &&& *i == (#[trigger] self.ingredients@[j])
                    &&& i.name@ == name@
                    &&& forall|k: int| 0 <= k < j ==> (#[trigger] self.ingredients@[k]).name@ != name@
                },
            r.is_none() ==> forall|k: int|
                0 <= k < self.ingredients@.len() ==> (#[trigger] self.ingredients@[k]).name@ != name@,
    {
        let n = self.ingredients.len();
        for j in 0..n
            invariant
                n == self.ingredients@.len(),
                forall|k: int| 0 <= k < j ==> (#[trigger] self.ingredients@[k]).name@ != name@,
        {
            if str_eq(self.ingredients[j].name.as_str(), name) {
                return Some(&self.ingredients[j]);
            }
        }
        None
    }
}

} // verus!
