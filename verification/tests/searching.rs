use mixopt::filter::{ConfigError, Filter, OptimizeTarget};
use mixopt::game_data::{Drug, Effect, GameData, Ingredient};
use mixopt::search::{best_mix_for_drug, find_optimal_mix, score_mix};

// A small synthetic catalog:
//   effects: 0 "Shiny" (x0.50), 1 "Dull" (x0.10), 2 "Cursed" (x0.00)
//   drug:    0 "Base", no inherent effect, base sell value 10
//   ingredients: 0 "Polish" ($2, adds Shiny)
//                1 "Mud"    ($1, adds Dull, replaces Shiny -> Cursed)
fn game_data() -> GameData {
    let effects = vec![
        Effect {
            id: 0,
            name: "Shiny".to_string(),
            description: None,
            is_ability: false,
            is_cosmetic: false,
            multiplier: 50,
        },
        Effect {
            id: 1,
            name: "Dull".to_string(),
            description: None,
            is_ability: false,
            is_cosmetic: false,
            multiplier: 10,
        },
        Effect {
            id: 2,
            name: "Cursed".to_string(),
            description: None,
            is_ability: false,
            is_cosmetic: false,
            multiplier: 0,
        },
        Effect {
            id: 3,
            name: "Faint".to_string(),
            description: None,
            is_ability: false,
            is_cosmetic: false,
            multiplier: 5,
        },
    ];
    let drugs = vec![Drug {
        id: 0,
        name: "Base".to_string(),
        base_effect_id: None,
        base_sell_value: 10,
        unlock_rank: 0,
    }];
    let ingredients = vec![
        Ingredient {
            id: 0,
            name: "Polish".to_string(),
            buy_price: 2,
            unlock_rank: 0,
            adds_effect: 0,
            replaces_effects: vec![],
        },
        Ingredient {
            id: 1,
            name: "Mud".to_string(),
            buy_price: 1,
            unlock_rank: 0,
            adds_effect: 1,
            replaces_effects: vec![(0, 2)],
        },
        Ingredient {
            id: 2,
            name: "Dust".to_string(),
            buy_price: 1,
            unlock_rank: 0,
            adds_effect: 3,
            replaces_effects: vec![],
        },
    ];
    GameData { ranks: vec![], effects, drugs, ingredients }
}

fn filter_for(gd: &GameData, max: usize) -> Filter {
    let mut filter = Filter::new();
    filter.add_all_drugs(gd);
    filter.add_all_ingredients(gd);
    filter.with_max_ingredients(max);
    assert!(filter.validate(gd));
    filter
}

#[test]
fn scoring_formulas_are_exact() {
    let gd = game_data();
    assert!(gd.validate());
    let drug = gd.get_drug(0).unwrap();
    // [Mud, Polish]: Dull then Shiny, multiplier 0.60 on a base of 10.
    let m = score_mix(&gd, drug, &vec![1, 0]);
    assert_eq!(m.cost, 3);
    assert_eq!(m.multiplier, 60);
    // round(10 * 1.60) = 16
    assert_eq!(m.sell_price, 16);
    assert_eq!(m.profit, 13);
    assert!(m.effects.has_effect(&0));
    assert!(m.effects.has_effect(&1));
    assert_eq!(m.effects.len(), 2);
}

#[test]
fn sell_price_rounds_halves_up() {
    let gd = game_data();
    let drug = gd.get_drug(0).unwrap();
    // [Dust]: multiplier 0.05 on a base of 10 gives 10.5, which rounds to 11.
    let m = score_mix(&gd, drug, &vec![2]);
    assert_eq!(m.multiplier, 5);
    assert_eq!(m.sell_price, 11);
    assert_eq!(m.profit, 10);
}

#[test]
fn profit_saturates_at_zero() {
    let gd = game_data();
    let drug = gd.get_drug(0).unwrap();
    // Twelve Mud: effects stay {Dull}, sell 11, cost 12 > sell, so profit is 0.
    let m = score_mix(&gd, drug, &vec![1, 1, 1, 1, 1, 1, 1, 1, 1, 1, 1, 1]);
    assert_eq!(m.sell_price, 11);
    assert_eq!(m.cost, 12);
    assert_eq!(m.profit, 0);
}

#[test]
fn finds_the_most_profitable_mix() {
    let gd = game_data();
    let filter = filter_for(&gd, 2);
    let best = find_optimal_mix(&filter, &gd).unwrap();
    // [Polish] and [Mud, Polish] tie on profit 13; the cost target breaks the
    // tie toward the single cheap ingredient.
    assert_eq!(best.base_drug_id, 0);
    assert_eq!(best.ingredient_ids, vec![0]);
    assert_eq!(best.cost, 2);
    assert_eq!(best.sell_price, 15);
    assert_eq!(best.profit, 13);
    assert_eq!(best.multiplier, 50);
}

#[test]
fn required_effect_steers_the_search() {
    let gd = game_data();
    let mut filter = filter_for(&gd, 2);
    filter.add_required_effect(&gd, "Dull").unwrap();
    assert!(filter.validate(&gd));
    let best = find_optimal_mix(&filter, &gd).unwrap();
    // Among candidates whose result has Dull, [Mud, Polish] has profit 13.
    assert_eq!(best.ingredient_ids, vec![1, 0]);
    assert_eq!(best.profit, 13);
}

#[test]
fn blocked_effect_discards_candidates() {
    let gd = game_data();
    let mut filter = filter_for(&gd, 2);
    filter.add_required_effect(&gd, "Dull").unwrap();
    filter.add_blocked_effect(&gd, "Shiny").unwrap();
    let best = find_optimal_mix(&filter, &gd).unwrap();
    // [Mud, Polish] is now blocked (Shiny); [Mud] wins with profit 10.
    assert_eq!(best.ingredient_ids, vec![1]);
    assert_eq!(best.sell_price, 11);
    assert_eq!(best.cost, 1);
    assert_eq!(best.profit, 10);
}

#[test]
fn impossible_requirement_yields_none() {
    let gd = game_data();
    let mut filter = filter_for(&gd, 2);
    // Cursed appears only together with Dull via Mud's replacement, and Mud
    // replaces Shiny; requiring Cursed while blocking Dull is unsatisfiable.
    filter.add_required_effect(&gd, "Cursed").unwrap();
    filter.add_blocked_effect(&gd, "Dull").unwrap();
    assert!(find_optimal_mix(&filter, &gd).is_none());
}

#[test]
fn empty_spaces_yield_none() {
    let gd = game_data();
    let mut filter = filter_for(&gd, 0);
    assert!(find_optimal_mix(&filter, &gd).is_none());
    filter.with_max_ingredients(2);
    filter.available_ingredients = vec![];
    assert!(find_optimal_mix(&filter, &gd).is_none());
}

#[test]
fn per_drug_search_matches_whole_search() {
    let gd = game_data();
    let filter = filter_for(&gd, 2);
    let per_drug = best_mix_for_drug(&filter, &gd, 0).unwrap();
    let whole = find_optimal_mix(&filter, &gd).unwrap();
    assert_eq!(per_drug.profit, whole.profit);
    assert_eq!(per_drug.cost, whole.cost);
    assert_eq!(per_drug.ingredient_ids, whole.ingredient_ids);
}

#[test]
fn builder_defaults_and_updates() {
    let filter = Filter::new();
    assert_eq!(
        filter.optimize_targets,
        vec![
            OptimizeTarget::Profit,
            OptimizeTarget::Cost,
            OptimizeTarget::Ingredients,
        ]
    );
    assert_eq!(filter.max_ingredients, 8);
    assert!(filter.available_drugs.is_empty());
    assert!(filter.available_ingredients.is_empty());
    assert!(filter.required_effects.is_empty());
    assert!(filter.blocked_effects.is_empty());

    let gd = game_data();
    let mut filter = Filter::new();
    filter.with_optimize_targets(vec![OptimizeTarget::SellPrice]);
    assert_eq!(filter.optimize_targets, vec![OptimizeTarget::SellPrice]);
    filter.add_drug(&gd, "Base").unwrap();
    filter.add_drug(&gd, "Base").unwrap();
    assert_eq!(filter.available_drugs, vec![0]);
    filter.add_ingredient(&gd, "Mud").unwrap();
    filter.add_ingredient(&gd, "Polish").unwrap();
    filter.add_ingredient(&gd, "Mud").unwrap();
    assert_eq!(filter.available_ingredients, vec![1, 0]);
}

#[test]
fn unknown_names_are_reported() {
    let gd = game_data();
    let mut filter = Filter::new();
    assert_eq!(filter.add_drug(&gd, "Granite"), Err(ConfigError::UnknownDrug));
    assert_eq!(
        filter.add_ingredient(&gd, "Granite"),
        Err(ConfigError::UnknownIngredient)
    );
    assert_eq!(
        filter.add_required_effect(&gd, "Granite"),
        Err(ConfigError::UnknownEffect)
    );
    assert_eq!(
        filter.add_blocked_effect(&gd, "Granite"),
        Err(ConfigError::UnknownEffect)
    );
    assert!(filter.available_drugs.is_empty());
    assert!(filter.required_effects.is_empty());
}

#[test]
fn invalid_catalogs_are_rejected() {
    let mut gd = game_data();
    assert!(gd.validate());
    // Out-of-range effect id.
    gd.effects[0].id = 64;
    assert!(!gd.validate());
    let mut gd = game_data();
    // Unsorted effect ids.
    gd.effects.swap(0, 1);
    assert!(!gd.validate());
    let mut gd = game_data();
    // Duplicate ingredient id.
    gd.ingredients[1].id = 0;
    assert!(!gd.validate());
    let mut gd = game_data();
    // Repeated replacement source.
    gd.ingredients[1].replaces_effects = vec![(0, 2), (0, 1)];
    assert!(!gd.validate());
}
