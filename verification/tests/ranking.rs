use std::cmp::Ordering;

use mixopt::filter::OptimizeTarget;
use mixopt::mix::EffectList;
use mixopt::search::{compare_results, pick_better, MixResult};

fn result(cost: u64, sell_price: u64, profit: u64, effect_ids: Vec<u8>, multiplier: u64, n_ingredients: usize) -> MixResult {
    let refs: Vec<&u8> = effect_ids.iter().collect();
    MixResult {
        base_drug_id: 0,
        ingredient_ids: vec![0; n_ingredients],
        cost,
        sell_price,
        profit,
        effects: EffectList::from_effects(refs),
        multiplier,
    }
}

#[test]
fn cost_before_profit_prefers_cheaper() {
    // The cheap candidate has far lower profit, and still wins under
    // [Cost, Profit].
    let cheap = result(3, 10, 1, vec![0], 10, 1);
    let rich = result(5, 200, 100, vec![0, 1], 50, 1);
    let targets = vec![OptimizeTarget::Cost, OptimizeTarget::Profit];
    assert_eq!(compare_results(&targets, &cheap, &rich), Ordering::Greater);
    assert_eq!(compare_results(&targets, &rich, &cheap), Ordering::Less);
    let winner = pick_better(&targets, rich, cheap);
    assert_eq!(winner.cost, 3);
    assert_eq!(winner.profit, 1);
}

#[test]
fn cost_before_profit_falls_back_on_ties() {
    // Equal costs: profit decides.
    let low = result(4, 10, 2, vec![0], 10, 1);
    let high = result(4, 30, 20, vec![1], 10, 1);
    let targets = vec![OptimizeTarget::Cost, OptimizeTarget::Profit];
    assert_eq!(compare_results(&targets, &low, &high), Ordering::Less);
    let winner = pick_better(&targets, low, high);
    assert_eq!(winner.profit, 20);
}

#[test]
fn single_target_orderings() {
    let a = result(10, 50, 40, vec![0, 1, 2], 70, 3);
    let b = result(12, 60, 48, vec![3], 20, 1);
    assert_eq!(OptimizeTarget::Profit.compare(&a, &b), Ordering::Less);
    assert_eq!(OptimizeTarget::SellPrice.compare(&a, &b), Ordering::Less);
    // Lower cost preferred: a is cheaper, so a compares greater.
    assert_eq!(OptimizeTarget::Cost.compare(&a, &b), Ordering::Greater);
    // Fewer effects preferred: b has fewer.
    assert_eq!(OptimizeTarget::FewestEffects.compare(&a, &b), Ordering::Less);
    // More effects preferred: a has more.
    assert_eq!(OptimizeTarget::MostEffects.compare(&a, &b), Ordering::Greater);
    assert_eq!(OptimizeTarget::Multiplier.compare(&a, &b), Ordering::Greater);
    // Fewer ingredients preferred: b uses fewer.
    assert_eq!(OptimizeTarget::Ingredients.compare(&a, &b), Ordering::Less);
}

#[test]
fn all_targets_tie_keeps_existing() {
    let a = result(4, 10, 6, vec![0], 10, 1);
    let b = result(4, 10, 6, vec![1], 10, 1);
    let targets = vec![
        OptimizeTarget::Profit,
        OptimizeTarget::Cost,
        OptimizeTarget::Ingredients,
    ];
    assert_eq!(compare_results(&targets, &a, &b), Ordering::Equal);
    // On a full tie the existing candidate is retained.
    let winner = pick_better(&targets, a, b);
    assert!(winner.effects.has_effect(&0));
}
