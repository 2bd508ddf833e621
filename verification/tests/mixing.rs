use mixopt::game_data::{Drug, Effect, GameData, Ingredient};
use mixopt::mix::mix;

fn effect(id: u8, name: &str, multiplier: u64) -> Effect {
    Effect {
        id,
        name: name.to_string(),
        description: None,
        is_ability: false,
        is_cosmetic: false,
        multiplier,
    }
}

fn drug(id: u8, name: &str, base_effect_id: Option<u8>, base_sell_value: u8) -> Drug {
    Drug { id, name: name.to_string(), base_effect_id, base_sell_value, unlock_rank: 0 }
}

fn ingredient(id: u8, name: &str, buy_price: u8, adds_effect: u8, rules: Vec<(u8, u8)>) -> Ingredient {
    Ingredient {
        id,
        name: name.to_string(),
        buy_price,
        unlock_rank: 0,
        adds_effect,
        replaces_effects: rules,
    }
}

// Effect ids, alphabetical:
// 0 Anti-Gravity, 1 Athletic, 2 Balding, 3 Bright-Eyed, 4 Calming,
// 5 Calorie-Dense, 6 Cyclopean, 7 Disorienting, 8 Electrifying, 9 Energizing,
// 10 Euphoric, 11 Explosive, 12 Focused, 13 Foggy, 14 Gingeritis, 15 Glowing,
// 16 Jennerising, 17 Laxative, 18 Long Faced, 19 Munchies, 20 Paranoia,
// 21 Refreshing, 22 Schizophrenia, 23 Sedating, 24 Seizure-Inducing,
// 25 Shrinking, 26 Slippery, 27 Smelly, 28 Sneaky, 29 Spicy,
// 30 Thought-Provoking, 31 Toxic, 32 Tropic Thunder, 33 Zombifying
fn game_data() -> GameData {
    let effects = vec![
        effect(0, "Anti-Gravity", 54),
        effect(1, "Athletic", 32),
        effect(2, "Balding", 30),
        effect(3, "Bright-Eyed", 40),
        effect(4, "Calming", 10),
        effect(5, "Calorie-Dense", 28),
        effect(6, "Cyclopean", 56),
        effect(7, "Disorienting", 0),
        effect(8, "Electrifying", 50),
        effect(9, "Energizing", 22),
        effect(10, "Euphoric", 18),
        effect(11, "Explosive", 0),
        effect(12, "Focused", 16),
        effect(13, "Foggy", 36),
        effect(14, "Gingeritis", 20),
        effect(15, "Glowing", 48),
        effect(16, "Jennerising", 42),
        effect(17, "Laxative", 0),
        effect(18, "Long Faced", 52),
        effect(19, "Munchies", 12),
        effect(20, "Paranoia", 0),
        effect(21, "Refreshing", 14),
        effect(22, "Schizophrenia", 0),
        effect(23, "Sedating", 26),
        effect(24, "Seizure-Inducing", 0),
        effect(25, "Shrinking", 60),
        effect(26, "Slippery", 34),
        effect(27, "Smelly", 0),
        effect(28, "Sneaky", 24),
        effect(29, "Spicy", 38),
        effect(30, "Thought-Provoking", 44),
        effect(31, "Toxic", 0),
        effect(32, "Tropic Thunder", 46),
        effect(33, "Zombifying", 58),
    ];
    let drugs = vec![
        drug(0, "OG Kush", Some(4), 39),
        drug(1, "Green Crack", Some(9), 43),
        drug(2, "Granddaddy Purple", Some(23), 44),
        drug(3, "Methamphetamine", Some(9), 70),
    ];
    let ingredients = vec![
        ingredient(
            0,
            "Cuke",
            2,
            9,
            vec![(10, 17), (13, 6), (14, 30), (19, 1), (26, 19), (28, 20), (31, 10)],
        ),
        ingredient(
            1,
            "Gasoline",
            5,
            31,
            vec![(14, 27), (16, 28), (19, 23), (20, 4), (28, 32)],
        ),
        ingredient(2, "Mouth Wash", 4, 2, vec![(4, 0), (5, 28), (11, 23), (12, 16)]),
        ingredient(
            3,
            "Banana",
            2,
            14,
            vec![
                (4, 28),
                (6, 9),
                (7, 12),
                (9, 30),
                (12, 24),
                (18, 21),
                (20, 16),
                (27, 0),
                (31, 27),
            ],
        ),
        ingredient(
            4,
            "Iodine",
            8,
            16,
            vec![(4, 2), (5, 14), (10, 24), (13, 20), (21, 30), (31, 28)],
        ),
        ingredient(
            5,
            "Mega Bean",
            7,
            13,
            vec![
                (1, 17),
                (4, 15),
                (9, 6),
                (16, 20),
                (24, 12),
                (25, 8),
                (26, 31),
                (28, 4),
                (30, 9),
            ],
        ),
        ingredient(
            6,
            "Energy Drink",
            6,
            1,
            vec![
                (7, 8),
                (10, 9),
                (12, 25),
                (13, 17),
                (15, 7),
                (22, 2),
                (23, 19),
                (29, 10),
                (32, 28),
            ],
        ),
        ingredient(7, "Horse Semen", 9, 18, vec![(0, 4), (14, 21), (30, 8)]),
        ingredient(
            8,
            "Donut",
            3,
            5,
            vec![(0, 26), (2, 28), (5, 11), (12, 10), (16, 14), (25, 9)],
        ),
        ingredient(
            9,
            "Addy",
            9,
            30,
            vec![(11, 10), (13, 9), (15, 21), (18, 8), (23, 14)],
        ),
        ingredient(
            10,
            "Battery",
            8,
            3,
            vec![(6, 15), (8, 10), (10, 33), (17, 5), (19, 32), (25, 19)],
        ),
        ingredient(
            11,
            "Flu Medicine",
            5,
            23,
            vec![
                (1, 19),
                (4, 3),
                (6, 13),
                (8, 21),
                (10, 31),
                (12, 4),
                (17, 10),
                (19, 26),
                (25, 20),
                (30, 14),
            ],
        ),
        ingredient(12, "Viagor", 4, 32, vec![(1, 28), (7, 31), (10, 3), (17, 4)]),
        ingredient(
            13,
            "Paracetamol",
            3,
            28,
            vec![
                (4, 26),
                (8, 1),
                (9, 20),
                (12, 14),
                (13, 4),
                (15, 31),
                (19, 0),
                (20, 2),
                (29, 3),
                (31, 32),
            ],
        ),
    ];
    GameData { ranks: vec![], effects, drugs, ingredients }
}

fn test_mix_helper(base_drug_name: &str, ingredient_names: Vec<&str>, expected_effects: Vec<&str>) {
    let game_data = game_data();
    assert!(game_data.validate());
    let base_drug = game_data.get_drug_by_name(base_drug_name).unwrap();
    let ingredients: Vec<&Ingredient> = ingredient_names
        .iter()
        .map(|&name| game_data.get_ingredient_by_name(name).unwrap())
        .collect();

    let pred_effects = mix(base_drug, &ingredients);
    let pred_effects: Vec<String> = pred_effects
        .to_vec(&game_data)
        .into_iter()
        .map(|effect| effect.name.clone())
        .collect();

    assert_eq!(pred_effects.len(), expected_effects.len());
    for effect in expected_effects {
        assert!(pred_effects.contains(&effect.to_string()));
    }
}

#[test]
fn test_mix_1() {
    test_mix_helper(
        "Methamphetamine",
        vec!["Gasoline", "Cuke", "Mouth Wash", "Banana"],
        vec!["Balding", "Euphoric", "Gingeritis", "Thought-Provoking"],
    );
}

#[test]
fn test_mix_2() {
    test_mix_helper(
        "Green Crack",
        vec!["Cuke", "Iodine", "Mega Bean", "Energy Drink", "Horse Semen"],
        vec!["Athletic", "Cyclopean", "Laxative", "Long Faced", "Paranoia"],
    );
}

#[test]
fn test_mix_3() {
    test_mix_helper(
        "OG Kush",
        vec!["Donut", "Donut", "Addy", "Battery"],
        vec![
            "Bright-Eyed",
            "Calming",
            "Calorie-Dense",
            "Thought-Provoking",
            "Zombifying",
        ],
    );
}

#[test]
fn test_mix_4() {
    test_mix_helper(
        "OG Kush",
        vec!["Donut", "Battery", "Flu Medicine", "Addy", "Horse Semen"],
        vec![
            "Bright-Eyed",
            "Calming",
            "Calorie-Dense",
            "Electrifying",
            "Long Faced",
            "Refreshing",
        ],
    )
}

#[test]
fn test_mix_5() {
    test_mix_helper(
        "Granddaddy Purple",
        vec![
            "Flu Medicine",
            "Cuke",
            "Addy",
            "Battery",
            "Mega Bean",
            "Horse Semen",
            "Viagor",
            "Paracetamol",
        ],
        vec![
            "Bright-Eyed",
            "Calming",
            "Cyclopean",
            "Long Faced",
            "Paranoia",
            "Refreshing",
            "Sneaky",
            "Tropic Thunder",
        ],
    )
}

#[test]
fn empty_sequence_yields_inherent_effect() {
    let game_data = game_data();
    let base_drug = game_data.get_drug_by_name("OG Kush").unwrap();
    let result = mix(base_drug, &[]);
    assert_eq!(result.len(), 1);
    assert!(result.has_effect(&4));
    let names: Vec<String> = result
        .to_vec(&game_data)
        .into_iter()
        .map(|e| e.name.clone())
        .collect();
    assert_eq!(names, vec!["Calming".to_string()]);
}

#[test]
fn cardinality_never_exceeds_eight() {
    let game_data = game_data();
    let base_drug = game_data.get_drug_by_name("Granddaddy Purple").unwrap();
    // A long sequence that keeps granting fresh effects still caps at 8.
    let names = vec![
        "Cuke",
        "Gasoline",
        "Mouth Wash",
        "Banana",
        "Iodine",
        "Mega Bean",
        "Energy Drink",
        "Horse Semen",
        "Donut",
        "Addy",
        "Battery",
        "Flu Medicine",
        "Viagor",
        "Paracetamol",
    ];
    let ingredients: Vec<&Ingredient> = names
        .iter()
        .map(|&name| game_data.get_ingredient_by_name(name).unwrap())
        .collect();
    let result = mix(base_drug, &ingredients);
    assert!(result.len() <= 8);
}
