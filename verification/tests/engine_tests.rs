//! Scenario tests for the selection engine, driven by the library's
//! scripted consent interface and scripted random source.

use statrs::distribution::ContinuousCDF;

use rpick::Cell;
use rpick::ConfigCategory;
use rpick::ConfigEntry;
use rpick::Engine;
use rpick::InventoryChoice;
use rpick::is_category_pickable;
use rpick::LotteryChoice;
use rpick::Row;
use rpick::RandomSource;
use rpick::ScriptedSource;
use rpick::ScriptedUi;
use rpick::Table;
use rpick::WeightedChoice;

fn names(list: &[&str]) -> Vec<String> {
    list.iter().map(|s| s.to_string()).collect()
}

#[test]
fn test_get_consent() {
    let ui = ScriptedUi::new(false, vec![true, false]);
    let mut engine = Engine::new(ui, ScriptedSource::with_uniform(vec![]));

    assert_eq!(engine.get_consent("you want this"), true);
    assert_eq!(engine.get_consent("you don't want this"), false);
    assert_eq!(
        engine.ui().prompts,
        vec!["you want this".to_string(), "you don't want this".to_string()]
    );
}

#[test]
fn test_pick() {
    // The user rejects "this", then accepts "that".
    let ui = ScriptedUi::new(false, vec![false, true]);
    let mut engine = Engine::new(ui, ScriptedSource::with_uniform(vec![0, 0]));
    let choices = names(&["this", "that", "the other"]);
    let mut config = vec![ConfigEntry {
        name: "things".to_string(),
        category: ConfigCategory::Even { choices: choices.clone() },
    }];

    let choice = engine.pick(&mut config, "things".to_string()).expect("unexpected");

    assert_eq!(choice, "that");
    assert_eq!(engine.ui().replies, vec![false, true]);
    assert_eq!(engine.ui().display_table_queries, 2);
    for prompt in &engine.ui().prompts {
        assert!(prompt == "that" || prompt == "this");
    }
    // The even model never mutates its persisted list.
    assert_eq!(
        config,
        vec![ConfigEntry {
            name: "things".to_string(),
            category: ConfigCategory::Even { choices },
        }]
    );
}

#[test]
fn test_pick_nonexistant_category() {
    let ui = ScriptedUi::new(false, vec![]);
    let mut engine = Engine::new(ui, ScriptedSource::with_uniform(vec![]));
    let choices = names(&["this", "that", "the other"]);
    let mut config = vec![ConfigEntry {
        name: "things".to_string(),
        category: ConfigCategory::Even { choices },
    }];

    match engine.pick(&mut config, "does not exist".to_string()) {
        Ok(_) => {
            panic!("The non-existant category should have returned an error.");
        }
        Err(error) => {
            assert_eq!(error.message(), "Category does not exist not found in config.");
        }
    }
}

#[test]
fn test_pick_even() {
    let ui = ScriptedUi::new(false, vec![true]);
    let mut engine = Engine::new(ui, ScriptedSource::with_uniform(vec![0]));
    let choices = names(&["this", "that", "the other"]);

    let result = engine.pick_even(&choices);

    assert_eq!(result, "this");
    assert_eq!(engine.ui().display_table_queries, 1);
    assert_eq!(engine.ui().prompts, vec!["this".to_string()]);
}

#[test]
fn test_pick_gaussian() {
    let ui = ScriptedUi::new(false, vec![true]);
    let mut engine = Engine::new(ui, ScriptedSource::with_gaussian(vec![1]));
    let mut choices = names(&["this", "that", "the other"]);

    let result = engine.pick_gaussian(&mut choices, (3.0f64).to_bits());

    assert_eq!(result, "that");
    assert_eq!(choices, names(&["this", "the other", "that"]));
    assert_eq!(engine.ui().display_table_queries, 1);
}

#[test]
fn test_pick_gaussian_verbose() {
    let ui = ScriptedUi::new(true, vec![true]);
    let mut engine = Engine::new(ui, ScriptedSource::with_gaussian(vec![1]));
    let mut choices = names(&["this", "that", "the other"]);

    let result = engine.pick_gaussian(&mut choices, (3.0f64).to_bits());

    assert_eq!(result, "that");
    assert_eq!(choices, names(&["this", "the other", "that"]));

    // The renderer receives the drawn index, the working pool, and the
    // scaling factor, and computes each row's chance from the normal CDF:
    // (cdf(i + 1) - cdf(i)) * 200, doubled because the folded distribution
    // maps both tails onto the same index.
    let calls = &engine.ui().gaussian_calls;
    assert_eq!(calls.len(), 1);
    let call = &calls[0];
    assert_eq!(call.index, 1);
    assert_eq!(call.candidates, names(&["this", "that", "the other"]));
    let factor = f64::from_bits(call.stddev_scaling_factor_bits);
    let stddev = call.candidates.len() as f64 / factor;
    let normal = statrs::distribution::Normal::new(0.0, stddev).unwrap();
    let expected = [68.269f64, 27.181, 4.280];
    let mut total = 0.0f64;
    for (i, want) in expected.iter().enumerate() {
        let chance = (normal.cdf(i as f64 + 1.0) - normal.cdf(i as f64)) * 200.0;
        total += chance;
        assert!((chance - want).abs() < 0.001, "row {}: {} != {}", i, chance, want);
    }
    assert!((total - 99.73).abs() < 0.001);
}

#[test]
fn test_pick_inventory() {
    // Three rejections of eligible names, then "the other" is accepted.
    let ui = ScriptedUi::new(false, vec![false, false, false, true]);
    let mut engine = Engine::new(ui, ScriptedSource::with_uniform(vec![0, 0, 0, 0]));
    let mut choices = vec![
        InventoryChoice { name: "this".to_string(), tickets: 0 },
        InventoryChoice { name: "that".to_string(), tickets: 2 },
        InventoryChoice { name: "the other".to_string(), tickets: 3 },
    ];

    let result = engine.pick_inventory(&mut choices);

    assert_eq!(result, "the other");
    assert_eq!(
        choices,
        vec![
            InventoryChoice { name: "this".to_string(), tickets: 0 },
            InventoryChoice { name: "that".to_string(), tickets: 2 },
            InventoryChoice { name: "the other".to_string(), tickets: 2 },
        ]
    );
    let ui = engine.ui();
    assert_eq!(ui.display_table_queries, 4);
    assert_eq!(ui.infos, vec!["🤨".to_string()]);
    for prompt in &ui.prompts {
        // A choice without tickets is never drawn.
        assert!(prompt == "that" || prompt == "the other");
    }
    assert_eq!(ui.prompts.len(), 4);
}

#[test]
fn test_pick_inventory_verbose() {
    let ui = ScriptedUi::new(true, vec![true]);
    let mut engine = Engine::new(ui, ScriptedSource::with_uniform(vec![0]));
    let mut choices = vec![
        InventoryChoice { name: "this".to_string(), tickets: 0 },
        InventoryChoice { name: "that".to_string(), tickets: 2 },
        InventoryChoice { name: "the other".to_string(), tickets: 3 },
    ];

    let result = engine.pick_inventory(&mut choices);

    assert_eq!(result, "that");
    assert_eq!(
        choices,
        vec![
            InventoryChoice { name: "this".to_string(), tickets: 0 },
            InventoryChoice { name: "that".to_string(), tickets: 1 },
            InventoryChoice { name: "the other".to_string(), tickets: 3 },
        ]
    );

    let ui = engine.ui();
    assert_eq!(ui.tables.len(), 1);
    let expected = Table {
        header: vec![
            Cell::Text("Name".to_string()),
            Cell::Text("Weight".to_string()),
            Cell::Text("Chance".to_string()),
        ],
        rows: vec![
            Row {
                cells: vec![
                    Cell::Text("that".to_string()),
                    Cell::Unsigned(2),
                    Cell::Ratio { part: 2, whole: 5 },
                ],
                chosen: true,
            },
            Row {
                cells: vec![
                    Cell::Text("the other".to_string()),
                    Cell::Unsigned(3),
                    Cell::Ratio { part: 3, whole: 5 },
                ],
                chosen: false,
            },
        ],
        footer: vec![
            Cell::Text("Total".to_string()),
            Cell::Unsigned(5),
            Cell::Ratio { part: 5, whole: 5 },
        ],
    };
    assert_eq!(ui.tables[0], expected);
    // The ratio cells render as the percentages the user sees.
    assert!((ratio_percent(&ui.tables[0].rows[0].cells[2]) - 40.0).abs() < 1e-9);
    assert!((ratio_percent(&ui.tables[0].rows[1].cells[2]) - 60.0).abs() < 1e-9);
    assert!((ratio_percent(&ui.tables[0].footer[2]) - 100.0).abs() < 1e-9);
}

fn ratio_percent(cell: &Cell) -> f64 {
    match cell {
        Cell::Ratio { part, whole } => *part as f64 / *whole as f64 * 100.0,
        _ => panic!("not a ratio cell"),
    }
}

#[test]
fn test_pick_lru() {
    // The user says no to the first one and yes to the second.
    let ui = ScriptedUi::new(false, vec![false, true]);
    let mut engine = Engine::new(ui, ScriptedSource::with_uniform(vec![]));
    let mut choices = names(&["this", "that", "the other"]);

    let result = engine.pick_lru(&mut choices);

    assert_eq!(result, "that");
    assert_eq!(choices, names(&["this", "the other", "that"]));
    assert_eq!(engine.ui().display_table_queries, 2);
    assert_eq!(engine.ui().prompts, vec!["this".to_string(), "that".to_string()]);
}

#[test]
fn test_pick_lru_verbose() {
    let ui = ScriptedUi::new(true, vec![true]);
    let mut engine = Engine::new(ui, ScriptedSource::with_uniform(vec![]));
    let mut choices = names(&["this", "that", "the other"]);

    let result = engine.pick_lru(&mut choices);

    assert_eq!(result, "this");
    assert_eq!(choices, names(&["that", "the other", "this"]));
    let expected = Table {
        header: vec![Cell::Text("Name".to_string())],
        rows: vec![
            Row { cells: vec![Cell::Text("the other".to_string())], chosen: false },
            Row { cells: vec![Cell::Text("that".to_string())], chosen: false },
            Row { cells: vec![Cell::Text("this".to_string())], chosen: true },
        ],
        footer: vec![],
    };
    assert_eq!(engine.ui().tables, vec![expected]);
    assert_eq!(engine.ui().prompts, vec!["this".to_string()]);
}

#[test]
fn test_pick_lottery() {
    let ui = ScriptedUi::new(false, vec![true]);
    let mut engine = Engine::new(ui, ScriptedSource::with_uniform(vec![0]));
    let mut choices = vec![
        LotteryChoice { name: "this".to_string(), tickets: 1, weight: 1 },
        LotteryChoice { name: "that".to_string(), tickets: 2, weight: 4 },
        LotteryChoice { name: "the other".to_string(), tickets: 3, weight: 9 },
    ];

    let result = engine.pick_lottery(&mut choices);

    assert_eq!(result, "this");
    assert_eq!(
        choices,
        vec![
            LotteryChoice { name: "this".to_string(), tickets: 0, weight: 1 },
            LotteryChoice { name: "that".to_string(), tickets: 6, weight: 4 },
            LotteryChoice { name: "the other".to_string(), tickets: 12, weight: 9 },
        ]
    );
    assert_eq!(engine.ui().display_table_queries, 1);
}

/// If the user says no to all the choices, the engine should emit one
/// disapproval and start over — also when one of the options has no chance
/// of being picked.
#[test]
fn test_pick_lottery_no_to_all_one_no_chance() {
    let ui = ScriptedUi::new(false, vec![false, false, false, true]);
    let mut engine = Engine::new(ui, ScriptedSource::with_uniform(vec![0, 0, 0, 0]));
    let mut choices = vec![
        LotteryChoice { name: "this".to_string(), tickets: 0, weight: 1 },
        LotteryChoice { name: "that".to_string(), tickets: 2, weight: 4 },
        LotteryChoice { name: "the other".to_string(), tickets: 3, weight: 9 },
    ];

    let result = engine.pick_lottery(&mut choices);

    assert_eq!(result, "the other");
    assert_eq!(
        choices,
        vec![
            LotteryChoice { name: "this".to_string(), tickets: 1, weight: 1 },
            LotteryChoice { name: "that".to_string(), tickets: 6, weight: 4 },
            LotteryChoice { name: "the other".to_string(), tickets: 0, weight: 9 },
        ]
    );
    let ui = engine.ui();
    assert_eq!(ui.display_table_queries, 4);
    assert_eq!(ui.infos, vec!["🤨".to_string()]);
    for prompt in &ui.prompts {
        assert!(prompt == "that" || prompt == "the other");
    }
    assert_eq!(ui.prompts.len(), 4);
}

#[test]
fn test_pick_weighted() {
    let ui = ScriptedUi::new(false, vec![true]);
    let mut engine = Engine::new(ui, ScriptedSource::with_uniform(vec![0]));
    let choices = vec![
        WeightedChoice { name: "this".to_string(), weight: 1 },
        WeightedChoice { name: "that".to_string(), weight: 4 },
        WeightedChoice { name: "the other".to_string(), weight: 9 },
    ];

    let result = engine.pick_weighted(&choices);

    assert_eq!(result, "this");
    assert_eq!(engine.ui().display_table_queries, 1);
}

/// Saying no to all weighted options must express disapproval and reset the
/// pool rather than crash.
#[test]
fn test_pick_weighted_no_to_all() {
    let ui = ScriptedUi::new(false, vec![false, false, false, true]);
    let mut engine = Engine::new(ui, ScriptedSource::with_uniform(vec![0, 0, 0, 0]));
    let choices = vec![
        WeightedChoice { name: "this".to_string(), weight: 1 },
        WeightedChoice { name: "that".to_string(), weight: 4 },
        WeightedChoice { name: "the other".to_string(), weight: 9 },
    ];

    let result = engine.pick_weighted(&choices);

    assert_eq!(result, "this");
    let ui = engine.ui();
    assert_eq!(ui.display_table_queries, 4);
    assert_eq!(ui.infos, vec!["🤨".to_string()]);
    for prompt in &ui.prompts {
        assert!(prompt == "this" || prompt == "that" || prompt == "the other");
    }
    assert_eq!(ui.prompts.len(), 4);
    assert_eq!(ui.replies, vec![false, false, false, true]);
}

/// An out-of-range gaussian draw is redrawn without asking for consent and
/// without counting as a rejection.
#[test]
fn test_pick_gaussian_out_of_range_redraw() {
    let ui = ScriptedUi::new(false, vec![true]);
    let mut engine = Engine::new(ui, ScriptedSource::with_gaussian(vec![7, 2]));
    let mut choices = names(&["this", "that", "the other"]);

    let result = engine.pick_gaussian(&mut choices, (3.0f64).to_bits());

    assert_eq!(result, "the other");
    assert_eq!(choices, names(&["this", "that", "the other"]));
    assert_eq!(engine.ui().prompts, vec!["the other".to_string()]);
}

/// Rejecting every candidate of an LRU scan emits exactly one disapproval,
/// and the scan restarts from the front of the unchanged list.
#[test]
fn test_pick_lru_reject_all_then_accept() {
    let ui = ScriptedUi::new(false, vec![false, false, false, true]);
    let mut engine = Engine::new(ui, ScriptedSource::with_uniform(vec![]));
    let mut choices = names(&["this", "that", "the other"]);

    let result = engine.pick_lru(&mut choices);

    assert_eq!(result, "this");
    assert_eq!(choices, names(&["that", "the other", "this"]));
    let ui = engine.ui();
    assert_eq!(ui.infos, vec!["🤨".to_string()]);
    assert_eq!(
        ui.prompts,
        vec![
            "this".to_string(),
            "that".to_string(),
            "the other".to_string(),
            "this".to_string(),
        ]
    );
}

/// The even model behaves exactly like the weighted model with every weight
/// fixed at one: same scripts, same prompts, same result.
#[test]
fn test_even_matches_unit_weighted() {
    let list = ["this", "that", "the other"];

    let even_ui = ScriptedUi::new(false, vec![false, false, true]);
    let mut even_engine = Engine::new(even_ui, ScriptedSource::with_uniform(vec![2, 0, 0]));
    let even_choices = names(&list);
    let even_result = even_engine.pick_even(&even_choices);

    let w_ui = ScriptedUi::new(false, vec![false, false, true]);
    let mut w_engine = Engine::new(w_ui, ScriptedSource::with_uniform(vec![2, 0, 0]));
    let w_choices: Vec<WeightedChoice> = list
        .iter()
        .map(|name| WeightedChoice { name: name.to_string(), weight: 1 })
        .collect();
    let w_result = w_engine.pick_weighted(&w_choices);

    assert_eq!(even_result, w_result);
    assert_eq!(even_engine.ui().prompts, w_engine.ui().prompts);
    assert_eq!(even_engine.ui().infos, w_engine.ui().infos);
}

/// A pick through the configuration mutates exactly the named category and
/// leaves every other entry untouched.
#[test]
fn test_pick_updates_only_named_category() {
    let ui = ScriptedUi::new(false, vec![true]);
    let mut engine = Engine::new(ui, ScriptedSource::with_uniform(vec![0]));
    let mut config = vec![
        ConfigEntry {
            name: "days".to_string(),
            category: ConfigCategory::LRU { choices: names(&["mon", "tue"]) },
        },
        ConfigEntry {
            name: "games".to_string(),
            category: ConfigCategory::Lottery {
                choices: vec![
                    LotteryChoice { name: "chess".to_string(), tickets: 1, weight: 2 },
                    LotteryChoice { name: "go".to_string(), tickets: 3, weight: 5 },
                ],
            },
        },
    ];

    let choice = engine.pick(&mut config, "games".to_string()).expect("unexpected");

    assert_eq!(choice, "chess");
    assert_eq!(
        config[0],
        ConfigEntry {
            name: "days".to_string(),
            category: ConfigCategory::LRU { choices: names(&["mon", "tue"]) },
        }
    );
    assert_eq!(
        config[1],
        ConfigEntry {
            name: "games".to_string(),
            category: ConfigCategory::Lottery {
                choices: vec![
                    LotteryChoice { name: "chess".to_string(), tickets: 0, weight: 2 },
                    LotteryChoice { name: "go".to_string(), tickets: 8, weight: 5 },
                ],
            },
        }
    );
}

#[test]
fn test_is_category_pickable() {
    assert!(is_category_pickable(&ConfigCategory::Even { choices: names(&["a"]) }));
    assert!(!is_category_pickable(&ConfigCategory::Even { choices: vec![] }));
    assert!(!is_category_pickable(&ConfigCategory::Inventory {
        choices: vec![InventoryChoice { name: "a".to_string(), tickets: 0 }],
    }));
    assert!(is_category_pickable(&ConfigCategory::Inventory {
        choices: vec![InventoryChoice { name: "a".to_string(), tickets: 2 }],
    }));
    // The eligible pool is non-empty, but its weight sum overflows a u64.
    assert!(!is_category_pickable(&ConfigCategory::Inventory {
        choices: vec![
            InventoryChoice { name: "a".to_string(), tickets: u64::MAX },
            InventoryChoice { name: "b".to_string(), tickets: 1 },
        ],
    }));
    // The pool fits, but the winner-side ticket accrual would overflow.
    assert!(!is_category_pickable(&ConfigCategory::Lottery {
        choices: vec![LotteryChoice { name: "a".to_string(), tickets: u64::MAX, weight: 1 }],
    }));
    assert!(is_category_pickable(&ConfigCategory::Lottery {
        choices: vec![LotteryChoice { name: "a".to_string(), tickets: 1, weight: 1 }],
    }));
    assert!(!is_category_pickable(&ConfigCategory::Weighted {
        choices: vec![WeightedChoice { name: "a".to_string(), weight: 0 }],
    }));
    assert!(is_category_pickable(&ConfigCategory::LRU { choices: names(&["a"]) }));
    assert!(!is_category_pickable(&ConfigCategory::Gaussian {
        stddev_scaling_factor_bits: 3.0f64.to_bits(),
        choices: vec![],
    }));
}

#[test]
fn test_scripted_source_records_gaussian_lens() {
    let mut source = ScriptedSource::with_gaussian(vec![5, 1]);
    let first = source.gaussian_index(3, 3.0f64.to_bits());
    let second = source.gaussian_index(2, 3.0f64.to_bits());

    assert_eq!(first, 5);
    assert_eq!(second, 1);
    assert_eq!(source.given_gaussian, vec![5, 1]);
    // The record carries the candidate-list length each draw was taken over.
    assert_eq!(source.given_gaussian_len, vec![3, 2]);
}
