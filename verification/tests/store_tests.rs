use pepper_plucker::date::Date;
use pepper_plucker::domain::{
    DisposePlant, HarvestLineItem, LocalizedText, NewColor, NewFruit, NewHarvest, NewPlant,
};
use pepper_plucker::error::{InputFault, StorageFault, StoreError};
use pepper_plucker::store::Store;

fn date(year: i32, month: u8, day: u8) -> Date {
    Date::new(year, month, day).expect("test date should be valid")
}

fn new_color(hex: &str, name: &str) -> NewColor {
    NewColor {
        hexadecimal: hex.to_string(),
        name: name.to_string(),
        localized_names: None,
    }
}

fn fruit_with_new_color(name: &str, hex: &str, weight: &str) -> NewFruit {
    NewFruit {
        existing_color: None,
        new_color: Some(new_color(hex, "Red")),
        fruit_name: name.to_string(),
        scoville_start: 1000,
        scoville_end: None,
        average_weight_in_grams: weight.to_string(),
        fruit_descriptions: None,
    }
}

fn fruit_with_existing_color(name: &str, color: i32, weight: &str) -> NewFruit {
    NewFruit {
        existing_color: Some(color),
        new_color: None,
        fruit_name: name.to_string(),
        scoville_start: 1000,
        scoville_end: None,
        average_weight_in_grams: weight.to_string(),
        fruit_descriptions: None,
    }
}

#[test]
fn create_fruit_with_both_color_sources_is_invalid() {
    let mut store = Store::new();
    let mut nf = fruit_with_new_color("Fatalii", "AA0000", "12.5");
    nf.existing_color = Some(1);
    let r = store.insert_fruit(&nf);
    assert_eq!(r, Err(StoreError::InvalidInput(InputFault::ColorChoiceBoth)));
    assert_eq!(store.color_count(), 0);
    assert_eq!(store.fruit_count(), 0);
    assert_eq!(store.text_count(), 0);
}

#[test]
fn create_fruit_with_neither_color_source_is_invalid() {
    let mut store = Store::new();
    let mut nf = fruit_with_new_color("Fatalii", "AA0000", "12.5");
    nf.new_color = None;
    let r = store.insert_fruit(&nf);
    assert_eq!(r, Err(StoreError::InvalidInput(InputFault::ColorChoiceNeither)));
    assert_eq!(store.color_count(), 0);
    assert_eq!(store.fruit_count(), 0);
}

#[test]
fn failed_create_fruit_leaves_no_color_or_locale_rows() {
    let mut store = Store::new();
    // The weight token is rejected only after the color would have been
    // created; atomicity demands that no color or locale-name row survives.
    let mut nf = fruit_with_new_color("Fatalii", "AA0000", "NaN");
    nf.new_color.as_mut().unwrap().localized_names = Some(vec![LocalizedText {
        locale: "de_DE".to_string(),
        value: "Rot".to_string(),
    }]);
    let r = store.insert_fruit(&nf);
    assert_eq!(
        r,
        Err(StoreError::InvalidInput(InputFault::WeightNotRepresentable))
    );
    assert_eq!(store.color_count(), 0);
    assert_eq!(store.text_count(), 0);
    assert_eq!(store.fruit_count(), 0);
}

#[test]
fn create_fruit_rejects_malformed_hexadecimal() {
    let mut store = Store::new();
    let nf = fruit_with_new_color("Fatalii", "GG0000", "12.5");
    let r = store.insert_fruit(&nf);
    assert_eq!(
        r,
        Err(StoreError::InvalidInput(InputFault::HexadecimalMalformed))
    );
    assert_eq!(store.color_count(), 0);

    let mut store2 = Store::new();
    let nf2 = fruit_with_new_color("Fatalii", "AA000", "12.5");
    assert_eq!(
        store2.insert_fruit(&nf2),
        Err(StoreError::InvalidInput(InputFault::HexadecimalMalformed))
    );
}

#[test]
fn create_fruit_rejects_inverted_scoville_range() {
    let mut store = Store::new();
    let mut nf = fruit_with_new_color("Fatalii", "AA0000", "12.5");
    nf.scoville_start = 50_000;
    nf.scoville_end = Some(10_000);
    let r = store.insert_fruit(&nf);
    assert_eq!(
        r,
        Err(StoreError::InvalidInput(InputFault::ScovilleRangeInverted))
    );
    assert_eq!(store.fruit_count(), 0);
}

#[test]
fn create_fruit_rejects_unknown_existing_color() {
    let mut store = Store::new();
    let nf = fruit_with_existing_color("Fatalii", 7, "12.5");
    let r = store.insert_fruit(&nf);
    assert_eq!(
        r,
        Err(StoreError::StorageFailure(StorageFault::UnknownColor))
    );
    assert_eq!(store.fruit_count(), 0);
}

#[test]
fn create_fruit_with_new_color_and_locale_rows() {
    let mut store = Store::new();
    let mut nf = fruit_with_new_color("Fatalii", "AA0000", "12.5");
    nf.new_color.as_mut().unwrap().localized_names = Some(vec![
        LocalizedText {
            locale: "de_DE".to_string(),
            value: "Rot".to_string(),
        },
        LocalizedText {
            locale: "en_US".to_string(),
            value: "Red".to_string(),
        },
    ]);
    nf.fruit_descriptions = Some(vec![LocalizedText {
        locale: "de_DE".to_string(),
        value: "Sehr scharf".to_string(),
    }]);
    let r = store.insert_fruit(&nf);
    assert_eq!(r, Ok(1));
    assert_eq!(store.color_count(), 1);
    assert_eq!(store.fruit_count(), 1);
    assert_eq!(store.text_count(), 3);
}

#[test]
fn insert_plant_rejects_unknown_fruit() {
    let mut store = Store::new();
    let r = store.insert_plant(&NewPlant {
        planted: date(2024, 4, 1),
        fruit: 1,
    });
    assert_eq!(
        r,
        Err(StoreError::StorageFailure(StorageFault::UnknownFruit))
    );
    assert_eq!(store.plant_count(), 0);
}

#[test]
fn insert_plant_generates_serial_codes() {
    let mut store = Store::new();
    store
        .insert_fruit(&fruit_with_new_color("Fatalii", "AA0000", "12.5"))
        .unwrap();
    let p1 = store
        .insert_plant(&NewPlant {
            planted: date(2024, 4, 1),
            fruit: 1,
        })
        .unwrap();
    let p2 = store
        .insert_plant(&NewPlant {
            planted: date(2024, 4, 2),
            fruit: 1,
        })
        .unwrap();
    assert_eq!(p1, "P1");
    assert_eq!(p2, "P2");
    let row = store.get_plant("P1").expect("plant P1 should exist");
    assert_eq!(row.fruit, 1);
    assert_eq!(row.planted, date(2024, 4, 1));
    assert_eq!(row.disposed, None);
    assert!(!row.is_label_printed);
    assert!(store.get_plant("P3").is_none());
}

#[test]
fn dispose_plant_sets_the_date_once() {
    let mut store = Store::new();
    store
        .insert_fruit(&fruit_with_new_color("Fatalii", "AA0000", "12.5"))
        .unwrap();
    store
        .insert_plant(&NewPlant {
            planted: date(2024, 4, 1),
            fruit: 1,
        })
        .unwrap();
    store.dispose_plant("P1", date(2024, 6, 1));
    assert_eq!(store.get_plant("P1").unwrap().disposed, Some(date(2024, 6, 1)));
    // Disposing again, later, is a no-op: the first date stays.
    store.dispose_plant("P1", date(2024, 7, 15));
    assert_eq!(store.get_plant("P1").unwrap().disposed, Some(date(2024, 6, 1)));
    // Disposing a plant that does not exist changes nothing.
    store.dispose_plant("P9", date(2024, 7, 15));
    assert_eq!(store.plant_count(), 1);
}

#[test]
fn dispose_request_defaults_to_the_current_date() {
    let mut store = Store::new();
    store
        .insert_fruit(&fruit_with_new_color("Fatalii", "AA0000", "12.5"))
        .unwrap();
    store
        .insert_plant(&NewPlant {
            planted: date(2024, 4, 1),
            fruit: 1,
        })
        .unwrap();
    let used = store.dispose_plant_request("P1", &DisposePlant { date_disposed: None });
    assert_eq!(store.get_plant("P1").unwrap().disposed, Some(used));

    let mut store2 = Store::new();
    store2
        .insert_fruit(&fruit_with_new_color("Fatalii", "AA0000", "12.5"))
        .unwrap();
    store2
        .insert_plant(&NewPlant {
            planted: date(2024, 4, 1),
            fruit: 1,
        })
        .unwrap();
    let named = store2.dispose_plant_request(
        "P1",
        &DisposePlant {
            date_disposed: Some(date(2024, 5, 5)),
        },
    );
    assert_eq!(named, date(2024, 5, 5));
    assert_eq!(store2.get_plant("P1").unwrap().disposed, Some(date(2024, 5, 5)));
}

fn store_with_two_plants() -> Store {
    let mut store = Store::new();
    store
        .insert_fruit(&fruit_with_new_color("Fatalii", "AA0000", "12.5"))
        .unwrap();
    for day in [1, 2] {
        store
            .insert_plant(&NewPlant {
                planted: date(2024, 4, day),
                fruit: 1,
            })
            .unwrap();
    }
    store
}

fn line(plant: &str, weight: &str) -> HarvestLineItem {
    HarvestLineItem {
        plant_id: plant.to_string(),
        weight_in_grams: weight.to_string(),
    }
}

#[test]
fn insert_harvest_records_every_line_item() {
    let mut store = store_with_two_plants();
    let r = store.insert_harvest(&NewHarvest {
        date: date(2024, 8, 20),
        plants: vec![line("P1", "100.005"), line("P2", "50.00")],
        notes: Some("first pick".to_string()),
    });
    assert_eq!(r, Ok(1));
    assert_eq!(store.harvest_count(), 1);
    assert_eq!(store.line_item_count(), 2);
}

#[test]
fn failed_harvest_leaves_no_rows_at_all() {
    let mut store = store_with_two_plants();
    // The second line item fails conversion: neither the harvest row nor
    // the first, valid line item may survive.
    let r = store.insert_harvest(&NewHarvest {
        date: date(2024, 8, 20),
        plants: vec![line("P1", "100.005"), line("P2", "NaN")],
        notes: None,
    });
    assert_eq!(
        r,
        Err(StoreError::InvalidInput(InputFault::WeightNotRepresentable))
    );
    assert_eq!(store.harvest_count(), 0);
    assert_eq!(store.line_item_count(), 0);
}

#[test]
fn harvest_rejects_unknown_plants() {
    let mut store = store_with_two_plants();
    let r = store.insert_harvest(&NewHarvest {
        date: date(2024, 8, 20),
        plants: vec![line("P1", "10.0"), line("P9", "5.0")],
        notes: None,
    });
    assert_eq!(
        r,
        Err(StoreError::StorageFailure(StorageFault::UnknownPlant))
    );
    assert_eq!(store.harvest_count(), 0);
    assert_eq!(store.line_item_count(), 0);
}

#[test]
fn harvest_rejects_duplicate_plants() {
    let mut store = store_with_two_plants();
    let r = store.insert_harvest(&NewHarvest {
        date: date(2024, 8, 20),
        plants: vec![line("P1", "10.0"), line("P1", "5.0")],
        notes: None,
    });
    assert_eq!(
        r,
        Err(StoreError::StorageFailure(StorageFault::DuplicateLineItem))
    );
    assert_eq!(store.harvest_count(), 0);
    assert_eq!(store.line_item_count(), 0);
}

#[test]
fn totals_aggregate_and_round_half_up() {
    let mut store = store_with_two_plants();
    // A second fruit with no harvests must report an exact zero.
    store
        .insert_fruit(&fruit_with_new_color("Habanero", "FF8800", "8.25"))
        .unwrap();
    store
        .insert_harvest(&NewHarvest {
            date: date(2024, 8, 20),
            plants: vec![line("P1", "100.005"), line("P2", "50.00")],
            notes: None,
        })
        .unwrap();
    let fruits = store.select_fruits();
    assert_eq!(fruits.len(), 2);
    let fatalii = &fruits[0];
    assert_eq!(fatalii.id, 1);
    assert_eq!(fatalii.name, "Fatalii");
    assert_eq!(fatalii.total_produced_in_grams.micro, 150_010_000);
    assert_eq!(fatalii.total_produced_in_grams.to_string_2dp(), "150.01");
    assert_eq!(fatalii.avg_weight_in_grams.micro, 12_500_000);
    assert_eq!(fatalii.color.id, 1);
    assert_eq!(fatalii.color.hexadecimal, "AA0000");
    let habanero = &fruits[1];
    assert_eq!(habanero.id, 2);
    assert_eq!(habanero.total_produced_in_grams.micro, 0);
    assert_eq!(habanero.total_produced_in_grams.to_string_2dp(), "0.00");
}

#[test]
fn fruit_scenario_with_existing_color() {
    let mut store = Store::new();
    // Three fruits with new colors give the color table keys 1, 2, 3.
    store
        .insert_fruit(&fruit_with_new_color("Jalapeno", "00AA00", "20.0"))
        .unwrap();
    store
        .insert_fruit(&fruit_with_new_color("Habanero", "FF8800", "8.25"))
        .unwrap();
    store
        .insert_fruit(&fruit_with_new_color("Rocoto", "CC0044", "15.0"))
        .unwrap();

    let r = store.insert_fruit(&NewFruit {
        existing_color: Some(3),
        new_color: None,
        fruit_name: "Fatalii".to_string(),
        scoville_start: 125_000,
        scoville_end: Some(325_000),
        average_weight_in_grams: "12.5".to_string(),
        fruit_descriptions: None,
    });
    assert_eq!(r, Ok(4));
    assert_eq!(store.color_count(), 3);

    let fruits = store.select_fruits();
    let fatalii = fruits
        .iter()
        .find(|f| f.name == "Fatalii")
        .expect("the created fruit should be listed");
    assert_eq!(fatalii.color.id, 3);
    assert_eq!(fatalii.total_produced_in_grams.to_string_2dp(), "0.00");
    assert_eq!(fatalii.avg_weight_in_grams.micro, 12_500_000);
}

#[test]
fn listing_resolves_localized_color_names() {
    let mut store = Store::new();
    // The first color has a de_DE display name among others; the listing
    // must report it, not the defining name.
    let mut nf = fruit_with_new_color("Fatalii", "AA0000", "12.5");
    nf.new_color.as_mut().unwrap().localized_names = Some(vec![
        LocalizedText {
            locale: "en_US".to_string(),
            value: "Crimson".to_string(),
        },
        LocalizedText {
            locale: "de_DE".to_string(),
            value: "Rot".to_string(),
        },
    ]);
    store.insert_fruit(&nf).unwrap();
    // The second color has no localized names at all.
    store
        .insert_fruit(&fruit_with_new_color("Habanero", "FF8800", "8.25"))
        .unwrap();
    // The third has localized names, but none in the display locale.
    let mut nf3 = fruit_with_new_color("Rocoto", "CC0044", "15.0");
    nf3.new_color.as_mut().unwrap().localized_names = Some(vec![LocalizedText {
        locale: "en_US".to_string(),
        value: "Ruby".to_string(),
    }]);
    store.insert_fruit(&nf3).unwrap();

    let fruits = store.select_fruits();
    assert_eq!(fruits[0].color.name, "Rot");
    assert_eq!(fruits[0].color.hexadecimal, "AA0000");
    assert_eq!(fruits[1].color.name, "Red");
    assert_eq!(fruits[2].color.name, "Red");
}

#[test]
fn earlier_unknown_plant_outranks_a_bad_weight() {
    let mut store = store_with_two_plants();
    // The bad weight sits behind an unknown plant, so the storage fault
    // comes first; the store still stays untouched.
    let r = store.insert_harvest(&NewHarvest {
        date: date(2024, 8, 20),
        plants: vec![line("P9", "1.0"), line("P1", "NaN")],
        notes: None,
    });
    assert_eq!(
        r,
        Err(StoreError::StorageFailure(StorageFault::UnknownPlant))
    );
    assert_eq!(store.harvest_count(), 0);
    assert_eq!(store.line_item_count(), 0);
}

#[test]
fn print_labels_hands_out_pending_plants_once() {
    let mut store = store_with_two_plants();
    let first = store.print_plant_labels();
    assert_eq!(first, vec!["P1".to_string(), "P2".to_string()]);
    // Every label is now printed: nothing is pending any more.
    let second = store.print_plant_labels();
    assert!(second.is_empty());
    // A later plant is pending again.
    store
        .insert_plant(&NewPlant {
            planted: date(2024, 5, 1),
            fruit: 1,
        })
        .unwrap();
    let third = store.print_plant_labels();
    assert_eq!(third, vec!["P3".to_string()]);
    assert!(store.get_plant("P1").unwrap().is_label_printed);
}
