//! The entity and value shapes of the inventory, with their ghost models.
//!
//! Each executable type has a mathematical view (`@`) over `int`,
//! `Seq<char>` and friends; every contract in `store` speaks of those
//! views, never of the executable representation.

use vstd::prelude::*;
use crate::date::Date;
use crate::decimal::Decimal;

verus! {

/// A color row: generated key, defining name, six-digit hex code (no `#`).
#[derive(Debug)]
pub struct Color {
    pub id: i32,
    pub name: String,
    pub hexadecimal: String,
}

impl Clone for Color {
    fn clone(&self) -> (r: Color)
        ensures
            r@ == self@,
    {
        Color {
            id: self.id,
            name: self.name.clone(),
            hexadecimal: self.hexadecimal.clone(),
        }
    }
}

/// Model of a color row.
#[verifier::ext_equal]
pub ghost struct ColorM {
    pub id: int,
    pub name: Seq<char>,
    pub hexadecimal: Seq<char>,
}

impl View for Color {
    type V = ColorM;

    open spec fn view(&self) -> ColorM {
        ColorM { id: self.id as int, name: self.name@, hexadecimal: self.hexadecimal@ }
    }
}

/// One localized text: a locale tag and the text shown for it.
#[derive(Debug)]
pub struct LocalizedText {
    pub locale: String,
    pub value: String,
}

/// Model of a localized text.
#[verifier::ext_equal]
pub ghost struct LocalizedTextM {
    pub locale: Seq<char>,
    pub value: Seq<char>,
}

impl View for LocalizedText {
    type V = LocalizedTextM;

    open spec fn view(&self) -> LocalizedTextM {
        LocalizedTextM { locale: self.locale@, value: self.value@ }
    }
}

/// Input shape for a color created alongside a fruit.
#[derive(Debug)]
pub struct NewColor {
    /// Hexadecimal representation of the color without `#` (six digits).
    pub hexadecimal: String,
    /// Defining name of the color (e.g. Red, Orange, ...).
    pub name: String,
    /// Optional localized display names, one per locale.
    pub localized_names: Option<Vec<LocalizedText>>,
}

/// Model of a new-color payload.
#[verifier::ext_equal]
pub ghost struct NewColorM {
    pub hexadecimal: Seq<char>,
    pub name: Seq<char>,
    pub localized_names: Option<Seq<LocalizedTextM>>,
}

impl View for NewColor {
    type V = NewColorM;

    open spec fn view(&self) -> NewColorM {
        NewColorM {
            hexadecimal: self.hexadecimal@,
            name: self.name@,
            localized_names: match self.localized_names {
                Some(v) => Some(v@.map_values(|lt: LocalizedText| lt@)),
                None => None,
            },
        }
    }
}

/// Input shape for creating a fruit, with exactly one color source.
#[derive(Debug)]
pub struct NewFruit {
    /// Key of an existing color entity (exclusive with `new_color`).
    pub existing_color: Option<i32>,
    /// Payload for a color created with the fruit (exclusive with
    /// `existing_color`).
    pub new_color: Option<NewColor>,
    /// Name of the fruit, not its species.
    pub fruit_name: String,
    /// Scoville range start, or the plain value if no end is given (SHU).
    pub scoville_start: i32,
    /// Optional Scoville range end (SHU), at least the start.
    pub scoville_end: Option<i32>,
    /// Average weight of a single fruit in grams, as a decimal token.
    pub average_weight_in_grams: String,
    /// Optional localized descriptions, one per locale.
    pub fruit_descriptions: Option<Vec<LocalizedText>>,
}

/// Model of a new-fruit request.
#[verifier::ext_equal]
pub ghost struct NewFruitM {
    pub existing_color: Option<int>,
    pub new_color: Option<NewColorM>,
    pub fruit_name: Seq<char>,
    pub scoville_start: int,
    pub scoville_end: Option<int>,
    pub average_weight_in_grams: Seq<char>,
    pub fruit_descriptions: Option<Seq<LocalizedTextM>>,
}

impl View for NewFruit {
    type V = NewFruitM;

    open spec fn view(&self) -> NewFruitM {
        NewFruitM {
            existing_color: match self.existing_color {
                Some(id) => Some(id as int),
                None => None,
            },
            new_color: match self.new_color {
                Some(ref nc) => Some(nc@),
                None => None,
            },
            fruit_name: self.fruit_name@,
            scoville_start: self.scoville_start as int,
            scoville_end: match self.scoville_end {
                Some(e) => Some(e as int),
                None => None,
            },
            average_weight_in_grams: self.average_weight_in_grams@,
            fruit_descriptions: match self.fruit_descriptions {
                Some(ref v) => Some(v@.map_values(|lt: LocalizedText| lt@)),
                None => None,
            },
        }
    }
}

/// Input shape for potting a new plant.
#[derive(Debug)]
pub struct NewPlant {
    /// Date when the plant was potted.
    pub planted: Date,
    /// Which fruit the plant produces.
    pub fruit: i32,
}

/// Model of a new-plant request.
#[verifier::ext_equal]
pub ghost struct NewPlantM {
    pub planted: Date,
    pub fruit: int,
}

impl View for NewPlant {
    type V = NewPlantM;

    open spec fn view(&self) -> NewPlantM {
        NewPlantM { planted: self.planted, fruit: self.fruit as int }
    }
}

/// One harvest line item: a plant and the weight taken from it,
/// as a decimal token in grams.
#[derive(Debug)]
pub struct HarvestLineItem {
    pub plant_id: String,
    pub weight_in_grams: String,
}

/// Model of a harvest line item input.
#[verifier::ext_equal]
pub ghost struct HarvestLineItemM {
    pub plant_id: Seq<char>,
    pub weight_in_grams: Seq<char>,
}

impl View for HarvestLineItem {
    type V = HarvestLineItemM;

    open spec fn view(&self) -> HarvestLineItemM {
        HarvestLineItemM { plant_id: self.plant_id@, weight_in_grams: self.weight_in_grams@ }
    }
}

/// Input shape for recording a harvest weigh-in.
#[derive(Debug)]
pub struct NewHarvest {
    pub date: Date,
    /// One line item per harvested plant.
    pub plants: Vec<HarvestLineItem>,
    pub notes: Option<String>,
}

/// Model of a new-harvest request.
#[verifier::ext_equal]
pub ghost struct NewHarvestM {
    pub date: Date,
    pub plants: Seq<HarvestLineItemM>,
    pub notes: Option<Seq<char>>,
}

impl View for NewHarvest {
    type V = NewHarvestM;

    open spec fn view(&self) -> NewHarvestM {
        NewHarvestM {
            date: self.date,
            plants: self.plants@.map_values(|li: HarvestLineItem| li@),
            notes: match self.notes {
                Some(ref s) => Some(s@),
                None => None,
            },
        }
    }
}

/// Input shape for disposing a plant; the date defaults to today.
#[derive(Debug)]
pub struct DisposePlant {
    pub date_disposed: Option<Date>,
}

/// A plant row: storage-generated key, fruit reference, lifecycle dates,
/// and whether a physical label has been printed for it.
#[derive(Debug)]
pub struct Plant {
    pub id: String,
    pub fruit: i32,
    pub planted: Date,
    pub disposed: Option<Date>,
    pub is_label_printed: bool,
}

impl Clone for Plant {
    fn clone(&self) -> (r: Plant)
        ensures
            r@ == self@,
    {
        Plant {
            id: self.id.clone(),
            fruit: self.fruit,
            planted: self.planted,
            disposed: self.disposed,
            is_label_printed: self.is_label_printed,
        }
    }
}

/// Model of a plant row.
#[verifier::ext_equal]
pub ghost struct PlantM {
    pub id: Seq<char>,
    pub fruit: int,
    pub planted: Date,
    pub disposed: Option<Date>,
    pub is_label_printed: bool,
}

impl View for Plant {
    type V = PlantM;

    open spec fn view(&self) -> PlantM {
        PlantM {
            id: self.id@,
            fruit: self.fruit as int,
            planted: self.planted,
            disposed: self.disposed,
            is_label_printed: self.is_label_printed,
        }
    }
}

/// A fruit as reported by the listing: its row joined with its color and
/// the aggregated produced weight, both weights rounded to two places.
#[derive(Debug)]
pub struct Fruit {
    pub id: i32,
    pub name: String,
    pub total_produced_in_grams: Decimal,
    pub avg_weight_in_grams: Decimal,
    pub color: Color,
}

/// Model of a reported fruit.
#[verifier::ext_equal]
pub ghost struct FruitM {
    pub id: int,
    pub name: Seq<char>,
    pub total_produced_in_grams: int,
    pub avg_weight_in_grams: int,
    pub color: ColorM,
}

impl View for Fruit {
    type V = FruitM;

    open spec fn view(&self) -> FruitM {
        FruitM {
            id: self.id as int,
            name: self.name@,
            total_produced_in_grams: self.total_produced_in_grams.micro as int,
            avg_weight_in_grams: self.avg_weight_in_grams.micro as int,
            color: self.color@,
        }
    }
}

} // verus!
