//! The relational store of the inventory, and the operations on it.
//!
//! `Store` holds the authoritative tables: colors, localized texts,
//! fruits, plants, harvests and harvest line items.  Generated integer
//! keys are serial — the row at index `i` carries key `i + 1` — and plant
//! keys are human-readable codes derived from the same serial.  Every
//! write operation is atomic: it either performs its whole effect, as the
//! matching `*_next` spec function states, or returns an error and leaves
//! the store exactly as it was.

use vstd::prelude::*;
use vstd::string::*;
use crate::date::Date;
use crate::decimal::{Decimal, digits_spec, spec_parse_decimal, spec_round2, is_digit_char,
    MAX_MICRO};
use crate::domain::{Color, ColorM, LocalizedText, LocalizedTextM, NewFruit,
    NewFruitM, NewPlant, NewPlantM, NewHarvest, NewHarvestM, HarvestLineItem,
    HarvestLineItemM, DisposePlant, Plant, PlantM, Fruit, FruitM};
use crate::error::{InputFault, StorageFault, StoreError};

verus! {

/// Which entity a localized text row belongs to.
#[derive(Clone, Copy, Debug, PartialEq, Eq, Structural)]
pub enum TextLabel {
    /// A localized display name of a color.
    FruitColor,
    /// A localized description of a fruit.
    FruitDescription,
}

/// A localized text row of the single polymorphic text table, keyed by
/// locale, label kind and referenced entity key.
struct TextRow {
    locale: String,
    label: TextLabel,
    reference_id: i32,
    value: String,
}

/// Model of a localized text row.
#[verifier::ext_equal]
pub ghost struct TextRowM {
    pub locale: Seq<char>,
    pub label: TextLabel,
    pub reference_id: int,
    pub value: Seq<char>,
}

impl View for TextRow {
    type V = TextRowM;

    closed spec fn view(&self) -> TextRowM {
        TextRowM {
            locale: self.locale@,
            label: self.label,
            reference_id: self.reference_id as int,
            value: self.value@,
        }
    }
}

/// A fruit row: generated key, name, color reference, Scoville range and
/// average weight.
struct FruitRow {
    id: i32,
    name: String,
    color: i32,
    scoville_start: i32,
    scoville_end: Option<i32>,
    avg_weight: Decimal,
}

/// Model of a fruit row.
#[verifier::ext_equal]
pub ghost struct FruitRowM {
    pub id: int,
    pub name: Seq<char>,
    pub color: int,
    pub scoville_start: int,
    pub scoville_end: Option<int>,
    pub avg_weight: int,
}

impl View for FruitRow {
    type V = FruitRowM;

    closed spec fn view(&self) -> FruitRowM {
        FruitRowM {
            id: self.id as int,
            name: self.name@,
            color: self.color as int,
            scoville_start: self.scoville_start as int,
            scoville_end: match self.scoville_end {
                Some(e) => Some(e as int),
                None => None,
            },
            avg_weight: self.avg_weight.micro as int,
        }
    }
}

/// A harvest row: generated key, date and optional notes.
struct HarvestRow {
    id: i32,
    date: Date,
    notes: Option<String>,
}

/// Model of a harvest row.
#[verifier::ext_equal]
pub ghost struct HarvestM {
    pub id: int,
    pub date: Date,
    pub notes: Option<Seq<char>>,
}

impl View for HarvestRow {
    type V = HarvestM;

    closed spec fn view(&self) -> HarvestM {
        HarvestM {
            id: self.id as int,
            date: self.date,
            notes: match self.notes {
                Some(ref s) => Some(s@),
                None => None,
            },
        }
    }
}

/// A harvest line item row: harvest key, plant key and weight in grams.
struct LineItemRow {
    harvest: i32,
    plant: String,
    weight: Decimal,
}

/// Model of a line item row.
#[verifier::ext_equal]
pub ghost struct LineItemM {
    pub harvest: int,
    pub plant: Seq<char>,
    pub weight: int,
}

impl View for LineItemRow {
    type V = LineItemM;

    closed spec fn view(&self) -> LineItemM {
        LineItemM {
            harvest: self.harvest as int,
            plant: self.plant@,
            weight: self.weight.micro as int,
        }
    }
}

/// Model of the whole store: one sequence per table.
#[verifier::ext_equal]
pub ghost struct StoreM {
    pub colors: Seq<ColorM>,
    pub texts: Seq<TextRowM>,
    pub fruits: Seq<FruitRowM>,
    pub plants: Seq<PlantM>,
    pub harvests: Seq<HarvestM>,
    pub line_items: Seq<LineItemM>,
}

/// The generated key of the plant at serial `n`: `P` followed by `n`.
pub open spec fn plant_code(n: nat) -> Seq<char> {
    seq!['P'] + digits_spec(n)
}

/// Index of the first plant carrying `id`, if any.
pub open spec fn find_plant(plants: Seq<PlantM>, id: Seq<char>) -> Option<int>
    decreases plants.len(),
{
    if plants.len() == 0 {
        None
    } else if plants.first().id == id {
        Some(0)
    } else {
        match find_plant(plants.drop_first(), id) {
            Some(j) => Some(j + 1),
            None => None,
        }
    }
}

/// What `find_plant` finds: the first match, or a guarantee of no match.
pub proof fn lemma_find_plant(plants: Seq<PlantM>, id: Seq<char>)
    ensures
        match find_plant(plants, id) {
            Some(i) => 0 <= i < plants.len() && plants[i].id == id
                && forall|k: int| 0 <= k < i ==> (#[trigger] plants[k]).id != id,
            None => forall|k: int| 0 <= k < plants.len() ==> (#[trigger] plants[k]).id != id,
        },
    decreases plants.len(),
{
    if plants.len() > 0 && plants.first().id != id {
        lemma_find_plant(plants.drop_first(), id);
        assert(forall|k: int| 1 <= k < plants.len()
            ==> (#[trigger] plants[k]) == plants.drop_first()[k - 1]);
    }
}

/// A plant found in a table is still found, at the same place, after a
/// row is appended.
pub proof fn lemma_find_plant_push(plants: Seq<PlantM>, x: PlantM, id: Seq<char>)
    requires
        find_plant(plants, id) is Some,
    ensures
        find_plant(plants.push(x), id) == find_plant(plants, id),
    decreases plants.len(),
{
    if plants.len() == 0 {
    } else {
        assert(plants.push(x).first() == plants.first());
        if plants.first().id != id {
            lemma_find_plant_push(plants.drop_first(), x, id);
            assert(plants.push(x).drop_first() =~= plants.drop_first().push(x));
        }
    }
}

/// Two plant tables with the same keys at the same places are searched
/// alike, whatever their other columns hold.
pub proof fn lemma_find_plant_same_ids(p1: Seq<PlantM>, p2: Seq<PlantM>, id: Seq<char>)
    requires
        p1.len() == p2.len(),
        forall|k: int| 0 <= k < p1.len() ==> (#[trigger] p1[k]).id == p2[k].id,
    ensures
        find_plant(p1, id) == find_plant(p2, id),
    decreases p1.len(),
{
    if p1.len() > 0 {
        assert(p1.first().id == p2.first().id);
        assert(forall|k: int| 0 <= k < p1.len() - 1
            ==> (#[trigger] p1.drop_first()[k]).id == p2.drop_first()[k].id);
        lemma_find_plant_same_ids(p1.drop_first(), p2.drop_first(), id);
    }
}

/// The display locale of this deployment: localized names are resolved
/// for German readers when the listing joins the texts table.
pub open spec fn display_locale() -> Seq<char> {
    "de_DE"@
}

/// The text row is a display-locale name of the color with key `cid`.
pub open spec fn text_matches_color(t: TextRowM, cid: int) -> bool {
    t.label == TextLabel::FruitColor && t.reference_id == cid && t.locale == display_locale()
}

/// Index of the first display-locale name row of the color with key
/// `cid`, if any.
pub open spec fn find_color_text(texts: Seq<TextRowM>, cid: int) -> Option<int>
    decreases texts.len(),
{
    if texts.len() == 0 {
        None
    } else if text_matches_color(texts.first(), cid) {
        Some(0)
    } else {
        match find_color_text(texts.drop_first(), cid) {
            Some(j) => Some(j + 1),
            None => None,
        }
    }
}

/// What `find_color_text` finds: the first matching text row, or a
/// guarantee that none matches.
pub proof fn lemma_find_color_text(texts: Seq<TextRowM>, cid: int)
    ensures
        match find_color_text(texts, cid) {
            Some(i) => 0 <= i < texts.len() && text_matches_color(texts[i], cid)
                && forall|k: int| 0 <= k < i ==> !text_matches_color(#[trigger] texts[k], cid),
            None => forall|k: int| 0 <= k < texts.len()
                ==> !text_matches_color(#[trigger] texts[k], cid),
        },
    decreases texts.len(),
{
    if texts.len() > 0 && !text_matches_color(texts.first(), cid) {
        lemma_find_color_text(texts.drop_first(), cid);
        assert(forall|k: int| 1 <= k < texts.len()
            ==> (#[trigger] texts[k]) == texts.drop_first()[k - 1]);
    }
}

/// The color name the listing reports for the color with key `cid`: its
/// display-locale localized name where one exists, else the color's own
/// defining name.
pub open spec fn listed_color_name(s: StoreM, cid: int) -> Seq<char> {
    match find_color_text(s.texts, cid) {
        Some(t) => s.texts[t].value,
        None => s.colors[cid - 1].name,
    }
}

impl StoreM {
    /// The store with every table empty.
    pub open spec fn empty() -> StoreM {
        StoreM {
            colors: Seq::empty(),
            texts: Seq::empty(),
            fruits: Seq::empty(),
            plants: Seq::empty(),
            harvests: Seq::empty(),
            line_items: Seq::empty(),
        }
    }

    /// Well-formedness: serial keys, referential integrity, valid dates,
    /// in-range weights, and room left in every generated key column.
    pub open spec fn wf(self) -> bool {
        &&& forall|i: int| 0 <= i < self.colors.len()
            ==> (#[trigger] self.colors[i]).id == i + 1
        &&& forall|i: int| 0 <= i < self.fruits.len()
            ==> (#[trigger] self.fruits[i]).id == i + 1
        &&& forall|i: int| 0 <= i < self.harvests.len()
            ==> (#[trigger] self.harvests[i]).id == i + 1
        &&& forall|i: int| 0 <= i < self.plants.len()
            ==> (#[trigger] self.plants[i]).id == plant_code((i + 1) as nat)
        &&& self.colors.len() < i32::MAX as int
        &&& self.fruits.len() < i32::MAX as int
        &&& self.harvests.len() < i32::MAX as int
        &&& forall|i: int| 0 <= i < self.fruits.len()
            ==> 1 <= (#[trigger] self.fruits[i]).color <= self.colors.len()
        &&& forall|i: int| 0 <= i < self.fruits.len()
            ==> ((#[trigger] self.fruits[i]).scoville_end matches Some(e)
                ==> self.fruits[i].scoville_start <= e)
        &&& forall|i: int| 0 <= i < self.fruits.len()
            ==> -(MAX_MICRO as int) <= (#[trigger] self.fruits[i]).avg_weight
                <= MAX_MICRO as int
        &&& forall|i: int| 0 <= i < self.plants.len()
            ==> 1 <= (#[trigger] self.plants[i]).fruit <= self.fruits.len()
        &&& forall|i: int| 0 <= i < self.plants.len()
            ==> (#[trigger] self.plants[i]).planted.valid()
        &&& forall|i: int| 0 <= i < self.plants.len()
            ==> ((#[trigger] self.plants[i]).disposed matches Some(d) ==> d.valid())
        &&& forall|i: int| 0 <= i < self.harvests.len()
            ==> (#[trigger] self.harvests[i]).date.valid()
        &&& forall|i: int| 0 <= i < self.line_items.len()
            ==> 1 <= (#[trigger] self.line_items[i]).harvest <= self.harvests.len()
        &&& forall|i: int| 0 <= i < self.line_items.len()
            ==> find_plant(self.plants, (#[trigger] self.line_items[i]).plant) is Some
        &&& forall|i: int| 0 <= i < self.line_items.len()
            ==> -(MAX_MICRO as int) <= (#[trigger] self.line_items[i]).weight
                <= MAX_MICRO as int
        &&& forall|i: int| 0 <= i < self.texts.len()
            ==> 1 <= (#[trigger] self.texts[i]).reference_id
                <= (match self.texts[i].label {
                    TextLabel::FruitColor => self.colors.len() as int,
                    TextLabel::FruitDescription => self.fruits.len() as int,
                })
        &&& forall|i: int| 0 <= i < self.colors.len()
            ==> hex_ok((#[trigger] self.colors[i]).hexadecimal)
    }
}

/// A hexadecimal digit character.
pub open spec fn is_hex_digit(c: char) -> bool {
    is_digit_char(c) || ('a' <= c && c <= 'f') || ('A' <= c && c <= 'F')
}

/// A valid color code: exactly six hexadecimal digits, no `#`.
pub open spec fn hex_ok(s: Seq<char>) -> bool {
    s.len() == 6 && forall|i: int| 0 <= i < s.len() ==> is_hex_digit(#[trigger] s[i])
}

/// Localized text rows for one entity: one row per (locale, value) pair.
pub open spec fn text_rows(l: Seq<LocalizedTextM>, label: TextLabel, rid: int) -> Seq<TextRowM> {
    l.map_values(|lt: LocalizedTextM| TextRowM {
        locale: lt.locale,
        label: label,
        reference_id: rid,
        value: lt.value,
    })
}

/// As `text_rows`, for an optional list: no list, no rows.
pub open spec fn opt_text_rows(l: Option<Seq<LocalizedTextM>>, label: TextLabel, rid: int)
    -> Seq<TextRowM> {
    match l {
        Some(v) => text_rows(v, label, rid),
        None => Seq::empty(),
    }
}

/// Outcome of creating a fruit, checked fail-fast in this order: exactly
/// one color source; a well-formed color code; an ordered Scoville range;
/// a representable weight; an existing color reference that resolves; and
/// room in the generated key columns.  The successful result is the new
/// fruit's key.
pub open spec fn insert_fruit_result(s: StoreM, nf: NewFruitM) -> Result<int, StoreError> {
    if nf.existing_color is Some && nf.new_color is Some {
        Err(StoreError::InvalidInput(InputFault::ColorChoiceBoth))
    } else if nf.existing_color is None && nf.new_color is None {
        Err(StoreError::InvalidInput(InputFault::ColorChoiceNeither))
    } else if nf.new_color matches Some(nc) && !hex_ok(nc.hexadecimal) {
        Err(StoreError::InvalidInput(InputFault::HexadecimalMalformed))
    } else if nf.scoville_end matches Some(e) && e < nf.scoville_start {
        Err(StoreError::InvalidInput(InputFault::ScovilleRangeInverted))
    } else if spec_parse_decimal(nf.average_weight_in_grams) is None {
        Err(StoreError::InvalidInput(InputFault::WeightNotRepresentable))
    } else if nf.existing_color matches Some(cid) && !(1 <= cid <= s.colors.len()) {
        Err(StoreError::StorageFailure(StorageFault::UnknownColor))
    } else if s.fruits.len() >= i32::MAX as int - 1
        || (nf.new_color is Some && s.colors.len() >= i32::MAX as int - 1) {
        Err(StoreError::StorageFailure(StorageFault::IdSpaceExhausted))
    } else {
        Ok(s.fruits.len() as int + 1)
    }
}

/// The color key the new fruit will reference: the freshly created color,
/// or the existing one named by the request.
pub open spec fn fruit_color_id(s: StoreM, nf: NewFruitM) -> int {
    match nf.new_color {
        Some(_) => s.colors.len() as int + 1,
        None => match nf.existing_color {
            Some(cid) => cid,
            None => 0,
        },
    }
}

/// The store after a successful fruit creation: the color row and its
/// localized names where a new color was given, then the fruit row and
/// its localized descriptions — all appended, nothing else touched.
pub open spec fn insert_fruit_next(s: StoreM, nf: NewFruitM) -> StoreM {
    let cid = fruit_color_id(s, nf);
    let fid = s.fruits.len() as int + 1;
    let w = match spec_parse_decimal(nf.average_weight_in_grams) {
        Some(m) => m,
        None => 0,
    };
    let colors2 = match nf.new_color {
        Some(nc) => s.colors.push(ColorM { id: cid, name: nc.name, hexadecimal: nc.hexadecimal }),
        None => s.colors,
    };
    let color_texts = match nf.new_color {
        Some(nc) => opt_text_rows(nc.localized_names, TextLabel::FruitColor, cid),
        None => Seq::empty(),
    };
    StoreM {
        colors: colors2,
        texts: s.texts + color_texts
            + opt_text_rows(nf.fruit_descriptions, TextLabel::FruitDescription, fid),
        fruits: s.fruits.push(FruitRowM {
            id: fid,
            name: nf.fruit_name,
            color: cid,
            scoville_start: nf.scoville_start,
            scoville_end: nf.scoville_end,
            avg_weight: w,
        }),
        ..s
    }
}

/// Outcome of potting a plant: the generated plant code, unless the
/// referenced fruit is missing.
pub open spec fn insert_plant_result(s: StoreM, np: NewPlantM) -> Result<Seq<char>, StoreError> {
    if !(1 <= np.fruit <= s.fruits.len()) {
        Err(StoreError::StorageFailure(StorageFault::UnknownFruit))
    } else {
        Ok(plant_code((s.plants.len() + 1) as nat))
    }
}

/// The store after a successful plant insert: one appended plant row,
/// not yet disposed, label not yet printed.
pub open spec fn insert_plant_next(s: StoreM, np: NewPlantM) -> StoreM {
    StoreM {
        plants: s.plants.push(PlantM {
            id: plant_code((s.plants.len() + 1) as nat),
            fruit: np.fruit,
            planted: np.planted,
            disposed: None,
            is_label_printed: false,
        }),
        ..s
    }
}

/// Value of a line item's weight token; meaningful only when it parses.
pub open spec fn li_weight(li: HarvestLineItemM) -> int {
    match spec_parse_decimal(li.weight_in_grams) {
        Some(m) => m,
        None => 0,
    }
}

/// What is wrong with the `i`-th line item, if anything: an unconvertible
/// weight token, a plant the store does not know, or a plant already
/// named by an earlier item of the same harvest.
pub open spec fn line_fault(s: StoreM, items: Seq<HarvestLineItemM>, i: int)
    -> Option<StoreError> {
    if spec_parse_decimal(items[i].weight_in_grams) is None {
        Some(StoreError::InvalidInput(InputFault::WeightNotRepresentable))
    } else if find_plant(s.plants, items[i].plant_id) is None {
        Some(StoreError::StorageFailure(StorageFault::UnknownPlant))
    } else if exists|j: int| 0 <= j < i && (#[trigger] items[j]).plant_id == items[i].plant_id {
        Some(StoreError::StorageFailure(StorageFault::DuplicateLineItem))
    } else {
        None
    }
}

/// The first faulty line item's fault, scanning from position `i` on.
pub open spec fn first_line_fault_from(s: StoreM, items: Seq<HarvestLineItemM>, i: int)
    -> Option<StoreError>
    decreases items.len() - i,
{
    if i < 0 || i >= items.len() {
        None
    } else {
        match line_fault(s, items, i) {
            Some(e) => Some(e),
            None => first_line_fault_from(s, items, i + 1),
        }
    }
}

/// Scanning can start after any fault-free prefix.
pub proof fn lemma_first_line_fault_prefix(s: StoreM, items: Seq<HarvestLineItemM>, j: int)
    requires
        0 <= j <= items.len(),
        forall|k: int| 0 <= k < j ==> line_fault(s, items, k) is None,
    ensures
        first_line_fault_from(s, items, 0) == first_line_fault_from(s, items, j),
    decreases j,
{
    if j > 0 {
        lemma_first_line_fault_prefix(s, items, j - 1);
        assert(line_fault(s, items, j - 1) is None);
    }
}

/// Scanning well-aimed line items — every plant known, none named twice —
/// stops at the first unconvertible weight token.
proof fn lemma_scan_finds_bad_weight(s: StoreM, items: Seq<HarvestLineItemM>, i: int)
    requires
        0 <= i <= items.len(),
        exists|k: int| i <= k < items.len()
            && spec_parse_decimal((#[trigger] items[k]).weight_in_grams) is None,
        forall|k: int| 0 <= k < items.len()
            ==> find_plant(s.plants, (#[trigger] items[k]).plant_id) is Some,
        forall|k: int, j: int| 0 <= k < j < items.len()
            ==> items[k].plant_id != items[j].plant_id,
    ensures
        first_line_fault_from(s, items, i)
            == Some(StoreError::InvalidInput(InputFault::WeightNotRepresentable)),
    decreases items.len() - i,
{
    assert(i < items.len());
    if spec_parse_decimal(items[i].weight_in_grams) is None {
        assert(line_fault(s, items, i)
            == Some(StoreError::InvalidInput(InputFault::WeightNotRepresentable)));
    } else {
        assert(line_fault(s, items, i) is None) by {
            assert(forall|j: int| 0 <= j < i ==> items[j].plant_id != items[i].plant_id);
        }
        let k = choose|k: int| i <= k < items.len()
            && spec_parse_decimal((#[trigger] items[k]).weight_in_grams) is None;
        assert(k != i);
        lemma_scan_finds_bad_weight(s, items, i + 1);
    }
}

/// A harvest whose line items all name existing, pairwise-distinct plants
/// but carry an unconvertible weight token somewhere fails exactly as
/// invalid input — and so, by `insert_harvest`'s contract, writes
/// nothing.  The plant conditions matter: an unknown or duplicated plant
/// at an earlier item would claim precedence with a storage fault.
pub proof fn lemma_harvest_bad_weight_rejected(s: StoreM, nh: NewHarvestM)
    requires
        s.harvests.len() < i32::MAX as int - 1,
        exists|k: int| 0 <= k < nh.plants.len()
            && spec_parse_decimal((#[trigger] nh.plants[k]).weight_in_grams) is None,
        forall|k: int| 0 <= k < nh.plants.len()
            ==> find_plant(s.plants, (#[trigger] nh.plants[k]).plant_id) is Some,
        forall|k: int, j: int| 0 <= k < j < nh.plants.len()
            ==> nh.plants[k].plant_id != nh.plants[j].plant_id,
    ensures
        insert_harvest_result(s, nh) == Err::<int, StoreError>(
            StoreError::InvalidInput(InputFault::WeightNotRepresentable)),
{
    lemma_scan_finds_bad_weight(s, nh.plants, 0);
}

/// Outcome of recording a harvest: the new harvest key, unless a line
/// item is faulty or the key column is exhausted.
pub open spec fn insert_harvest_result(s: StoreM, nh: NewHarvestM) -> Result<int, StoreError> {
    if s.harvests.len() >= i32::MAX as int - 1 {
        Err(StoreError::StorageFailure(StorageFault::IdSpaceExhausted))
    } else {
        match first_line_fault_from(s, nh.plants, 0) {
            Some(e) => Err(e),
            None => Ok(s.harvests.len() as int + 1),
        }
    }
}

/// The store after a successful harvest: one harvest row, and one line
/// item per request entry, in request order, each with its converted
/// weight.
pub open spec fn insert_harvest_next(s: StoreM, nh: NewHarvestM) -> StoreM {
    let hid = s.harvests.len() as int + 1;
    StoreM {
        harvests: s.harvests.push(HarvestM { id: hid, date: nh.date, notes: nh.notes }),
        line_items: s.line_items + nh.plants.map_values(|li: HarvestLineItemM| LineItemM {
            harvest: hid,
            plant: li.plant_id,
            weight: li_weight(li),
        }),
        ..s
    }
}

/// The store after a disposal: if the plant exists and is not yet
/// disposed, its disposed date is set; otherwise nothing changes.
pub open spec fn dispose_plant_next(s: StoreM, id: Seq<char>, date: Date) -> StoreM {
    match find_plant(s.plants, id) {
        Some(i) => if s.plants[i].disposed is None {
            StoreM {
                plants: s.plants.update(i, PlantM { disposed: Some(date), ..s.plants[i] }),
                ..s
            }
        } else {
            s
        },
        None => s,
    }
}

/// Disposal is idempotent: once a plant is disposed, disposing it again —
/// on any later date — changes nothing, and in particular keeps the first
/// disposal date.
pub proof fn lemma_dispose_plant_idempotent(s: StoreM, id: Seq<char>, d1: Date, d2: Date)
    ensures
        dispose_plant_next(dispose_plant_next(s, id, d1), id, d2) == dispose_plant_next(s, id, d1),
{
    lemma_find_plant(s.plants, id);
    match find_plant(s.plants, id) {
        Some(i) => {
            if s.plants[i].disposed is None {
                let s2 = dispose_plant_next(s, id, d1);
                assert(forall|k: int| 0 <= k < s2.plants.len()
                    ==> (#[trigger] s2.plants[k]).id == s.plants[k].id);
                lemma_find_plant_same_ids(s2.plants, s.plants, id);
                assert(find_plant(s2.plants, id) == Some(i));
                assert(s2.plants[i].disposed is Some);
            }
        },
        None => {},
    }
}

/// What a line item contributes to a fruit's total: its weight when its
/// plant belongs to that fruit, nothing otherwise.
pub open spec fn line_contribution(li: LineItemM, plants: Seq<PlantM>, fid: int) -> int {
    match find_plant(plants, li.plant) {
        Some(j) => if plants[j].fruit == fid { li.weight } else { 0 },
        None => 0,
    }
}

/// Total weight, in micro-units, harvested across all plants of the fruit
/// with key `fid`: the sum of every line item's contribution.
pub open spec fn total_for(lines: Seq<LineItemM>, plants: Seq<PlantM>, fid: int) -> int
    decreases lines.len(),
{
    if lines.len() == 0 {
        0
    } else {
        total_for(lines.drop_last(), plants, fid) + line_contribution(lines.last(), plants, fid)
    }
}

/// One more line item adds exactly its contribution.
pub proof fn lemma_total_for_take_step(lines: Seq<LineItemM>, plants: Seq<PlantM>, fid: int, j: int)
    requires
        0 <= j < lines.len(),
    ensures
        total_for(lines.take(j + 1), plants, fid)
            == total_for(lines.take(j), plants, fid) + line_contribution(lines[j], plants, fid),
{
    assert(lines.take(j + 1).drop_last() =~= lines.take(j));
    assert(lines.take(j + 1).last() == lines[j]);
}

/// What the fruit listing reports for the fruit at table index `i`: its
/// row joined with its color — carrying the display-locale localized
/// color name where one exists, the defining name otherwise — with the
/// average weight and the aggregated total both rounded half-up to two
/// decimal places; a fruit with no harvests reports an exact zero.
pub open spec fn fruit_listing(s: StoreM, i: int) -> FruitM {
    let fr = s.fruits[i];
    let c = s.colors[fr.color - 1];
    FruitM {
        id: fr.id,
        name: fr.name,
        total_produced_in_grams: spec_round2(total_for(s.line_items, s.plants, fr.id)),
        avg_weight_in_grams: spec_round2(fr.avg_weight),
        color: ColorM {
            id: c.id,
            name: listed_color_name(s, fr.color),
            hexadecimal: c.hexadecimal,
        },
    }
}

/// The plant keys whose labels have not been printed, in table order.
pub open spec fn unprinted_ids(plants: Seq<PlantM>) -> Seq<Seq<char>>
    decreases plants.len(),
{
    if plants.len() == 0 {
        Seq::empty()
    } else {
        unprinted_ids(plants.drop_last()) + (if !plants.last().is_label_printed {
            seq![plants.last().id]
        } else {
            Seq::empty()
        })
    }
}

/// One more plant appends its key exactly when its label is unprinted.
pub proof fn lemma_unprinted_take_step(plants: Seq<PlantM>, j: int)
    requires
        0 <= j < plants.len(),
    ensures
        unprinted_ids(plants.take(j + 1)) == unprinted_ids(plants.take(j))
            + (if !plants[j].is_label_printed {
                seq![plants[j].id]
            } else {
                Seq::<Seq<char>>::empty()
            }),
{
    assert(plants.take(j + 1).drop_last() =~= plants.take(j));
    assert(plants.take(j + 1).last() == plants[j]);
}

/// Every plant with its label marked printed, nothing else changed.
pub open spec fn mark_all_printed(plants: Seq<PlantM>) -> Seq<PlantM> {
    plants.map_values(|p: PlantM| PlantM { is_label_printed: true, ..p })
}

/// The relational store, with one table per entity.
pub struct Store {
    colors: Vec<Color>,
    texts: Vec<TextRow>,
    fruits: Vec<FruitRow>,
    plants: Vec<Plant>,
    harvests: Vec<HarvestRow>,
    line_items: Vec<LineItemRow>,
}

impl View for Store {
    type V = StoreM;

    closed spec fn view(&self) -> StoreM {
        StoreM {
            colors: self.colors@.map_values(|r: Color| r@),
            texts: self.texts@.map_values(|r: TextRow| r@),
            fruits: self.fruits@.map_values(|r: FruitRow| r@),
            plants: self.plants@.map_values(|r: Plant| r@),
            harvests: self.harvests@.map_values(|r: HarvestRow| r@),
            line_items: self.line_items@.map_values(|r: LineItemRow| r@),
        }
    }
}

/// Runtime check that a color code is six hexadecimal digits.
fn hex_ok_exec(s: &str) -> (b: bool)
    ensures
        b == hex_ok(s@),
{
    let n = s.unicode_len();
    if n != 6 {
        return false;
    }
    let mut i: usize = 0;
    while i < n
        invariant
            n == s@.len(),
            n == 6,
            0 <= i <= n,
            forall|k: int| 0 <= k < i ==> is_hex_digit(#[trigger] s@[k]),
        decreases n - i,
    {
        let c = s.get_char(i);
        let digit = c >= '0' && c <= '9';
        let lower = c >= 'a' && c <= 'f';
        let upper = c >= 'A' && c <= 'F';
        if !(digit || lower || upper) {
            return false;
        }
        i = i + 1;
    }
    true
}

/// Character-for-character string comparison, in terms of the views.
fn str_eq(a: &str, b: &str) -> (r: bool)
    ensures
        r == (a@ == b@),
{
    let n = a.unicode_len();
    let m = b.unicode_len();
    if n != m {
        return false;
    }
    let mut i: usize = 0;
    while i < n
        invariant
            n == a@.len(),
            n == b@.len(),
            0 <= i <= n,
            forall|k: int| 0 <= k < i ==> a@[k] == b@[k],
        decreases n - i,
    {
        if a.get_char(i) != b.get_char(i) {
            return false;
        }
        i = i + 1;
    }
    proof {
        assert(a@ =~= b@);
    }
    true
}

impl Store {
    /// A store with every table empty.
    pub fn new() -> (s: Store)
        ensures
            s@ == StoreM::empty(),
            s@.wf(),
    {
        let s = Store {
            colors: Vec::new(),
            texts: Vec::new(),
            fruits: Vec::new(),
            plants: Vec::new(),
            harvests: Vec::new(),
            line_items: Vec::new(),
        };
        proof {
            assert(s@ =~= StoreM::empty());
        }
        s
    }

    /// Number of color rows.
    pub fn color_count(&self) -> (n: usize)
        ensures
            n == self@.colors.len(),
    {
        self.colors.len()
    }

    /// Number of localized text rows.
    pub fn text_count(&self) -> (n: usize)
        ensures
            n == self@.texts.len(),
    {
        self.texts.len()
    }

    /// Number of fruit rows.
    pub fn fruit_count(&self) -> (n: usize)
        ensures
            n == self@.fruits.len(),
    {
        self.fruits.len()
    }

    /// Number of plant rows.
    pub fn plant_count(&self) -> (n: usize)
        ensures
            n == self@.plants.len(),
    {
        self.plants.len()
    }

    /// Number of harvest rows.
    pub fn harvest_count(&self) -> (n: usize)
        ensures
            n == self@.harvests.len(),
    {
        self.harvests.len()
    }

    /// Number of harvest line item rows.
    pub fn line_item_count(&self) -> (n: usize)
        ensures
            n == self@.line_items.len(),
    {
        self.line_items.len()
    }

    /// Index of the plant carrying `id`, if any.
    fn find_plant_index(&self, id: &str) -> (r: Option<usize>)
        ensures
            match r {
                Some(u) => find_plant(self@.plants, id@) == Some(u as int),
                None => find_plant(self@.plants, id@) is None,
            },
    {
        let ghost pm = self@.plants;
        let n = self.plants.len();
        let mut i: usize = 0;
        while i < n
            invariant
                n == self.plants.len(),
                pm == self@.plants,
                pm.len() == n,
                0 <= i <= n,
                forall|k: int| 0 <= k < i ==> (#[trigger] pm[k]).id != id@,
            decreases n - i,
        {
            if str_eq(self.plants[i].id.as_str(), id) {
                proof {
                    lemma_find_plant(pm, id@);
                    assert(pm[i as int].id == id@);
                }
                return Some(i);
            }
            i = i + 1;
        }
        proof {
            lemma_find_plant(pm, id@);
        }
        None
    }

    /// Index of the first display-locale name row for color `cid`, if any.
    fn find_color_text_index(&self, cid: i32) -> (r: Option<usize>)
        ensures
            match r {
                Some(u) => find_color_text(self@.texts, cid as int) == Some(u as int),
                None => find_color_text(self@.texts, cid as int) is None,
            },
    {
        let ghost tm = self@.texts;
        let n = self.texts.len();
        let mut i: usize = 0;
        while i < n
            invariant
                n == self.texts.len(),
                tm == self@.texts,
                tm.len() == n,
                0 <= i <= n,
                forall|k: int| 0 <= k < i ==> !text_matches_color(#[trigger] tm[k], cid as int),
            decreases n - i,
        {
            let row = &self.texts[i];
            let is_color_label = match row.label {
                TextLabel::FruitColor => true,
                TextLabel::FruitDescription => false,
            };
            if is_color_label && row.reference_id == cid && str_eq(row.locale.as_str(), "de_DE") {
                proof {
                    assert(text_matches_color(tm[i as int], cid as int));
                    lemma_find_color_text(tm, cid as int);
                }
                return Some(i);
            }
            proof {
                assert(!text_matches_color(tm[i as int], cid as int));
            }
            i = i + 1;
        }
        proof {
            lemma_find_color_text(tm, cid as int);
        }
        None
    }

    /// The plant carrying `id`, if any: a copy of its row.
    pub fn get_plant(&self, id: &str) -> (r: Option<Plant>)
        ensures
            match find_plant(self@.plants, id@) {
                Some(i) => r matches Some(p) && p@ == self@.plants[i],
                None => r is None,
            },
    {
        match self.find_plant_index(id) {
            Some(i) => {
                proof {
                    lemma_find_plant(self@.plants, id@);
                    assert(self@.plants.len() == self.plants@.len());
                }
                Some(self.plants[i].clone())
            },
            None => None,
        }
    }

    /// Pots a new plant for an existing fruit and hands back its generated
    /// code.  A single insert: it fails only when the fruit reference
    /// breaks the foreign-key constraint, and then changes nothing.
    pub fn insert_plant(&mut self, new_plant: &NewPlant) -> (r: Result<String, StoreError>)
        requires
            old(self)@.wf(),
            new_plant.planted.valid(),
        ensures
            final(self)@.wf(),
            ({
                let res = insert_plant_result(old(self)@, new_plant@);
                match r {
                    Ok(id) => res == Ok::<Seq<char>, StoreError>(id@)
                        && final(self)@ == insert_plant_next(old(self)@, new_plant@),
                    Err(e) => res == Err::<Seq<char>, StoreError>(e)
                        && final(self)@ == old(self)@,
                }
            }),
    {
        let fid = new_plant.fruit;
        if fid < 1 || fid as usize > self.fruits.len() {
            return Err(StoreError::StorageFailure(StorageFault::UnknownFruit));
        }
        let serial = self.plants.len() as u128 + 1;
        let mut code = String::new();
        proof {
            reveal_strlit("P");
        }
        code.append("P");
        crate::decimal::push_digits(&mut code, serial);
        proof {
            assert("P"@ =~= seq!['P']);
            assert(code@ =~= plant_code(serial as nat));
        }
        let row = Plant {
            id: code.clone(),
            fruit: fid,
            planted: new_plant.planted,
            disposed: None,
            is_label_printed: false,
        };
        self.plants.push(row);
        proof {
            assert(self@.plants =~= old(self)@.plants.push(PlantM {
                id: plant_code(serial as nat),
                fruit: new_plant@.fruit,
                planted: new_plant@.planted,
                disposed: None,
                is_label_printed: false,
            }));
            assert(self@ =~= insert_plant_next(old(self)@, new_plant@));
            assert(self@.wf()) by {
                assert forall|k: int| 0 <= k < self@.line_items.len()
                    implies find_plant(self@.plants,
                        (#[trigger] self@.line_items[k]).plant) is Some
                by {
                    lemma_find_plant_push(old(self)@.plants,
                        self@.plants.last(), self@.line_items[k].plant);
                }
            }
        }
        Ok(code)
    }

    /// Disposes a plant: a single conditional update that sets the
    /// disposed date only where it is still unset.  Disposing a missing or
    /// already-disposed plant is a no-op that still counts as success,
    /// exactly as a zero-row update does.
    pub fn dispose_plant(&mut self, plant_id: &str, date: Date)
        requires
            old(self)@.wf(),
            date.valid(),
        ensures
            final(self)@.wf(),
            final(self)@ == dispose_plant_next(old(self)@, plant_id@, date),
    {
        match self.find_plant_index(plant_id) {
            Some(i) => {
                proof {
                    lemma_find_plant(self@.plants, plant_id@);
                    assert(self@.plants.len() == self.plants@.len());
                }
                if self.plants[i].disposed.is_none() {
                    self.plants[i].disposed = Some(date);
                    proof {
                        assert(self@.plants =~= old(self)@.plants.update(i as int,
                            PlantM { disposed: Some(date), ..old(self)@.plants[i as int] }));
                        assert(self@ =~= dispose_plant_next(old(self)@, plant_id@, date));
                        assert(self@.wf()) by {
                            lemma_find_plant_same_ids(self@.plants, old(self)@.plants, plant_id@);
                            assert(forall|k: int| 0 <= k < self@.line_items.len()
                                ==> find_plant(self@.plants,
                                    (#[trigger] self@.line_items[k]).plant)
                                    == find_plant(old(self)@.plants, self@.line_items[k].plant))
                            by {
                                assert forall|k: int| 0 <= k < self@.line_items.len()
                                    implies find_plant(self@.plants,
                                        (#[trigger] self@.line_items[k]).plant)
                                        == find_plant(old(self)@.plants, self@.line_items[k].plant)
                                by {
                                    lemma_find_plant_same_ids(self@.plants, old(self)@.plants,
                                        self@.line_items[k].plant);
                                }
                            }
                        }
                    }
                }
            },
            None => {},
        }
    }

    /// Disposes a plant on the requested date, defaulting to the server's
    /// current date when the request names none; hands back the date used.
    pub fn dispose_plant_request(&mut self, plant_id: &str, req: &DisposePlant) -> (d: Date)
        requires
            old(self)@.wf(),
            req.date_disposed matches Some(x) ==> x.valid(),
        ensures
            d.valid(),
            req.date_disposed matches Some(x) ==> d == x,
            final(self)@.wf(),
            final(self)@ == dispose_plant_next(old(self)@, plant_id@, d),
    {
        let d = match req.date_disposed {
            Some(x) => x,
            None => crate::date::current_date(),
        };
        self.dispose_plant(plant_id, d);
        d
    }

    /// Appends one localized text row per list entry, for the given label
    /// and referenced key.  Touches no other table.
    fn insert_texts(&mut self, list: &Vec<LocalizedText>, label: TextLabel, rid: i32)
        ensures
            final(self)@ == (StoreM {
                texts: old(self)@.texts
                    + text_rows(list@.map_values(|lt: LocalizedText| lt@), label, rid as int),
                ..old(self)@
            }),
    {
        let ghost base = self@;
        let ghost lm = list@.map_values(|lt: LocalizedText| lt@);
        let n = list.len();
        let mut j: usize = 0;
        while j < n
            invariant
                n == list.len(),
                lm == list@.map_values(|lt: LocalizedText| lt@),
                0 <= j <= n,
                self@ == (StoreM {
                    texts: base.texts + text_rows(lm.take(j as int), label, rid as int),
                    ..base
                }),
            decreases n - j,
        {
            let row = TextRow {
                locale: list[j].locale.clone(),
                label: label,
                reference_id: rid,
                value: list[j].value.clone(),
            };
            let ghost rv = row@;
            let ghost tpre = self@.texts;
            self.texts.push(row);
            proof {
                assert(lm[j as int] == list@[j as int]@);
                assert(rv == TextRowM {
                    locale: lm[j as int].locale,
                    label: label,
                    reference_id: rid as int,
                    value: lm[j as int].value,
                });
                assert(self@.texts =~= tpre.push(rv));
                assert(lm.take(j as int + 1) =~= lm.take(j as int).push(lm[j as int]));
                assert(text_rows(lm.take(j as int + 1), label, rid as int)
                    =~= text_rows(lm.take(j as int), label, rid as int).push(rv));
                assert(tpre == base.texts + text_rows(lm.take(j as int), label, rid as int));
                assert(self@.texts =~= base.texts
                    + text_rows(lm.take(j as int + 1), label, rid as int));
                assert(self@ =~= (StoreM {
                    texts: base.texts + text_rows(lm.take(j as int + 1), label, rid as int),
                    ..base
                }));
            }
            j = j + 1;
        }
        proof {
            assert(lm.take(n as int) =~= lm);
            assert(self@ =~= (StoreM {
                texts: old(self)@.texts + text_rows(lm, label, rid as int),
                ..old(self)@
            }));
        }
    }

    /// Creates a fruit inside one atomic transaction: resolves or creates
    /// its color (with any localized color names), converts the average
    /// weight to fixed point, and appends the fruit row with any localized
    /// descriptions.  On any failure — validation or storage — nothing at
    /// all is written: no color, text or fruit row of a failed attempt
    /// survives.
    pub fn insert_fruit(&mut self, new_fruit: &NewFruit) -> (r: Result<i32, StoreError>)
        requires
            old(self)@.wf(),
        ensures
            final(self)@.wf(),
            ({
                let res = insert_fruit_result(old(self)@, new_fruit@);
                match r {
                    Ok(id) => res == Ok::<int, StoreError>(id as int)
                        && final(self)@ == insert_fruit_next(old(self)@, new_fruit@),
                    Err(e) => res == Err::<int, StoreError>(e)
                        && final(self)@ == old(self)@,
                }
            }),
    {
        if new_fruit.existing_color.is_some() && new_fruit.new_color.is_some() {
            return Err(StoreError::InvalidInput(InputFault::ColorChoiceBoth));
        }
        if new_fruit.existing_color.is_none() && new_fruit.new_color.is_none() {
            return Err(StoreError::InvalidInput(InputFault::ColorChoiceNeither));
        }
        if let Some(nc) = &new_fruit.new_color {
            if !hex_ok_exec(nc.hexadecimal.as_str()) {
                return Err(StoreError::InvalidInput(InputFault::HexadecimalMalformed));
            }
        }
        if let Some(e) = new_fruit.scoville_end {
            if e < new_fruit.scoville_start {
                return Err(StoreError::InvalidInput(InputFault::ScovilleRangeInverted));
            }
        }
        let weight = match Decimal::parse(new_fruit.average_weight_in_grams.as_str()) {
            Some(w) => w,
            None => {
                return Err(StoreError::InvalidInput(InputFault::WeightNotRepresentable));
            },
        };
        if let Some(cid) = new_fruit.existing_color {
            if cid < 1 || cid as usize > self.colors.len() {
                return Err(StoreError::StorageFailure(StorageFault::UnknownColor));
            }
        }
        if self.fruits.len() >= (i32::MAX - 1) as usize
            || (new_fruit.new_color.is_some() && self.colors.len() >= (i32::MAX - 1) as usize) {
            return Err(StoreError::StorageFailure(StorageFault::IdSpaceExhausted));
        }

        let ghost s0 = self@;
        let ghost nfm = new_fruit@;

        // Resolve the color: reference the existing row, or create one.
        let cid: i32;
        match &new_fruit.new_color {
            Some(nc) => {
                cid = (self.colors.len() + 1) as i32;
                self.colors.push(Color {
                    id: cid,
                    name: nc.name.clone(),
                    hexadecimal: nc.hexadecimal.clone(),
                });
                proof {
                    assert(self@ =~= (StoreM {
                        colors: s0.colors.push(ColorM {
                            id: cid as int,
                            name: nc.name@,
                            hexadecimal: nc.hexadecimal@,
                        }),
                        ..s0
                    }));
                }
                if let Some(list) = &nc.localized_names {
                    self.insert_texts(list, TextLabel::FruitColor, cid);
                }
                proof {
                    assert(self@ =~= (StoreM {
                        colors: s0.colors.push(ColorM {
                            id: cid as int,
                            name: nc.name@,
                            hexadecimal: nc.hexadecimal@,
                        }),
                        texts: s0.texts + opt_text_rows(nc@.localized_names,
                            TextLabel::FruitColor, cid as int),
                        ..s0
                    }));
                }
            },
            None => {
                cid = match new_fruit.existing_color {
                    Some(c) => c,
                    None => 1,
                };
            },
        }

        // The fruit row itself, then its localized descriptions.
        let fid = (self.fruits.len() + 1) as i32;
        let ghost s1 = self@;
        self.fruits.push(FruitRow {
            id: fid,
            name: new_fruit.fruit_name.clone(),
            color: cid,
            scoville_start: new_fruit.scoville_start,
            scoville_end: new_fruit.scoville_end,
            avg_weight: weight,
        });
        proof {
            assert(self@ =~= (StoreM {
                fruits: s1.fruits.push(FruitRowM {
                    id: fid as int,
                    name: nfm.fruit_name,
                    color: cid as int,
                    scoville_start: nfm.scoville_start,
                    scoville_end: nfm.scoville_end,
                    avg_weight: weight.micro as int,
                }),
                ..s1
            }));
        }
        if let Some(list) = &new_fruit.fruit_descriptions {
            self.insert_texts(list, TextLabel::FruitDescription, fid);
        }

        proof {
            assert(cid as int == fruit_color_id(s0, nfm));
            assert(fid as int == s0.fruits.len() + 1);
            assert(self@ =~= insert_fruit_next(s0, nfm));
            assert(self@.wf()) by {
                assert forall|k: int| 0 <= k < self@.line_items.len()
                    implies find_plant(self@.plants,
                        (#[trigger] self@.line_items[k]).plant) is Some
                by {
                    assert(self@.plants == s0.plants);
                    assert(self@.line_items == s0.line_items);
                }
            }
        }
        Ok(fid)
    }

    /// Records a harvest inside one atomic transaction: the harvest row,
    /// then one line item per (plant, weight) entry, each weight converted
    /// to fixed point.  If any entry fails — an unconvertible weight, an
    /// unknown plant, a duplicated plant — nothing is recorded: zero
    /// harvest rows and zero line items survive, never a partial prefix.
    pub fn insert_harvest(&mut self, new_harvest: &NewHarvest) -> (r: Result<i32, StoreError>)
        requires
            old(self)@.wf(),
            new_harvest.date.valid(),
        ensures
            final(self)@.wf(),
            ({
                let res = insert_harvest_result(old(self)@, new_harvest@);
                match r {
                    Ok(id) => res == Ok::<int, StoreError>(id as int)
                        && final(self)@ == insert_harvest_next(old(self)@, new_harvest@),
                    Err(e) => res == Err::<int, StoreError>(e)
                        && final(self)@ == old(self)@,
                }
            }),
    {
        if self.harvests.len() >= (i32::MAX - 1) as usize {
            return Err(StoreError::StorageFailure(StorageFault::IdSpaceExhausted));
        }

        let ghost s0 = self@;
        let ghost items = new_harvest@.plants;
        let n = new_harvest.plants.len();

        // Validation pass: find the first faulty line item, if any.
        let mut idx: usize = 0;
        while idx < n
            invariant
                n == new_harvest.plants.len(),
                items == new_harvest@.plants,
                self@ == s0,
                s0 == old(self)@,
                s0.wf(),
                s0.harvests.len() < i32::MAX as int - 1,
                0 <= idx <= n,
                forall|k: int| 0 <= k < idx ==> line_fault(s0, items, k) is None,
            decreases n - idx,
        {
            let li = &new_harvest.plants[idx];
            proof {
                assert(items[idx as int] == new_harvest.plants@[idx as int]@);
            }
            if Decimal::parse(li.weight_in_grams.as_str()).is_none() {
                proof {
                    lemma_first_line_fault_prefix(s0, items, idx as int);
                }
                return Err(StoreError::InvalidInput(InputFault::WeightNotRepresentable));
            }
            if self.find_plant_index(li.plant_id.as_str()).is_none() {
                proof {
                    lemma_first_line_fault_prefix(s0, items, idx as int);
                }
                return Err(StoreError::StorageFailure(StorageFault::UnknownPlant));
            }
            let mut k2: usize = 0;
            let mut dup = false;
            while k2 < idx
                invariant
                    0 <= k2 <= idx < n,
                    n == new_harvest.plants.len(),
                    items == new_harvest@.plants,
                    dup == exists|k: int| 0 <= k < k2
                        && (#[trigger] items[k]).plant_id == items[idx as int].plant_id,
                decreases idx - k2,
            {
                proof {
                    assert(items[k2 as int] == new_harvest.plants@[k2 as int]@);
                }
                if str_eq(new_harvest.plants[k2].plant_id.as_str(),
                    new_harvest.plants[idx].plant_id.as_str()) {
                    dup = true;
                }
                k2 = k2 + 1;
            }
            if dup {
                proof {
                    lemma_first_line_fault_prefix(s0, items, idx as int);
                }
                return Err(StoreError::StorageFailure(StorageFault::DuplicateLineItem));
            }
            proof {
                assert(line_fault(s0, items, idx as int) is None);
            }
            idx = idx + 1;
        }
        proof {
            lemma_first_line_fault_prefix(s0, items, n as int);
            assert(first_line_fault_from(s0, items, 0) is None);
        }

        // Commit: the harvest row, then every line item.
        let hid = (self.harvests.len() + 1) as i32;
        let notes = match &new_harvest.notes {
            Some(s) => Some(s.clone()),
            None => None,
        };
        self.harvests.push(HarvestRow { id: hid, date: new_harvest.date, notes });
        let ghost s1 = self@;
        proof {
            assert(s1 =~= (StoreM {
                harvests: s0.harvests.push(HarvestM {
                    id: hid as int,
                    date: new_harvest@.date,
                    notes: new_harvest@.notes,
                }),
                ..s0
            }));
        }

        let ghost lrows = items.map_values(|li: HarvestLineItemM| LineItemM {
            harvest: hid as int,
            plant: li.plant_id,
            weight: li_weight(li),
        });
        let mut j: usize = 0;
        while j < n
            invariant
                n == new_harvest.plants.len(),
                items == new_harvest@.plants,
                lrows == items.map_values(|li: HarvestLineItemM| LineItemM {
                    harvest: hid as int,
                    plant: li.plant_id,
                    weight: li_weight(li),
                }),
                forall|k: int| 0 <= k < n ==> line_fault(s0, items, k) is None,
                0 <= j <= n,
                self@ == (StoreM { line_items: s1.line_items + lrows.take(j as int), ..s1 }),
            decreases n - j,
        {
            let li = &new_harvest.plants[j];
            proof {
                assert(items[j as int] == new_harvest.plants@[j as int]@);
                assert(line_fault(s0, items, j as int) is None);
            }
            let w = match Decimal::parse(li.weight_in_grams.as_str()) {
                Some(w) => w,
                None => {
                    proof {
                        assert(false);
                    }
                    Decimal { micro: 0 }
                },
            };
            let row = LineItemRow { harvest: hid, plant: li.plant_id.clone(), weight: w };
            let ghost rv = row@;
            let ghost lpre = self@.line_items;
            self.line_items.push(row);
            proof {
                assert(rv == lrows[j as int]);
                assert(self@.line_items =~= lpre.push(rv));
                assert(lrows.take(j as int + 1) =~= lrows.take(j as int).push(rv));
                assert(self@.line_items =~= s1.line_items + lrows.take(j as int + 1));
                assert(self@ =~= (StoreM {
                    line_items: s1.line_items + lrows.take(j as int + 1),
                    ..s1
                }));
            }
            j = j + 1;
        }

        proof {
            assert(lrows.take(n as int) =~= lrows);
            assert(self@ =~= insert_harvest_next(s0, new_harvest@));
            assert(self@.wf()) by {
                assert forall|k: int| 0 <= k < self@.line_items.len()
                    implies find_plant(self@.plants,
                        (#[trigger] self@.line_items[k]).plant) is Some
                by {
                    assert(self@.plants == s0.plants);
                    if k < s0.line_items.len() {
                        assert(self@.line_items[k] == s0.line_items[k]);
                    } else {
                        let q = k - s0.line_items.len();
                        assert(self@.line_items[k] == lrows[q]);
                        assert(lrows[q].plant == items[q].plant_id);
                        assert(line_fault(s0, items, q) is None);
                    }
                }
                assert forall|k: int| 0 <= k < self@.line_items.len()
                    implies -(MAX_MICRO as int) <= (#[trigger] self@.line_items[k]).weight
                        <= MAX_MICRO as int
                by {
                    if k < s0.line_items.len() {
                        assert(self@.line_items[k] == s0.line_items[k]);
                    } else {
                        let q = k - s0.line_items.len();
                        assert(self@.line_items[k] == lrows[q]);
                        assert(line_fault(s0, items, q) is None);
                        crate::decimal::lemma_spec_parse_in_range(items[q].weight_in_grams);
                    }
                }
            }
        }
        Ok(hid)
    }

    /// Lists every fruit with its resolved color and its aggregate
    /// produced weight: the sum of the line-item weights over all plants
    /// of that fruit, rounded half-up to two places, an exact zero where
    /// no harvest has touched it.  The average weight is reported rounded
    /// the same way.  Each color carries its display-locale localized
    /// name where one was stored, its defining name otherwise.  Rows come
    /// in fruit-key order.
    pub fn select_fruits(&self) -> (r: Vec<Fruit>)
        requires
            self@.wf(),
        ensures
            r@.len() == self@.fruits.len(),
            forall|i: int| 0 <= i < r@.len() ==> (#[trigger] r@[i])@ == fruit_listing(self@, i),
    {
        let ghost s = self@;
        let mut out: Vec<Fruit> = Vec::new();
        let nf = self.fruits.len();
        let mut i: usize = 0;
        while i < nf
            invariant
                s == self@,
                s.wf(),
                nf == s.fruits.len(),
                0 <= i <= nf,
                out@.len() == i,
                forall|k: int| 0 <= k < i ==> (#[trigger] out@[k])@ == fruit_listing(s, k),
            decreases nf - i,
        {
            let fid = self.fruits[i].id;
            proof {
                assert(fid as int == s.fruits[i as int].id);
            }

            // Sum this fruit's harvested weight over every line item.
            let nl = self.line_items.len();
            let mut acc: i128 = 0;
            let mut j: usize = 0;
            while j < nl
                invariant
                    s == self@,
                    s.wf(),
                    nl == s.line_items.len(),
                    0 <= i < nf,
                    nf == s.fruits.len(),
                    fid as int == s.fruits[i as int].id,
                    0 <= j <= nl,
                    acc == total_for(s.line_items.take(j as int), s.plants, fid as int),
                    -(j as int) * (MAX_MICRO as int) <= acc <= (j as int) * (MAX_MICRO as int),
                decreases nl - j,
            {
                let c: i128;
                match self.find_plant_index(self.line_items[j].plant.as_str()) {
                    Some(p) => {
                        proof {
                            lemma_find_plant(s.plants, s.line_items[j as int].plant);
                            assert(s.plants.len() == self.plants@.len());
                        }
                        if self.plants[p].fruit == fid {
                            c = self.line_items[j].weight.micro;
                        } else {
                            c = 0;
                        }
                    },
                    None => {
                        proof {
                            assert(find_plant(s.plants, s.line_items[j as int].plant) is Some);
                            assert(false);
                        }
                        c = 0;
                    },
                }
                proof {
                    assert(c == line_contribution(s.line_items[j as int], s.plants, fid as int));
                    assert(-(MAX_MICRO as int) <= c <= MAX_MICRO as int);
                    lemma_total_for_take_step(s.line_items, s.plants, fid as int, j as int);
                }
                acc = acc + c;
                j = j + 1;
            }
            proof {
                assert(s.line_items.take(nl as int) =~= s.line_items);
                assert(nl <= u64::MAX);
                vstd::arithmetic::mul::lemma_mul_inequality(
                    nl as int, u64::MAX as int, MAX_MICRO as int);
            }

            let total = Decimal { micro: acc }.rounded2();
            let frow = &self.fruits[i];
            let avg = frow.avg_weight.rounded2();
            proof {
                assert(1 <= s.fruits[i as int].color <= s.colors.len());
                assert(s.colors.len() == self.colors@.len());
            }
            let cidx = (frow.color - 1) as usize;
            let colrow = &self.colors[cidx];
            // Resolve the color's display-locale name, if one was stored.
            let color_name = match self.find_color_text_index(frow.color) {
                Some(t) => {
                    proof {
                        lemma_find_color_text(s.texts, frow.color as int);
                        assert(s.texts.len() == self.texts@.len());
                    }
                    self.texts[t].value.clone()
                },
                None => colrow.name.clone(),
            };
            let row = Fruit {
                id: frow.id,
                name: frow.name.clone(),
                total_produced_in_grams: total,
                avg_weight_in_grams: avg,
                color: Color {
                    id: colrow.id,
                    name: color_name,
                    hexadecimal: colrow.hexadecimal.clone(),
                },
            };
            out.push(row);
            proof {
                assert(out@[i as int]@ == fruit_listing(s, i as int));
            }
            i = i + 1;
        }
        out
    }

    /// Hands out the keys of every plant whose label sheet has not been
    /// printed yet, in table order, and marks them all printed in the same
    /// step.  An empty result means no labels were pending; the transport
    /// layer treats that as its error case.
    pub fn print_plant_labels(&mut self) -> (r: Vec<String>)
        requires
            old(self)@.wf(),
        ensures
            final(self)@.wf(),
            r@.map_values(|s: String| s@) == unprinted_ids(old(self)@.plants),
            final(self)@ == (StoreM {
                plants: mark_all_printed(old(self)@.plants),
                ..old(self)@
            }),
    {
        let ghost s0 = self@;
        let mut out: Vec<String> = Vec::new();
        let n = self.plants.len();
        let mut i: usize = 0;
        while i < n
            invariant
                s0 == old(self)@,
                s0.wf(),
                n == s0.plants.len(),
                n == self.plants.len(),
                0 <= i <= n,
                self@.colors == s0.colors,
                self@.texts == s0.texts,
                self@.fruits == s0.fruits,
                self@.harvests == s0.harvests,
                self@.line_items == s0.line_items,
                self@.plants.len() == n,
                forall|k: int| 0 <= k < i ==> (#[trigger] self@.plants[k])
                    == (PlantM { is_label_printed: true, ..s0.plants[k] }),
                forall|k: int| i <= k < n ==> (#[trigger] self@.plants[k]) == s0.plants[k],
                out@.map_values(|s: String| s@) == unprinted_ids(s0.plants.take(i as int)),
            decreases n - i,
        {
            let ghost outpre = out@;
            let ghost plpre = self@.plants;
            proof {
                assert(plpre[i as int] == s0.plants[i as int]);
            }
            if !self.plants[i].is_label_printed {
                out.push(self.plants[i].id.clone());
                proof {
                    assert(out@.map_values(|s: String| s@)
                        =~= outpre.map_values(|s: String| s@)
                            + seq![s0.plants[i as int].id]);
                }
            }
            self.plants[i].is_label_printed = true;
            proof {
                assert(self@.plants =~= plpre.update(i as int,
                    PlantM { is_label_printed: true, ..plpre[i as int] }));
                lemma_unprinted_take_step(s0.plants, i as int);
                assert(out@.map_values(|s: String| s@)
                    =~= unprinted_ids(s0.plants.take(i as int + 1)));
                assert(self@.plants[i as int]
                    == (PlantM { is_label_printed: true, ..s0.plants[i as int] }));
            }
            i = i + 1;
        }
        proof {
            assert(s0.plants.take(n as int) =~= s0.plants);
            assert(self@.plants =~= mark_all_printed(s0.plants));
            assert(self@ =~= (StoreM { plants: mark_all_printed(s0.plants), ..s0 }));
            assert(self@.wf()) by {
                assert(forall|k: int| 0 <= k < self@.plants.len()
                    ==> (#[trigger] self@.plants[k]).id == s0.plants[k].id);
                assert forall|k: int| 0 <= k < self@.line_items.len()
                    implies find_plant(self@.plants,
                        (#[trigger] self@.line_items[k]).plant) is Some
                by {
                    lemma_find_plant_same_ids(self@.plants, s0.plants,
                        self@.line_items[k].plant);
                }
            }
        }
        out
    }
}

} // verus!
