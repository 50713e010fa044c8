//! OSM tags and the POI category taxonomy.
//!
//! [`CATEGORY_TABLE`] is an ordered list of `(key, value-or-"*", category)`
//! rows, grouped by tag family (amenity, shop, tourism, leisure, office,
//! craft, healthcare, then the remaining families) so that when an object
//! carries several families, the earlier family decides.  [`categorize`]
//! walks it top to bottom; the first matching row wins.

use vstd::prelude::*;

verus! {

/// Whether two strings hold the same characters, by comparing their UTF-8
/// bytes (equal bytes decode to equal characters).
pub(crate) fn str_eq(a: &str, b: &str) -> (r: bool)
    ensures
        r == (a@ == b@),
{
    broadcast use vstd::utf8::encode_utf8_decode_utf8;

    let x = a.as_bytes();
    let y = b.as_bytes();
    if x.len() != y.len() {
        return false;
    }
    let mut i: usize = 0;
    while i < x.len()
        invariant
            i <= x@.len(),
            x@.len() == y@.len(),
            x@ == vstd::utf8::encode_utf8(a@),
            y@ == vstd::utf8::encode_utf8(b@),
            forall|j: int| 0 <= j < i ==> x@[j] == y@[j],
        decreases x@.len() - i,
    {
        if x[i] != y[i] {
            return false;
        }
        i = i + 1;
    }
    assert(x@ =~= y@);
    assert(a@ == vstd::utf8::decode_utf8(vstd::utf8::encode_utf8(a@)));
    true
}

/// Key to value, as the tags of one OSM object: an `FxHashMap`.
#[verifier::external_body]
pub struct TagMap {
    map: fxhash::FxHashMap<String, String>,
}

/// What a [`TagMap`] holds: key to value.
pub uninterp spec fn tag_entries(t: TagMap) -> Map<Seq<char>, Seq<char>>;

impl View for TagMap {
    type V = Map<Seq<char>, Seq<char>>;

    open spec fn view(&self) -> Map<Seq<char>, Seq<char>> {
        tag_entries(*self)
    }
}

/// An empty `FxHashMap` (`Default::default`).
#[verifier::external_body]
fn tags_new() -> (t: TagMap)
    ensures
        tag_entries(t) == no_tags(),
{
    TagMap { map: fxhash::FxHashMap::default() }
}

/// `HashMap::insert`: `key` now maps to `value`.
#[verifier::external_body]
fn tags_insert(t: &mut TagMap, key: String, value: String)
    ensures
        tag_entries(*final(t)) == tag_entries(*old(t)).insert(key@, value@),
{
    t.map.insert(key, value);
}

/// `HashMap::get`: the value stored for `key`, if any.
#[verifier::external_body]
fn tags_get<'a>(t: &'a TagMap, key: &str) -> (r: Option<&'a String>)
    ensures
        opt_view(r) == tag_of(tag_entries(*t), key@),
{
    t.map.get(key)
}

/// The empty tag map contents.
pub open spec fn no_tags() -> Map<Seq<char>, Seq<char>> {
    Map::empty()
}

/// The value of `key` in `tags`, if present.
pub open spec fn tag_of(tags: Map<Seq<char>, Seq<char>>, key: Seq<char>) -> Option<Seq<char>> {
    if tags.contains_key(key) {
        Some(tags[key])
    } else {
        None
    }
}

/// The value of `key` in `tags`, or empty when absent.
pub open spec fn tag_or_empty(tags: Map<Seq<char>, Seq<char>>, key: Seq<char>) -> Seq<char> {
    if tags.contains_key(key) {
        tags[key]
    } else {
        Seq::empty()
    }
}

/// Whether `key` is present with a non-empty value.
pub open spec fn has_nonempty(tags: Map<Seq<char>, Seq<char>>, key: Seq<char>) -> bool {
    tags.contains_key(key) && tags[key].len() > 0
}

/// The view of an optional borrowed string.
pub open spec fn opt_view(o: Option<&String>) -> Option<Seq<char>> {
    match o {
        Some(s) => Some(s@),
        None => None,
    }
}

impl TagMap {
    /// An empty tag map.
    pub fn new() -> (t: TagMap)
        ensures
            t@ == no_tags(),
    {
        tags_new()
    }

    /// Sets `key` to `value`, replacing any earlier value.
    pub fn insert(&mut self, key: String, value: String)
        ensures
            final(self)@ == old(self)@.insert(key@, value@),
    {
        tags_insert(self, key, value);
    }

    /// A tag map holding `pairs` (a later pair wins over an earlier one with
    /// the same key).
    pub fn from_pairs(pairs: &[(&str, &str)]) -> (t: TagMap)
        ensures
            forall|k: Seq<char>|
                #![trigger t@.contains_key(k)]
                t@.contains_key(k) <==> exists|i: int| 0 <= i < pairs@.len() && pairs@[i].0@ == k,
            forall|i: int|
                0 <= i < pairs@.len() && (forall|j: int| i < j < pairs@.len() ==> pairs@[j].0@
                    != pairs@[i].0@) ==> #[trigger] t@[pairs@[i].0@] == pairs@[i].1@,
    {
        let mut t = TagMap::new();
        let mut i: usize = 0;
        while i < pairs.len()
            invariant
                i <= pairs@.len(),
                forall|k: Seq<char>|
                    #![trigger t@.contains_key(k)]
                    t@.contains_key(k) <==> exists|m: int| 0 <= m < i && pairs@[m].0@ == k,
                forall|m: int|
                    0 <= m < i && (forall|j: int| m < j < i ==> pairs@[j].0@ != pairs@[m].0@)
                        ==> #[trigger] t@[pairs@[m].0@] == pairs@[m].1@,
            decreases pairs@.len() - i,
        {
            let (k, v) = pairs[i];
            t.insert(k.to_owned(), v.to_owned());
            proof {
                assert forall|key: Seq<char>| #![trigger t@.contains_key(key)]
                    t@.contains_key(key) <==> exists|m: int| 0 <= m < i + 1 && pairs@[m].0@ == key by {
                    if key == pairs@[i as int].0@ {
                        assert(pairs@[i as int].0@ == key);
                    }
                }
            }
            i = i + 1;
        }
        t
    }

    /// The value of `key`, if present.
    pub fn get(&self, key: &str) -> (r: Option<&String>)
        ensures
            opt_view(r) == tag_of(self@, key@),
    {
        tags_get(self, key)
    }

    /// Whether `key` is present.
    pub fn contains_key(&self, key: &str) -> (b: bool)
        ensures
            b == self@.contains_key(key@),
    {
        self.get(key).is_some()
    }

    /// Whether `key` is present with a non-empty value.
    pub fn has_nonempty(&self, key: &str) -> (b: bool)
        ensures
            b == has_nonempty(self@, key@),
    {
        match self.get(key) {
            Some(v) => !crate::text::str_is_empty(v.as_str()),
            None => false,
        }
    }
}

/// `(key, value-or-"*", category)`, walked top to bottom; first match wins.
pub const CATEGORY_TABLE: [(&'static str, &'static str, &'static str); 243] = [
    // Food & Drink
    ("amenity", "restaurant", "restaurant"),
    ("amenity", "fast_food", "fast_food"),
    ("amenity", "cafe", "cafe"),
    ("amenity", "bar", "bar"),
    ("amenity", "pub", "pub"),
    ("amenity", "biergarten", "biergarten"),
    ("amenity", "food_court", "food_court"),
    ("amenity", "ice_cream", "ice_cream"),
    ("amenity", "juice_bar", "juice_bar"),
    ("amenity", "lounge", "lounge"),
    ("amenity", "canteen", "canteen"),
    ("amenity", "internet_cafe", "internet_cafe"),
    ("amenity", "karaoke_box", "karaoke"),

    // Accommodation (amenity family)
    ("amenity", "dormitory", "dormitory"),

    // Tourism & Attractions (amenity family)
    ("amenity", "arts_centre", "arts_centre"),
    ("amenity", "planetarium", "planetarium"),
    ("amenity", "exhibition_centre", "exhibition_centre"),

    // Transport (amenity family)
    ("amenity", "parking", "parking"),
    ("amenity", "fuel", "gas_station"),
    ("amenity", "charging_station", "ev_charging"),
    ("amenity", "bus_station", "bus_station"),
    ("amenity", "ferry_terminal", "ferry_terminal"),
    ("amenity", "taxi", "taxi"),
    ("amenity", "car_rental", "car_rental"),
    ("amenity", "bicycle_rental", "bicycle_rental"),
    ("amenity", "bicycle_parking", "bicycle_parking"),
    ("amenity", "scooter_rental", "scooter_rental"),
    ("amenity", "motorcycle_parking", "motorcycle_parking"),
    ("amenity", "car_wash", "car_wash"),
    ("amenity", "vehicle_inspection", "vehicle_inspection"),
    ("amenity", "parking_space", "parking"),

    // Health & Medical (amenity family)
    ("amenity", "hospital", "hospital"),
    ("amenity", "clinic", "clinic"),
    ("amenity", "doctors", "doctor"),
    ("amenity", "dentist", "dentist"),
    ("amenity", "pharmacy", "pharmacy"),
    ("amenity", "veterinary", "veterinary"),
    ("amenity", "nursing_home", "nursing_home"),
    ("amenity", "first_aid", "first_aid"),
    ("amenity", "healthcare", "healthcare"),
    ("amenity", "spa", "spa"),
    ("amenity", "public_bath", "public_bath"),

    // Finance (amenity family)
    ("amenity", "bank", "bank"),
    ("amenity", "atm", "atm"),
    ("amenity", "bureau_de_change", "currency_exchange"),
    ("amenity", "money_transfer", "money_transfer"),
    ("amenity", "payment_terminal", "payment_terminal"),

    // Sports & Fitness (amenity family)
    ("amenity", "dojo", "martial_arts"),

    // Education (amenity family)
    ("amenity", "school", "school"),
    ("amenity", "university", "university"),
    ("amenity", "college", "college"),
    ("amenity", "kindergarten", "kindergarten"),
    ("amenity", "library", "library"),
    ("amenity", "language_school", "language_school"),
    ("amenity", "music_school", "music_school"),
    ("amenity", "driving_school", "driving_school"),
    ("amenity", "dance_school", "dance_school"),
    ("amenity", "prep_school", "prep_school"),
    ("amenity", "training", "training_centre"),
    ("amenity", "research_institute", "research"),

    // Religious & Spiritual (amenity family)
    ("amenity", "place_of_worship", "place_of_worship"),
    ("amenity", "monastery", "monastery"),
    ("amenity", "meditation_centre", "meditation_centre"),
    ("amenity", "community_centre", "community_centre"),

    // Entertainment (amenity family)
    ("amenity", "cinema", "cinema"),
    ("amenity", "theatre", "theatre"),
    ("amenity", "nightclub", "nightclub"),
    ("amenity", "casino", "casino"),
    ("amenity", "karaoke", "karaoke"),
    ("amenity", "music_venue", "music_venue"),
    ("amenity", "concert_hall", "concert_hall"),
    ("amenity", "events_venue", "events_venue"),
    ("amenity", "circus", "circus"),
    ("amenity", "gambling", "gambling"),

    // Public Services (amenity family)
    ("amenity", "post_office", "post_office"),
    ("amenity", "police", "police"),
    ("amenity", "fire_station", "fire_station"),
    ("amenity", "courthouse", "courthouse"),
    ("amenity", "townhall", "town_hall"),
    ("amenity", "embassy", "embassy"),
    ("amenity", "prison", "prison"),
    ("amenity", "recycling", "recycling"),
    ("amenity", "waste_disposal", "waste_disposal"),
    ("amenity", "toilets", "public_toilet"),
    ("amenity", "drinking_water", "drinking_water"),
    ("amenity", "shelter", "shelter"),
    ("amenity", "social_facility", "social_facility"),
    ("amenity", "refugee_site", "refugee_site"),
    ("amenity", "bench", "bench"),
    ("amenity", "waste_basket", "waste_basket"),
    ("amenity", "post_box", "post_box"),
    ("amenity", "postalcode", "postal_area"),
    ("amenity", "admin_boundary", "admin_boundary"),

    // Real Estate (amenity family)
    ("amenity", "retirement_home", "retirement_home"),

    // Additional OSM tags found in pois (amenity family)
    ("amenity", "landmark", "landmark"),
    ("amenity", "park", "park"),
    ("amenity", "marketplace", "marketplace"),
    ("amenity", "vending_machine", "vending_machine"),

    // Shopping
    ("shop", "supermarket", "supermarket"),
    ("shop", "convenience", "convenience_store"),
    ("shop", "clothes", "clothing_store"),
    ("shop", "electronics", "electronics"),
    ("shop", "furniture", "furniture"),
    ("shop", "bakery", "bakery"),
    ("shop", "butcher", "butcher"),
    ("shop", "florist", "florist"),
    ("shop", "gift", "gift_shop"),
    ("shop", "jewelry", "jewelry"),
    ("shop", "sports", "sports_store"),
    ("shop", "toy", "toy_store"),
    ("shop", "books", "bookstore"),
    ("shop", "music", "music_store"),
    ("shop", "musical_instrument", "music_store"),
    ("shop", "photo", "photo_store"),
    ("shop", "hairdresser", "hair_salon"),
    ("shop", "beauty", "beauty_salon"),
    ("shop", "massage", "massage"),
    ("shop", "nail_salon", "nail_salon"),
    ("shop", "cosmetics", "cosmetics"),
    ("shop", "optician", "optician"),
    ("shop", "pharmacy", "pharmacy"),
    ("shop", "medical_supply", "medical_supply"),
    ("shop", "car", "car_dealer"),
    ("shop", "car_repair", "car_repair"),
    ("shop", "tyres", "tyre_shop"),
    ("shop", "car_parts", "car_parts"),
    ("shop", "motorcycle", "motorcycle_dealer"),
    ("shop", "bicycle", "bicycle_shop"),
    ("shop", "pet", "pet_store"),
    ("shop", "garden_centre", "garden_centre"),
    ("shop", "hardware", "hardware_store"),
    ("shop", "doityourself", "hardware_store"),
    ("shop", "trade", "trade_supplier"),
    ("shop", "wholesale", "wholesale"),
    ("shop", "department_store", "department_store"),
    ("shop", "mall", "shopping_mall"),
    ("shop", "marketplace", "marketplace"),
    ("shop", "organic", "organic_store"),
    ("shop", "hobby", "hobby_shop"),
    ("shop", "stationery", "stationery"),
    ("shop", "travel_agency", "travel_agency"),
    ("shop", "rental", "rental"),
    ("shop", "service", "service"),
    ("shop", "courier", "courier"),
    ("shop", "laundry", "laundry"),
    ("shop", "dry_cleaning", "dry_cleaning"),
    ("shop", "atv", "atv_dealer"),
    ("shop", "general", "general_store"),
    ("shop", "mobile_phone", "mobile_phone_shop"),
    ("shop", "*", "shop"),

    // Accommodation (tourism family)
    ("tourism", "hotel", "hotel"),
    ("tourism", "hostel", "hostel"),
    ("tourism", "motel", "motel"),
    ("tourism", "guest_house", "guest_house"),
    ("tourism", "chalet", "chalet"),
    ("tourism", "camp_site", "campsite"),
    ("tourism", "caravan_site", "caravan_site"),
    ("tourism", "apartment", "apartment"),

    // Tourism & Attractions
    ("tourism", "attraction", "attraction"),
    ("tourism", "museum", "museum"),
    ("tourism", "gallery", "gallery"),
    ("tourism", "viewpoint", "viewpoint"),
    ("tourism", "theme_park", "theme_park"),
    ("tourism", "zoo", "zoo"),
    ("tourism", "aquarium", "aquarium"),
    ("tourism", "artwork", "artwork"),
    ("tourism", "information", "tourist_info"),
    ("historic", "monument", "monument"),
    ("historic", "memorial", "memorial"),
    ("historic", "castle", "castle"),
    ("historic", "ruins", "ruins"),
    ("historic", "archaeological_site", "archaeological_site"),
    ("historic", "building", "historic_building"),

    // Nature & Outdoors
    ("leisure", "park", "park"),
    ("leisure", "nature_reserve", "nature_reserve"),
    ("leisure", "garden", "garden"),
    ("leisure", "playground", "playground"),
    ("leisure", "beach_resort", "beach"),
    ("natural", "beach", "beach"),
    ("natural", "peak", "mountain_peak"),
    ("natural", "volcano", "volcano"),
    ("natural", "water", "water"),
    ("natural", "wood", "forest"),
    ("natural", "wetland", "wetland"),

    // Transport (non-amenity families)
    ("railway", "station", "train_station"),
    ("railway", "halt", "train_stop"),
    ("aeroway", "aerodrome", "airport"),
    ("aeroway", "terminal", "airport_terminal"),

    // Health & Medical (healthcare family)
    ("healthcare", "clinic", "clinic"),
    ("healthcare", "doctor", "doctor"),
    ("healthcare", "hospital", "hospital"),
    ("healthcare", "pharmacy", "pharmacy"),
    ("healthcare", "dentist", "dentist"),
    ("healthcare", "alternative", "alternative_medicine"),
    ("healthcare", "optometrist", "optometrist"),

    // Finance (office family)
    ("office", "insurance", "insurance"),
    ("office", "accountant", "accountant"),
    ("office", "financial", "financial_services"),

    // Sports & Fitness
    ("leisure", "fitness_centre", "gym"),
    ("leisure", "sports_centre", "sports_centre"),
    ("leisure", "stadium", "stadium"),
    ("leisure", "swimming_pool", "swimming_pool"),
    ("leisure", "golf_course", "golf_course"),
    ("leisure", "pitch", "sports_field"),
    ("leisure", "track", "athletics_track"),
    ("leisure", "ice_rink", "ice_rink"),
    ("leisure", "bowling_alley", "bowling"),
    ("leisure", "dance", "dance_studio"),
    ("leisure", "martial_arts", "martial_arts"),
    ("leisure", "climbing", "climbing"),
    ("leisure", "water_park", "water_park"),
    ("leisure", "miniature_golf", "mini_golf"),
    ("sport", "swimming", "swimming_pool"),

    // Education (office family)
    ("office", "educational_institution", "educational_institution"),

    // Entertainment (leisure family)
    ("leisure", "amusement_arcade", "amusement_arcade"),

    // Public Services (office / government / emergency families)
    ("office", "government", "government_office"),
    ("government", "justice", "courthouse"),
    ("emergency", "fire_hydrant", "fire_hydrant"),

    // Business & Services
    ("office", "company", "company"),
    ("office", "it", "it_company"),
    ("office", "architect", "architect"),
    ("office", "lawyer", "lawyer"),
    ("office", "agent", "agent"),
    ("office", "ngo", "ngo"),
    ("office", "consulting", "consulting"),
    ("craft", "electrician", "electrician"),
    ("craft", "plumber", "plumber"),
    ("craft", "carpenter", "carpenter"),
    ("craft", "painter", "painter"),
    ("craft", "handyman", "handyman"),
    ("craft", "printer", "printing"),
    ("craft", "glaziery", "glazier"),
    ("craft", "general", "tradesperson"),
    ("man_made", "crane", "crane"),
    ("landuse", "industrial", "industrial"),
    ("office", "logistics", "logistics"),
    ("office", "association", "association"),
    ("office", "construction_company", "construction"),
    ("craft", "metal_construction", "metal_construction"),

    // Real Estate (non-amenity families)
    ("landuse", "residential", "residential"),
    ("building", "apartments", "apartments"),
    ("office", "estate_agent", "estate_agent"),

    // Nature & Outdoors (leisure, cont'd)
    ("leisure", "picnic_table", "picnic_area"),
];

/// Whether table row `row` matches `tags`: the key is present and the row's
/// value is `*` or equals the tag's value.
pub open spec fn row_matches(tags: Map<Seq<char>, Seq<char>>, row: (&str, &str, &str)) -> bool {
    tags.contains_key(row.0@) && (row.1@ == "*"@ || tags[row.0@] == row.1@)
}

/// The category of the first row at or after `i` that matches `tags`.
pub open spec fn category_from(tags: Map<Seq<char>, Seq<char>>, i: int) -> Option<Seq<char>>
    decreases 243 - i,
{
    if i < 0 || i >= 243 {
        None
    } else if row_matches(tags, CATEGORY_TABLE[i]) {
        Some(CATEGORY_TABLE[i].2@)
    } else {
        category_from(tags, i + 1)
    }
}

/// The category of `tags`: that of the first matching [`CATEGORY_TABLE`] row.
pub open spec fn category_spec(tags: Map<Seq<char>, Seq<char>>) -> Option<Seq<char>> {
    category_from(tags, 0)
}

/// The view of an optional string slice.
pub open spec fn opt_str_view(o: Option<&str>) -> Option<Seq<char>> {
    match o {
        Some(s) => Some(s@),
        None => None,
    }
}

/// Walk [`CATEGORY_TABLE`] in order; the first `(key, value-or-*)` match
/// wins.
pub fn categorize(tags: &TagMap) -> (r: Option<&'static str>)
    ensures
        opt_str_view(r) == category_spec(tags@),
{
    let mut i: usize = 0;
    while i < CATEGORY_TABLE.len()
        invariant
            i <= 243,
            category_spec(tags@) == category_from(tags@, i as int),
        decreases 243 - i,
    {
        let row = CATEGORY_TABLE[i];
        if let Some(tag_value) = tags.get(row.0) {
            if str_eq(row.1, "*") || str_eq(tag_value.as_str(), row.1) {
                return Some(row.2);
            }
        }
        i = i + 1;
    }
    None
}

/// Whether `tags` carries a `name` or `brand` key.
pub open spec fn has_identity(tags: Map<Seq<char>, Seq<char>>) -> bool {
    tags.contains_key("name"@) || tags.contains_key("brand"@)
}

/// POI candidate: identified by `name` or `brand`, and categorised.
pub open spec fn is_poi_spec(tags: Map<Seq<char>, Seq<char>>) -> bool {
    has_identity(tags) && category_spec(tags) is Some
}

/// An object is a POI candidate if it carries name or brand identification
/// and resolves to a category.
pub fn is_poi(tags: &TagMap) -> (b: bool)
    ensures
        b == is_poi_spec(tags@),
{
    let has_identity = tags.contains_key("name") || tags.contains_key("brand");
    has_identity && categorize(tags).is_some()
}

/// A POI carries a `name` or a `brand` key and resolves to a category.
pub proof fn lemma_poi_identity(tags: Map<Seq<char>, Seq<char>>)
    ensures
        is_poi_spec(tags) <==> ((tags.contains_key("name"@) || tags.contains_key("brand"@))
            && category_spec(tags) is Some),
{
}

} // verus!
