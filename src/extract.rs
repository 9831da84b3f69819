//! Rules that turn OSM tags into place attributes: layer, default importance,
//! language codes, names, address, categories and admin areas.
use vstd::prelude::*;
use crate::models::admin::{AdminArea, AdminHierarchy};
use crate::models::geo::{Coord, GeoBbox};
use crate::models::level::{level_of_osm, AdminLevel, Layer, OsmType};
use crate::models::names::{keys_distinct, lemma_pairs_map_at, lemma_pairs_map_take, pairs_map, str_eq, NameMap};
use crate::models::place::{place_consistent, Address, Place};
use crate::synonyms::{normalized, SynonymService};
use crate::text::{chars_of, string_of};

verus! {

/// OSM tags, key to value.
pub type Tags = NameMap;

/// Tag `k` is present with value `v`.
pub open spec fn has_tag(t: Map<Seq<char>, Seq<char>>, k: Seq<char>, v: Seq<char>) -> bool {
    t.contains_key(k) && t[k] == v
}

/// Tag `key` is present with value `value`.
pub fn tag_is(tags: &Tags, key: &str, value: &str) -> (r: bool)
    ensures
        r == has_tag(tags@, key@, value@),
{
    match tags.get(key) {
        Some(v) => str_eq(v.as_str(), value),
        None => false,
    }
}

/// Keys whose presence makes an object a venue.
pub open spec fn is_poi_key(k: Seq<char>) -> bool {
    k == "amenity"@ || k == "shop"@ || k == "tourism"@ || k == "leisure"@ || k == "office"@ || k
        == "building"@ || k == "historic"@ || k == "craft"@
}

/// The layer of an object with these tags. A `place` tag decides first,
/// then `boundary=administrative`, a full address, a POI key, and a street
/// highway type; anything else has no layer.
pub open spec fn layer_of(t: Map<Seq<char>, Seq<char>>) -> Option<Layer> {
    if t.contains_key("place"@) {
        let p = t["place"@];
        if p == "country"@ {
            Some(Layer::Country)
        } else if p == "state"@ || p == "province"@ || p == "region"@ {
            Some(Layer::Region)
        } else if p == "city"@ || p == "town"@ || p == "village"@ || p == "hamlet"@ {
            Some(Layer::Locality)
        } else if p == "suburb"@ || p == "neighbourhood"@ || p == "quarter"@ {
            Some(Layer::Neighbourhood)
        } else {
            Some(Layer::Venue)
        }
    } else if has_tag(t, "boundary"@, "administrative"@) {
        Some(Layer::Admin)
    } else if t.contains_key("addr:housenumber"@) && t.contains_key("addr:street"@) {
        Some(Layer::Address)
    } else if exists|k: Seq<char>| is_poi_key(k) && #[trigger] t.contains_key(k) {
        Some(Layer::Venue)
    } else if has_tag(t, "highway"@, "residential"@) || has_tag(t, "highway"@, "primary"@) || has_tag(
        t,
        "highway"@,
        "secondary"@,
    ) || has_tag(t, "highway"@, "tertiary"@) {
        Some(Layer::Street)
    } else {
        None
    }
}

fn has_poi_key(tags: &Tags) -> (r: bool)
    ensures
        r == exists|k: Seq<char>| is_poi_key(k) && #[trigger] tags@.contains_key(k),
{
    let r = tags.contains_key("amenity") || tags.contains_key("shop") || tags.contains_key("tourism")
        || tags.contains_key("leisure") || tags.contains_key("office") || tags.contains_key("building")
        || tags.contains_key("historic") || tags.contains_key("craft");
    proof {
        if exists|k: Seq<char>| is_poi_key(k) && #[trigger] tags@.contains_key(k) {
            let k = choose|k: Seq<char>| is_poi_key(k) && #[trigger] tags@.contains_key(k);
            assert(r);
        }
    }
    r
}

/// Determine the layer of an object from its tags.
pub fn determine_layer(tags: &Tags) -> (r: Option<Layer>)
    ensures
        r == layer_of(tags@),
{
    if let Some(p) = tags.get("place") {
        let p = p.as_str();
        if str_eq(p, "country") {
            return Some(Layer::Country);
        } else if str_eq(p, "state") || str_eq(p, "province") || str_eq(p, "region") {
            return Some(Layer::Region);
        } else if str_eq(p, "city") || str_eq(p, "town") || str_eq(p, "village") || str_eq(p, "hamlet") {
            return Some(Layer::Locality);
        } else if str_eq(p, "suburb") || str_eq(p, "neighbourhood") || str_eq(p, "quarter") {
            return Some(Layer::Neighbourhood);
        } else {
            return Some(Layer::Venue);
        }
    }
    if tag_is(tags, "boundary", "administrative") {
        return Some(Layer::Admin);
    }
    if tags.contains_key("addr:housenumber") && tags.contains_key("addr:street") {
        return Some(Layer::Address);
    }
    if has_poi_key(tags) {
        return Some(Layer::Venue);
    }
    if tag_is(tags, "highway", "residential") || tag_is(tags, "highway", "primary") || tag_is(
        tags,
        "highway",
        "secondary",
    ) || tag_is(tags, "highway", "tertiary") {
        return Some(Layer::Street);
    }
    None
}

/// An object is worth a place only when it has a name.
pub fn has_relevant_tags(tags: &Tags) -> (r: bool)
    ensures
        r == tags@.contains_key("name"@),
{
    tags.contains_key("name")
}

/// Default importance, in millionths, by feature type; the first rule that
/// matches decides.
pub open spec fn default_importance(t: Map<Seq<char>, Seq<char>>) -> u32 {
    if has_tag(t, "place"@, "continent"@) || has_tag(t, "place"@, "ocean"@) {
        500000
    } else if has_tag(t, "place"@, "sea"@) || has_tag(t, "place"@, "country"@) {
        400000
    } else if has_tag(t, "place"@, "state"@) {
        300000
    } else if has_tag(t, "place"@, "region"@) {
        250000
    } else if has_tag(t, "place"@, "county"@) || has_tag(t, "place"@, "city"@) {
        200000
    } else if has_tag(t, "place"@, "town"@) {
        150000
    } else if has_tag(t, "place"@, "village"@) || has_tag(t, "place"@, "suburb"@) {
        100000
    } else if has_tag(t, "place"@, "hamlet"@) || has_tag(t, "place"@, "farm"@) || has_tag(
        t,
        "place"@,
        "locality"@,
    ) {
        50000
    } else if t.contains_key("highway"@) {
        if has_tag(t, "highway"@, "path"@) || has_tag(t, "highway"@, "cycleway"@) || has_tag(
            t,
            "highway"@,
            "footway"@,
        ) || has_tag(t, "highway"@, "track"@) {
            75000
        } else {
            100000
        }
    } else if t.contains_key("shop"@) || has_tag(t, "amenity"@, "restaurant"@) || has_tag(
        t,
        "amenity"@,
        "cafe"@,
    ) || has_tag(t, "amenity"@, "fast_food"@) || has_tag(t, "amenity"@, "bar"@) || has_tag(
        t,
        "amenity"@,
        "pub"@,
    ) || has_tag(t, "amenity"@, "marketplace"@) {
        50000
    } else {
        10000
    }
}

/// Default importance of an object, in millionths (0.01 is 10_000).
pub fn calculate_default_importance(tags: &Tags) -> (r: u32)
    ensures
        r == default_importance(tags@),
        r <= 1000000,
{
    if tag_is(tags, "place", "continent") || tag_is(tags, "place", "ocean") {
        500000
    } else if tag_is(tags, "place", "sea") || tag_is(tags, "place", "country") {
        400000
    } else if tag_is(tags, "place", "state") {
        300000
    } else if tag_is(tags, "place", "region") {
        250000
    } else if tag_is(tags, "place", "county") || tag_is(tags, "place", "city") {
        200000
    } else if tag_is(tags, "place", "town") {
        150000
    } else if tag_is(tags, "place", "village") || tag_is(tags, "place", "suburb") {
        100000
    } else if tag_is(tags, "place", "hamlet") || tag_is(tags, "place", "farm") || tag_is(
        tags,
        "place",
        "locality",
    ) {
        50000
    } else if tags.contains_key("highway") {
        if tag_is(tags, "highway", "path") || tag_is(tags, "highway", "cycleway") || tag_is(
            tags,
            "highway",
            "footway",
        ) || tag_is(tags, "highway", "track") {
            75000
        } else {
            100000
        }
    } else if tags.contains_key("shop") || tag_is(tags, "amenity", "restaurant") || tag_is(
        tags,
        "amenity",
        "cafe",
    ) || tag_is(tags, "amenity", "fast_food") || tag_is(tags, "amenity", "bar") || tag_is(
        tags,
        "amenity",
        "pub",
    ) || tag_is(tags, "amenity", "marketplace") {
        50000
    } else {
        10000
    }
}

/// The importance a place gets: the table's value for its Wikidata item
/// when there is one, else the default for its tags.
pub fn choose_importance(default: u32, from_table: Option<u32>) -> (r: u32)
    ensures
        r == (match from_table {
            Some(v) => v,
            None => default,
        }),
{
    match from_table {
        Some(v) => v,
        None => default,
    }
}

/// An ASCII letter.
pub open spec fn is_letter(c: char) -> bool {
    ('a' <= c && c <= 'z') || ('A' <= c && c <= 'Z')
}

/// A language code accepted in `name:<lang>`: 2 to 10 characters, each a
/// letter or `-`. Letters are the ASCII letters: language tags (BCP 47) are
/// written in ASCII, and this keeps the set of name keys small.
pub open spec fn valid_lang(l: Seq<char>) -> bool {
    2 <= l.len() <= 10 && forall|i: int| 0 <= i < l.len() ==> is_letter(#[trigger] l[i]) || l[i] == '-'
}

/// Whether a language code may become a name key.
pub fn is_valid_lang(lang: &str) -> (r: bool)
    ensures
        r == valid_lang(lang@),
{
    let cs = crate::text::chars_of(lang);
    if cs.len() < 2 || cs.len() > 10 {
        return false;
    }
    let mut i: usize = 0;
    while i < cs.len()
        invariant
            i <= cs@.len(),
            cs@ == lang@,
            forall|j: int| 0 <= j < i ==> is_letter(#[trigger] cs@[j]) || cs@[j] == '-',
        decreases cs@.len() - i,
    {
        let c = cs[i];
        if !(('a' <= c && c <= 'z') || ('A' <= c && c <= 'Z') || c == '-') {
            return false;
        }
        i = i + 1;
    }
    true
}

/// The name key a tag fills: `name` fills `"default"`, `name:<lang>` fills
/// `<lang>` when the language code is accepted.
pub open spec fn name_lang(k: Seq<char>) -> Option<Seq<char>> {
    if k == "name"@ {
        Some("default"@)
    } else if k.len() >= 5 && k.take(5) == "name:"@ && valid_lang(k.skip(5)) {
        Some(k.skip(5))
    } else {
        None
    }
}

/// Keys that carry a Wikidata item.
pub open spec fn is_wikidata_key(k: Seq<char>) -> bool {
    k == "wikidata"@ || k == "brand:wikidata"@
}

/// Keys that become `"key:value"` categories.
pub open spec fn is_category_key(k: Seq<char>) -> bool {
    k == "amenity"@ || k == "shop"@ || k == "tourism"@ || k == "leisure"@ || k == "cuisine"@ || k
        == "building"@ || k == "historic"@ || k == "office"@
}

/// The address part of an `addr:*` key: 0 house number, 1 street, 2 postcode, 3 city.
pub open spec fn addr_part(k: Seq<char>) -> int {
    if k == "addr:housenumber"@ {
        0
    } else if k == "addr:street"@ {
        1
    } else if k == "addr:postcode"@ {
        2
    } else if k == "addr:city"@ {
        3
    } else {
        -1
    }
}

/// One part of an optional address.
pub open spec fn addr_get(a: Option<Address>, part: int) -> Option<String> {
    if a.is_none() {
        None
    } else if part == 0 {
        a.unwrap().housenumber
    } else if part == 1 {
        a.unwrap().street
    } else if part == 2 {
        a.unwrap().postcode
    } else {
        a.unwrap().city
    }
}

/// The categories made from a list of tags, in order.
pub open spec fn categories_of(ps: Seq<(String, String)>) -> Seq<Seq<char>>
    decreases ps.len(),
{
    if ps.len() == 0 {
        Seq::empty()
    } else if is_category_key(ps.last().0@) {
        categories_of(ps.drop_last()).push(ps.last().0@ + ":"@ + ps.last().1@)
    } else {
        categories_of(ps.drop_last())
    }
}

/// The views of a list of strings.
pub open spec fn string_views(v: Seq<String>) -> Seq<Seq<char>> {
    Seq::new(v.len(), |i: int| v[i]@)
}

/// The language code after a `name:` prefix.
fn name_suffix(k: &str) -> (r: Option<String>)
    ensures
        r.is_some() == (k@.len() >= 5 && k@.take(5) == "name:"@),
        r.is_some() ==> r.unwrap()@ == k@.skip(5),
{
    let cs = chars_of(k);
    proof {
        reveal_strlit("name:");
    }
    if cs.len() < 5 || cs[0] != 'n' || cs[1] != 'a' || cs[2] != 'm' || cs[3] != 'e' || cs[4] != ':' {
        proof {
            if k@.len() >= 5 && k@.take(5) == "name:"@ {
                assert(k@.take(5)[0] == 'n' && k@.take(5)[1] == 'a' && k@.take(5)[2] == 'm' && k@.take(5)[3] == 'e'
                    && k@.take(5)[4] == ':');
            }
        }
        return None;
    }
    assert(k@.take(5) =~= "name:"@);
    let mut rest: Vec<char> = Vec::new();
    let mut i: usize = 5;
    while i < cs.len()
        invariant
            5 <= i <= cs@.len(),
            cs@ == k@,
            rest@ == k@.subrange(5, i as int),
        decreases cs@.len() - i,
    {
        rest.push(cs[i]);
        assert(k@.subrange(5, i + 1) =~= k@.subrange(5, i as int).push(k@[i as int]));
        i = i + 1;
    }
    assert(k@.subrange(5, k@.len() as int) =~= k@.skip(5));
    Some(string_of(&rest))
}

/// Apply one tag to a place: names, Wikidata item, address parts and categories.
pub fn apply_tag(place: &mut Place, key: &String, value: &String)
    requires
        place_consistent(*old(place)),
    ensures
        place_consistent(*final(place)),
        final(place).name@ == (match name_lang(key@) {
            Some(l) => old(place).name@.insert(l, value@),
            None => old(place).name@,
        }),
        final(place).phrase == (if name_lang(key@) == Some("default"@) {
            Some(*value)
        } else {
            old(place).phrase
        }),
        final(place).wikidata_id == (if is_wikidata_key(key@) {
            Some(*value)
        } else {
            old(place).wikidata_id
        }),
        forall|part: int|
            0 <= part < 4 ==> #[trigger] addr_get(final(place).address, part) == (if addr_part(key@) == part {
                Some(*value)
            } else {
                addr_get(old(place).address, part)
            }),
        final(place).address.is_some() == (old(place).address.is_some() || addr_part(key@) >= 0),
        string_views(final(place).categories@) == (if is_category_key(key@) {
            string_views(old(place).categories@).push(key@ + ":"@ + value@)
        } else {
            string_views(old(place).categories@)
        }),
        final(place).source_id == old(place).source_id,
        final(place).osm_type == old(place).osm_type,
        final(place).osm_id == old(place).osm_id,
        final(place).layer == old(place).layer,
        final(place).importance == old(place).importance,
        final(place).center_point == old(place).center_point,
        final(place).bbox == old(place).bbox,
        final(place).source_file == old(place).source_file,
        final(place).import_timestamp == old(place).import_timestamp,
{
    proof {
        reveal_strlit("name");
        reveal_strlit("name:");
        reveal_strlit("wikidata");
        reveal_strlit("brand:wikidata");
        reveal_strlit("addr:housenumber");
        reveal_strlit("addr:street");
        reveal_strlit("addr:postcode");
        reveal_strlit("addr:city");
        reveal_strlit("amenity");
        reveal_strlit("shop");
        reveal_strlit("tourism");
        reveal_strlit("leisure");
        reveal_strlit("cuisine");
        reveal_strlit("building");
        reveal_strlit("historic");
        reveal_strlit("office");
        if key@.len() >= 5 && key@.take(5) == "name:"@ {
            assert(key@[0] == key@.take(5)[0]);
        }
    }
    let k = key.as_str();
    if str_eq(k, "name") {
        proof {
            assert(key@[0] == 'n');
            assert(!is_category_key(key@));
        }
        place.add_name("default", value.clone());
        return;
    }
    match name_suffix(k) {
        Some(lang) => {
            if is_valid_lang(lang.as_str()) {
                place.add_name(lang.as_str(), value.clone());
            }
            return;
        },
        None => {},
    }
    if str_eq(k, "wikidata") || str_eq(k, "brand:wikidata") {
        proof {
            assert(key@.len() == 8 ==> key@[0] == 'w');
            assert(key@.len() == 8 || key@.len() == 14);
            assert(!is_category_key(key@));
        }
        place.wikidata_id = Some(value.clone());
        return;
    }
    let part: i8 = if str_eq(k, "addr:housenumber") {
        0
    } else if str_eq(k, "addr:street") {
        1
    } else if str_eq(k, "addr:postcode") {
        2
    } else if str_eq(k, "addr:city") {
        3
    } else {
        -1
    };
    if part >= 0 {
        let mut a = match &place.address {
            Some(a) => Address {
                housenumber: a.housenumber.clone(),
                street: a.street.clone(),
                postcode: a.postcode.clone(),
                city: a.city.clone(),
            },
            None => Address::empty(),
        };
        if part == 0 {
            a.housenumber = Some(value.clone());
        } else if part == 1 {
            a.street = Some(value.clone());
        } else if part == 2 {
            a.postcode = Some(value.clone());
        } else {
            a.city = Some(value.clone());
        }
        place.address = Some(a);
        return;
    }
    if str_eq(k, "amenity") || str_eq(k, "shop") || str_eq(k, "tourism") || str_eq(k, "leisure")
        || str_eq(k, "cuisine") || str_eq(k, "building") || str_eq(k, "historic") || str_eq(k, "office") {
        let ghost before = place.categories@;
        place.add_category(k, value.as_str());
        assert(string_views(place.categories@) =~= string_views(before).push(key@ + ":"@ + value@));
    }
}

/// Some tag fills name key `l`.
pub open spec fn name_sourced(t: Map<Seq<char>, Seq<char>>, l: Seq<char>) -> bool {
    exists|k: Seq<char>| #[trigger] t.contains_key(k) && name_lang(k) == Some(l)
}

/// Some tag carries a Wikidata item.
pub open spec fn wikidata_sourced(t: Map<Seq<char>, Seq<char>>) -> bool {
    exists|k: Seq<char>| #[trigger] t.contains_key(k) && is_wikidata_key(k)
}

/// The `addr:*` key of an address part.
pub open spec fn addr_key(part: int) -> Seq<char> {
    if part == 0 {
        "addr:housenumber"@
    } else if part == 1 {
        "addr:street"@
    } else if part == 2 {
        "addr:postcode"@
    } else {
        "addr:city"@
    }
}

/// The view of one address part.
pub open spec fn addr_view(a: Option<Address>, part: int) -> Option<Seq<char>> {
    if addr_get(a, part).is_some() {
        Some(addr_get(a, part).unwrap()@)
    } else {
        None
    }
}

/// What the tags do to a place's names, Wikidata item and address, read
/// against the place before (`p_start`) and after (`p_end`).
pub open spec fn tags_applied(p_start: Place, p_end: Place, t: Map<Seq<char>, Seq<char>>) -> bool {
    &&& forall|l: Seq<char>|
        #[trigger] p_end.name@.contains_key(l) == (p_start.name@.contains_key(l) || name_sourced(t, l))
    &&& forall|l: Seq<char>|
        #[trigger] name_sourced(t, l) ==> exists|k: Seq<char>|
            #[trigger] t.contains_key(k) && name_lang(k) == Some(l) && p_end.name@[l] == t[k]
    &&& forall|l: Seq<char>|
        !name_sourced(t, l) && #[trigger] p_start.name@.contains_key(l) ==> p_end.name@[l] == p_start.name@[l]
    &&& wikidata_sourced(t) ==> p_end.wikidata_id.is_some() && exists|k: Seq<char>|
        #[trigger] t.contains_key(k) && is_wikidata_key(k) && p_end.wikidata_id.unwrap()@ == t[k]
    &&& !name_sourced(t, "default"@) ==> p_end.phrase == p_start.phrase
    &&& !wikidata_sourced(t) ==> p_end.wikidata_id == p_start.wikidata_id
    &&& forall|part: int|
        0 <= part < 4 ==> #[trigger] addr_view(p_end.address, part) == (if t.contains_key(addr_key(part)) {
            Some(t[addr_key(part)])
        } else {
            addr_view(p_start.address, part)
        })
}

proof fn lemma_addr_key(k: Seq<char>, part: int)
    requires
        0 <= part < 4,
    ensures
        (addr_part(k) == part) == (k == addr_key(part)),
{
    reveal_strlit("addr:housenumber");
    reveal_strlit("addr:street");
    reveal_strlit("addr:postcode");
    reveal_strlit("addr:city");
    assert("addr:street"@ != "addr:postcode"@) by {
        assert("addr:street"@[5] != "addr:postcode"@[5]);
    }
    assert("addr:street"@ != "addr:city"@) by {
        assert("addr:street"@[5] != "addr:city"@[5]);
    }
    assert("addr:postcode"@ != "addr:city"@) by {
        assert("addr:postcode"@[5] != "addr:city"@[5]);
    }
}

/// Apply all tags of an object to a place, in the tags' order.
pub fn extract_tags(place: &mut Place, tags: &Tags)
    requires
        place_consistent(*old(place)),
    ensures
        place_consistent(*final(place)),
        tags_applied(*old(place), *final(place), tags@),
        string_views(final(place).categories@) == string_views(old(place).categories@) + categories_of(
            tags.pairs_spec(),
        ),
        final(place).source_id == old(place).source_id,
        final(place).osm_type == old(place).osm_type,
        final(place).osm_id == old(place).osm_id,
        final(place).layer == old(place).layer,
        final(place).importance == old(place).importance,
        final(place).center_point == old(place).center_point,
        final(place).bbox == old(place).bbox,
        final(place).source_file == old(place).source_file,
        final(place).import_timestamp == old(place).import_timestamp,
{
    let ps = tags.pairs();
    let ghost p_start = *place;
    let mut i: usize = 0;
    assert(pairs_map(ps@.take(0)) =~= Map::<Seq<char>, Seq<char>>::empty());
    assert(categories_of(ps@.take(0)) =~= Seq::<Seq<char>>::empty());
    assert(string_views(p_start.categories@) + categories_of(ps@.take(0)) =~= string_views(p_start.categories@));
    while i < ps.len()
        invariant
            i <= ps@.len(),
            ps@ == tags.pairs_spec(),
            keys_distinct(ps@),
            pairs_map(ps@) == tags@,
            place_consistent(*place),
            tags_applied(p_start, *place, pairs_map(ps@.take(i as int))),
            string_views(place.categories@) == string_views(p_start.categories@) + categories_of(ps@.take(i as int)),
            place.source_id == p_start.source_id,
            place.osm_type == p_start.osm_type,
            place.osm_id == p_start.osm_id,
            place.layer == p_start.layer,
            place.importance == p_start.importance,
            place.center_point == p_start.center_point,
            place.bbox == p_start.bbox,
            place.source_file == p_start.source_file,
            place.import_timestamp == p_start.import_timestamp,
        decreases ps@.len() - i,
    {
        let ghost before = *place;
        let (k, v) = &ps[i];
        apply_tag(place, k, v);
        proof {
            lemma_pairs_map_take(ps@, i as int);
            let pm = pairs_map(ps@.take(i as int));
            let pm1 = pairs_map(ps@.take(i + 1));
            assert(pm1 == pm.insert(k@, v@));
            assert(!pm.contains_key(k@));
            let t1 = ps@.take(i + 1);
            assert(t1.drop_last() =~= ps@.take(i as int));
            assert(t1.last() == ps@[i as int]);
            assert(string_views(place.categories@) == string_views(p_start.categories@) + categories_of(t1));
            assert forall|l: Seq<char>|
                #[trigger] place.name@.contains_key(l) == (p_start.name@.contains_key(l) || name_sourced(pm1, l)) by {
                if name_sourced(pm, l) {
                    let k0 = choose|k0: Seq<char>| #[trigger] pm.contains_key(k0) && name_lang(k0) == Some(l);
                    assert(pm1.contains_key(k0));
                }
                if name_lang(k@) == Some(l) {
                    assert(pm1.contains_key(k@));
                }
                if name_sourced(pm1, l) && name_lang(k@) != Some(l) {
                    let k0 = choose|k0: Seq<char>| #[trigger] pm1.contains_key(k0) && name_lang(k0) == Some(l);
                    assert(pm.contains_key(k0));
                }
            }
            assert forall|l: Seq<char>| #[trigger] name_sourced(pm1, l) implies exists|kk: Seq<char>|
                #[trigger] pm1.contains_key(kk) && name_lang(kk) == Some(l) && place.name@[l] == pm1[kk] by {
                if name_lang(k@) == Some(l) {
                    assert(pm1.contains_key(k@) && pm1[k@] == v@);
                } else {
                    let k0 = choose|k0: Seq<char>| #[trigger] pm1.contains_key(k0) && name_lang(k0) == Some(l);
                    assert(pm.contains_key(k0));
                    assert(name_sourced(pm, l));
                    let k1 = choose|k1: Seq<char>|
                        #[trigger] pm.contains_key(k1) && name_lang(k1) == Some(l) && before.name@[l] == pm[k1];
                    assert(pm1.contains_key(k1) && pm1[k1] == pm[k1]);
                }
            }
            assert forall|l: Seq<char>|
                !name_sourced(pm1, l) && #[trigger] p_start.name@.contains_key(l) implies place.name@[l] == p_start.name@[l] by {
                if name_lang(k@) == Some(l) {
                    assert(pm1.contains_key(k@));
                }
                if name_sourced(pm, l) {
                    let k0 = choose|k0: Seq<char>| #[trigger] pm.contains_key(k0) && name_lang(k0) == Some(l);
                    assert(pm1.contains_key(k0));
                }
            }
            if !name_sourced(pm1, "default"@) {
                if name_lang(k@) == Some("default"@) {
                    assert(pm1.contains_key(k@));
                }
                if name_sourced(pm, "default"@) {
                    let k0 = choose|k0: Seq<char>| #[trigger] pm.contains_key(k0) && name_lang(k0) == Some("default"@);
                    assert(pm1.contains_key(k0));
                }
            }
            if wikidata_sourced(pm1) {
                if is_wikidata_key(k@) {
                    assert(pm1.contains_key(k@) && pm1[k@] == v@);
                } else {
                    let k0 = choose|k0: Seq<char>| #[trigger] pm1.contains_key(k0) && is_wikidata_key(k0);
                    assert(pm.contains_key(k0));
                    assert(wikidata_sourced(pm));
                    let k1 = choose|k1: Seq<char>|
                        #[trigger] pm.contains_key(k1) && is_wikidata_key(k1) && before.wikidata_id.unwrap()@ == pm[k1];
                    assert(pm1.contains_key(k1) && pm1[k1] == pm[k1]);
                }
            } else {
                if is_wikidata_key(k@) {
                    assert(pm1.contains_key(k@));
                }
                if wikidata_sourced(pm) {
                    let k0 = choose|k0: Seq<char>| #[trigger] pm.contains_key(k0) && is_wikidata_key(k0);
                    assert(pm1.contains_key(k0));
                }
            }
            assert forall|part: int| 0 <= part < 4 implies #[trigger] addr_view(place.address, part) == (if pm1.contains_key(
                addr_key(part),
            ) {
                Some(pm1[addr_key(part)])
            } else {
                addr_view(p_start.address, part)
            }) by {
                lemma_addr_key(k@, part);
                assert(addr_view(before.address, part) == (if pm.contains_key(addr_key(part)) {
                    Some(pm[addr_key(part)])
                } else {
                    addr_view(p_start.address, part)
                }));
            }
        }
        i = i + 1;
    }
    assert(ps@.take(ps@.len() as int) =~= ps@);
}

/// The names, Wikidata item and address of a place are exactly what the tags give.
pub open spec fn tags_filled(p: Place, t: Map<Seq<char>, Seq<char>>) -> bool {
    &&& forall|l: Seq<char>| #[trigger] p.name@.contains_key(l) == name_sourced(t, l)
    &&& forall|l: Seq<char>|
        #[trigger] name_sourced(t, l) ==> exists|k: Seq<char>|
            #[trigger] t.contains_key(k) && name_lang(k) == Some(l) && p.name@[l] == t[k]
    &&& wikidata_sourced(t) ==> p.wikidata_id.is_some() && exists|k: Seq<char>|
        #[trigger] t.contains_key(k) && is_wikidata_key(k) && p.wikidata_id.unwrap()@ == t[k]
    &&& !name_sourced(t, "default"@) ==> p.phrase.is_none()
    &&& !wikidata_sourced(t) ==> p.wikidata_id.is_none()
    &&& forall|part: int|
        0 <= part < 4 ==> #[trigger] addr_view(p.address, part) == (if t.contains_key(addr_key(part)) {
            Some(t[addr_key(part)])
        } else {
            None
        })
}

/// A place for an OSM object, when it has a name and a layer. The center
/// and envelope come from the object's geometry.
pub fn extract_place(
    osm_type: OsmType,
    osm_id: i64,
    tags: &Tags,
    center: Coord,
    bbox: Option<GeoBbox>,
    source_file: &str,
    import_timestamp: i64,
) -> (r: Option<Place>)
    ensures
        r.is_some() == (tags@.contains_key("name"@) && layer_of(tags@).is_some()),
        r.is_some() ==> {
            let p = r.unwrap();
            &&& place_consistent(p)
            &&& p.osm_type == osm_type
            &&& p.osm_id == osm_id
            &&& Some(p.layer) == layer_of(tags@)
            &&& p.center_point == center
            &&& p.bbox == bbox
            &&& p.importance == Some(default_importance(tags@))
            &&& p.source_file@ == source_file@
            &&& p.import_timestamp == import_timestamp
            &&& p.name@.contains_key("default"@)
            &&& tags_filled(p, tags@)
            &&& string_views(p.categories@) == categories_of(tags.pairs_spec())
        },
{
    if !has_relevant_tags(tags) {
        return None;
    }
    let layer = match determine_layer(tags) {
        Some(l) => l,
        None => return None,
    };
    let mut place = Place::new(osm_type, osm_id, layer, center, source_file, import_timestamp);
    place.bbox = bbox;
    place.importance = Some(calculate_default_importance(tags));
    let ghost p_start = place;
    extract_tags(&mut place, tags);
    proof {
        assert(name_lang("name"@) == Some("default"@));
        assert(name_sourced(tags@, "default"@));
        assert(string_views(p_start.categories@) =~= Seq::<Seq<char>>::empty());
        assert(string_views(place.categories@) =~= categories_of(tags.pairs_spec()));
        assert forall|part: int| 0 <= part < 4 implies #[trigger] addr_view(p_start.address, part).is_none() by {}
        assert forall|l: Seq<char>| #[trigger] place.name@.contains_key(l) == name_sourced(tags@, l) by {
            assert(!p_start.name@.contains_key(l));
        }
    }
    Some(place)
}

/// Value of a decimal digit character.
pub open spec fn digit_value(c: char) -> int {
    c as int - '0' as int
}

/// Value of a string of decimal digits.
pub open spec fn digits_value(s: Seq<char>) -> int
    decreases s.len(),
{
    if s.len() == 0 {
        0
    } else {
        digits_value(s.drop_last()) * 10 + digit_value(s.last())
    }
}

/// All characters are ASCII digits.
pub open spec fn all_digits(s: Seq<char>) -> bool {
    forall|i: int| 0 <= i < s.len() ==> '0' <= #[trigger] s[i] <= '9'
}

/// The number an `admin_level` value denotes: one to three digits, at most 255.
pub open spec fn level_number(s: Seq<char>) -> Option<u8> {
    if 1 <= s.len() <= 3 && all_digits(s) && digits_value(s) <= 255 {
        Some(digits_value(s) as u8)
    } else {
        None
    }
}

/// Read an `admin_level` number.
pub fn parse_level(s: &str) -> (r: Option<u8>)
    ensures
        r == level_number(s@),
{
    let cs = chars_of(s);
    if cs.len() < 1 || cs.len() > 3 {
        return None;
    }
    let mut v: u32 = 0;
    let mut i: usize = 0;
    while i < cs.len()
        invariant
            i <= cs@.len(),
            cs@.len() <= 3,
            cs@ == s@,
            all_digits(cs@.take(i as int)),
            v == digits_value(cs@.take(i as int)),
            v < 1000,
            i == 0 ==> v == 0,
            i == 1 ==> v < 10,
            i == 2 ==> v < 100,
            i == 3 ==> v < 1000,
        decreases cs@.len() - i,
    {
        let c = cs[i];
        if c < '0' || c > '9' {
            assert(!all_digits(s@)) by {
                assert(s@[i as int] == c);
            }
            return None;
        }
        let d = (c as u32) - ('0' as u32);
        let ghost t = cs@.take(i as int);
        let ghost t1 = cs@.take(i + 1);
        assert(t1.drop_last() =~= t);
        assert(t1.last() == c);
        v = v * 10 + d;
        i = i + 1;
        assert(all_digits(cs@.take(i as int))) by {
            assert forall|j: int| 0 <= j < t1.len() implies '0' <= #[trigger] t1[j] <= '9' by {
                if j < t.len() {
                    assert(t1[j] == t[j]);
                }
            }
        }
    }
    assert(cs@.take(cs@.len() as int) =~= cs@);
    if v > 255 {
        return None;
    }
    Some(v as u8)
}

/// The ISO country code of an area's tags: `ISO3166-1:alpha2`, else
/// `ISO3166-1`, else `ISO3166-1:alpha3`.
pub open spec fn iso_code_of(t: Map<Seq<char>, Seq<char>>) -> Option<Seq<char>> {
    if t.contains_key("ISO3166-1:alpha2"@) {
        Some(t["ISO3166-1:alpha2"@])
    } else if t.contains_key("ISO3166-1"@) {
        Some(t["ISO3166-1"@])
    } else if t.contains_key("ISO3166-1:alpha3"@) {
        Some(t["ISO3166-1:alpha3"@])
    } else {
        None
    }
}

/// The abbreviation of an area's tags: `ISO3166-1:alpha2`, else
/// `ISO3166-1:alpha3`, else `short_name`.
pub open spec fn abbr_of(t: Map<Seq<char>, Seq<char>>) -> Option<Seq<char>> {
    if t.contains_key("ISO3166-1:alpha2"@) {
        Some(t["ISO3166-1:alpha2"@])
    } else if t.contains_key("ISO3166-1:alpha3"@) {
        Some(t["ISO3166-1:alpha3"@])
    } else if t.contains_key("short_name"@) {
        Some(t["short_name"@])
    } else {
        None
    }
}

/// View of an optional string.
pub open spec fn opt_str(o: Option<String>) -> Option<Seq<char>> {
    if o.is_some() {
        Some(o.unwrap()@)
    } else {
        None
    }
}

fn first_tag(tags: &Tags, a: &str, b: &str, c: &str) -> (r: Option<String>)
    ensures
        opt_str(r) == (if tags@.contains_key(a@) {
            Some(tags@[a@])
        } else if tags@.contains_key(b@) {
            Some(tags@[b@])
        } else if tags@.contains_key(c@) {
            Some(tags@[c@])
        } else {
            None
        }),
{
    if let Some(v) = tags.get(a) {
        return Some(v.clone());
    }
    if let Some(v) = tags.get(b) {
        return Some(v.clone());
    }
    if let Some(v) = tags.get(c) {
        return Some(v.clone());
    }
    None
}

/// The admin level of boundary tags: `boundary=administrative`, `type` of
/// `boundary` or `multipolygon`, and an `admin_level` that maps to a level.
pub open spec fn boundary_level(t: Map<Seq<char>, Seq<char>>) -> Option<AdminLevel> {
    if has_tag(t, "boundary"@, "administrative"@) && (has_tag(t, "type"@, "boundary"@) || has_tag(
        t,
        "type"@,
        "multipolygon"@,
    )) && t.contains_key("admin_level"@) && level_number(t["admin_level"@]).is_some() {
        level_of_osm(level_number(t["admin_level"@]).unwrap())
    } else {
        None
    }
}

/// Whether boundary tags give an admin area: a level, an ISO code for a
/// country, and at least one name.
pub open spec fn is_admin_area(t: Map<Seq<char>, Seq<char>>) -> bool {
    &&& boundary_level(t).is_some()
    &&& (boundary_level(t) == Some(AdminLevel::Country) ==> iso_code_of(t).is_some())
    &&& exists|k: Seq<char>| #[trigger] t.contains_key(k) && admin_name_key(k).is_some()
}

/// The name key a boundary tag fills: `name` fills `"default"`, `name:<lang>` fills `<lang>`.
pub open spec fn admin_name_key(k: Seq<char>) -> Option<Seq<char>> {
    if k == "name"@ {
        Some("default"@)
    } else if k.len() >= 5 && k.take(5) == "name:"@ {
        Some(k.skip(5))
    } else {
        None
    }
}

/// The admin area described by a boundary relation's tags; its bbox comes
/// later, from the resolved geometry.
pub fn admin_area_from_tags(osm_id: i64, tags: &Tags) -> (r: Option<AdminArea>)
    ensures
        r.is_some() == is_admin_area(tags@),
        r.is_some() ==> {
            let a = r.unwrap();
            &&& a.osm_id == osm_id
            &&& Some(a.level) == boundary_level(tags@)
            &&& opt_str(a.abbr) == abbr_of(tags@)
            &&& opt_str(a.iso_country_code) == iso_code_of(tags@)
            &&& opt_str(a.wikidata_id) == (if tags@.contains_key("wikidata"@) {
                Some(tags@["wikidata"@])
            } else {
                None
            })
            &&& a.bbox.is_none()
            &&& forall|l: Seq<char>|
                #[trigger] a.name@.contains_key(l) == exists|k: Seq<char>|
                    #[trigger] tags@.contains_key(k) && admin_name_key(k) == Some(l)
            &&& forall|l: Seq<char>|
                #[trigger] a.name@.contains_key(l) ==> exists|k: Seq<char>|
                    #[trigger] tags@.contains_key(k) && admin_name_key(k) == Some(l) && a.name@[l] == tags@[k]
        },
{
    if !(tag_is(tags, "boundary", "administrative") && (tag_is(tags, "type", "boundary") || tag_is(
        tags,
        "type",
        "multipolygon",
    ))) {
        return None;
    }
    let level_text = match tags.get("admin_level") {
        Some(l) => l,
        None => return None,
    };
    let n = match parse_level(level_text.as_str()) {
        Some(n) => n,
        None => return None,
    };
    let level = match AdminLevel::from_osm_level(n) {
        Some(l) => l,
        None => return None,
    };
    let iso = first_tag(tags, "ISO3166-1:alpha2", "ISO3166-1", "ISO3166-1:alpha3");
    if level == AdminLevel::Country && iso.is_none() {
        return None;
    }
    let mut area = AdminArea::new(osm_id, level);
    area.iso_country_code = iso;
    area.abbr = first_tag(tags, "ISO3166-1:alpha2", "ISO3166-1:alpha3", "short_name");
    area.wikidata_id = match tags.get("wikidata") {
        Some(w) => Some(w.clone()),
        None => None,
    };
    let ps = tags.pairs();
    let mut i: usize = 0;
    proof {
        reveal_strlit("name");
        reveal_strlit("name:");
    }
    while i < ps.len()
        invariant
            i <= ps@.len(),
            keys_distinct(ps@),
            pairs_map(ps@) == tags@,
            area.osm_id == osm_id,
            area.level == level,
            Some(level) == boundary_level(tags@),
            level == AdminLevel::Country ==> iso_code_of(tags@).is_some(),
            area.bbox.is_none(),
            opt_str(area.abbr) == abbr_of(tags@),
            opt_str(area.iso_country_code) == iso_code_of(tags@),
            opt_str(area.wikidata_id) == (if tags@.contains_key("wikidata"@) {
                Some(tags@["wikidata"@])
            } else {
                None
            }),
            forall|l: Seq<char>|
                #[trigger] area.name@.contains_key(l) == exists|j: int|
                    0 <= j < i && admin_name_key(#[trigger] ps@[j].0@) == Some(l),
            forall|l: Seq<char>|
                #[trigger] area.name@.contains_key(l) ==> exists|j: int|
                    0 <= j < i && admin_name_key(#[trigger] ps@[j].0@) == Some(l) && area.name@[l] == ps@[j].1@,
        decreases ps@.len() - i,
    {
        let (k, v) = &ps[i];
        let ghost before = area.name@;
        if str_eq(k.as_str(), "name") {
            area.name.insert("default".to_owned(), v.clone());
        } else {
            match name_suffix(k.as_str()) {
                Some(lang) => {
                    area.name.insert(lang, v.clone());
                },
                None => {},
            }
        }
        proof {
            let key = admin_name_key(k@);
            assert(area.name@ == (match key {
                Some(l) => before.insert(l, v@),
                None => before,
            }));
            assert forall|l: Seq<char>|
                #[trigger] area.name@.contains_key(l) == exists|j: int|
                    0 <= j < i + 1 && admin_name_key(#[trigger] ps@[j].0@) == Some(l) by {
                if key == Some(l) {
                    assert(admin_name_key(ps@[i as int].0@) == Some(l));
                }
                if exists|j: int| 0 <= j < i + 1 && admin_name_key(#[trigger] ps@[j].0@) == Some(l) {
                    let j = choose|j: int| 0 <= j < i + 1 && admin_name_key(#[trigger] ps@[j].0@) == Some(l);
                    if j < i {
                        assert(before.contains_key(l));
                    }
                }
            }
            assert forall|l: Seq<char>|
                #[trigger] area.name@.contains_key(l) implies exists|j: int|
                    0 <= j < i + 1 && admin_name_key(#[trigger] ps@[j].0@) == Some(l) && area.name@[l] == ps@[j].1@ by {
                if key == Some(l) {
                    assert(admin_name_key(ps@[i as int].0@) == Some(l) && area.name@[l] == ps@[i as int].1@);
                } else {
                    assert(before.contains_key(l));
                    let j = choose|j: int|
                        0 <= j < i && admin_name_key(#[trigger] ps@[j].0@) == Some(l) && before[l] == ps@[j].1@;
                    assert(admin_name_key(ps@[j].0@) == Some(l) && area.name@[l] == ps@[j].1@);
                }
            }
        }
        i = i + 1;
    }
    let has_names = !area.name.is_empty();
    proof {
        assert forall|l: Seq<char>|
            #[trigger] area.name@.contains_key(l) == exists|k: Seq<char>|
                #[trigger] tags@.contains_key(k) && admin_name_key(k) == Some(l) by {
            if area.name@.contains_key(l) {
                let j = choose|j: int| 0 <= j < ps@.len() && admin_name_key(#[trigger] ps@[j].0@) == Some(l);
                lemma_pairs_map_at(ps@, j);
            }
            if exists|k: Seq<char>| #[trigger] tags@.contains_key(k) && admin_name_key(k) == Some(l) {
                let k = choose|k: Seq<char>| #[trigger] tags@.contains_key(k) && admin_name_key(k) == Some(l);
                let j = choose|j: int| 0 <= j < ps@.len() && ps@[j].0@ == k;
                assert(admin_name_key(ps@[j].0@) == Some(l));
            }
        }
        assert forall|l: Seq<char>|
            #[trigger] area.name@.contains_key(l) implies exists|k: Seq<char>|
                #[trigger] tags@.contains_key(k) && admin_name_key(k) == Some(l) && area.name@[l] == tags@[k] by {
            let j = choose|j: int|
                0 <= j < ps@.len() && admin_name_key(#[trigger] ps@[j].0@) == Some(l) && area.name@[l] == ps@[j].1@;
            lemma_pairs_map_at(ps@, j);
        }
        if exists|k: Seq<char>| #[trigger] tags@.contains_key(k) && admin_name_key(k).is_some() {
            let k = choose|k: Seq<char>| #[trigger] tags@.contains_key(k) && admin_name_key(k).is_some();
            assert(area.name@.contains_key(admin_name_key(k).unwrap()));
        }
        if has_names {
            if !exists|l: Seq<char>| #[trigger] area.name@.contains_key(l) {
                assert(area.name@ =~= Map::<Seq<char>, Seq<char>>::empty());
            }
            let l = choose|l: Seq<char>| #[trigger] area.name@.contains_key(l);
            let k = choose|k: Seq<char>| #[trigger] tags@.contains_key(k) && admin_name_key(k) == Some(l);
            assert(tags@.contains_key(k) && admin_name_key(k).is_some());
        }
    }
    if !has_names {
        return None;
    }
    Some(area)
}

/// The admin-layer place of a boundary, at the center and envelope of its
/// geometry, with the names and Wikidata item of its area and the parents
/// found for it.
pub fn admin_place(
    area: &AdminArea,
    center: Coord,
    bbox: Option<GeoBbox>,
    parent: AdminHierarchy,
    source_file: &str,
    import_timestamp: i64,
) -> (r: Place)
    ensures
        place_consistent(r),
        r.osm_type == OsmType::Relation,
        r.osm_id == area.osm_id,
        r.layer == Layer::Admin,
        r.name@ == area.name@,
        r.wikidata_id == area.wikidata_id,
        r.center_point == center,
        r.bbox == bbox,
        r.parent == parent,
{
    let mut place = Place::new(OsmType::Relation, area.osm_id, Layer::Admin, center, source_file, import_timestamp);
    place.name = area.name.clone();
    place.phrase = match area.name.get("default") {
        Some(n) => Some(n.clone()),
        None => None,
    };
    place.wikidata_id = area.wikidata_id.clone();
    place.bbox = bbox;
    place.parent = parent;
    place
}

/// Normalize the `name` tag of a road before it is grouped.
pub fn normalize_road_name(tags: &mut Tags, syn: &SynonymService)
    ensures
        old(tags)@.contains_key("name"@) ==> final(tags)@ == old(tags)@.insert(
            "name"@,
            normalized(syn@, old(tags)@["name"@]),
        ),
        !old(tags)@.contains_key("name"@) ==> final(tags)@ == old(tags)@,
{
    let n = match tags.get("name") {
        Some(n) => syn.normalize(n.as_str()),
        None => return,
    };
    tags.insert("name".to_owned(), n);
}

/// The view of an optional string after synonym normalization.
pub open spec fn normalized_opt(rep: Map<Seq<char>, Seq<char>>, o: Option<String>) -> Option<Seq<char>> {
    if o.is_some() {
        Some(normalized(rep, o.unwrap()@))
    } else {
        None
    }
}

fn normalize_opt(syn: &SynonymService, o: &Option<String>) -> (r: Option<String>)
    ensures
        opt_str(r) == normalized_opt(syn@, *o),
{
    match o {
        Some(v) => Some(syn.normalize(v.as_str())),
        None => None,
    }
}

/// Apply synonym normalization to a place: its default name (and so its
/// phrase) and the street and city of its address; nothing else changes.
pub fn normalize_place_names(place: &mut Place, syn: &SynonymService)
    requires
        place_consistent(*old(place)),
    ensures
        place_consistent(*final(place)),
        old(place).name@.contains_key("default"@) ==> final(place).name@ == old(place).name@.insert(
            "default"@,
            normalized(syn@, old(place).name@["default"@]),
        ),
        !old(place).name@.contains_key("default"@) ==> final(place).name@ == old(place).name@
            && final(place).phrase == old(place).phrase,
        final(place).address.is_some() == old(place).address.is_some(),
        old(place).address.is_some() ==> {
            let a0 = old(place).address.unwrap();
            let a1 = final(place).address.unwrap();
            &&& opt_str(a1.street) == normalized_opt(syn@, a0.street)
            &&& opt_str(a1.city) == normalized_opt(syn@, a0.city)
            &&& a1.housenumber == a0.housenumber
            &&& a1.postcode == a0.postcode
        },
        final(place).source_id == old(place).source_id,
        final(place).osm_type == old(place).osm_type,
        final(place).osm_id == old(place).osm_id,
        final(place).layer == old(place).layer,
        final(place).categories == old(place).categories,
        final(place).wikidata_id == old(place).wikidata_id,
        final(place).importance == old(place).importance,
        final(place).center_point == old(place).center_point,
        final(place).bbox == old(place).bbox,
        final(place).parent == old(place).parent,
{
    let d = match place.name.get("default") {
        Some(n) => Some(syn.normalize(n.as_str())),
        None => None,
    };
    if let Some(n) = d {
        place.add_name("default", n);
    }
    let a = match &place.address {
        Some(a) => Some(Address {
            housenumber: a.housenumber.clone(),
            street: normalize_opt(syn, &a.street),
            postcode: a.postcode.clone(),
            city: normalize_opt(syn, &a.city),
        }),
        None => None,
    };
    place.address = a;
}

/// The text after the last `/` (all of it when there is none).
pub open spec fn after_last_slash(s: Seq<char>) -> Seq<char>
    decreases s.len(),
{
    if s.len() == 0 {
        s
    } else if s.last() == '/' {
        Seq::empty()
    } else {
        after_last_slash(s.drop_last()).push(s.last())
    }
}

/// One label row of a Wikidata answer as (Q-id, language, label): the Q-id
/// is the last segment of the item URI, a row without a language is the
/// default label, and a row whose URI ends in `/` gives nothing.
pub fn label_entry(item_uri: &str, lang: Option<String>, label: String) -> (r: Option<(String, String, String)>)
    ensures
        r.is_some() == (after_last_slash(item_uri@).len() > 0),
        r.is_some() ==> {
            let (q, l, v) = r.unwrap();
            &&& q@ == after_last_slash(item_uri@)
            &&& l@ == (match lang {
                Some(x) => x@,
                None => "default"@,
            })
            &&& v == label
        },
{
    let cs = chars_of(item_uri);
    let mut seg: Vec<char> = Vec::new();
    let mut i: usize = 0;
    while i < cs.len()
        invariant
            i <= cs@.len(),
            cs@ == item_uri@,
            seg@ == after_last_slash(cs@.take(i as int)),
        decreases cs@.len() - i,
    {
        let ghost t1 = cs@.take(i + 1);
        assert(t1.drop_last() =~= cs@.take(i as int));
        if cs[i] == '/' {
            seg = Vec::new();
            assert(seg@ =~= after_last_slash(t1));
        } else {
            seg.push(cs[i]);
        }
        i = i + 1;
    }
    assert(cs@.take(cs@.len() as int) =~= cs@);
    if seg.len() == 0 {
        return None;
    }
    let l = match lang {
        Some(x) => x,
        None => "default".to_owned(),
    };
    Some((string_of(&seg), l, label))
}

} // verus!
