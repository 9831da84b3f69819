use cypress::extract::{admin_area_from_tags, choose_importance, extract_place};
use cypress::models::{AdminArea, AdminLevel, Coord, Layer, NameMap, OsmType};
use cypress::pip::{assemble_hierarchy, PipCandidate};

fn area(id: i64, level: AdminLevel, name: &str, iso: Option<&str>, abbr: Option<&str>) -> AdminArea {
    let mut a = AdminArea::new(id, level);
    a.name.insert("default".to_string(), name.to_string());
    a.iso_country_code = iso.map(|s| s.to_string());
    a.abbr = abbr.map(|s| s.to_string());
    a
}

fn cand(a: AdminArea, size: u64) -> PipCandidate {
    PipCandidate { area: a, area_size: size }
}

#[test]
fn test_empty_hierarchy() {
    let hierarchy = assemble_hierarchy(&vec![], None);
    assert!(hierarchy.country.is_none());
}

#[test]
fn single_country_gives_its_abbreviation() {
    let c = vec![
        cand(area(51701, AdminLevel::Country, "Schweiz", Some("CH"), Some("CH")), 41_000),
        cand(area(1686344, AdminLevel::Region, "Zürich", None, None), 1_700),
    ];
    let h = assemble_hierarchy(&c, None);
    let country = h.country.as_ref().unwrap();
    assert_eq!(country.abbr, Some("CH".to_string()));
    assert_eq!(country.id, Some(51701));
    assert_eq!(country.name, Some("Schweiz".to_string()));
    assert_eq!(h.region.as_ref().unwrap().id, Some(1686344));
    assert!(h.county.is_none());
}

#[test]
fn enclave_smaller_area_wins() {
    let c = vec![
        cand(area(1, AdminLevel::Locality, "Large", None, None), 500),
        cand(area(2, AdminLevel::Locality, "Enclave", None, None), 3),
    ];
    let h = assemble_hierarchy(&c, None);
    assert_eq!(h.locality.unwrap().id, Some(2));
}

#[test]
fn enclave_country_follows_region_code() {
    let c = vec![
        cand(area(365331, AdminLevel::Country, "Italia", Some("IT"), Some("IT")), 300_000),
        cand(area(36989, AdminLevel::Country, "Città del Vaticano", Some("VA"), Some("VA")), 1),
        cand(area(77, AdminLevel::Region, "Vaticano", Some("VA"), None), 1),
    ];
    let h = assemble_hierarchy(&c, None);
    assert_eq!(h.country.as_ref().unwrap().abbr, Some("VA".to_string()));
    assert!(h.region.as_ref().unwrap().id.is_some());
}

#[test]
fn country_code_from_region_beats_smaller_foreign_country() {
    let c = vec![
        cand(area(10, AdminLevel::Country, "A", Some("AA"), Some("AA")), 900),
        cand(area(20, AdminLevel::Country, "B", Some("BB"), Some("BB")), 5),
        cand(area(30, AdminLevel::Region, "Region of A", Some("AA"), None), 50),
    ];
    let h = assemble_hierarchy(&c, None);
    assert_eq!(h.country.unwrap().id, Some(10));
}

#[test]
fn limit_level_drops_self_and_below() {
    let c = vec![
        cand(area(1, AdminLevel::Country, "A", Some("AA"), Some("AA")), 900),
        cand(area(2, AdminLevel::Region, "R", None, None), 50),
        cand(area(3, AdminLevel::County, "C", None, None), 5),
    ];
    let h = assemble_hierarchy(&c, Some(AdminLevel::Region));
    assert!(h.country.is_some());
    assert!(h.region.is_none());
    assert!(h.county.is_none());
}

#[test]
fn single_node_poi_with_country_parent() {
    let mut tags = NameMap::new();
    tags.insert("name".to_string(), "Opernhaus".to_string());
    tags.insert("amenity".to_string(), "theatre".to_string());
    tags.insert("wikidata".to_string(), "Q684092".to_string());
    let at = Coord { lon: 85_400_000, lat: 473_700_000 };
    let mut p = extract_place(OsmType::Node, 1, &tags, at, None, "zurich.pbf", 0).unwrap();
    assert_eq!(p.source_id, "node/1");
    assert_eq!(p.layer, Layer::Venue);
    assert_eq!(p.name.get("default"), Some(&"Opernhaus".to_string()));
    assert_eq!(p.phrase, Some("Opernhaus".to_string()));
    assert_eq!(p.categories, vec!["amenity:theatre".to_string()]);
    assert_eq!(p.wikidata_id, Some("Q684092".to_string()));
    assert_eq!(p.importance, Some(10_000));
    let c = vec![cand(area(51701, AdminLevel::Country, "Schweiz", Some("CH"), Some("CH")), 41_000)];
    p.parent = assemble_hierarchy(&c, None);
    assert_eq!(p.parent.country.as_ref().unwrap().abbr, Some("CH".to_string()));
    assert_eq!(choose_importance(p.importance.unwrap(), Some(730_000)), 730_000);
    assert_eq!(choose_importance(p.importance.unwrap(), None), 10_000);
}

#[test]
fn admin_area_tags() {
    let mut t = NameMap::new();
    for (k, v) in [
        ("boundary", "administrative"),
        ("type", "boundary"),
        ("admin_level", "2"),
        ("name", "Schweiz"),
        ("name:fr", "Suisse"),
        ("ISO3166-1:alpha2", "CH"),
        ("wikidata", "Q39"),
    ] {
        t.insert(k.to_string(), v.to_string());
    }
    let a = admin_area_from_tags(51701, &t).unwrap();
    assert_eq!(a.level, AdminLevel::Country);
    assert_eq!(a.abbr, Some("CH".to_string()));
    assert_eq!(a.iso_country_code, Some("CH".to_string()));
    assert_eq!(a.wikidata_id, Some("Q39".to_string()));
    assert_eq!(a.default_name(), Some(&"Schweiz".to_string()));
    assert_eq!(a.name.get("fr"), Some(&"Suisse".to_string()));

    let mut no_iso = NameMap::new();
    for (k, v) in [("boundary", "administrative"), ("type", "boundary"), ("admin_level", "2"), ("name", "X")] {
        no_iso.insert(k.to_string(), v.to_string());
    }
    assert!(admin_area_from_tags(1, &no_iso).is_none());

    let mut region = NameMap::new();
    for (k, v) in [("boundary", "administrative"), ("type", "multipolygon"), ("admin_level", "11"), ("name", "Kreis 1")] {
        region.insert(k.to_string(), v.to_string());
    }
    assert_eq!(admin_area_from_tags(2, &region).unwrap().level, AdminLevel::Neighbourhood);

    let mut unnamed = NameMap::new();
    for (k, v) in [("boundary", "administrative"), ("type", "boundary"), ("admin_level", "8")] {
        unnamed.insert(k.to_string(), v.to_string());
    }
    assert!(admin_area_from_tags(3, &unnamed).is_none());
}
