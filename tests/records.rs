use cypress::bulk::BulkIndexer;
use cypress::config::should_import;
use cypress::models::admin::admin_id;
use cypress::models::normalized::{admin_records, hierarchy_ids, resolve_hierarchy};
use cypress::models::place::source_id_of;
use cypress::models::{
    AdminArea, AdminEntry, AdminEntryScylla, AdminHierarchy, AdminLevel, Coord, Layer, NameMap,
    NormalizedPlace, OsmType, Place,
};
use cypress::models::GeoBbox;
use cypress::query::{display_name, filter_hierarchy, keep_hydrated, plan_search, reverse_size, SearchParams};

fn place(id: i64) -> Place {
    Place::new(OsmType::Node, id, Layer::Venue, Coord { lon: 0, lat: 0 }, "f.pbf", 0)
}

fn entry(id: i64, name: &str) -> AdminEntry {
    let mut a = AdminArea::new(id, AdminLevel::Country);
    a.name.insert("default".to_string(), name.to_string());
    a.name.insert("de".to_string(), format!("{} (de)", name));
    a.abbr = Some("XX".to_string());
    AdminEntry::from_area(&a)
}

#[test]
fn admin_level_numbers() {
    assert_eq!(AdminLevel::from_osm_level(2), Some(AdminLevel::Country));
    assert_eq!(AdminLevel::from_osm_level(8), Some(AdminLevel::Locality));
    assert_eq!(AdminLevel::from_osm_level(11), Some(AdminLevel::Neighbourhood));
    assert_eq!(AdminLevel::from_osm_level(1), None);
    assert_eq!(AdminLevel::from_osm_level(12), None);
    assert_eq!(AdminLevel::Borough.to_osm_level(), 9);
    assert_eq!(AdminLevel::MacroRegion.field_name(), "macro_region");
    let all = AdminLevel::all();
    assert_eq!(all.len(), 9);
    assert_eq!(all[0], AdminLevel::Country);
    assert_eq!(all[8], AdminLevel::Neighbourhood);
    assert!(AdminLevel::Country < AdminLevel::Neighbourhood);
}

#[test]
fn layer_ranks_and_names() {
    assert_eq!(Layer::Country.rank(), 100);
    assert_eq!(Layer::Region.rank(), 80);
    assert_eq!(Layer::Admin.rank(), 50);
    assert_eq!(Layer::Venue.rank(), 10);
    assert_eq!(Layer::MacroCounty.as_str(), "macrocounty");
    assert_eq!(OsmType::Relation.as_str(), "relation");
}

#[test]
fn source_ids_and_phrase() {
    assert_eq!(source_id_of(OsmType::Node, 1), "node/1");
    assert_eq!(source_id_of(OsmType::Way, -42), "way/-42");
    assert_eq!(source_id_of(OsmType::Relation, 9_223_372_036_854_775_807), "relation/9223372036854775807");
    assert_eq!(admin_id(51701), "relation/51701");
    let mut p = place(7);
    assert_eq!(p.source_id, "node/7");
    p.add_name("de", "Oper".to_string());
    assert_eq!(p.phrase, None);
    p.add_name("default", "Opera".to_string());
    assert_eq!(p.phrase, Some("Opera".to_string()));
    p.add_name("", "Opera House".to_string());
    assert_eq!(p.phrase, Some("Opera".to_string()));
    assert_eq!(p.name.get(""), Some(&"Opera House".to_string()));
    assert_eq!(p.name.get("default"), Some(&"Opera".to_string()));
    p.add_category("amenity", "theatre");
    assert_eq!(p.categories, vec!["amenity:theatre".to_string()]);
}

#[test]
fn name_map_insert_and_fill() {
    let mut m = NameMap::new();
    assert!(m.is_empty());
    m.insert("default".to_string(), "Wien".to_string());
    m.insert("default".to_string(), "Vienna".to_string());
    assert_eq!(m.get("default"), Some(&"Vienna".to_string()));
    assert_eq!(m.pairs().len(), 1);
    let mut labels = NameMap::new();
    labels.insert("default".to_string(), "Other".to_string());
    labels.insert("fr".to_string(), "Vienne".to_string());
    m.fill_missing(&labels);
    assert_eq!(m.get("default"), Some(&"Vienna".to_string()));
    assert_eq!(m.get("fr"), Some(&"Vienne".to_string()));
}

#[test]
fn entries_from_areas_and_store_form() {
    let mut a = AdminArea::new(5, AdminLevel::Region);
    assert_eq!(AdminEntry::from_area(&a).name, None);
    a.name.insert("it".to_string(), "Lombardia".to_string());
    assert_eq!(AdminEntry::from_area(&a).name, Some("Lombardia".to_string()));
    a.name.insert("default".to_string(), "Lombardy".to_string());
    let e = AdminEntry::from_area(&a);
    assert_eq!(e.name, Some("Lombardy".to_string()));
    assert_eq!(e.id, Some(5));
    let s: AdminEntryScylla = e.to_scylla();
    let back = AdminEntry::from_scylla(s);
    assert_eq!(back.name, e.name);
    assert_eq!(back.names.get("it"), Some(&"Lombardia".to_string()));
}

#[test]
fn hierarchy_set_get() {
    let mut h = AdminHierarchy::empty();
    h.set(AdminLevel::County, entry(3, "C"));
    assert_eq!(h.get(AdminLevel::County).unwrap().id, Some(3));
    assert!(h.get(AdminLevel::Country).is_none());
    h.clear(AdminLevel::County);
    assert!(h.county.is_none());
}

#[test]
fn normalized_round_trip() {
    let mut p = place(1);
    p.parent.set(AdminLevel::Country, entry(10, "Land"));
    p.parent.set(AdminLevel::Locality, entry(80, "Stadt"));
    let records = admin_records(&p.parent);
    assert_eq!(records.len(), 2);
    assert_eq!(records[0].0, "relation/10");
    let original = p.parent.clone();
    let n = NormalizedPlace::from_place(p);
    assert_eq!(n.parent.country, Some("relation/10".to_string()));
    assert_eq!(n.parent.locality, Some("relation/80".to_string()));
    assert_eq!(n.parent.region, None);
    assert_eq!(hierarchy_ids(&original).locality, Some("relation/80".to_string()));
    let back = resolve_hierarchy(&n.parent, &records);
    let c = back.country.as_ref().unwrap();
    assert_eq!(c.id, original.country.as_ref().unwrap().id);
    assert_eq!(c.name, original.country.as_ref().unwrap().name);
    assert_eq!(c.abbr, Some("XX".to_string()));
    assert_eq!(back.locality.as_ref().unwrap().id, Some(80));
    assert!(back.region.is_none());
    let missing = resolve_hierarchy(&n.parent, &vec![]);
    assert!(missing.country.is_none());
}

#[test]
fn bulk_counts_add_up() {
    let mut b = BulkIndexer::new(2);
    assert!(b.add(place(1)).is_none());
    let batch = b.add(place(2)).unwrap();
    assert_eq!(batch.len(), 2);
    b.record_batch(2, 1);
    assert!(b.add(place(3)).is_none());
    let rest = b.take_remaining();
    assert_eq!(rest.len(), 1);
    b.record_batch(1, 0);
    assert_eq!(b.stats(), (2, 1));
    let (indexed, errors) = b.finish();
    assert_eq!(indexed + errors, 3);
}

#[test]
fn hierarchy_filter_by_layer_rank() {
    let mut h = AdminHierarchy::empty();
    h.set(AdminLevel::Country, entry(1, "Country"));
    h.set(AdminLevel::Region, entry(2, "Region"));
    h.set(AdminLevel::County, entry(3, "County"));
    let region = filter_hierarchy(h.clone(), Layer::Region);
    assert!(region.country.is_some());
    assert!(region.region.is_none());
    assert!(region.county.is_none());
    let country = filter_hierarchy(h.clone(), Layer::Country);
    assert!(country.country.is_none());
    let venue = filter_hierarchy(h, Layer::Venue);
    assert!(venue.country.is_some() && venue.region.is_some() && venue.county.is_some());
}

#[test]
fn display_name_by_language() {
    let mut names = NameMap::new();
    names.insert("default".to_string(), "Zürich".to_string());
    names.insert("de".to_string(), "Zürich (de)".to_string());
    names.insert("fr".to_string(), "Zurich".to_string());
    assert_eq!(display_name(&names, Some("fr")), "Zurich");
    assert_eq!(display_name(&names, Some("it")), "Zürich");
    assert_eq!(display_name(&names, None), "Zürich");
    let mut only = NameMap::new();
    only.insert("en".to_string(), "Only".to_string());
    assert_eq!(display_name(&only, None), "Only");
    assert_eq!(display_name(&NameMap::new(), Some("de")), "");
}

#[test]
fn hydration_drops_missing_records() {
    let kept = keep_hydrated(vec![Some(place(1)), None, Some(place(3))]);
    assert_eq!(keep_hydrated::<u8>(vec![None, None]).len(), 0);
    assert_eq!(kept.len(), 2);
    assert_eq!(kept[1].source_id, "node/3");
}

#[test]
fn import_decision_by_hash() {
    assert!(should_import(None, "abc", false));
    assert!(!should_import(Some("abc"), "abc", false));
    assert!(should_import(Some("abc"), "abd", false));
    assert!(should_import(Some("abc"), "abc", true));
}

#[test]
fn search_plans_cap_sizes_and_map_corners() {
    let p = SearchParams {
        text: "Pizza".to_string(),
        lang: None,
        bbox: Some(GeoBbox::new(-10, -20, 30, 40)),
        focus: Some(Coord { lon: -739_800_000, lat: 407_500_000 }),
        focus_weight: None,
        layers: Some(vec!["venue".to_string()]),
        size: Some(100),
    };
    let plan = plan_search(&p, false);
    assert_eq!(plan.size, 40);
    assert_eq!(plan.name_field, "name_all");
    assert_eq!(plan.top_left, Some(Coord { lon: -10, lat: 40 }));
    assert_eq!(plan.bottom_right, Some(Coord { lon: 30, lat: -20 }));
    assert_eq!(plan.focus_weight, 3000);
    let auto = plan_search(&SearchParams { size: Some(5), ..p.clone() }, true);
    assert_eq!(auto.size, 5);
    assert_eq!(auto.name_field, "name_all.autocomplete");
    assert_eq!(plan_search(&SearchParams { size: Some(30), ..p.clone() }, true).size, 20);
    assert_eq!(plan_search(&SearchParams { size: None, bbox: None, ..p }, false).size, 10);
    assert_eq!(reverse_size(None), 10);
    assert_eq!(reverse_size(Some(99)), 40);
}
