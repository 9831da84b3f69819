use cypress::extract::{
    apply_tag, calculate_default_importance, determine_layer, extract_tags, is_valid_lang, label_entry,
    normalize_place_names, normalize_road_name, parse_level,
};
use cypress::models::{Coord, Layer, NameMap, OsmType, Place};
use cypress::synonyms::{parse_line, split_tokens, SynonymService};
use cypress::wikidata::{chunk_qids, filter_uncached, should_retry, WikidataCache};

fn tags(pairs: &[(&str, &str)]) -> NameMap {
    let mut t = NameMap::new();
    for (k, v) in pairs {
        t.insert(k.to_string(), v.to_string());
    }
    t
}

fn place() -> Place {
    Place::new(OsmType::Node, 1, Layer::Venue, Coord { lon: 0, lat: 0 }, "f", 0)
}

#[test]
fn language_code_filter() {
    assert!(!is_valid_lang("xx-yyy-zzzz"));
    assert!(is_valid_lang("de-CH"));
    assert!(is_valid_lang("de"));
    assert!(!is_valid_lang("d"));
    assert!(!is_valid_lang("zh_Hant"));
    let mut p = place();
    apply_tag(&mut p, &"name:de-CH".to_string(), &"Zürich".to_string());
    apply_tag(&mut p, &"name:xx-yyy-zzzz".to_string(), &"X".to_string());
    assert_eq!(p.name.get("de-CH"), Some(&"Zürich".to_string()));
    assert!(p.name.get("xx-yyy-zzzz").is_none());
}

#[test]
fn tags_fill_names_address_and_categories() {
    let t = tags(&[
        ("name", "Pizzeria"),
        ("name:it", "Pizzeria Roma"),
        ("addr:street", "Bahnhofstrasse"),
        ("addr:housenumber", "1"),
        ("cuisine", "pizza"),
        ("amenity", "restaurant"),
        ("brand:wikidata", "Q1"),
        ("opening_hours", "24/7"),
    ]);
    let mut p = place();
    extract_tags(&mut p, &t);
    assert_eq!(p.name.get("default"), Some(&"Pizzeria".to_string()));
    assert_eq!(p.name.get("it"), Some(&"Pizzeria Roma".to_string()));
    assert_eq!(p.phrase, Some("Pizzeria".to_string()));
    let a = p.address.as_ref().unwrap();
    assert_eq!(a.street, Some("Bahnhofstrasse".to_string()));
    assert_eq!(a.housenumber, Some("1".to_string()));
    assert_eq!(a.city, None);
    assert_eq!(p.categories, vec!["cuisine:pizza".to_string(), "amenity:restaurant".to_string()]);
    assert_eq!(p.wikidata_id, Some("Q1".to_string()));
}

#[test]
fn layer_from_tags() {
    assert_eq!(determine_layer(&tags(&[("place", "city")])), Some(Layer::Locality));
    assert_eq!(determine_layer(&tags(&[("place", "state")])), Some(Layer::Region));
    assert_eq!(determine_layer(&tags(&[("place", "islet"), ("shop", "x")])), Some(Layer::Venue));
    assert_eq!(determine_layer(&tags(&[("boundary", "administrative")])), Some(Layer::Admin));
    assert_eq!(
        determine_layer(&tags(&[("addr:housenumber", "3"), ("addr:street", "Main")])),
        Some(Layer::Address)
    );
    assert_eq!(determine_layer(&tags(&[("craft", "carpenter")])), Some(Layer::Venue));
    assert_eq!(determine_layer(&tags(&[("highway", "residential")])), Some(Layer::Street));
    assert_eq!(determine_layer(&tags(&[("highway", "motorway")])), None);
    assert_eq!(determine_layer(&tags(&[])), None);
}

#[test]
fn default_importance_table() {
    assert_eq!(calculate_default_importance(&tags(&[("place", "continent")])), 500_000);
    assert_eq!(calculate_default_importance(&tags(&[("place", "country")])), 400_000);
    assert_eq!(calculate_default_importance(&tags(&[("place", "state")])), 300_000);
    assert_eq!(calculate_default_importance(&tags(&[("place", "city")])), 200_000);
    assert_eq!(calculate_default_importance(&tags(&[("place", "town")])), 150_000);
    assert_eq!(calculate_default_importance(&tags(&[("place", "suburb")])), 100_000);
    assert_eq!(calculate_default_importance(&tags(&[("place", "hamlet")])), 50_000);
    assert_eq!(calculate_default_importance(&tags(&[("highway", "footway")])), 75_000);
    assert_eq!(calculate_default_importance(&tags(&[("highway", "primary")])), 100_000);
    assert_eq!(calculate_default_importance(&tags(&[("amenity", "cafe")])), 50_000);
    assert_eq!(calculate_default_importance(&tags(&[("amenity", "theatre")])), 10_000);
}

#[test]
fn admin_level_text() {
    assert_eq!(parse_level("8"), Some(8));
    assert_eq!(parse_level("010"), Some(10));
    assert_eq!(parse_level("255"), Some(255));
    assert_eq!(parse_level("256"), None);
    assert_eq!(parse_level(""), None);
    assert_eq!(parse_level("4a"), None);
    assert_eq!(parse_level("1000"), None);
}

#[test]
fn synonym_lines() {
    assert_eq!(
        parse_line("A, B => X, Y # note"),
        vec![("a".to_string(), "x".to_string()), ("b".to_string(), "x".to_string())]
    );
    assert_eq!(
        parse_line("  Saint,  St , Ste"),
        vec![("st".to_string(), "saint".to_string()), ("ste".to_string(), "saint".to_string())]
    );
    assert_eq!(parse_line("# only a comment"), vec![]);
    assert_eq!(parse_line("x, x"), vec![]);
    assert_eq!(parse_line("a => b => c"), vec![]);
    assert_eq!(parse_line("north   east, ne"), vec![("ne".to_string(), "north east".to_string())]);
}

#[test]
fn synonym_normalize_is_idempotent() {
    let mut s = SynonymService::new();
    s.add_line("street, st, str");
    s.add_line("saint => sankt");
    let once = s.normalize("Main St.  of  SAINT Gallen");
    assert_eq!(once, "Main street of sankt Gallen");
    assert_eq!(s.normalize(&once), once);
    assert_eq!(s.normalize(""), "");
}

#[test]
fn whitespace_tokens() {
    let t = split_tokens(" a\tbc  d ");
    assert_eq!(t, vec![vec!['a'], vec!['b', 'c'], vec!['d']]);
}

#[test]
fn wikidata_chunks_and_cache() {
    let qids: Vec<String> = (0..120).map(|i| format!("Q{}", i)).collect();
    let chunks = chunk_qids(&qids);
    assert_eq!(chunks.iter().map(|c| c.len()).collect::<Vec<_>>(), vec![50, 50, 20]);
    assert_eq!(chunks.concat(), qids);
    let mut cache = WikidataCache::new();
    let mut labels = NameMap::new();
    labels.insert("fr".to_string(), "Genève".to_string());
    labels.insert("default".to_string(), "Geneva".to_string());
    cache.insert("Q5".to_string(), labels);
    assert_eq!(cache.cache_size(), 1);
    let rest = filter_uncached(&vec!["Q4".to_string(), "Q5".to_string(), "Q6".to_string()], &cache);
    assert_eq!(rest, vec!["Q4".to_string(), "Q6".to_string()]);
    let mut names = NameMap::new();
    names.insert("default".to_string(), "Genf".to_string());
    cache.merge_labels("Q5", &mut names);
    assert_eq!(names.get("default"), Some(&"Genf".to_string()));
    assert_eq!(names.get("fr"), Some(&"Genève".to_string()));
    assert!(should_retry(1));
    assert!(!should_retry(2));
}

#[test]
fn rejected_language_leaves_names_and_phrase_empty() {
    let mut p = place();
    extract_tags(&mut p, &tags(&[("name:xx-yyy-zzzz", "X"), ("amenity", "cafe")]));
    assert!(p.name.is_empty());
    assert_eq!(p.phrase, None);
}

#[test]
fn wikidata_label_rows() {
    assert_eq!(
        label_entry("http://www.wikidata.org/entity/Q72", Some("de".to_string()), "Zürich".to_string()),
        Some(("Q72".to_string(), "de".to_string(), "Zürich".to_string()))
    );
    assert_eq!(
        label_entry("http://www.wikidata.org/entity/Q72", None, "Zurich".to_string()),
        Some(("Q72".to_string(), "default".to_string(), "Zurich".to_string()))
    );
    assert_eq!(label_entry("http://www.wikidata.org/entity/", None, "x".to_string()), None);
    assert_eq!(label_entry("Q5", None, "x".to_string()).unwrap().0, "Q5");
}

#[test]
fn synonyms_apply_to_default_name_street_and_city() {
    let mut s = SynonymService::new();
    s.add_line("street, st");
    let mut p = place();
    extract_tags(
        &mut p,
        &tags(&[("name", "Main St"), ("name:de", "Main St"), ("addr:street", "Oak St"), ("addr:city", "St Louis"), ("addr:housenumber", "St")]),
    );
    normalize_place_names(&mut p, &s);
    assert_eq!(p.name.get("default"), Some(&"Main street".to_string()));
    assert_eq!(p.phrase, Some("Main street".to_string()));
    assert_eq!(p.name.get("de"), Some(&"Main St".to_string()));
    let a = p.address.unwrap();
    assert_eq!(a.street, Some("Oak street".to_string()));
    assert_eq!(a.city, Some("street Louis".to_string()));
    assert_eq!(a.housenumber, Some("St".to_string()));
    let mut t = tags(&[("name", "Elm St"), ("highway", "residential")]);
    normalize_road_name(&mut t, &s);
    assert_eq!(t.get("name"), Some(&"Elm street".to_string()));
}
