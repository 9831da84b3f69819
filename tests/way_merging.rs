use cypress::models::NameMap;
use cypress::models::Layer;
use cypress::roads::{merge_group, RoadWay, WayMerger};

fn tags(pairs: &[(&str, &str)]) -> NameMap {
    let mut t = NameMap::new();
    for (k, v) in pairs {
        t.insert(k.to_string(), v.to_string());
    }
    t
}

#[test]
fn test_merge_key_generation() {
    let t = tags(&[("name", "Main Street"), ("highway", "residential")]);
    let key = WayMerger::get_merge_key(&t);
    assert_eq!(key, Some("Main Street|residential".to_string()));
}

#[test]
fn test_merge_key_no_name() {
    let t = tags(&[("highway", "residential")]);
    let key = WayMerger::get_merge_key(&t);
    assert_eq!(key, None);
}

#[test]
fn test_merge_key_motorway_excluded() {
    let t = tags(&[("name", "Highway 1"), ("highway", "motorway")]);
    let key = WayMerger::get_merge_key(&t);
    assert_eq!(key, None);
}

#[test]
fn test_is_connected() {
    let way1 = RoadWay { way_id: 1, tags: NameMap::new(), nodes: vec![1, 2, 3] };
    let way2 = RoadWay { way_id: 2, tags: NameMap::new(), nodes: vec![3, 4, 5] };
    assert!(WayMerger::is_connected_to_group(&[way1], &way2));
}

#[test]
fn test_not_connected() {
    let way1 = RoadWay { way_id: 1, tags: NameMap::new(), nodes: vec![1, 2, 3] };
    let way2 = RoadWay { way_id: 2, tags: NameMap::new(), nodes: vec![10, 11, 12] };
    assert!(!WayMerger::is_connected_to_group(&[way1], &way2));
}

#[test]
fn road_merging_two_ways_sharing_an_end_node() {
    let t = tags(&[("name", "Main St"), ("highway", "residential")]);
    let mut m = WayMerger::new();
    m.add_road(21, t.clone(), vec![1, 2, 5]);
    m.add_road(22, t.clone(), vec![5, 6, 7]);
    let roads = m.merge();
    assert_eq!(roads.len(), 1);
    assert_eq!(roads[0].way_ids, vec![21, 22]);
    assert_eq!(roads[0].node_lists.len(), 2);
    let place = roads[0].to_place("roads.pbf", cypress::models::Coord { lon: 5, lat: 5 }, None, 0);
    assert_eq!(place.source_id, "way/21");
    assert_eq!(place.layer, Layer::Street);
    assert!(place.categories.contains(&"merged_ways:2".to_string()));
    assert_eq!(place.name.get("default"), Some(&"Main St".to_string()));
}

#[test]
fn road_merging_keeps_separate_components_and_keys() {
    let main = tags(&[("name", "Main St"), ("highway", "residential")]);
    let other = tags(&[("name", "Oak Ave"), ("highway", "residential")]);
    let mut m = WayMerger::new();
    m.add_road(1, main.clone(), vec![1, 2]);
    m.add_road(2, main.clone(), vec![10, 11]);
    m.add_road(3, other.clone(), vec![2, 3]);
    m.add_road(4, tags(&[("name", "A1"), ("highway", "motorway")]), vec![1, 9]);
    let roads = m.merge();
    assert_eq!(roads.len(), 3);
    for r in &roads {
        assert_eq!(r.way_ids.len(), 1);
    }
    let single = roads[0].to_place("f", cypress::models::Coord { lon: 0, lat: 0 }, None, 0);
    assert!(!single.categories.iter().any(|c| c.starts_with("merged_ways:")));
}

#[test]
fn merge_group_follows_chains_of_shared_ends() {
    let t = tags(&[("name", "Ring Rd"), ("highway", "tertiary")]);
    let ways = vec![
        RoadWay { way_id: 1, tags: t.clone(), nodes: vec![1, 2] },
        RoadWay { way_id: 2, tags: t.clone(), nodes: vec![8, 9] },
        RoadWay { way_id: 3, tags: t.clone(), nodes: vec![3, 2] },
        RoadWay { way_id: 4, tags: t.clone(), nodes: vec![3, 4] },
        RoadWay { way_id: 5, tags: t.clone(), nodes: vec![] },
    ];
    let roads = merge_group(&ways);
    assert_eq!(roads.len(), 3);
    assert_eq!(roads[0].way_ids, vec![1, 3, 4]);
    assert_eq!(roads[1].way_ids, vec![2]);
    assert_eq!(roads[2].way_ids, vec![5]);
}
