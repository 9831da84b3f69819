use cypress::extract::extract_place;
use cypress::models::geo::envelope;
use cypress::models::{Coord, GeoBbox, Layer, NameMap, OsmType};
use cypress::nodes::{NodeRecord, NodeTable};
use cypress::rings::merge_rings_to_polygons;

const DEG: i64 = 10_000_000;

fn c(x: i64, y: i64) -> Coord {
    Coord { lon: x * DEG, lat: y * DEG }
}

#[test]
fn test_merge_simple_ring() {
    let (p1, p2, p3, p4) = (c(0, 0), c(1, 0), c(1, 1), c(0, 1));
    let ring = vec![p1, p2, p3, p4, p1];
    let polygons = merge_rings_to_polygons(vec![ring]);
    assert_eq!(polygons.len(), 1);
}

#[test]
fn test_merge_split_ring() {
    let (p1, p2, p3, p4) = (c(0, 0), c(1, 0), c(1, 1), c(0, 1));
    let s1 = vec![p1, p2, p3];
    let s2 = vec![p3, p4, p1];
    let polygons = merge_rings_to_polygons(vec![s1, s2]);
    assert_eq!(polygons.len(), 1);
}

#[test]
fn test_merge_disordered_split_ring() {
    let (p1, p2, p3, p4) = (c(0, 0), c(1, 0), c(1, 1), c(0, 1));
    let s1 = vec![p1, p2, p3];
    let s2 = vec![p3, p4, p1];
    let polygons = merge_rings_to_polygons(vec![s2, s1]);
    assert_eq!(polygons.len(), 1);
}

#[test]
fn test_merge_gap_fails() {
    let (p1, p2, p3, p4) = (c(0, 0), c(1, 0), c(1, 1), c(0, 1));
    let s1 = vec![p1, p2];
    let s2 = vec![p3, p4];
    let polygons = merge_rings_to_polygons(vec![s1, s2]);
    assert_eq!(polygons.len(), 0);
}

fn same_cycle(a: &[Coord], b: &[Coord]) -> bool {
    let mut x: Vec<Coord> = a[..a.len() - 1].to_vec();
    let mut y: Vec<Coord> = b[..b.len() - 1].to_vec();
    x.sort_by_key(|p| (p.lon, p.lat));
    y.sort_by_key(|p| (p.lon, p.lat));
    x == y
}

#[test]
fn stitching_any_order_and_orientation_gives_one_ring() {
    let (p1, p2, p3, p4, p5) = (c(0, 0), c(2, 0), c(2, 2), c(1, 3), c(0, 2));
    let f1 = vec![p1, p2];
    let f2 = vec![p2, p3, p4];
    let f3 = vec![p4, p5, p1];
    let expected = vec![p1, p2, p3, p4, p5, p1];
    let rev = |v: &Vec<Coord>| v.iter().rev().cloned().collect::<Vec<Coord>>();
    let orders = vec![
        vec![f1.clone(), f2.clone(), f3.clone()],
        vec![f3.clone(), f1.clone(), f2.clone()],
        vec![rev(&f2), f1.clone(), rev(&f3)],
        vec![f2.clone(), rev(&f3), rev(&f1)],
        vec![rev(&f1), rev(&f2), rev(&f3)],
    ];
    for frags in orders {
        let out = merge_rings_to_polygons(frags);
        assert_eq!(out.len(), 1);
        let r = &out[0];
        assert_eq!(r.first(), r.last());
        assert_eq!(r.len(), 6);
        assert!(same_cycle(r, &expected));
    }
}

fn table() -> NodeTable {
    NodeTable::build(vec![
        NodeRecord { id: 4, coord: c(0, 1) },
        NodeRecord { id: 1, coord: c(0, 0) },
        NodeRecord { id: 3, coord: c(1, 1) },
        NodeRecord { id: 2, coord: c(1, 0) },
    ])
}

#[test]
fn node_table_sorts_and_finds_nodes() {
    let t = table();
    assert_eq!(t.len(), 4);
    assert_eq!(t.node_coords(3), Some(c(1, 1)));
    assert_eq!(t.node_coords(1), Some(c(0, 0)));
    assert_eq!(t.node_coords(7), None);
}

#[test]
fn polygon_building_from_a_closed_way() {
    let t = table();
    let ring = t.way_polygon(&vec![1, 2, 3, 4, 1]).unwrap();
    assert_eq!(ring.len(), 5);
    let bbox = envelope(&ring).unwrap();
    assert_eq!(bbox, GeoBbox::new(0, 0, DEG, DEG));
    let mut tags = NameMap::new();
    tags.insert("name".to_string(), "Hall".to_string());
    tags.insert("building".to_string(), "yes".to_string());
    let center = Coord { lon: DEG / 2, lat: DEG / 2 };
    let p = extract_place(OsmType::Way, 10, &tags, center, Some(bbox), "hall.pbf", 0).unwrap();
    assert_eq!(p.source_id, "way/10");
    assert_eq!(p.layer, Layer::Venue);
    assert_eq!(p.center_point, center);
    assert_eq!(p.bbox, Some(GeoBbox::new(0, 0, DEG, DEG)));
    assert!(p.categories.contains(&"building:yes".to_string()));
}

#[test]
fn open_or_incomplete_ways_have_no_polygon() {
    let t = table();
    assert!(t.way_polygon(&vec![1, 2, 3, 4]).is_none());
    assert!(t.way_polygon(&vec![1, 2, 9, 4, 1]).is_none());
    assert!(t.way_polygon(&vec![1, 2, 1]).is_none());
}

#[test]
fn relation_with_all_members_and_nodes_yields_rings() {
    let t = table();
    let full = t.relation_polygons(&vec![vec![1, 2, 3], vec![3, 4, 1]]);
    assert_eq!(full.len(), 1);
    let missing_node = NodeTable::build(vec![
        NodeRecord { id: 1, coord: c(0, 0) },
        NodeRecord { id: 2, coord: c(1, 0) },
        NodeRecord { id: 3, coord: c(1, 1) },
    ]);
    let partial = missing_node.relation_polygons(&vec![vec![1, 2, 3], vec![3, 4, 1]]);
    assert_eq!(partial.len(), 0);
}

#[test]
fn envelope_of_points() {
    assert_eq!(envelope(&vec![]), None);
    let b = envelope(&vec![c(3, -1), c(-2, 4), c(0, 0)]).unwrap();
    assert_eq!(b, GeoBbox::new(-2 * DEG, -DEG, 3 * DEG, 4 * DEG));
}

#[test]
fn relation_of_three_members_in_ring_order_and_any_orientation() {
    let t = NodeTable::build(vec![
        NodeRecord { id: 1, coord: c(0, 0) },
        NodeRecord { id: 2, coord: c(2, 0) },
        NodeRecord { id: 3, coord: c(2, 2) },
        NodeRecord { id: 4, coord: c(0, 2) },
    ]);
    let rings = t.relation_polygons(&vec![vec![1, 2], vec![3, 2], vec![3, 4, 1]]);
    assert_eq!(rings.len(), 1);
    assert_eq!(rings[0].len(), 5);
    let missing = t.relation_polygons(&vec![vec![1, 2], vec![2, 9, 3], vec![3, 4, 1]]);
    assert_eq!(missing.len(), 0);
}

#[test]
fn open_chains_are_dropped() {
    let out = merge_rings_to_polygons(vec![vec![c(0, 0), c(1, 0), c(1, 1)], vec![c(5, 5), c(6, 6), c(7, 7), c(5, 5)]]);
    assert_eq!(out, vec![vec![c(5, 5), c(6, 6), c(7, 7), c(5, 5)]]);
}
