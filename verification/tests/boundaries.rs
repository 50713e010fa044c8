use atlas_extract::boundaries::{admin_relation_gate, place_node_from_tags, relation_record, RelationMember};
use atlas_extract::rings::stitch_rings;
use atlas_extract::taxonomy::TagMap;
use atlas_extract::boundaries::outer_way_lists;
use std::collections::HashMap;
use atlas_extract::boundaries::resolve_ring;
use atlas_extract::boundaries::{assemble_area, AdminScan, RelationRecord};

fn ring_interior_from_one(ring: &[i64]) -> Vec<i64> {
    let mut interior: Vec<i64> = ring[..ring.len() - 1].to_vec();
    let start = interior.iter().position(|&n| n == 1).expect("ring must contain node 1");
    interior.rotate_left(start);
    interior
}

#[test]
fn stitch_rings_closes_two_ways_sharing_endpoints() {
    let way_a = vec![1, 2, 3];
    let way_b = vec![3, 4, 1];
    let ways: Vec<&Vec<i64>> = vec![&way_a, &way_b];
    let (rings, dropped) = stitch_rings(&ways);
    assert_eq!(dropped, 0);
    assert_eq!(rings.len(), 1);
    assert_eq!(rings[0].first(), rings[0].last());
    assert!(rings[0].len() >= 4);
}

#[test]
fn stitch_rings_handles_reversed_way_orientation() {
    let way_a = vec![1, 2, 3];
    let way_b = vec![1, 4, 3];
    let ways: Vec<&Vec<i64>> = vec![&way_a, &way_b];
    let (rings, dropped) = stitch_rings(&ways);
    assert_eq!(dropped, 0);
    assert_eq!(rings.len(), 1);
    assert_eq!(rings[0].first(), rings[0].last());
}

#[test]
fn stitch_rings_drops_unclosed_segment_without_panicking() {
    let way_a = vec![1, 2, 3, 4];
    let ways: Vec<&Vec<i64>> = vec![&way_a];
    let (rings, dropped) = stitch_rings(&ways);
    assert_eq!(rings.len(), 0);
    assert_eq!(dropped, 1);
}

#[test]
fn stitch_rings_already_closed_single_way() {
    let way_a = vec![1, 2, 3, 1];
    let ways: Vec<&Vec<i64>> = vec![&way_a];
    let (rings, dropped) = stitch_rings(&ways);
    assert_eq!(dropped, 0);
    assert_eq!(rings.len(), 1);
    assert_eq!(rings[0], vec![1, 2, 3, 1]);
}

#[test]
fn stitch_rings_handles_multiple_independent_rings() {
    let ring1a = vec![1, 2, 3];
    let ring1b = vec![3, 1];
    let ring2 = vec![10, 20, 30, 10];
    let ways: Vec<&Vec<i64>> = vec![&ring1a, &ring1b, &ring2];
    let (rings, dropped) = stitch_rings(&ways);
    assert_eq!(dropped, 0);
    assert_eq!(rings.len(), 2);
}

#[test]
fn stitch_rings_does_not_mis_weld_at_shared_junction_node() {
    let way_a = vec![1, 2];
    let way_b = vec![2, 3];
    let way_c = vec![3, 1];
    let way_d = vec![2, 4];
    let way_e = vec![4, 1];
    let ways: Vec<&Vec<i64>> = vec![&way_a, &way_b, &way_c, &way_d, &way_e];
    let (rings, dropped) = stitch_rings(&ways);
    assert_eq!(dropped, 1, "expected exactly one dropped unclosed chain");
    assert_eq!(rings.len(), 1, "expected exactly one closed ring");
    let ring = &rings[0];
    assert_eq!(ring.first(), ring.last(), "ring must be closed");
    let interior = ring_interior_from_one(ring);
    let forward = vec![1, 2, 3];
    let mut reversed = forward.clone();
    reversed.reverse();
    assert!(interior == forward || interior == reversed, "got {interior:?}");
}

#[test]
fn stitch_rings_junction_disambiguation_is_order_independent() {
    let way_a = vec![1, 2];
    let way_d = vec![2, 4];
    let way_b = vec![2, 3];
    let way_c = vec![3, 1];
    let way_e = vec![4, 1];
    let ways: Vec<&Vec<i64>> = vec![&way_a, &way_d, &way_b, &way_c, &way_e];
    let (rings, dropped) = stitch_rings(&ways);
    assert_eq!(dropped, 1, "expected exactly one dropped unclosed chain");
    assert_eq!(rings.len(), 1, "expected exactly one closed ring");
    let ring = &rings[0];
    assert_eq!(ring.first(), ring.last(), "ring must be closed");
    let interior = ring_interior_from_one(ring);
    let forward = vec![1, 2, 3];
    let mut reversed = forward.clone();
    reversed.reverse();
    assert!(interior == forward || interior == reversed, "got {interior:?}");
}

#[test]
fn stitch_rings_empty_input_gives_nothing() {
    let ways: Vec<&Vec<i64>> = Vec::new();
    let (rings, dropped) = stitch_rings(&ways);
    assert!(rings.is_empty());
    assert_eq!(dropped, 0);
}

#[test]
fn place_node_requires_name() {
    assert!(place_node_from_tags(1, &[("place", "city")]).is_none());
}

#[test]
fn place_node_requires_place_tag() {
    assert!(place_node_from_tags(1, &[("name", "Monaco")]).is_none());
}

#[test]
fn place_node_rejects_empty_name() {
    assert!(place_node_from_tags(1, &[("place", "city"), ("name", "")]).is_none());
}

#[test]
fn place_node_parses_population_leniently() {
    let pn = place_node_from_tags(1, &[("place", "city"), ("name", "Monaco"), ("population", "38,300")]).unwrap();
    assert_eq!(pn.population, 38_300);
    assert_eq!(pn.name, "Monaco");
    assert_eq!(pn.place, "city");
    assert_eq!(pn.id, 1);
}

#[test]
fn place_node_population_defaults_to_zero_when_missing_or_unparseable() {
    let pn = place_node_from_tags(1, &[("place", "city"), ("name", "X")]).unwrap();
    assert_eq!(pn.population, 0);
    let pn2 = place_node_from_tags(2, &[("place", "city"), ("name", "Y"), ("population", "n/a")]).unwrap();
    assert_eq!(pn2.population, 0);
}

#[test]
fn place_node_population_strips_spaces_and_dots() {
    let pn = place_node_from_tags(1, &[("place", "town"), ("name", "Test"), ("population", "1.234.567")]).unwrap();
    assert_eq!(pn.population, 1_234_567);
}

#[test]
fn place_node_collects_intl_names_in_key_order() {
    let pn = place_node_from_tags(
        9,
        &[("place", "town"), ("name", "Monaco-Ville"), ("name:fr", "Monaco-Ville"), ("name:en", "Monaco City"), ("int_name", "Monaco")],
    )
    .unwrap();
    assert_eq!(pn.intl_names, vec!["Monaco".to_string(), "Monaco City".to_string(), "Monaco-Ville".to_string()]);
}

#[test]
fn admin_relation_gate_skips_when_admin_level_missing() {
    let tags = TagMap::from_pairs(&[("boundary", "administrative"), ("name", "Testland")]);
    assert_eq!(admin_relation_gate(&tags), None);
}

#[test]
fn admin_relation_gate_skips_when_admin_level_unparseable() {
    let tags = TagMap::from_pairs(&[("boundary", "administrative"), ("name", "Testland"), ("admin_level", "not-a-number")]);
    assert_eq!(admin_relation_gate(&tags), None);
}

#[test]
fn admin_relation_gate_accepts_valid_admin_level() {
    let tags = TagMap::from_pairs(&[("boundary", "administrative"), ("name", "Testland"), ("admin_level", "2")]);
    assert_eq!(admin_relation_gate(&tags), Some(2));
}

#[test]
fn admin_relation_gate_requires_administrative_boundary() {
    let tags = TagMap::from_pairs(&[("boundary", "postal_code"), ("name", "Testland"), ("admin_level", "2")]);
    assert_eq!(admin_relation_gate(&tags), None);
}

#[test]
fn relation_record_keeps_outer_way_members_in_order() {
    let tags = TagMap::from_pairs(&[("boundary", "administrative"), ("name", "Testland"), ("admin_level", "4")]);
    let members = vec![
        RelationMember { is_way: true, role: "outer".into(), id: 10 },
        RelationMember { is_way: true, role: "inner".into(), id: 11 },
        RelationMember { is_way: false, role: "admin_centre".into(), id: 12 },
        RelationMember { is_way: true, role: "".into(), id: 13 },
    ];
    let rec = relation_record(&tags, &members).unwrap();
    assert_eq!(rec.name, "Testland");
    assert_eq!(rec.admin_level, 4);
    assert_eq!(rec.outer_way_ids, vec![10, 13]);
}

#[test]
fn relation_record_needs_a_name_and_an_outer_way() {
    let unnamed = TagMap::from_pairs(&[("boundary", "administrative"), ("admin_level", "4")]);
    let outer = vec![RelationMember { is_way: true, role: "outer".into(), id: 1 }];
    assert!(relation_record(&unnamed, &outer).is_none());
    let named = TagMap::from_pairs(&[("boundary", "administrative"), ("name", "T"), ("admin_level", "4")]);
    let inner = vec![RelationMember { is_way: true, role: "inner".into(), id: 1 }];
    assert!(relation_record(&named, &inner).is_none());
}

#[test]
fn outer_way_lists_skip_unread_ways() {
    let mut ways: HashMap<i64, Vec<i64>> = HashMap::new();
    ways.insert(10, vec![1, 2, 3]);
    ways.insert(12, vec![3, 1]);
    let lists = outer_way_lists(&[10, 11, 12], &ways);
    assert_eq!(lists.len(), 2);
    assert_eq!(*lists[0], vec![1, 2, 3]);
    assert_eq!(*lists[1], vec![3, 1]);
}

fn table(nodes: &[(i64, u32, u32)]) -> atlas_extract::nodes::NodeTable {
    let mut t = atlas_extract::nodes::NodeTable::with_capacity(100);
    for &(id, a, b) in nodes {
        t.record(id, (a, b));
    }
    match t.finish() {
        Ok(t) => t,
        Err(_) => panic!("capacity"),
    }
}

#[test]
fn resolve_ring_needs_every_node() {
    let t = table(&[(1, 10, 11), (2, 20, 21), (3, 30, 31)]);
    assert_eq!(resolve_ring(&[1, 2, 3, 1], &t), Some(vec![(10, 11), (20, 21), (30, 31), (10, 11)]));
    assert_eq!(resolve_ring(&[1, 4, 1], &t), None);
}

#[test]
fn assemble_area_keeps_resolvable_rings() {
    let t = table(&[(1, 10, 11), (2, 20, 21), (3, 30, 31)]);
    let mut ways: HashMap<i64, Vec<i64>> = HashMap::new();
    ways.insert(100, vec![1, 2, 3]);
    ways.insert(101, vec![3, 1]);
    ways.insert(102, vec![7, 8, 9, 7]);
    ways.insert(103, vec![5, 6]);
    let rel = RelationRecord { name: "Testland".into(), admin_level: 2, outer_way_ids: vec![100, 101, 102, 103, 104] };
    let a = assemble_area(&rel, &ways, &t);
    assert_eq!(a.unclosed, 1);
    assert_eq!(a.unresolved, 1);
    let area = a.area.unwrap();
    assert_eq!(area.name, "Testland");
    assert_eq!(area.admin_level, 2);
    assert_eq!(area.rings, vec![vec![(10, 11), (20, 21), (30, 31), (10, 11)]]);
}

#[test]
fn assemble_area_without_read_ways_gives_nothing() {
    let t = table(&[]);
    let ways: HashMap<i64, Vec<i64>> = HashMap::new();
    let rel = RelationRecord { name: "Ghost".into(), admin_level: 4, outer_way_ids: vec![1] };
    let a = assemble_area(&rel, &ways, &t);
    assert!(a.area.is_none());
    assert_eq!((a.unclosed, a.unresolved), (0, 0));
}

#[test]
fn stitch_rings_prefers_least_degree_then_lowest_far_endpoint() {
    let ws: Vec<Vec<i64>> = vec![vec![0, 1], vec![1, 2], vec![1, 8], vec![2, 3], vec![2, 4], vec![8, 0]];
    let refs: Vec<&Vec<i64>> = ws.iter().collect();
    let (rings, dropped) = stitch_rings(&refs);
    assert_eq!(dropped, 2);
    assert_eq!(rings, vec![vec![0, 1, 8, 0]]);
}

#[test]
fn stitch_rings_result_does_not_depend_on_way_order() {
    let base: Vec<Vec<i64>> = vec![vec![1, 2], vec![2, 3], vec![3, 1], vec![1, 2], vec![5, 6, 7, 5], vec![2, 4], vec![4, 1]];
    let first = {
        let refs: Vec<&Vec<i64>> = base.iter().collect();
        stitch_rings(&refs)
    };
    let orders: [[usize; 7]; 4] = [[6, 5, 4, 3, 2, 1, 0], [3, 0, 6, 2, 5, 1, 4], [1, 2, 3, 4, 5, 6, 0], [4, 3, 1, 0, 2, 6, 5]];
    for order in orders.iter() {
        let refs: Vec<&Vec<i64>> = order.iter().map(|&i| &base[i]).collect();
        assert_eq!(stitch_rings(&refs), first, "order {order:?}");
    }
}

#[test]
fn an_assembled_area_carries_the_relation_name_and_level() {
    let tags = TagMap::from_pairs(&[("boundary", "administrative"), ("name", "Monaco"), ("admin_level", "2")]);
    let members = vec![
        RelationMember { is_way: true, role: "outer".into(), id: 100 },
        RelationMember { is_way: true, role: "outer".into(), id: 101 },
    ];
    let rel = relation_record(&tags, &members).unwrap();
    let t = table(&[(1, 10, 11), (2, 20, 21), (3, 30, 31)]);
    let mut ways: HashMap<i64, Vec<i64>> = HashMap::new();
    ways.insert(101, vec![3, 1]);
    ways.insert(100, vec![1, 2, 3]);
    let area = assemble_area(&rel, &ways, &t).area.unwrap();
    assert_eq!(area.name, "Monaco");
    assert_eq!(area.admin_level, 2);
    assert_eq!(area.rings.len(), 1);
    for ring in &area.rings {
        assert!(ring.len() >= 4);
        assert_eq!(ring[0], ring[ring.len() - 1]);
    }
}

#[test]
fn admin_scan_reads_only_wanted_ways_and_assembles_in_kept_order() {
    let mut scan = AdminScan::new();
    scan.keep_relation(RelationRecord { name: "North".into(), admin_level: 4, outer_way_ids: vec![100, 101] });
    scan.keep_relation(RelationRecord { name: "South".into(), admin_level: 6, outer_way_ids: vec![200] });
    assert!(scan.wants(100));
    assert!(scan.wants(200));
    assert!(!scan.wants(300));
    let names: Vec<&str> = scan.relations().iter().map(|r| r.name.as_str()).collect();
    assert_eq!(names, vec!["North", "South"]);
    scan.add_way(100, vec![1, 2, 3]);
    scan.add_way(101, vec![3, 1]);
    scan.add_way(300, vec![1, 2, 3, 1]);
    let t = table(&[(1, 10, 11), (2, 20, 21), (3, 30, 31)]);
    let out = scan.assemble(&t);
    assert_eq!(out.len(), 2);
    let north = out[0].area.as_ref().unwrap();
    assert_eq!(north.name, "North");
    assert_eq!(north.rings, vec![vec![(10, 11), (20, 21), (30, 31), (10, 11)]]);
    assert!(out[1].area.is_none());
    assert_eq!((out[1].unclosed, out[1].unresolved), (0, 0));
}
