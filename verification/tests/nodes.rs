use atlas_extract::error::ExtractError;
use atlas_extract::nodes::NodeTable;

fn bits(lon: f32, lat: f32) -> (u32, u32) {
    (lon.to_bits(), lat.to_bits())
}

fn load(nodes: &[(i64, f32, f32)], max: u64) -> Result<NodeTable, ExtractError> {
    let mut t = NodeTable::with_capacity(max);
    for &(id, lon, lat) in nodes {
        t.record(id, bits(lon, lat));
    }
    t.finish()
}

fn sample() -> Vec<(i64, f32, f32)> {
    vec![(1, 7.42, 43.73), (2, 7.43, 43.74), (3, 7.44, 43.75)]
}

#[test]
fn get_returns_none_for_unknown_id() {
    let t = load(&sample(), 10).unwrap();
    assert_eq!(t.get(i64::MAX), None);
}

#[test]
fn get_returns_the_stored_coordinate() {
    let t = load(&sample(), 10).unwrap();
    let (lon, lat) = t.get(2).unwrap();
    assert_eq!(f32::from_bits(lon), 7.43);
    assert_eq!(f32::from_bits(lat), 43.74);
}

#[test]
fn len_matches_number_of_stored_nodes() {
    let t = load(&sample(), 10).unwrap();
    assert!(!t.is_empty());
    assert_eq!(t.len(), 3);
}

#[test]
fn too_many_nodes_is_rejected_with_typed_error() {
    let nodes: Vec<(i64, f32, f32)> = (0..25).map(|i| (i, 7.4, 43.7)).collect();
    match load(&nodes, 10) {
        Err(ExtractError::TooManyNodes { seen, max }) => {
            assert!(seen >= 10, "seen={seen}");
            assert_eq!(seen, 25);
            assert_eq!(max, 10);
        }
        Err(other) => panic!("expected TooManyNodes, got {}", other.message()),
        Ok(_) => panic!("expected TooManyNodes"),
    }
}

#[test]
fn capacity_guard_boundary_test_exact_max_should_succeed() {
    let nodes = sample();
    let exact_count = nodes.len() as u64;
    let table = load(&nodes, exact_count).unwrap();
    assert_eq!(table.len(), exact_count);
    assert!(load(&nodes, exact_count + 1).is_ok());
    match load(&nodes, exact_count - 1) {
        Err(ExtractError::TooManyNodes { seen, max }) => {
            assert_eq!(max, exact_count - 1);
            assert!(seen >= exact_count);
        }
        _ => panic!("expected TooManyNodes"),
    }
}

#[test]
fn a_repeated_id_keeps_the_latest_location() {
    let t = load(&[(5, 1.0, 2.0), (5, 3.0, 4.0)], 10).unwrap();
    assert_eq!(t.len(), 1);
    assert_eq!(t.get(5), Some(bits(3.0, 4.0)));
}

#[test]
fn distinct_nodes_within_capacity_are_all_stored() {
    let nodes: Vec<(i64, f32, f32)> = (0..20).map(|i| (i * 7 - 30, i as f32, -(i as f32))).collect();
    let t = load(&nodes, 20).unwrap();
    assert_eq!(t.len(), 20);
    assert_eq!(t.seen(), 20);
    for &(id, lon, lat) in &nodes {
        assert_eq!(t.get(id), Some(bits(lon, lat)));
    }
}
