use atlas_extract::{layer_filename, planned_layers, RunOpts};

#[test]
fn run_opts_default_values() {
    let o = RunOpts::default();
    assert_eq!(o.max_nodes, 400_000_000);
    assert!(!o.details);
}

#[test]
fn planned_layers_without_details() {
    let o = RunOpts { max_nodes: 1, details: false };
    assert_eq!(planned_layers(&o), vec!["poi", "address", "street", "place", "region", "country", "postcode"]);
}

#[test]
fn planned_layers_with_details_ends_with_the_sidecar() {
    let o = RunOpts { max_nodes: 1, details: true };
    let ls = planned_layers(&o);
    assert_eq!(ls.len(), 8);
    assert_eq!(ls[7], "poi_details");
}

#[test]
fn layer_filenames() {
    assert_eq!(layer_filename("poi"), "poi.geojsonl");
    assert_eq!(layer_filename("postcode"), "postcode.geojsonl");
    assert_eq!(layer_filename("poi_details"), "poi_details.jsonl");
}
