//! OSM tag/text rules behind the carmen-format geocoder layer files.
//!
//! The library holds the decisions of the extraction pipeline: which OSM
//! objects qualify for which layer, how their search text, scores and
//! feature ids are built, how boundary ways are stitched into rings, and how
//! a point's enclosing admin names are chosen.  Reading the PBF, geometry in
//! floating point and JSON output live around it.

pub mod text;
pub mod ids;
pub mod taxonomy;
pub mod log_round;
pub mod layers;
pub mod hierarchy;
pub mod rings;
pub mod order;
pub mod boundaries;
pub mod error;
pub mod nodes;

use vstd::prelude::*;
use crate::taxonomy::str_eq;

verus! {

/// Options controlling a single extraction run.
#[derive(Debug, Clone)]
pub struct RunOpts {
    /// Node-table capacity guard: a run over an input with more nodes than
    /// this is refused (regional extracts only).
    pub max_nodes: u64,
    /// Also emit the `/details` sidecar source (`poi_details.jsonl`).
    pub details: bool,
}

impl Default for RunOpts {
    fn default() -> (r: Self)
        ensures
            r.max_nodes == 400_000_000,
            !r.details,
    {
        RunOpts { max_nodes: 400_000_000, details: false }
    }
}

/// Result of a full run: one `(layer_name, row_count)` pair per layer
/// emitted, in emission order.
#[derive(Debug, Clone)]
pub struct Summary {
    pub per_layer: Vec<(String, u64)>,
}

/// The layers in emission order; `poi_details` only with the details option.
pub open spec fn layer_names() -> Seq<Seq<char>> {
    seq!["poi"@, "address"@, "street"@, "place"@, "region"@, "country"@, "postcode"@, "poi_details"@]
}

/// The file each layer is written to.
pub open spec fn layer_filename_spec(name: Seq<char>) -> Seq<char> {
    if name == "poi"@ {
        "poi.geojsonl"@
    } else if name == "address"@ {
        "address.geojsonl"@
    } else if name == "street"@ {
        "street.geojsonl"@
    } else if name == "place"@ {
        "place.geojsonl"@
    } else if name == "region"@ {
        "region.geojsonl"@
    } else if name == "country"@ {
        "country.geojsonl"@
    } else if name == "postcode"@ {
        "postcode.geojsonl"@
    } else {
        "poi_details.jsonl"@
    }
}

/// Layer file name of a known layer.
pub fn layer_filename(name: &str) -> (f: &'static str)
    requires
        layer_names().contains(name@),
    ensures
        f@ == layer_filename_spec(name@),
{
    if str_eq(name, "poi") {
        "poi.geojsonl"
    } else if str_eq(name, "address") {
        "address.geojsonl"
    } else if str_eq(name, "street") {
        "street.geojsonl"
    } else if str_eq(name, "place") {
        "place.geojsonl"
    } else if str_eq(name, "region") {
        "region.geojsonl"
    } else if str_eq(name, "country") {
        "country.geojsonl"
    } else if str_eq(name, "postcode") {
        "postcode.geojsonl"
    } else {
        "poi_details.jsonl"
    }
}

/// The layers a run emits, in order: every layer but the details sidecar,
/// which only runs when the options ask for it.
pub fn planned_layers(opts: &RunOpts) -> (ls: Vec<&'static str>)
    ensures
        ls@.map_values(|l: &str| l@) == if opts.details {
            layer_names()
        } else {
            layer_names().take(7)
        },
{
    let mut ls: Vec<&'static str> = Vec::new();
    ls.push("poi");
    ls.push("address");
    ls.push("street");
    ls.push("place");
    ls.push("region");
    ls.push("country");
    ls.push("postcode");
    if opts.details {
        ls.push("poi_details");
    }
    assert(ls@.map_values(|l: &str| l@) =~= if opts.details {
        layer_names()
    } else {
        layer_names().take(7)
    });
    ls
}

} // verus!
