# atlas_extract

Turns an OpenStreetMap `.osm.pbf` extract into carmen-format geocoder layer
files (`poi`, `address`, `street`, `place`, `region`, `country`, `postcode`,
and optionally the `poi_details` sidecar).

## Layout

- `src/` — the verified library (Verus). It holds the decisions of the
  pipeline, each with a contract:
  - `taxonomy`: tag maps, the POI category table and the POI gate;
  - `ids`: feature ids (56-bit BLAKE2b of an OSM source id);
  - `text`, `order`, `log_round`: alias cleaning and de-duplication, a
    stable string sort, and exact integer evaluation of the log-scaled
    score curves;
  - `layers::*`: per-layer qualification, search text, scores, grouping
    (addresses by street and locality, split into segments; postcodes by
    cleaned code) and the details records;
  - `rings`, `boundaries`: admin relations, ring stitching and area
    assembly;
  - `nodes`: the node-location table with its capacity guard;
  - `hierarchy`: choosing a point's locality, region and country among
    candidate areas and place nodes.
- `app/` — the command-line program: reading the PBF, floating-point
  geometry (centroids, H3 buckets, point-in-polygon, distances) and JSON
  output, calling the library for every decision.
- `tests/` — tests of the library.
