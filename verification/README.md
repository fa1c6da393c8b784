# iridion

Generates base16 colour schemes from images: pixels are taken to Oklch,
clustered with hue-locked K-means (eight clusters, each pinned to a
45-degree hue sector), the clusters are grouped into hue zones, and the
sixteen slots are printed as a JSON object of `#rrggbb` colours.

Layout:

- `src/` – the library, verified with Verus:
  - `cluster.rs` – the discrete side of hue-locked K-means (`KMeansState`:
    which points are fixed to which frozen cluster, which clusters freeze,
    when a run converges), cluster tallies, the score of a clustering and
    the choice among hue offsets.
  - `zones.rs` – grouping the active clusters into hue zones (with the
    wrap across 360 degrees) and picking the two biggest zones.
  - `loader.rs` – decoding an encoded image in the format its extension
    names and resampling it to 256x256 (through `image`).
  - `color.rs` – 8-bit colours and their `#rrggbb` text (through `hex`).
  - `palette.rs` – slot names and the JSON rendering (through `serde_json`).
- `app/` – the command line program: argument parsing, reading the image file, and
  the floating-point colour arithmetic (Oklch conversion, normalisation,
  distances, centre updates, lightness and chroma mapping), which drives the
  library.
- `tests/` – tests of the library.
