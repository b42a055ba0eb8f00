# fastgeotoolkit

GPS track processing for route density mapping, written in Verus.

`src/` is the verified library:

- `polyline` — encoded polylines: decoding bytes into fixed-point
  coordinates (degrees × 100000) and encoding them back, with the round trip
  proved.
- `fit` — the FIT activity file reader: header, definition records and the
  position records, yielding positions in semicircles.
- `files` — what a track file is and holds: GPX files read through the `gpx`
  crate (track and point counts, creator, version, track names), FIT files
  through the reader above.
- `heatmap` — route density: segment use counts and per-track frequencies
  from one key per segment, and how the heatmap grows as tracks are added.
- `intersections` — the grid cells that two or more tracks pass through, from
  one cell key per point.
- `tracks` — splitting tracks at gaps, merging and clustering alike tracks,
  from distance verdicts handed in as booleans.
- `filters` — track simplification and the filter for unrealistic jumps, as
  state machines that ask the caller for distance verdicts.

`app/` holds the Python module and the floating-point geometry (haversine
distances, rounding, grid snapping, segment and cell keys) that feeds the
library.
