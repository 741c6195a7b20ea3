# hakaton

Splits large point clouds (PCD files) into square areas of neighbouring
chunks, so that each area can be shown on its own, and puts the areas back
together for writing.

- `src/` is the verified library. Coordinates travel through it as order
  keys (`i32` numbers ordered as the coordinates are), so every comparison
  it makes is the one the coordinates would give.
  - `util` — points, file data, bounds of a set of points.
  - `point_reader` — finding the `x`/`y`/`z` fields, turning records into
    numbered points, and one round of splitting points into areas, with the
    proof that the areas hold every point exactly once.
  - `main_file_splitter` — which areas hold points and what each holds.
  - `point_writer` — merging areas back into one set of points.
  - `viewer` — the viewer's state and its wrap-round area navigation.
  - `get_points` — the first reader, numbering chunks of a 10×10×10 grid.
- `app/` is the command line: file reading and writing with `pcd-rs`, the
  floating-point steps (field values, divisions, the next chunk count, area
  centres) and the loop that runs splitting rounds until one finishes.
- `tests/` runs the library on concrete values.

The original program also had an interactive 3D viewer built on Bevy, egui
and a native file dialog. Those crates together need about 600 packages,
more than this build allows, so the viewer's systems (scene setup, the egui
panel, camera controls) are not part of `app/`. The viewer's state and its
decisions (which file is open, which area is shown, the previous/next
buttons) are in `src/viewer`.
