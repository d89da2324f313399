# preprocess_cancellation

Prepares G-code for Klipper's object cancellation: it finds the objects that a slicer
printed and patches the file with `EXCLUDE_OBJECT_DEFINE`, `EXCLUDE_OBJECT_START` and
`EXCLUDE_OBJECT_END` commands around them. Cura, Slic3r (and PrusaSlicer, SuperSlicer),
ideaMaker and G-code with `M486` commands are understood.

The library under `src/` is verified with Verus:

- `patch` — a list of insertions and replacements at byte offsets, applied in order of
  position; `apply` is proved to write exactly the patched text.
- `gcode::parser` — the grammar of comments, extrusion moves and `M486` commands.
- `gcode::lines` — the file as lines and the byte offsets at which they end.
- `gcode::known_object`, `gcode::object_tracker` — the objects seen while reading, and
  the hunks that mark them.
- `gcode::slicers` — each slicer's rules, stated as a run over the lines of the file.
- `sort`, `text` — stable sorting and character sequences, as specifications.

`app/` holds what is not verified: the command line, the Python module, file I/O and the
floating-point outline of each object.
