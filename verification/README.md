# plot_digitizer

A plot digitizer: load the image of a chart, calibrate its axes with four reference points,
pick or detect data points, and work with them in a Rhai script.

## Layout

- `src/` — the library, verified with Verus. Every public function states its result in its
  contract; the laws of the library are public proof functions (`law_*`).
  - `color`, `pixels`, `grid`, `density`, `ticks`, `axis`: axis detection in a masked image.
    Foreground pixels are grouped into 8-connected strokes; strokes with a dense row or column
    go to the x- or y-axis, crossing strokes are split between both; each axis is the densest
    line of its pool, its body the longest stroke touching that line, and its ticks the narrow
    runs that stick out of it.
  - `chains`, `sampling`, `clusters`: ordering a curve's pixels into chains by a greedy
    nearest-neighbour walk over one point per column, settling the rounding of sample shares,
    and listing colour clusters as data groups, largest first.
  - `canvas`: the decisions behind the image canvas — selection, box selection, dragging,
    adding calibration and data points, deleting points, Shift+Click range selection.
  - `session`: keyboard shortcuts (paste, undo, redo), confirming before a new image replaces
    the workspace, and the undo/redo history.
  - `text`, `hoist`, `script`, `inspect`, `markdown`: preparing scripts for the script engine
    (hoisting `let`/`const`/`for` names), the output text of a run, the inspector's texts for
    script values, and the markdown of the scripting reference.
- `app/` — the desktop application (eframe/egui): windows and drawing, clipboard and file
  input, the Rhai engine and its math helpers (nalgebra), and the floating-point steps of
  recognition (colour clustering, arc-length sampling, grid removal, calibration mapping).
- `tests/` — tests of the library on concrete inputs.
