# family_tree

A family tree viewer's core, verified with Verus.

- `src/data.rs`: `Person` and `Database` (the topmost person's id, the focus
  id, and people keyed by id), the life-span text of a person, and the
  children of a set of parents (each child once).
- `src/layout.rs`: the chart around the focus person. Grandparent couples on
  the top row, parents below them (a parent missing from the data stands
  beside its partner), the focus with all siblings below them, and the focus's
  own children at the bottom; each parent centred under its own parents'
  couple, the siblings centred under the parents and the children under the
  focus. Lengths are in quarter pixels, so the layout is exact.
- `src/scene.rs`: what a renderer draws from a chart: connector paths, marriage
  lines, cards in id order, the side panel, the canvas size and the selection.
- `app/`: the Leptos front end. It reads the tree's JSON with serde into the
  library's types, calls the library, and renders SVG.
  The family data it shows is the `TREE_JSON` constant in `app/main.rs`; edit
  it and rebuild to show another tree.

Every public function states its result in its `ensures`; the layout's
promises (children centred under parents, parents under their couple,
couples side by side, the focus's children below the focus, rows from top to
bottom, every card inside the chart's width and height, no two cards
overlapping, the top row centred, the selection only on drawn cards, the draw
order a total order) are proof functions named `law_*`.
