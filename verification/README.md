# nfctl

A verified library for viewing dataflow pipelines in a terminal: the
pipeline graph model, a Mermaid reader and writer, DOT output, a layered
layout engine for drawing the graph with box cards and orthogonal edges,
its quality score, and the state machines and text layout of the panels
that show pipelines, vertices and logs.

## Layout

- `src/` is the library, written in Verus. Every function in it is verified
  against its `requires` / `ensures` contract.
  - `model.rs`, `view.rs`: the topology and the view graph drawn from it.
  - `mermaid_in.rs`, `mermaid.rs`, `dot.rs`, `render.rs`: reading and writing graphs.
  - `layout/`: ranking (`rank.rs`), column order (`order.rs`), card rows
    (`place.rs`, `refine.rs`), pass slots (`slots.rs`), routes and tracks
    (`route.rs`, `tracks.rs`), the score (`score.rs`) and the search over
    candidate drawings (`search.rs`).
  - `canvas.rs`, `chain.rs`, `cards.rs`, `table.rs`, `style.rs`: text drawing.
  - `detail.rs`, `logs.rs`, `pipelines.rs`: panel state machines.
  - `dto/`: the cluster objects the panels show, checked and converted.
- `tests/` holds the tests, run against the compiled library.
- `app/` holds what the library leaves to its caller, such as the ASCII
  drawing of a laid-out graph.

The only outside crate the library calls is `unicode-width`, through one
trusted function, `text_width`, in `cards.rs`.
