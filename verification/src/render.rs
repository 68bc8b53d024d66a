//! What the text renderers are asked for: the output format, the options of
//! a render, and which text a topology renders as in each format.

use vstd::prelude::*;

use crate::dot::{to_dot, to_dot_spec};
use crate::mermaid::{Direction, view_to_mermaid, view_to_mermaid_spec};
use crate::model::Topology;
use crate::view::ViewGraph;

verus! {

/// What the CLI's `dag --format` selects.
#[derive(Debug, Clone, Copy, PartialEq, Eq, Structural)]
pub enum Format {
    Ascii,
    Mermaid,
    Dot,
}

/// How `render_with` draws.
#[derive(Debug, Clone, Copy)]
pub struct RenderOptions {
    /// Fit the ASCII render to this many columns.
    pub width: Option<usize>,
    /// Draw `stem-0..stem-N` shard groups as one node (Mermaid and ASCII).
    pub collapse_shards: bool,
    /// ANSI-colour ASCII edges by tag combination.
    pub colour: bool,
}

impl Default for RenderOptions {
    fn default() -> (r: Self)
        ensures
            r.width is None,
            !r.collapse_shards,
            !r.colour,
    {
        RenderOptions { width: None, collapse_shards: false, colour: false }
    }
}

/// A render: the text itself, or the view graph the box-drawing renderer
/// draws, with the width to fit and whether to colour it.
pub enum Rendered {
    Text(String),
    Ascii { view: ViewGraph, width: Option<usize>, colour: bool },
}

/// What a render of `topology` in `format` with `opts` is: DOT of the
/// topology; Mermaid of a view graph of it, shard groups collapsed as asked;
/// or that view graph for the box drawing, with the width and colour asked.
pub open spec fn rendered_ok(topology: Topology, format: Format, opts: RenderOptions, r: Rendered) -> bool {
    match format {
        Format::Dot => r matches Rendered::Text(s) && s@ == to_dot_spec(topology),
        Format::Mermaid => r matches Rendered::Text(s) && exists|v: ViewGraph|
            v.is_view_of(topology, opts.collapse_shards) && v.wf() && s@ == view_to_mermaid_spec(v, Direction::LeftRight),
        Format::Ascii => r matches Rendered::Ascii { view, width, colour } && view.is_view_of(topology, opts.collapse_shards)
            && view.wf() && width == opts.width && colour == opts.colour,
    }
}

/// Render in the requested format. DOT is the topology's, for Graphviz,
/// which lays out the full graph itself, and ignores the options; Mermaid
/// and the box drawing are of the view graph, shard groups collapsed when
/// asked, and only the box drawing is fitted and coloured.
pub fn render_with(topology: &Topology, format: Format, opts: RenderOptions) -> (r: Rendered)
    requires
        format == Format::Dot || topology.spec_vertices().len() <= u32::MAX,
    ensures
        match format {
            Format::Dot => r matches Rendered::Text(s) && s@ == to_dot_spec(*topology),
            Format::Mermaid => r matches Rendered::Text(s) && exists|v: ViewGraph|
                v.is_view_of(*topology, opts.collapse_shards) && v.wf() && s@ == view_to_mermaid_spec(
                    v,
                    Direction::LeftRight,
                ),
            Format::Ascii => r matches Rendered::Ascii { view, width, colour } && view.is_view_of(
                *topology,
                opts.collapse_shards,
            ) && view.wf() && width == opts.width && colour == opts.colour,
        },        rendered_ok(*topology, format, opts, r),
{
    if format == Format::Dot {
        return Rendered::Text(to_dot(topology));
    }
    let view = if opts.collapse_shards {
        ViewGraph::collapsed(topology)
    } else {
        ViewGraph::expanded(topology)
    };
    match format {
        Format::Ascii => Rendered::Ascii { view, width: opts.width, colour: opts.colour },
        _ => {
            let s = view_to_mermaid(&view, Direction::LeftRight);
            Rendered::Text(s)
        },
    }
}

/// Render in the requested format, every vertex its own node and nothing
/// coloured; `width` only affects the box drawing.
pub fn render(topology: &Topology, format: Format, width: Option<usize>) -> (r: Rendered)
    requires
        format == Format::Dot || topology.spec_vertices().len() <= u32::MAX,
    ensures
        match format {
            Format::Dot => r matches Rendered::Text(s) && s@ == to_dot_spec(*topology),
            Format::Mermaid => r matches Rendered::Text(s) && exists|v: ViewGraph|
                v.is_view_of(*topology, false) && v.wf() && s@ == view_to_mermaid_spec(v, Direction::LeftRight),
            Format::Ascii => r matches Rendered::Ascii { view, width: w, colour } && view.is_view_of(*topology, false)
                && view.wf() && w == width && !colour,
        },        rendered_ok(*topology, format, RenderOptions { width, collapse_shards: false, colour: false }, r),
{
    render_with(topology, format, RenderOptions { width, collapse_shards: false, colour: false })
}

} // verus!
