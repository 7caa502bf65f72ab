use vstd::prelude::*;

use crate::content::Node;
use crate::render::Metadata;

verus! {

/// How much of a node the viewport shows, in terminal rows.
#[derive(PartialEq, Eq, Structural, Debug, Clone, Copy)]
pub enum NodeView {
    /// Nothing of the node is on screen.
    Hidden,
    /// The node crosses the top edge: rows skipped at its top, rows shown.
    UpperBorder(usize, usize),
    /// The node crosses the bottom edge: screen row of its top, rows shown.
    LowerBorder(usize, usize),
    /// The whole node is on screen: screen row of its top, its height.
    Visible(usize, usize),
}

/// Number of lines of the inclusive line range `[start, end]`.
pub open spec fn span_height(start: int, end: int) -> int {
    end - start + 1
}

/// Where a node of lines `[start, end]` stands in a viewport of `rows` rows,
/// when its top lies `offset` rows below the top of the viewport (negative:
/// above it).
pub open spec fn classify_spec(start: int, end: int, rows: int, offset: int) -> NodeView {
    let height = span_height(start, end);
    if offset <= -height {
        NodeView::Hidden
    } else if offset < 0 {
        NodeView::UpperBorder((-offset) as usize, (height + offset) as usize)
    } else {
        let to_bottom = rows - offset;
        if to_bottom <= 0 {
            NodeView::Hidden
        } else if to_bottom < height {
            NodeView::LowerBorder(offset as usize, to_bottom as usize)
        } else {
            NodeView::Visible(offset as usize, height as usize)
        }
    }
}

/// A range of lines whose height can be counted in a `usize`.
pub open spec fn range_ok(range: (usize, usize)) -> bool {
    &&& range.0 <= range.1
    &&& span_height(range.0 as int, range.1 as int) <= usize::MAX
}

/// Classifies the line range `range` in a viewport of `rows` rows at `offset`.
pub fn classify(range: (usize, usize), rows: u64, offset: isize) -> (r: NodeView)
    requires
        range_ok(range),
    ensures
        r == classify_spec(range.0 as int, range.1 as int, rows as int, offset as int),
{
    let height: i128 = range.1 as i128 - range.0 as i128 + 1;
    let off: i128 = offset as i128;
    if off <= -height {
        NodeView::Hidden
    } else if off < 0 {
        NodeView::UpperBorder((-off) as usize, (height + off) as usize)
    } else {
        let to_bottom: i128 = rows as i128 - off;
        if to_bottom <= 0 {
            NodeView::Hidden
        } else if to_bottom < height {
            NodeView::LowerBorder(off as usize, to_bottom as usize)
        } else {
            NodeView::Visible(off as usize, height as usize)
        }
    }
}

impl NodeView {
    /// The view of `node` at `offset`, with the viewport height of `metadata`.
    pub fn new<A>(node: &Node<A>, metadata: &Metadata, offset: isize) -> (r: NodeView)
        requires
            range_ok(node.range),
        ensures
            r == classify_spec(
                node.range.0 as int,
                node.range.1 as int,
                metadata.viewport.0 as int,
                offset as int,
            ),
    {
        classify(node.range, metadata.viewport.0, offset)
    }

    /// Whether any part of the node is on screen.
    pub fn is_visible(&self) -> (r: bool)
        ensures
            r == !(self is Hidden),
    {
        match self {
            NodeView::Hidden => false,
            _ => true,
        }
    }
}

} // verus!
