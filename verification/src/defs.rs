//! The public problem vocabulary (items, colors, constraints, construction
//! errors) and the two kinds of records the grid is made of: item headers and
//! node cells.

use vstd::prelude::*;

verus! {

/// Kind of an item: a primary item must be covered exactly once by a
/// solution; a secondary item may be left uncovered, but every selected
/// subset touching it must agree on its color.
#[derive(Clone, Copy, Debug, PartialEq, Eq, Hash, Structural)]
pub enum HeaderType {
    Primary,
    Secondary,
}

/// A secondary item together with the color a subset assigns to it.
#[derive(Clone, Debug, PartialEq, Eq, Hash)]
pub struct ColorItem<I> {
    pub item: I,
    pub color: u32,
}

impl<I> ColorItem<I> {
    pub fn new(item: I, color: u32) -> (r: Self)
        ensures
            r.item == item,
            r.color == color,
    {
        ColorItem { item, color }
    }

    pub fn item(&self) -> (r: &I)
        ensures
            r == &self.item,
    {
        &self.item
    }

    pub fn color(&self) -> (r: u32)
        ensures
            r == self.color,
    {
        self.color
    }
}

/// One entry of a subset: either a primary item, or a secondary item with a
/// color.
#[derive(Clone, Debug, PartialEq, Eq, Hash)]
pub enum Constraint<I> {
    Primary(I),
    Secondary(ColorItem<I>),
}

impl<I> Constraint<I> {
    /// The item this constraint covers.
    pub open spec fn spec_item(&self) -> I {
        match self {
            Constraint::Primary(item) => *item,
            Constraint::Secondary(ci) => ci.item,
        }
    }

    /// The color this constraint assigns, if it is a secondary constraint.
    pub open spec fn spec_color(&self) -> Option<u32> {
        match self {
            Constraint::Primary(_) => None,
            Constraint::Secondary(ci) => Some(ci.color),
        }
    }

    /// The kind of item this constraint is allowed to reference.
    pub open spec fn spec_kind(&self) -> HeaderType {
        match self {
            Constraint::Primary(_) => HeaderType::Primary,
            Constraint::Secondary(_) => HeaderType::Secondary,
        }
    }

    pub fn item(&self) -> (r: &I)
        ensures
            r == &self.spec_item(),
    {
        match self {
            Constraint::Primary(item) => item,
            Constraint::Secondary(ci) => &ci.item,
        }
    }

    pub fn color(&self) -> (r: Option<u32>)
        ensures
            r == self.spec_color(),
    {
        match self {
            Constraint::Primary(_) => None,
            Constraint::Secondary(ci) => Some(ci.color),
        }
    }
}

/// Why a grid could not be built from the given items and subsets.
#[derive(Clone, Copy, Debug, PartialEq, Eq, Structural)]
pub enum DlxError {
    /// The same item identifier was declared twice.
    DuplicateItem,
    /// The same subset name was used twice.
    DuplicateSubsetName,
    /// A constraint references an item that was never declared.
    UnknownItem,
    /// A primary constraint names a secondary item, or the other way round.
    KindMismatch,
}

/// An item header: its identifier (sentinels carry none), its kind, and its
/// place in the circular list of currently active items of that kind.
#[derive(Clone, Debug)]
pub struct Header<I> {
    pub item: Option<I>,
    pub prev: usize,
    pub next: usize,
    pub header_type: HeaderType,
}

impl<I> Header<I> {
    pub open spec fn spec_is_primary(&self) -> bool {
        self.header_type is Primary
    }

    pub fn is_primary(&self) -> (r: bool)
        ensures
            r == self.spec_is_primary(),
    {
        match self.header_type {
            HeaderType::Primary => true,
            HeaderType::Secondary => false,
        }
    }
}

/// Per-kind payload of a normal node cell: a header cell counts the body
/// cells currently linked into its item's ring; a body cell knows its item's
/// header index and, for a secondary constraint, its color.
#[derive(Clone, Copy, Debug)]
pub enum NodeType {
    Header { size: usize },
    Body { color: Option<u32>, top: usize },
}

/// One cell of the node array. `Boundary` cells separate the runs of body
/// cells belonging to adjacent subsets and let a horizontal walk loop around
/// a subset in constant time; `Normal` cells (header or body) sit on the
/// vertical ring of their item.
#[derive(Clone, Debug)]
pub enum Node<N> {
    Boundary { name: Option<N>, first_for_prev: usize, last_for_next: usize },
    Normal { prev: usize, next: usize, node_type: NodeType },
}

impl<N> Node<N> {
    pub open spec fn is_boundary(&self) -> bool {
        self is Boundary
    }

    pub open spec fn is_normal(&self) -> bool {
        self is Normal
    }

    pub open spec fn is_header_cell(&self) -> bool {
        match self {
            Node::Normal { node_type, .. } => node_type is Header,
            _ => false,
        }
    }

    pub open spec fn is_body_cell(&self) -> bool {
        match self {
            Node::Normal { node_type, .. } => node_type is Body,
            _ => false,
        }
    }

    pub open spec fn spec_prev(&self) -> int {
        match self {
            Node::Normal { prev, .. } => *prev as int,
            _ => vstd::pervasive::arbitrary(),
        }
    }

    pub open spec fn spec_next(&self) -> int {
        match self {
            Node::Normal { next, .. } => *next as int,
            _ => vstd::pervasive::arbitrary(),
        }
    }

    pub open spec fn spec_len(&self) -> usize {
        match self {
            Node::Normal { node_type: NodeType::Header { size }, .. } => *size,
            _ => vstd::pervasive::arbitrary(),
        }
    }

    pub open spec fn spec_color(&self) -> Option<u32> {
        match self {
            Node::Normal { node_type: NodeType::Body { color, .. }, .. } => *color,
            _ => vstd::pervasive::arbitrary(),
        }
    }

    pub open spec fn spec_top(&self) -> int {
        match self {
            Node::Normal { node_type: NodeType::Body { top, .. }, .. } => *top as int,
            _ => vstd::pervasive::arbitrary(),
        }
    }

    pub open spec fn spec_first_for_prev(&self) -> int {
        match self {
            Node::Boundary { first_for_prev, .. } => *first_for_prev as int,
            _ => vstd::pervasive::arbitrary(),
        }
    }

    pub open spec fn spec_last_for_next(&self) -> int {
        match self {
            Node::Boundary { last_for_next, .. } => *last_for_next as int,
            _ => vstd::pervasive::arbitrary(),
        }
    }

    pub open spec fn spec_name(&self) -> Option<N> {
        match self {
            Node::Boundary { name, .. } => *name,
            _ => vstd::pervasive::arbitrary(),
        }
    }

    /// Number of body cells currently linked into this header cell's ring.
    pub fn len(&self) -> (r: usize)
        requires
            self.is_header_cell(),
        ensures
            r == self.spec_len(),
    {
        match self {
            Node::Normal { node_type: NodeType::Header { size }, .. } => *size,
            _ => vstd::pervasive::unreached(),
        }
    }

    /// The color of this body cell, or `None` for a primary constraint or a
    /// cell already satisfied for its committed color.
    pub fn color(&self) -> (r: Option<u32>)
        requires
            self.is_body_cell(),
        ensures
            r == self.spec_color(),
    {
        match self {
            Node::Normal { node_type: NodeType::Body { color, .. }, .. } => *color,
            _ => vstd::pervasive::unreached(),
        }
    }

    /// The header index of this body cell's item.
    pub fn top(&self) -> (r: usize)
        requires
            self.is_body_cell(),
        ensures
            r as int == self.spec_top(),
    {
        match self {
            Node::Normal { node_type: NodeType::Body { top, .. }, .. } => *top,
            _ => vstd::pervasive::unreached(),
        }
    }

    pub fn prev(&self) -> (r: usize)
        requires
            self.is_normal(),
        ensures
            r as int == self.spec_prev(),
    {
        match self {
            Node::Normal { prev, .. } => *prev,
            _ => vstd::pervasive::unreached(),
        }
    }

    pub fn next(&self) -> (r: usize)
        requires
            self.is_normal(),
        ensures
            r as int == self.spec_next(),
    {
        match self {
            Node::Normal { next, .. } => *next,
            _ => vstd::pervasive::unreached(),
        }
    }

    pub fn set_prev(&mut self, idx: usize)
        requires
            old(self).is_normal(),
        ensures
            *final(self) == (Node::<N>::Normal {
                prev: idx,
                next: old(self).spec_next() as usize,
                node_type: old(self).spec_node_type(),
            }),
    {
        match self {
            Node::Normal { prev, .. } => {
                *prev = idx;
            },
            _ => {
                proof {
                    assert(false);
                }
            },
        }
    }

    pub fn set_next(&mut self, idx: usize)
        requires
            old(self).is_normal(),
        ensures
            *final(self) == (Node::<N>::Normal {
                prev: old(self).spec_prev() as usize,
                next: idx,
                node_type: old(self).spec_node_type(),
            }),
    {
        match self {
            Node::Normal { next, .. } => {
                *next = idx;
            },
            _ => {
                proof {
                    assert(false);
                }
            },
        }
    }

    pub open spec fn spec_node_type(&self) -> NodeType {
        match self {
            Node::Normal { node_type, .. } => *node_type,
            _ => vstd::pervasive::arbitrary(),
        }
    }

    /// Whether this cell is a boundary cell.
    pub fn is_boundary_cell(&self) -> (r: bool)
        ensures
            r == self.is_boundary(),
    {
        match self {
            Node::Boundary { .. } => true,
            Node::Normal { .. } => false,
        }
    }

    /// The per-kind payload of a normal cell.
    pub fn ty(&self) -> (r: NodeType)
        requires
            self.is_normal(),
        ensures
            r == self.spec_node_type(),
    {
        match self {
            Node::Normal { node_type, .. } => *node_type,
            _ => vstd::pervasive::unreached(),
        }
    }

    /// Index of the first body cell of the subset that precedes this boundary.
    pub fn first_for_prev(&self) -> (r: usize)
        requires
            self.is_boundary(),
        ensures
            r as int == self.spec_first_for_prev(),
    {
        match self {
            Node::Boundary { first_for_prev, .. } => *first_for_prev,
            _ => vstd::pervasive::unreached(),
        }
    }

    /// Index of the last body cell of the subset that follows this boundary.
    pub fn last_for_next(&self) -> (r: usize)
        requires
            self.is_boundary(),
        ensures
            r as int == self.spec_last_for_next(),
    {
        match self {
            Node::Boundary { last_for_next, .. } => *last_for_next,
            _ => vstd::pervasive::unreached(),
        }
    }
}

} // verus!
