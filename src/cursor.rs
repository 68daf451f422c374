//! A caret or a selection in a read-only panel.
use vstd::prelude::*;

verus! {

/// Where the caret is: a selection from `start` to `end` (either order), a
/// caret at an offset, or nowhere.
#[derive(Clone, Copy, Debug, PartialEq, Eq, Structural, Hash)]
pub enum Position {
    Region { start: usize, end: usize },
    Caret(usize),
    Empty,
}

#[derive(Clone, Copy, Debug, PartialEq, Eq, Structural, Hash)]
pub struct Cursor {
    pub dragging: bool,
    pub position: Position,
}

impl Cursor {
    pub fn new(position: Position) -> (r: Cursor)
        ensures
            r.position == position,
            !r.dragging,
    {
        Cursor { dragging: false, position }
    }

    /// The moving end: the end of a selection, or the caret.
    pub fn offset(&self) -> (r: Option<usize>)
        ensures
            r == match self.position {
                Position::Region { end, .. } => Some(end),
                Position::Caret(offset) => Some(offset),
                Position::Empty => None::<usize>,
            },
    {
        match self.position {
            Position::Region { end, .. } => Some(end),
            Position::Caret(offset) => Some(offset),
            Position::Empty => None,
        }
    }

    /// The anchored end: the start of a selection, or the caret.
    pub fn start(&self) -> (r: Option<usize>)
        ensures
            r == match self.position {
                Position::Region { start, .. } => Some(start),
                Position::Caret(offset) => Some(offset),
                Position::Empty => None::<usize>,
            },
    {
        match self.position {
            Position::Region { start, .. } => Some(start),
            Position::Caret(offset) => Some(offset),
            Position::Empty => None,
        }
    }

    /// The selected range in order, when a non-empty selection is made.
    pub fn region(&self) -> (r: Option<(usize, usize)>)
        ensures
            r == match self.position {
                Position::Region { start, end } => if start < end {
                    Some((start, end))
                } else if start > end {
                    Some((end, start))
                } else {
                    None::<(usize, usize)>
                },
                _ => None::<(usize, usize)>,
            },
    {
        if let Position::Region { start, end } = self.position {
            if start < end {
                Some((start, end))
            } else if start > end {
                Some((end, start))
            } else {
                None
            }
        } else {
            None
        }
    }
}

} // verus!
