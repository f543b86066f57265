use vstd::prelude::*;

verus! {

/// A place in the buffer: a line index and a byte column within that line.
#[derive(Clone, Copy, Debug, PartialEq, Eq, Structural, PartialOrd, Ord, Hash)]
pub struct CursorPosition {
    pub line: usize,
    pub col: usize,
}

/// Lexicographic order on positions: by line, then by column.
pub open spec fn pos_lt(a: CursorPosition, b: CursorPosition) -> bool {
    a.line < b.line || (a.line == b.line && a.col < b.col)
}

pub open spec fn pos_le(a: CursorPosition, b: CursorPosition) -> bool {
    pos_lt(a, b) || a == b
}

impl CursorPosition {
    pub fn new(line: usize, col: usize) -> (r: Self)
        ensures
            r.line == line,
            r.col == col,
    {
        CursorPosition { line, col }
    }

    /// True when `self` comes strictly before `other`.
    pub fn precedes(&self, other: &CursorPosition) -> (r: bool)
        ensures
            r == pos_lt(*self, *other),
    {
        self.line < other.line || (self.line == other.line && self.col < other.col)
    }

    pub fn same_as(&self, other: &CursorPosition) -> (r: bool)
        ensures
            r == (*self == *other),
    {
        self.line == other.line && self.col == other.col
    }
}

/// A caret with an optional anchor; anchor and caret together span a selection.
#[derive(Clone, Copy, Debug, PartialEq, Eq, Structural)]
pub struct Cursor {
    pub position: CursorPosition,
    pub anchor: Option<CursorPosition>,
}

/// The selection of a cursor as an ordered pair, when it spans something.
pub open spec fn selection_of(c: Cursor) -> Option<(CursorPosition, CursorPosition)> {
    match c.anchor {
        Some(a) => if pos_lt(a, c.position) {
            Some((a, c.position))
        } else if pos_lt(c.position, a) {
            Some((c.position, a))
        } else {
            None
        },
        None => None,
    }
}

/// The earlier end of a cursor's span (the caret itself when nothing is selected).
pub open spec fn start_of(c: Cursor) -> CursorPosition {
    match c.anchor {
        Some(a) => if pos_lt(a, c.position) {
            a
        } else {
            c.position
        },
        None => c.position,
    }
}

/// The later end of a cursor's span (the caret itself when nothing is selected).
pub open spec fn end_of(c: Cursor) -> CursorPosition {
    match c.anchor {
        Some(a) => if pos_lt(c.position, a) {
            a
        } else {
            c.position
        },
        None => c.position,
    }
}

impl Cursor {
    /// A caret at (`line`, `col`) with no selection.
    pub fn new(line: usize, col: usize) -> (r: Self)
        ensures
            r.position == (CursorPosition { line, col }),
            r.anchor is None,
    {
        Cursor { position: CursorPosition::new(line, col), anchor: None }
    }

    pub fn selection_range(&self) -> (r: Option<(CursorPosition, CursorPosition)>)
        ensures
            r == selection_of(*self),
    {
        match self.anchor {
            Some(a) => {
                if a.precedes(&self.position) {
                    Some((a, self.position))
                } else if self.position.precedes(&a) {
                    Some((self.position, a))
                } else {
                    None
                }
            },
            None => None,
        }
    }

    pub fn has_selection(&self) -> (r: bool)
        ensures
            r == (selection_of(*self) is Some),
    {
        self.selection_range().is_some()
    }

    pub fn selection_start(&self) -> (r: CursorPosition)
        ensures
            r == start_of(*self),
    {
        match self.anchor {
            Some(a) => if a.precedes(&self.position) {
                a
            } else {
                self.position
            },
            None => self.position,
        }
    }

    pub fn selection_end(&self) -> (r: CursorPosition)
        ensures
            r == end_of(*self),
    {
        match self.anchor {
            Some(a) => if self.position.precedes(&a) {
                a
            } else {
                self.position
            },
            None => self.position,
        }
    }
}

} // verus!
