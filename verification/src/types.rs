//! Board primitives: stone colours and bounded 2D coordinates with a
//! size-parameterized orthogonal neighbourhood.

use vstd::prelude::*;

verus! {

/// One of the two stone colours.
#[derive(Clone, Copy, PartialEq, Eq, Debug, Hash, Structural)]
pub enum Color {
    Black,
    White,
}

impl Color {
    /// The other colour.
    pub open spec fn spec_opposite(self) -> Color {
        match self {
            Color::Black => Color::White,
            Color::White => Color::Black,
        }
    }

    pub fn opposite(&self) -> (r: Color)
        ensures
            r == self.spec_opposite(),
    {
        match self {
            Color::Black => Color::White,
            Color::White => Color::Black,
        }
    }
}

/// `opposite` is a total involution: applying it twice gives the colour back,
/// and it never fixes a colour.
pub proof fn lemma_opposite_involution(c: Color)
    ensures
        c.spec_opposite().spec_opposite() == c,
        c.spec_opposite() != c,
{
}

/// A 2D coordinate on a square board. A position is only meaningful for a
/// given board size; validity is checked against that size.
#[derive(Clone, Copy, PartialEq, Eq, Debug, Hash, Structural)]
pub struct Position {
    pub x: usize,
    pub y: usize,
}

/// Two positions are orthogonally adjacent: they differ by exactly one step
/// along exactly one axis.
pub open spec fn is_adjacent(p: Position, q: Position) -> bool {
    ||| p.x == q.x && (p.y + 1 == q.y || q.y + 1 == p.y)
    ||| p.y == q.y && (p.x + 1 == q.x || q.x + 1 == p.x)
}

impl Position {
    /// Both coordinates lie in `[0, size)`.
    pub open spec fn valid_for(self, size: nat) -> bool {
        self.x < size && self.y < size
    }

    pub fn new(x: usize, y: usize) -> (r: Position)
        ensures
            r == (Position { x, y }),
    {
        Position { x, y }
    }

    pub fn is_valid(&self) -> (r: bool)
        ensures
            r == self.valid_for(19),
    {
        self.is_valid_for_size(19)
    }

    pub fn is_valid_for_size(&self, size: usize) -> (r: bool)
        ensures
            r == self.valid_for(size as nat),
    {
        self.x < size && self.y < size
    }

    /// The in-bounds orthogonal neighbours on a 19x19 board.
    pub fn adjacent(&self) -> (r: Vec<Position>)
        ensures
            r@.no_duplicates(),
            forall|q: Position| r@.contains(q) ==> is_adjacent(*self, q),
            self.valid_for(19) ==> forall|q: Position|
                r@.contains(q) <==> is_adjacent(*self, q) && q.valid_for(19),
    {
        self.adjacent_for_size(19)
    }

    /// The orthogonal neighbours clipped to a `size`-sided board. For a valid
    /// position the result holds exactly the valid adjacent positions, each
    /// once; no wraparound.
    pub fn adjacent_for_size(&self, size: usize) -> (r: Vec<Position>)
        ensures
            r@.no_duplicates(),
            forall|q: Position| r@.contains(q) ==> is_adjacent(*self, q),
            self.valid_for(size as nat) ==> forall|q: Position|
                r@.contains(q) <==> is_adjacent(*self, q) && q.valid_for(size as nat),
    {
        let mut positions: Vec<Position> = Vec::new();

        if self.x > 0 {
            positions.push(Position { x: self.x - 1, y: self.y });
        }
        if size > 0 && self.x < size - 1 {
            positions.push(Position { x: self.x + 1, y: self.y });
        }
        if self.y > 0 {
            positions.push(Position { x: self.x, y: self.y - 1 });
        }
        if size > 0 && self.y < size - 1 {
            positions.push(Position { x: self.x, y: self.y + 1 });
        }

        proof {
            if self.valid_for(size as nat) {
                assert forall|q: Position|
                    is_adjacent(*self, q) && q.valid_for(size as nat) implies positions@.contains(
                    q,
                ) by {
                    if q.x == self.x && self.y + 1 == q.y {
                        assert(positions@.last() == q);
                    } else if q.x == self.x && q.y + 1 == self.y {
                        assert(positions@[positions@.len() - (if size > 0 && self.y + 1 < size {
                            2int
                        } else {
                            1int
                        })] == q);
                    } else {
                        assert(q.y == self.y);
                        if self.x + 1 == q.x {
                            assert(positions@[if self.x > 0 {
                                1int
                            } else {
                                0int
                            }] == q);
                        } else {
                            assert(q.x + 1 == self.x);
                            assert(positions@[0] == q);
                        }
                    }
                }
            }
        }

        positions
    }
}

} // verus!
