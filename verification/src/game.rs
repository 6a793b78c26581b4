//! The game: one board plus turn, prisoner and history state. Its single
//! transactional operation `place_stone` validates, applies captures,
//! checks ko, and either commits in full or changes nothing.

use vstd::prelude::*;
use crate::board::Board;
use crate::board::BoardView;
use crate::rules;
use crate::rules::after_move;
use crate::rules::board_hash;
use crate::rules::captured_set;
use crate::rules::in_recent_history;
use crate::rules::is_suicide_spec;
use crate::rules::place;
use crate::types::Color;
use crate::types::Position;

verus! {

/// The reason a move request was rejected. A rejected move never changes
/// the game.
#[derive(Clone, Copy, PartialEq, Eq, Debug, Structural)]
pub enum PlaceError {
    WrongTurn,
    InvalidPosition,
    Occupied,
    Suicide,
    KoViolation,
}

impl PlaceError {
    /// The player-facing wording of each rejection.
    pub open spec fn spec_message(self) -> Seq<char> {
        match self {
            PlaceError::WrongTurn => "Not your turn"@,
            PlaceError::InvalidPosition => "Invalid position"@,
            PlaceError::Occupied => "Intersection occupied"@,
            PlaceError::Suicide => "Suicide move not allowed"@,
            PlaceError::KoViolation => "Ko rule violation"@,
        }
    }

    pub fn message(&self) -> (r: String)
        ensures
            r@ == self.spec_message(),
    {
        match self {
            PlaceError::WrongTurn => "Not your turn".to_owned(),
            PlaceError::InvalidPosition => "Invalid position".to_owned(),
            PlaceError::Occupied => "Intersection occupied".to_owned(),
            PlaceError::Suicide => "Suicide move not allowed".to_owned(),
            PlaceError::KoViolation => "Ko rule violation".to_owned(),
        }
    }
}

/// The mathematical content of a game.
#[verifier::ext_equal]
pub struct GameView {
    pub board: BoardView,
    pub turn: Color,
    /// Stones Black has captured.
    pub black_captures: nat,
    /// Stones White has captured.
    pub white_captures: nat,
    /// One board hash per committed move since the last reset.
    pub history: Seq<u64>,
}

impl GameView {
    /// The state a fresh game of the given size starts in: empty board,
    /// Black to move, no prisoners, no history.
    pub open spec fn init(size: nat) -> GameView {
        GameView {
            board: BoardView { size, stones: Map::empty() },
            turn: Color::Black,
            black_captures: 0,
            white_captures: 0,
            history: Seq::empty(),
        }
    }

    /// The outcome of a move request, decided by the rules alone, checked
    /// in this order: turn, bounds, occupancy, suicide, ko.
    pub open spec fn place_outcome(self, pos: Position, color: Color) -> Result<(), PlaceError> {
        if color != self.turn {
            Err(PlaceError::WrongTurn)
        } else if !pos.valid_for(self.board.size) {
            Err(PlaceError::InvalidPosition)
        } else if self.board.stone_at(pos) is Some {
            Err(PlaceError::Occupied)
        } else if is_suicide_spec(self.board, pos, color) {
            Err(PlaceError::Suicide)
        } else if in_recent_history(
            board_hash(after_move(self.board, pos, color)),
            self.history,
        ) {
            Err(PlaceError::KoViolation)
        } else {
            Ok(())
        }
    }

    /// The state after a committed move: the stone placed and captures
    /// removed, every capture credited to the mover, the post-capture hash
    /// appended, and the turn flipped.
    pub open spec fn place_result(self, pos: Position, color: Color) -> GameView {
        let nb = after_move(self.board, pos, color);
        let n = captured_set(place(self.board, pos, color), color.spec_opposite()).len();
        GameView {
            board: nb,
            turn: color.spec_opposite(),
            black_captures: if color is Black {
                self.black_captures + n
            } else {
                self.black_captures
            },
            white_captures: if color is White {
                self.white_captures + n
            } else {
                self.white_captures
            },
            history: self.history.push(board_hash(nb)),
        }
    }
}

/// The authoritative game state.
pub struct Game {
    board: Board,
    turn: Color,
    prisoners: (u64, u64),
    history: Vec<u64>,
}

impl View for Game {
    type V = GameView;

    closed spec fn view(&self) -> GameView {
        GameView {
            board: self.board@,
            turn: self.turn,
            black_captures: self.prisoners.0 as nat,
            white_captures: self.prisoners.1 as nat,
            history: self.history@,
        }
    }
}

impl Game {
    /// The bookkeeping invariant. Every committed move put exactly one
    /// stone down and credited every stone it removed, so the prisoner
    /// tallies plus the stones still on the board equal the number of
    /// committed moves — which also bounds the tallies.
    pub closed spec fn wf(self) -> bool {
        &&& self.board.inv()
        &&& self.prisoners.0 + self.prisoners.1 + self.board.stone_count()
            == self.history@.len()
    }

    /// A fresh standard game on a 19x19 board.
    pub fn new() -> (r: Game)
        ensures
            r.wf(),
            r@ == GameView::init(19),
    {
        let r = Game {
            board: Board::new(),
            turn: Color::Black,
            prisoners: (0, 0),
            history: Vec::new(),
        };
        proof {
            assert(r@ =~= GameView::init(19));
        }
        r
    }

    /// Attempt to place a stone: fully committed, or rejected with exactly
    /// one error and no state change at all.
    pub fn place_stone(&mut self, pos: Position, color: Color) -> (r: Result<(), PlaceError>)
        requires
            old(self).wf(),
        ensures
            final(self).wf(),
            r == old(self)@.place_outcome(pos, color),
            r is Ok ==> final(self)@ == old(self)@.place_result(pos, color),
            r is Err ==> final(self)@ == old(self)@,
    {
        let ghost g0 = self@;
        // 1. Only the player whose turn it is may move.
        if color != self.turn {
            return Err(PlaceError::WrongTurn);
        }
        // 2. The position must lie on the current board.
        let size = self.board.size();
        if !pos.is_valid_for_size(size) {
            return Err(PlaceError::InvalidPosition);
        }
        // 3. The intersection must be empty.
        if !self.board.is_empty(pos) {
            return Err(PlaceError::Occupied);
        }
        // 4. The suicide rule, judged on the board before placement.
        if rules::is_suicide(&self.board, pos, color) {
            return Err(PlaceError::Suicide);
        }
        // 5. Snapshot the board for a possible rollback.
        let saved_board = self.board.clone_board();
        // 6. Place the stone on the live board.
        self.board.set(pos, Some(color));
        let ghost b1 = self.board@;
        proof {
            assert(b1 == place(g0.board, pos, color));
            self.board.lemma_inv_wf();
        }
        // 7. Remove every captured opponent group.
        let opponent_color = color.opposite();
        let captures = rules::find_captures(&self.board, opponent_color);
        let ghost count1 = self.board.stone_count();
        let num_captures = captures.len();
        let mut ci: usize = 0;
        while ci < captures.len()
            invariant
                self.board.inv(),
                b1.wf(),
                self.board@.size == b1.size,
                ci <= captures@.len(),
                captures@.no_duplicates(),
                forall|q: Position| captures@.contains(q) <==> captured_set(
                    b1,
                    opponent_color,
                ).contains(q),
                forall|q: Position| #[trigger] self.board@.stone_at(q) == (if exists|tt: int|
                    0 <= tt < ci && captures@[tt] == q {
                    None::<Color>
                } else {
                    b1.stone_at(q)
                }),
                self.board.stone_count() == count1 - ci,
                self.turn == g0.turn,
                self.prisoners.0 == g0.black_captures,
                self.prisoners.1 == g0.white_captures,
                self.history@ == g0.history,
            decreases captures@.len() - ci,
        {
            let c = captures[ci];
            proof {
                assert(captures@[ci as int] == c);
                assert(captures@.contains(c));
                assert(captured_set(b1, opponent_color).contains(c));
                assert(self.board@.stone_at(c) == b1.stone_at(c)) by {
                    if exists|tt: int| 0 <= tt < ci && captures@[tt] == c {
                        let tt = choose|tt: int| 0 <= tt < ci && captures@[tt] == c;
                        assert(captures@[tt] == captures@[ci as int]);
                        assert(false);
                    }
                }
                assert(b1.stone_at(c) is Some);
                assert(c.valid_for(b1.size));
            }
            let ghost pre = self.board@;
            self.board.set(c, None);
            proof {
                assert forall|q: Position| #[trigger] self.board@.stone_at(q) == (if exists|
                    tt: int,
                | 0 <= tt < ci + 1 && captures@[tt] == q {
                    None::<Color>
                } else {
                    b1.stone_at(q)
                }) by {
                    if q == c {
                        assert(0 <= ci < ci + 1 && captures@[ci as int] == q);
                        assert(self.board@.stone_at(q) is None);
                    } else {
                        assert(self.board@.stone_at(q) == pre.stone_at(q));
                        if exists|tt: int| 0 <= tt < ci + 1 && captures@[tt] == q {
                            let tt = choose|tt: int|
                                0 <= tt < ci + 1 && captures@[tt] == q;
                            assert(tt < ci);
                        }
                    }
                }
            }
            ci += 1;
        }
        // The live board now shows the whole move applied.
        proof {
            let am = after_move(g0.board, pos, color);
            assert forall|q: Position| #[trigger] self.board@.stone_at(q) == am.stone_at(
                q,
            ) by {
                if exists|tt: int| 0 <= tt < captures@.len() && captures@[tt] == q {
                    let tt = choose|tt: int|
                        0 <= tt < captures@.len() && captures@[tt] == q;
                    assert(captures@.contains(q));
                    assert(captured_set(b1, opponent_color).contains(q));
                } else {
                    if captures@.contains(q) {
                        let tt = choose|tt: int|
                            0 <= tt < captures@.len() && captures@[tt] == q;
                    }
                    assert(!captured_set(b1, opponent_color).contains(q));
                }
            }
            assert forall|q: Position|
                self.board@.stones.dom().contains(q) <==> am.stones.dom().contains(q) by {
                assert(self.board@.stone_at(q) == am.stone_at(q));
            }
            assert forall|q: Position| am.stones.dom().contains(q) implies self.board@.stones[q]
                == am.stones[q] by {
                assert(self.board@.stone_at(q) == am.stone_at(q));
            }
            assert(self.board@.stones =~= am.stones);
            assert(self.board@ =~= am);
        }
        // 8. Reject and roll back if the new position repeats recent history.
        let board_hash_val = rules::hash_board(&self.board);
        let is_ko = rules::is_ko_violation(board_hash_val, self.history.as_slice());
        if is_ko {
            self.board = saved_board;
            proof {
                assert(self@ =~= g0);
            }
            return Err(PlaceError::KoViolation);
        }
        // 9. Commit: append the hash, credit the mover, flip the turn.
        self.history.push(board_hash_val);
        proof {
            // The prisoner tallies stay within the machine word: together
            // with the stones on the board they equal the move count, and
            // the history is an in-memory vector.
            vstd::std_specs::vec::axiom_spec_len(&self.history);
            self.board.lemma_stone_count_bounds();
        }
        let n64 = num_captures as u64;
        match color {
            Color::Black => {
                self.prisoners = (self.prisoners.0 + n64, self.prisoners.1);
            },
            Color::White => {
                self.prisoners = (self.prisoners.0, self.prisoners.1 + n64);
            },
        }
        self.turn = self.turn.opposite();
        proof {
            assert(captures@.len() == captured_set(b1, opponent_color).len());
            assert(self@ =~= g0.place_result(pos, color));
        }
        Ok(())
    }

    /// Flip whose turn it is. No legality check is made here: checking the
    /// caller's identity is the session layer's responsibility.
    pub fn pass(&mut self)
        requires
            old(self).wf(),
        ensures
            final(self).wf(),
            final(self)@.board == old(self)@.board,
            final(self)@.turn == old(self)@.turn.spec_opposite(),
            final(self)@.black_captures == old(self)@.black_captures,
            final(self)@.white_captures == old(self)@.white_captures,
            final(self)@.history == old(self)@.history,
    {
        self.turn = self.turn.opposite();
    }

    /// Reset to a fresh standard game, discarding all prior state.
    pub fn reset(&mut self)
        ensures
            final(self).wf(),
            final(self)@ == GameView::init(19),
    {
        *self = Game::new();
    }

    /// Reset to a fresh game on an `size` x `size` board, discarding all
    /// prior state.
    pub fn reset_with_size(&mut self, size: usize)
        requires
            1 <= size,
            size * size <= usize::MAX,
        ensures
            final(self).wf(),
            final(self)@ == GameView::init(size as nat),
    {
        let r = Game {
            board: Board::with_size(size),
            turn: Color::Black,
            prisoners: (0, 0),
            history: Vec::new(),
        };
        proof {
            assert(r@ =~= GameView::init(size as nat));
        }
        *self = r;
    }

    /// The board as rows of optional colours: entry `[y][x]` is the cell at
    /// `(x, y)`.
    pub fn get_board(&self) -> (r: Vec<Vec<Option<Color>>>)
        requires
            self.wf(),
        ensures
            r@.len() == self@.board.size,
            forall|yy: int| 0 <= yy < r@.len() ==> r@[yy]@.len() == self@.board.size,
            forall|yy: int, xx: int|
                0 <= yy < r@.len() && 0 <= xx < r@[yy]@.len() ==> r@[yy]@[xx]
                    == self@.board.stone_at(Position { x: xx as usize, y: yy as usize }),
    {
        let size = self.board.size();
        let mut result: Vec<Vec<Option<Color>>> = Vec::new();
        let mut y: usize = 0;
        while y < size
            invariant
                self.wf(),
                size as nat == self@.board.size,
                y <= size,
                result@.len() == y,
                forall|yy: int| 0 <= yy < y ==> result@[yy]@.len() == size as nat,
                forall|yy: int, xx: int|
                    0 <= yy < y && 0 <= xx < size ==> result@[yy]@[xx] == self@.board.stone_at(
                        Position { x: xx as usize, y: yy as usize },
                    ),
            decreases size - y,
        {
            let mut row: Vec<Option<Color>> = Vec::new();
            let mut x: usize = 0;
            while x < size
                invariant
                    self.wf(),
                    size as nat == self@.board.size,
                    y < size,
                    x <= size,
                    row@.len() == x,
                    forall|xx: int| 0 <= xx < x ==> row@[xx] == self@.board.stone_at(
                        Position { x: xx as usize, y: y as usize },
                    ),
                decreases size - x,
            {
                row.push(self.board.get(Position::new(x, y)));
                x += 1;
            }
            result.push(row);
            y += 1;
        }
        result
    }

    /// The side length of the current board.
    pub fn get_board_size(&self) -> (r: usize)
        ensures
            r as nat == self@.board.size,
    {
        self.board.size()
    }

    /// Whose move is legal next.
    pub fn get_turn(&self) -> (r: Color)
        ensures
            r == self@.turn,
    {
        self.turn
    }

    /// Prisoner tallies: `(stones Black has captured, stones White has
    /// captured)`.
    pub fn get_prisoners(&self) -> (r: (u64, u64))
        ensures
            r.0 as nat == self@.black_captures,
            r.1 as nat == self@.white_captures,
    {
        self.prisoners
    }
}

} // verus!
