//! The rules engine: capture detection, the suicide check, the
//! order-independent board hash, and the bounded positional-repeat (ko)
//! check. All of it works over plain boards and hash histories.

use vstd::prelude::*;
use crate::board::Board;
use crate::board::BoardView;
use crate::board::cell_index;
use crate::board::connected;
use crate::board::group_of;
use crate::board::lemma_cell_index_bound;
use crate::board::lemma_cell_index_injective;
use crate::board::lemma_connected_refl;
use crate::board::lemma_group_member_stone;
use crate::board::lemma_group_of_member;
use crate::board::lemma_liberties_of_member;
use crate::board::lemma_push_contains;
use crate::board::lemma_push_no_duplicates;
use crate::board::liberties_of;
use crate::types::Color;
use crate::types::Position;

verus! {

/// All positions holding a stone of colour `c` whose group has no liberties.
pub open spec fn captured_set(b: BoardView, c: Color) -> Set<Position> {
    Set::new(|q: Position| b.stone_at(q) == Some(c) && liberties_of(b, q).is_empty())
}

/// The board after placing a `c` stone at `p` (a no-op out of range).
pub open spec fn place(b: BoardView, p: Position, c: Color) -> BoardView {
    b.with_cell(p, Some(c))
}

/// The board with every position of `s` cleared.
pub open spec fn clear_all(b: BoardView, s: Set<Position>) -> BoardView {
    BoardView { size: b.size, stones: b.stones.remove_keys(s) }
}

/// The board after a whole move: the stone placed, then every zero-liberty
/// opponent group removed.
pub open spec fn after_move(b: BoardView, p: Position, c: Color) -> BoardView {
    let placed = place(b, p, c);
    clear_all(placed, captured_set(placed, c.spec_opposite()))
}

/// A placement is suicide when, with the stone placed and any captures it
/// makes removed, the placed stone's own group still has no liberties.
pub open spec fn is_suicide_spec(b: BoardView, p: Position, c: Color) -> bool {
    liberties_of(after_move(b, p, c), p).is_empty()
}

/// A stone of colour `opp` already found by the scan: it is connected to
/// some `opp` stone whose cell index lies below the scan cursor.
spec fn found_by(b: BoardView, opp: Color, cursor: int, q: Position) -> bool {
    b.stone_at(q) == Some(opp) && exists|p: Position|
        #[trigger] connected(b, p, q) && p.valid_for(b.size) && cell_index(b.size, p) < cursor
            && b.stone_at(p) == Some(opp)
}

/// Detect all captured stones of `opponent_color`: scan every cell, compute
/// each not-yet-seen group once, and collect every group whose liberties are
/// zero. The result lists each captured stone exactly once and is
/// independent of scan order: it holds exactly the zero-liberty stones of
/// that colour.
pub fn find_captures(board: &Board, opponent_color: Color) -> (r: Vec<Position>)
    requires
        board.inv(),
    ensures
        r@.no_duplicates(),
        forall|q: Position| r@.contains(q) <==> captured_set(board@, opponent_color).contains(q),
        captured_set(board@, opponent_color).finite(),
        r@.len() == captured_set(board@, opponent_color).len(),
{
    let ghost bv = board@;
    let ghost opp = opponent_color;
    proof {
        board.lemma_inv_wf();
        board.lemma_area_fits();
    }
    let size = board.size();
    let n = size * size;
    let mut checked: Vec<bool> = Vec::new();
    let mut i: usize = 0;
    while i < n
        invariant
            i <= n,
            checked@.len() == i,
            forall|j: int| 0 <= j < i ==> !checked@[j],
        decreases n - i,
    {
        checked.push(false);
        i += 1;
    }
    let mut captured: Vec<Position> = Vec::new();
    proof {
        assert forall|q: Position| q.valid_for(bv.size) implies !checked@[cell_index(
            bv.size,
            q,
        )] by {
            lemma_cell_index_bound(bv.size, q);
        }
        assert forall|q: Position| q.valid_for(bv.size) implies !found_by(bv, opp, 0, q) by {
            if found_by(bv, opp, 0, q) {
                let p = choose|p: Position|
                    #[trigger] connected(bv, p, q) && p.valid_for(bv.size) && cell_index(
                        bv.size,
                        p,
                    ) < 0 && bv.stone_at(p) == Some(opp);
                lemma_cell_index_bound(bv.size, p);
            }
        }
    }
    let mut y: usize = 0;
    while y < size
        invariant
            board.inv(),
            bv == board@,
            bv.wf(),
            size as nat == bv.size,
            opp == opponent_color,
            y <= size,
            checked@.len() == bv.size * bv.size,
            forall|q: Position| q.valid_for(bv.size) ==> (checked@[cell_index(bv.size, q)]
                <==> found_by(bv, opp, y * size, q)),
            captured@.no_duplicates(),
            forall|q: Position| #[trigger] captured@.contains(q) <==> captured_set(
                bv,
                opp,
            ).contains(q) && found_by(bv, opp, y * size, q),
        decreases size - y,
    {
        let mut x: usize = 0;
        proof {
            assert(y * size + 0 == y * size);
        }
        while x < size
            invariant
                board.inv(),
                bv == board@,
                bv.wf(),
                size as nat == bv.size,
                opp == opponent_color,
                y < size,
                x <= size,
                checked@.len() == bv.size * bv.size,
                forall|q: Position| q.valid_for(bv.size) ==> (checked@[cell_index(bv.size, q)]
                    <==> found_by(bv, opp, y * size + x, q)),
                captured@.no_duplicates(),
                forall|q: Position| #[trigger] captured@.contains(q) <==> captured_set(
                    bv,
                    opp,
                ).contains(q) && found_by(bv, opp, y * size + x, q),
            decreases size - x,
        {
            let pos = Position::new(x, y);
            let ghost cursor = y * size + x;
            proof {
                assert(pos.valid_for(bv.size));
                assert(cell_index(bv.size, pos) == cursor);
            }
            let k = board.cell_idx(pos);
            let already = checked[k];
            let stone = board.get(pos);
            let is_opp = match stone {
                Some(c) => c == opponent_color,
                None => false,
            };
            if !already && is_opp {
                proof {
                    assert(bv.stone_at(pos) == Some(opp));
                }
                let group = board.find_group(pos);
                proof {
                    lemma_connected_refl(bv, pos);
                    assert(group_of(bv, pos).contains(pos));
                    assert(group@.contains(pos));
                    // No member of this group was found before, else `pos`
                    // itself would already be checked.
                    assert forall|q: Position| group@.contains(q) implies !found_by(
                        bv,
                        opp,
                        cursor,
                        q,
                    ) by {
                        if found_by(bv, opp, cursor, q) {
                            let p = choose|p: Position|
                                #[trigger] connected(bv, p, q) && p.valid_for(bv.size)
                                    && cell_index(bv.size, p) < cursor && bv.stone_at(p)
                                    == Some(opp);
                            // p reaches q and q reaches pos, so p reaches pos:
                            // then pos was already checked, a contradiction.
                            lemma_group_member_stone(bv, pos, q);
                            crate::board::lemma_connected_sym(bv, pos, q);
                            crate::board::lemma_connected_trans(bv, p, q, pos);
                            assert(connected(bv, p, pos) && p.valid_for(bv.size) && cell_index(
                                bv.size,
                                p,
                            ) < cursor && bv.stone_at(p) == Some(opp));
                            assert(found_by(bv, opp, cursor, pos));
                        }
                    }
                    lemma_found_by_advance(bv, opp, cursor, pos, group@);
                }
                // Mark the whole group as checked.
                let ghost checked_pre = checked@;
                let mut t: usize = 0;
                while t < group.len()
                    invariant
                        board.inv(),
                        bv == board@,
                        bv.wf(),
                        size as nat == bv.size,
                        t <= group@.len(),
                        checked@.len() == bv.size * bv.size,
                        forall|q: Position| group@.contains(q) <==> group_of(bv, pos).contains(
                            q,
                        ),
                        forall|q: Position| q.valid_for(bv.size) ==> (checked@[cell_index(
                            bv.size,
                            q,
                        )] <==> checked_pre[cell_index(bv.size, q)] || exists|tt: int|
                            0 <= tt < t && group@[tt] == q),
                    decreases group@.len() - t,
                {
                    let g = group[t];
                    proof {
                        assert(group@[t as int] == g);
                        assert(group@.contains(g));
                        lemma_group_member_stone(bv, pos, g);
                        assert(g.valid_for(bv.size));
                    }
                    let kg = board.cell_idx(g);
                    let ghost seen_pre = checked@;
                    checked[kg] = true;
                    proof {
                        crate::board::lemma_mark_update(bv.size, seen_pre, checked@, g);
                        assert forall|q: Position| q.valid_for(bv.size) implies (checked@[
                            cell_index(bv.size, q)] <==> checked_pre[cell_index(bv.size, q)]
                            || exists|tt: int| 0 <= tt < t + 1 && group@[tt] == q) by {
                            lemma_cell_index_bound(bv.size, q);
                            if q == g {
                                assert(group@[t as int] == q);
                                assert(0 <= t < t + 1 && group@[t as int] == q);
                            } else {
                                assert(checked@[cell_index(bv.size, q)] == seen_pre[cell_index(
                                    bv.size,
                                    q,
                                )]);
                                if exists|tt: int| 0 <= tt < t + 1 && group@[tt] == q {
                                    let tt = choose|tt: int|
                                        0 <= tt < t + 1 && group@[tt] == q;
                                    assert(tt < t);
                                }
                            }
                        }
                    }
                    t += 1;
                }
                // Collect the group if it has no liberties.
                let libs = board.count_liberties(pos);
                if libs == 0 {
                    proof {
                        assert forall|q: Position| group@.contains(q) implies captured_set(
                            bv,
                            opp,
                        ).contains(q) by {
                            lemma_group_member_stone(bv, pos, q);
                            lemma_liberties_of_member(bv, pos, q);
                        }
                    }
                    let ghost captured_pre = captured@;
                    let mut t2: usize = 0;
                    while t2 < group.len()
                        invariant
                            t2 <= group@.len(),
                            group@.no_duplicates(),
                            captured@.no_duplicates(),
                            forall|q: Position| captured_pre.contains(q) ==> !group@.contains(
                                q,
                            ),
                            forall|q: Position| #[trigger] captured@.contains(q)
                                <==> captured_pre.contains(q) || exists|tt: int|
                                    0 <= tt < t2 && group@[tt] == q,
                        decreases group@.len() - t2,
                    {
                        let g = group[t2];
                        proof {
                            assert(group@[t2 as int] == g);
                            assert(group@.contains(g));
                            assert(!captured@.contains(g)) by {
                                if exists|tt: int| 0 <= tt < t2 && group@[tt] == g {
                                    let tt = choose|tt: int|
                                        0 <= tt < t2 && group@[tt] == g;
                                    assert(group@[tt] == group@[t2 as int]);
                                    assert(false);
                                }
                            }
                            lemma_push_no_duplicates(captured@, g);
                            lemma_push_contains(captured@, g);
                        }
                        captured.push(g);
                        proof {
                            assert forall|q: Position| #[trigger] captured@.contains(q)
                                <==> captured_pre.contains(q) || exists|tt: int|
                                    0 <= tt < t2 + 1 && group@[tt] == q by {
                                if captured@.contains(q) && !captured_pre.contains(q) && q
                                    != g {
                                    let tt = choose|tt: int|
                                        0 <= tt < t2 && group@[tt] == q;
                                    assert(0 <= tt < t2 + 1 && group@[tt] == q);
                                }
                                if q == g {
                                    assert(0 <= t2 < t2 + 1 && group@[t2 as int] == q);
                                }
                                if exists|tt: int| 0 <= tt < t2 + 1 && group@[tt] == q {
                                    let tt = choose|tt: int|
                                        0 <= tt < t2 + 1 && group@[tt] == q;
                                    if tt < t2 {
                                        assert(group@[tt] == q);
                                    } else {
                                        assert(q == g);
                                    }
                                }
                            }
                        }
                        t2 += 1;
                    }
                    proof {
                        assert forall|q: Position| #[trigger] captured@.contains(q)
                            <==> captured_pre.contains(q) || group@.contains(q) by {
                            if group@.contains(q) {
                                let tt = choose|tt: int|
                                    0 <= tt < group@.len() && group@[tt] == q;
                                assert(0 <= tt < group@.len() && group@[tt] == q);
                            }
                        }
                        assert forall|q: Position| #[trigger] captured@.contains(q)
                            <==> captured_set(bv, opp).contains(q) && found_by(
                            bv,
                            opp,
                            cursor + 1,
                            q,
                        ) by {
                            assert(found_by(bv, opp, cursor + 1, q) <==> found_by(
                                bv,
                                opp,
                                cursor,
                                q,
                            ) || group@.contains(q));
                            if group@.contains(q) {
                            }
                            if captured_pre.contains(q) {
                            }
                        }
                    }
                } else {
                    // The group keeps at least one liberty, so none of its
                    // stones is captured.
                    proof {
                        assert forall|q: Position| group@.contains(q) implies !captured_set(
                            bv,
                            opp,
                        ).contains(q) by {
                            lemma_liberties_of_member(bv, pos, q);
                        }
                        assert forall|q: Position| #[trigger] captured@.contains(q)
                            <==> captured_set(bv, opp).contains(q) && found_by(
                            bv,
                            opp,
                            cursor + 1,
                            q,
                        ) by {
                            assert(found_by(bv, opp, cursor + 1, q) <==> found_by(
                                bv,
                                opp,
                                cursor,
                                q,
                            ) || group@.contains(q));
                            if group@.contains(q) {
                            }
                        }
                    }
                }
                // The scan has moved one cell on: exactly this group was
                // added to what it marked as checked.
                proof {
                    assert forall|q: Position| q.valid_for(bv.size) implies (checked@[
                        cell_index(bv.size, q)] <==> found_by(bv, opp, cursor + 1, q)) by {
                        lemma_cell_index_bound(bv.size, q);
                        assert(checked@[cell_index(bv.size, q)] <==> checked_pre[cell_index(
                            bv.size,
                            q,
                        )] || group@.contains(q)) by {
                            if exists|tt: int| 0 <= tt < group@.len() && group@[tt] == q {
                                let tt = choose|tt: int|
                                    0 <= tt < group@.len() && group@[tt] == q;
                                assert(group@.contains(q));
                            }
                            if group@.contains(q) {
                                let tt = choose|tt: int|
                                    0 <= tt < group@.len() && group@[tt] == q;
                                assert(0 <= tt < group@.len() && group@[tt] == q);
                            }
                        }
                        assert(checked_pre[cell_index(bv.size, q)] <==> found_by(
                            bv,
                            opp,
                            cursor,
                            q,
                        ));
                        assert(found_by(bv, opp, cursor + 1, q) <==> found_by(
                            bv,
                            opp,
                            cursor,
                            q,
                        ) || group@.contains(q));
                    }
                }
            } else {
                proof {
                    lemma_found_by_skip(bv, opp, cursor, pos, already, stone);
                }
            }
            x += 1;
        }
        proof {
            assert((y + 1) * size == y * size + size) by (nonlinear_arith);
        }
        y += 1;
    }
    // Every cell is scanned: what was found is exactly the captured set.
    proof {
        assert forall|q: Position| captured_set(bv, opp).contains(q) implies found_by(
            bv,
            opp,
            (size as int) * (size as int),
            q,
        ) by {
            assert(bv.stone_at(q) is Some);
            assert(q.valid_for(bv.size));
            lemma_cell_index_bound(bv.size, q);
            lemma_connected_refl(bv, q);
        }
        assert(size * (size as int) == (size as int) * (size as int));
        assert forall|q: Position| captured@.contains(q) <==> captured_set(bv, opp).contains(
            q,
        ) by {
            if captured@.contains(q) {
            }
        }
        assert(captured@.to_set() =~= captured_set(bv, opp));
        captured@.unique_seq_to_set();
        vstd::seq_lib::seq_to_set_is_finite(captured@);
    }
    captured
}

/// Scanning past a cell that starts no new group leaves the found set as it
/// was.
proof fn lemma_found_by_skip(
    b: BoardView,
    opp: Color,
    cursor: int,
    pos: Position,
    already: bool,
    stone: Option<Color>,
)
    requires
        pos.valid_for(b.size),
        cell_index(b.size, pos) == cursor,
        stone == b.stone_at(pos),
        already <==> found_by(b, opp, cursor, pos),
        already || stone != Some(opp),
    ensures
        forall|q: Position| found_by(b, opp, cursor + 1, q) <==> found_by(b, opp, cursor, q),
{
    assert forall|q: Position| found_by(b, opp, cursor + 1, q) <==> found_by(
        b,
        opp,
        cursor,
        q,
    ) by {
        if found_by(b, opp, cursor + 1, q) && !found_by(b, opp, cursor, q) {
            let p = choose|p: Position|
                #[trigger] connected(b, p, q) && p.valid_for(b.size) && cell_index(b.size, p)
                    < cursor + 1 && b.stone_at(p) == Some(opp);
            if p != pos {
                lemma_cell_index_injective(b.size, p, pos);
                assert(cell_index(b.size, p) != cursor);
                assert(found_by(b, opp, cursor, q));
            } else {
                // `pos` holds an `opp` stone, so it was already found: chain
                // its older seed to `q`.
                assert(already);
                let p2 = choose|p2: Position|
                    #[trigger] connected(b, p2, pos) && p2.valid_for(b.size) && cell_index(
                        b.size,
                        p2,
                    ) < cursor && b.stone_at(p2) == Some(opp);
                lemma_group_member_stone(b, pos, q);
                assert(group_of(b, p2).contains(pos));
                lemma_group_of_member(b, p2, pos);
                assert(group_of(b, pos).contains(q));
                assert(group_of(b, p2).contains(q));
                lemma_group_member_stone(b, p2, q);
                assert(connected(b, p2, q));
                assert(found_by(b, opp, cursor, q));
            }
        }
        if found_by(b, opp, cursor, q) {
            let p = choose|p: Position|
                #[trigger] connected(b, p, q) && p.valid_for(b.size) && cell_index(b.size, p)
                    < cursor && b.stone_at(p) == Some(opp);
            assert(found_by(b, opp, cursor + 1, q));
        }
    }
}

/// Scanning past the seed of a fresh group adds exactly that group to the
/// found set.
proof fn lemma_found_by_advance(
    b: BoardView,
    opp: Color,
    cursor: int,
    pos: Position,
    members: Seq<Position>,
)
    requires
        pos.valid_for(b.size),
        cell_index(b.size, pos) == cursor,
        b.stone_at(pos) == Some(opp),
        forall|q: Position| members.contains(q) <==> group_of(b, pos).contains(q),
    ensures
        forall|q: Position| found_by(b, opp, cursor + 1, q) <==> found_by(b, opp, cursor, q)
            || members.contains(q),
{
    assert forall|q: Position| found_by(b, opp, cursor + 1, q) <==> found_by(b, opp, cursor, q)
        || members.contains(q) by {
        if found_by(b, opp, cursor + 1, q) && !found_by(b, opp, cursor, q) {
            let p = choose|p: Position|
                #[trigger] connected(b, p, q) && p.valid_for(b.size) && cell_index(b.size, p)
                    < cursor + 1 && b.stone_at(p) == Some(opp);
            if p != pos {
                lemma_cell_index_injective(b.size, p, pos);
                assert(found_by(b, opp, cursor, q));
            } else {
                assert(group_of(b, pos).contains(q));
            }
        }
        if found_by(b, opp, cursor, q) {
            let p = choose|p: Position|
                #[trigger] connected(b, p, q) && p.valid_for(b.size) && cell_index(b.size, p)
                    < cursor && b.stone_at(p) == Some(opp);
            assert(found_by(b, opp, cursor + 1, q));
        }
        if members.contains(q) {
            assert(group_of(b, pos).contains(q));
            lemma_group_member_stone(b, pos, q);
            assert(connected(b, pos, q) && pos.valid_for(b.size) && cell_index(b.size, pos)
                < cursor + 1 && b.stone_at(pos) == Some(opp));
            assert(found_by(b, opp, cursor + 1, q));
        }
    }
}

/// Whether placing a stone would be suicide: simulate the move on a copy of
/// the board — place the stone, remove any opponent stones it captures —
/// and test whether the placed stone's group is left without liberties.
pub fn is_suicide(board: &Board, pos: Position, color: Color) -> (r: bool)
    requires
        board.inv(),
    ensures
        r == is_suicide_spec(board@, pos, color),
{
    let ghost b0 = board@;
    let mut test_board = board.clone_board();
    test_board.set(pos, Some(color));
    let ghost b1 = test_board@;
    proof {
        assert(b1 == place(b0, pos, color));
        test_board.lemma_inv_wf();
    }
    let opponent_color = color.opposite();
    let captures = find_captures(&test_board, opponent_color);
    let mut ci: usize = 0;
    while ci < captures.len()
        invariant
            test_board.inv(),
            b1.wf(),
            test_board@.size == b1.size,
            ci <= captures@.len(),
            captures@.no_duplicates(),
            forall|q: Position| captures@.contains(q) <==> captured_set(
                b1,
                opponent_color,
            ).contains(q),
            forall|q: Position| #[trigger] test_board@.stone_at(q) == (if exists|tt: int|
                0 <= tt < ci && captures@[tt] == q {
                None::<Color>
            } else {
                b1.stone_at(q)
            }),
        decreases captures@.len() - ci,
    {
        let c = captures[ci];
        proof {
            assert(captures@[ci as int] == c);
            assert(captures@.contains(c));
            assert(captured_set(b1, opponent_color).contains(c));
            assert(b1.stone_at(c) is Some);
            assert(c.valid_for(b1.size));
        }
        let ghost pre = test_board@;
        test_board.set(c, None);
        proof {
            assert forall|q: Position| #[trigger] test_board@.stone_at(q) == (if exists|
                tt: int,
            | 0 <= tt < ci + 1 && captures@[tt] == q {
                None::<Color>
            } else {
                b1.stone_at(q)
            }) by {
                if q == c {
                    assert(0 <= ci < ci + 1 && captures@[ci as int] == q);
                    assert(test_board@.stone_at(q) is None);
                } else {
                    assert(test_board@.stone_at(q) == pre.stone_at(q));
                    if exists|tt: int| 0 <= tt < ci + 1 && captures@[tt] == q {
                        let tt = choose|tt: int| 0 <= tt < ci + 1 && captures@[tt] == q;
                        assert(tt < ci);
                    }
                }
            }
        }
        ci += 1;
    }
    // The simulated board now shows the whole move applied.
    proof {
        assert forall|q: Position| #[trigger] test_board@.stone_at(q) == after_move(
            b0,
            pos,
            color,
        ).stone_at(q) by {
            if exists|tt: int| 0 <= tt < captures@.len() && captures@[tt] == q {
                let tt = choose|tt: int|
                    0 <= tt < captures@.len() && captures@[tt] == q;
                assert(captures@.contains(q));
                assert(captured_set(b1, opponent_color).contains(q));
            } else {
                if captures@.contains(q) {
                    let tt = choose|tt: int|
                        0 <= tt < captures@.len() && captures@[tt] == q;
                }
                assert(!captured_set(b1, opponent_color).contains(q));
            }
        }
        let ghost am = after_move(b0, pos, color);
        assert forall|q: Position|
            test_board@.stones.dom().contains(q) <==> am.stones.dom().contains(q) by {
            assert(test_board@.stone_at(q) == am.stone_at(q));
        }
        assert forall|q: Position| am.stones.dom().contains(q) implies test_board@.stones[q]
            == am.stones[q] by {
            assert(test_board@.stone_at(q) == am.stone_at(q));
        }
        assert(test_board@.stones =~= am.stones);
        assert(test_board@ =~= after_move(b0, pos, color));
    }
    let libs = test_board.count_liberties(pos);
    libs == 0
}

/// The colour factor of the per-cell hash contribution.
pub open spec fn color_code(c: Color) -> u64 {
    match c {
        Color::Black => 1u64,
        Color::White => 2u64,
    }
}

/// The contribution of one occupied cell, reduced modulo 2^64.
pub open spec fn pos_hash(x: int, y: int, c: Color) -> u64 {
    (((x * 19 + y) * 31 * color_code(c)) % 0x1_0000_0000_0000_0000) as u64
}

pub open spec fn cell_hash(b: BoardView, x: int, y: int) -> u64 {
    match b.stone_at(Position { x: x as usize, y: y as usize }) {
        Some(c) => pos_hash(x, y, c),
        None => 0u64,
    }
}

pub open spec fn row_hash_upto(b: BoardView, y: int, upto: int) -> u64
    decreases upto,
{
    if upto <= 0 {
        0u64
    } else {
        row_hash_upto(b, y, upto - 1) ^ cell_hash(b, upto - 1, y)
    }
}

pub open spec fn rows_hash_upto(b: BoardView, upto: int) -> u64
    decreases upto,
{
    if upto <= 0 {
        0u64
    } else {
        rows_hash_upto(b, upto - 1) ^ row_hash_upto(b, upto - 1, b.size as int)
    }
}

/// The position hash: the XOR, over all occupied cells in row-major order,
/// of a deterministic per-(position, colour) contribution. A function of
/// the occupancy alone, used only for equality comparison.
pub open spec fn board_hash(b: BoardView) -> u64 {
    rows_hash_upto(b, b.size as int)
}

proof fn lemma_xor_zero(a: u64)
    ensures
        a ^ 0u64 == a,
{
    assert(a ^ 0u64 == a) by (bit_vector);
}

proof fn lemma_xor_assoc(a: u64, b: u64, c: u64)
    ensures
        (a ^ b) ^ c == a ^ (b ^ c),
{
    assert((a ^ b) ^ c == a ^ (b ^ c)) by (bit_vector);
}

/// Hash the whole board for ko detection: XOR the contribution of every
/// occupied cell. XOR makes the result independent of iteration order.
pub fn hash_board(board: &Board) -> (r: u64)
    requires
        board.inv(),
    ensures
        r == board_hash(board@),
{
    let ghost bv = board@;
    let size = board.size();
    let mut hash: u64 = 0;
    let mut y: usize = 0;
    while y < size
        invariant
            board.inv(),
            bv == board@,
            size as nat == bv.size,
            y <= size,
            hash == rows_hash_upto(bv, y as int),
        decreases size - y,
    {
        proof {
            lemma_xor_zero(rows_hash_upto(bv, y as int));
        }
        let mut x: usize = 0;
        while x < size
            invariant
                board.inv(),
                bv == board@,
                size as nat == bv.size,
                y < size,
                x <= size,
                hash == rows_hash_upto(bv, y as int) ^ row_hash_upto(bv, y as int, x as int),
            decreases size - x,
        {
            let pos = Position::new(x, y);
            match board.get(pos) {
                Some(color) => {
                    let ch: u64 = match color {
                        Color::Black => 1,
                        Color::White => 2,
                    };
                    let base: u128 = ((x as u128) * 19 + (y as u128)) * 31;
                    let px: u128 = if ch == 1 {
                        base
                    } else {
                        base * 2
                    };
                    let chash: u64 = #[verifier::truncate] (px as u64);
                    proof {
                        assert(base == (x as int * 19 + y as int) * 31);
                        assert(ch == color_code(color));
                        assert(px == (x as int * 19 + y as int) * 31 * color_code(color));
                        assert(px as u64 == (px % 0x1_0000_0000_0000_0000) as u64)
                            by (bit_vector);
                        assert(chash == pos_hash(x as int, y as int, color));
                        assert(cell_hash(bv, x as int, y as int) == chash);
                        lemma_xor_assoc(
                            rows_hash_upto(bv, y as int),
                            row_hash_upto(bv, y as int, x as int),
                            chash,
                        );
                    }
                    hash = hash ^ chash;
                },
                None => {
                    proof {
                        assert(cell_hash(bv, x as int, y as int) == 0u64);
                        lemma_xor_zero(row_hash_upto(bv, y as int, x as int));
                        lemma_xor_zero(row_hash_upto(bv, y as int, x as int + 1));
                    }
                },
            }
            x += 1;
        }
        y += 1;
    }
    hash
}

/// `h` appears among the trailing (up to) 3 entries of the history.
pub open spec fn in_recent_history(h: u64, hist: Seq<u64>) -> bool {
    exists|i: int| 0 <= i < hist.len() && hist.len() - 3 <= i && hist[i] == h
}

/// The bounded positional-repeat check: a move violates ko exactly when its
/// resulting board hash appears anywhere in the last 3 history entries (or
/// fewer if the history is shorter).
pub fn is_ko_violation(board_hash: u64, history: &[u64]) -> (r: bool)
    ensures
        r == in_recent_history(board_hash, history@),
{
    let len = history.len();
    if len == 0 {
        return false;
    }
    let check_depth = if len < 3 {
        len
    } else {
        3
    };
    let start = len - check_depth;
    let mut i: usize = start;
    let mut found = false;
    while i < len
        invariant
            start <= i <= len,
            len == history@.len(),
            len - 3 <= start,
            0 <= start,
            found <==> exists|k: int| start <= k < i && history@[k] == board_hash,
        decreases len - i,
    {
        if history[i] == board_hash {
            found = true;
            proof {
                assert(history@[i as int] == board_hash);
            }
        }
        proof {
            if found && !(exists|k: int| start <= k < i && history@[k] == board_hash) {
                assert(history@[i as int] == board_hash);
            }
            if exists|k: int| start <= k < i + 1 && history@[k] == board_hash {
                let k = choose|k: int| start <= k < i + 1 && history@[k] == board_hash;
                if k < i && !found {
                    assert(false);
                }
            }
        }
        i += 1;
    }
    found
}

} // verus!
