//! The square board: a grid mapping each position to an optional stone
//! colour, with flood-fill group discovery and liberty counting.

use vstd::prelude::*;
use vstd::seq_lib::*;
use crate::types::Color;
use crate::types::Position;
use crate::types::is_adjacent;

verus! {

/// The mathematical content of a board: its side length and the mapping
/// from occupied positions to stone colours. A position absent from
/// `stones` is empty.
#[verifier::ext_equal]
pub struct BoardView {
    pub size: nat,
    pub stones: Map<Position, Color>,
}

impl BoardView {
    /// Every occupied position lies on the board.
    pub open spec fn wf(self) -> bool {
        forall|p: Position| self.stones.dom().contains(p) ==> p.valid_for(self.size)
    }

    /// The content of one cell; out-of-range positions read as empty.
    pub open spec fn stone_at(self, p: Position) -> Option<Color> {
        if self.stones.dom().contains(p) {
            Some(self.stones[p])
        } else {
            None
        }
    }

    /// The view after writing one cell (a no-op out of range).
    pub open spec fn with_cell(self, p: Position, v: Option<Color>) -> BoardView {
        if p.valid_for(self.size) {
            match v {
                Some(c) => BoardView { size: self.size, stones: self.stones.insert(p, c) },
                None => BoardView { size: self.size, stones: self.stones.remove(p) },
            }
        } else {
            self
        }
    }
}

/// The number of occupied cells in a row-major grid.
pub open spec fn cells_count(s: Seq<Option<Color>>) -> int
    decreases s.len(),
{
    if s.len() == 0 {
        0
    } else {
        cells_count(s.drop_last()) + if s.last() is Some {
            1int
        } else {
            0int
        }
    }
}

pub proof fn lemma_cells_count_bounds(s: Seq<Option<Color>>)
    ensures
        0 <= cells_count(s) <= s.len(),
    decreases s.len(),
{
    if s.len() > 0 {
        lemma_cells_count_bounds(s.drop_last());
    }
}

pub proof fn lemma_cells_count_update(s: Seq<Option<Color>>, i: int, v: Option<Color>)
    requires
        0 <= i < s.len(),
    ensures
        cells_count(s.update(i, v)) == cells_count(s) - (if s[i] is Some {
            1int
        } else {
            0int
        }) + (if v is Some {
            1int
        } else {
            0int
        }),
    decreases s.len(),
{
    let t = s.update(i, v);
    if i == s.len() - 1 {
        assert(t.drop_last() =~= s.drop_last());
    } else {
        assert(t.drop_last() =~= s.drop_last().update(i, v));
        lemma_cells_count_update(s.drop_last(), i, v);
    }
}

proof fn lemma_cells_count_all_none(s: Seq<Option<Color>>)
    requires
        forall|j: int| 0 <= j < s.len() ==> s[j] is None,
    ensures
        cells_count(s) == 0,
    decreases s.len(),
{
    if s.len() > 0 {
        lemma_cells_count_all_none(s.drop_last());
    }
}

/// The row-major cell index of a position.
pub open spec fn cell_index(size: nat, p: Position) -> int {
    p.y * size + p.x
}

pub proof fn lemma_cell_index_bound(size: nat, p: Position)
    requires
        p.valid_for(size),
    ensures
        0 <= cell_index(size, p) < size * size,
{
    assert(p.y * size + p.x < size * size) by (nonlinear_arith)
        requires
            0 <= p.x < size,
            0 <= p.y < size,
    ;
}

pub proof fn lemma_cell_index_injective(size: nat, p: Position, q: Position)
    requires
        p.valid_for(size),
        q.valid_for(size),
        p != q,
    ensures
        cell_index(size, p) != cell_index(size, q),
{
    if p.y != q.y {
        assert(p.y * size + p.x != q.y * size + q.x) by (nonlinear_arith)
            requires
                0 <= p.x < size,
                0 <= q.x < size,
                0 <= p.y,
                0 <= q.y,
                p.y != q.y,
        ;
    }
}

/// Two cells hold stones of the same colour and sit next to each other.
pub open spec fn linked(b: BoardView, p: Position, q: Position) -> bool {
    &&& is_adjacent(p, q)
    &&& b.stone_at(p) is Some
    &&& b.stone_at(q) == b.stone_at(p)
}

/// `q` can be reached from `p` in at most `n` same-colour steps.
pub open spec fn connected_within(b: BoardView, p: Position, q: Position, n: nat) -> bool
    decreases n,
{
    p == q || (n > 0 && exists|r: Position|
        connected_within(b, p, r, (n - 1) as nat) && linked(b, r, q))
}

/// `q` is reachable from `p` through a chain of orthogonal same-colour steps.
pub open spec fn connected(b: BoardView, p: Position, q: Position) -> bool {
    exists|n: nat| connected_within(b, p, q, n)
}

/// The maximal set of same-coloured stones connected to the stone at `p`;
/// empty when `p` holds no stone.
pub open spec fn group_of(b: BoardView, p: Position) -> Set<Position> {
    if b.stone_at(p) is Some {
        Set::new(|q: Position| connected(b, p, q))
    } else {
        Set::empty()
    }
}

/// The distinct empty cells adjacent to some member of the group at `p`.
pub open spec fn liberties_of(b: BoardView, p: Position) -> Set<Position> {
    Set::new(
        |q: Position|
            q.valid_for(b.size) && b.stone_at(q) is None && exists|m: Position|
                group_of(b, p).contains(m) && is_adjacent(m, q),
    )
}

pub proof fn lemma_connected_refl(b: BoardView, p: Position)
    ensures
        connected(b, p, p),
{
    assert(connected_within(b, p, p, 0));
}

/// One more same-colour step extends reachability.
proof fn lemma_connected_extend(b: BoardView, p: Position, q: Position, r: Position)
    requires
        connected(b, p, q),
        linked(b, q, r),
    ensures
        connected(b, p, r),
{
    let n = choose|n: nat| connected_within(b, p, q, n);
    assert(connected_within(b, p, r, n + 1));
}

proof fn lemma_connected_trans_within(b: BoardView, p: Position, q: Position, r: Position, n: nat)
    requires
        connected(b, p, q),
        connected_within(b, q, r, n),
    ensures
        connected(b, p, r),
    decreases n,
{
    if q == r {
    } else {
        let s = choose|s: Position|
            connected_within(b, q, s, (n - 1) as nat) && linked(b, s, r);
        lemma_connected_trans_within(b, p, q, s, (n - 1) as nat);
        lemma_connected_extend(b, p, s, r);
    }
}

pub proof fn lemma_connected_trans(b: BoardView, p: Position, q: Position, r: Position)
    requires
        connected(b, p, q),
        connected(b, q, r),
    ensures
        connected(b, p, r),
{
    let n = choose|n: nat| connected_within(b, q, r, n);
    lemma_connected_trans_within(b, p, q, r, n);
}

proof fn lemma_connected_sym_within(b: BoardView, p: Position, q: Position, n: nat)
    requires
        connected_within(b, p, q, n),
    ensures
        connected(b, q, p),
    decreases n,
{
    if p == q {
        lemma_connected_refl(b, p);
    } else {
        let r = choose|r: Position|
            connected_within(b, p, r, (n - 1) as nat) && linked(b, r, q);
        lemma_connected_sym_within(b, p, r, (n - 1) as nat);
        assert(connected_within(b, q, q, 0));
        assert(linked(b, q, r));
        assert(connected_within(b, q, r, 1));
        lemma_connected_trans(b, q, r, p);
    }
}

pub proof fn lemma_connected_sym(b: BoardView, p: Position, q: Position)
    requires
        connected(b, p, q),
    ensures
        connected(b, q, p),
{
    let n = choose|n: nat| connected_within(b, p, q, n);
    lemma_connected_sym_within(b, p, q, n);
}

proof fn lemma_connected_stone_within(b: BoardView, p: Position, q: Position, n: nat)
    requires
        connected_within(b, p, q, n),
    ensures
        p == q || (b.stone_at(p) is Some && b.stone_at(q) == b.stone_at(p)),
    decreases n,
{
    if p != q {
        let r = choose|r: Position|
            connected_within(b, p, r, (n - 1) as nat) && linked(b, r, q);
        lemma_connected_stone_within(b, p, r, (n - 1) as nat);
    }
}

/// Every member of a group holds a stone of the seed's colour, and sits on
/// the board when the view is well formed.
pub proof fn lemma_group_member_stone(b: BoardView, p: Position, q: Position)
    requires
        group_of(b, p).contains(q),
    ensures
        b.stone_at(p) is Some,
        b.stone_at(q) == b.stone_at(p),
        connected(b, p, q),
        b.wf() ==> q.valid_for(b.size),
{
    let n = choose|n: nat| connected_within(b, p, q, n);
    lemma_connected_stone_within(b, p, q, n);
}

/// Group membership is an equivalence: every member of a group determines
/// the same group.
pub proof fn lemma_group_of_member(b: BoardView, p: Position, q: Position)
    requires
        group_of(b, p).contains(q),
    ensures
        group_of(b, q) == group_of(b, p),
{
    lemma_group_member_stone(b, p, q);
    assert forall|r: Position| group_of(b, q).contains(r) implies group_of(b, p).contains(r) by {
        lemma_connected_trans(b, p, q, r);
    }
    assert forall|r: Position| group_of(b, p).contains(r) implies group_of(b, q).contains(r) by {
        lemma_connected_sym(b, p, q);
        lemma_connected_trans(b, q, p, r);
    }
    assert(group_of(b, q) =~= group_of(b, p));
}

/// The liberties of a group read the same from any of its members.
pub proof fn lemma_liberties_of_member(b: BoardView, p: Position, q: Position)
    requires
        group_of(b, p).contains(q),
    ensures
        liberties_of(b, q) == liberties_of(b, p),
{
    lemma_group_of_member(b, p, q);
    assert(liberties_of(b, q) =~= liberties_of(b, p));
}

/// Whatever is reachable from `p` lies in any set that contains `p` and is
/// closed under single same-colour steps.
proof fn lemma_connected_in_closed_set(
    b: BoardView,
    p: Position,
    q: Position,
    s: Set<Position>,
    n: nat,
)
    requires
        connected_within(b, p, q, n),
        s.contains(p),
        forall|a: Position, c: Position| s.contains(a) && #[trigger] linked(b, a, c)
            ==> s.contains(c),
    ensures
        s.contains(q),
    decreases n,
{
    if p != q {
        let r = choose|r: Position|
            connected_within(b, p, r, (n - 1) as nat) && linked(b, r, q);
        lemma_connected_in_closed_set(b, p, r, s, (n - 1) as nat);
    }
}

/// A liberty candidate found among the first `k` listed group members.
spec fn lib_upto(b: BoardView, members: Seq<Position>, k: int, q: Position) -> bool {
    q.valid_for(b.size) && b.stone_at(q) is None && exists|i: int|
        0 <= i < k && is_adjacent(members[i], q)
}

/// The number of marked cells in a seen-grid.
pub open spec fn trues_count(s: Seq<bool>) -> int
    decreases s.len(),
{
    if s.len() == 0 {
        0
    } else {
        trues_count(s.drop_last()) + if s.last() {
            1int
        } else {
            0int
        }
    }
}

proof fn lemma_trues_count_bounds(s: Seq<bool>)
    ensures
        0 <= trues_count(s) <= s.len(),
    decreases s.len(),
{
    if s.len() > 0 {
        lemma_trues_count_bounds(s.drop_last());
    }
}

proof fn lemma_trues_count_update(s: Seq<bool>, i: int, v: bool)
    requires
        0 <= i < s.len(),
    ensures
        trues_count(s.update(i, v)) == trues_count(s) - (if s[i] {
            1int
        } else {
            0int
        }) + (if v {
            1int
        } else {
            0int
        }),
    decreases s.len(),
{
    let t = s.update(i, v);
    if i == s.len() - 1 {
        assert(t.drop_last() =~= s.drop_last());
    } else {
        assert(t.drop_last() =~= s.drop_last().update(i, v));
        lemma_trues_count_update(s.drop_last(), i, v);
    }
}

proof fn lemma_trues_count_all_false(s: Seq<bool>)
    requires
        forall|j: int| 0 <= j < s.len() ==> !s[j],
    ensures
        trues_count(s) == 0,
    decreases s.len(),
{
    if s.len() > 0 {
        lemma_trues_count_all_false(s.drop_last());
    }
}

pub proof fn lemma_push_contains<T>(s: Seq<T>, v: T)
    ensures
        forall|x: T| #[trigger] s.push(v).contains(x) <==> s.contains(x) || x == v,
{
    assert forall|x: T| #[trigger] s.push(v).contains(x) <==> s.contains(x) || x == v by {
        let t = s.push(v);
        if t.contains(x) {
            let i = choose|i: int| 0 <= i < t.len() && t[i] == x;
            if i < s.len() {
                assert(s[i] == x);
            }
        }
        if s.contains(x) {
            let i = choose|i: int| 0 <= i < s.len() && s[i] == x;
            assert(t[i] == x);
        }
        if x == v {
            assert(t[t.len() - 1] == x);
        }
    }
}

pub proof fn lemma_push_no_duplicates<T>(s: Seq<T>, v: T)
    requires
        s.no_duplicates(),
        !s.contains(v),
    ensures
        s.push(v).no_duplicates(),
{
    let t = s.push(v);
    assert forall|i: int, j: int| 0 <= i < t.len() && 0 <= j < t.len() && i != j implies t[i]
        != t[j] by {
        if i < s.len() && j < s.len() {
        } else if i < s.len() {
            assert(s[i] == t[i]);
        } else if j < s.len() {
            assert(s[j] == t[j]);
        }
    }
}

/// Marking one valid position changes that cell of the grid and no other.
pub proof fn lemma_mark_update(size: nat, pre: Seq<bool>, post: Seq<bool>, p: Position)
    requires
        pre.len() == size * size,
        p.valid_for(size),
        post == pre.update(cell_index(size, p), true),
    ensures
        post.len() == pre.len(),
        post[cell_index(size, p)],
        forall|q: Position| q.valid_for(size) && q != p ==> post[cell_index(size, q)] == pre[
            cell_index(size, q)
        ],
        trues_count(post) == trues_count(pre) + (if pre[cell_index(size, p)] {
            0int
        } else {
            1int
        }),
{
    lemma_cell_index_bound(size, p);
    lemma_trues_count_update(pre, cell_index(size, p), true);
    assert forall|q: Position| q.valid_for(size) && q != p implies post[cell_index(size, q)]
        == pre[cell_index(size, q)] by {
        lemma_cell_index_injective(size, q, p);
        lemma_cell_index_bound(size, q);
    }
}

/// A square grid of stones, stored row-major.
pub struct Board {
    size: usize,
    grid: Vec<Option<Color>>,
}

impl View for Board {
    type V = BoardView;

    closed spec fn view(&self) -> BoardView {
        BoardView {
            size: self.size as nat,
            stones: Map::new(
                |p: Position|
                    p.valid_for(self.size as nat) && self.grid@[cell_index(
                        self.size as nat,
                        p,
                    )] is Some,
                |p: Position| self.grid@[cell_index(self.size as nat, p)]->Some_0,
            ),
        }
    }
}

impl Board {
    /// The grid holds exactly one cell for every position of the square.
    pub closed spec fn inv(self) -> bool {
        self.grid@.len() == (self.size as nat) * (self.size as nat)
    }

    /// The number of stones on the board.
    pub closed spec fn stone_count(self) -> int {
        cells_count(self.grid@)
    }

    pub proof fn lemma_inv_wf(self)
        requires
            self.inv(),
        ensures
            self@.wf(),
    {
    }

    pub proof fn lemma_stone_count_bounds(self)
        requires
            self.inv(),
        ensures
            0 <= self.stone_count() <= self@.size * self@.size,
    {
        lemma_cells_count_bounds(self.grid@);
    }

    /// The view reads each valid cell straight from the grid.
    proof fn lemma_view_cell(self, p: Position)
        requires
            self.inv(),
            p.valid_for(self@.size),
        ensures
            self@.stone_at(p) == self.grid@[cell_index(self@.size, p)],
    {
    }

    /// Updating one grid cell updates exactly that position of the view.
    proof fn lemma_grid_update_view(pre: Board, post: Board, pos: Position, v: Option<Color>)
        requires
            pre.inv(),
            post.size == pre.size,
            pos.valid_for(pre@.size),
            post.grid@ == pre.grid@.update(cell_index(pre@.size, pos), v),
        ensures
            post.inv(),
            post@ == pre@.with_cell(pos, v),
    {
        lemma_cell_index_bound(pre@.size, pos);
        assert forall|q: Position| q.valid_for(pre@.size) && q != pos implies post.grid@[cell_index(
            pre@.size,
            q,
        )] == pre.grid@[cell_index(pre@.size, q)] by {
            lemma_cell_index_injective(pre@.size, q, pos);
            lemma_cell_index_bound(pre@.size, q);
        }
        assert forall|q: Position| q.valid_for(pre@.size) implies 0 <= cell_index(pre@.size, q)
            < pre.grid@.len() by {
            lemma_cell_index_bound(pre@.size, q);
        }
        assert(post@.stones =~= pre@.with_cell(pos, v).stones);
        assert(post@ =~= pre@.with_cell(pos, v));
    }

    /// The board area fits the machine word that indexes the grid.
    pub proof fn lemma_area_fits(self)
        requires
            self.inv(),
        ensures
            self@.size * self@.size <= usize::MAX,
    {
        vstd::std_specs::vec::axiom_spec_len(&self.grid);
    }

    /// The row-major index of a valid position, bounded by the board area.
    pub fn cell_idx(&self, pos: Position) -> (i: usize)
        requires
            self.inv(),
            pos.valid_for(self@.size),
        ensures
            i == cell_index(self@.size, pos),
            i < self@.size * self@.size,
    {
        proof {
            self.lemma_area_fits();
            lemma_cell_index_bound(self@.size, pos);
        }
        pos.y * self.size + pos.x
    }

    /// An all-empty board of the given side length.
    pub fn with_size(size: usize) -> (r: Board)
        requires
            size * size <= usize::MAX,
        ensures
            r.inv(),
            r@.size == size as nat,
            r@.stones == Map::<Position, Color>::empty(),
            r.stone_count() == 0,
    {
        let n = size * size;
        let mut grid: Vec<Option<Color>> = Vec::new();
        let mut i: usize = 0;
        while i < n
            invariant
                i <= n,
                grid@.len() == i,
                forall|j: int| 0 <= j < i ==> grid@[j] is None,
            decreases n - i,
        {
            grid.push(None);
            i += 1;
        }
        let r = Board { size, grid };
        proof {
            lemma_cells_count_all_none(r.grid@);
            assert forall|p: Position| !(#[trigger] r@.stones.dom().contains(p)) by {
                if p.valid_for(r@.size) {
                    lemma_cell_index_bound(r@.size, p);
                    assert(r.grid@[cell_index(r@.size, p)] is None);
                }
            }
            assert(r@.stones =~= Map::<Position, Color>::empty());
        }
        r
    }

    /// An all-empty standard 19x19 board.
    pub fn new() -> (r: Board)
        ensures
            r.inv(),
            r@.size == 19,
            r@.stones == Map::<Position, Color>::empty(),
            r.stone_count() == 0,
    {
        Board::with_size(19)
    }

    pub fn size(&self) -> (r: usize)
        ensures
            r as nat == self@.size,
    {
        self.size
    }

    /// Read one cell; out-of-range positions read as empty, never an error.
    pub fn get(&self, pos: Position) -> (r: Option<Color>)
        requires
            self.inv(),
        ensures
            r == self@.stone_at(pos),
    {
        if pos.is_valid_for_size(self.size) {
            proof {
                self.lemma_view_cell(pos);
            }
            let i = self.cell_idx(pos);
            self.grid[i]
        } else {
            None
        }
    }

    pub fn is_empty(&self, pos: Position) -> (r: bool)
        requires
            self.inv(),
        ensures
            r == (self@.stone_at(pos) is None),
    {
        self.get(pos).is_none()
    }

    /// Write one cell; out-of-range positions are silently ignored.
    pub fn set(&mut self, pos: Position, color: Option<Color>)
        requires
            old(self).inv(),
        ensures
            final(self).inv(),
            final(self)@ == old(self)@.with_cell(pos, color),
            pos.valid_for(old(self)@.size) ==> final(self).stone_count() == old(self).stone_count()
                - (if old(self)@.stone_at(pos) is Some {
                1int
            } else {
                0int
            }) + (if color is Some {
                1int
            } else {
                0int
            }),
            !pos.valid_for(old(self)@.size) ==> final(self).stone_count() == old(
                self,
            ).stone_count(),
    {
        if pos.is_valid_for_size(self.size) {
            proof {
                self.lemma_view_cell(pos);
            }
            let i = self.cell_idx(pos);
            let ghost pre = *self;
            self.grid[i] = color;
            proof {
                lemma_cells_count_update(pre.grid@, i as int, color);
                Board::lemma_grid_update_view(pre, *self, pos, color);
            }
        }
    }

    /// All stones in the same group as the stone at `pos`: a work-list flood
    /// fill over same-coloured orthogonal neighbours, with a seen-grid keyed
    /// by position. Returns the empty vector when `pos` is empty. The result
    /// lists each member of the group exactly once, in some order.
    pub fn find_group(&self, pos: Position) -> (r: Vec<Position>)
        requires
            self.inv(),
        ensures
            r@.no_duplicates(),
            forall|q: Position| r@.contains(q) <==> group_of(self@, pos).contains(q),
    {
        let ghost bv = self@;
        proof {
            self.lemma_inv_wf();
        }
        let color = match self.get(pos) {
            Some(c) => c,
            None => {
                let r: Vec<Position> = Vec::new();
                return r;
            },
        };
        // `pos` holds a stone, so it lies on the board.
        assert(pos.valid_for(bv.size));
        let size = self.size;
        let n = self.grid.len();
        let mut seen: Vec<bool> = Vec::new();
        let mut i: usize = 0;
        while i < n
            invariant
                i <= n,
                seen@.len() == i,
                forall|j: int| 0 <= j < i ==> !seen@[j],
            decreases n - i,
        {
            seen.push(false);
            i += 1;
        }
        proof {
            lemma_trues_count_all_false(seen@);
        }
        let mut group: Vec<Position> = Vec::new();
        let mut stack: Vec<Position> = Vec::new();
        let i0 = self.cell_idx(pos);
        let ghost seen0 = seen@;
        seen[i0] = true;
        proof {
            lemma_mark_update(bv.size, seen0, seen@, pos);
            lemma_connected_refl(bv, pos);
        }
        group.push(pos);
        stack.push(pos);
        proof {
            assert(group@[0] == pos);
            assert(group@.contains(pos));
            assert(stack@[0] == pos);
            assert(stack@.contains(pos));
            assert forall|q: Position| q.valid_for(bv.size) implies (seen@[cell_index(
                bv.size,
                q,
            )] <==> group@.contains(q)) by {
                lemma_cell_index_bound(bv.size, q);
                if q != pos {
                    assert(!seen0[cell_index(bv.size, q)]);
                    if group@.contains(q) {
                        let i = choose|i: int| 0 <= i < group@.len() && group@[i] == q;
                        assert(false);
                    }
                }
            }
        }
        while stack.len() > 0
            invariant
                self.inv(),
                bv == self@,
                bv.wf(),
                size as nat == bv.size,
                bv.stone_at(pos) == Some(color),
                pos.valid_for(bv.size),
                seen@.len() == bv.size * bv.size,
                0 <= trues_count(seen@) <= seen@.len(),
                group@.no_duplicates(),
                group@.contains(pos),
                forall|q: Position| #[trigger] group@.contains(q) ==> q.valid_for(bv.size)
                    && bv.stone_at(q) == Some(color) && connected(bv, pos, q),
                forall|q: Position| #[trigger] stack@.contains(q) ==> group@.contains(q),
                forall|q: Position| q.valid_for(bv.size) ==> (seen@[cell_index(bv.size, q)]
                    <==> group@.contains(q)),
                forall|a: Position, c: Position|
                    group@.contains(a) && !stack@.contains(a) && #[trigger] linked(bv, a, c)
                        ==> group@.contains(c),
            decreases seen@.len() - trues_count(seen@), stack@.len(),
        {
            let ghost stack_pre = stack@;
            let ghost trues_pre = trues_count(seen@);
            let cur = stack.pop().unwrap();
            proof {
                assert(stack_pre[stack_pre.len() - 1] == cur);
                assert(stack_pre.contains(cur));
                assert(group@.contains(cur));
                assert(cur.valid_for(bv.size));
                assert forall|q: Position| #[trigger] stack@.contains(q) implies
                    stack_pre.contains(q) by {
                    let k = choose|k: int| 0 <= k < stack@.len() && stack@[k] == q;
                    assert(stack_pre[k] == q);
                }
                assert forall|q: Position| #[trigger] stack_pre.contains(q) implies
                    stack@.contains(q) || q == cur by {
                    let k = choose|k: int| 0 <= k < stack_pre.len() && stack_pre[k] == q;
                    if k < stack_pre.len() - 1 {
                        assert(stack@[k] == q);
                    }
                }
            }
            let adj = cur.adjacent_for_size(size);
            let mut j: usize = 0;
            while j < adj.len()
                invariant
                    self.inv(),
                    bv == self@,
                    bv.wf(),
                    size as nat == bv.size,
                    bv.stone_at(pos) == Some(color),
                    pos.valid_for(bv.size),
                    seen@.len() == bv.size * bv.size,
                    j <= adj@.len(),
                    group@.contains(cur),
                    cur.valid_for(bv.size),
                    forall|q: Position| #[trigger] adj@.contains(q) ==> is_adjacent(cur, q),
                    forall|q: Position| adj@.contains(q) <==> is_adjacent(cur, q) && q.valid_for(
                        bv.size,
                    ),
                    group@.no_duplicates(),
                    group@.contains(pos),
                    forall|q: Position| #[trigger] group@.contains(q) ==> q.valid_for(bv.size)
                        && bv.stone_at(q) == Some(color) && connected(bv, pos, q),
                    forall|q: Position| #[trigger] stack@.contains(q) ==> group@.contains(q),
                    forall|q: Position| q.valid_for(bv.size) ==> (seen@[cell_index(bv.size, q)]
                        <==> group@.contains(q)),
                    forall|jj: int| 0 <= jj < j && #[trigger] linked(bv, cur, adj@[jj])
                        ==> group@.contains(adj@[jj]),
                    forall|a: Position, c: Position|
                        group@.contains(a) && !stack@.contains(a) && a != cur && #[trigger] linked(
                            bv,
                            a,
                            c,
                        ) ==> group@.contains(c),
                    stack@.len() >= stack_pre.len() - 1,
                    trues_count(seen@) == trues_pre + stack@.len() - (stack_pre.len() - 1),
                decreases adj@.len() - j,
            {
                let nb = adj[j];
                proof {
                    assert(adj@.contains(nb));
                }
                let k = self.cell_idx(nb);
                if !seen[k] {
                    let stone = self.get(nb);
                    let matches_color = match stone {
                        Some(c2) => c2 == color,
                        None => false,
                    };
                    if matches_color {
                        let ghost seen_pre = seen@;
                        let ghost group_pre = group@;
                        let ghost stack_prev = stack@;
                        seen[k] = true;
                        proof {
                            lemma_mark_update(bv.size, seen_pre, seen@, nb);
                            assert(linked(bv, cur, nb));
                            lemma_connected_extend(bv, pos, cur, nb);
                            assert(!group_pre.contains(nb));
                            lemma_push_no_duplicates(group_pre, nb);
                        }
                        group.push(nb);
                        stack.push(nb);
                        proof {
                            lemma_push_contains(group_pre, nb);
                            lemma_push_contains(stack_prev, nb);
                            assert forall|q: Position| q.valid_for(bv.size) implies (seen@[
                                cell_index(bv.size, q)] <==> group@.contains(q)) by {
                                lemma_cell_index_bound(bv.size, q);
                                if q != nb {
                                    assert(seen@[cell_index(bv.size, q)] == seen_pre[cell_index(
                                        bv.size,
                                        q,
                                    )]);
                                }
                            }
                        }
                    }
                }
                j += 1;
            }
            // Every same-coloured neighbour of `cur` has now been taken up.
            proof {
                lemma_trues_count_bounds(seen@);
                assert forall|a: Position, c: Position|
                    group@.contains(a) && !stack@.contains(a) && #[trigger] linked(bv, a, c)
                        implies group@.contains(c) by {
                    if a == cur {
                        assert(bv.stone_at(c) is Some);
                        assert(c.valid_for(bv.size));
                        assert(adj@.contains(c));
                        let jj = choose|jj: int| 0 <= jj < adj@.len() && adj@[jj] == c;
                        assert(linked(bv, cur, adj@[jj]));
                    }
                }
            }
        }
        // The work list is drained: the collected set is closed under
        // same-colour steps, so it holds the whole group.
        proof {
            assert forall|q: Position| group_of(bv, pos).contains(q) implies group@.contains(
                q,
            ) by {
                let nn = choose|nn: nat| connected_within(bv, pos, q, nn);
                lemma_connected_in_closed_set(bv, pos, q, group@.to_set(), nn);
            }
        }
        group
    }

    /// The number of distinct empty cells adjacent to any member of the
    /// group at `pos` — each liberty is counted once however many group
    /// stones touch it. Returns 0 when `pos` is empty.
    pub fn count_liberties(&self, pos: Position) -> (r: usize)
        requires
            self.inv(),
        ensures
            liberties_of(self@, pos).finite(),
            r == liberties_of(self@, pos).len(),
            (r == 0) <==> liberties_of(self@, pos).is_empty(),
            self@.stone_at(pos) is None ==> r == 0,
    {
        let ghost bv = self@;
        proof {
            self.lemma_inv_wf();
        }
        let group = self.find_group(pos);
        let size = self.size;
        let n = self.grid.len();
        let mut libseen: Vec<bool> = Vec::new();
        let mut i: usize = 0;
        while i < n
            invariant
                i <= n,
                libseen@.len() == i,
                forall|j: int| 0 <= j < i ==> !libseen@[j],
            decreases n - i,
        {
            libseen.push(false);
            i += 1;
        }
        let mut libs: Vec<Position> = Vec::new();
        proof {
            assert forall|q: Position| q.valid_for(bv.size) implies !libseen@[cell_index(
                bv.size,
                q,
            )] by {
                lemma_cell_index_bound(bv.size, q);
            }
        }
        let mut gi: usize = 0;
        while gi < group.len()
            invariant
                self.inv(),
                bv == self@,
                bv.wf(),
                size as nat == bv.size,
                libseen@.len() == bv.size * bv.size,
                gi <= group@.len(),
                forall|q: Position| group@.contains(q) <==> group_of(bv, pos).contains(q),
                libs@.no_duplicates(),
                forall|q: Position| #[trigger] libs@.contains(q) ==> q.valid_for(bv.size),
                forall|q: Position| q.valid_for(bv.size) ==> (libseen@[cell_index(bv.size, q)]
                    <==> libs@.contains(q)),
                forall|q: Position| #[trigger] libs@.contains(q) <==> lib_upto(
                    bv,
                    group@,
                    gi as int,
                    q,
                ),
            decreases group@.len() - gi,
        {
            let m = group[gi];
            proof {
                assert(group@[gi as int] == m);
                assert(group@.contains(m));
                lemma_group_member_stone(bv, pos, m);
            }
            let adj = m.adjacent_for_size(size);
            let mut j: usize = 0;
            while j < adj.len()
                invariant
                    self.inv(),
                    bv == self@,
                    bv.wf(),
                    size as nat == bv.size,
                    libseen@.len() == bv.size * bv.size,
                    gi < group@.len(),
                    m == group@[gi as int],
                    m.valid_for(bv.size),
                    j <= adj@.len(),
                    adj@.no_duplicates(),
                    forall|q: Position| #[trigger] adj@.contains(q) <==> is_adjacent(m, q)
                        && q.valid_for(bv.size),
                    forall|q: Position| group@.contains(q) <==> group_of(bv, pos).contains(q),
                    libs@.no_duplicates(),
                    forall|q: Position| #[trigger] libs@.contains(q) ==> q.valid_for(bv.size),
                    forall|q: Position| q.valid_for(bv.size) ==> (libseen@[cell_index(
                        bv.size,
                        q,
                    )] <==> libs@.contains(q)),
                    forall|q: Position| #[trigger] libs@.contains(q) <==> lib_upto(
                        bv,
                        group@,
                        gi as int,
                        q,
                    ) || (q.valid_for(bv.size) && bv.stone_at(q) is None && exists|jj: int|
                        0 <= jj < j && adj@[jj] == q),
                decreases adj@.len() - j,
            {
                let nb = adj[j];
                proof {
                    assert(adj@[j as int] == nb);
                    assert(adj@.contains(nb));
                    assert(is_adjacent(m, nb) && nb.valid_for(bv.size));
                }
                let k = self.cell_idx(nb);
                let nb_empty = self.is_empty(nb);
                if nb_empty && !libseen[k] {
                    let ghost seen_pre = libseen@;
                    let ghost libs_pre = libs@;
                    libseen[k] = true;
                    libs.push(nb);
                    proof {
                        lemma_mark_update(bv.size, seen_pre, libseen@, nb);
                        lemma_push_contains(libs_pre, nb);
                        assert(!libs_pre.contains(nb));
                        lemma_push_no_duplicates(libs_pre, nb);
                        assert forall|q: Position| q.valid_for(bv.size) implies (libseen@[
                            cell_index(bv.size, q)] <==> libs@.contains(q)) by {
                            lemma_cell_index_bound(bv.size, q);
                            if q != nb {
                                assert(libseen@[cell_index(bv.size, q)] == seen_pre[cell_index(
                                    bv.size,
                                    q,
                                )]);
                            }
                        }
                    }
                }
                proof {
                    assert forall|q: Position| #[trigger] libs@.contains(q) <==> lib_upto(
                        bv,
                        group@,
                        gi as int,
                        q,
                    ) || (q.valid_for(bv.size) && bv.stone_at(q) is None && exists|jj: int|
                        0 <= jj < j + 1 && adj@[jj] == q) by {
                        if libs@.contains(q) {
                            if !lib_upto(bv, group@, gi as int, q) && q != nb {
                                let jj = choose|jj: int| 0 <= jj < j && adj@[jj] == q;
                                assert(0 <= jj < j + 1 && adj@[jj] == q);
                            }
                        }
                        if q.valid_for(bv.size) && bv.stone_at(q) is None && exists|jj: int|
                            0 <= jj < j + 1 && adj@[jj] == q {
                            let jj = choose|jj: int| 0 <= jj < j + 1 && adj@[jj] == q;
                            if jj == j {
                                assert(q == nb);
                                assert(libseen@[cell_index(bv.size, q)]);
                            } else {
                                assert(0 <= jj < j && adj@[jj] == q);
                            }
                        }
                    }
                }
                j += 1;
            }
            proof {
                assert forall|q: Position| #[trigger] libs@.contains(q) <==> lib_upto(
                    bv,
                    group@,
                    gi as int + 1,
                    q,
                ) by {
                    if libs@.contains(q) {
                        if lib_upto(bv, group@, gi as int, q) {
                            let kk = choose|kk: int|
                                0 <= kk < gi && is_adjacent(group@[kk], q);
                            assert(0 <= kk < gi + 1 && is_adjacent(group@[kk], q));
                        } else {
                            let jj = choose|jj: int|
                                0 <= jj < adj@.len() && adj@[jj] == q;
                            assert(adj@.contains(q));
                            assert(is_adjacent(group@[gi as int], q));
                        }
                    }
                    if lib_upto(bv, group@, gi as int + 1, q) {
                        let kk = choose|kk: int|
                            0 <= kk < gi + 1 && is_adjacent(group@[kk], q);
                        if kk == gi {
                            assert(adj@.contains(q));
                            let jj = choose|jj: int|
                                0 <= jj < adj@.len() && adj@[jj] == q;
                            assert(0 <= jj < adj@.len() && adj@[jj] == q);
                        } else {
                            assert(lib_upto(bv, group@, gi as int, q));
                        }
                    }
                }
            }
            gi += 1;
        }
        // The collected list holds exactly the liberties of the group.
        proof {
            assert forall|q: Position| libs@.contains(q) <==> liberties_of(bv, pos).contains(
                q,
            ) by {
                if libs@.contains(q) {
                    let kk = choose|kk: int|
                        0 <= kk < group@.len() && is_adjacent(group@[kk], q);
                    assert(group@.contains(group@[kk]));
                    assert(group_of(bv, pos).contains(group@[kk]) && is_adjacent(group@[kk], q));
                }
                if liberties_of(bv, pos).contains(q) {
                    let m2 = choose|m2: Position|
                        group_of(bv, pos).contains(m2) && is_adjacent(m2, q);
                    assert(group@.contains(m2));
                    let kk = choose|kk: int| 0 <= kk < group@.len() && group@[kk] == m2;
                    assert(0 <= kk < group@.len() && is_adjacent(group@[kk], q));
                }
            }
            assert(libs@.to_set() =~= liberties_of(bv, pos));
            libs@.unique_seq_to_set();
            vstd::seq_lib::seq_to_set_is_finite(libs@);
        }
        let r = libs.len();
        proof {
            if r == 0 {
                liberties_of(bv, pos).lemma_len0_is_empty();
            } else {
                assert(libs@.contains(libs@[0]));
                assert(liberties_of(bv, pos).contains(libs@[0]));
            }
        }
        r
    }

    /// An exact copy of the board.
    pub fn clone_board(&self) -> (r: Board)
        requires
            self.inv(),
        ensures
            r.inv(),
            r@ == self@,
            r.stone_count() == self.stone_count(),
    {
        let mut grid: Vec<Option<Color>> = Vec::new();
        let mut i: usize = 0;
        while i < self.grid.len()
            invariant
                i <= self.grid@.len(),
                grid@.len() == i,
                forall|j: int| 0 <= j < i ==> grid@[j] == self.grid@[j],
            decreases self.grid@.len() - i,
        {
            grid.push(self.grid[i]);
            i += 1;
        }
        let r = Board { size: self.size, grid };
        proof {
            assert(r.grid@ =~= self.grid@);
        }
        r
    }
}

} // verus!
