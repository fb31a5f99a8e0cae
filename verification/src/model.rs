//! Mathematical model of the board: the view that the executable game code is
//! specified against, the well-formedness invariant, the effect of playing and
//! unplaying a column, and the four-in-a-row win condition.

use vstd::prelude::*;

use crate::game::Game;

verus! {

/// Greatest number of columns the fixed-capacity per-node action lists support.
pub const MAX_COLS: u8 = 12;

/// Abstract state of one position: per-column free heights, the flattened
/// cell grid (`0` empty, `1` and `2` the two players), and whose turn it is.
#[verifier::ext_equal]
pub ghost struct BoardView {
    pub top: Seq<u8>,
    pub cells: Seq<u8>,
    pub who: u8,
}

impl BoardView {
    /// Cell at row `r`, column `c` of a `g.row x g.col` grid.
    pub open spec fn cell(self, g: Game, r: int, c: int) -> u8 {
        self.cells[r * (g.col as int) + c]
    }
}

/// Configurations the engine accepts: a nonempty grid no wider than the
/// fixed capacity of the per-node action lists.
pub open spec fn game_valid(g: Game) -> bool {
    &&& 1 <= g.row
    &&& 1 <= g.col <= MAX_COLS
}

/// The forbidden cell lies in column `c`, at row `r`.
pub open spec fn forbidden_at(g: Game, r: int, c: int) -> bool {
    g.no.0 == r && g.no.1 == c && r < g.row && c < g.col
}

/// Per-column invariant: the free height is in range, the next landing row is
/// never the forbidden cell, everything above the surface is empty, and the
/// forbidden cell itself is empty.
pub open spec fn col_wf(g: Game, v: BoardView, c: int) -> bool {
    &&& v.top[c] <= g.row
    &&& (forbidden_at(g, g.no.0 as int, c) ==> v.top[c] != g.no.0 + 1)
    &&& forall|r: int| 0 <= r < v.top[c] ==> v.cell(g, r, c) == 0
    &&& (forbidden_at(g, g.no.0 as int, c) ==> v.cell(g, g.no.0 as int, c) == 0)
}

/// Whole-board invariant.
pub open spec fn board_wf(g: Game, v: BoardView) -> bool {
    &&& game_valid(g)
    &&& v.top.len() == g.col
    &&& v.cells.len() == g.row * g.col
    &&& v.who == 1 || v.who == 2
    &&& forall|i: int| 0 <= i < v.cells.len() ==> v.cells[i] <= 2
    &&& forall|c: int| 0 <= c < g.col ==> col_wf(g, v, c)
}

/// Row on which a piece dropped into column `c` lands: one below the free
/// height.
pub open spec fn landing_row(v: BoardView, c: int) -> int {
    v.top[c] - 1
}

/// Free height of column `c` after a piece lands there: the landing row,
/// lowered one more step when the slot just above the landed piece is the
/// forbidden cell, so that cell is never offered as a landing spot.
pub open spec fn top_after(g: Game, v: BoardView, c: int) -> int {
    let nt = v.top[c] - 1;
    if nt > 0 && g.no.0 == nt - 1 && g.no.1 == c {
        nt - 1
    } else {
        nt
    }
}

/// State after the mover drops a piece into column `c`.
pub open spec fn apply_view(g: Game, v: BoardView, c: int) -> BoardView {
    BoardView {
        top: v.top.update(c, top_after(g, v, c) as u8),
        cells: v.cells.update(landing_row(v, c) * (g.col as int) + c, v.who),
        who: (3 - v.who) as u8,
    }
}

/// Slot that undoing a move in column `c` must clear: the current free
/// height, advanced past the forbidden cell when that is what the height
/// points at.
pub open spec fn undo_slot(g: Game, v: BoardView, c: int) -> int {
    let t = v.top[c] as int;
    if g.no.0 == t && g.no.1 == c {
        t + 1
    } else {
        t
    }
}

/// State after unplaying the most recent move in column `c`.
pub open spec fn undo_view(g: Game, v: BoardView, c: int) -> BoardView {
    let t = undo_slot(g, v, c);
    BoardView {
        top: v.top.update(c, (t + 1) as u8),
        cells: v.cells.update(t * (g.col as int) + c, 0u8),
        who: (3 - v.who) as u8,
    }
}

/// Bounds needed for `undo` to be executable without overflow; they hold of
/// every state that `apply_view` produces from a well-formed one.
pub open spec fn undo_ok(g: Game, v: BoardView, c: int) -> bool {
    &&& game_valid(g)
    &&& v.top.len() == g.col
    &&& v.cells.len() == g.row * g.col
    &&& v.who == 1 || v.who == 2
    &&& 0 <= c < g.col
    &&& undo_slot(g, v, c) < g.row
}

/// Distinct (row, column) pairs address distinct entries of the flattened
/// grid.
pub proof fn lemma_index_injective(col: int, r1: int, c1: int, r2: int, c2: int)
    requires
        0 <= c1 < col,
        0 <= c2 < col,
        r1 * col + c1 == r2 * col + c2,
    ensures
        r1 == r2 && c1 == c2,
{
    assert(r1 == r2 && c1 == c2) by (nonlinear_arith)
        requires
            0 <= c1 < col,
            0 <= c2 < col,
            r1 * col + c1 == r2 * col + c2,
    ;
}

/// Cell indices of a well-formed board are in range.
pub proof fn lemma_index_bound(g: Game, r: int, c: int)
    requires
        0 <= r < g.row,
        0 <= c < g.col,
    ensures
        0 <= r * (g.col as int) + c < g.row * g.col,
{
    assert(0 <= r * (g.col as int) + c < g.row * g.col) by (nonlinear_arith)
        requires
            0 <= r < g.row,
            0 <= c < g.col,
    ;
}

/// Playing a legal column preserves the board invariant.
pub proof fn lemma_apply_wf(g: Game, v: BoardView, c: int)
    requires
        board_wf(g, v),
        0 <= c < g.col,
        v.top[c] > 0,
    ensures
        board_wf(g, apply_view(g, v, c)),
        undo_ok(g, apply_view(g, v, c), c),
{
    let nt = landing_row(v, c);
    let idx = nt * (g.col as int) + c;
    let v2 = apply_view(g, v, c);
    assert(col_wf(g, v, c));
    lemma_index_bound(g, nt, c);
    assert forall|c2: int| 0 <= c2 < g.col implies col_wf(g, v2, c2) by {
        assert(col_wf(g, v, c2));
        assert forall|r: int| 0 <= r < v2.top[c2] implies v2.cell(g, r, c2) == 0 by {
            assert(v2.top[c2] <= v.top[c2]);
            assert(v.cell(g, r, c2) == 0);
            lemma_index_bound(g, r, c2);
            if r * (g.col as int) + c2 == idx {
                lemma_index_injective(g.col as int, r, c2, nt, c);
                assert(false);
            }
        }
        if forbidden_at(g, g.no.0 as int, c2) {
            assert(v.cell(g, g.no.0 as int, c2) == 0);
            lemma_index_bound(g, g.no.0 as int, c2);
            if g.no.0 as int * (g.col as int) + c2 == idx {
                lemma_index_injective(g.col as int, g.no.0 as int, c2, nt, c);
                assert(false);
            }
            assert(v2.cell(g, g.no.0 as int, c2) == 0);
        }
    }
}

/// Unplaying a move is the exact inverse of playing it: the round trip
/// restores heights, cells, and the mover.
pub proof fn lemma_apply_undo(g: Game, v: BoardView, c: int)
    requires
        board_wf(g, v),
        0 <= c < g.col,
        v.top[c] > 0,
    ensures
        undo_view(g, apply_view(g, v, c), c) == v,
{
    let nt = landing_row(v, c);
    let idx = nt * (g.col as int) + c;
    let v2 = apply_view(g, v, c);
    assert(col_wf(g, v, c));
    lemma_index_bound(g, nt, c);
    assert(undo_slot(g, v2, c) == nt);
    let v3 = undo_view(g, v2, c);
    assert(v3.top =~= v.top);
    assert(v.cell(g, nt, c) == 0);
    assert(v3.cells =~= v.cells);
    assert(v3 =~= v);
}

/// Sum of the free heights: the number of moves that can still be played,
/// and the measure that shrinks with every applied move.
pub open spec fn sum_tops(s: Seq<u8>) -> int
    decreases s.len(),
{
    if s.len() == 0 {
        0
    } else {
        s[0] + sum_tops(s.subrange(1, s.len() as int))
    }
}

/// Updating one entry changes the sum by the difference at that entry.
pub proof fn lemma_sum_update(s: Seq<u8>, i: int, x: u8)
    requires
        0 <= i < s.len(),
    ensures
        sum_tops(s.update(i, x)) == sum_tops(s) - s[i] + x,
    decreases s.len(),
{
    if i == 0 {
        assert(s.update(0, x).subrange(1, s.len() as int) =~= s.subrange(1, s.len() as int));
    } else {
        lemma_sum_update(s.subrange(1, s.len() as int), i - 1, x);
        assert(s.update(i, x).subrange(1, s.len() as int) =~= s.subrange(
            1,
            s.len() as int,
        ).update(i - 1, x));
        assert(s.update(i, x)[0] == s[0]);
    }
}

/// The sum of heights is nonnegative.
pub proof fn lemma_sum_nonneg(s: Seq<u8>)
    ensures
        sum_tops(s) >= 0,
    decreases s.len(),
{
    if s.len() > 0 {
        lemma_sum_nonneg(s.subrange(1, s.len() as int));
    }
}

/// Playing a legal column strictly decreases the sum of heights.
pub proof fn lemma_apply_decreases(g: Game, v: BoardView, c: int)
    requires
        board_wf(g, v),
        0 <= c < g.col,
        v.top[c] > 0,
    ensures
        sum_tops(apply_view(g, v, c).top) < sum_tops(v.top),
{
    lemma_sum_update(v.top, c, top_after(g, v, c) as u8);
}

/// The state reached by unplaying, last first, every column on the stack.
pub open spec fn unwind(g: Game, v: BoardView, stack: Seq<u8>) -> BoardView
    decreases stack.len(),
{
    if stack.len() == 0 {
        v
    } else {
        unwind(g, undo_view(g, v, stack.last() as int), stack.drop_last())
    }
}

/// Every unplay along the stack meets `undo_ok`.
pub open spec fn unwind_ok(g: Game, v: BoardView, stack: Seq<u8>) -> bool
    decreases stack.len(),
{
    if stack.len() == 0 {
        true
    } else {
        &&& undo_ok(g, v, stack.last() as int)
        &&& unwind_ok(g, undo_view(g, v, stack.last() as int), stack.drop_last())
    }
}

/// Playing a legal column and recording it on the stack leaves the unwound
/// state unchanged.
pub proof fn lemma_unwind_push(g: Game, v: BoardView, stack: Seq<u8>, c: u8)
    requires
        board_wf(g, v),
        c < g.col,
        v.top[c as int] > 0,
    ensures
        unwind_ok(g, apply_view(g, v, c as int), stack.push(c)) == unwind_ok(g, v, stack),
        unwind(g, apply_view(g, v, c as int), stack.push(c)) == unwind(g, v, stack),
{
    lemma_apply_wf(g, v, c as int);
    lemma_apply_undo(g, v, c as int);
    assert(stack.push(c).drop_last() =~= stack);
    assert(stack.push(c).last() == c);
}

/// The four axes through a cell.
pub open spec fn axis(dr: int, dc: int) -> bool {
    (dr == 1 && dc == 0) || (dr == 0 && dc == 1) || (dr == 1 && dc == 1) || (dr == 1 && dc == -1)
}

pub open spec fn in_bounds(g: Game, r: int, c: int) -> bool {
    0 <= r < g.row && 0 <= c < g.col
}

/// Offset `o` from `(r, c)` along `(dr, dc)` is on the grid and holds the
/// same piece as `(r, c)`.
pub open spec fn run_cell(g: Game, v: BoardView, r: int, c: int, dr: int, dc: int, o: int) -> bool {
    &&& in_bounds(g, r + o * dr, c + o * dc)
    &&& v.cell(g, r + o * dr, c + o * dc) == v.cell(g, r, c)
}

/// Four consecutive equal cells along `(dr, dc)` starting at offset `s` from
/// `(r, c)`; every such window with `-3 <= s <= 0` passes through `(r, c)`.
pub open spec fn run_at(g: Game, v: BoardView, r: int, c: int, dr: int, dc: int, s: int) -> bool {
    forall|o: int| s <= o < s + 4 ==> run_cell(g, v, r, c, dr, dc, o)
}

/// A completed four-in-a-row along one axis through `(r, c)`.
pub open spec fn wins_dir(g: Game, v: BoardView, r: int, c: int, dr: int, dc: int) -> bool {
    exists|s: int| -3 <= s <= 0 && run_at(g, v, r, c, dr, dc, s)
}

/// The move that filled `(r, c)` completed four in a row: a run of four
/// consecutive equal non-empty cells through `(r, c)` exists along one of the
/// four axes.
pub open spec fn wins_at(g: Game, v: BoardView, r: int, c: int) -> bool {
    &&& v.cell(g, r, c) != 0
    &&& {
        ||| wins_dir(g, v, r, c, 1, 0)
        ||| wins_dir(g, v, r, c, 0, 1)
        ||| wins_dir(g, v, r, c, 1, 1)
        ||| wins_dir(g, v, r, c, 1, -1)
    }
}

} // verus!
