//! The engine: game configuration, board state with move application and
//! undo, win detection, the search-node type, and the Monte Carlo tree
//! search driver with its persistent, reusable tree.

use vstd::prelude::*;

use crate::arena::{
    arena_clear, arena_contains, arena_get, arena_get_mut, arena_insert, arena_new, arena_remove,
    arena_view,
};
use crate::clock::{elapsed_millis, now_instant};
use crate::fixed::{score_fp, score_fixed, SCALE};
use crate::model::{
    apply_view, axis, board_wf, col_wf, game_valid, in_bounds, landing_row,
    lemma_apply_decreases, lemma_apply_undo, lemma_apply_wf, lemma_index_bound, lemma_sum_nonneg,
    lemma_unwind_push, run_at, run_cell, sum_tops, undo_ok, undo_view, unwind, unwind_ok, wins_at,
    wins_dir, BoardView, MAX_COLS,
};
use crate::rng::{new_rng, rng_below};

verus! {

/// Milliseconds of wall clock granted to one decision by default.
pub const DEFAULT_DEADLINE_MILLIS: u64 = 2800;

/// `2 * c^2` in fixed point for the selection exploration constant
/// `c = sqrt(1/2)`.
pub const EXPLORE_C2X2: u64 = 65536;

/// Hard ceiling on Monte Carlo iterations per decision, far beyond what any
/// wall-clock budget allows; it keeps every counter clear of overflow.
pub const ITER_CAP: u64 = 0x1000_0000_0000_0000;

/// Immutable game parameters: grid size and the forbidden cell `no`.
/// Coordinates of `no` outside the grid mean no cell is forbidden.
pub struct Game {
    pub row: u8,
    pub col: u8,
    pub no: (u8, u8),
}

impl Game {
    pub fn new(row: u8, col: u8, no: (u8, u8)) -> (g: Game)
        ensures
            g == (Game { row, col, no }),
    {
        Game { row, col, no }
    }
}

/// One search-tree node, addressed by its key in the arena.
///
/// `visits` counts backpropagations into the node and `value_half` their
/// accumulated outcomes in half-units: each backpropagation of a score
/// `s` in `{-1, 0, 1}` adds `s + 1` halves, so the node's mean value in
/// `[0, 1]` is exactly `value_half / (2 * visits)`.
pub struct Node {
    pub terminal: bool,
    pub action: (u8, u8),
    pub visits: u64,
    pub value_half: u64,
    pub children: Vec<usize>,
    pub actions: Vec<u8>,
    pub tried: u8,
}

/// Local well-formedness of one node against the configuration.
pub open spec fn node_wf(n: Node, g: Game) -> bool {
    &&& n.tried as int <= n.actions@.len()
    &&& n.actions@.len() <= g.col
    &&& forall|i: int| 0 <= i < n.actions@.len() ==> n.actions@[i] < g.col
    &&& n.children@.len() <= n.tried as int
    &&& n.value_half <= 2 * n.visits
    &&& (n.terminal ==> n.children@.len() == 0)
    &&& n.action.1 < g.col
}

impl Node {
    /// Folds one backpropagated score into the node's statistics. The
    /// counters stand still only at the (unreachable in practice) brink of
    /// 64-bit overflow.
    pub fn update(&mut self, score: i8)
        requires
            -1 <= score <= 1,
        ensures
            ({
                let stepped = old(self).visits < u64::MAX && old(self).value_half + 2 <= u64::MAX;
                &&& (stepped ==> final(self).visits == old(self).visits + 1)
                &&& (stepped ==> final(self).value_half == old(self).value_half + score + 1)
                &&& (!stepped ==> final(self).visits == old(self).visits)
                &&& (!stepped ==> final(self).value_half == old(self).value_half)
            }),
            final(self).terminal == old(self).terminal,
            final(self).action == old(self).action,
            final(self).children == old(self).children,
            final(self).actions == old(self).actions,
            final(self).tried == old(self).tried,
    {
        if self.visits < u64::MAX && self.value_half <= u64::MAX - 2 {
            self.value_half = self.value_half + (score + 1) as u64;
            self.visits = self.visits + 1;
        }
    }

    /// Selection score of this node for its parent, in fixed point.
    pub fn score(&self, parent_visits: u64, c2x2: u64) -> (r: u64)
        requires
            self.visits >= 1,
            self.value_half <= 2 * self.visits,
            c2x2 <= SCALE,
        ensures
            r == score_fp(self.value_half, self.visits, parent_visits, c2x2),
    {
        score_fixed(self.value_half, self.visits, parent_visits, c2x2)
    }
}

/// The rest of the center-out enumeration once it has emitted the columns
/// in `[l, r)`: one step left, one step right, by the parity of `l + r`.
pub open spec fn center_out_from(l: int, r: int, col: int) -> Seq<u8>
    decreases l + col - r,
{
    if l <= 0 && r >= col {
        Seq::empty()
    } else if (l + r) % 2 == 0 && l >= 1 && r <= col {
        seq![(l - 1) as u8] + center_out_from(l - 1, r, col)
    } else if (l + r) % 2 != 0 && 0 <= l && r < col {
        seq![r as u8] + center_out_from(l, r + 1, col)
    } else {
        Seq::empty()
    }
}

/// The deterministic center-out column order: the middle column first, then
/// alternately one to the left and one to the right.
pub open spec fn center_out(col: int) -> Seq<u8> {
    center_out_from((col + 1) / 2, (col + 1) / 2, col)
}

/// The engine state: configuration, board, mover, and the persistent search
/// tree in its arena.
pub struct State {
    pub game: Game,
    pub top: Vec<u8>,
    pub board: Vec<u8>,
    pub deadline_millis: u64,
    pub who: u8,
    pub nodes: slab::Slab<Node>,
    pub root_node: usize,
    pub rng: rand::rngs::SmallRng,
}

impl State {
    /// The board as the model sees it.
    pub open spec fn bview(&self) -> BoardView {
        BoardView { top: self.top@, cells: self.board@, who: self.who }
    }

    /// The search tree's nodes, by arena key.
    pub open spec fn arena(&self) -> Map<int, Node> {
        arena_view(&self.nodes)
    }

    pub open spec fn root(&self) -> int {
        self.root_node as int
    }

    pub open spec fn wf_board(&self) -> bool {
        board_wf(self.game, self.bview())
    }

    /// Every node of the arena is locally well formed.
    pub open spec fn wf_arena(&self) -> bool {
        &&& self.arena().dom().finite()
        &&& forall|k: int|
            self.arena().dom().contains(k) ==> node_wf(#[trigger] self.arena()[k], self.game)
    }

    pub open spec fn wf(&self) -> bool {
        &&& self.wf_board()
        &&& self.wf_arena()
        &&& self.arena().dom().contains(self.root())
    }

    /// Builds an engine over the given snapshot, or reports a configuration
    /// or snapshot that violates the board invariant. The mover starts as
    /// player 2, and the tree is empty until `init` plants the root.
    pub fn new(game: Game, top: Vec<u8>, board: Vec<u8>) -> (r: Option<State>)
        ensures
            match r {
                Option::Some(s) => {
                    &&& s.wf_board()
                    &&& s.game == game
                    &&& s.top@ == top@
                    &&& s.board@ == board@
                    &&& s.bview().who == 2
                    &&& s.deadline_millis == DEFAULT_DEADLINE_MILLIS
                    &&& forall|k: int| !s.arena().dom().contains(k)
                },
                Option::None => !board_wf(
                    game,
                    BoardView { top: top@, cells: board@, who: 2 },
                ),
            },
    {
        let v = Ghost(BoardView { top: top@, cells: board@, who: 2u8 });
        if !(1 <= game.row && 1 <= game.col && game.col <= MAX_COLS) {
            return Option::None;
        }
        if top.len() != game.col as usize {
            return Option::None;
        }
        proof {
            lemma_grid_size(game);
        }
        if board.len() != game.row as usize * game.col as usize {
            return Option::None;
        }
        let mut i: usize = 0;
        while i < board.len()
            invariant
                board@.len() == game.row * game.col,
                i <= board@.len(),
                forall|j: int| 0 <= j < i ==> board@[j] <= 2,
            decreases board@.len() - i,
        {
            if board[i] > 2 {
                return Option::None;
            }
            i = i + 1;
        }
        let mut c: usize = 0;
        while c < game.col as usize
            invariant
                game_valid(game),
                top@.len() == game.col,
                board@.len() == game.row * game.col,
                c <= game.col as usize,
                forall|c2: int| 0 <= c2 < c ==> col_wf(game, v@, c2),
                v@ == (BoardView { top: top@, cells: board@, who: 2u8 }),
            decreases game.col - c,
        {
            if !Self::check_column(&game, &top, &board, c as u8, v) {
                return Option::None;
            }
            c = c + 1;
        }
        Option::Some(
            State {
                game,
                top,
                board,
                deadline_millis: DEFAULT_DEADLINE_MILLIS,
                who: 2,
                nodes: arena_new(),
                root_node: 0,
                rng: new_rng(),
            },
        )
    }

    /// Checks the per-column invariant of one column of a snapshot.
    fn check_column(game: &Game, top: &Vec<u8>, board: &Vec<u8>, c: u8, v: Ghost<BoardView>) -> (b:
        bool)
        requires
            game_valid(*game),
            top@.len() == game.col,
            board@.len() == game.row * game.col,
            c < game.col,
            v@ == (BoardView { top: top@, cells: board@, who: 2u8 }),
        ensures
            b == col_wf(*game, v@, c as int),
    {
        let t = top[c as usize];
        if t > game.row {
            return false;
        }
        if game.no.1 == c && game.no.0 < game.row && t == game.no.0 + 1 {
            return false;
        }
        if game.no.1 == c && game.no.0 < game.row {
            proof {
                lemma_index_bound(*game, game.no.0 as int, c as int);
                lemma_grid_size(*game);
            }
            let idx = game.no.0 as usize * game.col as usize + c as usize;
            if board[idx] != 0 {
                proof {
                    assert(v@.cell(*game, game.no.0 as int, c as int) != 0);
                }
                return false;
            }
        }
        let mut r: u8 = 0;
        while r < t
            invariant
                game_valid(*game),
                top@.len() == game.col,
                board@.len() == game.row * game.col,
                c < game.col,
                t == top@[c as int],
                t <= game.row,
                r <= t,
                forall|r2: int| 0 <= r2 < r ==> v@.cell(*game, r2, c as int) == 0,
                v@ == (BoardView { top: top@, cells: board@, who: 2u8 }),
            decreases t - r,
        {
            proof {
                lemma_index_bound(*game, r as int, c as int);
                lemma_grid_size(*game);
            }
            let idx = r as usize * game.col as usize + c as usize;
            if board[idx] != 0 {
                proof {
                    assert(v@.cell(*game, r as int, c as int) != 0);
                }
                return false;
            }
            r = r + 1;
        }
        true
    }

    /// Cell at `(r, c)`.
    pub fn get(&self, r: u8, c: u8) -> (x: u8)
        requires
            self.top@.len() == self.game.col,
            self.board@.len() == self.game.row * self.game.col,
            game_valid(self.game),
            r < self.game.row,
            c < self.game.col,
        ensures
            x == self.bview().cell(self.game, r as int, c as int),
    {
        proof {
            lemma_index_bound(self.game, r as int, c as int);
            lemma_grid_size(self.game);
        }
        self.board[r as usize * self.game.col as usize + c as usize]
    }

    /// Writes cell `(r, c)`.
    pub fn set(&mut self, r: u8, c: u8, x: u8)
        requires
            old(self).top@.len() == old(self).game.col,
            old(self).board@.len() == old(self).game.row * old(self).game.col,
            game_valid(old(self).game),
            r < old(self).game.row,
            c < old(self).game.col,
        ensures
            final(self).board@ == old(self).board@.update(
                r as int * (old(self).game.col as int) + c as int,
                x,
            ),
            final(self).top == old(self).top,
            final(self).game == old(self).game,
            final(self).who == old(self).who,
            final(self).nodes == old(self).nodes,
            final(self).root_node == old(self).root_node,
            final(self).rng == old(self).rng,
            final(self).deadline_millis == old(self).deadline_millis,
    {
        proof {
            lemma_index_bound(self.game, r as int, c as int);
            lemma_grid_size(self.game);
        }
        let idx = r as usize * self.game.col as usize + c as usize;
        self.board[idx] = x;
    }

    /// Drops the mover's piece into column `c`: places it on the landing
    /// row, skips the forbidden cell out of the free-height count, and
    /// passes the turn. Returns the landing row.
    pub fn do_action(&mut self, c: u8) -> (r: u8)
        requires
            old(self).wf_board(),
            c < old(self).game.col,
            old(self).top@[c as int] > 0,
        ensures
            final(self).bview() == apply_view(old(self).game, old(self).bview(), c as int),
            r as int == landing_row(old(self).bview(), c as int),
            final(self).wf_board(),
            undo_ok(final(self).game, final(self).bview(), c as int),
            final(self).game == old(self).game,
            final(self).nodes == old(self).nodes,
            final(self).root_node == old(self).root_node,
            final(self).rng == old(self).rng,
            final(self).deadline_millis == old(self).deadline_millis,
            sum_tops(final(self).top@) < sum_tops(old(self).top@),
            final(self).bview().cell(final(self).game, r as int, c as int) != 0,
            r < final(self).game.row,
    {
        proof {
            assert(col_wf(self.game, self.bview(), c as int));
            lemma_apply_wf(self.game, self.bview(), c as int);
            lemma_apply_decreases(self.game, self.bview(), c as int);
        }
        let ghost pre = self.bview();
        let nt = self.top[c as usize] - 1;
        let new_top = if nt > 0 && nt - 1 == self.game.no.0 && c == self.game.no.1 {
            nt - 1
        } else {
            nt
        };
        self.top[c as usize] = new_top;
        let w = self.who;
        self.set(nt, c, w);
        self.who = 3 - self.who;
        proof {
            assert(final(self).bview().top =~= apply_view(self.game, pre, c as int).top);
            assert(final(self).bview().cells =~= apply_view(self.game, pre, c as int).cells);
            lemma_index_bound(self.game, nt as int, c as int);
        }
        nt
    }

    /// Lifts the most recent piece back out of column `c`: clears the
    /// recovered slot (skipping the forbidden cell where the height points
    /// at it), restores the free height, and passes the turn back. The
    /// exact inverse of `do_action`.
    pub fn undo_action(&mut self, c: u8)
        requires
            undo_ok(old(self).game, old(self).bview(), c as int),
        ensures
            final(self).bview() == undo_view(old(self).game, old(self).bview(), c as int),
            final(self).game == old(self).game,
            final(self).nodes == old(self).nodes,
            final(self).root_node == old(self).root_node,
            final(self).rng == old(self).rng,
            final(self).deadline_millis == old(self).deadline_millis,
    {
        let ghost pre = self.bview();
        let mut t = self.top[c as usize];
        if t == self.game.no.0 && c == self.game.no.1 {
            t = t + 1;
        }
        self.set(t, c, 0);
        self.top[c as usize] = t + 1;
        self.who = 3 - self.who;
        proof {
            assert(final(self).bview().top =~= undo_view(self.game, pre, c as int).top);
            assert(final(self).bview().cells =~= undo_view(self.game, pre, c as int).cells);
        }
    }

    /// Scans one axis through `(r, c)` for four consecutive cells equal to
    /// the piece at `(r, c)`, resetting the run on a mismatch or an
    /// off-grid cell.
    fn check_win_direction(&self, r: u8, c: u8, dr: i8, dc: i8) -> (b: bool)
        requires
            self.wf_board(),
            in_bounds(self.game, r as int, c as int),
            self.bview().cell(self.game, r as int, c as int) != 0,
            axis(dr as int, dc as int),
        ensures
            b == wins_dir(self.game, self.bview(), r as int, c as int, dr as int, dc as int),
    {
        let ghost g = self.game;
        let ghost v = self.bview();
        let who = self.get(r, c);
        let mut count: u8 = 0;
        let mut o: i32 = -3;
        while o <= 3
            invariant
                self.wf_board(),
                in_bounds(g, r as int, c as int),
                g == self.game,
                v == self.bview(),
                who == v.cell(g, r as int, c as int),
                who != 0,
                axis(dr as int, dc as int),
                -3 <= o <= 4,
                count <= 3,
                count <= o + 3,
                forall|j: int|
                    o - count <= j < o ==> run_cell(g, v, r as int, c as int, dr as int, dc as int, j),
                o - count - 1 >= -3 ==> !run_cell(
                    g,
                    v,
                    r as int,
                    c as int,
                    dr as int,
                    dc as int,
                    o - count - 1,
                ),
                forall|s: int|
                    -3 <= s && s + 3 < o ==> !run_at(
                        g,
                        v,
                        r as int,
                        c as int,
                        dr as int,
                        dc as int,
                        s,
                    ),
            decreases 4 - o,
        {
            proof {
                assert(-3 <= o * (dr as i32) <= 3 && -3 <= o * (dc as i32) <= 3)
                    by (nonlinear_arith)
                    requires
                        -3 <= o <= 3,
                        -1 <= dr <= 1,
                        -1 <= dc <= 1,
                ;
            }
            let rr: i32 = r as i32 + o * dr as i32;
            let cc: i32 = c as i32 + o * dc as i32;
            let inb = 0 <= rr && rr < self.game.row as i32 && 0 <= cc && cc < self.game.col as i32;
            let good = if inb {
                self.get(rr as u8, cc as u8) == who
            } else {
                false
            };
            proof {
                assert(good == run_cell(g, v, r as int, c as int, dr as int, dc as int, o as int));
            }
            if good {
                count = count + 1;
                if count == 4 {
                    proof {
                        assert(run_at(g, v, r as int, c as int, dr as int, dc as int, o - 3));
                        assert(-3 <= o - 3 <= 0);
                    }
                    return true;
                }
            } else {
                count = 0;
            }
            proof {
                assert forall|s: int| -3 <= s && s + 3 < o + 1 implies !run_at(
                    g,
                    v,
                    r as int,
                    c as int,
                    dr as int,
                    dc as int,
                    s,
                ) by {
                    if s + 3 == o {
                        if good {
                            let bad = o - count;
                            assert(s <= bad <= o);
                            assert(!run_cell(g, v, r as int, c as int, dr as int, dc as int, bad));
                        } else {
                            assert(!run_cell(g, v, r as int, c as int, dr as int, dc as int, o as int));
                        }
                    }
                }
            }
            o = o + 1;
        }
        proof {
            assert forall|s: int| -3 <= s <= 0 implies !run_at(
                g,
                v,
                r as int,
                c as int,
                dr as int,
                dc as int,
                s,
            ) by {
                assert(s + 3 < 4);
            }
        }
        false
    }

    /// Whether the piece at `(r, c)` completes four in a row along any of
    /// the four axes.
    pub fn check_win(&self, r: u8, c: u8) -> (b: bool)
        requires
            self.wf_board(),
            in_bounds(self.game, r as int, c as int),
            self.bview().cell(self.game, r as int, c as int) != 0,
        ensures
            b == wins_at(self.game, self.bview(), r as int, c as int),
    {
        self.check_win_direction(r, c, 1, 0) || self.check_win_direction(r, c, 0, 1)
            || self.check_win_direction(r, c, 1, 1) || self.check_win_direction(r, c, 1, -1)
    }

    /// Every column index exactly once, ordered center-out: starting at the
    /// middle, one step left, one step right, and so on, a parity rule
    /// keeping the scan balanced.
    pub fn column_order(&self) -> (out: Vec<u8>)
        requires
            game_valid(self.game),
        ensures
            out@ == center_out(self.game.col as int),
            out@.len() == self.game.col,
            forall|i: int| 0 <= i < out@.len() ==> out@[i] < self.game.col,
            forall|i: int, j: int| 0 <= i < j < out@.len() ==> out@[i] != out@[j],
            forall|x: u8| x < self.game.col ==> out@.contains(x),
    {
        let col = self.game.col;
        let half = (col + 1) / 2;
        let mut l: u8 = half;
        let mut r: u8 = half;
        let mut out: Vec<u8> = Vec::new();
        while !(l == 0 && r == col)
            invariant
                1 <= col <= MAX_COLS,
                col == self.game.col,
                half == (col + 1) / 2,
                l <= half,
                half <= r <= col,
                l + r == 2 * half - 1 || l + r == 2 * half,
                out@.len() == r - l,
                forall|i: int| 0 <= i < out@.len() ==> l <= #[trigger] out@[i] < r,
                forall|i: int, j: int| 0 <= i < j < out@.len() ==> out@[i] != out@[j],
                forall|x: u8| l <= x < r ==> out@.contains(x),
                center_out(col as int) == out@ + center_out_from(l as int, r as int, col as int),
            decreases l + (col - r),
        {
            let ghost pre = out@;
            let ghost rest = center_out_from(l as int, r as int, col as int);
            if (l + r) % 2 == 0 {
                l = l - 1;
                out.push(l);
                proof {
                    assert(rest == seq![l] + center_out_from(l as int, r as int, col as int));
                    assert(out@ =~= pre + seq![l]);
                    assert(pre + rest =~= out@ + center_out_from(l as int, r as int, col as int));
                }
            } else {
                out.push(r);
                let ghost emitted = r;
                r = r + 1;
                proof {
                    assert(rest == seq![emitted] + center_out_from(
                        l as int,
                        r as int,
                        col as int,
                    ));
                    assert(out@ =~= pre + seq![emitted]);
                    assert(pre + rest =~= out@ + center_out_from(l as int, r as int, col as int));
                }
            }
            proof {
                assert forall|x: u8| l <= x < r implies out@.contains(x) by {
                    if pre.contains(x) {
                        let i = choose|i: int| 0 <= i < pre.len() && pre[i] == x;
                        assert(out@[i] == x);
                    } else {
                        assert(out@[pre.len() as int] == x);
                    }
                }
            }
        }
        proof {
            assert(center_out_from(l as int, r as int, col as int) == Seq::<u8>::empty());
            assert(out@ + Seq::<u8>::empty() =~= out@);
        }
        out
    }

    /// The playable columns — those with free height — in center-out order.
    pub fn actions(&self) -> (out: Vec<u8>)
        requires
            self.wf_board(),
        ensures
            out@ == center_out(self.game.col as int).filter(|x: u8| self.top@[x as int] > 0),
            out@.len() <= self.game.col,
            forall|i: int|
                0 <= i < out@.len() ==> out@[i] < self.game.col && self.top@[#[trigger] out@[i] as int]
                    > 0,
            forall|i: int, j: int| 0 <= i < j < out@.len() ==> out@[i] != out@[j],
            forall|x: u8| x < self.game.col && self.top@[x as int] > 0 ==> out@.contains(x),
    {
        let order = self.column_order();
        let mut out: Vec<u8> = Vec::new();
        let ghost mut idxs: Seq<int> = Seq::empty();
        let mut i: usize = 0;
        proof {
            reveal(Seq::filter);
            assert(order@.subrange(0, 0).filter(|x: u8| self.top@[x as int] > 0) =~= Seq::empty());
        }
        while i < order.len()
            invariant
                self.wf_board(),
                out@ == order@.subrange(0, i as int).filter(|x: u8| self.top@[x as int] > 0),
                order@ == center_out(self.game.col as int),
                order@.len() == self.game.col,
                forall|k: int| 0 <= k < order@.len() ==> order@[k] < self.game.col,
                forall|k1: int, k2: int| 0 <= k1 < k2 < order@.len() ==> order@[k1] != order@[k2],
                i <= order@.len(),
                idxs.len() == out@.len(),
                out@.len() <= i,
                forall|k: int| 0 <= k < idxs.len() ==> 0 <= #[trigger] idxs[k] < i,
                forall|k1: int, k2: int| 0 <= k1 < k2 < idxs.len() ==> idxs[k1] < idxs[k2],
                forall|k: int|
                    0 <= k < out@.len() ==> out@[k] == order@[#[trigger] idxs[k]]
                        && self.top@[out@[k] as int] > 0,
                forall|j: int|
                    0 <= j < i && self.top@[#[trigger] order@[j] as int] > 0 ==> out@.contains(
                        order@[j],
                    ),
            decreases order@.len() - i,
        {
            let x = order[i];
            if self.top[x as usize] > 0 {
                let ghost pre = out@;
                out.push(x);
                proof {
                    idxs = idxs.push(i as int);
                    assert(out@ == pre.push(x));
                    assert forall|j: int|
                        0 <= j < i + 1 && self.top@[#[trigger] order@[j] as int]
                            > 0 implies out@.contains(order@[j]) by {
                        if j < i {
                            let k = choose|k: int| 0 <= k < pre.len() && pre[k] == order@[j];
                            assert(out@[k] == order@[j]);
                        } else {
                            assert(out@[pre.len() as int] == order@[j]);
                        }
                    }
                }
            }
            proof {
                reveal(Seq::filter);
                assert(order@.subrange(0, i + 1).drop_last() =~= order@.subrange(0, i as int));
                assert(order@.subrange(0, i + 1).last() == order@[i as int]);
                assert(out@ == order@.subrange(0, i + 1).filter(|x: u8| self.top@[x as int] > 0));
            }
            i = i + 1;
        }
        proof {
            assert(order@.subrange(0, order@.len() as int) =~= order@);
            assert forall|i1: int| 0 <= i1 < out@.len() implies out@[i1] < self.game.col
                && self.top@[#[trigger] out@[i1] as int] > 0 by {
                assert(out@[i1] == order@[idxs[i1]]);
            }
            assert forall|i1: int, j1: int| 0 <= i1 < j1 < out@.len() implies out@[i1] != out@[j1] by {
                assert(out@[i1] == order@[idxs[i1]]);
                assert(out@[j1] == order@[idxs[j1]]);
            }
            assert forall|x: u8| x < self.game.col && self.top@[x as int] > 0 implies out@.contains(
                x,
            ) by {
                assert(order@.contains(x));
                let j = choose|j: int| 0 <= j < order@.len() && order@[j] == x;
                assert(out@.contains(order@[j]));
            }
        }
        out
    }

    /// A fresh node for the position the board currently shows: no
    /// statistics yet, and the playable columns as its untried actions.
    fn new_node(&self, terminal: bool, action: (u8, u8)) -> (n: Node)
        requires
            self.wf_board(),
            action.1 < self.game.col,
        ensures
            n.terminal == terminal,
            n.action == action,
            n.visits == 0,
            n.value_half == 0,
            n.children@.len() == 0,
            n.tried == 0,
            node_wf(n, self.game),
            n.actions@ == center_out(self.game.col as int).filter(|x: u8| self.top@[x as int] > 0),
            n.actions@.len() <= self.game.col,
            forall|i: int|
                0 <= i < n.actions@.len() ==> n.actions@[i] < self.game.col
                    && self.top@[#[trigger] n.actions@[i] as int] > 0,
            forall|i: int, j: int| 0 <= i < j < n.actions@.len() ==> n.actions@[i] != n.actions@[j],
            forall|x: u8| x < self.game.col && self.top@[x as int] > 0 ==> n.actions@.contains(x),
    {
        Node {
            terminal,
            action,
            visits: 0,
            value_half: 0,
            children: Vec::new(),
            actions: self.actions(),
            tried: 0,
        }
    }
}

/// Child `i` of node `n` is selectable: its key is live in the arena and it
/// has been backpropagated into at least once.
pub open spec fn sel_candidate(m: Map<int, Node>, n: Node, i: int) -> bool {
    &&& 0 <= i < n.children@.len()
    &&& m.dom().contains(n.children@[i] as int)
    &&& m[n.children@[i] as int].visits >= 1
}

/// The fixed-point selection score of child `i` of node `n`.
pub open spec fn sel_score(m: Map<int, Node>, n: Node, i: int, c2x2: u64) -> int {
    score_fp(
        m[n.children@[i] as int].value_half,
        m[n.children@[i] as int].visits,
        n.visits,
        c2x2,
    )
}

/// Expanding node `id` on board `v` is about to try an action that wins
/// immediately.
pub open spec fn expansion_wins(m: Map<int, Node>, g: Game, v: BoardView, id: int) -> bool {
    let n = m[id];
    &&& !n.terminal
    &&& n.actions@.len() > 0
    &&& (n.tried as int) < n.actions@.len()
    &&& {
        let c = n.actions@[n.tried as int];
        &&& c < g.col
        &&& v.top[c as int] > 0
        &&& wins_at(g, apply_view(g, v, c as int), landing_row(v, c as int), c as int)
    }
}

/// A node whose pruning left a single child admits no other selection:
/// whatever index selection picks, the child is the stored one.
pub proof fn lemma_pruned_selection(m: Map<int, Node>, id: int, ch: usize, wi: int)
    requires
        m.dom().contains(id),
        m[id].children@.len() == 1,
        0 <= wi < m[id].children@.len(),
        m[id].children@[wi] == ch,
    ensures
        ch == m[id].children@[0],
{
}

impl State {
    /// Plants a fresh root for the position the board currently shows.
    pub fn init(&mut self)
        requires
            old(self).wf_board(),
            old(self).wf_arena(),
        ensures
            final(self).wf(),
            final(self).bview() == old(self).bview(),
            final(self).game == old(self).game,
            final(self).rng == old(self).rng,
            final(self).deadline_millis == old(self).deadline_millis,
            !old(self).arena().dom().contains(final(self).root()),
            final(self).arena() == old(self).arena().insert(
                final(self).root(),
                final(self).arena()[final(self).root()],
            ),
            final(self).arena()[final(self).root()].visits == 0,
            final(self).arena()[final(self).root()].value_half == 0,
            final(self).arena()[final(self).root()].tried == 0,
            final(self).arena()[final(self).root()].children@.len() == 0,
            !final(self).arena()[final(self).root()].terminal,
            final(self).arena()[final(self).root()].action == (0u8, 0u8),
            ({
                let acts = final(self).arena()[final(self).root()].actions@;
                &&& acts == center_out(old(self).game.col as int).filter(
                    |x: u8| old(self).top@[x as int] > 0,
                )
                &&& forall|i: int|
                    0 <= i < acts.len() ==> acts[i] < old(self).game.col && old(self).top@[
                        #[trigger] acts[i] as int] > 0
                &&& forall|i: int, j: int| 0 <= i < j < acts.len() ==> acts[i] != acts[j]
                &&& forall|x: u8|
                    x < old(self).game.col && old(self).top@[x as int] > 0 ==> acts.contains(x)
            }),
    {
        let n = self.new_node(false, (0, 0));
        let key = arena_insert(&mut self.nodes, n);
        self.root_node = key;
    }

    /// Frees every node reachable from the given stack of keys, except the
    /// two protected keys; the arena only shrinks and survivors keep their
    /// contents.
    fn remove_subtrees(&mut self, stack: Vec<usize>, keep: usize, keep2: usize, keep3: usize)
        requires
            old(self).wf_arena(),
            game_valid(old(self).game),
        ensures
            final(self).wf_arena(),
            final(self).arena().dom().subset_of(old(self).arena().dom()),
            forall|k: int|
                final(self).arena().dom().contains(k) ==> final(self).arena()[k] == old(
                    self,
                ).arena()[k],
            old(self).arena().dom().contains(keep as int) ==> final(self).arena().dom().contains(
                keep as int,
            ),
            old(self).arena().dom().contains(keep2 as int) ==> final(self).arena().dom().contains(
                keep2 as int,
            ),
            old(self).arena().dom().contains(keep3 as int) ==> final(self).arena().dom().contains(
                keep3 as int,
            ),
            forall|i: int|
                0 <= i < stack@.len() && stack@[i] != keep && stack@[i] != keep2 && stack@[i]
                    != keep3 ==> !final(self).arena().dom().contains(#[trigger] stack@[i] as int),
            forall|k: int, j: int|
                old(self).arena().dom().contains(k) && !final(self).arena().dom().contains(k) && 0
                    <= j < old(self).arena()[k].children@.len() ==> {
                    let h = #[trigger] old(self).arena()[k].children@[j];
                    h == keep || h == keep2 || h == keep3 || !final(self).arena().dom().contains(
                        h as int,
                    )
                },
            final(self).bview() == old(self).bview(),
            final(self).top == old(self).top,
            final(self).board == old(self).board,
            final(self).game == old(self).game,
            final(self).root_node == old(self).root_node,
            final(self).rng == old(self).rng,
            final(self).deadline_millis == old(self).deadline_millis,
    {
        let ghost orig = stack@;
        let mut stack = stack;
        while stack.len() > 0
            invariant
                self.wf_arena(),
                game_valid(self.game),
                self.arena().dom().subset_of(old(self).arena().dom()),
                forall|k: int|
                    self.arena().dom().contains(k) ==> self.arena()[k] == old(self).arena()[k],
                old(self).arena().dom().contains(keep as int) ==> self.arena().dom().contains(
                    keep as int,
                ),
                old(self).arena().dom().contains(keep2 as int) ==> self.arena().dom().contains(
                    keep2 as int,
                ),
                old(self).arena().dom().contains(keep3 as int) ==> self.arena().dom().contains(
                    keep3 as int,
                ),
                forall|i: int|
                    0 <= i < orig.len() ==> orig[i] == keep || orig[i] == keep2 || orig[i] == keep3
                        || !self.arena().dom().contains(#[trigger] orig[i] as int)
                        || stack@.contains(orig[i]),
                forall|k: int, j: int|
                    old(self).arena().dom().contains(k) && !self.arena().dom().contains(k) && 0
                        <= j < old(self).arena()[k].children@.len() ==> {
                        let h = #[trigger] old(self).arena()[k].children@[j];
                        h == keep || h == keep2 || h == keep3 || !self.arena().dom().contains(
                            h as int,
                        ) || stack@.contains(h)
                    },
                self.bview() == old(self).bview(),
                self.top == old(self).top,
                self.board == old(self).board,
                self.game == old(self).game,
                self.root_node == old(self).root_node,
                self.rng == old(self).rng,
                self.deadline_millis == old(self).deadline_millis,
            decreases 13 * self.arena().dom().len() + stack@.len(),
        {
            let ghost pre_dom = self.arena().dom();
            let ghost prestack = stack@;
            let id = stack.pop().unwrap();
            let ghost popped = prestack.drop_last();
            if id != keep && id != keep2 && id != keep3 && arena_contains(&self.nodes, id) {
                let node = arena_remove(&mut self.nodes, id);
                proof {
                    assert(self.arena().dom() =~= pre_dom.remove(id as int));
                    vstd::set::axiom_set_remove_len::<int>(pre_dom, id as int);
                    assert(node_wf(node, self.game));
                    assert(node == old(self).arena()[id as int]);
                }
                let mut j: usize = 0;
                let ghost mid_len = stack@.len();
                while j < node.children.len()
                    invariant
                        j <= node.children@.len(),
                        stack@.len() == mid_len + j,
                        mid_len == popped.len(),
                        stack@.subrange(0, mid_len as int) == popped,
                        forall|jj: int|
                            0 <= jj < j ==> stack@.contains(#[trigger] node.children@[jj]),
                    decreases node.children@.len() - j,
                {
                    let ghost ps = stack@;
                    stack.push(node.children[j]);
                    proof {
                        assert(stack@.subrange(0, mid_len as int) =~= popped);
                        assert forall|jj: int| 0 <= jj <= j implies stack@.contains(
                            #[trigger] node.children@[jj],
                        ) by {
                            if jj < j {
                                let ii = choose|ii: int|
                                    0 <= ii < ps.len() && ps[ii] == node.children@[jj];
                                assert(stack@[ii] == node.children@[jj]);
                            } else {
                                assert(stack@[stack@.len() - 1] == node.children@[jj]);
                            }
                        }
                    }
                    j = j + 1;
                }
                proof {
                    assert forall|jj: int|
                        0 <= jj < old(self).arena()[id as int].children@.len() implies stack@.contains(
                        #[trigger] old(self).arena()[id as int].children@[jj],
                    ) by {
                        assert(stack@.contains(node.children@[jj]));
                    }
                }
            }
            proof {
                assert(self.arena().dom().subset_of(pre_dom));
                assert(stack@.subrange(0, popped.len() as int) =~= popped);
                assert forall|i: int|
                    0 <= i < orig.len() && !(orig[i] == keep || orig[i] == keep2 || orig[i]
                        == keep3) && self.arena().dom().contains(
                        orig[i] as int,
                    ) implies stack@.contains(orig[i]) by {
                    let pi = orig[i];
                    assert(pre_dom.contains(pi as int));
                    assert(prestack.contains(pi));
                    let idx = choose|idx: int| 0 <= idx < prestack.len() && prestack[idx] == pi;
                    if idx < prestack.len() - 1 {
                        assert(popped[idx] == pi);
                        assert(stack@[idx] == pi);
                    } else {
                        assert(pi == id);
                        assert(!self.arena().dom().contains(pi as int));
                    }
                }
                assert forall|k: int, j: int|
                    old(self).arena().dom().contains(k) && !self.arena().dom().contains(k) && 0
                        <= j < old(self).arena()[k].children@.len() && #[trigger] old(
                        self,
                    ).arena()[k].children@[j] != keep && old(self).arena()[k].children@[j] != keep2
                        && old(self).arena()[k].children@[j] != keep3
                        && self.arena().dom().contains(
                        old(self).arena()[k].children@[j] as int,
                    ) implies stack@.contains(old(self).arena()[k].children@[j]) by {
                    let h = old(self).arena()[k].children@[j];
                    if pre_dom.contains(k) {
                        assert(k == id as int);
                        assert(stack@.contains(h));
                    } else {
                        assert(prestack.contains(h));
                        let idx = choose|idx: int| 0 <= idx < prestack.len() && prestack[idx] == h;
                        if idx < prestack.len() - 1 {
                            assert(popped[idx] == h);
                            assert(stack@[idx] == h);
                        } else {
                            assert(h == id);
                            assert(!self.arena().dom().contains(h as int));
                        }
                    }
                }
            }
        }
    }

    /// Advances the tree to the position after `(r, c)` is actually played:
    /// the matching child, if one was ever expanded, is promoted to root
    /// with its statistics intact and its siblings are freed; otherwise the
    /// tree is rebuilt from scratch. The move is then applied to the board.
    pub fn perform(&mut self, r: u8, c: u8)
        requires
            old(self).wf(),
            c < old(self).game.col,
            old(self).top@[c as int] > 0,
        ensures
            final(self).wf(),
            final(self).bview() == apply_view(old(self).game, old(self).bview(), c as int),
            final(self).game == old(self).game,
            final(self).deadline_millis == old(self).deadline_millis,
            ({
                let m2 = old(self).arena().remove(old(self).root());
                let kids = old(self).arena()[old(self).root()].children@;
                let matched = exists|i: int| kid_matches(m2, kids, i, r, c);
                &&& (matched ==> exists|i: int|
                    #[trigger] kid_matches(m2, kids, i, r, c) && final(self).root() == kids[i] as int
                        && final(self).arena()[final(self).root()] == m2[kids[i] as int])
                &&& (matched ==> !final(self).arena().dom().contains(old(self).root())
                    && final(self).arena().dom().subset_of(
                        old(self).arena().dom().remove(old(self).root()),
                    ) && (forall|i: int|
                        0 <= i < kids.len() && kids[i] as int != final(self).root()
                            ==> !final(self).arena().dom().contains(#[trigger] kids[i] as int)))
                &&& (matched ==> {
                    let mf = final(self).arena();
                    forall|k: int, j: int|
                        m2.dom().contains(k) && !mf.dom().contains(k) && 0 <= j
                            < m2[k].children@.len() ==> {
                            let h = #[trigger] m2[k].children@[j];
                            h as int == final(self).root() || !mf.dom().contains(h as int)
                        }
                })
                &&& (!matched ==> {
                    let root_after = final(self).arena()[final(self).root()];
                    &&& root_after.visits == 0
                    &&& root_after.tried == 0
                    &&& root_after.children@.len() == 0
                    &&& root_after.actions@ == center_out(old(self).game.col as int).filter(
                        |x: u8| old(self).top@[x as int] > 0,
                    )
                    &&& forall|x: u8|
                        x < old(self).game.col && old(self).top@[x as int] > 0
                            ==> root_after.actions@.contains(x)
                })
                &&& (!matched ==> forall|k: int|
                    final(self).arena().dom().contains(k) <==> k == final(self).root())
            }),
    {
        let ghost m2 = old(self).arena().remove(old(self).root());
        let root = self.root_node;
        let root_val = arena_remove(&mut self.nodes, root);
        let kids = root_val.children;
        proof {
            assert(self.arena() =~= m2);
            assert(kids@ == old(self).arena()[old(self).root()].children@);
        }
        let mut found: Option<usize> = None;
        let mut i: usize = 0;
        while i < kids.len()
            invariant
                self.arena() == m2,
                self.wf_arena(),
                kids@ == old(self).arena()[old(self).root()].children@,
                i <= kids@.len(),
                match found {
                    Option::None => forall|j: int| 0 <= j < i ==> !kid_matches(m2, kids@, j, r, c),
                    Option::Some(ch) => exists|j: int|
                        #[trigger] kid_matches(m2, kids@, j, r, c) && kids@[j] == ch,
                },
                *self == (State { nodes: self.nodes, root_node: self.root_node, ..*old(self) }),
                self.root_node == old(self).root_node,
            decreases kids@.len() - i,
        {
            let ch = kids[i];
            if found.is_none() && arena_contains(&self.nodes, ch) {
                let a = arena_get(&self.nodes, ch).action;
                if a.0 == r && a.1 == c {
                    found = Some(ch);
                    proof {
                        assert(kid_matches(m2, kids@, i as int, r, c));
                    }
                }
            }
            i = i + 1;
        }
        match found {
            Option::Some(ch) => {
                self.root_node = ch;
                self.remove_subtrees(kids, ch, ch, ch);
            },
            Option::None => {
                self.remove_subtrees(kids, root, root, root);
                arena_clear(&mut self.nodes);
                proof {
                    assert(self.arena().dom() =~= Set::<int>::empty());
                }
                self.init();
            },
        }
        self.do_action(c);
    }

    /// The live, visited child of `id` with the greatest selection score;
    /// ties go to the later candidate. `None` only where no child is
    /// selectable.
    fn best_child(&self, id: usize, c2x2: u64) -> (r: Option<usize>)
        requires
            self.wf_arena(),
            self.arena().dom().contains(id as int),
            c2x2 <= SCALE,
        ensures
            ({
                let m = self.arena();
                let n = m[id as int];
                match r {
                    Option::Some(ch) => exists|wi: int|
                        #[trigger] sel_candidate(m, n, wi) && n.children@[wi] == ch && (forall|
                            j: int,
                        |
                            sel_candidate(m, n, j) ==> sel_score(m, n, j, c2x2) <= sel_score(
                                m,
                                n,
                                wi,
                                c2x2,
                            )) && (forall|j: int|
                            sel_candidate(m, n, j) && j > wi ==> sel_score(m, n, j, c2x2)
                                < sel_score(m, n, wi, c2x2)),
                    Option::None => forall|j: int| !sel_candidate(m, n, j),
                }
            }),
    {
        let ghost m = self.arena();
        let ghost n = m[id as int];
        let (nv, n_len) = {
            let nref = arena_get(&self.nodes, id);
            (nref.visits, nref.children.len())
        };
        let mut best: Option<usize> = None;
        let mut best_key: u64 = 0;
        let ghost mut best_i: int = 0;
        let mut i: usize = 0;
        while i < n_len
            invariant
                self.wf_arena(),
                m == self.arena(),
                m.dom().contains(id as int),
                n == m[id as int],
                nv == n.visits,
                n_len == n.children@.len(),
                i <= n_len,
                c2x2 <= SCALE,
                match best {
                    Option::None => forall|j: int| 0 <= j < i ==> !sel_candidate(m, n, j),
                    Option::Some(b) => {
                        &&& 0 <= best_i < i
                        &&& sel_candidate(m, n, best_i)
                        &&& n.children@[best_i] == b
                        &&& best_key == sel_score(m, n, best_i, c2x2)
                        &&& forall|j: int|
                            0 <= j < i && sel_candidate(m, n, j) ==> sel_score(m, n, j, c2x2)
                                <= best_key
                        &&& forall|j: int|
                            best_i < j < i && sel_candidate(m, n, j) ==> sel_score(m, n, j, c2x2)
                                < best_key
                    },
                },
            decreases n_len - i,
        {
            let ch = {
                let nref = arena_get(&self.nodes, id);
                nref.children[i]
            };
            if arena_contains(&self.nodes, ch) {
                let cv = {
                    let cref = arena_get(&self.nodes, ch);
                    cref.visits
                };
                if cv >= 1 {
                    proof {
                        assert(node_wf(m[ch as int], self.game));
                    }
                    let key = {
                        let cref = arena_get(&self.nodes, ch);
                        cref.score(nv, c2x2)
                    };
                    let take = match best {
                        Option::None => true,
                        Option::Some(_) => key >= best_key,
                    };
                    if take {
                        best = Some(ch);
                        best_key = key;
                        proof {
                            best_i = i as int;
                        }
                    }
                }
            }
            i = i + 1;
        }
        proof {
            if best is Some {
                assert(sel_candidate(m, n, best_i));
            } else {
                assert forall|j: int| !sel_candidate(m, n, j) by {
                    if 0 <= j < n.children@.len() {
                        assert(!sel_candidate(m, n, j));
                    }
                }
            }
        }
        best
    }

    /// A random playout from the current position: uniformly random legal
    /// columns are played, alternating the outcome sign each ply, until a
    /// move wins (the current sign) or none is left (a draw); every move is
    /// then unplayed, so the board is exactly restored.
    fn default_policy(&mut self) -> (score: i8)
        requires
            old(self).wf_board(),
        ensures
            final(self).wf_board(),
            final(self).bview() == old(self).bview(),
            final(self).game == old(self).game,
            final(self).nodes == old(self).nodes,
            final(self).root_node == old(self).root_node,
            final(self).deadline_millis == old(self).deadline_millis,
            -1 <= score <= 1,
            (forall|x: u8| x < old(self).game.col ==> old(self).top@[x as int] == 0) ==> score
                == 0,
            ({
                let g0 = old(self).game;
                let w0 = old(self).bview();
                ((exists|x: u8| x < g0.col && w0.top[x as int] > 0) && (forall|x: u8|
                    x < g0.col && w0.top[x as int] > 0 ==> wins_at(
                        g0,
                        apply_view(g0, w0, x as int),
                        landing_row(w0, x as int),
                        x as int,
                    ))) ==> score == 1
            }),
    {
        let ghost g = self.game;
        let ghost v0 = old(self).bview();
        let ghost stuck = forall|x: u8| x < g.col ==> old(self).top@[x as int] == 0;
        let ghost allwin = (exists|x: u8| x < g.col && v0.top[x as int] > 0) && (forall|x: u8|
            x < g.col && v0.top[x as int] > 0 ==> wins_at(
                g,
                apply_view(g, v0, x as int),
                landing_row(v0, x as int),
                x as int,
            ));
        let mut stack: Vec<u8> = Vec::new();
        let mut score: i8 = 1;
        let mut done = false;
        while !done
            invariant
                self.wf_board(),
                self.game == g,
                self.nodes == old(self).nodes,
                self.root_node == old(self).root_node,
                self.deadline_millis == old(self).deadline_millis,
                unwind_ok(g, self.bview(), stack@),
                unwind(g, self.bview(), stack@) == v0,
                -1 <= score <= 1,
                v0 == old(self).bview(),
                stuck == (forall|x: u8| x < g.col ==> old(self).top@[x as int] == 0),
                stuck ==> stack@.len() == 0 && self.bview() == v0 && (done ==> score == 0),
                allwin == ((exists|x: u8| x < g.col && v0.top[x as int] > 0) && (forall|x: u8|
                    x < g.col && v0.top[x as int] > 0 ==> wins_at(
                        g,
                        apply_view(g, v0, x as int),
                        landing_row(v0, x as int),
                        x as int,
                    ))),
                allwin ==> score == 1 && (done || (stack@.len() == 0 && self.bview() == v0)),
            decreases sum_tops(self.top@) + (if done {
                0int
            } else {
                1int
            }),
        {
            let acts = self.actions();
            if acts.len() == 0 {
                proof {
                    if allwin {
                        let x = choose|x: u8| x < g.col && v0.top[x as int] > 0;
                        assert(self.top@[x as int] > 0);
                        assert(acts@.contains(x));
                        assert(false);
                    }
                }
                score = 0;
                done = true;
            } else {
                proof {
                    if stuck {
                        assert(acts@[0] < g.col && self.top@[acts@[0] as int] > 0);
                        assert(self.top@ == v0.top);
                        assert(old(self).top@[acts@[0] as int] == 0);
                        assert(false);
                    }
                }
                let k = rng_below(&mut self.rng, acts.len());
                let c = acts[k];
                let ghost pre = self.bview();
                let ghost prestack = stack@;
                let r = self.do_action(c);
                stack.push(c);
                proof {
                    lemma_unwind_push(g, pre, prestack, c);
                }
                if self.check_win(r, c) {
                    done = true;
                } else {
                    proof {
                        if allwin {
                            assert(c < g.col && v0.top[c as int] > 0);
                            assert(wins_at(
                                g,
                                apply_view(g, v0, c as int),
                                landing_row(v0, c as int),
                                c as int,
                            ));
                            assert(false);
                        }
                    }
                    score = -score;
                }
            }
            proof {
                lemma_sum_nonneg(self.top@);
            }
        }
        while stack.len() > 0
            invariant
                self.game == g,
                self.nodes == old(self).nodes,
                self.root_node == old(self).root_node,
                self.deadline_millis == old(self).deadline_millis,
                unwind_ok(g, self.bview(), stack@),
                unwind(g, self.bview(), stack@) == v0,
            decreases stack@.len(),
        {
            let ghost prestack = stack@;
            let c = stack.pop().unwrap();
            proof {
                assert(c == prestack.last());
                assert(stack@ == prestack.drop_last());
            }
            self.undo_action(c);
        }
        score
    }

    /// One Monte Carlo iteration at node `id`: descend by selection, expand
    /// the next untried action (pruning the node to the single winning
    /// child where that action wins on the spot), estimate by rollout, and
    /// backpropagate. Returns the outcome from the perspective of the
    /// player to move at `id`'s parent; the board is exactly restored.
    ///
    /// The node at `shield` is left untouched throughout (pass the root, as
    /// the top-level loop does); in a properly linked tree the guards this
    /// needs never fire, since no node is a descendant of itself.
    pub fn augment(&mut self, id: usize, shield: usize) -> (score: i8)
        requires
            old(self).wf(),
            old(self).arena().dom().contains(id as int),
        ensures
            final(self).wf(),
            final(self).bview() == old(self).bview(),
            final(self).game == old(self).game,
            final(self).root_node == old(self).root_node,
            final(self).deadline_millis == old(self).deadline_millis,
            -1 <= score <= 1,
            old(self).arena()[id as int].terminal ==> score == -1 && *final(self) == *old(self),
            (!old(self).arena()[id as int].terminal && old(self).arena()[id as int].actions@.len()
                == 0) ==> score == 0 && *final(self) == *old(self),
            ({
                let mf = final(self).arena();
                let mo = old(self).arena();
                shield != id && mo.dom().contains(shield as int) ==> mf.dom().contains(
                    shield as int,
                ) && mf[shield as int] == mo[shield as int]
            }),
            ({
                let mf = final(self).arena();
                let mo = old(self).arena();
                let no = mo[id as int];
                (!no.terminal && no.actions@.len() > 0 && (no.tried as int) < no.actions@.len()
                    && old(self).top@[no.actions@[no.tried as int] as int] > 0 && no.visits
                    < u64::MAX && no.value_half + 2 <= u64::MAX) ==> {
                    let nf = mf[id as int];
                    &&& mf.dom().contains(id as int)
                    &&& nf.tried == no.tried + 1
                    &&& nf.visits == no.visits + 1
                    &&& nf.value_half == no.value_half + score + 1
                }
            }),
            ({
                let mf = final(self).arena();
                let mo = old(self).arena();
                let no = mo[id as int];
                let g0 = old(self).game;
                let w0 = old(self).bview();
                (!no.terminal && no.actions@.len() > 0 && (no.tried as int) < no.actions@.len()
                    && old(self).top@[no.actions@[no.tried as int] as int] > 0) ==> {
                    let c = no.actions@[no.tried as int];
                    let nf = mf[id as int];
                    let kids = nf.children@;
                    let t = kids[kids.len() - 1] as int;
                    let win = wins_at(
                        g0,
                        apply_view(g0, w0, c as int),
                        landing_row(w0, c as int),
                        c as int,
                    );
                    &&& mf.dom().contains(id as int)
                    &&& nf.tried == no.tried + 1
                    &&& kids.len() >= 1
                    &&& mf.dom().contains(t)
                    &&& mf[t].visits == 1
                    &&& mf[t].value_half == 1 - score
                    &&& mf[t].action.0 as int == landing_row(w0, c as int)
                    &&& mf[t].action.1 == c
                    &&& mf[t].terminal == win
                    &&& mf[t].tried == 0
                    &&& mf[t].children@.len() == 0
                    &&& mf[t].actions@ == center_out(g0.col as int).filter(
                        |x: u8| apply_view(g0, w0, c as int).top[x as int] > 0,
                    )
                    &&& (win ==> score == 1)
                    &&& (!win ==> kids == no.children@.push(kids[kids.len() - 1]))
                    &&& (!win ==> !mo.dom().contains(t) && mf.dom() == mo.dom().insert(t)
                        && (forall|k: int|
                        mo.dom().contains(k) && k != id as int ==> mf[k] == mo[k]))
                    &&& mf.dom().subset_of(mo.dom().insert(t))
                }
            }),
            ({
                let mf = final(self).arena();
                let mo = old(self).arena();
                let no = mo[id as int];
                (shield == id && !no.terminal && no.actions@.len() > 0 && no.tried as int
                    == no.actions@.len() && no.visits < u64::MAX && no.value_half + 2
                    <= u64::MAX) ==> mf.dom().contains(id as int) && ((mf[id as int].visits
                    == no.visits + 1 && mf[id as int].value_half == no.value_half + score + 1
                    && mf[id as int].children@ == no.children@ && mf[id as int].tried == no.tried
                    && mf[id as int].actions@ == no.actions@) || mf[id as int] == no)
            }),
            ({
                let mf = final(self).arena();
                let mo = old(self).arena();
                let no = mo[id as int];
                let g0 = old(self).game;
                let w0 = old(self).bview();
                let t = no.children@[0] as int;
                (shield == id && !no.terminal && no.actions@.len() > 0 && no.tried as int
                    == no.actions@.len() && no.children@.len() == 1 && mo.dom().contains(t)
                    && mo[t].terminal && mo[t].visits >= 1 && w0.top[mo[t].action.1 as int] > 0
                    && no.visits < u64::MAX && no.value_half + 2 <= u64::MAX) ==> {
                    &&& score == 1
                    &&& mf.dom().contains(id as int)
                    &&& mf[id as int].children@ == no.children@
                    &&& mf[id as int].tried == no.tried
                    &&& mf[id as int].actions@ == no.actions@
                    &&& mf[id as int].visits == no.visits + 1
                    &&& mf[id as int].value_half == no.value_half + 2
                    &&& mf.dom().contains(t)
                    &&& mf[t] == mo[t]
                }
            }),
            ({
                let mf = final(self).arena();
                let mo = old(self).arena();
                expansion_wins(mo, old(self).game, old(self).bview(), id as int) ==> {
                    let nf = mf[id as int];
                    &&& mf.dom().contains(id as int)
                    &&& nf.children@.len() == 1
                    &&& mf.dom().contains(nf.children@[0] as int)
                    &&& mf[nf.children@[0] as int].terminal
                    &&& nf.tried as int == nf.actions@.len()
                    &&& forall|i: int|
                        0 <= i < mo[id as int].children@.len() ==> {
                            let h = #[trigger] mo[id as int].children@[i];
                            h == id || h == shield || h == old(self).root_node || h as int
                                == nf.children@[0] as int || !mf.dom().contains(h as int)
                        }
                }
            }),
        decreases sum_tops(self.top@),
    {
        let ghost g = self.game;
        let ghost v0 = old(self).bview();
        let ghost m0 = old(self).arena();
        let (terminal, n_len, tried) = {
            let nref = arena_get(&self.nodes, id);
            (nref.terminal, nref.actions.len(), nref.tried)
        };
        if terminal {
            return -1;
        }
        if n_len == 0 {
            return 0;
        }
        let score: i8;
        if (tried as usize) < n_len {
            let c = {
                let nref = arena_get(&self.nodes, id);
                nref.actions[tried as usize]
            };
            proof {
                assert(node_wf(m0[id as int], g));
                assert(c < g.col);
            }
            // an untried action is playable whenever the node matches the
            // position the board shows; the guard makes the function total
            if !(self.top[c as usize] > 0) {
                return 0;
            }
            let ghost sh = shield as int;
            let ghost shielded = shield != id && m0.dom().contains(sh);
            {
                let nref = arena_get_mut(&mut self.nodes, id);
                nref.tried = tried + 1;
            }
            proof {
                lemma_wf_arena_after(*old(self), *self, id as int);
                assert(shielded ==> self.arena().dom().contains(sh) && self.arena()[sh] == m0[sh]);
            }
            let r = self.do_action(c);
            let win = self.check_win(r, c);
            proof {
                assert(shielded ==> self.arena().dom().contains(sh) && self.arena()[sh] == m0[sh]);
            }
            if win {
                let kids = {
                    let nref = arena_get(&self.nodes, id);
                    copy_keys(&nref.children)
                };
                {
                    let nref = arena_get_mut(&mut self.nodes, id);
                    nref.children = Vec::new();
                    nref.actions.truncate(tried as usize + 1);
                }
                proof {
                    lemma_wf_arena_after(*old(self), *self, id as int);
                    assert(shielded ==> self.arena().dom().contains(sh) && self.arena()[sh]
                        == m0[sh]);
                }
                let rt = self.root_node;
                self.remove_subtrees(kids, id, rt, shield);
                proof {
                    assert(shielded ==> self.arena().dom().contains(sh) && self.arena()[sh]
                        == m0[sh]);
                    assert(self.arena()[id as int].children@.len() == 0);
                    assert(self.arena()[id as int].tried as int == self.arena()[
                        id as int
                    ].actions@.len());
                }
            }
            let child_node = self.new_node(win, (r, c));
            let child = arena_insert(&mut self.nodes, child_node);
            proof {
                assert(shielded ==> child as int != sh);
                assert(shielded ==> self.arena().dom().contains(sh) && self.arena()[sh] == m0[sh]);
            }
            {
                let nref = arena_get_mut(&mut self.nodes, id);
                nref.children.push(child);
            }
            proof {
                assert forall|k: int|
                    self.arena().dom().contains(k) implies node_wf(
                    #[trigger] self.arena()[k],
                    self.game,
                ) by {}
                assert(shielded ==> self.arena().dom().contains(sh) && self.arena()[sh] == m0[sh]);
                assert(win ==> self.arena()[id as int].children@ =~= seq![child]);
            }
            let s_in: i8 = if win {
                -1
            } else {
                self.default_policy()
            };
            {
                let nref = arena_get_mut(&mut self.nodes, child);
                nref.update(s_in);
            }
            proof {
                assert forall|k: int|
                    self.arena().dom().contains(k) implies node_wf(
                    #[trigger] self.arena()[k],
                    self.game,
                ) by {}
                assert(shielded ==> self.arena().dom().contains(sh) && self.arena()[sh] == m0[sh]);
                assert(win ==> self.arena()[id as int].children@ =~= seq![child]);
                assert(self.arena()[child as int].terminal == win);
            }
            score = -s_in;
            self.undo_action(c);
            proof {
                lemma_apply_undo(g, v0, c as int);
            }
        } else {
            let ghost pruned = shield == id && m0[id as int].children@.len() == 1
                && m0.dom().contains(m0[id as int].children@[0] as int)
                && m0[m0[id as int].children@[0] as int].terminal
                && m0[m0[id as int].children@[0] as int].visits >= 1
                && v0.top[m0[m0[id as int].children@[0] as int].action.1 as int] > 0;
            match self.best_child(id, EXPLORE_C2X2) {
                Option::None => {
                    proof {
                        if pruned {
                            assert(sel_candidate(m0, m0[id as int], 0));
                        }
                    }
                    return 0;
                },
                Option::Some(ch) => {
                    proof {
                        assert(self.arena().dom().contains(ch as int));
                        assert(node_wf(self.arena()[ch as int], g));
                        if pruned {
                            let m = self.arena();
                            let n = m[id as int];
                            let wi = choose|wi: int|
                                #[trigger] sel_candidate(m, n, wi) && n.children@[wi] == ch && (
                                forall|j: int|
                                    sel_candidate(m, n, j) ==> sel_score(m, n, j, EXPLORE_C2X2)
                                        <= sel_score(m, n, wi, EXPLORE_C2X2)) && (forall|j: int|
                                    sel_candidate(m, n, j) && j > wi ==> sel_score(
                                        m,
                                        n,
                                        j,
                                        EXPLORE_C2X2,
                                    ) < sel_score(m, n, wi, EXPLORE_C2X2));
                            assert(wi == 0);
                            assert(ch as int == m0[id as int].children@[0] as int);
                        }
                    }
                    // guards for a tree whose links have gone bad: a child
                    // that is the node itself or the shielded ancestor, or
                    // whose stored action is no longer playable, ends the
                    // iteration instead
                    if ch == id || (ch == shield && shield != id) {
                        return 0;
                    }
                    let c = {
                        let cref = arena_get(&self.nodes, ch);
                        cref.action.1
                    };
                    if !(self.top[c as usize] > 0) {
                        return 0;
                    }
                    self.do_action(c);
                    proof {
                        lemma_sum_nonneg(self.top@);
                    }
                    let s = self.augment(ch, shield);
                    self.undo_action(c);
                    proof {
                        lemma_apply_undo(g, v0, c as int);
                        if shield != id && m0.dom().contains(shield as int) {
                            assert(self.arena().dom().contains(shield as int));
                            assert(self.arena()[shield as int] == m0[shield as int]);
                        }
                        if pruned {
                            assert(s == -1);
                            assert(self.arena() == m0);
                        }
                        if shield == id {
                            assert(self.arena().dom().contains(id as int));
                            assert(self.arena()[id as int] == m0[id as int]);
                        }
                    }
                    score = -s;
                },
            }
        }
        if arena_contains(&self.nodes, id) {
            let nref = arena_get_mut(&mut self.nodes, id);
            nref.update(score);
            proof {
                assert(node_wf(*final(nref), g));
            }
        }
        proof {
            assert forall|k: int|
                self.arena().dom().contains(k) implies node_wf(
                #[trigger] self.arena()[k],
                self.game,
            ) by {}
        }
        score
    }

    /// Runs Monte Carlo iterations from the root until the wall-clock
    /// budget is spent, then reads off the root action with the greatest
    /// mean value (exploration constant zero). A move is owed whenever a
    /// legal column exists, and the returned placement is legal on the
    /// current board: an open column, landing one below its free height.
    /// `None` says the board is full. The tree root is unchanged, except
    /// that the recovery step below may rebuild the tree (and so replace
    /// the root) when the old tree cannot answer — a branch a sound search
    /// never reaches.
    pub fn get_move(&mut self) -> (r: Option<(u8, u8)>)
        requires
            old(self).wf(),
        ensures
            final(self).wf(),
            final(self).bview() == old(self).bview(),
            final(self).game == old(self).game,
            final(self).deadline_millis == old(self).deadline_millis,
            ({
                let m = final(self).arena();
                let n = m[final(self).root()];
                match r {
                    Option::Some(a) => a.1 < final(self).game.col && final(self).top@[a.1 as int]
                        > 0 && a.0 as int == final(self).top@[a.1 as int] - 1 && exists|wi: int|
                        #[trigger] sel_candidate(m, n, wi) && m[n.children@[wi] as int].action == a
                            && (forall|j: int|
                            sel_candidate(m, n, j) ==> sel_score(m, n, j, 0) <= sel_score(
                                m,
                                n,
                                wi,
                                0,
                            )),
                    Option::None => forall|x: u8|
                        x < final(self).game.col ==> final(self).top@[x as int] == 0,
                }
            }),
            ({
                let mo = old(self).arena();
                let no = mo[old(self).root()];
                let g0 = old(self).game;
                let w0 = old(self).bview();
                (!no.terminal && no.tried == 0 && no.children@.len() == 0 && no.visits == 0
                    && no.value_half == 0 && no.actions@.len() > 0 && (forall|i: int|
                    0 <= i < no.actions@.len() ==> w0.top[#[trigger] no.actions@[i] as int] > 0)
                    && expansion_wins(mo, g0, w0, old(self).root())) ==> r == Option::Some(
                    (((w0.top[no.actions@[0] as int] - 1) as u8), no.actions@[0]),
                )
            }),
    {
        let start = now_instant();
        let ghost m0g = old(self).arena();
        let ghost r0 = old(self).root();
        let ghost n0 = m0g[r0];
        let ghost g0 = old(self).game;
        let ghost w0g = old(self).bview();
        let ghost c0 = n0.actions@[0];
        let ghost aw = (((w0g.top[c0 as int] - 1) as u8), c0);
        let ghost e7 = !n0.terminal && n0.tried == 0 && n0.children@.len() == 0 && n0.visits == 0
            && n0.value_half == 0 && n0.actions@.len() > 0 && (forall|i: int|
            0 <= i < n0.actions@.len() ==> w0g.top[#[trigger] n0.actions@[i] as int] > 0)
            && expansion_wins(m0g, g0, w0g, r0);
        let mut done = false;
        let mut iters: u64 = 0;
        while !done && iters < ITER_CAP
            invariant
                self.wf(),
                self.bview() == old(self).bview(),
                self.game == old(self).game,
                self.deadline_millis == old(self).deadline_millis,
                self.root_node == old(self).root_node,
                iters <= ITER_CAP,
                m0g == old(self).arena(),
                r0 == old(self).root(),
                n0 == m0g[r0],
                g0 == old(self).game,
                w0g == old(self).bview(),
                c0 == n0.actions@[0],
                aw == ((((w0g.top[c0 as int] - 1) as u8), c0)),
                e7 == (!n0.terminal && n0.tried == 0 && n0.children@.len() == 0 && n0.visits == 0
                    && n0.value_half == 0 && n0.actions@.len() > 0 && (forall|i: int|
                    0 <= i < n0.actions@.len() ==> w0g.top[#[trigger] n0.actions@[i] as int] > 0)
                    && expansion_wins(m0g, g0, w0g, r0)),
                done ==> iters >= 1,
                e7 ==> ({
                    let m = self.arena();
                    let n = m[r0];
                    &&& m.dom().contains(r0)
                    &&& (if iters == 0 {
                        n == n0
                    } else {
                        &&& n.children@.len() == 1
                        &&& m.dom().contains(n.children@[0] as int)
                        &&& m[n.children@[0] as int].terminal
                        &&& m[n.children@[0] as int].visits >= 1
                        &&& m[n.children@[0] as int].action == aw
                        &&& !n.terminal
                        &&& n.actions@.len() > 0
                        &&& n.tried as int == n.actions@.len()
                        &&& n.visits <= iters
                        &&& n.value_half <= 2 * iters
                    })
                }),
            decreases ITER_CAP - iters,
        {
            iters = iters + 1;
            let root = self.root_node;
            let ghost mpre = self.arena();
            let ghost npre = mpre[r0];
            let _ = self.augment(root, root);
            proof {
                if e7 {
                    if npre == n0 {
                        assert(expansion_wins(mpre, g0, w0g, r0));
                        let m = self.arena();
                        let n = m[r0];
                        let tk = n.children@[n.children@.len() - 1] as int;
                        assert(n.children@.len() == 1);
                        assert(m[tk].action.1 == c0);
                        assert(m[tk].action.0 as int == w0g.top[c0 as int] - 1);
                        assert(m[tk].action == aw);
                    } else {
                        assert(npre.children@.len() == 1);
                        assert(w0g.top[mpre[npre.children@[0] as int].action.1 as int] > 0);
                    }
                }
            }
            if elapsed_millis(&start) >= self.deadline_millis {
                done = true;
            }
        }
        // The final choice: the best child's stored action, provided it is
        // a legal placement on the current board. Where no child is
        // selectable, or the stored action has gone stale (a tree whose
        // positions no longer match the board — never reached by a sound
        // search), one forced expansion supplies a child recorded from the
        // current position, over a rebuilt tree where the old one cannot
        // answer.
        let first = self.best_child(self.root_node, 0);
        match first {
            Option::Some(ch) => {
                proof {
                    assert(self.arena().dom().contains(ch as int));
                    assert(node_wf(self.arena()[ch as int], self.game));
                    if e7 {
                        let m = self.arena();
                        let n = m[r0];
                        let wi = choose|wi: int|
                            #[trigger] sel_candidate(m, n, wi) && n.children@[wi] == ch && (forall|
                                j: int,
                            |
                                sel_candidate(m, n, j) ==> sel_score(m, n, j, 0) <= sel_score(
                                    m,
                                    n,
                                    wi,
                                    0,
                                ));
                        assert(wi == 0);
                        assert(m[ch as int].action == aw);
                        assert(node_wf(n0, g0));
                        assert(aw.1 < self.game.col);
                        assert(self.top@[aw.1 as int] > 0);
                    }
                }
                let a = {
                    let cref = arena_get(&self.nodes, ch);
                    cref.action
                };
                if a.1 < self.game.col && self.top[a.1 as usize] > 0 && a.0 == self.top[a.1
                    as usize] - 1 {
                    return Some(a);
                }
            },
            Option::None => {
                proof {
                    if e7 {
                        assert(sel_candidate(self.arena(), self.arena()[r0], 0));
                    }
                }
            },
        }
        let root = self.root_node;
        if first.is_none() {
            let (term2, tried2, len2) = {
                let nref = arena_get(&self.nodes, root);
                (nref.terminal, nref.tried, nref.actions.len())
            };
            proof {
                assert(node_wf(self.arena()[root as int], self.game));
            }
            if !term2 && (tried2 as usize) < len2 {
                let c = {
                    let nref = arena_get(&self.nodes, root);
                    nref.actions[tried2 as usize]
                };
                if self.top[c as usize] > 0 {
                    let _ = self.augment(root, root);
                    match self.best_child(self.root_node, 0) {
                        Option::Some(ch2) => {
                            proof {
                                assert(self.arena().dom().contains(ch2 as int));
                                assert(node_wf(self.arena()[ch2 as int], self.game));
                            }
                            let a = {
                                let cref = arena_get(&self.nodes, ch2);
                                cref.action
                            };
                            if a.1 < self.game.col && self.top[a.1 as usize] > 0 && a.0
                                == self.top[a.1 as usize] - 1 {
                                return Some(a);
                            }
                        },
                        Option::None => {},
                    }
                }
            }
        }
        {
            let acts = self.actions();
            if acts.len() == 0 {
                proof {
                    assert forall|x: u8| x < self.game.col implies self.top@[x as int] == 0 by {
                        if self.top@[x as int] > 0 {
                            assert(acts@.contains(x));
                        }
                    }
                }
                return None;
            }
            arena_clear(&mut self.nodes);
            proof {
                assert(self.arena().dom() =~= Set::<int>::empty());
            }
            self.init();
            let root2 = self.root_node;
            proof {
                let mo = self.arena();
                let no = mo[root2 as int];
                assert(acts@[0] < self.game.col && self.top@[acts@[0] as int] > 0);
                assert(no.actions@.contains(acts@[0]));
                assert(no.actions@.len() > 0);
                assert(self.top@[no.actions@[no.tried as int] as int] > 0);
            }
            let ghost c2 = self.arena()[root2 as int].actions@[0];
            let _ = self.augment(root2, root2);
            proof {
                let m = self.arena();
                let n = m[root2 as int];
                let tk = n.children@[n.children@.len() - 1];
                assert(n.children@.len() == 1);
                assert(sel_candidate(m, n, 0));
                assert(m[tk as int].action.1 == c2);
                assert(self.top@[c2 as int] > 0);
                assert(m[tk as int].action.0 as int == self.top@[c2 as int] - 1);
            }
        }
        match self.best_child(self.root_node, 0) {
            Option::None => None,
            Option::Some(ch) => {
                proof {
                    let m = self.arena();
                    let n = m[self.root()];
                    let wi = choose|wi: int|
                        #[trigger] sel_candidate(m, n, wi) && n.children@[wi] == ch && (forall|
                            j: int,
                        |
                            sel_candidate(m, n, j) ==> sel_score(m, n, j, 0) <= sel_score(
                                m,
                                n,
                                wi,
                                0,
                            ));
                    assert(m.dom().contains(ch as int));
                    assert(node_wf(m[ch as int], self.game));
                    assert(ch == n.children@[n.children@.len() - 1]);
                }
                let a = {
                    let cref = arena_get(&self.nodes, ch);
                    cref.action
                };
                Some(a)
            },
        }
    }
}

/// Copies a list of arena keys.
fn copy_keys(v: &Vec<usize>) -> (r: Vec<usize>)
    ensures
        r@ == v@,
{
    let mut r: Vec<usize> = Vec::new();
    let mut i: usize = 0;
    while i < v.len()
        invariant
            i <= v@.len(),
            r@ == v@.subrange(0, i as int),
        decreases v@.len() - i,
    {
        r.push(v[i]);
        proof {
            assert(r@ =~= v@.subrange(0, i + 1));
        }
        i = i + 1;
    }
    proof {
        assert(r@ =~= v@);
    }
    r
}

/// A child of the old root that is still live and carries the played
/// action.
pub open spec fn kid_matches(m: Map<int, Node>, kids: Seq<usize>, i: int, r: u8, c: u8) -> bool {
    &&& 0 <= i < kids.len()
    &&& m.dom().contains(kids[i] as int)
    &&& m[kids[i] as int].action == (r, c)
}

/// Re-establishes arena well-formedness when only the node at `id` changed
/// and it is still locally well formed.
proof fn lemma_wf_arena_after(pre: State, post: State, id: int)
    requires
        pre.wf_arena(),
        post.arena().dom() =~= pre.arena().dom(),
        forall|k: int|
            post.arena().dom().contains(k) && k != id ==> post.arena()[k] == pre.arena()[k],
        post.arena().dom().contains(id) ==> node_wf(post.arena()[id], post.game),
        post.game == pre.game,
    ensures
        post.wf_arena(),
{
    assert forall|k: int| post.arena().dom().contains(k) implies node_wf(
        #[trigger] post.arena()[k],
        post.game,
    ) by {
        if k != id {
            assert(post.arena()[k] == pre.arena()[k]);
        }
    }
}

/// The grid of a valid configuration has fewer cells than fit in `usize`.
pub proof fn lemma_grid_size(g: Game)
    requires
        game_valid(g),
    ensures
        g.row * g.col <= 255 * 12,
        g.row as usize * g.col as usize == (g.row * g.col) as usize,
{
    assert(g.row * g.col <= 255 * 12) by (nonlinear_arith)
        requires
            g.row <= 255,
            g.col <= 12,
            g.row >= 0,
            g.col >= 0,
    ;
}

} // verus!
