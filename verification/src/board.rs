//! The board engine: grid, per-turn legality cache, disc counters, update
//! log and reversible history.

use vstd::prelude::*;
use bit_vec::BitVec;
use crate::Color;
use crate::point::{Disc, Point};
use crate::storage::ColorStorage;
use crate::grid::{at, count_of, grid_ok, idx, lemma_count_pos, lemma_count_uniform_empty,
    lemma_count_update, lemma_counts_sum_64, lemma_grid_count_bounds, on_grid, playable};
use crate::rules::{cell_dirs, compute_dirs, dir_legal, dir_offset, disc_idx, dx, dy, flipped, legal_grid,
    legal_row, legal_seq, lemma_legal_seq_contains, lemma_legal_seq_empty, lemma_ray_cells_distinct,
    lemma_ray_not_origin, lemma_run_cells_playable, lemma_run_unique, lemma_undo_upto_commute,
    lemma_undo_upto_ignores_tail,
    lemma_move_entry_min_len, lemma_ray_discs_len, movable, move_entry, move_grid, no_moves,
    ray_discs, ray_idx, rays_upto, run_len, run_shape, scan_dir, undo_grid, undo_grid_upto};
use crate::bits::{bits_new, bits_none, bits_of};

verus! {

/// The abstract state of the engine at one instant: grid contents, side to
/// act, and the number of moves played. Disc counts are the grid's tallies.
pub ghost struct Snap {
    pub grid: Seq<Color>,
    pub color: Color,
    pub turns: int,
}

/// The point may be played by the side to act.
pub open spec fn can_play(s: Snap, x: int, y: int) -> bool {
    playable(x, y) && movable(s.grid, s.color, x, y)
}

/// The state after the side to act plays at (x, y).
pub open spec fn move_snap(s: Snap, x: int, y: int) -> Snap {
    Snap { grid: move_grid(s.grid, s.color, x, y), color: s.color.spec_opponent(), turns: s.turns + 1 }
}

/// The state after the side to act passes: same grid, same turn index, the
/// opponent to act.
pub open spec fn pass_snap(s: Snap) -> Snap {
    Snap { grid: s.grid, color: s.color.spec_opponent(), turns: s.turns }
}

/// The game has ended: sixty moves were played, or neither side can move.
pub open spec fn game_over_at(s: Snap) -> bool {
    s.turns == 60 || (no_moves(s.grid, s.color) && no_moves(s.grid, s.color.spec_opponent()))
}

/// A pass is in order: the side to act cannot move, yet the game goes on.
pub open spec fn can_pass(s: Snap) -> bool {
    no_moves(s.grid, s.color) && !game_over_at(s)
}

/// Slot of cell (x, y) within one turn's 64-cell legality cache.
pub open spec fn pidx(x: int, y: int) -> int {
    (x - 1) * 8 + (y - 1)
}

/// Number of move entries (non-empty entries) in the update log.
pub open spec fn moves_in(log: Seq<Vec<Disc>>) -> int
    decreases log.len(),
{
    if log.len() == 0 {
        0
    } else {
        moves_in(log.drop_last()) + if log.last()@.len() > 0 {
            1int
        } else {
            0int
        }
    }
}

proof fn lemma_moves_in_push(log: Seq<Vec<Disc>>, e: Vec<Disc>)
    ensures
        moves_in(log.push(e)) == moves_in(log) + if e@.len() > 0 {
            1int
        } else {
            0int
        },
{
    assert(log.push(e).drop_last() =~= log);
    assert(log.push(e).last() == e);
}

proof fn lemma_moves_in_take_succ(log: Seq<Vec<Disc>>, i: int)
    requires
        0 <= i < log.len(),
    ensures
        moves_in(log.take(i + 1)) == moves_in(log.take(i)) + if log[i]@.len() > 0 {
            1int
        } else {
            0int
        },
{
    assert(log.take(i + 1).drop_last() =~= log.take(i));
    assert(log.take(i + 1).last() == log[i]);
}

proof fn lemma_moves_in_take_le(log: Seq<Vec<Disc>>, i: int)
    requires
        0 <= i <= log.len(),
    ensures
        moves_in(log.take(i)) <= moves_in(log),
    decreases log.len() - i,
{
    if i == log.len() {
        assert(log.take(i) =~= log);
    } else {
        lemma_moves_in_take_succ(log, i);
        lemma_moves_in_take_le(log, i + 1);
    }
}

proof fn lemma_moves_in_take_all(log: Seq<Vec<Disc>>)
    ensures
        moves_in(log.take(log.len() as int)) == moves_in(log),
{
    assert(log.take(log.len() as int) =~= log);
}

pub struct Board {
    board: Vec<Color>,
    update_log: Vec<Vec<Disc>>,
    movable_dir: Vec<Vec<BitVec>>,
    movable_positions: Vec<Vec<Point>>,
    turns: usize,
    discs: ColorStorage<u32>,
    current_color: Color,
    hist: Ghost<Seq<Snap>>,
}

impl Board {
    /// The grid contents.
    pub closed spec fn grid(self) -> Seq<Color> {
        self.board@
    }

    /// The side to act.
    pub closed spec fn color(self) -> Color {
        self.current_color
    }

    /// The number of moves played (passes not counted).
    pub closed spec fn turn(self) -> int {
        self.turns as int
    }

    /// The abstract state now.
    pub open spec fn snap(self) -> Snap {
        Snap { grid: self.grid(), color: self.color(), turns: self.turn() }
    }

    /// The abstract states before each logged action, oldest first.
    pub closed spec fn history(self) -> Seq<Snap> {
        self.hist@
    }

    /// The cached legal-move list of the current turn.
    pub closed spec fn legal_moves(self) -> Seq<Point> {
        self.movable_positions@[self.turns as int]@
    }

    /// One stored disc counter.
    pub closed spec fn counter(self, c: Color) -> int {
        self.discs.spec_get(c) as int
    }

    spec fn slot_dirs_ok(self, t: int, s: Snap) -> bool {
        forall|x: int, y: int|
            playable(x, y) ==> bits_of(self.movable_dir@[t]@[pidx(x, y)]) == #[trigger] cell_dirs(
                s.grid,
                s.color,
                x,
                y,
            )
    }

    spec fn slot_ok(self, t: int, s: Snap) -> bool {
        &&& self.slot_dirs_ok(t, s)
        &&& self.movable_positions@[t]@ == legal_seq(s.grid, s.color)
    }

    spec fn entry_post(self, i: int) -> Snap {
        if i + 1 < self.hist@.len() {
            self.hist@[i + 1]
        } else {
            self.snap()
        }
    }

    spec fn entry_inv(self, i: int) -> bool {
        let pre = self.hist@[i];
        let post = self.entry_post(i);
        let e = self.update_log@[i]@;
        &&& grid_ok(pre.grid)
        &&& pre.color.is_player()
        &&& 0 <= pre.turns <= 60
        &&& pre.turns == moves_in(self.update_log@.take(i))
        &&& if e.len() == 0 {
            &&& post.grid == pre.grid
            &&& post.color == pre.color.spec_opponent()
            &&& post.turns == pre.turns
            &&& no_moves(pre.grid, pre.color)
        } else {
            &&& post.color == pre.color.spec_opponent()
            &&& post.turns == pre.turns + 1
            &&& forall|m: int|
                0 <= m < e.len() ==> playable(
                    #[trigger] e[m].point.x as int,
                    e[m].point.y as int,
                )
            &&& e == move_entry(pre.grid, pre.color, e[0].point.x as int, e[0].point.y as int)
            &&& pre.grid == undo_grid(post.grid, e, pre.color)
            &&& count_of(post.grid, pre.color) == count_of(pre.grid, pre.color) + e.len()
            &&& count_of(post.grid, pre.color.spec_opponent()) == count_of(
                pre.grid,
                pre.color.spec_opponent(),
            ) - (e.len() - 1)
            &&& count_of(post.grid, Color::Empty) == count_of(pre.grid, Color::Empty) - 1
            &&& self.slot_ok(pre.turns, pre)
        }
    }

    /// The engine's invariant, preserved by every operation.
    pub closed spec fn wf(self) -> bool {
        &&& grid_ok(self.board@)
        &&& self.current_color.is_player()
        &&& self.turns <= 60
        &&& self.movable_dir@.len() == 61
        &&& self.movable_positions@.len() == 61
        &&& forall|t: int| 0 <= t < 61 ==> (#[trigger] self.movable_dir@[t])@.len() == 64
        &&& forall|t: int, p: int|
            0 <= t < 61 && 0 <= p < 64 ==> bits_of(
                #[trigger] self.movable_dir@[t]@[p],
            ).len() == 9
        &&& self.counter(Color::Black) == count_of(self.board@, Color::Black)
        &&& self.counter(Color::White) == count_of(self.board@, Color::White)
        &&& self.counter(Color::Empty) == count_of(self.board@, Color::Empty)
        &&& count_of(self.board@, Color::Empty) == 60 - self.turns as int
        &&& self.turns as int == moves_in(self.update_log@)
        &&& self.hist@.len() == self.update_log@.len()
        &&& self.slot_ok(self.turns as int, self.snap())
        &&& forall|i: int| 0 <= i < self.update_log@.len() ==> #[trigger] self.entry_inv(i)
    }

    /// Recomputes the current turn's legality cache for the current grid and
    /// acting color.
    fn init_movable(&mut self)
        requires
            grid_ok(old(self).board@),
            old(self).current_color.is_player(),
            old(self).turns <= 60,
            old(self).movable_dir@.len() == 61,
            old(self).movable_positions@.len() == 61,
            forall|t: int| 0 <= t < 61 ==> (#[trigger] old(self).movable_dir@[t])@.len() == 64,
            forall|t: int, p: int|
                0 <= t < 61 && 0 <= p < 64 ==> bits_of(
                    #[trigger] old(self).movable_dir@[t]@[p],
                ).len() == 9,
        ensures
            final(self).board == old(self).board,
            final(self).update_log == old(self).update_log,
            final(self).turns == old(self).turns,
            final(self).discs == old(self).discs,
            final(self).current_color == old(self).current_color,
            final(self).hist == old(self).hist,
            final(self).movable_dir@.len() == 61,
            final(self).movable_positions@.len() == 61,
            forall|t: int|
                0 <= t < 61 && t != old(self).turns ==> final(self).movable_dir@[t] == old(
                    self,
                ).movable_dir@[t],
            forall|t: int|
                0 <= t < 61 && t != old(self).turns ==> final(self).movable_positions@[t] == old(
                    self,
                ).movable_positions@[t],
            forall|t: int| 0 <= t < 61 ==> (#[trigger] final(self).movable_dir@[t])@.len() == 64,
            forall|t: int, p: int|
                0 <= t < 61 && 0 <= p < 64 ==> bits_of(
                    #[trigger] final(self).movable_dir@[t]@[p],
                ).len() == 9,
            final(self).slot_ok(old(self).turns as int, old(self).snap()),
    {
        let ghost g = self.board@;
        let c = self.current_color;
        let mut slot_dirs: Vec<BitVec> = Vec::new();
        let mut slot_pts: Vec<Point> = Vec::new();
        let mut x: usize = 1;
        while x <= 8
            invariant
                grid_ok(g),
                c.is_player(),
                g == self.board@,
                c == self.current_color,
                1 <= x <= 9,
                slot_dirs@.len() == (x - 1) * 8,
                forall|a: int, b: int|
                    playable(a, b) && a < x ==> bits_of(slot_dirs@[pidx(a, b)])
                        == #[trigger] cell_dirs(g, c, a, b),
                forall|p: int|
                    0 <= p < slot_dirs@.len() ==> bits_of(#[trigger] slot_dirs@[p]).len() == 9,
                slot_pts@ == legal_grid(g, c, x - 1),
            decreases 9 - x,
        {
            let mut y: usize = 1;
            while y <= 8
                invariant
                    grid_ok(g),
                    c.is_player(),
                    g == self.board@,
                    c == self.current_color,
                    1 <= x <= 8,
                    1 <= y <= 9,
                    slot_dirs@.len() == (x - 1) * 8 + (y - 1),
                    forall|a: int, b: int|
                        playable(a, b) && (a < x || (a == x && b < y)) ==> bits_of(
                            slot_dirs@[pidx(a, b)],
                        ) == #[trigger] cell_dirs(g, c, a, b),
                    forall|p: int|
                        0 <= p < slot_dirs@.len() ==> bits_of(#[trigger] slot_dirs@[p]).len() == 9,
                    slot_pts@ == legal_grid(g, c, x - 1) + legal_row(g, c, x as int, y - 1),
                decreases 9 - y,
            {
                let bv = compute_dirs(&self.board, c, x, y);
                let none = bits_none(&bv);
                proof {
                    if !none {
                        let i = choose|i: int| 0 <= i < 9 && bits_of(bv)[i];
                        assert(cell_dirs(g, c, x as int, y as int)[i]);
                        assert(movable(g, c, x as int, y as int));
                    } else {
                        if movable(g, c, x as int, y as int) {
                            let d = choose|d: int|
                                0 <= d < 8 && #[trigger] dir_legal(g, c, x as int, y as int, d);
                            assert(cell_dirs(g, c, x as int, y as int)[d]);
                            assert(bits_of(bv)[d]);
                        }
                    }
                }
                if !none {
                    slot_pts.push(Point::new(x, y));
                }
                slot_dirs.push(bv);
                proof {
                    assert(legal_row(g, c, x as int, y as int) == legal_row(g, c, x as int, y - 1)
                        + if movable(g, c, x as int, y as int) {
                        seq![Point { x, y }]
                    } else {
                        Seq::<Point>::empty()
                    });
                    assert(slot_pts@ =~= legal_grid(g, c, x - 1) + legal_row(g, c, x as int, y as int));
                    assert forall|a: int, b: int|
                        playable(a, b) && (a < x || (a == x && b < y + 1)) implies bits_of(
                        slot_dirs@[pidx(a, b)],
                    ) == #[trigger] cell_dirs(g, c, a, b) by {
                        if a == x && b == y {
                            assert(pidx(a, b) == slot_dirs@.len() - 1);
                        } else {
                            assert(pidx(a, b) < slot_dirs@.len() - 1);
                        }
                    }
                }
                y = y + 1;
            }
            proof {
                assert(legal_grid(g, c, x as int) == legal_grid(g, c, x - 1) + legal_row(
                    g,
                    c,
                    x as int,
                    8,
                ));
            }
            x = x + 1;
        }
        proof {
            assert(slot_pts@ == legal_seq(g, c));
        }
        let t = self.turns;
        self.movable_dir[t] = slot_dirs;
        self.movable_positions[t] = slot_pts;
    }

    /// A fresh board: the four-disc opening, Black to act, turn 0.
    pub fn new() -> (r: Board)
        ensures
            r.wf(),
            r.turn() == 0,
            r.color() == Color::Black,
            r.history().len() == 0,
            forall|x: int, y: int|
                on_grid(x, y) ==> at(r.grid(), x, y) == #[trigger] initial_color(x, y),
            count_of(r.grid(), Color::Black) == 2,
            count_of(r.grid(), Color::White) == 2,
            count_of(r.grid(), Color::Empty) == 60,
    {
        let mut board: Vec<Color> = Vec::new();
        let mut i: usize = 0;
        while i < 100
            invariant
                board@.len() == i,
                i <= 100,
                forall|j: int| 0 <= j < i ==> board@[j] == Color::Empty,
            decreases 100 - i,
        {
            board.push(Color::Empty);
            i = i + 1;
        }
        let mut y: usize = 0;
        while y < 10
            invariant
                board@.len() == 100,
                y <= 10,
                forall|a: int, b: int|
                    on_grid(a, b) ==> #[trigger] at(board@, a, b) == (if (a == 0 || a == 9) && b
                        < y {
                        Color::Wall
                    } else {
                        Color::Empty
                    }),
            decreases 10 - y,
        {
            let ghost prev = board@;
            board[y] = Color::Wall;
            board[90 + y] = Color::Wall;
            proof {
                assert(board@ =~= prev.update(idx(0, y as int), Color::Wall).update(
                    idx(9, y as int),
                    Color::Wall,
                ));
                assert forall|a: int, b: int|
                    on_grid(a, b) implies #[trigger] at(board@, a, b) == (if (a == 0 || a == 9) && b
                    < y + 1 {
                    Color::Wall
                } else {
                    Color::Empty
                }) by {
                    assert(at(prev, a, b) == (if (a == 0 || a == 9) && b < y {
                        Color::Wall
                    } else {
                        Color::Empty
                    }));
                    if !(a == 0 && b == y as int) {
                        crate::grid::lemma_idx_injective(a, b, 0, y as int);
                    }
                    if !(a == 9 && b == y as int) {
                        crate::grid::lemma_idx_injective(a, b, 9, y as int);
                    }
                }
            }
            y = y + 1;
        }
        let mut x: usize = 0;
        while x < 10
            invariant
                board@.len() == 100,
                x <= 10,
                forall|a: int, b: int|
                    on_grid(a, b) ==> #[trigger] at(board@, a, b) == (if a == 0 || a == 9 || ((b
                        == 0 || b == 9) && a < x) {
                        Color::Wall
                    } else {
                        Color::Empty
                    }),
            decreases 10 - x,
        {
            let ghost prev = board@;
            board[x * 10] = Color::Wall;
            board[x * 10 + 9] = Color::Wall;
            proof {
                assert(board@ =~= prev.update(idx(x as int, 0), Color::Wall).update(
                    idx(x as int, 9),
                    Color::Wall,
                ));
                assert forall|a: int, b: int|
                    on_grid(a, b) implies #[trigger] at(board@, a, b) == (if a == 0 || a == 9 || ((b
                    == 0 || b == 9) && a < x + 1) {
                    Color::Wall
                } else {
                    Color::Empty
                }) by {
                    assert(at(prev, a, b) == (if a == 0 || a == 9 || ((b == 0 || b == 9) && a
                        < x) {
                        Color::Wall
                    } else {
                        Color::Empty
                    }));
                    if !(a == x as int && b == 0) {
                        crate::grid::lemma_idx_injective(a, b, x as int, 0);
                    }
                    if !(a == x as int && b == 9) {
                        crate::grid::lemma_idx_injective(a, b, x as int, 9);
                    }
                }
            }
            x = x + 1;
        }
        proof {
            lemma_count_uniform_empty(board@);
        }
        let ghost g_empty = board@;
        board[44] = Color::White;
        board[55] = Color::White;
        board[45] = Color::Black;
        board[54] = Color::Black;
        proof {
            let g1 = g_empty.update(idx(4, 4), Color::White);
            let g2 = g1.update(idx(5, 5), Color::White);
            let g3 = g2.update(idx(4, 5), Color::Black);
            let g4 = g3.update(idx(5, 4), Color::Black);
            assert(at(g_empty, 4, 4) == Color::Empty);
            assert(at(g_empty, 5, 5) == Color::Empty);
            assert(at(g_empty, 4, 5) == Color::Empty);
            assert(at(g_empty, 5, 4) == Color::Empty);
            assert(at(g1, 5, 5) == Color::Empty);
            assert(at(g2, 4, 5) == Color::Empty);
            assert(at(g3, 5, 4) == Color::Empty);
            lemma_count_update(g_empty, Color::White, 4, 4, Color::White);
            lemma_count_update(g_empty, Color::Black, 4, 4, Color::White);
            lemma_count_update(g_empty, Color::Empty, 4, 4, Color::White);
            lemma_count_update(g1, Color::White, 5, 5, Color::White);
            lemma_count_update(g1, Color::Black, 5, 5, Color::White);
            lemma_count_update(g1, Color::Empty, 5, 5, Color::White);
            lemma_count_update(g2, Color::White, 4, 5, Color::Black);
            lemma_count_update(g2, Color::Black, 4, 5, Color::Black);
            lemma_count_update(g2, Color::Empty, 4, 5, Color::Black);
            lemma_count_update(g3, Color::White, 5, 4, Color::Black);
            lemma_count_update(g3, Color::Black, 5, 4, Color::Black);
            lemma_count_update(g3, Color::Empty, 5, 4, Color::Black);
            assert(board@ =~= g4);
        }
        let mut dirs: Vec<Vec<BitVec>> = Vec::new();
        let mut t: usize = 0;
        while t < 61
            invariant
                dirs@.len() == t,
                t <= 61,
                forall|j: int| 0 <= j < t ==> (#[trigger] dirs@[j])@.len() == 64,
                forall|j: int, p: int|
                    0 <= j < t && 0 <= p < 64 ==> bits_of(#[trigger] dirs@[j]@[p]).len() == 9,
            decreases 61 - t,
        {
            let mut slot: Vec<BitVec> = Vec::new();
            let mut p: usize = 0;
            while p < 64
                invariant
                    slot@.len() == p,
                    p <= 64,
                    forall|q: int| 0 <= q < p ==> bits_of(#[trigger] slot@[q]).len() == 9,
                decreases 64 - p,
            {
                slot.push(bits_new(9, false));
                p = p + 1;
            }
            dirs.push(slot);
            t = t + 1;
        }
        let mut positions: Vec<Vec<Point>> = Vec::new();
        let mut t2: usize = 0;
        while t2 < 61
            invariant
                positions@.len() == t2,
                t2 <= 61,
            decreases 61 - t2,
        {
            positions.push(Vec::new());
            t2 = t2 + 1;
        }
        let discs: ColorStorage<u32> = ColorStorage::new(2, 60, 2);
        let mut b = Board {
            board,
            update_log: Vec::new(),
            movable_dir: dirs,
            movable_positions: positions,
            turns: 0,
            discs,
            current_color: Color::Black,
            hist: Ghost(Seq::empty()),
        };
        proof {
            assert forall|x: int, y: int|
                on_grid(x, y) implies at(b.board@, x, y) == #[trigger] initial_color(x, y) by {
                assert(at(g_empty, x, y) == (if x == 0 || x == 9 || y == 0 || y == 9 {
                    Color::Wall
                } else {
                    Color::Empty
                }));
                if !(x == 4 && y == 4) {
                    crate::grid::lemma_idx_injective(x, y, 4, 4);
                }
                if !(x == 5 && y == 5) {
                    crate::grid::lemma_idx_injective(x, y, 5, 5);
                }
                if !(x == 4 && y == 5) {
                    crate::grid::lemma_idx_injective(x, y, 4, 5);
                }
                if !(x == 5 && y == 4) {
                    crate::grid::lemma_idx_injective(x, y, 5, 4);
                }
            }
            assert forall|x: int, y: int|
                on_grid(x, y) && !playable(x, y) implies #[trigger] at(b.board@, x, y)
                == Color::Wall by {
                assert(at(b.board@, x, y) == initial_color(x, y));
            }
            assert forall|x: int, y: int| playable(x, y) implies #[trigger] at(b.board@, x, y)
                != Color::Wall by {
                assert(at(b.board@, x, y) == initial_color(x, y));
            }
        }
        b.init_movable();
        b
    }

    /// Places the acting color's disc at `point`, flips every captured run
    /// (directions in index order, cells in walking order), appends one
    /// update-log entry, and moves the disc counters with the flips.
    #[verifier::loop_isolation(false)]
    #[verifier::rlimit(100)]
    fn flip_discs(&mut self, point: &Point)
        requires
            old(self).wf(),
            playable(point.x as int, point.y as int),
            movable(old(self).board@, old(self).current_color, point.x as int, point.y as int),
        ensures
            final(self).turns == old(self).turns,
            final(self).current_color == old(self).current_color,
            final(self).movable_dir == old(self).movable_dir,
            final(self).movable_positions == old(self).movable_positions,
            final(self).hist == old(self).hist,
            final(self).board@ == move_grid(
                old(self).board@,
                old(self).current_color,
                point.x as int,
                point.y as int,
            ),
            grid_ok(final(self).board@),
            final(self).update_log@.len() == old(self).update_log@.len() + 1,
            forall|i: int|
                0 <= i < old(self).update_log@.len() ==> final(self).update_log@[i] == old(
                    self,
                ).update_log@[i],
            ({
                let e = final(self).update_log@.last()@;
                let g0 = old(self).board@;
                let c = old(self).current_color;
                &&& e == move_entry(g0, c, point.x as int, point.y as int)
                &&& e.len() >= 2
                &&& forall|m: int|
                    0 <= m < e.len() ==> playable(
                        (#[trigger] e[m]).point.x as int,
                        e[m].point.y as int,
                    )
                &&& undo_grid(final(self).board@, e, c) == g0
                &&& count_of(final(self).board@, c) == count_of(g0, c) + e.len()
                &&& count_of(final(self).board@, c.spec_opponent()) == count_of(
                    g0,
                    c.spec_opponent(),
                ) - (e.len() - 1)
                &&& count_of(final(self).board@, Color::Empty) == count_of(g0, Color::Empty) - 1
            }),
            final(self).counter(Color::Black) == count_of(final(self).board@, Color::Black),
            final(self).counter(Color::White) == count_of(final(self).board@, Color::White),
            final(self).counter(Color::Empty) == count_of(final(self).board@, Color::Empty),
    {
        let ghost g0 = self.board@;
        let c = self.current_color;
        let px = point.x;
        let py = point.y;
        let ghost xi = px as int;
        let ghost yi = py as int;
        let ghost oc = c.spec_opponent();
        // walk each direction before touching the grid
        let mut runs: Vec<usize> = Vec::new();
        let mut d: usize = 0;
        while d < 8
            invariant
                d <= 8,
                runs@.len() == d,
                forall|j: int| 0 <= j < d ==> (#[trigger] runs@[j]) <= 8,
                forall|j: int|
                    0 <= j < d ==> ((#[trigger] runs@[j]) == 0 ==> !dir_legal(g0, c, xi, yi, j)),
                forall|j: int|
                    0 <= j < d ==> ((#[trigger] runs@[j]) >= 1 ==> run_shape(
                        g0,
                        c,
                        xi,
                        yi,
                        j,
                        runs@[j] as int,
                    )),
            decreases 8 - d,
        {
            let n = scan_dir(&self.board, c, px, py, d);
            runs.push(n);
            d = d + 1;
        }
        proof {
            assert(runs_ok(g0, c, xi, yi, runs@));
            assert(at(g0, xi, yi) == Color::Empty);
        }
        // place the disc
        self.board[px * 10 + py] = c;
        let mut update: Vec<Disc> = Vec::new();
        update.push(Disc::new(Point::new(px, py), c));
        proof {
            assert(self.board@ =~= g0.update(idx(xi, yi), c));
            assert forall|i: int|
                0 <= i < 100 implies #[trigger] self.board@[i] == (if i == idx(xi, yi)
                || partial_flipped(xi, yi, runs@, 0, 0, i) {
                c
            } else {
                g0[i]
            }) by {
                if partial_flipped(xi, yi, runs@, 0, 0, i) {
                    let (j, k2) = choose|j: int, k2: int|
                        #![trigger ray_idx(xi, yi, j, k2)]
                        0 <= j <= 0 && j < 8 && 1 <= k2 && (if j < 0 {
                            k2 <= runs@[j]
                        } else {
                            k2 <= 0
                        }) && i == ray_idx(xi, yi, j, k2);
                    assert(false);
                }
            }
            assert(undo_grid_upto(self.board@, update@, oc, 1) =~= g0);
            lemma_count_update(g0, Color::Black, xi, yi, c);
            lemma_count_update(g0, Color::White, xi, yi, c);
            lemma_count_update(g0, Color::Empty, xi, yi, c);
            assert(update@ =~= seq![Disc { point: Point { x: xi as usize, y: yi as usize }, color: c }]
                + rays_upto_runs(c, xi, yi, runs@, 0) + ray_discs(c, xi, yi, 0, 0));
            assert(flip_inv(self.board@, g0, c, xi, yi, runs@, update@, 0, 0));
        }
        // flip the runs, direction by direction
        let mut d2: usize = 0;
        while d2 < 8
            invariant
                d2 <= 8,
                flip_inv(self.board@, g0, c, xi, yi, runs@, update@, d2 as int, 0),
                self.update_log == old(self).update_log,
                self.movable_dir == old(self).movable_dir,
                self.movable_positions == old(self).movable_positions,
                self.hist == old(self).hist,
                self.turns == old(self).turns,
                self.discs == old(self).discs,
                self.current_color == c,
            decreases 8 - d2,
        {
            let n = runs[d2];
            if n > 0 {
                proof {
                    assert(run_shape(g0, c, xi, yi, d2 as int, n as int));
                }
                let (ox, oy) = dir_offset(d2);
                let mut cx = px;
                let mut cy = py;
                let mut k: usize = 0;
                while k < n
                    invariant
                        k <= n,
                        cx as int == xi + k as int * dx(d2 as int),
                        cy as int == yi + k as int * dy(d2 as int),
                        playable(cx as int, cy as int),
                        flip_inv(self.board@, g0, c, xi, yi, runs@, update@, d2 as int, k as int),
                        self.update_log == old(self).update_log,
                        self.movable_dir == old(self).movable_dir,
                        self.movable_positions == old(self).movable_positions,
                        self.hist == old(self).hist,
                        self.turns == old(self).turns,
                        self.discs == old(self).discs,
                        self.current_color == c,
                    decreases n - k,
                {
                    let ghost old_cx = cx as int;
                    let ghost old_cy = cy as int;
                    let ghost old_k = k as int;
                    k = k + 1;
                    cx = cx + ox - 1;
                    cy = cy + oy - 1;
                    proof {
                        assert(cx as int == xi + (old_k + 1) * dx(d2 as int)) by (nonlinear_arith)
                            requires
                                cx as int == old_cx + dx(d2 as int),
                                old_cx == xi + old_k * dx(d2 as int),
                        ;
                        assert(cy as int == yi + (old_k + 1) * dy(d2 as int)) by (nonlinear_arith)
                            requires
                                cy as int == old_cy + dy(d2 as int),
                                old_cy == yi + old_k * dy(d2 as int),
                        ;
                        lemma_run_cells_playable(g0, c, xi, yi, d2 as int, n as int, k as int);
                    }
                    let ghost prev_bd = self.board@;
                    let ghost prev_up = update@;
                    self.board[cx * 10 + cy] = c;
                    update.push(Disc::new(Point::new(cx, cy), c));
                    proof {
                        assert(self.board@ =~= prev_bd.update(
                            ray_idx(xi, yi, d2 as int, k as int),
                            c,
                        ));
                        lemma_flip_step(
                            prev_bd,
                            self.board@,
                            g0,
                            c,
                            xi,
                            yi,
                            runs@,
                            prev_up,
                            update@,
                            d2 as int,
                            k as int,
                            n as int,
                            update@.last(),
                        );
                    }
                }
                proof {
                    lemma_flip_next_dir(self.board@, g0, c, xi, yi, runs@, update@, d2 as int);
                }
            } else {
                proof {
                    lemma_flip_next_dir(self.board@, g0, c, xi, yi, runs@, update@, d2 as int);
                }
            }
            d2 = d2 + 1;
        }
        proof {
            lemma_flip_finish(self.board@, g0, c, xi, yi, runs@, update@);
        }
        // book-keeping: counters and the update log
        let diff = update.len();
        let df: u32 = diff as u32;
        let cur = *self.discs.get(&c);
        proof {
            assert(cur as int + df as int == count_of(self.board@, c));
        }
        self.discs.set(&c, cur + df);
        let o = c.opponent();
        let curo = *self.discs.get(&o);
        proof {
            assert(curo as int - (df as int - 1) == count_of(self.board@, oc));
        }
        self.discs.set(&o, curo - (df - 1));
        let cure = *self.discs.get(&Color::Empty);
        proof {
            lemma_count_pos(g0, Color::Empty, xi, yi);
        }
        self.discs.set(&Color::Empty, cure - 1);
        self.update_log.push(update);
        proof {
            assert(self.update_log@.last()@ == update@);
            assert(undo_grid(self.board@, update@, c) == undo_grid_upto(
                self.board@,
                update@,
                oc,
                update@.len() as int,
            ));
        }
    }

    /// Attempts a placement for the side to act. Returns false, mutating
    /// nothing, when the point is out of range or its cached direction set
    /// is empty; otherwise flips the captured runs, advances the turn, hands
    /// the move to the opponent and recomputes the cache.
    pub fn move_disc(&mut self, point: &Point) -> (r: bool)
        requires
            old(self).wf(),
        ensures
            final(self).wf(),
            r == can_play(old(self).snap(), point.x as int, point.y as int),
            !r ==> *final(self) == *old(self),
            r ==> final(self).snap() == move_snap(
                old(self).snap(),
                point.x as int,
                point.y as int,
            ),
            r ==> final(self).history() == old(self).history().push(old(self).snap()),
            r ==> ({
                let actor = old(self).color();
                let flips = old(self).counter(actor.spec_opponent()) - final(self).counter(
                    actor.spec_opponent(),
                );
                &&& 1 <= flips
                &&& final(self).counter(actor) == old(self).counter(actor) + flips + 1
                &&& final(self).counter(Color::Empty) == old(self).counter(Color::Empty) - 1
            }),
    {
        if point.x < 1 || point.x > 8 {
            return false;
        }
        if point.y < 1 || point.y > 8 {
            return false;
        }
        let ghost xi = point.x as int;
        let ghost yi = point.y as int;
        let t = self.turns;
        let pi = (point.x - 1) * 8 + (point.y - 1);
        proof {
            assert(pi as int == pidx(xi, yi));
            assert(0 <= pidx(xi, yi) < 64);
            assert(bits_of(self.movable_dir@[t as int]@[pi as int]) == cell_dirs(
                self.board@,
                self.current_color,
                xi,
                yi,
            ));
        }
        let none = bits_none(&self.movable_dir[t][pi]);
        if none {
            proof {
                let g = self.board@;
                let c = self.current_color;
                if movable(g, c, xi, yi) {
                    let d0 = choose|d0: int| 0 <= d0 < 8 && #[trigger] dir_legal(g, c, xi, yi, d0);
                    assert(cell_dirs(g, c, xi, yi)[d0]);
                }
            }
            return false;
        }
        proof {
            let g = self.board@;
            let c = self.current_color;
            let i = choose|i: int|
                0 <= i < bits_of(self.movable_dir@[t as int]@[pi as int]).len() && bits_of(
                    self.movable_dir@[t as int]@[pi as int],
                )[i];
            assert(cell_dirs(g, c, xi, yi)[i]);
            assert(movable(g, c, xi, yi));
            // a playable empty cell remains, so fewer than sixty moves were
            // played
            lemma_count_pos(g, Color::Empty, xi, yi);
        }
        let ghost pre = self.snap();
        let ghost h0 = self.hist@;
        let ghost old_log = self.update_log@;
        self.flip_discs(point);
        self.turns = self.turns + 1;
        self.current_color = self.current_color.opponent();
        self.init_movable();
        self.hist = Ghost(h0.push(pre));
        proof {
            let g0 = pre.grid;
            let c0 = pre.color;
            let gnew = self.board@;
            let enew = self.update_log@.last();
            let ll = old_log.len() as int;
            assert(self.update_log@ =~= old_log.push(enew));
            lemma_moves_in_push(old_log, enew);
            assert(self.turns as int == moves_in(self.update_log@));
            assert(self.snap() == move_snap(pre, xi, yi));
            assert(self.history() == h0.push(pre));
            assert(self.slot_ok(self.turns as int, self.snap()));
            // the counter deltas of the move: the actor gains the flips and
            // the placed disc, the opponent loses the flips, one cell fills
            assert(self.counter(c0) == old(self).counter(c0) + (enew@.len() - 1) + 1);
            assert(self.counter(c0.spec_opponent()) == old(self).counter(c0.spec_opponent()) - (
            enew@.len() - 1));
            assert(self.counter(Color::Empty) == old(self).counter(Color::Empty) - 1);
            assert(enew@.len() - 1 >= 1);
            assert forall|i: int|
                0 <= i < self.update_log@.len() implies #[trigger] self.entry_inv(i) by {
                if i < ll {
                    assert(old(self).entry_inv(i));
                    assert(self.hist@[i] == h0[i]);
                    assert(self.update_log@[i] == old_log[i]);
                    assert(self.update_log@.take(i) =~= old_log.take(i));
                    if i + 1 == ll {
                        assert(self.entry_post(i) == pre);
                        assert(old(self).entry_post(i) == pre);
                    } else {
                        assert(self.entry_post(i) == old(self).entry_post(i));
                    }
                    if old_log[i]@.len() > 0 {
                        let ti = h0[i].turns;
                        lemma_moves_in_take_succ(old_log, i);
                        lemma_moves_in_take_le(old_log, i + 1);
                        assert(ti < old(self).turns as int);
                        assert(self.movable_dir@[ti] == old(self).movable_dir@[ti]);
                        assert(self.movable_positions@[ti] == old(self).movable_positions@[ti]);
                        assert(old(self).slot_ok(ti, h0[i]));
                        assert forall|a: int, b: int|
                            playable(a, b) implies bits_of(self.movable_dir@[ti]@[pidx(a, b)])
                            == #[trigger] cell_dirs(h0[i].grid, h0[i].color, a, b) by {
                            assert(bits_of(old(self).movable_dir@[ti]@[pidx(a, b)]) == cell_dirs(
                                h0[i].grid,
                                h0[i].color,
                                a,
                                b,
                            ));
                        }
                        assert(self.slot_ok(ti, h0[i]));
                    }
                } else {
                    assert(i == ll);
                    assert(self.hist@[ll] == pre);
                    assert(self.entry_post(ll) == self.snap());
                    assert(self.update_log@.take(ll) =~= old_log);
                    assert(pre.turns == moves_in(old_log));
                    assert(enew@.len() > 0);
                    assert(enew@ == move_entry(g0, c0, xi, yi));
                    assert(enew@[0] == (Disc {
                        point: Point { x: xi as usize, y: yi as usize },
                        color: c0,
                    }));
                    assert(undo_grid(gnew, enew@, c0) == g0);
                    let ti = pre.turns;
                    assert(ti == old(self).turns as int);
                    assert(self.movable_dir@[ti] == old(self).movable_dir@[ti]);
                    assert(self.movable_positions@[ti] == old(self).movable_positions@[ti]);
                    assert(old(self).slot_ok(ti, pre));
                    assert forall|a: int, b: int|
                        playable(a, b) implies bits_of(self.movable_dir@[ti]@[pidx(a, b)])
                        == #[trigger] cell_dirs(pre.grid, pre.color, a, b) by {
                        assert(bits_of(old(self).movable_dir@[ti]@[pidx(a, b)]) == cell_dirs(
                            pre.grid,
                            pre.color,
                            a,
                            b,
                        ));
                    }
                    assert(self.slot_ok(ti, pre));
                    assert(self.entry_inv(ll));
                }
            }
            assert(self.wf());
        }
        true
    }

    /// True when the game has ended: sixty moves were played, or the side
    /// to act has no move and a fresh scan shows the opponent has none
    /// either.
    #[verifier::loop_isolation(false)]
    pub fn is_game_over(&self) -> (r: bool)
        requires
            self.wf(),
        ensures
            r == game_over_at(self.snap()),
    {
        if self.turns == 60 {
            return true;
        }
        if self.movable_positions[self.turns].len() != 0 {
            proof {
                lemma_legal_seq_empty(self.board@, self.current_color);
            }
            return false;
        }
        proof {
            lemma_legal_seq_empty(self.board@, self.current_color);
            assert(no_moves(self.board@, self.current_color));
        }
        let opp = self.current_color.opponent();
        let mut x: usize = 1;
        while x <= 8
            invariant
                1 <= x <= 9,
                forall|a: int, b: int|
                    playable(a, b) && a < x ==> !#[trigger] movable(self.board@, opp, a, b),
            decreases 9 - x,
        {
            let mut y: usize = 1;
            while y <= 8
                invariant
                    1 <= x <= 8,
                    1 <= y <= 9,
                    forall|a: int, b: int|
                        playable(a, b) && (a < x || (a == x && b < y)) ==> !#[trigger] movable(
                            self.board@,
                            opp,
                            a,
                            b,
                        ),
                decreases 9 - y,
            {
                let bv = compute_dirs(&self.board, opp, x, y);
                let none = bits_none(&bv);
                if !none {
                    proof {
                        let i = choose|i: int| 0 <= i < 9 && bits_of(bv)[i];
                        assert(cell_dirs(self.board@, opp, x as int, y as int)[i]);
                        assert(movable(self.board@, opp, x as int, y as int));
                    }
                    return false;
                }
                proof {
                    if movable(self.board@, opp, x as int, y as int) {
                        let d0 = choose|d0: int|
                            0 <= d0 < 8 && #[trigger] dir_legal(
                                self.board@,
                                opp,
                                x as int,
                                y as int,
                                d0,
                            );
                        assert(cell_dirs(self.board@, opp, x as int, y as int)[d0]);
                    }
                }
                y = y + 1;
            }
            x = x + 1;
        }
        proof {
            assert(no_moves(self.board@, opp));
        }
        true
    }

    /// Attempts a forced pass for the side to act. Returns false, mutating
    /// nothing, when the actor still has a move or the game is over; else
    /// hands the turn to the opponent at the same turn index, logs an empty
    /// entry and recomputes the cache.
    pub fn pass(&mut self) -> (r: bool)
        requires
            old(self).wf(),
        ensures
            final(self).wf(),
            r == can_pass(old(self).snap()),
            !r ==> *final(self) == *old(self),
            r ==> final(self).snap() == pass_snap(old(self).snap()),
            r ==> final(self).history() == old(self).history().push(old(self).snap()),
    {
        if self.movable_positions[self.turns].len() != 0 {
            proof {
                lemma_legal_seq_empty(self.board@, self.current_color);
            }
            return false;
        }
        if self.is_game_over() {
            return false;
        }
        proof {
            lemma_legal_seq_empty(self.board@, self.current_color);
        }
        let ghost pre = self.snap();
        let ghost h0 = self.hist@;
        let ghost old_log = self.update_log@;
        self.current_color = self.current_color.opponent();
        self.update_log.push(Vec::new());
        self.init_movable();
        self.hist = Ghost(h0.push(pre));
        proof {
            let enew = self.update_log@.last();
            let ll = old_log.len() as int;
            assert(self.update_log@ =~= old_log.push(enew));
            lemma_moves_in_push(old_log, enew);
            assert(self.turns as int == moves_in(self.update_log@));
            assert(self.snap() == pass_snap(pre));
            assert(self.history() == h0.push(pre));
            assert(self.slot_ok(self.turns as int, self.snap()));
            assert forall|i: int|
                0 <= i < self.update_log@.len() implies #[trigger] self.entry_inv(i) by {
                if i < ll {
                    assert(old(self).entry_inv(i));
                    assert(self.hist@[i] == h0[i]);
                    assert(self.update_log@[i] == old_log[i]);
                    assert(self.update_log@.take(i) =~= old_log.take(i));
                    if i + 1 == ll {
                        assert(self.entry_post(i) == pre);
                        assert(old(self).entry_post(i) == pre);
                    } else {
                        assert(self.entry_post(i) == old(self).entry_post(i));
                    }
                    if old_log[i]@.len() > 0 {
                        let ti = h0[i].turns;
                        lemma_moves_in_take_succ(old_log, i);
                        lemma_moves_in_take_le(old_log, i + 1);
                        assert(ti < old(self).turns as int);
                        assert(self.movable_dir@[ti] == old(self).movable_dir@[ti]);
                        assert(self.movable_positions@[ti] == old(self).movable_positions@[ti]);
                        assert(old(self).slot_ok(ti, h0[i]));
                        assert forall|a: int, b: int|
                            playable(a, b) implies bits_of(self.movable_dir@[ti]@[pidx(a, b)])
                            == #[trigger] cell_dirs(h0[i].grid, h0[i].color, a, b) by {
                            assert(bits_of(old(self).movable_dir@[ti]@[pidx(a, b)]) == cell_dirs(
                                h0[i].grid,
                                h0[i].color,
                                a,
                                b,
                            ));
                        }
                        assert(self.slot_ok(ti, h0[i]));
                    }
                } else {
                    assert(i == ll);
                    assert(self.hist@[ll] == pre);
                    assert(self.entry_post(ll) == self.snap());
                    assert(self.update_log@.take(ll) =~= old_log);
                    assert(enew@.len() == 0);
                    assert(self.entry_inv(ll));
                }
            }
            assert(self.wf());
        }
        true
    }

    /// Reverts the most recent action. Returns false with no history;
    /// otherwise pops the last update-log entry, restores the previous
    /// actor, and for a move entry also restores the flipped cells, the
    /// counters and the turn counter.
    #[verifier::loop_isolation(false)]
    #[verifier::rlimit(100)]
    pub fn undo(&mut self) -> (r: bool)
        requires
            old(self).wf(),
        ensures
            final(self).wf(),
            r == (old(self).history().len() > 0),
            !r ==> *final(self) == *old(self),
            r ==> final(self).snap() == old(self).history().last(),
            r ==> final(self).history() == old(self).history().drop_last(),
    {
        if self.update_log.len() == 0 {
            return false;
        }
        let ghost h0 = self.hist@;
        let ghost old_log = self.update_log@;
        let ghost ll = old_log.len() - 1;
        let ghost pre = h0.last();
        let ghost cur = self.snap();
        proof {
            assert(old(self).entry_inv(ll));
            assert(old(self).entry_post(ll) == cur);
            assert(h0[ll] == pre);
        }
        self.current_color = self.current_color.opponent();
        let update = self.update_log.pop().unwrap();
        self.hist = Ghost(h0.drop_last());
        if update.len() == 0 {
            // a pass is reverted: the passer had no move, so an all-clear
            // cache is exact for the restored actor
            let t = self.turns;
            let mut slot: Vec<BitVec> = Vec::new();
            let mut p: usize = 0;
            while p < 64
                invariant
                    slot@.len() == p,
                    p <= 64,
                    forall|q: int|
                        0 <= q < p ==> bits_of(#[trigger] slot@[q]) == Seq::new(9, |i: int| false),
                decreases 64 - p,
            {
                slot.push(bits_new(9, false));
                p = p + 1;
            }
            self.movable_dir[t] = slot;
            let empty_pts: Vec<Point> = Vec::new();
            self.movable_positions[t] = empty_pts;
            proof {
                assert(no_moves(pre.grid, pre.color));
                assert(self.snap() == pre);
                assert(self.history() =~= h0.drop_last());
                assert(self.update_log@ =~= old_log.drop_last());
                assert(moves_in(old_log) == moves_in(self.update_log@));
                // the cleared slot is exactly the passer's direction sets
                assert forall|a: int, b: int|
                    playable(a, b) implies bits_of(self.movable_dir@[t as int]@[pidx(a, b)])
                    == #[trigger] cell_dirs(pre.grid, pre.color, a, b) by {
                    assert(!movable(pre.grid, pre.color, a, b));
                    assert forall|d0: int| 0 <= d0 < 9 implies !cell_dirs(
                        pre.grid,
                        pre.color,
                        a,
                        b,
                    )[d0] by {
                        if 0 <= d0 < 8 && at(pre.grid, a, b) == Color::Empty && dir_legal(
                            pre.grid,
                            pre.color,
                            a,
                            b,
                            d0,
                        ) {
                            assert(movable(pre.grid, pre.color, a, b));
                        }
                    }
                    assert(bits_of(self.movable_dir@[t as int]@[pidx(a, b)]) =~= cell_dirs(
                        pre.grid,
                        pre.color,
                        a,
                        b,
                    ));
                }
                lemma_legal_seq_empty(pre.grid, pre.color);
                assert(self.movable_positions@[t as int]@ =~= legal_seq(pre.grid, pre.color));
                assert(self.slot_ok(t as int, pre));
                assert forall|i: int|
                    0 <= i < self.update_log@.len() implies #[trigger] self.entry_inv(i) by {
                    assert(old(self).entry_inv(i));
                    assert(self.hist@[i] == h0[i]);
                    assert(self.update_log@[i] == old_log[i]);
                    assert(self.update_log@.take(i) =~= old_log.take(i));
                    if i + 1 == ll {
                        assert(self.entry_post(i) == self.snap());
                        assert(old(self).entry_post(i) == h0[ll]);
                    } else {
                        assert(self.entry_post(i) == old(self).entry_post(i));
                    }
                    if old_log[i]@.len() > 0 {
                        let ti = h0[i].turns;
                        lemma_moves_in_take_succ(old_log, i);
                        lemma_moves_in_take_le(old_log, i + 1);
                        lemma_moves_in_take_succ(old_log, ll);
                        lemma_moves_in_take_all(old_log);
                        assert(ti < self.turns as int);
                        assert(self.movable_dir@[ti] == old(self).movable_dir@[ti]);
                        assert(self.movable_positions@[ti] == old(self).movable_positions@[ti]);
                        assert(old(self).slot_ok(ti, h0[i]));
                        assert forall|a: int, b: int|
                            playable(a, b) implies bits_of(self.movable_dir@[ti]@[pidx(a, b)])
                            == #[trigger] cell_dirs(h0[i].grid, h0[i].color, a, b) by {
                            assert(bits_of(old(self).movable_dir@[ti]@[pidx(a, b)]) == cell_dirs(
                                h0[i].grid,
                                h0[i].color,
                                a,
                                b,
                            ));
                        }
                        assert(self.slot_ok(ti, h0[i]));
                    }
                }
                assert(self.wf());
            }
            return true;
        }
        // a move is reverted: clear the placed disc, give the flipped cells
        // back to the opponent of the mover, and step the counters back
        let ghost gpost = self.board@;
        let ghost e = update@;
        let ghost mover = self.current_color;
        let ghost oc = mover.spec_opponent();
        proof {
            assert(mover == pre.color);
            assert(pre.grid == undo_grid(gpost, e, pre.color));
            assert(e.len() >= 1);
            lemma_moves_in_take_succ(old_log, ll);
            lemma_moves_in_take_all(old_log);
            assert(self.turns as int >= 1);
        }
        self.turns = self.turns - 1;
        let first = update[0];
        proof {
            assert(playable(e[0].point.x as int, e[0].point.y as int));
        }
        self.board[first.point.x * 10 + first.point.y] = Color::Empty;
        proof {
            assert(self.board@ =~= undo_grid_upto(gpost, e, oc, 1));
        }
        let o2 = self.current_color.opponent();
        let mut i: usize = 1;
        while i < update.len()
            invariant
                1 <= i <= e.len(),
                self.board@.len() == 100,
                self.board@ == undo_grid_upto(gpost, e, oc, i as int),
                self.current_color == mover,
                self.turns as int == pre.turns,
                self.update_log@ == old_log.drop_last(),
                self.hist@ == h0.drop_last(),
                self.movable_dir == old(self).movable_dir,
                self.movable_positions == old(self).movable_positions,
                self.discs == old(self).discs,
            decreases e.len() - i,
        {
            let dsc = update[i];
            let ghost prev_bd = self.board@;
            proof {
                assert(playable(e[i as int].point.x as int, e[i as int].point.y as int));
            }
            self.board[dsc.point.x * 10 + dsc.point.y] = o2;
            i = i + 1;
            proof {
                assert(self.board@ =~= prev_bd.update(disc_idx(e[i - 1]), oc));
                assert(undo_grid_upto(gpost, e, oc, i as int) == undo_grid_upto(
                    gpost,
                    e,
                    oc,
                    i - 1,
                ).update(disc_idx(e[i - 1]), oc));
            }
        }
        proof {
            assert(self.board@ == undo_grid(gpost, e, mover));
            assert(self.board@ == pre.grid);
            lemma_counts_sum_64(gpost);
            lemma_grid_count_bounds(gpost, Color::Black, 8);
            lemma_grid_count_bounds(gpost, Color::White, 8);
            lemma_grid_count_bounds(gpost, Color::Empty, 8);
            lemma_counts_sum_64(pre.grid);
            lemma_grid_count_bounds(pre.grid, Color::Black, 8);
            lemma_grid_count_bounds(pre.grid, Color::White, 8);
            lemma_grid_count_bounds(pre.grid, Color::Empty, 8);
        }
        let diff = update.len();
        let df: u32 = diff as u32;
        let c = self.current_color;
        proof {
            assert(c == mover && mover.is_player());
            assert(old(self).discs.spec_get(mover) as int == count_of(gpost, mover));
            assert(count_of(gpost, mover) == count_of(pre.grid, mover) + e.len());
            assert(e.len() <= 64);
        }
        let cur = *self.discs.get(&c);
        proof {
            assert(cur as int - df as int == count_of(pre.grid, mover));
        }
        self.discs.set(&c, cur - df);
        let o = c.opponent();
        let curo = *self.discs.get(&o);
        proof {
            assert(curo as int + (df as int - 1) == count_of(pre.grid, oc));
        }
        self.discs.set(&o, curo + (df - 1));
        let cure = *self.discs.get(&Color::Empty);
        self.discs.set(&Color::Empty, cure + 1);
        proof {
            assert(self.snap() == pre);
            assert(self.history() =~= h0.drop_last());
            assert(self.update_log@ =~= old_log.drop_last());
            assert(self.turns as int == moves_in(self.update_log@));
            assert(count_of(pre.grid, Color::Empty) == 60 - self.turns as int);
            assert(old(self).slot_ok(pre.turns, pre));
            assert forall|a: int, b: int|
                playable(a, b) implies bits_of(
                self.movable_dir@[pre.turns]@[pidx(a, b)],
            ) == #[trigger] cell_dirs(pre.grid, pre.color, a, b) by {
                assert(bits_of(old(self).movable_dir@[pre.turns]@[pidx(a, b)]) == cell_dirs(
                    pre.grid,
                    pre.color,
                    a,
                    b,
                ));
            }
            assert(self.slot_ok(self.turns as int, self.snap()));
            assert forall|i: int|
                0 <= i < self.update_log@.len() implies #[trigger] self.entry_inv(i) by {
                assert(old(self).entry_inv(i));
                assert(self.hist@[i] == h0[i]);
                assert(self.update_log@[i] == old_log[i]);
                assert(self.update_log@.take(i) =~= old_log.take(i));
                if i + 1 == ll {
                    assert(self.entry_post(i) == self.snap());
                    assert(old(self).entry_post(i) == h0[ll]);
                } else {
                    assert(self.entry_post(i) == old(self).entry_post(i));
                }
                if old_log[i]@.len() > 0 {
                    let ti = h0[i].turns;
                    lemma_moves_in_take_succ(old_log, i);
                    lemma_moves_in_take_le(old_log, i + 1);
                    lemma_moves_in_take_succ(old_log, ll);
                    lemma_moves_in_take_all(old_log);
                    assert(ti < self.turns as int + 1);
                    assert(self.movable_dir@[ti] == old(self).movable_dir@[ti]);
                    assert(self.movable_positions@[ti] == old(self).movable_positions@[ti]);
                    assert(old(self).slot_ok(ti, h0[i]));
                    assert forall|a: int, b: int|
                        playable(a, b) implies bits_of(self.movable_dir@[ti]@[pidx(a, b)])
                        == #[trigger] cell_dirs(h0[i].grid, h0[i].color, a, b) by {
                        assert(bits_of(old(self).movable_dir@[ti]@[pidx(a, b)]) == cell_dirs(
                            h0[i].grid,
                            h0[i].color,
                            a,
                            b,
                        ));
                    }
                    assert(self.slot_ok(ti, h0[i]));
                }
            }
            assert(self.wf());
        }
        true
    }

    /// Number of discs of `color` on the board (or of empty cells).
    pub fn count_disc(&self, color: &Color) -> (r: u32)
        requires
            self.wf(),
            *color != Color::Wall,
        ensures
            r as int == count_of(self.grid(), *color),
    {
        *self.discs.get(color)
    }

    /// The color held by the cell at `point`.
    pub fn get_color(&self, point: &Point) -> (r: Color)
        requires
            self.wf(),
            on_grid(point.x as int, point.y as int),
        ensures
            r == at(self.grid(), point.x as int, point.y as int),
    {
        self.board[point.x * 10 + point.y]
    }

    /// The cached legal-move list of the side to act.
    pub fn get_movable_positions(&self) -> (r: &Vec<Point>)
        requires
            self.wf(),
        ensures
            r@ == legal_seq(self.grid(), self.color()),
            r@ == self.legal_moves(),
    {
        &self.movable_positions[self.turns]
    }

    /// The side to act.
    pub fn get_current_color(&self) -> (r: Color)
        ensures
            r == self.color(),
    {
        self.current_color
    }

    /// The number of moves played so far.
    pub fn get_turns(&self) -> (r: usize)
        ensures
            r as int == self.turn(),
    {
        self.turns
    }
}

/// Count invariant: in every well-formed state the stored counters are the
/// grid's tallies, and Black, White and Empty together cover the 64
/// playable cells.
pub proof fn lemma_count_invariant(b: Board)
    requires
        b.wf(),
    ensures
        b.counter(Color::Black) == count_of(b.grid(), Color::Black),
        b.counter(Color::White) == count_of(b.grid(), Color::White),
        b.counter(Color::Empty) == count_of(b.grid(), Color::Empty),
        b.counter(Color::Black) + b.counter(Color::White) + b.counter(Color::Empty) == 64,
{
    lemma_counts_sum_64(b.grid());
}

/// Facts every well-formed state keeps: the Wall sentinel stands exactly
/// on the border ring, the side to act is Black or White, the turn counter
/// stays within 0..=60, and the empty count is 60 minus the turn counter.
pub proof fn lemma_state_invariants(b: Board)
    requires
        b.wf(),
    ensures
        b.grid().len() == 100,
        forall|x: int, y: int|
            on_grid(x, y) && !playable(x, y) ==> #[trigger] at(b.grid(), x, y) == Color::Wall,
        forall|x: int, y: int| playable(x, y) ==> #[trigger] at(b.grid(), x, y) != Color::Wall,
        b.color().is_player(),
        0 <= b.turn() <= 60,
        b.counter(Color::Empty) == 60 - b.turn(),
{
}

/// Cache/scanner consistency: in every well-formed state the cached
/// legal-move list is the scanner's own answer, holding exactly the
/// playable points with a capturing direction for the side to act.
pub proof fn lemma_cache_matches_scanner(b: Board)
    requires
        b.wf(),
    ensures
        b.legal_moves() == legal_seq(b.grid(), b.color()),
        forall|p: Point|
            #[trigger] b.legal_moves().contains(p) <==> (playable(p.x as int, p.y as int)
                && movable(b.grid(), b.color(), p.x as int, p.y as int)),
{
    lemma_legal_seq_contains(b.grid(), b.color());
}

/// Move/undo round trip: a successful `move_disc` followed by a successful
/// `undo` restores the grid, the counters, the turn counter, the acting
/// color, the history and the legal-move list. The hypotheses are the two
/// calls' postconditions.
pub proof fn lemma_move_undo_round_trip(b0: Board, b1: Board, b2: Board, x: int, y: int)
    requires
        b0.wf(),
        b1.wf(),
        b2.wf(),
        can_play(b0.snap(), x, y),
        b1.snap() == move_snap(b0.snap(), x, y),
        b1.history() == b0.history().push(b0.snap()),
        b2.snap() == b1.history().last(),
        b2.history() == b1.history().drop_last(),
    ensures
        b2.snap() == b0.snap(),
        b2.history() == b0.history(),
        b2.grid() == b0.grid(),
        b2.color() == b0.color(),
        b2.turn() == b0.turn(),
        b2.counter(Color::Black) == b0.counter(Color::Black),
        b2.counter(Color::White) == b0.counter(Color::White),
        b2.counter(Color::Empty) == b0.counter(Color::Empty),
        b2.legal_moves() == b0.legal_moves(),
{
    assert(b1.history().last() == b0.snap());
    assert(b1.history().drop_last() =~= b0.history());
}

/// The run length found for each of the eight directions before flipping:
/// 0 where the direction does not capture, else the capturing run's length.
spec fn runs_ok(g: Seq<Color>, c: Color, x: int, y: int, runs: Seq<usize>) -> bool {
    &&& runs.len() == 8
    &&& forall|j: int| 0 <= j < 8 ==> (#[trigger] runs[j]) <= 8
    &&& forall|j: int| 0 <= j < 8 ==> ((#[trigger] runs[j]) == 0 ==> !dir_legal(g, c, x, y, j))
    &&& forall|j: int|
        0 <= j < 8 ==> ((#[trigger] runs[j]) >= 1 ==> run_shape(g, c, x, y, j, runs[j] as int))
}

/// A cell already flipped while walking the rays: every step of every
/// direction before `d`, and the first `k` steps of direction `d`.
spec fn partial_flipped(x: int, y: int, runs: Seq<usize>, d: int, k: int, i: int) -> bool {
    exists|j: int, k2: int|
        #![trigger ray_idx(x, y, j, k2)]
        0 <= j <= d && j < 8 && 1 <= k2 && (if j < d {
            k2 <= runs[j]
        } else {
            k2 <= k
        }) && i == ray_idx(x, y, j, k2)
}

/// Once every direction is walked, the flipped cells are exactly the cells
/// of the legal capturing runs.
proof fn lemma_partial_full(g: Seq<Color>, c: Color, x: int, y: int, runs: Seq<usize>)
    requires
        c.is_player(),
        runs_ok(g, c, x, y, runs),
    ensures
        forall|i: int| partial_flipped(x, y, runs, 8, 0, i) <==> #[trigger] flipped(g, c, x, y, i),
{
    assert forall|i: int|
        partial_flipped(x, y, runs, 8, 0, i) <==> #[trigger] flipped(g, c, x, y, i) by {
        if partial_flipped(x, y, runs, 8, 0, i) {
            let (j, k2) = choose|j: int, k2: int|
                #![trigger ray_idx(x, y, j, k2)]
                0 <= j <= 8 && j < 8 && 1 <= k2 && (if j < 8 {
                    k2 <= runs[j]
                } else {
                    k2 <= 0
                }) && i == ray_idx(x, y, j, k2);
            assert(runs[j] >= 1);
            assert(run_shape(g, c, x, y, j, runs[j] as int));
            assert(flipped(g, c, x, y, i));
        }
        if flipped(g, c, x, y, i) {
            let (d0, k0, n0) = choose|d0: int, k0: int, n0: int|
                0 <= d0 < 8 && #[trigger] run_shape(g, c, x, y, d0, n0) && 1 <= k0 <= n0 && i
                    == #[trigger] ray_idx(x, y, d0, k0);
            assert(dir_legal(g, c, x, y, d0));
            assert(runs[d0] >= 1);
            lemma_run_unique(g, c, x, y, d0, n0, runs[d0] as int);
            assert(partial_flipped(x, y, runs, 8, 0, i));
        }
    }
}

/// Walking one more step of direction `d` flips one opponent cell and keeps
/// the flipping-phase invariant.
proof fn lemma_flip_step(
    prev_bd: Seq<Color>,
    new_bd: Seq<Color>,
    g0: Seq<Color>,
    c: Color,
    x: int,
    y: int,
    runs: Seq<usize>,
    prev_up: Seq<Disc>,
    new_up: Seq<Disc>,
    d: int,
    k: int,
    n: int,
    dnew: Disc,
)
    requires
        grid_ok(g0),
        c.is_player(),
        playable(x, y),
        at(g0, x, y) == Color::Empty,
        0 <= d < 8,
        runs_ok(g0, c, x, y, runs),
        n == runs[d] as int,
        run_shape(g0, c, x, y, d, n),
        1 <= k <= n,
        dnew.color == c,
        dnew.point.x as int == x + k * dx(d),
        dnew.point.y as int == y + k * dy(d),
        flip_inv(prev_bd, g0, c, x, y, runs, prev_up, d, k - 1),
        new_bd == prev_bd.update(ray_idx(x, y, d, k), c),
        new_up == prev_up.push(dnew),
    ensures
        flip_inv(new_bd, g0, c, x, y, runs, new_up, d, k),
{
    let oc = c.spec_opponent();
    let istar = ray_idx(x, y, d, k);
    lemma_run_cells_playable(g0, c, x, y, d, n, k);
    let cx = x + k * dx(d);
    let cy = y + k * dy(d);
    assert(playable(cx, cy));
    assert(disc_idx(dnew) == istar);
    lemma_ray_not_origin(x, y, d, k);
    assert forall|j: int, k2: int|
        #![trigger ray_idx(x, y, j, k2)]
        (0 <= j <= d && j < 8 && 1 <= k2 && (if j < d {
            k2 <= runs[j]
        } else {
            k2 <= k - 1
        })) implies ray_idx(x, y, j, k2) != istar by {
        if j < d {
            lemma_run_cells_playable(g0, c, x, y, j, runs[j] as int, k2);
        } else {
            lemma_run_cells_playable(g0, c, x, y, d, n, k2);
        }
        lemma_ray_cells_distinct(x, y, j, k2, d, k);
    }
    assert(!partial_flipped(x, y, runs, d, k - 1, istar));
    assert(at(g0, x + k * dx(d), y + #[trigger] (k * dy(d))) == oc);
    assert(0 <= istar < 100);
    assert(prev_bd[istar] == g0[istar]);
    assert(g0[istar] == oc);
    // the grid now holds `c` exactly on the origin and the walked cells
    assert(partial_flipped(x, y, runs, d, k, istar));
    assert forall|i: int|
        0 <= i < 100 implies #[trigger] new_bd[i] == (if i == idx(x, y) || partial_flipped(
        x,
        y,
        runs,
        d,
        k,
        i,
    ) {
        c
    } else {
        g0[i]
    }) by {
        if i != istar {
            assert(new_bd[i] == prev_bd[i]);
            if partial_flipped(x, y, runs, d, k, i) {
                let (j, k2) = choose|j: int, k2: int|
                    #![trigger ray_idx(x, y, j, k2)]
                    0 <= j <= d && j < 8 && 1 <= k2 && (if j < d {
                        k2 <= runs[j]
                    } else {
                        k2 <= k
                    }) && i == ray_idx(x, y, j, k2);
                if j == d && k2 == k {
                    assert(i == istar);
                } else {
                    assert(partial_flipped(x, y, runs, d, k - 1, i));
                }
            }
        }
    }
    // the pushed disc stands for the flipped cell
    assert forall|m: int|
        1 <= m < new_up.len() implies partial_flipped(
        x,
        y,
        runs,
        d,
        k,
        disc_idx(#[trigger] new_up[m]),
    ) by {
        if m < prev_up.len() {
            assert(new_up[m] == prev_up[m]);
            assert(partial_flipped(x, y, runs, d, k - 1, disc_idx(prev_up[m])));
            let (j, k2) = choose|j: int, k2: int|
                #![trigger ray_idx(x, y, j, k2)]
                0 <= j <= d && j < 8 && 1 <= k2 && (if j < d {
                    k2 <= runs[j]
                } else {
                    k2 <= k - 1
                }) && disc_idx(prev_up[m]) == ray_idx(x, y, j, k2);
            assert(partial_flipped(x, y, runs, d, k, disc_idx(new_up[m])));
        } else {
            assert(new_up[m] == dnew);
        }
    }
    // reverting the longer entry still restores the old grid
    let len = prev_up.len() as int;
    assert forall|m: int| 0 <= m < len implies #[trigger] disc_idx(prev_up[m]) != istar by {
        if m == 0 {
            assert(disc_idx(prev_up[0]) == idx(x, y));
        } else {
            assert(partial_flipped(x, y, runs, d, k - 1, disc_idx(prev_up[m])));
            let (j, k2) = choose|j: int, k2: int|
                #![trigger ray_idx(x, y, j, k2)]
                0 <= j <= d && j < 8 && 1 <= k2 && (if j < d {
                    k2 <= runs[j]
                } else {
                    k2 <= k - 1
                }) && disc_idx(prev_up[m]) == ray_idx(x, y, j, k2);
        }
    }
    assert forall|m: int| 0 <= m < len implies 0 <= #[trigger] disc_idx(prev_up[m])
        < prev_bd.len() by {
        assert(playable(prev_up[m].point.x as int, prev_up[m].point.y as int));
    }
    lemma_undo_upto_ignores_tail(new_bd, new_up, prev_up, oc, len);
    lemma_undo_upto_commute(prev_bd, prev_up, oc, len, istar, c);
    assert(new_up.len() as int == len + 1);
    assert(undo_grid_upto(new_bd, new_up, oc, len + 1) == undo_grid_upto(new_bd, new_up, oc, len)
        .update(disc_idx(new_up[len]), oc));
    assert(undo_grid_upto(new_bd, new_up, oc, len) == undo_grid_upto(new_bd, prev_up, oc, len));
    assert(undo_grid_upto(new_bd, prev_up, oc, len) == undo_grid_upto(prev_bd, prev_up, oc, len)
        .update(istar, c));
    assert(undo_grid_upto(prev_bd, prev_up, oc, len) == g0);
    assert(g0.update(istar, c).update(istar, oc) =~= g0);
    assert(undo_grid_upto(new_bd, new_up, oc, len + 1) == g0);
    // one more disc of the actor, one fewer of the opponent
    lemma_count_update(prev_bd, Color::Black, cx, cy, c);
    lemma_count_update(prev_bd, Color::White, cx, cy, c);
    lemma_count_update(prev_bd, Color::Empty, cx, cy, c);
    assert(at(prev_bd, cx, cy) == oc);
    assert(new_bd == prev_bd.update(idx(cx, cy), c));
    // the entry keeps the prescribed order: the new disc extends the
    // current direction's run, nearest first
    assert(dnew == (Disc {
        point: Point { x: (x + k * dx(d)) as usize, y: (y + k * dy(d)) as usize },
        color: c,
    }));
    assert(ray_discs(c, x, y, d, k) == ray_discs(c, x, y, d, k - 1).push(dnew));
    assert(new_up =~= seq![Disc { point: Point { x: x as usize, y: y as usize }, color: c }]
        + rays_upto_runs(c, x, y, runs, d) + ray_discs(c, x, y, d, k));
}

/// Finishing one direction's walk hands the invariant to the next
/// direction.
proof fn lemma_partial_next_dir(x: int, y: int, runs: Seq<usize>, d: int, k: int)
    requires
        0 <= d < 8,
        k == runs[d] as int,
    ensures
        forall|i: int|
            #[trigger] partial_flipped(x, y, runs, d, k, i) <==> partial_flipped(
                x,
                y,
                runs,
                d + 1,
                0,
                i,
            ),
{
    assert forall|i: int|
        #[trigger] partial_flipped(x, y, runs, d, k, i) <==> partial_flipped(
            x,
            y,
            runs,
            d + 1,
            0,
            i,
        ) by {
        if partial_flipped(x, y, runs, d, k, i) {
            let (j, k2) = choose|j: int, k2: int|
                #![trigger ray_idx(x, y, j, k2)]
                0 <= j <= d && j < 8 && 1 <= k2 && (if j < d {
                    k2 <= runs[j]
                } else {
                    k2 <= k
                }) && i == ray_idx(x, y, j, k2);
            assert(partial_flipped(x, y, runs, d + 1, 0, i));
        }
        if partial_flipped(x, y, runs, d + 1, 0, i) {
            let (j, k2) = choose|j: int, k2: int|
                #![trigger ray_idx(x, y, j, k2)]
                0 <= j <= d + 1 && j < 8 && 1 <= k2 && (if j < d + 1 {
                    k2 <= runs[j]
                } else {
                    k2 <= 0
                }) && i == ray_idx(x, y, j, k2);
            assert(partial_flipped(x, y, runs, d, k, i));
        }
    }
}

/// Finishing one direction's walk (its whole run flipped) re-reads the
/// flipping invariant at the next direction's start.
proof fn lemma_flip_next_dir(
    bd: Seq<Color>,
    g0: Seq<Color>,
    c: Color,
    x: int,
    y: int,
    runs: Seq<usize>,
    update: Seq<Disc>,
    d: int,
)
    requires
        0 <= d < 8,
        runs_ok(g0, c, x, y, runs),
        flip_inv(bd, g0, c, x, y, runs, update, d, runs[d] as int),
    ensures
        flip_inv(bd, g0, c, x, y, runs, update, d + 1, 0),
{
    let k = runs[d] as int;
    lemma_partial_next_dir(x, y, runs, d, k);
    assert(rays_upto_runs(c, x, y, runs, d + 1) == rays_upto_runs(c, x, y, runs, d) + ray_discs(
        c,
        x,
        y,
        d,
        k,
    ));
    assert(update =~= seq![Disc { point: Point { x: x as usize, y: y as usize }, color: c }]
        + rays_upto_runs(c, x, y, runs, d + 1) + ray_discs(c, x, y, d + 1, 0));
    assert forall|i: int|
        0 <= i < 100 implies #[trigger] bd[i] == (if i == idx(x, y) || partial_flipped(
        x,
        y,
        runs,
        d + 1,
        0,
        i,
    ) {
        c
    } else {
        g0[i]
    }) by {
        assert(partial_flipped(x, y, runs, d, k, i) <==> partial_flipped(x, y, runs, d + 1, 0, i));
    }
    assert forall|m: int|
        1 <= m < update.len() implies partial_flipped(
        x,
        y,
        runs,
        d + 1,
        0,
        disc_idx(#[trigger] update[m]),
    ) by {
        assert(partial_flipped(x, y, runs, d, k, disc_idx(update[m])));
    }
}

/// After every direction is walked, the grid is the move's result: well
/// formed, with the tallies moved by the flips, and the update entry
/// reverts it to the old grid.
proof fn lemma_flip_finish(
    bd: Seq<Color>,
    g0: Seq<Color>,
    c: Color,
    x: int,
    y: int,
    runs: Seq<usize>,
    update: Seq<Disc>,
)
    requires
        grid_ok(g0),
        c.is_player(),
        playable(x, y),
        at(g0, x, y) == Color::Empty,
        movable(g0, c, x, y),
        runs_ok(g0, c, x, y, runs),
        flip_inv(bd, g0, c, x, y, runs, update, 8, 0),
    ensures
        bd == move_grid(g0, c, x, y),
        grid_ok(bd),
        update == move_entry(g0, c, x, y),
        2 <= update.len() <= 65,
        undo_grid(bd, update, c) == g0,
        forall|m: int|
            0 <= m < update.len() ==> playable(
                (#[trigger] update[m]).point.x as int,
                update[m].point.y as int,
            ),
        count_of(bd, c) == count_of(g0, c) + update.len(),
        count_of(bd, c.spec_opponent()) == count_of(g0, c.spec_opponent()) - (update.len() - 1),
        count_of(bd, Color::Empty) == count_of(g0, Color::Empty) - 1,
        count_of(bd, Color::Black) + count_of(bd, Color::White) + count_of(bd, Color::Empty) == 64,
        0 <= count_of(bd, Color::Black) <= 64,
        0 <= count_of(bd, Color::White) <= 64,
        0 <= count_of(bd, Color::Empty) <= 64,
        count_of(g0, Color::Empty) >= 1,
        count_of(g0, c.spec_opponent()) >= update.len() - 1,
{
    lemma_partial_full(g0, c, x, y, runs);
    assert(bd =~= move_grid(g0, c, x, y));
    lemma_rays_upto_runs_agree(g0, c, x, y, runs, 8);
    assert(update =~= move_entry(g0, c, x, y));
    lemma_move_entry_min_len(g0, c, x, y);
    assert forall|a: int, b: int|
        on_grid(a, b) && !playable(a, b) implies #[trigger] at(bd, a, b) == Color::Wall by {
        assert(0 <= idx(a, b) < 100);
        assert(bd[idx(a, b)] == (if idx(a, b) == idx(x, y) || partial_flipped(
            x,
            y,
            runs,
            8,
            0,
            idx(a, b),
        ) {
            c
        } else {
            g0[idx(a, b)]
        }));
        if idx(a, b) == idx(x, y) {
            crate::grid::lemma_idx_injective(a, b, x, y);
        }
        if partial_flipped(x, y, runs, 8, 0, idx(a, b)) {
            let (j, k2) = choose|j: int, k2: int|
                #![trigger ray_idx(x, y, j, k2)]
                0 <= j <= 8 && j < 8 && 1 <= k2 && (if j < 8 {
                    k2 <= runs[j]
                } else {
                    k2 <= 0
                }) && idx(a, b) == ray_idx(x, y, j, k2);
            assert(runs[j] >= 1);
            assert(run_shape(g0, c, x, y, j, runs[j] as int));
            lemma_run_cells_playable(g0, c, x, y, j, runs[j] as int, k2);
            assert(playable(x + k2 * dx(j), y + k2 * dy(j)));
            crate::grid::lemma_idx_injective(a, b, x + k2 * dx(j), y + k2 * dy(j));
            assert(false);
        }
        assert(bd[idx(a, b)] == g0[idx(a, b)]);
        assert(at(g0, a, b) == Color::Wall);
    }
    assert forall|a: int, b: int| playable(a, b) implies #[trigger] at(bd, a, b)
        != Color::Wall by {
        assert(0 <= idx(a, b) < 100);
        assert(bd[idx(a, b)] == (if idx(a, b) == idx(x, y) || partial_flipped(
            x,
            y,
            runs,
            8,
            0,
            idx(a, b),
        ) {
            c
        } else {
            g0[idx(a, b)]
        }));
        assert(at(g0, a, b) != Color::Wall);
    }
    assert(grid_ok(bd));
    lemma_counts_sum_64(bd);
    lemma_grid_count_bounds(bd, Color::Black, 8);
    lemma_grid_count_bounds(bd, Color::White, 8);
    lemma_grid_count_bounds(bd, Color::Empty, 8);
    lemma_count_pos(g0, Color::Empty, x, y);
}

/// The loop invariant of the flipping phase: the grid holds the acting
/// color on the placed cell and every walked ray cell, the update entry
/// lists exactly those discs, reverting the entry restores the old grid,
/// and the tallies have moved with the flips.
spec fn flip_inv(
    bd: Seq<Color>,
    g0: Seq<Color>,
    c: Color,
    x: int,
    y: int,
    runs: Seq<usize>,
    update: Seq<Disc>,
    d: int,
    k: int,
) -> bool {
    let oc = c.spec_opponent();
    &&& bd.len() == 100
    &&& forall|i: int|
        0 <= i < 100 ==> #[trigger] bd[i] == (if i == idx(x, y) || partial_flipped(
            x,
            y,
            runs,
            d,
            k,
            i,
        ) {
            c
        } else {
            g0[i]
        })
    &&& update.len() >= 1
    &&& update.len() <= 1 + 8 * d + k
    &&& update[0] == (Disc { point: Point { x: x as usize, y: y as usize }, color: c })
    &&& forall|m: int|
        1 <= m < update.len() ==> partial_flipped(x, y, runs, d, k, disc_idx(#[trigger] update[m]))
    &&& forall|m: int|
        0 <= m < update.len() ==> playable(
            (#[trigger] update[m]).point.x as int,
            update[m].point.y as int,
        )
    &&& forall|m: int| 0 <= m < update.len() ==> (#[trigger] update[m]).color == c
    &&& update == seq![Disc { point: Point { x: x as usize, y: y as usize }, color: c }]
        + rays_upto_runs(c, x, y, runs, d) + ray_discs(c, x, y, d, k)
    &&& undo_grid_upto(bd, update, oc, update.len() as int) == g0
    &&& count_of(bd, c) == count_of(g0, c) + update.len()
    &&& count_of(bd, oc) == count_of(g0, oc) - (update.len() - 1)
    &&& count_of(bd, Color::Empty) == count_of(g0, Color::Empty) - 1
}

/// The flipped discs of the directions before `d`, read off the scanned
/// run lengths.
spec fn rays_upto_runs(c: Color, x: int, y: int, runs: Seq<usize>, d: int) -> Seq<Disc>
    decreases d,
{
    if d <= 0 {
        Seq::empty()
    } else {
        rays_upto_runs(c, x, y, runs, d - 1) + ray_discs(c, x, y, d - 1, runs[d - 1] as int)
    }
}

/// The scanned run lengths are the run lengths the rules fix, so the entry
/// built from them is the canonical move entry.
proof fn lemma_rays_upto_runs_agree(
    g: Seq<Color>,
    c: Color,
    x: int,
    y: int,
    runs: Seq<usize>,
    d: int,
)
    requires
        c.is_player(),
        runs_ok(g, c, x, y, runs),
        0 <= d <= 8,
    ensures
        rays_upto_runs(c, x, y, runs, d) == rays_upto(g, c, x, y, d),
    decreases d,
{
    if d > 0 {
        lemma_rays_upto_runs_agree(g, c, x, y, runs, d - 1);
        let j = d - 1;
        if runs[j] == 0 {
            assert(run_len(g, c, x, y, j) == 0);
        } else {
            assert(run_shape(g, c, x, y, j, runs[j] as int));
            assert(dir_legal(g, c, x, y, j));
            let n0 = run_len(g, c, x, y, j);
            assert(run_shape(g, c, x, y, j, n0));
            lemma_run_unique(g, c, x, y, j, n0, runs[j] as int);
        }
    }
}

/// The opening position: Wall on the border, the four central discs, all
/// other playable cells Empty.
pub open spec fn initial_color(x: int, y: int) -> Color {
    if !playable(x, y) {
        Color::Wall
    } else if (x == 4 && y == 4) || (x == 5 && y == 5) {
        Color::White
    } else if (x == 4 && y == 5) || (x == 5 && y == 4) {
        Color::Black
    } else {
        Color::Empty
    }
}

} // verus!
