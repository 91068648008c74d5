//! The capture rules: for a cell and an acting color, which of the eight
//! compass directions hold a capturing run, which cells a move flips, and
//! the per-grid list of legal move points.

use vstd::prelude::*;
use bit_vec::BitVec;
use crate::Color;
use crate::point::{Disc, Point};
use crate::grid::{at, grid_ok, idx, on_grid, playable};
use crate::bits::{bits_new, bits_of, bits_set};

verus! {

/// Direction indices, laid out clockwise from straight up:
/// 1 0 7
/// 2 . 6
/// 3 4 5
pub const DIRECTION_UPPER: usize = 0;

pub const DIRECTION_UPPER_LEFT: usize = 1;

pub const DIRECTION_LEFT: usize = 2;

pub const DIRECTION_LOWER_LEFT: usize = 3;

pub const DIRECTION_LOWER: usize = 4;

pub const DIRECTION_LOWER_RIGHT: usize = 5;

pub const DIRECTION_RIGHT: usize = 6;

pub const DIRECTION_UPPER_RIGHT: usize = 7;

/// Step of direction `d` along the x axis.
pub open spec fn dx(d: int) -> int {
    if d == 1 || d == 2 || d == 3 {
        -1
    } else if d == 5 || d == 6 || d == 7 {
        1
    } else {
        0
    }
}

/// Step of direction `d` along the y axis.
pub open spec fn dy(d: int) -> int {
    if d == 0 || d == 1 || d == 7 {
        -1
    } else if d == 3 || d == 4 || d == 5 {
        1
    } else {
        0
    }
}

/// The direction steps, shifted by one so that they fit in a usize.
pub fn dir_offset(d: usize) -> (r: (usize, usize))
    requires
        d < 8,
    ensures
        r.0 as int == dx(d as int) + 1,
        r.1 as int == dy(d as int) + 1,
{
    match d {
        0 => (1, 0),
        1 => (0, 0),
        2 => (0, 1),
        3 => (0, 2),
        4 => (1, 2),
        5 => (2, 2),
        6 => (2, 1),
        _ => (2, 0),
    }
}

/// Index of the cell `k` steps from (x, y) in direction `d`.
pub open spec fn ray_idx(x: int, y: int, d: int, k: int) -> int {
    idx(x + k * dx(d), y + k * dy(d))
}

/// A capturing run of length `n` for actor `c` from cell (x, y) in direction
/// `d`: the `n` cells stepped over hold the opponent's discs and the next
/// cell holds the actor's own disc.
pub open spec fn run_shape(g: Seq<Color>, c: Color, x: int, y: int, d: int, n: int) -> bool {
    &&& 1 <= n
    &&& forall|k: int|
        1 <= k <= n ==> at(g, x + k * dx(d), y + #[trigger] (k * dy(d))) == c.spec_opponent()
    &&& at(g, x + (n + 1) * dx(d), y + (n + 1) * dy(d)) == c
}

/// Direction `d` captures for actor `c` when played at (x, y).
pub open spec fn dir_legal(g: Seq<Color>, c: Color, x: int, y: int, d: int) -> bool {
    exists|n: int| run_shape(g, c, x, y, d, n)
}

/// A capturing run in a fixed direction has exactly one length.
pub proof fn lemma_run_unique(g: Seq<Color>, c: Color, x: int, y: int, d: int, n1: int, n2: int)
    requires
        c.is_player(),
        run_shape(g, c, x, y, d, n1),
        run_shape(g, c, x, y, d, n2),
    ensures
        n1 == n2,
{
    if n1 < n2 {
        assert(at(g, x + (n1 + 1) * dx(d), y + (n1 + 1) * dy(d)) == c.spec_opponent());
    } else if n2 < n1 {
        assert(at(g, x + (n2 + 1) * dx(d), y + (n2 + 1) * dy(d)) == c.spec_opponent());
    }
}

/// The 9-bit direction set of a cell: bit `d` is set when the cell is Empty
/// and direction `d` captures; the spare ninth bit stays clear.
pub open spec fn cell_dirs(g: Seq<Color>, c: Color, x: int, y: int) -> Seq<bool> {
    Seq::new(
        9,
        |d: int| 0 <= d < 8 && at(g, x, y) == Color::Empty && dir_legal(g, c, x, y, d),
    )
}

/// Playing at (x, y) is legal for `c`: the cell is Empty and some direction
/// captures.
pub open spec fn movable(g: Seq<Color>, c: Color, x: int, y: int) -> bool {
    at(g, x, y) == Color::Empty && exists|d: int| 0 <= d < 8 && #[trigger] dir_legal(g, c, x, y, d)
}

/// Actor `c` has no legal move anywhere on the grid.
pub open spec fn no_moves(g: Seq<Color>, c: Color) -> bool {
    forall|x: int, y: int| playable(x, y) ==> !#[trigger] movable(g, c, x, y)
}

/// The legal move points of row `x` with column 1 <= y <= n, in column order.
pub open spec fn legal_row(g: Seq<Color>, c: Color, x: int, n: int) -> Seq<Point>
    decreases n,
{
    if n <= 0 {
        Seq::empty()
    } else {
        legal_row(g, c, x, n - 1) + if movable(g, c, x, n) {
            seq![Point { x: x as usize, y: n as usize }]
        } else {
            Seq::empty()
        }
    }
}

/// The legal move points of rows 1 ..= m, row by row.
pub open spec fn legal_grid(g: Seq<Color>, c: Color, m: int) -> Seq<Point>
    decreases m,
{
    if m <= 0 {
        Seq::empty()
    } else {
        legal_grid(g, c, m - 1) + legal_row(g, c, m, 8)
    }
}

/// The legal move points of the whole grid, in row-major scan order.
pub open spec fn legal_seq(g: Seq<Color>, c: Color) -> Seq<Point> {
    legal_grid(g, c, 8)
}

proof fn lemma_legal_row_contains(g: Seq<Color>, c: Color, x: int, n: int)
    requires
        1 <= x <= 8,
        0 <= n <= 8,
    ensures
        forall|p: Point|
            #[trigger] legal_row(g, c, x, n).contains(p) <==> (p.x as int == x && 1 <= p.y as int
                <= n && movable(g, c, x, p.y as int)),
    decreases n,
{
    if n > 0 {
        lemma_legal_row_contains(g, c, x, n - 1);
        assert forall|p: Point|
            #[trigger] legal_row(g, c, x, n).contains(p) <==> (p.x as int == x && 1 <= p.y as int
                <= n && movable(g, c, x, p.y as int)) by {
            let prev = legal_row(g, c, x, n - 1);
            let tail = if movable(g, c, x, n) {
                seq![Point { x: x as usize, y: n as usize }]
            } else {
                Seq::<Point>::empty()
            };
            assert(legal_row(g, c, x, n) == prev + tail);
            if legal_row(g, c, x, n).contains(p) {
                let i = choose|i: int|
                    0 <= i < (prev + tail).len() && (prev + tail)[i] == p;
                if i < prev.len() {
                    assert(prev.contains(p));
                } else {
                    assert(tail[i - prev.len()] == p);
                }
            }
            if p.x as int == x && 1 <= p.y as int <= n && movable(g, c, x, p.y as int) {
                if p.y as int <= n - 1 {
                    assert(prev.contains(p));
                    let i = choose|i: int| 0 <= i < prev.len() && prev[i] == p;
                    assert((prev + tail)[i] == p);
                } else {
                    assert(p == (Point { x: x as usize, y: n as usize }));
                    assert((prev + tail)[prev.len() as int] == p);
                }
            }
        }
    }
}

proof fn lemma_legal_grid_contains(g: Seq<Color>, c: Color, m: int)
    requires
        0 <= m <= 8,
    ensures
        forall|p: Point|
            #[trigger] legal_grid(g, c, m).contains(p) <==> (1 <= p.x as int <= m && 1 <= p.y as int
                <= 8 && movable(g, c, p.x as int, p.y as int)),
    decreases m,
{
    if m > 0 {
        lemma_legal_grid_contains(g, c, m - 1);
        lemma_legal_row_contains(g, c, m, 8);
        assert forall|p: Point|
            #[trigger] legal_grid(g, c, m).contains(p) <==> (1 <= p.x as int <= m && 1 <= p.y as int
                <= 8 && movable(g, c, p.x as int, p.y as int)) by {
            let prev = legal_grid(g, c, m - 1);
            let row = legal_row(g, c, m, 8);
            assert(legal_grid(g, c, m) == prev + row);
            if legal_grid(g, c, m).contains(p) {
                let i = choose|i: int|
                    0 <= i < (prev + row).len() && (prev + row)[i] == p;
                if i < prev.len() {
                    assert(prev.contains(p));
                } else {
                    assert(row[i - prev.len()] == p);
                    assert(row.contains(p));
                }
            }
            if 1 <= p.x as int <= m && 1 <= p.y as int <= 8 && movable(g, c, p.x as int, p.y as int) {
                if p.x as int <= m - 1 {
                    assert(prev.contains(p));
                    let i = choose|i: int| 0 <= i < prev.len() && prev[i] == p;
                    assert((prev + row)[i] == p);
                } else {
                    assert(row.contains(p));
                    let i = choose|i: int| 0 <= i < row.len() && row[i] == p;
                    assert((prev + row)[prev.len() + i] == p);
                }
            }
        }
    }
}

/// What the legal-move list holds: exactly the playable points whose
/// direction set is non-empty for the actor.
pub proof fn lemma_legal_seq_contains(g: Seq<Color>, c: Color)
    ensures
        forall|p: Point|
            #[trigger] legal_seq(g, c).contains(p) <==> (playable(p.x as int, p.y as int) && movable(
                g,
                c,
                p.x as int,
                p.y as int,
            )),
{
    lemma_legal_grid_contains(g, c, 8);
}

proof fn lemma_legal_row_empty(g: Seq<Color>, c: Color, x: int, n: int)
    requires
        forall|y: int| 1 <= y <= n ==> !#[trigger] movable(g, c, x, y),
    ensures
        legal_row(g, c, x, n) == Seq::<Point>::empty(),
    decreases n,
{
    if n > 0 {
        lemma_legal_row_empty(g, c, x, n - 1);
        assert(legal_row(g, c, x, n) =~= Seq::<Point>::empty());
    }
}

/// The legal-move list is empty exactly when the actor has no move.
pub proof fn lemma_legal_seq_empty(g: Seq<Color>, c: Color)
    ensures
        legal_seq(g, c).len() == 0 <==> no_moves(g, c),
{
    lemma_legal_seq_contains(g, c);
    if no_moves(g, c) {
        lemma_legal_grid_empty(g, c, 8);
    }
    if legal_seq(g, c).len() == 0 {
        assert forall|x: int, y: int| playable(x, y) implies !#[trigger] movable(g, c, x, y) by {
            if movable(g, c, x, y) {
                let p = Point { x: x as usize, y: y as usize };
                assert(legal_seq(g, c).contains(p));
            }
        }
    }
}

proof fn lemma_legal_grid_empty(g: Seq<Color>, c: Color, m: int)
    requires
        m <= 8,
        no_moves(g, c),
    ensures
        legal_grid(g, c, m) == Seq::<Point>::empty(),
    decreases m,
{
    if m > 0 {
        lemma_legal_grid_empty(g, c, m - 1);
        assert forall|y: int| 1 <= y <= 8 implies !#[trigger] movable(g, c, m, y) by {
            assert(playable(m, y));
        }
        lemma_legal_row_empty(g, c, m, 8);
        assert(legal_grid(g, c, m) =~= Seq::<Point>::empty());
    }
}

/// A flat index that some legal direction's run steps over from (x, y).
pub open spec fn flipped(g: Seq<Color>, c: Color, x: int, y: int, i: int) -> bool {
    exists|d: int, k: int, n: int|
        0 <= d < 8 && #[trigger] run_shape(g, c, x, y, d, n) && 1 <= k <= n && i
            == #[trigger] ray_idx(x, y, d, k)
}

/// The grid after `c` plays at (x, y): the placed cell and every stepped-over
/// cell turn to `c`, the rest is unchanged.
pub open spec fn move_grid(g: Seq<Color>, c: Color, x: int, y: int) -> Seq<Color> {
    Seq::new(
        100,
        |i: int|
            if i == idx(x, y) || flipped(g, c, x, y, i) {
                c
            } else {
                g[i]
            },
    )
}

/// Flat index of a disc's cell.
pub open spec fn disc_idx(d: Disc) -> int {
    idx(d.point.x as int, d.point.y as int)
}

/// The length of direction `d`'s capturing run for `c` at (x, y), or 0
/// when the direction does not capture.
pub open spec fn run_len(g: Seq<Color>, c: Color, x: int, y: int, d: int) -> int {
    if dir_legal(g, c, x, y, d) {
        choose|n: int| run_shape(g, c, x, y, d, n)
    } else {
        0
    }
}

/// The discs a run of length `n` in direction `d` flips, nearest first,
/// already recolored to the actor.
pub open spec fn ray_discs(c: Color, x: int, y: int, d: int, n: int) -> Seq<Disc>
    decreases n,
{
    if n <= 0 {
        Seq::empty()
    } else {
        ray_discs(c, x, y, d, n - 1).push(
            Disc {
                point: Point { x: (x + n * dx(d)) as usize, y: (y + n * dy(d)) as usize },
                color: c,
            },
        )
    }
}

/// The flipped discs of the directions before `d`, in direction index
/// order.
pub open spec fn rays_upto(g: Seq<Color>, c: Color, x: int, y: int, d: int) -> Seq<Disc>
    decreases d,
{
    if d <= 0 {
        Seq::empty()
    } else {
        rays_upto(g, c, x, y, d - 1) + ray_discs(c, x, y, d - 1, run_len(g, c, x, y, d - 1))
    }
}

/// The whole update-log entry of a move: the placed disc first, then every
/// flipped disc, direction by direction in index order, nearest first.
pub open spec fn move_entry(g: Seq<Color>, c: Color, x: int, y: int) -> Seq<Disc> {
    seq![Disc { point: Point { x: x as usize, y: y as usize }, color: c }] + rays_upto(
        g,
        c,
        x,
        y,
        8,
    )
}

pub proof fn lemma_ray_discs_len(c: Color, x: int, y: int, d: int, n: int)
    ensures
        ray_discs(c, x, y, d, n).len() == if n <= 0 {
            0int
        } else {
            n
        },
    decreases n,
{
    if n > 0 {
        lemma_ray_discs_len(c, x, y, d, n - 1);
    }
}

proof fn lemma_rays_upto_covers(g: Seq<Color>, c: Color, x: int, y: int, d0: int, d: int)
    requires
        0 <= d0 < d,
    ensures
        rays_upto(g, c, x, y, d).len() >= ray_discs(c, x, y, d0, run_len(g, c, x, y, d0)).len(),
    decreases d,
{
    if d0 < d - 1 {
        lemma_rays_upto_covers(g, c, x, y, d0, d - 1);
    }
}

/// A legal move's entry holds the placed disc and at least one flip.
pub proof fn lemma_move_entry_min_len(g: Seq<Color>, c: Color, x: int, y: int)
    requires
        c.is_player(),
        movable(g, c, x, y),
    ensures
        move_entry(g, c, x, y).len() >= 2,
{
    let d0 = choose|d0: int| 0 <= d0 < 8 && #[trigger] dir_legal(g, c, x, y, d0);
    let n0 = run_len(g, c, x, y, d0);
    assert(run_shape(g, c, x, y, d0, n0));
    lemma_ray_discs_len(c, x, y, d0, n0);
    lemma_rays_upto_covers(g, c, x, y, d0, 8);
}

/// The grid obtained by reverting the first `j` discs of one update-log
/// entry: the placed disc's cell is cleared, later cells revert to `oc`.
pub open spec fn undo_grid_upto(g: Seq<Color>, e: Seq<Disc>, oc: Color, j: int) -> Seq<Color>
    decreases j,
{
    if j <= 1 {
        g.update(disc_idx(e[0]), Color::Empty)
    } else {
        undo_grid_upto(g, e, oc, j - 1).update(disc_idx(e[j - 1]), oc)
    }
}

/// The grid obtained by reverting a whole move entry of `mover`.
pub open spec fn undo_grid(g: Seq<Color>, e: Seq<Disc>, mover: Color) -> Seq<Color> {
    undo_grid_upto(g, e, mover.spec_opponent(), e.len() as int)
}

/// Reverting the first `j` discs only reads those discs.
pub proof fn lemma_undo_upto_ignores_tail(
    g: Seq<Color>,
    e1: Seq<Disc>,
    e2: Seq<Disc>,
    oc: Color,
    j: int,
)
    requires
        1 <= j,
        forall|m: int| 0 <= m < j ==> e1[m] == e2[m],
    ensures
        undo_grid_upto(g, e1, oc, j) == undo_grid_upto(g, e2, oc, j),
    decreases j,
{
    if j > 1 {
        lemma_undo_upto_ignores_tail(g, e1, e2, oc, j - 1);
    }
}

/// An update to a cell no reverted disc touches commutes with the revert.
pub proof fn lemma_undo_upto_commute(
    g: Seq<Color>,
    e: Seq<Disc>,
    oc: Color,
    j: int,
    p: int,
    v: Color,
)
    requires
        1 <= j,
        0 <= p < g.len(),
        forall|m: int| 0 <= m < j ==> #[trigger] disc_idx(e[m]) != p,
        forall|m: int| 0 <= m < j ==> 0 <= #[trigger] disc_idx(e[m]) < g.len(),
    ensures
        undo_grid_upto(g.update(p, v), e, oc, j) == undo_grid_upto(g, e, oc, j).update(p, v),
    decreases j,
{
    if j <= 1 {
        assert(0 <= disc_idx(e[0]) < g.len());
        assert(undo_grid_upto(g.update(p, v), e, oc, j) =~= undo_grid_upto(g, e, oc, j).update(
            p,
            v,
        ));
    } else {
        lemma_undo_upto_commute(g, e, oc, j - 1, p, v);
        lemma_undo_upto_len(g, e, oc, j - 1);
        assert(0 <= disc_idx(e[j - 1]) < g.len());
        assert(undo_grid_upto(g.update(p, v), e, oc, j) =~= undo_grid_upto(g, e, oc, j).update(
            p,
            v,
        ));
    }
}

/// The length of the grid survives a revert.
pub proof fn lemma_undo_upto_len(g: Seq<Color>, e: Seq<Disc>, oc: Color, j: int)
    requires
        1 <= j,
        forall|m: int| 0 <= m < j ==> 0 <= #[trigger] disc_idx(e[m]) < g.len(),
    ensures
        undo_grid_upto(g, e, oc, j).len() == g.len(),
    decreases j,
{
    if j > 1 {
        lemma_undo_upto_len(g, e, oc, j - 1);
        assert(0 <= disc_idx(e[j - 1]) < g.len());
    } else {
        assert(0 <= disc_idx(e[0]) < g.len());
    }
}

proof fn lemma_unit_products_differ(a1: int, b1: int, a2: int, b2: int, k1: int, k2: int)
    requires
        -1 <= a1 <= 1,
        -1 <= b1 <= 1,
        -1 <= a2 <= 1,
        -1 <= b2 <= 1,
        !(a1 == 0 && b1 == 0),
        !(a2 == 0 && b2 == 0),
        1 <= k1,
        1 <= k2,
        !(a1 == a2 && b1 == b2 && k1 == k2),
    ensures
        k1 * a1 != k2 * a2 || k1 * b1 != k2 * b2,
{
    assert(k1 * a1 != k2 * a2 || k1 * b1 != k2 * b2) by (nonlinear_arith)
        requires
            -1 <= a1 <= 1,
            -1 <= b1 <= 1,
            -1 <= a2 <= 1,
            -1 <= b2 <= 1,
            !(a1 == 0 && b1 == 0),
            !(a2 == 0 && b2 == 0),
            1 <= k1,
            1 <= k2,
            !(a1 == a2 && b1 == b2 && k1 == k2),
    ;
}

/// Distinct steps along the rays from one origin land on distinct on-grid
/// cells.
pub proof fn lemma_ray_cells_distinct(x: int, y: int, d1: int, k1: int, d2: int, k2: int)
    requires
        0 <= d1 < 8,
        0 <= d2 < 8,
        1 <= k1,
        1 <= k2,
        !(d1 == d2 && k1 == k2),
        on_grid(x + k1 * dx(d1), y + k1 * dy(d1)),
        on_grid(x + k2 * dx(d2), y + k2 * dy(d2)),
    ensures
        ray_idx(x, y, d1, k1) != ray_idx(x, y, d2, k2),
{
    if d1 != d2 {
        assert(!(dx(d1) == dx(d2) && dy(d1) == dy(d2)));
    }
    lemma_unit_products_differ(dx(d1), dy(d1), dx(d2), dy(d2), k1, k2);
    crate::grid::lemma_idx_injective(x + k1 * dx(d1), y + k1 * dy(d1), x + k2 * dx(d2), y + k2 * dy(
        d2,
    ));
}

/// A ray cell is never the origin cell.
pub proof fn lemma_ray_not_origin(x: int, y: int, d: int, k: int)
    requires
        0 <= d < 8,
        1 <= k,
        on_grid(x, y),
        on_grid(x + k * dx(d), y + k * dy(d)),
    ensures
        ray_idx(x, y, d, k) != idx(x, y),
{
    assert(k * dx(d) != 0 || k * dy(d) != 0) by (nonlinear_arith)
        requires
            0 <= d < 8,
            1 <= k,
            -1 <= dx(d) <= 1,
            -1 <= dy(d) <= 1,
            !(dx(d) == 0 && dy(d) == 0),
    ;
    crate::grid::lemma_idx_injective(x + k * dx(d), y + k * dy(d), x, y);
}

/// Every cell of a capturing run, the terminator included, is playable.
pub proof fn lemma_run_cells_playable(
    g: Seq<Color>,
    c: Color,
    x: int,
    y: int,
    d: int,
    n: int,
    k: int,
)
    requires
        grid_ok(g),
        c.is_player(),
        playable(x, y),
        0 <= d < 8,
        run_shape(g, c, x, y, d, n),
        1 <= k <= n + 1,
    ensures
        playable(x + k * dx(d), y + k * dy(d)),
    decreases k,
{
    let a = dx(d);
    let b = dy(d);
    if k == 1 {
        assert(x + 1 * a == x + a && y + 1 * b == y + b) by (nonlinear_arith);
        assert(on_grid(x + a, y + b));
        assert(at(g, x + 1 * a, y + 1 * b) == c.spec_opponent());
    } else {
        lemma_run_cells_playable(g, c, x, y, d, n, k - 1);
        assert(x + k * a == (x + (k - 1) * a) + a && y + k * b == (y + (k - 1) * b) + b)
            by (nonlinear_arith);
        assert(on_grid(x + k * a, y + k * b));
        if k <= n {
            assert(at(g, x + k * a, y + k * b) == c.spec_opponent());
        } else {
            assert(at(g, x + (n + 1) * a, y + (n + 1) * b) == c);
        }
    }
}

/// Walks outward from (x, y) in direction `d` over the opponent's discs.
/// Returns the length of the capturing run, or 0 when the direction does not
/// capture for `c`.
pub fn scan_dir(board: &Vec<Color>, c: Color, x: usize, y: usize, d: usize) -> (n: usize)
    requires
        grid_ok(board@),
        c.is_player(),
        playable(x as int, y as int),
        d < 8,
    ensures
        n == 0 ==> !dir_legal(board@, c, x as int, y as int, d as int),
        n >= 1 ==> run_shape(board@, c, x as int, y as int, d as int, n as int),
        n <= 8,
{
    let g = board;
    let opp = c.opponent();
    let (ox, oy) = dir_offset(d);
    let mut nx: usize = x + ox - 1;
    let mut ny: usize = y + oy - 1;
    let mut k: usize = 0;
    proof {
        assert(nx as int == x as int + (k as int + 1) * dx(d as int)) by (nonlinear_arith)
            requires
                nx as int == x as int + (ox as int - 1),
                ox as int - 1 == dx(d as int),
                k == 0,
        ;
        assert(ny as int == y as int + (k as int + 1) * dy(d as int)) by (nonlinear_arith)
            requires
                ny as int == y as int + (oy as int - 1),
                oy as int - 1 == dy(d as int),
                k == 0,
        ;
    }
    while g[nx * 10 + ny] == opp
        invariant
            grid_ok(g@),
            c.is_player(),
            opp == c.spec_opponent(),
            playable(x as int, y as int),
            d < 8,
            ox as int == dx(d as int) + 1,
            oy as int == dy(d as int) + 1,
            k <= 8,
            nx as int == x as int + (k as int + 1) * dx(d as int),
            ny as int == y as int + (k as int + 1) * dy(d as int),
            on_grid(nx as int, ny as int),
            forall|j: int|
                1 <= j <= k ==> at(g@, x as int + j * dx(d as int), y as int + #[trigger] (j * dy(
                    d as int,
                ))) == c.spec_opponent(),
        decreases 10 - k,
    {
        proof {
            assert(at(g@, nx as int, ny as int) == opp);
            assert(playable(nx as int, ny as int));
            // the run cannot be longer than the playable span
            assert(k + 1 <= 7) by (nonlinear_arith)
                requires
                    nx as int == x as int + (k as int + 1) * dx(d as int),
                    ny as int == y as int + (k as int + 1) * dy(d as int),
                    playable(x as int, y as int),
                    playable(nx as int, ny as int),
                    -1 <= dx(d as int) <= 1,
                    -1 <= dy(d as int) <= 1,
                    !(dx(d as int) == 0 && dy(d as int) == 0),
                    0 <= k,
            ;
        }
        k = k + 1;
        let ghost old_nx = nx as int;
        let ghost old_ny = ny as int;
        nx = nx + ox - 1;
        ny = ny + oy - 1;
        proof {
            assert(nx as int == x as int + (k as int + 1) * dx(d as int)) by (nonlinear_arith)
                requires
                    nx as int == old_nx + dx(d as int),
                    old_nx == x as int + (k as int) * dx(d as int),
                    k >= 1,
            ;
            assert(ny as int == y as int + (k as int + 1) * dy(d as int)) by (nonlinear_arith)
                requires
                    ny as int == old_ny + dy(d as int),
                    old_ny == y as int + (k as int) * dy(d as int),
                    k >= 1,
            ;
        }
    }
    let gi = at_exec(g, nx, ny);
    if k >= 1 && gi == c {
        proof {
            assert(run_shape(g@, c, x as int, y as int, d as int, k as int));
        }
        k
    } else {
        proof {
            let xi = x as int;
            let yi = y as int;
            let di = d as int;
            assert forall|n: int| !run_shape(g@, c, xi, yi, di, n) by {
                if run_shape(g@, c, xi, yi, di, n) {
                    if n + 1 <= k {
                        assert(at(g@, xi + (n + 1) * dx(di), yi + #[trigger] ((n + 1) * dy(di)))
                            == c.spec_opponent());
                    } else if n == k {
                        assert(k >= 1);
                        assert(at(g@, xi + (n + 1) * dx(di), yi + (n + 1) * dy(di)) == c);
                    } else {
                        assert(n > k);
                        assert(at(g@, xi + (k + 1) * dx(di), yi + #[trigger] ((k + 1) * dy(di)))
                            == c.spec_opponent());
                    }
                }
            }
        }
        0
    }
}

/// Reads one cell of the grid vector.
fn at_exec(board: &Vec<Color>, x: usize, y: usize) -> (r: Color)
    requires
        board@.len() == 100,
        on_grid(x as int, y as int),
    ensures
        r == at(board@, x as int, y as int),
{
    board[x * 10 + y]
}

/// Runs the legality scanner for every direction and gathers the results
/// into the cell's direction set.
pub fn compute_dirs(board: &Vec<Color>, c: Color, x: usize, y: usize) -> (r: BitVec)
    requires
        grid_ok(board@),
        c.is_player(),
        playable(x as int, y as int),
    ensures
        bits_of(r) == cell_dirs(board@, c, x as int, y as int),
{
    let mut bv = bits_new(9, false);
    if at_exec(board, x, y) != Color::Empty {
        proof {
            assert(bits_of(bv) =~= cell_dirs(board@, c, x as int, y as int));
        }
        return bv;
    }
    let mut d: usize = 0;
    while d < 8
        invariant
            grid_ok(board@),
            c.is_player(),
            playable(x as int, y as int),
            at(board@, x as int, y as int) == Color::Empty,
            d <= 8,
            bits_of(bv).len() == 9,
            forall|i: int|
                0 <= i < 9 ==> #[trigger] bits_of(bv)[i] == (i < d && dir_legal(
                    board@,
                    c,
                    x as int,
                    y as int,
                    i,
                )),
        decreases 8 - d,
    {
        let n = scan_dir(board, c, x, y, d);
        if n > 0 {
            bits_set(&mut bv, d, true);
        } else {
            bits_set(&mut bv, d, false);
        }
        d = d + 1;
    }
    proof {
        assert(bits_of(bv) =~= cell_dirs(board@, c, x as int, y as int));
    }
    bv
}

} // verus!
