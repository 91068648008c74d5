//! The bordered grid model: a flat sequence of 100 cells standing for a
//! 10x10 array, cell (x, y) at index `x * 10 + y`. Rows and columns 0 and 9
//! form the permanent Wall border around the 8x8 playable area.

use vstd::prelude::*;
use crate::Color;

verus! {

/// Index of cell (x, y) in the flat grid sequence.
pub open spec fn idx(x: int, y: int) -> int {
    x * 10 + y
}

/// The coordinate lies somewhere on the bordered 10x10 grid.
pub open spec fn on_grid(x: int, y: int) -> bool {
    0 <= x <= 9 && 0 <= y <= 9
}

/// The coordinate is one of the 64 playable cells.
pub open spec fn playable(x: int, y: int) -> bool {
    1 <= x <= 8 && 1 <= y <= 8
}

/// The color of cell (x, y).
pub open spec fn at(g: Seq<Color>, x: int, y: int) -> Color {
    g[x * 10 + y]
}

/// A well-formed grid: 100 cells, Wall exactly on the border ring.
pub open spec fn grid_ok(g: Seq<Color>) -> bool {
    &&& g.len() == 100
    &&& forall|x: int, y: int|
        on_grid(x, y) && !playable(x, y) ==> #[trigger] at(g, x, y) == Color::Wall
    &&& forall|x: int, y: int| playable(x, y) ==> #[trigger] at(g, x, y) != Color::Wall
}

/// Distinct on-grid coordinates have distinct flat indices.
pub proof fn lemma_idx_injective(x1: int, y1: int, x2: int, y2: int)
    requires
        on_grid(x1, y1),
        on_grid(x2, y2),
        x1 != x2 || y1 != y2,
    ensures
        idx(x1, y1) != idx(x2, y2),
{
}

/// Number of cells of color `c` among (x, 1) .. (x, n) of row x.
pub open spec fn row_count(g: Seq<Color>, c: Color, x: int, n: int) -> int
    decreases n,
{
    if n <= 0 {
        0
    } else {
        row_count(g, c, x, n - 1) + if at(g, x, n) == c {
            1int
        } else {
            0int
        }
    }
}

/// Number of cells of color `c` in playable rows 1 ..= m.
pub open spec fn grid_count_upto(g: Seq<Color>, c: Color, m: int) -> int
    decreases m,
{
    if m <= 0 {
        0
    } else {
        grid_count_upto(g, c, m - 1) + row_count(g, c, m, 8)
    }
}

/// Number of playable cells holding color `c`.
pub open spec fn count_of(g: Seq<Color>, c: Color) -> int {
    grid_count_upto(g, c, 8)
}

pub proof fn lemma_row_count_bounds(g: Seq<Color>, c: Color, x: int, n: int)
    ensures
        0 <= row_count(g, c, x, n) <= if n <= 0 {
            0int
        } else {
            n
        },
    decreases n,
{
    if n > 0 {
        lemma_row_count_bounds(g, c, x, n - 1);
    }
}

pub proof fn lemma_grid_count_bounds(g: Seq<Color>, c: Color, m: int)
    ensures
        0 <= grid_count_upto(g, c, m) <= if m <= 0 {
            0int
        } else {
            8 * m
        },
    decreases m,
{
    if m > 0 {
        lemma_grid_count_bounds(g, c, m - 1);
        lemma_row_count_bounds(g, c, m, 8);
    }
}

proof fn lemma_row_counts_sum(g: Seq<Color>, x: int, n: int)
    requires
        forall|y: int| 1 <= y <= n ==> #[trigger] at(g, x, y) != Color::Wall,
    ensures
        row_count(g, Color::Black, x, n) + row_count(g, Color::White, x, n) + row_count(
            g,
            Color::Empty,
            x,
            n,
        ) == if n <= 0 {
            0int
        } else {
            n
        },
    decreases n,
{
    if n > 0 {
        lemma_row_counts_sum(g, x, n - 1);
        let cell = at(g, x, n);
        assert(cell == Color::Black || cell == Color::White || cell == Color::Empty);
    }
}

/// On a well-formed grid the per-color counts of Black, White and Empty
/// always sum to the 64 playable cells.
pub proof fn lemma_counts_sum_64(g: Seq<Color>)
    requires
        grid_ok(g),
    ensures
        count_of(g, Color::Black) + count_of(g, Color::White) + count_of(g, Color::Empty) == 64,
{
    lemma_grid_counts_sum(g, 8);
}

proof fn lemma_grid_counts_sum(g: Seq<Color>, m: int)
    requires
        grid_ok(g),
        m <= 8,
    ensures
        grid_count_upto(g, Color::Black, m) + grid_count_upto(g, Color::White, m)
            + grid_count_upto(g, Color::Empty, m) == if m <= 0 {
            0int
        } else {
            8 * m
        },
    decreases m,
{
    if m > 0 {
        lemma_grid_counts_sum(g, m - 1);
        assert forall|y: int| 1 <= y <= 8 implies #[trigger] at(g, m, y) != Color::Wall by {
            assert(playable(m, y));
        }
        lemma_row_counts_sum(g, m, 8);
    }
}

proof fn lemma_row_count_same(g1: Seq<Color>, g2: Seq<Color>, c: Color, x: int, n: int)
    requires
        n <= 9,
        forall|y: int| 1 <= y <= n ==> #[trigger] at(g1, x, y) == at(g2, x, y),
    ensures
        row_count(g1, c, x, n) == row_count(g2, c, x, n),
    decreases n,
{
    if n > 0 {
        lemma_row_count_same(g1, g2, c, x, n - 1);
    }
}

proof fn lemma_row_count_update(g: Seq<Color>, c: Color, x: int, y: int, b: Color, n: int)
    requires
        g.len() == 100,
        playable(x, y),
        0 <= n <= 8,
        y <= n,
    ensures
        row_count(g.update(idx(x, y), b), c, x, n) == row_count(g, c, x, n) + (if c == b {
            1int
        } else {
            0int
        }) - (if at(g, x, y) == c {
            1int
        } else {
            0int
        }),
    decreases n,
{
    let g2 = g.update(idx(x, y), b);
    if n > 0 {
        if y == n {
            assert(at(g2, x, n) == b);
            assert forall|yy: int| 1 <= yy <= n - 1 implies #[trigger] at(g, x, yy) == at(
                g2,
                x,
                yy,
            ) by {
                lemma_idx_injective(x, y, x, yy);
            }
            lemma_row_count_same(g, g2, c, x, n - 1);
        } else {
            lemma_row_count_update(g, c, x, y, b, n - 1);
            lemma_idx_injective(x, y, x, n);
            assert(at(g2, x, n) == at(g, x, n));
        }
    }
}

/// Overwriting one playable cell moves one unit of count from the old color
/// to the new one.
pub proof fn lemma_count_update(g: Seq<Color>, c: Color, x: int, y: int, b: Color)
    requires
        g.len() == 100,
        playable(x, y),
    ensures
        count_of(g.update(idx(x, y), b), c) == count_of(g, c) + (if c == b {
            1int
        } else {
            0int
        }) - (if at(g, x, y) == c {
            1int
        } else {
            0int
        }),
{
    lemma_grid_count_update(g, c, x, y, b, 8);
}

proof fn lemma_grid_count_update(g: Seq<Color>, c: Color, x: int, y: int, b: Color, m: int)
    requires
        g.len() == 100,
        playable(x, y),
        0 <= m <= 8,
        x <= m,
    ensures
        grid_count_upto(g.update(idx(x, y), b), c, m) == grid_count_upto(g, c, m) + (if c == b {
            1int
        } else {
            0int
        }) - (if at(g, x, y) == c {
            1int
        } else {
            0int
        }),
    decreases m,
{
    let g2 = g.update(idx(x, y), b);
    if m > 0 {
        if x == m {
            lemma_row_count_update(g, c, x, y, b, 8);
            lemma_grid_count_same(g, g2, c, x, y, m - 1);
        } else {
            lemma_grid_count_update(g, c, x, y, b, m - 1);
            assert forall|yy: int| 1 <= yy <= 8 implies #[trigger] at(g, m, yy) == at(
                g2,
                m,
                yy,
            ) by {
                lemma_idx_injective(x, y, m, yy);
            }
            lemma_row_count_same(g, g2, c, m, 8);
        }
    }
}

proof fn lemma_grid_count_same(g: Seq<Color>, g2: Seq<Color>, c: Color, x: int, y: int, m: int)
    requires
        playable(x, y),
        g.len() == 100,
        g2 == g.update(idx(x, y), at(g2, x, y)),
        0 <= m <= 8,
        m < x,
    ensures
        grid_count_upto(g2, c, m) == grid_count_upto(g, c, m),
    decreases m,
{
    if m > 0 {
        lemma_grid_count_same(g, g2, c, x, y, m - 1);
        assert forall|yy: int| 1 <= yy <= 8 implies #[trigger] at(g, m, yy) == at(g2, m, yy) by {
            lemma_idx_injective(x, y, m, yy);
        }
        lemma_row_count_same(g, g2, c, m, 8);
    }
}

proof fn lemma_row_count_pos(g: Seq<Color>, c: Color, x: int, y: int, n: int)
    requires
        1 <= y <= n,
        at(g, x, y) == c,
    ensures
        row_count(g, c, x, n) >= 1,
    decreases n,
{
    lemma_row_count_bounds(g, c, x, n - 1);
    if y < n {
        lemma_row_count_pos(g, c, x, y, n - 1);
    }
}

proof fn lemma_grid_count_pos(g: Seq<Color>, c: Color, x: int, y: int, m: int)
    requires
        1 <= x <= m,
        1 <= y <= 8,
        at(g, x, y) == c,
    ensures
        grid_count_upto(g, c, m) >= 1,
    decreases m,
{
    lemma_row_count_bounds(g, c, m, 8);
    if x < m {
        lemma_grid_count_pos(g, c, x, y, m - 1);
    } else {
        lemma_row_count_pos(g, c, x, y, 8);
        lemma_grid_count_bounds(g, c, m - 1);
    }
}

/// A color that appears on some playable cell has a positive count.
pub proof fn lemma_count_pos(g: Seq<Color>, c: Color, x: int, y: int)
    requires
        playable(x, y),
        at(g, x, y) == c,
    ensures
        count_of(g, c) >= 1,
{
    lemma_grid_count_pos(g, c, x, y, 8);
}

/// A grid whose playable cells are all Empty counts 64 Empty, 0 Black, 0 White.
pub proof fn lemma_count_uniform_empty(g: Seq<Color>)
    requires
        g.len() == 100,
        forall|x: int, y: int| playable(x, y) ==> #[trigger] at(g, x, y) == Color::Empty,
    ensures
        count_of(g, Color::Empty) == 64,
        count_of(g, Color::Black) == 0,
        count_of(g, Color::White) == 0,
{
    lemma_grid_count_uniform(g, Color::Empty, 8);
    lemma_grid_count_uniform(g, Color::Black, 8);
    lemma_grid_count_uniform(g, Color::White, 8);
}

proof fn lemma_row_count_uniform(g: Seq<Color>, c: Color, x: int, n: int)
    requires
        1 <= x <= 8,
        0 <= n <= 8,
        forall|xx: int, yy: int| playable(xx, yy) ==> #[trigger] at(g, xx, yy) == Color::Empty,
    ensures
        row_count(g, c, x, n) == if c == Color::Empty {
            n
        } else {
            0int
        },
    decreases n,
{
    if n > 0 {
        lemma_row_count_uniform(g, c, x, n - 1);
        assert(playable(x, n));
    }
}

proof fn lemma_grid_count_uniform(g: Seq<Color>, c: Color, m: int)
    requires
        0 <= m <= 8,
        forall|xx: int, yy: int| playable(xx, yy) ==> #[trigger] at(g, xx, yy) == Color::Empty,
    ensures
        grid_count_upto(g, c, m) == if c == Color::Empty {
            8 * m
        } else {
            0int
        },
    decreases m,
{
    if m > 0 {
        lemma_grid_count_uniform(g, c, m - 1);
        lemma_row_count_uniform(g, c, m, 8);
    }
}

} // verus!
