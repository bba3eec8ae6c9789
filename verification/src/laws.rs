//! Proved laws of the layout grid.
//!
//! Each proof function here states a property that relates several of the
//! grid operations, over the model in [`crate::grid_model`].

use vstd::prelude::*;

use crate::grid_model::{
    col_min_width, col_min_width_upto, col_occupied, grid_cols, grow_model, has_occupied, is_rect,
    move_model, names_unique, row_min_height, row_min_height_upto, row_occupied,
    col_offset, row_offset, shrink_model, sizes_nonneg,
    all_cols_occupied, all_rows_occupied, sizes_positive,
};
use crate::screen_grid::Screen;

verus! {

/// Every screen in the row has a non-negative width and height.
pub open spec fn row_sizes_nonneg(row: Seq<Option<Screen>>) -> bool {
    forall|j: int| 0 <= j < row.len() && #[trigger] row[j] is Some ==> row[j]->0.width >= 0
        && row[j]->0.height >= 0
}

/// A partial minimum over a row with non-negative heights is non-negative.
pub proof fn lemma_row_min_height_upto_nonneg(row: Seq<Option<Screen>>, j: int)
    requires
        row_sizes_nonneg(row),
        0 <= j <= row.len(),
    ensures
        row_min_height_upto(row, j) matches Some(v) ==> v >= 0,
    decreases j,
{
    if j > 0 {
        lemma_row_min_height_upto_nonneg(row, j - 1);
    }
}

/// A partial minimum over a column with non-negative widths is non-negative.
pub proof fn lemma_col_min_width_upto_nonneg(g: Seq<Seq<Option<Screen>>>, c: int, i: int)
    requires
        is_rect(g),
        sizes_nonneg(g),
        0 <= c < grid_cols(g),
        0 <= i <= g.len(),
    ensures
        col_min_width_upto(g, c, i) matches Some(v) ==> v >= 0,
    decreases i,
{
    if i > 0 {
        lemma_col_min_width_upto_nonneg(g, c, i - 1);
    }
}

/// Row offsets grow monotonically down the grid and start at zero: a monitor
/// in an earlier row is reconstructed at a vertical offset no greater than
/// one in a later row.
pub proof fn lemma_row_offset_monotonic(g: Seq<Seq<Option<Screen>>>, r1: int, r2: int)
    requires
        is_rect(g),
        sizes_nonneg(g),
        0 <= r1 <= r2 <= g.len(),
    ensures
        0 <= row_offset(g, r1) <= row_offset(g, r2),
    decreases r2,
{
    if r2 > 0 {
        assert(row_sizes_nonneg(g[r2 - 1])) by {
            assert forall|j: int|
                0 <= j < g[r2 - 1].len() && #[trigger] g[r2 - 1][j] is Some implies g[r2
                - 1][j]->0.width >= 0 && g[r2 - 1][j]->0.height >= 0 by {
                assert(g[r2 - 1][j] is Some);
            }
        }
        lemma_row_min_height_upto_nonneg(g[r2 - 1], g[r2 - 1].len() as int);
        if r1 == r2 {
            lemma_row_offset_monotonic(g, r2 - 1, r2 - 1);
        } else {
            lemma_row_offset_monotonic(g, r1, r2 - 1);
        }
    }
}

/// Column offsets grow monotonically to the right and start at zero: a
/// monitor in an earlier column is reconstructed at a horizontal offset no
/// greater than one in a later column of the same grid.
pub proof fn lemma_col_offset_monotonic(g: Seq<Seq<Option<Screen>>>, c1: int, c2: int)
    requires
        is_rect(g),
        sizes_nonneg(g),
        0 <= c1 <= c2 <= grid_cols(g),
    ensures
        0 <= col_offset(g, c1) <= col_offset(g, c2),
    decreases c2,
{
    if c2 > 0 {
        lemma_col_min_width_upto_nonneg(g, c2 - 1, g.len() as int);
        if c1 == c2 {
            lemma_col_offset_monotonic(g, c2 - 1, c2 - 1);
        } else {
            lemma_col_offset_monotonic(g, c1, c2 - 1);
        }
    }
}

/// Shrinking a grid with no empty border rows or columns changes nothing.
pub proof fn lemma_shrink_without_border_is_noop(g: Seq<Seq<Option<Screen>>>)
    requires
        is_rect(g),
        g.len() >= 1,
        grid_cols(g) >= 1,
        row_occupied(g[0]),
        row_occupied(g[g.len() - 1]),
        col_occupied(g, 0),
        col_occupied(g, grid_cols(g) - 1),
    ensures
        shrink_model(g) == g,
{
    assert(shrink_model(g).len() == g.len());
    assert forall|i: int| 0 <= i < g.len() implies shrink_model(g)[i] =~= g[i] by {
        assert(g[i].len() == grid_cols(g));
    }
    assert(shrink_model(g) =~~= g);
}

/// Growing the border and then shrinking yields the same grid as shrinking
/// alone: the occupied-cell layout is restored, shifted at most by the one
/// empty border line that shrinking takes off each edge.
pub proof fn lemma_shrink_after_grow_is_shrink(g: Seq<Seq<Option<Screen>>>)
    requires
        is_rect(g),
        g.len() >= 1,
        grid_cols(g) >= 1,
        has_occupied(g),
    ensures
        shrink_model(grow_model(g)) == shrink_model(g),
{
    let gm = grow_model(g);
    let rows = g.len() as int;
    let cols = grid_cols(g);
    let dt: int = if row_occupied(g[0]) { 1 } else { 0 };
    let db: int = if row_occupied(g[rows - 1]) { 1 } else { 0 };
    let dl: int = if col_occupied(g, 0) { 1 } else { 0 };
    let dr: int = if col_occupied(g, cols - 1) { 1 } else { 0 };
    assert(gm.len() == rows + dt + db);
    assert(forall|i: int| 0 <= i < gm.len() ==> #[trigger] gm[i].len() == cols + dl + dr);
    assert(!row_occupied(gm[0])) by {
        if row_occupied(gm[0]) {
            let j = choose|j: int| 0 <= j < gm[0].len() && gm[0][j] is Some;
            assert(dt == 0 && dl <= j < dl + cols);
            assert(g[0][j - dl] is Some);
            assert(row_occupied(g[0]));
        }
    }
    assert(!row_occupied(gm[gm.len() - 1])) by {
        let last = gm[gm.len() - 1];
        if row_occupied(last) {
            let j = choose|j: int| 0 <= j < last.len() && last[j] is Some;
            assert(db == 0 && dl <= j < dl + cols);
            assert(g[rows - 1][j - dl] is Some);
            assert(row_occupied(g[rows - 1]));
        }
    }
    assert(!col_occupied(gm, 0)) by {
        if col_occupied(gm, 0) {
            let i = choose|i: int| 0 <= i < gm.len() && gm[i][0] is Some;
            assert(dl == 0 && dt <= i < dt + rows);
            assert(g[i - dt][0] is Some);
            assert(col_occupied(g, 0));
        }
    }
    assert(!col_occupied(gm, grid_cols(gm) - 1)) by {
        if col_occupied(gm, grid_cols(gm) - 1) {
            let i = choose|i: int| 0 <= i < gm.len() && gm[i][grid_cols(gm) - 1] is Some;
            assert(dr == 0 && dt <= i < dt + rows);
            assert(g[i - dt][cols - 1] is Some);
            assert(col_occupied(g, cols - 1));
        }
    }
    let lhs = shrink_model(gm);
    let rhs = shrink_model(g);
    assert(lhs.len() == rows + dt + db - 2);
    assert(rhs.len() == rows - (1 - dt) - (1 - db));
    assert forall|i: int| 0 <= i < lhs.len() implies lhs[i] =~= rhs[i] by {
        assert forall|j: int| 0 <= j < cols + dl + dr - 2 implies lhs[i][j] == rhs[i][j] by {
            assert(lhs[i][j] == gm[i + 1][j + 1]);
            assert(gm[i + 1][j + 1] == g[i + 1 - dt][j + 1 - dl]);
            assert(rhs[i][j] == g[i + (1 - dt)][j + (1 - dl)]);
        }
    }
    assert(lhs =~~= rhs);
}

/// Growing the border never duplicates a monitor: each name still appears in
/// at most one cell.
pub proof fn lemma_grow_preserves_single_occupancy(g: Seq<Seq<Option<Screen>>>)
    requires
        is_rect(g),
        g.len() >= 1,
        grid_cols(g) >= 1,
        names_unique(g),
    ensures
        names_unique(grow_model(g)),
{
    let gm = grow_model(g);
    let rows = g.len() as int;
    let cols = grid_cols(g);
    let dt: int = if row_occupied(g[0]) { 1 } else { 0 };
    let dl: int = if col_occupied(g, 0) { 1 } else { 0 };
    assert forall|r1: int, c1: int, r2: int, c2: int|
        0 <= r1 < gm.len() && 0 <= c1 < gm[r1].len() && 0 <= r2 < gm.len() && 0 <= c2
            < gm[r2].len() && #[trigger] gm[r1][c1] is Some && #[trigger] gm[r2][c2] is Some
            && gm[r1][c1]->0.name@ == gm[r2][c2]->0.name@ implies r1 == r2 && c1 == c2 by {
        assert(dt <= r1 < dt + rows && dl <= c1 < dl + cols);
        assert(dt <= r2 < dt + rows && dl <= c2 < dl + cols);
        assert(gm[r1][c1] == g[r1 - dt][c1 - dl]);
        assert(gm[r2][c2] == g[r2 - dt][c2 - dl]);
        assert(g[r1 - dt][c1 - dl] is Some && g[r2 - dt][c2 - dl] is Some);
    }
}

/// Shrinking the border never duplicates a monitor: each name still appears
/// in at most one cell.
pub proof fn lemma_shrink_preserves_single_occupancy(g: Seq<Seq<Option<Screen>>>)
    requires
        is_rect(g),
        g.len() >= 1,
        grid_cols(g) >= 1,
        has_occupied(g),
        names_unique(g),
    ensures
        names_unique(shrink_model(g)),
{
    let gm = shrink_model(g);
    let rows = g.len() as int;
    let cols = grid_cols(g);
    let dt: int = if row_occupied(g[0]) { 0 } else { 1 };
    let dl: int = if col_occupied(g, 0) { 0 } else { 1 };
    assert forall|r1: int, c1: int, r2: int, c2: int|
        0 <= r1 < gm.len() && 0 <= c1 < gm[r1].len() && 0 <= r2 < gm.len() && 0 <= c2
            < gm[r2].len() && #[trigger] gm[r1][c1] is Some && #[trigger] gm[r2][c2] is Some
            && gm[r1][c1]->0.name@ == gm[r2][c2]->0.name@ implies r1 == r2 && c1 == c2 by {
        let db: int = if row_occupied(g[rows - 1]) {
            0
        } else {
            1
        };
        let dr2: int = if col_occupied(g, cols - 1) {
            0
        } else {
            1
        };
        assert(gm.len() == (rows - dt - db) as nat);
        assert(gm[r1].len() == (cols - dl - dr2) as nat);
        assert(gm[r2].len() == (cols - dl - dr2) as nat);
        let io = choose|k: int| 0 <= k < g.len() && row_occupied(#[trigger] g[k]);
        let jo = choose|j: int| 0 <= j < g[io].len() && g[io][j] is Some;
        assert(0 <= jo < cols && g[io][jo] is Some);
        assert(dt <= io <= rows - 1 - db);
        assert(dl <= jo <= cols - 1 - dr2);
        assert(rows - dt - db >= 1);
        assert(cols - dl - dr2 >= 1);
        assert(0 <= r1 + dt < g.len() && 0 <= c1 + dl < g[r1 + dt].len());
        assert(0 <= r2 + dt < g.len() && 0 <= c2 + dl < g[r2 + dt].len());
        assert(gm[r1][c1] == g[r1 + dt][c1 + dl]);
        assert(gm[r2][c2] == g[r2 + dt][c2 + dl]);
        assert(g[r1 + dt][c1 + dl] is Some && g[r2 + dt][c2 + dl] is Some);
    }
}

/// Moving a cell never duplicates a monitor: each name still appears in at
/// most one cell. The destination's prior contents are discarded, never
/// copied.
pub proof fn lemma_move_preserves_single_occupancy(
    g: Seq<Seq<Option<Screen>>>,
    sr: int,
    sc: int,
    dr: int,
    dc: int,
)
    requires
        is_rect(g),
        0 <= sr < g.len(),
        0 <= dr < g.len(),
        0 <= sc < grid_cols(g),
        0 <= dc < grid_cols(g),
        names_unique(g),
    ensures
        names_unique(move_model(g, sr, sc, dr, dc)),
{
    let gm = move_model(g, sr, sc, dr, dc);
    assert(gm.len() == g.len());
    assert forall|r1: int, c1: int, r2: int, c2: int|
        0 <= r1 < gm.len() && 0 <= c1 < gm[r1].len() && 0 <= r2 < gm.len() && 0 <= c2
            < gm[r2].len() && #[trigger] gm[r1][c1] is Some && #[trigger] gm[r2][c2] is Some
            && gm[r1][c1]->0.name@ == gm[r2][c2]->0.name@ implies r1 == r2 && c1 == c2 by {
        let s1 = if r1 == dr && c1 == dc {
            (sr, sc)
        } else {
            (r1, c1)
        };
        let s2 = if r2 == dr && c2 == dc {
            (sr, sc)
        } else {
            (r2, c2)
        };
        assert(gm[r1][c1] == g[s1.0][s1.1]);
        assert(gm[r2][c2] == g[s2.0][s2.1]);
        assert(g[s1.0][s1.1] is Some && g[s2.0][s2.1] is Some);
        assert(s1 == s2);
    }
}


/// A column that holds a screen somewhere in its first `i` rows has a
/// minimum width there.
proof fn lemma_col_min_width_upto_some(g: Seq<Seq<Option<Screen>>>, c: int, i: int)
    requires
        0 <= i <= g.len(),
        exists|k: int| 0 <= k < i && #[trigger] g[k][c] is Some,
    ensures
        col_min_width_upto(g, c, i) is Some,
    decreases i,
{
    if i > 0 {
        if g[i - 1][c] is Some {
        } else {
            let k = choose|k: int| 0 <= k < i && #[trigger] g[k][c] is Some;
            assert(0 <= k < i - 1 && g[k][c] is Some);
            lemma_col_min_width_upto_some(g, c, i - 1);
        }
    }
}

/// A partial minimum over a column with positive widths is positive.
proof fn lemma_col_min_width_upto_pos(g: Seq<Seq<Option<Screen>>>, c: int, i: int)
    requires
        is_rect(g),
        sizes_positive(g),
        0 <= c < grid_cols(g),
        0 <= i <= g.len(),
    ensures
        col_min_width_upto(g, c, i) matches Some(v) ==> v >= 1,
    decreases i,
{
    if i > 0 {
        lemma_col_min_width_upto_pos(g, c, i - 1);
    }
}

/// With every column occupied and all widths positive, column offsets grow
/// strictly to the right.
proof fn lemma_col_offset_strict(g: Seq<Seq<Option<Screen>>>, c1: int, c2: int)
    requires
        is_rect(g),
        sizes_positive(g),
        all_cols_occupied(g),
        0 <= c1 < c2 <= grid_cols(g),
    ensures
        col_offset(g, c1) < col_offset(g, c2),
    decreases c2,
{
    assert(col_occupied(g, c2 - 1));
    let k = choose|k: int| 0 <= k < g.len() && g[k][c2 - 1] is Some;
    assert(0 <= k < g.len() && g[k][c2 - 1] is Some);
    lemma_col_min_width_upto_some(g, c2 - 1, g.len() as int);
    lemma_col_min_width_upto_pos(g, c2 - 1, g.len() as int);
    assert(col_min_width(g, c2 - 1) >= 1);
    if c1 < c2 - 1 {
        lemma_col_offset_strict(g, c1, c2 - 1);
    }
}

/// A row that holds a screen somewhere in its first `j` cells has a minimum
/// height there.
proof fn lemma_row_min_height_upto_some(row: Seq<Option<Screen>>, j: int)
    requires
        0 <= j <= row.len(),
        exists|q: int| 0 <= q < j && #[trigger] row[q] is Some,
    ensures
        row_min_height_upto(row, j) is Some,
    decreases j,
{
    if j > 0 {
        if row[j - 1] is Some {
        } else {
            let q = choose|q: int| 0 <= q < j && #[trigger] row[q] is Some;
            assert(0 <= q < j - 1 && row[q] is Some);
            lemma_row_min_height_upto_some(row, j - 1);
        }
    }
}

/// A partial minimum over a row with positive heights is positive.
proof fn lemma_row_min_height_upto_pos(row: Seq<Option<Screen>>, j: int)
    requires
        forall|q: int| 0 <= q < row.len() && #[trigger] row[q] is Some ==> row[q]->0.height >= 1,
        0 <= j <= row.len(),
    ensures
        row_min_height_upto(row, j) matches Some(v) ==> v >= 1,
    decreases j,
{
    if j > 0 {
        lemma_row_min_height_upto_pos(row, j - 1);
    }
}

/// With every row occupied and all heights positive, row offsets grow
/// strictly downwards.
proof fn lemma_row_offset_strict(g: Seq<Seq<Option<Screen>>>, r1: int, r2: int)
    requires
        is_rect(g),
        sizes_positive(g),
        all_rows_occupied(g),
        0 <= r1 < r2 <= g.len(),
    ensures
        row_offset(g, r1) < row_offset(g, r2),
    decreases r2,
{
    assert(row_occupied(g[r2 - 1]));
    lemma_row_min_height_upto_some(g[r2 - 1], g[r2 - 1].len() as int);
    assert forall|q: int|
        0 <= q < g[r2 - 1].len() && #[trigger] g[r2 - 1][q] is Some implies g[r2 - 1][q]->0.height
        >= 1 by {
        assert(g[r2 - 1][q] is Some);
    }
    lemma_row_min_height_upto_pos(g[r2 - 1], g[r2 - 1].len() as int);
    assert(row_min_height(g[r2 - 1]) >= 1);
    if r1 < r2 - 1 {
        lemma_row_offset_strict(g, r1, r2 - 1);
    }
}

/// Rebuilding from the reconstructed output reproduces the grid shape: on a
/// grid whose every row and column holds a screen and whose sizes are
/// positive, such as a freshly built one, distinct columns get distinct
/// horizontal offsets in column order and distinct rows get distinct vertical
/// offsets in row order, so grouping the reconstructed screens by their exact
/// coordinates recreates the same rows and columns.
pub proof fn lemma_rebuild_reproduces_shape(g: Seq<Seq<Option<Screen>>>)
    requires
        is_rect(g),
        sizes_positive(g),
        all_rows_occupied(g),
        all_cols_occupied(g),
    ensures
        forall|c1: int, c2: int|
            #![trigger col_offset(g, c1), col_offset(g, c2)]
            0 <= c1 <= grid_cols(g) && 0 <= c2 <= grid_cols(g) ==> ((col_offset(g, c1)
                < col_offset(g, c2)) <==> c1 < c2),
        forall|r1: int, r2: int|
            #![trigger row_offset(g, r1), row_offset(g, r2)]
            0 <= r1 <= g.len() && 0 <= r2 <= g.len() ==> ((row_offset(g, r1) < row_offset(g, r2))
                <==> r1 < r2),
{
    assert forall|c1: int, c2: int|
        #![trigger col_offset(g, c1), col_offset(g, c2)]
        0 <= c1 <= grid_cols(g) && 0 <= c2 <= grid_cols(g) implies ((col_offset(g, c1)
        < col_offset(g, c2)) <==> c1 < c2) by {
        if c1 < c2 {
            lemma_col_offset_strict(g, c1, c2);
        }
        if c2 < c1 {
            lemma_col_offset_strict(g, c2, c1);
        }
    }
    assert forall|r1: int, r2: int|
        #![trigger row_offset(g, r1), row_offset(g, r2)]
        0 <= r1 <= g.len() && 0 <= r2 <= g.len() implies ((row_offset(g, r1) < row_offset(g, r2))
        <==> r1 < r2) by {
        if r1 < r2 {
            lemma_row_offset_strict(g, r1, r2);
        }
        if r2 < r1 {
            lemma_row_offset_strict(g, r2, r1);
        }
    }
}

} // verus!
