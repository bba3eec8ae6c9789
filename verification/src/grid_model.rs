//! The mathematical model of the layout grid.
//!
//! A grid is modelled as a sequence of rows, each row a sequence of optional
//! screens. The functions here describe grid shapes, occupancy, the border
//! transformations, cell moves, and the coordinate reconstruction sums; the
//! executable operations state their contracts in these terms.

use vstd::prelude::*;

use crate::screen_grid::Screen;

verus! {

/// The number of columns of a grid: the length of its first row.
pub open spec fn grid_cols(g: Seq<Seq<Option<Screen>>>) -> int {
    if g.len() == 0 {
        0
    } else {
        g[0].len() as int
    }
}

/// The grid is rectangular: every row has the same length.
pub open spec fn is_rect(g: Seq<Seq<Option<Screen>>>) -> bool {
    forall|i: int| 0 <= i < g.len() ==> #[trigger] g[i].len() == grid_cols(g)
}

/// Some cell of the row holds a screen.
pub open spec fn row_occupied(row: Seq<Option<Screen>>) -> bool {
    exists|j: int| 0 <= j < row.len() && row[j] is Some
}

/// Some cell of column `c` holds a screen.
pub open spec fn col_occupied(g: Seq<Seq<Option<Screen>>>, c: int) -> bool {
    exists|i: int| 0 <= i < g.len() && g[i][c] is Some
}

/// Some cell of the grid holds a screen.
pub open spec fn has_occupied(g: Seq<Seq<Option<Screen>>>) -> bool {
    exists|i: int| 0 <= i < g.len() && row_occupied(#[trigger] g[i])
}

/// Each monitor name appears in at most one cell.
pub open spec fn names_unique(g: Seq<Seq<Option<Screen>>>) -> bool {
    forall|r1: int, c1: int, r2: int, c2: int|
        0 <= r1 < g.len() && 0 <= c1 < g[r1].len() && 0 <= r2 < g.len() && 0 <= c2 < g[r2].len()
            && #[trigger] g[r1][c1] is Some && #[trigger] g[r2][c2] is Some
            && g[r1][c1]->0.name@ == g[r2][c2]->0.name@ ==> r1 == r2 && c1 == c2
}

/// An all-empty row of the given width (zero width gives the empty row).
pub open spec fn empty_row_model(cols: int) -> Seq<Option<Screen>> {
    Seq::new(if cols >= 0 { cols as nat } else { 0 }, |j: int| None::<Screen>)
}

/// The grid after growing the border: a new all-empty row is prepended when
/// the first row holds a screen, appended when the last row does, and a new
/// all-empty column is prepended or appended likewise; all four tests look at
/// the grid as it was before the call.
pub open spec fn grow_model(g: Seq<Seq<Option<Screen>>>) -> Seq<Seq<Option<Screen>>> {
    let dt: int = if row_occupied(g[0]) { 1 } else { 0 };
    let db: int = if row_occupied(g[g.len() - 1]) { 1 } else { 0 };
    let dl: int = if col_occupied(g, 0) { 1 } else { 0 };
    let dr: int = if col_occupied(g, grid_cols(g) - 1) { 1 } else { 0 };
    Seq::new(
        (g.len() + dt + db) as nat,
        |i: int|
            Seq::new(
                (grid_cols(g) + dl + dr) as nat,
                |j: int|
                    if dt <= i < dt + g.len() && dl <= j < dl + grid_cols(g) {
                        g[i - dt][j - dl]
                    } else {
                        None
                    },
            ),
    )
}

/// The grid after shrinking the border: the first or last row disappears when
/// it is fully empty, and the first or last column disappears when no row
/// holds a screen there; all four tests look at the grid as it was before the
/// call.
pub open spec fn shrink_model(g: Seq<Seq<Option<Screen>>>) -> Seq<Seq<Option<Screen>>> {
    let dt: int = if row_occupied(g[0]) { 0 } else { 1 };
    let db: int = if row_occupied(g[g.len() - 1]) { 0 } else { 1 };
    let dl: int = if col_occupied(g, 0) { 0 } else { 1 };
    let dr: int = if col_occupied(g, grid_cols(g) - 1) { 0 } else { 1 };
    Seq::new(
        (g.len() - dt - db) as nat,
        |i: int|
            Seq::new((grid_cols(g) - dl - dr) as nat, |j: int| g[i + dt][j + dl]),
    )
}

/// The grid after moving the contents of cell `(sr, sc)` into cell
/// `(dr, dc)`: the source cell is first emptied, then the destination cell
/// takes the source cell's prior value. Moving a cell onto itself leaves the
/// grid unchanged.
pub open spec fn move_model(
    g: Seq<Seq<Option<Screen>>>,
    sr: int,
    sc: int,
    dr: int,
    dc: int,
) -> Seq<Seq<Option<Screen>>> {
    let cleared = g.update(sr, g[sr].update(sc, None));
    cleared.update(dr, cleared[dr].update(dc, g[sr][sc]))
}

/// The smaller of a running minimum and a new value.
pub open spec fn opt_min(m: Option<int>, v: int) -> Option<int> {
    match m {
        None => Some(v),
        Some(x) => Some(if v < x { v } else { x }),
    }
}

/// The minimum height among the screens in the first `j` cells of a row, or
/// `None` when all of them are empty.
pub open spec fn row_min_height_upto(row: Seq<Option<Screen>>, j: int) -> Option<int>
    decreases j,
{
    if j <= 0 {
        None
    } else {
        match row[j - 1] {
            None => row_min_height_upto(row, j - 1),
            Some(s) => opt_min(row_min_height_upto(row, j - 1), s.height as int),
        }
    }
}

/// The minimum height among the screens in a row, or zero for an all-empty
/// row.
pub open spec fn row_min_height(row: Seq<Option<Screen>>) -> int {
    match row_min_height_upto(row, row.len() as int) {
        None => 0,
        Some(v) => v,
    }
}

/// The minimum width among the screens in the first `i` rows of column `c`,
/// or `None` when all of those cells are empty.
pub open spec fn col_min_width_upto(g: Seq<Seq<Option<Screen>>>, c: int, i: int) -> Option<int>
    decreases i,
{
    if i <= 0 {
        None
    } else {
        match g[i - 1][c] {
            None => col_min_width_upto(g, c, i - 1),
            Some(s) => opt_min(col_min_width_upto(g, c, i - 1), s.width as int),
        }
    }
}

/// The minimum width among the screens in column `c`, or zero for an
/// all-empty column.
pub open spec fn col_min_width(g: Seq<Seq<Option<Screen>>>, c: int) -> int {
    match col_min_width_upto(g, c, g.len() as int) {
        None => 0,
        Some(v) => v,
    }
}

/// The vertical pixel offset of row `r`: the sum, over the rows above it, of
/// each row's minimum screen height.
pub open spec fn row_offset(g: Seq<Seq<Option<Screen>>>, r: int) -> int
    decreases r,
{
    if r <= 0 {
        0
    } else {
        row_offset(g, r - 1) + row_min_height(g[r - 1])
    }
}

/// The horizontal pixel offset of column `c`: the sum, over the columns to
/// its left, of each column's minimum screen width.
pub open spec fn col_offset(g: Seq<Seq<Option<Screen>>>, c: int) -> int
    decreases c,
{
    if c <= 0 {
        0
    } else {
        col_offset(g, c - 1) + col_min_width(g, c - 1)
    }
}

/// Every screen in the grid has a non-negative width and height.
pub open spec fn sizes_nonneg(g: Seq<Seq<Option<Screen>>>) -> bool {
    forall|i: int, j: int|
        0 <= i < g.len() && 0 <= j < g[i].len() && #[trigger] g[i][j] is Some ==> g[i][j]->0.width
            >= 0 && g[i][j]->0.height >= 0
}

/// Every screen in the grid is at least one pixel wide and one pixel high.
pub open spec fn sizes_positive(g: Seq<Seq<Option<Screen>>>) -> bool {
    forall|i: int, j: int|
        0 <= i < g.len() && 0 <= j < g[i].len() && #[trigger] g[i][j] is Some ==> g[i][j]->0.width
            >= 1 && g[i][j]->0.height >= 1
}

/// The number of occupied cells among the first `j` cells of a row.
pub open spec fn row_occ_upto(row: Seq<Option<Screen>>, j: int) -> int
    decreases j,
{
    if j <= 0 {
        0
    } else {
        row_occ_upto(row, j - 1) + if row[j - 1] is Some {
            1int
        } else {
            0int
        }
    }
}

/// The number of occupied cells in the first `r` full rows of the grid.
pub open spec fn grid_occ_upto(g: Seq<Seq<Option<Screen>>>, r: int) -> int
    decreases r,
{
    if r <= 0 {
        0
    } else {
        grid_occ_upto(g, r - 1) + row_occ_upto(g[r - 1], g[r - 1].len() as int)
    }
}

/// The position of the occupied cell `(r, c)` in a row-major walk of the
/// occupied cells.
pub open spec fn occ_index(g: Seq<Seq<Option<Screen>>>, r: int, c: int) -> int {
    grid_occ_upto(g, r) + row_occ_upto(g[r], c)
}

/// Some occupied cell of the grid sits at position `k` of a row-major walk
/// of the occupied cells.
pub open spec fn some_cell_has_occ_index(g: Seq<Seq<Option<Screen>>>, k: int) -> bool {
    exists|r: int, c: int|
        0 <= r < g.len() && 0 <= c < g[r].len() && #[trigger] g[r][c] is Some && occ_index(g, r, c)
            == k
}

/// The grouping key of a screen: its `x` position when columns are formed,
/// its `y` position when rows are formed.
pub open spec fn key_of(s: Screen, by_x: bool) -> int {
    if by_x {
        s.x as int
    } else {
        s.y as int
    }
}

/// All names in the sequence are distinct.
pub open spec fn distinct_names(ss: Seq<Screen>) -> bool {
    forall|i: int, j: int|
        0 <= i < ss.len() && 0 <= j < ss.len() && i != j ==> #[trigger] ss[i].name@
            != #[trigger] ss[j].name@
}

/// The screen occurs in the sequence.
pub open spec fn member_of(ss: Seq<Screen>, s: Screen) -> bool {
    exists|i: int| 0 <= i < ss.len() && ss[i] == s
}

/// The screen occurs in one of the groups.
pub open spec fn appears_in_groups(gs: Seq<Seq<Screen>>, s: Screen) -> bool {
    exists|gi: int, p: int| 0 <= gi < gs.len() && 0 <= p < gs[gi].len() && #[trigger] gs[gi][p] == s
}

/// The groups as plain sequences.
pub open spec fn groups_view(groups: Seq<Vec<Screen>>) -> Seq<Seq<Screen>> {
    groups.map_values(|g: Vec<Screen>| g@)
}

/// The groups partition the screens by their exact grouping key: every group
/// is non-empty and uniform in its key, the groups stand in strictly
/// ascending key order, each group is sorted by the opposite key, every group
/// member comes from the input, every input screen lands in a group, and the
/// groups together hold exactly as many screens as the input.
#[verifier::opaque]
pub open spec fn grouping_ok(screens: Seq<Screen>, gs: Seq<Seq<Screen>>, by_x: bool) -> bool {
    &&& forall|gi: int| 0 <= gi < gs.len() ==> #[trigger] gs[gi].len() >= 1
    &&& forall|gi: int, p: int|
        0 <= gi < gs.len() && 0 <= p < gs[gi].len() ==> key_of(#[trigger] gs[gi][p], by_x)
            == key_of(gs[gi][0], by_x)
    &&& forall|gi: int, gj: int|
        #![trigger gs[gi], gs[gj]]
        0 <= gi < gj < gs.len() ==> key_of(gs[gi][0], by_x) < key_of(gs[gj][0], by_x)
    &&& forall|gi: int, p: int, q: int|
        #![trigger gs[gi][p], gs[gi][q]]
        0 <= gi < gs.len() && 0 <= p < q < gs[gi].len() ==> key_of(gs[gi][p], !by_x) <= key_of(
            gs[gi][q],
            !by_x,
        )
    &&& forall|gi: int, p: int|
        0 <= gi < gs.len() && 0 <= p < gs[gi].len() ==> member_of(
            screens,
            #[trigger] gs[gi][p],
        )
    &&& forall|i: int| 0 <= i < screens.len() ==> appears_in_groups(gs, #[trigger] screens[i])
    &&& total_len(gs) == screens.len()
}

/// Some occupied cell holds a screen at the same position as `t`.
pub open spec fn grid_holds_position_of(g: Seq<Seq<Option<Screen>>>, t: Screen) -> bool {
    exists|r: int, c: int|
        0 <= r < g.len() && 0 <= c < g[r].len() && #[trigger] g[r][c] is Some && g[r][c]->0.x == t.x
            && g[r][c]->0.y == t.y
}

/// Row indices follow the screens' `y` positions and column indices follow
/// their `x` positions: for any two occupied cells, the cell of the screen
/// with the smaller `y` sits in the earlier row, equal `y` means the same
/// row, and likewise for `x` and columns.
pub open spec fn positions_ordered(g: Seq<Seq<Option<Screen>>>) -> bool {
    forall|r1: int, c1: int, r2: int, c2: int|
        #![trigger g[r1][c1], g[r2][c2]]
        0 <= r1 < g.len() && 0 <= c1 < g[r1].len() && 0 <= r2 < g.len() && 0 <= c2 < g[r2].len()
            && g[r1][c1] is Some && g[r2][c2] is Some ==> ((g[r1][c1]->0.y < g[r2][c2]->0.y) <==> r1
            < r2) && ((g[r1][c1]->0.x < g[r2][c2]->0.x) <==> c1 < c2)
}

/// Every row holds at least one screen.
pub open spec fn all_rows_occupied(g: Seq<Seq<Option<Screen>>>) -> bool {
    forall|r: int| 0 <= r < g.len() ==> row_occupied(#[trigger] g[r])
}

/// Every column holds at least one screen.
pub open spec fn all_cols_occupied(g: Seq<Seq<Option<Screen>>>) -> bool {
    forall|c: int| 0 <= c < grid_cols(g) ==> col_occupied(g, c)
}

/// What the grid builder promises of a grid built from the screens `sv`: the
/// grid is rectangular and non-degenerate; every occupied cell holds an input
/// screen; every input screen's position is held by some occupied cell; rows
/// follow `y` order and columns follow `x` order; no row or column is fully
/// empty; and no name appears twice.
pub open spec fn built_ok(sv: Seq<Screen>, g: Seq<Seq<Option<Screen>>>) -> bool {
    &&& is_rect(g)
    &&& g.len() >= 1
    &&& grid_cols(g) >= 1
    &&& forall|r: int, c: int|
        0 <= r < g.len() && 0 <= c < g[r].len() && #[trigger] g[r][c] is Some ==> member_of(
            sv,
            g[r][c]->0,
        )
    &&& forall|i: int| 0 <= i < sv.len() ==> grid_holds_position_of(g, #[trigger] sv[i])
    &&& positions_ordered(g)
    &&& all_rows_occupied(g)
    &&& all_cols_occupied(g)
    &&& names_unique(g)
}

/// The number of screens over all groups of a partition.
pub open spec fn total_len(groups: Seq<Seq<Screen>>) -> int
    decreases groups.len(),
{
    if groups.len() == 0 {
        0
    } else {
        total_len(groups.drop_last()) + groups.last().len()
    }
}

} // verus!
