//! The executable layout grid and its operations.

use vstd::prelude::*;

use crate::grid_model::{
    all_cols_occupied, all_rows_occupied, appears_in_groups, built_ok, col_min_width,
    col_min_width_upto, col_occupied, col_offset, distinct_names, empty_row_model, grid_cols,
    grid_holds_position_of, grid_occ_upto, grouping_ok, groups_view, grow_model, has_occupied,
    is_rect, key_of, member_of, move_model, names_unique, occ_index, positions_ordered,
    row_min_height, row_min_height_upto, row_occ_upto, row_occupied, row_offset, shrink_model,
    sizes_nonneg, some_cell_has_occ_index, total_len,
};
use crate::laws::{lemma_col_offset_monotonic, lemma_row_offset_monotonic};

verus! {

/// One physical monitor: a rectangle in absolute pixel coordinates plus a
/// unique name.
#[derive(Debug)]
pub struct Screen {
    pub x: i32,
    pub y: i32,
    pub width: i32,
    pub height: i32,
    pub name: String,
}

impl Clone for Screen {
    fn clone(&self) -> (r: Self)
        ensures
            r == *self,
    {
        Screen {
            x: self.x,
            y: self.y,
            width: self.width,
            height: self.height,
            name: self.name.clone(),
        }
    }
}

/// The error returned when a grid is asked for that no input describes.
#[derive(Clone, Copy, Debug, PartialEq, Eq, Structural)]
pub enum GridError {
    /// The monitor list was empty: a grid needs at least one monitor.
    InvalidInput,
}

/// A rectangular grid of cells, each empty or holding one [`Screen`].
#[derive(Debug)]
pub struct ScreenGrid {
    inner: Vec<Vec<Option<Screen>>>,
}

impl View for ScreenGrid {
    type V = Seq<Seq<Option<Screen>>>;

    closed spec fn view(&self) -> Seq<Seq<Option<Screen>>> {
        self.inner@.map_values(|row: Vec<Option<Screen>>| row@)
    }
}

/// Does some cell of the row hold a screen?
pub fn needs_space_in_row(p0: &Vec<Option<Screen>>) -> (r: bool)
    ensures
        r == row_occupied(p0@),
{
    let mut j: usize = 0;
    while j < p0.len()
        invariant
            j <= p0@.len(),
            forall|k: int| 0 <= k < j ==> p0@[k] is None,
        decreases p0@.len() - j,
    {
        if p0[j].is_some() {
            return true;
        }
        j += 1;
    }
    false
}

/// Does the group hold a screen with the same name as the given one?
pub fn contains(screen_in_row: &Screen, col: &Vec<Screen>) -> (r: bool)
    ensures
        r == exists|i: int| 0 <= i < col@.len() && col@[i].name@ == screen_in_row.name@,
{
    let mut i: usize = 0;
    while i < col.len()
        invariant
            i <= col@.len(),
            forall|k: int| 0 <= k < i ==> col@[k].name@ != screen_in_row.name@,
        decreases col@.len() - i,
    {
        if col[i].name == screen_in_row.name {
            return true;
        }
        i += 1;
    }
    false
}

/// An all-empty row of the given width.
fn empty_row(cols: usize) -> (r: Vec<Option<Screen>>)
    ensures
        r@ == empty_row_model(cols as int),
{
    let mut r: Vec<Option<Screen>> = Vec::new();
    let mut j: usize = 0;
    while j < cols
        invariant
            j <= cols,
            r@.len() == j,
            forall|k: int| 0 <= k < j ==> r@[k] is None,
        decreases cols - j,
    {
        r.push(None);
        j += 1;
    }
    proof {
        assert(r@ =~= empty_row_model(cols as int));
    }
    r
}

impl ScreenGrid {
    /// The number of rows.
    pub fn height(&self) -> (r: usize)
        ensures
            r == self@.len(),
    {
        self.inner.len()
    }

    /// The number of columns: the length of the first row.
    pub fn width(&self) -> (r: usize)
        requires
            self@.len() >= 1,
        ensures
            r == grid_cols(self@),
    {
        self.inner[0].len()
    }

    /// The contents of one cell, for a caller that walks the grid.
    pub fn cell(&self, row_idx: usize, col_idx: usize) -> (r: &Option<Screen>)
        requires
            row_idx < self@.len(),
            col_idx < self@[row_idx as int].len(),
        ensures
            *r == self@[row_idx as int][col_idx as int],
    {
        &self.inner[row_idx][col_idx]
    }

    /// Empties the cell `(r, c)` and hands its prior contents back.
    fn take_cell(&mut self, r: usize, c: usize) -> (v: Option<Screen>)
        requires
            r < old(self)@.len(),
            c < old(self)@[r as int].len(),
        ensures
            v == old(self)@[r as int][c as int],
            final(self)@ == old(self)@.update(
                r as int,
                old(self)@[r as int].update(c as int, None),
            ),
    {
        let mut row = self.inner.remove(r);
        let v = row.remove(c);
        row.insert(c, None);
        self.inner.insert(r, row);
        proof {
            let oi = old(self).inner@;
            lemma_remove_insert_is_update(oi[r as int]@, c as int, None::<Screen>);
            lemma_remove_insert_is_update(oi, r as int, row);
            assert(self@ =~~= old(self)@.update(
                r as int,
                old(self)@[r as int].update(c as int, None),
            ));
        }
        v
    }

    /// Writes `v` into the cell `(r, c)`.
    fn put_cell(&mut self, r: usize, c: usize, v: Option<Screen>)
        requires
            r < old(self)@.len(),
            c < old(self)@[r as int].len(),
        ensures
            final(self)@ == old(self)@.update(r as int, old(self)@[r as int].update(c as int, v)),
    {
        let mut row = self.inner.remove(r);
        row.remove(c);
        row.insert(c, v);
        self.inner.insert(r, row);
        proof {
            let oi = old(self).inner@;
            lemma_remove_insert_is_update(oi[r as int]@, c as int, v);
            lemma_remove_insert_is_update(oi, r as int, row);
            assert(self@ =~~= old(self)@.update(
                r as int,
                old(self)@[r as int].update(c as int, v),
            ));
        }
    }

    /// Prepends an all-empty row of the given width.
    fn add_top_row(&mut self, cols: usize)
        ensures
            final(self)@ == old(self)@.insert(0, empty_row_model(cols as int)),
    {
        let row = empty_row(cols);
        self.inner.insert(0, row);
        proof {
            old(self).inner@.insert_ensures(0, row);
            assert(self@ =~~= old(self)@.insert(0, empty_row_model(cols as int)));
        }
    }

    /// Appends an all-empty row of the given width.
    fn add_bottom_row(&mut self, cols: usize)
        ensures
            final(self)@ == old(self)@.push(empty_row_model(cols as int)),
    {
        let row = empty_row(cols);
        self.inner.push(row);
        proof {
            assert(self@ =~~= old(self)@.push(empty_row_model(cols as int)));
        }
    }

    /// Prepends an empty cell to every row.
    fn pad_left(&mut self)
        ensures
            final(self)@.len() == old(self)@.len(),
            forall|k: int| 0 <= k < old(self)@.len() ==> #[trigger] final(self)@[k]
                == old(self)@[k].insert(0, None),
    {
        let n = self.inner.len();
        let mut r: usize = 0;
        while r < n
            invariant
                r <= n,
                n == self@.len(),
                n == old(self)@.len(),
                forall|k: int| 0 <= k < r ==> #[trigger] self@[k] == old(self)@[k].insert(0, None),
                forall|k: int| r <= k < n ==> #[trigger] self@[k] == old(self)@[k],
            decreases n - r,
        {
            let ghost prev = self@;
            let ghost prev_inner = self.inner@;
            let mut row = self.inner.remove(r);
            row.insert(0, None);
            self.inner.insert(r, row);
            proof {
                lemma_remove_insert_is_update(prev_inner, r as int, row);
                assert(self@ =~~= prev.update(r as int, prev[r as int].insert(0, None)));
            }
            r += 1;
        }
    }

    /// Appends an empty cell to every row.
    fn pad_right(&mut self)
        ensures
            final(self)@.len() == old(self)@.len(),
            forall|k: int| 0 <= k < old(self)@.len() ==> #[trigger] final(self)@[k]
                == old(self)@[k].push(None),
    {
        let n = self.inner.len();
        let mut r: usize = 0;
        while r < n
            invariant
                r <= n,
                n == self@.len(),
                n == old(self)@.len(),
                forall|k: int| 0 <= k < r ==> #[trigger] self@[k] == old(self)@[k].push(None),
                forall|k: int| r <= k < n ==> #[trigger] self@[k] == old(self)@[k],
            decreases n - r,
        {
            let ghost prev = self@;
            let ghost prev_inner = self.inner@;
            let mut row = self.inner.remove(r);
            row.push(None);
            self.inner.insert(r, row);
            proof {
                lemma_remove_insert_is_update(prev_inner, r as int, row);
                assert(self@ =~~= prev.update(r as int, prev[r as int].push(None)));
            }
            r += 1;
        }
    }

    /// Grows the border: a new all-empty row appears above when the first row
    /// holds a screen and below when the last row does, and a new all-empty
    /// column appears on the left or right edge likewise; all four tests look
    /// at the grid as it stands before the call, so at most one row or column
    /// is added per edge.
    pub fn grow_padding(&mut self)
        requires
            is_rect(old(self)@),
            old(self)@.len() >= 1,
            grid_cols(old(self)@) >= 1,
        ensures
            final(self)@ == grow_model(old(self)@),
    {
        let ghost g0 = self@;
        let rows = self.inner.len();
        let cols = self.inner[0].len();
        let needs_top = needs_space_in_row(&self.inner[0]);
        let needs_bottom = needs_space_in_row(&self.inner[rows - 1]);
        let mut needs_left = false;
        let mut needs_right = false;
        let mut i: usize = 0;
        while i < rows
            invariant
                i <= rows,
                rows == g0.len(),
                cols == grid_cols(g0),
                cols >= 1,
                is_rect(g0),
                self@ == g0,
                needs_left == exists|k: int| 0 <= k < i && g0[k][0] is Some,
                needs_right == exists|k: int| 0 <= k < i && g0[k][cols - 1] is Some,
            decreases rows - i,
        {
            proof {
                assert(self@[i as int] == g0[i as int]);
                assert(g0[i as int].len() == cols);
            }
            if self.inner[i][0].is_some() {
                needs_left = true;
            }
            if self.inner[i][cols - 1].is_some() {
                needs_right = true;
            }
            i += 1;
        }
        assert(needs_left == col_occupied(g0, 0));
        assert(needs_right == col_occupied(g0, cols - 1));
        let ghost dt: int = if needs_top { 1 } else { 0 };
        let ghost dl: int = if needs_left { 1 } else { 0 };
        let ghost dr: int = if needs_right { 1 } else { 0 };
        if needs_top {
            self.add_top_row(cols);
            proof {
                g0.insert_ensures(0, empty_row_model(cols as int));
            }
        }
        let ghost g1 = self@;
        assert(g1.len() == g0.len() + dt);
        assert(forall|k: int| 0 <= k < g0.len() ==> g1[k + dt] == #[trigger] g0[k]);
        assert(forall|k: int| 0 <= k < g1.len() ==> #[trigger] g1[k].len() == cols);
        if needs_left {
            self.pad_left();
        }
        let ghost g2 = self@;
        if needs_right {
            self.pad_right();
        }
        let ghost g3 = self@;
        assert(g3.len() == g1.len());
        assert forall|k: int| 0 <= k < g3.len() implies #[trigger] g3[k].len() == cols + dl
            + dr by {
            if needs_left {
                g1[k].insert_ensures(0, None);
            }
        }
        if needs_bottom {
            assert(self@[0].len() == cols + dl + dr);
            let w = self.inner[0].len();
            assert(w == cols + dl + dr);
            self.add_bottom_row(w);
        }
        proof {
            let gm = grow_model(g0);
            let db: int = if needs_bottom { 1 } else { 0 };
            assert(self@.len() == g0.len() + dt + db);
            assert(self@.len() == gm.len());
            assert forall|a: int| 0 <= a < gm.len() implies self@[a] =~= gm[a] by {
                assert(gm[a].len() == cols + dl + dr);
                if needs_bottom && a == g3.len() {
                    assert(self@[a] == empty_row_model(cols + dl + dr));
                    assert(forall|b: int| 0 <= b < cols + dl + dr ==> gm[a][b] is None);
                } else {
                    assert(self@[a] == g3[a]);
                    assert(self@[a].len() == cols + dl + dr);
                    if needs_left {
                        g1[a].insert_ensures(0, None);
                    }
                    assert forall|b: int| 0 <= b < cols + dl + dr implies self@[a][b] == gm[a][b] by {
                        if dt == 1 && a == 0 {
                            assert(g1[a][b - dl] is None || !(dl <= b < dl + cols));
                            assert(self@[a][b] is None);
                        } else {
                            assert(g1[a] == g0[a - dt]);
                            if dl <= b < dl + cols {
                                assert(g2[a][b] == g0[a - dt][b - dl]);
                                assert(self@[a][b] == g0[a - dt][b - dl]);
                            } else {
                                assert(self@[a][b] is None);
                            }
                        }
                    }
                }
            }
            assert(self@ =~~= gm);
        }
    }

    /// Removes the first row.
    fn drop_top_row(&mut self)
        requires
            old(self)@.len() >= 1,
        ensures
            final(self)@ == old(self)@.remove(0),
    {
        self.inner.remove(0);
        proof {
            old(self)@.remove_ensures(0);
            assert(self@ =~~= old(self)@.remove(0));
        }
    }

    /// Removes the last row.
    fn drop_bottom_row(&mut self)
        requires
            old(self)@.len() >= 1,
        ensures
            final(self)@ == old(self)@.drop_last(),
    {
        self.inner.pop();
        proof {
            assert(self@ =~~= old(self)@.drop_last());
        }
    }

    /// Removes the first cell of every row.
    fn unpad_left(&mut self)
        requires
            forall|k: int| 0 <= k < old(self)@.len() ==> #[trigger] old(self)@[k].len() >= 1,
        ensures
            final(self)@.len() == old(self)@.len(),
            forall|k: int| 0 <= k < old(self)@.len() ==> #[trigger] final(self)@[k]
                == old(self)@[k].remove(0),
    {
        let n = self.inner.len();
        let mut r: usize = 0;
        while r < n
            invariant
                r <= n,
                n == self@.len(),
                n == old(self)@.len(),
                forall|k: int| 0 <= k < old(self)@.len() ==> #[trigger] old(self)@[k].len() >= 1,
                forall|k: int| 0 <= k < r ==> #[trigger] self@[k] == old(self)@[k].remove(0),
                forall|k: int| r <= k < n ==> #[trigger] self@[k] == old(self)@[k],
            decreases n - r,
        {
            let ghost prev = self@;
            let ghost prev_inner = self.inner@;
            let mut row = self.inner.remove(r);
            proof {
                assert(row@ == prev[r as int]);
                assert(prev[r as int] == old(self)@[r as int]);
            }
            row.remove(0);
            self.inner.insert(r, row);
            proof {
                lemma_remove_insert_is_update(prev_inner, r as int, row);
                assert(self@ =~~= prev.update(r as int, prev[r as int].remove(0)));
            }
            r += 1;
        }
    }

    /// Removes the last cell of every row.
    fn unpad_right(&mut self)
        requires
            forall|k: int| 0 <= k < old(self)@.len() ==> #[trigger] old(self)@[k].len() >= 1,
        ensures
            final(self)@.len() == old(self)@.len(),
            forall|k: int| 0 <= k < old(self)@.len() ==> #[trigger] final(self)@[k]
                == old(self)@[k].drop_last(),
    {
        let n = self.inner.len();
        let mut r: usize = 0;
        while r < n
            invariant
                r <= n,
                n == self@.len(),
                n == old(self)@.len(),
                forall|k: int| 0 <= k < old(self)@.len() ==> #[trigger] old(self)@[k].len() >= 1,
                forall|k: int| 0 <= k < r ==> #[trigger] self@[k] == old(self)@[k].drop_last(),
                forall|k: int| r <= k < n ==> #[trigger] self@[k] == old(self)@[k],
            decreases n - r,
        {
            let ghost prev = self@;
            let ghost prev_inner = self.inner@;
            let mut row = self.inner.remove(r);
            row.pop();
            self.inner.insert(r, row);
            proof {
                lemma_remove_insert_is_update(prev_inner, r as int, row);
                assert(self@ =~~= prev.update(r as int, prev[r as int].drop_last()));
            }
            r += 1;
        }
    }

    /// Shrinks the border: the first or last row disappears when it is fully
    /// empty, and the first or last column disappears when no row holds a
    /// screen there; all four tests look at the grid as it stands before the
    /// call, so at most one row or column is removed per edge. The grid must
    /// hold at least one screen.
    pub fn shrink_padding(&mut self)
        requires
            is_rect(old(self)@),
            old(self)@.len() >= 1,
            grid_cols(old(self)@) >= 1,
            has_occupied(old(self)@),
        ensures
            final(self)@ == shrink_model(old(self)@),
    {
        let ghost g0 = self@;
        let rows = self.inner.len();
        let cols = self.inner[0].len();
        let top_empty = !needs_space_in_row(&self.inner[0]);
        let bottom_empty = !needs_space_in_row(&self.inner[rows - 1]);
        let mut left_occ = false;
        let mut right_occ = false;
        let mut i: usize = 0;
        while i < rows
            invariant
                i <= rows,
                rows == g0.len(),
                cols == grid_cols(g0),
                cols >= 1,
                is_rect(g0),
                self@ == g0,
                left_occ == exists|k: int| 0 <= k < i && g0[k][0] is Some,
                right_occ == exists|k: int| 0 <= k < i && g0[k][cols - 1] is Some,
            decreases rows - i,
        {
            proof {
                assert(self@[i as int] == g0[i as int]);
                assert(g0[i as int].len() == cols);
            }
            if self.inner[i][0].is_some() {
                left_occ = true;
            }
            if self.inner[i][cols - 1].is_some() {
                right_occ = true;
            }
            i += 1;
        }
        let left_empty = !left_occ;
        let right_empty = !right_occ;
        assert(left_empty == !col_occupied(g0, 0));
        assert(right_empty == !col_occupied(g0, cols - 1));
        let ghost dt: int = if top_empty { 1 } else { 0 };
        let ghost db: int = if bottom_empty { 1 } else { 0 };
        let ghost dl: int = if left_empty { 1 } else { 0 };
        let ghost dr: int = if right_empty { 1 } else { 0 };
        proof {
            let io = choose|k: int| 0 <= k < g0.len() && row_occupied(#[trigger] g0[k]);
            let jo = choose|j: int| 0 <= j < g0[io].len() && g0[io][j] is Some;
            assert(0 <= jo < cols && g0[io][jo] is Some);
            if top_empty {
                assert(io != 0);
            }
            if left_empty {
                assert(jo != 0);
            }
            assert(dt == 1 ==> g0.len() >= 2);
            assert(dl == 1 ==> cols >= 2);
        }
        if top_empty {
            self.drop_top_row();
            proof {
                g0.remove_ensures(0);
            }
        }
        let ghost g1 = self@;
        assert(g1.len() == g0.len() - dt);
        assert(forall|k: int| 0 <= k < g1.len() ==> #[trigger] g1[k] == g0[k + dt]);
        if bottom_empty {
            self.drop_bottom_row();
        }
        let ghost g2 = self@;
        assert(g2.len() == g0.len() - dt - db);
        assert(forall|k: int| 0 <= k < g2.len() ==> #[trigger] g2[k] == g0[k + dt]);
        assert(forall|k: int| 0 <= k < g2.len() ==> #[trigger] g2[k].len() == cols);
        if left_empty {
            self.unpad_left();
            proof {
                assert forall|k: int| 0 <= k < g2.len() implies #[trigger] self@[k]
                    == g2[k].remove(0) by {}
                assert forall|k: int| 0 <= k < g2.len() implies #[trigger] self@[k].len() == cols
                    - 1 by {
                    g2[k].remove_ensures(0);
                }
            }
        }
        let ghost g3 = self@;
        assert(g3.len() == g2.len());
        assert(forall|k: int| 0 <= k < g3.len() ==> #[trigger] g3[k].len() == cols - dl);
        if right_empty {
            self.unpad_right();
        }
        proof {
            let gm = shrink_model(g0);
            assert(self@.len() == g0.len() - dt - db);
            assert(self@.len() == gm.len());
            assert forall|a: int| 0 <= a < gm.len() implies self@[a] =~= gm[a] by {
                assert(g3[a].len() == cols - dl);
                assert(self@[a].len() == cols - dl - dr);
                assert(gm[a].len() == cols - dl - dr);
                if left_empty {
                    g2[a].remove_ensures(0);
                }
                assert forall|b: int| 0 <= b < cols - dl - dr implies self@[a][b] == gm[a][b] by {
                    assert(self@[a][b] == g3[a][b]);
                    assert(g3[a][b] == g2[a][b + dl]);
                    assert(g2[a] == g0[a + dt]);
                    assert(gm[a][b] == g0[a + dt][b + dl]);
                }
            }
            assert(self@ =~~= gm);
        }
    }

    /// Builds the grid from an unordered list of screens with distinct names:
    /// the rows are the exact `y` values in ascending order, the columns the
    /// exact `x` values in ascending order, and every screen lands in the
    /// cell of its row and column. An empty list is rejected.
    #[verifier::rlimit(10)]
    #[verifier::spinoff_prover]
    pub fn from_screens(screens: Vec<Screen>) -> (result: Result<ScreenGrid, GridError>)
        requires
            distinct_names(screens@),
        ensures
            result is Err <==> screens@.len() == 0,
            result matches Ok(grid) ==> built_ok(screens@, grid@),
    {
        if screens.len() == 0 {
            return Err(GridError::InvalidInput);
        }
        let screens_by_col = Self::split_by(&screens, true);
        let screens_by_row = Self::split_by(&screens, false);
        let ghost sv = screens@;
        let ghost cg = groups_view(screens_by_col@);
        let ghost rg = groups_view(screens_by_row@);
        proof {
            lemma_grouping_basics(sv, cg, true);
            lemma_grouping_basics(sv, rg, false);
            assert(appears_in_groups(cg, sv[0]));
            assert(appears_in_groups(rg, sv[0]));
        }
        let n_rows = screens_by_row.len();
        let n_cols = screens_by_col.len();
        let mut grid = ScreenGrid { inner: Vec::new() };
        let mut r0: usize = 0;
        while r0 < n_rows
            invariant
                r0 <= n_rows,
                grid@.len() == r0,
                forall|a: int| 0 <= a < r0 ==> #[trigger] grid@[a] == empty_row_model(
                    n_cols as int,
                ),
            decreases n_rows - r0,
        {
            let ghost prev = grid@;
            let er = empty_row(n_cols);
            grid.inner.push(er);
            proof {
                assert(grid@ =~= prev.push(empty_row_model(n_cols as int)));
            }
            r0 += 1;
        }
        proof {
            assert(grid_cols(grid@) == n_cols);
            assert(is_rect(grid@));
            assert(build_sound(grid@, sv, rg, cg)) by {
                reveal(build_sound);
                assert forall|r2: int, c2: int|
                    0 <= r2 < grid@.len() && 0 <= c2 < grid@[r2].len() implies !(
                #[trigger] grid@[r2][c2] is Some) by {
                    assert(grid@[r2] == empty_row_model(n_cols as int));
                }
            }
        }
        let mut rp: usize = 0;
        while rp < n_rows
            invariant
                rp <= n_rows,
                sv == screens@,
                distinct_names(sv),
                cg == groups_view(screens_by_col@),
                rg == groups_view(screens_by_row@),
                n_rows == rg.len(),
                n_cols == cg.len(),
                grouping_ok(sv, rg, false),
                grouping_ok(sv, cg, true),
                grid@.len() == n_rows,
                is_rect(grid@),
                grid_cols(grid@) == n_cols,
                build_sound(grid@, sv, rg, cg),
                rows_placed_upto(grid@, cg, rg, rp as int),
            decreases n_rows - rp,
        {
            proof {
                assert(screens_by_row@[rp as int]@ == rg[rp as int]);
            }
            let row_len = screens_by_row[rp].len();
            let mut k: usize = 0;
            while k < row_len
                invariant
                    rp < n_rows,
                    k <= row_len,
                    sv == screens@,
                    distinct_names(sv),
                    cg == groups_view(screens_by_col@),
                    rg == groups_view(screens_by_row@),
                    n_rows == rg.len(),
                    n_cols == cg.len(),
                    row_len == rg[rp as int].len(),
                    grouping_ok(sv, rg, false),
                    grouping_ok(sv, cg, true),
                    grid@.len() == n_rows,
                    is_rect(grid@),
                    grid_cols(grid@) == n_cols,
                    build_sound(grid@, sv, rg, cg),
                    rows_placed_upto(grid@, cg, rg, rp as int),
                    row_placed_upto(grid@, cg, rg, rp as int, k as int),
                decreases row_len - k,
            {
                let ghost s_gh = rg[rp as int][k as int];
                let ghost gpre = grid@;
                proof {
                    lemma_grouping_basics(sv, rg, false);
                    assert(screens_by_row@[rp as int]@ == rg[rp as int]);
                    assert(member_of(sv, s_gh));
                    assert(key_of(s_gh, false) == key_of(rg[rp as int][0], false));
                }
                grid.place_in_columns(
                    &screens_by_col,
                    &screens_by_row[rp][k],
                    rp,
                    Ghost(sv),
                    Ghost(rg),
                );
                proof {
                    assert forall|a: int, b: int|
                        0 <= a < rp as int && 0 <= b < rg[a].len() implies placed_in_row(
                        grid@,
                        cg,
                        a,
                        #[trigger] rg[a][b],
                    ) by {
                        assert(placed_in_row(gpre, cg, a, rg[a][b]));
                        assert(key_of(rg[a][b], false) == key_of(rg[a][0], false));
                    }
                    assert forall|b: int| 0 <= b < k as int + 1 implies placed_in_row(
                        grid@,
                        cg,
                        rp as int,
                        #[trigger] rg[rp as int][b],
                    ) by {
                        if b < k as int {
                            assert(placed_in_row(gpre, cg, rp as int, rg[rp as int][b]));
                            assert(key_of(rg[rp as int][b], false) == key_of(
                                rg[rp as int][0],
                                false,
                            ));
                        } else {
                            assert(placed_in_row(grid@, cg, rp as int, s_gh));
                        }
                    }
                }
                k += 1;
            }
            proof {
                assert forall|a: int, b: int|
                    0 <= a < rp as int + 1 && 0 <= b < rg[a].len() implies placed_in_row(
                    grid@,
                    cg,
                    a,
                    #[trigger] rg[a][b],
                ) by {
                    if a == rp as int {
                        assert(placed_in_row(grid@, cg, rp as int, rg[rp as int][b]));
                    }
                }
            }
            rp += 1;
        }
        proof {
            lemma_grouping_basics(sv, rg, false);
            lemma_grouping_basics(sv, cg, true);
            assert(appears_in_groups(rg, sv[0]));
            assert(appears_in_groups(cg, sv[0]));
            lemma_built_grid_ok(grid@, sv, rg, cg);
        }
        Ok(grid)
    }

    /// Walks the column groups and writes the screen into every cell of row
    /// `rp` whose column group holds a screen of the same name; with distinct
    /// names that is exactly the column whose key is the screen's `x`.
    #[verifier::rlimit(10)]
    #[verifier::spinoff_prover]
    fn place_in_columns(
        &mut self,
        screens_by_col: &Vec<Vec<Screen>>,
        s: &Screen,
        rp: usize,
        Ghost(sv): Ghost<Seq<Screen>>,
        Ghost(rg): Ghost<Seq<Seq<Screen>>>,
    )
        requires
            distinct_names(sv),
            grouping_ok(sv, rg, false),
            grouping_ok(sv, groups_view(screens_by_col@), true),
            rp < old(self)@.len(),
            old(self)@.len() == rg.len(),
            is_rect(old(self)@),
            grid_cols(old(self)@) == screens_by_col@.len(),
            member_of(sv, *s),
            key_of(*s, false) == key_of(rg[rp as int][0], false),
            build_sound(old(self)@, sv, rg, groups_view(screens_by_col@)),
        ensures
            final(self)@.len() == old(self)@.len(),
            is_rect(final(self)@),
            grid_cols(final(self)@) == grid_cols(old(self)@),
            build_sound(final(self)@, sv, rg, groups_view(screens_by_col@)),
            placed_in_row(final(self)@, groups_view(screens_by_col@), rp as int, *s),
            forall|a: int, b: int|
                0 <= a < rg.len() && 0 <= b < rg[a].len() && placed_in_row(
                    old(self)@,
                    groups_view(screens_by_col@),
                    a,
                    #[trigger] rg[a][b],
                ) ==> placed_in_row(final(self)@, groups_view(screens_by_col@), a, rg[a][b]),
    {
        let ghost cg = groups_view(screens_by_col@);
        let ghost g0 = self@;
        let ghost s_gh = *s;
        let n_cols = screens_by_col.len();
        let mut c: usize = 0;
        while c < n_cols
            invariant
                c <= n_cols,
                distinct_names(sv),
                cg == groups_view(screens_by_col@),
                grouping_ok(sv, rg, false),
                grouping_ok(sv, cg, true),
                n_cols == cg.len(),
                rp < self@.len(),
                self@.len() == rg.len(),
                is_rect(self@),
                grid_cols(self@) == n_cols,
                s_gh == *s,
                member_of(sv, s_gh),
                key_of(s_gh, false) == key_of(rg[rp as int][0], false),
                build_sound(self@, sv, rg, cg),
                (exists|c2: int|
                    0 <= c2 < c && key_of(#[trigger] cg[c2][0], true) == s_gh.x as int)
                    ==> placed_in_row(self@, cg, rp as int, s_gh),
                forall|a: int, b: int|
                    0 <= a < rg.len() && 0 <= b < rg[a].len() && placed_in_row(
                        g0,
                        cg,
                        a,
                        #[trigger] rg[a][b],
                    ) ==> placed_in_row(self@, cg, a, rg[a][b]),
            decreases n_cols - c,
        {
            proof {
                assert(screens_by_col@[c as int]@ == cg[c as int]);
                lemma_name_key(sv, cg, c as int, s_gh);
            }
            let ghost gpre = self@;
            if contains(s, &screens_by_col[c]) {
                proof {
                    assert(key_of(cg[c as int][0], true) == s_gh.x as int);
                    assert(self@[rp as int].len() == n_cols);
                }
                let sc = s.clone();
                self.put_cell(rp, c, Some(sc));
                proof {
                    lemma_place_step(gpre, sv, rg, cg, rp as int, c as int, s_gh);
                    assert(self@ == gpre.update(
                        rp as int,
                        gpre[rp as int].update(c as int, Some(s_gh)),
                    ));
                }
            } else {
                proof {
                    assert(key_of(cg[c as int][0], true) != s_gh.x as int);
                }
            }
            c += 1;
        }
        proof {
            lemma_grouping_basics(sv, cg, true);
            let is0 = choose|i: int| 0 <= i < sv.len() && sv[i] == s_gh;
            assert(appears_in_groups(cg, sv[is0]));
            let (c0, q0) = choose|c0: int, q0: int|
                0 <= c0 < cg.len() && 0 <= q0 < cg[c0].len() && #[trigger] cg[c0][q0] == s_gh;
            assert(key_of(cg[c0][q0], true) == key_of(cg[c0][0], true));
            assert(placed_in_row(self@, cg, rp as int, s_gh));
        }
    }

    /// Partitions the screens into groups that share the exact grouping key:
    /// the `x` position when `by_x` holds, the `y` position otherwise. The
    /// groups come back in ascending key order, and each group is sorted by
    /// the opposite key.
    #[verifier::rlimit(10)]
    #[verifier::spinoff_prover]
    pub fn split_by(screens: &Vec<Screen>, by_x: bool) -> (groups: Vec<Vec<Screen>>)
        ensures
            grouping_ok(screens@, groups_view(groups@), by_x),
    {
        let ghost sv = screens@;
        let mut groups: Vec<Vec<Screen>> = Vec::new();
        proof {
            reveal(grouping_ok);
            assert(sv.subrange(0, 0).len() == 0);
            assert(groups_view(groups@).len() == 0);
            assert(grouping_ok(sv.subrange(0, 0), groups_view(groups@), by_x));
        }
        let mut idx: usize = 0;
        while idx < screens.len()
            invariant
                idx <= sv.len(),
                sv == screens@,
                grouping_ok(sv.subrange(0, idx as int), groups_view(groups@), by_x),
            decreases sv.len() - idx,
        {
            let ghost pre = groups_view(groups@);
            let ghost svp = sv.subrange(0, idx as int);
            proof {
                lemma_grouping_basics(svp, pre, by_x);
                assert forall|a: int| 0 <= a < groups@.len() implies #[trigger] groups@[a]@.len()
                    >= 1 by {
                    assert(pre[a] == groups@[a]@);
                }
                assert forall|a: int, b: int|
                    #![trigger groups@[a], groups@[b]]
                    0 <= a < b < groups@.len() implies key_of(groups@[a]@[0], by_x) < key_of(
                    groups@[b]@[0],
                    by_x,
                ) by {
                    assert(pre[a] == groups@[a]@);
                    assert(pre[b] == groups@[b]@);
                }
            }
            let s = &screens[idx];
            let k = key_val(s, by_x);
            let ik = key_val(s, !by_x);
            let gi = find_slot(&groups, k, by_x);
            let same_key = gi < groups.len() && key_val(&groups[gi][0], by_x) == k;
            if same_key {
                let ghost prevv = groups@;
                let mut grp = groups.remove(gi);
                let p = find_inner(&grp, ik, by_x);
                let sc = s.clone();
                grp.insert(p, sc);
                groups.insert(gi, grp);
                proof {
                    lemma_remove_insert_is_update(prevv, gi as int, grp);
                    assert(grp@ == pre[gi as int].insert(p as int, sv[idx as int]));
                    assert(groups_view(groups@) =~= pre.update(gi as int, grp@));
                    lemma_split_insert(sv, idx as int, pre, gi as int, p as int, by_x);
                }
            } else {
                let mut grp: Vec<Screen> = Vec::new();
                grp.push(s.clone());
                groups.insert(gi, grp);
                proof {
                    assert(grp@ =~= seq![sv[idx as int]]);
                    assert(groups_view(groups@) =~= pre.insert(gi as int, seq![sv[idx as int]]));
                    lemma_split_new(sv, idx as int, pre, gi as int, by_x);
                }
            }
            idx += 1;
        }
        proof {
            assert(sv.subrange(0, idx as int) =~= sv);
        }
        groups
    }

    /// Computes the absolute position of the cell `(row_idx, col_idx)`: the
    /// horizontal offset is the sum, over the columns to its left, of each
    /// column's minimum screen width, and the vertical offset is the sum,
    /// over the rows above it, of each row's minimum screen height; an
    /// all-empty row or column contributes nothing.
    pub fn calculate_coordinates(&self, row_idx: usize, col_idx: usize) -> (r: (i32, i32))
        requires
            is_rect(self@),
            sizes_nonneg(self@),
            row_idx < self@.len(),
            col_idx < grid_cols(self@),
            row_offset(self@, self@.len() as int) <= i32::MAX,
            col_offset(self@, grid_cols(self@)) <= i32::MAX,
        ensures
            r.0 == col_offset(self@, col_idx as int),
            r.1 == row_offset(self@, row_idx as int),
    {
        let ghost g = self@;
        let rows = self.inner.len();
        let mut v: i32 = 0;
        let mut rr: usize = 0;
        while rr < row_idx
            invariant
                rr <= row_idx < g.len(),
                g == self@,
                is_rect(g),
                sizes_nonneg(g),
                rows == g.len(),
                row_offset(g, g.len() as int) <= i32::MAX,
                v == row_offset(g, rr as int),
            decreases row_idx - rr,
        {
            let cols_here = self.inner[rr].len();
            let mut m: Option<i32> = None;
            let mut c: usize = 0;
            while c < cols_here
                invariant
                    c <= cols_here,
                    rr < g.len(),
                    g == self@,
                    cols_here == g[rr as int].len(),
                    m is None <==> row_min_height_upto(g[rr as int], c as int) is None,
                    m matches Some(x) ==> row_min_height_upto(g[rr as int], c as int) == Some(
                        x as int,
                    ),
                decreases cols_here - c,
            {
                if let Some(s) = &self.inner[rr][c] {
                    m = match m {
                        None => Some(s.height),
                        Some(x) => Some(if s.height < x { s.height } else { x }),
                    };
                } else {
                    proof {
                        assert(g[rr as int][c as int] is None);
                    }
                }
                c += 1;
            }
            let add = match m {
                None => 0,
                Some(x) => x,
            };
            assert(add == row_min_height(g[rr as int]));
            proof {
                lemma_row_offset_monotonic(g, rr as int + 1, g.len() as int);
                lemma_row_offset_monotonic(g, rr as int, rr as int);
            }
            v = v + add;
            rr += 1;
        }
        let mut h: i32 = 0;
        let mut cc: usize = 0;
        while cc < col_idx
            invariant
                cc <= col_idx < grid_cols(g),
                g == self@,
                is_rect(g),
                sizes_nonneg(g),
                rows == g.len(),
                col_offset(g, grid_cols(g)) <= i32::MAX,
                h == col_offset(g, cc as int),
            decreases col_idx - cc,
        {
            let mut m: Option<i32> = None;
            let mut i: usize = 0;
            while i < rows
                invariant
                    i <= rows,
                    rows == g.len(),
                    cc < grid_cols(g),
                    g == self@,
                    is_rect(g),
                    m is None <==> col_min_width_upto(g, cc as int, i as int) is None,
                    m matches Some(x) ==> col_min_width_upto(g, cc as int, i as int) == Some(
                        x as int,
                    ),
                decreases rows - i,
            {
                proof {
                    assert(g[i as int].len() == grid_cols(g));
                }
                if let Some(s) = &self.inner[i][cc] {
                    m = match m {
                        None => Some(s.width),
                        Some(x) => Some(if s.width < x { s.width } else { x }),
                    };
                } else {
                    proof {
                        assert(g[i as int][cc as int] is None);
                    }
                }
                i += 1;
            }
            let add = match m {
                None => 0,
                Some(x) => x,
            };
            assert(add == col_min_width(g, cc as int));
            proof {
                lemma_col_offset_monotonic(g, cc as int + 1, grid_cols(g));
                lemma_col_offset_monotonic(g, cc as int, cc as int);
            }
            h = h + add;
            cc += 1;
        }
        (h, v)
    }

    /// Walks the occupied cells in row-major order and hands back one screen
    /// per occupied cell, with its `x` and `y` replaced by the absolute
    /// offsets of its column and row; name, width and height are unchanged.
    pub fn create_layout_for_sway(&self) -> (layout: Vec<Screen>)
        requires
            is_rect(self@),
            sizes_nonneg(self@),
            row_offset(self@, self@.len() as int) <= i32::MAX,
            col_offset(self@, grid_cols(self@)) <= i32::MAX,
        ensures
            layout@.len() == grid_occ_upto(self@, self@.len() as int),
            forall|r: int, c: int|
                0 <= r < self@.len() && 0 <= c < self@[r].len() && #[trigger] self@[r][c] is Some
                    ==> 0 <= occ_index(self@, r, c) < layout@.len() && layout@[occ_index(
                    self@,
                    r,
                    c,
                )] == (Screen {
                    x: col_offset(self@, c) as i32,
                    y: row_offset(self@, r) as i32,
                    width: self@[r][c]->0.width,
                    height: self@[r][c]->0.height,
                    name: self@[r][c]->0.name,
                }),
            forall|k: int|
                0 <= k < layout@.len() ==> some_cell_has_occ_index(self@, k),
    {
        let ghost g = self@;
        let mut layout: Vec<Screen> = Vec::new();
        let rows = self.inner.len();
        let mut r: usize = 0;
        while r < rows
            invariant
                r <= rows,
                rows == g.len(),
                g == self@,
                is_rect(g),
                sizes_nonneg(g),
                row_offset(g, g.len() as int) <= i32::MAX,
                col_offset(g, grid_cols(g)) <= i32::MAX,
                layout@.len() == grid_occ_upto(g, r as int),
                forall|rp: int, cp: int|
                    0 <= rp < r && 0 <= cp < g[rp].len() && #[trigger] g[rp][cp] is Some ==> 0
                        <= occ_index(g, rp, cp) < layout@.len() && layout@[occ_index(g, rp, cp)]
                        == (Screen {
                        x: col_offset(g, cp) as i32,
                        y: row_offset(g, rp) as i32,
                        width: g[rp][cp]->0.width,
                        height: g[rp][cp]->0.height,
                        name: g[rp][cp]->0.name,
                    }),
                forall|k: int|
                    0 <= k < layout@.len() ==> some_cell_has_occ_index(g, k),
            decreases rows - r,
        {
            let cols = self.inner[r].len();
            let mut c: usize = 0;
            while c < cols
                invariant
                    c <= cols,
                    r < rows,
                    rows == g.len(),
                    cols == g[r as int].len(),
                    g == self@,
                    is_rect(g),
                    sizes_nonneg(g),
                    row_offset(g, g.len() as int) <= i32::MAX,
                    col_offset(g, grid_cols(g)) <= i32::MAX,
                    layout@.len() == grid_occ_upto(g, r as int) + row_occ_upto(
                        g[r as int],
                        c as int,
                    ),
                    forall|rp: int, cp: int|
                        0 <= rp < r && 0 <= cp < g[rp].len() && #[trigger] g[rp][cp] is Some ==> 0
                            <= occ_index(g, rp, cp) < layout@.len() && layout@[occ_index(g, rp, cp)]
                            == (Screen {
                            x: col_offset(g, cp) as i32,
                            y: row_offset(g, rp) as i32,
                            width: g[rp][cp]->0.width,
                            height: g[rp][cp]->0.height,
                            name: g[rp][cp]->0.name,
                        }),
                    forall|cp: int|
                        0 <= cp < c && #[trigger] g[r as int][cp] is Some ==> 0 <= occ_index(
                            g,
                            r as int,
                            cp,
                        ) < layout@.len() && layout@[occ_index(g, r as int, cp)] == (Screen {
                            x: col_offset(g, cp) as i32,
                            y: row_offset(g, r as int) as i32,
                            width: g[r as int][cp]->0.width,
                            height: g[r as int][cp]->0.height,
                            name: g[r as int][cp]->0.name,
                        }),
                    forall|k: int|
                        0 <= k < layout@.len() ==> some_cell_has_occ_index(g, k),
                decreases cols - c,
            {
                if let Some(s) = &self.inner[r][c] {
                    let pos = self.calculate_coordinates(r, c);
                    layout.push(
                        Screen {
                            x: pos.0,
                            y: pos.1,
                            width: s.width,
                            height: s.height,
                            name: s.name.clone(),
                        },
                    );
                    proof {
                        assert(g[r as int][c as int] is Some);
                        assert(layout@.len() - 1 == occ_index(g, r as int, c as int));
                    }
                } else {
                    proof {
                        assert(g[r as int][c as int] is None);
                    }
                }
                c += 1;
            }
            r += 1;
        }
        layout
    }

    /// Moves the contents of the source cell into the destination cell: the
    /// destination takes the source cell's prior value, occupied or empty, and
    /// the source cell becomes empty. Moving a cell onto itself changes
    /// nothing.
    pub fn move_screen(
        &mut self,
        src_row_idx: usize,
        src_col_idx: usize,
        dst_row_idx: usize,
        dst_col_idx: usize,
    )
        requires
            is_rect(old(self)@),
            src_row_idx < old(self)@.len(),
            dst_row_idx < old(self)@.len(),
            src_col_idx < grid_cols(old(self)@),
            dst_col_idx < grid_cols(old(self)@),
        ensures
            final(self)@ == move_model(
                old(self)@,
                src_row_idx as int,
                src_col_idx as int,
                dst_row_idx as int,
                dst_col_idx as int,
            ),
            final(self)@.len() == old(self)@.len(),
            forall|i: int| 0 <= i < old(self)@.len() ==> #[trigger] final(self)@[i].len()
                == old(self)@[i].len(),
            final(self)@[dst_row_idx as int][dst_col_idx as int] == old(
                self,
            )@[src_row_idx as int][src_col_idx as int],
            !(src_row_idx == dst_row_idx && src_col_idx == dst_col_idx)
                ==> final(self)@[src_row_idx as int][src_col_idx as int] is None,
            forall|i: int, j: int|
                0 <= i < old(self)@.len() && 0 <= j < old(self)@[i].len() && !(i == src_row_idx
                    && j == src_col_idx) && !(i == dst_row_idx && j == dst_col_idx)
                    ==> #[trigger] final(self)@[i][j] == old(self)@[i][j],
    {
        let moved = self.take_cell(src_row_idx, src_col_idx);
        self.put_cell(dst_row_idx, dst_col_idx, moved);
    }
}

/// Every occupied cell of the grid under construction holds an input screen
/// whose `y` matches its row group's key and whose `x` matches its column
/// group's key.
#[verifier::opaque]
spec fn build_sound(
    gv: Seq<Seq<Option<Screen>>>,
    sv: Seq<Screen>,
    rg: Seq<Seq<Screen>>,
    cg: Seq<Seq<Screen>>,
) -> bool {
    forall|r: int, c: int|
        0 <= r < gv.len() && 0 <= c < gv[r].len() && #[trigger] gv[r][c] is Some ==> member_of(
            sv,
            gv[r][c]->0,
        ) && key_of(gv[r][c]->0, false) == key_of(rg[r][0], false) && key_of(gv[r][c]->0, true)
            == key_of(cg[c][0], true)
}

/// Row `r` holds, in the column whose group key is `t.x`, a screen at the
/// same position as `t`.
#[verifier::opaque]
spec fn placed_in_row(
    gv: Seq<Seq<Option<Screen>>>,
    cg: Seq<Seq<Screen>>,
    r: int,
    t: Screen,
) -> bool {
    exists|c: int|
        0 <= c < gv[r].len() && 0 <= c < cg.len() && #[trigger] gv[r][c] is Some
            && gv[r][c]->0.x == t.x && gv[r][c]->0.y == t.y && key_of(cg[c][0], true) == t.x as int
}

/// Every screen of the first `rows` row groups has been placed in its row.
spec fn rows_placed_upto(
    gv: Seq<Seq<Option<Screen>>>,
    cg: Seq<Seq<Screen>>,
    rg: Seq<Seq<Screen>>,
    rows: int,
) -> bool {
    forall|a: int, b: int|
        0 <= a < rows && 0 <= b < rg[a].len() ==> placed_in_row(gv, cg, a, #[trigger] rg[a][b])
}

/// The first `k` screens of row group `rp` have been placed in row `rp`.
spec fn row_placed_upto(
    gv: Seq<Seq<Option<Screen>>>,
    cg: Seq<Seq<Screen>>,
    rg: Seq<Seq<Screen>>,
    rp: int,
    k: int,
) -> bool {
    forall|b: int| 0 <= b < k ==> placed_in_row(gv, cg, rp, #[trigger] rg[rp][b])
}

/// Unfolds the grouping contract into its separate clauses.
proof fn lemma_grouping_basics(screens: Seq<Screen>, gs: Seq<Seq<Screen>>, by_x: bool)
    requires
        grouping_ok(screens, gs, by_x),
    ensures
        forall|a: int| 0 <= a < gs.len() ==> #[trigger] gs[a].len() >= 1,
        forall|a: int, b: int|
            #![trigger gs[a], gs[b]]
            0 <= a < b < gs.len() ==> key_of(gs[a][0], by_x) < key_of(gs[b][0], by_x),
        forall|a: int, p: int|
            0 <= a < gs.len() && 0 <= p < gs[a].len() ==> key_of(#[trigger] gs[a][p], by_x)
                == key_of(gs[a][0], by_x),
        forall|a: int, p: int|
            0 <= a < gs.len() && 0 <= p < gs[a].len() ==> member_of(screens, #[trigger] gs[a][p]),
        forall|i: int| 0 <= i < screens.len() ==> appears_in_groups(gs, #[trigger] screens[i]),
{
    reveal(grouping_ok);
}

/// With distinct names, a column group holds a screen named like `s` exactly
/// when the group's key is `s`'s `x` position.
proof fn lemma_name_key(sv: Seq<Screen>, cg: Seq<Seq<Screen>>, c: int, s: Screen)
    requires
        distinct_names(sv),
        grouping_ok(sv, cg, true),
        member_of(sv, s),
        0 <= c < cg.len(),
    ensures
        (exists|q: int| 0 <= q < cg[c].len() && #[trigger] cg[c][q].name@ == s.name@) <==> key_of(
            cg[c][0],
            true,
        ) == s.x as int,
{
    reveal(grouping_ok);
    if exists|q: int| 0 <= q < cg[c].len() && #[trigger] cg[c][q].name@ == s.name@ {
        let q = choose|q: int| 0 <= q < cg[c].len() && #[trigger] cg[c][q].name@ == s.name@;
        let u = cg[c][q];
        assert(member_of(sv, u));
        let iu = choose|i: int| 0 <= i < sv.len() && sv[i] == u;
        let is0 = choose|i: int| 0 <= i < sv.len() && sv[i] == s;
        assert(iu == is0);
        assert(u == s);
        assert(key_of(cg[c][q], true) == key_of(cg[c][0], true));
    }
    if key_of(cg[c][0], true) == s.x as int {
        let is0 = choose|i: int| 0 <= i < sv.len() && sv[i] == s;
        assert(appears_in_groups(cg, sv[is0]));
        let (c0, q0) = choose|c0: int, q0: int|
            0 <= c0 < cg.len() && 0 <= q0 < cg[c0].len() && #[trigger] cg[c0][q0] == s;
        assert(key_of(cg[c0][q0], true) == key_of(cg[c0][0], true));
        if c0 < c {
            assert(key_of(cg[c0][0], true) < key_of(cg[c][0], true));
        }
        if c0 > c {
            assert(key_of(cg[c][0], true) < key_of(cg[c0][0], true));
        }
        assert(c0 == c);
        assert(cg[c][q0].name@ == s.name@);
    }
}

/// Inserting the next screen into the group that bears its key, at its
/// inner-sorted position, keeps the grouping contract for the longer prefix.
#[verifier::rlimit(10)]
#[verifier::spinoff_prover]
proof fn lemma_split_insert(sv: Seq<Screen>, idx: int, pre: Seq<Seq<Screen>>, gi: int, p: int, by_x: bool)
    requires
        0 <= idx < sv.len(),
        grouping_ok(sv.subrange(0, idx), pre, by_x),
        0 <= gi < pre.len(),
        pre[gi].len() >= 1,
        key_of(pre[gi][0], by_x) == key_of(sv[idx], by_x),
        0 <= p <= pre[gi].len(),
        forall|q: int| 0 <= q < p ==> key_of(#[trigger] pre[gi][q], !by_x) <= key_of(sv[idx], !by_x),
        p < pre[gi].len() ==> key_of(pre[gi][p], !by_x) > key_of(sv[idx], !by_x),
    ensures
        grouping_ok(sv.subrange(0, idx + 1), pre.update(gi, pre[gi].insert(p, sv[idx])), by_x),
{
    reveal(grouping_ok);
    let svp = sv.subrange(0, idx);
    let svn = sv.subrange(0, idx + 1);
    assert(svn =~= svp.push(sv[idx]));
    let gg = pre[gi];
    let ggn = gg.insert(p, sv[idx]);
    gg.insert_ensures(p, sv[idx]);
    let now = pre.update(gi, ggn);
    lemma_total_len_update(pre, gi, ggn);
    assert(key_of(ggn[0], by_x) == key_of(gg[0], by_x));
    assert forall|p2: int| 0 <= p2 < ggn.len() implies key_of(#[trigger] ggn[p2], by_x) == key_of(
        ggn[0],
        by_x,
    ) by {
        if p2 < p {
            assert(ggn[p2] == gg[p2]);
        } else if p2 == p {
            assert(ggn[p2] == sv[idx]);
        } else {
            assert(ggn[p2] == gg[p2 - 1]);
        }
    }
    assert forall|p2: int, q2: int|
        #![trigger ggn[p2], ggn[q2]]
        0 <= p2 < q2 < ggn.len() implies key_of(ggn[p2], !by_x) <= key_of(ggn[q2], !by_x) by {
        if q2 < p {
        } else if q2 == p {
            assert(key_of(gg[p2], !by_x) <= key_of(sv[idx], !by_x));
        } else if p2 == p {
            assert(ggn[q2] == gg[q2 - 1]);
            if p < gg.len() {
                assert(key_of(gg[p], !by_x) > key_of(sv[idx], !by_x));
            }
        } else if p2 < p {
            assert(ggn[q2] == gg[q2 - 1]);
        } else {
            assert(ggn[p2] == gg[p2 - 1] && ggn[q2] == gg[q2 - 1]);
        }
    }
    assert forall|g2: int, p2: int|
        0 <= g2 < now.len() && 0 <= p2 < now[g2].len() implies member_of(
        svn,
        #[trigger] now[g2][p2],
    ) by {
        if g2 == gi && p2 == p {
            assert(svn[idx] == now[g2][p2]);
        } else {
            let m = now[g2][p2];
            if g2 == gi {
                assert(m == gg[if p2 < p {
                    p2
                } else {
                    p2 - 1
                }]);
            }
            assert(member_of(svp, m));
            let i0 = choose|i0: int| 0 <= i0 < svp.len() && svp[i0] == m;
            assert(svn[i0] == m);
        }
    }
    assert forall|i: int| 0 <= i < svn.len() implies appears_in_groups(now, #[trigger] svn[i]) by {
        if i == idx {
            assert(now[gi][p] == svn[i]);
        } else {
            assert(appears_in_groups(pre, svp[i]));
            let (g2, p2) = choose|g2: int, p2: int|
                0 <= g2 < pre.len() && 0 <= p2 < pre[g2].len() && #[trigger] pre[g2][p2] == svp[i];
            if g2 == gi {
                if p2 < p {
                    assert(now[g2][p2] == svn[i]);
                } else {
                    assert(now[g2][p2 + 1] == svn[i]);
                }
            } else {
                assert(now[g2][p2] == svn[i]);
            }
        }
    }
}

/// Starting a fresh singleton group for the next screen, at the slot its key
/// selects, keeps the grouping contract for the longer prefix.
#[verifier::rlimit(10)]
#[verifier::spinoff_prover]
proof fn lemma_split_new(sv: Seq<Screen>, idx: int, pre: Seq<Seq<Screen>>, gi: int, by_x: bool)
    requires
        0 <= idx < sv.len(),
        grouping_ok(sv.subrange(0, idx), pre, by_x),
        0 <= gi <= pre.len(),
        forall|a: int| 0 <= a < gi ==> key_of(#[trigger] pre[a][0], by_x) < key_of(sv[idx], by_x),
        gi < pre.len() ==> key_of(pre[gi][0], by_x) > key_of(sv[idx], by_x),
    ensures
        grouping_ok(sv.subrange(0, idx + 1), pre.insert(gi, seq![sv[idx]]), by_x),
{
    reveal(grouping_ok);
    let svp = sv.subrange(0, idx);
    let svn = sv.subrange(0, idx + 1);
    assert(svn =~= svp.push(sv[idx]));
    let single = seq![sv[idx]];
    pre.insert_ensures(gi, single);
    lemma_total_len_insert(pre, gi, single);
    let now = pre.insert(gi, single);
    assert forall|a: int, b: int|
        #![trigger now[a], now[b]]
        0 <= a < b < now.len() implies key_of(now[a][0], by_x) < key_of(now[b][0], by_x) by {
        if b == gi {
            assert(now[a] == pre[a]);
        } else if a == gi {
            assert(now[b] == pre[b - 1]);
            if b - 1 > gi {
                assert(key_of(pre[gi][0], by_x) < key_of(pre[b - 1][0], by_x));
            }
        } else if a < gi && b > gi {
            assert(now[a] == pre[a] && now[b] == pre[b - 1]);
        } else if b < gi {
            assert(now[a] == pre[a] && now[b] == pre[b]);
        } else {
            assert(now[a] == pre[a - 1] && now[b] == pre[b - 1]);
        }
    }
    assert forall|g2: int, p2: int|
        0 <= g2 < now.len() && 0 <= p2 < now[g2].len() implies member_of(
        svn,
        #[trigger] now[g2][p2],
    ) by {
        if g2 == gi {
            assert(now[g2][p2] == sv[idx]);
            assert(svn[idx] == now[g2][p2]);
        } else {
            let m = now[g2][p2];
            if g2 < gi {
                assert(m == pre[g2][p2]);
            } else {
                assert(m == pre[g2 - 1][p2]);
            }
            assert(member_of(svp, m));
            let i0 = choose|i0: int| 0 <= i0 < svp.len() && svp[i0] == m;
            assert(svn[i0] == m);
        }
    }
    assert forall|i: int| 0 <= i < svn.len() implies appears_in_groups(now, #[trigger] svn[i]) by {
        if i == idx {
            assert(now[gi][0] == svn[i]);
        } else {
            assert(appears_in_groups(pre, svp[i]));
            let (g2, p2) = choose|g2: int, p2: int|
                0 <= g2 < pre.len() && 0 <= p2 < pre[g2].len() && #[trigger] pre[g2][p2] == svp[i];
            if g2 < gi {
                assert(now[g2][p2] == svn[i]);
            } else {
                assert(now[g2 + 1][p2] == svn[i]);
            }
        }
    }
}

/// Writing a screen into the cell of its row and its key's column keeps the
/// builder's bookkeeping: soundness of every occupied cell, every earlier
/// placement, and the new placement itself.
#[verifier::rlimit(10)]
#[verifier::spinoff_prover]
proof fn lemma_place_step(
    gpre: Seq<Seq<Option<Screen>>>,
    sv: Seq<Screen>,
    rg: Seq<Seq<Screen>>,
    cg: Seq<Seq<Screen>>,
    rp: int,
    c: int,
    s: Screen,
)
    requires
        grouping_ok(sv, rg, false),
        0 <= rp < gpre.len(),
        0 <= c < grid_cols(gpre),
        is_rect(gpre),
        gpre.len() == rg.len(),
        grid_cols(gpre) == cg.len(),
        member_of(sv, s),
        key_of(s, false) == key_of(rg[rp][0], false),
        key_of(cg[c][0], true) == s.x as int,
        build_sound(gpre, sv, rg, cg),
    ensures
        is_rect(gpre.update(rp, gpre[rp].update(c, Some(s)))),
        grid_cols(gpre.update(rp, gpre[rp].update(c, Some(s)))) == grid_cols(gpre),
        build_sound(gpre.update(rp, gpre[rp].update(c, Some(s))), sv, rg, cg),
        placed_in_row(gpre.update(rp, gpre[rp].update(c, Some(s))), cg, rp, s),
        forall|a: int, b: int|
            0 <= a < rg.len() && 0 <= b < rg[a].len() && placed_in_row(
                gpre,
                cg,
                a,
                #[trigger] rg[a][b],
            ) ==> placed_in_row(gpre.update(rp, gpre[rp].update(c, Some(s))), cg, a, rg[a][b]),
{
    reveal(grouping_ok);
    reveal(build_sound);
    reveal(placed_in_row);
    let gnew = gpre.update(rp, gpre[rp].update(c, Some(s)));
    assert(gnew[rp][c] == Some(s));
    assert forall|a: int| 0 <= a < gnew.len() implies #[trigger] gnew[a].len() == grid_cols(
        gpre,
    ) by {
        if a != rp {
            assert(gnew[a] == gpre[a]);
        }
    }
    assert forall|r2: int, c2: int|
        0 <= r2 < gnew.len() && 0 <= c2 < gnew[r2].len() && #[trigger] gnew[r2][c2] is Some implies
        member_of(sv, gnew[r2][c2]->0) && key_of(gnew[r2][c2]->0, false) == key_of(rg[r2][0], false)
        && key_of(gnew[r2][c2]->0, true) == key_of(cg[c2][0], true) by {
        if r2 == rp && c2 == c {
            assert(gnew[r2][c2]->0 == s);
        } else {
            assert(gnew[r2][c2] == gpre[r2][c2]);
        }
    }
    assert forall|a: int, b: int|
        0 <= a < rg.len() && 0 <= b < rg[a].len() && placed_in_row(
            gpre,
            cg,
            a,
            #[trigger] rg[a][b],
        ) implies placed_in_row(gnew, cg, a, rg[a][b]) by {
        let t = rg[a][b];
        let cw = choose|cw: int|
            0 <= cw < gpre[a].len() && 0 <= cw < cg.len() && #[trigger] gpre[a][cw] is Some
                && gpre[a][cw]->0.x == t.x && gpre[a][cw]->0.y == t.y && key_of(cg[cw][0], true)
                == t.x as int;
        if a == rp && cw == c {
            assert(gpre[a][cw] is Some);
            assert(key_of(gpre[a][cw]->0, false) == key_of(rg[a][0], false));
            assert(key_of(t, false) == key_of(rg[a][0], false));
            assert(s.y == t.y);
            assert(s.x == t.x);
            assert(gnew[a][cw] == Some(s));
            assert(placed_in_row(gnew, cg, a, t));
        } else {
            assert(gnew[a][cw] == gpre[a][cw]);
        }
    }
}

/// Every input screen's position is held by some occupied cell once every
/// row group's screens are placed.
#[verifier::rlimit(30)]
#[verifier::spinoff_prover]
proof fn lemma_build_completeness(
    gv: Seq<Seq<Option<Screen>>>,
    sv: Seq<Screen>,
    rg: Seq<Seq<Screen>>,
    cg: Seq<Seq<Screen>>,
)
    requires
        grouping_ok(sv, rg, false),
        gv.len() == rg.len(),
        rows_placed_upto(gv, cg, rg, rg.len() as int),
    ensures
        forall|i: int| 0 <= i < sv.len() ==> grid_holds_position_of(gv, #[trigger] sv[i]),
{
    lemma_grouping_basics(sv, rg, false);
    assert forall|i: int| 0 <= i < sv.len() implies grid_holds_position_of(
        gv,
        #[trigger] sv[i],
    ) by {
        reveal(placed_in_row);
        assert(appears_in_groups(rg, sv[i]));
        let (a, b) = choose|a: int, b: int|
            0 <= a < rg.len() && 0 <= b < rg[a].len() && #[trigger] rg[a][b] == sv[i];
        assert(placed_in_row(gv, cg, a, rg[a][b]));
        let cw = choose|cw: int|
            0 <= cw < gv[a].len() && 0 <= cw < cg.len() && #[trigger] gv[a][cw] is Some
                && gv[a][cw]->0.x == sv[i].x && gv[a][cw]->0.y == sv[i].y && key_of(cg[cw][0], true)
                == sv[i].x as int;
        assert(gv[a][cw] is Some && gv[a][cw]->0.x == sv[i].x && gv[a][cw]->0.y == sv[i].y);
    }
}

/// Occupied cells follow the group keys, so row order follows `y` and column
/// order follows `x`.
#[verifier::rlimit(30)]
#[verifier::spinoff_prover]
proof fn lemma_build_ordered(
    gv: Seq<Seq<Option<Screen>>>,
    sv: Seq<Screen>,
    rg: Seq<Seq<Screen>>,
    cg: Seq<Seq<Screen>>,
)
    requires
        grouping_ok(sv, rg, false),
        grouping_ok(sv, cg, true),
        gv.len() == rg.len(),
        grid_cols(gv) == cg.len(),
        is_rect(gv),
        build_sound(gv, sv, rg, cg),
    ensures
        positions_ordered(gv),
{
    lemma_grouping_basics(sv, rg, false);
    lemma_grouping_basics(sv, cg, true);
    assert forall|r1: int, c1: int, r2: int, c2: int|
        #![trigger gv[r1][c1], gv[r2][c2]]
        0 <= r1 < gv.len() && 0 <= c1 < gv[r1].len() && 0 <= r2 < gv.len() && 0 <= c2
            < gv[r2].len() && gv[r1][c1] is Some && gv[r2][c2] is Some implies ((gv[r1][c1]->0.y
        < gv[r2][c2]->0.y) <==> r1 < r2) && ((gv[r1][c1]->0.x < gv[r2][c2]->0.x) <==> c1 < c2) by {
        reveal(build_sound);
        if r1 < r2 {
            assert(key_of(rg[r1][0], false) < key_of(rg[r2][0], false));
        }
        if r2 < r1 {
            assert(key_of(rg[r2][0], false) < key_of(rg[r1][0], false));
        }
        if c1 < c2 {
            assert(key_of(cg[c1][0], true) < key_of(cg[c2][0], true));
        }
        if c2 < c1 {
            assert(key_of(cg[c2][0], true) < key_of(cg[c1][0], true));
        }
    }
}

/// Every row of the finished grid holds a screen: its row group's first
/// screen was placed in it.
#[verifier::rlimit(30)]
#[verifier::spinoff_prover]
proof fn lemma_build_rows_occupied(
    gv: Seq<Seq<Option<Screen>>>,
    sv: Seq<Screen>,
    rg: Seq<Seq<Screen>>,
    cg: Seq<Seq<Screen>>,
)
    requires
        grouping_ok(sv, rg, false),
        gv.len() == rg.len(),
        rows_placed_upto(gv, cg, rg, rg.len() as int),
    ensures
        all_rows_occupied(gv),
{
    lemma_grouping_basics(sv, rg, false);
    assert forall|r: int| 0 <= r < gv.len() implies row_occupied(#[trigger] gv[r]) by {
        reveal(placed_in_row);
        assert(rg[r].len() >= 1);
        assert(placed_in_row(gv, cg, r, rg[r][0]));
        let cw = choose|cw: int|
            0 <= cw < gv[r].len() && 0 <= cw < cg.len() && #[trigger] gv[r][cw] is Some
                && gv[r][cw]->0.x == rg[r][0].x && gv[r][cw]->0.y == rg[r][0].y && key_of(
                cg[cw][0],
                true,
            ) == rg[r][0].x as int;
        assert(gv[r][cw] is Some);
    }
}

/// Every column of the finished grid holds a screen: its column group's
/// first screen was placed in the row of its `y` and the column of its `x`.
#[verifier::rlimit(30)]
#[verifier::spinoff_prover]
proof fn lemma_build_cols_occupied(
    gv: Seq<Seq<Option<Screen>>>,
    sv: Seq<Screen>,
    rg: Seq<Seq<Screen>>,
    cg: Seq<Seq<Screen>>,
)
    requires
        grouping_ok(sv, rg, false),
        grouping_ok(sv, cg, true),
        gv.len() == rg.len(),
        grid_cols(gv) == cg.len(),
        is_rect(gv),
        rows_placed_upto(gv, cg, rg, rg.len() as int),
    ensures
        all_cols_occupied(gv),
{
    lemma_grouping_basics(sv, rg, false);
    lemma_grouping_basics(sv, cg, true);
    assert forall|c: int| 0 <= c < grid_cols(gv) implies col_occupied(gv, c) by {
        reveal(placed_in_row);
        let t = cg[c][0];
        assert(member_of(sv, t));
        let it = choose|i: int| 0 <= i < sv.len() && sv[i] == t;
        assert(appears_in_groups(rg, sv[it]));
        let (a, b) = choose|a: int, b: int|
            0 <= a < rg.len() && 0 <= b < rg[a].len() && #[trigger] rg[a][b] == t;
        assert(placed_in_row(gv, cg, a, t));
        let cw = choose|cw: int|
            0 <= cw < gv[a].len() && 0 <= cw < cg.len() && #[trigger] gv[a][cw] is Some
                && gv[a][cw]->0.x == t.x && gv[a][cw]->0.y == t.y && key_of(cg[cw][0], true)
                == t.x as int;
        assert(key_of(cg[c][0], true) == t.x as int);
        if cw < c {
            assert(key_of(cg[cw][0], true) < key_of(cg[c][0], true));
        }
        if cw > c {
            assert(key_of(cg[c][0], true) < key_of(cg[cw][0], true));
        }
        assert(cw == c);
        assert(gv[a][c] is Some);
    }
}

/// With distinct input names, no name appears in two cells of the finished
/// grid.
#[verifier::rlimit(30)]
#[verifier::spinoff_prover]
proof fn lemma_build_names_unique(
    gv: Seq<Seq<Option<Screen>>>,
    sv: Seq<Screen>,
    rg: Seq<Seq<Screen>>,
    cg: Seq<Seq<Screen>>,
)
    requires
        distinct_names(sv),
        grouping_ok(sv, rg, false),
        grouping_ok(sv, cg, true),
        gv.len() == rg.len(),
        grid_cols(gv) == cg.len(),
        is_rect(gv),
        build_sound(gv, sv, rg, cg),
    ensures
        names_unique(gv),
{
    lemma_grouping_basics(sv, rg, false);
    lemma_grouping_basics(sv, cg, true);
    assert forall|r1: int, c1: int, r2: int, c2: int|
        0 <= r1 < gv.len() && 0 <= c1 < gv[r1].len() && 0 <= r2 < gv.len() && 0 <= c2
            < gv[r2].len() && #[trigger] gv[r1][c1] is Some && #[trigger] gv[r2][c2] is Some
            && gv[r1][c1]->0.name@ == gv[r2][c2]->0.name@ implies r1 == r2 && c1 == c2 by {
        reveal(build_sound);
        let u1 = gv[r1][c1]->0;
        let u2 = gv[r2][c2]->0;
        assert(member_of(sv, u1));
        assert(member_of(sv, u2));
        let i1 = choose|i: int| 0 <= i < sv.len() && sv[i] == u1;
        let i2 = choose|i: int| 0 <= i < sv.len() && sv[i] == u2;
        assert(i1 == i2);
        assert(u1 == u2);
        if r1 < r2 {
            assert(key_of(rg[r1][0], false) < key_of(rg[r2][0], false));
        }
        if r2 < r1 {
            assert(key_of(rg[r2][0], false) < key_of(rg[r1][0], false));
        }
        if c1 < c2 {
            assert(key_of(cg[c1][0], true) < key_of(cg[c2][0], true));
        }
        if c2 < c1 {
            assert(key_of(cg[c2][0], true) < key_of(cg[c1][0], true));
        }
    }
}

/// A grid in which every row group's screens are placed, whose occupied
/// cells all follow the group keys, and whose groups partition screens with
/// distinct names, satisfies everything the builder promises.
#[verifier::rlimit(30)]
#[verifier::spinoff_prover]
proof fn lemma_built_grid_ok(
    gv: Seq<Seq<Option<Screen>>>,
    sv: Seq<Screen>,
    rg: Seq<Seq<Screen>>,
    cg: Seq<Seq<Screen>>,
)
    requires
        distinct_names(sv),
        grouping_ok(sv, rg, false),
        grouping_ok(sv, cg, true),
        gv.len() == rg.len(),
        rg.len() >= 1,
        cg.len() >= 1,
        is_rect(gv),
        grid_cols(gv) == cg.len(),
        build_sound(gv, sv, rg, cg),
        rows_placed_upto(gv, cg, rg, rg.len() as int),
    ensures
        built_ok(sv, gv),
{
    lemma_build_completeness(gv, sv, rg, cg);
    lemma_build_ordered(gv, sv, rg, cg);
    lemma_build_rows_occupied(gv, sv, rg, cg);
    lemma_build_cols_occupied(gv, sv, rg, cg);
    lemma_build_names_unique(gv, sv, rg, cg);
    assert forall|r: int, c: int|
        0 <= r < gv.len() && 0 <= c < gv[r].len() && #[trigger] gv[r][c] is Some implies member_of(
        sv,
        gv[r][c]->0,
    ) by {
        reveal(build_sound);
    }
}

/// The grouping key read off a screen: `x` when columns are formed, `y` when
/// rows are formed.
fn key_val(s: &Screen, by_x: bool) -> (k: i32)
    ensures
        k as int == key_of(*s, by_x),
{
    if by_x {
        s.x
    } else {
        s.y
    }
}

/// Finds where a group with the given key belongs among groups in ascending
/// key order: the first position whose group key is not below `k`.
fn find_slot(groups: &Vec<Vec<Screen>>, k: i32, by_x: bool) -> (gi: usize)
    requires
        forall|a: int| 0 <= a < groups@.len() ==> #[trigger] groups@[a]@.len() >= 1,
        forall|a: int, b: int|
            #![trigger groups@[a], groups@[b]]
            0 <= a < b < groups@.len() ==> key_of(groups@[a]@[0], by_x) < key_of(
                groups@[b]@[0],
                by_x,
            ),
    ensures
        gi <= groups@.len(),
        forall|a: int| 0 <= a < gi ==> key_of(#[trigger] groups@[a]@[0], by_x) < k as int,
        gi < groups@.len() ==> key_of(groups@[gi as int]@[0], by_x) >= k as int,
{
    let mut gi: usize = 0;
    while gi < groups.len()
        invariant
            gi <= groups@.len(),
            forall|a: int| 0 <= a < groups@.len() ==> #[trigger] groups@[a]@.len() >= 1,
            forall|a: int| 0 <= a < gi ==> key_of(#[trigger] groups@[a]@[0], by_x) < k as int,
        decreases groups@.len() - gi,
    {
        if key_val(&groups[gi][0], by_x) >= k {
            return gi;
        }
        gi += 1;
    }
    gi
}

/// Finds where a screen with the given inner key belongs inside a group
/// sorted by inner key: the first position whose inner key exceeds `ik`.
fn find_inner(grp: &Vec<Screen>, ik: i32, by_x: bool) -> (p: usize)
    ensures
        p <= grp@.len(),
        forall|q: int| 0 <= q < p ==> key_of(#[trigger] grp@[q], !by_x) <= ik as int,
        p < grp@.len() ==> key_of(grp@[p as int], !by_x) > ik as int,
{
    let mut p: usize = 0;
    while p < grp.len()
        invariant
            p <= grp@.len(),
            forall|q: int| 0 <= q < p ==> key_of(#[trigger] grp@[q], !by_x) <= ik as int,
        decreases grp@.len() - p,
    {
        if key_val(&grp[p], !by_x) > ik {
            return p;
        }
        p += 1;
    }
    p
}

/// The total number of screens over the groups is unchanged by overwriting
/// one group, up to the two groups' lengths.
proof fn lemma_total_len_update(gs: Seq<Seq<Screen>>, i: int, g2: Seq<Screen>)
    requires
        0 <= i < gs.len(),
    ensures
        total_len(gs.update(i, g2)) == total_len(gs) - gs[i].len() + g2.len(),
    decreases gs.len(),
{
    if i == gs.len() - 1 {
        assert(gs.update(i, g2).drop_last() =~= gs.drop_last());
        assert(gs.update(i, g2).last() == g2);
    } else {
        lemma_total_len_update(gs.drop_last(), i, g2);
        assert(gs.update(i, g2).drop_last() =~= gs.drop_last().update(i, g2));
        assert(gs.update(i, g2).last() == gs.last());
    }
}

/// Inserting a group adds its length to the total number of screens.
proof fn lemma_total_len_insert(gs: Seq<Seq<Screen>>, i: int, g2: Seq<Screen>)
    requires
        0 <= i <= gs.len(),
    ensures
        total_len(gs.insert(i, g2)) == total_len(gs) + g2.len(),
    decreases gs.len(),
{
    if i == gs.len() {
        assert(gs.insert(i, g2).drop_last() =~= gs);
        assert(gs.insert(i, g2).last() == g2);
    } else {
        lemma_total_len_insert(gs.drop_last(), i, g2);
        assert(gs.insert(i, g2).drop_last() =~= gs.drop_last().insert(i, g2));
        assert(gs.insert(i, g2).last() == gs.last());
    }
}

/// Removing an element and inserting another at the same position is the same
/// as overwriting that position.
proof fn lemma_remove_insert_is_update<T>(s: Seq<T>, i: int, x: T)
    requires
        0 <= i < s.len(),
    ensures
        s.remove(i).insert(i, x) == s.update(i, x),
{
    s.remove_ensures(i);
    s.remove(i).insert_ensures(i, x);
    assert(s.remove(i).insert(i, x) =~= s.update(i, x));
}

} // verus!
