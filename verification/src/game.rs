use vstd::prelude::*;

use crate::grid::{
    cell, cell_index, count_where, in_grid, lemma_cell_bounds, lemma_cell_injective,
    lemma_count_bounds, lemma_count_ext, lemma_count_none, lemma_count_pos, lemma_count_split,
    lemma_count_step, lemma_count_sub, lemma_nbr_count_zero, nbr_at, nbr_count, nbr_ok, neighbour,
    off_x, off_y,
};
use crate::model::{blank_field, flag_delta, flag_one_pred, next_flag, uncover_at, Field, Model};
use crate::settings::{level_dims, lemma_levels_leave_room, Preferences};
use crate::solver::{cat_pred, counts_ok, flood_from, nbr_index_of, subset};

verus! {

/// Where a game stands.
#[derive(PartialEq, Eq, Clone, Copy, Debug, Structural)]
pub enum GameState {
    NotStarted,
    Running,
    Won,
    Lost,
}

/// A game: the board, where the game stands, and what the player is shown.
pub struct Game {
    pub model: Model,
    pub state: GameState,
    /// Cats still to find as shown to the player: the cats less the flags placed.
    pub cat_display: i32,
    /// Boards tried before the current one was accepted.
    pub gen_attempts: u32,
    /// The uncovered cat that lost the game.
    pub exploded: Option<(usize, usize)>,
    /// The first click, waiting for its board to be generated.
    pub pending: Option<(usize, usize)>,
}

/// The cell with index `j` is covered.
pub open spec fn covered_cell(data: Seq<Field>) -> spec_fn(int) -> bool {
    |j: int| !data[j].discovered
}

/// The cell with index `j` is uncovered.
pub open spec fn uncovered_cell(data: Seq<Field>) -> spec_fn(int) -> bool {
    |j: int| data[j].discovered
}

/// Which cells of `data` are uncovered.
pub open spec fn disc(data: Seq<Field>) -> Seq<bool> {
    Seq::new(data.len(), |i: int| data[i].discovered)
}

/// `b` is `a` with some more cells uncovered and nothing else changed.
pub open spec fn only_uncovers(a: Seq<Field>, b: Seq<Field>) -> bool {
    &&& a.len() == b.len()
    &&& forall|i: int|
        0 <= i < a.len() ==> (#[trigger] b[i]).cat == a[i].cat && b[i].flag == a[i].flag
            && b[i].neighbours == a[i].neighbours && (a[i].discovered ==> b[i].discovered)
}

/// `s` is a set of uncovered cells that a click on the cells in `t` may leave
/// behind on `data`: it keeps what was uncovered, holds every unmarked cell of
/// `t`, and around every newly uncovered zero without a cat it holds every
/// unmarked neighbour.
pub open spec fn opened_from(
    data: Seq<Field>,
    w: int,
    h: int,
    t: spec_fn(int) -> bool,
    s: Seq<bool>,
) -> bool {
    &&& s.len() == data.len()
    &&& forall|i: int| 0 <= i < data.len() && #[trigger] data[i].discovered ==> s[i]
    &&& forall|i: int| 0 <= i < data.len() && #[trigger] t(i) && data[i].flag == 0 ==> s[i]
    &&& forall|x: int, y: int|
        in_grid(w, h, x, y) && #[trigger] s[cell(w, x, y)] && !data[cell(w, x, y)].discovered
            && !data[cell(w, x, y)].cat && data[cell(w, x, y)].neighbours == 0 ==> forall|k: int|
            #[trigger] nbr_ok(w, h, x, y, k) ==> s[nbr_at(w, x, y, k)] || data[nbr_at(
                w,
                x,
                y,
                k,
            )].flag != 0
}

/// Clicking on the cells of `t` turns `a` into `b`: `b` uncovers exactly the
/// least set that `opened_from` allows, and changes nothing else.
pub open spec fn click_opens(a: Seq<Field>, w: int, h: int, t: spec_fn(int) -> bool, b: Seq<Field>) -> bool {
    &&& only_uncovers(a, b)
    &&& opened_from(a, w, h, t, disc(b))
    &&& forall|s: Seq<bool>| #[trigger] opened_from(a, w, h, t, s) ==> subset(disc(b), s)
}

/// The neighbours of (x, y) on the board.
pub open spec fn nbrs_of(w: int, h: int, x: int, y: int) -> spec_fn(int) -> bool {
    |i: int| nbr_index_of(w, h, x, y, i)
}

/// The single cell `c`.
pub open spec fn just(c: int) -> spec_fn(int) -> bool {
    |i: int| i == c
}

/// The model's board is laid out and its tally of uncovered cells is exact
/// enough to be incremented.
pub open spec fn board_ok(m: Model) -> bool {
    &&& m.data@.len() == m.width * m.height
    &&& m.width * m.height <= usize::MAX
    &&& m.discovered_count <= count_where(m.data@.len() as int, uncovered_cell(m.data@))
}

/// `x`, `y` is a neighbour of the cell (cx, cy) on the board.
pub open spec fn is_nbr_coord(w: int, h: int, cx: int, cy: int, p: (usize, usize)) -> bool {
    exists|k: int| #[trigger] nbr_ok(w, h, cx, cy, k) && p.0 == cx + off_x(k) && p.1 == cy + off_y(k)
}

proof fn lemma_covered_uncovered(data: Seq<Field>)
    ensures
        count_where(data.len() as int, covered_cell(data)) + count_where(
            data.len() as int,
            uncovered_cell(data),
        ) == data.len(),
{
    let n = data.len() as int;
    lemma_count_split(n, covered_cell(data), uncovered_cell(data), |i: int| true);
    lemma_count_all(n);
}

proof fn lemma_count_all(n: int)
    requires
        0 <= n,
    ensures
        count_where(n, |i: int| true) == n,
    decreases n,
{
    if n > 0 {
        lemma_count_all(n - 1);
    }
}

/// Uncovering grows the uncovered cells and shrinks the covered ones by the
/// same amount.
proof fn lemma_uncover_counts(a: Seq<Field>, b: Seq<Field>)
    requires
        only_uncovers(a, b),
    ensures
        count_where(b.len() as int, covered_cell(b)) <= count_where(a.len() as int, covered_cell(a)),
        count_where(a.len() as int, uncovered_cell(a)) - count_where(b.len() as int, uncovered_cell(b))
            == count_where(b.len() as int, covered_cell(b)) - count_where(a.len() as int, covered_cell(a)),
{
    lemma_covered_uncovered(a);
    lemma_covered_uncovered(b);
    lemma_count_sub(a.len() as int, covered_cell(b), covered_cell(a));
}

impl Game {
    /// Uncovers the cell at (x, y) as a click does: nothing happens on an
    /// uncovered or marked cell; otherwise it is uncovered, and if it is a zero
    /// without a cat its unmarked covered neighbours are uncovered in turn.
    pub fn discover_flood(&mut self, x: usize, y: usize)
        requires
            board_ok(old(self).model),
            x < old(self).model.width,
            y < old(self).model.height,
        ensures
            board_ok(final(self).model),
            final(self).model.width == old(self).model.width,
            final(self).model.height == old(self).model.height,
            final(self).model.total_cats == old(self).model.total_cats,
            final(self).state == old(self).state,
            final(self).cat_display == old(self).cat_display,
            final(self).gen_attempts == old(self).gen_attempts,
            final(self).exploded == old(self).exploded,
            final(self).pending == old(self).pending,
            click_opens(
                old(self).model.data@,
                old(self).model.width as int,
                old(self).model.height as int,
                just(cell(old(self).model.width as int, x as int, y as int)),
                final(self).model.data@,
            ),
            final(self).model.discovered_count - old(self).model.discovered_count == count_where(
                final(self).model.data@.len() as int,
                uncovered_cell(final(self).model.data@),
            ) - count_where(old(self).model.data@.len() as int, uncovered_cell(old(self).model.data@)),
        decreases count_where(old(self).model.data@.len() as int, covered_cell(old(self).model.data@)),
    {
        let ghost w = self.model.width as int;
        let ghost h = self.model.height as int;
        let ghost d0 = self.model.data@;
        let ghost dc0 = self.model.discovered_count;
        let ghost c = cell(w, x as int, y as int);
        let width = self.model.width;
        let height = self.model.height;
        let idx = cell_index(width, height, x, y);
        let f = *self.model.field(x, y);
        if f.discovered || f.flag != 0 {
            proof {
                assert(disc(d0).len() == d0.len());
                assert forall|s: Seq<bool>| #[trigger] opened_from(d0, w, h, just(c), s) implies subset(disc(d0), s) by {
                    assert forall|i: int| 0 <= i < disc(d0).len() && #[trigger] disc(d0)[i] implies s[i] by {
                        assert(d0[i].discovered);
                    }
                }
                assert forall|cx: int, cy: int|
                    in_grid(w, h, cx, cy) && #[trigger] disc(d0)[cell(w, cx, cy)] && !d0[cell(w, cx, cy)].discovered
                        && !d0[cell(w, cx, cy)].cat && d0[cell(w, cx, cy)].neighbours == 0 implies forall|k: int|
                    #[trigger] nbr_ok(w, h, cx, cy, k) ==> disc(d0)[nbr_at(w, cx, cy, k)] || d0[nbr_at(w, cx, cy, k)].flag != 0 by {
                    lemma_cell_bounds(w, h, cx, cy);
                }
            }
            return;
        }
        proof {
            lemma_covered_uncovered(d0);
            lemma_count_pos(d0.len() as int, covered_cell(d0), idx as int);
        }
        self.model.discover(x, y);
        let ghost da = self.model.data@;
        proof {
            assert(da == uncover_at(d0, c));
            lemma_count_step(d0.len() as int, uncovered_cell(d0), uncovered_cell(da), c);
            lemma_count_step(d0.len() as int, covered_cell(da), covered_cell(d0), c);
        }
        let neighbours = self.model.field(x, y).neighbours;
        let is_cat = self.model.field(x, y).cat;
        if neighbours == 0 && !is_cat {
            let mut coords: Vec<(usize, usize)> = Vec::new();
            let mut k: usize = 0;
            while k < 9
                invariant
                    0 <= k <= 9,
                    x < width,
                    y < height,
                    w == width,
                    h == height,
                    self.model.data@ == da,
                    self.model.width == width,
                    self.model.height == height,
                    da.len() == w * h,
                    w * h <= usize::MAX,
                    forall|m: int| 0 <= m < coords@.len() ==> is_nbr_coord(w, h, x as int, y as int, #[trigger] coords@[m]),
                    forall|m: int| 0 <= m < coords@.len() ==> da[cell(w, (#[trigger] coords@[m]).0 as int, coords@[m].1 as int)].flag == 0,
                    forall|j: int|
                        0 <= j < k && #[trigger] nbr_ok(w, h, x as int, y as int, j) && !da[nbr_at(w, x as int, y as int, j)].discovered
                            && da[nbr_at(w, x as int, y as int, j)].flag == 0 ==> coords@.contains(
                            ((x + off_x(j)) as usize, (y + off_y(j)) as usize),
                        ),
                decreases 9 - k,
            {
                let ghost ck = coords@;
                match neighbour(width, height, x, y, k) {
                    Some((nx, ny)) => {
                        proof {
                            lemma_cell_bounds(w, h, nx as int, ny as int);
                        }
                        let nf = self.model.field(nx, ny);
                        assert(cell(w, nx as int, ny as int) == nbr_at(w, x as int, y as int, k as int));
                        if !nf.discovered && nf.flag == 0 {
                            coords.push((nx, ny));
                            proof {
                                assert(coords@[coords@.len() - 1] == (nx, ny));
                                assert(nbr_ok(w, h, x as int, y as int, k as int));
                                assert forall|m: int| 0 <= m < coords@.len() implies is_nbr_coord(w, h, x as int, y as int, #[trigger] coords@[m])
                                    && da[cell(w, coords@[m].0 as int, coords@[m].1 as int)].flag == 0 by {
                                    if m < ck.len() {
                                        assert(coords@[m] == ck[m]);
                                    }
                                }
                                assert forall|j: int|
                                    0 <= j < k + 1 && #[trigger] nbr_ok(w, h, x as int, y as int, j) && !da[nbr_at(w, x as int, y as int, j)].discovered
                                        && da[nbr_at(w, x as int, y as int, j)].flag == 0 implies coords@.contains(
                                        ((x + off_x(j)) as usize, (y + off_y(j)) as usize),
                                    ) by {
                                    if j < k {
                                        let e = ((x + off_x(j)) as usize, (y + off_y(j)) as usize);
                                        let m = choose|m: int| 0 <= m < ck.len() && ck[m] == e;
                                        assert(coords@[m] == e);
                                    } else {
                                        assert(coords@[coords@.len() - 1] == (nx, ny));
                                    }
                                }
                            }
                        }
                    },
                    None => {},
                }
                k = k + 1;
            }
            proof {
                assert forall|cx: int, cy: int|
                    in_grid(w, h, cx, cy) && #[trigger] da[cell(w, cx, cy)].discovered && !d0[cell(w, cx, cy)].discovered
                        && !d0[cell(w, cx, cy)].cat && d0[cell(w, cx, cy)].neighbours == 0 && cell(w, cx, cy) != c implies forall|k: int|
                        #[trigger] nbr_ok(w, h, cx, cy, k) ==> da[nbr_at(w, cx, cy, k)].discovered || d0[nbr_at(w, cx, cy, k)].flag != 0 by {
                    lemma_cell_bounds(w, h, cx, cy);
                }
                assert forall|s: Seq<bool>| #[trigger] opened_from(d0, w, h, just(c), s) implies subset(disc(da), s) by {
                    assert forall|q: int| 0 <= q < disc(da).len() && #[trigger] disc(da)[q] implies s[q] by {
                        if q == c {
                            assert(just(c)(q));
                        } else {
                            assert(d0[q].discovered);
                        }
                    }
                }
            }
            let mut i: usize = 0;
            while i < coords.len()
                invariant
                    0 <= i <= coords@.len(),
                    x < width,
                    y < height,
                    w == width,
                    h == height,
                    c == cell(w, x as int, y as int),
                    0 <= c < d0.len(),
                    da == uncover_at(d0, c),
                    !d0[c].discovered,
                    d0[c].flag == 0,
                    !d0[c].cat,
                    d0[c].neighbours == 0,
                    board_ok(self.model),
                    self.model.width == width,
                    self.model.height == height,
                    self.model.total_cats == old(self).model.total_cats,
                    self.state == old(self).state,
                    self.cat_display == old(self).cat_display,
                    self.gen_attempts == old(self).gen_attempts,
                    self.exploded == old(self).exploded,
                    self.pending == old(self).pending,
                    d0 == old(self).model.data@,
                    dc0 == old(self).model.discovered_count,
                    only_uncovers(da, self.model.data@),
                    only_uncovers(d0, self.model.data@),
                    self.model.discovered_count - dc0 == count_where(d0.len() as int, uncovered_cell(self.model.data@))
                        - count_where(d0.len() as int, uncovered_cell(d0)),
                    count_where(d0.len() as int, covered_cell(self.model.data@)) < count_where(d0.len() as int, covered_cell(d0)),
                    forall|m: int| 0 <= m < coords@.len() ==> #[trigger] is_nbr_coord(w, h, x as int, y as int, coords@[m])
                        && da[cell(w, coords@[m].0 as int, coords@[m].1 as int)].flag == 0,
                    forall|j: int|
                        0 <= j < 9 && #[trigger] nbr_ok(w, h, x as int, y as int, j) && !da[nbr_at(w, x as int, y as int, j)].discovered
                            && da[nbr_at(w, x as int, y as int, j)].flag == 0 ==> coords@.contains(
                            ((x + off_x(j)) as usize, (y + off_y(j)) as usize),
                        ),
                    forall|m: int| 0 <= m < i ==> self.model.data@[cell(w, (#[trigger] coords@[m]).0 as int, coords@[m].1 as int)].discovered,
                    forall|cx: int, cy: int|
                        in_grid(w, h, cx, cy) && #[trigger] self.model.data@[cell(w, cx, cy)].discovered && !d0[cell(w, cx, cy)].discovered
                            && !d0[cell(w, cx, cy)].cat && d0[cell(w, cx, cy)].neighbours == 0 && cell(w, cx, cy) != c ==> forall|k: int|
                            #[trigger] nbr_ok(w, h, cx, cy, k) ==> self.model.data@[nbr_at(w, cx, cy, k)].discovered || d0[nbr_at(w, cx, cy, k)].flag != 0,
                    forall|s: Seq<bool>| #[trigger] opened_from(d0, w, h, just(c), s) ==> subset(disc(self.model.data@), s),
                decreases coords@.len() - i,
            {
                let (nx, ny) = coords[i];
                let ghost dm = self.model.data@;
                let ghost dcm = self.model.discovered_count;
                proof {
                    assert(is_nbr_coord(w, h, x as int, y as int, coords@[i as int]));
                    let kk = choose|kk: int| #[trigger] nbr_ok(w, h, x as int, y as int, kk) && coords@[i as int].0 == x + off_x(kk) && coords@[i as int].1 == y + off_y(kk);
                    assert(nbr_ok(w, h, x as int, y as int, kk));
                    lemma_uncover_counts(d0, dm);
                    assert(dm.len() == d0.len());
                    lemma_count_bounds(dm.len() as int, covered_cell(dm));
                }
                self.discover_flood(nx, ny);
                proof {
                    let t = cell(w, nx as int, ny as int);
                    let kk = choose|kk: int| #[trigger] nbr_ok(w, h, x as int, y as int, kk) && coords@[i as int].0 == x + off_x(kk) && coords@[i as int].1 == y + off_y(kk);
                    assert(t == nbr_at(w, x as int, y as int, kk));
                    lemma_cell_bounds(w, h, nx as int, ny as int);
                    let dn = self.model.data@;
                    assert(only_uncovers(d0, dn)) by {
                        assert forall|q: int| 0 <= q < d0.len() implies (#[trigger] dn[q]).cat == d0[q].cat && dn[q].flag == d0[q].flag
                            && dn[q].neighbours == d0[q].neighbours && (d0[q].discovered ==> dn[q].discovered) by {
                            assert(dm[q].cat == d0[q].cat);
                        }
                    }
                    assert(only_uncovers(da, dn)) by {
                        assert forall|q: int| 0 <= q < da.len() implies (#[trigger] dn[q]).cat == da[q].cat && dn[q].flag == da[q].flag
                            && dn[q].neighbours == da[q].neighbours && (da[q].discovered ==> dn[q].discovered) by {
                            assert(dm[q].cat == da[q].cat);
                        }
                    }
                    lemma_uncover_counts(dm, dn);
                    // the cell just clicked is now uncovered
                    assert(just(t)(t) && dm[t].flag == 0);
                    assert(disc(dn)[t]);
                    assert forall|m: int| 0 <= m < i + 1 implies self.model.data@[cell(w, (#[trigger] coords@[m]).0 as int, coords@[m].1 as int)].discovered by {
                        if m < i {
                            let q = cell(w, coords@[m].0 as int, coords@[m].1 as int);
                            assert(is_nbr_coord(w, h, x as int, y as int, coords@[m]));
                            let k2 = choose|k2: int| #[trigger] nbr_ok(w, h, x as int, y as int, k2) && coords@[m].0 == x + off_x(k2) && coords@[m].1 == y + off_y(k2);
                            assert(nbr_ok(w, h, x as int, y as int, k2));
                            lemma_cell_bounds(w, h, coords@[m].0 as int, coords@[m].1 as int);
                            assert(dm[q].discovered);
                        } else {
                            assert(disc(dn)[t]);
                        }
                    }
                    // newly uncovered zeros have their neighbours uncovered
                    assert forall|cx: int, cy: int|
                        in_grid(w, h, cx, cy) && #[trigger] dn[cell(w, cx, cy)].discovered && !d0[cell(w, cx, cy)].discovered
                            && !d0[cell(w, cx, cy)].cat && d0[cell(w, cx, cy)].neighbours == 0 && cell(w, cx, cy) != c implies forall|k: int|
                            #[trigger] nbr_ok(w, h, cx, cy, k) ==> dn[nbr_at(w, cx, cy, k)].discovered || d0[nbr_at(w, cx, cy, k)].flag != 0 by {
                        lemma_cell_bounds(w, h, cx, cy);
                        let q = cell(w, cx, cy);
                        if dm[q].discovered {
                            assert forall|k: int| #[trigger] nbr_ok(w, h, cx, cy, k) implies dn[nbr_at(w, cx, cy, k)].discovered || d0[nbr_at(w, cx, cy, k)].flag != 0 by {
                                lemma_cell_bounds(w, h, cx + off_x(k), cy + off_y(k));
                                if dm[nbr_at(w, cx, cy, k)].discovered {
                                    assert(dn[nbr_at(w, cx, cy, k)].discovered);
                                }
                            }
                        } else {
                            assert(disc(dn)[q]);
                            assert(dm[q].cat == d0[q].cat && dm[q].neighbours == d0[q].neighbours);
                            assert forall|k: int| #[trigger] nbr_ok(w, h, cx, cy, k) implies dn[nbr_at(w, cx, cy, k)].discovered || d0[nbr_at(w, cx, cy, k)].flag != 0 by {
                                lemma_cell_bounds(w, h, cx + off_x(k), cy + off_y(k));
                                assert(disc(dn)[nbr_at(w, cx, cy, k)] || dm[nbr_at(w, cx, cy, k)].flag != 0);
                            }
                        }
                    }
                    // and nothing beyond what any admissible set holds
                    assert forall|s: Seq<bool>| #[trigger] opened_from(d0, w, h, just(c), s) implies subset(disc(dn), s) by {
                        assert(subset(disc(dm), s));
                        assert(s[c]) by {
                            assert(just(c)(c));
                        }
                        assert(s[t]) by {
                            assert(disc(da)[c]);
                            assert(nbr_ok(w, h, x as int, y as int, kk));
                            assert(s[nbr_at(w, x as int, y as int, kk)] || d0[nbr_at(w, x as int, y as int, kk)].flag != 0);
                        }
                        assert(opened_from(dm, w, h, just(t), s)) by {
                            assert forall|q: int| 0 <= q < dm.len() && #[trigger] dm[q].discovered implies s[q] by {
                                assert(disc(dm)[q]);
                            }
                            assert forall|cx: int, cy: int|
                                in_grid(w, h, cx, cy) && #[trigger] s[cell(w, cx, cy)] && !dm[cell(w, cx, cy)].discovered
                                    && !dm[cell(w, cx, cy)].cat && dm[cell(w, cx, cy)].neighbours == 0 implies forall|k: int|
                                    #[trigger] nbr_ok(w, h, cx, cy, k) ==> s[nbr_at(w, cx, cy, k)] || dm[nbr_at(w, cx, cy, k)].flag != 0 by {
                                lemma_cell_bounds(w, h, cx, cy);
                                let q = cell(w, cx, cy);
                                assert(!d0[q].discovered && !d0[q].cat && d0[q].neighbours == 0);
                                assert forall|k: int| #[trigger] nbr_ok(w, h, cx, cy, k) implies s[nbr_at(w, cx, cy, k)] || dm[nbr_at(w, cx, cy, k)].flag != 0 by {
                                    lemma_cell_bounds(w, h, cx + off_x(k), cy + off_y(k));
                                }
                            }
                        }
                    }
                }
                i = i + 1;
            }
            proof {
                let df = self.model.data@;
                assert(opened_from(d0, w, h, just(c), disc(df))) by {
                    assert forall|q: int| 0 <= q < d0.len() && #[trigger] d0[q].discovered implies disc(df)[q] by {}
                    assert forall|q: int| 0 <= q < d0.len() && #[trigger] just(c)(q) && d0[q].flag == 0 implies disc(df)[q] by {
                        assert(da[c].discovered);
                    }
                    assert forall|cx: int, cy: int|
                        in_grid(w, h, cx, cy) && #[trigger] disc(df)[cell(w, cx, cy)] && !d0[cell(w, cx, cy)].discovered
                            && !d0[cell(w, cx, cy)].cat && d0[cell(w, cx, cy)].neighbours == 0 implies forall|k: int|
                            #[trigger] nbr_ok(w, h, cx, cy, k) ==> disc(df)[nbr_at(w, cx, cy, k)] || d0[nbr_at(w, cx, cy, k)].flag != 0 by {
                        lemma_cell_bounds(w, h, cx, cy);
                        let q = cell(w, cx, cy);
                        assert(df[q].discovered);
                        assert forall|k: int| #[trigger] nbr_ok(w, h, cx, cy, k) implies disc(df)[nbr_at(w, cx, cy, k)] || d0[nbr_at(w, cx, cy, k)].flag != 0 by {
                            lemma_cell_bounds(w, h, cx + off_x(k), cy + off_y(k));
                            let j = nbr_at(w, cx, cy, k);
                            if q == c {
                                lemma_cell_injective(w, h, cx, cy, x as int, y as int);
                                if !da[j].discovered && da[j].flag == 0 {
                                    let e = ((x + off_x(k)) as usize, (y + off_y(k)) as usize);
                                    assert(coords@.contains(e));
                                    let m = choose|m: int| 0 <= m < coords@.len() && coords@[m] == e;
                                    assert(df[cell(w, coords@[m].0 as int, coords@[m].1 as int)].discovered);
                                } else if da[j].discovered {
                                    assert(df[j].discovered);
                                }
                            }
                        }
                    }
                }
                lemma_uncover_counts(d0, df);
            }
        } else {
            proof {
                assert(opened_from(d0, w, h, just(c), disc(da))) by {
                    assert forall|q: int| 0 <= q < d0.len() && #[trigger] d0[q].discovered implies disc(da)[q] by {}
                    assert forall|cx: int, cy: int|
                        in_grid(w, h, cx, cy) && #[trigger] disc(da)[cell(w, cx, cy)] && !d0[cell(w, cx, cy)].discovered
                            && !d0[cell(w, cx, cy)].cat && d0[cell(w, cx, cy)].neighbours == 0 implies forall|k: int|
                            #[trigger] nbr_ok(w, h, cx, cy, k) ==> disc(da)[nbr_at(w, cx, cy, k)] || d0[nbr_at(w, cx, cy, k)].flag != 0 by {
                        lemma_cell_bounds(w, h, cx, cy);
                        if cell(w, cx, cy) == c {
                            lemma_cell_injective(w, h, cx, cy, x as int, y as int);
                        }
                    }
                }
                assert forall|s: Seq<bool>| #[trigger] opened_from(d0, w, h, just(c), s) implies subset(disc(da), s) by {
                    assert forall|q: int| 0 <= q < disc(da).len() && #[trigger] disc(da)[q] implies s[q] by {
                        if q == c {
                            assert(just(c)(q));
                        } else {
                            assert(d0[q].discovered);
                        }
                    }
                }
            }
        }
    }
}


/// What a click asks of the caller.
#[derive(PartialEq, Eq, Clone, Copy, Debug, Structural)]
pub enum ClickOutcome {
    /// Nothing more to do.
    Nothing,
    /// The first click: a board must be generated for it (see `grid_ready`).
    Generate,
    /// The click won the game.
    Won,
}

/// Number of flags on the board.
pub open spec fn flag_total(data: Seq<Field>) -> int {
    count_where(data.len() as int, flag_one_pred(data))
}

/// What holds of every game between two calls: the board is laid out and small
/// enough for the counters, markers are 0, 1 or 2, and the cats shown to the
/// player are the cats less the flags, up to the flags that a board generated
/// after the first click wiped out.
pub open spec fn game_ok(g: Game) -> bool {
    let n = g.model.width * g.model.height;
    &&& board_ok(g.model)
    &&& g.model.width <= i32::MAX
    &&& g.model.height <= i32::MAX
    &&& n <= 0x3fff_ffff
    &&& g.model.total_cats <= n
    &&& forall|i: int| 0 <= i < g.model.data@.len() ==> (#[trigger] g.model.data@[i]).flag <= 2
    &&& g.state == GameState::NotStarted ==> g.cat_display + flag_total(g.model.data@)
        == g.model.total_cats && g.model.discovered_count == 0
    &&& g.model.total_cats - n <= g.cat_display + flag_total(g.model.data@) <= g.model.total_cats
    &&& g.pending matches Some((px, py)) ==> px < g.model.width && py < g.model.height && g.state
        == GameState::NotStarted
}

/// Cell `i` is the first uncovered cat, reading row by row.
pub open spec fn first_exploded(data: Seq<Field>, i: int) -> bool {
    &&& 0 <= i < data.len()
    &&& data[i].discovered
    &&& data[i].cat
    &&& forall|j: int| 0 <= j < i ==> !(#[trigger] data[j].discovered && data[j].cat)
}

/// Some uncovered cell holds a cat.
pub open spec fn cat_uncovered(data: Seq<Field>) -> bool {
    exists|i: int| 0 <= i < data.len() && #[trigger] data[i].discovered && data[i].cat
}

/// How the game ends up after the board `after.model` was played on: lost on an
/// uncovered cat (remembering the first one), won when no covered cell is free
/// of cats, and unchanged otherwise.
pub open spec fn outcome(before: Game, after: Game) -> bool {
    let data = after.model.data@;
    let w = after.model.width as int;
    if cat_uncovered(data) {
        &&& after.state == GameState::Lost
        &&& exists|i: int|
            #[trigger] first_exploded(data, i) && after.exploded == Some(
                ((i % w) as usize, (i / w) as usize),
            )
    } else if after.model.width * after.model.height - after.model.discovered_count
        <= after.model.total_cats {
        &&& after.state == GameState::Won
        &&& after.exploded == before.exploded
    } else {
        &&& after.state == before.state
        &&& after.exploded == before.exploded
    }
}

/// Only the model's board and tally changed between `a` and `b`.
pub open spec fn same_but_board(a: Game, b: Game) -> bool {
    &&& b.model.width == a.model.width
    &&& b.model.height == a.model.height
    &&& b.model.total_cats == a.model.total_cats
    &&& b.cat_display == a.cat_display
    &&& b.gen_attempts == a.gen_attempts
    &&& b.pending == a.pending
}

/// What a right click on (x, y) does to the game `g`, leaving `g1`.
pub open spec fn right_clicked(g: Game, x: usize, y: usize, g1: Game) -> bool {
    let i = cell(g.model.width as int, x as int, y as int);
    let f = g.model.data@[i];
    if !(g.state == GameState::NotStarted || g.state == GameState::Running) || f.discovered {
        g1 == g
    } else {
        &&& g1.model.data@ == g.model.data@.update(i, Field { flag: next_flag(f.flag), ..f })
        &&& g1.cat_display == g.cat_display + flag_delta(f.flag, next_flag(f.flag))
        &&& g1.model.width == g.model.width
        &&& g1.model.height == g.model.height
        &&& g1.model.total_cats == g.model.total_cats
        &&& g1.model.discovered_count == g.model.discovered_count
        &&& g1.state == g.state
        &&& g1.gen_attempts == g.gen_attempts
        &&& g1.exploded == g.exploded
        &&& g1.pending == g.pending
    }
}

/// Uncovering cells leaves the markers, and so the number of flags, as they were.
pub proof fn lemma_flags_kept(a: Seq<Field>, b: Seq<Field>)
    requires
        only_uncovers(a, b),
    ensures
        flag_total(a) == flag_total(b),
{
    lemma_count_ext(a.len() as int, flag_one_pred(a), flag_one_pred(b));
}

proof fn lemma_flag_total_bounds(data: Seq<Field>)
    ensures
        0 <= flag_total(data) <= data.len(),
{
    lemma_count_bounds(data.len() as int, flag_one_pred(data));
}

impl Game {
    /// A new game at the level of `prefs`.
    pub fn new(prefs: &Preferences) -> (g: Self)
        ensures
            game_ok(g),
            g.state == GameState::NotStarted,
            g.model.width == level_dims(prefs.level).0,
            g.model.height == level_dims(prefs.level).1,
            g.model.total_cats == level_dims(prefs.level).2,
            g.cat_display == level_dims(prefs.level).2,
            g.gen_attempts == 0,
            g.exploded is None,
            g.pending is None,
            forall|i: int| 0 <= i < g.model.data@.len() ==> #[trigger] g.model.data@[i] == blank_field(),
    {
        let mut g = Game {
            model: Model::new(),
            state: GameState::NotStarted,
            cat_display: 0,
            gen_attempts: 0,
            exploded: None,
            pending: None,
        };
        g.new_game(prefs);
        g
    }

    /// Starts a new game at the level of `prefs`: a covered, empty board of the
    /// level's size, no click yet, every cat still to find.
    pub fn new_game(&mut self, prefs: &Preferences)
        ensures
            game_ok(*final(self)),
            final(self).state == GameState::NotStarted,
            final(self).model.width == level_dims(prefs.level).0,
            final(self).model.height == level_dims(prefs.level).1,
            final(self).model.total_cats == level_dims(prefs.level).2,
            final(self).model.discovered_count == 0,
            final(self).model.data@.len() == final(self).model.width * final(self).model.height,
            forall|i: int| 0 <= i < final(self).model.data@.len() ==> #[trigger] final(self).model.data@[i] == blank_field(),
            final(self).cat_display == level_dims(prefs.level).2,
            final(self).gen_attempts == 0,
            final(self).exploded is None,
            final(self).pending is None,
    {
        let (w, h, s) = prefs.effective_dims();
        proof {
            lemma_levels_leave_room(prefs.level);
        }
        self.model.reset(w, h, s);
        self.state = GameState::NotStarted;
        self.cat_display = s as i32;
        self.gen_attempts = 0;
        self.pending = None;
        self.exploded = None;
        proof {
            let data = self.model.data@;
            lemma_count_none(data.len() as int, flag_one_pred(data));
            lemma_count_none(data.len() as int, uncovered_cell(data));
        }
    }

    /// Ends the game when it is decided: lost when a cat is uncovered, won when
    /// every covered cell holds a cat. Returns whether the game was just won.
    pub fn check_outcome(&mut self) -> (won: bool)
        requires
            board_ok(old(self).model),
        ensures
            final(self).model == old(self).model,
            same_but_board(*old(self), *final(self)),
            outcome(*old(self), *final(self)),
            won == (final(self).state == GameState::Won && !cat_uncovered(old(self).model.data@)
                && old(self).model.width * old(self).model.height - old(self).model.discovered_count
                <= old(self).model.total_cats),
    {
        proof {
            lemma_covered_uncovered(self.model.data@);
            lemma_count_bounds(self.model.data@.len() as int, covered_cell(self.model.data@));
        }
        if self.model.any_discovered_cat() {
            proof {
                let data = self.model.data@;
                let i = choose|i: int| 0 <= i < data.len() && #[trigger] data[i].discovered && data[i].cat;
                assert(self.model.width > 0) by (nonlinear_arith)
                    requires
                        0 <= i < self.model.width * self.model.height,
                ;
            }
            self.state = GameState::Lost;
            self.exploded = self.model.find_exploded();
            proof {
                let data = self.model.data@;
                let i = choose|i: int|
                    0 <= i < data.len() && #[trigger] data[i].discovered && data[i].cat && (forall|j: int|
                        0 <= j < i ==> !(#[trigger] data[j].discovered && data[j].cat)) && self.exploded
                        == Some(((i % (self.model.width as int)) as usize, (i / (self.model.width as int)) as usize));
                assert(first_exploded(data, i));
            }
            false
        } else if self.model.check_win() {
            self.state = GameState::Won;
            true
        } else {
            false
        }
    }

    /// A left click on (x, y): the first click asks for a board to be generated;
    /// later clicks uncover the cell (and the zeros around it) and decide the
    /// game. Marked or uncovered cells, finished games and a click while a board
    /// is being generated are ignored.
    pub fn left_click(&mut self, x: usize, y: usize) -> (r: ClickOutcome)
        requires
            game_ok(*old(self)),
            x < old(self).model.width,
            y < old(self).model.height,
        ensures
            game_ok(*final(self)),
            ({
                let g = *old(self);
                let f = g.model.data@[cell(g.model.width as int, x as int, y as int)];
                if !(g.state == GameState::NotStarted || g.state == GameState::Running) || g.pending
                    is Some || f.flag != 0 || f.discovered {
                    &&& *final(self) == g
                    &&& r == ClickOutcome::Nothing
                } else if g.state == GameState::NotStarted {
                    &&& *final(self) == Game { pending: Some((x, y)), ..g }
                    &&& r == ClickOutcome::Generate
                } else {
                    &&& click_opens(
                        g.model.data@,
                        g.model.width as int,
                        g.model.height as int,
                        just(cell(g.model.width as int, x as int, y as int)),
                        final(self).model.data@,
                    )
                    &&& same_but_board(g, *final(self))
                    &&& final(self).model.discovered_count - g.model.discovered_count == count_where(
                        final(self).model.data@.len() as int,
                        uncovered_cell(final(self).model.data@),
                    ) - count_where(g.model.data@.len() as int, uncovered_cell(g.model.data@))
                    &&& outcome(g, *final(self))
                    &&& (r == ClickOutcome::Won) == (final(self).state == GameState::Won)
                    &&& r != ClickOutcome::Generate
                }
            }),
    {
        if !(self.state == GameState::NotStarted || self.state == GameState::Running) {
            return ClickOutcome::Nothing;
        }
        if self.pending.is_some() {
            return ClickOutcome::Nothing;
        }
        proof {
            lemma_cell_bounds(self.model.width as int, self.model.height as int, x as int, y as int);
        }
        let f = *self.model.field(x, y);
        if f.flag != 0 || f.discovered {
            return ClickOutcome::Nothing;
        }
        if self.state == GameState::NotStarted {
            self.pending = Some((x, y));
            return ClickOutcome::Generate;
        }
        let ghost g0 = *self;
        self.discover_flood(x, y);
        proof {
            lemma_flags_kept(g0.model.data@, self.model.data@);
        }
        let ghost g1 = *self;
        let won = self.check_outcome();
        proof {
            self.lemma_ok_after_play(g0, g1);
        }
        if won {
            ClickOutcome::Won
        } else {
            ClickOutcome::Nothing
        }
    }

    /// A game that was ok keeps its invariant after a play that only uncovered
    /// cells and then decided the outcome.
    proof fn lemma_ok_after_play(&self, g0: Game, g1: Game)
        requires
            game_ok(g0),
            g0.state == GameState::Running,
            board_ok(g1.model),
            only_uncovers(g0.model.data@, g1.model.data@),
            same_but_board(g0, g1),
            g1.state == g0.state,
            self.model == g1.model,
            same_but_board(g1, *self),
            outcome(g1, *self),
        ensures
            game_ok(*self),
    {
        lemma_flags_kept(g0.model.data@, g1.model.data@);
        assert forall|i: int| 0 <= i < self.model.data@.len() implies (#[trigger] self.model.data@[i]).flag <= 2 by {
            assert(g1.model.data@[i].flag == g0.model.data@[i].flag);
        }
    }

    /// A right click on (x, y): cycles the marker of a covered cell (none, flag,
    /// question mark) and updates the cats shown to the player. Uncovered cells
    /// and finished games are left alone.
    pub fn right_click(&mut self, x: usize, y: usize)
        requires
            game_ok(*old(self)),
            x < old(self).model.width,
            y < old(self).model.height,
        ensures
            game_ok(*final(self)),
            right_clicked(*old(self), x, y, *final(self)),
    {
        if !(self.state == GameState::NotStarted || self.state == GameState::Running) {
            return;
        }
        let ghost w = self.model.width as int;
        let ghost h = self.model.height as int;
        let ghost i = cell(w, x as int, y as int);
        let ghost d0 = self.model.data@;
        proof {
            lemma_cell_bounds(w, h, x as int, y as int);
        }
        if self.model.field(x, y).discovered {
            return;
        }
        let delta = self.model.disarm(x, y);
        proof {
            let d1 = self.model.data@;
            let n = d0.len() as int;
            let f = d0[i];
            lemma_flag_total_bounds(d0);
            lemma_flag_total_bounds(d1);
            if f.flag == 0 {
                lemma_count_step(n, flag_one_pred(d0), flag_one_pred(d1), i);
            } else if f.flag == 1 {
                lemma_count_step(n, flag_one_pred(d1), flag_one_pred(d0), i);
            } else {
                lemma_count_ext(n, flag_one_pred(d0), flag_one_pred(d1));
            }
            assert(flag_total(d1) + delta == flag_total(d0));
        }
        self.cat_display = self.cat_display + delta;
        proof {
            let d1 = self.model.data@;
            assert forall|q: int| 0 <= q < d1.len() implies (#[trigger] d1[q]).flag <= 2 by {
                if q != i {
                    assert(d1[q] == d0[q]);
                }
            }
            assert forall|q: int| 0 <= q < d1.len() implies (#[trigger] uncovered_cell(d1)(q)) == uncovered_cell(d0)(q) by {
                if q != i {
                    assert(d1[q] == d0[q]);
                }
            }
            lemma_count_ext(d0.len() as int, uncovered_cell(d1), uncovered_cell(d0));
        }
    }

    /// Uncovers every cell, without counting them in the model's tally.
    pub fn reveal_all(&mut self)
        requires
            game_ok(*old(self)),
        ensures
            game_ok(*final(self)),
            final(self).model.data@.len() == old(self).model.data@.len(),
            forall|i: int|
                0 <= i < old(self).model.data@.len() ==> #[trigger] final(self).model.data@[i] == (Field {
                    discovered: true,
                    ..old(self).model.data@[i]
                }),
            final(self).model.discovered_count == old(self).model.discovered_count,
            final(self).state == old(self).state,
            same_but_board(*old(self), *final(self)),
            final(self).exploded == old(self).exploded,
    {
        let ghost w = self.model.width as int;
        let ghost h = self.model.height as int;
        let ghost d0 = self.model.data@;
        let width = self.model.width;
        let height = self.model.height;
        let mut y: usize = 0;
        while y < height
            invariant
                0 <= y <= height,
                w == width,
                h == height,
                self.model.width == width,
                self.model.height == height,
                self.model.data@.len() == d0.len(),
                d0.len() == w * h,
                w * h <= usize::MAX,
                forall|i: int| 0 <= i < d0.len() ==> (#[trigger] self.model.data@[i]) == (Field {
                    discovered: self.model.data@[i].discovered,
                    ..d0[i]
                }),
                forall|i: int| 0 <= i < d0.len() && d0[i].discovered ==> #[trigger] self.model.data@[i].discovered,
                forall|x2: int, y2: int|
                    #[trigger] in_grid(w, h, x2, y2) && y2 < y ==> self.model.data@[cell(w, x2, y2)].discovered,
                self.model.discovered_count == old(self).model.discovered_count,
                self.model.total_cats == old(self).model.total_cats,
                self.state == old(self).state,
                same_but_board(*old(self), *self),
                self.exploded == old(self).exploded,
                d0 == old(self).model.data@,
            decreases height - y,
        {
            let mut x: usize = 0;
            while x < width
                invariant
                    0 <= x <= width,
                    0 <= y < height,
                    w == width,
                    h == height,
                    self.model.width == width,
                    self.model.height == height,
                    self.model.data@.len() == d0.len(),
                    d0.len() == w * h,
                    w * h <= usize::MAX,
                    forall|i: int| 0 <= i < d0.len() ==> (#[trigger] self.model.data@[i]) == (Field {
                        discovered: self.model.data@[i].discovered,
                        ..d0[i]
                    }),
                    forall|i: int| 0 <= i < d0.len() && d0[i].discovered ==> #[trigger] self.model.data@[i].discovered,
                    forall|x2: int, y2: int|
                        #[trigger] in_grid(w, h, x2, y2) && (y2 < y || (y2 == y && x2 < x)) ==> self.model.data@[cell(w, x2, y2)].discovered,
                    self.model.discovered_count == old(self).model.discovered_count,
                    self.model.total_cats == old(self).model.total_cats,
                    self.state == old(self).state,
                    same_but_board(*old(self), *self),
                    self.exploded == old(self).exploded,
                    d0 == old(self).model.data@,
                decreases width - x,
            {
                let idx = cell_index(width, height, x, y);
                let ghost dx = self.model.data@;
                let f = self.model.data[idx];
                self.model.data.set(idx, Field { discovered: true, ..f });
                proof {
                    assert forall|x2: int, y2: int|
                        #[trigger] in_grid(w, h, x2, y2) && (y2 < y || (y2 == y && x2 < x + 1)) implies self.model.data@[cell(w, x2, y2)].discovered by {
                        lemma_cell_bounds(w, h, x2, y2);
                        if cell(w, x2, y2) != idx {
                            assert(dx[cell(w, x2, y2)].discovered);
                        }
                    }
                }
                x = x + 1;
            }
            y = y + 1;
        }
        proof {
            let d1 = self.model.data@;
            assert forall|i: int| 0 <= i < d0.len() implies #[trigger] d1[i] == Field { discovered: true, ..d0[i] } by {
                assert(w > 0) by (nonlinear_arith)
                    requires
                        0 <= i < w * h,
                        0 <= w,
                        0 <= h,
                ;
                crate::grid::lemma_cell_of_index(w, h, i);
                assert(in_grid(w, h, i % w, i / w));
            }
            lemma_count_ext(d0.len() as int, flag_one_pred(d0), flag_one_pred(d1));
            lemma_count_sub(d0.len() as int, uncovered_cell(d0), uncovered_cell(d1));
            assert forall|i: int| 0 <= i < d1.len() implies (#[trigger] d1[i]).flag <= 2 by {
                assert(d1[i].flag == d0[i].flag);
            }
        }
    }

    /// A click of both buttons on the uncovered number at (x, y): when the
    /// flags around it match its number, every unmarked covered neighbour is
    /// uncovered as by a left click, and the game is decided. Returns whether
    /// the game was just won.
    pub fn chord_click(&mut self, x: usize, y: usize) -> (won: bool)
        requires
            game_ok(*old(self)),
            x < old(self).model.width,
            y < old(self).model.height,
        ensures
            game_ok(*final(self)),
            ({
                let g = *old(self);
                let w = g.model.width as int;
                let h = g.model.height as int;
                let f = g.model.data@[cell(w, x as int, y as int)];
                if g.state != GameState::Running || !f.discovered || nbr_count(
                    w,
                    h,
                    x as int,
                    y as int,
                    flag_one_pred(g.model.data@),
                ) != f.neighbours {
                    &&& *final(self) == g
                    &&& !won
                } else {
                    &&& click_opens(
                        g.model.data@,
                        w,
                        h,
                        nbrs_of(w, h, x as int, y as int),
                        final(self).model.data@,
                    )
                    &&& same_but_board(g, *final(self))
                    &&& final(self).model.discovered_count - g.model.discovered_count == count_where(
                        final(self).model.data@.len() as int,
                        uncovered_cell(final(self).model.data@),
                    ) - count_where(g.model.data@.len() as int, uncovered_cell(g.model.data@))
                    &&& outcome(g, *final(self))
                    &&& won == (final(self).state == GameState::Won)
                }
            }),
    {
        if self.state != GameState::Running {
            return false;
        }
        let ghost w = self.model.width as int;
        let ghost h = self.model.height as int;
        let ghost d0 = self.model.data@;
        let ghost g0 = *self;
        let ghost tp = nbrs_of(w, h, x as int, y as int);
        let width = self.model.width;
        let height = self.model.height;
        proof {
            lemma_cell_bounds(w, h, x as int, y as int);
        }
        let f = *self.model.field(x, y);
        if !f.discovered {
            return false;
        }
        if self.model.count_flags_around(x, y) != f.neighbours {
            return false;
        }
        let mut targets: Vec<(usize, usize)> = Vec::new();
        let mut k: usize = 0;
        while k < 9
            invariant
                0 <= k <= 9,
                x < width,
                y < height,
                w == width,
                h == height,
                self.model.data@ == d0,
                self.model.width == width,
                self.model.height == height,
                d0.len() == w * h,
                w * h <= usize::MAX,
                forall|m: int| 0 <= m < targets@.len() ==> is_nbr_coord(w, h, x as int, y as int, #[trigger] targets@[m]),
                forall|m: int| 0 <= m < targets@.len() ==> d0[cell(w, (#[trigger] targets@[m]).0 as int, targets@[m].1 as int)].flag == 0,
                forall|j: int|
                    0 <= j < k && #[trigger] nbr_ok(w, h, x as int, y as int, j) && !d0[nbr_at(w, x as int, y as int, j)].discovered
                        && d0[nbr_at(w, x as int, y as int, j)].flag == 0 ==> targets@.contains(
                        ((x + off_x(j)) as usize, (y + off_y(j)) as usize),
                    ),
            decreases 9 - k,
        {
            let ghost tk = targets@;
            match neighbour(width, height, x, y, k) {
                Some((nx, ny)) => {
                    proof {
                        lemma_cell_bounds(w, h, nx as int, ny as int);
                    }
                    let nf = self.model.field(nx, ny);
                    assert(cell(w, nx as int, ny as int) == nbr_at(w, x as int, y as int, k as int));
                    if !nf.discovered && nf.flag == 0 {
                        targets.push((nx, ny));
                        proof {
                            assert(targets@[targets@.len() - 1] == (nx, ny));
                            assert(nbr_ok(w, h, x as int, y as int, k as int));
                            assert forall|m: int| 0 <= m < targets@.len() implies is_nbr_coord(w, h, x as int, y as int, #[trigger] targets@[m])
                                && d0[cell(w, targets@[m].0 as int, targets@[m].1 as int)].flag == 0 by {
                                if m < tk.len() {
                                    assert(targets@[m] == tk[m]);
                                }
                            }
                            assert forall|j: int|
                                0 <= j < k + 1 && #[trigger] nbr_ok(w, h, x as int, y as int, j) && !d0[nbr_at(w, x as int, y as int, j)].discovered
                                    && d0[nbr_at(w, x as int, y as int, j)].flag == 0 implies targets@.contains(
                                    ((x + off_x(j)) as usize, (y + off_y(j)) as usize),
                                ) by {
                                if j < k {
                                    let e = ((x + off_x(j)) as usize, (y + off_y(j)) as usize);
                                    let m = choose|m: int| 0 <= m < tk.len() && tk[m] == e;
                                    assert(targets@[m] == e);
                                } else {
                                    assert(targets@[targets@.len() - 1] == (nx, ny));
                                }
                            }
                        }
                    }
                },
                None => {},
            }
            k = k + 1;
        }
        proof {
            assert forall|s: Seq<bool>| #[trigger] opened_from(d0, w, h, tp, s) implies subset(disc(d0), s) by {
                assert forall|q: int| 0 <= q < disc(d0).len() && #[trigger] disc(d0)[q] implies s[q] by {
                    assert(d0[q].discovered);
                }
            }
            lemma_uncover_counts(d0, d0);
        }
        let mut i: usize = 0;
        while i < targets.len()
            invariant
                0 <= i <= targets@.len(),
                x < width,
                y < height,
                w == width,
                h == height,
                tp == nbrs_of(w, h, x as int, y as int),
                g0 == *old(self),
                d0 == g0.model.data@,
                game_ok(g0),
                g0.state == GameState::Running,
                board_ok(self.model),
                self.model.width == width,
                self.model.height == height,
                same_but_board(g0, *self),
                self.state == g0.state,
                self.exploded == g0.exploded,
                only_uncovers(d0, self.model.data@),
                self.model.discovered_count - g0.model.discovered_count == count_where(
                    d0.len() as int,
                    uncovered_cell(self.model.data@),
                ) - count_where(d0.len() as int, uncovered_cell(d0)),
                forall|m: int| 0 <= m < targets@.len() ==> #[trigger] is_nbr_coord(w, h, x as int, y as int, targets@[m])
                    && d0[cell(w, targets@[m].0 as int, targets@[m].1 as int)].flag == 0,
                forall|j: int|
                    0 <= j < 9 && #[trigger] nbr_ok(w, h, x as int, y as int, j) && !d0[nbr_at(w, x as int, y as int, j)].discovered
                        && d0[nbr_at(w, x as int, y as int, j)].flag == 0 ==> targets@.contains(
                        ((x + off_x(j)) as usize, (y + off_y(j)) as usize),
                    ),
                forall|m: int| 0 <= m < i ==> self.model.data@[cell(w, (#[trigger] targets@[m]).0 as int, targets@[m].1 as int)].discovered,
                forall|cx: int, cy: int|
                    in_grid(w, h, cx, cy) && #[trigger] self.model.data@[cell(w, cx, cy)].discovered && !d0[cell(w, cx, cy)].discovered
                        && !d0[cell(w, cx, cy)].cat && d0[cell(w, cx, cy)].neighbours == 0 ==> forall|k: int|
                        #[trigger] nbr_ok(w, h, cx, cy, k) ==> self.model.data@[nbr_at(w, cx, cy, k)].discovered || d0[nbr_at(w, cx, cy, k)].flag != 0,
                forall|s: Seq<bool>| #[trigger] opened_from(d0, w, h, tp, s) ==> subset(disc(self.model.data@), s),
            decreases targets@.len() - i,
        {
            let (nx, ny) = targets[i];
            let ghost dm = self.model.data@;
            proof {
                assert(is_nbr_coord(w, h, x as int, y as int, targets@[i as int]));
                let kk = choose|kk: int| #[trigger] nbr_ok(w, h, x as int, y as int, kk) && targets@[i as int].0 == x + off_x(kk) && targets@[i as int].1 == y + off_y(kk);
                assert(nbr_ok(w, h, x as int, y as int, kk));
            }
            self.discover_flood(nx, ny);
            proof {
                let t = cell(w, nx as int, ny as int);
                let kk = choose|kk: int| #[trigger] nbr_ok(w, h, x as int, y as int, kk) && targets@[i as int].0 == x + off_x(kk) && targets@[i as int].1 == y + off_y(kk);
                assert(t == nbr_at(w, x as int, y as int, kk));
                lemma_cell_bounds(w, h, nx as int, ny as int);
                let dn = self.model.data@;
                assert(only_uncovers(d0, dn)) by {
                    assert forall|q: int| 0 <= q < d0.len() implies (#[trigger] dn[q]).cat == d0[q].cat && dn[q].flag == d0[q].flag
                        && dn[q].neighbours == d0[q].neighbours && (d0[q].discovered ==> dn[q].discovered) by {
                        assert(dm[q].cat == d0[q].cat);
                    }
                }
                assert(just(t)(t) && dm[t].flag == 0);
                assert(disc(dn)[t]);
                assert forall|m: int| 0 <= m < i + 1 implies self.model.data@[cell(w, (#[trigger] targets@[m]).0 as int, targets@[m].1 as int)].discovered by {
                    if m < i {
                        let q = cell(w, targets@[m].0 as int, targets@[m].1 as int);
                        assert(is_nbr_coord(w, h, x as int, y as int, targets@[m]));
                        let k2 = choose|k2: int| #[trigger] nbr_ok(w, h, x as int, y as int, k2) && targets@[m].0 == x + off_x(k2) && targets@[m].1 == y + off_y(k2);
                        assert(nbr_ok(w, h, x as int, y as int, k2));
                        lemma_cell_bounds(w, h, targets@[m].0 as int, targets@[m].1 as int);
                        assert(dm[q].discovered);
                    } else {
                        assert(disc(dn)[t]);
                    }
                }
                assert forall|cx: int, cy: int|
                    in_grid(w, h, cx, cy) && #[trigger] dn[cell(w, cx, cy)].discovered && !d0[cell(w, cx, cy)].discovered
                        && !d0[cell(w, cx, cy)].cat && d0[cell(w, cx, cy)].neighbours == 0 implies forall|k: int|
                        #[trigger] nbr_ok(w, h, cx, cy, k) ==> dn[nbr_at(w, cx, cy, k)].discovered || d0[nbr_at(w, cx, cy, k)].flag != 0 by {
                    lemma_cell_bounds(w, h, cx, cy);
                    let q = cell(w, cx, cy);
                    if dm[q].discovered {
                        assert forall|k: int| #[trigger] nbr_ok(w, h, cx, cy, k) implies dn[nbr_at(w, cx, cy, k)].discovered || d0[nbr_at(w, cx, cy, k)].flag != 0 by {
                            lemma_cell_bounds(w, h, cx + off_x(k), cy + off_y(k));
                            if dm[nbr_at(w, cx, cy, k)].discovered {
                                assert(dn[nbr_at(w, cx, cy, k)].discovered);
                            }
                        }
                    } else {
                        assert(disc(dn)[q]);
                        assert(dm[q].cat == d0[q].cat && dm[q].neighbours == d0[q].neighbours);
                        assert forall|k: int| #[trigger] nbr_ok(w, h, cx, cy, k) implies dn[nbr_at(w, cx, cy, k)].discovered || d0[nbr_at(w, cx, cy, k)].flag != 0 by {
                            lemma_cell_bounds(w, h, cx + off_x(k), cy + off_y(k));
                            assert(disc(dn)[nbr_at(w, cx, cy, k)] || dm[nbr_at(w, cx, cy, k)].flag != 0);
                        }
                    }
                }
                assert forall|s: Seq<bool>| #[trigger] opened_from(d0, w, h, tp, s) implies subset(disc(dn), s) by {
                    assert(subset(disc(dm), s));
                    assert(s[t]) by {
                        assert(nbr_index_of(w, h, x as int, y as int, t));
                        assert(tp(t));
                    }
                    assert(opened_from(dm, w, h, just(t), s)) by {
                        assert forall|q: int| 0 <= q < dm.len() && #[trigger] dm[q].discovered implies s[q] by {
                            assert(disc(dm)[q]);
                        }
                        assert forall|cx: int, cy: int|
                            in_grid(w, h, cx, cy) && #[trigger] s[cell(w, cx, cy)] && !dm[cell(w, cx, cy)].discovered
                                && !dm[cell(w, cx, cy)].cat && dm[cell(w, cx, cy)].neighbours == 0 implies forall|k: int|
                                #[trigger] nbr_ok(w, h, cx, cy, k) ==> s[nbr_at(w, cx, cy, k)] || dm[nbr_at(w, cx, cy, k)].flag != 0 by {
                            lemma_cell_bounds(w, h, cx, cy);
                            let q = cell(w, cx, cy);
                            assert(!d0[q].discovered && !d0[q].cat && d0[q].neighbours == 0);
                            assert forall|k: int| #[trigger] nbr_ok(w, h, cx, cy, k) implies s[nbr_at(w, cx, cy, k)] || dm[nbr_at(w, cx, cy, k)].flag != 0 by {
                                lemma_cell_bounds(w, h, cx + off_x(k), cy + off_y(k));
                            }
                        }
                    }
                }
            }
            i = i + 1;
        }
        let ghost g1 = *self;
        proof {
            let df = self.model.data@;
            assert(opened_from(d0, w, h, tp, disc(df))) by {
                assert forall|q: int| 0 <= q < d0.len() && #[trigger] d0[q].discovered implies disc(df)[q] by {}
                assert forall|q: int| 0 <= q < d0.len() && #[trigger] tp(q) && d0[q].flag == 0 implies disc(df)[q] by {
                    assert(nbr_index_of(w, h, x as int, y as int, q));
                    let j = choose|j: int| #[trigger] nbr_ok(w, h, x as int, y as int, j) && q == nbr_at(w, x as int, y as int, j);
                    assert(nbr_ok(w, h, x as int, y as int, j));
                    if !d0[q].discovered {
                        let e = ((x + off_x(j)) as usize, (y + off_y(j)) as usize);
                        assert(targets@.contains(e));
                        let m = choose|m: int| 0 <= m < targets@.len() && targets@[m] == e;
                        assert(df[cell(w, targets@[m].0 as int, targets@[m].1 as int)].discovered);
                    }
                }
                assert forall|cx: int, cy: int|
                    in_grid(w, h, cx, cy) && #[trigger] disc(df)[cell(w, cx, cy)] && !d0[cell(w, cx, cy)].discovered
                        && !d0[cell(w, cx, cy)].cat && d0[cell(w, cx, cy)].neighbours == 0 implies forall|k: int|
                        #[trigger] nbr_ok(w, h, cx, cy, k) ==> disc(df)[nbr_at(w, cx, cy, k)] || d0[nbr_at(w, cx, cy, k)].flag != 0 by {
                    lemma_cell_bounds(w, h, cx, cy);
                    assert(df[cell(w, cx, cy)].discovered);
                    assert forall|k: int| #[trigger] nbr_ok(w, h, cx, cy, k) implies disc(df)[nbr_at(w, cx, cy, k)] || d0[nbr_at(w, cx, cy, k)].flag != 0 by {
                        lemma_cell_bounds(w, h, cx + off_x(k), cy + off_y(k));
                    }
                }
            }
        }
        let won = self.check_outcome();
        proof {
            self.lemma_ok_after_play(g0, g1);
            assert(click_opens(d0, w, h, tp, self.model.data@));
            assert(same_but_board(g0, *self));
            assert(outcome(g0, *self));
            assert(won == (self.state == GameState::Won));
        }
        won
    }

    /// The board generated for the first click arrives after `attempts` tries:
    /// the game starts running on it, the pending click uncovers its cell (and
    /// the zeros around it), and the game is decided. Returns whether the game
    /// was just won.
    pub fn grid_ready(&mut self, data: Vec<Field>, attempts: u32) -> (won: bool)
        requires
            game_ok(*old(self)),
            old(self).state == GameState::NotStarted,
            old(self).pending is Some,
            data@.len() == old(self).model.width * old(self).model.height,
            forall|i: int| 0 <= i < data@.len() ==> !(#[trigger] data@[i]).discovered && data@[i].flag == 0,
        ensures
            game_ok(*final(self)),
            ({
                let g = *old(self);
                let (px, py) = g.pending->0;
                &&& click_opens(
                    data@,
                    g.model.width as int,
                    g.model.height as int,
                    just(cell(g.model.width as int, px as int, py as int)),
                    final(self).model.data@,
                )
                &&& final(self).model.width == g.model.width
                &&& final(self).model.height == g.model.height
                &&& final(self).model.total_cats == g.model.total_cats
                &&& final(self).cat_display == g.cat_display
                &&& final(self).gen_attempts == attempts
                &&& final(self).pending is None
                &&& final(self).model.discovered_count == count_where(
                    final(self).model.data@.len() as int,
                    uncovered_cell(final(self).model.data@),
                )
                &&& outcome((Game { state: GameState::Running, ..g }), *final(self))
                &&& won == (final(self).state == GameState::Won)
            }),
    {
        let (cx, cy) = match self.pending {
            Some(p) => p,
            None => {
                return false;
            },
        };
        let ghost g0 = *self;
        self.gen_attempts = attempts;
        self.model.data = data;
        self.pending = None;
        self.state = GameState::Running;
        proof {
            let d = self.model.data@;
            lemma_count_none(d.len() as int, uncovered_cell(d));
            lemma_count_none(d.len() as int, flag_one_pred(d));
            lemma_flag_total_bounds(g0.model.data@);
            assert(game_ok(*self));
        }
        let ghost g1 = *self;
        self.discover_flood(cx, cy);
        proof {
            lemma_flags_kept(g1.model.data@, self.model.data@);
        }
        let ghost g2 = *self;
        let won = self.check_outcome();
        proof {
            self.lemma_ok_after_play(g1, g2);
        }
        won
    }
}


// ── laws ─────────────────────────────────────────────────────────────────

/// A right click keeps the count shown to the player honest: the cats still to
/// find plus the flags on the board stay the same.
pub proof fn lemma_right_click_keeps_count(g: Game, x: usize, y: usize, g1: Game)
    requires
        game_ok(g),
        x < g.model.width,
        y < g.model.height,
        right_clicked(g, x, y, g1),
    ensures
        g1.cat_display + flag_total(g1.model.data@) == g.cat_display + flag_total(g.model.data@),
{
    let w = g.model.width as int;
    let h = g.model.height as int;
    let i = cell(w, x as int, y as int);
    let d0 = g.model.data@;
    lemma_cell_bounds(w, h, x as int, y as int);
    let f = d0[i];
    if (g.state == GameState::NotStarted || g.state == GameState::Running) && !f.discovered {
        let d1 = g1.model.data@;
        let n = d0.len() as int;
        if f.flag == 0 {
            lemma_count_step(n, flag_one_pred(d0), flag_one_pred(d1), i);
        } else if f.flag == 1 {
            lemma_count_step(n, flag_one_pred(d1), flag_one_pred(d0), i);
        } else {
            assert(f.flag == 2);
            lemma_count_ext(n, flag_one_pred(d0), flag_one_pred(d1));
        }
    }
}

/// Three right clicks bring a covered cell's marker back (none, flag, question
/// mark, none) and leave the count of cats to find where it was.
pub proof fn lemma_marker_cycle(flag: u8)
    requires
        flag <= 2,
    ensures
        next_flag(flag) <= 2,
        next_flag(next_flag(next_flag(flag))) == flag,
        flag_delta(flag, next_flag(flag)) + flag_delta(next_flag(flag), next_flag(next_flag(flag)))
            + flag_delta(next_flag(next_flag(flag)), next_flag(next_flag(next_flag(flag)))) == 0,
{
}

/// A click never uncovers a marked cell: every cell it uncovers had no marker.
pub proof fn lemma_click_spares_marked(a: Seq<Field>, w: int, h: int, t: spec_fn(int) -> bool, b: Seq<Field>)
    requires
        0 <= w,
        0 <= h,
        a.len() == w * h,
        click_opens(a, w, h, t, b),
    ensures
        forall|i: int|
            0 <= i < a.len() && (#[trigger] b[i]).discovered && !a[i].discovered ==> a[i].flag == 0,
{
    let s = Seq::new(a.len(), |i: int| a[i].discovered || a[i].flag == 0);
    assert(opened_from(a, w, h, t, s)) by {
        assert forall|x: int, y: int|
            in_grid(w, h, x, y) && #[trigger] s[cell(w, x, y)] && !a[cell(w, x, y)].discovered
                && !a[cell(w, x, y)].cat && a[cell(w, x, y)].neighbours == 0 implies forall|k: int|
                #[trigger] nbr_ok(w, h, x, y, k) ==> s[nbr_at(w, x, y, k)] || a[nbr_at(w, x, y, k)].flag != 0 by {
            assert forall|k: int| #[trigger] nbr_ok(w, h, x, y, k) implies s[nbr_at(w, x, y, k)] || a[nbr_at(w, x, y, k)].flag != 0 by {
                lemma_cell_bounds(w, h, x + off_x(k), y + off_y(k));
            }
        }
    }
    assert forall|i: int| 0 <= i < a.len() && (#[trigger] b[i]).discovered && !a[i].discovered implies a[i].flag == 0 by {
        assert(disc(b)[i]);
        assert(s[i]);
    }
}

/// On a board without markers whose numbers agree with its cats, a click on a
/// cell without a cat uncovers exactly the cells that the solver's flood reveal
/// (`grid_simulate_reveal`) uncovers from the same cell: the game's flood and
/// the solver's flood are one.
pub proof fn lemma_click_flood_is_reveal_flood(
    a: Seq<Field>,
    w: int,
    h: int,
    x: int,
    y: int,
    b: Seq<Field>,
    r: Seq<bool>,
)
    requires
        0 <= w,
        0 <= h,
        a.len() == w * h,
        counts_ok(a, w, h),
        in_grid(w, h, x, y),
        !a[cell(w, x, y)].cat,
        forall|i: int| 0 <= i < a.len() ==> (#[trigger] a[i]).flag == 0,
        click_opens(a, w, h, just(cell(w, x, y)), b),
        flood_from(a, w, h, disc(a), x, y, r),
        forall|kd: Seq<bool>| #[trigger] flood_from(a, w, h, disc(a), x, y, kd) ==> subset(r, kd),
    ensures
        disc(b) == r,
{
    let c = cell(w, x, y);
    lemma_cell_bounds(w, h, x, y);
    // The solver's flood is one that the click may leave behind.
    assert(opened_from(a, w, h, just(c), r)) by {
        assert forall|i: int| 0 <= i < a.len() && #[trigger] a[i].discovered implies r[i] by {
            assert(disc(a)[i]);
        }
        assert forall|cx: int, cy: int|
            in_grid(w, h, cx, cy) && #[trigger] r[cell(w, cx, cy)] && !a[cell(w, cx, cy)].discovered
                && !a[cell(w, cx, cy)].cat && a[cell(w, cx, cy)].neighbours == 0 implies forall|k: int|
                #[trigger] nbr_ok(w, h, cx, cy, k) ==> r[nbr_at(w, cx, cy, k)] || a[nbr_at(w, cx, cy, k)].flag
                    != 0 by {
            lemma_cell_bounds(w, h, cx, cy);
            assert(!disc(a)[cell(w, cx, cy)]);
            assert(a[cell(w, cx, cy)].neighbours as int == nbr_count(w, h, cx, cy, cat_pred(a)));
            lemma_nbr_count_zero(w, h, cx, cy, cat_pred(a), 9);
            assert forall|k: int| #[trigger] nbr_ok(w, h, cx, cy, k) implies r[nbr_at(w, cx, cy, k)]
                || a[nbr_at(w, cx, cy, k)].flag != 0 by {
                assert(!cat_pred(a)(nbr_at(w, cx, cy, k)));
            }
        }
    }
    // The click's flood is one that the solver's flood is contained in.
    let s = disc(b);
    assert(flood_from(a, w, h, disc(a), x, y, s)) by {
        assert forall|i: int| 0 <= i < disc(a).len() && #[trigger] disc(a)[i] implies s[i] by {
            assert(a[i].discovered);
        }
        assert(just(c)(c) && a[c].flag == 0);
        assert(s[c]);
        assert forall|cx: int, cy: int|
            in_grid(w, h, cx, cy) && #[trigger] s[cell(w, cx, cy)] && !disc(a)[cell(w, cx, cy)]
                && !a[cell(w, cx, cy)].cat && a[cell(w, cx, cy)].neighbours == 0 implies forall|k: int|
                #[trigger] nbr_ok(w, h, cx, cy, k) ==> s[nbr_at(w, cx, cy, k)] || a[nbr_at(w, cx, cy, k)].cat by {
            lemma_cell_bounds(w, h, cx, cy);
            assert(!a[cell(w, cx, cy)].discovered);
            assert forall|k: int| #[trigger] nbr_ok(w, h, cx, cy, k) implies s[nbr_at(w, cx, cy, k)]
                || a[nbr_at(w, cx, cy, k)].cat by {
                lemma_cell_bounds(w, h, cx + off_x(k), cy + off_y(k));
                assert(a[nbr_at(w, cx, cy, k)].flag == 0);
            }
        }
    }
    assert(subset(disc(b), r));
    assert(subset(r, disc(b)));
    assert(disc(b) =~= r);
}

} // verus!
