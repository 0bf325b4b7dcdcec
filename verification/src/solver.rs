use vstd::prelude::*;

use crate::grid::{
    cell, cell_index, count_where, in_grid, lemma_cell_bounds, lemma_cell_injective,
    lemma_count_bounds, lemma_count_ext, lemma_count_pos, lemma_count_split, lemma_count_step,
    lemma_count_sub, lemma_count_zero, lemma_nbr_count_bounds, lemma_nbr_count_split,
    lemma_nbr_count_sub, lemma_nbr_count_zero, lemma_cell_of_index, nbr_at, nbr_count_upto, nbr_count, nbr_ok, neighbour, off_x, off_y,
};
use crate::model::Field;

verus! {

// ── the board ─────────────────────────────────────────────────────────────

/// The cell with index `j` holds a cat.
pub open spec fn cat_pred(data: Seq<Field>) -> spec_fn(int) -> bool {
    |j: int| data[j].cat
}

/// Every cell without a cat has as `neighbours` the number of cats around it.
pub open spec fn counts_ok(data: Seq<Field>, w: int, h: int) -> bool {
    forall|x: int, y: int|
        in_grid(w, h, x, y) && !(#[trigger] data[cell(w, x, y)]).cat ==> data[cell(w, x, y)].neighbours as int == nbr_count(
            w,
            h,
            x,
            y,
            cat_pred(data),
        )
}

/// A `w` x `h` board, stored row by row, whose numbers agree with its cats.
pub open spec fn grid_wf(data: Seq<Field>, w: int, h: int) -> bool {
    &&& 0 <= w
    &&& 0 <= h
    &&& data.len() == w * h
    &&& counts_ok(data, w, h)
}

// ── what a player knows ──────────────────────────────────────────────────

/// `a` marks no more cells than `b`.
pub open spec fn subset(a: Seq<bool>, b: Seq<bool>) -> bool {
    forall|i: int| 0 <= i < a.len() && #[trigger] a[i] ==> b[i]
}

/// The cell with index `j` is still covered.
pub open spec fn covered_pred(d: Seq<bool>) -> spec_fn(int) -> bool {
    |j: int| !d[j]
}

/// The cell with index `j` is covered and flagged.
pub open spec fn flagged_pred(d: Seq<bool>, f: Seq<bool>) -> spec_fn(int) -> bool {
    |j: int| !d[j] && f[j]
}

/// The cell with index `j` is covered and not flagged: nothing is known of it.
pub open spec fn unknown_pred(d: Seq<bool>, f: Seq<bool>) -> spec_fn(int) -> bool {
    |j: int| !d[j] && !f[j]
}

/// The cell with index `j` is flagged.
pub open spec fn flag_pred(f: Seq<bool>) -> spec_fn(int) -> bool {
    |j: int| f[j]
}

/// No uncovered cell holds a cat.
pub open spec fn no_cat_uncovered(data: Seq<Field>, d: Seq<bool>) -> bool {
    &&& d.len() == data.len()
    &&& forall|i: int| 0 <= i < d.len() && #[trigger] d[i] ==> !data[i].cat
}

/// Knowledge that is true of the board: uncovered cells hold no cat, flagged cells
/// hold one.
pub open spec fn sound(data: Seq<Field>, d: Seq<bool>, f: Seq<bool>) -> bool {
    &&& no_cat_uncovered(data, d)
    &&& f.len() == data.len()
    &&& forall|i: int| 0 <= i < f.len() && #[trigger] f[i] ==> data[i].cat
}

/// Every uncovered cell without cats around it has all its cat-free neighbours
/// uncovered too (what uncovering a zero does).
pub open spec fn zero_closed(data: Seq<Field>, w: int, h: int, d: Seq<bool>) -> bool {
    forall|x: int, y: int|
        in_grid(w, h, x, y) && #[trigger] d[cell(w, x, y)] && data[cell(w, x, y)].neighbours == 0
            ==> forall|k: int| #[trigger]
            nbr_ok(w, h, x, y, k) ==> d[nbr_at(w, x, y, k)] || data[nbr_at(w, x, y, k)].cat
}

/// Neither local rule of the solver applies at (x, y): if the uncovered number
/// there equals its flagged plus unknown neighbours, or its flagged neighbours
/// alone, then it has no unknown neighbour left.
pub open spec fn local_stuck(
    data: Seq<Field>,
    w: int,
    h: int,
    d: Seq<bool>,
    f: Seq<bool>,
    x: int,
    y: int,
) -> bool {
    let c = cell(w, x, y);
    let nb = data[c].neighbours as int;
    let fc = nbr_count(w, h, x, y, flagged_pred(d, f));
    let hc = nbr_count(w, h, x, y, unknown_pred(d, f));
    d[c] && !data[c].cat && nb != 0 ==> (fc + hc == nb ==> hc == 0) && (fc == nb ==> hc == 0)
}

/// Cats not yet flagged, as the solver counts them.
pub open spec fn remaining_cats(n: int, total: int, f: Seq<bool>) -> int {
    if count_where(n, flag_pred(f)) >= total {
        0
    } else {
        total - count_where(n, flag_pred(f))
    }
}

/// Neither global rule applies: if the cats left equal the unknown cells, or no
/// cat is left, then no cell is unknown.
pub open spec fn global_stuck(n: int, total: int, d: Seq<bool>, f: Seq<bool>) -> bool {
    let hc = count_where(n, unknown_pred(d, f));
    let rem = remaining_cats(n, total, f);
    (rem == hc ==> hc == 0) && (rem == 0 ==> hc == 0)
}

/// Knowledge that no rule of pure logic can extend: the first click is
/// uncovered, zeros are opened, and no local or global rule applies.
pub open spec fn closed(
    data: Seq<Field>,
    w: int,
    h: int,
    total: int,
    sx: int,
    sy: int,
    d: Seq<bool>,
    f: Seq<bool>,
) -> bool {
    &&& (!data[cell(w, sx, sy)].cat ==> d[cell(w, sx, sy)])
    &&& zero_closed(data, w, h, d)
    &&& forall|x: int, y: int| #[trigger] in_grid(w, h, x, y) ==> local_stuck(data, w, h, d, f, x, y)
    &&& global_stuck(w * h, total, d, f)
}

/// Cell `i` is uncovered in every true knowledge that pure logic cannot extend:
/// a player who never guesses is bound to uncover it.
pub open spec fn deducible(
    data: Seq<Field>,
    w: int,
    h: int,
    total: int,
    sx: int,
    sy: int,
    i: int,
) -> bool {
    forall|kd: Seq<bool>, kf: Seq<bool>|
        sound(data, kd, kf) && #[trigger] closed(data, w, h, total, sx, sy, kd, kf) ==> kd[i]
}

/// Starting from the click at (sx, sy), pure logic uncovers every cell without
/// a cat.
pub open spec fn solvable(data: Seq<Field>, w: int, h: int, total: int, sx: int, sy: int) -> bool {
    forall|i: int|
        0 <= i < w * h ==> data[i].cat || #[trigger] deducible(data, w, h, total, sx, sy, i)
}

// ── flood reveal ─────────────────────────────────────────────────────────

/// The coordinates on the stack are on the board.
pub open spec fn stack_on_board(s: Seq<(usize, usize)>, w: int, h: int) -> bool {
    forall|m: int| 0 <= m < s.len() ==> in_grid(w, h, (#[trigger] s[m]).0 as int, s[m].1 as int)
}

/// `p` is one of the neighbours of (x, y).
pub open spec fn is_nbr_of(w: int, h: int, x: int, y: int, p: (usize, usize)) -> bool {
    exists|j: int| #[trigger] nbr_ok(w, h, x, y, j) && p.0 == x + off_x(j) && p.1 == y + off_y(j)
}

/// Every cat-free zero uncovered since `d0` has each cat-free neighbour
/// uncovered or waiting on the stack.
pub open spec fn zero_closed_upto(
    data: Seq<Field>,
    w: int,
    h: int,
    d0: Seq<bool>,
    d: Seq<bool>,
    s: Seq<(usize, usize)>,
) -> bool {
    forall|x: int, y: int|
        in_grid(w, h, x, y) && #[trigger] d[cell(w, x, y)] && !d0[cell(w, x, y)] && !data[cell(
            w,
            x,
            y,
        )].cat && data[cell(w, x, y)].neighbours == 0 ==> forall|k: int| #[trigger]
            nbr_ok(w, h, x, y, k) ==> d[nbr_at(w, x, y, k)] || data[nbr_at(w, x, y, k)].cat
                || s.contains(((x + off_x(k)) as usize, (y + off_y(k)) as usize))
}

/// Uncovering from (sx, sy) in `kd` has already happened: `kd` contains `d`,
/// the start cell unless it holds a cat, and is closed under opening zeros.
pub open spec fn flood_target(
    data: Seq<Field>,
    w: int,
    h: int,
    d: Seq<bool>,
    sx: int,
    sy: int,
    kd: Seq<bool>,
) -> bool {
    &&& kd.len() == d.len()
    &&& zero_closed(data, w, h, kd)
    &&& subset(d, kd)
    &&& (!data[cell(w, sx, sy)].cat ==> kd[cell(w, sx, sy)])
}

/// `kd` holds what a flood from (sx, sy) over the uncovered cells `d` reaches:
/// it contains `d`, the start cell unless it holds a cat, and every cat-free
/// neighbour of a cat-free zero that it uncovers beyond `d`.
pub open spec fn flood_from(
    data: Seq<Field>,
    w: int,
    h: int,
    d: Seq<bool>,
    sx: int,
    sy: int,
    kd: Seq<bool>,
) -> bool {
    &&& kd.len() == d.len()
    &&& subset(d, kd)
    &&& (!data[cell(w, sx, sy)].cat ==> kd[cell(w, sx, sy)])
    &&& forall|x: int, y: int|
        in_grid(w, h, x, y) && #[trigger] kd[cell(w, x, y)] && !d[cell(w, x, y)] && !data[cell(
            w,
            x,
            y,
        )].cat && data[cell(w, x, y)].neighbours == 0 ==> forall|k: int| #[trigger]
            nbr_ok(w, h, x, y, k) ==> kd[nbr_at(w, x, y, k)] || data[nbr_at(w, x, y, k)].cat
}

/// No cell uncovered in `d` beyond `d0` holds a cat.
pub open spec fn no_new_cat(data: Seq<Field>, d0: Seq<bool>, d: Seq<bool>) -> bool {
    forall|i: int| 0 <= i < d.len() && #[trigger] d[i] && !d0[i] ==> !data[i].cat
}

/// Reveals the cell at (start_x, start_y) the way a player's click does: a
/// covered cell without a cat is uncovered, and around a cat-free zero so
/// uncovered every covered cat-free neighbour is uncovered in turn. Cells that
/// were uncovered already are left as they are and not opened from. So
/// `discovered` becomes exactly the least `flood_from` set: nothing is covered
/// again and no cat is uncovered.
pub fn grid_simulate_reveal(
    data: &[Field],
    discovered: &mut Vec<bool>,
    width: usize,
    height: usize,
    start_x: usize,
    start_y: usize,
)
    requires
        data@.len() == width * height,
        old(discovered)@.len() == width * height,
        start_x < width,
        start_y < height,
    ensures
        flood_from(
            data@,
            width as int,
            height as int,
            old(discovered)@,
            start_x as int,
            start_y as int,
            final(discovered)@,
        ),
        forall|kd: Seq<bool>|
            #[trigger] flood_from(
                data@,
                width as int,
                height as int,
                old(discovered)@,
                start_x as int,
                start_y as int,
                kd,
            ) ==> subset(final(discovered)@, kd),
        no_new_cat(data@, old(discovered)@, final(discovered)@),
        no_cat_uncovered(data@, old(discovered)@) ==> no_cat_uncovered(data@, final(discovered)@),
        zero_closed(data@, width as int, height as int, old(discovered)@) ==> zero_closed(
            data@,
            width as int,
            height as int,
            final(discovered)@,
        ),
        zero_closed(data@, width as int, height as int, old(discovered)@) ==> flood_target(
            data@,
            width as int,
            height as int,
            old(discovered)@,
            start_x as int,
            start_y as int,
            final(discovered)@,
        ),
        zero_closed(data@, width as int, height as int, old(discovered)@) ==> forall|kd: Seq<bool>|
            #[trigger] flood_from(
                data@,
                width as int,
                height as int,
                old(discovered)@,
                start_x as int,
                start_y as int,
                kd,
            ) ==> subset(final(discovered)@, kd),
{
    let ghost w = width as int;
    let ghost h = height as int;
    let ghost n = w * h;
    let ghost d0 = discovered@;
    let ghost sc = cell(w, start_x as int, start_y as int);
    let len = data.len();
    assert(w * h <= usize::MAX);
    let mut stack: Vec<(usize, usize)> = Vec::new();
    stack.push((start_x, start_y));
    proof {
        lemma_cell_bounds(w, h, start_x as int, start_y as int);
        assert(stack@[0] == (start_x, start_y));
        assert(zero_closed_upto(data@, w, h, d0, discovered@, stack@));
    }
    while stack.len() > 0
        invariant
            data@.len() == n,
            w == width,
            h == height,
            n == w * h,
            n <= usize::MAX,
            sc == cell(w, start_x as int, start_y as int),
            start_x < width,
            start_y < height,
            discovered@.len() == n,
            d0.len() == n,
            0 <= sc < n,
            subset(d0, discovered@),
            no_new_cat(data@, d0, discovered@),
            stack_on_board(stack@, w, h),
            zero_closed_upto(data@, w, h, d0, discovered@, stack@),
            !data@[sc].cat ==> discovered@[sc] || stack@.contains((start_x, start_y)),
            forall|kd: Seq<bool>|
                #[trigger] flood_from(data@, w, h, d0, start_x as int, start_y as int, kd)
                    ==> subset(discovered@, kd) && forall|m: int|
                    0 <= m < stack@.len() ==> data@[cell(
                        w,
                        (#[trigger] stack@[m]).0 as int,
                        stack@[m].1 as int,
                    )].cat || kd[cell(w, stack@[m].0 as int, stack@[m].1 as int)],
        decreases count_where(n, covered_pred(discovered@)), stack.len(),
    {
        let ghost st0 = stack@;
        let ghost dd0 = discovered@;
        let top = stack.pop();
        let (x, y) = match top {
            Some(p) => p,
            None => { return; },
        };
        assert(st0 == stack@.push((x, y)));
        assert(st0[st0.len() - 1] == (x, y));
        assert(in_grid(w, h, x as int, y as int));
        proof {
            lemma_cell_bounds(w, h, x as int, y as int);
        }
        let idx = cell_index(width, height, x, y);
        if discovered[idx] || data[idx].cat {
            proof {
                lemma_pop_keeps_closure(data@, w, h, d0, discovered@, st0, stack@, x, y);
                assert forall|kd: Seq<bool>|
                    #[trigger] flood_from(
                        data@,
                        w,
                        h,
                        d0,
                        start_x as int,
                        start_y as int,
                        kd,
                    ) implies subset(discovered@, kd) && forall|m: int|
                    0 <= m < stack@.len() ==> data@[cell(
                        w,
                        (#[trigger] stack@[m]).0 as int,
                        stack@[m].1 as int,
                    )].cat || kd[cell(w, stack@[m].0 as int, stack@[m].1 as int)] by {
                    assert forall|m: int| 0 <= m < stack@.len() implies data@[cell(
                        w,
                        (#[trigger] stack@[m]).0 as int,
                        stack@[m].1 as int,
                    )].cat || kd[cell(w, stack@[m].0 as int, stack@[m].1 as int)] by {
                        assert(stack@[m] == st0[m]);
                    }
                }
                if !data@[sc].cat && !discovered@[sc] {
                    assert(st0.contains((start_x, start_y)));
                    lemma_contains_after_pop(st0, stack@, (x, y), (start_x, start_y));
                }
            }
            continue;
        }
        discovered.set(idx, true);
        proof {
            lemma_count_step(n, covered_pred(discovered@), covered_pred(dd0), idx as int);
            lemma_count_bounds(n, covered_pred(discovered@));
            assert(count_where(n, covered_pred(discovered@)) < count_where(n, covered_pred(dd0)));
            assert forall|i: int| 0 <= i < d0.len() && #[trigger] d0[i] implies discovered@[i] by {
                assert(dd0[i]);
            }
        }
        let ghost base = stack@;
        if data[idx].neighbours == 0 {
            let mut k: usize = 0;
            while k < 9
                invariant
                    0 <= k <= 9,
                    x < width,
                    y < height,
                    w == width,
                    h == height,
                    stack@.len() >= base.len(),
                    stack_on_board(stack@, w, h),
                    forall|m: int| 0 <= m < base.len() ==> stack@[m] == base[m],
                    forall|m: int|
                        base.len() <= m < stack@.len() ==> is_nbr_of(w, h, x as int, y as int, #[trigger] stack@[m]),
                    forall|j: int|
                        0 <= j < k && #[trigger] nbr_ok(w, h, x as int, y as int, j) ==> stack@.contains(
                            ((x + off_x(j)) as usize, (y + off_y(j)) as usize),
                        ),
                decreases 9 - k,
            {
                let ghost sk = stack@;
                match neighbour(width, height, x, y, k) {
                    Some(p) => {
                        stack.push(p);
                        proof {
                            assert forall|m: int| 0 <= m < stack@.len() implies in_grid(w, h, (#[trigger] stack@[m]).0 as int, stack@[m].1 as int) by {
                                if m < stack@.len() - 1 {
                                    assert(stack@[m] == sk[m]);
                                }
                            }
                            assert(stack@[stack@.len() - 1] == p);
                            assert forall|j: int|
                                0 <= j < k + 1 && #[trigger] nbr_ok(
                                    w,
                                    h,
                                    x as int,
                                    y as int,
                                    j,
                                ) implies stack@.contains(
                                ((x + off_x(j)) as usize, (y + off_y(j)) as usize),
                            ) by {
                                if j < k {
                                    lemma_contains_after_push(sk, p, ((x + off_x(j)) as usize, (y + off_y(j)) as usize));
                                }
                            }
                            assert forall|m: int|
                                base.len() <= m < stack@.len() implies is_nbr_of(w, h, x as int, y as int, #[trigger] stack@[m]) by {
                                if m == stack@.len() - 1 {
                                    assert(nbr_ok(w, h, x as int, y as int, k as int));
                                } else {
                                    assert(stack@[m] == sk[m]);
                                }
                            }
                        }
                    },
                    None => {},
                }
                k = k + 1;
            }
        }
        proof {
            lemma_discover_keeps_closure(data@, w, h, d0, dd0, discovered@, st0, stack@, base, x, y);
            assert forall|kd: Seq<bool>|
                #[trigger] flood_from(
                    data@,
                    w,
                    h,
                    d0,
                    start_x as int,
                    start_y as int,
                    kd,
                ) implies subset(discovered@, kd) && forall|m: int|
                0 <= m < stack@.len() ==> data@[cell(
                    w,
                    (#[trigger] stack@[m]).0 as int,
                    stack@[m].1 as int,
                )].cat || kd[cell(w, stack@[m].0 as int, stack@[m].1 as int)] by {
                assert(kd[idx as int]);
                assert(!d0[idx as int]);
                assert forall|m: int| 0 <= m < stack@.len() implies data@[cell(
                    w,
                    (#[trigger] stack@[m]).0 as int,
                    stack@[m].1 as int,
                )].cat || kd[cell(w, stack@[m].0 as int, stack@[m].1 as int)] by {
                    if m < base.len() {
                        assert(stack@[m] == st0[m]);
                    } else {
                        assert(is_nbr_of(w, h, x as int, y as int, stack@[m]));
                        let j = choose|j: int|
                            #[trigger] nbr_ok(w, h, x as int, y as int, j) && stack@[m].0 == x
                                + off_x(j) && stack@[m].1 == y + off_y(j);
                        assert(kd[cell(w, x as int, y as int)] && data@[cell(
                            w,
                            x as int,
                            y as int,
                        )].neighbours == 0);
                        assert(nbr_ok(w, h, x as int, y as int, j));
                    }
                }
            }
            if !data@[sc].cat && !discovered@[sc] {
                assert(st0.contains((start_x, start_y)));
                lemma_contains_after_pop(st0, base, (x, y), (start_x, start_y));
                lemma_contains_prefix(base, stack@, (start_x, start_y));
            }
        }
    }
    proof {
        assert forall|x: int, y: int|
            in_grid(w, h, x, y) && #[trigger] discovered@[cell(w, x, y)] && !d0[cell(w, x, y)]
                && !data@[cell(w, x, y)].cat && data@[cell(w, x, y)].neighbours == 0 implies forall|k: int|
            #[trigger] nbr_ok(w, h, x, y, k) ==> discovered@[nbr_at(w, x, y, k)] || data@[nbr_at(
                w,
                x,
                y,
                k,
            )].cat by {
            assert forall|k: int| #[trigger]
                nbr_ok(w, h, x, y, k) implies discovered@[nbr_at(w, x, y, k)] || data@[nbr_at(
                w,
                x,
                y,
                k,
            )].cat by {
                let e = ((x + off_x(k)) as usize, (y + off_y(k)) as usize);
                if stack@.contains(e) {
                    let m = choose|m: int| 0 <= m < stack@.len() && stack@[m] == e;
                }
            }
        }
        assert(flood_from(data@, w, h, d0, start_x as int, start_y as int, discovered@));
        if no_cat_uncovered(data@, d0) {
            assert forall|i: int| 0 <= i < discovered@.len() && #[trigger] discovered@[i] implies !data@[i].cat by {
                if d0[i] {
                } else {
                }
            }
        }
        if zero_closed(data@, w, h, d0) {
            assert forall|x: int, y: int|
                in_grid(w, h, x, y) && #[trigger] discovered@[cell(w, x, y)] && data@[cell(w, x, y)].neighbours
                    == 0 implies forall|k: int| #[trigger]
                nbr_ok(w, h, x, y, k) ==> discovered@[nbr_at(w, x, y, k)] || data@[nbr_at(w, x, y, k)].cat by {
                lemma_cell_bounds(w, h, x, y);
                if d0[cell(w, x, y)] {
                    assert forall|k: int| #[trigger] nbr_ok(w, h, x, y, k) implies discovered@[nbr_at(w, x, y, k)]
                        || data@[nbr_at(w, x, y, k)].cat by {
                        lemma_cell_bounds(w, h, x + off_x(k), y + off_y(k));
                        if d0[nbr_at(w, x, y, k)] {
                            assert(subset(d0, discovered@));
                        }
                    }
                } else {
                    assert(!data@[cell(w, x, y)].cat);
                }
            }
            assert forall|kd: Seq<bool>|
                #[trigger] flood_target(data@, w, h, d0, start_x as int, start_y as int, kd) implies subset(
                discovered@,
                kd,
            ) by {
                assert(flood_from(data@, w, h, d0, start_x as int, start_y as int, kd));
            }
        }
    }
}

proof fn lemma_contains_after_pop<T>(s: Seq<T>, rest: Seq<T>, top: T, e: T)
    requires
        s == rest.push(top),
        s.contains(e),
        e != top,
    ensures
        rest.contains(e),
{
    let m = choose|m: int| 0 <= m < s.len() && s[m] == e;
    assert(m < rest.len());
    assert(rest[m] == e);
}

proof fn lemma_contains_after_push<T>(s: Seq<T>, v: T, e: T)
    requires
        s.contains(e),
    ensures
        s.push(v).contains(e),
{
    let m = choose|m: int| 0 <= m < s.len() && s[m] == e;
    assert(s.push(v)[m] == e);
}

proof fn lemma_contains_prefix<T>(s: Seq<T>, t: Seq<T>, e: T)
    requires
        s.contains(e),
        s.len() <= t.len(),
        forall|m: int| 0 <= m < s.len() ==> t[m] == s[m],
    ensures
        t.contains(e),
{
    let m = choose|m: int| 0 <= m < s.len() && s[m] == e;
    assert(t[m] == e);
}

/// Popping a cell that is already uncovered or holds a cat keeps the closure.
proof fn lemma_pop_keeps_closure(
    data: Seq<Field>,
    w: int,
    h: int,
    d0: Seq<bool>,
    d: Seq<bool>,
    s: Seq<(usize, usize)>,
    rest: Seq<(usize, usize)>,
    x: usize,
    y: usize,
)
    requires
        zero_closed_upto(data, w, h, d0, d, s),
        s == rest.push((x, y)),
        in_grid(w, h, x as int, y as int),
        w <= usize::MAX,
        h <= usize::MAX,
        d[cell(w, x as int, y as int)] || data[cell(w, x as int, y as int)].cat,
    ensures
        zero_closed_upto(data, w, h, d0, d, rest),
{
    assert forall|cx: int, cy: int|
        in_grid(w, h, cx, cy) && #[trigger] d[cell(w, cx, cy)] && !d0[cell(w, cx, cy)] && !data[cell(
            w,
            cx,
            cy,
        )].cat && data[cell(w, cx, cy)].neighbours == 0 implies forall|k: int| #[trigger]
        nbr_ok(w, h, cx, cy, k) ==> d[nbr_at(w, cx, cy, k)] || data[nbr_at(w, cx, cy, k)].cat
            || rest.contains(((cx + off_x(k)) as usize, (cy + off_y(k)) as usize)) by {
        assert forall|k: int| #[trigger] nbr_ok(w, h, cx, cy, k) implies d[nbr_at(w, cx, cy, k)]
            || data[nbr_at(w, cx, cy, k)].cat || rest.contains(
            ((cx + off_x(k)) as usize, (cy + off_y(k)) as usize),
        ) by {
            let e = ((cx + off_x(k)) as usize, (cy + off_y(k)) as usize);
            if !d[nbr_at(w, cx, cy, k)] && !data[nbr_at(w, cx, cy, k)].cat {
                if e == (x, y) {
                    assert(nbr_at(w, cx, cy, k) == cell(w, x as int, y as int));
                } else {
                    lemma_contains_after_pop(s, rest, (x, y), e);
                }
            }
        }
    }
}

/// Uncovering the popped cell and pushing its neighbours when it is a zero keeps
/// the closure.
proof fn lemma_discover_keeps_closure(
    data: Seq<Field>,
    w: int,
    h: int,
    d0: Seq<bool>,
    d: Seq<bool>,
    d2: Seq<bool>,
    s: Seq<(usize, usize)>,
    s2: Seq<(usize, usize)>,
    rest: Seq<(usize, usize)>,
    x: usize,
    y: usize,
)
    requires
        zero_closed_upto(data, w, h, d0, d, s),
        s == rest.push((x, y)),
        in_grid(w, h, x as int, y as int),
        w <= usize::MAX,
        h <= usize::MAX,
        d.len() == w * h,
        d2 == d.update(cell(w, x as int, y as int), true),
        0 <= cell(w, x as int, y as int) < d.len(),
        s2.len() >= rest.len(),
        forall|m: int| 0 <= m < rest.len() ==> s2[m] == rest[m],
        data[cell(w, x as int, y as int)].neighbours == 0 ==> forall|j: int|
            0 <= j < 9 && #[trigger] nbr_ok(w, h, x as int, y as int, j) ==> s2.contains(
                ((x + off_x(j)) as usize, (y + off_y(j)) as usize),
            ),
    ensures
        zero_closed_upto(data, w, h, d0, d2, s2),
{
    let c0 = cell(w, x as int, y as int);
    assert forall|cx: int, cy: int|
        in_grid(w, h, cx, cy) && #[trigger] d2[cell(w, cx, cy)] && !d0[cell(w, cx, cy)] && !data[cell(
            w,
            cx,
            cy,
        )].cat && data[cell(w, cx, cy)].neighbours == 0 implies forall|k: int| #[trigger]
        nbr_ok(w, h, cx, cy, k) ==> d2[nbr_at(w, cx, cy, k)] || data[nbr_at(w, cx, cy, k)].cat
            || s2.contains(((cx + off_x(k)) as usize, (cy + off_y(k)) as usize)) by {
        lemma_cell_bounds(w, h, cx, cy);
        if cell(w, cx, cy) == c0 {
            lemma_cell_injective(w, h, cx, cy, x as int, y as int);
        } else {
            assert(d[cell(w, cx, cy)]);
            assert forall|k: int| #[trigger] nbr_ok(w, h, cx, cy, k) implies d2[nbr_at(
                w,
                cx,
                cy,
                k,
            )] || data[nbr_at(w, cx, cy, k)].cat || s2.contains(
                ((cx + off_x(k)) as usize, (cy + off_y(k)) as usize),
            ) by {
                let e = ((cx + off_x(k)) as usize, (cy + off_y(k)) as usize);
                lemma_cell_bounds(w, h, cx + off_x(k), cy + off_y(k));
                if !d[nbr_at(w, cx, cy, k)] && !data[nbr_at(w, cx, cy, k)].cat {
                    assert(s.contains(e));
                    if e == (x, y) {
                        assert(nbr_at(w, cx, cy, k) == c0);
                    } else {
                        lemma_contains_after_pop(s, rest, (x, y), e);
                        lemma_contains_prefix(rest, s2, e);
                    }
                }
            }
        }
    }
}


// ── the deduction rules ──────────────────────────────────────────────────

/// The cell with index `j` holds a cat that is not flagged.
pub open spec fn cat_unflagged_pred(data: Seq<Field>, f: Seq<bool>) -> spec_fn(int) -> bool {
    |j: int| data[j].cat && !f[j]
}

proof fn lemma_nbr_in_range(w: int, h: int, x: int, y: int)
    ensures
        forall|k: int| #[trigger] nbr_ok(w, h, x, y, k) ==> 0 <= nbr_at(w, x, y, k) < w * h,
{
    assert forall|k: int| #[trigger] nbr_ok(w, h, x, y, k) implies 0 <= nbr_at(w, x, y, k) < w * h by {
        lemma_cell_bounds(w, h, x + off_x(k), y + off_y(k));
    }
}

/// Counting the neighbours of an on-board cell under true knowledge: covered
/// neighbours are the flagged ones plus the unknown ones, every cat is covered,
/// every flag is a cat; and where the counts meet, the sets meet.
proof fn lemma_local_counts(data: Seq<Field>, w: int, h: int, d: Seq<bool>, f: Seq<bool>, x: int, y: int)
    requires
        grid_wf(data, w, h),
        sound(data, d, f),
        in_grid(w, h, x, y),
        !data[cell(w, x, y)].cat,
    ensures
        data[cell(w, x, y)].neighbours as int == nbr_count(w, h, x, y, cat_pred(data)),
        nbr_count(w, h, x, y, covered_pred(d)) == nbr_count(w, h, x, y, flagged_pred(d, f))
            + nbr_count(w, h, x, y, unknown_pred(d, f)),
        nbr_count(w, h, x, y, cat_pred(data)) <= nbr_count(w, h, x, y, covered_pred(d)),
        nbr_count(w, h, x, y, flagged_pred(d, f)) <= nbr_count(w, h, x, y, cat_pred(data)),
        0 <= nbr_count(w, h, x, y, unknown_pred(d, f)),
        0 <= nbr_count(w, h, x, y, flagged_pred(d, f)),
        nbr_count(w, h, x, y, cat_pred(data)) == nbr_count(w, h, x, y, covered_pred(d))
            ==> forall|k: int|
            #[trigger] nbr_ok(w, h, x, y, k) && !d[nbr_at(w, x, y, k)] ==> data[nbr_at(
                w,
                x,
                y,
                k,
            )].cat,
        nbr_count(w, h, x, y, flagged_pred(d, f)) == nbr_count(w, h, x, y, cat_pred(data))
            ==> forall|k: int|
            #[trigger] nbr_ok(w, h, x, y, k) && data[nbr_at(w, x, y, k)].cat ==> f[nbr_at(
                w,
                x,
                y,
                k,
            )],
{
    assert(data[cell(w, x, y)].neighbours as int == nbr_count(w, h, x, y, cat_pred(data)));
    lemma_nbr_in_range(w, h, x, y);
    lemma_nbr_count_split(
        w,
        h,
        x,
        y,
        flagged_pred(d, f),
        unknown_pred(d, f),
        covered_pred(d),
        9,
    );
    lemma_nbr_count_sub(w, h, x, y, cat_pred(data), covered_pred(d), 9);
    lemma_nbr_count_sub(w, h, x, y, flagged_pred(d, f), cat_pred(data), 9);
    lemma_nbr_count_bounds(w, h, x, y, unknown_pred(d, f), 9);
    lemma_nbr_count_bounds(w, h, x, y, flagged_pred(d, f), 9);
}

/// The local flag rule is sound: when a number equals its flagged plus unknown
/// neighbours, every covered neighbour holds a cat.
proof fn lemma_local_flag_sound(
    data: Seq<Field>,
    w: int,
    h: int,
    d: Seq<bool>,
    f: Seq<bool>,
    x: int,
    y: int,
)
    requires
        grid_wf(data, w, h),
        sound(data, d, f),
        in_grid(w, h, x, y),
        !data[cell(w, x, y)].cat,
        nbr_count(w, h, x, y, flagged_pred(d, f)) + nbr_count(w, h, x, y, unknown_pred(d, f))
            == data[cell(w, x, y)].neighbours,
    ensures
        forall|k: int|
            #[trigger] nbr_ok(w, h, x, y, k) && !d[nbr_at(w, x, y, k)] ==> data[nbr_at(
                w,
                x,
                y,
                k,
            )].cat,
{
    lemma_local_counts(data, w, h, d, f, x, y);
}

/// The local reveal rule is sound: when a number equals its flagged neighbours,
/// every cat around it is flagged, so the unknown neighbours are safe.
proof fn lemma_local_reveal_sound(
    data: Seq<Field>,
    w: int,
    h: int,
    d: Seq<bool>,
    f: Seq<bool>,
    x: int,
    y: int,
)
    requires
        grid_wf(data, w, h),
        sound(data, d, f),
        in_grid(w, h, x, y),
        !data[cell(w, x, y)].cat,
        nbr_count(w, h, x, y, flagged_pred(d, f)) == data[cell(w, x, y)].neighbours,
    ensures
        forall|k: int|
            #[trigger] nbr_ok(w, h, x, y, k) && data[nbr_at(w, x, y, k)].cat ==> f[nbr_at(
                w,
                x,
                y,
                k,
            )],
{
    lemma_local_counts(data, w, h, d, f, x, y);
}

/// What the local flag rule flags at (x, y), every true closed knowledge above
/// the current one has flagged already.
proof fn lemma_local_flag_complete(
    data: Seq<Field>,
    w: int,
    h: int,
    d: Seq<bool>,
    f: Seq<bool>,
    kd: Seq<bool>,
    kf: Seq<bool>,
    x: int,
    y: int,
)
    requires
        grid_wf(data, w, h),
        sound(data, d, f),
        sound(data, kd, kf),
        subset(d, kd),
        subset(f, kf),
        in_grid(w, h, x, y),
        d[cell(w, x, y)],
        !data[cell(w, x, y)].cat,
        data[cell(w, x, y)].neighbours != 0,
        nbr_count(w, h, x, y, flagged_pred(d, f)) + nbr_count(w, h, x, y, unknown_pred(d, f))
            == data[cell(w, x, y)].neighbours,
        local_stuck(data, w, h, kd, kf, x, y),
    ensures
        forall|k: int|
            #[trigger] nbr_ok(w, h, x, y, k) && !d[nbr_at(w, x, y, k)] ==> kf[nbr_at(
                w,
                x,
                y,
                k,
            )],
{
    lemma_cell_bounds(w, h, x, y);
    lemma_local_flag_sound(data, w, h, d, f, x, y);
    lemma_local_counts(data, w, h, kd, kf, x, y);
    lemma_nbr_in_range(w, h, x, y);
    // the covered neighbours in `kd` are exactly the cats
    lemma_nbr_count_sub(w, h, x, y, covered_pred(kd), cat_pred(data), 9);
    assert(kd[cell(w, x, y)]);
    assert(!data[cell(w, x, y)].cat);
    assert(nbr_count(w, h, x, y, unknown_pred(kd, kf)) == 0);
    lemma_nbr_count_zero(w, h, x, y, unknown_pred(kd, kf), 9);
}

/// What the local reveal rule uncovers at (x, y), every true closed knowledge
/// above the current one has uncovered already.
proof fn lemma_local_reveal_complete(
    data: Seq<Field>,
    w: int,
    h: int,
    d: Seq<bool>,
    f: Seq<bool>,
    kd: Seq<bool>,
    kf: Seq<bool>,
    x: int,
    y: int,
)
    requires
        grid_wf(data, w, h),
        sound(data, d, f),
        sound(data, kd, kf),
        subset(d, kd),
        subset(f, kf),
        in_grid(w, h, x, y),
        d[cell(w, x, y)],
        !data[cell(w, x, y)].cat,
        data[cell(w, x, y)].neighbours != 0,
        nbr_count(w, h, x, y, flagged_pred(d, f)) == data[cell(w, x, y)].neighbours,
        local_stuck(data, w, h, kd, kf, x, y),
    ensures
        forall|k: int|
            #[trigger] nbr_ok(w, h, x, y, k) && !d[nbr_at(w, x, y, k)] && !f[nbr_at(w, x, y, k)]
                ==> kd[nbr_at(w, x, y, k)],
{
    lemma_cell_bounds(w, h, x, y);
    lemma_local_reveal_sound(data, w, h, d, f, x, y);
    lemma_local_counts(data, w, h, kd, kf, x, y);
    lemma_nbr_in_range(w, h, x, y);
    lemma_nbr_count_sub(w, h, x, y, flagged_pred(d, f), flagged_pred(kd, kf), 9);
    assert(kd[cell(w, x, y)]);
    assert(!data[cell(w, x, y)].cat);
    assert(nbr_count(w, h, x, y, unknown_pred(kd, kf)) == 0);
    lemma_nbr_count_zero(w, h, x, y, unknown_pred(kd, kf), 9);
}

/// Under true knowledge the cats not flagged number the cats less the flags.
proof fn lemma_unflagged_cats(data: Seq<Field>, n: int, total: int, f: Seq<bool>)
    requires
        0 <= n,
        n == data.len(),
        f.len() == n,
        forall|i: int| 0 <= i < n && #[trigger] f[i] ==> data[i].cat,
        count_where(n, cat_pred(data)) == total,
    ensures
        count_where(n, flag_pred(f)) <= total,
        count_where(n, cat_unflagged_pred(data, f)) == total - count_where(n, flag_pred(f)),
{
    lemma_count_split(n, flag_pred(f), cat_unflagged_pred(data, f), cat_pred(data));
    lemma_count_bounds(n, cat_unflagged_pred(data, f));
}

/// The global flag rule is sound: when the cats left equal the unknown cells,
/// every unknown cell holds a cat.
proof fn lemma_global_flag_sound(data: Seq<Field>, n: int, total: int, d: Seq<bool>, f: Seq<bool>)
    requires
        0 <= n,
        n == data.len(),
        sound(data, d, f),
        count_where(n, cat_pred(data)) == total,
        remaining_cats(n, total, f) == count_where(n, unknown_pred(d, f)),
        count_where(n, unknown_pred(d, f)) > 0,
    ensures
        forall|i: int| 0 <= i < n && !d[i] && !f[i] ==> #[trigger] data[i].cat,
{
    lemma_unflagged_cats(data, n, total, f);
    lemma_count_sub(n, cat_unflagged_pred(data, f), unknown_pred(d, f));
    assert forall|i: int| 0 <= i < n && !d[i] && !f[i] implies #[trigger] data[i].cat by {
        assert(unknown_pred(d, f)(i));
    }
}

/// The global reveal rule is sound: when no cat is left, no unknown cell holds one.
proof fn lemma_global_reveal_sound(data: Seq<Field>, n: int, total: int, d: Seq<bool>, f: Seq<bool>)
    requires
        0 <= n,
        n == data.len(),
        sound(data, d, f),
        count_where(n, cat_pred(data)) == total,
        remaining_cats(n, total, f) == 0,
    ensures
        forall|i: int| 0 <= i < n && #[trigger] data[i].cat ==> f[i],
{
    lemma_unflagged_cats(data, n, total, f);
    lemma_count_zero(n, cat_unflagged_pred(data, f));
    assert forall|i: int| 0 <= i < n && #[trigger] data[i].cat implies f[i] by {
        assert(!cat_unflagged_pred(data, f)(i));
    }
}

/// Under true knowledge whose unknown cells all hold cats, the cats left equal
/// the unknown cells.
proof fn lemma_remaining_is_unknown(data: Seq<Field>, n: int, total: int, d: Seq<bool>, f: Seq<bool>)
    requires
        0 <= n,
        n == data.len(),
        sound(data, d, f),
        count_where(n, cat_pred(data)) == total,
        forall|i: int| 0 <= i < n && !d[i] && !f[i] ==> #[trigger] data[i].cat,
    ensures
        remaining_cats(n, total, f) == count_where(n, unknown_pred(d, f)),
{
    lemma_unflagged_cats(data, n, total, f);
    assert forall|i: int| 0 <= i < n implies #[trigger] cat_unflagged_pred(data, f)(i)
        == unknown_pred(d, f)(i) by {
        if !d[i] && !f[i] {
            assert(data[i].cat);
        }
    }
    lemma_count_ext(n, cat_unflagged_pred(data, f), unknown_pred(d, f));
}

/// What the global flag rule flags, every true closed knowledge above the
/// current one has flagged already.
proof fn lemma_global_flag_complete(
    data: Seq<Field>,
    n: int,
    total: int,
    d: Seq<bool>,
    f: Seq<bool>,
    kd: Seq<bool>,
    kf: Seq<bool>,
)
    requires
        0 <= n,
        n == data.len(),
        sound(data, d, f),
        sound(data, kd, kf),
        subset(d, kd),
        subset(f, kf),
        count_where(n, cat_pred(data)) == total,
        remaining_cats(n, total, f) == count_where(n, unknown_pred(d, f)),
        count_where(n, unknown_pred(d, f)) > 0,
        global_stuck(n, total, kd, kf),
    ensures
        forall|i: int| 0 <= i < n && !d[i] && !f[i] ==> #[trigger] kf[i],
{
    lemma_global_flag_sound(data, n, total, d, f);
    assert forall|i: int| 0 <= i < n && !kd[i] && !kf[i] implies #[trigger] data[i].cat by {
        assert(!d[i]);
        if f[i] {
            assert(kf[i]);
        }
    }
    lemma_remaining_is_unknown(data, n, total, kd, kf);
    lemma_count_zero(n, unknown_pred(kd, kf));
    assert forall|i: int| 0 <= i < n && !d[i] && !f[i] implies #[trigger] kf[i] by {
        assert(data[i].cat);
        assert(!kd[i]);
        assert(!unknown_pred(kd, kf)(i));
    }
}

/// What the global reveal rule uncovers, every true closed knowledge above the
/// current one has uncovered already.
proof fn lemma_global_reveal_complete(
    data: Seq<Field>,
    n: int,
    total: int,
    d: Seq<bool>,
    f: Seq<bool>,
    kd: Seq<bool>,
    kf: Seq<bool>,
)
    requires
        0 <= n,
        n == data.len(),
        sound(data, d, f),
        sound(data, kd, kf),
        subset(d, kd),
        subset(f, kf),
        count_where(n, cat_pred(data)) == total,
        remaining_cats(n, total, f) == 0,
        global_stuck(n, total, kd, kf),
    ensures
        forall|i: int| 0 <= i < n && !d[i] && !f[i] ==> #[trigger] kd[i],
{
    lemma_global_reveal_sound(data, n, total, d, f);
    lemma_unflagged_cats(data, n, total, kf);
    lemma_count_sub(n, flag_pred(f), flag_pred(kf));
    assert(remaining_cats(n, total, kf) == 0);
    lemma_count_zero(n, unknown_pred(kd, kf));
    assert forall|i: int| 0 <= i < n && !d[i] && !f[i] implies #[trigger] kd[i] by {
        assert(!data[i].cat);
        assert(!kf[i]);
        assert(!unknown_pred(kd, kf)(i));
    }
}

/// Knowledge only grows, so the unknown cells only shrink; a cell that leaves
/// them makes them shrink strictly.
proof fn lemma_unknown_shrinks(n: int, d: Seq<bool>, f: Seq<bool>, d2: Seq<bool>, f2: Seq<bool>)
    requires
        0 <= n,
        d.len() == n,
        f.len() == n,
        subset(d, d2),
        subset(f, f2),
    ensures
        count_where(n, unknown_pred(d2, f2)) <= count_where(n, unknown_pred(d, f)),
        (exists|i: int| 0 <= i < n && !d[i] && !f[i] && (d2[i] || f2[i])) ==> count_where(
            n,
            unknown_pred(d2, f2),
        ) < count_where(n, unknown_pred(d, f)),
{
    assert forall|i: int| 0 <= i < n && #[trigger] unknown_pred(d2, f2)(i) implies unknown_pred(
        d,
        f,
    )(i) by {
        if d[i] {
            assert(d2[i]);
        }
        if f[i] {
            assert(f2[i]);
        }
    }
    lemma_count_sub(n, unknown_pred(d2, f2), unknown_pred(d, f));
    if exists|i: int| 0 <= i < n && !d[i] && !f[i] && (d2[i] || f2[i]) {
        let i = choose|i: int| 0 <= i < n && !d[i] && !f[i] && (d2[i] || f2[i]);
        assert(unknown_pred(d, f)(i));
        assert(!unknown_pred(d2, f2)(i));
    }
}


// ── the solver ───────────────────────────────────────────────────────────

/// Knowledge the solver holds at every step: it is true, zeros are opened, and
/// the first click is uncovered unless it hit a cat.
pub open spec fn knowledge_ok(
    data: Seq<Field>,
    w: int,
    h: int,
    sx: int,
    sy: int,
    d: Seq<bool>,
    f: Seq<bool>,
) -> bool {
    &&& sound(data, d, f)
    &&& zero_closed(data, w, h, d)
    &&& (!data[cell(w, sx, sy)].cat ==> d[cell(w, sx, sy)])
}

/// The knowledge is contained in every true knowledge that logic cannot extend.
pub open spec fn below_closed(
    data: Seq<Field>,
    w: int,
    h: int,
    total: int,
    sx: int,
    sy: int,
    d: Seq<bool>,
    f: Seq<bool>,
) -> bool {
    forall|kd: Seq<bool>, kf: Seq<bool>|
        sound(data, kd, kf) && #[trigger] closed(data, w, h, total, sx, sy, kd, kf) ==> subset(d, kd)
            && subset(f, kf)
}

/// `v` is the index of a neighbour of (x, y).
pub open spec fn nbr_index_of(w: int, h: int, x: int, y: int, v: int) -> bool {
    exists|j: int| #[trigger] nbr_ok(w, h, x, y, j) && v == nbr_at(w, x, y, j)
}

/// Applies the two local rules at the uncovered number (x, y): when it equals
/// its flagged plus unknown neighbours, the unknown ones are flagged; when it
/// equals its flagged neighbours, the unknown ones are revealed. Returns whether
/// anything was learnt.
fn apply_local_rules(
    data: &[Field],
    discovered: &mut Vec<bool>,
    flagged: &mut Vec<bool>,
    width: usize,
    height: usize,
    x: usize,
    y: usize,
    Ghost(total): Ghost<int>,
    Ghost(sx): Ghost<int>,
    Ghost(sy): Ghost<int>,
) -> (progress: bool)
    requires
        grid_wf(data@, width as int, height as int),
        count_where(width * height, cat_pred(data@)) == total,
        x < width,
        y < height,
        in_grid(width as int, height as int, sx, sy),
        knowledge_ok(data@, width as int, height as int, sx, sy, old(discovered)@, old(flagged)@),
        below_closed(
            data@,
            width as int,
            height as int,
            total,
            sx,
            sy,
            old(discovered)@,
            old(flagged)@,
        ),
    ensures
        knowledge_ok(data@, width as int, height as int, sx, sy, final(discovered)@, final(flagged)@),
        below_closed(
            data@,
            width as int,
            height as int,
            total,
            sx,
            sy,
            final(discovered)@,
            final(flagged)@,
        ),
        subset(old(discovered)@, final(discovered)@),
        subset(old(flagged)@, final(flagged)@),
        progress ==> count_where(
            width * height,
            unknown_pred(final(discovered)@, final(flagged)@),
        ) < count_where(width * height, unknown_pred(old(discovered)@, old(flagged)@)),
        !progress ==> final(discovered)@ == old(discovered)@ && final(flagged)@ == old(flagged)@
            && local_stuck(
            data@,
            width as int,
            height as int,
            old(discovered)@,
            old(flagged)@,
            x as int,
            y as int,
        ),
{
    let ghost w = width as int;
    let ghost h = height as int;
    let ghost n = w * h;
    let ghost d0 = discovered@;
    let ghost f0 = flagged@;
    let len = data.len();
    let idx = cell_index(width, height, x, y);
    if !discovered[idx] || data[idx].cat {
        return false;
    }
    let nb = data[idx].neighbours as usize;
    if nb == 0 {
        return false;
    }
    let mut hidden: Vec<usize> = Vec::new();
    let mut flag_count: usize = 0;
    let mut k: usize = 0;
    while k < 9
        invariant
            0 <= k <= 9,
            w == width,
            h == height,
            n == w * h,
            len == n,
            x < width,
            y < height,
            grid_wf(data@, w, h),
            discovered@ == d0,
            flagged@ == f0,
            d0.len() == n,
            f0.len() == n,
            flag_count == nbr_count_upto(w, h, x as int, y as int, flagged_pred(d0, f0), k as int),
            hidden@.len() == nbr_count_upto(
                w,
                h,
                x as int,
                y as int,
                unknown_pred(d0, f0),
                k as int,
            ),
            forall|m: int|
                0 <= m < hidden@.len() ==> nbr_index_of(w, h, x as int, y as int, #[trigger] hidden@[m] as int)
                    && 0 <= hidden@[m] < n && !d0[hidden@[m] as int] && !f0[hidden@[m] as int],
        decreases 9 - k,
    {
        proof {
            lemma_nbr_count_bounds(w, h, x as int, y as int, flagged_pred(d0, f0), k as int);
            lemma_nbr_count_bounds(w, h, x as int, y as int, unknown_pred(d0, f0), k as int);
        }
        let ghost hk = hidden@;
        match neighbour(width, height, x, y, k) {
            Some((nx, ny)) => {
                let nidx = cell_index(width, height, nx, ny);
                assert(nidx == nbr_at(w, x as int, y as int, k as int));
                if !discovered[nidx] {
                    if flagged[nidx] {
                        flag_count = flag_count + 1;
                    } else {
                        hidden.push(nidx);
                        proof {
                            assert forall|m: int| 0 <= m < hidden@.len() implies nbr_index_of(
                                w,
                                h,
                                x as int,
                                y as int,
                                #[trigger] hidden@[m] as int,
                            ) && 0 <= hidden@[m] < n && !d0[hidden@[m] as int] && !f0[hidden@[m] as int] by {
                                if m < hk.len() {
                                    assert(hidden@[m] == hk[m]);
                                } else {
                                    assert(nbr_ok(w, h, x as int, y as int, k as int));
                                }
                            }
                        }
                    }
                }
            },
            None => {},
        }
        k = k + 1;
    }
    let ghost fc = nbr_count(w, h, x as int, y as int, flagged_pred(d0, f0));
    let ghost hc = nbr_count(w, h, x as int, y as int, unknown_pred(d0, f0));
    proof {
        lemma_local_counts(data@, w, h, d0, f0, x as int, y as int);
        lemma_nbr_in_range(w, h, x as int, y as int);
        lemma_nbr_count_bounds(w, h, x as int, y as int, flagged_pred(d0, f0), 9);
        lemma_nbr_count_bounds(w, h, x as int, y as int, unknown_pred(d0, f0), 9);
    }
    let mut progress = false;
    if flag_count + hidden.len() == nb && hidden.len() > 0 {
        proof {
            lemma_local_flag_sound(data@, w, h, d0, f0, x as int, y as int);
            assert forall|m: int| 0 <= m < hidden@.len() implies data@[#[trigger] hidden@[m] as int].cat by {
                assert(nbr_index_of(w, h, x as int, y as int, hidden@[m] as int));
                let j = choose|j: int| #[trigger] nbr_ok(w, h, x as int, y as int, j) && hidden@[m] == nbr_at(w, x as int, y as int, j);
                assert(nbr_ok(w, h, x as int, y as int, j));
            }
            assert forall|kd: Seq<bool>, kf: Seq<bool>|
                sound(data@, kd, kf) && #[trigger] closed(data@, w, h, total, sx, sy, kd, kf) implies
                forall|m: int| 0 <= m < hidden@.len() ==> kf[#[trigger] hidden@[m] as int] by {
                assert(in_grid(w, h, x as int, y as int));
                assert(local_stuck(data@, w, h, kd, kf, x as int, y as int));
                lemma_local_flag_complete(data@, w, h, d0, f0, kd, kf, x as int, y as int);
                assert forall|m: int| 0 <= m < hidden@.len() implies kf[#[trigger] hidden@[m] as int] by {
                    assert(nbr_index_of(w, h, x as int, y as int, hidden@[m] as int));
                    let j = choose|j: int| #[trigger] nbr_ok(w, h, x as int, y as int, j) && hidden@[m] == nbr_at(w, x as int, y as int, j);
                    assert(nbr_ok(w, h, x as int, y as int, j));
                }
            }
        }
        let mut i: usize = 0;
        while i < hidden.len()
            invariant
                0 <= i <= hidden@.len(),
                hidden@.len() > 0,
                w == width,
                h == height,
                n == w * h,
                grid_wf(data@, w, h),
                in_grid(w, h, sx, sy),
                discovered@ == d0,
                d0.len() == n,
                flagged@.len() == n,
                knowledge_ok(data@, w, h, sx, sy, d0, f0),
                knowledge_ok(data@, w, h, sx, sy, d0, flagged@),
                below_closed(data@, w, h, total, sx, sy, d0, flagged@),
                subset(f0, flagged@),
                forall|m: int|
                    0 <= m < hidden@.len() ==> 0 <= #[trigger] hidden@[m] < n && !d0[hidden@[m] as int] && !f0[hidden@[m] as int]
                        && data@[hidden@[m] as int].cat,
                forall|kd: Seq<bool>, kf: Seq<bool>|
                    sound(data@, kd, kf) && #[trigger] closed(data@, w, h, total, sx, sy, kd, kf) ==>
                    forall|m: int| 0 <= m < hidden@.len() ==> kf[#[trigger] hidden@[m] as int],
                i > 0 ==> progress && count_where(n, unknown_pred(d0, flagged@)) < count_where(n, unknown_pred(d0, f0)),
                i == 0 ==> flagged@ == f0 && !progress,
            decreases hidden@.len() - i,
        {
            let ghost fi = flagged@;
            let v = hidden[i];
            flagged.set(v, true);
            progress = true;
            proof {
                assert(subset(fi, flagged@)) by {
                    assert forall|j: int| 0 <= j < fi.len() && #[trigger] fi[j] implies flagged@[j] by {}
                }
                assert(subset(f0, flagged@)) by {
                    assert forall|j: int| 0 <= j < f0.len() && #[trigger] f0[j] implies flagged@[j] by {
                        assert(fi[j]);
                    }
                }
                assert(sound(data@, d0, flagged@)) by {
                    assert forall|j: int| 0 <= j < flagged@.len() && #[trigger] flagged@[j] implies data@[j].cat by {
                        if j != v {
                            assert(fi[j]);
                        }
                    }
                }
                assert forall|kd: Seq<bool>, kf: Seq<bool>|
                    sound(data@, kd, kf) && #[trigger] closed(data@, w, h, total, sx, sy, kd, kf) implies
                    subset(d0, kd) && subset(flagged@, kf) by {
                    assert(subset(fi, kf));
                    assert(kf[hidden@[i as int] as int]);
                    assert forall|j: int| 0 <= j < flagged@.len() && #[trigger] flagged@[j] implies kf[j] by {
                        if j != v {
                            assert(fi[j]);
                        }
                    }
                }
                lemma_unknown_shrinks(n, d0, fi, d0, flagged@);
                lemma_unknown_shrinks(n, d0, f0, d0, flagged@);
                assert(!d0[v as int] && !f0[v as int] && flagged@[v as int]);
            }
            i = i + 1;
        }
    }
    if flag_count == nb && hidden.len() > 0 {
        assert(flagged@ == f0);
        proof {
            lemma_local_reveal_sound(data@, w, h, d0, f0, x as int, y as int);
            assert forall|m: int| 0 <= m < hidden@.len() implies !data@[#[trigger] hidden@[m] as int].cat by {
                assert(nbr_index_of(w, h, x as int, y as int, hidden@[m] as int));
                let j = choose|j: int| #[trigger] nbr_ok(w, h, x as int, y as int, j) && hidden@[m] == nbr_at(w, x as int, y as int, j);
                assert(nbr_ok(w, h, x as int, y as int, j));
            }
            assert forall|kd: Seq<bool>, kf: Seq<bool>|
                sound(data@, kd, kf) && #[trigger] closed(data@, w, h, total, sx, sy, kd, kf) implies
                forall|m: int| 0 <= m < hidden@.len() ==> kd[#[trigger] hidden@[m] as int] by {
                assert(in_grid(w, h, x as int, y as int));
                assert(local_stuck(data@, w, h, kd, kf, x as int, y as int));
                lemma_local_reveal_complete(data@, w, h, d0, f0, kd, kf, x as int, y as int);
                assert forall|m: int| 0 <= m < hidden@.len() implies kd[#[trigger] hidden@[m] as int] by {
                    assert(nbr_index_of(w, h, x as int, y as int, hidden@[m] as int));
                    let j = choose|j: int| #[trigger] nbr_ok(w, h, x as int, y as int, j) && hidden@[m] == nbr_at(w, x as int, y as int, j);
                    assert(nbr_ok(w, h, x as int, y as int, j));
                }
            }
        }
        let mut i: usize = 0;
        while i < hidden.len()
            invariant
                0 <= i <= hidden@.len(),
                hidden@.len() > 0,
                w == width,
                h == height,
                n == w * h,
                len == n,
                grid_wf(data@, w, h),
                in_grid(w, h, sx, sy),
                flagged@ == f0,
                d0.len() == n,
                discovered@.len() == n,
                knowledge_ok(data@, w, h, sx, sy, d0, f0),
                knowledge_ok(data@, w, h, sx, sy, discovered@, f0),
                below_closed(data@, w, h, total, sx, sy, discovered@, f0),
                subset(d0, discovered@),
                forall|m: int|
                    0 <= m < hidden@.len() ==> 0 <= #[trigger] hidden@[m] < n && !d0[hidden@[m] as int] && !f0[hidden@[m] as int]
                        && !data@[hidden@[m] as int].cat,
                forall|kd: Seq<bool>, kf: Seq<bool>|
                    sound(data@, kd, kf) && #[trigger] closed(data@, w, h, total, sx, sy, kd, kf) ==>
                    forall|m: int| 0 <= m < hidden@.len() ==> kd[#[trigger] hidden@[m] as int],
                i > 0 ==> progress && count_where(n, unknown_pred(discovered@, f0)) < count_where(n, unknown_pred(d0, f0)),
                i == 0 ==> discovered@ == d0 && !progress,
            decreases hidden@.len() - i,
        {
            let v = hidden[i];
            if !discovered[v] {
                let ghost di = discovered@;
                proof {
                    lemma_cell_of_index(w, h, v as int);
                }
                grid_simulate_reveal(data, discovered, width, height, v % width, v / width);
                progress = true;
                proof {
                    assert(cell(w, (v % width) as int, (v / width) as int) == v);
                    assert(discovered@[v as int]);
                    lemma_cell_bounds(w, h, sx, sy);
                    if !data@[cell(w, sx, sy)].cat {
                        assert(di[cell(w, sx, sy)]);
                    }
                    assert(knowledge_ok(data@, w, h, sx, sy, discovered@, f0));
                    assert(subset(d0, discovered@)) by {
                        assert forall|j: int| 0 <= j < d0.len() && #[trigger] d0[j] implies discovered@[j] by {
                            assert(di[j]);
                        }
                    }
                    assert forall|kd: Seq<bool>, kf: Seq<bool>|
                        sound(data@, kd, kf) && #[trigger] closed(data@, w, h, total, sx, sy, kd, kf) implies
                        subset(discovered@, kd) && subset(f0, kf) by {
                        assert(kd[hidden@[i as int] as int]);
                        assert(flood_target(data@, w, h, di, (v % width) as int, (v / width) as int, kd));
                        assert(flood_from(data@, w, h, di, (v % width) as int, (v / width) as int, kd));
                    }
                    lemma_unknown_shrinks(n, di, f0, discovered@, f0);
                    lemma_unknown_shrinks(n, d0, f0, discovered@, f0);
                    assert(!di[v as int] && !f0[v as int] && discovered@[v as int]);
                }
            }
            i = i + 1;
        }
    }
    proof {
        if !progress {
            assert(local_stuck(data@, w, h, d0, f0, x as int, y as int));
        }
    }
    progress
}


/// Applies the two global rules: when the cats left equal the unknown cells,
/// all of them are flagged; when no cat is left, all of them are revealed.
/// Returns whether anything was learnt.
fn apply_global_rules(
    data: &[Field],
    discovered: &mut Vec<bool>,
    flagged: &mut Vec<bool>,
    width: usize,
    height: usize,
    total_cats: usize,
    Ghost(sx): Ghost<int>,
    Ghost(sy): Ghost<int>,
) -> (progress: bool)
    requires
        grid_wf(data@, width as int, height as int),
        count_where(width * height, cat_pred(data@)) == total_cats,
        in_grid(width as int, height as int, sx, sy),
        knowledge_ok(data@, width as int, height as int, sx, sy, old(discovered)@, old(flagged)@),
        below_closed(
            data@,
            width as int,
            height as int,
            total_cats as int,
            sx,
            sy,
            old(discovered)@,
            old(flagged)@,
        ),
    ensures
        knowledge_ok(data@, width as int, height as int, sx, sy, final(discovered)@, final(flagged)@),
        below_closed(
            data@,
            width as int,
            height as int,
            total_cats as int,
            sx,
            sy,
            final(discovered)@,
            final(flagged)@,
        ),
        subset(old(discovered)@, final(discovered)@),
        subset(old(flagged)@, final(flagged)@),
        progress ==> count_where(
            width * height,
            unknown_pred(final(discovered)@, final(flagged)@),
        ) < count_where(width * height, unknown_pred(old(discovered)@, old(flagged)@)),
        !progress ==> final(discovered)@ == old(discovered)@ && final(flagged)@ == old(flagged)@
            && global_stuck(width * height, total_cats as int, old(discovered)@, old(flagged)@),
{
    let ghost w = width as int;
    let ghost h = height as int;
    let ghost d0 = discovered@;
    let ghost f0 = flagged@;
    let ghost total = total_cats as int;
    let n = data.len();
    assert(n == w * h);
    let mut flags_placed: usize = 0;
    let mut i: usize = 0;
    while i < n
        invariant
            0 <= i <= n,
            n == w * h,
            flagged@ == f0,
            f0.len() == n,
            flags_placed == count_where(i as int, flag_pred(f0)),
            flags_placed <= i,
        decreases n - i,
    {
        if flagged[i] {
            flags_placed = flags_placed + 1;
        }
        i = i + 1;
    }
    let remaining = total_cats.saturating_sub(flags_placed);
    assert(remaining == remaining_cats(n as int, total, f0));
    let mut hidden_total: Vec<usize> = Vec::new();
    i = 0;
    while i < n
        invariant
            0 <= i <= n,
            n == w * h,
            flagged@ == f0,
            discovered@ == d0,
            f0.len() == n,
            d0.len() == n,
            hidden_total@.len() == count_where(i as int, unknown_pred(d0, f0)),
            hidden_total@.len() <= i,
            forall|m: int|
                0 <= m < hidden_total@.len() ==> #[trigger] hidden_total@[m] < n && !d0[hidden_total@[m] as int]
                    && !f0[hidden_total@[m] as int],
        decreases n - i,
    {
        if !discovered[i] && !flagged[i] {
            hidden_total.push(i);
        }
        i = i + 1;
    }
    let ghost hc = count_where(n as int, unknown_pred(d0, f0));
    let mut progress = false;
    if remaining == hidden_total.len() && hidden_total.len() > 0 {
        proof {
            lemma_global_flag_sound(data@, n as int, total, d0, f0);
            assert forall|kd: Seq<bool>, kf: Seq<bool>|
                sound(data@, kd, kf) && #[trigger] closed(data@, w, h, total, sx, sy, kd, kf) implies
                forall|m: int| 0 <= m < hidden_total@.len() ==> kf[#[trigger] hidden_total@[m] as int] by {
                lemma_global_flag_complete(data@, n as int, total, d0, f0, kd, kf);
                assert forall|m: int| 0 <= m < hidden_total@.len() implies kf[#[trigger] hidden_total@[m] as int] by {
                    let v = hidden_total@[m] as int;
                    assert(!d0[v] && !f0[v]);
                }
            }
            assert forall|m: int| 0 <= m < hidden_total@.len() implies data@[#[trigger] hidden_total@[m] as int].cat by {
                let v = hidden_total@[m] as int;
                assert(!d0[v] && !f0[v]);
            }
        }
        let mut j: usize = 0;
        while j < hidden_total.len()
            invariant
                0 <= j <= hidden_total@.len(),
                hidden_total@.len() > 0,
                n == w * h,
                grid_wf(data@, w, h),
                in_grid(w, h, sx, sy),
                discovered@ == d0,
                d0.len() == n,
                flagged@.len() == n,
                knowledge_ok(data@, w, h, sx, sy, d0, f0),
                knowledge_ok(data@, w, h, sx, sy, d0, flagged@),
                below_closed(data@, w, h, total, sx, sy, d0, flagged@),
                subset(f0, flagged@),
                forall|m: int|
                    0 <= m < hidden_total@.len() ==> #[trigger] hidden_total@[m] < n && !d0[hidden_total@[m] as int]
                        && !f0[hidden_total@[m] as int] && data@[hidden_total@[m] as int].cat,
                forall|kd: Seq<bool>, kf: Seq<bool>|
                    sound(data@, kd, kf) && #[trigger] closed(data@, w, h, total, sx, sy, kd, kf) ==>
                    forall|m: int| 0 <= m < hidden_total@.len() ==> kf[#[trigger] hidden_total@[m] as int],
                j > 0 ==> progress && count_where(n as int, unknown_pred(d0, flagged@)) < count_where(n as int, unknown_pred(d0, f0)),
                j == 0 ==> flagged@ == f0 && !progress,
            decreases hidden_total@.len() - j,
        {
            let ghost fi = flagged@;
            let v = hidden_total[j];
            flagged.set(v, true);
            progress = true;
            proof {
                assert(subset(fi, flagged@)) by {
                    assert forall|q: int| 0 <= q < fi.len() && #[trigger] fi[q] implies flagged@[q] by {}
                }
                assert(subset(f0, flagged@)) by {
                    assert forall|q: int| 0 <= q < f0.len() && #[trigger] f0[q] implies flagged@[q] by {
                        assert(fi[q]);
                    }
                }
                assert(sound(data@, d0, flagged@)) by {
                    assert forall|q: int| 0 <= q < flagged@.len() && #[trigger] flagged@[q] implies data@[q].cat by {
                        if q != v {
                            assert(fi[q]);
                        }
                    }
                }
                assert forall|kd: Seq<bool>, kf: Seq<bool>|
                    sound(data@, kd, kf) && #[trigger] closed(data@, w, h, total, sx, sy, kd, kf) implies
                    subset(d0, kd) && subset(flagged@, kf) by {
                    assert(subset(fi, kf));
                    assert(kf[hidden_total@[j as int] as int]);
                    assert forall|q: int| 0 <= q < flagged@.len() && #[trigger] flagged@[q] implies kf[q] by {
                        if q != v {
                            assert(fi[q]);
                        }
                    }
                }
                lemma_unknown_shrinks(n as int, d0, fi, d0, flagged@);
                lemma_unknown_shrinks(n as int, d0, f0, d0, flagged@);
                assert(!d0[v as int] && !f0[v as int] && flagged@[v as int]);
            }
            j = j + 1;
        }
    } else if remaining == 0 && hidden_total.len() > 0 {
        proof {
            lemma_global_reveal_sound(data@, n as int, total, d0, f0);
            assert forall|kd: Seq<bool>, kf: Seq<bool>|
                sound(data@, kd, kf) && #[trigger] closed(data@, w, h, total, sx, sy, kd, kf) implies
                forall|m: int| 0 <= m < hidden_total@.len() ==> kd[#[trigger] hidden_total@[m] as int] by {
                lemma_global_reveal_complete(data@, n as int, total, d0, f0, kd, kf);
                assert forall|m: int| 0 <= m < hidden_total@.len() implies kd[#[trigger] hidden_total@[m] as int] by {
                    let v = hidden_total@[m] as int;
                    assert(!d0[v] && !f0[v]);
                }
            }
            assert forall|m: int| 0 <= m < hidden_total@.len() implies !data@[#[trigger] hidden_total@[m] as int].cat by {
                let v = hidden_total@[m] as int;
                assert(!f0[v]);
            }
        }
        let mut j: usize = 0;
        while j < hidden_total.len()
            invariant
                0 <= j <= hidden_total@.len(),
                hidden_total@.len() > 0,
                w == width,
                h == height,
                n == w * h,
                grid_wf(data@, w, h),
                in_grid(w, h, sx, sy),
                flagged@ == f0,
                d0.len() == n,
                discovered@.len() == n,
                knowledge_ok(data@, w, h, sx, sy, d0, f0),
                knowledge_ok(data@, w, h, sx, sy, discovered@, f0),
                below_closed(data@, w, h, total, sx, sy, discovered@, f0),
                subset(d0, discovered@),
                forall|m: int|
                    0 <= m < hidden_total@.len() ==> #[trigger] hidden_total@[m] < n && !d0[hidden_total@[m] as int]
                        && !f0[hidden_total@[m] as int] && !data@[hidden_total@[m] as int].cat,
                forall|kd: Seq<bool>, kf: Seq<bool>|
                    sound(data@, kd, kf) && #[trigger] closed(data@, w, h, total, sx, sy, kd, kf) ==>
                    forall|m: int| 0 <= m < hidden_total@.len() ==> kd[#[trigger] hidden_total@[m] as int],
                j > 0 ==> progress && count_where(n as int, unknown_pred(discovered@, f0)) < count_where(n as int, unknown_pred(d0, f0)),
                j == 0 ==> discovered@ == d0 && !progress,
            decreases hidden_total@.len() - j,
        {
            let v = hidden_total[j];
            let ghost di = discovered@;
            proof {
                lemma_cell_of_index(w, h, v as int);
            }
            grid_simulate_reveal(data, discovered, width, height, v % width, v / width);
            progress = true;
            proof {
                assert(cell(w, (v % width) as int, (v / width) as int) == v);
                assert(discovered@[v as int]);
                lemma_cell_bounds(w, h, sx, sy);
                if !data@[cell(w, sx, sy)].cat {
                    assert(di[cell(w, sx, sy)]);
                }
                assert(knowledge_ok(data@, w, h, sx, sy, discovered@, f0));
                assert(subset(d0, discovered@)) by {
                    assert forall|q: int| 0 <= q < d0.len() && #[trigger] d0[q] implies discovered@[q] by {
                        assert(di[q]);
                    }
                }
                assert forall|kd: Seq<bool>, kf: Seq<bool>|
                    sound(data@, kd, kf) && #[trigger] closed(data@, w, h, total, sx, sy, kd, kf) implies
                    subset(discovered@, kd) && subset(f0, kf) by {
                    assert(kd[hidden_total@[j as int] as int]);
                    assert(flood_target(data@, w, h, di, (v % width) as int, (v / width) as int, kd));
                    assert(flood_from(data@, w, h, di, (v % width) as int, (v / width) as int, kd));
                }
                lemma_unknown_shrinks(n as int, di, f0, discovered@, f0);
                lemma_unknown_shrinks(n as int, d0, f0, discovered@, f0);
                if j == 0 {
                    assert(!di[v as int] && !f0[v as int] && discovered@[v as int]);
                }
            }
            j = j + 1;
        }
    }
    proof {
        if !progress {
            assert(global_stuck(n as int, total, d0, f0));
        }
    }
    progress
}

/// Decides whether the board can be cleared from the click at (start_x,
/// start_y) by pure logic, without ever guessing. The solver reveals the click,
/// then repeats sweeps of the local rules over every uncovered number and of the
/// global rules until nothing more can be learnt; the board is accepted when
/// every cell without a cat is uncovered. The answer is exactly whether every
/// cat-free cell is uncovered in all true knowledge that pure logic cannot
/// extend (`solvable`).
pub fn grid_is_solvable(
    data: &[Field],
    width: usize,
    height: usize,
    total_cats: usize,
    start_x: usize,
    start_y: usize,
) -> (r: bool)
    requires
        grid_wf(data@, width as int, height as int),
        start_x < width,
        start_y < height,
        count_where(width * height, cat_pred(data@)) == total_cats,
    ensures
        r == solvable(data@, width as int, height as int, total_cats as int, start_x as int, start_y as int),
{
    let ghost w = width as int;
    let ghost h = height as int;
    let ghost sx = start_x as int;
    let ghost sy = start_y as int;
    let ghost total = total_cats as int;
    let n = data.len();
    let mut discovered: Vec<bool> = vec![false; n];
    let mut flagged: Vec<bool> = vec![false; n];
    proof {
        lemma_cell_bounds(w, h, sx, sy);
        assert forall|i: int| 0 <= i < n implies !discovered@[i] && !flagged@[i] by {
            assert(cloned(false, discovered@[i]));
            assert(cloned(false, flagged@[i]));
        }
        assert(sound(data@, discovered@, flagged@));
        assert forall|x: int, y: int|
            in_grid(w, h, x, y) && #[trigger] discovered@[cell(w, x, y)] && data@[cell(
                w,
                x,
                y,
            )].neighbours == 0 implies forall|k: int| #[trigger]
            nbr_ok(w, h, x, y, k) ==> discovered@[nbr_at(w, x, y, k)] || data@[nbr_at(
                w,
                x,
                y,
                k,
            )].cat by {
            lemma_cell_bounds(w, h, x, y);
        }
    }
    let ghost e = discovered@;
    grid_simulate_reveal(data, &mut discovered, width, height, start_x, start_y);
    proof {
        assert forall|kd: Seq<bool>, kf: Seq<bool>|
            sound(data@, kd, kf) && #[trigger] closed(data@, w, h, total, sx, sy, kd, kf) implies
            subset(discovered@, kd) && subset(flagged@, kf) by {
            assert(flood_target(data@, w, h, e, sx, sy, kd));
            assert(flood_from(data@, w, h, e, sx, sy, kd));
        }
        assert(sound(data@, discovered@, flagged@));
    }
    loop
        invariant
            w == width,
            h == height,
            n == w * h,
            grid_wf(data@, w, h),
            in_grid(w, h, sx, sy),
            sx == start_x,
            sy == start_y,
            total == total_cats,
            count_where(n as int, cat_pred(data@)) == total,
            knowledge_ok(data@, w, h, sx, sy, discovered@, flagged@),
            below_closed(data@, w, h, total, sx, sy, discovered@, flagged@),
        ensures
            knowledge_ok(data@, w, h, sx, sy, discovered@, flagged@),
            below_closed(data@, w, h, total, sx, sy, discovered@, flagged@),
            closed(data@, w, h, total, sx, sy, discovered@, flagged@),
        decreases count_where(n as int, unknown_pred(discovered@, flagged@)),
    {
        let ghost d0 = discovered@;
        let ghost f0 = flagged@;
        let mut progress = false;
        let mut y: usize = 0;
        while y < height
            invariant
                0 <= y <= height,
                w == width,
                h == height,
                n == w * h,
                grid_wf(data@, w, h),
                in_grid(w, h, sx, sy),
                count_where(n as int, cat_pred(data@)) == total,
                knowledge_ok(data@, w, h, sx, sy, discovered@, flagged@),
                below_closed(data@, w, h, total, sx, sy, discovered@, flagged@),
                d0.len() == n,
                f0.len() == n,
                subset(d0, discovered@),
                subset(f0, flagged@),
                count_where(n as int, unknown_pred(discovered@, flagged@)) <= count_where(n as int, unknown_pred(d0, f0)),
                progress ==> count_where(n as int, unknown_pred(discovered@, flagged@)) < count_where(n as int, unknown_pred(d0, f0)),
                !progress ==> discovered@ == d0 && flagged@ == f0 && forall|x2: int, y2: int|
                    0 <= x2 < w && 0 <= y2 < y ==> #[trigger] local_stuck(data@, w, h, d0, f0, x2, y2),
            decreases height - y,
        {
            let mut x: usize = 0;
            while x < width
                invariant
                    0 <= x <= width,
                    0 <= y < height,
                    w == width,
                    h == height,
                    n == w * h,
                    grid_wf(data@, w, h),
                    in_grid(w, h, sx, sy),
                    count_where(n as int, cat_pred(data@)) == total,
                    knowledge_ok(data@, w, h, sx, sy, discovered@, flagged@),
                    below_closed(data@, w, h, total, sx, sy, discovered@, flagged@),
                    d0.len() == n,
                    f0.len() == n,
                    subset(d0, discovered@),
                    subset(f0, flagged@),
                    count_where(n as int, unknown_pred(discovered@, flagged@)) <= count_where(n as int, unknown_pred(d0, f0)),
                    progress ==> count_where(n as int, unknown_pred(discovered@, flagged@)) < count_where(n as int, unknown_pred(d0, f0)),
                    !progress ==> discovered@ == d0 && flagged@ == f0 && forall|x2: int, y2: int|
                        0 <= x2 < w && 0 <= y2 < h && (y2 < y || (y2 == y && x2 < x)) ==> #[trigger] local_stuck(data@, w, h, d0, f0, x2, y2),
                decreases width - x,
            {
                let ghost dx = discovered@;
                let ghost fx = flagged@;
                let step = apply_local_rules(
                    data,
                    &mut discovered,
                    &mut flagged,
                    width,
                    height,
                    x,
                    y,
                    Ghost(total),
                    Ghost(sx),
                    Ghost(sy),
                );
                proof {
                    assert(subset(d0, discovered@)) by {
                        assert forall|q: int| 0 <= q < d0.len() && #[trigger] d0[q] implies discovered@[q] by {
                            assert(dx[q]);
                        }
                    }
                    assert(subset(f0, flagged@)) by {
                        assert forall|q: int| 0 <= q < f0.len() && #[trigger] f0[q] implies flagged@[q] by {
                            assert(fx[q]);
                        }
                    }
                    lemma_unknown_shrinks(n as int, dx, fx, discovered@, flagged@);
                }
                if step {
                    progress = true;
                }
                x = x + 1;
            }
            y = y + 1;
        }
        let ghost dg = discovered@;
        let ghost fg = flagged@;
        let step = apply_global_rules(
            data,
            &mut discovered,
            &mut flagged,
            width,
            height,
            total_cats,
            Ghost(sx),
            Ghost(sy),
        );
        proof {
            lemma_unknown_shrinks(n as int, dg, fg, discovered@, flagged@);
        }
        if step {
            progress = true;
        }
        if !progress {
            proof {
                assert forall|x2: int, y2: int| #[trigger] in_grid(w, h, x2, y2) implies local_stuck(
                    data@,
                    w,
                    h,
                    discovered@,
                    flagged@,
                    x2,
                    y2,
                ) by {
                    assert(local_stuck(data@, w, h, d0, f0, x2, y2));
                }
            }
            break;
        }
        proof {
            lemma_count_bounds(n as int, unknown_pred(discovered@, flagged@));
        }
    }
    let mut k: usize = 0;
    while k < n
        invariant
            0 <= k <= n,
            n == w * h,
            w == width,
            h == height,
            sx == start_x,
            sy == start_y,
            total == total_cats,
            data@.len() == n,
            discovered@.len() == n,
            knowledge_ok(data@, w, h, sx, sy, discovered@, flagged@),
            below_closed(data@, w, h, total, sx, sy, discovered@, flagged@),
            closed(data@, w, h, total, sx, sy, discovered@, flagged@),
            forall|i: int| 0 <= i < k ==> data@[i].cat || discovered@[i],
        decreases n - k,
    {
        if !(data[k].cat || discovered[k]) {
            proof {
                let i = k as int;
                assert(!deducible(data@, w, h, total, sx, sy, i)) by {
                    assert(sound(data@, discovered@, flagged@));
                    assert(closed(data@, w, h, total, sx, sy, discovered@, flagged@));
                }
                assert(!data@[i].cat);
                assert(!solvable(data@, w, h, total, sx, sy));
            }
            return false;
        }
        k = k + 1;
    }
    proof {
        assert forall|i: int| 0 <= i < w * h implies data@[i].cat || #[trigger] deducible(
            data@,
            w,
            h,
            total,
            sx,
            sy,
            i,
        ) by {
            if !data@[i].cat {
                assert(discovered@[i]);
                assert forall|kd: Seq<bool>, kf: Seq<bool>|
                    sound(data@, kd, kf) && #[trigger] closed(data@, w, h, total, sx, sy, kd, kf) implies kd[i] by {
                    assert(subset(discovered@, kd));
                }
            }
        }
    }
    true
}

} // verus!
