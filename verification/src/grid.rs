use vstd::prelude::*;

verus! {

/// Row-major index of the cell at column `x`, row `y` of a board `w` cells wide.
pub open spec fn cell(w: int, x: int, y: int) -> int {
    y * w + x
}

/// Column `x`, row `y` lies on a board `w` wide and `h` high.
pub open spec fn in_grid(w: int, h: int, x: int, y: int) -> bool {
    0 <= x < w && 0 <= y < h
}

/// Column offset of position `k` of the 3x3 block around a cell, read row by row
/// (position 4 is the cell itself).
pub open spec fn off_x(k: int) -> int {
    if k == 0 || k == 3 || k == 6 {
        -1
    } else if k == 1 || k == 4 || k == 7 {
        0
    } else {
        1
    }
}

/// Row offset of position `k` of the 3x3 block around a cell.
pub open spec fn off_y(k: int) -> int {
    if k < 3 {
        -1
    } else if k < 6 {
        0
    } else {
        1
    }
}

/// The `k`-th neighbour of (x, y) exists: `k` is one of the eight surrounding
/// positions and it lies on the board.
pub open spec fn nbr_ok(w: int, h: int, x: int, y: int, k: int) -> bool {
    &&& 0 <= k < 9
    &&& k != 4
    &&& in_grid(w, h, x + off_x(k), y + off_y(k))
}

/// Index of the `k`-th neighbour of (x, y).
pub open spec fn nbr_at(w: int, x: int, y: int, k: int) -> int {
    cell(w, x + off_x(k), y + off_y(k))
}

pub open spec fn nbr_term(w: int, h: int, x: int, y: int, p: spec_fn(int) -> bool, k: int) -> int {
    if nbr_ok(w, h, x, y, k) && p(nbr_at(w, x, y, k)) {
        1
    } else {
        0
    }
}

/// Number of the first `k` block positions around (x, y) that are neighbours on
/// the board whose index satisfies `p`.
pub open spec fn nbr_count_upto(
    w: int,
    h: int,
    x: int,
    y: int,
    p: spec_fn(int) -> bool,
    k: int,
) -> int
    decreases k,
{
    if k <= 0 {
        0
    } else {
        nbr_count_upto(w, h, x, y, p, k - 1) + nbr_term(w, h, x, y, p, k - 1)
    }
}

/// Number of the (at most eight) neighbours of (x, y) whose index satisfies `p`.
pub open spec fn nbr_count(w: int, h: int, x: int, y: int, p: spec_fn(int) -> bool) -> int {
    nbr_count_upto(w, h, x, y, p, 9)
}

/// Number of indices in `0..n` that satisfy `p`.
pub open spec fn count_where(n: int, p: spec_fn(int) -> bool) -> int
    decreases n,
{
    if n <= 0 {
        0
    } else {
        count_where(n - 1, p) + if p(n - 1) {
            1int
        } else {
            0int
        }
    }
}

pub proof fn lemma_nbr_count_bounds(w: int, h: int, x: int, y: int, p: spec_fn(int) -> bool, k: int)
    requires
        0 <= k <= 9,
    ensures
        0 <= nbr_count_upto(w, h, x, y, p, k) <= k,
        k >= 5 ==> nbr_count_upto(w, h, x, y, p, k) <= k - 1,
    decreases k,
{
    if k > 0 {
        lemma_nbr_count_bounds(w, h, x, y, p, k - 1);
    }
}

/// Inclusion between two neighbour predicates bounds their counts; equal counts
/// give the reverse inclusion.
pub proof fn lemma_nbr_count_sub(
    w: int,
    h: int,
    x: int,
    y: int,
    p: spec_fn(int) -> bool,
    q: spec_fn(int) -> bool,
    k: int,
)
    requires
        0 <= k <= 9,
        forall|i: int|
            0 <= i < k && #[trigger] nbr_ok(w, h, x, y, i) && p(nbr_at(w, x, y, i)) ==> q(
                nbr_at(w, x, y, i),
            ),
    ensures
        nbr_count_upto(w, h, x, y, p, k) <= nbr_count_upto(w, h, x, y, q, k),
        nbr_count_upto(w, h, x, y, p, k) == nbr_count_upto(w, h, x, y, q, k) ==> forall|i: int|
            0 <= i < k && #[trigger] nbr_ok(w, h, x, y, i) && q(nbr_at(w, x, y, i)) ==> p(
                nbr_at(w, x, y, i),
            ),
    decreases k,
{
    if k > 0 {
        lemma_nbr_count_sub(w, h, x, y, p, q, k - 1);
        lemma_nbr_count_bounds(w, h, x, y, p, k - 1);
    }
}

/// A neighbour predicate with count zero holds at no neighbour.
pub proof fn lemma_nbr_count_zero(w: int, h: int, x: int, y: int, p: spec_fn(int) -> bool, k: int)
    requires
        0 <= k <= 9,
        nbr_count_upto(w, h, x, y, p, k) == 0,
    ensures
        forall|i: int| 0 <= i < k && #[trigger] nbr_ok(w, h, x, y, i) ==> !p(nbr_at(w, x, y, i)),
    decreases k,
{
    if k > 0 {
        lemma_nbr_count_bounds(w, h, x, y, p, k - 1);
        lemma_nbr_count_zero(w, h, x, y, p, k - 1);
    }
}

/// Neighbours satisfying one of two disjoint predicates are counted by the sum.
pub proof fn lemma_nbr_count_split(
    w: int,
    h: int,
    x: int,
    y: int,
    p: spec_fn(int) -> bool,
    q: spec_fn(int) -> bool,
    r: spec_fn(int) -> bool,
    k: int,
)
    requires
        0 <= k <= 9,
        forall|i: int|
            0 <= i < k && #[trigger] nbr_ok(w, h, x, y, i) ==> (r(nbr_at(w, x, y, i)) == (p(
                nbr_at(w, x, y, i),
            ) || q(nbr_at(w, x, y, i)))) && !(p(nbr_at(w, x, y, i)) && q(nbr_at(w, x, y, i))),
    ensures
        nbr_count_upto(w, h, x, y, r, k) == nbr_count_upto(w, h, x, y, p, k) + nbr_count_upto(
            w,
            h,
            x,
            y,
            q,
            k,
        ),
    decreases k,
{
    if k > 0 {
        lemma_nbr_count_split(w, h, x, y, p, q, r, k - 1);
    }
}

/// Neighbour predicates that agree on the board have the same count.
pub proof fn lemma_nbr_count_ext(
    w: int,
    h: int,
    x: int,
    y: int,
    p: spec_fn(int) -> bool,
    q: spec_fn(int) -> bool,
    k: int,
)
    requires
        0 <= k <= 9,
        forall|i: int|
            0 <= i < k && #[trigger] nbr_ok(w, h, x, y, i) ==> p(nbr_at(w, x, y, i)) == q(
                nbr_at(w, x, y, i),
            ),
    ensures
        nbr_count_upto(w, h, x, y, p, k) == nbr_count_upto(w, h, x, y, q, k),
    decreases k,
{
    if k > 0 {
        lemma_nbr_count_ext(w, h, x, y, p, q, k - 1);
    }
}

pub proof fn lemma_count_bounds(n: int, p: spec_fn(int) -> bool)
    requires
        0 <= n,
    ensures
        0 <= count_where(n, p) <= n,
    decreases n,
{
    if n > 0 {
        lemma_count_bounds(n - 1, p);
    }
}

/// Inclusion between two predicates bounds their counts; equal counts give the
/// reverse inclusion.
pub proof fn lemma_count_sub(n: int, p: spec_fn(int) -> bool, q: spec_fn(int) -> bool)
    requires
        0 <= n,
        forall|i: int| 0 <= i < n && #[trigger] p(i) ==> q(i),
    ensures
        count_where(n, p) <= count_where(n, q),
        count_where(n, p) == count_where(n, q) ==> forall|i: int| 0 <= i < n && #[trigger] q(i) ==> p(i),
    decreases n,
{
    if n > 0 {
        lemma_count_sub(n - 1, p, q);
    }
}

/// Indices satisfying one of two disjoint predicates are counted by the sum.
pub proof fn lemma_count_split(
    n: int,
    p: spec_fn(int) -> bool,
    q: spec_fn(int) -> bool,
    r: spec_fn(int) -> bool,
)
    requires
        0 <= n,
        forall|i: int|
            0 <= i < n ==> (#[trigger] r(i) == (p(i) || q(i))) && !(p(i) && q(i)),
    ensures
        count_where(n, r) == count_where(n, p) + count_where(n, q),
    decreases n,
{
    if n > 0 {
        lemma_count_split(n - 1, p, q, r);
    }
}

/// Predicates that agree on `0..n` have the same count.
pub proof fn lemma_count_ext(n: int, p: spec_fn(int) -> bool, q: spec_fn(int) -> bool)
    requires
        0 <= n,
        forall|i: int| 0 <= i < n ==> #[trigger] p(i) == q(i),
    ensures
        count_where(n, p) == count_where(n, q),
    decreases n,
{
    if n > 0 {
        lemma_count_ext(n - 1, p, q);
    }
}

/// A predicate with count zero holds nowhere on `0..n`.
pub proof fn lemma_count_zero(n: int, p: spec_fn(int) -> bool)
    requires
        0 <= n,
        count_where(n, p) == 0,
    ensures
        forall|i: int| 0 <= i < n ==> !#[trigger] p(i),
{
    assert forall|i: int| 0 <= i < n implies !#[trigger] p(i) by {
        if p(i) {
            lemma_count_pos(n, p, i);
        }
    }
}

/// A predicate that holds nowhere on `0..n` has count zero.
pub proof fn lemma_count_none(n: int, p: spec_fn(int) -> bool)
    requires
        0 <= n,
        forall|i: int| 0 <= i < n ==> !#[trigger] p(i),
    ensures
        count_where(n, p) == 0,
    decreases n,
{
    if n > 0 {
        lemma_count_none(n - 1, p);
    }
}

/// A predicate that holds somewhere on `0..n` has a positive count.
pub proof fn lemma_count_pos(n: int, p: spec_fn(int) -> bool, i: int)
    requires
        0 <= i < n,
        p(i),
    ensures
        count_where(n, p) > 0,
    decreases n,
{
    lemma_count_bounds(n - 1, p);
    if i < n - 1 {
        lemma_count_pos(n - 1, p, i);
    }
}

/// Two predicates that differ only at `i`, where the second holds and the first
/// does not, have counts that differ by one.
pub proof fn lemma_count_step(n: int, p: spec_fn(int) -> bool, q: spec_fn(int) -> bool, i: int)
    requires
        0 <= i < n,
        !p(i),
        q(i),
        forall|j: int| 0 <= j < n && j != i ==> #[trigger] p(j) == q(j),
    ensures
        count_where(n, q) == count_where(n, p) + 1,
    decreases n,
{
    if i < n - 1 {
        lemma_count_step(n - 1, p, q, i);
    } else {
        lemma_count_ext(n - 1, p, q);
    }
}

pub proof fn lemma_cell_bounds(w: int, h: int, x: int, y: int)
    requires
        in_grid(w, h, x, y),
    ensures
        0 <= cell(w, x, y) < w * h,
{
    assert(0 <= y * w + x < w * h) by (nonlinear_arith)
        requires
            0 <= x < w,
            0 <= y < h,
    ;
}

pub proof fn lemma_cell_of_index(w: int, h: int, i: int)
    requires
        0 < w,
        0 <= i < w * h,
    ensures
        in_grid(w, h, i % w, i / w),
        cell(w, i % w, i / w) == i,
{
    assert(0 <= i / w < h && (i / w) * w + i % w == i && 0 <= i % w < w) by (nonlinear_arith)
        requires
            0 < w,
            0 <= i < w * h,
    ;
}

pub proof fn lemma_cell_injective(w: int, h: int, x1: int, y1: int, x2: int, y2: int)
    requires
        in_grid(w, h, x1, y1),
        in_grid(w, h, x2, y2),
        cell(w, x1, y1) == cell(w, x2, y2),
    ensures
        x1 == x2,
        y1 == y2,
{
    assert(x1 == x2 && y1 == y2) by (nonlinear_arith)
        requires
            0 <= x1 < w,
            0 <= x2 < w,
            0 <= y1,
            0 <= y2,
            y1 * w + x1 == y2 * w + x2,
    {
        if y1 < y2 {
            assert(y1 * w + w <= y2 * w);
        } else if y2 < y1 {
            assert(y2 * w + w <= y1 * w);
        }
    }
}

/// The `k`-th neighbour of (x, y), as a column and a row, when it exists.
pub fn neighbour(w: usize, h: usize, x: usize, y: usize, k: usize) -> (r: Option<(usize, usize)>)
    requires
        x < w,
        y < h,
        k < 9,
    ensures
        r is Some <==> nbr_ok(w as int, h as int, x as int, y as int, k as int),
        r matches Some((nx, ny)) ==> nx == x + off_x(k as int) && ny == y + off_y(k as int),
{
    if k == 4 {
        return None;
    }
    let nx: usize;
    if k == 0 || k == 3 || k == 6 {
        if x == 0 {
            return None;
        }
        nx = x - 1;
    } else if k == 1 || k == 7 {
        nx = x;
    } else {
        if x + 1 >= w {
            return None;
        }
        nx = x + 1;
    }
    let ny: usize;
    if k < 3 {
        if y == 0 {
            return None;
        }
        ny = y - 1;
    } else if k < 6 {
        ny = y;
    } else {
        if y + 1 >= h {
            return None;
        }
        ny = y + 1;
    }
    Some((nx, ny))
}

/// Row-major index of an on-board cell.
pub fn cell_index(w: usize, h: usize, x: usize, y: usize) -> (r: usize)
    requires
        x < w,
        y < h,
        w * h <= usize::MAX,
    ensures
        r == cell(w as int, x as int, y as int),
        r < w * h,
{
    proof {
        lemma_cell_bounds(w as int, h as int, x as int, y as int);
    }
    y * w + x
}

} // verus!
