use vstd::prelude::*;
use vstd::set_lib::lemma_map_size;

use crate::grid::{
    cell, count_where, in_grid, lemma_cell_bounds, lemma_cell_injective, lemma_cell_of_index,
    nbr_at, nbr_count, nbr_count_upto, nbr_ok, nbr_term, off_x, off_y,
};
use crate::model::Field;
use crate::solver::{
    closed, deducible, flag_pred, flagged_pred, global_stuck, local_stuck, remaining_cats,
    solvable, sound, unknown_pred,
};

verus! {

// ── the symmetries of a board ────────────────────────────────────────────

/// Width of the board that symmetry `kind` makes of a `w` x `h` board: kind 0
/// swaps rows and columns, kind 1 mirrors left to right, kind 2 mirrors top to
/// bottom.
pub open spec fn sym_w(kind: int, w: int, h: int) -> int {
    if kind == 0 {
        h
    } else {
        w
    }
}

/// Height of the board that symmetry `kind` makes of a `w` x `h` board.
pub open spec fn sym_h(kind: int, w: int, h: int) -> int {
    if kind == 0 {
        w
    } else {
        h
    }
}

/// Column of the image of cell (x, y) of a `w` x `h` board under symmetry `kind`.
pub open spec fn sym_x(kind: int, w: int, h: int, x: int, y: int) -> int {
    if kind == 0 {
        y
    } else if kind == 1 {
        w - 1 - x
    } else {
        x
    }
}

/// Row of the image of cell (x, y) of a `w` x `h` board under symmetry `kind`.
pub open spec fn sym_y(kind: int, w: int, h: int, x: int, y: int) -> int {
    if kind == 0 {
        x
    } else if kind == 1 {
        y
    } else {
        h - 1 - y
    }
}

/// The block position that position `k` around a cell becomes under symmetry `kind`.
pub open spec fn sym_k(kind: int, k: int) -> int {
    if kind == 0 {
        3 * (k % 3) + k / 3
    } else if kind == 1 {
        3 * (k / 3) + 2 - k % 3
    } else {
        3 * (2 - k / 3) + k % 3
    }
}

/// The board `s`, `w` x `h` and stored row by row, under symmetry `kind`: a
/// `sym_w` x `sym_h` board whose cell at the image of (x, y) holds what (x, y)
/// held. For kind 0, the cell at column y and row x of the result holds the cell
/// at column x and row y of `s`.
pub open spec fn sym_seq<A>(kind: int, w: int, h: int, s: Seq<A>) -> Seq<A> {
    let w2 = sym_w(kind, w, h);
    let h2 = sym_h(kind, w, h);
    Seq::new(
        s.len(),
        |i: int|
            s[cell(w, sym_x(kind, w2, h2, i % w2, i / w2), sym_y(kind, w2, h2, i % w2, i / w2))],
    )
}

/// `s2` holds, at the image of each cell of the `w` x `h` board `s`, what that
/// cell holds.
pub open spec fn sym_image<A>(kind: int, w: int, h: int, s: Seq<A>, s2: Seq<A>) -> bool {
    &&& s.len() == w * h
    &&& s2.len() == s.len()
    &&& forall|x: int, y: int|
        #[trigger] in_grid(w, h, x, y) ==> s2[cell(
            sym_w(kind, w, h),
            sym_x(kind, w, h, x, y),
            sym_y(kind, w, h, x, y),
        )] == s[cell(w, x, y)]
}

/// Each symmetry undoes itself, keeps the number of cells, and maps the board
/// onto the image board.
proof fn lemma_sym_basic(kind: int, w: int, h: int)
    requires
        0 <= kind < 3,
        0 <= w,
        0 <= h,
    ensures
        sym_w(kind, sym_w(kind, w, h), sym_h(kind, w, h)) == w,
        sym_h(kind, sym_w(kind, w, h), sym_h(kind, w, h)) == h,
        sym_w(kind, w, h) * sym_h(kind, w, h) == w * h,
        0 <= sym_w(kind, w, h),
        0 <= sym_h(kind, w, h),
        forall|x: int, y: int|
            #[trigger] in_grid(w, h, x, y) <==> in_grid(
                sym_w(kind, w, h),
                sym_h(kind, w, h),
                sym_x(kind, w, h, x, y),
                sym_y(kind, w, h, x, y),
            ),
        forall|x: int, y: int|
            #![trigger sym_x(kind, w, h, x, y)]
            #![trigger sym_y(kind, w, h, x, y)]
            sym_x(
                kind,
                sym_w(kind, w, h),
                sym_h(kind, w, h),
                sym_x(kind, w, h, x, y),
                sym_y(kind, w, h, x, y),
            ) == x && sym_y(
                kind,
                sym_w(kind, w, h),
                sym_h(kind, w, h),
                sym_x(kind, w, h, x, y),
                sym_y(kind, w, h, x, y),
            ) == y,
{
    assert(sym_w(kind, w, h) * sym_h(kind, w, h) == w * h) by (nonlinear_arith)
        requires
            kind == 0 ==> sym_w(kind, w, h) == h && sym_h(kind, w, h) == w,
            kind != 0 ==> sym_w(kind, w, h) == w && sym_h(kind, w, h) == h,
    ;
}

/// A symmetry moves the block position `k` around a cell the way it moves the
/// cells: the offsets of the new position are the image of the old offsets.
proof fn lemma_sym_offsets(kind: int, k: int)
    requires
        0 <= kind < 3,
        0 <= k < 9,
    ensures
        0 <= sym_k(kind, k) < 9,
        (sym_k(kind, k) == 4) == (k == 4),
        kind == 0 ==> off_x(sym_k(kind, k)) == off_y(k) && off_y(sym_k(kind, k)) == off_x(k),
        kind == 1 ==> off_x(sym_k(kind, k)) == -off_x(k) && off_y(sym_k(kind, k)) == off_y(k),
        kind == 2 ==> off_x(sym_k(kind, k)) == off_x(k) && off_y(sym_k(kind, k)) == -off_y(k),
{
    if k == 0 {
    } else if k == 1 {
    } else if k == 2 {
    } else if k == 3 {
    } else if k == 4 {
    } else if k == 5 {
    } else if k == 6 {
    } else if k == 7 {
    } else {
    }
}

/// `sym_seq` is the image of the board under the symmetry.
proof fn lemma_sym_seq_image<A>(kind: int, w: int, h: int, s: Seq<A>)
    requires
        0 <= kind < 3,
        0 <= w,
        0 <= h,
        s.len() == w * h,
    ensures
        sym_image(kind, w, h, s, sym_seq(kind, w, h, s)),
{
    lemma_sym_basic(kind, w, h);
    let w2 = sym_w(kind, w, h);
    let h2 = sym_h(kind, w, h);
    let s2 = sym_seq(kind, w, h, s);
    assert forall|x: int, y: int| #[trigger] in_grid(w, h, x, y) implies s2[cell(
        w2,
        sym_x(kind, w, h, x, y),
        sym_y(kind, w, h, x, y),
    )] == s[cell(w, x, y)] by {
        let fx = sym_x(kind, w, h, x, y);
        let fy = sym_y(kind, w, h, x, y);
        assert(in_grid(w2, h2, fx, fy));
        let i2 = cell(w2, fx, fy);
        lemma_cell_bounds(w2, h2, fx, fy);
        lemma_cell_of_index(w2, h2, i2);
        lemma_cell_injective(w2, h2, i2 % w2, i2 / w2, fx, fy);
        assert(sym_x(kind, w2, h2, fx, fy) == x);
        assert(sym_y(kind, w2, h2, fx, fy) == y);
    }
}

/// Turning an image board back gives a board whose image it is.
proof fn lemma_sym_pull_image<A>(kind: int, w: int, h: int, s2: Seq<A>)
    requires
        0 <= kind < 3,
        0 <= w,
        0 <= h,
        s2.len() == w * h,
    ensures
        sym_image(
            kind,
            w,
            h,
            sym_seq(kind, sym_w(kind, w, h), sym_h(kind, w, h), s2),
            s2,
        ),
{
    lemma_sym_basic(kind, w, h);
    let w2 = sym_w(kind, w, h);
    let h2 = sym_h(kind, w, h);
    lemma_sym_basic(kind, w2, h2);
    let s = sym_seq(kind, w2, h2, s2);
    // Here `s2` is read as a board of the image's size, then turned back.
    lemma_sym_seq_image(kind, w2, h2, s2);
    assert forall|x: int, y: int| #[trigger] in_grid(w, h, x, y) implies s2[cell(
        w2,
        sym_x(kind, w, h, x, y),
        sym_y(kind, w, h, x, y),
    )] == s[cell(w, x, y)] by {
        let fx = sym_x(kind, w, h, x, y);
        let fy = sym_y(kind, w, h, x, y);
        assert(in_grid(w2, h2, fx, fy));
        assert(sym_x(kind, w2, h2, fx, fy) == x);
        assert(sym_y(kind, w2, h2, fx, fy) == y);
    }
}

/// Turning the image board back gives the board itself.
proof fn lemma_sym_twice<A>(kind: int, w: int, h: int, s: Seq<A>)
    requires
        0 <= kind < 3,
        0 <= w,
        0 <= h,
        s.len() == w * h,
    ensures
        sym_seq(kind, sym_w(kind, w, h), sym_h(kind, w, h), sym_seq(kind, w, h, s)) == s,
{
    lemma_sym_basic(kind, w, h);
    let w2 = sym_w(kind, w, h);
    let h2 = sym_h(kind, w, h);
    let s2 = sym_seq(kind, w, h, s);
    let s3 = sym_seq(kind, w2, h2, s2);
    lemma_sym_seq_image(kind, w, h, s);
    lemma_sym_seq_image(kind, w2, h2, s2);
    lemma_sym_basic(kind, w2, h2);
    assert forall|i: int| 0 <= i < s.len() implies s3[i] == s[i] by {
        lemma_cell_of_index(w, h, i);
        let x = i % w;
        let y = i / w;
        let fx = sym_x(kind, w, h, x, y);
        let fy = sym_y(kind, w, h, x, y);
        assert(in_grid(w, h, x, y));
        assert(in_grid(w2, h2, fx, fy));
        assert(sym_x(kind, w2, h2, fx, fy) == x);
        assert(sym_y(kind, w2, h2, fx, fy) == y);
    }
    assert(s3 =~= s);
}

// ── counting is kept ─────────────────────────────────────────────────────

/// The indices in `0..n` that satisfy `p`.
spec fn index_set(n: int, p: spec_fn(int) -> bool) -> Set<int> {
    Set::new(|i: int| 0 <= i < n && p(i))
}

proof fn lemma_count_is_len(n: int, p: spec_fn(int) -> bool)
    requires
        0 <= n,
    ensures
        index_set(n, p).finite(),
        index_set(n, p).len() == count_where(n, p),
    decreases n,
{
    if n == 0 {
        assert(index_set(n, p) =~= Set::<int>::empty());
    } else {
        lemma_count_is_len(n - 1, p);
        if p(n - 1) {
            assert(index_set(n, p) =~= index_set(n - 1, p).insert(n - 1));
        } else {
            assert(index_set(n, p) =~= index_set(n - 1, p));
        }
    }
}

/// Counting the cells that satisfy a predicate gives the same number on the
/// board and on its image.
proof fn lemma_sym_count(kind: int, w: int, h: int, p: spec_fn(int) -> bool, q: spec_fn(int) -> bool)
    requires
        0 <= kind < 3,
        0 <= w,
        0 <= h,
        forall|x: int, y: int|
            #[trigger] in_grid(w, h, x, y) ==> p(cell(w, x, y)) == q(
                cell(sym_w(kind, w, h), sym_x(kind, w, h, x, y), sym_y(kind, w, h, x, y)),
            ),
    ensures
        count_where(w * h, p) == count_where(w * h, q),
{
    lemma_sym_basic(kind, w, h);
    let w2 = sym_w(kind, w, h);
    let h2 = sym_h(kind, w, h);
    lemma_sym_basic(kind, w2, h2);
    let n = w * h;
    assert(0 <= w * h) by (nonlinear_arith)
        requires
            0 <= w,
            0 <= h,
    ;
    lemma_count_is_len(n, p);
    lemma_count_is_len(n, q);
    let sp = index_set(n, p);
    let sq = index_set(n, q);
    let pi = |i: int|
        cell(w2, sym_x(kind, w, h, i % w, i / w), sym_y(kind, w, h, i % w, i / w));
    assert forall|i1: int, i2: int|
        sp.contains(i1) && sp.contains(i2) && #[trigger] pi(i1) == #[trigger] pi(i2) implies i1 == i2 by {
        lemma_cell_of_index(w, h, i1);
        lemma_cell_of_index(w, h, i2);
        let (x1, y1) = (i1 % w, i1 / w);
        let (x2, y2) = (i2 % w, i2 / w);
        assert(in_grid(w, h, x1, y1));
        assert(in_grid(w, h, x2, y2));
        assert(in_grid(w2, h2, sym_x(kind, w, h, x1, y1), sym_y(kind, w, h, x1, y1)));
        assert(in_grid(w2, h2, sym_x(kind, w, h, x2, y2), sym_y(kind, w, h, x2, y2)));
        lemma_cell_injective(
            w2,
            h2,
            sym_x(kind, w, h, x1, y1),
            sym_y(kind, w, h, x1, y1),
            sym_x(kind, w, h, x2, y2),
            sym_y(kind, w, h, x2, y2),
        );
        assert(sym_x(kind, w2, h2, sym_x(kind, w, h, x1, y1), sym_y(kind, w, h, x1, y1)) == x1);
        assert(sym_y(kind, w2, h2, sym_x(kind, w, h, x1, y1), sym_y(kind, w, h, x1, y1)) == y1);
        assert(sym_x(kind, w2, h2, sym_x(kind, w, h, x2, y2), sym_y(kind, w, h, x2, y2)) == x2);
        assert(sym_y(kind, w2, h2, sym_x(kind, w, h, x2, y2), sym_y(kind, w, h, x2, y2)) == y2);
    }
    assert(vstd::relations::injective_on(pi, sp));
    assert forall|j: int| sp.map(pi).contains(j) <==> sq.contains(j) by {
        if sp.map(pi).contains(j) {
            let i = choose|i: int| sp.contains(i) && pi(i) == j;
            lemma_cell_of_index(w, h, i);
            let (x, y) = (i % w, i / w);
            assert(in_grid(w, h, x, y));
            assert(in_grid(w2, h2, sym_x(kind, w, h, x, y), sym_y(kind, w, h, x, y)));
            lemma_cell_bounds(w2, h2, sym_x(kind, w, h, x, y), sym_y(kind, w, h, x, y));
        }
        if sq.contains(j) {
            lemma_cell_of_index(w2, h2, j);
            let (a, b) = (j % w2, j / w2);
            assert(in_grid(w2, h2, a, b));
            let x = sym_x(kind, w2, h2, a, b);
            let y = sym_y(kind, w2, h2, a, b);
            assert(in_grid(w, h, x, y));
            assert(sym_x(kind, w, h, x, y) == a);
            assert(sym_y(kind, w, h, x, y) == b);
            let i = cell(w, x, y);
            lemma_cell_bounds(w, h, x, y);
            lemma_cell_of_index(w, h, i);
            lemma_cell_injective(w, h, i % w, i / w, x, y);
            assert(pi(i) == j);
            assert(sp.contains(i));
        }
    }
    assert(sp.map(pi) =~= sq);
    lemma_map_size(sp, sq, pi);
}

// ── neighbours are kept ──────────────────────────────────────────────────

/// Block position `k` around (x, y) counts for `p` exactly when its image
/// position around the image cell counts for `q`.
proof fn lemma_sym_term(
    kind: int,
    w: int,
    h: int,
    x: int,
    y: int,
    p: spec_fn(int) -> bool,
    q: spec_fn(int) -> bool,
    k: int,
)
    requires
        0 <= kind < 3,
        0 <= w,
        0 <= h,
        0 <= k < 9,
        in_grid(w, h, x, y),
        forall|a: int, b: int|
            #[trigger] in_grid(w, h, a, b) ==> p(cell(w, a, b)) == q(
                cell(sym_w(kind, w, h), sym_x(kind, w, h, a, b), sym_y(kind, w, h, a, b)),
            ),
    ensures
        nbr_term(w, h, x, y, p, k) == nbr_term(
            sym_w(kind, w, h),
            sym_h(kind, w, h),
            sym_x(kind, w, h, x, y),
            sym_y(kind, w, h, x, y),
            q,
            sym_k(kind, k),
        ),
{
    lemma_sym_basic(kind, w, h);
    lemma_sym_offsets(kind, k);
    let a = x + off_x(k);
    let b = y + off_y(k);
    let k2 = sym_k(kind, k);
    let fx = sym_x(kind, w, h, x, y);
    let fy = sym_y(kind, w, h, x, y);
    assert(sym_x(kind, w, h, a, b) == fx + off_x(k2));
    assert(sym_y(kind, w, h, a, b) == fy + off_y(k2));
    assert(in_grid(w, h, a, b) == in_grid(sym_w(kind, w, h), sym_h(kind, w, h), fx + off_x(k2), fy + off_y(k2)));
}

/// A cell and its image have as many neighbours satisfying the matching predicates.
proof fn lemma_sym_nbr_count(
    kind: int,
    w: int,
    h: int,
    x: int,
    y: int,
    p: spec_fn(int) -> bool,
    q: spec_fn(int) -> bool,
)
    requires
        0 <= kind < 3,
        0 <= w,
        0 <= h,
        in_grid(w, h, x, y),
        forall|a: int, b: int|
            #[trigger] in_grid(w, h, a, b) ==> p(cell(w, a, b)) == q(
                cell(sym_w(kind, w, h), sym_x(kind, w, h, a, b), sym_y(kind, w, h, a, b)),
            ),
    ensures
        nbr_count(w, h, x, y, p) == nbr_count(
            sym_w(kind, w, h),
            sym_h(kind, w, h),
            sym_x(kind, w, h, x, y),
            sym_y(kind, w, h, x, y),
            q,
        ),
{
    let w2 = sym_w(kind, w, h);
    let h2 = sym_h(kind, w, h);
    let fx = sym_x(kind, w, h, x, y);
    let fy = sym_y(kind, w, h, x, y);
    reveal_with_fuel(nbr_count_upto, 10);
    lemma_sym_term(kind, w, h, x, y, p, q, 0);
    lemma_sym_term(kind, w, h, x, y, p, q, 1);
    lemma_sym_term(kind, w, h, x, y, p, q, 2);
    lemma_sym_term(kind, w, h, x, y, p, q, 3);
    lemma_sym_term(kind, w, h, x, y, p, q, 4);
    lemma_sym_term(kind, w, h, x, y, p, q, 5);
    lemma_sym_term(kind, w, h, x, y, p, q, 6);
    lemma_sym_term(kind, w, h, x, y, p, q, 7);
    lemma_sym_term(kind, w, h, x, y, p, q, 8);
    assert(nbr_count(w2, h2, fx, fy, q) == nbr_term(w2, h2, fx, fy, q, 0) + nbr_term(w2, h2, fx, fy, q, 1)
        + nbr_term(w2, h2, fx, fy, q, 2) + nbr_term(w2, h2, fx, fy, q, 3) + nbr_term(w2, h2, fx, fy, q, 4)
        + nbr_term(w2, h2, fx, fy, q, 5) + nbr_term(w2, h2, fx, fy, q, 6) + nbr_term(w2, h2, fx, fy, q, 7)
        + nbr_term(w2, h2, fx, fy, q, 8));
    assert(nbr_count(w, h, x, y, p) == nbr_term(w, h, x, y, p, 0) + nbr_term(w, h, x, y, p, 1)
        + nbr_term(w, h, x, y, p, 2) + nbr_term(w, h, x, y, p, 3) + nbr_term(w, h, x, y, p, 4)
        + nbr_term(w, h, x, y, p, 5) + nbr_term(w, h, x, y, p, 6) + nbr_term(w, h, x, y, p, 7)
        + nbr_term(w, h, x, y, p, 8));
}

// ── the no-guess answer is kept ──────────────────────────────────────────

/// Turned back, knowledge that is true and closed on the image board is true
/// and closed on the board itself.
proof fn lemma_sym_closed(
    kind: int,
    w: int,
    h: int,
    total: int,
    sx: int,
    sy: int,
    d: Seq<Field>,
    kd: Seq<bool>,
    kf: Seq<bool>,
    d2: Seq<Field>,
    kd2: Seq<bool>,
    kf2: Seq<bool>,
)
    requires
        0 <= kind < 3,
        0 <= w,
        0 <= h,
        in_grid(w, h, sx, sy),
        sym_image(kind, w, h, d, d2),
        sym_image(kind, w, h, kd, kd2),
        sym_image(kind, w, h, kf, kf2),
        sound(d2, kd2, kf2),
        closed(
            d2,
            sym_w(kind, w, h),
            sym_h(kind, w, h),
            total,
            sym_x(kind, w, h, sx, sy),
            sym_y(kind, w, h, sx, sy),
            kd2,
            kf2,
        ),
    ensures
        sound(d, kd, kf),
        closed(d, w, h, total, sx, sy, kd, kf),
{
    lemma_sym_basic(kind, w, h);
    let w2 = sym_w(kind, w, h);
    let h2 = sym_h(kind, w, h);
    // the knowledge is true
    assert forall|i: int| 0 <= i < d.len() implies (kd[i] ==> !d[i].cat) && (kf[i] ==> d[i].cat) by {
        assert(w > 0) by (nonlinear_arith)
            requires
                0 <= i < w * h,
                0 <= w,
                0 <= h,
        ;
        lemma_cell_of_index(w, h, i);
        let (x, y) = (i % w, i / w);
        assert(in_grid(w, h, x, y));
        assert(in_grid(w2, h2, sym_x(kind, w, h, x, y), sym_y(kind, w, h, x, y)));
        lemma_cell_bounds(w2, h2, sym_x(kind, w, h, x, y), sym_y(kind, w, h, x, y));
    }
    // the first click
    assert(in_grid(w, h, sx, sy));
    // zeros are opened
    assert forall|x: int, y: int|
        in_grid(w, h, x, y) && #[trigger] kd[cell(w, x, y)] && d[cell(w, x, y)].neighbours == 0 implies forall|k: int|
        #[trigger] nbr_ok(w, h, x, y, k) ==> kd[nbr_at(w, x, y, k)] || d[nbr_at(w, x, y, k)].cat by {
        let fx = sym_x(kind, w, h, x, y);
        let fy = sym_y(kind, w, h, x, y);
        assert(in_grid(w2, h2, fx, fy));
        assert(kd2[cell(w2, fx, fy)] && d2[cell(w2, fx, fy)].neighbours == 0);
        assert forall|k: int| #[trigger] nbr_ok(w, h, x, y, k) implies kd[nbr_at(w, x, y, k)] || d[nbr_at(
            w,
            x,
            y,
            k,
        )].cat by {
            lemma_sym_offsets(kind, k);
            let k2 = sym_k(kind, k);
            let a = x + off_x(k);
            let b = y + off_y(k);
            assert(in_grid(w, h, a, b));
            assert(sym_x(kind, w, h, a, b) == fx + off_x(k2));
            assert(sym_y(kind, w, h, a, b) == fy + off_y(k2));
            assert(in_grid(w2, h2, sym_x(kind, w, h, a, b), sym_y(kind, w, h, a, b)));
            assert(nbr_ok(w2, h2, fx, fy, k2));
            assert(nbr_at(w2, fx, fy, k2) == cell(w2, sym_x(kind, w, h, a, b), sym_y(kind, w, h, a, b)));
        }
    }
    // no local rule applies
    assert forall|x: int, y: int| #[trigger] in_grid(w, h, x, y) implies local_stuck(d, w, h, kd, kf, x, y) by {
        let fx = sym_x(kind, w, h, x, y);
        let fy = sym_y(kind, w, h, x, y);
        assert(in_grid(w2, h2, fx, fy));
        assert forall|a: int, b: int| #[trigger] in_grid(w, h, a, b) implies flagged_pred(kd, kf)(cell(w, a, b))
            == flagged_pred(kd2, kf2)(cell(w2, sym_x(kind, w, h, a, b), sym_y(kind, w, h, a, b))) by {}
        assert forall|a: int, b: int| #[trigger] in_grid(w, h, a, b) implies unknown_pred(kd, kf)(cell(w, a, b))
            == unknown_pred(kd2, kf2)(cell(w2, sym_x(kind, w, h, a, b), sym_y(kind, w, h, a, b))) by {}
        lemma_sym_nbr_count(kind, w, h, x, y, flagged_pred(kd, kf), flagged_pred(kd2, kf2));
        lemma_sym_nbr_count(kind, w, h, x, y, unknown_pred(kd, kf), unknown_pred(kd2, kf2));
        assert(local_stuck(d2, w2, h2, kd2, kf2, fx, fy));
    }
    // no global rule applies
    assert forall|a: int, b: int| #[trigger] in_grid(w, h, a, b) implies unknown_pred(kd, kf)(cell(w, a, b))
        == unknown_pred(kd2, kf2)(cell(w2, sym_x(kind, w, h, a, b), sym_y(kind, w, h, a, b))) by {}
    assert forall|a: int, b: int| #[trigger] in_grid(w, h, a, b) implies flag_pred(kf)(cell(w, a, b))
        == flag_pred(kf2)(cell(w2, sym_x(kind, w, h, a, b), sym_y(kind, w, h, a, b))) by {}
    lemma_sym_count(kind, w, h, unknown_pred(kd, kf), unknown_pred(kd2, kf2));
    lemma_sym_count(kind, w, h, flag_pred(kf), flag_pred(kf2));
    assert(global_stuck(w2 * h2, total, kd2, kf2));
    assert(remaining_cats(w * h, total, kf) == remaining_cats(w2 * h2, total, kf2));
    assert(global_stuck(w * h, total, kd, kf));
}

/// A board that pure logic clears keeps that property on its image, from the
/// image of the first click.
proof fn lemma_sym_solvable_dir(kind: int, w: int, h: int, total: int, sx: int, sy: int, d: Seq<Field>)
    requires
        0 <= kind < 3,
        0 <= w,
        0 <= h,
        d.len() == w * h,
        in_grid(w, h, sx, sy),
        solvable(d, w, h, total, sx, sy),
    ensures
        solvable(
            sym_seq(kind, w, h, d),
            sym_w(kind, w, h),
            sym_h(kind, w, h),
            total,
            sym_x(kind, w, h, sx, sy),
            sym_y(kind, w, h, sx, sy),
        ),
{
    lemma_sym_basic(kind, w, h);
    let w2 = sym_w(kind, w, h);
    let h2 = sym_h(kind, w, h);
    lemma_sym_basic(kind, w2, h2);
    let fsx = sym_x(kind, w, h, sx, sy);
    let fsy = sym_y(kind, w, h, sx, sy);
    let d2 = sym_seq(kind, w, h, d);
    lemma_sym_seq_image(kind, w, h, d);
    assert forall|i2: int| 0 <= i2 < w2 * h2 implies d2[i2].cat || #[trigger] deducible(
        d2,
        w2,
        h2,
        total,
        fsx,
        fsy,
        i2,
    ) by {
        assert(w2 > 0) by (nonlinear_arith)
            requires
                0 <= i2 < w2 * h2,
                0 <= w2,
                0 <= h2,
        ;
        lemma_cell_of_index(w2, h2, i2);
        let (a, b) = (i2 % w2, i2 / w2);
        assert(in_grid(w2, h2, a, b));
        let x = sym_x(kind, w2, h2, a, b);
        let y = sym_y(kind, w2, h2, a, b);
        assert(in_grid(w, h, x, y));
        assert(sym_x(kind, w, h, x, y) == a);
        assert(sym_y(kind, w, h, x, y) == b);
        let i = cell(w, x, y);
        lemma_cell_bounds(w, h, x, y);
        assert(d2[i2] == d[i]);
        if !d2[i2].cat {
            assert(deducible(d, w, h, total, sx, sy, i));
            assert forall|kd2: Seq<bool>, kf2: Seq<bool>|
                sound(d2, kd2, kf2) && #[trigger] closed(d2, w2, h2, total, fsx, fsy, kd2, kf2) implies kd2[i2] by {
                let kd = sym_seq(kind, w2, h2, kd2);
                let kf = sym_seq(kind, w2, h2, kf2);
                lemma_sym_pull_image(kind, w, h, kd2);
                lemma_sym_pull_image(kind, w, h, kf2);
                lemma_sym_closed(kind, w, h, total, sx, sy, d, kd, kf, d2, kd2, kf2);
                assert(closed(d, w, h, total, sx, sy, kd, kf));
                assert(kd[i]);
            }
        }
    }
}

/// The no-guess answer does not depend on how the board is turned: swapping its
/// rows and columns, or mirroring it left to right or top to bottom, keeps a
/// board solvable, or unsolvable, from the image of the same first click.
/// With `grid_is_solvable`'s contract, the solver gives the same answer on the
/// board and on each of these images.
pub proof fn lemma_solvable_under_symmetry(
    kind: int,
    data: Seq<Field>,
    w: int,
    h: int,
    total: int,
    sx: int,
    sy: int,
)
    requires
        0 <= kind < 3,
        0 <= w,
        0 <= h,
        data.len() == w * h,
        in_grid(w, h, sx, sy),
    ensures
        solvable(
            sym_seq(kind, w, h, data),
            sym_w(kind, w, h),
            sym_h(kind, w, h),
            total,
            sym_x(kind, w, h, sx, sy),
            sym_y(kind, w, h, sx, sy),
        ) == solvable(data, w, h, total, sx, sy),
{
    lemma_sym_basic(kind, w, h);
    let w2 = sym_w(kind, w, h);
    let h2 = sym_h(kind, w, h);
    let d2 = sym_seq(kind, w, h, data);
    if solvable(data, w, h, total, sx, sy) {
        lemma_sym_solvable_dir(kind, w, h, total, sx, sy, data);
    }
    if solvable(d2, w2, h2, total, sym_x(kind, w, h, sx, sy), sym_y(kind, w, h, sx, sy)) {
        lemma_sym_solvable_dir(
            kind,
            w2,
            h2,
            total,
            sym_x(kind, w, h, sx, sy),
            sym_y(kind, w, h, sx, sy),
            d2,
        );
        lemma_sym_twice(kind, w, h, data);
    }
}

} // verus!
