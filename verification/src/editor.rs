use std::path::PathBuf;

use vstd::math::min;
use vstd::prelude::*;

use crate::grid::{cell, cell_index, count_where, in_grid, lemma_cell_bounds, lemma_cell_of_index};
use crate::text::{all_digits, decimal, digit_char, digits_value, parse_usize, parsed_usize, usize_text};

verus! {

/// Result of testing whether an edited grid can be solved without guessing.
#[derive(Clone, PartialEq, Eq, Debug, Structural)]
pub enum SolvabilityStatus {
    Testing,
    Solvable { count: usize, total: usize },
    Unsolvable { total: usize },
}

pub const MIN_W: usize = 5;

pub const MAX_W: usize = 60;

pub const MIN_H: usize = 5;

pub const MAX_H: usize = 40;

#[verifier::external_type_specification]
#[verifier::external_body]
pub struct ExPathBuf(std::path::PathBuf);

/// The content of a saved grid: its size and the column and row of each cat.
pub struct GridFile {
    pub version: u32,
    pub width: usize,
    pub height: usize,
    pub bombs: Vec<(usize, usize)>,
}

/// The state of the grid editor.
pub struct EditorState {
    pub width: usize,
    pub height: usize,
    /// The width as typed by the user.
    pub width_buf: String,
    /// The height as typed by the user.
    pub height_buf: String,
    /// Which cells hold a cat, row by row.
    pub bombs: Vec<bool>,
    /// Where the grid was last loaded from or saved to.
    pub path: Option<PathBuf>,
    /// The grid changed since it was last saved.
    pub dirty: bool,
    pub error: Option<String>,
    /// What a drag with the mouse paints.
    pub drag_value: Option<bool>,
    pub solvability: Option<SolvabilityStatus>,
    /// The grid changed since the view last looked.
    pub changed: bool,
}

// ── the editor ───────────────────────────────────────────────────────────

/// `v` held between `lo` and `hi`.
pub open spec fn clamped(v: usize, lo: usize, hi: usize) -> usize {
    if v < lo {
        lo
    } else if v > hi {
        hi
    } else {
        v
    }
}

fn clamp(v: usize, lo: usize, hi: usize) -> (r: usize)
    requires
        lo <= hi,
    ensures
        r == clamped(v, lo, hi),
{
    if v < lo {
        lo
    } else if v > hi {
        hi
    } else {
        v
    }
}

/// The size the editor's text fields ask for: each parsed, falling back to the
/// current size when it is not a number, and held within the limits.
pub open spec fn requested_size(ed: EditorState) -> (usize, usize) {
    let pw = parsed_usize(ed.width_buf@);
    let ph = parsed_usize(ed.height_buf@);
    let w = if pw is Some {
        pw->0
    } else {
        ed.width
    };
    let h = if ph is Some {
        ph->0
    } else {
        ed.height
    };
    (clamped(w, MIN_W, MAX_W), clamped(h, MIN_H, MAX_H))
}

/// The cats of a `ow` x `oh` grid carried over to a `nw` x `nh` one: cells in
/// both keep their cat, new cells are empty.
pub open spec fn resized(bombs: Seq<bool>, ow: int, oh: int, nw: int, nh: int) -> Seq<bool> {
    Seq::new(
        (nw * nh) as nat,
        |i: int|
            {
                let x = i % nw;
                let y = i / nw;
                x < ow && y < oh && bombs[cell(ow, x, y)]
            },
    )
}

/// The cell with index `j` holds a cat.
pub open spec fn bomb_pred(bombs: Seq<bool>) -> spec_fn(int) -> bool {
    |j: int| bombs[j]
}

/// Column and row of each cat among the first `k` cells of a grid `w` wide,
/// in row-major order.
pub open spec fn bomb_coords(bombs: Seq<bool>, w: int, k: int) -> Seq<(usize, usize)>
    decreases k,
{
    if k <= 0 {
        Seq::empty()
    } else if bombs[k - 1] {
        bomb_coords(bombs, w, k - 1).push((((k - 1) % w) as usize, ((k - 1) / w) as usize))
    } else {
        bomb_coords(bombs, w, k - 1)
    }
}

/// The cats that a grid file puts on a `w` x `h` grid: each listed cell that
/// lies on it.
pub open spec fn bombs_from(list: Seq<(usize, usize)>, w: int, h: int) -> Seq<bool> {
    Seq::new(
        (w * h) as nat,
        |i: int| exists|j: int| 0 <= j < list.len() && #[trigger] list[j] == ((i % w) as usize, (i / w) as usize),
    )
}

/// The grid of `ed` holds, in the part it shares with the grid of `g`, exactly
/// the cats of `g`, and no cat outside it.
pub open spec fn keeps_overlap(g: EditorState, ed: EditorState) -> bool {
    &&& ed.bombs@.len() == ed.width * ed.height
    &&& forall|x: int, y: int|
        0 <= x < ed.width && 0 <= y < ed.height ==> #[trigger] ed.bombs@[cell(ed.width as int, x, y)] == (x
            < min(g.width as int, ed.width as int) && y < min(g.height as int, ed.height as int)
            && g.bombs@[cell(g.width as int, x, y)])
}

/// Resizing keeps the cats of the overlap: in the new grid, a cell inside both
/// grids holds a cat exactly when it held one before, and every other cell is
/// empty.
pub proof fn lemma_resize_keeps_overlap(bombs: Seq<bool>, ow: int, oh: int, nw: int, nh: int)
    requires
        0 <= nw,
        0 <= nh,
    ensures
        resized(bombs, ow, oh, nw, nh).len() == nw * nh,
        forall|x: int, y: int|
            0 <= x < nw && 0 <= y < nh ==> #[trigger] resized(bombs, ow, oh, nw, nh)[cell(nw, x, y)] == (x
                < min(ow, nw) && y < min(oh, nh) && bombs[cell(ow, x, y)]),
{
    assert(0 <= nw * nh) by (nonlinear_arith)
        requires
            0 <= nw,
            0 <= nh,
    ;
    assert forall|x: int, y: int| 0 <= x < nw && 0 <= y < nh implies #[trigger] resized(
        bombs,
        ow,
        oh,
        nw,
        nh,
    )[cell(nw, x, y)] == (x < min(ow, nw) && y < min(oh, nh) && bombs[cell(ow, x, y)]) by {
        lemma_cell_bounds(nw, nh, x, y);
        lemma_cell_of_index(nw, nh, cell(nw, x, y));
        crate::grid::lemma_cell_injective(nw, nh, cell(nw, x, y) % nw, cell(nw, x, y) / nw, x, y);
    }
}

/// What `apply_size` does to the editor `g`, answering `r` and leaving `ed`.
pub open spec fn size_applied(g: EditorState, r: bool, ed: EditorState) -> bool {
    let (nw, nh) = requested_size(g);
    if nw == g.width && nh == g.height {
        &&& !r
        &&& ed == g
    } else {
        &&& r
        &&& ed.width == nw
        &&& ed.height == nh
        &&& ed.width_buf@ == decimal(nw as nat)
        &&& ed.height_buf@ == decimal(nh as nat)
        &&& ed.bombs@ == resized(g.bombs@, g.width as int, g.height as int, nw as int, nh as int)
        &&& ed.dirty
        &&& ed.error is None
        &&& ed.solvability is None
        &&& ed.changed
        &&& ed.path == g.path
        &&& ed.drag_value == g.drag_value
    }
}

/// The editor's grid is laid out: its size is within the limits and it has one
/// entry per cell.
pub open spec fn editor_ok(ed: EditorState) -> bool {
    &&& MIN_W <= ed.width <= MAX_W
    &&& MIN_H <= ed.height <= MAX_H
    &&& ed.bombs@.len() == ed.width * ed.height
}

proof fn lemma_small_area(w: usize, h: usize)
    requires
        w <= MAX_W,
        h <= MAX_H,
    ensures
        w * h <= 2400,
{
    assert(w * h <= 2400) by (nonlinear_arith)
        requires
            w <= 60,
            h <= 40,
    ;
}

impl EditorState {
    /// An empty 20 x 15 grid, never saved.
    pub fn new() -> (ed: Self)
        ensures
            editor_ok(ed),
            ed.width == 20,
            ed.height == 15,
            ed.width_buf@ == decimal(20),
            ed.height_buf@ == decimal(15),
            ed.bombs@ == Seq::new(300, |i: int| false),
            ed.path is None,
            !ed.dirty,
            ed.error is None,
            ed.drag_value is None,
            ed.solvability is None,
            !ed.changed,
    {
        let (w, h) = (20usize, 15usize);
        let bombs = vec![false; w * h];
        proof {
            assert forall|i: int| 0 <= i < 300 implies #[trigger] bombs@[i] == false by {
                assert(cloned(false, bombs@[i]));
            }
            assert(bombs@ =~= Seq::new(300, |i: int| false));
        }
        Self {
            width: w,
            height: h,
            width_buf: usize_text(w),
            height_buf: usize_text(h),
            bombs,
            path: None,
            dirty: false,
            error: None,
            drag_value: None,
            solvability: None,
            changed: false,
        }
    }

    /// Number of cats on the grid.
    pub fn bomb_count(&self) -> (r: usize)
        ensures
            r == count_where(self.bombs@.len() as int, bomb_pred(self.bombs@)),
    {
        let mut count: usize = 0;
        let mut i: usize = 0;
        while i < self.bombs.len()
            invariant
                0 <= i <= self.bombs@.len(),
                count == count_where(i as int, bomb_pred(self.bombs@)),
                count <= i,
            decreases self.bombs@.len() - i,
        {
            if self.bombs[i] {
                count = count + 1;
            }
            i = i + 1;
        }
        count
    }

    /// Applies the size typed in the text fields: the grid is resized, keeping
    /// the cats that stay on it, when the requested size differs from the
    /// current one. Returns whether it changed.
    pub fn apply_size(&mut self) -> (r: bool)
        requires
            old(self).bombs@.len() == old(self).width * old(self).height,
        ensures
            size_applied(*old(self), r, *final(self)),
            final(self).bombs@.len() == final(self).width * final(self).height,
            r ==> editor_ok(*final(self)),
            editor_ok(*old(self)) ==> editor_ok(*final(self)),
            r ==> keeps_overlap(*old(self), *final(self)),
    {
        let pw = parse_usize(self.width_buf.as_str());
        let ph = parse_usize(self.height_buf.as_str());
        let nw = clamp(
            match pw {
                Some(v) => v,
                None => self.width,
            },
            MIN_W,
            MAX_W,
        );
        let nh = clamp(
            match ph {
                Some(v) => v,
                None => self.height,
            },
            MIN_H,
            MAX_H,
        );
        if nw == self.width && nh == self.height {
            return false;
        }
        let (ow, oh) = (self.width, self.height);
        // Calling len() brings the fact that the cell count fits in a usize.
        let _cells = self.bombs.len();
        proof {
            lemma_small_area(nw, nh);
        }
        let mut nb = vec![false; nw * nh];
        let ghost ob = self.bombs@;
        proof {
            assert forall|i: int| 0 <= i < nw * nh implies #[trigger] nb@[i] == false by {
                assert(cloned(false, nb@[i]));
            }
            assert forall|x2: int, y2: int|
                #[trigger] in_grid(nw as int, nh as int, x2, y2) implies nb@[cell(nw as int, x2, y2)] == (x2 < 0) by {
                lemma_cell_bounds(nw as int, nh as int, x2, y2);
            }
        }
        let ym = if oh < nh {
            oh
        } else {
            nh
        };
        let xm = if ow < nw {
            ow
        } else {
            nw
        };
        let mut y: usize = 0;
        while y < ym
            invariant
                0 <= y <= ym,
                ym <= oh,
                ym <= nh,
                xm <= ow,
                xm <= nw,
                nw <= MAX_W,
                nh <= MAX_H,
                nw * nh <= 2400,
                ow * oh <= usize::MAX,
                self.bombs@ == ob,
                ob.len() == ow * oh,
                nb@.len() == nw * nh,
                forall|x2: int, y2: int|
                    #[trigger] in_grid(nw as int, nh as int, x2, y2) ==> nb@[cell(nw as int, x2, y2)] == (y2 < y
                        && x2 < xm && ob[cell(ow as int, x2, y2)]),
            decreases ym - y,
        {
            let mut x: usize = 0;
            while x < xm
                invariant
                    0 <= x <= xm,
                    0 <= y < ym,
                    ym <= oh,
                    ym <= nh,
                    xm <= ow,
                    xm <= nw,
                    nw <= MAX_W,
                    nh <= MAX_H,
                    nw * nh <= 2400,
                    ow * oh <= usize::MAX,
                    self.bombs@ == ob,
                    ob.len() == ow * oh,
                    nb@.len() == nw * nh,
                    forall|x2: int, y2: int|
                        #[trigger] in_grid(nw as int, nh as int, x2, y2) ==> nb@[cell(nw as int, x2, y2)] == ((y2 < y
                            && x2 < xm && ob[cell(ow as int, x2, y2)]) || (y2 == y && x2 < x && ob[cell(ow as int, x2, y2)])),
                decreases xm - x,
            {
                let ni = cell_index(nw, nh, x, y);
                let oi = cell_index(ow, oh, x, y);
                let ghost nb0 = nb@;
                let b = self.bombs[oi];
                nb.set(ni, b);
                proof {
                    assert forall|x2: int, y2: int|
                        #[trigger] in_grid(nw as int, nh as int, x2, y2) implies nb@[cell(nw as int, x2, y2)] == ((y2 < y
                            && x2 < xm && ob[cell(ow as int, x2, y2)]) || (y2 == y && x2 < x + 1 && ob[cell(ow as int, x2, y2)])) by {
                        lemma_cell_bounds(nw as int, nh as int, x2, y2);
                        if cell(nw as int, x2, y2) == ni {
                            crate::grid::lemma_cell_injective(nw as int, nh as int, x2, y2, x as int, y as int);
                        } else {
                            assert(nb@[cell(nw as int, x2, y2)] == nb0[cell(nw as int, x2, y2)]);
                            if y2 == y && x2 == x {
                            }
                        }
                    }
                }
                x = x + 1;
            }
            y = y + 1;
        }
        proof {
            let rz = resized(ob, ow as int, oh as int, nw as int, nh as int);
            assert forall|i: int| 0 <= i < nw * nh implies #[trigger] nb@[i] == rz[i] by {
                lemma_cell_of_index(nw as int, nh as int, i);
                assert(in_grid(nw as int, nh as int, i % (nw as int), i / (nw as int)));
            }
            assert(nb@ =~= rz);
        }
        proof {
            lemma_resize_keeps_overlap(ob, ow as int, oh as int, nw as int, nh as int);
        }
        self.width = nw;
        self.height = nh;
        self.width_buf = usize_text(nw);
        self.height_buf = usize_text(nh);
        self.bombs = nb;
        self.dirty = true;
        self.error = None;
        self.solvability = None;
        self.changed = true;
        true
    }

    /// Puts (`value` true) or removes a cat at (x, y); cells off the grid and
    /// cells that already hold `value` are left alone.
    pub fn paint(&mut self, x: usize, y: usize, value: bool)
        requires
            old(self).bombs@.len() == old(self).width * old(self).height,
        ensures
            ({
                let g = *old(self);
                if x < g.width && y < g.height && g.bombs@[cell(g.width as int, x as int, y as int)] != value {
                    &&& final(self).bombs@ == g.bombs@.update(cell(g.width as int, x as int, y as int), value)
                    &&& final(self).dirty
                    &&& final(self).solvability is None
                    &&& final(self).changed
                    &&& final(self).width == g.width
                    &&& final(self).height == g.height
                    &&& final(self).width_buf == g.width_buf
                    &&& final(self).height_buf == g.height_buf
                    &&& final(self).path == g.path
                    &&& final(self).error == g.error
                    &&& final(self).drag_value == g.drag_value
                } else {
                    *final(self) == g
                }
            }),
    {
        if x < self.width && y < self.height {
            // Calling len() brings the fact that the cell count fits in a usize.
            let _cells = self.bombs.len();
            let idx = cell_index(self.width, self.height, x, y);
            if self.bombs[idx] != value {
                self.bombs.set(idx, value);
                self.dirty = true;
                self.solvability = None;
                self.changed = true;
            }
        }
    }

    /// Removes every cat.
    pub fn clear(&mut self)
        ensures
            final(self).bombs@ == Seq::new(old(self).bombs@.len(), |i: int| false),
            final(self).dirty,
            final(self).solvability is None,
            final(self).changed,
            final(self).width == old(self).width,
            final(self).height == old(self).height,
            final(self).width_buf == old(self).width_buf,
            final(self).height_buf == old(self).height_buf,
            final(self).path == old(self).path,
            final(self).error == old(self).error,
            final(self).drag_value == old(self).drag_value,
    {
        let mut i: usize = 0;
        while i < self.bombs.len()
            invariant
                0 <= i <= self.bombs@.len(),
                self.bombs@.len() == old(self).bombs@.len(),
                forall|j: int| 0 <= j < i ==> !#[trigger] self.bombs@[j],
                self.width == old(self).width,
                self.height == old(self).height,
                self.width_buf == old(self).width_buf,
                self.height_buf == old(self).height_buf,
                self.path == old(self).path,
                self.error == old(self).error,
                self.drag_value == old(self).drag_value,
            decreases self.bombs@.len() - i,
        {
            self.bombs.set(i, false);
            i = i + 1;
        }
        assert(self.bombs@ =~= Seq::new(old(self).bombs@.len(), |i: int| false));
        self.dirty = true;
        self.solvability = None;
        self.changed = true;
    }

    /// What saving writes: format version 1, the size, and the column and row
    /// of each cat in row-major order.
    pub fn grid_file(&self) -> (gf: GridFile)
        requires
            self.bombs@.len() == self.width * self.height,
        ensures
            gf.version == 1,
            gf.width == self.width,
            gf.height == self.height,
            gf.bombs@ == bomb_coords(self.bombs@, self.width as int, self.bombs@.len() as int),
    {
        let mut list: Vec<(usize, usize)> = Vec::new();
        let mut i: usize = 0;
        while i < self.bombs.len()
            invariant
                0 <= i <= self.bombs@.len(),
                self.bombs@.len() == self.width * self.height,
                list@ == bomb_coords(self.bombs@, self.width as int, i as int),
            decreases self.bombs@.len() - i,
        {
            assert(self.width > 0) by (nonlinear_arith)
                requires
                    0 <= i < self.width * self.height,
            ;
            if self.bombs[i] {
                list.push((i % self.width, i / self.width));
            }
            i = i + 1;
        }
        GridFile { version: 1, width: self.width, height: self.height, bombs: list }
    }

    /// Records how saving to a file went: on success the grid is clean and
    /// remembers the file; on failure the message is kept.
    pub fn finish_save(&mut self, result: Result<PathBuf, String>)
        ensures
            match result {
                Ok(p) => *final(self) == (EditorState {
                    path: Some(p),
                    dirty: false,
                    error: None,
                    ..*old(self)
                }),
                Err(msg) => *final(self) == (EditorState { error: Some(msg), ..*old(self) }),
            },
    {
        match result {
            Ok(p) => {
                self.path = Some(p);
                self.dirty = false;
                self.error = None;
            },
            Err(msg) => {
                self.error = Some(msg);
            },
        }
    }

    /// The editor on a grid read from `path`: the size is held within the
    /// limits and each listed cat that lies on the grid is placed.
    pub fn from_grid_file(gf: &GridFile, path: PathBuf) -> (ed: Self)
        ensures
            editor_ok(ed),
            ed.width == clamped(gf.width, MIN_W, MAX_W),
            ed.height == clamped(gf.height, MIN_H, MAX_H),
            ed.width_buf@ == decimal(ed.width as nat),
            ed.height_buf@ == decimal(ed.height as nat),
            ed.bombs@ == bombs_from(gf.bombs@, ed.width as int, ed.height as int),
            ed.path == Some(path),
            !ed.dirty,
            ed.error is None,
            ed.drag_value is None,
            ed.solvability is None,
            ed.changed,
    {
        let w = clamp(gf.width, MIN_W, MAX_W);
        let h = clamp(gf.height, MIN_H, MAX_H);
        proof {
            lemma_small_area(w, h);
        }
        let mut bombs = vec![false; w * h];
        proof {
            assert forall|i: int| 0 <= i < w * h implies #[trigger] bombs@[i] == false by {
                assert(cloned(false, bombs@[i]));
            }
            assert forall|x: int, y: int|
                #[trigger] in_grid(w as int, h as int, x, y) implies bombs@[cell(w as int, x, y)] == exists|m: int|
                    0 <= m < 0 && #[trigger] gf.bombs@[m] == (x as usize, y as usize) by {
                lemma_cell_bounds(w as int, h as int, x, y);
            }
        }
        let mut j: usize = 0;
        while j < gf.bombs.len()
            invariant
                0 <= j <= gf.bombs@.len(),
                MIN_W <= w <= MAX_W,
                MIN_H <= h <= MAX_H,
                w * h <= 2400,
                bombs@.len() == w * h,
                forall|x: int, y: int|
                    #[trigger] in_grid(w as int, h as int, x, y) ==> bombs@[cell(w as int, x, y)] == exists|m: int|
                        0 <= m < j && #[trigger] gf.bombs@[m] == (x as usize, y as usize),
            decreases gf.bombs@.len() - j,
        {
            let (bx, by) = gf.bombs[j];
            let ghost b0 = bombs@;
            if bx < w && by < h {
                let idx = cell_index(w, h, bx, by);
                bombs.set(idx, true);
            }
            proof {
                assert forall|x: int, y: int|
                    #[trigger] in_grid(w as int, h as int, x, y) implies bombs@[cell(w as int, x, y)] == exists|m: int|
                        0 <= m < j + 1 && #[trigger] gf.bombs@[m] == (x as usize, y as usize) by {
                    lemma_cell_bounds(w as int, h as int, x, y);
                    if gf.bombs@[j as int] == (x as usize, y as usize) {
                        assert(bx == x && by == y);
                    } else {
                        if bx < w && by < h {
                            lemma_cell_bounds(w as int, h as int, bx as int, by as int);
                            if cell(w as int, x, y) == cell(w as int, bx as int, by as int) {
                                crate::grid::lemma_cell_injective(w as int, h as int, x, y, bx as int, by as int);
                            }
                            assert(bombs@[cell(w as int, x, y)] == b0[cell(w as int, x, y)]);
                        }
                        if exists|m: int| 0 <= m < j + 1 && #[trigger] gf.bombs@[m] == (x as usize, y as usize) {
                            let m = choose|m: int| 0 <= m < j + 1 && #[trigger] gf.bombs@[m] == (x as usize, y as usize);
                            assert(m < j);
                        }
                    }
                }
            }
            j = j + 1;
        }
        proof {
            let bf = bombs_from(gf.bombs@, w as int, h as int);
            assert forall|i: int| 0 <= i < w * h implies #[trigger] bombs@[i] == bf[i] by {
                lemma_cell_of_index(w as int, h as int, i);
                let x = i % (w as int);
                let y = i / (w as int);
                assert(in_grid(w as int, h as int, x, y));
            }
            assert(bombs@ =~= bf);
        }
        Self {
            width: w,
            height: h,
            width_buf: usize_text(w),
            height_buf: usize_text(h),
            bombs,
            path: Some(path),
            dirty: false,
            error: None,
            drag_value: None,
            solvability: None,
            changed: true,
        }
    }
}


// ── laws ─────────────────────────────────────────────────────────────────

proof fn lemma_coords_member(bombs: Seq<bool>, w: int, k: int, p: (usize, usize))
    requires
        0 <= k <= bombs.len(),
    ensures
        bomb_coords(bombs, w, k).contains(p) <==> exists|i: int|
            0 <= i < k && #[trigger] bombs[i] && p == ((i % w) as usize, (i / w) as usize),
    decreases k,
{
    if k > 0 {
        lemma_coords_member(bombs, w, k - 1, p);
        let prev = bomb_coords(bombs, w, k - 1);
        if bombs[k - 1] {
            let q = (((k - 1) % w) as usize, ((k - 1) / w) as usize);
            assert(bomb_coords(bombs, w, k) == prev.push(q));
            if prev.push(q).contains(p) {
                let m = choose|m: int| 0 <= m < prev.push(q).len() && prev.push(q)[m] == p;
                if m < prev.len() {
                    assert(prev.contains(p));
                }
            }
            if prev.contains(p) {
                let m = choose|m: int| 0 <= m < prev.len() && prev[m] == p;
                assert(prev.push(q)[m] == p);
            }
            if p == q {
                assert(prev.push(q)[prev.len() as int] == p);
            }
        }
    }
}

/// Saving and loading give back the grid: the cats listed in the file that
/// `grid_file` writes, placed on a grid of the same size, are exactly the
/// editor's cats.
pub proof fn lemma_save_load_round_trip(ed: EditorState)
    requires
        editor_ok(ed),
    ensures
        bombs_from(
            bomb_coords(ed.bombs@, ed.width as int, ed.bombs@.len() as int),
            ed.width as int,
            ed.height as int,
        ) == ed.bombs@,
        clamped(ed.width, MIN_W, MAX_W) == ed.width,
        clamped(ed.height, MIN_H, MAX_H) == ed.height,
{
    let w = ed.width as int;
    let h = ed.height as int;
    let n = ed.bombs@.len() as int;
    let list = bomb_coords(ed.bombs@, w, n);
    let bf = bombs_from(list, w, h);
    lemma_small_area(ed.width, ed.height);
    assert forall|i: int| 0 <= i < n implies #[trigger] bf[i] == ed.bombs@[i] by {
        lemma_cell_of_index(w, h, i);
        let p = ((i % w) as usize, (i / w) as usize);
        lemma_coords_member(ed.bombs@, w, n, p);
        if bf[i] {
            let j = choose|j: int| 0 <= j < list.len() && #[trigger] list[j] == p;
            assert(list.contains(p));
            let i2 = choose|i2: int| 0 <= i2 < n && #[trigger] ed.bombs@[i2] && p == ((i2 % w) as usize, (i2 / w) as usize);
            lemma_cell_of_index(w, h, i2);
            assert(i2 == i);
        }
        if ed.bombs@[i] {
            assert(list.contains(p));
            let j = choose|j: int| 0 <= j < list.len() && list[j] == p;
            assert(list[j] == ((i % w) as usize, (i / w) as usize));
        }
    }
    assert(bf =~= ed.bombs@);
}

proof fn lemma_decimal_digits(n: nat)
    ensures
        decimal(n).len() > 0,
        all_digits(decimal(n)),
        digits_value(decimal(n)) == n,
    decreases n,
{
    if n >= 10 {
        lemma_decimal_digits(n / 10);
        let d = decimal(n / 10);
        let e = d.push(digit_char((n % 10) as int));
        assert(e.drop_last() =~= d);
        assert(digit_char((n % 10) as int) as int == (n % 10) + 48);
        assert(e.last() as int - 48 == n % 10);
        assert((n / 10) * 10 + n % 10 == n) by (nonlinear_arith);
        assert(digits_value(e) == digits_value(d) * 10 + (n % 10));
        assert forall|i: int| 0 <= i < e.len() implies '0' <= #[trigger] e[i] <= '9' by {
            if i < d.len() {
                assert(e[i] == d[i]);
            }
        }
    } else {
        let e = seq![digit_char(n as int)];
        assert(e.drop_last() =~= Seq::<char>::empty());
        assert(digit_char(n as int) as int == n + 48);
        assert(digits_value(e.drop_last()) == 0);
        assert(digits_value(e) == n);
    }
}

/// What the editor writes in its size fields reads back as the same number.
pub proof fn lemma_decimal_parses(n: usize)
    ensures
        parsed_usize(decimal(n as nat)) == Some(n),
{
    lemma_decimal_digits(n as nat);
    let s = decimal(n as nat);
    assert('0' <= s[0] <= '9');
}

/// Applying the size settles it: once `apply_size` has run, the size fields
/// ask for the size the grid has, so applying again changes nothing.
pub proof fn lemma_apply_size_settles(ed: EditorState, r: bool, ed1: EditorState)
    requires
        size_applied(ed, r, ed1),
    ensures
        requested_size(ed1) == (ed1.width, ed1.height),
{
    if r {
        lemma_decimal_parses(ed1.width);
        lemma_decimal_parses(ed1.height);
    }
}

} // verus!
