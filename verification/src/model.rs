use std::collections::HashSet;

use rand::rngs::StdRng;
use rand::Rng;
use rand::SeedableRng;
use vstd::prelude::*;

use crate::grid::{
    cell, cell_index, count_where, in_grid, lemma_cell_bounds, lemma_count_bounds, lemma_count_ext,
    lemma_count_none, lemma_count_pos,
    lemma_count_step,
    lemma_nbr_count_bounds, lemma_nbr_count_ext, nbr_at, nbr_count, nbr_count_upto, nbr_ok,
    neighbour, off_x, off_y,
};
use crate::solver::{cat_pred, counts_ok, grid_is_solvable, grid_wf, solvable};

verus! {

broadcast use vstd::std_specs::hash::group_hash_axioms;

/// One cell of the board.
#[derive(Clone, Copy, Debug)]
pub struct Field {
    /// A cat (a mine) hides in this cell.
    pub cat: bool,
    /// The cell has been uncovered.
    pub discovered: bool,
    /// The player's marker: 0 = none, 1 = flag, 2 = question mark.
    pub flag: u8,
    /// The number of cats in the 3x3 block around the cell (the cell itself
    /// included, so a cat's own number counts it).
    pub neighbours: u8,
}

/// A covered, unmarked, empty cell.
pub open spec fn blank_field() -> Field {
    Field { cat: false, discovered: false, flag: 0, neighbours: 0 }
}

impl Default for Field {
    fn default() -> (r: Field)
        ensures
            r == blank_field(),
    {
        Field { cat: false, discovered: false, flag: 0, neighbours: 0 }
    }
}

#[verifier::external_type_specification]
#[verifier::external_body]
pub struct ExStdRng(rand::rngs::StdRng);

/// Calls `StdRng::from_entropy` (rand's `SeedableRng`): a generator seeded from
/// the operating system's randomness. Nothing is stated of the stream it yields.
/// The outside function panics when the operating system cannot provide
/// randomness, which no argument decides.
#[verifier::external_body]
fn rng_from_entropy() -> StdRng {
    StdRng::from_entropy()
}

/// Calls `Rng::gen_range(0..n)` (rand) on the generator: an index below `n`.
/// Only that bound is stated; which index comes depends on the generator's
/// state. The outside function panics on an empty range, which `requires`
/// rules out.
#[verifier::external_body]
fn random_index(rng: &mut StdRng, n: usize) -> (r: usize)
    requires
        n > 0,
    ensures
        r < n,
{
    rng.gen_range(0..n)
}

/// The board of a game: `width` x `height` cells stored row by row.
pub struct Model {
    pub width: usize,
    pub height: usize,
    /// Number of cats the board was set up with.
    pub total_cats: usize,
    /// Number of cells the model has counted as uncovered.
    pub discovered_count: usize,
    pub data: Vec<Field>,
    /// The generator the board was set up with.
    pub rng: StdRng,
}

/// The flag value of cell `j` is 1 (a flag, not a question mark).
pub open spec fn flag_one_pred(data: Seq<Field>) -> spec_fn(int) -> bool {
    |j: int| data[j].flag == 1
}

/// The cell with index `j` is uncovered.
pub open spec fn uncovered_pred(data: Seq<Field>) -> spec_fn(int) -> bool {
    |j: int| data[j].discovered
}

/// `data` is `old` with cell `i` uncovered.
pub open spec fn uncover_at(old: Seq<Field>, i: int) -> Seq<Field> {
    old.update(i, Field { discovered: true, ..old[i] })
}

/// The flag that a right click puts on a covered cell: none, flag, question
/// mark, none again.
pub open spec fn next_flag(flag: u8) -> u8 {
    ((flag + 1) % 3) as u8
}

/// What a right click changes in the count of cats still to find: -1 when a flag
/// is placed, +1 when a flag becomes a question mark, 0 otherwise.
pub open spec fn flag_delta(old: u8, new: u8) -> int {
    if old == 0 && new == 1 {
        -1
    } else if old == 1 && new == 2 {
        1
    } else {
        0
    }
}

/// (x, y) lies on a `width` x `height` board, the coordinates taken as signed.
pub open spec fn valid_at(width: usize, height: usize, x: i32, y: i32) -> bool {
    x >= 0 && x < width as i32 && y >= 0 && y < height as i32
}

impl Model {
    /// An empty 0 x 0 board with a freshly seeded generator.
    pub fn new() -> (m: Self)
        ensures
            m.width == 0,
            m.height == 0,
            m.total_cats == 0,
            m.discovered_count == 0,
            m.data@ == Seq::<Field>::empty(),
    {
        Self {
            width: 0,
            height: 0,
            total_cats: 0,
            discovered_count: 0,
            data: Vec::new(),
            rng: rng_from_entropy(),
        }
    }

    /// Sets up a covered, empty `width` x `height` board for `cats` cats.
    pub fn reset(&mut self, width: usize, height: usize, cats: usize)
        requires
            width * height <= usize::MAX,
        ensures
            final(self).width == width,
            final(self).height == height,
            final(self).total_cats == cats,
            final(self).discovered_count == 0,
            final(self).data@.len() == width * height,
            forall|i: int| 0 <= i < width * height ==> #[trigger] final(self).data@[i] == blank_field(),
    {
        self.width = width;
        self.height = height;
        self.total_cats = cats;
        self.discovered_count = 0;
        self.data = vec![Field::default(); width * height];
        self.rng = rng_from_entropy();
    }

    /// Whether (x, y) lies on the board.
    pub fn is_valid(&self, x: i32, y: i32) -> (r: bool)
        ensures
            r == valid_at(self.width, self.height, x, y),
    {
        x >= 0 && x < self.width as i32 && y >= 0 && y < self.height as i32
    }

    /// The cell at (x, y).
    pub fn field(&self, x: usize, y: usize) -> (r: &Field)
        requires
            y * self.width + x < self.data@.len(),
        ensures
            *r == self.data@[y * self.width + x],
    {
        // Calling len() brings the fact that the cell count fits in a usize.
        let _cells = self.data.len();
        &self.data[y * self.width + x]
    }

    /// The cell at (x, y), to change in place.
    pub fn field_mut(&mut self, x: usize, y: usize) -> (r: &mut Field)
        requires
            y * old(self).width + x < old(self).data@.len(),
        ensures
            *r == old(self).data@[y * old(self).width + x],
            final(self).data@ == old(self).data@.update(y * old(self).width + x, *final(r)),
            final(self).width == old(self).width,
            final(self).height == old(self).height,
            final(self).total_cats == old(self).total_cats,
            final(self).discovered_count == old(self).discovered_count,
    {
        // Calling len() brings the fact that the cell count fits in a usize.
        let _cells = self.data.len();
        let i = y * self.width + x;
        &mut self.data[i]
    }

    /// Uncovers the cell at (x, y) unless it is uncovered already or marked.
    pub fn discover(&mut self, x: usize, y: usize)
        requires
            y * old(self).width + x < old(self).data@.len(),
            !old(self).data@[y * old(self).width + x].discovered && old(self).data@[y * old(
                self,
            ).width + x].flag == 0 ==> old(self).discovered_count < usize::MAX,
        ensures
            final(self).width == old(self).width,
            final(self).height == old(self).height,
            final(self).total_cats == old(self).total_cats,
            ({
                let i = y * old(self).width + x;
                let f = old(self).data@[i];
                if !f.discovered && f.flag == 0 {
                    &&& final(self).data@ == uncover_at(old(self).data@, i)
                    &&& final(self).discovered_count == old(self).discovered_count + 1
                } else {
                    &&& final(self).data@ == old(self).data@
                    &&& final(self).discovered_count == old(self).discovered_count
                }
            }),
    {
        // Calling len() brings the fact that the cell count fits in a usize.
        let _cells = self.data.len();
        let i = y * self.width + x;
        let f = self.data[i];
        if !f.discovered && f.flag == 0 {
            self.data.set(i, Field { discovered: true, ..f });
            self.discovered_count = self.discovered_count + 1;
        }
    }

    /// Cycles the marker of the covered cell at (x, y) (none, flag, question
    /// mark) and returns the change in the count of cats still to find; an
    /// uncovered cell is left alone and gives 0.
    pub fn disarm(&mut self, x: usize, y: usize) -> (delta: i32)
        requires
            y * old(self).width + x < old(self).data@.len(),
            old(self).data@[y * old(self).width + x].flag < 255,
        ensures
            final(self).width == old(self).width,
            final(self).height == old(self).height,
            final(self).total_cats == old(self).total_cats,
            final(self).discovered_count == old(self).discovered_count,
            ({
                let i = y * old(self).width + x;
                let f = old(self).data@[i];
                if f.discovered {
                    &&& delta == 0
                    &&& final(self).data@ == old(self).data@
                } else {
                    &&& final(self).data@ == old(self).data@.update(
                        i,
                        Field { flag: next_flag(f.flag), ..f },
                    )
                    &&& delta == flag_delta(f.flag, next_flag(f.flag))
                }
            }),
    {
        // Calling len() brings the fact that the cell count fits in a usize.
        let _cells = self.data.len();
        let i = y * self.width + x;
        let f = self.data[i];
        if f.discovered {
            return 0;
        }
        let old_flag = f.flag;
        let new_flag = (f.flag + 1) % 3;
        self.data.set(i, Field { flag: new_flag, ..f });
        if old_flag == 0 && new_flag == 1 {
            -1
        } else if old_flag == 1 && new_flag == 2 {
            1
        } else {
            0
        }
    }

    /// Whether (x, y) is on the board and carries a flag.
    pub fn get_flag(&self, x: i32, y: i32) -> (r: bool)
        requires
            self.width <= i32::MAX,
            self.height <= i32::MAX,
            self.data@.len() == self.width * self.height,
        ensures
            r == (in_grid(self.width as int, self.height as int, x as int, y as int)
                && self.data@[cell(self.width as int, x as int, y as int)].flag == 1),
    {
        // Calling len() brings the fact that the cell count fits in a usize.
        let _cells = self.data.len();
        if self.is_valid(x, y) {
            proof {
                lemma_cell_bounds(self.width as int, self.height as int, x as int, y as int);
            }
            let i = cell_index(self.width, self.height, x as usize, y as usize);
            self.data[i].flag == 1
        } else {
            false
        }
    }

    /// Number of flags among the eight neighbours of (x, y).
    pub fn count_flags_around(&self, x: usize, y: usize) -> (r: u8)
        requires
            self.width <= i32::MAX,
            self.height <= i32::MAX,
            self.data@.len() == self.width * self.height,
            x < i32::MAX,
            y < i32::MAX,
        ensures
            r == nbr_count(
                self.width as int,
                self.height as int,
                x as int,
                y as int,
                flag_one_pred(self.data@),
            ),
            r <= 8,
    {
        let ghost w = self.width as int;
        let ghost h = self.height as int;
        let mut count: u8 = 0;
        let mut k: usize = 0;
        while k < 9
            invariant
                0 <= k <= 9,
                self.width <= i32::MAX,
                self.height <= i32::MAX,
                self.data@.len() == self.width * self.height,
                w == self.width,
                h == self.height,
                x < i32::MAX,
                y < i32::MAX,
                count == nbr_count_upto(w, h, x as int, y as int, flag_one_pred(self.data@), k as int),
            decreases 9 - k,
        {
            proof {
                lemma_nbr_count_bounds(w, h, x as int, y as int, flag_one_pred(self.data@), k as int);
            }
            if k != 4 {
                let dx: i32 = if k == 0 || k == 3 || k == 6 {
                    -1
                } else if k == 1 || k == 7 {
                    0
                } else {
                    1
                };
                let dy: i32 = if k < 3 {
                    -1
                } else if k < 6 {
                    0
                } else {
                    1
                };
                if self.get_flag(x as i32 + dx, y as i32 + dy) {
                    count = count + 1;
                }
            }
            k = k + 1;
        }
        proof {
            lemma_nbr_count_bounds(w, h, x as int, y as int, flag_one_pred(self.data@), 9);
        }
        count
    }

    /// Whether every covered cell holds a cat, counting by the model's tally of
    /// uncovered cells.
    pub fn check_win(&self) -> (r: bool)
        requires
            self.width * self.height <= usize::MAX,
            self.discovered_count <= self.width * self.height,
        ensures
            r == (self.width * self.height - self.discovered_count <= self.total_cats),
    {
        let size = self.width * self.height;
        (size - self.discovered_count).saturating_sub(self.total_cats) == 0
    }

    /// Number of cats the board was set up with.
    pub fn total_cats(&self) -> (r: usize)
        ensures
            r == self.total_cats,
    {
        self.total_cats
    }

    /// Whether a cat has been uncovered.
    pub fn any_discovered_cat(&self) -> (r: bool)
        ensures
            r == exists|i: int|
                0 <= i < self.data@.len() && #[trigger] self.data@[i].discovered && self.data@[i].cat,
    {
        let mut i: usize = 0;
        while i < self.data.len()
            invariant
                0 <= i <= self.data@.len(),
                forall|j: int| 0 <= j < i ==> !(#[trigger] self.data@[j].discovered && self.data@[j].cat),
            decreases self.data@.len() - i,
        {
            if self.data[i].discovered && self.data[i].cat {
                return true;
            }
            i = i + 1;
        }
        false
    }

    /// Column and row of the first uncovered cat, reading row by row.
    pub fn find_exploded(&self) -> (r: Option<(usize, usize)>)
        requires
            self.width > 0 || !exists|i: int|
                0 <= i < self.data@.len() && #[trigger] self.data@[i].discovered && self.data@[i].cat,
        ensures
            match r {
                None => !exists|i: int|
                    0 <= i < self.data@.len() && #[trigger] self.data@[i].discovered && self.data@[i].cat,
                Some((x, y)) => exists|i: int|
                    0 <= i < self.data@.len() && #[trigger] self.data@[i].discovered && self.data@[i].cat
                        && (forall|j: int| 0 <= j < i ==> !(#[trigger] self.data@[j].discovered && self.data@[j].cat))
                        && x == i % (self.width as int) && y == i / (self.width as int),
            },
    {
        let mut i: usize = 0;
        while i < self.data.len()
            invariant
                0 <= i <= self.data@.len(),
                self.width > 0 || !exists|i: int|
                    0 <= i < self.data@.len() && #[trigger] self.data@[i].discovered && self.data@[i].cat,
                forall|j: int| 0 <= j < i ==> !(#[trigger] self.data@[j].discovered && self.data@[j].cat),
            decreases self.data@.len() - i,
        {
            if self.data[i].discovered && self.data[i].cat {
                assert(self.data@[i as int].discovered && self.data@[i as int].cat);
                return Some((i % self.width, i / self.width));
            }
            i = i + 1;
        }
        None
    }
}

// ── grid generation ──────────────────────────────────────────────────────

/// Index `i` is one of the cells of the 3x3 block around (x, y) that lie on the board.
pub open spec fn in_block(w: int, h: int, x: int, y: int, i: int) -> bool {
    exists|k: int|
        0 <= k < 9 && #[trigger] in_grid(w, h, x + off_x(k), y + off_y(k)) && i == cell(
            w,
            x + off_x(k),
            y + off_y(k),
        )
}

/// The cells that no cat may occupy when the first click is at (start_x,
/// start_y): the clicked cell and its neighbours on the board.
pub fn safe_zone(width: usize, height: usize, start_x: usize, start_y: usize) -> (safe: HashSet<usize>)
    requires
        start_x < width,
        start_y < height,
        width * height <= usize::MAX,
    ensures
        forall|i: usize|
            #[trigger] safe@.contains(i) <==> in_block(
                width as int,
                height as int,
                start_x as int,
                start_y as int,
                i as int,
            ),
{
    let ghost w = width as int;
    let ghost h = height as int;
    let mut safe: HashSet<usize> = HashSet::new();
    let mut k: usize = 0;
    while k < 9
        invariant
            0 <= k <= 9,
            w == width,
            h == height,
            start_x < width,
            start_y < height,
            width * height <= usize::MAX,
            forall|i: usize|
                #[trigger] safe@.contains(i) <==> exists|j: int|
                    0 <= j < k && #[trigger] in_grid(w, h, start_x + off_x(j), start_y + off_y(j))
                        && i == cell(w, start_x + off_x(j), start_y + off_y(j)),
        decreases 9 - k,
    {
        let ghost s0 = safe@;
        if k == 4 {
            let i = cell_index(width, height, start_x, start_y);
            safe.insert(i);
            proof {
                assert(in_grid(w, h, start_x + off_x(4), start_y + off_y(4)));
            }
        } else {
            match neighbour(width, height, start_x, start_y, k) {
                Some((nx, ny)) => {
                    let i = cell_index(width, height, nx, ny);
                    safe.insert(i);
                    proof {
                        assert(in_grid(w, h, start_x + off_x(k as int), start_y + off_y(k as int)));
                    }
                },
                None => {},
            }
        }
        proof {
            assert forall|i: usize|
                #[trigger] safe@.contains(i) <==> exists|j: int|
                    0 <= j < k + 1 && #[trigger] in_grid(w, h, start_x + off_x(j), start_y + off_y(j))
                        && i == cell(w, start_x + off_x(j), start_y + off_y(j)) by {
                if safe@.contains(i) && !s0.contains(i) {
                    assert(in_grid(w, h, start_x + off_x(k as int), start_y + off_y(k as int)));
                }
                if exists|j: int|
                    0 <= j < k + 1 && #[trigger] in_grid(w, h, start_x + off_x(j), start_y + off_y(j))
                        && i == cell(w, start_x + off_x(j), start_y + off_y(j)) {
                    let j = choose|j: int|
                        0 <= j < k + 1 && #[trigger] in_grid(w, h, start_x + off_x(j), start_y + off_y(j))
                            && i == cell(w, start_x + off_x(j), start_y + off_y(j));
                    if j < k {
                        assert(s0.contains(i));
                    }
                }
            }
        }
        k = k + 1;
    }
    safe
}

/// Cell `i` lies outside `safe`.
pub open spec fn outside_pred(safe: Set<usize>) -> spec_fn(int) -> bool {
    |i: int| !safe.contains(i as usize)
}

/// The cells `0..n` that lie outside `safe`, in increasing order: where cats may go.
pub fn free_cells(n: usize, safe: &HashSet<usize>) -> (free: Vec<usize>)
    ensures
        free@.len() == count_where(n as int, outside_pred(safe@)),
        forall|j: int| 0 <= j < free@.len() ==> #[trigger] free@[j] < n && !safe@.contains(free@[j]),
        forall|j: int, k: int| 0 <= j < k < free@.len() ==> #[trigger] free@[j] < #[trigger] free@[k],
        forall|i: usize| i < n && !safe@.contains(i) ==> #[trigger] free@.contains(i),
        distinct(free@),
{
    let mut free: Vec<usize> = Vec::new();
    let mut i: usize = 0;
    while i < n
        invariant
            0 <= i <= n,
            free@.len() == count_where(i as int, outside_pred(safe@)),
            forall|j: int| 0 <= j < free@.len() ==> #[trigger] free@[j] < i && !safe@.contains(free@[j]),
            forall|j: int, k: int| 0 <= j < k < free@.len() ==> #[trigger] free@[j] < #[trigger] free@[k],
            forall|c: usize| c < i && !safe@.contains(c) ==> #[trigger] free@.contains(c),
        decreases n - i,
    {
        if !safe.contains(&i) {
            let ghost f0 = free@;
            free.push(i);
            proof {
                assert forall|c: usize| c < i + 1 && !safe@.contains(c) implies #[trigger] free@.contains(c) by {
                    assert(free@ == f0.push(i));
                    if c < i {
                        assert(f0.contains(c));
                        let j = choose|j: int| 0 <= j < f0.len() && f0[j] == c;
                        assert(free@[j] == c);
                    } else {
                        assert(free@[f0.len() as int] == c);
                    }
                }
            }
        } else {
            proof {
                assert forall|c: usize| c < i + 1 && !safe@.contains(c) implies #[trigger] free@.contains(c) by {
                    assert(c != i);
                }
            }
        }
        i = i + 1;
    }
    assert forall|j: int, k: int|
        0 <= j < free@.len() && 0 <= k < free@.len() && j != k implies #[trigger] free@[j] != #[trigger] free@[k] by {
        if j < k {
            assert(free@[j] < free@[k]);
        } else {
            assert(free@[k] < free@[j]);
        }
    }
    free
}

/// `d` is a board of `n` covered, unmarked cells without numbers, holding
/// exactly `total` cats, each in a cell listed in `free`.
pub open spec fn placed_board(d: Seq<Field>, n: int, free: Seq<usize>, total: int) -> bool {
    &&& d.len() == n
    &&& forall|i: int|
        0 <= i < n ==> !(#[trigger] d[i]).discovered && d[i].flag == 0 && d[i].neighbours == 0
    &&& forall|i: int| 0 <= i < n && (#[trigger] d[i]).cat ==> free.contains(i as usize)
    &&& count_where(n, cat_pred(d)) == total
}

/// The cells of `pool` are distinct.
pub open spec fn distinct(pool: Seq<usize>) -> bool {
    forall|j: int, k: int| 0 <= j < pool.len() && 0 <= k < pool.len() && j != k ==> #[trigger] pool[j] != #[trigger] pool[k]
}

/// Draws that can place cats from a pool of `m` free cells: the draw at
/// position `j` picks one of the `m - j` cells then left in the pool.
pub open spec fn valid_draws(draws: Seq<usize>, m: int) -> bool {
    &&& draws.len() <= m
    &&& forall|j: int| 0 <= j < draws.len() ==> #[trigger] draws[j] < m - j
}

/// The pool of free cells left after `draws`: each draw takes the cell at its
/// position in the pool and moves the pool's last cell into that position.
pub open spec fn pool_after(free: Seq<usize>, draws: Seq<usize>) -> Seq<usize>
    decreases draws.len(),
{
    if draws.len() == 0 {
        free
    } else {
        let p = pool_after(free, draws.drop_last());
        p.update(draws.last() as int, p.last()).drop_last()
    }
}

/// The board of `n` covered, unmarked cells without numbers that `draws` make
/// from the pool `free`: a cat in each cell that a draw takes.
pub open spec fn placement(free: Seq<usize>, draws: Seq<usize>, n: int) -> Seq<Field>
    decreases draws.len(),
{
    if draws.len() == 0 {
        Seq::new(n as nat, |i: int| blank_field())
    } else {
        let prev = placement(free, draws.drop_last(), n);
        let c = pool_after(free, draws.drop_last())[draws.last() as int] as int;
        prev.update(c, Field { cat: true, ..prev[c] })
    }
}

/// The board that the draws `draws` make from the free cells `free`: for each
/// draw in turn, the cell at that position of the pool gets a cat and leaves
/// the pool, the pool's last cell taking its place.
pub fn place_cats_from(n: usize, free: &Vec<usize>, draws: &Vec<usize>) -> (data: Vec<Field>)
    requires
        distinct(free@),
        forall|j: int| 0 <= j < free@.len() ==> #[trigger] free@[j] < n,
        valid_draws(draws@, free@.len() as int),
    ensures
        data@ == placement(free@, draws@, n as int),
        placed_board(data@, n as int, free@, draws@.len() as int),
{
    let mut data: Vec<Field> = vec![Field::default(); n];
    let mut pool: Vec<usize> = free.clone();
    proof {
        assert(pool@ =~= free@);
        assert(data@ =~= Seq::new(n as nat, |i: int| blank_field()));
        lemma_count_none(n as int, cat_pred(data@));
        assert(draws@.subrange(0, 0) =~= Seq::<usize>::empty());
    }
    let mut placed: usize = 0;
    while placed < draws.len()
        invariant
            placed <= draws@.len(),
            valid_draws(draws@, free@.len() as int),
            pool@ == pool_after(free@, draws@.subrange(0, placed as int)),
            data@ == placement(free@, draws@.subrange(0, placed as int), n as int),
            pool@.len() + placed == free@.len(),
            distinct(pool@),
            forall|j: int|
                0 <= j < pool@.len() ==> free@.contains(#[trigger] pool@[j]) && pool@[j] < n
                    && !data@[pool@[j] as int].cat,
            data@.len() == n,
            forall|i: int|
                0 <= i < n ==> !(#[trigger] data@[i]).discovered && data@[i].flag == 0
                    && data@[i].neighbours == 0,
            forall|i: int| 0 <= i < n && (#[trigger] data@[i]).cat ==> free@.contains(i as usize),
            count_where(n as int, cat_pred(data@)) == placed,
        decreases draws@.len() - placed,
    {
        let ghost p0 = pool@;
        let ghost d0 = data@;
        let ghost done = draws@.subrange(0, placed as int);
        let ghost next = draws@.subrange(0, placed as int + 1);
        let k = draws[placed];
        assert(k < free@.len() - placed);
        let id = pool.swap_remove(k);
        proof {
            assert(next.drop_last() =~= done);
            assert(next.last() == k);
            assert(pool@ == pool_after(free@, next));
            assert(p0[k as int] == id);
            assert forall|j: int| 0 <= j < pool@.len() implies #[trigger] pool@[j] != id by {
                if j == k {
                    assert(pool@[j] == p0[p0.len() - 1]);
                } else {
                    assert(pool@[j] == p0[j]);
                }
            }
            assert forall|j: int, m: int|
                0 <= j < pool@.len() && 0 <= m < pool@.len() && j != m implies #[trigger] pool@[j]
                != #[trigger] pool@[m] by {
                let jj = if j == k { p0.len() - 1 } else { j };
                let mm = if m == k { p0.len() - 1 } else { m };
                assert(pool@[j] == p0[jj]);
                assert(pool@[m] == p0[mm]);
            }
            assert forall|j: int| 0 <= j < pool@.len() implies free@.contains(#[trigger] pool@[j]) && pool@[j] < n
                && !d0[pool@[j] as int].cat by {
                let jj = if j == k { p0.len() - 1 } else { j };
                assert(pool@[j] == p0[jj]);
            }
        }
        let f = data[id];
        data.set(id, Field { cat: true, ..f });
        proof {
            assert(data@ == placement(free@, next, n as int));
            lemma_count_step(n as int, cat_pred(d0), cat_pred(data@), id as int);
            assert forall|i: int| 0 <= i < n && (#[trigger] data@[i]).cat implies free@.contains(i as usize) by {
                if i != id {
                    assert(d0[i] == data@[i]);
                }
            }
            assert forall|j: int| 0 <= j < pool@.len() implies free@.contains(#[trigger] pool@[j]) && pool@[j] < n
                && !data@[pool@[j] as int].cat by {
                assert(pool@[j] != id);
            }
        }
        placed = placed + 1;
    }
    proof {
        assert(draws@.subrange(0, placed as int) =~= draws@);
    }
    data
}

/// What the draws leave: the pool holds, without repeats, exactly the free cells
/// that have no cat yet, one fewer per draw, and the board is covered,
/// unmarked, with a cat in each cell taken.
proof fn lemma_pool_after(free: Seq<usize>, draws: Seq<usize>, n: int)
    requires
        distinct(free),
        forall|j: int| 0 <= j < free.len() ==> #[trigger] free[j] < n,
        valid_draws(draws, free.len() as int),
        0 <= n,
    ensures
        pool_after(free, draws).len() == free.len() - draws.len(),
        distinct(pool_after(free, draws)),
        forall|c: usize|
            c < n ==> (#[trigger] pool_after(free, draws).contains(c) <==> (free.contains(c)
                && !placement(free, draws, n)[c as int].cat)),
        forall|j: int|
            0 <= j < pool_after(free, draws).len() ==> #[trigger] pool_after(free, draws)[j] < n,
        placed_board(placement(free, draws, n), n, free, draws.len() as int),
    decreases draws.len(),
{
    if draws.len() == 0 {
        let b = placement(free, draws, n);
        assert forall|i: int| 0 <= i < n implies !(#[trigger] cat_pred(b)(i)) by {}
        lemma_count_none(n, cat_pred(b));
        assert forall|c: usize| c < n implies (#[trigger] pool_after(free, draws).contains(c) <==> (free.contains(c)
            && !placement(free, draws, n)[c as int].cat)) by {}
    } else {
        let d0 = draws.drop_last();
        assert(valid_draws(d0, free.len() as int)) by {
            assert forall|j: int| 0 <= j < d0.len() implies #[trigger] d0[j] < free.len() - j by {
                assert(d0[j] == draws[j]);
            }
        }
        lemma_pool_after(free, d0, n);
        let p0 = pool_after(free, d0);
        let b0 = placement(free, d0, n);
        let k = draws.last() as int;
        assert(draws[draws.len() - 1] < free.len() - (draws.len() - 1));
        let c = p0[k];
        let p = pool_after(free, draws);
        let b = placement(free, draws, n);
        assert(p == p0.update(k, p0.last()).drop_last());
        assert(p0.contains(c));
        assert(!b0[c as int].cat);
        assert forall|j: int| 0 <= j < p.len() implies #[trigger] p[j] != c && p[j] == p0[if j == k {
            p0.len() - 1
        } else {
            j
        }] by {}
        assert forall|j: int, m: int|
            0 <= j < p.len() && 0 <= m < p.len() && j != m implies #[trigger] p[j] != #[trigger] p[m] by {
            let jj = if j == k { p0.len() - 1 } else { j };
            let mm = if m == k { p0.len() - 1 } else { m };
            assert(p[j] == p0[jj]);
            assert(p[m] == p0[mm]);
        }
        assert forall|e: usize| e < n implies (#[trigger] p.contains(e) <==> (free.contains(e) && !b[e as int].cat)) by {
            if p.contains(e) {
                let j = choose|j: int| 0 <= j < p.len() && p[j] == e;
                let jj = if j == k { p0.len() - 1 } else { j };
                assert(p0[jj] == e);
                assert(p0.contains(e));
            }
            if free.contains(e) && !b[e as int].cat {
                assert(e != c);
                assert(b[e as int] == b0[e as int]);
                assert(p0.contains(e));
                let j = choose|j: int| 0 <= j < p0.len() && p0[j] == e;
                if j == p0.len() - 1 {
                    assert(p[k] == e);
                } else {
                    assert(j != k);
                    assert(p[j] == e);
                }
            }
        }
        lemma_count_step(n, cat_pred(b0), cat_pred(b), c as int);
        assert forall|i: int| 0 <= i < n && (#[trigger] b[i]).cat implies free.contains(i as usize) by {
            if i != c {
                assert(b[i] == b0[i]);
            }
        }
    }
}

/// Every layout can come out of the draws: any board of `n` covered, unmarked
/// cells with `total` cats, all in free cells, is the placement of some valid
/// draws.
pub proof fn lemma_every_layout_can_be_drawn(free: Seq<usize>, n: int, b: Seq<Field>, total: int)
    requires
        n <= usize::MAX,
        free.len() <= usize::MAX,
        distinct(free),
        forall|j: int| 0 <= j < free.len() ==> #[trigger] free[j] < n,
        placed_board(b, n, free, total),
    ensures
        exists|draws: Seq<usize>|
            #![trigger placement(free, draws, n)]
            valid_draws(draws, free.len() as int) && draws.len() == total && placement(free, draws, n) == b,
    decreases total,
{
    lemma_count_bounds(n, cat_pred(b));
    if total <= 0 {
        assert forall|i: int| 0 <= i < n implies !b[i].cat by {
            if b[i].cat {
                lemma_count_pos(n, cat_pred(b), i);
            }
        }
        let d = Seq::<usize>::empty();
        assert(placement(free, d, n) =~= b);
    } else {
        let c = choose|c: int| 0 <= c < n && b[c].cat;
        assert(exists|c: int| 0 <= c < n && b[c].cat) by {
            if !exists|c: int| 0 <= c < n && b[c].cat {
                assert forall|i: int| 0 <= i < n implies !#[trigger] cat_pred(b)(i) by {}
                lemma_count_none(n, cat_pred(b));
            }
        }
        let b1 = b.update(c, Field { cat: false, ..b[c] });
        lemma_count_step(n, cat_pred(b1), cat_pred(b), c);
        assert forall|i: int| 0 <= i < n && (#[trigger] b1[i]).cat implies free.contains(i as usize) by {
            assert(b1[i] == b[i]);
        }
        lemma_every_layout_can_be_drawn(free, n, b1, total - 1);
        let d1 = choose|draws: Seq<usize>|
            valid_draws(draws, free.len() as int) && draws.len() == total - 1 && placement(free, draws, n) == b1;
        lemma_pool_after(free, d1, n);
        let p1 = pool_after(free, d1);
        assert(placement(free, d1, n) == b1);
        assert(!b1[c].cat);
        assert(free.contains(c as usize));
        assert(((c as usize) as int) == c);
        assert(p1.contains(c as usize));
        let k = choose|k: int| 0 <= k < p1.len() && p1[k] == c as usize;
        let d = d1.push(k as usize);
        assert(d.drop_last() =~= d1);
        assert(valid_draws(d, free.len() as int)) by {
            assert forall|j: int| 0 <= j < d.len() implies #[trigger] d[j] < free.len() - j by {
                if j < d1.len() {
                    assert(d[j] == d1[j]);
                }
            }
        }
        assert(d.last() == k as usize);
        assert((k as usize) as int == k);
        assert(pool_after(free, d.drop_last())[d.last() as int] == c as usize);
        assert(placement(free, d.drop_last(), n) == b1);
        assert(placement(free, d, n) == b1.update(c, Field { cat: true, ..b1[c] }));
        assert(placement(free, d, n) =~= b);
    }
}

/// A board of `n` covered cells with `total_cats` cats: the draws are made at
/// random, each among the positions of the cells of `free` still without a
/// cat, and `place_cats_from` places the cats.
pub fn place_cats(rng: &mut StdRng, n: usize, free: &Vec<usize>, total_cats: usize) -> (data: Vec<Field>)
    requires
        total_cats <= free@.len(),
        forall|j: int| 0 <= j < free@.len() ==> #[trigger] free@[j] < n,
        distinct(free@),
    ensures
        exists|draws: Seq<usize>|
            #![trigger placement(free@, draws, n as int)]
            valid_draws(draws, free@.len() as int) && draws.len() == total_cats && data@ == placement(
                free@,
                draws,
                n as int,
            ),
        placed_board(data@, n as int, free@, total_cats as int),
{
    let m = free.len();
    let mut draws: Vec<usize> = Vec::new();
    let mut j: usize = 0;
    while j < total_cats
        invariant
            j <= total_cats,
            total_cats <= m,
            m == free@.len(),
            draws@.len() == j,
            valid_draws(draws@, m as int),
        decreases total_cats - j,
    {
        let ghost d0 = draws@;
        let r = random_index(rng, m - j);
        draws.push(r);
        proof {
            assert forall|q: int| 0 <= q < draws@.len() implies #[trigger] draws@[q] < m - q by {
                if q < j {
                    assert(draws@[q] == d0[q]);
                }
            }
        }
        j = j + 1;
    }
    place_cats_from(n, free, &draws)
}

/// Cats placed in the free cells never land in the cells that `free` leaves out:
/// with `free` outside `safe`, a placed board has no cat in `safe`.
pub proof fn lemma_placement_spares_safe(d: Seq<Field>, n: int, free: Seq<usize>, total: int, safe: Set<usize>)
    requires
        placed_board(d, n, free, total),
        forall|j: int| 0 <= j < free.len() ==> !safe.contains(#[trigger] free[j]),
    ensures
        forall|i: int| 0 <= i < n && safe.contains(i as usize) ==> !(#[trigger] d[i]).cat,
{
    assert forall|i: int| 0 <= i < n && safe.contains(i as usize) implies !(#[trigger] d[i]).cat by {
        if d[i].cat {
            let j = choose|j: int| 0 <= j < free.len() && free[j] == i as usize;
            assert(!safe.contains(free[j]));
        }
    }
}

/// The number that `fill_neighbour_counts` writes into the cell at (x, y): the
/// cats among its neighbours, plus one when the cell itself holds a cat.
pub open spec fn block_cats(data: Seq<Field>, w: int, h: int, x: int, y: int) -> int {
    nbr_count(w, h, x, y, cat_pred(data)) + if data[cell(w, x, y)].cat {
        1int
    } else {
        0int
    }
}

/// Writes into every cell the number of cats in the 3x3 block around it.
pub fn fill_neighbour_counts(data: &mut Vec<Field>, width: usize, height: usize)
    requires
        old(data)@.len() == width * height,
    ensures
        final(data)@.len() == old(data)@.len(),
        forall|i: int|
            0 <= i < old(data)@.len() ==> (#[trigger] final(data)@[i]).cat == old(data)@[i].cat
                && final(data)@[i].discovered == old(data)@[i].discovered && final(data)@[i].flag
                == old(data)@[i].flag,
        forall|x: int, y: int|
            #[trigger] in_grid(width as int, height as int, x, y) ==> final(data)@[cell(
                width as int,
                x,
                y,
            )].neighbours == block_cats(old(data)@, width as int, height as int, x, y),
        grid_wf(final(data)@, width as int, height as int),
{
    let ghost w = width as int;
    let ghost h = height as int;
    let ghost d0 = data@;
    let len = data.len();
    let mut y: usize = 0;
    while y < height
        invariant
            0 <= y <= height,
            w == width,
            h == height,
            d0.len() == w * h,
            len == w * h,
            data@.len() == d0.len(),
            forall|i: int|
                0 <= i < d0.len() ==> (#[trigger] data@[i]).cat == d0[i].cat && data@[i].discovered
                    == d0[i].discovered && data@[i].flag == d0[i].flag,
            forall|x2: int, y2: int|
                #[trigger] in_grid(w, h, x2, y2) && y2 < y ==> data@[cell(w, x2, y2)].neighbours
                    == block_cats(d0, w, h, x2, y2),
        decreases height - y,
    {
        let mut x: usize = 0;
        while x < width
            invariant
                0 <= x <= width,
                0 <= y < height,
                w == width,
                h == height,
                d0.len() == w * h,
                len == w * h,
                data@.len() == d0.len(),
                forall|i: int|
                    0 <= i < d0.len() ==> (#[trigger] data@[i]).cat == d0[i].cat && data@[i].discovered
                        == d0[i].discovered && data@[i].flag == d0[i].flag,
                forall|x2: int, y2: int|
                    #[trigger] in_grid(w, h, x2, y2) && (y2 < y || (y2 == y && x2 < x))
                        ==> data@[cell(w, x2, y2)].neighbours == block_cats(d0, w, h, x2, y2),
            decreases width - x,
        {
            let idx = cell_index(width, height, x, y);
            let mut count: u8 = 0;
            let mut k: usize = 0;
            while k < 9
                invariant
                    0 <= k <= 9,
                    x < width,
                    y < height,
                    w == width,
                    h == height,
                    idx == cell(w, x as int, y as int),
                    idx < d0.len(),
                    d0.len() == w * h,
                    len == w * h,
                    data@.len() == d0.len(),
                    forall|i: int|
                        0 <= i < d0.len() ==> (#[trigger] data@[i]).cat == d0[i].cat,
                    count == nbr_count_upto(w, h, x as int, y as int, cat_pred(d0), k as int) + if k
                        > 4 && d0[idx as int].cat {
                        1int
                    } else {
                        0int
                    },
                decreases 9 - k,
            {
                proof {
                    lemma_nbr_count_bounds(w, h, x as int, y as int, cat_pred(d0), k as int);
                }
                if k == 4 {
                    if data[idx].cat {
                        count = count + 1;
                    }
                } else {
                    match neighbour(width, height, x, y, k) {
                        Some((nx, ny)) => {
                            let nidx = cell_index(width, height, nx, ny);
                            assert(nidx == nbr_at(w, x as int, y as int, k as int));
                            if data[nidx].cat {
                                count = count + 1;
                            }
                        },
                        None => {},
                    }
                }
                k = k + 1;
            }
            let ghost dx = data@;
            let f = data[idx];
            data.set(idx, Field { neighbours: count, ..f });
            proof {
                assert forall|x2: int, y2: int|
                    #[trigger] in_grid(w, h, x2, y2) && (y2 < y || (y2 == y && x2 < x + 1))
                        implies data@[cell(w, x2, y2)].neighbours == block_cats(d0, w, h, x2, y2) by {
                    lemma_cell_bounds(w, h, x2, y2);
                    if cell(w, x2, y2) == idx {
                        crate::grid::lemma_cell_injective(w, h, x2, y2, x as int, y as int);
                    } else {
                        assert(dx[cell(w, x2, y2)] == data@[cell(w, x2, y2)]);
                        if y2 == y && x2 == x {
                        }
                    }
                }
            }
            x = x + 1;
        }
        y = y + 1;
    }
    proof {
        assert forall|x: int, y: int| in_grid(w, h, x, y) && !(#[trigger] data@[cell(w, x, y)]).cat implies data@[cell(w, x, y)].neighbours
            as int == nbr_count(w, h, x, y, cat_pred(data@)) by {
            assert(in_grid(w, h, x, y));
            lemma_cell_bounds(w, h, x, y);
            assert forall|i: int| 0 <= i < 9 && #[trigger] nbr_ok(w, h, x, y, i) implies cat_pred(d0)(
                nbr_at(w, x, y, i),
            ) == cat_pred(data@)(nbr_at(w, x, y, i)) by {
                lemma_cell_bounds(w, h, x + off_x(i), y + off_y(i));
            }
            lemma_nbr_count_ext(w, h, x, y, cat_pred(d0), cat_pred(data@), 9);
        }
    }
}

/// Finishes a candidate board whose cats have been placed: writes the numbers,
/// and keeps the board when it holds exactly `total_cats` cats and pure logic
/// clears it from the click at (start_x, start_y).
pub fn finish_candidate(
    data: Vec<Field>,
    width: usize,
    height: usize,
    total_cats: usize,
    start_x: usize,
    start_y: usize,
) -> (r: Option<Vec<Field>>)
    requires
        data@.len() == width * height,
        start_x < width,
        start_y < height,
    ensures
        match r {
            Some(board) => {
                &&& board@ == filled(data@, width as int, height as int)
                &&& board@.len() == data@.len()
                &&& forall|i: int|
                    0 <= i < data@.len() ==> (#[trigger] board@[i]).cat == data@[i].cat
                        && board@[i].discovered == data@[i].discovered && board@[i].flag
                        == data@[i].flag
                &&& forall|x: int, y: int|
                    #[trigger] in_grid(width as int, height as int, x, y) ==> board@[cell(
                        width as int,
                        x,
                        y,
                    )].neighbours == block_cats(data@, width as int, height as int, x, y)
                &&& count_where(data@.len() as int, cat_pred(data@)) == total_cats
                &&& solvable(
                    board@,
                    width as int,
                    height as int,
                    total_cats as int,
                    start_x as int,
                    start_y as int,
                )
            },
            None => count_where(data@.len() as int, cat_pred(data@)) != total_cats || !solvable(
                filled(data@, width as int, height as int),
                width as int,
                height as int,
                total_cats as int,
                start_x as int,
                start_y as int,
            ),
        },
{
    let ghost d0 = data@;
    let mut data = data;
    fill_neighbour_counts(&mut data, width, height);
    proof {
        lemma_filled(d0, data@, width as int, height as int);
    }
    let n = data.len();
    let mut cats: usize = 0;
    let mut i: usize = 0;
    while i < n
        invariant
            0 <= i <= n,
            n == data@.len(),
            cats == count_where(i as int, cat_pred(data@)),
            cats <= i,
        decreases n - i,
    {
        if data[i].cat {
            cats = cats + 1;
        }
        i = i + 1;
    }
    proof {
        lemma_count_ext(n as int, cat_pred(data@), cat_pred(d0));
    }
    if cats != total_cats {
        return None;
    }
    if grid_is_solvable(&data, width, height, total_cats, start_x, start_y) {
        Some(data)
    } else {
        None
    }
}

/// The board `data` with every number written in, as `fill_neighbour_counts` does.
pub open spec fn filled(data: Seq<Field>, w: int, h: int) -> Seq<Field> {
    Seq::new(
        data.len(),
        |i: int| Field { neighbours: block_cats(data, w, h, i % w, i / w) as u8, ..data[i] },
    )
}

proof fn lemma_filled(d0: Seq<Field>, d1: Seq<Field>, w: int, h: int)
    requires
        0 <= w,
        0 <= h,
        d0.len() == w * h,
        d1.len() == d0.len(),
        forall|i: int|
            0 <= i < d0.len() ==> (#[trigger] d1[i]).cat == d0[i].cat && d1[i].discovered
                == d0[i].discovered && d1[i].flag == d0[i].flag,
        forall|x: int, y: int|
            #[trigger] in_grid(w, h, x, y) ==> d1[cell(w, x, y)].neighbours == block_cats(d0, w, h, x, y),
    ensures
        d1 == filled(d0, w, h),
{
    assert forall|i: int| 0 <= i < d0.len() implies #[trigger] d1[i] == filled(d0, w, h)[i] by {
        assert(w > 0) by (nonlinear_arith)
            requires
                0 <= i < w * h,
                0 <= w,
                0 <= h,
        ;
        crate::grid::lemma_cell_of_index(w, h, i);
        assert(in_grid(w, h, i % w, i / w));
    }
    assert(d1 =~= filled(d0, w, h));
}

/// One candidate board for a first click at (start_x, start_y): `total_cats`
/// cats placed at random in the cells of `free`, the numbers written in. The
/// board is returned when pure logic clears it from that click, and `None`
/// otherwise.
pub fn generate_candidate(
    rng: &mut StdRng,
    free: &Vec<usize>,
    width: usize,
    height: usize,
    total_cats: usize,
    start_x: usize,
    start_y: usize,
) -> (r: Option<Vec<Field>>)
    requires
        width * height <= usize::MAX,
        start_x < width,
        start_y < height,
        total_cats <= free@.len(),
        forall|j: int| 0 <= j < free@.len() ==> #[trigger] free@[j] < width * height,
        distinct(free@),
    ensures
        exists|draws: Seq<usize>|
            #![trigger placement(free@, draws, width * height)]
            valid_draws(draws, free@.len() as int) && draws.len() == total_cats && placed_board(
                placement(free@, draws, width * height),
                width * height,
                free@,
                total_cats as int,
            ) && match r {
                Some(board) => board@ == filled(
                    placement(free@, draws, width * height),
                    width as int,
                    height as int,
                ) && solvable(
                    board@,
                    width as int,
                    height as int,
                    total_cats as int,
                    start_x as int,
                    start_y as int,
                ),
                None => !solvable(
                    filled(placement(free@, draws, width * height), width as int, height as int),
                    width as int,
                    height as int,
                    total_cats as int,
                    start_x as int,
                    start_y as int,
                ),
            },
{
    let n = width * height;
    let data = place_cats(rng, n, free, total_cats);
    let ghost d = data@;
    let ghost draws = choose|draws: Seq<usize>|
        valid_draws(draws, free@.len() as int) && draws.len() == total_cats && d == placement(
            free@,
            draws,
            n as int,
        );
    let r = finish_candidate(data, width, height, total_cats, start_x, start_y);
    proof {
        match &r {
            Some(board) => {
                assert(filled(d, width as int, height as int) == board@);
            },
            None => {
                assert(!solvable(
                    filled(d, width as int, height as int),
                    width as int,
                    height as int,
                    total_cats as int,
                    start_x as int,
                    start_y as int,
                ));
            },
        }
        assert(placement(free@, draws, width * height) == d);
    }
    r
}

} // verus!
