//! The game-state engine: mine placement, flood-fill opening, flag
//! bookkeeping, chorded neighbor depression, and win/loss detection.
//!
//! Cells are addressed by `(x, y)` pairs with `0 <= x < width` and
//! `0 <= y < height`; internally each cell is stored as the row-major index
//! `y * width + x` in hash sets of indices.

use crate::utils::cell::{glyph, Cell};
use std::collections::hash_map::RandomState;
use std::collections::HashSet;
use std::hash::{BuildHasher, Hasher};
use vstd::prelude::*;
use vstd::set_lib::lemma_len_subset;

verus! {

/// Up-to-8-connected grid adjacency; a cell is not adjacent to itself and
/// there is no wraparound (callers combine this with bounds checks).
pub open spec fn adjacent(a: (int, int), b: (int, int)) -> bool {
    &&& -1 <= a.0 - b.0 <= 1
    &&& -1 <= a.1 - b.1 <= 1
    &&& a != b
}

/// The mathematical cell behind an executable coordinate pair.
pub open spec fn cell_of(p: (usize, usize)) -> (int, int) {
    (p.0 as int, p.1 as int)
}

/// The set of row-major indices of an `n`-cell grid.
pub open spec fn below(n: int) -> Set<usize> {
    Set::new(|i: usize| i < n)
}

/// A finite set whose elements all lie below `n` has at most `n` elements.
proof fn lemma_bounded_set_len(s: Set<usize>, n: nat)
    requires
        s.finite(),
        n <= usize::MAX,
        forall|i: usize| s.contains(i) ==> i < n,
    ensures
        s.len() <= n,
    decreases n,
{
    if n == 0 {
        assert(s =~= Set::empty());
    } else {
        let m = (n - 1) as usize;
        if s.contains(m) {
            lemma_bounded_set_len(s.remove(m), (n - 1) as nat);
        } else {
            lemma_bounded_set_len(s, (n - 1) as nat);
        }
    }
}

/// `below(n)` has exactly `n` elements.
proof fn lemma_below_len(n: int)
    requires
        0 <= n <= usize::MAX,
    ensures
        below(n).finite(),
        below(n).len() == n,
    decreases n,
{
    if n == 0 {
        assert(below(0) =~= Set::empty());
    } else {
        lemma_below_len(n - 1);
        assert(below(n) =~= below(n - 1).insert((n - 1) as usize));
    }
}

/// Removing a finite subset removes exactly its cardinality.
proof fn lemma_len_difference_subset(s: Set<usize>, t: Set<usize>)
    requires
        s.finite(),
        t.finite(),
        t.subset_of(s),
    ensures
        s.difference(t).len() == s.len() - t.len(),
    decreases t.len(),
{
    if t.len() == 0 {
        assert(t =~= Set::empty());
        assert(s.difference(t) =~= s);
    } else {
        let a = t.choose();
        assert(s.difference(t) =~= s.remove(a).difference(t.remove(a)));
        lemma_len_difference_subset(s.remove(a), t.remove(a));
    }
}

/// Relies on `std::collections::hash_map::RandomState`: `RandomState::new`
/// seeds every instance differently, so finishing a hasher built from a fresh
/// instance yields a value that varies from call to call. Nothing is promised
/// of the result; callers treat it as an arbitrary seed.
#[verifier::external_body]
fn fresh_seed() -> u64 {
    RandomState::new().build_hasher().finish()
}

/// One step of a xorshift pseudo-random sequence; any `u64` may come out,
/// callers only rely on that.
fn next_seed(s: u64) -> u64 {
    let x: u64 = if s == 0 {
        0x9E3779B97F4A7C15
    } else {
        s
    };
    let x = x ^ (x << 13);
    let x = x ^ (x >> 7);
    x ^ (x << 17)
}

/// Draws `mines_count` distinct row-major indices of a `width` by `height`
/// grid, by repeatedly extracting a pseudo-randomly chosen entry from the
/// vector of still-unchosen indices.
fn gen_rand_mines(width: usize, height: usize, mines_count: usize) -> (r: HashSet<usize>)
    requires
        1 <= width,
        1 <= height,
        width * height <= usize::MAX,
        1 <= mines_count <= width * height,
    ensures
        r@.finite(),
        r@.len() == mines_count,
        forall|i: usize| r@.contains(i) ==> i < width * height,
{
    let total = width * height;
    let mut cells: Vec<usize> = Vec::new();
    let mut i: usize = 0;
    while i < total
        invariant
            i <= total,
            cells@.len() == i,
            forall|a: int| 0 <= a < i ==> cells@[a] == a,
        decreases total - i,
    {
        cells.push(i);
        i = i + 1;
    }
    let mut seed: u64 = fresh_seed();
    let mut mines: HashSet<usize> = HashSet::new();
    let mut k: usize = 0;
    while k < mines_count
        invariant
            k <= mines_count <= total <= usize::MAX,
            cells@.len() == total - k,
            forall|a: int| 0 <= a < cells@.len() ==> #[trigger] cells@[a] < total,
            forall|a: int, b: int|
                0 <= a < b < cells@.len() ==> cells@[a] != cells@[b],
            forall|a: int|
                0 <= a < cells@.len() ==> !mines@.contains(#[trigger] cells@[a]),
            mines@.finite(),
            mines@.len() == k,
            forall|i: usize| mines@.contains(i) ==> i < total,
        decreases mines_count - k,
    {
        seed = next_seed(seed);
        let span = cells.len();
        let j = (seed % (span as u64)) as usize;
        let chosen = cells.swap_remove(j);
        mines.insert(chosen);
        k = k + 1;
    }
    mines
}

/// The Minesweeper engine: the sole stateful entity of the library. It owns
/// the board dimensions, the hidden mine set, and the player-visible open,
/// flagged and transiently depressed cells, plus the terminal game-over flag.
pub struct Minesweeper {
    pub width: usize,
    pub height: usize,
    pub mines: HashSet<usize>,
    pub open_cells: HashSet<usize>,
    pub flagged_cells: HashSet<usize>,
    pub depressed_cells: HashSet<usize>,
    pub game_over: bool,
}

impl Minesweeper {
    /// Row-major indices of the hidden mines.
    pub open spec fn mine_set(self) -> Set<usize> {
        self.mines@
    }

    /// Row-major indices of the cells the player has revealed.
    pub open spec fn open_set(self) -> Set<usize> {
        self.open_cells@
    }

    /// Row-major indices of the cells the player has flagged.
    pub open spec fn flag_set(self) -> Set<usize> {
        self.flagged_cells@
    }

    /// Row-major indices of the cells transiently depressed by a partial
    /// chord gesture.
    pub open spec fn pressed_set(self) -> Set<usize> {
        self.depressed_cells@
    }

    /// Whether an open action has revealed a mine.
    pub open spec fn is_over(self) -> bool {
        self.game_over
    }

    /// Number of cells of the grid.
    pub open spec fn total(self) -> int {
        self.width * self.height
    }

    /// Whether a cell lies on the grid.
    pub open spec fn in_b(self, c: (int, int)) -> bool {
        0 <= c.0 < self.width && 0 <= c.1 < self.height
    }

    /// Row-major index of a cell.
    pub open spec fn index_at(self, c: (int, int)) -> int {
        c.1 * self.width + c.0
    }

    /// Whether an in-bounds cell hides a mine.
    pub open spec fn is_mine(self, c: (int, int)) -> bool {
        self.in_b(c) && self.mine_set().contains(self.index_at(c) as usize)
    }

    /// Whether an in-bounds cell has been revealed.
    pub open spec fn is_open(self, c: (int, int)) -> bool {
        self.in_b(c) && self.open_set().contains(self.index_at(c) as usize)
    }

    /// Whether an in-bounds cell is flagged.
    pub open spec fn is_flagged(self, c: (int, int)) -> bool {
        self.in_b(c) && self.flag_set().contains(self.index_at(c) as usize)
    }

    /// Whether an in-bounds cell is depressed.
    pub open spec fn is_pressed(self, c: (int, int)) -> bool {
        self.in_b(c) && self.pressed_set().contains(self.index_at(c) as usize)
    }

    /// 1 if the cell hides a mine, else 0.
    pub open spec fn mine_ind(self, c: (int, int)) -> int {
        if self.is_mine(c) {
            1
        } else {
            0
        }
    }

    /// 1 if the cell is flagged, else 0.
    pub open spec fn flag_ind(self, c: (int, int)) -> int {
        if self.is_flagged(c) {
            1
        } else {
            0
        }
    }

    /// Number of mines among the up-to-8 neighbors of `c` (border cells have
    /// fewer neighbors; the out-of-bounds ones contribute 0).
    pub open spec fn adj_mine_count(self, c: (int, int)) -> int {
        self.mine_ind((c.0 - 1, c.1 - 1)) + self.mine_ind((c.0, c.1 - 1)) + self.mine_ind(
            (c.0 + 1, c.1 - 1),
        ) + self.mine_ind((c.0 - 1, c.1)) + self.mine_ind((c.0 + 1, c.1)) + self.mine_ind(
            (c.0 - 1, c.1 + 1),
        ) + self.mine_ind((c.0, c.1 + 1)) + self.mine_ind((c.0 + 1, c.1 + 1))
    }

    /// Number of flags among the up-to-8 neighbors of `c`.
    pub open spec fn adj_flag_count(self, c: (int, int)) -> int {
        self.flag_ind((c.0 - 1, c.1 - 1)) + self.flag_ind((c.0, c.1 - 1)) + self.flag_ind(
            (c.0 + 1, c.1 - 1),
        ) + self.flag_ind((c.0 - 1, c.1)) + self.flag_ind((c.0 + 1, c.1)) + self.flag_ind(
            (c.0 - 1, c.1 + 1),
        ) + self.flag_ind((c.0, c.1 + 1)) + self.flag_ind((c.0 + 1, c.1 + 1))
    }

    /// The state invariant: a non-degenerate grid whose bookkeeping sets hold
    /// only in-bounds indices; mines are placed; flags never outnumber mines
    /// and never sit on open cells; depressed cells are neither open nor
    /// flagged; and no mine is open until the game is lost.
    pub open spec fn inv(self) -> bool {
        &&& 1 <= self.width
        &&& 1 <= self.height
        &&& self.width * self.height <= usize::MAX
        &&& self.mine_set().finite()
        &&& self.open_set().finite()
        &&& self.flag_set().finite()
        &&& self.pressed_set().finite()
        &&& forall|i: usize| self.mine_set().contains(i) ==> i < self.total()
        &&& forall|i: usize| self.open_set().contains(i) ==> i < self.total()
        &&& forall|i: usize| self.flag_set().contains(i) ==> i < self.total()
        &&& forall|i: usize| self.pressed_set().contains(i) ==> i < self.total()
        &&& 1 <= self.mine_set().len() <= self.total()
        &&& self.flag_set().len() <= self.mine_set().len()
        &&& self.flag_set().disjoint(self.open_set())
        &&& self.pressed_set().disjoint(self.open_set())
        &&& self.pressed_set().disjoint(self.flag_set())
        &&& !self.is_over() ==> self.open_set().disjoint(self.mine_set())
    }

    /// A cell the player could reveal: on the grid, still closed, not flagged.
    pub open spec fn openable(self, c: (int, int)) -> bool {
        self.in_b(c) && !self.is_open(c) && !self.is_flagged(c)
    }

    /// A cell through which a flood-fill keeps going: openable, safe, and
    /// with no adjacent mines.
    pub open spec fn expandable(self, c: (int, int)) -> bool {
        self.openable(c) && !self.is_mine(c) && self.adj_mine_count(c) == 0
    }

    /// A flood path: it begins in `starts`, consecutive cells are adjacent,
    /// every cell but the last keeps the flood going, and the last one can be
    /// revealed.
    pub open spec fn is_flood_path(self, starts: Set<(int, int)>, p: Seq<(int, int)>) -> bool {
        &&& p.len() >= 1
        &&& starts.contains(p[0])
        &&& self.openable(p.last())
        &&& forall|i: int| 0 <= i < p.len() - 1 ==> adjacent(#[trigger] p[i], p[i + 1])
        &&& forall|i: int| 0 <= i < p.len() - 1 ==> self.expandable(#[trigger] p[i])
    }

    /// Whether a flood starting at the cells of `starts` reveals `q`.
    /// Opaque: proofs unfold it only where a path is built or consumed.
    #[verifier::opaque]
    pub open spec fn reaches(self, starts: Set<(int, int)>, q: (int, int)) -> bool {
        exists|p: Seq<(int, int)>| self.is_flood_path(starts, p) && p.last() == q
    }

    /// The start cells of a chord on `c`: its closed, unflagged neighbors.
    pub open spec fn chord_starts(self, c: (int, int)) -> Set<(int, int)> {
        Set::new(|q: (int, int)| adjacent(c, q) && self.openable(q))
    }

    /// The state one cell presents at render time, by the fixed precedence:
    /// a closed cell shows the mine only after a loss, else its flag, else
    /// the pressed hint, else stays blank; an open cell shows the explosion,
    /// a zero count, or its count.
    pub open spec fn cell_state(self, c: (int, int)) -> Cell {
        if !self.is_open(c) {
            if self.is_over() && self.is_mine(c) {
                Cell::Mine
            } else if self.is_flagged(c) {
                Cell::Flag
            } else if self.is_pressed(c) {
                Cell::Pressed
            } else {
                Cell::Closed
            }
        } else if self.is_mine(c) {
            Cell::Exploded
        } else if self.adj_mine_count(c) == 0 {
            Cell::Opened
        } else {
            Cell::Num(self.adj_mine_count(c) as u8)
        }
    }

    /// The glyphs of row `y` up to column `x`.
    pub open spec fn row_text(self, y: int, x: int) -> Seq<char>
        decreases x,
    {
        if x <= 0 {
            Seq::empty()
        } else {
            self.row_text(y, x - 1) + glyph(self.cell_state((x - 1, y)))
        }
    }

    /// The first `y` rows of the board's text, each ended by a newline.
    pub open spec fn rows_text(self, y: int) -> Seq<char>
        decreases y,
    {
        if y <= 0 {
            Seq::empty()
        } else {
            self.rows_text(y - 1) + self.row_text(y - 1, self.width as int) + seq!['\n']
        }
    }

    /// The whole board as text, one glyph per cell, one line per row.
    pub open spec fn text(self) -> Seq<char> {
        self.rows_text(self.height as int)
    }

    /// The win condition: every cell that is not a mine has been opened,
    /// measured by counting (the sets involved make the two readings agree,
    /// see `lemma_finished_iff_all_safe_open`).
    pub open spec fn finished(self) -> bool {
        self.total() - self.open_set().len() == self.mine_set().len()
    }

    /// Creates a board with `mines_count` mines placed uniformly at random
    /// over the grid, all cells closed, no flags, and the game running.
    pub fn new(width: usize, height: usize, mines_count: usize) -> (r: Self)
        requires
            1 <= width,
            1 <= height,
            width * height <= usize::MAX,
            1 <= mines_count <= width * height,
        ensures
            r.inv(),
            r.width == width,
            r.height == height,
            r.mine_set().len() == mines_count,
            r.open_set() == Set::<usize>::empty(),
            r.flag_set() == Set::<usize>::empty(),
            r.pressed_set() == Set::<usize>::empty(),
            !r.is_over(),
    {
        Self {
            width,
            height,
            mines: gen_rand_mines(width, height, mines_count),
            open_cells: HashSet::new(),
            flagged_cells: HashSet::new(),
            depressed_cells: HashSet::new(),
            game_over: false,
        }
    }

    /// Re-places the same number of mines at random and clears all player
    /// state; the dimensions stay as they are.
    pub fn reset(&mut self)
        requires
            old(self).inv(),
        ensures
            final(self).inv(),
            final(self).width == old(self).width,
            final(self).height == old(self).height,
            final(self).mine_set().len() == old(self).mine_set().len(),
            final(self).open_set() == Set::<usize>::empty(),
            final(self).flag_set() == Set::<usize>::empty(),
            final(self).pressed_set() == Set::<usize>::empty(),
            !final(self).is_over(),
    {
        self.mines = gen_rand_mines(self.width, self.height, self.mines.len());
        self.open_cells = HashSet::new();
        self.flagged_cells = HashSet::new();
        self.depressed_cells = HashSet::new();
        self.game_over = false;
    }

    /// Whether the game has been lost by opening a mine.
    pub fn is_game_over(&self) -> (r: bool)
        ensures
            r == self.is_over(),
    {
        self.game_over
    }

    /// Whether the game has been won: the count of unopened cells has shrunk
    /// to the count of mines.
    pub fn is_game_finished(&self) -> (r: bool)
        requires
            self.inv(),
        ensures
            r == self.finished(),
    {
        proof {
            lemma_bounded_set_len(self.open_set(), self.total() as nat);
        }
        self.width * self.height - self.open_cells.len() == self.mines.len()
    }

    /// Row-major index of an in-bounds cell, as executable arithmetic.
    fn index_of(&self, x: usize, y: usize) -> (r: usize)
        requires
            self.inv(),
            x < self.width,
            y < self.height,
        ensures
            r == self.index_at((x as int, y as int)),
            r < self.total(),
    {
        proof {
            lemma_index_bound(x as int, y as int, self.width as int, self.height as int);
        }
        y * self.width + x
    }

    /// Whether the in-bounds cell `(x, y)` hides a mine.
    fn cell_mine(&self, x: usize, y: usize) -> (r: bool)
        requires
            self.inv(),
            x < self.width,
            y < self.height,
        ensures
            r == self.is_mine((x as int, y as int)),
    {
        let i = self.index_of(x, y);
        self.mines.contains(&i)
    }

    /// Whether the in-bounds cell `(x, y)` has been revealed.
    fn cell_open(&self, x: usize, y: usize) -> (r: bool)
        requires
            self.inv(),
            x < self.width,
            y < self.height,
        ensures
            r == self.is_open((x as int, y as int)),
    {
        let i = self.index_of(x, y);
        self.open_cells.contains(&i)
    }

    /// Whether the in-bounds cell `(x, y)` is flagged.
    fn cell_flagged(&self, x: usize, y: usize) -> (r: bool)
        requires
            self.inv(),
            x < self.width,
            y < self.height,
        ensures
            r == self.is_flagged((x as int, y as int)),
    {
        let i = self.index_of(x, y);
        self.flagged_cells.contains(&i)
    }

    /// Whether the in-bounds cell `(x, y)` is depressed.
    fn cell_pressed(&self, x: usize, y: usize) -> (r: bool)
        requires
            self.inv(),
            x < self.width,
            y < self.height,
        ensures
            r == self.is_pressed((x as int, y as int)),
    {
        let i = self.index_of(x, y);
        self.depressed_cells.contains(&i)
    }

    /// Number of mines among the up-to-8 neighbors of `pos`.
    fn adjacent_mines_count(&self, pos: (usize, usize)) -> (r: u8)
        requires
            self.inv(),
            pos.0 < self.width,
            pos.1 < self.height,
        ensures
            r as int == self.adj_mine_count(cell_of(pos)),
            r <= 8,
    {
        proof {
            lemma_dims(self.width as int, self.height as int);
        }
        let (x, y) = pos;
        let mut c: u8 = 0;
        if y > 0 {
            if x > 0 && self.cell_mine(x - 1, y - 1) {
                c = c + 1;
            }
            if self.cell_mine(x, y - 1) {
                c = c + 1;
            }
            if x + 1 < self.width && self.cell_mine(x + 1, y - 1) {
                c = c + 1;
            }
        }
        if x > 0 && self.cell_mine(x - 1, y) {
            c = c + 1;
        }
        if x + 1 < self.width && self.cell_mine(x + 1, y) {
            c = c + 1;
        }
        if y + 1 < self.height {
            if x > 0 && self.cell_mine(x - 1, y + 1) {
                c = c + 1;
            }
            if self.cell_mine(x, y + 1) {
                c = c + 1;
            }
            if x + 1 < self.width && self.cell_mine(x + 1, y + 1) {
                c = c + 1;
            }
        }
        c
    }

    /// Number of flags among the up-to-8 neighbors of `pos`.
    fn adjacent_flags_count(&self, pos: (usize, usize)) -> (r: u8)
        requires
            self.inv(),
            pos.0 < self.width,
            pos.1 < self.height,
        ensures
            r as int == self.adj_flag_count(cell_of(pos)),
            r <= 8,
    {
        proof {
            lemma_dims(self.width as int, self.height as int);
        }
        let (x, y) = pos;
        let mut c: u8 = 0;
        if y > 0 {
            if x > 0 && self.cell_flagged(x - 1, y - 1) {
                c = c + 1;
            }
            if self.cell_flagged(x, y - 1) {
                c = c + 1;
            }
            if x + 1 < self.width && self.cell_flagged(x + 1, y - 1) {
                c = c + 1;
            }
        }
        if x > 0 && self.cell_flagged(x - 1, y) {
            c = c + 1;
        }
        if x + 1 < self.width && self.cell_flagged(x + 1, y) {
            c = c + 1;
        }
        if y + 1 < self.height {
            if x > 0 && self.cell_flagged(x - 1, y + 1) {
                c = c + 1;
            }
            if self.cell_flagged(x, y + 1) {
                c = c + 1;
            }
            if x + 1 < self.width && self.cell_flagged(x + 1, y + 1) {
                c = c + 1;
            }
        }
        c
    }

    /// All in-bounds neighbors of an in-bounds cell, each exactly once.
    fn neighbors(&self, pos: (usize, usize)) -> (r: Vec<(usize, usize)>)
        requires
            self.inv(),
            pos.0 < self.width,
            pos.1 < self.height,
        ensures
            forall|q: (usize, usize)|
                #[trigger] r@.contains(q) <==> (q.0 < self.width && q.1 < self.height && adjacent(
                    cell_of(pos),
                    cell_of(q),
                )),
    {
        broadcast use vstd::seq_lib::lemma_seq_contains_after_push, vstd::seq_lib::lemma_seq_empty_contains_nothing;

        proof {
            lemma_dims(self.width as int, self.height as int);
        }
        let (x, y) = pos;
        let mut r: Vec<(usize, usize)> = Vec::new();
        if y > 0 {
            if x > 0 {
                r.push((x - 1, y - 1));
            }
            r.push((x, y - 1));
            if x + 1 < self.width {
                r.push((x + 1, y - 1));
            }
        }
        if x > 0 {
            r.push((x - 1, y));
        }
        if x + 1 < self.width {
            r.push((x + 1, y));
        }
        if y + 1 < self.height {
            if x > 0 {
                r.push((x - 1, y + 1));
            }
            r.push((x, y + 1));
            if x + 1 < self.width {
                r.push((x + 1, y + 1));
            }
        }
        r
    }

    /// Marks a closed, unflagged cell as transiently depressed.
    fn depress(&mut self, pos: (usize, usize))
        requires
            old(self).inv(),
            pos.0 < old(self).width,
            pos.1 < old(self).height,
            !old(self).is_open(cell_of(pos)),
            !old(self).is_flagged(cell_of(pos)),
        ensures
            final(self).inv(),
            final(self).width == old(self).width,
            final(self).height == old(self).height,
            final(self).mine_set() == old(self).mine_set(),
            final(self).open_set() == old(self).open_set(),
            final(self).flag_set() == old(self).flag_set(),
            final(self).is_over() == old(self).is_over(),
            final(self).pressed_set() == old(self).pressed_set().insert(
                old(self).index_at(cell_of(pos)) as usize,
            ),
    {
        let i = self.index_of(pos.0, pos.1);
        if self.depressed_cells.contains(&i) {
            proof {
                assert(old(self).pressed_set().insert(i) =~= old(self).pressed_set());
            }
            return ;
        }
        self.depressed_cells.insert(i);
    }

    /// Depresses every closed, unflagged neighbor of `pos` (the partial-chord
    /// visual hint).
    fn depress_neighbors(&mut self, pos: (usize, usize))
        requires
            old(self).inv(),
            pos.0 < old(self).width,
            pos.1 < old(self).height,
        ensures
            final(self).inv(),
            depress_step(*old(self), *final(self), cell_of(pos)),
    {
        let nbrs = self.neighbors(pos);
        let ghost o = *self;
        let mut j: usize = 0;
        while j < nbrs.len()
            invariant
                self.inv(),
                o == *old(self),
                o.inv(),
                pos.0 < o.width,
                pos.1 < o.height,
                j <= nbrs@.len(),
                forall|q: (usize, usize)|
                    #[trigger] nbrs@.contains(q) <==> (q.0 < o.width && q.1 < o.height && adjacent(
                        cell_of(pos),
                        cell_of(q),
                    )),
                self.width == o.width,
                self.height == o.height,
                self.mine_set() == o.mine_set(),
                self.open_set() == o.open_set(),
                self.flag_set() == o.flag_set(),
                self.is_over() == o.is_over(),
                forall|q: (int, int)|
                    #[trigger] self.is_pressed(q) <==> (o.is_pressed(q) || exists|k: int|
                        0 <= k < j && cell_of(nbrs@[k]) == q && !o.is_open(q) && !o.is_flagged(q)),
            decreases nbrs@.len() - j,
        {
            let n = nbrs[j];
            assert(nbrs@.contains(n));
            let ghost prev = *self;
            if !self.cell_open(n.0, n.1) && !self.cell_flagged(n.0, n.1) {
                self.depress(n);
                proof {
                    lemma_pressed_insert(prev, *self, n);
                }
            }
            proof {
                assert forall|q: (int, int)| #[trigger] self.is_pressed(q) implies (o.is_pressed(q)
                    || exists|k: int|
                    0 <= k < j + 1 && cell_of(nbrs@[k]) == q && !o.is_open(q) && !o.is_flagged(
                        q,
                    )) by {
                    if !prev.is_pressed(q) {
                        assert(q == cell_of(n));
                        assert(cell_of(nbrs@[j as int]) == q);
                    }
                }
                assert forall|q: (int, int)|
                    (o.is_pressed(q) || exists|k: int|
                        0 <= k < j + 1 && cell_of(nbrs@[k]) == q && !o.is_open(q) && !o.is_flagged(
                            q,
                        )) implies #[trigger] self.is_pressed(q) by {
                    if !o.is_pressed(q) {
                        let k = choose|k: int|
                            0 <= k < j + 1 && cell_of(nbrs@[k]) == q && !o.is_open(q)
                                && !o.is_flagged(q);
                        if k == j {
                            assert(q == cell_of(n));
                        }
                    }
                }
            }
            j = j + 1;
        }
        proof {
            assert forall|q: (int, int)| #[trigger] final(self).is_pressed(q) <==> (old(
                self,
            ).is_pressed(q) || (old(self).in_b(q) && adjacent(cell_of(pos), q) && !old(
                self,
            ).is_open(q) && !old(self).is_flagged(q))) by {
                if old(self).in_b(q) && adjacent(cell_of(pos), q) && !old(self).is_open(q) && !old(
                    self,
                ).is_flagged(q) {
                    let p = (q.0 as usize, q.1 as usize);
                    assert(cell_of(p) == q);
                    assert(nbrs@.contains(p));
                    let k = choose|k: int| 0 <= k < nbrs@.len() && nbrs@[k] == p;
                    assert(cell_of(nbrs@[k]) == q);
                }
                if final(self).is_pressed(q) && !old(self).is_pressed(q) {
                    let k = choose|k: int|
                        0 <= k < nbrs@.len() && cell_of(nbrs@[k]) == q && !old(self).is_open(q)
                            && !old(self).is_flagged(q);
                    assert(nbrs@.contains(nbrs@[k]));
                }
            }
        }
    }

    /// Toggles a flag: within the flag budget a closed, unflagged cell gains a
    /// flag (and stops being depressed); otherwise the flag at `pos`, if any,
    /// is removed. No-op once the game is over or won, or if `pos` is open.
    pub fn toggle_flag(&mut self, pos: (usize, usize))
        requires
            old(self).inv(),
            pos.0 < old(self).width,
            pos.1 < old(self).height,
        ensures
            final(self).inv(),
            final(self).width == old(self).width,
            final(self).height == old(self).height,
            final(self).mine_set() == old(self).mine_set(),
            final(self).open_set() == old(self).open_set(),
            final(self).is_over() == old(self).is_over(),
            (old(self).is_over() || old(self).finished() || old(self).is_open(cell_of(pos)))
                ==> *final(self) == *old(self),
            !(old(self).is_over() || old(self).finished() || old(self).is_open(cell_of(pos))) ==> {
                let i = old(self).index_at(cell_of(pos)) as usize;
                if !old(self).is_flagged(cell_of(pos)) && old(self).flag_set().len() < old(
                    self,
                ).mine_set().len() {
                    &&& final(self).flag_set() == old(self).flag_set().insert(i)
                    &&& final(self).pressed_set() == old(self).pressed_set().remove(i)
                } else {
                    &&& final(self).flag_set() == old(self).flag_set().remove(i)
                    &&& final(self).pressed_set() == old(self).pressed_set()
                }
            },
            !(old(self).is_over() || old(self).finished()) && old(self).is_flagged(cell_of(pos))
                ==> !final(self).is_flagged(cell_of(pos)),
    {
        if self.is_game_over() || self.is_game_finished() {
            return ;
        }
        let i = self.index_of(pos.0, pos.1);
        if self.open_cells.contains(&i) {
            return ;
        }
        if !self.flagged_cells.contains(&i) && self.flagged_cells.len() < self.mines.len() {
            self.flagged_cells.insert(i);
            self.depressed_cells.remove(&i);
            return ;
        }
        self.flagged_cells.remove(&i);
    }

    /// Empties the set of depressed cells; everything else stays as it is.
    pub fn clear_depressed_cells(&mut self)
        requires
            old(self).inv(),
        ensures
            final(self).inv(),
            final(self).width == old(self).width,
            final(self).height == old(self).height,
            final(self).mine_set() == old(self).mine_set(),
            final(self).open_set() == old(self).open_set(),
            final(self).flag_set() == old(self).flag_set(),
            final(self).is_over() == old(self).is_over(),
            final(self).pressed_set() == Set::<usize>::empty(),
    {
        if self.depressed_cells.len() < 1 {
            proof {
                self.pressed_set().lemma_len0_is_empty();
                assert(self.pressed_set() =~= Set::<usize>::empty());
            }
            return ;
        }
        self.depressed_cells.clear();
    }

    /// Runs the flood-fill worklist: `stack` holds the start cells (the ghost
    /// set `s` is the same collection of cells). Cells are popped and
    /// revealed; a revealed mine ends the game at once, a revealed cell with
    /// no adjacent mines queues its closed, unflagged neighbors. A pop is
    /// skipped once the board is won, as each recursive step of a
    /// call-stack formulation would be.
    #[verifier::rlimit(100)]
    fn flood_open(&mut self, stack: Vec<(usize, usize)>, Ghost(s): Ghost<Set<(int, int)>>)
        requires
            old(self).inv(),
            !old(self).is_over(),
            !old(self).finished(),
            forall|k: int| 0 <= k < stack@.len() ==> s.contains(cell_of(#[trigger] stack@[k])),
            forall|q: (int, int)| #[trigger] s.contains(q) ==> old(self).openable(q),
            forall|q: (int, int)| #[trigger] s.contains(q) ==> stack_has(stack@, q),
        ensures
            final(self).inv(),
            open_step(*old(self), *final(self), s),
    {
        let mut stack = stack;
        proof {
            lemma_bounded_set_len(self.open_set(), self.total() as nat);
            assert forall|k: int| 0 <= k < stack@.len() implies old(self).reaches(
                s,
                cell_of(#[trigger] stack@[k]),
            ) && old(self).openable(cell_of(stack@[k])) by {
                lemma_reach_start(*old(self), s, cell_of(stack@[k]));
            }
        }
        while stack.len() > 0 && !self.game_over
            invariant
                old(self).inv(),
                !old(self).is_over(),
                !old(self).finished(),
                forall|q: (int, int)| #[trigger] s.contains(q) ==> old(self).openable(q),
                self.inv(),
                self.open_set().len() <= self.total(),
                self.width == old(self).width,
                self.height == old(self).height,
                self.mine_set() == old(self).mine_set(),
                self.flag_set() == old(self).flag_set(),
                forall|q: (int, int)|
                    #[trigger] self.is_pressed(q) <==> old(self).is_pressed(q) && !self.is_open(q),
                forall|q: (int, int)| old(self).is_open(q) ==> #[trigger] self.is_open(q),
                forall|q: (int, int)|
                    #[trigger] self.is_open(q) ==> old(self).is_open(q) || old(self).reaches(s, q),
                (self.is_over() <==> exists|q: (int, int)|
                    #[trigger] self.is_open(q) && old(self).is_mine(q)),
                forall|k: int|
                    0 <= k < stack@.len() ==> old(self).reaches(s, cell_of(#[trigger] stack@[k]))
                        && old(self).openable(cell_of(stack@[k])),
                forall|q: (int, int)|
                    #[trigger] s.contains(q) && !old(self).is_mine(q) && !self.is_open(q)
                        ==> stack_has(stack@, q),
                forall|q: (int, int)|
                    #[trigger] s.contains(q) && old(self).is_mine(q) ==> self.is_over()
                        || self.finished() || stack_has(stack@, q),
                forall|c: (int, int), nb: (int, int)|
                    #[trigger] adjacent(c, nb) && self.is_open(c) && old(self).expandable(c)
                        && old(self).openable(nb) && !self.is_open(nb) ==> stack_has(stack@, nb),
            decreases self.total() - self.open_set().len(), stack@.len(),
        {
            let ghost oo = *old(self);
            let ghost pre_iter = *self;
            let ghost prev_stack = stack@;
            let p = stack.pop().unwrap();
            let ghost pc = cell_of(p);
            proof {
                assert(prev_stack[prev_stack.len() - 1] == p);
                assert(oo.reaches(s, pc) && oo.openable(pc));
            }
            if self.is_game_finished() {
                // Won: every remaining closed cell is a mine, so there is
                // nothing left to reveal for this entry.
            } else if !self.cell_open(p.0, p.1) {
                let i = self.index_of(p.0, p.1);
                self.open_cells.insert(i);
                self.depressed_cells.remove(&i);
                let ghost opened = *self;
                proof {
                    lemma_open_insert(pre_iter, *self, p);
                    lemma_bounded_set_len(self.open_set(), self.total() as nat);
                }
                if self.mines.contains(&i) {
                    self.game_over = true;
                } else if self.adjacent_mines_count(p) == 0 {
                    proof {
                        assert(oo.expandable(pc));
                    }
                    let nbrs = self.neighbors(p);
                    let ghost mid = *self;
                    let mut j: usize = 0;
                    while j < nbrs.len()
                        invariant
                            0 <= j <= nbrs@.len(),
                            *self == mid,
                            mid.inv(),
                            p.0 < mid.width,
                            p.1 < mid.height,
                            oo == *old(self),
                            oo.inv(),
                            oo.expandable(pc),
                            oo.reaches(s, pc),
                            pc == cell_of(p),
                            mid.width == oo.width,
                            mid.height == oo.height,
                            mid.flag_set() == oo.flag_set(),
                            forall|q: (int, int)| oo.is_open(q) ==> #[trigger] mid.is_open(q),
                            forall|q: (usize, usize)|
                                #[trigger] nbrs@.contains(q) <==> (q.0 < mid.width && q.1
                                    < mid.height && adjacent(pc, cell_of(q))),
                            forall|k: int|
                                0 <= k < stack@.len() ==> oo.reaches(
                                    s,
                                    cell_of(#[trigger] stack@[k]),
                                ) && oo.openable(cell_of(stack@[k])),
                            stack@.len() >= prev_stack.len() - 1,
                            forall|k: int|
                                0 <= k < prev_stack.len() - 1 ==> stack@[k] == prev_stack[k],
                            forall|m: int|
                                0 <= m < j && !mid.is_open(cell_of(#[trigger] nbrs@[m]))
                                    && oo.openable(cell_of(nbrs@[m])) ==> stack_has(
                                    stack@,
                                    cell_of(nbrs@[m]),
                                ),
                        decreases nbrs@.len() - j,
                    {
                        let n = nbrs[j];
                        assert(nbrs@.contains(n));
                        let ghost st0 = stack@;
                        if !self.cell_open(n.0, n.1) && !self.cell_flagged(n.0, n.1) {
                            proof {
                                assert(!oo.is_open(cell_of(n)));
                                assert(oo.openable(cell_of(n)));
                                lemma_reach_step(oo, s, pc, cell_of(n));
                            }
                            stack.push(n);
                            proof {
                                assert(stack@[st0.len() as int] == n);
                                assert(stack_has(stack@, cell_of(n)));
                                assert forall|m: int|
                                    0 <= m < j + 1 && !mid.is_open(cell_of(#[trigger] nbrs@[m]))
                                        && oo.openable(cell_of(nbrs@[m])) implies stack_has(
                                    stack@,
                                    cell_of(nbrs@[m]),
                                ) by {
                                    if m < j && stack_has(st0, cell_of(nbrs@[m])) {
                                        lemma_stack_has_extend(st0, stack@, cell_of(nbrs@[m]));
                                    }
                                }
                            }
                        } else {
                            proof {
                                assert(mid.is_open(cell_of(n)) || mid.is_flagged(cell_of(n)));
                            }
                        }
                        j = j + 1;
                    }
                    proof {
                        // Every unopened, openable neighbor of the newly
                        // revealed zero-count cell is now queued.
                        assert forall|nb: (int, int)|
                            adjacent(pc, nb) && oo.openable(nb) && !#[trigger] self.is_open(nb)
                                implies stack_has(stack@, nb) by {
                            let q = (nb.0 as usize, nb.1 as usize);
                            assert(cell_of(q) == nb);
                            assert(nbrs@.contains(q));
                            let m = choose|m: int| 0 <= m < nbrs@.len() && nbrs@[m] == q;
                            assert(!mid.is_open(cell_of(nbrs@[m])));
                            assert(oo.openable(cell_of(nbrs@[m])));
                        }
                    }
                }
                proof {
                    // the later `game_over` write leaves the open and
                    // depressed cells as the insertion made them
                    assert forall|q: (int, int)|
                        #[trigger] self.is_open(q) <==> pre_iter.is_open(q) || q == pc by {
                        assert(self.open_set() == opened.open_set());
                        assert(opened.is_open(q) <==> pre_iter.is_open(q) || q == pc);
                    }
                    assert forall|q: (int, int)|
                        #[trigger] self.is_pressed(q) <==> pre_iter.is_pressed(q) && q != pc by {
                        assert(self.pressed_set() == opened.pressed_set());
                        assert(opened.is_pressed(q) <==> pre_iter.is_pressed(q) && q != pc);
                    }
                }
            }
            proof {
                // On every path the popped cell ends up revealed, or the
                // board is won without the game being lost.
                assert(self.is_open(pc) || (self.finished() && !self.is_over()));
                assert(stack@.len() >= prev_stack.len() - 1);
                assert(forall|k: int|
                    0 <= k < prev_stack.len() - 1 ==> stack@[k] == prev_stack[k]);
                assert(self.is_over() <==> (oo.is_mine(pc) && self.is_open(pc)
                    && !pre_iter.is_open(pc)));
                assert(*self == pre_iter || (forall|q: (int, int)|
                    #[trigger] self.is_open(q) <==> pre_iter.is_open(q) || q == pc) && (forall|
                    q: (int, int),
                |
                    #[trigger] self.is_pressed(q) <==> pre_iter.is_pressed(q) && q != pc));
                lemma_flood_restore(oo, pre_iter, *self, s, prev_stack, stack@, p);
            }
        }
        proof {
            if !self.is_over() {
                assert forall|q: (int, int)|
                    old(self).reaches(s, q) && !old(self).is_mine(q) implies #[trigger] self.is_open(
                    q,
                ) by {
                    reveal(Minesweeper::reaches);
                    let pth = choose|pth: Seq<(int, int)>|
                        old(self).is_flood_path(s, pth) && pth.last() == q;
                    lemma_path_covered(*old(self), *self, s, pth);
                }
            }
        }
    }

    /// Opens every closed, unflagged neighbor of `pos` and lets the flood run
    /// from them (the satisfied-chord reveal).
    fn open_closed_neighbors(&mut self, pos: (usize, usize))
        requires
            old(self).inv(),
            !old(self).is_over(),
            !old(self).finished(),
            pos.0 < old(self).width,
            pos.1 < old(self).height,
        ensures
            final(self).inv(),
            open_step(*old(self), *final(self), old(self).chord_starts(cell_of(pos))),
    {
        let ghost s = self.chord_starts(cell_of(pos));
        let nbrs = self.neighbors(pos);
        let mut stack: Vec<(usize, usize)> = Vec::new();
        let mut j: usize = 0;
        while j < nbrs.len()
            invariant
                0 <= j <= nbrs@.len(),
                self.inv(),
                pos.0 < self.width,
                pos.1 < self.height,
                s == self.chord_starts(cell_of(pos)),
                forall|q: (usize, usize)|
                    #[trigger] nbrs@.contains(q) <==> (q.0 < self.width && q.1 < self.height
                        && adjacent(cell_of(pos), cell_of(q))),
                forall|k: int|
                    0 <= k < stack@.len() ==> s.contains(cell_of(#[trigger] stack@[k])),
                forall|m: int|
                    0 <= m < j && s.contains(cell_of(#[trigger] nbrs@[m])) ==> stack_has(
                        stack@,
                        cell_of(nbrs@[m]),
                    ),
            decreases nbrs@.len() - j,
        {
            let n = nbrs[j];
            assert(nbrs@.contains(n));
            let ghost st0 = stack@;
            if !self.cell_open(n.0, n.1) && !self.cell_flagged(n.0, n.1) {
                stack.push(n);
                proof {
                    assert(stack@[st0.len() as int] == n);
                    assert(stack_has(stack@, cell_of(n)));
                }
            } else {
                proof {
                    assert(!s.contains(cell_of(n)));
                }
            }
            proof {
                assert forall|m: int|
                    0 <= m < j + 1 && s.contains(cell_of(#[trigger] nbrs@[m])) implies stack_has(
                    stack@,
                    cell_of(nbrs@[m]),
                ) by {
                    if m < j {
                        lemma_stack_has_extend(st0, stack@, cell_of(nbrs@[m]));
                    }
                }
            }
            j = j + 1;
        }
        proof {
            assert forall|q: (int, int)| #[trigger] s.contains(q) implies stack_has(stack@, q) by {
                let pq = (q.0 as usize, q.1 as usize);
                assert(cell_of(pq) == q);
                assert(nbrs@.contains(pq));
                let m = choose|m: int| 0 <= m < nbrs@.len() && nbrs@[m] == pq;
                assert(s.contains(cell_of(nbrs@[m])));
            }
        }
        self.flood_open(stack, Ghost(s));
    }

    /// The player opens `pos`. A no-op once the game is over or won, or if
    /// `pos` is flagged. On an already-open cell it chords: with as many
    /// neighboring flags as neighboring mines the closed neighbors are
    /// flood-opened; with some but too few flags they are depressed instead.
    /// On a closed cell the cell is revealed: a mine loses the game on the
    /// spot, a zero-count cell floods outward, any other cell just opens.
    pub fn open(&mut self, pos: (usize, usize))
        requires
            old(self).inv(),
            pos.0 < old(self).width,
            pos.1 < old(self).height,
        ensures
            final(self).inv(),
            final(self).width == old(self).width,
            final(self).height == old(self).height,
            final(self).mine_set() == old(self).mine_set(),
            final(self).flag_set() == old(self).flag_set(),
            (old(self).is_over() || old(self).finished() || old(self).is_flagged(cell_of(pos)))
                ==> *final(self) == *old(self),
            !(old(self).is_over() || old(self).finished() || old(self).is_flagged(cell_of(pos)))
                ==> {
                let o = *old(self);
                let c = cell_of(pos);
                if o.is_open(c) {
                    if o.adj_mine_count(c) == o.adj_flag_count(c) {
                        open_step(o, *final(self), o.chord_starts(c))
                    } else if 0 < o.adj_flag_count(c) < o.adj_mine_count(c) {
                        depress_step(o, *final(self), c)
                    } else {
                        *final(self) == o
                    }
                } else {
                    open_step(o, *final(self), set![c])
                }
            },
    {
        if self.is_game_over() || self.is_game_finished() {
            return ;
        }
        let i = self.index_of(pos.0, pos.1);
        if self.flagged_cells.contains(&i) {
            return ;
        }
        let mines_count = self.adjacent_mines_count(pos);
        let flags_count = self.adjacent_flags_count(pos);
        if self.open_cells.contains(&i) {
            if mines_count == flags_count {
                self.open_closed_neighbors(pos);
            } else if flags_count > 0 && flags_count < mines_count {
                self.depress_neighbors(pos);
            }
            return ;
        }
        let ghost s = set![cell_of(pos)];
        let start: Vec<(usize, usize)> = vec![pos];
        proof {
            assert(start@[0] == pos);
            assert forall|q: (int, int)| #[trigger] s.contains(q) implies stack_has(
                start@,
                q,
            ) by {
                assert(cell_of(start@[0]) == q);
            }
        }
        self.flood_open(start, Ghost(s));
    }

    /// The state the cell `(x, y)` presents at render time.
    pub fn cell_at(&self, x: usize, y: usize) -> (r: Cell)
        requires
            self.inv(),
            x < self.width,
            y < self.height,
        ensures
            r == self.cell_state((x as int, y as int)),
    {
        if !self.cell_open(x, y) {
            if self.game_over && self.cell_mine(x, y) {
                Cell::Mine
            } else if self.cell_flagged(x, y) {
                Cell::Flag
            } else if self.cell_pressed(x, y) {
                Cell::Pressed
            } else {
                Cell::Closed
            }
        } else if self.cell_mine(x, y) {
            Cell::Exploded
        } else {
            let n = self.adjacent_mines_count((x, y));
            if n == 0 {
                Cell::Opened
            } else {
                Cell::Num(n)
            }
        }
    }

    /// The whole board as text, one glyph per cell, one line per row.
    pub fn to_text(&self) -> (r: String)
        requires
            self.inv(),
        ensures
            r@ == self.text(),
    {
        let mut s = String::new();
        let mut y: usize = 0;
        while y < self.height
            invariant
                self.inv(),
                y <= self.height,
                s@ == self.rows_text(y as int),
            decreases self.height - y,
        {
            proof {
                assert(s@ =~= self.rows_text(y as int) + self.row_text(y as int, 0));
            }
            let mut x: usize = 0;
            while x < self.width
                invariant
                    self.inv(),
                    y < self.height,
                    x <= self.width,
                    s@ == self.rows_text(y as int) + self.row_text(y as int, x as int),
                decreases self.width - x,
            {
                let c = self.cell_at(x, y);
                let g = c.text();
                s.append(g.as_str());
                proof {
                    assert(s@ =~= self.rows_text(y as int) + self.row_text(
                        y as int,
                        x as int + 1,
                    ));
                }
                x = x + 1;
            }
            s.append("\n");
            proof {
                reveal_strlit("\n");
                assert("\n"@ =~= seq!['\n']);
                assert(s@ =~= self.rows_text(y as int + 1));
            }
            y = y + 1;
        }
        s
    }

    /// Builds a board with exactly the given mine cells and no player state:
    /// for callers that fix the layout instead of drawing one. `None` when a
    /// dimension is zero, the grid would overflow `usize`, the list is empty,
    /// repeats a cell, or names one off the grid.
    pub fn with_mines(width: usize, height: usize, mine_cells: &Vec<(usize, usize)>) -> (r: Option<
        Self,
    >)
        ensures
            (r is Some <==> (1 <= width && 1 <= height && width * height <= usize::MAX && 1
                <= mine_cells@.len() && (forall|k: int|
                0 <= k < mine_cells@.len() ==> (#[trigger] mine_cells@[k]).0 < width
                    && mine_cells@[k].1 < height) && (forall|k: int, l: int|
                0 <= k < l < mine_cells@.len() ==> mine_cells@[k] != mine_cells@[l]))),
            r is Some ==> {
                let b = r->Some_0;
                &&& b.inv()
                &&& b.width == width
                &&& b.height == height
                &&& !b.is_over()
                &&& b.open_set() == Set::<usize>::empty()
                &&& b.flag_set() == Set::<usize>::empty()
                &&& b.pressed_set() == Set::<usize>::empty()
                &&& b.mine_set().len() == mine_cells@.len()
                &&& forall|q: (int, int)| #[trigger] b.is_mine(q) <==> stack_has(mine_cells@, q)
            },
    {
        if width < 1 || height < 1 {
            return None;
        }
        let total = match width.checked_mul(height) {
            Some(t) => t,
            None => {
                return None;
            },
        };
        if mine_cells.len() < 1 {
            return None;
        }
        let mut mines: HashSet<usize> = HashSet::new();
        let mut k: usize = 0;
        while k < mine_cells.len()
            invariant
                1 <= width,
                1 <= height,
                total == width * height <= usize::MAX,
                k <= mine_cells@.len(),
                mines@.finite(),
                mines@.len() == k,
                forall|i: usize| mines@.contains(i) ==> i < total,
                forall|m: int|
                    0 <= m < k ==> (#[trigger] mine_cells@[m]).0 < width && mine_cells@[m].1
                        < height,
                forall|m: int, l: int| 0 <= m < l < k ==> mine_cells@[m] != mine_cells@[l],
                forall|m: int|
                    0 <= m < k ==> mines@.contains(
                        ((#[trigger] mine_cells@[m]).1 * width + mine_cells@[m].0) as usize,
                    ),
                forall|i: usize|
                    mines@.contains(i) ==> exists|m: int|
                        0 <= m < k && i as int == mine_cells@[m].1 * width + mine_cells@[m].0,
            decreases mine_cells@.len() - k,
        {
            let (x, y) = mine_cells[k];
            if x >= width || y >= height {
                return None;
            }
            proof {
                lemma_index_bound(x as int, y as int, width as int, height as int);
            }
            let i = y * width + x;
            if mines.contains(&i) {
                proof {
                    let m = choose|m: int|
                        0 <= m < k && i as int == mine_cells@[m].1 * width + mine_cells@[m].0;
                    lemma_index_injective(
                        width as int,
                        height as int,
                        cell_of(mine_cells@[m]),
                        cell_of(mine_cells@[k as int]),
                    );
                }
                return None;
            }
            mines.insert(i);
            k = k + 1;
        }
        let b = Self {
            width,
            height,
            mines,
            open_cells: HashSet::new(),
            flagged_cells: HashSet::new(),
            depressed_cells: HashSet::new(),
            game_over: false,
        };
        proof {
            lemma_bounded_set_len(b.mine_set(), b.total() as nat);
            assert forall|q: (int, int)| #[trigger] b.is_mine(q) implies stack_has(
                mine_cells@,
                q,
            ) by {
                lemma_index_bound(q.0, q.1, width as int, height as int);
                let i = b.index_at(q) as usize;
                let m = choose|m: int|
                    0 <= m < mine_cells@.len() && i as int == mine_cells@[m].1 * width
                        + mine_cells@[m].0;
                lemma_index_injective(
                    width as int,
                    height as int,
                    cell_of(mine_cells@[m]),
                    q,
                );
                assert(cell_of(mine_cells@[m]) == q);
            }
            assert forall|q: (int, int)| stack_has(mine_cells@, q) implies #[trigger] b.is_mine(
                q,
            ) by {
                let m = choose|m: int|
                    0 <= m < mine_cells@.len() && cell_of(mine_cells@[m]) == q;
                lemma_index_bound(q.0, q.1, width as int, height as int);
            }
        }
        Some(b)
    }
}

/// A builder of the full presentation grid: a `rows()` by `cols()` matrix
/// holding `built_cell(x, y)` at row `y`, column `x`.
pub trait MineFieldBuilder {
    /// Number of rows the built grid has.
    spec fn rows(&self) -> int;

    /// Number of columns the built grid has.
    spec fn cols(&self) -> int;

    /// What the builder asks of itself before building.
    spec fn builder_wf(&self) -> bool;

    /// The cell state shown at column `x`, row `y`.
    spec fn built_cell(&self, x: int, y: int) -> Cell;

    /// Derives the grid, row-major.
    fn build(&self) -> (r: Vec<Vec<Cell>>)
        requires
            self.builder_wf(),
        ensures
            r@.len() == self.rows(),
            forall|y: int| 0 <= y < self.rows() ==> (#[trigger] r@[y])@.len() == self.cols(),
            forall|y: int, x: int|
                0 <= y < self.rows() && 0 <= x < self.cols() ==> #[trigger] r@[y]@[x]
                    == self.built_cell(x, y),
    ;
}

impl MineFieldBuilder for Minesweeper {
    open spec fn rows(&self) -> int {
        self.height as int
    }

    open spec fn cols(&self) -> int {
        self.width as int
    }

    open spec fn builder_wf(&self) -> bool {
        self.inv()
    }

    open spec fn built_cell(&self, x: int, y: int) -> Cell {
        self.cell_state((x, y))
    }

    fn build(&self) -> (r: Vec<Vec<Cell>>) {
        let mut field: Vec<Vec<Cell>> = Vec::new();
        let mut y: usize = 0;
        while y < self.height
            invariant
                self.inv(),
                y <= self.height,
                field@.len() == y,
                forall|yy: int| 0 <= yy < y ==> (#[trigger] field@[yy])@.len() == self.width,
                forall|yy: int, x: int|
                    0 <= yy < y && 0 <= x < self.width ==> #[trigger] field@[yy]@[x]
                        == self.cell_state((x, yy)),
            decreases self.height - y,
        {
            let mut row: Vec<Cell> = Vec::new();
            let mut x: usize = 0;
            while x < self.width
                invariant
                    self.inv(),
                    y < self.height,
                    x <= self.width,
                    row@.len() == x,
                    forall|xx: int|
                        0 <= xx < x ==> #[trigger] row@[xx] == self.cell_state((xx, y as int)),
                decreases self.width - x,
            {
                row.push(self.cell_at(x, y));
                x = x + 1;
            }
            field.push(row);
            y = y + 1;
        }
        field
    }
}

/// The win condition holds exactly when every cell without a mine is open
/// (on a board whose game is not lost): counting unopened cells against
/// mines is the same as covering all safe cells.
pub proof fn lemma_finished_iff_all_safe_open(m: Minesweeper)
    requires
        m.inv(),
        !m.is_over(),
    ensures
        m.finished() <==> (forall|q: (int, int)|
            m.in_b(q) && !m.is_mine(q) ==> #[trigger] m.is_open(q)),
{
    if m.finished() {
        lemma_finished_covers(m);
    }
    if forall|q: (int, int)| m.in_b(q) && !m.is_mine(q) ==> #[trigger] m.is_open(q) {
        let ib = below(m.total());
        let safe = ib.difference(m.mine_set());
        lemma_below_len(m.total());
        assert(m.mine_set().subset_of(ib));
        lemma_len_difference_subset(ib, m.mine_set());
        assert(m.open_set().subset_of(safe));
        assert forall|i: usize| safe.contains(i) implies m.open_set().contains(i) by {
            lemma_index_decode(m.width as int, m.height as int, i as int);
            let q = ((i as int) % (m.width as int), (i as int) / (m.width as int));
            assert(m.in_b(q));
            assert(m.index_at(q) == i);
            assert(!m.is_mine(q));
            assert(m.is_open(q));
        }
        assert(m.open_set() =~= safe);
    }
}

/// Opening a closed, unflagged mine always loses the game: were it not
/// lost, the flood from that one cell would have revealed exactly the
/// non-mine cells it reaches, which are none at all (a mine does not keep
/// the flood going), so the board would stand unchanged, neither lost nor
/// won, though a start cell hides a mine.
pub proof fn lemma_open_mine_loses(o: Minesweeper, n: Minesweeper, c: (int, int))
    requires
        o.inv(),
        n.inv(),
        !o.is_over(),
        !o.finished(),
        o.openable(c),
        o.is_mine(c),
        open_step(o, n, set![c]),
    ensures
        n.is_over(),
{
    if !n.is_over() {
        assert forall|q: (int, int)| #[trigger] n.is_open(q) implies o.is_open(q) by {
            if o.reaches(set![c], q) && !o.is_mine(q) {
                reveal(Minesweeper::reaches);
                let p = choose|p: Seq<(int, int)>|
                    o.is_flood_path(set![c], p) && p.last() == q;
                assert(p[0] == c);
                if p.len() >= 2 {
                    assert(o.expandable(p[0]));
                } else {
                    assert(q == c);
                }
            }
        }
        assert(n.open_set() =~= o.open_set()) by {
            assert forall|i: usize| #[trigger] n.open_set().contains(i) implies o.open_set()
                .contains(i) by {
                lemma_index_decode(n.width as int, n.height as int, i as int);
                let q = ((i as int) % (n.width as int), (i as int) / (n.width as int));
                assert(n.is_open(q));
                assert(o.is_open(q));
            }
            assert forall|i: usize| #[trigger] o.open_set().contains(i) implies n.open_set()
                .contains(i) by {
                lemma_index_decode(o.width as int, o.height as int, i as int);
                let q = ((i as int) % (o.width as int), (i as int) / (o.width as int));
                assert(o.is_open(q));
                assert(n.is_open(q));
            }
        }
        assert(!n.finished());
        assert(set![c].contains(c));
        assert(false);
    }
}

/// Decoding a row-major index of an in-bounds cell: its column is the
/// remainder and its row the quotient by the width.
proof fn lemma_index_decode(w: int, h: int, i: int)
    requires
        1 <= w,
        1 <= h,
        0 <= i < w * h,
    ensures
        0 <= i % w < w,
        0 <= i / w < h,
        (i / w) * w + (i % w) == i,
{
    vstd::arithmetic::div_mod::lemma_fundamental_div_mod(i, w);
    vstd::arithmetic::div_mod::lemma_mod_division_less_than_divisor(i, w);
    vstd::arithmetic::div_mod::lemma_div_pos_is_pos(i, w);
    vstd::arithmetic::div_mod::lemma_multiply_divide_lt(i, w, h);
    assert(w * (i / w) == (i / w) * w) by (nonlinear_arith);
}

/// How a partial chord relates the state after depressing to the one before:
/// exactly the closed, unflagged neighbors of `c` join the depressed set, and
/// nothing else moves.
pub open spec fn depress_step(o: Minesweeper, n: Minesweeper, c: (int, int)) -> bool {
    &&& n.width == o.width
    &&& n.height == o.height
    &&& n.mine_set() == o.mine_set()
    &&& n.open_set() == o.open_set()
    &&& n.flag_set() == o.flag_set()
    &&& n.is_over() == o.is_over()
    &&& forall|q: (int, int)|
        #[trigger] n.is_pressed(q) <==> (o.is_pressed(q) || (o.in_b(q) && adjacent(c, q)
            && !o.is_open(q) && !o.is_flagged(q)))
}

/// How a completed open action relates the new state `n` to the old state `o`
/// (a running, unfinished game), given the start cells `s` of the flood:
/// mines, flags and dimensions are untouched; open cells only grow, and only
/// by cells the flood from `s` reaches; the game is lost exactly when a mine
/// got revealed; when it is not lost, the revealed cells are exactly the
/// non-mine cells the flood reaches; a mine among the start cells leaves the
/// game lost or won; and the depressed cells lose exactly the newly revealed
/// ones.
pub open spec fn open_step(o: Minesweeper, n: Minesweeper, s: Set<(int, int)>) -> bool {
    &&& n.width == o.width
    &&& n.height == o.height
    &&& n.mine_set() == o.mine_set()
    &&& n.flag_set() == o.flag_set()
    &&& forall|q: (int, int)| o.is_open(q) ==> #[trigger] n.is_open(q)
    &&& forall|q: (int, int)| #[trigger] n.is_open(q) ==> o.is_open(q) || o.reaches(s, q)
    &&& (n.is_over() <==> exists|q: (int, int)| #[trigger] n.is_open(q) && o.is_mine(q))
    &&& (!n.is_over() ==> forall|q: (int, int)|
        #[trigger] n.is_open(q) <==> o.is_open(q) || (o.reaches(s, q) && !o.is_mine(q)))
    &&& ((exists|q: (int, int)| #[trigger] s.contains(q) && o.is_mine(q)) ==> n.is_over()
        || n.finished())
    &&& forall|q: (int, int)| #[trigger] n.is_pressed(q) <==> o.is_pressed(q) && !n.is_open(q)
}

/// Whether the worklist holds the cell `q`.
pub open spec fn stack_has(st: Seq<(usize, usize)>, q: (int, int)) -> bool {
    exists|k: int| 0 <= k < st.len() && cell_of(#[trigger] st[k]) == q
}

/// A worklist that extends another entry for entry keeps all its cells.
proof fn lemma_stack_has_extend(a: Seq<(usize, usize)>, b: Seq<(usize, usize)>, q: (int, int))
    requires
        stack_has(a, q),
        b.len() >= a.len(),
        forall|k: int| 0 <= k < a.len() ==> b[k] == a[k],
    ensures
        stack_has(b, q),
{
    let k = choose|k: int| 0 <= k < a.len() && cell_of(a[k]) == q;
    assert(cell_of(b[k]) == q);
}

/// Re-establishes the worklist invariants of the flood after one iteration
/// that popped `p` off `prev_stack`, leaving `new_stack`: relative to the
/// entry state `oo`, every outstanding non-mine start cell, every outstanding
/// start mine (unless the game just ended or is won), and every outstanding
/// openable neighbor of a revealed flood cell is still queued.
proof fn lemma_flood_restore(
    oo: Minesweeper,
    pre: Minesweeper,
    now: Minesweeper,
    s: Set<(int, int)>,
    prev_stack: Seq<(usize, usize)>,
    new_stack: Seq<(usize, usize)>,
    p: (usize, usize),
)
    requires
        prev_stack.len() >= 1,
        prev_stack.last() == p,
        new_stack.len() >= prev_stack.len() - 1,
        forall|k: int| 0 <= k < prev_stack.len() - 1 ==> new_stack[k] == prev_stack[k],
        forall|q: (int, int)| #[trigger] s.contains(q) ==> oo.openable(q),
        forall|q: (int, int)|
            #[trigger] s.contains(q) && !oo.is_mine(q) && !pre.is_open(q) ==> stack_has(
                prev_stack,
                q,
            ),
        forall|q: (int, int)|
            #[trigger] s.contains(q) && oo.is_mine(q) ==> pre.is_over() || pre.finished()
                || stack_has(prev_stack, q),
        forall|c: (int, int), nb: (int, int)|
            #[trigger] adjacent(c, nb) && pre.is_open(c) && oo.expandable(c) && oo.openable(nb)
                && !pre.is_open(nb) ==> stack_has(prev_stack, nb),
        now.inv(),
        !pre.is_over(),
        pre.finished() ==> now == pre,
        now.width == oo.width,
        now.height == oo.height,
        now.mine_set() == oo.mine_set(),
        forall|q: (int, int)| pre.is_open(q) ==> #[trigger] now.is_open(q),
        forall|q: (int, int)| #[trigger] now.is_open(q) ==> pre.is_open(q) || q == cell_of(p),
        now.is_open(cell_of(p)) || (now.finished() && !now.is_over()),
        (now.is_open(cell_of(p)) && !pre.is_open(cell_of(p)) && !oo.is_mine(cell_of(p))
            && oo.adj_mine_count(cell_of(p)) == 0) ==> forall|nb: (int, int)|
            adjacent(cell_of(p), nb) && oo.openable(nb) && !now.is_open(nb) ==> stack_has(
                new_stack,
                nb,
            ),
        oo.reaches(s, cell_of(p)),
        now == pre || (forall|q: (int, int)|
            #[trigger] now.is_open(q) <==> pre.is_open(q) || q == cell_of(p)) && (forall|
            q: (int, int),
        |
            #[trigger] now.is_pressed(q) <==> pre.is_pressed(q) && q != cell_of(p)),
        now.is_over() <==> (oo.is_mine(cell_of(p)) && now.is_open(cell_of(p)) && !pre.is_open(
            cell_of(p),
        )),
        forall|q: (int, int)| oo.is_open(q) ==> #[trigger] pre.is_open(q),
        forall|q: (int, int)|
            #[trigger] pre.is_open(q) ==> oo.is_open(q) || oo.reaches(s, q),
        forall|q: (int, int)| #[trigger] pre.is_open(q) ==> !oo.is_mine(q),
        forall|q: (int, int)|
            #[trigger] pre.is_pressed(q) <==> oo.is_pressed(q) && !pre.is_open(q),
    ensures
        forall|q: (int, int)| oo.is_open(q) ==> #[trigger] now.is_open(q),
        forall|q: (int, int)|
            #[trigger] now.is_open(q) ==> oo.is_open(q) || oo.reaches(s, q),
        now.is_over() <==> exists|q: (int, int)| #[trigger] now.is_open(q) && oo.is_mine(q),
        forall|q: (int, int)|
            #[trigger] now.is_pressed(q) <==> oo.is_pressed(q) && !now.is_open(q),
        forall|q: (int, int)|
            #[trigger] s.contains(q) && !oo.is_mine(q) && !now.is_open(q) ==> stack_has(
                new_stack,
                q,
            ),
        forall|q: (int, int)|
            #[trigger] s.contains(q) && oo.is_mine(q) ==> now.is_over() || now.finished()
                || stack_has(new_stack, q),
        forall|c: (int, int), nb: (int, int)|
            #[trigger] adjacent(c, nb) && now.is_open(c) && oo.expandable(c) && oo.openable(nb)
                && !now.is_open(nb) ==> stack_has(new_stack, nb),
{
    let pc = cell_of(p);
    if now.finished() && !now.is_over() {
        lemma_finished_covers(now);
    }
    assert forall|q: (int, int)| #[trigger] now.is_open(q) implies oo.is_open(q) || oo.reaches(
        s,
        q,
    ) by {
        if !pre.is_open(q) {
            assert(q == pc);
        }
    }
    assert(now.is_over() <==> exists|q: (int, int)|
        #[trigger] now.is_open(q) && oo.is_mine(q)) by {
        if now.is_over() {
            assert(now.is_open(pc) && oo.is_mine(pc));
        }
        if exists|q: (int, int)| #[trigger] now.is_open(q) && oo.is_mine(q) {
            let q = choose|q: (int, int)| #[trigger] now.is_open(q) && oo.is_mine(q);
            assert(!pre.is_open(q));
            assert(q == pc);
        }
    }
    let kept = prev_stack.drop_last();
    assert(forall|k: int| 0 <= k < kept.len() ==> kept[k] == prev_stack[k]);
    assert forall|q: (int, int)| stack_has(prev_stack, q) && q != pc implies stack_has(
        new_stack,
        q,
    ) by {
        let k = choose|k: int| 0 <= k < prev_stack.len() && cell_of(prev_stack[k]) == q;
        assert(k < prev_stack.len() - 1);
        assert(cell_of(kept[k]) == q);
        lemma_stack_has_extend(kept, new_stack, q);
    }
    assert forall|q: (int, int)|
        #[trigger] s.contains(q) && !oo.is_mine(q) && !now.is_open(q) implies stack_has(
        new_stack,
        q,
    ) by {
        assert(!pre.is_open(q));
        assert(stack_has(prev_stack, q));
        assert(q != pc);
    }
    assert forall|q: (int, int)|
        #[trigger] s.contains(q) && oo.is_mine(q) implies now.is_over() || now.finished()
            || stack_has(new_stack, q) by {
        if !now.is_over() && !now.finished() {
            assert(!pre.finished());
            assert(stack_has(prev_stack, q));
            if q == pc {
                // a popped mine is either revealed (losing the game) or
                // skipped on a won board; both contradict this case
                assert(now.is_open(pc));
                assert(false);
            }
        }
    }
    assert forall|c: (int, int), nb: (int, int)|
        #[trigger] adjacent(c, nb) && now.is_open(c) && oo.expandable(c) && oo.openable(nb)
            && !now.is_open(nb) implies stack_has(new_stack, nb) by {
        lemma_no_adjacent_mine(oo, c, nb);
        if pre.is_open(c) {
            assert(!pre.is_open(nb));
            assert(stack_has(prev_stack, nb));
            if nb == pc {
                assert(!now.is_open(pc));
                assert(now.finished() && !now.is_over());
                assert(now.is_open(nb));
                assert(false);
            }
        } else {
            assert(c == pc);
        }
    }
}

/// A cell with no adjacent mines has no mine next to it.
proof fn lemma_no_adjacent_mine(m: Minesweeper, c: (int, int), n: (int, int))
    requires
        m.adj_mine_count(c) == 0,
        adjacent(c, n),
    ensures
        !m.is_mine(n),
{
    let dx = n.0 - c.0;
    let dy = n.1 - c.1;
    if dx == -1 && dy == -1 {
        assert(n == (c.0 - 1, c.1 - 1));
    } else if dx == 0 && dy == -1 {
        assert(n == (c.0, c.1 - 1));
    } else if dx == 1 && dy == -1 {
        assert(n == (c.0 + 1, c.1 - 1));
    } else if dx == -1 && dy == 0 {
        assert(n == (c.0 - 1, c.1));
    } else if dx == 1 && dy == 0 {
        assert(n == (c.0 + 1, c.1));
    } else if dx == -1 && dy == 1 {
        assert(n == (c.0 - 1, c.1 + 1));
    } else if dx == 0 && dy == 1 {
        assert(n == (c.0, c.1 + 1));
    } else {
        assert(n == (c.0 + 1, c.1 + 1));
    }
}

/// On a won board that has not been lost, every non-mine cell is open: the
/// open cells form a subset of the safe cells of the same cardinality.
proof fn lemma_finished_covers(m: Minesweeper)
    requires
        m.inv(),
        !m.is_over(),
        m.finished(),
    ensures
        forall|q: (int, int)| m.in_b(q) && !m.is_mine(q) ==> #[trigger] m.is_open(q),
{
    let ib = below(m.total());
    let safe = ib.difference(m.mine_set());
    lemma_below_len(m.total());
    assert(m.mine_set().subset_of(ib));
    lemma_len_difference_subset(ib, m.mine_set());
    lemma_len_subset(safe, ib);
    assert(m.open_set().subset_of(safe));
    vstd::set_lib::lemma_subset_equality(m.open_set(), safe);
    assert forall|q: (int, int)| m.in_b(q) && !m.is_mine(q) implies #[trigger] m.is_open(q) by {
        lemma_index_bound(q.0, q.1, m.width as int, m.height as int);
        let i = m.index_at(q) as usize;
        assert(safe.contains(i));
    }
}

/// Revealing one cell changes `is_open` for that cell alone, and removes that
/// cell alone from the depressed ones.
proof fn lemma_open_insert(o: Minesweeper, n: Minesweeper, p: (usize, usize))
    requires
        o.inv(),
        p.0 < o.width,
        p.1 < o.height,
        n.width == o.width,
        n.height == o.height,
        n.open_set() == o.open_set().insert(o.index_at(cell_of(p)) as usize),
        n.pressed_set() == o.pressed_set().remove(o.index_at(cell_of(p)) as usize),
    ensures
        forall|q: (int, int)| #[trigger] n.is_open(q) <==> o.is_open(q) || q == cell_of(p),
        forall|q: (int, int)| #[trigger] n.is_pressed(q) <==> o.is_pressed(q) && q != cell_of(p),
{
    lemma_index_bound(p.0 as int, p.1 as int, o.width as int, o.height as int);
    assert forall|q: (int, int)| #[trigger] n.is_open(q) <==> (o.is_open(q) || q == cell_of(
        p,
    )) by {
        if n.in_b(q) {
            lemma_index_bound(q.0, q.1, o.width as int, o.height as int);
            if q != cell_of(p) && n.index_at(q) == n.index_at(cell_of(p)) {
                lemma_index_injective(o.width as int, o.height as int, q, cell_of(p));
            }
        }
    }
    assert forall|q: (int, int)| #[trigger] n.is_pressed(q) <==> (o.is_pressed(q) && q != cell_of(
        p,
    )) by {
        if n.in_b(q) {
            lemma_index_bound(q.0, q.1, o.width as int, o.height as int);
            if q != cell_of(p) && n.index_at(q) == n.index_at(cell_of(p)) {
                lemma_index_injective(o.width as int, o.height as int, q, cell_of(p));
            }
        }
    }
}

/// A start cell that can be revealed is reached by the flood: the
/// one-element path.
proof fn lemma_reach_start(o: Minesweeper, s: Set<(int, int)>, q: (int, int))
    requires
        s.contains(q),
        o.openable(q),
    ensures
        o.reaches(s, q),
{
    reveal(Minesweeper::reaches);
    let p: Seq<(int, int)> = seq![q];
    assert(p.last() == q);
    assert(o.is_flood_path(s, p));
}

/// Extending a flood path by one step: a reached cell that keeps the flood
/// going reaches each of its openable neighbors.
proof fn lemma_reach_step(o: Minesweeper, s: Set<(int, int)>, c: (int, int), n: (int, int))
    requires
        o.reaches(s, c),
        o.expandable(c),
        adjacent(c, n),
        o.openable(n),
    ensures
        o.reaches(s, n),
{
    reveal(Minesweeper::reaches);
    let p = choose|p: Seq<(int, int)>| o.is_flood_path(s, p) && p.last() == c;
    let p2 = p.push(n);
    assert(p2.last() == n);
    assert(p2[0] == p[0]);
    assert forall|i: int| 0 <= i < p2.len() - 1 implies adjacent(#[trigger] p2[i], p2[i + 1]) by {
        if i < p.len() - 1 {
            assert(p2[i] == p[i]);
            assert(p2[i + 1] == p[i + 1]);
        } else {
            assert(p2[i] == c);
            assert(p2[i + 1] == n);
        }
    }
    assert forall|i: int| 0 <= i < p2.len() - 1 implies o.expandable(#[trigger] p2[i]) by {
        if i < p.len() - 1 {
            assert(p2[i] == p[i]);
        } else {
            assert(p2[i] == c);
        }
    }
    assert(o.is_flood_path(s, p2));
}

/// Once the worklist has drained without the game being lost, every non-mine
/// cell on a flood path is open: by induction over the path, each interior
/// cell kept the flood going, so its successor was revealed too.
proof fn lemma_path_covered(o: Minesweeper, n: Minesweeper, s: Set<(int, int)>, p: Seq<(int, int)>)
    requires
        o.is_flood_path(s, p),
        !o.is_mine(p.last()),
        forall|q: (int, int)| #[trigger] s.contains(q) && !o.is_mine(q) ==> n.is_open(q),
        forall|c: (int, int), nb: (int, int)|
            #[trigger] adjacent(c, nb) && n.is_open(c) && o.expandable(c) && o.openable(nb)
                ==> n.is_open(nb),
    ensures
        n.is_open(p.last()),
    decreases p.len(),
{
    if p.len() == 1 {
        assert(p.last() == p[0]);
        assert(s.contains(p[0]));
    } else {
        let pp = p.drop_last();
        assert(pp.last() == p[p.len() - 2]);
        assert(o.expandable(p[p.len() - 2]));
        assert(adjacent(p[p.len() - 2], p[p.len() - 1]));
        assert(o.is_flood_path(s, pp)) by {
            assert(pp[0] == p[0]);
            assert forall|i: int| 0 <= i < pp.len() - 1 implies adjacent(
                #[trigger] pp[i],
                pp[i + 1],
            ) by {
                assert(pp[i] == p[i]);
                assert(pp[i + 1] == p[i + 1]);
            }
            assert forall|i: int| 0 <= i < pp.len() - 1 implies o.expandable(#[trigger] pp[i]) by {
                assert(pp[i] == p[i]);
            }
        }
        lemma_path_covered(o, n, s, pp);
        assert(n.is_open(p.last()));
    }
}

/// A board of `w >= 1` columns and `h >= 1` rows has at least `w` and at
/// least `h` cells.
proof fn lemma_dims(w: int, h: int)
    requires
        1 <= w,
        1 <= h,
    ensures
        w <= w * h,
        h <= w * h,
{
    assert(w <= w * h && h <= w * h) by (nonlinear_arith)
        requires
            1 <= w,
            1 <= h,
    ;
}

/// The row-major index of an in-bounds cell lies on the grid.
proof fn lemma_index_bound(x: int, y: int, w: int, h: int)
    requires
        0 <= x < w,
        0 <= y < h,
    ensures
        0 <= y * w + x < w * h,
{
    assert(0 <= y * w + x < w * h) by (nonlinear_arith)
        requires
            0 <= x < w,
            0 <= y < h,
    ;
}

/// Row-major indexing is injective over in-bounds cells.
proof fn lemma_index_injective(w: int, h: int, a: (int, int), b: (int, int))
    requires
        0 <= a.0 < w,
        0 <= a.1 < h,
        0 <= b.0 < w,
        0 <= b.1 < h,
        a.1 * w + a.0 == b.1 * w + b.0,
    ensures
        a == b,
{
    assert(a.0 == b.0 && a.1 == b.1) by (nonlinear_arith)
        requires
            0 <= a.0 < w,
            0 <= a.1 < h,
            0 <= b.0 < w,
            0 <= b.1 < h,
            a.1 * w + a.0 == b.1 * w + b.0,
    ;
}

/// Depressing one cell changes `is_pressed` for that cell alone.
proof fn lemma_pressed_insert(o: Minesweeper, n: Minesweeper, p: (usize, usize))
    requires
        o.inv(),
        p.0 < o.width,
        p.1 < o.height,
        n.width == o.width,
        n.height == o.height,
        n.pressed_set() == o.pressed_set().insert(o.index_at(cell_of(p)) as usize),
    ensures
        forall|q: (int, int)|
            #[trigger] n.is_pressed(q) <==> (o.is_pressed(q) || q == cell_of(p)),
{
    lemma_index_bound(p.0 as int, p.1 as int, o.width as int, o.height as int);
    assert forall|q: (int, int)| #[trigger] n.is_pressed(q) <==> (o.is_pressed(q) || q == cell_of(
        p,
    )) by {
        if n.in_b(q) && n.pressed_set().contains(n.index_at(q) as usize) && !o.is_pressed(q) {
            lemma_index_bound(q.0, q.1, o.width as int, o.height as int);
            lemma_index_injective(o.width as int, o.height as int, q, cell_of(p));
        }
    }
}

} // verus!
