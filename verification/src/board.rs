//! The game board and its generations.
//!
//! The board is a rectangle of cells with a hard edge: there is nothing
//! beyond the border, and what is not on the board never counts as alive.

use vstd::prelude::*;
use crate::point::Point;

verus! {

/// The place of cell (`x`, `y`) in a row-major field of rows `width` long.
pub open spec fn cell_index(x: int, y: int, width: int) -> int {
    x + y * width
}

/// The rule of the game: whether a cell that is `alive` now and has
/// `neighbors` live neighbours is alive in the next generation. A live cell
/// stays with two or three, a dead one wakes with exactly three.
pub open spec fn lives_on(alive: bool, neighbors: int) -> bool {
    if alive {
        neighbors == 2 || neighbors == 3
    } else {
        neighbors == 3
    }
}

/// One for a live cell, zero for a dead one.
pub open spec fn one_if(alive: bool) -> int {
    if alive {
        1
    } else {
        0
    }
}

/// Whether the cell (`x`, `y`) is among the `seeds`.
pub open spec fn is_seed(seeds: Seq<Point>, x: int, y: int) -> bool {
    exists|i: int| 0 <= i < seeds.len() && (#[trigger] seeds[i]).x == x && seeds[i].y == y
}

/// The cells named by `seeds`, as (column, row).
pub open spec fn seed_cells(seeds: Seq<Point>) -> Set<(int, int)> {
    Set::new(|c: (int, int)| is_seed(seeds, c.0, c.1))
}

/// Applies the rule of the game to one cell.
pub fn next_cell(alive: bool, neighbors: u16) -> (next: bool)
    ensures
        next == lives_on(alive, neighbors as int),
{
    if alive {
        neighbors == 2 || neighbors == 3
    } else {
        neighbors == 3
    }
}

/// The four fates of a cell: a live cell with fewer than two live neighbours
/// dies, one with two or three lives on, one with more than three dies; a
/// dead cell wakes with exactly three and stays dead otherwise.
pub proof fn lemma_rule_cases(neighbors: int)
    ensures
        neighbors < 2 ==> !lives_on(true, neighbors),
        neighbors == 2 || neighbors == 3 ==> lives_on(true, neighbors),
        neighbors > 3 ==> !lives_on(true, neighbors),
        neighbors == 3 ==> lives_on(false, neighbors),
        neighbors != 3 ==> !lives_on(false, neighbors),
{
}

/// Whether `c` is one of the eight places around (`x`, `y`).
pub open spec fn is_neighbor(c: (int, int), x: int, y: int) -> bool {
    &&& x - 1 <= c.0 <= x + 1
    &&& y - 1 <= c.1 <= y + 1
    &&& !(c.0 == x && c.1 == y)
}

/// What is written for a cell: a full block where it is alive, a blank where
/// it is dead.
pub open spec fn symbol_of(alive: bool) -> char {
    if alive {
        '\u{2588}'
    } else {
        ' '
    }
}

/// One cell as it is to be shown: where, and with which character.
#[derive(Debug, Clone, Copy, PartialEq, Eq, Structural)]
pub struct Glyph {
    /// The column of the cell.
    pub x: u16,
    /// The row of the cell.
    pub y: u16,
    /// The character that stands for the cell's state.
    pub symbol: char,
}

/// Cells of one row-major field are told apart by their index.
pub proof fn lemma_cell_index_unique(x1: int, y1: int, x2: int, y2: int, width: int)
    requires
        0 <= x1 < width,
        0 <= x2 < width,
        cell_index(x1, y1, width) == cell_index(x2, y2, width),
    ensures
        x1 == x2,
        y1 == y2,
{
    assert(y1 == y2) by (nonlinear_arith)
        requires
            0 <= x1 < width,
            0 <= x2 < width,
            x1 + y1 * width == x2 + y2 * width,
    ;
    assert(x1 == x2);
}

/// The index of a cell of the board lies in its field.
pub proof fn lemma_cell_index_in_field(x: int, y: int, width: int, height: int)
    requires
        0 <= x < width,
        0 <= y < height,
    ensures
        0 <= cell_index(x, y, width) < width * height,
        width * height == height * width,
        y * width <= cell_index(x, y, width),
{
    assert(0 <= x + y * width < width * height && width * height == height * width && y * width
        <= x + y * width) by (nonlinear_arith)
        requires
            0 <= x < width,
            0 <= y < height,
    ;
}

/// A rectangular board of cells, each alive or dead.
pub struct GameBoard {
    /// Width of the board in cells.
    pub width: u16,
    /// Height of the board in cells.
    pub height: u16,
    /// The state of each cell, `true` for alive, row after row: cell
    /// (`x`, `y`) is at index `x + y * width`.
    pub points: Vec<bool>,
}

impl View for GameBoard {
    type V = Set<(int, int)>;

    /// The cells that are alive, as (column, row).
    open spec fn view(&self) -> Set<(int, int)> {
        Set::new(|c: (int, int)| self.alive(c.0, c.1))
    }
}

impl GameBoard {
    /// The field has exactly one entry for each cell.
    pub open spec fn wf(&self) -> bool {
        self.points@.len() == self.width * self.height
    }

    /// Whether (`x`, `y`) is a cell of the board.
    pub open spec fn in_grid(&self, x: int, y: int) -> bool {
        0 <= x < self.width && 0 <= y < self.height
    }

    /// Whether (`x`, `y`) is a cell of the board and alive.
    pub open spec fn alive(&self, x: int, y: int) -> bool {
        self.in_grid(x, y) && self.points@[cell_index(x, y, self.width as int)]
    }

    /// How many of the eight cells around (`x`, `y`) are alive.
    pub open spec fn live_neighbors(&self, x: int, y: int) -> int {
        one_if(self.alive(x - 1, y - 1)) + one_if(self.alive(x - 1, y)) + one_if(
            self.alive(x - 1, y + 1),
        ) + one_if(self.alive(x, y - 1)) + one_if(self.alive(x, y + 1)) + one_if(
            self.alive(x + 1, y - 1),
        ) + one_if(self.alive(x + 1, y)) + one_if(self.alive(x + 1, y + 1))
    }

    /// How many of the eight places around (`x`, `y`) are cells of the board.
    pub open spec fn cells_around(&self, x: int, y: int) -> int {
        one_if(self.in_grid(x - 1, y - 1)) + one_if(self.in_grid(x - 1, y)) + one_if(
            self.in_grid(x - 1, y + 1),
        ) + one_if(self.in_grid(x, y - 1)) + one_if(self.in_grid(x, y + 1)) + one_if(
            self.in_grid(x + 1, y - 1),
        ) + one_if(self.in_grid(x + 1, y)) + one_if(self.in_grid(x + 1, y + 1))
    }

    /// The live cells among the eight places around (`x`, `y`).
    pub open spec fn live_around(&self, x: int, y: int) -> Set<(int, int)> {
        Set::new(|c: (int, int)| is_neighbor(c, x, y) && self.alive(c.0, c.1))
    }

    /// The same rectangle with the same cells alive.
    pub open spec fn same_as(&self, other: &GameBoard) -> bool {
        &&& self.width == other.width
        &&& self.height == other.height
        &&& self.points@ == other.points@
    }

    /// The count of live neighbours does not depend on the cell itself: two
    /// boards that differ at most in the cell (`x`, `y`) give it the same
    /// count.
    pub proof fn lemma_neighbors_exclude_self(&self, other: &GameBoard, x: int, y: int)
        requires
            forall|cx: int, cy: int|
                !(cx == x && cy == y) ==> self.alive(cx, cy) == #[trigger] other.alive(cx, cy),
        ensures
            self.live_neighbors(x, y) == other.live_neighbors(x, y),
    {
        assert(self.alive(x - 1, y - 1) == other.alive(x - 1, y - 1));
        assert(self.alive(x - 1, y) == other.alive(x - 1, y));
        assert(self.alive(x - 1, y + 1) == other.alive(x - 1, y + 1));
        assert(self.alive(x, y - 1) == other.alive(x, y - 1));
        assert(self.alive(x, y + 1) == other.alive(x, y + 1));
        assert(self.alive(x + 1, y - 1) == other.alive(x + 1, y - 1));
        assert(self.alive(x + 1, y) == other.alive(x + 1, y));
        assert(self.alive(x + 1, y + 1) == other.alive(x + 1, y + 1));
    }

    /// Nothing beyond the border is counted: the count of live neighbours is
    /// at most the number of neighbouring places that are cells of the board,
    /// which is at most eight.
    pub proof fn lemma_neighbors_within_board(&self, x: int, y: int)
        ensures
            0 <= self.live_neighbors(x, y) <= self.cells_around(x, y) <= 8,
            forall|cx: int, cy: int| !self.in_grid(cx, cy) ==> !#[trigger] self.alive(cx, cy),
    {
    }

    /// The count of live neighbours is the number of live cells of the board
    /// among the eight places around the cell: the cell itself is not among
    /// them, and neither is any place that is no cell of the board.
    pub proof fn lemma_neighbors_count_live_around(&self, x: int, y: int)
        ensures
            self.live_around(x, y).finite(),
            self.live_neighbors(x, y) == self.live_around(x, y).len(),
            self.live_around(x, y).subset_of(self@),
            !self.live_around(x, y).contains((x, y)),
    {
        let s0 = Set::<(int, int)>::empty();
        let s1 = if self.alive(x - 1, y - 1) {
            s0.insert((x - 1, y - 1))
        } else {
            s0
        };
        let s2 = if self.alive(x - 1, y) {
            s1.insert((x - 1, y))
        } else {
            s1
        };
        let s3 = if self.alive(x - 1, y + 1) {
            s2.insert((x - 1, y + 1))
        } else {
            s2
        };
        let s4 = if self.alive(x, y - 1) {
            s3.insert((x, y - 1))
        } else {
            s3
        };
        let s5 = if self.alive(x, y + 1) {
            s4.insert((x, y + 1))
        } else {
            s4
        };
        let s6 = if self.alive(x + 1, y - 1) {
            s5.insert((x + 1, y - 1))
        } else {
            s5
        };
        let s7 = if self.alive(x + 1, y) {
            s6.insert((x + 1, y))
        } else {
            s6
        };
        let s8 = if self.alive(x + 1, y + 1) {
            s7.insert((x + 1, y + 1))
        } else {
            s7
        };
        assert(s1.finite() && s1.len() == one_if(self.alive(x - 1, y - 1)));
        assert(s2.finite() && s2.len() == s1.len() + one_if(self.alive(x - 1, y)));
        assert(s3.finite() && s3.len() == s2.len() + one_if(self.alive(x - 1, y + 1)));
        assert(s4.finite() && s4.len() == s3.len() + one_if(self.alive(x, y - 1)));
        assert(s5.finite() && s5.len() == s4.len() + one_if(self.alive(x, y + 1)));
        assert(s6.finite() && s6.len() == s5.len() + one_if(self.alive(x + 1, y - 1)));
        assert(s7.finite() && s7.len() == s6.len() + one_if(self.alive(x + 1, y)));
        assert(s8.finite() && s8.len() == s7.len() + one_if(self.alive(x + 1, y + 1)));
        assert(s8 =~= self.live_around(x, y));
    }

    /// Whether `next` is the generation that follows `self`: the same
    /// rectangle, each cell decided by the rule from this generation alone.
    pub open spec fn steps_to(&self, next: &GameBoard) -> bool {
        &&& next.wf()
        &&& next.width == self.width
        &&& next.height == self.height
        &&& forall|x: int, y: int|
            self.in_grid(x, y) ==> (#[trigger] next.alive(x, y) <==> lives_on(
                self.alive(x, y),
                self.live_neighbors(x, y),
            ))
    }

    /// Creates a board of `width` by `height` cells on which exactly the cells
    /// of `init_state` are alive. Every seed must be a cell of the board.
    pub fn new(width: u16, height: u16, init_state: &Vec<Point>) -> (board: GameBoard)
        requires
            forall|i: int|
                0 <= i < init_state@.len() ==> (#[trigger] init_state@[i]).x < width
                    && init_state@[i].y < height,
        ensures
            board.wf(),
            board.width == width,
            board.height == height,
            forall|x: int, y: int|
                board.in_grid(x, y) ==> (#[trigger] board.alive(x, y) <==> is_seed(
                    init_state@,
                    x,
                    y,
                )),
            board@ == seed_cells(init_state@),
    {
        assert(width * height <= 0xffff * 0xffff) by (nonlinear_arith)
            requires
                0 <= width <= 0xffff,
                0 <= height <= 0xffff,
        ;
        let total: usize = width as usize * height as usize;
        let mut points: Vec<bool> = vec![false; total];
        assert forall|x: int, y: int| 0 <= x < width && 0 <= y < height implies !(
        #[trigger] points@[cell_index(x, y, width as int)]) by {
            lemma_cell_index_in_field(x, y, width as int, height as int);
        }
        let mut i: usize = 0;
        while i < init_state.len()
            invariant
                i <= init_state@.len(),
                points@.len() == width * height,
                width * height <= 0xffff * 0xffff,
                forall|k: int|
                    0 <= k < init_state@.len() ==> (#[trigger] init_state@[k]).x < width
                        && init_state@[k].y < height,
                forall|x: int, y: int|
                    0 <= x < width && 0 <= y < height ==> (#[trigger] points@[cell_index(
                        x,
                        y,
                        width as int,
                    )] <==> is_seed(init_state@.take(i as int), x, y)),
            decreases init_state@.len() - i,
        {
            let p = init_state[i];
            proof {
                lemma_cell_index_in_field(p.x as int, p.y as int, width as int, height as int);
            }
            let at: usize = p.x as usize + p.y as usize * width as usize;
            let ghost before = points@;
            points.set(at, true);
            proof {
                let seen = init_state@.take(i as int);
                let more = init_state@.take(i as int + 1);
                assert(more[i as int] == p);
                assert forall|x: int, y: int| 0 <= x < width && 0 <= y < height implies (
                #[trigger] points@[cell_index(x, y, width as int)] <==> is_seed(more, x, y)) by {
                    lemma_cell_index_in_field(x, y, width as int, height as int);
                    if x == p.x && y == p.y {
                        assert(more[i as int].x == x && more[i as int].y == y);
                    } else {
                        if cell_index(x, y, width as int) == at {
                            lemma_cell_index_unique(x, y, p.x as int, p.y as int, width as int);
                        }
                        assert(points@[cell_index(x, y, width as int)] == before[cell_index(
                            x,
                            y,
                            width as int,
                        )]);
                        if is_seed(seen, x, y) {
                            let k = choose|k: int|
                                0 <= k < seen.len() && (#[trigger] seen[k]).x == x && seen[k].y
                                    == y;
                            assert(more[k] == seen[k]);
                        }
                        if is_seed(more, x, y) {
                            let k = choose|k: int|
                                0 <= k < more.len() && (#[trigger] more[k]).x == x && more[k].y
                                    == y;
                            assert(k < i);
                            assert(seen[k] == more[k]);
                        }
                    }
                }
            }
            i += 1;
        }
        assert(init_state@.take(i as int) =~= init_state@);
        let board = GameBoard { width, height, points };
        assert(board@ =~= seed_cells(init_state@));
        board
    }

    /// Whether the cell at (`x`, `y`) is alive. The coordinates are signed and
    /// compared with the edges before any index is formed, so that a place
    /// beyond the border is simply not alive.
    fn is_alive(&self, x: i32, y: i32) -> (alive: bool)
        requires
            self.wf(),
        ensures
            alive == self.alive(x as int, y as int),
    {
        if x < 0 || y < 0 || x >= self.width as i32 || y >= self.height as i32 {
            false
        } else {
            proof {
                lemma_cell_index_in_field(
                    x as int,
                    y as int,
                    self.width as int,
                    self.height as int,
                );
                assert(self.width * self.height <= 0xffff * 0xffff) by (nonlinear_arith)
                    requires
                        0 <= self.width <= 0xffff,
                        0 <= self.height <= 0xffff,
                ;
            }
            self.points[x as usize + y as usize * self.width as usize]
        }
    }

    /// Counts the live cells among the eight neighbours of (`x`, `y`). The
    /// cell itself is not counted, and neither is anything beyond the border:
    /// the board does not wrap around.
    pub fn count_live_neighbors(&self, x: u16, y: u16) -> (count: u16)
        requires
            self.wf(),
        ensures
            count == self.live_neighbors(x as int, y as int),
            count <= 8,
    {
        let cx: i32 = x as i32;
        let cy: i32 = y as i32;
        let mut count: u16 = 0;
        if self.is_alive(cx - 1, cy - 1) {
            count += 1;
        }
        if self.is_alive(cx - 1, cy) {
            count += 1;
        }
        if self.is_alive(cx - 1, cy + 1) {
            count += 1;
        }
        if self.is_alive(cx, cy - 1) {
            count += 1;
        }
        if self.is_alive(cx, cy + 1) {
            count += 1;
        }
        if self.is_alive(cx + 1, cy - 1) {
            count += 1;
        }
        if self.is_alive(cx + 1, cy) {
            count += 1;
        }
        if self.is_alive(cx + 1, cy + 1) {
            count += 1;
        }
        count
    }

    /// Replaces the board by its next generation. Every cell is decided from
    /// the generation before; none sees a neighbour's new state.
    pub fn next_state(&mut self)
        requires
            old(self).wf(),
        ensures
            old(self).steps_to(final(self)),
    {
        let mut next: Vec<bool> = Vec::new();
        let mut y: u16 = 0;
        while y < self.height
            invariant
                self.wf(),
                y <= self.height,
                next@.len() == y * self.width,
                forall|cx: int, cy: int|
                    0 <= cx < self.width && 0 <= cy < y ==> #[trigger] next@[cell_index(
                        cx,
                        cy,
                        self.width as int,
                    )] == lives_on(self.alive(cx, cy), self.live_neighbors(cx, cy)),
            decreases self.height - y,
        {
            let mut x: u16 = 0;
            while x < self.width
                invariant
                    self.wf(),
                    y < self.height,
                    x <= self.width,
                    next@.len() == y * self.width + x,
                    forall|cx: int, cy: int|
                        0 <= cx < self.width && 0 <= cy < y ==> #[trigger] next@[cell_index(
                            cx,
                            cy,
                            self.width as int,
                        )] == lives_on(self.alive(cx, cy), self.live_neighbors(cx, cy)),
                    forall|cx: int|
                        0 <= cx < x ==> #[trigger] next@[cell_index(
                            cx,
                            y as int,
                            self.width as int,
                        )] == lives_on(
                            self.alive(cx, y as int),
                            self.live_neighbors(cx, y as int),
                        ),
                decreases self.width - x,
            {
                let neighbors = self.count_live_neighbors(x, y);
                let alive = self.is_alive(x as i32, y as i32);
                let ghost before = next@;
                next.push(next_cell(alive, neighbors));
                proof {
                    let w = self.width as int;
                    assert(cell_index(x as int, y as int, w) == before.len());
                    assert forall|cx: int, cy: int| 0 <= cx < w && 0 <= cy < y implies
                        #[trigger] next@[cell_index(cx, cy, w)] == lives_on(
                        self.alive(cx, cy),
                        self.live_neighbors(cx, cy),
                    ) by {
                        lemma_cell_index_in_field(cx, cy, w, y as int);
                        assert(next@[cell_index(cx, cy, w)] == before[cell_index(cx, cy, w)]);
                    }
                    assert forall|cx: int| 0 <= cx < x + 1 implies #[trigger] next@[cell_index(
                        cx,
                        y as int,
                        w,
                    )] == lives_on(
                        self.alive(cx, y as int),
                        self.live_neighbors(cx, y as int),
                    ) by {
                        if cx < x {
                            assert(next@[cell_index(cx, y as int, w)] == before[cell_index(
                                cx,
                                y as int,
                                w,
                            )]);
                        }
                    }
                }
                x += 1;
            }
            proof {
                let w = self.width as int;
                assert((y + 1) * w == y * w + w) by (nonlinear_arith);
            }
            y += 1;
        }
        self.points = next;
        proof {
            assert(self.height * self.width == self.width * self.height) by (nonlinear_arith);
            assert forall|x: int, y: int| old(self).in_grid(x, y) implies (#[trigger] self.alive(
                x,
                y,
            ) <==> lives_on(old(self).alive(x, y), old(self).live_neighbors(x, y))) by {
                lemma_cell_index_in_field(x, y, self.width as int, self.height as int);
            }
        }
    }
    /// Lists the cells as they are to be shown: one glyph for every cell,
    /// alive or dead, row after row from the top and from left to right in
    /// each row.
    pub fn frame(&self) -> (glyphs: Vec<Glyph>)
        requires
            self.wf(),
        ensures
            glyphs@.len() == self.width * self.height,
            forall|x: int, y: int|
                self.in_grid(x, y) ==> #[trigger] glyphs@[cell_index(x, y, self.width as int)]
                    == (Glyph { x: x as u16, y: y as u16, symbol: symbol_of(self.alive(x, y)) }),
    {
        let mut glyphs: Vec<Glyph> = Vec::new();
        let mut y: u16 = 0;
        while y < self.height
            invariant
                self.wf(),
                y <= self.height,
                glyphs@.len() == y * self.width,
                forall|cx: int, cy: int|
                    0 <= cx < self.width && 0 <= cy < y ==> #[trigger] glyphs@[cell_index(
                        cx,
                        cy,
                        self.width as int,
                    )] == (Glyph {
                        x: cx as u16,
                        y: cy as u16,
                        symbol: symbol_of(self.alive(cx, cy)),
                    }),
            decreases self.height - y,
        {
            let mut x: u16 = 0;
            while x < self.width
                invariant
                    self.wf(),
                    y < self.height,
                    x <= self.width,
                    glyphs@.len() == y * self.width + x,
                    forall|cx: int, cy: int|
                        0 <= cx < self.width && 0 <= cy < y ==> #[trigger] glyphs@[cell_index(
                            cx,
                            cy,
                            self.width as int,
                        )] == (Glyph {
                            x: cx as u16,
                            y: cy as u16,
                            symbol: symbol_of(self.alive(cx, cy)),
                        }),
                    forall|cx: int|
                        0 <= cx < x ==> #[trigger] glyphs@[cell_index(
                            cx,
                            y as int,
                            self.width as int,
                        )] == (Glyph {
                            x: cx as u16,
                            y: y,
                            symbol: symbol_of(self.alive(cx, y as int)),
                        }),
                decreases self.width - x,
            {
                let symbol = if self.is_alive(x as i32, y as i32) {
                    '\u{2588}'
                } else {
                    ' '
                };
                let ghost before = glyphs@;
                glyphs.push(Glyph { x, y, symbol });
                proof {
                    let w = self.width as int;
                    assert(cell_index(x as int, y as int, w) == before.len());
                    assert forall|cx: int, cy: int| 0 <= cx < w && 0 <= cy < y implies
                        #[trigger] glyphs@[cell_index(cx, cy, w)] == (Glyph {
                        x: cx as u16,
                        y: cy as u16,
                        symbol: symbol_of(self.alive(cx, cy)),
                    }) by {
                        lemma_cell_index_in_field(cx, cy, w, y as int);
                        assert(glyphs@[cell_index(cx, cy, w)] == before[cell_index(cx, cy, w)]);
                    }
                    assert forall|cx: int| 0 <= cx < x + 1 implies #[trigger] glyphs@[cell_index(
                        cx,
                        y as int,
                        w,
                    )] == (Glyph {
                        x: cx as u16,
                        y: y,
                        symbol: symbol_of(self.alive(cx, y as int)),
                    }) by {
                        if cx < x {
                            assert(glyphs@[cell_index(cx, y as int, w)] == before[cell_index(
                                cx,
                                y as int,
                                w,
                            )]);
                        }
                    }
                }
                x += 1;
            }
            proof {
                let w = self.width as int;
                assert((y + 1) * w == y * w + w) by (nonlinear_arith);
            }
            y += 1;
        }
        proof {
            assert(self.height * self.width == self.width * self.height) by (nonlinear_arith);
        }
        glyphs
    }
}

} // verus!
