use vstd::prelude::*;

use rand::Rng;
use rayon::iter::{IndexedParallelIterator, IntoParallelIterator, ParallelIterator};

use crate::error::Error;
use crate::text_format::{
    comma_count, comma_count_exec, decoded_grid, encode_row, encode_rows, first_nonempty,
    lemma_counts_bounds, lemma_encode_rows_push, lemma_first_bad_row, lemma_first_nonempty,
    lemma_row_tokens_push, lemma_split_lines_len, lemma_text_round_trip_rows, line_cells,
    line_cells_exec, row_tokens, rows_ok, split_lines, split_lines_exec, string_from_ascii_bytes,
    trim_trailing_empty, ALIVE_BYTE, COMMA_BYTE, DEAD_BYTE, LBRACKET_BYTE, NEWLINE_BYTE,
    QUOTE_BYTE, RBRACKET_BYTE, SPACE_BYTE,
};
use vstd::string::StringSliceAdditionalSpecFns;
use vstd::utf8::encode_utf8;

verus! {

/// The character that marks an alive cell in the text encoding.
pub const ALIVE_CHAR: char = 'O';

/// The character that marks a dead cell in the text encoding.
pub const DEAD_CHAR: char = '.';

/// The largest grid extent on either axis. Cell locations are stored as
/// `i32` coordinates, so a dimension must fit in a non-negative `i32`.
pub const MAX_DIMENSION: u32 = 0x7fff_ffff;

/// An immutable two-dimensional integer coordinate. Both coordinates may be
/// negative: such locations never lie inside a grid, but they arise
/// transiently while enumerating the neighbors of a border cell.
#[derive(Clone, Copy, Debug, PartialEq, Eq, Structural)]
pub struct Location {
    pub x: i32,
    pub y: i32,
}

impl Location {
    pub fn new(x: i32, y: i32) -> (r: Self)
        ensures
            r == (Location { x, y }),
    {
        Location { x, y }
    }
}

/// A liveness flag bound to a location. The location is fixed at
/// construction; a generation step replaces cells wholesale rather than
/// mutating them in place.
#[derive(Clone, Copy, Debug, PartialEq, Eq, Structural)]
pub struct Cell {
    pub is_alive: bool,
    pub location: Location,
}

impl Cell {
    pub fn new(is_alive: bool, location: Location) -> (r: Self)
        ensures
            r == (Cell { is_alive, location }),
    {
        Cell { is_alive, location }
    }

    /// The cell that a text-encoding character stands for, if any.
    pub open spec fn spec_from_char(c: char, location: Location) -> Option<Cell> {
        if c == ALIVE_CHAR {
            Some(Cell { is_alive: true, location })
        } else if c == DEAD_CHAR {
            Some(Cell { is_alive: false, location })
        } else {
            None
        }
    }

    pub fn from_char(c: char, location: Location) -> (r: Option<Self>)
        ensures
            r == Self::spec_from_char(c, location),
    {
        if c == ALIVE_CHAR {
            Some(Cell { is_alive: true, location })
        } else if c == DEAD_CHAR {
            Some(Cell { is_alive: false, location })
        } else {
            None
        }
    }
}

/// A rectangular grid of cells, the state of one generation.
///
/// The well-formedness invariant [`GameState::wf`] ties the stored cells to
/// their positional indices: row `y` has exactly `width` cells and the cell
/// in column `x` of that row carries location `(x, y)`.
pub struct GameState {
    width: u32,
    height: u32,
    cells: Vec<Vec<Cell>>,
}

impl GameState {
    pub closed spec fn spec_width(&self) -> u32 {
        self.width
    }

    pub closed spec fn spec_height(&self) -> u32 {
        self.height
    }

    /// The stored cell at column `x` of row `y`.
    pub closed spec fn cell_at(&self, x: int, y: int) -> Cell {
        self.cells@[y]@[x]
    }

    /// Whether `(x, y)` lies inside the grid. The upper bounds are strict:
    /// the valid range is `0 <= x < width` and `0 <= y < height`.
    pub open spec fn in_bounds(&self, x: int, y: int) -> bool {
        0 <= x < self.spec_width() && 0 <= y < self.spec_height()
    }

    pub open spec fn loc_in_bounds(&self, loc: Location) -> bool {
        self.in_bounds(loc.x as int, loc.y as int)
    }

    /// The shape of the stored cell array: `height` rows of `width` cells.
    pub closed spec fn rows_wf(&self) -> bool {
        &&& self.cells@.len() == self.height
        &&& (forall|y: int|
            0 <= y < self.height ==> (#[trigger] self.cells@[y])@.len() == self.width)
    }

    /// The grid's well-formedness invariant: `height` rows of `width` cells,
    /// each cell's stored location matching its positional index, and both
    /// dimensions small enough for `i32` coordinates. Every constructor
    /// establishes it and every mutator preserves it.
    pub open spec fn wf(&self) -> bool {
        &&& self.spec_width() <= MAX_DIMENSION
        &&& self.spec_height() <= MAX_DIMENSION
        &&& self.rows_wf()
        &&& (forall|x: int, y: int|
            self.in_bounds(x, y) ==> (#[trigger] self.cell_at(x, y)).location == (Location {
                x: x as i32,
                y: y as i32,
            }))
    }

    /// Whether the cell at `(x, y)` is alive. Locations outside the grid are
    /// treated as permanently dead: the grid has an implicit dead border.
    pub open spec fn alive_at(&self, x: int, y: int) -> bool {
        self.in_bounds(x, y) && self.cell_at(x, y).is_alive
    }

    /// The aliveness of the whole grid, row by row.
    pub open spec fn grid_rows(&self) -> Seq<Seq<bool>> {
        Seq::new(
            self.spec_height() as nat,
            |y: int| Seq::new(self.spec_width() as nat, |x: int| self.alive_at(x, y)),
        )
    }

    /// A blank grid: every cell dead.
    pub fn new_blank(width: u32, height: u32) -> (r: Self)
        requires
            width <= MAX_DIMENSION,
            height <= MAX_DIMENSION,
        ensures
            r.wf(),
            r.spec_width() == width,
            r.spec_height() == height,
            forall|x: int, y: int| !r.alive_at(x, y),
    {
        let mut cells: Vec<Vec<Cell>> = Vec::new();
        let mut y: u32 = 0;
        while y < height
            invariant
                y <= height,
                width <= MAX_DIMENSION,
                height <= MAX_DIMENSION,
                cells@.len() == y,
                forall|j: int| 0 <= j < y ==> (#[trigger] cells@[j])@.len() == width,
                forall|i: int, j: int|
                    0 <= j < y && 0 <= i < width ==> (#[trigger] cells@[j]@[i]) == (Cell {
                        is_alive: false,
                        location: Location { x: i as i32, y: j as i32 },
                    }),
            decreases height - y,
        {
            let mut row: Vec<Cell> = Vec::new();
            let mut x: u32 = 0;
            while x < width
                invariant
                    x <= width,
                    width <= MAX_DIMENSION,
                    y < height,
                    height <= MAX_DIMENSION,
                    row@.len() == x,
                    forall|i: int|
                        0 <= i < x ==> (#[trigger] row@[i]) == (Cell {
                            is_alive: false,
                            location: Location { x: i as i32, y: y as i32 },
                        }),
                decreases width - x,
            {
                row.push(Cell { is_alive: false, location: Location { x: x as i32, y: y as i32 } });
                x = x + 1;
            }
            cells.push(row);
            y = y + 1;
        }
        GameState { width, height, cells }
    }

    pub fn width(&self) -> (r: u32)
        ensures
            r == self.spec_width(),
    {
        self.width
    }

    pub fn height(&self) -> (r: u32)
        ensures
            r == self.spec_height(),
    {
        self.height
    }

    pub fn get_cells(&self) -> (r: &Vec<Vec<Cell>>)
        requires
            self.wf(),
        ensures
            r@.len() == self.spec_height(),
            forall|y: int| 0 <= y < self.spec_height() ==> (#[trigger] r@[y])@.len()
                == self.spec_width(),
            forall|x: int, y: int|
                self.in_bounds(x, y) ==> (#[trigger] r@[y]@[x]) == self.cell_at(x, y),
    {
        &self.cells
    }

    /// Replaces the whole cell array. The caller must supply rows that match
    /// the grid's dimensions and the location-matches-index invariant.
    pub fn set_cells(&mut self, cells: Vec<Vec<Cell>>)
        requires
            old(self).wf(),
            cells@.len() == old(self).spec_height(),
            forall|y: int|
                0 <= y < old(self).spec_height() ==> (#[trigger] cells@[y])@.len() == old(
                    self,
                ).spec_width(),
            forall|x: int, y: int|
                old(self).in_bounds(x, y) ==> (#[trigger] cells@[y]@[x]).location == (Location {
                    x: x as i32,
                    y: y as i32,
                }),
        ensures
            final(self).wf(),
            final(self).spec_width() == old(self).spec_width(),
            final(self).spec_height() == old(self).spec_height(),
            forall|x: int, y: int|
                old(self).in_bounds(x, y) ==> final(self).cell_at(x, y) == cells@[y]@[x],
    {
        self.cells = cells;
    }

    /// Reads the cell at `location`, or reports it absent. A location
    /// outside `[0, width) x [0, height)` on either axis — negative included
    /// — is absent, not alive or dead.
    pub fn get_cell_by_location(&self, location: &Location) -> (r: Option<&Cell>)
        requires
            self.wf(),
        ensures
            r is Some <==> self.loc_in_bounds(*location),
            r matches Some(c) ==> *c == self.cell_at(location.x as int, location.y as int),
    {
        if location.x < 0 || location.y < 0 {
            return None;
        }
        if location.x as u32 >= self.width || location.y as u32 >= self.height {
            return None;
        }
        Some(&self.cells[location.y as usize][location.x as usize])
    }

    /// What a successful write leaves behind: the same dimensions, the new
    /// cell at the written location, and every other cell unchanged.
    pub open spec fn set_outcome(pre: GameState, post: GameState, loc: Location, c: Cell) -> bool {
        &&& post.spec_width() == pre.spec_width()
        &&& post.spec_height() == pre.spec_height()
        &&& post.cell_at(loc.x as int, loc.y as int) == c
        &&& forall|x: int, y: int|
            pre.in_bounds(x, y) && !(x == loc.x as int && y == loc.y as int)
                ==> #[trigger] post.cell_at(x, y) == pre.cell_at(x, y)
    }

    /// Replaces the cell at `location`, failing with [`Error::OutOfBounds`]
    /// for any location outside the grid (the same strict bounds as
    /// [`GameState::get_cell_by_location`]). The caller must hand in a cell
    /// whose stored location matches the slot it is written to; anything
    /// else would break the grid invariant.
    pub fn set_cell_by_location(&mut self, location: &Location, new_cell: Cell) -> (r: Result<
        (),
        Error,
    >)
        requires
            old(self).wf(),
            old(self).loc_in_bounds(*location) ==> new_cell.location == *location,
        ensures
            final(self).wf(),
            r is Ok <==> old(self).loc_in_bounds(*location),
            r matches Err(e) ==> e == Error::OutOfBounds && *final(self) == *old(self),
            r is Ok ==> Self::set_outcome(*old(self), *final(self), *location, new_cell),
    {
        if location.x < 0 || location.y < 0 {
            return Err(Error::OutOfBounds);
        }
        if location.x as u32 >= self.width || location.y as u32 >= self.height {
            return Err(Error::OutOfBounds);
        }
        let yi = location.y as usize;
        let xi = location.x as usize;
        self.cells[yi][xi] = new_cell;
        proof {
            assert forall|x: int, y: int| self.in_bounds(x, y) implies (#[trigger] self.cell_at(
                x,
                y,
            )).location == (Location { x: x as i32, y: y as i32 }) by {
                assert(old(self).cell_at(x, y).location == (Location { x: x as i32, y: y as i32 }));
            }
        }
        Ok(())
    }

    /// The cell stored at `loc`, or `None` for a location outside the grid.
    pub open spec fn spec_get(&self, loc: Location) -> Option<Cell> {
        if self.loc_in_bounds(loc) {
            Some(self.cell_at(loc.x as int, loc.y as int))
        } else {
            None
        }
    }

    /// The eight coordinates of the 3x3 block around `location`, minus its
    /// center, whether or not they fall inside any grid. The order is fixed:
    /// the left column top to bottom, then the middle column, then the right.
    pub fn get_surrounding_locations(location: &Location) -> (r: [Option<Location>; 8])
        requires
            -0x8000_0000 < location.x < 0x7fff_ffff,
            -0x8000_0000 < location.y < 0x7fff_ffff,
        ensures
            r@[0] == Some(Location { x: (location.x - 1) as i32, y: (location.y - 1) as i32 }),
            r@[1] == Some(Location { x: (location.x - 1) as i32, y: location.y }),
            r@[2] == Some(Location { x: (location.x - 1) as i32, y: (location.y + 1) as i32 }),
            r@[3] == Some(Location { x: location.x, y: (location.y - 1) as i32 }),
            r@[4] == Some(Location { x: location.x, y: (location.y + 1) as i32 }),
            r@[5] == Some(Location { x: (location.x + 1) as i32, y: (location.y - 1) as i32 }),
            r@[6] == Some(Location { x: (location.x + 1) as i32, y: location.y }),
            r@[7] == Some(Location { x: (location.x + 1) as i32, y: (location.y + 1) as i32 }),
    {
        let xm = location.x - 1;
        let xp = location.x + 1;
        let ym = location.y - 1;
        let yp = location.y + 1;
        [
            Some(Location { x: xm, y: ym }),
            Some(Location { x: xm, y: location.y }),
            Some(Location { x: xm, y: yp }),
            Some(Location { x: location.x, y: ym }),
            Some(Location { x: location.x, y: yp }),
            Some(Location { x: xp, y: ym }),
            Some(Location { x: xp, y: location.y }),
            Some(Location { x: xp, y: yp }),
        ]
    }

    /// How much the cell at `(x, y)` contributes to a neighbor count: one
    /// when alive, zero when dead or outside the grid.
    pub open spec fn neighbor_weight(&self, x: int, y: int) -> int {
        if self.alive_at(x, y) {
            1
        } else {
            0
        }
    }

    /// The number of live cells among the eight neighbors of `(x, y)`.
    /// Off-grid neighbors count as dead.
    pub open spec fn live_neighbors(&self, x: int, y: int) -> int {
        self.neighbor_weight(x - 1, y - 1) + self.neighbor_weight(x - 1, y)
            + self.neighbor_weight(x - 1, y + 1) + self.neighbor_weight(x, y - 1)
            + self.neighbor_weight(x, y + 1) + self.neighbor_weight(x + 1, y - 1)
            + self.neighbor_weight(x + 1, y) + self.neighbor_weight(x + 1, y + 1)
    }

    fn neighbor_alive(&self, loc_opt: &Option<Location>) -> (r: u8)
        requires
            self.wf(),
        ensures
            loc_opt matches Some(l) ==> r as int == self.neighbor_weight(l.x as int, l.y as int),
            r <= 1,
    {
        match loc_opt {
            Some(l) => {
                match self.get_cell_by_location(l) {
                    Some(c) => if c.is_alive {
                        1
                    } else {
                        0
                    },
                    None => 0,
                }
            },
            None => 0,
        }
    }

    /// Counts the live neighbors of `location`, treating every off-grid
    /// neighbor as dead.
    pub fn get_surrounding_living_cells(&self, location: &Location) -> (r: u8)
        requires
            self.wf(),
            -0x8000_0000 < location.x < 0x7fff_ffff,
            -0x8000_0000 < location.y < 0x7fff_ffff,
        ensures
            r as int == self.live_neighbors(location.x as int, location.y as int),
    {
        let locs = Self::get_surrounding_locations(location);
        let c0 = self.neighbor_alive(&locs[0]);
        let c1 = self.neighbor_alive(&locs[1]);
        let c2 = self.neighbor_alive(&locs[2]);
        let c3 = self.neighbor_alive(&locs[3]);
        let c4 = self.neighbor_alive(&locs[4]);
        let c5 = self.neighbor_alive(&locs[5]);
        let c6 = self.neighbor_alive(&locs[6]);
        let c7 = self.neighbor_alive(&locs[7]);
        c0 + c1 + c2 + c3 + c4 + c5 + c6 + c7
    }

    /// The generation rule, applied to a cell that was `was_alive` and has
    /// `n` live neighbors: one or fewer kills, two leaves the cell as it
    /// was, exactly three makes it alive, four or more kills.
    pub open spec fn rule_next(was_alive: bool, n: int) -> bool {
        if n == 2 {
            was_alive
        } else {
            n == 3
        }
    }

    /// Whether the cell at `(x, y)` is alive in the next generation.
    pub open spec fn next_alive(&self, x: int, y: int) -> bool {
        Self::rule_next(self.alive_at(x, y), self.live_neighbors(x, y))
    }

    /// The next generation's value of one cell, computed entirely from this
    /// (previous) generation.
    fn update_cell(&self, cell: &Cell) -> (r: Cell)
        requires
            self.wf(),
            self.loc_in_bounds(cell.location),
        ensures
            r.location == cell.location,
            r.is_alive == Self::rule_next(
                cell.is_alive,
                self.live_neighbors(cell.location.x as int, cell.location.y as int),
            ),
    {
        let alive_count = self.get_surrounding_living_cells(&cell.location);
        let is_alive = if alive_count <= 1 {
            false
        } else if alive_count == 2 {
            cell.is_alive
        } else if alive_count == 3 {
            true
        } else {
            // four or more neighbors; the count can never exceed eight,
            // since exactly eight neighbor coordinates are enumerated
            false
        };
        Cell { is_alive, location: cell.location }
    }

    /// Row `y` of the next generation.
    pub open spec fn next_row_spec(&self, y: int) -> Seq<Cell> {
        Seq::new(
            self.spec_width() as nat,
            |x: int| Cell {
                is_alive: self.next_alive(x, y),
                location: Location { x: x as i32, y: y as i32 },
            },
        )
    }

    fn next_row(&self, y: u32) -> (r: Vec<Cell>)
        requires
            self.wf(),
            y < self.spec_height(),
        ensures
            r@ == self.next_row_spec(y as int),
    {
        let mut row: Vec<Cell> = Vec::new();
        let mut x: u32 = 0;
        while x < self.width
            invariant
                self.wf(),
                y < self.spec_height(),
                x <= self.spec_width(),
                row@.len() == x,
                forall|i: int|
                    0 <= i < x ==> (#[trigger] row@[i]) == (Cell {
                        is_alive: self.next_alive(i, y as int),
                        location: Location { x: i as i32, y: y as i32 },
                    }),
            decreases self.spec_width() - x,
        {
            let cell = self.cells[y as usize][x as usize];
            proof {
                assert(self.cell_at(x as int, y as int).location == (Location {
                    x: x as i32,
                    y: y as i32,
                }));
            }
            let updated = self.update_cell(&cell);
            row.push(updated);
            x = x + 1;
        }
        proof {
            assert(row@ =~= self.next_row_spec(y as int));
        }
        row
    }

    /// Relies on rayon's `IntoParallelIterator` for ranges and
    /// `ParallelIterator::map` with `collect`: collecting an indexed parallel
    /// map over `0..height` into a `Vec` yields one element per index, in
    /// index order, each the closure's result. The closure only calls the
    /// verified `next_row` on its index.
    #[verifier::external_body]
    fn compute_next_rows(&self) -> (r: Vec<Vec<Cell>>)
        requires
            self.wf(),
        ensures
            r@.len() == self.spec_height(),
            forall|y: int|
                0 <= y < self.spec_height() ==> (#[trigger] r@[y])@ == self.next_row_spec(y),
    {
        (0..self.height).into_par_iter().map(|y| self.next_row(y)).collect()
    }

    /// Advances the grid by one generation. Every cell's new state is
    /// computed from the previous generation only, and the whole grid is
    /// swapped in at once: no cell ever observes an already-updated
    /// neighbor. The rows are computed as independent parallel tasks over
    /// the immutable previous snapshot.
    pub fn update(&mut self)
        requires
            old(self).wf(),
        ensures
            final(self).wf(),
            final(self).spec_width() == old(self).spec_width(),
            final(self).spec_height() == old(self).spec_height(),
            forall|x: int, y: int|
                old(self).in_bounds(x, y) ==> (final(self).alive_at(x, y) == old(self).next_alive(
                    x,
                    y,
                )),
    {
        let new_cells = self.compute_next_rows();
        self.cells = new_cells;
    }

    /// A grid filled cell-by-cell by independent draws from the process's
    /// random generator, each alive with probability `chance_numer /
    /// chance_denom`. A ratio outside `[0, 1]` — including a zero
    /// denominator — is rejected with [`Error::InvalidArgument`]; the
    /// boundary ratios zero and one are legal and exact, whatever the
    /// generator returns: zero gives an all-dead grid and one an all-alive
    /// grid.
    pub fn new_rand_filled(width: u32, height: u32, chance_numer: u32, chance_denom: u32) -> (r:
        Result<Self, Error>)
        requires
            width <= MAX_DIMENSION,
            height <= MAX_DIMENSION,
        ensures
            r is Ok <==> (1 <= chance_denom && chance_numer <= chance_denom),
            r matches Err(e) ==> e == Error::InvalidArgument,
            r matches Ok(g) ==> {
                &&& g.wf()
                &&& g.spec_width() == width
                &&& g.spec_height() == height
                &&& (chance_numer == 0 ==> forall|x: int, y: int| !g.alive_at(x, y))
                &&& (chance_numer == chance_denom ==> forall|x: int, y: int|
                    g.in_bounds(x, y) ==> g.alive_at(x, y))
            },
    {
        if chance_denom == 0 || chance_numer > chance_denom {
            return Err(Error::InvalidArgument);
        }
        let mut cells: Vec<Vec<Cell>> = Vec::new();
        let mut y: u32 = 0;
        while y < height
            invariant
                y <= height,
                width <= MAX_DIMENSION,
                height <= MAX_DIMENSION,
                1 <= chance_denom,
                chance_numer <= chance_denom,
                cells@.len() == y,
                forall|j: int| 0 <= j < y ==> (#[trigger] cells@[j])@.len() == width,
                forall|i: int, j: int|
                    0 <= j < y && 0 <= i < width ==> (#[trigger] cells@[j]@[i]).location
                        == (Location { x: i as i32, y: j as i32 }),
                chance_numer == 0 ==> forall|i: int, j: int|
                    0 <= j < y && 0 <= i < width ==> !(#[trigger] cells@[j]@[i]).is_alive,
                chance_numer == chance_denom ==> forall|i: int, j: int|
                    0 <= j < y && 0 <= i < width ==> (#[trigger] cells@[j]@[i]).is_alive,
            decreases height - y,
        {
            let mut row: Vec<Cell> = Vec::new();
            let mut x: u32 = 0;
            while x < width
                invariant
                    x <= width,
                    width <= MAX_DIMENSION,
                    y < height,
                    height <= MAX_DIMENSION,
                    1 <= chance_denom,
                    chance_numer <= chance_denom,
                    row@.len() == x,
                    forall|i: int|
                        0 <= i < x ==> (#[trigger] row@[i]).location == (Location {
                            x: i as i32,
                            y: y as i32,
                        }),
                    chance_numer == 0 ==> forall|i: int|
                        0 <= i < x ==> !(#[trigger] row@[i]).is_alive,
                    chance_numer == chance_denom ==> forall|i: int|
                        0 <= i < x ==> (#[trigger] row@[i]).is_alive,
                decreases width - x,
            {
                let is_alive = random_bool_ratio(chance_numer, chance_denom);
                row.push(Cell { is_alive, location: Location { x: x as i32, y: y as i32 } });
                x = x + 1;
            }
            cells.push(row);
            y = y + 1;
        }
        Ok(GameState { width, height, cells })
    }

    /// Renders the grid in the persisted text shape, one line per row,
    /// e.g. `['O', '.', '.']` for a three-wide row with one alive cell.
    pub fn to_state_string(&self) -> (r: String)
        requires
            self.wf(),
        ensures
            encode_utf8(r@) == encode_rows(self.grid_rows()),
    {
        let mut bytes: Vec<u8> = Vec::new();
        let mut y: u32 = 0;
        proof {
            assert(self.grid_rows().take(0) =~= Seq::<Seq<bool>>::empty());
        }
        while y < self.height
            invariant
                self.wf(),
                y <= self.spec_height(),
                bytes@ == encode_rows(self.grid_rows().take(y as int)),
                forall|k: int| 0 <= k < bytes@.len() ==> bytes@[k] < 128,
            decreases self.spec_height() - y,
        {
            let ghost rowseq = self.grid_rows()[y as int];
            let ghost enc_pre = bytes@;
            bytes.push(LBRACKET_BYTE);
            proof {
                assert(rowseq.take(0) =~= Seq::<bool>::empty());
                assert(bytes@ =~= enc_pre + seq![LBRACKET_BYTE] + row_tokens(rowseq.take(0)));
            }
            let mut x: u32 = 0;
            while x < self.width
                invariant
                    self.wf(),
                    y < self.spec_height(),
                    x <= self.spec_width(),
                    rowseq == self.grid_rows()[y as int],
                    enc_pre == encode_rows(self.grid_rows().take(y as int)),
                    bytes@ == enc_pre + seq![LBRACKET_BYTE] + row_tokens(rowseq.take(x as int)),
                    forall|k: int| 0 <= k < bytes@.len() ==> bytes@[k] < 128,
                decreases self.spec_width() - x,
            {
                let alive = self.cells[y as usize][x as usize].is_alive;
                proof {
                    assert(rowseq[x as int] == self.alive_at(x as int, y as int));
                    assert(rowseq.take(x as int + 1) =~= rowseq.take(x as int).push(
                        rowseq[x as int],
                    ));
                    lemma_row_tokens_push(rowseq.take(x as int), alive);
                }
                let marker = if alive {
                    ALIVE_BYTE
                } else {
                    DEAD_BYTE
                };
                if x == 0 {
                    bytes.push(QUOTE_BYTE);
                    bytes.push(marker);
                    bytes.push(QUOTE_BYTE);
                } else {
                    bytes.push(COMMA_BYTE);
                    bytes.push(SPACE_BYTE);
                    bytes.push(QUOTE_BYTE);
                    bytes.push(marker);
                    bytes.push(QUOTE_BYTE);
                }
                proof {
                    assert(bytes@ =~= enc_pre + seq![LBRACKET_BYTE] + row_tokens(
                        rowseq.take(x as int + 1),
                    ));
                }
                x = x + 1;
            }
            bytes.push(RBRACKET_BYTE);
            bytes.push(NEWLINE_BYTE);
            proof {
                assert(rowseq.take(self.spec_width() as int) =~= rowseq);
                assert(bytes@ =~= enc_pre + encode_row(rowseq));
                lemma_encode_rows_push(self.grid_rows().take(y as int), rowseq);
                assert(self.grid_rows().take(y as int + 1) =~= self.grid_rows().take(
                    y as int,
                ).push(rowseq));
            }
            y = y + 1;
        }
        proof {
            assert(self.grid_rows().take(self.spec_height() as int) =~= self.grid_rows());
        }
        string_from_ascii_bytes(bytes)
    }

    /// Rebuilds a grid from its text shape. The rows are the
    /// newline-separated lines, minus only the trailing empty ones that a
    /// final newline leaves; the width is inferred from the first non-empty
    /// line as its comma count plus one; every row — an interior empty line
    /// included — must denote exactly that many cells, or decoding fails
    /// with [`Error::InvalidFormat`] carrying the index of the first
    /// offending row. A text with no row at all gives a grid of height zero
    /// and width one. The text must be smaller than the largest grid
    /// dimension, since cell coordinates are stored as `i32`.
    pub fn from_state_string(state_string: String) -> (r: Result<GameState, Error>)
        requires
            encode_utf8(state_string@).len() < 0x7fff_ffff,
        ensures
            ({
                let d = decoded_grid(encode_utf8(state_string@));
                match r {
                    Ok(g) => d matches Ok(t) && g.wf() && g.spec_width() == t.0
                        && g.spec_height() == t.1 && g.grid_rows() == t.2,
                    Err(e) => d matches Err(i) && e == Error::InvalidFormat(i as usize),
                }
            }),
    {
        let bytes: &[u8] = state_string.as_str().as_bytes();
        let ghost b = bytes@;
        proof {
            assert(b == encode_utf8(state_string@));
            lemma_split_lines_len(b);
        }
        let lines: Vec<Vec<u8>> = split_lines_exec(bytes);
        let ghost ls = split_lines(b);
        // drop the trailing empty pieces that a final newline leaves
        let mut m: usize = lines.len();
        proof {
            assert(ls.take(ls.len() as int) =~= ls);
        }
        while m > 0 && lines[m - 1].len() == 0
            invariant
                lines@.map_values(|v: Vec<u8>| v@) == ls,
                ls == split_lines(b),
                m <= lines@.len(),
                trim_trailing_empty(ls) == trim_trailing_empty(ls.take(m as int)),
            decreases m,
        {
            proof {
                assert(ls.take(m as int).last() == ls[m as int - 1]);
                assert(ls.take(m as int).drop_last() =~= ls.take(m as int - 1));
            }
            m = m - 1;
        }
        let ghost rows = trim_trailing_empty(ls);
        if m == 0 {
            proof {
                assert(ls.take(0) =~= Seq::<Seq<u8>>::empty());
                assert(rows =~= Seq::<Seq<u8>>::empty());
            }
            let g = GameState { width: 1, height: 0, cells: Vec::new() };
            proof {
                assert(g.wf());
                assert(g.grid_rows() =~= Seq::<Seq<bool>>::empty());
            }
            return Ok(g);
        }
        proof {
            assert(ls.take(m as int).last() == ls[m as int - 1]);
            assert(ls[m as int - 1].len() > 0);
            assert(rows == ls.take(m as int));
        }
        // infer the width from the first non-empty line
        let mut jn: usize = 0;
        while jn < m - 1 && lines[jn].len() == 0
            invariant
                lines@.map_values(|v: Vec<u8>| v@) == ls,
                ls == split_lines(b),
                b.len() < 0x7fff_ffff,
                1 <= ls.len() <= b.len() + 1,
                forall|j: int| 0 <= j < lines@.len() ==> (#[trigger] lines@[j])@.len() <= b.len(),
                1 <= m <= lines@.len(),
                rows == ls.take(m as int),
                ls[m as int - 1].len() > 0,
                jn <= m - 1,
                forall|k: int| 0 <= k < jn ==> (#[trigger] ls[k]).len() == 0,
            decreases m - jn,
        {
            jn = jn + 1;
        }
        proof {
            assert(rows[jn as int] == ls[jn as int]);
            assert(rows[jn as int].len() > 0);
            assert forall|k: int| 0 <= k < jn implies (#[trigger] rows[k]).len() == 0 by {
                assert(rows[k] == ls[k]);
            }
            lemma_first_nonempty(rows, jn as int);
            lemma_counts_bounds(ls[jn as int]);
            assert(lines@[jn as int]@.len() <= b.len());
        }
        let width = comma_count_exec(&lines[jn]) + 1;
        let mut cells: Vec<Vec<Cell>> = Vec::new();
        let mut li: usize = 0;
        while li < m
            invariant
                lines@.map_values(|v: Vec<u8>| v@) == ls,
                b == encode_utf8(state_string@),
                ls == split_lines(b),
                b.len() < 0x7fff_ffff,
                1 <= ls.len() <= b.len() + 1,
                forall|j: int| 0 <= j < lines@.len() ==> (#[trigger] lines@[j])@.len() <= b.len(),
                1 <= m <= lines@.len(),
                rows == trim_trailing_empty(ls),
                rows == ls.take(m as int),
                width as int == comma_count(first_nonempty(rows)) + 1,
                1 <= width <= b.len() + 1,
                li <= m,
                cells@.len() == li,
                forall|j: int| 0 <= j < li ==> (#[trigger] cells@[j])@.len() == width,
                forall|j: int| 0 <= j < li ==> line_cells(#[trigger] rows[j]).len() == width,
                forall|j: int, i: int|
                    0 <= j < li && 0 <= i < width ==> (#[trigger] cells@[j]@[i]) == (Cell {
                        is_alive: line_cells(rows[j])[i],
                        location: Location { x: i as i32, y: j as i32 },
                    }),
            decreases m - li,
        {
            proof {
                assert(lines@[li as int]@ == ls[li as int]);
                assert(rows[li as int] == ls[li as int]);
            }
            let markers = line_cells_exec(&lines[li]);
            if markers.len() != width {
                proof {
                    assert(line_cells(rows[li as int]).len() != width);
                    assert(!rows_ok(rows, width as int));
                    lemma_first_bad_row(rows, width as int, li as int);
                    assert(decoded_grid(b) == Err::<(int, int, Seq<Seq<bool>>), int>(li as int));
                }
                return Err(Error::InvalidFormat(li));
            }
            let mut row: Vec<Cell> = Vec::new();
            let mut x: usize = 0;
            while x < markers.len()
                invariant
                    x <= markers@.len(),
                    markers@.len() == width,
                    width <= 0x7fff_ffff,
                    li < 0x7fff_ffff,
                    row@.len() == x,
                    forall|i: int|
                        0 <= i < x ==> (#[trigger] row@[i]) == (Cell {
                            is_alive: markers@[i],
                            location: Location { x: i as i32, y: li as i32 },
                        }),
                decreases markers@.len() - x,
            {
                row.push(
                    Cell {
                        is_alive: markers[x],
                        location: Location { x: x as i32, y: li as i32 },
                    },
                );
                x = x + 1;
            }
            cells.push(row);
            li = li + 1;
        }
        let g = GameState { width: width as u32, height: m as u32, cells };
        proof {
            assert(g.wf());
            assert(rows_ok(rows, width as int));
            assert(g.grid_rows() =~~= rows.map_values(|l: Seq<u8>| line_cells(l)));
        }
        Ok(g)
    }
}

/// Relies on rand's `Rng::gen_ratio` on the thread-local generator: it
/// returns `true` with probability `numer / denom`. Its documentation
/// guarantees the result is `false` when `numer == 0` and `true` when
/// `numer == denom`, and that the call panics only when `denom == 0` or
/// `numer > denom`.
#[verifier::external_body]
fn random_bool_ratio(numer: u32, denom: u32) -> (r: bool)
    requires
        1 <= denom,
        numer <= denom,
    ensures
        numer == 0 ==> !r,
        numer == denom ==> r,
{
    let mut rng = rand::thread_rng();
    rng.gen_ratio(numer, denom)
}

/// Law: writing a cell at an in-bounds location and reading that location
/// back yields exactly the written cell (whose stored location the write
/// required to match the slot).
pub proof fn lemma_set_then_get(pre: GameState, post: GameState, loc: Location, c: Cell)
    requires
        pre.wf(),
        pre.loc_in_bounds(loc),
        GameState::set_outcome(pre, post, loc, c),
    ensures
        post.spec_get(loc) == Some(c),
{
}

/// Law: in an all-alive grid, a cell in the interior has exactly eight live
/// neighbors.
pub proof fn lemma_interior_neighbor_count(g: GameState, x: int, y: int)
    requires
        g.wf(),
        forall|i: int, j: int| g.in_bounds(i, j) ==> #[trigger] g.alive_at(i, j),
        1 <= x < g.spec_width() - 1,
        1 <= y < g.spec_height() - 1,
    ensures
        g.live_neighbors(x, y) == 8,
{
    assert(g.alive_at(x - 1, y - 1));
    assert(g.alive_at(x - 1, y));
    assert(g.alive_at(x - 1, y + 1));
    assert(g.alive_at(x, y - 1));
    assert(g.alive_at(x, y + 1));
    assert(g.alive_at(x + 1, y - 1));
    assert(g.alive_at(x + 1, y));
    assert(g.alive_at(x + 1, y + 1));
}

/// Law: the corner cell of an all-alive grid counts only its three in-bounds
/// neighbors; the five off-grid neighbors count as dead.
pub proof fn lemma_corner_neighbor_count(g: GameState)
    requires
        g.wf(),
        forall|i: int, j: int| g.in_bounds(i, j) ==> #[trigger] g.alive_at(i, j),
        g.spec_width() >= 2,
        g.spec_height() >= 2,
    ensures
        g.live_neighbors(0, 0) == 3,
{
    assert(g.alive_at(1, 0));
    assert(g.alive_at(0, 1));
    assert(g.alive_at(1, 1));
}

/// Law: the text encoding of any grid with at least one row and one column
/// decodes back to exactly that grid — its width, its height and the
/// aliveness and location of every cell.
pub proof fn lemma_text_round_trip(g: GameState)
    requires
        g.wf(),
        g.spec_width() >= 1,
        g.spec_height() >= 1,
    ensures
        decoded_grid(encode_rows(g.grid_rows())) == Ok::<(int, int, Seq<Seq<bool>>), int>(
            (g.spec_width() as int, g.spec_height() as int, g.grid_rows()),
        ),
{
    lemma_text_round_trip_rows(g.grid_rows(), g.spec_width() as int);
}

/// Law: one generation applied to an all-dead grid leaves every cell dead —
/// there is no spontaneous birth.
pub proof fn lemma_all_dead_stays_dead(g: GameState)
    requires
        g.wf(),
        forall|x: int, y: int| !(#[trigger] g.alive_at(x, y)),
    ensures
        forall|x: int, y: int| !(#[trigger] g.next_alive(x, y)),
{
    assert forall|x: int, y: int| !(#[trigger] g.next_alive(x, y)) by {
        assert(g.live_neighbors(x, y) == 0);
    }
}

} // verus!
