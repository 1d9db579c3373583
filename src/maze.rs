use vstd::prelude::*;
use crate::generic_search::{clone_is_exact, is_walk, reachable, searchable_space, Searchable};

verus! {

/// The tag of one grid cell.
#[derive(Clone, Copy, Debug, PartialEq, Eq, Structural)]
pub enum Cell {
    Empty,
    Blocked,
    Start,
    Goal,
    Path,
}

/// The character a cell is drawn with.
pub open spec fn cell_char(c: Cell) -> char {
    match c {
        Cell::Empty => ' ',
        Cell::Blocked => 'X',
        Cell::Start => 'S',
        Cell::Goal => 'G',
        Cell::Path => '*',
    }
}

impl Cell {
    /// The character this cell is drawn with.
    pub fn to_char(&self) -> (r: char)
        ensures
            r == cell_char(*self),
    {
        match self {
            Cell::Empty => ' ',
            Cell::Blocked => 'X',
            Cell::Start => 'S',
            Cell::Goal => 'G',
            Cell::Path => '*',
        }
    }
}

/// A position in the grid, by row and column, both counted from zero.
#[derive(Clone, Copy, Debug, Hash, PartialEq, Eq, Structural)]
pub struct MazeLocation {
    pub row: usize,
    pub column: usize,
}

impl MazeLocation {
    pub fn new(row: usize, column: usize) -> (r: Self)
        ensures
            r.row == row,
            r.column == column,
    {
        MazeLocation { row, column }
    }
}

/// Why a maze could not be built.
#[derive(Clone, Copy, Debug, PartialEq, Eq, Structural)]
pub enum MazeError {
    StartOutOfBounds,
    GoalOutOfBounds,
    StartIsGoal,
    DensityOutOfRange,
}

/// Obstruction densities are given in millionths: this value stands for 1.
pub const DENSITY_ONE: u32 = 1_000_000;

/// A random draw is uniform over the `u32` values: this many of them.
pub const DRAW_RANGE: u64 = 4_294_967_296;

/// A draw blocks a cell when `draw / DRAW_RANGE < density / DENSITY_ONE`, so that a
/// uniform draw blocks with probability `density / DENSITY_ONE`.
pub open spec fn draw_blocks(draw: u32, density: u32) -> bool {
    (draw as int) * (DENSITY_ONE as int) < (density as int) * (DRAW_RANGE as int)
}

/// `b` is what some draw gives at the given density.
pub open spec fn drawable(b: bool, density: u32) -> bool {
    exists|d: u32| b == #[trigger] draw_blocks(d, density)
}

/// Where a maze cannot have the given start and goal, the error that says why.
pub open spec fn placement_error(rows: nat, columns: nat, start: MazeLocation, goal: MazeLocation) -> Option<MazeError> {
    if !in_bounds(rows, columns, start) {
        Some(MazeError::StartOutOfBounds)
    } else if !in_bounds(rows, columns, goal) {
        Some(MazeError::GoalOutOfBounds)
    } else if start == goal {
        Some(MazeError::StartIsGoal)
    } else {
        None
    }
}

/// The tag a new maze gives to `l`.
pub open spec fn initial_cell(start: MazeLocation, goal: MazeLocation, blocked: bool, l: MazeLocation) -> Cell {
    if l == start {
        Cell::Start
    } else if l == goal {
        Cell::Goal
    } else if blocked {
        Cell::Blocked
    } else {
        Cell::Empty
    }
}

/// The maze with the given shape, start and goal, and blocked exactly where
/// `blocked` says so, except at start and goal.
pub open spec fn layout(
    rows: nat,
    columns: nat,
    start: MazeLocation,
    goal: MazeLocation,
    blocked: Seq<Seq<bool>>,
) -> MazeView {
    MazeView {
        rows,
        columns,
        start,
        goal,
        grid: Seq::new(
            rows,
            |r: int|
                Seq::new(
                    columns,
                    |c: int|
                        initial_cell(
                            start,
                            goal,
                            blocked[r][c],
                            MazeLocation { row: r as usize, column: c as usize },
                        ),
                ),
        ),
    }
}

/// The abstract content of a maze.
pub struct MazeView {
    pub rows: nat,
    pub columns: nat,
    pub start: MazeLocation,
    pub goal: MazeLocation,
    pub grid: Seq<Seq<Cell>>,
}

pub open spec fn in_bounds(rows: nat, columns: nat, l: MazeLocation) -> bool {
    l.row < rows && l.column < columns
}

impl MazeView {
    pub open spec fn contains(self, l: MazeLocation) -> bool {
        in_bounds(self.rows, self.columns, l)
    }

    pub open spec fn cell(self, l: MazeLocation) -> Cell {
        self.grid[l.row as int][l.column as int]
    }

    /// The grid has the stated shape, start and goal are distinct cells inside it,
    /// and they are the only cells tagged start and goal.
    pub open spec fn wf(self) -> bool {
        &&& self.rows <= usize::MAX
        &&& self.columns <= usize::MAX
        &&& self.grid.len() == self.rows
        &&& forall|r: int| 0 <= r < self.rows ==> (#[trigger] self.grid[r]).len() == self.columns
        &&& self.contains(self.start)
        &&& self.contains(self.goal)
        &&& self.start != self.goal
        &&& forall|l: MazeLocation|
            #![trigger self.cell(l)]
            self.contains(l) ==> (self.cell(l) == Cell::Start <==> l == self.start) && (
            self.cell(l) == Cell::Goal <==> l == self.goal)
    }

    /// `l` lies in the grid and is not blocked.
    pub open spec fn is_open(self, l: MazeLocation) -> bool {
        &&& self.contains(l)
        &&& l.row < self.grid.len()
        &&& l.column < self.grid[l.row as int].len()
        &&& self.cell(l) != Cell::Blocked
    }

    /// `l` as a one-element sequence if it is open, else nothing.
    pub open spec fn if_open(self, l: MazeLocation) -> Seq<MazeLocation> {
        if self.is_open(l) {
            seq![l]
        } else {
            Seq::empty()
        }
    }

    /// The open neighbours of `l`, checked in the fixed order right, left, down, up.
    pub open spec fn neighbours(self, l: MazeLocation) -> Seq<MazeLocation> {
        let right = if l.column + 1 < self.columns {
            self.if_open(MazeLocation { row: l.row, column: (l.column + 1) as usize })
        } else {
            Seq::empty()
        };
        let left = if l.column >= 1 {
            self.if_open(MazeLocation { row: l.row, column: (l.column - 1) as usize })
        } else {
            Seq::empty()
        };
        let down = if l.row + 1 < self.rows {
            self.if_open(MazeLocation { row: (l.row + 1) as usize, column: l.column })
        } else {
            Seq::empty()
        };
        let up = if l.row >= 1 {
            self.if_open(MazeLocation { row: (l.row - 1) as usize, column: l.column })
        } else {
            Seq::empty()
        };
        right + left + down + up
    }

    /// The tag that `mark` or `clear` leaves on `l`: start and goal keep theirs,
    /// cells on the path get `tag`, others keep theirs.
    pub open spec fn retagged_cell(self, path: Seq<MazeLocation>, tag: Cell, l: MazeLocation) -> Cell {
        if l == self.start {
            Cell::Start
        } else if l == self.goal {
            Cell::Goal
        } else if path.contains(l) {
            tag
        } else {
            self.cell(l)
        }
    }

    /// This maze with every cell of `path` but start and goal tagged `tag`.
    pub open spec fn retagged(self, path: Seq<MazeLocation>, tag: Cell) -> MazeView {
        MazeView {
            grid: Seq::new(
                self.rows,
                |r: int|
                    Seq::new(
                        self.columns,
                        |c: int|
                            self.retagged_cell(
                                path,
                                tag,
                                MazeLocation { row: r as usize, column: c as usize },
                            ),
                    ),
            ),
            ..self
        }
    }

    /// The text drawing of one row: a character per cell and a line break.
    pub open spec fn row_text(self, r: int) -> Seq<char> {
        self.grid[r].map_values(|c: Cell| cell_char(c)).push('\n')
    }

    /// The text drawing of the first `n` rows.
    pub open spec fn rows_text(self, n: nat) -> Seq<char>
        decreases n,
    {
        if n == 0 {
            Seq::empty()
        } else {
            self.rows_text((n - 1) as nat) + self.row_text(n - 1)
        }
    }
}

/// A rectangular grid with a start cell, a goal cell and blocked cells.
pub struct Maze {
    rows: usize,
    columns: usize,
    start: MazeLocation,
    goal: MazeLocation,
    grid: Vec<Vec<Cell>>,
}

impl View for Maze {
    type V = MazeView;

    closed spec fn view(&self) -> MazeView {
        MazeView {
            rows: self.rows as nat,
            columns: self.columns as nat,
            start: self.start,
            goal: self.goal,
            grid: self.grid@.map_values(|row: Vec<Cell>| row@),
        }
    }
}

/// Relies on `rand::random`: a `u32` drawn from the thread-local generator.
#[verifier::external_body]
fn random_draw() -> u32 {
    rand::random::<u32>()
}

/// Relies on `String::push`: appends one character.
#[verifier::external_body]
fn push_char(s: &mut String, c: char)
    ensures
        final(s)@ == old(s)@.push(c),
{
    s.push(c);
}

/// Whether a random draw blocks a cell at the given density.
pub fn blocks(draw: u32, density: u32) -> (r: bool)
    requires
        density <= DENSITY_ONE,
    ensures
        r == draw_blocks(draw, density),
{
    assert((draw as u64) * (DENSITY_ONE as u64) <= 0xffff_ffffu64 * 1_000_000u64) by (nonlinear_arith)
        requires
            draw <= 0xffff_ffffu32,
    ;
    assert((density as u64) * DRAW_RANGE <= 1_000_000u64 * DRAW_RANGE) by (nonlinear_arith)
        requires
            density <= DENSITY_ONE,
    ;
    (draw as u64) * (DENSITY_ONE as u64) < (density as u64) * DRAW_RANGE
}

/// A `rows` by `columns` grid of obstacles, each cell blocked independently by a
/// random draw at the given density.
pub fn random_obstacles(rows: usize, columns: usize, density: u32) -> (r: Vec<Vec<bool>>)
    requires
        density <= DENSITY_ONE,
    ensures
        r@.len() == rows,
        forall|i: int| 0 <= i < rows ==> (#[trigger] r@[i])@.len() == columns,
        forall|i: int, j: int|
            0 <= i < rows && 0 <= j < columns ==> drawable(#[trigger] r@[i]@[j], density),
        density == 0 ==> forall|i: int, j: int| 0 <= i < rows && 0 <= j < columns ==> !r@[i]@[j],
        density == DENSITY_ONE ==> forall|i: int, j: int|
            0 <= i < rows && 0 <= j < columns ==> r@[i]@[j],
{
    let mut grid: Vec<Vec<bool>> = Vec::new();
    let mut i: usize = 0;
    while i < rows
        invariant
            density <= DENSITY_ONE,
            i <= rows,
            grid@.len() == i,
            forall|a: int| 0 <= a < i ==> (#[trigger] grid@[a])@.len() == columns,
            forall|a: int, b: int|
                0 <= a < i && 0 <= b < columns ==> drawable(#[trigger] grid@[a]@[b], density),
        decreases rows - i,
    {
        let mut row: Vec<bool> = Vec::new();
        let mut j: usize = 0;
        while j < columns
            invariant
                density <= DENSITY_ONE,
                j <= columns,
                row@.len() == j,
                forall|b: int| 0 <= b < j ==> drawable(#[trigger] row@[b], density),
            decreases columns - j,
        {
            let d = random_draw();
            let b = blocks(d, density);
            row.push(b);
            assert(row@[j as int] == draw_blocks(d, density));
            j = j + 1;
        }
        grid.push(row);
        i = i + 1;
    }
    proof {
        assert forall|a: int, b: int| 0 <= a < rows && 0 <= b < columns implies (density == 0 ==> !grid@[a]@[b]) && (density == DENSITY_ONE ==> grid@[a]@[b]) by {
            let d = choose|d: u32| grid@[a]@[b] == #[trigger] draw_blocks(d, density);
            assert((d as int) * (DENSITY_ONE as int) < (DENSITY_ONE as int) * (DRAW_RANGE as int)) by (nonlinear_arith)
                requires d < DRAW_RANGE;
        }
    }
    grid
}

/// A maze laid out from valid placements is well formed.
pub proof fn lemma_layout_wf(
    rows: nat,
    columns: nat,
    start: MazeLocation,
    goal: MazeLocation,
    blocked: Seq<Seq<bool>>,
)
    requires
        placement_error(rows, columns, start, goal) is None,
        rows <= usize::MAX,
        columns <= usize::MAX,
    ensures
        layout(rows, columns, start, goal, blocked).wf(),
{
    let v = layout(rows, columns, start, goal, blocked);
    assert forall|l: MazeLocation| #![trigger v.cell(l)] v.contains(l) implies v.cell(l)
        == initial_cell(start, goal, blocked[l.row as int][l.column as int], l) by {
        assert(MazeLocation { row: l.row as int as usize, column: l.column as int as usize } == l);
    }
}

impl Maze {
    /// Builds a maze whose cells are blocked where `blocked` says so, except at
    /// start and goal. Fails when start or goal lies outside the grid or when they
    /// are the same cell.
    pub fn with_obstacles(
        rows: usize,
        columns: usize,
        start: MazeLocation,
        goal: MazeLocation,
        blocked: &Vec<Vec<bool>>,
    ) -> (r: Result<Maze, MazeError>)
        requires
            blocked@.len() == rows,
            forall|i: int| 0 <= i < rows ==> (#[trigger] blocked@[i])@.len() == columns,
        ensures
            match placement_error(rows as nat, columns as nat, start, goal) {
                Some(e) => r == Err::<Maze, MazeError>(e),
                None => r matches Ok(m) && m@ == layout(
                    rows as nat,
                    columns as nat,
                    start,
                    goal,
                    blocked@.map_values(|row: Vec<bool>| row@),
                ),
            },
            r matches Ok(m) ==> m@.wf(),
    {
        if !(start.row < rows && start.column < columns) {
            return Err(MazeError::StartOutOfBounds);
        }
        if !(goal.row < rows && goal.column < columns) {
            return Err(MazeError::GoalOutOfBounds);
        }
        if start.row == goal.row && start.column == goal.column {
            return Err(MazeError::StartIsGoal);
        }
        let ghost bl = blocked@.map_values(|row: Vec<bool>| row@);
        let ghost target = layout(rows as nat, columns as nat, start, goal, bl);
        let mut grid: Vec<Vec<Cell>> = Vec::new();
        let mut i: usize = 0;
        while i < rows
            invariant
                i <= rows,
                blocked@.len() == rows,
                forall|a: int| 0 <= a < rows ==> (#[trigger] blocked@[a])@.len() == columns,
                bl == blocked@.map_values(|row: Vec<bool>| row@),
                target == layout(rows as nat, columns as nat, start, goal, bl),
                grid@.len() == i,
                forall|a: int| 0 <= a < i ==> (#[trigger] grid@[a])@ == target.grid[a],
            decreases rows - i,
        {
            let mut row: Vec<Cell> = Vec::new();
            let mut j: usize = 0;
            while j < columns
                invariant
                    i < rows,
                    j <= columns,
                    blocked@.len() == rows,
                    blocked@[i as int]@.len() == columns,
                    bl == blocked@.map_values(|row: Vec<bool>| row@),
                    target == layout(rows as nat, columns as nat, start, goal, bl),
                    row@.len() == j,
                    forall|b: int| 0 <= b < j ==> row@[b] == #[trigger] target.grid[i as int][b],
                decreases columns - j,
            {
                let here = MazeLocation::new(i, j);
                let cell = if here.row == start.row && here.column == start.column {
                    Cell::Start
                } else if here.row == goal.row && here.column == goal.column {
                    Cell::Goal
                } else if blocked[i][j] {
                    Cell::Blocked
                } else {
                    Cell::Empty
                };
                assert(bl[i as int][j as int] == blocked@[i as int]@[j as int]);
                assert(cell == target.grid[i as int][j as int]);
                row.push(cell);
                j = j + 1;
            }
            assert(row@ =~= target.grid[i as int]);
            grid.push(row);
            i = i + 1;
        }
        let m = Maze { rows, columns, start, goal, grid };
        assert(m@.grid =~= target.grid);
        proof {
            lemma_layout_wf(rows as nat, columns as nat, start, goal, bl);
        }
        Ok(m)
    }
    /// Builds a maze with each cell blocked at random with probability
    /// `density / DENSITY_ONE`, then start and goal tagged in place. Fails, before
    /// any cell is drawn, when start or goal lies outside the grid, when they are
    /// the same cell, or when the density exceeds one.
    pub fn generate(
        rows: usize,
        columns: usize,
        start: MazeLocation,
        goal: MazeLocation,
        density: u32,
    ) -> (r: Result<Maze, MazeError>)
        ensures
            match placement_error(rows as nat, columns as nat, start, goal) {
                Some(e) => r == Err::<Maze, MazeError>(e),
                None => if density > DENSITY_ONE {
                    r == Err::<Maze, MazeError>(MazeError::DensityOutOfRange)
                } else {
                    r is Ok
                },
            },
            r matches Ok(m) ==> {
                &&& m@.wf()
                &&& m@.rows == rows
                &&& m@.columns == columns
                &&& m@.start == start
                &&& m@.goal == goal
                &&& forall|l: MazeLocation|
                    #![trigger m@.cell(l)]
                    m@.contains(l) && l != start && l != goal ==> {
                        &&& m@.cell(l) == Cell::Empty || m@.cell(l) == Cell::Blocked
                        &&& density == 0 ==> m@.cell(l) == Cell::Empty
                        &&& density == DENSITY_ONE ==> m@.cell(l) == Cell::Blocked
                    }
            },
    {
        if !(start.row < rows && start.column < columns) {
            return Err(MazeError::StartOutOfBounds);
        }
        if !(goal.row < rows && goal.column < columns) {
            return Err(MazeError::GoalOutOfBounds);
        }
        if start.row == goal.row && start.column == goal.column {
            return Err(MazeError::StartIsGoal);
        }
        if density > DENSITY_ONE {
            return Err(MazeError::DensityOutOfRange);
        }
        let blocked = random_obstacles(rows, columns, density);
        let r = Maze::with_obstacles(rows, columns, start, goal, &blocked);
        proof {
            if r is Ok {
                let m = r->Ok_0;
                assert forall|l: MazeLocation|
                    #![trigger m@.cell(l)]
                    m@.contains(l) && l != start && l != goal implies {
                        &&& m@.cell(l) == Cell::Empty || m@.cell(l) == Cell::Blocked
                        &&& density == 0 ==> m@.cell(l) == Cell::Empty
                        &&& density == DENSITY_ONE ==> m@.cell(l) == Cell::Blocked
                    } by {
                    assert(MazeLocation { row: l.row as int as usize, column: l.column as int as usize } == l);
                    assert(blocked@.map_values(|row: Vec<bool>| row@)[l.row as int][l.column as int]
                        == blocked@[l.row as int]@[l.column as int]);
                }
            }
        }
        r
    }

    /// A 10 by 10 maze with start at the top left, goal at the bottom right, and
    /// each other cell blocked with probability one in five.
    pub fn new() -> (m: Maze)
        ensures
            m@.wf(),
            m@.rows == 10,
            m@.columns == 10,
            m@.start == (MazeLocation { row: 0, column: 0 }),
            m@.goal == (MazeLocation { row: 9, column: 9 }),
            forall|l: MazeLocation|
                #![trigger m@.cell(l)]
                m@.contains(l) && l != m@.start && l != m@.goal ==> m@.cell(l) == Cell::Empty
                    || m@.cell(l) == Cell::Blocked,
    {
        Maze::generate(10, 10, MazeLocation::new(0, 0), MazeLocation::new(9, 9), 200_000).unwrap()
    }

    /// Tags every cell of `path` with `tag`, then puts start and goal back.
    fn retag(&mut self, path: &Vec<MazeLocation>, tag: Cell)
        requires
            old(self)@.wf(),
            forall|i: int| 0 <= i < path@.len() ==> old(self)@.contains(#[trigger] path@[i]),
            tag != Cell::Start,
            tag != Cell::Goal,
        ensures
            final(self)@ == old(self)@.retagged(path@, tag),
            final(self)@.wf(),
    {
        let ghost v0 = self@;
        assert forall|r: int| 0 <= r < v0.rows implies (#[trigger] self.grid@[r])@.len() == v0.columns by {
            assert(v0.grid[r] == self.grid@[r]@);
        }
        let mut k: usize = 0;
        while k < path.len()
            invariant
                v0.wf(),
                forall|i: int| 0 <= i < path@.len() ==> v0.contains(#[trigger] path@[i]),
                k <= path@.len(),
                self.rows == v0.rows,
                self.columns == v0.columns,
                self.start == v0.start,
                self.goal == v0.goal,
                self.grid@.len() == v0.rows,
                forall|r: int| 0 <= r < v0.rows ==> (#[trigger] self.grid@[r])@.len() == v0.columns,
                forall|l: MazeLocation|
                    #![trigger self@.cell(l)]
                    v0.contains(l) ==> self@.cell(l) == (if exists|i: int| 0 <= i < k && path@[i] == l {
                        tag
                    } else {
                        v0.cell(l)
                    }),
            decreases path@.len() - k,
        {
            let l = path[k];
            assert(v0.contains(path@[k as int]));
            let ghost before = self@;
            self.grid[l.row].set(l.column, tag);
            proof {
                assert forall|m: MazeLocation|
                    #![trigger self@.cell(m)]
                    v0.contains(m) implies self@.cell(m) == (if exists|i: int| 0 <= i < k + 1 && path@[i] == m {
                        tag
                    } else {
                        v0.cell(m)
                    }) by {
                    if m == l {
                        assert(path@[k as int] == m);
                    } else {
                        assert(before.cell(m) == self@.cell(m));
                        if exists|i: int| 0 <= i < k + 1 && path@[i] == m {
                            let i = choose|i: int| 0 <= i < k + 1 && path@[i] == m;
                            assert(i < k);
                        }
                    }
                }
            }
            k = k + 1;
        }
        let s = self.start;
        let g = self.goal;
        let ghost mid = self@;
        self.grid[s.row].set(s.column, Cell::Start);
        let ghost mid2 = self@;
        self.grid[g.row].set(g.column, Cell::Goal);
        proof {
            let target = v0.retagged(path@, tag);
            assert forall|m: MazeLocation| #![trigger self@.cell(m)] v0.contains(m) implies self@.cell(m)
                == v0.retagged_cell(path@, tag, m) by {
                assert(path@.contains(m) <==> exists|i: int| 0 <= i < path@.len() && path@[i] == m);
                if m != g {
                    assert(self@.cell(m) == mid2.cell(m));
                    if m != s {
                        assert(mid2.cell(m) == mid.cell(m));
                    }
                }
            }
            assert forall|r: int| 0 <= r < v0.rows implies (#[trigger] self@.grid[r]) =~= target.grid[r] by {
                assert forall|c: int| 0 <= c < v0.columns implies self@.grid[r][c] == target.grid[r][c] by {
                    let m = MazeLocation { row: r as usize, column: c as usize };
                    assert(self@.cell(m) == self@.grid[r][c]);
                }
            }
            assert(self@.grid =~= target.grid);
            assert forall|m: MazeLocation| #![trigger target.cell(m)] target.contains(m) implies
                (target.cell(m) == Cell::Start <==> m == target.start) && (target.cell(m) == Cell::Goal <==> m == target.goal) by {
                assert(MazeLocation { row: m.row as int as usize, column: m.column as int as usize } == m);
            }
        }
    }

    /// Tags each cell of `path` as part of the path, except start and goal.
    pub fn mark(&mut self, path: &Vec<MazeLocation>)
        requires
            old(self)@.wf(),
            forall|i: int| 0 <= i < path@.len() ==> old(self)@.contains(#[trigger] path@[i]),
        ensures
            final(self)@ == old(self)@.retagged(path@, Cell::Path),
            final(self)@.wf(),
    {
        self.retag(path, Cell::Path);
    }

    /// Tags each cell of `path` empty, except start and goal.
    pub fn clear(&mut self, path: &Vec<MazeLocation>)
        requires
            old(self)@.wf(),
            forall|i: int| 0 <= i < path@.len() ==> old(self)@.contains(#[trigger] path@[i]),
        ensures
            final(self)@ == old(self)@.retagged(path@, Cell::Empty),
            final(self)@.wf(),
    {
        self.retag(path, Cell::Empty);
    }

    /// The grid as text: one line per row, one character per cell.
    pub fn to_string(&self) -> (r: String)
        ensures
            r@ == self@.rows_text(self@.grid.len()),
    {
        let mut text = String::new();
        let mut i: usize = 0;
        while i < self.grid.len()
            invariant
                i <= self.grid@.len(),
                self@.grid.len() == self.grid@.len(),
                text@ == self@.rows_text(i as nat),
            decreases self.grid@.len() - i,
        {
            let row = &self.grid[i];
            assert(self@.grid[i as int] == row@);
            let mut j: usize = 0;
            while j < row.len()
                invariant
                    i < self.grid@.len(),
                    self@.grid[i as int] == row@,
                    j <= row@.len(),
                    text@ == self@.rows_text(i as nat) + row@.subrange(0, j as int).map_values(
                        |c: Cell| cell_char(c),
                    ),
                decreases row@.len() - j,
            {
                let ghost before = text@;
                push_char(&mut text, row[j].to_char());
                assert(row@.subrange(0, j + 1).map_values(|c: Cell| cell_char(c)) =~= row@.subrange(
                    0,
                    j as int,
                ).map_values(|c: Cell| cell_char(c)).push(cell_char(row@[j as int])));
                assert(text@ =~= self@.rows_text(i as nat) + row@.subrange(0, j + 1).map_values(
                    |c: Cell| cell_char(c),
                ));
                j = j + 1;
            }
            push_char(&mut text, '\n');
            assert(row@.subrange(0, row@.len() as int) =~= row@);
            assert(text@ =~= self@.rows_text((i + 1) as nat));
            i = i + 1;
        }
        text
    }
}

impl Searchable<MazeLocation> for Maze {
    open spec fn initial_spec(&self) -> MazeLocation {
        self@.start
    }

    open spec fn is_goal_spec(&self, s: MazeLocation) -> bool {
        s == self@.goal
    }

    open spec fn successors_spec(&self, s: MazeLocation) -> Seq<MazeLocation> {
        self@.neighbours(s)
    }

    /// Cells are numbered row by row.
    open spec fn key_spec(&self, s: MazeLocation) -> u128 {
        (s.row * self@.columns + s.column) as u128
    }

    fn initial(&self) -> (r: MazeLocation) {
        self.start
    }

    fn key(&self, s: &MazeLocation) -> (r: u128) {
        assert((s.row as int) * (self.columns as int) + (s.column as int) <= u128::MAX) by (nonlinear_arith)
            requires
                s.row <= usize::MAX,
                self.columns <= usize::MAX,
                s.column <= usize::MAX,
                usize::MAX < 0x1_0000_0000_0000_0000int,
        ;
        (s.row as u128) * (self.columns as u128) + (s.column as u128)
    }

    fn is_goal(&self, s: &MazeLocation) -> (r: bool) {
        s.row == self.goal.row && s.column == self.goal.column
    }

    fn successors(&self, s: &MazeLocation) -> (r: Vec<MazeLocation>) {
        let mut locations: Vec<MazeLocation> = Vec::new();
        if s.column < self.columns && s.column + 1 < self.columns {
            let right = MazeLocation::new(s.row, s.column + 1);
            if self.is_open(&right) {
                locations.push(right);
            }
        }
        let ghost a = locations@;
        if s.column >= 1 {
            let left = MazeLocation::new(s.row, s.column - 1);
            if self.is_open(&left) {
                locations.push(left);
            }
        }
        let ghost b = locations@;
        if s.row < self.rows && s.row + 1 < self.rows {
            let down = MazeLocation::new(s.row + 1, s.column);
            if self.is_open(&down) {
                locations.push(down);
            }
        }
        let ghost c = locations@;
        if s.row >= 1 {
            let up = MazeLocation::new(s.row - 1, s.column);
            if self.is_open(&up) {
                locations.push(up);
            }
        }
        assert(locations@ =~= self@.neighbours(*s));
        locations
    }
}

impl Maze {
    /// The number of rows.
    pub fn rows(&self) -> (r: usize)
        ensures
            r == self@.rows,
    {
        self.rows
    }

    /// The number of columns.
    pub fn columns(&self) -> (r: usize)
        ensures
            r == self@.columns,
    {
        self.columns
    }

    /// Whether `l` lies in the grid and is not blocked.
    fn is_open(&self, l: &MazeLocation) -> (r: bool)
        ensures
            r == self@.is_open(*l),
    {
        if l.row < self.rows && l.column < self.columns && l.row < self.grid.len() && l.column
            < self.grid[l.row].len() {
            self.grid[l.row][l.column] != Cell::Blocked
        } else {
            false
        }
    }
}

/// Every state reachable in a well-formed maze lies in the grid.
proof fn lemma_reachable_in_grid(m: &Maze, w: Seq<MazeLocation>, k: int)
    requires
        m@.wf(),
        is_walk(m, w),
        0 <= k < w.len(),
    ensures
        m@.contains(w[k]),
    decreases k,
{
    if k > 0 {
        lemma_reachable_in_grid(m, w, k - 1);
        let n = m@.neighbours(w[k - 1]);
        assert(n.contains(w[k]));
        let i = choose|i: int| 0 <= i < n.len() && n[i] == w[k];
        lemma_neighbours_open(m@, w[k - 1]);
        assert(m@.contains(n[i]));
    }
}

/// A well-formed maze meets what depth-first and breadth-first search ask of a
/// problem.
pub proof fn lemma_maze_searchable(m: &Maze)
    requires
        m@.wf(),
    ensures
        searchable_space(m),
{
    assert forall|a: MazeLocation, b: MazeLocation|
        reachable(m, a) && reachable(m, b) && #[trigger] m.key_spec(a) == #[trigger] m.key_spec(b)
            implies a == b by {
        let wa = choose|w: Seq<MazeLocation>| is_walk(m, w) && w.last() == a;
        let wb = choose|w: Seq<MazeLocation>| is_walk(m, w) && w.last() == b;
        lemma_reachable_in_grid(m, wa, wa.len() - 1);
        lemma_reachable_in_grid(m, wb, wb.len() - 1);
        let c = m@.columns as int;
        assert((a.row as int) * c + (a.column as int) < 0x1_0000_0000_0000_0000_0000_0000_0000_0000int) by (nonlinear_arith)
            requires
                a.row < 0x1_0000_0000_0000_0000int,
                c <= 0x1_0000_0000_0000_0000int,
                a.column < c,
        ;
        assert((b.row as int) * c + (b.column as int) < 0x1_0000_0000_0000_0000_0000_0000_0000_0000int) by (nonlinear_arith)
            requires
                b.row < 0x1_0000_0000_0000_0000int,
                c <= 0x1_0000_0000_0000_0000int,
                b.column < c,
        ;
        assert(a.row == b.row && a.column == b.column) by (nonlinear_arith)
            requires
                (a.row as int) * c + (a.column as int) == (b.row as int) * c + (b.column as int),
                0 <= a.column < c,
                0 <= b.column < c,
                a.row >= 0,
                b.row >= 0,
        ;
    }
    assert(clone_is_exact::<MazeLocation>());
}

/// Marking a path and then clearing it gives back the maze as it was, provided
/// every cell of the path other than start and goal was empty.
pub proof fn lemma_mark_then_clear(v: MazeView, path: Seq<MazeLocation>)
    requires
        v.wf(),
        forall|i: int| 0 <= i < path.len() ==> v.contains(#[trigger] path[i]),
        forall|i: int|
            0 <= i < path.len() && path[i] != v.start && path[i] != v.goal ==> v.cell(
                #[trigger] path[i],
            ) == Cell::Empty,
    ensures
        v.retagged(path, Cell::Path).retagged(path, Cell::Empty) == v,
{
    let w = v.retagged(path, Cell::Path).retagged(path, Cell::Empty);
    assert forall|r: int| 0 <= r < v.rows implies (#[trigger] w.grid[r]) =~= v.grid[r] by {
        assert forall|c: int| 0 <= c < v.columns implies w.grid[r][c] == v.grid[r][c] by {
            let m = MazeLocation { row: r as usize, column: c as usize };
            assert(v.contains(m));
            assert(m.row == r && m.column == c);
            if path.contains(m) && m != v.start && m != v.goal {
                let i = choose|i: int| 0 <= i < path.len() && path[i] == m;
                assert(v.cell(path[i]) == Cell::Empty);
            }
        }
    }
    assert(w.grid =~= v.grid);
}

/// No successor of a location lies outside the grid or is blocked.
pub proof fn lemma_neighbours_open(v: MazeView, l: MazeLocation)
    ensures
        forall|i: int|
            0 <= i < v.neighbours(l).len() ==> {
                &&& v.contains(#[trigger] v.neighbours(l)[i])
                &&& v.cell(v.neighbours(l)[i]) != Cell::Blocked
            },
{
    assert forall|i: int| 0 <= i < v.neighbours(l).len() implies v.is_open(#[trigger] v.neighbours(l)[i]) by {
        let n = v.neighbours(l);
        let right = if l.column + 1 < v.columns {
            v.if_open(MazeLocation { row: l.row, column: (l.column + 1) as usize })
        } else {
            Seq::empty()
        };
        let left = if l.column >= 1 {
            v.if_open(MazeLocation { row: l.row, column: (l.column - 1) as usize })
        } else {
            Seq::empty()
        };
        let down = if l.row + 1 < v.rows {
            v.if_open(MazeLocation { row: (l.row + 1) as usize, column: l.column })
        } else {
            Seq::empty()
        };
        let up = if l.row >= 1 {
            v.if_open(MazeLocation { row: (l.row - 1) as usize, column: l.column })
        } else {
            Seq::empty()
        };
        assert(n == right + left + down + up);
        assert(forall|x: MazeLocation| #[trigger] v.if_open(x).len() > 0 ==> v.is_open(v.if_open(x)[0]));
        if i < right.len() {
            assert(n[i] == right[i]);
        } else if i < right.len() + left.len() {
            assert(n[i] == left[i - right.len()]);
        } else if i < right.len() + left.len() + down.len() {
            assert(n[i] == down[i - right.len() - left.len()]);
        } else {
            assert(n[i] == up[i - right.len() - left.len() - down.len()]);
        }
    }
}

} // verus!
