use crate::dice::{generator_state, pick, pick_position, seeded};
use crate::snake_model::{
    aged, cell_at, planted, count, find, lemma_find_none, lemma_find_only, lemma_frame_keeps_well_formed,
    lemma_input_keeps_well_formed, lemma_length_bounded, lemma_positions, lemma_start_well_formed, moved,
    neighbour, offset, positions, spawned, start, starting_cells, without_aged, GameState, SimState,
    GRID_CELLS, GRID_HEIGHT, GRID_WIDTH, START_CELL,
};
use rand::rngs::StdRng;
use vstd::prelude::*;

verus! {

/// What one cell of the grid holds. A tail cell carries the number of
/// frames since the head left it.
#[derive(Clone, Copy, PartialEq, Eq, Structural, Debug)]
pub enum CellState {
    Empty,
    Head,
    Tail { life: u8 },
    Fruit,
}

impl Default for CellState {
    fn default() -> (cell: Self)
        ensures
            cell == CellState::Empty,
    {
        CellState::Empty
    }
}

/// The four ways the snake can move.
#[derive(Clone, Copy, PartialEq, Eq, Structural, Debug)]
pub enum Direction {
    Up,
    Down,
    Left,
    Right,
}

impl Direction {
    /// The step of this direction as a change of column and of row.
    pub fn to_point(&self) -> (step: (i32, i32))
        ensures
            (step.0 as int, step.1 as int) == offset(*self),
    {
        match self {
            Direction::Up => (0, -1),
            Direction::Down => (0, 1),
            Direction::Left => (-1, 0),
            Direction::Right => (1, 0),
        }
    }
}

/// What a frame reports: the game goes on, or it is over with a score.
#[derive(Clone, Copy, PartialEq, Eq, Structural, Debug)]
pub enum EndFrameState {
    Continue,
    GameOver { score: u8 },
}

/// A cell of the grid, by its index: the cells are counted row by row from
/// the top left.
#[derive(Clone, Copy, Debug)]
pub struct GridPoint(i32);

impl View for GridPoint {
    type V = int;

    /// The index of the cell.
    closed spec fn view(&self) -> int {
        self.0 as int
    }
}

impl GridPoint {
    #[verifier::type_invariant]
    spec fn in_grid(self) -> bool {
        0 <= self.0 < GRID_CELLS
    }

    /// The cell in column `x` of row `y`, where the grid has one.
    pub fn from_point(x: i32, y: i32) -> (point: Option<Self>)
        ensures
            point is Some <==> cell_at(x as int, y as int) is Some,
            point matches Some(p) ==> Some(p@) == cell_at(x as int, y as int),
    {
        if x < GRID_WIDTH && y < GRID_HEIGHT && x >= 0 && y >= 0 {
            Some(Self(x + y * GRID_WIDTH))
        } else {
            None
        }
    }

    /// The cell with the given index, where the grid has one.
    pub fn from_index(index: i32) -> (point: Option<Self>)
        ensures
            point is Some <==> 0 <= index < GRID_CELLS,
            point matches Some(p) ==> p@ == index,
    {
        if index < GRID_WIDTH * GRID_HEIGHT && index >= 0 {
            Some(Self(index))
        } else {
            None
        }
    }

    /// The index of the cell.
    pub fn to_index(&self) -> (index: i32)
        ensures
            index == self@,
            0 <= index < GRID_CELLS,
    {
        proof {
            use_type_invariant(self);
        }
        self.0
    }

    /// The column and the row of the cell.
    pub fn to_point(&self) -> (at: (i32, i32))
        ensures
            at.0 == self@ % 10,
            at.1 == self@ / 10,
            cell_at(at.0 as int, at.1 as int) == Some(self@),
    {
        proof {
            use_type_invariant(self);
        }
        (self.0 % GRID_WIDTH, self.0 / GRID_WIDTH)
    }

    /// The cell next to this one in `direction`, where the grid does not
    /// end there.
    pub fn add(&self, direction: &Direction) -> (point: Option<Self>)
        ensures
            point is Some <==> neighbour(self@, *direction) is Some,
            point matches Some(p) ==> Some(p@) == neighbour(self@, *direction),
    {
        let (x1, y1) = self.to_point();
        let (x2, y2) = direction.to_point();
        Self::from_point(x1 + x2, y1 + y2)
    }
}

/// The grid of the game: ten rows of ten cells.
pub struct Grid {
    cells: [CellState; 100],
}

impl View for Grid {
    type V = Seq<CellState>;

    /// The cells, row by row from the top left.
    closed spec fn view(&self) -> Seq<CellState> {
        self.cells@
    }
}

impl Grid {
    /// Every grid has a hundred cells.
    pub proof fn lemma_size(&self)
        ensures
            self@.len() == GRID_CELLS,
    {
    }

    /// The grid at the start of a game.
    pub fn new() -> (grid: Self)
        ensures
            grid@ == starting_cells(),
    {
        let mut cells = [CellState::Empty;100];
        cells[START_CELL] = CellState::Head;
        let grid = Self { cells };
        assert(grid@ =~= starting_cells());
        grid
    }

    /// What the cell at `point` holds.
    pub fn get(&self, point: &GridPoint) -> (cell: Option<&CellState>)
        ensures
            0 <= point@ < GRID_CELLS,
            cell == Some(&self@[point@]),
    {
        let index = point.to_index() as usize;
        Some(&self.cells[index])
    }

    /// The cell at `point`, to be changed in place.
    pub fn get_mut(&mut self, point: &GridPoint) -> (cell: Option<&mut CellState>)
        ensures
            0 <= point@ < GRID_CELLS,
            cell matches Some(held) && *held == old(self)@[point@] && final(self)@ == old(self)@.update(
                point@,
                *final(held),
            ),
    {
        let index = point.to_index() as usize;
        Some(&mut self.cells[index])
    }

    /// Puts `state` into the cell at `point`.
    pub fn set(&mut self, point: &GridPoint, state: CellState)
        ensures
            0 <= point@ < GRID_CELLS,
            final(self)@ == old(self)@.update(point@, state),
    {
        let index = point.to_index() as usize;
        self.cells[index] = state;
    }

    /// Puts a fruit into the empty cell that was picked: `picked` counts
    /// through the empty cells in the order of their indices, from zero.
    /// Where nothing was picked, or no such cell is empty, the grid stays
    /// as it is.
    pub fn place_fruit(&mut self, picked: Option<usize>)
        ensures
            final(self)@ == planted(
                old(self)@,
                match picked {
                    Some(chosen) => Some(chosen as int),
                    None => None,
                },
            ),
    {
        let all_empty_cells = self.all(CellState::Empty);
        match picked {
            Some(chosen) => {
                if chosen < all_empty_cells.len() {
                    let cell = all_empty_cells[chosen];
                    match self.get_mut(&cell) {
                        Some(held) => {
                            *held = CellState::Fruit;
                        },
                        None => {},
                    }
                }
            },
            None => {},
        }
    }

    /// The first cell that holds `cell`, if there is one.
    pub fn first(&self, cell: CellState) -> (point: Option<GridPoint>)
        ensures
            point is Some <==> find(self@, cell) is Some,
            point matches Some(p) ==> Some(p@) == find(self@, cell),
    {
        let found = self.all(cell);
        if found.len() > 0 {
            Some(found[0])
        } else {
            None
        }
    }

    /// The cells that hold `cell`, in the order of their indices.
    pub fn all(&self, cell: CellState) -> (points: Vec<GridPoint>)
        ensures
            points@.len() == positions(self@, cell, GRID_CELLS as nat).len(),
            forall|k: int|
                0 <= k < points@.len() ==> (#[trigger] points@[k])@ == positions(
                    self@,
                    cell,
                    GRID_CELLS as nat,
                )[k],
    {
        let mut points: Vec<GridPoint> = Vec::new();
        let mut i: usize = 0;
        while i < 100
            invariant
                i <= 100,
                points@.len() == positions(self@, cell, i as nat).len(),
                forall|k: int|
                    0 <= k < points@.len() ==> (#[trigger] points@[k])@ == positions(
                        self@,
                        cell,
                        i as nat,
                    )[k],
            decreases 100 - i,
        {
            if self.cells[i] == cell {
                let point = GridPoint::from_index(i as i32).unwrap();
                points.push(point);
            }
            i += 1;
        }
        points
    }
}

/// A running game.
pub struct Game {
    grid: Grid,
    current_direction: Direction,
    length: u8,
    rng: StdRng,
}

impl View for Game {
    type V = GameState;

    closed spec fn view(&self) -> GameState {
        GameState {
            cells: self.grid@,
            direction: self.current_direction,
            length: self.length,
            rng: generator_state(self.rng),
        }
    }
}

impl Game {
    /// A game at its start, which will draw from `rng`.
    fn new(rng: StdRng) -> (game: Self)
        ensures
            game@ == (GameState {
                cells: starting_cells(),
                direction: Direction::Right,
                length: 1,
                rng: generator_state(rng),
            }),
            game@.well_formed(),
    {
        let game = Self { grid: Grid::new(), current_direction: Direction::Right, length: 1, rng };
        proof {
            lemma_start_well_formed(game@);
        }
        game
    }

    /// The grid of the game.
    pub fn grid(&self) -> (grid: &Grid)
        ensures
            grid@ == self@.cells,
    {
        &self.grid
    }

    /// Sets the direction of the next move.
    fn accept_input(&mut self, input: Direction)
        ensures
            final(self)@ == (GameState { direction: input, ..old(self)@ }),
    {
        self.current_direction = input;
    }

    /// Plays one frame: the old tail goes, the rest of it ages, the head
    /// moves, and a fruit is spawned where there is none. Where the move
    /// ends the game, the score is reported and the game is left in no
    /// particular state.
    fn to_next_frame(&mut self) -> (report: EndFrameState)
        requires
            old(self)@.well_formed(),
        ensures
            match old(self)@.next_frame() {
                Some(next) => report == EndFrameState::Continue && final(self)@ == next,
                None => report == (EndFrameState::GameOver { score: old(self)@.length }),
            },
            report == EndFrameState::Continue ==> final(self)@.well_formed(),
            report == EndFrameState::Continue ==> count(final(self)@.cells, CellState::Fruit) == 1
                || (count(final(self)@.cells, CellState::Fruit) == 0 && count(
                final(self)@.cells,
                CellState::Empty,
            ) == 0),
    {
        proof {
            lemma_length_bounded(self@);
            lemma_frame_keeps_well_formed(self@);
        }
        self.kill_tails();
        self.increase_life();
        let moved_to = self.move_head();
        match moved_to {
            EndFrameState::GameOver { score } => {
                return moved_to;
            },
            EndFrameState::Continue => {},
        }
        let ghost stepped = self@;
        if self.count_fruits() == 0 {
            self.spawn_fruit();
            proof {
                let free = count(stepped.cells, CellState::Empty);
                lemma_positions(stepped.cells, CellState::Empty, GRID_CELLS as nat);
                lemma_find_none(stepped.cells, CellState::Fruit);
                if pick(stepped.rng, free).0 is None {
                    assert(free == 0);
                    assert(self@.cells == stepped.cells);
                } else {
                    let spot = positions(stepped.cells, CellState::Empty, GRID_CELLS as nat)[pick(
                        stepped.rng,
                        free,
                    ).0->0];
                    assert(self@.cells == stepped.cells.update(spot, CellState::Fruit));
                    assert forall|i: int| 0 <= i < GRID_CELLS && self@.cells[i]
                        == CellState::Fruit implies i == spot by {
                        if i != spot {
                            assert(stepped.cells[i] == CellState::Fruit);
                        }
                    }
                    lemma_find_only(self@.cells, CellState::Fruit, spot);
                }
            }
        } else {
            proof {
                lemma_positions(stepped.cells, CellState::Fruit, GRID_CELLS as nat);
                let fruit = positions(stepped.cells, CellState::Fruit, GRID_CELLS as nat)[0];
                assert(old(self)@.next_frame()->0.cells == stepped.cells);
                assert forall|i: int| 0 <= i < GRID_CELLS && stepped.cells[i]
                    == CellState::Fruit implies i == fruit by {
                    assert(stepped.cells[fruit] == CellState::Fruit);
                }
                lemma_find_only(stepped.cells, CellState::Fruit, fruit);
            }
        }
        EndFrameState::Continue
    }

    /// Moves the head one cell in the current direction, leaving a tail
    /// cell of age zero behind, and lets the snake grow by one where the
    /// head comes upon a fruit. Where the head cannot move, the game is
    /// over and nothing changes.
    fn move_head(&mut self) -> (report: EndFrameState)
        requires
            old(self).length < u8::MAX,
        ensures
            match moved(old(self)@.cells, old(self)@.direction, old(self)@.length) {
                Some((cells, length)) => report == EndFrameState::Continue && final(self)@ == (GameState {
                    cells,
                    length,
                    ..old(self)@
                }),
                None => final(self)@ == old(self)@ && report == (EndFrameState::GameOver {
                    score: old(self)@.length,
                }),
            },
    {
        let head_pos = match self.grid.first(CellState::Head) {
            Some(point) => point,
            None => {
                return EndFrameState::GameOver { score: self.length };
            },
        };
        let new_head_pos = match head_pos.add(&self.current_direction) {
            Some(point) => point,
            None => {
                return EndFrameState::GameOver { score: self.length };
            },
        };
        let target = match self.grid.get(&new_head_pos) {
            Some(cell) => Some(*cell),
            None => None,
        };
        match target {
            Some(CellState::Empty) => {
                self.grid.set(&head_pos, CellState::Tail { life: 0 });
                self.grid.set(&new_head_pos, CellState::Head);
                EndFrameState::Continue
            },
            Some(CellState::Fruit) => {
                self.grid.set(&head_pos, CellState::Tail { life: 0 });
                self.grid.set(&new_head_pos, CellState::Head);
                self.length += 1;
                EndFrameState::Continue
            },
            _ => EndFrameState::GameOver { score: self.length },
        }
    }

    /// Lets every tail cell grow older by one frame.
    fn increase_life(&mut self)
        requires
            forall|i: int|
                0 <= i < GRID_CELLS ==> (#[trigger] old(self)@.cells[i] matches CellState::Tail { life }
                    ==> life < u8::MAX),
        ensures
            final(self)@ == (GameState { cells: aged(old(self)@.cells), ..old(self)@ }),
    {
        let ghost before = self@;
        let mut i: usize = 0;
        while i < 100
            invariant
                i <= 100,
                self@ == (GameState { cells: self@.cells, ..before }),
                self@.cells.len() == GRID_CELLS,
                before.cells.len() == GRID_CELLS,
                forall|k: int|
                    0 <= k < GRID_CELLS ==> (#[trigger] before.cells[k] matches CellState::Tail { life }
                        ==> life < u8::MAX),
                forall|k: int| 0 <= k < i ==> #[trigger] self@.cells[k] == aged(before.cells)[k],
                forall|k: int| i <= k < GRID_CELLS ==> #[trigger] self@.cells[k] == before.cells[k],
            decreases 100 - i,
        {
            match self.grid.cells[i] {
                CellState::Tail { life } => {
                    assert(before.cells[i as int] == self@.cells[i as int]);
                    self.grid.cells[i] = CellState::Tail { life: life + 1 };
                },
                _ => {},
            }
            i += 1;
        }
        assert(self@.cells =~= aged(before.cells));
    }

    /// Clears every tail cell that is as old as the snake is long.
    fn kill_tails(&mut self)
        ensures
            final(self)@ == (GameState {
                cells: without_aged(old(self)@.cells, old(self)@.length),
                ..old(self)@
            }),
    {
        let ghost before = self@;
        let mut i: usize = 0;
        while i < 100
            invariant
                i <= 100,
                self@ == (GameState { cells: self@.cells, ..before }),
                self@.cells.len() == GRID_CELLS,
                before.cells.len() == GRID_CELLS,
                forall|k: int|
                    0 <= k < i ==> #[trigger] self@.cells[k] == without_aged(
                        before.cells,
                        before.length,
                    )[k],
                forall|k: int| i <= k < GRID_CELLS ==> #[trigger] self@.cells[k] == before.cells[k],
            decreases 100 - i,
        {
            match self.grid.cells[i] {
                CellState::Tail { life } => {
                    if life >= self.length {
                        self.grid.cells[i] = CellState::Empty;
                    }
                },
                _ => {},
            }
            i += 1;
        }
        assert(self@.cells =~= without_aged(before.cells, before.length));
    }

    /// The number of cells that hold a fruit.
    fn count_fruits(&self) -> (fruits: u8)
        ensures
            fruits == count(self@.cells, CellState::Fruit),
    {
        proof {
            lemma_positions(self@.cells, CellState::Fruit, GRID_CELLS as nat);
        }
        self.grid.all(CellState::Fruit).len() as u8
    }

    /// Puts a fruit into one of the empty cells, which the game's generator
    /// picks. Where no cell is empty, none is put.
    fn spawn_fruit(&mut self)
        ensures
            final(self)@ == (GameState {
                cells: spawned(old(self)@.cells, old(self)@.rng).0,
                rng: spawned(old(self)@.cells, old(self)@.rng).1,
                ..old(self)@
            }),
            count(old(self)@.cells, CellState::Empty) > 0 ==> pick(
                old(self)@.rng,
                count(old(self)@.cells, CellState::Empty),
            ).0 is Some,
    {
        let empty = self.grid.all(CellState::Empty).len();
        let picked = pick_position(&mut self.rng, empty);
        self.grid.place_fruit(picked);
    }
}

/// A simulation of the game: it runs until a move ends it, and from then on
/// only repeats its score.
pub enum SnakeGame {
    Game(Game),
    GameOver { score: u8 },
}

impl View for SnakeGame {
    type V = SimState;

    open spec fn view(&self) -> SimState {
        match self {
            SnakeGame::Game(game) => SimState::Running(game@),
            SnakeGame::GameOver { score } => SimState::Over(*score),
        }
    }
}

impl SnakeGame {
    /// A simulation at its start: one head, length one, heading right. All
    /// that it will ever draw at random depends on `seed`.
    pub fn new(seed: u64) -> (sim: Self)
        ensures
            sim@ == start(seed),
            sim@.well_formed(),
    {
        let rng = seeded(seed);
        Self::Game(Game::new(rng))
    }

    /// Sets the direction of the next move. A simulation that is over stays
    /// as it is.
    pub fn accept_input(&mut self, input: Direction)
        ensures
            final(self)@ == old(self)@.after_input(input),
            old(self)@.well_formed() ==> final(self)@.well_formed(),
    {
        proof {
            if self@.well_formed() {
                lemma_input_keeps_well_formed(self@, input);
            }
        }
        match self {
            Self::Game(game) => game.accept_input(input),
            Self::GameOver { .. } => {},
        }
    }

    /// Plays one frame and reports how it ended. The frame that ends the
    /// game reports the length of the snake as the score, and so does every
    /// frame after it. A frame after which the game goes on leaves exactly
    /// one fruit on the grid, unless the snake has filled the grid.
    pub fn to_next_frame(&mut self) -> (report: EndFrameState)
        requires
            old(self)@.well_formed(),
        ensures
            final(self)@ == old(self)@.after_frame(),
            report == final(self)@.report(),
            final(self)@.well_formed(),
            final(self)@ matches SimState::Running(game) ==> count(game.cells, CellState::Fruit) == 1
                || (count(game.cells, CellState::Fruit) == 0 && count(game.cells, CellState::Empty)
                == 0),
    {
        match self {
            Self::Game(game) => {
                let next_frame_out = game.to_next_frame();
                match next_frame_out {
                    EndFrameState::GameOver { score } => {
                        *self = Self::GameOver { score };
                    },
                    EndFrameState::Continue => {},
                }
                next_frame_out
            },
            Self::GameOver { score } => EndFrameState::GameOver { score: *score },
        }
    }

    /// What lies next to the head in `direction`. The edge of the grid
    /// counts as tail, and so does everything once the game is over.
    pub fn neighboring_cell(&self, direction: Direction) -> (cell: CellState)
        requires
            self@.well_formed(),
        ensures
            cell == self@.beside_head(direction),
    {
        let game = match self {
            SnakeGame::Game(game) => game,
            SnakeGame::GameOver { .. } => {
                return CellState::Tail { life: 0 };
            },
        };
        proof {
            let head = choose|head: int|
                0 <= head < GRID_CELLS && #[trigger] game@.cells[head] == CellState::Head;
            lemma_find_none(game@.cells, CellState::Head);
        }
        let head = game.grid.first(CellState::Head).unwrap();
        let neighboring_cell = match head.add(&direction) {
            Some(point) => point,
            None => {
                return CellState::Tail { life: 0 };
            },
        };
        match game.grid.get(&neighboring_cell) {
            Some(cell) => *cell,
            None => CellState::Tail { life: 0 },
        }
    }

    /// The length of the snake, and 0 once the game is over.
    pub fn length(&self) -> (length: u8)
        ensures
            length == self@.length(),
    {
        match self {
            SnakeGame::Game(game) => game.length,
            SnakeGame::GameOver { .. } => 0,
        }
    }

    /// The direction of the next move, and `Right` once the game is over.
    pub fn current_direction(&self) -> (direction: Direction)
        ensures
            direction == self@.direction(),
    {
        match self {
            SnakeGame::Game(game) => game.current_direction,
            SnakeGame::GameOver { .. } => Direction::Right,
        }
    }

    /// The directions in which the fruit lies from the head.
    pub fn food_direction(&self) -> (directions: Vec<Direction>)
        ensures
            directions@ == self@.food_directions(),
    {
        let game = match self {
            SnakeGame::Game(game) => game,
            SnakeGame::GameOver { .. } => {
                return Vec::new();
            },
        };
        let food_pos = match game.grid.first(CellState::Fruit) {
            Some(point) => point,
            None => {
                return Vec::new();
            },
        };
        let head_pos = match game.grid.first(CellState::Head) {
            Some(point) => point,
            None => {
                return Vec::new();
            },
        };
        let mut directions = Vec::new();
        let (hx, hy) = head_pos.to_point();
        let (fx, fy) = food_pos.to_point();
        if hx < fx {
            directions.push(Direction::Right);
        } else if hx > fx {
            directions.push(Direction::Left);
        }
        if hy < fy {
            directions.push(Direction::Down);
        } else if hy > fy {
            directions.push(Direction::Up);
        }
        assert(directions@ =~= self@.food_directions());
        directions
    }

    /// The obstacle sensor for the cell above the head: whether that cell
    /// is tail or lies beyond the grid. Off once the game is over.
    pub fn obstacle_direction_up(&self) -> (obstacle: bool)
        requires
            self@.well_formed(),
        ensures
            obstacle == self@.obstacle(Direction::Up),
    {
        match self {
            SnakeGame::Game(_) => match self.neighboring_cell(Direction::Up) {
                CellState::Tail { .. } => true,
                _ => false,
            },
            SnakeGame::GameOver { .. } => false,
        }
    }

    /// The obstacle sensor for the cell below the head: whether that cell
    /// is tail or lies beyond the grid. Off once the game is over.
    pub fn obstacle_direction_down(&self) -> (obstacle: bool)
        requires
            self@.well_formed(),
        ensures
            obstacle == self@.obstacle(Direction::Down),
    {
        match self {
            SnakeGame::Game(_) => match self.neighboring_cell(Direction::Down) {
                CellState::Tail { .. } => true,
                _ => false,
            },
            SnakeGame::GameOver { .. } => false,
        }
    }

    /// The obstacle sensor for the cell to the right of the head: whether that cell
    /// is tail or lies beyond the grid. Off once the game is over.
    pub fn obstacle_direction_right(&self) -> (obstacle: bool)
        requires
            self@.well_formed(),
        ensures
            obstacle == self@.obstacle(Direction::Right),
    {
        match self {
            SnakeGame::Game(_) => match self.neighboring_cell(Direction::Right) {
                CellState::Tail { .. } => true,
                _ => false,
            },
            SnakeGame::GameOver { .. } => false,
        }
    }

    /// The obstacle sensor for the cell to the left of the head: whether that cell
    /// is tail or lies beyond the grid. Off once the game is over.
    pub fn obstacle_direction_left(&self) -> (obstacle: bool)
        requires
            self@.well_formed(),
        ensures
            obstacle == self@.obstacle(Direction::Left),
    {
        match self {
            SnakeGame::Game(_) => match self.neighboring_cell(Direction::Left) {
                CellState::Tail { .. } => true,
                _ => false,
            },
            SnakeGame::GameOver { .. } => false,
        }
    }

    /// The heading sensor for up: whether the next move goes up. Off once
    /// the game is over.
    pub fn current_direction_up(&self) -> (heading: bool)
        ensures
            heading == self@.heading(Direction::Up),
    {
        match self {
            SnakeGame::Game(game) => game.current_direction == Direction::Up,
            SnakeGame::GameOver { .. } => false,
        }
    }

    /// The heading sensor for down: whether the next move goes down. Off once
    /// the game is over.
    pub fn current_direction_down(&self) -> (heading: bool)
        ensures
            heading == self@.heading(Direction::Down),
    {
        match self {
            SnakeGame::Game(game) => game.current_direction == Direction::Down,
            SnakeGame::GameOver { .. } => false,
        }
    }

    /// The heading sensor for right: whether the next move goes right. Off once
    /// the game is over.
    pub fn current_direction_right(&self) -> (heading: bool)
        ensures
            heading == self@.heading(Direction::Right),
    {
        match self {
            SnakeGame::Game(game) => game.current_direction == Direction::Right,
            SnakeGame::GameOver { .. } => false,
        }
    }

    /// The heading sensor for left: whether the next move goes left. Off once
    /// the game is over.
    pub fn current_direction_left(&self) -> (heading: bool)
        ensures
            heading == self@.heading(Direction::Left),
    {
        match self {
            SnakeGame::Game(game) => game.current_direction == Direction::Left,
            SnakeGame::GameOver { .. } => false,
        }
    }

    /// Whether the fruit lies in a row above the head.
    pub fn food_direction_up(&self) -> (there: bool)
        ensures
            there == self@.food(Direction::Up),
    {
        holds(&self.food_direction(), Direction::Up)
    }

    /// Whether the fruit lies in a row below the head.
    pub fn food_direction_down(&self) -> (there: bool)
        ensures
            there == self@.food(Direction::Down),
    {
        holds(&self.food_direction(), Direction::Down)
    }

    /// Whether the fruit lies in a column to the right of the head.
    pub fn food_direction_right(&self) -> (there: bool)
        ensures
            there == self@.food(Direction::Right),
    {
        holds(&self.food_direction(), Direction::Right)
    }

    /// Whether the fruit lies in a column to the left of the head.
    pub fn food_direction_left(&self) -> (there: bool)
        ensures
            there == self@.food(Direction::Left),
    {
        holds(&self.food_direction(), Direction::Left)
    }
}

/// Whether `wanted` is among `directions`.
fn holds(directions: &Vec<Direction>, wanted: Direction) -> (found: bool)
    ensures
        found == directions@.contains(wanted),
{
    let mut i: usize = 0;
    while i < directions.len()
        invariant
            i <= directions@.len(),
            forall|k: int| 0 <= k < i ==> directions@[k] != wanted,
        decreases directions@.len() - i,
    {
        if directions[i] == wanted {
            return true;
        }
        i += 1;
    }
    false
}

} // verus!
