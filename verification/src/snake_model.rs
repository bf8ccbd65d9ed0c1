use crate::dice::{pick, seeded_state};
use crate::snake_game::{CellState, Direction, EndFrameState};
use vstd::prelude::*;
use vstd::set_lib::{lemma_int_range, lemma_len_subset, set_int_range};

verus! {

/// The number of columns of the grid.
pub const GRID_WIDTH: i32 = 10;

/// The number of rows of the grid.
pub const GRID_HEIGHT: i32 = 10;

/// The number of cells of the grid.
pub const GRID_CELLS: usize = 100;

/// The cell where the head starts.
pub const START_CELL: usize = 45;

/// The step that a direction takes, as a change of column and of row. Rows
/// are counted from the top.
pub open spec fn offset(direction: Direction) -> (int, int) {
    match direction {
        Direction::Up => (0, -1),
        Direction::Down => (0, 1),
        Direction::Left => (-1, 0),
        Direction::Right => (1, 0),
    }
}

/// The index of the cell in column `x` of row `y`, if the grid has one.
pub open spec fn cell_at(x: int, y: int) -> Option<int> {
    if 0 <= x < GRID_WIDTH && 0 <= y < GRID_HEIGHT {
        Some(x + y * GRID_WIDTH)
    } else {
        None
    }
}

/// The cell next to cell `index` in the given direction, if the grid does
/// not end there.
pub open spec fn neighbour(index: int, direction: Direction) -> Option<int> {
    cell_at(
        index % (GRID_WIDTH as int) + offset(direction).0,
        index / (GRID_WIDTH as int) + offset(direction).1,
    )
}

/// The indices below `n` of the cells that equal `wanted`, in rising order.
pub open spec fn positions(cells: Seq<CellState>, wanted: CellState, n: nat) -> Seq<int>
    decreases n,
{
    if n == 0 {
        Seq::empty()
    } else if cells[n - 1] == wanted {
        positions(cells, wanted, (n - 1) as nat).push(n - 1)
    } else {
        positions(cells, wanted, (n - 1) as nat)
    }
}

/// The first cell that equals `wanted`, if there is one.
pub open spec fn find(cells: Seq<CellState>, wanted: CellState) -> Option<int> {
    let all = positions(cells, wanted, cells.len());
    if all.len() > 0 {
        Some(all[0])
    } else {
        None
    }
}

/// How many cells equal `wanted`.
pub open spec fn count(cells: Seq<CellState>, wanted: CellState) -> nat {
    positions(cells, wanted, cells.len()).len()
}

/// The grid after every tail cell that has reached the age `length` has
/// been cleared.
pub open spec fn without_aged(cells: Seq<CellState>, length: u8) -> Seq<CellState> {
    Seq::new(
        cells.len(),
        |i: int|
            match cells[i] {
                CellState::Tail { life } => if life >= length {
                    CellState::Empty
                } else {
                    cells[i]
                },
                _ => cells[i],
            },
    )
}

/// The grid after every tail cell has grown older by one frame.
pub open spec fn aged(cells: Seq<CellState>) -> Seq<CellState> {
    Seq::new(
        cells.len(),
        |i: int|
            match cells[i] {
                CellState::Tail { life } => CellState::Tail { life: (life + 1) as u8 },
                _ => cells[i],
            },
    )
}

/// The grid and the length after the head has moved one cell in
/// `direction`, or `None` where the move ends the game: off the grid, into
/// the tail, or with no head to move.
pub open spec fn moved(cells: Seq<CellState>, direction: Direction, length: u8) -> Option<
    (Seq<CellState>, u8),
> {
    match find(cells, CellState::Head) {
        None => None,
        Some(head) => match neighbour(head, direction) {
            None => None,
            Some(target) => {
                let stepped = cells.update(head, CellState::Tail { life: 0 }).update(
                    target,
                    CellState::Head,
                );
                match cells[target] {
                    CellState::Empty => Some((stepped, length)),
                    CellState::Fruit => Some((stepped, (length + 1) as u8)),
                    _ => None,
                }
            },
        },
    }
}

/// The grid after a fruit has been put into the empty cell that was
/// picked: `picked` counts through the empty cells in the order of their
/// indices, from zero. Where nothing was picked, or no such cell is empty,
/// the grid stays as it is.
pub open spec fn planted(cells: Seq<CellState>, picked: Option<int>) -> Seq<CellState> {
    let free = positions(cells, CellState::Empty, cells.len());
    match picked {
        Some(chosen) => if 0 <= chosen < free.len() {
            cells.update(free[chosen], CellState::Fruit)
        } else {
            cells
        },
        None => cells,
    }
}

/// The grid and the generator's state after the generator has picked one
/// of the empty cells and a fruit has been put there. Where no cell is
/// empty the grid stays as it is.
pub open spec fn spawned(cells: Seq<CellState>, rng: Seq<u8>) -> (Seq<CellState>, Seq<u8>) {
    let empty = count(cells, CellState::Empty);
    (planted(cells, pick(rng, empty).0), pick(rng, empty).1)
}

/// The grid and the generator's state after the fruit has been seen to:
/// where no cell holds a fruit, one is spawned.
pub open spec fn replenished(cells: Seq<CellState>, rng: Seq<u8>) -> (Seq<CellState>, Seq<u8>) {
    if count(cells, CellState::Fruit) != 0 {
        (cells, rng)
    } else {
        spawned(cells, rng)
    }
}

/// A game that is running: the grid, row by row, the direction of the next
/// move, the length of the snake and the state of the game's own random
/// number generator.
pub struct GameState {
    pub cells: Seq<CellState>,
    pub direction: Direction,
    pub length: u8,
    pub rng: Seq<u8>,
}

impl GameState {
    /// The game after one frame, or `None` where the frame ends it; the
    /// score is then `self.length`.
    pub open spec fn next_frame(self) -> Option<GameState> {
        match moved(aged(without_aged(self.cells, self.length)), self.direction, self.length) {
            None => None,
            Some((cells, length)) => {
                let (cells, rng) = replenished(cells, self.rng);
                Some(GameState { cells, direction: self.direction, length, rng })
            },
        }
    }

    /// The tail cells in the order of their age: `body[l]` is the cell whose
    /// age is `l`, and every tail cell is among them. They leave a cell for
    /// the head.
    pub open spec fn has_body(self, body: Seq<int>) -> bool {
        &&& body.len() < GRID_CELLS
        &&& forall|l: int|
            0 <= l < body.len() ==> 0 <= #[trigger] body[l] < GRID_CELLS && self.cells[body[l]]
                == (CellState::Tail { life: l as u8 })
        &&& forall|i: int|
            0 <= i < GRID_CELLS ==> (#[trigger] self.cells[i] matches CellState::Tail { life }
                ==> life < body.len() && body[life as int] == i)
    }

    /// What holds of every running game: one head, at most one fruit, tail
    /// cells of the ages `0, 1, 2, ...` without a gap, and a length that is
    /// at most one more than their number.
    pub open spec fn well_formed(self) -> bool {
        &&& self.cells.len() == GRID_CELLS
        &&& self.length >= 1
        &&& exists|head: int| 0 <= head < GRID_CELLS && #[trigger] self.cells[head] == CellState::Head
        &&& forall|i: int, j: int|
            0 <= i < GRID_CELLS && 0 <= j < GRID_CELLS && #[trigger] self.cells[i] == CellState::Head
                && #[trigger] self.cells[j] == CellState::Head ==> i == j
        &&& forall|i: int, j: int|
            0 <= i < GRID_CELLS && 0 <= j < GRID_CELLS && #[trigger] self.cells[i]
                == CellState::Fruit && #[trigger] self.cells[j] == CellState::Fruit ==> i == j
        &&& exists|body: Seq<int>| #[trigger] self.has_body(body) && self.length <= body.len() + 1
    }
}

/// A simulation: a running game, or the score with which it ended.
pub enum SimState {
    Running(GameState),
    Over(u8),
}

impl SimState {
    /// The simulation after `direction` has been handed to it.
    pub open spec fn after_input(self, direction: Direction) -> SimState {
        match self {
            SimState::Running(game) => SimState::Running(GameState { direction, ..game }),
            SimState::Over(score) => self,
        }
    }

    /// The simulation after one more frame.
    pub open spec fn after_frame(self) -> SimState {
        match self {
            SimState::Running(game) => match game.next_frame() {
                Some(next) => SimState::Running(next),
                None => SimState::Over(game.length),
            },
            SimState::Over(score) => self,
        }
    }

    /// What a frame reports: whether the game goes on, and the score if not.
    pub open spec fn report(self) -> EndFrameState {
        match self {
            SimState::Running(game) => EndFrameState::Continue,
            SimState::Over(score) => EndFrameState::GameOver { score },
        }
    }

    /// The simulation after the directions of `inputs` have been handed to
    /// it one by one, each followed by a frame.
    pub open spec fn after_inputs(self, inputs: Seq<Direction>) -> SimState
        decreases inputs.len(),
    {
        if inputs.len() == 0 {
            self
        } else {
            self.after_inputs(inputs.drop_last()).after_input(inputs.last()).after_frame()
        }
    }

    /// A running simulation is well formed as its game is; one that is over
    /// always is.
    pub open spec fn well_formed(self) -> bool {
        match self {
            SimState::Running(game) => game.well_formed(),
            SimState::Over(score) => true,
        }
    }

    /// The length of the snake, and 0 once the game is over.
    pub open spec fn length(self) -> u8 {
        match self {
            SimState::Running(game) => game.length,
            SimState::Over(score) => 0,
        }
    }

    /// The direction of the next move, and `Right` once the game is over.
    pub open spec fn direction(self) -> Direction {
        match self {
            SimState::Running(game) => game.direction,
            SimState::Over(score) => Direction::Right,
        }
    }

    /// What lies next to the head in `direction`. The edge of the grid
    /// counts as tail, and so does everything once the game is over.
    pub open spec fn beside_head(self, direction: Direction) -> CellState {
        match self {
            SimState::Running(game) => match find(game.cells, CellState::Head) {
                Some(head) => match neighbour(head, direction) {
                    Some(target) => game.cells[target],
                    None => CellState::Tail { life: 0 },
                },
                None => CellState::Tail { life: 0 },
            },
            SimState::Over(score) => CellState::Tail { life: 0 },
        }
    }

    /// The obstacle sensor for `direction`: on where the game is running and
    /// the cell next to the head in that direction is tail, or lies beyond
    /// the grid. Off once the game is over.
    pub open spec fn obstacle(self, direction: Direction) -> bool {
        self is Running && self.beside_head(direction) is Tail
    }

    /// The heading sensor for `direction`: on where the game is running
    /// and the next move goes that way. Off once the game is over.
    pub open spec fn heading(self, direction: Direction) -> bool {
        self is Running && self.direction() == direction
    }

    /// The food sensor for `direction`: on where the fruit lies that way
    /// from the head. Off where there is no fruit, and once the game is
    /// over.
    pub open spec fn food(self, direction: Direction) -> bool {
        self.food_directions().contains(direction)
    }

    /// The directions in which the fruit lies from the head: first `Right`
    /// or `Left`, where the columns differ, then `Down` or `Up`, where the
    /// rows differ. Empty where there is no fruit or no running game.
    pub open spec fn food_directions(self) -> Seq<Direction> {
        match self {
            SimState::Running(game) => match (
                find(game.cells, CellState::Fruit),
                find(game.cells, CellState::Head),
            ) {
                (Some(fruit), Some(head)) => {
                    let across: Seq<Direction> = if head % 10 < fruit % 10 {
                        seq![Direction::Right]
                    } else if head % 10 > fruit % 10 {
                        seq![Direction::Left]
                    } else {
                        seq![]
                    };
                    let along: Seq<Direction> = if head / 10 < fruit / 10 {
                        seq![Direction::Down]
                    } else if head / 10 > fruit / 10 {
                        seq![Direction::Up]
                    } else {
                        seq![]
                    };
                    across + along
                },
                _ => seq![],
            },
            SimState::Over(score) => seq![],
        }
    }
}

/// The grid at the start: one head and nothing else.
pub open spec fn starting_cells() -> Seq<CellState> {
    Seq::new(
        GRID_CELLS as nat,
        |i: int|
            if i == START_CELL {
                CellState::Head
            } else {
                CellState::Empty
            },
    )
}

/// The simulation as it starts from `seed`: one head, length one, heading
/// right, and a generator made from the seed.
pub open spec fn start(seed: u64) -> SimState {
    SimState::Running(
        GameState {
            cells: starting_cells(),
            direction: Direction::Right,
            length: 1,
            rng: seeded_state(seed),
        },
    )
}

/// The indices that `positions` lists are those of the wanted cells below
/// `n`, each once and in rising order.
pub proof fn lemma_positions(cells: Seq<CellState>, wanted: CellState, n: nat)
    requires
        n <= cells.len(),
    ensures
        positions(cells, wanted, n).len() <= n,
        forall|k: int|
            0 <= k < positions(cells, wanted, n).len() ==> 0 <= #[trigger] positions(
                cells,
                wanted,
                n,
            )[k] < n && cells[positions(cells, wanted, n)[k]] == wanted,
        forall|k: int, l: int|
            0 <= k < l < positions(cells, wanted, n).len() ==> positions(cells, wanted, n)[k]
                < positions(cells, wanted, n)[l],
        forall|i: int|
            0 <= i < n && cells[i] == wanted ==> positions(cells, wanted, n).contains(i),
    decreases n,
{
    if n > 0 {
        let shorter = positions(cells, wanted, (n - 1) as nat);
        let all = positions(cells, wanted, n);
        lemma_positions(cells, wanted, (n - 1) as nat);
        assert forall|i: int| 0 <= i < n && cells[i] == wanted implies all.contains(i) by {
            if i < n - 1 {
                let k = choose|k: int| 0 <= k < shorter.len() && shorter[k] == i;
                assert(all[k] == i);
            } else {
                assert(all[all.len() - 1] == i);
            }
        }
    }
}

/// Where exactly one cell equals `wanted`, `find` gives that cell and
/// `count` is one.
pub proof fn lemma_find_only(cells: Seq<CellState>, wanted: CellState, at: int)
    requires
        0 <= at < cells.len(),
        cells[at] == wanted,
        forall|i: int| 0 <= i < cells.len() && cells[i] == wanted ==> i == at,
    ensures
        find(cells, wanted) == Some(at),
        count(cells, wanted) == 1,
{
    let all = positions(cells, wanted, cells.len());
    lemma_positions(cells, wanted, cells.len());
    assert(all.contains(at));
    if all.len() > 1 {
        assert(all[0] < all[1]);
    }
}

/// Where no cell equals `wanted`, `find` gives nothing and `count` is zero;
/// and the other way round.
pub proof fn lemma_find_none(cells: Seq<CellState>, wanted: CellState)
    ensures
        (forall|i: int| 0 <= i < cells.len() ==> cells[i] != wanted) <==> count(cells, wanted) == 0,
        count(cells, wanted) == 0 <==> find(cells, wanted) is None,
{
    let all = positions(cells, wanted, cells.len());
    lemma_positions(cells, wanted, cells.len());
    if all.len() > 0 {
        assert(cells[all[0]] == wanted);
    }
    if all.len() == 0 {
        assert forall|i: int| 0 <= i < cells.len() implies cells[i] != wanted by {
            if cells[i] == wanted {
                assert(all.contains(i));
            }
        }
    }
}

/// A sequence of different numbers, all of them natural numbers below
/// `bound`, has at most `bound` items.
pub proof fn lemma_distinct_bounded(items: Seq<int>, bound: nat)
    requires
        forall|i: int| 0 <= i < items.len() ==> 0 <= #[trigger] items[i] < bound,
        forall|i: int, j: int| 0 <= i < j < items.len() ==> items[i] != items[j],
    ensures
        items.len() <= bound,
{
    assert(items.no_duplicates());
    items.unique_seq_to_set();
    lemma_int_range(0, bound as int);
    assert(items.to_set().subset_of(set_int_range(0, bound as int)));
    lemma_len_subset(items.to_set(), set_int_range(0, bound as int));
}

/// In a well-formed game the snake is at most one longer than it has tail
/// cells, so it is never longer than the grid has cells.
pub proof fn lemma_length_bounded(game: GameState)
    requires
        game.well_formed(),
    ensures
        1 <= game.length <= GRID_CELLS,
{
}

/// A well-formed game has exactly one head on its grid, and one fruit at
/// most.
pub proof fn lemma_one_head(game: GameState)
    requires
        game.well_formed(),
    ensures
        count(game.cells, CellState::Head) == 1,
        count(game.cells, CellState::Fruit) <= 1,
{
    let head = choose|head: int| 0 <= head < GRID_CELLS && #[trigger] game.cells[head] == CellState::Head;
    lemma_find_only(game.cells, CellState::Head, head);
    let fruits = positions(game.cells, CellState::Fruit, game.cells.len());
    lemma_positions(game.cells, CellState::Fruit, game.cells.len());
    if fruits.len() > 1 {
        assert(game.cells[fruits[0]] == CellState::Fruit);
        assert(game.cells[fruits[1]] == CellState::Fruit);
        assert(fruits[0] < fruits[1]);
    }
}

/// The grid at the start, with any direction and any generator, is a
/// well-formed game of length one.
pub proof fn lemma_start_well_formed(game: GameState)
    requires
        game.cells == starting_cells(),
        game.length == 1,
    ensures
        game.well_formed(),
{
    assert(game.cells[START_CELL as int] == CellState::Head);
    assert(game.has_body(Seq::<int>::empty()));
}

/// Handing a direction to a well-formed simulation leaves it well formed.
pub proof fn lemma_input_keeps_well_formed(sim: SimState, direction: Direction)
    requires
        sim.well_formed(),
    ensures
        sim.after_input(direction).well_formed(),
{
    if let SimState::Running(game) = sim {
        let turned = GameState { direction, ..game };
        let head = choose|head: int| 0 <= head < GRID_CELLS && #[trigger] game.cells[head] == CellState::Head;
        assert(turned.cells[head] == CellState::Head);
        let body = choose|body: Seq<int>| #[trigger] game.has_body(body) && game.length <= body.len() + 1;
        assert(turned.has_body(body));
    }
}

/// A frame that does not end a well-formed game leaves it well formed. The
/// snake keeps its length or grows by one, and the direction stays.
pub proof fn lemma_frame_keeps_well_formed(game: GameState)
    requires
        game.well_formed(),
    ensures
        game.next_frame() matches Some(next) ==> next.well_formed() && next.direction
            == game.direction && game.length <= next.length <= game.length + 1,
{
    let cleared = without_aged(game.cells, game.length);
    let older = aged(cleared);
    if let Some((stepped, length)) = moved(older, game.direction, game.length) {
        let next = game.next_frame()->0;
        let head = choose|head: int| 0 <= head < GRID_CELLS && #[trigger] game.cells[head] == CellState::Head;
        let body = choose|body: Seq<int>| #[trigger] game.has_body(body) && game.length <= body.len() + 1;
        assert(older[head] == CellState::Head);
        assert forall|i: int| 0 <= i < older.len() && older[i] == CellState::Head implies i == head by {
            assert(game.cells[i] == CellState::Head);
        }
        lemma_find_only(older, CellState::Head, head);
        let target = neighbour(head, game.direction)->0;
        assert(0 <= target < GRID_CELLS);
        assert(target != head);
        assert(stepped == older.update(head, CellState::Tail { life: 0 }).update(target, CellState::Head));
        let keep = if body.len() <= game.length { body.len() as int } else { game.length as int };
        let trail = seq![head] + body.take(keep);
        let between = GameState { cells: stepped, direction: game.direction, length, rng: game.rng };
        assert forall|l: int| 0 <= l < trail.len() implies 0 <= #[trigger] trail[l] < GRID_CELLS
            && stepped[trail[l]] == (CellState::Tail { life: l as u8 }) by {
            if l > 0 {
                let cell = body[l - 1];
                assert(trail[l] == cell);
                assert(game.cells[cell] == (CellState::Tail { life: (l - 1) as u8 }));
                assert(cleared[cell] == game.cells[cell]);
                assert(older[cell] == (CellState::Tail { life: l as u8 }));
            }
        }
        assert forall|i: int| 0 <= i < GRID_CELLS implies (#[trigger] stepped[i] matches CellState::Tail {
            life,
        } ==> life < trail.len() && trail[life as int] == i) by {
            if let CellState::Tail { life } = stepped[i] {
                if i != head {
                    assert(older[i] == stepped[i]);
                    assert(cleared[i] is Tail);
                    assert(game.cells[i] == cleared[i]);
                    let before = cleared[i]->life;
                    assert(before < game.length);
                    assert(before < body.len() && body[before as int] == i);
                    assert(life == before + 1);
                    assert(trail[life as int] == body.take(keep)[before as int]);
                }
            }
        }
        let taken = trail.push(target);
        assert forall|k: int, l: int| 0 <= k < l < taken.len() implies taken[k] != taken[l] by {
            assert(stepped[trail[k]] == (CellState::Tail { life: k as u8 }));
            if l < trail.len() {
                assert(stepped[trail[l]] == (CellState::Tail { life: l as u8 }));
            }
        }
        assert forall|k: int| 0 <= k < taken.len() implies 0 <= #[trigger] taken[k] < GRID_CELLS by {
            if k < trail.len() {
                assert(taken[k] == trail[k]);
            }
        }
        lemma_distinct_bounded(taken, GRID_CELLS as nat);
        assert(between.has_body(trail));
        assert(stepped[target] == CellState::Head);
        assert forall|i: int, j: int|
            0 <= i < GRID_CELLS && 0 <= j < GRID_CELLS && #[trigger] stepped[i] == CellState::Head
                && #[trigger] stepped[j] == CellState::Head implies i == j by {
            if i != target {
                assert(older[i] == CellState::Head);
            }
            if j != target {
                assert(older[j] == CellState::Head);
            }
        }
        assert forall|i: int, j: int|
            0 <= i < GRID_CELLS && 0 <= j < GRID_CELLS && #[trigger] stepped[i] == CellState::Fruit
                && #[trigger] stepped[j] == CellState::Fruit implies i == j by {
            assert(older[i] == CellState::Fruit && older[j] == CellState::Fruit);
            assert(game.cells[i] == CellState::Fruit && game.cells[j] == CellState::Fruit);
        }
        assert(between.well_formed());
        lemma_replenished_keeps_well_formed(between);
    }
}

/// Seeing to the fruit leaves a well-formed game well formed. Afterwards
/// there is one fruit, or there is none and the generator picked no cell.
pub proof fn lemma_replenished_keeps_well_formed(game: GameState)
    requires
        game.well_formed(),
    ensures
        (GameState {
            cells: replenished(game.cells, game.rng).0,
            rng: replenished(game.cells, game.rng).1,
            ..game
        }).well_formed(),
        count(replenished(game.cells, game.rng).0, CellState::Fruit) == 1 || (count(
            replenished(game.cells, game.rng).0,
            CellState::Fruit,
        ) == 0 && count(game.cells, CellState::Fruit) == 0 && pick(
            game.rng,
            count(game.cells, CellState::Empty),
        ).0 is None),
{
    let (cells, rng) = replenished(game.cells, game.rng);
    let after = GameState { cells, rng, ..game };
    let head = choose|head: int| 0 <= head < GRID_CELLS && #[trigger] game.cells[head] == CellState::Head;
    let body = choose|body: Seq<int>| #[trigger] game.has_body(body) && game.length <= body.len() + 1;
    lemma_find_none(game.cells, CellState::Fruit);
    lemma_positions(game.cells, CellState::Fruit, game.cells.len());
    if count(game.cells, CellState::Fruit) != 0 {
        let fruit = positions(game.cells, CellState::Fruit, game.cells.len())[0];
        lemma_find_only(game.cells, CellState::Fruit, fruit);
        assert(after.cells[head] == CellState::Head);
        assert(after.has_body(body));
    } else {
        let free = positions(game.cells, CellState::Empty, game.cells.len());
        lemma_positions(game.cells, CellState::Empty, game.cells.len());
        match pick(game.rng, free.len()).0 {
            Some(chosen) => {
                let spot = free[chosen];
                assert(game.cells[spot] == CellState::Empty);
                assert(cells == game.cells.update(spot, CellState::Fruit));
                assert(cells[head] == CellState::Head);
                assert forall|i: int, j: int|
                    0 <= i < GRID_CELLS && 0 <= j < GRID_CELLS && #[trigger] cells[i]
                        == CellState::Head && #[trigger] cells[j] == CellState::Head implies i == j by {
                    assert(game.cells[i] == CellState::Head && game.cells[j] == CellState::Head);
                }
                assert forall|i: int| 0 <= i < GRID_CELLS && cells[i] == CellState::Fruit implies i
                    == spot by {
                    if i != spot {
                        assert(game.cells[i] == CellState::Fruit);
                    }
                }
                assert forall|l: int| 0 <= l < body.len() implies 0 <= #[trigger] body[l] < GRID_CELLS
                    && cells[body[l]] == (CellState::Tail { life: l as u8 }) by {
                    assert(game.cells[body[l]] == (CellState::Tail { life: l as u8 }));
                }
                assert forall|i: int| 0 <= i < GRID_CELLS implies (#[trigger] cells[i] matches CellState::Tail {
                    life,
                } ==> life < body.len() && body[life as int] == i) by {
                    if i != spot {
                        assert(game.cells[i] == cells[i]);
                    }
                }
                assert(after.has_body(body));
                lemma_find_only(cells, CellState::Fruit, spot);
            },
            None => {
                assert(cells == game.cells);
                assert(after.cells[head] == CellState::Head);
                assert(after.has_body(body));
            },
        }
    }
}

/// A frame leaves a well-formed simulation well formed.
pub proof fn lemma_frame_keeps_simulation(sim: SimState)
    requires
        sim.well_formed(),
    ensures
        sim.after_frame().well_formed(),
{
    if let SimState::Running(game) = sim {
        lemma_frame_keeps_well_formed(game);
    }
}

/// A well-formed simulation stays well formed whatever directions it is
/// handed.
pub proof fn lemma_inputs_keep_simulation(sim: SimState, inputs: Seq<Direction>)
    requires
        sim.well_formed(),
    ensures
        sim.after_inputs(inputs).well_formed(),
    decreases inputs.len(),
{
    if inputs.len() > 0 {
        let before = sim.after_inputs(inputs.drop_last());
        lemma_inputs_keep_simulation(sim, inputs.drop_last());
        lemma_input_keeps_well_formed(before, inputs.last());
        lemma_frame_keeps_simulation(before.after_input(inputs.last()));
    }
}

/// Once it is over, a simulation stays as it is, whatever it is handed.
pub proof fn lemma_over_stays_over(score: u8, inputs: Seq<Direction>)
    ensures
        SimState::Over(score).after_inputs(inputs) == SimState::Over(score),
    decreases inputs.len(),
{
    if inputs.len() > 0 {
        lemma_over_stays_over(score, inputs.drop_last());
    }
}

} // verus!
