use crate::matrix::ColVector;
use crate::network::{NetInput, Network};
use crate::scalar::{arithmetic_allows, exact_arithmetic, exact_conversion, of_count, Scalar};
use crate::snake_game::{Direction, EndFrameState, SnakeGame};
use crate::snake_model::{
    lemma_frame_keeps_well_formed, lemma_length_bounded, start, SimState, GRID_CELLS,
};
use vstd::prelude::*;
use vstd::std_specs::convert::FromSpec;
use vstd::std_specs::ops::DivSpec;

verus! {

/// The number of games that make up a score.
pub const NUM_SIMULATIONS: i8 = 3;

/// A game is cut off once it has lasted more than this many frames, and
/// `FRAMES_PER_LENGTH` more for each cell of the snake's length.
pub const BASE_FRAMES: u32 = 200;

/// The frames that each cell of the snake's length adds to the cutoff.
pub const FRAMES_PER_LENGTH: u32 = 50;

/// No game lasts this many frames.
pub const FRAME_CAP: u32 = 12951;

/// How one game ended: the score, and the number of frames it took.
#[derive(Clone, Copy, PartialEq, Eq, Structural, Debug)]
pub struct Episode {
    pub score: u8,
    pub frames: u32,
}

/// The twelve sensors of a simulation: whether there is an obstacle above,
/// below, to the left and to the right of the head; whether the snake is
/// heading up, down, right, left; and whether the fruit lies above, below,
/// to the right, to the left of the head. All of them are off once the
/// game is over.
pub open spec fn sensors(sim: SimState) -> Seq<bool> {
    seq![
        sim.obstacle(Direction::Up),
        sim.obstacle(Direction::Down),
        sim.obstacle(Direction::Left),
        sim.obstacle(Direction::Right),
        sim.heading(Direction::Up),
        sim.heading(Direction::Down),
        sim.heading(Direction::Right),
        sim.heading(Direction::Left),
        sim.food(Direction::Up),
        sim.food(Direction::Down),
        sim.food(Direction::Right),
        sim.food(Direction::Left),
    ]
}

/// Once the game is over every sensor is off.
pub proof fn lemma_sensors_off_once_over(score: u8)
    ensures
        sensors(SimState::Over(score)) == Seq::new(12, |i: int| false),
{
    assert(SimState::Over(score).food_directions() =~= Seq::<Direction>::empty());
    assert(sensors(SimState::Over(score)) =~= Seq::new(12, |i: int| false));
}

/// The column that a network is fed for the sensors `flags`: a one for each
/// that is on, a zero for each that is off.
pub open spec fn encoded<T: Scalar>(flags: Seq<bool>) -> Seq<Seq<T>> {
    Seq::new(
        flags.len(),
        |i: int|
            seq![
                if flags[i] {
                    of_count::<T>(1)
                } else {
                    of_count::<T>(0)
                },
            ],
    )
}

/// The direction that an action stands for.
pub open spec fn direction_of(action: int) -> Direction {
    if action == 0 {
        Direction::Up
    } else if action == 1 {
        Direction::Down
    } else if action == 2 {
        Direction::Left
    } else {
        Direction::Right
    }
}

/// The direction that the network `net` chooses in the simulation `sim`.
pub open spec fn decision<T: Scalar>(net: Network<T>, sim: SimState) -> Direction {
    direction_of(net.choice(encoded::<T>(sensors(sim))))
}

/// `T` accepts every operation that `net` takes to choose a direction,
/// whatever the sensors say.
pub open spec fn steering_defined<T: Scalar>(net: Network<T>) -> bool {
    forall|flags: Seq<bool>| flags.len() == 12 ==> #[trigger] net.choice_defined(encoded::<T>(flags))
}

/// `T` accepts every operation that the scoring of `net` takes: those of
/// the steering, and the division of the mean.
pub open spec fn scoring_defined<T: Scalar>(net: Network<T>) -> bool {
    &&& steering_defined(net)
    &&& forall|sum: i16|
        (#[trigger] <T as FromSpec<i16>>::from_spec(sum)).div_req(of_count::<T>(NUM_SIMULATIONS))
}

/// The arithmetic of 64-bit integers is exact, and it accepts every
/// operation that the scoring of a network of zeros takes.
pub proof fn lemma_zero_network_scores(net: Network<i64>)
    requires
        net.is_zero(),
    ensures
        exact_arithmetic::<i64>(),
        steering_defined(net),
        scoring_defined(net),
{
    assert forall|flags: Seq<bool>| flags.len() == 12 implies #[trigger] net.choice_defined(
        encoded::<i64>(flags),
    ) by {
        net.lemma_zero_network(encoded::<i64>(flags));
    }
}

/// The number of frames after which a game with a snake of the given length
/// is cut off.
pub open spec fn cutoff(length: u8) -> int {
    BASE_FRAMES + FRAMES_PER_LENGTH * length
}

/// How the game `sim`, of which `frames` frames have been played, ends
/// where `net` steers: before each frame the network chooses the direction
/// from the sensors. The game ends with the frame that ends the simulation,
/// and is cut off after the first frame that brings their number above the
/// cutoff; the score is then the length of the snake.
pub open spec fn episode_from<T: Scalar>(net: Network<T>, sim: SimState, frames: nat) -> Episode
    decreases FRAME_CAP - frames,
{
    let next = sim.after_input(decision(net, sim)).after_frame();
    let played = (frames + 1) as nat;
    match next {
        SimState::Over(score) => Episode { score, frames: played as u32 },
        SimState::Running(game) => if played > cutoff(game.length) {
            Episode { score: game.length, frames: played as u32 }
        } else {
            episode_from(net, next, played)
        },
    }
}

/// How the game that starts from `seed` ends where `net` steers.
pub open spec fn episode<T: Scalar>(net: Network<T>, seed: u64) -> Episode {
    episode_from(net, start(seed), 0)
}

/// The scores of the games from the seeds `seed`, `seed + 1` and
/// `seed + 2`, added up.
pub open spec fn total<T: Scalar>(net: Network<T>, seed: u64) -> int {
    episode(net, seed).score + episode(net, (seed + 1) as u64).score + episode(
        net,
        (seed + 2) as u64,
    ).score
}

/// The mean of `NUM_SIMULATIONS` scores that add up to `total`.
pub open spec fn mean<T: Scalar>(total: i16) -> T {
    <T as FromSpec<i16>>::from_spec(total).div_spec(of_count::<T>(NUM_SIMULATIONS))
}

/// The number that a network is fed for a sensor: one if it is on, zero if
/// it is off.
fn flag<T: Scalar>(on: bool) -> (value: T)
    ensures
        exact_conversion::<T>() ==> value == (if on {
            of_count::<T>(1)
        } else {
            of_count::<T>(0)
        }),
{
    if on {
        T::from(1i8)
    } else {
        T::from(0i8)
    }
}

/// The twelve sensors of `game`.
pub fn read_sensors(game: &SnakeGame) -> (flags: [bool; 12])
    requires
        game@.well_formed(),
    ensures
        flags@ == sensors(game@),
{
    let flags = [
        game.obstacle_direction_up(),
        game.obstacle_direction_down(),
        game.obstacle_direction_left(),
        game.obstacle_direction_right(),
        game.current_direction_up(),
        game.current_direction_down(),
        game.current_direction_right(),
        game.current_direction_left(),
        game.food_direction_up(),
        game.food_direction_down(),
        game.food_direction_right(),
        game.food_direction_left(),
    ];
    assert(flags@ =~= sensors(game@));
    flags
}

/// The direction that `net` chooses in `game`: the network is fed the
/// sensors, and its action 0 stands for up, 1 for down, 2 for left and 3
/// for right.
pub fn get_input_from_network<T: Scalar>(game: &SnakeGame, net: &Network<T>) -> (direction: Direction)
    requires
        game@.well_formed(),
        arithmetic_allows::<T>(net.choice_defined(encoded::<T>(sensors(game@)))),
    ensures
        exact_arithmetic::<T>() ==> direction == decision(*net, game@),
{
    let flags = read_sensors(game);
    let entry_at = |i: usize, j: usize| -> (value: T)
        requires
            i < 12,
            j < 1,
        ensures
            exact_conversion::<T>() ==> value == (if flags@[i as int] {
                of_count::<T>(1)
            } else {
                of_count::<T>(0)
            }),
        { flag(flags[i]) };
    let input: NetInput<T> = ColVector::<T, 12>::new_from_generator(entry_at);
    proof {
        if exact_arithmetic::<T>() {
            input.lemma_shape();
            let expected = encoded::<T>(sensors(game@));
            assert forall|i: int| 0 <= i < 12 implies #[trigger] input@[i] == expected[i] by {
                let entry = input@[i][0];
                assert(input@[i] =~= expected[i]);
            }
            assert(input@ =~= expected);
        }
    }
    let action = net.choice_with_highest_confidence(input);
    if action == 0 {
        Direction::Up
    } else if action == 1 {
        Direction::Down
    } else if action == 2 {
        Direction::Left
    } else {
        Direction::Right
    }
}

/// Plays the game that starts from `seed` with `net` steering, and says how
/// it ended. A game of a snake that ends with the length `L`, or is cut off
/// at that length, has taken at most `cutoff(L) + 1` frames.
pub fn play_episode<T: Scalar>(net: &Network<T>, seed: u64) -> (outcome: Episode)
    requires
        arithmetic_allows::<T>(steering_defined(*net)),
    ensures
        exact_arithmetic::<T>() ==> outcome == episode(*net, seed),
        1 <= outcome.frames <= cutoff(outcome.score) + 1,
        1 <= outcome.score <= GRID_CELLS,
{
    let mut game = SnakeGame::new(seed);
    let mut num_frames: u32 = 0;
    loop
        invariant
            arithmetic_allows::<T>(steering_defined(*net)),
            game@.well_formed(),
            game@ is Running,
            num_frames <= cutoff(game@.length()),
            exact_arithmetic::<T>() ==> episode(*net, seed) == episode_from(
                *net,
                game@,
                num_frames as nat,
            ),
        decreases FRAME_CAP - num_frames,
    {
        assert(sensors(game@).len() == 12);
        let direction = get_input_from_network(&game, net);
        game.accept_input(direction);
        proof {
            lemma_frame_keeps_well_formed(game@->Running_0);
            lemma_length_bounded(game@->Running_0);
        }
        num_frames += 1;
        match game.to_next_frame() {
            EndFrameState::GameOver { score } => {
                return Episode { score, frames: num_frames };
            },
            EndFrameState::Continue => {},
        }
        proof {
            lemma_length_bounded(game@->Running_0);
        }
        let snake_length = game.length();
        if num_frames > BASE_FRAMES + FRAMES_PER_LENGTH * (snake_length as u32) {
            return Episode { score: snake_length, frames: num_frames };
        }
    }
}

/// The scores of the games from the seeds `seed`, `seed + 1` and
/// `seed + 2` with `net` steering, added up.
pub fn total_score<T: Scalar>(net: &Network<T>, seed: u64) -> (sum: i16)
    requires
        arithmetic_allows::<T>(steering_defined(*net)),
        seed + 2 <= u64::MAX,
    ensures
        exact_arithmetic::<T>() ==> sum == total(*net, seed),
        NUM_SIMULATIONS <= sum <= NUM_SIMULATIONS * GRID_CELLS,
{
    let first = play_episode(net, seed);
    let second = play_episode(net, seed + 1);
    let third = play_episode(net, seed + 2);
    first.score as i16 + second.score as i16 + third.score as i16
}

/// The score of `net`: the mean of the scores of the games from the seeds
/// `seed`, `seed + 1` and `seed + 2`.
pub fn get_score<T: Scalar>(net: &Network<T>, seed: u64) -> (score: T)
    requires
        arithmetic_allows::<T>(scoring_defined(*net)),
        seed + 2 <= u64::MAX,
    ensures
        exact_arithmetic::<T>() ==> score == mean::<T>(total(*net, seed) as i16),
{
    let sum = total_score(net, seed);
    let games: T = T::from(NUM_SIMULATIONS);
    let sum_in: T = T::from(sum);
    sum_in / games
}

} // verus!
