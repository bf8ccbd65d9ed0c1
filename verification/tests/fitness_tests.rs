use evosnake::fitness::{
    get_input_from_network, get_score, play_episode, read_sensors, total_score, Episode, BASE_FRAMES,
    FRAMES_PER_LENGTH, NUM_SIMULATIONS,
};
use evosnake::network::{Network, NETWORK_VALUES};
use evosnake::snake_game::{Direction, EndFrameState, SnakeGame};

fn zero_network() -> Network<f32> {
    Network::from_values(&vec![0.0f32; NETWORK_VALUES])
}

/// A network that turns right at every frame: heading right it goes down,
/// heading down it goes left, heading left it goes up, heading up it goes
/// right.
fn circling_network() -> Network<f32> {
    let mut values = vec![0.0f32; NETWORK_VALUES];
    for k in 0..12 {
        values[k * 12 + k] = 1.0;
        values[156 + k * 12 + k] = 1.0;
    }
    values[312 + 12 + 6] = 1.0;
    values[312 + 2 * 12 + 5] = 1.0;
    values[312 + 7] = 1.0;
    values[312 + 3 * 12 + 4] = 1.0;
    Network::from_values(&values)
}

/// A network that always goes the way given by the index of its one
/// positive bias.
fn headstrong_network(action: usize) -> Network<f32> {
    let mut values = vec![0.0f32; NETWORK_VALUES];
    values[360 + action] = 1.0;
    Network::from_values(&values)
}

#[test]
fn the_sensors_come_in_their_order() {
    let mut game = SnakeGame::new(9);
    assert_eq!(
        read_sensors(&game),
        [false, false, false, false, false, false, true, false, false, false, false, false]
    );
    game.accept_input(Direction::Down);
    assert_eq!(game.to_next_frame(), EndFrameState::Continue);
    let flags = read_sensors(&game);
    assert_eq!(flags[0], true);
    assert_eq!(&flags[1..4], &[false, false, false]);
    assert_eq!(&flags[4..8], &[false, true, false, false]);
    assert_eq!(flags[8], game.food_direction_up());
    assert_eq!(flags[9], game.food_direction_down());
    assert_eq!(flags[10], game.food_direction_right());
    assert_eq!(flags[11], game.food_direction_left());
    game.accept_input(Direction::Left);
    let flags = read_sensors(&game);
    assert_eq!(&flags[4..8], &[false, false, false, true]);
}

#[test]
fn the_sensors_of_a_game_that_is_over_are_all_off() {
    let mut game = SnakeGame::new(0);
    for _ in 0..5 {
        game.accept_input(Direction::Right);
        game.to_next_frame();
    }
    assert!(matches!(game, SnakeGame::GameOver { .. }));
    assert_eq!(read_sensors(&game), [false; 12]);
}

#[test]
fn the_actions_stand_for_up_down_left_right() {
    let game = SnakeGame::new(0);
    assert_eq!(get_input_from_network(&game, &headstrong_network(0)), Direction::Up);
    assert_eq!(get_input_from_network(&game, &headstrong_network(1)), Direction::Down);
    assert_eq!(get_input_from_network(&game, &headstrong_network(2)), Direction::Left);
    assert_eq!(get_input_from_network(&game, &headstrong_network(3)), Direction::Right);
    assert_eq!(get_input_from_network(&game, &zero_network()), Direction::Up);
}

#[test]
fn the_circling_network_turns_right_at_every_frame() {
    let net = circling_network();
    let mut game = SnakeGame::new(0);
    let expected = [Direction::Down, Direction::Left, Direction::Up, Direction::Right, Direction::Down];
    for direction in expected {
        let chosen = get_input_from_network(&game, &net);
        assert_eq!(chosen, direction);
        game.accept_input(chosen);
        assert_eq!(game.to_next_frame(), EndFrameState::Continue);
    }
}

#[test]
fn a_game_into_the_wall_ends_at_the_wall() {
    let outcome = play_episode(&headstrong_network(3), 0);
    assert_eq!(outcome, Episode { score: 1, frames: 5 });
    let upwards = play_episode(&zero_network(), 0);
    assert_eq!(upwards.frames, 5);
    assert!(upwards.score == 1 || upwards.score == 2);
}

#[test]
fn a_game_that_never_ends_is_cut_off() {
    let net = circling_network();
    let mut cut = 0;
    for seed in 0..6u64 {
        let outcome = play_episode(&net, seed);
        assert!(outcome.frames >= 1);
        assert!(outcome.frames <= BASE_FRAMES + FRAMES_PER_LENGTH * outcome.score as u32 + 1);
        if outcome.score == 1 && outcome.frames > 200 {
            assert_eq!(outcome.frames, 251);
            cut += 1;
        }
    }
    assert!(cut >= 1);
}

#[test]
fn a_score_is_the_mean_of_three_games() {
    let net = headstrong_network(3);
    let scores: Vec<u8> = (4..7u64).map(|seed| play_episode(&net, seed).score).collect();
    let sum: i16 = scores.iter().map(|s| *s as i16).sum();
    assert_eq!(total_score(&net, 4), sum);
    assert_eq!(get_score(&net, 4), sum as f32 / 3.0);
    assert_eq!(NUM_SIMULATIONS, 3);
    assert_eq!(total_score(&net, 0), 3 * 1 + extra_fruit(&net, 1) + extra_fruit(&net, 2));
    assert_eq!(get_score(&net, 0), total_score(&net, 0) as f32 / 3.0);
}

fn extra_fruit(net: &Network<f32>, seed: u64) -> i16 {
    play_episode(net, seed).score as i16 - 1
}

#[test]
fn the_same_network_and_seed_give_the_same_score() {
    let net = circling_network();
    assert_eq!(play_episode(&net, 17), play_episode(&net, 17));
    assert_eq!(get_score(&net, 3).to_bits(), get_score(&net, 3).to_bits());
}
