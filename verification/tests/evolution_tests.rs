use evosnake::evolution::{
    blank, chunk_bounds, fill, offspring, outlives, sorted_by_score, train_scores_single_thread, Generation,
    Individual, SCORING_SEED,
};
use evosnake::fitness::get_score;
use evosnake::network::{Network, MUTATION_VALUES, NETWORK_VALUES};

fn network_of(value: f32) -> Network<f32> {
    Network::from_values(&vec![value; NETWORK_VALUES])
}

fn individual(value: f32, score: f32) -> Individual<f32> {
    Individual { network: network_of(value), score }
}

fn values_of(network: &Network<f32>) -> Vec<Vec<Vec<f32>>> {
    vec![
        network.first.matrix.to_vecs(),
        network.first.bias.to_vecs(),
        network.second.matrix.to_vecs(),
        network.second.bias.to_vecs(),
        network.third.matrix.to_vecs(),
        network.third.bias.to_vecs(),
    ]
}

fn marks(population: &[Individual<f32>]) -> Vec<f32> {
    population.iter().map(|i| *i.network.third.bias.get_unchecked(0, 0)).collect()
}

fn scores(population: &[Individual<f32>]) -> Vec<f32> {
    population.iter().map(|i| i.score).collect()
}

#[test]
fn survival_goes_by_the_square_of_the_share() {
    let max = 8.0f32;
    assert!(!outlives(0.0, max, 0.0));
    assert!(!outlives(0.0, max, 0.5));
    assert!(outlives(max / 2.0, max, 0.0));
    assert!(outlives(max / 2.0, max, 0.2499));
    assert!(!outlives(max / 2.0, max, 0.25));
    assert!(!outlives(max / 2.0, max, 0.9));
    assert!(outlives(max, max, 0.0));
    assert!(outlives(max, max, 0.999_999));
    assert!(outlives(6.0, max, 0.5624));
    assert!(!outlives(6.0, max, 0.5626));
}

#[test]
fn survival_follows_the_share_over_many_draws() {
    let max = 10.0f32;
    let draws: Vec<f32> = (0..1000).map(|k| k as f32 / 1000.0).collect();
    let kept = |score: f32| draws.iter().filter(|d| outlives(score, max, **d)).count();
    assert_eq!(kept(0.0), 0);
    assert_eq!(kept(max / 2.0), 250);
    assert_eq!(kept(max), 1000);
}

#[test]
fn nobody_survives_where_the_greatest_score_is_zero() {
    assert!(!outlives(0.0, 0.0, 0.0));
    assert!(!outlives(0.0, 0.0, 0.7));
    assert!(!outlives(-1.0, 0.0, 0.7));
    assert!(!outlives(0i64, 0, 0));
    assert!(outlives(3i64, 3, 0));
    assert!(!outlives(1i64, 3, 0));
    assert!(outlives(-4.0, -2.0, 3.9));
}

#[test]
fn the_range_of_the_scores() {
    let generation = Generation {
        best_ever_network: individual(0.0, 9.0),
        networks: vec![individual(1.0, 2.0), individual(2.0, 7.5), individual(3.0, 0.5), individual(4.0, 7.5)],
        generation_counter: 0,
    };
    assert_eq!(generation.score_range(), Some((0.5, 7.5)));
    let nobody: Generation<f32> =
        Generation { best_ever_network: individual(0.0, 9.0), networks: Vec::new(), generation_counter: 0 };
    assert_eq!(nobody.score_range(), None);
}

#[test]
fn scores_that_are_not_numbers_are_passed_over() {
    let mut generation = Generation {
        best_ever_network: individual(9.0, 20.0),
        networks: vec![individual(1.0, f32::NAN), individual(2.0, 4.0), individual(3.0, 2.0)],
        generation_counter: 0,
    };
    assert_eq!(generation.score_range(), Some((2.0, 4.0)));
    assert_eq!(marks(&generation.select(&vec![0.0, 0.5, 0.2])), vec![2.0, 3.0, 9.0]);
    assert_eq!(marks(&generation.select(&vec![0.0, 0.5, 0.3])), vec![2.0, 9.0]);
    for individual in generation.networks.iter_mut() {
        individual.score = f32::NAN;
    }
    assert_eq!(generation.score_range(), None);
    assert_eq!(marks(&generation.select(&vec![0.0, 0.0, 0.0])), vec![9.0]);
}

#[test]
fn a_population_without_individuals_leaves_the_best_so_far() {
    let nobody: Generation<f32> =
        Generation { best_ever_network: individual(3.0, 9.0), networks: Vec::new(), generation_counter: 7 };
    assert_eq!(marks(&nobody.select(&Vec::new())), vec![3.0]);
    let mut draw = || 0.0f32;
    let mut noise = || 0.0f32;
    let next = Generation::new_from_generation(&nobody, &mut draw, &mut noise);
    assert_eq!(marks(&next.networks), vec![3.0]);
    assert_eq!(next.generation_counter, 8);
}

#[test]
fn the_selection_keeps_the_order_and_adds_the_best_so_far() {
    let generation = Generation {
        best_ever_network: individual(9.0, 20.0),
        networks: vec![
            individual(1.0, 10.0),
            individual(2.0, 5.0),
            individual(3.0, 0.0),
            individual(4.0, 5.0),
            individual(5.0, 10.0),
        ],
        generation_counter: 4,
    };
    let chosen = generation.select(&vec![0.99, 0.2, 0.0, 0.3, 0.0]);
    assert_eq!(marks(&chosen), vec![1.0, 2.0, 5.0, 9.0]);
    assert_eq!(scores(&chosen), vec![10.0, 5.0, 10.0, 20.0]);
    let all = generation.select(&vec![0.0, 0.0, 0.0, 0.0, 0.0]);
    assert_eq!(marks(&all), vec![1.0, 2.0, 4.0, 5.0, 9.0]);
    let few = generation.select(&vec![0.999, 0.999, 0.999, 0.999, 0.999]);
    assert_eq!(marks(&few), vec![1.0, 5.0, 9.0]);
}

#[test]
fn sorting_puts_the_greatest_score_first_and_keeps_equals_in_order() {
    let population = vec![
        individual(1.0, 2.0),
        individual(2.0, 7.0),
        individual(3.0, 2.0),
        individual(4.0, 9.0),
        individual(5.0, 7.0),
        individual(6.0, 0.0),
    ];
    let ranked = sorted_by_score(&population);
    assert_eq!(scores(&ranked), vec![9.0, 7.0, 7.0, 2.0, 2.0, 0.0]);
    assert_eq!(marks(&ranked), vec![4.0, 2.0, 5.0, 1.0, 3.0, 6.0]);
    assert_eq!(sorted_by_score(&Vec::<Individual<f32>>::new()).len(), 0);
}

#[test]
fn ranking_takes_a_new_best_only_where_it_is_better() {
    let mut generation = Generation {
        best_ever_network: individual(9.0, 7.0),
        networks: vec![individual(1.0, 2.0), individual(2.0, 7.0), individual(3.0, 5.0)],
        generation_counter: 3,
    };
    generation.rank();
    assert_eq!(marks(&generation.networks), vec![2.0, 3.0, 1.0]);
    assert_eq!(marks(&[generation.best_ever_network.clone()]), vec![9.0]);
    assert_eq!(generation.best_ever_network.score, 7.0);
    generation.networks.push(individual(4.0, 7.5));
    generation.rank();
    assert_eq!(marks(&generation.networks), vec![4.0, 2.0, 3.0, 1.0]);
    assert_eq!(marks(&[generation.best_ever_network.clone()]), vec![4.0]);
    assert_eq!(generation.best_ever_network.score, 7.5);
    assert_eq!(generation.generation_counter, 3);
}

#[test]
fn an_offspring_is_a_mutated_copy_with_the_score_zero() {
    let parent = individual(1.0, 5.0);
    let noise: Vec<f32> = (0..MUTATION_VALUES + 3).map(|k| k as f32).collect();
    let child = offspring(&parent, &noise, 3);
    assert_eq!(child.score, 0.0);
    assert_eq!(*child.network.first.matrix.get_unchecked(0, 0), 1.0 + 3.0 + 159.0);
    assert_eq!(*child.network.first.bias.get_unchecked(0, 0), 1.0 + 147.0 + 303.0);
    assert_eq!(child.network.second.matrix.to_vecs(), parent.network.second.matrix.to_vecs());
    assert_eq!(child.network.third.bias.to_vecs(), parent.network.third.bias.to_vecs());
    assert_eq!(values_of(&parent.network), values_of(&network_of(1.0)));
}

#[test]
fn filling_goes_through_the_survivors_again_and_again() {
    let survivors = vec![individual(1.0, 3.0), individual(2.0, 4.0), individual(3.0, 5.0)];
    let mut draw = || 0.0f32;
    let filled = fill(survivors, 8, &mut draw);
    assert_eq!(marks(&filled), vec![1.0, 2.0, 3.0, 1.0, 2.0, 3.0, 1.0, 2.0]);
    assert_eq!(scores(&filled), vec![3.0, 4.0, 5.0, 0.0, 0.0, 0.0, 0.0, 0.0]);
    let enough = fill(vec![individual(1.0, 3.0), individual(2.0, 4.0)], 2, &mut draw);
    assert_eq!(marks(&enough), vec![1.0, 2.0]);
    let more = fill(vec![individual(1.0, 3.0), individual(2.0, 4.0)], 1, &mut draw);
    assert_eq!(marks(&more), vec![1.0, 2.0]);
}

#[test]
fn filling_draws_the_values_of_each_mutation_in_turn() {
    let mut next = 0.0f32;
    let mut draw = || {
        next += 1.0;
        next
    };
    let filled = fill(vec![individual(0.0, 3.0)], 3, &mut draw);
    assert_eq!(*filled[1].network.first.matrix.get_unchecked(0, 0), 1.0 + 157.0);
    assert_eq!(*filled[2].network.first.matrix.get_unchecked(0, 0), 313.0 + 469.0);
    assert_eq!(*filled[1].network.second.matrix.get_unchecked(0, 0), 0.0);
    assert_eq!(next, 2.0 * MUTATION_VALUES as f32);
}

#[test]
fn scoring_keeps_the_networks_and_their_order() {
    let population = vec![individual(1.0, 99.0), individual(-1.0, 99.0), individual(0.0, 99.0)];
    let scored = train_scores_single_thread(&population);
    assert_eq!(marks(&scored), vec![1.0, -1.0, 0.0]);
    for individual in &scored {
        assert_eq!(individual.score, get_score(&individual.network, SCORING_SEED));
        assert!(individual.score >= 1.0);
    }
}

#[test]
fn a_first_generation_has_the_score_zero_throughout() {
    let mut next = 0.0f32;
    let mut draw = || {
        next += 1.0;
        next
    };
    let generation = Generation::new(5, &mut draw);
    assert_eq!(generation.generation_counter, 0);
    assert_eq!(generation.networks.len(), 5);
    assert_eq!(generation.best_ever_network.score, 0.0);
    assert_eq!(scores(&generation.networks), vec![0.0; 5]);
    assert_eq!(*generation.best_ever_network.network.first.matrix.get_unchecked(0, 0), 1.0);
    assert_eq!(*generation.networks[0].network.first.matrix.get_unchecked(0, 0), 365.0);
    assert_eq!(*generation.networks[4].network.third.bias.get_unchecked(3, 0), 6.0 * 364.0);
    let lone = blank(&mut draw);
    assert_eq!(lone.score, 0.0);
    assert_eq!(Generation::new(0, &mut draw).networks.len(), 0);
}

#[test]
fn a_population_without_scores_is_rebuilt_from_the_best_so_far() {
    let parents = Generation {
        best_ever_network: individual(2.0, 4.0),
        networks: (0..10).map(|_| individual(-1.0, 0.0)).collect(),
        generation_counter: 41,
    };
    let mut survival = || 0.0f32;
    let mut step = 0.0f32;
    let mut mutation = || {
        step += 1.0;
        step / 1024.0
    };
    let unscored = Generation::unscored_from(&parents, &mut survival, &mut mutation);
    assert_eq!(unscored.networks.len(), 10);
    assert_eq!(unscored.generation_counter, 42);
    assert_eq!(scores(&unscored.networks), vec![4.0, 0.0, 0.0, 0.0, 0.0, 0.0, 0.0, 0.0, 0.0, 0.0]);
    assert_eq!(values_of(&unscored.networks[0].network), values_of(&parents.best_ever_network.network));
    for (k, child) in unscored.networks.iter().enumerate().skip(1) {
        let from = (k - 1) * MUTATION_VALUES;
        let first = (from + 1) as f32 / 1024.0;
        let second = (from + 157) as f32 / 1024.0;
        assert_eq!(*child.network.first.matrix.get_unchecked(0, 0), 2.0 + first + second);
        assert_eq!(child.network.second.matrix.to_vecs(), parents.best_ever_network.network.second.matrix.to_vecs());
        assert_eq!(child.network.third.matrix.to_vecs(), parents.best_ever_network.network.third.matrix.to_vecs());
    }
    let mut step = 0.0f32;
    let mut mutation = || {
        step += 1.0;
        step / 1024.0
    };
    let next = Generation::new_from_generation(&parents, &mut survival, &mut mutation);
    assert_eq!(next.networks.len(), 10);
    assert_eq!(next.generation_counter, 42);
    let kept = next
        .networks
        .iter()
        .filter(|i| values_of(&i.network) == values_of(&parents.best_ever_network.network))
        .count();
    assert_eq!(kept, 1);
    for individual in &next.networks {
        assert_eq!(individual.score, get_score(&individual.network, SCORING_SEED));
    }
    for pair in next.networks.windows(2) {
        assert!(pair[0].score >= pair[1].score);
    }
    assert_eq!(next.best_ever_network.score, 4.0);
    assert_eq!(values_of(&next.best_ever_network.network), values_of(&parents.best_ever_network.network));
}

#[test]
fn the_best_so_far_is_in_every_next_generation() {
    let mut parents = Generation {
        best_ever_network: individual(0.5, 1.0),
        networks: vec![
            individual(1.0, 3.0),
            individual(2.0, 2.0),
            individual(3.0, 1.5),
            individual(4.0, 1.0),
            individual(5.0, 1.0),
            individual(6.0, 1.0),
        ],
        generation_counter: u64::MAX,
    };
    let mut state = 12345u32;
    let mut unit = move || {
        state = state.wrapping_mul(1664525).wrapping_add(1013904223);
        (state >> 8) as f32 / 16777216.0
    };
    let mut other = 999u32;
    let mut noise = move || {
        other = other.wrapping_mul(1664525).wrapping_add(1013904223);
        (other >> 8) as f32 / 16777216.0 - 0.5
    };
    for _ in 0..4 {
        let next = Generation::new_from_generation(&parents, &mut unit, &mut noise);
        assert!(next.networks.len() == parents.networks.len() || next.networks.len() == parents.networks.len() + 1);
        assert!(next
            .networks
            .iter()
            .any(|i| values_of(&i.network) == values_of(&parents.best_ever_network.network)));
        assert_eq!(next.generation_counter, u64::MAX);
        assert!(next.best_ever_network.score >= parents.best_ever_network.score);
        for pair in next.networks.windows(2) {
            assert!(pair[0].score >= pair[1].score);
        }
        parents = next;
    }
}

#[test]
fn a_population_in_which_all_survive_grows_by_the_best_so_far() {
    let parents = Generation {
        best_ever_network: individual(0.0, 1.0),
        networks: vec![individual(1.0, 3.0), individual(2.0, 3.0)],
        generation_counter: 0,
    };
    let mut survival = || 0.5f32;
    let mut mutation = || 0.0f32;
    let unscored = Generation::unscored_from(&parents, &mut survival, &mut mutation);
    assert_eq!(marks(&unscored.networks), vec![1.0, 2.0, 0.0]);
    assert_eq!(scores(&unscored.networks), vec![3.0, 3.0, 1.0]);
    assert_eq!(unscored.generation_counter, 1);
}

#[test]
fn scoring_a_generation_ranks_it() {
    let mut generation = Generation {
        best_ever_network: individual(0.0, 0.5),
        networks: vec![individual(1.0, 0.0), individual(-1.0, 0.0), individual(0.0, 0.0)],
        generation_counter: 8,
    };
    generation.train_scores();
    assert_eq!(generation.networks.len(), 3);
    assert_eq!(generation.generation_counter, 8);
    for pair in generation.networks.windows(2) {
        assert!(pair[0].score >= pair[1].score);
    }
    assert_eq!(generation.best_ever_network.score, generation.networks[0].score);
    assert_eq!(
        values_of(&generation.best_ever_network.network),
        values_of(&generation.networks[0].network)
    );
}

#[test]
fn chunks_follow_on_each_other_and_the_last_takes_the_rest() {
    let bounds: Vec<(usize, usize)> = (0..6).map(|i| chunk_bounds(100, 6, i)).collect();
    assert_eq!(bounds, vec![(0, 16), (16, 32), (32, 48), (48, 64), (64, 80), (80, 100)]);
    assert_eq!(chunk_bounds(5, 1, 0), (0, 5));
    assert_eq!(chunk_bounds(3, 6, 0), (0, 0));
    assert_eq!(chunk_bounds(3, 6, 5), (0, 3));
    assert_eq!(chunk_bounds(0, 4, 3), (0, 0));
}
