use crate::draws::collect_draws;
use crate::fitness::{get_score, mean, scoring_defined, total};
use crate::network::{drawn_noise, Network, MUTATION_VALUES, NETWORK_VALUES};
use crate::scalar::{
    addition_allows, arithmetic_allows, comparable, exact_arithmetic, exact_conversion, exact_order,
    exceeds, of_count, precedes, strict_order, total_arithmetic, Scalar,
};
use vstd::prelude::*;
use vstd::seq_lib::{to_multiset_build, to_multiset_insert};
use vstd::std_specs::ops::{DivSpec, MulSpec};

verus! {

/// The seed of the first of the games that make up a score.
pub const SCORING_SEED: u64 = 0;

/// A network with its score: the higher the better, and zero for one that
/// has not been tried yet.
pub struct Individual<T> {
    pub network: Network<T>,
    pub score: T,
}

impl<T: Copy> Clone for Individual<T> {
    fn clone(&self) -> (copy: Self)
        ensures
            copy == *self,
    {
        Individual { network: self.network.clone(), score: self.score }
    }
}

/// A population in its order, the best individual of all generations so
/// far, and the number of generations before this one.
pub struct Generation<T> {
    pub best_ever_network: Individual<T>,
    pub networks: Vec<Individual<T>>,
    pub generation_counter: u64,
}

/// The greatest of the first `n` scores of `population`, if any of them has
/// a place in the ordering: the scores are gone through from the first,
/// the first that compares with itself takes the lead, and after it each
/// that is greater than the one that has it.
pub open spec fn highest<T: Scalar>(population: Seq<Individual<T>>, n: nat) -> Option<T>
    decreases n,
{
    if n == 0 {
        None
    } else {
        let score = population[n - 1].score;
        match highest(population, (n - 1) as nat) {
            Some(lead) => if exceeds(score, lead) {
                Some(score)
            } else {
                Some(lead)
            },
            None => if comparable(score) {
                Some(score)
            } else {
                None
            },
        }
    }
}

/// The least of the first `n` scores of `population`, found as the greatest
/// is.
pub open spec fn lowest<T: Scalar>(population: Seq<Individual<T>>, n: nat) -> Option<T>
    decreases n,
{
    if n == 0 {
        None
    } else {
        let score = population[n - 1].score;
        match lowest(population, (n - 1) as nat) {
            Some(lead) => if precedes(score, lead) {
                Some(score)
            } else {
                Some(lead)
            },
            None => if comparable(score) {
                Some(score)
            } else {
                None
            },
        }
    }
}

/// The greatest score `best` leaves nothing to share: it is neither above
/// nor below zero.
pub open spec fn scoreless<T: Scalar>(best: T) -> bool {
    !exceeds(best, of_count::<T>(0)) && !precedes(best, of_count::<T>(0))
}

/// Whether an individual with the score `score` survives in a population
/// whose greatest score is `best`, where `draw` was drawn for it: it does
/// where the draw is less than the square of its share `score / best`.
/// Where the greatest score is zero there is no share, and nobody survives.
pub open spec fn survives<T: Scalar>(score: T, best: T, draw: T) -> bool {
    if scoreless(best) {
        false
    } else {
        let share = score.div_spec(best);
        precedes(draw, share.mul_spec(share))
    }
}

/// `T` accepts the division and the product that the survival of an
/// individual with the score `score` takes, where `best` is the greatest
/// score. It takes none where the greatest score is zero.
pub open spec fn survival_defined<T: Scalar>(score: T, best: T) -> bool {
    scoreless(best) || (score.div_req(best) && score.div_spec(best).mul_req(score.div_spec(best)))
}

/// Those of the first `n` individuals of `population` that survive, in
/// their order, where `best` is the greatest score and `draws[i]` was
/// drawn for the individual `i`.
pub open spec fn selected<T: Scalar>(
    population: Seq<Individual<T>>,
    best: T,
    draws: Seq<T>,
    n: nat,
) -> Seq<Individual<T>>
    decreases n,
{
    if n == 0 {
        Seq::empty()
    } else if survives(population[n - 1].score, best, draws[n - 1]) {
        selected(population, best, draws, (n - 1) as nat).push(population[n - 1])
    } else {
        selected(population, best, draws, (n - 1) as nat)
    }
}

/// The place at which an individual with the score `score` enters the
/// ranking `ranked`, looked for from the place `from` on: before the first
/// individual whose score it exceeds, and so behind all those that it does
/// not exceed; at the end where there is none.
pub open spec fn entry<T: Scalar>(ranked: Seq<Individual<T>>, score: T, from: nat) -> nat
    decreases ranked.len() - from,
{
    if from >= ranked.len() || exceeds(score, ranked[from as int].score) {
        from
    } else {
        entry(ranked, score, from + 1)
    }
}

/// The first `n` individuals of `population` in the order of their scores,
/// greatest first, where individuals with the same score keep their order:
/// each in turn enters the ranking of those before it.
pub open spec fn ranking<T: Scalar>(population: Seq<Individual<T>>, n: nat) -> Seq<Individual<T>>
    decreases n,
{
    if n == 0 {
        Seq::empty()
    } else {
        let before = ranking(population, (n - 1) as nat);
        before.insert(entry(before, population[n - 1].score, 0) as int, population[n - 1])
    }
}

/// No individual of `population` has a greater score than one before it.
pub open spec fn descending<T: Scalar>(population: Seq<Individual<T>>) -> bool {
    forall|a: int, b: int|
        0 <= a < b < population.len() ==> !exceeds(
            (#[trigger] population[b]).score,
            (#[trigger] population[a]).score,
        )
}

/// `score` is the score of one of the individuals of `population`.
pub open spec fn holds_score<T>(population: Seq<Individual<T>>, score: T) -> bool {
    exists|j: int| 0 <= j < population.len() && (#[trigger] population[j]).score == score
}

/// `network` is the network of one of the individuals of `population`.
pub open spec fn holds_network<T>(population: Seq<Individual<T>>, network: Network<T>) -> bool {
    exists|j: int| 0 <= j < population.len() && (#[trigger] population[j]).network == network
}

/// The individual with its score worked out anew: the mean score of its
/// network in the games from `SCORING_SEED` on.
pub open spec fn rated<T: Scalar>(individual: Individual<T>) -> Individual<T> {
    Individual {
        network: individual.network,
        score: mean::<T>(total(individual.network, SCORING_SEED) as i16),
    }
}

/// The individual whose network is a mutation of that of `parent` with the
/// values of `noise` from position `from` on, and whose score is zero.
pub open spec fn is_offspring<T: Scalar>(
    child: Individual<T>,
    parent: Individual<T>,
    noise: Seq<T>,
    from: int,
) -> bool {
    child.network.mutated_from(parent.network, noise, from) && child.score == of_count::<T>(0)
}

/// `child` is an offspring of `parent` for some `MUTATION_VALUES` values
/// that `draw` returned.
pub open spec fn bred<T: Scalar, F: FnMut() -> T>(
    child: Individual<T>,
    parent: Individual<T>,
    draw: F,
) -> bool {
    exists|noise: Seq<T>| drawn_noise(noise, draw) && #[trigger] is_offspring(child, parent, noise, 0)
}

/// `filled` is `survivors` filled up to `target` individuals: after the
/// survivors come offspring of the first survivor, of the second, and so on
/// through the survivors, again and again, each bred with values that
/// `draw` returned. Where there are `target` survivors or more, nothing is
/// added.
pub open spec fn filled_from<T: Scalar, F: FnMut() -> T>(
    filled: Seq<Individual<T>>,
    survivors: Seq<Individual<T>>,
    target: nat,
    draw: F,
) -> bool {
    &&& filled.len() == if target > survivors.len() {
        target
    } else {
        survivors.len()
    }
    &&& forall|i: int| 0 <= i < survivors.len() ==> #[trigger] filled[i] == survivors[i]
    &&& forall|i: int|
        survivors.len() <= i < filled.len() ==> bred(
            #[trigger] filled[i],
            survivors[(i - survivors.len()) % (survivors.len() as int)],
            draw,
        )
}

/// The position at which chunk `index` starts where `len` items are split
/// into `chunks` chunks: each chunk has `len / chunks` items, but for the
/// last, which has the rest.
pub open spec fn chunk_start(len: nat, chunks: nat, index: nat) -> nat {
    if index >= chunks {
        len
    } else {
        index * (len / chunks)
    }
}

impl<T: Scalar> Generation<T> {
    /// `self` is what the scoring makes of `before`: the same networks with
    /// their scores worked out anew, in the order of the scores, and as the
    /// best so far the first of them where its score is greater than that
    /// of the best before.
    pub open spec fn trained_from(&self, before: Self) -> bool {
        &&& self.generation_counter == before.generation_counter
        &&& self.networks@ == ranking(
            before.networks@.map_values(|individual: Individual<T>| rated(individual)),
            before.networks@.len(),
        )
        &&& self.networks@.to_multiset() == before.networks@.map_values(
            |individual: Individual<T>| rated(individual),
        ).to_multiset()
        &&& strict_order::<T>() ==> descending(self.networks@)
        &&& self.best_ever_network == (if self.networks@.len() > 0 && exceeds(
            self.networks@[0].score,
            before.best_ever_network.score,
        ) {
            self.networks@[0]
        } else {
            before.best_ever_network
        })
    }

    /// `self` follows on `parents`, not yet scored: its population is the
    /// survivors of `parents`, for draws that `survival_draw` returned, and
    /// the best so far, filled up to the size of the population of
    /// `parents` with offspring bred with `mutation_draw`.
    pub open spec fn follows<F: FnMut() -> T, G: FnMut() -> T>(
        &self,
        parents: Self,
        survival_draw: F,
        mutation_draw: G,
    ) -> bool {
        &&& self.generation_counter == (if parents.generation_counter < u64::MAX {
            (parents.generation_counter + 1) as u64
        } else {
            u64::MAX
        })
        &&& self.best_ever_network == parents.best_ever_network
        &&& exists|draws: Seq<T>|
            {
                &&& draws.len() == parents.networks@.len()
                &&& forall|k: int|
                    0 <= k < draws.len() ==> call_ensures(survival_draw, (), #[trigger] draws[k])
                &&& #[trigger] filled_from(
                    self.networks@,
                    parents.survivors(draws),
                    parents.networks@.len(),
                    mutation_draw,
                )
            }
    }

    /// The population has individuals, and their greatest score is zero,
    /// or none of their scores has a place in the ordering: none of them
    /// has a share by which it could survive.
    pub open spec fn without_scores(&self) -> bool {
        self.networks@.len() > 0 && match highest(self.networks@, self.networks@.len()) {
            Some(best) => scoreless(best),
            None => true,
        }
    }

    /// `individual` is one of the population, or the best so far.
    pub open spec fn is_candidate(&self, individual: Individual<T>) -> bool {
        individual == self.best_ever_network || exists|i: int|
            0 <= i < self.networks@.len() && #[trigger] self.networks@[i] == individual
    }

    /// `individual` is one of the population or the best so far, or an
    /// offspring of one of them, bred with values that `draw` returned.
    pub open spec fn descends<G: FnMut() -> T>(&self, individual: Individual<T>, draw: G) -> bool {
        self.is_candidate(individual) || exists|parent: Individual<T>|
            self.is_candidate(parent) && #[trigger] bred(individual, parent, draw)
    }

    /// `T` accepts every sum that the breeding of offspring takes, whoever
    /// of the population, or the best so far, is the parent and whatever
    /// `draw` returns.
    pub open spec fn breeding_defined<G: FnMut() -> T>(&self, draw: G) -> bool {
        forall|parent: Individual<T>| #[trigger]
            self.is_candidate(parent) ==> parent.network.mutation_defined_for(draw)
    }

    /// `T` accepts every operation that the scoring of the next generation
    /// takes: that of each of the population, of the best so far, and of
    /// each offspring that one of them can have with what `draw` returns.
    pub open spec fn successors_defined<G: FnMut() -> T>(&self, draw: G) -> bool {
        &&& forall|parent: Individual<T>| #[trigger]
            self.is_candidate(parent) ==> scoring_defined(parent.network)
        &&& forall|parent: Individual<T>, noise: Seq<T>, child: Network<T>|
            self.is_candidate(parent) && drawn_noise(noise, draw) && #[trigger] child.mutated_from(
                parent.network,
                noise,
                0,
            ) ==> scoring_defined(child)
    }

    /// `T` accepts every operation that the selection takes.
    pub open spec fn selection_defined(&self) -> bool {
        match highest(self.networks@, self.networks@.len()) {
            Some(best) => forall|i: int|
                0 <= i < self.networks@.len() ==> survival_defined(
                    (#[trigger] self.networks@[i]).score,
                    best,
                ),
            None => true,
        }
    }

    /// `T` accepts every operation that the scoring of the population
    /// takes.
    pub open spec fn training_defined(&self) -> bool {
        forall|i: int|
            0 <= i < self.networks@.len() ==> scoring_defined((#[trigger] self.networks@[i]).network)
    }

    /// Those who go on into the next generation for the draws `draws`, one
    /// for each individual: the individuals that survive, in their order,
    /// and after them the best individual so far. Nobody survives where no
    /// score has a place in the ordering.
    pub open spec fn survivors(&self, draws: Seq<T>) -> Seq<Individual<T>> {
        match highest(self.networks@, self.networks@.len()) {
            Some(best) => selected(self.networks@, best, draws, self.networks@.len()),
            None => Seq::empty(),
        }.push(self.best_ever_network)
    }

    /// The least and the greatest score of the population, each found by
    /// going through the scores from the first. Scores without a place in
    /// the ordering are passed over; `None` where there is no other.
    pub fn score_range(&self) -> (range: Option<(T, T)>)
        ensures
            self.networks@.len() == 0 ==> range is None,
            range matches Some((least, greatest)) ==> holds_score(self.networks@, least)
                && holds_score(self.networks@, greatest),
            exact_order::<T>() ==> match range {
                Some((least, greatest)) => lowest(self.networks@, self.networks@.len()) == Some(least)
                    && highest(self.networks@, self.networks@.len()) == Some(greatest),
                None => lowest(self.networks@, self.networks@.len()) is None && highest(
                    self.networks@,
                    self.networks@.len(),
                ) is None,
            },
    {
        let mut min: Option<T> = None;
        let mut max: Option<T> = None;
        let mut i: usize = 0;
        while i < self.networks.len()
            invariant
                i <= self.networks@.len(),
                min is Some <==> max is Some,
                min matches Some(least) ==> holds_score(self.networks@, least),
                max matches Some(greatest) ==> holds_score(self.networks@, greatest),
                exact_order::<T>() ==> min == lowest(self.networks@, i as nat),
                exact_order::<T>() ==> max == highest(self.networks@, i as nat),
            decreases self.networks@.len() - i,
        {
            let score = self.networks[i].score;
            match (min, max) {
                (Some(least), Some(greatest)) => {
                    if score < least {
                        min = Some(score);
                    }
                    if score > greatest {
                        max = Some(score);
                    }
                },
                _ => {
                    if score >= score {
                        min = Some(score);
                        max = Some(score);
                    }
                },
            }
            i += 1;
        }
        match (min, max) {
            (Some(least), Some(greatest)) => Some((least, greatest)),
            _ => None,
        }
    }

    /// The selection and the keeping of the best: the individuals that
    /// survive for the draws `draws`, in their order, and after them the
    /// best individual so far. There must be a draw for each individual.
    pub fn select(&self, draws: &Vec<T>) -> (chosen: Vec<Individual<T>>)
        requires
            arithmetic_allows::<T>(self.selection_defined()),
            draws@.len() == self.networks@.len(),
        ensures
            1 <= chosen@.len() <= self.networks@.len() + 1,
            chosen@.last() == self.best_ever_network,
            forall|i: int| 0 <= i < chosen@.len() ==> self.is_candidate(#[trigger] chosen@[i]),
            exact_arithmetic::<T>() ==> chosen@ == self.survivors(draws@),
    {
        let mut chosen: Vec<Individual<T>> = Vec::new();
        let max = match self.score_range() {
            Some((_, greatest)) => greatest,
            None => {
                chosen.push(self.best_ever_network.clone());
                return chosen;
            },
        };
        let mut i: usize = 0;
        while i < self.networks.len()
            invariant
                arithmetic_allows::<T>(self.selection_defined()),
                i <= self.networks@.len(),
                draws@.len() == self.networks@.len(),
                chosen@.len() <= i,
                forall|k: int| 0 <= k < chosen@.len() ==> self.is_candidate(#[trigger] chosen@[k]),
                exact_arithmetic::<T>() ==> highest(self.networks@, self.networks@.len()) == Some(max),
                exact_arithmetic::<T>() ==> chosen@ == selected(self.networks@, max, draws@, i as nat),
            decreases self.networks@.len() - i,
        {
            if outlives(self.networks[i].score, max, draws[i]) {
                chosen.push(self.networks[i].clone());
            }
            i += 1;
        }
        chosen.push(self.best_ever_network.clone());
        chosen
    }

    /// Puts the population into the order of the scores, greatest first,
    /// and makes its first individual the best so far where its score is
    /// greater than that of the best so far. Individuals with the same
    /// score keep their order.
    pub fn rank(&mut self)
        ensures
            final(self).generation_counter == old(self).generation_counter,
            final(self).networks@.to_multiset() == old(self).networks@.to_multiset(),
            final(self).networks@.len() == old(self).networks@.len(),
            exact_order::<T>() ==> final(self).networks@ == ranking(
                old(self).networks@,
                old(self).networks@.len(),
            ),
            exact_order::<T>() && strict_order::<T>() ==> descending(final(self).networks@),
            exact_order::<T>() ==> final(self).best_ever_network == (if final(self).networks@.len() > 0
                && exceeds(final(self).networks@[0].score, old(self).best_ever_network.score) {
                final(self).networks@[0]
            } else {
                old(self).best_ever_network
            }),
            final(self).best_ever_network == old(self).best_ever_network || (final(self).networks@.len()
                > 0 && final(self).best_ever_network == final(self).networks@[0]),
    {
        let ranked = sorted_by_score(&self.networks);
        self.networks = ranked;
        if self.networks.len() > 0 {
            if self.networks[0].score > self.best_ever_network.score {
                self.best_ever_network = self.networks[0].clone();
            }
        }
    }

    /// Works out the score of every individual anew, then ranks the
    /// population.
    pub fn train_scores(&mut self)
        requires
            arithmetic_allows::<T>(old(self).training_defined()),
        ensures
            final(self).generation_counter == old(self).generation_counter,
            final(self).networks@.len() == old(self).networks@.len(),
            forall|i: int|
                0 <= i < old(self).networks@.len() ==> holds_network(
                    final(self).networks@,
                    (#[trigger] old(self).networks@[i]).network,
                ),
            final(self).best_ever_network == old(self).best_ever_network || (final(self).networks@.len()
                > 0 && final(self).best_ever_network == final(self).networks@[0]),
            exact_arithmetic::<T>() ==> final(self).trained_from(*old(self)),
    {
        let scored = train_scores_single_thread(&self.networks);
        self.networks = scored;
        let ghost unranked = self.networks@;
        self.rank();
        proof {
            assert forall|i: int| 0 <= i < unranked.len() implies holds_network(
                self.networks@,
                (#[trigger] old(self).networks@[i]).network,
            ) by {
                lemma_member_stays(unranked, self.networks@, i);
                let j = choose|j: int| 0 <= j < self.networks@.len() && self.networks@[j] == unranked[i];
                assert(unranked[i].network == old(self).networks@[i].network);
                assert(self.networks@[j].network == old(self).networks@[i].network);
            }
        }
    }
}

/// The two ends of the selection, in 64-bit integers: where the greatest
/// score is above zero, an individual with the score zero survives for no
/// draw from zero on, and one with the greatest score survives for every
/// draw below one.
pub proof fn lemma_survival_ends(best: i64, draw: i64)
    requires
        best > 0,
    ensures
        survival_defined(0i64, best),
        survival_defined(best, best),
        draw >= 0 ==> !survives(0i64, best, draw),
        survives(best, best, draw) <==> draw < 1,
{
    assert(0i64.div_spec(best) == 0);
    assert(best.div_spec(best) == 1) by {
        assert(best / best == 1) by (nonlinear_arith)
            requires
                best > 0,
        ;
    }
}

/// Where the greatest score is zero, nobody is selected.
pub proof fn lemma_nobody_selected<T: Scalar>(
    population: Seq<Individual<T>>,
    best: T,
    draws: Seq<T>,
    n: nat,
)
    requires
        scoreless(best),
    ensures
        selected(population, best, draws, n) == Seq::<Individual<T>>::empty(),
    decreases n,
{
    if n > 0 {
        lemma_nobody_selected(population, best, draws, (n - 1) as nat);
    }
}

impl<T: Scalar> Generation<T> {
    /// A population whose greatest score is zero is rebuilt from the best so
    /// far: the generation that follows on it, before the scoring, has as
    /// many individuals, the first of them the best so far with its score,
    /// and all the others offspring of the best so far with the score zero.
    pub proof fn lemma_rebuilt_from_best<F: FnMut() -> T, G: FnMut() -> T>(
        &self,
        parents: Self,
        survival_draw: F,
        mutation_draw: G,
    )
        requires
            self.follows(parents, survival_draw, mutation_draw),
            parents.without_scores(),
        ensures
            self.networks@.len() == parents.networks@.len(),
            self.networks@[0] == parents.best_ever_network,
            forall|i: int|
                1 <= i < self.networks@.len() ==> bred(
                    #[trigger] self.networks@[i],
                    parents.best_ever_network,
                    mutation_draw,
                ),
    {
        let draws = choose|draws: Seq<T>|
            {
                &&& draws.len() == parents.networks@.len()
                &&& forall|k: int|
                    0 <= k < draws.len() ==> call_ensures(survival_draw, (), #[trigger] draws[k])
                &&& #[trigger] filled_from(
                    self.networks@,
                    parents.survivors(draws),
                    parents.networks@.len(),
                    mutation_draw,
                )
            };
        if let Some(best) = highest(parents.networks@, parents.networks@.len()) {
            lemma_nobody_selected(parents.networks@, best, draws, parents.networks@.len());
        }
        let survivors = parents.survivors(draws);
        assert(survivors =~= seq![parents.best_ever_network]);
        assert(self.networks@[0] == survivors[0]);
        assert forall|i: int| 1 <= i < self.networks@.len() implies bred(
            #[trigger] self.networks@[i],
            parents.best_ever_network,
            mutation_draw,
        ) by {
            assert((i - 1) % 1 == 0);
            assert(survivors[(i - survivors.len()) % (survivors.len() as int)] == parents.best_ever_network);
        }
    }

    /// The scoring keeps every individual and gives each its score anew:
    /// the scored generation has as many individuals as the one before, and
    /// each of them is one of those before with its network's score.
    pub proof fn lemma_trained_members(&self, before: Self)
        requires
            self.trained_from(before),
        ensures
            self.networks@.len() == before.networks@.len(),
            forall|j: int|
                0 <= j < self.networks@.len() ==> exists|i: int|
                    0 <= i < before.networks@.len() && #[trigger] self.networks@[j] == rated(
                        #[trigger] before.networks@[i],
                    ),
            forall|i: int|
                0 <= i < before.networks@.len() ==> exists|j: int|
                    0 <= j < self.networks@.len() && #[trigger] self.networks@[j] == rated(
                        #[trigger] before.networks@[i],
                    ),
    {
        let scored = before.networks@.map_values(|individual: Individual<T>| rated(individual));
        scored.to_multiset_ensures();
        self.networks@.to_multiset_ensures();
        assert forall|j: int| 0 <= j < self.networks@.len() implies exists|i: int|
            0 <= i < before.networks@.len() && #[trigger] self.networks@[j] == rated(
                #[trigger] before.networks@[i],
            ) by {
            lemma_member_stays(self.networks@, scored, j);
            let i = choose|i: int| 0 <= i < scored.len() && scored[i] == self.networks@[j];
            assert(self.networks@[j] == rated(before.networks@[i]));
        }
        assert forall|i: int| 0 <= i < before.networks@.len() implies exists|j: int|
            0 <= j < self.networks@.len() && #[trigger] self.networks@[j] == rated(
                #[trigger] before.networks@[i],
            ) by {
            lemma_member_stays(scored, self.networks@, i);
            let j = choose|j: int| 0 <= j < self.networks@.len() && self.networks@[j] == scored[i];
            assert(self.networks@[j] == rated(before.networks@[i]));
        }
    }
}

/// An item of a sequence is an item of every sequence with the same items.
proof fn lemma_member_stays<A>(before: Seq<A>, after: Seq<A>, i: int)
    requires
        before.to_multiset() == after.to_multiset(),
        0 <= i < before.len(),
    ensures
        exists|j: int| 0 <= j < after.len() && after[j] == before[i],
{
    before.to_multiset_ensures();
    after.to_multiset_ensures();
    assert(before.contains(before[i]));
    assert(after.to_multiset().count(before[i]) > 0);
    assert(after.contains(before[i]));
}

/// Whether an individual with the score `score` survives in a population
/// whose greatest score is `best`, where `draw` was drawn for it. Nobody
/// does where the greatest score is zero.
pub fn outlives<T: Scalar>(score: T, best: T, draw: T) -> (stays: bool)
    requires
        arithmetic_allows::<T>(survival_defined(score, best)),
    ensures
        exact_arithmetic::<T>() ==> stays == survives(score, best, draw),
{
    let zero: T = T::from(0i8);
    if best > zero || best < zero {
        let percent_score = score / best;
        draw < percent_score * percent_score
    } else {
        false
    }
}

/// The individuals of `networks` in the order of their scores, greatest
/// first. Individuals with the same score keep their order.
pub fn sorted_by_score<T: Scalar>(networks: &Vec<Individual<T>>) -> (ranked: Vec<Individual<T>>)
    ensures
        ranked@.to_multiset() == networks@.to_multiset(),
        ranked@.len() == networks@.len(),
        exact_order::<T>() ==> ranked@ == ranking(networks@, networks@.len()),
        exact_order::<T>() && strict_order::<T>() ==> descending(ranked@),
{
    let mut ranked: Vec<Individual<T>> = Vec::new();
    let mut i: usize = 0;
    proof {
        assert(networks@.take(0) =~= Seq::<Individual<T>>::empty());
    }
    while i < networks.len()
        invariant
            i <= networks@.len(),
            ranked@.len() == i,
            ranked@.to_multiset() == networks@.take(i as int).to_multiset(),
            exact_order::<T>() ==> ranked@ == ranking(networks@, i as nat),
            exact_order::<T>() && strict_order::<T>() ==> descending(ranked@),
        decreases networks@.len() - i,
    {
        let individual = networks[i].clone();
        let mut at: usize = 0;
        while at < ranked.len() && !(individual.score > ranked[at].score)
            invariant
                at <= ranked@.len(),
                exact_order::<T>() ==> forall|k: int|
                    0 <= k < at ==> !exceeds(individual.score, (#[trigger] ranked@[k]).score),
                exact_order::<T>() ==> entry(ranked@, individual.score, 0) == entry(
                    ranked@,
                    individual.score,
                    at as nat,
                ),
            decreases ranked@.len() - at,
        {
            at += 1;
        }
        let ghost before = ranked@;
        ranked.insert(at, individual);
        proof {
            to_multiset_insert(before, at as int, individual);
            assert(networks@.take(i + 1) =~= networks@.take(i as int).push(networks@[i as int]));
            to_multiset_build(networks@.take(i as int), networks@[i as int]);
            if exact_order::<T>() && strict_order::<T>() {
                assert forall|a: int, b: int| 0 <= a < b < ranked@.len() implies !exceeds(
                    (#[trigger] ranked@[b]).score,
                    (#[trigger] ranked@[a]).score,
                ) by {
                    if b == at {
                        assert(ranked@[a] == before[a]);
                    } else if a == at {
                        assert(ranked@[b] == before[b - 1]);
                        assert(exceeds(individual.score, before[at as int].score));
                        if b - 1 > at {
                            assert(!exceeds(before[b - 1].score, before[at as int].score));
                        }
                    } else {
                        let was_a = if a < at { a } else { a - 1 };
                        let was_b = if b < at { b } else { b - 1 };
                        assert(ranked@[a] == before[was_a]);
                        assert(ranked@[b] == before[was_b]);
                    }
                }
            }
        }
        i += 1;
    }
    proof {
        assert(networks@.take(networks@.len() as int) =~= networks@);
    }
    ranked
}

/// The individuals of `networks`, each with its score worked out anew: the
/// mean score of its network in the games from `SCORING_SEED` on.
pub fn train_scores_single_thread<T: Scalar>(networks: &Vec<Individual<T>>) -> (scored: Vec<
    Individual<T>,
>)
    requires
        arithmetic_allows::<T>(
            forall|i: int| 0 <= i < networks@.len() ==> scoring_defined((#[trigger] networks@[i]).network),
        ),
    ensures
        scored@.len() == networks@.len(),
        forall|i: int|
            0 <= i < networks@.len() ==> (#[trigger] scored@[i]).network == networks@[i].network,
        exact_arithmetic::<T>() ==> scored@ == networks@.map_values(
            |individual: Individual<T>| rated(individual),
        ),
{
    let mut scored: Vec<Individual<T>> = Vec::new();
    let mut i: usize = 0;
    while i < networks.len()
        invariant
            arithmetic_allows::<T>(
                forall|i: int|
                    0 <= i < networks@.len() ==> scoring_defined((#[trigger] networks@[i]).network),
            ),
            i <= networks@.len(),
            scored@.len() == i,
            forall|k: int| 0 <= k < i ==> (#[trigger] scored@[k]).network == networks@[k].network,
            exact_arithmetic::<T>() ==> forall|k: int|
                0 <= k < i ==> #[trigger] scored@[k] == rated(networks@[k]),
        decreases networks@.len() - i,
    {
        let network = networks[i].network.clone();
        let score = get_score(&network, SCORING_SEED);
        scored.push(Individual { network, score });
        i += 1;
    }
    proof {
        if exact_arithmetic::<T>() {
            assert(scored@ =~= networks@.map_values(|individual: Individual<T>| rated(individual)));
        }
    }
    scored
}

impl<T: Scalar> Generation<T> {
    /// A first generation: `num_networks` networks and one more as the best
    /// so far, all of them made of what `draw` returned and with the score
    /// zero.
    pub fn new<F: FnMut() -> T>(num_networks: usize, draw: &mut F) -> (generation: Self)
        requires
            call_requires(*old(draw), ()),
        ensures
            *final(draw) == *old(draw),
            generation.generation_counter == 0,
            generation.networks@.len() == num_networks,
            drawn(generation.best_ever_network, *old(draw)),
            forall|i: int| 0 <= i < num_networks ==> drawn(#[trigger] generation.networks@[i], *old(draw)),
    {
        let ghost source = *draw;
        let best_ever_network = blank(draw);
        let mut networks: Vec<Individual<T>> = Vec::new();
        let mut i: usize = 0;
        while i < num_networks
            invariant
                *draw == source,
                call_requires(source, ()),
                i <= num_networks,
                networks@.len() == i,
                forall|k: int| 0 <= k < i ==> drawn(#[trigger] networks@[k], source),
            decreases num_networks - i,
        {
            let individual = blank(draw);
            networks.push(individual);
            i += 1;
        }
        Self { best_ever_network, networks, generation_counter: 0 }
    }

    /// The generation that follows on `parents`, not yet scored: the
    /// survivors of the selection and the best so far, filled up with
    /// offspring to the size of the population of `parents`. The best so far
    /// is always among them.
    pub fn unscored_from<F: FnMut() -> T, G: FnMut() -> T>(
        parents: &Generation<T>,
        survival_draw: &mut F,
        mutation_draw: &mut G,
    ) -> (next: Self)
        requires
            arithmetic_allows::<T>(
                parents.selection_defined() && parents.breeding_defined(*old(mutation_draw)),
            ),
            call_requires(*old(survival_draw), ()),
            call_requires(*old(mutation_draw), ()),
        ensures
            *final(survival_draw) == *old(survival_draw),
            *final(mutation_draw) == *old(mutation_draw),
            parents.networks@.len() <= next.networks@.len() <= parents.networks@.len() + 1,
            holds_network(next.networks@, parents.best_ever_network.network),
            next.best_ever_network == parents.best_ever_network,
            next.generation_counter == (if parents.generation_counter < u64::MAX {
                (parents.generation_counter + 1) as u64
            } else {
                u64::MAX
            }),
            exact_arithmetic::<T>() ==> next.follows(*parents, *old(survival_draw), *old(mutation_draw)),
            exact_arithmetic::<T>() ==> forall|i: int|
                0 <= i < next.networks@.len() ==> parents.descends(
                    #[trigger] next.networks@[i],
                    *old(mutation_draw),
                ),
            exact_arithmetic::<T>() && parents.without_scores() ==> {
                &&& next.networks@.len() == parents.networks@.len()
                &&& next.networks@[0] == parents.best_ever_network
                &&& forall|i: int|
                    1 <= i < next.networks@.len() ==> bred(
                        #[trigger] next.networks@[i],
                        parents.best_ever_network,
                        *old(mutation_draw),
                    )
            },
    {
        let draws = collect_draws(survival_draw, parents.networks.len());
        let survivors = parents.select(&draws);
        let ghost chosen = survivors@;
        let new_networks = fill(survivors, parents.networks.len(), mutation_draw);
        let next = Self {
            best_ever_network: parents.best_ever_network.clone(),
            networks: new_networks,
            generation_counter: parents.generation_counter.saturating_add(1),
        };
        proof {
            assert(next.networks@[chosen.len() - 1] == chosen.last());
            if exact_arithmetic::<T>() {
                assert(filled_from(
                    next.networks@,
                    parents.survivors(draws@),
                    parents.networks@.len(),
                    *old(mutation_draw),
                ));
                assert forall|i: int| 0 <= i < next.networks@.len() implies parents.descends(
                    #[trigger] next.networks@[i],
                    *old(mutation_draw),
                ) by {
                    if i >= chosen.len() {
                        let parent = chosen[(i - chosen.len()) % (chosen.len() as int)];
                        assert(parents.is_candidate(parent));
                        assert(bred(next.networks@[i], parent, *old(mutation_draw)));
                    } else {
                        assert(next.networks@[i] == chosen[i]);
                    }
                }
                if parents.without_scores() {
                    next.lemma_rebuilt_from_best(*parents, *old(survival_draw), *old(mutation_draw));
                }
            }
        }
        next
    }

    /// The generation that follows on `parents`, scored and ranked: the
    /// survivors of the selection and the best so far, filled up with
    /// offspring, each then scored anew. The network of the best so far is
    /// always among them.
    pub fn new_from_generation<F: FnMut() -> T, G: FnMut() -> T>(
        parents: &Generation<T>,
        survival_draw: &mut F,
        mutation_draw: &mut G,
    ) -> (next: Self)
        requires
            arithmetic_allows::<T>(
                parents.selection_defined() && parents.breeding_defined(*old(mutation_draw))
                    && parents.successors_defined(*old(mutation_draw)),
            ),
            call_requires(*old(survival_draw), ()),
            call_requires(*old(mutation_draw), ()),
        ensures
            *final(survival_draw) == *old(survival_draw),
            *final(mutation_draw) == *old(mutation_draw),
            parents.networks@.len() <= next.networks@.len() <= parents.networks@.len() + 1,
            holds_network(next.networks@, parents.best_ever_network.network),
            next.generation_counter == (if parents.generation_counter < u64::MAX {
                (parents.generation_counter + 1) as u64
            } else {
                u64::MAX
            }),
            next.best_ever_network == parents.best_ever_network || next.best_ever_network
                == next.networks@[0],
            exact_arithmetic::<T>() ==> exists|unscored: Self|
                #[trigger] unscored.follows(*parents, *old(survival_draw), *old(mutation_draw))
                    && next.trained_from(unscored),
            exact_arithmetic::<T>() && parents.without_scores() ==> next.networks@.len()
                == parents.networks@.len(),
    {
        let mut out = Self::unscored_from(parents, survival_draw, mutation_draw);
        let ghost unscored = out;
        proof {
            let j = choose|j: int|
                0 <= j < unscored.networks@.len() && (#[trigger] unscored.networks@[j]).network
                    == parents.best_ever_network.network;
            assert(unscored.networks@[j].network == parents.best_ever_network.network);
            if !total_arithmetic::<T>() {
                assert forall|i: int| 0 <= i < unscored.networks@.len() implies scoring_defined(
                    (#[trigger] unscored.networks@[i]).network,
                ) by {
                    let individual = unscored.networks@[i];
                    assert(parents.descends(individual, *old(mutation_draw)));
                    if !parents.is_candidate(individual) {
                        let parent = choose|parent: Individual<T>|
                            parents.is_candidate(parent) && #[trigger] bred(
                                individual,
                                parent,
                                *old(mutation_draw),
                            );
                        let noise = choose|noise: Seq<T>|
                            drawn_noise(noise, *old(mutation_draw)) && #[trigger] is_offspring(
                                individual,
                                parent,
                                noise,
                                0,
                            );
                        assert(individual.network.mutated_from(parent.network, noise, 0));
                    }
                }
            }
        }
        out.train_scores();
        out
    }
}

/// `individual` is a network made of values that `draw` returned, with the
/// score zero.
pub open spec fn drawn<T: Scalar, F: FnMut() -> T>(individual: Individual<T>, draw: F) -> bool {
    &&& exact_conversion::<T>() ==> individual.score == of_count::<T>(0)
    &&& exists|values: Seq<T>|
        {
            &&& values.len() == NETWORK_VALUES
            &&& forall|k: int| 0 <= k < NETWORK_VALUES ==> call_ensures(draw, (), #[trigger] values[k])
            &&& #[trigger] individual.network.made_of(values)
        }
}

/// An individual with a network made of what `draw` returned, and with the
/// score zero.
pub fn blank<T: Scalar, F: FnMut() -> T>(draw: &mut F) -> (individual: Individual<T>)
    requires
        call_requires(*old(draw), ()),
    ensures
        *final(draw) == *old(draw),
        drawn(individual, *old(draw)),
{
    let network = Network::new(draw);
    let ghost values = choose|values: Seq<T>|
        {
            &&& values.len() == NETWORK_VALUES
            &&& forall|k: int|
                0 <= k < NETWORK_VALUES ==> call_ensures(*old(draw), (), #[trigger] values[k])
            &&& #[trigger] network.made_of(values)
        };
    let individual = Individual { network, score: T::from(0i8) };
    assert(individual.network.made_of(values));
    individual
}

/// An individual whose network is a mutation of that of `parent` with the
/// `MUTATION_VALUES` values of `noise` from position `from` on, and whose
/// score is zero.
pub fn offspring<T: Scalar>(parent: &Individual<T>, noise: &Vec<T>, from: usize) -> (child: Individual<
    T,
>)
    requires
        addition_allows::<T>(parent.network.mutation_defined(noise@, from as int)),
        from + MUTATION_VALUES <= noise@.len(),
    ensures
        exact_arithmetic::<T>() ==> is_offspring(child, *parent, noise@, from as int),
        child.network.second == parent.network.second,
        child.network.third == parent.network.third,
{
    let mut new_network = parent.network.clone();
    new_network.perturb(noise, from);
    Individual { network: new_network, score: T::from(0i8) }
}

/// Fills `survivors`, of which there must be one at least, up to `target`
/// individuals: with an offspring of the first survivor, of the second, and
/// so on through the survivors, again and again, each bred with values that
/// `draw` returned.
pub fn fill<T: Scalar, F: FnMut() -> T>(survivors: Vec<Individual<T>>, target: usize, draw: &mut F) -> (filled:
    Vec<Individual<T>>)
    requires
        addition_allows::<T>(
            forall|i: int|
                0 <= i < survivors@.len() ==> (#[trigger] survivors@[i]).network.mutation_defined_for(
                    *old(draw),
                ),
        ),
        survivors@.len() > 0,
        call_requires(*old(draw), ()),
    ensures
        *final(draw) == *old(draw),
        filled@.len() == (if target > survivors@.len() {
            target as int
        } else {
            survivors@.len() as int
        }),
        forall|i: int| 0 <= i < survivors@.len() ==> #[trigger] filled@[i] == survivors@[i],
        exact_arithmetic::<T>() ==> filled_from(filled@, survivors@, target as nat, *old(draw)),
{
    let ghost source = *draw;
    let num_culled_networks = survivors.len();
    let mut new_networks = survivors;
    let mut i: usize = 0;
    while new_networks.len() < target
        invariant
            *draw == source,
            call_requires(source, ()),
            addition_allows::<T>(
                forall|i: int|
                    0 <= i < survivors@.len() ==> (#[trigger] survivors@[i]).network.mutation_defined_for(
                        source,
                    ),
            ),
            num_culled_networks == survivors@.len(),
            num_culled_networks > 0,
            new_networks@.len() == num_culled_networks + i,
            i == 0 || new_networks@.len() <= target,
            forall|k: int| 0 <= k < num_culled_networks ==> #[trigger] new_networks@[k] == survivors@[k],
            exact_arithmetic::<T>() ==> forall|k: int|
                num_culled_networks <= k < new_networks@.len() ==> bred(
                    #[trigger] new_networks@[k],
                    survivors@[(k - num_culled_networks) % (num_culled_networks as int)],
                    source,
                ),
        decreases target - new_networks@.len(),
    {
        let noise = collect_draws(draw, MUTATION_VALUES);
        assert(drawn_noise(noise@, source));
        assert(new_networks@[(i % num_culled_networks) as int] == survivors@[(i % num_culled_networks) as int]);
        let child = offspring(&new_networks[i % num_culled_networks], &noise, 0);
        proof {
            if exact_arithmetic::<T>() {
                assert(is_offspring(
                    child,
                    survivors@[(i as int) % (num_culled_networks as int)],
                    noise@,
                    0,
                ));
            }
        }
        new_networks.push(child);
        i += 1;
    }
    new_networks
}

/// The bounds of chunk `index` where `len` items are split into `chunks`
/// chunks that follow on each other: it holds the items from the first
/// bound up to, and without, the second.
pub fn chunk_bounds(len: usize, chunks: u8, index: u8) -> (bounds: (usize, usize))
    requires
        index < chunks,
    ensures
        bounds.0 == chunk_start(len as nat, chunks as nat, index as nat),
        bounds.1 == chunk_start(len as nat, chunks as nat, (index + 1) as nat),
        bounds.0 <= bounds.1 <= len,
{
    let size = len / (chunks as usize);
    assert(index * size <= (chunks - 1) * size <= len) by (nonlinear_arith)
        requires
            size == len / (chunks as usize),
            index < chunks,
            chunks > 0,
    ;
    let start = (index as usize) * size;
    let end = if index + 1 == chunks {
        len
    } else {
        assert((index + 1) * size <= (chunks - 1) * size) by (nonlinear_arith)
            requires
                index + 1 < chunks,
                size >= 0,
        ;
        (index as usize + 1) * size
    };
    assert(index * size <= (index + 1) * size) by (nonlinear_arith)
        requires
            size >= 0,
            index >= 0,
    ;
    (start, end)
}

} // verus!
