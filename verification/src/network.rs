use crate::draws::collect_draws;
use crate::matrix::{dot, dot_defined, has_shape, product, sum, sum_defined};
pub use crate::matrix::{ColVector, Matrix};
use crate::scalar::{
    above_floor, addition_allows, arithmetic_allows, exact_arithmetic, exceeds, floor_defined,
    is_above_floor, of_count, total_arithmetic, Scalar,
};
use vstd::prelude::*;
use vstd::std_specs::ops::{AddSpec, DivSpec, MulSpec};

verus! {

/// What a network is fed: one number for each of the twelve sensors.
pub type NetInput<T> = ColVector<T, 12>;

/// What a network answers: one number for each of the four actions.
pub type NetOutput<T> = ColVector<T, 4>;

/// The number of inputs of a network.
pub const INPUTS: usize = 12;

/// The number of outputs of a network.
pub const OUTPUTS: usize = 4;

/// The number of weights and biases of one of the two inner layers.
pub const INNER_LAYER_VALUES: usize = 156;

/// The number of weights and biases of a network.
pub const NETWORK_VALUES: usize = 364;

/// The number of random numbers that one mutation of a network takes: two
/// for every weight and bias of its first layer.
pub const MUTATION_VALUES: usize = 312;

/// A new weight or bias lies between this bound and its negative.
pub const STARTING_VALUE: i8 = 6;

/// A mutation changes a weight or a bias by at most one part in this many:
/// by a number between `-1 / LEARNING_RATE_DIVISOR` and
/// `1 / LEARNING_RATE_DIVISOR`.
pub const LEARNING_RATE_DIVISOR: i8 = 2;

/// The activation of the networks, a leaky ramp: a positive number stays as
/// it is, any other becomes a hundredth of itself.
pub open spec fn leaky<T: Scalar>(x: T) -> T {
    if exceeds(x, of_count::<T>(0)) {
        x
    } else {
        x.div_spec(of_count::<T>(100))
    }
}

/// `T` accepts the division that the activation of `x` may take.
pub open spec fn leaky_defined<T: Scalar>(x: T) -> bool {
    exceeds(x, of_count::<T>(0)) || x.div_req(of_count::<T>(100))
}

/// The column `column` with the activation applied to each entry.
pub open spec fn activated<T: Scalar>(column: Seq<Seq<T>>) -> Seq<Seq<T>> {
    Seq::new(column.len(), |i: int| seq![leaky(column[i][0])])
}

/// The values of `values` from position `from` on, laid out as a matrix of
/// the given shape, row by row.
pub open spec fn arranged<T>(values: Seq<T>, from: int, rows: nat, cols: nat) -> Seq<Seq<T>> {
    Seq::new(rows, |i: int| Seq::new(cols, |j: int| values[from + i * cols + j]))
}

/// The matrix `entries`, of `cols` columns, with one value of `noise` added
/// to each entry: to the entries row by row, the values of `noise` from
/// position `from` on.
pub open spec fn shifted<T: Scalar>(entries: Seq<Seq<T>>, noise: Seq<T>, from: int, cols: nat) -> Seq<
    Seq<T>,
> {
    Seq::new(
        entries.len(),
        |i: int| Seq::new(cols, |j: int| entries[i][j].add_spec(noise[from + i * cols + j])),
    )
}

/// `T` accepts every sum that `shifted(entries, noise, from, cols)` takes.
pub open spec fn shift_defined<T: Scalar>(entries: Seq<Seq<T>>, noise: Seq<T>, from: int, cols: nat) -> bool {
    forall|i: int, j: int|
        0 <= i < entries.len() && 0 <= j < cols ==> (#[trigger] entries[i][j]).add_req(
            noise[from + i * cols + j],
        )
}

/// `noise` is what the `MUTATION_VALUES` calls of `draw` that a mutation
/// makes may return.
pub open spec fn drawn_noise<T, F: FnMut() -> T>(noise: Seq<T>, draw: F) -> bool {
    &&& noise.len() == MUTATION_VALUES
    &&& forall|k: int| 0 <= k < MUTATION_VALUES ==> call_ensures(draw, (), #[trigger] noise[k])
}

/// The index of the entry that has the lead after the first `n` entries of
/// the column `logits` have been gone through from the top, if one has it.
/// The first entry that lies above the least value of `T` takes the lead,
/// and after it each entry that is greater than the one that has it.
pub open spec fn lead<T: Scalar>(logits: Seq<Seq<T>>, n: nat) -> Option<int>
    decreases n,
{
    if n == 0 {
        None
    } else {
        match lead(logits, (n - 1) as nat) {
            Some(ahead) => if exceeds(logits[n - 1][0], logits[ahead][0]) {
                Some(n - 1)
            } else {
                Some(ahead)
            },
            None => if above_floor(logits[n - 1][0]) {
                Some(n - 1)
            } else {
                None
            },
        }
    }
}

/// The index of the greatest of the first `n` entries of the column
/// `logits`, and of the first of them where several are greatest: the
/// entry that has the lead after they have been gone through. It is zero
/// where none has it, because none lies above the least value of `T`.
pub open spec fn strongest<T: Scalar>(logits: Seq<Seq<T>>, n: nat) -> int {
    match lead(logits, n) {
        Some(ahead) => ahead,
        None => 0,
    }
}

/// The entry that has the lead is one of those gone through.
pub proof fn lemma_lead_in_range<T: Scalar>(logits: Seq<Seq<T>>, n: nat)
    ensures
        lead(logits, n) matches Some(ahead) ==> 0 <= ahead < n,
    decreases n,
{
    if n > 0 {
        lemma_lead_in_range(logits, (n - 1) as nat);
    }
}

/// The strongest of the first `n` entries is one of them.
pub proof fn lemma_strongest_in_range<T: Scalar>(logits: Seq<Seq<T>>, n: nat)
    requires
        n >= 1,
    ensures
        0 <= strongest(logits, n) < n,
{
    lemma_lead_in_range(logits, n);
}

/// In a matrix of `cols` columns and `rows` rows, counted row by row, the
/// entry in row `i` and column `j` has a number below `rows * cols`.
proof fn lemma_slot(i: int, j: int, rows: int, cols: int)
    requires
        0 <= i < rows,
        0 <= j < cols,
    ensures
        0 <= i * cols + j < rows * cols,
{
    assert(i * cols + j < rows * cols) by (nonlinear_arith)
        requires
            0 <= i < rows,
            0 <= j < cols,
    ;
    assert(0 <= i * cols) by (nonlinear_arith)
        requires
            0 <= i,
            0 <= cols,
    ;
}

/// The leaky ramp of `x`.
fn leaky_ramp<T: Scalar>(x: T) -> (y: T)
    requires
        arithmetic_allows::<T>(leaky_defined(x)),
    ensures
        exact_arithmetic::<T>() ==> y == leaky(x),
{
    let zero: T = T::from(0i8);
    let hundred: T = T::from(100i8);
    if x > zero {
        x
    } else {
        x / hundred
    }
}

/// One layer of a network: a matrix of weights, with a row for each output
/// and a column for each input, and a bias for each output.
pub struct Layer<T, const IN: usize, const OUT: usize> {
    pub matrix: Matrix<T, OUT, IN>,
    pub bias: ColVector<T, OUT>,
}

impl<T: Copy, const IN: usize, const OUT: usize> Clone for Layer<T, IN, OUT> {
    fn clone(&self) -> (copy: Self)
        ensures
            copy == *self,
    {
        Layer { matrix: self.matrix.clone(), bias: self.bias.clone() }
    }
}

impl<T: Scalar, const IN: usize, const OUT: usize> Layer<T, IN, OUT> {
    /// What the layer answers to the column `input`: the activation of the
    /// weights times the input, plus the bias.
    pub open spec fn output(&self, input: Seq<Seq<T>>) -> Seq<Seq<T>> {
        activated(sum(product(self.matrix@, input, 1), self.bias@))
    }

    /// `T` accepts every operation that the answer to `input` takes.
    pub open spec fn defined_on(&self, input: Seq<Seq<T>>) -> bool {
        &&& forall|i: int| 0 <= i < OUT ==> #[trigger] dot_defined(self.matrix@, input, i, 0, IN as nat)
        &&& sum_defined(product(self.matrix@, input, 1), self.bias@)
        &&& forall|i: int|
            0 <= i < OUT ==> leaky_defined(
                #[trigger] sum(product(self.matrix@, input, 1), self.bias@)[i][0],
            )
    }

    /// `T` accepts every sum that `with_noise(noise, from)` takes.
    pub open spec fn noise_defined(&self, noise: Seq<T>, from: int) -> bool {
        &&& shift_defined(self.matrix@, noise, from, IN as nat)
        &&& shift_defined(self.bias@, noise, from + OUT * IN, 1)
    }

    /// The layer with one value of `noise` added to each weight, row by row,
    /// and after them to each bias, from position `from` of `noise` on.
    pub open spec fn with_noise(&self, noise: Seq<T>, from: int) -> (Seq<Seq<T>>, Seq<Seq<T>>) {
        (
            shifted(self.matrix@, noise, from, IN as nat),
            shifted(self.bias@, noise, from + OUT * IN, 1),
        )
    }

    /// The layer whose weights, row by row, and after them its biases are
    /// the values of `values` from position `from` on.
    pub fn from_values(values: &Vec<T>, from: usize) -> (layer: Self)
        requires
            from + OUT * IN + OUT <= values@.len(),
        ensures
            layer.matrix@ == arranged(values@, from as int, OUT as nat, IN as nat),
            layer.bias@ == arranged(values@, from + OUT * IN, OUT as nat, 1),
    {
        let available = values.len();
        let weight_at = |i: usize, j: usize| -> (w: T)
            requires
                i < OUT,
                j < IN,
            ensures
                w == values@[from + i * IN + j],
            {
                proof {
                    lemma_slot(i as int, j as int, OUT as int, IN as int);
                }
                values[from + i * IN + j]
            };
        let matrix = Matrix::<T, OUT, IN>::new_from_generator(weight_at);
        assert(0 <= OUT * IN) by (nonlinear_arith);
        let bias_from: usize = from + OUT * IN;
        let bias_at = |i: usize, j: usize| -> (b: T)
            requires
                i < OUT,
                j < 1,
            ensures
                b == values@[bias_from + i],
            { values[bias_from + i] };
        let bias = Matrix::<T, OUT, 1>::new_from_generator(bias_at);
        proof {
            matrix.lemma_shape();
            bias.lemma_shape();
            let weights = arranged(values@, from as int, OUT as nat, IN as nat);
            assert forall|i: int| 0 <= i < OUT implies #[trigger] matrix@[i] == weights[i] by {
                assert forall|j: int| 0 <= j < IN implies matrix@[i][j] == weights[i][j] by {
                    let entry = matrix@[i][j];
                }
                assert(matrix@[i] =~= weights[i]);
            }
            assert(matrix@ =~= weights);
            let biases = arranged(values@, from + OUT * IN, OUT as nat, 1);
            assert forall|i: int| 0 <= i < OUT implies #[trigger] bias@[i] == biases[i] by {
                let entry = bias@[i][0];
                assert(bias@[i] =~= biases[i]);
            }
            assert(bias@ =~= biases);
        }
        Layer { matrix, bias }
    }

    /// What the layer answers to `input`.
    pub fn forward(&self, input: ColVector<T, IN>) -> (out: ColVector<T, OUT>)
        requires
            IN > 0 || OUT == 0,
            arithmetic_allows::<T>(self.defined_on(input@)),
        ensures
            exact_arithmetic::<T>() ==> out@ == self.output(input@),
    {
        proof {
            self.matrix.lemma_shape();
            input.lemma_shape();
            if !total_arithmetic::<T>() {
                assert forall|i: int, j: int| 0 <= i < OUT && 0 <= j < 1 implies #[trigger] dot_defined(
                    self.matrix@,
                    input@,
                    i,
                    j,
                    input@.len(),
                ) by {
                    assert(dot_defined(self.matrix@, input@, i, 0, IN as nat));
                }
            }
        }
        let weighted = self.matrix.mul(&input);
        proof {
            weighted.lemma_shape();
            self.bias.lemma_shape();
        }
        let raised = weighted.add(&self.bias);
        let entry_at = |i: usize, j: usize| -> (y: T)
            requires
                i < OUT,
                j < 1,
            ensures
                exact_arithmetic::<T>() ==> y == leaky(raised@[i as int][0]),
            { leaky_ramp(*raised.get_unchecked(i, 0)) };
        let out = ColVector::<T, OUT>::new_from_generator(entry_at);
        proof {
            if exact_arithmetic::<T>() {
                out.lemma_shape();
                raised.lemma_shape();
                let expected = self.output(input@);
                assert(raised@ == sum(product(self.matrix@, input@, 1), self.bias@));
                assert forall|i: int| 0 <= i < OUT implies #[trigger] out@[i] == expected[i] by {
                    let entry = out@[i][0];
                    assert(out@[i] =~= expected[i]);
                }
                assert(out@ =~= expected);
            }
        }
        out
    }

    /// Adds one value of `noise` to each weight, row by row, and after them
    /// to each bias, from position `from` of `noise` on.
    pub fn randomly_edit(&mut self, noise: &Vec<T>, from: usize)
        requires
            addition_allows::<T>(old(self).noise_defined(noise@, from as int)),
            from + OUT * IN + OUT <= noise@.len(),
        ensures
            T::obeys_add_spec() ==> final(self).matrix@ == old(self).with_noise(noise@, from as int).0,
            T::obeys_add_spec() ==> final(self).bias@ == old(self).with_noise(noise@, from as int).1,
    {
        let ghost before = *self;
        let available = noise.len();
        let current = self.matrix.clone();
        proof {
            current.lemma_shape();
        }
        let weight_at = |i: usize, j: usize| -> (w: T)
            requires
                i < OUT,
                j < IN,
            ensures
                T::obeys_add_spec() ==> w == current@[i as int][j as int].add_spec(
                    noise@[from + i * IN + j],
                ),
            {
                proof {
                    lemma_slot(i as int, j as int, OUT as int, IN as int);
                }
                *current.get_unchecked(i, j) + noise[from + i * IN + j]
            };
        let matrix = Matrix::<T, OUT, IN>::new_from_generator(weight_at);
        assert(0 <= OUT * IN) by (nonlinear_arith);
        let bias_from: usize = from + OUT * IN;
        let offsets = self.bias.clone();
        let bias_at = |i: usize, j: usize| -> (b: T)
            requires
                i < OUT,
                j < 1,
            ensures
                T::obeys_add_spec() ==> b == offsets@[i as int][0].add_spec(noise@[bias_from + i]),
            {
                proof {
                    offsets.lemma_shape();
                    assert(from + OUT * IN + i * 1 + 0 == bias_from + i);
                    let entry = offsets@[i as int][0];
                }
                *offsets.get_unchecked(i, 0) + noise[bias_from + i]
            };
        let bias = Matrix::<T, OUT, 1>::new_from_generator(bias_at);
        proof {
            if T::obeys_add_spec() {
                matrix.lemma_shape();
                bias.lemma_shape();
                before.matrix.lemma_shape();
                before.bias.lemma_shape();
                let weights = before.with_noise(noise@, from as int).0;
                assert forall|i: int| 0 <= i < OUT implies #[trigger] matrix@[i] == weights[i] by {
                    assert forall|j: int| 0 <= j < IN implies matrix@[i][j] == weights[i][j] by {
                        let entry = matrix@[i][j];
                    }
                    assert(matrix@[i] =~= weights[i]);
                }
                assert(matrix@ =~= weights);
                let biases = before.with_noise(noise@, from as int).1;
                assert forall|i: int| 0 <= i < OUT implies #[trigger] bias@[i] == biases[i] by {
                    let entry = bias@[i][0];
                    assert(bias@[i] =~= biases[i]);
                }
                assert(bias@ =~= biases);
            }
        }
        self.matrix = matrix;
        self.bias = bias;
    }
}

/// A network of three layers that takes twelve numbers to four, by way of
/// twelve and twelve.
pub struct Network<T> {
    pub first: Layer<T, 12, 12>,
    pub second: Layer<T, 12, 12>,
    pub third: Layer<T, 12, 4>,
}

impl<T: Copy> Clone for Network<T> {
    fn clone(&self) -> (copy: Self)
        ensures
            copy == *self,
    {
        Network { first: self.first.clone(), second: self.second.clone(), third: self.third.clone() }
    }
}

impl<T: Scalar> Network<T> {
    /// What the network answers to the column `input`: the layers are
    /// applied one after the other.
    pub open spec fn output(&self, input: Seq<Seq<T>>) -> Seq<Seq<T>> {
        self.third.output(self.second.output(self.first.output(input)))
    }

    /// `T` accepts every operation that the answer to `input` takes.
    pub open spec fn defined_on(&self, input: Seq<Seq<T>>) -> bool {
        &&& self.first.defined_on(input)
        &&& self.second.defined_on(self.first.output(input))
        &&& self.third.defined_on(self.second.output(self.first.output(input)))
    }

    /// `T` accepts every operation that the choice on `input` takes: those
    /// of the answer, and the division by which an output is held against
    /// the least value of `T`.
    pub open spec fn choice_defined(&self, input: Seq<Seq<T>>) -> bool {
        &&& self.defined_on(input)
        &&& forall|i: int| 0 <= i < OUTPUTS ==> floor_defined(#[trigger] self.output(input)[i][0])
    }

    /// `T` accepts every sum that a mutation takes with the values of
    /// `noise` from position `from` on.
    pub open spec fn mutation_defined(&self, noise: Seq<T>, from: int) -> bool {
        &&& shift_defined(self.first.matrix@, noise, from, 12)
        &&& shift_defined(self.first.bias@, noise, from + 144, 1)
        &&& shift_defined(shifted(self.first.matrix@, noise, from, 12), noise, from + 156, 12)
        &&& shift_defined(shifted(self.first.bias@, noise, from + 144, 1), noise, from + 300, 1)
    }

    /// `T` accepts every sum that a mutation takes, whatever `draw`
    /// returns.
    pub open spec fn mutation_defined_for<F: FnMut() -> T>(&self, draw: F) -> bool {
        forall|noise: Seq<T>| drawn_noise(noise, draw) ==> #[trigger] self.mutation_defined(noise, 0)
    }

    /// The action that the network chooses on `input`: the index of its
    /// greatest output, and of the first where several are greatest.
    pub open spec fn choice(&self, input: Seq<Seq<T>>) -> int {
        strongest(self.output(input), OUTPUTS as nat)
    }

    /// The network is made of `values`: the weights of the first layer, row
    /// by row, then its biases, then the same of the second and of the
    /// third layer.
    pub open spec fn made_of(&self, values: Seq<T>) -> bool {
        &&& self.first.matrix@ == arranged(values, 0, 12, 12)
        &&& self.first.bias@ == arranged(values, 144, 12, 1)
        &&& self.second.matrix@ == arranged(values, 156, 12, 12)
        &&& self.second.bias@ == arranged(values, 300, 12, 1)
        &&& self.third.matrix@ == arranged(values, 312, 4, 12)
        &&& self.third.bias@ == arranged(values, 360, 4, 1)
    }

    /// `self` is what a mutation makes of `parent` with the
    /// `MUTATION_VALUES` values of `noise` from position `from` on: the
    /// first `INNER_LAYER_VALUES` of them are added to the weights and
    /// biases of the first layer, then the next as many to the same weights
    /// and biases again. The other layers stay.
    pub open spec fn mutated_from(&self, parent: Self, noise: Seq<T>, from: int) -> bool {
        &&& self.first.matrix@ == shifted(
            shifted(parent.first.matrix@, noise, from, 12),
            noise,
            from + 156,
            12,
        )
        &&& self.first.bias@ == shifted(
            shifted(parent.first.bias@, noise, from + 144, 1),
            noise,
            from + 300,
            1,
        )
        &&& self.second == parent.second
        &&& self.third == parent.third
    }

    /// What a network answers depends on its weights, its biases and the
    /// input alone: two matrices that both hold its answer to `input` are
    /// the same matrix, and lead to the same choice.
    pub proof fn lemma_one_answer(&self, input: NetInput<T>, first: NetOutput<T>, second: NetOutput<T>)
        requires
            first@ == self.output(input@),
            second@ == self.output(input@),
        ensures
            first == second,
            strongest(first@, OUTPUTS as nat) == self.choice(input@),
            0 <= self.choice(input@) < OUTPUTS,
    {
        first.lemma_equal_by_rows(&second);
        lemma_strongest_in_range(self.output(input@), OUTPUTS as nat);
    }

    /// A network whose weights and biases are what `NETWORK_VALUES` calls
    /// of `draw` returned: first the weights of the first layer, row by
    /// row, then its biases, then the same of the second and of the third
    /// layer.
    pub fn new<F: FnMut() -> T>(draw: &mut F) -> (network: Self)
        requires
            call_requires(*old(draw), ()),
        ensures
            *final(draw) == *old(draw),
            exists|values: Seq<T>|
                {
                    &&& values.len() == NETWORK_VALUES
                    &&& forall|k: int|
                        0 <= k < NETWORK_VALUES ==> call_ensures(*old(draw), (), #[trigger] values[k])
                    &&& #[trigger] network.made_of(values)
                },
    {
        let values = collect_draws(draw, NETWORK_VALUES);
        let network = Self::from_values(&values);
        assert(network.made_of(values@));
        network
    }

    /// The network made of the `NETWORK_VALUES` values of `values`.
    pub fn from_values(values: &Vec<T>) -> (network: Self)
        requires
            values@.len() == NETWORK_VALUES,
        ensures
            network.made_of(values@),
    {
        Network {
            first: Layer::from_values(values, 0),
            second: Layer::from_values(values, INNER_LAYER_VALUES),
            third: Layer::from_values(values, 2 * INNER_LAYER_VALUES),
        }
    }

    /// What the network answers to `input`.
    pub fn forward(&self, input: NetInput<T>) -> (out: NetOutput<T>)
        requires
            arithmetic_allows::<T>(self.defined_on(input@)),
        ensures
            exact_arithmetic::<T>() ==> out@ == self.output(input@),
    {
        self.third.forward(self.second.forward(self.first.forward(input)))
    }

    /// The action that the network chooses on `input`, a number below
    /// `OUTPUTS`: the index of its greatest output, and of the first where
    /// several are greatest. An output takes the lead only where it is
    /// greater than the one that has it, and the first to take it must lie
    /// above the least value of `T`; where none does, the choice is 0.
    pub fn choice_with_highest_confidence(&self, input: NetInput<T>) -> (action: usize)
        requires
            arithmetic_allows::<T>(self.choice_defined(input@)),
        ensures
            action < OUTPUTS,
            exact_arithmetic::<T>() ==> action == self.choice(input@),
    {
        let output = self.forward(input);
        let mut highest_confidence: Option<T> = None;
        let mut highest_confidence_index: usize = 0;
        let mut i: usize = 0;
        while i < 4
            invariant
                i <= 4,
                highest_confidence_index < 4,
                arithmetic_allows::<T>(
                    forall|k: int| 0 <= k < OUTPUTS ==> floor_defined(#[trigger] output@[k][0]),
                ),
                exact_arithmetic::<T>() ==> match lead(output@, i as nat) {
                    Some(ahead) => highest_confidence == Some(output@[ahead][0])
                        && highest_confidence_index == ahead,
                    None => highest_confidence is None && highest_confidence_index == 0,
                },
            decreases 4 - i,
        {
            let confidence = *output.get_unchecked(i, 0);
            let takes_lead = match highest_confidence {
                Some(highest) => confidence > highest,
                None => is_above_floor(confidence),
            };
            if takes_lead {
                highest_confidence = Some(confidence);
                highest_confidence_index = i;
            }
            i += 1;
        }
        highest_confidence_index
    }

    /// Mutates the network with what `MUTATION_VALUES` calls of `draw`
    /// returned.
    pub fn randomly_edit<F: FnMut() -> T>(&mut self, draw: &mut F)
        requires
            addition_allows::<T>(old(self).mutation_defined_for(*old(draw))),
            call_requires(*old(draw), ()),
        ensures
            *final(draw) == *old(draw),
            final(self).second == old(self).second,
            final(self).third == old(self).third,
            T::obeys_add_spec() ==> exists|noise: Seq<T>|
                drawn_noise(noise, *old(draw)) && #[trigger] final(self).mutated_from(*old(self), noise, 0),
    {
        let noise = collect_draws(draw, MUTATION_VALUES);
        assert(drawn_noise(noise@, *old(draw)));
        self.perturb(&noise, 0);
        assert(T::obeys_add_spec() ==> self.mutated_from(*old(self), noise@, 0));
    }

    /// Mutates the network with the `MUTATION_VALUES` values of `noise`
    /// from position `from` on: the first layer is changed twice, the other
    /// layers stay.
    pub fn perturb(&mut self, noise: &Vec<T>, from: usize)
        requires
            addition_allows::<T>(old(self).mutation_defined(noise@, from as int)),
            from + MUTATION_VALUES <= noise@.len(),
        ensures
            T::obeys_add_spec() ==> final(self).mutated_from(*old(self), noise@, from as int),
            final(self).second == old(self).second,
            final(self).third == old(self).third,
    {
        let available = noise.len();
        self.first.randomly_edit(noise, from);
        self.first.randomly_edit(noise, from + INNER_LAYER_VALUES);
    }
}

/// Every entry of `entries` is zero.
pub open spec fn all_zero(entries: Seq<Seq<i64>>) -> bool {
    forall|i: int, j: int|
        0 <= i < entries.len() && 0 <= j < entries[i].len() ==> #[trigger] entries[i][j] == 0
}

/// A column of `rows` zeros.
pub open spec fn zeros(rows: nat) -> Seq<Seq<i64>> {
    Seq::new(rows, |i: int| seq![0i64])
}

/// A row of zeros times any column is zero, and nothing overflows on the
/// way.
proof fn lemma_zero_dot(lhs: Seq<Seq<i64>>, rhs: Seq<Seq<i64>>, i: int, k: nat)
    requires
        k >= 1,
        forall|t: int| 0 <= t < k ==> #[trigger] lhs[i][t] == 0,
    ensures
        dot_defined(lhs, rhs, i, 0, k),
        dot(lhs, rhs, i, 0, k) == 0,
    decreases k,
{
    assert(lhs[i][k - 1] == 0);
    assert(lhs[i][0] == 0);
    if k > 1 {
        lemma_zero_dot(lhs, rhs, i, (k - 1) as nat);
    }
}

impl<const IN: usize, const OUT: usize> Layer<i64, IN, OUT> {
    /// In a layer of zeros, row `i` of the weights times the input is zero,
    /// and so is that with the bias added.
    proof fn lemma_zero_row(&self, input: Seq<Seq<i64>>, i: int)
        requires
            IN >= 1,
            all_zero(self.matrix@),
            all_zero(self.bias@),
            has_shape(input, IN as nat, 1),
            0 <= i < OUT,
        ensures
            dot_defined(self.matrix@, input, i, 0, IN as nat),
            product(self.matrix@, input, 1)[i][0] == 0,
            self.bias@[i][0] == 0,
            sum(product(self.matrix@, input, 1), self.bias@)[i][0] == 0,
    {
        self.matrix.lemma_shape();
        self.bias.lemma_shape();
        assert forall|t: int| 0 <= t < IN implies #[trigger] self.matrix@[i][t] == 0 by {
            assert(self.matrix@[i].len() == IN);
        }
        lemma_zero_dot(self.matrix@, input, i, IN as nat);
        assert(self.bias@[i].len() == 1);
        assert(self.bias@[i][0] == 0);
    }

    /// A layer of 64-bit integers whose weights and biases are all zero
    /// answers zeros to every input, and nothing overflows on the way.
    pub proof fn lemma_zero_layer(&self, input: Seq<Seq<i64>>)
        requires
            IN >= 1,
            all_zero(self.matrix@),
            all_zero(self.bias@),
            has_shape(input, IN as nat, 1),
        ensures
            self.defined_on(input),
            self.output(input) == zeros(OUT as nat),
    {
        self.matrix.lemma_shape();
        self.bias.lemma_shape();
        let weighted = product(self.matrix@, input, 1);
        let raised = sum(weighted, self.bias@);
        assert forall|i: int| 0 <= i < OUT implies #[trigger] dot_defined(
            self.matrix@,
            input,
            i,
            0,
            IN as nat,
        ) by {
            self.lemma_zero_row(input, i);
        }
        assert forall|i: int, j: int|
            0 <= i < weighted.len() && 0 <= j < weighted[i].len() implies (#[trigger] weighted[i][j]).add_req(
            self.bias@[i][j],
        ) by {
            self.lemma_zero_row(input, i);
        }
        assert forall|i: int| 0 <= i < OUT implies leaky_defined(#[trigger] raised[i][0]) by {
            self.lemma_zero_row(input, i);
        }
        assert forall|i: int| 0 <= i < OUT implies #[trigger] self.output(input)[i] == zeros(
            OUT as nat,
        )[i] by {
            self.lemma_zero_row(input, i);
            assert(leaky(raised[i][0]) == 0);
            assert(self.output(input)[i] =~= zeros(OUT as nat)[i]);
        }
        assert(self.output(input) =~= zeros(OUT as nat));
    }
}

impl Network<i64> {
    /// Every weight and every bias of the network is zero.
    pub open spec fn is_zero(&self) -> bool {
        &&& all_zero(self.first.matrix@) && all_zero(self.first.bias@)
        &&& all_zero(self.second.matrix@) && all_zero(self.second.bias@)
        &&& all_zero(self.third.matrix@) && all_zero(self.third.bias@)
    }

    /// A network of 64-bit integers whose weights and biases are all zero
    /// answers zeros to every input and chooses the first action, and
    /// nothing overflows on the way.
    pub proof fn lemma_zero_network(&self, input: Seq<Seq<i64>>)
        requires
            self.is_zero(),
            has_shape(input, INPUTS as nat, 1),
        ensures
            self.choice_defined(input),
            self.output(input) == zeros(OUTPUTS as nat),
            self.choice(input) == 0,
    {
        self.first.lemma_zero_layer(input);
        let hidden = self.first.output(input);
        assert(has_shape(hidden, 12, 1));
        self.second.lemma_zero_layer(hidden);
        let deeper = self.second.output(hidden);
        assert(has_shape(deeper, 12, 1));
        self.third.lemma_zero_layer(deeper);
        let out = self.output(input);
        assert(out == zeros(4));
        assert forall|i: int| 0 <= i < OUTPUTS implies floor_defined(#[trigger] out[i][0]) by {
            assert(out[i][0] == 0);
        }
        assert(above_floor(out[0][0]));
        assert(lead(out, 1) == Some(0int)) by {
            reveal_with_fuel(lead, 2);
        }
        assert(out[1][0] == 0 && out[2][0] == 0 && out[3][0] == 0);
        assert(lead(out, 2) == Some(0int));
        assert(lead(out, 3) == Some(0int));
        assert(lead(out, 4) == Some(0int));
    }
}

} // verus!
