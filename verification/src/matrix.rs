use crate::scalar::{total_add, total_mul};
use core::ops::{Add, Mul};
use vstd::prelude::*;
use vstd::std_specs::ops::{AddSpec, MulSpec};

verus! {

/// A matrix with one column.
pub type ColVector<T, const ROWS: usize> = Matrix<T, ROWS, 1>;

/// A rectangular array of `ROWS * COLS` values whose shape is part of its
/// type: two matrices can only be combined where their shapes fit.
pub struct Matrix<T, const ROWS: usize, const COLS: usize> {
    data: [[T; COLS]; ROWS],
}

impl<T, const ROWS: usize, const COLS: usize> View for Matrix<T, ROWS, COLS> {
    type V = Seq<Seq<T>>;

    /// The rows of the matrix, top to bottom, each read left to right.
    closed spec fn view(&self) -> Seq<Seq<T>> {
        Seq::new(ROWS as nat, |i: int| self.data[i]@)
    }
}

/// The rows that a vector of vectors holds.
pub open spec fn rows_of<T>(vecs: Seq<Vec<T>>) -> Seq<Seq<T>> {
    Seq::new(vecs.len(), |i: int| vecs[i]@)
}

/// `rows` has the shape of a matrix with `height` rows and `width` columns.
pub open spec fn has_shape<T>(rows: Seq<Seq<T>>, height: nat, width: nat) -> bool {
    &&& rows.len() == height
    &&& forall|i: int| 0 <= i < height ==> (#[trigger] rows[i]).len() == width
}

/// The sum of the first `k` products of the entries of row `i` of `lhs` with
/// the entries of column `j` of `rhs`, added up from the left. It is meant
/// for `k >= 1`.
pub open spec fn dot<T: Mul<Output = T> + Add<Output = T>>(
    lhs: Seq<Seq<T>>,
    rhs: Seq<Seq<T>>,
    i: int,
    j: int,
    k: nat,
) -> T
    decreases k,
{
    if k <= 1 {
        lhs[i][0].mul_spec(rhs[0][j])
    } else {
        dot(lhs, rhs, i, j, (k - 1) as nat).add_spec(lhs[i][k - 1].mul_spec(rhs[k - 1][j]))
    }
}

/// `T` accepts every `*` and `+` that `dot(lhs, rhs, i, j, k)` is made of.
pub open spec fn dot_defined<T: Mul<Output = T> + Add<Output = T>>(
    lhs: Seq<Seq<T>>,
    rhs: Seq<Seq<T>>,
    i: int,
    j: int,
    k: nat,
) -> bool
    decreases k,
{
    if k == 0 {
        true
    } else if k == 1 {
        lhs[i][0].mul_req(rhs[0][j])
    } else {
        &&& dot_defined(lhs, rhs, i, j, (k - 1) as nat)
        &&& lhs[i][k - 1].mul_req(rhs[k - 1][j])
        &&& dot(lhs, rhs, i, j, (k - 1) as nat).add_req(lhs[i][k - 1].mul_spec(rhs[k - 1][j]))
    }
}

/// `value` is what `*` and `+` of `T` can give for the sum of the first `k`
/// products of the entries of row `i` of `lhs` with the entries of column
/// `j` of `rhs`, added up from the left: the first product, to which each
/// further product was added in turn. This holds of number types, too,
/// whose arithmetic is not a function of the arguments alone.
pub open spec fn dot_outcome<T: Mul<Output = T> + Add<Output = T>>(
    lhs: Seq<Seq<T>>,
    rhs: Seq<Seq<T>>,
    i: int,
    j: int,
    k: nat,
    value: T,
) -> bool
    decreases k,
{
    if k <= 1 {
        call_ensures(T::mul, (lhs[i][0], rhs[0][j]), value)
    } else {
        exists|before: T, term: T|
            {
                &&& dot_outcome(lhs, rhs, i, j, (k - 1) as nat, before)
                &&& call_ensures(T::mul, (lhs[i][k - 1], rhs[k - 1][j]), term)
                &&& #[trigger] call_ensures(T::add, (before, term), value)
            }
    }
}

/// The product of `lhs` and a `rhs` of `width` columns can be computed in
/// `T`: either `T` never refuses a `*` or a `+`, or its arithmetic is exact
/// and it accepts each operation that the product takes.
pub open spec fn product_defined<T: Mul<Output = T> + Add<Output = T>>(
    lhs: Seq<Seq<T>>,
    rhs: Seq<Seq<T>>,
    width: nat,
) -> bool {
    ||| total_mul::<T>() && total_add::<T>()
    ||| {
        &&& T::obeys_mul_spec()
        &&& T::obeys_add_spec()
        &&& forall|i: int, j: int|
            0 <= i < lhs.len() && 0 <= j < width ==> #[trigger] dot_defined(
                lhs,
                rhs,
                i,
                j,
                rhs.len(),
            )
    }
}

/// The matrix product of `lhs` and a `rhs` of `width` columns: it has the
/// rows of `lhs` and the columns of `rhs`.
pub open spec fn product<T: Mul<Output = T> + Add<Output = T>>(
    lhs: Seq<Seq<T>>,
    rhs: Seq<Seq<T>>,
    width: nat,
) -> Seq<Seq<T>> {
    Seq::new(lhs.len(), |i: int| Seq::new(width, |j: int| dot(lhs, rhs, i, j, rhs.len())))
}

/// The entry-by-entry sum of `lhs` and `rhs`.
pub open spec fn sum<T: Add<Output = T>>(lhs: Seq<Seq<T>>, rhs: Seq<Seq<T>>) -> Seq<Seq<T>> {
    Seq::new(
        lhs.len(),
        |i: int| Seq::new(lhs[i].len(), |j: int| lhs[i][j].add_spec(rhs[i][j])),
    )
}

/// `T` accepts the `+` of every entry of `lhs` with the entry of `rhs` at
/// the same place.
pub open spec fn sum_defined<T: Add<Output = T>>(lhs: Seq<Seq<T>>, rhs: Seq<Seq<T>>) -> bool {
    forall|i: int, j: int|
        0 <= i < lhs.len() && 0 <= j < lhs[i].len() ==> (#[trigger] lhs[i][j]).add_req(rhs[i][j])
}

/// `<[T; N]>::try_from(Vec<T>)`: the items of the vector, in their order,
/// as an array where there are exactly `N` of them; for any other number the
/// vector comes back as it was.
#[verifier::external_body]
fn array_of<T, const N: usize>(items: Vec<T>) -> (out: Result<[T; N], Vec<T>>)
    ensures
        out is Ok <==> items@.len() == N,
        out matches Ok(array) ==> array@ == items@,
        out matches Err(rest) ==> rest@ == items@,
{
    <[T; N]>::try_from(items)
}

impl<T: Copy, const ROWS: usize, const COLS: usize> Clone for Matrix<T, ROWS, COLS> {
    fn clone(&self) -> (copy: Self)
        ensures
            copy == *self,
    {
        Matrix { data: self.data }
    }
}

impl<T, const ROWS: usize, const COLS: usize> Matrix<T, ROWS, COLS> {
    /// Every matrix of this type has `ROWS` rows of `COLS` entries.
    pub proof fn lemma_shape(&self)
        ensures
            has_shape(self@, ROWS as nat, COLS as nat),
    {
    }

    /// Two matrices with the same rows are the same matrix.
    pub proof fn lemma_equal_by_rows(&self, other: &Self)
        requires
            self@ == other@,
        ensures
            *self == *other,
    {
        assert forall|i: int| 0 <= i < ROWS implies self.data[i] == other.data[i] by {
            assert(self@[i] == other@[i]);
            assert(self.data[i]@ == other.data[i]@);
            assert(self.data[i] =~= other.data[i]);
        }
        assert(self.data =~= other.data);
    }

    /// The entry in row `row` and column `col`, both counted from zero.
    pub fn get_unchecked(&self, row: usize, col: usize) -> (entry: &T)
        requires
            row < ROWS,
            col < COLS,
        ensures
            *entry == self@[row as int][col as int],
    {
        &self.data[row][col]
    }

    /// The matrix whose rows are the arrays of `data`.
    pub fn new_from_slice(data: [[T; COLS]; ROWS]) -> (m: Self)
        ensures
            m@ == Seq::new(ROWS as nat, |i: int| data@[i]@),
    {
        Self { data }
    }

    /// The matrix whose entry in row `i` and column `j` is what
    /// `generator(i, j)` returned. The generator is called once for each
    /// entry, row by row and from left to right in each row.
    pub fn new_from_generator(mut generator: impl FnMut(usize, usize) -> T) -> (m: Self)
        requires
            forall|i: usize, j: usize| i < ROWS && j < COLS ==> call_requires(generator, (i, j)),
        ensures
            forall|i: int, j: int|
                0 <= i < ROWS && 0 <= j < COLS ==> call_ensures(
                    generator,
                    (i as usize, j as usize),
                    #[trigger] m@[i][j],
                ),
    {
        let ghost source = generator;
        let mut rows: Vec<[T; COLS]> = Vec::new();
        let mut i: usize = 0;
        while i < ROWS
            invariant
                generator == source,
                i <= ROWS,
                rows@.len() == i,
                forall|r: usize, c: usize| r < ROWS && c < COLS ==> call_requires(generator, (r, c)),
                forall|r: int, c: int|
                    0 <= r < i && 0 <= c < COLS ==> call_ensures(
                        generator,
                        (r as usize, c as usize),
                        #[trigger] rows@[r]@[c],
                    ),
            decreases ROWS - i,
        {
            let mut row: Vec<T> = Vec::new();
            let mut j: usize = 0;
            while j < COLS
                invariant
                    generator == source,
                    i < ROWS,
                    j <= COLS,
                    row@.len() == j,
                    forall|r: usize, c: usize| r < ROWS && c < COLS ==> call_requires(generator, (r, c)),
                    forall|c: int|
                        0 <= c < j ==> call_ensures(generator, (i, c as usize), #[trigger] row@[c]),
                decreases COLS - j,
            {
                let entry = generator(i, j);
                row.push(entry);
                j += 1;
            }
            let ghost filled = row@;
            let packed = array_of::<T, COLS>(row).ok().unwrap();
            let ghost before = rows@;
            rows.push(packed);
            assert forall|r: int, c: int| 0 <= r < i + 1 && 0 <= c < COLS implies call_ensures(
                generator,
                (r as usize, c as usize),
                #[trigger] rows@[r]@[c],
            ) by {
                if r < i {
                    assert(rows@[r] == before[r]);
                } else {
                    assert(rows@[r]@[c] == filled[c]);
                }
            }
            i += 1;
        }
        let ghost built = rows@;
        let data = array_of::<[T; COLS], ROWS>(rows).ok().unwrap();
        let m = Matrix { data };
        assert forall|r: int, c: int| 0 <= r < ROWS && 0 <= c < COLS implies call_ensures(
            generator,
            (r as usize, c as usize),
            #[trigger] m@[r][c],
        ) by {
            assert(m@[r][c] == built[r]@[c]);
        }
        m
    }
}

impl<T: Copy, const ROWS: usize, const COLS: usize> Matrix<T, ROWS, COLS> {
    /// The rows of the matrix as vectors, top to bottom.
    pub fn to_vecs(&self) -> (vecs: Vec<Vec<T>>)
        ensures
            rows_of(vecs@) == self@,
    {
        let mut vecs: Vec<Vec<T>> = Vec::new();
        let mut i: usize = 0;
        while i < ROWS
            invariant
                i <= ROWS,
                vecs@.len() == i,
                forall|r: int| 0 <= r < i ==> (#[trigger] vecs@[r])@ == self@[r],
            decreases ROWS - i,
        {
            let mut row: Vec<T> = Vec::new();
            let mut j: usize = 0;
            while j < COLS
                invariant
                    i < ROWS,
                    j <= COLS,
                    row@.len() == j,
                    forall|c: int| 0 <= c < j ==> #[trigger] row@[c] == self@[i as int][c],
                decreases COLS - j,
            {
                row.push(self.data[i][j]);
                j += 1;
            }
            assert(row@ =~= self@[i as int]);
            vecs.push(row);
            i += 1;
        }
        assert(rows_of(vecs@) =~= self@);
        vecs
    }

    /// The matrix whose rows are the vectors of `vecs`, which must have the
    /// shape of the matrix.
    pub fn from_vecs(vecs: Vec<Vec<T>>) -> (m: Self)
        requires
            has_shape(rows_of(vecs@), ROWS as nat, COLS as nat),
        ensures
            m@ == rows_of(vecs@),
    {
        let mut rows: Vec<[T; COLS]> = Vec::new();
        let mut i: usize = 0;
        while i < ROWS
            invariant
                i <= ROWS,
                rows@.len() == i,
                has_shape(rows_of(vecs@), ROWS as nat, COLS as nat),
                forall|r: int| 0 <= r < i ==> (#[trigger] rows@[r])@ == vecs@[r]@,
            decreases ROWS - i,
        {
            assert(rows_of(vecs@)[i as int].len() == COLS);
            let mut row: Vec<T> = Vec::new();
            let mut j: usize = 0;
            while j < COLS
                invariant
                    i < ROWS,
                    vecs@.len() == ROWS,
                    vecs@[i as int]@.len() == COLS,
                    j <= COLS,
                    row@.len() == j,
                    forall|c: int| 0 <= c < j ==> #[trigger] row@[c] == vecs@[i as int]@[c],
                decreases COLS - j,
            {
                row.push(vecs[i][j]);
                j += 1;
            }
            assert(row@ =~= vecs@[i as int]@);
            rows.push(array_of::<T, COLS>(row).ok().unwrap());
            i += 1;
        }
        let data = array_of::<[T; COLS], ROWS>(rows).ok().unwrap();
        let m = Matrix { data };
        assert(m@ =~= rows_of(vecs@));
        m
    }

    /// Writing a matrix out as vectors and reading it back gives the matrix
    /// again: `back` is what `from_vecs` returns on what `to_vecs` returned
    /// for `self`.
    pub proof fn lemma_vecs_round_trip(&self, vecs: Vec<Vec<T>>, back: &Self)
        requires
            rows_of(vecs@) == self@,
            back@ == rows_of(vecs@),
        ensures
            has_shape(rows_of(vecs@), ROWS as nat, COLS as nat),
            *back == *self,
    {
        self.lemma_shape();
        back.lemma_equal_by_rows(self);
    }
}

impl<T: Copy + Mul<Output = T> + Add<Output = T>, const ROWS: usize, const COLS: usize> Matrix<
    T,
    ROWS,
    COLS,
> {
    /// Row `i` of `self` times column `j` of `rhs`.
    fn dot_with<const RHSCOLS: usize>(&self, rhs: &Matrix<T, COLS, RHSCOLS>, i: usize, j: usize) -> (d:
        T)
        requires
            i < ROWS,
            j < RHSCOLS,
            COLS > 0,
            product_defined(self@, rhs@, RHSCOLS as nat),
        ensures
            dot_outcome(self@, rhs@, i as int, j as int, COLS as nat, d),
            T::obeys_mul_spec() && T::obeys_add_spec() ==> d == dot(
                self@,
                rhs@,
                i as int,
                j as int,
                COLS as nat,
            ),
    {
        let ghost exact = T::obeys_mul_spec() && T::obeys_add_spec();
        proof {
            self.lemma_shape();
            rhs.lemma_shape();
            if !(total_mul::<T>() && total_add::<T>()) {
                assert(dot_defined(self@, rhs@, i as int, j as int, rhs@.len()));
                lemma_dot_defined_upto(self@, rhs@, i as int, j as int, COLS as nat, 1);
            }
        }
        assert(self@[i as int][0] == self.data[i as int][0]);
        assert(rhs@[0][j as int] == rhs.data[0][j as int]);
        let mut acc = self.data[i][0] * rhs.data[0][j];
        let mut k: usize = 1;
        while k < COLS
            invariant
                i < ROWS,
                j < RHSCOLS,
                1 <= k <= COLS,
                exact == (T::obeys_mul_spec() && T::obeys_add_spec()),
                dot_outcome(self@, rhs@, i as int, j as int, k as nat, acc),
                exact ==> acc == dot(self@, rhs@, i as int, j as int, k as nat),
                total_mul::<T>() && total_add::<T>() || exact && dot_defined(
                    self@,
                    rhs@,
                    i as int,
                    j as int,
                    COLS as nat,
                ),
            decreases COLS - k,
        {
            proof {
                if !(total_mul::<T>() && total_add::<T>()) {
                    lemma_dot_defined_upto(self@, rhs@, i as int, j as int, COLS as nat, (k + 1) as nat);
                }
            }
            assert(self@[i as int][k as int] == self.data[i as int][k as int]);
            assert(rhs@[k as int][j as int] == rhs.data[k as int][j as int]);
            let term = self.data[i][k] * rhs.data[k][j];
            let ghost before = acc;
            acc = acc + term;
            k += 1;
            assert(dot_outcome(self@, rhs@, i as int, j as int, k as nat, acc)) by {
                assert(dot_outcome(self@, rhs@, i as int, j as int, (k - 1) as nat, before));
                assert(call_ensures(T::add, (before, term), acc));
            }
        }
        acc
    }

    /// The matrix product of `self` and `rhs`: its entry in row `i` and
    /// column `j` is row `i` of `self` times column `j` of `rhs`.
    pub fn mul<const RHSCOLS: usize>(&self, rhs: &Matrix<T, COLS, RHSCOLS>) -> (out: Matrix<
        T,
        ROWS,
        RHSCOLS,
    >)
        requires
            COLS > 0 || ROWS == 0 || RHSCOLS == 0,
            product_defined(self@, rhs@, RHSCOLS as nat),
        ensures
            forall|i: int, j: int|
                0 <= i < ROWS && 0 <= j < RHSCOLS ==> dot_outcome(
                    self@,
                    rhs@,
                    i,
                    j,
                    COLS as nat,
                    #[trigger] out@[i][j],
                ),
            T::obeys_mul_spec() && T::obeys_add_spec() ==> out@ == product(self@, rhs@, RHSCOLS as nat),
    {
        let entry_at = |i: usize, j: usize| -> (d: T)
            requires
                i < ROWS,
                j < RHSCOLS,
            ensures
                dot_outcome(self@, rhs@, i as int, j as int, COLS as nat, d),
                T::obeys_mul_spec() && T::obeys_add_spec() ==> d == dot(self@, rhs@, i as int, j as int, COLS as nat),
            {
                self.dot_with(rhs, i, j)
            };
        let out = Matrix::<T, ROWS, RHSCOLS>::new_from_generator(entry_at);
        proof {
            if T::obeys_mul_spec() && T::obeys_add_spec() {
                let expected = product(self@, rhs@, RHSCOLS as nat);
                assert forall|i: int| 0 <= i < ROWS implies #[trigger] out@[i] == expected[i] by {
                    assert forall|j: int| 0 <= j < RHSCOLS implies out@[i][j] == expected[i][j] by {
                        let entry = out@[i][j];
                    }
                    assert(out@[i] =~= expected[i]);
                }
                assert(out@ =~= expected);
            }
        }
        out
    }
}

/// The sum of the first `k` products of the entries of row `i` of `lhs` with
/// the entries of column `j` of `rhs`, as a whole number without bounds.
spec fn dot_value(lhs: Seq<Seq<i64>>, rhs: Seq<Seq<i64>>, i: int, j: int, k: nat) -> int
    decreases k,
{
    if k <= 1 {
        lhs[i][0] * rhs[0][j]
    } else {
        dot_value(lhs, rhs, i, j, (k - 1) as nat) + lhs[i][k - 1] * rhs[k - 1][j]
    }
}

/// Where nothing overflows, a dot product of 64-bit integers is the sum of
/// the products.
proof fn lemma_dot_is_value(lhs: Seq<Seq<i64>>, rhs: Seq<Seq<i64>>, i: int, j: int, k: nat)
    requires
        k >= 1,
        dot_defined(lhs, rhs, i, j, k),
    ensures
        dot(lhs, rhs, i, j, k) == dot_value(lhs, rhs, i, j, k),
    decreases k,
{
    if k > 1 {
        lemma_dot_is_value(lhs, rhs, i, j, (k - 1) as nat);
    }
}

/// The sum of the products of a row with the sum of two columns is the sum
/// of its products with each, where the sum of the columns does not
/// overflow.
proof fn lemma_value_distributes(
    a: Seq<Seq<i64>>,
    b: Seq<Seq<i64>>,
    c: Seq<Seq<i64>>,
    i: int,
    j: int,
    k: nat,
)
    requires
        1 <= k <= b.len(),
        forall|r: int| 0 <= r < b.len() ==> 0 <= j < (#[trigger] b[r]).len(),
        sum_defined(b, c),
    ensures
        dot_value(a, sum(b, c), i, j, k) == dot_value(a, b, i, j, k) + dot_value(a, c, i, j, k),
    decreases k,
{
    let x = a[i][k - 1] as int;
    let y = b[k - 1][j] as int;
    let z = c[k - 1][j] as int;
    assert(b[k - 1].len() > j);
    assert(b[k - 1][j].add_req(c[k - 1][j]));
    assert(sum(b, c)[k - 1][j] == y + z);
    assert(x * (y + z) == x * y + x * z) by (nonlinear_arith);
    if k > 1 {
        lemma_value_distributes(a, b, c, i, j, (k - 1) as nat);
    }
}

/// Where the arithmetic of `i64` allows a product, it accepts every
/// operation of each of its entries.
proof fn lemma_product_entries_defined(lhs: Seq<Seq<i64>>, rhs: Seq<Seq<i64>>, width: nat, i: int, j: int)
    requires
        product_defined(lhs, rhs, width),
        0 <= i < lhs.len(),
        0 <= j < width,
    ensures
        dot_defined(lhs, rhs, i, j, rhs.len()),
{
    assert(!(i64::MAX).mul_req(2i64));
}

/// The matrix product of 64-bit integers distributes over the sum of
/// matrices wherever nothing overflows: `a * (b + c)` is `a * b + a * c`,
/// where `b` and `c` have the same shape, of `width` columns and at least
/// one row, and the arithmetic allows the three products and the two sums.
pub proof fn lemma_product_distributes(
    a: Seq<Seq<i64>>,
    b: Seq<Seq<i64>>,
    c: Seq<Seq<i64>>,
    width: nat,
)
    requires
        b.len() >= 1,
        has_shape(b, b.len(), width),
        has_shape(c, b.len(), width),
        sum_defined(b, c),
        product_defined(a, sum(b, c), width),
        product_defined(a, b, width),
        product_defined(a, c, width),
        sum_defined(product(a, b, width), product(a, c, width)),
    ensures
        product(a, sum(b, c), width) == sum(product(a, b, width), product(a, c, width)),
{
    let left = product(a, sum(b, c), width);
    let right = sum(product(a, b, width), product(a, c, width));
    assert forall|i: int| 0 <= i < a.len() implies #[trigger] left[i] == right[i] by {
        assert forall|j: int| 0 <= j < width implies left[i][j] == right[i][j] by {
            lemma_product_entries_defined(a, sum(b, c), width, i, j);
            lemma_product_entries_defined(a, b, width, i, j);
            lemma_product_entries_defined(a, c, width, i, j);
            lemma_dot_is_value(a, sum(b, c), i, j, b.len());
            lemma_dot_is_value(a, b, i, j, b.len());
            lemma_dot_is_value(a, c, i, j, b.len());
            lemma_value_distributes(a, b, c, i, j, b.len());
            assert(product(a, b, width)[i][j].add_req(product(a, c, width)[i][j]));
        }
        assert(left[i] =~= right[i]);
    }
    assert(left =~= right);
}

/// In a number type whose `*` and `+` are functions of their arguments, the
/// one outcome of a dot product is its value.
pub proof fn lemma_dot_outcome_exact<T: Mul<Output = T> + Add<Output = T>>(
    lhs: Seq<Seq<T>>,
    rhs: Seq<Seq<T>>,
    i: int,
    j: int,
    k: nat,
    value: T,
)
    requires
        T::obeys_mul_spec(),
        T::obeys_add_spec(),
        dot_outcome(lhs, rhs, i, j, k, value),
    ensures
        value == dot(lhs, rhs, i, j, k),
    decreases k,
{
    if k > 1 {
        let (before, term) = choose|before: T, term: T|
            {
                &&& dot_outcome(lhs, rhs, i, j, (k - 1) as nat, before)
                &&& call_ensures(T::mul, (lhs[i][k - 1], rhs[k - 1][j]), term)
                &&& #[trigger] call_ensures(T::add, (before, term), value)
            };
        lemma_dot_outcome_exact(lhs, rhs, i, j, (k - 1) as nat, before);
    }
}

/// Where `T` accepts the operations of a dot product, it accepts those of
/// each shorter one.
proof fn lemma_dot_defined_upto<T: Mul<Output = T> + Add<Output = T>>(
    lhs: Seq<Seq<T>>,
    rhs: Seq<Seq<T>>,
    i: int,
    j: int,
    n: nat,
    k: nat,
)
    requires
        dot_defined(lhs, rhs, i, j, n),
        k <= n,
    ensures
        dot_defined(lhs, rhs, i, j, k),
    decreases n,
{
    if k < n {
        if n >= 2 {
            lemma_dot_defined_upto(lhs, rhs, i, j, (n - 1) as nat, k);
        }
    }
}

impl<T: Copy + Add<Output = T>, const ROWS: usize, const COLS: usize> Matrix<T, ROWS, COLS> {
    /// The entry-by-entry sum of `self` and `rhs`.
    pub fn add(&self, rhs: &Matrix<T, ROWS, COLS>) -> (out: Matrix<T, ROWS, COLS>)
        requires
            sum_defined(self@, rhs@),
        ensures
            forall|i: int, j: int|
                0 <= i < ROWS && 0 <= j < COLS ==> call_ensures(
                    T::add,
                    (self@[i][j], rhs@[i][j]),
                    #[trigger] out@[i][j],
                ),
            T::obeys_add_spec() ==> out@ == sum(self@, rhs@),
    {
        let entry_at = |i: usize, j: usize| -> (s: T)
            requires
                i < ROWS,
                j < COLS,
            ensures
                call_ensures(T::add, (self@[i as int][j as int], rhs@[i as int][j as int]), s),
                T::obeys_add_spec() ==> s == self@[i as int][j as int].add_spec(rhs@[i as int][j as int]),
            {
                assert(self@[i as int][j as int] == self.data[i as int][j as int]);
                assert(rhs@[i as int][j as int] == rhs.data[i as int][j as int]);
                self.data[i][j] + rhs.data[i][j]
            };
        let out = Matrix::<T, ROWS, COLS>::new_from_generator(entry_at);
        proof {
            if T::obeys_add_spec() {
                assert forall|i: int| 0 <= i < ROWS implies #[trigger] out@[i] == sum(
                    self@,
                    rhs@,
                )[i] by {
                    assert forall|j: int| 0 <= j < COLS implies out@[i][j] == sum(
                        self@,
                        rhs@,
                    )[i][j] by {
                        let entry = out@[i][j];
                    }
                    assert(out@[i] =~= sum(self@, rhs@)[i]);
                }
                assert(out@ =~= sum(self@, rhs@));
            }
        }
        out
    }
}

} // verus!
