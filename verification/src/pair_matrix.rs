//! A value for every unordered pair of `n` items, stored as a triangle.

use crate::color::{floor_sqrt, is_floor_sqrt, lemma_floor_sqrt_unique};
use num_integer::Roots;
use vstd::prelude::*;

verus! {

/// The number of unordered pairs of `n` items.
pub open spec fn pair_count(n: int) -> int {
    n * (n - 1) / 2
}

/// The place of the pair `(min, max)`, `min < max`, in the triangle.
pub open spec fn pair_index(min: int, max: int) -> int {
    pair_count(max) + min
}

/// `n * (n - 1)` is even, so halving it loses nothing.
pub proof fn lemma_pair_count_exact(n: int)
    requires
        0 <= n,
    ensures
        2 * pair_count(n) == n * (n - 1),
        0 <= pair_count(n),
    decreases n,
{
    if n > 0 {
        lemma_pair_count_exact(n - 1);
        assert(n * (n - 1) == (n - 1) * (n - 2) + 2 * (n - 1)) by (nonlinear_arith);
    } else {
        assert(n * (n - 1) == 0) by (nonlinear_arith)
            requires
                n == 0,
        ;
    }
}

/// One more item makes `n` more pairs.
pub proof fn lemma_pair_count_step(n: int)
    requires
        0 <= n,
    ensures
        pair_count(n + 1) == pair_count(n) + n,
{
    lemma_pair_count_exact(n);
    lemma_pair_count_exact(n + 1);
    assert((n + 1) * n == n * (n - 1) + 2 * n) by (nonlinear_arith);
}

/// More items have no fewer pairs.
pub proof fn lemma_pair_count_monotonic(m: int, n: int)
    requires
        0 <= m <= n,
    ensures
        pair_count(m) <= pair_count(n),
    decreases n - m,
{
    if m < n {
        lemma_pair_count_step(n - 1);
        lemma_pair_count_monotonic(m, n - 1);
    }
}

/// Every pair of `n` items has a place in the triangle of `n`.
pub proof fn lemma_pair_index_in_range(min: int, max: int, n: int)
    requires
        0 <= min < max < n,
    ensures
        0 <= pair_index(min, max) < pair_count(n),
{
    lemma_pair_count_exact(max);
    lemma_pair_count_step(max);
    lemma_pair_count_monotonic(max + 1, n);
}

/// Two pairs with one place are one pair.
pub proof fn lemma_pair_index_injective(min1: int, max1: int, min2: int, max2: int)
    requires
        0 <= min1 < max1,
        0 <= min2 < max2,
        pair_index(min1, max1) == pair_index(min2, max2),
    ensures
        min1 == min2,
        max1 == max2,
{
    if max1 < max2 {
        lemma_pair_count_step(max1);
        lemma_pair_count_monotonic(max1 + 1, max2);
    }
    if max2 < max1 {
        lemma_pair_count_step(max2);
        lemma_pair_count_monotonic(max2 + 1, max1);
    }
}

/// The number of items is found again from the number of their pairs.
pub proof fn lemma_inverse_of_pair_count(n: int)
    requires
        1 <= n,
    ensures
        (1 + floor_sqrt(1 + 8 * pair_count(n))) / 2 == n,
{
    lemma_pair_count_exact(n);
    let r = 2 * n - 1;
    assert(r * r == 1 + 4 * (n * (n - 1))) by (nonlinear_arith)
        requires
            r == 2 * n - 1,
    ;
    assert(r * r < (r + 1) * (r + 1)) by (nonlinear_arith)
        requires
            r >= 1,
    ;
    lemma_floor_sqrt_unique(1 + 8 * pair_count(n), r);
}

/// `num_integer::Roots::sqrt` on `usize`. Trusted: the result is the square
/// root rounded down, `r * r <= x < (r + 1) * (r + 1)`, as the crate
/// documents it.
#[verifier::external_body]
fn integer_sqrt(x: usize) -> (r: usize)
    ensures
        is_floor_sqrt(x as int, r as int),
{
    x.sqrt()
}

/// One value for each unordered pair of items; the pair `(min, max)`,
/// `min < max`, is kept at `pair_index(min, max)`.
#[derive(Debug)]
pub struct PairMatrix<T> {
    data: Vec<T>,
}

impl<T> PairMatrix<T> {
    /// The values, in the order of their places.
    pub closed spec fn view(&self) -> Seq<T> {
        self.data@
    }

    /// The matrix holds the pairs of `n` items, neither more nor fewer.
    pub open spec fn holds(&self, n: int) -> bool {
        1 <= n && self@.len() == pair_count(n)
    }

    /// The value kept for the pair `(min, max)`.
    pub open spec fn spec_index(&self, pair: (usize, usize)) -> T {
        self@[pair_index(pair.0 as int, pair.1 as int)]
    }

    /// The number of pairs that the matrix holds.
    pub fn len(&self) -> (count: usize)
        ensures
            count == self@.len(),
    {
        self.data.len()
    }

    /// A matrix for `base`: the value of each pair `(i, j)`, `i < j`, is
    /// what `f` returned for `base[i]` and `base[j]`.
    pub fn new_populated<T2, F: Fn(&T2, &T2) -> T>(base: &Vec<T2>, f: F) -> (matrix: Self)
        requires
            base.len() > 0,
            pair_count(base.len() as int) <= usize::MAX,
            forall|i: int, j: int|
                0 <= i < j < base.len() ==> call_requires(f, (&base@[i], &base@[j])),
        ensures
            matrix.holds(base.len() as int),
            forall|i: int, j: int|
                0 <= i < j < base.len() ==> call_ensures(
                    f,
                    (&base@[i], &base@[j]),
                    #[trigger] matrix@[pair_index(i, j)],
                ),
    {
        let n = base.len();
        let mut data: Vec<T> = Vec::with_capacity(Self::triangle_number(n));
        proof {
            lemma_pair_count_exact(1);
        }
        let mut j: usize = 1;
        while j < n
            invariant
                1 <= j <= n,
                n == base.len(),
                data.len() == pair_count(j as int),
                forall|i: int, j: int|
                    0 <= i < j < base.len() ==> call_requires(f, (&base@[i], &base@[j])),
                forall|a: int, b: int|
                    0 <= a < b < j ==> call_ensures(
                        f,
                        (&base@[a], &base@[b]),
                        #[trigger] data@[pair_index(a, b)],
                    ),
            decreases n - j,
        {
            let mut i: usize = 0;
            while i < j
                invariant
                    i <= j < n,
                    n == base.len(),
                    data.len() == pair_index(i as int, j as int),
                    forall|i: int, j: int|
                        0 <= i < j < base.len() ==> call_requires(f, (&base@[i], &base@[j])),
                    forall|a: int, b: int|
                        0 <= a < b < j ==> call_ensures(
                            f,
                            (&base@[a], &base@[b]),
                            #[trigger] data@[pair_index(a, b)],
                        ),
                    forall|a: int|
                        0 <= a < i ==> call_ensures(
                            f,
                            (&base@[a], &base@[j as int]),
                            #[trigger] data@[pair_index(a, j as int)],
                        ),
                decreases j - i,
            {
                let ghost before = data@;
                data.push(f(&base[i], &base[j]));
                proof {
                    assert forall|a: int, b: int| 0 <= a < b < j implies call_ensures(
                        f,
                        (&base@[a], &base@[b]),
                        #[trigger] data@[pair_index(a, b)],
                    ) by {
                        lemma_pair_index_in_range(a, b, j as int);
                        assert(data@[pair_index(a, b)] == before[pair_index(a, b)]);
                    }
                    assert forall|a: int| 0 <= a < i + 1 implies call_ensures(
                        f,
                        (&base@[a], &base@[j as int]),
                        #[trigger] data@[pair_index(a, j as int)],
                    ) by {
                        if a < i {
                            assert(data@[pair_index(a, j as int)] == before[pair_index(
                                a,
                                j as int,
                            )]);
                        }
                    }
                }
                i += 1;
            }
            proof {
                lemma_pair_count_step(j as int);
                assert forall|a: int, b: int| 0 <= a < b < j + 1 implies call_ensures(
                    f,
                    (&base@[a], &base@[b]),
                    #[trigger] data@[pair_index(a, b)],
                ) by {}
            }
            j += 1;
        }
        Self { data }
    }

    /// The number of unordered pairs of `n` items. (In spite of its name
    /// this is the triangle number of `n - 1`.)
    pub fn triangle_number(n: usize) -> (count: usize)
        requires
            n > 0,
            pair_count(n as int) <= usize::MAX,
        ensures
            count == pair_count(n as int),
    {
        proof {
            lemma_pair_count_exact(n as int);
        }
        if n % 2 == 0 {
            assert((n / 2) * (n - 1) == pair_count(n as int)) by (nonlinear_arith)
                requires
                    n % 2 == 0,
                    2 * pair_count(n as int) == n * (n - 1),
            ;
            (n / 2) * (n - 1)
        } else {
            assert(n * ((n - 1) / 2) == pair_count(n as int)) by (nonlinear_arith)
                requires
                    n % 2 == 1,
                    2 * pair_count(n as int) == n * (n - 1),
            ;
            n * ((n - 1) / 2)
        }
    }

    /// The number of items that have `tri` pairs, where there is one.
    pub fn inverse_triangle(tri: usize) -> (n: usize)
        requires
            1 + 8 * tri <= usize::MAX,
        ensures
            n == (1 + floor_sqrt(1 + 8 * tri)) / 2,
            forall|m: int| 1 <= m && tri == pair_count(m) ==> n == m,
    {
        let root = integer_sqrt(1 + 8 * tri);
        proof {
            lemma_floor_sqrt_unique(1 + 8 * tri, root as int);
            assert(root * root <= usize::MAX);
            assert(root < usize::MAX) by (nonlinear_arith)
                requires
                    root * root <= usize::MAX,
                    usize::MAX >= 0xffff_ffff,
            ;
            assert forall|m: int| 1 <= m && tri == pair_count(m) implies (1 + root) / 2 == m by {
                lemma_inverse_of_pair_count(m);
            }
        }
        (1 + root) / 2
    }

    /// The place of the pair `(min, max)` in the triangle.
    pub fn ordered_pair_to_index(pair: (usize, usize)) -> (index: usize)
        requires
            pair.1 > 0,
            pair_index(pair.0 as int, pair.1 as int) <= usize::MAX,
        ensures
            index == pair_index(pair.0 as int, pair.1 as int),
    {
        proof {
            lemma_pair_count_exact(pair.1 as int);
        }
        Self::triangle_number(pair.1) + pair.0
    }

    /// The value kept for the pair `(min, max)`.
    pub fn index(&self, index: (usize, usize)) -> (value: &T)
        requires
            index.0 < index.1,
            pair_index(index.0 as int, index.1 as int) < self@.len(),
        ensures
            *value == self.spec_index(index),
    {
        assert(self.data.len() <= usize::MAX);
        &self.data[Self::ordered_pair_to_index(index)]
    }

    /// The place where the value of the pair `(min, max)` is kept.
    pub fn index_mut(&mut self, index: (usize, usize)) -> (value: &mut T)
        requires
            index.0 < index.1,
            pair_index(index.0 as int, index.1 as int) < old(self)@.len(),
        ensures
            *value == old(self).spec_index(index),
            final(self)@ == old(self)@.update(
                pair_index(index.0 as int, index.1 as int),
                *final(value),
            ),
    {
        assert(self.data.len() <= usize::MAX);
        &mut self.data[Self::ordered_pair_to_index(index)]
    }
}

impl<T: Copy> PairMatrix<T> {
    /// The value kept for the pair of `a` and `b`, whichever is smaller.
    pub fn unordered_index(&self, pair: (usize, usize)) -> (value: T)
        requires
            pair.0 != pair.1,
            pair.0 < pair.1 ==> pair_index(pair.0 as int, pair.1 as int) < self@.len(),
            pair.1 < pair.0 ==> pair_index(pair.1 as int, pair.0 as int) < self@.len(),
        ensures
            value == if pair.0 < pair.1 {
                self.spec_index(pair)
            } else {
                self.spec_index((pair.1, pair.0))
            },
    {
        let (a, b) = pair;
        if a < b {
            *self.index((a, b))
        } else {
            *self.index((b, a))
        }
    }
}

impl<T: Default> PairMatrix<T> {
    /// A matrix for `n` items with the default value for every pair.
    pub fn new(n: usize) -> (matrix: Self)
        requires
            n > 0,
            pair_count(n as int) <= usize::MAX,
        ensures
            matrix.holds(n as int),
            forall|k: int|
                0 <= k < matrix@.len() ==> call_ensures(T::default, (), #[trigger] matrix@[k]),
    {
        let count = PairMatrix::<T>::triangle_number(n);
        let mut data: Vec<T> = Vec::with_capacity(count);
        let mut k: usize = 0;
        while k < count
            invariant
                k <= count,
                data.len() == k,
                forall|j: int| 0 <= j < k ==> call_ensures(T::default, (), #[trigger] data@[j]),
            decreases count - k,
        {
            data.push(T::default());
            k += 1;
        }
        Self { data }
    }
}

} // verus!
