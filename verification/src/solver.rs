//! The combination engine. A `KillerCage` holds an immutable configuration:
//! the largest value a cell may take and the number of cells. Its queries
//! report the least and greatest achievable cage sums and enumerate every
//! strictly increasing tuple of cell values with a given sum.

use vstd::prelude::*;
use vstd::arithmetic::power::pow;
use crate::lex::{lex_lt, lex_le, seq_num, lemma_lex_irreflexive, lemma_lex_transitive,
    lemma_lex_le_lt_transitive, lemma_lex_trichotomy, lemma_lex_from_diff, lemma_lex_to_diff,
    lemma_lex_pointwise, lemma_seq_num_bounds, lemma_lex_lt_seq_num};
use crate::sums::{seq_sum, lemma_sum_nonneg, lemma_sum_pointwise_le, lemma_sum_pointwise_le_equal,
    lemma_sum_take_step, lemma_sum_take_le};

verus! {

/// The mathematical contents of a list of tuples.
pub open spec fn views_of(r: Seq<Vec<u32>>) -> Seq<Seq<u32>> {
    r.map_values(|v: Vec<u32>| v@)
}

/// The single construction-time failure: more cells than distinct values.
#[derive(PartialEq, Eq, Structural, Clone, Copy, Debug)]
pub struct CageError;

/// A single cage in a killer sudoku puzzle: `cell_count` cells, each holding
/// a distinct value in `1..=max_cell_value`.
#[derive(PartialEq, Eq, Structural, Clone, Copy, Debug)]
pub struct KillerCage {
    /// The maximum value of a cell in the grid; 9 for a standard puzzle.
    pub max_cell_value: u32,
    /// The number of cells in the cage.
    pub cell_count: u32,
}

impl KillerCage {
    /// The configuration invariant: the cage cannot ask for more distinct
    /// values than the domain offers.
    pub open spec fn wf(self) -> bool {
        self.cell_count <= self.max_cell_value
    }

    /// The largest value position `i` may hold while leaving room for the
    /// larger, distinct, in-range values that must follow it.
    pub open spec fn spec_bound(self, i: int) -> int {
        self.max_cell_value - (self.cell_count - 1 - i)
    }

    /// The least achievable sum: the triangular number of `cell_count`.
    pub open spec fn spec_min_sum(self) -> int {
        (self.cell_count * (self.cell_count + 1)) / 2
    }

    /// The greatest achievable sum: every term of the least tuple shifted up
    /// by `max_cell_value - cell_count`.
    pub open spec fn spec_max_sum(self) -> int {
        self.spec_min_sum() + self.cell_count * (self.max_cell_value - self.cell_count)
    }

    /// Every sum the engine can meet fits the machine word; this is the only
    /// requirement beyond the configuration invariant.
    pub open spec fn fits(self) -> bool {
        self.spec_max_sum() <= u32::MAX
    }

    /// A candidate tuple: `cell_count` values, strictly increasing, each in
    /// `1..=max_cell_value`.
    pub open spec fn tuple_ok(self, t: Seq<u32>) -> bool {
        &&& t.len() == self.cell_count
        &&& forall|i: int| 0 <= i < t.len() ==> 1 <= #[trigger] t[i] <= self.max_cell_value
        &&& forall|i: int| 0 <= i < t.len() - 1 ==> #[trigger] t[i] < t[i + 1]
    }

    /// The lexicographically least candidate tuple, `[1, 2, ..., cell_count]`.
    pub open spec fn least_tuple(self) -> Seq<u32> {
        Seq::new(self.cell_count as nat, |i: int| (i + 1) as u32)
    }

    /// The lexicographically greatest candidate tuple, the top `cell_count`
    /// values of the domain in ascending order.
    pub open spec fn greatest_tuple(self) -> Seq<u32> {
        Seq::new(self.cell_count as nat, |i: int| self.spec_bound(i) as u32)
    }

    /// A solution for `total`: a candidate tuple whose values sum to it.
    pub open spec fn combo_ok(self, total: u32, t: Seq<u32>) -> bool {
        self.tuple_ok(t) && seq_sum(t) == total
    }

    /// What `find_combinations` returns: every solution for `total`, each
    /// exactly once, in strictly ascending lexicographic order.
    pub open spec fn combos_spec(self, total: u32, rs: Seq<Seq<u32>>) -> bool {
        &&& forall|i: int| 0 <= i < rs.len() ==> self.combo_ok(total, #[trigger] rs[i])
        &&& forall|i: int, j: int|
            0 <= i < j < rs.len() ==> lex_lt(#[trigger] rs[i], #[trigger] rs[j])
        &&& forall|t: Seq<u32>| #[trigger] self.combo_ok(total, t) ==> rs.contains(t)
    }

    /// Creates a new `KillerCage`; fails exactly when the cage asks for more
    /// cells than there are distinct values.
    pub fn new(max_cell_value: u32, cell_count: u32) -> (r: Result<KillerCage, CageError>)
        ensures
            r is Ok <==> cell_count <= max_cell_value,
            r matches Ok(c) ==> c == (KillerCage { max_cell_value, cell_count }),
    {
        if cell_count > max_cell_value {
            Err(CageError)
        } else {
            Ok(KillerCage { max_cell_value, cell_count })
        }
    }

    /// The maximum valid value for the cell at `index` in a sorted tuple
    /// without repeats: the cells above it need that many larger values.
    pub fn max_positional_value(&self, index: usize) -> (r: u32)
        requires
            self.wf(),
            1 <= self.cell_count,
            index < self.cell_count,
        ensures
            r == self.spec_bound(index as int),
    {
        self.max_cell_value - ((self.cell_count - 1) - (index as u32))
    }

    /// The minimum possible total of this cage: the triangular number for
    /// `cell_count`.
    pub fn minimum_value(&self) -> (r: u32)
        requires
            self.wf(),
            self.fits(),
        ensures
            r == self.spec_min_sum(),
    {
        proof {
            self.lemma_min_le_max();
        }
        let n = self.cell_count as u64;
        ((n * (n + 1)) / 2) as u32
    }

    /// The maximum possible total of this cage, formed by the top
    /// `cell_count` values of the domain.
    pub fn maximum_value(&self) -> (r: u32)
        requires
            self.wf(),
            self.fits(),
        ensures
            r == self.spec_max_sum(),
            r == self.spec_min_sum() + self.cell_count * (self.max_cell_value - self.cell_count),
    {
        let min_value = self.minimum_value();
        let n = self.cell_count as u64;
        let spread = (self.max_cell_value - self.cell_count) as u64;
        proof {
            self.lemma_min_le_max();
            assert(n * spread == self.cell_count * (self.max_cell_value - self.cell_count))
                by (nonlinear_arith)
                requires
                    n == self.cell_count,
                    spread == self.max_cell_value - self.cell_count,
            ;
        }
        (min_value as u64 + n * spread) as u32
    }

    /// The spread term of the greatest sum is nonnegative, so the least sum
    /// never exceeds the greatest one.
    proof fn lemma_min_le_max(self)
        requires
            self.wf(),
        ensures
            0 <= self.spec_min_sum() <= self.spec_max_sum(),
    {
        assert(0 <= self.cell_count * (self.cell_count + 1)) by (nonlinear_arith);
        assert(0 <= self.cell_count * (self.max_cell_value - self.cell_count)) by (nonlinear_arith)
            requires
                self.cell_count <= self.max_cell_value,
        ;
    }

    /// In a candidate tuple whose first position has reached its bound,
    /// every later position has reached its bound too: the tuple is the
    /// greatest one.
    proof fn lemma_top_at(self, t: Seq<u32>, k: int)
        requires
            self.tuple_ok(t),
            1 <= t.len(),
            t[0] == self.spec_bound(0),
            0 <= k < t.len(),
        ensures
            t[k] == self.spec_bound(k),
        decreases k,
    {
        if k > 0 {
            self.lemma_top_at(t, k - 1);
            self.lemma_tuple_upper(t, k);
            assert(t[k - 1] < t[k]);
        }
    }

    /// Finds all combinations of cell values that sum to the given total:
    /// every strictly increasing tuple over the domain with that sum, each
    /// exactly once, in ascending lexicographic order. A cage of zero cells
    /// has a single, empty, candidate tuple, whose sum is zero.
    pub fn find_combinations(&self, total: u32) -> (r: Vec<Vec<u32>>)
        requires
            self.wf(),
            self.fits(),
        ensures
            self.combos_spec(total, views_of(r@)),
    {
        let mut solutions: Vec<Vec<u32>> = Vec::new();

        if self.cell_count == 0 {
            if total == 0 {
                let empty_tuple: Vec<u32> = Vec::new();
                solutions.push(empty_tuple);
            }
            proof {
                if total == 0 {
                    assert(views_of(solutions@)[0] =~= Seq::<u32>::empty());
                }
                assert forall|t: Seq<u32>| #[trigger] self.combo_ok(total, t) implies views_of(
                    solutions@,
                ).contains(t) by {
                    assert(t =~= Seq::<u32>::empty());
                    assert(seq_sum(t) == 0);
                    assert(views_of(solutions@)[0] == t);
                }
            }
            return solutions;
        }

        let n = self.cell_count as usize;
        let mut values: Vec<u32> = Vec::new();
        let mut idx: usize = 0;
        while idx < n
            invariant
                idx <= n,
                n == self.cell_count,
                self.wf(),
                values@.len() == idx,
                forall|k: int| 0 <= k < idx ==> values@[k] == k + 1,
            decreases n - idx,
        {
            values.push((idx as u32) + 1);
            idx = idx + 1;
        }
        proof {
            self.lemma_least_tuple();
            assert(values@ =~= self.least_tuple());
            self.lemma_sum_le_max(values@);
        }

        let s = sum_values(&values);
        if s == total {
            let tuple_copy = copy_values(&values);
            solutions.push(tuple_copy);
        }
        proof {
            assert forall|t: Seq<u32>|
                #[trigger] self.combo_ok(total, t) && lex_le(t, values@) implies views_of(
                solutions@,
            ).contains(t) by {
                assert forall|k: int| 0 <= k < t.len() implies values@[k] <= t[k] by {
                    self.lemma_tuple_lower(t, k);
                }
                lemma_lex_pointwise(values@, t);
                if t != values@ {
                    lemma_lex_transitive(t, values@, t);
                    lemma_lex_irreflexive(t);
                }
                assert(t == values@);
                assert(views_of(solutions@)[0] == t);
            }
        }

        while values[0] < self.max_positional_value(0)
            invariant
                self.wf(),
                self.fits(),
                1 <= self.cell_count,
                n == self.cell_count,
                self.tuple_ok(values@),
                forall|p: int|
                    0 <= p < solutions@.len() ==> self.combo_ok(
                        total,
                        #[trigger] views_of(solutions@)[p],
                    ),
                forall|p: int|
                    0 <= p < solutions@.len() ==> lex_le(
                        #[trigger] views_of(solutions@)[p],
                        values@,
                    ),
                forall|p: int, q: int|
                    0 <= p < q < solutions@.len() ==> lex_lt(
                        #[trigger] views_of(solutions@)[p],
                        #[trigger] views_of(solutions@)[q],
                    ),
                forall|t: Seq<u32>|
                    #[trigger] self.combo_ok(total, t) && lex_le(t, values@) ==> views_of(
                        solutions@,
                    ).contains(t),
            decreases pow(self.max_cell_value + 1, self.cell_count as nat) - seq_num(
                values@,
                self.max_cell_value + 1,
            ),
        {
            let ghost prev = values@;
            let ghost old_solutions = solutions@;
            self.advance(&mut values);
            proof {
                self.lemma_sum_le_max(values@);
            }
            let s2 = sum_values(&values);
            if s2 == total {
                let tuple_copy = copy_values(&values);
                solutions.push(tuple_copy);
                proof {
                    assert(views_of(solutions@) =~= views_of(old_solutions).push(values@));
                }
            }
            proof {
                assert forall|p: int| 0 <= p < old_solutions.len() implies lex_lt(
                    #[trigger] views_of(old_solutions)[p],
                    values@,
                ) by {
                    lemma_lex_le_lt_transitive(views_of(old_solutions)[p], prev, values@);
                }
                assert forall|t: Seq<u32>|
                    #[trigger] self.combo_ok(total, t) && lex_le(t, values@) implies views_of(
                    solutions@,
                ).contains(t) by {
                    if lex_le(t, prev) {
                        let p = choose|p: int|
                            0 <= p < views_of(old_solutions).len() && views_of(old_solutions)[p]
                                == t;
                        assert(views_of(solutions@)[p] == t);
                    } else {
                        lemma_lex_trichotomy(t, prev);
                        assert(lex_lt(prev, t));
                        assert(lex_le(values@, t));
                        if t != values@ {
                            lemma_lex_transitive(t, values@, t);
                            lemma_lex_irreflexive(t);
                        }
                        assert(t == values@);
                        assert(views_of(solutions@)[views_of(solutions@).len() - 1] == t);
                    }
                }
                lemma_lex_lt_seq_num(prev, values@, self.max_cell_value + 1);
                lemma_seq_num_bounds(values@, self.max_cell_value + 1);
            }
        }

        proof {
            self.lemma_tuple_upper(values@, 0);
            assert forall|t: Seq<u32>| #[trigger] self.combo_ok(total, t) implies views_of(
                solutions@,
            ).contains(t) by {
                assert forall|k: int| 0 <= k < t.len() implies t[k] <= values@[k] by {
                    self.lemma_tuple_upper(t, k);
                    self.lemma_top_at(values@, k);
                }
                lemma_lex_pointwise(t, values@);
            }
        }
        solutions
    }

    /// Strict growth within the domain caps each position at its bound.
    proof fn lemma_tuple_upper(self, t: Seq<u32>, i: int)
        requires
            self.tuple_ok(t),
            0 <= i < t.len(),
        ensures
            t[i] <= self.spec_bound(i),
        decreases t.len() - i,
    {
        if i < t.len() - 1 {
            self.lemma_tuple_upper(t, i + 1);
        }
    }

    /// Strict growth from 1 upward forces each position to at least `i + 1`.
    proof fn lemma_tuple_lower(self, t: Seq<u32>, i: int)
        requires
            self.tuple_ok(t),
            0 <= i < t.len(),
        ensures
            t[i] >= i + 1,
        decreases i,
    {
        if i > 0 {
            self.lemma_tuple_lower(t, i - 1);
        }
    }

    /// The least candidate tuple is a candidate tuple and realises the least
    /// sum.
    proof fn lemma_least_tuple(self)
        requires
            self.wf(),
        ensures
            self.tuple_ok(self.least_tuple()),
            seq_sum(self.least_tuple()) == self.spec_min_sum(),
        decreases self.cell_count,
    {
        if self.cell_count == 0 {
        } else {
            let smaller = KillerCage {
                max_cell_value: self.max_cell_value,
                cell_count: (self.cell_count - 1) as u32,
            };
            smaller.lemma_least_tuple();
            assert(self.least_tuple().drop_last() =~= smaller.least_tuple());
            assert(seq_sum(self.least_tuple()) == smaller.spec_min_sum() + self.cell_count);
            assert(smaller.spec_min_sum() + self.cell_count == self.spec_min_sum())
                by (nonlinear_arith)
                requires
                    smaller.cell_count == self.cell_count - 1,
                    1 <= self.cell_count,
                    smaller.spec_min_sum() == (smaller.cell_count * (smaller.cell_count + 1)) / 2,
                    self.spec_min_sum() == (self.cell_count * (self.cell_count + 1)) / 2,
            ;
        }
    }

    /// The greatest candidate tuple is a candidate tuple and realises the
    /// greatest sum.
    proof fn lemma_greatest_tuple(self)
        requires
            self.wf(),
        ensures
            self.tuple_ok(self.greatest_tuple()),
            seq_sum(self.greatest_tuple()) == self.spec_max_sum(),
        decreases self.cell_count,
    {
        if self.cell_count == 0 {
        } else {
            let smaller = KillerCage {
                max_cell_value: (self.max_cell_value - 1) as u32,
                cell_count: (self.cell_count - 1) as u32,
            };
            smaller.lemma_greatest_tuple();
            assert(self.greatest_tuple().drop_last() =~= smaller.greatest_tuple());
            assert(seq_sum(self.greatest_tuple()) == smaller.spec_max_sum()
                + self.max_cell_value);
            assert(smaller.spec_max_sum() + self.max_cell_value == self.spec_max_sum())
                by (nonlinear_arith)
                requires
                    smaller.cell_count == self.cell_count - 1,
                    smaller.max_cell_value == self.max_cell_value - 1,
                    1 <= self.cell_count <= self.max_cell_value,
                    smaller.spec_max_sum() == (smaller.cell_count * (smaller.cell_count + 1)) / 2
                        + smaller.cell_count * (smaller.max_cell_value - smaller.cell_count),
                    self.spec_max_sum() == (self.cell_count * (self.cell_count + 1)) / 2
                        + self.cell_count * (self.max_cell_value - self.cell_count),
            ;
        }
    }

    /// With at least two cells, the sum bound leaves room above
    /// `max_cell_value`: the greatest sum already contains the top two values.
    proof fn lemma_room_above(self)
        requires
            self.wf(),
            self.fits(),
            2 <= self.cell_count,
        ensures
            self.max_cell_value + 1 <= u32::MAX,
    {
        self.lemma_greatest_tuple();
        let g = self.greatest_tuple();
        let n = self.cell_count as int;
        lemma_sum_nonneg(g.drop_last().drop_last());
        assert(seq_sum(g) == seq_sum(g.drop_last()) + g.last());
        assert(seq_sum(g.drop_last()) == seq_sum(g.drop_last().drop_last())
            + g.drop_last().last());
        assert(g.drop_last().last() == g[n - 2]);
        assert(g[n - 1] == self.max_cell_value);
        assert(g[n - 2] == self.max_cell_value - 1);
    }

    /// `j` is the deepest position still below its bound; everything after
    /// it is saturated.
    pub open spec fn is_pivot(self, t: Seq<u32>, j: int) -> bool {
        &&& 0 <= j < t.len()
        &&& t[j] < self.spec_bound(j)
        &&& forall|k: int| j < k < t.len() ==> #[trigger] t[k] == self.spec_bound(k)
    }

    proof fn lemma_pivot_from(self, t: Seq<u32>, i: int)
        requires
            self.tuple_ok(t),
            1 <= t.len(),
            t[0] < self.spec_bound(0),
            0 <= i < t.len(),
            forall|k: int| i < k < t.len() ==> #[trigger] t[k] == self.spec_bound(k),
        ensures
            exists|j: int| self.is_pivot(t, j),
        decreases i,
    {
        if t[i] < self.spec_bound(i) {
            assert(self.is_pivot(t, i));
        } else {
            self.lemma_tuple_upper(t, i);
            self.lemma_pivot_from(t, i - 1);
        }
    }

    /// A candidate tuple whose first position is below its bound has a pivot.
    proof fn lemma_pivot_exists(self, t: Seq<u32>)
        requires
            self.tuple_ok(t),
            1 <= t.len(),
            t[0] < self.spec_bound(0),
        ensures
            exists|j: int| self.is_pivot(t, j),
    {
        self.lemma_pivot_from(t, t.len() - 1);
    }

    /// No candidate tuple outsums the greatest one.
    proof fn lemma_sum_le_max(self, t: Seq<u32>)
        requires
            self.wf(),
            self.tuple_ok(t),
        ensures
            0 <= seq_sum(t) <= self.spec_max_sum(),
    {
        lemma_sum_nonneg(t);
        self.lemma_greatest_tuple();
        assert forall|k: int| 0 <= k < t.len() implies t[k] <= self.greatest_tuple()[k] by {
            self.lemma_tuple_upper(t, k);
        }
        lemma_sum_pointwise_le(t, self.greatest_tuple());
    }

    /// Advances a candidate tuple to its immediate successor: the least
    /// candidate tuple lexicographically above the current one. One odometer
    /// step: bump the last position, carry overflow toward the front, then
    /// reset the overflowed tail to run up from its settled predecessor.
    fn advance(&self, values: &mut Vec<u32>)
        requires
            self.wf(),
            self.fits(),
            1 <= self.cell_count,
            self.tuple_ok(old(values)@),
            old(values)@[0] < self.spec_bound(0),
        ensures
            self.tuple_ok(final(values)@),
            lex_lt(old(values)@, final(values)@),
            forall|t: Seq<u32>| self.tuple_ok(t) && lex_lt(old(values)@, t) ==> lex_le(
                final(values)@,
                t,
            ),
    {
        let ghost start = values@;
        proof {
            self.lemma_pivot_exists(start);
            if self.cell_count >= 2 {
                self.lemma_room_above();
            }
        }
        let ghost j = choose|j: int| self.is_pivot(start, j);
        let n = self.cell_count as usize;

        let last_val = values[n - 1];
        proof {
            self.lemma_tuple_upper(start, n - 1);
        }
        values.set(n - 1, last_val + 1);

        let mut i: usize = n - 1;
        while 1 <= i
            invariant
                self.wf(),
                self.fits(),
                1 <= self.cell_count,
                n == self.cell_count,
                self.tuple_ok(start),
                start[0] < self.spec_bound(0),
                self.is_pivot(start, j),
                values@.len() == n,
                i < n,
                2 <= n ==> self.max_cell_value + 1 <= u32::MAX,
                j + 1 <= i ==> (forall|k: int| 0 <= k < i ==> values@[k] == start[k]) && (forall|
                    k: int,
                | i <= k < n ==> values@[k] == start[k] + 1),
                i <= j ==> (forall|k: int| 0 <= k < j ==> values@[k] == start[k]) && values@[j]
                    == start[j] + 1 && (forall|k: int|
                    j < k < n ==> values@[k] == self.spec_bound(k) + 1),
            decreases i,
        {
            let b = self.max_positional_value(i);
            proof {
                if i <= j {
                    self.lemma_tuple_upper(start, i as int);
                }
                if j + 1 <= i {
                    self.lemma_tuple_upper(start, i - 1);
                }
            }
            if values[i] > b {
                let w = values[i - 1];
                values.set(i - 1, w + 1);
            }
            i = i - 1;
        }

        let ghost fin = Seq::new(
            n as nat,
            |k: int| if k < j { start[k] } else { (start[j] + 1 + (k - j)) as u32 },
        );
        proof {
            assert forall|k: int| j <= k < n implies 1 <= start[j] + 1 + (k - j) <= #[trigger] self.spec_bound(
                k,
            ) by {
                self.lemma_tuple_lower(start, j);
            }
            assert forall|k: int| 0 <= k < n implies 1 <= fin[k] && fin[k] <= self.spec_bound(k)
                && (j <= k ==> fin[k] == start[j] + 1 + (k - j)) by {
                if k < j {
                    self.lemma_tuple_lower(start, k);
                    self.lemma_tuple_upper(start, k);
                }
            }
        }

        let mut i2: usize = 1;
        while i2 < n
            invariant
                self.wf(),
                self.fits(),
                1 <= self.cell_count,
                n == self.cell_count,
                self.tuple_ok(start),
                self.is_pivot(start, j),
                values@.len() == n,
                1 <= i2 <= n,
                fin.len() == n,
                forall|k: int| 0 <= k < j ==> #[trigger] fin[k] == start[k],
                forall|k: int| j <= k < n ==> #[trigger] fin[k] == start[j] + 1 + (k - j),
                forall|k: int| 0 <= k < n ==> 1 <= #[trigger] fin[k] <= self.spec_bound(k),
                forall|k: int| 0 <= k < i2 ==> values@[k] == fin[k],
                forall|k: int| i2 <= k < n && k < j ==> values@[k] == start[k],
                i2 <= j ==> values@[j] == start[j] + 1,
                forall|k: int| j < k < n && i2 <= k ==> values@[k] == self.spec_bound(k) + 1,
            decreases n - i2,
        {
            let b = self.max_positional_value(i2);
            proof {
                if i2 < j {
                    self.lemma_tuple_upper(start, i2 as int);
                    assert(values@[i2 as int] == start[i2 as int]);
                } else if i2 == j {
                    assert(values@[i2 as int] == start[j] + 1);
                    assert(fin[j] == start[j] + 1);
                } else {
                    assert(values@[i2 as int] == self.spec_bound(i2 as int) + 1);
                    assert(values@[i2 - 1] == fin[i2 - 1]);
                    assert(fin[i2 - 1] == start[j] + 1 + (i2 - 1 - j));
                    assert(fin[i2 - 1] <= self.spec_bound(i2 - 1));
                }
            }
            if values[i2] > b {
                let w = values[i2 - 1];
                values.set(i2, w + 1);
                proof {
                    assert(fin[i2 as int] == start[j] + 1 + (i2 - j));
                    assert(values@[i2 as int] == fin[i2 as int]);
                }
            }
            i2 = i2 + 1;
        }

        proof {
            assert(values@ =~= fin);
            self.lemma_successor_props(start, fin, j);
        }
    }

    /// The run-up tuple built at the pivot is the immediate successor: a
    /// candidate tuple itself, strictly above the start, and at or below
    /// every candidate tuple strictly above the start.
    proof fn lemma_successor_props(self, start: Seq<u32>, fin: Seq<u32>, j: int)
        requires
            self.tuple_ok(start),
            self.is_pivot(start, j),
            fin.len() == start.len(),
            forall|k: int| 0 <= k < j ==> #[trigger] fin[k] == start[k],
            forall|k: int| j <= k < fin.len() ==> #[trigger] fin[k] == start[j] + 1 + (k - j),
        ensures
            self.tuple_ok(fin),
            lex_lt(start, fin),
            forall|t: Seq<u32>| self.tuple_ok(t) && lex_lt(start, t) ==> lex_le(fin, t),
    {
        assert forall|k: int| 0 <= k < fin.len() implies 1 <= #[trigger] fin[k]
            <= self.spec_bound(k) by {
            self.lemma_tuple_lower(start, k);
            self.lemma_tuple_upper(start, k);
            if k >= j {
                self.lemma_tuple_lower(start, j);
            }
        }
        assert forall|k: int| 0 <= k < fin.len() - 1 implies #[trigger] fin[k] < fin[k + 1] by {
            if k + 1 < j {
                assert(start[k] < start[k + 1]);
            } else if k + 1 == j {
                assert(start[k] < start[j]);
            }
        }
        assert(self.tuple_ok(fin));
        lemma_lex_from_diff(start, fin, j);
        assert forall|t: Seq<u32>| self.tuple_ok(t) && lex_lt(start, t) implies lex_le(
            fin,
            t,
        ) by {
            lemma_lex_to_diff(start, t);
            let d = choose|d: int|
                0 <= d < start.len() && start[d] < t[d] && (forall|k: int|
                    0 <= k < d ==> start[k] == t[k]);
            if d > j {
                self.lemma_tuple_upper(t, d);
                assert(t[d] <= self.spec_bound(d));
                assert(start[d] == self.spec_bound(d));
                assert(false);
            } else if d < j {
                lemma_lex_from_diff(fin, t, d);
            } else {
                if t[j] > fin[j] {
                    lemma_lex_from_diff(fin, t, j);
                } else {
                    assert(t[j] >= start[j] + 1);
                    assert(t[j] == fin[j]);
                    assert forall|k: int| 0 <= k < fin.len() implies #[trigger] fin[k]
                        <= t[k] by {
                        if k >= j {
                            lemma_run_up_below(t, fin, j, k);
                        }
                    }
                    lemma_lex_pointwise(fin, t);
                }
            }
        }
    }
}

/// Law: an enumeration for the least achievable sum holds exactly one tuple,
/// `[1, 2, ..., cell_count]`.
pub proof fn lemma_combinations_at_minimum(cage: KillerCage, total: u32, rs: Seq<Seq<u32>>)
    requires
        cage.wf(),
        total == cage.spec_min_sum(),
        cage.combos_spec(total, rs),
    ensures
        rs =~= seq![cage.least_tuple()],
{
    cage.lemma_least_tuple();
    assert(cage.combo_ok(total, cage.least_tuple()));
    assert(rs.contains(cage.least_tuple()));
    assert forall|p: int| 0 <= p < rs.len() implies rs[p] == cage.least_tuple() by {
        assert(cage.combo_ok(total, rs[p]));
        assert forall|k: int| 0 <= k < rs[p].len() implies cage.least_tuple()[k]
            <= rs[p][k] by {
            cage.lemma_tuple_lower(rs[p], k);
        }
        lemma_sum_pointwise_le_equal(cage.least_tuple(), rs[p]);
    }
    if rs.len() >= 2 {
        assert(lex_lt(rs[0], rs[1]));
        lemma_lex_irreflexive(rs[0]);
    }
    let i0 = choose|i: int| 0 <= i < rs.len() && rs[i] == cage.least_tuple();
    assert(rs.len() == 1);
}

/// Law: an enumeration for the greatest achievable sum holds exactly one
/// tuple, the top `cell_count` values of the domain in ascending order.
pub proof fn lemma_combinations_at_maximum(cage: KillerCage, total: u32, rs: Seq<Seq<u32>>)
    requires
        cage.wf(),
        total == cage.spec_max_sum(),
        cage.combos_spec(total, rs),
    ensures
        rs =~= seq![cage.greatest_tuple()],
{
    cage.lemma_greatest_tuple();
    assert(cage.combo_ok(total, cage.greatest_tuple()));
    assert(rs.contains(cage.greatest_tuple()));
    assert forall|p: int| 0 <= p < rs.len() implies rs[p] == cage.greatest_tuple() by {
        assert(cage.combo_ok(total, rs[p]));
        assert forall|k: int| 0 <= k < rs[p].len() implies rs[p][k]
            <= cage.greatest_tuple()[k] by {
            cage.lemma_tuple_upper(rs[p], k);
        }
        lemma_sum_pointwise_le_equal(rs[p], cage.greatest_tuple());
    }
    if rs.len() >= 2 {
        assert(lex_lt(rs[0], rs[1]));
        lemma_lex_irreflexive(rs[0]);
    }
    let i0 = choose|i: int| 0 <= i < rs.len() && rs[i] == cage.greatest_tuple();
    assert(rs.len() == 1);
}

/// Law: an enumeration never repeats a tuple; strict lexicographic order
/// admits no equal pair.
pub proof fn lemma_combinations_distinct(cage: KillerCage, total: u32, rs: Seq<Seq<u32>>)
    requires
        cage.combos_spec(total, rs),
    ensures
        forall|p: int, q: int| 0 <= p < q < rs.len() ==> rs[p] != rs[q],
{
    assert forall|p: int, q: int| 0 <= p < q < rs.len() implies rs[p] != rs[q] by {
        assert(lex_lt(rs[p], rs[q]));
        lemma_lex_irreflexive(rs[p]);
    }
}

/// After a shared prefix, a strictly increasing sequence stays at or above
/// one that merely counts up by one from the shared position.
proof fn lemma_run_up_below(t: Seq<u32>, u: Seq<u32>, j: int, k: int)
    requires
        t.len() == u.len(),
        0 <= j <= k < t.len(),
        forall|i: int| 0 <= i < t.len() - 1 ==> #[trigger] t[i] < t[i + 1],
        forall|i: int| j <= i < u.len() ==> #[trigger] u[i] == u[j] + (i - j),
        t[j] >= u[j],
    ensures
        t[k] >= u[k],
    decreases k - j,
{
    if k > j {
        lemma_run_up_below(t, u, j, k - 1);
        assert(t[k - 1] < t[k]);
    }
}

/// Copies a tuple out of the working buffer.
fn copy_values(values: &Vec<u32>) -> (r: Vec<u32>)
    ensures
        r@ == values@,
{
    let mut r: Vec<u32> = Vec::new();
    let mut i: usize = 0;
    while i < values.len()
        invariant
            i <= values.len(),
            r@ =~= values@.take(i as int),
        decreases values.len() - i,
    {
        r.push(values[i]);
        assert(r@ =~= values@.take(i + 1));
        i = i + 1;
    }
    assert(values@.take(values@.len() as int) =~= values@);
    r
}

/// Sums the working buffer; the caller guarantees the total fits.
fn sum_values(values: &Vec<u32>) -> (s: u32)
    requires
        seq_sum(values@) <= u32::MAX,
    ensures
        s == seq_sum(values@),
{
    let mut s: u32 = 0;
    let mut i: usize = 0;
    while i < values.len()
        invariant
            i <= values.len(),
            s == seq_sum(values@.take(i as int)),
            seq_sum(values@) <= u32::MAX,
        decreases values.len() - i,
    {
        proof {
            lemma_sum_take_step(values@, i as int);
            lemma_sum_take_le(values@, i + 1);
            lemma_sum_nonneg(values@.take(i as int));
        }
        s = s + values[i];
        i = i + 1;
    }
    assert(values@.take(values@.len() as int) =~= values@);
    s
}

} // verus!
