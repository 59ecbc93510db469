use vstd::prelude::*;

use crate::helpers::{binary_search, is_sorted, is_strictly_increasing};

verus! {

/// One recorded contribution: a time in ticks and the field values of an
/// observable, in the observable's declared field order.
pub type Sample = (int, Seq<int>);

/// A finalized slot: its time, its number of samples and the sum of each
/// field over those samples. The ensemble mean of field `j` is
/// `sums[j] / count`.
pub type SlotView = (int, nat, Seq<int>);

pub open spec fn sample_of(t: i64, fields: Seq<i64>) -> Sample {
    (t as int, fields.map_values(|v: i64| v as int))
}

/// `a / b` rounded up, for `a >= 0` and `b > 0`.
pub open spec fn ceil_div(a: int, b: int) -> int {
    if a % b == 0 {
        a / b
    } else {
        a / b + 1
    }
}

/// Whether the last point of the grid built from `dt` and `t_max` fits in an `i64`.
pub open spec fn grid_fits(dt: int, t_max: int) -> bool {
    ceil_div(t_max, dt) * dt <= i64::MAX
}

/// The number of samples of `s` taken at time `t`.
pub open spec fn count_of(s: Seq<Sample>, t: int) -> nat
    decreases s.len(),
{
    if s.len() == 0 {
        0
    } else {
        count_of(s.drop_last(), t) + if s.last().0 == t {
            1nat
        } else {
            0nat
        }
    }
}

/// The sum of field `j` over the samples of `s` taken at time `t`.
pub open spec fn sum_of(s: Seq<Sample>, t: int, j: int) -> int
    decreases s.len(),
{
    if s.len() == 0 {
        0
    } else {
        sum_of(s.drop_last(), t, j) + if s.last().0 == t {
            s.last().1[j]
        } else {
            0
        }
    }
}

/// The slot that the samples of `s` at time `t` make.
pub open spec fn slot_of(s: Seq<Sample>, t: int, width: nat) -> SlotView {
    (t, count_of(s, t), Seq::new(width, |j: int| sum_of(s, t, j)))
}

/// The finalized ensemble: one slot per grid time that received a sample,
/// in grid order; grid times without a sample are left out.
pub open spec fn finalized(grid: Seq<i64>, width: nat, s: Seq<Sample>) -> Seq<SlotView>
    decreases grid.len(),
{
    if grid.len() == 0 {
        Seq::empty()
    } else {
        let rest = finalized(grid.drop_last(), width, s);
        if count_of(s, grid.last() as int) > 0 {
            rest.push(slot_of(s, grid.last() as int, width))
        } else {
            rest
        }
    }
}

/// A configuration that admits no grid.
#[derive(Debug, Clone, Copy, PartialEq, Eq)]
pub enum ConfigError {
    /// The grid step is zero or negative.
    NonPositiveStep,
    /// The horizon is negative.
    NegativeHorizon,
    /// The last grid point does not fit in an `i64`.
    GridOverflow,
}

/// One slot of a finalized ensemble.
pub struct Slot {
    pub t: i64,
    pub count: u64,
    pub sums: Vec<i128>,
}

impl View for Slot {
    type V = SlotView;

    open spec fn view(&self) -> SlotView {
        (self.t as int, self.count as nat, self.sums@.map_values(|v: i128| v as int))
    }
}

/// Running sums and sample counts over a regular time grid.
pub struct Ensemble {
    time: Vec<i64>,
    sums: Vec<Vec<i128>>,
    am: Vec<u64>,
    width: usize,
    samples: Ghost<Seq<Sample>>,
}

/// The largest magnitude of an `i64`.
pub open spec fn field_bound() -> int {
    0x8000_0000_0000_0000
}

proof fn lemma_push(s: Seq<Sample>, x: Sample, t: int, j: int)
    ensures
        count_of(s.push(x), t) == count_of(s, t) + if x.0 == t {
            1nat
        } else {
            0nat
        },
        sum_of(s.push(x), t, j) == sum_of(s, t, j) + if x.0 == t {
            x.1[j]
        } else {
            0
        },
{
    assert(s.push(x).drop_last() =~= s);
}

impl Ensemble {
    /// The grid times, in ticks.
    pub closed spec fn grid(&self) -> Seq<i64> {
        self.time@
    }

    /// The number of fields of each observable.
    pub closed spec fn width(&self) -> nat {
        self.width as nat
    }

    /// The contributions recorded so far, in the order they came.
    pub closed spec fn samples(&self) -> Seq<Sample> {
        self.samples@
    }

    pub closed spec fn wf(&self) -> bool {
        &&& self.time@.len() >= 1
        &&& is_strictly_increasing(self.time@)
        &&& self.sums@.len() == self.time@.len()
        &&& self.am@.len() == self.time@.len()
        &&& forall|k: int|
            0 <= k < self.samples@.len() ==> (#[trigger] self.samples@[k]).1.len() == self.width
        &&& forall|i: int|
            0 <= i < self.time@.len() ==> (#[trigger] self.sums@[i])@.len() == self.width
        &&& forall|i: int|
            0 <= i < self.time@.len() ==> #[trigger] self.am@[i] == count_of(
                self.samples@,
                self.time@[i] as int,
            )
        &&& forall|i: int, j: int|
            0 <= i < self.time@.len() && 0 <= j < self.width ==> {
                &&& #[trigger] self.sums@[i]@[j] == sum_of(self.samples@, self.time@[i] as int, j)
                &&& -(self.am@[i] * field_bound()) <= self.sums@[i]@[j] <= self.am@[i]
                    * field_bound()
            }
    }
}

/// A vector of `width` zeros.
fn zero_row(width: usize) -> (r: Vec<i128>)
    ensures
        r@.len() == width,
        forall|j: int| 0 <= j < width ==> r@[j] == 0,
{
    let mut r: Vec<i128> = Vec::new();
    let mut j: usize = 0;
    while j < width
        invariant
            j <= width,
            r@.len() == j,
            forall|jj: int| 0 <= jj < j ==> r@[jj] == 0,
        decreases width - j,
    {
        r.push(0);
        j = j + 1;
    }
    r
}

impl Ensemble {
    /// Builds the grid `0, dt, 2 dt, ...` up to and including the first
    /// point at or above `t_max`, with empty slots for observables of
    /// `width` fields.
    pub fn new(dt: i64, t_max: i64, width: usize) -> (r: Result<Ensemble, ConfigError>)
        ensures
            match r {
                Ok(e) => {
                    &&& dt > 0 && t_max >= 0 && grid_fits(dt as int, t_max as int)
                    &&& e.wf()
                    &&& e.width() == width
                    &&& e.samples() == Seq::<Sample>::empty()
                    &&& e.grid().len() == ceil_div(t_max as int, dt as int) + 1
                    &&& forall|k: int| 0 <= k < e.grid().len() ==> e.grid()[k] == k * dt
                    &&& is_strictly_increasing(e.grid())
                },
                Err(ConfigError::NonPositiveStep) => dt <= 0,
                Err(ConfigError::NegativeHorizon) => dt > 0 && t_max < 0,
                Err(ConfigError::GridOverflow) => dt > 0 && t_max >= 0 && !grid_fits(
                    dt as int,
                    t_max as int,
                ),
            },
    {
        if dt <= 0 {
            return Err(ConfigError::NonPositiveStep);
        }
        if t_max < 0 {
            return Err(ConfigError::NegativeHorizon);
        }
        let d = dt as u64;
        let tm = t_max as u64;
        let q = tm / d;
        let n: u64 = if tm % d == 0 {
            q
        } else {
            q + 1
        };
        assert(n == ceil_div(t_max as int, dt as int));
        assert(n <= 0x8000_0000_0000_0000);
        assert((n as int) * (d as int) <= 0x4000_0000_0000_0000_0000_0000_0000_0000) by (nonlinear_arith)
            requires
                n <= 0x8000_0000_0000_0000,
                d <= 0x8000_0000_0000_0000,
        ;
        if (n as u128) * (d as u128) > 0x7fff_ffff_ffff_ffff {
            return Err(ConfigError::GridOverflow);
        }
        let mut time: Vec<i64> = Vec::new();
        let mut sums: Vec<Vec<i128>> = Vec::new();
        let mut am: Vec<u64> = Vec::new();
        let mut k: u64 = 0;
        let mut cur: i64 = 0;
        while k <= n
            invariant
                dt > 0,
                k <= n + 1,
                n <= 0x8000_0000_0000_0000,
                n * dt <= i64::MAX,
                k <= n ==> cur == k * dt,
                time@.len() == k,
                sums@.len() == k,
                am@.len() == k,
                forall|i: int| 0 <= i < k ==> time@[i] == i * dt,
                forall|i: int| 0 <= i < k ==> (#[trigger] sums@[i])@.len() == width,
                forall|i: int, j: int|
                    0 <= i < k && 0 <= j < width ==> #[trigger] sums@[i]@[j] == 0,
                forall|i: int| 0 <= i < k ==> am@[i] == 0,
            decreases n + 1 - k,
        {
            time.push(cur);
            sums.push(zero_row(width));
            am.push(0);
            if k < n {
                assert((k + 1) * dt == k * dt + dt) by (nonlinear_arith);
                assert((k + 1) * dt <= n * dt) by (nonlinear_arith)
                    requires
                        k + 1 <= n,
                        dt > 0,
                ;
                cur = cur + dt;
            }
            k = k + 1;
        }
        let e = Ensemble { time, sums, am, width, samples: Ghost(Seq::empty()) };
        proof {
            assert forall|i: int, j: int| 0 <= i < j < e.time@.len() implies e.time@[i]
                < e.time@[j] by {
                assert(i * dt < j * dt) by (nonlinear_arith)
                    requires
                        i < j,
                        dt > 0,
                ;
            }
        }
        Ok(e)
    }
}

impl Ensemble {
    /// Records the observable `fields` measured at time `t`.
    ///
    /// The contribution goes to the grid slot whose time is `t` and
    /// `Some` of that slot's index is returned. It is discarded, and `None`
    /// returned, where no grid point equals `t`, or where that slot already
    /// holds `u64::MAX` samples.
    pub fn add(&mut self, t: i64, fields: &Vec<i64>) -> (r: Option<usize>)
        requires
            old(self).wf(),
            fields@.len() == old(self).width(),
        ensures
            final(self).wf(),
            final(self).grid() == old(self).grid(),
            final(self).width() == old(self).width(),
            r is Some <==> (old(self).grid().contains(t) && count_of(old(self).samples(), t as int)
                < u64::MAX),
            r matches Some(i) ==> i < old(self).grid().len() && old(self).grid()[i as int] == t,
            final(self).samples() == (if r is Some {
                old(self).samples().push(sample_of(t, fields@))
            } else {
                old(self).samples()
            }),
    {
        proof {
            assert(is_sorted(self.time@));
        }
        let found = binary_search(t, self.time.as_slice());
        let i = match found {
            None => {
                return None;
            },
            Some(i) => i,
        };
        if self.am[i] == u64::MAX {
            return None;
        }
        let ghost old_s = self.samples@;
        let ghost x = sample_of(t, fields@);
        let mut row: Vec<i128> = Vec::new();
        let mut j: usize = 0;
        while j < self.width
            invariant
                self.wf(),
                i < self.time@.len(),
                self.am@[i as int] < u64::MAX,
                fields@.len() == self.width,
                j <= self.width,
                row@.len() == j,
                forall|jj: int| 0 <= jj < j ==> row@[jj] == self.sums@[i as int]@[jj] + fields@[jj],
            decreases self.width - j,
        {
            assert(-(self.am@[i as int] * field_bound()) <= self.sums@[i as int]@[j as int]
                <= self.am@[i as int] * field_bound());
            row.push(self.sums[i][j] + fields[j] as i128);
            j = j + 1;
        }
        let ghost old_sums = self.sums@;
        let ghost old_am = self.am@;
        self.sums.set(i, row);
        self.am.set(i, self.am[i] + 1);
        self.samples = Ghost(old_s.push(x));
        proof {
            assert forall|k: int| 0 <= k < self.samples@.len() implies (
            #[trigger] self.samples@[k]).1.len() == self.width by {
                if k < old_s.len() {
                    assert(self.samples@[k] == old_s[k]);
                }
            }
            assert forall|k: int| 0 <= k < self.time@.len() implies #[trigger] self.am@[k]
                == count_of(self.samples@, self.time@[k] as int) by {
                lemma_push(old_s, x, self.time@[k] as int, 0);
                if k != i {
                    assert(self.time@[k] != self.time@[i as int]);
                }
            }
            assert forall|k: int, jj: int| 0 <= k < self.time@.len() && 0 <= jj < self.width implies {
                &&& #[trigger] self.sums@[k]@[jj] == sum_of(self.samples@, self.time@[k] as int, jj)
                &&& -(self.am@[k] * field_bound()) <= self.sums@[k]@[jj] <= self.am@[k]
                    * field_bound()
            } by {
                lemma_push(old_s, x, self.time@[k] as int, jj);
                if k != i {
                    assert(self.time@[k] != self.time@[i as int]);
                    assert(self.sums@[k] == old_sums[k]);
                } else {
                    assert(x.1[jj] == fields@[jj] as int);
                }
            }
        }
        Some(i)
    }

    /// Turns the accumulated sums into the finalized ensemble.
    ///
    /// The result holds one slot per grid time that received at least one
    /// sample, in grid order, with that slot's sample count and field sums;
    /// grid times that received none are dropped.
    pub fn finish(self) -> (r: Vec<Slot>)
        requires
            self.wf(),
        ensures
            r@.map_values(|s: Slot| s@) == finalized(self.grid(), self.width(), self.samples()),
    {
        let mut out: Vec<Slot> = Vec::new();
        let n = self.time.len();
        let mut k: usize = 0;
        while k < n
            invariant
                self.wf(),
                n == self.time@.len(),
                k <= n,
                out@.map_values(|s: Slot| s@) == finalized(
                    self.time@.take(k as int),
                    self.width as nat,
                    self.samples@,
                ),
            decreases n - k,
        {
            let ghost t = self.time@[k as int] as int;
            let ghost prev = out@.map_values(|s: Slot| s@);
            assert(self.time@.take(k + 1).drop_last() =~= self.time@.take(k as int));
            if self.am[k] != 0 {
                let mut row: Vec<i128> = Vec::new();
                let mut j: usize = 0;
                while j < self.width
                    invariant
                        self.wf(),
                        k < n,
                        n == self.time@.len(),
                        j <= self.width,
                        row@.len() == j,
                        forall|jj: int| 0 <= jj < j ==> row@[jj] == self.sums@[k as int]@[jj],
                    decreases self.width - j,
                {
                    row.push(self.sums[k][j]);
                    j = j + 1;
                }
                let slot = Slot { t: self.time[k], count: self.am[k], sums: row };
                assert(slot@.2 =~= Seq::new(self.width as nat, |j: int| sum_of(self.samples@, t, j)));
                out.push(slot);
                assert(out@.map_values(|s: Slot| s@) =~= prev.push(slot@));
            }
            k = k + 1;
        }
        assert(self.time@.take(n as int) =~= self.time@);
        out
    }
}

proof fn lemma_remove(s: Seq<Sample>, i: int, t: int, j: int)
    requires
        0 <= i < s.len(),
    ensures
        count_of(s, t) == count_of(s.remove(i), t) + if s[i].0 == t {
            1nat
        } else {
            0nat
        },
        sum_of(s, t, j) == sum_of(s.remove(i), t, j) + if s[i].0 == t {
            s[i].1[j]
        } else {
            0
        },
    decreases s.len(),
{
    if i == s.len() - 1 {
        assert(s.remove(i) =~= s.drop_last());
    } else {
        assert(s.remove(i).drop_last() =~= s.drop_last().remove(i));
        assert(s.remove(i).last() == s.last());
        lemma_remove(s.drop_last(), i, t, j);
    }
}

proof fn lemma_permutation(s1: Seq<Sample>, s2: Seq<Sample>, t: int, j: int)
    requires
        s1.to_multiset() == s2.to_multiset(),
    ensures
        count_of(s1, t) == count_of(s2, t),
        sum_of(s1, t, j) == sum_of(s2, t, j),
    decreases s1.len(),
{
    broadcast use vstd::seq_lib::group_to_multiset_ensures, vstd::multiset::group_multiset_axioms;

    if s1.len() == 0 {
        assert(s2.len() == s2.to_multiset().len());
        assert(s2 =~= Seq::<Sample>::empty());
    } else {
        let x = s1.last();
        let rest = s1.drop_last();
        assert(rest.push(x) =~= s1);
        assert(s1.to_multiset() == rest.to_multiset().insert(x));
        assert(s2.to_multiset().count(x) > 0);
        assert(s2.contains(x));
        let i = choose|i: int| 0 <= i < s2.len() && s2[i] == x;
        assert(s2.remove(i).to_multiset() == s2.to_multiset().remove(x));
        assert(rest.to_multiset() =~= rest.to_multiset().insert(x).remove(x));
        lemma_permutation(rest, s2.remove(i), t, j);
        lemma_remove(s2, i, t, j);
    }
}

/// The finalized ensemble depends on the recorded samples alone, not on
/// the order in which they were added: two histories that are permutations
/// of each other finalize to the same slots.
pub proof fn lemma_order_independent(
    grid: Seq<i64>,
    width: nat,
    s1: Seq<Sample>,
    s2: Seq<Sample>,
)
    requires
        s1.to_multiset() == s2.to_multiset(),
    ensures
        finalized(grid, width, s1) == finalized(grid, width, s2),
    decreases grid.len(),
{
    if grid.len() > 0 {
        lemma_order_independent(grid.drop_last(), width, s1, s2);
        let t = grid.last() as int;
        lemma_permutation(s1, s2, t, 0);
        assert forall|j: int| 0 <= j < width implies sum_of(s1, t, j) == sum_of(s2, t, j) by {
            lemma_permutation(s1, s2, t, j);
        }
        assert(Seq::new(width, |j: int| sum_of(s1, t, j)) =~= Seq::new(
            width,
            |j: int| sum_of(s2, t, j),
        ));
    }
}

/// Each finalized slot stands at a grid time, holds at least one sample,
/// and reports the count of exactly the samples taken at its time and the
/// sums of their fields; and every grid time that received a sample has a
/// slot.
pub proof fn lemma_finalized_slots(grid: Seq<i64>, width: nat, s: Seq<Sample>)
    ensures
        forall|k: int|
            0 <= k < finalized(grid, width, s).len() ==> {
                &&& (#[trigger] finalized(grid, width, s)[k]).1 > 0
                &&& finalized(grid, width, s)[k] == slot_of(
                    s,
                    finalized(grid, width, s)[k].0,
                    width,
                )
                &&& exists|i: int|
                    0 <= i < grid.len() && grid[i] as int == finalized(grid, width, s)[k].0
            },
        forall|i: int|
            0 <= i < grid.len() && count_of(s, #[trigger] grid[i] as int) > 0 ==> exists|k: int|
                0 <= k < finalized(grid, width, s).len() && (#[trigger] finalized(
                    grid,
                    width,
                    s,
                )[k]).0 == grid[i] as int,
    decreases grid.len(),
{
    if grid.len() > 0 {
        let g = grid.drop_last();
        lemma_finalized_slots(g, width, s);
        let rest = finalized(g, width, s);
        let out = finalized(grid, width, s);
        let t = grid.last() as int;
        assert forall|k: int| 0 <= k < out.len() implies {
            &&& (#[trigger] out[k]).1 > 0
            &&& out[k] == slot_of(s, out[k].0, width)
            &&& exists|i: int| 0 <= i < grid.len() && grid[i] as int == out[k].0
        } by {
            if k < rest.len() {
                assert(out[k] == rest[k]);
                let i = choose|i: int| 0 <= i < g.len() && g[i] as int == rest[k].0;
                assert(grid[i] == g[i]);
            } else {
                assert(grid[grid.len() - 1] as int == out[k].0);
            }
        }
        assert forall|i: int| 0 <= i < grid.len() && count_of(s, #[trigger] grid[i] as int) > 0 implies exists|k: int|
            0 <= k < out.len() && (#[trigger] out[k]).0 == grid[i] as int by {
            if i < g.len() {
                assert(g[i] == grid[i]);
                let k = choose|k: int| 0 <= k < rest.len() && (#[trigger] rest[k]).0 == g[i] as int;
                assert(out[k] == rest[k]);
            } else {
                assert(out[rest.len() as int].0 == t);
            }
        }
    }
}

} // verus!
