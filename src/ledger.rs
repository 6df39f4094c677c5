//! The resource ledger of one resource class: what is available of each
//! resource, and what each thread holds of it and still needs.
use crate::banker::{column_total, rows, well_shaped};
use vstd::prelude::*;

verus! {

/// Column totals agree when the column agrees on every row.
pub proof fn lemma_total_frame(a: Seq<Seq<usize>>, b: Seq<Seq<usize>>, j: int, n: int)
    requires
        forall|i: int| 0 <= i < n ==> a[i][j] == b[i][j],
    ensures
        column_total(a, j, n) == column_total(b, j, n),
    decreases n,
{
    if n > 0 {
        lemma_total_frame(a, b, j, n - 1);
    }
}

/// Changing one cell of a column changes its total by the same amount.
pub proof fn lemma_total_update(a: Seq<Seq<usize>>, b: Seq<Seq<usize>>, t: int, j: int, n: int)
    requires
        0 <= t < n,
        forall|i: int| 0 <= i < n && i != t ==> a[i][j] == b[i][j],
    ensures
        column_total(b, j, n) == column_total(a, j, n) - a[t][j] + b[t][j],
    decreases n,
{
    if n - 1 == t {
        lemma_total_frame(a, b, j, n - 1);
    } else {
        lemma_total_update(a, b, t, j, n - 1);
    }
}

/// A cell is at most its column's total.
pub proof fn lemma_total_bounds(a: Seq<Seq<usize>>, t: int, j: int, n: int)
    requires
        0 <= t < n,
    ensures
        0 <= a[t][j] <= column_total(a, j, n),
    decreases n,
{
    lemma_total_nonneg(a, j, n - 1);
    if n - 1 != t {
        lemma_total_bounds(a, t, j, n - 1);
    }
}

/// A column total is never negative.
pub proof fn lemma_total_nonneg(a: Seq<Seq<usize>>, j: int, n: int)
    ensures
        0 <= column_total(a, j, n),
    decreases n,
{
    if n > 0 {
        lemma_total_nonneg(a, j, n - 1);
    }
}

/// A column of zeros totals zero.
pub proof fn lemma_total_zero(a: Seq<Seq<usize>>, j: int, n: int)
    requires
        forall|i: int| 0 <= i < n ==> a[i][j] == 0,
    ensures
        column_total(a, j, n) == 0,
    decreases n,
{
    if n > 0 {
        lemma_total_zero(a, j, n - 1);
    }
}

/// Available, held and requested units of every resource of one class.
pub struct Ledger {
    /// Units of each resource that no thread holds.
    pub available: Vec<usize>,
    /// Units of each resource held by each thread, one row per thread.
    pub allocation: Vec<Vec<usize>>,
    /// Units of each resource requested by each thread and not yet granted.
    pub need: Vec<Vec<usize>>,
    /// Units of each resource in existence.
    pub capacity: Vec<usize>,
}

impl Ledger {
    pub open spec fn threads(&self) -> int {
        self.allocation.len() as int
    }

    pub open spec fn resources(&self) -> int {
        self.available.len() as int
    }

    pub open spec fn alloc_rows(&self) -> Seq<Seq<usize>> {
        rows(self.allocation@)
    }

    pub open spec fn need_rows(&self) -> Seq<Seq<usize>> {
        rows(self.need@)
    }

    /// Units of resource `r` held by all threads.
    pub open spec fn held(&self, r: int) -> int {
        column_total(self.alloc_rows(), r, self.threads())
    }

    /// The tables have matching shapes and every unit of every resource is
    /// either available or held by exactly one thread.
    pub open spec fn wf(&self) -> bool {
        &&& well_shaped(self.available@, self.alloc_rows(), self.need_rows())
        &&& self.capacity.len() == self.available.len()
        &&& forall|r: int|
            0 <= r < self.resources() ==> self.available@[r] + #[trigger] self.held(r)
                == self.capacity@[r]
    }

    /// Only cell `(t, r)` of the tables differs between `self` and `o`, where
    /// `alloc` and `need` are its new values.
    pub open spec fn cell_changed(&self, o: &Ledger, t: int, r: int, alloc: usize, need: usize) -> bool {
        &&& o.alloc_rows() == self.alloc_rows().update(
            t,
            self.alloc_rows()[t].update(r, alloc),
        )
        &&& o.need_rows() == self.need_rows().update(t, self.need_rows()[t].update(r, need))
    }

    /// All four tables read the same in `self` and `o`.
    pub open spec fn same(&self, o: &Ledger) -> bool {
        &&& o.available@ == self.available@
        &&& o.capacity@ == self.capacity@
        &&& o.alloc_rows() == self.alloc_rows()
        &&& o.need_rows() == self.need_rows()
    }

    /// `o` is `self` after thread `t` requested one more unit of resource `r`.
    pub open spec fn reserved(&self, o: &Ledger, t: int, r: int) -> bool {
        &&& o.available@ == self.available@
        &&& o.capacity@ == self.capacity@
        &&& self.cell_changed(o, t, r, self.alloc_rows()[t][r], (self.need_rows()[t][r] + 1) as usize)
    }

    /// `o` is `self` after thread `t` was granted one unit of resource `r`.
    pub open spec fn committed(&self, o: &Ledger, t: int, r: int) -> bool {
        &&& o.available@ == self.available@.update(r, (self.available@[r] - 1) as usize)
        &&& o.capacity@ == self.capacity@
        &&& self.cell_changed(
            o,
            t,
            r,
            (self.alloc_rows()[t][r] + 1) as usize,
            if self.need_rows()[t][r] > 0 {
                (self.need_rows()[t][r] - 1) as usize
            } else {
                0usize
            },
        )
    }

    /// `o` is `self` after thread `t` gave up one unit of resource `r`.
    pub open spec fn released(&self, o: &Ledger, t: int, r: int) -> bool {
        &&& o.available@ == self.available@.update(r, (self.available@[r] + 1) as usize)
        &&& self.alloc_rows()[t][r] > 0 ==> {
            &&& o.capacity@ == self.capacity@
            &&& self.cell_changed(
                o,
                t,
                r,
                (self.alloc_rows()[t][r] - 1) as usize,
                self.need_rows()[t][r],
            )
        }
        &&& self.alloc_rows()[t][r] == 0 ==> {
            &&& o.capacity@ == self.capacity@.update(r, (self.capacity@[r] + 1) as usize)
            &&& o.alloc_rows() == self.alloc_rows()
            &&& o.need_rows() == self.need_rows()
        }
    }

    /// A ledger with `threads` rows and no resources.
    pub fn new(threads: usize) -> (l: Ledger)
        ensures
            l.wf(),
            l.threads() == threads,
            l.resources() == 0,
    {
        let mut allocation: Vec<Vec<usize>> = Vec::new();
        let mut need: Vec<Vec<usize>> = Vec::new();
        let mut i: usize = 0;
        while i < threads
            invariant
                i <= threads,
                allocation.len() == i,
                need.len() == i,
                forall|q: int| 0 <= q < i ==> #[trigger] allocation@[q]@.len() == 0,
                forall|q: int| 0 <= q < i ==> #[trigger] need@[q]@.len() == 0,
            decreases threads - i,
        {
            allocation.push(Vec::new());
            need.push(Vec::new());
            i = i + 1;
        }
        Ledger { available: Vec::new(), allocation, need, capacity: Vec::new() }
    }

    /// `m` zeros.
    pub fn zero_row(m: usize) -> (v: Vec<usize>)
        ensures
            v@.len() == m,
            forall|j: int| 0 <= j < m ==> v@[j] == 0,
    {
        let mut v: Vec<usize> = Vec::new();
        let mut j: usize = 0;
        while j < m
            invariant
                j <= m,
                v@.len() == j,
                forall|q: int| 0 <= q < j ==> v@[q] == 0,
            decreases m - j,
        {
            v.push(0);
            j = j + 1;
        }
        v
    }

    /// Adds a thread that holds and needs nothing.
    pub fn add_thread(&mut self)
        requires
            old(self).wf(),
        ensures
            final(self).wf(),
            final(self).threads() == old(self).threads() + 1,
            final(self).available@ == old(self).available@,
            final(self).capacity@ == old(self).capacity@,
            final(self).alloc_rows() == old(self).alloc_rows().push(
                Seq::new(old(self).resources() as nat, |j: int| 0usize),
            ),
            final(self).need_rows() == old(self).need_rows().push(
                Seq::new(old(self).resources() as nat, |j: int| 0usize),
            ),
    {
        let ghost a0 = self.alloc_rows();
        let m = self.available.len();
        let r1 = Ledger::zero_row(m);
        let r2 = Ledger::zero_row(m);
        self.allocation.push(r1);
        self.need.push(r2);
        proof {
            let z = Seq::new(m as nat, |j: int| 0usize);
            assert(r1@ =~= z);
            assert(r2@ =~= z);
            assert(self.alloc_rows() =~= a0.push(z));
            assert(self.need_rows() =~= old(self).need_rows().push(z));
            let n = self.threads();
            assert forall|r: int| 0 <= r < self.resources() implies self.available@[r]
                + #[trigger] self.held(r) == self.capacity@[r] by {
                lemma_total_frame(self.alloc_rows(), a0, r, n - 1);
                assert(old(self).held(r) == column_total(a0, r, n - 1));
            }
        }
    }

    /// Adds resource `capacity` units strong, all available; returns its index.
    pub fn add_resource(&mut self, capacity: usize) -> (id: usize)
        requires
            old(self).wf(),
        ensures
            final(self).wf(),
            id == old(self).resources(),
            final(self).threads() == old(self).threads(),
            final(self).available@ == old(self).available@.push(capacity),
            final(self).capacity@ == old(self).capacity@.push(capacity),
            final(self).alloc_rows() == Seq::new(
                old(self).threads() as nat,
                |i: int| old(self).alloc_rows()[i].push(0usize),
            ),
            final(self).need_rows() == Seq::new(
                old(self).threads() as nat,
                |i: int| old(self).need_rows()[i].push(0usize),
            ),
    {
        let ghost a0 = self.alloc_rows();
        let ghost n0 = self.need_rows();
        let n = self.allocation.len();
        let id = self.available.len();
        let mut i: usize = 0;
        while i < n
            invariant
                n == self.allocation.len(),
                n == self.need.len(),
                a0.len() == n,
                n0.len() == n,
                self.available@ == old(self).available@,
                self.capacity@ == old(self).capacity@,
                forall|q: int| 0 <= q < n ==> #[trigger] a0[q].len() == old(self).available.len(),
                i <= n,
                forall|q: int| 0 <= q < i ==> #[trigger] self.allocation@[q]@ == a0[q].push(0usize),
                forall|q: int| i <= q < n ==> #[trigger] self.allocation@[q]@ == a0[q],
                forall|q: int| 0 <= q < i ==> #[trigger] self.need@[q]@ == n0[q].push(0usize),
                forall|q: int| i <= q < n ==> #[trigger] self.need@[q]@ == n0[q],
            decreases n - i,
        {
            self.allocation[i].push(0);
            self.need[i].push(0);
            i = i + 1;
        }
        self.available.push(capacity);
        self.capacity.push(capacity);
        proof {
            let a1 = Seq::new(n as nat, |i: int| a0[i].push(0usize));
            assert(self.alloc_rows() =~= a1);
            assert(self.need_rows() =~= Seq::new(n as nat, |i: int| n0[i].push(0usize)));
            assert forall|r: int| 0 <= r < self.resources() implies self.available@[r]
                + #[trigger] self.held(r) == self.capacity@[r] by {
                if r < id {
                    lemma_total_frame(a1, a0, r, n as int);
                    assert(old(self).held(r) == column_total(a0, r, n as int));
                } else {
                    lemma_total_zero(a1, r, n as int);
                }
            }
        }
        id
    }

    /// Gives resource `r` a fresh start: `capacity` units, all available, none
    /// held or requested.
    pub fn reset_resource(&mut self, r: usize, capacity: usize)
        requires
            old(self).wf(),
            r < old(self).resources(),
        ensures
            final(self).wf(),
            final(self).threads() == old(self).threads(),
            final(self).available@ == old(self).available@.update(r as int, capacity),
            final(self).capacity@ == old(self).capacity@.update(r as int, capacity),
            final(self).alloc_rows() == Seq::new(
                old(self).threads() as nat,
                |i: int| old(self).alloc_rows()[i].update(r as int, 0usize),
            ),
            final(self).need_rows() == Seq::new(
                old(self).threads() as nat,
                |i: int| old(self).need_rows()[i].update(r as int, 0usize),
            ),
    {
        let ghost a0 = self.alloc_rows();
        let ghost n0 = self.need_rows();
        let n = self.allocation.len();
        let mut i: usize = 0;
        while i < n
            invariant
                n == self.allocation.len(),
                n == self.need.len(),
                a0.len() == n,
                n0.len() == n,
                self.available@ == old(self).available@,
                self.capacity@ == old(self).capacity@,
                forall|q: int| 0 <= q < n ==> #[trigger] a0[q].len() == old(self).available.len(),
                forall|q: int| 0 <= q < n ==> #[trigger] a0[q].len() == self.available.len(),
                forall|q: int| 0 <= q < n ==> #[trigger] n0[q].len() == self.available.len(),
                r < self.available.len(),
                self.capacity.len() == self.available.len(),
                i <= n,
                forall|q: int|
                    0 <= q < i ==> #[trigger] self.allocation@[q]@ == a0[q].update(r as int, 0usize),
                forall|q: int| i <= q < n ==> #[trigger] self.allocation@[q]@ == a0[q],
                forall|q: int|
                    0 <= q < i ==> #[trigger] self.need@[q]@ == n0[q].update(r as int, 0usize),
                forall|q: int| i <= q < n ==> #[trigger] self.need@[q]@ == n0[q],
            decreases n - i,
        {
            self.allocation[i][r] = 0;
            self.need[i][r] = 0;
            i = i + 1;
        }
        self.available.set(r, capacity);
        self.capacity.set(r, capacity);
        proof {
            let a1 = Seq::new(n as nat, |i: int| a0[i].update(r as int, 0usize));
            assert(self.alloc_rows() =~= a1);
            assert(self.need_rows() =~= Seq::new(n as nat, |i: int| n0[i].update(r as int, 0usize)));
            assert forall|j: int| 0 <= j < self.resources() implies self.available@[j]
                + #[trigger] self.held(j) == self.capacity@[j] by {
                if j != r {
                    lemma_total_frame(a1, a0, j, n as int);
                    assert(old(self).held(j) == column_total(a0, j, n as int));
                } else {
                    lemma_total_zero(a1, j, n as int);
                }
            }
        }
    }

    proof fn lemma_shape(&self)
        requires
            well_shaped(self.available@, self.alloc_rows(), self.need_rows()),
        ensures
            self.need.len() == self.threads(),
            forall|t: int|
                0 <= t < self.threads() ==> #[trigger] self.allocation@[t]@.len()
                    == self.resources(),
            forall|t: int|
                0 <= t < self.threads() ==> #[trigger] self.need@[t]@.len() == self.resources(),
    {
        assert forall|t: int| 0 <= t < self.threads() implies #[trigger] self.allocation@[t]@.len()
            == self.resources() by {
            assert(self.alloc_rows()[t] == self.allocation@[t]@);
        }
        assert forall|t: int| 0 <= t < self.threads() implies #[trigger] self.need@[t]@.len()
            == self.resources() by {
            assert(self.need_rows()[t] == self.need@[t]@);
        }
    }

    /// Sets cell `(t, r)` of both tables.
    fn set_cell(&mut self, t: usize, r: usize, alloc: usize, need: usize)
        requires
            well_shaped(old(self).available@, old(self).alloc_rows(), old(self).need_rows()),
            t < old(self).threads(),
            r < old(self).resources(),
        ensures
            well_shaped(final(self).available@, final(self).alloc_rows(), final(self).need_rows()),
            final(self).available@ == old(self).available@,
            final(self).capacity@ == old(self).capacity@,
            old(self).cell_changed(final(self), t as int, r as int, alloc, need),
    {
        let ghost a0 = self.alloc_rows();
        let ghost n0 = self.need_rows();
        proof {
            self.lemma_shape();
            assert(a0[t as int] == self.allocation@[t as int]@);
            assert(n0[t as int] == self.need@[t as int]@);
        }
        self.allocation[t][r] = alloc;
        self.need[t][r] = need;
        proof {
            assert(self.alloc_rows() =~= a0.update(t as int, a0[t as int].update(r as int, alloc)));
            assert(self.need_rows() =~= n0.update(t as int, n0[t as int].update(r as int, need)));
        }
    }

    /// Thread `t` requests one more unit of resource `r`.
    pub fn reserve(&mut self, t: usize, r: usize)
        requires
            old(self).wf(),
            t < old(self).threads(),
            r < old(self).resources(),
            old(self).need_rows()[t as int][r as int] < usize::MAX,
        ensures
            final(self).wf(),
            old(self).reserved(final(self), t as int, r as int),
    {
        proof {
            self.lemma_shape();
            assert(self.alloc_rows()[t as int] == self.allocation@[t as int]@);
            assert(self.need_rows()[t as int] == self.need@[t as int]@);
            assert(self.available@[r as int] + self.held(r as int) == self.capacity@[r as int]);
        }
        let a = self.allocation[t][r];
        let nd = self.need[t][r];
        self.set_cell(t, r, a, nd + 1);
        proof {
            let a0 = old(self).alloc_rows();
            assert(a0[t as int].update(r as int, a) =~= a0[t as int]);
            assert(self.alloc_rows() =~= a0);
            self.lemma_same_alloc(old(self));
        }
    }

    /// Withdraws one requested unit of resource `r` by thread `t`.
    pub fn cancel(&mut self, t: usize, r: usize)
        requires
            old(self).wf(),
            t < old(self).threads(),
            r < old(self).resources(),
            old(self).need_rows()[t as int][r as int] > 0,
        ensures
            final(self).wf(),
            final(self).available@ == old(self).available@,
            final(self).capacity@ == old(self).capacity@,
            old(self).cell_changed(
                final(self),
                t as int,
                r as int,
                old(self).alloc_rows()[t as int][r as int],
                (old(self).need_rows()[t as int][r as int] - 1) as usize,
            ),
    {
        proof {
            self.lemma_shape();
            assert(self.alloc_rows()[t as int] == self.allocation@[t as int]@);
            assert(self.need_rows()[t as int] == self.need@[t as int]@);
            assert(self.available@[r as int] + self.held(r as int) == self.capacity@[r as int]);
        }
        let a = self.allocation[t][r];
        let nd = self.need[t][r];
        self.set_cell(t, r, a, nd - 1);
        proof {
            let a0 = old(self).alloc_rows();
            assert(a0[t as int].update(r as int, a) =~= a0[t as int]);
            assert(self.alloc_rows() =~= a0);
            self.lemma_same_alloc(old(self));
        }
    }

    proof fn lemma_same_alloc(&self, o: &Ledger)
        requires
            o.wf(),
            well_shaped(self.available@, self.alloc_rows(), self.need_rows()),
            self.alloc_rows() == o.alloc_rows(),
            self.available@ == o.available@,
            self.capacity@ == o.capacity@,
        ensures
            self.wf(),
    {
        assert forall|j: int| 0 <= j < self.resources() implies self.available@[j]
            + #[trigger] self.held(j) == self.capacity@[j] by {
            assert(o.held(j) == self.held(j));
        }
    }

    /// Thread `t` is granted one unit of resource `r`: the unit leaves the
    /// available pool for the thread's allocation, and the request it answers,
    /// if any, is withdrawn.
    pub fn commit(&mut self, t: usize, r: usize)
        requires
            old(self).wf(),
            t < old(self).threads(),
            r < old(self).resources(),
            old(self).available@[r as int] > 0,
        ensures
            final(self).wf(),
            old(self).committed(final(self), t as int, r as int),
    {
        proof {
            self.lemma_shape();
            assert(self.alloc_rows()[t as int] == self.allocation@[t as int]@);
            assert(self.need_rows()[t as int] == self.need@[t as int]@);
            assert(self.available@[r as int] + self.held(r as int) == self.capacity@[r as int]);
        }
        let a = self.allocation[t][r];
        let nd = self.need[t][r];
        proof {
            lemma_total_bounds(self.alloc_rows(), t as int, r as int, self.threads());
        }
        let nd2 = if nd > 0 {
            nd - 1
        } else {
            0
        };
        self.set_cell(t, r, a + 1, nd2);
        let av = self.available[r];
        self.available.set(r, av - 1);
        proof {
            self.lemma_one_cell(old(self), t as int, r as int);
        }
    }

    proof fn lemma_one_cell(&self, o: &Ledger, t: int, r: int)
        requires
            o.wf(),
            0 <= t < o.threads(),
            0 <= r < o.resources(),
            well_shaped(self.available@, self.alloc_rows(), self.need_rows()),
            self.capacity.len() == self.available.len(),
            self.alloc_rows() == o.alloc_rows().update(
                t,
                o.alloc_rows()[t].update(r, self.alloc_rows()[t][r]),
            ),
            self.available@ == o.available@.update(r, self.available@[r]),
            self.available@[r] + self.alloc_rows()[t][r] + o.capacity@[r] == o.available@[r]
                + o.alloc_rows()[t][r] + self.capacity@[r],
            forall|j: int| 0 <= j < o.resources() && j != r ==> self.capacity@[j] == o.capacity@[j],
        ensures
            self.wf(),
    {
        assert forall|j: int| 0 <= j < self.resources() implies self.available@[j]
            + #[trigger] self.held(j) == self.capacity@[j] by {
            if j == r {
                lemma_total_update(o.alloc_rows(), self.alloc_rows(), t, j, o.threads());
            } else {
                lemma_total_frame(o.alloc_rows(), self.alloc_rows(), j, o.threads());
            }
            assert(o.held(j) == column_total(o.alloc_rows(), j, o.threads()));
        }
    }

    /// Thread `t` gives up one unit of resource `r`. A unit it holds goes back
    /// to the available pool; where it holds none, the unit it hands in is a
    /// new one and the resource grows by one.
    pub fn release(&mut self, t: usize, r: usize)
        requires
            old(self).wf(),
            t < old(self).threads(),
            r < old(self).resources(),
            old(self).alloc_rows()[t as int][r as int] == 0 ==> old(self).capacity@[r as int]
                < usize::MAX,
        ensures
            final(self).wf(),
            old(self).released(final(self), t as int, r as int),
    {
        proof {
            self.lemma_shape();
            assert(self.alloc_rows()[t as int] == self.allocation@[t as int]@);
            assert(self.need_rows()[t as int] == self.need@[t as int]@);
            assert(self.available@[r as int] + self.held(r as int) == self.capacity@[r as int]);
        }
        let a = self.allocation[t][r];
        let nd = self.need[t][r];
        proof {
            lemma_total_bounds(self.alloc_rows(), t as int, r as int, self.threads());
        }
        let av = self.available[r];
        if a > 0 {
            self.set_cell(t, r, a - 1, nd);
            self.available.set(r, av + 1);
            proof {
                self.lemma_one_cell(old(self), t as int, r as int);
            }
        } else {
            let c = self.capacity[r];
            self.available.set(r, av + 1);
            self.capacity.set(r, c + 1);
            proof {
                assert forall|j: int| 0 <= j < self.resources() implies self.available@[j]
                    + #[trigger] self.held(j) == self.capacity@[j] by {
                    assert(old(self).held(j) == self.held(j));
                }
            }
        }
    }
}

} // verus!
