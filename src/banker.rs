//! Banker's safety check over an allocation state.
//!
//! A state is given by the units still available of each resource, and for
//! each thread the units it holds (`allocation`) and the units it still asks
//! for (`need`). The state is safe when the threads can be ordered so that each
//! one's need is covered by what is available plus what all the threads before
//! it hold, which they give back when they finish.
use vstd::prelude::*;

verus! {

/// The row views of a table of vectors.
pub open spec fn rows(v: Seq<Vec<usize>>) -> Seq<Seq<usize>> {
    Seq::new(v.len(), |i: int| v[i]@)
}

/// Units of resource `j` held by the first `n` threads.
pub open spec fn column_total(alloc: Seq<Seq<usize>>, j: int, n: int) -> int
    decreases n,
{
    if n <= 0 {
        0
    } else {
        column_total(alloc, j, n - 1) + alloc[n - 1][j]
    }
}

/// Units of resource `j` held by those of the first `n` threads that lie in `s`.
pub open spec fn held_by(alloc: Seq<Seq<usize>>, s: Set<int>, j: int, n: int) -> int
    decreases n,
{
    if n <= 0 {
        0
    } else {
        held_by(alloc, s, j, n - 1) + if s.contains(n - 1) {
            alloc[n - 1][j] as int
        } else {
            0
        }
    }
}

/// Every table has one row per thread and one column per resource.
pub open spec fn well_shaped(
    avail: Seq<usize>,
    alloc: Seq<Seq<usize>>,
    need: Seq<Seq<usize>>,
) -> bool {
    &&& alloc.len() == need.len()
    &&& forall|i: int| 0 <= i < alloc.len() ==> #[trigger] alloc[i].len() == avail.len()
    &&& forall|i: int| 0 <= i < need.len() ==> #[trigger] need[i].len() == avail.len()
}

/// What is available once the threads in `done` have finished and given back
/// what they hold covers `need_row`.
pub open spec fn covered(
    need_row: Seq<usize>,
    avail: Seq<usize>,
    alloc: Seq<Seq<usize>>,
    done: Set<int>,
) -> bool {
    forall|j: int|
        0 <= j < avail.len() ==> need_row[j] <= avail[j] + #[trigger] held_by(
            alloc,
            done,
            j,
            alloc.len() as int,
        )
}

/// `ord` lists every thread once, and each one's need is covered once the
/// threads before it have finished.
pub open spec fn is_safe_order(
    avail: Seq<usize>,
    alloc: Seq<Seq<usize>>,
    need: Seq<Seq<usize>>,
    ord: Seq<int>,
) -> bool {
    &&& ord.len() == need.len()
    &&& ord.no_duplicates()
    &&& forall|k: int| 0 <= k < ord.len() ==> 0 <= #[trigger] ord[k] < need.len()
    &&& forall|k: int|
        0 <= k < ord.len() ==> covered(need[#[trigger] ord[k]], avail, alloc, ord.take(k).to_set())
}

/// The state is safe: some order lets every thread finish.
pub open spec fn is_safe(avail: Seq<usize>, alloc: Seq<Seq<usize>>, need: Seq<Seq<usize>>) -> bool {
    exists|ord: Seq<int>| is_safe_order(avail, alloc, need, ord)
}

proof fn lemma_held_by_insert(alloc: Seq<Seq<usize>>, s: Set<int>, i: int, j: int, n: int)
    requires
        0 <= i < n,
        !s.contains(i),
    ensures
        held_by(alloc, s.insert(i), j, n) == held_by(alloc, s, j, n) + alloc[i][j],
    decreases n,
{
    if n - 1 != i {
        lemma_held_by_insert(alloc, s, i, j, n - 1);
    } else {
        lemma_held_by_same(alloc, s, s.insert(i), j, n - 1);
    }
}

proof fn lemma_held_by_same(alloc: Seq<Seq<usize>>, s: Set<int>, t: Set<int>, j: int, n: int)
    requires
        forall|i: int| 0 <= i < n ==> (s.contains(i) <==> t.contains(i)),
    ensures
        held_by(alloc, s, j, n) == held_by(alloc, t, j, n),
    decreases n,
{
    if n > 0 {
        lemma_held_by_same(alloc, s, t, j, n - 1);
    }
}

proof fn lemma_held_by_mono(alloc: Seq<Seq<usize>>, s: Set<int>, t: Set<int>, j: int, n: int)
    requires
        forall|i: int| 0 <= i < n && s.contains(i) ==> t.contains(i),
    ensures
        held_by(alloc, s, j, n) <= held_by(alloc, t, j, n),
    decreases n,
{
    if n > 0 {
        lemma_held_by_mono(alloc, s, t, j, n - 1);
    }
}

proof fn lemma_held_by_total(alloc: Seq<Seq<usize>>, s: Set<int>, j: int, n: int)
    ensures
        0 <= held_by(alloc, s, j, n) <= column_total(alloc, j, n),
    decreases n,
{
    if n > 0 {
        lemma_held_by_total(alloc, s, j, n - 1);
    }
}

proof fn lemma_held_by_empty(alloc: Seq<Seq<usize>>, j: int, n: int)
    ensures
        held_by(alloc, Set::empty(), j, n) == 0,
    decreases n,
{
    if n > 0 {
        lemma_held_by_empty(alloc, j, n - 1);
    }
}

/// The first position of `s`, at or before `k`, whose element lies outside `f`.
proof fn lemma_first_outside(s: Seq<int>, f: Set<int>, k: int) -> (r: int)
    requires
        0 <= k < s.len(),
        !f.contains(s[k]),
    ensures
        0 <= r <= k,
        !f.contains(s[r]),
        forall|q: int| 0 <= q < r ==> f.contains(#[trigger] s[q]),
    decreases k,
{
    if exists|q: int| 0 <= q < k && !f.contains(#[trigger] s[q]) {
        let q = choose|q: int| 0 <= q < k && !f.contains(#[trigger] s[q]);
        lemma_first_outside(s, f, q)
    } else {
        k
    }
}

/// A thread whose need fits in `work`, or none.
fn row_fits(need_row: &Vec<usize>, work: &Vec<usize>) -> (r: bool)
    requires
        need_row.len() == work.len(),
    ensures
        r == (forall|j: int| 0 <= j < work.len() ==> need_row@[j] <= work@[j]),
{
    let mut j: usize = 0;
    while j < work.len()
        invariant
            need_row.len() == work.len(),
            j <= work.len(),
            forall|q: int| 0 <= q < j ==> need_row@[q] <= work@[q],
        decreases work.len() - j,
    {
        if need_row[j] > work[j] {
            return false;
        }
        j = j + 1;
    }
    true
}

/// The first unfinished thread whose need fits in `work`, if any.
fn find_candidate(need: &Vec<Vec<usize>>, work: &Vec<usize>, finish: &Vec<bool>) -> (r: Option<
    usize,
>)
    requires
        finish.len() == need.len(),
        forall|i: int| 0 <= i < need.len() ==> #[trigger] need@[i].len() == work.len(),
    ensures
        r matches Some(i) ==> i < need.len() && !finish@[i as int] && forall|j: int|
            0 <= j < work.len() ==> need@[i as int]@[j] <= work@[j],
        r is None ==> forall|i: int|
            0 <= i < need.len() && !finish@[i] ==> exists|j: int|
                0 <= j < work.len() && need@[i]@[j] > work@[j],
{
    let mut i: usize = 0;
    while i < need.len()
        invariant
            finish.len() == need.len(),
            forall|q: int| 0 <= q < need.len() ==> #[trigger] need@[q].len() == work.len(),
            i <= need.len(),
            forall|q: int|
                0 <= q < i && !finish@[q] ==> exists|j: int|
                    0 <= j < work.len() && need@[q]@[j] > work@[j],
        decreases need.len() - i,
    {
        if !finish[i] && row_fits(&need[i], work) {
            return Some(i);
        }
        i = i + 1;
    }
    None
}

/// Runs the Banker's safety check: repeatedly lets an unfinished thread whose
/// need fits in what is available finish and give back what it holds. The
/// state is safe exactly when every thread finishes.
pub fn banker_is_safe(avail: &Vec<usize>, alloc: &Vec<Vec<usize>>, need: &Vec<Vec<usize>>) -> (r:
    bool)
    requires
        well_shaped(avail@, rows(alloc@), rows(need@)),
        forall|j: int|
            0 <= j < avail.len() ==> avail@[j] + #[trigger] column_total(
                rows(alloc@),
                j,
                alloc.len() as int,
            ) <= usize::MAX,
    ensures
        r == is_safe(avail@, rows(alloc@), rows(need@)),
{
    let ghost a = rows(alloc@);
    let ghost nd = rows(need@);
    let n = alloc.len();
    let m = avail.len();
    let mut work: Vec<usize> = Vec::new();
    let mut j: usize = 0;
    while j < m
        invariant
            m == avail.len(),
            j <= m,
            work@ == avail@.take(j as int),
        decreases m - j,
    {
        work.push(avail[j]);
        j = j + 1;
        assert(work@ =~= avail@.take(j as int));
    }
    assert(work@ =~= avail@);
    let mut finish: Vec<bool> = Vec::new();
    let mut i: usize = 0;
    while i < n
        invariant
            i <= n,
            finish.len() == i,
            forall|q: int| 0 <= q < i ==> !finish@[q],
        decreases n - i,
    {
        finish.push(false);
        i = i + 1;
    }
    let ghost mut ord: Seq<int> = Seq::empty();
    proof {
        assert forall|q: int| 0 <= q < m implies work@[q] == avail@[q] + held_by(
            a,
            ord.to_set(),
            q,
            n as int,
        ) by {
            assert(ord.to_set() =~= Set::empty());
            lemma_held_by_empty(a, q, n as int);
        }
    }
    proof {
        assert forall|q: int| 0 <= q < n implies #[trigger] need@[q].len() == m by {
            assert(nd[q] == need@[q]@);
        }
        assert forall|q: int| 0 <= q < n implies #[trigger] alloc@[q].len() == m by {
            assert(a[q] == alloc@[q]@);
        }
    }
    let mut done: usize = 0;
    while done < n
        invariant
            forall|q: int| 0 <= q < n ==> #[trigger] need@[q].len() == m,
            forall|q: int| 0 <= q < n ==> #[trigger] alloc@[q].len() == m,
            a == rows(alloc@),
            nd == rows(need@),
            n == alloc.len(),
            m == avail.len(),
            well_shaped(avail@, a, nd),
            forall|q: int|
                0 <= q < m ==> avail@[q] + #[trigger] column_total(a, q, n as int) <= usize::MAX,
            work.len() == m,
            finish.len() == n,
            done == ord.len(),
            done <= n,
            ord.no_duplicates(),
            forall|k: int| 0 <= k < ord.len() ==> 0 <= #[trigger] ord[k] < n,
            forall|q: int| 0 <= q < n ==> (finish@[q] <==> ord.contains(q)),
            forall|q: int|
                0 <= q < m ==> #[trigger] work@[q] == avail@[q] + held_by(
                    a,
                    ord.to_set(),
                    q,
                    n as int,
                ),
            forall|k: int|
                0 <= k < ord.len() ==> covered(nd[#[trigger] ord[k]], avail@, a, ord.take(k).to_set()),
        decreases n - done,
    {
        let cand = find_candidate(need, &work, &finish);
        match cand {
            None => {
                proof {
                    lemma_stuck_is_unsafe(avail@, a, nd, ord, work@, finish@);
                }
                return false;
            },
            Some(c) => {
                let ghost f = ord.to_set();
                let ghost f2 = f.insert(c as int);
                let ghost w0 = work@;
                assert(!f.contains(c as int));
                let mut q: usize = 0;
                while q < m
                    invariant
                        a == rows(alloc@),
                        n == alloc.len(),
                        m == avail.len(),
                        c < n,
                        alloc@[c as int].len() == m,
                        f2 == f.insert(c as int),
                        !f.contains(c as int),
                        well_shaped(avail@, a, nd),
                        forall|p: int|
                            0 <= p < m ==> avail@[p] + #[trigger] column_total(a, p, n as int)
                                <= usize::MAX,
                        q <= m,
                        work.len() == m,
                        forall|p: int|
                            0 <= p < q ==> #[trigger] work@[p] == avail@[p] + held_by(
                                a,
                                f2,
                                p,
                                n as int,
                            ),
                        forall|p: int|
                            q <= p < m ==> #[trigger] work@[p] == avail@[p] + held_by(
                                a,
                                f,
                                p,
                                n as int,
                            ),
                    decreases m - q,
                {
                    proof {
                        lemma_held_by_insert(a, f, c as int, q as int, n as int);
                        lemma_held_by_total(a, f2, q as int, n as int);
                        assert(a[c as int] == alloc@[c as int]@);
                        assert(work@[q as int] == avail@[q as int] + held_by(a, f, q as int, n as int));
                        assert(avail@[q as int] + column_total(a, q as int, n as int) <= usize::MAX);
                        assert(held_by(a, f2, q as int, n as int) == held_by(a, f, q as int, n as int) + alloc@[c as int]@[q as int]);
                        assert(held_by(a, f2, q as int, n as int) <= column_total(a, q as int, n as int));
                    }
                    let v = work[q] + alloc[c][q];
                    work.set(q, v);
                    q = q + 1;
                }
                let ghost old_ord = ord;
                finish.set(c, true);
                proof {
                    ord.lemma_push_to_set_commute(c as int);
                    ord = ord.push(c as int);
                    assert(ord.to_set() =~= f2);
                    assert forall|k: int| 0 <= k < ord.len() implies covered(
                        nd[#[trigger] ord[k]],
                        avail@,
                        a,
                        ord.take(k).to_set(),
                    ) by {
                        if k < old_ord.len() {
                            assert(ord.take(k) =~= old_ord.take(k));
                        } else {
                            assert(ord.take(k) =~= old_ord);
                            assert(nd[c as int] == need@[c as int]@);
                            assert forall|p: int| 0 <= p < m implies nd[c as int][p] <= avail@[p]
                                + #[trigger] held_by(a, f, p, n as int) by {
                                assert(w0[p] == avail@[p] + held_by(a, f, p, n as int));
                            }
                        }
                    }
                    assert forall|p: int| 0 <= p < n implies (finish@[p] <==> ord.contains(p)) by {
                        if p == c {
                            assert(ord[ord.len() - 1] == p);
                        } else {
                            if old_ord.contains(p) {
                                let w = choose|w: int| 0 <= w < old_ord.len() && old_ord[w] == p;
                                assert(ord[w] == p);
                            }
                            if ord.contains(p) {
                                let w = choose|w: int| 0 <= w < ord.len() && ord[w] == p;
                                assert(old_ord[w] == p);
                            }
                        }
                    }
                }
                done = done + 1;
            },
        }
    }
    proof {
        assert(is_safe_order(avail@, a, nd, ord));
    }
    true
}

/// When no unfinished thread can go on, no order lets every thread finish.
proof fn lemma_stuck_is_unsafe(
    avail: Seq<usize>,
    a: Seq<Seq<usize>>,
    nd: Seq<Seq<usize>>,
    ord: Seq<int>,
    work: Seq<usize>,
    finish: Seq<bool>,
)
    requires
        well_shaped(avail, a, nd),
        ord.len() < a.len(),
        ord.no_duplicates(),
        work.len() == avail.len(),
        finish.len() == a.len(),
        forall|q: int| 0 <= q < a.len() ==> (finish[q] <==> ord.contains(q)),
        forall|q: int|
            0 <= q < avail.len() ==> #[trigger] work[q] == avail[q] + held_by(
                a,
                ord.to_set(),
                q,
                a.len() as int,
            ),
        forall|i: int|
            0 <= i < nd.len() && !finish[i] ==> exists|j: int|
                0 <= j < work.len() && nd[i][j] > work[j],
    ensures
        !is_safe(avail, a, nd),
{
    let f = ord.to_set();
    if exists|o: Seq<int>| is_safe_order(avail, a, nd, o) {
        let o = choose|o: Seq<int>| is_safe_order(avail, a, nd, o);
        o.unique_seq_to_set();
        ord.unique_seq_to_set();
        if forall|k: int| 0 <= k < o.len() ==> f.contains(#[trigger] o[k]) {
            assert(o.to_set().subset_of(f));
            vstd::set_lib::lemma_len_subset(o.to_set(), f);
        }
        let k0 = choose|k: int| 0 <= k < o.len() && !f.contains(#[trigger] o[k]);
        let k = lemma_first_outside(o, f, k0);
        let t = o[k];
        assert(!finish[t]);
        let pre = o.take(k).to_set();
        assert forall|j: int| 0 <= j < work.len() implies nd[t][j] <= work[j] by {
            assert(covered(nd[o[k]], avail, a, pre));
            assert(nd[t][j] <= avail[j] + held_by(a, pre, j, a.len() as int));
            assert forall|i: int| 0 <= i < a.len() && pre.contains(i) implies f.contains(i) by {
                let w = choose|w: int| 0 <= w < o.take(k).len() && o.take(k)[w] == i;
                assert(f.contains(o[w]));
            }
            lemma_held_by_mono(a, pre, f, j, a.len() as int);
        }
    }
}

} // verus!
