//! Simulation order of the plant loops.
//!
//! Plant loops depend on each other: a heat exchanger's source loop must be
//! simulated before the loop it serves, and a chiller's chilled-water loop
//! before its condenser loop.  The loops are ordered topologically (Kahn's
//! algorithm, first-in first-out); loops caught in a dependency cycle are
//! appended afterwards in index order and run one timestep behind.  The
//! loops' equipment lists also name the pumps, whose electric power is
//! booked apart.

use vstd::prelude::*;
use crate::equipment::{distinct_names, has_name, insert_name};

verus! {

// ---------------------------------------------------------------- Dependency graphs and plant orders

/// Loop `u` must be simulated before loop `v`.
pub open spec fn has_edge(adj: Seq<Vec<usize>>, u: int, v: usize) -> bool {
    0 <= u < adj.len() && adj[u]@.contains(v)
}

/// Every dependency names a loop of the graph.
pub open spec fn targets_in_range(adj: Seq<Vec<usize>>) -> bool {
    forall|u: int, k: int|
        0 <= u < adj.len() && 0 <= k < adj[u]@.len() ==> #[trigger] adj[u]@[k] < adj.len()
}

/// Total number of dependency edges held by loops `w < u`.
pub open spec fn edge_total(adj: Seq<Vec<usize>>, u: int) -> nat
    decreases u,
{
    if u <= 0 {
        0
    } else {
        edge_total(adj, u - 1) + adj[u - 1]@.len()
    }
}

/// Loop `v` depends on no loop.
pub open spec fn is_source(adj: Seq<Vec<usize>>, v: usize) -> bool {
    forall|u: int| !#[trigger] has_edge(adj, u, v)
}

/// Some loop listed in `order` from position `from` on must run before `v`.
pub open spec fn has_edge_from(adj: Seq<Vec<usize>>, order: Seq<usize>, from: int, v: usize) -> bool {
    exists|j: int| from <= j < order.len() && #[trigger] has_edge(adj, order[j] as int, v)
}

/// Position `k` holds the last mention of `v` in `s`.
pub open spec fn last_position(s: Seq<usize>, v: usize, k: int) -> bool {
    &&& 0 <= k < s.len()
    &&& s[k] == v
    &&& forall|m: int| k < m < s.len() ==> #[trigger] s[m] != v
}

/// Loop `order[p]` is released by the loop at position `j`: the last of its
/// dependencies placed before it.
pub open spec fn released_by(adj: Seq<Vec<usize>>, order: Seq<usize>, j: int, p: int) -> bool {
    &&& 0 <= j < p < order.len()
    &&& has_edge(adj, order[j] as int, order[p])
    &&& forall|k: int| j < k < p ==> !#[trigger] has_edge(adj, order[k] as int, order[p])
}

/// First in, first out: of the loops at positions `p` and `p2`, the one
/// released by an earlier loop comes first, and two released by the same
/// loop come in the order of their last mention in that loop's row.
pub open spec fn released_in_order(adj: Seq<Vec<usize>>, order: Seq<usize>, p: int, p2: int) -> bool {
    forall|j: int, j2: int|
        #![trigger released_by(adj, order, j, p), released_by(adj, order, j2, p2)]
        released_by(adj, order, j, p) && released_by(adj, order, j2, p2) ==> j < j2 || (j == j2
            && forall|k: int, k2: int|
            #![trigger last_position(adj[order[j] as int]@, order[p], k), last_position(adj[order[j] as int]@, order[p2], k2)]
            last_position(adj[order[j] as int]@, order[p], k) && last_position(
                adj[order[j] as int]@,
                order[p2],
                k2,
            ) ==> k < k2)
}

/// `order` lists every loop of `adj` once.  Its first `sorted_len` loops are
/// topologically ordered, each placed after every loop it depends on, and
/// released first in, first out: the loops without dependencies lead in
/// increasing index order.  Every loop after them has a dependency among
/// them too (so it lies on or behind a cycle), and these follow in
/// increasing index order.
pub open spec fn is_plant_order(adj: Seq<Vec<usize>>, order: Seq<usize>, sorted_len: int) -> bool {
    &&& order.len() == adj.len()
    &&& 0 <= sorted_len <= order.len()
    &&& order.no_duplicates()
    &&& forall|i: int| 0 <= i < order.len() ==> #[trigger] order[i] < adj.len()
    &&& forall|v: usize| v < adj.len() ==> #[trigger] order.contains(v)
    &&& forall|i: int, w: int|
        0 <= i < sorted_len && #[trigger] has_edge(adj, w, order[i]) ==> exists|j: int|
            0 <= j < i && order[j] == w
    &&& forall|i: int| sorted_len <= i < order.len() ==> #[trigger] has_edge_from(adj, order, sorted_len, order[i])
    &&& forall|i: int, k: int| sorted_len <= i < k < order.len() ==> order[i] < order[k]
    &&& forall|i: int, k: int|
        #![trigger order[i], order[k]]
        0 <= i < k < order.len() && is_source(adj, order[k]) ==> is_source(adj, order[i])
            && order[i] < order[k]
    &&& forall|p: int, p2: int| 0 <= p < p2 < sorted_len ==> #[trigger] released_in_order(adj, order, p, p2)
}

/// Simulation order of the plant loops.
pub struct PlantOrder {
    /// Loop indices in simulation order.
    pub order: Vec<usize>,
    /// Length of the topologically ordered prefix of `order`; the loops after
    /// it lie on or behind a dependency cycle and read their upstream loops'
    /// conditions from the previous timestep.
    pub sorted_len: usize,
}

// ---------------------------------------------------------------- Counting edges

/// Number of occurrences of `v` in `s`.
pub open spec fn occ(s: Seq<usize>, v: usize) -> nat
    decreases s.len(),
{
    if s.len() == 0 {
        0
    } else {
        occ(s.drop_last(), v) + if s.last() == v {
            1nat
        } else {
            0nat
        }
    }
}

/// Number of dependency edges into `v` from loops `w < u` that are not in `done`.
pub open spec fn in_count(adj: Seq<Vec<usize>>, done: Seq<usize>, v: usize, u: int) -> nat
    decreases u,
{
    if u <= 0 {
        0
    } else {
        in_count(adj, done, v, u - 1) + if done.contains((u - 1) as usize) {
            0nat
        } else {
            occ(adj[u - 1]@, v)
        }
    }
}

proof fn lemma_occ_take(s: Seq<usize>, v: usize, j: int)
    requires
        0 <= j < s.len(),
    ensures
        occ(s.take(j + 1), v) == occ(s.take(j), v) + if s[j] == v {
            1nat
        } else {
            0nat
        },
{
    assert(s.take(j + 1).drop_last() =~= s.take(j));
}

/// Occurrences in a prefix never exceed those in the whole sequence.
proof fn lemma_occ_take_le(s: Seq<usize>, v: usize, j: int)
    requires
        0 <= j <= s.len(),
    ensures
        occ(s.take(j), v) <= occ(s, v),
    decreases s.len() - j,
{
    if j < s.len() {
        lemma_occ_take(s, v, j);
        lemma_occ_take_le(s, v, j + 1);
    } else {
        assert(s.take(j) =~= s);
    }
}

proof fn lemma_occ_le_len(s: Seq<usize>, v: usize)
    ensures
        occ(s, v) <= s.len(),
    decreases s.len(),
{
    if s.len() > 0 {
        lemma_occ_le_len(s.drop_last(), v);
    }
}

proof fn lemma_occ_contains(s: Seq<usize>, v: usize)
    ensures
        occ(s, v) > 0 <==> s.contains(v),
    decreases s.len(),
{
    if s.len() > 0 {
        lemma_occ_contains(s.drop_last(), v);
        if s.last() == v {
            assert(s[s.len() - 1] == v);
        } else {
            if s.contains(v) {
                let k = choose|k: int| 0 <= k < s.len() && s[k] == v;
                assert(k != s.len() - 1);
                assert(s.drop_last()[k] == v);
            }
            if s.drop_last().contains(v) {
                let k = choose|k: int| 0 <= k < s.drop_last().len() && s.drop_last()[k] == v;
                assert(s[k] == v);
            }
        }
    }
}

/// When a prefix already holds every mention of `v`, no mention follows it.
proof fn lemma_occ_no_later(s: Seq<usize>, v: usize, j: int)
    requires
        0 <= j < s.len(),
        occ(s.take(j + 1), v) == occ(s, v),
    ensures
        forall|m: int| j < m < s.len() ==> #[trigger] s[m] != v,
{
    assert forall|m: int| j < m < s.len() implies #[trigger] s[m] != v by {
        if s[m] == v {
            lemma_occ_take(s, v, m);
            assert(s.take(m).take(j + 1) =~= s.take(j + 1));
            lemma_occ_take_le(s.take(m), v, j + 1);
            lemma_occ_take_le(s, v, m + 1);
        }
    }
}

/// Edges into `v` from loops outside `done`: none exactly when no such loop
/// has an edge into `v`.
proof fn lemma_in_count_zero(adj: Seq<Vec<usize>>, done: Seq<usize>, v: usize, u: int)
    requires
        0 <= u <= adj.len(),
    ensures
        in_count(adj, done, v, u) == 0 <==> forall|w: int|
            0 <= w < u && !done.contains(w as usize) ==> !#[trigger] has_edge(adj, w, v),
    decreases u,
{
    if u > 0 {
        lemma_in_count_zero(adj, done, v, u - 1);
        lemma_occ_contains(adj[u - 1]@, v);
        if in_count(adj, done, v, u) != 0 {
            if in_count(adj, done, v, u - 1) == 0 {
                assert(has_edge(adj, u - 1, v));
            }
        }
    }
}

/// Taking one more loop `x` into `done` removes exactly its edges into `v`.
proof fn lemma_in_count_step(adj: Seq<Vec<usize>>, done: Seq<usize>, x: usize, v: usize, u: int)
    requires
        0 <= u <= adj.len(),
        adj.len() <= usize::MAX,
        !done.contains(x),
    ensures
        x < u ==> in_count(adj, done.push(x), v, u) + occ(adj[x as int]@, v) == in_count(
            adj,
            done,
            v,
            u,
        ),
        x >= u ==> in_count(adj, done.push(x), v, u) == in_count(adj, done, v, u),
    decreases u,
{
    if u > 0 {
        lemma_in_count_step(adj, done, x, v, u - 1);
        let w = (u - 1) as usize;
        assert(done.push(x).contains(w) <==> (done.contains(w) || w == x)) by {
            if done.push(x).contains(w) {
                let k = choose|k: int| 0 <= k < done.push(x).len() && done.push(x)[k] == w;
                if k < done.len() {
                    assert(done[k] == w);
                }
            }
            if done.contains(w) {
                let k = choose|k: int| 0 <= k < done.len() && done[k] == w;
                assert(done.push(x)[k] == w);
            }
            if w == x {
                assert(done.push(x)[done.len() as int] == w);
            }
        }
    }
}

/// Edges counted into `v` never exceed the edges held overall.
proof fn lemma_in_count_le_total(adj: Seq<Vec<usize>>, done: Seq<usize>, v: usize, u: int)
    requires
        0 <= u <= adj.len(),
    ensures
        in_count(adj, done, v, u) <= edge_total(adj, u),
    decreases u,
{
    if u > 0 {
        lemma_in_count_le_total(adj, done, v, u - 1);
        lemma_occ_le_len(adj[u - 1]@, v);
    }
}

proof fn lemma_edge_total_mono(adj: Seq<Vec<usize>>, a: int, b: int)
    requires
        0 <= a <= b <= adj.len(),
    ensures
        edge_total(adj, a) <= edge_total(adj, b),
    decreases b - a,
{
    if a < b {
        lemma_edge_total_mono(adj, a, b - 1);
    }
}

proof fn lemma_edge_total_zero(adj: Seq<Vec<usize>>, m: int)
    requires
        0 <= m <= adj.len(),
        forall|u: int| 0 <= u < adj.len() ==> (#[trigger] adj[u])@.len() == 0,
    ensures
        edge_total(adj, m) == 0,
    decreases m,
{
    if m > 0 {
        lemma_edge_total_zero(adj, m - 1);
    }
}

/// Growing one row by one value adds one edge to every count that covers it.
proof fn lemma_edge_total_grow(adj: Seq<Vec<usize>>, s: int, row: Vec<usize>, m: int)
    requires
        0 <= s < adj.len(),
        0 <= m <= adj.len(),
        row@.len() == adj[s]@.len() + 1,
    ensures
        edge_total(adj.update(s, row), m) == edge_total(adj, m) + if s < m {
            1nat
        } else {
            0nat
        },
    decreases m,
{
    if m > 0 {
        lemma_edge_total_grow(adj, s, row, m - 1);
    }
}

/// Values below `n`, as a set of size `n`.
proof fn lemma_below_set(n: nat)
    ensures
        Set::new(|x: usize| x < n).finite(),
        Set::new(|x: usize| x < n).len() <= n,
        n <= usize::MAX ==> Set::new(|x: usize| x < n).len() == n,
    decreases n,
{
    if n == 0 {
        assert(Set::new(|x: usize| x < n) =~= Set::<usize>::empty());
    } else {
        lemma_below_set((n - 1) as nat);
        let prev = Set::new(|x: usize| x < (n - 1) as nat);
        if n - 1 <= usize::MAX {
            assert(Set::new(|x: usize| x < n) =~= prev.insert((n - 1) as usize));
        } else {
            assert(Set::new(|x: usize| x < n) =~= prev);
        }
    }
}

/// A duplicate-free sequence of values below `n` holds at most `n` values.
proof fn lemma_distinct_below_len(s: Seq<usize>, n: nat)
    requires
        s.no_duplicates(),
        forall|i: int| 0 <= i < s.len() ==> #[trigger] s[i] < n,
    ensures
        s.len() <= n,
{
    s.unique_seq_to_set();
    lemma_below_set(n);
    assert(s.to_set().subset_of(Set::new(|x: usize| x < n)));
    vstd::set_lib::lemma_len_subset(s.to_set(), Set::new(|x: usize| x < n));
}

// ---------------------------------------------------------------- Kahn's algorithm

/// In-degree of every loop: the number of dependency edges into it.
fn in_degrees(adj: &Vec<Vec<usize>>) -> (indeg: Vec<usize>)
    requires
        targets_in_range(adj@),
        edge_total(adj@, adj@.len() as int) <= usize::MAX,
    ensures
        indeg@.len() == adj@.len(),
        forall|w: usize|
            w < adj@.len() ==> #[trigger] indeg@[w as int] == in_count(
                adj@,
                Seq::empty(),
                w,
                adj@.len() as int,
            ),
{
    let n = adj.len();
    let mut indeg: Vec<usize> = Vec::new();
    let mut v: usize = 0;
    while v < n
        invariant
            v <= n,
            n == adj@.len(),
            indeg@.len() == v,
            forall|w: int| 0 <= w < v ==> indeg@[w] == 0,
        decreases n - v,
    {
        indeg.push(0);
        v = v + 1;
    }
    let mut u: usize = 0;
    while u < n
        invariant
            u <= n,
            n == adj@.len(),
            indeg@.len() == n,
            targets_in_range(adj@),
            edge_total(adj@, n as int) <= usize::MAX,
            forall|w: usize|
                w < n ==> #[trigger] indeg@[w as int] == in_count(adj@, Seq::empty(), w, u as int),
        decreases n - u,
    {
        let row = &adj[u];
        let mut j: usize = 0;
        while j < row.len()
            invariant
                u < n,
                n == adj@.len(),
                row@ == adj@[u as int]@,
                j <= row@.len(),
                indeg@.len() == n,
                targets_in_range(adj@),
                edge_total(adj@, n as int) <= usize::MAX,
                forall|w: usize|
                    w < n ==> #[trigger] indeg@[w as int] == in_count(adj@, Seq::empty(), w, u as int)
                        + occ(row@.take(j as int), w),
            decreases row@.len() - j,
        {
            let t = row[j];
            proof {
                assert(adj@[u as int]@[j as int] < n);
                lemma_in_count_le_total(adj@, Seq::empty(), t, u as int);
                lemma_occ_le_len(row@.take(j as int), t);
                lemma_edge_total_mono(adj@, u + 1, n as int);
                assert forall|w: usize| w < n implies occ(row@.take(j + 1), w) == occ(
                    row@.take(j as int),
                    w,
                ) + if row@[j as int] == w {
                    1nat
                } else {
                    0nat
                } by {
                    lemma_occ_take(row@, w, j as int);
                }
            }
            let d = indeg[t];
            indeg.set(t, d + 1);
            j = j + 1;
        }
        proof {
            assert(row@.take(row@.len() as int) =~= row@);
            assert(!Seq::<usize>::empty().contains(u));
        }
        u = u + 1;
    }
    indeg
}

/// Loops with no incoming edge, in increasing index order.
fn zero_positions(indeg: &Vec<usize>) -> (q: Vec<usize>)
    ensures
        forall|i: int, k: int| 0 <= i < k < q@.len() ==> q@[i] < q@[k],
        forall|i: int| 0 <= i < q@.len() ==> #[trigger] q@[i] < indeg@.len(),
        forall|w: usize| w < indeg@.len() ==> (q@.contains(w) <==> #[trigger] indeg@[w as int] == 0),
{
    let n = indeg.len();
    let mut q: Vec<usize> = Vec::new();
    let mut v: usize = 0;
    while v < n
        invariant
            v <= n,
            n == indeg@.len(),
            forall|i: int, k: int| 0 <= i < k < q@.len() ==> q@[i] < q@[k],
            forall|i: int| 0 <= i < q@.len() ==> #[trigger] q@[i] < v,
            forall|i: int| 0 <= i < q@.len() ==> indeg@[#[trigger] q@[i] as int] == 0,
            forall|w: usize| w < v && #[trigger] indeg@[w as int] == 0 ==> q@.contains(w),
        decreases n - v,
    {
        if indeg[v] == 0 {
            let ghost before = q@;
            q.push(v);
            proof {
                assert forall|w: usize| w < v + 1 && #[trigger] indeg@[w as int] == 0 implies q@.contains(w) by {
                    if w < v {
                        let k = choose|k: int| 0 <= k < before.len() && before[k] == w;
                        assert(q@[k] == w);
                    } else {
                        assert(q@[before.len() as int] == w);
                    }
                }
            }
        }
        v = v + 1;
    }
    proof {
        assert forall|w: usize| w < n && q@.contains(w) implies #[trigger] indeg@[w as int] == 0 by {
            let k = choose|k: int| 0 <= k < q@.len() && q@[k] == w;
            assert(indeg@[q@[k] as int] == 0);
        }
    }
    q
}

/// Loops left with incoming edges, in increasing index order.
fn nonzero_positions(indeg: &Vec<usize>) -> (t: Vec<usize>)
    ensures
        forall|i: int, k: int| 0 <= i < k < t@.len() ==> t@[i] < t@[k],
        forall|i: int| 0 <= i < t@.len() ==> #[trigger] t@[i] < indeg@.len(),
        forall|w: usize| w < indeg@.len() ==> (t@.contains(w) <==> #[trigger] indeg@[w as int] != 0),
{
    let n = indeg.len();
    let mut t: Vec<usize> = Vec::new();
    let mut v: usize = 0;
    while v < n
        invariant
            v <= n,
            n == indeg@.len(),
            forall|i: int, k: int| 0 <= i < k < t@.len() ==> t@[i] < t@[k],
            forall|i: int| 0 <= i < t@.len() ==> #[trigger] t@[i] < v,
            forall|i: int| 0 <= i < t@.len() ==> indeg@[#[trigger] t@[i] as int] != 0,
            forall|w: usize| w < v && #[trigger] indeg@[w as int] != 0 ==> t@.contains(w),
        decreases n - v,
    {
        if indeg[v] != 0 {
            let ghost before = t@;
            t.push(v);
            proof {
                assert forall|w: usize| w < v + 1 && #[trigger] indeg@[w as int] != 0 implies t@.contains(w) by {
                    if w < v {
                        let k = choose|k: int| 0 <= k < before.len() && before[k] == w;
                        assert(t@[k] == w);
                    } else {
                        assert(t@[before.len() as int] == w);
                    }
                }
            }
        }
        v = v + 1;
    }
    proof {
        assert forall|w: usize| w < n && t@.contains(w) implies #[trigger] indeg@[w as int] != 0 by {
            let k = choose|k: int| 0 <= k < t@.len() && t@[k] == w;
            assert(indeg@[t@[k] as int] != 0);
        }
    }
    t
}

/// The Kahn invariant on queue `q` with its first `h` loops done.
pub open spec fn kahn_state(adj: Seq<Vec<usize>>, indeg: Seq<usize>, q: Seq<usize>, h: int) -> bool {
    &&& indeg.len() == adj.len()
    &&& 0 <= h <= q.len()
    &&& q.no_duplicates()
    &&& forall|i: int| 0 <= i < q.len() ==> #[trigger] q[i] < adj.len()
    &&& forall|w: usize|
        w < adj.len() ==> #[trigger] indeg[w as int] == in_count(
            adj,
            q.subrange(0, h),
            w,
            adj.len() as int,
        )
    &&& forall|w: usize| w < adj.len() ==> (q.contains(w) <==> #[trigger] indeg[w as int] == 0)
    &&& forall|i: int, w: int|
        0 <= i < q.len() && #[trigger] has_edge(adj, w, q[i]) ==> exists|j: int|
            0 <= j < i && q[j] == w
}

/// The queue was filled first in, first out, with its first `h` loops
/// processed.
pub open spec fn fifo_state(adj: Seq<Vec<usize>>, q: Seq<usize>, h: int) -> bool {
    &&& forall|j: int, p: int| #[trigger] released_by(adj, q, j, p) ==> j < h
    &&& forall|p: int, p2: int| 0 <= p < p2 < q.len() ==> #[trigger] released_in_order(adj, q, p, p2)
}

/// While loop `q0[h]` is processed: `q0` grew to `q`, every loop added was
/// released by it, and they were added in the order of their last mention
/// in its row `row`, all before position `j`.
pub open spec fn step_fifo(
    adj: Seq<Vec<usize>>,
    q0: Seq<usize>,
    q: Seq<usize>,
    h: int,
    row: Seq<usize>,
    j: int,
) -> bool {
    &&& fifo_state(adj, q0, h)
    &&& 0 <= h < q0.len() <= q.len()
    &&& q.subrange(0, q0.len() as int) == q0
    &&& row == adj[q0[h] as int]@
    &&& forall|p: int| q0.len() <= p < q.len() ==> #[trigger] released_by(adj, q, h, p)
    &&& forall|p: int, k: int|
        q0.len() <= p < q.len() && #[trigger] last_position(row, q[p], k) ==> k < j
    &&& forall|p: int, p2: int, k: int, k2: int|
        q0.len() <= p < p2 < q.len() && #[trigger] last_position(row, q[p], k) && #[trigger] last_position(
            row,
            q[p2],
            k2,
        ) ==> k < k2
}

/// Release facts depend only on the positions up to the released loop.
proof fn lemma_released_prefix(adj: Seq<Vec<usize>>, q1: Seq<usize>, q2: Seq<usize>, len: int)
    requires
        0 <= len <= q1.len(),
        len <= q2.len(),
        forall|k: int| 0 <= k < len ==> q1[k] == q2[k],
    ensures
        forall|j: int, p: int|
            p < len ==> (#[trigger] released_by(adj, q1, j, p) == released_by(adj, q2, j, p)),
        forall|p: int, p2: int|
            0 <= p < p2 < len ==> (#[trigger] released_in_order(adj, q1, p, p2) == released_in_order(
                adj,
                q2,
                p,
                p2,
            )),
{
    assert forall|j: int, p: int| p < len implies (#[trigger] released_by(adj, q1, j, p)
        == released_by(adj, q2, j, p)) by {
        if 0 <= j < p {
            assert(q1[j] == q2[j]);
            assert(q1[p] == q2[p]);
            assert forall|k: int| j < k < p implies (has_edge(adj, q1[k] as int, q1[p]) == has_edge(
                adj,
                q2[k] as int,
                q2[p],
            )) by {
                assert(q1[k] == q2[k]);
            }
        }
    }
    assert forall|p: int, p2: int| 0 <= p < p2 < len implies (#[trigger] released_in_order(adj, q1, p, p2)
        == released_in_order(adj, q2, p, p2)) by {
        lemma_released_in_order_transfer(adj, q1, q2, len, p, p2);
        lemma_released_in_order_transfer(adj, q2, q1, len, p, p2);
    }
}

proof fn lemma_released_in_order_transfer(
    adj: Seq<Vec<usize>>,
    q1: Seq<usize>,
    q2: Seq<usize>,
    len: int,
    p: int,
    p2: int,
)
    requires
        0 <= p < p2 < len <= q1.len(),
        len <= q2.len(),
        forall|k: int| 0 <= k < len ==> q1[k] == q2[k],
        forall|j: int, p: int|
            p < len ==> (#[trigger] released_by(adj, q1, j, p) == released_by(adj, q2, j, p)),
    ensures
        released_in_order(adj, q1, p, p2) ==> released_in_order(adj, q2, p, p2),
{
    if released_in_order(adj, q1, p, p2) {
        assert forall|a: int, b: int|
            #![trigger released_by(adj, q2, a, p), released_by(adj, q2, b, p2)]
            released_by(adj, q2, a, p) && released_by(adj, q2, b, p2) implies a < b || (a == b
                && forall|k: int, k2: int|
                #![trigger last_position(adj[q2[a] as int]@, q2[p], k), last_position(adj[q2[a] as int]@, q2[p2], k2)]
                last_position(adj[q2[a] as int]@, q2[p], k) && last_position(
                    adj[q2[a] as int]@,
                    q2[p2],
                    k2,
                ) ==> k < k2) by {
            assert(released_by(adj, q1, a, p));
            assert(released_by(adj, q1, b, p2));
            assert(q1[a] == q2[a]);
            assert(q1[p] == q2[p]);
            assert(q1[p2] == q2[p2]);
        }
    }
}

/// A loop has one releaser.
proof fn lemma_released_unique(adj: Seq<Vec<usize>>, q: Seq<usize>, j: int, j2: int, p: int)
    requires
        released_by(adj, q, j, p),
        released_by(adj, q, j2, p),
    ensures
        j == j2,
{
    if j < j2 {
        assert(!has_edge(adj, q[j2] as int, q[p]));
    } else if j2 < j {
        assert(!has_edge(adj, q[j] as int, q[p]));
    }
}

/// A value has one last position.
proof fn lemma_last_unique(s: Seq<usize>, v: usize, k: int, k2: int)
    requires
        last_position(s, v, k),
        last_position(s, v, k2),
    ensures
        k == k2,
{
    if k < k2 {
        assert(s[k2] != v);
    } else if k2 < k {
        assert(s[k] != v);
    }
}

proof fn lemma_step_start(adj: Seq<Vec<usize>>, q: Seq<usize>, h: int)
    requires
        fifo_state(adj, q, h),
        0 <= h < q.len(),
    ensures
        step_fifo(adj, q, q, h, adj[q[h] as int]@, 0),
{
    assert(q.subrange(0, q.len() as int) =~= q);
}

proof fn lemma_step_skip(adj: Seq<Vec<usize>>, q0: Seq<usize>, q: Seq<usize>, h: int, row: Seq<usize>, j: int)
    requires
        step_fifo(adj, q0, q, h, row, j),
    ensures
        step_fifo(adj, q0, q, h, row, j + 1),
{
}

proof fn lemma_step_push(
    adj: Seq<Vec<usize>>,
    q0: Seq<usize>,
    q: Seq<usize>,
    h: int,
    row: Seq<usize>,
    j: int,
    t: usize,
)
    requires
        step_fifo(adj, q0, q, h, row, j),
        released_by(adj, q.push(t), h, q.len() as int),
        last_position(row, t, j),
    ensures
        step_fifo(adj, q0, q.push(t), h, row, j + 1),
{
    let q2 = q.push(t);
    assert forall|k: int| 0 <= k < q.len() implies q[k] == q2[k] by {}
    lemma_released_prefix(adj, q, q2, q.len() as int);
    assert(q2.subrange(0, q0.len() as int) =~= q.subrange(0, q0.len() as int));
    assert forall|p: int| q0.len() <= p < q2.len() implies #[trigger] released_by(adj, q2, h, p) by {
        if p < q.len() {
            assert(released_by(adj, q, h, p));
        }
    }
    assert forall|p: int, k: int| q0.len() <= p < q2.len() && #[trigger] last_position(row, q2[p], k) implies k
        < j + 1 by {
        if p < q.len() {
            assert(q2[p] == q[p]);
        } else {
            lemma_last_unique(row, t, k, j);
        }
    }
    assert forall|p: int, p2: int, k: int, k2: int|
        q0.len() <= p < p2 < q2.len() && #[trigger] last_position(row, q2[p], k) && #[trigger] last_position(
            row,
            q2[p2],
            k2,
        ) implies k < k2 by {
        assert(q2[p] == q[p]);
        if p2 < q.len() {
            assert(q2[p2] == q[p2]);
        } else {
            lemma_last_unique(row, t, k2, j);
            assert(last_position(row, q[p], k));
        }
    }
}

proof fn lemma_step_end(adj: Seq<Vec<usize>>, q0: Seq<usize>, q: Seq<usize>, h: int, row: Seq<usize>, j: int)
    requires
        step_fifo(adj, q0, q, h, row, j),
    ensures
        fifo_state(adj, q, h + 1),
{
    let l0 = q0.len() as int;
    assert forall|k: int| 0 <= k < l0 implies q0[k] == q[k] by {
        assert(q.subrange(0, l0)[k] == q[k]);
    }
    lemma_released_prefix(adj, q0, q, l0);
    assert forall|jj: int, p: int| #[trigger] released_by(adj, q, jj, p) implies jj < h + 1 by {
        if p < l0 {
            assert(released_by(adj, q0, jj, p));
        } else {
            assert(released_by(adj, q, h, p));
            lemma_released_unique(adj, q, jj, h, p);
        }
    }
    assert forall|p: int, p2: int| 0 <= p < p2 < q.len() implies #[trigger] released_in_order(adj, q, p, p2) by {
        if p2 < l0 {
            assert(released_in_order(adj, q0, p, p2));
        } else {
            assert forall|a: int, b: int|
                #![trigger released_by(adj, q, a, p), released_by(adj, q, b, p2)]
                released_by(adj, q, a, p) && released_by(adj, q, b, p2) implies a < b || (a == b
                    && forall|k: int, k2: int|
                    #![trigger last_position(adj[q[a] as int]@, q[p], k), last_position(adj[q[a] as int]@, q[p2], k2)]
                    last_position(adj[q[a] as int]@, q[p], k) && last_position(
                        adj[q[a] as int]@,
                        q[p2],
                        k2,
                    ) ==> k < k2) by {
                assert(released_by(adj, q, h, p2));
                lemma_released_unique(adj, q, b, h, p2);
                if p < l0 {
                    assert(released_by(adj, q0, a, p));
                } else {
                    assert(released_by(adj, q, h, p));
                    lemma_released_unique(adj, q, a, h, p);
                    assert(q[h] == q0[h]) by {
                        assert(q.subrange(0, l0)[h] == q[h]);
                    }
                }
            }
        }
    }
}

/// Processes the next loop of the queue: its dependants lose one incoming
/// edge each, and those left with none join the queue.
fn kahn_step(adj: &Vec<Vec<usize>>, indeg: &mut Vec<usize>, q: &mut Vec<usize>, h: usize)
    requires
        targets_in_range(adj@),
        kahn_state(adj@, old(indeg)@, old(q)@, h as int),
        fifo_state(adj@, old(q)@, h as int),
        h < old(q)@.len(),
    ensures
        kahn_state(adj@, final(indeg)@, final(q)@, h + 1),
        fifo_state(adj@, final(q)@, h + 1),
        old(q)@.len() <= final(q)@.len(),
        final(q)@.subrange(0, old(q)@.len() as int) == old(q)@,
{
    let n = adj.len();
    let x = q[h];
    let ghost done_old = q@.subrange(0, h as int);
    let ghost done_new = q@.subrange(0, h + 1);
    let ghost q0 = q@;
    proof {
        assert(done_new =~= done_old.push(x));
        assert(!done_old.contains(x)) by {
            if done_old.contains(x) {
                let k = choose|k: int| 0 <= k < done_old.len() && done_old[k] == x;
                assert(q@[k] == q@[h as int]);
            }
        }
        assert forall|w: usize| w < n implies #[trigger] in_count(adj@, done_new, w, n as int) + occ(
            adj@[x as int]@,
            w,
        ) == in_count(adj@, done_old, w, n as int) by {
            lemma_in_count_step(adj@, done_old, x, w, n as int);
        }
        lemma_step_start(adj@, q0, h as int);
    }
    let row = &adj[x];
    let mut j: usize = 0;
    while j < row.len()
        invariant
            n == adj@.len(),
            indeg@.len() == n,
            x < n,
            row@ == adj@[x as int]@,
            j <= row@.len(),
            h < q@.len(),
            done_new == q@.subrange(0, h + 1),
            q0.len() <= q@.len(),
            q@.subrange(0, q0.len() as int) == q0,
            !done_old.contains(x),
            done_new == done_old.push(x),
            targets_in_range(adj@),
            q@.no_duplicates(),
            forall|i: int| 0 <= i < q@.len() ==> #[trigger] q@[i] < n,
            forall|w: usize|
                w < n ==> #[trigger] indeg@[w as int] + occ(row@.take(j as int), w) == in_count(
                    adj@,
                    done_new,
                    w,
                    n as int,
                ) + occ(row@, w),
            forall|w: usize| w < n ==> (q@.contains(w) <==> #[trigger] indeg@[w as int] == 0),
            forall|i: int, w: int|
                0 <= i < q@.len() && #[trigger] has_edge(adj@, w, q@[i]) ==> exists|k: int|
                    0 <= k < i && q@[k] == w,
            step_fifo(adj@, q0, q@, h as int, row@, j as int),
            q0[h as int] == x,
        decreases row@.len() - j,
    {
        let t = row[j];
        proof {
            assert(adj@[x as int]@[j as int] < n);
            assert forall|w: usize| w < n implies occ(row@.take(j + 1), w) == occ(
                row@.take(j as int),
                w,
            ) + if row@[j as int] == w {
                1nat
            } else {
                0nat
            } by {
                lemma_occ_take(row@, w, j as int);
            }
            lemma_occ_take_le(row@, t, j + 1);
        }
        let d = indeg[t];
        let ghost q_before = q@;
        let ghost indeg_before = indeg@;
        indeg.set(t, d - 1);
        if d - 1 == 0 {
            proof {
                lemma_in_count_zero(adj@, done_new, t, n as int);
                assert(!q_before.contains(t));
                lemma_occ_no_later(row@, t, j as int);
            }
            q.push(t);
            proof {
                assert(released_by(adj@, q@, h as int, q_before.len() as int)) by {
                    assert(q_before.subrange(0, q0.len() as int)[h as int] == q_before[h as int]);
                    assert(q@[h as int] == x);
                    assert(row@[j as int] == t);
                    assert(adj@[x as int]@.contains(t));
                    assert forall|k: int| h < k < q_before.len() implies !#[trigger] has_edge(
                        adj@,
                        q@[k] as int,
                        q@[q_before.len() as int],
                    ) by {
                        assert(q@[k] == q_before[k]);
                        if done_new.contains(q_before[k]) {
                            let m = choose|m: int| 0 <= m < done_new.len() && done_new[m] == q_before[k];
                            assert(q_before[m] == q_before[k]);
                        }
                    }
                }
                lemma_step_push(adj@, q0, q_before, h as int, row@, j as int, t);
                assert(q@.subrange(0, h + 1) =~= q_before.subrange(0, h + 1));
                assert(q@.subrange(0, q0.len() as int) =~= q_before.subrange(0, q0.len() as int));
                assert(q@.no_duplicates()) by {
                    assert forall|a: int, b: int|
                        0 <= a < q@.len() && 0 <= b < q@.len() && a != b implies q@[a] != q@[b] by {
                        if a < q_before.len() && b < q_before.len() {
                        } else if a < q_before.len() {
                            assert(q_before[a] == q@[a]);
                        } else {
                            assert(q_before[b] == q@[b]);
                        }
                    }
                }
                assert forall|w: usize| w < n implies (q@.contains(w) <==> #[trigger] indeg@[w as int] == 0) by {
                    if w == t {
                        assert(q@[q_before.len() as int] == t);
                    } else {
                        if q_before.contains(w) {
                            let k = choose|k: int| 0 <= k < q_before.len() && q_before[k] == w;
                            assert(q@[k] == w);
                        }
                        if q@.contains(w) {
                            let k = choose|k: int| 0 <= k < q@.len() && q@[k] == w;
                            assert(q_before[k] == w);
                        }
                    }
                }
                assert forall|i: int, w: int|
                    0 <= i < q@.len() && #[trigger] has_edge(adj@, w, q@[i]) implies exists|k: int|
                        0 <= k < i && q@[k] == w by {
                    if i < q_before.len() {
                        assert(q_before[i] == q@[i]);
                        let k = choose|k: int| 0 <= k < i && q_before[k] == w;
                        assert(q@[k] == w);
                    } else {
                        assert(q@[i] == t);
                        assert(done_new.contains(w as usize));
                        let k = choose|k: int| 0 <= k < done_new.len() && done_new[k] == w as usize;
                        assert(q@[k] == w);
                    }
                }
            }
        } else {
            proof {
                assert forall|w: usize| w < n implies (q@.contains(w) <==> #[trigger] indeg@[w as int] == 0) by {
                    if w != t {
                        assert(indeg@[w as int] == indeg_before[w as int]);
                    }
                }
                lemma_step_skip(adj@, q0, q@, h as int, row@, j as int);
            }
        }
        j = j + 1;
    }
    proof {
        assert(row@.take(row@.len() as int) =~= row@);
        lemma_step_end(adj@, q0, q@, h as int, row@, j as int);
    }
}

/// What the sorting phase leaves behind: the released loops `sorted`, the
/// in-degrees `indeg` left over, and the loops `tail` still holding
/// incoming edges, in increasing order.
pub open spec fn sort_finished(
    adj: Seq<Vec<usize>>,
    indeg: Seq<usize>,
    sorted: Seq<usize>,
    tail: Seq<usize>,
) -> bool {
    &&& kahn_state(adj, indeg, sorted, sorted.len() as int)
    &&& forall|i: int, k: int| 0 <= i < k < tail.len() ==> tail[i] < tail[k]
    &&& forall|i: int| 0 <= i < tail.len() ==> #[trigger] tail[i] < indeg.len()
    &&& forall|w: usize| w < indeg.len() ==> (tail.contains(w) <==> #[trigger] indeg[w as int] != 0)
}

proof fn lemma_finished_permutation(
    adj: Seq<Vec<usize>>,
    indeg: Seq<usize>,
    sorted: Seq<usize>,
    tail: Seq<usize>,
    order: Seq<usize>,
)
    requires
        sort_finished(adj, indeg, sorted, tail),
        order == sorted + tail,
        adj.len() <= usize::MAX,
    ensures
        forall|i: int| 0 <= i < order.len() ==> #[trigger] order[i] < adj.len(),
        forall|v: usize| v < adj.len() ==> #[trigger] order.contains(v),
        order.no_duplicates(),
        order.len() == adj.len(),
{
    let n = adj.len();
    let sl = sorted.len() as int;
    assert forall|i: int| 0 <= i < order.len() implies #[trigger] order[i] < n by {
        if i >= sl {
            assert(order[i] == tail[i - sl]);
        }
    }
    assert forall|v: usize| v < n implies #[trigger] order.contains(v) by {
        if sorted.contains(v) {
            let k = choose|k: int| 0 <= k < sorted.len() && sorted[k] == v;
            assert(order[k] == v);
        } else {
            assert(indeg[v as int] != 0);
            assert(tail.contains(v));
            let k = choose|k: int| 0 <= k < tail.len() && tail[k] == v;
            assert(order[sl + k] == v);
        }
    }
    assert(order.no_duplicates()) by {
        assert forall|a: int, b: int| 0 <= a < order.len() && 0 <= b < order.len() && a != b implies order[a]
            != order[b] by {
            if a < sl && b < sl {
            } else if a >= sl && b >= sl {
                if a < b {
                    assert(tail[a - sl] < tail[b - sl]);
                } else {
                    assert(tail[b - sl] < tail[a - sl]);
                }
            } else {
                let (p, t) = if a < sl { (a, b) } else { (b, a) };
                let x = order[t];
                assert(tail[t - sl] == x);
                assert(tail.contains(x));
                if order[a] == order[b] {
                    assert(sorted[p] == x);
                    assert(sorted.contains(x));
                    assert(indeg[x as int] != 0);
                }
            }
        }
    }
    assert(order.to_set() =~= Set::new(|x: usize| x < n)) by {
        assert forall|x: usize| order.to_set().contains(x) implies x < n by {
            let k = choose|k: int| 0 <= k < order.len() && order[k] == x;
            assert(order[k] < n);
        }
        assert forall|x: usize| x < n implies order.to_set().contains(x) by {
            assert(order.contains(x));
        }
    }
    order.unique_seq_to_set();
    lemma_below_set(n as nat);
}

/// A loop with an edge from outside `sorted` has a predecessor in `tail`,
/// when every loop lies in `sorted` or in `tail`.
proof fn lemma_left_over_one(
    adj: Seq<Vec<usize>>,
    sorted: Seq<usize>,
    tail: Seq<usize>,
    order: Seq<usize>,
    v: usize,
)
    requires
        order == sorted + tail,
        adj.len() <= usize::MAX,
        v < adj.len(),
        in_count(adj, sorted, v, adj.len() as int) != 0,
        forall|w: usize| w < adj.len() ==> #[trigger] sorted.contains(w) || tail.contains(w),
    ensures
        has_edge_from(adj, order, sorted.len() as int, v),
{
    let n = adj.len();
    let sl = sorted.len() as int;
    lemma_in_count_zero(adj, sorted, v, n as int);
    let u = choose|u: int| 0 <= u < n && !sorted.contains(u as usize) && #[trigger] has_edge(adj, u, v);
    assert(sorted.contains(u as usize) || tail.contains(u as usize));
    let k = choose|k: int| 0 <= k < tail.len() && tail[k] == u as usize;
    assert(order[sl + k] == u as usize);
    assert(has_edge(adj, order[sl + k] as int, v));
}

proof fn lemma_finished_left_over(
    adj: Seq<Vec<usize>>,
    indeg: Seq<usize>,
    sorted: Seq<usize>,
    tail: Seq<usize>,
    order: Seq<usize>,
)
    requires
        sort_finished(adj, indeg, sorted, tail),
        order == sorted + tail,
        adj.len() <= usize::MAX,
    ensures
        forall|i: int|
            sorted.len() <= i < order.len() ==> #[trigger] has_edge_from(
                adj,
                order,
                sorted.len() as int,
                order[i],
            ),
{
    let n = adj.len();
    let sl = sorted.len() as int;
    assert(sorted.subrange(0, sl) =~= sorted);
    assert forall|w: usize| w < n implies #[trigger] sorted.contains(w) || tail.contains(w) by {
        if indeg[w as int] == 0 {
        } else {
        }
    }
    assert forall|i: int| sl <= i < order.len() implies #[trigger] has_edge_from(adj, order, sl, order[i]) by {
        let v = order[i];
        assert(tail[i - sl] == v);
        assert(tail.contains(v));
        assert(indeg[v as int] != 0);
        lemma_left_over_one(adj, sorted, tail, order, v);
    }
}

/// The loops without dependencies, released first in increasing order, stay
/// in front.
proof fn lemma_sources_first(adj: Seq<Vec<usize>>, order: Seq<usize>, first: Seq<usize>)
    requires
        first.len() <= order.len(),
        order.subrange(0, first.len() as int) == first,
        order.no_duplicates(),
        forall|i: int| 0 <= i < order.len() ==> #[trigger] order[i] < adj.len(),
        forall|i: int, k: int| 0 <= i < k < first.len() ==> first[i] < first[k],
        forall|w: usize| w < adj.len() ==> (first.contains(w) <==> #[trigger] is_source(adj, w)),
    ensures
        forall|i: int, k: int|
            #![trigger order[i], order[k]]
            0 <= i < k < order.len() && is_source(adj, order[k]) ==> is_source(adj, order[i])
                && order[i] < order[k],
{
    assert forall|i: int, k: int|
        #![trigger order[i], order[k]]
        0 <= i < k < order.len() && is_source(adj, order[k]) implies is_source(adj, order[i])
            && order[i] < order[k] by {
        let v = order[k];
        assert(first.contains(v));
        let p = choose|p: int| 0 <= p < first.len() && first[p] == v;
        assert(order.subrange(0, first.len() as int)[p] == order[p]);
        assert(order[p] == v);
        assert(p == k);
        assert(order.subrange(0, first.len() as int)[i] == order[i]);
        assert(first[i] < first[k]);
        assert(first.contains(order[i]));
    }
}

/// The released loops followed by the left-over ones form a plant order.
proof fn lemma_finished_order(
    adj: Seq<Vec<usize>>,
    indeg: Seq<usize>,
    sorted: Seq<usize>,
    tail: Seq<usize>,
    order: Seq<usize>,
    first: Seq<usize>,
)
    requires
        sort_finished(adj, indeg, sorted, tail),
        order == sorted + tail,
        adj.len() <= usize::MAX,
        first.len() <= sorted.len(),
        sorted.subrange(0, first.len() as int) == first,
        forall|i: int, k: int| 0 <= i < k < first.len() ==> first[i] < first[k],
        forall|w: usize| w < adj.len() ==> (first.contains(w) <==> #[trigger] is_source(adj, w)),
        fifo_state(adj, sorted, sorted.len() as int),
    ensures
        is_plant_order(adj, order, sorted.len() as int),
{
    assert forall|k: int| 0 <= k < sorted.len() implies sorted[k] == order[k] by {}
    lemma_released_prefix(adj, sorted, order, sorted.len() as int);
    assert(order.subrange(0, first.len() as int) =~= first);
    let sl = sorted.len() as int;
    lemma_finished_permutation(adj, indeg, sorted, tail, order);
    lemma_finished_left_over(adj, indeg, sorted, tail, order);
    lemma_sources_first(adj, order, first);
    assert forall|i: int, w: int|
        0 <= i < sl && #[trigger] has_edge(adj, w, order[i]) implies exists|j: int|
            0 <= j < i && order[j] == w by {
        assert(sorted[i] == order[i]);
        let j = choose|j: int| 0 <= j < i && sorted[j] == w;
        assert(order[j] == w);
    }
    assert forall|i: int, k: int| sl <= i < k < order.len() implies order[i] < order[k] by {
        assert(tail[i - sl] < tail[k - sl]);
    }
    assert forall|p: int, p2: int| 0 <= p < p2 < sl implies #[trigger] released_in_order(adj, order, p, p2) by {
        assert(released_in_order(adj, sorted, p, p2));
    }
}

/// Orders the plant loops of the dependency graph `adj`, where `adj[u]`
/// lists the loops that must run after loop `u`.
///
/// Kahn's algorithm releases first the loops without dependencies, in
/// increasing index order, then, first in first out, each loop whose last
/// dependency has just been released; the loops on or behind a dependency
/// cycle follow in increasing index order.
pub fn plant_loop_order(adj: &Vec<Vec<usize>>) -> (r: PlantOrder)
    requires
        targets_in_range(adj@),
        edge_total(adj@, adj@.len() as int) <= usize::MAX,
    ensures
        is_plant_order(adj@, r.order@, r.sorted_len as int),
{
    let n = adj.len();
    let mut indeg = in_degrees(adj);
    let mut q = zero_positions(&indeg);
    proof {
        assert(q@.no_duplicates()) by {
            assert forall|a: int, b: int| 0 <= a < q@.len() && 0 <= b < q@.len() && a != b implies q@[a]
                != q@[b] by {
                if a < b {
                    assert(q@[a] < q@[b]);
                } else {
                    assert(q@[b] < q@[a]);
                }
            }
        }
        assert(q@.subrange(0, 0) =~= Seq::<usize>::empty());
        assert forall|w: usize| w < n implies (q@.contains(w) <==> #[trigger] is_source(adj@, w)) by {
            assert(indeg@[w as int] == in_count(adj@, Seq::empty(), w, n as int));
            lemma_in_count_zero(adj@, Seq::empty(), w, n as int);
            if !is_source(adj@, w) {
                let u = choose|u: int| #[trigger] has_edge(adj@, u, w);
                assert(!Seq::<usize>::empty().contains(u as usize));
            }
            if is_source(adj@, w) {
                assert forall|u: int| 0 <= u < n && !Seq::<usize>::empty().contains(u as usize) implies !#[trigger] has_edge(adj@, u, w) by {
                }
            }
        }
        assert forall|i: int, w: int| 0 <= i < q@.len() && #[trigger] has_edge(adj@, w, q@[i]) implies exists|j: int|
            0 <= j < i && q@[j] == w by {
            let x = q@[i];
            assert(q@.contains(x));
            assert(indeg@[x as int] == 0);
            lemma_in_count_zero(adj@, Seq::empty(), x, n as int);
            assert(!Seq::<usize>::empty().contains(w as usize));
        }
    }
    let ghost first = q@;
    proof {
        assert forall|j: int, p: int| #[trigger] released_by(adj@, q@, j, p) implies j < 0 by {
            assert(q@.contains(q@[p]));
            assert(is_source(adj@, q@[p]));
            assert(!has_edge(adj@, q@[j] as int, q@[p]));
        }
    }
    let mut h: usize = 0;
    while h < q.len()
        invariant
            n == adj@.len(),
            targets_in_range(adj@),
            kahn_state(adj@, indeg@, q@, h as int),
            first.len() <= q@.len(),
            q@.subrange(0, first.len() as int) == first,
            fifo_state(adj@, q@, h as int),
        decreases n - h,
    {
        proof {
            lemma_distinct_below_len(q@, n as nat);
        }
        let ghost q_before = q@;
        kahn_step(adj, &mut indeg, &mut q, h);
        proof {
            assert(q@.subrange(0, first.len() as int) =~= q_before.subrange(0, first.len() as int)) by {
                assert forall|k: int| 0 <= k < first.len() implies q@[k] == q_before[k] by {
                    assert(q@.subrange(0, q_before.len() as int)[k] == q@[k]);
                }
            }
        }
        h = h + 1;
    }
    let sorted_len = q.len();
    let mut tail = nonzero_positions(&indeg);
    let ghost sorted = q@;
    let ghost left_over = tail@;
    let mut order = q;
    order.append(&mut tail);
    proof {
        lemma_finished_order(adj@, indeg@, sorted, left_over, order@, first);
    }
    PlantOrder { order, sorted_len }
}

// ---------------------------------------------------------------- Dependencies between named loops

/// One piece of a plant loop's supply equipment, as far as the loop order
/// and the end-use routing read it.
pub enum PlantEquipment {
    /// A heat exchanger fed by the named source loop, which runs first.
    HeatExchanger { source_loop: String },
    /// A chiller, rejecting heat into the named condenser loop, if any,
    /// which runs after the chiller's own loop.
    Chiller { condenser_loop: Option<String> },
    /// A pump; its electric power is booked under pumps.
    Pump { name: String },
    /// Equipment that ties its loop to no other loop.
    Other,
}

/// The loop that `name` resolves to among the first `k` loops: the last one
/// carrying that name.
pub open spec fn last_named(names: Seq<String>, name: Seq<char>, k: int) -> Option<usize>
    decreases k,
{
    if k <= 0 {
        None
    } else if names[k - 1]@ == name {
        Some((k - 1) as usize)
    } else {
        last_named(names, name, k - 1)
    }
}

proof fn lemma_last_named_bound(names: Seq<String>, name: Seq<char>, k: int)
    ensures
        last_named(names, name, k) matches Some(x) ==> x < k,
    decreases k,
{
    if k > 0 {
        lemma_last_named_bound(names, name, k - 1);
    }
}

/// The loop that `name` resolves to: the last loop carrying that name.
pub open spec fn loop_named(names: Seq<String>, name: Seq<char>) -> Option<usize> {
    last_named(names, name, names.len() as int)
}

/// The dependants that equipment `item` of loop `i` adds to the row of loop `u`.
pub open spec fn equipment_edges(names: Seq<String>, item: PlantEquipment, i: usize, u: usize) -> Seq<usize> {
    match item {
        PlantEquipment::HeatExchanger { source_loop } => if loop_named(names, source_loop@) == Some(u) {
            seq![i]
        } else {
            Seq::empty()
        },
        PlantEquipment::Chiller { condenser_loop: Some(cond) } => if i == u && loop_named(names, cond@) is Some {
            seq![loop_named(names, cond@)->0]
        } else {
            Seq::empty()
        },
        _ => Seq::empty(),
    }
}

/// The dependants that the first `k` pieces of equipment of loop `i` add to
/// the row of `u`.
pub open spec fn loop_edges(names: Seq<String>, ls: Seq<PlantEquipment>, i: usize, u: usize, k: int) -> Seq<
    usize,
>
    decreases k,
{
    if k <= 0 {
        Seq::empty()
    } else {
        loop_edges(names, ls, i, u, k - 1) + equipment_edges(names, ls[k - 1], i, u)
    }
}

/// The row of loop `u` in the dependency graph of the first `i` loops.
pub open spec fn dependency_row(names: Seq<String>, equipment: Seq<Vec<PlantEquipment>>, u: usize, i: int) -> Seq<
    usize,
>
    decreases i,
{
    if i <= 0 {
        Seq::empty()
    } else {
        dependency_row(names, equipment, u, i - 1) + loop_edges(
            names,
            equipment[i - 1]@,
            (i - 1) as usize,
            u,
            equipment[i - 1]@.len() as int,
        )
    }
}

/// `adj` is the dependency graph of the loops named `names`, whose supply
/// equipment `equipment` lists.
pub open spec fn is_dependency_graph(
    adj: Seq<Vec<usize>>,
    names: Seq<String>,
    equipment: Seq<Vec<PlantEquipment>>,
) -> bool {
    &&& adj.len() == names.len() == equipment.len()
    &&& forall|u: usize|
        u < adj.len() ==> #[trigger] adj[u as int]@ == dependency_row(names, equipment, u, names.len() as int)
}

/// Number of pieces of supply equipment of the first `i` loops.
pub open spec fn equipment_total(equipment: Seq<Vec<PlantEquipment>>, i: int) -> nat
    decreases i,
{
    if i <= 0 {
        0
    } else {
        equipment_total(equipment, i - 1) + equipment[i - 1]@.len()
    }
}

/// Resolves a loop name the way a lookup table built from the loops in
/// order does: the last loop with that name wins.
fn find_loop(names: &Vec<String>, name: &String) -> (r: Option<usize>)
    ensures
        r == loop_named(names@, name@),
        r matches Some(x) ==> x < names@.len(),
{
    proof {
        lemma_last_named_bound(names@, name@, names@.len() as int);
    }
    let mut k = names.len();
    while k > 0
        invariant
            k <= names@.len(),
            loop_named(names@, name@) == last_named(names@, name@, k as int),
        decreases k,
    {
        if names[k - 1] == *name {
            return Some(k - 1);
        }
        k = k - 1;
    }
    None
}

/// Builds the dependency graph of the plant loops named `names`, where
/// `equipment[i]` lists the supply equipment of loop `i`.  A heat
/// exchanger's source loop must run before the exchanger's loop; a chiller's
/// loop must run before its condenser loop.  Names that match no loop add no
/// dependency; a name carried by several loops means the last of them.
pub fn plant_dependencies(names: &Vec<String>, equipment: &Vec<Vec<PlantEquipment>>) -> (adj: Vec<Vec<usize>>)
    requires
        names@.len() == equipment@.len(),
    ensures
        is_dependency_graph(adj@, names@, equipment@),
        targets_in_range(adj@),
        edge_total(adj@, adj@.len() as int) <= equipment_total(equipment@, equipment@.len() as int),
{
    let n = names.len();
    let mut adj: Vec<Vec<usize>> = Vec::new();
    let mut v: usize = 0;
    while v < n
        invariant
            v <= n,
            adj@.len() == v,
            forall|u: int| 0 <= u < v ==> (#[trigger] adj@[u])@.len() == 0,
        decreases n - v,
    {
        adj.push(Vec::new());
        v = v + 1;
    }
    proof {
        assert forall|m: int| 0 <= m <= n implies edge_total(adj@, m) == 0 by {
            lemma_edge_total_zero(adj@, m);
        }
    }
    let mut i: usize = 0;
    while i < n
        invariant
            i <= n,
            n == names@.len(),
            n == equipment@.len(),
            adj@.len() == n,
            forall|u: usize| u < n ==> #[trigger] adj@[u as int]@ == dependency_row(names@, equipment@, u, i as int),
            targets_in_range(adj@),
            edge_total(adj@, n as int) <= equipment_total(equipment@, i as int),
        decreases n - i,
    {
        let ls = &equipment[i];
        let mut k: usize = 0;
        while k < ls.len()
            invariant
                i < n,
                n == names@.len(),
                n == equipment@.len(),
                ls@ == equipment@[i as int]@,
                k <= ls@.len(),
                adj@.len() == n,
                forall|u: usize|
                    u < n ==> #[trigger] adj@[u as int]@ == dependency_row(names@, equipment@, u, i as int)
                        + loop_edges(names@, ls@, i, u, k as int),
                targets_in_range(adj@),
                edge_total(adj@, n as int) <= equipment_total(equipment@, i as int) + k,
            decreases ls@.len() - k,
        {
            let ghost before = adj@;
            match &ls[k] {
                PlantEquipment::HeatExchanger { source_loop } => {
                    if let Some(s) = find_loop(names, source_loop) {
                        adj[s].push(i);
                        proof {
                            lemma_edge_total_grow(before, s as int, adj@[s as int], n as int);
                        }
                    }
                },
                PlantEquipment::Chiller { condenser_loop: Some(cond) } => {
                    if let Some(c) = find_loop(names, cond) {
                        adj[i].push(c);
                        proof {
                            lemma_edge_total_grow(before, i as int, adj@[i as int], n as int);
                        }
                    }
                },
                _ => {},
            }
            proof {
                assert forall|u: usize| u < n implies #[trigger] adj@[u as int]@ == dependency_row(
                    names@,
                    equipment@,
                    u,
                    i as int,
                ) + loop_edges(names@, ls@, i, u, k + 1) by {
                    assert(dependency_row(names@, equipment@, u, i as int) + loop_edges(names@, ls@, i, u, k + 1)
                        =~= dependency_row(names@, equipment@, u, i as int) + loop_edges(names@, ls@, i, u, k as int)
                        + equipment_edges(names@, ls@[k as int], i, u));
                }
                assert forall|w: int, t: int|
                    0 <= w < adj@.len() && 0 <= t < adj@[w]@.len() implies #[trigger] adj@[w]@[t] < adj@.len() by {
                    if t < before[w]@.len() {
                        assert(adj@[w]@[t] == before[w]@[t]);
                    }
                }
            }
            k = k + 1;
        }
        proof {
            assert forall|u: usize| u < n implies #[trigger] adj@[u as int]@ == dependency_row(
                names@,
                equipment@,
                u,
                i + 1,
            ) by {
            }
        }
        i = i + 1;
    }
    adj
}

/// Equipment `e` is a pump named `s`.
pub open spec fn is_pump_named(e: PlantEquipment, s: Seq<char>) -> bool {
    e matches PlantEquipment::Pump { name } && name@ == s
}

/// Among the plant loops' equipment, a pump named `s` sits in a loop before
/// loop `l`, or in loop `l` before position `k`.
pub open spec fn pump_before(equipment: Seq<Vec<PlantEquipment>>, l: int, k: int, s: Seq<char>) -> bool {
    exists|a: int, b: int|
        0 <= a < equipment.len() && 0 <= b < equipment[a]@.len() && (a < l || (a == l && b < k))
            && #[trigger] is_pump_named(equipment[a]@[b], s)
}

/// A domestic hot-water system's pump entry names a pump `s`.
pub open spec fn names_pump(pump: Option<String>, s: Seq<char>) -> bool {
    pump matches Some(p) && p@ == s
}

/// One of the first `d` domestic hot-water systems has a pump named `s`.
pub open spec fn dhw_pump_before(dhw_pumps: Seq<Option<String>>, d: int, s: Seq<char>) -> bool {
    exists|i: int| 0 <= i < d && i < dhw_pumps.len() && #[trigger] names_pump(dhw_pumps[i], s)
}

/// Names of all pumps, each once: those of the plant loops' supply
/// equipment and those of the domestic hot-water systems (`dhw_pumps[i]`
/// names the pump of system `i`, if it has one).
pub fn pump_names(equipment: &Vec<Vec<PlantEquipment>>, dhw_pumps: &Vec<Option<String>>) -> (r: Vec<
    String,
>)
    ensures
        distinct_names(r@),
        forall|s: Seq<char>| #[trigger]
            has_name(r@, s) <==> (pump_before(equipment@, equipment@.len() as int, 0, s)
                || dhw_pump_before(dhw_pumps@, dhw_pumps@.len() as int, s)),
{
    let mut r: Vec<String> = Vec::new();
    let mut l: usize = 0;
    while l < equipment.len()
        invariant
            l <= equipment@.len(),
            distinct_names(r@),
            forall|s: Seq<char>| #[trigger] has_name(r@, s) <== pump_before(equipment@, l as int, 0, s),
            forall|s: Seq<char>| #[trigger] has_name(r@, s) ==> pump_before(equipment@, l as int, 0, s),
        decreases equipment@.len() - l,
    {
        let items = &equipment[l];
        let mut k: usize = 0;
        while k < items.len()
            invariant
                l < equipment@.len(),
                items@ == equipment@[l as int]@,
                k <= items@.len(),
                distinct_names(r@),
                forall|s: Seq<char>| #[trigger] has_name(r@, s) <==> pump_before(equipment@, l as int, k as int, s),
            decreases items@.len() - k,
        {
            if let PlantEquipment::Pump { name } = &items[k] {
                insert_name(&mut r, name.clone());
            }
            proof {
                assert forall|s: Seq<char>| #[trigger] has_name(r@, s) <==> pump_before(
                    equipment@,
                    l as int,
                    k + 1,
                    s,
                ) by {
                    if pump_before(equipment@, l as int, k + 1, s) {
                        let (a, b) = choose|a: int, b: int|
                            0 <= a < equipment@.len() && 0 <= b < equipment@[a]@.len() && (a < l || (a == l
                                && b < k + 1)) && #[trigger] is_pump_named(equipment@[a]@[b], s);
                        if !(a == l && b == k) {
                            assert(pump_before(equipment@, l as int, k as int, s));
                        }
                    }
                    if is_pump_named(items@[k as int], s) {
                        assert(is_pump_named(equipment@[l as int]@[k as int], s));
                    }
                }
            }
            k = k + 1;
        }
        proof {
            assert forall|s: Seq<char>| #[trigger] has_name(r@, s) <==> pump_before(equipment@, l + 1, 0, s) by {
                if pump_before(equipment@, l + 1, 0, s) {
                    let (a, b) = choose|a: int, b: int|
                        0 <= a < equipment@.len() && 0 <= b < equipment@[a]@.len() && (a < l + 1 || (a == l + 1
                            && b < 0)) && #[trigger] is_pump_named(equipment@[a]@[b], s);
                    assert(pump_before(equipment@, l as int, k as int, s));
                }
                if pump_before(equipment@, l as int, k as int, s) {
                    let (a, b) = choose|a: int, b: int|
                        0 <= a < equipment@.len() && 0 <= b < equipment@[a]@.len() && (a < l || (a == l
                            && b < k)) && #[trigger] is_pump_named(equipment@[a]@[b], s);
                    assert(pump_before(equipment@, l + 1, 0, s));
                }
            }
        }
        l = l + 1;
    }
    let mut d: usize = 0;
    while d < dhw_pumps.len()
        invariant
            d <= dhw_pumps@.len(),
            distinct_names(r@),
            forall|s: Seq<char>| #[trigger]
                has_name(r@, s) <==> (pump_before(equipment@, equipment@.len() as int, 0, s)
                    || dhw_pump_before(dhw_pumps@, d as int, s)),
        decreases dhw_pumps@.len() - d,
    {
        if let Some(p) = &dhw_pumps[d] {
            insert_name(&mut r, p.clone());
        }
        proof {
            assert forall|s: Seq<char>| #[trigger]
                has_name(r@, s) <==> (pump_before(equipment@, equipment@.len() as int, 0, s)
                    || dhw_pump_before(dhw_pumps@, d + 1, s)) by {
                if dhw_pump_before(dhw_pumps@, d + 1, s) {
                    let i = choose|i: int|
                        0 <= i < d + 1 && i < dhw_pumps@.len() && #[trigger] names_pump(dhw_pumps@[i], s);
                    if i < d {
                        assert(dhw_pump_before(dhw_pumps@, d as int, s));
                    }
                }
                if dhw_pump_before(dhw_pumps@, d as int, s) {
                    let i = choose|i: int|
                        0 <= i < d && i < dhw_pumps@.len() && #[trigger] names_pump(dhw_pumps@[i], s);
                    assert(dhw_pump_before(dhw_pumps@, d + 1, s));
                }
                if names_pump(dhw_pumps@[d as int], s) {
                    assert(dhw_pump_before(dhw_pumps@, d + 1, s));
                }
            }
        }
        d = d + 1;
    }
    r
}

// ---------------------------------------------------------------- Laws

/// No loop behind position `sorted_len` has a rank of `m` or less, when the
/// rank grows along every dependency.
proof fn lemma_no_left_over_up_to(
    adj: Seq<Vec<usize>>,
    order: Seq<usize>,
    sorted_len: int,
    rank: spec_fn(int) -> nat,
    m: nat,
)
    requires
        is_plant_order(adj, order, sorted_len),
        forall|u: int, v: usize| #[trigger] has_edge(adj, u, v) ==> rank(u) < rank(v as int),
    ensures
        forall|i: int| sorted_len <= i < order.len() ==> rank(#[trigger] order[i] as int) > m,
    decreases m,
{
    if m > 0 {
        lemma_no_left_over_up_to(adj, order, sorted_len, rank, (m - 1) as nat);
    }
    assert forall|i: int| sorted_len <= i < order.len() implies rank(#[trigger] order[i] as int) > m by {
        assert(has_edge_from(adj, order, sorted_len, order[i]));
        let j = choose|j: int|
            sorted_len <= j < order.len() && #[trigger] has_edge(adj, order[j] as int, order[i]);
        assert(rank(order[j] as int) < rank(order[i] as int));
    }
}

/// When the loops have no dependency cycle, witnessed by a rank that grows
/// along every dependency, every loop is topologically ordered: none is left
/// to run a timestep behind.
pub proof fn law_acyclic_loops_all_sorted(
    adj: Seq<Vec<usize>>,
    order: Seq<usize>,
    sorted_len: int,
    rank: spec_fn(int) -> nat,
)
    requires
        is_plant_order(adj, order, sorted_len),
        forall|u: int, v: usize| #[trigger] has_edge(adj, u, v) ==> rank(u) < rank(v as int),
    ensures
        sorted_len == order.len(),
{
    if sorted_len < order.len() {
        let r = rank(order[sorted_len] as int);
        lemma_no_left_over_up_to(adj, order, sorted_len, rank, r);
        assert(rank(order[sorted_len] as int) > r);
    }
}

/// A loop that depends on itself is never topologically ordered: it runs
/// behind the ordered loops.
pub proof fn law_self_dependent_loop_runs_behind(
    adj: Seq<Vec<usize>>,
    order: Seq<usize>,
    sorted_len: int,
    i: int,
)
    requires
        is_plant_order(adj, order, sorted_len),
        0 <= i < order.len(),
        has_edge(adj, order[i] as int, order[i]),
    ensures
        sorted_len <= i,
{
    if i < sorted_len {
        let j = choose|j: int| 0 <= j < i && order[j] == order[i] as int;
        assert(order[j] == order[i]);
    }
}


/// `x` appears in `b` when it appears in `a`, for `a + b` read the other way.
proof fn lemma_contains_concat(a: Seq<usize>, b: Seq<usize>, x: usize)
    ensures
        a.contains(x) ==> (a + b).contains(x),
        b.contains(x) ==> (a + b).contains(x),
{
    if a.contains(x) {
        let k = choose|k: int| 0 <= k < a.len() && a[k] == x;
        assert((a + b)[k] == x);
    }
    if b.contains(x) {
        let k = choose|k: int| 0 <= k < b.len() && b[k] == x;
        assert((a + b)[a.len() + k] == x);
    }
}

/// The dependants one piece of equipment adds stay in the row built from its loop's equipment.
proof fn lemma_loop_edges_keep(
    names: Seq<String>,
    ls: Seq<PlantEquipment>,
    i: usize,
    u: usize,
    k: int,
    m: int,
    x: usize,
)
    requires
        0 <= k < m <= ls.len(),
        equipment_edges(names, ls[k], i, u).contains(x),
    ensures
        loop_edges(names, ls, i, u, m).contains(x),
    decreases m,
{
    if k < m - 1 {
        lemma_loop_edges_keep(names, ls, i, u, k, m - 1, x);
    }
    lemma_contains_concat(loop_edges(names, ls, i, u, m - 1), equipment_edges(names, ls[m - 1], i, u), x);
}

/// The dependants the equipment of loop `i` add stay in the row of every later
/// prefix of the loops.
proof fn lemma_dependency_row_keeps(
    names: Seq<String>,
    equipment: Seq<Vec<PlantEquipment>>,
    u: usize,
    i: int,
    m: int,
    x: usize,
)
    requires
        0 <= i < m <= equipment.len(),
        loop_edges(names, equipment[i]@, i as usize, u, equipment[i]@.len() as int).contains(x),
    ensures
        dependency_row(names, equipment, u, m).contains(x),
    decreases m,
{
    if i < m - 1 {
        lemma_dependency_row_keeps(names, equipment, u, i, m - 1, x);
    }
    lemma_contains_concat(
        dependency_row(names, equipment, u, m - 1),
        loop_edges(names, equipment[m - 1]@, (m - 1) as usize, u, equipment[m - 1]@.len() as int),
        x,
    );
}

/// A heat exchanger's source loop runs before the exchanger's own loop: in
/// a plant order over the dependency graph, a topologically ordered loop
/// with a heat exchanger drawing from loop `s` comes after `s`.
pub proof fn law_heat_exchanger_source_runs_first(
    names: Seq<String>,
    equipment: Seq<Vec<PlantEquipment>>,
    adj: Seq<Vec<usize>>,
    order: Seq<usize>,
    sorted_len: int,
    p: int,
    k: int,
    s: usize,
)
    requires
        is_dependency_graph(adj, names, equipment),
        is_plant_order(adj, order, sorted_len),
        0 <= p < sorted_len,
        0 <= k < equipment[order[p] as int]@.len(),
        equipment[order[p] as int]@[k] matches PlantEquipment::HeatExchanger { source_loop } && loop_named(names, source_loop@)
            == Some(s),
    ensures
        exists|q: int| 0 <= q < p && order[q] == s,
{
    let i = order[p];
    let ls = equipment[i as int]@;
    assert(equipment_edges(names, ls[k], i, s) =~= seq![i]);
    assert(equipment_edges(names, ls[k], i, s)[0] == i);
    lemma_loop_edges_keep(names, ls, i, s, k, ls.len() as int, i);
    lemma_dependency_row_keeps(names, equipment, s, i as int, equipment.len() as int, i);
    lemma_last_named_bound(names, equipment[i as int]@[k]->source_loop@, names.len() as int);
    assert(adj[s as int]@ == dependency_row(names, equipment, s, names.len() as int));
    assert(has_edge(adj, s as int, order[p]));
}

/// A chiller's own loop runs before its condenser loop: in a plant order
/// over the dependency graph, a topologically ordered condenser loop `c`
/// comes after every loop whose chiller rejects heat into it.
pub proof fn law_chiller_loop_runs_before_condenser(
    names: Seq<String>,
    equipment: Seq<Vec<PlantEquipment>>,
    adj: Seq<Vec<usize>>,
    order: Seq<usize>,
    sorted_len: int,
    p: int,
    i: usize,
    k: int,
)
    requires
        is_dependency_graph(adj, names, equipment),
        is_plant_order(adj, order, sorted_len),
        0 <= p < sorted_len,
        i < equipment.len(),
        0 <= k < equipment[i as int]@.len(),
        equipment[i as int]@[k] matches PlantEquipment::Chiller { condenser_loop: Some(cond) } && loop_named(names, cond@)
            == Some(order[p]),
    ensures
        exists|q: int| 0 <= q < p && order[q] == i,
{
    let ls = equipment[i as int]@;
    let c = order[p];
    assert(equipment_edges(names, ls[k], i, i) =~= seq![c]);
    assert(equipment_edges(names, ls[k], i, i)[0] == c);
    lemma_loop_edges_keep(names, ls, i, i, k, ls.len() as int, c);
    lemma_dependency_row_keeps(names, equipment, i, i as int, equipment.len() as int, c);
    assert(adj[i as int]@ == dependency_row(names, equipment, i, names.len() as int));
    assert(has_edge(adj, i as int, c));
}

} // verus!
