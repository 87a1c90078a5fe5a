//! The acyclic formulation: a topological order of the locations by
//! in-degree counting, and the longest-weight relaxation along it.
use vstd::prelude::*;
use crate::graph::{Connection, Graph, targets_in_range, unmarked, lemma_mark};

verus! {

/// Why the acyclic formulation cannot be used.
#[derive(Clone, Copy, Debug, PartialEq, Eq)]
pub enum DagError {
    /// The connections form a cycle: no order of the locations puts every
    /// connection forward.
    Cycle,
    /// Some location has more incoming connections than a `u64` counts.
    TooManyConnections,
}

/// `order` lists every location once and puts every connection forward:
/// each location comes after every location with a connection into it.
pub open spec fn is_topological_order(g: Seq<Seq<Connection>>, order: Seq<u32>) -> bool {
    &&& order.len() == g.len()
    &&& order.no_duplicates()
    &&& forall|v: u32| v < g.len() ==> #[trigger] order.contains(v)
    &&& forall|i: int| 0 <= i < order.len() ==> #[trigger] order[i] < g.len()
    &&& forall|i2: int, u: int, j: int|
        0 <= i2 < order.len() && 0 <= u < g.len() && 0 <= j < g[u].len() && (#[trigger] g[u][j]).to
            == #[trigger] order[i2] ==> exists|i1: int| 0 <= i1 < i2 && order[i1] == u
}

/// How many of the first `j` connections of `row` lead to `v`.
pub open spec fn row_count(row: Seq<Connection>, v: int, j: int) -> nat
    decreases j,
{
    if j <= 0 {
        0
    } else {
        row_count(row, v, j - 1) + if row[j - 1].to == v {
            1nat
        } else {
            0nat
        }
    }
}

/// How many connections lead to `v` from the first `m` locations that are
/// not marked in `done`.
pub open spec fn in_count(g: Seq<Seq<Connection>>, done: Seq<bool>, v: int, m: int) -> nat
    decreases m,
{
    if m <= 0 {
        0
    } else {
        in_count(g, done, v, m - 1) + if done[m - 1] {
            0nat
        } else {
            row_count(g[m - 1], v, g[m - 1].len() as int)
        }
    }
}

proof fn lemma_row_count_grows(row: Seq<Connection>, v: int, j: int, k: int)
    requires
        0 <= j <= k,
    ensures
        row_count(row, v, j) <= row_count(row, v, k),
    decreases k,
{
    if j < k {
        lemma_row_count_grows(row, v, j, k - 1);
    }
}

proof fn lemma_row_count_hit(row: Seq<Connection>, v: int, j: int, k: int)
    requires
        0 <= j < k,
        row[j].to == v,
    ensures
        row_count(row, v, j) + 1 <= row_count(row, v, k),
{
    lemma_row_count_grows(row, v, j + 1, k);
}

proof fn lemma_row_count_positive(row: Seq<Connection>, v: int, j: int)
    requires
        row_count(row, v, j) > 0,
    ensures
        exists|k: int| 0 <= k < j && (#[trigger] row[k]).to == v,
    decreases j,
{
    if row[j - 1].to != v {
        lemma_row_count_positive(row, v, j - 1);
    }
}

proof fn lemma_in_count_covers(g: Seq<Seq<Connection>>, done: Seq<bool>, v: int, m: int, u: int)
    requires
        0 <= u < m,
        !done[u],
    ensures
        row_count(g[u], v, g[u].len() as int) <= in_count(g, done, v, m),
    decreases m,
{
    if u < m - 1 {
        lemma_in_count_covers(g, done, v, m - 1, u);
    }
}

proof fn lemma_in_count_positive(g: Seq<Seq<Connection>>, done: Seq<bool>, v: int, m: int)
    requires
        in_count(g, done, v, m) > 0,
    ensures
        exists|u: int, j: int|
            0 <= u < m && !done[u] && 0 <= j < g[u].len() && (#[trigger] g[u][j]).to == v,
    decreases m,
{
    if !done[m - 1] && row_count(g[m - 1], v, g[m - 1].len() as int) > 0 {
        lemma_row_count_positive(g[m - 1], v, g[m - 1].len() as int);
        let j = choose|j: int| 0 <= j < g[m - 1].len() && (#[trigger] g[m - 1][j]).to == v;
        assert(g[m - 1][j].to == v);
    } else {
        lemma_in_count_positive(g, done, v, m - 1);
    }
}

proof fn lemma_in_count_mark(g: Seq<Seq<Connection>>, done: Seq<bool>, v: int, m: int, u: int)
    requires
        0 <= u < done.len(),
        m <= done.len(),
        !done[u],
    ensures
        in_count(g, done, v, m) == in_count(g, done.update(u, true), v, m) + if u < m {
            row_count(g[u], v, g[u].len() as int)
        } else {
            0
        },
    decreases m,
{
    if m > 0 {
        lemma_in_count_mark(g, done, v, m - 1, u);
    }
}

proof fn lemma_all_marked(marks: Seq<bool>)
    requires
        unmarked(marks) == 0,
    ensures
        forall|i: int| 0 <= i < marks.len() ==> marks[i],
    decreases marks.len(),
{
    if marks.len() > 0 {
        lemma_all_marked(marks.drop_last());
        assert forall|i: int| 0 <= i < marks.len() implies marks[i] by {
            if i < marks.len() - 1 {
                assert(marks[i] == marks.drop_last()[i]);
            }
        }
    }
}

proof fn lemma_some_unmarked(marks: Seq<bool>)
    requires
        unmarked(marks) > 0,
    ensures
        exists|i: int| 0 <= i < marks.len() && !marks[i],
    decreases marks.len(),
{
    if marks.last() {
        lemma_some_unmarked(marks.drop_last());
        let i = choose|i: int| 0 <= i < marks.len() - 1 && !marks.drop_last()[i];
        assert(!marks[i]);
    }
}

/// Where some locations are left out of `done` and each of them has a
/// connection into it from another one left out, no topological order exists.
proof fn lemma_blocked_no_order(g: Seq<Seq<Connection>>, done: Seq<bool>, order: Seq<u32>, v: int)
    requires
        done.len() == g.len(),
        0 <= v < g.len(),
        !done[v],
        forall|w: int|
            0 <= w < g.len() && !done[w] ==> exists|u: int, j: int|
                0 <= u < g.len() && !done[u] && 0 <= j < g[u].len() && (#[trigger] g[u][j]).to
                    == w,
    ensures
        !is_topological_order(g, order),
{
    if is_topological_order(g, order) {
        lemma_prefix_done(g, done, order, order.len() as int);
        assert(order.contains(v as u32));
        let i = choose|i: int| 0 <= i < order.len() && order[i] == v as u32;
        assert(done[order[i] as int]);
    }
}

proof fn lemma_prefix_done(g: Seq<Seq<Connection>>, done: Seq<bool>, order: Seq<u32>, k: int)
    requires
        done.len() == g.len(),
        is_topological_order(g, order),
        0 <= k <= order.len(),
        forall|w: int|
            0 <= w < g.len() && !done[w] ==> exists|u: int, j: int|
                0 <= u < g.len() && !done[u] && 0 <= j < g[u].len() && (#[trigger] g[u][j]).to
                    == w,
    ensures
        forall|i: int| 0 <= i < k ==> done[#[trigger] order[i] as int],
    decreases k,
{
    if k > 0 {
        lemma_prefix_done(g, done, order, k - 1);
        let w = order[k - 1] as int;
        assert(0 <= w < g.len());
        if !done[w] {
            let (u, j) = choose|u: int, j: int|
                0 <= u < g.len() && !done[u] && 0 <= j < g[u].len() && (#[trigger] g[u][j]).to
                    == w;
            assert(g[u][j].to == order[k - 1]);
            let i1 = choose|i1: int| 0 <= i1 < k - 1 && order[i1] == u;
            assert(done[order[i1] as int]);
        }
    }
}

proof fn lemma_in_count_grows(g: Seq<Seq<Connection>>, done: Seq<bool>, v: int, m: int, k: int)
    requires
        0 <= m <= k,
    ensures
        in_count(g, done, v, m) <= in_count(g, done, v, k),
    decreases k,
{
    if m < k {
        lemma_in_count_grows(g, done, v, m, k - 1);
    }
}

/// No location marked.
pub open spec fn no_marks(n: nat) -> Seq<bool> {
    Seq::new(n, |i: int| false)
}

/// How many connections lead to `v`.
pub open spec fn in_degree(g: Seq<Seq<Connection>>, v: int) -> nat {
    in_count(g, no_marks(g.len()), v, g.len() as int)
}

/// Each edge into a location listed at `i2` comes from one listed before it.
spec fn edges_forward(g: Seq<Seq<Connection>>, order: Seq<u32>) -> bool {
    forall|i2: int, u: int, j: int|
        0 <= i2 < order.len() && 0 <= u < g.len() && 0 <= j < g[u].len() && (#[trigger] g[u][j]).to
            == #[trigger] order[i2] ==> exists|i1: int| 0 <= i1 < i2 && order[i1] == u
}

impl Graph {
    /// A topological order of all locations, found by in-degree counting:
    /// start from the locations without incoming connections and release a
    /// location once every connection into it has been passed. Fails with
    /// `TooManyConnections` exactly where an in-degree does not fit the
    /// counter, and otherwise with `Cycle` exactly where no topological
    /// order exists.
    pub fn topological_sort(&self) -> (r: Result<Vec<u32>, DagError>)
        requires
            self.wf(),
        ensures
            r == Err::<Vec<u32>, DagError>(DagError::TooManyConnections) <==> exists|v: int|
                0 <= v < self@.len() && #[trigger] in_degree(self@, v) >= u64::MAX,
            r matches Ok(order) ==> is_topological_order(self@, order@),
            r == Err::<Vec<u32>, DagError>(DagError::Cycle) <==> (forall|v: int|
                0 <= v < self@.len() ==> #[trigger] in_degree(self@, v) < u64::MAX) && forall|
                o: Seq<u32>,
            | !is_topological_order(self@, o),
    {
        let ghost g = self@;
        let n = self.adjacency.len();
        let ghost none = no_marks(n as nat);
        let mut indeg: Vec<u64> = Vec::new();
        let mut i: usize = 0;
        while i < n
            invariant
                n == g.len(),
                i <= n,
                indeg@.len() == i,
                forall|k: int| 0 <= k < i ==> indeg@[k] == 0,
            decreases n - i,
        {
            indeg.push(0);
            i = i + 1;
        }
        let mut u: usize = 0;
        while u < n
            invariant
                self.wf(),
                g == self@,
                n == g.len(),
                none == no_marks(n as nat),
                u <= n,
                indeg@.len() == n,
                forall|w: int| 0 <= w < n ==> #[trigger] indeg@[w] == in_count(g, none, w, u as int),
                forall|w: int| 0 <= w < n ==> #[trigger] indeg@[w] < u64::MAX,
            decreases n - u,
        {
            let row = &self.adjacency[u];
            let mut j: usize = 0;
            while j < row.len()
                invariant
                    self.wf(),
                    g == self@,
                    n == g.len(),
                    none == no_marks(n as nat),
                    u < n,
                    row@ == g[u as int],
                    j <= row@.len(),
                    indeg@.len() == n,
                    forall|w: int|
                        0 <= w < n ==> #[trigger] indeg@[w] == in_count(g, none, w, u as int)
                            + row_count(g[u as int], w, j as int),
                    forall|w: int| 0 <= w < n ==> #[trigger] indeg@[w] < u64::MAX,
                decreases row@.len() - j,
            {
                let to = row[j].to as usize;
                assert(row@[j as int] == g[u as int][j as int]);
                proof {
                    let len = g[u as int].len() as int;
                    lemma_row_count_grows(g[u as int], to as int, j + 1, len);
                    lemma_in_count_grows(g, none, to as int, u + 1, n as int);
                    assert(in_count(g, none, to as int, u + 1) == in_count(g, none, to as int, u as int)
                        + row_count(g[u as int], to as int, len));
                }
                if indeg[to] >= 0xFFFF_FFFF_FFFF_FFFE {
                    assert(in_degree(g, to as int) >= u64::MAX);
                    return Err(DagError::TooManyConnections);
                }
                indeg.set(to, indeg[to] + 1);
                j = j + 1;
            }
            proof {
                assert forall|w: int| 0 <= w < n implies #[trigger] indeg@[w] == in_count(
                    g,
                    none,
                    w,
                    u + 1,
                ) by {
                    assert(in_count(g, none, w, u + 1) == in_count(g, none, w, u as int) + row_count(
                        g[u as int],
                        w,
                        g[u as int].len() as int,
                    ));
                }
            }
            u = u + 1;
        }
        assert(forall|w: int| 0 <= w < n ==> #[trigger] in_degree(g, w) == indeg@[w]);
        let mut order: Vec<u32> = Vec::new();
        let mut v: usize = 0;
        while v < n
            invariant
                g == self@,
                n == g.len(),
                n <= 0x1_0000_0000,
                none == no_marks(n as nat),
                forall|w: int| 0 <= w < n ==> #[trigger] in_degree(g, w) < u64::MAX,
                v <= n,
                indeg@.len() == n,
                forall|w: int| 0 <= w < n ==> #[trigger] indeg@[w] == in_count(g, none, w, n as int),
                forall|i: int| 0 <= i < order@.len() ==> #[trigger] order@[i] < v,
                forall|i: int, k: int| 0 <= i < k < order@.len() ==> order@[i] < order@[k],
                forall|i: int| 0 <= i < order@.len() ==> indeg@[#[trigger] order@[i] as int] == 0,
                forall|w: int|
                    0 <= w < v && #[trigger] indeg@[w] == 0 ==> exists|i: int|
                        0 <= i < order@.len() && order@[i] == w,
            decreases n - v,
        {
            if indeg[v] == 0 {
                let ghost before = order@;
                order.push(v as u32);
                assert(order@[before.len() as int] == v);
                assert forall|w: int|
                    0 <= w < v + 1 && #[trigger] indeg@[w] == 0 implies exists|i: int|
                    0 <= i < order@.len() && order@[i] == w by {
                    if w == v {
                        assert(order@[before.len() as int] == w);
                    } else {
                        let i = choose|i: int| 0 <= i < before.len() && before[i] == w;
                        assert(order@[i] == w);
                    }
                }
            }
            v = v + 1;
        }
        let ghost mut done = none;
        proof {
            assert(order@.no_duplicates()) by {
                assert forall|i: int, k: int|
                    0 <= i < order@.len() && 0 <= k < order@.len() && i != k implies order@[i]
                    != order@[k] by {
                    if i < k {
                        assert(order@[i] < order@[k]);
                    } else {
                        assert(order@[k] < order@[i]);
                    }
                }
            }
            assert forall|i2: int, x: int, j: int|
                0 <= i2 < order@.len() && 0 <= x < g.len() && 0 <= j < g[x].len() && (
                #[trigger] g[x][j]).to == #[trigger] order@[i2] implies exists|i1: int|
                0 <= i1 < i2 && order@[i1] == x by {
                let w = order@[i2] as int;
                lemma_in_count_covers(g, none, w, n as int, x);
                lemma_row_count_hit(g[x], w, j, g[x].len() as int);
            }
            lemma_all_unmarked_count(n as nat);
        }
        let mut h: usize = 0;
        while h < order.len()
            invariant
                self.wf(),
                g == self@,
                n == g.len(),
                forall|w: int| 0 <= w < n ==> #[trigger] in_degree(g, w) < u64::MAX,
                indeg@.len() == n,
                done.len() == n,
                unmarked(done) + h == n,
                h <= order@.len(),
                forall|w: int| 0 <= w < n ==> #[trigger] indeg@[w] == in_count(g, done, w, n as int),
                forall|w: int| 0 <= w < n && done[w] ==> #[trigger] indeg@[w] == 0,
                forall|i: int| 0 <= i < order@.len() ==> #[trigger] order@[i] < n,
                order@.no_duplicates(),
                forall|i: int| 0 <= i < h ==> done[#[trigger] order@[i] as int],
                forall|i: int|
                    h <= i < order@.len() ==> !done[#[trigger] order@[i] as int] && indeg@[order@[i] as int]
                        == 0,
                forall|w: int|
                    0 <= w < n && #[trigger] done[w] ==> exists|i: int| 0 <= i < h && order@[i] == w,
                forall|w: int|
                    0 <= w < n && !done[w] && #[trigger] indeg@[w] == 0 ==> exists|i: int|
                        h <= i < order@.len() && order@[i] == w,
                edges_forward(g, order@),
            decreases n - h,
        {
            let x = order[h] as usize;
            proof {
                lemma_mark(done, x as int);
                assert forall|w: int| 0 <= w < n implies in_count(g, done, w, n as int) == in_count(
                    g,
                    done.update(x as int, true),
                    w,
                    n as int,
                ) + row_count(g[x as int], w, g[x as int].len() as int) by {
                    lemma_in_count_mark(g, done, w, n as int, x as int);
                }
                done = done.update(x as int, true);
            }
            h = h + 1;
            let row = &self.adjacency[x];
            let mut j: usize = 0;
            while j < row.len()
                invariant
                    self.wf(),
                    g == self@,
                    n == g.len(),
                    x < n,
                    row@ == g[x as int],
                    j <= row@.len(),
                    indeg@.len() == n,
                    done.len() == n,
                    done[x as int],
                    unmarked(done) + h == n,
                    0 < h <= order@.len(),
                    order@[h - 1] == x,
                    forall|w: int|
                        0 <= w < n ==> #[trigger] indeg@[w] + row_count(g[x as int], w, j as int)
                            == in_count(g, done, w, n as int) + row_count(
                            g[x as int],
                            w,
                            g[x as int].len() as int,
                        ),
                    forall|w: int| 0 <= w < n && done[w] ==> #[trigger] indeg@[w] == 0,
                    forall|i: int| 0 <= i < order@.len() ==> #[trigger] order@[i] < n,
                    order@.no_duplicates(),
                    forall|i: int| 0 <= i < h ==> done[#[trigger] order@[i] as int],
                    forall|i: int|
                        h <= i < order@.len() ==> !done[#[trigger] order@[i] as int] && indeg@[order@[i] as int]
                            == 0,
                    forall|w: int|
                        0 <= w < n && #[trigger] done[w] ==> exists|i: int|
                            0 <= i < h && order@[i] == w,
                    forall|w: int|
                        0 <= w < n && !done[w] && #[trigger] indeg@[w] == 0 ==> exists|i: int|
                            h <= i < order@.len() && order@[i] == w,
                    edges_forward(g, order@),
                decreases row@.len() - j,
            {
                let to = row[j].to;
                let t = to as usize;
                let ghost order0 = order@;
                let ghost indeg0 = indeg@;
                assert(row@[j as int] == g[x as int][j as int]);
                proof {
                    lemma_row_count_hit(g[x as int], t as int, j as int, g[x as int].len() as int);
                }
                let d = indeg[t] - 1;
                indeg.set(t, d);
                if d == 0 {
                    proof {
                        let w = t as int;
                        assert(in_count(g, done, w, n as int) == 0);
                        assert(!done[w]);
                        assert forall|i: int| 0 <= i < order@.len() implies order@[i] != to by {
                            if order@[i] == to {
                                if i < h {
                                    assert(done[order@[i] as int]);
                                }
                            }
                        }
                        assert forall|i2: int, y: int, k: int|
                            0 <= i2 < order@.len() + 1 && 0 <= y < g.len() && 0 <= k < g[y].len() && (
                            #[trigger] g[y][k]).to == #[trigger] order@.push(to)[i2] implies exists|i1: int|
                            0 <= i1 < i2 && order@.push(to)[i1] == y by {
                            if i2 < order@.len() {
                                assert(order@.push(to)[i2] == order@[i2]);
                                let i1 = choose|i1: int| 0 <= i1 < i2 && order@[i1] == y;
                                assert(order@.push(to)[i1] == y);
                            } else {
                                if !done[y] {
                                    lemma_in_count_covers(g, done, w, n as int, y);
                                    lemma_row_count_hit(g[y], w, k, g[y].len() as int);
                                }
                                let i1 = choose|i1: int| 0 <= i1 < h && order@[i1] == y;
                                assert(order@.push(to)[i1] == y);
                            }
                        }
                    }
                    let ghost before = order@;
                    order.push(to);
                    proof {
                        assert(order@[order@.len() - 1] == to);
                        assert forall|w: int|
                            0 <= w < n && #[trigger] done[w] implies exists|i: int|
                            0 <= i < h && order@[i] == w by {
                            let i = choose|i: int| 0 <= i < h && before[i] == w;
                            assert(order@[i] == w);
                        }
                    }
                }
                proof {
                    assert forall|w: int|
                        0 <= w < n && !done[w] && #[trigger] indeg@[w] == 0 implies exists|i: int|
                        h <= i < order@.len() && order@[i] == w by {
                        if w == t as int {
                            assert(order@[order@.len() - 1] == w);
                        } else {
                            assert(indeg0[w] == 0);
                            let i = choose|i: int| h <= i < order0.len() && order0[i] == w;
                            assert(order@[i] == w);
                        }
                    }
                }
                j = j + 1;
            }
        }
        if h == n {
            proof {
                lemma_all_marked(done);
                assert forall|v: u32| v < g.len() implies #[trigger] order@.contains(v) by {
                    assert(done[v as int]);
                    let i = choose|i: int| 0 <= i < h && order@[i] == v as int;
                    assert(order@[i] == v);
                }
                assert(is_topological_order(g, order@));
            }
            Ok(order)
        } else {
            proof {
                lemma_some_unmarked(done);
                let v = choose|i: int| 0 <= i < done.len() && !done[i];
                assert forall|w: int|
                    0 <= w < g.len() && !done[w] implies exists|y: int, k: int|
                    0 <= y < g.len() && !done[y] && 0 <= k < g[y].len() && (#[trigger] g[y][k]).to
                        == w by {
                    assert(indeg@[w] != 0);
                    lemma_in_count_positive(g, done, w, n as int);
                }
                assert forall|o: Seq<u32>| !is_topological_order(g, o) by {
                    lemma_blocked_no_order(g, done, o, v);
                }
            }
            Err(DagError::Cycle)
        }
    }
}

/// Where a chain of connections from `start` ends.
pub open spec fn chain_end(g: Seq<Seq<Connection>>, start: int, p: Seq<(int, int)>) -> int {
    if p.len() == 0 {
        start
    } else {
        g[p.last().0][p.last().1].to as int
    }
}

/// A chain of connections from `start`, each leaving from where the one
/// before it arrives; departure times play no part.
pub open spec fn chain(g: Seq<Seq<Connection>>, start: int, p: Seq<(int, int)>) -> bool
    decreases p.len(),
{
    if p.len() == 0 {
        true
    } else {
        let q = p.drop_last();
        let u = p.last().0;
        let j = p.last().1;
        &&& chain(g, start, q)
        &&& u == chain_end(g, start, q)
        &&& 0 <= u < g.len()
        &&& 0 <= j < g[u].len()
    }
}

/// The total duration of a chain.
pub open spec fn chain_weight(g: Seq<Seq<Connection>>, p: Seq<(int, int)>) -> int
    decreases p.len(),
{
    if p.len() == 0 {
        0
    } else {
        chain_weight(g, p.drop_last()) + g[p.last().0][p.last().1].duration
    }
}

/// `d` is the largest total duration of a chain from `start` to `v`.
pub open spec fn is_heaviest(g: Seq<Seq<Connection>>, start: int, v: int, d: int) -> bool {
    &&& exists|p: Seq<(int, int)>|
        #[trigger] chain(g, start, p) && chain_end(g, start, p) == v && chain_weight(g, p) == d
    &&& forall|p: Seq<(int, int)>|
        #[trigger] chain(g, start, p) && chain_end(g, start, p) == v ==> chain_weight(g, p) <= d
}

/// The largest-duration outcome at each location: `None` where no chain
/// from `start` reaches it.
pub open spec fn heaviest_outcome(g: Seq<Seq<Connection>>, start: int, dist: Seq<Option<u64>>) -> bool {
    &&& dist.len() == g.len()
    &&& forall|v: int|
        0 <= v < g.len() ==> match #[trigger] dist[v] {
            Some(d) => is_heaviest(g, start, v, d as int),
            None => !exists|p: Seq<(int, int)>|
                #[trigger] chain(g, start, p) && chain_end(g, start, p) == v,
        }
}

proof fn lemma_chain_extend(g: Seq<Seq<Connection>>, start: int, p: Seq<(int, int)>, u: int, j: int)
    requires
        chain(g, start, p),
        u == chain_end(g, start, p),
        0 <= u < g.len(),
        0 <= j < g[u].len(),
    ensures
        chain(g, start, p.push((u, j))),
        chain_end(g, start, p.push((u, j))) == g[u][j].to,
        chain_weight(g, p.push((u, j))) == chain_weight(g, p) + g[u][j].duration,
{
    assert(p.push((u, j)).drop_last() =~= p);
}

/// Every edge out of a location whose value is known has been relaxed.
spec fn relaxed(g: Seq<Seq<Connection>>, dist: Seq<Option<u64>>) -> bool {
    forall|u: int, j: int|
        0 <= u < g.len() && 0 <= j < g[u].len() && dist[u] is Some ==> (dist[(#[trigger] g[u][j]).to as int] is Some
            && dist[u]->0 + g[u][j].duration <= dist[g[u][j].to as int]->0)
}

proof fn lemma_relaxed_bounds(
    g: Seq<Seq<Connection>>,
    start: int,
    dist: Seq<Option<u64>>,
    p: Seq<(int, int)>,
)
    requires
        targets_in_range(g),
        0 <= start < g.len(),
        dist.len() == g.len(),
        dist[start] is Some,
        relaxed(g, dist),
        chain(g, start, p),
    ensures
        0 <= chain_end(g, start, p) < g.len(),
        dist[chain_end(g, start, p)] is Some,
        chain_weight(g, p) <= dist[chain_end(g, start, p)]->0,
    decreases p.len(),
{
    if p.len() > 0 {
        lemma_relaxed_bounds(g, start, dist, p.drop_last());
        let u = p.last().0;
        let j = p.last().1;
        assert(dist[g[u][j].to as int] is Some);
    }
}

impl Graph {
    /// For each location, the largest total duration of a chain of
    /// connections from `start`, found by relaxing the connections in
    /// topological order; `None` where no chain reaches the location. Fails
    /// with `Cycle` where the connections form a cycle.
    pub fn dag_shortest_path(&self, start: u32) -> (r: Result<Vec<Option<u64>>, DagError>)
        requires
            self.wf(),
            start < self@.len(),
        ensures
            r matches Ok(dist) ==> heaviest_outcome(self@, start as int, dist@),
            r == Err::<Vec<Option<u64>>, DagError>(DagError::TooManyConnections) <==> exists|v: int|
                0 <= v < self@.len() && #[trigger] in_degree(self@, v) >= u64::MAX,
            r == Err::<Vec<Option<u64>>, DagError>(DagError::Cycle) <==> (forall|v: int|
                0 <= v < self@.len() ==> #[trigger] in_degree(self@, v) < u64::MAX) && forall|
                o: Seq<u32>,
            | !is_topological_order(self@, o),
    {
        let ghost g = self@;
        let order = match self.topological_sort() {
            Ok(order) => order,
            Err(e) => {
                return Err(e);
            },
        };
        let n = self.adjacency.len();
        let mut dist: Vec<Option<u64>> = Vec::new();
        let mut k: usize = 0;
        while k < n
            invariant
                n == g.len(),
                k <= n,
                dist@.len() == k,
                forall|m: int| 0 <= m < k ==> dist@[m] is None,
            decreases n - k,
        {
            dist.push(None);
            k = k + 1;
        }
        dist.set(start as usize, Some(0));
        proof {
            let p = Seq::<(int, int)>::empty();
            assert(chain(g, start as int, p) && chain_end(g, start as int, p) == start);
        }
        let mut i: usize = 0;
        while i < n
            invariant
                self.wf(),
                g == self@,
                n == g.len(),
                start < n,
                is_topological_order(g, order@),
                i <= n,
                dist@.len() == n,
                dist@[start as int] is Some,
                forall|v: int|
                    0 <= v < n && #[trigger] dist@[v] is Some ==> dist@[v]->0 <= i * 0xFFFF_FFFFu64
                        && exists|p: Seq<(int, int)>|
                        #[trigger] chain(g, start as int, p) && chain_end(g, start as int, p) == v
                            && chain_weight(g, p) == dist@[v]->0,
                forall|k: int, j: int|
                    0 <= k < i && 0 <= j < g[order@[k] as int].len() && dist@[order@[k] as int] is Some
                        ==> (dist@[(#[trigger] g[order@[k] as int][j]).to as int] is Some
                        && dist@[order@[k] as int]->0 + g[order@[k] as int][j].duration <= dist@[g[order@[k] as int][j].to as int]->0),
            decreases n - i,
        {
            let u = order[i] as usize;
            let row = &self.adjacency[u];
            let du = dist[u];
            if let Some(base) = du {
                let mut j: usize = 0;
                while j < row.len()
                    invariant
                        self.wf(),
                        g == self@,
                        n == g.len(),
                        start < n,
                        is_topological_order(g, order@),
                        i < n,
                        u == order@[i as int],
                        row@ == g[u as int],
                        j <= row@.len(),
                        dist@.len() == n,
                        dist@[u as int] == Some(base),
                        dist@[start as int] is Some,
                        base <= i * 0xFFFF_FFFFu64,
                        forall|v: int|
                            0 <= v < n && #[trigger] dist@[v] is Some ==> dist@[v]->0 <= (i + 1) * 0xFFFF_FFFFu64
                                && exists|p: Seq<(int, int)>|
                                #[trigger] chain(g, start as int, p) && chain_end(g, start as int, p) == v
                                    && chain_weight(g, p) == dist@[v]->0,
                        forall|k: int, y: int|
                            0 <= k < i && 0 <= y < g[order@[k] as int].len() && dist@[order@[k] as int] is Some
                                ==> (dist@[(#[trigger] g[order@[k] as int][y]).to as int] is Some
                                && dist@[order@[k] as int]->0 + g[order@[k] as int][y].duration <= dist@[g[order@[k] as int][y].to as int]->0),
                        forall|y: int|
                            0 <= y < j ==> (dist@[(#[trigger] g[u as int][y]).to as int] is Some
                                && base + g[u as int][y].duration <= dist@[g[u as int][y].to as int]->0),
                    decreases row@.len() - j,
                {
                    let e = row[j];
                    assert(e == g[u as int][j as int]);
                    let t = e.to as usize;
                    proof {
                        assert(base + e.duration <= (i + 1) * 0xFFFF_FFFFu64) by (nonlinear_arith)
                            requires
                                base <= i * 0xFFFF_FFFFu64,
                                e.duration <= 0xFFFF_FFFFu32,
                        ;
                        assert(i + 1 <= n <= 0x1_0000_0000);
                        assert((i + 1) * 0xFFFF_FFFFu64 <= 0x1_0000_0000 * 0xFFFF_FFFFu64) by (nonlinear_arith)
                            requires
                                i + 1 <= 0x1_0000_0000,
                        ;
                    }
                    let candidate: u64 = base + e.duration as u64;
                    let improve = match dist[t] {
                        Some(old) => candidate > old,
                        None => true,
                    };
                    if improve {
                        proof {
                            // the target lies after `u` in the order, so no settled value changes
                            let i2 = choose|i2: int| 0 <= i2 < order@.len() && order@[i2] == e.to;
                            assert(order@.contains(e.to));
                            let i1 = choose|i1: int| 0 <= i1 < i2 && order@[i1] == u as int;
                            assert(order@[i1] == order@[i as int]);
                            let p = choose|p: Seq<(int, int)>|
                                #[trigger] chain(g, start as int, p) && chain_end(g, start as int, p) == u
                                    && chain_weight(g, p) == base;
                            lemma_chain_extend(g, start as int, p, u as int, j as int);
                        }
                        dist.set(t, Some(candidate));
                    }
                    j = j + 1;
                }
            }
            i = i + 1;
        }
        proof {
            assert(relaxed(g, dist@)) by {
                assert forall|u: int, j: int|
                    0 <= u < g.len() && 0 <= j < g[u].len() && dist@[u] is Some implies (dist@[(#[trigger] g[u][j]).to as int] is Some
                        && dist@[u]->0 + g[u][j].duration <= dist@[g[u][j].to as int]->0) by {
                    assert(order@.contains(u as u32));
                    let k = choose|k: int| 0 <= k < order@.len() && order@[k] == u as u32;
                    assert(g[order@[k] as int][j] == g[u][j]);
                }
            }
            assert forall|v: int| 0 <= v < g.len() implies match #[trigger] dist@[v] {
                Some(d) => is_heaviest(g, start as int, v, d as int),
                None => !exists|p: Seq<(int, int)>|
                    #[trigger] chain(g, start as int, p) && chain_end(g, start as int, p) == v,
            } by {
                assert forall|p: Seq<(int, int)>|
                    #[trigger] chain(g, start as int, p) && chain_end(g, start as int, p) == v implies dist@[v] is Some
                        && chain_weight(g, p) <= dist@[v]->0 by {
                    lemma_relaxed_bounds(g, start as int, dist@, p);
                }
            }
        }
        Ok(dist)
    }
}

proof fn lemma_all_unmarked_count(n: nat)
    ensures
        unmarked(no_marks(n)) == n,
    decreases n,
{
    if n > 0 {
        lemma_all_unmarked_count((n - 1) as nat);
        assert(no_marks(n).drop_last() =~= no_marks((n - 1) as nat));
    }
}

} // verus!
