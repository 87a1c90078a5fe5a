//! Earliest-arrival search: a label-setting (Dijkstra-style) search that
//! respects the departure time of every connection.
use vstd::prelude::*;
use crate::graph::{Connection, Graph, MAX_ARRIVAL, targets_in_range, unmarked, lemma_mark};

verus! {

/// "Not reached yet": larger than every arrival time.
const UNREACHED: u64 = 0xFFFF_FFFF_FFFF_FFFF;

/// Where a walk from `start` ends. A walk lists the connections boarded, in
/// order, each as a pair of its location and its index in that location's list.
pub open spec fn walk_end(g: Seq<Seq<Connection>>, start: int, w: Seq<(int, int)>) -> int {
    if w.len() == 0 {
        start
    } else {
        g[w.last().0][w.last().1].to as int
    }
}

/// When a walk that leaves at time 0 ends.
pub open spec fn walk_arrival(g: Seq<Seq<Connection>>, w: Seq<(int, int)>) -> int {
    if w.len() == 0 {
        0
    } else {
        g[w.last().0][w.last().1].arrival()
    }
}

/// A walk from `start`, leaving at time 0, in which every connection leaves
/// from where the walk stands and is boarded no later than its departure.
pub open spec fn feasible_walk(g: Seq<Seq<Connection>>, start: int, w: Seq<(int, int)>) -> bool
    decreases w.len(),
{
    if w.len() == 0 {
        true
    } else {
        let p = w.drop_last();
        let u = w.last().0;
        let j = w.last().1;
        &&& feasible_walk(g, start, p)
        &&& u == walk_end(g, start, p)
        &&& 0 <= u < g.len()
        &&& 0 <= j < g[u].len()
        &&& g[u][j].boardable_at(walk_arrival(g, p))
    }
}

/// Some feasible walk from `start` reaches `v` at time `t`.
pub open spec fn arrives(g: Seq<Seq<Connection>>, start: int, v: int, t: int) -> bool {
    exists|w: Seq<(int, int)>|
        #[trigger] feasible_walk(g, start, w) && walk_end(g, start, w) == v && walk_arrival(g, w)
            == t
}

/// Some feasible walk from `start` reaches `v`.
pub open spec fn reachable(g: Seq<Seq<Connection>>, start: int, v: int) -> bool {
    exists|w: Seq<(int, int)>| #[trigger] feasible_walk(g, start, w) && walk_end(g, start, w) == v
}

/// `t` is the earliest time at which a feasible walk from `start` reaches `v`.
pub open spec fn is_earliest(g: Seq<Seq<Connection>>, start: int, v: int, t: int) -> bool {
    &&& arrives(g, start, v, t)
    &&& forall|w: Seq<(int, int)>|
        #[trigger] feasible_walk(g, start, w) && walk_end(g, start, w) == v ==> t <= walk_arrival(
            g,
            w,
        )
}

/// The outcome of the earliest-arrival search, as a function of the graph.
pub open spec fn earliest_outcome(g: Seq<Seq<Connection>>, start: int, end: int, r: Option<u64>) -> bool {
    match r {
        Some(t) => is_earliest(g, start, end, t as int),
        None => !reachable(g, start, end),
    }
}

/// `t` for location `v` stands in the queue.
spec fn queued(q: Seq<(u64, u32)>, v: int, t: u64) -> bool {
    exists|i: int| 0 <= i < q.len() && (#[trigger] q[i]).0 == t && q[i].1 == v
}

/// Every connection that leaves a settled location no earlier than the time
/// at which it was settled has been relaxed.
spec fn settled_closed(g: Seq<Seq<Connection>>, dist: Seq<u64>, vis: Seq<bool>) -> bool {
    forall|u: int, j: int|
        0 <= u < g.len() && vis[u] && 0 <= j < g[u].len() && g[u][j].boardable_at(dist[u] as int)
            ==> dist[(#[trigger] g[u][j]).to as int] <= g[u][j].arrival()
}

proof fn lemma_extend(g: Seq<Seq<Connection>>, start: int, w: Seq<(int, int)>, u: int, j: int)
    requires
        feasible_walk(g, start, w),
        u == walk_end(g, start, w),
        0 <= u < g.len(),
        0 <= j < g[u].len(),
        g[u][j].boardable_at(walk_arrival(g, w)),
    ensures
        feasible_walk(g, start, w.push((u, j))),
        walk_end(g, start, w.push((u, j))) == g[u][j].to,
        walk_arrival(g, w.push((u, j))) == g[u][j].arrival(),
{
    assert(w.push((u, j)).drop_last() =~= w);
}

/// Along any feasible walk, either the walk ends at a settled location no
/// earlier than it was settled, or some unsettled location has a tentative
/// time no later than the walk's arrival.
proof fn lemma_frontier(
    g: Seq<Seq<Connection>>,
    start: int,
    dist: Seq<u64>,
    vis: Seq<bool>,
    w: Seq<(int, int)>,
)
    requires
        targets_in_range(g),
        0 <= start < g.len(),
        dist.len() == g.len(),
        vis.len() == g.len(),
        dist[start] == 0,
        settled_closed(g, dist, vis),
        feasible_walk(g, start, w),
    ensures
        0 <= walk_end(g, start, w) < g.len(),
        0 <= walk_arrival(g, w) <= MAX_ARRIVAL,
        (vis[walk_end(g, start, w)] && dist[walk_end(g, start, w)] <= walk_arrival(g, w)) || (exists|
            v: int,
        | 0 <= v < g.len() && !vis[v] && dist[v] <= walk_arrival(g, w)),
    decreases w.len(),
{
    if w.len() > 0 {
        let p = w.drop_last();
        lemma_frontier(g, start, dist, vis, p);
        let u = w.last().0;
        let j = w.last().1;
        let e = g[u][j];
        let x = walk_end(g, start, p);
        if vis[x] && dist[x] <= walk_arrival(g, p) {
            assert(dist[e.to as int] <= e.arrival());
            if !vis[e.to as int] {
                assert(0 <= e.to < g.len() && !vis[e.to as int] && dist[e.to as int]
                    <= walk_arrival(g, w));
            }
        } else {
            let v = choose|v: int| 0 <= v < g.len() && !vis[v] && dist[v] <= walk_arrival(g, p);
            assert(0 <= v < g.len() && !vis[v] && dist[v] <= walk_arrival(g, w));
        }
    }
}

/// The index of an entry of smallest time in a non-empty queue; among equal
/// times, the one of smallest location.
fn select_min(queue: &Vec<(u64, u32)>) -> (k: usize)
    requires
        queue@.len() > 0,
    ensures
        k < queue@.len(),
        forall|i: int| 0 <= i < queue@.len() ==> queue@[k as int].0 <= (#[trigger] queue@[i]).0,
{
    let mut k: usize = 0;
    let mut i: usize = 1;
    while i < queue.len()
        invariant
            1 <= i <= queue@.len(),
            k < i,
            forall|m: int| 0 <= m < i ==> queue@[k as int].0 <= (#[trigger] queue@[m]).0,
        decreases queue@.len() - i,
    {
        let (ti, pi) = queue[i];
        let (tk, pk) = queue[k];
        if ti < tk || (ti == tk && pi < pk) {
            k = i;
        }
        i = i + 1;
    }
    k
}

/// The earliest time at which a traveller who stands at `start` at time 0
/// can reach `end`, or `None` where no feasible walk reaches it.
pub fn dijkstra(graph: &Graph, start: u32, end: u32) -> (r: Option<u64>)
    requires
        graph.wf(),
        start < graph@.len(),
        end < graph@.len(),
    ensures
        earliest_outcome(graph@, start as int, end as int, r),
{
    let ghost g = graph@;
    let n = graph.adjacency.len();
    let mut dist: Vec<u64> = Vec::new();
    let mut visited: Vec<bool> = Vec::new();
    let mut i: usize = 0;
    while i < n
        invariant
            n == g.len(),
            i <= n,
            dist@.len() == i,
            visited@.len() == i,
            forall|k: int| 0 <= k < i ==> dist@[k] == UNREACHED && !visited@[k],
        decreases n - i,
    {
        dist.push(UNREACHED);
        visited.push(false);
        i = i + 1;
    }
    dist.set(start as usize, 0);
    let mut queue: Vec<(u64, u32)> = Vec::new();
    queue.push((0, start));
    let ghost mut cur: int = 0;
    proof {
        let w = Seq::<(int, int)>::empty();
        assert(feasible_walk(g, start as int, w) && walk_end(g, start as int, w) == start);
        assert(queue@[0] == (0u64, start));
        assert(settled_closed(g, dist@, visited@));
    }
    while queue.len() > 0
        invariant
            graph.wf(),
            g == graph@,
            n == g.len(),
            start < n,
            end < n,
            dist@.len() == n,
            visited@.len() == n,
            dist@[start as int] == 0,
            !visited@[end as int],
            0 <= cur <= MAX_ARRIVAL,
            forall|v: int| 0 <= v < n && visited@[v] ==> dist@[v] <= cur,
            forall|i: int|
                0 <= i < queue@.len() ==> {
                    let (t, p) = #[trigger] queue@[i];
                    &&& p < n
                    &&& cur <= t <= MAX_ARRIVAL
                    &&& dist@[p as int] <= t
                },
            forall|v: int|
                0 <= v < n && !visited@[v] && dist@[v] != UNREACHED ==> queued(
                    queue@,
                    v,
                    #[trigger] dist@[v],
                ),
            forall|v: int|
                0 <= v < n && dist@[v] != UNREACHED ==> dist@[v] <= MAX_ARRIVAL && arrives(
                    g,
                    start as int,
                    v,
                    #[trigger] dist@[v] as int,
                ),
            settled_closed(g, dist@, visited@),
        decreases unmarked(visited@), queue@.len(),
    {
        let k = select_min(&queue);
        let ghost q0 = queue@;
        let (current_time, position) = queue.remove(k);
        assert(forall|i: int| 0 <= i < k ==> queue@[i] == q0[i]);
        assert(forall|i: int| k < i < q0.len() ==> queue@[i - 1] == q0[i]);
        assert forall|v: int|
            0 <= v < n && !visited@[v] && dist@[v] != UNREACHED && v != position implies queued(
            queue@,
            v,
            dist@[v],
        ) by {
            let i = choose|i: int| 0 <= i < q0.len() && (#[trigger] q0[i]).0 == dist@[v] && q0[i].1 == v;
            if i < k {
                assert(queue@[i] == q0[i]);
            } else {
                assert(queue@[i - 1] == q0[i]);
            }
        }
        if visited[position as usize] {
            continue;
        }
        proof {
            let p = position as int;
            assert(queued(q0, p, dist@[p]));
            let i = choose|i: int| 0 <= i < q0.len() && (#[trigger] q0[i]).0 == dist@[p] && q0[i].1 == p;
            assert(q0[k as int].0 <= q0[i].0);
            assert(current_time == dist@[p]);
        }
        if position == end {
            proof {
                assert forall|w: Seq<(int, int)>|
                    #[trigger] feasible_walk(g, start as int, w) && walk_end(g, start as int, w)
                        == end implies current_time <= walk_arrival(g, w) by {
                    lemma_frontier(g, start as int, dist@, visited@, w);
                    let v = choose|v: int|
                        0 <= v < g.len() && !visited@[v] && dist@[v] <= walk_arrival(g, w);
                    assert(queued(q0, v, dist@[v]));
                    let i = choose|i: int|
                        0 <= i < q0.len() && (#[trigger] q0[i]).0 == dist@[v] && q0[i].1 == v;
                    assert(q0[k as int].0 <= q0[i].0);
                }
            }
            return Some(current_time);
        }
        proof {
            lemma_mark(visited@, position as int);
        }
        visited.set(position as usize, true);
        proof {
            cur = current_time as int;
        }
        let u = position as usize;
        let edges = &graph.adjacency[u];
        let mut j: usize = 0;
        while j < edges.len()
            invariant
                graph.wf(),
                g == graph@,
                n == g.len(),
                u < n,
                edges@ == g[u as int],
                start < n,
                end < n,
                u != end,
                j <= edges@.len(),
                dist@.len() == n,
                visited@.len() == n,
                dist@[start as int] == 0,
                !visited@[end as int],
                visited@[u as int],
                dist@[u as int] == cur,
                cur == current_time as int,
                0 <= cur <= MAX_ARRIVAL,
                forall|v: int| 0 <= v < n && visited@[v] ==> dist@[v] <= cur,
                forall|i: int|
                    0 <= i < queue@.len() ==> {
                        let (t, p) = #[trigger] queue@[i];
                        &&& p < n
                        &&& cur <= t <= MAX_ARRIVAL
                        &&& dist@[p as int] <= t
                    },
                forall|v: int|
                    0 <= v < n && !visited@[v] && dist@[v] != UNREACHED ==> queued(
                        queue@,
                        v,
                        #[trigger] dist@[v],
                    ),
                forall|v: int|
                    0 <= v < n && dist@[v] != UNREACHED ==> dist@[v] <= MAX_ARRIVAL && arrives(
                        g,
                        start as int,
                        v,
                        #[trigger] dist@[v] as int,
                    ),
                forall|x: int, y: int|
                    0 <= x < g.len() && visited@[x] && (x != u || y < j) && 0 <= y < g[x].len()
                        && g[x][y].boardable_at(dist@[x] as int) ==> dist@[(#[trigger] g[x][y]).to as int]
                        <= g[x][y].arrival(),
            decreases edges@.len() - j,
        {
            let e = edges[j];
            assert(e == g[u as int][j as int]);
            if current_time <= e.departure_time as u64 {
                let candidate: u64 = e.departure_time as u64 + e.duration as u64;
                let to = e.to as usize;
                if candidate < dist[to] {
                    proof {
                        let w = choose|w: Seq<(int, int)>|
                            #[trigger] feasible_walk(g, start as int, w) && walk_end(g, start as int, w)
                                == u && walk_arrival(g, w) == dist@[u as int] as int;
                        lemma_extend(g, start as int, w, u as int, j as int);
                        assert(queued(queue@.push((candidate, e.to)), to as int, candidate)) by {
                            assert(queue@.push((candidate, e.to))[queue@.len() as int] == (candidate, e.to));
                        }
                        assert(forall|v: int|
                            0 <= v < n && !visited@[v] && dist@[v] != UNREACHED && queued(queue@, v, dist@[v])
                                ==> queued(queue@.push((candidate, e.to)), v, dist@[v])) by {
                            assert forall|v: int|
                                0 <= v < n && !visited@[v] && dist@[v] != UNREACHED && queued(queue@, v, dist@[v])
                                implies queued(queue@.push((candidate, e.to)), v, dist@[v]) by {
                                let i = choose|i: int| 0 <= i < queue@.len() && (#[trigger] queue@[i]).0 == dist@[v] && queue@[i].1 == v;
                                assert(queue@.push((candidate, e.to))[i] == queue@[i]);
                            }
                        }
                    }
                    queue.push((candidate, e.to));
                    dist.set(to, candidate);
                }
            }
            j = j + 1;
        }
    }
    proof {
        assert forall|w: Seq<(int, int)>|
            #[trigger] feasible_walk(g, start as int, w) implies walk_end(g, start as int, w) != end by {
            lemma_frontier(g, start as int, dist@, visited@, w);
            if !(visited@[walk_end(g, start as int, w)]) || dist@[walk_end(g, start as int, w)] > walk_arrival(g, w) {
                let v = choose|v: int|
                    0 <= v < g.len() && !visited@[v] && dist@[v] <= walk_arrival(g, w);
                assert(queued(queue@, v, dist@[v]));
            }
        }
    }
    None
}

/// In a graph without connections no location other than the start is
/// reachable, so the search reports `None` for every other destination.
pub proof fn lemma_no_connections_unreachable(
    g: Seq<Seq<Connection>>,
    start: int,
    end: int,
    r: Option<u64>,
)
    requires
        forall|u: int| 0 <= u < g.len() ==> (#[trigger] g[u]).len() == 0,
        start != end,
        earliest_outcome(g, start, end, r),
    ensures
        r is None,
{
    if r is Some {
        let w = choose|w: Seq<(int, int)>|
            #[trigger] feasible_walk(g, start, w) && walk_end(g, start, w) == end && walk_arrival(
                g,
                w,
            ) == r->0 as int;
        assert(w.len() > 0);
        assert(feasible_walk(g, start, w.drop_last()));
        assert(g[w.last().0].len() == 0);
    }
}

/// The outcome of the earliest-arrival search is a function of the graph
/// and the two locations: two searches on the same input agree.
pub proof fn lemma_earliest_deterministic(
    g: Seq<Seq<Connection>>,
    start: int,
    end: int,
    r1: Option<u64>,
    r2: Option<u64>,
)
    requires
        earliest_outcome(g, start, end, r1),
        earliest_outcome(g, start, end, r2),
    ensures
        r1 == r2,
{
    if r1 is Some && r2 is Some {
        let w1 = choose|w: Seq<(int, int)>|
            #[trigger] feasible_walk(g, start, w) && walk_end(g, start, w) == end && walk_arrival(
                g,
                w,
            ) == r1->0 as int;
        let w2 = choose|w: Seq<(int, int)>|
            #[trigger] feasible_walk(g, start, w) && walk_end(g, start, w) == end && walk_arrival(
                g,
                w,
            ) == r2->0 as int;
        assert(r2->0 <= walk_arrival(g, w1));
        assert(r1->0 <= walk_arrival(g, w2));
    } else if r1 is Some {
        let w1 = choose|w: Seq<(int, int)>|
            #[trigger] feasible_walk(g, start, w) && walk_end(g, start, w) == end && walk_arrival(
                g,
                w,
            ) == r1->0 as int;
        assert(feasible_walk(g, start, w1) && walk_end(g, start, w1) == end);
    } else if r2 is Some {
        let w2 = choose|w: Seq<(int, int)>|
            #[trigger] feasible_walk(g, start, w) && walk_end(g, start, w) == end && walk_arrival(
                g,
                w,
            ) == r2->0 as int;
        assert(feasible_walk(g, start, w2) && walk_end(g, start, w2) == end);
    }
}

/// `h` is `g` with the duration of connection `j` of location `u` raised to
/// `duration`.
pub open spec fn lengthened(
    g: Seq<Seq<Connection>>,
    h: Seq<Seq<Connection>>,
    u: int,
    j: int,
    duration: u32,
) -> bool {
    &&& 0 <= u < g.len()
    &&& 0 <= j < g[u].len()
    &&& g[u][j].duration <= duration
    &&& h == g.update(u, g[u].update(j, Connection { duration, ..g[u][j] }))
}

proof fn lemma_lengthened_walk(
    g: Seq<Seq<Connection>>,
    h: Seq<Seq<Connection>>,
    u: int,
    j: int,
    duration: u32,
    start: int,
    w: Seq<(int, int)>,
)
    requires
        lengthened(g, h, u, j, duration),
        feasible_walk(h, start, w),
    ensures
        feasible_walk(g, start, w),
        walk_end(g, start, w) == walk_end(h, start, w),
        walk_arrival(g, w) <= walk_arrival(h, w),
    decreases w.len(),
{
    if w.len() > 0 {
        lemma_lengthened_walk(g, h, u, j, duration, start, w.drop_last());
        let x = w.last().0;
        let y = w.last().1;
        assert(h[x][y].to == g[x][y].to && h[x][y].departure_time == g[x][y].departure_time
            && g[x][y].duration <= h[x][y].duration);
    }
}

/// Making one connection take longer never makes the destination reachable
/// earlier: what was reachable in the lengthened graph was reachable before,
/// no later.
pub proof fn lemma_earliest_monotone(
    g: Seq<Seq<Connection>>,
    h: Seq<Seq<Connection>>,
    u: int,
    j: int,
    duration: u32,
    start: int,
    end: int,
    r: Option<u64>,
    s: Option<u64>,
)
    requires
        lengthened(g, h, u, j, duration),
        earliest_outcome(g, start, end, r),
        earliest_outcome(h, start, end, s),
    ensures
        s is Some ==> r is Some && r->0 <= s->0,
{
    if s is Some {
        let w = choose|w: Seq<(int, int)>|
            #[trigger] feasible_walk(h, start, w) && walk_end(h, start, w) == end && walk_arrival(
                h,
                w,
            ) == s->0 as int;
        lemma_lengthened_walk(g, h, u, j, duration, start, w);
        assert(feasible_walk(g, start, w) && walk_end(g, start, w) == end);
    }
}

} // verus!
