//! The search for the largest total transfer wait: a depth-first search over
//! the feasible walks that visit no location twice.
//!
//! Results are not cached between states: the locations already on the
//! current path decide what can follow, so a cache keyed by location, time
//! and accumulated wait alone could hand one path's answer to another.
use vstd::prelude::*;
use crate::graph::{Connection, Graph, MAX_ARRIVAL, unmarked, lemma_mark};

verus! {

/// The larger of two optional values; a missing value loses to any present one.
pub open spec fn opt_max(a: Option<int>, b: Option<int>) -> Option<int> {
    match a {
        Some(x) => match b {
            Some(y) => Some(if x >= y { x } else { y }),
            None => Some(x),
        },
        None => b,
    }
}

/// An optional machine integer as an optional mathematical integer.
pub open spec fn opt_int(r: Option<u64>) -> Option<int> {
    match r {
        Some(x) => Some(x as int),
        None => None,
    }
}

/// The largest total wait with which a traveller standing at `v` at `time`,
/// having waited `acc` so far and having already visited the locations
/// marked in `vis`, can reach `end` without visiting a location twice.
/// A state whose wait has reached `limit` before `end` is abandoned. `None`
/// where no such walk reaches `end`.
pub open spec fn best_wait(
    g: Seq<Seq<Connection>>,
    v: int,
    end: int,
    time: int,
    acc: int,
    vis: Seq<bool>,
    limit: int,
) -> Option<int>
    decreases unmarked(vis), 1int, 0int,
{
    if v == end {
        Some(acc)
    } else if acc >= limit {
        None
    } else if 0 <= v < vis.len() && !vis[v] && 0 <= v < g.len() {
        edges_best(g, v, end, time, acc, vis, limit, g[v].len() as int)
    } else {
        None
    }
}

/// What the first `j` connections of `v` offer, as in [`best_wait`].
pub open spec fn edges_best(
    g: Seq<Seq<Connection>>,
    v: int,
    end: int,
    time: int,
    acc: int,
    vis: Seq<bool>,
    limit: int,
    j: int,
) -> Option<int>
    decreases unmarked(vis), 0int, j,
{
    if j <= 0 || !(0 <= v < vis.len() && !vis[v]) {
        None
    } else {
        let e = g[v][j - 1];
        let seen = vis.update(v, true);
        let here = if e.boardable_at(time) && 0 <= e.to < seen.len() && !seen[e.to as int] {
            proof {
                lemma_mark(vis, v);
            }
            best_wait(
                g,
                e.to as int,
                end,
                e.arrival(),
                acc + e.departure_time - time,
                seen,
                limit,
            )
        } else {
            None
        };
        opt_max(edges_best(g, v, end, time, acc, vis, limit, j - 1), here)
    }
}

/// The largest total wait with which a traveller standing at `start` at
/// `time`, having waited `transfer_time` so far, can reach `end` along a
/// feasible walk that avoids the locations marked in `visited` and visits
/// none twice; states whose wait has reached `limit` before `end` are
/// abandoned. `visited` is handed back as it came.
pub fn dfs(
    graph: &Graph,
    start: u32,
    end: u32,
    time: u64,
    transfer_time: u64,
    visited: &mut Vec<bool>,
    limit: u64,
) -> (r: Option<u64>)
    requires
        graph.wf(),
        start < graph@.len(),
        end < graph@.len(),
        old(visited)@.len() == graph@.len(),
        transfer_time <= time <= MAX_ARRIVAL,
    ensures
        final(visited)@ == old(visited)@,
        opt_int(r) == best_wait(
            graph@,
            start as int,
            end as int,
            time as int,
            transfer_time as int,
            old(visited)@,
            limit as int,
        ),
        r matches Some(x) ==> x <= MAX_ARRIVAL,
    decreases unmarked(visited@),
{
    let ghost g = graph@;
    let ghost vis0 = visited@;
    if start == end {
        return Some(transfer_time);
    }
    if transfer_time >= limit {
        return None;
    }
    let s = start as usize;
    if visited[s] {
        return None;
    }
    proof {
        lemma_mark(vis0, s as int);
    }
    visited.set(s, true);
    let edges = &graph.adjacency[s];
    let mut best: Option<u64> = None;
    let mut j: usize = 0;
    while j < edges.len()
        invariant
            graph.wf(),
            g == graph@,
            s == start,
            s < g.len(),
            end < g.len(),
            start != end,
            transfer_time < limit,
            transfer_time <= time <= MAX_ARRIVAL,
            vis0.len() == g.len(),
            vis0 == old(visited)@,
            !vis0[s as int],
            unmarked(vis0.update(s as int, true)) < unmarked(vis0),
            edges@ == g[s as int],
            j <= edges@.len(),
            visited@ == vis0.update(s as int, true),
            opt_int(best) == edges_best(
                g,
                s as int,
                end as int,
                time as int,
                transfer_time as int,
                vis0,
                limit as int,
                j as int,
            ),
            best matches Some(x) ==> x <= MAX_ARRIVAL,
        decreases edges@.len() - j,
    {
        let e = edges[j];
        assert(e == g[s as int][j as int]);
        let mut here: Option<u64> = None;
        if time <= e.departure_time as u64 && !visited[e.to as usize] {
            let arrival: u64 = e.departure_time as u64 + e.duration as u64;
            let wait: u64 = transfer_time + (e.departure_time as u64 - time);
            here = dfs(graph, e.to, end, arrival, wait, visited, limit);
        }
        best = match (best, here) {
            (Some(x), Some(y)) => Some(if x >= y { x } else { y }),
            (Some(x), None) => Some(x),
            (None, y) => y,
        };
        j = j + 1;
    }
    visited.set(s, false);
    assert(visited@ =~= vis0);
    best
}

/// The largest total transfer wait over the feasible walks from `start`,
/// leaving at time 0, to `end` that visit no location twice; `None` where no
/// such walk exists.
pub fn max_transfer_wait(graph: &Graph, start: u32, end: u32) -> (r: Option<u64>)
    requires
        graph.wf(),
        start < graph@.len(),
        end < graph@.len(),
    ensures
        opt_int(r) == best_wait(
            graph@,
            start as int,
            end as int,
            0,
            0,
            Seq::new(graph@.len(), |i: int| false),
            u64::MAX as int,
        ),
{
    let n = graph.adjacency.len();
    let mut visited: Vec<bool> = Vec::new();
    let mut i: usize = 0;
    while i < n
        invariant
            n == graph@.len(),
            i <= n,
            visited@ == Seq::new(i as nat, |k: int| false),
        decreases n - i,
    {
        visited.push(false);
        i = i + 1;
        assert(visited@ =~= Seq::new(i as nat, |k: int| false));
    }
    dfs(graph, start, end, 0, 0, &mut visited, u64::MAX)
}

/// The total wait of the walk that, from the state of [`best_wait`], boards
/// at each location the connection whose index `route` gives next and stops
/// at `end`; `None` where that is no feasible walk that reaches `end` without
/// visiting a location twice, or where it is abandoned at `limit`.
pub open spec fn route_wait(
    g: Seq<Seq<Connection>>,
    v: int,
    end: int,
    time: int,
    acc: int,
    vis: Seq<bool>,
    limit: int,
    route: Seq<int>,
) -> Option<int>
    decreases route.len(),
{
    if v == end {
        if route.len() == 0 {
            Some(acc)
        } else {
            None
        }
    } else if acc >= limit || route.len() == 0 || !(0 <= v < vis.len() && !vis[v] && 0 <= v
        < g.len()) || !(0 <= route[0] < g[v].len()) {
        None
    } else {
        let e = g[v][route[0]];
        let seen = vis.update(v, true);
        if e.boardable_at(time) && 0 <= e.to < seen.len() && !seen[e.to as int] {
            route_wait(
                g,
                e.to as int,
                end,
                e.arrival(),
                acc + e.departure_time - time,
                seen,
                limit,
                route.drop_first(),
            )
        } else {
            None
        }
    }
}

/// What connection `k` of `v` offers, as in [`edges_best`].
spec fn child_best(
    g: Seq<Seq<Connection>>,
    v: int,
    end: int,
    time: int,
    acc: int,
    vis: Seq<bool>,
    limit: int,
    k: int,
) -> Option<int> {
    let e = g[v][k];
    let seen = vis.update(v, true);
    if e.boardable_at(time) && 0 <= e.to < seen.len() && !seen[e.to as int] {
        best_wait(g, e.to as int, end, e.arrival(), acc + e.departure_time - time, seen, limit)
    } else {
        None
    }
}

proof fn lemma_edges_best_bounds(
    g: Seq<Seq<Connection>>,
    v: int,
    end: int,
    time: int,
    acc: int,
    vis: Seq<bool>,
    limit: int,
    j: int,
)
    requires
        0 <= v < vis.len(),
        !vis[v],
        0 <= j,
    ensures
        forall|k: int|
            0 <= k < j && (#[trigger] child_best(g, v, end, time, acc, vis, limit, k)) is Some
                ==> edges_best(g, v, end, time, acc, vis, limit, j) is Some && child_best(
                g,
                v,
                end,
                time,
                acc,
                vis,
                limit,
                k,
            )->0 <= edges_best(g, v, end, time, acc, vis, limit, j)->0,
        edges_best(g, v, end, time, acc, vis, limit, j) is Some ==> exists|k: int|
            0 <= k < j && #[trigger] child_best(g, v, end, time, acc, vis, limit, k)
                == edges_best(g, v, end, time, acc, vis, limit, j),
    decreases j,
{
    if j > 0 {
        lemma_edges_best_bounds(g, v, end, time, acc, vis, limit, j - 1);
        assert(edges_best(g, v, end, time, acc, vis, limit, j) == opt_max(
            edges_best(g, v, end, time, acc, vis, limit, j - 1),
            child_best(g, v, end, time, acc, vis, limit, j - 1),
        ));
    }
}

proof fn lemma_route_bounded(
    g: Seq<Seq<Connection>>,
    v: int,
    end: int,
    time: int,
    acc: int,
    vis: Seq<bool>,
    limit: int,
    route: Seq<int>,
)
    requires
        route_wait(g, v, end, time, acc, vis, limit, route) is Some,
    ensures
        best_wait(g, v, end, time, acc, vis, limit) is Some,
        route_wait(g, v, end, time, acc, vis, limit, route)->0 <= best_wait(
            g,
            v,
            end,
            time,
            acc,
            vis,
            limit,
        )->0,
    decreases route.len(),
{
    if v != end {
        let k = route[0];
        let e = g[v][k];
        let seen = vis.update(v, true);
        lemma_route_bounded(
            g,
            e.to as int,
            end,
            e.arrival(),
            acc + e.departure_time - time,
            seen,
            limit,
            route.drop_first(),
        );
        lemma_edges_best_bounds(g, v, end, time, acc, vis, limit, g[v].len() as int);
        assert(child_best(g, v, end, time, acc, vis, limit, k) is Some);
    }
}

proof fn lemma_best_attained(
    g: Seq<Seq<Connection>>,
    v: int,
    end: int,
    time: int,
    acc: int,
    vis: Seq<bool>,
    limit: int,
)
    requires
        best_wait(g, v, end, time, acc, vis, limit) is Some,
    ensures
        exists|route: Seq<int>|
            #[trigger] route_wait(g, v, end, time, acc, vis, limit, route) == best_wait(
                g,
                v,
                end,
                time,
                acc,
                vis,
                limit,
            ),
    decreases unmarked(vis),
{
    if v == end {
        assert(route_wait(g, v, end, time, acc, vis, limit, Seq::empty()) == Some(acc));
    } else {
        lemma_edges_best_bounds(g, v, end, time, acc, vis, limit, g[v].len() as int);
        let k = choose|k: int|
            0 <= k < g[v].len() && #[trigger] child_best(g, v, end, time, acc, vis, limit, k)
                == edges_best(g, v, end, time, acc, vis, limit, g[v].len() as int);
        let e = g[v][k];
        let seen = vis.update(v, true);
        lemma_mark(vis, v);
        lemma_best_attained(
            g,
            e.to as int,
            end,
            e.arrival(),
            acc + e.departure_time - time,
            seen,
            limit,
        );
        let rest = choose|route: Seq<int>|
            #[trigger] route_wait(
                g,
                e.to as int,
                end,
                e.arrival(),
                acc + e.departure_time - time,
                seen,
                limit,
                route,
            ) == best_wait(
                g,
                e.to as int,
                end,
                e.arrival(),
                acc + e.departure_time - time,
                seen,
                limit,
            );
        let route = seq![k].add(rest);
        assert(route.drop_first() =~= rest);
        assert(route_wait(g, v, end, time, acc, vis, limit, route) == best_wait(
            g,
            v,
            end,
            time,
            acc,
            vis,
            limit,
        ));
    }
}

/// The search picks the largest wait over all routes, whatever the order in
/// which it meets them: its result is at least the wait of every route that
/// reaches `end`, and some route has exactly that wait.
pub proof fn lemma_best_wait_is_maximum(
    g: Seq<Seq<Connection>>,
    v: int,
    end: int,
    time: int,
    acc: int,
    vis: Seq<bool>,
    limit: int,
)
    ensures
        forall|route: Seq<int>|
            (#[trigger] route_wait(g, v, end, time, acc, vis, limit, route)) is Some ==> best_wait(
                g,
                v,
                end,
                time,
                acc,
                vis,
                limit,
            ) is Some && route_wait(g, v, end, time, acc, vis, limit, route)->0 <= best_wait(
                g,
                v,
                end,
                time,
                acc,
                vis,
                limit,
            )->0,
        best_wait(g, v, end, time, acc, vis, limit) is Some ==> exists|route: Seq<int>|
            #[trigger] route_wait(g, v, end, time, acc, vis, limit, route) == best_wait(
                g,
                v,
                end,
                time,
                acc,
                vis,
                limit,
            ),
{
    assert forall|route: Seq<int>|
        (#[trigger] route_wait(g, v, end, time, acc, vis, limit, route)) is Some implies best_wait(
        g,
        v,
        end,
        time,
        acc,
        vis,
        limit,
    ) is Some && route_wait(g, v, end, time, acc, vis, limit, route)->0 <= best_wait(
        g,
        v,
        end,
        time,
        acc,
        vis,
        limit,
    )->0 by {
        lemma_route_bounded(g, v, end, time, acc, vis, limit, route);
    }
    if best_wait(g, v, end, time, acc, vis, limit) is Some {
        lemma_best_attained(g, v, end, time, acc, vis, limit);
    }
}

} // verus!
