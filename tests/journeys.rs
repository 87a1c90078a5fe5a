use transit::dag::DagError;
use transit::earliest::dijkstra;
use transit::graph::{Graph, GraphError};
use transit::schedule::{add_line, ScheduleError};
use transit::transfer::{dfs, max_transfer_wait};

fn graph_of(locations: usize, lines: &[(Vec<u32>, Vec<u32>)]) -> Graph {
    let mut g = Graph::new(locations);
    for (stops, departures) in lines {
        add_line(&mut g, stops, departures).unwrap();
    }
    g
}

#[test]
fn two_lines_connect_at_the_transfer_stop() {
    let g = graph_of(3, &[(vec![0, 1], vec![0, 5]), (vec![1, 2], vec![5, 10])]);
    assert_eq!(dijkstra(&g, 0, 2), Some(10));
}

#[test]
fn missed_connection_leaves_destination_unreachable() {
    let g = graph_of(3, &[(vec![0, 1], vec![0, 5]), (vec![1, 2], vec![4, 10])]);
    assert_eq!(dijkstra(&g, 0, 2), None);
}

#[test]
fn zero_duration_hop_is_an_instant_connection() {
    let g = graph_of(3, &[(vec![0, 1, 2], vec![0, 3, 3])]);
    assert_eq!(dijkstra(&g, 0, 2), Some(3));
    assert_eq!(dijkstra(&g, 0, 1), Some(3));
}

#[test]
fn decreasing_departures_are_rejected() {
    let mut g = Graph::new(3);
    let r = add_line(&mut g, &vec![0, 1, 2], &vec![0, 3, 2]);
    assert_eq!(r, Err(ScheduleError::DecreasingTimes));
    assert_eq!(dijkstra(&g, 0, 2), None);
}

#[test]
fn mismatched_line_is_rejected() {
    let mut g = Graph::new(3);
    assert_eq!(add_line(&mut g, &vec![0, 1, 2], &vec![0, 3]), Err(ScheduleError::MismatchedLengths));
}

#[test]
fn line_through_unknown_stop_is_rejected() {
    let mut g = Graph::new(3);
    assert_eq!(add_line(&mut g, &vec![0, 7], &vec![0, 3]), Err(ScheduleError::InvalidLocation));
    assert_eq!(g.adjacency[0].len(), 0);
}

#[test]
fn add_edge_checks_both_endpoints() {
    let mut g = Graph::new(2);
    assert_eq!(g.add_edge(0, 2, 1, 1), Err(GraphError::InvalidLocation));
    assert_eq!(g.add_edge(2, 0, 1, 1), Err(GraphError::InvalidLocation));
    assert_eq!(g.add_edge(0, 1, 4, 6), Ok(()));
    assert_eq!(g.adjacency[0].len(), 1);
    assert_eq!(g.adjacency[0][0].to, 1);
    assert_eq!(g.adjacency[0][0].duration, 4);
    assert_eq!(g.adjacency[0][0].departure_time, 6);
}

#[test]
fn no_connections_means_unreachable() {
    let g = Graph::new(4);
    for a in 0..4u32 {
        for b in 0..4u32 {
            if a != b {
                assert_eq!(dijkstra(&g, a, b), None);
            }
        }
        assert_eq!(dijkstra(&g, a, a), Some(0));
    }
}

#[test]
fn departure_already_gone_is_not_boarded() {
    // reaching 1 at 5, the only connection on leaves at 3
    let mut g = Graph::new(3);
    g.add_edge(0, 1, 5, 0).unwrap();
    g.add_edge(1, 2, 1, 3).unwrap();
    assert_eq!(dijkstra(&g, 0, 2), None);
    g.add_edge(1, 2, 2, 5).unwrap();
    assert_eq!(dijkstra(&g, 0, 2), Some(7));
}

#[test]
fn earliest_arrival_prefers_the_faster_route() {
    let mut g = Graph::new(4);
    g.add_edge(0, 3, 20, 0).unwrap();
    g.add_edge(0, 1, 2, 1).unwrap();
    g.add_edge(1, 2, 2, 4).unwrap();
    g.add_edge(2, 3, 1, 7).unwrap();
    assert_eq!(dijkstra(&g, 0, 3), Some(8));
    assert_eq!(dijkstra(&g, 0, 2), Some(6));
}

#[test]
fn search_is_deterministic() {
    let g = graph_of(4, &[(vec![0, 1, 3], vec![0, 4, 9]), (vec![0, 2, 3], vec![1, 3, 8])]);
    let first = dijkstra(&g, 0, 3);
    let second = dijkstra(&g, 0, 3);
    assert_eq!(first, second);
    assert_eq!(first, Some(8));
}

#[test]
fn longer_duration_never_arrives_earlier() {
    let mut before = Graph::new(3);
    before.add_edge(0, 1, 2, 0).unwrap();
    before.add_edge(1, 2, 1, 3).unwrap();
    let mut after = Graph::new(3);
    after.add_edge(0, 1, 3, 0).unwrap();
    after.add_edge(1, 2, 1, 3).unwrap();
    let mut later = Graph::new(3);
    later.add_edge(0, 1, 4, 0).unwrap();
    later.add_edge(1, 2, 1, 3).unwrap();
    assert_eq!(dijkstra(&before, 0, 2), Some(4));
    assert_eq!(dijkstra(&after, 0, 2), Some(4));
    assert_eq!(dijkstra(&later, 0, 2), None);
}

#[test]
fn largest_arrival_times_fit() {
    let mut g = Graph::new(2);
    g.add_edge(0, 1, u32::MAX, u32::MAX).unwrap();
    assert_eq!(dijkstra(&g, 0, 1), Some(2 * u32::MAX as u64));
}

#[test]
fn transfer_search_returns_the_larger_wait() {
    // route 0-1-3 waits 2 then 1; route 0-2-3 waits 6 then 0
    let mut g = Graph::new(4);
    g.add_edge(0, 1, 1, 2).unwrap();
    g.add_edge(1, 3, 1, 4).unwrap();
    g.add_edge(0, 2, 1, 6).unwrap();
    g.add_edge(2, 3, 1, 7).unwrap();
    assert_eq!(max_transfer_wait(&g, 0, 3), Some(6));
}

#[test]
fn transfer_search_reports_no_route() {
    let g = graph_of(3, &[(vec![0, 1], vec![0, 5]), (vec![1, 2], vec![4, 10])]);
    assert_eq!(max_transfer_wait(&g, 0, 2), None);
    let g = Graph::new(2);
    assert_eq!(max_transfer_wait(&g, 0, 1), None);
    assert_eq!(max_transfer_wait(&g, 1, 1), Some(0));
}

#[test]
fn transfer_search_waits_between_lines() {
    let g = graph_of(3, &[(vec![0, 1], vec![2, 5]), (vec![1, 2], vec![9, 10])]);
    assert_eq!(max_transfer_wait(&g, 0, 2), Some(6));
}

#[test]
fn transfer_search_abandons_at_the_limit() {
    let g = graph_of(3, &[(vec![0, 1], vec![2, 5]), (vec![1, 2], vec![9, 10])]);
    let mut visited = vec![false; 3];
    assert_eq!(dfs(&g, 0, 2, 0, 0, &mut visited, 2), None);
    assert_eq!(visited, vec![false; 3]);
    assert_eq!(dfs(&g, 0, 2, 0, 0, &mut visited, 3), Some(6));
    assert_eq!(visited, vec![false; 3]);
}

#[test]
fn transfer_search_skips_visited_locations() {
    let g = graph_of(3, &[(vec![0, 1, 2], vec![0, 1, 2])]);
    let mut visited = vec![false, true, false];
    assert_eq!(dfs(&g, 0, 2, 0, 0, &mut visited, u64::MAX), None);
    assert_eq!(visited, vec![false, true, false]);
}

#[test]
fn topological_order_puts_connections_forward() {
    let mut g = Graph::new(4);
    g.add_edge(2, 1, 1, 0).unwrap();
    g.add_edge(1, 3, 1, 0).unwrap();
    g.add_edge(0, 1, 1, 0).unwrap();
    let order = g.topological_sort().unwrap();
    assert_eq!(order, vec![0, 2, 1, 3]);
}

#[test]
fn cycle_has_no_topological_order() {
    let mut g = Graph::new(3);
    g.add_edge(0, 1, 1, 0).unwrap();
    g.add_edge(1, 2, 1, 0).unwrap();
    g.add_edge(2, 1, 1, 0).unwrap();
    assert_eq!(g.topological_sort(), Err(DagError::Cycle));
    assert_eq!(g.dag_shortest_path(0), Err(DagError::Cycle));
}

#[test]
fn self_loop_is_a_cycle() {
    let mut g = Graph::new(2);
    g.add_edge(1, 1, 1, 0).unwrap();
    assert_eq!(g.topological_sort(), Err(DagError::Cycle));
}

#[test]
fn heaviest_chain_in_topological_order() {
    let mut g = Graph::new(5);
    g.add_edge(0, 1, 3, 0).unwrap();
    g.add_edge(0, 2, 1, 0).unwrap();
    g.add_edge(2, 1, 5, 0).unwrap();
    g.add_edge(1, 3, 2, 0).unwrap();
    let dist = g.dag_shortest_path(0).unwrap();
    assert_eq!(dist, vec![Some(0), Some(6), Some(1), Some(8), None]);
}
