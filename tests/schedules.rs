use transit::earliest::dijkstra;
use transit::graph::Graph;
use transit::reader::ParseError;
use transit::schedule::{add_transfers, read_schedule, visits_of_line, ReadError, ScheduleError, Visit};
use transit::transfer::max_transfer_wait;

#[test]
fn schedule_text_builds_the_graph() {
    let g = read_schedule(b"2 3\n0 1\n0 5\n1 2\n5 10\n".to_vec()).unwrap();
    assert_eq!(g.len(), 3);
    assert_eq!(g.adjacency[0].len(), 1);
    assert_eq!(g.adjacency[0][0].to, 1);
    assert_eq!(g.adjacency[0][0].duration, 5);
    assert_eq!(g.adjacency[0][0].departure_time, 0);
    assert_eq!(g.adjacency[1][0].departure_time, 5);
    assert_eq!(dijkstra(&g, 0, 2), Some(10));
}

#[test]
fn schedule_text_with_missed_connection() {
    let g = read_schedule(b"2 3\n0 1\n0 5\n1 2\n4 10\n".to_vec()).unwrap();
    assert_eq!(dijkstra(&g, 0, 2), None);
    assert_eq!(max_transfer_wait(&g, 0, 2), None);
}

#[test]
fn schedule_errors_are_reported() {
    assert_eq!(read_schedule(b"".to_vec()).err(), Some(ReadError::Parse(ParseError::MissingToken)));
    assert_eq!(read_schedule(b"1 0\n".to_vec()).err(), Some(ReadError::NoLocations));
    assert_eq!(
        read_schedule(b"1 3\n0 1\n".to_vec()).err(),
        Some(ReadError::Schedule(ScheduleError::MismatchedLengths))
    );
    assert_eq!(
        read_schedule(b"1 3\n0 a\n0 1\n".to_vec()).err(),
        Some(ReadError::Parse(ParseError::InvalidNumber))
    );
    assert_eq!(
        read_schedule(b"1 3\n0 1 2\n0 3 2\n".to_vec()).err(),
        Some(ReadError::Schedule(ScheduleError::DecreasingTimes))
    );
    assert_eq!(
        read_schedule(b"1 3\n0 3\n0 3\n".to_vec()).err(),
        Some(ReadError::Schedule(ScheduleError::InvalidLocation))
    );
}

#[test]
fn transfers_link_consecutive_locations() {
    let visits = vec![
        Visit { location: 0, line: 0, time: 1 },
        Visit { location: 0, line: 1, time: 4 },
        Visit { location: 0, line: 0, time: 9 },
        Visit { location: 1, line: 1, time: 6 },
        Visit { location: 1, line: 2, time: 8 },
    ];
    let mut g = Graph::new(3);
    assert_eq!(add_transfers(&mut g, &visits), Ok(()));
    assert_eq!(g.adjacency[0].len(), 2);
    assert_eq!(g.adjacency[0][0].to, 1);
    assert_eq!(g.adjacency[0][0].duration, 3);
    assert_eq!(g.adjacency[0][0].departure_time, 4);
    assert_eq!(g.adjacency[0][1].duration, 5);
    assert_eq!(g.adjacency[0][1].departure_time, 9);
    assert_eq!(g.adjacency[1].len(), 1);
    assert_eq!(g.adjacency[1][0].duration, 2);
    let dist = g.dag_shortest_path(0).unwrap();
    assert_eq!(dist, vec![Some(0), Some(5), Some(7)]);
}

#[test]
fn transfer_from_last_location_is_rejected() {
    let visits = vec![Visit { location: 2, line: 0, time: 1 }, Visit { location: 2, line: 1, time: 4 }];
    let mut g = Graph::new(3);
    assert_eq!(add_transfers(&mut g, &visits), Err(ScheduleError::InvalidLocation));
    assert_eq!(g.adjacency[2].len(), 0);
}

#[test]
fn visits_follow_the_stops_of_a_line() {
    let v = visits_of_line(4, &vec![2, 0, 1], &vec![3, 5, 9]).unwrap();
    assert_eq!(
        v,
        vec![
            Visit { location: 2, line: 4, time: 3 },
            Visit { location: 0, line: 4, time: 5 },
            Visit { location: 1, line: 4, time: 9 },
        ]
    );
    assert_eq!(visits_of_line(0, &vec![1], &vec![]), Err(ScheduleError::MismatchedLengths));
}
