//! Turning a line of the schedule, its stops and the departure time at each
//! stop, into connections of the graph.
use vstd::prelude::*;
use crate::graph::{Connection, Graph};
use crate::reader::{Input, ParseError, after_line, first_line, pair_of, parse_all};

verus! {

/// Why a line could not be added to the graph.
#[derive(Clone, Copy, Debug, PartialEq, Eq)]
pub enum ScheduleError {
    /// The stops and the departure times differ in number.
    MismatchedLengths,
    /// A departure time is earlier than the one at the stop before it.
    DecreasingTimes,
    /// A stop is not a location of the graph.
    InvalidLocation,
}

/// The connection that hop `k` of a line makes: from stop `k` to stop
/// `k + 1`, leaving at the departure time of stop `k`.
pub open spec fn hop(stops: Seq<u32>, departures: Seq<u32>, k: int) -> Connection {
    Connection {
        to: stops[k + 1],
        duration: (departures[k + 1] - departures[k]) as u32,
        departure_time: departures[k],
    }
}

/// `g` with the first `k` hops of the line added, in order.
pub open spec fn with_hops(g: Seq<Seq<Connection>>, stops: Seq<u32>, departures: Seq<u32>, k: int) -> Seq<
    Seq<Connection>,
>
    decreases k,
{
    if k <= 0 {
        g
    } else {
        let h = with_hops(g, stops, departures, k - 1);
        let from = stops[k - 1] as int;
        h.update(from, h[from].push(hop(stops, departures, k - 1)))
    }
}

/// No departure time is earlier than the one before it.
pub open spec fn nondecreasing(d: Seq<u32>) -> bool {
    forall|k: int| 0 <= k < d.len() - 1 ==> #[trigger] d[k] <= d[k + 1]
}

/// The number of hops of a line of `n` stops.
pub open spec fn hop_count(n: int) -> int {
    if n == 0 {
        0
    } else {
        n - 1
    }
}

fn is_nondecreasing(d: &Vec<u32>) -> (r: bool)
    ensures
        r == nondecreasing(d@),
{
    let n = d.len();
    let mut k: usize = 0;
    while k + 1 < n
        invariant
            n == d@.len(),
            k <= n,
            n > 0 ==> k < n,
            forall|m: int| 0 <= m < k ==> #[trigger] d@[m] <= d@[m + 1],
        decreases n - k,
    {
        if d[k + 1] < d[k] {
            return false;
        }
        k = k + 1;
    }
    true
}

fn all_below(stops: &Vec<u32>, count: usize) -> (r: bool)
    ensures
        r == (forall|k: int| 0 <= k < stops@.len() ==> #[trigger] stops@[k] < count),
{
    let n = stops.len();
    let mut k: usize = 0;
    while k < n
        invariant
            n == stops@.len(),
            k <= n,
            forall|m: int| 0 <= m < k ==> #[trigger] stops@[m] < count,
        decreases n - k,
    {
        if stops[k] as usize >= count {
            return false;
        }
        k = k + 1;
    }
    true
}

/// What is wrong with a line of `stops` and `departures` for a graph of
/// `location_count` locations, the first fault in the order of
/// [`ScheduleError`]'s variants; `None` where nothing is.
pub open spec fn line_error(location_count: nat, stops: Seq<u32>, departures: Seq<u32>) -> Option<
    ScheduleError,
> {
    if stops.len() != departures.len() {
        Some(ScheduleError::MismatchedLengths)
    } else if !nondecreasing(departures) {
        Some(ScheduleError::DecreasingTimes)
    } else if exists|k: int| 0 <= k < stops.len() && #[trigger] stops[k] >= location_count {
        Some(ScheduleError::InvalidLocation)
    } else {
        None
    }
}

/// Adds one connection per pair of consecutive stops of a line. A hop of
/// duration 0 is an instantaneous connection. On an error nothing is added.
pub fn add_line(graph: &mut Graph, stops: &Vec<u32>, departures: &Vec<u32>) -> (r: Result<
    (),
    ScheduleError,
>)
    requires
        old(graph).wf(),
    ensures
        final(graph).wf(),
        r == Err::<(), ScheduleError>(ScheduleError::MismatchedLengths) <==> stops@.len()
            != departures@.len(),
        r == Err::<(), ScheduleError>(ScheduleError::DecreasingTimes) <==> stops@.len()
            == departures@.len() && !nondecreasing(departures@),
        r == Err::<(), ScheduleError>(ScheduleError::InvalidLocation) <==> stops@.len()
            == departures@.len() && nondecreasing(departures@) && exists|k: int|
            0 <= k < stops@.len() && #[trigger] stops@[k] >= old(graph)@.len(),
        r is Ok ==> final(graph)@ == with_hops(
            old(graph)@,
            stops@,
            departures@,
            hop_count(stops@.len() as int),
        ),
        r is Err ==> final(graph)@ == old(graph)@,
        r == match line_error(old(graph)@.len(), stops@, departures@) {
            Some(e) => Err(e),
            None => Ok(()),
        },
{
    let n = stops.len();
    if n != departures.len() {
        return Err(ScheduleError::MismatchedLengths);
    }
    if !is_nondecreasing(departures) {
        return Err(ScheduleError::DecreasingTimes);
    }
    if !all_below(stops, graph.len()) {
        return Err(ScheduleError::InvalidLocation);
    }
    let ghost g0 = graph@;
    let mut k: usize = 0;
    while k + 1 < n
        invariant
            n == stops@.len(),
            n == departures@.len(),
            k <= n,
            n > 0 ==> k < n,
            forall|m: int| 0 <= m < n ==> stops@[m] < g0.len(),
            nondecreasing(departures@),
            graph.wf(),
            graph@ == with_hops(g0, stops@, departures@, k as int),
            graph@.len() == g0.len(),
        decreases n - k,
    {
        let from = stops[k];
        let to = stops[k + 1];
        let duration = departures[k + 1] - departures[k];
        let r = graph.add_edge(from, to, duration, departures[k]);
        assert(r is Ok);
        k = k + 1;
    }
    Ok(())
}

/// Why a schedule could not be read.
#[derive(Clone, Copy, Debug, PartialEq, Eq)]
pub enum ReadError {
    /// A line does not hold the numbers it should.
    Parse(ParseError),
    /// A line of the schedule is not valid for the graph.
    Schedule(ScheduleError),
    /// The header gives no locations.
    NoLocations,
}

/// The graph `g` with `count` lines added, each read as a line of stops
/// followed by a line of departure times from the text `s`.
pub open spec fn read_lines(g: Seq<Seq<Connection>>, s: Seq<u8>, count: nat) -> Result<
    Seq<Seq<Connection>>,
    ReadError,
>
    decreases count,
{
    if count == 0 {
        Ok(g)
    } else {
        match parse_all(first_line(s)) {
            Err(e) => Err(ReadError::Parse(e)),
            Ok(stops) => match parse_all(first_line(after_line(s))) {
                Err(e) => Err(ReadError::Parse(e)),
                Ok(departures) => match line_error(g.len(), stops, departures) {
                    Some(e) => Err(ReadError::Schedule(e)),
                    None => read_lines(
                        with_hops(g, stops, departures, hop_count(stops.len() as int)),
                        after_line(after_line(s)),
                        (count - 1) as nat,
                    ),
                },
            },
        }
    }
}

/// The schedule graph that the text `s` describes: a header line with the
/// number of lines and the number of locations, then two lines per line of
/// the schedule.
pub open spec fn schedule_of(s: Seq<u8>) -> Result<Seq<Seq<Connection>>, ReadError> {
    match pair_of(first_line(s)) {
        Err(e) => Err(ReadError::Parse(e)),
        Ok((lines, locations)) => if locations == 0 {
            Err(ReadError::NoLocations)
        } else {
            read_lines(
                Seq::new(locations as nat, |i: int| Seq::<Connection>::empty()),
                after_line(s),
                lines as nat,
            )
        },
    }
}

/// Reads a whole schedule from its text and builds its graph.
pub fn read_schedule(text: Vec<u8>) -> (r: Result<Graph, ReadError>)
    ensures
        r matches Ok(g) ==> g.wf() && schedule_of(text@) == Ok::<Seq<Seq<Connection>>, ReadError>(
            g@,
        ),
        r matches Err(e) ==> schedule_of(text@) == Err::<Seq<Seq<Connection>>, ReadError>(e),
{
    let ghost s = text@;
    let mut input = Input::new(text);
    let mut header = input.line();
    let (lines, locations) = match header.pair() {
        Ok(p) => p,
        Err(e) => {
            return Err(ReadError::Parse(e));
        },
    };
    if locations == 0 {
        return Err(ReadError::NoLocations);
    }
    let mut graph = Graph::new(locations as usize);
    let mut k: u32 = 0;
    while k < lines
        invariant
            s == text@,
            input.wf(),
            graph.wf(),
            k <= lines,
            schedule_of(s) == read_lines(graph@, input.rest(), (lines - k) as nat),
        decreases lines - k,
    {
        let ghost rest = input.rest();
        let ghost g0 = graph@;
        let stops = match input.line().collect() {
            Ok(v) => v,
            Err(e) => {
                assert(parse_all(first_line(rest)) == Err::<Seq<u32>, ParseError>(e));
                assert(read_lines(g0, rest, (lines - k) as nat) == Err::<Seq<Seq<Connection>>, ReadError>(ReadError::Parse(e)));
                return Err(ReadError::Parse(e));
            },
        };
        let departures = match input.line().collect() {
            Ok(v) => v,
            Err(e) => {
                assert(read_lines(g0, rest, (lines - k) as nat) == Err::<Seq<Seq<Connection>>, ReadError>(ReadError::Parse(e)));
                return Err(ReadError::Parse(e));
            },
        };
        match add_line(&mut graph, &stops, &departures) {
            Ok(()) => {},
            Err(e) => {
                assert(line_error(g0.len(), stops@, departures@) == Some(e));
                assert(read_lines(g0, rest, (lines - k) as nat) == Err::<Seq<Seq<Connection>>, ReadError>(ReadError::Schedule(e)));
                return Err(ReadError::Schedule(e));
            },
        }
        k = k + 1;
    }
    Ok(graph)
}

/// One call of a line at a stop: where, which line, and when it leaves.
#[derive(Clone, Copy, Debug, PartialEq, Eq)]
pub struct Visit {
    pub location: u32,
    pub line: u32,
    pub time: u32,
}

/// The calls of line number `line`, one per stop, with the departure time
/// at that stop.
pub fn visits_of_line(line: u32, stops: &Vec<u32>, departures: &Vec<u32>) -> (r: Result<
    Vec<Visit>,
    ScheduleError,
>)
    ensures
        r is Err <==> stops@.len() != departures@.len(),
        r matches Err(e) ==> e == ScheduleError::MismatchedLengths,
        r matches Ok(v) ==> v@ == Seq::new(
            stops@.len(),
            |k: int| Visit { location: stops@[k], line, time: departures@[k] },
        ),
{
    let n = stops.len();
    if n != departures.len() {
        return Err(ScheduleError::MismatchedLengths);
    }
    let mut out: Vec<Visit> = Vec::new();
    let mut k: usize = 0;
    while k < n
        invariant
            n == stops@.len(),
            n == departures@.len(),
            k <= n,
            out@ == Seq::new(
                k as nat,
                |m: int| Visit { location: stops@[m], line, time: departures@[m] },
            ),
        decreases n - k,
    {
        out.push(Visit { location: stops[k], line, time: departures[k] });
        k = k + 1;
        assert(out@ =~= Seq::new(
            k as nat,
            |m: int| Visit { location: stops@[m], line, time: departures@[m] },
        ));
    }
    Ok(out)
}

/// A traveller can change from the line of `a` to the line of `b`: both call
/// at the same location, on different lines, `b` strictly later.
pub open spec fn is_transfer(a: Visit, b: Visit) -> bool {
    a.location == b.location && a.line != b.line && a.time < b.time
}

/// The connection that stands for the change from `a` to `b`: from the
/// location to the next one, weighted by the wait, leaving when `b` leaves.
pub open spec fn transfer_hop(a: Visit, b: Visit) -> Connection {
    Connection { to: (a.location + 1) as u32, duration: (b.time - a.time) as u32, departure_time: b.time }
}

/// `g` with the changes from visit `a` to the first `b` visits added.
pub open spec fn with_transfers_from(g: Seq<Seq<Connection>>, vs: Seq<Visit>, a: int, b: int) -> Seq<
    Seq<Connection>,
>
    decreases b,
{
    if b <= 0 {
        g
    } else {
        let h = with_transfers_from(g, vs, a, b - 1);
        if is_transfer(vs[a], vs[b - 1]) {
            let from = vs[a].location as int;
            h.update(from, h[from].push(transfer_hop(vs[a], vs[b - 1])))
        } else {
            h
        }
    }
}

/// `g` with the changes from the first `a` visits added.
pub open spec fn with_transfers(g: Seq<Seq<Connection>>, vs: Seq<Visit>, a: int) -> Seq<
    Seq<Connection>,
>
    decreases a,
{
    if a <= 0 {
        g
    } else {
        with_transfers_from(with_transfers(g, vs, a - 1), vs, a - 1, vs.len() as int)
    }
}

/// Some change among `vs` leaves from a location whose next one is not a
/// location of a graph of `n` locations.
pub open spec fn transfer_out_of_range(vs: Seq<Visit>, n: nat) -> bool {
    exists|a: int, b: int|
        0 <= a < vs.len() && 0 <= b < vs.len() && is_transfer(#[trigger] vs[a], #[trigger] vs[b])
            && vs[a].location + 1 >= n
}

fn transfers_in_range(visits: &Vec<Visit>, n: usize) -> (r: bool)
    ensures
        r == !transfer_out_of_range(visits@, n as nat),
{
    let len = visits.len();
    let mut a: usize = 0;
    while a < len
        invariant
            len == visits@.len(),
            a <= len,
            forall|x: int, y: int|
                0 <= x < a && 0 <= y < len && is_transfer(#[trigger] visits@[x], #[trigger] visits@[y])
                    ==> visits@[x].location + 1 < n,
        decreases len - a,
    {
        let mut b: usize = 0;
        while b < len
            invariant
                len == visits@.len(),
                a < len,
                b <= len,
                forall|x: int, y: int|
                    0 <= x < a && 0 <= y < len && is_transfer(#[trigger] visits@[x], #[trigger] visits@[y])
                        ==> visits@[x].location + 1 < n,
                forall|y: int|
                    0 <= y < b && is_transfer(visits@[a as int], #[trigger] visits@[y])
                        ==> visits@[a as int].location + 1 < n,
            decreases len - b,
        {
            let va = visits[a];
            let vb = visits[b];
            if va.location == vb.location && va.line != vb.line && va.time < vb.time {
                if va.location as u64 + 1 >= n as u64 {
                    assert(is_transfer(visits@[a as int], visits@[b as int]));
                    return false;
                }
            }
            b = b + 1;
        }
        a = a + 1;
    }
    true
}

/// Adds, for every change between two lines calling at the same location,
/// a connection from that location to the next one, weighted by the wait
/// and leaving when the later line leaves. Fails, adding nothing, where a
/// change leaves from the last location.
pub fn add_transfers(graph: &mut Graph, visits: &Vec<Visit>) -> (r: Result<(), ScheduleError>)
    requires
        old(graph).wf(),
    ensures
        final(graph).wf(),
        r is Err <==> transfer_out_of_range(visits@, old(graph)@.len()),
        r matches Err(e) ==> e == ScheduleError::InvalidLocation && final(graph)@ == old(graph)@,
        r is Ok ==> final(graph)@ == with_transfers(old(graph)@, visits@, visits@.len() as int),
{
    if !transfers_in_range(visits, graph.len()) {
        return Err(ScheduleError::InvalidLocation);
    }
    let ghost g0 = graph@;
    let len = visits.len();
    let mut a: usize = 0;
    while a < len
        invariant
            len == visits@.len(),
            a <= len,
            graph.wf(),
            graph@.len() == g0.len(),
            !transfer_out_of_range(visits@, g0.len()),
            graph@ == with_transfers(g0, visits@, a as int),
        decreases len - a,
    {
        let ghost ga = graph@;
        let mut b: usize = 0;
        while b < len
            invariant
                len == visits@.len(),
                a < len,
                b <= len,
                graph.wf(),
                graph@.len() == g0.len(),
                !transfer_out_of_range(visits@, g0.len()),
                ga == with_transfers(g0, visits@, a as int),
                graph@ == with_transfers_from(ga, visits@, a as int, b as int),
            decreases len - b,
        {
            let va = visits[a];
            let vb = visits[b];
            if va.location == vb.location && va.line != vb.line && va.time < vb.time {
                assert(is_transfer(visits@[a as int], visits@[b as int]));
                let r = graph.add_edge(va.location, va.location + 1, vb.time - va.time, vb.time);
                assert(r is Ok);
            }
            b = b + 1;
        }
        a = a + 1;
    }
    Ok(())
}

} // verus!
