//! The schedule graph: locations `0..n` and the scheduled connections that
//! leave each of them.
use vstd::prelude::*;

verus! {

/// The latest instant at which any connection can arrive: a departure and a
/// duration, each at most `u32::MAX`.
pub const MAX_ARRIVAL: u64 = 0x1_FFFF_FFFE;

/// One hop of a line: leave `from` (the location whose list holds it) at
/// `departure_time` and reach `to` after `duration`.
#[derive(Clone, Copy, Debug, PartialEq, Eq)]
pub struct Connection {
    pub to: u32,
    pub duration: u32,
    pub departure_time: u32,
}

impl Connection {
    /// The instant at which this connection reaches `to`.
    pub open spec fn arrival(self) -> int {
        self.departure_time + self.duration
    }

    /// Whether a traveller standing at the start of the connection at `time`
    /// can still board it.
    pub open spec fn boardable_at(self, time: int) -> bool {
        time <= self.departure_time
    }
}

/// Why a connection could not be added.
#[derive(Clone, Copy, Debug, PartialEq, Eq)]
pub enum GraphError {
    /// One of the two endpoints is not a location of the graph.
    InvalidLocation,
}

/// The adjacency lists of the schedule graph, one per location.
pub struct Graph {
    pub adjacency: Vec<Vec<Connection>>,
}

impl View for Graph {
    type V = Seq<Seq<Connection>>;

    open spec fn view(&self) -> Seq<Seq<Connection>> {
        self.adjacency@.map_values(|row: Vec<Connection>| row@)
    }
}

/// Every connection of `g` leads to a location of `g`.
pub open spec fn targets_in_range(g: Seq<Seq<Connection>>) -> bool {
    forall|u: int, j: int|
        0 <= u < g.len() && 0 <= j < g[u].len() ==> (#[trigger] g[u][j]).to < g.len()
}

/// How many locations a list of visited marks leaves unvisited.
pub open spec fn unmarked(marks: Seq<bool>) -> nat
    decreases marks.len(),
{
    if marks.len() == 0 {
        0
    } else {
        unmarked(marks.drop_last()) + if marks.last() {
            0nat
        } else {
            1nat
        }
    }
}

/// Marking an unvisited location leaves one fewer unvisited.
pub proof fn lemma_mark(marks: Seq<bool>, v: int)
    requires
        0 <= v < marks.len(),
        !marks[v],
    ensures
        unmarked(marks.update(v, true)) + 1 == unmarked(marks),
    decreases marks.len(),
{
    let m = marks.update(v, true);
    if v == marks.len() - 1 {
        assert(m.drop_last() =~= marks.drop_last());
    } else {
        assert(m.drop_last() =~= marks.drop_last().update(v, true));
        lemma_mark(marks.drop_last(), v);
    }
}

impl Graph {
    /// Well formed: every connection leads to a location of the graph, and
    /// every location has a `u32` identifier.
    pub open spec fn wf(&self) -> bool {
        &&& self@.len() <= 0x1_0000_0000
        &&& targets_in_range(self@)
    }

    /// A graph of `vertex_count` locations and no connections.
    pub fn new(vertex_count: usize) -> (g: Graph)
        requires
            0 < vertex_count <= 0x1_0000_0000,
        ensures
            g.wf(),
            g@ == Seq::new(vertex_count as nat, |i: int| Seq::<Connection>::empty()),
    {
        let mut adjacency: Vec<Vec<Connection>> = Vec::new();
        let mut i: usize = 0;
        while i < vertex_count
            invariant
                i <= vertex_count,
                adjacency@.len() == i,
                forall|k: int| 0 <= k < i ==> adjacency@[k]@.len() == 0,
            decreases vertex_count - i,
        {
            adjacency.push(Vec::new());
            i = i + 1;
        }
        let g = Graph { adjacency };
        assert forall|k: int| 0 <= k < vertex_count implies g@[k] =~= Seq::<Connection>::empty() by {
            assert(g@[k] == g.adjacency@[k]@);
        }
        assert(g@ =~= Seq::new(vertex_count as nat, |i: int| Seq::<Connection>::empty()));
        g
    }

    /// The number of locations.
    pub fn len(&self) -> (r: usize)
        ensures
            r == self@.len(),
    {
        self.adjacency.len()
    }

    /// Appends a connection from `from` to `to`, leaving at `departure_time`
    /// and travelling for `duration`. Fails, leaving the graph as it was,
    /// where either endpoint is not a location of the graph.
    pub fn add_edge(&mut self, from: u32, to: u32, duration: u32, departure_time: u32) -> (r:
        Result<(), GraphError>)
        requires
            old(self).wf(),
        ensures
            final(self).wf(),
            r is Ok <==> (from < old(self)@.len() && to < old(self)@.len()),
            r is Ok ==> final(self)@ == old(self)@.update(
                from as int,
                old(self)@[from as int].push(Connection { to, duration, departure_time }),
            ),
            r is Err ==> final(self)@ == old(self)@,
    {
        let n = self.adjacency.len();
        if from as usize >= n || to as usize >= n {
            return Err(GraphError::InvalidLocation);
        }
        let ghost before = self@;
        self.adjacency[from as usize].push(Connection { to, duration, departure_time });
        assert(self@ =~= before.update(
            from as int,
            before[from as int].push(Connection { to, duration, departure_time }),
        ));
        Ok(())
    }
}

} // verus!
