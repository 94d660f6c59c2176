//! A directed road-network graph: loaded from a compressed text container,
//! with a pluggable arc-cost model, largest-component analysis, Dijkstra
//! shortest paths and path reconstruction.
//!
//! Coordinates are fixed-point degrees in `1e-7` units; travel times are
//! whole milliseconds, `distance * 3600 / speed` for a distance in meters
//! and a speed in km/h.  An arc whose effective speed is zero carries the
//! unusable cost `u64::MAX`.

use vstd::prelude::*;
use vstd::string::StringExecFns;
use crate::container::zip_extract;
use crate::container::zip_entry_texts;
use crate::text::chars_vec;
use crate::text::spec_lines;
use crate::text::split_lines;
use crate::text::spec_fields;
use crate::text::split_fields;
use crate::text::lemma_fields_nonempty;
use crate::text::spec_parse_usize;
use crate::text::parse_usize;
use crate::text::spec_parse_u32;
use crate::text::parse_u32;
use crate::text::spec_parse_coord;
use crate::text::parse_coord;
use crate::text::string_of;

verus! {

/// Everything that can go wrong in the graph engine.
#[derive(Debug, PartialEq, Eq)]
pub enum Error {
    /// The container could not be read at all.
    IoError,
    /// The container is not a well-formed archive of text entries.
    ArchiveError,
    /// A field that must be numeric is not, or does not fit its type.
    ParseError { line: usize, token: String },
    /// A structural fault: wrong field count, bad arc endpoint, or a
    /// significant line beyond the declared table.
    FormatError { line: usize, message: String },
    /// A node id handed to an engine operation is not a node of the graph.
    OutOfRange,
    /// The destination has no recorded path from the last source.
    NoPath,
}

/// A directed weighted edge, owned by the adjacency list of its tail.
#[derive(Clone, Copy)]
pub struct Arc {
    pub tail_node_id: usize,
    pub head_node_id: usize,
    /// Physical length in meters.
    pub distance: u32,
    /// Legal maximum speed in km/h.
    pub max_speed: u32,
    /// Cost under the active cost model.
    pub cost: u64,
}

/// A node: fixed coordinates plus the mutable per-run search state.
#[derive(Clone, Copy)]
pub struct Node {
    /// Latitude in `1e-7` degree units.
    pub latitude: i64,
    /// Longitude in `1e-7` degree units.
    pub longitude: i64,
    pub settled: bool,
    pub distance: Option<u64>,
    /// The arc this node was reached by: `(tail id, index in the tail's
    /// adjacency list)`.
    pub pred_arc: Option<(usize, usize)>,
    /// Length of the predecessor chain up to this node.
    pub hops: usize,
}

/// The graph: node `i` owns `adjacency_lists[i]`, the arcs leaving it.
pub struct Graph {
    pub nodes: Vec<Node>,
    pub adjacency_lists: Vec<Vec<Arc>>,
}

/// The adjacency rows as a sequence of arc sequences.
pub open spec fn rows_view(rows: Seq<Vec<Arc>>) -> Seq<Seq<Arc>> {
    Seq::new(rows.len(), |i: int| rows[i]@)
}

/// Spec-level outcome of a failed parse of the container text.
pub enum LoadIssue {
    /// A numeric field did not parse; carries the physical line and the
    /// offending token.
    BadNumber { line: int, token: Seq<char> },
    /// A structural fault at the given physical line.
    BadShape { line: int },
}

/// Parsing state after some prefix of the lines.
pub struct LoadState {
    /// Physical lines consumed.
    pub lnum: int,
    /// Significant lines consumed.
    pub signum: int,
    /// Declared node count (valid once `signum >= 1`).
    pub n_decl: int,
    /// Declared arc count (valid once `signum >= 2`).
    pub m_decl: int,
    pub nodes: Seq<Node>,
    pub adj: Seq<Seq<Arc>>,
}

/// The state before any line.
pub open spec fn load_init() -> LoadState {
    LoadState {
        lnum: 0,
        signum: 0,
        n_decl: 0,
        m_decl: 0,
        nodes: Seq::empty(),
        adj: Seq::empty(),
    }
}

/// A freshly loaded node: parsed coordinates, cleared search state.
pub open spec fn fresh_node(lat: i64, lon: i64) -> Node {
    Node {
        latitude: lat,
        longitude: lon,
        settled: false,
        distance: Option::None,
        pred_arc: Option::None,
        hops: 0,
    }
}

/// A node record: `<id> <lat> <lon>`; the id must be numeric but only the
/// coordinates are kept, identity being positional.
pub open spec fn spec_node_record(fs: Seq<Seq<char>>, lnum: int) -> Result<(i64, i64), LoadIssue> {
    if fs.len() != 3 {
        Result::Err(LoadIssue::BadShape { line: lnum })
    } else {
        match spec_parse_usize(fs[0]) {
            Option::None => Result::Err(LoadIssue::BadNumber { line: lnum, token: fs[0] }),
            Option::Some(_) => match spec_parse_coord(fs[1]) {
                Option::None => Result::Err(LoadIssue::BadNumber { line: lnum, token: fs[1] }),
                Option::Some(lat) => match spec_parse_coord(fs[2]) {
                    Option::None => Result::Err(LoadIssue::BadNumber { line: lnum, token: fs[2] }),
                    Option::Some(lon) => Result::Ok((lat, lon)),
                },
            },
        }
    }
}

/// An arc record: `<tail> <head> <distance> <max_speed>`, both endpoints
/// existing nodes; the cost starts out as the raw distance.
pub open spec fn spec_arc_record(fs: Seq<Seq<char>>, lnum: int, n_decl: int) -> Result<
    Arc,
    LoadIssue,
> {
    if fs.len() != 4 {
        Result::Err(LoadIssue::BadShape { line: lnum })
    } else {
        match spec_parse_usize(fs[0]) {
            Option::None => Result::Err(LoadIssue::BadNumber { line: lnum, token: fs[0] }),
            Option::Some(tail) => match spec_parse_usize(fs[1]) {
                Option::None => Result::Err(LoadIssue::BadNumber { line: lnum, token: fs[1] }),
                Option::Some(head) => match spec_parse_u32(fs[2]) {
                    Option::None => Result::Err(LoadIssue::BadNumber { line: lnum, token: fs[2] }),
                    Option::Some(dist) => match spec_parse_u32(fs[3]) {
                        Option::None => Result::Err(
                            LoadIssue::BadNumber { line: lnum, token: fs[3] },
                        ),
                        Option::Some(speed) => {
                            if tail as int >= n_decl || head as int >= n_decl {
                                Result::Err(LoadIssue::BadShape { line: lnum })
                            } else {
                                Result::Ok(
                                    Arc {
                                        tail_node_id: tail,
                                        head_node_id: head,
                                        distance: dist,
                                        max_speed: speed,
                                        cost: dist as u64,
                                    },
                                )
                            }
                        },
                    },
                },
            },
        }
    }
}

/// One line of the container grammar.  Comment and blank lines only count
/// the physical line; the first significant line is the node count, the
/// second the arc count, then node records, then arc records; any further
/// significant line is a fault.
pub open spec fn load_step(st: LoadState, l: Seq<char>) -> Result<LoadState, LoadIssue> {
    let lnum = st.lnum + 1;
    let fs = spec_fields(l);
    if fs.len() == 0 || fs[0][0] == '#' {
        Result::Ok(LoadState { lnum, ..st })
    } else {
        let k = st.signum + 1;
        if k == 1 {
            match spec_parse_usize(fs[0]) {
                Option::None => Result::Err(LoadIssue::BadNumber { line: lnum, token: fs[0] }),
                Option::Some(n) => Result::Ok(
                    LoadState {
                        lnum,
                        signum: k,
                        n_decl: n as int,
                        adj: Seq::new(n as nat, |i: int| Seq::<Arc>::empty()),
                        ..st
                    },
                ),
            }
        } else if k == 2 {
            match spec_parse_usize(fs[0]) {
                Option::None => Result::Err(LoadIssue::BadNumber { line: lnum, token: fs[0] }),
                Option::Some(m) => Result::Ok(
                    LoadState { lnum, signum: k, m_decl: m as int, ..st },
                ),
            }
        } else if k - 2 <= st.n_decl {
            match spec_node_record(fs, lnum) {
                Result::Err(e) => Result::Err(e),
                Result::Ok((lat, lon)) => Result::Ok(
                    LoadState { lnum, signum: k, nodes: st.nodes.push(fresh_node(lat, lon)), ..st },
                ),
            }
        } else if k - 2 - st.n_decl <= st.m_decl {
            match spec_arc_record(fs, lnum, st.n_decl) {
                Result::Err(e) => Result::Err(e),
                Result::Ok(arc) => Result::Ok(
                    LoadState {
                        lnum,
                        signum: k,
                        adj: st.adj.update(
                            arc.tail_node_id as int,
                            st.adj[arc.tail_node_id as int].push(arc),
                        ),
                        ..st
                    },
                ),
            }
        } else {
            Result::Err(LoadIssue::BadShape { line: lnum })
        }
    }
}

/// Folds `load_step` over the remaining lines.
pub open spec fn load_lines(st: LoadState, lines: Seq<Seq<char>>) -> Result<
    LoadState,
    LoadIssue,
>
    decreases lines.len(),
{
    if lines.len() == 0 {
        Result::Ok(st)
    } else {
        match load_step(st, lines[0]) {
            Result::Err(e) => Result::Err(e),
            Result::Ok(st2) => load_lines(st2, lines.drop_first()),
        }
    }
}

/// The node list and adjacency structure described by the container lines,
/// or the first fault.  When the text ends before the declared node table
/// is complete, the graph holds the nodes actually seen.
pub open spec fn spec_load(lines: Seq<Seq<char>>) -> Result<
    (Seq<Node>, Seq<Seq<Arc>>),
    LoadIssue,
> {
    match load_lines(load_init(), lines) {
        Result::Err(e) => Result::Err(e),
        Result::Ok(st) => Result::Ok((st.nodes, st.adj.take(st.nodes.len() as int))),
    }
}

/// The lines of all container entries, in stored order.
pub open spec fn entry_lines(texts: Seq<Seq<char>>) -> Seq<Seq<char>>
    decreases texts.len(),
{
    if texts.len() == 0 {
        Seq::empty()
    } else {
        spec_lines(texts[0]) + entry_lines(texts.drop_first())
    }
}

/// Total number of arcs over all adjacency lists of a prefix.
pub open spec fn arc_prefix_total(adj: Seq<Seq<Arc>>, k: int) -> int
    decreases k,
{
    if k <= 0 {
        0
    } else {
        arc_prefix_total(adj, k - 1) + adj[k - 1].len()
    }
}

/// Total number of arcs of the graph.
pub open spec fn arc_total(adj: Seq<Seq<Arc>>) -> int {
    arc_prefix_total(adj, adj.len() as int)
}

/// Bridges the deep view of a field list with per-element views.
proof fn lemma_fields_deep(fs: &Vec<Vec<char>>)
    ensures
        fs.deep_view().len() == fs@.len(),
        forall|i: int| 0 <= i < fs@.len() ==> #[trigger] fs.deep_view()[i] == fs@[i]@,
{
    assert forall|i: int| 0 <= i < fs@.len() implies #[trigger] fs.deep_view()[i] == fs@[i]@ by {
        assert(fs.deep_view()[i] =~= fs@[i]@);
    }
}

/// Parses a node record, mapping each fault to the engine error it raises.
fn parse_node_record(fs: &Vec<Vec<char>>, lnum: usize) -> (r: Result<(i64, i64), Error>)
    ensures
        match spec_node_record(fs.deep_view(), lnum as int) {
            Result::Ok(coords) => r == Result::<(i64, i64), Error>::Ok(coords),
            Result::Err(LoadIssue::BadNumber { line, token }) => r matches Result::Err(
                Error::ParseError { line: l2, token: t2 },
            ) && l2 == line && t2@ == token,
            Result::Err(LoadIssue::BadShape { line }) => r matches Result::Err(
                Error::FormatError { line: l2, message: _ },
            ) && l2 == line,
        },
{
    proof {
        lemma_fields_deep(fs);
    }
    if fs.len() != 3 {
        return Result::Err(
            Error::FormatError { line: lnum, message: String::from_str("invalid node record") },
        );
    }
    if parse_usize(&fs[0]).is_none() {
        return Result::Err(Error::ParseError { line: lnum, token: string_of(&fs[0]) });
    }
    let lat = match parse_coord(&fs[1]) {
        Option::Some(v) => v,
        Option::None => {
            return Result::Err(Error::ParseError { line: lnum, token: string_of(&fs[1]) });
        },
    };
    let lon = match parse_coord(&fs[2]) {
        Option::Some(v) => v,
        Option::None => {
            return Result::Err(Error::ParseError { line: lnum, token: string_of(&fs[2]) });
        },
    };
    Result::Ok((lat, lon))
}

/// Parses an arc record against the declared node count, mapping each
/// fault to the engine error it raises.
fn parse_arc_record(fs: &Vec<Vec<char>>, lnum: usize, n_decl: usize) -> (r: Result<Arc, Error>)
    ensures
        match spec_arc_record(fs.deep_view(), lnum as int, n_decl as int) {
            Result::Ok(arc) => r == Result::<Arc, Error>::Ok(arc),
            Result::Err(LoadIssue::BadNumber { line, token }) => r matches Result::Err(
                Error::ParseError { line: l2, token: t2 },
            ) && l2 == line && t2@ == token,
            Result::Err(LoadIssue::BadShape { line }) => r matches Result::Err(
                Error::FormatError { line: l2, message: _ },
            ) && l2 == line,
        },
{
    proof {
        lemma_fields_deep(fs);
    }
    if fs.len() != 4 {
        return Result::Err(
            Error::FormatError { line: lnum, message: String::from_str("invalid arc record") },
        );
    }
    let tail = match parse_usize(&fs[0]) {
        Option::Some(v) => v,
        Option::None => {
            return Result::Err(Error::ParseError { line: lnum, token: string_of(&fs[0]) });
        },
    };
    let head = match parse_usize(&fs[1]) {
        Option::Some(v) => v,
        Option::None => {
            return Result::Err(Error::ParseError { line: lnum, token: string_of(&fs[1]) });
        },
    };
    let dist = match parse_u32(&fs[2]) {
        Option::Some(v) => v,
        Option::None => {
            return Result::Err(Error::ParseError { line: lnum, token: string_of(&fs[2]) });
        },
    };
    let speed = match parse_u32(&fs[3]) {
        Option::Some(v) => v,
        Option::None => {
            return Result::Err(Error::ParseError { line: lnum, token: string_of(&fs[3]) });
        },
    };
    if tail >= n_decl || head >= n_decl {
        return Result::Err(
            Error::FormatError {
                line: lnum,
                message: String::from_str("arc endpoint is not a node"),
            },
        );
    }
    Result::Ok(
        Arc {
            tail_node_id: tail,
            head_node_id: head,
            distance: dist,
            max_speed: speed,
            cost: dist as u64,
        },
    )
}

/// The loader result a caller is promised for a given line sequence.
pub open spec fn load_result_matches(lines: Seq<Seq<char>>, r: Result<Graph, Error>) -> bool {
    match spec_load(lines) {
        Result::Ok(parts) => r matches Result::Ok(g) && g.nodes@ == parts.0 && g.adj() == parts.1
            && g.wf() && g.is_reset(),
        Result::Err(LoadIssue::BadNumber { line, token }) => r matches Result::Err(
            Error::ParseError { line: l2, token: t2 },
        ) && l2 == line && t2@ == token,
        Result::Err(LoadIssue::BadShape { line }) => r matches Result::Err(
            Error::FormatError { line: l2, message: _ },
        ) && l2 == line,
    }
}

impl Graph {
    /// Number of nodes, also the bound of every node id.
    pub open spec fn n(&self) -> int {
        self.nodes@.len() as int
    }

    /// The adjacency structure as a sequence of arc sequences.
    pub open spec fn adj(&self) -> Seq<Seq<Arc>> {
        rows_view(self.adjacency_lists@)
    }

    /// Structural well-formedness: one adjacency list per node, every arc
    /// tied to its list and aiming at a real node, every predecessor
    /// reference valid and strictly decreasing in chain length, and an arc
    /// total a `usize` can count.
    pub open spec fn wf(&self) -> bool {
        &&& self.adj().len() == self.n()
        &&& forall|u: int, j: int|
            0 <= u < self.n() && 0 <= j < self.adj()[u].len() ==> {
                let a = #[trigger] self.adj()[u][j];
                a.tail_node_id == u && a.head_node_id < self.n()
            }
        &&& forall|v: int| 0 <= v < self.n() ==> self.pred_ok(v)
        &&& arc_total(self.adj()) <= usize::MAX
    }

    /// The predecessor reference of `v`, when set, names an arc into `v`
    /// from another node with search state, closer to the source in hops.
    pub open spec fn pred_ok(&self, v: int) -> bool {
        match self.nodes@[v].pred_arc {
            Option::None => true,
            Option::Some((u, k)) => {
                &&& (u as int) < self.n()
                &&& (k as int) < self.adj()[u as int].len()
                &&& self.adj()[u as int][k as int].head_node_id == v
                &&& u as int != v
                &&& self.nodes@[u as int].distance is Some
                &&& self.nodes@[v].distance is Some
                &&& self.nodes@[u as int].hops < self.nodes@[v].hops
                &&& self.nodes@[v].hops <= self.n()
            },
        }
    }

    /// No search state: the graph as the loader leaves it and `reset`
    /// restores it.
    pub open spec fn is_reset(&self) -> bool {
        forall|v: int|
            0 <= v < self.n() ==> {
                let nd = #[trigger] self.nodes@[v];
                !nd.settled && nd.distance is None && nd.pred_arc is None && nd.hops == 0
            }
    }

    /// Same nodes (coordinates included) and same arcs, costs included.
    pub open spec fn same_structure(&self, other: &Graph) -> bool {
        &&& self.nodes@.len() == other.nodes@.len()
        &&& self.adj() == other.adj()
        &&& forall|v: int|
            0 <= v < self.n() ==> (#[trigger] self.nodes@[v]).latitude == other.nodes@[v].latitude
                && self.nodes@[v].longitude == other.nodes@[v].longitude
    }

    /// Number of nodes in this graph.
    pub fn num_nodes(&self) -> (r: usize)
        ensures
            r == self.n(),
    {
        self.nodes.len()
    }

    /// Number of arcs in this graph: every arc record of every adjacency
    /// list counts once.
    pub fn num_arcs(&self) -> (r: usize)
        requires
            self.wf(),
        ensures
            r == arc_total(self.adj()),
    {
        let n: usize = self.adjacency_lists.len();
        let mut total: usize = 0;
        let mut i: usize = 0;
        while i < n
            invariant
                i <= n,
                n == self.adj().len(),
                self.wf(),
                total == arc_prefix_total(self.adj(), i as int),
            decreases n - i,
        {
            proof {
                lemma_arc_prefix_le(self.adj(), i + 1, n as int);
                assert(self.adj()[i as int].len() == self.adjacency_lists@[i as int]@.len());
            }
            total = total + self.adjacency_lists[i].len();
            i += 1;
        }
        total
    }

    /// Clears all per-run search state; the topology, coordinates and arc
    /// costs stay untouched.
    pub fn reset(&mut self)
        requires
            old(self).wf(),
        ensures
            final(self).wf(),
            final(self).is_reset(),
            final(self).same_structure(old(self)),
    {
        let n: usize = self.nodes.len();
        let mut i: usize = 0;
        while i < n
            invariant
                i <= n,
                n == self.nodes@.len(),
                self.adj() == old(self).adj(),
                self.nodes@.len() == old(self).nodes@.len(),
                forall|v: int|
                    0 <= v < n ==> (#[trigger] self.nodes@[v]).latitude == old(
                        self,
                    ).nodes@[v].latitude && self.nodes@[v].longitude == old(
                        self,
                    ).nodes@[v].longitude,
                forall|v: int|
                    0 <= v < i ==> {
                        let nd = #[trigger] self.nodes@[v];
                        !nd.settled && nd.distance is None && nd.pred_arc is None && nd.hops == 0
                    },
                old(self).wf(),
            decreases n - i,
        {
            let nd = self.nodes[i];
            self.nodes[i] = Node {
                latitude: nd.latitude,
                longitude: nd.longitude,
                settled: false,
                distance: Option::None,
                pred_arc: Option::None,
                hops: 0,
            };
            i += 1;
        }
        proof {
            assert forall|v: int| 0 <= v < final(self).n() implies final(self).pred_ok(v) by {}
        }
    }
}

/// A prefix of the arc count is bounded by the whole, list lengths being
/// non-negative.
pub proof fn lemma_arc_prefix_le(adj: Seq<Seq<Arc>>, k: int, m: int)
    requires
        0 <= k <= m <= adj.len(),
    ensures
        arc_prefix_total(adj, k) <= arc_prefix_total(adj, m),
        0 <= arc_prefix_total(adj, k),
    decreases m,
{
    if m > 0 {
        if k <= m - 1 {
            lemma_arc_prefix_le(adj, k, m - 1);
        } else {
            lemma_arc_prefix_le(adj, k - 1, m - 1);
        }
    }
}

/// Prefix totals ignore everything beyond the prefix.
pub proof fn lemma_arc_prefix_take(adj: Seq<Seq<Arc>>, k: int, j: int)
    requires
        0 <= j <= k <= adj.len(),
    ensures
        arc_prefix_total(adj.take(k), j) == arc_prefix_total(adj, j),
    decreases j,
{
    if j > 0 {
        lemma_arc_prefix_take(adj, k, j - 1);
        assert(adj.take(k)[j - 1] == adj[j - 1]);
    }
}

/// Parses the container lines into a graph, or reports the first fault.
#[verifier::rlimit(100)]
fn parse_lines(lines: &Vec<Vec<char>>) -> (r: Result<Graph, Error>)
    ensures
        load_result_matches(lines.deep_view(), r),
{
    let total: usize = lines.len();
    let mut nodes: Vec<Node> = Vec::new();
    let mut adj: Vec<Vec<Arc>> = Vec::new();
    let mut n_decl: usize = 0;
    let mut m_decl: usize = 0;
    let mut signum: usize = 0;
    let mut i: usize = 0;
    proof {
        assert(lines.deep_view().skip(0) =~= lines.deep_view());
        assert(rows_view(adj@) =~= Seq::<Seq<Arc>>::empty());
    }
    while i < total
        invariant
            i <= total,
            total == lines@.len(),
            lines.deep_view().len() == lines@.len(),
            signum <= i,
            load_lines(load_init(), lines.deep_view()) == load_lines(
                (LoadState {
                    lnum: i as int,
                    signum: signum as int,
                    n_decl: n_decl as int,
                    m_decl: m_decl as int,
                    nodes: nodes@,
                    adj: rows_view(adj@),
                }),
                lines.deep_view().skip(i as int),
            ),
            rows_view(adj@).len() == if signum == 0 {
                0int
            } else {
                n_decl as int
            },
            nodes@.len() == (if signum <= 2 {
                0int
            } else if signum - 2 <= n_decl {
                signum - 2
            } else {
                n_decl as int
            }),
            forall|u: int, j: int|
                0 <= u < rows_view(adj@).len() && 0 <= j < rows_view(adj@)[u].len() ==> {
                    let a = #[trigger] rows_view(adj@)[u][j];
                    a.tail_node_id == u && (a.head_node_id as int) < n_decl as int && a.cost
                        == a.distance as u64
                },
            nodes@.len() < n_decl ==> forall|u: int|
                0 <= u < rows_view(adj@).len() ==> (#[trigger] rows_view(adj@)[u]).len() == 0,
            forall|v: int|
                0 <= v < nodes@.len() ==> {
                    let nd = #[trigger] nodes@[v];
                    !nd.settled && nd.distance is None && nd.pred_arc is None && nd.hops == 0
                },
            arc_prefix_total(rows_view(adj@), rows_view(adj@).len() as int) <= i,
        decreases total - i,
    {
        let ghost st = LoadState {
            lnum: i as int,
            signum: signum as int,
            n_decl: n_decl as int,
            m_decl: m_decl as int,
            nodes: nodes@,
            adj: rows_view(adj@),
        };
        let ghost all = lines.deep_view();
        let ghost rest = all.skip(i as int);
        proof {
            assert(rest[0] == all[i as int]);
            assert(all[i as int] =~= lines@[i as int]@);
            assert(rest.drop_first() =~= all.skip(i + 1));
        }
        let line = &lines[i];
        let fs = split_fields(line);
        proof {
            lemma_fields_deep(&fs);
            lemma_fields_nonempty(line@);
            assert(fs.deep_view() == spec_fields(rest[0]));
        }
        if fs.len() == 0 || fs[0][0] == '#' {
            proof {
                let st2 = LoadState { lnum: i + 1, ..st };
                assert(load_step(st, rest[0]) == Result::<LoadState, LoadIssue>::Ok(st2));
                assert(load_lines(st, rest) == load_lines(st2, rest.drop_first()));
            }
            i += 1;
        } else if signum == 0 {
            match parse_usize(&fs[0]) {
                Option::None => {
                    proof {
                        assert(load_step(st, rest[0]) == Result::<LoadState, LoadIssue>::Err(
                            LoadIssue::BadNumber { line: i + 1, token: fs.deep_view()[0] },
                        ));
                    }
                    return Result::Err(
                        Error::ParseError { line: i + 1, token: string_of(&fs[0]) },
                    );
                },
                Option::Some(n) => {
                    n_decl = n;
                    let mut newadj: Vec<Vec<Arc>> = Vec::new();
                    proof {
                        assert(rows_view(newadj@) =~= Seq::new(0nat, |x: int| Seq::<Arc>::empty()));
                    }
                    let mut t: usize = 0;
                    while t < n
                        invariant
                            t <= n,
                            rows_view(newadj@) == Seq::new(t as nat, |x: int| Seq::<Arc>::empty()),
                        decreases n - t,
                    {
                        let ghost prev = rows_view(newadj@);
                        proof {
                            assert(prev == Seq::new(t as nat, |x: int| Seq::<Arc>::empty()));
                            assert(prev.len() == t);
                            assert(newadj@.len() == t);
                        }
                        newadj.push(Vec::new());
                        proof {
                            assert(newadj@.len() == t + 1);
                            assert forall|x: int|
                                0 <= x < t + 1 implies rows_view(newadj@)[x] =~= Seq::<
                                Arc,
                            >::empty() by {
                                assert(rows_view(newadj@)[x] == newadj@[x]@);
                                if x < t {
                                    assert(newadj@[x]@ == prev[x]);
                                    assert(prev[x] == Seq::new(
                                        t as nat,
                                        |y: int| Seq::<Arc>::empty(),
                                    )[x]);
                                } else {
                                    assert(newadj@[x]@ =~= Seq::<Arc>::empty());
                                }
                            }
                            assert(rows_view(newadj@) =~~= Seq::new(
                                (t + 1) as nat,
                                |x: int| Seq::<Arc>::empty(),
                            ));
                        }
                        t += 1;
                    }
                    adj = newadj;
                    signum += 1;
                    i += 1;
                    proof {
                        lemma_arc_prefix_empty(rows_view(adj@), rows_view(adj@).len() as int);
                        let st2 = LoadState {
                            lnum: i as int,
                            signum: 1,
                            n_decl: n as int,
                            adj: Seq::new(n as nat, |x: int| Seq::<Arc>::empty()),
                            ..st
                        };
                        assert(load_step(st, rest[0]) == Result::<LoadState, LoadIssue>::Ok(st2));
                        assert(load_lines(st, rest) == load_lines(st2, rest.drop_first()));
                        assert(rows_view(adj@) == st2.adj);
                    }
                },
            }
        } else if signum == 1 {
            match parse_usize(&fs[0]) {
                Option::None => {
                    proof {
                        assert(load_step(st, rest[0]) == Result::<LoadState, LoadIssue>::Err(
                            LoadIssue::BadNumber { line: i + 1, token: fs.deep_view()[0] },
                        ));
                    }
                    return Result::Err(
                        Error::ParseError { line: i + 1, token: string_of(&fs[0]) },
                    );
                },
                Option::Some(m) => {
                    m_decl = m;
                    signum += 1;
                    i += 1;
                    proof {
                        let st2 = LoadState { lnum: i as int, signum: 2, m_decl: m as int, ..st };
                        assert(load_step(st, rest[0]) == Result::<LoadState, LoadIssue>::Ok(st2));
                        assert(load_lines(st, rest) == load_lines(st2, rest.drop_first()));
                    }
                },
            }
        } else if signum - 2 < n_decl {
            match parse_node_record(&fs, i + 1) {
                Result::Err(e) => {
                    proof {
                        assert(load_step(st, rest[0]) matches Result::Err(_));
                    }
                    return Result::Err(e);
                },
                Result::Ok((lat, lon)) => {
                    nodes.push(
                        Node {
                            latitude: lat,
                            longitude: lon,
                            settled: false,
                            distance: Option::None,
                            pred_arc: Option::None,
                            hops: 0,
                        },
                    );
                    signum += 1;
                    i += 1;
                    proof {
                        let st2 = LoadState {
                            lnum: i as int,
                            signum: signum as int,
                            nodes: st.nodes.push(fresh_node(lat, lon)),
                            ..st
                        };
                        assert(load_step(st, rest[0]) == Result::<LoadState, LoadIssue>::Ok(st2));
                        assert(load_lines(st, rest) == load_lines(st2, rest.drop_first()));
                        assert(nodes@ == st2.nodes);
                    }
                },
            }
        } else if signum - 2 - n_decl < m_decl {
            match parse_arc_record(&fs, i + 1, n_decl) {
                Result::Err(e) => {
                    proof {
                        assert(load_step(st, rest[0]) matches Result::Err(_));
                    }
                    return Result::Err(e);
                },
                Result::Ok(arc) => {
                    let tail = arc.tail_node_id;
                    assert(tail < adj.len());
                    let ghost a0 = rows_view(adj@);
                    adj[tail].push(arc);
                    signum += 1;
                    i += 1;
                    proof {
                        assert(rows_view(adj@) =~~= a0.update(
                            tail as int,
                            a0[tail as int].push(arc),
                        ));
                        let st2 = LoadState {
                            lnum: i as int,
                            signum: signum as int,
                            adj: st.adj.update(tail as int, st.adj[tail as int].push(arc)),
                            ..st
                        };
                        assert(load_step(st, rest[0]) == Result::<LoadState, LoadIssue>::Ok(st2));
                        assert(load_lines(st, rest) == load_lines(st2, rest.drop_first()));
                        assert(rows_view(adj@) == st2.adj);
                        lemma_arc_total_update(a0, tail as int, arc);
                        assert(arc_prefix_total(rows_view(adj@), rows_view(adj@).len() as int)
                            <= i);
                    }
                },
            }
        } else {
            proof {
                assert(load_step(st, rest[0]) == Result::<LoadState, LoadIssue>::Err(
                    LoadIssue::BadShape { line: i + 1 },
                ));
            }
            return Result::Err(
                Error::FormatError {
                    line: i + 1,
                    message: String::from_str("unexpected extra line"),
                },
            );
        }
    }
    let ghost stf = LoadState {
        lnum: total as int,
        signum: signum as int,
        n_decl: n_decl as int,
        m_decl: m_decl as int,
        nodes: nodes@,
        adj: rows_view(adj@),
    };
    proof {
        assert(lines.deep_view().skip(total as int) =~= Seq::<Seq<char>>::empty());
        assert(load_lines(stf, Seq::<Seq<char>>::empty()) == Result::<
            LoadState,
            LoadIssue,
        >::Ok(stf));
    }
    let ghost a_full = rows_view(adj@);
    let ncount = nodes.len();
    if ncount < adj.len() {
        adj.truncate(ncount);
    }
    proof {
        assert(rows_view(adj@) =~~= a_full.take(ncount as int));
    }
    let g = Graph { nodes, adjacency_lists: adj };
    proof {
        assert(g.adj() == a_full.take(ncount as int));
        lemma_arc_prefix_take(a_full, ncount as int, ncount as int);
        lemma_arc_prefix_le(a_full, ncount as int, a_full.len() as int);
        assert(arc_total(g.adj()) <= usize::MAX);
        assert forall|v: int| 0 <= v < g.n() implies g.pred_ok(v) by {}
        assert(g.wf());
        assert(g.is_reset());
    }
    Result::Ok(g)
}

/// All-empty rows carry no arcs.
pub proof fn lemma_arc_prefix_empty(adj: Seq<Seq<Arc>>, k: int)
    requires
        0 <= k <= adj.len(),
        forall|u: int| 0 <= u < adj.len() ==> (#[trigger] adj[u]).len() == 0,
    ensures
        arc_prefix_total(adj, k) == 0,
    decreases k,
{
    if k > 0 {
        lemma_arc_prefix_empty(adj, k - 1);
    }
}

/// Adding one arc raises the total by one.
pub proof fn lemma_arc_total_update(adj: Seq<Seq<Arc>>, t: int, arc: Arc)
    requires
        0 <= t < adj.len(),
    ensures
        arc_total(adj.update(t, adj[t].push(arc))) == arc_total(adj) + 1,
{
    lemma_arc_prefix_update(adj, t, arc, adj.len() as int);
}

proof fn lemma_arc_prefix_update(adj: Seq<Seq<Arc>>, t: int, arc: Arc, k: int)
    requires
        0 <= t < adj.len(),
        0 <= k <= adj.len(),
    ensures
        arc_prefix_total(adj.update(t, adj[t].push(arc)), k) == arc_prefix_total(adj, k) + if t < k {
            1int
        } else {
            0int
        },
    decreases k,
{
    if k > 0 {
        lemma_arc_prefix_update(adj, t, arc, k - 1);
    }
}

impl Graph {
    /// Loads a graph from the bytes of a compressed container: the entries
    /// decompress in stored order to one text whose lines follow the
    /// node/arc table grammar.
    pub fn read_graph_from_bytes(data: &Vec<u8>) -> (r: Result<Graph, Error>)
        ensures
            match zip_extract(data@) {
                Option::None => r == Result::<Graph, Error>::Err(Error::ArchiveError),
                Option::Some(texts) => load_result_matches(entry_lines(texts), r),
            },
    {
        let texts = match zip_entry_texts(data) {
            Result::Ok(t) => t,
            Result::Err(_) => {
                return Result::Err(Error::ArchiveError);
            },
        };
        let mut all_lines: Vec<Vec<char>> = Vec::new();
        let tn: usize = texts.len();
        let mut e: usize = 0;
        proof {
            assert(texts.deep_view().skip(0) =~= texts.deep_view());
            assert(all_lines.deep_view() =~= Seq::<Seq<char>>::empty());
            assert(all_lines.deep_view() + entry_lines(texts.deep_view()) =~= entry_lines(
                texts.deep_view(),
            ));
        }
        while e < tn
            invariant
                e <= tn,
                tn == texts@.len(),
                texts.deep_view().len() == texts@.len(),
                all_lines.deep_view() + entry_lines(texts.deep_view().skip(e as int))
                    == entry_lines(texts.deep_view()),
            decreases tn - e,
        {
            let cv = chars_vec(texts[e].as_str());
            let mut ls = split_lines(&cv);
            let ghost l0 = all_lines.deep_view();
            let ghost rest = texts.deep_view().skip(e as int);
            all_lines.append(&mut ls);
            proof {
                assert(rest[0] == texts.deep_view()[e as int]);
                assert(texts.deep_view()[e as int] =~= texts@[e as int]@);
                assert(cv@ == rest[0]);
                assert(all_lines.deep_view() =~~= l0 + spec_lines(rest[0]));
                assert(rest.drop_first() =~= texts.deep_view().skip(e + 1));
                assert(entry_lines(rest) == spec_lines(rest[0]) + entry_lines(
                    texts.deep_view().skip(e + 1),
                ));
                assert((l0 + spec_lines(rest[0])) + entry_lines(texts.deep_view().skip(e + 1))
                    =~= l0 + entry_lines(rest));
            }
            e += 1;
        }
        proof {
            assert(texts.deep_view().skip(tn as int) =~= Seq::<Seq<char>>::empty());
            assert(all_lines.deep_view() =~= all_lines.deep_view() + entry_lines(
                texts.deep_view().skip(tn as int),
            ));
        }
        parse_lines(&all_lines)
    }
}

/// The lesser of an arc's legal speed and the vehicle's cap, in km/h.
pub open spec fn eff_speed(arc_speed: u32, cap: u64) -> int {
    if (arc_speed as int) < (cap as int) {
        arc_speed as int
    } else {
        cap as int
    }
}

/// Travel time over `distance` meters at `speed` km/h, in whole
/// milliseconds; a speed of zero makes the arc unusable.
pub open spec fn travel_cost_ms(distance: u32, speed: int) -> u64 {
    if speed <= 0 {
        u64::MAX
    } else {
        (((distance as int) * 3600) / speed) as u64
    }
}

/// Equal row lengths give equal arc totals.
proof fn lemma_arc_prefix_congruent(a: Seq<Seq<Arc>>, b: Seq<Seq<Arc>>, k: int)
    requires
        a.len() == b.len(),
        forall|u: int| 0 <= u < a.len() ==> (#[trigger] a[u]).len() == b[u].len(),
        0 <= k <= a.len(),
    ensures
        arc_prefix_total(a, k) == arc_prefix_total(b, k),
    decreases k,
{
    if k > 0 {
        lemma_arc_prefix_congruent(a, b, k - 1);
    }
}

/// Travel time of one arc under an effective speed.
fn travel_time_cost(distance: u32, speed: u64) -> (c: u64)
    ensures
        c == travel_cost_ms(distance, speed as int),
{
    if speed == 0 {
        u64::MAX
    } else {
        (distance as u64) * 3600 / speed
    }
}

impl Graph {
    /// The arcs of `other` with every cost replaced by the travel time
    /// under the given cap.
    pub open spec fn costs_are_travel_time(&self, other: &Graph, cap: u64) -> bool {
        &&& self.adj().len() == other.adj().len()
        &&& forall|u: int|
            0 <= u < other.adj().len() ==> (#[trigger] self.adj()[u]).len()
                == other.adj()[u].len()
        &&& forall|u: int, j: int|
            0 <= u < other.adj().len() && 0 <= j < other.adj()[u].len() ==> {
                let a = #[trigger] other.adj()[u][j];
                self.adj()[u][j] == (Arc {
                    cost: travel_cost_ms(a.distance, eff_speed(a.max_speed, cap)),
                    ..a
                })
            }
    }

    /// The arcs of `other` with every cost replaced by the raw distance.
    pub open spec fn costs_are_distance(&self, other: &Graph) -> bool {
        &&& self.adj().len() == other.adj().len()
        &&& forall|u: int|
            0 <= u < other.adj().len() ==> (#[trigger] self.adj()[u]).len()
                == other.adj()[u].len()
        &&& forall|u: int, j: int|
            0 <= u < other.adj().len() && 0 <= j < other.adj()[u].len() ==> {
                let a = #[trigger] other.adj()[u][j];
                self.adj()[u][j] == (Arc { cost: a.distance as u64, ..a })
            }
    }

    /// Recomputes every arc cost as travel time in milliseconds under the
    /// vehicle speed cap.  A previously computed shortest-path tree is no
    /// longer meaningful; run `reset` before the next search.
    pub fn set_arc_costs_to_travel_time(&mut self, max_vehicle_speed: u64)
        requires
            old(self).wf(),
            max_vehicle_speed >= 1,
        ensures
            final(self).wf(),
            final(self).nodes@ == old(self).nodes@,
            final(self).costs_are_travel_time(old(self), max_vehicle_speed),
    {
        let n: usize = self.adjacency_lists.len();
        let mut u: usize = 0;
        while u < n
            invariant
                u <= n,
                n == self.adj().len(),
                self.nodes@ == old(self).nodes@,
                old(self).wf(),
                self.adj().len() == old(self).adj().len(),
                forall|x: int| u <= x < n ==> self.adj()[x] == old(self).adj()[x],
                forall|x: int|
                    0 <= x < u ==> (#[trigger] self.adj()[x]).len() == old(self).adj()[x].len(),
                forall|x: int, j: int|
                    0 <= x < u && 0 <= j < old(self).adj()[x].len() ==> {
                        let a = #[trigger] old(self).adj()[x][j];
                        self.adj()[x][j] == (Arc {
                            cost: travel_cost_ms(
                                a.distance,
                                eff_speed(a.max_speed, max_vehicle_speed),
                            ),
                            ..a
                        })
                    },
            decreases n - u,
        {
            let row_len: usize = self.adjacency_lists[u].len();
            let mut newrow: Vec<Arc> = Vec::new();
            let mut j: usize = 0;
            while j < row_len
                invariant
                    j <= row_len,
                    u < n == self.adj().len(),
                    row_len == self.adj()[u as int].len(),
                    self.adj()[u as int] == old(self).adj()[u as int],
                    newrow@.len() == j,
                    forall|jj: int|
                        0 <= jj < j ==> {
                            let a = #[trigger] old(self).adj()[u as int][jj];
                            newrow@[jj] == (Arc {
                                cost: travel_cost_ms(
                                    a.distance,
                                    eff_speed(a.max_speed, max_vehicle_speed),
                                ),
                                ..a
                            })
                        },
                decreases row_len - j,
            {
                let a = self.adjacency_lists[u][j];
                let sp: u64 = if (a.max_speed as u64) < max_vehicle_speed {
                    a.max_speed as u64
                } else {
                    max_vehicle_speed
                };
                let c = travel_time_cost(a.distance, sp);
                newrow.push(
                    Arc {
                        tail_node_id: a.tail_node_id,
                        head_node_id: a.head_node_id,
                        distance: a.distance,
                        max_speed: a.max_speed,
                        cost: c,
                    },
                );
                j += 1;
            }
            let ghost before = self.adj();
            let ghost newrow_v = newrow@;
            self.adjacency_lists[u] = newrow;
            proof {
                assert forall|x: int| 0 <= x < n implies #[trigger] self.adj()[x] == (if x
                    == u as int {
                    newrow_v
                } else {
                    before[x]
                }) by {
                    assert(self.adj()[x] == self.adjacency_lists@[x]@);
                }
                assert forall|j: int|
                    0 <= j < old(self).adj()[u as int].len() implies self.adj()[u as int][j] == (Arc {
                    cost: travel_cost_ms(
                        (#[trigger] old(self).adj()[u as int][j]).distance,
                        eff_speed(old(self).adj()[u as int][j].max_speed, max_vehicle_speed),
                    ),
                    ..(old(self).adj()[u as int][j])
                }) by {
                    assert(self.adj()[u as int] == newrow_v);
                    assert(newrow_v[j] == (Arc {
                        cost: travel_cost_ms(
                            old(self).adj()[u as int][j].distance,
                            eff_speed(old(self).adj()[u as int][j].max_speed, max_vehicle_speed),
                        ),
                        ..(old(self).adj()[u as int][j])
                    }));
                }
            }
            u += 1;
        }
        proof {
            assert forall|x: int| 0 <= x < self.adj().len() implies (#[trigger] self.adj()[x]).len()
                == old(self).adj()[x].len() by {}
            lemma_arc_prefix_congruent(
                self.adj(),
                old(self).adj(),
                self.adj().len() as int,
            );
            assert forall|u2: int, j2: int|
                0 <= u2 < final(self).n() && 0 <= j2 < final(self).adj()[u2].len() implies {
                let a = #[trigger] final(self).adj()[u2][j2];
                a.tail_node_id == u2 && (a.head_node_id as int) < final(self).n()
            } by {
                let a0 = old(self).adj()[u2][j2];
                assert(a0.tail_node_id == u2 && (a0.head_node_id as int) < old(self).n());
            }
            assert forall|v: int| 0 <= v < final(self).n() implies final(self).pred_ok(v) by {
                assert(old(self).pred_ok(v));
                if final(self).nodes@[v].pred_arc is Some {
                    let (pu, pk) = final(self).nodes@[v].pred_arc->0;
                    assert(final(self).adj()[pu as int].len() == old(self).adj()[
                        pu as int].len());
                    assert(final(self).adj()[pu as int][pk as int].head_node_id == old(
                        self,
                    ).adj()[pu as int][pk as int].head_node_id);
                }
            }
        }
    }

    /// Recomputes every arc cost as the raw distance in meters, the model
    /// a freshly loaded graph starts under.  A previously computed
    /// shortest-path tree is no longer meaningful; run `reset` before the
    /// next search.
    pub fn set_arc_costs_to_distance(&mut self)
        requires
            old(self).wf(),
        ensures
            final(self).wf(),
            final(self).nodes@ == old(self).nodes@,
            final(self).costs_are_distance(old(self)),
    {
        let n: usize = self.adjacency_lists.len();
        let mut u: usize = 0;
        while u < n
            invariant
                u <= n,
                n == self.adj().len(),
                self.nodes@ == old(self).nodes@,
                old(self).wf(),
                self.adj().len() == old(self).adj().len(),
                forall|x: int| u <= x < n ==> self.adj()[x] == old(self).adj()[x],
                forall|x: int|
                    0 <= x < u ==> (#[trigger] self.adj()[x]).len() == old(self).adj()[x].len(),
                forall|x: int, j: int|
                    0 <= x < u && 0 <= j < old(self).adj()[x].len() ==> {
                        let a = #[trigger] old(self).adj()[x][j];
                        self.adj()[x][j] == (Arc { cost: a.distance as u64, ..a })
                    },
            decreases n - u,
        {
            let row_len: usize = self.adjacency_lists[u].len();
            let mut newrow: Vec<Arc> = Vec::new();
            let mut j: usize = 0;
            while j < row_len
                invariant
                    j <= row_len,
                    u < n == self.adj().len(),
                    row_len == self.adj()[u as int].len(),
                    self.adj()[u as int] == old(self).adj()[u as int],
                    newrow@.len() == j,
                    forall|jj: int|
                        0 <= jj < j ==> {
                            let a = #[trigger] old(self).adj()[u as int][jj];
                            newrow@[jj] == (Arc { cost: a.distance as u64, ..a })
                        },
                decreases row_len - j,
            {
                let a = self.adjacency_lists[u][j];
                newrow.push(
                    Arc {
                        tail_node_id: a.tail_node_id,
                        head_node_id: a.head_node_id,
                        distance: a.distance,
                        max_speed: a.max_speed,
                        cost: a.distance as u64,
                    },
                );
                j += 1;
            }
            let ghost before = self.adj();
            let ghost newrow_v = newrow@;
            self.adjacency_lists[u] = newrow;
            proof {
                assert forall|x: int| 0 <= x < n implies #[trigger] self.adj()[x] == (if x
                    == u as int {
                    newrow_v
                } else {
                    before[x]
                }) by {
                    assert(self.adj()[x] == self.adjacency_lists@[x]@);
                }
                assert forall|j: int|
                    0 <= j < old(self).adj()[u as int].len() implies self.adj()[u as int][j] == (Arc {
                    cost: (#[trigger] old(self).adj()[u as int][j]).distance as u64,
                    ..(old(self).adj()[u as int][j])
                }) by {
                    assert(self.adj()[u as int] == newrow_v);
                    assert(newrow_v[j] == (Arc {
                        cost: old(self).adj()[u as int][j].distance as u64,
                        ..(old(self).adj()[u as int][j])
                    }));
                }
            }
            u += 1;
        }
        proof {
            assert forall|x: int| 0 <= x < self.adj().len() implies (#[trigger] self.adj()[x]).len()
                == old(self).adj()[x].len() by {}
            lemma_arc_prefix_congruent(
                self.adj(),
                old(self).adj(),
                self.adj().len() as int,
            );
            assert forall|u2: int, j2: int|
                0 <= u2 < final(self).n() && 0 <= j2 < final(self).adj()[u2].len() implies {
                let a = #[trigger] final(self).adj()[u2][j2];
                a.tail_node_id == u2 && (a.head_node_id as int) < final(self).n()
            } by {
                let a0 = old(self).adj()[u2][j2];
                assert(a0.tail_node_id == u2 && (a0.head_node_id as int) < old(self).n());
            }
            assert forall|v: int| 0 <= v < final(self).n() implies final(self).pred_ok(v) by {
                assert(old(self).pred_ok(v));
                if final(self).nodes@[v].pred_arc is Some {
                    let (pu, pk) = final(self).nodes@[v].pred_arc->0;
                    assert(final(self).adj()[pu as int].len() == old(self).adj()[
                        pu as int].len());
                    assert(final(self).adj()[pu as int][pk as int].head_node_id == old(
                        self,
                    ).adj()[pu as int][pk as int].head_node_id);
                }
            }
        }
    }
}

/// Number of `true` entries.
pub open spec fn count_true(s: Seq<bool>) -> int
    decreases s.len(),
{
    if s.len() == 0 {
        0
    } else {
        count_true(s.drop_last()) + if s.last() {
            1int
        } else {
            0int
        }
    }
}

proof fn lemma_count_true_update(s: Seq<bool>, i: int)
    requires
        0 <= i < s.len(),
        !s[i],
    ensures
        count_true(s.update(i, true)) == count_true(s) + 1,
    decreases s.len(),
{
    if i == s.len() - 1 {
        assert(s.update(i, true).drop_last() =~= s.drop_last());
    } else {
        assert(s.update(i, true).drop_last() =~= s.drop_last().update(i, true));
        lemma_count_true_update(s.drop_last(), i);
    }
}

proof fn lemma_count_true_nonneg(s: Seq<bool>)
    ensures
        0 <= count_true(s) <= s.len(),
    decreases s.len(),
{
    if s.len() > 0 {
        lemma_count_true_nonneg(s.drop_last());
    }
}

/// A duplicate-free sequence of ids below `n` has at most `n` entries.
proof fn lemma_nodup_bounded(q: Seq<usize>, n: int)
    requires
        q.no_duplicates(),
        forall|i: int| 0 <= i < q.len() ==> (q[i] as int) < n,
        0 <= n,
    ensures
        q.len() <= n,
{
    broadcast use vstd::set::group_set_axioms;

    let qi = q.map_values(|x: usize| x as int);
    assert(qi.no_duplicates()) by {
        assert forall|i: int, j: int|
            0 <= i < qi.len() && 0 <= j < qi.len() && i != j implies qi[i] != qi[j] by {
            assert(q[i] != q[j]);
        }
    }
    qi.unique_seq_to_set();
    vstd::set_lib::lemma_int_range(0, n);
    assert(qi.to_set().subset_of(vstd::set_lib::set_int_range(0, n))) by {
        assert forall|x: int| qi.to_set().contains(x) implies vstd::set_lib::set_int_range(
            0,
            n,
        ).contains(x) by {
            assert(qi.contains(x));
            let i = choose|i: int| 0 <= i < qi.len() && qi[i] == x;
            assert(q[i] as int == x);
        }
    }
    vstd::set_lib::lemma_len_subset(qi.to_set(), vstd::set_lib::set_int_range(0, n));
}

impl Graph {
    /// There is an arc from `u` to `v`.
    pub open spec fn has_edge(&self, u: int, v: int) -> bool {
        exists|j: int| 0 <= j < self.adj()[u].len() && (#[trigger] self.adj()[u][j]).head_node_id
            == v
    }

    /// `w` is a directed walk from `s` to `v` through valid nodes.
    pub open spec fn is_walk(&self, w: Seq<int>, s: int, v: int) -> bool {
        &&& w.len() > 0
        &&& w[0] == s
        &&& w.last() == v
        &&& forall|i: int| 0 <= i < w.len() ==> 0 <= #[trigger] w[i] < self.n()
        &&& forall|i: int| 0 <= i < w.len() - 1 ==> self.has_edge(#[trigger] w[i], w[i + 1])
    }

    /// `v` can be reached from `s` along directed arcs.
    pub open spec fn reachable(&self, s: int, v: int) -> bool {
        exists|w: Seq<int>| self.is_walk(w, s, v)
    }

    /// Walks extend along arcs.
    pub proof fn lemma_reachable_step(&self, s: int, u: int, v: int)
        requires
            self.reachable(s, u),
            0 <= v < self.n(),
            self.has_edge(u, v),
        ensures
            self.reachable(s, v),
    {
        let w = choose|w: Seq<int>| self.is_walk(w, s, u);
        let w2 = w.push(v);
        assert(self.is_walk(w2, s, v)) by {
            assert(w2.last() == v);
            assert forall|i: int| 0 <= i < w2.len() - 1 implies self.has_edge(
                #[trigger] w2[i],
                w2[i + 1],
            ) by {
                if i < w.len() - 1 {
                    assert(w2[i] == w[i] && w2[i + 1] == w[i + 1]);
                } else {
                    assert(w2[i] == w.last() && w2[i + 1] == v);
                }
            }
        }
    }

    /// A set of marks that contains the source and is closed under arcs
    /// contains everything reachable.
    proof fn lemma_closed_marks(&self, marks: Seq<bool>, s: int, w: Seq<int>, v: int)
        requires
            self.wf(),
            marks.len() == self.n(),
            0 <= s < self.n(),
            marks[s],
            forall|u: int, x: int|
                0 <= u < self.n() && marks[u] && 0 <= x < self.n() && self.has_edge(u, x)
                    ==> marks[x],
            self.is_walk(w, s, v),
        ensures
            marks[v],
        decreases w.len(),
    {
        if w.len() == 1 {
            assert(w[0] == s && w.last() == v);
        } else {
            let w0 = w.drop_last();
            let u = w[w.len() - 2];
            assert(self.is_walk(w0, s, u)) by {
                assert(w0[0] == s);
                assert forall|i: int| 0 <= i < w0.len() - 1 implies self.has_edge(
                    #[trigger] w0[i],
                    w0[i + 1],
                ) by {
                    assert(w0[i] == w[i] && w0[i + 1] == w[i + 1]);
                }
            }
            self.lemma_closed_marks(marks, s, w0, u);
            assert(self.has_edge(u, v));
        }
    }

    /// All nodes reachable from `node_id`: a mark per node and the size of
    /// the marked set.
    #[verifier::rlimit(100)]
    fn compute_reachable_nodes(&self, node_id: usize) -> (r: (usize, Vec<bool>))
        requires
            self.wf(),
            (node_id as int) < self.n(),
        ensures
            r.1@.len() == self.n(),
            forall|v: int| 0 <= v < self.n() ==> (r.1@[v] <==> self.reachable(node_id as int, v)),
            r.0 == count_true(r.1@),
    {
        let n: usize = self.nodes.len();
        let mut marked: Vec<bool> = Vec::new();
        let mut z: usize = 0;
        while z < n
            invariant
                z <= n,
                marked@.len() == z,
                forall|v: int| 0 <= v < z ==> !(#[trigger] marked@[v]),
            decreases n - z,
        {
            marked.push(false);
            z += 1;
        }
        proof {
            lemma_count_true_all_false(marked@);
        }
        let mut queue: Vec<usize> = Vec::new();
        let ghost m0 = marked@;
        marked[node_id] = true;
        queue.push(node_id);
        proof {
            lemma_count_true_update(m0, node_id as int);
            assert(self.reachable(node_id as int, node_id as int)) by {
                let w = seq![node_id as int];
                assert(self.is_walk(w, node_id as int, node_id as int));
            }
        }
        proof {
            assert(queue@[0] == node_id);
            assert forall|v: int| 0 <= v < n && marked@[v] implies queue@.contains(v as usize) by {
                assert(v == node_id as int);
            }
        }
        let mut count: usize = 1;
        let mut qi: usize = 0;
        while qi < queue.len()
            invariant
                self.wf(),
                n == self.n(),
                marked@.len() == n,
                qi <= queue@.len(),
                queue@.no_duplicates(),
                forall|p: int| 0 <= p < queue@.len() ==> (#[trigger] queue@[p] as int) < n,
                forall|p: int| 0 <= p < queue@.len() ==> marked@[queue@[p] as int],
                forall|v: int| 0 <= v < n && marked@[v] ==> queue@.contains(v as usize),
                marked@[node_id as int],
                forall|v: int| 0 <= v < n && #[trigger] marked@[v] ==> self.reachable(
                    node_id as int,
                    v,
                ),
                forall|p: int, j: int|
                    0 <= p < qi && 0 <= j < self.adj()[queue@[p] as int].len() ==> marked@[(
                    #[trigger] self.adj()[queue@[p] as int][j]).head_node_id as int],
                count == count_true(marked@),
                count == queue@.len(),
            decreases n - qi,
        {
            proof {
                lemma_nodup_bounded(queue@, n as int);
            }
            let v = queue[qi];
            let deg: usize = self.adjacency_lists[v].len();
            let mut j: usize = 0;
            while j < deg
                invariant
                    self.wf(),
                    n == self.n(),
                    marked@.len() == n,
                    qi < queue@.len(),
                    (v as int) < n,
                    queue@[qi as int] == v,
                    deg == self.adj()[v as int].len(),
                    j <= deg,
                    queue@.no_duplicates(),
                    forall|p: int| 0 <= p < queue@.len() ==> (#[trigger] queue@[p] as int) < n,
                    forall|p: int| 0 <= p < queue@.len() ==> marked@[queue@[p] as int],
                    forall|x: int| 0 <= x < n && marked@[x] ==> queue@.contains(x as usize),
                    marked@[node_id as int],
                    forall|x: int| 0 <= x < n && #[trigger] marked@[x] ==> self.reachable(
                        node_id as int,
                        x,
                    ),
                    forall|p: int, jj: int|
                        0 <= p < qi && 0 <= jj < self.adj()[queue@[p] as int].len() ==> marked@[(
                        #[trigger] self.adj()[queue@[p] as int][jj]).head_node_id as int],
                    forall|jj: int|
                        0 <= jj < j ==> marked@[(#[trigger] self.adj()[v as int][jj]).head_node_id
                            as int],
                    count == count_true(marked@),
                    count == queue@.len(),
                decreases deg - j,
            {
                let head = self.adjacency_lists[v][j].head_node_id;
                proof {
                    assert(self.adj()[v as int][j as int].head_node_id == head);
                    assert((head as int) < n);
                }
                if !marked[head] {
                    proof {
                        lemma_nodup_bounded(queue@, n as int);
                        lemma_count_true_nonneg(marked@);
                    }
                    let ghost m1 = marked@;
                    let ghost q1 = queue@;
                    marked[head] = true;
                    queue.push(head);
                    proof {
                        lemma_count_true_update(m1, head as int);
                        assert(self.reachable(node_id as int, v as int));
                        assert(self.has_edge(v as int, head as int)) by {
                            assert(self.adj()[v as int][j as int].head_node_id == head);
                        }
                        self.lemma_reachable_step(node_id as int, v as int, head as int);
                        assert forall|x: int|
                            0 <= x < n && marked@[x] implies queue@.contains(x as usize) by {
                            if x == head as int {
                                assert(queue@[queue@.len() - 1] == head);
                            } else {
                                assert(m1[x]);
                                let p = choose|p: int|
                                    0 <= p < q1.len() && q1[p] == x as usize;
                                assert(queue@[p] == x as usize);
                            }
                        }
                        assert(queue@.no_duplicates()) by {
                            assert forall|a: int, b: int|
                                0 <= a < queue@.len() && 0 <= b < queue@.len() && a
                                    != b implies queue@[a] != queue@[b] by {
                                if b == queue@.len() - 1 {
                                    assert(m1[q1[a] as int]);
                                } else if a == queue@.len() - 1 {
                                    assert(m1[q1[b] as int]);
                                }
                            }
                        }
                        lemma_nodup_bounded(queue@, n as int);
                    }
                    count += 1;
                }
                j += 1;
            }
            qi += 1;
        }
        proof {
            assert forall|x: int|
                0 <= x < n && self.reachable(node_id as int, x) implies marked@[x] by {
                let w = choose|w: Seq<int>| self.is_walk(w, node_id as int, x);
                assert forall|u: int, y: int|
                    0 <= u < self.n() && marked@[u] && 0 <= y < self.n() && self.has_edge(
                        u,
                        y,
                    ) implies marked@[y] by {
                    assert(queue@.contains(u as usize));
                    let p = choose|p: int| 0 <= p < queue@.len() && queue@[p] == u as usize;
                    let jj = choose|jj: int|
                        0 <= jj < self.adj()[u].len() && (#[trigger] self.adj()[u][jj]).head_node_id
                            == y;
                    assert(marked@[(self.adj()[queue@[p] as int][jj]).head_node_id as int]);
                }
                self.lemma_closed_marks(marked@, node_id as int, w, x);
            }
        }
        (count, marked)
    }
}

proof fn lemma_count_true_all_false(s: Seq<bool>)
    requires
        forall|v: int| 0 <= v < s.len() ==> !(#[trigger] s[v]),
    ensures
        count_true(s) == 0,
    decreases s.len(),
{
    if s.len() > 0 {
        lemma_count_true_all_false(s.drop_last());
    }
}

/// The ids of the `true` slots below `k`, ascending.
pub open spec fn true_indices(s: Seq<bool>, k: int) -> Seq<usize>
    decreases k,
{
    if k <= 0 {
        Seq::empty()
    } else if s[k - 1] {
        true_indices(s, k - 1).push((k - 1) as usize)
    } else {
        true_indices(s, k - 1)
    }
}

impl Graph {
    /// Marks of every node reachable from `s`.
    pub open spec fn reach_marks(&self, s: int) -> Seq<bool> {
        Seq::new(self.n() as nat, |v: int| self.reachable(s, v))
    }

    /// The largest-component scan from probe `i` on: each unvisited id in
    /// ascending order probes its reachable set, all members become
    /// visited, and the largest set found wins.
    pub open spec fn lcc_scan(&self, i: int, visited: Seq<bool>, best_size: int, best: Seq<bool>) -> (
        int,
        Seq<bool>,
    )
        decreases self.n() - i,
        when i >= 0
    {
        if i >= self.n() {
            (best_size, best)
        } else if visited[i] {
            self.lcc_scan(i + 1, visited, best_size, best)
        } else {
            let rm = self.reach_marks(i);
            let size = count_true(rm);
            let visited2 = Seq::new(self.n() as nat, |v: int| visited[v] || rm[v]);
            if size > best_size {
                self.lcc_scan(i + 1, visited2, size, rm)
            } else {
                self.lcc_scan(i + 1, visited2, best_size, best)
            }
        }
    }

    /// Size and membership marks of the component the scan keeps.
    pub open spec fn spec_lcc(&self) -> (int, Seq<bool>) {
        self.lcc_scan(0, Seq::new(self.n() as nat, |v: int| false), 0, Seq::empty())
    }

    /// The largest connected component: its size and the ascending list of
    /// its member node ids.
    #[verifier::rlimit(100)]
    pub fn compute_lcc(&self) -> (r: (usize, Vec<usize>))
        requires
            self.wf(),
        ensures
            r.0 == self.spec_lcc().0,
            r.1@ == true_indices(self.spec_lcc().1, self.spec_lcc().1.len() as int),
    {
        let n: usize = self.nodes.len();
        let mut visited: Vec<bool> = Vec::new();
        let mut z: usize = 0;
        while z < n
            invariant
                z <= n,
                visited@.len() == z,
                forall|v: int| 0 <= v < z ==> !(#[trigger] visited@[v]),
            decreases n - z,
        {
            visited.push(false);
            z += 1;
        }
        let mut best_size: usize = 0;
        let mut best: Vec<usize> = Vec::new();
        let ghost mut best_marks: Seq<bool> = Seq::empty();
        proof {
            assert(visited@ =~= Seq::new(self.n() as nat, |v: int| false));
        }
        let mut i: usize = 0;
        while i < n
            invariant
                self.wf(),
                n == self.n(),
                visited@.len() == n,
                i <= n,
                self.lcc_scan(i as int, visited@, best_size as int, best_marks)
                    == self.spec_lcc(),
                best@ == true_indices(best_marks, best_marks.len() as int),
                best_size == count_true(best_marks),
                best_marks.len() == 0 || best_marks.len() == n,
            decreases n - i,
        {
            if visited[i] {
                i += 1;
            } else {
                let reach = self.compute_reachable_nodes(i);
                let size = reach.0;
                let marks = reach.1;
                let ghost rm = self.reach_marks(i as int);
                proof {
                    assert(marks@ =~= rm);
                }
                let ghost vis0 = visited@;
                let mut merged: Vec<bool> = Vec::new();
                let mut j: usize = 0;
                while j < n
                    invariant
                        j <= n,
                        n == marks@.len(),
                        n == visited@.len(),
                        visited@ == vis0,
                        merged@.len() == j,
                        forall|x: int| 0 <= x < j ==> (#[trigger] merged@[x]) == (vis0[x] || marks@[x]),
                    decreases n - j,
                {
                    let b = visited[j] || marks[j];
                    merged.push(b);
                    j += 1;
                }
                visited = merged;
                proof {
                    assert(visited@ =~= Seq::new(
                        self.n() as nat,
                        |v: int| vis0[v] || rm[v],
                    ));
                }
                if size > best_size {
                    best_size = size;
                    let mut members: Vec<usize> = Vec::new();
                    let mut t: usize = 0;
                    while t < n
                        invariant
                            t <= n,
                            n == marks@.len(),
                            members@ == true_indices(marks@, t as int),
                        decreases n - t,
                    {
                        if marks[t] {
                            members.push(t);
                        }
                        t += 1;
                    }
                    best = members;
                    proof {
                        best_marks = rm;
                    }
                }
                i += 1;
            }
        }
        proof {
            assert(self.lcc_scan(n as int, visited@, best_size as int, best_marks) == (
                best_size as int,
                best_marks,
            ));
        }
        (best_size, best)
    }
}


} // verus!
