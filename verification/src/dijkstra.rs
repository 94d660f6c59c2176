//! Single-source shortest paths over the current arc costs: Dijkstra's
//! algorithm with a settled/frontier/unvisited state per node, driven by a
//! binary min-heap of tentative distances.

use vstd::prelude::*;
use vstd::multiset::Multiset;
use crate::priority_queue::PriorityQueue;
use crate::graph::Node;
use crate::graph::Graph;
use crate::graph::Error;

verus! {

impl Graph {
    /// Arcs `0..upto` of `u` cannot improve their heads: every head of a
    /// non-loop arc with a representable candidate already holds a distance
    /// at most `dist(u) + cost`.
    pub open spec fn closed_arcs(&self, u: int, upto: int) -> bool {
        forall|k: int|
            0 <= k < upto ==> {
                let a = #[trigger] self.adj()[u][k];
                ((a.head_node_id as int) != u && self.nodes@[u].distance->0 + a.cost <= u64::MAX)
                    ==> self.nodes@[a.head_node_id as int].distance is Some && self.nodes@[
                    a.head_node_id as int].distance->0 <= self.nodes@[u].distance->0 + a.cost
            }
    }

    /// Every settled node has all its outgoing arcs relaxed.
    pub open spec fn all_closed(&self) -> bool {
        forall|u: int|
            0 <= u < self.n() && (#[trigger] self.nodes@[u]).settled ==> self.closed_arcs(
                u,
                self.adj()[u].len() as int,
            )
    }

    /// Settled distances sit at or below every tentative distance, so nodes
    /// settle in non-decreasing distance order.
    pub open spec fn ord_inv(&self) -> bool {
        forall|w: int, v: int|
            0 <= w < self.n() && 0 <= v < self.n() && (#[trigger] self.nodes@[w]).settled && !(
            #[trigger] self.nodes@[v]).settled && self.nodes@[v].distance is Some
                ==> self.nodes@[w].distance->0 <= self.nodes@[v].distance->0
    }

    /// The invariant of a running search from `src` with queue contents
    /// `q` and settled set `ss` of size `sc`.
    pub open spec fn dij_inv(&self, src: int, q: Multiset<(u64, usize)>, ss: Set<int>, sc: int) -> bool {
        &&& self.wf()
        &&& 0 <= src < self.n()
        &&& self.nodes@[src].distance == Option::Some(0u64)
        &&& self.nodes@[src].pred_arc is None
        &&& self.nodes@[src].hops == 0
        &&& ss.finite()
        &&& sc == ss.len()
        &&& sc <= self.n()
        &&& forall|v: int| ss.contains(v) ==> 0 <= v < self.n()
        &&& forall|v: int|
            0 <= v < self.n() ==> (ss.contains(v) <==> (#[trigger] self.nodes@[v]).settled)
        &&& forall|v: int|
            0 <= v < self.n() && (#[trigger] self.nodes@[v]).settled ==> self.nodes@[v].distance
                is Some
        &&& forall|v: int|
            0 <= v < self.n() && v != src && (#[trigger] self.nodes@[v]).distance is Some
                ==> self.nodes@[v].pred_arc is Some
        &&& forall|v: int|
            0 <= v < self.n() && (#[trigger] self.nodes@[v]).pred_arc is Some ==> {
                let p = self.nodes@[v].pred_arc->0;
                &&& self.nodes@[v].distance->0 == self.nodes@[p.0 as int].distance->0
                    + self.adj()[p.0 as int][p.1 as int].cost
                &&& self.nodes@[p.0 as int].settled
                &&& self.nodes@[v].hops <= sc
            }
        &&& forall|v: int|
            0 <= v < self.n() && !(#[trigger] self.nodes@[v]).settled && self.nodes@[v].distance
                is Some ==> q.count((self.nodes@[v].distance->0, v as usize)) > 0
        &&& forall|e: (u64, usize)|
            #[trigger] q.count(e) > 0 ==> (e.1 as int) < self.n()
                && self.nodes@[e.1 as int].distance is Some
                && self.nodes@[e.1 as int].distance->0 <= e.0
        &&& forall|u: int|
            0 <= u < self.n() && (#[trigger] self.nodes@[u]).settled ==> self.nodes@[u].hops < sc
    }

    /// Search state of a finished run from `src`: the source sits at zero,
    /// recorded distances and predecessor chains agree, settling and having
    /// a distance coincide, and no arc can improve any recorded distance.
    pub open spec fn dijkstra_post(&self, src: int) -> bool {
        &&& 0 <= src < self.n()
        &&& self.nodes@[src].distance == Option::Some(0u64)
        &&& self.nodes@[src].pred_arc is None
        &&& forall|v: int|
            0 <= v < self.n() ==> ((#[trigger] self.nodes@[v]).settled <==> self.nodes@[v].distance
                is Some)
        &&& forall|v: int|
            0 <= v < self.n() && v != src && (#[trigger] self.nodes@[v]).distance is Some
                ==> self.nodes@[v].pred_arc is Some
        &&& forall|v: int|
            0 <= v < self.n() && (#[trigger] self.nodes@[v]).pred_arc is Some ==> {
                let p = self.nodes@[v].pred_arc->0;
                self.nodes@[v].distance->0 == self.nodes@[p.0 as int].distance->0 + self.adj()[
                    p.0 as int][p.1 as int].cost
            }
        &&& forall|v: int|
            0 <= v < self.n() && (#[trigger] self.nodes@[v]).distance is Some ==> self.closed_arcs(
                v,
                self.adj()[v].len() as int,
            )
    }
}

/// Everything the search invariant needs after one successful relaxation:
/// node `w`, unsettled, took distance `cand = du + cost` through arc `j`
/// of the settled node `v`, and `(cand, w)` joined the queue.
#[verifier::rlimit(100)]
proof fn relax_update_facts(
    mid: &Graph,
    cur: &Graph,
    qmid: Multiset<(u64, usize)>,
    qcur: Multiset<(u64, usize)>,
    src: int,
    ss: Set<int>,
    sc: int,
    v: int,
    j: int,
    w: int,
    du: u64,
    cand: u64,
)
    requires
        mid.dij_inv(src, qmid, ss, sc),
        0 <= v < mid.n(),
        0 <= j < mid.adj()[v].len(),
        (mid.adj()[v][j].head_node_id as int) == w,
        w != v,
        0 <= w < mid.n(),
        !mid.nodes@[w].settled,
        mid.nodes@[v].settled,
        mid.nodes@[v].distance == Option::Some(du),
        cand == du + mid.adj()[v][j].cost,
        mid.nodes@[w].distance is Some ==> cand < mid.nodes@[w].distance->0,
        mid.nodes@[v].hops < sc,
        sc <= usize::MAX,
        v <= usize::MAX,
        j <= usize::MAX,
        w <= usize::MAX,
        cur.nodes@ == mid.nodes@.update(
            w,
            (Node {
                latitude: mid.nodes@[w].latitude,
                longitude: mid.nodes@[w].longitude,
                settled: false,
                distance: Option::Some(cand),
                pred_arc: Option::Some((v as usize, j as usize)),
                hops: (mid.nodes@[v].hops + 1) as usize,
            }),
        ),
        cur.adjacency_lists == mid.adjacency_lists,
        qcur == qmid.insert((cand, w as usize)),
    ensures
        cur.dij_inv(src, qcur, ss, sc),
        cur.nodes@[v].settled,
        cur.nodes@[v].distance == Option::Some(du),
{
    let n = mid.n();
    assert(cur.n() == n);
    assert(cur.adj() == mid.adj());
    assert(w != src) by {
        if w == src {
            assert(mid.nodes@[src].distance == Option::Some(0u64));
        }
    }
    assert(mid.nodes@[v].hops + 1 <= sc);
    // structural well-formedness
    assert forall|z: int| 0 <= z < n implies cur.pred_ok(z) by {
        assert(mid.pred_ok(z));
        if z == w {
            assert(cur.adj()[v][j].head_node_id as int == w);
            assert(cur.nodes@[v] == mid.nodes@[v]);
        } else {
            assert(cur.nodes@[z] == mid.nodes@[z]);
            if mid.nodes@[z].pred_arc is Some {
                let p = mid.nodes@[z].pred_arc->0;
                assert(mid.nodes@[p.0 as int].settled);
                assert(p.0 as int != w);
                assert(cur.nodes@[p.0 as int] == mid.nodes@[p.0 as int]);
            }
        }
    }
    assert(cur.wf());
    // predecessor equations, settled tails, chain-length bound
    assert forall|z: int|
        0 <= z < n && (#[trigger] cur.nodes@[z]).pred_arc is Some implies {
        let p = cur.nodes@[z].pred_arc->0;
        &&& cur.nodes@[z].distance->0 == cur.nodes@[p.0 as int].distance->0 + cur.adj()[p.0 as int][p.1 as int].cost
        &&& cur.nodes@[p.0 as int].settled
        &&& cur.nodes@[z].hops <= sc
    } by {
        if z == w {
            assert(cur.nodes@[v] == mid.nodes@[v]);
        } else {
            assert(cur.nodes@[z] == mid.nodes@[z]);
            let p = mid.nodes@[z].pred_arc->0;
            if mid.nodes@[z].pred_arc is Some {
                assert(mid.pred_ok(z));
                assert((p.0 as int) < n);
                assert(mid.nodes@[p.0 as int].settled);
                assert(p.0 as int != w);
                assert(cur.nodes@[p.0 as int] == mid.nodes@[p.0 as int]);
            }
        }
    }
    // tentative nodes are queued
    assert forall|z: int|
        0 <= z < n && !(#[trigger] cur.nodes@[z]).settled && cur.nodes@[z].distance
            is Some implies qcur.count((cur.nodes@[z].distance->0, z as usize)) > 0 by {
        if z == w {
            assert(qcur.count((cand, w as usize)) > 0);
        } else {
            assert(cur.nodes@[z] == mid.nodes@[z]);
            assert(qmid.count((mid.nodes@[z].distance->0, z as usize)) > 0);
        }
    }
    // every queue entry names a node at or below its key
    assert forall|e: (u64, usize)| #[trigger] qcur.count(e) > 0 implies (e.1 as int) < n
        && cur.nodes@[e.1 as int].distance is Some && cur.nodes@[e.1 as int].distance->0
        <= e.0 by {
        if e == (cand, w as usize) {
            assert(cur.nodes@[w].distance == Option::Some(cand));
        } else {
            assert(qmid.count(e) > 0);
            if e.1 as int == w {
                assert(mid.nodes@[w].distance is Some);
                assert(cand < mid.nodes@[w].distance->0);
            } else {
                assert(cur.nodes@[e.1 as int] == mid.nodes@[e.1 as int]);
            }
        }
    }
}


/// Relaxing cannot open an already closed node `u` when at most the
/// distance of one other node `w` dropped.
proof fn lemma_closed_preserved(a: &Graph, b: &Graph, u: int, upto: int, w: int)
    requires
        a.adj() == b.adj(),
        a.nodes@.len() == b.nodes@.len(),
        b.wf(),
        0 <= u < b.n(),
        u != w,
        0 <= upto <= b.adj()[u].len(),
        forall|x: int|
            0 <= x < b.n() && x != w ==> (#[trigger] a.nodes@[x]).distance == b.nodes@[x].distance,
        0 <= w < b.n(),
        b.nodes@[w].distance is Some ==> a.nodes@[w].distance is Some && a.nodes@[w].distance->0
            <= b.nodes@[w].distance->0,
        b.closed_arcs(u, upto),
    ensures
        a.closed_arcs(u, upto),
{
    assert forall|k: int|
        0 <= k < upto implies {
        let arc = #[trigger] a.adj()[u][k];
        ((arc.head_node_id as int) != u && a.nodes@[u].distance->0 + arc.cost <= u64::MAX)
            ==> a.nodes@[arc.head_node_id as int].distance is Some && a.nodes@[
            arc.head_node_id as int].distance->0 <= a.nodes@[u].distance->0 + arc.cost
    } by {
        let arc = a.adj()[u][k];
        let h = arc.head_node_id as int;
        assert(b.adj()[u][k] == arc);
        if (h != u && a.nodes@[u].distance->0 + arc.cost <= u64::MAX) {
            assert(a.nodes@[u].distance == b.nodes@[u].distance);
            assert(b.nodes@[h].distance is Some);
            if h != w {
                assert(a.nodes@[h].distance == b.nodes@[h].distance);
            }
        }
    }
}

/// Order and closure facts survive one successful relaxation: the improved
/// node `w` is unsettled, so every settled node keeps its arcs closed and
/// its distance below every tentative one.
#[verifier::rlimit(100)]
proof fn relax_ord_closed_facts(mid: &Graph, cur: &Graph, v: int, j: int, w: int, du: u64, cand: u64)
    requires
        mid.wf(),
        cur.wf(),
        0 <= v < mid.n(),
        0 <= j < mid.adj()[v].len(),
        (mid.adj()[v][j].head_node_id as int) == w,
        w != v,
        0 <= w < mid.n(),
        !mid.nodes@[w].settled,
        mid.nodes@[v].settled,
        mid.nodes@[v].distance == Option::Some(du),
        cand == du + mid.adj()[v][j].cost,
        mid.nodes@[w].distance is Some ==> cand < mid.nodes@[w].distance->0,
        mid.ord_inv(),
        forall|u: int|
            0 <= u < mid.n() && (#[trigger] mid.nodes@[u]).settled ==> mid.nodes@[u].distance->0
                <= du,
        forall|u: int|
            0 <= u < mid.n() && (#[trigger] mid.nodes@[u]).settled && u != v ==> mid.closed_arcs(
                u,
                mid.adj()[u].len() as int,
            ),
        mid.closed_arcs(v, j),
        cur.nodes@.len() == mid.nodes@.len(),
        cur.adjacency_lists == mid.adjacency_lists,
        forall|x: int| 0 <= x < mid.n() && x != w ==> (#[trigger] cur.nodes@[x]) == mid.nodes@[x],
        !cur.nodes@[w].settled,
        cur.nodes@[w].distance == Option::Some(cand),
    ensures
        cur.ord_inv(),
        forall|u: int|
            0 <= u < cur.n() && (#[trigger] cur.nodes@[u]).settled ==> cur.nodes@[u].distance->0
                <= du,
        forall|u: int|
            0 <= u < cur.n() && (#[trigger] cur.nodes@[u]).settled && u != v ==> cur.closed_arcs(
                u,
                cur.adj()[u].len() as int,
            ),
        cur.closed_arcs(v, j + 1),
{
    let n = mid.n();
    assert(cur.adj() == mid.adj());
    assert forall|x: int, z: int|
        0 <= x < n && 0 <= z < n && (#[trigger] cur.nodes@[x]).settled
            && !(#[trigger] cur.nodes@[z]).settled
            && cur.nodes@[z].distance is Some implies cur.nodes@[x].distance->0 <= cur.nodes@[
        z].distance->0 by {
        assert(x != w);
        assert(cur.nodes@[x] == mid.nodes@[x]);
        if z == w {
            assert(mid.nodes@[x].distance->0 <= du);
        } else {
            assert(cur.nodes@[z] == mid.nodes@[z]);
        }
    }
    assert forall|u: int|
        0 <= u < n && (#[trigger] cur.nodes@[u]).settled implies cur.nodes@[u].distance->0
        <= du by {
        assert(u != w);
        assert(cur.nodes@[u] == mid.nodes@[u]);
    }
    assert forall|u: int|
        0 <= u < n && (#[trigger] cur.nodes@[u]).settled && u != v implies cur.closed_arcs(
        u,
        cur.adj()[u].len() as int,
    ) by {
        assert(u != w);
        assert(cur.nodes@[u] == mid.nodes@[u]);
        assert(mid.closed_arcs(u, mid.adj()[u].len() as int));
        lemma_closed_preserved(cur, mid, u, mid.adj()[u].len() as int, w);
    }
    assert(cur.closed_arcs(v, j)) by {
        lemma_closed_preserved(cur, mid, v, j, w);
    }
    assert forall|k: int|
        0 <= k < j + 1 implies {
        let a = #[trigger] cur.adj()[v][k];
        ((a.head_node_id as int) != v && cur.nodes@[v].distance->0 + a.cost <= u64::MAX)
            ==> cur.nodes@[a.head_node_id as int].distance is Some && cur.nodes@[
            a.head_node_id as int].distance->0 <= cur.nodes@[v].distance->0 + a.cost
    } by {
        if k == j {
            assert(cur.nodes@[v] == mid.nodes@[v]);
            assert(cur.adj()[v][j] == mid.adj()[v][j]);
            assert(cur.nodes@[w].distance == Option::Some(cand));
        }
    }
}

impl Graph {
    /// One relaxation step: arc `j` of the settled node `v`, whose final
    /// distance is `du`.  Leaves the search invariant intact; once a node
    /// is settled its record, distance included, never changes again for
    /// the rest of the run, and a self-loop arc is skipped outright.
    #[verifier::rlimit(100)]
    pub fn relax_arc(
        &mut self,
        queue: &mut PriorityQueue<usize>,
        v: usize,
        j: usize,
        du: u64,
        Ghost(src): Ghost<int>,
        Ghost(ss): Ghost<Set<int>>,
        Ghost(sc): Ghost<int>,
    )
        requires
            old(self).dij_inv(src, old(queue)@, ss, sc),
            old(queue).wf(),
            (v as int) < old(self).n(),
            (j as int) < old(self).adj()[v as int].len(),
            old(self).nodes@[v as int].settled,
            old(self).nodes@[v as int].distance == Option::Some(du),
            sc <= usize::MAX,
            old(self).ord_inv(),
            forall|u: int|
                0 <= u < old(self).n() && (#[trigger] old(self).nodes@[u]).settled
                    ==> old(self).nodes@[u].distance->0 <= du,
            forall|u: int|
                0 <= u < old(self).n() && (#[trigger] old(self).nodes@[u]).settled && u != v as int
                    ==> old(self).closed_arcs(u, old(self).adj()[u].len() as int),
            old(self).closed_arcs(v as int, j as int),
        ensures
            final(self).dij_inv(src, final(queue)@, ss, sc),
            final(queue).wf(),
            final(self).ord_inv(),
            forall|u: int|
                0 <= u < final(self).n() && (#[trigger] final(self).nodes@[u]).settled
                    ==> final(self).nodes@[u].distance->0 <= du,
            forall|u: int|
                0 <= u < final(self).n() && (#[trigger] final(self).nodes@[u]).settled && u
                    != v as int ==> final(self).closed_arcs(u, final(self).adj()[u].len() as int),
            final(self).closed_arcs(v as int, j + 1),
            final(self).nodes@.len() == old(self).nodes@.len(),
            final(self).adjacency_lists == old(self).adjacency_lists,
            forall|x: int|
                0 <= x < old(self).n() ==> {
                    let nf = #[trigger] final(self).nodes@[x];
                    let no = old(self).nodes@[x];
                    nf.settled == no.settled && nf.latitude == no.latitude && nf.longitude
                        == no.longitude
                },
            final(self).nodes@[v as int].settled,
            final(self).nodes@[v as int].distance == Option::Some(du),
            forall|x: int|
                0 <= x < old(self).n() && (#[trigger] old(self).nodes@[x]).settled
                    ==> final(self).nodes@[x] == old(self).nodes@[x],
    {
        let ghost n = self.n();
        let arc = self.adjacency_lists[v][j];
        proof {
            assert(arc == self.adj()[v as int][j as int]);
        }
        let w = arc.head_node_id;
        if w == v {
            proof {
                assert(self.closed_arcs(v as int, j + 1));
            }
            return ;
        }
        if self.nodes[w].settled {
            proof {
                assert(self.nodes@[w as int].distance->0 <= du);
                assert(self.closed_arcs(v as int, j + 1));
            }
            return ;
        }
        let cand = match du.checked_add(arc.cost) {
            Option::Some(c) => c,
            Option::None => {
                proof {
                    assert(self.closed_arcs(v as int, j + 1));
                }
                return ;
            },
        };
        let better = match self.nodes[w].distance {
            Option::None => true,
            Option::Some(dw) => cand < dw,
        };
        if !better {
            proof {
                assert(self.nodes@[w as int].distance->0 <= du + arc.cost);
                assert(self.closed_arcs(v as int, j + 1));
            }
            return ;
        }
        let ghost mid = *self;
        let ghost qmid = queue@;
        let nw = self.nodes[w];
        let hv = self.nodes[v].hops;
        proof {
            assert(hv < sc);
        }
        self.nodes[w] = Node {
            latitude: nw.latitude,
            longitude: nw.longitude,
            settled: false,
            distance: Option::Some(cand),
            pred_arc: Option::Some((v, j)),
            hops: hv + 1,
        };
        queue.insert(cand, w);
        proof {
            relax_update_facts(
                &mid,
                self,
                qmid,
                queue@,
                src,
                ss,
                sc,
                v as int,
                j as int,
                w as int,
                du,
                cand,
            );
            assert(!mid.nodes@[w as int].settled);
            relax_ord_closed_facts(&mid, self, v as int, j as int, w as int, du, cand);
        }
    }

    /// Single-source shortest paths from `start_node` over the current arc
    /// costs, by Dijkstra's algorithm.  Requires a reset graph; fills in
    /// per-node distances, predecessor arcs and settled marks.
    #[verifier::rlimit(100)]
    pub fn compute_shortest_paths(&mut self, start_node: usize) -> (r: Result<(), Error>)
        requires
            old(self).wf(),
            old(self).is_reset(),
        ensures
            final(self).wf(),
            final(self).same_structure(old(self)),
            (start_node as int) >= old(self).n() ==> r == Result::<(), Error>::Err(
                Error::OutOfRange,
            ) && *final(self) == *old(self),
            (start_node as int) < old(self).n() ==> r == Result::<(), Error>::Ok(())
                && final(self).dijkstra_post(start_node as int),
    {
        broadcast use vstd::set::group_set_axioms;

        let n: usize = self.nodes.len();
        if start_node >= n {
            return Result::Err(Error::OutOfRange);
        }
        let nd0 = self.nodes[start_node];
        self.nodes[start_node] = Node {
            latitude: nd0.latitude,
            longitude: nd0.longitude,
            settled: false,
            distance: Option::Some(0),
            pred_arc: Option::None,
            hops: 0,
        };
        let mut queue: PriorityQueue<usize> = PriorityQueue::new();
        queue.insert(0, start_node);
        let ghost mut settled_set: Set<int> = Set::empty();
        let mut settled_count: usize = 0;
        proof {
            assert(queue@.count((0u64, start_node)) > 0);
            assert forall|v: int| 0 <= v < self.n() implies self.pred_ok(v) by {
                assert(old(self).is_reset());
            }
            assert forall|u: int| 0 <= u < self.n() implies !(#[trigger] self.nodes@[u]).settled by {
                assert(!old(self).nodes@[u].settled);
            }
        }
        while queue.size() > 0
            invariant
                n == self.n(),
                queue.wf(),
                self.dij_inv(start_node as int, queue@, settled_set, settled_count as int),
                self.ord_inv(),
                self.all_closed(),
                self.same_structure(old(self)),
            decreases n - settled_count, queue@.len(),
        {
            let ghost q_pre = queue@;
            let popped = queue.pop();
            let pe = match popped {
                Option::Some(pe) => pe,
                Option::None => {
                    proof {
                        assert(false);
                    }
                    (0u64, 0usize)
                },
            };
            let key = pe.0;
            let v = pe.1;
            proof {
                assert(q_pre.count((key, v)) > 0);
            }
            if !self.nodes[v].settled {
                let du = match self.nodes[v].distance {
                    Option::Some(d) => d,
                    Option::None => {
                        proof {
                            assert(false);
                        }
                        0u64
                    },
                };
                let ghost pre = *self;
                let nv = self.nodes[v];
                self.nodes[v] = Node {
                    latitude: nv.latitude,
                    longitude: nv.longitude,
                    settled: true,
                    distance: nv.distance,
                    pred_arc: nv.pred_arc,
                    hops: nv.hops,
                };
                proof {
                    let ghost ss_old = settled_set;
                    assert(!ss_old.contains(v as int));
                    settled_set = settled_set.insert(v as int);
                    assert(settled_set.len() == ss_old.len() + 1);
                    vstd::set_lib::lemma_int_range(0, n as int);
                    assert(settled_set.subset_of(vstd::set_lib::set_int_range(0, n as int)));
                    vstd::set_lib::lemma_len_subset(
                        settled_set,
                        vstd::set_lib::set_int_range(0, n as int),
                    );
                    assert(pre.nodes@[v as int].distance == Option::Some(du));
                    // tentative entries of other nodes survive the pop
                    assert forall|z: int|
                        0 <= z < n && !(#[trigger] self.nodes@[z]).settled
                            && self.nodes@[z].distance is Some implies queue@.count(
                        (self.nodes@[z].distance->0, z as usize),
                    ) > 0 by {
                        assert(z != v as int);
                        assert((self.nodes@[z].distance->0, z as usize) != (key, v));
                    }
                    if v as int != start_node as int {
                        assert(pre.nodes@[v as int].pred_arc is Some);
                        assert(self.nodes@[v as int].hops <= settled_count);
                    }
                    assert forall|z: int| 0 <= z < n implies self.pred_ok(z) by {
                        assert(pre.pred_ok(z));
                        assert(self.nodes@[z].pred_arc == pre.nodes@[z].pred_arc);
                    }
                    assert forall|z: int|
                        0 <= z < n implies (settled_set.contains(z) <==> (
                    #[trigger] self.nodes@[z]).settled) by {
                        if z != v as int {
                            assert(self.nodes@[z] == pre.nodes@[z]);
                            assert(ss_old.contains(z) <==> pre.nodes@[z].settled);
                        }
                    }
                    assert forall|u: int|
                        0 <= u < n
                            && (#[trigger] self.nodes@[u]).settled implies self.nodes@[u].hops < settled_count
                        + 1 by {
                        if u == v as int {
                            if u == start_node as int {
                                assert(self.nodes@[u].hops == 0);
                            } else {
                                assert(self.nodes@[u].hops <= settled_count);
                            }
                        } else {
                            assert(pre.nodes@[u].settled);
                            assert(pre.nodes@[u].hops < settled_count);
                        }
                    }
                    assert forall|z: int|
                        0 <= z < n && (#[trigger] self.nodes@[z]).pred_arc is Some implies {
                        let p = self.nodes@[z].pred_arc->0;
                        &&& self.nodes@[z].distance->0 == self.nodes@[p.0 as int].distance->0
                            + self.adj()[p.0 as int][p.1 as int].cost
                        &&& self.nodes@[p.0 as int].settled
                        &&& self.nodes@[z].hops <= settled_count + 1
                    } by {
                        let p = self.nodes@[z].pred_arc->0;
                        assert(pre.nodes@[z].pred_arc is Some);
                        assert(pre.pred_ok(z));
                        assert((p.0 as int) < n);
                        assert(pre.nodes@[p.0 as int].settled);
                        assert(self.nodes@[z].distance == pre.nodes@[z].distance);
                        assert(self.nodes@[p.0 as int].distance == pre.nodes@[p.0 as int].distance);
                        assert(self.nodes@[p.0 as int].settled);
                    }
                    assert forall|e: (u64, usize)| #[trigger] queue@.count(e) > 0 implies (e.1
                        as int) < n && self.nodes@[e.1 as int].distance is Some && self.nodes@[
                        e.1 as int].distance->0 <= e.0 by {
                        assert(q_pre.count(e) > 0);
                        assert(self.nodes@[e.1 as int].distance == pre.nodes@[e.1 as int].distance);
                    }
                    // the popped key is minimal, so the fresh settled
                    // distance sits below every remaining tentative one
                    assert(pre.nodes@[v as int].distance->0 <= key);
                    assert forall|z: int|
                        0 <= z < n && !(#[trigger] self.nodes@[z]).settled
                            && self.nodes@[z].distance is Some implies du <= self.nodes@[
                        z].distance->0 by {
                        assert(self.nodes@[z] == pre.nodes@[z]);
                        assert(q_pre.count((pre.nodes@[z].distance->0, z as usize)) > 0);
                        assert(q_pre.contains((pre.nodes@[z].distance->0, z as usize)));
                        assert(key <= pre.nodes@[z].distance->0);
                    }
                    assert forall|u: int|
                        0 <= u < n
                            && (#[trigger] self.nodes@[u]).settled implies self.nodes@[
                        u].distance->0 <= du by {
                        if u != v as int {
                            assert(pre.nodes@[u].settled);
                            assert(!pre.nodes@[v as int].settled);
                            assert(pre.nodes@[u].distance->0 <= pre.nodes@[v as int].distance->0);
                        }
                    }
                    assert forall|x: int, z: int|
                        0 <= x < n && 0 <= z < n && (#[trigger] self.nodes@[x]).settled
                            && !(#[trigger] self.nodes@[z]).settled
                            && self.nodes@[z].distance is Some implies self.nodes@[x].distance->0
                        <= self.nodes@[z].distance->0 by {
                        if x == v as int {
                            assert(du <= self.nodes@[z].distance->0);
                        } else {
                            assert(pre.nodes@[x].settled);
                            assert(!pre.nodes@[z].settled);
                        }
                    }
                    assert forall|u: int|
                        0 <= u < n && (#[trigger] self.nodes@[u]).settled && u
                            != v as int implies self.closed_arcs(
                        u,
                        self.adj()[u].len() as int,
                    ) by {
                        assert(pre.nodes@[u].settled);
                        assert(pre.closed_arcs(u, pre.adj()[u].len() as int));
                        lemma_closed_preserved(self, &pre, u, pre.adj()[u].len() as int, v as int);
                    }
                    assert(self.closed_arcs(v as int, 0));
                }
                settled_count += 1;
                let deg: usize = self.adjacency_lists[v].len();
                let mut j: usize = 0;
                while j < deg
                    invariant
                        n == self.n(),
                        queue.wf(),
                        self.dij_inv(
                            start_node as int,
                            queue@,
                            settled_set,
                            settled_count as int,
                        ),
                        self.same_structure(old(self)),
                        (v as int) < n,
                        self.nodes@[v as int].settled,
                        self.nodes@[v as int].distance == Option::Some(du),
                        j <= deg == self.adj()[v as int].len(),
                        self.ord_inv(),
                        forall|u: int|
                            0 <= u < n && (#[trigger] self.nodes@[u]).settled
                                ==> self.nodes@[u].distance->0 <= du,
                        forall|u: int|
                            0 <= u < n && (#[trigger] self.nodes@[u]).settled && u != v as int
                                ==> self.closed_arcs(u, self.adj()[u].len() as int),
                        self.closed_arcs(v as int, j as int),
                    decreases deg - j,
                {
                    self.relax_arc(
                        &mut queue,
                        v,
                        j,
                        du,
                        Ghost(start_node as int),
                        Ghost(settled_set),
                        Ghost(settled_count as int),
                    );
                    j += 1;
                }
                proof {
                    assert forall|u: int|
                        0 <= u < n
                            && (#[trigger] self.nodes@[u]).settled implies self.closed_arcs(
                        u,
                        self.adj()[u].len() as int,
                    ) by {
                        if u == v as int {
                            assert(self.closed_arcs(v as int, deg as int));
                        }
                    }
                }
            }
        }
        proof {
            assert forall|v: int|
                0 <= v < n
                    && (#[trigger] self.nodes@[v]).distance is Some implies self.nodes@[v].settled by {
                if !self.nodes@[v].settled {
                    assert(queue@.count((self.nodes@[v].distance->0, v as usize)) > 0);
                    assert(queue@.len() > 0);
                }
            }
            assert forall|v: int|
                0 <= v < n
                    && (#[trigger] self.nodes@[v]).distance is Some implies self.closed_arcs(
                v,
                self.adj()[v].len() as int,
            ) by {
                assert(self.nodes@[v].settled);
            }
        }
        Result::Ok(())
    }
}

/// Addition that sticks at `u64::MAX`.
pub open spec fn sat_add(a: int, b: int) -> int {
    if a + b > u64::MAX {
        u64::MAX as int
    } else {
        a + b
    }
}

impl Graph {
    /// Total raw distance and travel time (under `cap`) of the predecessor
    /// chain of `v`, saturating at `u64::MAX`.
    pub open spec fn chain_sums(&self, v: int, cap: u64, fuel: nat) -> (int, int)
        decreases fuel,
    {
        if fuel == 0 {
            (0, 0)
        } else {
            match self.nodes@[v].pred_arc {
                Option::None => (0, 0),
                Option::Some(p) => {
                    let a = self.adj()[p.0 as int][p.1 as int];
                    let rest = self.chain_sums(p.0 as int, cap, (fuel - 1) as nat);
                    (
                        sat_add(rest.0, a.distance as int),
                        sat_add(
                            rest.1,
                            crate::graph::travel_cost_ms(
                                a.distance,
                                crate::graph::eff_speed(a.max_speed, cap),
                            ) as int,
                        ),
                    )
                },
            }
        }
    }

    /// Once the fuel covers the chain length, more fuel changes nothing.
    proof fn lemma_chain_fuel(&self, v: int, cap: u64, f1: nat, f2: nat)
        requires
            self.wf(),
            0 <= v < self.n(),
            f1 > self.nodes@[v].hops,
            f2 > self.nodes@[v].hops,
        ensures
            self.chain_sums(v, cap, f1) == self.chain_sums(v, cap, f2),
        decreases self.nodes@[v].hops,
    {
        match self.nodes@[v].pred_arc {
            Option::None => {},
            Option::Some(p) => {
                assert(self.pred_ok(v));
                self.lemma_chain_fuel(p.0 as int, cap, (f1 - 1) as nat, (f2 - 1) as nat);
            },
        }
    }

    /// Distance in meters and travel time in milliseconds along the
    /// recorded path to `end_node`, the time computed from the raw arc data
    /// under the caller's speed cap, never from the stored search costs.
    /// Both totals saturate at `u64::MAX`.
    pub fn travel_to(&self, end_node: usize, max_speed: u64) -> (r: Result<(u64, u64), Error>)
        requires
            self.wf(),
            max_speed >= 1,
        ensures
            (end_node as int) >= self.n() ==> r == Result::<(u64, u64), Error>::Err(
                Error::OutOfRange,
            ),
            (end_node as int) < self.n() && self.nodes@[end_node as int].distance is None ==> r
                == Result::<(u64, u64), Error>::Err(Error::NoPath),
            (end_node as int) < self.n() && self.nodes@[end_node as int].distance is Some ==> {
                let t = self.chain_sums(end_node as int, max_speed, (self.n() + 1) as nat);
                r == Result::<(u64, u64), Error>::Ok(((t.0 as u64), (t.1 as u64)))
            },
    {
        let n: usize = self.nodes.len();
        if end_node >= n {
            return Result::Err(Error::OutOfRange);
        }
        match self.nodes[end_node].distance {
            Option::None => {
                return Result::Err(Error::NoPath);
            },
            Option::Some(_) => {},
        }
        let ghost fuel = (self.n() + 1) as nat;
        let mut distance: u64 = 0;
        let mut time: u64 = 0;
        let mut cur: usize = end_node;
        let ghost target = self.chain_sums(end_node as int, max_speed, fuel);
        proof {
            assert(sat_add(0, target.0) == target.0 && sat_add(0, target.1) == target.1) by {
                lemma_chain_nonneg(self, end_node as int, max_speed, fuel);
            }
        }
        loop
            invariant_except_break
                self.wf(),
                max_speed >= 1,
                (cur as int) < self.n(),
                n == self.n(),
                fuel == (self.n() + 1) as nat,
                target == self.chain_sums(end_node as int, max_speed, fuel),
                sat_add(
                    distance as int,
                    self.chain_sums(cur as int, max_speed, fuel).0,
                ) == target.0,
                sat_add(time as int, self.chain_sums(cur as int, max_speed, fuel).1) == target.1,
            ensures
                distance == target.0 && time == target.1,
            decreases self.nodes@[cur as int].hops,
        {
            let pa = self.nodes[cur].pred_arc;
            match pa {
                Option::None => {
                    proof {
                        assert(self.chain_sums(cur as int, max_speed, fuel).0 == 0);
                        assert(self.chain_sums(cur as int, max_speed, fuel).1 == 0);
                    }
                    break ;
                },
                Option::Some(p) => {
                    proof {
                        assert(self.pred_ok(cur as int));
                    }
                    let u = p.0;
                    let k = p.1;
                    let arc = self.adjacency_lists[u][k];
                    proof {
                        assert(arc == self.adj()[u as int][k as int]);
                    }
                    let sp: u64 = if (arc.max_speed as u64) < max_speed {
                        arc.max_speed as u64
                    } else {
                        max_speed
                    };
                    let leg_t: u64 = if sp == 0 {
                        u64::MAX
                    } else {
                        (arc.distance as u64) * 3600 / sp
                    };
                    let ghost rest = self.chain_sums(u as int, max_speed, (fuel - 1) as nat);
                    let ghost d0 = distance;
                    let ghost t0 = time;
                    proof {
                        assert(self.nodes@[u as int].hops < self.nodes@[cur as int].hops);
                        assert(self.nodes@[cur as int].hops <= self.n());
                        self.lemma_chain_fuel(u as int, max_speed, (fuel - 1) as nat, fuel);
                        lemma_chain_nonneg(self, u as int, max_speed, (fuel - 1) as nat);
                        assert(self.chain_sums(cur as int, max_speed, fuel).0 == sat_add(
                            rest.0,
                            arc.distance as int,
                        ));
                        assert(self.chain_sums(cur as int, max_speed, fuel).1 == sat_add(
                            rest.1,
                            crate::graph::travel_cost_ms(
                                arc.distance,
                                crate::graph::eff_speed(arc.max_speed, max_speed),
                            ) as int,
                        ));
                        assert(leg_t == crate::graph::travel_cost_ms(
                            arc.distance,
                            crate::graph::eff_speed(arc.max_speed, max_speed),
                        ));
                        lemma_sat_rearrange(d0 as int, rest.0, arc.distance as int);
                        lemma_sat_rearrange(t0 as int, rest.1, leg_t as int);
                    }
                    distance = if distance > u64::MAX - arc.distance as u64 {
                        u64::MAX
                    } else {
                        distance + arc.distance as u64
                    };
                    time = if time > u64::MAX - leg_t {
                        u64::MAX
                    } else {
                        time + leg_t
                    };
                    cur = u;
                    proof {
                        assert(distance as int == sat_add(d0 as int, arc.distance as int));
                        assert(time as int == sat_add(t0 as int, leg_t as int));
                        assert(self.chain_sums(cur as int, max_speed, fuel) == rest);
                        assert(sat_add(distance as int, rest.0) == sat_add(
                            d0 as int,
                            sat_add(rest.0, arc.distance as int),
                        ));
                        assert(sat_add(time as int, rest.1) == sat_add(
                            t0 as int,
                            sat_add(rest.1, leg_t as int),
                        ));
                    }
                },
            }
        }
        Result::Ok((distance, time))
    }

    /// The node with the greatest recorded distance, with that distance;
    /// ties go to the lowest id, and a graph without a positive distance
    /// reports node zero at distance zero.
    pub fn get_furthest_node(&self) -> (r: (u64, usize))
        requires
            self.wf(),
        ensures
            forall|v: int|
                0 <= v < self.n() && (#[trigger] self.nodes@[v]).distance is Some
                    ==> self.nodes@[v].distance->0 <= r.0,
            r.0 > 0 ==> (r.1 as int) < self.n() && self.nodes@[r.1 as int].distance
                == Option::Some(r.0),
            r.0 > 0 ==> forall|v: int|
                0 <= v < r.1 as int ==> (#[trigger] self.nodes@[v]).distance != Option::Some(r.0),
            r.0 == 0 ==> r.1 == 0,
    {
        let n: usize = self.nodes.len();
        let mut best: u64 = 0;
        let mut best_id: usize = 0;
        let mut v: usize = 0;
        while v < n
            invariant
                v <= n,
                n == self.n(),
                self.wf(),
                forall|x: int|
                    0 <= x < v && (#[trigger] self.nodes@[x]).distance is Some
                        ==> self.nodes@[x].distance->0 <= best,
                best > 0 ==> (best_id as int) < n && self.nodes@[best_id as int].distance
                    == Option::Some(best),
                best > 0 ==> forall|x: int|
                    0 <= x < best_id as int ==> (#[trigger] self.nodes@[x]).distance
                        != Option::Some(best),
                best == 0 ==> best_id == 0,
            decreases n - v,
        {
            match self.nodes[v].distance {
                Option::Some(d) => {
                    if d > best {
                        best = d;
                        best_id = v;
                    }
                },
                Option::None => {},
            }
            v += 1;
        }
        (best, best_id)
    }
}

/// Chain sums never go negative or past the saturation point.
proof fn lemma_chain_nonneg(g: &Graph, v: int, cap: u64, fuel: nat)
    ensures
        0 <= g.chain_sums(v, cap, fuel).0 <= u64::MAX,
        0 <= g.chain_sums(v, cap, fuel).1 <= u64::MAX,
    decreases fuel,
{
    if fuel > 0 {
        match g.nodes@[v].pred_arc {
            Option::None => {},
            Option::Some(p) => {
                lemma_chain_nonneg(g, p.0 as int, cap, (fuel - 1) as nat);
            },
        }
    }
}

/// Saturating addition over non-negative values can take either addend
/// first.
proof fn lemma_sat_rearrange(a: int, b: int, c: int)
    requires
        0 <= a <= u64::MAX,
        0 <= b <= u64::MAX,
        0 <= c <= u64::MAX,
    ensures
        sat_add(sat_add(a, c), b) == sat_add(a, sat_add(b, c)),
{
}

/// The character for one decimal digit value.
pub open spec fn digit_ch(d: int) -> char {
    if d == 0 {
        '0'
    } else if d == 1 {
        '1'
    } else if d == 2 {
        '2'
    } else if d == 3 {
        '3'
    } else if d == 4 {
        '4'
    } else if d == 5 {
        '5'
    } else if d == 6 {
        '6'
    } else if d == 7 {
        '7'
    } else if d == 8 {
        '8'
    } else {
        '9'
    }
}

/// Decimal digits of `n`, most significant first.
pub open spec fn dec_digits(n: int) -> Seq<char>
    decreases n,
    when n >= 0
{
    if n < 10 {
        seq![digit_ch(n)]
    } else {
        dec_digits(n / 10).push(digit_ch(n % 10))
    }
}

/// A coordinate in `1e-7` degree units rendered with four decimal places,
/// rounding half away from zero.
pub open spec fn coord_text(v: i64) -> Seq<char> {
    let a = if v < 0 {
        -(v as int)
    } else {
        v as int
    };
    let r = (a + 500) / 1000;
    let sign: Seq<char> = if v < 0 {
        seq!['-']
    } else {
        Seq::empty()
    };
    let frac = dec_digits(r % 10000);
    let pad = Seq::new((4 - frac.len()) as nat, |i: int| '0');
    sign + dec_digits(r / 10000) + seq!['.'] + pad + frac
}

/// `"<lon>,<lat>"` for one node.
pub open spec fn node_text(g: &Graph, v: int) -> Seq<char> {
    coord_text(g.nodes@[v].longitude) + seq![','] + coord_text(g.nodes@[v].latitude)
}

/// The decimated polyline of the predecessor chain from `v` backward,
/// with `idx` nodes already walked: every tenth node's `"<lon>,<lat>"`
/// plus the chain's far end, space-separated.
pub open spec fn mapbb_chain(g: &Graph, v: int, idx: int, fuel: nat) -> Seq<char>
    decreases fuel,
{
    let here: Seq<char> = if idx % 10 == 0 {
        (if idx > 0 {
            seq![' ']
        } else {
            Seq::empty()
        }) + node_text(g, v)
    } else {
        Seq::empty()
    };
    let fin: Seq<char> = here + (if idx % 10 != 0 {
        seq![' '] + node_text(g, v)
    } else {
        Seq::empty()
    });
    if fuel == 0 {
        fin
    } else {
        match g.nodes@[v].pred_arc {
            Option::None => fin,
            Option::Some(p) => here + mapbb_chain(g, p.0 as int, idx + 1, (fuel - 1) as nat),
        }
    }
}

fn digits_of(n: u64) -> (r: Vec<char>)
    ensures
        r@ == dec_digits(n as int),
    decreases n,
{
    if n < 10 {
        let c = digit_char_of((n % 10) as u8);
        let mut v: Vec<char> = Vec::new();
        v.push(c);
        proof {
            assert(v@ =~= seq![digit_ch(n as int)]);
        }
        v
    } else {
        let mut v = digits_of(n / 10);
        let c = digit_char_of((n % 10) as u8);
        v.push(c);
        v
    }
}

fn digit_char_of(d: u8) -> (c: char)
    requires
        d < 10,
    ensures
        c == digit_ch(d as int),
{
    if d == 0 {
        '0'
    } else if d == 1 {
        '1'
    } else if d == 2 {
        '2'
    } else if d == 3 {
        '3'
    } else if d == 4 {
        '4'
    } else if d == 5 {
        '5'
    } else if d == 6 {
        '6'
    } else if d == 7 {
        '7'
    } else if d == 8 {
        '8'
    } else {
        '9'
    }
}

/// Appends `coord_text(v)` to `out`.
fn push_coord(out: &mut Vec<char>, v: i64)
    ensures
        final(out)@ == old(out)@ + coord_text(v),
{
    let ghost o0 = out@;
    let a: u64 = if v < 0 {
        (-(v as i128)) as u64
    } else {
        v as u64
    };
    let r: u64 = (a + 500) / 1000;
    if v < 0 {
        out.push('-');
    }
    let mut ip = digits_of(r / 10000);
    out.append(&mut ip);
    out.push('.');
    let mut frac = digits_of(r % 10000);
    proof {
        assert(crate::text::pow10(4) == 10000) by {
            assert(crate::text::pow10(0) == 1);
            assert(crate::text::pow10(1) == 10);
            assert(crate::text::pow10(2) == 100);
            assert(crate::text::pow10(3) == 1000);
            assert(crate::text::pow10(4) == 10000);
        }
        lemma_dec_digits_len(r as int % 10000, 4);
    }
    let mut pad: usize = 4 - frac.len();
    while pad > 0
        invariant
            out@ == o0 + (if v < 0 {
                seq!['-']
            } else {
                Seq::<char>::empty()
            }) + dec_digits(r as int / 10000) + seq!['.'] + Seq::new(
                (4 - frac@.len() - pad) as nat,
                |i: int| '0',
            ),
            pad + frac@.len() <= 4,
            frac@ == dec_digits(r as int % 10000),
        decreases pad,
    {
        let ghost before = out@;
        out.push('0');
        pad -= 1;
        proof {
            assert(out@ =~= o0 + (if v < 0 {
                seq!['-']
            } else {
                Seq::<char>::empty()
            }) + dec_digits(r as int / 10000) + seq!['.'] + Seq::new(
                (4 - frac@.len() - pad) as nat,
                |i: int| '0',
            ));
        }
    }
    out.append(&mut frac);
    proof {
        assert(out@ =~= o0 + coord_text(v));
    }
}

/// A value below `10^k` renders to at most `k` digits.
proof fn lemma_dec_digits_len(n: int, k: nat)
    requires
        k >= 1,
        0 <= n < crate::text::pow10(k),
    ensures
        1 <= dec_digits(n).len() <= k,
    decreases k,
{
    if n >= 10 {
        assert(crate::text::pow10(k) == 10 * crate::text::pow10((k - 1) as nat));
        lemma_dec_digits_len(n / 10, (k - 1) as nat);
    }
}

impl Graph {
    /// Appends the decimated polyline of the path into `end_node`: every
    /// tenth node of the predecessor chain and both chain ends, as
    /// `"<lon>,<lat>"` tokens with four decimals, space-separated.
    #[verifier::rlimit(100)]
    pub fn generate_mapbb(&self, out: &mut String, end_node: usize)
        requires
            self.wf(),
            (end_node as int) < self.n(),
        ensures
            final(out)@ == old(out)@ + mapbb_chain(
                self,
                end_node as int,
                0,
                self.nodes@[end_node as int].hops as nat,
            ),
    {
        let mut cur = end_node;
        let mut idx: usize = 0;
        let h0 = self.nodes[end_node].hops;
        let ghost fuel = h0 as nat;
        let mut text: Vec<char> = Vec::new();
        loop
            invariant_except_break
                self.wf(),
                (cur as int) < self.n(),
                fuel == h0 as nat,
                idx + self.nodes@[cur as int].hops as int <= fuel,
                text@ + mapbb_chain(
                    self,
                    cur as int,
                    idx as int,
                    (fuel - idx) as nat,
                ) == mapbb_chain(self, end_node as int, 0, fuel),
            ensures
                text@ == mapbb_chain(self, end_node as int, 0, fuel),
            decreases self.nodes@[cur as int].hops,
        {
            let ghost t0 = text@;
            let ghost hops_cur = self.nodes@[cur as int].hops as nat;
            let ghost fleft = (fuel - idx) as nat;
            if idx % 10 == 0 {
                if idx != 0 {
                    text.push(' ');
                }
                push_coord(&mut text, self.nodes[cur].longitude);
                text.push(',');
                push_coord(&mut text, self.nodes[cur].latitude);
            }
            proof {
                let here: Seq<char> = if idx as int % 10 == 0 {
                    (if idx > 0 {
                        seq![' ']
                    } else {
                        Seq::<char>::empty()
                    }) + node_text(self, cur as int)
                } else {
                    Seq::<char>::empty()
                };
                assert(text@ =~= t0 + here);
            }
            match self.nodes[cur].pred_arc {
                Option::None => {
                    if idx % 10 != 0 {
                        let ghost t1 = text@;
                        text.push(' ');
                        push_coord(&mut text, self.nodes[cur].longitude);
                        text.push(',');
                        push_coord(&mut text, self.nodes[cur].latitude);
                        proof {
                            assert(text@ =~= t1 + (seq![' '] + node_text(self, cur as int)));
                        }
                    }
                    proof {
                        assert(text@ =~= t0 + mapbb_chain(self, cur as int, idx as int, fleft));
                        assert(text@ =~= mapbb_chain(self, end_node as int, 0, fuel));
                    }
                    break ;
                },
                Option::Some(p) => {
                    proof {
                        assert(self.pred_ok(cur as int));
                        assert(hops_cur > 0);
                        assert(fleft > 0);
                    }
                    let u = p.0;
                    proof {
                        assert(self.nodes@[u as int].hops < hops_cur);
                        assert(mapbb_chain(self, cur as int, idx as int, fleft) == (if idx
                            as int % 10 == 0 {
                            (if idx > 0 {
                                seq![' ']
                            } else {
                                Seq::<char>::empty()
                            }) + node_text(self, cur as int)
                        } else {
                            Seq::<char>::empty()
                        }) + mapbb_chain(self, u as int, idx + 1, (fleft - 1) as nat));
                        assert((t0 + (if idx as int % 10 == 0 {
                            (if idx > 0 {
                                seq![' ']
                            } else {
                                Seq::<char>::empty()
                            }) + node_text(self, cur as int)
                        } else {
                            Seq::<char>::empty()
                        })) + mapbb_chain(
                            self,
                            u as int,
                            idx + 1,
                            (fleft - 1) as nat,
                        ) =~= mapbb_chain(self, end_node as int, 0, fuel));
                    }
                    cur = u;
                    idx += 1;
                },
            }
        }
        let rendered = crate::text::string_of(&text);
        out.append(rendered.as_str());
    }
}

impl Graph {
    /// `p` is a path of arc references from `src` to `dst`: entry `i` names
    /// arc `p[i].1` of node `p[i].0`, the first tail is `src`, each arc's
    /// head is the next entry's tail, and the last head is `dst`; the empty
    /// path stands at `src`.
    pub open spec fn is_arc_path(&self, p: Seq<(int, int)>, src: int, dst: int) -> bool {
        &&& 0 <= src < self.n()
        &&& forall|i: int|
            0 <= i < p.len() ==> {
                let e = #[trigger] p[i];
                &&& 0 <= e.0 < self.n()
                &&& 0 <= e.1 < self.adj()[e.0].len()
                &&& e.0 == (if i == 0 {
                    src
                } else {
                    self.adj()[p[i - 1].0][p[i - 1].1].head_node_id as int
                })
            }
        &&& dst == (if p.len() == 0 {
            src
        } else {
            self.adj()[p.last().0][p.last().1].head_node_id as int
        })
    }

    /// Total cost of a path of arc references under the current cost model.
    pub open spec fn path_cost(&self, p: Seq<(int, int)>) -> int
        decreases p.len(),
    {
        if p.len() == 0 {
            0
        } else {
            self.path_cost(p.drop_last()) + self.adj()[p.last().0][p.last().1].cost
        }
    }

    proof fn lemma_path_cost_nonneg(&self, p: Seq<(int, int)>)
        ensures
            self.path_cost(p) >= 0,
        decreases p.len(),
    {
        if p.len() > 0 {
            self.lemma_path_cost_nonneg(p.drop_last());
        }
    }

    /// Minimality half of Dijkstra correctness: after a finished run, no
    /// path from the source undercuts a recorded distance, and the
    /// destination of any path whose cost is representable holds one.
    pub proof fn lemma_distance_minimal(&self, src: int, p: Seq<(int, int)>, dst: int)
        requires
            self.wf(),
            self.dijkstra_post(src),
            self.is_arc_path(p, src, dst),
            self.path_cost(p) <= u64::MAX,
        ensures
            0 <= dst < self.n(),
            self.nodes@[dst].distance is Some,
            self.nodes@[dst].distance->0 <= self.path_cost(p),
        decreases p.len(),
    {
        if p.len() == 0 {
            assert(dst == src);
        } else {
            let e = p.last();
            let pre = p.drop_last();
            let u = e.0;
            assert(e == p[p.len() - 1]);
            assert(self.is_arc_path(pre, src, u)) by {
                assert forall|i: int|
                    0 <= i < pre.len() implies {
                    let e2 = #[trigger] pre[i];
                    &&& 0 <= e2.0 < self.n()
                    &&& 0 <= e2.1 < self.adj()[e2.0].len()
                    &&& e2.0 == (if i == 0 {
                        src
                    } else {
                        self.adj()[pre[i - 1].0][pre[i - 1].1].head_node_id as int
                    })
                } by {
                    assert(pre[i] == p[i]);
                    if i > 0 {
                        assert(pre[i - 1] == p[i - 1]);
                    }
                }
                if pre.len() == 0 {
                    assert(u == src);
                } else {
                    assert(pre.last() == p[p.len() - 2]);
                }
            }
            let arc = self.adj()[u][e.1];
            assert(arc.cost >= 0);
            self.lemma_path_cost_nonneg(pre);
            self.lemma_distance_minimal(src, pre, u);
            let h = arc.head_node_id as int;
            assert(dst == h);
            if h == u {
                assert(self.nodes@[dst].distance->0 <= self.path_cost(pre));
            } else {
                assert(self.closed_arcs(u, self.adj()[u].len() as int));
                assert(self.nodes@[u].distance->0 + arc.cost <= self.path_cost(pre) + arc.cost);
                assert(self.path_cost(p) == self.path_cost(pre) + arc.cost);
                assert(self.adj()[u][e.1] == arc);
            }
        }
    }

    /// Soundness half of Dijkstra correctness: every recorded distance is
    /// realized by a concrete path, read off the predecessor chain.
    pub proof fn lemma_distance_achieved(&self, src: int, dst: int) -> (p: Seq<(int, int)>)
        requires
            self.wf(),
            self.dijkstra_post(src),
            0 <= dst < self.n(),
            self.nodes@[dst].distance is Some,
        ensures
            self.is_arc_path(p, src, dst),
            self.path_cost(p) == self.nodes@[dst].distance->0,
        decreases self.nodes@[dst].hops,
    {
        if dst == src {
            let p = Seq::<(int, int)>::empty();
            assert(self.is_arc_path(p, src, dst));
            p
        } else {
            assert(self.nodes@[dst].pred_arc is Some);
            let pr = self.nodes@[dst].pred_arc->0;
            let u = pr.0 as int;
            let k = pr.1 as int;
            assert(self.pred_ok(dst));
            assert(self.nodes@[u].hops < self.nodes@[dst].hops);
            let p0 = self.lemma_distance_achieved(src, u);
            let p = p0.push((u, k));
            assert(p.drop_last() =~= p0);
            assert(p.last() == (u, k));
            assert(self.is_arc_path(p, src, dst)) by {
                assert forall|i: int|
                    0 <= i < p.len() implies {
                    let e = #[trigger] p[i];
                    &&& 0 <= e.0 < self.n()
                    &&& 0 <= e.1 < self.adj()[e.0].len()
                    &&& e.0 == (if i == 0 {
                        src
                    } else {
                        self.adj()[p[i - 1].0][p[i - 1].1].head_node_id as int
                    })
                } by {
                    if i < p0.len() {
                        assert(p[i] == p0[i]);
                        if i > 0 {
                            assert(p[i - 1] == p0[i - 1]);
                        }
                    } else {
                        assert(p[i] == (u, k));
                        if p0.len() == 0 {
                            assert(u == src);
                        } else {
                            assert(p[i - 1] == p0[p0.len() - 1]);
                            assert(p0.last() == p0[p0.len() - 1]);
                            assert(self.adj()[p0.last().0][p0.last().1].head_node_id as int == u);
                        }
                    }
                }
                assert(self.adj()[u][k].head_node_id as int == dst);
            }
            assert(self.path_cost(p) == self.path_cost(p0) + self.adj()[u][k].cost);
            p
        }
    }
}

/// Paths and their costs depend only on the adjacency structure, so they
/// transfer between graphs that share it.
proof fn lemma_path_transfer(a: &Graph, b: &Graph, p: Seq<(int, int)>, src: int, dst: int)
    requires
        a.adj() == b.adj(),
        a.nodes@.len() == b.nodes@.len(),
        a.is_arc_path(p, src, dst),
    ensures
        b.is_arc_path(p, src, dst),
        b.path_cost(p) == a.path_cost(p),
    decreases p.len(),
{
    assert(b.n() == a.n());
    if p.len() > 0 {
        let pre = p.drop_last();
        assert(a.is_arc_path(pre, src, (if pre.len() == 0 {
            src
        } else {
            a.adj()[pre.last().0][pre.last().1].head_node_id as int
        }))) by {
            assert forall|i: int|
                0 <= i < pre.len() implies {
                let e = #[trigger] pre[i];
                &&& 0 <= e.0 < a.n()
                &&& 0 <= e.1 < a.adj()[e.0].len()
                &&& e.0 == (if i == 0 {
                    src
                } else {
                    a.adj()[pre[i - 1].0][pre[i - 1].1].head_node_id as int
                })
            } by {
                assert(pre[i] == p[i]);
                if i > 0 {
                    assert(pre[i - 1] == p[i - 1]);
                }
            }
            if pre.len() > 0 {
                assert(pre.last() == p[p.len() - 2]);
            }
        }
        lemma_path_transfer(
            a,
            b,
            pre,
            src,
            (if pre.len() == 0 {
                src
            } else {
                a.adj()[pre.last().0][pre.last().1].head_node_id as int
            }),
        );
    }
}

/// One run's distances dominate another's over the same structure.
proof fn lemma_dist_dominates(a: &Graph, b: &Graph, src: int, v: int)
    requires
        a.wf(),
        b.wf(),
        a.dijkstra_post(src),
        b.dijkstra_post(src),
        a.adj() == b.adj(),
        a.nodes@.len() == b.nodes@.len(),
        0 <= v < a.n(),
        a.nodes@[v].distance is Some,
    ensures
        b.nodes@[v].distance is Some,
        b.nodes@[v].distance->0 <= a.nodes@[v].distance->0,
{
    let p = a.lemma_distance_achieved(src, v);
    lemma_path_transfer(a, b, p, src, v);
    b.lemma_distance_minimal(src, p, v);
}

/// Determinism of the finished search: two runs from one source over the
/// same nodes and arcs record the same distance at every node, whatever
/// order equal keys were drained in.
pub proof fn lemma_runs_agree(a: &Graph, b: &Graph, src: int)
    requires
        a.wf(),
        b.wf(),
        a.dijkstra_post(src),
        b.dijkstra_post(src),
        a.same_structure(b),
    ensures
        forall|v: int|
            0 <= v < a.n() ==> (#[trigger] a.nodes@[v]).distance == b.nodes@[v].distance,
{
    assert forall|v: int|
        0 <= v < a.n() implies (#[trigger] a.nodes@[v]).distance == b.nodes@[v].distance by {
        if a.nodes@[v].distance is Some {
            lemma_dist_dominates(a, b, src, v);
            lemma_dist_dominates(b, a, src, v);
        } else {
            if b.nodes@[v].distance is Some {
                lemma_dist_dominates(b, a, src, v);
            }
        }
    }
}

} // verus!
