use std::collections::HashMap;
use std::collections::HashSet;
use std::collections::VecDeque;
use vstd::prelude::*;

verus! {

broadcast use {vstd::std_specs::hash::group_hash_axioms, vstd::seq_lib::group_seq_properties};

/// The nodes `u` with an edge `u -> v` in `edges`.
pub open spec fn predecessors(edges: Set<(usize, usize)>, v: usize) -> Set<usize> {
    Set::new(|u: usize| edges.contains((u, v)))
}

/// The nodes `w` with an edge `v -> w` in `edges`.
pub open spec fn successors(edges: Set<(usize, usize)>, v: usize) -> Set<usize> {
    Set::new(|w: usize| edges.contains((v, w)))
}

/// The predecessors of `v` that are not in `done`: the in-degree of `v`
/// once the nodes of `done` have been removed.
pub open spec fn remaining_in_degree(edges: Set<(usize, usize)>, v: usize, done: Set<usize>) -> nat {
    predecessors(edges, v).difference(done).len()
}

/// `v` has no predecessor: its in-degree is 0 in the whole graph.
pub open spec fn is_source(edges: Set<(usize, usize)>, v: usize) -> bool {
    forall|w: usize| !#[trigger] edges.contains((w, v))
}

/// `order` is a possible result of Kahn's algorithm on the graph
/// (`nodes`, `edges`): it lists distinct nodes; every listed node comes after
/// all of its predecessors; the nodes without predecessors come first (the
/// queue is first-in first-out, and they are all in it from the start);
/// and every node left out has a predecessor that is left out too (so the
/// nodes left out are exactly those on or behind a cycle).
pub open spec fn is_kahn_order(nodes: Set<usize>, edges: Set<(usize, usize)>, order: Seq<usize>) -> bool {
    &&& order.no_duplicates()
    &&& forall|i: int| 0 <= i < order.len() ==> nodes.contains(#[trigger] order[i])
    &&& forall|i: int, u: usize|
        0 <= i < order.len() && #[trigger] edges.contains((u, order[i])) ==> order.take(i).contains(u)
    &&& forall|i: int, j: int|
        #![trigger order[i], order[j]]
        0 <= i < j < order.len() && is_source(edges, order[j]) ==> is_source(edges, order[i])
    &&& forall|v: usize|
        nodes.contains(v) && !order.contains(v) ==> exists|u: usize|
            #[trigger] edges.contains((u, v)) && !order.contains(u)
}

/// Removing one more node `u` lowers the remaining in-degree of `v` by one
/// exactly when `u -> v` is an edge and `u` was not already removed.
pub proof fn lemma_remaining_in_degree_step(
    edges: Set<(usize, usize)>,
    v: usize,
    done: Set<usize>,
    u: usize,
)
    requires
        predecessors(edges, v).finite(),
        !done.contains(u),
    ensures
        remaining_in_degree(edges, v, done) == remaining_in_degree(edges, v, done.insert(u)) + (
        if edges.contains((u, v)) {
            1int
        } else {
            0int
        }),
{
    let a = predecessors(edges, v).difference(done);
    let b = predecessors(edges, v).difference(done.insert(u));
    if edges.contains((u, v)) {
        assert(a =~= b.insert(u));
    } else {
        assert(a =~= b);
    }
}

/// `rank` strictly increases along every edge.
pub open spec fn is_ranking(edges: Set<(usize, usize)>, rank: spec_fn(usize) -> int) -> bool {
    forall|u: usize, v: usize| #[trigger] edges.contains((u, v)) ==> rank(u) < rank(v)
}

/// The graph has no cycle: some ranking of the nodes increases along every
/// edge.
pub open spec fn is_acyclic(edges: Set<(usize, usize)>) -> bool {
    exists|rank: spec_fn(usize) -> int| is_ranking(edges, rank)
}

/// An element of a finite non-empty set of least rank.
proof fn lemma_least_ranked(m: Set<usize>, rank: spec_fn(usize) -> int) -> (x: usize)
    requires
        m.finite(),
        m.len() > 0,
    ensures
        m.contains(x),
        forall|y: usize| #[trigger] m.contains(y) ==> rank(x) <= rank(y),
    decreases m.len(),
{
    let a = m.choose();
    let r = m.remove(a);
    if r.len() == 0 {
        r.lemma_len0_is_empty();
        assert forall|y: usize| #[trigger] m.contains(y) implies rank(a) <= rank(y) by {
            if y != a {
                assert(r.contains(y));
            }
        }
        a
    } else {
        let b = lemma_least_ranked(r, rank);
        if rank(a) <= rank(b) {
            a
        } else {
            b
        }
    }
}

/// A directed graph over `usize` node identifiers.
///
/// `adj[u]` holds the successors of `u`, `radj[v]` the predecessors of `v`;
/// both maps have every node as a key.
pub struct DiGraph {
    adj: HashMap<usize, HashSet<usize>>,
    radj: HashMap<usize, HashSet<usize>>,
}

impl DiGraph {
    /// The set of nodes.
    pub closed spec fn nodes(&self) -> Set<usize> {
        self.adj@.dom()
    }

    /// The set of edges `(u, v)`, meaning `u -> v`.
    pub closed spec fn edges(&self) -> Set<(usize, usize)> {
        Set::new(
            |e: (usize, usize)| self.adj@.contains_key(e.0) && self.adj@[e.0]@.contains(e.1),
        )
    }

    /// The forward and reverse adjacency maps describe the same finite graph.
    pub closed spec fn wf(&self) -> bool {
        &&& self.radj@.dom() == self.adj@.dom()
        &&& forall|u: usize| #[trigger]
            self.adj@.contains_key(u) ==> self.adj@[u]@.finite() && self.radj@[u]@.finite()
        &&& forall|u: usize, v: usize|
            self.adj@.contains_key(u) && #[trigger] self.adj@[u]@.contains(v) ==> {
                &&& self.adj@.contains_key(v)
                &&& self.radj@[v]@.contains(u)
            }
        &&& forall|u: usize, v: usize|
            self.radj@.contains_key(v) && #[trigger] self.radj@[v]@.contains(u) ==> {
                &&& self.adj@.contains_key(u)
                &&& self.adj@[u]@.contains(v)
            }
    }

    /// In a well-formed graph the node set is finite and every edge joins
    /// two nodes.
    pub proof fn lemma_wf_edges(&self)
        requires
            self.wf(),
        ensures
            self.nodes().finite(),
            forall|u: usize, v: usize| #[trigger]
                self.edges().contains((u, v)) ==> self.nodes().contains(u) && self.nodes().contains(
                    v,
                ),
            forall|v: usize| #[trigger] predecessors(self.edges(), v).finite(),
            forall|v: usize| #[trigger] successors(self.edges(), v).finite(),
    {
        assert forall|v: usize| #[trigger] predecessors(self.edges(), v).finite() by {
            if self.adj@.contains_key(v) {
                assert(predecessors(self.edges(), v) =~= self.radj@[v]@);
            } else {
                assert(predecessors(self.edges(), v) =~= Set::empty());
            }
        }
        assert forall|v: usize| #[trigger] successors(self.edges(), v).finite() by {
            if self.adj@.contains_key(v) {
                assert(successors(self.edges(), v) =~= self.adj@[v]@);
            } else {
                assert(successors(self.edges(), v) =~= Set::empty());
            }
        }
    }

    /// The in-degree table and the zero-in-degree queue Kahn's algorithm
    /// starts from.
    fn initial_in_degrees(&self) -> (res: (HashMap<usize, usize>, VecDeque<usize>))
        requires
            self.wf(),
        ensures
            res.0@.dom() == self.nodes(),
            forall|v: usize| #[trigger]
                res.0@.contains_key(v) ==> res.0@[v] == predecessors(self.edges(), v).len(),
            res.1@.no_duplicates(),
            forall|v: usize|
                #[trigger] res.1@.contains(v) <==> (res.0@.contains_key(v) && res.0@[v] == 0),
    {
        let mut in_deg: HashMap<usize, usize> = HashMap::new();
        let mut queue: VecDeque<usize> = VecDeque::new();
        for v in it: self.adj.keys()
            invariant
                self.wf(),
                it.seq().unref().to_set() == self.nodes(),
                it.seq().no_duplicates(),
                in_deg@.dom() == it.seq().unref().take(it.index()).to_set(),
                it.index() == it.seq().len() ==> in_deg@.dom() == self.nodes(),
                forall|k: usize| #[trigger]
                    in_deg@.contains_key(k) ==> in_deg@[k] == predecessors(self.edges(), k).len(),
                queue@.no_duplicates(),
                forall|k: usize|
                    #[trigger] queue@.contains(k) <==> (in_deg@.contains_key(k) && in_deg@[k] == 0),
        {
            let ghost i = it.index();
            let ghost ks = it.seq().unref();
            assert(*v == ks[i]);
            assert(ks.take(i + 1) =~= ks.take(i).push(ks[i]));
            proof { ks.take(i).lemma_push_to_set_commute(ks[i]); }
            assert(ks.take(i + 1).to_set() == ks.take(i).to_set().insert(ks[i]));
            assert(!in_deg@.contains_key(*v)) by {
                if ks.take(i).contains(ks[i]) {
                    let j = choose|j: int| 0 <= j < i && ks.take(i)[j] == ks[i];
                    assert(it.seq()[j] == it.seq()[i]);
                }
            }
            let d = self.in_degree(*v);
            in_deg.insert(*v, d);
            if d == 0 {
                assert(!queue@.contains(*v));
                queue.push_back(*v);
            }
            assert(i + 1 == ks.len() ==> ks.take(i + 1) =~= ks);
        }
        (in_deg, queue)
    }

    /// Takes `u` out of the graph for Kahn's algorithm: every successor of
    /// `u` loses one from its remaining in-degree, and those that reach zero
    /// join the back of the queue.
    fn release_successors(
        &self,
        u: usize,
        in_deg: &mut HashMap<usize, usize>,
        queue: &mut VecDeque<usize>,
        Ghost(done): Ghost<Set<usize>>,
    )
        requires
            self.wf(),
            self.nodes().contains(u),
            !done.contains(u),
            old(in_deg)@.dom() == self.nodes(),
            forall|v: usize| #[trigger]
                old(in_deg)@.contains_key(v) ==> old(in_deg)@[v] == remaining_in_degree(
                    self.edges(),
                    v,
                    done,
                ),
            old(queue)@.no_duplicates(),
            forall|x: usize|
                #![trigger done.insert(u).contains(x)]
                #![trigger old(queue)@.contains(x)]
                (done.insert(u).contains(x) || old(queue)@.contains(x)) <==> (
                self.nodes().contains(x) && old(in_deg)@[x] == 0),
            forall|x: usize| #[trigger]
                old(queue)@.contains(x) ==> !done.insert(u).contains(x),
        ensures
            final(in_deg)@.dom() == self.nodes(),
            forall|v: usize| #[trigger]
                final(in_deg)@.contains_key(v) ==> final(in_deg)@[v] == remaining_in_degree(
                    self.edges(),
                    v,
                    done.insert(u),
                ),
            final(queue)@.no_duplicates(),
            forall|x: usize|
                #![trigger done.insert(u).contains(x)]
                #![trigger final(queue)@.contains(x)]
                (done.insert(u).contains(x) || final(queue)@.contains(x)) <==> (
                self.nodes().contains(x) && final(in_deg)@[x] == 0),
            forall|x: usize| #[trigger]
                final(queue)@.contains(x) ==> !done.insert(u).contains(x),
            final(queue)@.len() >= old(queue)@.len(),
            forall|k: int| 0 <= k < old(queue)@.len() ==> #[trigger] final(queue)@[k] == old(queue)@[k],
            forall|k: int|
                old(queue)@.len() <= k < final(queue)@.len() ==> self.edges().contains(
                    (u, #[trigger] final(queue)@[k]),
                ),
    {
        let ghost q0 = queue@;
        proof {
            self.lemma_wf_edges();
            assert forall|v: usize| #[trigger] in_deg@.contains_key(v) implies in_deg@[v]
                == remaining_in_degree(self.edges(), v, done.insert(u)) + (if successors(
                self.edges(),
                u,
            ).contains(v) {
                1int
            } else {
                0int
            }) by {
                lemma_remaining_in_degree_step(self.edges(), v, done, u);
            }
        }
        let ghost succ = successors(self.edges(), u);
        let ghost done_u = done.insert(u);
        match self.adj.get(&u) {
            Some(succs) => {
                assert(succs@ =~= succ);
                for v in it: succs.iter()
                    invariant
                        self.wf(),
                        succs@ == succ,
                        succ == successors(self.edges(), u),
                        done_u == done.insert(u),
                        it.seq().unref().to_set() == succ,
                        it.seq().no_duplicates(),
                        in_deg@.dom() == self.nodes(),
                        forall|w: usize| #[trigger]
                            in_deg@.contains_key(w) ==> in_deg@[w] == remaining_in_degree(
                                self.edges(),
                                w,
                                done_u,
                            ) + (if succ.contains(w) && !it.seq().unref().take(it.index()).contains(
                                w,
                            ) {
                                1int
                            } else {
                                0int
                            }),
                        it.index() == it.seq().len() ==> forall|w: usize| #[trigger]
                            in_deg@.contains_key(w) ==> in_deg@[w] == remaining_in_degree(
                                self.edges(),
                                w,
                                done_u,
                            ),
                        queue@.no_duplicates(),
                        forall|x: usize|
                            #![trigger done_u.contains(x)]
                            #![trigger queue@.contains(x)]
                            (done_u.contains(x) || queue@.contains(x)) <==> (
                            self.nodes().contains(x) && in_deg@[x] == 0),
                        forall|x: usize| #[trigger] queue@.contains(x) ==> !done_u.contains(x),
                        queue@.len() >= q0.len(),
                        forall|k: int| 0 <= k < q0.len() ==> #[trigger] queue@[k] == q0[k],
                        forall|k: int|
                            q0.len() <= k < queue@.len() ==> self.edges().contains(
                                (u, #[trigger] queue@[k]),
                            ),
                {
                    let ghost i = it.index();
                    let ghost ks = it.seq().unref();
                    assert(ks[i] == *v);
                    assert(ks.to_set().contains(ks[i]));
                    assert(!ks.take(i).contains(ks[i])) by {
                        if ks.take(i).contains(ks[i]) {
                            let j = choose|j: int| 0 <= j < i && ks.take(i)[j] == ks[i];
                            assert(it.seq()[j] == it.seq()[i]);
                        }
                    }
                    assert(ks.take(i + 1) =~= ks.take(i).push(ks[i]));
                    let d = *in_deg.get(v).unwrap();
                    in_deg.insert(*v, d - 1);
                    if d - 1 == 0 {
                        assert(!queue@.contains(*v));
                        assert(!done_u.contains(*v));
                        queue.push_back(*v);
                        assert(succ.contains(*v));
                    }
                    assert(i + 1 == ks.len() ==> ks.take(i + 1) =~= ks);
                }
            },
            None => {},
        }
    }

    /// Kahn's algorithm: repeatedly emits a node whose predecessors have
    /// all been emitted. The order lists every node exactly once when the
    /// graph has no cycle; the nodes on or behind a cycle are left out.
    pub fn topological_sort_kahn(&self) -> (order: Vec<usize>)
        requires
            self.wf(),
        ensures
            is_kahn_order(self.nodes(), self.edges(), order@),
    {
        proof {
            self.lemma_wf_edges();
        }
        let (mut in_deg, mut queue) = self.initial_in_degrees();
        let mut order: Vec<usize> = Vec::with_capacity(self.adj.len());
        proof {
            assert forall|k: int| 0 <= k < queue@.len() implies is_source(
                self.edges(),
                #[trigger] queue@[k],
            ) by {
                let x = queue@[k];
                assert(queue@.contains(x));
                assert(predecessors(self.edges(), x).len() == 0);
                predecessors(self.edges(), x).lemma_len0_is_empty();
                assert forall|w: usize| !#[trigger] self.edges().contains((w, x)) by {
                    assert(!predecessors(self.edges(), x).contains(w));
                }
            }
            assert forall|v: usize| #[trigger] in_deg@.contains_key(v) implies in_deg@[v]
                == remaining_in_degree(self.edges(), v, order@.to_set()) by {
                assert(predecessors(self.edges(), v).difference(order@.to_set()) =~= predecessors(
                    self.edges(),
                    v,
                ));
            }
        }
        while queue.len() > 0
            invariant
                self.wf(),
                self.nodes().finite(),
                forall|v: usize| #[trigger] predecessors(self.edges(), v).finite(),
                in_deg@.dom() == self.nodes(),
                forall|v: usize| #[trigger]
                    in_deg@.contains_key(v) ==> in_deg@[v] == remaining_in_degree(
                        self.edges(),
                        v,
                        order@.to_set(),
                    ),
                order@.no_duplicates(),
                order@.len() <= self.nodes().len(),
                queue@.no_duplicates(),
                forall|x: usize|
                    #![trigger order@.contains(x)]
                    #![trigger queue@.contains(x)]
                    (order@.contains(x) || queue@.contains(x)) <==> (
                    self.nodes().contains(x) && in_deg@[x] == 0),
                forall|x: usize| #[trigger] queue@.contains(x) ==> !order@.contains(x),
                forall|i: int, w: usize|
                    0 <= i < order@.len() && #[trigger] self.edges().contains((w, order@[i]))
                        ==> order@.take(i).contains(w),
                forall|i: int, j: int|
                    #![trigger order@[i], order@[j]]
                    0 <= i < j < order@.len() && is_source(self.edges(), order@[j]) ==> is_source(
                        self.edges(),
                        order@[i],
                    ),
                forall|i: int, j: int|
                    #![trigger queue@[i], queue@[j]]
                    0 <= i < j < queue@.len() && is_source(self.edges(), queue@[j]) ==> is_source(
                        self.edges(),
                        queue@[i],
                    ),
                forall|i: int, k: int|
                    #![trigger order@[i], queue@[k]]
                    0 <= i < order@.len() && 0 <= k < queue@.len() && is_source(
                        self.edges(),
                        queue@[k],
                    ) ==> is_source(self.edges(), order@[i]),
            decreases self.nodes().len() - order@.len(),
        {
            let ghost done = order@.to_set();
            let ghost old_order = order@;
            let ghost old_queue = queue@;
            let u = queue.pop_front().unwrap();
            assert(old_queue[0] == u);
            assert(old_queue.contains(u));
            assert(old_order.to_set().contains(u) == old_order.contains(u));
            assert(predecessors(self.edges(), u).difference(done) =~= Set::empty()) by {
                assert(in_deg@[u] == 0);
            }
            order.push(u);
            proof {
                assert(order@.to_set() =~= done.insert(u));
                assert(order@.take(old_order.len() as int) =~= old_order);
                assert forall|i: int, w: usize|
                    0 <= i < order@.len() && #[trigger] self.edges().contains(
                        (w, order@[i]),
                    ) implies order@.take(i).contains(w) by {
                    if i < old_order.len() {
                        assert(order@.take(i) =~= old_order.take(i));
                    } else {
                        assert(predecessors(self.edges(), u).contains(w));
                        assert(!predecessors(self.edges(), u).difference(done).contains(w));
                        assert(done.contains(w));
                        assert(old_order.contains(w));
                    }
                }
                order@.unique_seq_to_set();
                vstd::set_lib::lemma_len_subset(order@.to_set(), self.nodes());
            }
            proof {
                assert forall|x: usize| #[trigger] queue@.contains(x) implies !done.insert(
                    u,
                ).contains(x) by {
                    let k = choose|k: int| 0 <= k < queue@.len() && queue@[k] == x;
                    assert(old_queue[k + 1] == x);
                    assert(old_queue.contains(x));
                }
            }
            let ghost popped = queue@;
            self.release_successors(u, &mut in_deg, &mut queue, Ghost(done));
            proof {
                assert forall|k: int| 0 <= k < popped.len() implies #[trigger] popped[k]
                    == old_queue[k + 1] by {}
                assert forall|k: int|
                    0 <= k < queue@.len() && is_source(self.edges(), queue@[k]) implies k
                    < popped.len() by {
                    if k >= popped.len() {
                        assert(self.edges().contains((u, queue@[k])));
                    }
                }
                assert forall|i: int, j: int|
                    #![trigger queue@[i], queue@[j]]
                    0 <= i < j < queue@.len() && is_source(self.edges(), queue@[j]) implies is_source(
                        self.edges(),
                        queue@[i],
                    ) by {
                    assert(queue@[j] == old_queue[j + 1]);
                    assert(queue@[i] == old_queue[i + 1]);
                }
                assert forall|i: int, k: int|
                    #![trigger order@[i], queue@[k]]
                    0 <= i < order@.len() && 0 <= k < queue@.len() && is_source(
                        self.edges(),
                        queue@[k],
                    ) implies is_source(self.edges(), order@[i]) by {
                    assert(queue@[k] == old_queue[k + 1]);
                    assert(is_source(self.edges(), old_queue[0]));
                    if i < old_order.len() {
                        assert(order@[i] == old_order[i]);
                    }
                }
                assert forall|i: int, j: int|
                    #![trigger order@[i], order@[j]]
                    0 <= i < j < order@.len() && is_source(self.edges(), order@[j]) implies is_source(
                        self.edges(),
                        order@[i],
                    ) by {
                    assert(order@[i] == old_order[i]);
                    if j < old_order.len() {
                        assert(order@[j] == old_order[j]);
                    } else {
                        assert(order@[j] == old_queue[0]);
                    }
                }
            }
            assert forall|x: usize| #[trigger] order@.contains(x) == done.insert(u).contains(x) by {
                assert(order@.to_set().contains(x) == order@.contains(x));
            }
        }
        proof {
            assert forall|v: usize|
                self.nodes().contains(v) && !order@.contains(v) implies exists|w: usize|
                #[trigger] self.edges().contains((w, v)) && !order@.contains(w) by {
                let rest = predecessors(self.edges(), v).difference(order@.to_set());
                if rest =~= Set::empty() {
                    assert(in_deg@[v] == 0);
                } else {
                    let w = rest.choose();
                    assert(rest.contains(w));
                    assert(self.edges().contains((w, v)));
                }
            }
            assert forall|i: int| 0 <= i < order@.len() implies self.nodes().contains(
                #[trigger] order@[i],
            ) by {
                assert(order@.contains(order@[i]));
            }
        }
        order
    }

    /// Kahn's order lists every node exactly when the graph is acyclic: its
    /// length equals the number of nodes (equivalently, it holds every node)
    /// if and only if some ranking increases along every edge. A shorter
    /// order therefore reveals a cycle.
    pub proof fn lemma_kahn_order_complete_iff_acyclic(&self, order: Seq<usize>)
        requires
            self.wf(),
            is_kahn_order(self.nodes(), self.edges(), order),
        ensures
            order.len() == self.nodes().len() <==> is_acyclic(self.edges()),
            order.to_set() == self.nodes() <==> is_acyclic(self.edges()),
    {
        self.lemma_wf_edges();
        let nodes = self.nodes();
        let edges = self.edges();
        order.unique_seq_to_set();
        assert(order.to_set().subset_of(nodes)) by {
            assert forall|x: usize| order.to_set().contains(x) implies nodes.contains(x) by {
                let i = choose|i: int| 0 <= i < order.len() && order[i] == x;
                assert(nodes.contains(order[i]));
            }
        }
        vstd::set_lib::lemma_len_subset(order.to_set(), nodes);
        if is_acyclic(edges) {
            let rank = choose|rank: spec_fn(usize) -> int| is_ranking(edges, rank);
            let missing = nodes.difference(order.to_set());
            if missing.len() > 0 {
                let x = lemma_least_ranked(missing, rank);
                assert(!order.contains(x));
                let u = choose|u: usize| #[trigger] edges.contains((u, x)) && !order.contains(u);
                assert(missing.contains(u));
                assert(rank(u) < rank(x));
            } else {
                missing.lemma_len0_is_empty();
                assert forall|x: usize| nodes.contains(x) implies order.to_set().contains(x) by {
                    assert(!missing.contains(x));
                }
            }
            assert(order.to_set() =~= nodes);
        }
        if order.len() == nodes.len() {
            vstd::set_lib::lemma_subset_equality(order.to_set(), nodes);
        }
        if order.to_set() == nodes {
            let rank = |x: usize| order.index_of(x);
            assert forall|u: usize, v: usize| #[trigger] edges.contains((u, v)) implies rank(u) < rank(
                v,
            ) by {
                assert(order.to_set().contains(v));
                let j = order.index_of(v);
                assert(order.contains(v));
                assert(order[j] == v);
                assert(order.take(j).contains(u));
                let k = choose|k: int| 0 <= k < j && order.take(j)[k] == u;
                assert(order[k] == u);
                assert(order.contains(u));
                assert(order[order.index_of(u)] == u);
                assert(order.index_of(u) == k);
            }
            assert(is_ranking(edges, rank));
        }
    }

    /// Creates an empty graph.
    pub fn new() -> (g: DiGraph)
        ensures
            g.wf(),
            g.nodes() == Set::<usize>::empty(),
            g.edges() == Set::<(usize, usize)>::empty(),
    {
        let g = DiGraph { adj: HashMap::new(), radj: HashMap::new() };
        assert(g.edges() =~= Set::<(usize, usize)>::empty());
        g
    }

    /// Adds `id` as a node (no effect if it is already one).
    pub fn add_node(&mut self, id: usize)
        requires
            old(self).wf(),
        ensures
            final(self).wf(),
            final(self).nodes() == old(self).nodes().insert(id),
            final(self).edges() == old(self).edges(),
    {
        if !self.adj.contains_key(&id) {
            self.adj.insert(id, HashSet::new());
        }
        if !self.radj.contains_key(&id) {
            self.radj.insert(id, HashSet::new());
        }
        assert(self.nodes() =~= old(self).nodes().insert(id));
        assert(self.edges() =~= old(self).edges());
    }

    /// Adds the edge `u -> v`, adding `u` and `v` as nodes if needed.
    pub fn add_edge(&mut self, u: usize, v: usize)
        requires
            old(self).wf(),
        ensures
            final(self).wf(),
            final(self).nodes() == old(self).nodes().insert(u).insert(v),
            final(self).edges() == old(self).edges().insert((u, v)),
    {
        let ghost a0 = self.adj@;
        let ghost r0 = self.radj@;
        let mut succ_u = match self.adj.remove(&u) {
            Some(s) => s,
            None => HashSet::new(),
        };
        succ_u.insert(v);
        self.adj.insert(u, succ_u);
        let mut pred_v = match self.radj.remove(&v) {
            Some(s) => s,
            None => HashSet::new(),
        };
        pred_v.insert(u);
        self.radj.insert(v, pred_v);
        if !self.adj.contains_key(&v) {
            self.adj.insert(v, HashSet::new());
        }
        if !self.radj.contains_key(&u) {
            self.radj.insert(u, HashSet::new());
        }
        let ghost su0 = if a0.contains_key(u) { a0[u]@ } else { Set::<usize>::empty() };
        let ghost pv0 = if r0.contains_key(v) { r0[v]@ } else { Set::<usize>::empty() };
        assert(self.adj@[u]@ == su0.insert(v));
        assert(self.radj@[v]@ == pv0.insert(u));
        assert forall|x: usize| #[trigger] self.adj@.contains_key(x) implies self.adj@[x]@ == (
        if x == u {
            su0.insert(v)
        } else if a0.contains_key(x) {
            a0[x]@
        } else {
            Set::<usize>::empty()
        }) by {}
        assert forall|x: usize| #[trigger] self.radj@.contains_key(x) implies self.radj@[x]@ == (
        if x == v {
            pv0.insert(u)
        } else if r0.contains_key(x) {
            r0[x]@
        } else {
            Set::<usize>::empty()
        }) by {}
        assert(self.adj@.dom() =~= a0.dom().insert(u).insert(v));
        assert(self.radj@.dom() =~= r0.dom().insert(u).insert(v));
        assert(self.nodes() =~= old(self).nodes().insert(u).insert(v));
        assert(self.edges() =~= old(self).edges().insert((u, v)));
    }

    /// The number of predecessors of `v` (0 when `v` is not a node).
    pub fn in_degree(&self, v: usize) -> (d: usize)
        requires
            self.wf(),
        ensures
            d == predecessors(self.edges(), v).len(),
    {
        match self.radj.get(&v) {
            Some(s) => {
                assert(predecessors(self.edges(), v) =~= self.radj@[v]@);
                s.len()
            },
            None => {
                assert(predecessors(self.edges(), v) =~= Set::empty());
                0
            },
        }
    }
}

} // verus!
