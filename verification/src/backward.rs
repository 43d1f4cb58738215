use std::collections::HashSet;
use std::collections::VecDeque;
use vstd::prelude::*;

use crate::graph::is_acyclic;
use crate::graph::is_kahn_order;
use crate::graph::DiGraph;

verus! {

broadcast use {vstd::std_specs::hash::group_hash_axioms, vstd::seq_lib::group_seq_properties};

/// The inputs of `inputs`, in order, that are neither in `seen` nor repeat an
/// earlier input: the nodes a breadth-first step discovers.
pub open spec fn newly_discovered(seen: Set<usize>, inputs: Seq<usize>) -> Seq<usize>
    decreases inputs.len(),
{
    if inputs.len() == 0 {
        Seq::empty()
    } else {
        let prev = newly_discovered(seen, inputs.drop_last());
        let c = inputs.last();
        if seen.contains(c) || inputs.drop_last().contains(c) {
            prev
        } else {
            prev.push(c)
        }
    }
}

/// The dependency edges of a computation graph: for every recorded link
/// `(input, consumer)`, the edge `consumer -> input`, so that a node's
/// in-degree is its number of consumers.
pub open spec fn dependency_edges(links: Seq<(usize, usize)>) -> Set<(usize, usize)> {
    Set::new(|e: (usize, usize)| links.contains((e.1, e.0)))
}

/// Plans the back-propagation pass over a computation graph.
///
/// The graph is explored breadth-first from the output node: the caller asks
/// for the next node to expand and reports that node's inputs; once no node
/// is left, the plan orders all collected nodes so that every node comes
/// after all of its consumers (the output first, the leaves last).
pub struct BackwardPlan {
    root: usize,
    collected: Vec<usize>,
    seen: HashSet<usize>,
    queue: VecDeque<usize>,
    links: Vec<(usize, usize)>,
}

impl BackwardPlan {
    /// The output node the exploration starts from.
    pub closed spec fn root(&self) -> usize {
        self.root
    }

    /// The nodes handed out for expansion so far, in order.
    pub closed spec fn collected(&self) -> Seq<usize> {
        self.collected@
    }

    /// The discovered nodes still waiting to be handed out, in order.
    pub closed spec fn pending(&self) -> Seq<usize> {
        self.queue@
    }

    /// Every recorded `(input, consumer)` pair, in the order reported.
    pub closed spec fn links(&self) -> Seq<(usize, usize)> {
        self.links@
    }

    /// Every node discovered so far (collected or pending).
    pub open spec fn discovered(&self) -> Set<usize> {
        self.collected().to_set().union(self.pending().to_set())
    }

    /// The exploration is consistent: each discovered node is collected or
    /// pending exactly once, the root is discovered, every link joins a
    /// collected consumer to a discovered input, and every discovered node
    /// other than the root is the input of some link.
    pub closed spec fn wf(&self) -> bool {
        &&& self.seen@ == self.discovered()
        &&& self.collected@.no_duplicates()
        &&& self.queue@.no_duplicates()
        &&& forall|x: usize| #[trigger]
            self.collected@.contains(x) ==> !self.queue@.contains(x)
        &&& self.seen@.contains(self.root)
        &&& forall|i: int|
            0 <= i < self.links@.len() ==> {
                &&& self.seen@.contains(#[trigger] self.links@[i].0)
                &&& self.collected@.contains(self.links@[i].1)
            }
        &&& forall|x: usize| #[trigger]
            self.seen@.contains(x) && x != self.root ==> exists|n: usize|
                #[trigger] self.links@.contains((x, n))
    }

    /// Starts the exploration at the output node `root`.
    pub fn new(root: usize) -> (p: BackwardPlan)
        ensures
            p.wf(),
            p.root() == root,
            p.collected() == Seq::<usize>::empty(),
            p.pending() == seq![root],
            p.links() == Seq::<(usize, usize)>::empty(),
    {
        let mut seen = HashSet::new();
        seen.insert(root);
        let mut queue = VecDeque::new();
        queue.push_back(root);
        let p = BackwardPlan { root, collected: Vec::new(), seen, queue, links: Vec::new() };
        assert(p.discovered() =~= set![root]);
        p
    }

    /// Hands out the next node to expand (the oldest pending one) and
    /// records it as collected; `None` once no node is pending, at which
    /// point every input of every link has been collected.
    pub fn next_node(&mut self) -> (r: Option<usize>)
        requires
            old(self).wf(),
        ensures
            final(self).wf(),
            final(self).root() == old(self).root(),
            final(self).links() == old(self).links(),
            match r {
                Some(x) => {
                    &&& old(self).pending().len() > 0
                    &&& x == old(self).pending()[0]
                    &&& final(self).pending() == old(self).pending().drop_first()
                    &&& final(self).collected() == old(self).collected().push(x)
                },
                None => {
                    &&& old(self).pending().len() == 0
                    &&& final(self).pending() == old(self).pending()
                    &&& final(self).collected() == old(self).collected()
                    &&& forall|i: int|
                        0 <= i < final(self).links().len() ==> final(self).collected().contains(
                            #[trigger] final(self).links()[i].0,
                        )
                },
            },
    {
        let ghost q0 = self.queue@;
        match self.queue.pop_front() {
            Some(x) => {
                assert(q0.contains(x));
                self.collected.push(x);
                assert(self.queue@ =~= q0.drop_first());
                assert forall|y: usize| #[trigger] self.collected@.contains(y) implies !self.queue@.contains(y) by {
                    if self.queue@.contains(y) {
                        let k = choose|k: int| 0 <= k < self.queue@.len() && self.queue@[k] == y;
                        assert(q0[k + 1] == y);
                        assert(q0.contains(y));
                    }
                }
                assert(self.discovered() =~= old(self).discovered());
                assert(!old(self).collected@.contains(x));
                assert(self.collected@.no_duplicates());
                assert forall|i: int| 0 <= i < self.links@.len() implies {
                    &&& self.seen@.contains(#[trigger] self.links@[i].0)
                    &&& self.collected@.contains(self.links@[i].1)
                } by {
                    assert(old(self).seen@.contains(old(self).links@[i].0));
                    assert(old(self).collected@.contains(self.links@[i].1));
                }
                Some(x)
            },
            None => {
                assert(self.discovered() =~= self.collected@.to_set());
                None
            },
        }
    }

    /// Records the inputs of the collected node `node`: each input is linked
    /// to `node`, and the inputs not discovered before join the back of the
    /// pending queue, in order.
    pub fn add_inputs(&mut self, node: usize, inputs: &Vec<usize>)
        requires
            old(self).wf(),
            old(self).collected().contains(node),
        ensures
            final(self).wf(),
            final(self).root() == old(self).root(),
            final(self).collected() == old(self).collected(),
            final(self).links() == old(self).links() + inputs@.map_values(
                |c: usize| (c, node),
            ),
            final(self).pending() == old(self).pending() + newly_discovered(
                old(self).discovered(),
                inputs@,
            ),
    {
        let ghost d0 = self.seen@;
        let ghost l0 = self.links@;
        let ghost q0 = self.queue@;
        let n = inputs.len();
        for k in 0..n
            invariant
                n == inputs@.len(),
                self.root == old(self).root,
                self.collected@ == old(self).collected@,
                self.collected@.contains(node),
                d0 == old(self).discovered(),
                self.links@ == l0 + inputs@.take(k as int).map_values(|c: usize| (c, node)),
                self.queue@ == q0 + newly_discovered(d0, inputs@.take(k as int)),
                self.seen@ == d0.union(inputs@.take(k as int).to_set()),
                self.wf(),
        {
            let c = inputs[k];
            let ghost t = inputs@.take(k as int);
            assert(inputs@.take(k + 1).drop_last() =~= t);
            assert(inputs@.take(k + 1).last() == c);
            assert(inputs@.take(k + 1) =~= t.push(c));
            assert(t.push(c).to_set() =~= t.to_set().insert(c));
            let ghost s0 = self.seen@;
            let ghost qa = self.queue@;
            let ghost la = self.links@;
            let ghost ca = self.collected@;
            if self.seen.insert(c) {
                assert(!qa.contains(c));
                assert(!ca.contains(c));
                self.queue.push_back(c);
            }
            self.links.push((c, node));
            assert(inputs@.take(k + 1).map_values(|c: usize| (c, node)) =~= t.map_values(
                |c: usize| (c, node),
            ).push((c, node)));
            assert(self.links@ =~= l0 + inputs@.take(k + 1).map_values(|c: usize| (c, node)));
            assert(self.discovered() =~= self.seen@);
            assert forall|i: int| 0 <= i < self.links@.len() implies {
                &&& self.seen@.contains(#[trigger] self.links@[i].0)
                &&& self.collected@.contains(self.links@[i].1)
            } by {
                if i < la.len() {
                    assert(self.links@[i] == la[i]);
                    assert(s0.contains(la[i].0));
                }
            }
            assert forall|x: usize| #[trigger]
                self.seen@.contains(x) && x != self.root implies exists|m: usize|
                #[trigger] self.links@.contains((x, m)) by {
                if x == c {
                    assert(self.links@[la.len() as int] == (c, node));
                    assert(self.links@.contains((c, node)));
                } else {
                    assert(s0.contains(x));
                    let m = choose|m: usize| #[trigger] la.contains((x, m));
                    let j = choose|j: int| 0 <= j < la.len() && la[j] == (x, m);
                    assert(self.links@[j] == (x, m));
                    assert(self.links@.contains((x, m)));
                }
            }
        }
        assert(inputs@.take(n as int) =~= inputs@);
    }

    /// Once exploration is finished, orders the collected nodes for the
    /// backward pass with Kahn's algorithm on the dependency edges: every
    /// node comes after all of its consumers, so the output comes first.
    /// `None` exactly when the links contain a cycle, since then no such
    /// order lists every node.
    pub fn order(&self) -> (r: Option<Vec<usize>>)
        requires
            self.wf(),
            self.pending().len() == 0,
        ensures
            r is Some <==> is_acyclic(dependency_edges(self.links())),
            r matches Some(o) ==> {
                &&& o@.no_duplicates()
                &&& o@.len() == self.collected().len()
                &&& o@.to_set() == self.collected().to_set()
                &&& o@.len() > 0
                &&& o@[0] == self.root()
                &&& forall|i: int, j: int|
                    #![trigger self.links()[i], o@[j]]
                    0 <= i < self.links().len() && 0 <= j < o@.len() && o@[j]
                        == self.links()[i].0 ==> o@.take(j).contains(
                        self.links()[i].1,
                    )
            },
    {
        let mut g = DiGraph::new();
        let n = self.collected.len();
        for i in 0..n
            invariant
                n == self.collected@.len(),
                g.wf(),
                g.nodes() == self.collected@.take(i as int).to_set(),
                g.edges() == Set::<(usize, usize)>::empty(),
        {
            assert(self.collected@.take(i + 1) =~= self.collected@.take(i as int).push(
                self.collected@[i as int],
            ));
            g.add_node(self.collected[i]);
            assert(self.collected@.take(i + 1).to_set() =~= self.collected@.take(
                i as int,
            ).to_set().insert(self.collected@[i as int]));
        }
        assert(self.collected@.take(n as int) =~= self.collected@);
        assert(self.discovered() =~= self.collected@.to_set());
        let m = self.links.len();
        assert(dependency_edges(self.links@.take(0)) =~= Set::<(usize, usize)>::empty());
        for i in 0..m
            invariant
                m == self.links@.len(),
                self.wf(),
                self.pending().len() == 0,
                self.discovered() == self.collected@.to_set(),
                g.wf(),
                g.nodes() == self.collected@.to_set(),
                g.edges() == dependency_edges(self.links@.take(i as int)),
        {
            let (c, p) = self.links[i];
            assert(self.seen@.contains(self.links@[i as int].0));
            assert(self.collected@.contains(p));
            assert(self.collected@.to_set().contains(p));
            g.add_edge(p, c);
            assert(self.links@.take(i + 1) =~= self.links@.take(i as int).push((c, p)));
            assert(g.nodes() =~= self.collected@.to_set());
            assert(g.edges() =~= dependency_edges(self.links@.take(i + 1)));
        }
        assert(self.links@.take(m as int) =~= self.links@);
        let order = g.topological_sort_kahn();
        proof {
            g.lemma_kahn_order_complete_iff_acyclic(order@);
            self.collected@.unique_seq_to_set();
        }
        if order.len() == n {
            proof {
                order@.unique_seq_to_set();
                assert(order@.to_set() == self.collected@.to_set());
                assert(self.collected@.contains(self.root));
                assert(order@.to_set().contains(self.root));
                assert(order@.len() > 0);
                let x = order@[0];
                if x != self.root {
                    assert(order@.contains(x));
                    assert(self.collected@.to_set().contains(x));
                    assert(self.seen@.contains(x));
                    let q = choose|q: usize| #[trigger] self.links@.contains((x, q));
                    assert(g.edges().contains((q, x)));
                    assert(order@.take(0).contains(q));
                }
                assert forall|i: int, j: int|
                    #![trigger self.links@[i], order@[j]]
                    0 <= i < self.links@.len() && 0 <= j < order@.len() && order@[j]
                        == self.links@[i].0 implies order@.take(j).contains(
                    self.links@[i].1,
                ) by {
                    assert(self.links@.contains(self.links@[i]));
                    assert(g.edges().contains((self.links@[i].1, order@[j])));
                }
            }
            Some(order)
        } else {
            None
        }
    }

    /// Whether no node is left to expand.
    pub fn is_finished(&self) -> (b: bool)
        ensures
            b == (self.pending().len() == 0),
    {
        self.queue.len() == 0
    }
}

} // verus!
