//! Breadth-first and depth-first traversal: single-pass sequences of the edges
//! that a walk from a root meets.

use vstd::prelude::*;
use std::collections::HashSet;
use std::collections::VecDeque;
use std::marker::PhantomData;
use crate::{EdgeIndex, Graph, GraphError, GraphModel, Node, NodeIndex, SparseGraph};

verus! {

broadcast use vstd::std_specs::hash::group_hash_axioms;

/// The state of a traversal: the edges that wait in the frontier, the next one
/// first, and the nodes that were visited.
pub struct VisitState {
    pub frontier: Seq<EdgeIndex>,
    pub visited: Set<NodeIndex>,
}

impl VisitState {
    /// The target of the edge that is next in the frontier.
    pub open spec fn next_target(self) -> NodeIndex
        recommends
            self.frontier.len() > 0,
    {
        self.frontier[0].1
    }

    /// The state without the edge that is next in the frontier.
    pub open spec fn without_next(self) -> VisitState
        recommends
            self.frontier.len() > 0,
    {
        VisitState { frontier: self.frontier.drop_first(), visited: self.visited }
    }
}

/// How many indices below `bound` are not in `visited`.
pub open spec fn unvisited_below(visited: Set<NodeIndex>, bound: nat) -> nat
    decreases bound,
{
    if bound == 0 {
        0
    } else if bound - 1 <= usize::MAX && visited.contains((bound - 1) as NodeIndex) {
        unvisited_below(visited, (bound - 1) as nat)
    } else {
        unvisited_below(visited, (bound - 1) as nat) + 1
    }
}

/// Visiting an unvisited index below the bound lowers the count by one;
/// visiting any other index leaves it.
pub proof fn lemma_unvisited_insert(visited: Set<NodeIndex>, bound: nat, idx: NodeIndex)
    ensures
        idx < bound && !visited.contains(idx) ==> unvisited_below(visited.insert(idx), bound) + 1
            == unvisited_below(visited, bound),
        idx >= bound || visited.contains(idx) ==> unvisited_below(visited.insert(idx), bound)
            == unvisited_below(visited, bound),
    decreases bound,
{
    if bound > 0 {
        lemma_unvisited_insert(visited, (bound - 1) as nat, idx);
    }
}

/// The state in which a traversal from `root` starts: the root is visited, and
/// its out-edges wait in insertion order.
pub open spec fn start_state<V, E>(graph: GraphModel<V, E>, root: NodeIndex) -> VisitState {
    VisitState { frontier: graph.out_edges(root), visited: set![root] }
}

/// The state after a breadth-first traversal took the next edge: if its target
/// was unvisited, the target is visited and its out-edges wait behind all
/// others.
pub open spec fn breadth_first_step<V, E>(graph: GraphModel<V, E>, state: VisitState) -> VisitState
    recommends
        state.frontier.len() > 0,
{
    let target = state.next_target();
    if state.visited.contains(target) {
        state.without_next()
    } else {
        VisitState {
            frontier: state.frontier.drop_first() + graph.out_edges(target),
            visited: state.visited.insert(target),
        }
    }
}

/// The state after a depth-first traversal took the next edge, whose target was
/// unvisited: the target is visited and its out-edges wait before all others.
pub open spec fn depth_first_step<V, E>(graph: GraphModel<V, E>, state: VisitState) -> VisitState
    recommends
        state.frontier.len() > 0,
{
    let target = state.next_target();
    VisitState {
        frontier: graph.out_edges(target) + state.frontier.drop_first(),
        visited: state.visited.insert(target),
    }
}

/// The state without the leading edges whose target was visited.
pub open spec fn skip_visited(state: VisitState) -> VisitState
    decreases state.frontier.len(),
{
    if state.frontier.len() > 0 && state.visited.contains(state.next_target()) {
        skip_visited(state.without_next())
    } else {
        state
    }
}

/// All edges that a breadth-first traversal yields from `state` on, in order.
pub open spec fn breadth_first_edges<V, E>(graph: GraphModel<V, E>, state: VisitState) -> Seq<
    EdgeIndex,
>
    decreases unvisited_below(state.visited, graph.adjacency.len()), state.frontier.len(),
{
    if state.frontier.len() == 0 {
        Seq::empty()
    } else {
        proof {
            lemma_unvisited_insert(state.visited, graph.adjacency.len(), state.next_target());
        }
        seq![state.frontier[0]] + breadth_first_edges(graph, breadth_first_step(graph, state))
    }
}

/// All edges that a depth-first traversal yields from `state` on, in order.
pub open spec fn depth_first_edges<V, E>(graph: GraphModel<V, E>, state: VisitState) -> Seq<
    EdgeIndex,
>
    decreases unvisited_below(state.visited, graph.adjacency.len()), state.frontier.len(),
{
    if state.frontier.len() == 0 {
        Seq::empty()
    } else if state.visited.contains(state.next_target()) {
        depth_first_edges(graph, state.without_next())
    } else {
        proof {
            lemma_unvisited_insert(state.visited, graph.adjacency.len(), state.next_target());
        }
        seq![state.frontier[0]] + depth_first_edges(graph, depth_first_step(graph, state))
    }
}

/// A breadth-first traversal in progress.
pub struct BreadthFirstVisit<'a, V: Eq + Clone, E: Clone, G: Graph<V, E>> {
    gp: &'a G,
    next_edges: VecDeque<EdgeIndex>,
    visited: HashSet<NodeIndex>,
    marker: PhantomData<(V, E)>,
}

/// A depth-first traversal in progress.
pub struct DepthFirstVisit<'a, V: Eq + Clone, E: Clone, G: Graph<V, E>> {
    gp: &'a G,
    next_edges: Vec<EdgeIndex>,
    visited: HashSet<NodeIndex>,
    marker: PhantomData<(V, E)>,
}

impl<'a, V: Eq + Clone, E: Clone, G: Graph<V, E>> BreadthFirstVisit<'a, V, E, G> {
    /// The graph that is traversed.
    pub closed spec fn graph(&self) -> GraphModel<V, E> {
        self.gp.view()
    }

    /// The frontier and the visited nodes.
    pub closed spec fn state(&self) -> VisitState {
        VisitState { frontier: self.next_edges@, visited: self.visited@ }
    }

    /// The traversed graph is well formed.
    pub closed spec fn well_formed(&self) -> bool {
        self.gp.well_formed()
    }

    /// A traversal of `gp` from the node `root`.
    pub(crate) fn rooted(gp: &'a G, root: NodeIndex) -> (visit: Self)
        requires
            gp.well_formed(),
        ensures
            visit.well_formed(),
            visit.graph() == gp.view(),
            visit.state() == start_state(gp.view(), root),
    {
        let mut visited: HashSet<NodeIndex> = HashSet::new();
        visited.insert(root);
        let outgoing = gp.out_edges(root);
        let mut next_edges: VecDeque<EdgeIndex> = VecDeque::new();
        let mut k: usize = 0;
        while k < outgoing.len()
            invariant
                k <= outgoing.len(),
                next_edges@ == outgoing@.take(k as int),
            decreases outgoing.len() - k,
        {
            next_edges.push_back(outgoing[k]);
            assert(next_edges@ =~= outgoing@.take(k + 1));
            k += 1;
        }
        assert(next_edges@ =~= outgoing@);
        assert(visited@ =~= set![root]);
        BreadthFirstVisit { gp, next_edges, visited, marker: PhantomData }
    }

    /// Takes the next edge from the frontier and yields it. If its target was
    /// unvisited, the target is visited and its out-edges join the frontier
    /// behind all others. `None` when the frontier is empty.
    pub fn next(&mut self) -> (edge: Option<EdgeIndex>)
        requires
            old(self).well_formed(),
        ensures
            final(self).well_formed(),
            final(self).graph() == old(self).graph(),
            match edge {
                Some(e) => {
                    &&& old(self).state().frontier.len() > 0
                    &&& e == old(self).state().frontier[0]
                    &&& final(self).state() == breadth_first_step(
                        old(self).graph(),
                        old(self).state(),
                    )
                },
                None => {
                    &&& old(self).state().frontier.len() == 0
                    &&& final(self).state() == old(self).state()
                },
            },
    {
        let curr = self.next_edges.pop_front();
        match curr {
            Some((_, node)) => {
                let ghost rest = self.next_edges@;
                assert(rest =~= old(self).state().frontier.drop_first());
                if !self.visited.contains(&node) {
                    self.visited.insert(node);
                    let out_nodes = self.gp.out_nodes(node);
                    let ghost outgoing = self.graph().out_edges(node);
                    let mut k: usize = 0;
                    while k < out_nodes.len()
                        invariant
                            k <= out_nodes.len(),
                            self.gp == old(self).gp,
                            self.visited@ == old(self).visited@.insert(node),
                            out_nodes@ == self.graph().out_nodes(node),
                            outgoing == self.graph().out_edges(node),
                            self.next_edges@ == rest + outgoing.take(k as int),
                        decreases out_nodes.len() - k,
                    {
                        self.next_edges.push_back((node, out_nodes[k]));
                        assert(self.next_edges@ =~= rest + outgoing.take(k + 1));
                        k += 1;
                    }
                    assert(outgoing.take(k as int) =~= outgoing);
                }
            },
            None => {},
        }
        curr
    }

    /// Runs the traversal to its end and returns the edges it yields, in order.
    pub fn collect(self) -> (edges: Vec<EdgeIndex>)
        requires
            self.well_formed(),
        ensures
            edges@ == breadth_first_edges(self.graph(), self.state()),
    {
        let mut visit = self;
        let mut edges: Vec<EdgeIndex> = Vec::new();
        loop
            invariant
                visit.well_formed(),
                visit.graph() == self.graph(),
                edges@ + breadth_first_edges(visit.graph(), visit.state()) == breadth_first_edges(
                    self.graph(),
                    self.state(),
                ),
            ensures
                edges@ == breadth_first_edges(self.graph(), self.state()),
            decreases
                    unvisited_below(visit.state().visited, visit.graph().adjacency.len()),
                    visit.state().frontier.len(),
        {
            let ghost before = visit.state();
            proof {
                lemma_unvisited_insert(
                    before.visited,
                    visit.graph().adjacency.len(),
                    before.next_target(),
                );
            }
            match visit.next() {
                Some(e) => {
                    assert(edges@.push(e) + breadth_first_edges(visit.graph(), visit.state())
                        =~= edges@ + breadth_first_edges(visit.graph(), before));
                    edges.push(e);
                },
                None => {
                    assert(edges@ + Seq::<EdgeIndex>::empty() =~= edges@);
                    break ;
                },
            }
        }
        edges
    }
}

impl<'a, V: Eq + Clone, E: Clone, G: Graph<V, E>> DepthFirstVisit<'a, V, E, G> {
    /// The graph that is traversed.
    pub closed spec fn graph(&self) -> GraphModel<V, E> {
        self.gp.view()
    }

    /// The frontier and the visited nodes.
    pub closed spec fn state(&self) -> VisitState {
        VisitState { frontier: self.next_edges@.reverse(), visited: self.visited@ }
    }

    /// The traversed graph is well formed.
    pub closed spec fn well_formed(&self) -> bool {
        self.gp.well_formed()
    }

    /// A traversal of `gp` from the node `root`.
    pub(crate) fn rooted(gp: &'a G, root: NodeIndex) -> (visit: Self)
        requires
            gp.well_formed(),
        ensures
            visit.well_formed(),
            visit.graph() == gp.view(),
            visit.state() == start_state(gp.view(), root),
    {
        let mut visited: HashSet<NodeIndex> = HashSet::new();
        visited.insert(root);
        let mut next_edges: Vec<EdgeIndex> = Vec::new();
        push_reversed(&mut next_edges, gp, root);
        assert(visited@ =~= set![root]);
        assert(next_edges@.reverse() =~= gp.view().out_edges(root));
        DepthFirstVisit { gp, next_edges, visited, marker: PhantomData }
    }

    /// Takes edges from the frontier until one leads to an unvisited node, and
    /// yields that edge: its target is visited and its out-edges join the
    /// frontier before all others. `None` when no such edge is left.
    pub fn next(&mut self) -> (edge: Option<EdgeIndex>)
        requires
            old(self).well_formed(),
        ensures
            final(self).well_formed(),
            final(self).graph() == old(self).graph(),
            match edge {
                Some(e) => {
                    &&& skip_visited(old(self).state()).frontier.len() > 0
                    &&& e == skip_visited(old(self).state()).frontier[0]
                    &&& final(self).state() == depth_first_step(
                        old(self).graph(),
                        skip_visited(old(self).state()),
                    )
                },
                None => {
                    &&& skip_visited(old(self).state()).frontier.len() == 0
                    &&& final(self).state() == skip_visited(old(self).state())
                },
            },
    {
        loop
            invariant
                self.gp == old(self).gp,
                self.well_formed(),
                self.visited@ == old(self).visited@,
                skip_visited(self.state()) == skip_visited(old(self).state()),
            decreases self.next_edges.len(),
        {
            let ghost before = self.state();
            let curr = self.next_edges.pop();
            match curr {
                Some((from, node)) => {
                    assert(before.frontier[0] == (from, node));
                    assert(self.next_edges@.reverse() =~= before.frontier.drop_first());
                    if !self.visited.contains(&node) {
                        let ghost rest = self.next_edges@;
                        self.visited.insert(node);
                        push_reversed(&mut self.next_edges, self.gp, node);
                        assert(self.next_edges@.reverse() =~= self.graph().out_edges(node)
                            + rest.reverse());
                        return Some((from, node));
                    }
                },
                None => {
                    assert(before.frontier.len() == 0);
                    return None;
                },
            }
        }
    }

    /// Runs the traversal to its end and returns the edges it yields, in order.
    pub fn collect(self) -> (edges: Vec<EdgeIndex>)
        requires
            self.well_formed(),
        ensures
            edges@ == depth_first_edges(self.graph(), self.state()),
    {
        let mut visit = self;
        let mut edges: Vec<EdgeIndex> = Vec::new();
        loop
            invariant
                visit.well_formed(),
                visit.graph() == self.graph(),
                edges@ + depth_first_edges(visit.graph(), visit.state()) == depth_first_edges(
                    self.graph(),
                    self.state(),
                ),
            ensures
                edges@ == depth_first_edges(self.graph(), self.state()),
            decreases
                    unvisited_below(visit.state().visited, visit.graph().adjacency.len()),
                    visit.state().frontier.len(),
        {
            let ghost before = visit.state();
            proof {
                lemma_depth_first_skips(visit.graph(), before);
                lemma_unvisited_insert(
                    before.visited,
                    visit.graph().adjacency.len(),
                    skip_visited(before).next_target(),
                );
            }
            match visit.next() {
                Some(e) => {
                    assert(edges@.push(e) + depth_first_edges(visit.graph(), visit.state())
                        =~= edges@ + depth_first_edges(visit.graph(), before));
                    edges.push(e);
                },
                None => {
                    assert(edges@ + Seq::<EdgeIndex>::empty() =~= edges@);
                    break ;
                },
            }
        }
        edges
    }
}

/// Pushes the out-edges of `node` onto `stack`, the first of them on top.
fn push_reversed<V: Eq + Clone, E: Clone, G: Graph<V, E>>(
    stack: &mut Vec<EdgeIndex>,
    gp: &G,
    node: NodeIndex,
)
    requires
        gp.well_formed(),
    ensures
        final(stack)@ == old(stack)@ + gp.view().out_edges(node).reverse(),
{
    let out_nodes = gp.out_nodes(node);
    let ghost outgoing = gp.view().out_edges(node);
    let mut k: usize = out_nodes.len();
    while k > 0
        invariant
            k <= out_nodes.len(),
            out_nodes@ == gp.view().out_nodes(node),
            outgoing == gp.view().out_edges(node),
            stack@ == old(stack)@ + outgoing.reverse().take(out_nodes.len() - k),
        decreases k,
    {
        k -= 1;
        stack.push((node, out_nodes[k]));
        assert(stack@ =~= old(stack)@ + outgoing.reverse().take(out_nodes.len() - k));
    }
    assert(outgoing.reverse().take(out_nodes.len() as int) =~= outgoing.reverse());
}

/// Skipping edges to visited nodes changes neither what a depth-first
/// traversal yields nor which nodes are visited, and shortens the frontier at
/// most.
pub proof fn lemma_depth_first_skips<V, E>(graph: GraphModel<V, E>, state: VisitState)
    ensures
        depth_first_edges(graph, skip_visited(state)) == depth_first_edges(graph, state),
        skip_visited(state).visited == state.visited,
        skip_visited(state).frontier.len() <= state.frontier.len(),
        skip_visited(state).frontier.len() > 0 ==> !state.visited.contains(
            skip_visited(state).next_target(),
        ),
    decreases state.frontier.len(),
{
    if state.frontier.len() > 0 && state.visited.contains(state.next_target()) {
        lemma_depth_first_skips(graph, state.without_next());
    }
}

/// Graphs that can be traversed from a resolved root.
pub trait Traverseable<V: Eq + Clone, E: Clone>: Graph<V, E> + Sized {
    /// A breadth-first traversal from `root`. A root that did not resolve gives
    /// its own failure back, and an index that is no node is out of range.
    fn breadth_first_visit(&self, root: Node) -> (visit: Result<
        BreadthFirstVisit<'_, V, E, Self>,
        GraphError,
    >)
        requires
            self.well_formed(),
        ensures
            match visit {
                Ok(v) => {
                    &&& root is Ok
                    &&& self.view().has_index(root->Ok_0)
                    &&& v.well_formed()
                    &&& v.graph() == self.view()
                    &&& v.state() == start_state(self.view(), root->Ok_0)
                },
                Err(e) => e == root_failure(root),
            },
            visit is Err <==> root is Err || !self.view().has_index(root->Ok_0),
    {
        match root {
            Ok(idx) => {
                if idx < self.nodes().len() {
                    Ok(BreadthFirstVisit::rooted(self, idx))
                } else {
                    Err(GraphError::OutOfRange)
                }
            },
            Err(e) => Err(e),
        }
    }

    /// A depth-first traversal from `root`. A root that did not resolve gives
    /// its own failure back, and an index that is no node is out of range.
    fn depth_first_visit(&self, root: Node) -> (visit: Result<
        DepthFirstVisit<'_, V, E, Self>,
        GraphError,
    >)
        requires
            self.well_formed(),
        ensures
            match visit {
                Ok(v) => {
                    &&& root is Ok
                    &&& self.view().has_index(root->Ok_0)
                    &&& v.well_formed()
                    &&& v.graph() == self.view()
                    &&& v.state() == start_state(self.view(), root->Ok_0)
                },
                Err(e) => e == root_failure(root),
            },
            visit is Err <==> root is Err || !self.view().has_index(root->Ok_0),
    {
        match root {
            Ok(idx) => {
                if idx < self.nodes().len() {
                    Ok(DepthFirstVisit::rooted(self, idx))
                } else {
                    Err(GraphError::OutOfRange)
                }
            },
            Err(e) => Err(e),
        }
    }
}

/// The failure that a traversal from `root` reports where `root` is no node:
/// the failure of a root that did not resolve, else that the index is out of
/// range.
pub open spec fn root_failure(root: Node) -> GraphError {
    match root {
        Ok(_) => GraphError::OutOfRange,
        Err(e) => e,
    }
}

impl<V: Eq + Clone, E: Clone> Traverseable<V, E> for SparseGraph<V, E> {

}

} // verus!
