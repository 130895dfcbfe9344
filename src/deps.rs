//! The dependency graph between the definitions of the crate being compiled.
use vstd::prelude::*;

use petgraph::graph::{Graph, NodeIndex};
use petgraph::Directed;

verus! {

/// The crate number of the crate being compiled.
pub const LOCAL_CRATE: u32 = 0;

/// A definition: the crate it belongs to and its index in that crate.
#[derive(Clone, Copy, PartialEq, Eq, Structural, Hash, Debug, PartialOrd, Ord)]
pub struct DefId {
    pub krate: u32,
    pub index: u32,
}

impl DefId {
    pub open spec fn local(&self) -> bool {
        self.krate == LOCAL_CRATE
    }

    /// Whether the definition belongs to the crate being compiled.
    pub fn is_local(&self) -> (r: bool)
        ensures
            r == self.local(),
    {
        self.krate == LOCAL_CRATE
    }
}

#[verifier::external_type_specification]
#[verifier::external_body]
#[verifier::reject_recursive_types(N)]
#[verifier::reject_recursive_types(E)]
#[verifier::reject_recursive_types(Ty)]
#[verifier::reject_recursive_types(Ix)]
pub struct ExGraph<N, E, Ty, Ix>(Graph<N, E, Ty, Ix>);

#[verifier::external_type_specification]
#[verifier::external_body]
pub struct ExDirected(Directed);

/// The node weights of a graph, by node index.
pub uninterp spec fn graph_nodes(g: Graph<(u32, u32), (), Directed, u32>) -> Seq<(u32, u32)>;

/// The edges of a graph, as pairs of node indices, by edge index.
pub uninterp spec fn graph_edges(g: Graph<(u32, u32), (), Directed, u32>) -> Seq<(int, int)>;

/// Relies on `petgraph::graph::Graph::new`: a graph without nodes or edges.
#[verifier::external_body]
fn graph_new() -> (r: Graph<(u32, u32), (), Directed, u32>)
    ensures
        graph_nodes(r) == Seq::<(u32, u32)>::empty(),
        graph_edges(r) == Seq::<(int, int)>::empty(),
{
    Graph::new()
}

/// Relies on `petgraph::graph::Graph::add_node`: the node goes last and its
/// index is the former node count. It panics only when the count reaches
/// `u32::MAX`.
#[verifier::external_body]
fn graph_add_node(g: &mut Graph<(u32, u32), (), Directed, u32>, w: (u32, u32)) -> (r: usize)
    requires
        graph_nodes(*old(g)).len() < u32::MAX,
    ensures
        graph_nodes(*final(g)) == graph_nodes(*old(g)).push(w),
        graph_edges(*final(g)) == graph_edges(*old(g)),
        r == graph_nodes(*old(g)).len(),
{
    g.add_node(w).index()
}

/// Relies on `petgraph::graph::Graph::add_edge`: the edge goes last, also
/// when an equal one is there. It panics only on an index out of bounds or
/// when the edge count reaches `u32::MAX`.
#[verifier::external_body]
fn graph_add_edge(g: &mut Graph<(u32, u32), (), Directed, u32>, a: usize, b: usize)
    requires
        a < graph_nodes(*old(g)).len(),
        b < graph_nodes(*old(g)).len(),
        graph_edges(*old(g)).len() < u32::MAX,
    ensures
        graph_nodes(*final(g)) == graph_nodes(*old(g)),
        graph_edges(*final(g)) == graph_edges(*old(g)).push((a as int, b as int)),
{
    g.add_edge(NodeIndex::new(a), NodeIndex::new(b), ());
}

/// Relies on `petgraph::graph::Graph::contains_edge`: whether an edge goes
/// from `a` to `b`.
#[verifier::external_body]
fn graph_contains_edge(g: &Graph<(u32, u32), (), Directed, u32>, a: usize, b: usize) -> (r: bool)
    requires
        a < graph_nodes(*g).len(),
        b < graph_nodes(*g).len(),
    ensures
        r == has_edge(graph_edges(*g), a as int, b as int),
{
    g.contains_edge(NodeIndex::new(a), NodeIndex::new(b))
}

pub open spec fn has_edge(edges: Seq<(int, int)>, a: int, b: int) -> bool {
    exists|k: int| 0 <= k < edges.len() && #[trigger] edges[k] == (a, b)
}

pub open spec fn weight(d: DefId) -> (u32, u32) {
    (d.krate, d.index)
}

pub open spec fn with_node(nodes: Seq<DefId>, d: DefId) -> Seq<DefId> {
    if nodes.contains(d) {
        nodes
    } else {
        nodes.push(d)
    }
}

pub open spec fn with_staged(staged: Seq<DefId>, nodes: Seq<DefId>, d: DefId) -> Seq<DefId> {
    if nodes.contains(d) {
        staged
    } else {
        staged.push(d)
    }
}

/// The dependencies found so far.
pub struct Deps {
    /// Other crates referenced.
    crate_deps: Vec<String>,
    /// Edges go from the used definition to its user.
    graph: Graph<(u32, u32), (), Directed, u32>,
    /// The definition of each node, by node index.
    def_idcs: Vec<DefId>,
    /// Definitions whose node was made since the last drain, in the order
    /// the nodes were made.
    new_deps: Vec<DefId>,
}

impl Deps {
    pub closed spec fn nodes(&self) -> Seq<DefId> {
        self.def_idcs@
    }

    pub closed spec fn staged(&self) -> Seq<DefId> {
        self.new_deps@
    }

    pub closed spec fn edges(&self) -> Seq<(int, int)> {
        graph_edges(self.graph)
    }

    pub closed spec fn crate_names(&self) -> Seq<Seq<char>> {
        self.crate_deps@.map_values(|s: String| s@)
    }

    pub open spec fn crates(&self) -> Set<Seq<char>> {
        self.crate_names().to_set()
    }

    pub open spec fn has_node(&self, d: DefId) -> bool {
        self.nodes().contains(d)
    }

    pub closed spec fn wf(&self) -> bool {
        &&& graph_nodes(self.graph) == self.nodes().map_values(|d: DefId| weight(d))
        &&& self.nodes().no_duplicates()
        &&& self.nodes().len() < u32::MAX
        &&& self.staged().no_duplicates()
        &&& forall|d: DefId| #[trigger] self.staged().contains(d) ==> self.has_node(d)
        &&& forall|k: int|
            0 <= k < self.edges().len() ==> 0 <= (#[trigger] self.edges()[k]).0 < self.nodes().len()
                && 0 <= self.edges()[k].1 < self.nodes().len()
        &&& self.crate_names().no_duplicates()
    }

    /// Room for two more nodes and one more edge.
    pub open spec fn room(&self) -> bool {
        &&& self.nodes().len() + 2 < u32::MAX
        &&& self.edges().len() + 1 < u32::MAX
    }

    /// Every edge joins two nodes, and every staged definition has a node.
    pub proof fn lemma_wf(&self)
        requires
            self.wf(),
        ensures
            forall|k: int|
                0 <= k < self.edges().len() ==> 0 <= (#[trigger] self.edges()[k]).0
                    < self.nodes().len() && 0 <= self.edges()[k].1 < self.nodes().len(),
            forall|d: DefId| #[trigger] self.staged().contains(d) ==> self.has_node(d),
            self.nodes().len() < u32::MAX,
    {
    }

    pub fn new() -> (r: Deps)
        ensures
            r.wf(),
            r.nodes() == Seq::<DefId>::empty(),
            r.staged() == Seq::<DefId>::empty(),
            r.edges() == Seq::<(int, int)>::empty(),
            r.crates() == Set::<Seq<char>>::empty(),
    {
        let r = Deps {
            crate_deps: Vec::new(),
            graph: graph_new(),
            def_idcs: Vec::new(),
            new_deps: Vec::new(),
        };
        assert(r.nodes().map_values(|d: DefId| weight(d)) =~= Seq::<(u32, u32)>::empty());
        assert(r.crates() =~= Set::<Seq<char>>::empty());
        r
    }

    /// Whether another node and edge fit in the graph.
    pub fn has_room(&self) -> (r: bool)
        requires
            self.wf(),
        ensures
            r == self.room(),
    {
        self.def_idcs.len() < 4294967293 && petgraph_edge_count(&self.graph) < 4294967294
    }

    /// The number of nodes.
    pub fn node_count(&self) -> (r: usize)
        ensures
            r == self.nodes().len(),
    {
        self.def_idcs.len()
    }

    /// The number of edges.
    pub fn edge_count(&self) -> (r: usize)
        ensures
            r == self.edges().len(),
    {
        petgraph_edge_count(&self.graph)
    }

    /// The names of the other crates referenced, each once.
    pub fn crate_deps(&self) -> (r: &Vec<String>)
        ensures
            r@.map_values(|s: String| s@) == self.crate_names(),
    {
        &self.crate_deps
    }

    fn find_node(&self, d: DefId) -> (r: Option<usize>)
        ensures
            match r {
                Some(i) => i < self.nodes().len() && self.nodes()[i as int] == d,
                None => !self.has_node(d),
            },
    {
        let mut i: usize = 0;
        while i < self.def_idcs.len()
            invariant
                i <= self.def_idcs.len(),
                forall|k: int| 0 <= k < i ==> self.def_idcs@[k] != d,
            decreases self.def_idcs.len() - i,
        {
            if self.def_idcs[i] == d {
                return Some(i);
            }
            i += 1;
        }
        None
    }

    /// The node index of `d`; a node for it is made and staged when it has none.
    pub fn get_def_idx(&mut self, d: DefId) -> (r: usize)
        requires
            old(self).wf(),
            old(self).nodes().len() + 1 < u32::MAX,
        ensures
            final(self).wf(),
            final(self).nodes() == with_node(old(self).nodes(), d),
            final(self).staged() == with_staged(old(self).staged(), old(self).nodes(), d),
            final(self).edges() == old(self).edges(),
            final(self).crate_names() == old(self).crate_names(),
            r < final(self).nodes().len(),
            final(self).nodes()[r as int] == d,
    {
        match self.find_node(d) {
            Some(i) => i,
            None => {
                let ghost old_self = *self;
                let i = graph_add_node(&mut self.graph, (d.krate, d.index));
                self.def_idcs.push(d);
                self.new_deps.push(d);
                assert(graph_nodes(self.graph) =~= self.nodes().map_values(|e: DefId| weight(e)));
                assert forall|e: DefId| #[trigger] self.staged().contains(e) implies self.has_node(e) by {
                    if e != d {
                        let k = choose|k: int| 0 <= k < self.staged().len() && self.staged()[k] == e;
                        assert(old_self.staged()[k] == e);
                        assert(old_self.staged().contains(e));
                        let j = choose|j: int| 0 <= j < old_self.nodes().len() && old_self.nodes()[j] == e;
                        assert(self.nodes()[j] == e);
                    } else {
                        assert(self.nodes()[self.nodes().len() - 1] == d);
                    }
                };
                assert forall|a: int, b: int|
                    0 <= a < self.staged().len() && 0 <= b < self.staged().len() && a != b
                        implies self.staged()[a] != self.staged()[b] by {
                    if b == self.staged().len() - 1 {
                        assert(old_self.staged().contains(self.staged()[a]));
                    }
                    if a == self.staged().len() - 1 {
                        assert(old_self.staged().contains(self.staged()[b]));
                    }
                };
                assert forall|a: int, b: int|
                    0 <= a < self.nodes().len() && 0 <= b < self.nodes().len() && a != b
                        implies self.nodes()[a] != self.nodes()[b] by {
                    if b == self.nodes().len() - 1 {
                        assert(old_self.nodes().contains(self.nodes()[a]));
                    }
                    if a == self.nodes().len() - 1 {
                        assert(old_self.nodes().contains(self.nodes()[b]));
                    }
                };
                assert(self.edges() == old_self.edges());
                i
            },
        }
    }

    /// Records that `used` is used by `user`; each gets a node if it has none.
    pub fn add_dep(&mut self, used: DefId, user: DefId)
        requires
            old(self).wf(),
            old(self).room(),
        ensures
            final(self).wf(),
            final(self).nodes() == with_node(with_node(old(self).nodes(), used), user),
            final(self).staged() == with_staged(
                with_staged(old(self).staged(), old(self).nodes(), used),
                with_node(old(self).nodes(), used),
                user,
            ),
            final(self).edges().drop_last() == old(self).edges(),
            final(self).edges().len() == old(self).edges().len() + 1,
            final(self).nodes()[final(self).edges().last().0] == used,
            final(self).nodes()[final(self).edges().last().1] == user,
            final(self).crate_names() == old(self).crate_names(),
    {
        let from = self.get_def_idx(used);
        let to = self.get_def_idx(user);
        let ghost mid = *self;
        graph_add_edge(&mut self.graph, from, to);
        assert(self.edges().drop_last() =~= mid.edges());
        assert forall|k: int| 0 <= k < self.edges().len() implies 0 <= (
        #[trigger] self.edges()[k]).0 < self.nodes().len() && 0 <= self.edges()[k].1
            < self.nodes().len() by {
            if k < mid.edges().len() {
                assert(self.edges()[k] == mid.edges()[k]);
            }
        };
    }

    /// Hands out the staged definitions, in staging order, and clears them.
    pub fn drain_new_deps(&mut self) -> (r: Vec<DefId>)
        requires
            old(self).wf(),
        ensures
            final(self).wf(),
            r@ == old(self).staged(),
            final(self).staged() == Seq::<DefId>::empty(),
            final(self).nodes() == old(self).nodes(),
            final(self).edges() == old(self).edges(),
            final(self).crate_names() == old(self).crate_names(),
    {
        let mut deps: Vec<DefId> = Vec::new();
        std::mem::swap(&mut deps, &mut self.new_deps);
        assert(self.staged() =~= Seq::<DefId>::empty());
        assert(self.nodes() == old(self).nodes());
        assert(graph_nodes(self.graph) == self.nodes().map_values(|d: DefId| weight(d)));
        assert(self.crate_names() == old(self).crate_names());
        assert(self.edges() == old(self).edges());
        assert(self.staged().no_duplicates());
        deps
    }

    /// Records a referenced crate, once.
    pub fn add_crate(&mut self, name: String)
        requires
            old(self).wf(),
        ensures
            final(self).wf(),
            final(self).crates() == old(self).crates().insert(name@),
            final(self).nodes() == old(self).nodes(),
            final(self).staged() == old(self).staged(),
            final(self).edges() == old(self).edges(),
    {
        let mut i: usize = 0;
        while i < self.crate_deps.len()
            invariant
                *self == *old(self),
                self.wf(),
                i <= self.crate_deps.len(),
                forall|k: int| 0 <= k < i ==> self.crate_deps@[k]@ != name@,
            decreases self.crate_deps.len() - i,
        {
            if self.crate_deps[i] == name {
                assert(self.crate_names()[i as int] == name@);
                assert(old(self).crates() =~= old(self).crates().insert(name@));
                return;
            }
            i += 1;
        }
        let ghost before = self.crate_names();
        assert(!before.contains(name@));
        self.crate_deps.push(name);
        assert(self.crate_names() =~= before.push(name@));
        assert forall|a: int, b: int|
            0 <= a < self.crate_names().len() && 0 <= b < self.crate_names().len() && a != b
                implies self.crate_names()[a] != self.crate_names()[b] by {
            if b == before.len() {
                assert(before.contains(self.crate_names()[a]));
            }
            if a == before.len() {
                assert(before.contains(self.crate_names()[b]));
            }
        };
        assert forall|x: Seq<char>| #[trigger] self.crates().contains(x) == old(self).crates().insert(
            name@,
        ).contains(x) by {
            if before.contains(x) {
                let k = choose|k: int| 0 <= k < before.len() && before[k] == x;
                assert(self.crate_names()[k] == x);
            }
            if self.crate_names().contains(x) && x != name@ {
                let k = choose|k: int| 0 <= k < self.crate_names().len() && self.crate_names()[k] == x;
                assert(before[k] == x);
            }
            if x == name@ {
                assert(self.crate_names()[before.len() as int] == x);
            }
        };
        assert(self.crates() =~= old(self).crates().insert(name@));
        assert(self.crate_names().no_duplicates());
        assert(self.nodes() == old(self).nodes());
        assert(self.staged() == old(self).staged());
        assert(self.edges() == old(self).edges());
    }

    /// Whether some edge goes from `d`'s node to itself.
    pub fn has_self_edge(&self, d: DefId) -> (r: bool)
        requires
            self.wf(),
        ensures
            r == (exists|k: int|
                0 <= k < self.edges().len() && self.nodes()[(#[trigger] self.edges()[k]).0] == d
                    && self.edges()[k].0 == self.edges()[k].1),
    {
        match self.find_node(d) {
            None => {
                assert forall|k: int| 0 <= k < self.edges().len() implies !(self.nodes()[(
                #[trigger] self.edges()[k]).0] == d && self.edges()[k].0 == self.edges()[k].1) by {
                    if self.nodes()[self.edges()[k].0] == d {
                        assert(self.has_node(d));
                    }
                };
                false
            },
            Some(i) => {
                let r = graph_contains_edge(&self.graph, i, i);
                proof {
                    if !r {
                        assert forall|k: int| 0 <= k < self.edges().len() implies !(self.nodes()[(
                        #[trigger] self.edges()[k]).0] == d && self.edges()[k].0
                            == self.edges()[k].1) by {
                            if self.nodes()[self.edges()[k].0] == d {
                                assert(self.edges()[k].0 == i);
                            }
                        };
                    } else {
                        let k = choose|k: int|
                            0 <= k < self.edges().len() && #[trigger] self.edges()[k] == (
                            i as int,
                            i as int,
                        );
                        assert(self.nodes()[self.edges()[k].0] == d);
                    }
                }
                r
            },
        }
    }
}

/// Relies on `petgraph::graph::Graph::edge_count`: the number of edges.
#[verifier::external_body]
fn petgraph_edge_count(g: &Graph<(u32, u32), (), Directed, u32>) -> (r: usize)
    ensures
        r == graph_edges(*g).len(),
{
    g.edge_count()
}

} // verus!
