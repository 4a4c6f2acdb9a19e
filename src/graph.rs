use std::collections::HashMap;
use std::collections::HashSet;
use vstd::prelude::*;

use crate::edge_list::parse_edge_list;
use crate::edge_list::parse_edges;

verus! {

broadcast use vstd::std_specs::hash::group_hash_axioms;

/// The neighbours of `u` in the adjacency map `adj`: empty when `u` is unknown.
pub open spec fn neighbors_of(adj: Map<usize, Set<usize>>, u: usize) -> Set<usize> {
    if adj.contains_key(u) {
        adj[u]
    } else {
        Set::empty()
    }
}

/// Every neighbour relation goes both ways, every neighbour is itself a known
/// node, and finitely many nodes are known.
pub open spec fn graph_wf(adj: Map<usize, Set<usize>>) -> bool {
    &&& adj.dom().finite()
    &&& forall|u: usize, v: usize|
        #[trigger] neighbors_of(adj, u).contains(v) ==> adj.contains_key(v) && neighbors_of(
            adj,
            v,
        ).contains(u)
}

/// The adjacency map after the undirected edge `u`–`v` is added.
pub open spec fn with_edge(adj: Map<usize, Set<usize>>, u: usize, v: usize) -> Map<usize, Set<usize>> {
    let half = adj.insert(u, neighbors_of(adj, u).insert(v));
    half.insert(v, neighbors_of(half, v).insert(u))
}

/// The adjacency map built by adding `edges` in order to an empty graph.
pub open spec fn graph_of(edges: Seq<(usize, usize)>) -> Map<usize, Set<usize>>
    decreases edges.len(),
{
    if edges.len() == 0 {
        Map::empty()
    } else {
        with_edge(graph_of(edges.drop_last()), edges.last().0, edges.last().1)
    }
}

/// The mathematical adjacency map held by a concrete one.
pub open spec fn adjacency_view(m: HashMap<usize, HashSet<usize>>) -> Map<usize, Set<usize>> {
    m@.map_values(|s: HashSet<usize>| s@)
}

/// An undirected graph over `usize` node ids, as a map from each known node to
/// the set of its neighbours.
pub struct Graph {
    adj: HashMap<usize, HashSet<usize>>,
}

impl View for Graph {
    type V = Map<usize, Set<usize>>;

    closed spec fn view(&self) -> Map<usize, Set<usize>> {
        adjacency_view(self.adj)
    }
}

/// Adding an edge twice leaves the same neighbour sets as adding it once.
pub proof fn lemma_add_edge_idempotent(adj: Map<usize, Set<usize>>, u: usize, v: usize)
    ensures
        with_edge(with_edge(adj, u, v), u, v) == with_edge(adj, u, v),
{
    let once = with_edge(adj, u, v);
    assert(neighbors_of(once, u).insert(v) =~= neighbors_of(once, u));
    let half = once.insert(u, neighbors_of(once, u).insert(v));
    assert(half =~= once);
    assert(neighbors_of(half, v).insert(u) =~= neighbors_of(half, v));
    assert(with_edge(once, u, v) =~= once);
}

/// Symmetry holds of the empty graph and survives the addition of any edge:
/// whenever `v` is a neighbour of `u`, `u` is a neighbour of `v`.
pub proof fn lemma_symmetry_preserved(adj: Map<usize, Set<usize>>, u: usize, v: usize)
    requires
        graph_wf(adj),
    ensures
        graph_wf(Map::<usize, Set<usize>>::empty()),
        graph_wf(with_edge(adj, u, v)),
{
    let m = with_edge(adj, u, v);
    assert(m.dom() =~= adj.dom().insert(u).insert(v));
    assert forall|a: usize, b: usize| #[trigger] neighbors_of(m, a).contains(b) implies m.contains_key(
        b,
    ) && neighbors_of(m, b).contains(a) by {
        if (a == u && b == v) || (a == v && b == u) {
        } else {
            assert(neighbors_of(adj, a).contains(b));
            assert(neighbors_of(adj, b).contains(a));
        }
    }
}

/// Adds the undirected edge `u`–`v` to a concrete adjacency map.
fn link(adj: &mut HashMap<usize, HashSet<usize>>, u: usize, v: usize)
    ensures
        adjacency_view(*final(adj)) == with_edge(adjacency_view(*old(adj)), u, v),
{
    let ghost before = adjacency_view(*adj);
    let mut su = match adj.remove(&u) {
        Some(s) => s,
        None => HashSet::new(),
    };
    su.insert(v);
    adj.insert(u, su);
    let ghost half = before.insert(u, neighbors_of(before, u).insert(v));
    assert(adjacency_view(*adj) =~= half);
    let mut sv = match adj.remove(&v) {
        Some(s) => s,
        None => HashSet::new(),
    };
    sv.insert(u);
    adj.insert(v, sv);
    assert(adjacency_view(*adj) =~= with_edge(before, u, v));
}

/// The members of `s`, each once, in the order in which the set walks them.
fn set_members(s: &HashSet<usize>) -> (r: Vec<usize>)
    ensures
        r@.to_set() == s@,
        r@.no_duplicates(),
{
    let mut r: Vec<usize> = Vec::new();
    for x in it: s.iter()
        invariant
            r@ == it.seq().unref().take(it.index()),
            it.seq().unref().to_set() == s@,
            it.seq().unref().no_duplicates(),
            it.index() == it.seq().len() ==> r@ =~= it.seq().unref(),
    {
        r.push(*x);
    }
    r
}

impl Graph {
    #[verifier::type_invariant]
    pub open spec fn inv(self) -> bool {
        graph_wf(self@)
    }

    /// An empty graph.
    pub fn new() -> (g: Self)
        ensures
            g@ == Map::<usize, Set<usize>>::empty(),
    {
        let adj: HashMap<usize, HashSet<usize>> = HashMap::new();
        assert(adjacency_view(adj) =~= Map::<usize, Set<usize>>::empty());
        Graph { adj }
    }

    /// Adds the undirected edge `u`–`v`.
    pub fn add_edge(&mut self, u: usize, v: usize)
        ensures
            final(self)@ == with_edge(old(self)@, u, v),
    {
        proof {
            use_type_invariant(&*self);
            lemma_symmetry_preserved(self@, u, v);
        }
        let mut taken = Graph::new();
        std::mem::swap(self, &mut taken);
        let Graph { adj: mut adj } = taken;
        link(&mut adj, u, v);
        *self = Graph { adj };
    }

    /// The neighbours of `u`, each once; none when `u` is unknown.
    pub fn neighbors(&self, u: usize) -> (r: Vec<usize>)
        ensures
            r@.to_set() == neighbors_of(self@, u),
            r@.no_duplicates(),
    {
        match self.adj.get(&u) {
            Some(s) => set_members(s),
            None => {
                let r: Vec<usize> = Vec::new();
                assert(r@.to_set() =~= Set::<usize>::empty());
                r
            },
        }
    }

    /// Every known node, each once, in the order in which the map walks them.
    pub fn nodes(&self) -> (r: Vec<usize>)
        ensures
            r@.to_set() == self@.dom(),
            r@.no_duplicates(),
    {
        let mut r: Vec<usize> = Vec::new();
        for k in it: self.adj.keys()
            invariant
                r@ == it.seq().unref().take(it.index()),
                it.seq().unref().to_set() == self.adj@.dom(),
                it.seq().unref().no_duplicates(),
                it.index() == it.seq().len() ==> r@ =~= it.seq().unref(),
        {
            r.push(*k);
        }
        assert(self@.dom() =~= self.adj@.dom());
        r
    }

    /// The number of known nodes.
    pub fn node_count(&self) -> (n: usize)
        ensures
            n == self@.dom().len(),
    {
        assert(self@.dom() =~= self.adj@.dom());
        self.adj.len()
    }

    /// The graph of `edges`, added in order.
    pub fn from_edges(edges: &Vec<(usize, usize)>) -> (g: Self)
        ensures
            g@ == graph_of(edges@),
    {
        let mut g = Graph::new();
        let mut i: usize = 0;
        while i < edges.len()
            invariant
                i <= edges.len(),
                g@ == graph_of(edges@.take(i as int)),
            decreases edges.len() - i,
        {
            let (u, v) = edges[i];
            g.add_edge(u, v);
            assert(edges@.take(i + 1).drop_last() =~= edges@.take(i as int));
            i += 1;
        }
        assert(edges@.take(edges@.len() as int) =~= edges@);
        g
    }

    /// The graph of an edge-list text (see `parse_edge_list`), or the 1-based
    /// number of its first line whose two tokens are not both node ids.
    pub fn from_edge_list(text: &Vec<char>) -> (r: Result<Self, usize>)
        requires
            text@.len() < usize::MAX,
        ensures
            match r {
                Ok(g) => parse_edges(text@) is Ok && g@ == graph_of(parse_edges(text@)->Ok_0),
                Err(n) => parse_edges(text@) == Result::<Seq<(usize, usize)>, nat>::Err(n as nat),
            },
    {
        match parse_edge_list(text) {
            Ok(edges) => Ok(Graph::from_edges(&edges)),
            Err(n) => Err(n),
        }
    }
}

} // verus!
