use std::collections::HashSet;
use vstd::prelude::*;
use vstd::set_lib::lemma_len_subset;

use crate::graph::graph_wf;
use crate::graph::neighbors_of;
use crate::graph::Graph;
use crate::sampling::sample_indices;

verus! {

broadcast use {vstd::std_specs::hash::group_hash_axioms, vstd::seq_lib::lemma_seq_contains_after_push};

/// The nodes first reached in one step: neighbours of some frontier node that
/// have not been visited yet.
pub open spec fn next_frontier(
    adj: Map<usize, Set<usize>>,
    visited: Set<usize>,
    frontier: Set<usize>,
) -> Set<usize> {
    Set::new(
        |v: usize|
            !visited.contains(v) && exists|u: usize|
                frontier.contains(u) && #[trigger] neighbors_of(adj, u).contains(v),
    )
}

/// The visited-set sizes after each of at most `steps` further steps, ending
/// at the first step that reaches nobody new.
pub open spec fn spread_counts(
    adj: Map<usize, Set<usize>>,
    visited: Set<usize>,
    frontier: Set<usize>,
    steps: nat,
) -> Seq<int>
    decreases steps,
{
    if steps == 0 {
        Seq::empty()
    } else {
        let next = next_frontier(adj, visited, frontier);
        if next == Set::<usize>::empty() {
            Seq::empty()
        } else {
            let grown = visited.union(next);
            seq![grown.len() as int] + spread_counts(adj, grown, next, (steps - 1) as nat)
        }
    }
}

/// The spread log of a run from `start`: the seed alone, then the count
/// reached after each step that reached somebody new.
pub open spec fn spread_log(adj: Map<usize, Set<usize>>, start: usize, max_steps: nat) -> Seq<
    int,
> {
    seq![1int] + spread_counts(adj, set![start], set![start], max_steps)
}

/// Further counts never fall below the visited-set size they start from, never
/// decrease, and number at most `steps`.
pub proof fn lemma_spread_counts_grow(
    adj: Map<usize, Set<usize>>,
    visited: Set<usize>,
    frontier: Set<usize>,
    steps: nat,
)
    requires
        graph_wf(adj),
        visited.finite(),
    ensures
        spread_counts(adj, visited, frontier, steps).len() <= steps,
        forall|i: int|
            0 <= i < spread_counts(adj, visited, frontier, steps).len() ==> visited.len()
                <= #[trigger] spread_counts(adj, visited, frontier, steps)[i],
        forall|i: int, j: int|
            0 <= i <= j < spread_counts(adj, visited, frontier, steps).len() ==> #[trigger] spread_counts(
                adj,
                visited,
                frontier,
                steps,
            )[i] <= #[trigger] spread_counts(adj, visited, frontier, steps)[j],
    decreases steps,
{
    if steps > 0 {
        let next = next_frontier(adj, visited, frontier);
        if next != Set::<usize>::empty() {
            assert(next.subset_of(adj.dom()));
            vstd::set_lib::lemma_set_subset_finite(adj.dom(), next);
            let grown = visited.union(next);
            lemma_len_subset(visited, grown);
            lemma_spread_counts_grow(adj, grown, next, (steps - 1) as nat);
            let rest = spread_counts(adj, grown, next, (steps - 1) as nat);
            assert(spread_counts(adj, visited, frontier, steps) == seq![grown.len() as int] + rest);
        }
    }
}

/// Over every graph, a spread log starts at 1, never decreases, and has at
/// most `max_steps + 1` entries.
pub proof fn lemma_spread_log_monotone(adj: Map<usize, Set<usize>>, start: usize, max_steps: nat)
    requires
        graph_wf(adj),
    ensures
        1 <= spread_log(adj, start, max_steps).len() <= max_steps + 1,
        spread_log(adj, start, max_steps)[0] == 1,
        forall|i: int, j: int|
            0 <= i <= j < spread_log(adj, start, max_steps).len() ==> #[trigger] spread_log(
                adj,
                start,
                max_steps,
            )[i] <= #[trigger] spread_log(adj, start, max_steps)[j],
{
    let seed = set![start];
    assert(seed.len() == 1);
    lemma_spread_counts_grow(adj, seed, seed, max_steps);
    let rest = spread_counts(adj, seed, seed, max_steps);
    let log = spread_log(adj, start, max_steps);
    assert forall|i: int, j: int| 0 <= i <= j < log.len() implies #[trigger] log[i] <= #[trigger] log[j] by {
        if i > 0 {
            assert(log[i] == rest[i - 1] && log[j] == rest[j - 1]);
        } else if j > 0 {
            assert(log[j] == rest[j - 1]);
        }
    }
}

/// Whether `x` is a neighbour of one of `sources`.
pub open spec fn reached_from(adj: Map<usize, Set<usize>>, sources: Seq<usize>, x: usize) -> bool {
    exists|u: usize| sources.contains(u) && #[trigger] neighbors_of(adj, u).contains(x)
}

/// Runs one step: adds to `visited` every unvisited neighbour of the frontier
/// and returns those nodes, each once.
fn expand(graph: &Graph, visited: &mut HashSet<usize>, frontier: &Vec<usize>) -> (next: Vec<usize>)
    ensures
        next@.to_set() == next_frontier(graph@, old(visited)@, frontier@.to_set()),
        final(visited)@ == old(visited)@.union(next@.to_set()),
{
    let ghost v0 = visited@;
    let ghost adj = graph@;
    let mut next: Vec<usize> = Vec::new();
    let mut i: usize = 0;
    while i < frontier.len()
        invariant
            i <= frontier.len(),
            adj == graph@,
            visited@ == v0.union(next@.to_set()),
            forall|x: usize|
                #[trigger] next@.contains(x) <==> (!v0.contains(x) && reached_from(
                    adj,
                    frontier@.take(i as int),
                    x,
                )),
        decreases frontier.len() - i,
    {
        let node = frontier[i];
        let nbrs = graph.neighbors(node);
        let ghost done = frontier@.take(i as int);
        let mut j: usize = 0;
        while j < nbrs.len()
            invariant
                i < frontier.len(),
                adj == graph@,
                done == frontier@.take(i as int),
                j <= nbrs.len(),
                visited@ == v0.union(next@.to_set()),
                forall|x: usize|
                    #[trigger] next@.contains(x) <==> (!v0.contains(x) && (reached_from(adj, done, x)
                        || nbrs@.take(j as int).contains(x))),
            decreases nbrs.len() - j,
        {
            let nb = nbrs[j];
            let ghost old_next = next@;
            if !visited.contains(&nb) {
                visited.insert(nb);
                next.push(nb);
            }
            proof {
                assert(nbrs@.take(j + 1) =~= nbrs@.take(j as int).push(nb));
                assert(visited@ =~= v0.union(next@.to_set()));
                assert forall|x: usize|
                    #[trigger] next@.contains(x) <==> (!v0.contains(x) && (reached_from(adj, done, x)
                        || nbrs@.take(j + 1).contains(x))) by {
                    if x != nb {
                        assert(next@.contains(x) == old_next.contains(x));
                    }
                }
            }
            j += 1;
        }
        proof {
            assert(nbrs@.take(nbrs@.len() as int) =~= nbrs@);
            let grown = frontier@.take(i + 1);
            assert(grown =~= done.push(node));
            assert forall|x: usize|
                #[trigger] next@.contains(x) <==> (!v0.contains(x) && reached_from(adj, grown, x)) by {
                if nbrs@.contains(x) {
                    assert(nbrs@.to_set().contains(x));
                    assert(grown.contains(node));
                }
                if reached_from(adj, grown, x) {
                    let u = choose|u: usize| grown.contains(u) && #[trigger] neighbors_of(adj, u).contains(x);
                    if u == node {
                        assert(nbrs@.to_set().contains(x));
                    } else {
                        assert(done.contains(u));
                    }
                }
                if reached_from(adj, done, x) {
                    let u = choose|u: usize| done.contains(u) && #[trigger] neighbors_of(adj, u).contains(x);
                    assert(grown.contains(u));
                }
            }
        }
        i += 1;
    }
    proof {
        assert(frontier@.take(frontier@.len() as int) =~= frontier@);
        assert forall|x: usize| #[trigger] next@.to_set().contains(x) == next_frontier(
            adj,
            v0,
            frontier@.to_set(),
        ).contains(x) by {
            if reached_from(adj, frontier@, x) {
                let u = choose|u: usize| frontier@.contains(u) && #[trigger] neighbors_of(adj, u).contains(x);
                assert(frontier@.to_set().contains(u));
            }
        }
    }
    assert(next@.to_set() =~= next_frontier(adj, v0, frontier@.to_set()));
    assert(visited@ =~= v0.union(next@.to_set()));
    next
}

/// Spreads a message from `start_node` for at most `max_steps` steps and
/// returns the number of nodes reached so far after each step, the seed
/// alone first. The run stops early at the first step that reaches nobody new.
pub fn simulate_spread(graph: &Graph, start_node: usize, max_steps: usize) -> (r: Vec<usize>)
    ensures
        r@.map_values(|c: usize| c as int) == spread_log(graph@, start_node, max_steps as nat),
        max_steps == 0 ==> r@ == seq![1usize],
        1 <= r@.len() <= max_steps + 1,
        forall|i: int, j: int| 0 <= i <= j < r@.len() ==> r@[i] <= r@[j],
{
    proof {
        use_type_invariant(graph);
        lemma_spread_log_monotone(graph@, start_node, max_steps as nat);
    }
    let ghost adj = graph@;
    let mut visited: HashSet<usize> = HashSet::new();
    visited.insert(start_node);
    let mut frontier: Vec<usize> = Vec::new();
    frontier.push(start_node);
    let mut log: Vec<usize> = Vec::new();
    log.push(1);
    proof {
        assert(frontier@ =~= seq![start_node]);
        assert(frontier@.to_set() =~= set![start_node]);
        assert(visited@ =~= set![start_node]);
        assert(log@.map_values(|c: usize| c as int) =~= seq![1int]);
    }
    let mut step: usize = 0;
    while step < max_steps
        invariant_except_break
            step <= max_steps,
            log@.map_values(|c: usize| c as int) + spread_counts(
                adj,
                visited@,
                frontier@.to_set(),
                (max_steps - step) as nat,
            ) == spread_log(adj, start_node, max_steps as nat),
        invariant
            adj == graph@,
            graph_wf(adj),
        ensures
            log@.map_values(|c: usize| c as int) == spread_log(adj, start_node, max_steps as nat),
        decreases max_steps - step,
    {
        let ghost before = visited@;
        let ghost fset = frontier@.to_set();
        let ghost k = (max_steps - step) as nat;
        let next = expand(graph, &mut visited, &frontier);
        if next.len() == 0 {
            proof {
                assert(next@.to_set() =~= Set::<usize>::empty());
                assert(spread_counts(adj, before, fset, k) =~= Seq::<int>::empty());
                assert(log@.map_values(|c: usize| c as int) + Seq::<int>::empty()
                    =~= log@.map_values(|c: usize| c as int));
            }
            break;
        }
        proof {
            assert(next@.contains(next@[0]));
            assert(next@.to_set().contains(next@[0]));
        }
        let ghost old_log = log@.map_values(|c: usize| c as int);
        frontier = next;
        log.push(visited.len());
        step += 1;
        proof {
            let rest = spread_counts(adj, visited@, frontier@.to_set(), (max_steps - step) as nat);
            assert(spread_counts(adj, before, fset, k) == seq![visited@.len() as int] + rest);
            assert(log@.map_values(|c: usize| c as int) =~= old_log.push(visited@.len() as int));
            assert(old_log + (seq![visited@.len() as int] + rest) =~= old_log.push(
                visited@.len() as int,
            ) + rest);
        }
    }
    proof {
        let m = log@.map_values(|c: usize| c as int);
        assert forall|i: int, j: int| 0 <= i <= j < log@.len() implies log@[i] <= log@[j] by {
            assert(m[i] == log@[i] as int);
            assert(m[j] == log@[j] as int);
        }
        if max_steps == 0 {
            assert(log@ =~= seq![1usize]);
        }
    }
    log
}

/// Picks a known node of the graph at random.
pub fn get_random_node(graph: &Graph) -> (r: usize)
    requires
        graph@.dom().len() > 0,
    ensures
        graph@.contains_key(r),
{
    let nodes = graph.nodes();
    if nodes.len() == 0 {
        proof {
            assert(nodes@.to_set() =~= Set::<usize>::empty());
        }
    }
    let picked = sample_indices(nodes.len(), 1);
    let r = nodes[picked[0]];
    proof {
        assert(nodes@.contains(r));
    }
    r
}

} // verus!
