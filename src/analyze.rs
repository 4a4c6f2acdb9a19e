use vstd::prelude::*;

use crate::graph::Graph;
use crate::sampling::sample_indices;
use crate::simulate::simulate_spread;
use crate::simulate::spread_log;

verus! {

broadcast use vstd::seq_lib::group_to_multiset_ensures;

/// The number of nodes a run from `seed` reaches: the last entry of its log.
pub open spec fn total_reach(adj: Map<usize, Set<usize>>, seed: usize, max_steps: nat) -> int {
    spread_log(adj, seed, max_steps).last()
}

/// The node ids of a ranking, in order.
pub open spec fn ids_of(ranked: Seq<(usize, usize)>) -> Seq<usize> {
    ranked.map_values(|p: (usize, usize)| p.0)
}

/// Reach never grows along the ranking.
pub open spec fn sorted_by_reach(ranked: Seq<(usize, usize)>) -> bool {
    forall|i: int, j: int| 0 <= i <= j < ranked.len() ==> ranked[i].1 >= ranked[j].1
}

/// Each entry pairs a node with its own reach.
pub open spec fn reaches_match(adj: Map<usize, Set<usize>>, ranked: Seq<(usize, usize)>, max_steps: nat) -> bool {
    forall|i: int| 0 <= i < ranked.len() ==> ranked[i].1 as int == total_reach(adj, ranked[i].0, max_steps)
}

/// Inserting an element adds it once to the sequence's multiset.
proof fn lemma_insert_to_multiset<A>(s: Seq<A>, p: int, x: A)
    requires
        0 <= p <= s.len(),
    ensures
        s.insert(p, x).to_multiset() =~= s.to_multiset().insert(x),
{
    let t = s.insert(p, x);
    assert(t.remove(p) =~= s);
    assert(t.contains(x)) by {
        assert(t[p] == x);
    }
    assert(t.to_multiset().count(x) > 0);
}

/// Places `entry` after every entry of at least its reach and before the rest.
fn insert_by_reach(ranked: &mut Vec<(usize, usize)>, entry: (usize, usize))
    requires
        sorted_by_reach(old(ranked)@),
    ensures
        sorted_by_reach(final(ranked)@),
        exists|p: int|
            0 <= p <= old(ranked)@.len() && final(ranked)@ == #[trigger] old(ranked)@.insert(p, entry),
{
    let mut p: usize = 0;
    while p < ranked.len() && ranked[p].1 >= entry.1
        invariant
            p <= ranked.len(),
            forall|k: int| 0 <= k < p ==> ranked@[k].1 >= entry.1,
        decreases ranked.len() - p,
    {
        p += 1;
    }
    let ghost before = ranked@;
    ranked.insert(p, entry);
    proof {
        assert forall|i: int, j: int| 0 <= i <= j < ranked@.len() implies ranked@[i].1 >= ranked@[j].1 by {
            if i < p && j > p {
                assert(ranked@[j] == before[j - 1]);
            } else if i > p {
                assert(ranked@[i] == before[i - 1] && ranked@[j] == before[j - 1]);
            } else if i == p && j > p {
                assert(ranked@[j] == before[j - 1]);
                assert(before[p as int].1 < entry.1);
            }
        }
        assert(ranked@ == before.insert(p as int, entry));
    }
}

/// Runs a simulation from each candidate and ranks the candidates by reach,
/// highest first.
pub fn rank_spreaders(graph: &Graph, candidates: &Vec<usize>, max_steps: usize) -> (r: Vec<(usize, usize)>)
    ensures
        ids_of(r@).to_multiset() == candidates@.to_multiset(),
        reaches_match(graph@, r@, max_steps as nat),
        sorted_by_reach(r@),
{
    let mut ranked: Vec<(usize, usize)> = Vec::new();
    let mut i: usize = 0;
    while i < candidates.len()
        invariant
            i <= candidates.len(),
            ids_of(ranked@).to_multiset() == candidates@.take(i as int).to_multiset(),
            reaches_match(graph@, ranked@, max_steps as nat),
            sorted_by_reach(ranked@),
        decreases candidates.len() - i,
    {
        let seed = candidates[i];
        let spread = simulate_spread(graph, seed, max_steps);
        let total = spread[spread.len() - 1];
        proof {
            let m = spread@.map_values(|c: usize| c as int);
            assert(m[m.len() - 1] == total as int);
        }
        let ghost before = ranked@;
        insert_by_reach(&mut ranked, (seed, total));
        proof {
            let p = choose|p: int| 0 <= p <= before.len() && ranked@ == #[trigger] before.insert(p, (seed, total));
            assert(ids_of(ranked@) =~= ids_of(before).insert(p, seed));
            lemma_insert_to_multiset(ids_of(before), p, seed);
            assert(candidates@.take(i + 1) =~= candidates@.take(i as int).push(seed));
            assert forall|k: int| 0 <= k < ranked@.len() implies ranked@[k].1 as int == total_reach(
                graph@,
                ranked@[k].0,
                max_steps as nat,
            ) by {
                if k < p {
                    assert(ranked@[k] == before[k]);
                } else if k > p {
                    assert(ranked@[k] == before[k - 1]);
                }
            }
        }
        i += 1;
    }
    assert(candidates@.take(candidates@.len() as int) =~= candidates@);
    ranked
}

/// Ranks a random sample of `num_trials` distinct known nodes by reach,
/// highest first; the sample is the whole node set when `num_trials` is at
/// least the number of known nodes.
pub fn find_top_spreaders(graph: &Graph, num_trials: usize, max_steps: usize) -> (r: Vec<(usize, usize)>)
    ensures
        r@.len() == if num_trials < graph@.dom().len() { num_trials as int } else { graph@.dom().len() as int },
        ids_of(r@).no_duplicates(),
        forall|i: int| 0 <= i < r@.len() ==> graph@.contains_key(#[trigger] r@[i].0),
        num_trials >= graph@.dom().len() ==> ids_of(r@).to_set() == graph@.dom(),
        reaches_match(graph@, r@, max_steps as nat),
        sorted_by_reach(r@),
{
    let all_nodes = graph.nodes();
    let amount = if num_trials < all_nodes.len() { num_trials } else { all_nodes.len() };
    let picks = sample_indices(all_nodes.len(), amount);
    let mut sampled: Vec<usize> = Vec::new();
    let mut k: usize = 0;
    while k < picks.len()
        invariant
            k <= picks.len(),
            picks@.len() == amount,
            picks@.no_duplicates(),
            forall|i: int| 0 <= i < picks@.len() ==> picks@[i] < all_nodes@.len(),
            all_nodes@.no_duplicates(),
            sampled@.len() == k,
            forall|i: int| 0 <= i < k ==> sampled@[i] == all_nodes@[picks@[i] as int],
        decreases picks.len() - k,
    {
        sampled.push(all_nodes[picks[k]]);
        k += 1;
    }
    let r = rank_spreaders(graph, &sampled, max_steps);
    proof {
        all_nodes@.unique_seq_to_set();
        assert(sampled@.no_duplicates()) by {
            assert forall|a: int, b: int| 0 <= a < sampled@.len() && 0 <= b < sampled@.len() && a != b
                implies sampled@[a] != sampled@[b] by {
                assert(picks@[a] != picks@[b]);
            }
        }
        let ids = ids_of(r@);
        assert(ids.len() == sampled@.len()) by {
            assert(ids.to_multiset().len() == sampled@.to_multiset().len());
        }
        sampled@.lemma_multiset_has_no_duplicates();
        ids.lemma_multiset_has_no_duplicates_conv();
        assert forall|i: int| 0 <= i < r@.len() implies graph@.contains_key(#[trigger] r@[i].0) by {
            assert(ids[i] == r@[i].0);
            assert(ids.contains(ids[i]));
            assert(ids.to_multiset().count(ids[i]) > 0);
            assert(sampled@.contains(ids[i]));
            let j = choose|j: int| 0 <= j < sampled@.len() && sampled@[j] == ids[i];
            assert(all_nodes@.contains(sampled@[j]));
            assert(all_nodes@.to_set().contains(sampled@[j]));
        }
        if num_trials >= graph@.dom().len() {
            assert(ids.to_set().subset_of(graph@.dom())) by {
                assert forall|x: usize| ids.to_set().contains(x) implies graph@.contains_key(x) by {
                    let i = choose|i: int| 0 <= i < ids.len() && ids[i] == x;
                    assert(r@[i].0 == x);
                }
            }
            ids.unique_seq_to_set();
            vstd::seq_lib::seq_to_set_is_finite(ids);
            vstd::set_lib::lemma_subset_equality(ids.to_set(), graph@.dom());
        }
    }
    r
}

} // verus!
