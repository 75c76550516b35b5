use belay::plan::belady::belady_hints;
use belay::plan::partition::lpt;
use belay::plan::schedule::{belady_evict_candidate, next_use};
use belay::plan::trie::{Chain, PromptTrie};

fn chain(id: u32, tokens: &[u32], cost: u32) -> Chain {
    Chain { id, tokens: tokens.to_vec(), cost, covers: vec![] }
}

#[test]
fn next_use_indices() {
    let sched = vec![1u64, 2, 1, 3, 2];
    let hints = belady_hints(&sched);
    assert_eq!(hints[0], (1, 2));
    assert_eq!(hints[1], (2, 4));
    assert_eq!(hints[2], (1, usize::MAX));
    assert_eq!(hints[3], (3, usize::MAX));
    assert_eq!(hints[4], (2, usize::MAX));
}

#[test]
fn belady_hints_empty_schedule() {
    assert!(belady_hints(&[]).is_empty());
}

#[test]
fn next_use_finds_reuse() {
    let paths = vec![vec![0, 1, 2], vec![0, 1, 3]];
    let nu = next_use(&paths);
    assert_eq!(nu[0][0], Some(1));
    assert_eq!(nu[0][1], Some(1));
    assert_eq!(nu[0][2], None);
    assert_eq!(nu[1][0], None);
}

#[test]
fn next_use_skips_to_first_reuse() {
    let paths = vec![vec![5], vec![6], vec![5], vec![5]];
    let nu = next_use(&paths);
    assert_eq!(nu[0][0], Some(2));
    assert_eq!(nu[2][0], Some(3));
    assert_eq!(nu[3][0], None);
}

#[test]
fn belady_picks_furthest_or_never() {
    let resident = vec![(0u32, Some(5)), (1u32, Some(2)), (2u32, None)];
    assert_eq!(belady_evict_candidate(&resident), Some(2));
}

#[test]
fn belady_tie_goes_to_last_and_empty_is_none() {
    let resident = vec![(7u32, Some(4)), (8u32, Some(4)), (9u32, Some(1))];
    assert_eq!(belady_evict_candidate(&resident), Some(8));
    assert_eq!(belady_evict_candidate(&[]), None);
}

#[test]
fn lpt_balances_load() {
    let weights = vec![(0, 5), (1, 4), (2, 3), (3, 3), (4, 2)];
    let parts = lpt(&weights, 2);
    let loads: Vec<u32> = parts.iter().map(|p| p.iter().map(|&id| weights[id as usize].1).sum()).collect();
    let max = *loads.iter().max().unwrap();
    assert!(max <= 9 + 1);
    assert_eq!(loads.iter().sum::<u32>(), 17);
}

#[test]
fn lpt_exact_assignment_and_edges() {
    // Heaviest first: 5 -> w0, 4 -> w1, 3 -> w1 (4 < 5), 3 -> w0 (5 < 7), 2 -> w1 (7 < 8).
    let weights = vec![(0, 5), (1, 4), (2, 3), (3, 3), (4, 2)];
    assert_eq!(lpt(&weights, 2), vec![vec![0, 3], vec![1, 2, 4]]);
    assert!(lpt(&weights, 0).is_empty());
    // More workers than chains: empty workers are dropped.
    assert_eq!(lpt(&[(9, 1)], 3), vec![vec![9]]);
}

#[test]
fn dfs_order_is_preorder_and_prefill_is_distinct_nodes() {
    let chains = vec![chain(0, &[1, 2, 3], 3), chain(1, &[1, 2, 4], 3), chain(2, &[1, 5], 2)];
    let trie = PromptTrie::build(&chains);
    assert_eq!(trie.dfs_order(), vec![0, 1, 2]);
    assert_eq!(trie.distinct_nodes(), 6);
    assert_eq!(trie.distinct_nodes() - 1, 5);
    assert_eq!(PromptTrie::naive_prefill(&chains), 8);
}

#[test]
fn no_sharing_means_dfs_equals_naive() {
    let chains = vec![chain(0, &[1, 2], 2), chain(1, &[3, 4], 2)];
    let trie = PromptTrie::build(&chains);
    assert_eq!(trie.distinct_nodes() - 1, 4);
    assert_eq!(PromptTrie::naive_prefill(&chains), 4);
}

#[test]
fn trie_later_chain_overwrites_same_path() {
    let chains = vec![chain(0, &[1, 2], 2), chain(1, &[1, 2], 2), chain(2, &[1], 1)];
    let trie = PromptTrie::build(&chains);
    assert_eq!(trie.dfs_order(), vec![2, 1]);
    assert_eq!(trie.distinct_nodes(), 3);
    assert_eq!(trie.root_children_count(), 1);
}

fn branching_chains() -> Vec<Chain> {
    // a->b->{c,d}, a->e
    vec![chain(0, &[1, 2, 3], 3), chain(1, &[1, 2, 4], 3), chain(2, &[1, 5], 2)]
}

#[test]
fn partition_cuts_subtrees_at_the_target_weight() {
    let trie = PromptTrie::build(&branching_chains());
    let unit = |_id: u32| 1u32;
    // Target ⌈3/2⌉ = 2: the b-subtree (chains 0, 1) is cut; e is carried up.
    assert_eq!(trie.partition(&unit, 2), vec![vec![0, 1], vec![2]]);
    // One worker: everything in one part.
    assert_eq!(trie.partition(&unit, 1), vec![vec![0, 1, 2]]);
    // Target 1: every chain is its own part.
    assert_eq!(trie.partition(&unit, 3), vec![vec![0], vec![1], vec![2]]);
}

#[test]
fn partition_with_no_workers_or_no_weight_is_empty() {
    let trie = PromptTrie::build(&branching_chains());
    assert!(trie.partition(&|_id: u32| 1u32, 0).is_empty());
    assert!(trie.partition(&|_id: u32| 0u32, 4).is_empty());
    assert!(PromptTrie::build(&[]).partition(&|_id: u32| 1u32, 2).is_empty());
}

#[test]
fn partition_uses_the_cost_of_each_chain() {
    let chains = branching_chains();
    let trie = PromptTrie::build(&chains);
    let by_cost = |id: u32| chains[id as usize].cost;
    // Total 8, target 4: chains 0 and 1 (3 + 3) are cut together, 2 stays.
    let parts = trie.partition(&by_cost, 2);
    assert_eq!(parts, vec![vec![0, 1], vec![2]]);
    // Every part but one reaches the target.
    let light = parts.iter().filter(|p| p.iter().map(|&id| chains[id as usize].cost).sum::<u32>() < 4).count();
    assert!(light <= 1);
}

#[test]
fn partition_leaves_out_weightless_chains_nothing_carries() {
    let trie = PromptTrie::build(&branching_chains());
    // Chain 2 weighs nothing and sits alone under a: it is dropped.
    let cost = |id: u32| if id == 2 { 0u32 } else { 1u32 };
    assert_eq!(trie.partition(&cost, 2), vec![vec![0], vec![1]]);
}
