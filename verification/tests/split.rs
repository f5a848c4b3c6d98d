use rand::rngs::SmallRng;
use rand::SeedableRng;
use recom::buffers::SplitBuffer;
use recom::graph::Graph;
use recom::spanning::is_tree;
use recom::recom::{
    balance_cuts, find_root, random_split, split_at, RecomParams, RecomProposal, RecomVariant,
    SplitError,
};

fn params(min_pop: u32, max_pop: u32) -> RecomParams {
    RecomParams {
        min_pop,
        max_pop,
        balance_ub: 0,
        num_steps: 0,
        rng_seed: 0,
        variant: RecomVariant::DistrictPairsRMST,
    }
}

fn path(n: usize) -> Vec<Vec<usize>> {
    let mut lists = Vec::new();
    for i in 0..n {
        let mut list = Vec::new();
        if i > 0 {
            list.push(i - 1);
        }
        if i + 1 < n {
            list.push(i + 1);
        }
        lists.push(list);
    }
    lists
}

fn branching() -> Vec<Vec<usize>> {
    vec![
        vec![1],
        vec![0, 2, 3],
        vec![1],
        vec![1, 4, 5],
        vec![3],
        vec![3, 6],
        vec![5],
    ]
}

fn identity(n: usize) -> Vec<usize> {
    (0..n).collect()
}

fn sorted(nodes: &[usize]) -> Vec<usize> {
    let mut copy = nodes.to_vec();
    copy.sort();
    copy
}

#[test]
fn two_nodes_on_one_edge_have_no_root() {
    let tree = path(2);
    let graph = Graph::new(tree.clone(), vec![3, 4]).unwrap();
    let mut buf = SplitBuffer::new(2, 0);
    let mut proposal = RecomProposal::new_buffer(2);
    let mut rng = SmallRng::seed_from_u64(7);
    let res = random_split(
        &graph,
        &mut rng,
        &tree,
        0,
        1,
        &mut buf,
        &mut proposal,
        &identity(2),
        &params(0, 10),
    );
    assert_eq!(res, Err(SplitError::NoRootableNode));
    assert!(proposal.a_nodes.is_empty());
    assert!(proposal.b_nodes.is_empty());
}

#[test]
fn a_single_node_has_no_root() {
    let tree: Vec<Vec<usize>> = vec![vec![]];
    let graph = Graph::new(tree.clone(), vec![9]).unwrap();
    let mut buf = SplitBuffer::new(1, 0);
    assert_eq!(
        balance_cuts(&graph, &tree, &mut buf, &params(0, 10)),
        Err(SplitError::NoRootableNode)
    );
}

#[test]
fn find_root_takes_first_node_with_two_neighbours() {
    assert_eq!(find_root(&path(4)), 1);
    assert_eq!(find_root(&path(2)), 2);
    assert_eq!(find_root(&branching()), 1);
    let star = vec![vec![1, 2, 3], vec![0], vec![0], vec![0]];
    assert_eq!(find_root(&star), 0);
}

#[test]
fn path_of_four_has_a_cut_at_every_edge() {
    let tree = path(4);
    let graph = Graph::new(tree.clone(), vec![1, 1, 1, 1]).unwrap();
    let mut buf = SplitBuffer::new(4, 0);
    let p = params(1, 3);
    assert_eq!(balance_cuts(&graph, &tree, &mut buf, &p), Ok(3));
    assert_eq!(buf.balance_nodes, vec![0, 2, 3]);
    assert_eq!(&buf.tree_pops[..4], &[1, 4, 2, 1]);
    assert_eq!(buf.succ[1], vec![0, 2]);
    assert_eq!(buf.succ[2], vec![3]);
    assert_eq!(buf.pred[0], 1);
    assert_eq!(buf.pred[2], 1);
    assert_eq!(buf.pred[3], 2);

    let expected = [
        (vec![0], vec![1, 2, 3], 1, 3),
        (vec![2, 3], vec![0, 1], 2, 2),
        (vec![3], vec![0, 1, 2], 1, 3),
    ];
    for (pick, (a_nodes, b_nodes, a_pop, b_pop)) in expected.iter().enumerate() {
        let mut buf = SplitBuffer::new(4, 0);
        let mut proposal = RecomProposal::new_buffer(4);
        assert_eq!(balance_cuts(&graph, &tree, &mut buf, &p), Ok(3));
        split_at(&graph, &tree, 5, 6, &mut buf, &mut proposal, &identity(4), &p, pick);
        assert_eq!(&proposal.a_nodes, a_nodes);
        assert_eq!(&proposal.b_nodes, b_nodes);
        assert_eq!(proposal.a_pop, *a_pop);
        assert_eq!(proposal.b_pop, *b_pop);
        assert_eq!(proposal.a_label, 5);
        assert_eq!(proposal.b_label, 6);
    }
}

#[test]
fn every_cut_of_the_path_is_drawn_by_some_seed() {
    let tree = path(4);
    let graph = Graph::new(tree.clone(), vec![1, 1, 1, 1]).unwrap();
    let p = params(1, 3);
    let mut buf = SplitBuffer::new(4, 0);
    let mut proposal = RecomProposal::new_buffer(4);
    let mut seen = [false; 3];
    for seed in 0..200u64 {
        let mut rng = SmallRng::seed_from_u64(seed);
        let res = random_split(
            &graph,
            &mut rng,
            &tree,
            0,
            1,
            &mut buf,
            &mut proposal,
            &identity(4),
            &p,
        );
        assert_eq!(res, Ok(3));
        let which = match proposal.a_nodes.as_slice() {
            [0] => 0,
            [2, 3] => 1,
            [3] => 2,
            other => panic!("not a cut of the path: {:?}", other),
        };
        seen[which] = true;
        assert_eq!(proposal.a_pop + proposal.b_pop, 4);
        assert!(1 <= proposal.a_pop && proposal.a_pop <= 3);
        assert!(1 <= proposal.b_pop && proposal.b_pop <= 3);
        let mut all = proposal.a_nodes.clone();
        all.extend(proposal.b_nodes.iter());
        assert_eq!(sorted(&all), vec![0, 1, 2, 3]);
    }
    assert_eq!(seen, [true, true, true]);
}

#[test]
fn one_balance_node_is_always_the_cut() {
    let tree = path(4);
    let graph = Graph::new(tree.clone(), vec![1, 1, 1, 1]).unwrap();
    let p = params(2, 2);
    let mut buf = SplitBuffer::new(4, 0);
    let mut proposal = RecomProposal::new_buffer(4);
    for seed in 0..20u64 {
        let mut rng = SmallRng::seed_from_u64(seed);
        let res = random_split(
            &graph,
            &mut rng,
            &tree,
            3,
            8,
            &mut buf,
            &mut proposal,
            &identity(4),
            &p,
        );
        assert_eq!(res, Ok(1));
        assert_eq!(proposal.a_nodes, vec![2, 3]);
        assert_eq!(proposal.b_nodes, vec![0, 1]);
        assert_eq!(proposal.a_pop, 2);
        assert_eq!(proposal.b_pop, 2);
        assert_eq!(proposal.a_label, 3);
        assert_eq!(proposal.b_label, 8);
    }
}

#[test]
fn no_balanced_cut_is_reported() {
    let tree = path(3);
    let graph = Graph::new(tree.clone(), vec![1, 1, 1]).unwrap();
    let mut buf = SplitBuffer::new(3, 0);
    let mut proposal = RecomProposal::new_buffer(3);
    proposal.a_nodes.push(99);
    proposal.b_nodes.push(98);
    proposal.a_label = 4;
    proposal.a_pop = 17;
    let mut rng = SmallRng::seed_from_u64(1);
    let res = random_split(
        &graph,
        &mut rng,
        &tree,
        0,
        1,
        &mut buf,
        &mut proposal,
        &identity(3),
        &params(2, 2),
    );
    assert_eq!(res, Err(SplitError::NoBalancedCut));
    assert!(proposal.a_nodes.is_empty());
    assert!(proposal.b_nodes.is_empty());
    assert_eq!(proposal.a_label, 4);
    assert_eq!(proposal.a_pop, 17);
}

#[test]
fn subtree_populations_and_cuts_of_a_branching_tree() {
    let tree = branching();
    let graph = Graph::new(tree.clone(), vec![5, 1, 2, 3, 4, 6, 7]).unwrap();
    let mut buf = SplitBuffer::new(7, 4);
    let p = params(8, 20);
    assert_eq!(balance_cuts(&graph, &tree, &mut buf, &p), Ok(2));
    assert_eq!(buf.tree_pops, vec![5, 28, 2, 20, 4, 13, 7]);
    assert_eq!(buf.balance_nodes, vec![3, 5]);
    assert_eq!(buf.succ[1], vec![0, 2, 3]);
    assert_eq!(buf.succ[3], vec![4, 5]);
    assert_eq!(buf.succ[5], vec![6]);
    assert!(buf.succ[0].is_empty());
    assert!(buf.deque.is_empty());
}

#[test]
fn sides_come_breadth_first_and_ascending_under_the_map() {
    let tree = branching();
    let graph = Graph::new(tree.clone(), vec![5, 1, 2, 3, 4, 6, 7]).unwrap();
    let map = vec![10, 11, 12, 13, 14, 15, 16];
    let p = params(8, 20);

    let mut buf = SplitBuffer::new(7, 4);
    let mut proposal = RecomProposal::new_buffer(7);
    assert_eq!(balance_cuts(&graph, &tree, &mut buf, &p), Ok(2));
    split_at(&graph, &tree, 1, 2, &mut buf, &mut proposal, &map, &p, 0);
    assert_eq!(proposal.a_nodes, vec![13, 14, 15, 16]);
    assert_eq!(proposal.b_nodes, vec![10, 11, 12]);
    assert_eq!(proposal.a_pop, 20);
    assert_eq!(proposal.b_pop, 8);

    assert_eq!(balance_cuts(&graph, &tree, &mut buf, &p), Ok(2));
    split_at(&graph, &tree, 1, 2, &mut buf, &mut proposal, &map, &p, 1);
    assert_eq!(proposal.a_nodes, vec![15, 16]);
    assert_eq!(proposal.b_nodes, vec![10, 11, 12, 13, 14]);
    assert_eq!(proposal.a_pop, 13);
    assert_eq!(proposal.b_pop, 15);
}

#[test]
fn children_follow_the_order_of_the_neighbour_list() {
    let tree = vec![
        vec![1],
        vec![3, 2, 0],
        vec![1],
        vec![5, 1, 4],
        vec![3],
        vec![6, 3],
        vec![5],
    ];
    let graph = Graph::new(tree.clone(), vec![5, 1, 2, 3, 4, 6, 7]).unwrap();
    let p = params(8, 20);
    let mut buf = SplitBuffer::new(7, 4);
    let mut proposal = RecomProposal::new_buffer(7);
    assert_eq!(balance_cuts(&graph, &tree, &mut buf, &p), Ok(2));
    assert_eq!(buf.succ[1], vec![3, 2, 0]);
    assert_eq!(buf.succ[3], vec![5, 4]);
    split_at(&graph, &tree, 1, 2, &mut buf, &mut proposal, &identity(7), &p, 0);
    assert_eq!(proposal.a_nodes, vec![3, 5, 4, 6]);
    assert_eq!(proposal.b_nodes, vec![0, 1, 2]);
}

#[test]
fn the_root_is_a_balance_node_where_a_side_may_be_empty() {
    let tree = path(3);
    let graph = Graph::new(tree.clone(), vec![2, 2, 2]).unwrap();
    let p = params(0, 6);
    let mut buf = SplitBuffer::new(3, 0);
    let mut proposal = RecomProposal::new_buffer(3);
    assert_eq!(balance_cuts(&graph, &tree, &mut buf, &p), Ok(3));
    assert_eq!(buf.balance_nodes, vec![0, 1, 2]);
    split_at(&graph, &tree, 0, 1, &mut buf, &mut proposal, &identity(3), &p, 1);
    assert_eq!(proposal.a_nodes, vec![1, 0, 2]);
    assert!(proposal.b_nodes.is_empty());
    assert_eq!(proposal.a_pop, 6);
    assert_eq!(proposal.b_pop, 0);
}

#[test]
fn a_buffer_larger_than_the_subgraph_gives_the_same_cuts() {
    let tree = path(4);
    let graph = Graph::new(tree.clone(), vec![0, 0, 0, 0]).unwrap();
    let p = params(0, 0);
    let mut small = SplitBuffer::new(4, 0);
    let mut large = SplitBuffer::new(64, 8);
    assert_eq!(balance_cuts(&graph, &tree, &mut small, &p), Ok(4));
    assert_eq!(balance_cuts(&graph, &tree, &mut large, &p), Ok(4));
    assert_eq!(small.balance_nodes, vec![0, 1, 2, 3]);
    assert_eq!(large.balance_nodes, vec![0, 1, 2, 3]);
}

#[test]
fn same_seed_same_proposal() {
    let tree = branching();
    let graph = Graph::new(tree.clone(), vec![5, 1, 2, 3, 4, 6, 7]).unwrap();
    let map = vec![20, 21, 22, 23, 24, 25, 26];
    let p = params(5, 23);
    for seed in 0..50u64 {
        let mut first = RecomProposal::new_buffer(7);
        let mut second = RecomProposal::new_buffer(7);
        let mut buf_one = SplitBuffer::new(7, 4);
        let mut buf_two = SplitBuffer::new(32, 4);
        let mut rng_one = SmallRng::seed_from_u64(seed);
        let mut rng_two = SmallRng::seed_from_u64(seed);
        let one = random_split(
            &graph, &mut rng_one, &tree, 1, 2, &mut buf_one, &mut first, &map, &p,
        );
        let two = random_split(
            &graph, &mut rng_two, &tree, 1, 2, &mut buf_two, &mut second, &map, &p,
        );
        assert_eq!(one, Ok(4));
        assert_eq!(one, two);
        assert_eq!(first.a_nodes, second.a_nodes);
        assert_eq!(first.b_nodes, second.b_nodes);
        assert_eq!(first.a_pop, second.a_pop);
        assert_eq!(first.b_pop, second.b_pop);
        assert_eq!(first.a_label, second.a_label);
        assert_eq!(first.b_label, second.b_label);
    }
}

#[test]
fn every_successful_split_divides_the_nodes_in_balance() {
    let tree = branching();
    let pops = vec![5, 1, 2, 3, 4, 6, 7];
    let graph = Graph::new(tree.clone(), pops.clone()).unwrap();
    let map = vec![40, 30, 20, 10, 50, 60, 70];
    let p = params(5, 23);
    let mut buf = SplitBuffer::new(10, 4);
    let mut proposal = RecomProposal::new_buffer(7);
    for seed in 0..100u64 {
        let mut rng = SmallRng::seed_from_u64(seed);
        let res = random_split(&graph, &mut rng, &tree, 1, 2, &mut buf, &mut proposal, &map, &p);
        assert_eq!(res, Ok(4));
        assert_eq!(proposal.a_pop + proposal.b_pop, graph.total_pop);
        assert!(p.min_pop <= proposal.a_pop && proposal.a_pop <= p.max_pop);
        assert!(p.min_pop <= proposal.b_pop && proposal.b_pop <= p.max_pop);
        for node in proposal.a_nodes.iter() {
            assert!(!proposal.b_nodes.contains(node));
        }
        let mut all = proposal.a_nodes.clone();
        all.extend(proposal.b_nodes.iter());
        assert_eq!(sorted(&all), sorted(&map));
        let a_sum: u32 = proposal
            .a_nodes
            .iter()
            .map(|name| pops[map.iter().position(|m| m == name).unwrap()])
            .sum();
        assert_eq!(a_sum, proposal.a_pop);
    }
}

#[test]
fn the_buffer_is_reused_from_call_to_call() {
    let mut buf = SplitBuffer::new(7, 4);
    let mut proposal = RecomProposal::new_buffer(7);
    let mut rng = SmallRng::seed_from_u64(11);

    let big = branching();
    let big_graph = Graph::new(big.clone(), vec![5, 1, 2, 3, 4, 6, 7]).unwrap();
    let res = random_split(
        &big_graph,
        &mut rng,
        &big,
        0,
        1,
        &mut buf,
        &mut proposal,
        &identity(7),
        &params(8, 20),
    );
    assert_eq!(res, Ok(2));

    let small = path(4);
    let small_graph = Graph::new(small.clone(), vec![1, 1, 1, 1]).unwrap();
    let res = random_split(
        &small_graph,
        &mut rng,
        &small,
        0,
        1,
        &mut buf,
        &mut proposal,
        &identity(4),
        &params(2, 2),
    );
    assert_eq!(res, Ok(1));
    assert_eq!(proposal.a_nodes, vec![2, 3]);
    assert_eq!(proposal.b_nodes, vec![0, 1]);
    assert_eq!(buf.visited.len(), 7);
}

#[test]
fn split_errors_in_words() {
    assert_eq!(SplitError::NoRootableNode.message(), "no rootable node in the spanning tree");
    assert_eq!(SplitError::NoBalancedCut.message(), "no balanced cut");
}

#[test]
fn trees_are_told_from_other_lists() {
    assert!(is_tree(&path(1)));
    assert!(is_tree(&path(2)));
    assert!(is_tree(&path(9)));
    assert!(is_tree(&branching()));
    assert!(is_tree(&vec![vec![1, 2, 3], vec![0], vec![0], vec![0]]));
    let none: Vec<Vec<usize>> = Vec::new();
    assert!(!is_tree(&none));
    // a cycle
    assert!(!is_tree(&vec![vec![1, 2], vec![0, 2], vec![1, 0]]));
    // two pieces
    assert!(!is_tree(&vec![vec![1], vec![0], vec![3], vec![2]]));
    // an edge named from one end only
    assert!(!is_tree(&vec![vec![1], vec![0, 2], vec![]]));
    assert!(!is_tree(&vec![vec![1], vec![2], vec![1]]));
    // an edge named twice
    assert!(!is_tree(&vec![vec![1, 1], vec![0, 0]]));
    // a loop
    assert!(!is_tree(&vec![vec![0]]));
    assert!(!is_tree(&vec![vec![1, 0], vec![0]]));
    // a neighbour that is no node
    assert!(!is_tree(&vec![vec![1], vec![0, 2]]));
    // a tree with a cycle beside it
    assert!(!is_tree(&vec![vec![1], vec![0], vec![3, 4], vec![2, 4], vec![2, 3]]));
}

#[test]
fn the_tree_decides_where_the_graph_has_more_edges() {
    let ring = vec![vec![1, 3], vec![0, 2], vec![1, 3], vec![2, 0]];
    let graph = Graph::new(ring, vec![1, 1, 1, 1]).unwrap();
    let tree = path(4);
    let p = params(1, 3);
    let mut buf = SplitBuffer::new(4, 0);
    assert_eq!(balance_cuts(&graph, &tree, &mut buf, &p), Ok(3));
    assert_eq!(buf.balance_nodes, vec![0, 2, 3]);
    assert_eq!(&buf.tree_pops[..4], &[1, 4, 2, 1]);
}
