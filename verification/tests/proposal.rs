use recom::buffers::SplitBuffer;
use recom::graph::Graph;
use recom::recom::RecomProposal;

fn square_with_diagonal() -> Graph {
    Graph::new(
        vec![vec![1, 3, 2], vec![0, 2], vec![1, 3, 0], vec![2, 0]],
        vec![1, 2, 3, 4],
    )
    .unwrap()
}

fn proposal(a_nodes: Vec<usize>, b_nodes: Vec<usize>) -> RecomProposal {
    let mut p = RecomProposal::new_buffer(4);
    p.a_nodes = a_nodes;
    p.b_nodes = b_nodes;
    p
}

#[test]
fn new_buffer_is_empty() {
    let p = RecomProposal::new_buffer(16);
    assert_eq!(p.a_label, 0);
    assert_eq!(p.b_label, 0);
    assert_eq!(p.a_pop, 0);
    assert_eq!(p.b_pop, 0);
    assert!(p.a_nodes.is_empty());
    assert!(p.b_nodes.is_empty());
    assert!(p.a_nodes.capacity() >= 16);
    assert!(p.b_nodes.capacity() >= 16);
}

#[test]
fn clear_empties_the_lists_and_keeps_the_rest() {
    let mut p = proposal(vec![1, 2], vec![3]);
    p.a_label = 7;
    p.b_label = 8;
    p.a_pop = 100;
    p.b_pop = 200;
    p.clear();
    assert!(p.a_nodes.is_empty());
    assert!(p.b_nodes.is_empty());
    assert_eq!(p.a_label, 7);
    assert_eq!(p.b_label, 8);
    assert_eq!(p.a_pop, 100);
    assert_eq!(p.b_pop, 200);
}

#[test]
fn seam_length_counts_the_crossing_edges() {
    let graph = square_with_diagonal();
    assert_eq!(proposal(vec![0, 1], vec![2, 3]).seam_length(&graph), 3);
    assert_eq!(proposal(vec![0], vec![1, 2, 3]).seam_length(&graph), 3);
    assert_eq!(proposal(vec![1], vec![0, 2, 3]).seam_length(&graph), 2);
    assert_eq!(proposal(vec![0, 1, 2, 3], vec![]).seam_length(&graph), 0);
    assert_eq!(proposal(vec![], vec![0, 1, 2, 3]).seam_length(&graph), 0);
    assert_eq!(proposal(vec![1], vec![3]).seam_length(&graph), 0);
}

#[test]
fn seam_length_is_the_same_from_either_side() {
    let graph = square_with_diagonal();
    let sides: [(Vec<usize>, Vec<usize>); 4] = [
        (vec![0, 1], vec![2, 3]),
        (vec![0], vec![1, 2, 3]),
        (vec![3, 1], vec![0, 2]),
        (vec![2], vec![0]),
    ];
    for (a, b) in sides.iter() {
        let one = proposal(a.clone(), b.clone()).seam_length(&graph);
        let other = proposal(b.clone(), a.clone()).seam_length(&graph);
        assert_eq!(one, other);
    }
}

#[test]
fn seam_length_looks_at_the_nodes_only() {
    let graph = square_with_diagonal();
    let mut one = proposal(vec![0, 1], vec![2, 3]);
    one.a_label = 1;
    one.a_pop = 50;
    let mut other = proposal(vec![1, 0], vec![3, 2]);
    other.b_label = 9;
    other.b_pop = 60;
    assert_eq!(one.seam_length(&graph), other.seam_length(&graph));
    let before = one.a_nodes.clone();
    let _ = one.seam_length(&graph);
    assert_eq!(one.a_nodes, before);
}

#[test]
fn seam_length_counts_a_node_as_often_as_b_lists_it() {
    let graph = square_with_diagonal();
    assert_eq!(proposal(vec![0, 0], vec![2, 2]).seam_length(&graph), 2);
}

#[test]
fn graph_new_checks_its_parts() {
    let graph = Graph::new(vec![vec![1], vec![0]], vec![3, 4]).unwrap();
    assert_eq!(graph.total_pop, 7);
    assert_eq!(graph.pops, vec![3, 4]);
    assert_eq!(graph.neighbors, vec![vec![1], vec![0]]);
    assert!(Graph::new(vec![vec![1]], vec![3, 4]).is_none());
    assert!(Graph::new(vec![vec![1], vec![2]], vec![3, 4]).is_none());
    assert!(Graph::new(vec![vec![1], vec![0]], vec![u32::MAX, 1]).is_none());
    let all = Graph::new(vec![vec![1], vec![0]], vec![u32::MAX, 0]).unwrap();
    assert_eq!(all.total_pop, u32::MAX);
    let empty = Graph::new(vec![], vec![]).unwrap();
    assert_eq!(empty.total_pop, 0);
}

#[test]
fn split_buffer_starts_clear() {
    let buf = SplitBuffer::new(5, 3);
    assert_eq!(buf.visited, vec![false; 5]);
    assert_eq!(buf.pred, vec![0; 5]);
    assert_eq!(buf.succ, vec![Vec::<usize>::new(); 5]);
    assert_eq!(buf.pop_found, vec![false; 5]);
    assert_eq!(buf.tree_pops, vec![0; 5]);
    assert_eq!(buf.in_a, vec![false; 5]);
    assert!(buf.deque.is_empty());
    assert!(buf.balance_nodes.is_empty());
    assert!(buf.balance_nodes.capacity() >= 3);
}

#[test]
fn split_buffer_clear_resets_every_field() {
    let mut buf = SplitBuffer::new(3, 1);
    buf.visited[1] = true;
    buf.pred[2] = 1;
    buf.succ[0].push(2);
    buf.pop_found[0] = true;
    buf.tree_pops[2] = 40;
    buf.in_a[1] = true;
    buf.deque.push_back(2);
    buf.balance_nodes.push(1);
    buf.clear();
    assert_eq!(buf.visited, vec![false; 3]);
    assert_eq!(buf.pred, vec![0; 3]);
    assert_eq!(buf.succ, vec![Vec::<usize>::new(); 3]);
    assert_eq!(buf.pop_found, vec![false; 3]);
    assert_eq!(buf.tree_pops, vec![0; 3]);
    assert_eq!(buf.in_a, vec![false; 3]);
    assert!(buf.deque.is_empty());
    assert!(buf.balance_nodes.is_empty());
}

#[test]
fn split_buffer_has_room_up_to_its_capacity() {
    let mut buf = SplitBuffer::new(5, 0);
    assert!(buf.has_room(0));
    assert!(buf.has_room(5));
    assert!(!buf.has_room(6));
    buf.in_a.pop();
    assert!(!buf.has_room(3));
}

#[test]
fn graph_validity() {
    let mut graph = Graph::new(vec![vec![1], vec![0]], vec![3, 4]).unwrap();
    assert!(graph.is_valid());
    graph.total_pop = 8;
    assert!(!graph.is_valid());
    graph.total_pop = 7;
    graph.neighbors[0].push(2);
    assert!(!graph.is_valid());
    graph.neighbors[0].pop();
    graph.pops.push(0);
    assert!(!graph.is_valid());
    graph.neighbors.push(vec![]);
    assert!(graph.is_valid());
}
