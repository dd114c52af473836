use itualgs_rs::graph::bfp::BFP;
use itualgs_rs::graph::dfp::DFP;
use itualgs_rs::graph::dfs::DFS;
use itualgs_rs::graph::di_graph::{Graph, GraphError};
use itualgs_rs::graph::dijkstra_sp::DijkstraSP;
use itualgs_rs::graph::edge::Edge;
use itualgs_rs::graph::edge_weighted_graph::EdgeWeightedGraph;
use itualgs_rs::graph::kruskal_mst::KruskalMST;
use std::cmp::Ordering;
use std::rc::Rc;

#[test]
fn bfp_test_create_graph() {
    let mut g = Graph::new(4);
    g.add_edge(0, 1).unwrap();
    g.add_edge(0, 2).unwrap();
    let paths = BFP::new(&mut g, 2).unwrap();
    let mut s = paths.get_path_to(1).unwrap().unwrap();
    assert_eq!(s.pop().unwrap(), 2 as usize);
    assert_eq!(s.pop().unwrap(), 0 as usize);
    assert_eq!(s.pop().unwrap(), 1 as usize);
    assert_eq!(paths.has_path_to(1).unwrap(), true);
}

#[test]
fn dfp_test_create_graph() {
    let mut g = Graph::new(4);
    g.add_edge(0, 1).unwrap();
    g.add_edge(0, 2).unwrap();
    let paths = DFP::new(&mut g, 2).unwrap();
    assert_eq!(paths.marked[1], true);
    assert_eq!(paths.edge_to[2], 0);
    assert_eq!(paths.marked[2], true);
    assert_eq!(paths.marked[3], false);
}

#[test]
fn dfs_test_create_graph() {
    let mut g = Graph::new(4);
    g.add_edge(0, 1).unwrap();
    g.add_edge(0, 2).unwrap();
    let paths = DFS::new(&mut g, 2).unwrap();
    assert_eq!(paths.marked[1], true);
    assert_eq!(paths.marked[0], true);
    assert_eq!(paths.marked[2], true);
    assert_eq!(paths.marked[3], false);
}

#[test]
fn di_graph_test_create_graph() {
    let mut g = Graph::new(4);
    g.add_edge(0, 1).unwrap();
    g.add_edge(0, 2).unwrap();
    let mut it = g.adj_vertices(0).unwrap();
    assert_eq!(*it.next().unwrap(), 1);
    assert_eq!(*it.next().unwrap(), 2);
}

#[test]
fn test_create_empty_graph() {
    let g = Graph::new(4);
    let mut it = g.adj_vertices(0).unwrap();
    assert_eq!(it.next(), None);
}

#[test]
fn dijkstra_sp_test_create_graph() {
    let mut g = EdgeWeightedGraph::new(4);
    let list = vec![Edge::new(0, 1, 10), Edge::new(2, 1, 2), Edge::new(2, 0, 20)];

    for ele in list {
        g.add_edge(ele).unwrap();
    }
    let k = DijkstraSP::new(g, 0).unwrap();
    let dist_2 = k.get_distance_to(2).unwrap();
    assert_eq!(dist_2, 12);

    let mut path = k.path_to(2).unwrap().unwrap();

    assert_eq!(path.pop().unwrap().weight, 10);
    assert_eq!(path.pop().unwrap().weight, 2);
    assert_eq!(path.is_empty(), true);
}

#[test]
fn kruskal_mst_test_create_graph() {
    let mut g = EdgeWeightedGraph::new(4);
    let list = vec![Edge::new(0, 1, 10), Edge::new(2, 1, 2), Edge::new(2, 0, 20)];

    for ele in list {
        g.add_edge(ele).unwrap();
    }
    let mut k = KruskalMST::new(g);
    let edges = k.edges();
    let w1 = edges.dequeue().unwrap();
    let w2 = edges.dequeue().unwrap();
    assert_eq!(w1.weight, 2);
    assert_eq!(w2.weight, 10);
}

fn example_graph() -> EdgeWeightedGraph {
    let mut g = EdgeWeightedGraph::new(4);
    g.add_edge(Edge::new(0, 1, 10)).unwrap();
    g.add_edge(Edge::new(2, 1, 2)).unwrap();
    g.add_edge(Edge::new(2, 0, 20)).unwrap();
    g
}

#[test]
fn edge_knows_its_ends() {
    let edge = Edge::new(1, 2, 3);
    let either = edge.either();
    let other = edge.other(either).unwrap();
    assert_eq!(either, 1);
    assert_eq!(other, 2);
    assert_eq!(edge.other(2), Ok(1));
    assert_eq!(edge.other(5), Err(GraphError::InvalidEndpoint));
    assert_eq!(edge.weight, 3);
    assert_eq!(edge.weight(), 3);
    let copy = edge.clone();
    assert_eq!(copy.either(), 1);
    assert_eq!(copy.other(1), Ok(2));
    assert_eq!(copy.weight, 3);
    let looped = Edge::new(4, 4, 0);
    assert_eq!(looped.other(4), Ok(4));
}

#[test]
fn edges_compare_by_weight() {
    let light = Edge::new(0, 1, 2);
    let heavy = Edge::new(5, 6, 9);
    let other = Edge::new(7, 8, 9);
    assert_eq!(light.cmp(&heavy), Ordering::Less);
    assert_eq!(heavy.cmp(&light), Ordering::Greater);
    assert_eq!(heavy.cmp(&other), Ordering::Equal);
}

#[test]
fn adding_an_edge_raises_the_degree_of_both_ends() {
    let mut g = Graph::new(3);
    assert_eq!(g.get_v(), 3);
    assert_eq!(g.get_e(), 0);
    assert_eq!(g.degree(0), Ok(0));
    g.add_edge(0, 1).unwrap();
    assert_eq!(g.degree(0), Ok(1));
    assert_eq!(g.degree(1), Ok(1));
    assert_eq!(g.degree(2), Ok(0));
    g.add_edge(0, 1).unwrap();
    assert_eq!(g.degree(0), Ok(2));
    assert_eq!(g.degree(1), Ok(2));
    g.add_edge(2, 2).unwrap();
    assert_eq!(g.degree(2), Ok(2));
    assert_eq!(g.get_e(), 3);
    let near: Vec<usize> = g.adj_vertices(1).unwrap().copied().collect();
    assert_eq!(near, vec![0, 0]);
    assert_eq!(g.adjacent(2).unwrap().as_vec(), vec![2, 2]);
}

#[test]
fn graph_refuses_a_vertex_out_of_range() {
    let mut g = Graph::new(2);
    assert_eq!(g.add_edge(0, 2), Err(GraphError::OutOfRange));
    assert_eq!(g.add_edge(2, 0), Err(GraphError::OutOfRange));
    assert_eq!(g.get_e(), 0);
    assert_eq!(g.degree(0), Ok(0));
    assert_eq!(g.degree(2), Err(GraphError::OutOfRange));
    assert!(g.adj_vertices(2).is_err());
    assert!(g.adjacent(2).is_err());
    assert!(BFP::new(&mut g, 2).is_err());
    assert!(DFP::new(&mut g, 2).is_err());
    assert!(DFS::new(&mut g, 2).is_err());
}

#[test]
fn adding_a_weighted_edge_enters_one_edge_in_both_lists() {
    let mut g = EdgeWeightedGraph::new(3);
    assert_eq!(g.get_v(), 3);
    g.add_edge(Edge::new(0, 2, 7)).unwrap();
    assert_eq!(g.e, 1);
    assert_eq!(g.get_e(), 1);
    assert_eq!(g.degree(0), Ok(1));
    assert_eq!(g.degree(2), Ok(1));
    assert_eq!(g.degree(1), Ok(0));
    let at_0: Vec<Rc<Edge>> = g.adj(0).unwrap().cloned().collect();
    let at_2: Vec<Rc<Edge>> = g.adj(2).unwrap().cloned().collect();
    assert_eq!(at_0.len(), 1);
    assert_eq!(at_2.len(), 1);
    assert!(Rc::ptr_eq(&at_0[0], &at_2[0]));
    assert_eq!(at_0[0].weight, 7);
    assert_eq!(at_0[0].other(0), Ok(2));
    assert_eq!(g.incident(2).unwrap().len(), 1);
}

#[test]
fn weighted_graph_refuses_a_vertex_out_of_range() {
    let mut g = EdgeWeightedGraph::new(2);
    assert_eq!(g.add_edge(Edge::new(0, 2, 1)), Err(GraphError::OutOfRange));
    assert_eq!(g.add_edge(Edge::new(5, 1, 1)), Err(GraphError::OutOfRange));
    assert_eq!(g.e, 0);
    assert_eq!(g.degree(2), Err(GraphError::OutOfRange));
    assert!(g.adj(2).is_err());
    assert!(g.incident(2).is_err());
    assert!(DijkstraSP::new(g, 2).is_err());
}

#[test]
fn edges_reports_every_edge_once() {
    let mut g = EdgeWeightedGraph::new(3);
    g.add_edge(Edge::new(1, 0, 5)).unwrap();
    g.add_edge(Edge::new(1, 1, 6)).unwrap();
    g.add_edge(Edge::new(2, 1, 7)).unwrap();
    g.add_edge(Edge::new(1, 1, 8)).unwrap();
    g.add_edge(Edge::new(0, 1, 9)).unwrap();
    assert_eq!(g.degree(1), Ok(7));
    let all = g.edges();
    let weights: Vec<u128> = all.iterator().map(|e| e.weight).collect();
    assert_eq!(weights, vec![5, 9, 6, 7, 8]);
    assert_eq!(all.len(), g.e);
}

#[test]
fn breadth_first_paths_are_shortest() {
    let mut g = Graph::new(7);
    for (v, w) in [(0, 1), (1, 2), (2, 3), (3, 4), (0, 5), (5, 4), (4, 4), (0, 1)] {
        g.add_edge(v, w).unwrap();
    }
    let paths = BFP::new(&mut g, 0).unwrap();
    assert_eq!(paths.get_dist_to(0), Ok(0));
    assert_eq!(paths.get_dist_to(1), Ok(1));
    assert_eq!(paths.get_dist_to(2), Ok(2));
    assert_eq!(paths.get_dist_to(3), Ok(3));
    assert_eq!(paths.get_dist_to(4), Ok(2));
    assert_eq!(paths.get_dist_to(5), Ok(1));
    assert_eq!(paths.get_dist_to(6), Ok(usize::MAX));
    assert_eq!(paths.has_path_to(6), Ok(false));
    assert!(paths.get_path_to(6).unwrap().is_none());
    for v in 0..6 {
        let mut stack = paths.get_path_to(v).unwrap().unwrap();
        assert_eq!(stack.size(), paths.get_dist_to(v).unwrap() + 1);
        let mut at = stack.pop().unwrap();
        assert_eq!(at, 0);
        while let Some(next) = stack.pop() {
            let near: Vec<usize> = g.adj_vertices(at).unwrap().copied().collect();
            assert!(near.contains(&next));
            at = next;
        }
        assert_eq!(at, v);
    }
    let mut to_4 = paths.get_path_to(4).unwrap().unwrap();
    assert_eq!(to_4.pop(), Some(0));
    assert_eq!(to_4.pop(), Some(5));
    assert_eq!(to_4.pop(), Some(4));
    assert_eq!(to_4.pop(), None);
}

#[test]
fn breadth_first_queries_refuse_a_vertex_out_of_range() {
    let mut g = Graph::new(2);
    let paths = BFP::new(&mut g, 0).unwrap();
    assert_eq!(paths.has_path_to(2), Err(GraphError::OutOfRange));
    assert_eq!(paths.get_dist_to(2), Err(GraphError::OutOfRange));
    assert!(paths.get_path_to(2).is_err());
}

#[test]
fn queries_give_the_same_answer_again() {
    let mut g = Graph::new(4);
    g.add_edge(0, 1).unwrap();
    g.add_edge(1, 2).unwrap();
    let paths = BFP::new(&mut g, 0).unwrap();
    for v in 0..4 {
        assert_eq!(paths.has_path_to(v), paths.has_path_to(v));
        assert_eq!(paths.get_dist_to(v), paths.get_dist_to(v));
    }
    let sp = DijkstraSP::new(example_graph(), 0).unwrap();
    for v in 0..4 {
        assert_eq!(sp.has_path_to(v), sp.has_path_to(v));
        assert_eq!(sp.get_distance_to(v), sp.get_distance_to(v));
    }
}

#[test]
fn single_vertex_reaches_only_itself() {
    let mut g = Graph::new(1);
    let paths = BFP::new(&mut g, 0).unwrap();
    assert_eq!(paths.has_path_to(0), Ok(true));
    assert_eq!(paths.get_dist_to(0), Ok(0));
    let mut stack = paths.get_path_to(0).unwrap().unwrap();
    assert_eq!(stack.pop(), Some(0));
    assert_eq!(stack.pop(), None);
    let found = DFS::new(&mut g, 0).unwrap();
    assert_eq!(found.marked, vec![true]);
    let sp = DijkstraSP::new(EdgeWeightedGraph::new(1), 0).unwrap();
    assert_eq!(sp.has_path_to(0), Ok(true));
    assert_eq!(sp.get_distance_to(0), Ok(0));
    let path = sp.path_to(0).unwrap().unwrap();
    assert!(path.is_empty());
}

#[test]
fn disconnected_vertices_have_no_path() {
    let mut g = Graph::new(5);
    g.add_edge(0, 1).unwrap();
    g.add_edge(3, 4).unwrap();
    let paths = BFP::new(&mut g, 0).unwrap();
    assert_eq!(paths.has_path_to(1), Ok(true));
    assert_eq!(paths.has_path_to(2), Ok(false));
    assert_eq!(paths.has_path_to(3), Ok(false));
    assert_eq!(paths.has_path_to(4), Ok(false));
    let found = DFS::new(&mut g, 3).unwrap();
    assert_eq!(found.marked, vec![false, false, false, true, true]);
    let tree = DFP::new(&mut g, 3).unwrap();
    assert_eq!(tree.marked, vec![false, false, false, true, true]);
    assert_eq!(tree.edge_to[4], 3);
}

#[test]
fn depth_first_search_finds_what_can_be_reached() {
    let mut g = Graph::new(8);
    for (v, w) in [(0, 1), (1, 2), (2, 0), (2, 3), (3, 3), (5, 6), (6, 7)] {
        g.add_edge(v, w).unwrap();
    }
    let tree = DFP::new(&mut g, 0).unwrap();
    assert_eq!(tree.marked, vec![true, true, true, true, false, false, false, false]);
    for v in 1..4 {
        let from = tree.edge_to[v];
        assert!(tree.marked[from]);
        let near: Vec<usize> = g.adj_vertices(from).unwrap().copied().collect();
        assert!(near.contains(&v));
    }
    let found = DFS::new(&mut g, 6).unwrap();
    assert_eq!(found.marked, vec![false, false, false, false, false, true, true, true]);
}

#[test]
fn dijkstra_distances_are_the_weights_of_its_paths() {
    let mut g = EdgeWeightedGraph::new(7);
    for (v, w, weight) in
        [(0, 1, 7), (0, 2, 9), (0, 5, 14), (1, 2, 10), (1, 3, 15), (2, 3, 11), (2, 5, 2), (3, 4, 6), (4, 5, 9), (3, 3, 1)]
    {
        g.add_edge(Edge::new(v, w, weight)).unwrap();
    }
    let sp = DijkstraSP::new(g, 0).unwrap();
    let expected: [u128; 6] = [0, 7, 9, 20, 20, 11];
    for v in 0..6 {
        assert_eq!(sp.get_distance_to(v), Ok(expected[v]));
        assert_eq!(sp.has_path_to(v), Ok(true));
        let mut path = sp.path_to(v).unwrap().unwrap();
        let mut at = 0;
        let mut sum = 0;
        while let Some(edge) = path.pop() {
            sum += edge.weight;
            at = edge.other(at).unwrap();
        }
        assert_eq!(at, v);
        assert_eq!(sum, expected[v]);
    }
    assert_eq!(sp.get_distance_to(6), Ok(u128::MAX));
    assert_eq!(sp.has_path_to(6), Ok(false));
    assert!(sp.path_to(6).unwrap().is_none());
    assert_eq!(sp.get_distance_to(7), Err(GraphError::OutOfRange));
    assert_eq!(sp.has_path_to(7), Err(GraphError::OutOfRange));
    assert!(sp.path_to(7).is_err());
}

#[test]
fn dijkstra_takes_a_lighter_way_found_later() {
    let mut g = EdgeWeightedGraph::new(4);
    g.add_edge(Edge::new(0, 1, 10)).unwrap();
    g.add_edge(Edge::new(0, 2, 1)).unwrap();
    g.add_edge(Edge::new(2, 3, 1)).unwrap();
    g.add_edge(Edge::new(3, 1, 1)).unwrap();
    let sp = DijkstraSP::new(g, 0).unwrap();
    assert_eq!(sp.get_distance_to(1), Ok(3));
    let mut path = sp.path_to(1).unwrap().unwrap();
    assert_eq!(path.size(), 3);
    assert_eq!(path.pop().unwrap().other(0), Ok(2));
}

#[test]
fn dijkstra_leaves_out_what_weighs_too_much() {
    let mut g = EdgeWeightedGraph::new(3);
    g.add_edge(Edge::new(0, 1, u128::MAX - 1)).unwrap();
    g.add_edge(Edge::new(1, 2, 5)).unwrap();
    let sp = DijkstraSP::new(g, 0).unwrap();
    assert_eq!(sp.get_distance_to(1), Ok(u128::MAX - 1));
    assert_eq!(sp.get_distance_to(2), Ok(u128::MAX));
    assert_eq!(sp.has_path_to(2), Ok(false));
}

#[test]
fn kruskal_on_the_example_weighs_twelve() {
    let mut k = KruskalMST::new(example_graph());
    assert_eq!(k.weight, 12);
    let edges = k.edges();
    assert_eq!(edges.size(), 2);
    assert_eq!(edges.dequeue().unwrap().weight, 2);
    assert_eq!(edges.dequeue().unwrap().weight, 10);
    assert!(edges.dequeue().is_none());
}

#[test]
fn kruskal_accepts_as_many_edges_as_vertices_less_components() {
    let mut g = EdgeWeightedGraph::new(9);
    for (v, w, weight) in [
        (0, 1, 4),
        (1, 2, 8),
        (2, 0, 11),
        (2, 2, 1),
        (3, 4, 7),
        (4, 5, 2),
        (5, 3, 6),
        (3, 4, 7),
        (6, 7, 3),
    ] {
        g.add_edge(Edge::new(v, w, weight)).unwrap();
    }
    let mut k = KruskalMST::new(g);
    assert_eq!(k.weight, 4 + 8 + 2 + 6 + 3);
    let edges = k.edges();
    assert_eq!(edges.size(), 9 - 4);
    let mut weights = Vec::new();
    while let Some(edge) = edges.dequeue() {
        weights.push(edge.weight);
    }
    assert_eq!(weights, vec![2, 3, 4, 6, 8]);
}

#[test]
fn kruskal_of_a_graph_without_edges_is_empty() {
    let mut none = KruskalMST::new(EdgeWeightedGraph::new(0));
    assert_eq!(none.weight, 0);
    assert!(none.edges().is_empty());
    let mut alone = KruskalMST::new(EdgeWeightedGraph::new(3));
    assert_eq!(alone.weight, 0);
    assert!(alone.edges().is_empty());
}

#[test]
fn kruskal_takes_equal_weights_in_the_order_of_the_edges() {
    let mut g = EdgeWeightedGraph::new(3);
    g.add_edge(Edge::new(1, 2, 5)).unwrap();
    g.add_edge(Edge::new(0, 1, 5)).unwrap();
    g.add_edge(Edge::new(0, 2, 5)).unwrap();
    let mut k = KruskalMST::new(g);
    assert_eq!(k.weight, 10);
    let edges = k.edges();
    let first = edges.dequeue().unwrap();
    let second = edges.dequeue().unwrap();
    assert_eq!((first.either(), first.other(0)), (0, Ok(1)));
    assert_eq!((second.either(), second.other(0)), (0, Ok(2)));
    assert!(edges.is_empty());
}

#[test]
fn a_cloned_graph_grows_apart() {
    let mut g = Graph::new(3);
    g.add_edge(0, 1).unwrap();
    let mut copy = g.clone();
    copy.add_edge(1, 2).unwrap();
    assert_eq!(g.get_e(), 1);
    assert_eq!(copy.get_e(), 2);
    assert_eq!(g.degree(1), Ok(1));
    assert_eq!(copy.degree(1), Ok(2));
}

#[test]
fn kruskal_stops_when_the_tree_is_complete() {
    let mut g = EdgeWeightedGraph::new(3);
    g.add_edge(Edge::new(0, 1, 1)).unwrap();
    g.add_edge(Edge::new(1, 2, 2)).unwrap();
    g.add_edge(Edge::new(0, 2, 3)).unwrap();
    g.add_edge(Edge::new(0, 2, 4)).unwrap();
    g.add_edge(Edge::new(1, 1, 0)).unwrap();
    let mut k = KruskalMST::new(g);
    assert_eq!(k.weight, 3);
    assert_eq!(k.edges().size(), 2);
}

fn next_number(state: &mut u64) -> u64 {
    *state = state.wrapping_mul(6364136223846793005).wrapping_add(1442695040888963407);
    *state >> 33
}

#[test]
fn dijkstra_agrees_with_trying_every_way() {
    let mut state = 11;
    for round in 0..40 {
        let n = 2 + (round % 7) as usize;
        let m = (next_number(&mut state) % 16) as usize;
        let mut best = vec![vec![u128::MAX; n]; n];
        for v in 0..n {
            best[v][v] = 0;
        }
        let mut g = EdgeWeightedGraph::new(n);
        for _ in 0..m {
            let v = (next_number(&mut state) % n as u64) as usize;
            let w = (next_number(&mut state) % n as u64) as usize;
            let weight = (next_number(&mut state) % 20) as u128;
            g.add_edge(Edge::new(v, w, weight)).unwrap();
            if weight < best[v][w] {
                best[v][w] = weight;
                best[w][v] = weight;
            }
        }
        for k in 0..n {
            for i in 0..n {
                for j in 0..n {
                    if best[i][k] < u128::MAX && best[k][j] < u128::MAX && best[i][k] + best[k][j] < best[i][j] {
                        best[i][j] = best[i][k] + best[k][j];
                    }
                }
            }
        }
        let source = (next_number(&mut state) % n as u64) as usize;
        let sp = DijkstraSP::new(g, source).unwrap();
        for v in 0..n {
            assert_eq!(sp.get_distance_to(v), Ok(best[source][v]));
            assert_eq!(sp.has_path_to(v), Ok(best[source][v] < u128::MAX));
        }
    }
}

#[test]
fn breadth_first_agrees_with_trying_every_way() {
    let mut state = 5;
    for round in 0..40 {
        let n = 1 + (round % 8) as usize;
        let m = (next_number(&mut state) % 12) as usize;
        let mut best = vec![vec![usize::MAX; n]; n];
        for v in 0..n {
            best[v][v] = 0;
        }
        let mut g = Graph::new(n);
        for _ in 0..m {
            let v = (next_number(&mut state) % n as u64) as usize;
            let w = (next_number(&mut state) % n as u64) as usize;
            g.add_edge(v, w).unwrap();
            if v != w {
                best[v][w] = 1;
                best[w][v] = 1;
            }
        }
        for k in 0..n {
            for i in 0..n {
                for j in 0..n {
                    if best[i][k] < usize::MAX && best[k][j] < usize::MAX && best[i][k] + best[k][j] < best[i][j] {
                        best[i][j] = best[i][k] + best[k][j];
                    }
                }
            }
        }
        let source = (next_number(&mut state) % n as u64) as usize;
        let paths = BFP::new(&mut g, source).unwrap();
        let found = DFS::new(&mut g, source).unwrap();
        for v in 0..n {
            assert_eq!(paths.get_dist_to(v), Ok(best[source][v]));
            assert_eq!(paths.has_path_to(v), Ok(best[source][v] < usize::MAX));
            assert_eq!(found.marked[v], best[source][v] < usize::MAX);
        }
    }
}

#[test]
fn kruskal_is_as_light_as_any_choice_of_edges() {
    let mut state = 3;
    for round in 0..30 {
        let n = 1 + (round % 5) as usize;
        let m = (next_number(&mut state) % 8) as usize;
        let mut list = Vec::new();
        let mut g = EdgeWeightedGraph::new(n);
        for _ in 0..m {
            let v = (next_number(&mut state) % n as u64) as usize;
            let w = (next_number(&mut state) % n as u64) as usize;
            let weight = (next_number(&mut state) % 10) as u128;
            g.add_edge(Edge::new(v, w, weight)).unwrap();
            list.push((v, w, weight));
        }
        let classes = |chosen: u32| {
            let mut label: Vec<usize> = (0..n).collect();
            let mut changed = true;
            while changed {
                changed = false;
                for (i, (v, w, _)) in list.iter().enumerate() {
                    if chosen & (1 << i) != 0 && label[*v] != label[*w] {
                        let low = label[*v].min(label[*w]);
                        label[*v] = low;
                        label[*w] = low;
                        changed = true;
                    }
                }
            }
            label
        };
        let all = classes(u32::MAX);
        let mut least = u128::MAX;
        for chosen in 0..(1u32 << m) {
            if classes(chosen) == all {
                let weight: u128 = list.iter().enumerate().filter(|(i, _)| chosen & (1 << i) != 0).map(|(_, e)| e.2).sum();
                least = least.min(weight);
            }
        }
        let mut parts: Vec<usize> = all.clone();
        parts.sort();
        parts.dedup();
        let mut k = KruskalMST::new(g);
        assert_eq!(k.weight, least);
        assert_eq!(k.edges().size(), n - parts.len());
    }
}
