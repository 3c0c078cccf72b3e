use louvain::graph::{Graph, Vertex};
use louvain::read::to_sorted_edges;

fn build(text: &str) -> Graph {
    let edges = to_sorted_edges(text.as_bytes(), 2);
    Graph::from_edges(1, &edges)
}

fn q(g: &Graph, numerator: i128) -> f64 {
    let m = g.total_degrees as f64;
    numerator as f64 / (m * m)
}

fn weight(g: &Graph, v: u32, u: u32) -> u64 {
    g.vertex(v)
        .unwrap()
        .neighbors
        .iter()
        .find(|e| e.0 == u)
        .map(|e| e.1)
        .unwrap_or(0)
}

fn community_of(g: &Graph, v: u32) -> u32 {
    g.vertex(v).unwrap().community
}

fn check_invariants(g: &Graph) {
    let vsum: u64 = g.vertices().iter().map(|v| v.degrees()).sum();
    let csum: u64 = g.communities().iter().map(|c| c.degrees()).sum();
    assert_eq!(vsum, g.total_degrees);
    assert_eq!(csum, g.total_degrees);
    for v in g.vertices() {
        let c = g.community(v.community).unwrap();
        assert!(c.vertices.contains(&v.id));
    }
    for c in g.communities() {
        let members = c.vertices(g);
        assert_eq!(members.len(), c.vertices.len());
        let s: u64 = members.iter().map(|v| v.degrees()).sum();
        assert_eq!(s, c.degrees());
    }
}

#[test]
fn triangle() {
    let mut g = build("1 2\n2 3\n1 3\n");
    assert_eq!(g.vertices().len(), 3);
    assert_eq!(g.total_degrees, 6);
    assert!((q(&g, g.modularity()) + 1.0 / 3.0).abs() < 1e-12);
    check_invariants(&g);
    let (next, numerator) = g.louvain();
    check_invariants(&g);
    assert_eq!(community_of(&g, 1), community_of(&g, 2));
    assert_eq!(community_of(&g, 2), community_of(&g, 3));
    assert_eq!(numerator, 0);
    assert_eq!(next.community_count(), 1);
    assert_eq!(next.total_degrees, 6);
    assert_eq!(next.epoch, 2);
    check_invariants(&next);
}

#[test]
fn two_triangles_with_bridge() {
    let mut g = build("1 2\n2 3\n1 3\n4 5\n5 6\n4 6\n3 4\n");
    assert_eq!(g.total_degrees, 14);
    let (next, numerator) = g.louvain();
    check_invariants(&g);
    assert_eq!(community_of(&g, 1), community_of(&g, 2));
    assert_eq!(community_of(&g, 1), community_of(&g, 3));
    assert_eq!(community_of(&g, 4), community_of(&g, 5));
    assert_eq!(community_of(&g, 4), community_of(&g, 6));
    assert_ne!(community_of(&g, 1), community_of(&g, 4));
    assert_eq!(numerator, 70);
    assert!((q(&g, numerator) - (12.0 / 14.0 - 0.5)).abs() < 1e-12);
    assert_eq!(next.community_count(), 2);
    assert_eq!(next.total_degrees, 14);
}

#[test]
fn disconnected_pairs() {
    let mut g = build("1 2\n3 4\n");
    let (next, numerator) = g.louvain();
    assert_eq!(community_of(&g, 1), community_of(&g, 2));
    assert_eq!(community_of(&g, 3), community_of(&g, 4));
    assert_ne!(community_of(&g, 1), community_of(&g, 3));
    assert!((q(&g, numerator) - 0.5).abs() < 1e-12);
    assert_eq!(next.community_count(), 2);
}

#[test]
fn path_of_four() {
    let mut g = build("1 2\n2 3\n3 4\n");
    let (next, numerator) = g.louvain();
    assert!(numerator > 0);
    assert_eq!(next.community_count(), 2);
    assert_eq!(next.total_degrees, 6);
    let ids: Vec<u32> = next.vertices().iter().map(|v| v.id).collect();
    assert_eq!(ids.len(), 2);
    let (a, b) = (ids[0], ids[1]);
    assert_eq!(weight(&next, a, b), 1);
    assert_eq!(weight(&next, b, a), 1);
    assert_eq!(weight(&next, a, a), 2);
    assert_eq!(weight(&next, b, b), 2);
    check_invariants(&next);
}

#[test]
fn parallel_edges() {
    let g = build("1 2\n1 2\n1 2\n2 3\n");
    assert_eq!(weight(&g, 2, 1), 3);
    assert_eq!(weight(&g, 2, 3), 1);
    assert_eq!(g.vertex(2).unwrap().neighbors.len(), 2);
    assert_eq!(g.vertex(2).unwrap().degrees(), 4);
    assert_eq!(g.total_degrees, 8);
}

#[test]
fn no_positive_move_keeps_singletons() {
    let mut g = build("5 5\n");
    let before = g.modularity();
    g.local_moving_pass();
    assert_eq!(community_of(&g, 5), 5);
    assert!(g.converged(before, g.modularity()));
    let (next, _) = g.louvain();
    assert_eq!(next.community_count(), 1);
}

#[test]
fn empty_graph() {
    let mut g = Graph::from_edges(1, &[]);
    assert_eq!(g.vertices().len(), 0);
    assert_eq!(g.community_count(), 0);
    assert_eq!(g.total_degrees, 0);
    let (next, numerator) = g.louvain();
    assert_eq!(numerator, 0);
    assert_eq!(next.community_count(), 0);
}

#[test]
fn single_edge() {
    let mut g = build("7 9\n");
    assert_eq!(g.vertices().len(), 2);
    assert_eq!(g.community_count(), 2);
    g.local_moving_pass();
    assert_eq!(community_of(&g, 7), community_of(&g, 9));
    assert_eq!(g.modularity(), 0);
    let (next, numerator) = g.louvain();
    assert_eq!(numerator, 0);
    assert_eq!(next.community_count(), 1);
}

#[test]
fn self_loop() {
    let g = build("4 4\n");
    assert_eq!(g.vertices().len(), 1);
    assert_eq!(g.vertex(4).unwrap().neighbors, vec![(4u32, 2u64)]);
    assert_eq!(g.vertex(4).unwrap().degrees(), 2);
    assert_eq!(g.total_degrees, 2);
}

#[test]
fn duplicate_lines_accumulate() {
    let g = build("1 2\n1 2\n");
    assert_eq!(g.vertex(1).unwrap().neighbors, vec![(2u32, 2u64)]);
    assert_eq!(g.vertex(2).unwrap().neighbors, vec![(1u32, 2u64)]);
    assert_eq!(g.total_degrees, 4);
}

#[test]
fn singleton_seed_modularity() {
    let g = build("1 2\n2 3\n3 4\n1 3\n");
    let m = g.total_degrees as i128;
    let squares: i128 = g.vertices().iter().map(|v| (v.degrees() as i128) * (v.degrees() as i128)).sum();
    assert_eq!(g.modularity(), -squares);
    assert_eq!(m, 8);
    for v in g.vertices() {
        assert_eq!(v.community, v.id);
        assert_eq!(g.community(v.id).unwrap().degrees(), v.degrees());
    }
}

#[test]
fn contraction_keeps_total_degree() {
    let mut g = build("1 2\n2 3\n1 3\n4 5\n5 6\n4 6\n3 4\n6 7\n7 8\n");
    let total = g.total_degrees;
    let (next, _) = g.louvain();
    assert_eq!(next.total_degrees, total);
    check_invariants(&next);
}

#[test]
fn modularity_does_not_decrease_across_passes() {
    let mut g = build("1 2\n2 3\n1 3\n4 5\n5 6\n4 6\n3 4\n6 7\n7 8\n8 1\n2 5\n");
    let mut last = g.modularity();
    for _ in 0..5 {
        g.local_moving_pass();
        let now = g.modularity();
        assert!(now >= last);
        last = now;
        check_invariants(&g);
    }
}

#[test]
fn vertex_neighbors() {
    let mut v = Vertex::new(3);
    assert_eq!(v.community, 3);
    assert_eq!(v.degrees(), 0);
    assert_eq!(v.add_neighbor(4, 2), None);
    assert_eq!(v.add_neighbor(4, 5), Some(2));
    assert_eq!(v.degrees(), 5);
    assert_eq!(v.add_neighbor_or_accumulate(4, 1), 6);
    assert_eq!(v.add_neighbor_or_accumulate(8, 3), 3);
    assert_eq!(v.degrees(), 9);
    assert_eq!(v.neighbors, vec![(4u32, 6u64), (8u32, 3u64)]);
}

#[test]
fn community_lookup() {
    let g = build("1 2\n");
    let c = g.community(1).unwrap();
    assert_eq!(c.id, 1);
    assert_eq!(c.degrees(), 1);
    assert_eq!(c.vertex(&g, 1).map(|v| v.id), Some(1));
    assert!(c.vertex(&g, 2).is_none());
    assert!(g.community(3).is_none());
    assert!(g.vertex(3).is_none());
}

#[test]
fn community_member_moves() {
    let g = build("1 2\n");
    let mut c = louvain::graph::Community {
        id: 1,
        vertices: std::collections::HashSet::new(),
        degrees: 0,
    };
    assert!(c.insert(1, 3));
    assert!(!c.insert(1, 0));
    assert_eq!(c.degrees(), 3);
    assert!(c.remove(1, 3));
    assert!(!c.remove(1, 0));
    assert_eq!(c.degrees(), 0);
    assert_eq!(g.communities().len(), 2);
}

#[test]
fn local_move_picks_first_best_neighbor_community() {
    let mut g = build("1 2\n2 3\n1 3\n");
    assert_eq!(g.max_modularity_gain(1), Some(2));
    assert_eq!(g.local_move(1), Some(2));
    assert_eq!(community_of(&g, 1), 2);
    assert_eq!(g.community(2).unwrap().degrees(), 4);
    assert_eq!(g.community(1).unwrap().degrees(), 0);
    assert!(g.community(1).unwrap().vertices.is_empty());
    check_invariants(&g);
}

#[test]
fn local_move_without_positive_gain_stays() {
    let mut g = build("3 3\n");
    assert_eq!(g.max_modularity_gain(3), None);
    assert_eq!(g.local_move(3), None);
    assert_eq!(community_of(&g, 3), 3);
}

#[test]
fn move_vertex_updates_both_communities() {
    let mut g = build("1 2\n2 3\n");
    g.move_vertex(3, 1);
    assert_eq!(community_of(&g, 3), 1);
    assert_eq!(g.community(1).unwrap().degrees(), 2);
    assert_eq!(g.community(3).unwrap().degrees(), 0);
    assert!(g.community(1).unwrap().vertices.contains(&3));
    check_invariants(&g);
}

#[test]
fn convergence_threshold() {
    let g = build("1 2\n3 4\n");
    // m = 4, so m² = 16: a change of 1/1000 of the modularity is 0.016 in the numerator.
    assert!(g.converged(0, 0));
    assert!(!g.converged(0, 1));
    assert!(!g.converged(8, 7));
}
