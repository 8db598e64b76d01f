use lau_varadhan_transport::heat_kernel::{complete_graph, cycle_graph, path_graph, star_graph, Graph};

#[test]
fn test_graph_construction() {
    let g = path_graph(4);
    assert_eq!(g.n(), 4);
    assert_eq!(g.adjacency[0][1], true);
    assert_eq!(g.adjacency[0][2], false);
    assert_eq!(g.adjacency[1][3], false);
}

#[test]
fn test_connected_path() {
    assert!(path_graph(5).is_connected());
}

#[test]
fn test_connected_complete() {
    assert!(complete_graph(5).is_connected());
}

#[test]
fn test_star_graph() {
    let g = star_graph(5);
    assert_eq!(g.adjacency[0][1], true);
    assert_eq!(g.adjacency[1][2], false);
    assert!(g.is_connected());
}

#[test]
fn path_graph_edges() {
    let g = path_graph(3);
    let expected = vec![
        vec![false, true, false],
        vec![true, false, true],
        vec![false, true, false],
    ];
    assert_eq!(g.adjacency, expected);
}

#[test]
fn complete_graph_edges() {
    let g = complete_graph(3);
    for i in 0..3 {
        for j in 0..3 {
            assert_eq!(g.adjacency[i][j], i != j);
        }
    }
}

#[test]
fn cycle_graph_edges() {
    let g = cycle_graph(6);
    assert_eq!(g.n(), 6);
    assert!(g.adjacency[0][1]);
    assert!(g.adjacency[5][0]);
    assert!(g.adjacency[0][5]);
    assert!(!g.adjacency[0][3]);
    assert!(g.is_connected());
}

#[test]
fn small_cycle_graphs() {
    let g1 = cycle_graph(1);
    assert_eq!(g1.adjacency, vec![vec![true]]);
    let g2 = cycle_graph(2);
    assert_eq!(g2.adjacency, vec![vec![false, true], vec![true, false]]);
}

#[test]
fn empty_graphs_are_connected() {
    assert_eq!(path_graph(0).n(), 0);
    assert!(path_graph(0).is_connected());
    assert!(complete_graph(0).is_connected());
    assert!(star_graph(1).is_connected());
}

#[test]
fn families_are_symmetric_and_connected() {
    for n in 0..8 {
        for g in [path_graph(n), complete_graph(n), cycle_graph(n), star_graph(n)] {
            assert_eq!(g.n(), n);
            assert!(g.is_connected());
            for i in 0..n {
                for j in 0..n {
                    assert_eq!(g.adjacency[i][j], g.adjacency[j][i]);
                }
            }
        }
    }
}

#[test]
fn disconnected_graph() {
    let g = Graph {
        adjacency: vec![
            vec![false, true, false, false],
            vec![true, false, false, false],
            vec![false, false, false, true],
            vec![false, false, true, false],
        ],
    };
    assert!(!g.is_connected());
}

#[test]
fn isolated_vertices() {
    let g = Graph { adjacency: vec![vec![false; 3]; 3] };
    assert!(!g.is_connected());
    let single = Graph { adjacency: vec![vec![false]] };
    assert!(single.is_connected());
}

#[test]
fn connectivity_follows_edge_direction() {
    // 0 -> 1 -> 2 only: everything is reachable from vertex 0
    let forward = Graph {
        adjacency: vec![
            vec![false, true, false],
            vec![false, false, true],
            vec![false, false, false],
        ],
    };
    assert!(forward.is_connected());
    // 2 -> 1 -> 0 only: nothing leaves vertex 0
    let backward = Graph {
        adjacency: vec![
            vec![false, false, false],
            vec![true, false, false],
            vec![false, true, false],
        ],
    };
    assert!(!backward.is_connected());
}
