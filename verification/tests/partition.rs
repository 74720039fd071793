use map_generator::partition::{
    face_cycle_vertices, face_identity, geometry_hash, river_identity, river_run_ids, sea_witness_id, structural_violations, FaceKind, PEdge, PHalf,
};

fn edge(a: usize, b: usize, river: bool) -> PEdge {
    PEdge { a, b, half_ab: 2 * a, half_ba: 2 * a + 1, river, provenance: Vec::new() }
}

fn half(origin: usize, edge: usize, twin: usize, next: usize, prev: usize, face: usize) -> PHalf {
    PHalf { origin, edge, twin, next, prev, face }
}

/// One edge between two vertices, as a two-cycle on each side: the
/// smallest lawful half-edge structure.
fn digon() -> (Vec<PHalf>, Vec<PEdge>) {
    // vertices 0, 1; edges 0: 0→1 and 1: 1→0; faces 0 (inside), 1 (outside)
    let halves = vec![
        half(0, 0, 1, 2, 2, 0), // 0→1, face 0
        half(1, 0, 0, 3, 3, 1), // 1→0, face 1
        half(1, 1, 3, 0, 0, 0), // 1→0, face 0
        half(0, 1, 2, 1, 1, 1), // 0→1, face 1
    ];
    let edges = vec![edge(0, 1, false), edge(1, 0, true)];
    (halves, edges)
}

#[test]
fn a_lawful_structure_reports_nothing() {
    let (h, e) = digon();
    assert!(structural_violations(&h, &e).is_empty());
}

#[test]
fn each_broken_law_is_named() {
    let (mut h, mut e) = digon();
    h[0].twin = 2; // twin(twin(0)) is 3, and 1's twin no longer pairs back
    h[2].face = 1; // next of 0 now crosses faces; 2 and 3 share a face
    e[1].b = 1; // a zero-length edge
    let v = structural_violations(&h, &e);
    assert_eq!(
        v,
        vec![
            "half 0: twin(twin) != self".to_string(),
            "half 0: next crosses faces".to_string(),
            "half 1: twin(twin) != self".to_string(),
            "half 2: next crosses faces".to_string(),
            "half 2: edge with the same face on both sides".to_string(),
            "half 3: edge with the same face on both sides".to_string(),
            "edge 1: zero-length".to_string(),
        ]
    );
}

#[test]
fn indices_print_in_decimal() {
    let mut halves = Vec::new();
    for i in 0..12usize {
        // twelve half-edges, each its own twin: every one breaks the two-faces law
        halves.push(half(0, 0, i, i, i, 0));
    }
    let v = structural_violations(&halves, &[]);
    assert_eq!(v.len(), 12);
    assert_eq!(v[11], "half 11: edge with the same face on both sides");
    assert_eq!(v[10], "half 10: edge with the same face on both sides");
}

#[test]
fn geometry_hash_has_its_exact_value() {
    let coords = vec![(5, -3, 7), (-1, 2, 2), (0, 0, 9)];
    let edges = vec![edge(0, 1, false), edge(2, 1, true), edge(0, 2, false)];
    assert_eq!(geometry_hash(&coords, &edges), 0xb8e2de5726160c8d);
}

#[test]
fn geometry_hash_ignores_numbering() {
    let coords = vec![(5, -3, 7), (-1, 2, 2), (0, 0, 9)];
    let edges = vec![edge(0, 1, false), edge(2, 1, true), edge(0, 2, false)];
    // the same points and joins, renumbered and reversed
    let coords2 = vec![(-1, 2, 2), (0, 0, 9), (5, -3, 7)];
    let edges2 = vec![edge(1, 2, false), edge(0, 1, true), edge(0, 2, false)];
    assert_eq!(geometry_hash(&coords, &edges), geometry_hash(&coords2, &edges2));
}

#[test]
fn geometry_hash_sees_rivers_and_joins() {
    let coords = vec![(5, -3, 7), (-1, 2, 2), (0, 0, 9)];
    let edges = vec![edge(0, 1, false), edge(2, 1, true), edge(0, 2, false)];
    let base = geometry_hash(&coords, &edges);
    let dry = vec![edge(0, 1, false), edge(2, 1, false), edge(0, 2, false)];
    assert_ne!(base, geometry_hash(&coords, &dry));
    assert_ne!(base, geometry_hash(&coords, &edges[..2]));
    assert_ne!(base, geometry_hash(&coords[..2], &[edge(0, 1, false)]));
}

#[test]
fn face_kinds_order_as_declared() {
    assert!(FaceKind::LandClaim < FaceKind::Sea);
    assert!(FaceKind::Sea < FaceKind::Lake);
    assert!(FaceKind::Lake < FaceKind::Background);
}

#[test]
fn faces_are_named_by_their_first_claimant() {
    let claims = vec!["canaan".to_string(), "edom".to_string()];
    assert_eq!(
        face_identity(FaceKind::LandClaim, &claims, 3),
        Some(("partition:canaan".to_string(), "canaan (partition)".to_string()))
    );
    assert_eq!(
        face_identity(FaceKind::Lake, &[], 12),
        Some(("partition:face-12".to_string(), "face-12 (partition)".to_string()))
    );
    assert_eq!(
        face_identity(FaceKind::Sea, &["great-sea".to_string()], 0),
        Some(("partition:great-sea".to_string(), "the Great Sea (partition)".to_string()))
    );
    assert_eq!(face_identity(FaceKind::Background, &claims, 0), None);
}

#[test]
fn river_paths_join_their_river() {
    assert_eq!(
        river_identity("jordan-2"),
        ("partition:jordan".to_string(), "jordan-2 (river)".to_string())
    );
    assert_eq!(
        river_identity("river-7"),
        ("partition:rivers".to_string(), "river-7 (river)".to_string())
    );
}

#[test]
fn witnesses_are_numbered_in_order() {
    assert_eq!(sea_witness_id(0), "great-sea");
    assert_eq!(sea_witness_id(1), "great-sea-1");
    let names: Vec<String> =
        ["Jordan River", "Yarmouk", "Upper Jordan", "", "Jabbok"].iter().map(|s| s.to_string()).collect();
    assert_eq!(river_run_ids(&names), vec!["jordan-1", "river-1", "jordan-2", "river-2", "river-3"]);
}

#[test]
fn face_cycles_read_as_vertex_rings() {
    let (h, _) = digon();
    assert_eq!(face_cycle_vertices(&h, &[vec![0, 2], vec![1, 3]]), vec![vec![0, 1], vec![1, 0]]);
    assert_eq!(face_cycle_vertices(&h, &[]), Vec::<Vec<usize>>::new());
}

use map_generator::rivers::river_chains;

#[test]
fn rivers_are_walked_end_to_end_and_loops_come_home() {
    let edges = vec![
        edge(0, 1, true),
        edge(1, 2, true),
        edge(2, 3, false),
        edge(4, 5, true),
        edge(5, 6, true),
        edge(6, 4, true),
    ];
    assert_eq!(river_chains(7, &edges), vec![vec![0, 1, 2], vec![4, 5, 6, 4]]);
}

#[test]
fn a_river_is_walked_from_its_end_not_its_middle() {
    // vertex 0 has two river edges; the walk starts at an end, vertex 1
    let edges = vec![edge(0, 1, true), edge(0, 3, true), edge(1, 2, false)];
    assert_eq!(river_chains(4, &edges), vec![vec![1, 0, 3]]);
    assert!(river_chains(4, &[edge(0, 1, false)]).is_empty());
}

use map_generator::rivers::outside_runs_of;

#[test]
fn a_river_ends_where_it_touches_the_water() {
    let inside = [true, false, false, true, true, false, true, false];
    assert_eq!(
        outside_runs_of(&inside),
        vec![vec![0, 1, 2, 3], vec![4, 5, 6], vec![6, 7]]
    );
    assert_eq!(outside_runs_of(&[false, false]), vec![vec![0, 1]]);
    assert!(outside_runs_of(&[true, true]).is_empty());
    assert!(outside_runs_of(&[]).is_empty());
}
