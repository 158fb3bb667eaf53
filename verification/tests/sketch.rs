use offkilter::jigsaw::{check_counts, check_grid, edge_count, edge_name, node_count, seed_tab_directions, Grain, Rng};
use offkilter::loops::{prune_dangling, vertex_numbers, Half, UnionFind};
use offkilter::sketch::{EntityId, SketchError, SolveStatus};
use offkilter::faces::{face_cycles, leaving, next_around};

#[test]
fn a_grid_counts_its_interior_edges_and_nodes() {
    assert_eq!(edge_count(3, 2), 7);
    assert_eq!(node_count(3, 2), 2);
    assert_eq!(edge_count(4, 1), 3);
    assert_eq!(node_count(4, 1), 0);
    assert_eq!(edge_count(0, 0), 0);
    assert_eq!(node_count(1, 1), 0);
    assert_eq!(Grain::default(), Grain::X);
}

#[test]
fn the_generator_is_xorshift_star_and_deterministic() {
    let mut a = Rng::new(42);
    let mut b = Rng::new(42);
    let mut c = Rng::new(43);
    let first = a.next();
    assert_eq!(first, b.next());
    assert_ne!(first, c.next());
    // By hand: state = 42 * 0x9E3779B97F4A7C15 | 1, one xorshift, then the multiplier.
    let mut x = 42u64.wrapping_mul(0x9E37_79B9_7F4A_7C15) | 1;
    assert_eq!(Rng::new(42).0, x);
    x ^= x >> 12;
    x ^= x << 25;
    x ^= x >> 27;
    assert_eq!(first, x.wrapping_mul(0x2545_F491_4F6C_DD1D));
    let dirs = seed_tab_directions(3, 2, 7);
    assert_eq!(dirs.len(), 7);
    let mut r = Rng::new(7);
    for d in &dirs {
        assert_eq!(*d, r.next() & 1 == 1);
    }
    assert_eq!(dirs, seed_tab_directions(3, 2, 7));
}

#[test]
fn union_find_joins_sets_and_keeps_others_apart() {
    let mut uf = UnionFind::new(5);
    for i in 0..5 {
        assert_eq!(uf.find(i), i);
    }
    uf.union(0, 1);
    uf.union(3, 4);
    uf.union(1, 4);
    let r = uf.find(0);
    assert_eq!(uf.find(1), r);
    assert_eq!(uf.find(3), r);
    assert_eq!(uf.find(4), r);
    assert_ne!(uf.find(2), r);
    assert_eq!(uf.find(2), 2);
}

#[test]
fn a_half_edge_twin_turns_it_around() {
    let h = Half { edge: 3, forward: true };
    assert_eq!(h.twin(), Half { edge: 3, forward: false });
    assert_eq!(h.twin().twin(), h);
}

#[test]
fn sketch_errors_read_as_messages() {
    assert_eq!(SketchError::UnknownEntity(EntityId(7)).message(), "unknown entity EntityId(7)");
    assert_eq!(
        SketchError::WrongKind(EntityId(12), "line or arc").message(),
        "entity EntityId(12) is not a line or arc"
    );
    assert_eq!(
        SketchError::DuplicateEntity(EntityId(0)).message(),
        "entity EntityId(0) already exists"
    );
    assert_eq!(SketchError::Invalid("bad".to_string()).message(), "bad");
    assert!(EntityId(1) < EntityId(2));
    assert_ne!(SolveStatus::FullyConstrained, SolveStatus::Inconsistent);
}

#[test]
fn a_design_needs_a_grid_that_fits_and_one_tab_per_edge() {
    assert_eq!(check_grid(0, 3).unwrap_err(), "a puzzle needs 1 to 64 columns and rows");
    assert_eq!(check_grid(65, 3).unwrap_err(), "a puzzle needs 1 to 64 columns and rows");
    assert!(check_grid(64, 1).is_ok());
    assert!(check_counts(2, 2, 4, 1).is_ok());
    assert_eq!(check_counts(2, 2, 3, 1).unwrap_err(), "3 tabs for 4 interior edges");
    assert_eq!(check_counts(5, 4, 31, 11).unwrap_err(), "11 corner offsets for 12 interior nodes");
}

#[test]
fn edges_are_named_after_the_piece_below_or_left() {
    // 3 columns, 2 rows: 3 edges above the bottom row, then 2 columns of
    // 2 vertical edges.
    assert_eq!(edge_name(0, 3, 2), "tab on the edge above piece 1,1");
    assert_eq!(edge_name(2, 3, 2), "tab on the edge above piece 3,1");
    assert_eq!(edge_name(3, 3, 2), "tab on the edge right of piece 1,1");
    assert_eq!(edge_name(4, 3, 2), "tab on the edge right of piece 1,2");
    assert_eq!(edge_name(6, 3, 2), "tab on the edge right of piece 2,2");
}

#[test]
fn dangling_edges_are_pruned_until_none_is_left() {
    let mut es = vec![(0, 1), (1, 2), (2, 0), (2, 3)];
    prune_dangling(4, &mut es);
    assert_eq!(es, vec![(0, 1), (1, 2), (2, 0)]);
    // A path goes away end by end.
    let mut es = vec![(0, 1), (1, 2), (2, 3)];
    prune_dangling(4, &mut es);
    assert!(es.is_empty());
    // Two edges between the same points close a region, and so does an
    // edge from a point to itself.
    let mut es = vec![(0, 1), (1, 0), (3, 3), (1, 2)];
    prune_dangling(4, &mut es);
    assert_eq!(es, vec![(0, 1), (1, 0), (3, 3)]);
    let mut es: Vec<(usize, usize)> = vec![];
    prune_dangling(0, &mut es);
    assert!(es.is_empty());
}

fn fw(edge: usize) -> Half {
    Half { edge, forward: true }
}

fn bw(edge: usize) -> Half {
    Half { edge, forward: false }
}

#[test]
fn a_triangle_has_an_inside_and_an_outside_face() {
    let ends = vec![(0, 1), (1, 2), (2, 0)];
    let out = leaving(3, &ends);
    assert_eq!(out, vec![vec![fw(0), bw(2)], vec![bw(0), fw(1)], vec![bw(1), fw(2)]]);
    assert_eq!(next_around(&ends, &out, fw(0)), fw(1));
    assert_eq!(next_around(&ends, &out, bw(0)), bw(2));
    let faces = face_cycles(&ends, &out);
    assert_eq!(faces, vec![vec![fw(0), fw(1), fw(2)], vec![bw(0), bw(2), bw(1)]]);
}

#[test]
fn faces_cover_every_half_edge_once() {
    // A lone edge is one face that runs along it and back.
    let ends = vec![(0, 1)];
    let faces = face_cycles(&ends, &leaving(2, &ends));
    assert_eq!(faces, vec![vec![fw(0), bw(0)]]);
    assert!(face_cycles(&vec![], &leaving(4, &vec![])).is_empty());
    // A square split by a diagonal, with the half-edges round each corner
    // listed counter-clockwise as the region finder sorts them:
    // 0 (0,0), 1 (1,0), 2 (1,1), 3 (0,1); edges 0-1, 1-2, 2-3, 3-0, 0-2.
    let ends = vec![(0, 1), (1, 2), (2, 3), (3, 0), (0, 2)];
    let out = vec![
        vec![fw(0), fw(4), bw(3)],
        vec![fw(1), bw(0)],
        vec![bw(1), fw(2), bw(4)],
        vec![fw(3), bw(2)],
    ];
    let faces = face_cycles(&ends, &out);
    let total: usize = faces.iter().map(|f| f.len()).sum();
    assert_eq!(total, 10);
    assert_eq!(faces.len(), 3);
    assert_eq!(faces[0], vec![fw(0), fw(1), bw(4)]);
}

#[test]
fn merged_points_share_a_vertex_numbered_by_first_point() {
    let mut uf = UnionFind::new(5);
    uf.union(3, 0);
    uf.union(4, 1);
    let (vert_of, firsts) = vertex_numbers(&mut uf);
    assert_eq!(vert_of, vec![0, 1, 2, 0, 1]);
    assert_eq!(firsts, vec![0, 1, 2]);
    let mut uf = UnionFind::new(5);
    uf.union(0, 4);
    let (vert_of, firsts) = vertex_numbers(&mut uf);
    assert_eq!(vert_of, vec![0, 1, 2, 3, 0]);
    assert_eq!(firsts, vec![0, 1, 2, 3]);
    let (vert_of, firsts) = vertex_numbers(&mut UnionFind::new(0));
    assert!(vert_of.is_empty() && firsts.is_empty());
}

#[test]
fn seeds_are_deterministic_and_jitter_moves_corners() {
    assert_eq!(seed_tab_directions(5, 4, 3), seed_tab_directions(5, 4, 3));
    assert_ne!(seed_tab_directions(5, 4, 3), seed_tab_directions(5, 4, 4));
    let outs = seed_tab_directions(8, 8, 1).iter().filter(|out| **out).count();
    assert!(outs > 30 && outs < 82, "{outs} of 112 tabs out");
    assert_eq!(node_count(5, 4), 12);
}
