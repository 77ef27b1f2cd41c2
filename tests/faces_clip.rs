use vorothree::clip::{ClipOutcome, Side};
use vorothree::faces::{clip_faces, FaceTopology};

// corners numbered 0 to 7 in the order (0,0,0) (1,0,0) (1,1,0) (0,1,0)
// (0,0,1) (1,0,1) (1,1,1) (0,1,1); a plane x = 0.5 keeps 0, 3, 4, 7
fn half_box_sides() -> Vec<Side> {
    vec![
        Side::Below,
        Side::Above,
        Side::Above,
        Side::Below,
        Side::Below,
        Side::Above,
        Side::Above,
        Side::Below,
    ]
}

#[test]
fn seed_box_has_six_labelled_faces() {
    let b = FaceTopology::new_box();
    assert_eq!(b.num_vertices, 8);
    assert_eq!(b.faces.len(), 6);
    assert!(b.faces.iter().all(|f| f.len() == 4));
    assert_eq!(b.neighbors, vec![-5, -6, -3, -4, -1, -2]);
}

#[test]
fn box_cut_in_half_along_x() {
    let b = FaceTopology::new_box();
    match clip_faces(&b, &half_box_sides(), 10) {
        ClipOutcome::Cut(c) => {
            assert_eq!(c.kept, vec![0, 3, 4, 7]);
            assert_eq!(c.crossings, vec![(3, 2), (1, 0), (4, 5), (6, 7)]);
            assert_eq!(c.topology.num_vertices, 8);
            assert_eq!(
                c.topology.faces,
                vec![
                    vec![4, 5, 0, 1],
                    vec![6, 7, 3, 2],
                    vec![5, 6, 2, 0],
                    vec![4, 1, 3, 7],
                    vec![2, 3, 1, 0],
                    vec![5, 4, 7, 6],
                ]
            );
            assert_eq!(c.topology.neighbors, vec![-5, -6, -3, -4, -1, 10]);
        }
        _ => panic!("expected a cut"),
    }
}

#[test]
fn corner_cut_adds_a_triangle_lid() {
    // only corner 6 = (1,1,1) lies above the plane
    let b = FaceTopology::new_box();
    let mut sides = vec![Side::Below; 8];
    sides[6] = Side::Above;
    match clip_faces(&b, &sides, 42) {
        ClipOutcome::Cut(c) => {
            assert_eq!(c.kept, vec![0, 1, 2, 3, 4, 5, 7]);
            assert_eq!(c.crossings.len(), 3);
            assert_eq!(c.topology.num_vertices, 10);
            assert_eq!(c.topology.faces.len(), 7);
            assert_eq!(*c.topology.neighbors.last().unwrap(), 42);
            assert_eq!(c.topology.faces.last().unwrap().len(), 3);
            assert!(c.topology.faces.iter().all(|f| f.len() >= 3));
        }
        _ => panic!("expected a cut"),
    }
}

#[test]
fn box_untouched_by_a_plane_beyond_it() {
    let b = FaceTopology::new_box();
    let sides = vec![Side::Below; 8];
    assert!(matches!(clip_faces(&b, &sides, 1), ClipOutcome::Unchanged));
}

#[test]
fn box_vanishes_behind_a_plane() {
    let b = FaceTopology::new_box();
    let mut sides = vec![Side::Above; 8];
    sides[0] = Side::On;
    assert!(matches!(clip_faces(&b, &sides, 1), ClipOutcome::Emptied));
}

#[test]
fn a_second_cut_applies_to_the_first_result() {
    let b = FaceTopology::new_box();
    let first = match clip_faces(&b, &half_box_sides(), 10) {
        ClipOutcome::Cut(c) => c.topology,
        _ => panic!("expected a cut"),
    };
    // the plane y = 0.5: among the new vertices 0..8, those with y = 1 go
    let sides = vec![
        Side::Below,
        Side::Above,
        Side::Below,
        Side::Above,
        Side::Above,
        Side::Below,
        Side::Below,
        Side::Above,
    ];
    match clip_faces(&first, &sides, 11) {
        ClipOutcome::Cut(c) => {
            assert_eq!(c.kept, vec![0, 2, 5, 6]);
            assert_eq!(c.topology.num_vertices, 8);
            assert_eq!(c.topology.faces.len(), 6);
            assert_eq!(*c.topology.neighbors.last().unwrap(), 11);
            assert!(c.topology.faces.iter().all(|f| f.len() == 4));
        }
        _ => panic!("expected a cut"),
    }
}

#[test]
fn a_lid_of_fewer_than_three_vertices_is_dropped() {
    // a lone triangle, cut across one corner: the lid would be a segment
    let t = FaceTopology { num_vertices: 3, faces: vec![vec![0, 1, 2]], neighbors: vec![-7] };
    let sides = vec![Side::Below, Side::Above, Side::Below];
    match clip_faces(&t, &sides, 9) {
        ClipOutcome::Cut(c) => {
            assert_eq!(c.kept, vec![0, 2]);
            assert_eq!(c.crossings, vec![(0, 1), (1, 2)]);
            assert_eq!(c.topology.num_vertices, 4);
            assert_eq!(c.topology.faces, vec![vec![2, 3, 1, 0]]);
            assert_eq!(c.topology.neighbors, vec![-7]);
        }
        _ => panic!("expected a cut"),
    }
}

#[test]
fn a_cell_without_vertices_is_left_alone() {
    let t = FaceTopology { num_vertices: 0, faces: vec![], neighbors: vec![] };
    assert!(matches!(clip_faces(&t, &vec![], 1), ClipOutcome::Unchanged));
}
