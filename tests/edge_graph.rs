use vorothree::clip::{ClipOutcome, Side};
use vorothree::edges::{clip_edges, faces_of, EdgeTopology};
use vorothree::polygon::PolyPoint;

#[test]
fn seed_box_graph_reads_back_six_faces() {
    let g = EdgeTopology::new_box();
    let (faces, labels) = faces_of(&g);
    assert_eq!(
        faces,
        vec![
            vec![0, 1, 5, 4],
            vec![0, 4, 7, 3],
            vec![0, 3, 2, 1],
            vec![1, 2, 6, 5],
            vec![2, 3, 7, 6],
            vec![4, 5, 6, 7],
        ]
    );
    assert_eq!(labels, vec![-3, -1, -5, -2, -4, -6]);
}

#[test]
fn every_box_edge_has_its_opposite() {
    let g = EdgeTopology::new_box();
    for u in 0..g.out.len() {
        for &v in &g.out[u] {
            assert!(g.out[v].contains(&u));
        }
    }
}

#[test]
fn walk_stops_when_no_edge_continues_the_face() {
    // a triangle whose last edge carries another label
    let g = EdgeTopology {
        out: vec![vec![1], vec![2], vec![0]],
        left: vec![vec![5], vec![5], vec![6]],
    };
    let (faces, labels) = faces_of(&g);
    assert_eq!(faces, vec![vec![0, 1], vec![2]]);
    assert_eq!(labels, vec![5, 6]);
}

#[test]
fn walk_is_bounded_on_a_cycle_that_misses_its_start() {
    // from 0 the face runs into the loop 1 -> 2 -> 1 and never returns
    let g = EdgeTopology {
        out: vec![vec![1], vec![2], vec![1]],
        left: vec![vec![4], vec![4], vec![4]],
    };
    let (faces, labels) = faces_of(&g);
    assert_eq!(faces, vec![vec![0, 1, 2]]);
    assert_eq!(labels, vec![4]);
}

#[test]
fn walk_never_takes_an_edge_twice() {
    let g = EdgeTopology {
        out: vec![vec![1], vec![2], vec![1], vec![0]],
        left: vec![vec![7], vec![7], vec![7], vec![9]],
    };
    let (faces, labels) = faces_of(&g);
    assert_eq!(faces, vec![vec![0, 1, 2], vec![3]]);
    assert_eq!(labels, vec![7, 9]);
    let total: usize = faces.iter().map(|f| f.len()).sum();
    assert!(total <= 4);
}

fn half_box_sides() -> Vec<Side> {
    vec![
        Side::Below,
        Side::Above,
        Side::Above,
        Side::Below,
        Side::Below,
        Side::Above,
        Side::Above,
        Side::Below,
    ]
}

#[test]
fn graph_box_cut_in_half_along_x() {
    let g = EdgeTopology::new_box();
    match clip_edges(&g, &half_box_sides(), 10) {
        ClipOutcome::Cut(c) => {
            assert_eq!(
                c.vertices,
                vec![
                    PolyPoint::Vertex(0),
                    PolyPoint::Crossing(0, 1),
                    PolyPoint::Vertex(3),
                    PolyPoint::Crossing(3, 2),
                    PolyPoint::Vertex(4),
                    PolyPoint::Crossing(4, 5),
                    PolyPoint::Vertex(7),
                    PolyPoint::Crossing(7, 6),
                ]
            );
            assert_eq!(
                c.topology.out,
                vec![
                    vec![1, 4, 2],
                    vec![0, 3, 5],
                    vec![0, 6, 3],
                    vec![2, 7, 1],
                    vec![5, 6, 0],
                    vec![4, 1, 7],
                    vec![2, 4, 7],
                    vec![6, 5, 3],
                ]
            );
            assert_eq!(
                c.topology.left,
                vec![
                    vec![-3, -1, -5],
                    vec![-5, 10, -3],
                    vec![-1, -4, -5],
                    vec![-4, 10, -5],
                    vec![-6, -1, -3],
                    vec![-3, 10, -6],
                    vec![-1, -6, -4],
                    vec![-6, 10, -4],
                ]
            );
            // every directed edge has its opposite
            for u in 0..c.topology.out.len() {
                for &v in &c.topology.out[u] {
                    assert!(c.topology.out[v].contains(&u));
                }
            }
            let (faces, mut labels) = faces_of(&c.topology);
            assert_eq!(faces.len(), 6);
            assert!(faces.iter().all(|f| f.len() == 4));
            assert_eq!(faces[0], vec![0, 1, 5, 4]);
            labels.sort();
            assert_eq!(labels, vec![-6, -5, -4, -3, -1, 10]);
        }
        _ => panic!("expected a cut"),
    }
}

#[test]
fn graph_untouched_or_emptied() {
    let g = EdgeTopology::new_box();
    assert!(matches!(clip_edges(&g, &vec![Side::On; 8], 1), ClipOutcome::Unchanged));
    let mut sides = vec![Side::Above; 8];
    sides[3] = Side::On;
    assert!(matches!(clip_edges(&g, &sides, 1), ClipOutcome::Emptied));
}

#[test]
fn graph_corner_cut_agrees_with_face_cut() {
    // only corner 6 = (1,1,1) lies above the plane
    let mut sides = vec![Side::Below; 8];
    sides[6] = Side::Above;
    let g = EdgeTopology::new_box();
    match clip_edges(&g, &sides, 42) {
        ClipOutcome::Cut(c) => {
            assert_eq!(c.vertices.len(), 10);
            for u in 0..c.topology.out.len() {
                for &v in &c.topology.out[u] {
                    assert!(c.topology.out[v].contains(&u));
                }
            }
            let (faces, labels) = faces_of(&c.topology);
            assert_eq!(faces.len(), 7);
            let lid: Vec<&Vec<usize>> = faces.iter().zip(labels.iter()).filter(|(_, &l)| l == 42).map(|(f, _)| f).collect();
            assert_eq!(lid.len(), 1);
            assert_eq!(lid[0].len(), 3);
        }
        _ => panic!("expected a cut"),
    }
}

#[test]
fn every_crossing_point_is_linked_both_ways_to_its_kept_vertex() {
    // the bottom face is crossed four times: corners 0 and 2 stay
    let mut sides = vec![Side::Above; 8];
    sides[0] = Side::Below;
    sides[2] = Side::Below;
    let g = EdgeTopology::new_box();
    match clip_edges(&g, &sides, 5) {
        ClipOutcome::Cut(c) => {
            let crossings: Vec<usize> = (0..c.vertices.len())
                .filter(|&v| matches!(c.vertices[v], PolyPoint::Crossing(_, _)))
                .collect();
            assert_eq!(crossings.len(), 6);
            for &p in &crossings {
                let PolyPoint::Crossing(i, _) = c.vertices[p] else { unreachable!() };
                let a = c.vertices.iter().position(|x| *x == PolyPoint::Vertex(i)).unwrap();
                assert_eq!(c.topology.out[p][0], a);
                assert!(c.topology.out[a].contains(&p));
            }
        }
        _ => panic!("expected a cut"),
    }
}
