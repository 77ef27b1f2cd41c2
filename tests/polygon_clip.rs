use vorothree::bounds::box_side;
use vorothree::clip::{ClipOutcome, Side};
use vorothree::polygon::{clip_polygon, PolyPoint};

fn square_labels() -> Vec<i32> {
    vec![box_side(1, false), box_side(0, true), box_side(1, true), box_side(0, false)]
}

#[test]
fn square_cut_by_vertical_line_keeps_left_half() {
    // unit square (0,0) (1,0) (1,1) (0,1), cut by x <= 0.5
    let sides = vec![Side::Below, Side::Above, Side::Above, Side::Below];
    match clip_polygon(&sides, &square_labels(), 10) {
        ClipOutcome::Cut(c) => {
            assert_eq!(
                c.points,
                vec![
                    PolyPoint::Vertex(0),
                    PolyPoint::Crossing(0, 1),
                    PolyPoint::Crossing(2, 3),
                    PolyPoint::Vertex(3),
                ]
            );
            assert_eq!(c.neighbors, vec![-3, 10, -4, -1]);
        }
        _ => panic!("expected a cut"),
    }
}

#[test]
fn square_cut_off_one_corner_gains_a_vertex() {
    let sides = vec![Side::Below, Side::Below, Side::Above, Side::Below];
    match clip_polygon(&sides, &square_labels(), 7) {
        ClipOutcome::Cut(c) => {
            assert_eq!(
                c.points,
                vec![
                    PolyPoint::Vertex(0),
                    PolyPoint::Vertex(1),
                    PolyPoint::Crossing(1, 2),
                    PolyPoint::Crossing(2, 3),
                    PolyPoint::Vertex(3),
                ]
            );
            assert_eq!(c.neighbors, vec![-3, -2, 7, -4, -1]);
        }
        _ => panic!("expected a cut"),
    }
}

#[test]
fn polygon_untouched_when_nothing_lies_above() {
    let sides = vec![Side::Below, Side::On, Side::Below, Side::On];
    assert!(matches!(clip_polygon(&sides, &square_labels(), 3), ClipOutcome::Unchanged));
}

#[test]
fn polygon_vanishes_when_nothing_lies_below() {
    let sides = vec![Side::Above, Side::On, Side::Above, Side::Above];
    assert!(matches!(clip_polygon(&sides, &square_labels(), 3), ClipOutcome::Emptied));
}

#[test]
fn degenerate_polygon_is_left_alone() {
    let sides = vec![Side::Below, Side::Above];
    assert!(matches!(clip_polygon(&sides, &vec![-1, -2], 3), ClipOutcome::Unchanged));
}

#[test]
fn vertices_on_the_plane_are_kept() {
    let sides = vec![Side::On, Side::Above, Side::On, Side::Below];
    match clip_polygon(&sides, &square_labels(), 4) {
        ClipOutcome::Cut(c) => {
            assert_eq!(
                c.points,
                vec![
                    PolyPoint::Vertex(0),
                    PolyPoint::Crossing(0, 1),
                    PolyPoint::Crossing(1, 2),
                    PolyPoint::Vertex(2),
                    PolyPoint::Vertex(3),
                ]
            );
            assert_eq!(c.neighbors, vec![-3, 4, -2, -4, -1]);
        }
        _ => panic!("expected a cut"),
    }
}
