use vorothree::bounds::{box_side, is_wall_id, BOX_ID_BACK, BOX_ID_BOTTOM, BOX_ID_FRONT, BOX_ID_LEFT, BOX_ID_RIGHT, BOX_ID_TOP, WALL_ID_MAX};

#[test]
fn box_side_labels_run_from_minus_one_down() {
    assert_eq!(box_side(0, false), -1);
    assert_eq!(box_side(0, true), -2);
    assert_eq!(box_side(1, false), -3);
    assert_eq!(box_side(1, true), -4);
    assert_eq!(box_side(2, false), -5);
    assert_eq!(box_side(2, true), -6);
}

#[test]
fn named_box_labels_match_box_side() {
    assert_eq!(BOX_ID_LEFT, box_side(0, false));
    assert_eq!(BOX_ID_RIGHT, box_side(0, true));
    assert_eq!(BOX_ID_FRONT, box_side(1, false));
    assert_eq!(BOX_ID_BACK, box_side(1, true));
    assert_eq!(BOX_ID_BOTTOM, box_side(2, false));
    assert_eq!(BOX_ID_TOP, box_side(2, true));
}

#[test]
fn wall_ids_lie_at_or_below_the_limit() {
    assert_eq!(WALL_ID_MAX, -1000);
    assert!(is_wall_id(-1000));
    assert!(is_wall_id(-5000));
    assert!(!is_wall_id(-999));
    assert!(!is_wall_id(-1));
    assert!(!is_wall_id(0));
}
