use vorothree::generators::{any_rejected, surviving_indices};

#[test]
fn survivors_keep_their_order() {
    assert_eq!(surviving_indices(&vec![true, false, true, true, false]), vec![0, 2, 3]);
    assert_eq!(surviving_indices(&vec![]), Vec::<usize>::new());
    assert_eq!(surviving_indices(&vec![false, false]), Vec::<usize>::new());
}

#[test]
fn rejection_is_detected() {
    assert!(any_rejected(&vec![true, false]));
    assert!(!any_rejected(&vec![true, true]));
    assert!(!any_rejected(&vec![]));
}
