use sage::ui::{buffer_needs_recreation, draw_order, UiPassMarker};

#[test]
fn draw_order_puts_higher_z_first() {
    assert_eq!(draw_order(&vec![1, 5, 3]), vec![1, 2, 0]);
    assert_eq!(draw_order(&vec![-2, 7, 0, 4]), vec![1, 3, 2, 0]);
    assert_eq!(draw_order(&vec![]), Vec::<usize>::new());
}

#[test]
fn draw_order_is_a_permutation_with_ties() {
    let z = vec![2, 2, 9, 2];
    let order = draw_order(&z);
    assert_eq!(order.len(), 4);
    assert_eq!(order[0], 2);
    let mut sorted = order.clone();
    sorted.sort();
    assert_eq!(sorted, vec![0, 1, 2, 3]);
}

#[test]
fn buffer_recreated_when_missing_or_small() {
    assert!(buffer_needs_recreation(None, 0));
    assert!(buffer_needs_recreation(Some(10), 11));
    assert!(!buffer_needs_recreation(Some(10), 10));
    assert!(!buffer_needs_recreation(Some(64), 8));
}

#[test]
fn ui_pass_marker_exists() {
    let _marker = UiPassMarker;
}
