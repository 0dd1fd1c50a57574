use matrix_multiply::{pages_for, Layout, PAGE_SIZE};

#[test]
fn layout_for_four_by_two() {
    let l = Layout::new(4, 2).unwrap();
    assert_eq!(l.a_addr, 0);
    assert_eq!(l.b_addr, 32);
    assert_eq!(l.out_addr, 48);
    assert_eq!(l.total_bytes, 56);
    assert_eq!(l.pages, 1);
}

#[test]
fn layout_beyond_address_range() {
    assert!(Layout::new(usize::MAX, 2).is_none());
    assert!(Layout::new(usize::MAX / 4 + 1, 0).is_none());
    assert!(Layout::new(1, usize::MAX / 8 + 1).is_none());
}

#[test]
fn pages_round_up_with_at_least_one() {
    assert_eq!(PAGE_SIZE, 65536);
    assert_eq!(pages_for(0), 1);
    assert_eq!(pages_for(1), 1);
    assert_eq!(pages_for(65535), 1);
    assert_eq!(pages_for(65536), 1);
    assert_eq!(pages_for(65537), 2);
    assert_eq!(pages_for(131072), 2);
    assert_eq!(pages_for(131073), 3);
}

#[test]
fn layout_of_exact_page_multiple() {
    let l = Layout::new(4, 3276).unwrap();
    assert_eq!(l.total_bytes, 65536);
    assert_eq!(l.pages, 1);
    let l = Layout::new(8, 6553).unwrap();
    assert_eq!(l.total_bytes, (8 * 6553 + 8 + 6553) * 4);
    assert_eq!(l.pages, pages_for(l.total_bytes));
}
