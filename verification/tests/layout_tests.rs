use unblind::layout::blob_layout;

#[test]
fn offsets_of_the_published_instance() {
    // 1024 setup points, 1000 account vectors of 32 field elements each.
    let l = blob_layout(1024, 1000, 32).unwrap();
    assert_eq!(l.setup_end, 98312);
    assert_eq!(l.accounts_end, 1130320);
    assert_eq!(l.challenge_1_end, 1130352);
    assert_eq!(l.challenge_2_end, 1130384);
    assert_eq!(l.commitment_end, 1130480);
    assert_eq!(l.opening_1_end, 1130512);
    assert_eq!(l.opening_2_end, 1130544);
}

#[test]
fn offsets_scale_with_counts() {
    let l = blob_layout(4, 2, 3).unwrap();
    assert_eq!(l.setup_end, 8 + 96 * 4);
    assert_eq!(l.accounts_end, l.setup_end + 8 + 2 * (8 + 32 * 3));
    assert_eq!(l.opening_2_end, l.accounts_end + 32 + 32 + 96 + 32 + 32);
}
