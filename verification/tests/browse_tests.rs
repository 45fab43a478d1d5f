use carnister::browse::Browser;

#[test]
fn out_of_range_row_selects_nothing() {
    let b = Browser::new();
    let total = 35;
    // Row 0 and row page_size + 1 never name a song.
    assert_eq!(b.select_row(total, 0), None);
    assert_eq!(b.select_row(total, b.page_size + 1), None);
    // The browser itself is untouched by selection: it is read-only here.
    assert_eq!((b.page, b.page_size), (0, 20));
}

#[test]
fn in_range_row_maps_to_song_index() {
    let mut b = Browser::new();
    let total = 35;
    assert_eq!(b.select_row(total, 1), Some(0));
    assert_eq!(b.select_row(total, 20), Some(19));
    b.next_page(total);
    assert_eq!(b.page, 1);
    assert_eq!(b.rows_on_page(total), 15);
    assert_eq!(b.select_row(total, 15), Some(34));
    // Only 15 rows are shown on the last page.
    assert_eq!(b.select_row(total, 16), None);
}

#[test]
fn page_count_rounds_up() {
    let b = Browser::new();
    assert_eq!(b.page_count(0), 0);
    assert_eq!(b.page_count(1), 1);
    assert_eq!(b.page_count(20), 1);
    assert_eq!(b.page_count(21), 2);
    assert_eq!(b.page_count(40), 2);
}

#[test]
fn paging_is_clamped_to_the_page_range() {
    let mut b = Browser::new();
    let total = 45;  // three pages of twenty
    b.prev_page();
    assert_eq!(b.page, 0);
    b.next_page(total);
    b.next_page(total);
    assert_eq!(b.page, 2);
    b.next_page(total);
    assert_eq!(b.page, 2);
    b.prev_page();
    assert_eq!(b.page, 1);
}

#[test]
fn page_size_moves_in_tens_with_floor_ten() {
    let mut b = Browser::new();
    b.grow_page_size();
    assert_eq!(b.page_size, 30);
    b.shrink_page_size();
    b.shrink_page_size();
    assert_eq!(b.page_size, 10);
    b.shrink_page_size();
    assert_eq!(b.page_size, 10);
}

#[test]
fn empty_set_shows_no_rows() {
    let b = Browser::new();
    assert_eq!(b.rows_on_page(0), 0);
    assert_eq!(b.select_row(0, 1), None);
}
