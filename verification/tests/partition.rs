use arrowtiles::partition::{zoom_mask, ZoomBuffers, ZOOM_FLUSH_ROWS};

#[test]
fn masks_select_rows_of_one_level() {
    let zooms = vec![0u8, 2, 1, 2];
    assert_eq!(zoom_mask(&zooms, 2), (vec![false, true, false, true], true));
    assert_eq!(zoom_mask(&zooms, 0), (vec![true, false, false, false], true));
    assert_eq!(zoom_mask(&zooms, 3), (vec![false, false, false, false], false));
    assert_eq!(zoom_mask(&vec![], 0), (vec![], false));
}

#[test]
fn buffers_flush_at_the_row_limit() {
    let mut b: ZoomBuffers<&str> = ZoomBuffers::new();
    assert_eq!(b.push(3, "a", 60_000), None);
    assert_eq!(b.push(5, "x", 10), None);
    assert_eq!(b.push(3, "b", 40_000), Some(vec!["a", "b"]));
    assert_eq!(b.push(3, "c", ZOOM_FLUSH_ROWS - 1), None);
    assert_eq!(b.drain(), vec![(3, vec!["c"]), (5, vec!["x"])]);
    assert_eq!(b.drain(), vec![]);
}
