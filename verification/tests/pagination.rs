use explorer_core::pager::PaginationController;
use explorer_core::ranges::{compute_ranges, page_count, PageRange};
use explorer_core::window::window_for;
use explorer_core::CoreError;

fn records(n: usize) -> Vec<u32> {
    let mut v = Vec::new();
    let mut i: u32 = 0;
    while (i as usize) < n {
        v.push(i + 1);
        i += 1;
    }
    v
}

#[test]
fn ranges_23_by_10() {
    let v = compute_ranges(23, 10).unwrap();
    assert_eq!(
        v,
        vec![
            PageRange { start: 0, end: 10 },
            PageRange { start: 10, end: 20 },
            PageRange { start: 20, end: 23 },
        ]
    );
}

#[test]
fn ranges_empty_set_is_sentinel() {
    let v = compute_ranges(0, 10).unwrap();
    assert_eq!(v, vec![PageRange { start: 0, end: 0 }]);
}

#[test]
fn ranges_exact_multiple() {
    let v = compute_ranges(20, 10).unwrap();
    assert_eq!(
        v,
        vec![PageRange { start: 0, end: 10 }, PageRange { start: 10, end: 20 }]
    );
}

#[test]
fn ranges_single_partial_page() {
    let v = compute_ranges(7, 10).unwrap();
    assert_eq!(v, vec![PageRange { start: 0, end: 7 }]);
}

#[test]
fn ranges_page_size_one() {
    let v = compute_ranges(3, 1).unwrap();
    assert_eq!(
        v,
        vec![
            PageRange { start: 0, end: 1 },
            PageRange { start: 1, end: 2 },
            PageRange { start: 2, end: 3 },
        ]
    );
}

#[test]
fn ranges_cover_contiguously() {
    let v = compute_ranges(95, 8).unwrap();
    assert_eq!(v[0].start, 0);
    assert_eq!(v[v.len() - 1].end, 95);
    for w in v.windows(2) {
        assert_eq!(w[0].end, w[1].start);
        assert!(w[0].start <= w[0].end);
    }
}

#[test]
fn ranges_zero_page_size_rejected() {
    assert_eq!(compute_ranges(23, 0), Err(CoreError::InvalidArgument));
}

#[test]
fn page_count_rounds_up() {
    assert_eq!(page_count(0, 10), 1);
    assert_eq!(page_count(1, 10), 1);
    assert_eq!(page_count(10, 10), 1);
    assert_eq!(page_count(11, 10), 2);
    assert_eq!(page_count(23, 10), 3);
}

#[test]
fn window_first_page() {
    let data = records(23);
    let w = window_for(&data, 10, 0).unwrap();
    assert_eq!(w, (1..=10).collect::<Vec<u32>>());
}

#[test]
fn window_last_page_is_partial() {
    let data = records(23);
    let w = window_for(&data, 10, 2).unwrap();
    assert_eq!(w, vec![21, 22, 23]);
}

#[test]
fn window_clamps_overlarge_index_to_last_page() {
    let data = records(23);
    let last = window_for(&data, 10, 2).unwrap();
    for idx in [3usize, 4, 100, usize::MAX] {
        assert_eq!(window_for(&data, 10, idx).unwrap(), last);
    }
}

#[test]
fn window_of_empty_set_is_empty() {
    let data: Vec<u32> = Vec::new();
    assert_eq!(window_for(&data, 10, 0).unwrap(), Vec::<u32>::new());
    assert_eq!(window_for(&data, 10, 7).unwrap(), Vec::<u32>::new());
}

#[test]
fn window_zero_page_size_rejected() {
    let data = records(5);
    assert_eq!(window_for(&data, 0, 0), Err(CoreError::InvalidArgument));
}

#[test]
fn controller_starts_at_page_one() {
    let c = PaginationController::new(10).unwrap();
    assert_eq!(c.current_page, 1);
    assert_eq!(c.total_records, 0);
    let m = c.meta();
    assert_eq!(m.total_pages, 1);
    assert!(!m.has_next);
    assert!(!m.has_prev);
}

#[test]
fn controller_zero_page_size_rejected() {
    assert_eq!(PaginationController::new(0), Err(CoreError::InvalidArgument));
}

#[test]
fn controller_single_page_never_moves() {
    let mut c = PaginationController::new(10).unwrap();
    c.set_total_records(7);
    for _ in 0..5 {
        c.prev();
        assert_eq!(c.current_page, 1);
        c.next();
        assert_eq!(c.current_page, 1);
    }
}

#[test]
fn controller_steps_within_bounds() {
    let mut c = PaginationController::new(10).unwrap();
    c.set_total_records(25);
    assert_eq!(c.meta().total_pages, 3);
    c.next();
    assert_eq!(c.current_page, 2);
    c.next();
    assert_eq!(c.current_page, 3);
    c.next();
    assert_eq!(c.current_page, 3);
    c.prev();
    assert_eq!(c.current_page, 2);
    c.prev();
    assert_eq!(c.current_page, 1);
    c.prev();
    assert_eq!(c.current_page, 1);
}

#[test]
fn controller_clamps_when_records_shrink() {
    let mut c = PaginationController::new(10).unwrap();
    c.set_total_records(35);
    c.next();
    c.next();
    c.next();
    assert_eq!(c.current_page, 4);
    c.set_total_records(15);
    assert_eq!(c.current_page, 2);
    c.set_total_records(0);
    assert_eq!(c.current_page, 1);
}

#[test]
fn controller_window_follows_current_page() {
    let mut c = PaginationController::new(10).unwrap();
    let data = records(23);
    c.set_total_records(data.len());
    assert_eq!(c.current_window(&data), (1..=10).collect::<Vec<u32>>());
    c.next();
    assert_eq!(c.current_window(&data), (11..=20).collect::<Vec<u32>>());
    c.next();
    assert_eq!(c.current_window(&data), vec![21, 22, 23]);
}

#[test]
fn controller_stale_page_degrades_to_last_window() {
    let mut c = PaginationController::new(10).unwrap();
    c.set_total_records(35);
    c.next();
    c.next();
    c.next();
    assert_eq!(c.current_page, 4);
    // the record set reloads shorter than the adopted count before
    // set_total_records catches up: the window still degrades gracefully
    let data = records(23);
    assert_eq!(c.current_window(&data), vec![21, 22, 23]);
}

#[test]
fn controller_meta_tracks_position() {
    let mut c = PaginationController::new(10).unwrap();
    c.set_total_records(25);
    c.next();
    let m = c.meta();
    assert_eq!(m.current_page, 2);
    assert_eq!(m.total_pages, 3);
    assert_eq!(m.total_records, 25);
    assert!(m.has_next);
    assert!(m.has_prev);
}
