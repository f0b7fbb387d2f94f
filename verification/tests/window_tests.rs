use vofa_next::window::{relative_times, window_bounds};

#[test]
fn window_bounds_selects_last_second() {
    // points every 250 ms up to t = 2 s; window [-1000 ms, 0]
    let ts: Vec<u64> = vec![0, 250_000, 500_000, 750_000, 1_000_000, 1_250_000, 1_500_000, 1_750_000, 2_000_000];
    assert_eq!(window_bounds(&ts, -1000, 0), (4, 9));
    assert_eq!(window_bounds(&ts, -600, -200), (6, 8));
}

#[test]
fn window_bounds_start_before_all_points() {
    let ts: Vec<u64> = vec![1_000, 2_000, 3_000];
    // start clamps at 0 us: every point is at or after it
    assert_eq!(window_bounds(&ts, -10_000, 0), (0, 3));
}

#[test]
fn window_bounds_start_after_all_points_falls_back_to_zero() {
    let ts: Vec<u64> = vec![1_000, 2_000, 3_000];
    // no point at or after 3 ms + 5 ms: the window starts at index 0
    assert_eq!(window_bounds(&ts, 5, 10), (0, 3));
    // ... and ends at the first point after the window end
    assert_eq!(window_bounds(&ts, 5, -1), (0, 2));
}

#[test]
fn relative_times_round_toward_zero() {
    let ts: Vec<u64> = vec![0, 1_500, 2_999, 3_000];
    assert_eq!(relative_times(&ts, 0, 4, 3_000), vec![-3, -1, 0, 0]);
    assert_eq!(relative_times(&ts, 1, 3, 3_000), vec![-1, 0]);
    assert_eq!(relative_times(&ts, 0, 2, 0), vec![0, 1]);
}
