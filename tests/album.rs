use dr::album::{album_dr, collect_all, collect_successes, order_by_index, worker_count};

#[test]
fn album_dr_is_rounded_mean() {
    assert_eq!(album_dr(&vec![]), 0);
    assert_eq!(album_dr(&vec![14, 12]), 13);
    assert_eq!(album_dr(&vec![13, 14]), 14);
    assert_eq!(album_dr(&vec![0, 1]), 1);
    assert_eq!(album_dr(&vec![10, 10, 11]), 10);
    assert_eq!(album_dr(&vec![u32::MAX, u32::MAX]), u32::MAX);
}

#[test]
fn album_dr_matches_float_rounding() {
    let drs = vec![0u32, 1];
    let expected = ((drs[0] as f64 + drs[1] as f64) / 2.0).round() as u32;
    assert_eq!(album_dr(&drs), expected);
    let drs = vec![1u32, 1];
    assert_eq!(album_dr(&drs), 1);
}

#[test]
fn workers_never_outnumber_files() {
    assert_eq!(worker_count(0, 5), 1);
    assert_eq!(worker_count(8, 3), 3);
    assert_eq!(worker_count(2, 3), 2);
    assert_eq!(worker_count(4, 0), 0);
}

#[test]
fn results_return_to_file_order() {
    let parts = vec![(2usize, "c"), (0, "a"), (1, "b")];
    let slots = order_by_index(4, parts);
    assert_eq!(slots, vec![Some("a"), Some("b"), Some("c"), None]);
}

#[test]
fn first_failure_in_file_order_wins() {
    let parts: Vec<(usize, Result<u32, &str>)> = vec![(2, Err("late")), (0, Ok(9)), (1, Err("early"))];
    let slots = order_by_index(3, parts);
    assert_eq!(collect_all(slots), Err("early"));

    let parts: Vec<(usize, Result<u32, &str>)> = vec![(1, Ok(2)), (0, Ok(1))];
    assert_eq!(collect_all(order_by_index(2, parts)), Ok(vec![1, 2]));
}

#[test]
fn successes_skip_failures() {
    let parts: Vec<(usize, Result<u32, &str>)> = vec![(2, Ok(3)), (0, Ok(1)), (1, Err("bad"))];
    assert_eq!(collect_successes(order_by_index(3, parts)), vec![1, 3]);
}
