use lz_encoder::find_repeat_element;

#[test]
fn test_find_first_duplicates_length_distance() {
    let data = [10, 20, 30, 40, 10, 20, 30, 40, 50];
    let buf = [10, 20, 30, 40];
    let coords = find_repeat_element(&data, &buf, 4, 0);
    assert_eq!(coords, Some((4, 4, 4)));

    let data = [10, 20, 20, 40, 10, 20, 30, 40, 50]; // 10, 20, 30, 40
    let buf = [10, 20, 30, 40];
    // only first two elements from `buf` should be returned as a match.
    let coords = find_repeat_element(&data, &buf, 9, 0);
    assert_eq!(coords, Some((2, 9, 2)));

    let data = [1, 2, 3, 4, 5, 6, 7, 8, 9, 10]; // 7, 8, 9
    let buf = [7, 8, 9];
    let coords = find_repeat_element(&data, &buf, 10, 0);
    // assuming `buf` is at the end of `data`
    assert_eq!(coords, Some((3, 4, 9)));

    let data = [1, 2, 3, 4, 5, 6, 7, 9, 9, 10];
    let buf = [7, 8, 9];
    let coords = find_repeat_element(&data, &buf, 10, 0);
    assert_eq!(coords, Some((1, 4, 7)));
}

#[test]
fn whole_pending_buffer_found_at_the_start() {
    let search = [10, 20, 30, 40, 10, 20, 30, 40, 50];
    let pending = [10, 20, 30, 40];
    assert_eq!(find_repeat_element(&search, &pending, 4, 0), Some((4, 4, 4)));
}

#[test]
fn run_breaks_at_the_first_mismatch() {
    let search = [10, 20, 20, 40, 10, 20, 30, 40, 50];
    let pending = [10, 20, 30, 40];
    assert_eq!(find_repeat_element(&search, &pending, 9, 0), Some((2, 9, 2)));
}

#[test]
fn run_found_late_in_the_search_buffer() {
    let search = [1, 2, 3, 4, 5, 6, 7, 8, 9, 10];
    let pending = [7, 8, 9];
    assert_eq!(find_repeat_element(&search, &pending, 10, 0), Some((3, 4, 9)));
}

#[test]
fn first_candidate_is_kept_though_a_later_one_is_longer() {
    let search = [7, 1, 7, 8, 9];
    let pending = [7, 8, 9];
    assert_eq!(find_repeat_element(&search, &pending, 5, 0), Some((1, 5, 1)));
}

#[test]
fn run_that_reaches_the_end_stops_on_the_last_byte() {
    assert_eq!(find_repeat_element(&[1, 2, 3], &[3], 3, 0), Some((1, 2, 2)));
    assert_eq!(find_repeat_element(&[1, 2, 3, 4], &[3], 3, 0), Some((1, 1, 3)));
}

#[test]
fn scan_resumes_at_the_cursor() {
    // From cursor 1 the slice is [5, 5]: two bytes match, then the slice ends.
    assert_eq!(find_repeat_element(&[5, 5, 5], &[5, 5, 5, 5], 2, 1), Some((2, 3, 1)));
    // The stop index counts from the cursor, not from the start of the buffer.
    let search = [10, 20, 30, 40, 50, 10, 20, 30, 40];
    assert_eq!(find_repeat_element(&search, &[10, 20, 30, 40], 8, 5), Some((4, 9, 3)));
}

#[test]
fn nothing_is_reported_without_a_matching_byte() {
    assert_eq!(find_repeat_element(&[1, 2, 3], &[9], 3, 0), None);
    assert_eq!(find_repeat_element(&[1, 2, 3], &[], 3, 0), None);
    assert_eq!(find_repeat_element(&[], &[1], 0, 0), None);
    assert_eq!(find_repeat_element(&[], &[], 0, 0), None);
}

#[test]
fn nothing_is_reported_for_a_run_beyond_the_write_offset() {
    // The run starts at 3 and stops at 3; 0 + 1 is not above 3.
    assert_eq!(find_repeat_element(&[1, 2, 3, 4], &[4], 0, 0), None);
    assert_eq!(find_repeat_element(&[1, 2, 3, 4], &[4], 2, 0), None);
    assert_eq!(find_repeat_element(&[1, 2, 3, 4], &[4], 3, 0), Some((1, 1, 3)));
}

#[test]
fn cursor_at_or_beyond_the_end_leaves_nothing_to_scan() {
    assert_eq!(find_repeat_element(&[1, 2, 3], &[1], 3, 3), None);
    assert_eq!(find_repeat_element(&[1, 2, 3], &[1], 3, 5), None);
    assert_eq!(find_repeat_element(&[1, 2, 3], &[1], 3, usize::MAX), None);
}

#[test]
fn distance_may_exceed_the_write_offset_by_one() {
    assert_eq!(find_repeat_element(&[1], &[1], 0, 0), Some((1, 1, 0)));
    assert_eq!(
        find_repeat_element(&[1, 2, 3], &[1], usize::MAX - 1, 0),
        Some((1, usize::MAX - 1, 1))
    );
    assert_eq!(find_repeat_element(&[1], &[1], usize::MAX - 1, 0), Some((1, usize::MAX, 0)));
}
