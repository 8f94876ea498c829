use rust_pg::memory::{limit_offset, limit_offset_counted, SourceError};
use rust_pg::pagination::{Paginate, PaginateWithTotal};

fn numbered(n: i32) -> Vec<i32> {
    (1..=n).collect()
}

#[test]
fn a_window_holds_the_rows_from_the_offset_up_to_the_limit() {
    let rows = numbered(10);
    assert_eq!(limit_offset(&rows, 3, 0), Ok(vec![1, 2, 3]));
    assert_eq!(limit_offset(&rows, 3, 3), Ok(vec![4, 5, 6]));
    assert_eq!(limit_offset(&rows, 4, 8), Ok(vec![9, 10]));
    assert_eq!(limit_offset(&rows, 10, 0), Ok(numbered(10)));
    assert_eq!(limit_offset(&rows, i64::MAX, 1), Ok(vec![2, 3, 4, 5, 6, 7, 8, 9, 10]));
}

#[test]
fn a_window_past_the_end_is_empty() {
    let rows = numbered(10);
    assert_eq!(limit_offset(&rows, 3, 10), Ok(vec![]));
    assert_eq!(limit_offset(&rows, 3, 11), Ok(vec![]));
    assert_eq!(limit_offset(&rows, 3, i64::MAX), Ok(vec![]));
    assert_eq!(limit_offset(&rows, i64::MAX, i64::MAX), Ok(vec![]));
    let none: Vec<i32> = Vec::new();
    assert_eq!(limit_offset(&none, 3, 0), Ok(vec![]));
}

#[test]
fn a_limit_of_zero_leaves_no_rows() {
    let rows = numbered(10);
    assert_eq!(limit_offset(&rows, 0, 0), Ok(vec![]));
    assert_eq!(limit_offset(&rows, 0, 4), Ok(vec![]));
}

#[test]
fn a_negative_limit_is_refused() {
    let rows = numbered(10);
    assert_eq!(limit_offset(&rows, -1, 0), Err(SourceError::NegativeLimit));
    assert_eq!(limit_offset(&rows, -1, -1), Err(SourceError::NegativeLimit));
    assert_eq!(limit_offset_counted(&rows, i64::MIN, 0), Err(SourceError::NegativeLimit));
}

#[test]
fn a_negative_offset_is_refused() {
    let rows = numbered(10);
    assert_eq!(limit_offset(&rows, 3, -1), Err(SourceError::NegativeOffset));
    assert_eq!(limit_offset(&rows, 0, i64::MIN), Err(SourceError::NegativeOffset));
    assert_eq!(limit_offset_counted(&rows, 3, -1), Err(SourceError::NegativeOffset));
}

#[test]
fn a_descriptor_with_a_negative_size_is_refused_by_the_source() {
    let rows = numbered(10);
    let q = rows.as_slice().paginate(2).per_page(-3);
    assert_eq!(q.load(), Err(SourceError::NegativeLimit));
    let c = rows.as_slice().paginate_with_total(2).per_page(-3);
    assert_eq!(c.load(), Err(SourceError::NegativeLimit));
}

#[test]
fn counted_rows_carry_the_number_of_all_rows() {
    let rows = numbered(7);
    assert_eq!(limit_offset_counted(&rows, 3, 3), Ok(vec![(4, 7), (5, 7), (6, 7)]));
    assert_eq!(limit_offset_counted(&rows, 3, 6), Ok(vec![(7, 7)]));
    assert_eq!(limit_offset_counted(&rows, 3, 9), Ok(vec![]));
}

#[test]
fn a_page_never_holds_more_rows_than_asked_for() {
    let rows = numbered(23);
    for page in 1i64..=6 {
        for size in 1i64..=12 {
            let q = rows.as_slice().paginate(page).per_page(size);
            assert_eq!(q.offset(), (page - 1) * size);
            let loaded = q.load().unwrap();
            assert!(loaded.len() as i64 <= size);
            let left: i64 = (23 - q.offset()).max(0);
            assert_eq!(loaded.len() as i64, left.min(size));
        }
    }
}

#[test]
fn a_page_below_one_loads_the_first_page() {
    let rows = numbered(23);
    let first = rows.as_slice().paginate(1).per_page(4).load();
    assert_eq!(first, Ok(vec![1, 2, 3, 4]));
    for page in [0i64, -1, -40, i64::MIN] {
        assert_eq!(rows.as_slice().paginate(page).per_page(4).load(), first);
    }
}

#[test]
fn loading_twice_gives_the_same_page() {
    let rows = numbered(23);
    let q = rows.as_slice().paginate(2).per_page(5);
    let once = q.load();
    let twice = q.load();
    assert_eq!(once, Ok(vec![6, 7, 8, 9, 10]));
    assert_eq!(once, twice);
    let c = rows.as_slice().paginate_with_total(3).per_page(5);
    assert_eq!(c.load(), c.load());
    let refused = rows.as_slice().paginate(2).per_page(-5);
    assert_eq!(refused.load(), refused.load());
}

#[test]
fn twenty_three_rows_in_tens_are_pages_of_ten_ten_and_three() {
    let rows = numbered(23);
    let mut sizes: Vec<usize> = Vec::new();
    let mut seen: Vec<i32> = Vec::new();
    let mut page: i64 = 1;
    loop {
        let loaded = rows.as_slice().paginate(page).per_page(10).load().unwrap();
        page += 1;
        if loaded.is_empty() {
            break;
        }
        sizes.push(loaded.len());
        seen.extend(loaded);
    }
    assert_eq!(sizes, vec![10, 10, 3]);
    assert_eq!(page, 5);
    assert_eq!(seen, rows);
}

#[test]
fn twenty_three_rows_at_the_default_size_end_after_three_pages() {
    let rows = numbered(23);
    assert_eq!(rows.as_slice().paginate(1).load().unwrap().len(), 10);
    assert_eq!(rows.as_slice().paginate(2).load().unwrap().len(), 10);
    assert_eq!(rows.as_slice().paginate(3).load().unwrap(), vec![21, 22, 23]);
    assert_eq!(rows.as_slice().paginate(4).load().unwrap(), Vec::<i32>::new());
}

#[test]
fn counted_pages_report_the_pages_there_are_until_they_run_empty() {
    let rows = numbered(7);
    let mut page: i64 = 1;
    let mut reports: Vec<(Vec<i32>, i64, i64)> = Vec::new();
    loop {
        let q = rows.as_slice().paginate_with_total(page).per_page(3);
        let loaded = q.load();
        let result = q.load_and_count_pages(loaded).unwrap();
        page += 1;
        if result.data.is_empty() {
            assert_eq!(result.total_pages, 0);
            assert_eq!(result.page_size, 3);
            break;
        }
        reports.push((result.data, result.page_size, result.total_pages));
    }
    assert_eq!(
        reports,
        vec![(vec![1, 2, 3], 3, 3), (vec![4, 5, 6], 3, 3), (vec![7], 3, 3)]
    );
}

#[test]
fn nine_rows_in_threes_count_three_pages() {
    let rows = numbered(9);
    let q = rows.as_slice().paginate_with_total(3).per_page(3);
    let result = q.load_and_count_pages(q.load()).unwrap();
    assert_eq!(result.data, vec![7, 8, 9]);
    assert_eq!(result.total_pages, 3);
    let past = rows.as_slice().paginate_with_total(4).per_page(3);
    let result = past.load_and_count_pages(past.load()).unwrap();
    assert!(result.data.is_empty());
    assert_eq!(result.total_pages, 0);
}

#[test]
fn a_page_holds_rows_exactly_when_it_is_within_the_count() {
    for n in 0i32..=25 {
        let rows = numbered(n);
        for size in 1i64..=10 {
            let total: i64 = rust_pg::pagination::total_pages(n as i64, size);
            for page in 1i64..=30 {
                let loaded = rows.as_slice().paginate(page).per_page(size).load().unwrap();
                assert_eq!(!loaded.is_empty(), page <= total);
            }
        }
    }
}

#[test]
fn the_refusal_of_the_source_comes_out_of_the_counting_unchanged() {
    let rows = numbered(7);
    let q = rows.as_slice().paginate_with_total(2).per_page(-1);
    let loaded = q.load();
    assert_eq!(loaded, Err(SourceError::NegativeLimit));
    let result = q.load_and_count_pages(loaded);
    assert_eq!(result.err(), Some(SourceError::NegativeLimit));
}
