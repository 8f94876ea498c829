use rust_pg::debug_query::DebugQuery;
use rust_pg::fragment::Fragment;
use rust_pg::pagination::{offset_is_in_range, Paginate, PaginateWithTotal, DEFAULT_PER_PAGE};

#[test]
fn paginate_starts_at_the_default_size() {
    let q = "books".paginate(1);
    assert_eq!(q.page(), 1);
    assert_eq!(q.limit(), 10);
    assert_eq!(q.limit(), DEFAULT_PER_PAGE);
    assert_eq!(q.offset(), 0);
    assert_eq!(*q.query(), "books");
}

#[test]
fn paginate_skips_the_pages_before() {
    let q = "books".paginate(4);
    assert_eq!(q.page(), 4);
    assert_eq!(q.offset(), 30);
}

#[test]
fn paginate_takes_a_page_below_one_as_the_first() {
    let first = "books".paginate(1);
    for page in [0i64, -1, -17, i64::MIN] {
        let q = "books".paginate(page);
        assert_eq!(q.page(), first.page());
        assert_eq!(q.limit(), first.limit());
        assert_eq!(q.offset(), first.offset());
        assert_eq!(q.query(), first.query());
    }
}

#[test]
fn paginate_with_total_takes_a_page_below_one_as_the_first() {
    let first = "books".paginate_with_total(1);
    for page in [0i64, -1, -17, i64::MIN] {
        let q = "books".paginate_with_total(page);
        assert_eq!(q.page(), first.page());
        assert_eq!(q.limit(), first.limit());
        assert_eq!(q.offset(), first.offset());
    }
}

#[test]
fn per_page_moves_the_offset_with_the_size() {
    let q = "books".paginate(3).per_page(7);
    assert_eq!(q.page(), 3);
    assert_eq!(q.limit(), 7);
    assert_eq!(q.offset(), 14);
    assert_eq!(*q.query(), "books");
}

#[test]
fn per_page_is_not_capped_on_the_plain_variant() {
    let q = "books".paginate(2).per_page(50);
    assert_eq!(q.limit(), 50);
    assert_eq!(q.offset(), 50);
}

#[test]
fn per_page_takes_the_last_size_given() {
    let q = "books".paginate(5).per_page(3).per_page(4);
    assert_eq!(q.limit(), 4);
    assert_eq!(q.offset(), 16);
}

#[test]
fn per_page_of_zero_or_less_is_kept_as_given() {
    let none = "books".paginate(3).per_page(0);
    assert_eq!(none.limit(), 0);
    assert_eq!(none.offset(), 0);
    let negative = "books".paginate(3).per_page(-2);
    assert_eq!(negative.limit(), -2);
    assert_eq!(negative.offset(), -4);
}

#[test]
fn counting_variant_caps_the_page_size_at_the_default() {
    let q = "books".paginate_with_total(3).per_page(50);
    assert_eq!(q.limit(), 10);
    assert_eq!(q.offset(), 20);
    assert_eq!(q.page(), 3);
}

#[test]
fn counting_variant_grants_sizes_up_to_the_default() {
    let small = "books".paginate_with_total(3).per_page(3);
    assert_eq!(small.limit(), 3);
    assert_eq!(small.offset(), 6);
    let exact = "books".paginate_with_total(2).per_page(10);
    assert_eq!(exact.limit(), 10);
    assert_eq!(exact.offset(), 10);
    let over = "books".paginate_with_total(2).per_page(11);
    assert_eq!(over.limit(), 10);
    let negative = "books".paginate_with_total(2).per_page(-1);
    assert_eq!(negative.limit(), -1);
    assert_eq!(negative.offset(), -1);
    assert_eq!(*over.query(), "books");
}

#[test]
fn the_largest_page_that_fits_is_served() {
    let last: i64 = i64::MAX / 10 + 1;
    let q = "books".paginate(last);
    assert_eq!(q.page(), last);
    assert_eq!(q.offset(), (last - 1) * 10);
    let c = "books".paginate_with_total(last);
    assert_eq!(c.offset(), (last - 1) * 10);
}

#[test]
fn descriptors_copy_and_clone_with_their_numbers() {
    let q = "books".paginate(2).per_page(3);
    let copy = q;
    let clone = q.clone();
    assert_eq!((copy.page(), copy.limit(), copy.offset()), (2, 3, 3));
    assert_eq!((clone.page(), clone.limit(), clone.offset()), (2, 3, 3));
    assert_eq!(*clone.query(), "books");
    let c = String::from("pages").paginate_with_total(2).per_page(3);
    let again = c.clone();
    assert_eq!((again.page(), again.limit(), again.offset()), (2, 3, 3));
    assert_eq!(again.query(), c.query());
}

#[test]
fn plain_plan_is_the_query_then_limit_and_offset() {
    let q = "books".paginate(3).per_page(3);
    assert_eq!(
        q.walk_ast(),
        vec![
            Fragment::Inner,
            Fragment::Sql(" LIMIT "),
            Fragment::BigInt(&3),
            Fragment::Sql(" OFFSET "),
            Fragment::BigInt(&6),
        ]
    );
}

#[test]
fn default_plan_binds_the_default_size() {
    let q = "books".paginate(-4);
    assert_eq!(
        q.walk_ast(),
        vec![
            Fragment::Inner,
            Fragment::Sql(" LIMIT "),
            Fragment::BigInt(&10),
            Fragment::Sql(" OFFSET "),
            Fragment::BigInt(&0),
        ]
    );
}

#[test]
fn counting_plan_wraps_the_query_and_counts_over_all_rows() {
    let q = "books".paginate_with_total(2).per_page(3);
    assert_eq!(
        q.walk_ast(),
        vec![
            Fragment::Sql("SELECT *, COUNT(*) OVER () FROM ("),
            Fragment::Inner,
            Fragment::Sql(") t LIMIT "),
            Fragment::BigInt(&3),
            Fragment::Sql(" OFFSET "),
            Fragment::BigInt(&3),
        ]
    );
}

#[test]
fn counting_plan_binds_the_capped_size() {
    let q = "books".paginate_with_total(2).per_page(50);
    let plan = q.walk_ast();
    assert_eq!(plan[3], Fragment::BigInt(&10));
    assert_eq!(plan[5], Fragment::BigInt(&10));
    assert_eq!(plan.len(), 6);
}

#[test]
fn debug_query_hands_the_descriptor_back() {
    let q = "books".paginate(3).per_page(4).debug_query();
    assert_eq!((q.page(), q.limit(), q.offset()), (3, 4, 8));
    assert_eq!(*q.query(), "books");
    let c = "books".paginate_with_total(3).per_page(4).debug_query();
    assert_eq!((c.page(), c.limit(), c.offset()), (3, 4, 8));
    assert_eq!(*c.query(), "books");
}

#[test]
fn the_offset_fits_up_to_the_end_of_the_range() {
    let last: i64 = i64::MAX / 10 + 1;
    assert!(offset_is_in_range(1, 10));
    assert!(offset_is_in_range(last, 10));
    assert!(!offset_is_in_range(last + 1, 10));
    assert!(!offset_is_in_range(i64::MAX, 10));
    assert!(offset_is_in_range(i64::MAX, 1));
    assert!(!offset_is_in_range(i64::MAX, 2));
    assert!(offset_is_in_range(i64::MAX, 0));
    assert!(offset_is_in_range(i64::MAX, -1));
    assert!(!offset_is_in_range(i64::MAX, -2));
    assert!(offset_is_in_range(2, i64::MAX));
    assert!(!offset_is_in_range(3, i64::MAX));
    assert!(offset_is_in_range(2, i64::MIN));
    assert!(!offset_is_in_range(3, i64::MIN));
}

#[test]
fn the_offset_of_a_page_below_one_always_fits() {
    for page in [0i64, -1, i64::MIN] {
        for size in [0i64, 1, 10, -10, i64::MAX, i64::MIN] {
            assert!(offset_is_in_range(page, size));
            assert!(offset_is_in_range(1, size));
        }
    }
}

#[test]
fn a_page_that_fits_can_be_asked_for() {
    let page: i64 = 4_000_000_000;
    let size: i64 = 2_000_000_000;
    assert!(offset_is_in_range(page, size));
    let q = "books".paginate(page).per_page(size);
    assert_eq!(q.offset(), 7_999_999_998_000_000_000);
    assert!(!offset_is_in_range(page, size * 2));
}
