use crate::fragment::{Fragment, FragmentView};
use vstd::arithmetic::div_mod::{
    lemma_fundamental_div_mod, lemma_fundamental_div_mod_converse, lemma_mod_bound,
};
use vstd::prelude::*;

verus! {

/// Rows per page when the caller has not chosen a size. The counting variant also treats it
/// as the largest size it grants.
pub const DEFAULT_PER_PAGE: i64 = 10;

/// The page that a request for `page` is served with: pages are counted from one, and a
/// request for anything below one is a request for the first page.
pub open spec fn clamp_page(page: int) -> int {
    if page < 1 {
        1
    } else {
        page
    }
}

/// The page size that the counting variant grants for a requested size.
pub open spec fn cap_per_page(per_page: int) -> int {
    if per_page < DEFAULT_PER_PAGE {
        per_page
    } else {
        DEFAULT_PER_PAGE as int
    }
}

/// What a pagination descriptor stands for: the query it bounds, the page asked for (counted
/// from one) and the number of rows in a page.
pub struct PageSpec<T> {
    pub query: T,
    pub page: int,
    pub per_page: int,
}

impl<T> PageSpec<T> {
    /// Rows skipped before the page starts.
    pub open spec fn offset(self) -> int {
        (self.page - 1) * self.per_page
    }

    /// The same request with another page size.
    pub open spec fn with_per_page(self, per_page: int) -> PageSpec<T> {
        PageSpec { query: self.query, page: self.page, per_page }
    }
}

/// The descriptor that a fresh request for `page` of `query` yields.
pub open spec fn requested<T>(query: T, page: int) -> PageSpec<T> {
    PageSpec { query, page: clamp_page(page), per_page: DEFAULT_PER_PAGE as int }
}

/// Whether the offset of a request with these numbers fits the 64-bit integer it is bound as.
pub open spec fn offset_fits(page: int, per_page: int) -> bool {
    i64::MIN <= (page - 1) * per_page <= i64::MAX
}

/// Whether page `page`, taken as the first page where it is below one, has an offset at
/// `per_page` rows a page that fits the 64-bit integer it is bound as. This is the test to make
/// before asking for a page whose number comes from outside.
pub fn offset_is_in_range(page: i64, per_page: i64) -> (r: bool)
    ensures
        r == offset_fits(clamp_page(page as int), per_page as int),
{
    let page: i64 = if page < 1 { 1 } else { page };
    assert(-0x4000_0000_0000_0000_0000_0000_0000_0000 <= (page - 1) * per_page
        <= 0x4000_0000_0000_0000_0000_0000_0000_0000) by (nonlinear_arith)
        requires
            0 <= page - 1 <= 0x7fff_ffff_ffff_ffff,
            -0x8000_0000_0000_0000 <= per_page <= 0x7fff_ffff_ffff_ffff,
    ;
    let offset: i128 = ((page - 1) as i128) * (per_page as i128);
    i64::MIN as i128 <= offset && offset <= i64::MAX as i128
}

#[derive(Debug)]
struct Common<T> {
    query: T,
    page: i64,
    per_page: i64,
    offset: i64,
}

/// A query bounded to one page by a row limit and an offset. The page size is whatever the
/// caller sets; a page past the end of the rows comes back empty, and that is how a caller
/// walking the pages learns that it is done.
#[derive(Debug)]
pub struct Paginated<T> {
    common: Common<T>,
}

/// A query bounded to one page that also reports, with every row, how many rows the unbounded
/// query has, so that the page count comes with the page in one round trip. Unlike the plain
/// variant, this one grants no page size above the default.
#[derive(Debug)]
pub struct PaginatedWithTotal<T> {
    common: Common<T>,
}

/// One page of rows with the size that was asked for and the number of pages there are.
#[derive(Debug)]
pub struct PaginatedResult<T> {
    pub data: Vec<T>,
    pub page_size: i64,
    pub total_pages: i64,
}

impl<T> Common<T> {
    spec fn spec_of(self) -> PageSpec<T> {
        PageSpec { query: self.query, page: self.page as int, per_page: self.per_page as int }
    }

    spec fn wf(self) -> bool {
        &&& self.page >= 1
        &&& self.offset == (self.page - 1) * self.per_page
    }
}

impl<T: Clone> Clone for Common<T> {
    fn clone(&self) -> Self {
        Common {
            query: self.query.clone(),
            page: self.page,
            per_page: self.per_page,
            offset: self.offset,
        }
    }
}

impl<T: Copy> Copy for Common<T> {}

impl<T: Clone> Clone for Paginated<T> {
    fn clone(&self) -> (r: Self)
        ensures
            cloned(self@.query, r@.query),
            r@.page == self@.page,
            r@.per_page == self@.per_page,
    {
        proof {
            use_type_invariant(self);
        }
        Paginated {
            common: Common {
                query: self.common.query.clone(),
                page: self.common.page,
                per_page: self.common.per_page,
                offset: self.common.offset,
            },
        }
    }
}

impl<T: Copy> Copy for Paginated<T> {}

impl<T: Clone> Clone for PaginatedWithTotal<T> {
    fn clone(&self) -> (r: Self)
        ensures
            cloned(self@.query, r@.query),
            r@.page == self@.page,
            r@.per_page == self@.per_page,
    {
        proof {
            use_type_invariant(self);
        }
        PaginatedWithTotal {
            common: Common {
                query: self.common.query.clone(),
                page: self.common.page,
                per_page: self.common.per_page,
                offset: self.common.offset,
            },
        }
    }
}

impl<T: Copy> Copy for PaginatedWithTotal<T> {}

impl<T> View for Paginated<T> {
    type V = PageSpec<T>;

    closed spec fn view(&self) -> PageSpec<T> {
        self.common.spec_of()
    }
}

impl<T> View for PaginatedWithTotal<T> {
    type V = PageSpec<T>;

    closed spec fn view(&self) -> PageSpec<T> {
        self.common.spec_of()
    }
}

/// Anything can be bounded to a page: the descriptor only carries the query along.
pub trait Paginate: Sized {
    /// Bounds `self` to page `page` at the default page size. Pages are counted from one, and
    /// a page below one is served as the first.
    fn paginate(self, page: i64) -> (r: Paginated<Self>)
        requires
            offset_fits(clamp_page(page as int), DEFAULT_PER_PAGE as int),
        ensures
            r@ == requested(self, page as int),
    ;
}

/// Anything can be bounded to a page and counted.
pub trait PaginateWithTotal: Sized {
    /// Bounds `self` to page `page` at the default page size, counting all rows on the way.
    /// Pages are counted from one, and a page below one is served as the first.
    fn paginate_with_total(self, page: i64) -> (r: PaginatedWithTotal<Self>)
        requires
            offset_fits(clamp_page(page as int), DEFAULT_PER_PAGE as int),
        ensures
            r@ == requested(self, page as int),
    ;
}

impl<T> Paginate for T {
    fn paginate(self, page: i64) -> (r: Paginated<Self>) {
        let page: i64 = if page < 1 { 1 } else { page };
        Paginated {
            common: Common {
                query: self,
                per_page: DEFAULT_PER_PAGE,
                page,
                offset: (page - 1) * DEFAULT_PER_PAGE,
            },
        }
    }
}

impl<T> PaginateWithTotal for T {
    fn paginate_with_total(self, page: i64) -> (r: PaginatedWithTotal<Self>) {
        let page: i64 = if page < 1 { 1 } else { page };
        PaginatedWithTotal {
            common: Common {
                query: self,
                per_page: DEFAULT_PER_PAGE,
                page,
                offset: (page - 1) * DEFAULT_PER_PAGE,
            },
        }
    }
}

/// The steps that write a page-bounded query: the query itself, then its limit and offset.
pub open spec fn limit_offset_plan(per_page: int, offset: int) -> Seq<FragmentView> {
    seq![
        FragmentView::Inner,
        FragmentView::Sql(" LIMIT "@),
        FragmentView::BigInt(per_page),
        FragmentView::Sql(" OFFSET "@),
        FragmentView::BigInt(offset),
    ]
}

/// The steps that write a counting page-bounded query: the query as a subquery, every column
/// of it beside a count over all of its rows, then the limit and offset.
pub open spec fn counted_plan(per_page: int, offset: int) -> Seq<FragmentView> {
    seq![
        FragmentView::Sql("SELECT *, COUNT(*) OVER () FROM ("@),
        FragmentView::Inner,
        FragmentView::Sql(") t LIMIT "@),
        FragmentView::BigInt(per_page),
        FragmentView::Sql(" OFFSET "@),
        FragmentView::BigInt(offset),
    ]
}

impl<T> Paginated<T> {
    #[verifier::type_invariant]
    spec fn inv(self) -> bool {
        self.common.wf()
    }

    /// The same page of the same query, at `per_page` rows a page. The size is taken as it
    /// is given, without a cap; what a source makes of a size of zero or less is the source's
    /// business.
    pub fn per_page(self, per_page: i64) -> (r: Self)
        requires
            offset_fits(self@.page, per_page as int),
        ensures
            r@ == self@.with_per_page(per_page as int),
    {
        proof {
            use_type_invariant(&self);
        }
        Paginated {
            common: Common {
                query: self.common.query,
                page: self.common.page,
                per_page,
                offset: (self.common.page - 1) * per_page,
            },
        }
    }

    /// The page asked for, at least one.
    pub fn page(&self) -> (r: i64)
        ensures
            r == self@.page,
            r >= 1,
    {
        proof {
            use_type_invariant(self);
        }
        self.common.page
    }

    /// The row limit of the page.
    pub fn limit(&self) -> (r: i64)
        ensures
            r == self@.per_page,
    {
        self.common.per_page
    }

    /// The rows skipped before the page.
    pub fn offset(&self) -> (r: i64)
        ensures
            r == self@.offset(),
    {
        proof {
            use_type_invariant(self);
        }
        self.common.offset
    }

    /// The query that is bounded.
    pub fn query(&self) -> (r: &T)
        ensures
            *r == self@.query,
    {
        &self.common.query
    }

    /// The steps that write this query out.
    pub fn walk_ast<'a>(&'a self) -> (plan: Vec<Fragment<'a>>)
        ensures
            plan.deep_view() == limit_offset_plan(self@.per_page, self@.offset()),
    {
        proof {
            use_type_invariant(self);
        }
        let mut plan: Vec<Fragment<'a>> = Vec::new();
        plan.push(Fragment::Inner);
        plan.push(Fragment::Sql(" LIMIT "));
        plan.push(Fragment::BigInt(&self.common.per_page));
        plan.push(Fragment::Sql(" OFFSET "));
        plan.push(Fragment::BigInt(&self.common.offset));
        assert(plan.deep_view() =~= limit_offset_plan(self@.per_page, self@.offset()));
        plan
    }
}

impl<T> PaginatedWithTotal<T> {
    #[verifier::type_invariant]
    spec fn inv(self) -> bool {
        self.common.wf()
    }

    /// The same page of the same query, at `per_page` rows a page or at the default size,
    /// whichever is less: the default is a ceiling here, and a larger size is cut down to it
    /// without a word.
    pub fn per_page(self, per_page: i64) -> (r: Self)
        requires
            offset_fits(self@.page, cap_per_page(per_page as int)),
        ensures
            r@ == self@.with_per_page(cap_per_page(per_page as int)),
            r@.per_page <= DEFAULT_PER_PAGE,
    {
        proof {
            use_type_invariant(&self);
        }
        let per_page: i64 = if per_page < DEFAULT_PER_PAGE { per_page } else { DEFAULT_PER_PAGE };
        PaginatedWithTotal {
            common: Common {
                query: self.common.query,
                page: self.common.page,
                per_page,
                offset: (self.common.page - 1) * per_page,
            },
        }
    }

    /// The page asked for, at least one.
    pub fn page(&self) -> (r: i64)
        ensures
            r == self@.page,
            r >= 1,
    {
        proof {
            use_type_invariant(self);
        }
        self.common.page
    }

    /// The row limit of the page.
    pub fn limit(&self) -> (r: i64)
        ensures
            r == self@.per_page,
    {
        self.common.per_page
    }

    /// The rows skipped before the page.
    pub fn offset(&self) -> (r: i64)
        ensures
            r == self@.offset(),
    {
        proof {
            use_type_invariant(self);
        }
        self.common.offset
    }

    /// The query that is bounded and counted.
    pub fn query(&self) -> (r: &T)
        ensures
            *r == self@.query,
    {
        &self.common.query
    }

    /// The steps that write this query out.
    pub fn walk_ast<'a>(&'a self) -> (plan: Vec<Fragment<'a>>)
        ensures
            plan.deep_view() == counted_plan(self@.per_page, self@.offset()),
    {
        proof {
            use_type_invariant(self);
        }
        let mut plan: Vec<Fragment<'a>> = Vec::new();
        plan.push(Fragment::Sql("SELECT *, COUNT(*) OVER () FROM ("));
        plan.push(Fragment::Inner);
        plan.push(Fragment::Sql(") t LIMIT "));
        plan.push(Fragment::BigInt(&self.common.per_page));
        plan.push(Fragment::Sql(" OFFSET "));
        plan.push(Fragment::BigInt(&self.common.offset));
        assert(plan.deep_view() =~= counted_plan(self@.per_page, self@.offset()));
        plan
    }
}

/// The least whole number that is not below `total / size`.
pub open spec fn ceil_div(total: int, size: int) -> int
    recommends
        size != 0,
{
    if size > 0 {
        -((-total) / size)
    } else {
        -(total / (-size))
    }
}

/// The nearest 64-bit integer.
pub open spec fn saturate(n: int) -> int {
    if n < i64::MIN {
        i64::MIN as int
    } else if n > i64::MAX {
        i64::MAX as int
    } else {
        n
    }
}

/// The number of pages that `total` rows fill at `page_size` rows a page: the quotient, rounded
/// up. Where the page size is zero the quotient is unbounded and the count goes to the end of
/// the range on the side of `total`; no rows make no pages whatever the size.
pub open spec fn spec_total_pages(total: int, page_size: int) -> int {
    if page_size != 0 {
        saturate(ceil_div(total, page_size))
    } else if total > 0 {
        i64::MAX as int
    } else if total < 0 {
        i64::MIN as int
    } else {
        0
    }
}

/// Rounding a quotient up is rounding the quotient of the negated dividend down: above a
/// whole quotient lies one more page exactly when a remainder is left.
proof fn lemma_ceil_by_remainder(a: int, b: int)
    requires
        b > 0,
    ensures
        -((-a) / b) == a / b + if a % b != 0 { 1int } else { 0int },
{
    let q = a / b;
    let r = a % b;
    lemma_fundamental_div_mod(a, b);
    lemma_mod_bound(a, b);
    assert(b * q == q * b) by (nonlinear_arith);
    if r == 0 {
        assert(-a == (-q) * b + 0) by (nonlinear_arith)
            requires
                a == q * b,
        ;
        lemma_fundamental_div_mod_converse(-a, b, -q, 0);
    } else {
        assert(-a == (-q - 1) * b + (b - r)) by (nonlinear_arith)
            requires
                a == q * b + r,
        ;
        lemma_fundamental_div_mod_converse(-a, b, -q - 1, b - r);
    }
}

/// The number of pages that `total` rows fill at `page_size` rows a page.
pub fn total_pages(total: i64, page_size: i64) -> (pages: i64)
    ensures
        pages == spec_total_pages(total as int, page_size as int),
{
    if page_size == 0 {
        if total > 0 {
            i64::MAX
        } else if total < 0 {
            i64::MIN
        } else {
            0
        }
    } else {
        // Divide the magnitudes; the signs say which way the quotient is rounded.
        let rows: i128 = if total < 0 { -(total as i128) } else { total as i128 };
        let size: i128 = if page_size < 0 { -(page_size as i128) } else { page_size as i128 };
        let quotient: i128 = rows / size;
        let remainder: i128 = rows % size;
        proof {
            lemma_fundamental_div_mod(rows as int, size as int);
            lemma_mod_bound(rows as int, size as int);
            lemma_ceil_by_remainder(rows as int, size as int);
            assert(0 <= quotient <= rows) by (nonlinear_arith)
                requires
                    rows == size * quotient + remainder,
                    0 <= remainder < size,
                    rows >= 0,
            ;
        }
        if (total < 0) == (page_size < 0) {
            let pages: i128 = if remainder != 0 { quotient + 1 } else { quotient };
            if pages > i64::MAX as i128 {
                i64::MAX
            } else {
                pages as i64
            }
        } else {
            (-quotient) as i64
        }
    }
}

/// The rows of a counted page without their counts.
pub open spec fn records<U>(rows: Seq<(U, i64)>) -> Seq<U> {
    rows.map_values(|row: (U, i64)| row.0)
}

/// The count that a counted page reports: every row carries the same one, so the first row
/// speaks for all; a page without rows reports none.
pub open spec fn reported_total<U>(rows: Seq<(U, i64)>) -> int {
    if rows.len() == 0 {
        0
    } else {
        rows[0].1 as int
    }
}

/// Takes the counts off the rows of a counted page, keeping the order.
fn strip_totals<U>(rows: Vec<(U, i64)>) -> (data: Vec<U>)
    ensures
        data@ == records(rows@),
{
    let ghost all = rows@;
    let mut data: Vec<U> = Vec::new();
    for row in iter: rows
        invariant
            iter.seq() == all,
            data@ == records(all.take(iter.index() as int)),
    {
        assert(all.take(iter.index() + 1) =~= all.take(iter.index() as int).push(row));
        data.push(row.0);
        assert(data@ =~= records(all.take(iter.index() + 1)));
    }
    assert(all.take(all.len() as int) =~= all);
    data
}

impl<T> PaginatedWithTotal<T> {
    /// Turns what the data source answered to this query into a page with its page count.
    /// `loaded` is that answer: the rows, each beside the count of all rows, or the source's
    /// error, which is handed on as it is.
    pub fn load_and_count_pages<U, E>(self, loaded: Result<Vec<(U, i64)>, E>) -> (r: Result<
        PaginatedResult<U>,
        E,
    >)
        ensures
            match loaded {
                Ok(rows) => r matches Ok(page) && page.data@ == records(rows@) && page.page_size
                    == self@.per_page && page.total_pages == spec_total_pages(
                    reported_total(rows@),
                    self@.per_page,
                ),
                Err(e) => r matches Err(f) && f == e,
            },
    {
        let per_page = self.common.per_page;
        match loaded {
            Ok(results) => {
                let total: i64 = if results.len() > 0 { results[0].1 } else { 0 };
                let records = strip_totals(results);
                Ok(
                    PaginatedResult {
                        data: records,
                        page_size: per_page,
                        total_pages: total_pages(total, per_page),
                    },
                )
            },
            Err(e) => Err(e),
        }
    }
}

/// A request for a page below one is the request for the first page.
pub proof fn lemma_page_below_one_is_first<T>(query: T, page: int)
    requires
        page <= 0,
    ensures
        requested(query, page) == requested(query, 1),
{
}

/// The offset of a page is the number of rows on the pages before it: none before the first
/// page, and never a negative number where the page size is not negative.
pub proof fn lemma_offset_counts_the_pages_before<T>(query: T, page: int, per_page: int)
    requires
        page >= 1,
    ensures
        requested(query, page).offset() == (page - 1) * DEFAULT_PER_PAGE,
        requested(query, page).with_per_page(per_page).offset() == (page - 1) * per_page,
        requested(query, 1).with_per_page(per_page).offset() == 0,
        per_page >= 0 ==> requested(query, page).with_per_page(per_page).offset() >= 0,
{
    assert(per_page >= 0 ==> (page - 1) * per_page >= 0) by (nonlinear_arith)
        requires
            page >= 1,
    ;
    assert((1 - 1) * per_page == 0) by (nonlinear_arith);
}

/// The counting variant never grants more than the default page size, and grants what was
/// asked for up to there.
pub proof fn lemma_counting_size_is_capped(per_page: int)
    ensures
        cap_per_page(per_page) <= DEFAULT_PER_PAGE,
        per_page <= DEFAULT_PER_PAGE ==> cap_per_page(per_page) == per_page,
        per_page > DEFAULT_PER_PAGE ==> cap_per_page(per_page) == DEFAULT_PER_PAGE,
{
}

/// The page count is the quotient of rows by page size, rounded up: the pages hold all rows,
/// one page fewer would not, rows that fill their pages exactly take no page more, and no rows
/// take no page.
pub proof fn lemma_total_pages_is_rounded_up(total: i64, page_size: i64)
    requires
        total >= 0,
        page_size > 0,
    ensures
        spec_total_pages(total as int, page_size as int) >= 0,
        spec_total_pages(total as int, page_size as int) * page_size >= total,
        (spec_total_pages(total as int, page_size as int) - 1) * page_size < total || total == 0,
        total == 0 ==> spec_total_pages(total as int, page_size as int) == 0,
        (total as int) % (page_size as int) == 0 ==> spec_total_pages(total as int, page_size as int)
            * page_size == total,
{
    let t = total as int;
    let s = page_size as int;
    let q = t / s;
    let r = t % s;
    lemma_ceil_by_remainder(t, s);
    lemma_fundamental_div_mod(t, s);
    lemma_mod_bound(t, s);
    let n = if r != 0 {
        q + 1
    } else {
        q
    };
    assert(ceil_div(t, s) == n);
    assert(0 <= q && n <= t) by (nonlinear_arith)
        requires
            t == s * q + r,
            0 <= r < s,
            t >= 0,
            n == if r != 0 {
                q + 1
            } else {
                q
            },
    ;
    assert(n * s >= t && ((n - 1) * s < t || t == 0) && (r == 0 ==> n * s == t))
        by (nonlinear_arith)
        requires
            t == s * q + r,
            0 <= r < s,
            t >= 0,
            n == if r != 0 {
                q + 1
            } else {
                q
            },
    ;
}

} // verus!
