use crate::fragment::{Fragment, FragmentView};
use vstd::prelude::*;

verus! {

/// The columns that a keyset page of books joined with their pages is ordered by, the most
/// significant first: the number of the page, the id of the book, the id of the page.
#[derive(Debug, Clone, Copy, PartialEq, Eq)]
pub struct SortKey {
    pub page_number: i32,
    pub book_id: i32,
    pub page_id: i32,
}

/// Row comparison as SQL defines it: the columns are compared from the left, and the first
/// pair that differs decides.
pub open spec fn key_lt(a: SortKey, b: SortKey) -> bool {
    a.page_number < b.page_number || (a.page_number == b.page_number && (a.book_id < b.book_id
        || (a.book_id == b.book_id && a.page_id < b.page_id)))
}

/// The same order written as the chain of alternatives that keyset pagination is usually
/// spelled with: one alternative for each column, under the equality of the columns before it.
pub open spec fn key_lt_unrolled(a: SortKey, b: SortKey) -> bool {
    ||| a.page_number < b.page_number
    ||| (a.page_number == b.page_number && a.book_id < b.book_id)
    ||| (a.page_number == b.page_number && a.book_id == b.book_id && a.page_id < b.page_id)
}

/// Whether `rows` stand in strictly descending order, as a query ordered by all three columns
/// downwards yields them when no two rows share a key.
pub open spec fn strictly_descending(rows: Seq<SortKey>) -> bool {
    forall|i: int, j: int| 0 <= i < j < rows.len() ==> key_lt(#[trigger] rows[j], #[trigger] rows[i])
}

impl SortKey {
    /// Whether this key comes below `other` as rows compare.
    pub fn below(&self, other: &SortKey) -> (r: bool)
        ensures
            r == key_lt(*self, *other),
    {
        self.page_number < other.page_number || (self.page_number == other.page_number
            && (self.book_id < other.book_id || (self.book_id == other.book_id
            && self.page_id < other.page_id)))
    }
}

/// Whether `rows` stand in strictly descending order.
pub fn is_strictly_descending(rows: &[SortKey]) -> (r: bool)
    ensures
        r == strictly_descending(rows@),
{
    let mut i: usize = 1;
    while i < rows.len()
        invariant
            1 <= i,
            forall|a: int, b: int|
                0 <= a < b < i && b < rows@.len() ==> key_lt(#[trigger] rows@[b], #[trigger] rows@[a]),
        decreases rows@.len() - i,
    {
        if !rows[i].below(&rows[i - 1]) {
            return false;
        }
        assert forall|a: int, b: int| 0 <= a < b < i + 1 && b < rows@.len() implies key_lt(
            #[trigger] rows@[b],
            #[trigger] rows@[a],
        ) by {
            if b == i && a < i - 1 {
                assert(key_lt(rows@[i - 1], rows@[a]));
            }
        }
        i += 1;
    }
    true
}

/// Where a keyset walk stands: the key of the last row seen, or the mark of a walk that has
/// seen none yet. The cursor is a plain value that the caller carries from one request to the
/// next. A keyset walk skips no rows by counting, so it cannot tell how many pages are left:
/// the number of pages takes a count of its own.
#[derive(Debug, Clone, Copy, PartialEq, Eq)]
pub struct Cursor {
    pub book_id: i32,
    pub page_id: i32,
    pub page_number: i32,
    pub first: bool,
}

impl Default for Cursor {
    fn default() -> (r: Cursor)
        ensures
            r == (Cursor { book_id: 0, page_id: 0, page_number: 0, first: false }),
    {
        Cursor { book_id: 0, page_id: 0, page_number: 0, first: false }
    }
}

/// The cursor of a walk that has seen no row.
pub open spec fn start_cursor() -> Cursor {
    Cursor { book_id: 0, page_id: 0, page_number: 0, first: true }
}

/// The cursor of a walk whose last row was `row`.
pub open spec fn cursor_after(row: SortKey) -> Cursor {
    Cursor { book_id: row.book_id, page_id: row.page_id, page_number: row.page_number, first: false }
}

/// The steps that write the predicate of a cursor: the row of ordering columns below the row of
/// the cursor's values, or the mark of the first request.
pub open spec fn filter_plan(cursor: Cursor) -> Seq<FragmentView> {
    seq![
        FragmentView::Sql("((pages.page_number, books.id, pages.id) < ("@),
        FragmentView::Integer(cursor.page_number as int),
        FragmentView::Sql(", "@),
        FragmentView::Integer(cursor.book_id as int),
        FragmentView::Sql(", "@),
        FragmentView::Integer(cursor.page_id as int),
        FragmentView::Sql(") or "@),
        FragmentView::Bool(cursor.first),
        FragmentView::Sql(")"@),
    ]
}

impl Cursor {
    /// The key that the cursor holds.
    pub open spec fn key(self) -> SortKey {
        SortKey { page_number: self.page_number, book_id: self.book_id, page_id: self.page_id }
    }

    /// Whether the cursor's predicate holds of `row`: every row on the first request, after
    /// that the rows that come strictly behind the cursor's key in descending order.
    pub open spec fn spec_admits(self, row: SortKey) -> bool {
        self.first || key_lt(row, self.key())
    }

    /// The cursor to begin a walk with.
    pub fn start() -> (r: Cursor)
        ensures
            r == start_cursor(),
    {
        Cursor { book_id: 0, page_id: 0, page_number: 0, first: true }
    }

    /// The cursor to go on with after a page: it stands at the page's last row. A page without
    /// rows ends the walk, and there is no cursor to go on with.
    pub fn next(page: &Vec<SortKey>) -> (r: Option<Cursor>)
        ensures
            r == if page@.len() == 0 {
                None
            } else {
                Some(cursor_after(page@.last()))
            },
    {
        if page.len() == 0 {
            None
        } else {
            let last = &page[page.len() - 1];
            let mut next_cursor = Cursor::default();
            next_cursor.book_id = last.book_id;
            next_cursor.page_id = last.page_id;
            next_cursor.page_number = last.page_number;
            next_cursor.first = false;
            Some(next_cursor)
        }
    }

    /// Whether the cursor's predicate holds of `row`.
    pub fn admits(&self, row: &SortKey) -> (r: bool)
        ensures
            r == self.spec_admits(*row),
    {
        self.first || row.below(
            &SortKey {
                page_number: self.page_number,
                book_id: self.book_id,
                page_id: self.page_id,
            },
        )
    }

    /// The steps that write the cursor's predicate out.
    pub fn filter<'a>(&'a self) -> (plan: Vec<Fragment<'a>>)
        ensures
            plan.deep_view() == filter_plan(*self),
    {
        let mut plan: Vec<Fragment<'a>> = Vec::new();
        plan.push(Fragment::Sql("((pages.page_number, books.id, pages.id) < ("));
        plan.push(Fragment::Integer(&self.page_number));
        plan.push(Fragment::Sql(", "));
        plan.push(Fragment::Integer(&self.book_id));
        plan.push(Fragment::Sql(", "));
        plan.push(Fragment::Integer(&self.page_id));
        plan.push(Fragment::Sql(") or "));
        plan.push(Fragment::Bool(&self.first));
        plan.push(Fragment::Sql(")"));
        assert(plan.deep_view() =~= filter_plan(*self));
        plan
    }
}

/// The row comparison and the unrolled chain of alternatives are one order.
pub proof fn lemma_row_comparison_is_unrolled_chain(a: SortKey, b: SortKey)
    ensures
        key_lt(a, b) == key_lt_unrolled(a, b),
{
}

/// No key comes before itself.
pub proof fn lemma_key_lt_irreflexive(a: SortKey)
    ensures
        !key_lt(a, a),
{
}

/// What comes before a key that comes before a third comes before the third.
pub proof fn lemma_key_lt_transitive(a: SortKey, b: SortKey, c: SortKey)
    requires
        key_lt(a, b),
        key_lt(b, c),
    ensures
        key_lt(a, c),
{
}

/// Of two keys one comes before the other, or they are the same key.
pub proof fn lemma_key_lt_total(a: SortKey, b: SortKey)
    ensures
        key_lt(a, b) || key_lt(b, a) || a == b,
{
}

} // verus!
