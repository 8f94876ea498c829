use crate::cursor::{cursor_after, key_lt, start_cursor, strictly_descending, Cursor, SortKey};
use crate::pagination::{
    lemma_total_pages_is_rounded_up, records, reported_total, spec_total_pages, PageSpec, Paginated,
    PaginatedWithTotal,
};
use vstd::prelude::*;

verus! {

// A source that holds its rows in memory, in the order of the query. It answers the requests
// that the descriptors and cursors of this library stand for, and is what their laws are
// stated over.

/// Why a source turns a request down.
#[derive(Debug, Clone, Copy, PartialEq, Eq)]
pub enum SourceError {
    /// The row limit was below zero.
    NegativeLimit,
    /// The offset was below zero.
    NegativeOffset,
}

/// Whether `got` is the answer `expected`: the same refusal, or rows of the same content.
pub open spec fn is_answer<R>(
    got: Result<Vec<R>, SourceError>,
    expected: Result<Seq<R>, SourceError>,
) -> bool {
    match expected {
        Ok(page) => got matches Ok(v) && v@ == page,
        Err(e) => got matches Err(f) && f == e,
    }
}

/// The rows that a limit and an offset leave of `rows`: those from position `offset` on, `limit`
/// of them at most, and none where `offset` lies past the end.
pub open spec fn window<R>(rows: Seq<R>, limit: int, offset: int) -> Seq<R>
    recommends
        limit >= 0,
        offset >= 0,
{
    let start = if offset < rows.len() {
        offset
    } else {
        rows.len() as int
    };
    let end = if offset + limit < rows.len() {
        offset + limit
    } else {
        rows.len() as int
    };
    rows.subrange(start, end)
}

/// What a source answers to a request for `limit` rows from `offset` on.
pub open spec fn bounded<R>(rows: Seq<R>, limit: int, offset: int) -> Result<Seq<R>, SourceError> {
    if limit < 0 {
        Err(SourceError::NegativeLimit)
    } else if offset < 0 {
        Err(SourceError::NegativeOffset)
    } else {
        Ok(window(rows, limit, offset))
    }
}

/// The rows of a window, each beside the number of all rows.
pub open spec fn counted<R>(rows: Seq<R>, limit: int, offset: int) -> Seq<(R, i64)> {
    window(rows, limit, offset).map_values(|row: R| (row, rows.len() as i64))
}

/// What a source answers to a counting request for `limit` rows from `offset` on.
pub open spec fn bounded_counted<R>(rows: Seq<R>, limit: int, offset: int) -> Result<
    Seq<(R, i64)>,
    SourceError,
> {
    if limit < 0 {
        Err(SourceError::NegativeLimit)
    } else if offset < 0 {
        Err(SourceError::NegativeOffset)
    } else {
        Ok(counted(rows, limit, offset))
    }
}

/// The predicate of `cursor` as a function of the row.
pub open spec fn admitted_by(cursor: Cursor) -> spec_fn(SortKey) -> bool {
    |row: SortKey| cursor.spec_admits(row)
}

/// The rows that a keyset request leaves of `rows`: those that the cursor admits, in the order
/// they stand in, `limit` of them at most.
pub open spec fn keyset_window(rows: Seq<SortKey>, cursor: Cursor, limit: int) -> Seq<SortKey>
    recommends
        limit >= 0,
{
    let admitted = rows.filter(admitted_by(cursor));
    if limit < admitted.len() {
        admitted.take(limit)
    } else {
        admitted
    }
}

/// What a source answers to a keyset request for `limit` rows behind `cursor`.
pub open spec fn bounded_keyset(rows: Seq<SortKey>, cursor: Cursor, limit: int) -> Result<
    Seq<SortKey>,
    SourceError,
> {
    if limit < 0 {
        Err(SourceError::NegativeLimit)
    } else {
        Ok(keyset_window(rows, cursor, limit))
    }
}

/// Answers a request for `limit` rows from `offset` on out of `rows`, which stand in the order
/// of the query.
pub fn limit_offset<R: Copy>(rows: &[R], limit: i64, offset: i64) -> (r: Result<
    Vec<R>,
    SourceError,
>)
    ensures
        is_answer(r, bounded(rows@, limit as int, offset as int)),
        r matches Ok(v) ==> v@.len() <= limit,
{
    if limit < 0 {
        return Err(SourceError::NegativeLimit);
    }
    if offset < 0 {
        return Err(SourceError::NegativeOffset);
    }
    let len = rows.len();
    let start: usize = if (offset as u64) < (len as u64) {
        offset as usize
    } else {
        len
    };
    let room: usize = len - start;
    let end: usize = if (limit as u64) < (room as u64) {
        start + limit as usize
    } else {
        len
    };
    let mut page: Vec<R> = Vec::new();
    let mut i: usize = start;
    while i < end
        invariant
            start <= i <= end <= len,
            len == rows@.len(),
            page@ == rows@.subrange(start as int, i as int),
        decreases end - i,
    {
        page.push(rows[i]);
        i += 1;
    }
    Ok(page)
}

/// Answers a counting request for `limit` rows from `offset` on out of `rows`.
pub fn limit_offset_counted<R: Copy>(rows: &[R], limit: i64, offset: i64) -> (r: Result<
    Vec<(R, i64)>,
    SourceError,
>)
    requires
        rows@.len() <= i64::MAX,
    ensures
        is_answer(r, bounded_counted(rows@, limit as int, offset as int)),
        r matches Ok(v) ==> v@.len() <= limit,
{
    let total: i64 = rows.len() as i64;
    match limit_offset(rows, limit, offset) {
        Ok(page) => {
            let mut pairs: Vec<(R, i64)> = Vec::new();
            let mut i: usize = 0;
            while i < page.len()
                invariant
                    i <= page@.len(),
                    pairs@.len() == i,
                    forall|j: int| 0 <= j < i ==> pairs@[j] == (#[trigger] page@[j], total),
                decreases page@.len() - i,
            {
                pairs.push((page[i], total));
                i += 1;
            }
            assert(pairs@ =~= counted(rows@, limit as int, offset as int));
            Ok(pairs)
        },
        Err(e) => Err(e),
    }
}

/// Answers a keyset request for `limit` rows behind `cursor` out of `rows`, which stand in the
/// order of the query.
pub fn keyset_page(rows: &[SortKey], cursor: &Cursor, limit: i64) -> (r: Result<
    Vec<SortKey>,
    SourceError,
>)
    ensures
        is_answer(r, bounded_keyset(rows@, *cursor, limit as int)),
        r matches Ok(v) ==> v@.len() <= limit,
{
    if limit < 0 {
        return Err(SourceError::NegativeLimit);
    }
    let ghost admits = admitted_by(*cursor);
    let mut page: Vec<SortKey> = Vec::new();
    let mut i: usize = 0;
    while i < rows.len() && (page.len() as u64) < (limit as u64)
        invariant
            0 <= limit,
            i <= rows@.len(),
            admits == admitted_by(*cursor),
            page@ == rows@.take(i as int).filter(admits),
            page@.len() <= limit,
        decreases rows@.len() - i,
    {
        proof {
            reveal(Seq::filter);
            assert(rows@.take(i + 1).drop_last() =~= rows@.take(i as int));
        }
        if cursor.admits(&rows[i]) {
            page.push(rows[i]);
        }
        i += 1;
    }
    proof {
        let seen = rows@.take(i as int);
        let rest = rows@.skip(i as int);
        assert(rows@ =~= seen + rest);
        Seq::filter_distributes_over_add(seen, rest, admits);
        if i == rows@.len() {
            assert(rest.len() == 0);
            reveal(Seq::filter);
        }
        assert(page@ =~= keyset_window(rows@, *cursor, limit as int));
    }
    Ok(page)
}

impl<'a, R: Copy> Paginated<&'a [R]> {
    /// The page of the rows that this descriptor bounds.
    pub fn load(&self) -> (r: Result<Vec<R>, SourceError>)
        ensures
            is_answer(r, bounded(self@.query@, self@.per_page, self@.offset())),
            r matches Ok(v) ==> v@.len() <= self@.per_page,
    {
        limit_offset(*self.query(), self.limit(), self.offset())
    }
}

impl<'a, R: Copy> PaginatedWithTotal<&'a [R]> {
    /// The page of the rows that this descriptor bounds, each row beside the count of all.
    pub fn load(&self) -> (r: Result<Vec<(R, i64)>, SourceError>)
        requires
            self@.query@.len() <= i64::MAX,
        ensures
            is_answer(r, bounded_counted(self@.query@, self@.per_page, self@.offset())),
            r matches Ok(v) ==> v@.len() <= self@.per_page,
    {
        limit_offset_counted(*self.query(), self.limit(), self.offset())
    }
}

/// A window holds the rows that are left from the offset on, up to the limit: a full page
/// where enough rows are left, the remainder on the last page, and nothing past the end. Its
/// rows are those of the source, in their order.
pub proof fn lemma_window_len<R>(rows: Seq<R>, limit: int, offset: int)
    requires
        limit >= 0,
        offset >= 0,
    ensures
        window(rows, limit, offset).len() <= limit,
        window(rows, limit, offset).len() == if offset >= rows.len() {
            0
        } else if rows.len() - offset < limit {
            rows.len() - offset
        } else {
            limit
        },
        forall|i: int|
            0 <= i < window(rows, limit, offset).len() ==> #[trigger] window(rows, limit, offset)[i]
                == rows[offset + i],
{
}

/// Windows that follow one another join to one window: the rows from an offset on, and the
/// rows right behind them, are the rows from that offset on up to the sum of the two limits.
pub proof fn lemma_windows_join<R>(rows: Seq<R>, first_limit: int, second_limit: int, offset: int)
    requires
        first_limit >= 0,
        second_limit >= 0,
        offset >= 0,
    ensures
        window(rows, first_limit, offset) + window(rows, second_limit, offset + first_limit)
            == window(rows, first_limit + second_limit, offset),
{
    assert(window(rows, first_limit, offset) + window(rows, second_limit, offset + first_limit)
        =~= window(rows, first_limit + second_limit, offset));
}

/// Loading is repeatable: two answers to one request on the same rows are the same refusal or
/// hold the same rows.
pub proof fn lemma_load_is_repeatable<R>(
    request: PageSpec<&[R]>,
    first: Result<Vec<R>, SourceError>,
    second: Result<Vec<R>, SourceError>,
)
    requires
        is_answer(first, bounded(request.query@, request.per_page, request.offset())),
        is_answer(second, bounded(request.query@, request.per_page, request.offset())),
    ensures
        match first {
            Ok(page) => second matches Ok(again) && again@ == page@,
            Err(e) => second matches Err(f) && f == e,
        },
{
}

/// A page of the rows holds something exactly when its number is within the page count of the
/// rows: the walk over the pages one, two, three and so on meets its first page without rows
/// right behind the last page that the count announces.
pub proof fn lemma_page_holds_rows_within_total<R>(rows: Seq<R>, page: i64, per_page: i64)
    requires
        page >= 1,
        per_page > 0,
        rows.len() <= i64::MAX,
    ensures
        window(rows, per_page as int, (page - 1) * per_page).len() > 0 <==> page
            <= spec_total_pages(rows.len() as int, per_page as int),
{
    let n = rows.len() as int;
    let k = per_page as int;
    let p = page as int;
    let t = spec_total_pages(n, k);
    lemma_total_pages_is_rounded_up(rows.len() as i64, per_page);
    assert((p - 1) * k >= 0) by (nonlinear_arith)
        requires
            p >= 1,
            k > 0,
    ;
    lemma_window_len(rows, k, (p - 1) * k);
    assert(((p - 1) * k < n) <==> p <= t) by (nonlinear_arith)
        requires
            p >= 1,
            k > 0,
            n >= 0,
            t >= 0,
            t * k >= n,
            (t - 1) * k < n || n == 0,
            n == 0 ==> t == 0,
    ;
}

/// A counted page holds the rows of the plain page, every one of them beside the number of
/// all rows, and so reports that number unless it holds no row.
pub proof fn lemma_counted_page_reports_all_rows<R>(rows: Seq<R>, limit: int, offset: int)
    requires
        limit >= 0,
        offset >= 0,
        rows.len() <= i64::MAX,
    ensures
        records(counted(rows, limit, offset)) == window(rows, limit, offset),
        forall|i: int|
            0 <= i < counted(rows, limit, offset).len() ==> (#[trigger] counted(
                rows,
                limit,
                offset,
            )[i]).1 == rows.len(),
        reported_total(counted(rows, limit, offset)) == if window(rows, limit, offset).len() == 0 {
            0
        } else {
            rows.len() as int
        },
{
    assert(records(counted(rows, limit, offset)) =~= window(rows, limit, offset));
}

/// Where the rows that a predicate turns down all stand before the rows that it lets through,
/// filtering leaves the rows from the first admitted one on.
proof fn lemma_filter_keeps_suffix(rows: Seq<SortKey>, admits: spec_fn(SortKey) -> bool, k: int)
    requires
        0 <= k <= rows.len(),
        forall|j: int| 0 <= j < k ==> !admits(#[trigger] rows[j]),
        forall|j: int| k <= j < rows.len() ==> admits(#[trigger] rows[j]),
    ensures
        rows.filter(admits) == rows.skip(k),
    decreases rows.len(),
{
    reveal(Seq::filter);
    if rows.len() == 0 {
        assert(rows.skip(k) =~= rows);
    } else {
        let front = rows.drop_last();
        assert(forall|j: int| 0 <= j < front.len() ==> front[j] == rows[j]);
        if k == rows.len() {
            lemma_filter_keeps_suffix(front, admits, k - 1);
            assert(!admits(rows[k - 1]));
            assert(rows.skip(k) =~= front.skip(k - 1));
        } else {
            lemma_filter_keeps_suffix(front, admits, k);
            assert(admits(rows[rows.len() - 1]));
            assert(rows.skip(k) =~= front.skip(k).push(rows.last()));
        }
    }
}

/// The first keyset page is the first offset page: the cursor of a walk that has seen nothing
/// admits every row.
pub proof fn lemma_first_keyset_page_is_first_window(rows: Seq<SortKey>, limit: int)
    requires
        limit >= 0,
    ensures
        keyset_window(rows, start_cursor(), limit) == window(rows, limit, 0),
{
    lemma_filter_keeps_suffix(rows, admitted_by(start_cursor()), 0);
    assert(rows.skip(0) =~= rows);
    assert(keyset_window(rows, start_cursor(), limit) =~= window(rows, limit, 0));
}

/// Over rows in strictly descending order, the keyset page behind a row is the offset page
/// that starts right behind it.
pub proof fn lemma_keyset_page_is_window_behind_row(rows: Seq<SortKey>, i: int, limit: int)
    requires
        strictly_descending(rows),
        0 <= i < rows.len(),
        limit >= 0,
    ensures
        keyset_window(rows, cursor_after(rows[i]), limit) == window(rows, limit, i + 1),
{
    let cursor = cursor_after(rows[i]);
    let admits = admitted_by(cursor);
    assert(cursor.key() == rows[i]);
    assert forall|j: int| 0 <= j < i + 1 implies !admits(#[trigger] rows[j]) by {
        if j < i {
            assert(key_lt(rows[i], rows[j]));
        }
    }
    assert forall|j: int| i + 1 <= j < rows.len() implies admits(#[trigger] rows[j]) by {
        assert(key_lt(rows[j], rows[i]));
    }
    lemma_filter_keeps_suffix(rows, admits, i + 1);
    assert(keyset_window(rows, cursor, limit) =~= window(rows, limit, i + 1));
}

/// Two keyset pages in a row are one offset page: over rows in strictly descending order, the
/// first keyset page and the page behind its last row, put together, are the rows that an
/// offset of zero and the sum of the two limits leave, and as well those that an offset of
/// zero and the sum of the two pages' sizes leave.
pub proof fn lemma_keyset_pages_join_to_offset_page(
    rows: Seq<SortKey>,
    first_limit: int,
    second_limit: int,
)
    requires
        strictly_descending(rows),
        first_limit >= 0,
        second_limit >= 0,
        keyset_window(rows, start_cursor(), first_limit).len() > 0,
    ensures
        keyset_window(rows, start_cursor(), first_limit) + keyset_window(
            rows,
            cursor_after(keyset_window(rows, start_cursor(), first_limit).last()),
            second_limit,
        ) == window(rows, first_limit + second_limit, 0),
        keyset_window(rows, start_cursor(), first_limit) + keyset_window(
            rows,
            cursor_after(keyset_window(rows, start_cursor(), first_limit).last()),
            second_limit,
        ) == window(
            rows,
            (keyset_window(rows, start_cursor(), first_limit).len() + keyset_window(
                rows,
                cursor_after(keyset_window(rows, start_cursor(), first_limit).last()),
                second_limit,
            ).len()) as int,
            0,
        ),
{
    let first = keyset_window(rows, start_cursor(), first_limit);
    lemma_first_keyset_page_is_first_window(rows, first_limit);
    lemma_window_len(rows, first_limit, 0);
    let last = first.len() - 1;
    assert(first.last() == rows[last]);
    lemma_keyset_page_is_window_behind_row(rows, last, second_limit);
    let second = window(rows, second_limit, last + 1);
    lemma_window_len(rows, second_limit, last + 1);
    assert(first + second =~= window(rows, first_limit + second_limit, 0));
    assert(first + second =~= window(rows, (first.len() + second.len()) as int, 0));
}

} // verus!
