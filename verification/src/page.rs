//! Pages of a result set.

use vstd::prelude::*;

use crate::error::QueryError;

verus! {

/// Most rows that a page can have.
pub const MAX_LIMIT: usize = 200;

/// Which rows of a result set are wanted.
#[derive(Clone, Copy, Debug)]
pub struct Page {
    /// How many rows, at most.
    pub limit: usize,
    /// How many rows to leave out before the first.
    pub offset: usize,
}

/// Some rows of a result set.
#[derive(Debug)]
pub struct Paged<T> {
    /// The rows.
    pub items: Vec<T>,
    /// How many rows the result set has.
    pub total: usize,
    /// Where the next page starts, if there is one.
    pub next_offset: Option<usize>,
}

/// What a `Paged` holds.
#[verifier::ext_equal]
pub struct PageOf<T> {
    pub items: Seq<T>,
    pub total: nat,
    pub next_offset: Option<int>,
}

impl<T> View for Paged<T> {
    type V = PageOf<T>;

    open spec fn view(&self) -> PageOf<T> {
        PageOf {
            items: self.items@,
            total: self.total as nat,
            next_offset: match self.next_offset {
                Some(n) => Some(n as int),
                None => None,
            },
        }
    }
}

/// The page of `rows` that has at most `limit` rows from `offset` on.
pub open spec fn page_of<T>(rows: Seq<T>, limit: int, offset: int) -> PageOf<T> {
    let start = if offset < rows.len() {
        offset
    } else {
        rows.len() as int
    };
    let end = if start + limit < rows.len() {
        start + limit
    } else {
        rows.len() as int
    };
    PageOf {
        items: rows.subrange(start, end),
        total: rows.len(),
        next_offset: if end < rows.len() {
            Some(end)
        } else {
            None
        },
    }
}

impl Page {
    /// Whether the page size is one that can be asked for.
    pub open spec fn allowed(self) -> bool {
        1 <= self.limit <= MAX_LIMIT
    }

    /// This page of `rows`.
    pub open spec fn of<T>(self, rows: Seq<T>) -> PageOf<T> {
        page_of(rows, self.limit as int, self.offset as int)
    }

    /// This page of `rows`, or the error for a page size out of bounds.
    pub open spec fn result_of<T>(self, rows: Seq<T>) -> Result<PageOf<T>, QueryError<Seq<char>>> {
        if self.allowed() {
            Ok(self.of(rows))
        } else {
            Err(QueryError::Limit)
        }
    }

    /// Takes this page out of `rows`.
    pub fn apply<T>(self, rows: Vec<T>) -> (r: Result<Paged<T>, QueryError<String>>)
        ensures
            match r {
                Ok(page) => self.allowed() && page@ == self.of(rows@) && page.items.len()
                    <= self.limit,
                Err(e) => !self.allowed() && e@ == QueryError::<Seq<char>>::Limit,
            },
    {
        if self.limit < 1 || self.limit > MAX_LIMIT {
            return Err(QueryError::Limit);
        }
        let total = rows.len();
        let mut rows = rows;
        let start = if self.offset < total {
            self.offset
        } else {
            total
        };
        let mut items = rows.split_off(start);
        items.truncate(self.limit);
        let end = start + items.len();
        let next_offset = if end < total {
            Some(end)
        } else {
            None
        };
        Ok(Paged { items, total, next_offset })
    }
}

/// What some rows hold.
pub open spec fn views<R: View>(rows: Seq<R>) -> Seq<R::V> {
    rows.map_values(|row: R| row@)
}

/// A row that is added to others adds what it holds.
pub proof fn lemma_views_push<R: View>(rows: Seq<R>, row: R)
    ensures
        views(rows.push(row)) == views(rows).push(row@),
{
    assert(views(rows.push(row)) =~= views(rows).push(row@));
}

/// What a page and its rows hold.
pub open spec fn page_view<R: View>(page: Paged<R>) -> PageOf<R::V> {
    PageOf { items: views(page.items@), total: page@.total, next_offset: page@.next_offset }
}

/// Whether a page, or an error, is the wanted one.
pub open spec fn page_is<R: View>(
    r: Result<Paged<R>, QueryError<String>>,
    wanted: Result<PageOf<R::V>, QueryError<Seq<char>>>,
) -> bool {
    match (r, wanted) {
        (Ok(page), Ok(w)) => page_view(page) == w,
        (Err(e), Err(w)) => e@ == w,
        _ => false,
    }
}

/// Takes `page` out of `rows`.
pub fn page_rows<R: View>(page: Page, rows: Vec<R>) -> (r: Result<Paged<R>, QueryError<String>>)
    ensures
        page_is(r, page.result_of(views(rows@))),
{
    proof {
        law_page_of_mapped(rows@, |row: R| row@, page.limit as int, page.offset as int);
    }
    page.apply(rows)
}

/// How many rows a page has where none is asked for.
pub fn default_limit() -> (n: usize)
    ensures
        n == 20,
{
    20
}

/// Taking a page and working on its rows gives what taking the page of the
/// worked rows gives.
pub proof fn law_page_of_mapped<A, B>(rows: Seq<A>, f: spec_fn(A) -> B, limit: int, offset: int)
    requires
        0 <= limit,
        0 <= offset,
    ensures
        page_of(rows.map_values(f), limit, offset) == (PageOf {
            items: page_of(rows, limit, offset).items.map_values(f),
            total: page_of(rows, limit, offset).total,
            next_offset: page_of(rows, limit, offset).next_offset,
        }),
{
    assert(page_of(rows.map_values(f), limit, offset).items =~= page_of(
        rows,
        limit,
        offset,
    ).items.map_values(f));
}

/// The rows that a reader sees who starts at `offset` and follows
/// `next_offset` for as long as there is one.
pub open spec fn walk<T>(rows: Seq<T>, limit: int, offset: int) -> Seq<T>
    decreases rows.len() - offset,
    when 1 <= limit && 0 <= offset
{
    let page = page_of(rows, limit, offset);
    match page.next_offset {
        Some(next) => page.items + walk(rows, limit, next),
        None => page.items,
    }
}

proof fn lemma_walk_from<T>(rows: Seq<T>, limit: int, offset: int)
    requires
        1 <= limit,
        0 <= offset <= rows.len(),
    ensures
        walk(rows, limit, offset) == rows.skip(offset),
    decreases rows.len() - offset,
{
    let page = page_of(rows, limit, offset);
    match page.next_offset {
        Some(next) => {
            lemma_walk_from(rows, limit, next);
            assert(page.items + rows.skip(next) =~= rows.skip(offset));
        },
        None => {
            assert(page.items =~= rows.skip(offset));
        },
    }
}

/// Following `next_offset` from the start shows every row of the result set
/// once, in order.
pub proof fn law_pages_cover<T>(rows: Seq<T>, limit: int)
    requires
        1 <= limit,
    ensures
        walk(rows, limit, 0) == rows,
{
    lemma_walk_from(rows, limit, 0);
    assert(rows.skip(0) =~= rows);
}

/// A page beyond the last row is empty and has no successor; another one has
/// rows, and a successor exactly if rows remain.
pub proof fn law_page_end<T>(rows: Seq<T>, limit: int, offset: int)
    requires
        1 <= limit,
        0 <= offset,
    ensures
        offset >= rows.len() ==> page_of(rows, limit, offset).items.len() == 0 && page_of(
            rows,
            limit,
            offset,
        ).next_offset is None,
        offset < rows.len() ==> page_of(rows, limit, offset).items.len() >= 1 && (page_of(
            rows,
            limit,
            offset,
        ).next_offset is Some <==> offset + limit < rows.len()),
{
}

/// Whether `shown` is the page of `rows` that `page` asks for: from the offset
/// on, as many rows as there are and no more than the limit; the number of all
/// rows; and the offset of the row behind the last one shown, if there is one.
pub open spec fn shows<T>(shown: PageOf<T>, rows: Seq<T>, page: Page) -> bool {
    &&& shown.total == rows.len()
    &&& page.offset >= rows.len() ==> shown.items.len() == 0
    &&& page.offset < rows.len() && page.offset + page.limit < rows.len() ==> shown.items.len()
        == page.limit
    &&& page.offset < rows.len() <= page.offset + page.limit ==> shown.items.len() == rows.len()
        - page.offset
    &&& forall|i: int|
        0 <= i < shown.items.len() ==> #[trigger] shown.items[i] == rows[page.offset + i]
    &&& shown.next_offset == if page.offset + page.limit < rows.len() {
        Some(page.offset + page.limit)
    } else {
        None
    }
}

/// A page can be asked for exactly if it has from 1 to 200 rows, and then shows
/// the rows from its offset on.
pub proof fn law_page_shows<T>(page: Page, rows: Seq<T>)
    ensures
        match page.result_of(rows) {
            Ok(shown) => 1 <= page.limit <= 200 && shows(shown, rows, page),
            Err(e) => !(1 <= page.limit <= 200) && e == QueryError::<Seq<char>>::Limit,
        },
{
}

/// The rows that a reader sees who asks for pages of `limit` rows, from `offset`
/// on, and follows `next_offset` for as long as there is one.
pub open spec fn read_on<T>(ask: spec_fn(Page) -> Option<PageOf<T>>, limit: usize, offset: usize)
    -> Seq<T>
    decreases usize::MAX - offset,
{
    match ask(Page { limit, offset }) {
        None => Seq::empty(),
        Some(shown) => match shown.next_offset {
            Some(next) => if offset < next <= usize::MAX {
                shown.items + read_on(ask, limit, next as usize)
            } else {
                shown.items
            },
            None => shown.items,
        },
    }
}

/// Where every page is shown as it was asked for, a reader who follows
/// `next_offset` sees every row from the offset on, each once, and then stops.
pub proof fn law_read_on<T>(
    ask: spec_fn(Page) -> Option<PageOf<T>>,
    rows: Seq<T>,
    limit: usize,
    offset: usize,
)
    requires
        1 <= limit,
        offset <= rows.len() <= usize::MAX,
        forall|page: Page|
            page.limit == limit ==> (#[trigger] ask(page) matches Some(shown) && shows(
                shown,
                rows,
                page,
            )),
    ensures
        read_on(ask, limit, offset) == rows.skip(offset as int),
    decreases usize::MAX - offset,
{
    let page = Page { limit, offset };
    let shown = ask(page)->0;
    assert(shows(shown, rows, page));
    if offset + limit < rows.len() {
        law_read_on(ask, rows, limit, (offset + limit) as usize);
        assert(shown.items + rows.skip(offset + limit) =~= rows.skip(offset as int));
    } else {
        assert(shown.items =~= rows.skip(offset as int));
    }
}

/// What a page holds is what its rows hold, one by one, and its own numbers.
pub proof fn law_page_views<R: View>(page: Paged<R>)
    ensures
        page@.items == page.items@,
        page@.total == page.total,
        page_view(page).total == page.total,
        page_view(page).items.len() == page.items@.len(),
        forall|i: int|
            0 <= i < page.items@.len() ==> #[trigger] page_view(page).items[i] == page.items@[i]@,
        match page.next_offset {
            Some(n) => page@.next_offset == Some(n as int) && page_view(page).next_offset == Some(
                n as int,
            ),
            None => page@.next_offset is None && page_view(page).next_offset is None,
        },
{
}

/// A page is the wanted one exactly if its rows, its total and its successor
/// are; an error exactly if it is the wanted error.
pub proof fn law_page_is<R: View>(
    r: Result<Paged<R>, QueryError<String>>,
    wanted: Result<PageOf<R::V>, QueryError<Seq<char>>>,
)
    ensures
        page_is(r, wanted) <==> match (r, wanted) {
            (Ok(page), Ok(w)) => {
                &&& page.items@.len() == w.items.len()
                &&& forall|i: int|
                    0 <= i < w.items.len() ==> (#[trigger] page.items@[i])@ == w.items[i]
                &&& page.total == w.total
                &&& w.next_offset == match page.next_offset {
                    Some(n) => Some(n as int),
                    None => None,
                }
            },
            (Err(e), Err(w)) => e@ == w,
            _ => false,
        },
{
    if let (Ok(page), Ok(w)) = (r, wanted) {
        if page.items@.len() == w.items.len() && forall|i: int|
            0 <= i < w.items.len() ==> (#[trigger] page.items@[i])@ == w.items[i] {
            assert(page_view(page).items =~= w.items);
        }
        if page_view(page) == w {
            assert forall|i: int| 0 <= i < w.items.len() implies (#[trigger] page.items@[i])@
                == w.items[i] by {
                assert(page_view(page).items[i] == page.items@[i]@);
            }
        }
    }
}

/// The rows of a list hold what they hold one by one.
pub proof fn law_views<R: View>(rows: Seq<R>)
    ensures
        views(rows).len() == rows.len(),
        forall|i: int| 0 <= i < rows.len() ==> #[trigger] views(rows)[i] == rows[i]@,
{
}

} // verus!
