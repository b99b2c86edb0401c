//! The paged scan: one request per page, each page's keys stripped of the
//! prefix and kept, until the store hands out no cursor for a next page.
//!
//! The scanner does no input or output of its own.  It says which request
//! to send next, and takes what the store answered; whoever owns the
//! connection to the store sends the one and brings back the other.

use crate::range::{bound_view, prefix_range, ScanRange, ScanRangeView};
use vstd::prelude::*;
use vstd::slice::{slice_subrange, slice_to_vec};

verus! {

/// A continuation token, as the store handed it out with a page.  The
/// scanner hands it back unread with the request for the next page.
#[derive(Clone, Debug, PartialEq, Eq)]
pub struct PagingCursor {
    pub token: Vec<u8>,
}

/// The token of a cursor, where there is one.
pub open spec fn cursor_view(cursor: Option<PagingCursor>) -> Option<Seq<u8>> {
    match cursor {
        Some(c) => Some(c.token@),
        None => None,
    }
}

/// The keys of a list of rows, each as its bytes.
pub open spec fn rows_view(rows: Seq<Vec<u8>>) -> Seq<Seq<u8>> {
    rows.map_values(|k: Vec<u8>| k@)
}

/// A request for one page: the keys of `range`, from where `cursor` points,
/// or from the start of the range without a cursor.
#[derive(Clone, Debug, PartialEq, Eq)]
pub struct PageRequest {
    pub range: ScanRange,
    pub cursor: Option<PagingCursor>,
}

pub struct PageRequestView {
    pub range: ScanRangeView,
    pub cursor: Option<Seq<u8>>,
}

impl View for PageRequest {
    type V = PageRequestView;

    open spec fn view(&self) -> PageRequestView {
        PageRequestView { range: self.range@, cursor: cursor_view(self.cursor) }
    }
}

/// One page of a store's answer: the keys of its rows, in the order the
/// store gave them, and the cursor for the next page.  A page may hold no
/// rows and still be followed by another; the scan ends with the page that
/// comes without a cursor.
#[derive(Clone, Debug, PartialEq, Eq)]
pub struct Page {
    pub rows: Vec<Vec<u8>>,
    pub next_cursor: Option<PagingCursor>,
}

pub struct PageView {
    pub rows: Seq<Seq<u8>>,
    pub next_cursor: Option<Seq<u8>>,
}

impl View for Page {
    type V = PageView;

    open spec fn view(&self) -> PageView {
        PageView { rows: rows_view(self.rows@), next_cursor: cursor_view(self.next_cursor) }
    }
}

/// What came back for a page request: the page, or the store's word on why
/// there is none.
#[derive(Clone, Debug, PartialEq, Eq)]
pub enum PageOutcome {
    Received(Page),
    Failed(String),
}

pub enum PageOutcomeView {
    Received(PageView),
    Failed(Seq<char>),
}

impl View for PageOutcome {
    type V = PageOutcomeView;

    open spec fn view(&self) -> PageOutcomeView {
        match self {
            PageOutcome::Received(page) => PageOutcomeView::Received(page@),
            PageOutcome::Failed(reason) => PageOutcomeView::Failed(reason@),
        }
    }
}

/// Why a scan gave no result.  `page` counts the pages received before the
/// failing one, from zero.
#[derive(Clone, Debug, PartialEq, Eq)]
pub enum ScanError {
    /// The store failed to answer the request for this page.
    QueryFailed { page: u64, reason: String },
    /// The row at index `row` of this page holds a key shorter than the
    /// prefix, which no key in the requested range is.
    MalformedRow { page: u64, row: usize },
}

pub enum ScanErrorView {
    QueryFailed { page: u64, reason: Seq<char> },
    MalformedRow { page: u64, row: int },
}

impl View for ScanError {
    type V = ScanErrorView;

    open spec fn view(&self) -> ScanErrorView {
        match self {
            ScanError::QueryFailed { page, reason } => ScanErrorView::QueryFailed {
                page: *page,
                reason: reason@,
            },
            ScanError::MalformedRow { page, row } => ScanErrorView::MalformedRow {
                page: *page,
                row: *row as int,
            },
        }
    }
}

/// A scan between two pages.
#[derive(Debug)]
pub struct PrefixScanner {
    prefix: Vec<u8>,
    range: ScanRange,
    cursor: Option<PagingCursor>,
    keys: Vec<Vec<u8>>,
    page: u64,
}

/// A scan between two pages: the prefix asked for, the cursor that the last
/// page came with, the keys kept so far, each without the prefix, and the
/// number of pages received.
pub struct ScannerView {
    pub prefix: Seq<u8>,
    pub cursor: Option<Seq<u8>>,
    pub keys: Seq<Seq<u8>>,
    pub page: u64,
}

/// How a scan goes on after a page request was answered.
#[derive(Debug)]
pub enum ScanStep {
    /// Another page is to be fetched, with the request of this scanner.
    Fetch(PrefixScanner),
    /// The scan is over; these are the keys found, each without the prefix.
    Done(Vec<Vec<u8>>),
    /// The scan is over without a result.
    Failed(ScanError),
}

pub enum ScanStepView {
    Fetch(ScannerView),
    Done(Seq<Seq<u8>>),
    Failed(ScanErrorView),
}

impl View for ScanStep {
    type V = ScanStepView;

    open spec fn view(&self) -> ScanStepView {
        match self {
            ScanStep::Fetch(scanner) => ScanStepView::Fetch(scanner@),
            ScanStep::Done(keys) => ScanStepView::Done(rows_view(keys@)),
            ScanStep::Failed(error) => ScanStepView::Failed(error@),
        }
    }
}

/// The scan for `prefix` before its first page.
pub open spec fn start_spec(prefix: Seq<u8>) -> ScannerView {
    ScannerView { prefix, cursor: None, keys: Seq::empty(), page: 0 }
}

/// The request that a scan sends next.
pub open spec fn request_spec(s: ScannerView) -> PageRequestView {
    PageRequestView { range: prefix_range(s.prefix), cursor: s.cursor }
}

/// Every key of `rows` has at least `n` bytes.
pub open spec fn rows_fit(rows: Seq<Seq<u8>>, n: nat) -> bool {
    forall|i: int| 0 <= i < rows.len() ==> rows[i].len() >= n
}

/// The index of the first key of `rows` with fewer than `n` bytes.
pub open spec fn first_short_row(rows: Seq<Seq<u8>>, n: nat) -> Option<int>
    decreases rows.len(),
{
    if rows.len() == 0 {
        None
    } else {
        match first_short_row(rows.drop_last(), n) {
            Some(i) => Some(i),
            None => if rows.last().len() < n {
                Some(rows.len() - 1)
            } else {
                None
            },
        }
    }
}

/// The keys of `rows`, each without its first `n` bytes.
pub open spec fn strip_rows(rows: Seq<Seq<u8>>, n: nat) -> Seq<Seq<u8>> {
    rows.map_values(|k: Seq<u8>| k.skip(n as int))
}

/// The count of pages after one more, which stops at the greatest number.
pub open spec fn next_page(page: u64) -> u64 {
    if page < u64::MAX {
        (page + 1) as u64
    } else {
        page
    }
}

/// How the scan `s` goes on after the answer `outcome`.
///
/// A failed request ends the scan, and so does a row whose key is shorter
/// than the prefix: nothing of what was kept is handed out.  Otherwise the
/// page's keys, stripped of the prefix, follow those kept so far, in the
/// store's order; the scan is done where the page came without a cursor,
/// and goes on with the page's cursor where it came with one.
pub open spec fn step_spec(s: ScannerView, outcome: PageOutcomeView) -> ScanStepView {
    match outcome {
        PageOutcomeView::Failed(reason) => ScanStepView::Failed(
            ScanErrorView::QueryFailed { page: s.page, reason },
        ),
        PageOutcomeView::Received(page) => match first_short_row(page.rows, s.prefix.len()) {
            Some(row) => ScanStepView::Failed(ScanErrorView::MalformedRow { page: s.page, row }),
            None => {
                let keys = s.keys + strip_rows(page.rows, s.prefix.len());
                match page.next_cursor {
                    None => ScanStepView::Done(keys),
                    Some(token) => ScanStepView::Fetch(
                        ScannerView {
                            prefix: s.prefix,
                            cursor: Some(token),
                            keys,
                            page: next_page(s.page),
                        },
                    ),
                }
            },
        },
    }
}

/// A list of answers, each as what it holds.
pub open spec fn outcomes_view(outcomes: Seq<PageOutcome>) -> Seq<PageOutcomeView> {
    outcomes.map_values(|o: PageOutcome| o@)
}

/// How the scan `s` goes on after the answers `outcomes`, taken in turn.
/// An answer that ends the scan is the last one taken; the scan asks for
/// another page where the answers run out before that.
pub open spec fn run_spec(s: ScannerView, outcomes: Seq<PageOutcomeView>) -> ScanStepView
    decreases outcomes.len(),
{
    if outcomes.len() == 0 {
        ScanStepView::Fetch(s)
    } else {
        match step_spec(s, outcomes.first()) {
            ScanStepView::Fetch(next) => run_spec(next, outcomes.drop_first()),
            over => over,
        }
    }
}

/// The first short row is short, and no row before it is; there is none
/// exactly where every row fits.
pub proof fn lemma_first_short_row(rows: Seq<Seq<u8>>, n: nat)
    ensures
        first_short_row(rows, n) is None <==> rows_fit(rows, n),
        first_short_row(rows, n) matches Some(i) ==> {
            &&& 0 <= i < rows.len()
            &&& rows[i].len() < n
            &&& rows_fit(rows.take(i), n)
        },
    decreases rows.len(),
{
    if rows.len() > 0 {
        let front = rows.drop_last();
        lemma_first_short_row(front, n);
        match first_short_row(front, n) {
            Some(i) => {
                assert(front[i] == rows[i]);
                assert(front.take(i) == rows.take(i));
            },
            None => {
                assert forall|j: int| 0 <= j < rows.len() - 1 implies rows[j].len() >= n by {
                    assert(front[j] == rows[j]);
                }
                assert(rows.take(rows.len() - 1) == front);
            },
        }
    }
}

impl PrefixScanner {
    #[verifier::type_invariant]
    spec fn range_of_prefix(self) -> bool {
        self.range@ == prefix_range(self.prefix@)
    }

    pub closed spec fn view(&self) -> ScannerView {
        ScannerView {
            prefix: self.prefix@,
            cursor: cursor_view(self.cursor),
            keys: rows_view(self.keys@),
            page: self.page,
        }
    }

    /// A scan for the keys with the prefix `prefix`, before its first page.
    /// The range to ask the store for is worked out here, once.
    pub fn start(prefix: &[u8]) -> (scanner: PrefixScanner)
        ensures
            scanner@ == start_spec(prefix@),
    {
        let range = ScanRange::for_prefix(prefix);
        let scanner = PrefixScanner {
            prefix: slice_to_vec(prefix),
            range,
            cursor: None,
            keys: Vec::new(),
            page: 0,
        };
        assert(rows_view(scanner.keys@) == Seq::<Seq<u8>>::empty());
        scanner
    }

    /// The request for the next page: the range of the prefix, and the
    /// cursor of the page before, or none for the first page.
    pub fn request(&self) -> (request: PageRequest)
        ensures
            request@ == request_spec(self@),
    {
        proof {
            use_type_invariant(self);
        }
        let lower = self.range.lower.clone();
        let upper = match &self.range.upper {
            Some(u) => Some(u.clone()),
            None => None,
        };
        let cursor = match &self.cursor {
            Some(c) => Some(PagingCursor { token: c.token.clone() }),
            None => None,
        };
        PageRequest { range: ScanRange { lower, upper }, cursor }
    }

    /// Takes the answer to the request sent last, and says how the scan
    /// goes on.
    #[verifier::loop_isolation(false)]
    pub fn advance(self, outcome: &PageOutcome) -> (step: ScanStep)
        ensures
            step@ == step_spec(self@, outcome@),
    {
        proof {
            use_type_invariant(&self);
        }
        let PrefixScanner { prefix, range, cursor, keys, page } = self;
        let mut keys = keys;
        match outcome {
            PageOutcome::Failed(reason) => ScanStep::Failed(
                ScanError::QueryFailed { page, reason: reason.clone() },
            ),
            PageOutcome::Received(received) => {
                let n: usize = prefix.len();
                let ghost rows = rows_view(received.rows@);
                let ghost kept = rows_view(keys@);
                let mut i: usize = 0;
                assert(rows.take(0) == Seq::<Seq<u8>>::empty());
                assert(strip_rows(rows.take(0), n as nat) == Seq::<Seq<u8>>::empty());
                while i < received.rows.len()
                    invariant
                        i <= received.rows.len(),
                        rows == rows_view(received.rows@),
                        first_short_row(rows.take(i as int), n as nat) is None,
                        rows_view(keys@) == kept + strip_rows(rows.take(i as int), n as nat),
                    decreases received.rows.len() - i,
                {
                    let row = &received.rows[i];
                    let ghost seen = rows.take(i + 1);
                    assert(seen.drop_last() == rows.take(i as int));
                    assert(seen.last() == row@);
                    if row.len() < n {
                        proof {
                            assert(first_short_row(seen, n as nat) == Some(i as int));
                            lemma_first_short_row_extends(rows, (i + 1) as int, n as nat);
                        }
                        return ScanStep::Failed(ScanError::MalformedRow { page, row: i });
                    }
                    let short = slice_to_vec(slice_subrange(row.as_slice(), n, row.len()));
                    assert(short@ == row@.skip(n as int));
                    let ghost before = rows_view(keys@);
                    keys.push(short);
                    assert(first_short_row(seen, n as nat) is None);
                    assert(rows_view(keys@) =~= before.push(short@));
                    assert(strip_rows(seen, n as nat) =~= strip_rows(rows.take(i as int), n as nat).push(
                        short@,
                    ));
                    i = i + 1;
                }
                assert(rows.take(i as int) == rows);
                match &received.next_cursor {
                    None => ScanStep::Done(keys),
                    Some(next) => {
                        let next_page: u64 = if page < u64::MAX {
                            page + 1
                        } else {
                            page
                        };
                        ScanStep::Fetch(
                            PrefixScanner {
                                prefix,
                                range,
                                cursor: Some(PagingCursor { token: next.token.clone() }),
                                keys,
                                page: next_page,
                            },
                        )
                    },
                }
            },
        }
    }

    /// Takes the answers to the request sent last and to those that follow
    /// it, in turn, as far as the scan asks for them.
    #[verifier::loop_isolation(false)]
    pub fn advance_all(self, outcomes: &[PageOutcome]) -> (step: ScanStep)
        ensures
            step@ == run_spec(self@, outcomes_view(outcomes@)),
    {
        let ghost all = outcomes_view(outcomes@);
        let ghost start = self@;
        let mut scanner = self;
        let mut i: usize = 0;
        assert(all.skip(0) == all);
        while i < outcomes.len()
            invariant
                i <= outcomes.len(),
                all == outcomes_view(outcomes@),
                run_spec(start, all) == run_spec(scanner@, all.skip(i as int)),
            decreases outcomes.len() - i,
        {
            assert(all.skip(i as int).first() == outcomes@[i as int]@);
            assert(all.skip(i as int).drop_first() == all.skip(i + 1));
            match scanner.advance(&outcomes[i]) {
                ScanStep::Fetch(next) => {
                    scanner = next;
                },
                over => {
                    return over;
                },
            }
            i = i + 1;
        }
        ScanStep::Fetch(scanner)
    }
}

/// A short row among the first `m` rows is the first short row of them all.
proof fn lemma_first_short_row_extends(rows: Seq<Seq<u8>>, m: int, n: nat)
    requires
        0 <= m <= rows.len(),
        first_short_row(rows.take(m), n) is Some,
    ensures
        first_short_row(rows, n) == first_short_row(rows.take(m), n),
    decreases rows.len() - m,
{
    if m < rows.len() {
        assert(rows.take(m + 1).drop_last() == rows.take(m));
        lemma_first_short_row_extends(rows, m + 1, n);
    } else {
        assert(rows.take(m) == rows);
    }
}

} // verus!
