//! What a scan returns where the store answers as it should.
//!
//! A table is a set of keys: the store holds each key once.  Asked for a
//! range, the store gives the keys of the table that lie in it, each once,
//! in an order and on as many pages as it likes.  Everything here is stated
//! over `run_spec`, which is what `PrefixScanner::advance_all` computes, and
//! so holds of every loop that hands the scanner one answer after another.

use crate::order::has_prefix;
use crate::range::{lemma_in_range_prefixed, lemma_prefixed_in_range, prefix_range, ScanRangeView};
use crate::scan::{
    first_short_row, lemma_first_short_row, rows_fit, run_spec, start_spec, step_spec, strip_rows,
    PageOutcomeView, PageView, ScanErrorView, ScanStepView, ScannerView,
};
use vstd::prelude::*;

verus! {

/// The pages, each as the answer to a request that did not fail.
pub open spec fn received(pages: Seq<PageView>) -> Seq<PageOutcomeView> {
    pages.map_values(|p: PageView| PageOutcomeView::Received(p))
}

/// The rows of all the pages, in the order in which they came.
pub open spec fn all_rows(pages: Seq<PageView>) -> Seq<Seq<u8>>
    decreases pages.len(),
{
    if pages.len() == 0 {
        Seq::empty()
    } else {
        pages.first().rows + all_rows(pages.drop_first())
    }
}

/// The pages of one whole answer: each page but the last comes with a
/// cursor, and the last comes without.
pub open spec fn well_paged(pages: Seq<PageView>) -> bool {
    &&& pages.len() > 0
    &&& pages.last().next_cursor is None
    &&& forall|i: int| 0 <= i < pages.len() - 1 ==> (#[trigger] pages[i]).next_cursor is Some
}

/// The pages are a whole answer to a request for the keys of `table` in
/// `range`: together they hold those keys, each once, and nothing else.
pub open spec fn answers(pages: Seq<PageView>, table: Set<Seq<u8>>, range: ScanRangeView) -> bool {
    &&& well_paged(pages)
    &&& all_rows(pages).no_duplicates()
    &&& forall|k: Seq<u8>|
        #![trigger all_rows(pages).contains(k)]
        #![trigger table.contains(k)]
        all_rows(pages).contains(k) <==> table.contains(k) && range.contains(k)
}

/// Stripping the keys of two lists, one after the other, is stripping the
/// two lists and putting the results one after the other.
pub proof fn lemma_strip_rows_concat(a: Seq<Seq<u8>>, b: Seq<Seq<u8>>, n: nat)
    ensures
        strip_rows(a + b, n) == strip_rows(a, n) + strip_rows(b, n),
{
    assert(strip_rows(a + b, n) =~= strip_rows(a, n) + strip_rows(b, n));
}

/// Pages that come one whole answer after the scan `s`, none of them with a
/// key shorter than the prefix, end the scan with the keys kept before and
/// the keys of all the pages, stripped of the prefix, in the order in which
/// they came.
pub proof fn lemma_scan_collects(s: ScannerView, pages: Seq<PageView>)
    requires
        well_paged(pages),
        rows_fit(all_rows(pages), s.prefix.len()),
    ensures
        run_spec(s, received(pages)) == ScanStepView::Done(
            s.keys + strip_rows(all_rows(pages), s.prefix.len()),
        ),
    decreases pages.len(),
{
    let n = s.prefix.len();
    let page = pages.first();
    let rest = pages.drop_first();
    assert(received(pages).first() == PageOutcomeView::Received(page));
    assert(received(pages).drop_first() == received(rest));
    assert forall|i: int| 0 <= i < page.rows.len() implies page.rows[i].len() >= n by {
        assert(all_rows(pages)[i] == page.rows[i]);
    }
    lemma_first_short_row(page.rows, n);
    let kept = s.keys + strip_rows(page.rows, n);
    if pages.len() == 1 {
        assert(all_rows(rest) == Seq::<Seq<u8>>::empty());
        assert(all_rows(pages) == page.rows);
        assert(received(rest).len() == 0);
    } else {
        assert(pages[0].next_cursor is Some);
        let next = ScannerView {
            prefix: s.prefix,
            cursor: page.next_cursor,
            keys: kept,
            page: crate::scan::next_page(s.page),
        };
        assert(step_spec(s, PageOutcomeView::Received(page)) == ScanStepView::Fetch(next));
        assert(rest.last() == pages.last());
        assert forall|i: int| 0 <= i < rest.len() - 1 implies (#[trigger] rest[i]).next_cursor is Some by {
            assert(rest[i] == pages[i + 1]);
        }
        assert forall|i: int| 0 <= i < all_rows(rest).len() implies all_rows(rest)[i].len() >= n by {
            assert(all_rows(pages)[page.rows.len() + i] == all_rows(rest)[i]);
        }
        lemma_scan_collects(next, rest);
        lemma_strip_rows_concat(page.rows, all_rows(rest), n);
        assert(kept + strip_rows(all_rows(rest), n) == s.keys + strip_rows(all_rows(pages), n));
    }
}

/// Pages that come one whole answer after the scan `s`, one of them with a
/// key shorter than the prefix, end the scan without a result.
pub proof fn lemma_scan_rejects(s: ScannerView, pages: Seq<PageView>)
    requires
        well_paged(pages),
        !rows_fit(all_rows(pages), s.prefix.len()),
    ensures
        run_spec(s, received(pages)) matches ScanStepView::Failed(
            ScanErrorView::MalformedRow { .. },
        ),
    decreases pages.len(),
{
    let n = s.prefix.len();
    let page = pages.first();
    let rest = pages.drop_first();
    assert(received(pages).first() == PageOutcomeView::Received(page));
    assert(received(pages).drop_first() == received(rest));
    lemma_first_short_row(page.rows, n);
    if first_short_row(page.rows, n) is None {
        if pages.len() == 1 {
            assert(all_rows(rest) == Seq::<Seq<u8>>::empty());
            assert(all_rows(pages) == page.rows);
        } else {
            assert(pages[0].next_cursor is Some);
            let next = ScannerView {
                prefix: s.prefix,
                cursor: page.next_cursor,
                keys: s.keys + strip_rows(page.rows, n),
                page: crate::scan::next_page(s.page),
            };
            assert(step_spec(s, PageOutcomeView::Received(page)) == ScanStepView::Fetch(next));
            assert(rest.last() == pages.last());
            assert forall|i: int| 0 <= i < rest.len() - 1 implies (#[trigger] rest[i]).next_cursor is Some by {
                assert(rest[i] == pages[i + 1]);
            }
            let i = choose|i: int| 0 <= i < all_rows(pages).len() && all_rows(pages)[i].len() < n;
            if i < page.rows.len() {
                assert(all_rows(pages)[i] == page.rows[i]);
            } else {
                assert(all_rows(pages)[i] == all_rows(rest)[i - page.rows.len()]);
            }
            lemma_scan_rejects(next, rest);
        }
    }
}

/// How a store cuts its answer into pages does not show in the result: two
/// whole answers with the same rows in the same order, on however many
/// pages each, give the same keys in the same order.  Where a key among the
/// rows is shorter than the prefix, neither gives a result.
pub proof fn lemma_paging_is_invisible(prefix: Seq<u8>, one: Seq<PageView>, other: Seq<PageView>)
    requires
        well_paged(one),
        well_paged(other),
        all_rows(one) == all_rows(other),
    ensures
        rows_fit(all_rows(one), prefix.len()) ==> {
            &&& run_spec(start_spec(prefix), received(one)) is Done
            &&& run_spec(start_spec(prefix), received(one)) == run_spec(
                start_spec(prefix),
                received(other),
            )
        },
        !rows_fit(all_rows(one), prefix.len()) ==> {
            &&& run_spec(start_spec(prefix), received(one)) is Failed
            &&& run_spec(start_spec(prefix), received(other)) is Failed
        },
{
    if rows_fit(all_rows(one), prefix.len()) {
        lemma_scan_collects(start_spec(prefix), one);
        lemma_scan_collects(start_spec(prefix), other);
    } else {
        lemma_scan_rejects(start_spec(prefix), one);
        lemma_scan_rejects(start_spec(prefix), other);
    }
}

/// A key with the prefix `p` is `p` followed by the key without its first
/// bytes, as many as `p` has.
pub proof fn lemma_prefix_then_rest(k: Seq<u8>, p: Seq<u8>)
    requires
        has_prefix(k, p),
    ensures
        k == p + k.skip(p.len() as int),
{
    assert(k =~= p + k.skip(p.len() as int));
}

/// Where the store answers a scan for the prefix `p` with the keys of
/// `table` in the range of `p`, each once, the scan returns every key of the
/// table that has the prefix, without the prefix, exactly once, and nothing
/// else.
pub proof fn lemma_scan_round_trip(table: Set<Seq<u8>>, p: Seq<u8>, pages: Seq<PageView>)
    requires
        answers(pages, table, prefix_range(p)),
    ensures
        run_spec(start_spec(p), received(pages)) matches ScanStepView::Done(keys) && {
            &&& keys == strip_rows(all_rows(pages), p.len())
            &&& keys.no_duplicates()
            &&& forall|k: Seq<u8>|
                table.contains(k) && has_prefix(k, p) ==> keys.contains(k.skip(p.len() as int))
                    && keys.to_multiset().count(k.skip(p.len() as int)) == 1
            &&& forall|rest: Seq<u8>| keys.contains(rest) ==> table.contains(p + rest)
        },
{
    let n = p.len();
    let rows = all_rows(pages);
    let keys = strip_rows(rows, n);
    assert forall|i: int| 0 <= i < rows.len() implies has_prefix(#[trigger] rows[i], p) by {
        assert(rows.contains(rows[i]));
        lemma_in_range_prefixed(p, rows[i]);
    }
    assert(rows_fit(rows, n));
    lemma_scan_collects(start_spec(p), pages);
    assert(start_spec(p).keys + keys == keys);
    assert forall|i: int, j: int| 0 <= i < keys.len() && 0 <= j < keys.len() && i != j implies keys[i]
        != keys[j] by {
        lemma_prefix_then_rest(rows[i], p);
        lemma_prefix_then_rest(rows[j], p);
    }
    keys.lemma_multiset_has_no_duplicates();
    assert forall|k: Seq<u8>| table.contains(k) && has_prefix(k, p) implies keys.contains(
        k.skip(n as int),
    ) && keys.to_multiset().count(k.skip(n as int)) == 1 by {
        lemma_prefixed_in_range(p, k);
        assert(rows.contains(k));
        let i = choose|i: int| 0 <= i < rows.len() && rows[i] == k;
        assert(keys[i] == k.skip(n as int));
        keys.to_multiset_ensures();
    }
    assert forall|rest: Seq<u8>| keys.contains(rest) implies table.contains(p + rest) by {
        let i = choose|i: int| 0 <= i < keys.len() && keys[i] == rest;
        lemma_prefix_then_rest(rows[i], p);
        assert(rows.contains(rows[i]));
    }
}

/// Two scans for one prefix over one table return the same keys, each as
/// often in the one result as in the other, whatever order and paging the
/// store chose for each.
pub proof fn lemma_scan_repeats(
    table: Set<Seq<u8>>,
    p: Seq<u8>,
    first: Seq<PageView>,
    second: Seq<PageView>,
)
    requires
        answers(first, table, prefix_range(p)),
        answers(second, table, prefix_range(p)),
    ensures
        run_spec(start_spec(p), received(first)) matches ScanStepView::Done(a) && run_spec(
            start_spec(p),
            received(second),
        ) matches ScanStepView::Done(b) && {
            &&& a.to_multiset() == b.to_multiset()
            &&& a.to_set() == b.to_set()
            &&& a.len() == b.len()
        },
{
    lemma_scan_round_trip(table, p, first);
    lemma_scan_round_trip(table, p, second);
    let a = strip_rows(all_rows(first), p.len());
    let b = strip_rows(all_rows(second), p.len());
    assert forall|rest: Seq<u8>| a.contains(rest) <==> b.contains(rest) by {
        if a.contains(rest) {
            lemma_prefix_then_rest(p + rest, p);
            assert((p + rest).skip(p.len() as int) == rest);
        }
        if b.contains(rest) {
            lemma_prefix_then_rest(p + rest, p);
            assert((p + rest).skip(p.len() as int) == rest);
        }
    }
    a.lemma_multiset_has_no_duplicates();
    b.lemma_multiset_has_no_duplicates();
    a.to_multiset_ensures();
    b.to_multiset_ensures();
    assert forall|rest: Seq<u8>| a.to_multiset().count(rest) == b.to_multiset().count(rest) by {
        assert(a.contains(rest) <==> b.contains(rest));
    }
    assert(a.to_multiset() =~= b.to_multiset());
    assert(a.to_set() =~= b.to_set());
}

} // verus!
