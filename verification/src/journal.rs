//! The paginated journal: filter the chronological transaction sequence by
//! account prefix, slice one page out of it under either display order, and
//! carry an exact running per-currency balance that stays synchronized with
//! the transactions hidden before the visible window.

use vstd::prelude::*;

use crate::cmap::{
    abs_val, cm_abs, cm_scales, cm_view, cm_wf, spec_cm_add, spec_apply_changes, cm_get, cm_add,
    cm_add_all, clone_cm, lemma_cm_add, lemma_cm_abs_add, lemma_cm_abs_entry,
};
use crate::data::{PostingV, Transaction, TxnFlag, TxnV};
use crate::decimal::{Dec, p96, pow10, lemma_add_fits_from_bound};
use crate::text::{is_prefix, str_starts_with};

verus! {

/// The page size used when a query names none.
pub const DEFAULT_ENTRIES_PER_PAGE: usize = 50;

/// Paging options for the journal, as they arrive from a query string.
/// Absent or malformed entries are normalized to their defaults, never
/// rejected.
pub struct FilterOptions {
    pub entries: Option<usize>,
    pub page: Option<usize>,
    pub old_first: Option<bool>,
    pub account: Option<String>,
    pub time: Option<String>,
}

/// One journal row: a transaction, the running balance right after it, and
/// the change it contributed.
pub struct JournalItem {
    pub txn: Transaction,
    pub balance: Vec<(String, Dec)>,
    pub changes: Vec<(String, Dec)>,
}

/// The mathematical content of a `JournalItem`.
pub ghost struct JournalItemV {
    pub txn: TxnV,
    pub balance: Seq<(Seq<char>, Dec)>,
    pub changes: Seq<(Seq<char>, Dec)>,
}

impl View for JournalItem {
    type V = JournalItemV;

    open spec fn view(&self) -> JournalItemV {
        JournalItemV {
            txn: self.txn@,
            balance: cm_view(self.balance@),
            changes: cm_view(self.changes@),
        }
    }
}

/// The transactions of a slice, as mathematical values.
pub open spec fn txn_views(ts: Seq<Transaction>) -> Seq<TxnV> {
    Seq::new(ts.len(), |i: int| ts[i]@)
}

/// A transaction matches a filter when some posting's account starts with
/// the filter string.
pub open spec fn txn_matches(t: TxnV, f: Seq<char>) -> bool {
    exists|i: int| 0 <= i < t.postings.len() && is_prefix(f, t.postings[i].account)
}

/// A transaction passes when it matches every filter.
pub open spec fn matches_filters(t: TxnV, fs: Seq<Seq<char>>) -> bool {
    forall|i: int| 0 <= i < fs.len() ==> txn_matches(t, fs[i])
}

/// The filters in force: the route-level account, then the query-level one,
/// each only when present.
pub open spec fn opt_filters(a: Option<Seq<char>>, b: Option<Seq<char>>) -> Seq<Seq<char>> {
    match (a, b) {
        (Some(x), Some(y)) => seq![x, y],
        (Some(x), None) => seq![x],
        (None, Some(y)) => seq![y],
        (None, None) => Seq::empty(),
    }
}

/// The subsequence of transactions that pass all filters, in order.
pub open spec fn spec_filtered(ts: Seq<TxnV>, fs: Seq<Seq<char>>) -> Seq<TxnV>
    decreases ts.len(),
{
    if ts.len() == 0 {
        Seq::empty()
    } else {
        let prefix = spec_filtered(ts.drop_last(), fs);
        if matches_filters(ts.last(), fs) {
            prefix.push(ts.last())
        } else {
            prefix
        }
    }
}

/// A posting contributes to the running balance when it carries no cost lot
/// and its account starts with the target account.
pub open spec fn posting_counts(p: PostingV, account: Seq<char>) -> bool {
    p.cost is None && is_prefix(account, p.account)
}

/// The per-currency changes contributed by a list of postings, accumulated
/// in posting order.
pub open spec fn spec_changes_from(ps: Seq<PostingV>, account: Seq<char>) -> Seq<(Seq<char>, Dec)>
    decreases ps.len(),
{
    if ps.len() == 0 {
        Seq::empty()
    } else {
        let prefix = spec_changes_from(ps.drop_last(), account);
        if posting_counts(ps.last(), account) {
            spec_cm_add(prefix, ps.last().amount.currency, ps.last().amount.number)
        } else {
            prefix
        }
    }
}

/// The changes a transaction contributes: none at all for a
/// balance-assertion transaction.
pub open spec fn spec_changes(t: TxnV, account: Seq<char>) -> Seq<(Seq<char>, Dec)> {
    if t.flag is Balance {
        Seq::empty()
    } else {
        spec_changes_from(t.postings, account)
    }
}

/// A balance after one transaction's changes.
pub open spec fn spec_apply_txn(
    bal: Seq<(Seq<char>, Dec)>,
    t: TxnV,
    account: Seq<char>,
) -> Seq<(Seq<char>, Dec)> {
    spec_apply_changes(bal, spec_changes(t, account))
}

/// The running balance after the first `n` transactions of the filtered
/// sequence.
pub open spec fn spec_balance_after(ts: Seq<TxnV>, account: Seq<char>, n: int) -> Seq<
    (Seq<char>, Dec),
>
    decreases n,
{
    if n <= 0 {
        Seq::empty()
    } else {
        spec_apply_txn(spec_balance_after(ts, account, n - 1), ts[n - 1], account)
    }
}

/// The journal row for filtered transaction `i`: with a target account the
/// balance snapshot and changes, without one empty maps.
pub open spec fn spec_item(ts: Seq<TxnV>, account: Option<Seq<char>>, i: int) -> JournalItemV {
    match account {
        Some(a) => JournalItemV {
            txn: ts[i],
            balance: spec_balance_after(ts, a, i + 1),
            changes: spec_changes(ts[i], a),
        },
        None => JournalItemV { txn: ts[i], balance: Seq::empty(), changes: Seq::empty() },
    }
}

/// The journal rows for the window starting at `skip`, `count` rows long,
/// in chronological order.
pub open spec fn spec_items(
    ts: Seq<TxnV>,
    account: Option<Seq<char>>,
    skip: int,
    count: int,
) -> Seq<JournalItemV> {
    Seq::new(
        (if count >= 0 {
            count
        } else {
            0
        }) as nat,
        |j: int| spec_item(ts, account, skip + j),
    )
}

/// The page number in force: the given one clamped to at least 1, or 1.
pub open spec fn spec_page(page: Option<usize>) -> int {
    match page {
        Some(p) => if p < 1 {
            1
        } else {
            p as int
        },
        None => 1,
    }
}

/// The page size in force: the given one clamped to at least 1, or 50.
pub open spec fn spec_entries(entries: Option<usize>) -> int {
    match entries {
        Some(e) => if e < 1 {
            1
        } else {
            e as int
        },
        None => DEFAULT_ENTRIES_PER_PAGE as int,
    }
}

/// The display order in force: oldest first only when asked for.
pub open spec fn spec_old_first(old_first: Option<bool>) -> bool {
    match old_first {
        Some(b) => b,
        None => false,
    }
}

/// How many filtered transactions the window hides before its start.
pub open spec fn spec_skip(total: int, page: int, entries: int, old_first: bool) -> int {
    if old_first {
        (page - 1) * entries
    } else {
        if page * entries >= total {
            0
        } else {
            total - page * entries
        }
    }
}

/// How many filtered transactions the window shows.
pub open spec fn spec_take(total: int, page: int, entries: int, old_first: bool) -> int {
    if old_first {
        if entries <= total - entries * (page - 1) {
            entries
        } else {
            total - entries * (page - 1)
        }
    } else {
        (total - entries * (page - 1)) - spec_skip(total, page, entries, old_first)
    }
}

/// The magnitude a posting can contribute to any accumulator.
pub open spec fn posting_abs(p: PostingV) -> int {
    abs_val(p.amount.number)
}

/// The summed magnitude of a posting list's quantities.
pub open spec fn postings_abs(ps: Seq<PostingV>) -> int
    decreases ps.len(),
{
    if ps.len() == 0 {
        0
    } else {
        postings_abs(ps.drop_last()) + posting_abs(ps.last())
    }
}

/// The summed magnitude of a transaction's quantities.
pub open spec fn txn_abs(t: TxnV) -> int {
    postings_abs(t.postings)
}

/// The summed magnitude of a transaction sequence's quantities.
pub open spec fn txns_abs(ts: Seq<TxnV>) -> int
    decreases ts.len(),
{
    if ts.len() == 0 {
        0
    } else {
        txns_abs(ts.drop_last()) + txn_abs(ts.last())
    }
}

/// The largest scale among a posting list's quantities.
pub open spec fn postings_smax(ps: Seq<PostingV>) -> int
    decreases ps.len(),
{
    if ps.len() == 0 {
        0
    } else {
        let r = postings_smax(ps.drop_last());
        let x = ps.last().amount.number.scale as int;
        if x > r {
            x
        } else {
            r
        }
    }
}

/// The largest scale among a transaction sequence's quantities.
pub open spec fn txns_smax(ts: Seq<TxnV>) -> int
    decreases ts.len(),
{
    if ts.len() == 0 {
        0
    } else {
        let r = txns_smax(ts.drop_last());
        let x = postings_smax(ts.last().postings);
        if x > r {
            x
        } else {
            r
        }
    }
}

/// Every posting quantity is representable.
pub open spec fn postings_wf(ps: Seq<PostingV>) -> bool {
    forall|i: int| 0 <= i < ps.len() ==> (#[trigger] ps[i]).amount.number.wf()
}

/// Every quantity in the sequence is representable.
pub open spec fn txns_wf(ts: Seq<TxnV>) -> bool {
    forall|i: int| 0 <= i < ts.len() ==> postings_wf((#[trigger] ts[i]).postings)
}

/// The whole sequence's quantities leave enough headroom that no running
/// per-currency sum can outgrow a 96-bit mantissa, whatever subset of
/// postings an account filter selects.
pub open spec fn journal_fits(ts: Seq<TxnV>) -> bool {
    &&& txns_wf(ts)
    &&& txns_abs(ts) < p96() * pow10((28 - txns_smax(ts)) as nat)
}

/// Posting magnitudes are nonnegative, grow stepwise along prefixes, and
/// prefixes never outweigh the whole list; scales of entries stay under the
/// list's maximum, which is nonnegative.
pub proof fn lemma_postings_measures(ps: Seq<PostingV>)
    ensures
        postings_abs(ps) >= 0,
        postings_smax(ps) >= 0,
        postings_wf(ps) ==> postings_smax(ps) <= 28,
        forall|k: int|
            0 <= k < ps.len() ==> postings_abs(#[trigger] ps.take(k + 1)) == postings_abs(
                ps.take(k),
            ) + posting_abs(ps[k]),
        forall|k: int| 0 <= k <= ps.len() ==> postings_abs(#[trigger] ps.take(k)) <= postings_abs(ps),
        forall|k: int|
            0 <= k < ps.len() ==> (#[trigger] ps[k]).amount.number.scale <= postings_smax(ps),
    decreases ps.len(),
{
    if ps.len() > 0 {
        lemma_postings_measures(ps.drop_last());
        assert(forall|k: int|
            0 <= k < ps.len() - 1 ==> #[trigger] ps.drop_last()[k] == ps[k]);
        assert forall|k: int|
            0 <= k < ps.len() implies postings_abs(#[trigger] ps.take(k + 1)) == postings_abs(
            ps.take(k),
        ) + posting_abs(ps[k]) by {
            assert(ps.take(k + 1).drop_last() =~= ps.take(k));
            assert(ps.take(k + 1).last() == ps[k]);
        }
        assert forall|k: int|
            0 <= k <= ps.len() implies postings_abs(#[trigger] ps.take(k)) <= postings_abs(
            ps,
        ) by {
            if k == ps.len() {
                assert(ps.take(k) =~= ps);
            } else {
                assert(ps.take(k) =~= ps.drop_last().take(k));
            }
        }
        assert forall|k: int|
            0 <= k < ps.len() implies (#[trigger] ps[k]).amount.number.scale <= postings_smax(
            ps,
        ) by {
            if k < ps.len() - 1 {
                assert(ps.drop_last()[k] == ps[k]);
            } else {
                assert(ps[k] == ps.last());
            }
        }
    }
}

/// The transaction-sequence analogue of `lemma_postings_measures`.
pub proof fn lemma_txns_measures(ts: Seq<TxnV>)
    ensures
        txns_abs(ts) >= 0,
        txns_smax(ts) >= 0,
        txns_wf(ts) ==> txns_smax(ts) <= 28,
        forall|k: int|
            0 <= k < ts.len() ==> txns_abs(#[trigger] ts.take(k + 1)) == txns_abs(ts.take(k))
                + txn_abs(ts[k]),
        forall|k: int| 0 <= k <= ts.len() ==> txns_abs(#[trigger] ts.take(k)) <= txns_abs(ts),
        forall|k: int|
            0 <= k < ts.len() ==> postings_smax((#[trigger] ts[k]).postings) <= txns_smax(ts),
    decreases ts.len(),
{
    if ts.len() > 0 {
        lemma_txns_measures(ts.drop_last());
        lemma_postings_measures(ts.last().postings);
        assert(forall|k: int|
            0 <= k < ts.len() - 1 ==> #[trigger] ts.drop_last()[k] == ts[k]);
        assert forall|k: int|
            0 <= k < ts.len() implies txns_abs(#[trigger] ts.take(k + 1)) == txns_abs(ts.take(k))
                + txn_abs(ts[k]) by {
            assert(ts.take(k + 1).drop_last() =~= ts.take(k));
            assert(ts.take(k + 1).last() == ts[k]);
        }
        assert forall|k: int|
            0 <= k <= ts.len() implies txns_abs(#[trigger] ts.take(k)) <= txns_abs(ts) by {
            if k == ts.len() {
                assert(ts.take(k) =~= ts);
            } else {
                assert(ts.take(k) =~= ts.drop_last().take(k));
            }
        }
        assert forall|k: int|
            0 <= k < ts.len() implies postings_smax((#[trigger] ts[k]).postings) <= txns_smax(
            ts,
        ) by {
            if k < ts.len() - 1 {
                assert(ts.drop_last()[k] == ts[k]);
            } else {
                assert(ts[k] == ts.last());
            }
        }
    }
}

/// Filtering keeps the magnitude sum, the maximum scale and
/// representability within those of the full sequence.
pub proof fn lemma_filtered_measures(ts: Seq<TxnV>, fs: Seq<Seq<char>>)
    ensures
        txns_abs(spec_filtered(ts, fs)) <= txns_abs(ts),
        txns_smax(spec_filtered(ts, fs)) <= txns_smax(ts),
        txns_wf(ts) ==> txns_wf(spec_filtered(ts, fs)),
    decreases ts.len(),
{
    lemma_txns_measures(ts);
    lemma_txns_measures(spec_filtered(ts, fs));
    if ts.len() > 0 {
        lemma_filtered_measures(ts.drop_last(), fs);
        lemma_txns_measures(ts.drop_last());
        lemma_txns_measures(spec_filtered(ts.drop_last(), fs));
        assert(txns_wf(ts) ==> txns_wf(ts.drop_last())) by {
            assert(forall|k: int|
                0 <= k < ts.len() - 1 ==> #[trigger] ts.drop_last()[k] == ts[k]);
        }
        let f = spec_filtered(ts, fs);
        let fp = spec_filtered(ts.drop_last(), fs);
        if matches_filters(ts.last(), fs) {
            assert(f == fp.push(ts.last()));
            assert(f.drop_last() =~= fp);
            assert(f.last() == ts.last());
            assert(txns_abs(f) == txns_abs(fp) + txn_abs(ts.last()));
            if txns_wf(ts) {
                assert forall|k: int|
                    0 <= k < f.len() implies postings_wf((#[trigger] f[k]).postings) by {
                    if k < fp.len() {
                        assert(f[k] == fp[k]);
                    } else {
                        assert(f[k] == ts.last());
                        assert(ts[ts.len() - 1] == ts.last());
                    }
                }
            }
        }
    }
}

/// The changes one transaction contributes are a well-formed map, keep the
/// postings' scales, and weigh no more than the transaction.
pub proof fn lemma_changes_props(t: TxnV, account: Seq<char>, s: int)
    requires
        postings_wf(t.postings),
        postings_smax(t.postings) <= s,
        0 <= s <= 28,
        txn_abs(t) < p96() * pow10((28 - s) as nat),
    ensures
        cm_wf(spec_changes(t, account)),
        cm_scales(spec_changes(t, account), s),
        cm_abs(spec_changes(t, account)) <= txn_abs(t),
{
    lemma_postings_measures(t.postings);
    if !(t.flag is Balance) {
        lemma_changes_from_props(t.postings, account, s, txn_abs(t));
    }
}

/// The posting-list form of `lemma_changes_props`.
proof fn lemma_changes_from_props(ps: Seq<PostingV>, account: Seq<char>, s: int, cap: int)
    requires
        postings_wf(ps),
        postings_smax(ps) <= s,
        0 <= s <= 28,
        postings_abs(ps) <= cap,
        cap < p96() * pow10((28 - s) as nat),
    ensures
        cm_wf(spec_changes_from(ps, account)),
        cm_scales(spec_changes_from(ps, account), s),
        cm_abs(spec_changes_from(ps, account)) <= postings_abs(ps),
    decreases ps.len(),
{
    lemma_postings_measures(ps);
    if ps.len() > 0 {
        let pre = ps.drop_last();
        assert(postings_wf(pre) && postings_smax(pre) <= s && postings_abs(pre) <= postings_abs(
            ps,
        )) by {
            assert(pre =~= ps.take(ps.len() - 1));
            assert(forall|k: int| 0 <= k < pre.len() ==> #[trigger] pre[k] == ps[k]);
        }
        lemma_changes_from_props(pre, account, s, cap);
        if posting_counts(ps.last(), account) {
            let d = ps.last().amount.number;
            let key = ps.last().amount.currency;
            assert(ps[ps.len() - 1] == ps.last());
            assert(d.wf() && d.scale <= s);
            crate::cmap::lemma_cm_get(spec_changes_from(pre, account), key, s);
            lemma_cm_abs_entry(spec_changes_from(pre, account));
            lemma_add_fits_from_bound(
                cm_get(spec_changes_from(pre, account), key),
                d,
                s,
                cap,
            );
            lemma_cm_add(spec_changes_from(pre, account), key, d, s);
            lemma_cm_abs_add(spec_changes_from(pre, account), key, d, s);
        }
    }
}

/// The running balance after any prefix is a well-formed map within the
/// sequence's scales and total magnitude.
pub proof fn lemma_balance_props(f: Seq<TxnV>, account: Seq<char>, n: int, s: int)
    requires
        txns_wf(f),
        txns_smax(f) <= s,
        0 <= s <= 28,
        0 <= n <= f.len(),
        txns_abs(f) < p96() * pow10((28 - s) as nat),
    ensures
        cm_wf(spec_balance_after(f, account, n)),
        cm_scales(spec_balance_after(f, account, n), s),
        cm_abs(spec_balance_after(f, account, n)) <= txns_abs(f.take(n)),
    decreases n,
{
    lemma_txns_measures(f);
    if n == 0 {
        assert(f.take(0) =~= Seq::<TxnV>::empty());
    } else {
        lemma_balance_props(f, account, n - 1, s);
        let t = f[n - 1];
        assert(postings_wf(t.postings));
        assert(postings_smax(t.postings) <= s);
        assert(txn_abs(t) <= txns_abs(f)) by {
            assert(txns_abs(f.take((n - 1) + 1)) == txns_abs(f.take(n - 1)) + txn_abs(f[n - 1]));
            lemma_txns_measures(f.take(n - 1));
        }
        assert(txns_abs(f.take((n - 1) + 1)) == txns_abs(f.take(n - 1)) + txn_abs(f[n - 1]));
        assert(f.take((n - 1) + 1) == f.take(n));
        lemma_changes_props(t, account, s);
        crate::cmap::lemma_apply_changes(
            spec_balance_after(f, account, n - 1),
            spec_changes(t, account),
            s,
        );
    }
}

/// Law: concatenating all pages in oldest-first order, first page first,
/// reproduces the journal of the whole filtered sequence — every filtered
/// transaction exactly once, in chronological order.
pub open spec fn pages_concat(
    f: Seq<TxnV>,
    account: Option<Seq<char>>,
    entries: int,
    n: int,
) -> Seq<JournalItemV>
    decreases n,
{
    if n <= 0 {
        Seq::empty()
    } else {
        pages_concat(f, account, entries, n - 1) + spec_items(
            f,
            account,
            spec_skip(f.len() as int, n, entries, true),
            spec_take(f.len() as int, n, entries, true),
        )
    }
}

/// The first `n` pages hold exactly the first `n * entries` rows.
proof fn lemma_pages_prefix(f: Seq<TxnV>, account: Option<Seq<char>>, entries: int, n: int)
    requires
        entries >= 1,
        n >= 0,
    ensures
        pages_concat(f, account, entries, n) == spec_items(
            f,
            account,
            0,
            if n * entries <= f.len() {
                n * entries
            } else {
                f.len() as int
            },
        ),
    decreases n,
{
    let total = f.len() as int;
    if n == 0 {
        assert(n * entries == 0) by (nonlinear_arith)
            requires
                n == 0,
        ;
        assert(pages_concat(f, account, entries, 0) =~= spec_items(f, account, 0, 0));
    } else {
        lemma_pages_prefix(f, account, entries, n - 1);
        assert((n - 1) * entries == n * entries - entries) by (nonlinear_arith);
        assert(n * entries >= entries && (n - 1) * entries >= 0) by (nonlinear_arith)
            requires
                entries >= 1,
                n >= 1,
        ;
        assert(entries * (n - 1) == (n - 1) * entries) by (nonlinear_arith);
        let skip = spec_skip(total, n, entries, true);
        let cnt = spec_take(total, n, entries, true);
        assert(skip == (n - 1) * entries);
        let upto_prev = if (n - 1) * entries <= total {
            (n - 1) * entries
        } else {
            total
        };
        let upto = if n * entries <= total {
            n * entries
        } else {
            total
        };
        if (n - 1) * entries >= total {
            assert(cnt <= 0);
            assert(spec_items(f, account, skip, cnt) =~= Seq::<JournalItemV>::empty());
            assert(pages_concat(f, account, entries, n) =~= spec_items(f, account, 0, upto));
        } else {
            assert(upto_prev == (n - 1) * entries);
            assert(cnt == upto - skip);
            assert(pages_concat(f, account, entries, n) =~= spec_items(f, account, 0, upto));
        }
    }
}

/// Law: with `old_first` display and enough pages to cover the filtered
/// sequence, the pages concatenated in order yield one row per filtered
/// transaction, in chronological order, the whole sequence exactly once.
pub proof fn lemma_pagination_complete(
    f: Seq<TxnV>,
    account: Option<Seq<char>>,
    entries: int,
    n: int,
)
    requires
        entries >= 1,
        n >= 0,
        n * entries >= f.len(),
    ensures
        pages_concat(f, account, entries, n) == spec_items(f, account, 0, f.len() as int),
        spec_items(f, account, 0, f.len() as int).len() == f.len(),
        forall|i: int|
            0 <= i < f.len() ==> (#[trigger] spec_items(f, account, 0, f.len() as int)[i]).txn
                == f[i],
{
    lemma_pages_prefix(f, account, entries, n);
}

/// Law: the balance carried out of one full oldest-first page is the
/// balance the next page starts from — the first row of page `k + 1` shows
/// exactly the previous page's closing balance with its own changes added.
pub proof fn lemma_running_balance_pages(f: Seq<TxnV>, account: Seq<char>, entries: int, k: int)
    requires
        entries >= 1,
        k >= 1,
        k * entries < f.len(),
        journal_fits(f),
    ensures
        ({
            let total = f.len() as int;
            let pk = spec_items(
                f,
                Some(account),
                spec_skip(total, k, entries, true),
                spec_take(total, k, entries, true),
            );
            let pk1 = spec_items(
                f,
                Some(account),
                spec_skip(total, k + 1, entries, true),
                spec_take(total, k + 1, entries, true),
            );
            &&& pk.len() == entries
            &&& pk1.len() > 0
            &&& pk1[0].balance == spec_apply_changes(pk.last().balance, pk1[0].changes)
            &&& forall|c: Seq<char>|
                #[trigger] cm_get(pk.last().balance, c).val() == cm_get(pk1[0].balance, c).val()
                    - cm_get(pk1[0].changes, c).val()
        }),
{
    let total = f.len() as int;
    assert((k - 1) * entries == k * entries - entries) by (nonlinear_arith);
    assert(k * entries >= entries) by (nonlinear_arith)
        requires
            entries >= 1,
            k >= 1,
    ;
    assert(entries * (k - 1) == (k - 1) * entries) by (nonlinear_arith);
    assert(entries * ((k + 1) - 1) == k * entries) by (nonlinear_arith);
    let skip_k = spec_skip(total, k, entries, true);
    let take_k = spec_take(total, k, entries, true);
    assert(skip_k == (k - 1) * entries && take_k == entries);
    let skip_k1 = spec_skip(total, k + 1, entries, true);
    assert(((k + 1) - 1) * entries == k * entries);
    assert(skip_k1 == k * entries);
    let pk = spec_items(f, Some(account), skip_k, take_k);
    let pk1 = spec_items(f, Some(account), skip_k1, spec_take(total, k + 1, entries, true));
    assert(pk.last() == spec_item(f, Some(account), k * entries - 1));
    assert(pk1[0] == spec_item(f, Some(account), k * entries));
    assert(pk.last().balance == spec_balance_after(f, account, k * entries));
    assert(pk1[0].balance == spec_balance_after(f, account, k * entries + 1));
    assert(spec_balance_after(f, account, k * entries + 1) == spec_apply_txn(
        spec_balance_after(f, account, k * entries),
        f[k * entries],
        account,
    ));
    let s = txns_smax(f);
    lemma_txns_measures(f);
    lemma_balance_props(f, account, k * entries, s);
    assert(postings_smax(f[k * entries].postings) <= s);
    assert(txn_abs(f[k * entries]) <= txns_abs(f)) by {
        assert(txns_abs(f.take(k * entries + 1)) == txns_abs(f.take(k * entries)) + txn_abs(
            f[k * entries],
        ));
        lemma_txns_measures(f.take(k * entries));
    }
    lemma_changes_props(f[k * entries], account, s);
    assert(cm_abs(spec_balance_after(f, account, k * entries)) + cm_abs(
        spec_changes(f[k * entries], account),
    ) < p96() * pow10((28 - s) as nat)) by {
        assert(txns_abs(f.take(k * entries)) + txn_abs(f[k * entries]) == txns_abs(
            f.take(k * entries + 1),
        ));
        assert(txns_abs(f.take(k * entries + 1)) <= txns_abs(f));
    }
    crate::cmap::lemma_apply_changes(
        spec_balance_after(f, account, k * entries),
        spec_changes(f[k * entries], account),
        s,
    );
}

/// Law: a balance-assertion transaction inserted anywhere leaves every
/// other row's balance and changes exactly as they were; its own row shows
/// no changes and the running balance unchanged.
pub proof fn lemma_balance_assertion_neutral(f: Seq<TxnV>, account: Seq<char>, b: TxnV, i: int)
    requires
        0 <= i <= f.len(),
        b.flag is Balance,
    ensures
        ({
            let g = f.insert(i, b);
            &&& forall|j: int|
                0 <= j < i ==> #[trigger] spec_item(g, Some(account), j) == spec_item(
                    f,
                    Some(account),
                    j,
                )
            &&& forall|j: int|
                i < j < g.len() ==> (#[trigger] spec_item(g, Some(account), j)).balance
                    == spec_item(f, Some(account), j - 1).balance && spec_item(
                    g,
                    Some(account),
                    j,
                ).changes == spec_item(f, Some(account), j - 1).changes && spec_item(
                    g,
                    Some(account),
                    j,
                ).txn == spec_item(f, Some(account), j - 1).txn
            &&& spec_item(g, Some(account), i).changes == Seq::<(Seq<char>, Dec)>::empty()
            &&& spec_item(g, Some(account), i).balance == spec_balance_after(f, account, i)
        }),
{
    let g = f.insert(i, b);
    assert(g.len() == f.len() + 1);
    assert(forall|j: int| 0 <= j < i ==> #[trigger] g[j] == f[j]);
    assert(g[i] == b);
    assert(forall|j: int| i < j < g.len() ==> #[trigger] g[j] == f[j - 1]);
    assert forall|n: int| 0 <= n <= i implies #[trigger] spec_balance_after(g, account, n)
        == spec_balance_after(f, account, n) by {
        lemma_balance_insert_low(f, g, account, n, i);
    }
    assert forall|n: int| i < n <= g.len() implies #[trigger] spec_balance_after(g, account, n)
        == spec_balance_after(f, account, n - 1) by {
        lemma_balance_insert_high(f, g, account, b, n, i);
    }
    assert(spec_changes(b, account) =~= Seq::<(Seq<char>, Dec)>::empty());
}

/// Before the insertion point, the running balance does not see the
/// inserted transaction.
proof fn lemma_balance_insert_low(f: Seq<TxnV>, g: Seq<TxnV>, account: Seq<char>, n: int, i: int)
    requires
        0 <= n <= i <= f.len(),
        g.len() == f.len() + 1,
        forall|j: int| 0 <= j < i ==> #[trigger] g[j] == f[j],
    ensures
        spec_balance_after(g, account, n) == spec_balance_after(f, account, n),
    decreases n,
{
    if n > 0 {
        lemma_balance_insert_low(f, g, account, n - 1, i);
    }
}

/// Past the insertion point, the running balance is exactly what it was,
/// one index later: the balance assertion contributed nothing.
proof fn lemma_balance_insert_high(
    f: Seq<TxnV>,
    g: Seq<TxnV>,
    account: Seq<char>,
    b: TxnV,
    n: int,
    i: int,
)
    requires
        0 <= i <= f.len(),
        i < n <= g.len(),
        g.len() == f.len() + 1,
        b.flag is Balance,
        g[i] == b,
        forall|j: int| 0 <= j < i ==> #[trigger] g[j] == f[j],
        forall|j: int| i < j < g.len() ==> #[trigger] g[j] == f[j - 1],
    ensures
        spec_balance_after(g, account, n) == spec_balance_after(f, account, n - 1),
    decreases n,
{
    if n == i + 1 {
        lemma_balance_insert_low(f, g, account, i, i);
        assert(spec_changes(b, account) =~= Seq::<(Seq<char>, Dec)>::empty());
        assert(spec_apply_txn(spec_balance_after(g, account, i), b, account)
            == spec_balance_after(g, account, i));
    } else {
        lemma_balance_insert_high(f, g, account, b, n - 1, i);
        assert(g[n - 1] == f[n - 2]);
    }
}

/// One posting's magnitude, on top of the magnitudes before it, stays
/// within the whole sequence's magnitude.
proof fn lemma_posting_abs_le(tv: Seq<TxnV>, k: int, i: int)
    requires
        0 <= k < tv.len(),
        0 <= i < tv[k].postings.len(),
    ensures
        txns_abs(tv.take(k)) + postings_abs(tv[k].postings.take(i)) + abs_val(
            tv[k].postings[i].amount.number,
        ) <= txns_abs(tv),
{
    lemma_txns_measures(tv);
    let ps = tv[k].postings;
    lemma_postings_measures(ps);
    assert(postings_abs(ps.take(i + 1)) == postings_abs(ps.take(i)) + posting_abs(ps[i]));
    assert(postings_abs(ps.take(i + 1)) <= postings_abs(ps));
    assert(txns_abs(tv.take(k + 1)) == txns_abs(tv.take(k)) + txn_abs(tv[k]));
    assert(txns_abs(tv.take(k + 1)) <= txns_abs(tv));
}

/// A factor at or past the 96-bit bound stays past it after scaling by a
/// positive power of ten.
proof fn lemma_cap_exceeded(x: int, p: int)
    requires
        x >= p96() || x > u128::MAX as int,
        p >= 1,
    ensures
        x * p >= p96() * p,
{
    assert(x >= p96());
    assert(x * p >= p96() * p) by (nonlinear_arith)
        requires
            x >= p96(),
            p >= 1,
    ;
}

/// Whether the whole sequence leaves the headroom the journal needs: every
/// quantity representable, and the magnitudes summed at the largest scale
/// in use within a 96-bit mantissa. Exactly `journal_fits`.
#[verifier::loop_isolation(false)]
#[verifier::rlimit(100)]
pub fn journal_fits_check(txns: &Vec<Transaction>) -> (r: bool)
    ensures
        r == journal_fits(txn_views(txns@)),
{
    let ghost tv = txn_views(txns@);
    proof {
        lemma_txns_measures(tv);
        assert(tv.take(0) =~= Seq::<TxnV>::empty());
    }
    let n = txns.len();
    let mut smax: u32 = 0;
    let mut k: usize = 0;
    while k < n
        invariant
            k <= n,
            txns_wf(tv.take(k as int)),
            smax as int == txns_smax(tv.take(k as int)),
            smax <= 28,
        decreases n - k,
    {
        let t = &txns[k];
        let ghost pv = tv[k as int].postings;
        proof {
            assert(tv[k as int] == txns@[k as int]@);
            assert(pv.take(0) =~= Seq::<PostingV>::empty());
            lemma_postings_measures(pv);
        }
        let m = t.postings.len();
        let mut psmax: u32 = 0;
        let mut i: usize = 0;
        while i < m
            invariant
                i <= m,
                m == pv.len(),
                postings_wf(pv.take(i as int)),
                psmax as int == postings_smax(pv.take(i as int)),
                psmax <= 28,
            decreases m - i,
        {
            proof {
                assert(pv[i as int] == t.postings@[i as int]@);
                assert(pv.take(i + 1).drop_last() =~= pv.take(i as int));
                assert(pv.take(i + 1).last() == pv[i as int]);
            }
            let d = t.postings[i].amount.number;
            if d.scale > 28 || d.mantissa <= -0x1000000000000000000000000i128 || d.mantissa
                >= 0x1000000000000000000000000i128 {
                proof {
                    assert(!pv[i as int].amount.number.wf());
                    if txns_wf(tv) {
                        assert(postings_wf(tv[k as int].postings));
                        assert(pv[i as int].amount.number.wf());
                    }
                }
                return false;
            }
            if d.scale > psmax {
                psmax = d.scale;
            }
            i = i + 1;
        }
        proof {
            assert(pv.take(m as int) =~= pv);
            assert(tv.take(k + 1).drop_last() =~= tv.take(k as int));
            assert(tv.take(k + 1).last() == tv[k as int]);
        }
        if psmax > smax {
            smax = psmax;
        }
        k = k + 1;
    }
    proof {
        assert(tv.take(n as int) =~= tv);
        assert(txns_wf(tv));
        assert(smax as int == txns_smax(tv));
    }
    let ghost cap = p96() * pow10((28 - smax as int) as nat);
    let ghost e28 = (28 - smax as int) as nat;
    proof {
        crate::decimal::lemma_pow10_pos(e28);
    }
    let mut acc: u128 = 0;
    let mut k2: usize = 0;
    while k2 < n
        invariant
            k2 <= n,
            acc as int * pow10(e28) == txns_abs(tv.take(k2 as int)),
            acc < 0x1000000000000000000000000u128,
        decreases n - k2,
    {
        let t = &txns[k2];
        let ghost pv = tv[k2 as int].postings;
        proof {
            assert(tv[k2 as int] == txns@[k2 as int]@);
            assert(pv.take(0) =~= Seq::<PostingV>::empty());
            lemma_postings_measures(pv);
        }
        let m = t.postings.len();
        let mut i: usize = 0;
        while i < m
            invariant
                i <= m,
                m == pv.len(),
                acc as int * pow10(e28) == txns_abs(tv.take(k2 as int)) + postings_abs(
                    pv.take(i as int),
                ),
                acc < 0x1000000000000000000000000u128,
            decreases m - i,
        {
            let ghost el = pv[i as int].amount.number;
            proof {
                assert(pv[i as int] == t.postings@[i as int]@);
                assert(pv.take(i + 1).drop_last() =~= pv.take(i as int));
                assert(pv.take(i + 1).last() == pv[i as int]);
                assert(postings_wf(tv[k2 as int].postings));
                assert(el.wf());
                assert(el.scale <= postings_smax(pv));
                assert(postings_smax(tv[k2 as int].postings) <= txns_smax(tv));
                lemma_posting_abs_le(tv, k2 as int, i as int);
                crate::cmap::lemma_abs_val(el);
                crate::decimal::lemma_pow10_adds(
                    (smax - el.scale) as nat,
                    e28,
                );
                crate::decimal::lemma_pow10_pos((smax - el.scale) as nat);
            }
            let d = t.postings[i].amount.number;
            let am: u128 = if d.mantissa >= 0 {
                d.mantissa as u128
            } else {
                (-d.mantissa) as u128
            };
            let shift = crate::decimal::pow10_u128(smax - d.scale);
            let ghost amv = am as int;
            let ghost shiftv = shift as int;
            proof {
                // the magnitude of this quantity, at the shared scale
                assert(amv == (if el.mantissa >= 0 {
                    el.mantissa as int
                } else {
                    -(el.mantissa as int)
                }));
                assert((smax - el.scale) as nat + e28 == (28 - el.scale) as nat);
                assert(shiftv * pow10(e28) == pow10((28 - el.scale) as nat));
                assert(abs_val(el) == amv * pow10((28 - el.scale) as nat));
                assert(abs_val(el) == (amv * shiftv) * pow10(e28)) by (nonlinear_arith)
                    requires
                        abs_val(el) == amv * pow10((28 - el.scale) as nat),
                        shiftv * pow10(e28) == pow10((28 - el.scale) as nat),
                ;
                assert(abs_val(el) >= 0) by {
                    crate::cmap::lemma_cm_abs_entry(Seq::<(Seq<char>, Dec)>::empty());
                }
            }
            let term = match am.checked_mul(shift) {
                Some(x) => x,
                None => {
                    proof {
                        lemma_txns_measures(tv.take(k2 as int));
                        lemma_postings_measures(pv.take(i as int));
                        assert(amv * shiftv > u128::MAX as int);
                        lemma_cap_exceeded(amv * shiftv, pow10(e28));
                        assert(abs_val(el) >= p96() * pow10(e28));
                        assert(txns_abs(tv) >= p96() * pow10(e28));
                    }
                    return false;
                },
            };
            let acc2 = match acc.checked_add(term) {
                Some(x) => x,
                None => {
                    proof {
                        lemma_txns_measures(tv.take(k2 as int));
                        lemma_postings_measures(pv.take(i as int));
                        assert(acc as int + term as int > u128::MAX as int);
                        lemma_cap_exceeded(acc as int + term as int, pow10(e28));
                        assert((acc as int + term as int) * pow10(e28) == acc as int * pow10(e28)
                            + term as int * pow10(e28)) by (nonlinear_arith);
                        assert(term as int * pow10(e28) == abs_val(el));
                        assert(txns_abs(tv) >= p96() * pow10(e28));
                    }
                    return false;
                },
            };
            if acc2 >= 0x1000000000000000000000000u128 {
                proof {
                    lemma_txns_measures(tv.take(k2 as int));
                    lemma_postings_measures(pv.take(i as int));
                    lemma_cap_exceeded(acc2 as int, pow10(e28));
                    assert(acc2 as int * pow10(e28) == acc as int * pow10(e28) + term as int
                        * pow10(e28)) by (nonlinear_arith)
                        requires
                            acc2 as int == acc as int + term as int,
                    ;
                    assert(term as int * pow10(e28) == abs_val(el));
                    assert(txns_abs(tv) >= p96() * pow10(e28));
                }
                return false;
            }
            let ghost partial = txns_abs(tv.take(k2 as int)) + postings_abs(pv.take(i as int));
            proof {
                assert(term as int == amv * shiftv);
                assert(term as int * pow10(e28) == abs_val(el));
                assert(acc2 as int * pow10(e28) == partial + abs_val(el)) by (nonlinear_arith)
                    requires
                        acc2 as int == acc as int + term as int,
                        acc as int * pow10(e28) == partial,
                        term as int * pow10(e28) == abs_val(el),
                ;
            }
            acc = acc2;
            proof {
                assert(acc as int * pow10(e28) == txns_abs(tv.take(k2 as int)) + postings_abs(
                    pv.take(i + 1),
                ));
            }
            i = i + 1;
        }
        proof {
            assert(pv.take(m as int) =~= pv);
            assert(tv.take(k2 + 1).drop_last() =~= tv.take(k2 as int));
            assert(tv.take(k2 + 1).last() == tv[k2 as int]);
        }
        k2 = k2 + 1;
    }
    proof {
        assert(tv.take(n as int) =~= tv);
        assert(acc as int * pow10(e28) == txns_abs(tv));
        assert(txns_abs(tv) < cap) by (nonlinear_arith)
            requires
                acc as int * pow10(e28) == txns_abs(tv),
                acc < 0x1000000000000000000000000u128,
                cap == p96() * pow10(e28),
                pow10(e28) >= 1,
                p96() == 0x1000000000000000000000000,
        ;
    }
    true
}

/// Whether some posting of the transaction names an account starting with
/// the given prefix.
#[verifier::loop_isolation(false)]
pub fn filter_account(txn: &Transaction, account: &str) -> (r: bool)
    ensures
        r == txn_matches(txn@, account@),
{
    let n = txn.postings.len();
    let mut i: usize = 0;
    while i < n
        invariant
            i <= n,
            n == txn.postings@.len(),
            forall|k: int| 0 <= k < i ==> !is_prefix(account@, txn@.postings[k].account),
        decreases n - i,
    {
        proof {
            assert(txn@.postings[i as int] == txn.postings@[i as int]@);
        }
        if str_starts_with(txn.postings[i].account.as_str(), account) {
            return true;
        }
        i = i + 1;
    }
    false
}

/// Folds one transaction into the running balance: a balance assertion
/// leaves it untouched and contributes nothing; any other transaction adds,
/// per currency, the quantities of its cost-free postings under the target
/// account, and hands those changes back.
#[verifier::loop_isolation(false)]
pub fn update_balance(
    txn: &Transaction,
    account: &str,
    running: &mut Vec<(String, Dec)>,
    Ghost(a): Ghost<int>,
    Ghost(s): Ghost<int>,
) -> (changes: Vec<(String, Dec)>)
    requires
        postings_wf(txn@.postings),
        postings_smax(txn@.postings) <= s,
        0 <= s <= 28,
        cm_wf(cm_view(old(running)@)),
        cm_scales(cm_view(old(running)@), s),
        cm_abs(cm_view(old(running)@)) <= a,
        0 <= a,
        a + txn_abs(txn@) < p96() * pow10((28 - s) as nat),
    ensures
        cm_view(final(running)@) == spec_apply_txn(cm_view(old(running)@), txn@, account@),
        cm_view(changes@) == spec_changes(txn@, account@),
        cm_wf(cm_view(final(running)@)),
        cm_scales(cm_view(final(running)@), s),
        cm_abs(cm_view(final(running)@)) <= a + txn_abs(txn@),
        cm_wf(cm_view(changes@)),
        cm_scales(cm_view(changes@), s),
        cm_abs(cm_view(changes@)) <= txn_abs(txn@),
{
    let ghost bal0 = cm_view(running@);
    proof {
        lemma_postings_measures(txn@.postings);
    }
    if txn.flag == TxnFlag::Balance {
        let changes: Vec<(String, Dec)> = Vec::new();
        proof {
            assert(cm_view(changes@) =~= Seq::<(Seq<char>, Dec)>::empty());
            assert(spec_apply_txn(bal0, txn@, account@) == bal0);
        }
        return changes;
    }
    let mut changes: Vec<(String, Dec)> = Vec::new();
    proof {
        assert(cm_view(changes@) =~= Seq::<(Seq<char>, Dec)>::empty());
        assert(txn@.postings.take(0) =~= Seq::<PostingV>::empty());
    }
    let n = txn.postings.len();
    let mut i: usize = 0;
    while i < n
        invariant
            i <= n,
            n == txn.postings@.len(),
            cm_view(running@) == bal0,
            cm_view(changes@) == spec_changes_from(txn@.postings.take(i as int), account@),
            cm_wf(cm_view(changes@)),
            cm_scales(cm_view(changes@), s),
            cm_abs(cm_view(changes@)) <= postings_abs(txn@.postings.take(i as int)),
        decreases n - i,
    {
        let ghost chv = cm_view(changes@);
        let p = &txn.postings[i];
        proof {
            assert(txn@.postings[i as int] == txn.postings@[i as int]@);
        }
        let counts = p.cost.is_none() && str_starts_with(p.account.as_str(), account);
        proof {
            assert(counts == posting_counts(txn@.postings[i as int], account@));
        }
        if counts {
            let ghost pv = txn@.postings[i as int];
            let ghost d = pv.amount.number;
            proof {
                assert(p.amount.number == d);
                assert(d.wf());
                assert(d.scale <= s);
                crate::cmap::lemma_cm_get(chv, pv.amount.currency, s);
                lemma_add_fits_from_bound(
                    cm_get(chv, pv.amount.currency),
                    d,
                    s,
                    a + txn_abs(txn@),
                );
                lemma_cm_add(chv, pv.amount.currency, d, s);
                lemma_cm_abs_add(chv, pv.amount.currency, d, s);
            }
            cm_add(&mut changes, p.amount.currency.as_str(), p.amount.number);
            proof {
                assert(txn@.postings.take(i + 1).drop_last() =~= txn@.postings.take(i as int));
                assert(txn@.postings.take(i + 1).last() == pv);
                assert(cm_view(changes@) == spec_changes_from(
                    txn@.postings.take(i + 1),
                    account@,
                ));
            }
        } else {
            proof {
                assert(txn@.postings.take(i + 1).drop_last() =~= txn@.postings.take(i as int));
                assert(txn@.postings.take(i + 1).last() == txn@.postings[i as int]);
            }
        }
        i = i + 1;
    }
    proof {
        assert(txn@.postings.take(n as int) =~= txn@.postings);
    }
    proof {
        lemma_cm_abs_entry(cm_view(changes@));
    }
    cm_add_all(running, &changes, Ghost(s));
    proof {
        assert(spec_changes(txn@, account@) == cm_view(changes@));
    }
    changes
}

/// The mathematical content of a slice of journal rows.
pub open spec fn jviews(items: Seq<JournalItem>) -> Seq<JournalItemV> {
    Seq::new(items.len(), |i: int| items[i]@)
}

/// The account string an optional owned account denotes.
pub open spec fn opt_view(o: Option<String>) -> Option<Seq<char>> {
    match o {
        Some(s) => Some(s@),
        None => None,
    }
}

/// The account a filter falls back to: the named one or the empty string.
pub open spec fn opt_or_empty(o: Option<Seq<char>>) -> Seq<char> {
    match o {
        Some(x) => x,
        None => Seq::empty(),
    }
}

/// What the journal returns: the filtered total, and the window's rows in
/// display order.
pub open spec fn spec_journal(
    ts: Seq<TxnV>,
    account: Option<Seq<char>>,
    qaccount: Option<Seq<char>>,
    entries_opt: Option<usize>,
    page_opt: Option<usize>,
    old_first_opt: Option<bool>,
) -> (Seq<JournalItemV>, int) {
    let f = spec_filtered(ts, opt_filters(account, qaccount));
    let total = f.len() as int;
    let page = spec_page(page_opt);
    let entries = spec_entries(entries_opt);
    let of = spec_old_first(old_first_opt);
    if (page - 1) * entries >= total {
        (Seq::empty(), total)
    } else {
        let skip = spec_skip(total, page, entries, of);
        let cnt = spec_take(total, page, entries, of);
        let items = spec_items(f, account, skip, cnt);
        (
            if of {
                items
            } else {
                items.reverse()
            },
            total,
        )
    }
}

/// Passing all filters is passing each present filter.
proof fn lemma_opt_filters(t: TxnV, a: Option<Seq<char>>, b: Option<Seq<char>>)
    ensures
        matches_filters(t, opt_filters(a, b)) == ((match a {
            Some(x) => txn_matches(t, x),
            None => true,
        }) && (match b {
            Some(y) => txn_matches(t, y),
            None => true,
        })),
{
    let fs = opt_filters(a, b);
    match (a, b) {
        (Some(x), Some(y)) => {
            assert(fs[0] == x && fs[1] == y);
            if txn_matches(t, x) && txn_matches(t, y) {
                assert forall|i: int| 0 <= i < fs.len() implies txn_matches(t, fs[i]) by {
                    if i == 0 {
                    } else {
                        assert(i == 1);
                    }
                }
            }
        },
        (Some(x), None) => {
            assert(fs[0] == x);
            if txn_matches(t, x) {
                assert forall|i: int| 0 <= i < fs.len() implies txn_matches(t, fs[i]) by {
                    assert(i == 0);
                }
            }
        },
        (None, Some(y)) => {
            assert(fs[0] == y);
            if txn_matches(t, y) {
                assert forall|i: int| 0 <= i < fs.len() implies txn_matches(t, fs[i]) by {
                    assert(i == 0);
                }
            }
        },
        (None, None) => {},
    }
}

/// The rows in the opposite order.
fn reverse_items(v: Vec<JournalItem>) -> (r: Vec<JournalItem>)
    ensures
        r@.len() == v@.len(),
        forall|i: int| 0 <= i < r@.len() ==> r@[i] == v@[v@.len() - 1 - i],
{
    let ghost orig = v@;
    let mut v = v;
    let mut r: Vec<JournalItem> = Vec::new();
    while v.len() > 0
        invariant
            r@.len() + v@.len() == orig.len(),
            v@ == orig.take(v@.len() as int),
            forall|i: int| 0 <= i < r@.len() ==> r@[i] == orig[orig.len() - 1 - i],
        decreases v@.len(),
    {
        let ghost before = v@;
        let x = match v.pop() {
            Some(x) => x,
            None => {
                proof {
                    assert(false);
                }
                unreached()
            },
        };
        proof {
            assert(before.last() == orig[v@.len() as int]);
            assert(before.drop_last() =~= orig.take(v@.len() as int));
        }
        r.push(x);
    }
    r
}

/// The indices, in order, of the transactions that pass all present
/// filters.
#[verifier::loop_isolation(false)]
fn filter_indices(
    txns: &Vec<Transaction>,
    account: &Option<String>,
    qaccount: &Option<String>,
) -> (fidx: Vec<usize>)
    ensures
        ({
            let f = spec_filtered(
                txn_views(txns@),
                opt_filters(opt_view(*account), opt_view(*qaccount)),
            );
            &&& fidx@.len() == f.len()
            &&& forall|k: int| 0 <= k < fidx@.len() ==> (#[trigger] fidx@[k]) < txns@.len()
            &&& forall|k: int|
                0 <= k < fidx@.len() ==> txns@[#[trigger] fidx@[k] as int]@ == f[k]
        }),
{
    let ghost tv = txn_views(txns@);
    let ghost fs = opt_filters(opt_view(*account), opt_view(*qaccount));
    proof {
        assert(tv.take(0) =~= Seq::<TxnV>::empty());
    }
    let n = txns.len();
    let mut fidx: Vec<usize> = Vec::new();
    let mut i: usize = 0;
    while i < n
        invariant
            i <= n,
            n == txns@.len(),
            spec_filtered(tv.take(i as int), fs).len() == fidx@.len(),
            forall|k: int| 0 <= k < fidx@.len() ==> (#[trigger] fidx@[k]) < i,
            forall|k: int|
                0 <= k < fidx@.len() ==> tv[#[trigger] fidx@[k] as int] == spec_filtered(
                    tv.take(i as int),
                    fs,
                )[k],
        decreases n - i,
    {
        let m1 = match account {
            Some(a) => filter_account(&txns[i], a.as_str()),
            None => true,
        };
        let m2 = match qaccount {
            Some(a) => filter_account(&txns[i], a.as_str()),
            None => true,
        };
        proof {
            assert(tv[i as int] == txns@[i as int]@);
            lemma_opt_filters(tv[i as int], opt_view(*account), opt_view(*qaccount));
            assert(tv.take(i + 1).drop_last() =~= tv.take(i as int));
            assert(tv.take(i + 1).last() == tv[i as int]);
        }
        if m1 && m2 {
            fidx.push(i);
        }
        i = i + 1;
    }
    proof {
        assert(tv.take(n as int) =~= tv);
    }
    fidx
}

/// The window of filtered indices one page shows: whether the page starts
/// past the end, and if not, how many rows are hidden before it and shown
/// in it.
fn page_window(total: usize, page: usize, entries: usize, old_first: bool) -> (r: (
    bool,
    usize,
    usize,
))
    requires
        page >= 1,
        entries >= 1,
    ensures
        r.0 == ((page - 1) * entries >= total),
        !r.0 ==> r.1 as int == spec_skip(total as int, page as int, entries as int, old_first),
        !r.0 ==> r.2 as int == spec_take(total as int, page as int, entries as int, old_first),
        !r.0 ==> r.1 + r.2 <= total && r.2 > 0,
{
    let pm1 = page - 1;
    let base_check = pm1.checked_mul(entries);
    let is_beyond = match base_check {
        None => true,
        Some(x) => x >= total,
    };
    proof {
        if base_check is None {
            assert((pm1 as int) * (entries as int) > usize::MAX as int);
        }
    }
    if is_beyond {
        return (true, 0, 0);
    }
    let base = match base_check {
        Some(x) => x,
        None => {
            proof {
                assert(false);
            }
            unreached()
        },
    };
    let skip = if old_first {
        base
    } else {
        if entries >= total - base {
            0
        } else {
            total - base - entries
        }
    };
    let cnt = if old_first {
        let rem = total - base;
        if entries <= rem {
            entries
        } else {
            rem
        }
    } else {
        (total - base) - skip
    };
    proof {
        let ti = total as int;
        let pi = page as int;
        let ei = entries as int;
        assert(base as int == (pi - 1) * ei);
        assert(ei * (pi - 1) == base as int) by (nonlinear_arith)
            requires
                base as int == (pi - 1) * ei,
        ;
        assert(pi * ei == base as int + ei) by (nonlinear_arith)
            requires
                base as int == (pi - 1) * ei,
        ;
        assert(skip as int == spec_skip(ti, pi, ei, old_first));
        assert(cnt as int == spec_take(ti, pi, ei, old_first));
    }
    (false, skip, cnt)
}

/// The paginated journal for one query: filters the chronological sequence
/// by the present account prefixes, slices the requested page, carries the
/// running balance across the hidden prefix when a single account is
/// targeted, and returns the rows in the requested display order together
/// with the filtered total.
#[verifier::loop_isolation(false)]
#[verifier::rlimit(100)]
pub fn account_journal(
    txns: &Vec<Transaction>,
    account: Option<String>,
    options: FilterOptions,
) -> (r: (Vec<JournalItem>, usize))
    requires
        journal_fits(txn_views(txns@)),
    ensures
        ({
            let spec_r = spec_journal(
                txn_views(txns@),
                opt_view(account),
                opt_view(options.account),
                options.entries,
                options.page,
                options.old_first,
            );
            r.1 == spec_r.1 && jviews(r.0@) == spec_r.0
        }),
{
    let ghost tv = txn_views(txns@);
    let ghost fs = opt_filters(opt_view(account), opt_view(options.account));
    let fidx = filter_indices(txns, &account, &options.account);
    let ghost f = spec_filtered(tv, fs);
    let total = fidx.len();

    let page = match options.page {
        Some(p) => {
            if p < 1 {
                1
            } else {
                p
            }
        },
        None => 1,
    };
    let entries = match options.entries {
        Some(e) => {
            if e < 1 {
                1
            } else {
                e
            }
        },
        None => DEFAULT_ENTRIES_PER_PAGE,
    };
    let old_first = match options.old_first {
        Some(b) => b,
        None => false,
    };
    proof {
        assert(page as int == spec_page(options.page));
        assert(entries as int == spec_entries(options.entries));
        assert(old_first == spec_old_first(options.old_first));
    }

    let (is_beyond, skip, cnt) = page_window(total, page, entries, old_first);
    if is_beyond {
        let empty: Vec<JournalItem> = Vec::new();
        proof {
            assert(jviews(empty@) =~= Seq::<JournalItemV>::empty());
        }
        return (empty, total);
    }

    let ghost s_all = txns_smax(tv);
    proof {
        lemma_txns_measures(tv);
        lemma_txns_measures(f);
        lemma_filtered_measures(tv, fs);
        assert(f.take(0) =~= Seq::<TxnV>::empty());
    }
    let mut running: Vec<(String, Dec)> = Vec::new();
    proof {
        assert(cm_view(running@) =~= Seq::<(Seq<char>, Dec)>::empty());
    }
    match &account {
        Some(acct) => {
            let mut k: usize = 0;
            while k < skip
                invariant
                    k <= skip,
                    cm_view(running@) == spec_balance_after(f, acct@, k as int),
                    cm_wf(cm_view(running@)),
                    cm_scales(cm_view(running@), s_all),
                    cm_abs(cm_view(running@)) <= txns_abs(f.take(k as int)),
                decreases skip - k,
            {
                let ti = fidx[k];
                proof {
                    assert(txns@[ti as int]@ == f[k as int]);
                    assert(postings_wf(f[k as int].postings));
                    assert(postings_smax(f[k as int].postings) <= txns_smax(f));
                    lemma_txns_measures(f.take(k as int));
                    assert(txns_abs(f.take(k as int)) + txn_abs(f[k as int]) == txns_abs(
                        f.take(k + 1),
                    ));
                    assert(txns_abs(f.take(k + 1)) <= txns_abs(f));
                }
                let _ = update_balance(
                    &txns[ti],
                    acct.as_str(),
                    &mut running,
                    Ghost(txns_abs(f.take(k as int))),
                    Ghost(s_all),
                );
                k = k + 1;
            }
        },
        None => {},
    }

    let mut items: Vec<JournalItem> = Vec::new();
    let mut k = skip;
    while k < skip + cnt
        invariant
            skip <= k <= skip + cnt,
            items@.len() == k - skip,
            forall|j: int|
                0 <= j < items@.len() ==> (#[trigger] items@[j])@ == spec_item(
                    f,
                    opt_view(account),
                    skip + j,
                ),
            account is Some ==> cm_view(running@) == spec_balance_after(
                f,
                opt_or_empty(opt_view(account)),
                k as int,
            ) && cm_wf(cm_view(running@)) && cm_scales(cm_view(running@), s_all) && cm_abs(
                cm_view(running@),
            ) <= txns_abs(f.take(k as int)),
        decreases skip + cnt - k,
    {
        let ti = fidx[k];
        proof {
            assert(txns@[ti as int]@ == f[k as int]);
        }
        match &account {
            Some(acct) => {
                proof {
                    assert(postings_wf(f[k as int].postings));
                    assert(postings_smax(f[k as int].postings) <= txns_smax(f));
                    lemma_txns_measures(f.take(k as int));
                    assert(txns_abs(f.take(k as int)) + txn_abs(f[k as int]) == txns_abs(
                        f.take(k + 1),
                    ));
                    assert(txns_abs(f.take(k + 1)) <= txns_abs(f));
                }
                let changes = update_balance(
                    &txns[ti],
                    acct.as_str(),
                    &mut running,
                    Ghost(txns_abs(f.take(k as int))),
                    Ghost(s_all),
                );
                let balance = clone_cm(&running);
                let txn_copy = crate::data::clone_transaction(&txns[ti]);
                let item = JournalItem { txn: txn_copy, balance, changes };
                proof {
                    assert(item@ == spec_item(f, opt_view(account), k as int));
                }
                items.push(item);
            },
            None => {
                let txn_copy = crate::data::clone_transaction(&txns[ti]);
                let balance: Vec<(String, Dec)> = Vec::new();
                let changes: Vec<(String, Dec)> = Vec::new();
                let item = JournalItem { txn: txn_copy, balance, changes };
                proof {
                    assert(cm_view(item.balance@) =~= Seq::<(Seq<char>, Dec)>::empty());
                    assert(cm_view(item.changes@) =~= Seq::<(Seq<char>, Dec)>::empty());
                    assert(item@ == spec_item(f, opt_view(account), k as int));
                }
                items.push(item);
            },
        }
        k = k + 1;
    }
    proof {
        assert(jviews(items@) =~= spec_items(f, opt_view(account), skip as int, cnt as int));
    }
    if old_first {
        (items, total)
    } else {
        let rev = reverse_items(items);
        proof {
            assert(jviews(rev@) =~= spec_items(
                f,
                opt_view(account),
                skip as int,
                cnt as int,
            ).reverse());
        }
        (rev, total)
    }
}

} // verus!
