use lumi_report::data::{Amount, Posting, Transaction, TxnFlag};
use lumi_report::decimal::Dec;
use lumi_report::journal::{account_journal, FilterOptions, JournalItem};

fn dec(mantissa: i128, scale: u32) -> Dec {
    Dec { mantissa, scale }
}

fn amount(currency: &str, mantissa: i128, scale: u32) -> Amount {
    Amount { currency: currency.to_string(), number: dec(mantissa, scale) }
}

fn posting(account: &str, currency: &str, mantissa: i128, scale: u32) -> Posting {
    Posting {
        account: account.to_string(),
        amount: amount(currency, mantissa, scale),
        cost: None,
        price: None,
    }
}

fn txn(date: &str, flag: TxnFlag, postings: Vec<Posting>) -> Transaction {
    Transaction {
        date: date.to_string(),
        flag,
        payee: String::new(),
        narration: String::new(),
        postings,
    }
}

fn options(
    entries: Option<usize>,
    page: Option<usize>,
    old_first: Option<bool>,
    account: Option<&str>,
) -> FilterOptions {
    FilterOptions {
        entries,
        page,
        old_first,
        account: account.map(|s| s.to_string()),
        time: None,
    }
}

/// A ledger of `n` transactions, the `i`-th moving `i + 1` USD into
/// `Assets:Bank` on day `i`.
fn ledger(n: usize) -> Vec<Transaction> {
    let mut txns = Vec::new();
    for i in 0..n {
        txns.push(txn(
            &format!("2021-{:03}", i),
            TxnFlag::Posted,
            vec![posting("Assets:Bank", "USD", (i + 1) as i128, 0)],
        ));
    }
    txns
}

fn balance_of(item: &JournalItem, currency: &str) -> Option<Dec> {
    item.balance.iter().find(|(c, _)| c == currency).map(|(_, d)| *d)
}

fn changes_of(item: &JournalItem, currency: &str) -> Option<Dec> {
    item.changes.iter().find(|(c, _)| c == currency).map(|(_, d)| *d)
}

#[test]
fn newest_first_page_one_of_120() {
    // 120 filtered transactions, entries 50, newest-first, page 1: the
    // window holds the most recent 50, displayed newest first.
    let txns = ledger(120);
    let (items, total) = account_journal(&txns, None, options(Some(50), Some(1), None, None));
    assert_eq!(total, 120);
    assert_eq!(items.len(), 50);
    assert_eq!(items[0].txn.date, "2021-119");
    assert_eq!(items[49].txn.date, "2021-070");
}

#[test]
fn newest_first_last_page_of_120() {
    // page 3 of 120 at 50 per page, newest-first: (page-1)*entries = 100 <
    // 120 so the page is not empty; skip = max(0, 120-150) = 0 and take =
    // (120-100) - 0 = 20: the oldest 20 transactions, newest of them first.
    let txns = ledger(120);
    let (items, total) = account_journal(&txns, None, options(Some(50), Some(3), None, None));
    assert_eq!(total, 120);
    assert_eq!(items.len(), 20);
    assert_eq!(items[0].txn.date, "2021-019");
    assert_eq!(items[19].txn.date, "2021-000");
}

#[test]
fn oldest_first_pages_tile_the_sequence() {
    // Concatenating all oldest-first pages walks the filtered sequence in
    // order, each transaction exactly once.
    let txns = ledger(13);
    let mut seen = Vec::new();
    for page in 1..=4 {
        let (items, total) =
            account_journal(&txns, None, options(Some(4), Some(page), Some(true), None));
        assert_eq!(total, 13);
        for item in items {
            seen.push(item.txn.date.clone());
        }
    }
    let expected: Vec<String> = txns.iter().map(|t| t.date.clone()).collect();
    assert_eq!(seen, expected);
}

#[test]
fn page_beyond_the_end_is_empty() {
    let txns = ledger(10);
    let (items, total) = account_journal(&txns, None, options(Some(50), Some(2), None, None));
    assert_eq!(total, 10);
    assert!(items.is_empty());
}

#[test]
fn malformed_paging_is_clamped() {
    // page 0 and entries 0 are clamped to 1, never rejected.
    let txns = ledger(5);
    let (items, total) = account_journal(&txns, None, options(Some(0), Some(0), Some(true), None));
    assert_eq!(total, 5);
    assert_eq!(items.len(), 1);
    assert_eq!(items[0].txn.date, "2021-000");
}

#[test]
fn running_balance_accumulates() {
    // With an account target the balance snapshots are the exact running
    // per-currency sums.
    let txns = ledger(3);
    let (items, total) = account_journal(
        &txns,
        Some("Assets".to_string()),
        options(None, None, Some(true), None),
    );
    assert_eq!(total, 3);
    assert_eq!(items.len(), 3);
    assert_eq!(balance_of(&items[0], "USD"), Some(dec(1, 0)));
    assert_eq!(balance_of(&items[1], "USD"), Some(dec(3, 0)));
    assert_eq!(balance_of(&items[2], "USD"), Some(dec(6, 0)));
    assert_eq!(changes_of(&items[2], "USD"), Some(dec(3, 0)));
}

#[test]
fn balance_carries_across_hidden_prefix() {
    // Newest-first on a later page: the hidden older transactions are
    // replayed so the visible balances are the true running sums.
    let txns = ledger(6);
    let (items, total) = account_journal(
        &txns,
        Some("Assets".to_string()),
        options(Some(2), Some(1), None, None),
    );
    assert_eq!(total, 6);
    assert_eq!(items.len(), 2);
    // displayed newest first: the last transaction's balance is 1+2+..+6
    assert_eq!(balance_of(&items[0], "USD"), Some(dec(21, 0)));
    assert_eq!(balance_of(&items[1], "USD"), Some(dec(15, 0)));
}

#[test]
fn page_boundary_balances_agree() {
    // The last row of an oldest-first page carries the balance the next
    // page's first row starts from.
    let txns = ledger(10);
    let acct = || Some("Assets".to_string());
    let (p1, _) = account_journal(&txns, acct(), options(Some(4), Some(1), Some(true), None));
    let (p2, _) = account_journal(&txns, acct(), options(Some(4), Some(2), Some(true), None));
    let last = balance_of(&p1[3], "USD").unwrap();
    let first = balance_of(&p2[0], "USD").unwrap();
    let first_changes = changes_of(&p2[0], "USD").unwrap();
    let last_dec = rust_decimal::Decimal::from_i128_with_scale(last.mantissa, last.scale);
    let first_dec = rust_decimal::Decimal::from_i128_with_scale(first.mantissa, first.scale);
    let ch_dec =
        rust_decimal::Decimal::from_i128_with_scale(first_changes.mantissa, first_changes.scale);
    assert_eq!(first_dec - ch_dec, last_dec);
}

#[test]
fn balance_assertion_is_neutral() {
    // Inserting a balance-assertion transaction changes no other row's
    // balance or changes; its own row shows empty changes and the running
    // balance untouched.
    let mut txns = ledger(4);
    let plain = account_journal(
        &txns,
        Some("Assets".to_string()),
        options(None, None, Some(true), None),
    );
    txns.insert(
        2,
        txn(
            "2021-001x",
            TxnFlag::Balance,
            vec![posting("Assets:Bank", "USD", 3, 0)],
        ),
    );
    let with_assertion = account_journal(
        &txns,
        Some("Assets".to_string()),
        options(None, None, Some(true), None),
    );
    assert_eq!(with_assertion.1, plain.1 + 1);
    let a = &plain.0;
    let b = &with_assertion.0;
    assert_eq!(balance_of(&b[0], "USD"), balance_of(&a[0], "USD"));
    assert_eq!(balance_of(&b[1], "USD"), balance_of(&a[1], "USD"));
    // the assertion's own row
    assert!(b[2].changes.is_empty());
    assert_eq!(balance_of(&b[2], "USD"), balance_of(&a[1], "USD"));
    // the rows after it are unchanged
    assert_eq!(balance_of(&b[3], "USD"), balance_of(&a[2], "USD"));
    assert_eq!(changes_of(&b[3], "USD"), changes_of(&a[2], "USD"));
    assert_eq!(balance_of(&b[4], "USD"), balance_of(&a[3], "USD"));
}

#[test]
fn account_filter_is_a_raw_prefix() {
    // The filter is a plain string prefix: an account named AssetsOther
    // also matches the filter "Assets".
    let txns = vec![
        txn(
            "2021-001",
            TxnFlag::Posted,
            vec![posting("AssetsOther", "USD", 5, 0)],
        ),
        txn(
            "2021-002",
            TxnFlag::Posted,
            vec![posting("Expenses:Food", "USD", 7, 0)],
        ),
    ];
    let (items, total) = account_journal(
        &txns,
        Some("Assets".to_string()),
        options(None, None, Some(true), None),
    );
    assert_eq!(total, 1);
    assert_eq!(items[0].txn.date, "2021-001");
}

#[test]
fn secondary_filter_narrows_without_balances() {
    // A query-level account filter narrows the sequence, but balances are
    // tracked only for a route-level account.
    let txns = vec![
        txn(
            "2021-001",
            TxnFlag::Posted,
            vec![posting("Assets:Bank", "USD", 5, 0)],
        ),
        txn(
            "2021-002",
            TxnFlag::Posted,
            vec![posting("Expenses:Food", "USD", 7, 0)],
        ),
    ];
    let (items, total) =
        account_journal(&txns, None, options(None, None, Some(true), Some("Expenses")));
    assert_eq!(total, 1);
    assert_eq!(items[0].txn.date, "2021-002");
    assert!(items[0].balance.is_empty());
    assert!(items[0].changes.is_empty());
}

#[test]
fn cost_postings_do_not_move_the_balance() {
    // A posting carrying a cost lot contributes no change to the running
    // balance.
    let mut with_cost = posting("Assets:Broker", "AAA", 2, 0);
    with_cost.cost = Some(lumi_report::data::UnitCost {
        amount: amount("USD", 350, 2),
        date: "2020-01-01".to_string(),
    });
    let txns = vec![txn("2021-001", TxnFlag::Posted, vec![
        with_cost,
        posting("Assets:Bank", "USD", -700, 2),
    ])];
    let (items, _) = account_journal(
        &txns,
        Some("Assets".to_string()),
        options(None, None, Some(true), None),
    );
    assert_eq!(changes_of(&items[0], "AAA"), None);
    assert_eq!(changes_of(&items[0], "USD"), Some(dec(-700, 2)));
}

#[test]
fn empty_ledger_yields_empty_journal() {
    let txns: Vec<Transaction> = Vec::new();
    let (items, total) = account_journal(&txns, None, options(None, None, None, None));
    assert_eq!(total, 0);
    assert!(items.is_empty());
}

#[test]
fn headroom_check_accepts_ordinary_ledgers() {
    assert!(lumi_report::journal::journal_fits_check(&ledger(200)));
}

#[test]
fn headroom_check_rejects_out_of_range_quantities() {
    // a mantissa past 96 bits is not representable
    let txns = vec![txn(
        "2021-001",
        TxnFlag::Posted,
        vec![posting("Assets:Bank", "USD", 1i128 << 100, 0)],
    )];
    assert!(!lumi_report::journal::journal_fits_check(&txns));
}
