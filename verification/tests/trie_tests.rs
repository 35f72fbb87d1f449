use lumi_report::data::{Amount, Position, SheetEntry, UnitCost};
use lumi_report::decimal::Dec;
use lumi_report::flatten::{balance_sheet_to_list, build_trie_table};
use lumi_report::trie::TrieOptions;

fn dec(mantissa: i128, scale: u32) -> Dec {
    Dec { mantissa, scale }
}

fn position(currency: &str, mantissa: i128, scale: u32) -> Position {
    Position {
        currency: currency.to_string(),
        number: dec(mantissa, scale),
        cost: None,
    }
}

fn entry(account: &str, positions: Vec<Position>) -> SheetEntry {
    SheetEntry { account: account.to_string(), closed: false, positions }
}

fn no_options() -> TrieOptions {
    TrieOptions { show_closed: None }
}

#[test]
fn assets_subtree_totals() {
    // Assets:Bank = 100 USD and Assets:Cash = 50 USD: the Assets row shows
    // 150.00, the children 100.00 and 50.00, Bank sorted before Cash.
    let sheet = vec![
        entry("Assets:Cash", vec![position("USD", 50, 0)]),
        entry("Assets:Bank", vec![position("USD", 100, 0)]),
    ];
    let table = build_trie_table(&sheet, "Assets", no_options()).unwrap();
    assert_eq!(table.currencies, vec!["USD".to_string()]);
    assert_eq!(table.rows.len(), 3);
    assert_eq!(table.rows[0].level, 0);
    assert_eq!(table.rows[0].name, "Assets");
    assert_eq!(table.rows[0].numbers, vec!["150.00".to_string()]);
    assert_eq!(table.rows[1].level, 1);
    assert_eq!(table.rows[1].name, "Bank");
    assert_eq!(table.rows[1].numbers, vec!["100.00".to_string()]);
    assert_eq!(table.rows[2].level, 1);
    assert_eq!(table.rows[2].name, "Cash");
    assert_eq!(table.rows[2].numbers, vec!["50.00".to_string()]);
}

#[test]
fn unknown_root_yields_nothing() {
    let sheet = vec![entry("Assets:Bank", vec![position("USD", 100, 0)])];
    assert!(build_trie_table(&sheet, "Income", no_options()).is_none());
}

#[test]
fn closed_accounts_are_skipped_unless_asked_for() {
    let mut closed = entry("Assets:Old", vec![position("USD", 9, 0)]);
    closed.closed = true;
    let sheet = vec![closed, entry("Assets:Bank", vec![position("USD", 1, 0)])];
    let hidden = build_trie_table(&sheet, "Assets", no_options()).unwrap();
    assert_eq!(hidden.rows.len(), 2);
    assert_eq!(hidden.rows[0].numbers, vec!["1.00".to_string()]);
    let shown =
        build_trie_table(&sheet, "Assets", TrieOptions { show_closed: Some(true) }).unwrap();
    assert_eq!(shown.rows.len(), 3);
    assert_eq!(shown.rows[0].numbers, vec!["10.00".to_string()]);
}

#[test]
fn cost_lots_are_valued_at_their_price() {
    // 2 units held at a unit cost of 3.50 USD appear as 7.00 USD.
    let sheet = vec![entry(
        "Assets:Broker",
        vec![Position {
            currency: "AAA".to_string(),
            number: dec(2, 0),
            cost: Some(UnitCost {
                amount: Amount { currency: "USD".to_string(), number: dec(350, 2) },
                date: "2020-01-01".to_string(),
            }),
        }],
    )];
    let table = build_trie_table(&sheet, "Assets", no_options()).unwrap();
    assert_eq!(table.currencies, vec!["USD".to_string()]);
    assert_eq!(table.rows[0].numbers, vec!["7.00".to_string()]);
    assert_eq!(table.rows[1].name, "Broker");
    assert_eq!(table.rows[1].numbers, vec!["7.00".to_string()]);
}

#[test]
fn zero_totals_show_empty_cells() {
    // Quantities that cancel to exactly zero render as empty cells; zero
    // positions contribute nothing.
    let sheet = vec![
        entry("Assets:Bank", vec![position("USD", 5, 0), position("EUR", 4, 0)]),
        entry("Assets:Cash", vec![position("USD", -5, 0), position("CHF", 0, 0)]),
    ];
    let table = build_trie_table(&sheet, "Assets", no_options()).unwrap();
    // the zero-quantity CHF position is never tracked as a currency
    assert_eq!(table.currencies, vec!["EUR".to_string(), "USD".to_string()]);
    assert_eq!(table.rows[0].name, "Assets");
    assert_eq!(
        table.rows[0].numbers,
        vec!["4.00".to_string(), String::new()]
    );
}

#[test]
fn currencies_are_sorted_lexicographically() {
    let sheet = vec![entry(
        "Assets:Bank",
        vec![
            position("USD", 1, 0),
            position("CHF", 1, 0),
            position("EUR", 1, 0),
        ],
    )];
    let table = build_trie_table(&sheet, "Assets", no_options()).unwrap();
    assert_eq!(
        table.currencies,
        vec!["CHF".to_string(), "EUR".to_string(), "USD".to_string()]
    );
}

#[test]
fn flattening_twice_yields_identical_rows() {
    let sheet = vec![
        entry("Assets:Cash", vec![position("USD", 50, 0)]),
        entry("Assets:Bank:Checking", vec![position("USD", 7, 0)]),
        entry("Assets:Bank", vec![position("EUR", 3, 0)]),
    ];
    let a = build_trie_table(&sheet, "Assets", no_options()).unwrap();
    let b = build_trie_table(&sheet, "Assets", no_options()).unwrap();
    assert_eq!(a.currencies, b.currencies);
    assert_eq!(a.rows.len(), b.rows.len());
    for (ra, rb) in a.rows.iter().zip(b.rows.iter()) {
        assert_eq!(ra.level, rb.level);
        assert_eq!(ra.name, rb.name);
        assert_eq!(ra.numbers, rb.numbers);
    }
}

#[test]
fn rows_walk_the_tree_in_preorder() {
    // A caller can rebuild full account paths from the rows with a
    // level-indexed stack: pop while the stack top's level is not below the
    // row's, then push.
    let sheet = vec![
        entry("Assets:Bank:Checking", vec![position("USD", 1, 0)]),
        entry("Assets:Bank:Savings", vec![position("USD", 2, 0)]),
        entry("Assets:Cash", vec![position("USD", 3, 0)]),
    ];
    let table = build_trie_table(&sheet, "Assets", no_options()).unwrap();
    let mut stack: Vec<(String, usize)> = Vec::new();
    let mut paths = Vec::new();
    for row in &table.rows {
        while let Some((_, top)) = stack.last() {
            if *top < row.level {
                break;
            }
            stack.pop();
        }
        stack.push((row.name.clone(), row.level));
        let full: Vec<&str> = stack.iter().map(|(s, _)| s.as_str()).collect();
        paths.push(full.join(":"));
    }
    assert_eq!(
        paths,
        vec![
            "Assets".to_string(),
            "Assets:Bank".to_string(),
            "Assets:Bank:Checking".to_string(),
            "Assets:Bank:Savings".to_string(),
            "Assets:Cash".to_string(),
        ]
    );
}

#[test]
fn sheet_list_keeps_only_nonzero_positions() {
    let sheet = vec![
        entry("Assets:Bank", vec![position("USD", 0, 2), position("EUR", 4, 0)]),
        entry("Equity:Open", vec![]),
    ];
    let list = balance_sheet_to_list(&sheet);
    assert_eq!(list.len(), 2);
    assert_eq!(list[0].0, "Assets:Bank");
    assert_eq!(list[0].1.len(), 1);
    assert_eq!(list[0].1[0].currency, "EUR");
    assert_eq!(list[1].0, "Equity:Open");
    assert!(list[1].1.is_empty());
}

#[test]
fn two_digit_cells_truncate_extra_digits() {
    // A quantity with more than two fractional digits renders with exactly
    // two.
    let sheet = vec![entry("Assets:Bank", vec![position("USD", 12345, 3)])];
    let table = build_trie_table(&sheet, "Assets", no_options()).unwrap();
    assert_eq!(table.rows[0].numbers, vec!["12.34".to_string()]);
}

#[test]
fn sheet_headroom_check() {
    let good = vec![entry("Assets:Bank", vec![position("USD", 100, 0)])];
    assert!(lumi_report::trie::sheet_fits_check(&good));
    // a cost valuation whose scales sum past 28 is not exact
    let bad = vec![entry(
        "Assets:Broker",
        vec![Position {
            currency: "AAA".to_string(),
            number: dec(2, 20),
            cost: Some(UnitCost {
                amount: Amount { currency: "USD".to_string(), number: dec(350, 20) },
                date: "2020-01-01".to_string(),
            }),
        }],
    )];
    assert!(!lumi_report::trie::sheet_fits_check(&bad));
}
