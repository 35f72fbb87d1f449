//! The ledger snapshot as the reporting engine reads it: transactions with
//! their postings, the per-account balance-sheet positions, and the
//! diagnostics carried over from loading. Every quantity is an exact
//! decimal; dates, accounts and currencies are plain strings.

use vstd::prelude::*;

use crate::decimal::Dec;

verus! {

/// A transaction's flag.
#[derive(Clone, Copy, Debug, PartialEq, Eq, Structural)]
pub enum TxnFlag {
    /// An ordinary posted transaction.
    Posted,
    /// A balance assertion: it never contributes to running balances.
    Balance,
    /// A padding transaction.
    Pad,
    /// A pending transaction.
    Pending,
}

/// A quantity of one currency.
pub struct Amount {
    pub currency: String,
    pub number: Dec,
}

/// The mathematical content of an `Amount`.
pub ghost struct AmountV {
    pub currency: Seq<char>,
    pub number: Dec,
}

impl View for Amount {
    type V = AmountV;

    open spec fn view(&self) -> AmountV {
        AmountV { currency: self.currency@, number: self.number }
    }
}

/// A cost lot: the unit price a holding was acquired at, and when.
pub struct UnitCost {
    pub amount: Amount,
    pub date: String,
}

/// The mathematical content of a `UnitCost`.
pub ghost struct UnitCostV {
    pub amount: AmountV,
    pub date: Seq<char>,
}

impl View for UnitCost {
    type V = UnitCostV;

    open spec fn view(&self) -> UnitCostV {
        UnitCostV { amount: self.amount@, date: self.date@ }
    }
}

/// One leg of a transaction: an amount moved into or out of an account,
/// optionally valued at a cost lot or carrying a price.
pub struct Posting {
    pub account: String,
    pub amount: Amount,
    pub cost: Option<UnitCost>,
    pub price: Option<Amount>,
}

/// The mathematical content of a `Posting`.
pub ghost struct PostingV {
    pub account: Seq<char>,
    pub amount: AmountV,
    pub cost: Option<UnitCostV>,
    pub price: Option<AmountV>,
}

impl View for Posting {
    type V = PostingV;

    open spec fn view(&self) -> PostingV {
        PostingV {
            account: self.account@,
            amount: self.amount@,
            cost: match self.cost {
                Some(c) => Some(c@),
                None => None,
            },
            price: match self.price {
                Some(p) => Some(p@),
                None => None,
            },
        }
    }
}

/// A dated transaction with its postings, in the ledger's chronological
/// order.
pub struct Transaction {
    pub date: String,
    pub flag: TxnFlag,
    pub payee: String,
    pub narration: String,
    pub postings: Vec<Posting>,
}

/// The mathematical content of a `Transaction`.
pub ghost struct TxnV {
    pub date: Seq<char>,
    pub flag: TxnFlag,
    pub payee: Seq<char>,
    pub narration: Seq<char>,
    pub postings: Seq<PostingV>,
}

impl View for Transaction {
    type V = TxnV;

    open spec fn view(&self) -> TxnV {
        TxnV {
            date: self.date@,
            flag: self.flag,
            payee: self.payee@,
            narration: self.narration@,
            postings: Seq::new(self.postings@.len(), |i: int| self.postings@[i]@),
        }
    }
}

/// One nonzero balance-sheet position of an account.
pub struct Position {
    pub currency: String,
    pub number: Dec,
    pub cost: Option<UnitCost>,
}

/// The mathematical content of a `Position`.
pub ghost struct PositionV {
    pub currency: Seq<char>,
    pub number: Dec,
    pub cost: Option<UnitCostV>,
}

impl View for Position {
    type V = PositionV;

    open spec fn view(&self) -> PositionV {
        PositionV {
            currency: self.currency@,
            number: self.number,
            cost: match self.cost {
                Some(c) => Some(c@),
                None => None,
            },
        }
    }
}

/// One account of the balance sheet: its name, whether it has been closed,
/// and its positions.
pub struct SheetEntry {
    pub account: String,
    pub closed: bool,
    pub positions: Vec<Position>,
}

/// The mathematical content of a `SheetEntry`.
pub ghost struct SheetEntryV {
    pub account: Seq<char>,
    pub closed: bool,
    pub positions: Seq<PositionV>,
}

impl View for SheetEntry {
    type V = SheetEntryV;

    open spec fn view(&self) -> SheetEntryV {
        SheetEntryV {
            account: self.account@,
            closed: self.closed,
            positions: Seq::new(self.positions@.len(), |i: int| self.positions@[i]@),
        }
    }
}

/// The severity of a diagnostic from ledger loading.
#[derive(Clone, Copy, Debug, PartialEq, Eq, Structural)]
pub enum ErrorLevel {
    Error,
    Warning,
    Info,
}

/// Where in a source file a diagnostic points.
pub struct SrcLoc {
    pub file: String,
    pub line: u32,
    pub col: u32,
}

/// One diagnostic accumulated while the ledger was loaded. The engine
/// surfaces these verbatim and never interprets them.
pub struct LedgerError {
    pub level: ErrorLevel,
    pub msg: String,
    pub src: SrcLoc,
}

/// The moment the ledger snapshot was last refreshed.
pub struct RefreshTime {
    pub timestamp: i64,
}

/// An exact copy of an amount.
pub fn clone_amount(a: &Amount) -> (r: Amount)
    ensures
        r@ == a@,
{
    Amount { currency: a.currency.clone(), number: a.number }
}

/// An exact copy of a cost lot.
pub fn clone_unit_cost(c: &UnitCost) -> (r: UnitCost)
    ensures
        r@ == c@,
{
    UnitCost { amount: clone_amount(&c.amount), date: c.date.clone() }
}

/// An exact copy of a posting.
pub fn clone_posting(p: &Posting) -> (r: Posting)
    ensures
        r@ == p@,
{
    Posting {
        account: p.account.clone(),
        amount: clone_amount(&p.amount),
        cost: match &p.cost {
            Some(c) => Some(clone_unit_cost(c)),
            None => None,
        },
        price: match &p.price {
            Some(a) => Some(clone_amount(a)),
            None => None,
        },
    }
}

/// An exact copy of a position.
pub fn clone_position(p: &Position) -> (r: Position)
    ensures
        r@ == p@,
{
    Position {
        currency: p.currency.clone(),
        number: p.number,
        cost: match &p.cost {
            Some(c) => Some(clone_unit_cost(c)),
            None => None,
        },
    }
}

/// An exact copy of a transaction.
pub fn clone_transaction(t: &Transaction) -> (r: Transaction)
    ensures
        r@ == t@,
{
    let mut postings: Vec<Posting> = Vec::new();
    let n = t.postings.len();
    let mut i: usize = 0;
    while i < n
        invariant
            i <= n,
            n == t.postings@.len(),
            postings@.len() == i,
            forall|k: int| 0 <= k < i ==> postings@[k]@ == t.postings@[k]@,
        decreases n - i,
    {
        let p = clone_posting(&t.postings[i]);
        postings.push(p);
        i = i + 1;
    }
    let r = Transaction {
        date: t.date.clone(),
        flag: t.flag,
        payee: t.payee.clone(),
        narration: t.narration.clone(),
        postings,
    };
    proof {
        assert(r@.postings =~= t@.postings);
    }
    r
}

} // verus!
