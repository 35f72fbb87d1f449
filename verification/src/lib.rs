//! Reporting engine for a ledger of financial transactions: an
//! account-hierarchy balance trie with subtree totals, a flattener that
//! turns a trie into render-ready rows, and a paginated journal with
//! running per-currency balances.

pub mod cmap;
pub mod data;
pub mod decimal;
pub mod flatten;
pub mod journal;
pub mod text;
pub mod trie;
