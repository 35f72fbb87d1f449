//! The trie flattener: an ordered depth-first walk of a balance trie that
//! yields one render-ready row per node, each cell formatted against a
//! shared, lexicographically sorted currency column list.

use vstd::prelude::*;

use crate::cmap::{cm_get, cm_view};
use crate::data::{Position, SheetEntry};
use crate::decimal::{Dec, two_digit_text_of, format_two_digits};
use crate::trie::{
    TrieNode, TrieOptions, node_get, numbers_at, node_local_ok, node_size, nodes_size, trie_wf,
    entry_views, sheet_fits, sheet_reaches, sheet_currency, sheet_numbers, entries_smax,
    strs_sorted, strs_contains, build_trie, lemma_ch_index_of_found, lemma_nodes_size_entry,
    lemma_entries_measures, lemma_sorted_distinct,
};


verus! {

/// One row of the flattened trie: its depth, its own path segment, and one
/// formatted cell per shared currency column.
pub struct TrieTableRow {
    pub level: usize,
    pub name: String,
    pub numbers: Vec<String>,
}

/// The mathematical content of a row.
pub ghost struct TrieTableRowV {
    pub level: int,
    pub name: Seq<char>,
    pub numbers: Seq<Seq<char>>,
}

impl View for TrieTableRow {
    type V = TrieTableRowV;

    open spec fn view(&self) -> TrieTableRowV {
        TrieTableRowV {
            level: self.level as int,
            name: self.name@,
            numbers: Seq::new(self.numbers@.len(), |i: int| self.numbers@[i]@),
        }
    }
}

/// The flattened trie: its rows in pre-order, and the shared currency
/// columns.
pub struct TrieTable {
    pub rows: Vec<TrieTableRow>,
    pub currencies: Vec<String>,
}

/// The mathematical content of a row slice.
pub open spec fn rows_views(rs: Seq<TrieTableRow>) -> Seq<TrieTableRowV> {
    Seq::new(rs.len(), |i: int| rs[i]@)
}

/// What one cell shows: nothing for an exact zero, else the quantity with
/// exactly two fractional digits.
pub open spec fn cell_of(nums: Seq<(Seq<char>, Dec)>, c: Seq<char>) -> Seq<char> {
    let d = cm_get(nums, c);
    if d.val() == 0 {
        Seq::empty()
    } else {
        two_digit_text_of(d.mantissa as int, d.scale as int)
    }
}

/// The row a node yields.
pub open spec fn row_of(n: TrieNode, name: Seq<char>, level: int, curs: Seq<Seq<char>>) -> TrieTableRowV {
    TrieTableRowV {
        level,
        name,
        numbers: Seq::new(curs.len(), |i: int| cell_of(cm_view(n.numbers@), curs[i])),
    }
}

/// The rows of a subtree, in pre-order: the node's own row, then each
/// child's rows in the order the children are stored, one level deeper.
pub open spec fn flatten_spec(n: TrieNode, name: Seq<char>, level: int, curs: Seq<Seq<char>>) -> Seq<
    TrieTableRowV,
>
    decreases n,
{
    seq![row_of(n, name, level, curs)] + flatten_children(n.nodes@, level + 1, curs)
}

/// The rows of a child list, first child first.
pub open spec fn flatten_children(
    ns: Seq<(String, TrieNode)>,
    level: int,
    curs: Seq<Seq<char>>,
) -> Seq<TrieTableRowV>
    decreases ns,
{
    if ns.len() == 0 {
        Seq::empty()
    } else {
        flatten_children(ns.drop_last(), level, curs) + flatten_spec(
            ns.last().1,
            ns.last().0@,
            level,
            curs,
        )
    }
}

/// A trie in order at any scale bound is in order at the largest.
pub proof fn lemma_trie_wf_widen(n: TrieNode, s: int)
    requires
        trie_wf(n, s),
        s <= 28,
    ensures
        trie_wf(n, 28),
{
    assert forall|path: Seq<Seq<char>>| true implies (#[trigger] node_get(n, path) matches Some(m)
        ==> node_local_ok(m, 28)) by {
        if node_get(n, path) is Some {
            assert(node_get(n, path) matches Some(m) ==> node_local_ok(m, s));
        }
    }
}

/// Appends the subtree's rows in pre-order.
#[verifier::loop_isolation(false)]
#[verifier::rlimit(100)]
fn flatten_into(
    node: &TrieNode,
    name: &str,
    level: usize,
    curs: &Vec<String>,
    out: &mut Vec<TrieTableRow>,
)
    requires
        trie_wf(*node, 28),
        level + node_size(*node) <= usize::MAX,
    ensures
        rows_views(final(out)@) == rows_views(old(out)@) + flatten_spec(
            *node,
            name@,
            level as int,
            curs.deep_view(),
        ),
    decreases node_size(*node),
{
    let ghost out0 = rows_views(out@);
    let ghost cv = curs.deep_view();
    proof {
        assert(node_get(*node, Seq::<Seq<char>>::empty()) == Some(*node));
        assert(node_local_ok(*node, 28));
        lemma_nodes_size_entry(node.nodes@);
    }
    let m = curs.len();
    let mut cells: Vec<String> = Vec::new();
    let mut i: usize = 0;
    while i < m
        invariant
            i <= m,
            m == curs@.len(),
            cells@.len() == i,
            forall|l: int|
                0 <= l < i ==> (#[trigger] cells@[l])@ == cell_of(cm_view(node.numbers@), cv[l]),
        decreases m - i,
    {
        proof {
            assert(cv[i as int] == curs@[i as int]@);
        }
        let looked = crate::cmap::cm_lookup(&node.numbers, curs[i].as_str());
        match looked {
            None => {
                proof {
                    let d = cm_get(cm_view(node.numbers@), cv[i as int]);
                    assert(d == (Dec { mantissa: 0 as i128, scale: 0 as u32 }));
                    crate::cmap::lemma_cm_get(cm_view(node.numbers@), cv[i as int], 28);
                }
                cells.push(String::new());
            },
            Some(d) => {
                proof {
                    crate::cmap::lemma_cm_get(cm_view(node.numbers@), cv[i as int], 28);
                    assert(d == cm_get(cm_view(node.numbers@), cv[i as int]));
                    assert(d.wf());
                }
                if d.is_zero() {
                    cells.push(String::new());
                } else {
                    cells.push(format_two_digits(d));
                }
            },
        }
        i = i + 1;
    }
    let row = TrieTableRow { level, name: name.to_owned(), numbers: cells };
    proof {
        assert(row@ == row_of(*node, name@, level as int, cv)) by {
            assert(row@.numbers =~= row_of(*node, name@, level as int, cv).numbers);
        }
    }
    out.push(row);
    proof {
        assert(flatten_children(node.nodes@.take(0), level + 1, cv) =~= Seq::<
            TrieTableRowV,
        >::empty());
        assert(rows_views(out@) =~= out0 + seq![row_of(*node, name@, level as int, cv)]
            + flatten_children(node.nodes@.take(0), level + 1, cv));
    }
    let nch = node.nodes.len();
    let mut j: usize = 0;
    while j < nch
        invariant
            j <= nch,
            nch == node.nodes@.len(),
            rows_views(out@) == out0 + seq![row_of(*node, name@, level as int, cv)]
                + flatten_children(node.nodes@.take(j as int), level + 1, cv),
        decreases nch - j,
    {
        let ghost child = node.nodes@[j as int].1;
        let ghost ckey = node.nodes@[j as int].0@;
        proof {
            // the child is a subtree: its order carries over
            crate::trie::lemma_sorted_distinct(node.nodes@);
            assert(forall|l: int|
                0 <= l < j ==> (#[trigger] node.nodes@[l]).0@ != ckey);
            lemma_ch_index_of_found(node.nodes@, ckey, j as int);
            assert forall|q: Seq<Seq<char>>| true implies (#[trigger] node_get(child, q)
                matches Some(mm) ==> node_local_ok(mm, 28)) by {
                if node_get(child, q) is Some {
                    let p = seq![ckey].add(q);
                    assert(p[0] == ckey && p.drop_first() =~= q);
                    assert(node_get(*node, p) == node_get(child, q));
                }
            }
            lemma_nodes_size_entry(node.nodes@);
            assert(node_size(child) <= nodes_size(node.nodes@));
        }
        flatten_into(&node.nodes[j].1, node.nodes[j].0.as_str(), level + 1, curs, out);
        proof {
            assert(node.nodes@.take(j + 1).drop_last() =~= node.nodes@.take(j as int));
            assert(node.nodes@.take(j + 1).last() == node.nodes@[j as int]);
            assert(rows_views(out@) =~= out0 + seq![row_of(*node, name@, level as int, cv)]
                + flatten_children(node.nodes@.take(j + 1), level + 1, cv));
        }
        j = j + 1;
    }
    proof {
        assert(node.nodes@.take(nch as int) =~= node.nodes@);
        assert(rows_views(out@) =~= out0 + flatten_spec(*node, name@, level as int, cv));
    }
}

/// Whether closed accounts are shown: only when asked for.
pub open spec fn spec_show_closed(o: Option<bool>) -> bool {
    match o {
        Some(b) => b,
        None => false,
    }
}

/// The hierarchical balance table for one root account: the trie is built
/// over the kept accounts, restricted to the subtree of the root segment,
/// and flattened in pre-order against the sorted currency columns. An
/// unknown root yields no table.
#[verifier::loop_isolation(false)]
#[verifier::rlimit(100)]
pub fn build_trie_table(sheet: &Vec<SheetEntry>, root_account: &str, options: TrieOptions) -> (r:
    Option<TrieTable>)
    requires
        sheet_fits(entry_views(sheet@)),
    ensures
        ({
            let es = entry_views(sheet@);
            let sc = spec_show_closed(options.show_closed);
            &&& (r is Some <==> sheet_reaches(es, root_account@, sc, seq![root_account@]))
            &&& (r matches Some(t) ==> {
                &&& strs_sorted(t.currencies.deep_view())
                &&& (forall|c: Seq<char>|
                    #[trigger] strs_contains(t.currencies.deep_view(), c) <==> sheet_currency(
                        es,
                        root_account@,
                        sc,
                        c,
                    ))
                &&& exists|sub: TrieNode|
                    {
                        &&& trie_wf(sub, 28)
                        &&& (forall|path: Seq<Seq<char>>|
                            #[trigger] node_get(sub, path) is Some <==> sheet_reaches(
                                es,
                                root_account@,
                                sc,
                                seq![root_account@].add(path),
                            ))
                        &&& (forall|path: Seq<Seq<char>>|
                            #[trigger] numbers_at(sub, path) == sheet_numbers(
                                es,
                                root_account@,
                                sc,
                                seq![root_account@].add(path),
                            ))
                        &&& rows_views(t.rows@) == flatten_spec(
                            sub,
                            root_account@,
                            0,
                            t.currencies.deep_view(),
                        )
                    }
            })
        }),
{
    let ghost es = entry_views(sheet@);
    let show_closed = match options.show_closed {
        Some(b) => b,
        None => false,
    };
    let ghost s = entries_smax(es);
    let (trie, currencies) = build_trie(sheet, root_account, show_closed);
    proof {
        assert(node_get(trie, Seq::<Seq<char>>::empty()) == Some(trie));
        assert(node_local_ok(trie, s));
    }
    let (j, found) = crate::trie::child_position(&trie.nodes, root_account);
    if !found {
        proof {
            let p = seq![root_account@];
            assert(p[0] == root_account@ && p.drop_first() =~= Seq::<Seq<char>>::empty());
            assert(node_get(trie, p) is None);
            assert(!sheet_reaches(es, root_account@, show_closed, p));
        }
        return None;
    }
    let ghost sub = trie.nodes@[j as int].1;
    proof {
        lemma_entries_measures(es);
        assert forall|q: Seq<Seq<char>>| true implies #[trigger] node_get(sub, q) == node_get(
            trie,
            seq![root_account@].add(q),
        ) by {
            let p = seq![root_account@].add(q);
            assert(p[0] == root_account@ && p.drop_first() =~= q);
        }
        assert(trie_wf(sub, s)) by {
            assert forall|q: Seq<Seq<char>>| true implies (#[trigger] node_get(sub, q)
                matches Some(mm) ==> node_local_ok(mm, s)) by {
                assert(node_get(sub, q) == node_get(trie, seq![root_account@].add(q)));
            }
        }
        lemma_trie_wf_widen(sub, s);
        lemma_nodes_size_entry(trie.nodes@);
        assert(node_size(sub) <= nodes_size(trie.nodes@));
        assert(0 + node_size(sub) <= usize::MAX);
    }
    let mut rows: Vec<TrieTableRow> = Vec::new();
    proof {
        assert(rows_views(rows@) =~= Seq::<TrieTableRowV>::empty());
    }
    flatten_into(&trie.nodes[j].1, root_account, 0, &currencies, &mut rows);
    proof {
        let sc = spec_show_closed(options.show_closed);
        assert(sc == show_closed);
        assert(rows_views(rows@) =~= flatten_spec(sub, root_account@, 0, currencies.deep_view()));
        let p = seq![root_account@];
        assert(p[0] == root_account@);
        assert(p.drop_first() =~= Seq::<Seq<char>>::empty());
        assert(crate::trie::ch_index_of(trie.nodes@, p[0]) == j as int);
        assert(node_get(trie, p) == node_get(sub, p.drop_first()));
        assert(node_get(sub, Seq::<Seq<char>>::empty()) == Some(sub));
        assert(node_get(trie, p) is Some);
        assert(sheet_reaches(es, root_account@, sc, p));
        assert(trie_wf(sub, 28));
        assert forall|path: Seq<Seq<char>>|
            #[trigger] node_get(sub, path) is Some <==> sheet_reaches(
                es,
                root_account@,
                sc,
                seq![root_account@].add(path),
            ) by {
            assert(node_get(sub, path) == node_get(trie, seq![root_account@].add(path)));
            assert(seq![root_account@].add(path).len() > 0);
        }
        assert forall|path: Seq<Seq<char>>|
            #[trigger] numbers_at(sub, path) == sheet_numbers(
                es,
                root_account@,
                sc,
                seq![root_account@].add(path),
            ) by {
            assert(node_get(sub, path) == node_get(trie, seq![root_account@].add(path)));
            assert(numbers_at(sub, path) == numbers_at(trie, seq![root_account@].add(path)));
        }
    }
    Some(TrieTable { rows, currencies })
}

/// The positions a position list keeps for display: the ones with a nonzero
/// quantity, in order.
pub open spec fn spec_nonzero(ps: Seq<crate::data::PositionV>) -> Seq<crate::data::PositionV>
    decreases ps.len(),
{
    if ps.len() == 0 {
        Seq::empty()
    } else {
        let pre = spec_nonzero(ps.drop_last());
        if ps.last().number.mantissa != 0 {
            pre.push(ps.last())
        } else {
            pre
        }
    }
}

/// The balance sheet as a per-account list of its nonzero positions.
#[verifier::loop_isolation(false)]
pub fn balance_sheet_to_list(sheet: &Vec<SheetEntry>) -> (r: Vec<(String, Vec<Position>)>)
    ensures
        r@.len() == sheet@.len(),
        forall|k: int|
            0 <= k < r@.len() ==> (#[trigger] r@[k]).0@ == sheet@[k]@.account
                && crate::trie::pos_views(r@[k].1@) == spec_nonzero(sheet@[k]@.positions),
{
    let n = sheet.len();
    let mut r: Vec<(String, Vec<Position>)> = Vec::new();
    let mut k: usize = 0;
    while k < n
        invariant
            k <= n,
            n == sheet@.len(),
            r@.len() == k,
            forall|l: int|
                0 <= l < k ==> (#[trigger] r@[l]).0@ == sheet@[l]@.account
                    && crate::trie::pos_views(r@[l].1@) == spec_nonzero(sheet@[l]@.positions),
        decreases n - k,
    {
        let entry = &sheet[k];
        let ghost pv = sheet@[k as int]@.positions;
        proof {
            assert(pv.take(0) =~= Seq::<crate::data::PositionV>::empty());
            assert(crate::trie::pos_views(Seq::<Position>::empty()) =~= Seq::<
                crate::data::PositionV,
            >::empty());
        }
        let m = entry.positions.len();
        let mut kept: Vec<Position> = Vec::new();
        let mut i: usize = 0;
        while i < m
            invariant
                i <= m,
                m == entry.positions@.len(),
                pv == sheet@[k as int]@.positions,
                entry == &sheet@[k as int],
                crate::trie::pos_views(kept@) == spec_nonzero(pv.take(i as int)),
            decreases m - i,
        {
            proof {
                assert(pv[i as int] == entry.positions@[i as int]@);
                assert(pv.take(i + 1).drop_last() =~= pv.take(i as int));
                assert(pv.take(i + 1).last() == pv[i as int]);
            }
            if entry.positions[i].number.mantissa != 0 {
                let p = crate::data::clone_position(&entry.positions[i]);
                kept.push(p);
                proof {
                    assert(crate::trie::pos_views(kept@) =~= spec_nonzero(pv.take(i + 1)));
                }
            }
            i = i + 1;
        }
        proof {
            assert(pv.take(m as int) =~= pv);
        }
        let account = entry.account.clone();
        r.push((account, kept));
        k = k + 1;
    }
    r
}

} // verus!
