//! The balance trie: the per-account holdings of the balance sheet, keyed
//! by colon-delimited account path segments, with every node holding the
//! aggregated cost-normalized totals of its whole subtree.

use vstd::prelude::*;

use crate::cmap::{
    abs_val, cm_abs, cm_scales, cm_view, cm_wf, cm_get, cm_index_of, cm_add, cm_add_all,
    spec_cm_add, spec_apply_changes, lemma_cm_get, lemma_cm_add, lemma_cm_abs_add,
    lemma_cm_abs_entry,
};
use crate::data::{Position, PositionV, SheetEntry, SheetEntryV};
use crate::decimal::{
    Dec, spec_mul, mul_fits, dec_mul, p96, pow10, lemma_mul_exact, lemma_add_fits_from_bound,
};
use crate::text::{
    lex_lt, spec_segments, split_account, str_eq, str_lt, lemma_lex_lt_irrefl, lemma_lex_lt_trans,
    lemma_lex_lt_connected,
};

verus! {

/// Options for building the trie table.
pub struct TrieOptions {
    pub show_closed: Option<bool>,
}

/// One node of the balance trie: its aggregated per-currency totals and its
/// children, keyed by path segment and kept in segment order.
pub struct TrieNode {
    pub numbers: Vec<(String, Dec)>,
    pub nodes: Vec<(String, TrieNode)>,
}

/// How many nodes a trie holds.
pub open spec fn node_size(n: TrieNode) -> nat
    decreases n,
{
    1 + nodes_size(n.nodes@)
}

/// How many nodes a child list holds.
pub open spec fn nodes_size(ns: Seq<(String, TrieNode)>) -> nat
    decreases ns,
{
    if ns.len() == 0 {
        0
    } else {
        node_size(ns.last().1) + nodes_size(ns.drop_last())
    }
}

/// The mathematical content of a sheet slice.
pub open spec fn entry_views(s: Seq<SheetEntry>) -> Seq<SheetEntryV> {
    Seq::new(s.len(), |i: int| s[i]@)
}

/// The currency a position is valued under: its cost lot's price currency
/// when it carries one, else its own.
pub open spec fn pos_key(p: PositionV) -> Seq<char> {
    match p.cost {
        Some(u) => u.amount.currency,
        None => p.currency,
    }
}

/// The quantity a position is valued at: unit price times quantity under a
/// cost lot, else the quantity itself.
pub open spec fn pos_val(p: PositionV) -> Dec {
    match p.cost {
        Some(u) => spec_mul(u.amount.number, p.number),
        None => p.number,
    }
}

/// The normalized currency map of an account's positions: every position
/// with a nonzero quantity contributes its valuation, in position order.
pub open spec fn spec_norm(ps: Seq<PositionV>) -> Seq<(Seq<char>, Dec)>
    decreases ps.len(),
{
    if ps.len() == 0 {
        Seq::empty()
    } else {
        let pre = spec_norm(ps.drop_last());
        if ps.last().number.mantissa != 0 {
            spec_cm_add(pre, pos_key(ps.last()), pos_val(ps.last()))
        } else {
            pre
        }
    }
}

/// The builder keeps an account when it is open (or closed accounts are
/// asked for) and its first path segment equals the requested root.
pub open spec fn included(e: SheetEntryV, root: Seq<char>, show_closed: bool) -> bool {
    (!e.closed || show_closed) && spec_segments(e.account)[0] == root
}

/// `p` is a prefix of the segment path `s`.
pub open spec fn is_prefix_seq(p: Seq<Seq<char>>, s: Seq<Seq<char>>) -> bool {
    p.len() <= s.len() && forall|i: int| 0 <= i < p.len() ==> p[i] == s[i]
}

/// The numbers map a node at `path` aggregates: the kept accounts whose
/// segment path extends `path` contribute their normalized maps, in sheet
/// order.
pub open spec fn sheet_numbers(
    es: Seq<SheetEntryV>,
    root: Seq<char>,
    show_closed: bool,
    path: Seq<Seq<char>>,
) -> Seq<(Seq<char>, Dec)>
    decreases es.len(),
{
    if es.len() == 0 {
        Seq::empty()
    } else {
        let pre = sheet_numbers(es.drop_last(), root, show_closed, path);
        if included(es.last(), root, show_closed) && is_prefix_seq(
            path,
            spec_segments(es.last().account),
        ) {
            spec_apply_changes(pre, spec_norm(es.last().positions))
        } else {
            pre
        }
    }
}

/// Some kept account's segment path extends `path`.
pub open spec fn sheet_reaches(
    es: Seq<SheetEntryV>,
    root: Seq<char>,
    show_closed: bool,
    path: Seq<Seq<char>>,
) -> bool {
    exists|j: int|
        0 <= j < es.len() && included(#[trigger] es[j], root, show_closed) && is_prefix_seq(
            path,
            spec_segments(es[j].account),
        )
}

/// Some kept account holds a position valued under currency `c`.
pub open spec fn sheet_currency(
    es: Seq<SheetEntryV>,
    root: Seq<char>,
    show_closed: bool,
    c: Seq<char>,
) -> bool {
    exists|j: int|
        0 <= j < es.len() && included(#[trigger] es[j], root, show_closed) && cm_index_of(
            spec_norm(es[j].positions),
            c,
        ) >= 0
}

/// A position's quantities are representable, and its cost valuation is
/// exact.
pub open spec fn position_ok(p: PositionV) -> bool {
    p.number.wf() && match p.cost {
        Some(u) => u.amount.number.wf() && mul_fits(u.amount.number, p.number),
        None => true,
    }
}

/// Every position of the list is in order.
pub open spec fn positions_ok(ps: Seq<PositionV>) -> bool {
    forall|i: int| 0 <= i < ps.len() ==> position_ok(#[trigger] ps[i])
}

/// Every position of the sheet is in order.
pub open spec fn sheet_wf(es: Seq<SheetEntryV>) -> bool {
    forall|j: int| 0 <= j < es.len() ==> positions_ok((#[trigger] es[j]).positions)
}

/// The summed magnitude of a position list's valuations.
pub open spec fn positions_abs(ps: Seq<PositionV>) -> int
    decreases ps.len(),
{
    if ps.len() == 0 {
        0
    } else {
        positions_abs(ps.drop_last()) + abs_val(pos_val(ps.last()))
    }
}

/// The largest scale among a position list's valuations.
pub open spec fn positions_smax(ps: Seq<PositionV>) -> int
    decreases ps.len(),
{
    if ps.len() == 0 {
        0
    } else {
        let r = positions_smax(ps.drop_last());
        let x = pos_val(ps.last()).scale as int;
        if x > r {
            x
        } else {
            r
        }
    }
}

/// The summed magnitude of the sheet's valuations.
pub open spec fn entries_abs(es: Seq<SheetEntryV>) -> int
    decreases es.len(),
{
    if es.len() == 0 {
        0
    } else {
        entries_abs(es.drop_last()) + positions_abs(es.last().positions)
    }
}

/// The largest scale among the sheet's valuations.
pub open spec fn entries_smax(es: Seq<SheetEntryV>) -> int
    decreases es.len(),
{
    if es.len() == 0 {
        0
    } else {
        let r = entries_smax(es.drop_last());
        let x = positions_smax(es.last().positions);
        if x > r {
            x
        } else {
            r
        }
    }
}

/// How many path segments the sheet holds in total.
pub open spec fn sheet_paths(es: Seq<SheetEntryV>) -> int
    decreases es.len(),
{
    if es.len() == 0 {
        0
    } else {
        sheet_paths(es.drop_last()) + spec_segments(es.last().account).len()
    }
}

/// The whole sheet's valuations are exact and leave enough headroom that no
/// aggregated per-currency total can outgrow a 96-bit mantissa, and the
/// trie it builds fits in memory.
pub open spec fn sheet_fits(es: Seq<SheetEntryV>) -> bool {
    &&& sheet_wf(es)
    &&& entries_abs(es) < p96() * pow10((28 - entries_smax(es)) as nat)
    &&& sheet_paths(es) + 1 <= usize::MAX
}

/// Position valuations are representable; magnitudes are nonnegative, grow
/// stepwise along prefixes and never pass the whole; scales stay under the
/// list's maximum, which is at most 28.
pub proof fn lemma_positions_measures(ps: Seq<PositionV>)
    ensures
        positions_abs(ps) >= 0,
        positions_smax(ps) >= 0,
        positions_ok(ps) ==> positions_smax(ps) <= 28,
        positions_ok(ps) ==> forall|k: int| 0 <= k < ps.len() ==> (#[trigger] pos_val(ps[k])).wf(),
        forall|k: int|
            0 <= k < ps.len() ==> positions_abs(#[trigger] ps.take(k + 1)) == positions_abs(
                ps.take(k),
            ) + abs_val(pos_val(ps[k])),
        forall|k: int|
            0 <= k <= ps.len() ==> positions_abs(#[trigger] ps.take(k)) <= positions_abs(ps),
        forall|k: int|
            0 <= k < ps.len() ==> (#[trigger] pos_val(ps[k])).scale <= positions_smax(ps),
    decreases ps.len(),
{
    if ps.len() > 0 {
        lemma_positions_measures(ps.drop_last());
        assert(forall|k: int|
            0 <= k < ps.len() - 1 ==> #[trigger] ps.drop_last()[k] == ps[k]);
        if positions_ok(ps) {
            assert(positions_ok(ps.drop_last()));
            assert(position_ok(ps[ps.len() - 1]));
            if ps.last().cost is Some {
                lemma_mul_exact(ps.last().cost->Some_0.amount.number, ps.last().number);
            }
            assert(pos_val(ps.last()).wf());
            assert forall|k: int| 0 <= k < ps.len() implies (#[trigger] pos_val(ps[k])).wf() by {
                if k < ps.len() - 1 {
                    assert(ps.drop_last()[k] == ps[k]);
                } else {
                    assert(ps[k] == ps.last());
                }
            }
        }
        assert forall|k: int|
            0 <= k < ps.len() implies positions_abs(#[trigger] ps.take(k + 1)) == positions_abs(
            ps.take(k),
        ) + abs_val(pos_val(ps[k])) by {
            assert(ps.take(k + 1).drop_last() =~= ps.take(k));
            assert(ps.take(k + 1).last() == ps[k]);
        }
        assert forall|k: int|
            0 <= k <= ps.len() implies positions_abs(#[trigger] ps.take(k)) <= positions_abs(
            ps,
        ) by {
            if k == ps.len() {
                assert(ps.take(k) =~= ps);
            } else {
                assert(ps.take(k) =~= ps.drop_last().take(k));
            }
        }
        assert forall|k: int|
            0 <= k < ps.len() implies (#[trigger] pos_val(ps[k])).scale <= positions_smax(ps) by {
            if k < ps.len() - 1 {
                assert(ps.drop_last()[k] == ps[k]);
            } else {
                assert(ps[k] == ps.last());
            }
        }
    }
}

/// The sheet-level analogue of `lemma_positions_measures`, and the segment
/// count's nonnegativity.
pub proof fn lemma_entries_measures(es: Seq<SheetEntryV>)
    ensures
        entries_abs(es) >= 0,
        entries_smax(es) >= 0,
        sheet_paths(es) >= 0,
        sheet_wf(es) ==> entries_smax(es) <= 28,
        forall|k: int|
            0 <= k < es.len() ==> entries_abs(#[trigger] es.take(k + 1)) == entries_abs(es.take(k))
                + positions_abs(es[k].positions),
        forall|k: int| 0 <= k <= es.len() ==> entries_abs(#[trigger] es.take(k)) <= entries_abs(es),
        forall|k: int|
            0 <= k < es.len() ==> positions_smax((#[trigger] es[k]).positions) <= entries_smax(es),
        forall|k: int|
            0 <= k < es.len() ==> sheet_paths(#[trigger] es.take(k + 1)) == sheet_paths(es.take(k))
                + spec_segments(es[k].account).len(),
        forall|k: int| 0 <= k <= es.len() ==> sheet_paths(#[trigger] es.take(k)) <= sheet_paths(es),
    decreases es.len(),
{
    if es.len() > 0 {
        lemma_entries_measures(es.drop_last());
        lemma_positions_measures(es.last().positions);
        crate::text::lemma_segments_len(es.last().account);
        assert(forall|k: int|
            0 <= k < es.len() - 1 ==> #[trigger] es.drop_last()[k] == es[k]);
        if sheet_wf(es) {
            assert(sheet_wf(es.drop_last()));
            assert(positions_ok(es[es.len() - 1].positions));
        }
        assert forall|k: int|
            0 <= k < es.len() implies entries_abs(#[trigger] es.take(k + 1)) == entries_abs(
            es.take(k),
        ) + positions_abs(es[k].positions) by {
            assert(es.take(k + 1).drop_last() =~= es.take(k));
            assert(es.take(k + 1).last() == es[k]);
        }
        assert forall|k: int|
            0 <= k <= es.len() implies entries_abs(#[trigger] es.take(k)) <= entries_abs(es) by {
            if k == es.len() {
                assert(es.take(k) =~= es);
            } else {
                assert(es.take(k) =~= es.drop_last().take(k));
            }
        }
        assert forall|k: int|
            0 <= k < es.len() implies positions_smax((#[trigger] es[k]).positions) <= entries_smax(
            es,
        ) by {
            if k < es.len() - 1 {
                assert(es.drop_last()[k] == es[k]);
            } else {
                assert(es[k] == es.last());
            }
        }
        assert forall|k: int|
            0 <= k < es.len() implies sheet_paths(#[trigger] es.take(k + 1)) == sheet_paths(
            es.take(k),
        ) + spec_segments(es[k].account).len() by {
            assert(es.take(k + 1).drop_last() =~= es.take(k));
            assert(es.take(k + 1).last() == es[k]);
        }
        assert forall|k: int|
            0 <= k <= es.len() implies sheet_paths(#[trigger] es.take(k)) <= sheet_paths(es) by {
            if k == es.len() {
                assert(es.take(k) =~= es);
            } else {
                assert(es.take(k) =~= es.drop_last().take(k));
            }
        }
    }
}

/// A normalized map is well formed, keeps its scales under the positions'
/// maximum, and weighs no more than the positions it came from.
pub proof fn lemma_norm(ps: Seq<PositionV>, s: int)
    requires
        positions_ok(ps),
        positions_smax(ps) <= s,
        0 <= s <= 28,
        positions_abs(ps) < p96() * pow10((28 - s) as nat),
    ensures
        cm_wf(spec_norm(ps)),
        cm_scales(spec_norm(ps), s),
        cm_abs(spec_norm(ps)) <= positions_abs(ps),
    decreases ps.len(),
{
    lemma_positions_measures(ps);
    if ps.len() > 0 {
        let pre = ps.drop_last();
        assert(positions_ok(pre) && positions_smax(pre) <= s && positions_abs(pre) <= positions_abs(
            ps,
        )) by {
            assert(pre =~= ps.take(ps.len() - 1));
            assert(forall|k: int| 0 <= k < pre.len() ==> #[trigger] pre[k] == ps[k]);
        }
        lemma_norm(pre, s);
        if ps.last().number.mantissa != 0 {
            let d = pos_val(ps.last());
            let key = pos_key(ps.last());
            assert(ps[ps.len() - 1] == ps.last());
            assert(d.wf() && d.scale <= s);
            lemma_cm_get(spec_norm(pre), key, s);
            lemma_cm_abs_entry(spec_norm(pre));
            lemma_add_fits_from_bound(
                cm_get(spec_norm(pre), key),
                d,
                s,
                positions_abs(ps),
            );
            lemma_cm_add(spec_norm(pre), key, d, s);
            lemma_cm_abs_add(spec_norm(pre), key, d, s);
        }
    }
}

/// The first child index holding the given segment, or -1.
pub open spec fn ch_index_of(ns: Seq<(String, TrieNode)>, k: Seq<char>) -> int
    decreases ns.len(),
{
    if ns.len() == 0 {
        -1
    } else if ns[0].0@ == k {
        0
    } else {
        let r = ch_index_of(ns.drop_first(), k);
        if r < 0 {
            -1
        } else {
            r + 1
        }
    }
}

/// Where `ch_index_of` points: at the first child with the segment, or
/// nowhere exactly when the segment is absent.
pub proof fn lemma_ch_index_of(ns: Seq<(String, TrieNode)>, k: Seq<char>)
    ensures
        ch_index_of(ns, k) == -1 ==> forall|l: int| 0 <= l < ns.len() ==> ns[l].0@ != k,
        ch_index_of(ns, k) != -1 ==> {
            let i = ch_index_of(ns, k);
            &&& 0 <= i < ns.len()
            &&& ns[i].0@ == k
            &&& forall|l: int| 0 <= l < i ==> ns[l].0@ != k
        },
    decreases ns.len(),
{
    if ns.len() > 0 && ns[0].0@ != k {
        lemma_ch_index_of(ns.drop_first(), k);
        let r = ch_index_of(ns.drop_first(), k);
        if r == -1 {
            assert forall|l: int| 0 <= l < ns.len() implies ns[l].0@ != k by {
                if l > 0 {
                    assert(ns.drop_first()[l - 1] == ns[l]);
                }
            }
        } else {
            assert(ns.drop_first()[r] == ns[r + 1]);
            assert forall|l: int| 0 <= l < r + 1 implies ns[l].0@ != k by {
                if l > 0 {
                    assert(ns.drop_first()[l - 1] == ns[l]);
                }
            }
        }
    }
}

/// A child index whose entry carries the segment, with no earlier
/// occurrence, is where `ch_index_of` points.
pub proof fn lemma_ch_index_of_found(ns: Seq<(String, TrieNode)>, k: Seq<char>, i: int)
    requires
        0 <= i < ns.len(),
        ns[i].0@ == k,
        forall|l: int| 0 <= l < i ==> ns[l].0@ != k,
    ensures
        ch_index_of(ns, k) == i,
    decreases ns.len(),
{
    if i > 0 {
        assert(forall|l: int|
            0 <= l < ns.drop_first().len() ==> #[trigger] ns.drop_first()[l] == ns[l + 1]);
        lemma_ch_index_of_found(ns.drop_first(), k, i - 1);
    }
}

/// The node a segment path leads to.
pub open spec fn node_get(n: TrieNode, path: Seq<Seq<char>>) -> Option<TrieNode>
    decreases path.len(),
{
    if path.len() == 0 {
        Some(n)
    } else {
        let i = ch_index_of(n.nodes@, path[0]);
        if i >= 0 {
            node_get(n.nodes@[i].1, path.drop_first())
        } else {
            None
        }
    }
}

/// The numbers map at a path; empty where no node stands.
pub open spec fn numbers_at(n: TrieNode, path: Seq<Seq<char>>) -> Seq<(Seq<char>, Dec)> {
    match node_get(n, path) {
        Some(m) => cm_view(m.numbers@),
        None => Seq::empty(),
    }
}

/// One node in order: a well-formed numbers map within the scale bound, and
/// children strictly sorted by segment.
pub open spec fn node_local_ok(n: TrieNode, s: int) -> bool {
    &&& cm_wf(cm_view(n.numbers@))
    &&& cm_scales(cm_view(n.numbers@), s)
    &&& forall|i: int, j: int|
        0 <= i < j < n.nodes@.len() ==> lex_lt(n.nodes@[i].0@, n.nodes@[j].0@)
}

/// Every node of the trie is in order.
pub open spec fn trie_wf(n: TrieNode, s: int) -> bool {
    forall|path: Seq<Seq<char>>|
        #[trigger] node_get(n, path) matches Some(m) ==> node_local_ok(m, s)
}

/// Every node's numbers map weighs at most `b`.
pub open spec fn trie_bounded(n: TrieNode, b: int) -> bool {
    forall|path: Seq<Seq<char>>|
        #[trigger] node_get(n, path) matches Some(m) ==> cm_abs(cm_view(m.numbers@)) <= b
}

/// Node counts are positive and children are counted within the whole.
pub proof fn lemma_nodes_size_entry(ns: Seq<(String, TrieNode)>)
    ensures
        nodes_size(ns) >= 0,
        forall|i: int| 0 <= i < ns.len() ==> node_size((#[trigger] ns[i]).1) <= nodes_size(ns),
    decreases ns.len(),
{
    if ns.len() > 0 {
        lemma_nodes_size_entry(ns.drop_last());
        assert(forall|i: int|
            0 <= i < ns.len() - 1 ==> #[trigger] ns[i] == ns.drop_last()[i]);
    }
}

/// Replacing one child moves the node count by the difference of the two
/// subtrees' counts.
proof fn lemma_nodes_size_update(ns: Seq<(String, TrieNode)>, i: int, e: (String, TrieNode))
    requires
        0 <= i < ns.len(),
    ensures
        nodes_size(ns.update(i, e)) == nodes_size(ns) - node_size(ns[i].1) + node_size(e.1),
    decreases ns.len(),
{
    if i == ns.len() - 1 {
        assert(ns.update(i, e).drop_last() =~= ns.drop_last());
        assert(ns.update(i, e).last() == e);
    } else {
        assert(ns.update(i, e).drop_last() =~= ns.drop_last().update(i, e));
        assert(ns.update(i, e).last() == ns.last());
        lemma_nodes_size_update(ns.drop_last(), i, e);
    }
}

/// Inserting a child adds its subtree's count.
proof fn lemma_nodes_size_insert(ns: Seq<(String, TrieNode)>, i: int, e: (String, TrieNode))
    requires
        0 <= i <= ns.len(),
    ensures
        nodes_size(ns.insert(i, e)) == nodes_size(ns) + node_size(e.1),
    decreases ns.len(),
{
    if i == ns.len() {
        assert(ns.insert(i, e).drop_last() =~= ns);
        assert(ns.insert(i, e).last() == e);
    } else {
        assert(ns.insert(i, e).drop_last() =~= ns.drop_last().insert(i, e));
        assert(ns.insert(i, e).last() == ns.last());
        lemma_nodes_size_insert(ns.drop_last(), i, e);
    }
}

/// Walking one segment into the trie lands in the matching child's
/// subtree.
proof fn lemma_subtree(n: TrieNode, k: Seq<char>, i: int)
    requires
        0 <= i < n.nodes@.len(),
        ch_index_of(n.nodes@, k) == i,
    ensures
        forall|q: Seq<Seq<char>>|
            node_get(n.nodes@[i].1, q) == #[trigger] node_get(n, seq![k].add(q)),
{
    assert forall|q: Seq<Seq<char>>|
        node_get(n.nodes@[i].1, q) == #[trigger] node_get(n, seq![k].add(q)) by {
        let p = seq![k].add(q);
        assert(p.len() == 1 + q.len());
        assert(p[0] == k);
        assert(p.drop_first() =~= q);
    }
}

/// Where the given segment stands among a node's sorted children: the
/// position of the matching child, or the position a new child belongs at.
#[verifier::loop_isolation(false)]
pub(crate) fn child_position(nodes: &Vec<(String, TrieNode)>, key: &str) -> (r: (usize, bool))
    requires
        forall|i: int, j: int|
            0 <= i < j < nodes@.len() ==> lex_lt(nodes@[i].0@, nodes@[j].0@),
    ensures
        r.0 <= nodes@.len(),
        forall|l: int| 0 <= l < r.0 ==> lex_lt((#[trigger] nodes@[l]).0@, key@),
        r.1 == (r.0 < nodes@.len() && nodes@[r.0 as int].0@ == key@),
        !r.1 && r.0 < nodes@.len() ==> lex_lt(key@, nodes@[r.0 as int].0@),
        r.1 ==> ch_index_of(nodes@, key@) == r.0 as int,
        !r.1 ==> ch_index_of(nodes@, key@) == -1,
{
    let n = nodes.len();
    let mut j: usize = 0;
    while j < n
        invariant
            j <= n,
            n == nodes@.len(),
            forall|l: int| 0 <= l < j ==> lex_lt((#[trigger] nodes@[l]).0@, key@),
        decreases n - j,
    {
        if !str_lt(nodes[j].0.as_str(), key) {
            // first entry not below the key: it is the key's place
            let eq = str_eq(nodes[j].0.as_str(), key);
            proof {
                lemma_lex_lt_connected(nodes@[j as int].0@, key@);
                if eq {
                    lemma_ch_index_of_found(nodes@, key@, j as int);
                } else {
                    lemma_ch_index_of(nodes@, key@);
                    if ch_index_of(nodes@, key@) != -1 {
                        let i = ch_index_of(nodes@, key@);
                        if i < j {
                            lemma_lex_lt_irrefl(key@);
                        } else if i > j {
                            lemma_lex_lt_trans(key@, nodes@[j as int].0@, nodes@[i].0@);
                            lemma_lex_lt_irrefl(key@);
                        }
                        assert(false);
                    }
                }
            }
            return (j, eq);
        }
        j = j + 1;
    }
    proof {
        lemma_ch_index_of(nodes@, key@);
        if ch_index_of(nodes@, key@) != -1 {
            let i = ch_index_of(nodes@, key@);
            lemma_lex_lt_irrefl(key@);
            assert(false);
        }
    }
    (n, false)
}

/// Merges an account's normalized map into this node and, on demand, into
/// the chain of children named by the remaining path segments: every node
/// the path visits absorbs the whole map.
#[verifier::loop_isolation(false)]
#[verifier::rlimit(100)]
fn insert_account(
    node: &mut TrieNode,
    segs: &Vec<String>,
    idx: usize,
    norm: &Vec<(String, Dec)>,
    Ghost(s): Ghost<int>,
    Ghost(b): Ghost<int>,
)
    requires
        idx <= segs@.len(),
        cm_wf(cm_view(norm@)),
        cm_scales(cm_view(norm@), s),
        0 <= s <= 28,
        trie_wf(*old(node), s),
        trie_bounded(*old(node), b),
        0 <= b,
        b + cm_abs(cm_view(norm@)) < p96() * pow10((28 - s) as nat),
    ensures
        trie_wf(*final(node), s),
        trie_bounded(*final(node), b + cm_abs(cm_view(norm@))),
        node_size(*final(node)) <= node_size(*old(node)) + (segs@.len() - idx),
        forall|p: Seq<Seq<char>>|
            #![trigger node_get(*final(node), p)]
            if is_prefix_seq(p, segs.deep_view().skip(idx as int)) {
                node_get(*final(node), p) is Some && numbers_at(*final(node), p)
                    == spec_apply_changes(numbers_at(*old(node), p), cm_view(norm@))
            } else {
                node_get(*final(node), p) == node_get(*old(node), p)
            },
        forall|p: Seq<Seq<char>>|
            #![trigger node_get(*final(node), p)]
            node_get(*final(node), p) is Some <==> (node_get(*old(node), p) is Some
                || is_prefix_seq(p, segs.deep_view().skip(idx as int))),
    decreases segs@.len() - idx,
{
    let ghost oldn = *node;
    let ghost normv = cm_view(norm@);
    let ghost rem = segs.deep_view().skip(idx as int);
    proof {
        assert(node_get(oldn, Seq::<Seq<char>>::empty()) == Some(oldn));
        assert(node_local_ok(oldn, s));
        assert(cm_abs(cm_view(oldn.numbers@)) <= b);
        lemma_cm_abs_entry(normv);
    }
    cm_add_all(&mut node.numbers, norm, Ghost(s));
    if idx < segs.len() {
        let ghost k = segs@[idx as int]@;
        proof {
            assert(rem[0] == k);
        }
        let (j, found) = child_position(&node.nodes, segs[idx].as_str());
        if found {
            let ghost oldchild = node.nodes@[j as int].1;
            proof {
                lemma_subtree(oldn, k, j as int);
                assert forall|q: Seq<Seq<char>>| true implies (#[trigger] node_get(oldchild, q)
                    matches Some(m) ==> node_local_ok(m, s) && cm_abs(cm_view(m.numbers@))
                    <= b) by {
                    assert(node_get(oldn, seq![k].add(q)) == node_get(oldchild, q));
                }
                lemma_nodes_size_entry(oldn.nodes@);
            }
            insert_account(&mut node.nodes[j].1, segs, idx + 1, norm, Ghost(s), Ghost(b));
            let ghost newchild = node.nodes@[j as int].1;
            let ghost fin = *node;
            proof {
                assert(fin.nodes@ =~= oldn.nodes@.update(j as int, (oldn.nodes@[j as int].0, newchild)));
                assert(segs.deep_view().skip(idx + 1) =~= rem.drop_first());
                lemma_insert_frame_update(oldn, fin, oldchild, newchild, k, j as int, normv, s, b, rem, segs.deep_view().skip(idx + 1));
                lemma_nodes_size_update(oldn.nodes@, j as int, (oldn.nodes@[j as int].0, newchild));
            }
        } else {
            let mut fresh = TrieNode { numbers: Vec::new(), nodes: Vec::new() };
            proof {
                lemma_fresh_node(fresh, s);
                assert(cm_view(fresh.numbers@) =~= Seq::<(Seq<char>, Dec)>::empty());
            }
            insert_account(&mut fresh, segs, idx + 1, norm, Ghost(s), Ghost(b));
            let ghost freshdone = fresh;
            let key_string = segs[idx].clone();
            node.nodes.insert(j, (key_string, fresh));
            let ghost fin = *node;
            proof {
                assert(fin.nodes@ =~= oldn.nodes@.insert(j as int, (fin.nodes@[j as int].0, freshdone)));
                assert(fin.nodes@[j as int].0@ == k);
                assert(segs.deep_view().skip(idx + 1) =~= rem.drop_first());
                lemma_insert_frame_insert(oldn, fin, freshdone, k, j as int, normv, s, b, rem, segs.deep_view().skip(idx + 1));
                lemma_nodes_size_insert(oldn.nodes@, j as int, (fin.nodes@[j as int].0, freshdone));
            }
        }
    } else {
        proof {
            let fin = *node;
            assert(rem =~= Seq::<Seq<char>>::empty());
            assert(fin.nodes@ =~= oldn.nodes@);
            assert forall|p: Seq<Seq<char>>| true implies #[trigger] node_get(fin, p) == (if p.len()
                == 0 {
                Some(fin)
            } else {
                node_get(oldn, p)
            }) by {
                if p.len() > 0 {
                    assert(ch_index_of(fin.nodes@, p[0]) == ch_index_of(oldn.nodes@, p[0]));
                }
            }
            assert forall|p: Seq<Seq<char>>| true implies (#[trigger] node_get(fin, p)
                matches Some(m) ==> node_local_ok(m, s) && cm_abs(cm_view(m.numbers@)) <= b
                + cm_abs(normv)) by {
                lemma_cm_abs_entry(normv);
                if p.len() != 0 {
                    assert(node_get(oldn, p) == node_get(fin, p));
                }
            }
        }
    }
}

/// Replacing one child's subtree without touching its segment leaves every
/// child lookup index unchanged.
proof fn lemma_ch_index_of_update(ns: Seq<(String, TrieNode)>, i: int, e: (String, TrieNode), c: Seq<char>)
    requires
        0 <= i < ns.len(),
        e.0@ == ns[i].0@,
    ensures
        ch_index_of(ns.update(i, e), c) == ch_index_of(ns, c),
    decreases ns.len(),
{
    if ns.len() > 0 {
        if i == 0 {
            assert(ns.update(i, e).drop_first() =~= ns.drop_first());
            assert(ns.update(i, e)[0] == e);
        } else {
            assert(ns.update(i, e)[0] == ns[0]);
            assert(ns.update(i, e).drop_first() =~= ns.drop_first().update(i - 1, e));
            lemma_ch_index_of_update(ns.drop_first(), i - 1, e, c);
        }
    }
}

/// Sorted children have pairwise distinct segments.
pub proof fn lemma_sorted_distinct(ns: Seq<(String, TrieNode)>)
    requires
        forall|i: int, j: int| 0 <= i < j < ns.len() ==> lex_lt(ns[i].0@, ns[j].0@),
    ensures
        forall|i: int, j: int| 0 <= i < ns.len() && 0 <= j < ns.len() && i != j ==> (#[trigger] ns[i]).0@ != (#[trigger] ns[j]).0@,
{
    assert forall|i: int, j: int|
        0 <= i < ns.len() && 0 <= j < ns.len() && i != j implies (#[trigger] ns[i]).0@ != (
    #[trigger] ns[j]).0@ by {
        if i < j {
            if ns[i].0@ == ns[j].0@ {
                lemma_lex_lt_irrefl(ns[i].0@);
            }
        } else {
            if ns[i].0@ == ns[j].0@ {
                lemma_lex_lt_irrefl(ns[i].0@);
            }
        }
    }
}

/// The whole-trie effect of merging into an existing child: every path
/// within the remaining segments absorbed the map, every other path is
/// untouched, and order, bounds and existence carry over.
#[verifier::rlimit(100)]
proof fn lemma_insert_frame_update(
    oldn: TrieNode,
    fin: TrieNode,
    oldchild: TrieNode,
    newchild: TrieNode,
    k: Seq<char>,
    j: int,
    normv: Seq<(Seq<char>, Dec)>,
    s: int,
    b: int,
    rem: Seq<Seq<char>>,
    rem1: Seq<Seq<char>>,
)
    requires
        0 <= j < oldn.nodes@.len(),
        oldn.nodes@[j].0@ == k,
        ch_index_of(oldn.nodes@, k) == j,
        oldn.nodes@[j].1 == oldchild,
        fin.nodes@ == oldn.nodes@.update(j, (oldn.nodes@[j].0, newchild)),
        cm_view(fin.numbers@) == spec_apply_changes(cm_view(oldn.numbers@), normv),
        cm_wf(cm_view(fin.numbers@)),
        cm_scales(cm_view(fin.numbers@), s),
        cm_abs(cm_view(fin.numbers@)) <= b + cm_abs(normv),
        rem.len() > 0,
        rem[0] == k,
        rem1 == rem.drop_first(),
        trie_wf(oldn, s),
        trie_bounded(oldn, b),
        trie_wf(newchild, s),
        trie_bounded(newchild, b + cm_abs(normv)),
        forall|q: Seq<Seq<char>>|
            #![trigger node_get(newchild, q)]
            if is_prefix_seq(q, rem1) {
                node_get(newchild, q) is Some && numbers_at(newchild, q) == spec_apply_changes(
                    numbers_at(oldchild, q),
                    normv,
                )
            } else {
                node_get(newchild, q) == node_get(oldchild, q)
            },
        forall|q: Seq<Seq<char>>|
            #![trigger node_get(newchild, q)]
            node_get(newchild, q) is Some <==> (node_get(oldchild, q) is Some || is_prefix_seq(
                q,
                rem1,
            )),
        0 <= s <= 28,
        0 <= b,
    ensures
        trie_wf(fin, s),
        trie_bounded(fin, b + cm_abs(normv)),
        forall|p: Seq<Seq<char>>|
            #![trigger node_get(fin, p)]
            if is_prefix_seq(p, rem) {
                node_get(fin, p) is Some && numbers_at(fin, p) == spec_apply_changes(
                    numbers_at(oldn, p),
                    normv,
                )
            } else {
                node_get(fin, p) == node_get(oldn, p)
            },
        forall|p: Seq<Seq<char>>|
            #![trigger node_get(fin, p)]
            node_get(fin, p) is Some <==> (node_get(oldn, p) is Some || is_prefix_seq(p, rem)),
{
    lemma_cm_abs_entry(normv);
    assert(node_get(oldn, Seq::<Seq<char>>::empty()) == Some(oldn));
    assert(node_local_ok(oldn, s));
    lemma_sorted_distinct(oldn.nodes@);
    assert(fin.nodes@.len() == oldn.nodes@.len());
    assert(forall|l: int|
        0 <= l < fin.nodes@.len() && l != j ==> #[trigger] fin.nodes@[l] == oldn.nodes@[l]);
    assert(fin.nodes@[j].0 == oldn.nodes@[j].0 && fin.nodes@[j].1 == newchild);
    assert forall|c: Seq<char>| true implies #[trigger] ch_index_of(fin.nodes@, c) == ch_index_of(
        oldn.nodes@,
        c,
    ) by {
        lemma_ch_index_of_update(oldn.nodes@, j, (oldn.nodes@[j].0, newchild), c);
    }
    // walk every path once and name what it reaches on each side
    assert forall|p: Seq<Seq<char>>| p.len() > 0 && p[0] == k implies #[trigger] node_get(fin, p)
        == node_get(newchild, p.drop_first()) && node_get(oldn, p) == node_get(
        oldchild,
        p.drop_first(),
    ) by {
        assert(ch_index_of(oldn.nodes@, p[0]) == j);
    }
    assert forall|p: Seq<Seq<char>>| p.len() > 0 && p[0] != k implies #[trigger] node_get(fin, p)
        == node_get(oldn, p) by {
        let i = ch_index_of(oldn.nodes@, p[0]);
        lemma_ch_index_of(oldn.nodes@, p[0]);
        if i >= 0 {
            assert(i != j) by {
                assert(oldn.nodes@[i].0@ == p[0]);
            }
            assert(fin.nodes@[i] == oldn.nodes@[i]);
        }
    }
    assert forall|p: Seq<Seq<char>>|
        p.len() > 0 && p[0] == k implies is_prefix_seq(p, rem) == is_prefix_seq(
        p.drop_first(),
        rem1,
    ) by {
        let q = p.drop_first();
        if is_prefix_seq(p, rem) {
            assert(forall|i: int| 0 <= i < q.len() ==> q[i] == p[i + 1] && rem1[i] == rem[i + 1]);
        }
        if is_prefix_seq(q, rem1) {
            assert(forall|i: int| 1 <= i < p.len() ==> p[i] == q[i - 1] && rem[i] == rem1[i - 1]);
        }
    }
    assert forall|p: Seq<Seq<char>>| true implies ({
        &&& (if is_prefix_seq(p, rem) {
            node_get(fin, p) is Some && numbers_at(fin, p) == spec_apply_changes(
                numbers_at(oldn, p),
                normv,
            )
        } else {
            #[trigger] node_get(fin, p) == node_get(oldn, p)
        })
        &&& (node_get(fin, p) is Some <==> (node_get(oldn, p) is Some || is_prefix_seq(p, rem)))
    }) by {
        if p.len() == 0 {
            assert(node_get(fin, p) == Some(fin));
            assert(node_get(oldn, p) == Some(oldn));
            assert(is_prefix_seq(p, rem));
        } else if p[0] == k {
            let q = p.drop_first();
            assert(node_get(fin, p) == node_get(newchild, q));
            assert(node_get(oldn, p) == node_get(oldchild, q));
        } else {
            assert(node_get(fin, p) == node_get(oldn, p));
            assert(!is_prefix_seq(p, rem));
        }
    }
    assert forall|p: Seq<Seq<char>>| true implies (#[trigger] node_get(fin, p) matches Some(m)
        ==> node_local_ok(m, s) && cm_abs(cm_view(m.numbers@)) <= b + cm_abs(normv)) by {
        if node_get(fin, p) is Some {
            if p.len() == 0 {
                assert(node_get(fin, p) == Some(fin));
                assert forall|x: int, y: int|
                    0 <= x < y < fin.nodes@.len() implies lex_lt(
                    fin.nodes@[x].0@,
                    fin.nodes@[y].0@,
                ) by {
                    assert(fin.nodes@[x].0 == oldn.nodes@[x].0);
                    assert(fin.nodes@[y].0 == oldn.nodes@[y].0);
                }
            } else if p[0] == k {
                assert(node_get(fin, p) == node_get(newchild, p.drop_first()));
            } else {
                assert(node_get(oldn, p) == node_get(fin, p));
            }
        }
    }
}

/// The whole-trie effect of inserting a fresh child chain: the remaining
/// path exists afresh holding the map alone, every old path is untouched,
/// and order, bounds and existence carry over.
#[verifier::rlimit(100)]
proof fn lemma_insert_frame_insert(
    oldn: TrieNode,
    fin: TrieNode,
    freshdone: TrieNode,
    k: Seq<char>,
    j: int,
    normv: Seq<(Seq<char>, Dec)>,
    s: int,
    b: int,
    rem: Seq<Seq<char>>,
    rem1: Seq<Seq<char>>,
)
    requires
        0 <= j <= oldn.nodes@.len(),
        ch_index_of(oldn.nodes@, k) == -1,
        forall|l: int| 0 <= l < j ==> lex_lt((#[trigger] oldn.nodes@[l]).0@, k),
        j < oldn.nodes@.len() ==> lex_lt(k, oldn.nodes@[j].0@),
        fin.nodes@ == oldn.nodes@.insert(j, (fin.nodes@[j].0, freshdone)),
        fin.nodes@[j].0@ == k,
        cm_view(fin.numbers@) == spec_apply_changes(cm_view(oldn.numbers@), normv),
        cm_wf(cm_view(fin.numbers@)),
        cm_scales(cm_view(fin.numbers@), s),
        cm_abs(cm_view(fin.numbers@)) <= b + cm_abs(normv),
        rem.len() > 0,
        rem[0] == k,
        rem1 == rem.drop_first(),
        trie_wf(oldn, s),
        trie_bounded(oldn, b),
        trie_wf(freshdone, s),
        trie_bounded(freshdone, b + cm_abs(normv)),
        forall|q: Seq<Seq<char>>|
            #[trigger] node_get(freshdone, q) is Some <==> is_prefix_seq(q, rem1),
        forall|q: Seq<Seq<char>>|
            is_prefix_seq(q, rem1) ==> #[trigger] numbers_at(freshdone, q) == spec_apply_changes(
                Seq::<(Seq<char>, Dec)>::empty(),
                normv,
            ),
        0 <= s <= 28,
        0 <= b,
    ensures
        trie_wf(fin, s),
        trie_bounded(fin, b + cm_abs(normv)),
        forall|p: Seq<Seq<char>>|
            #![trigger node_get(fin, p)]
            if is_prefix_seq(p, rem) {
                node_get(fin, p) is Some && numbers_at(fin, p) == spec_apply_changes(
                    numbers_at(oldn, p),
                    normv,
                )
            } else {
                node_get(fin, p) == node_get(oldn, p)
            },
        forall|p: Seq<Seq<char>>|
            #![trigger node_get(fin, p)]
            node_get(fin, p) is Some <==> (node_get(oldn, p) is Some || is_prefix_seq(p, rem)),
{
    lemma_cm_abs_entry(normv);
    assert(node_get(oldn, Seq::<Seq<char>>::empty()) == Some(oldn));
    assert(node_local_ok(oldn, s));
    lemma_ch_index_of(oldn.nodes@, k);
    assert(forall|l: int| 0 <= l < oldn.nodes@.len() ==> (#[trigger] oldn.nodes@[l]).0@ != k);
    assert(fin.nodes@.len() == oldn.nodes@.len() + 1);
    assert(forall|l: int| 0 <= l < j ==> #[trigger] fin.nodes@[l] == oldn.nodes@[l]);
    assert(forall|l: int|
        j < l < fin.nodes@.len() ==> #[trigger] fin.nodes@[l] == oldn.nodes@[l - 1]);
    assert(fin.nodes@[j].1 == freshdone);
    // where each segment lands after the insertion
    assert(ch_index_of(fin.nodes@, k) == j) by {
        lemma_ch_index_of_found(fin.nodes@, k, j);
    }
    assert forall|c: Seq<char>| c != k implies #[trigger] ch_index_of(fin.nodes@, c) == (if ch_index_of(
        oldn.nodes@,
        c,
    ) < j || ch_index_of(oldn.nodes@, c) == -1 {
        ch_index_of(oldn.nodes@, c)
    } else {
        ch_index_of(oldn.nodes@, c) + 1
    }) by {
        let i = ch_index_of(oldn.nodes@, c);
        lemma_ch_index_of(oldn.nodes@, c);
        if i == -1 {
            lemma_ch_index_of(fin.nodes@, c);
            if ch_index_of(fin.nodes@, c) != -1 {
                let i2 = ch_index_of(fin.nodes@, c);
                assert(fin.nodes@[i2].0@ == c);
                if i2 < j {
                    assert(oldn.nodes@[i2].0@ == c);
                } else if i2 > j {
                    assert(oldn.nodes@[i2 - 1].0@ == c);
                }
                assert(false);
            }
        } else if i < j {
            lemma_ch_index_of_found(fin.nodes@, c, i);
        } else {
            assert(fin.nodes@[i + 1].0@ == c);
            assert forall|l: int| 0 <= l < i + 1 implies (#[trigger] fin.nodes@[l]).0@ != c by {
                if l < j {
                    assert(fin.nodes@[l] == oldn.nodes@[l]);
                } else if l > j {
                    assert(fin.nodes@[l] == oldn.nodes@[l - 1]);
                }
            }
            lemma_ch_index_of_found(fin.nodes@, c, i + 1);
        }
    }
    assert forall|p: Seq<Seq<char>>| p.len() > 0 && p[0] == k implies #[trigger] node_get(fin, p)
        == node_get(freshdone, p.drop_first()) && node_get(oldn, p) == None::<TrieNode> by {
        assert(ch_index_of(fin.nodes@, p[0]) == j);
        assert(ch_index_of(oldn.nodes@, p[0]) == -1);
    }
    assert forall|p: Seq<Seq<char>>| p.len() > 0 && p[0] != k implies #[trigger] node_get(fin, p)
        == node_get(oldn, p) by {
        let i = ch_index_of(oldn.nodes@, p[0]);
        lemma_ch_index_of(oldn.nodes@, p[0]);
        if i >= 0 {
            if i < j {
                assert(fin.nodes@[i] == oldn.nodes@[i]);
            } else {
                assert(fin.nodes@[i + 1] == oldn.nodes@[i]);
            }
        }
    }
    assert forall|p: Seq<Seq<char>>|
        p.len() > 0 && p[0] == k implies is_prefix_seq(p, rem) == is_prefix_seq(
        p.drop_first(),
        rem1,
    ) by {
        let q = p.drop_first();
        if is_prefix_seq(p, rem) {
            assert(forall|i: int| 0 <= i < q.len() ==> q[i] == p[i + 1] && rem1[i] == rem[i + 1]);
        }
        if is_prefix_seq(q, rem1) {
            assert(forall|i: int| 1 <= i < p.len() ==> p[i] == q[i - 1] && rem[i] == rem1[i - 1]);
        }
    }
    assert forall|p: Seq<Seq<char>>| true implies ({
        &&& (if is_prefix_seq(p, rem) {
            node_get(fin, p) is Some && numbers_at(fin, p) == spec_apply_changes(
                numbers_at(oldn, p),
                normv,
            )
        } else {
            #[trigger] node_get(fin, p) == node_get(oldn, p)
        })
        &&& (node_get(fin, p) is Some <==> (node_get(oldn, p) is Some || is_prefix_seq(p, rem)))
    }) by {
        if p.len() == 0 {
            assert(node_get(fin, p) == Some(fin));
            assert(node_get(oldn, p) == Some(oldn));
            assert(is_prefix_seq(p, rem));
        } else if p[0] == k {
            let q = p.drop_first();
            assert(node_get(fin, p) == node_get(freshdone, q));
            assert(node_get(oldn, p) == None::<TrieNode>);
            assert(numbers_at(oldn, p) =~= Seq::<(Seq<char>, Dec)>::empty());
            if is_prefix_seq(p, rem) {
                assert(is_prefix_seq(q, rem1));
                assert(node_get(freshdone, q) is Some);
                assert(numbers_at(fin, p) == numbers_at(freshdone, q));
            } else {
                assert(!is_prefix_seq(q, rem1));
                assert(!(node_get(freshdone, q) is Some));
                assert(node_get(fin, p) == None::<TrieNode>);
            }
        } else {
            assert(node_get(fin, p) == node_get(oldn, p));
            assert(!is_prefix_seq(p, rem));
        }
    }
    assert forall|p: Seq<Seq<char>>| true implies (#[trigger] node_get(fin, p) matches Some(m)
        ==> node_local_ok(m, s) && cm_abs(cm_view(m.numbers@)) <= b + cm_abs(normv)) by {
        if node_get(fin, p) is Some {
        if p.len() == 0 {
            assert(node_get(fin, p) == Some(fin));
            assert forall|x: int, y: int|
                0 <= x < y < fin.nodes@.len() implies lex_lt(fin.nodes@[x].0@, fin.nodes@[y].0@) by {
                if y < j {
                    assert(fin.nodes@[x] == oldn.nodes@[x] && fin.nodes@[y] == oldn.nodes@[y]);
                } else if y == j {
                    assert(fin.nodes@[x] == oldn.nodes@[x]);
                } else if x < j {
                    assert(fin.nodes@[x] == oldn.nodes@[x] && fin.nodes@[y] == oldn.nodes@[y - 1]);
                    assert(x < y - 1);
                } else if x == j {
                    assert(fin.nodes@[y] == oldn.nodes@[y - 1]);
                    assert(y - 1 >= j);
                    if y - 1 > j {
                        lemma_lex_lt_trans(k, oldn.nodes@[j].0@, oldn.nodes@[y - 1].0@);
                    }
                } else {
                    assert(fin.nodes@[x] == oldn.nodes@[x - 1] && fin.nodes@[y] == oldn.nodes@[y
                        - 1]);
                }
            }
        } else if p[0] == k {
            assert(node_get(fin, p) == node_get(freshdone, p.drop_first()));
        } else {
            assert(node_get(oldn, p) == node_get(fin, p));
        }
        }
    }
}

/// A node with no totals and no children is in order, holds nothing, and
/// answers only the empty path.
proof fn lemma_fresh_node(n: TrieNode, s: int)
    requires
        n.numbers@.len() == 0,
        n.nodes@.len() == 0,
        0 <= s <= 28,
    ensures
        trie_wf(n, s),
        trie_bounded(n, 0),
        node_size(n) == 1,
        forall|p: Seq<Seq<char>>| #[trigger] node_get(n, p) is Some <==> p.len() == 0,
        forall|p: Seq<Seq<char>>| p.len() == 0 ==> #[trigger] node_get(n, p) == Some(n),
        cm_view(n.numbers@) =~= Seq::<(Seq<char>, Dec)>::empty(),
{
    assert forall|p: Seq<Seq<char>>| true implies #[trigger] node_get(n, p) == (if p.len() == 0 {
        Some(n)
    } else {
        None::<TrieNode>
    }) by {
        if p.len() > 0 {
            assert(ch_index_of(n.nodes@, p[0]) == -1);
        }
    }
    assert(cm_view(n.numbers@) =~= Seq::<(Seq<char>, Dec)>::empty());
}

/// The mathematical content of a position slice.
pub open spec fn pos_views(ps: Seq<Position>) -> Seq<PositionV> {
    Seq::new(ps.len(), |i: int| ps[i]@)
}

/// The normalized currency map of one account's positions.
#[verifier::loop_isolation(false)]
fn normalize_positions(positions: &Vec<Position>, Ghost(s): Ghost<int>) -> (norm: Vec<
    (String, Dec),
>)
    requires
        positions_ok(pos_views(positions@)),
        positions_smax(pos_views(positions@)) <= s,
        0 <= s <= 28,
        positions_abs(pos_views(positions@)) < p96() * pow10((28 - s) as nat),
    ensures
        cm_view(norm@) == spec_norm(pos_views(positions@)),
        cm_wf(cm_view(norm@)),
        cm_scales(cm_view(norm@), s),
        cm_abs(cm_view(norm@)) <= positions_abs(pos_views(positions@)),
{
    let ghost pv = pos_views(positions@);
    proof {
        lemma_positions_measures(pv);
        assert(pv.take(0) =~= Seq::<PositionV>::empty());
    }
    let mut norm: Vec<(String, Dec)> = Vec::new();
    proof {
        assert(cm_view(norm@) =~= Seq::<(Seq<char>, Dec)>::empty());
    }
    let n = positions.len();
    let mut i: usize = 0;
    while i < n
        invariant
            i <= n,
            n == positions@.len(),
            cm_view(norm@) == spec_norm(pv.take(i as int)),
            cm_wf(cm_view(norm@)),
            cm_scales(cm_view(norm@), s),
            cm_abs(cm_view(norm@)) <= positions_abs(pv.take(i as int)),
        decreases n - i,
    {
        let ghost normv = cm_view(norm@);
        let p = &positions[i];
        proof {
            assert(pv[i as int] == positions@[i as int]@);
            assert(pv.take(i + 1).drop_last() =~= pv.take(i as int));
            assert(pv.take(i + 1).last() == pv[i as int]);
        }
        if p.number.mantissa != 0 {
            let ghost d = pos_val(pv[i as int]);
            let ghost key = pos_key(pv[i as int]);
            proof {
                assert(position_ok(pv[i as int]));
                assert(d.wf() && d.scale <= s);
                lemma_cm_get(normv, key, s);
                lemma_cm_abs_entry(normv);
                lemma_add_fits_from_bound(cm_get(normv, key), d, s, positions_abs(pv));
                lemma_cm_add(normv, key, d, s);
                lemma_cm_abs_add(normv, key, d, s);
            }
            match &p.cost {
                Some(u) => {
                    let v = dec_mul(u.amount.number, p.number);
                    cm_add(&mut norm, u.amount.currency.as_str(), v);
                },
                None => {
                    cm_add(&mut norm, p.currency.as_str(), p.number);
                },
            }
        }
        i = i + 1;
    }
    proof {
        assert(pv.take(n as int) =~= pv);
    }
    norm
}

/// The list is strictly ordered.
pub open spec fn strs_sorted(ss: Seq<Seq<char>>) -> bool {
    forall|i: int, j: int| 0 <= i < j < ss.len() ==> lex_lt(ss[i], ss[j])
}

/// The list holds the given string.
pub open spec fn strs_contains(ss: Seq<Seq<char>>, c: Seq<char>) -> bool {
    exists|i: int| 0 <= i < ss.len() && ss[i] == c
}

/// Puts a currency into the ordered set, keeping it ordered and free of
/// duplicates.
#[verifier::loop_isolation(false)]
fn insert_currency(curs: &mut Vec<String>, key: &str)
    requires
        strs_sorted(old(curs).deep_view()),
    ensures
        strs_sorted(final(curs).deep_view()),
        forall|c: Seq<char>|
            #[trigger] strs_contains(final(curs).deep_view(), c) == (strs_contains(
                old(curs).deep_view(),
                c,
            ) || c == key@),
{
    let ghost oldv = curs.deep_view();
    let n = curs.len();
    let mut j: usize = 0;
    proof {
        assert(oldv.len() == n);
        assert(forall|l: int| 0 <= l < n ==> #[trigger] oldv[l] == curs@[l]@);
    }
    while j < n
        invariant
            j <= n,
            n == curs@.len(),
            curs.deep_view() == oldv,
            forall|l: int| 0 <= l < j ==> lex_lt(#[trigger] oldv[l], key@),
        decreases n - j,
    {
        if !str_lt(curs[j].as_str(), key) {
            break ;
        }
        j = j + 1;
    }
    if j < n {
        if str_eq(curs[j].as_str(), key) {
            proof {
                assert(strs_contains(oldv, key@)) by {
                    assert(oldv[j as int] == key@);
                }
                assert forall|c: Seq<char>|
                    #[trigger] strs_contains(curs.deep_view(), c) == (strs_contains(oldv, c) || c
                        == key@) by {}
            }
            return ;
        }
    }
    proof {
        if j < n {
            lemma_lex_lt_connected(oldv[j as int], key@);
        }
    }
    let key_string = key.to_owned();
    curs.insert(j, key_string);
    proof {
        let newv = curs.deep_view();
        assert(newv.len() == oldv.len() + 1);
        assert(newv[j as int] == key@);
        assert(forall|l: int| 0 <= l < j ==> #[trigger] newv[l] == oldv[l]);
        assert(forall|l: int| j < l < newv.len() ==> #[trigger] newv[l] == oldv[l - 1]);
        assert forall|x: int, y: int| 0 <= x < y < newv.len() implies lex_lt(newv[x], newv[y]) by {
            if y < j {
            } else if y == j {
                assert(newv[x] == oldv[x]);
            } else if x < j {
                assert(newv[x] == oldv[x] && newv[y] == oldv[y - 1]);
                assert(x < y - 1);
            } else if x == j {
                assert(newv[y] == oldv[y - 1]);
                assert(y - 1 >= j);
                if y - 1 > j {
                    lemma_lex_lt_trans(key@, oldv[j as int], oldv[y - 1]);
                }
            } else {
                assert(newv[x] == oldv[x - 1] && newv[y] == oldv[y - 1]);
            }
        }
        assert forall|c: Seq<char>|
            #[trigger] strs_contains(newv, c) == (strs_contains(oldv, c) || c == key@) by {
            if strs_contains(oldv, c) {
                let l = choose|l: int| 0 <= l < oldv.len() && oldv[l] == c;
                if l < j {
                    assert(newv[l] == c);
                } else {
                    assert(newv[l + 1] == c);
                }
            }
            if strs_contains(newv, c) && c != key@ {
                let l = choose|l: int| 0 <= l < newv.len() && newv[l] == c;
                if l < j {
                    assert(oldv[l] == c);
                } else if l > j {
                    assert(oldv[l - 1] == c);
                }
            }
        }
    }
}

/// The set of currencies a map names is what its lookup finds.
proof fn lemma_cm_index_exists(m: Seq<(Seq<char>, Dec)>, c: Seq<char>)
    ensures
        (cm_index_of(m, c) >= 0) == (exists|l: int| 0 <= l < m.len() && (#[trigger] m[l]).0 == c),
{
    crate::cmap::lemma_cm_index_of(m, c);
    if cm_index_of(m, c) >= 0 {
        assert(m[cm_index_of(m, c)].0 == c);
    }
}

/// Extending the sheet by one account extends reach, numbers and the
/// currency set by exactly that account's part.
proof fn lemma_sheet_step(
    es: Seq<SheetEntryV>,
    root: Seq<char>,
    show_closed: bool,
    k: int,
)
    requires
        0 <= k < es.len(),
    ensures
        forall|path: Seq<Seq<char>>|
            #[trigger] sheet_reaches(es.take(k + 1), root, show_closed, path) == (sheet_reaches(
                es.take(k),
                root,
                show_closed,
                path,
            ) || (included(es[k], root, show_closed) && is_prefix_seq(
                path,
                spec_segments(es[k].account),
            ))),
        forall|path: Seq<Seq<char>>|
            #[trigger] sheet_numbers(es.take(k + 1), root, show_closed, path) == (if included(
                es[k],
                root,
                show_closed,
            ) && is_prefix_seq(path, spec_segments(es[k].account)) {
                spec_apply_changes(
                    sheet_numbers(es.take(k), root, show_closed, path),
                    spec_norm(es[k].positions),
                )
            } else {
                sheet_numbers(es.take(k), root, show_closed, path)
            }),
        forall|c: Seq<char>|
            #[trigger] sheet_currency(es.take(k + 1), root, show_closed, c) == (sheet_currency(
                es.take(k),
                root,
                show_closed,
                c,
            ) || (included(es[k], root, show_closed) && cm_index_of(spec_norm(es[k].positions), c)
                >= 0)),
{
    let pre = es.take(k);
    let cur = es.take(k + 1);
    assert(cur.drop_last() =~= pre);
    assert(cur.last() == es[k]);
    assert(forall|j: int| 0 <= j < cur.len() ==> #[trigger] cur[j] == es[j]);
    assert(forall|j: int| 0 <= j < pre.len() ==> #[trigger] pre[j] == es[j]);
    assert forall|path: Seq<Seq<char>>|
        #[trigger] sheet_reaches(cur, root, show_closed, path) == (sheet_reaches(
            pre,
            root,
            show_closed,
            path,
        ) || (included(es[k], root, show_closed) && is_prefix_seq(
            path,
            spec_segments(es[k].account),
        ))) by {
        if sheet_reaches(pre, root, show_closed, path) {
            let j = choose|j: int|
                0 <= j < pre.len() && included(#[trigger] pre[j], root, show_closed)
                    && is_prefix_seq(path, spec_segments(pre[j].account));
            assert(cur[j] == pre[j]);
            assert(sheet_reaches(cur, root, show_closed, path));
        }
        if included(es[k], root, show_closed) && is_prefix_seq(
            path,
            spec_segments(es[k].account),
        ) {
            assert(cur[k] == es[k]);
            assert(sheet_reaches(cur, root, show_closed, path));
        }
        if sheet_reaches(cur, root, show_closed, path) {
            let j = choose|j: int|
                0 <= j < cur.len() && included(#[trigger] cur[j], root, show_closed)
                    && is_prefix_seq(path, spec_segments(cur[j].account));
            if j < k {
                assert(pre[j] == cur[j]);
                assert(sheet_reaches(pre, root, show_closed, path));
            }
        }
    }
    assert forall|c: Seq<char>|
        #[trigger] sheet_currency(cur, root, show_closed, c) == (sheet_currency(
            pre,
            root,
            show_closed,
            c,
        ) || (included(es[k], root, show_closed) && cm_index_of(spec_norm(es[k].positions), c)
            >= 0)) by {
        if sheet_currency(pre, root, show_closed, c) {
            let j = choose|j: int|
                0 <= j < pre.len() && included(#[trigger] pre[j], root, show_closed)
                    && cm_index_of(spec_norm(pre[j].positions), c) >= 0;
            assert(cur[j] == pre[j]);
            assert(sheet_currency(cur, root, show_closed, c));
        }
        if included(es[k], root, show_closed) && cm_index_of(spec_norm(es[k].positions), c)
            >= 0 {
            assert(cur[k] == es[k]);
            assert(sheet_currency(cur, root, show_closed, c));
        }
        if sheet_currency(cur, root, show_closed, c) {
            let j = choose|j: int|
                0 <= j < cur.len() && included(#[trigger] cur[j], root, show_closed)
                    && cm_index_of(spec_norm(cur[j].positions), c) >= 0;
            if j < k {
                assert(pre[j] == cur[j]);
                assert(sheet_currency(pre, root, show_closed, c));
            }
        }
    }
}

/// Builds the balance trie for one root account, together with the ordered
/// set of currencies the kept accounts are valued in. Every node holds, per
/// currency, the summed normalized holdings of the kept accounts whose
/// segment path extends that node's path.
#[verifier::loop_isolation(false)]
#[verifier::rlimit(100)]
pub fn build_trie(sheet: &Vec<SheetEntry>, root: &str, show_closed: bool) -> (r: (
    TrieNode,
    Vec<String>,
))
    requires
        sheet_fits(entry_views(sheet@)),
    ensures
        ({
            let es = entry_views(sheet@);
            let s = entries_smax(es);
            &&& trie_wf(r.0, s)
            &&& forall|path: Seq<Seq<char>>|
                #[trigger] node_get(r.0, path) is Some <==> (path.len() == 0 || sheet_reaches(
                    es,
                    root@,
                    show_closed,
                    path,
                ))
            &&& forall|path: Seq<Seq<char>>|
                #[trigger] numbers_at(r.0, path) == sheet_numbers(es, root@, show_closed, path)
            &&& strs_sorted(r.1.deep_view())
            &&& forall|c: Seq<char>|
                #[trigger] strs_contains(r.1.deep_view(), c) <==> sheet_currency(
                    es,
                    root@,
                    show_closed,
                    c,
                )
            &&& node_size(r.0) <= 1 + sheet_paths(es)
        }),
{
    let ghost es = entry_views(sheet@);
    let ghost s = entries_smax(es);
    proof {
        lemma_entries_measures(es);
        assert(es.take(0) =~= Seq::<SheetEntryV>::empty());
    }
    let mut trie = TrieNode { numbers: Vec::new(), nodes: Vec::new() };
    let mut curs: Vec<String> = Vec::new();
    proof {
        lemma_fresh_node(trie, s);
        assert(curs.deep_view() =~= Seq::<Seq<char>>::empty());
        assert forall|path: Seq<Seq<char>>|
            #[trigger] numbers_at(trie, path) == sheet_numbers(es.take(0), root@, show_closed, path)
            by {
            assert(numbers_at(trie, path) =~= Seq::<(Seq<char>, Dec)>::empty());
        }
    }
    let n = sheet.len();
    let mut k: usize = 0;
    while k < n
        invariant
            k <= n,
            n == sheet@.len(),
            trie_wf(trie, s),
            trie_bounded(trie, entries_abs(es.take(k as int))),
            node_size(trie) <= 1 + sheet_paths(es.take(k as int)),
            forall|path: Seq<Seq<char>>|
                #[trigger] node_get(trie, path) is Some <==> (path.len() == 0 || sheet_reaches(
                    es.take(k as int),
                    root@,
                    show_closed,
                    path,
                )),
            forall|path: Seq<Seq<char>>|
                #[trigger] numbers_at(trie, path) == sheet_numbers(
                    es.take(k as int),
                    root@,
                    show_closed,
                    path,
                ),
            strs_sorted(curs.deep_view()),
            forall|c: Seq<char>|
                #[trigger] strs_contains(curs.deep_view(), c) <==> sheet_currency(
                    es.take(k as int),
                    root@,
                    show_closed,
                    c,
                ),
        decreases n - k,
    {
        let ghost trie0 = trie;
        let entry = &sheet[k];
        proof {
            assert(es[k as int] == sheet@[k as int]@);
            lemma_sheet_step(es, root@, show_closed, k as int);
        }
        let segs = split_account(entry.account.as_str());
        proof {
            crate::text::lemma_segments_len(entry.account@);
            assert(segs.deep_view() == spec_segments(es[k as int].account));
            assert(segs@.len() == segs.deep_view().len());
        }
        let keep = (!entry.closed || show_closed) && str_eq(segs[0].as_str(), root);
        proof {
            assert(segs.deep_view()[0] == segs@[0]@);
            assert(keep == included(es[k as int], root@, show_closed));
        }
        if keep {
            proof {
                assert(pos_views(entry.positions@) =~= es[k as int].positions);
                assert(positions_ok(es[k as int].positions));
                assert(positions_smax(es[k as int].positions) <= s);
                assert(positions_abs(es[k as int].positions) <= entries_abs(es)) by {
                    assert(entries_abs(es.take(k + 1)) == entries_abs(es.take(k as int))
                        + positions_abs(es[k as int].positions));
                    assert(entries_abs(es.take(k as int)) >= 0) by {
                        lemma_entries_measures(es.take(k as int));
                    }
                    assert(entries_abs(es.take(k + 1)) <= entries_abs(es));
                }
                crate::decimal::lemma_pow10_mono((28 - entries_smax(es)) as nat, (28 - s) as nat);
            }
            let norm = normalize_positions(&entry.positions, Ghost(s));
            let ghost normv = cm_view(norm@);
            // record the currencies this account is valued in
            let m = norm.len();
            let mut i: usize = 0;
            while i < m
                invariant
                    i <= m,
                    m == norm@.len(),
                    cm_view(norm@) == normv,
                    strs_sorted(curs.deep_view()),
                    forall|c: Seq<char>|
                        #[trigger] strs_contains(curs.deep_view(), c) <==> (sheet_currency(
                            es.take(k as int),
                            root@,
                            show_closed,
                            c,
                        ) || exists|l: int| 0 <= l < i && (#[trigger] normv[l]).0 == c),
                decreases m - i,
            {
                proof {
                    assert(norm@[i as int].0@ == normv[i as int].0);
                }
                insert_currency(&mut curs, norm[i].0.as_str());
                proof {
                    assert forall|c: Seq<char>|
                        #[trigger] strs_contains(curs.deep_view(), c) <==> (sheet_currency(
                            es.take(k as int),
                            root@,
                            show_closed,
                            c,
                        ) || exists|l: int| 0 <= l < i + 1 && (#[trigger] normv[l]).0 == c) by {
                        if strs_contains(curs.deep_view(), c) {
                            if c == normv[i as int].0 {
                                assert(exists|l: int|
                                    0 <= l < i + 1 && (#[trigger] normv[l]).0 == c);
                            }
                        }
                        if exists|l: int| 0 <= l < i + 1 && (#[trigger] normv[l]).0 == c {
                            let l = choose|l: int| 0 <= l < i + 1 && (#[trigger] normv[l]).0 == c;
                            if l < i {
                                assert(exists|l2: int|
                                    0 <= l2 < i && (#[trigger] normv[l2]).0 == c);
                            }
                        }
                    }
                }
                i = i + 1;
            }
            proof {
                lemma_cm_index_exists(normv, root@);
                assert forall|c: Seq<char>|
                    #[trigger] strs_contains(curs.deep_view(), c) <==> sheet_currency(
                        es.take(k + 1),
                        root@,
                        show_closed,
                        c,
                    ) by {
                    lemma_cm_index_exists(normv, c);
                }
                // the merge below stays within the magnitude budget
                assert(entries_abs(es.take(k as int)) >= 0) by {
                    lemma_entries_measures(es.take(k as int));
                }
                assert(entries_abs(es.take(k as int)) + cm_abs(normv) < p96() * pow10(
                    (28 - s) as nat,
                )) by {
                    assert(cm_abs(normv) <= positions_abs(es[k as int].positions));
                    assert(entries_abs(es.take(k + 1)) == entries_abs(es.take(k as int))
                        + positions_abs(es[k as int].positions));
                    assert(entries_abs(es.take(k + 1)) <= entries_abs(es));
                    crate::decimal::lemma_pow10_mono(
                        (28 - entries_smax(es)) as nat,
                        (28 - s) as nat,
                    );
                }
            }
            insert_account(
                &mut trie,
                &segs,
                0,
                &norm,
                Ghost(s),
                Ghost(entries_abs(es.take(k as int))),
            );
            proof {
                assert(segs.deep_view().skip(0) =~= segs.deep_view());
                assert forall|path: Seq<Seq<char>>|
                    #[trigger] numbers_at(trie, path) == sheet_numbers(
                        es.take(k + 1),
                        root@,
                        show_closed,
                        path,
                    ) by {
                    if is_prefix_seq(path, segs.deep_view()) {
                        assert(node_get(trie, path) is Some);
                        assert(numbers_at(trie, path) == spec_apply_changes(
                            numbers_at(trie0, path),
                            normv,
                        ));
                    } else {
                        assert(node_get(trie, path) == node_get(trie0, path));
                        assert(numbers_at(trie, path) == numbers_at(trie0, path));
                    }
                }
                assert forall|path: Seq<Seq<char>>|
                    #[trigger] node_get(trie, path) is Some <==> (path.len() == 0 || sheet_reaches(
                        es.take(k + 1),
                        root@,
                        show_closed,
                        path,
                    )) by {
                    if path.len() > 0 && is_prefix_seq(path, segs.deep_view()) {
                        assert(sheet_reaches(es.take(k + 1), root@, show_closed, path));
                    }
                }
                assert(trie_bounded(trie, entries_abs(es.take(k + 1)))) by {
                    assert(entries_abs(es.take(k as int)) + cm_abs(normv) <= entries_abs(
                        es.take(k + 1),
                    )) by {
                        lemma_cm_abs_entry(normv);
                        assert(cm_abs(normv) <= positions_abs(es[k as int].positions));
                    }
                    lemma_trie_bounded_widen(trie, entries_abs(es.take(k as int)) + cm_abs(normv), entries_abs(es.take(k + 1)));
                }
                assert(node_size(trie) <= 1 + sheet_paths(es.take(k + 1))) by {
                    assert(node_size(trie) <= node_size(trie0) + segs.deep_view().len());
                    assert(sheet_paths(es.take(k + 1)) == sheet_paths(es.take(k as int))
                        + spec_segments(es[k as int].account).len());
                }
            }
        } else {
            proof {
                assert forall|path: Seq<Seq<char>>|
                    #[trigger] numbers_at(trie, path) == sheet_numbers(
                        es.take(k + 1),
                        root@,
                        show_closed,
                        path,
                    ) by {}
                assert forall|path: Seq<Seq<char>>|
                    #[trigger] node_get(trie, path) is Some <==> (path.len() == 0 || sheet_reaches(
                        es.take(k + 1),
                        root@,
                        show_closed,
                        path,
                    )) by {}
                assert(trie_bounded(trie, entries_abs(es.take(k + 1)))) by {
                    assert(entries_abs(es.take(k + 1)) == entries_abs(es.take(k as int))
                        + positions_abs(es[k as int].positions));
                    lemma_positions_measures(es[k as int].positions);
                    lemma_trie_bounded_widen(trie, entries_abs(es.take(k as int)), entries_abs(es.take(k + 1)));
                }
                assert(node_size(trie) <= 1 + sheet_paths(es.take(k + 1))) by {
                    assert(sheet_paths(es.take(k + 1)) == sheet_paths(es.take(k as int))
                        + spec_segments(es[k as int].account).len());
                    crate::text::lemma_segments_len(es[k as int].account);
                }
                assert forall|c: Seq<char>|
                    #[trigger] strs_contains(curs.deep_view(), c) <==> sheet_currency(
                        es.take(k + 1),
                        root@,
                        show_closed,
                        c,
                    ) by {}
            }
        }
        k = k + 1;
    }
    proof {
        assert(es.take(n as int) =~= es);
    }
    (trie, curs)
}

/// The integer sum, per currency, of the kept accounts' normalized holdings
/// over the accounts whose segment path extends `path`.
pub open spec fn sheet_sum(
    es: Seq<SheetEntryV>,
    root: Seq<char>,
    show_closed: bool,
    path: Seq<Seq<char>>,
    c: Seq<char>,
) -> int
    decreases es.len(),
{
    if es.len() == 0 {
        0
    } else {
        sheet_sum(es.drop_last(), root, show_closed, path, c) + (if included(
            es.last(),
            root,
            show_closed,
        ) && is_prefix_seq(path, spec_segments(es.last().account)) {
            cm_get(spec_norm(es.last().positions), c).val()
        } else {
            0
        })
    }
}

/// The numbers map a node aggregates is well formed and holds, under every
/// currency, exactly the integer sum of the contributing accounts'
/// normalized holdings.
proof fn lemma_sheet_numbers_props(
    es: Seq<SheetEntryV>,
    root: Seq<char>,
    show_closed: bool,
    path: Seq<Seq<char>>,
    s: int,
)
    requires
        sheet_wf(es),
        entries_smax(es) <= s,
        0 <= s <= 28,
        entries_abs(es) < p96() * pow10((28 - s) as nat),
    ensures
        cm_wf(sheet_numbers(es, root, show_closed, path)),
        cm_scales(sheet_numbers(es, root, show_closed, path), s),
        cm_abs(sheet_numbers(es, root, show_closed, path)) <= entries_abs(es),
        forall|c: Seq<char>|
            #[trigger] cm_get(sheet_numbers(es, root, show_closed, path), c).val() == sheet_sum(
                es,
                root,
                show_closed,
                path,
                c,
            ),
    decreases es.len(),
{
    lemma_entries_measures(es);
    if es.len() == 0 {
        assert forall|c: Seq<char>|
            #[trigger] cm_get(sheet_numbers(es, root, show_closed, path), c).val() == sheet_sum(
                es,
                root,
                show_closed,
                path,
                c,
            ) by {
            lemma_cm_get(sheet_numbers(es, root, show_closed, path), c, s);
        }
    } else {
        let pre = es.drop_last();
        let e = es.last();
        assert(sheet_wf(pre) && entries_smax(pre) <= s && entries_abs(pre) <= entries_abs(es)) by {
            assert(pre =~= es.take(es.len() - 1));
            assert(forall|k: int| 0 <= k < pre.len() ==> #[trigger] pre[k] == es[k]);
        }
        lemma_sheet_numbers_props(pre, root, show_closed, path, s);
        if included(e, root, show_closed) && is_prefix_seq(path, spec_segments(e.account)) {
            assert(es[es.len() - 1] == e);
            assert(positions_ok(e.positions));
            assert(positions_smax(e.positions) <= s);
            assert(positions_abs(e.positions) <= entries_abs(es)) by {
                lemma_positions_measures(e.positions);
                lemma_entries_measures(pre);
            }
            lemma_norm(e.positions, s);
            crate::cmap::lemma_apply_changes(
                sheet_numbers(pre, root, show_closed, path),
                spec_norm(e.positions),
                s,
            );
            assert(cm_abs(sheet_numbers(pre, root, show_closed, path)) + cm_abs(
                spec_norm(e.positions),
            ) <= entries_abs(es));
        }
    }
}

/// Law: in a built trie, every node's total under every currency equals the
/// integer sum of the normalized holdings, under that currency, of all kept
/// accounts in the node's subtree — `build_trie` makes each node's numbers
/// map `sheet_numbers` at the node's path, and that map's value under `c`
/// is `sheet_sum` there.
pub proof fn lemma_trie_invariant(
    es: Seq<SheetEntryV>,
    root: Seq<char>,
    show_closed: bool,
    path: Seq<Seq<char>>,
    c: Seq<char>,
)
    requires
        sheet_fits(es),
    ensures
        cm_get(sheet_numbers(es, root, show_closed, path), c).val() == sheet_sum(
            es,
            root,
            show_closed,
            path,
            c,
        ),
{
    lemma_entries_measures(es);
    lemma_sheet_numbers_props(es, root, show_closed, path, entries_smax(es));
}

/// One valuation's magnitude, on top of the magnitudes before it, stays
/// within the whole sheet's magnitude.
proof fn lemma_position_abs_le(es: Seq<SheetEntryV>, k: int, i: int)
    requires
        0 <= k < es.len(),
        0 <= i < es[k].positions.len(),
    ensures
        entries_abs(es.take(k)) + positions_abs(es[k].positions.take(i)) + abs_val(
            pos_val(es[k].positions[i]),
        ) <= entries_abs(es),
{
    lemma_entries_measures(es);
    let ps = es[k].positions;
    lemma_positions_measures(ps);
    assert(positions_abs(ps.take(i + 1)) == positions_abs(ps.take(i)) + abs_val(pos_val(ps[i])));
    assert(positions_abs(ps.take(i + 1)) <= positions_abs(ps));
    assert(entries_abs(es.take(k + 1)) == entries_abs(es.take(k)) + positions_abs(ps));
    assert(entries_abs(es.take(k + 1)) <= entries_abs(es));
}

/// A factor at or past the 96-bit bound stays past it after scaling by a
/// positive power of ten.
proof fn lemma_sheet_cap_exceeded(x: int, p: int)
    requires
        x >= p96() || x > u128::MAX as int,
        p >= 1,
    ensures
        x * p >= p96() * p,
{
    assert(x >= p96());
    assert(x * p >= p96() * p) by (nonlinear_arith)
        requires
            x >= p96(),
            p >= 1,
    ;
}

/// Whether the balance sheet leaves the headroom the trie builder needs:
/// every valuation exact and representable, their magnitudes summed at the
/// largest scale in use within a 96-bit mantissa, and the path count small
/// enough to build. Exactly `sheet_fits`.
#[verifier::loop_isolation(false)]
#[verifier::rlimit(100)]
pub fn sheet_fits_check(sheet: &Vec<SheetEntry>) -> (r: bool)
    ensures
        r == sheet_fits(entry_views(sheet@)),
{
    let ghost es = entry_views(sheet@);
    proof {
        lemma_entries_measures(es);
        assert(es.take(0) =~= Seq::<SheetEntryV>::empty());
    }
    let n = sheet.len();
    let mut smax: u32 = 0;
    let mut paths: u128 = 0;
    let mut k: usize = 0;
    while k < n
        invariant
            k <= n,
            sheet_wf(es.take(k as int)),
            smax as int == entries_smax(es.take(k as int)),
            smax <= 28,
            paths as int == sheet_paths(es.take(k as int)),
        decreases n - k,
    {
        let entry = &sheet[k];
        let ghost pv = es[k as int].positions;
        proof {
            assert(es[k as int] == sheet@[k as int]@);
            assert(pv.take(0) =~= Seq::<PositionV>::empty());
            lemma_positions_measures(pv);
        }
        let segs = split_account(entry.account.as_str());
        proof {
            assert(segs.deep_view().len() == spec_segments(es[k as int].account).len());
            assert(segs@.len() == segs.deep_view().len());
        }
        let seg_count = segs.len();
        paths = match paths.checked_add(seg_count as u128) {
            Some(x) => x,
            None => {
                proof {
                    assert(sheet_paths(es.take(k + 1)) > u128::MAX as int) by {
                        assert(es.take(k + 1).drop_last() =~= es.take(k as int));
                        assert(es.take(k + 1).last() == es[k as int]);
                    }
                    assert(sheet_paths(es.take(k + 1)) <= sheet_paths(es));
                }
                return false;
            },
        };
        let m = entry.positions.len();
        let mut psmax: u32 = 0;
        let mut i: usize = 0;
        while i < m
            invariant
                i <= m,
                m == pv.len(),
                positions_ok(pv.take(i as int)),
                psmax as int == positions_smax(pv.take(i as int)),
                psmax <= 28,
            decreases m - i,
        {
            proof {
                assert(pv[i as int] == entry.positions@[i as int]@);
                assert(pv.take(i + 1).drop_last() =~= pv.take(i as int));
                assert(pv.take(i + 1).last() == pv[i as int]);
            }
            let p = &entry.positions[i];
            let dn = p.number;
            if dn.scale > 28 || dn.mantissa <= -0x1000000000000000000000000i128 || dn.mantissa
                >= 0x1000000000000000000000000i128 {
                proof {
                    assert(!position_ok(pv[i as int]));
                    if sheet_wf(es) {
                        assert(positions_ok(es[k as int].positions));
                    }
                }
                return false;
            }
            let pscale: u32 = match &p.cost {
                Some(u) => {
                    let cn = u.amount.number;
                    if cn.scale > 28 || cn.mantissa <= -0x1000000000000000000000000i128
                        || cn.mantissa >= 0x1000000000000000000000000i128 {
                        proof {
                            assert(!position_ok(pv[i as int]));
                            if sheet_wf(es) {
                                assert(positions_ok(es[k as int].positions));
                            }
                        }
                        return false;
                    }
                    if cn.mantissa == 0 || dn.mantissa == 0 {
                        0
                    } else {
                        if cn.scale + dn.scale > 28 {
                            proof {
                                assert(!mul_fits(cn, dn));
                                assert(!position_ok(pv[i as int]));
                                if sheet_wf(es) {
                                    assert(positions_ok(es[k as int].positions));
                                }
                            }
                            return false;
                        }
                        let prod = match cn.mantissa.checked_mul(dn.mantissa) {
                            Some(x) => x,
                            None => {
                                proof {
                                    assert(cn.mantissa as int * dn.mantissa as int > i128::MAX
                                        as int || (cn.mantissa as int * dn.mantissa as int) < (
                                    i128::MIN as int));
                                    assert(!mul_fits(cn, dn));
                                    assert(!position_ok(pv[i as int]));
                                    if sheet_wf(es) {
                                        assert(positions_ok(es[k as int].positions));
                                    }
                                }
                                return false;
                            },
                        };
                        if prod <= -0x1000000000000000000000000i128 || prod
                            >= 0x1000000000000000000000000i128 {
                            proof {
                                assert(!mul_fits(cn, dn));
                                assert(!position_ok(pv[i as int]));
                                if sheet_wf(es) {
                                    assert(positions_ok(es[k as int].positions));
                                }
                            }
                            return false;
                        }
                        proof {
                            crate::decimal::lemma_mul_exact(cn, dn);
                        }
                        cn.scale + dn.scale
                    }
                },
                None => dn.scale,
            };
            proof {
                assert(position_ok(pv[i as int]));
                assert(pscale as int == pos_val(pv[i as int]).scale);
            }
            if pscale > psmax {
                psmax = pscale;
            }
            i = i + 1;
        }
        proof {
            assert(pv.take(m as int) =~= pv);
            assert(es.take(k + 1).drop_last() =~= es.take(k as int));
            assert(es.take(k + 1).last() == es[k as int]);
        }
        if psmax > smax {
            smax = psmax;
        }
        k = k + 1;
    }
    proof {
        assert(es.take(n as int) =~= es);
        assert(sheet_wf(es));
        assert(smax as int == entries_smax(es));
        assert(paths as int == sheet_paths(es));
    }
    if paths > (usize::MAX - 1) as u128 {
        return false;
    }
    let ghost e28 = (28 - smax as int) as nat;
    proof {
        crate::decimal::lemma_pow10_pos(e28);
    }
    let mut acc: u128 = 0;
    let mut k2: usize = 0;
    while k2 < n
        invariant
            k2 <= n,
            acc as int * pow10(e28) == entries_abs(es.take(k2 as int)),
            acc < 0x1000000000000000000000000u128,
        decreases n - k2,
    {
        let entry = &sheet[k2];
        let ghost pv = es[k2 as int].positions;
        proof {
            assert(es[k2 as int] == sheet@[k2 as int]@);
            assert(pv.take(0) =~= Seq::<PositionV>::empty());
            lemma_positions_measures(pv);
        }
        let m = entry.positions.len();
        let mut i: usize = 0;
        while i < m
            invariant
                i <= m,
                m == pv.len(),
                acc as int * pow10(e28) == entries_abs(es.take(k2 as int)) + positions_abs(
                    pv.take(i as int),
                ),
                acc < 0x1000000000000000000000000u128,
            decreases m - i,
        {
            let ghost el = pos_val(pv[i as int]);
            proof {
                assert(pv[i as int] == entry.positions@[i as int]@);
                assert(pv.take(i + 1).drop_last() =~= pv.take(i as int));
                assert(pv.take(i + 1).last() == pv[i as int]);
                assert(positions_ok(es[k2 as int].positions));
                assert(position_ok(pv[i as int]));
                if pv[i as int].cost is Some {
                    crate::decimal::lemma_mul_exact(
                        pv[i as int].cost->Some_0.amount.number,
                        pv[i as int].number,
                    );
                }
                assert(el.wf());
                assert(el.scale <= positions_smax(pv));
                assert(positions_smax(es[k2 as int].positions) <= entries_smax(es));
                lemma_position_abs_le(es, k2 as int, i as int);
                crate::cmap::lemma_abs_val(el);
                crate::decimal::lemma_pow10_adds((smax - el.scale) as nat, e28);
                crate::decimal::lemma_pow10_pos((smax - el.scale) as nat);
            }
            let p = &entry.positions[i];
            let (pm, pscale): (i128, u32) = match &p.cost {
                Some(u) => {
                    if u.amount.number.mantissa == 0 || p.number.mantissa == 0 {
                        (0, 0)
                    } else {
                        let prod = match u.amount.number.mantissa.checked_mul(p.number.mantissa) {
                            Some(x) => x,
                            None => {
                                proof {
                                    assert(false);
                                }
                                unreached()
                            },
                        };
                        (prod, u.amount.number.scale + p.number.scale)
                    }
                },
                None => (p.number.mantissa, p.number.scale),
            };
            proof {
                assert(el == (Dec { mantissa: pm, scale: pscale }));
            }
            let am: u128 = if pm >= 0 {
                pm as u128
            } else {
                (-pm) as u128
            };
            let shift = crate::decimal::pow10_u128(smax - pscale);
            let ghost amv = am as int;
            let ghost shiftv = shift as int;
            proof {
                assert(amv == (if el.mantissa >= 0 {
                    el.mantissa as int
                } else {
                    -(el.mantissa as int)
                }));
                assert((smax - el.scale) as nat + e28 == (28 - el.scale) as nat);
                assert(shiftv * pow10(e28) == pow10((28 - el.scale) as nat));
                assert(abs_val(el) == amv * pow10((28 - el.scale) as nat));
                assert(abs_val(el) == (amv * shiftv) * pow10(e28)) by (nonlinear_arith)
                    requires
                        abs_val(el) == amv * pow10((28 - el.scale) as nat),
                        shiftv * pow10(e28) == pow10((28 - el.scale) as nat),
                ;
            }
            let term = match am.checked_mul(shift) {
                Some(x) => x,
                None => {
                    proof {
                        lemma_entries_measures(es.take(k2 as int));
                        lemma_positions_measures(pv.take(i as int));
                        assert(amv * shiftv > u128::MAX as int);
                        lemma_sheet_cap_exceeded(amv * shiftv, pow10(e28));
                        assert(abs_val(el) >= p96() * pow10(e28));
                        assert(entries_abs(es) >= p96() * pow10(e28));
                    }
                    return false;
                },
            };
            let acc2 = match acc.checked_add(term) {
                Some(x) => x,
                None => {
                    proof {
                        lemma_entries_measures(es.take(k2 as int));
                        lemma_positions_measures(pv.take(i as int));
                        assert(acc as int + term as int > u128::MAX as int);
                        lemma_sheet_cap_exceeded(acc as int + term as int, pow10(e28));
                        assert((acc as int + term as int) * pow10(e28) == acc as int * pow10(e28)
                            + term as int * pow10(e28)) by (nonlinear_arith);
                        assert(term as int * pow10(e28) == abs_val(el));
                        assert(entries_abs(es) >= p96() * pow10(e28));
                    }
                    return false;
                },
            };
            if acc2 >= 0x1000000000000000000000000u128 {
                proof {
                    lemma_entries_measures(es.take(k2 as int));
                    lemma_positions_measures(pv.take(i as int));
                    lemma_sheet_cap_exceeded(acc2 as int, pow10(e28));
                    assert(acc2 as int * pow10(e28) == acc as int * pow10(e28) + term as int
                        * pow10(e28)) by (nonlinear_arith)
                        requires
                            acc2 as int == acc as int + term as int,
                    ;
                    assert(term as int * pow10(e28) == abs_val(el));
                    assert(entries_abs(es) >= p96() * pow10(e28));
                }
                return false;
            }
            let ghost partial = entries_abs(es.take(k2 as int)) + positions_abs(pv.take(i as int));
            proof {
                assert(term as int == amv * shiftv);
                assert(term as int * pow10(e28) == abs_val(el));
                assert(acc2 as int * pow10(e28) == partial + abs_val(el)) by (nonlinear_arith)
                    requires
                        acc2 as int == acc as int + term as int,
                        acc as int * pow10(e28) == partial,
                        term as int * pow10(e28) == abs_val(el),
                ;
            }
            acc = acc2;
            proof {
                assert(acc as int * pow10(e28) == entries_abs(es.take(k2 as int)) + positions_abs(
                    pv.take(i + 1),
                ));
            }
            i = i + 1;
        }
        proof {
            assert(pv.take(m as int) =~= pv);
            assert(es.take(k2 + 1).drop_last() =~= es.take(k2 as int));
            assert(es.take(k2 + 1).last() == es[k2 as int]);
        }
        k2 = k2 + 1;
    }
    proof {
        assert(es.take(n as int) =~= es);
        assert(acc as int * pow10(e28) == entries_abs(es));
        assert(entries_abs(es) < p96() * pow10(e28)) by (nonlinear_arith)
            requires
                acc as int * pow10(e28) == entries_abs(es),
                acc < 0x1000000000000000000000000u128,
                pow10(e28) >= 1,
                p96() == 0x1000000000000000000000000,
        ;
    }
    true
}

/// A budget that covers every node still covers them at any larger budget.
proof fn lemma_trie_bounded_widen(n: TrieNode, b1: int, b2: int)
    requires
        trie_bounded(n, b1),
        b1 <= b2,
    ensures
        trie_bounded(n, b2),
{
}

} // verus!
