//! Per-currency accumulators. A map from currency to decimal quantity is
//! kept as a vector of pairs in first-insertion order; keys stay unique.

use vstd::prelude::*;

use crate::decimal::{Dec, add_fits, dec_add, spec_add, lemma_add_exact};
use crate::text::str_eq;

verus! {

/// The mathematical content of a currency map.
pub open spec fn cm_view(m: Seq<(String, Dec)>) -> Seq<(Seq<char>, Dec)> {
    Seq::new(m.len(), |i: int| (m[i].0@, m[i].1))
}

/// The first index holding the given currency, or -1.
pub open spec fn cm_index_of(m: Seq<(Seq<char>, Dec)>, c: Seq<char>) -> int
    decreases m.len(),
{
    if m.len() == 0 {
        -1
    } else if m[0].0 == c {
        0
    } else {
        let r = cm_index_of(m.drop_first(), c);
        if r < 0 {
            -1
        } else {
            r + 1
        }
    }
}

/// The quantity recorded for a currency; zero when the currency is absent.
pub open spec fn cm_get(m: Seq<(Seq<char>, Dec)>, c: Seq<char>) -> Dec {
    let i = cm_index_of(m, c);
    if i >= 0 {
        m[i].1
    } else {
        Dec { mantissa: 0 as i128, scale: 0 as u32 }
    }
}

/// The map after adding a quantity under a currency: the existing entry is
/// summed in place, or a new entry is appended.
pub open spec fn spec_cm_add(m: Seq<(Seq<char>, Dec)>, c: Seq<char>, d: Dec) -> Seq<
    (Seq<char>, Dec),
> {
    let i = cm_index_of(m, c);
    if i >= 0 {
        m.update(i, (c, spec_add(m[i].1, d)))
    } else {
        m.push((c, d))
    }
}

/// A map after another map's entries have been added into it, in order.
pub open spec fn spec_apply_changes(
    bal: Seq<(Seq<char>, Dec)>,
    ch: Seq<(Seq<char>, Dec)>,
) -> Seq<(Seq<char>, Dec)>
    decreases ch.len(),
{
    if ch.len() == 0 {
        bal
    } else {
        spec_cm_add(spec_apply_changes(bal, ch.drop_last()), ch.last().0, ch.last().1)
    }
}

/// Keys are unique and every quantity is representable.
pub open spec fn cm_wf(m: Seq<(Seq<char>, Dec)>) -> bool {
    &&& forall|i: int, j: int| 0 <= i < j < m.len() ==> m[i].0 != m[j].0
    &&& forall|i: int| 0 <= i < m.len() ==> (#[trigger] m[i].1).wf()
}

/// Every quantity's scale is at most `s`.
pub open spec fn cm_scales(m: Seq<(Seq<char>, Dec)>, s: int) -> bool {
    forall|i: int| 0 <= i < m.len() ==> (#[trigger] m[i].1).scale <= s
}

/// The magnitude of a quantity's value.
pub open spec fn abs_val(d: Dec) -> int {
    if d.val() >= 0 {
        d.val()
    } else {
        -d.val()
    }
}

/// A quantity's magnitude is its mantissa's magnitude at its scale.
pub proof fn lemma_abs_val(d: Dec)
    ensures
        abs_val(d) == (if d.mantissa >= 0 {
            d.mantissa as int
        } else {
            -(d.mantissa as int)
        }) * crate::decimal::pow10((28 - d.scale) as nat),
{
    crate::decimal::lemma_pow10_pos((28 - d.scale) as nat);
    let p = crate::decimal::pow10((28 - d.scale) as nat);
    let m = d.mantissa as int;
    assert((if m * p >= 0 {
        m * p
    } else {
        -(m * p)
    }) == (if m >= 0 {
        m
    } else {
        -m
    }) * p) by (nonlinear_arith)
        requires
            p >= 1,
    ;
}

/// The summed magnitude of all quantities in a map.
pub open spec fn cm_abs(m: Seq<(Seq<char>, Dec)>) -> int
    decreases m.len(),
{
    if m.len() == 0 {
        0
    } else {
        cm_abs(m.drop_last()) + abs_val(m.last().1)
    }
}

/// The summed magnitude is nonnegative and bounds every single entry.
pub proof fn lemma_cm_abs_entry(m: Seq<(Seq<char>, Dec)>)
    ensures
        cm_abs(m) >= 0,
        forall|i: int| 0 <= i < m.len() ==> abs_val((#[trigger] m[i]).1) <= cm_abs(m),
    decreases m.len(),
{
    if m.len() > 0 {
        lemma_cm_abs_entry(m.drop_last());
        assert(forall|i: int|
            0 <= i < m.len() - 1 ==> #[trigger] m[i] == m.drop_last()[i]);
    }
}

/// Replacing one entry moves the summed magnitude by the difference of the
/// two quantities' magnitudes.
proof fn lemma_cm_abs_update(m: Seq<(Seq<char>, Dec)>, i: int, e: (Seq<char>, Dec))
    ensures
        0 <= i < m.len() ==> cm_abs(m.update(i, e)) == cm_abs(m) - abs_val(m[i].1) + abs_val(e.1),
    decreases m.len(),
{
    if 0 <= i < m.len() {
        if i == m.len() - 1 {
            assert(m.update(i, e).drop_last() =~= m.drop_last());
            assert(m.update(i, e).last() == e);
        } else {
            assert(m.update(i, e).drop_last() =~= m.drop_last().update(i, e));
            assert(m.update(i, e).last() == m.last());
            lemma_cm_abs_update(m.drop_last(), i, e);
        }
    }
}

/// Adding a quantity grows the summed magnitude by at most that quantity's
/// magnitude, and keeps all scales within the common bound.
pub proof fn lemma_cm_abs_add(m: Seq<(Seq<char>, Dec)>, c: Seq<char>, d: Dec, s: int)
    requires
        cm_wf(m),
        cm_scales(m, s),
        d.wf(),
        d.scale <= s,
        0 <= s <= 28,
        add_fits(cm_get(m, c), d),
    ensures
        cm_abs(spec_cm_add(m, c, d)) <= cm_abs(m) + abs_val(d),
        cm_scales(spec_cm_add(m, c, d), s),
{
    lemma_cm_index_of(m, c);
    let i = cm_index_of(m, c);
    let r = spec_cm_add(m, c, d);
    if i >= 0 {
        lemma_add_exact(m[i].1, d);
        lemma_cm_abs_update(m, i, (c, spec_add(m[i].1, d)));
        lemma_cm_abs_entry(m);
        assert(forall|k: int|
            0 <= k < r.len() && k != i ==> #[trigger] r[k] == m[k]);
    } else {
        lemma_add_exact(Dec { mantissa: 0 as i128, scale: 0 as u32 }, d);
        assert(r.drop_last() =~= m);
        assert(r.last() == (c, d));
        assert(forall|k: int|
            0 <= k < m.len() ==> #[trigger] r[k] == m[k]);
    }
}

/// Where `cm_index_of` points: at the first entry with the key, or nowhere
/// exactly when the key is absent.
pub proof fn lemma_cm_index_of(m: Seq<(Seq<char>, Dec)>, c: Seq<char>)
    ensures
        cm_index_of(m, c) == -1 ==> forall|k: int| 0 <= k < m.len() ==> m[k].0 != c,
        cm_index_of(m, c) != -1 ==> {
            let i = cm_index_of(m, c);
            &&& 0 <= i < m.len()
            &&& m[i].0 == c
            &&& forall|k: int| 0 <= k < i ==> m[k].0 != c
        },
    decreases m.len(),
{
    if m.len() > 0 && m[0].0 != c {
        lemma_cm_index_of(m.drop_first(), c);
        let r = cm_index_of(m.drop_first(), c);
        if r == -1 {
            assert forall|k: int| 0 <= k < m.len() implies m[k].0 != c by {
                if k > 0 {
                    assert(m.drop_first()[k - 1] == m[k]);
                }
            }
        } else {
            assert(m.drop_first()[r] == m[r + 1]);
            assert forall|k: int| 0 <= k < r + 1 implies m[k].0 != c by {
                if k > 0 {
                    assert(m.drop_first()[k - 1] == m[k]);
                }
            }
        }
    }
}

/// Adding `d` under `c` raises the value under `c` by `d`'s value and
/// leaves every other currency's value unchanged; uniqueness of keys and
/// representability are preserved.
pub proof fn lemma_cm_add(m: Seq<(Seq<char>, Dec)>, c: Seq<char>, d: Dec, s: int)
    requires
        cm_wf(m),
        cm_scales(m, s),
        d.wf(),
        add_fits(cm_get(m, c), d),
        d.scale <= s,
        28 >= s >= 0,
    ensures
        cm_wf(spec_cm_add(m, c, d)),
        cm_scales(spec_cm_add(m, c, d), s),
        cm_get(spec_cm_add(m, c, d), c).val() == cm_get(m, c).val() + d.val(),
        forall|c2: Seq<char>|
            c2 != c ==> #[trigger] cm_get(spec_cm_add(m, c, d), c2) == cm_get(m, c2),
{
    lemma_cm_index_of(m, c);
    let i = cm_index_of(m, c);
    let r = spec_cm_add(m, c, d);
    if i >= 0 {
        lemma_add_exact(m[i].1, d);
        assert forall|c2: Seq<char>| true implies cm_index_of(r, c2) == cm_index_of(m, c2) by {
            lemma_cm_index_of_update(m, i, (c, spec_add(m[i].1, d)), c2);
        }
        assert(cm_get(r, c) == r[i].1);
        assert(r[i].1 == spec_add(m[i].1, d));
        assert forall|c2: Seq<char>| c2 != c implies cm_get(r, c2) == cm_get(m, c2) by {
            let j = cm_index_of(m, c2);
            if j >= 0 {
                lemma_cm_index_of(m, c2);
                assert(j != i);
                assert(r[j] == m[j]);
            }
        }
        assert forall|k: int| 0 <= k < r.len() implies (#[trigger] r[k].1).wf() && r[k].1.scale
            <= s by {
            if k != i {
                assert(r[k] == m[k]);
            }
        }
    } else {
        lemma_add_exact(Dec { mantissa: 0 as i128, scale: 0 as u32 }, d);
        assert(spec_add(Dec { mantissa: 0 as i128, scale: 0 as u32 }, d) == d);
        assert forall|c2: Seq<char>| c2 != c implies cm_get(r, c2) == cm_get(m, c2) by {
            lemma_cm_index_of_push(m, (c, d), c2);
            let j = cm_index_of(m, c2);
            if j >= 0 {
                lemma_cm_index_of(m, c2);
                assert(r[j] == m[j]);
            }
        }
        lemma_cm_index_of_push(m, (c, d), c);
        assert(cm_index_of(r, c) == m.len());
        assert(r[m.len() as int].1 == d);
        assert forall|k: int| 0 <= k < r.len() implies (#[trigger] r[k].1).wf() && r[k].1.scale
            <= s by {
            if k < m.len() {
                assert(r[k] == m[k]);
            }
        }
    }
}

/// What a lookup returns is representable, within the scale bound, and no
/// larger in magnitude than the whole map's magnitude sum.
pub proof fn lemma_cm_get(m: Seq<(Seq<char>, Dec)>, c: Seq<char>, s: int)
    requires
        cm_wf(m),
        cm_scales(m, s),
        0 <= s <= 28,
    ensures
        cm_get(m, c).wf(),
        cm_get(m, c).scale <= s,
        abs_val(cm_get(m, c)) <= cm_abs(m),
        cm_get(m, c).mantissa == 0 ==> cm_get(m, c).val() == 0,
{
    lemma_cm_index_of(m, c);
    lemma_cm_abs_entry(m);
    let z = Dec { mantissa: 0 as i128, scale: 0 as u32 };
    assert(z.val() == 0 * crate::decimal::pow10(28)) by {
        assert((28 - z.scale) as nat == 28nat);
    }
    assert(z.val() == 0) by (nonlinear_arith)
        requires
            z.val() == 0 * crate::decimal::pow10(28),
    ;
    if cm_get(m, c).mantissa == 0 {
        assert(cm_get(m, c).val() == cm_get(m, c).mantissa * crate::decimal::pow10(
            (28 - cm_get(m, c).scale) as nat,
        ));
        assert(cm_get(m, c).val() == 0) by (nonlinear_arith)
            requires
                cm_get(m, c).val() == 0 * crate::decimal::pow10((28 - cm_get(m, c).scale) as nat),
        ;
    }
}

/// Magnitude sums of prefixes grow stepwise and never pass the whole.
pub proof fn lemma_cm_abs_take(m: Seq<(Seq<char>, Dec)>)
    ensures
        forall|k: int|
            0 <= k < m.len() ==> cm_abs(#[trigger] m.take(k + 1)) == cm_abs(m.take(k)) + abs_val(
                m[k].1,
            ),
        forall|k: int| 0 <= k <= m.len() ==> cm_abs(#[trigger] m.take(k)) <= cm_abs(m),
    decreases m.len(),
{
    lemma_cm_abs_entry(m);
    if m.len() > 0 {
        lemma_cm_abs_take(m.drop_last());
        assert(forall|k: int|
            0 <= k < m.len() - 1 ==> #[trigger] m.drop_last()[k] == m[k]);
        assert forall|k: int|
            0 <= k < m.len() implies cm_abs(#[trigger] m.take(k + 1)) == cm_abs(m.take(k))
                + abs_val(m[k].1) by {
            assert(m.take(k + 1).drop_last() =~= m.take(k));
            assert(m.take(k + 1).last() == m[k]);
        }
        assert forall|k: int| 0 <= k <= m.len() implies cm_abs(#[trigger] m.take(k)) <= cm_abs(
            m,
        ) by {
            if k == m.len() {
                assert(m.take(k) =~= m);
            } else {
                assert(m.take(k) =~= m.drop_last().take(k));
                lemma_cm_abs_entry(m.drop_last());
            }
        }
    }
}

/// Updating an entry without changing its key leaves every lookup index
/// unchanged.
proof fn lemma_cm_index_of_update(
    m: Seq<(Seq<char>, Dec)>,
    i: int,
    e: (Seq<char>, Dec),
    c: Seq<char>,
)
    requires
        0 <= i < m.len(),
        e.0 == m[i].0,
    ensures
        cm_index_of(m.update(i, e), c) == cm_index_of(m, c),
    decreases m.len(),
{
    if m.len() > 0 {
        if i == 0 {
            assert(m.update(i, e).drop_first() =~= m.drop_first());
        } else {
            assert(m.update(i, e)[0] == m[0]);
            assert(m.update(i, e).drop_first() =~= m.drop_first().update(i - 1, e));
            lemma_cm_index_of_update(m.drop_first(), i - 1, e, c);
        }
    }
}

/// Appending an entry with a fresh key changes no existing lookup, and a
/// lookup of the fresh key lands on the appended entry.
proof fn lemma_cm_index_of_push(m: Seq<(Seq<char>, Dec)>, e: (Seq<char>, Dec), c: Seq<char>)
    requires
        forall|k: int| 0 <= k < m.len() ==> m[k].0 != e.0,
    ensures
        c != e.0 ==> cm_index_of(m.push(e), c) == cm_index_of(m, c),
        c == e.0 ==> cm_index_of(m.push(e), c) == m.len(),
    decreases m.len(),
{
    if m.len() == 0 {
        assert(m.push(e)[0] == e);
        assert(m.push(e).drop_first() =~= Seq::<(Seq<char>, Dec)>::empty());
        assert(cm_index_of(Seq::<(Seq<char>, Dec)>::empty(), c) == -1);
    } else {
        assert(m.push(e)[0] == m[0]);
        assert(m.push(e).drop_first() =~= m.drop_first().push(e));
        assert(forall|k: int|
            0 <= k < m.drop_first().len() ==> #[trigger] m.drop_first()[k] == m[k + 1]);
        assert(m[0].0 != e.0);
        lemma_cm_index_of_push(m.drop_first(), e, c);
        if c == e.0 {
            assert(cm_index_of(m.push(e), c) == 1 + cm_index_of(m.drop_first().push(e), c));
        } else {
            if m[0].0 == c {
                assert(cm_index_of(m.push(e), c) == 0);
            } else {
                assert(m.push(e).drop_first() == m.drop_first().push(e));
                let rp = cm_index_of(m.drop_first().push(e), c);
                let rm = cm_index_of(m.drop_first(), c);
                assert(rp == rm);
                assert(cm_index_of(m.push(e), c) == (if rp < 0 {
                    -1int
                } else {
                    rp + 1
                }));
                assert(cm_index_of(m, c) == (if rm < 0 {
                    -1int
                } else {
                    rm + 1
                }));
            }
        }
    }
}

/// Adds a quantity into the accumulator under the given currency.
#[verifier::loop_isolation(false)]
pub fn cm_add(m: &mut Vec<(String, Dec)>, c: &str, d: Dec)
    requires
        cm_wf(cm_view(old(m)@)),
        d.wf(),
        add_fits(cm_get(cm_view(old(m)@), c@), d),
    ensures
        cm_view(final(m)@) == spec_cm_add(cm_view(old(m)@), c@, d),
{
    let ghost mv = cm_view(old(m)@);
    proof {
        lemma_cm_index_of(mv, c@);
    }
    let n = m.len();
    let mut i: usize = 0;
    while i < n
        invariant
            i <= n,
            n == m@.len(),
            *m == *old(m),
            mv == cm_view(m@),
            forall|k: int| 0 <= k < i ==> mv[k].0 != c@,
        decreases n - i,
    {
        if str_eq(m[i].0.as_str(), c) {
            proof {
                lemma_cm_index_of_found(mv, c@, i as int);
                assert(mv[i as int].1 == m@[i as int].1);
                assert(cm_get(mv, c@) == mv[i as int].1);
                assert(cm_wf(mv));
                assert(mv[i as int].1.wf());
            }
            let cur = m[i].1;
            m[i].1 = dec_add(cur, d);
            proof {
                assert(cm_view(m@) =~= spec_cm_add(mv, c@, d));
            }
            return ;
        }
        i = i + 1;
    }
    proof {
        assert(cm_index_of(mv, c@) == -1) by {
            if cm_index_of(mv, c@) != -1 {
                lemma_cm_index_of(mv, c@);
            }
        }
    }
    m.push((c.to_owned(), d));
    proof {
        assert(cm_view(m@) =~= spec_cm_add(mv, c@, d));
    }
}

/// An index whose entry carries the key, with no earlier occurrence, is
/// where `cm_index_of` points.
proof fn lemma_cm_index_of_found(m: Seq<(Seq<char>, Dec)>, c: Seq<char>, i: int)
    requires
        0 <= i < m.len(),
        m[i].0 == c,
        forall|k: int| 0 <= k < i ==> m[k].0 != c,
    ensures
        cm_index_of(m, c) == i,
    decreases m.len(),
{
    if i > 0 {
        assert(forall|k: int|
            0 <= k < m.drop_first().len() ==> m.drop_first()[k] == m[k + 1]);
        lemma_cm_index_of_found(m.drop_first(), c, i - 1);
    }
}

/// Looks a currency up in an accumulator.
pub fn cm_lookup(m: &Vec<(String, Dec)>, c: &str) -> (r: Option<Dec>)
    ensures
        cm_index_of(cm_view(m@), c@) >= 0 ==> r == Some(cm_get(cm_view(m@), c@)),
        cm_index_of(cm_view(m@), c@) < 0 ==> r is None,
{
    let ghost mv = cm_view(m@);
    let n = m.len();
    let mut i: usize = 0;
    while i < n
        invariant
            i <= n,
            n == m@.len(),
            mv == cm_view(m@),
            forall|k: int| 0 <= k < i ==> mv[k].0 != c@,
        decreases n - i,
    {
        if str_eq(m[i].0.as_str(), c) {
            proof {
                lemma_cm_index_of_found(mv, c@, i as int);
            }
            return Some(m[i].1);
        }
        i = i + 1;
    }
    proof {
        if cm_index_of(mv, c@) != -1 {
            lemma_cm_index_of(mv, c@);
        }
    }
    None
}

/// Adding a whole map of changes adds, currency by currency, the changes'
/// values; uniqueness, scales and the magnitude budget are preserved.
pub proof fn lemma_apply_changes(
    bal: Seq<(Seq<char>, Dec)>,
    ch: Seq<(Seq<char>, Dec)>,
    s: int,
)
    requires
        cm_wf(bal),
        cm_scales(bal, s),
        cm_wf(ch),
        cm_scales(ch, s),
        0 <= s <= 28,
        cm_abs(bal) + cm_abs(ch) < crate::decimal::p96() * crate::decimal::pow10((28 - s) as nat),
    ensures
        ({
            let r = spec_apply_changes(bal, ch);
            &&& cm_wf(r)
            &&& cm_scales(r, s)
            &&& cm_abs(r) <= cm_abs(bal) + cm_abs(ch)
            &&& forall|c: Seq<char>|
                #[trigger] cm_get(r, c).val() == cm_get(bal, c).val() + cm_get(ch, c).val()
        }),
    decreases ch.len(),
{
    lemma_cm_abs_entry(bal);
    lemma_cm_abs_entry(ch);
    let z = Dec { mantissa: 0 as i128, scale: 0 as u32 };
    if ch.len() == 0 {
        assert forall|c: Seq<char>|
            #[trigger] cm_get(spec_apply_changes(bal, ch), c).val() == cm_get(bal, c).val()
                + cm_get(ch, c).val() by {
            lemma_cm_get(ch, c, s);
        }
    } else {
        let pre = ch.drop_last();
        let e = ch.last();
        assert(cm_wf(pre) && cm_scales(pre, s)) by {
            assert(forall|k: int| 0 <= k < pre.len() ==> #[trigger] pre[k] == ch[k]);
        }
        assert(cm_abs(pre) + abs_val(e.1) == cm_abs(ch));
        assert(abs_val(e.1) >= 0);
        lemma_apply_changes(bal, pre, s);
        let r0 = spec_apply_changes(bal, pre);
        lemma_cm_get(r0, e.0, s);
        assert(e.1.wf() && e.1.scale <= s) by {
            assert(ch[ch.len() - 1] == e);
        }
        crate::decimal::lemma_add_fits_from_bound(
            cm_get(r0, e.0),
            e.1,
            s,
            cm_abs(bal) + cm_abs(ch),
        );
        lemma_cm_add(r0, e.0, e.1, s);
        lemma_cm_abs_add(r0, e.0, e.1, s);
        assert forall|c: Seq<char>|
            #[trigger] cm_get(spec_apply_changes(bal, ch), c).val() == cm_get(bal, c).val()
                + cm_get(ch, c).val() by {
            lemma_cm_index_of(ch, c);
            lemma_cm_index_of(pre, c);
            lemma_cm_get(ch, c, s);
            lemma_cm_get(pre, c, s);
            if c == e.0 {
                // the last entry is the only one under this key
                assert(forall|k: int| 0 <= k < pre.len() ==> #[trigger] pre[k] == ch[k]);
                assert(forall|k: int| 0 <= k < pre.len() ==> ch[k].0 != c);
                if cm_index_of(pre, c) >= 0 {
                    assert(pre[cm_index_of(pre, c)].0 == c);
                    assert(false);
                }
                assert(cm_get(pre, c) == z);
                assert(cm_get(pre, c).val() == 0);
                lemma_cm_index_of_found(ch, c, ch.len() - 1);
                assert(cm_get(ch, c) == e.1);
            } else {
                if cm_index_of(ch, c) >= 0 {
                    let j = cm_index_of(ch, c);
                    assert(ch[j].0 == c);
                    assert(j < ch.len() - 1) by {
                        assert(ch[ch.len() - 1].0 == e.0);
                    }
                    assert(pre[j] == ch[j]);
                    lemma_cm_index_of_found(pre, c, j);
                    assert(cm_get(pre, c) == cm_get(ch, c));
                } else {
                    assert(forall|k: int| 0 <= k < ch.len() ==> ch[k].0 != c);
                    assert(forall|k: int| 0 <= k < pre.len() ==> pre[k].0 != c);
                    if cm_index_of(pre, c) >= 0 {
                        assert(pre[cm_index_of(pre, c)].0 == c);
                        assert(false);
                    }
                    assert(cm_get(pre, c) == z && cm_get(ch, c) == z);
                }
            }
        }
    }
}

/// Adds every entry of `ch` into `m`, in order.
#[verifier::loop_isolation(false)]
pub fn cm_add_all(m: &mut Vec<(String, Dec)>, ch: &Vec<(String, Dec)>, Ghost(s): Ghost<int>)
    requires
        cm_wf(cm_view(old(m)@)),
        cm_scales(cm_view(old(m)@), s),
        cm_wf(cm_view(ch@)),
        cm_scales(cm_view(ch@), s),
        0 <= s <= 28,
        cm_abs(cm_view(old(m)@)) + cm_abs(cm_view(ch@)) < crate::decimal::p96()
            * crate::decimal::pow10((28 - s) as nat),
    ensures
        cm_view(final(m)@) == spec_apply_changes(cm_view(old(m)@), cm_view(ch@)),
        cm_wf(cm_view(final(m)@)),
        cm_scales(cm_view(final(m)@), s),
        cm_abs(cm_view(final(m)@)) <= cm_abs(cm_view(old(m)@)) + cm_abs(cm_view(ch@)),
{
    let ghost bal0 = cm_view(m@);
    let ghost chv = cm_view(ch@);
    let n = ch.len();
    let mut j: usize = 0;
    proof {
        assert(chv.take(0) =~= Seq::<(Seq<char>, Dec)>::empty());
        lemma_cm_abs_take(chv);
        lemma_cm_abs_entry(bal0);
        lemma_cm_abs_entry(chv);
    }
    while j < n
        invariant
            j <= n,
            n == ch@.len(),
            cm_view(ch@) == chv,
            cm_view(m@) == spec_apply_changes(bal0, chv.take(j as int)),
            cm_wf(cm_view(m@)),
            cm_scales(cm_view(m@), s),
            cm_abs(cm_view(m@)) <= cm_abs(bal0) + cm_abs(chv.take(j as int)),
        decreases n - j,
    {
        let ghost mv = cm_view(m@);
        let ghost key = chv[j as int].0;
        let ghost d = chv[j as int].1;
        proof {
            assert(ch@[j as int].0@ == key && ch@[j as int].1 == d);
            lemma_cm_abs_entry(chv);
            assert(d.wf() && d.scale <= s);
            lemma_cm_get(mv, key, s);
            assert(cm_abs(chv.take(j as int)) + abs_val(d) == cm_abs(chv.take(j + 1))
                <= cm_abs(chv)) by {
                lemma_cm_abs_take(chv);
            }
            crate::decimal::lemma_add_fits_from_bound(
                cm_get(mv, key),
                d,
                s,
                cm_abs(bal0) + cm_abs(chv),
            );
            lemma_cm_add(mv, key, d, s);
            lemma_cm_abs_add(mv, key, d, s);
        }
        let entry_key = ch[j].0.clone();
        let entry_val = ch[j].1;
        cm_add(m, entry_key.as_str(), entry_val);
        proof {
            assert(chv.take(j + 1).drop_last() =~= chv.take(j as int));
            assert(chv.take(j + 1).last() == chv[j as int]);
        }
        j = j + 1;
    }
    proof {
        assert(chv.take(n as int) =~= chv);
    }
}

/// An exact copy of a currency map.
pub fn clone_cm(m: &Vec<(String, Dec)>) -> (r: Vec<(String, Dec)>)
    ensures
        cm_view(r@) == cm_view(m@),
        r@.len() == m@.len(),
{
    let mut r: Vec<(String, Dec)> = Vec::new();
    let n = m.len();
    let mut i: usize = 0;
    while i < n
        invariant
            i <= n,
            n == m@.len(),
            r@.len() == i,
            forall|k: int| 0 <= k < i ==> r@[k].0@ == m@[k].0@ && r@[k].1 == m@[k].1,
        decreases n - i,
    {
        let key = m[i].0.clone();
        let val = m[i].1;
        r.push((key, val));
        i = i + 1;
    }
    proof {
        assert(cm_view(r@) =~= cm_view(m@));
    }
    r
}

} // verus!
