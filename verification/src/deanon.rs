//! Reverse substitution: walking a ledger and replacing each placeholder
//! with its recorded value, entry by entry in ledger order.

use vstd::prelude::*;
use crate::chars::{chars_of, string_of, chars_eq, append_range, append_all, sub_vec};
use crate::{ReplaceResult, ledger_view};

verus! {

/// Whether `pat` occurs in `t` at position `i`.
pub open spec fn match_at(t: Seq<char>, pat: Seq<char>, i: int) -> bool {
    0 <= i && i + pat.len() <= t.len() && t.subrange(i, i + pat.len()) == pat
}

/// The first position at or after `i` where `pat` occurs in `t`.
pub open spec fn find_from(t: Seq<char>, pat: Seq<char>, i: int) -> Option<int>
    recommends
        0 <= i,
        pat.len() > 0,
    decreases t.len() - i,
    when 0 <= i && pat.len() > 0
{
    if i + pat.len() > t.len() {
        None
    } else if t.subrange(i, i + pat.len()) == pat {
        Some(i)
    } else {
        find_from(t, pat, i + 1)
    }
}

pub proof fn lemma_find_from_bounds(t: Seq<char>, pat: Seq<char>, i: int)
    requires
        0 <= i,
        pat.len() > 0,
        find_from(t, pat, i) is Some,
    ensures
        i <= find_from(t, pat, i).unwrap(),
        match_at(t, pat, find_from(t, pat, i).unwrap()),
    decreases t.len() - i,
{
    if i + pat.len() <= t.len() && t.subrange(i, i + pat.len()) != pat {
        lemma_find_from_bounds(t, pat, i + 1);
    }
}

/// A found position is the least occurrence at or after `i`.
pub proof fn lemma_find_from_first(t: Seq<char>, pat: Seq<char>, i: int, k: int)
    requires
        0 <= i <= k,
        pat.len() > 0,
        find_from(t, pat, i) is Some,
        i <= k < find_from(t, pat, i).unwrap(),
    ensures
        !match_at(t, pat, k),
    decreases t.len() - i,
{
    if i + pat.len() <= t.len() && t.subrange(i, i + pat.len()) != pat {
        if k > i {
            lemma_find_from_first(t, pat, i + 1, k);
        }
    }
}

/// A failed search means no occurrence at or after `i`.
pub proof fn lemma_find_from_none(t: Seq<char>, pat: Seq<char>, i: int, k: int)
    requires
        0 <= i <= k,
        pat.len() > 0,
        find_from(t, pat, i) is None,
    ensures
        !match_at(t, pat, k),
    decreases t.len() - i,
{
    if i + pat.len() <= t.len() {
        if k > i {
            lemma_find_from_none(t, pat, i + 1, k);
        }
    }
}

/// `t` with every occurrence of `pat` replaced by `rep`, leftmost first,
/// never rescanning the replacement text. An empty pattern replaces
/// nothing.
pub open spec fn replace_all(t: Seq<char>, pat: Seq<char>, rep: Seq<char>) -> Seq<char>
    decreases t.len(),
    via replace_all_dec
{
    if pat.len() == 0 {
        t
    } else {
        match find_from(t, pat, 0) {
            None => t,
            Some(i) => t.subrange(0, i) + rep + replace_all(
                t.subrange(i + pat.len(), t.len() as int),
                pat,
                rep,
            ),
        }
    }
}

#[via_fn]
proof fn replace_all_dec(t: Seq<char>, pat: Seq<char>, rep: Seq<char>) {
    if pat.len() > 0 && find_from(t, pat, 0) is Some {
        lemma_find_from_bounds(t, pat, 0);
    }
}

/// The text after the ledger entries have been applied in order, each
/// replacing its placeholder with its recorded value everywhere.
pub open spec fn deanon_spec(text: Seq<char>, items: Seq<(Seq<char>, Seq<char>)>) -> Seq<char>
    decreases items.len(),
{
    if items.len() == 0 {
        text
    } else {
        deanon_spec(replace_all(text, items[0].0, items[0].1), items.drop_first())
    }
}

/// An occurrence in the right half of a concatenation, seen from the whole.
pub proof fn lemma_match_at_concat(x: Seq<char>, y: Seq<char>, pat: Seq<char>, i: int)
    requires
        0 <= i,
    ensures
        match_at(y, pat, i) <==> match_at(x + y, pat, x.len() + i),
{
    let t = x + y;
    if i + pat.len() <= y.len() {
        assert(t.subrange(x.len() + i, x.len() + i + pat.len()) =~= y.subrange(i, i + pat.len()));
    }
}

/// A search that starts at or before the first occurrence finds it.
pub proof fn lemma_find_from_exact(t: Seq<char>, pat: Seq<char>, i: int, m: int)
    requires
        pat.len() > 0,
        0 <= i <= m,
        match_at(t, pat, m),
        forall|k: int| i <= k < m ==> !match_at(t, pat, k),
    ensures
        find_from(t, pat, i) == Some(m),
    decreases m - i,
{
    if i < m {
        assert(!match_at(t, pat, i));
        lemma_find_from_exact(t, pat, i + 1, m);
    }
}

/// A pattern with no occurrence replaces nothing.
pub proof fn lemma_replace_all_none(t: Seq<char>, pat: Seq<char>, rep: Seq<char>)
    requires
        pat.len() > 0,
        forall|i: int| !match_at(t, pat, i),
    ensures
        replace_all(t, pat, rep) == t,
{
    if find_from(t, pat, 0) is Some {
        lemma_find_from_bounds(t, pat, 0);
    }
}

/// Replacement passes over a clean prefix: when no occurrence of the
/// pattern starts inside `x`, replacement happens in the remainder alone.
pub proof fn lemma_replace_all_skip(x: Seq<char>, rest: Seq<char>, pat: Seq<char>, rep: Seq<char>)
    requires
        pat.len() > 0,
        forall|i: int| 0 <= i < x.len() ==> !match_at(x + rest, pat, i),
    ensures
        replace_all(x + rest, pat, rep) == x + replace_all(rest, pat, rep),
{
    let t = x + rest;
    match find_from(t, pat, 0) {
        None => {
            assert forall|i: int| !match_at(rest, pat, i) by {
                if 0 <= i {
                    lemma_match_at_concat(x, rest, pat, i);
                    lemma_find_from_none(t, pat, 0, x.len() + i);
                }
            }
            lemma_replace_all_none(rest, pat, rep);
        },
        Some(m) => {
            lemma_find_from_bounds(t, pat, 0);
            assert(m >= x.len()) by {
                if 0 <= m < x.len() {
                    assert(!match_at(t, pat, m));
                }
            }
            let m2 = m - x.len();
            lemma_match_at_concat(x, rest, pat, m2);
            assert forall|i: int| 0 <= i < m2 implies !match_at(rest, pat, i) by {
                lemma_match_at_concat(x, rest, pat, i);
                if x.len() + i < m {
                    lemma_find_from_first(t, pat, 0, x.len() + i);
                }
            }
            lemma_find_from_exact(rest, pat, 0, m2);
            assert(t.subrange(0, m) =~= x + rest.subrange(0, m2));
            assert(t.subrange(m + pat.len() as int, t.len() as int) =~= rest.subrange(
                m2 + pat.len() as int,
                rest.len() as int,
            ));
            assert(replace_all(t, pat, rep) == t.subrange(0, m) + rep + replace_all(
                t.subrange(m + pat.len() as int, t.len() as int),
                pat,
                rep,
            ));
            assert(replace_all(rest, pat, rep) == rest.subrange(0, m2) + rep + replace_all(
                rest.subrange(m2 + pat.len() as int, rest.len() as int),
                pat,
                rep,
            ));
            assert((x + rest.subrange(0, m2)) + rep + replace_all(
                rest.subrange(m2 + pat.len() as int, rest.len() as int),
                pat,
                rep,
            ) =~= x + (rest.subrange(0, m2) + rep + replace_all(
                rest.subrange(m2 + pat.len() as int, rest.len() as int),
                pat,
                rep,
            )));
        },
    }
}

/// A replacement pass over a text that begins with the pattern replaces it
/// and continues in the remainder.
pub proof fn lemma_replace_all_hit(rest: Seq<char>, pat: Seq<char>, rep: Seq<char>)
    requires
        pat.len() > 0,
    ensures
        replace_all(pat + rest, pat, rep) == rep + replace_all(rest, pat, rep),
{
    let t = pat + rest;
    assert(match_at(t, pat, 0)) by {
        assert(t.subrange(0, pat.len() as int) =~= pat);
    }
    lemma_find_from_exact(t, pat, 0, 0);
    assert(t.subrange(0, 0) =~= Seq::<char>::empty());
    assert(t.subrange(pat.len() as int, t.len() as int) =~= rest);
    assert(Seq::<char>::empty() + rep + replace_all(rest, pat, rep) =~= rep + replace_all(
        rest,
        pat,
        rep,
    ));
}

/// A text decomposed into literal pieces with one placeholder slot between
/// consecutive pieces: slot `i` holds a ledger entry and sits between
/// `parts[i]` and `parts[i + 1]`. `woven_keys` is the text with each slot
/// showing its entry's placeholder.
pub open spec fn woven_keys(parts: Seq<Seq<char>>, slots: Seq<(Seq<char>, Seq<char>)>) -> Seq<
    char,
>
    recommends
        parts.len() == slots.len() + 1,
    decreases parts.len(),
{
    if parts.len() == 0 {
        Seq::empty()
    } else if parts.len() == 1 {
        parts[0]
    } else {
        parts[0] + slots[0].0 + woven_keys(parts.drop_first(), slots.drop_first())
    }
}

/// The same decomposition with each slot showing its entry's recorded
/// value: the text the decomposition stands for before anonymization.
pub open spec fn woven_values(parts: Seq<Seq<char>>, slots: Seq<(Seq<char>, Seq<char>)>) -> Seq<
    char,
>
    recommends
        parts.len() == slots.len() + 1,
    decreases parts.len(),
{
    if parts.len() == 0 {
        Seq::empty()
    } else if parts.len() == 1 {
        parts[0]
    } else {
        parts[0] + slots[0].1 + woven_values(parts.drop_first(), slots.drop_first())
    }
}

/// Extending the leading piece prepends to the woven text.
pub proof fn lemma_woven_head(
    a: Seq<char>,
    parts: Seq<Seq<char>>,
    slots: Seq<(Seq<char>, Seq<char>)>,
)
    requires
        parts.len() == slots.len() + 1,
    ensures
        woven_keys(seq![a + parts[0]] + parts.drop_first(), slots) == a + woven_keys(
            parts,
            slots,
        ),
        woven_values(seq![a + parts[0]] + parts.drop_first(), slots) == a + woven_values(
            parts,
            slots,
        ),
{
    let p2 = seq![a + parts[0]] + parts.drop_first();
    assert(p2.len() == parts.len());
    assert(p2[0] == a + parts[0]);
    if parts.len() == 1 {
        assert(woven_keys(p2, slots) == p2[0]);
        assert(woven_values(p2, slots) == p2[0]);
    } else {
        assert(p2.drop_first() =~= parts.drop_first());
        let wk = woven_keys(parts.drop_first(), slots.drop_first());
        let wv = woven_values(parts.drop_first(), slots.drop_first());
        assert(woven_keys(p2, slots) == (a + parts[0]) + slots[0].0 + wk);
        assert((a + parts[0]) + slots[0].0 + wk =~= a + (parts[0] + slots[0].0 + wk));
        assert(woven_values(p2, slots) == (a + parts[0]) + slots[0].1 + wv);
        assert((a + parts[0]) + slots[0].1 + wv =~= a + (parts[0] + slots[0].1 + wv));
    }
}

/// The decomposition after one ledger entry is substituted back: every
/// slot whose placeholder is `k` turns into literal text `v`, merging its
/// neighbouring pieces; the other slots remain.
pub open spec fn resolve(
    parts: Seq<Seq<char>>,
    slots: Seq<(Seq<char>, Seq<char>)>,
    k: Seq<char>,
    v: Seq<char>,
) -> (Seq<Seq<char>>, Seq<(Seq<char>, Seq<char>)>)
    recommends
        parts.len() == slots.len() + 1,
    decreases slots.len(),
{
    if slots.len() == 0 {
        (parts, slots)
    } else {
        let r = resolve(parts.drop_first(), slots.drop_first(), k, v);
        if slots[0].0 == k {
            (seq![parts[0] + v + r.0[0]] + r.0.drop_first(), r.1)
        } else {
            (seq![parts[0]] + r.0, seq![slots[0]] + r.1)
        }
    }
}

/// The placeholder `k` occurs in the woven text only at its own slots: at
/// every stage of the decomposition, no occurrence starts inside the
/// leading piece (nor inside or straddling another entry's placeholder).
pub open spec fn slots_clean(
    parts: Seq<Seq<char>>,
    slots: Seq<(Seq<char>, Seq<char>)>,
    k: Seq<char>,
) -> bool
    recommends
        parts.len() == slots.len() + 1,
    decreases slots.len(),
{
    if slots.len() == 0 {
        forall|i: int| !match_at(woven_keys(parts, slots), k, i)
    } else {
        let skip_len = if slots[0].0 == k {
            parts[0].len() as int
        } else {
            parts[0].len() + slots[0].0.len() as int
        };
        &&& forall|i: int| 0 <= i < skip_len ==> !match_at(woven_keys(parts, slots), k, i)
        &&& slots_clean(parts.drop_first(), slots.drop_first(), k)
    }
}

/// Replacing one entry's placeholder everywhere turns exactly its slots
/// into literal values: the woven text of the resolved decomposition is
/// the replaced text, the decomposition still stands for the same original
/// text, and the remaining slots are the other entries' slots.
pub proof fn lemma_resolve(
    parts: Seq<Seq<char>>,
    slots: Seq<(Seq<char>, Seq<char>)>,
    k: Seq<char>,
    v: Seq<char>,
)
    requires
        parts.len() == slots.len() + 1,
        k.len() > 0,
        slots_clean(parts, slots, k),
        forall|s: int| 0 <= s < slots.len() && (#[trigger] slots[s]).0 == k ==> slots[s].1 == v,
    ensures
        ({
            let r = resolve(parts, slots, k, v);
            &&& r.0.len() == r.1.len() + 1
            &&& replace_all(woven_keys(parts, slots), k, v) == woven_keys(r.0, r.1)
            &&& woven_values(r.0, r.1) == woven_values(parts, slots)
            &&& forall|i: int|
                0 <= i < r.1.len() ==> slots.contains(#[trigger] r.1[i]) && r.1[i].0 != k
        }),
    decreases slots.len(),
{
    let r = resolve(parts, slots, k, v);
    let whole = woven_keys(parts, slots);
    if slots.len() == 0 {
        lemma_replace_all_none(whole, k, v);
    } else {
        let dp = parts.drop_first();
        let ds = slots.drop_first();
        assert(forall|s: int|
            0 <= s < ds.len() && (#[trigger] ds[s]).0 == k ==> ds[s].1 == v) by {
            assert(forall|s: int| 0 <= s < ds.len() ==> ds[s] == slots[s + 1]);
        }
        let r2 = resolve(dp, ds, k, v);
        lemma_resolve(dp, ds, k, v);
        let rest = woven_keys(dp, ds);
        assert forall|i: int| 0 <= i < r2.1.len() implies slots.contains(#[trigger] r2.1[i])
            && r2.1[i].0 != k by {
            let s = choose|s: int| 0 <= s < ds.len() && ds[s] == r2.1[i];
            assert(slots[s + 1] == r2.1[i]);
        }
        if slots[0].0 == k {
            assert(slots[0].1 == v);
            assert(whole =~= parts[0] + (k + rest));
            assert forall|i: int|
                0 <= i < parts[0].len() implies !match_at(parts[0] + (k + rest), k, i) by {
                assert(!match_at(whole, k, i));
            }
            lemma_replace_all_skip(parts[0], k + rest, k, v);
            lemma_replace_all_hit(rest, k, v);
            assert(replace_all(whole, k, v) == parts[0] + (v + replace_all(rest, k, v)));
            lemma_woven_head(parts[0] + v, r2.0, r2.1);
            assert(seq![(parts[0] + v) + r2.0[0]] + r2.0.drop_first() =~= r.0);
            assert(woven_keys(r.0, r.1) == (parts[0] + v) + woven_keys(r2.0, r2.1));
            assert(parts[0] + (v + woven_keys(r2.0, r2.1)) =~= (parts[0] + v) + woven_keys(
                r2.0,
                r2.1,
            ));
            assert(woven_values(r.0, r.1) == (parts[0] + v) + woven_values(r2.0, r2.1));
            assert(woven_values(parts, slots) == parts[0] + slots[0].1 + woven_values(dp, ds));
            assert((parts[0] + v) + woven_values(dp, ds) =~= parts[0] + v + woven_values(dp, ds));
        } else {
            assert(whole =~= (parts[0] + slots[0].0) + rest);
            assert forall|i: int|
                0 <= i < (parts[0] + slots[0].0).len() implies !match_at(
                (parts[0] + slots[0].0) + rest,
                k,
                i,
            ) by {
                assert(!match_at(whole, k, i));
            }
            lemma_replace_all_skip(parts[0] + slots[0].0, rest, k, v);
            assert(replace_all(whole, k, v) == (parts[0] + slots[0].0) + replace_all(
                rest,
                k,
                v,
            ));
            assert(r.0[0] == parts[0] && r.1[0] == slots[0]);
            assert(r.0.drop_first() =~= r2.0);
            assert(r.1.drop_first() =~= r2.1);
            assert(woven_keys(r.0, r.1) == parts[0] + slots[0].0 + woven_keys(r2.0, r2.1));
            assert((parts[0] + slots[0].0) + woven_keys(r2.0, r2.1) =~= parts[0] + slots[0].0
                + woven_keys(r2.0, r2.1));
            assert(woven_values(r.0, r.1) == parts[0] + slots[0].1 + woven_values(r2.0, r2.1));
            assert(woven_values(parts, slots) == parts[0] + slots[0].1 + woven_values(dp, ds));
            assert forall|i: int| 0 <= i < r.1.len() implies slots.contains(#[trigger] r.1[i])
                && r.1[i].0 != k by {
                if i == 0 {
                    assert(slots[0] == r.1[0]);
                } else {
                    assert(r.1[i] == r2.1[i - 1]);
                }
            }
        }
    }
}

/// The ledger can be substituted back one entry at a time: when an entry
/// is processed, its placeholder is non-empty, occurs in the current text
/// only at its own slots, and each of those slots records the entry's
/// value; after the last entry every slot has been resolved.
pub open spec fn round_trip_clean(
    parts: Seq<Seq<char>>,
    slots: Seq<(Seq<char>, Seq<char>)>,
    items: Seq<(Seq<char>, Seq<char>)>,
) -> bool
    recommends
        parts.len() == slots.len() + 1,
    decreases items.len(),
{
    if items.len() == 0 {
        slots.len() == 0
    } else {
        let k = items[0].0;
        let v = items[0].1;
        let r = resolve(parts, slots, k, v);
        &&& k.len() > 0
        &&& slots_clean(parts, slots, k)
        &&& (forall|s: int|
            0 <= s < slots.len() && (#[trigger] slots[s]).0 == k ==> slots[s].1 == v)
        &&& round_trip_clean(r.0, r.1, items.drop_first())
    }
}

/// Round trip: deanonymizing an anonymized text reproduces the original.
/// A text that decomposes into literal pieces and placeholder slots
/// deanonymizes, entry by entry in ledger order, to the same pieces with
/// each slot's recorded value in place of its placeholder — exactly when
/// each placeholder, at the moment its entry is processed, occurs only at
/// its own slots ([`round_trip_clean`]); a placeholder that also occurs
/// inside a literal piece, a value, or another placeholder falls outside
/// this hypothesis and the result is order-dependent.
pub proof fn lemma_round_trip(
    parts: Seq<Seq<char>>,
    slots: Seq<(Seq<char>, Seq<char>)>,
    items: Seq<(Seq<char>, Seq<char>)>,
)
    requires
        parts.len() == slots.len() + 1,
        round_trip_clean(parts, slots, items),
    ensures
        deanon_spec(woven_keys(parts, slots), items) == woven_values(parts, slots),
    decreases items.len(),
{
    if items.len() > 0 {
        let k = items[0].0;
        let v = items[0].1;
        let r = resolve(parts, slots, k, v);
        lemma_resolve(parts, slots, k, v);
        lemma_round_trip(r.0, r.1, items.drop_first());
        assert(deanon_spec(woven_keys(parts, slots), items) == deanon_spec(
            replace_all(woven_keys(parts, slots), k, v),
            items.drop_first(),
        ));
    }
}

/// The first position at or after `from` where `pat` occurs in `t`.
fn find_from_exec(t: &Vec<char>, pat: &Vec<char>, from: usize) -> (r: Option<usize>)
    requires
        from <= t@.len(),
        pat@.len() > 0,
    ensures
        match r {
            Some(i) => find_from(t@, pat@, from as int) == Some(i as int) && from <= i && i
                + pat@.len() <= t@.len(),
            None => find_from(t@, pat@, from as int) is None,
        },
{
    let mut i = from;
    loop
        invariant
            from <= i <= t@.len(),
            pat@.len() > 0,
            find_from(t@, pat@, from as int) == find_from(t@, pat@, i as int),
        decreases t@.len() - i,
    {
        if pat.len() > t.len() - i {
            return None;
        }
        let cand = sub_vec(t, i, i + pat.len());
        if chars_eq(&cand, pat) {
            return Some(i);
        }
        i = i + 1;
    }
}

/// `t` with every occurrence of `pat` replaced by `rep`.
pub fn replace_all_chars(t: &Vec<char>, pat: &Vec<char>, rep: &Vec<char>) -> (r: Vec<char>)
    ensures
        r@ == replace_all(t@, pat@, rep@),
    decreases t@.len(),
{
    if pat.len() == 0 {
        let r = sub_vec(t, 0, t.len());
        proof {
            assert(t@.subrange(0, t@.len() as int) =~= t@);
        }
        return r;
    }
    match find_from_exec(t, pat, 0) {
        None => {
            let r = sub_vec(t, 0, t.len());
            proof {
                assert(t@.subrange(0, t@.len() as int) =~= t@);
            }
            r
        },
        Some(i) => {
            let tl = t.len();
            let suffix = sub_vec(t, i + pat.len(), tl);
            let rest = replace_all_chars(&suffix, pat, rep);
            let mut r = sub_vec(t, 0, i);
            append_all(&mut r, rep);
            append_all(&mut r, &rest);
            proof {
                assert(r@ =~= t@.subrange(0, i as int) + rep@ + replace_all(
                    t@.subrange(i + pat@.len(), t@.len() as int),
                    pat@,
                    rep@,
                ));
            }
            r
        },
    }
}

/// Restores the original text of `input`: each ledger entry's placeholder
/// is replaced by its recorded value, entries applied in ledger order.
pub fn deanonymize(input: ReplaceResult) -> (r: String)
    ensures
        r@ == deanon_spec(input.text@, ledger_view(input.items@)),
{
    let ghost full = ledger_view(input.items@);
    let mut cur = chars_of(input.text.as_str());
    let mut i: usize = 0;
    proof {
        assert(full.skip(0) =~= full);
    }
    while i < input.items.len()
        invariant
            i <= input.items@.len(),
            full == ledger_view(input.items@),
            full.len() == input.items@.len(),
            deanon_spec(input.text@, full) == deanon_spec(cur@, full.skip(i as int)),
        decreases input.items@.len() - i,
    {
        let ghost rem = full.skip(i as int);
        proof {
            assert(rem[0] == full[i as int]);
            assert(rem.drop_first() =~= full.skip(i as int + 1));
        }
        let pat = chars_of(input.items[i].0.as_str());
        let rep = chars_of(input.items[i].1.as_str());
        cur = replace_all_chars(&cur, &pat, &rep);
        i = i + 1;
    }
    proof {
        assert(full.skip(i as int).len() == 0);
    }
    string_of(&cur)
}

} // verus!
