//! The keyword stage: a trie-backed scanner that replaces keyword matches
//! (extended to word boundaries) with deduplicated placeholders.
//!
//! The whole pass is described by the spec function [`scan`]: it walks the
//! text once, never backtracking; at each position it attempts a maximal
//! trie descent, extends a terminal match forward through the following
//! alphabetic run, splits off trailing non-alphabetic characters, and
//! replaces the value through the ledger, minting `<prefix><index>`
//! placeholders for values not seen before.

use vstd::prelude::*;
use crate::chars::{
    char_alpha, is_alpha, chars_of, string_of, dec_chars, append_range, append_all, sub_vec,
    spec_dec,
};
use crate::error::AnonymizeError;
use crate::ledger::{find_value, find_by_value};
use crate::trie::{
    TrieNode, accepts, attempt, resume, insert_at, inserted, descend_exec, get_child,
    lemma_descend_bounds, find_child,
};
use crate::{ReplaceResult, ledger_view, str_views};

verus! {

/// Position `i` of `text` is a word boundary: at or past the end, or at a
/// non-alphabetic character.
pub open spec fn boundary(text: Seq<char>, i: int) -> bool {
    i >= text.len() || !char_alpha(text[i])
}

/// The first word boundary at or after `j`.
pub open spec fn boundary_from(text: Seq<char>, j: int) -> int
    recommends
        0 <= j <= text.len(),
    decreases text.len() - j,
{
    if j >= text.len() {
        text.len() as int
    } else if !char_alpha(text[j]) {
        j
    } else {
        boundary_from(text, j + 1)
    }
}

pub proof fn lemma_boundary_from_bounds(text: Seq<char>, j: int)
    requires
        0 <= j <= text.len(),
    ensures
        j <= boundary_from(text, j) <= text.len(),
        boundary(text, boundary_from(text, j)),
    decreases text.len() - j,
{
    if j < text.len() && char_alpha(text[j]) {
        lemma_boundary_from_bounds(text, j + 1);
    }
}

/// The length of a span's value part: the span with its trailing
/// non-alphabetic characters dropped.
pub open spec fn value_len(span: Seq<char>) -> int
    decreases span.len(),
{
    if span.len() == 0 {
        0
    } else if char_alpha(span.last()) {
        span.len() as int
    } else {
        value_len(span.drop_last())
    }
}

pub proof fn lemma_value_len_bounds(span: Seq<char>)
    ensures
        0 <= value_len(span) <= span.len(),
    decreases span.len(),
{
    if span.len() > 0 && !char_alpha(span.last()) {
        lemma_value_len_bounds(span.drop_last());
    }
}

/// The state threaded through a keyword scan: the output text built so far,
/// the ledger, and the next placeholder index.
#[verifier::ext_equal]
pub ghost struct ScanState {
    pub out: Seq<char>,
    pub items: Seq<(Seq<char>, Seq<char>)>,
    pub idx: int,
}

/// One keyword-replacement pass over `text` from position `p`.
///
/// At each position: if no trie edge leaves the root on the current
/// character, the character is copied through. A failed descent copies the
/// characters it consumed through unchanged and resumes after them (the
/// scanner never backtracks). A descent that stops at a terminal node is a
/// match: the span extends through the following alphabetic run, its value
/// (the span minus trailing non-alphabetic characters) is replaced by the
/// ledger's placeholder for that value — minted as `<prefix><index>` on
/// first sight — and the trailing characters are copied through unchanged.
pub open spec fn scan(
    root: TrieNode,
    prefix: Seq<char>,
    text: Seq<char>,
    p: int,
    st: ScanState,
) -> ScanState
    decreases text.len() - p,
    when 0 <= p <= text.len()
    via scan_dec
{
    if p >= text.len() {
        st
    } else {
        match attempt(root, text, p) {
            None => scan(
                root,
                prefix,
                text,
                p + 1,
                ScanState { out: st.out.push(text[p]), items: st.items, idx: st.idx },
            ),
            Some((j, terminal)) => {
                if !terminal {
                    let r = resume(text, j);
                    scan(
                        root,
                        prefix,
                        text,
                        r,
                        ScanState { out: st.out + text.subrange(p, r), items: st.items, idx: st.idx },
                    )
                } else {
                    let e = boundary_from(text, j);
                    let span = text.subrange(p, e);
                    let vl = value_len(span);
                    let value = span.take(vl);
                    let addition = span.skip(vl);
                    match find_value(st.items, value) {
                        Some(k) => scan(
                            root,
                            prefix,
                            text,
                            e,
                            ScanState { out: st.out + k + addition, items: st.items, idx: st.idx },
                        ),
                        None => scan(
                            root,
                            prefix,
                            text,
                            e,
                            ScanState {
                                out: st.out + prefix + spec_dec(st.idx) + addition,
                                items: st.items.push((prefix + spec_dec(st.idx), value)),
                                idx: st.idx + 1,
                            },
                        ),
                    }
                }
            },
        }
    }
}

#[via_fn]
proof fn scan_dec(root: TrieNode, prefix: Seq<char>, text: Seq<char>, p: int, st: ScanState) {
    if 0 <= p < text.len() {
        if attempt(root, text, p) is Some {
            let child = find_child(root.children@, text[p]).unwrap();
            lemma_descend_bounds(child, text, p + 1);
            let j = attempt(root, text, p).unwrap().0;
            lemma_boundary_from_bounds(text, j);
        }
    }
}

/// The keyword detections of [`FlashTextAnonymizer::find_keywords`]: the
/// words spelled by each terminal trie descent, in scan order.
pub open spec fn find_spec(root: TrieNode, text: Seq<char>, p: int) -> Seq<Seq<char>>
    decreases text.len() - p,
    when 0 <= p <= text.len()
    via find_spec_dec
{
    if p >= text.len() {
        Seq::empty()
    } else {
        match attempt(root, text, p) {
            None => find_spec(root, text, p + 1),
            Some((j, terminal)) => {
                if terminal {
                    seq![text.subrange(p, j)] + find_spec(root, text, resume(text, j))
                } else {
                    find_spec(root, text, resume(text, j))
                }
            },
        }
    }
}

#[via_fn]
proof fn find_spec_dec(root: TrieNode, text: Seq<char>, p: int) {
    if 0 <= p < text.len() {
        if attempt(root, text, p) is Some {
            let child = find_child(root.children@, text[p]).unwrap();
            lemma_descend_bounds(child, text, p + 1);
        }
    }
}

/// The ledger a call starts from: the entries handed in by the caller, or
/// none.
pub open spec fn init_items(items: Option<Vec<(String, String)>>) -> Seq<(Seq<char>, Seq<char>)> {
    match items {
        Some(v) => ledger_view(v@),
        None => Seq::empty(),
    }
}

/// The scan of `text` with the given trie, prefix and starting ledger,
/// from the beginning of the text.
pub open spec fn scan_from_start(
    root: TrieNode,
    prefix: Seq<char>,
    text: Seq<char>,
    items0: Seq<(Seq<char>, Seq<char>)>,
) -> ScanState {
    scan(root, prefix, text, 0, ScanState { out: Seq::empty(), items: items0, idx: 0 })
}

pub proof fn lemma_boundary_from_alpha(text: Seq<char>, j: int)
    requires
        0 <= j <= text.len(),
    ensures
        forall|k: int| j <= k < boundary_from(text, j) ==> char_alpha(#[trigger] text[k]),
    decreases text.len() - j,
{
    if j < text.len() && char_alpha(text[j]) {
        lemma_boundary_from_alpha(text, j + 1);
    }
}

/// A successful match attempt at `p` spells a keyword of the trie.
pub proof fn lemma_attempt_accepts(root: TrieNode, text: Seq<char>, p: int)
    requires
        0 <= p <= text.len(),
        attempt(root, text, p) is Some,
        attempt(root, text, p).unwrap().1,
    ensures
        accepts(root, text.subrange(p, attempt(root, text, p).unwrap().0)),
        p < attempt(root, text, p).unwrap().0 <= text.len(),
{
    let child = find_child(root.children@, text[p]).unwrap();
    let j = attempt(root, text, p).unwrap().0;
    crate::trie::lemma_descend_bounds(child, text, p + 1);
    crate::trie::lemma_descend_terminal_accepts(child, text, p + 1);
    let w = text.subrange(p, j);
    assert(w[0] == text[p]);
    assert(w.drop_first() =~= text.subrange(p + 1, j));
}

/// Every keyword match is a maximal alphabetic run led by a dictionary
/// entry: the matched characters up to the descent's stop spell a keyword
/// of the trie, the span then extends exactly through the following
/// alphabetic run, and it ends on a word boundary (a non-alphabetic
/// character or the end of the text). Spans are ranges of whole characters,
/// so no match splits a character. (A match's start needs no boundary: the
/// scanner attempts a descent at every position it has not yet consumed.)
pub proof fn lemma_match_is_maximal_alphabetic_run(root: TrieNode, text: Seq<char>, p: int)
    requires
        0 <= p <= text.len(),
        attempt(root, text, p) is Some,
        attempt(root, text, p).unwrap().1,
    ensures
        ({
            let j = attempt(root, text, p).unwrap().0;
            let e = boundary_from(text, j);
            &&& accepts(root, text.subrange(p, j))
            &&& forall|k: int| j <= k < e ==> char_alpha(#[trigger] text[k])
            &&& boundary(text, e)
            &&& p < j <= e <= text.len()
        }),
{
    let j = attempt(root, text, p).unwrap().0;
    lemma_attempt_accepts(root, text, p);
    lemma_boundary_from_bounds(text, j);
    lemma_boundary_from_alpha(text, j);
}

/// Deduplication: one scan never alters or drops ledger entries it was
/// handed, and it records a source value at most once — every later
/// occurrence of a recorded value reuses the existing placeholder, so the
/// recorded values stay pairwise distinct.
pub proof fn lemma_scan_dedup(
    root: TrieNode,
    prefix: Seq<char>,
    text: Seq<char>,
    p: int,
    st: ScanState,
)
    requires
        0 <= p <= text.len(),
    ensures
        ({
            let r = scan(root, prefix, text, p, st);
            &&& r.items.len() >= st.items.len()
            &&& forall|i: int| 0 <= i < st.items.len() ==> r.items[i] == st.items[i]
            &&& crate::ledger::values_distinct(st.items) ==> crate::ledger::values_distinct(
                r.items,
            )
        }),
    decreases text.len() - p,
{
    if p < text.len() {
        match attempt(root, text, p) {
            None => {
                let st2 = ScanState { out: st.out.push(text[p]), items: st.items, idx: st.idx };
                lemma_scan_dedup(root, prefix, text, p + 1, st2);
                assert(scan(root, prefix, text, p, st) == scan(root, prefix, text, p + 1, st2));
            },
            Some((j, terminal)) => {
                let child = find_child(root.children@, text[p]).unwrap();
                crate::trie::lemma_descend_bounds(child, text, p + 1);
                if !terminal {
                    let r = resume(text, j);
                    let st2 = ScanState {
                        out: st.out + text.subrange(p, r),
                        items: st.items,
                        idx: st.idx,
                    };
                    lemma_scan_dedup(root, prefix, text, r, st2);
                    assert(scan(root, prefix, text, p, st) == scan(root, prefix, text, r, st2));
                } else {
                    let e = boundary_from(text, j);
                    lemma_boundary_from_bounds(text, j);
                    let span = text.subrange(p, e);
                    let vl = value_len(span);
                    let value = span.take(vl);
                    let addition = span.skip(vl);
                    match find_value(st.items, value) {
                        Some(k) => {
                            let st2 = ScanState {
                                out: st.out + k + addition,
                                items: st.items,
                                idx: st.idx,
                            };
                            lemma_scan_dedup(root, prefix, text, e, st2);
                            assert(scan(root, prefix, text, p, st) == scan(
                                root,
                                prefix,
                                text,
                                e,
                                st2,
                            ));
                        },
                        None => {
                            let key = prefix + spec_dec(st.idx);
                            let st2 = ScanState {
                                out: st.out + prefix + spec_dec(st.idx) + addition,
                                items: st.items.push((key, value)),
                                idx: st.idx + 1,
                            };
                            if crate::ledger::values_distinct(st.items) {
                                crate::ledger::lemma_push_preserves_distinct(
                                    st.items,
                                    key,
                                    value,
                                );
                            }
                            lemma_scan_dedup(root, prefix, text, e, st2);
                            assert(scan(root, prefix, text, p, st) == scan(
                                root,
                                prefix,
                                text,
                                e,
                                st2,
                            ));
                        },
                    }
                }
            },
        }
    } else {
        assert(scan(root, prefix, text, p, st) == st);
    }
}

/// Every scan output decomposes into literal pieces and placeholder
/// slots: the produced text is the pieces woven with the slots'
/// placeholders, the same pieces woven with the slots' recorded values
/// reassemble exactly the text that was scanned, and every slot is an
/// entry of the produced ledger. Together with the round-trip law over
/// such decompositions, deanonymizing an anonymized text reproduces the
/// original whenever the decomposition satisfies the round-trip
/// cleanliness hypothesis.
pub proof fn lemma_scan_decomposition(
    root: TrieNode,
    prefix: Seq<char>,
    text: Seq<char>,
    p: int,
    st: ScanState,
) -> (d: (Seq<Seq<char>>, Seq<(Seq<char>, Seq<char>)>))
    requires
        0 <= p <= text.len(),
    ensures
        d.0.len() == d.1.len() + 1,
        scan(root, prefix, text, p, st).out == st.out + crate::deanon::woven_keys(d.0, d.1),
        crate::deanon::woven_values(d.0, d.1) == text.subrange(p, text.len() as int),
        forall|i: int|
            0 <= i < d.1.len() ==> scan(root, prefix, text, p, st).items.contains(
                #[trigger] d.1[i],
            ),
    decreases text.len() - p,
{
    let fin = scan(root, prefix, text, p, st);
    if p >= text.len() {
        let d = (seq![Seq::<char>::empty()], Seq::<(Seq<char>, Seq<char>)>::empty());
        assert(scan(root, prefix, text, p, st) == st);
        assert(crate::deanon::woven_keys(d.0, d.1) == Seq::<char>::empty());
        assert(st.out + Seq::<char>::empty() =~= st.out);
        assert(text.subrange(p, text.len() as int) =~= Seq::<char>::empty());
        d
    } else {
        match attempt(root, text, p) {
            None => {
                let st2 = ScanState { out: st.out.push(text[p]), items: st.items, idx: st.idx };
                assert(scan(root, prefix, text, p, st) == scan(root, prefix, text, p + 1, st2));
                let d2 = lemma_scan_decomposition(root, prefix, text, p + 1, st2);
                let a = seq![text[p]];
                let d = (seq![a + d2.0[0]] + d2.0.drop_first(), d2.1);
                crate::deanon::lemma_woven_head(a, d2.0, d2.1);
                assert(fin.out =~= st.out + (a + crate::deanon::woven_keys(d2.0, d2.1)));
                assert(crate::deanon::woven_values(d.0, d.1) =~= text.subrange(
                    p,
                    text.len() as int,
                ));
                d
            },
            Some((j, terminal)) => {
                let child = find_child(root.children@, text[p]).unwrap();
                crate::trie::lemma_descend_bounds(child, text, p + 1);
                if !terminal {
                    let r = resume(text, j);
                    let a = text.subrange(p, r);
                    let st2 = ScanState { out: st.out + a, items: st.items, idx: st.idx };
                    assert(scan(root, prefix, text, p, st) == scan(root, prefix, text, r, st2));
                    let d2 = lemma_scan_decomposition(root, prefix, text, r, st2);
                    let d = (seq![a + d2.0[0]] + d2.0.drop_first(), d2.1);
                    crate::deanon::lemma_woven_head(a, d2.0, d2.1);
                    assert(fin.out =~= st.out + (a + crate::deanon::woven_keys(d2.0, d2.1)));
                    assert(a + text.subrange(r, text.len() as int) =~= text.subrange(
                        p,
                        text.len() as int,
                    ));
                    d
                } else {
                    let e = boundary_from(text, j);
                    lemma_boundary_from_bounds(text, j);
                    let span = text.subrange(p, e);
                    let vl = value_len(span);
                    lemma_value_len_bounds(span);
                    let value = span.take(vl);
                    let addition = span.skip(vl);
                    let key = match find_value(st.items, value) {
                        Some(k) => k,
                        None => prefix + spec_dec(st.idx),
                    };
                    let st2 = match find_value(st.items, value) {
                        Some(k) => ScanState {
                            out: st.out + k + addition,
                            items: st.items,
                            idx: st.idx,
                        },
                        None => ScanState {
                            out: st.out + prefix + spec_dec(st.idx) + addition,
                            items: st.items.push((prefix + spec_dec(st.idx), value)),
                            idx: st.idx + 1,
                        },
                    };
                    assert(scan(root, prefix, text, p, st) == scan(root, prefix, text, e, st2));
                    assert(st2.items.contains((key, value))) by {
                        if find_value(st.items, value) is Some {
                            let t = crate::ledger::lemma_find_value_entry(st.items, value);
                            assert(st2.items[t] == (key, value));
                        } else {
                            assert(st2.items[st.items.len() as int] == (key, value));
                        }
                    }
                    lemma_scan_dedup(root, prefix, text, e, st2);
                    let d2 = lemma_scan_decomposition(root, prefix, text, e, st2);
                    let merged = (seq![addition + d2.0[0]] + d2.0.drop_first(), d2.1);
                    crate::deanon::lemma_woven_head(addition, d2.0, d2.1);
                    let d = (seq![Seq::<char>::empty()] + merged.0, seq![(key, value)]
                        + merged.1);
                    assert(d.0[0] == Seq::<char>::empty());
                    assert(d.1[0] == (key, value));
                    assert(d.0.drop_first() =~= merged.0);
                    assert(d.1.drop_first() =~= merged.1);
                    assert(crate::deanon::woven_keys(d.0, d.1) == Seq::<char>::empty() + key + (
                    addition + crate::deanon::woven_keys(d2.0, d2.1)));
                    assert(fin.out == st2.out + crate::deanon::woven_keys(d2.0, d2.1));
                    assert(st2.out =~= st.out + (key + addition));
                    assert(fin.out =~= st.out + (Seq::<char>::empty() + key + (addition
                        + crate::deanon::woven_keys(d2.0, d2.1))));
                    assert(crate::deanon::woven_values(d.0, d.1) == Seq::<char>::empty() + value
                        + (addition + crate::deanon::woven_values(d2.0, d2.1)));
                    assert(value + addition =~= span);
                    assert(Seq::<char>::empty() + value + (addition + text.subrange(
                        e,
                        text.len() as int,
                    )) =~= text.subrange(p, text.len() as int));
                    assert forall|i: int|
                        0 <= i < d.1.len() implies fin.items.contains(#[trigger] d.1[i]) by {
                        if i == 0 {
                            let t = choose|t: int|
                                0 <= t < st2.items.len() && st2.items[t] == (key, value);
                            assert(fin.items[t] == st2.items[t]);
                        } else {
                            assert(d.1[i] == d2.1[i - 1]);
                        }
                    }
                    d
                }
            },
        }
    }
}

/// No ledger entry uses a placeholder this scan could still mint: none has
/// the form `<prefix><index>` for a counter value at or above `idx0`.
pub open spec fn keys_fresh(
    items: Seq<(Seq<char>, Seq<char>)>,
    prefix: Seq<char>,
    idx0: int,
) -> bool {
    forall|t: int, i: int|
        0 <= t < items.len() && i >= idx0 ==> (#[trigger] items[t]).0 != prefix + (
        #[trigger] spec_dec(i))
}

/// Cancelling a shared prefix of two concatenations.
pub proof fn lemma_append_cancel(prefix: Seq<char>, a: Seq<char>, b: Seq<char>)
    requires
        prefix + a == prefix + b,
    ensures
        a == b,
{
    assert(a =~= (prefix + a).skip(prefix.len() as int));
    assert(b =~= (prefix + b).skip(prefix.len() as int));
}

/// Placeholder keys are unique within one scan: starting from a ledger
/// with pairwise-distinct keys none of which this scan could mint, every
/// ledger the scan produces again has pairwise-distinct keys — each minted
/// placeholder carries a fresh counter value, and distinct counters render
/// to distinct digit strings. Every entry the scan adds carries a key of
/// the form `<prefix><index>`.
pub proof fn lemma_scan_keys_unique(
    root: TrieNode,
    prefix: Seq<char>,
    text: Seq<char>,
    p: int,
    st: ScanState,
)
    requires
        0 <= p <= text.len(),
        st.idx >= 0,
        crate::ledger::keys_distinct(st.items),
        keys_fresh(st.items, prefix, st.idx),
    ensures
        ({
            let r = scan(root, prefix, text, p, st);
            &&& r.idx >= st.idx
            &&& r.items.len() >= st.items.len()
            &&& crate::ledger::keys_distinct(r.items)
            &&& keys_fresh(r.items, prefix, r.idx)
            &&& forall|t: int|
                st.items.len() <= t < r.items.len() ==> exists|i: int|
                    st.idx <= i < r.idx && (#[trigger] r.items[t]).0 == prefix + spec_dec(i)
        }),
    decreases text.len() - p,
{
    if p < text.len() {
        match attempt(root, text, p) {
            None => {
                let st2 = ScanState { out: st.out.push(text[p]), items: st.items, idx: st.idx };
                lemma_scan_keys_unique(root, prefix, text, p + 1, st2);
                assert(scan(root, prefix, text, p, st) == scan(root, prefix, text, p + 1, st2));
            },
            Some((j, terminal)) => {
                let child = find_child(root.children@, text[p]).unwrap();
                crate::trie::lemma_descend_bounds(child, text, p + 1);
                if !terminal {
                    let r = resume(text, j);
                    let st2 = ScanState {
                        out: st.out + text.subrange(p, r),
                        items: st.items,
                        idx: st.idx,
                    };
                    lemma_scan_keys_unique(root, prefix, text, r, st2);
                    assert(scan(root, prefix, text, p, st) == scan(root, prefix, text, r, st2));
                } else {
                    let e = boundary_from(text, j);
                    lemma_boundary_from_bounds(text, j);
                    let span = text.subrange(p, e);
                    let vl = value_len(span);
                    let value = span.take(vl);
                    let addition = span.skip(vl);
                    match find_value(st.items, value) {
                        Some(k) => {
                            let st2 = ScanState {
                                out: st.out + k + addition,
                                items: st.items,
                                idx: st.idx,
                            };
                            lemma_scan_keys_unique(root, prefix, text, e, st2);
                            assert(scan(root, prefix, text, p, st) == scan(
                                root,
                                prefix,
                                text,
                                e,
                                st2,
                            ));
                        },
                        None => {
                            let key = prefix + spec_dec(st.idx);
                            let items2 = st.items.push((key, value));
                            let st2 = ScanState {
                                out: st.out + prefix + spec_dec(st.idx) + addition,
                                items: items2,
                                idx: st.idx + 1,
                            };
                            assert forall|t: int, i: int|
                                0 <= t < items2.len() && i >= st.idx + 1 implies (
                            #[trigger] items2[t]).0 != prefix + (#[trigger] spec_dec(i)) by {
                                if t < st.items.len() {
                                    assert(items2[t] == st.items[t]);
                                } else {
                                    assert(items2[t].0 == key);
                                    if key == prefix + spec_dec(i) {
                                        lemma_append_cancel(prefix, spec_dec(st.idx), spec_dec(i));
                                        crate::chars::lemma_spec_dec_injective(st.idx, i);
                                    }
                                }
                            }
                            assert forall|t: int, u: int|
                                0 <= t < u < items2.len() implies items2[t].0 != items2[u].0 by {
                                if u < st.items.len() {
                                    assert(items2[t] == st.items[t] && items2[u] == st.items[u]);
                                } else {
                                    assert(items2[t] == st.items[t] && items2[u].0 == key);
                                }
                            }
                            lemma_scan_keys_unique(root, prefix, text, e, st2);
                            lemma_scan_dedup(root, prefix, text, e, st2);
                            assert(scan(root, prefix, text, p, st) == scan(
                                root,
                                prefix,
                                text,
                                e,
                                st2,
                            ));
                            let r = scan(root, prefix, text, p, st);
                            assert forall|t: int|
                                st.items.len() <= t < r.items.len() implies exists|i: int|
                                st.idx <= i < r.idx && (#[trigger] r.items[t]).0 == prefix
                                + spec_dec(i) by {
                                if t == st.items.len() {
                                    assert(r.items[t] == st2.items[t]);
                                    assert(r.items[t].0 == prefix + spec_dec(st.idx));
                                    assert(st.idx <= st.idx < r.idx && r.items[t].0 == prefix
                                        + spec_dec(st.idx));
                                } else {
                                    let i = choose|i: int|
                                        st2.idx <= i < r.idx && r.items[t].0 == prefix + spec_dec(
                                            i,
                                        );
                                    assert(st.idx <= i < r.idx && r.items[t].0 == prefix
                                        + spec_dec(i));
                                }
                            }
                        },
                    }
                }
            },
        }
    } else {
        assert(scan(root, prefix, text, p, st) == st);
    }
}

/// A multi-keyword replacer: keywords live in a character trie; matches are
/// replaced by placeholders built from a configured or per-call prefix.
#[derive(Debug)]
pub struct FlashTextAnonymizer {
    pub root: TrieNode,
    pub replacement: Option<String>,
}

impl FlashTextAnonymizer {
    /// An empty keyword set with an optional configured placeholder prefix.
    pub fn new(replacement: Option<String>) -> (r: FlashTextAnonymizer)
        ensures
            forall|w: Seq<char>| !crate::trie::accepts(r.root, w),
            r.replacement == replacement,
    {
        FlashTextAnonymizer { root: TrieNode::new(), replacement }
    }

    /// Adds one keyword: afterwards the trie accepts exactly what it
    /// accepted before, plus this word.
    pub fn add_keyword(&mut self, word: &str) -> (r: Result<(), AnonymizeError>)
        ensures
            r is Ok,
            inserted(old(self).root, final(self).root, word@),
            final(self).replacement == old(self).replacement,
    {
        let wv = chars_of(word);
        insert_at(&mut self.root, &wv, 0);
        proof {
            assert(wv@.subrange(0, wv@.len() as int) =~= word@);
        }
        Ok(())
    }

    /// Adds one keyword per line: afterwards the trie accepts exactly what
    /// it accepted before, plus every line.
    pub fn add_keywords(&mut self, lines: &Vec<String>) -> (r: Result<(), AnonymizeError>)
        ensures
            r is Ok,
            final(self).replacement == old(self).replacement,
            forall|w: Seq<char>|
                accepts(final(self).root, w) <==> (accepts(old(self).root, w) || str_views(
                    lines@,
                ).contains(w)),
    {
        let ghost lvs = str_views(lines@);
        let ghost orig = *self;
        let mut t: usize = 0;
        proof {
            assert(lvs.subrange(0, 0) =~= Seq::<Seq<char>>::empty());
        }
        while t < lines.len()
            invariant
                lvs == str_views(lines@),
                lvs.len() == lines@.len(),
                t <= lvs.len(),
                self.replacement == orig.replacement,
                forall|w: Seq<char>| #![trigger accepts(self.root, w)]
                    accepts(self.root, w) <==> (accepts(orig.root, w) || lvs.subrange(
                        0,
                        t as int,
                    ).contains(w)),
            decreases lvs.len() - t,
        {
            if self.add_keyword(lines[t].as_str()).is_err() {
                return Err(AnonymizeError::Config);
            }
            proof {
                assert(lvs.subrange(0, t as int + 1) =~= lvs.subrange(0, t as int).push(
                    lvs[t as int],
                ));
                assert(lvs[t as int] == lines@[t as int]@);
                assert forall|w: Seq<char>| #![trigger accepts(self.root, w)]
                    accepts(self.root, w) <==> (accepts(orig.root, w) || lvs.subrange(
                        0,
                        t as int + 1,
                    ).contains(w)) by {
                    crate::chars::lemma_contains_push(lvs.subrange(0, t as int), lvs[t as int], w);
                }
            }
            t = t + 1;
        }
        proof {
            assert(lvs.subrange(0, lvs.len() as int) =~= lvs);
        }
        Ok(())
    }

    /// Whether `index` is a word boundary of `text`.
    fn is_word_boundary(&self, text: &Vec<char>, index: usize) -> (r: bool)
        ensures
            r == boundary(text@, index as int),
    {
        if index >= text.len() {
            true
        } else {
            !is_alpha(text[index])
        }
    }

    /// The first word boundary of `text` at or after `start`.
    fn skip_to_word_boundary(&self, text: &Vec<char>, start: usize) -> (e: usize)
        requires
            start <= text@.len(),
        ensures
            e as int == boundary_from(text@, start as int),
            start <= e <= text@.len(),
    {
        let mut e = start;
        while e < text.len() && is_alpha(text[e])
            invariant
                start <= e <= text@.len(),
                boundary_from(text@, start as int) == boundary_from(text@, e as int),
            decreases text@.len() - e,
        {
            e = e + 1;
        }
        e
    }

    /// Splits a matched span into its value (trailing non-alphabetic
    /// characters dropped) and the trailing characters themselves.
    fn process_item_value(&self, span: &Vec<char>) -> (r: (Vec<char>, Vec<char>))
        ensures
            r.0@ == span@.take(value_len(span@)),
            r.1@ == span@.skip(value_len(span@)),
    {
        let mut k = span.len();
        proof {
            assert(span@.take(span@.len() as int) =~= span@);
        }
        while k > 0 && !is_alpha(span[k - 1])
            invariant
                k <= span@.len(),
                value_len(span@) == value_len(span@.take(k as int)),
            decreases k,
        {
            proof {
                assert(span@.take(k as int).drop_last() =~= span@.take(k - 1));
            }
            k = k - 1;
        }
        proof {
            lemma_value_len_bounds(span@);
            if k > 0 {
                assert(span@.take(k as int).last() == span@[k - 1]);
                assert(value_len(span@.take(k as int)) == k);
            } else {
                assert(value_len(span@.take(0)) == 0);
            }
        }
        let value = sub_vec(span, 0, k);
        let addition = sub_vec(span, k, span.len());
        proof {
            assert(span@.take(value_len(span@)) =~= span@.subrange(0, k as int));
            assert(span@.skip(value_len(span@)) =~= span@.subrange(k as int, span@.len() as int));
        }
        (value, addition)
    }

    /// A match attempt at position `p` of `text`: the stop position of the
    /// maximal trie descent and whether it ended on a terminal node.
    fn traverse_trie(&self, text: &Vec<char>, p: usize) -> (r: Option<(usize, bool)>)
        requires
            p <= text@.len(),
        ensures
            match r {
                Some(jt) => attempt(self.root, text@, p as int) == Some((jt.0 as int, jt.1))
                    && p < jt.0 <= text@.len(),
                None => attempt(self.root, text@, p as int) is None,
            },
    {
        if p >= text.len() {
            return None;
        }
        match get_child(&self.root.children, text[p]) {
            Some(child) => {
                let jt = descend_exec(child, text, p + 1);
                Some(jt)
            },
            None => None,
        }
    }

    /// Replaces every keyword match of `text`, reusing or minting
    /// placeholders through the (optionally inherited) ledger. A per-call
    /// `replacement` prefix wins over the configured one; with neither the
    /// call fails and nothing is replaced. The ledger is append-only: an
    /// inherited entry is never overwritten or dropped, even when its
    /// placeholder has the `<prefix><index>` form this call mints — both
    /// entries are kept, the inherited one first.
    pub fn replace_keywords(
        &self,
        text: &str,
        replacement: Option<&str>,
        items: Option<Vec<(String, String)>>,
    ) -> (r: Result<ReplaceResult, AnonymizeError>)
        ensures
            match r {
                Ok(rr) => {
                    &&& (replacement is Some || self.replacement is Some)
                    &&& {
                        let prefix = if replacement is Some {
                            replacement.unwrap()@
                        } else {
                            self.replacement.unwrap()@
                        };
                        let fin = scan_from_start(self.root, prefix, text@, init_items(items));
                        rr.text@ == fin.out && ledger_view(rr.items@) == fin.items
                    }
                },
                Err(e) => {
                    &&& replacement is None && self.replacement is None
                    &&& e == AnonymizeError::MissingReplacementPrefix
                },
            },
    {
        let ghost gitems = items;
        let tv = chars_of(text);
        let mut items_v: Vec<(String, String)> = match items {
            Some(v) => v,
            None => Vec::new(),
        };
        let prefix_str: &str = match replacement {
            Some(s) => s,
            None => match &self.replacement {
                Some(s) => s.as_str(),
                None => {
                    return Err(AnonymizeError::MissingReplacementPrefix);
                },
            },
        };
        let prefix_chars = chars_of(prefix_str);
        let ghost prefix = prefix_chars@;
        proof {
            if gitems is None {
                assert(ledger_view(items_v@) =~= init_items(gitems));
            }
        }
        let ghost init = ScanState {
            out: Seq::<char>::empty(),
            items: init_items(gitems),
            idx: 0,
        };
        let mut out: Vec<char> = Vec::new();
        let mut idx: usize = 0;
        let mut p: usize = 0;
        proof {
            assert(init =~= ScanState { out: out@, items: ledger_view(items_v@), idx: idx as int });
        }
        while p < tv.len()
            invariant
                tv@ == text@,
                prefix == prefix_chars@,
                p <= tv@.len(),
                idx <= p,
                scan(self.root, prefix, tv@, 0, init) == scan(
                    self.root,
                    prefix,
                    tv@,
                    p as int,
                    ScanState { out: out@, items: ledger_view(items_v@), idx: idx as int },
                ),
            decreases tv@.len() - p,
        {
            let ghost p0 = p as int;
            let ghost st0 = ScanState { out: out@, items: ledger_view(items_v@), idx: idx as int };
            match self.traverse_trie(&tv, p) {
                None => {
                    out.push(tv[p]);
                    p = p + 1;
                    proof {
                        let st1 = ScanState {
                            out: out@,
                            items: ledger_view(items_v@),
                            idx: idx as int,
                        };
                        assert(st1 =~= ScanState {
                            out: st0.out.push(tv@[p0]),
                            items: st0.items,
                            idx: st0.idx,
                        });
                        assert(scan(self.root, prefix, tv@, p0, st0) == scan(
                            self.root,
                            prefix,
                            tv@,
                            p as int,
                            st1,
                        ));
                    }
                },
                Some((j, terminal)) => {
                    if !terminal {
                        let rp = if j < tv.len() {
                            j + 1
                        } else {
                            j
                        };
                        append_range(&mut out, &tv, p, rp);
                        p = rp;
                        proof {
                            assert(p as int == resume(tv@, j as int));
                            let st1 = ScanState {
                                out: out@,
                                items: ledger_view(items_v@),
                                idx: idx as int,
                            };
                            assert(st1 =~= ScanState {
                                out: st0.out + tv@.subrange(p0, resume(tv@, j as int)),
                                items: st0.items,
                                idx: st0.idx,
                            });
                            assert(scan(self.root, prefix, tv@, p0, st0) == scan(
                                self.root,
                                prefix,
                                tv@,
                                p as int,
                                st1,
                            ));
                        }
                    } else {
                        let e = self.skip_to_word_boundary(&tv, j);
                        let span = sub_vec(&tv, p, e);
                        let pv = self.process_item_value(&span);
                        let value = pv.0;
                        let addition = pv.1;
                        let value_str = string_of(&value);
                        let ghost spec_span = tv@.subrange(p0, e as int);
                        let ghost vl = value_len(spec_span);
                        proof {
                            assert(value@ == spec_span.take(vl));
                            assert(addition@ == spec_span.skip(vl));
                        }
                        match find_by_value(&items_v, &value_str) {
                            Some(key) => {
                                let key_chars = chars_of(key.as_str());
                                append_all(&mut out, &key_chars);
                                append_all(&mut out, &addition);
                                p = e;
                                proof {
                                    let st1 = ScanState {
                                        out: out@,
                                        items: ledger_view(items_v@),
                                        idx: idx as int,
                                    };
                                    assert(st1 =~= ScanState {
                                        out: st0.out + key@ + spec_span.skip(vl),
                                        items: st0.items,
                                        idx: st0.idx,
                                    });
                                    assert(scan(self.root, prefix, tv@, p0, st0) == scan(
                                        self.root,
                                        prefix,
                                        tv@,
                                        p as int,
                                        st1,
                                    ));
                                }
                            },
                            None => {
                                let mut key_chars: Vec<char> = Vec::new();
                                append_all(&mut key_chars, &prefix_chars);
                                let dc = dec_chars(idx);
                                append_all(&mut key_chars, &dc);
                                let key_str = string_of(&key_chars);
                                items_v.push((key_str, value_str));
                                append_all(&mut out, &key_chars);
                                append_all(&mut out, &addition);
                                idx = idx + 1;
                                p = e;
                                proof {
                                    assert(key_chars@ =~= prefix + spec_dec(st0.idx));
                                    assert(ledger_view(items_v@) =~= st0.items.push(
                                        (prefix + spec_dec(st0.idx), spec_span.take(vl)),
                                    ));
                                    let st1 = ScanState {
                                        out: out@,
                                        items: ledger_view(items_v@),
                                        idx: idx as int,
                                    };
                                    assert(st1 =~= ScanState {
                                        out: st0.out + prefix + spec_dec(st0.idx) + spec_span.skip(
                                            vl,
                                        ),
                                        items: st0.items.push(
                                            (prefix + spec_dec(st0.idx), spec_span.take(vl)),
                                        ),
                                        idx: st0.idx + 1,
                                    });
                                    assert(scan(self.root, prefix, tv@, p0, st0) == scan(
                                        self.root,
                                        prefix,
                                        tv@,
                                        p as int,
                                        st1,
                                    ));
                                }
                            },
                        }
                    }
                },
            }
        }
        proof {
            let stf = ScanState { out: out@, items: ledger_view(items_v@), idx: idx as int };
            assert(scan(self.root, prefix, tv@, p as int, stf) == stf);
        }
        let text_out = string_of(&out);
        Ok(ReplaceResult { text: text_out, items: items_v })
    }

    /// All keyword matches of `text`, in scan order.
    pub fn find_keywords(&self, text: &str) -> (r: Vec<String>)
        ensures
            str_views(r@) == find_spec(self.root, text@, 0),
    {
        let tv = chars_of(text);
        let mut r: Vec<String> = Vec::new();
        let mut p: usize = 0;
        proof {
            assert(str_views(r@) + find_spec(self.root, tv@, 0) =~= find_spec(self.root, tv@, 0));
        }
        while p < tv.len()
            invariant
                tv@ == text@,
                p <= tv@.len(),
                find_spec(self.root, tv@, 0) == str_views(r@) + find_spec(self.root, tv@, p as int),
            decreases tv@.len() - p,
        {
            let ghost p0 = p as int;
            let ghost r0 = r@;
            match self.traverse_trie(&tv, p) {
                Some((j, terminal)) => {
                    if terminal {
                        let word = sub_vec(&tv, p, j);
                        r.push(string_of(&word));
                    }
                    if j < tv.len() {
                        p = j + 1;
                    } else {
                        p = j;
                    }
                    proof {
                        assert(p as int == resume(tv@, j as int));
                        let rest = find_spec(self.root, tv@, p as int);
                        if terminal {
                            let w = tv@.subrange(p0, j as int);
                            assert(find_spec(self.root, tv@, p0) == seq![w] + rest);
                            assert(str_views(r@) =~= str_views(r0) + seq![w]);
                            assert(str_views(r0) + (seq![w] + rest) =~= (str_views(r0) + seq![w])
                                + rest);
                        } else {
                            assert(find_spec(self.root, tv@, p0) == rest);
                        }
                    }
                },
                None => {
                    p = p + 1;
                },
            }
        }
        proof {
            assert(find_spec(self.root, tv@, p as int) =~= Seq::<Seq<char>>::empty());
            assert(str_views(r@) + find_spec(self.root, tv@, p as int) =~= str_views(r@));
        }
        r
    }
}

} // verus!
