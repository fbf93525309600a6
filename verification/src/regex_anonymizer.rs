//! The pattern stage: an ordered list of compiled regular expressions
//! applied one after another over the progressively substituted text.
//!
//! Each pattern's matches on the *current* text are replaced left to right,
//! deduplicated by matched value through the shared ledger. A later pattern
//! only sees text already modified by earlier ones.

use vstd::prelude::*;
use crate::chars::{chars_of, string_of, dec_chars, append_range, append_all, spec_dec, sub_vec};
use crate::error::AnonymizeError;
use crate::ledger::{find_value, find_by_value};
use crate::flashtext_anonymizer::{ScanState, init_items};
use crate::{ReplaceResult, ledger_view};

verus! {

#[verifier::external_type_specification]
#[verifier::external_body]
pub struct ExRegex(regex::Regex);

#[verifier::external_type_specification]
#[verifier::external_body]
pub struct ExRegexError(regex::Error);

/// The pattern string a compiled regex was built from.
pub uninterp spec fn regex_pattern(r: regex::Regex) -> Seq<char>;

/// Whether `regex::Regex::new` accepts a pattern: valid syntax, and within
/// the crate's default compiled-size limit.
pub uninterp spec fn regex_valid(pattern: Seq<char>) -> bool;

/// The match spans that `regex::Regex::find_iter` yields for `pattern` on
/// `text`, as character offsets.
pub uninterp spec fn regex_spans(pattern: Seq<char>, text: Seq<char>) -> Seq<(int, int)>;

/// Relies on `regex::Regex::new`: returns `Ok` exactly when the crate
/// accepts the pattern, and the compiled regex keeps its pattern text
/// (`Regex::as_str`).
#[verifier::external_body]
fn regex_new(pattern: &str) -> (r: Result<regex::Regex, regex::Error>)
    ensures
        r is Ok <==> regex_valid(pattern@),
        r matches Ok(re) ==> regex_pattern(re) == pattern@,
{
    regex::Regex::new(pattern)
}

/// Relies on `regex::Regex::find_iter`: it yields successive
/// non-overlapping matches, leftmost first and in ascending order; the byte
/// offsets are converted to character offsets.
#[verifier::external_body]
fn find_spans(re: &regex::Regex, text: &str) -> (spans: Vec<(usize, usize)>)
    ensures
        spans@.map_values(|p: (usize, usize)| (p.0 as int, p.1 as int)) == regex_spans(
            regex_pattern(*re),
            text@,
        ),
        forall|i: int| 0 <= i < spans@.len() ==> (#[trigger] spans@[i]).0 <= spans@[i].1
            <= text@.len(),
        forall|i: int, j: int|
            0 <= i < j < spans@.len() ==> (#[trigger] spans@[i]).1 <= (#[trigger] spans@[j]).0,
{
    re.find_iter(text)
        .map(|m| (text[..m.start()].chars().count(), text[..m.end()].chars().count()))
        .collect()
}

/// One left-to-right replacement pass over `text` for the match spans of a
/// single pattern, from span `n` on, with everything before `last` already
/// emitted: each span's value is replaced by its ledger placeholder, minted
/// as `<prefix><index>` on first sight.
pub open spec fn rebuild(
    text: Seq<char>,
    spans: Seq<(int, int)>,
    prefix: Seq<char>,
    n: int,
    last: int,
    st: ScanState,
) -> ScanState
    decreases spans.len() - n,
{
    if n >= spans.len() {
        ScanState {
            out: st.out + text.subrange(last, text.len() as int),
            items: st.items,
            idx: st.idx,
        }
    } else {
        let s = spans[n].0;
        let e = spans[n].1;
        let value = text.subrange(s, e);
        match find_value(st.items, value) {
            Some(k) => rebuild(
                text,
                spans,
                prefix,
                n + 1,
                e,
                ScanState { out: st.out + text.subrange(last, s) + k, items: st.items, idx: st.idx },
            ),
            None => rebuild(
                text,
                spans,
                prefix,
                n + 1,
                e,
                ScanState {
                    out: st.out + text.subrange(last, s) + prefix + spec_dec(st.idx),
                    items: st.items.push((prefix + spec_dec(st.idx), value)),
                    idx: st.idx + 1,
                },
            ),
        }
    }
}

/// The pattern stage applied from pattern `k` on: each pattern's spans are
/// computed against the text produced so far (carried in `st.out`) and
/// replaced by [`rebuild`], threading the ledger and counter through.
pub open spec fn regex_replace_spec(
    patterns: Seq<Seq<char>>,
    prefix: Seq<char>,
    k: int,
    st: ScanState,
) -> ScanState
    decreases patterns.len() - k,
{
    if k >= patterns.len() {
        st
    } else {
        let spans = regex_spans(patterns[k], st.out);
        let st2 = rebuild(
            st.out,
            spans,
            prefix,
            0,
            0,
            ScanState { out: Seq::empty(), items: st.items, idx: st.idx },
        );
        regex_replace_spec(patterns, prefix, k + 1, st2)
    }
}

/// Deduplication: one replacement pass never alters or drops ledger
/// entries it was handed, and keeps the recorded values pairwise distinct —
/// a value matched again reuses its existing placeholder.
pub proof fn lemma_rebuild_dedup(
    text: Seq<char>,
    spans: Seq<(int, int)>,
    prefix: Seq<char>,
    n: int,
    last: int,
    st: ScanState,
)
    ensures
        ({
            let r = rebuild(text, spans, prefix, n, last, st);
            &&& r.items.len() >= st.items.len()
            &&& forall|i: int| 0 <= i < st.items.len() ==> r.items[i] == st.items[i]
            &&& crate::ledger::values_distinct(st.items) ==> crate::ledger::values_distinct(
                r.items,
            )
        }),
    decreases spans.len() - n,
{
    if n < spans.len() {
        let s = spans[n].0;
        let e = spans[n].1;
        let value = text.subrange(s, e);
        match find_value(st.items, value) {
            Some(k) => {
                let st2 = ScanState {
                    out: st.out + text.subrange(last, s) + k,
                    items: st.items,
                    idx: st.idx,
                };
                lemma_rebuild_dedup(text, spans, prefix, n + 1, e, st2);
                assert(rebuild(text, spans, prefix, n, last, st) == rebuild(
                    text,
                    spans,
                    prefix,
                    n + 1,
                    e,
                    st2,
                ));
            },
            None => {
                let st2 = ScanState {
                    out: st.out + text.subrange(last, s) + prefix + spec_dec(st.idx),
                    items: st.items.push((prefix + spec_dec(st.idx), value)),
                    idx: st.idx + 1,
                };
                if crate::ledger::values_distinct(st.items) {
                    crate::ledger::lemma_push_preserves_distinct(
                        st.items,
                        prefix + spec_dec(st.idx),
                        value,
                    );
                }
                lemma_rebuild_dedup(text, spans, prefix, n + 1, e, st2);
                assert(rebuild(text, spans, prefix, n, last, st) == rebuild(
                    text,
                    spans,
                    prefix,
                    n + 1,
                    e,
                    st2,
                ));
            },
        }
    }
}

/// Deduplication across the whole pattern stage: the ledger entries handed
/// in are kept unchanged and the recorded values stay pairwise distinct.
pub proof fn lemma_regex_replace_dedup(
    patterns: Seq<Seq<char>>,
    prefix: Seq<char>,
    k: int,
    st: ScanState,
)
    ensures
        ({
            let r = regex_replace_spec(patterns, prefix, k, st);
            &&& r.items.len() >= st.items.len()
            &&& forall|i: int| 0 <= i < st.items.len() ==> r.items[i] == st.items[i]
            &&& crate::ledger::values_distinct(st.items) ==> crate::ledger::values_distinct(
                r.items,
            )
        }),
    decreases patterns.len() - k,
{
    if k < patterns.len() {
        let spans = regex_spans(patterns[k], st.out);
        let st2 = rebuild(
            st.out,
            spans,
            prefix,
            0,
            0,
            ScanState { out: Seq::empty(), items: st.items, idx: st.idx },
        );
        lemma_rebuild_dedup(
            st.out,
            spans,
            prefix,
            0,
            0,
            ScanState { out: Seq::empty(), items: st.items, idx: st.idx },
        );
        lemma_regex_replace_dedup(patterns, prefix, k + 1, st2);
        assert(regex_replace_spec(patterns, prefix, k, st) == regex_replace_spec(
            patterns,
            prefix,
            k + 1,
            st2,
        ));
    }
}

/// Placeholder keys are unique within one replacement pass: starting from
/// a ledger with pairwise-distinct keys none of which this pass could
/// still mint, every ledger it produces again has pairwise-distinct keys.
pub proof fn lemma_rebuild_keys_unique(
    text: Seq<char>,
    spans: Seq<(int, int)>,
    prefix: Seq<char>,
    n: int,
    last: int,
    st: ScanState,
)
    requires
        st.idx >= 0,
        crate::ledger::keys_distinct(st.items),
        crate::flashtext_anonymizer::keys_fresh(st.items, prefix, st.idx),
    ensures
        ({
            let r = rebuild(text, spans, prefix, n, last, st);
            &&& r.idx >= st.idx
            &&& r.items.len() >= st.items.len()
            &&& crate::ledger::keys_distinct(r.items)
            &&& crate::flashtext_anonymizer::keys_fresh(r.items, prefix, r.idx)
            &&& forall|t: int|
                st.items.len() <= t < r.items.len() ==> exists|i: int|
                    st.idx <= i < r.idx && (#[trigger] r.items[t]).0 == prefix + spec_dec(i)
        }),
    decreases spans.len() - n,
{
    if n < spans.len() {
        let s = spans[n].0;
        let e = spans[n].1;
        let value = text.subrange(s, e);
        match find_value(st.items, value) {
            Some(k) => {
                let st2 = ScanState {
                    out: st.out + text.subrange(last, s) + k,
                    items: st.items,
                    idx: st.idx,
                };
                lemma_rebuild_keys_unique(text, spans, prefix, n + 1, e, st2);
                assert(rebuild(text, spans, prefix, n, last, st) == rebuild(
                    text,
                    spans,
                    prefix,
                    n + 1,
                    e,
                    st2,
                ));
            },
            None => {
                let key = prefix + spec_dec(st.idx);
                let items2 = st.items.push((key, value));
                let st2 = ScanState {
                    out: st.out + text.subrange(last, s) + prefix + spec_dec(st.idx),
                    items: items2,
                    idx: st.idx + 1,
                };
                assert forall|t: int, i: int|
                    0 <= t < items2.len() && i >= st.idx + 1 implies (#[trigger] items2[t]).0
                    != prefix + (#[trigger] spec_dec(i)) by {
                    if t < st.items.len() {
                        assert(items2[t] == st.items[t]);
                    } else {
                        assert(items2[t].0 == key);
                        if key == prefix + spec_dec(i) {
                            crate::flashtext_anonymizer::lemma_append_cancel(
                                prefix,
                                spec_dec(st.idx),
                                spec_dec(i),
                            );
                            crate::chars::lemma_spec_dec_injective(st.idx, i);
                        }
                    }
                }
                assert forall|t: int, u: int|
                    0 <= t < u < items2.len() implies items2[t].0 != items2[u].0 by {
                    if u < st.items.len() {
                        assert(items2[t] == st.items[t] && items2[u] == st.items[u]);
                    } else {
                        assert(items2[t] == st.items[t] && items2[u].0 == key);
                    }
                }
                lemma_rebuild_keys_unique(text, spans, prefix, n + 1, e, st2);
                lemma_rebuild_dedup(text, spans, prefix, n + 1, e, st2);
                assert(rebuild(text, spans, prefix, n, last, st) == rebuild(
                    text,
                    spans,
                    prefix,
                    n + 1,
                    e,
                    st2,
                ));
                let r = rebuild(text, spans, prefix, n, last, st);
                assert forall|t: int|
                    st.items.len() <= t < r.items.len() implies exists|i: int|
                    st.idx <= i < r.idx && (#[trigger] r.items[t]).0 == prefix + spec_dec(i) by {
                    if t == st.items.len() {
                        assert(r.items[t] == st2.items[t]);
                        assert(st.idx <= st.idx < r.idx && r.items[t].0 == prefix + spec_dec(
                            st.idx,
                        ));
                    } else {
                        let i = choose|i: int|
                            st2.idx <= i < r.idx && r.items[t].0 == prefix + spec_dec(i);
                        assert(st.idx <= i < r.idx && r.items[t].0 == prefix + spec_dec(i));
                    }
                }
            },
        }
    }
}

/// Placeholder keys are unique across the whole pattern stage: the minted
/// counter only grows from pattern to pattern, so no two patterns mint the
/// same placeholder; every entry the stage adds carries a key of the form
/// `<prefix><index>`.
pub proof fn lemma_regex_replace_keys_unique(
    patterns: Seq<Seq<char>>,
    prefix: Seq<char>,
    k: int,
    st: ScanState,
)
    requires
        st.idx >= 0,
        crate::ledger::keys_distinct(st.items),
        crate::flashtext_anonymizer::keys_fresh(st.items, prefix, st.idx),
    ensures
        ({
            let r = regex_replace_spec(patterns, prefix, k, st);
            &&& r.idx >= st.idx
            &&& r.items.len() >= st.items.len()
            &&& crate::ledger::keys_distinct(r.items)
            &&& crate::flashtext_anonymizer::keys_fresh(r.items, prefix, r.idx)
            &&& forall|t: int|
                st.items.len() <= t < r.items.len() ==> exists|i: int|
                    st.idx <= i < r.idx && (#[trigger] r.items[t]).0 == prefix + spec_dec(i)
        }),
    decreases patterns.len() - k,
{
    if k < patterns.len() {
        let spans = regex_spans(patterns[k], st.out);
        let rb0 = ScanState { out: Seq::empty(), items: st.items, idx: st.idx };
        let st2 = rebuild(st.out, spans, prefix, 0, 0, rb0);
        lemma_rebuild_keys_unique(st.out, spans, prefix, 0, 0, rb0);
        lemma_regex_replace_keys_unique(patterns, prefix, k + 1, st2);
        lemma_regex_replace_dedup(patterns, prefix, k + 1, st2);
        assert(regex_replace_spec(patterns, prefix, k, st) == regex_replace_spec(
            patterns,
            prefix,
            k + 1,
            st2,
        ));
        let r = regex_replace_spec(patterns, prefix, k, st);
        assert forall|t: int|
            st.items.len() <= t < r.items.len() implies exists|i: int|
            st.idx <= i < r.idx && (#[trigger] r.items[t]).0 == prefix + spec_dec(i) by {
            if t < st2.items.len() {
                assert(r.items[t] == st2.items[t]);
                let i = choose|i: int|
                    st.idx <= i < st2.idx && st2.items[t].0 == prefix + spec_dec(i);
                assert(st.idx <= i < r.idx && r.items[t].0 == prefix + spec_dec(i));
            } else {
                let i = choose|i: int|
                    st2.idx <= i < r.idx && r.items[t].0 == prefix + spec_dec(i);
                assert(st.idx <= i < r.idx && r.items[t].0 == prefix + spec_dec(i));
            }
        }
    }
}

/// An ordered-pattern replacer: patterns are applied in insertion order,
/// with placeholders built from a configured or per-call prefix.
#[derive(Debug)]
pub struct RegexAnonymizer {
    pub regex_patterns: Vec<regex::Regex>,
    pub replacement: Option<String>,
}

/// The pattern strings of the compiled patterns, in order.
pub open spec fn patterns_view(patterns: Seq<regex::Regex>) -> Seq<Seq<char>> {
    patterns.map_values(|r: regex::Regex| regex_pattern(r))
}

impl RegexAnonymizer {
    /// An empty pattern list with an optional configured placeholder prefix.
    pub fn new(replacement: Option<String>) -> (r: RegexAnonymizer)
        ensures
            patterns_view(r.regex_patterns@) =~= Seq::<Seq<char>>::empty(),
            r.replacement == replacement,
    {
        RegexAnonymizer { regex_patterns: Vec::new(), replacement }
    }

    /// Compiles one pattern and appends it, failing exactly on patterns the
    /// regex crate rejects.
    pub fn add_regex_pattern(&mut self, pattern: &str) -> (r: Result<(), AnonymizeError>)
        ensures
            r is Ok <==> regex_valid(pattern@),
            r is Ok ==> patterns_view(final(self).regex_patterns@) == patterns_view(
                old(self).regex_patterns@,
            ).push(pattern@) && final(self).replacement == old(self).replacement,
            r is Err ==> *final(self) == *old(self) && r == Err::<(), AnonymizeError>(
                AnonymizeError::Config,
            ),
    {
        match regex_new(pattern) {
            Ok(re) => {
                self.regex_patterns.push(re);
                proof {
                    assert(patterns_view(self.regex_patterns@) =~= patterns_view(
                        old(self).regex_patterns@,
                    ).push(pattern@));
                }
                Ok(())
            },
            Err(_e) => Err(AnonymizeError::Config),
        }
    }

    /// Replaces the matches of every pattern, in pattern order, reusing or
    /// minting placeholders through the (optionally inherited) ledger. A
    /// per-call `replacement` prefix wins over the configured one; with
    /// neither the call fails and nothing is replaced. The ledger is
    /// append-only: an inherited entry is never overwritten or dropped,
    /// even when its placeholder has the `<prefix><index>` form this call
    /// mints — both entries are kept, the inherited one first.
    pub fn replace_regex_matches(
        &self,
        text: &str,
        replacement: Option<&str>,
        items: Option<Vec<(String, String)>>,
    ) -> (r: Result<ReplaceResult, AnonymizeError>)
        ensures
            match r {
                Ok(rr) => {
                    &&& (replacement is Some || self.replacement is Some)
                    &&& {
                        let prefix = if replacement is Some {
                            replacement.unwrap()@
                        } else {
                            self.replacement.unwrap()@
                        };
                        let fin = regex_replace_spec(
                            patterns_view(self.regex_patterns@),
                            prefix,
                            0,
                            ScanState { out: text@, items: init_items(items), idx: 0 },
                        );
                        rr.text@ == fin.out && ledger_view(rr.items@) == fin.items
                    }
                },
                Err(e) => {
                    &&& replacement is None && self.replacement is None
                    &&& e == AnonymizeError::MissingReplacementPrefix
                },
            },
    {
        let ghost gitems = items;
        let mut items_v: Vec<(String, String)> = match items {
            Some(v) => v,
            None => Vec::new(),
        };
        let prefix_str: &str = match replacement {
            Some(s) => s,
            None => match &self.replacement {
                Some(s) => s.as_str(),
                None => {
                    return Err(AnonymizeError::MissingReplacementPrefix);
                },
            },
        };
        let prefix_chars = chars_of(prefix_str);
        let ghost prefix = prefix_chars@;
        let ghost pviews = patterns_view(self.regex_patterns@);
        proof {
            if gitems is None {
                assert(ledger_view(items_v@) =~= init_items(gitems));
            }
        }
        let ghost init_ledger_len = ledger_view(items_v@).len();
        let mut cur = chars_of(text);
        let mut idx: usize = 0;
        let mut k: usize = 0;
        let ghost init = ScanState { out: text@, items: init_items(gitems), idx: 0 };
        proof {
            assert(init =~= ScanState { out: cur@, items: ledger_view(items_v@), idx: idx as int });
        }
        while k < self.regex_patterns.len()
            invariant
                prefix == prefix_chars@,
                pviews == patterns_view(self.regex_patterns@),
                pviews.len() == self.regex_patterns@.len(),
                k <= pviews.len(),
                idx as int == ledger_view(items_v@).len() - init_ledger_len,
                init_ledger_len <= ledger_view(items_v@).len(),
                regex_replace_spec(pviews, prefix, 0, init) == regex_replace_spec(
                    pviews,
                    prefix,
                    k as int,
                    ScanState { out: cur@, items: ledger_view(items_v@), idx: idx as int },
                ),
            decreases pviews.len() - k,
        {
            let ghost st0 = ScanState { out: cur@, items: ledger_view(items_v@), idx: idx as int };
            let cur_str = string_of(&cur);
            let spans = find_spans(&self.regex_patterns[k], cur_str.as_str());
            let ghost spans_int = spans@.map_values(|p: (usize, usize)| (p.0 as int, p.1 as int));
            proof {
                assert(regex_pattern(self.regex_patterns@[k as int]) == pviews[k as int]);
                assert(spans_int == regex_spans(pviews[k as int], cur@));
                assert(spans_int.len() == spans@.len());
            }
            let mut out: Vec<char> = Vec::new();
            let mut last: usize = 0;
            let mut n: usize = 0;
            let ghost rb_init = ScanState {
                out: Seq::<char>::empty(),
                items: st0.items,
                idx: st0.idx,
            };
            proof {
                assert(rb_init =~= ScanState {
                    out: out@,
                    items: ledger_view(items_v@),
                    idx: idx as int,
                });
            }
            while n < spans.len()
                invariant
                    prefix == prefix_chars@,
                    spans_int == spans@.map_values(
                        |p: (usize, usize)| (p.0 as int, p.1 as int),
                    ),
                    spans_int.len() == spans@.len(),
                    forall|i: int| 0 <= i < spans@.len() ==> (#[trigger] spans@[i]).0
                        <= spans@[i].1 <= cur@.len(),
                    forall|i: int, j: int|
                        0 <= i < j < spans@.len() ==> (#[trigger] spans@[i]).1 <= (
                        #[trigger] spans@[j]).0,
                    n <= spans@.len(),
                    last <= cur@.len(),
                    n < spans@.len() ==> last <= spans@[n as int].0,
                    idx as int == ledger_view(items_v@).len() - init_ledger_len,
                    init_ledger_len <= ledger_view(items_v@).len(),
                    rebuild(cur@, spans_int, prefix, 0, 0, rb_init) == rebuild(
                        cur@,
                        spans_int,
                        prefix,
                        n as int,
                        last as int,
                        ScanState { out: out@, items: ledger_view(items_v@), idx: idx as int },
                    ),
                decreases spans@.len() - n,
            {
                let ghost stn = ScanState {
                    out: out@,
                    items: ledger_view(items_v@),
                    idx: idx as int,
                };
                let s = spans[n].0;
                let e = spans[n].1;
                proof {
                    assert(spans_int[n as int] == (s as int, e as int));
                }
                let value = sub_vec(&cur, s, e);
                let value_str = string_of(&value);
                append_range(&mut out, &cur, last, s);
                match find_by_value(&items_v, &value_str) {
                    Some(key) => {
                        let key_chars = chars_of(key.as_str());
                        append_all(&mut out, &key_chars);
                        proof {
                            let st1 = ScanState {
                                out: out@,
                                items: ledger_view(items_v@),
                                idx: idx as int,
                            };
                            assert(st1 =~= ScanState {
                                out: stn.out + cur@.subrange(last as int, s as int) + key@,
                                items: stn.items,
                                idx: stn.idx,
                            });
                        }
                    },
                    None => {
                        let mut key_chars: Vec<char> = Vec::new();
                        append_all(&mut key_chars, &prefix_chars);
                        let dc = dec_chars(idx);
                        append_all(&mut key_chars, &dc);
                        let key_str = string_of(&key_chars);
                        items_v.push((key_str, value_str));
                        let items_len = items_v.len();
                        proof {
                            assert(ledger_view(items_v@).len() == items_len as int);
                            assert(idx as int + 1 <= items_len as int);
                        }
                        append_all(&mut out, &key_chars);
                        idx = idx + 1;
                        proof {
                            assert(key_chars@ =~= prefix + spec_dec(stn.idx));
                            assert(ledger_view(items_v@) =~= stn.items.push(
                                (prefix + spec_dec(stn.idx), cur@.subrange(s as int, e as int)),
                            ));
                            let st1 = ScanState {
                                out: out@,
                                items: ledger_view(items_v@),
                                idx: idx as int,
                            };
                            assert(st1 =~= ScanState {
                                out: stn.out + cur@.subrange(last as int, s as int) + prefix
                                    + spec_dec(stn.idx),
                                items: stn.items.push(
                                    (
                                        prefix + spec_dec(stn.idx),
                                        cur@.subrange(s as int, e as int),
                                    ),
                                ),
                                idx: stn.idx + 1,
                            });
                        }
                    },
                }
                last = e;
                n = n + 1;
            }
            let ghost st_tail = ScanState {
                out: out@,
                items: ledger_view(items_v@),
                idx: idx as int,
            };
            append_range(&mut out, &cur, last, cur.len());
            proof {
                let st_fin = ScanState { out: out@, items: ledger_view(items_v@), idx: idx as int };
                assert(st_fin =~= rebuild(cur@, spans_int, prefix, n as int, last as int, st_tail));
                assert(st_fin == rebuild(cur@, spans_int, prefix, 0, 0, rb_init));
                assert(regex_replace_spec(pviews, prefix, k as int, st0) == regex_replace_spec(
                    pviews,
                    prefix,
                    k as int + 1,
                    st_fin,
                ));
            }
            cur = out;
            k = k + 1;
        }
        proof {
            let stf = ScanState { out: cur@, items: ledger_view(items_v@), idx: idx as int };
            assert(regex_replace_spec(pviews, prefix, k as int, stf) == stf);
        }
        let text_out = string_of(&cur);
        Ok(ReplaceResult { text: text_out, items: items_v })
    }
}

} // verus!
