//! The label stage's decision and replacement logic.
//!
//! An external scorer reports, per token, a span against the *original*
//! text and a class. This module holds what is decided around it: resolving
//! classes through the configured id-to-label table, keeping only sensitive
//! non-empty spans, and applying the replacements in ascending original
//! order while a running delta translates original offsets into positions
//! in the already-modified text. Placeholders are minted per label
//! (`<labelName><index>`), deduplicated by value through the shared ledger.

use vstd::prelude::*;
use crate::chars::{chars_of, string_of, dec_chars, append_all, append_range, sub_vec, spec_dec};
use crate::error::AnonymizeError;
use crate::ledger::{find_value, find_by_value};
use crate::flashtext_anonymizer::init_items;
use crate::{ReplaceResult, ledger_view};

verus! {

/// The value of the first counter entry for `w`.
pub open spec fn counter_get(cs: Seq<(Seq<char>, int)>, w: Seq<char>) -> Option<int>
    decreases cs.len(),
{
    if cs.len() == 0 {
        None
    } else if cs[0].0 == w {
        Some(cs[0].1)
    } else {
        counter_get(cs.drop_first(), w)
    }
}

pub proof fn lemma_counter_get_first(cs: Seq<(Seq<char>, int)>, w: Seq<char>, j: int)
    requires
        0 <= j < cs.len(),
        cs[j].0 == w,
        forall|i: int| 0 <= i < j ==> cs[i].0 != w,
    ensures
        counter_get(cs, w) == Some(cs[j].1),
    decreases j,
{
    if j > 0 {
        lemma_counter_get_first(cs.drop_first(), w, j - 1);
    }
}

pub proof fn lemma_counter_get_none(cs: Seq<(Seq<char>, int)>, w: Seq<char>)
    requires
        forall|i: int| 0 <= i < cs.len() ==> cs[i].0 != w,
    ensures
        counter_get(cs, w) is None,
    decreases cs.len(),
{
    if cs.len() > 0 {
        lemma_counter_get_none(cs.drop_first(), w);
    }
}

/// The (label, sensitive) pair of the first table entry for class id `k`.
pub open spec fn label_get(table: Seq<(Seq<char>, (Seq<char>, bool))>, k: Seq<char>) -> Option<
    (Seq<char>, bool),
>
    decreases table.len(),
{
    if table.len() == 0 {
        None
    } else if table[0].0 == k {
        Some(table[0].1)
    } else {
        label_get(table.drop_first(), k)
    }
}

pub proof fn lemma_label_get_first(table: Seq<(Seq<char>, (Seq<char>, bool))>, k: Seq<char>, j: int)
    requires
        0 <= j < table.len(),
        table[j].0 == k,
        forall|i: int| 0 <= i < j ==> table[i].0 != k,
    ensures
        label_get(table, k) == Some(table[j].1),
    decreases j,
{
    if j > 0 {
        lemma_label_get_first(table.drop_first(), k, j - 1);
    }
}

pub proof fn lemma_label_get_none(table: Seq<(Seq<char>, (Seq<char>, bool))>, k: Seq<char>)
    requires
        forall|i: int| 0 <= i < table.len() ==> table[i].0 != k,
    ensures
        label_get(table, k) is None,
    decreases table.len(),
{
    if table.len() > 0 {
        lemma_label_get_none(table.drop_first(), k);
    }
}

/// The id-to-label table as character sequences.
pub open spec fn table_view(table: Seq<(String, (String, bool))>) -> Seq<
    (Seq<char>, (Seq<char>, bool)),
> {
    table.map_values(|e: (String, (String, bool))| (e.0@, (e.1.0@, e.1.1)))
}

/// The candidate replacement spans for the scored tokens from index `i` on:
/// each class id is resolved through the table (`None` when an id is
/// missing), and a span is kept exactly when its class is sensitive and the
/// span is non-empty.
pub open spec fn select_spec(
    offsets: Seq<(int, int)>,
    classes: Seq<int>,
    table: Seq<(Seq<char>, (Seq<char>, bool))>,
    i: int,
) -> Option<Seq<(int, int, Seq<char>)>>
    decreases offsets.len() - i,
{
    if i >= offsets.len() {
        Some(Seq::empty())
    } else {
        match label_get(table, spec_dec(classes[i])) {
            None => None,
            Some(lab) => match select_spec(offsets, classes, table, i + 1) {
                None => None,
                Some(rest) => {
                    if lab.1 && offsets[i].0 != offsets[i].1 {
                        Some(seq![(offsets[i].0, offsets[i].1, lab.0)] + rest)
                    } else {
                        Some(rest)
                    }
                },
            },
        }
    }
}

/// A selection that fails at some index fails from every earlier start.
pub proof fn lemma_select_none(
    offsets: Seq<(int, int)>,
    classes: Seq<int>,
    table: Seq<(Seq<char>, (Seq<char>, bool))>,
    k: int,
    i: int,
)
    requires
        0 <= k <= i,
        select_spec(offsets, classes, table, i) is None,
    ensures
        select_spec(offsets, classes, table, k) is None,
    decreases i - k,
{
    if k < i {
        lemma_select_none(offsets, classes, table, k + 1, i);
    }
}

/// The state threaded through the label stage's replacement pass.
#[verifier::ext_equal]
pub ghost struct LabelState {
    pub text: Seq<char>,
    pub items: Seq<(Seq<char>, Seq<char>)>,
    pub counters: Seq<(Seq<char>, int)>,
    pub delta: int,
}

/// The replacement pass from candidate `n` on. Each candidate's original
/// offsets are shifted by the accumulated delta; a shifted span that leaves
/// the current text, or inverts, is a fatal range error (`None`). The span's
/// current value is replaced by its ledger placeholder, minted as
/// `<label><index>` from the per-label counter on first sight, and the delta
/// grows by the length difference.
pub open spec fn apply_replacements(
    reps: Seq<(int, int, Seq<char>)>,
    n: int,
    st: LabelState,
) -> Option<LabelState>
    decreases reps.len() - n,
{
    if n >= reps.len() {
        Some(st)
    } else {
        let s = reps[n].0 + st.delta;
        let e = reps[n].1 + st.delta;
        let word = reps[n].2;
        if !(0 <= s && s <= e && e <= st.text.len()) {
            None
        } else {
            let old_word = st.text.subrange(s, e);
            let pre = st.text.subrange(0, s);
            let post = st.text.subrange(e, st.text.len() as int);
            match find_value(st.items, old_word) {
                Some(k) => apply_replacements(
                    reps,
                    n + 1,
                    LabelState {
                        text: pre + k + post,
                        items: st.items,
                        counters: st.counters,
                        delta: st.delta + k.len() - (e - s),
                    },
                ),
                None => {
                    let idx = match counter_get(st.counters, word) {
                        Some(c) => c + 1,
                        None => 0,
                    };
                    let key = word + spec_dec(idx);
                    apply_replacements(
                        reps,
                        n + 1,
                        LabelState {
                            text: pre + key + post,
                            items: st.items.push((key, old_word)),
                            counters: st.counters.insert(0, (word, idx)),
                            delta: st.delta + key.len() - (e - s),
                        },
                    )
                },
            }
        }
    }
}

/// The candidate views of a replacement list.
pub open spec fn reps_view(rs: Seq<(usize, usize, String)>) -> Seq<(int, int, Seq<char>)> {
    rs.map_values(|t: (usize, usize, String)| (t.0 as int, t.1 as int, t.2@))
}

/// Deduplication: the label stage never alters or drops ledger entries it
/// was handed, and keeps the recorded values pairwise distinct — a span
/// whose value was already recorded reuses its existing placeholder.
pub proof fn lemma_apply_dedup(reps: Seq<(int, int, Seq<char>)>, n: int, st: LabelState)
    ensures
        apply_replacements(reps, n, st) matches Some(r) ==> {
            &&& r.items.len() >= st.items.len()
            &&& forall|i: int| 0 <= i < st.items.len() ==> r.items[i] == st.items[i]
            &&& crate::ledger::values_distinct(st.items) ==> crate::ledger::values_distinct(
                r.items,
            )
        },
    decreases reps.len() - n,
{
    if n < reps.len() {
        let s = reps[n].0 + st.delta;
        let e = reps[n].1 + st.delta;
        let word = reps[n].2;
        if 0 <= s && s <= e && e <= st.text.len() {
            let old_word = st.text.subrange(s, e);
            let pre = st.text.subrange(0, s);
            let post = st.text.subrange(e, st.text.len() as int);
            match find_value(st.items, old_word) {
                Some(k) => {
                    let st2 = LabelState {
                        text: pre + k + post,
                        items: st.items,
                        counters: st.counters,
                        delta: st.delta + k.len() - (e - s),
                    };
                    lemma_apply_dedup(reps, n + 1, st2);
                    assert(apply_replacements(reps, n, st) == apply_replacements(
                        reps,
                        n + 1,
                        st2,
                    ));
                },
                None => {
                    let idx = match counter_get(st.counters, word) {
                        Some(c) => c + 1,
                        None => 0,
                    };
                    let key = word + spec_dec(idx);
                    let st2 = LabelState {
                        text: pre + key + post,
                        items: st.items.push((key, old_word)),
                        counters: st.counters.insert(0, (word, idx)),
                        delta: st.delta + key.len() - (e - s),
                    };
                    if crate::ledger::values_distinct(st.items) {
                        crate::ledger::lemma_push_preserves_distinct(st.items, key, old_word);
                    }
                    lemma_apply_dedup(reps, n + 1, st2);
                    assert(apply_replacements(reps, n, st) == apply_replacements(
                        reps,
                        n + 1,
                        st2,
                    ));
                },
            }
        }
    }
}

/// The per-label counters as character sequences and integers.
pub open spec fn counters_view(cs: Seq<(String, usize)>) -> Seq<(Seq<char>, int)> {
    cs.map_values(|p: (String, usize)| (p.0@, p.1 as int))
}

/// Applies the candidate replacements in order, shifting each span by the
/// accumulated length delta, replacing its current value through the shared
/// ledger and minting `<label><index>` placeholders from per-call,
/// per-label counters. A shifted span outside the current text is a fatal
/// range error and nothing is returned. The ledger is append-only: an
/// inherited entry is never overwritten or dropped, even when its
/// placeholder has the `<label><index>` form this call mints — both
/// entries are kept, the inherited one first.
pub fn replace_words(
    text_in: &str,
    replacements: Vec<(usize, usize, String)>,
    items: Option<Vec<(String, String)>>,
) -> (r: Result<ReplaceResult, AnonymizeError>)
    ensures
        ({
            let fin = apply_replacements(
                reps_view(replacements@),
                0,
                LabelState {
                    text: text_in@,
                    items: init_items(items),
                    counters: Seq::empty(),
                    delta: 0,
                },
            );
            match r {
                Ok(rr) => fin is Some && rr.text@ == fin.unwrap().text && ledger_view(rr.items@)
                    == fin.unwrap().items,
                Err(e) => fin is None && e == AnonymizeError::Range,
            }
        }),
{
    let ghost reps = reps_view(replacements@);
    let ghost gitems = items;
    let mut items_v: Vec<(String, String)> = match items {
        Some(v) => v,
        None => Vec::new(),
    };
    proof {
        if gitems is None {
            assert(ledger_view(items_v@) =~= init_items(gitems));
        }
    }
    let ghost init = LabelState {
        text: text_in@,
        items: init_items(gitems),
        counters: Seq::empty(),
        delta: 0,
    };
    let mut cur = chars_of(text_in);
    let init_len: usize = cur.len();
    let mut counters: Vec<(String, usize)> = Vec::new();
    let mut delta: i128 = 0;
    let mut n: usize = 0;
    proof {
        assert(counters_view(counters@) =~= Seq::<(Seq<char>, int)>::empty());
        assert(init =~= LabelState {
            text: cur@,
            items: ledger_view(items_v@),
            counters: counters_view(counters@),
            delta: delta as int,
        });
    }
    while n < replacements.len()
        invariant
            reps == reps_view(replacements@),
            reps.len() == replacements@.len(),
            n <= reps.len(),
            gitems == items,
            init == (LabelState {
                text: text_in@,
                items: init_items(gitems),
                counters: Seq::<(Seq<char>, int)>::empty(),
                delta: 0,
            }),
            init_len == text_in@.len(),
            delta as int == cur@.len() - init_len,
            forall|t: int| 0 <= t < counters@.len() ==> (#[trigger] counters@[t]).1 <= n,
            apply_replacements(reps, 0, init) == apply_replacements(
                reps,
                n as int,
                LabelState {
                    text: cur@,
                    items: ledger_view(items_v@),
                    counters: counters_view(counters@),
                    delta: delta as int,
                },
            ),
        decreases reps.len() - n,
    {
        let ghost st0 = LabelState {
            text: cur@,
            items: ledger_view(items_v@),
            counters: counters_view(counters@),
            delta: delta as int,
        };
        proof {
            assert(reps[n as int] == (replacements@[n as int].0 as int,
            replacements@[n as int].1 as int, replacements@[n as int].2@));
        }
        let s0 = replacements[n].0;
        let e0 = replacements[n].1;
        let cur_len: usize = cur.len();
        let s_i: i128 = s0 as i128 + delta;
        let e_i: i128 = e0 as i128 + delta;
        let ghost spec_s = reps[n as int].0 + st0.delta;
        let ghost spec_e = reps[n as int].1 + st0.delta;
        proof {
            assert(s_i as int == spec_s && e_i as int == spec_e);
            assert(cur_len as int == st0.text.len());
        }
        if !(0 <= s_i && s_i <= e_i && e_i <= cur_len as i128) {
            proof {
                assert(apply_replacements(reps, n as int, st0) is None);
            }
            return Err(AnonymizeError::Range);
        }
        let s = s_i as usize;
        let e = e_i as usize;
        let old_word = sub_vec(&cur, s, e);
        let old_word_str = string_of(&old_word);
        proof {
            assert(s as int == spec_s && e as int == spec_e);
        }
        match find_by_value(&items_v, &old_word_str) {
            Some(key) => {
                let key_chars = chars_of(key.as_str());
                let mut newt = sub_vec(&cur, 0, s);
                append_all(&mut newt, &key_chars);
                append_range(&mut newt, &cur, e, cur_len);
                let newt_len: usize = newt.len();
                delta = delta + key_chars.len() as i128 - ((e - s) as i128);
                proof {
                    assert(newt@ == cur@.subrange(0, spec_s) + key@ + cur@.subrange(
                        spec_e,
                        cur@.len() as int,
                    ));
                    assert(delta as int == newt@.len() - init_len);
                    let st1 = LabelState {
                        text: newt@,
                        items: ledger_view(items_v@),
                        counters: counters_view(counters@),
                        delta: delta as int,
                    };
                    assert(st1 =~= LabelState {
                        text: st0.text.subrange(0, spec_s) + key@ + st0.text.subrange(
                            spec_e,
                            st0.text.len() as int,
                        ),
                        items: st0.items,
                        counters: st0.counters,
                        delta: st0.delta + key@.len() - (spec_e - spec_s),
                    });
                    assert(apply_replacements(reps, n as int, st0) == apply_replacements(
                        reps,
                        n as int + 1,
                        st1,
                    ));
                }
                cur = newt;
            },
            None => {
                let word = replacements[n].2.clone();
                let mut found: Option<usize> = None;
                let mut j: usize = 0;
                let ghost cvs = counters_view(counters@);
                while j < counters.len()
                    invariant
                        cvs == counters_view(counters@),
                        cvs.len() == counters@.len(),
                        j <= counters@.len(),
                        forall|t: int|
                            0 <= t < counters@.len() ==> (#[trigger] counters@[t]).1 <= n,
                        match found {
                            Some(c) => c <= n,
                            None => true,
                        },
                        word@ == replacements@[n as int].2@,
                        n < replacements@.len(),
                        match found {
                            Some(c) => counter_get(cvs, word@) == Some(c as int),
                            None => forall|t: int| 0 <= t < j ==> cvs[t].0 != word@,
                        },
                        found is Some ==> j == counters@.len(),
                    decreases counters@.len() - j,
                {
                    proof {
                        assert(cvs[j as int] == (counters@[j as int].0@,
                        counters@[j as int].1 as int));
                    }
                    if counters[j].0 == word {
                        proof {
                            lemma_counter_get_first(cvs, word@, j as int);
                        }
                        found = Some(counters[j].1);
                        j = counters.len();
                    } else {
                        j = j + 1;
                    }
                }
                let idx: usize = match found {
                    Some(c) => {
                        proof {
                            assert(counter_get(st0.counters, word@) == Some(c as int));
                        }
                        c + 1
                    },
                    None => {
                        proof {
                            lemma_counter_get_none(counters_view(counters@), word@);
                        }
                        0
                    },
                };
                counters.insert(0, (word.clone(), idx));
                let mut key_chars = chars_of(word.as_str());
                let dc = dec_chars(idx);
                append_all(&mut key_chars, &dc);
                let key_str = string_of(&key_chars);
                items_v.push((key_str, old_word_str));
                let mut newt = sub_vec(&cur, 0, s);
                append_all(&mut newt, &key_chars);
                append_range(&mut newt, &cur, e, cur_len);
                let newt_len: usize = newt.len();
                delta = delta + key_chars.len() as i128 - ((e - s) as i128);
                proof {
                    let spec_idx: int = match counter_get(st0.counters, word@) {
                        Some(c) => c + 1,
                        None => 0,
                    };
                    assert(idx as int == spec_idx);
                    let spec_key = word@ + spec_dec(spec_idx);
                    assert(key_chars@ == spec_key);
                    assert(counters_view(counters@) =~= st0.counters.insert(
                        0,
                        (word@, spec_idx),
                    ));
                    assert(ledger_view(items_v@) =~= st0.items.push(
                        (spec_key, st0.text.subrange(spec_s, spec_e)),
                    ));
                    assert(newt@ == cur@.subrange(0, spec_s) + spec_key + cur@.subrange(
                        spec_e,
                        cur@.len() as int,
                    ));
                    assert(delta as int == newt@.len() - init_len);
                    let st1 = LabelState {
                        text: newt@,
                        items: ledger_view(items_v@),
                        counters: counters_view(counters@),
                        delta: delta as int,
                    };
                    assert(st1 =~= LabelState {
                        text: st0.text.subrange(0, spec_s) + spec_key + st0.text.subrange(
                            spec_e,
                            st0.text.len() as int,
                        ),
                        items: st0.items.push((spec_key, st0.text.subrange(spec_s, spec_e))),
                        counters: st0.counters.insert(0, (word@, spec_idx)),
                        delta: st0.delta + spec_key.len() - (spec_e - spec_s),
                    });
                    assert(apply_replacements(reps, n as int, st0) == apply_replacements(
                        reps,
                        n as int + 1,
                        st1,
                    ));
                }
                cur = newt;
            },
        }
        n = n + 1;
    }
    proof {
        let stf = LabelState {
            text: cur@,
            items: ledger_view(items_v@),
            counters: counters_view(counters@),
            delta: delta as int,
        };
        assert(apply_replacements(reps, n as int, stf) == Some(stf));
    }
    let text_out = string_of(&cur);
    Ok(ReplaceResult { text: text_out, items: items_v })
}

/// A per-call replacement-prefix override is not supported for the label
/// stage, whose placeholders are built from label names: requesting one is
/// an explicit unsupported-operation error.
pub fn check_replacement_override(replacement: Option<&str>) -> (r: Result<(), AnonymizeError>)
    ensures
        r is Ok <==> replacement is None,
        r is Err ==> r == Err::<(), AnonymizeError>(AnonymizeError::UnsupportedOperation),
{
    match replacement {
        None => Ok(()),
        Some(_s) => Err(AnonymizeError::UnsupportedOperation),
    }
}

/// Resolves each scored token through the id-to-label table and keeps the
/// sensitive, non-empty spans as replacement candidates. A class id missing
/// from the table is a configuration error.
pub fn select_candidates(
    offsets: &Vec<(usize, usize)>,
    classes: &Vec<usize>,
    table: &Vec<(String, (String, bool))>,
) -> (r: Result<Vec<(usize, usize, String)>, AnonymizeError>)
    requires
        offsets@.len() == classes@.len(),
    ensures
        ({
            let spec_r = select_spec(
                offsets@.map_values(|p: (usize, usize)| (p.0 as int, p.1 as int)),
                classes@.map_values(|c: usize| c as int),
                table_view(table@),
                0,
            );
            match r {
                Ok(cands) => spec_r == Some(reps_view(cands@)),
                Err(e) => spec_r is None && e == AnonymizeError::Config,
            }
        }),
{
    let ghost offs = offsets@.map_values(|p: (usize, usize)| (p.0 as int, p.1 as int));
    let ghost cls = classes@.map_values(|c: usize| c as int);
    let ghost tbl = table_view(table@);
    let mut out: Vec<(usize, usize, String)> = Vec::new();
    let mut i: usize = offsets.len();
    proof {
        assert(select_spec(offs, cls, tbl, i as int) == Some(Seq::<(int, int, Seq<char>)>::empty()));
        assert(reps_view(out@) =~= Seq::<(int, int, Seq<char>)>::empty());
    }
    while i > 0
        invariant
            offs == offsets@.map_values(|p: (usize, usize)| (p.0 as int, p.1 as int)),
            cls == classes@.map_values(|c: usize| c as int),
            tbl == table_view(table@),
            offsets@.len() == classes@.len(),
            i <= offsets@.len(),
            select_spec(offs, cls, tbl, i as int) == Some(reps_view(out@)),
        decreases i,
    {
        i = i - 1;
        let class_str = string_of(&dec_chars(classes[i]));
        let mut found: Option<(String, bool)> = None;
        let mut j: usize = 0;
        while j < table.len()
            invariant
                tbl == table_view(table@),
                tbl.len() == table@.len(),
                j <= table@.len(),
                i < classes@.len(),
                class_str@ == spec_dec(cls[i as int]),
                match found {
                    Some(lab) => label_get(tbl, class_str@) == Some((lab.0@, lab.1)),
                    None => forall|t: int| 0 <= t < j ==> tbl[t].0 != class_str@,
                },
                found is Some ==> j == table@.len(),
            decreases table@.len() - j,
        {
            proof {
                assert(tbl[j as int] == (table@[j as int].0@, (table@[j as int].1.0@,
                table@[j as int].1.1)));
            }
            if table[j].0 == class_str {
                proof {
                    lemma_label_get_first(tbl, class_str@, j as int);
                }
                found = Some((table[j].1.0.clone(), table[j].1.1));
                j = table.len();
            } else {
                j = j + 1;
            }
        }
        match found {
            Some(lab) => {
                let ghost out0 = out@;
                proof {
                    assert(offs[i as int] == (offsets@[i as int].0 as int,
                    offsets@[i as int].1 as int));
                }
                if lab.1 && offsets[i].0 != offsets[i].1 {
                    out.insert(0, (offsets[i].0, offsets[i].1, lab.0));
                    proof {
                        assert(out@.drop_first() =~= out0);
                        assert(reps_view(out@) =~= seq![
                            (offs[i as int].0, offs[i as int].1, lab.0@),
                        ] + reps_view(out0));
                    }
                }
            },
            None => {
                proof {
                    lemma_label_get_none(tbl, class_str@);
                    lemma_select_none(offs, cls, tbl, 0, i as int);
                }
                return Err(AnonymizeError::Config);
            },
        }
    }
    Ok(out)
}

} // verus!
