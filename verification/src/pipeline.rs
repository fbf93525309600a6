//! The pipeline: an ordered composition of detection stages.
//!
//! `anonymize` folds (text, ledger) through the stages in configured
//! order: each stage consumes the previous stage's output text and the
//! accumulated ledger, so whichever stage runs first captures and
//! deduplicates a value, and later stages only see already-substituted
//! text. A stage error aborts the remaining stages with no partial result.

use vstd::prelude::*;
use crate::config::{AnonymizePipelineConfig, AnonymizerConfig};
use crate::error::AnonymizeError;
use crate::flashtext_anonymizer::{FlashTextAnonymizer, ScanState, scan_from_start};
use crate::regex_anonymizer::{RegexAnonymizer, regex_replace_spec, regex_valid, patterns_view};
use crate::trie::accepts;
use crate::chars::spec_dec;
use crate::{ReplaceResult, ledger_view, str_views};

verus! {

/// A detector: keyword, pattern, or label-based.
pub trait Anonymizer {
    /// Runs this detector over `text`, replacing what it finds and growing
    /// the ledger; `replacement` overrides the configured placeholder
    /// prefix for this call.
    fn anonymize(
        &self,
        text: &str,
        replacement: Option<&str>,
        items: Option<Vec<(String, String)>>,
    ) -> Result<ReplaceResult, AnonymizeError>;

    /// Reverses a replacement result: each ledger entry's placeholder is
    /// substituted back to its recorded value, in ledger order.
    fn deanonymize(&self, input: ReplaceResult) -> String {
        crate::deanon::deanonymize(input)
    }
}

impl Anonymizer for FlashTextAnonymizer {
    fn anonymize(
        &self,
        text: &str,
        replacement: Option<&str>,
        items: Option<Vec<(String, String)>>,
    ) -> Result<ReplaceResult, AnonymizeError> {
        self.replace_keywords(text, replacement, items)
    }
}

impl Anonymizer for RegexAnonymizer {
    fn anonymize(
        &self,
        text: &str,
        replacement: Option<&str>,
        items: Option<Vec<(String, String)>>,
    ) -> Result<ReplaceResult, AnonymizeError> {
        self.replace_regex_matches(text, replacement, items)
    }
}

/// One built pipeline stage.
#[derive(Debug)]
pub enum Stage {
    Flash(FlashTextAnonymizer),
    Regex(RegexAnonymizer),
}

/// What one stage turns (text, ledger) into: `None` when the stage has no
/// placeholder prefix to use.
pub open spec fn stage_apply(
    s: Stage,
    text: Seq<char>,
    items: Seq<(Seq<char>, Seq<char>)>,
    rep: Option<Seq<char>>,
) -> Option<(Seq<char>, Seq<(Seq<char>, Seq<char>)>)> {
    match s {
        Stage::Flash(a) => {
            if rep is Some || a.replacement is Some {
                let prefix = if rep is Some {
                    rep.unwrap()
                } else {
                    a.replacement.unwrap()@
                };
                let fin = scan_from_start(a.root, prefix, text, items);
                Some((fin.out, fin.items))
            } else {
                None
            }
        },
        Stage::Regex(a) => {
            if rep is Some || a.replacement is Some {
                let prefix = if rep is Some {
                    rep.unwrap()
                } else {
                    a.replacement.unwrap()@
                };
                let fin = regex_replace_spec(
                    patterns_view(a.regex_patterns@),
                    prefix,
                    0,
                    ScanState { out: text, items, idx: 0 },
                );
                Some((fin.out, fin.items))
            } else {
                None
            }
        },
    }
}

/// The pipeline fold from stage `k` on: each stage consumes the previous
/// stage's text and the accumulated ledger; a stage failure aborts the
/// fold.
pub open spec fn pipe_spec(
    stages: Seq<Stage>,
    k: int,
    text: Seq<char>,
    items: Seq<(Seq<char>, Seq<char>)>,
    rep: Option<Seq<char>>,
) -> Option<(Seq<char>, Seq<(Seq<char>, Seq<char>)>)>
    decreases stages.len() - k,
{
    if k >= stages.len() {
        Some((text, items))
    } else {
        match stage_apply(stages[k], text, items, rep) {
            None => None,
            Some(ti) => pipe_spec(stages, k + 1, ti.0, ti.1, rep),
        }
    }
}

/// The per-call replacement override as a character sequence.
pub open spec fn rep_view(replacement: Option<&str>) -> Option<Seq<char>> {
    match replacement {
        Some(s) => Some(s@),
        None => None,
    }
}

/// The keyword views of an optional inline keyword list.
pub open spec fn opt_str_views(ss: Option<Vec<String>>) -> Seq<Seq<char>> {
    match ss {
        Some(v) => str_views(v@),
        None => Seq::empty(),
    }
}

/// Whether a stage descriptor can be built here: inline keyword and
/// pattern sources only (a `file` source must be resolved by the embedding
/// layer first), every pattern must compile, and no label-scoring
/// descriptor — a label stage needs the external inference runtime, which
/// the library cannot drive, so a configuration naming one aborts the
/// build rather than yield a partially built pipeline.
pub open spec fn config_ok(c: AnonymizerConfig) -> bool {
    match c {
        AnonymizerConfig::FlashText { name, file, keywords } => file is None,
        AnonymizerConfig::Regex { name, file, patterns } => file is None && (forall|i: int|
            0 <= i < opt_str_views(patterns).len() ==> regex_valid(
                #[trigger] opt_str_views(patterns)[i],
            )),
        AnonymizerConfig::Ner { .. } => false,
    }
}

/// Whether a built stage realises a stage descriptor: same configured
/// prefix, and exactly the descriptor's keywords or patterns.
pub open spec fn stage_matches(s: Stage, c: AnonymizerConfig) -> bool {
    match c {
        AnonymizerConfig::FlashText { name, file, keywords } => s matches Stage::Flash(a) && (
        a.replacement matches Some(n) && n@ == name@) && (forall|w: Seq<char>|
            accepts(a.root, w) <==> opt_str_views(keywords).contains(w)),
        AnonymizerConfig::Regex { name, file, patterns } => s matches Stage::Regex(a) && (
        a.replacement matches Some(n) && n@ == name@) && patterns_view(a.regex_patterns@)
            == opt_str_views(patterns),
        AnonymizerConfig::Ner { .. } => false,
    }
}

/// Deduplication across the whole pipeline: whichever stage first records
/// a source value owns its placeholder; the fold never alters or drops
/// earlier entries, and the recorded values of the final ledger are
/// pairwise distinct whenever the starting ledger's were.
pub proof fn lemma_pipeline_dedup(
    stages: Seq<Stage>,
    k: int,
    text: Seq<char>,
    items: Seq<(Seq<char>, Seq<char>)>,
    rep: Option<Seq<char>>,
)
    ensures
        pipe_spec(stages, k, text, items, rep) matches Some(ti) ==> {
            &&& ti.1.len() >= items.len()
            &&& forall|i: int| 0 <= i < items.len() ==> ti.1[i] == items[i]
            &&& crate::ledger::values_distinct(items) ==> crate::ledger::values_distinct(ti.1)
        },
    decreases stages.len() - k,
{
    if k < stages.len() {
        match stage_apply(stages[k], text, items, rep) {
            None => {
            },
            Some(ti) => {
                match stages[k] {
                    Stage::Flash(a) => {
                        let prefix = if rep is Some {
                            rep.unwrap()
                        } else {
                            a.replacement.unwrap()@
                        };
                        crate::flashtext_anonymizer::lemma_scan_dedup(
                            a.root,
                            prefix,
                            text,
                            0,
                            ScanState { out: Seq::empty(), items, idx: 0 },
                        );
                    },
                    Stage::Regex(a) => {
                        let prefix = if rep is Some {
                            rep.unwrap()
                        } else {
                            a.replacement.unwrap()@
                        };
                        crate::regex_anonymizer::lemma_regex_replace_dedup(
                            patterns_view(a.regex_patterns@),
                            prefix,
                            0,
                            ScanState { out: text, items, idx: 0 },
                        );
                    },
                }
                lemma_pipeline_dedup(stages, k + 1, ti.0, ti.1, rep);
                assert(pipe_spec(stages, k, text, items, rep) == pipe_spec(
                    stages,
                    k + 1,
                    ti.0,
                    ti.1,
                    rep,
                ));
            },
        }
    }
}

/// Stage order determines ownership of ambiguous matches: once some stage
/// has recorded a value — whichever stage ran first — the remaining
/// stages only reuse its placeholder, and the finished call's ledger
/// still maps the value to that same placeholder.
pub proof fn lemma_pipeline_ownership(
    stages: Seq<Stage>,
    k: int,
    text: Seq<char>,
    items: Seq<(Seq<char>, Seq<char>)>,
    rep: Option<Seq<char>>,
    v: Seq<char>,
)
    requires
        crate::ledger::find_value(items, v) is Some,
    ensures
        pipe_spec(stages, k, text, items, rep) matches Some(ti) ==> crate::ledger::find_value(
            ti.1,
            v,
        ) == crate::ledger::find_value(items, v),
{
    lemma_pipeline_dedup(stages, k, text, items, rep);
    if pipe_spec(stages, k, text, items, rep) is Some {
        let ti = pipe_spec(stages, k, text, items, rep).unwrap();
        crate::ledger::lemma_find_value_extend(items, ti.1, v);
    }
}

/// The placeholder prefix a stage uses for a call: the per-call override
/// when one is given, else the stage's configured prefix.
pub open spec fn stage_prefix(s: Stage, rep: Option<Seq<char>>) -> Seq<char> {
    match s {
        Stage::Flash(a) => {
            if rep is Some {
                rep.unwrap()
            } else {
                a.replacement.unwrap()@
            }
        },
        Stage::Regex(a) => {
            if rep is Some {
                rep.unwrap()
            } else {
                a.replacement.unwrap()@
            }
        },
    }
}

/// No ledger key has a form that any of the stages from `k` on could
/// still mint.
pub open spec fn keys_unmintable(
    items: Seq<(Seq<char>, Seq<char>)>,
    stages: Seq<Stage>,
    k: int,
    rep: Option<Seq<char>>,
) -> bool {
    forall|t: int, j: int, i: int|
        #![trigger items[t], stage_prefix(stages[j], rep), spec_dec(i)]
        0 <= t < items.len() && k <= j < stages.len() && 0 <= i ==> items[t].0 != stage_prefix(
            stages[j],
            rep,
        ) + spec_dec(i)
}

/// No two distinct stages from `k` on can mint the same placeholder.
/// Distinct configured prefixes alone do not give this: a prefix that
/// extends another can mint the same key (one prefix `A` with counter 10
/// and another `A1` with counter 0 both mint `A10`), and a per-call
/// override gives every stage the same prefix.
pub open spec fn prefixes_independent(stages: Seq<Stage>, k: int, rep: Option<Seq<char>>) -> bool {
    forall|j1: int, j2: int, i1: int, i2: int|
        #![trigger stage_prefix(stages[j1], rep), stage_prefix(stages[j2], rep), spec_dec(i1), spec_dec(i2)]
        k <= j1 < stages.len() && k <= j2 < stages.len() && j1 != j2 && 0 <= i1 && 0 <= i2
            ==> stage_prefix(stages[j1], rep) + spec_dec(i1) != stage_prefix(stages[j2], rep)
            + spec_dec(i2)
}

/// Placeholder keys are unique across one whole pipeline call: starting
/// from a ledger whose keys are pairwise distinct and not mintable by any
/// stage, and with no two stages able to mint the same placeholder, the
/// final ledger's keys are again pairwise distinct — and every added
/// entry's key is some stage's prefix followed by a per-call index.
pub proof fn lemma_pipeline_keys_unique(
    stages: Seq<Stage>,
    k: int,
    text: Seq<char>,
    items: Seq<(Seq<char>, Seq<char>)>,
    rep: Option<Seq<char>>,
)
    requires
        crate::ledger::keys_distinct(items),
        keys_unmintable(items, stages, k, rep),
        prefixes_independent(stages, k, rep),
    ensures
        pipe_spec(stages, k, text, items, rep) matches Some(ti) ==> {
            &&& ti.1.len() >= items.len()
            &&& crate::ledger::keys_distinct(ti.1)
            &&& forall|t: int|
                items.len() <= t < ti.1.len() ==> exists|j: int, i: int|
                    #![trigger stage_prefix(stages[j], rep), spec_dec(i)]
                    k <= j < stages.len() && 0 <= i && (#[trigger] ti.1[t]).0 == stage_prefix(
                        stages[j],
                        rep,
                    ) + spec_dec(i)
        },
    decreases stages.len() - k,
{
    if k >= stages.len() {
        assert(pipe_spec(stages, k, text, items, rep) == Some((text, items)));
    } else if stage_apply(stages[k], text, items, rep) is Some {
        let tik = stage_apply(stages[k], text, items, rep).unwrap();
        let pre = stage_prefix(stages[k], rep);
        assert(crate::flashtext_anonymizer::keys_fresh(items, pre, 0)) by {
            assert forall|t: int, i: int|
                0 <= t < items.len() && i >= 0 implies (#[trigger] items[t]).0 != pre + (
            #[trigger] spec_dec(i)) by {
                assert(stage_prefix(stages[k], rep) == pre);
            }
        }
        match stages[k] {
            Stage::Flash(a) => {
                let st0 = ScanState { out: Seq::empty(), items, idx: 0 };
                crate::flashtext_anonymizer::lemma_scan_keys_unique(a.root, pre, text, 0, st0);
                crate::flashtext_anonymizer::lemma_scan_dedup(a.root, pre, text, 0, st0);
            },
            Stage::Regex(a) => {
                let st0 = ScanState { out: text, items, idx: 0 };
                crate::regex_anonymizer::lemma_regex_replace_keys_unique(
                    patterns_view(a.regex_patterns@),
                    pre,
                    0,
                    st0,
                );
                crate::regex_anonymizer::lemma_regex_replace_dedup(
                    patterns_view(a.regex_patterns@),
                    pre,
                    0,
                    st0,
                );
            },
        }
        assert(crate::ledger::keys_distinct(tik.1));
        assert(tik.1.len() >= items.len());
        assert(forall|t: int| 0 <= t < items.len() ==> tik.1[t] == items[t]);
        assert forall|t: int|
            items.len() <= t < tik.1.len() implies exists|i: int|
            0 <= i && (#[trigger] tik.1[t]).0 == pre + spec_dec(i) by {
            let i = choose|i: int| 0 <= i && tik.1[t].0 == pre + spec_dec(i);
        }
        assert(keys_unmintable(tik.1, stages, k + 1, rep)) by {
            assert forall|t: int, j: int, i: int|
                #![trigger tik.1[t], stage_prefix(stages[j], rep), spec_dec(i)]
                0 <= t < tik.1.len() && k + 1 <= j < stages.len() && 0 <= i implies tik.1[t].0
                != stage_prefix(stages[j], rep) + spec_dec(i) by {
                if t < items.len() {
                    assert(tik.1[t] == items[t]);
                } else {
                    let i0 = choose|i0: int| 0 <= i0 && tik.1[t].0 == pre + spec_dec(i0);
                    assert(stage_prefix(stages[k], rep) + spec_dec(i0) != stage_prefix(
                        stages[j],
                        rep,
                    ) + spec_dec(i));
                }
            }
        }
        assert(prefixes_independent(stages, k + 1, rep)) by {
            assert forall|j1: int, j2: int, i1: int, i2: int|
                #![trigger stage_prefix(stages[j1], rep), stage_prefix(stages[j2], rep), spec_dec(i1), spec_dec(i2)]
                k + 1 <= j1 < stages.len() && k + 1 <= j2 < stages.len() && j1 != j2 && 0 <= i1
                    && 0 <= i2 implies stage_prefix(stages[j1], rep) + spec_dec(i1)
                != stage_prefix(stages[j2], rep) + spec_dec(i2) by {
                assert(k <= j1 < stages.len() && k <= j2 < stages.len());
            }
        }
        lemma_pipeline_keys_unique(stages, k + 1, tik.0, tik.1, rep);
        lemma_pipeline_dedup(stages, k + 1, tik.0, tik.1, rep);
        assert(pipe_spec(stages, k, text, items, rep) == pipe_spec(
            stages,
            k + 1,
            tik.0,
            tik.1,
            rep,
        ));
        if pipe_spec(stages, k, text, items, rep) is Some {
            let ti = pipe_spec(stages, k, text, items, rep).unwrap();
            assert forall|t: int|
                items.len() <= t < ti.1.len() implies exists|j: int, i: int|
                #![trigger stage_prefix(stages[j], rep), spec_dec(i)]
                k <= j < stages.len() && 0 <= i && (#[trigger] ti.1[t]).0 == stage_prefix(
                    stages[j],
                    rep,
                ) + spec_dec(i) by {
                if t < tik.1.len() {
                    assert(ti.1[t] == tik.1[t]);
                    let i0 = choose|i0: int| 0 <= i0 && tik.1[t].0 == pre + spec_dec(i0);
                    assert(k <= k < stages.len() && 0 <= i0 && ti.1[t].0 == stage_prefix(
                        stages[k],
                        rep,
                    ) + spec_dec(i0));
                } else {
                    let (j, i) = choose|j: int, i: int|
                        #![trigger stage_prefix(stages[j], rep), spec_dec(i)]
                        k + 1 <= j < stages.len() && 0 <= i && ti.1[t].0 == stage_prefix(
                            stages[j],
                            rep,
                        ) + spec_dec(i);
                    assert(k <= j < stages.len() && 0 <= i && ti.1[t].0 == stage_prefix(
                        stages[j],
                        rep,
                    ) + spec_dec(i));
                }
            }
        }
    }
}

/// The ordered composition of built stages.
#[derive(Debug)]
pub struct AnonymizePipeline {
    pub anonymizers: Vec<Stage>,
}

impl AnonymizePipeline {
    /// Builds the pipeline from a configuration: one stage per descriptor,
    /// in declared order. Any descriptor that cannot be built — an
    /// unresolved `file` source, a pattern that does not compile, or a
    /// label-scoring descriptor, whose inference runtime the library cannot
    /// drive — aborts the whole build; no partially built pipeline is
    /// returned.
    pub fn new(anonymize_config: AnonymizePipelineConfig) -> (r: Result<
        AnonymizePipeline,
        AnonymizeError,
    >)
        ensures
            r is Ok <==> (forall|i: int|
                0 <= i < anonymize_config.pipeline@.len() ==> config_ok(
                    #[trigger] anonymize_config.pipeline@[i],
                )),
            r is Ok ==> {
                let p = r.unwrap();
                &&& p.anonymizers@.len() == anonymize_config.pipeline@.len()
                &&& forall|i: int|
                    0 <= i < anonymize_config.pipeline@.len() ==> stage_matches(
                        #[trigger] p.anonymizers@[i],
                        anonymize_config.pipeline@[i],
                    )
            },
            r is Err ==> r == Err::<AnonymizePipeline, AnonymizeError>(AnonymizeError::Config),
    {
        let configs = anonymize_config.pipeline;
        let ghost cfgs = configs@;
        let mut anonymizers: Vec<Stage> = Vec::new();
        let mut idx: usize = 0;
        while idx < configs.len()
            invariant
                cfgs == configs@,
                cfgs == anonymize_config.pipeline@,
                idx <= cfgs.len(),
                anonymizers@.len() == idx,
                forall|i: int| 0 <= i < idx ==> config_ok(#[trigger] cfgs[i]),
                forall|i: int|
                    0 <= i < idx ==> stage_matches(#[trigger] anonymizers@[i], cfgs[i]),
            decreases cfgs.len() - idx,
        {
            let c = &configs[idx];
            match c {
                AnonymizerConfig::FlashText { name, file, keywords } => {
                    if file.is_some() {
                        proof {
                            assert(!config_ok(cfgs[idx as int]));
                        }
                        return Err(AnonymizeError::Config);
                    }
                    let mut a = FlashTextAnonymizer::new(Some(name.clone()));
                    match keywords {
                        Some(kws) => {
                            if a.add_keywords(kws).is_err() {
                                return Err(AnonymizeError::Config);
                            }
                        },
                        None => {
                        },
                    }
                    let stg = Stage::Flash(a);
                    proof {
                        assert(cfgs[idx as int] == *c);
                        assert(config_ok(cfgs[idx as int]));
                        assert(stage_matches(stg, cfgs[idx as int]));
                    }
                    anonymizers.push(stg);
                },
                AnonymizerConfig::Regex { name, file, patterns } => {
                    if file.is_some() {
                        proof {
                            assert(!config_ok(cfgs[idx as int]));
                        }
                        return Err(AnonymizeError::Config);
                    }
                    let mut a = RegexAnonymizer::new(Some(name.clone()));
                    match patterns {
                        Some(ps) => {
                            let ghost pvs = str_views(ps@);
                            let mut t: usize = 0;
                            proof {
                                assert(pvs.subrange(0, 0) =~= Seq::<Seq<char>>::empty());
                                assert(patterns_view(a.regex_patterns@) =~= pvs.subrange(0, 0));
                                assert(cfgs[idx as int] == *c);
                                if config_ok(cfgs[idx as int]) {
                                    assert(opt_str_views(Some(*ps)) == pvs);
                                }
                            }
                            while t < ps.len()
                                invariant
                                    cfgs == anonymize_config.pipeline@,
                                    idx < cfgs.len(),
                                    config_ok(cfgs[idx as int]) ==> (forall|i: int|
                                        0 <= i < pvs.len() ==> regex_valid(#[trigger] pvs[i])),
                                    pvs == str_views(ps@),
                                    pvs.len() == ps@.len(),
                                    t <= pvs.len(),
                                    a.replacement matches Some(n) && n@ == name@,
                                    patterns_view(a.regex_patterns@) == pvs.subrange(0, t as int),
                                    forall|i: int|
                                        0 <= i < t ==> regex_valid(#[trigger] pvs[i]),
                                decreases pvs.len() - t,
                            {
                                if a.add_regex_pattern(ps[t].as_str()).is_err() {
                                    proof {
                                        assert(pvs[t as int] == ps@[t as int]@);
                                        assert(!regex_valid(pvs[t as int]));
                                        if config_ok(cfgs[idx as int]) {
                                            assert(regex_valid(pvs[t as int]));
                                        }
                                    }
                                    return Err(AnonymizeError::Config);
                                }
                                proof {
                                    assert(pvs.subrange(0, t as int + 1) =~= pvs.subrange(
                                        0,
                                        t as int,
                                    ).push(pvs[t as int]));
                                    assert(pvs[t as int] == ps@[t as int]@);
                                }
                                t = t + 1;
                            }
                            proof {
                                assert(pvs.subrange(0, pvs.len() as int) =~= pvs);
                            }
                        },
                        None => {
                            proof {
                                assert(patterns_view(a.regex_patterns@) =~= Seq::<
                                    Seq<char>,
                                >::empty());
                            }
                        },
                    }
                    let stg = Stage::Regex(a);
                    proof {
                        assert(cfgs[idx as int] == *c);
                        assert(config_ok(cfgs[idx as int]));
                        assert(stage_matches(stg, cfgs[idx as int]));
                    }
                    anonymizers.push(stg);
                },
                AnonymizerConfig::Ner { .. } => {
                    proof {
                        assert(cfgs[idx as int] == *c);
                        assert(!config_ok(cfgs[idx as int]));
                    }
                    return Err(AnonymizeError::Config);
                },
            }
            idx = idx + 1;
        }
        Ok(AnonymizePipeline { anonymizers })
    }

    /// Folds (text, ledger) through the stages in configured order,
    /// starting from an empty ledger; any stage error aborts the remaining
    /// stages and no partial result is returned.
    pub fn anonymize(
        &self,
        text: &str,
        replacement: Option<&str>,
        items: Option<Vec<(String, String)>>,
    ) -> (r: Result<ReplaceResult, AnonymizeError>)
        ensures
            match r {
                Ok(rr) => pipe_spec(
                    self.anonymizers@,
                    0,
                    text@,
                    Seq::empty(),
                    rep_view(replacement),
                ) == Some((rr.text@, ledger_view(rr.items@))),
                Err(e) => pipe_spec(
                    self.anonymizers@,
                    0,
                    text@,
                    Seq::empty(),
                    rep_view(replacement),
                ) is None && e == AnonymizeError::MissingReplacementPrefix,
            },
    {
        let mut cur_text = text.to_owned();
        let mut items_v: Vec<(String, String)> = Vec::new();
        let mut k: usize = 0;
        proof {
            assert(ledger_view(items_v@) =~= Seq::<(Seq<char>, Seq<char>)>::empty());
        }
        while k < self.anonymizers.len()
            invariant
                k <= self.anonymizers@.len(),
                pipe_spec(self.anonymizers@, 0, text@, Seq::empty(), rep_view(replacement))
                    == pipe_spec(
                    self.anonymizers@,
                    k as int,
                    cur_text@,
                    ledger_view(items_v@),
                    rep_view(replacement),
                ),
            decreases self.anonymizers@.len() - k,
        {
            let ghost text0 = cur_text@;
            let ghost items0 = ledger_view(items_v@);
            let stage = &self.anonymizers[k];
            let res = match stage {
                Stage::Flash(a) => a.replace_keywords(cur_text.as_str(), replacement, Some(items_v)),
                Stage::Regex(a) => a.replace_regex_matches(
                    cur_text.as_str(),
                    replacement,
                    Some(items_v),
                ),
            };
            match res {
                Ok(rr) => {
                    proof {
                        assert(stage_apply(
                            self.anonymizers@[k as int],
                            text0,
                            items0,
                            rep_view(replacement),
                        ) == Some((rr.text@, ledger_view(rr.items@))));
                    }
                    cur_text = rr.text;
                    items_v = rr.items;
                },
                Err(e) => {
                    proof {
                        assert(stage_apply(
                            self.anonymizers@[k as int],
                            text0,
                            items0,
                            rep_view(replacement),
                        ) is None);
                    }
                    return Err(e);
                },
            }
            k = k + 1;
        }
        Ok(ReplaceResult { text: cur_text, items: items_v })
    }
}

impl Anonymizer for AnonymizePipeline {
    fn anonymize(
        &self,
        text: &str,
        replacement: Option<&str>,
        items: Option<Vec<(String, String)>>,
    ) -> Result<ReplaceResult, AnonymizeError> {
        AnonymizePipeline::anonymize(self, text, replacement, items)
    }
}

} // verus!
