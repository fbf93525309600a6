//! Pipeline configuration data and configuration-text token substitution.
//!
//! A configuration is an ordered list of stage descriptors. Before a
//! configuration text is parsed, `${NAME}` tokens in it are substituted
//! with caller-supplied variable values; a referenced variable without a
//! value is a configuration error.

use vstd::prelude::*;
use crate::chars::{chars_of, string_of, append_all, push_char, sub_vec};
use crate::deanon::replace_all;
use crate::deanon::replace_all_chars;
use crate::error::AnonymizeError;
use crate::str_views;

verus! {

/// One stage descriptor: a keyword stage, a pattern stage, or a
/// label-scoring stage. A `file` source names an external line-delimited
/// list that the embedding layer resolves into `keywords` / `patterns`
/// before the pipeline is built.
pub enum AnonymizerConfig {
    FlashText { name: String, file: Option<String>, keywords: Option<Vec<String>> },
    Regex { name: String, file: Option<String>, patterns: Option<Vec<String>> },
    Ner {
        model_path: String,
        tokenizer_path: String,
        id2label: Vec<(String, (String, bool))>,
        token_type_ids_included: Option<bool>,
    },
}

/// An ordered list of stage descriptors.
pub struct AnonymizePipelineConfig {
    pub pipeline: Vec<AnonymizerConfig>,
}

/// Whether a character may appear in a `${NAME}` token name: ASCII
/// letters, digits, underscore or hyphen.
pub open spec fn name_char(c: char) -> bool {
    ('a' <= c && c <= 'z') || ('A' <= c && c <= 'Z') || ('0' <= c && c <= '9') || c == '_' || c
        == '-'
}

/// The first position at or after `j` whose character cannot appear in a
/// token name.
pub open spec fn name_end(text: Seq<char>, j: int) -> int
    recommends
        0 <= j <= text.len(),
    decreases text.len() - j,
{
    if j >= text.len() {
        text.len() as int
    } else if !name_char(text[j]) {
        j
    } else {
        name_end(text, j + 1)
    }
}

pub proof fn lemma_name_end_bounds(text: Seq<char>, j: int)
    requires
        0 <= j <= text.len(),
    ensures
        j <= name_end(text, j) <= text.len(),
    decreases text.len() - j,
{
    if j < text.len() && name_char(text[j]) {
        lemma_name_end_bounds(text, j + 1);
    }
}

/// The `${NAME}` token names of `text` from position `i` on, leftmost
/// first: a token is `$`, `{`, one or more name characters, and `}`; text
/// that merely resembles one is skipped one character at a time.
pub open spec fn find_tokens_spec(text: Seq<char>, i: int) -> Seq<Seq<char>>
    decreases text.len() - i,
    when 0 <= i <= text.len()
    via find_tokens_dec
{
    if i >= text.len() {
        Seq::empty()
    } else if i + 1 < text.len() && text[i] == '$' && text[i + 1] == '{' {
        let j = name_end(text, i + 2);
        if j < text.len() && text[j] == '}' && j > i + 2 {
            seq![text.subrange(i + 2, j)] + find_tokens_spec(text, j + 1)
        } else {
            find_tokens_spec(text, i + 1)
        }
    } else {
        find_tokens_spec(text, i + 1)
    }
}

#[via_fn]
proof fn find_tokens_dec(text: Seq<char>, i: int) {
    if 0 <= i < text.len() {
        if i + 1 < text.len() && text[i] == '$' && text[i + 1] == '{' {
            lemma_name_end_bounds(text, i + 2);
        }
    }
}

/// The value of the first variable named `k`.
pub open spec fn var_get(vars: Seq<(Seq<char>, Seq<char>)>, k: Seq<char>) -> Option<Seq<char>>
    decreases vars.len(),
{
    if vars.len() == 0 {
        None
    } else if vars[0].0 == k {
        Some(vars[0].1)
    } else {
        var_get(vars.drop_first(), k)
    }
}

pub proof fn lemma_var_get_first(vars: Seq<(Seq<char>, Seq<char>)>, k: Seq<char>, j: int)
    requires
        0 <= j < vars.len(),
        vars[j].0 == k,
        forall|i: int| 0 <= i < j ==> vars[i].0 != k,
    ensures
        var_get(vars, k) == Some(vars[j].1),
    decreases j,
{
    if j > 0 {
        lemma_var_get_first(vars.drop_first(), k, j - 1);
    }
}

pub proof fn lemma_var_get_none(vars: Seq<(Seq<char>, Seq<char>)>, k: Seq<char>)
    requires
        forall|i: int| 0 <= i < vars.len() ==> vars[i].0 != k,
    ensures
        var_get(vars, k) is None,
    decreases vars.len(),
{
    if vars.len() > 0 {
        lemma_var_get_none(vars.drop_first(), k);
    }
}

/// The variables as character sequences.
pub open spec fn vars_view(vars: Seq<(String, String)>) -> Seq<(Seq<char>, Seq<char>)> {
    vars.map_values(|p: (String, String)| (p.0@, p.1@))
}

/// The token name wrapped back into its `${NAME}` source form.
pub open spec fn token_pattern(name: Seq<char>) -> Seq<char> {
    seq!['$', '{'] + name + seq!['}']
}

/// The template after the tokens from index `k` on have been substituted
/// in order, each replacing every occurrence of its `${NAME}` form with the
/// variable's value; a token without a variable is a configuration error.
pub open spec fn replace_tokens_spec(
    text: Seq<char>,
    tokens: Seq<Seq<char>>,
    k: int,
    vars: Seq<(Seq<char>, Seq<char>)>,
) -> Option<Seq<char>>
    decreases tokens.len() - k,
{
    if k >= tokens.len() {
        Some(text)
    } else {
        match var_get(vars, tokens[k]) {
            None => None,
            Some(v) => replace_tokens_spec(
                replace_all(text, token_pattern(tokens[k]), v),
                tokens,
                k + 1,
                vars,
            ),
        }
    }
}

/// Substitution of `${NAME}` tokens in configuration text.
pub struct ReplaceTokens {}

impl ReplaceTokens {
    /// The `${NAME}` token names of `text`, leftmost first.
    pub fn find_tokens(text: &String) -> (r: Vec<String>)
        ensures
            str_views(r@) == find_tokens_spec(text@, 0),
    {
        let tv = chars_of(text.as_str());
        let mut r: Vec<String> = Vec::new();
        let mut i: usize = 0;
        proof {
            assert(str_views(r@) + find_tokens_spec(tv@, 0) =~= find_tokens_spec(tv@, 0));
        }
        while i < tv.len()
            invariant
                tv@ == text@,
                i <= tv@.len(),
                find_tokens_spec(tv@, 0) == str_views(r@) + find_tokens_spec(tv@, i as int),
            decreases tv@.len() - i,
        {
            let ghost i0 = i as int;
            let ghost r0 = r@;
            let mut stepped = false;
            if i + 1 < tv.len() && tv[i] == '$' && tv[i + 1] == '{' {
                let mut j = i + 2;
                while j < tv.len() && is_name_char(tv[j])
                    invariant
                        i0 + 2 <= j <= tv@.len(),
                        name_end(tv@, i0 + 2) == name_end(tv@, j as int),
                    decreases tv@.len() - j,
                {
                    j = j + 1;
                }
                proof {
                    assert(j as int == name_end(tv@, i0 + 2));
                }
                if j < tv.len() && tv[j] == '}' && j > i + 2 {
                    let name = sub_vec(&tv, i + 2, j);
                    r.push(string_of(&name));
                    i = j + 1;
                    stepped = true;
                    proof {
                        let w = tv@.subrange(i0 + 2, j as int);
                        assert(find_tokens_spec(tv@, i0) == seq![w] + find_tokens_spec(
                            tv@,
                            i as int,
                        ));
                        assert(str_views(r@) =~= str_views(r0) + seq![w]);
                        assert(str_views(r0) + (seq![w] + find_tokens_spec(tv@, i as int)) =~= (
                        str_views(r0) + seq![w]) + find_tokens_spec(tv@, i as int));
                    }
                }
            }
            if !stepped {
                i = i + 1;
            }
        }
        r
    }

    /// Substitutes every `${NAME}` token of `template` with the matching
    /// variable's value, tokens in leftmost order; fails on the first token
    /// whose variable is missing.
    pub fn replace(template: &String, vars: &Vec<(String, String)>) -> (r: Result<
        String,
        AnonymizeError,
    >)
        ensures
            ({
                let spec_r = replace_tokens_spec(
                    template@,
                    find_tokens_spec(template@, 0),
                    0,
                    vars_view(vars@),
                );
                match r {
                    Ok(out) => spec_r == Some(out@),
                    Err(e) => spec_r is None && e == AnonymizeError::Config,
                }
            }),
    {
        let ghost tokens = find_tokens_spec(template@, 0);
        let ghost vv = vars_view(vars@);
        let token_list = Self::find_tokens(template);
        let mut cur = chars_of(template.as_str());
        let mut k: usize = 0;
        while k < token_list.len()
            invariant
                tokens == find_tokens_spec(template@, 0),
                str_views(token_list@) == tokens,
                tokens.len() == token_list@.len(),
                vv == vars_view(vars@),
                vv.len() == vars@.len(),
                k <= tokens.len(),
                replace_tokens_spec(template@, tokens, 0, vv) == replace_tokens_spec(
                    cur@,
                    tokens,
                    k as int,
                    vv,
                ),
            decreases tokens.len() - k,
        {
            let name = &token_list[k];
            let mut value: Option<&String> = None;
            let mut j: usize = 0;
            while j < vars.len()
                invariant
                    vv == vars_view(vars@),
                    vv.len() == vars@.len(),
                    j <= vars@.len(),
                    k < token_list@.len(),
                    name@ == token_list@[k as int]@,
                    match value {
                        Some(v) => var_get(vv, name@) == Some(v@),
                        None => forall|t: int| 0 <= t < j ==> vv[t].0 != name@,
                    },
                    value is Some ==> j == vars@.len(),
                decreases vars@.len() - j,
            {
                proof {
                    assert(vv[j as int] == (vars@[j as int].0@, vars@[j as int].1@));
                }
                if vars[j].0 == *name {
                    proof {
                        lemma_var_get_first(vv, name@, j as int);
                    }
                    value = Some(&vars[j].1);
                    j = vars.len();
                } else {
                    j = j + 1;
                }
            }
            match value {
                Some(v) => {
                    let mut pat: Vec<char> = Vec::new();
                    pat.push('$');
                    pat.push('{');
                    let name_chars = chars_of(name.as_str());
                    append_all(&mut pat, &name_chars);
                    pat.push('}');
                    proof {
                        assert(pat@ =~= token_pattern(name@));
                        assert(tokens[k as int] == name@);
                    }
                    let rep = chars_of(v.as_str());
                    cur = replace_all_chars(&cur, &pat, &rep);
                    k = k + 1;
                },
                None => {
                    proof {
                        lemma_var_get_none(vv, name@);
                        assert(tokens[k as int] == name@);
                        assert(replace_tokens_spec(cur@, tokens, k as int, vv) is None);
                    }
                    return Err(AnonymizeError::Config);
                },
            }
        }
        Ok(string_of(&cur))
    }
}

/// Whether `c` may appear in a `${NAME}` token name.
fn is_name_char(c: char) -> (r: bool)
    ensures
        r == name_char(c),
{
    ('a' <= c && c <= 'z') || ('A' <= c && c <= 'Z') || ('0' <= c && c <= '9') || c == '_' || c
        == '-'
}

} // verus!
