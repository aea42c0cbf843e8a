//! The query language: `contains(text,"...")`, bare keywords, `AND`, `OR`, `NOT`.
use vstd::prelude::*;

use crate::query::{Expr, ExprModel, Query, QueryModel};
use crate::text::{
    char_vecs, chars_of, copy_range, ends_with_chars, eq_ignore_ascii_case, eq_ignore_case_chars,
    has_substring, ascii_lower,
    has_prefix, has_suffix, split_words, starts_with_chars, string_from_chars, trim, trim_chars,
    words,
};

verus! {

/// Why a query was refused.
#[derive(Debug, Clone, Copy, PartialEq, Eq)]
pub enum ParseError {
    /// The query holds no words.
    EmptyQuery,
    /// A part of the query is not a single word.
    InvalidExpression,
    /// `contains(` without the closing `)`.
    InvalidContains,
    /// `contains()` without exactly two arguments.
    ContainsArity,
    /// `contains()` whose first argument is not `text`.
    UnsupportedField,
    /// A `contains()` argument that is not a quoted string.
    UnquotedArgument,
}

/// The parser of the query language.
pub struct QueryParser;

pub open spec fn or_word() -> Seq<char> {
    seq!['O', 'R']
}

pub open spec fn and_word() -> Seq<char> {
    seq!['A', 'N', 'D']
}

pub open spec fn not_word() -> Seq<char> {
    seq!['N', 'O', 'T']
}

pub open spec fn contains_open() -> Seq<char> {
    seq!['c', 'o', 'n', 't', 'a', 'i', 'n', 's', '(']
}

pub open spec fn text_word() -> Seq<char> {
    seq!['t', 'e', 'x', 't']
}

/// Index of the first token equal to `w` up to ASCII case.
pub open spec fn first_word(toks: Seq<Seq<char>>, w: Seq<char>) -> Option<int>
    decreases toks.len(),
{
    if toks.len() == 0 {
        None
    } else if eq_ignore_ascii_case(toks[0], w) {
        Some(0)
    } else {
        match first_word(toks.drop_first(), w) {
            Some(p) => Some(p + 1),
            None => None,
        }
    }
}

pub proof fn lemma_first_word(toks: Seq<Seq<char>>, w: Seq<char>, i: int)
    requires
        0 <= i <= toks.len(),
        forall|j: int| 0 <= j < i ==> !eq_ignore_ascii_case(#[trigger] toks[j], w),
        i < toks.len() ==> eq_ignore_ascii_case(toks[i], w),
    ensures
        first_word(toks, w) == (if i < toks.len() { Some(i) } else { None::<int> }),
    decreases i,
{
    if i > 0 {
        assert forall|j: int| 0 <= j < i - 1 implies !eq_ignore_ascii_case(
            #[trigger] toks.drop_first()[j],
            w,
        ) by {
            assert(toks.drop_first()[j] == toks[j + 1]);
        }
        if i < toks.len() {
            assert(toks.drop_first()[i - 1] == toks[i]);
        }
        lemma_first_word(toks.drop_first(), w, i - 1);
        assert(!eq_ignore_ascii_case(toks[0], w));
    }
}

pub proof fn lemma_first_word_bounds(toks: Seq<Seq<char>>, w: Seq<char>)
    ensures
        first_word(toks, w) matches Some(p) ==> 0 <= p < toks.len(),
    decreases toks.len(),
{
    if toks.len() > 0 {
        lemma_first_word_bounds(toks.drop_first(), w);
    }
}

/// Index of the first `,` outside double quotes, `odd` telling whether a quote is open.
pub open spec fn separator_from(s: Seq<char>, odd: bool) -> Option<int>
    decreases s.len(),
{
    if s.len() == 0 {
        None
    } else if s[0] == '"' {
        match separator_from(s.drop_first(), !odd) {
            Some(p) => Some(p + 1),
            None => None,
        }
    } else if s[0] == ',' && !odd {
        Some(0)
    } else {
        match separator_from(s.drop_first(), odd) {
            Some(p) => Some(p + 1),
            None => None,
        }
    }
}

pub proof fn lemma_separator_bounds(s: Seq<char>, odd: bool)
    ensures
        separator_from(s, odd) matches Some(p) ==> 0 <= p < s.len(),
    decreases s.len(),
{
    if s.len() > 0 {
        lemma_separator_bounds(s.drop_first(), !odd);
        lemma_separator_bounds(s.drop_first(), odd);
    }
}

/// The arguments of `contains(...)`: `s` split at the commas outside double quotes,
/// each piece trimmed.
pub open spec fn split_args_spec(s: Seq<char>) -> Seq<Seq<char>>
    decreases s.len(),
{
    match separator_from(s, false) {
        Some(p) => {
            proof {
                lemma_separator_bounds(s, false);
            }
            seq![trim(s.take(p))] + split_args_spec(s.skip(p + 1))
        },
        None => seq![trim(s)],
    }
}

/// The content of a double-quoted argument.
pub open spec fn unquote_spec(s: Seq<char>) -> Result<Seq<char>, ParseError> {
    if s.len() >= 2 && s[0] == '"' && s.last() == '"' {
        Ok(s.subrange(1, s.len() - 1))
    } else {
        Err(ParseError::UnquotedArgument)
    }
}

/// The keyword of `contains(text, "keyword")`.
pub open spec fn parse_contains_spec(s: Seq<char>) -> Result<Seq<char>, ParseError> {
    if !(has_prefix(s, contains_open()) && has_suffix(s, seq![')'])) {
        Err(ParseError::InvalidContains)
    } else {
        let parts = split_args_spec(s.subrange(9, s.len() - 1));
        if parts.len() != 2 {
            Err(ParseError::ContainsArity)
        } else if trim(parts[0]) != text_word() {
            Err(ParseError::UnsupportedField)
        } else {
            unquote_spec(trim(parts[1]))
        }
    }
}

pub open spec fn parse_atom_spec(t: Seq<Seq<char>>) -> Result<ExprModel, ParseError> {
    if t.len() != 1 {
        Err(ParseError::InvalidExpression)
    } else if has_prefix(t[0], contains_open()) {
        match parse_contains_spec(t[0]) {
            Ok(k) => Ok(ExprModel::Contains(k)),
            Err(e) => Err(e),
        }
    } else {
        Ok(ExprModel::Contains(t[0]))
    }
}

pub open spec fn parse_not_spec(t: Seq<Seq<char>>) -> Result<ExprModel, ParseError> {
    if t.len() >= 2 && eq_ignore_ascii_case(t[0], not_word()) {
        match parse_atom_spec(t.drop_first()) {
            Ok(e) => Ok(ExprModel::Not(Box::new(e))),
            Err(e) => Err(e),
        }
    } else {
        parse_atom_spec(t)
    }
}

/// `AND` binds tighter than `OR`: the first `AND` splits the tokens into a `NOT`-expression on
/// its left and a further chain of `AND`s on its right.
pub open spec fn parse_and_spec(t: Seq<Seq<char>>) -> Result<ExprModel, ParseError>
    decreases t.len(),
{
    match first_word(t, and_word()) {
        Some(p) => {
            proof {
                lemma_first_word_bounds(t, and_word());
            }
            match parse_not_spec(t.take(p)) {
                Err(e) => Err(e),
                Ok(l) => match parse_and_spec(t.skip(p + 1)) {
                    Err(e) => Err(e),
                    Ok(r) => Ok(ExprModel::And(Box::new(l), Box::new(r))),
                },
            }
        },
        None => parse_not_spec(t),
    }
}

/// The first `OR` splits the tokens into an `AND`-expression on its left and a further chain
/// of `OR`s on its right.
pub open spec fn parse_or_spec(t: Seq<Seq<char>>) -> Result<ExprModel, ParseError>
    decreases t.len(),
{
    match first_word(t, or_word()) {
        Some(p) => {
            proof {
                lemma_first_word_bounds(t, or_word());
            }
            match parse_and_spec(t.take(p)) {
                Err(e) => Err(e),
                Ok(l) => match parse_or_spec(t.skip(p + 1)) {
                    Err(e) => Err(e),
                    Ok(r) => Ok(ExprModel::Or(Box::new(l), Box::new(r))),
                },
            }
        },
        None => parse_and_spec(t),
    }
}

/// The expression that the words of `s` spell.
pub open spec fn parse_simple_spec(s: Seq<char>) -> Result<ExprModel, ParseError> {
    if words(s).len() == 0 {
        Err(ParseError::EmptyQuery)
    } else {
        parse_or_spec(words(s))
    }
}

/// Index of the first `)` outside double quotes, `odd` telling whether a quote is open.
pub open spec fn close_from(s: Seq<char>, odd: bool) -> Option<int>
    decreases s.len(),
{
    if s.len() == 0 {
        None
    } else if s[0] == '"' {
        match close_from(s.drop_first(), !odd) {
            Some(p) => Some(p + 1),
            None => None,
        }
    } else if s[0] == ')' && !odd {
        Some(0)
    } else {
        match close_from(s.drop_first(), odd) {
            Some(p) => Some(p + 1),
            None => None,
        }
    }
}

/// `s` is one `contains(...)` call: it opens with `contains(`, and its first `)` outside
/// double quotes is its last character.
pub open spec fn single_call(s: Seq<char>) -> bool {
    has_prefix(s, contains_open()) && close_from(s, false) == Some(s.len() - 1)
}

/// The query that `input` spells, with the given limit: a single `contains(...)` call over the
/// whole (trimmed) input, which may hold white space, or else an expression of words.
pub open spec fn parse_query_spec(input: Seq<char>, limit: nat) -> Result<QueryModel, ParseError> {
    let t = trim(input);
    if single_call(t) {
        match parse_contains_spec(t) {
            Ok(k) => Ok(QueryModel { expr: ExprModel::Contains(k), limit }),
            Err(e) => Err(e),
        }
    } else {
        match parse_simple_spec(t) {
            Ok(e) => Ok(QueryModel { expr: e, limit }),
            Err(e) => Err(e),
        }
    }
}

/// A word read as a plain keyword: not empty, not a `contains(` call, and none of the
/// connectives `OR`, `AND`, `NOT` in any ASCII case.
pub open spec fn plain_word(w: Seq<char>) -> bool {
    &&& w.len() > 0
    &&& !has_prefix(w, contains_open())
    &&& !eq_ignore_ascii_case(w, or_word())
    &&& !eq_ignore_ascii_case(w, and_word())
    &&& !eq_ignore_ascii_case(w, not_word())
}

/// The words `ks[0] seps[0] ks[1] seps[1] ... ks[n-1]`.
pub open spec fn joined(ks: Seq<Seq<char>>, seps: Seq<Seq<char>>) -> Seq<Seq<char>>
    decreases ks.len(),
{
    if ks.len() <= 1 {
        ks
    } else {
        seq![ks[0], seps[0]] + joined(ks.drop_first(), seps.drop_first())
    }
}

proof fn lemma_single_word(k: Seq<char>)
    requires
        plain_word(k),
    ensures
        parse_or_spec(seq![k]) == Ok::<ExprModel, ParseError>(ExprModel::Contains(k)),
        parse_and_spec(seq![k]) == Ok::<ExprModel, ParseError>(ExprModel::Contains(k)),
        parse_not_spec(seq![k]) == Ok::<ExprModel, ParseError>(ExprModel::Contains(k)),
{
    let t = seq![k];
    assert(t[0] == k);
    lemma_first_word(t, or_word(), 1);
    lemma_first_word(t, and_word(), 1);
}

proof fn lemma_not_keyword_word(w: Seq<char>)
    requires
        eq_ignore_ascii_case(w, not_word()),
    ensures
        !eq_ignore_ascii_case(w, or_word()),
        !eq_ignore_ascii_case(w, and_word()),
{
    assert(ascii_lower(w[0]) == ascii_lower(not_word()[0]));
    assert(ascii_lower(not_word()[0]) != ascii_lower(and_word()[0]));
}

proof fn lemma_and_not_or(w: Seq<char>)
    requires
        eq_ignore_ascii_case(w, and_word()),
    ensures
        !eq_ignore_ascii_case(w, or_word()),
{
}

/// One step of an `OR` chain: a keyword, an `OR` word, and a chain that parses.
proof fn lemma_or_step(k: Seq<char>, sep: Seq<char>, rest: Seq<Seq<char>>)
    requires
        plain_word(k),
        eq_ignore_ascii_case(sep, or_word()),
        parse_or_spec(rest) is Ok,
    ensures
        parse_or_spec(seq![k, sep] + rest) == Ok::<ExprModel, ParseError>(
            ExprModel::Or(
                Box::new(ExprModel::Contains(k)),
                Box::new(parse_or_spec(rest)->Ok_0),
            ),
        ),
{
    let t = seq![k, sep] + rest;
    assert(t[0] == k && t[1] == sep);
    lemma_first_word(t, or_word(), 1);
    assert(t.take(1) =~= seq![k]);
    assert(t.skip(2) =~= rest);
    lemma_single_word(k);
}

/// One step of an `AND` chain: a keyword, an `AND` word, and a chain that parses.
proof fn lemma_and_step(k: Seq<char>, sep: Seq<char>, rest: Seq<Seq<char>>)
    requires
        plain_word(k),
        eq_ignore_ascii_case(sep, and_word()),
        parse_and_spec(rest) is Ok,
    ensures
        parse_and_spec(seq![k, sep] + rest) == Ok::<ExprModel, ParseError>(
            ExprModel::And(
                Box::new(ExprModel::Contains(k)),
                Box::new(parse_and_spec(rest)->Ok_0),
            ),
        ),
{
    let t = seq![k, sep] + rest;
    assert(t[0] == k && t[1] == sep);
    lemma_first_word(t, and_word(), 1);
    assert(t.take(1) =~= seq![k]);
    assert(t.skip(2) =~= rest);
    lemma_single_word(k);
}

/// Keywords joined by `OR` (in any ASCII case) parse to an expression that holds of a text
/// exactly when one of the keywords occurs in it.
#[verifier::spinoff_prover]
pub proof fn law_or_chain(ks: Seq<Seq<char>>, seps: Seq<Seq<char>>)
    requires
        ks.len() >= 1,
        seps.len() == ks.len() - 1,
        forall|i: int| 0 <= i < ks.len() ==> plain_word(#[trigger] ks[i]),
        forall|j: int| 0 <= j < seps.len() ==> eq_ignore_ascii_case(#[trigger] seps[j], or_word()),
    ensures
        parse_or_spec(joined(ks, seps)) is Ok,
        forall|text: Seq<char>|
            parse_or_spec(joined(ks, seps))->Ok_0.holds(text) <==> exists|i: int|
                0 <= i < ks.len() && has_substring(text, #[trigger] ks[i]),
    decreases ks.len(),
{
    let k0 = ks[0];
    assert(plain_word(k0));
    if ks.len() == 1 {
        lemma_single_word(k0);
        assert(joined(ks, seps) =~= seq![k0]);
        assert forall|text: Seq<char>| parse_or_spec(joined(ks, seps))->Ok_0.holds(text) <==> exists|i: int|
            0 <= i < ks.len() && has_substring(text, #[trigger] ks[i]) by {
            if has_substring(text, ks[0]) {
                assert(0 <= 0 < ks.len());
            }
        }
    } else {
        let ks1 = ks.drop_first();
        let seps1 = seps.drop_first();
        assert forall|i: int| 0 <= i < ks1.len() implies plain_word(#[trigger] ks1[i]) by {
            assert(ks1[i] == ks[i + 1]);
        }
        assert forall|j: int| 0 <= j < seps1.len() implies eq_ignore_ascii_case(
            #[trigger] seps1[j],
            or_word(),
        ) by {
            assert(seps1[j] == seps[j + 1]);
        }
        law_or_chain(ks1, seps1);
        let rest = joined(ks1, seps1);
        assert(eq_ignore_ascii_case(seps[0], or_word()));
        lemma_or_step(k0, seps[0], rest);
        assert(joined(ks, seps) == seq![k0, seps[0]] + rest);
        let r = parse_or_spec(rest)->Ok_0;
        let e = parse_or_spec(joined(ks, seps))->Ok_0;
        assert(e == ExprModel::Or(Box::new(ExprModel::Contains(k0)), Box::new(r)));
        assert forall|text: Seq<char>| parse_or_spec(joined(ks, seps))->Ok_0.holds(text) <==> exists|i: int|
            0 <= i < ks.len() && has_substring(text, #[trigger] ks[i]) by {
            assert(e.holds(text) == (ExprModel::Contains(k0).holds(text) || r.holds(text)));
            assert(ExprModel::Contains(k0).holds(text) == has_substring(text, k0));
            if r.holds(text) {
                let i = choose|i: int| 0 <= i < ks1.len() && has_substring(text, #[trigger] ks1[i]);
                assert(ks[i + 1] == ks1[i]);
            }
            if has_substring(text, k0) {
                assert(0 <= 0 < ks.len());
            }
            if exists|i: int| 0 <= i < ks.len() && has_substring(text, #[trigger] ks[i]) {
                let i = choose|i: int| 0 <= i < ks.len() && has_substring(text, #[trigger] ks[i]);
                if i > 0 {
                    assert(ks1[i - 1] == ks[i]);
                }
            }
        }
    }
}

proof fn lemma_and_chain_no_or(ks: Seq<Seq<char>>, seps: Seq<Seq<char>>, j: int)
    requires
        ks.len() >= 1,
        seps.len() == ks.len() - 1,
        forall|i: int| 0 <= i < ks.len() ==> plain_word(#[trigger] ks[i]),
        forall|i: int| 0 <= i < seps.len() ==> eq_ignore_ascii_case(#[trigger] seps[i], and_word()),
        0 <= j < joined(ks, seps).len(),
    ensures
        !eq_ignore_ascii_case(joined(ks, seps)[j], or_word()),
    decreases ks.len(),
{
    let t = joined(ks, seps);
    if ks.len() == 1 {
        assert(t == ks);
        assert(plain_word(ks[j]));
    } else {
        let ks1 = ks.drop_first();
        let seps1 = seps.drop_first();
        let rest = joined(ks1, seps1);
        assert(t == seq![ks[0], seps[0]] + rest);
        if j == 0 {
            assert(plain_word(ks[0]));
        } else if j == 1 {
            assert(eq_ignore_ascii_case(seps[0], and_word()));
            lemma_and_not_or(seps[0]);
        } else {
            assert forall|i: int| 0 <= i < ks1.len() implies plain_word(#[trigger] ks1[i]) by {
                assert(ks1[i] == ks[i + 1]);
            }
            assert forall|i: int| 0 <= i < seps1.len() implies eq_ignore_ascii_case(
                #[trigger] seps1[i],
                and_word(),
            ) by {
                assert(seps1[i] == seps[i + 1]);
            }
            lemma_and_chain_no_or(ks1, seps1, j - 2);
            assert(t[j] == rest[j - 2]);
        }
    }
}

/// Keywords joined by `AND` (in any ASCII case) parse to an expression that holds of a text
/// exactly when every keyword occurs in it; such a chain holds no `OR`, so it is the whole
/// query expression.
#[verifier::spinoff_prover]
pub proof fn law_and_chain(ks: Seq<Seq<char>>, seps: Seq<Seq<char>>)
    requires
        ks.len() >= 1,
        seps.len() == ks.len() - 1,
        forall|i: int| 0 <= i < ks.len() ==> plain_word(#[trigger] ks[i]),
        forall|j: int| 0 <= j < seps.len() ==> eq_ignore_ascii_case(#[trigger] seps[j], and_word()),
    ensures
        parse_or_spec(joined(ks, seps)) == parse_and_spec(joined(ks, seps)),
        parse_and_spec(joined(ks, seps)) is Ok,
        forall|text: Seq<char>|
            parse_and_spec(joined(ks, seps))->Ok_0.holds(text) <==> forall|i: int|
                0 <= i < ks.len() ==> has_substring(text, #[trigger] ks[i]),
    decreases ks.len(),
{
    let k0 = ks[0];
    assert(plain_word(k0));
    let t = joined(ks, seps);
    assert forall|j: int| 0 <= j < t.len() implies !eq_ignore_ascii_case(#[trigger] t[j], or_word()) by {
        lemma_and_chain_no_or(ks, seps, j);
    }
    lemma_first_word(t, or_word(), t.len() as int);
    if ks.len() == 1 {
        lemma_single_word(k0);
        assert(t =~= seq![k0]);
        assert forall|text: Seq<char>| parse_and_spec(t)->Ok_0.holds(text) <==> forall|i: int|
            0 <= i < ks.len() ==> has_substring(text, #[trigger] ks[i]) by {
            if has_substring(text, k0) {
                assert forall|i: int| 0 <= i < ks.len() implies has_substring(text, #[trigger] ks[i]) by {
                    assert(i == 0);
                }
            }
        }
    } else {
        let ks1 = ks.drop_first();
        let seps1 = seps.drop_first();
        assert forall|i: int| 0 <= i < ks1.len() implies plain_word(#[trigger] ks1[i]) by {
            assert(ks1[i] == ks[i + 1]);
        }
        assert forall|j: int| 0 <= j < seps1.len() implies eq_ignore_ascii_case(
            #[trigger] seps1[j],
            and_word(),
        ) by {
            assert(seps1[j] == seps[j + 1]);
        }
        law_and_chain(ks1, seps1);
        let rest = joined(ks1, seps1);
        assert(eq_ignore_ascii_case(seps[0], and_word()));
        lemma_and_step(k0, seps[0], rest);
        assert(t == seq![k0, seps[0]] + rest);
        let r = parse_and_spec(rest)->Ok_0;
        let e = parse_and_spec(t)->Ok_0;
        assert(e == ExprModel::And(Box::new(ExprModel::Contains(k0)), Box::new(r)));
        assert forall|text: Seq<char>| parse_and_spec(t)->Ok_0.holds(text) <==> forall|i: int|
            0 <= i < ks.len() ==> has_substring(text, #[trigger] ks[i]) by {
            assert(e.holds(text) == (ExprModel::Contains(k0).holds(text) && r.holds(text)));
            assert(ExprModel::Contains(k0).holds(text) == has_substring(text, k0));
            if r.holds(text) && has_substring(text, k0) {
                assert forall|i: int| 0 <= i < ks.len() implies has_substring(text, #[trigger] ks[i]) by {
                    if i > 0 {
                        assert(ks1[i - 1] == ks[i]);
                    }
                }
            }
            if forall|i: int| 0 <= i < ks.len() ==> has_substring(text, #[trigger] ks[i]) {
                assert(has_substring(text, ks[0]));
                assert forall|i: int| 0 <= i < ks1.len() implies has_substring(text, #[trigger] ks1[i]) by {
                    assert(ks1[i] == ks[i + 1]);
                    assert(has_substring(text, ks[i + 1]));
                }
            }
        }
    }
}

/// `NOT` (in any ASCII case) before a keyword parses to an expression that holds of a text
/// exactly when the keyword does not occur in it.
pub proof fn law_not_word(n: Seq<char>, k: Seq<char>)
    requires
        eq_ignore_ascii_case(n, not_word()),
        plain_word(k),
    ensures
        parse_or_spec(seq![n, k]) is Ok,
        forall|text: Seq<char>|
            parse_or_spec(seq![n, k])->Ok_0.holds(text) <==> !has_substring(text, k),
{
    let t = seq![n, k];
    assert(t[0] == n && t[1] == k);
    lemma_not_keyword_word(n);
    lemma_first_word(t, or_word(), 2);
    lemma_first_word(t, and_word(), 2);
    assert(t.drop_first() =~= seq![k]);
    lemma_single_word(k);
    let e = ExprModel::Not(Box::new(ExprModel::Contains(k)));
    assert(parse_not_spec(t) == Ok::<ExprModel, ParseError>(e));
    assert forall|text: Seq<char>| parse_or_spec(t)->Ok_0.holds(text) <==> !has_substring(text, k) by {
        assert(e.holds(text) == !ExprModel::Contains(k).holds(text));
        assert(ExprModel::Contains(k).holds(text) == has_substring(text, k));
    }
}

/// The model of a parse result.
pub open spec fn expr_result_model(r: Result<Expr, ParseError>) -> Result<ExprModel, ParseError> {
    match r {
        Ok(e) => Ok(e.model()),
        Err(e) => Err(e),
    }
}

pub open spec fn chars_result_model(r: Result<Vec<char>, ParseError>) -> Result<
    Seq<char>,
    ParseError,
> {
    match r {
        Ok(v) => Ok(v@),
        Err(e) => Err(e),
    }
}

pub open spec fn query_result_model(r: Result<Query, ParseError>) -> Result<
    QueryModel,
    ParseError,
> {
    match r {
        Ok(q) => Ok(q.model()),
        Err(e) => Err(e),
    }
}

/// Removes the surrounding double quotes of an argument.
pub fn unquote(s: &[char]) -> (r: Result<Vec<char>, ParseError>)
    ensures
        chars_result_model(r) == unquote_spec(s@),
{
    let n = s.len();
    if n >= 2 && s[0] == '"' && s[n - 1] == '"' {
        Ok(copy_range(s, 1, n - 1))
    } else {
        Err(ParseError::UnquotedArgument)
    }
}

/// Splits the arguments of `contains(...)` at the commas outside double quotes,
/// trimming each piece.
pub fn split_args(s: &[char]) -> (parts: Vec<Vec<char>>)
    ensures
        char_vecs(parts@) == split_args_spec(s@),
{
    let n = s.len();
    let mut parts: Vec<Vec<char>> = Vec::new();
    let mut start: usize = 0;
    let mut in_string = false;
    let mut i: usize = 0;
    assert(s@.skip(0) == s@);
    assert(char_vecs(parts@) =~= Seq::<Seq<char>>::empty());
    while i < n
        invariant
            start <= i <= n == s@.len(),
            char_vecs(parts@) + split_args_spec(s@.skip(start as int)) == split_args_spec(s@),
            separator_from(s@.skip(start as int), false) == (match separator_from(
                s@.skip(i as int),
                in_string,
            ) {
                Some(p) => Some(p + (i - start)),
                None => None::<int>,
            }),
        decreases n - i,
    {
        let c = s[i];
        let ghost rest = s@.skip(i as int);
        assert(rest[0] == c);
        assert(rest.drop_first() == s@.skip(i + 1));
        if c == '"' {
            in_string = !in_string;
            i = i + 1;
        } else if c == ',' && !in_string {
            let ghost seg = s@.skip(start as int);
            proof {
                lemma_separator_bounds(seg, false);
                assert(seg.take(i - start) == s@.subrange(start as int, i as int));
                assert(seg.skip(i - start + 1) == s@.skip(i + 1));
            }
            let piece = copy_range(s, start, i);
            let trimmed = trim_chars(piece.as_slice());
            let ghost before = char_vecs(parts@);
            parts.push(trimmed);
            proof {
                assert(char_vecs(parts@) =~= before.push(trimmed@));
                assert(split_args_spec(seg) == seq![trimmed@] + split_args_spec(s@.skip(i + 1)));
                assert(before.push(trimmed@) + split_args_spec(s@.skip(i + 1)) == before
                    + split_args_spec(seg));
            }
            i = i + 1;
            start = i;
        } else {
            i = i + 1;
        }
    }
    let ghost seg = s@.skip(start as int);
    assert(s@.skip(n as int).len() == 0);
    assert(seg == s@.subrange(start as int, n as int));
    let piece = copy_range(s, start, n);
    let trimmed = trim_chars(piece.as_slice());
    let ghost before = char_vecs(parts@);
    parts.push(trimmed);
    proof {
        assert(char_vecs(parts@) =~= before.push(trimmed@));
        assert(split_args_spec(seg) == seq![trimmed@]);
        assert(before.push(trimmed@) == before + split_args_spec(seg));
    }
    parts
}

/// Parses `contains(text, "keyword")` and returns the keyword.
pub fn parse_contains(s: &[char]) -> (r: Result<Vec<char>, ParseError>)
    ensures
        chars_result_model(r) == parse_contains_spec(s@),
{
    let open = vec!['c', 'o', 'n', 't', 'a', 'i', 'n', 's', '('];
    let close = vec![')'];
    assert(open@ == contains_open());
    assert(close@ == seq![')']);
    if !(starts_with_chars(s, open.as_slice()) && ends_with_chars(s, close.as_slice())) {
        return Err(ParseError::InvalidContains);
    }
    let n = s.len();
    if n == 9 {
        assert(s@.take(9) == s@);
        assert(s@[8] == '(');
        assert(s@.skip(8)[0] == s@[8]);
        assert(false);
    }
    let inner = copy_range(s, 9, n - 1);
    let parts = split_args(inner.as_slice());
    if parts.len() != 2 {
        return Err(ParseError::ContainsArity);
    }
    let field = trim_chars(parts[0].as_slice());
    let text = vec!['t', 'e', 'x', 't'];
    assert(text@ == text_word());
    assert(parts@[0]@ == char_vecs(parts@)[0]);
    assert(parts@[1]@ == char_vecs(parts@)[1]);
    if !(field.len() == 4 && field[0] == 't' && field[1] == 'e' && field[2] == 'x' && field[3]
        == 't') {
        proof {
            if field@ == text_word() {
                assert(field@[0] == 't');
            }
        }
        return Err(ParseError::UnsupportedField);
    }
    assert(field@ =~= text_word());
    let arg = trim_chars(parts[1].as_slice());
    unquote(arg.as_slice())
}

/// The keyword expression of a single word, or of `contains(...)`.
fn parse_atom(t: &[Vec<char>]) -> (r: Result<Expr, ParseError>)
    ensures
        expr_result_model(r) == parse_atom_spec(char_vecs(t@)),
{
    if t.len() != 1 {
        return Err(ParseError::InvalidExpression);
    }
    let token = &t[0];
    assert(token@ == char_vecs(t@)[0]);
    let open = vec!['c', 'o', 'n', 't', 'a', 'i', 'n', 's', '('];
    assert(open@ == contains_open());
    if starts_with_chars(token.as_slice(), open.as_slice()) {
        match parse_contains(token.as_slice()) {
            Ok(k) => Ok(Expr::Contains(string_from_chars(k.as_slice()))),
            Err(e) => Err(e),
        }
    } else {
        Ok(Expr::Contains(string_from_chars(token.as_slice())))
    }
}

fn parse_not(t: &[Vec<char>]) -> (r: Result<Expr, ParseError>)
    ensures
        expr_result_model(r) == parse_not_spec(char_vecs(t@)),
{
    let not = vec!['N', 'O', 'T'];
    assert(not@ == not_word());
    if t.len() >= 2 && eq_ignore_case_chars(t[0].as_slice(), not.as_slice()) {
        let rest = &t[1..t.len()];
        assert(char_vecs(rest@) =~= char_vecs(t@).drop_first());
        match parse_atom(rest) {
            Ok(e) => Ok(Expr::Not(Box::new(e))),
            Err(e) => Err(e),
        }
    } else {
        parse_atom(t)
    }
}

/// Index of the first token equal to `w` up to ASCII case.
fn find_word(t: &[Vec<char>], w: &[char]) -> (r: Option<usize>)
    ensures
        match r {
            Some(p) => first_word(char_vecs(t@), w@) == Some(p as int),
            None => first_word(char_vecs(t@), w@) is None,
        },
{
    let mut i: usize = 0;
    while i < t.len()
        invariant
            i <= t@.len(),
            forall|j: int| 0 <= j < i ==> !eq_ignore_ascii_case(#[trigger] char_vecs(t@)[j], w@),
        decreases t@.len() - i,
    {
        if eq_ignore_case_chars(t[i].as_slice(), w) {
            proof {
                lemma_first_word(char_vecs(t@), w@, i as int);
            }
            return Some(i);
        }
        i = i + 1;
    }
    proof {
        lemma_first_word(char_vecs(t@), w@, i as int);
    }
    None
}

fn parse_and(t: &[Vec<char>]) -> (r: Result<Expr, ParseError>)
    ensures
        expr_result_model(r) == parse_and_spec(char_vecs(t@)),
    decreases t@.len(),
{
    let and = vec!['A', 'N', 'D'];
    assert(and@ == and_word());
    match find_word(t, and.as_slice()) {
        Some(pos) => {
            let n = t.len();
            proof {
                lemma_first_word_bounds(char_vecs(t@), and_word());
                assert(first_word(char_vecs(t@), and_word()) == Some(pos as int));
                assert(char_vecs(t@).len() == t@.len());
                assert(pos < t@.len());
            }
            let left_toks = &t[0..pos];
            let right_toks = &t[pos + 1..n];
            assert(char_vecs(left_toks@) =~= char_vecs(t@).take(pos as int));
            assert(char_vecs(right_toks@) =~= char_vecs(t@).skip(pos + 1));
            let left = match parse_not(left_toks) {
                Ok(e) => e,
                Err(e) => return Err(e),
            };
            let right = match parse_and(right_toks) {
                Ok(e) => e,
                Err(e) => return Err(e),
            };
            Ok(Expr::And(Box::new(left), Box::new(right)))
        },
        None => parse_not(t),
    }
}

fn parse_or(t: &[Vec<char>]) -> (r: Result<Expr, ParseError>)
    ensures
        expr_result_model(r) == parse_or_spec(char_vecs(t@)),
    decreases t@.len(),
{
    let or = vec!['O', 'R'];
    assert(or@ == or_word());
    match find_word(t, or.as_slice()) {
        Some(pos) => {
            let n = t.len();
            proof {
                lemma_first_word_bounds(char_vecs(t@), or_word());
                assert(first_word(char_vecs(t@), or_word()) == Some(pos as int));
                assert(char_vecs(t@).len() == t@.len());
                assert(pos < t@.len());
            }
            let left_toks = &t[0..pos];
            let right_toks = &t[pos + 1..n];
            assert(char_vecs(left_toks@) =~= char_vecs(t@).take(pos as int));
            assert(char_vecs(right_toks@) =~= char_vecs(t@).skip(pos + 1));
            let left = match parse_and(left_toks) {
                Ok(e) => e,
                Err(e) => return Err(e),
            };
            let right = match parse_or(right_toks) {
                Ok(e) => e,
                Err(e) => return Err(e),
            };
            Ok(Expr::Or(Box::new(left), Box::new(right)))
        },
        None => parse_and(t),
    }
}

/// Index of the first `)` of `s` outside double quotes.
fn call_close(s: &[char]) -> (r: Option<usize>)
    ensures
        match r {
            Some(p) => close_from(s@, false) == Some(p as int),
            None => close_from(s@, false) is None,
        },
{
    let n = s.len();
    let mut i: usize = 0;
    let mut in_string = false;
    assert(s@.skip(0) =~= s@);
    while i < n
        invariant
            i <= n == s@.len(),
            close_from(s@, false) == match close_from(s@.skip(i as int), in_string) {
                Some(p) => Some(p + i),
                None => None::<int>,
            },
        decreases n - i,
    {
        let c = s[i];
        let ghost rest = s@.skip(i as int);
        assert(rest[0] == c);
        assert(rest.drop_first() =~= s@.skip(i + 1));
        if c == ')' && !in_string {
            return Some(i);
        }
        if c == '"' {
            in_string = !in_string;
        }
        i = i + 1;
    }
    assert(s@.skip(n as int) =~= Seq::<char>::empty());
    None
}

/// Parses the words of `s` as an expression.
fn parse_simple_expr(s: &[char]) -> (r: Result<Expr, ParseError>)
    ensures
        expr_result_model(r) == parse_simple_spec(s@),
{
    let tokens = split_words(s);
    if tokens.len() == 0 {
        return Err(ParseError::EmptyQuery);
    }
    parse_or(tokens.as_slice())
}

impl QueryParser {
    /// Parses a query. Surrounding white space is ignored; an input that is a single
    /// `contains(text,"k")` call is a keyword query; otherwise the words form an expression of
    /// `OR`s of `AND`s of parts (each optionally led by `NOT`; all up to ASCII case), and every
    /// part must be a single word (a keyword or `contains(...)`).
    pub fn parse(input: &str, limit: usize) -> (r: Result<Query, ParseError>)
        ensures
            query_result_model(r) == parse_query_spec(input@, limit as nat),
    {
        let all = chars_of(input);
        let t = trim_chars(all.as_slice());
        let open = vec!['c', 'o', 'n', 't', 'a', 'i', 'n', 's', '('];
        assert(open@ == contains_open());
        let spans = starts_with_chars(t.as_slice(), open.as_slice()) && match call_close(
            t.as_slice(),
        ) {
            Some(p) => t.len() > 0 && p == t.len() - 1,
            None => false,
        };
        if spans {
            return match parse_contains(t.as_slice()) {
                Ok(k) => Ok(Query::new(string_from_chars(k.as_slice()), limit)),
                Err(e) => Err(e),
            };
        }
        match parse_simple_expr(t.as_slice()) {
            Ok(e) => Ok(Query::from_expr(e, limit)),
            Err(e) => Err(e),
        }
    }
}

} // verus!
