//! Deciding whether a line is a hit: keyword sets, regular expressions, JSON fields.
use vstd::prelude::*;

use crate::analysis::string_views;
use crate::json::{json_field, json_field_of, JsonField, JsonFieldModel};
use crate::text::{chars_of, contains_chars, has_substring};

verus! {

/// A test on lines of text.
pub trait LineMatcher {
    /// The lines that the matcher accepts.
    spec fn accepts(&self, line: Seq<char>) -> bool;

    /// Whether the matcher accepts `line`.
    fn is_match(&self, line: &str) -> (b: bool)
        ensures
            b == self.accepts(line@),
    ;
}

#[verifier::external_type_specification]
#[verifier::external_body]
pub struct ExAhoCorasick(aho_corasick::AhoCorasick);

#[verifier::external_type_specification]
#[verifier::external_body]
pub struct ExBuildError(aho_corasick::BuildError);

/// Some keyword of `keywords` occurs in `line`.
pub open spec fn any_keyword(keywords: Seq<Seq<char>>, line: Seq<char>) -> bool {
    exists|k: int| 0 <= k < keywords.len() && has_substring(line, #[trigger] keywords[k])
}

/// Why a matcher could not be built.
#[derive(Debug, Clone, Copy, PartialEq, Eq, Structural)]
pub enum MatcherError {
    /// The keyword automaton exceeds the limits of `aho-corasick`.
    Keywords,
    /// The pattern is not a regular expression that `regex` accepts.
    Pattern,
}

/// Multi-keyword search over lines, with an Aho-Corasick automaton.
pub struct SearchEngine {
    matcher: aho_corasick::AhoCorasick,
    patterns: Vec<String>,
}

/// Whether `AhoCorasick::new` (default settings) builds an automaton for the keywords
/// `patterns`; it fails only where the automaton would exceed the crate's size limits, which
/// depends on the keywords alone.
pub uninterp spec fn automaton_builds(patterns: Seq<Seq<char>>) -> bool;

/// Builds the automaton with `AhoCorasick::new` (standard match semantics) for `patterns`;
/// whether it succeeds is named by [`automaton_builds`].
#[verifier::external_body]
fn build_automaton(patterns: &[String]) -> (r: Result<aho_corasick::AhoCorasick, aho_corasick::BuildError>)
    ensures
        r is Ok <==> automaton_builds(string_views(patterns@)),
{
    aho_corasick::AhoCorasick::new(patterns)
}

/// Runs `AhoCorasick::is_match` of the engine's automaton on `line`. Built with standard
/// semantics from `patterns`, the automaton matches exactly where one of the patterns occurs
/// in the line (a byte-wise occurrence of UTF-8 text is a character-wise one).
#[verifier::external_body]
fn automaton_matches(engine: &SearchEngine, line: &str) -> (b: bool)
    ensures
        b == any_keyword(string_views(engine.patterns@), line@),
{
    engine.matcher.is_match(line)
}

impl SearchEngine {
    /// The keywords searched for.
    pub closed spec fn keywords(self) -> Seq<Seq<char>> {
        string_views(self.patterns@)
    }

    /// An engine for the keywords `patterns`; building the automaton fails where
    /// `aho-corasick` refuses the keyword set as too large.
    pub fn new(patterns: &[String]) -> (r: Result<SearchEngine, MatcherError>)
        ensures
            r is Ok <==> automaton_builds(string_views(patterns@)),
            r matches Ok(e) ==> e.keywords() == string_views(patterns@),
            r matches Err(e) ==> e == MatcherError::Keywords,
    {
        match build_automaton(patterns) {
            Ok(matcher) => {
                let mut kept: Vec<String> = Vec::new();
                let mut i: usize = 0;
                while i < patterns.len()
                    invariant
                        i <= patterns@.len(),
                        string_views(kept@) == string_views(patterns@.take(i as int)),
                    decreases patterns@.len() - i,
                {
                    let ghost before = string_views(kept@);
                    let p = patterns[i].clone();
                    kept.push(p);
                    proof {
                        assert(string_views(kept@) =~= before.push(patterns@[i as int]@));
                        assert(string_views(patterns@.take(i + 1)) =~= string_views(
                            patterns@.take(i as int),
                        ).push(patterns@[i as int]@));
                    }
                    i = i + 1;
                }
                assert(patterns@.take(patterns@.len() as int) == patterns@);
                Ok(SearchEngine { matcher, patterns: kept })
            },
            Err(_) => Err(MatcherError::Keywords),
        }
    }

    /// Whether some keyword occurs in `line`.
    pub fn is_match(&self, line: &str) -> (b: bool)
        ensures
            b == any_keyword(self.keywords(), line@),
    {
        automaton_matches(self, line)
    }
}

impl LineMatcher for SearchEngine {
    open spec fn accepts(&self, line: Seq<char>) -> bool {
        any_keyword(self.keywords(), line)
    }

    fn is_match(&self, line: &str) -> (b: bool) {
        automaton_matches(self, line)
    }
}

#[verifier::external_type_specification]
#[verifier::external_body]
pub struct ExRegex(regex::Regex);

#[verifier::external_type_specification]
#[verifier::external_body]
pub struct ExRegexError(regex::Error);

/// Whether `regex::Regex::new` accepts `pattern`.
pub uninterp spec fn regex_compiles(pattern: Seq<char>) -> bool;

/// Whether the regular expression `pattern` matches somewhere in `text`, as
/// `regex::Regex::is_match` decides.
pub uninterp spec fn regex_is_match(pattern: Seq<char>, text: Seq<char>) -> bool;

/// Compiles `pattern` with `regex::Regex::new`; whether it succeeds is named by
/// [`regex_compiles`].
#[verifier::external_body]
fn compile_regex(pattern: &str) -> (r: Result<regex::Regex, regex::Error>)
    ensures
        r is Ok <==> regex_compiles(pattern@),
{
    regex::Regex::new(pattern)
}

/// A regular expression over lines.
pub struct RegexMatcher {
    re: regex::Regex,
    pattern: String,
}

/// Runs `regex::Regex::is_match` of the matcher's expression, compiled from its pattern, on
/// `text`; the result is named by [`regex_is_match`].
#[verifier::external_body]
fn regex_matches(m: &RegexMatcher, text: &str) -> (b: bool)
    ensures
        b == regex_is_match(m.pattern@, text@),
{
    m.re.is_match(text)
}

impl RegexMatcher {
    /// The pattern of the expression.
    pub closed spec fn pattern(self) -> Seq<char> {
        self.pattern@
    }

    /// Compiles `pattern`; it fails where `regex` refuses the pattern.
    pub fn new(pattern: &str) -> (r: Result<RegexMatcher, MatcherError>)
        ensures
            r is Ok <==> regex_compiles(pattern@),
            r matches Ok(m) ==> m.pattern() == pattern@,
            r matches Err(e) ==> e == MatcherError::Pattern,
    {
        match compile_regex(pattern) {
            Ok(re) => {
                let cs = chars_of(pattern);
                Ok(RegexMatcher { re, pattern: crate::text::string_from_chars(cs.as_slice()) })
            },
            Err(_) => Err(MatcherError::Pattern),
        }
    }
}

impl LineMatcher for RegexMatcher {
    open spec fn accepts(&self, line: Seq<char>) -> bool {
        regex_is_match(self.pattern(), line)
    }

    fn is_match(&self, line: &str) -> (b: bool) {
        regex_matches(self, line)
    }
}

/// The text of `b` as `bool`'s `Display` writes it.
pub open spec fn bool_text(b: bool) -> Seq<char> {
    if b {
        seq!['t', 'r', 'u', 'e']
    } else {
        seq!['f', 'a', 'l', 's', 'e']
    }
}

/// Whether a looked-up JSON value equals `value`: a string by its content, a number and a
/// boolean by their text; anything else never does.
pub open spec fn field_equals(f: JsonFieldModel, value: Seq<char>) -> bool {
    match f {
        JsonFieldModel::Text(s) => s == value,
        JsonFieldModel::Number(s) => s == value,
        JsonFieldModel::Bool(b) => bool_text(b) == value,
        _ => false,
    }
}

fn same_chars(a: &[char], b: &[char]) -> (r: bool)
    ensures
        r == (a@ == b@),
{
    if a.len() != b.len() {
        return false;
    }
    let mut i: usize = 0;
    while i < a.len()
        invariant
            a@.len() == b@.len(),
            i <= a@.len(),
            forall|j: int| 0 <= j < i ==> a@[j] == b@[j],
        decreases a@.len() - i,
    {
        if a[i] != b[i] {
            return false;
        }
        i = i + 1;
    }
    assert(a@ =~= b@);
    true
}

/// A looked-up JSON value equals a searched text exactly as its text reads: a string by its
/// content, a number by its JSON notation, a boolean when the text is `true` for `true` and
/// `false` for `false` (so `true` and `false` are never both matched); objects, arrays, `null`,
/// a missing key and a line that is not JSON never match.
pub proof fn law_field_equals(f: JsonFieldModel, v: Seq<char>)
    ensures
        field_equals(f, v) <==> match f {
            JsonFieldModel::Text(s) => v == s,
            JsonFieldModel::Number(s) => v == s,
            JsonFieldModel::Bool(b) => if b {
                v == seq!['t', 'r', 'u', 'e']
            } else {
                v == seq!['f', 'a', 'l', 's', 'e']
            },
            _ => false,
        },
        !(field_equals(f, seq!['t', 'r', 'u', 'e']) && field_equals(f, seq!['f', 'a', 'l', 's', 'e'])),
{
}

/// Whether the looked-up field `f` equals `value`.
pub fn field_matches(f: &JsonField, value: &[char]) -> (r: bool)
    ensures
        r == field_equals(f.model(), value@),
        f.model() matches JsonFieldModel::Bool(b) ==> (r <==> value@ == if b {
            seq!['t', 'r', 'u', 'e']
        } else {
            seq!['f', 'a', 'l', 's', 'e']
        }),
        f.model() matches JsonFieldModel::Text(s) ==> (r <==> value@ == s),
        f.model() matches JsonFieldModel::Number(s) ==> (r <==> value@ == s),
        !(f.model() is Text || f.model() is Number || f.model() is Bool) ==> !r,
{
    match f {
        JsonField::Text(s) => {
            let cs = chars_of(s.as_str());
            same_chars(cs.as_slice(), value)
        },
        JsonField::Number(s) => {
            let cs = chars_of(s.as_str());
            same_chars(cs.as_slice(), value)
        },
        JsonField::Bool(b) => {
            let t = if *b {
                vec!['t', 'r', 'u', 'e']
            } else {
                vec!['f', 'a', 'l', 's', 'e']
            };
            same_chars(t.as_slice(), value)
        },
        _ => false,
    }
}

/// Matches JSON lines whose value under a key equals a given text.
pub struct JsonFieldMatcher {
    key: String,
    value: Vec<char>,
}

impl JsonFieldMatcher {
    pub closed spec fn key(self) -> Seq<char> {
        self.key@
    }

    pub closed spec fn value(self) -> Seq<char> {
        self.value@
    }

    /// A matcher for lines whose value under `key` equals `value`.
    pub fn new(key: String, value: &str) -> (m: JsonFieldMatcher)
        ensures
            m.key() == key@,
            m.value() == value@,
    {
        JsonFieldMatcher { key, value: chars_of(value) }
    }
}

impl LineMatcher for JsonFieldMatcher {
    open spec fn accepts(&self, line: Seq<char>) -> bool {
        field_equals(json_field_of(line, self.key()), self.value())
    }

    fn is_match(&self, line: &str) -> (b: bool) {
        let f = json_field(line, self.key.as_str());
        field_matches(&f, self.value.as_slice())
    }
}

/// Matches JSON lines whose value under a key is a string equal to a given text; lines that
/// are not JSON, and values of other kinds, never match.
pub struct JsonStringMatcher {
    key: String,
    value: Vec<char>,
}

impl JsonStringMatcher {
    pub closed spec fn key(self) -> Seq<char> {
        self.key@
    }

    pub closed spec fn value(self) -> Seq<char> {
        self.value@
    }

    /// A matcher for lines whose value under `key` is the string `value`.
    pub fn new(key: String, value: &str) -> (m: JsonStringMatcher)
        ensures
            m.key() == key@,
            m.value() == value@,
    {
        JsonStringMatcher { key, value: chars_of(value) }
    }
}

impl LineMatcher for JsonStringMatcher {
    open spec fn accepts(&self, line: Seq<char>) -> bool {
        json_field_of(line, self.key()) matches JsonFieldModel::Text(s) && s == self.value()
    }

    /// Only a string value equal to the text matches: a boolean, a number or any other value
    /// never does, whatever its text.
    fn is_match(&self, line: &str) -> (b: bool)
        ensures
            b <==> (json_field_of(line@, self.key()) matches JsonFieldModel::Text(s) && s
                == self.value()),
    {
        let f = json_field(line, self.key.as_str());
        match f {
            JsonField::Text(s) => {
                let cs = chars_of(s.as_str());
                same_chars(cs.as_slice(), self.value.as_slice())
            },
            _ => false,
        }
    }
}

/// The string matcher accepts a line exactly when the value under its key is a JSON string
/// equal to its text; a value of any other kind (a boolean, a number, ...) is never accepted,
/// even where its text equals the searched one.
pub proof fn law_string_matcher_only_strings(m: JsonStringMatcher, line: Seq<char>)
    ensures
        m.accepts(line) <==> (json_field_of(line, m.key()) matches JsonFieldModel::Text(s) && s
            == m.value()),
        !(json_field_of(line, m.key()) is Text) ==> !m.accepts(line),
{
}

/// Matches lines that contain one keyword, as `str::contains` decides.
pub struct KeywordFilter {
    keyword: Vec<char>,
}

impl KeywordFilter {
    pub closed spec fn keyword(self) -> Seq<char> {
        self.keyword@
    }

    pub fn new(keyword: &str) -> (f: KeywordFilter)
        ensures
            f.keyword() == keyword@,
    {
        KeywordFilter { keyword: chars_of(keyword) }
    }
}

impl LineMatcher for KeywordFilter {
    open spec fn accepts(&self, line: Seq<char>) -> bool {
        has_substring(line, self.keyword())
    }

    fn is_match(&self, line: &str) -> (b: bool) {
        let cs = chars_of(line);
        contains_chars(cs.as_slice(), self.keyword.as_slice())
    }
}

} // verus!
