//! Line-by-line searches over a file: the decisions taken for each line read.
//!
//! A search reads the lines of a file in order and hands each one to its [`LineScan`], which
//! says whether the line is a hit and when the search is over. Reading the file, reporting
//! the hits and reporting progress from time to time are left to the caller.
use vstd::prelude::*;

use crate::index::{first_char, lemma_first_char, split_on};
use crate::matcher::{JsonFieldMatcher, JsonStringMatcher, LineMatcher, MatcherError, RegexMatcher};
use crate::text::{chars_of, string_from_chars, trim, trim_chars};

verus! {

/// A line that a search reports: the file, the line's number (from 1), the byte offset
/// where it starts and its text.
#[derive(Debug, Clone)]
pub struct SearchHit {
    pub file: String,
    pub line: u64,
    pub offset: u64,
    pub text: String,
}

/// Totals of a search: the lines read and the hits.
#[derive(Debug, Clone, Copy)]
pub struct SearchStats {
    pub total_lines: u64,
    pub matched_lines: u64,
    pub elapsed_ms: u128,
}

/// How far a search got: bytes accounted for, bytes of the file, hits so far.
#[derive(Debug, Clone, Copy)]
pub struct SearchProgress {
    pub read_bytes: u64,
    pub total_bytes: u64,
    pub matched: usize,
}

/// Progress of a regular-expression search.
pub type RegexSearchProgress = SearchProgress;

/// Progress of a JSON Lines search.
pub type JsonlProgress = SearchProgress;

/// The state of a line-by-line search.
pub struct LineScan<M> {
    matcher: M,
    path: String,
    limit: usize,
    lines: u64,
    offset: u64,
    count: usize,
    done: bool,
}

/// The model of a [`LineScan`]'s counters.
pub struct ScanModel {
    pub lines: u64,
    pub offset: u64,
    pub count: nat,
    pub done: bool,
}

/// The number of bytes of `s` in UTF-8, as `str::len` gives it.
pub open spec fn utf8_len(s: &str) -> nat {
    s.len() as nat
}

impl<M: LineMatcher> LineScan<M> {
    pub closed spec fn model(self) -> ScanModel {
        ScanModel { lines: self.lines, offset: self.offset, count: self.count as nat, done: self.done }
    }

    pub closed spec fn test(self) -> M {
        self.matcher
    }

    pub closed spec fn file(self) -> Seq<char> {
        self.path@
    }

    pub closed spec fn max_hits(self) -> nat {
        self.limit as nat
    }

    /// The hits stay within the limit (`0`: no limit), and the search is over exactly when
    /// the limit is reached.
    pub open spec fn well_formed(self) -> bool {
        &&& self.max_hits() == 0 || self.model().count <= self.max_hits()
        &&& self.model().done <==> (self.max_hits() > 0 && self.model().count
            == self.max_hits())
        &&& self.model().count <= self.model().lines
    }

    /// A search of the file at `path` for the lines that `matcher` accepts, reporting at most
    /// `limit` of them (`0`: no limit).
    pub fn new(matcher: M, path: String, limit: usize) -> (s: Self)
        ensures
            s.test() == matcher,
            s.file() == path@,
            s.max_hits() == limit,
            s.model() == (ScanModel { lines: 0, offset: 0, count: 0, done: false }),
            s.well_formed(),
    {
        LineScan { matcher, path, limit, lines: 0, offset: 0, count: 0, done: false }
    }

    /// Whether the limit of hits is reached.
    pub fn is_done(&self) -> (b: bool)
        ensures
            b == self.model().done,
    {
        self.done
    }

    /// The number of hits so far.
    pub fn matched(&self) -> (n: usize)
        ensures
            n == self.model().count,
    {
        self.count
    }

    /// Progress so far, for a file of `total_bytes` bytes.
    pub fn progress(&self, total_bytes: u64) -> (p: SearchProgress)
        ensures
            p.read_bytes == self.model().offset,
            p.total_bytes == total_bytes,
            p.matched == self.model().count,
    {
        SearchProgress { read_bytes: self.offset, total_bytes, matched: self.count }
    }

    /// Takes the next line of the file. A line that the matcher accepts is a hit, numbered
    /// from 1 and placed at the offset of the bytes before it, each earlier line counting its
    /// UTF-8 bytes and one for its line break; once the limit of hits is reached the search is
    /// over, and the line that reached it is not added to the offset.
    pub fn feed(&mut self, line: &str) -> (hit: Option<SearchHit>)
        requires
            old(self).well_formed(),
            !old(self).model().done,
            old(self).model().lines < u64::MAX,
            old(self).model().count < usize::MAX,
            old(self).model().offset + utf8_len(line) + 1 <= u64::MAX,
        ensures
            final(self).well_formed(),
            final(self).test() == old(self).test(),
            final(self).file() == old(self).file(),
            final(self).max_hits() == old(self).max_hits(),
            final(self).model().lines == old(self).model().lines + 1,
            match hit {
                Some(h) => {
                    &&& old(self).test().accepts(line@)
                    &&& h.file@ == old(self).file()
                    &&& h.line == old(self).model().lines + 1
                    &&& h.offset == old(self).model().offset
                    &&& h.text@ == line@
                    &&& final(self).model().count == old(self).model().count + 1
                    &&& final(self).model().offset == if final(self).model().done {
                        old(self).model().offset
                    } else {
                        (old(self).model().offset + utf8_len(line) + 1) as u64
                    }
                },
                None => {
                    &&& !old(self).test().accepts(line@)
                    &&& final(self).model().count == old(self).model().count
                    &&& final(self).model().offset == old(self).model().offset + utf8_len(line)
                        + 1
                    &&& !final(self).model().done
                },
            },
    {
        let size = line.len() as u64 + 1;
        let line_number = self.lines + 1;
        self.lines = line_number;
        if self.matcher.is_match(line) {
            let hit = SearchHit {
                file: self.path.clone(),
                line: line_number,
                offset: self.offset,
                text: line.to_owned(),
            };
            self.count = self.count + 1;
            if self.limit > 0 && self.count >= self.limit {
                self.done = true;
                return Some(hit);
            }
            self.offset = self.offset + size;
            Some(hit)
        } else {
            self.offset = self.offset + size;
            None
        }
    }
}

/// What a keyword search needs: the file, the keywords, the most hits (`0`: no limit).
#[derive(Debug, Clone)]
pub struct SearchOptions {
    pub path: String,
    pub keywords: Vec<String>,
    pub limit: usize,
}

/// What a regular-expression search needs.
#[derive(Debug, Clone)]
pub struct RegexSearchOptions {
    pub path: String,
    pub pattern: String,
    pub limit: usize,
}

/// What a JSON Lines search needs: lines whose value under `key` equals `value`.
#[derive(Debug, Clone)]
pub struct JsonlSearchOptions {
    pub path: String,
    pub key: String,
    pub value: String,
    pub limit: usize,
}

/// The trimmed pieces of `parts` that are not empty, in order.
pub open spec fn nonempty_trimmed(parts: Seq<Seq<char>>) -> Seq<Seq<char>>
    decreases parts.len(),
{
    if parts.len() == 0 {
        seq![]
    } else {
        let t = trim(parts[0]);
        let rest = nonempty_trimmed(parts.drop_first());
        if t.len() > 0 {
            seq![t] + rest
        } else {
            rest
        }
    }
}

/// The keywords of a comma-separated list: each piece trimmed, the empty ones left out.
pub open spec fn keyword_list_spec(text: Seq<char>) -> Seq<Seq<char>> {
    nonempty_trimmed(split_on(text, ','))
}

/// The trimmed pieces of `pieces`, in order, with the empty ones left out.
pub open spec fn kept_pieces(pieces: Seq<Seq<char>>) -> Seq<Seq<char>> {
    pieces.map_values(|p: Seq<char>| trim(p)).filter(|k: Seq<char>| k.len() > 0)
}

proof fn lemma_nonempty_trimmed(parts: Seq<Seq<char>>)
    ensures
        nonempty_trimmed(parts) == kept_pieces(parts),
    decreases parts.len(),
{
    if parts.len() > 0 {
        lemma_nonempty_trimmed(parts.drop_first());
        let f = |p: Seq<char>| trim(p);
        let pred = |k: Seq<char>| k.len() > 0;
        let head = seq![trim(parts[0])];
        assert(parts.map_values(f) =~= head + parts.drop_first().map_values(f));
        Seq::filter_distributes_over_add(head, parts.drop_first().map_values(f), pred);
        reveal_with_fuel(Seq::filter, 2);
        assert(head.drop_last() =~= Seq::<Seq<char>>::empty());
        if trim(parts[0]).len() > 0 {
            assert(head.filter(pred) =~= head);
        } else {
            assert(head.filter(pred) =~= Seq::<Seq<char>>::empty());
        }
    } else {
        assert(kept_pieces(parts) =~= Seq::<Seq<char>>::empty());
    }
}

/// The keywords of a comma-separated list are exactly its trimmed pieces that are not empty,
/// all of them and in order: each such piece is a keyword, each keyword is such a piece, and
/// there are as many keywords as such pieces.
pub proof fn law_keyword_list(text: Seq<char>)
    ensures
        keyword_list_spec(text) == split_on(text, ',').map_values(|p: Seq<char>| trim(p)).filter(
            |k: Seq<char>| k.len() > 0,
        ),
        forall|i: int|
            0 <= i < split_on(text, ',').len() && trim(#[trigger] split_on(text, ',')[i]).len() > 0
                ==> keyword_list_spec(text).contains(trim(split_on(text, ',')[i])),
        forall|k: int|
            0 <= k < keyword_list_spec(text).len() ==> (#[trigger] keyword_list_spec(text)[k]).len()
                > 0,
{
    let pieces = split_on(text, ',');
    lemma_nonempty_trimmed(pieces);
    let f = |p: Seq<char>| trim(p);
    let pred = |k: Seq<char>| k.len() > 0;
    let m = pieces.map_values(f);
    assert forall|i: int| 0 <= i < pieces.len() && trim(#[trigger] pieces[i]).len() > 0 implies m.filter(
        pred,
    ).contains(trim(pieces[i])) by {
        assert(m[i] == trim(pieces[i]));
        m.lemma_filter_contains(pred, i);
    }
    assert forall|k: int| 0 <= k < m.filter(pred).len() implies (#[trigger] m.filter(pred)[k]).len()
        > 0 by {
        m.lemma_filter_pred(pred, k);
    }
}

/// Splits a comma-separated list of keywords (`ERROR, WARN,FATAL`), trimming each one and
/// leaving out the empty ones.
pub fn keyword_list(text: &str) -> (v: Vec<String>)
    ensures
        crate::analysis::string_views(v@) == keyword_list_spec(text@),
        crate::analysis::string_views(v@) == split_on(text@, ',').map_values(
            |p: Seq<char>| trim(p),
        ).filter(|k: Seq<char>| k.len() > 0),
{
    let cs = chars_of(text);
    let n = cs.len();
    let mut out: Vec<String> = Vec::new();
    let mut start: usize = 0;
    let ghost all = cs@;
    proof {
        assert(all.skip(0) =~= all);
        assert(crate::analysis::string_views(out@) =~= Seq::<Seq<char>>::empty());
    }
    loop
        invariant
            start <= n == cs@.len(),
            all == cs@,
            all == text@,
            crate::analysis::string_views(out@) + nonempty_trimmed(split_on(all.skip(start as int), ','))
                == keyword_list_spec(all),
        decreases n - start,
    {
        let mut i: usize = start;
        while i < n && cs[i] != ','
            invariant
                start <= i <= n == cs@.len(),
                forall|j: int| start <= j < i ==> cs@[j] != ',',
            decreases n - i,
        {
            i = i + 1;
        }
        let ghost rest = all.skip(start as int);
        proof {
            assert forall|j: int| 0 <= j < i - start implies rest[j] != ',' by {
                assert(rest[j] == all[j + start]);
            }
            if i < n {
                assert(rest[i - start] == all[i as int]);
            }
            lemma_first_char(rest, ',', i - start);
        }
        let piece = crate::text::copy_range(cs.as_slice(), start, i);
        let t = trim_chars(piece.as_slice());
        let ghost before = crate::analysis::string_views(out@);
        if t.len() > 0 {
            out.push(string_from_chars(t.as_slice()));
        }
        proof {
            assert(piece@ == rest.take(i - start));
            assert(crate::analysis::string_views(out@) == before + if t@.len() > 0 {
                seq![t@]
            } else {
                seq![]
            });
        }
        if i == n {
            proof {
                assert(split_on(rest, ',') == seq![rest]);
                assert(rest == piece@);
                assert(seq![rest].drop_first() =~= Seq::<Seq<char>>::empty());
                assert(nonempty_trimmed(Seq::<Seq<char>>::empty()) == Seq::<Seq<char>>::empty());
                assert(crate::analysis::string_views(out@) =~= before + nonempty_trimmed(
                    split_on(rest, ','),
                ));
                law_keyword_list(text@);
            }
            return out;
        }
        proof {
            let after = rest.skip(i - start + 1);
            assert(after =~= all.skip(i + 1));
            assert(split_on(rest, ',') == seq![rest.take(i - start)] + split_on(after, ','));
            assert((seq![rest.take(i - start)] + split_on(after, ',')).drop_first() =~= split_on(
                after,
                ',',
            ));
            assert(crate::analysis::string_views(out@) + nonempty_trimmed(split_on(after, ','))
                =~= before + nonempty_trimmed(split_on(rest, ',')));
        }
        start = i + 1;
    }
}

/// Searches for lines that contain one of several keywords.
pub struct SearchEngine;

/// Searches for lines that a regular expression matches.
pub struct RegexSearchEngine;

/// Searches JSON Lines for a key's value.
pub struct JsonlEngine;

impl SearchEngine {
    /// The search that `options` describe; it fails where the keyword automaton cannot be
    /// built.
    pub fn start(options: &SearchOptions) -> (r: Result<LineScan<crate::matcher::SearchEngine>, MatcherError>)
        ensures
            r matches Ok(s) ==> s.well_formed() && s.file() == options.path@ && s.max_hits()
                == options.limit && s.test().keywords() == crate::analysis::string_views(
                options.keywords@,
            ) && s.model() == (ScanModel { lines: 0, offset: 0, count: 0, done: false }),
            r is Ok <==> crate::matcher::automaton_builds(
                crate::analysis::string_views(options.keywords@),
            ),
            r matches Err(e) ==> e == MatcherError::Keywords,
    {
        match crate::matcher::SearchEngine::new(options.keywords.as_slice()) {
            Ok(m) => Ok(LineScan::new(m, options.path.clone(), options.limit)),
            Err(e) => Err(e),
        }
    }
}

impl RegexSearchEngine {
    /// The search that `options` describe; it fails where the pattern does not compile.
    pub fn start(options: &RegexSearchOptions) -> (r: Result<LineScan<RegexMatcher>, MatcherError>)
        ensures
            r is Ok <==> crate::matcher::regex_compiles(options.pattern@),
            r matches Ok(s) ==> s.well_formed() && s.file() == options.path@ && s.max_hits()
                == options.limit && s.test().pattern() == options.pattern@ && s.model() == (
            ScanModel { lines: 0, offset: 0, count: 0, done: false }),
            r matches Err(e) ==> e == MatcherError::Pattern,
    {
        match RegexMatcher::new(options.pattern.as_str()) {
            Ok(m) => Ok(LineScan::new(m, options.path.clone(), options.limit)),
            Err(e) => Err(e),
        }
    }
}

impl JsonlEngine {
    /// The search that `options` describe.
    pub fn start(options: &JsonlSearchOptions) -> (s: LineScan<JsonFieldMatcher>)
        ensures
            s.well_formed(),
            s.file() == options.path@,
            s.max_hits() == options.limit,
            s.test().key() == options.key@,
            s.test().value() == options.value@,
            s.model() == (ScanModel { lines: 0, offset: 0, count: 0, done: false }),
    {
        LineScan::new(
            JsonFieldMatcher::new(options.key.clone(), options.value.as_str()),
            options.path.clone(),
            options.limit,
        )
    }
}

/// The most hits of the classic searches, which stop after the hit that brings the count to
/// the limit, so that a limit of `0` stops after the first hit.
pub open spec fn at_least_one(limit: usize) -> nat {
    if limit == 0 {
        1
    } else {
        limit as nat
    }
}

fn stop_limit(limit: usize) -> (l: usize)
    ensures
        l == at_least_one(limit),
{
    if limit == 0 {
        1
    } else {
        limit
    }
}

/// The classic text search: lines that contain `keyword` (found with an
/// Aho-Corasick automaton), stopping after `limit` hits, or after the first where `limit` is
/// `0`.
pub fn keyword_scan(path: String, keyword: String, limit: usize) -> (r: Result<
    LineScan<crate::matcher::SearchEngine>,
    MatcherError,
>)
    ensures
        r is Ok <==> crate::matcher::automaton_builds(seq![keyword@]),
        r matches Ok(s) ==> s.well_formed() && s.file() == path@ && s.max_hits() == at_least_one(
            limit,
        ) && s.test().keywords() == seq![keyword@] && s.model() == (ScanModel {
            lines: 0,
            offset: 0,
            count: 0,
            done: false,
        }),
        r matches Err(e) ==> e == MatcherError::Keywords,
{
    let ghost k = keyword@;
    let keywords = vec![keyword];
    assert(crate::analysis::string_views(keywords@) =~= seq![k]);
    match crate::matcher::SearchEngine::new(keywords.as_slice()) {
        Ok(m) => Ok(LineScan::new(m, path, stop_limit(limit))),
        Err(e) => Err(e),
    }
}

/// The classic regular-expression search, stopping after `limit` hits, or
/// after the first where `limit` is `0`; it fails where the pattern does not compile.
pub fn regex_scan(path: String, pattern: &str, limit: usize) -> (r: Result<
    LineScan<RegexMatcher>,
    MatcherError,
>)
    ensures
        r is Ok <==> crate::matcher::regex_compiles(pattern@),
        r matches Ok(s) ==> s.well_formed() && s.file() == path@ && s.max_hits() == at_least_one(
            limit,
        ) && s.test().pattern() == pattern@ && s.model() == (ScanModel {
            lines: 0,
            offset: 0,
            count: 0,
            done: false,
        }),
        r matches Err(e) ==> e == MatcherError::Pattern,
{
    match RegexMatcher::new(pattern) {
        Ok(m) => Ok(LineScan::new(m, path, stop_limit(limit))),
        Err(e) => Err(e),
    }
}

/// The classic JSON Lines search: lines whose value under `key` is the
/// string `value`, stopping after `limit` hits, or after the first where `limit` is `0`.
pub fn json_string_scan(path: String, key: String, value: &str, limit: usize) -> (s: LineScan<
    JsonStringMatcher,
>)
    ensures
        s.well_formed(),
        s.file() == path@,
        s.max_hits() == at_least_one(limit),
        s.test().key() == key@,
        s.test().value() == value@,
        s.model() == (ScanModel { lines: 0, offset: 0, count: 0, done: false }),
{
    LineScan::new(JsonStringMatcher::new(key, value), path, stop_limit(limit))
}

} // verus!
