//! Log files: counting lines by level, extracting lines, and generating sample logs.
use vstd::prelude::*;

use crate::text::{
    chars_of, contains_chars, decimal, digit_char, has_substring, lemma_decimal_digits,
    lemma_digit_char, occurs_at, push_chars, push_decimal, push_two_digits, string_from_chars,
    two_digits,
};

verus! {

/// The level that a log line is counted under.
#[derive(Debug, Clone, Copy, PartialEq, Eq, Structural)]
pub enum LogLevel {
    Error,
    Warn,
    Info,
    Other,
}

pub open spec fn error_word() -> Seq<char> {
    seq!['E', 'R', 'R', 'O', 'R']
}

pub open spec fn warn_word() -> Seq<char> {
    seq!['W', 'A', 'R', 'N']
}

pub open spec fn info_word() -> Seq<char> {
    seq!['I', 'N', 'F', 'O']
}

/// The level of a line: `ERROR` anywhere in it wins, then `WARN`, then `INFO`.
pub open spec fn level_of(line: Seq<char>) -> LogLevel {
    if has_substring(line, error_word()) {
        LogLevel::Error
    } else if has_substring(line, warn_word()) {
        LogLevel::Warn
    } else if has_substring(line, info_word()) {
        LogLevel::Info
    } else {
        LogLevel::Other
    }
}

/// The level of a line.
pub fn classify_line(line: &str) -> (l: LogLevel)
    ensures
        l == level_of(line@),
{
    let cs = chars_of(line);
    let e = vec!['E', 'R', 'R', 'O', 'R'];
    let w = vec!['W', 'A', 'R', 'N'];
    let i = vec!['I', 'N', 'F', 'O'];
    assert(e@ == error_word());
    assert(w@ == warn_word());
    assert(i@ == info_word());
    if contains_chars(cs.as_slice(), e.as_slice()) {
        LogLevel::Error
    } else if contains_chars(cs.as_slice(), w.as_slice()) {
        LogLevel::Warn
    } else if contains_chars(cs.as_slice(), i.as_slice()) {
        LogLevel::Info
    } else {
        LogLevel::Other
    }
}

/// Lines of a log counted by level.
#[derive(Debug, Clone, Copy)]
pub struct LogStats {
    pub total: u64,
    pub info: u64,
    pub warn: u64,
    pub error: u64,
    pub other: u64,
}

impl LogStats {
    /// Every line is counted under exactly one level.
    pub open spec fn consistent(self) -> bool {
        self.total == self.info + self.warn + self.error + self.other
    }

    /// No lines counted yet.
    pub fn new() -> (s: LogStats)
        ensures
            s.total == 0 && s.info == 0 && s.warn == 0 && s.error == 0 && s.other == 0,
            s.consistent(),
    {
        LogStats { total: 0, info: 0, warn: 0, error: 0, other: 0 }
    }

    /// Counts one more line under its level.
    pub fn record(&mut self, line: &str)
        requires
            old(self).consistent(),
            old(self).total < u64::MAX,
        ensures
            final(self).consistent(),
            final(self).total == old(self).total + 1,
            final(self).error == old(self).error + if level_of(line@) == LogLevel::Error {
                1int
            } else {
                0
            },
            final(self).warn == old(self).warn + if level_of(line@) == LogLevel::Warn {
                1int
            } else {
                0
            },
            final(self).info == old(self).info + if level_of(line@) == LogLevel::Info {
                1int
            } else {
                0
            },
            final(self).other == old(self).other + if level_of(line@) == LogLevel::Other {
                1int
            } else {
                0
            },
    {
        self.total = self.total + 1;
        match classify_line(line) {
            LogLevel::Error => self.error = self.error + 1,
            LogLevel::Warn => self.warn = self.warn + 1,
            LogLevel::Info => self.info = self.info + 1,
            LogLevel::Other => self.other = self.other + 1,
        }
    }
}

/// What an extraction needs: the file to read, the keyword, the file to write the lines to,
/// and the most lines (`0`: no limit).
#[derive(Debug, Clone)]
pub struct ExtractOptions {
    pub path: String,
    pub keyword: String,
    pub output: String,
    pub limit: usize,
}

/// Picks the lines that contain a keyword, up to a limit (`0`: no limit).
pub struct ExtractScan {
    keyword: Vec<char>,
    limit: usize,
    count: usize,
    done: bool,
}

impl ExtractScan {
    pub closed spec fn keyword(self) -> Seq<char> {
        self.keyword@
    }

    pub closed spec fn max_lines(self) -> nat {
        self.limit as nat
    }

    pub closed spec fn extracted(self) -> nat {
        self.count as nat
    }

    pub closed spec fn finished(self) -> bool {
        self.done
    }

    /// The count stays within the limit, and the scan is over exactly when it is reached.
    pub open spec fn well_formed(self) -> bool {
        &&& self.max_lines() == 0 || self.extracted() <= self.max_lines()
        &&& self.finished() <==> (self.max_lines() > 0 && self.extracted() == self.max_lines())
    }

    pub fn new(keyword: &str, limit: usize) -> (s: ExtractScan)
        ensures
            s.keyword() == keyword@,
            s.max_lines() == limit,
            s.extracted() == 0,
            !s.finished(),
            s.well_formed(),
    {
        ExtractScan { keyword: chars_of(keyword), limit, count: 0, done: false }
    }

    /// The scan that an extraction with `options` runs.
    pub fn from_options(options: &ExtractOptions) -> (s: ExtractScan)
        ensures
            s.keyword() == options.keyword@,
            s.max_lines() == options.limit,
            s.extracted() == 0,
            !s.finished(),
            s.well_formed(),
    {
        ExtractScan::new(options.keyword.as_str(), options.limit)
    }

    /// The number of lines extracted.
    pub fn count(&self) -> (n: usize)
        ensures
            n == self.extracted(),
    {
        self.count
    }

    pub fn is_done(&self) -> (b: bool)
        ensures
            b == self.finished(),
    {
        self.done
    }

    /// Whether `line` is extracted; the scan ends once the limit is reached.
    pub fn feed(&mut self, line: &str) -> (take: bool)
        requires
            old(self).well_formed(),
            !old(self).finished(),
            old(self).extracted() < usize::MAX,
        ensures
            final(self).well_formed(),
            final(self).keyword() == old(self).keyword(),
            final(self).max_lines() == old(self).max_lines(),
            take == has_substring(line@, old(self).keyword()),
            final(self).extracted() == old(self).extracted() + if take {
                1int
            } else {
                0
            },
    {
        let cs = chars_of(line);
        if contains_chars(cs.as_slice(), self.keyword.as_slice()) {
            self.count = self.count + 1;
            if self.limit > 0 && self.count >= self.limit {
                self.done = true;
            }
            true
        } else {
            false
        }
    }
}

/// The level word of the generated line `i`: every tenth line from the first is `ERROR`,
/// the one after it `WARN`, the others `INFO`.
pub open spec fn generated_level(i: u64) -> Seq<char> {
    if i % 10 == 0 {
        error_word()
    } else if i % 10 == 1 {
        warn_word()
    } else {
        info_word()
    }
}

/// The text before the minutes of a generated line.
pub open spec fn log_prefix() -> Seq<char> {
    seq!['2', '0', '2', '6', '-', '0', '7', '-', '0', '1', ' ', '1', '2', ':']
}

pub open spec fn user_text() -> Seq<char> {
    seq![' ', 'U', 's', 'e', 'r', '=']
}

pub open spec fn message_text() -> Seq<char> {
    seq![' ', 'M', 'e', 's', 's', 'a', 'g', 'e', ' ', 'n', 'u', 'm', 'b', 'e', 'r', ' ']
}

/// Line `i` (from 0) of a generated log:
/// `2026-07-01 12:MM:SS LEVEL User=U Message number i`.
pub open spec fn generated_line(i: u64) -> Seq<char> {
    log_prefix() + two_digits(((i / 60) % 60) as nat) + seq![':'] + two_digits((i % 60) as nat)
        + seq![' '] + generated_level(i) + user_text() + decimal((i % 1000) as nat)
        + message_text() + decimal(i as nat)
}

/// Line `i` (from 0) of a generated log.
pub fn log_line(i: u64) -> (s: String)
    ensures
        s@ == generated_line(i),
{
    let mut v: Vec<char> = Vec::new();
    let prefix = vec!['2', '0', '2', '6', '-', '0', '7', '-', '0', '1', ' ', '1', '2', ':'];
    push_chars(&mut v, prefix.as_slice());
    push_two_digits(&mut v, (i / 60) % 60);
    v.push(':');
    push_two_digits(&mut v, i % 60);
    v.push(' ');
    let level = if i % 10 == 0 {
        vec!['E', 'R', 'R', 'O', 'R']
    } else if i % 10 == 1 {
        vec!['W', 'A', 'R', 'N']
    } else {
        vec!['I', 'N', 'F', 'O']
    };
    assert(level@ == generated_level(i));
    push_chars(&mut v, level.as_slice());
    let user = vec![' ', 'U', 's', 'e', 'r', '='];
    push_chars(&mut v, user.as_slice());
    push_decimal(&mut v, i % 1000);
    let message = vec![' ', 'M', 'e', 's', 's', 'a', 'g', 'e', ' ', 'n', 'u', 'm', 'b', 'e', 'r', ' '];
    push_chars(&mut v, message.as_slice());
    push_decimal(&mut v, i);
    assert(v@ =~= generated_line(i));
    string_from_chars(v.as_slice())
}

/// No character of `s` begins one of the level words.
pub open spec fn free_of_level_starts(s: Seq<char>) -> bool {
    forall|k: int| 0 <= k < s.len() ==> #[trigger] s[k] != 'E' && s[k] != 'W' && s[k] != 'I'
}

proof fn lemma_free_concat(a: Seq<char>, b: Seq<char>)
    requires
        free_of_level_starts(a),
        free_of_level_starts(b),
    ensures
        free_of_level_starts(a + b),
{
    assert forall|k: int| 0 <= k < (a + b).len() implies #[trigger] (a + b)[k] != 'E' && (a
        + b)[k] != 'W' && (a + b)[k] != 'I' by {
        if k < a.len() {
            assert((a + b)[k] == a[k]);
        } else {
            assert((a + b)[k] == b[k - a.len()]);
        }
    }
}

proof fn lemma_free_decimal(n: nat)
    ensures
        free_of_level_starts(decimal(n)),
        free_of_level_starts(two_digits(n)),
{
    lemma_decimal_digits(n);
    if n < 10 {
        lemma_digit_char(n);
        let t = two_digits(n);
        assert forall|k: int| 0 <= k < t.len() implies #[trigger] t[k] != 'E' && t[k] != 'W'
            && t[k] != 'I' by {
            if k == 0 {
            } else {
                assert(t[k] == digit_char(n));
            }
        }
    }
}

proof fn lemma_free_literals()
    ensures
        free_of_level_starts(log_prefix()),
        free_of_level_starts(user_text()),
        free_of_level_starts(message_text()),
        free_of_level_starts(seq![':']),
        free_of_level_starts(seq![' ']),
{
}

/// Occurrences of the level words in a generated line.
proof fn lemma_word_in_generated(i: u64, w: Seq<char>)
    requires
        w == error_word() || w == warn_word() || w == info_word(),
    ensures
        has_substring(generated_line(i), w) <==> w == generated_level(i),
{
    let a = log_prefix() + two_digits(((i / 60) % 60) as nat) + seq![':'] + two_digits(
        (i % 60) as nat,
    ) + seq![' '];
    let l = generated_level(i);
    let b = user_text() + decimal((i % 1000) as nat) + message_text() + decimal(i as nat);
    let s = generated_line(i);
    assert(s =~= a + l + b);
    lemma_free_literals();
    lemma_free_decimal(((i / 60) % 60) as nat);
    lemma_free_decimal((i % 60) as nat);
    lemma_free_decimal((i % 1000) as nat);
    lemma_free_decimal(i as nat);
    lemma_free_concat(log_prefix(), two_digits(((i / 60) % 60) as nat));
    lemma_free_concat(log_prefix() + two_digits(((i / 60) % 60) as nat), seq![':']);
    lemma_free_concat(
        log_prefix() + two_digits(((i / 60) % 60) as nat) + seq![':'],
        two_digits((i % 60) as nat),
    );
    lemma_free_concat(
        log_prefix() + two_digits(((i / 60) % 60) as nat) + seq![':'] + two_digits(
            (i % 60) as nat,
        ),
        seq![' '],
    );
    lemma_free_concat(user_text(), decimal((i % 1000) as nat));
    lemma_free_concat(user_text() + decimal((i % 1000) as nat), message_text());
    lemma_free_concat(
        user_text() + decimal((i % 1000) as nat) + message_text(),
        decimal(i as nat),
    );
    if w == l {
        assert(s.subrange(a.len() as int, a.len() + l.len() as int) =~= l);
        assert(occurs_at(s, w, a.len() as int));
    } else {
        assert forall|p: int| !occurs_at(s, w, p) by {
            if occurs_at(s, w, p) {
                assert(s.subrange(p, p + w.len())[0] == w[0]);
                assert(s[p] == w[0]);
                if p < a.len() {
                    assert(s[p] == a[p]);
                } else if p >= a.len() + l.len() {
                    assert(s[p] == b[p - a.len() - l.len()]);
                } else {
                    assert(s[p] == l[p - a.len()]);
                }
            }
        }
    }
}

/// Counting the lines of a generated log by level finds each line's generated level: line
/// `i` counts as `ERROR` when `i % 10 == 0`, as `WARN` when `i % 10 == 1`, as `INFO`
/// otherwise.
#[verifier::spinoff_prover]
pub proof fn law_generated_levels(i: u64)
    ensures
        level_of(generated_line(i)) == (if i % 10 == 0 {
            LogLevel::Error
        } else if i % 10 == 1 {
            LogLevel::Warn
        } else {
            LogLevel::Info
        }),
{
    let s = generated_line(i);
    lemma_word_in_generated(i, error_word());
    lemma_word_in_generated(i, warn_word());
    lemma_word_in_generated(i, info_word());
    let e = has_substring(s, error_word());
    let w = has_substring(s, warn_word());
    let f = has_substring(s, info_word());
    assert(e == (generated_level(i) == error_word()));
    assert(w == (generated_level(i) == warn_word()));
    assert(f == (generated_level(i) == info_word()));
    assert(error_word() != warn_word());
    assert(error_word()[0] != info_word()[0]);
    assert(warn_word()[0] != info_word()[0]);
}


/// Lines counted by level, as [`LogStats::record`] counts them one after the other.
pub struct LevelCounts {
    pub total: nat,
    pub error: nat,
    pub warn: nat,
    pub info: nat,
    pub other: nat,
}

/// The counts of `lines`, each counted under its level.
pub open spec fn level_counts(lines: Seq<Seq<char>>) -> LevelCounts
    decreases lines.len(),
{
    if lines.len() == 0 {
        LevelCounts { total: 0, error: 0, warn: 0, info: 0, other: 0 }
    } else {
        let c = level_counts(lines.drop_last());
        let l = level_of(lines.last());
        LevelCounts {
            total: c.total + 1,
            error: c.error + if l == LogLevel::Error {
                1nat
            } else {
                0
            },
            warn: c.warn + if l == LogLevel::Warn {
                1nat
            } else {
                0
            },
            info: c.info + if l == LogLevel::Info {
                1nat
            } else {
                0
            },
            other: c.other + if l == LogLevel::Other {
                1nat
            } else {
                0
            },
        }
    }
}

/// The first `n` lines of a generated log.
pub open spec fn generated_lines(n: nat) -> Seq<Seq<char>> {
    Seq::new(n, |i: int| generated_line(i as u64))
}

proof fn lemma_tenths_step(m: nat)
    ensures
        m % 10 == 0 ==> (m + 10) / 10 == (m + 9) / 10 + 1 && (m + 9) / 10 == (m + 8) / 10,
        m % 10 == 1 ==> (m + 10) / 10 == (m + 9) / 10 && (m + 9) / 10 == (m + 8) / 10 + 1,
        m % 10 > 1 ==> (m + 10) / 10 == (m + 9) / 10 && (m + 9) / 10 == (m + 8) / 10,
        (m + 9) / 10 + (m + 8) / 10 <= m + 1,
{
}

/// A generated log of `n` lines counts `n` lines: one `ERROR` line in ten (lines 0, 10, ...),
/// one `WARN` line in ten (lines 1, 11, ...), the rest `INFO`, and none of another level.
#[verifier::spinoff_prover]
#[verifier::rlimit(40)]
pub proof fn law_generated_log_counts(n: u64)
    ensures
        level_counts(generated_lines(n as nat)) == (LevelCounts {
            total: n as nat,
            error: ((n + 9) / 10) as nat,
            warn: ((n + 8) / 10) as nat,
            info: (n - (n + 9) / 10 - (n + 8) / 10) as nat,
            other: 0,
        }),
    decreases n,
{
    if n > 0 {
        let m = (n - 1) as u64;
        law_generated_log_counts(m);
        law_generated_levels(m);
        assert(generated_lines(n as nat).drop_last() =~= generated_lines(m as nat));
        assert(generated_lines(n as nat).last() == generated_line(m));
        lemma_tenths_step(m as nat);
    } else {
        assert(generated_lines(0) =~= Seq::<Seq<char>>::empty());
    }
}

} // verus!
