//! Line index files (`.ffidx`): writing one entry per thousand lines, and finding the entry
//! to start from when jumping to a line.
//!
//! An index file starts with the line `FFIDX_V1`; each further line is `line,offset`, the
//! number of a line (from 1) and the byte offset where it starts.
use vstd::prelude::*;

use crate::text::{
    chars_of, copy_range, decimal, is_digit, lemma_decimal_digits, parse_u64, parse_u64_spec,
    push_decimal, push_str, string_from_chars, unsigned_part,
};

verus! {

/// The first line of an index file.
pub open spec fn index_header_text() -> Seq<char> {
    seq!['F', 'F', 'I', 'D', 'X', '_', 'V', '1']
}

/// The first line of an index file.
pub fn index_header() -> (s: String)
    ensures
        s@ == index_header_text(),
{
    let v = vec!['F', 'F', 'I', 'D', 'X', '_', 'V', '1'];
    string_from_chars(v.as_slice())
}

/// The index line for line number `line` starting at byte `offset`.
pub open spec fn entry_text(line: u64, offset: u64) -> Seq<char> {
    decimal(line as nat) + seq![','] + decimal(offset as nat)
}

/// The index line for line number `line` starting at byte `offset`.
pub fn entry_line(line: u64, offset: u64) -> (s: String)
    ensures
        s@ == entry_text(line, offset),
{
    let mut v: Vec<char> = Vec::new();
    push_decimal(&mut v, line);
    v.push(',');
    push_decimal(&mut v, offset);
    assert(v@ =~= entry_text(line, offset));
    string_from_chars(v.as_slice())
}

/// Writes the entries of an index while the lines of a file are read.
pub struct IndexBuilder {
    line_number: u64,
    offset: u64,
}

impl IndexBuilder {
    /// The number of the next line.
    pub closed spec fn next_line(self) -> u64 {
        self.line_number
    }

    /// The offset of the next line.
    pub closed spec fn next_offset(self) -> u64 {
        self.offset
    }

    /// A builder before the first line.
    pub fn new() -> (b: IndexBuilder)
        ensures
            b.next_line() == 1,
            b.next_offset() == 0,
    {
        IndexBuilder { line_number: 1, offset: 0 }
    }

    /// Takes the next line, of `bytes` bytes with its line break. Lines `1`, `1001`, `2001`,
    /// ... get an entry with the offset where they start.
    pub fn feed(&mut self, bytes: u64) -> (entry: Option<String>)
        requires
            old(self).next_line() < u64::MAX,
            old(self).next_offset() + bytes <= u64::MAX,
        ensures
            final(self).next_line() == old(self).next_line() + 1,
            final(self).next_offset() == old(self).next_offset() + bytes,
            match entry {
                Some(e) => old(self).next_line() % 1000 == 1 && e@ == entry_text(
                    old(self).next_line(),
                    old(self).next_offset(),
                ),
                None => old(self).next_line() % 1000 != 1,
            },
    {
        let entry = if self.line_number % 1000 == 1 {
            Some(entry_line(self.line_number, self.offset))
        } else {
            None
        };
        self.offset = self.offset + bytes;
        self.line_number = self.line_number + 1;
        entry
    }
}

/// Index of the first `c` in `s`.
pub open spec fn first_char(s: Seq<char>, c: char) -> Option<int>
    decreases s.len(),
{
    if s.len() == 0 {
        None
    } else if s[0] == c {
        Some(0)
    } else {
        match first_char(s.drop_first(), c) {
            Some(p) => Some(p + 1),
            None => None,
        }
    }
}

pub proof fn lemma_first_char(s: Seq<char>, c: char, i: int)
    requires
        0 <= i <= s.len(),
        forall|j: int| 0 <= j < i ==> s[j] != c,
        i < s.len() ==> s[i] == c,
    ensures
        first_char(s, c) == (if i < s.len() {
            Some(i)
        } else {
            None::<int>
        }),
    decreases i,
{
    if i > 0 {
        assert forall|j: int| 0 <= j < i - 1 implies s.drop_first()[j] != c by {
            assert(s.drop_first()[j] == s[j + 1]);
        }
        if i < s.len() {
            assert(s.drop_first()[i - 1] == s[i]);
        }
        lemma_first_char(s.drop_first(), c, i - 1);
    }
}

pub proof fn lemma_first_char_bounds(s: Seq<char>, c: char)
    ensures
        first_char(s, c) matches Some(p) ==> 0 <= p < s.len() && s[p] == c,
    decreases s.len(),
{
    if s.len() > 0 {
        lemma_first_char_bounds(s.drop_first(), c);
    }
}

/// The pieces of `s` between the occurrences of `c`, as `str::split` with a character
/// yields them (empty pieces included).
pub open spec fn split_on(s: Seq<char>, c: char) -> Seq<Seq<char>>
    decreases s.len(),
{
    match first_char(s, c) {
        Some(p) => {
            proof {
                lemma_first_char_bounds(s, c);
            }
            seq![s.take(p)] + split_on(s.skip(p + 1), c)
        },
        None => seq![s],
    }
}

/// Why an index file could not be read.
#[derive(Debug, Clone, Copy, PartialEq, Eq, Structural)]
pub enum IndexError {
    /// An entry holds a part that is not a `u64` number.
    BadNumber,
}

/// What an index line (after the header) holds: `Some((line, offset))` for an entry, `None`
/// for a line that does not have exactly two comma-separated parts (it is skipped).
pub open spec fn parse_entry_spec(s: Seq<char>) -> Result<Option<(u64, u64)>, IndexError> {
    let parts = split_on(s, ',');
    if parts.len() != 2 {
        Ok(None)
    } else {
        match (parse_u64_spec(parts[0]), parse_u64_spec(parts[1])) {
            (Some(l), Some(o)) => Ok(Some((l, o))),
            _ => Err(IndexError::BadNumber),
        }
    }
}

/// The two comma-separated parts of `s`, if it has exactly two.
fn two_parts(s: &[char]) -> (r: Option<(Vec<char>, Vec<char>)>)
    ensures
        match r {
            Some((a, b)) => split_on(s@, ',').len() == 2 && split_on(s@, ',')[0] == a@
                && split_on(s@, ',')[1] == b@,
            None => split_on(s@, ',').len() != 2,
        },
{
    let n = s.len();
    let mut i: usize = 0;
    while i < n && s[i] != ','
        invariant
            i <= n == s@.len(),
            forall|j: int| 0 <= j < i ==> s@[j] != ',',
        decreases n - i,
    {
        i = i + 1;
    }
    proof {
        lemma_first_char(s@, ',', i as int);
    }
    if i == n {
        assert(split_on(s@, ',') == seq![s@]);
        return None;
    }
    let mut j: usize = i + 1;
    while j < n && s[j] != ','
        invariant
            i < n == s@.len(),
            i + 1 <= j <= n,
            forall|k: int| i + 1 <= k < j ==> s@[k] != ',',
        decreases n - j,
    {
        j = j + 1;
    }
    let ghost rest = s@.skip(i + 1);
    proof {
        assert forall|k: int| 0 <= k < j - (i + 1) implies rest[k] != ',' by {
            assert(rest[k] == s@[k + i + 1]);
        }
        if j < n {
            assert(rest[j - (i + 1)] == s@[j as int]);
        }
        lemma_first_char(rest, ',', j - (i + 1));
    }
    if j < n {
        proof {
            let rest2 = rest.skip(j - (i + 1) + 1);
            assert(split_on(rest, ',').len() == 1 + split_on(rest2, ',').len());
            assert(split_on(s@, ',').len() == 1 + split_on(rest, ',').len());
        }
        return None;
    }
    let a = copy_range(s, 0, i);
    let b = copy_range(s, i + 1, n);
    proof {
        assert(rest == s@.subrange(i + 1, n as int));
        assert(split_on(rest, ',') == seq![rest]);
        assert(s@.take(i as int) == a@);
    }
    Some((a, b))
}

/// Reads one index line (after the header).
pub fn parse_entry(line: &str) -> (r: Result<Option<(u64, u64)>, IndexError>)
    ensures
        r == parse_entry_spec(line@),
{
    let cs = chars_of(line);
    match two_parts(cs.as_slice()) {
        None => Ok(None),
        Some((a, b)) => {
            let l = parse_u64(a.as_slice());
            let o = parse_u64(b.as_slice());
            match (l, o) {
                (Some(l), Some(o)) => Ok(Some((l, o))),
                _ => Err(IndexError::BadNumber),
            }
        },
    }
}

/// Finds the last index entry at or before a target line while the index is read.
pub struct IndexLookup {
    target: u64,
    nearest_line: u64,
    nearest_offset: u64,
    done: bool,
}

impl IndexLookup {
    pub closed spec fn target(self) -> u64 {
        self.target
    }

    /// The line and offset to start reading from.
    pub closed spec fn nearest(self) -> (u64, u64) {
        (self.nearest_line, self.nearest_offset)
    }

    /// Whether an entry past the target was met.
    pub closed spec fn finished(self) -> bool {
        self.done
    }

    /// A lookup for `target` that starts at line 1, offset 0.
    pub fn new(target: u64) -> (l: IndexLookup)
        ensures
            l.target() == target,
            l.nearest() == (1u64, 0u64),
            !l.finished(),
    {
        IndexLookup { target, nearest_line: 1, nearest_offset: 0, done: false }
    }

    /// The line and offset to start reading from.
    pub fn start(&self) -> (r: (u64, u64))
        ensures
            r == self.nearest(),
    {
        (self.nearest_line, self.nearest_offset)
    }

    /// Whether an entry past the target was met, so that the rest of the index is not read.
    pub fn is_finished(&self) -> (b: bool)
        ensures
            b == self.finished(),
    {
        self.done
    }

    /// Takes the next index line: an entry at or before the target becomes the start; the
    /// first entry past it ends the lookup; a line without two parts is skipped; an entry
    /// whose parts are not numbers is an error.
    pub fn feed(&mut self, line: &str) -> (r: Result<(), IndexError>)
        requires
            !old(self).finished(),
        ensures
            final(self).target() == old(self).target(),
            match parse_entry_spec(line@) {
                Err(e) => r == Err::<(), IndexError>(e),
                Ok(None) => r is Ok && final(self).nearest() == old(self).nearest()
                    && !final(self).finished(),
                Ok(Some((l, o))) => r is Ok && if l <= old(self).target() {
                    final(self).nearest() == (l, o) && !final(self).finished()
                } else {
                    final(self).nearest() == old(self).nearest() && final(self).finished()
                },
            },
    {
        match parse_entry(line) {
            Err(e) => Err(e),
            Ok(None) => Ok(()),
            Ok(Some((l, o))) => {
                if l <= self.target {
                    self.nearest_line = l;
                    self.nearest_offset = o;
                } else {
                    self.done = true;
                }
                Ok(())
            },
        }
    }
}

/// What to do with a line read from the start of a jump.
#[derive(Debug, Clone, Copy, PartialEq, Eq, Structural)]
pub enum JumpStep {
    /// The line comes before the target.
    Skip,
    /// The line, with this number, is shown.
    Show(u64),
    /// The lines to show are done.
    Stop,
}

/// The step for the line `i` lines after `start` (the line where reading began), when `show`
/// lines from `target` on are shown.
pub open spec fn jump_step_spec(start: u64, i: u64, target: u64, show: u64) -> JumpStep {
    let current = start + i;
    if current < target {
        JumpStep::Skip
    } else if current >= target + show {
        JumpStep::Stop
    } else {
        JumpStep::Show(current as u64)
    }
}

/// Decides what to do with the line `i` lines after `start`.
pub fn jump_step(start: u64, i: u64, target: u64, show: u64) -> (s: JumpStep)
    requires
        start + i <= u64::MAX,
        target + show <= u64::MAX,
    ensures
        s == jump_step_spec(start, i, target, show),
{
    let current = start + i;
    if current < target {
        JumpStep::Skip
    } else if current >= target + show {
        JumpStep::Stop
    } else {
        JumpStep::Show(current)
    }
}

/// A shown line: its number, `: `, and its text.
pub open spec fn jump_line_text(current: u64, line: Seq<char>) -> Seq<char> {
    decimal(current as nat) + seq![':', ' '] + line
}

/// A shown line: its number, `: `, and its text.
pub fn jump_line(current: u64, line: &str) -> (s: String)
    ensures
        s@ == jump_line_text(current, line@),
{
    let mut v: Vec<char> = Vec::new();
    push_decimal(&mut v, current);
    v.push(':');
    v.push(' ');
    push_str(&mut v, line);
    assert(v@ =~= jump_line_text(current, line@));
    string_from_chars(v.as_slice())
}

proof fn lemma_decimal_no_comma(n: nat)
    ensures
        first_char(decimal(n), ',') is None,
{
    lemma_decimal_digits(n);
    let d = decimal(n);
    assert forall|j: int| 0 <= j < d.len() implies d[j] != ',' by {
        assert(is_digit(d[j]));
    }
    lemma_first_char(d, ',', d.len() as int);
}

/// The decimal text of a number is read back as that number.
pub proof fn law_decimal_parses_back(n: u64)
    ensures
        parse_u64_spec(decimal(n as nat)) == Some(n),
{
    lemma_decimal_digits(n as nat);
    assert(unsigned_part(decimal(n as nat)) == decimal(n as nat));
}

/// An entry that the builder writes is read back by the lookup as the same line and offset.
pub proof fn law_entry_reads_back(line: u64, offset: u64)
    ensures
        parse_entry_spec(entry_text(line, offset)) == Ok::<Option<(u64, u64)>, IndexError>(
            Some((line, offset)),
        ),
{
    let a = decimal(line as nat);
    let b = decimal(offset as nat);
    let s = entry_text(line, offset);
    lemma_decimal_no_comma(line as nat);
    lemma_decimal_no_comma(offset as nat);
    lemma_decimal_digits(line as nat);
    assert forall|j: int| 0 <= j < a.len() implies s[j] != ',' by {
        assert(s[j] == a[j]);
    }
    assert(s[a.len() as int] == ',');
    lemma_first_char(s, ',', a.len() as int);
    assert(s.take(a.len() as int) == a);
    assert(s.skip(a.len() as int + 1) == b);
    assert(split_on(b, ',') == seq![b]);
    assert(split_on(s, ',') == seq![a] + seq![b]);
    law_decimal_parses_back(line);
    law_decimal_parses_back(offset);
}

/// The index lines that [`IndexBuilder::feed`] writes for lines of `lens` bytes each (line
/// breaks included), the first of them numbered `line` and starting at byte `offset`.
pub open spec fn entries_from(lens: Seq<u64>, line: nat, offset: nat) -> Seq<Seq<char>>
    decreases lens.len(),
{
    if lens.len() == 0 {
        seq![]
    } else {
        let rest = entries_from(lens.drop_first(), line + 1, (offset + lens[0]) as nat);
        if line % 1000 == 1 {
            seq![entry_text(line as u64, offset as u64)] + rest
        } else {
            rest
        }
    }
}

/// The number of bytes of the first `k` lines: the offset where line `k + 1` starts.
pub open spec fn bytes_before(lens: Seq<u64>, k: int) -> nat
    decreases k,
{
    if k <= 0 {
        0
    } else {
        (bytes_before(lens, k - 1) + lens[k - 1]) as nat
    }
}

/// What [`IndexLookup::feed`] finds for `target` when it reads the index lines `lines`, starting
/// from `nearest`: the last entry at or before the target, up to the first entry past it.
pub open spec fn lookup_over(lines: Seq<Seq<char>>, target: u64, nearest: (u64, u64)) -> Result<
    (u64, u64),
    IndexError,
>
    decreases lines.len(),
{
    if lines.len() == 0 {
        Ok(nearest)
    } else {
        match parse_entry_spec(lines[0]) {
            Err(e) => Err(e),
            Ok(None) => lookup_over(lines.drop_first(), target, nearest),
            Ok(Some((l, o))) => if l <= target {
                lookup_over(lines.drop_first(), target, (l, o))
            } else {
                Ok(nearest)
            },
        }
    }
}

pub open spec fn min_nat(a: nat, b: nat) -> nat {
    if a <= b {
        a
    } else {
        b
    }
}

/// Where reading starts: line `s` (an indexed line, `1` or one of `1001`, `2001`, ...), at
/// its first byte `o`, the last indexed line at or before both the target and the last line.
pub open spec fn jump_start(lens: Seq<u64>, target: u64, s: u64, o: u64) -> bool {
    &&& s >= 1
    &&& s % 1000 == 1
    &&& s == 1 || (s <= target && s <= lens.len())
    &&& min_nat(target as nat, lens.len()) < s + 1000
    &&& o == bytes_before(lens, s - 1)
}

proof fn lemma_bytes_before_mono(lens: Seq<u64>, a: int, b: int)
    requires
        0 <= a <= b <= lens.len(),
    ensures
        bytes_before(lens, a) <= bytes_before(lens, b),
    decreases b,
{
    if a < b {
        lemma_bytes_before_mono(lens, a, b - 1);
    }
}

proof fn lemma_lookup_from(lens: Seq<u64>, k: nat, target: u64, s0: u64, o0: u64)
    requires
        k <= lens.len() < u64::MAX,
        bytes_before(lens, lens.len() as int) <= u64::MAX,
        s0 >= 1,
        s0 % 1000 == 1,
        s0 == 1 || (s0 <= target && s0 <= k),
        min_nat(target as nat, k) < s0 + 1000,
        o0 == bytes_before(lens, s0 - 1),
    ensures
        lookup_over(entries_from(lens.skip(k as int), k + 1, bytes_before(lens, k as int)), target, (s0, o0))
            matches Ok((s, o)) && jump_start(lens, target, s, o),
    decreases lens.len() - k,
{
    let rest = lens.skip(k as int);
    let off = bytes_before(lens, k as int);
    if k == lens.len() {
        assert(rest.len() == 0);
    } else {
        let line = k + 1;
        assert(rest.drop_first() =~= lens.skip(k + 1 as int));
        assert(rest[0] == lens[k as int]);
        assert(bytes_before(lens, k + 1 as int) == off + lens[k as int]);
        lemma_bytes_before_mono(lens, k as int, lens.len() as int);
        let later = entries_from(lens.skip(k + 1 as int), line + 1, bytes_before(lens, k + 1 as int));
        if line % 1000 == 1 {
            law_entry_reads_back(line as u64, off as u64);
            let ents = seq![entry_text(line as u64, off as u64)] + later;
            assert(ents.drop_first() =~= later);
            assert(ents[0] == entry_text(line as u64, off as u64));
            if line <= target {
                lemma_lookup_from(lens, (k + 1) as nat, target, line as u64, off as u64);
            }
        } else {
            lemma_lookup_from(lens, (k + 1) as nat, target, s0, o0);
        }
    }
}

/// Jumping with an index that the builder wrote for a file: the lookup starts reading at an
/// indexed line no later than the target (and no later than the file's last line), at the byte
/// where that line starts, and fewer than a thousand lines before the target (or the last
/// line); reading on from there, the `i`-th line read is line `s + i`, shown exactly when it
/// lies in `target .. target + show`.
pub proof fn law_index_round_trip(lens: Seq<u64>, target: u64, show: u64)
    requires
        lens.len() < u64::MAX,
        bytes_before(lens, lens.len() as int) <= u64::MAX,
        target + show <= u64::MAX,
    ensures
        lookup_over(entries_from(lens, 1, 0), target, (1u64, 0u64)) matches Ok((s, o)) && {
            &&& jump_start(lens, target, s, o)
            &&& target >= 1 ==> s <= target
            &&& forall|i: u64|
                s + i <= u64::MAX ==> (jump_step_spec(s, i, target, show) == if s + i < target {
                    JumpStep::Skip
                } else if s + i < target + show {
                    JumpStep::Show((s + i) as u64)
                } else {
                    JumpStep::Stop
                })
        },
{
    assert(lens.skip(0) =~= lens);
    lemma_lookup_from(lens, 0, target, 1, 0);
}

} // verus!
