//! Records of a text file, the readers that produce them, and the choice of reader.
use vstd::prelude::*;
use vstd::utf8::{
    decode_utf8, decode_utf8_encode_utf8, decode_utf8_split, encode_scalar, encode_utf8,
    is_char_boundary_iff_not_is_continuation_byte, valid_utf8, valid_utf8_concat, valid_utf8_split,
};

use crate::encoding::utf8_to_string;
use crate::text::{chars_of, copy_range, string_from_chars};

verus! {

/// One line of a file: its number (from 1), the byte offset where it starts, and its text
/// without the line ending.
#[derive(Debug, Clone)]
pub struct Record {
    pub line: u64,
    pub offset: u64,
    pub data: String,
}

/// The model of a [`Record`].
pub struct RecordModel {
    pub line: u64,
    pub offset: u64,
    pub data: Seq<char>,
}

impl Record {
    pub open spec fn model(self) -> RecordModel {
        RecordModel { line: self.line, offset: self.offset, data: self.data@ }
    }
}

/// Why a record could not be read.
#[derive(Debug, Clone, Copy, PartialEq, Eq, Structural)]
pub enum ReadError {
    /// The line is not well-formed UTF-8.
    InvalidUtf8,
    /// The underlying file could not be read.
    Io,
}

/// A source of records, read one after the other.
pub trait Reader {
    /// The records still to come, in order; `Err` stands for one that cannot be read, with
    /// the error that reading it gives.
    spec fn upcoming(&self) -> Seq<Result<RecordModel, ReadError>>;

    /// Hands out the next record: `Ok(None)` once all are read (and nothing more to come), the
    /// next record with the rest still to come when it can be read, and its error when it
    /// cannot.
    fn next_record(&mut self) -> (r: Result<Option<Record>, ReadError>)
        ensures
            old(self).upcoming().len() == 0 ==> (r matches Ok(None)) && final(self).upcoming().len()
                == 0,
            old(self).upcoming().len() > 0 && old(self).upcoming()[0] is Ok ==> (r matches Ok(
                Some(rec),
            ) && rec.model() == old(self).upcoming()[0]->Ok_0 && final(self).upcoming()
                == old(self).upcoming().drop_first()),
            old(self).upcoming().len() > 0 && old(self).upcoming()[0] is Err ==> r == Err::<
                Option<Record>,
                ReadError,
            >(old(self).upcoming()[0]->Err_0),
    ;
}

/// The index of the first `\n` at or after `from`, or the length where there is none.
pub open spec fn line_end(data: Seq<u8>, from: int) -> int
    decreases data.len() - from,
{
    if from < 0 || from >= data.len() {
        data.len() as int
    } else if data[from] == 10u8 {
        from
    } else {
        line_end(data, from + 1)
    }
}

pub proof fn lemma_line_end(data: Seq<u8>, from: int)
    requires
        0 <= from <= data.len(),
    ensures
        from <= line_end(data, from) <= data.len(),
        line_end(data, from) < data.len() ==> data[line_end(data, from)] == 10u8,
        forall|k: int| from <= k < line_end(data, from) ==> data[k] != 10u8,
    decreases data.len() - from,
{
    if from < data.len() && data[from] != 10u8 {
        lemma_line_end(data, from + 1);
    }
}

/// The text bytes of a line: `raw` without one trailing `\r`.
pub open spec fn line_body(raw: Seq<u8>) -> Seq<u8> {
    if raw.len() > 0 && raw.last() == 13u8 {
        raw.drop_last()
    } else {
        raw
    }
}

/// The records that the bytes of `data` from `cursor` on hold, when `line` lines were
/// read before: lines end at `\n`, one `\r` before it is dropped, and a line that is not
/// well-formed UTF-8 cannot be read (and takes no line number).
pub open spec fn records_from(data: Seq<u8>, cursor: int, line: u64) -> Seq<
    Result<RecordModel, ReadError>,
>
    decreases data.len() - cursor,
{
    if cursor < 0 || cursor >= data.len() {
        seq![]
    } else {
        let end = line_end(data, cursor);
        proof {
            lemma_line_end(data, cursor);
        }
        let next = if end < data.len() {
            end + 1
        } else {
            end
        };
        let body = line_body(data.subrange(cursor, end));
        if valid_utf8(body) {
            seq![
                Ok(
                    RecordModel {
                        line: (line + 1) as u64,
                        offset: cursor as u64,
                        data: decode_utf8(body),
                    },
                ),
            ] + records_from(data, next, (line + 1) as u64)
        } else {
            seq![Err(ReadError::InvalidUtf8)] + records_from(data, next, line)
        }
    }
}

/// There are no more records than bytes left.
pub proof fn lemma_records_len(data: Seq<u8>, cursor: int, line: u64)
    requires
        0 <= cursor <= data.len(),
    ensures
        records_from(data, cursor, line).len() <= data.len() - cursor,
    decreases data.len() - cursor,
{
    if cursor < data.len() {
        lemma_line_end(data, cursor);
        let end = line_end(data, cursor);
        let next = if end < data.len() {
            end + 1
        } else {
            end
        };
        let body = line_body(data.subrange(cursor, end));
        if valid_utf8(body) {
            lemma_records_len(data, next, (line + 1) as u64);
        } else {
            lemma_records_len(data, next, line);
        }
    }
}

/// Reads the lines of bytes held in memory, such as a mapped file.
pub struct MemoryMapReader<'a> {
    data: &'a [u8],
    cursor: usize,
    line: u64,
}

impl<'a> MemoryMapReader<'a> {
    #[verifier::type_invariant]
    closed spec fn well_formed(self) -> bool {
        &&& self.cursor <= self.data@.len()
        &&& self.line <= self.cursor
    }

    /// The bytes being read.
    pub closed spec fn bytes(self) -> Seq<u8> {
        self.data@
    }

    /// The offset of the next line to read.
    pub closed spec fn position(self) -> int {
        self.cursor as int
    }

    /// The number of lines read so far.
    pub closed spec fn lines_read(self) -> u64 {
        self.line
    }

    /// A reader at the start of `data`.
    pub fn new(data: &'a [u8]) -> (r: MemoryMapReader<'a>)
        ensures
            r.bytes() == data@,
            r.position() == 0,
            r.lines_read() == 0,
            r.upcoming() == records_from(data@, 0, 0),
    {
        MemoryMapReader { data, cursor: 0, line: 0 }
    }
}

impl<'a> Reader for MemoryMapReader<'a> {
    closed spec fn upcoming(&self) -> Seq<Result<RecordModel, ReadError>> {
        records_from(self.data@, self.cursor as int, self.line)
    }

    fn next_record(&mut self) -> (r: Result<Option<Record>, ReadError>) {
        proof {
            use_type_invariant(&*self);
        }
        let len = self.data.len();
        if self.cursor >= len {
            return Ok(None);
        }
        let start = self.cursor;
        let mut end = start;
        proof {
            lemma_line_end(self.data@, start as int);
        }
        while end < len && self.data[end] != 10u8
            invariant
                start <= end <= len == self.data@.len(),
                forall|k: int| start <= k < end ==> self.data@[k] != 10u8,
            decreases len - end,
        {
            end = end + 1;
        }
        proof {
            if line_end(self.data@, start as int) < end {
                assert(self.data@[line_end(self.data@, start as int)] == 10u8);
            }
            if end < line_end(self.data@, start as int) {
                assert(self.data@[end as int] != 10u8);
            }
        }
        let next = if end < len {
            end + 1
        } else {
            end
        };
        let body_end = if end > start && self.data[end - 1] == 13u8 {
            end - 1
        } else {
            end
        };
        let ghost raw = self.data@.subrange(start as int, end as int);
        let slice = &self.data[start..body_end];
        assert(slice@ == line_body(raw));
        self.cursor = next;
        match utf8_to_string(slice) {
            None => Err(ReadError::InvalidUtf8),
            Some(text) => {
                self.line = self.line + 1;
                Ok(Some(Record { line: self.line, offset: start as u64, data: text }))
            },
        }
    }
}

/// The kinds of reader, by the size of the file they suit.
#[derive(Debug, Clone, Copy, PartialEq, Eq, Structural)]
pub enum ReaderKind {
    Line,
    Chunk,
    MemoryMap,
}

/// Chooses the reader for a file.
pub struct ReaderFactory;

impl ReaderFactory {
    /// Files under 100 MiB are read line by line, files under 10 GiB in chunks, and larger
    /// ones through a memory map.
    pub fn select_reader(size: u64) -> (k: ReaderKind)
        ensures
            size < 100 * 1024 * 1024 ==> k == ReaderKind::Line,
            100 * 1024 * 1024 <= size < 10 * 1024 * 1024 * 1024 ==> k == ReaderKind::Chunk,
            10 * 1024 * 1024 * 1024 <= size ==> k == ReaderKind::MemoryMap,
    {
        if size < 100 * 1024 * 1024 {
            ReaderKind::Line
        } else if size < 10 * 1024 * 1024 * 1024 {
            ReaderKind::Chunk
        } else {
            ReaderKind::MemoryMap
        }
    }
}

/// Number of trailing `\r` and `\n` characters of `s`.
pub open spec fn trailing_line_end(s: Seq<char>) -> nat
    decreases s.len(),
{
    if s.len() > 0 && (s.last() == '\r' || s.last() == '\n') {
        1 + trailing_line_end(s.drop_last())
    } else {
        0
    }
}

/// `s` without all trailing `\r` and `\n`, as `trim_end_matches(['\r', '\n'])` returns it.
pub open spec fn trim_line_end_spec(s: Seq<char>) -> Seq<char> {
    s.take(s.len() - trailing_line_end(s))
}

proof fn lemma_trailing_line_end(s: Seq<char>, n: int)
    requires
        0 <= n <= s.len(),
        forall|k: int| s.len() - n <= k < s.len() ==> (#[trigger] s[k] == '\r' || s[k] == '\n'),
        n < s.len() ==> !(s[s.len() - n - 1] == '\r' || s[s.len() - n - 1] == '\n'),
    ensures
        trailing_line_end(s) == n,
    decreases n,
{
    if n > 0 {
        assert forall|k: int| s.drop_last().len() - (n - 1) <= k < s.drop_last().len() implies (
        #[trigger] s.drop_last()[k] == '\r' || s.drop_last()[k] == '\n') by {
            assert(s.drop_last()[k] == s[k]);
        }
        lemma_trailing_line_end(s.drop_last(), n - 1);
    }
}

/// The text of a line as a line-by-line reader keeps it: the line without its trailing
/// `\r` and `\n` characters.
pub fn trim_line_end(line: &str) -> (s: String)
    ensures
        s@ == trim_line_end_spec(line@),
{
    let cs = chars_of(line);
    let n = cs.len();
    let mut hi = n;
    while hi > 0 && (cs[hi - 1] == '\r' || cs[hi - 1] == '\n')
        invariant
            hi <= n == cs@.len(),
            forall|k: int| hi <= k < n ==> (#[trigger] cs@[k] == '\r' || cs@[k] == '\n'),
        decreases hi,
    {
        hi = hi - 1;
    }
    proof {
        lemma_trailing_line_end(cs@, (n - hi) as int);
    }
    let kept = copy_range(cs.as_slice(), 0, hi);
    assert(kept@ == cs@.take(hi as int));
    string_from_chars(kept.as_slice())
}

/// The position of a line-by-line reader: how many lines it read and the byte offset of the
/// next one.
pub struct LineCursor {
    line: u64,
    offset: u64,
}

impl LineCursor {
    pub closed spec fn lines_read(self) -> u64 {
        self.line
    }

    pub closed spec fn next_offset(self) -> u64 {
        self.offset
    }

    /// A cursor at the start of a file.
    pub fn new() -> (c: LineCursor)
        ensures
            c.lines_read() == 0,
            c.next_offset() == 0,
    {
        LineCursor { line: 0, offset: 0 }
    }

    /// The number of lines read and the offset of the next one.
    pub fn position(&self) -> (r: (u64, u64))
        ensures
            r == (self.lines_read(), self.next_offset()),
    {
        (self.line, self.offset)
    }

    /// The record of the next line, read as `raw` with its line ending: the next number, the
    /// offset where it starts, and its text without trailing `\r` and `\n`. The next line
    /// starts after all UTF-8 bytes of `raw`.
    pub fn record(&mut self, raw: &str) -> (r: Record)
        requires
            old(self).lines_read() < u64::MAX,
            old(self).next_offset() + raw.len() <= u64::MAX,
        ensures
            r.line == old(self).lines_read() + 1,
            r.offset == old(self).next_offset(),
            r.data@ == trim_line_end_spec(raw@),
            final(self).lines_read() == old(self).lines_read() + 1,
            final(self).next_offset() == old(self).next_offset() + raw.len(),
    {
        self.line = self.line + 1;
        let record = Record { line: self.line, offset: self.offset, data: trim_line_end(raw) };
        self.offset = self.offset + raw.len() as u64;
        record
    }
}

/// Tuning of the readers.
#[derive(Debug, Clone)]
pub struct Config {
    pub buffer_size: usize,
    pub progress_update_ms: u64,
}

impl Default for Config {
    /// An 8 MiB read buffer and progress reports every 500 ms.
    fn default() -> (c: Config)
        ensures
            c.buffer_size == 8 * 1024 * 1024,
            c.progress_update_ms == 500,
    {
        Config { buffer_size: 8 * 1024 * 1024, progress_update_ms: 500 }
    }
}

/// The records that a line-by-line reader gives for the well-formed UTF-8 bytes of `data`
/// from `cursor` on, when `line` lines were read before: each raw line runs up to and including
/// its `\n` (or to the end), its text is its characters without the trailing `\r` and `\n`
/// ([`LineCursor::record`]), and the next line starts after all its bytes.
pub open spec fn line_reader_records(data: Seq<u8>, cursor: int, line: u64) -> Seq<RecordModel>
    decreases data.len() - cursor,
{
    if cursor < 0 || cursor >= data.len() {
        seq![]
    } else {
        let end = line_end(data, cursor);
        proof {
            lemma_line_end(data, cursor);
        }
        let next = if end < data.len() {
            end + 1
        } else {
            end
        };
        seq![
            RecordModel {
                line: (line + 1) as u64,
                offset: cursor as u64,
                data: trim_line_end_spec(decode_utf8(data.subrange(cursor, next))),
            },
        ] + line_reader_records(data, next, (line + 1) as u64)
    }
}

/// No line of `data` ends in two `\r` (before its `\n`, or at the end of the data).
pub open spec fn no_double_cr_end(data: Seq<u8>) -> bool {
    forall|k: int|
        0 <= k && k + 1 < data.len() && #[trigger] data[k] == 13u8 && data[k + 1] == 13u8 ==> k
            + 2 < data.len() && data[k + 2] != 10u8
}

pub open spec fn readable(records: Seq<RecordModel>) -> Seq<Result<RecordModel, ReadError>> {
    records.map_values(|r: RecordModel| Ok::<RecordModel, ReadError>(r))
}

proof fn lemma_ascii_byte(b: u8)
    requires
        b < 0x80,
    ensures
        (b & 0x7f) == b,
        ((b & 0x7f) as u32) == b as u32,
{
    assert((b & 0x7f) == b) by (bit_vector)
        requires
            b < 0x80,
    ;
}

/// A valid sequence that starts with an ASCII byte: that byte is its first character, and the
/// rest is valid.
proof fn lemma_ascii_first(t: Seq<u8>)
    requires
        valid_utf8(t),
        t.len() > 0,
        t[0] < 0x80,
    ensures
        valid_utf8(t.subrange(1, t.len() as int)),
        decode_utf8(t) == seq![((t[0] as u32) as char)] + decode_utf8(t.subrange(1, t.len() as int)),
{
    lemma_ascii_byte(t[0]);
}

proof fn lemma_ascii_alone(b: u8)
    requires
        b < 0x80,
    ensures
        valid_utf8(seq![b]),
        decode_utf8(seq![b]) == seq![((b as u32) as char)],
{
    lemma_ascii_byte(b);
    let t = seq![b];
    assert(t.subrange(1, 1) =~= Seq::<u8>::empty());
    assert(valid_utf8(t.subrange(1, 1)));
    assert(decode_utf8(t.subrange(1, 1)) =~= Seq::<char>::empty());
}

proof fn lemma_encode_concat(a: Seq<char>, b: Seq<char>)
    ensures
        encode_utf8(a + b) == encode_utf8(a) + encode_utf8(b),
    decreases a.len(),
{
    if a.len() > 0 {
        assert((a + b).drop_first() =~= a.drop_first() + b);
        lemma_encode_concat(a.drop_first(), b);
        assert(encode_utf8(a) + encode_utf8(b) =~= encode_scalar(a[0] as u32) + (encode_utf8(
            a.drop_first(),
        ) + encode_utf8(b)));
    } else {
        assert(a + b =~= b);
        assert(encode_utf8(a) + encode_utf8(b) =~= encode_utf8(b));
    }
}

/// Decoding bytes that do not end in `\r` or `\n` gives characters that do not end in them.
proof fn lemma_last_char(b: Seq<u8>)
    requires
        valid_utf8(b),
        b.len() > 0 ==> b.last() != 10u8 && b.last() != 13u8,
    ensures
        decode_utf8(b).len() > 0 ==> decode_utf8(b).last() != '\r' && decode_utf8(b).last()
            != '\n',
{
    let cs = decode_utf8(b);
    if cs.len() > 0 {
        decode_utf8_encode_utf8(b);
        let c = cs.last();
        assert(cs =~= cs.drop_last() + seq![c]);
        lemma_encode_concat(cs.drop_last(), seq![c]);
        let tail = encode_utf8(seq![c]);
        assert(seq![c].drop_first() =~= Seq::<char>::empty());
        assert(seq![c][0] == c);
        assert(encode_utf8(Seq::<char>::empty()) =~= Seq::<u8>::empty());
        assert(tail == encode_scalar(c as u32) + encode_utf8(Seq::<char>::empty()));
        assert(tail =~= encode_scalar(c as u32));
        if c == '\r' || c == '\n' {
            let u = c as u32;
            assert(u == 13 || u == 10);
            assert((u & 0x7f) as u8 == u as u8) by (bit_vector)
                requires
                    u == 13 || u == 10,
            ;
            assert(tail =~= seq![u as u8]);
            assert(b =~= encode_utf8(cs.drop_last()) + tail);
            assert(b.last() == u as u8);
        }
    }
}

proof fn lemma_trim_tail(x: Seq<char>, tail: Seq<char>)
    requires
        x.len() > 0 ==> x.last() != '\r' && x.last() != '\n',
        forall|k: int| 0 <= k < tail.len() ==> (#[trigger] tail[k] == '\r' || tail[k] == '\n'),
    ensures
        trim_line_end_spec(x + tail) == x,
{
    let s = x + tail;
    assert forall|k: int| s.len() - tail.len() <= k < s.len() implies (#[trigger] s[k] == '\r'
        || s[k] == '\n') by {
        assert(s[k] == tail[k - x.len()]);
    }
    if tail.len() < s.len() {
        assert(s[s.len() - tail.len() - 1] == x.last());
    }
    lemma_trailing_line_end(s, tail.len() as int);
    assert(s.take(s.len() - tail.len()) =~= x);
}

proof fn lemma_readers_agree_from(data: Seq<u8>, cursor: int, line: u64)
    requires
        0 <= cursor <= data.len(),
        valid_utf8(data.subrange(cursor, data.len() as int)),
        no_double_cr_end(data),
    ensures
        records_from(data, cursor, line) == readable(line_reader_records(data, cursor, line)),
    decreases data.len() - cursor,
{
    if cursor == data.len() {
        assert(readable(Seq::<RecordModel>::empty()) =~= Seq::<Result<RecordModel, ReadError>>::empty());
        return;
    }
    let n = data.len() as int;
    let rest = data.subrange(cursor, n);
    lemma_line_end(data, cursor);
    let end = line_end(data, cursor);
    let e = end - cursor;
    let next = if end < n {
        end + 1
    } else {
        end
    };
    let seg = data.subrange(cursor, end);
    let raw = data.subrange(cursor, next);
    assert(seg =~= rest.subrange(0, e));
    assert forall|k: int| 0 <= k < seg.len() implies seg[k] != 10u8 by {
        assert(seg[k] == data[cursor + k]);
    }
    // the segment is valid, and the rest after the line break too
    if end < n {
        assert(rest[e] == 10u8);
        is_char_boundary_iff_not_is_continuation_byte(rest, e);
        valid_utf8_split(rest, e);
        let t = rest.subrange(e, rest.len() as int);
        lemma_ascii_first(t);
        assert(t.subrange(1, t.len() as int) =~= data.subrange(next, n));
        lemma_ascii_alone(10u8);
        valid_utf8_concat(seg, seq![10u8]);
        assert(raw =~= seg + seq![10u8]);
        assert(raw[e] == 10u8);
        is_char_boundary_iff_not_is_continuation_byte(raw, e);
        decode_utf8_split(raw, e);
        assert(raw.subrange(0, e) =~= seg);
        assert(raw.subrange(e, raw.len() as int) =~= seq![10u8]);
    } else {
        assert(seg =~= rest);
        assert(raw =~= seg);
        assert(data.subrange(next, n) =~= Seq::<u8>::empty());
    }
    let body = line_body(seg);
    if seg.len() > 0 && seg.last() == 13u8 {
        assert(seg[e - 1] == 13u8);
        is_char_boundary_iff_not_is_continuation_byte(seg, e - 1);
        valid_utf8_split(seg, e - 1);
        decode_utf8_split(seg, e - 1);
        assert(seg.subrange(0, e - 1) =~= body);
        assert(seg.subrange(e - 1, seg.len() as int) =~= seq![13u8]);
        lemma_ascii_alone(13u8);
        if body.len() > 0 {
            assert(body.last() == data[end - 2]);
            assert(data[end - 1] == 13u8);
            if body.last() == 13u8 {
                assert(data[(end - 2) + 1] == 13u8);
                assert(false);
            }
        }
    } else {
        assert(body =~= seg);
    }
    assert(body.len() > 0 ==> body.last() != 10u8) by {
        if body.len() > 0 {
            assert(body.last() == seg[body.len() - 1]);
        }
    }
    lemma_last_char(body);
    let text = decode_utf8(body);
    // the line reader's text: the decoded raw line is the text followed by `\r`/`\n` only
    let tail = decode_utf8(raw).skip(text.len() as int);
    assert(decode_utf8(raw) =~= text + tail);
    assert(((13u32) as char) == '\r');
    assert(((10u32) as char) == '\n');
    assert forall|k: int| 0 <= k < tail.len() implies (#[trigger] tail[k] == '\r' || tail[k]
        == '\n') by {}
    lemma_trim_tail(text, tail);
    lemma_readers_agree_from(data, next, (line + 1) as u64);
    let rm = RecordModel { line: (line + 1) as u64, offset: cursor as u64, data: text };
    assert(readable(seq![rm] + line_reader_records(data, next, (line + 1) as u64)) =~= seq![
        Ok::<RecordModel, ReadError>(rm),
    ] + readable(line_reader_records(data, next, (line + 1) as u64)));
}

/// On well-formed UTF-8 whose lines do not end in two `\r`, the memory-map reader and a
/// line-by-line reader give the same records: the same numbers, offsets and texts.
pub proof fn law_readers_agree(data: Seq<u8>)
    requires
        valid_utf8(data),
        no_double_cr_end(data),
    ensures
        records_from(data, 0, 0) == readable(line_reader_records(data, 0, 0)),
{
    assert(data.subrange(0, data.len() as int) =~= data);
    lemma_readers_agree_from(data, 0, 0);
}

} // verus!
