//! Reading the records of CSV bytes with the `csv` crate.
use vstd::prelude::*;

use crate::analysis::{string_views, AnalyzeError};
use crate::text::{chars_of, contains_chars, has_substring, join, join_chars, string_from_chars};

verus! {

/// The outcome of reading the `index`-th data record (after the header) of CSV bytes.
pub enum CsvRowModel {
    Fields(Seq<Seq<char>>),
    End,
    Failed,
}

/// The header fields that `csv::Reader::headers` reads from `contents` (default settings),
/// or `None` where it fails.
pub uninterp spec fn csv_header_row(contents: Seq<u8>) -> Option<Seq<Seq<char>>>;

/// What the record iterator of a `csv::Reader` (default settings, header read first) gives
/// for the data record after `index` others, counting those that failed.
pub uninterp spec fn csv_data_row(contents: Seq<u8>, index: nat) -> CsvRowModel;

#[verifier::external_type_specification]
#[verifier::external_body]
#[verifier::reject_recursive_types(R)]
pub struct ExCsvRecords<R>(csv::StringRecordsIntoIter<R>);

#[verifier::external_type_specification]
#[verifier::external_body]
pub struct ExCsvError(csv::Error);

/// The data records of CSV bytes, read one after the other.
pub struct CsvRows<'a> {
    records: csv::StringRecordsIntoIter<&'a [u8]>,
    contents: &'a [u8],
    read: u64,
}

/// Opens a `csv::Reader` (default settings) on `contents`, reads its header with
/// `csv::Reader::headers` and turns it into its record iterator (`into_records`). The returned
/// rows have read no data record yet.
#[verifier::external_body]
fn csv_open<'a>(contents: &'a [u8]) -> (r: Result<(CsvRows<'a>, Vec<String>), csv::Error>)
    ensures
        match r {
            Ok((rows, h)) => rows.contents@ == contents@ && rows.read == 0 && csv_header_row(
                contents@,
            ) == Some(string_views(h@)),
            Err(_) => csv_header_row(contents@) is None,
        },
{
    let mut reader = csv::Reader::from_reader(contents);
    let headers = reader.headers()?.iter().map(|h| h.to_string()).collect();
    Ok((CsvRows { records: reader.into_records(), contents, read: 0 }, headers))
}

/// Reads the next data record with the record iterator's `next`, from an iterator that has read
/// the header and `rows.read` records of `rows.contents`, well-formed or not. A record that
/// fails (fields of the wrong number, text that is not UTF-8) is consumed as well, so the next
/// call reads the record after it. Every record, the header too, takes at least one byte of the
/// input, so a record, good or bad, is only read while the header and the records before it
/// leave a byte. The count of records read is left to the caller.
#[verifier::external_body]
fn csv_read_record(rows: &mut CsvRows) -> (r: Result<Option<Vec<String>>, csv::Error>)
    ensures
        final(rows).contents@ == old(rows).contents@,
        final(rows).read == old(rows).read,
        match r {
            Ok(Some(f)) => csv_data_row(old(rows).contents@, old(rows).read as nat)
                == CsvRowModel::Fields(string_views(f@)) && (old(rows).read as int) + 1 < old(
                rows,
            ).contents@.len(),
            Ok(None) => csv_data_row(old(rows).contents@, old(rows).read as nat)
                is End,
            Err(_) => csv_data_row(old(rows).contents@, old(rows).read as nat)
                is Failed && (old(rows).read as int) + 1 < old(rows).contents@.len(),
        },
{
    match rows.records.next() {
        Some(Ok(record)) => Ok(Some(record.iter().map(|f| f.to_string()).collect())),
        None => Ok(None),
        Some(Err(e)) => Err(e),
    }
}

/// The first `n` data records of `contents` are read, and then the data ends.
pub open spec fn csv_row_count(contents: Seq<u8>, n: nat) -> bool {
    &&& forall|k: nat| k < n ==> #[trigger] csv_data_row(contents, k) is Fields
    &&& csv_data_row(contents, n) is End
}

impl<'a> CsvRows<'a> {
    /// The bytes being read.
    pub closed spec fn bytes(self) -> Seq<u8> {
        self.contents@
    }

    /// The number of data records read so far.
    pub closed spec fn rows_read(self) -> nat {
        self.read as nat
    }

    /// Opens CSV bytes and reads their header row.
    pub fn open(contents: &'a [u8]) -> (r: Result<(CsvRows<'a>, Vec<String>), AnalyzeError>)
        ensures
            match r {
                Ok((rows, h)) => rows.bytes() == contents@ && rows.rows_read() == 0
                    && csv_header_row(contents@) == Some(string_views(h@)),
                Err(e) => e == AnalyzeError::Csv && csv_header_row(contents@) is None,
            },
    {
        match csv_open(contents) {
            Ok(p) => Ok(p),
            Err(_) => Err(AnalyzeError::Csv),
        }
    }

    /// Reads the next data record: its fields, `None` at the end of the data, or an error; a
    /// record that fails is passed over, so the next call reads the one after it.
    pub fn next_row(&mut self) -> (r: Result<Option<Vec<String>>, AnalyzeError>)
        ensures
            final(self).bytes() == old(self).bytes(),
            match r {
                Ok(Some(f)) => csv_data_row(old(self).bytes(), old(self).rows_read())
                    == CsvRowModel::Fields(string_views(f@)) && final(self).rows_read() == old(
                    self,
                ).rows_read() + 1 && old(self).rows_read() + 1 < old(self).bytes().len(),
                Ok(None) => csv_data_row(old(self).bytes(), old(self).rows_read()) is End
                    && final(self).rows_read() == old(self).rows_read(),
                Err(e) => e == AnalyzeError::Csv && csv_data_row(
                    old(self).bytes(),
                    old(self).rows_read(),
                ) is Failed && final(self).rows_read() == old(self).rows_read() + 1,
            },
    {
        match csv_read_record(self) {
            Ok(Some(f)) => {
                let len = self.contents.len();
                assert(len <= u64::MAX);
                self.read = self.read + 1;
                Ok(Some(f))
            },
            Ok(None) => Ok(None),
            Err(_) => {
                let len = self.contents.len();
                assert(len <= u64::MAX);
                self.read = self.read + 1;
                Err(AnalyzeError::Csv)
            },
        }
    }
}

/// The index of the first header equal to `column`.
pub open spec fn column_index(headers: Seq<Seq<char>>, column: Seq<char>) -> Option<int>
    decreases headers.len(),
{
    if headers.len() == 0 {
        None
    } else if headers[0] == column {
        Some(0)
    } else {
        match column_index(headers.drop_first(), column) {
            Some(i) => Some(i + 1),
            None => None,
        }
    }
}

proof fn lemma_column_index(headers: Seq<Seq<char>>, column: Seq<char>, i: int)
    requires
        0 <= i <= headers.len(),
        forall|j: int| 0 <= j < i ==> #[trigger] headers[j] != column,
        i < headers.len() ==> headers[i] == column,
    ensures
        column_index(headers, column) == (if i < headers.len() {
            Some(i)
        } else {
            None::<int>
        }),
    decreases i,
{
    if i > 0 {
        assert forall|j: int| 0 <= j < i - 1 implies #[trigger] headers.drop_first()[j]
            != column by {
            assert(headers.drop_first()[j] == headers[j + 1]);
        }
        if i < headers.len() {
            assert(headers.drop_first()[i - 1] == headers[i]);
        }
        lemma_column_index(headers.drop_first(), column, i - 1);
        assert(headers[0] != column);
    }
}

/// The field at `index` of a record, or the empty text where the record is shorter.
pub open spec fn field_or_empty(fields: Seq<Seq<char>>, index: nat) -> Seq<char> {
    if index < fields.len() {
        fields[index as int]
    } else {
        seq![]
    }
}

/// A search of CSV records for those whose field in one column contains a keyword. It stops
/// after the hit that brings the count to the limit (a limit of `0` stops after the first).
pub struct CsvScan {
    column: usize,
    keyword: Vec<char>,
    limit: usize,
    count: usize,
    done: bool,
}

impl CsvScan {
    /// The index of the searched column.
    pub closed spec fn column(self) -> nat {
        self.column as nat
    }

    pub closed spec fn keyword(self) -> Seq<char> {
        self.keyword@
    }

    pub closed spec fn max_hits(self) -> nat {
        self.limit as nat
    }

    pub closed spec fn hits(self) -> nat {
        self.count as nat
    }

    pub closed spec fn finished(self) -> bool {
        self.done
    }

    /// The search is over exactly when a hit brought the count to the limit.
    pub open spec fn well_formed(self) -> bool {
        &&& self.hits() <= if self.max_hits() == 0 {
            1
        } else {
            self.max_hits()
        }
        &&& self.finished() <==> (self.hits() > 0 && self.hits() >= self.max_hits())
    }

    /// The search for `keyword` in the column named `column` of records with these headers;
    /// `None` where no header is `column`.
    pub fn new(headers: &[String], column: &String, keyword: &str, limit: usize) -> (r: Option<
        CsvScan,
    >)
        ensures
            match column_index(string_views(headers@), column@) {
                Some(i) => r matches Some(s) && s.column() == i && s.keyword() == keyword@
                    && s.max_hits() == limit && s.hits() == 0 && !s.finished()
                    && s.well_formed(),
                None => r is None,
            },
    {
        let mut i: usize = 0;
        while i < headers.len()
            invariant
                i <= headers@.len(),
                forall|j: int| 0 <= j < i ==> #[trigger] string_views(headers@)[j] != column@,
            decreases headers@.len() - i,
        {
            if headers[i].eq(column) {
                proof {
                    lemma_column_index(string_views(headers@), column@, i as int);
                }
                return Some(
                    CsvScan { column: i, keyword: chars_of(keyword), limit, count: 0, done: false },
                );
            }
            i = i + 1;
        }
        proof {
            lemma_column_index(string_views(headers@), column@, i as int);
        }
        None
    }

    pub fn is_done(&self) -> (b: bool)
        ensures
            b == self.finished(),
    {
        self.done
    }

    /// The number of hits so far.
    pub fn count(&self) -> (n: usize)
        ensures
            n == self.hits(),
    {
        self.count
    }

    /// Takes the next record: where its field in the column contains the keyword, the record's
    /// fields joined with `,` are returned and the hit is counted.
    pub fn feed(&mut self, fields: &[String]) -> (r: Option<String>)
        requires
            old(self).well_formed(),
            !old(self).finished(),
        ensures
            final(self).well_formed(),
            final(self).column() == old(self).column(),
            final(self).keyword() == old(self).keyword(),
            final(self).max_hits() == old(self).max_hits(),
            match r {
                Some(line) => {
                    &&& has_substring(
                        field_or_empty(string_views(fields@), old(self).column()),
                        old(self).keyword(),
                    )
                    &&& line@ == join(string_views(fields@), seq![','])
                    &&& final(self).hits() == old(self).hits() + 1
                },
                None => {
                    &&& !has_substring(
                        field_or_empty(string_views(fields@), old(self).column()),
                        old(self).keyword(),
                    )
                    &&& *final(self) == *old(self)
                },
            },
    {
        let field = if self.column < fields.len() {
            chars_of(fields[self.column].as_str())
        } else {
            Vec::new()
        };
        assert(field@ == field_or_empty(string_views(fields@), self.column as nat));
        if !contains_chars(field.as_slice(), self.keyword.as_slice()) {
            return None;
        }
        let mut parts: Vec<Vec<char>> = Vec::new();
        let mut i: usize = 0;
        while i < fields.len()
            invariant
                i <= fields@.len(),
                parts@.len() == i,
                crate::text::char_vecs(parts@) == string_views(fields@).take(i as int),
            decreases fields@.len() - i,
        {
            let ghost prev = parts@;
            let cs = chars_of(fields[i].as_str());
            parts.push(cs);
            proof {
                assert forall|k: int| 0 <= k < i + 1 implies #[trigger] crate::text::char_vecs(
                    parts@,
                )[k] == string_views(fields@).take(i + 1)[k] by {
                    if k < i {
                        assert(parts@[k] == prev[k]);
                        assert(crate::text::char_vecs(prev)[k] == string_views(fields@).take(
                            i as int,
                        )[k]);
                    }
                }
                assert(crate::text::char_vecs(parts@) =~= string_views(fields@).take(i + 1));
            }
            i = i + 1;
        }
        assert(string_views(fields@).take(fields@.len() as int) =~= string_views(fields@));
        let sep = vec![','];
        let joined = join_chars(parts.as_slice(), sep.as_slice());
        assert(sep@ =~= seq![',']);
        self.count = self.count + 1;
        if self.count >= self.limit {
            self.done = true;
        }
        Some(string_from_chars(joined.as_slice()))
    }
}

} // verus!
