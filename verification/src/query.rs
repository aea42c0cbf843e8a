//! Query expressions over the text of a record, and their evaluation.
use vstd::prelude::*;

use crate::storage::{ReadError, Reader, Record, RecordModel};
use crate::text::{chars_of, contains_chars, has_substring};

verus! {

/// A boolean expression over the text of one record.
#[derive(Debug)]
pub enum Expr {
    Contains(String),
    And(Box<Expr>, Box<Expr>),
    Or(Box<Expr>, Box<Expr>),
    Not(Box<Expr>),
}

/// The mathematical content of an [`Expr`]: keywords as character sequences.
pub enum ExprModel {
    Contains(Seq<char>),
    And(Box<ExprModel>, Box<ExprModel>),
    Or(Box<ExprModel>, Box<ExprModel>),
    Not(Box<ExprModel>),
}

impl ExprModel {
    /// Whether the expression holds of `text`.
    pub open spec fn holds(self, text: Seq<char>) -> bool
        decreases self,
    {
        match self {
            ExprModel::Contains(k) => has_substring(text, k),
            ExprModel::And(a, b) => a.holds(text) && b.holds(text),
            ExprModel::Or(a, b) => a.holds(text) || b.holds(text),
            ExprModel::Not(a) => !a.holds(text),
        }
    }
}

impl Expr {
    /// The model of this expression.
    pub open spec fn model(self) -> ExprModel
        decreases self,
    {
        match self {
            Expr::Contains(k) => ExprModel::Contains(k@),
            Expr::And(a, b) => ExprModel::And(Box::new(a.model()), Box::new(b.model())),
            Expr::Or(a, b) => ExprModel::Or(Box::new(a.model()), Box::new(b.model())),
            Expr::Not(a) => ExprModel::Not(Box::new(a.model())),
        }
    }

    /// Evaluates the expression on text given as characters.
    pub fn eval_chars(&self, text: &[char]) -> (b: bool)
        ensures
            b == self.model().holds(text@),
        decreases self,
    {
        match self {
            Expr::Contains(keyword) => {
                let k = chars_of(keyword.as_str());
                contains_chars(text, k.as_slice())
            },
            Expr::And(a, b) => a.eval_chars(text) && b.eval_chars(text),
            Expr::Or(a, b) => a.eval_chars(text) || b.eval_chars(text),
            Expr::Not(a) => !a.eval_chars(text),
        }
    }

    /// Evaluates the expression on `text`: `Contains(k)` holds when `k` occurs in `text`,
    /// and the connectives combine their operands as their names say.
    pub fn eval(&self, text: &str) -> (b: bool)
        ensures
            b == self.model().holds(text@),
    {
        let t = chars_of(text);
        self.eval_chars(t.as_slice())
    }
}

/// A query: an expression and the most records to report (`0` means no limit).
#[derive(Debug)]
pub struct Query {
    pub expr: Expr,
    pub limit: usize,
}

/// The model of a [`Query`].
pub struct QueryModel {
    pub expr: ExprModel,
    pub limit: nat,
}

impl Query {
    pub open spec fn model(self) -> QueryModel {
        QueryModel { expr: self.expr.model(), limit: self.limit as nat }
    }

    /// A query for the records that contain `keyword`.
    pub fn new(keyword: String, limit: usize) -> (q: Query)
        ensures
            q.model() == (QueryModel { expr: ExprModel::Contains(keyword@), limit: limit as nat }),
    {
        Query { expr: Expr::Contains(keyword), limit }
    }

    /// A query for the records on which `expr` holds.
    pub fn from_expr(expr: Expr, limit: usize) -> (q: Query)
        ensures
            q.expr == expr,
            q.limit == limit,
    {
        Query { expr, limit }
    }
}

/// What a query run does with the records `items`, where `remaining` more may be reported
/// (`0`: no limit): the records it reports, the error that ends it, if any, and how many
/// records it takes from the reader.
pub struct QueryOutcome {
    pub reported: Seq<RecordModel>,
    pub error: Option<ReadError>,
    pub consumed: nat,
}

/// A run reports, in order, each record on which `e` holds; it stops after the record that
/// uses up the limit, and fails at the first record that cannot be read before that.
pub open spec fn query_outcome(
    items: Seq<Result<RecordModel, ReadError>>,
    e: ExprModel,
    remaining: nat,
) -> QueryOutcome
    decreases items.len(),
{
    if items.len() == 0 {
        QueryOutcome { reported: seq![], error: None, consumed: 0 }
    } else {
        match items[0] {
            Err(x) => QueryOutcome { reported: seq![], error: Some(x), consumed: 1 },
            Ok(r) => if e.holds(r.data) && remaining == 1 {
                QueryOutcome { reported: seq![r], error: None, consumed: 1 }
            } else {
                let rest = query_outcome(
                    items.drop_first(),
                    e,
                    if e.holds(r.data) {
                        remaining_after(remaining)
                    } else {
                        remaining
                    },
                );
                QueryOutcome {
                    reported: if e.holds(r.data) {
                        seq![r] + rest.reported
                    } else {
                        rest.reported
                    },
                    error: rest.error,
                    consumed: rest.consumed + 1,
                }
            },
        }
    }
}

/// Every record that a query run reports satisfies the query's expression and is one of the
/// records read; a run with a limit reports at most that many; a run that fails fails with
/// the error of a record it could not read; and a run takes no more records than there are.
pub proof fn law_query_reports(
    items: Seq<Result<RecordModel, ReadError>>,
    e: ExprModel,
    remaining: nat,
)
    ensures
        ({
            let o = query_outcome(items, e, remaining);
            &&& remaining > 0 ==> o.reported.len() <= remaining
            &&& forall|k: int| 0 <= k < o.reported.len() ==> e.holds(#[trigger] o.reported[k].data)
            &&& forall|k: int|
                0 <= k < o.reported.len() ==> items.contains(Ok(#[trigger] o.reported[k]))
            &&& o.error matches Some(x) ==> items.contains(Err(x))
            &&& o.consumed <= items.len()
        }),
    decreases items.len(),
{
    if items.len() > 0 {
        let rest_items = items.drop_first();
        assert forall|x: Result<RecordModel, ReadError>| rest_items.contains(x) implies items.contains(
            x,
        ) by {
            let j = choose|j: int| 0 <= j < rest_items.len() && rest_items[j] == x;
            assert(items[j + 1] == x);
        }
        match items[0] {
            Err(x) => {
                assert(items[0] == Err::<RecordModel, ReadError>(x));
            },
            Ok(r) => {
                assert(items[0] == Ok::<RecordModel, ReadError>(r));
                if !(e.holds(r.data) && remaining == 1) {
                    let next = if e.holds(r.data) {
                        remaining_after(remaining)
                    } else {
                        remaining
                    };
                    law_query_reports(rest_items, e, next);
                    let rest = query_outcome(rest_items, e, next);
                    let o = query_outcome(items, e, remaining);
                    if e.holds(r.data) {
                        assert forall|k: int| 0 <= k < o.reported.len() implies e.holds(
                            #[trigger] o.reported[k].data,
                        ) && items.contains(Ok(o.reported[k])) by {
                            if k > 0 {
                                assert(o.reported[k] == rest.reported[k - 1]);
                            }
                        }
                    }
                }
            },
        }
    }
}

pub open spec fn record_models(v: Seq<Record>) -> Seq<RecordModel> {
    v.map_values(|r: Record| r.model())
}

/// How many more records may be reported after one more is reported, when `remaining` could
/// be before (`0`: no limit).
pub open spec fn remaining_after(remaining: nat) -> nat {
    if remaining > 1 {
        (remaining - 1) as nat
    } else {
        0
    }
}

/// The decisions of a query run, one record at a time: whether a record is reported, and when
/// the run is over.
pub struct QueryScan {
    expr: Expr,
    remaining: usize,
    done: bool,
}

impl QueryScan {
    /// The expression that the reported records satisfy.
    pub closed spec fn expr(self) -> ExprModel {
        self.expr.model()
    }

    /// How many more records may be reported (`0`: no limit).
    pub closed spec fn remaining(self) -> nat {
        self.remaining as nat
    }

    /// Whether the limit was reached.
    pub closed spec fn finished(self) -> bool {
        self.done
    }

    /// The run of `query`, before the first record.
    pub fn new(query: Query) -> (s: QueryScan)
        ensures
            s.expr() == query.expr.model(),
            s.remaining() == query.limit,
            !s.finished(),
    {
        QueryScan { expr: query.expr, remaining: query.limit, done: false }
    }

    pub fn is_done(&self) -> (b: bool)
        ensures
            b == self.finished(),
    {
        self.done
    }

    /// Takes the next record: it is reported when the expression holds of its text, and the
    /// run is over once the last record that the limit allows is reported.
    pub fn feed(&mut self, record: &Record) -> (report: bool)
        requires
            !old(self).finished(),
        ensures
            final(self).expr() == old(self).expr(),
            report == old(self).expr().holds(record.data@),
            report ==> final(self).finished() == (old(self).remaining() == 1)
                && final(self).remaining() == remaining_after(old(self).remaining()),
            !report ==> *final(self) == *old(self),
    {
        let report = self.expr.eval(record.data.as_str());
        if report {
            if self.remaining == 1 {
                self.done = true;
                self.remaining = 0;
            } else if self.remaining > 1 {
                self.remaining = self.remaining - 1;
            }
        }
        report
    }
}

/// Runs queries over readers.
pub struct QueryEngine;

impl QueryEngine {
    /// Reads records until the reader is exhausted, appending to `found` each record on which
    /// the query's expression holds, and stops once `limit` records were reported (when
    /// `limit > 0`), leaving the later records unread. A record that cannot be read ends the
    /// run with the reader's error, the records reported before it staying in `found`.
    /// Returns the number of records reported.
    pub fn run<R: Reader>(reader: &mut R, query: Query, found: &mut Vec<Record>) -> (r: Result<
        usize,
        ReadError,
    >)
        ensures
            record_models(final(found)@) == record_models(old(found)@) + query_outcome(
                old(reader).upcoming(),
                query.expr.model(),
                query.limit as nat,
            ).reported,
            match query_outcome(old(reader).upcoming(), query.expr.model(), query.limit as nat).error {
                Some(x) => r == Err::<usize, ReadError>(x),
                None => {
                    &&& r == Ok::<usize, ReadError>(
                        query_outcome(
                            old(reader).upcoming(),
                            query.expr.model(),
                            query.limit as nat,
                        ).reported.len() as usize,
                    )
                    &&& final(reader).upcoming() == old(reader).upcoming().skip(
                        query_outcome(
                            old(reader).upcoming(),
                            query.expr.model(),
                            query.limit as nat,
                        ).consumed as int,
                    )
                },
            },
    {
        let ghost e = query.expr.model();
        let ghost all = reader.upcoming();
        let ghost goal = query_outcome(all, e, query.limit as nat);
        let ghost start = record_models(found@);
        let start_len = found.len();
        let mut scan = QueryScan::new(query);
        let ghost mut k: int = 0;
        assert(all.skip(0) =~= all);
        assert(start + Seq::<RecordModel>::empty() =~= start);
        loop
            invariant
                e == query.expr.model(),
                all == old(reader).upcoming(),
                goal == query_outcome(all, e, query.limit as nat),
                start == record_models(old(found)@),
                start_len == old(found)@.len(),
                scan.expr() == e,
                !scan.finished(),
                0 <= k <= all.len(),
                reader.upcoming() == all.skip(k),
                ({
                    let cur = query_outcome(reader.upcoming(), e, scan.remaining());
                    &&& goal.reported == record_models(found@).skip(start_len as int) + cur.reported
                    &&& goal.error == cur.error
                    &&& goal.consumed == k + cur.consumed
                }),
                record_models(found@).take(start_len as int) == start,
                found@.len() >= start_len,
            decreases reader.upcoming().len(),
        {
            let ghost up = reader.upcoming();
            let ghost before = record_models(found@);
            match reader.next_record() {
                Err(err) => {
                    proof {
                        assert(before =~= start + before.skip(start_len as int));
                        assert(goal.reported =~= before.skip(start_len as int));
                    }
                    return Err(err);
                },
                Ok(None) => {
                    proof {
                        assert(before =~= start + before.skip(start_len as int));
                        assert(goal.reported =~= before.skip(start_len as int));
                        assert(all.skip(k) =~= reader.upcoming());
                    }
                    return Ok(found.len() - start_len);
                },
                Ok(Some(record)) => {
                    let ghost rm = record.model();
                    let ghost rem = scan.remaining();
                    let ghost rest_items = up.drop_first();
                    proof {
                        assert(up[0] == Ok::<RecordModel, ReadError>(rm));
                        assert(all.skip(k + 1) =~= rest_items);
                    }
                    if scan.feed(&record) {
                        found.push(record);
                        proof {
                            assert(record_models(found@) =~= before.push(rm));
                            assert(record_models(found@).skip(start_len as int) =~= before.skip(
                                start_len as int,
                            ).push(rm));
                            assert(record_models(found@).take(start_len as int) =~= before.take(
                                start_len as int,
                            ));
                        }
                        if scan.is_done() {
                            proof {
                                let fm = record_models(found@);
                                assert(fm =~= start + fm.skip(start_len as int));
                                assert(goal.reported =~= fm.skip(start_len as int));
                            }
                            return Ok(found.len() - start_len);
                        }
                        proof {
                            let cur2 = query_outcome(rest_items, e, scan.remaining());
                            assert(before.skip(start_len as int) + (seq![rm] + cur2.reported)
                                =~= before.skip(start_len as int).push(rm) + cur2.reported);
                        }
                    }
                    proof {
                        k = k + 1;
                    }
                },
            }
        }
    }
}

} // verus!
