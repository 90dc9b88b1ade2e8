//! Query execution: matching, filtering, projection and aggregation.
use vstd::prelude::*;

pub mod executor;
pub mod functions;
pub mod storage;

use crate::engine::executor::{
    all_aggregate, has_aggregate, is_aggregate, item_columns, mixed_return, result_rows, QueryExecutor,
};
use crate::graph::Graph;
use crate::parser::ast::ReturnItem;
use crate::parser::{aggregates_agree, parse_query, query_reads, query_wf, ParseError};
use crate::text::text_eq;
use crate::value::{JsonValue, Scalar};

verus! {

/// Why a query failed.
#[derive(Debug)]
pub enum EngineError {
    ParseError(ParseError),
    ExecutionError(String),
    InvalidJson(String),
}

pub type EngineResult<T> = Result<T, EngineError>;

impl EngineError {
    /// The text of the message: the failing phase, then the cause.
    pub open spec fn spec_message(&self) -> Seq<char> {
        match self {
            EngineError::ParseError(e) => "Parse error: "@ + e.spec_message(),
            EngineError::ExecutionError(m) => "Execution error: "@ + m@,
            EngineError::InvalidJson(m) => "Invalid JSON structure: "@ + m@,
        }
    }

    /// A one-line description of the error, naming the failing phase.
    pub fn message(&self) -> (r: String)
        ensures
            r@ == self.spec_message(),
    {
        match self {
            EngineError::ParseError(e) => String::from_str("Parse error: ").concat(e.message().as_str()),
            EngineError::ExecutionError(m) => String::from_str("Execution error: ").concat(m.as_str()),
            EngineError::InvalidJson(m) => String::from_str("Invalid JSON structure: ").concat(m.as_str()),
        }
    }
}

/// A row as the contracts speak of it: column names with scalars, in order.
pub type RowView = Seq<(Seq<char>, Scalar)>;

/// The entries of a row object are those of `row`.
pub open spec fn entries_are(es: Seq<(String, JsonValue)>, row: RowView) -> bool {
    &&& es.len() == row.len()
    &&& forall|k: int|
        #![trigger es[k]]
        0 <= k < es.len() ==> es[k].0@ == row[k].0 && es[k].1.spec_is(row[k].1)
}

/// `v` is an object whose entries are those of `row`.
pub open spec fn row_is(v: JsonValue, row: RowView) -> bool {
    v matches JsonValue::Object(es) && entries_are(es@, row)
}

/// The columns that a row has, in column order, each once.
pub open spec fn present_keys(row: JsonValue, cols: Seq<String>, n: int) -> Seq<Seq<char>>
    decreases n,
{
    if n <= 0 {
        Seq::empty()
    } else {
        let prev = present_keys(row, cols, n - 1);
        let c = cols[n - 1]@;
        if row.spec_get(c) is Some && !prev.contains(c) {
            prev.push(c)
        } else {
            prev
        }
    }
}

/// `a` is a copy of `b`: the same JSON value.
pub open spec fn copy_of(a: JsonValue, b: JsonValue) -> bool {
    crate::value::json_eq(b, a)
}

/// The entries `es` hold the keys `keys`, in order, each with a copy of the row's value.
pub open spec fn flat_entries(es: Seq<(String, JsonValue)>, keys: Seq<Seq<char>>, row: JsonValue) -> bool {
    &&& es.len() == keys.len()
    &&& forall|k: int|
        0 <= k < es.len() ==> (#[trigger] es[k]).0@ == keys[k] && (row.spec_get(keys[k]) matches Some(v)
            && copy_of(es[k].1, v))
}

/// `v` is the flattened object of `row` over the columns `cols`.
pub open spec fn flat_row(v: JsonValue, row: JsonValue, cols: Seq<String>) -> bool {
    v matches JsonValue::Object(es) && flat_entries(es@, present_keys(row, cols, cols.len() as int), row)
}

/// The result of a query: column names, and one object per row that maps
/// each column to its value.
#[derive(Debug)]
pub struct QueryResult {
    pub columns: Vec<String>,
    pub rows: Vec<JsonValue>,
}

impl QueryResult {
    /// The result has the columns `cols` and the rows `rows`, in order.
    pub open spec fn is_table(&self, cols: Seq<Seq<char>>, rows: Seq<RowView>) -> bool {
        &&& self.columns@.len() == cols.len()
        &&& forall|i: int| 0 <= i < cols.len() ==> #[trigger] self.columns@[i]@ == cols[i]
        &&& self.rows@.len() == rows.len()
        &&& forall|r: int| 0 <= r < rows.len() ==> row_is(#[trigger] self.rows@[r], rows[r])
    }

    pub fn new(columns: Vec<String>, rows: Vec<JsonValue>) -> (r: QueryResult)
        ensures
            r.columns == columns,
            r.rows == rows,
    {
        QueryResult { columns, rows }
    }

    /// The rows as an array of objects; each holds, for every column the row
    /// has (once, in column order), a copy of the row's value.
    pub fn as_json_array(&self) -> (r: JsonValue)
        ensures
            r matches JsonValue::Array(a) && a@.len() == self.rows@.len() && forall|i: int|
                0 <= i < a@.len() ==> flat_row(#[trigger] a@[i], self.rows@[i], self.columns@),
    {
        let mut arr: Vec<JsonValue> = Vec::new();
        let mut i: usize = 0;
        while i < self.rows.len()
            invariant
                i <= self.rows@.len(),
                arr@.len() == i,
                forall|j: int| 0 <= j < i ==> flat_row(#[trigger] arr@[j], self.rows@[j], self.columns@),
            decreases self.rows.len() - i,
        {
            let row = &self.rows[i];
            let mut obj: Vec<(String, JsonValue)> = Vec::new();
            let mut c: usize = 0;
            while c < self.columns.len()
                invariant
                    i < self.rows@.len(),
                    *row == self.rows@[i as int],
                    c <= self.columns@.len(),
                    flat_entries(obj@, present_keys(*row, self.columns@, c as int), *row),
                decreases self.columns.len() - c,
            {
                let col = &self.columns[c];
                let ghost keys = present_keys(*row, self.columns@, c as int);
                let mut seen = false;
                let mut k: usize = 0;
                while k < obj.len()
                    invariant
                        k <= obj@.len(),
                        flat_entries(obj@, keys, *row),
                        seen ==> keys.contains(col@),
                        !seen ==> forall|q: int| 0 <= q < k ==> keys[q] != col@,
                    decreases obj.len() - k,
                {
                    if text_eq(obj[k].0.as_str(), col.as_str()) {
                        proof {
                            assert(obj@[k as int].0@ == keys[k as int]);
                        }
                        seen = true;
                    }
                    k = k + 1;
                }
                proof {
                    if !seen {
                        assert(!keys.contains(col@));
                    }
                }
                if !seen {
                    match row.get(col.as_str()) {
                        Some(v) => {
                            let ghost before = obj@;
                            obj.push((col.clone(), crate::value::copy_json(v)));
                            proof {
                                let nk = present_keys(*row, self.columns@, c + 1);
                                assert(nk == keys.push(col@));
                                assert forall|q: int| 0 <= q < obj@.len() implies (#[trigger] obj@[q]).0@ == nk[q] && (row.spec_get(nk[q]) matches Some(w) && copy_of(obj@[q].1, w)) by {
                                    if q < before.len() {
                                        assert(obj@[q] == before[q]);
                                        assert(before[q].0@ == keys[q]);
                                    } else {
                                        assert(row.spec_get(col@) == Some(*v));
                                    }
                                }
                                assert(flat_entries(obj@, nk, *row));
                            }
                        },
                        None => {
                            proof {
                                assert(present_keys(*row, self.columns@, c + 1) == keys);
                            }
                        },
                    }
                } else {
                    proof {
                        assert(present_keys(*row, self.columns@, c + 1) == keys);
                    }
                }
                c = c + 1;
            }
            let ghost before = arr@;
            arr.push(JsonValue::Object(obj));
            proof {
                assert forall|j: int| 0 <= j < i + 1 implies flat_row(#[trigger] arr@[j], self.rows@[j], self.columns@) by {
                    if j < i {
                        assert(arr@[j] == before[j]);
                    }
                }
            }
            i = i + 1;
        }
        JsonValue::Array(arr)
    }

    /// The value of the single column of the single row; `None` unless the
    /// result has exactly one row and one column.
    pub fn get_single_value(&self) -> (r: Option<&JsonValue>)
        ensures
            self.rows@.len() == 1 && self.columns@.len() == 1 ==> (r matches Some(v)
                ==> self.rows@[0].spec_get(self.columns@[0]@) == Some(*v)) && (r is None
                ==> self.rows@[0].spec_get(self.columns@[0]@) is None),
            !(self.rows@.len() == 1 && self.columns@.len() == 1) ==> r is None,
    {
        if self.rows.len() == 1 && self.columns.len() == 1 {
            self.rows[0].get(self.columns[0].as_str())
        } else {
            None
        }
    }
}

/// Two RETURN lists that agree item by item on which are aggregates are
/// mixed alike.
pub proof fn lemma_mixed_alike(a: Seq<ReturnItem>, b: Seq<ReturnItem>)
    requires
        a.len() == b.len(),
        aggregates_agree(a, b, a.len() as int),
    ensures
        mixed_return(a) == mixed_return(b),
{
    assert forall|j: int| 0 <= j < a.len() implies (is_aggregate(#[trigger] a[j]) <==> is_aggregate(b[j])) by {
        assert(a[j].expression is Aggregate <==> b[j].expression is Aggregate);
    }
    if has_aggregate(a) {
        let j = choose|j: int| 0 <= j < a.len() && is_aggregate(#[trigger] a[j]);
        assert(is_aggregate(b[j]));
    }
    if has_aggregate(b) {
        let j = choose|j: int| 0 <= j < b.len() && is_aggregate(#[trigger] b[j]);
        assert(is_aggregate(a[j]));
    }
    if !all_aggregate(a) {
        let j = choose|j: int| 0 <= j < a.len() && !is_aggregate(#[trigger] a[j]);
        assert(!is_aggregate(b[j]));
    }
    if !all_aggregate(b) {
        let j = choose|j: int| 0 <= j < b.len() && !is_aggregate(#[trigger] b[j]);
        assert(!is_aggregate(a[j]));
    }
}

/// Parses `query` and runs it against `graph`. Text that reads as a query
/// (`query_reads`) always parses: it then yields the table of that query, or
/// an `ExecutionError` when its RETURN mixes aggregates with other items.
/// Only text that reads as no query gives a `ParseError`.
pub fn execute(query: &str, graph: &Graph) -> (r: EngineResult<QueryResult>)
    requires
        graph.wf(),
    ensures
        r matches Err(e) ==> e is ParseError || e is ExecutionError,
        r matches Err(EngineError::ParseError(e)) ==> crate::parser::parse_failure(query@, e),
        !crate::parser::keyword_at(query@, crate::parser::ws_end(query@, 0), crate::parser::match_keyword()) ==> (r matches Err(
            EngineError::ParseError(ParseError::MissingMatch),
        )),
        r matches Err(EngineError::ParseError(_)) ==> !exists|q: crate::parser::ast::Query|
            #[trigger] query_reads(query@, q),
        forall|q: crate::parser::ast::Query|
            #[trigger] query_reads(query@, q) ==> (!mixed_return(q.return_clause.items@) <==> r is Ok),
        forall|q: crate::parser::ast::Query|
            #[trigger] query_reads(query@, q) && mixed_return(q.return_clause.items@) ==> (r matches Err(
                EngineError::ExecutionError(_),
            )),
        r matches Err(EngineError::ExecutionError(_)) ==> exists|q: crate::parser::ast::Query|
            query_reads(query@, q) && mixed_return(q.return_clause.items@),
        r matches Ok(res) ==> exists|q: crate::parser::ast::Query|
            query_reads(query@, q) && query_wf(q) && !mixed_return(q.return_clause.items@) && res.is_table(
                item_columns(q.return_clause.items@),
                result_rows(q, *graph),
            ),
{
    match parse_query(query) {
        Ok(ast_query) => {
            let r = QueryExecutor::execute(&ast_query, graph);
            proof {
                assert forall|q: crate::parser::ast::Query| #[trigger] query_reads(query@, q) implies mixed_return(
                    q.return_clause.items@,
                ) == mixed_return(ast_query.return_clause.items@) by {
                    lemma_mixed_alike(ast_query.return_clause.items@, q.return_clause.items@);
                }
            }
            r
        },
        Err(e) => Err(EngineError::ParseError(e)),
    }
}

} // verus!
