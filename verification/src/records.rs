//! Rows: the decoded columns of one table cell.

use vstd::prelude::*;
use crate::error::Error;
use vstd::string::*;
use crate::record_handler::{texts_view, values_view, RecordFormat, RecordValue};
use crate::tokenizer::push_char;
use crate::sql_handler::{
    column_or_null, names_columns, projected, projected_width, row_matches,
    MappedSqlColumnVariant, MappedSqlStatement, MappedStatementView,
};
use crate::tree_handler::{decode_record, BTreeLeafTableCell};

verus! {

/// One row: its column values in table order.
#[derive(Debug)]
pub struct Record {
    pub values: Vec<RecordFormat>,
}

impl View for Record {
    type V = Seq<RecordValue>;

    open spec fn view(&self) -> Seq<RecordValue> {
        values_view(self.values@)
    }
}

/// The row that the stored columns `values` of the cell with row id `row_id`
/// present: a null in the first column stands for the row id itself.
pub open spec fn alias_row_id(values: Seq<RecordValue>, row_id: i64) -> Seq<RecordValue> {
    if values.len() > 0 && values[0] is Null {
        values.update(0, RecordValue::Integer64(row_id))
    } else {
        values
    }
}

impl Record {
    /// The row that a leaf cell of a table holds.
    pub fn from(cell: BTreeLeafTableCell) -> (res: Result<Self, Error>)
        ensures
            match res {
                Ok(r) => decode_record(cell.payload@) matches Some(values) && r@ == alias_row_id(
                    values,
                    cell.row_id.value,
                ),
                Err(e) => e is MalformedRecord && decode_record(cell.payload@) is None,
            },
    {
        let mut values = cell.values()?;
        let ghost stored = values_view(values@);
        let first_is_null = values.len() > 0 && match &values[0] {
            RecordFormat::NULL => true,
            _ => false,
        };
        if first_is_null {
            values[0] = RecordFormat::Integer64(cell.row_id.value);
            assert(values_view(values@) =~= alias_row_id(stored, cell.row_id.value));
        }
        Ok(Record { values })
    }
}

/// Whether a statement counts rows instead of showing them: its projection
/// list starts with a count.
pub open spec fn counts_rows(statement: MappedStatementView) -> bool {
    statement.column_variants.len() > 0 && statement.column_variants[0] is Count
}

/// Whether `row` meets the conditions of `statement` that are tested row by row.
pub open spec fn row_passes(statement: MappedStatementView, row: Seq<RecordValue>) -> bool {
    match statement.where_clause {
        Some(w) => row_matches(w.columns, row),
        None => true,
    }
}

/// The row that reports a count of `count` rows.
pub open spec fn count_row(statement: MappedStatementView, count: i64) -> Seq<RecordValue> {
    projected(statement.column_variants, seq![RecordValue::Integer64(count)])
}

/// What is made of the rows of a scan: each row that passes the statement's
/// conditions is projected or, where the statement counts, counted.
pub struct Records {
    statement: MappedSqlStatement,
    count: i64,
}

impl Records {
    /// The statement whose rows are made.
    pub closed spec fn statement(&self) -> MappedStatementView {
        self.statement@
    }

    /// The number of rows counted so far.
    pub closed spec fn count(&self) -> i64 {
        self.count
    }

    /// The start of the rows of `sql_statement`: nothing is counted yet.
    pub fn new(sql_statement: MappedSqlStatement) -> (res: Self)
        ensures
            res.statement() == sql_statement@,
            res.count() == 0,
    {
        Records { statement: sql_statement, count: 0 }
    }

    /// Takes what comes next from upstream, a record or the news that none
    /// is left, and returns the row to show: the record as the projection
    /// list of the statement makes it, and none where upstream is at its end.
    /// A lone `*` shows the record itself, with all its columns in the order
    /// of the table; a list of named columns shows one value for each name.
    pub fn next(&self, upstream: Option<Record>) -> (res: Option<Record>)
        ensures
            res is None <==> upstream is None,
            match (upstream, res) {
                (Some(r), Some(out)) => {
                    let items = self.statement().column_variants;
                    &&& out@ == projected(items, r@)
                    &&& out@.len() == projected_width(items, r@.len() as int)
                    &&& items == seq![MappedSqlColumnVariant::EveryColumn] ==> out@ == r@
                    &&& names_columns(items) ==> {
                        &&& out@.len() == items.len()
                        &&& forall|j: int|
                            0 <= j < items.len() ==> (
                            #[trigger] items[j] matches MappedSqlColumnVariant::Column(i)
                                && out@[j] == column_or_null(r@, i as int))
                    }
                },
                _ => true,
            },
    {
        match upstream {
            Some(record) => Some(self.statement.project(&record)),
            None => None,
        }
    }

    /// Takes the next cell of the scan and returns the row to show for it,
    /// if there is one: none for a row that fails a condition, and none
    /// while rows are counted.
    pub fn push(&mut self, cell: BTreeLeafTableCell) -> (res: Result<Option<Record>, Error>)
        ensures
            final(self).statement() == old(self).statement(),
            match decode_record(cell.payload@) {
                None => res matches Err(e) && e is MalformedRecord && final(self).count() == old(
                    self,
                ).count(),
                Some(values) => {
                    let row = alias_row_id(values, cell.row_id.value);
                    let passes = row_passes(old(self).statement(), row);
                    let counts = counts_rows(old(self).statement());
                    &&& res matches Ok(shown)
                    &&& final(self).count() == if passes && counts && old(self).count()
                        < i64::MAX {
                        (old(self).count() + 1) as i64
                    } else {
                        old(self).count()
                    }
                    &&& match shown {
                        Some(r) => passes && !counts && r@ == projected(
                            old(self).statement().column_variants,
                            row,
                        ),
                        None => !passes || counts,
                    }
                },
            },
    {
        let record = match Record::from(cell) {
            Ok(record) => record,
            Err(e) => {
                return Err(e);
            },
        };
        let passes = match &self.statement.where_clause {
            Some(w) => w.matches(&record),
            None => true,
        };
        if !passes {
            return Ok(None);
        }
        if self.is_count() {
            if self.count < i64::MAX {
                self.count = self.count + 1;
            }
            Ok(None)
        } else {
            Ok(self.next(Some(record)))
        }
    }

    /// Whether the rows are counted instead of shown.
    pub fn is_count(&self) -> (r: bool)
        ensures
            r == counts_rows(self.statement()),
    {
        self.statement.column_variants.len() > 0 && match self.statement.column_variants[0] {
            MappedSqlColumnVariant::Count => true,
            _ => false,
        }
    }

    /// The row that closes the scan: the count, where rows were counted.
    pub fn finish(&self) -> (res: Option<Record>)
        ensures
            match res {
                Some(r) => counts_rows(self.statement()) && r@ == count_row(
                    self.statement(),
                    self.count(),
                ),
                None => !counts_rows(self.statement()),
            },
    {
        if self.is_count() {
            let mut values: Vec<RecordFormat> = Vec::new();
            values.push(RecordFormat::Integer64(self.count));
            let total = Record { values };
            assert(total@ =~= seq![RecordValue::Integer64(self.count)]);
            self.next(Some(total))
        } else {
            None
        }
    }
}

/// The line that shows a row: the texts of its columns with a `|` between
/// each two of them.
pub open spec fn row_text(texts: Seq<Seq<char>>) -> Seq<char>
    decreases texts.len(),
{
    if texts.len() == 0 {
        Seq::empty()
    } else if texts.len() == 1 {
        texts[0]
    } else {
        row_text(texts.drop_last()) + seq!['|'] + texts.last()
    }
}

/// Joins the texts of the columns of a row into the line that shows it.
pub fn join_columns(texts: &Vec<String>) -> (line: String)
    ensures
        line@ == row_text(texts_view(texts@)),
{
    let mut line = String::new();
    let mut i: usize = 0;
    let ghost all = texts_view(texts@);
    assert(all.take(0) =~= Seq::<Seq<char>>::empty());
    while i < texts.len()
        invariant
            i <= texts@.len(),
            all == texts_view(texts@),
            line@ == row_text(all.take(i as int)),
        decreases texts@.len() - i,
    {
        let ghost next = all.take(i as int + 1);
        assert(next.drop_last() =~= all.take(i as int));
        assert(next.last() == texts@[i as int]@);
        let ghost before = line@;
        if i > 0 {
            push_char(&mut line, '|');
        }
        line.append(texts[i].as_str());
        proof {
            if i > 0 {
                assert(line@ =~= before + seq!['|'] + texts@[i as int]@);
            } else {
                assert(line@ =~= texts@[i as int]@);
            }
        }
        i = i + 1;
    }
    assert(all.take(all.len() as int) =~= all);
    line
}

} // verus!
