//! The schema catalog and the choice of how a statement is answered.

use vstd::prelude::*;
use crate::error::Error;
use crate::record_handler::{SchemaRecord, SchemaView};
use crate::cursor::entry_equals;
use crate::record_handler::{texts_view, value_text, RecordValue};
use crate::sql_handler::{
    column_or_null, conjunct_holds, lemma_keys_follow_index, lemma_position_of,
    lemma_split_keeps_conditions, map_statement, position_of, row_matches, split_prefix,
    MappedConjunctView, MappedSqlStatement, MappedStatementView, SqlStatement, StatementView,
};
use crate::tokenizer::same_text;

verus! {

/// The rows of the schema table, in the order of its tree.
#[derive(Debug)]
pub struct Schema {
    pub schema_records: Vec<SchemaRecord>,
}

impl View for Schema {
    type V = Seq<SchemaView>;

    open spec fn view(&self) -> Seq<SchemaView> {
        Seq::new(self.schema_records@.len(), |i: int| self.schema_records@[i]@)
    }
}

/// The rows of `records` that `keep` accepts, in their order.
pub open spec fn select_rows(records: Seq<SchemaView>, keep: spec_fn(SchemaView) -> bool) -> Seq<
    SchemaView,
>
    decreases records.len(),
{
    if records.len() == 0 {
        Seq::empty()
    } else if keep(records.last()) {
        select_rows(records.drop_last(), keep).push(records.last())
    } else {
        select_rows(records.drop_last(), keep)
    }
}

/// Whether a schema row describes a table.
pub open spec fn is_table(r: SchemaView) -> bool {
    r.kind == "table"@
}

/// Whether a schema row describes an index on the table `table_name`.
pub open spec fn serves(r: SchemaView, table_name: Seq<char>) -> bool {
    r.kind == "index"@ && r.tbl_name == table_name
}

/// The views of a list of borrowed schema rows, in order.
pub open spec fn rows_view(v: Seq<&SchemaRecord>) -> Seq<SchemaView> {
    Seq::new(v.len(), |i: int| v[i]@)
}

/// The table that each schema row belongs to.
pub open spec fn table_names(records: Seq<SchemaView>) -> Seq<Seq<char>> {
    Seq::new(records.len(), |i: int| records[i].tbl_name)
}

/// The number of conditions of `statement` that the index described by
/// `index` would answer as keys: none where the statement does not resolve
/// against the table and the index.
pub open spec fn key_count(statement: StatementView, table: SchemaView, index: SchemaView) -> int {
    match map_statement(statement, table, Some(index)) {
        Ok(m) => match m.where_clause {
            Some(w) => w.keys.len() as int,
            None => 0,
        },
        Err(_) => 0,
    }
}

/// Whether the row at `i` is the index to use: an index on the table that
/// answers at least one condition, no index on the table answers more, and
/// no earlier one answers as many.
pub open spec fn is_best_index(
    records: Seq<SchemaView>,
    statement: StatementView,
    table: SchemaView,
    i: int,
) -> bool {
    &&& 0 <= i < records.len()
    &&& serves(records[i], statement.table_name)
    &&& key_count(statement, table, records[i]) >= 1
    &&& forall|j: int|
        0 <= j < records.len() && serves(#[trigger] records[j], statement.table_name)
            ==> key_count(statement, table, records[j]) <= key_count(statement, table, records[i])
    &&& forall|j: int|
        0 <= j < i && serves(#[trigger] records[j], statement.table_name) ==> key_count(
            statement,
            table,
            records[j],
        ) < key_count(statement, table, records[i])
}

/// Whether no index on the table answers any condition of `statement`.
pub open spec fn no_index_helps(
    records: Seq<SchemaView>,
    statement: StatementView,
    table: SchemaView,
) -> bool {
    forall|j: int|
        0 <= j < records.len() && serves(#[trigger] records[j], statement.table_name)
            ==> key_count(statement, table, records[j]) == 0
}

/// There is at most one index to use.
pub proof fn lemma_best_index_unique(
    records: Seq<SchemaView>,
    statement: StatementView,
    table: SchemaView,
    i: int,
    j: int,
)
    requires
        is_best_index(records, statement, table, i),
        is_best_index(records, statement, table, j),
    ensures
        i == j,
{
    if i < j {
        assert(serves(records[i], statement.table_name));
    } else if j < i {
        assert(serves(records[j], statement.table_name));
    }
}

/// Whether the index entry `entry` belongs to the row `row`: it holds, column
/// by column, what the row holds in the table columns that the index columns
/// name.
pub open spec fn entry_of_row(
    entry: Seq<RecordValue>,
    row: Seq<RecordValue>,
    index_columns: Seq<Seq<char>>,
    names: Seq<Seq<char>>,
) -> bool {
    &&& entry.len() == index_columns.len()
    &&& forall|k: int|
        0 <= k < index_columns.len() ==> (position_of(names, #[trigger] index_columns[k])
            matches Some(c) ==> entry[k] == column_or_null(row, c))
}

/// The values of a list of conditions, in order.
pub open spec fn values_of(conjuncts: Seq<MappedConjunctView>) -> Seq<Seq<char>> {
    Seq::new(conjuncts.len(), |i: int| conjuncts[i].value)
}

/// A row is accepted through an index exactly where it is accepted by
/// reading the table: where the index entry belongs to the row, the entry has
/// the keys and the row meets the residuals exactly where the row meets all
/// conditions of the statement.
pub proof fn lemma_index_accepts_same_rows(
    conjuncts: Seq<MappedConjunctView>,
    index_columns: Seq<Seq<char>>,
    names: Seq<Seq<char>>,
    row: Seq<RecordValue>,
    entry: Seq<RecordValue>,
)
    requires
        entry_of_row(entry, row, index_columns, names),
    ensures
        ({
            let (keys, rest) = split_prefix(conjuncts, index_columns, names);
            (entry_equals(entry, values_of(keys)) && row_matches(rest, row)) <==> row_matches(
                conjuncts,
                row,
            )
        }),
{
    let (keys, rest) = split_prefix(conjuncts, index_columns, names);
    lemma_split_keeps_conditions(conjuncts, index_columns, names, row);
    lemma_keys_follow_index(conjuncts, index_columns, names);
    assert forall|k: int| 0 <= k < keys.len() implies entry[k] == column_or_null(
        row,
        keys[k].column as int,
    ) by {
        assert(position_of(names, index_columns[k]) == Some(keys[k].column as int));
    }
    if entry_equals(entry, values_of(keys)) {
        assert forall|k: int| 0 <= k < keys.len() implies conjunct_holds(
            #[trigger] keys[k],
            row,
        ) by {
            assert(value_text(entry[k]) == Some(values_of(keys)[k]));
        }
    }
    if row_matches(keys, row) {
        assert forall|k: int| 0 <= k < values_of(keys).len() implies 
            value_text(#[trigger] entry[k]) == Some(values_of(keys)[k]) by {
            assert(conjunct_holds(keys[k], row));
        }
    }
}

/// How a statement is answered.
#[derive(Debug)]
pub enum Plan {
    /// Every row of the table is read, from the root page `rootpage`, and
    /// tested against all conditions.
    TableScan { rootpage: u32, statement: MappedSqlStatement },
    /// The index rooted at `index_rootpage` is searched for `keys`, each row
    /// it finds is fetched from the table rooted at `table_rootpage`, and the
    /// row is tested against the conditions that are left.
    IndexScan {
        index_rootpage: u32,
        table_rootpage: u32,
        keys: Vec<String>,
        statement: MappedSqlStatement,
    },
}

/// The values of the keys of a resolved statement, in order.
pub open spec fn key_values(statement: MappedStatementView) -> Seq<Seq<char>> {
    match statement.where_clause {
        Some(w) => Seq::new(w.keys.len(), |i: int| w.keys[i].value),
        None => Seq::empty(),
    }
}

impl Schema {
    /// The catalog of the schema rows `schema_records`.
    pub fn new(schema_records: Vec<SchemaRecord>) -> (res: Self)
        ensures
            res.schema_records == schema_records,
    {
        Schema { schema_records }
    }

    /// The rows that describe tables.
    pub fn tables(&self) -> (res: Vec<&SchemaRecord>)
        ensures
            rows_view(res@) == select_rows(self@, |r: SchemaView| is_table(r)),
    {
        let mut found: Vec<&SchemaRecord> = Vec::new();
        let mut i: usize = 0;
        let ghost keep = |r: SchemaView| is_table(r);
        assert(self@.take(0) =~= Seq::<SchemaView>::empty());
        assert(rows_view(found@) =~= Seq::<SchemaView>::empty());
        while i < self.schema_records.len()
            invariant
                i <= self.schema_records@.len(),
                keep == |r: SchemaView| is_table(r),
                rows_view(found@) == select_rows(self@.take(i as int), keep),
            decreases self.schema_records@.len() - i,
        {
            let ghost next = self@.take(i as int + 1);
            assert(next.drop_last() =~= self@.take(i as int));
            assert(next.last() == self.schema_records@[i as int]@);
            let r = &self.schema_records[i];
            if same_text(r.kind.as_str(), "table") {
                let ghost before = rows_view(found@);
                found.push(r);
                assert(rows_view(found@) =~= before.push(r@));
            }
            i = i + 1;
        }
        assert(self@.take(self@.len() as int) =~= self@);
        found
    }

    /// The rows that describe indexes on the table `table_name`.
    pub fn indexes_for(&self, table_name: &str) -> (res: Vec<&SchemaRecord>)
        ensures
            rows_view(res@) == select_rows(self@, |r: SchemaView| serves(r, table_name@)),
    {
        let mut found: Vec<&SchemaRecord> = Vec::new();
        let mut i: usize = 0;
        let ghost keep = |r: SchemaView| serves(r, table_name@);
        assert(self@.take(0) =~= Seq::<SchemaView>::empty());
        assert(rows_view(found@) =~= Seq::<SchemaView>::empty());
        while i < self.schema_records.len()
            invariant
                i <= self.schema_records@.len(),
                keep == |r: SchemaView| serves(r, table_name@),
                rows_view(found@) == select_rows(self@.take(i as int), keep),
            decreases self.schema_records@.len() - i,
        {
            let ghost next = self@.take(i as int + 1);
            assert(next.drop_last() =~= self@.take(i as int));
            assert(next.last() == self.schema_records@[i as int]@);
            let r = &self.schema_records[i];
            if same_text(r.kind.as_str(), "index") && same_text(r.tbl_name.as_str(), table_name) {
                let ghost before = rows_view(found@);
                found.push(r);
                assert(rows_view(found@) =~= before.push(r@));
            }
            i = i + 1;
        }
        assert(self@.take(self@.len() as int) =~= self@);
        found
    }

    /// The position of the first row that belongs to the table `name`.
    fn table_position(&self, name: &str) -> (res: Option<usize>)
        ensures
            match res {
                Some(i) => position_of(table_names(self@), name@) == Some(i as int) && i
                    < self.schema_records@.len(),
                None => position_of(table_names(self@), name@) is None,
            },
    {
        let mut i: usize = 0;
        while i < self.schema_records.len()
            invariant
                i <= self.schema_records@.len(),
                forall|j: int| 0 <= j < i ==> table_names(self@)[j] != name@,
            decreases self.schema_records@.len() - i,
        {
            if same_text(self.schema_records[i].tbl_name.as_str(), name) {
                proof {
                    assert(table_names(self@)[i as int] == name@);
                    lemma_position_of(table_names(self@), name@);
                }
                return Some(i);
            }
            i = i + 1;
        }
        proof {
            lemma_position_of(table_names(self@), name@);
        }
        None
    }

    /// The first row that belongs to the table `name`.
    pub fn find_table(&self, name: &str) -> (res: Result<&SchemaRecord, Error>)
        ensures
            match position_of(table_names(self@), name@) {
                Some(i) => res matches Ok(r) && r@ == self@[i],
                None => res matches Err(e) && e is TableNotFound,
            },
    {
        match self.table_position(name) {
            Some(i) => Ok(&self.schema_records[i]),
            None => Err(Error::TableNotFound),
        }
    }

    /// Chooses how `statement` is answered: through the index on its table
    /// that answers the most of its conditions, the first of them where
    /// several answer as many, or by reading the whole table where the
    /// statement has no conditions or no index answers any.
    pub fn plan(&self, statement: &SqlStatement) -> (res: Result<Plan, Error>)
        ensures
            match position_of(table_names(self@), statement@.table_name) {
                None => res matches Err(e) && e is TableNotFound,
                Some(t) => match res {
                    Ok(Plan::IndexScan { index_rootpage, table_rootpage, keys, statement: mapped }) => {
                        &&& statement@.where_clause is Some
                        &&& table_rootpage == self@[t].rootpage
                        &&& exists|i: int|
                            #![trigger self@[i]]
                            {
                                &&& is_best_index(self@, statement@, self@[t], i)
                                &&& index_rootpage == self@[i].rootpage
                                &&& map_statement(statement@, self@[t], Some(self@[i])) == Ok::<
                                    MappedStatementView,
                                    Error,
                                >(mapped@)
                            }
                        &&& texts_view(keys@) == key_values(mapped@)
                    },
                    Ok(Plan::TableScan { rootpage, statement: mapped }) => {
                        &&& statement@.where_clause is None || no_index_helps(
                            self@,
                            statement@,
                            self@[t],
                        )
                        &&& rootpage == self@[t].rootpage
                        &&& map_statement(statement@, self@[t], None) == Ok::<
                            MappedStatementView,
                            Error,
                        >(mapped@)
                    },
                    Err(e) => {
                        &&& statement@.where_clause is None || no_index_helps(
                            self@,
                            statement@,
                            self@[t],
                        )
                        &&& map_statement(statement@, self@[t], None) == Err::<
                            MappedStatementView,
                            Error,
                        >(e)
                    },
                },
            },
    {
        let t = match self.table_position(statement.table_name.as_str()) {
            Some(t) => t,
            None => {
                return Err(Error::TableNotFound);
            },
        };
        let table = &self.schema_records[t];
        assert(table@ == self@[t as int]);
        if statement.where_clause.is_some() {
            let mut best: Option<(usize, MappedSqlStatement)> = None;
            let mut best_count: usize = 0;
            let mut i: usize = 0;
            while i < self.schema_records.len()
                invariant
                    i <= self.schema_records@.len(),
                    table@ == self@[t as int],
                    match best {
                        None => best_count == 0,
                        Some((b, mapped)) => {
                            &&& b < i
                            &&& serves(self@[b as int], statement@.table_name)
                            &&& best_count >= 1
                            &&& best_count == key_count(statement@, table@, self@[b as int])
                            &&& map_statement(statement@, table@, Some(self@[b as int])) == Ok::<
                                MappedStatementView,
                                Error,
                            >(mapped@)
                            &&& forall|j: int|
                                0 <= j < b && serves(#[trigger] self@[j], statement@.table_name)
                                    ==> key_count(statement@, table@, self@[j]) < best_count
                        },
                    },
                    forall|j: int|
                        0 <= j < i && serves(#[trigger] self@[j], statement@.table_name)
                            ==> key_count(statement@, table@, self@[j]) <= best_count,
                decreases self.schema_records@.len() - i,
            {
                let r = &self.schema_records[i];
                assert(r@ == self@[i as int]);
                if same_text(r.kind.as_str(), "index") && same_text(
                    r.tbl_name.as_str(),
                    statement.table_name.as_str(),
                ) {
                    match statement.map(table, Some(r)) {
                        Ok(mapped) => {
                            let count = match &mapped.where_clause {
                                Some(w) => w.keys.len(),
                                None => 0,
                            };
                            if count > best_count {
                                best_count = count;
                                best = Some((i, mapped));
                            }
                        },
                        Err(_) => {},
                    }
                }
                i = i + 1;
            }
            match best {
                Some((b, mapped)) => {
                    let keys = match &mapped.where_clause {
                        Some(w) => w.keys(),
                        None => Vec::new(),
                    };
                    proof {
                        assert(is_best_index(self@, statement@, self@[t as int], b as int));
                        assert(texts_view(keys@) =~= key_values(mapped@));
                    }
                    return Ok(
                        Plan::IndexScan {
                            index_rootpage: self.schema_records[b].rootpage,
                            table_rootpage: table.rootpage,
                            keys,
                            statement: mapped,
                        },
                    );
                },
                None => {
                    assert(no_index_helps(self@, statement@, self@[t as int]));
                },
            }
        }
        match statement.map(table, None) {
            Ok(mapped) => Ok(Plan::TableScan { rootpage: table.rootpage, statement: mapped }),
            Err(e) => Err(e),
        }
    }
}

} // verus!
