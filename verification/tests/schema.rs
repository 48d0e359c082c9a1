use sqlite_query::error::Error;
use sqlite_query::record_handler::{RecordFormat, SchemaRecord};
use sqlite_query::records::{join_columns, Record, Records};
use sqlite_query::schema::{Plan, Schema};
use sqlite_query::sql_handler::{
    MappedSqlColumnVariant, MappedSqlStatement, MappedSqlWhereClause, MappedSqlWhereColumn,
    SqlOperator, SqlStatement,
};
use sqlite_query::tree_handler::{BTreeCell, BTreeLeafTableCell, BTreePage};

fn row(kind: &str, name: &str, table: &str, rootpage: u32, sql: &str) -> SchemaRecord {
    SchemaRecord {
        kind: kind.to_string(),
        name: name.to_string(),
        tbl_name: table.to_string(),
        rootpage,
        sql: sql.to_string(),
    }
}

fn text(s: &str) -> RecordFormat {
    RecordFormat::String(s.to_string())
}

fn catalog() -> Schema {
    Schema::new(vec![
        row("table", "apples", "apples", 2, "CREATE TABLE apples (id integer primary key, name text, color text)"),
        row("index", "idx_color", "apples", 5, "CREATE INDEX idx_color ON apples (color)"),
        row("table", "oranges", "oranges", 3, "CREATE TABLE oranges (id integer primary key, name text)"),
        row("index", "idx_name", "apples", 6, "CREATE INDEX idx_name ON apples (name)"),
        row("index", "idx_name_color", "apples", 7, "CREATE INDEX idx_name_color ON apples (name, color)"),
        row("index", "idx_name_again", "apples", 8, "CREATE INDEX idx_name_again ON apples (name, color)"),
        row("index", "idx_oranges", "oranges", 9, "CREATE INDEX idx_oranges ON oranges (name)"),
        row("view", "fruit", "fruit", 0, "CREATE VIEW fruit AS SELECT 1"),
    ])
}

#[test]
fn schema_rows_from_column_values() {
    let values = vec![
        text("table"),
        text("apples"),
        text("apples"),
        RecordFormat::Integer8(2),
        text("CREATE TABLE apples (id)"),
    ];
    let found = SchemaRecord::from_values(&values).unwrap();
    assert_eq!(found.kind, "table");
    assert_eq!(found.name, "apples");
    assert_eq!(found.tbl_name, "apples");
    assert_eq!(found.rootpage, 2);
    assert_eq!(found.sql, "CREATE TABLE apples (id)");
}

#[test]
fn schema_rows_take_every_kind_of_integer_as_root_page() {
    for (value, page) in [
        (RecordFormat::Integer8(3), 3u32),
        (RecordFormat::Integer16(300), 300),
        (RecordFormat::Integer24(70000), 70000),
        (RecordFormat::Integer32(1 << 30), 1 << 30),
        (RecordFormat::Integer48(u32::MAX as i64), u32::MAX),
        (RecordFormat::Integer64(5), 5),
        (RecordFormat::Integer0, 0),
        (RecordFormat::Integer1, 1),
    ] {
        let values = vec![text("table"), text("t"), text("t"), value, text("sql")];
        assert_eq!(SchemaRecord::from_values(&values).unwrap().rootpage, page);
    }
}

#[test]
fn schema_rows_without_a_statement_have_an_empty_one() {
    let values = vec![text("index"), text("auto"), text("t"), RecordFormat::Integer8(4), RecordFormat::NULL];
    assert_eq!(SchemaRecord::from_values(&values).unwrap().sql, "");
}

#[test]
fn schema_rows_of_another_shape_are_refused() {
    let good = || vec![text("table"), text("t"), text("t"), RecordFormat::Integer8(2), text("sql")];
    let mut short = good();
    short.pop();
    assert!(matches!(SchemaRecord::from_values(&short), Err(Error::MalformedRecord)));
    assert!(matches!(SchemaRecord::from_values(&vec![]), Err(Error::MalformedRecord)));
    for (at, value) in [
        (0, RecordFormat::NULL),
        (1, RecordFormat::Integer8(1)),
        (2, RecordFormat::Blob(vec![1])),
        (3, text("2")),
        (3, RecordFormat::NULL),
        (3, RecordFormat::Integer8(-1)),
        (3, RecordFormat::Integer64(1 << 32)),
        (4, RecordFormat::Integer8(1)),
        (4, RecordFormat::Float64(0)),
    ] {
        let mut values = good();
        values[at] = value;
        assert!(matches!(SchemaRecord::from_values(&values), Err(Error::MalformedRecord)));
    }
    let mut long = good();
    long.push(RecordFormat::NULL);
    assert!(SchemaRecord::from_values(&long).is_ok());
}

#[test]
fn tables_are_the_rows_of_kind_table() {
    let schema = catalog();
    let names: Vec<&str> = schema.tables().iter().map(|r| r.name.as_str()).collect();
    assert_eq!(names, vec!["apples", "oranges"]);
    assert!(Schema::new(vec![]).tables().is_empty());
}

#[test]
fn indexes_for_a_table() {
    let schema = catalog();
    let names: Vec<&str> = schema.indexes_for("apples").iter().map(|r| r.name.as_str()).collect();
    assert_eq!(names, vec!["idx_color", "idx_name", "idx_name_color", "idx_name_again"]);
    let names: Vec<&str> = schema.indexes_for("oranges").iter().map(|r| r.name.as_str()).collect();
    assert_eq!(names, vec!["idx_oranges"]);
    assert!(schema.indexes_for("pears").is_empty());
    assert!(schema.indexes_for("Apples").is_empty());
}

#[test]
fn find_table_gives_the_first_row_of_the_table() {
    let schema = catalog();
    assert_eq!(schema.find_table("apples").unwrap().rootpage, 2);
    assert_eq!(schema.find_table("oranges").unwrap().rootpage, 3);
    assert!(matches!(schema.find_table("pears"), Err(Error::TableNotFound)));
    assert!(matches!(schema.find_table("APPLES"), Err(Error::TableNotFound)));
    assert!(matches!(Schema::new(vec![]).find_table("apples"), Err(Error::TableNotFound)));
}

fn plan(sql: &str) -> Result<Plan, Error> {
    catalog().plan(&SqlStatement::new(sql).unwrap())
}

#[test]
fn a_statement_without_conditions_reads_the_table() {
    match plan("SELECT name FROM apples").unwrap() {
        Plan::TableScan { rootpage, statement } => {
            assert_eq!(rootpage, 2);
            assert_eq!(statement.column_variants, vec![MappedSqlColumnVariant::Column(1)]);
            assert!(statement.where_clause.is_none());
        }
        other => panic!("not a table scan: {:?}", other),
    }
}

#[test]
fn a_condition_that_no_index_answers_reads_the_table() {
    match plan("SELECT name FROM apples WHERE id = 3").unwrap() {
        Plan::TableScan { rootpage, statement } => {
            assert_eq!(rootpage, 2);
            let clause = statement.where_clause.unwrap();
            assert_eq!(clause.columns.len(), 1);
            assert!(clause.keys.is_empty());
        }
        other => panic!("not a table scan: {:?}", other),
    }
}

#[test]
fn the_index_that_answers_a_condition_is_used() {
    match plan("SELECT name FROM apples WHERE color = 'Red'").unwrap() {
        Plan::IndexScan { index_rootpage, table_rootpage, keys, statement } => {
            assert_eq!(index_rootpage, 5);
            assert_eq!(table_rootpage, 2);
            assert_eq!(keys, vec!["Red"]);
            let clause = statement.where_clause.unwrap();
            assert!(clause.columns.is_empty());
            assert_eq!(clause.keys.len(), 1);
        }
        other => panic!("not an index scan: {:?}", other),
    }
}

#[test]
fn of_indexes_that_answer_as_much_the_first_is_used() {
    match plan("SELECT name FROM apples WHERE name = 'Fuji'").unwrap() {
        Plan::IndexScan { index_rootpage, keys, .. } => {
            assert_eq!(index_rootpage, 6);
            assert_eq!(keys, vec!["Fuji"]);
        }
        other => panic!("not an index scan: {:?}", other),
    }
}

#[test]
fn the_index_that_answers_the_most_is_used() {
    match plan("SELECT name FROM apples WHERE color = 'Red' name = 'Fuji' id = 2").unwrap() {
        Plan::IndexScan { index_rootpage, keys, statement, .. } => {
            assert_eq!(index_rootpage, 7);
            assert_eq!(keys, vec!["Fuji", "Red"]);
            let clause = statement.where_clause.unwrap();
            assert_eq!(clause.columns.len(), 1);
            assert_eq!(clause.columns[0].column, 0);
        }
        other => panic!("not an index scan: {:?}", other),
    }
}

#[test]
fn an_index_of_another_table_is_not_used() {
    match plan("SELECT name FROM oranges WHERE name = 'Navel'").unwrap() {
        Plan::IndexScan { index_rootpage, table_rootpage, .. } => {
            assert_eq!(index_rootpage, 9);
            assert_eq!(table_rootpage, 3);
        }
        other => panic!("not an index scan: {:?}", other),
    }
}

#[test]
fn a_row_that_is_no_index_is_not_used_as_one() {
    let schema = Schema::new(vec![
        row("table", "apples", "apples", 2, "CREATE TABLE apples (id, name)"),
        row("trigger", "idx", "apples", 5, "CREATE INDEX idx ON apples (name)"),
    ]);
    let statement = SqlStatement::new("SELECT id FROM apples WHERE name = 'Fuji'").unwrap();
    assert!(matches!(schema.plan(&statement), Ok(Plan::TableScan { .. })));
}

#[test]
fn an_index_whose_statement_does_not_parse_is_not_used() {
    let schema = Schema::new(vec![
        row("table", "apples", "apples", 2, "CREATE TABLE apples (id, name)"),
        row("index", "sqlite_autoindex_apples_1", "apples", 5, ""),
        row("index", "idx", "apples", 6, "CREATE INDEX idx ON apples (name)"),
    ]);
    let statement = SqlStatement::new("SELECT id FROM apples WHERE name = 'Fuji'").unwrap();
    match schema.plan(&statement).unwrap() {
        Plan::IndexScan { index_rootpage, .. } => assert_eq!(index_rootpage, 6),
        other => panic!("not an index scan: {:?}", other),
    }
}

#[test]
fn plans_fail_as_the_statement_does() {
    assert!(matches!(plan("SELECT name FROM pears"), Err(Error::TableNotFound)));
    assert!(matches!(plan("SELECT taste FROM apples"), Err(Error::UnknownColumn)));
    assert!(matches!(plan("SELECT taste FROM apples WHERE name = 'Fuji'"), Err(Error::UnknownColumn)));
    assert!(matches!(plan("SELECT name FROM apples WHERE taste = 1"), Err(Error::UnknownColumn)));
    assert!(matches!(plan("SELECT * FROM fruit"), Err(Error::ParseError)));
}

fn leaf(row_id: i64, record: Vec<u8>) -> BTreeLeafTableCell {
    // A leaf page of one cell, laid out by hand.
    let mut cell = vec![record.len() as u8, row_id as u8];
    cell.extend(record);
    let mut page = vec![0u8; 64];
    let at = page.len() - cell.len();
    page[at..].copy_from_slice(&cell);
    page[0] = 0x0d;
    page[4] = 1;
    page[6] = at as u8;
    page[9] = at as u8;
    match BTreePage::new(page).unwrap().cells().unwrap().remove(0) {
        BTreeCell::LeafTableCell(cell) => cell,
        other => panic!("not a leaf table cell: {:?}", other),
    }
}

fn apple(row_id: i64, name: &str, color: &str) -> BTreeLeafTableCell {
    let mut record = vec![4, 0, 13 + 2 * name.len() as u8, 13 + 2 * color.len() as u8];
    record.extend_from_slice(name.as_bytes());
    record.extend_from_slice(color.as_bytes());
    leaf(row_id, record)
}

fn statement(columns: Vec<MappedSqlColumnVariant>, conditions: Vec<(usize, &str)>) -> MappedSqlStatement {
    MappedSqlStatement {
        column_variants: columns,
        where_clause: if conditions.is_empty() {
            None
        } else {
            Some(MappedSqlWhereClause {
                columns: conditions
                    .into_iter()
                    .map(|(column, value)| MappedSqlWhereColumn {
                        column,
                        operator: SqlOperator::Equal,
                        value: value.to_string(),
                    })
                    .collect(),
                keys: vec![],
            })
        },
    }
}

#[test]
fn records_show_the_rows_that_pass() {
    let mut records = Records::new(statement(
        vec![MappedSqlColumnVariant::Column(1), MappedSqlColumnVariant::Column(0)],
        vec![(2, "Red")],
    ));
    assert!(!records.is_count());
    assert!(records.push(apple(1, "Granny Smith", "Light Green")).unwrap().is_none());
    let shown = records.push(apple(2, "Fuji", "Red")).unwrap().unwrap();
    assert_eq!(shown.values, vec![text("Fuji"), RecordFormat::Integer64(2)]);
    assert!(records.push(apple(3, "Honeycrisp", "Blush Red")).unwrap().is_none());
    assert!(records.finish().is_none());
}

#[test]
fn records_without_conditions_show_every_row() {
    let mut records = Records::new(statement(vec![MappedSqlColumnVariant::EveryColumn], vec![]));
    let shown = records.push(apple(9, "Fuji", "Red")).unwrap().unwrap();
    assert_eq!(shown.values, vec![RecordFormat::Integer64(9), text("Fuji"), text("Red")]);
}

#[test]
fn records_count_the_rows_that_pass() {
    let mut records = Records::new(statement(vec![MappedSqlColumnVariant::Count], vec![(2, "Red")]));
    assert!(records.is_count());
    assert_eq!(records.finish().unwrap().values, vec![RecordFormat::Integer64(0)]);
    assert!(records.push(apple(1, "Granny Smith", "Light Green")).unwrap().is_none());
    assert!(records.push(apple(2, "Fuji", "Red")).unwrap().is_none());
    assert!(records.push(apple(3, "Gala", "Red")).unwrap().is_none());
    assert_eq!(records.finish().unwrap().values, vec![RecordFormat::Integer64(2)]);
}

#[test]
fn records_refuse_a_cell_that_holds_no_record() {
    let mut records = Records::new(statement(vec![MappedSqlColumnVariant::Count], vec![]));
    assert!(matches!(records.push(leaf(1, vec![2, 10])), Err(Error::MalformedRecord)));
    assert_eq!(records.finish().unwrap().values, vec![RecordFormat::Integer64(0)]);
}

#[test]
fn schema_rows_from_cells() {
    let mut record = vec![6, 23, 17, 17, 1, 15];
    record.extend_from_slice(b"table");
    record.extend_from_slice(b"ab");
    record.extend_from_slice(b"ab");
    record.push(2);
    record.extend_from_slice(b"x");
    let found = SchemaRecord::from(leaf(1, record)).unwrap();
    assert_eq!(
        (found.kind.as_str(), found.name.as_str(), found.tbl_name.as_str(), found.rootpage, found.sql.as_str()),
        ("table", "ab", "ab", 2, "x")
    );
    assert!(matches!(SchemaRecord::from(leaf(1, vec![2, 10])), Err(Error::MalformedRecord)));
    assert!(matches!(SchemaRecord::from(leaf(1, vec![2, 1, 5])), Err(Error::MalformedRecord)));
}

#[test]
fn join_columns_puts_a_bar_between_columns() {
    assert_eq!(join_columns(&vec![]), "");
    assert_eq!(join_columns(&vec!["4".to_string()]), "4");
    assert_eq!(join_columns(&vec!["2".to_string(), "Fuji".to_string(), "Red".to_string()]), "2|Fuji|Red");
    assert_eq!(join_columns(&vec![String::new(), String::new()]), "|");
}

#[test]
fn a_record_is_shown_by_the_texts_of_its_values() {
    let record = Record {
        values: vec![RecordFormat::NULL, RecordFormat::Integer0, RecordFormat::Integer1, text("x")],
    };
    let texts: Vec<String> = record.values.iter().map(|v| v.text().unwrap()).collect();
    assert_eq!(join_columns(&texts), "NULL|0|1|x");
}

#[test]
fn a_schema_row_is_cloned_field_by_field() {
    let index = row("index", "idx", "apples", 5, "CREATE INDEX idx ON apples (name)");
    let copy = index.clone();
    assert_eq!(
        (copy.kind, copy.name, copy.tbl_name, copy.rootpage, copy.sql),
        (index.kind, index.name, index.tbl_name, index.rootpage, index.sql)
    );
}

#[test]
fn records_next_shows_the_whole_record_for_a_star() {
    let records = Records::new(statement(vec![MappedSqlColumnVariant::EveryColumn], vec![]));
    let record = Record { values: vec![RecordFormat::Integer64(2), text("Fuji"), text("Red")] };
    let shown = records.next(Some(record)).unwrap();
    assert_eq!(shown.values, vec![RecordFormat::Integer64(2), text("Fuji"), text("Red")]);
    assert_eq!(shown.values.len(), 3);
}

#[test]
fn records_next_shows_named_columns_in_the_order_of_the_list() {
    let records = Records::new(statement(
        vec![
            MappedSqlColumnVariant::Column(2),
            MappedSqlColumnVariant::Column(0),
            MappedSqlColumnVariant::Column(2),
        ],
        vec![],
    ));
    let record = Record { values: vec![RecordFormat::Integer64(2), text("Fuji"), text("Red")] };
    let shown = records.next(Some(record)).unwrap();
    assert_eq!(shown.values, vec![text("Red"), RecordFormat::Integer64(2), text("Red")]);
}

#[test]
fn records_next_shows_one_value_for_a_count() {
    let records = Records::new(statement(vec![MappedSqlColumnVariant::Count], vec![]));
    let total = Record { values: vec![RecordFormat::Integer64(4)] };
    assert_eq!(records.next(Some(total)).unwrap().values, vec![RecordFormat::Integer64(4)]);
}

#[test]
fn records_next_has_nothing_to_show_when_upstream_is_at_its_end() {
    let records = Records::new(statement(vec![MappedSqlColumnVariant::EveryColumn], vec![]));
    assert!(records.next(None).is_none());
}
