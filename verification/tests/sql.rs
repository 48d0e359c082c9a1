use sqlite_query::error::Error;
use sqlite_query::record_handler::{RecordFormat, SchemaRecord};
use sqlite_query::records::Record;
use sqlite_query::tokenizer::Tokenizer;
use sqlite_query::sql_handler::{
    find_name, keyword_of, Keyword, MappedSqlColumnVariant, MappedSqlStatement,
    MappedSqlWhereClause, MappedSqlWhereColumn, SqlColumnVariant, SqlOperator, SqlStatement,
    SqlWhereClause,
};

fn apples() -> SchemaRecord {
    SchemaRecord {
        kind: "table".to_string(),
        name: "apples".to_string(),
        tbl_name: "apples".to_string(),
        rootpage: 2,
        sql: "CREATE TABLE apples\n(\n\tid integer primary key autoincrement,\n\tname text,\n\tcolor text\n)"
            .to_string(),
    }
}

fn index_on(name: &str, columns: &str) -> SchemaRecord {
    SchemaRecord {
        kind: "index".to_string(),
        name: name.to_string(),
        tbl_name: "apples".to_string(),
        rootpage: 4,
        sql: format!("CREATE INDEX {} on apples ({})", name, columns),
    }
}

fn conditions(clause: &SqlWhereClause) -> Vec<(String, String)> {
    clause
        .columns
        .iter()
        .map(|c| (c.column.clone(), c.value.clone()))
        .collect()
}

fn mapped(columns: &[MappedSqlWhereColumn]) -> Vec<(usize, String)> {
    columns.iter().map(|c| (c.column, c.value.clone())).collect()
}

fn row(values: Vec<RecordFormat>) -> Record {
    Record { values }
}

fn text(s: &str) -> RecordFormat {
    RecordFormat::String(s.to_string())
}

#[test]
fn select_star() {
    let statement = SqlStatement::new("SELECT * FROM apples").unwrap();
    assert_eq!(statement.column_variants, vec![SqlColumnVariant::EveryColumn]);
    assert_eq!(statement.table_name, "apples");
    assert!(statement.where_clause.is_none());
}

#[test]
fn select_count() {
    let statement = SqlStatement::new("select count(*) from apples").unwrap();
    assert_eq!(statement.column_variants, vec![SqlColumnVariant::Count]);
    assert_eq!(statement.table_name, "apples");
    let statement = SqlStatement::new("SELECT COUNT(id) FROM apples").unwrap();
    assert_eq!(statement.column_variants, vec![SqlColumnVariant::Count]);
}

#[test]
fn select_named_columns() {
    let statement = SqlStatement::new("SELECT name, color FROM apples").unwrap();
    assert_eq!(
        statement.column_variants,
        vec![
            SqlColumnVariant::Column("name".to_string()),
            SqlColumnVariant::Column("color".to_string()),
        ]
    );
}

#[test]
fn keywords_are_read_in_any_case_and_names_keep_theirs() {
    let statement = SqlStatement::new("sElEcT Name fRoM Apples wHeRe Color = 'Red'").unwrap();
    assert_eq!(statement.column_variants, vec![SqlColumnVariant::Column("Name".to_string())]);
    assert_eq!(statement.table_name, "Apples");
    assert_eq!(
        conditions(statement.where_clause.as_ref().unwrap()),
        vec![("Color".to_string(), "Red".to_string())]
    );
}

#[test]
fn where_with_a_quoted_string() {
    let statement = SqlStatement::new("SELECT id, name FROM apples WHERE color = 'Yellow'").unwrap();
    assert_eq!(
        conditions(statement.where_clause.as_ref().unwrap()),
        vec![("color".to_string(), "Yellow".to_string())]
    );
    let statement = SqlStatement::new("SELECT id FROM apples WHERE color = \"Light Green\"").unwrap();
    assert_eq!(
        conditions(statement.where_clause.as_ref().unwrap()),
        vec![("color".to_string(), "Light Green".to_string())]
    );
}

#[test]
fn where_with_a_number_or_a_word() {
    let statement = SqlStatement::new("SELECT * FROM apples WHERE id = 42").unwrap();
    assert_eq!(
        conditions(statement.where_clause.as_ref().unwrap()),
        vec![("id".to_string(), "42".to_string())]
    );
    let statement = SqlStatement::new("SELECT * FROM apples WHERE id = 007").unwrap();
    assert_eq!(
        conditions(statement.where_clause.as_ref().unwrap()),
        vec![("id".to_string(), "7".to_string())]
    );
    let statement = SqlStatement::new("SELECT * FROM apples WHERE color = NULL").unwrap();
    assert_eq!(
        conditions(statement.where_clause.as_ref().unwrap()),
        vec![("color".to_string(), "NULL".to_string())]
    );
}

#[test]
fn where_with_several_conditions_one_after_another() {
    let statement =
        SqlStatement::new("SELECT * FROM apples WHERE name = 'Fuji' color = 'Red' id = 2").unwrap();
    assert_eq!(
        conditions(statement.where_clause.as_ref().unwrap()),
        vec![
            ("name".to_string(), "Fuji".to_string()),
            ("color".to_string(), "Red".to_string()),
            ("id".to_string(), "2".to_string()),
        ]
    );
}

#[test]
fn where_without_conditions() {
    let statement = SqlStatement::new("SELECT * FROM apples WHERE").unwrap();
    assert_eq!(conditions(statement.where_clause.as_ref().unwrap()), vec![]);
    let clause = SqlWhereClause::new("  where  ").unwrap();
    assert!(clause.columns.is_empty());
}

#[test]
fn statements_that_do_not_parse() {
    for sql in [
        "",
        "SELECT",
        "SELECT *",
        "SELECT * FROM",
        "SELECT FROM apples",
        "INSERT * FROM apples",
        "SELECT * FROM 'apples'",
        "SELECT * FROM 12",
        "SELECT 12 FROM apples",
        "SELECT 'name' FROM apples",
        "SELECT ; FROM apples",
        "SELECT COUNT FROM apples",
        "SELECT COUNT( FROM apples",
        "SELECT COUNT(* FROM apples",
        "SELECT COUNT() FROM apples",
        "SELECT * FROM apples LIMIT 1",
        "SELECT * FROM apples WHERE name",
        "SELECT * FROM apples WHERE name =",
        "SELECT * FROM apples WHERE name < 1",
        "SELECT * FROM apples WHERE name = =",
        "SELECT * FROM apples WHERE 'name' = 1",
        "SELECT * FROM apples WHERE name = 'Fuji' AND",
        "SELECT * FROM apples WHERE name = 'Fuji",
        "SELECT * FROM apples WHERE id = 99999999999999999999",
    ] {
        assert!(
            matches!(SqlStatement::new(sql), Err(Error::ParseError)),
            "{:?} should not parse",
            sql
        );
    }
}

#[test]
fn commas_between_projection_items_may_be_missing_or_many() {
    let statement = SqlStatement::new("SELECT name color,, id, FROM apples").unwrap();
    assert_eq!(
        statement.column_variants,
        vec![
            SqlColumnVariant::Column("name".to_string()),
            SqlColumnVariant::Column("color".to_string()),
            SqlColumnVariant::Column("id".to_string()),
        ]
    );
}

#[test]
fn where_clause_alone() {
    let clause = SqlWhereClause::new("WHERE a = 1").unwrap();
    assert_eq!(conditions(&clause), vec![("a".to_string(), "1".to_string())]);
    assert_eq!(clause.columns[0].operator, SqlOperator::Equal);
    assert!(matches!(SqlWhereClause::new("a = 1"), Err(Error::ParseError)));
    assert!(matches!(SqlWhereClause::new(""), Err(Error::ParseError)));
    assert!(matches!(SqlWhereClause::new("WHERE a = ("), Err(Error::ParseError)));
}

#[test]
fn keyword_of_knows_from_and_count() {
    assert_eq!(keyword_of("from"), Keyword::From);
    assert_eq!(keyword_of("count"), Keyword::Count);
    assert_eq!(keyword_of("FROM"), Keyword::Other);
    assert_eq!(keyword_of("fro"), Keyword::Other);
    assert_eq!(keyword_of(""), Keyword::Other);
}

#[test]
fn find_name_gives_the_first_position() {
    let names = vec!["id".to_string(), "name".to_string(), "id".to_string()];
    assert_eq!(find_name(&names, "id"), Some(0));
    assert_eq!(find_name(&names, "name"), Some(1));
    assert_eq!(find_name(&names, "Name"), None);
    assert_eq!(find_name(&vec![], "id"), None);
}

#[test]
fn table_column_names_of_a_create_statement() {
    assert_eq!(apples().table_column_names().unwrap(), vec!["id", "name", "color"]);
}

#[test]
fn table_column_names_with_quoted_names() {
    let mut table = apples();
    table.name = "my table".to_string();
    table.sql = "create table \"my table\" (\"first col\" text, 'second' int not null, third)".to_string();
    assert_eq!(table.table_column_names().unwrap(), vec!["first col", "second", "third"]);
}

#[test]
fn table_column_names_refuses_other_statements() {
    let mut table = apples();
    for sql in [
        "",
        "CREATE",
        "CREATE TABLE",
        "CREATE TABLE apples",
        "CREATE TABLE apples (",
        "CREATE TABLE apples ()",
        "CREATE TABLE apples (id",
        "CREATE TABLE apples (id,",
        "CREATE TABLE apples (id, )",
        "CREATE TABLE apples (1 integer)",
        "CREATE TABLE apples (, id)",
        "CREATE TABLE oranges (id)",
        "CREATE INDEX apples (id)",
        "CREATE TABLE apples id)",
        "DROP TABLE apples (id)",
    ] {
        table.sql = sql.to_string();
        assert!(
            matches!(table.table_column_names(), Err(Error::ParseError)),
            "{:?} should be refused",
            sql
        );
    }
}

#[test]
fn table_names_are_compared_with_their_case() {
    let mut table = apples();
    table.name = "Apples".to_string();
    assert!(matches!(table.table_column_names(), Err(Error::ParseError)));
}

#[test]
fn index_columns_of_a_create_statement() {
    assert_eq!(index_on("idx_apples_name", "name").index_columns().unwrap(), vec!["name"]);
    assert_eq!(
        index_on("idx2", "color desc, \"name\"").index_columns().unwrap(),
        vec!["color", "name"]
    );
}

#[test]
fn index_columns_refuses_other_statements() {
    let mut index = index_on("idx", "name");
    for sql in [
        "",
        "CREATE INDEX idx",
        "CREATE INDEX idx ON",
        "CREATE INDEX idx ON apples",
        "CREATE INDEX idx ON apples (",
        "CREATE INDEX idx ON apples ()",
        "CREATE INDEX idx ON oranges (name)",
        "CREATE INDEX other ON apples (name)",
        "CREATE TABLE idx ON apples (name)",
        "CREATE INDEX idx IN apples (name)",
        "CREATE UNIQUE INDEX idx ON apples (name)",
    ] {
        index.sql = sql.to_string();
        assert!(
            matches!(index.index_columns(), Err(Error::ParseError)),
            "{:?} should be refused",
            sql
        );
    }
}

#[test]
fn map_resolves_projection_columns() {
    let statement = SqlStatement::new("SELECT color, id, *, COUNT(*) FROM apples").unwrap();
    let mapped = statement.map(&apples(), None).unwrap();
    assert_eq!(
        mapped.column_variants,
        vec![
            MappedSqlColumnVariant::Column(2),
            MappedSqlColumnVariant::Column(0),
            MappedSqlColumnVariant::EveryColumn,
            MappedSqlColumnVariant::Count,
        ]
    );
    assert!(mapped.where_clause.is_none());
}

#[test]
fn map_refuses_unknown_columns() {
    let statement = SqlStatement::new("SELECT taste FROM apples").unwrap();
    assert!(matches!(statement.map(&apples(), None), Err(Error::UnknownColumn)));
    let statement = SqlStatement::new("SELECT name FROM apples WHERE taste = 'sweet'").unwrap();
    assert!(matches!(statement.map(&apples(), None), Err(Error::UnknownColumn)));
    let statement = SqlStatement::new("SELECT Name FROM apples").unwrap();
    assert!(matches!(statement.map(&apples(), None), Err(Error::UnknownColumn)));
}

#[test]
fn map_refuses_a_table_whose_statement_does_not_parse() {
    let mut table = apples();
    table.sql = "CREATE VIEW apples".to_string();
    let statement = SqlStatement::new("SELECT * FROM apples").unwrap();
    assert!(matches!(statement.map(&table, None), Err(Error::ParseError)));
}

#[test]
fn map_without_an_index_leaves_every_condition_to_the_rows() {
    let statement = SqlStatement::new("SELECT * FROM apples WHERE name = 'Fuji' color = 'Red'").unwrap();
    let clause = statement.map(&apples(), None).unwrap().where_clause.unwrap();
    assert_eq!(mapped(&clause.columns), vec![(1, "Fuji".to_string()), (2, "Red".to_string())]);
    assert!(clause.keys.is_empty());
    assert!(clause.keys().is_empty());
}

#[test]
fn map_with_an_index_makes_its_conditions_keys() {
    let statement = SqlStatement::new("SELECT * FROM apples WHERE color = 'Red' name = 'Fuji'").unwrap();
    let index = index_on("idx_apples_name", "name");
    let clause = statement.map(&apples(), Some(&index)).unwrap().where_clause.unwrap();
    assert_eq!(mapped(&clause.keys), vec![(1, "Fuji".to_string())]);
    assert_eq!(mapped(&clause.columns), vec![(2, "Red".to_string())]);
    assert_eq!(clause.keys(), vec!["Fuji"]);
}

#[test]
fn keys_come_in_the_order_of_the_index() {
    let statement = SqlStatement::new("SELECT * FROM apples WHERE color = 'Red' name = 'Fuji' id = 2").unwrap();
    let index = index_on("idx", "name, color");
    let clause = statement.map(&apples(), Some(&index)).unwrap().where_clause.unwrap();
    assert_eq!(clause.keys(), vec!["Fuji", "Red"]);
    assert_eq!(mapped(&clause.columns), vec![(0, "2".to_string())]);
}

#[test]
fn keys_stop_at_the_first_index_column_without_a_condition() {
    let statement = SqlStatement::new("SELECT * FROM apples WHERE color = 'Red'").unwrap();
    let index = index_on("idx", "name, color");
    let clause = statement.map(&apples(), Some(&index)).unwrap().where_clause.unwrap();
    assert!(clause.keys.is_empty());
    assert_eq!(mapped(&clause.columns), vec![(2, "Red".to_string())]);

    let statement = SqlStatement::new("SELECT * FROM apples WHERE name = 'Fuji'").unwrap();
    let clause = statement.map(&apples(), Some(&index)).unwrap().where_clause.unwrap();
    assert_eq!(clause.keys(), vec!["Fuji"]);
    assert!(clause.columns.is_empty());
}

#[test]
fn keys_stop_at_an_index_column_that_the_table_lacks() {
    let statement = SqlStatement::new("SELECT * FROM apples WHERE name = 'Fuji'").unwrap();
    let index = index_on("idx", "taste, name");
    let clause = statement.map(&apples(), Some(&index)).unwrap().where_clause.unwrap();
    assert!(clause.keys.is_empty());
    assert_eq!(mapped(&clause.columns), vec![(1, "Fuji".to_string())]);
}

#[test]
fn only_the_first_condition_on_a_column_becomes_a_key() {
    let statement = SqlStatement::new("SELECT * FROM apples WHERE name = 'Fuji' name = 'Gala'").unwrap();
    let index = index_on("idx", "name");
    let clause = statement.map(&apples(), Some(&index)).unwrap().where_clause.unwrap();
    assert_eq!(clause.keys(), vec!["Fuji"]);
    assert_eq!(mapped(&clause.columns), vec![(1, "Gala".to_string())]);
}

#[test]
fn map_refuses_an_index_whose_statement_does_not_parse() {
    let statement = SqlStatement::new("SELECT * FROM apples WHERE name = 'Fuji'").unwrap();
    let mut index = index_on("idx", "name");
    index.sql = String::new();
    assert!(matches!(statement.map(&apples(), Some(&index)), Err(Error::ParseError)));
    // Without conditions the index is not looked at.
    let statement = SqlStatement::new("SELECT * FROM apples").unwrap();
    assert!(statement.map(&apples(), Some(&index)).is_ok());
}

#[test]
fn where_clause_map_alone() {
    let clause = SqlWhereClause::new("WHERE color = 'Red'").unwrap();
    let mapped_clause = clause.map(&apples(), None).unwrap();
    assert_eq!(mapped(&mapped_clause.columns), vec![(2, "Red".to_string())]);
    let mut table = apples();
    table.sql = "nothing".to_string();
    assert!(matches!(clause.map(&table, None), Err(Error::ParseError)));
    let names = vec!["color".to_string()];
    let mapped_clause = clause.map_with(&names, None).unwrap();
    assert_eq!(mapped(&mapped_clause.columns), vec![(0, "Red".to_string())]);
    assert!(matches!(clause.map_with(&vec![], None), Err(Error::UnknownColumn)));
}

fn clause(columns: Vec<(usize, &str)>) -> MappedSqlWhereClause {
    MappedSqlWhereClause {
        columns: columns
            .into_iter()
            .map(|(column, value)| MappedSqlWhereColumn {
                column,
                operator: SqlOperator::Equal,
                value: value.to_string(),
            })
            .collect(),
        keys: vec![],
    }
}

#[test]
fn matches_compares_text_forms() {
    let fuji = row(vec![RecordFormat::Integer64(2), text("Fuji"), text("Red")]);
    assert!(clause(vec![]).matches(&fuji));
    assert!(clause(vec![(1, "Fuji")]).matches(&fuji));
    assert!(clause(vec![(1, "Fuji"), (2, "Red")]).matches(&fuji));
    assert!(!clause(vec![(1, "Fuji"), (2, "Green")]).matches(&fuji));
    assert!(!clause(vec![(1, "fuji")]).matches(&fuji));
    assert!(clause(vec![(0, "2")]).matches(&fuji));
    assert!(!clause(vec![(0, "02")]).matches(&fuji));
}

#[test]
fn matches_sees_numbers_nulls_and_blobs_by_their_text() {
    let values = row(vec![
        RecordFormat::Integer8(-1),
        RecordFormat::NULL,
        RecordFormat::Integer1,
        RecordFormat::Blob(vec![1, 2]),
        text("7"),
    ]);
    assert!(clause(vec![(0, "-1")]).matches(&values));
    assert!(clause(vec![(1, "NULL")]).matches(&values));
    assert!(clause(vec![(2, "1")]).matches(&values));
    assert!(clause(vec![(3, "[1, 2]")]).matches(&values));
    assert!(clause(vec![(4, "7")]).matches(&values));
    assert!(!clause(vec![(1, "")]).matches(&values));
}

#[test]
fn a_double_meets_no_condition() {
    let values = row(vec![RecordFormat::Float64(1.5f64.to_bits())]);
    assert!(!clause(vec![(0, "1.5")]).matches(&values));
    assert!(!clause(vec![(0, "")]).matches(&values));
}

#[test]
fn a_column_that_the_row_lacks_counts_as_null() {
    let short = row(vec![RecordFormat::Integer8(1)]);
    assert!(clause(vec![(3, "NULL")]).matches(&short));
    assert!(!clause(vec![(3, "1")]).matches(&short));
}

fn statement(column_variants: Vec<MappedSqlColumnVariant>) -> MappedSqlStatement {
    MappedSqlStatement { column_variants, where_clause: None }
}

#[test]
fn project_named_columns() {
    let fuji = row(vec![RecordFormat::Integer64(2), text("Fuji"), text("Red")]);
    let shown = statement(vec![
        MappedSqlColumnVariant::Column(2),
        MappedSqlColumnVariant::Column(1),
    ])
    .project(&fuji);
    assert_eq!(shown.values, vec![text("Red"), text("Fuji")]);
}

#[test]
fn project_every_column() {
    let fuji = row(vec![RecordFormat::Integer64(2), text("Fuji"), text("Red")]);
    let shown = statement(vec![MappedSqlColumnVariant::EveryColumn]).project(&fuji);
    assert_eq!(shown.values, fuji.values);
    let shown = statement(vec![
        MappedSqlColumnVariant::Column(1),
        MappedSqlColumnVariant::EveryColumn,
    ])
    .project(&fuji);
    assert_eq!(
        shown.values,
        vec![text("Fuji"), RecordFormat::Integer64(2), text("Fuji"), text("Red")]
    );
}

#[test]
fn project_count_takes_the_first_column() {
    let total = row(vec![RecordFormat::Integer64(4)]);
    let shown = statement(vec![MappedSqlColumnVariant::Count]).project(&total);
    assert_eq!(shown.values, vec![RecordFormat::Integer64(4)]);
}

#[test]
fn project_gives_null_for_a_column_that_the_row_lacks() {
    let short = row(vec![RecordFormat::Integer8(1)]);
    let shown = statement(vec![
        MappedSqlColumnVariant::Column(0),
        MappedSqlColumnVariant::Column(5),
    ])
    .project(&short);
    assert_eq!(shown.values, vec![RecordFormat::Integer8(1), RecordFormat::NULL]);
    let shown = statement(vec![MappedSqlColumnVariant::Count]).project(&row(vec![]));
    assert_eq!(shown.values, vec![RecordFormat::NULL]);
}

#[test]
fn projected_rows_have_the_width_of_their_projection() {
    let fuji = row(vec![RecordFormat::Integer64(2), text("Fuji"), text("Red")]);
    assert_eq!(statement(vec![MappedSqlColumnVariant::EveryColumn]).project(&fuji).values.len(), 3);
    assert_eq!(statement(vec![MappedSqlColumnVariant::Count]).project(&fuji).values.len(), 1);
    assert_eq!(
        statement(vec![MappedSqlColumnVariant::Column(1), MappedSqlColumnVariant::Column(1)])
            .project(&fuji)
            .values
            .len(),
        2
    );
    assert_eq!(statement(vec![]).project(&fuji).values.len(), 0);
}

#[test]
fn text_that_cannot_be_read_after_the_table_name_is_refused() {
    for sql in [
        "SELECT * FROM apples 'x",
        "SELECT * FROM apples 99999999999999999999",
        "SELECT * FROM apples \"x",
        "SELECT * FROM apples \u{0663}",
        "SELECT * FROM apples   'it''s",
        "SELECT COUNT(*) FROM apples\n\t9223372036854775808",
    ] {
        assert!(
            matches!(SqlStatement::new(sql), Err(Error::ParseError)),
            "{:?} should not parse",
            sql
        );
    }
}

#[test]
fn white_space_after_the_table_name_ends_the_statement() {
    for sql in ["SELECT * FROM apples", "SELECT * FROM apples ", "SELECT * FROM apples \n\t  "] {
        let statement = SqlStatement::new(sql).unwrap();
        assert_eq!(statement.table_name, "apples");
        assert!(statement.where_clause.is_none());
    }
}

#[test]
fn text_that_cannot_be_read_after_a_condition_is_refused() {
    for sql in [
        "SELECT * FROM apples WHERE name = 'Fuji' 'x",
        "SELECT * FROM apples WHERE name = 'Fuji' 99999999999999999999",
        "SELECT * FROM apples WHERE 'x",
        "SELECT * FROM apples WHERE name = 'Fuji' color = 'Red' \"",
    ] {
        assert!(
            matches!(SqlStatement::new(sql), Err(Error::ParseError)),
            "{:?} should not parse",
            sql
        );
    }
    assert!(matches!(SqlWhereClause::new("WHERE a = 1 'x"), Err(Error::ParseError)));
    assert!(matches!(SqlWhereClause::new("WHERE 99999999999999999999"), Err(Error::ParseError)));
    let clause = SqlWhereClause::new("WHERE a = 1 \n ").unwrap();
    assert_eq!(conditions(&clause), vec![("a".to_string(), "1".to_string())]);
}

#[test]
fn a_where_clause_is_read_from_where_the_tokenizer_stands() {
    let mut tokenizer = Tokenizer::new("FROM apples WHERE color = 'Red' id = 2");
    tokenizer.next();
    tokenizer.next();
    let clause = SqlWhereClause::read(&mut tokenizer).unwrap();
    assert_eq!(
        conditions(&clause),
        vec![("color".to_string(), "Red".to_string()), ("id".to_string(), "2".to_string())]
    );
    let mut tokenizer = Tokenizer::new("apples color = 'Red'");
    tokenizer.next();
    assert!(matches!(SqlWhereClause::read(&mut tokenizer), Err(Error::ParseError)));
    let mut tokenizer = Tokenizer::new("apples 'x");
    tokenizer.next();
    assert!(matches!(SqlWhereClause::read(&mut tokenizer), Err(Error::ParseError)));
    let mut tokenizer = Tokenizer::new("");
    assert!(matches!(SqlWhereClause::read(&mut tokenizer), Err(Error::ParseError)));
}
