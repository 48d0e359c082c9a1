//! The `SELECT` dialect: parsing a statement, resolving its columns against a
//! table, and applying its conditions and its projection to rows.

use vstd::prelude::*;
use crate::error::Error;
use crate::record_handler::{
    decimal_string, decimal_text, index_columns_of, table_columns_of, texts_view, value_text,
    values_view, RecordFormat, RecordValue, SchemaRecord, SchemaView,
};
use crate::records::Record;
use crate::tree_handler::prepend;
use crate::tokenizer::{
    lemma_token_bounds, lowercase, push_char, same_text, skip_spaces, tag_matches, to_lower,
    token_at, Token, TokenView, Tokenizer,
};

verus! {

/// One item of a projection list.
#[derive(Debug, PartialEq)]
pub enum SqlColumnVariant {
    /// `COUNT(...)`.
    Count,
    /// A column, by name.
    Column(String),
    /// `*`.
    EveryColumn,
}

/// What one item of a projection list holds.
pub enum ColumnView {
    Count,
    Column(Seq<char>),
    EveryColumn,
}

impl View for SqlColumnVariant {
    type V = ColumnView;

    open spec fn view(&self) -> ColumnView {
        match *self {
            SqlColumnVariant::Count => ColumnView::Count,
            SqlColumnVariant::Column(s) => ColumnView::Column(s@),
            SqlColumnVariant::EveryColumn => ColumnView::EveryColumn,
        }
    }
}

/// One item of a projection list, its column resolved to a position.
#[derive(Debug, Clone, Copy, PartialEq, Eq, Structural)]
pub enum MappedSqlColumnVariant {
    Count,
    Column(usize),
    EveryColumn,
}

/// The comparison that a condition makes.
#[derive(Debug, Clone, Copy, PartialEq, Eq, Structural)]
pub enum SqlOperator {
    Equal,
}

/// One condition `column = value` of a `WHERE` clause.
#[derive(Debug)]
pub struct SqlWhereColumn {
    pub column: String,
    pub operator: SqlOperator,
    pub value: String,
}

/// What one condition holds.
pub struct ConjunctView {
    pub column: Seq<char>,
    pub value: Seq<char>,
}

impl View for SqlWhereColumn {
    type V = ConjunctView;

    open spec fn view(&self) -> ConjunctView {
        ConjunctView { column: self.column@, value: self.value@ }
    }
}

/// The conditions of a `WHERE` clause, all of which a row has to meet.
#[derive(Debug)]
pub struct SqlWhereClause {
    pub columns: Vec<SqlWhereColumn>,
}

impl View for SqlWhereClause {
    type V = Seq<ConjunctView>;

    open spec fn view(&self) -> Seq<ConjunctView> {
        Seq::new(self.columns@.len(), |i: int| self.columns@[i]@)
    }
}

/// A parsed `SELECT` statement.
#[derive(Debug)]
pub struct SqlStatement {
    pub column_variants: Vec<SqlColumnVariant>,
    pub table_name: String,
    pub where_clause: Option<SqlWhereClause>,
}

/// What a parsed statement holds.
pub struct StatementView {
    pub column_variants: Seq<ColumnView>,
    pub table_name: Seq<char>,
    pub where_clause: Option<Seq<ConjunctView>>,
}

impl View for SqlStatement {
    type V = StatementView;

    open spec fn view(&self) -> StatementView {
        StatementView {
            column_variants: Seq::new(
                self.column_variants@.len(),
                |i: int| self.column_variants@[i]@,
            ),
            table_name: self.table_name@,
            where_clause: match self.where_clause {
                Some(w) => Some(w@),
                None => None,
            },
        }
    }
}

/// The text of a token that may stand as the value of a condition: a number
/// in decimal, the text of a quoted string, or a word.
pub open spec fn literal_text(t: Option<TokenView>) -> Option<Seq<char>> {
    match t {
        Some(TokenView::Number(n)) => Some(decimal_text(n as int)),
        Some(TokenView::String(s)) => Some(s),
        Some(TokenView::Text(s)) => Some(s),
        _ => None,
    }
}

/// `items` put in front of the list of a parse that went on.
pub open spec fn extend<T>(items: Seq<T>, rest: Option<(Seq<T>, int)>) -> Option<(Seq<T>, int)> {
    match rest {
        Some((more, end)) => Some((items + more, end)),
        None => None,
    }
}

/// The projection items read from `pos` up to the word `FROM`, and the
/// position after that word.  Commas between the items are passed over.
pub open spec fn projection_from(text: Seq<char>, pos: int) -> Option<(Seq<ColumnView>, int)>
    decreases text.len() - pos,
{
    let (t, p) = token_at(text, pos);
    if !(0 <= pos < p <= text.len()) {
        None
    } else {
        match t {
            Some(TokenView::Text(word)) => {
                if lowercase(word) == "from"@ {
                    Some((Seq::empty(), p))
                } else if lowercase(word) == "count"@ {
                    let (open, after_open) = token_at(text, p);
                    let (inner, after_inner) = token_at(text, after_open);
                    let (close, after_close) = token_at(text, after_inner);
                    if tag_matches(open, "("@) && inner is Some && tag_matches(close, ")"@) && p
                        <= after_close <= text.len() {
                        extend(seq![ColumnView::Count], projection_from(text, after_close))
                    } else {
                        None
                    }
                } else {
                    extend(seq![ColumnView::Column(word)], projection_from(text, p))
                }
            },
            Some(TokenView::Punctuation(c)) => {
                if c == ',' {
                    projection_from(text, p)
                } else if c == '*' {
                    extend(seq![ColumnView::EveryColumn], projection_from(text, p))
                } else {
                    None
                }
            },
            _ => None,
        }
    }
}

/// The conditions `column = value` that follow one another from `pos` to
/// the end of the text.  The list ends only where nothing but white space is
/// left: text from which no token can be read makes no list.
pub open spec fn conjuncts_from(text: Seq<char>, pos: int) -> Option<Seq<ConjunctView>>
    decreases text.len() - pos,
{
    if skip_spaces(text, pos) >= text.len() {
        Some(Seq::empty())
    } else {
        let (column, after_column) = token_at(text, pos);
        let (operator, after_operator) = token_at(text, after_column);
        let (value, after_value) = token_at(text, after_operator);
        match (column, literal_text(value)) {
            (Some(TokenView::Text(name)), Some(v)) => if operator == Some(
                TokenView::Punctuation('='),
            ) && 0 <= pos < after_value <= text.len() {
                prepend(
                    seq![ConjunctView { column: name, value: v }],
                    conjuncts_from(text, after_value),
                )
            } else {
                None
            },
            _ => None,
        }
    }
}

/// The conditions of the clause `WHERE ...` that starts at `pos` and goes
/// on to the end of `text`.
pub open spec fn where_from(text: Seq<char>, pos: int) -> Option<Seq<ConjunctView>> {
    let (word, after_word) = token_at(text, pos);
    if tag_matches(word, "where"@) {
        conjuncts_from(text, after_word)
    } else {
        None
    }
}

/// The conditions of the clause `WHERE ...` that is all of `text`.
pub open spec fn parse_where(text: Seq<char>) -> Option<Seq<ConjunctView>> {
    where_from(text, 0)
}

/// The statement that `text` spells: `SELECT`, at least one projection item,
/// `FROM`, a table name, and then nothing but white space, or a `WHERE`
/// clause.  Anything else after the table name makes no statement, be it
/// another token or text from which no token can be read.
pub open spec fn parse_statement(text: Seq<char>) -> Option<StatementView> {
    let (select, after_select) = token_at(text, 0);
    if !tag_matches(select, "select"@) {
        None
    } else {
        match projection_from(text, after_select) {
            None => None,
            Some((columns, after_from)) => {
                let (table, after_table) = token_at(text, after_from);
                match table {
                    Some(TokenView::Text(name)) => if columns.len() == 0 {
                        None
                    } else if skip_spaces(text, after_table) >= text.len() {
                        Some(
                            StatementView {
                                column_variants: columns,
                                table_name: name,
                                where_clause: None,
                            },
                        )
                    } else {
                        match where_from(text, after_table) {
                            Some(w) => Some(
                                StatementView {
                                    column_variants: columns,
                                    table_name: name,
                                    where_clause: Some(w),
                                },
                            ),
                            None => None,
                        }
                    },
                    _ => None,
                }
            },
        }
    }
}

/// The position after the table name of the statement that `text` starts
/// with: after `SELECT`, the projection list, `FROM` and a word.
pub open spec fn table_end(text: Seq<char>) -> Option<int> {
    let (select, after_select) = token_at(text, 0);
    if !tag_matches(select, "select"@) {
        None
    } else {
        match projection_from(text, after_select) {
            None => None,
            Some((columns, after_from)) => match token_at(text, after_from).0 {
                Some(TokenView::Text(name)) => Some(token_at(text, after_from).1),
                _ => None,
            },
        }
    }
}

/// Only a `WHERE` clause may follow the table name.  A text is a statement
/// only where nothing but white space is left after the table name, and it
/// then has no conditions, or where the word `WHERE` comes next.  Text from
/// which no token can be read is neither.
pub proof fn lemma_only_where_follows(text: Seq<char>)
    ensures
        parse_statement(text) matches Some(statement) ==> {
            &&& table_end(text) matches Some(end)
            &&& statement.where_clause is None <==> skip_spaces(text, end) >= text.len()
            &&& statement.where_clause is Some ==> tag_matches(token_at(text, end).0, "where"@)
        },
        table_end(text) matches Some(end) ==> {
            skip_spaces(text, end) < text.len() && !tag_matches(token_at(text, end).0, "where"@)
                ==> parse_statement(text) is None
        },
{
}

/// What a word of the projection list means to the parser.
#[derive(Debug, Clone, Copy, PartialEq, Eq, Structural)]
pub enum Keyword {
    From,
    Count,
    Other,
}

/// Tells a keyword from other words, given the word in lowercase.
pub fn keyword_of(lowered: &str) -> (k: Keyword)
    ensures
        k == if lowered@ == "from"@ {
            Keyword::From
        } else if lowered@ == "count"@ {
            Keyword::Count
        } else {
            Keyword::Other
        },
{
    if same_text(lowered, "from") {
        Keyword::From
    } else if same_text(lowered, "count") {
        Keyword::Count
    } else {
        Keyword::Other
    }
}

impl Token {
    /// The text of the token: a number in decimal, the text of a quoted
    /// string or of a word, or the one character of a punctuation mark.
    pub fn text(&self) -> (s: String)
        ensures
            s@ == token_text(self@),
    {
        match self {
            Token::Number(n) => decimal_string(*n),
            Token::String(s) => s.clone(),
            Token::Text(s) => s.clone(),
            Token::Punctuation(c) => {
                let mut s = String::new();
                push_char(&mut s, *c);
                assert(s@ =~= seq![*c]);
                s
            },
        }
    }
}

/// The text of a token.
pub open spec fn token_text(t: TokenView) -> Seq<char> {
    match t {
        TokenView::Number(n) => decimal_text(n as int),
        TokenView::String(s) => s,
        TokenView::Text(s) => s,
        TokenView::Punctuation(c) => seq![c],
    }
}

/// The views of a list of projection items, in order.
pub open spec fn columns_view(v: Seq<SqlColumnVariant>) -> Seq<ColumnView> {
    Seq::new(v.len(), |i: int| v[i]@)
}

/// The views of a list of conditions, in order.
pub open spec fn conjuncts_view(v: Seq<SqlWhereColumn>) -> Seq<ConjunctView> {
    Seq::new(v.len(), |i: int| v[i]@)
}

impl SqlWhereClause {
    /// Parses the clause `WHERE column = value ...` that is all of `sql`.
    pub fn new(sql: &str) -> (res: Result<Self, Error>)
        ensures
            match res {
                Ok(w) => parse_where(sql@) == Some(w@),
                Err(e) => e is ParseError && parse_where(sql@) is None,
            },
    {
        let mut tokenizer = Tokenizer::new(sql);
        Self::read(&mut tokenizer)
    }

    /// Parses the clause `WHERE column = value ...` that `tokenizer` has
    /// before it and that goes on to the end of its text.
    pub fn read(tokenizer: &mut Tokenizer) -> (res: Result<Self, Error>)
        ensures
            final(tokenizer).text() == old(tokenizer).text(),
            match res {
                Ok(w) => where_from(old(tokenizer).text(), old(tokenizer).position()) == Some(w@),
                Err(e) => e is ParseError && where_from(
                    old(tokenizer).text(),
                    old(tokenizer).position(),
                ) is None,
            },
    {
        let ghost text = tokenizer.text();
        let ghost first = tokenizer.position();
        tokenizer.check_position();
        proof {
            lemma_token_bounds(text, first);
        }
        let mut columns: Vec<SqlWhereColumn> = Vec::new();
        if tokenizer.tag("where").is_err() {
            return Err(Error::ParseError);
        }
        let ghost start = tokenizer.position();
        assert(conjuncts_view(columns@) =~= Seq::<ConjunctView>::empty());
        loop
            invariant
                tokenizer.text() == text,
                text == old(tokenizer).text(),
                0 <= tokenizer.position() <= text.len(),
                where_from(text, old(tokenizer).position()) == conjuncts_from(text, start),
                conjuncts_from(text, start) == prepend(
                    conjuncts_view(columns@),
                    conjuncts_from(text, tokenizer.position()),
                ),
            decreases text.len() - tokenizer.position(),
        {
            let ghost pos = tokenizer.position();
            proof {
                lemma_token_bounds(text, pos);
                lemma_token_bounds(text, token_at(text, pos).1);
                lemma_token_bounds(text, token_at(text, token_at(text, pos).1).1);
            }
            if tokenizer.at_end() {
                assert(conjuncts_view(columns@) + Seq::<ConjunctView>::empty() =~= conjuncts_view(
                    columns@,
                ));
                assert(Seq::new(columns@.len(), |i: int| columns@[i]@) =~= conjuncts_view(
                    columns@,
                ));
                return Ok(SqlWhereClause { columns });
            }
            let column = match tokenizer.next() {
                Some(Token::Text(column)) => column,
                _ => {
                    return Err(Error::ParseError);
                },
            };
            match tokenizer.next() {
                Some(Token::Punctuation(c)) => {
                    if c != '=' {
                        return Err(Error::ParseError);
                    }
                },
                _ => {
                    return Err(Error::ParseError);
                },
            }
            let value = match tokenizer.next() {
                Some(Token::Punctuation(_)) => {
                    return Err(Error::ParseError);
                },
                Some(token) => token.text(),
                None => {
                    return Err(Error::ParseError);
                },
            };
            let ghost before = conjuncts_view(columns@);
            let ghost added = ConjunctView { column: column@, value: value@ };
            columns.push(SqlWhereColumn { column, operator: SqlOperator::Equal, value });
            proof {
                assert(conjuncts_view(columns@) =~= before.push(added));
                let rest = conjuncts_from(text, tokenizer.position());
                if rest is Some {
                    assert(before + (seq![added] + rest.unwrap()) =~= conjuncts_view(columns@)
                        + rest.unwrap());
                }
            }
        }
    }
}

impl SqlStatement {
    /// Parses a `SELECT` statement.
    pub fn new(sql: &str) -> (res: Result<Self, Error>)
        ensures
            match res {
                Ok(s) => parse_statement(sql@) == Some(s@),
                Err(e) => e is ParseError && parse_statement(sql@) is None,
            },
    {
        let mut tokenizer = Tokenizer::new(sql);
        let mut column_variants: Vec<SqlColumnVariant> = Vec::new();
        if tokenizer.tag("select").is_err() {
            return Err(Error::ParseError);
        }
        let ghost start = tokenizer.position();
        tokenizer.check_position();
        assert(columns_view(column_variants@) =~= Seq::<ColumnView>::empty());
        loop
            invariant_except_break
                tokenizer.text() == sql@,
                0 <= tokenizer.position() <= sql@.len(),
                tag_matches(token_at(sql@, 0).0, "select"@),
                start == token_at(sql@, 0).1,
                projection_from(sql@, start) == extend(
                    columns_view(column_variants@),
                    projection_from(sql@, tokenizer.position()),
                ),
            ensures
                tokenizer.text() == sql@,
                0 <= tokenizer.position() <= sql@.len(),
                tag_matches(token_at(sql@, 0).0, "select"@),
                start == token_at(sql@, 0).1,
                projection_from(sql@, start) == Some(
                    (columns_view(column_variants@), tokenizer.position()),
                ),
            decreases sql@.len() - tokenizer.position(),
        {
            let ghost pos = tokenizer.position();
            let ghost before = columns_view(column_variants@);
            proof {
                lemma_token_bounds(sql@, pos);
                let after_word = token_at(sql@, pos).1;
                lemma_token_bounds(sql@, after_word);
                let after_open = token_at(sql@, after_word).1;
                lemma_token_bounds(sql@, after_open);
                let after_inner = token_at(sql@, after_open).1;
                lemma_token_bounds(sql@, after_inner);
            }
            let item = match tokenizer.next() {
                Some(Token::Text(t)) => {
                    let lowered = to_lower(t.as_str());
                    match keyword_of(lowered.as_str()) {
                        Keyword::From => {
                            assert(before + Seq::<ColumnView>::empty() =~= before);
                            break ;
                        },
                        Keyword::Count => {
                            if tokenizer.tag("(").is_err() {
                                return Err(Error::ParseError);
                            }
                            if tokenizer.next().is_none() {
                                return Err(Error::ParseError);
                            }
                            if tokenizer.tag(")").is_err() {
                                return Err(Error::ParseError);
                            }
                            SqlColumnVariant::Count
                        },
                        Keyword::Other => SqlColumnVariant::Column(t),
                    }
                },
                Some(Token::Punctuation(c)) => {
                    if c == ',' {
                        continue ;
                    } else if c == '*' {
                        SqlColumnVariant::EveryColumn
                    } else {
                        return Err(Error::ParseError);
                    }
                },
                _ => {
                    return Err(Error::ParseError);
                },
            };
            let ghost added = item@;
            column_variants.push(item);
            proof {
                assert(columns_view(column_variants@) =~= before.push(added));
                let rest = projection_from(sql@, tokenizer.position());
                if rest is Some {
                    assert(before + (seq![added] + rest.unwrap().0) =~= columns_view(
                        column_variants@,
                    ) + rest.unwrap().0);
                }
            }
        }
        let table_name = match tokenizer.next() {
            Some(Token::Text(table)) => table,
            _ => {
                return Err(Error::ParseError);
            },
        };
        if column_variants.len() == 0 {
            return Err(Error::ParseError);
        }
        let mut where_clause: Option<SqlWhereClause> = None;
        if !tokenizer.at_end() {
            match SqlWhereClause::read(&mut tokenizer) {
                Ok(w) => {
                    where_clause = Some(w);
                },
                Err(e) => {
                    return Err(e);
                },
            }
        }
        let res = SqlStatement { column_variants, table_name, where_clause };
        assert(res@.column_variants =~= columns_view(res.column_variants@));
        Ok(res)
    }
}

/// The first position at which `names` holds `name`.
pub open spec fn position_of(names: Seq<Seq<char>>, name: Seq<char>) -> Option<int>
    decreases names.len(),
{
    if names.len() == 0 {
        None
    } else if names[0] == name {
        Some(0)
    } else {
        match position_of(names.skip(1), name) {
            Some(i) => Some(i + 1),
            None => None,
        }
    }
}

/// A position is the first to hold a name exactly where it holds the name
/// and no earlier position does.
pub proof fn lemma_position_of(names: Seq<Seq<char>>, name: Seq<char>)
    ensures
        match position_of(names, name) {
            Some(i) => 0 <= i < names.len() && names[i] == name && forall|j: int|
                0 <= j < i ==> names[j] != name,
            None => forall|j: int| 0 <= j < names.len() ==> names[j] != name,
        },
    decreases names.len(),
{
    if names.len() > 0 && names[0] != name {
        lemma_position_of(names.skip(1), name);
        match position_of(names.skip(1), name) {
            Some(i) => {
                assert forall|j: int| 0 <= j < i + 1 implies names[j] != name by {
                    if j > 0 {
                        assert(names.skip(1)[j - 1] == names[j]);
                    }
                }
            },
            None => {
                assert forall|j: int| 0 <= j < names.len() implies names[j] != name by {
                    if j > 0 {
                        assert(names.skip(1)[j - 1] == names[j]);
                    }
                }
            },
        }
    }
}

/// Finds the first position at which `names` holds `name`.
pub fn find_name(names: &Vec<String>, name: &str) -> (res: Option<usize>)
    ensures
        match res {
            Some(i) => position_of(texts_view(names@), name@) == Some(i as int),
            None => position_of(texts_view(names@), name@) is None,
        },
{
    let mut i: usize = 0;
    while i < names.len()
        invariant
            i <= names@.len(),
            forall|j: int| 0 <= j < i ==> texts_view(names@)[j] != name@,
        decreases names@.len() - i,
    {
        if same_text(names[i].as_str(), name) {
            proof {
                assert(texts_view(names@)[i as int] == name@);
                lemma_position_of(texts_view(names@), name@);
            }
            return Some(i);
        }
        i = i + 1;
    }
    proof {
        lemma_position_of(texts_view(names@), name@);
    }
    None
}

/// A projection item with its column resolved against the table's column
/// names, or `None` where the table has no such column.
pub open spec fn map_column(c: ColumnView, names: Seq<Seq<char>>) -> Option<
    MappedSqlColumnVariant,
> {
    match c {
        ColumnView::Count => Some(MappedSqlColumnVariant::Count),
        ColumnView::EveryColumn => Some(MappedSqlColumnVariant::EveryColumn),
        ColumnView::Column(name) => match position_of(names, name) {
            Some(i) => Some(MappedSqlColumnVariant::Column(i as usize)),
            None => None,
        },
    }
}

/// The projection list with every column resolved, or `None` where the table
/// lacks one of them.
pub open spec fn map_columns(columns: Seq<ColumnView>, names: Seq<Seq<char>>) -> Option<
    Seq<MappedSqlColumnVariant>,
>
    decreases columns.len(),
{
    if columns.len() == 0 {
        Some(Seq::empty())
    } else {
        match (map_columns(columns.drop_last(), names), map_column(columns.last(), names)) {
            (Some(front), Some(last)) => Some(front.push(last)),
            _ => None,
        }
    }
}

/// One condition, its column resolved to a position.
#[derive(Debug)]
pub struct MappedSqlWhereColumn {
    pub column: usize,
    pub operator: SqlOperator,
    pub value: String,
}

/// What a resolved condition holds.
pub struct MappedConjunctView {
    pub column: usize,
    pub value: Seq<char>,
}

impl View for MappedSqlWhereColumn {
    type V = MappedConjunctView;

    open spec fn view(&self) -> MappedConjunctView {
        MappedConjunctView { column: self.column, value: self.value@ }
    }
}

/// The views of a list of resolved conditions, in order.
pub open spec fn mapped_view(v: Seq<MappedSqlWhereColumn>) -> Seq<MappedConjunctView> {
    Seq::new(v.len(), |i: int| v[i]@)
}

/// The conditions with every column resolved, or `None` where the table
/// lacks one of them.
pub open spec fn map_conjuncts(conjuncts: Seq<ConjunctView>, names: Seq<Seq<char>>) -> Option<
    Seq<MappedConjunctView>,
>
    decreases conjuncts.len(),
{
    if conjuncts.len() == 0 {
        Some(Seq::empty())
    } else {
        match (
            map_conjuncts(conjuncts.drop_last(), names),
            position_of(names, conjuncts.last().column),
        ) {
            (Some(front), Some(i)) => Some(
                front.push(
                    MappedConjunctView { column: i as usize, value: conjuncts.last().value },
                ),
            ),
            _ => None,
        }
    }
}

/// The first of `conjuncts` that speaks of the column at position `column`.
pub open spec fn find_conjunct(conjuncts: Seq<MappedConjunctView>, column: int) -> Option<int>
    decreases conjuncts.len(),
{
    if conjuncts.len() == 0 {
        None
    } else if conjuncts[0].column == column {
        Some(0)
    } else {
        match find_conjunct(conjuncts.skip(1), column) {
            Some(i) => Some(i + 1),
            None => None,
        }
    }
}

/// A condition is the first on a column exactly where it speaks of the
/// column and no earlier condition does.
pub proof fn lemma_find_conjunct(conjuncts: Seq<MappedConjunctView>, column: int)
    ensures
        match find_conjunct(conjuncts, column) {
            Some(i) => 0 <= i < conjuncts.len() && conjuncts[i].column == column && forall|j: int|
                0 <= j < i ==> conjuncts[j].column != column,
            None => forall|j: int| 0 <= j < conjuncts.len() ==> conjuncts[j].column != column,
        },
    decreases conjuncts.len(),
{
    if conjuncts.len() > 0 && conjuncts[0].column != column {
        lemma_find_conjunct(conjuncts.skip(1), column);
        match find_conjunct(conjuncts.skip(1), column) {
            Some(i) => {
                assert forall|j: int| 0 <= j < i + 1 implies conjuncts[j].column != column by {
                    if j > 0 {
                        assert(conjuncts.skip(1)[j - 1] == conjuncts[j]);
                    }
                }
            },
            None => {
                assert forall|j: int| 0 <= j < conjuncts.len() implies conjuncts[j].column
                    != column by {
                    if j > 0 {
                        assert(conjuncts.skip(1)[j - 1] == conjuncts[j]);
                    }
                }
            },
        }
    }
}

/// The conditions parted into keys and residuals for an index on the columns
/// `index_columns`: going through the index's columns in their order, the
/// first condition on each becomes a key, up to the first column that the
/// table does not have or that no condition speaks of.  What is left are the
/// residuals, in their order.
pub open spec fn split_prefix(
    conjuncts: Seq<MappedConjunctView>,
    index_columns: Seq<Seq<char>>,
    names: Seq<Seq<char>>,
) -> (Seq<MappedConjunctView>, Seq<MappedConjunctView>)
    decreases index_columns.len(),
{
    if index_columns.len() == 0 {
        (Seq::empty(), conjuncts)
    } else {
        match position_of(names, index_columns[0]) {
            None => (Seq::empty(), conjuncts),
            Some(column) => match find_conjunct(conjuncts, column) {
                None => (Seq::empty(), conjuncts),
                Some(i) => {
                    let (keys, rest) = split_prefix(
                        conjuncts.remove(i),
                        index_columns.skip(1),
                        names,
                    );
                    (seq![conjuncts[i]] + keys, rest)
                },
            },
        }
    }
}

/// The conditions of a statement, resolved against a table and parted for an
/// index: `keys` are met by looking them up in the index, in the order of its
/// columns, and `columns` are tested on each row.
#[derive(Debug)]
pub struct MappedSqlWhereClause {
    pub columns: Vec<MappedSqlWhereColumn>,
    pub keys: Vec<MappedSqlWhereColumn>,
}

/// What a resolved `WHERE` clause holds.
pub struct MappedWhereView {
    pub columns: Seq<MappedConjunctView>,
    pub keys: Seq<MappedConjunctView>,
}

impl View for MappedSqlWhereClause {
    type V = MappedWhereView;

    open spec fn view(&self) -> MappedWhereView {
        MappedWhereView { columns: mapped_view(self.columns@), keys: mapped_view(self.keys@) }
    }
}

/// A statement resolved against a table.
#[derive(Debug)]
pub struct MappedSqlStatement {
    pub column_variants: Vec<MappedSqlColumnVariant>,
    pub where_clause: Option<MappedSqlWhereClause>,
}

/// What a resolved statement holds.
pub struct MappedStatementView {
    pub column_variants: Seq<MappedSqlColumnVariant>,
    pub where_clause: Option<MappedWhereView>,
}

impl View for MappedSqlStatement {
    type V = MappedStatementView;

    open spec fn view(&self) -> MappedStatementView {
        MappedStatementView {
            column_variants: self.column_variants@,
            where_clause: match self.where_clause {
                Some(w) => Some(w@),
                None => None,
            },
        }
    }
}

/// The conditions `conjuncts` resolved against the table with columns
/// `names` and parted for the index described by `index`, if one is given.
pub open spec fn map_where(
    conjuncts: Seq<ConjunctView>,
    names: Seq<Seq<char>>,
    index: Option<SchemaView>,
) -> Result<MappedWhereView, Error> {
    match map_conjuncts(conjuncts, names) {
        None => Err(Error::UnknownColumn),
        Some(mapped) => match index {
            None => Ok(MappedWhereView { columns: mapped, keys: Seq::empty() }),
            Some(ix) => match index_columns_of(ix.sql, ix.name, ix.tbl_name) {
                None => Err(Error::ParseError),
                Some(index_columns) => {
                    let (keys, rest) = split_prefix(mapped, index_columns, names);
                    Ok(MappedWhereView { columns: rest, keys })
                },
            },
        },
    }
}

/// The statement `statement` resolved against the table described by `table`
/// and planned for the index described by `index`, if one is given.
pub open spec fn map_statement(
    statement: StatementView,
    table: SchemaView,
    index: Option<SchemaView>,
) -> Result<MappedStatementView, Error> {
    match table_columns_of(table.sql, table.name) {
        None => Err(Error::ParseError),
        Some(names) => match map_columns(statement.column_variants, names) {
            None => Err(Error::UnknownColumn),
            Some(columns) => match statement.where_clause {
                None => Ok(MappedStatementView { column_variants: columns, where_clause: None }),
                Some(conjuncts) => match map_where(conjuncts, names, index) {
                    Ok(w) => Ok(
                        MappedStatementView { column_variants: columns, where_clause: Some(w) },
                    ),
                    Err(e) => Err(e),
                },
            },
        },
    }
}

/// The view of a schema row that may be missing.
pub open spec fn schema_view(s: Option<&SchemaRecord>) -> Option<SchemaView> {
    match s {
        Some(r) => Some(r@),
        None => None,
    }
}

/// Finds the first of `conjuncts` that speaks of the column at `column`.
fn find_column(conjuncts: &Vec<MappedSqlWhereColumn>, column: usize) -> (res: Option<usize>)
    ensures
        match res {
            Some(i) => find_conjunct(mapped_view(conjuncts@), column as int) == Some(i as int) && i
                < conjuncts@.len(),
            None => find_conjunct(mapped_view(conjuncts@), column as int) is None,
        },
{
    let mut i: usize = 0;
    while i < conjuncts.len()
        invariant
            i <= conjuncts@.len(),
            forall|j: int| 0 <= j < i ==> mapped_view(conjuncts@)[j].column != column,
        decreases conjuncts@.len() - i,
    {
        if conjuncts[i].column == column {
            proof {
                assert(mapped_view(conjuncts@)[i as int].column == column);
                lemma_find_conjunct(mapped_view(conjuncts@), column as int);
            }
            return Some(i);
        }
        i = i + 1;
    }
    proof {
        lemma_find_conjunct(mapped_view(conjuncts@), column as int);
    }
    None
}

impl SqlWhereClause {
    /// Resolves the conditions against the table with columns `names`.
    fn resolve(&self, names: &Vec<String>) -> (res: Option<Vec<MappedSqlWhereColumn>>)
        ensures
            match res {
                Some(v) => map_conjuncts(self@, texts_view(names@)) == Some(mapped_view(v@)),
                None => map_conjuncts(self@, texts_view(names@)) is None,
            },
    {
        let mut columns: Vec<MappedSqlWhereColumn> = Vec::new();
        let mut i: usize = 0;
        assert(self@.take(0) =~= Seq::<ConjunctView>::empty());
        assert(mapped_view(columns@) =~= Seq::<MappedConjunctView>::empty());
        while i < self.columns.len()
            invariant
                i <= self.columns@.len(),
                self@.len() == self.columns@.len(),
                map_conjuncts(self@.take(i as int), texts_view(names@)) == Some(
                    mapped_view(columns@),
                ),
            decreases self.columns@.len() - i,
        {
            let ghost next = self@.take(i as int + 1);
            assert(next.drop_last() =~= self@.take(i as int));
            assert(next.last() == self.columns@[i as int]@);
            let column = &self.columns[i];
            match find_name(names, column.column.as_str()) {
                Some(position) => {
                    let ghost before = mapped_view(columns@);
                    columns.push(
                        MappedSqlWhereColumn {
                            column: position,
                            operator: column.operator,
                            value: column.value.clone(),
                        },
                    );
                    assert(mapped_view(columns@) =~= before.push(
                        MappedConjunctView { column: position, value: column.value@ },
                    ));
                },
                None => {
                    proof {
                        lemma_map_conjuncts_prefix(self@, texts_view(names@), i as int + 1);
                    }
                    return None;
                },
            }
            i = i + 1;
        }
        assert(self@.take(self@.len() as int) =~= self@);
        Some(columns)
    }

    /// Resolves the conditions against the table described by `table_schema`
    /// and parts them into keys for the index described by `index_schema`
    /// and residuals.
    pub fn map(&self, table_schema: &SchemaRecord, index_schema: Option<&SchemaRecord>) -> (res:
        Result<MappedSqlWhereClause, Error>)
        ensures
            match table_columns_of(table_schema.sql@, table_schema.name@) {
                None => res matches Err(e) && e is ParseError,
                Some(names) => match (res, map_where(self@, names, schema_view(index_schema))) {
                    (Ok(w), Ok(want)) => w@ == want,
                    (Err(e), Err(want)) => e == want,
                    _ => false,
                },
            },
    {
        let names = match table_schema.table_column_names() {
            Ok(names) => names,
            Err(_) => {
                return Err(Error::ParseError);
            },
        };
        self.map_with(&names, index_schema)
    }

    /// Resolves the conditions against the table with columns `names` and
    /// parts them into keys for the index described by `index_schema` and
    /// residuals.
    pub fn map_with(&self, names: &Vec<String>, index_schema: Option<&SchemaRecord>) -> (res:
        Result<MappedSqlWhereClause, Error>)
        ensures
            match (res, map_where(self@, texts_view(names@), schema_view(index_schema))) {
                (Ok(w), Ok(want)) => w@ == want,
                (Err(e), Err(want)) => e == want,
                _ => false,
            },
    {
        let mut columns = match self.resolve(names) {
            Some(columns) => columns,
            None => {
                return Err(Error::UnknownColumn);
            },
        };
        let mut keys: Vec<MappedSqlWhereColumn> = Vec::new();
        if let Some(index) = index_schema {
            let index_columns = match index.index_columns() {
                Ok(c) => c,
                Err(_) => {
                    return Err(Error::ParseError);
                },
            };
            let ghost all = mapped_view(columns@);
            let ghost wanted = texts_view(index_columns@);
            let mut k: usize = 0;
            let mut stopped = false;
            assert(wanted.skip(0) =~= wanted);
            assert(mapped_view(keys@) =~= Seq::<MappedConjunctView>::empty());
            assert(Seq::<MappedConjunctView>::empty() + split_prefix(
                all,
                wanted,
                texts_view(names@),
            ).0 =~= split_prefix(all, wanted, texts_view(names@)).0);
            while k < index_columns.len() && !stopped
                invariant
                    k <= index_columns@.len(),
                    wanted == texts_view(index_columns@),
                    split_prefix(all, wanted, texts_view(names@)).0 == mapped_view(keys@)
                        + split_prefix(
                        mapped_view(columns@),
                        wanted.skip(k as int),
                        texts_view(names@),
                    ).0,
                    split_prefix(all, wanted, texts_view(names@)).1 == split_prefix(
                        mapped_view(columns@),
                        wanted.skip(k as int),
                        texts_view(names@),
                    ).1,
                    stopped ==> split_prefix(
                        mapped_view(columns@),
                        wanted.skip(k as int),
                        texts_view(names@),
                    ) == (Seq::<MappedConjunctView>::empty(), mapped_view(columns@)),
                decreases index_columns@.len() - k + (if stopped { 0int } else { 1int }),
            {
                let ghost rest_wanted = wanted.skip(k as int);
                assert(rest_wanted[0] == index_columns@[k as int]@);
                assert(rest_wanted.skip(1) =~= wanted.skip(k as int + 1));
                match find_name(names, index_columns[k].as_str()) {
                    None => {
                        stopped = true;
                    },
                    Some(position) => match find_column(&columns, position) {
                        None => {
                            stopped = true;
                        },
                        Some(found) => {
                            let ghost before_columns = mapped_view(columns@);
                            let ghost before_keys = mapped_view(keys@);
                            let key = columns.remove(found);
                            let ghost key_view = key@;
                            keys.push(key);
                            k = k + 1;
                            proof {
                                assert(mapped_view(columns@) =~= before_columns.remove(
                                    found as int,
                                ));
                                assert(mapped_view(keys@) =~= before_keys.push(key_view));
                                let tail = split_prefix(
                                    mapped_view(columns@),
                                    wanted.skip(k as int),
                                    texts_view(names@),
                                ).0;
                                assert(before_keys + (seq![key_view] + tail) =~= mapped_view(keys@)
                                    + tail);
                            }
                        },
                    },
                }
            }
            proof {
                assert(wanted.skip(k as int).len() == 0 || stopped);
                assert(mapped_view(keys@) + Seq::<MappedConjunctView>::empty() =~= mapped_view(
                    keys@,
                ));
                assert(split_prefix(all, wanted, texts_view(names@)) == (
                    mapped_view(keys@),
                    mapped_view(columns@),
                ));
            }
        } else {
            assert(mapped_view(keys@) =~= Seq::<MappedConjunctView>::empty());
        }
        Ok(MappedSqlWhereClause { columns, keys })
    }
}

/// Where the conditions resolve, so does every prefix of them.
proof fn lemma_map_conjuncts_prefix(conjuncts: Seq<ConjunctView>, names: Seq<Seq<char>>, k: int)
    requires
        0 <= k <= conjuncts.len(),
        map_conjuncts(conjuncts.take(k), names) is None,
    ensures
        map_conjuncts(conjuncts, names) is None,
    decreases conjuncts.len(),
{
    if k < conjuncts.len() {
        assert(conjuncts.drop_last().take(k) =~= conjuncts.take(k));
        lemma_map_conjuncts_prefix(conjuncts.drop_last(), names, k);
    } else {
        assert(conjuncts.take(k) =~= conjuncts);
    }
}

/// Where the projection items resolve, so does every prefix of them.
proof fn lemma_map_columns_prefix(columns: Seq<ColumnView>, names: Seq<Seq<char>>, k: int)
    requires
        0 <= k <= columns.len(),
        map_columns(columns.take(k), names) is None,
    ensures
        map_columns(columns, names) is None,
    decreases columns.len(),
{
    if k < columns.len() {
        assert(columns.drop_last().take(k) =~= columns.take(k));
        lemma_map_columns_prefix(columns.drop_last(), names, k);
    } else {
        assert(columns.take(k) =~= columns);
    }
}

impl SqlStatement {
    /// Resolves the projection list against the table with columns `names`.
    fn resolve(&self, names: &Vec<String>) -> (res: Option<Vec<MappedSqlColumnVariant>>)
        ensures
            match res {
                Some(v) => map_columns(self@.column_variants, texts_view(names@)) == Some(v@),
                None => map_columns(self@.column_variants, texts_view(names@)) is None,
            },
    {
        let mut columns: Vec<MappedSqlColumnVariant> = Vec::new();
        let mut i: usize = 0;
        let ghost all = self@.column_variants;
        assert(all.take(0) =~= Seq::<ColumnView>::empty());
        while i < self.column_variants.len()
            invariant
                i <= self.column_variants@.len(),
                all == self@.column_variants,
                all.len() == self.column_variants@.len(),
                map_columns(all.take(i as int), texts_view(names@)) == Some(columns@),
            decreases self.column_variants@.len() - i,
        {
            let ghost next = all.take(i as int + 1);
            assert(next.drop_last() =~= all.take(i as int));
            assert(next.last() == self.column_variants@[i as int]@);
            let mapped = match &self.column_variants[i] {
                SqlColumnVariant::Column(name) => match find_name(names, name.as_str()) {
                    Some(position) => MappedSqlColumnVariant::Column(position),
                    None => {
                        proof {
                            lemma_map_columns_prefix(all, texts_view(names@), i as int + 1);
                        }
                        return None;
                    },
                },
                SqlColumnVariant::EveryColumn => MappedSqlColumnVariant::EveryColumn,
                SqlColumnVariant::Count => MappedSqlColumnVariant::Count,
            };
            columns.push(mapped);
            i = i + 1;
        }
        assert(all.take(all.len() as int) =~= all);
        Some(columns)
    }

    /// Resolves the statement against the table described by `table_schema`
    /// and plans its conditions for the index described by `index_schema`.
    pub fn map(&self, table_schema: &SchemaRecord, index_schema: Option<&SchemaRecord>) -> (res:
        Result<MappedSqlStatement, Error>)
        ensures
            match (res, map_statement(self@, table_schema@, schema_view(index_schema))) {
                (Ok(m), Ok(want)) => m@ == want,
                (Err(e), Err(want)) => e == want,
                _ => false,
            },
    {
        let names = match table_schema.table_column_names() {
            Ok(names) => names,
            Err(_) => {
                return Err(Error::ParseError);
            },
        };
        let column_variants = match self.resolve(&names) {
            Some(columns) => columns,
            None => {
                return Err(Error::UnknownColumn);
            },
        };
        let where_clause = match &self.where_clause {
            Some(w) => match w.map_with(&names, index_schema) {
                Ok(mapped) => Some(mapped),
                Err(e) => {
                    return Err(e);
                },
            },
            None => None,
        };
        Ok(MappedSqlStatement { column_variants, where_clause })
    }
}

/// The value of the column at `column` of `row`; a row that is too short
/// holds a null there.
pub open spec fn column_or_null(row: Seq<RecordValue>, column: int) -> RecordValue {
    if 0 <= column < row.len() {
        row[column]
    } else {
        RecordValue::Null
    }
}

/// Whether `row` meets the condition `c`: the text form of its column is the
/// condition's value.
pub open spec fn conjunct_holds(c: MappedConjunctView, row: Seq<RecordValue>) -> bool {
    value_text(column_or_null(row, c.column as int)) == Some(c.value)
}

/// Whether `row` meets all of `conjuncts`.
pub open spec fn row_matches(conjuncts: Seq<MappedConjunctView>, row: Seq<RecordValue>) -> bool {
    forall|i: int| 0 <= i < conjuncts.len() ==> conjunct_holds(#[trigger] conjuncts[i], row)
}

/// A row meets a list of conditions exactly where it meets one of them and
/// the list without it.
pub proof fn lemma_matches_without(
    conjuncts: Seq<MappedConjunctView>,
    i: int,
    row: Seq<RecordValue>,
)
    requires
        0 <= i < conjuncts.len(),
    ensures
        row_matches(conjuncts, row) <==> conjunct_holds(conjuncts[i], row) && row_matches(
            conjuncts.remove(i),
            row,
        ),
{
    let rest = conjuncts.remove(i);
    if row_matches(conjuncts, row) {
        assert forall|j: int| 0 <= j < rest.len() implies conjunct_holds(
            #[trigger] rest[j],
            row,
        ) by {
            if j < i {
                assert(rest[j] == conjuncts[j]);
            } else {
                assert(rest[j] == conjuncts[j + 1]);
            }
        }
    }
    if conjunct_holds(conjuncts[i], row) && row_matches(rest, row) {
        assert forall|j: int| 0 <= j < conjuncts.len() implies conjunct_holds(
            #[trigger] conjuncts[j],
            row,
        ) by {
            if j < i {
                assert(rest[j] == conjuncts[j]);
            } else if j > i {
                assert(rest[j - 1] == conjuncts[j]);
            }
        }
    }
}

/// Parting the conditions for an index loses none and invents none: a row
/// meets all conditions exactly where it meets the keys and the residuals.
pub proof fn lemma_split_keeps_conditions(
    conjuncts: Seq<MappedConjunctView>,
    index_columns: Seq<Seq<char>>,
    names: Seq<Seq<char>>,
    row: Seq<RecordValue>,
)
    ensures
        ({
            let (keys, rest) = split_prefix(conjuncts, index_columns, names);
            row_matches(conjuncts, row) <==> row_matches(keys, row) && row_matches(rest, row)
        }),
    decreases index_columns.len(),
{
    let (keys, rest) = split_prefix(conjuncts, index_columns, names);
    if index_columns.len() > 0 {
        match position_of(names, index_columns[0]) {
            Some(column) => match find_conjunct(conjuncts, column) {
                Some(i) => {
                    lemma_find_conjunct(conjuncts, column);
                    let others = conjuncts.remove(i);
                    let (more, left) = split_prefix(others, index_columns.skip(1), names);
                    lemma_split_keeps_conditions(others, index_columns.skip(1), names, row);
                    lemma_matches_without(conjuncts, i, row);
                    assert(keys == seq![conjuncts[i]] + more);
                    assert(keys[0] == conjuncts[i]);
                    assert(keys.remove(0) =~= more);
                    lemma_matches_without(keys, 0, row);
                },
                None => {},
            },
            None => {},
        }
    }
}

/// The keys follow the columns of the index: there are no more keys than
/// index columns, and each key is a condition on the table column that the
/// index column at its place names.
pub proof fn lemma_keys_follow_index(
    conjuncts: Seq<MappedConjunctView>,
    index_columns: Seq<Seq<char>>,
    names: Seq<Seq<char>>,
)
    ensures
        ({
            let keys = split_prefix(conjuncts, index_columns, names).0;
            &&& keys.len() <= index_columns.len()
            &&& forall|k: int|
                0 <= k < keys.len() ==> position_of(names, #[trigger] index_columns[k]) == Some(
                    keys[k].column as int,
                )
        }),
    decreases index_columns.len(),
{
    let keys = split_prefix(conjuncts, index_columns, names).0;
    if index_columns.len() > 0 {
        match position_of(names, index_columns[0]) {
            Some(column) => match find_conjunct(conjuncts, column) {
                Some(i) => {
                    lemma_find_conjunct(conjuncts, column);
                    let others = conjuncts.remove(i);
                    let more = split_prefix(others, index_columns.skip(1), names).0;
                    lemma_keys_follow_index(others, index_columns.skip(1), names);
                    assert(keys == seq![conjuncts[i]] + more);
                    assert forall|k: int| 0 <= k < keys.len() implies position_of(
                        names,
                        #[trigger] index_columns[k],
                    ) == Some(keys[k].column as int) by {
                        if k > 0 {
                            assert(keys[k] == more[k - 1]);
                            assert(index_columns.skip(1)[k - 1] == index_columns[k]);
                        }
                    }
                },
                None => {},
            },
            None => {},
        }
    }
}

/// Whether the text form of the column at `column` of `row` is `value`.
fn column_is(row: &Vec<RecordFormat>, column: usize, value: &str) -> (r: bool)
    ensures
        r == (value_text(column_or_null(values_view(row@), column as int))
            == Some(value@)),
{
    if column < row.len() {
        match row[column].text() {
            Some(text) => same_text(text.as_str(), value),
            None => false,
        }
    } else {
        match RecordFormat::NULL.text() {
            Some(text) => same_text(text.as_str(), value),
            None => false,
        }
    }
}

impl MappedSqlWhereClause {
    /// Whether `record` meets every residual condition.
    pub fn matches(&self, record: &Record) -> (r: bool)
        ensures
            r == row_matches(self@.columns, record@),
    {
        let mut i: usize = 0;
        while i < self.columns.len()
            invariant
                i <= self.columns@.len(),
                forall|j: int| 0 <= j < i ==> conjunct_holds(#[trigger] self@.columns[j], record@),
            decreases self.columns@.len() - i,
        {
            let c = &self.columns[i];
            assert(self@.columns[i as int] == c@);
            if !column_is(&record.values, c.column, c.value.as_str()) {
                return false;
            }
            i = i + 1;
        }
        true
    }

    /// The values of the keys, in the order of the index's columns.
    pub fn keys(&self) -> (res: Vec<String>)
        ensures
            res@.len() == self@.keys.len(),
            forall|i: int| 0 <= i < res@.len() ==> (#[trigger] res@[i])@ == self@.keys[i].value,
    {
        let mut keys: Vec<String> = Vec::new();
        let mut i: usize = 0;
        while i < self.keys.len()
            invariant
                i <= self.keys@.len(),
                keys@.len() == i,
                forall|j: int| 0 <= j < i ==> (#[trigger] keys@[j])@ == self@.keys[j].value,
            decreases self.keys@.len() - i,
        {
            keys.push(self.keys[i].value.clone());
            i = i + 1;
        }
        keys
    }
}

/// What one projection item takes from `row`: a column (a null where the row
/// is too short), every column, or, for a count, the first column.
pub open spec fn projected_item(item: MappedSqlColumnVariant, row: Seq<RecordValue>) -> Seq<
    RecordValue,
> {
    match item {
        MappedSqlColumnVariant::Column(i) => seq![column_or_null(row, i as int)],
        MappedSqlColumnVariant::EveryColumn => row,
        MappedSqlColumnVariant::Count => seq![column_or_null(row, 0)],
    }
}

/// The row that the projection list `items` makes of `row`.
pub open spec fn projected(items: Seq<MappedSqlColumnVariant>, row: Seq<RecordValue>) -> Seq<
    RecordValue,
>
    decreases items.len(),
{
    if items.len() == 0 {
        Seq::empty()
    } else {
        projected(items.drop_last(), row) + projected_item(items.last(), row)
    }
}

/// The number of columns that the projection list `items` makes of a row of
/// `width` columns: one for each named column and for each count, and `width`
/// for each `*`.
pub open spec fn projected_width(items: Seq<MappedSqlColumnVariant>, width: int) -> int
    decreases items.len(),
{
    if items.len() == 0 {
        0
    } else {
        projected_width(items.drop_last(), width) + (match items.last() {
            MappedSqlColumnVariant::EveryColumn => width,
            _ => 1,
        })
    }
}

/// A projected row is as wide as its projection list says: as the table for
/// `*`, one column for each named column, one for a count.
pub proof fn lemma_projection_shape(items: Seq<MappedSqlColumnVariant>, row: Seq<RecordValue>)
    ensures
        projected(items, row).len() == projected_width(items, row.len() as int),
        items == seq![MappedSqlColumnVariant::EveryColumn] ==> projected(items, row).len()
            == row.len(),
        items == seq![MappedSqlColumnVariant::Count] ==> projected(items, row).len() == 1,
        (forall|i: int| 0 <= i < items.len() ==> items[i] is Column) ==> projected(
            items,
            row,
        ).len() == items.len(),
    decreases items.len(),
{
    if items.len() > 0 {
        lemma_projection_shape(items.drop_last(), row);
        if forall|i: int| 0 <= i < items.len() ==> items[i] is Column {
            assert forall|i: int| 0 <= i < items.drop_last().len() implies items.drop_last()[i]
                is Column by {
                assert(items.drop_last()[i] == items[i]);
            }
        }
        if items.len() == 1 {
            assert(items.drop_last().len() == 0);
        }
    }
}

/// Whether every item of a projection list names a column.
pub open spec fn names_columns(items: Seq<MappedSqlColumnVariant>) -> bool {
    forall|j: int| 0 <= j < items.len() ==> (#[trigger] items[j]) is Column
}

/// What a row is projected to: the row itself by a lone `*`, and by a list
/// of named columns one value for each name, in the order of the list, a
/// column that is named twice being shown twice.
pub proof fn lemma_projection_content(items: Seq<MappedSqlColumnVariant>, row: Seq<RecordValue>)
    ensures
        items == seq![MappedSqlColumnVariant::EveryColumn] ==> projected(items, row) == row,
        names_columns(items) ==> {
            &&& projected(items, row).len() == items.len()
            &&& forall|j: int|
                0 <= j < items.len() ==> (#[trigger] items[j] matches MappedSqlColumnVariant::Column(
                    i,
                ) && projected(items, row)[j] == column_or_null(row, i as int))
        },
    decreases items.len(),
{
    if items.len() > 0 {
        let front = items.drop_last();
        lemma_projection_content(front, row);
        if items.len() == 1 {
            assert(front.len() == 0);
            assert(projected(front, row) =~= Seq::<RecordValue>::empty());
            assert(Seq::<RecordValue>::empty() + row =~= row);
        }
        if names_columns(items) {
            assert forall|j: int| 0 <= j < front.len() implies (#[trigger] front[j]) is Column by {
                assert(front[j] == items[j]);
            }
            assert(items.last() == items[items.len() - 1]);
            assert forall|j: int| 0 <= j < items.len() implies (
            #[trigger] items[j] matches MappedSqlColumnVariant::Column(i) && projected(
                items,
                row,
            )[j] == column_or_null(row, i as int)) by {
                if j < front.len() {
                    assert(front[j] == items[j]);
                }
            }
        }
    }
}

impl MappedSqlStatement {
    /// The row that the projection list makes of `record`: by a lone `*` the
    /// record itself, by a list of named columns one value for each name.
    pub fn project(&self, record: &Record) -> (res: Record)
        ensures
            res@ == projected(self@.column_variants, record@),
            res@.len() == projected_width(self@.column_variants, record@.len() as int),
            self@.column_variants == seq![MappedSqlColumnVariant::EveryColumn] ==> res@
                == record@,
            names_columns(self@.column_variants) ==> {
                &&& res@.len() == self@.column_variants.len()
                &&& forall|j: int|
                    0 <= j < self@.column_variants.len() ==> (
                    #[trigger] self@.column_variants[j] matches MappedSqlColumnVariant::Column(i)
                        && res@[j] == column_or_null(record@, i as int))
            },
    {
        let mut values: Vec<RecordFormat> = Vec::new();
        let mut i: usize = 0;
        let ghost items = self.column_variants@;
        let ghost row = record@;
        assert(items.take(0) =~= Seq::<MappedSqlColumnVariant>::empty());
        assert(values_view(values@) =~= Seq::<RecordValue>::empty());
        while i < self.column_variants.len()
            invariant
                i <= self.column_variants@.len(),
                items == self.column_variants@,
                row == record@,
                values_view(values@) == projected(items.take(i as int), row),
            decreases self.column_variants@.len() - i,
        {
            let ghost next = items.take(i as int + 1);
            assert(next.drop_last() =~= items.take(i as int));
            assert(next.last() == items[i as int]);
            let ghost before = values_view(values@);
            match self.column_variants[i] {
                MappedSqlColumnVariant::Column(index) => {
                    let v = if index < record.values.len() {
                        record.values[index].clone()
                    } else {
                        RecordFormat::NULL
                    };
                    values.push(v);
                    assert(values_view(values@) =~= before + seq![
                        column_or_null(row, index as int),
                    ]);
                },
                MappedSqlColumnVariant::EveryColumn => {
                    let mut j: usize = 0;
                    while j < record.values.len()
                        invariant
                            j <= record.values@.len(),
                            row == record@,
                            values_view(values@) == before + row.take(
                                j as int,
                            ),
                        decreases record.values@.len() - j,
                    {
                        let v = record.values[j].clone();
                        assert(v@ == row[j as int]);
                        let ghost so_far = values_view(values@);
                        values.push(v);
                        assert(values_view(values@) =~= so_far.push(
                            row[j as int],
                        ));
                        assert(values_view(values@) =~= before + row.take(
                            j as int + 1,
                        ));
                        j = j + 1;
                    }
                    assert(row.take(row.len() as int) =~= row);
                },
                MappedSqlColumnVariant::Count => {
                    let v = if 0 < record.values.len() {
                        record.values[0].clone()
                    } else {
                        RecordFormat::NULL
                    };
                    values.push(v);
                    assert(values_view(values@) =~= before + seq![
                        column_or_null(row, 0),
                    ]);
                },
            }
            i = i + 1;
        }
        assert(items.take(items.len() as int) =~= items);
        proof {
            lemma_projection_shape(items, row);
            lemma_projection_content(items, row);
        }
        Record { values }
    }
}

} // verus!
