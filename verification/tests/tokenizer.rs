use sqlite_query::error::Error;
use sqlite_query::tokenizer::{
    chars_of, classify, less_text, same_text, scan_token, tag_accepts, CharKind, Token, Tokenizer,
};

fn all_tokens(input: &str) -> Vec<Token> {
    let mut tokenizer = Tokenizer::new(input);
    let mut tokens = Vec::new();
    while let Some(token) = tokenizer.next() {
        tokens.push(token);
    }
    tokens
}

fn text(s: &str) -> Token {
    Token::Text(s.to_string())
}

fn string(s: &str) -> Token {
    Token::String(s.to_string())
}

#[test]
fn tokens_of_a_statement() {
    assert_eq!(
        all_tokens("SELECT name, color FROM apples WHERE id = 42"),
        vec![
            text("SELECT"),
            text("name"),
            Token::Punctuation(','),
            text("color"),
            text("FROM"),
            text("apples"),
            text("WHERE"),
            text("id"),
            Token::Punctuation('='),
            Token::Number(42),
        ]
    );
}

#[test]
fn white_space_of_every_kind_is_passed_over() {
    assert_eq!(all_tokens(" \t\n a \n\t  b\t"), vec![text("a"), text("b")]);
    assert_eq!(all_tokens(""), vec![]);
    assert_eq!(all_tokens("   \n\t "), vec![]);
}

#[test]
fn a_carriage_return_is_punctuation() {
    assert_eq!(all_tokens("a\rb"), vec![text("a"), Token::Punctuation('\r'), text("b")]);
}

#[test]
fn words_hold_letters_digits_and_underscores() {
    assert_eq!(all_tokens("idx_apples_name2 x"), vec![text("idx_apples_name2"), text("x")]);
    assert_eq!(all_tokens("_a"), vec![Token::Punctuation('_'), text("a")]);
    assert_eq!(all_tokens("Crème brûlée"), vec![text("Crème"), text("brûlée")]);
}

#[test]
fn a_number_ends_where_the_digits_end() {
    assert_eq!(all_tokens("123abc"), vec![Token::Number(123), text("abc")]);
    assert_eq!(all_tokens("007"), vec![Token::Number(7)]);
    assert_eq!(all_tokens("0"), vec![Token::Number(0)]);
    assert_eq!(all_tokens("1 2"), vec![Token::Number(1), Token::Number(2)]);
    assert_eq!(
        all_tokens("-5"),
        vec![Token::Punctuation('-'), Token::Number(5)]
    );
}

#[test]
fn the_largest_number_is_read_and_the_next_is_not() {
    assert_eq!(all_tokens("9223372036854775807"), vec![Token::Number(i64::MAX)]);
    let mut tokenizer = Tokenizer::new("x 9223372036854775808 y");
    assert_eq!(tokenizer.next(), Some(text("x")));
    assert_eq!(tokenizer.next(), None);
    assert_eq!(tokenizer.next(), None);
    assert_eq!(tokenizer.remaining(), "9223372036854775808 y");
}

#[test]
fn a_run_of_very_many_digits_is_no_token() {
    let mut tokenizer = Tokenizer::new("99999999999999999999999999999999999");
    assert_eq!(tokenizer.peek(), None);
    assert_eq!(tokenizer.next(), None);
}

#[test]
fn digits_of_other_scripts_are_no_number() {
    // An Arabic-Indic digit is numeric, but it spells no decimal number.
    let mut tokenizer = Tokenizer::new("\u{0663}");
    assert_eq!(tokenizer.next(), None);
    assert_eq!(tokenizer.remaining(), "\u{0663}");
}

#[test]
fn quoted_strings_of_both_kinds() {
    assert_eq!(all_tokens("'Granny Smith'"), vec![string("Granny Smith")]);
    assert_eq!(all_tokens("\"Light Green\""), vec![string("Light Green")]);
    assert_eq!(all_tokens("''"), vec![string("")]);
    assert_eq!(all_tokens("'a' 'b'"), vec![string("a"), string("b")]);
    assert_eq!(all_tokens("'say \"hi\"'"), vec![string("say \"hi\"")]);
}

#[test]
fn a_doubled_quote_stands_for_one() {
    assert_eq!(all_tokens("'it''s'"), vec![string("it's")]);
    assert_eq!(all_tokens("\"a\"\"b\""), vec![string("a\"b")]);
    assert_eq!(all_tokens("''''"), vec![string("'")]);
    assert_eq!(all_tokens("'''' x"), vec![string("'"), text("x")]);
}

#[test]
fn a_quoted_string_that_is_not_closed_is_no_token() {
    let mut tokenizer = Tokenizer::new("a 'bc");
    assert_eq!(tokenizer.next(), Some(text("a")));
    assert_eq!(tokenizer.next(), None);
    assert_eq!(tokenizer.remaining(), "'bc");
    let mut tokenizer = Tokenizer::new("'it''");
    assert_eq!(tokenizer.next(), None);
}

#[test]
fn punctuation_is_one_character_each() {
    assert_eq!(
        all_tokens("(*)=,;"),
        vec![
            Token::Punctuation('('),
            Token::Punctuation('*'),
            Token::Punctuation(')'),
            Token::Punctuation('='),
            Token::Punctuation(','),
            Token::Punctuation(';'),
        ]
    );
}

#[test]
fn peek_leaves_the_token_unread() {
    let mut tokenizer = Tokenizer::new("  one two");
    assert_eq!(tokenizer.peek(), Some(text("one")));
    assert_eq!(tokenizer.peek(), Some(text("one")));
    assert_eq!(tokenizer.remaining(), "  one two");
    assert_eq!(tokenizer.next(), Some(text("one")));
    assert_eq!(tokenizer.peek(), Some(text("two")));
    assert_eq!(tokenizer.next(), Some(text("two")));
    assert_eq!(tokenizer.peek(), None);
}

#[test]
fn remaining_is_what_has_not_been_read() {
    let mut tokenizer = Tokenizer::new("FROM apples WHERE color = 'Yellow'");
    assert_eq!(tokenizer.remaining(), "FROM apples WHERE color = 'Yellow'");
    tokenizer.next();
    assert_eq!(tokenizer.remaining(), " apples WHERE color = 'Yellow'");
    tokenizer.next();
    assert_eq!(tokenizer.remaining(), " WHERE color = 'Yellow'");
    while tokenizer.next().is_some() {}
    assert_eq!(tokenizer.remaining(), "");
}

#[test]
fn remaining_counts_characters_not_bytes() {
    let mut tokenizer = Tokenizer::new("é = 'ü' x");
    assert_eq!(tokenizer.next(), Some(text("é")));
    assert_eq!(tokenizer.remaining(), " = 'ü' x");
    tokenizer.next();
    assert_eq!(tokenizer.next(), Some(string("ü")));
    assert_eq!(tokenizer.remaining(), " x");
}

#[test]
fn at_the_end_of_the_text_the_position_stays_at_the_end() {
    let mut tokenizer = Tokenizer::new("a   ");
    assert_eq!(tokenizer.next(), Some(text("a")));
    assert_eq!(tokenizer.next(), None);
    assert_eq!(tokenizer.remaining(), "");
    assert_eq!(tokenizer.next(), None);
    assert_eq!(tokenizer.remaining(), "");
}

#[test]
fn take_while_stops_before_the_token_that_is_refused() {
    let mut tokenizer = Tokenizer::new("id integer primary key, name text)");
    let tokens = tokenizer.take_while(|t| *t != Token::Punctuation(',') && *t != Token::Punctuation(')'));
    assert_eq!(tokens, vec![text("id"), text("integer"), text("primary"), text("key")]);
    assert_eq!(tokenizer.next(), Some(Token::Punctuation(',')));
    let tokens = tokenizer.take_while(|t| *t != Token::Punctuation(',') && *t != Token::Punctuation(')'));
    assert_eq!(tokens, vec![text("name"), text("text")]);
    assert_eq!(tokenizer.next(), Some(Token::Punctuation(')')));
    assert_eq!(tokenizer.next(), None);
}

#[test]
fn take_while_may_take_nothing_or_everything() {
    let mut tokenizer = Tokenizer::new("a b c");
    assert_eq!(tokenizer.take_while(|_| false), vec![]);
    assert_eq!(tokenizer.remaining(), "a b c");
    assert_eq!(tokenizer.take_while(|_| true), vec![text("a"), text("b"), text("c")]);
    assert_eq!(tokenizer.remaining(), "");
    assert_eq!(tokenizer.take_while(|_| true), vec![]);
}

#[test]
fn tag_matches_words_whatever_their_case() {
    let mut tokenizer = Tokenizer::new("select SELECT SeLeCt");
    assert!(tokenizer.tag("SELECT").is_ok());
    assert!(tokenizer.tag("select").is_ok());
    assert!(tokenizer.tag("Select").is_ok());
}

#[test]
fn tag_matches_punctuation() {
    let mut tokenizer = Tokenizer::new("( ) *");
    assert!(tokenizer.tag("(").is_ok());
    assert!(tokenizer.tag(")").is_ok());
    assert!(matches!(tokenizer.tag("("), Err(Error::ParseError)));
}

#[test]
fn tag_reads_the_token_even_where_it_does_not_match() {
    let mut tokenizer = Tokenizer::new("create table");
    assert!(matches!(tokenizer.tag("select"), Err(Error::ParseError)));
    assert_eq!(tokenizer.remaining(), " table");
    assert!(tokenizer.tag("TABLE").is_ok());
}

#[test]
fn tag_fails_on_numbers_strings_and_the_end() {
    let mut tokenizer = Tokenizer::new("1 'select'");
    assert!(matches!(tokenizer.tag("1"), Err(Error::ParseError)));
    assert!(matches!(tokenizer.tag("select"), Err(Error::ParseError)));
    assert!(matches!(tokenizer.tag("select"), Err(Error::ParseError)));
}

#[test]
fn tag_of_several_characters_matches_no_punctuation() {
    let mut tokenizer = Tokenizer::new("(");
    assert!(matches!(tokenizer.tag("(("), Err(Error::ParseError)));
}

#[test]
fn tag_accepts_compares_lowercase_forms() {
    assert!(tag_accepts(&text("FROM"), "from", "from"));
    assert!(!tag_accepts(&text("FROM"), "from", "form"));
    assert!(tag_accepts(&Token::Punctuation('('), "", "("));
    assert!(!tag_accepts(&Token::Punctuation('('), "", ")"));
    assert!(!tag_accepts(&Token::Punctuation('('), "", "(("));
    assert!(!tag_accepts(&Token::Punctuation('('), "", ""));
    assert!(!tag_accepts(&Token::Number(1), "1", "1"));
    assert!(!tag_accepts(&string("from"), "from", "from"));
}

#[test]
fn scan_token_goes_by_the_kinds_it_is_given() {
    let chars: Vec<char> = "ab1 c".chars().collect();
    // With the digit called alphabetic, it goes on the word.
    let kinds = vec![
        CharKind::Alphabetic,
        CharKind::Alphabetic,
        CharKind::Alphabetic,
        CharKind::Other,
        CharKind::Alphabetic,
    ];
    let (token, end) = scan_token(&chars, &kinds, 0);
    assert_eq!(token, Some(text("ab1")));
    assert_eq!(end, 3);
    // With every character called other, each one is punctuation.
    let kinds = vec![CharKind::Other; chars.len()];
    let (token, end) = scan_token(&chars, &kinds, 0);
    assert_eq!(token, Some(Token::Punctuation('a')));
    assert_eq!(end, 1);
    let (token, end) = scan_token(&chars, &kinds, 3);
    assert_eq!(token, Some(Token::Punctuation('c')));
    assert_eq!(end, 5);
    let (token, end) = scan_token(&chars, &kinds, 5);
    assert_eq!(token, None);
    assert_eq!(end, 5);
}

#[test]
fn classify_tells_digits_letters_and_the_rest() {
    assert_eq!(classify('7'), CharKind::Numeric);
    assert_eq!(classify('a'), CharKind::Alphabetic);
    assert_eq!(classify('Z'), CharKind::Alphabetic);
    assert_eq!(classify('é'), CharKind::Alphabetic);
    assert_eq!(classify('_'), CharKind::Other);
    assert_eq!(classify(' '), CharKind::Other);
    assert_eq!(classify('*'), CharKind::Other);
    assert_eq!(classify('\u{0663}'), CharKind::Numeric);
}

#[test]
fn token_text_is_what_the_token_spells() {
    assert_eq!(Token::Number(-12).text(), "-12");
    assert_eq!(Token::Number(0).text(), "0");
    assert_eq!(string("Red Delicious").text(), "Red Delicious");
    assert_eq!(text("color").text(), "color");
    assert_eq!(Token::Punctuation('=').text(), "=");
}

#[test]
fn token_clone_keeps_the_token() {
    for token in [Token::Number(3), string("s"), text("t"), Token::Punctuation('!')] {
        assert_eq!(token.clone(), token);
    }
}

#[test]
fn same_text_and_less_text_compare_by_characters() {
    assert!(same_text("abc", "abc"));
    assert!(!same_text("abc", "abd"));
    assert!(!same_text("abc", "ab"));
    assert!(same_text("", ""));
    assert!(less_text("", "a"));
    assert!(!less_text("", ""));
    assert!(!less_text("a", ""));
    assert!(less_text("a", "b"));
    assert!(!less_text("b", "a"));
    assert!(less_text("ab", "abc"));
    assert!(!less_text("abc", "ab"));
    assert!(!less_text("abc", "abc"));
    assert!(less_text("10", "9"));
    assert!(less_text("Z", "a"));
    assert!(less_text("z", "é"));
    for (a, b) in [("Fuji", "Granny"), ("apple", "Apple"), ("", "x"), ("é", "z"), ("€", "é")] {
        assert_eq!(less_text(a, b), a < b);
        assert_eq!(less_text(b, a), b < a);
    }
}

#[test]
fn chars_of_lists_the_characters() {
    assert_eq!(chars_of("aé€"), vec!['a', 'é', '€']);
    assert_eq!(chars_of(""), Vec::<char>::new());
}

#[test]
fn at_end_tells_the_end_from_text_that_cannot_be_read() {
    assert!(Tokenizer::new("").at_end());
    assert!(Tokenizer::new(" \n\t ").at_end());
    assert!(!Tokenizer::new(" a").at_end());
    assert!(!Tokenizer::new("'x").at_end());
    assert!(!Tokenizer::new("  99999999999999999999").at_end());
    assert!(!Tokenizer::new("\r").at_end());

    let mut tokenizer = Tokenizer::new("a 'x");
    assert!(!tokenizer.at_end());
    assert_eq!(tokenizer.next(), Some(text("a")));
    assert_eq!(tokenizer.peek(), None);
    assert!(!tokenizer.at_end());
    assert_eq!(tokenizer.remaining(), " 'x");

    let mut tokenizer = Tokenizer::new("a  ");
    tokenizer.next();
    assert!(tokenizer.at_end());
    assert_eq!(tokenizer.remaining(), "  ");
    assert_eq!(tokenizer.next(), None);
    assert!(tokenizer.at_end());
}
