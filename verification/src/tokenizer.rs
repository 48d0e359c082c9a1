//! Splitting SQL text into numbers, quoted strings, words and punctuation.

use vstd::prelude::*;
use vstd::string::*;
use crate::error::Error;

verus! {

/// One lexical unit of SQL text.
#[derive(Debug, PartialEq)]
pub enum Token {
    /// A run of digits.
    Number(i64),
    /// A quoted string, its quotes taken off.
    String(String),
    /// A word: a letter followed by letters, digits and underscores.
    Text(String),
    /// Any other single character.
    Punctuation(char),
}

/// What a token holds.
pub enum TokenView {
    Number(i64),
    String(Seq<char>),
    Text(Seq<char>),
    Punctuation(char),
}

impl View for Token {
    type V = TokenView;

    open spec fn view(&self) -> TokenView {
        match *self {
            Token::Number(n) => TokenView::Number(n),
            Token::String(s) => TokenView::String(s@),
            Token::Text(s) => TokenView::Text(s@),
            Token::Punctuation(c) => TokenView::Punctuation(c),
        }
    }
}

impl Clone for Token {
    fn clone(&self) -> (res: Self)
        ensures
            res@ == self@,
    {
        match self {
            Token::Number(n) => Token::Number(*n),
            Token::String(s) => Token::String(s.clone()),
            Token::Text(s) => Token::Text(s.clone()),
            Token::Punctuation(c) => Token::Punctuation(*c),
        }
    }
}

/// The views of a list of tokens, in order.
pub open spec fn tokens_view(v: Seq<Token>) -> Seq<TokenView> {
    Seq::new(v.len(), |i: int| v[i]@)
}

/// What `char::is_numeric` says of `c`.
pub uninterp spec fn char_is_numeric(c: char) -> bool;

/// What `char::is_alphabetic` says of `c`.
pub uninterp spec fn char_is_alphabetic(c: char) -> bool;

/// What `str::to_lowercase` makes of `s`.
pub uninterp spec fn lowercase(s: Seq<char>) -> Seq<char>;

/// Asks `char::is_numeric` whether Unicode puts `c` in one of its number
/// categories.  The answer is taken as it comes and only given a name.
#[verifier::external_body]
fn is_numeric(c: char) -> (r: bool)
    ensures
        r == char_is_numeric(c),
{
    c.is_numeric()
}

/// Asks `char::is_alphabetic` whether Unicode gives `c` the property
/// Alphabetic.  The answer is taken as it comes and only given a name.
#[verifier::external_body]
fn is_alphabetic(c: char) -> (r: bool)
    ensures
        r == char_is_alphabetic(c),
{
    c.is_alphabetic()
}

/// Makes the lowercase form of `s` with `str::to_lowercase`, as Unicode
/// defines it.  The result is taken as it comes and only given a name.
#[verifier::external_body]
pub(crate) fn to_lower(s: &str) -> (r: String)
    ensures
        r@ == lowercase(s@),
{
    s.to_lowercase()
}

/// Puts `c` at the end of `s` with `String::push`: afterwards `s` holds what
/// it held, followed by `c`.
#[verifier::external_body]
pub(crate) fn push_char(s: &mut String, c: char)
    ensures
        final(s)@ == old(s)@.push(c),
{
    s.push(c)
}

/// How the tokenizer sees a character.  A character that is both numeric and
/// alphabetic counts as numeric.
#[derive(Debug, Clone, Copy, PartialEq, Eq, Structural)]
pub enum CharKind {
    Numeric,
    Alphabetic,
    Other,
}

/// The kind of `c`.
pub open spec fn kind_of(c: char) -> CharKind {
    if char_is_numeric(c) {
        CharKind::Numeric
    } else if char_is_alphabetic(c) {
        CharKind::Alphabetic
    } else {
        CharKind::Other
    }
}

/// The kinds of the characters of `s`.
pub open spec fn kinds_of(s: Seq<char>) -> Seq<CharKind> {
    Seq::new(s.len(), |i: int| kind_of(s[i]))
}

/// Finds the kind of `c`.
pub fn classify(c: char) -> (k: CharKind)
    ensures
        k == kind_of(c),
{
    if is_numeric(c) {
        CharKind::Numeric
    } else if is_alphabetic(c) {
        CharKind::Alphabetic
    } else {
        CharKind::Other
    }
}

/// Whether `c` only separates tokens.
pub open spec fn is_space(c: char) -> bool {
    c == ' ' || c == '\n' || c == '\t'
}

/// The first position at or after `pos` that holds no white space.
pub open spec fn skip_spaces(s: Seq<char>, pos: int) -> int
    decreases s.len() - pos,
{
    if 0 <= pos < s.len() && is_space(s[pos]) {
        skip_spaces(s, pos + 1)
    } else {
        pos
    }
}

/// Whether a character of kind `k` goes on a number (`word` false) or a word
/// (`word` true) that has begun.
pub open spec fn in_run(c: char, k: CharKind, word: bool) -> bool {
    if word {
        k != CharKind::Other || c == '_'
    } else {
        k == CharKind::Numeric
    }
}

/// The first position at or after `pos` whose character does not go on the run.
pub open spec fn run_end(s: Seq<char>, kinds: Seq<CharKind>, pos: int, word: bool) -> int
    decreases s.len() - pos,
{
    if 0 <= pos < s.len() && in_run(s[pos], kinds[pos], word) {
        run_end(s, kinds, pos + 1, word)
    } else {
        pos
    }
}

/// The number that the decimal digits `s` spell, or `None` where one of the
/// characters is no digit from `0` to `9`.
pub open spec fn digits_value(s: Seq<char>) -> Option<int>
    decreases s.len(),
{
    if s.len() == 0 {
        Some(0)
    } else {
        match digits_value(s.drop_last()) {
            None => None,
            Some(v) => if '0' <= s.last() <= '9' {
                Some(v * 10 + (s.last() as int - '0' as int))
            } else {
                None
            },
        }
    }
}

/// The position after the quote that closes the string whose text starts at
/// `pos`, or `None` where none closes it.  Two quotes in a row stand for one
/// and close nothing.
pub open spec fn quoted_end(s: Seq<char>, pos: int, quote: char) -> Option<int>
    decreases s.len() - pos,
{
    if pos < 0 || pos >= s.len() {
        None
    } else if s[pos] != quote {
        quoted_end(s, pos + 1, quote)
    } else if pos + 1 < s.len() && s[pos + 1] == quote {
        quoted_end(s, pos + 2, quote)
    } else {
        Some(pos + 1)
    }
}

/// The text of the quoted string that starts at `pos`, with each doubled
/// quote made one.
pub open spec fn quoted_text(s: Seq<char>, pos: int, quote: char) -> Seq<char>
    decreases s.len() - pos,
{
    if pos < 0 || pos >= s.len() {
        Seq::empty()
    } else if s[pos] != quote {
        seq![s[pos]] + quoted_text(s, pos + 1, quote)
    } else if pos + 1 < s.len() && s[pos + 1] == quote {
        seq![quote] + quoted_text(s, pos + 2, quote)
    } else {
        Seq::empty()
    }
}

/// The token that starts at `p`, where `p` holds no white space and lies
/// inside `s`, and the position after it.  No token starts at `p` where a run
/// of digits is no `i64` and where a quoted string is not closed; the
/// position is then `p` itself.
pub open spec fn token_here(s: Seq<char>, kinds: Seq<CharKind>, p: int) -> (Option<TokenView>, int) {
    let c = s[p];
    if kinds[p] == CharKind::Numeric {
        let e = run_end(s, kinds, p + 1, false);
        match digits_value(s.subrange(p, e)) {
            Some(v) => if v <= i64::MAX {
                (Some(TokenView::Number(v as i64)), e)
            } else {
                (None, p)
            },
            None => (None, p),
        }
    } else if kinds[p] == CharKind::Alphabetic {
        let e = run_end(s, kinds, p + 1, true);
        (Some(TokenView::Text(s.subrange(p, e))), e)
    } else if c == '\'' || c == '"' {
        match quoted_end(s, p + 1, c) {
            Some(e) => (Some(TokenView::String(quoted_text(s, p + 1, c))), e),
            None => (None, p),
        }
    } else {
        (Some(TokenView::Punctuation(c)), p + 1)
    }
}

/// The first token of `s` at or after `pos` and the position after it; no
/// token and the length of `s` where only white space is left.
pub open spec fn lex(s: Seq<char>, kinds: Seq<CharKind>, pos: int) -> (Option<TokenView>, int) {
    let p = skip_spaces(s, pos);
    if p >= s.len() {
        (None, s.len() as int)
    } else {
        token_here(s, kinds, p)
    }
}

/// The first token of `s` at or after `pos`, each character taken by its own kind.
pub open spec fn token_at(s: Seq<char>, pos: int) -> (Option<TokenView>, int) {
    lex(s, kinds_of(s), pos)
}

proof fn lemma_skip_spaces_bounds(s: Seq<char>, pos: int)
    requires
        0 <= pos <= s.len(),
    ensures
        pos <= skip_spaces(s, pos) <= s.len(),
    decreases s.len() - pos,
{
    if pos < s.len() && is_space(s[pos]) {
        lemma_skip_spaces_bounds(s, pos + 1);
    }
}

proof fn lemma_run_end_bounds(s: Seq<char>, kinds: Seq<CharKind>, pos: int, word: bool)
    requires
        0 <= pos <= s.len(),
    ensures
        pos <= run_end(s, kinds, pos, word) <= s.len(),
    decreases s.len() - pos,
{
    if pos < s.len() && in_run(s[pos], kinds[pos], word) {
        lemma_run_end_bounds(s, kinds, pos + 1, word);
    }
}

proof fn lemma_quoted_end_bounds(s: Seq<char>, pos: int, quote: char)
    requires
        0 <= pos <= s.len(),
    ensures
        quoted_end(s, pos, quote) matches Some(e) ==> pos < e <= s.len(),
    decreases s.len() - pos,
{
    if pos < s.len() {
        if s[pos] != quote {
            lemma_quoted_end_bounds(s, pos + 1, quote);
        } else if pos + 1 < s.len() && s[pos + 1] == quote {
            lemma_quoted_end_bounds(s, pos + 2, quote);
        }
    }
}

/// A token ends after the place where it was looked for, inside the text.
pub proof fn lemma_lex_bounds(s: Seq<char>, kinds: Seq<CharKind>, pos: int)
    requires
        0 <= pos <= s.len(),
    ensures
        pos <= lex(s, kinds, pos).1 <= s.len(),
        lex(s, kinds, pos).0 is Some ==> pos < lex(s, kinds, pos).1,
{
    lemma_skip_spaces_bounds(s, pos);
    let p = skip_spaces(s, pos);
    if p < s.len() {
        lemma_run_end_bounds(s, kinds, p + 1, false);
        lemma_run_end_bounds(s, kinds, p + 1, true);
        lemma_quoted_end_bounds(s, p + 1, s[p]);
    }
}

/// The digits of a number spell no less than any of their prefixes.
proof fn lemma_digits_prefix(s: Seq<char>, k: int)
    requires
        0 <= k <= s.len(),
        digits_value(s) is Some,
    ensures
        digits_value(s.take(k)) matches Some(v) && 0 <= v <= digits_value(s).unwrap(),
    decreases s.len(),
{
    if k == s.len() {
        assert(s.take(k) =~= s);
        if s.len() > 0 {
            lemma_digits_prefix(s.drop_last(), 0);
        }
    } else {
        lemma_digits_prefix(s.drop_last(), k);
        assert(s.drop_last().take(k) =~= s.take(k));
        lemma_digits_prefix(s.drop_last(), s.len() - 1);
        assert(s.drop_last().take(s.len() - 1) =~= s.drop_last());
    }
}

/// A token ends after the place where it was looked for, inside the text.
pub proof fn lemma_token_bounds(s: Seq<char>, pos: int)
    requires
        0 <= pos <= s.len(),
    ensures
        pos <= token_at(s, pos).1 <= s.len(),
        token_at(s, pos).0 is Some ==> pos < token_at(s, pos).1,
{
    lemma_lex_bounds(s, kinds_of(s), pos);
}

/// Copies `chars[from..to]` into a string.
fn text_of_range(chars: &Vec<char>, from: usize, to: usize) -> (s: String)
    requires
        from <= to <= chars@.len(),
    ensures
        s@ == chars@.subrange(from as int, to as int),
{
    let mut s = String::new();
    let mut i = from;
    while i < to
        invariant
            from <= i <= to <= chars@.len(),
            s@ == chars@.subrange(from as int, i as int),
        decreases to - i,
    {
        push_char(&mut s, chars[i]);
        assert(chars@.subrange(from as int, i as int + 1) =~= chars@.subrange(
            from as int,
            i as int,
        ).push(chars@[i as int]));
        i = i + 1;
    }
    s
}

/// Whether a character of kind `k` goes on a number or a word that has begun.
fn goes_on(c: char, k: CharKind, word: bool) -> (r: bool)
    ensures
        r == in_run(c, k, word),
{
    if word {
        k != CharKind::Other || c == '_'
    } else {
        k == CharKind::Numeric
    }
}

/// Finds where the run that goes on at `pos` ends.
fn scan_run(chars: &Vec<char>, kinds: &Vec<CharKind>, pos: usize, word: bool) -> (e: usize)
    requires
        chars@.len() == kinds@.len(),
        pos <= chars@.len(),
    ensures
        e == run_end(chars@, kinds@, pos as int, word),
        pos <= e <= chars@.len(),
{
    let mut i = pos;
    while i < chars.len() && goes_on(chars[i], kinds[i], word)
        invariant
            chars@.len() == kinds@.len(),
            pos <= i <= chars@.len(),
            run_end(chars@, kinds@, pos as int, word) == run_end(chars@, kinds@, i as int, word),
        decreases chars@.len() - i,
    {
        i = i + 1;
    }
    i
}

/// Reads the decimal number that `chars[from..to]` spells, where it is an `i64`.
fn scan_number(chars: &Vec<char>, from: usize, to: usize) -> (res: Option<i64>)
    requires
        from <= to <= chars@.len(),
    ensures
        match res {
            Some(v) => digits_value(chars@.subrange(from as int, to as int)) == Some(v as int),
            None => match digits_value(chars@.subrange(from as int, to as int)) {
                Some(v) => v > i64::MAX,
                None => true,
            },
        },
{
    let ghost all = chars@.subrange(from as int, to as int);
    let mut acc: i64 = 0;
    let mut i = from;
    assert(all.take(0) =~= Seq::<char>::empty());
    while i < to
        invariant
            from <= i <= to <= chars@.len(),
            all == chars@.subrange(from as int, to as int),
            digits_value(all.take(i - from)) == Some(acc as int),
            acc >= 0,
        decreases to - i,
    {
        let c = chars[i];
        let ghost next = all.take(i - from + 1);
        assert(next.drop_last() =~= all.take(i - from));
        assert(next.last() == c);
        if c < '0' || c > '9' {
            proof {
                if digits_value(all) is Some {
                    lemma_digits_prefix(all, i - from + 1);
                }
            }
            return None;
        }
        let d = (c as u32 - '0' as u32) as i64;
        if acc > (i64::MAX - d) / 10 {
            proof {
                if digits_value(all) is Some {
                    lemma_digits_prefix(all, i - from + 1);
                }
            }
            return None;
        }
        acc = acc * 10 + d;
        i = i + 1;
    }
    assert(all.take(to - from) =~= all);
    Some(acc)
}

/// Reads the quoted string whose text starts at `pos`.
fn scan_quoted(chars: &Vec<char>, pos: usize, quote: char) -> (res: Option<(String, usize)>)
    requires
        pos <= chars@.len(),
    ensures
        match res {
            Some((text, e)) => quoted_end(chars@, pos as int, quote) == Some(e as int) && text@
                == quoted_text(chars@, pos as int, quote) && pos < e <= chars@.len(),
            None => quoted_end(chars@, pos as int, quote) is None,
        },
{
    let mut text = String::new();
    let mut i = pos;
    assert(text@ + quoted_text(chars@, pos as int, quote) =~= quoted_text(
        chars@,
        pos as int,
        quote,
    ));
    while i < chars.len()
        invariant
            pos <= i <= chars@.len(),
            quoted_end(chars@, pos as int, quote) == quoted_end(chars@, i as int, quote),
            quoted_text(chars@, pos as int, quote) == text@ + quoted_text(
                chars@,
                i as int,
                quote,
            ),
        decreases chars@.len() - i,
    {
        let c = chars[i];
        let ghost before = text@;
        if c != quote {
            push_char(&mut text, c);
            assert(before + (seq![c] + quoted_text(chars@, i + 1, quote)) =~= text@ + quoted_text(
                chars@,
                i + 1,
                quote,
            ));
            i = i + 1;
        } else if i + 1 < chars.len() && chars[i + 1] == quote {
            push_char(&mut text, quote);
            assert(before + (seq![quote] + quoted_text(chars@, i + 2, quote)) =~= text@
                + quoted_text(chars@, i + 2, quote));
            i = i + 2;
        } else {
            assert(text@ + Seq::<char>::empty() =~= text@);
            return Some((text, i + 1));
        }
    }
    None
}

/// Reads the first token of `chars` at or after `index`, the kind of each
/// character being given in `kinds`, and the position after it.
pub fn scan_token(chars: &Vec<char>, kinds: &Vec<CharKind>, index: usize) -> (res: (
    Option<Token>,
    usize,
))
    requires
        chars@.len() == kinds@.len(),
        index <= chars@.len(),
    ensures
        match res.0 {
            Some(t) => lex(chars@, kinds@, index as int).0 == Some(t@),
            None => lex(chars@, kinds@, index as int).0 is None,
        },
        res.1 == lex(chars@, kinds@, index as int).1,
        index <= res.1 <= chars@.len(),
{
    proof {
        lemma_lex_bounds(chars@, kinds@, index as int);
    }
    let mut p = index;
    while p < chars.len() && (chars[p] == ' ' || chars[p] == '\n' || chars[p] == '\t')
        invariant
            index <= p <= chars@.len(),
            skip_spaces(chars@, index as int) == skip_spaces(chars@, p as int),
        decreases chars@.len() - p,
    {
        p = p + 1;
    }
    if p >= chars.len() {
        return (None, chars.len());
    }
    let c = chars[p];
    match kinds[p] {
        CharKind::Numeric => {
            let e = scan_run(chars, kinds, p + 1, false);
            match scan_number(chars, p, e) {
                Some(v) => (Some(Token::Number(v)), e),
                None => (None, p),
            }
        },
        CharKind::Alphabetic => {
            let e = scan_run(chars, kinds, p + 1, true);
            (Some(Token::Text(text_of_range(chars, p, e))), e)
        },
        CharKind::Other => {
            if c == '\'' || c == '"' {
                match scan_quoted(chars, p + 1, c) {
                    Some((text, e)) => (Some(Token::String(text)), e),
                    None => (None, p),
                }
            } else {
                (Some(Token::Punctuation(c)), p + 1)
            }
        },
    }
}

/// The characters of `s`.
pub fn chars_of(s: &str) -> (v: Vec<char>)
    ensures
        v@ == s@,
{
    let mut v: Vec<char> = Vec::new();
    for c in it: s.chars()
        invariant
            it.seq() == s@,
            v@ == it.seq().take(it.index() as int),
    {
        v.push(c);
        assert(it.seq().take(it.index() + 1) =~= it.seq().take(it.index() as int).push(c));
    }
    assert(v@ =~= s@);
    v
}

/// Whether `a` comes before `b` in the order of the dictionary, character by
/// character: at the first place where they differ `a` has the lesser
/// character, or `a` ends there and `b` goes on.
pub open spec fn text_less(a: Seq<char>, b: Seq<char>) -> bool
    decreases a.len(),
{
    if b.len() == 0 {
        false
    } else if a.len() == 0 {
        true
    } else if a[0] != b[0] {
        (a[0] as u32) < (b[0] as u32)
    } else {
        text_less(a.skip(1), b.skip(1))
    }
}

/// Whether `a` comes before `b` in the order of the dictionary.
pub fn less_text(a: &str, b: &str) -> (r: bool)
    ensures
        r == text_less(a@, b@),
{
    let x = chars_of(a);
    let y = chars_of(b);
    let mut i: usize = 0;
    assert(x@.skip(0) =~= x@);
    assert(y@.skip(0) =~= y@);
    while i < x.len() && i < y.len() && x[i] == y[i]
        invariant
            i <= x@.len(),
            i <= y@.len(),
            text_less(x@, y@) == text_less(x@.skip(i as int), y@.skip(i as int)),
        decreases x@.len() - i,
    {
        assert(x@.skip(i as int).skip(1) =~= x@.skip(i as int + 1));
        assert(y@.skip(i as int).skip(1) =~= y@.skip(i as int + 1));
        i = i + 1;
    }
    if i >= y.len() {
        false
    } else if i >= x.len() {
        true
    } else {
        (x[i] as u32) < (y[i] as u32)
    }
}

/// Whether two strings hold the same characters.
pub fn same_text(a: &str, b: &str) -> (r: bool)
    ensures
        r == (a@ == b@),
{
    a.to_owned() == b.to_owned()
}

/// Whether `token` answers to the word `tag`, letter case apart: a word does
/// where its lowercase form is that of `tag`, a punctuation mark where `tag`
/// in lowercase is that one character, and no other token does.
pub open spec fn tag_matches(token: Option<TokenView>, tag: Seq<char>) -> bool {
    match token {
        Some(TokenView::Text(t)) => lowercase(t) == lowercase(tag),
        Some(TokenView::Punctuation(c)) => lowercase(tag) == seq![c],
        _ => false,
    }
}

/// Whether `token` answers to a tag, given the lowercase form of the tag and,
/// for a word, the lowercase form of the word.
pub fn tag_accepts(token: &Token, lowered_word: &str, lowered_tag: &str) -> (r: bool)
    ensures
        r == match token@ {
            TokenView::Text(_) => lowered_word@ == lowered_tag@,
            TokenView::Punctuation(c) => lowered_tag@ == seq![c],
            _ => false,
        },
{
    match token {
        Token::Text(_) => same_text(lowered_word, lowered_tag),
        Token::Punctuation(c) => {
            if lowered_tag.unicode_len() == 1 {
                let first = lowered_tag.get_char(0);
                assert(first == *c ==> lowered_tag@ =~= seq![*c]);
                first == *c
            } else {
                false
            }
        },
        _ => false,
    }
}

/// The position reached from `pos` by reading exactly the tokens `tokens`
/// one after another, or `None` where the text does not hold them there.
pub open spec fn tokens_span(text: Seq<char>, pos: int, tokens: Seq<TokenView>) -> Option<int>
    decreases tokens.len(),
{
    if tokens.len() == 0 {
        Some(pos)
    } else {
        match tokens_span(text, pos, tokens.drop_last()) {
            None => None,
            Some(p) => if token_at(text, p).0 == Some(tokens.last()) {
                Some(token_at(text, p).1)
            } else {
                None
            },
        }
    }
}

/// A reader of tokens over one piece of text.  It keeps the place it has read
/// up to; a token that cannot be read leaves it there.
pub struct Tokenizer<'a> {
    input: &'a str,
    chars: Vec<char>,
    kinds: Vec<CharKind>,
    index: usize,
}

impl<'a> Tokenizer<'a> {
    #[verifier::type_invariant]
    spec fn well_formed(self) -> bool {
        &&& self.chars@ == self.input@
        &&& self.kinds@ == kinds_of(self.chars@)
        &&& self.index <= self.chars@.len()
    }

    /// The text being read.
    pub closed spec fn text(&self) -> Seq<char> {
        self.chars@
    }

    /// The number of characters read so far.
    pub closed spec fn position(&self) -> int {
        self.index as int
    }

    /// A tokenizer at the start of `input`.
    pub fn new(input: &'a str) -> (t: Tokenizer<'a>)
        ensures
            t.text() == input@,
            t.position() == 0,
    {
        let chars = chars_of(input);
        let mut kinds: Vec<CharKind> = Vec::new();
        let mut i: usize = 0;
        while i < chars.len()
            invariant
                i <= chars@.len(),
                kinds@ == kinds_of(chars@.take(i as int)),
            decreases chars@.len() - i,
        {
            kinds.push(classify(chars[i]));
            assert(kinds@ =~= kinds_of(chars@.take(i as int + 1)));
            i = i + 1;
        }
        assert(chars@.take(chars@.len() as int) =~= chars@);
        Tokenizer { input, chars, kinds, index: 0 }
    }

    /// Tells that the position is never past the end of the text.
    pub fn check_position(&self)
        ensures
            0 <= self.position() <= self.text().len(),
    {
        proof {
            use_type_invariant(self);
        }
    }

    /// The first token at or after `index` and the position after it.
    fn get_token(&self, index: usize) -> (res: (Option<Token>, usize))
        requires
            index <= self.text().len(),
        ensures
            match res.0 {
                Some(t) => token_at(self.text(), index as int).0 == Some(t@),
                None => token_at(self.text(), index as int).0 is None,
            },
            res.1 == token_at(self.text(), index as int).1,
            index <= res.1 <= self.text().len(),
    {
        proof {
            use_type_invariant(self);
        }
        scan_token(&self.chars, &self.kinds, index)
    }

    /// Reads tokens for as long as `func` accepts them and returns those it
    /// accepted.  The token that `func` refuses is left unread.
    pub fn take_while(&mut self, func: impl Fn(&Token) -> bool) -> (res: Vec<Token>)
        requires
            forall|t: &Token| call_requires(func, (t,)),
        ensures
            final(self).text() == old(self).text(),
            tokens_span(old(self).text(), old(self).position(), tokens_view(res@)) == Some(
                final(self).position(),
            ),
            forall|i: int| 0 <= i < res@.len() ==> call_ensures(func, (&#[trigger] res@[i],), true),
            token_at(final(self).text(), final(self).position()).0 matches Some(t) ==> exists|
                refused: Token,
            |
                refused@ == t && call_ensures(func, (&refused,), false),
    {
        proof {
            use_type_invariant(&*self);
        }
        let mut result: Vec<Token> = Vec::new();
        let mut index = self.index;
        let ghost start = self.index as int;
        assert(tokens_view(result@) =~= Seq::<TokenView>::empty());
        loop
            invariant
                self.text() == old(self).text(),
                self.chars@ == self.input@,
                self.kinds@ == kinds_of(self.chars@),
                self.index <= self.chars@.len(),
                index <= self.text().len(),
                start == old(self).position(),
                forall|t: &Token| call_requires(func, (t,)),
                tokens_span(self.text(), start, tokens_view(result@)) == Some(index as int),
                forall|i: int|
                    0 <= i < result@.len() ==> call_ensures(func, (&#[trigger] result@[i],), true),
            ensures
                self.text() == old(self).text(),
                self.chars@ == self.input@,
                self.kinds@ == kinds_of(self.chars@),
                index <= self.chars@.len(),
                tokens_span(self.text(), start, tokens_view(result@)) == Some(index as int),
                forall|i: int|
                    0 <= i < result@.len() ==> call_ensures(func, (&#[trigger] result@[i],), true),
                token_at(self.text(), index as int).0 matches Some(t) ==> exists|refused: Token|
                    refused@ == t && call_ensures(func, (&refused,), false),
            decreases self.text().len() - index,
        {
            let (token, after) = self.get_token(index);
            proof {
                lemma_lex_bounds(self.text(), kinds_of(self.text()), index as int);
            }
            match token {
                None => {
                    break ;
                },
                Some(t) => {
                    if !func(&t) {
                        break ;
                    }
                    let ghost before = tokens_view(result@);
                    result.push(t);
                    proof {
                        assert(tokens_view(result@).drop_last() =~= before);
                        assert(tokens_view(result@).last() == t@);
                    }
                    index = after;
                },
            }
        }
        self.index = index;
        result
    }

    /// Whether nothing but white space is left to read.  Text from which no
    /// token can be read is not the end.
    pub fn at_end(&self) -> (r: bool)
        ensures
            r == (skip_spaces(self.text(), self.position()) >= self.text().len()),
    {
        proof {
            use_type_invariant(self);
            lemma_skip_spaces_bounds(self.chars@, self.index as int);
        }
        let mut p = self.index;
        while p < self.chars.len() && (self.chars[p] == ' ' || self.chars[p] == '\n'
            || self.chars[p] == '\t')
            invariant
                self.index <= p <= self.chars@.len(),
                skip_spaces(self.chars@, self.index as int) == skip_spaces(self.chars@, p as int),
            decreases self.chars@.len() - p,
        {
            p = p + 1;
        }
        p >= self.chars.len()
    }

    /// The text that has not been read yet.
    pub fn remaining(&self) -> (rest: &'a str)
        ensures
            rest@ == self.text().skip(self.position()),
    {
        proof {
            use_type_invariant(self);
        }
        self.input.substring_char(self.index, self.chars.len())
    }

    /// The next token, which stays unread.
    pub fn peek(&mut self) -> (res: Option<Token>)
        ensures
            final(self).text() == old(self).text(),
            final(self).position() == old(self).position(),
            match res {
                Some(t) => token_at(old(self).text(), old(self).position()).0 == Some(t@),
                None => token_at(old(self).text(), old(self).position()).0 is None,
            },
    {
        proof {
            use_type_invariant(&*self);
        }
        let (token, _) = self.get_token(self.index);
        token
    }

    /// Reads the next token.
    pub fn next(&mut self) -> (res: Option<Token>)
        ensures
            final(self).text() == old(self).text(),
            final(self).position() == token_at(old(self).text(), old(self).position()).1,
            match res {
                Some(t) => token_at(old(self).text(), old(self).position()).0 == Some(t@),
                None => token_at(old(self).text(), old(self).position()).0 is None,
            },
    {
        proof {
            use_type_invariant(&*self);
        }
        let (token, index) = self.get_token(self.index);
        self.index = index;
        token
    }

    /// Reads the next token and tells whether it answers to `tag`, letter
    /// case apart.
    pub fn tag(&mut self, tag: &str) -> (res: Result<(), Error>)
        ensures
            final(self).text() == old(self).text(),
            final(self).position() == token_at(old(self).text(), old(self).position()).1,
            res is Ok <==> tag_matches(
                token_at(old(self).text(), old(self).position()).0,
                tag@,
            ),
            res matches Err(e) ==> e is ParseError,
    {
        let token = match self.next() {
            Some(t) => t,
            None => {
                return Err(Error::ParseError);
            },
        };
        let lowered_tag = to_lower(tag);
        let lowered_word = match &token {
            Token::Text(t) => to_lower(t.as_str()),
            _ => String::new(),
        };
        if tag_accepts(&token, lowered_word.as_str(), lowered_tag.as_str()) {
            Ok(())
        } else {
            Err(Error::ParseError)
        }
    }
}

} // verus!
