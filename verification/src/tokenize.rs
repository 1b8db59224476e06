//! The scanner: from characters to a flat sequence of tokens.

use vstd::prelude::*;
use vstd::slice::slice_subrange;
use vstd::string::*;
use crate::error::{Error, ErrorModel};
use crate::text::{chars_of, push_char};

verus! {

/// A lexical unit of a document.
///
/// A number carries its literal exactly as written; turning it into a machine
/// number is left to the caller. A string carries the text between its quotes,
/// with no escape processing. A token owns its text: nothing borrows from the
/// input that was scanned.
#[derive(Debug, PartialEq, Eq)]
pub enum Token {
    BeginArray,
    BeginObject,
    EndArray,
    EndObject,
    NameSeparator,
    ValueSeparator,
    False,
    Null,
    True,
    Number(String),
    String(String),
}

/// The mathematical content of a [`Token`].
pub enum TokenModel {
    BeginArray,
    BeginObject,
    EndArray,
    EndObject,
    NameSeparator,
    ValueSeparator,
    False,
    Null,
    True,
    Number(Seq<char>),
    String(Seq<char>),
}

impl View for Token {
    type V = TokenModel;

    open spec fn view(&self) -> TokenModel {
        match self {
            Token::BeginArray => TokenModel::BeginArray,
            Token::BeginObject => TokenModel::BeginObject,
            Token::EndArray => TokenModel::EndArray,
            Token::EndObject => TokenModel::EndObject,
            Token::NameSeparator => TokenModel::NameSeparator,
            Token::ValueSeparator => TokenModel::ValueSeparator,
            Token::False => TokenModel::False,
            Token::Null => TokenModel::Null,
            Token::True => TokenModel::True,
            Token::Number(n) => TokenModel::Number(n@),
            Token::String(s) => TokenModel::String(s@),
        }
    }
}

/// A token as it is written in a document: punctuation and keywords as
/// themselves, a number as its literal, a string between double quotes.
pub open spec fn token_text(t: TokenModel) -> Seq<char> {
    match t {
        TokenModel::BeginArray => seq!['['],
        TokenModel::BeginObject => seq!['{'],
        TokenModel::EndArray => seq![']'],
        TokenModel::EndObject => seq!['}'],
        TokenModel::NameSeparator => seq![':'],
        TokenModel::ValueSeparator => seq![','],
        TokenModel::False => seq!['f', 'a', 'l', 's', 'e'],
        TokenModel::Null => seq!['n', 'u', 'l', 'l'],
        TokenModel::True => seq!['t', 'r', 'u', 'e'],
        TokenModel::Number(n) => n,
        TokenModel::String(s) => (seq!['"'] + s).push('"'),
    }
}

/// The views of a sequence of tokens, element by element.
pub open spec fn models(tokens: Seq<Token>) -> Seq<TokenModel> {
    tokens.map_values(|t: Token| t@)
}

impl Token {
    /// Renders the token as it is written in a document.
    pub fn text(&self) -> (out: String)
        ensures
            out@ == token_text(self@),
    {
        let mut out = String::new();
        match self {
            Token::BeginArray => push_char(&mut out, '['),
            Token::BeginObject => push_char(&mut out, '{'),
            Token::EndArray => push_char(&mut out, ']'),
            Token::EndObject => push_char(&mut out, '}'),
            Token::NameSeparator => push_char(&mut out, ':'),
            Token::ValueSeparator => push_char(&mut out, ','),
            Token::False => {
                out.append("false");
                proof {
                    reveal_strlit("false");
                }
            },
            Token::Null => {
                out.append("null");
                proof {
                    reveal_strlit("null");
                }
            },
            Token::True => {
                out.append("true");
                proof {
                    reveal_strlit("true");
                }
            },
            Token::Number(n) => out.append(n.as_str()),
            Token::String(s) => {
                push_char(&mut out, '"');
                out.append(s.as_str());
                push_char(&mut out, '"');
            },
        }
        assert(out@ =~= token_text(self@));
        out
    }
}

/// Whether `c` is one of the four characters that may separate tokens.
pub open spec fn is_whitespace(c: char) -> bool {
    c == ' ' || c == '\t' || c == '\n' || c == '\r'
}

/// Whether `c` is a decimal digit.
pub open spec fn is_digit(c: char) -> bool {
    '0' <= c && c <= '9'
}

/// Whether `s` has the character `c` at position `at`.
pub open spec fn has_char(s: Seq<char>, at: int, c: char) -> bool {
    0 <= at < s.len() && s[at] == c
}

/// What the scanner reports when the character it needs is not at `at`: the
/// character that stands there instead, or the end of the input.
pub open spec fn rejection_at(s: Seq<char>, at: int) -> ErrorModel {
    if 0 <= at < s.len() {
        ErrorModel::UnexpectedChar(s[at])
    } else {
        ErrorModel::UnexpectedEnd
    }
}

/// The end of the longest run of digits that starts at `from`.
pub open spec fn digits_end(s: Seq<char>, from: int) -> int
    decreases s.len() - from,
{
    if 0 <= from < s.len() && is_digit(s[from]) {
        digits_end(s, from + 1)
    } else {
        from
    }
}

/// The end of the run of one or more digits that must start at `from`.
pub open spec fn digits_from(s: Seq<char>, from: int) -> Result<int, ErrorModel> {
    if digits_end(s, from) == from {
        Err(rejection_at(s, from))
    } else {
        Ok(digits_end(s, from))
    }
}

/// Where the digits of an exponent start whose `e` is at `mark`: behind the
/// `e` and behind the sign, if there is one.
pub open spec fn exponent_start(s: Seq<char>, mark: int) -> int {
    if has_char(s, mark + 1, '+') || has_char(s, mark + 1, '-') {
        mark + 2
    } else {
        mark + 1
    }
}

/// The length of the number literal at the start of `s`: an optional minus
/// sign, digits, an optional fraction (a point and digits) and an optional
/// exponent (`e`, an optional sign and digits). The literal is read greedily,
/// never backing up: once a point or an `e` is taken, digits must follow.
pub open spec fn number_end(s: Seq<char>) -> Result<int, ErrorModel> {
    let start: int = if has_char(s, 0, '-') { 1 } else { 0 };
    match digits_from(s, start) {
        Err(e) => Err(e),
        Ok(whole) => {
            let fraction = if has_char(s, whole, '.') {
                digits_from(s, whole + 1)
            } else {
                Ok(whole)
            };
            match fraction {
                Err(e) => Err(e),
                Ok(mantissa) => if has_char(s, mantissa, 'e') {
                    digits_from(s, exponent_start(s, mantissa))
                } else {
                    Ok(mantissa)
                },
            }
        },
    }
}

/// The position of the first double quote at or after `from`, or the length
/// of `s` where there is none.
pub open spec fn quote_pos(s: Seq<char>, from: int) -> int
    decreases s.len() - from,
{
    if 0 <= from < s.len() && s[from] != '"' {
        quote_pos(s, from + 1)
    } else {
        from
    }
}

/// The length of the string literal at the start of `s`, quotes included. The
/// literal ends at the first double quote after the opening one.
pub open spec fn string_end(s: Seq<char>) -> Result<int, ErrorModel> {
    if !has_char(s, 0, '"') {
        Err(rejection_at(s, 0))
    } else if quote_pos(s, 1) < s.len() {
        Ok(quote_pos(s, 1) + 1)
    } else {
        Err(ErrorModel::UnexpectedEnd)
    }
}

/// Whether `s` starts with `word` from the word's position `k` on; if not,
/// the rejection at the first position where the two differ.
pub open spec fn word_check(s: Seq<char>, word: Seq<char>, k: int) -> Result<(), ErrorModel>
    decreases word.len() - k,
{
    if k < 0 || k >= word.len() {
        Ok(())
    } else if has_char(s, k, word[k]) {
        word_check(s, word, k + 1)
    } else {
        Err(rejection_at(s, k))
    }
}

/// One step of the scanner: the token read, if any, and how many characters
/// the step takes.
pub struct Step {
    pub token: Option<TokenModel>,
    pub len: int,
}

/// The step that reads the keyword `word` as `token`.
pub open spec fn keyword_step(s: Seq<char>, word: Seq<char>, token: TokenModel) -> Result<
    Step,
    ErrorModel,
> {
    match word_check(s, word, 0) {
        Ok(_) => Ok(Step { token: Some(token), len: word.len() as int }),
        Err(e) => Err(e),
    }
}

/// The step that reads one punctuation mark as `token`.
pub open spec fn mark_step(token: TokenModel) -> Result<Step, ErrorModel> {
    Ok(Step { token: Some(token), len: 1 })
}

/// The first step on a non-empty `s`, chosen by its first character.
pub open spec fn first_step(s: Seq<char>) -> Result<Step, ErrorModel>
    recommends
        s.len() > 0,
{
    let c = s[0];
    if is_whitespace(c) {
        Ok(Step { token: None, len: 1 })
    } else if c == '[' {
        mark_step(TokenModel::BeginArray)
    } else if c == '{' {
        mark_step(TokenModel::BeginObject)
    } else if c == ']' {
        mark_step(TokenModel::EndArray)
    } else if c == '}' {
        mark_step(TokenModel::EndObject)
    } else if c == ':' {
        mark_step(TokenModel::NameSeparator)
    } else if c == ',' {
        mark_step(TokenModel::ValueSeparator)
    } else if c == '"' {
        match string_end(s) {
            Ok(n) => Ok(Step { token: Some(TokenModel::String(s.subrange(1, n - 1))), len: n }),
            Err(e) => Err(e),
        }
    } else if c == '-' || is_digit(c) {
        match number_end(s) {
            Ok(n) => Ok(Step { token: Some(TokenModel::Number(s.take(n))), len: n }),
            Err(e) => Err(e),
        }
    } else if c == 'f' {
        keyword_step(s, "false"@, TokenModel::False)
    } else if c == 'n' {
        keyword_step(s, "null"@, TokenModel::Null)
    } else if c == 't' {
        keyword_step(s, "true"@, TokenModel::True)
    } else {
        Err(ErrorModel::UnexpectedChar(c))
    }
}

/// `tokens` with the token of a step, if it has one, put in front.
pub open spec fn with_token(token: Option<TokenModel>, tokens: Seq<TokenModel>) -> Seq<
    TokenModel,
> {
    match token {
        Some(t) => seq![t] + tokens,
        None => tokens,
    }
}

/// The tokens of `s`, in document order, or the first rejection. The empty
/// text has no tokens. Every step takes at least one character and no more
/// than are left (`first_step_advances`), so the last branch is never taken.
pub open spec fn lex(s: Seq<char>) -> Result<Seq<TokenModel>, ErrorModel>
    decreases s.len(),
{
    if s.len() == 0 {
        Ok(Seq::empty())
    } else {
        match first_step(s) {
            Err(e) => Err(e),
            Ok(step) => if 0 < step.len <= s.len() {
                match lex(s.skip(step.len)) {
                    Ok(rest) => Ok(with_token(step.token, rest)),
                    Err(e) => Err(e),
                }
            } else {
                Err(ErrorModel::UnexpectedEnd)
            },
        }
    }
}

fn rejection(input: &[char], at: usize) -> (e: Error)
    ensures
        e@ == rejection_at(input@, at as int),
{
    if at < input.len() {
        Error::UnexpectedChar(input[at])
    } else {
        Error::UnexpectedEnd
    }
}

fn digits(input: &[char], from: usize) -> (r: Result<usize, Error>)
    requires
        from <= input.len(),
    ensures
        match digits_from(input@, from as int) {
            Ok(end) => r == Ok::<usize, Error>(end as usize) && from < end <= input.len(),
            Err(e) => r is Err && r->Err_0@ == e,
        },
{
    let mut end: usize = from;
    while end < input.len() && input[end] >= '0' && input[end] <= '9'
        invariant
            from <= end <= input.len(),
            digits_end(input@, from as int) == digits_end(input@, end as int),
        decreases input.len() - end,
    {
        end += 1;
    }
    if end == from {
        Err(rejection(input, from))
    } else {
        Ok(end)
    }
}

fn text_between(input: &[char], from: usize, to: usize) -> (out: String)
    requires
        from <= to <= input.len(),
    ensures
        out@ == input@.subrange(from as int, to as int),
{
    let mut out = String::new();
    let mut at: usize = from;
    while at < to
        invariant
            from <= at <= to <= input.len(),
            out@ == input@.subrange(from as int, at as int),
        decreases to - at,
    {
        push_char(&mut out, input[at]);
        at += 1;
        assert(out@ =~= input@.subrange(from as int, at as int));
    }
    out
}

/// Reads the number literal at the start of `input`. Returns how many
/// characters it takes, and the literal.
pub fn expect_number(input: &[char]) -> (r: Result<(usize, String), Error>)
    ensures
        match number_end(input@) {
            Ok(n) => r is Ok && r->Ok_0.0 == n && r->Ok_0.1@ == input@.take(n) && 0 < n
                <= input.len(),
            Err(e) => r is Err && r->Err_0@ == e,
        },
{
    let start: usize = if input.len() > 0 && input[0] == '-' { 1 } else { 0 };
    let whole = digits(input, start)?;
    let mantissa = if whole < input.len() && input[whole] == '.' {
        digits(input, whole + 1)?
    } else {
        whole
    };
    let end = if mantissa < input.len() && input[mantissa] == 'e' {
        let signed = mantissa + 1 < input.len() && (input[mantissa + 1] == '+' || input[mantissa
            + 1] == '-');
        digits(input, if signed { mantissa + 2 } else { mantissa + 1 })?
    } else {
        mantissa
    };
    Ok((end, text_between(input, 0, end)))
}

/// Reads the string literal at the start of `input`. Returns how many
/// characters it takes, quotes included, and the text between the quotes.
pub fn expect_string(input: &[char]) -> (r: Result<(usize, String), Error>)
    ensures
        match string_end(input@) {
            Ok(n) => r is Ok && r->Ok_0.0 == n && r->Ok_0.1@ == input@.subrange(1, n - 1) && 2
                <= n <= input.len(),
            Err(e) => r is Err && r->Err_0@ == e,
        },
{
    if input.len() == 0 || input[0] != '"' {
        return Err(rejection(input, 0));
    }
    let mut at: usize = 1;
    while at < input.len() && input[at] != '"'
        invariant
            1 <= at <= input.len(),
            quote_pos(input@, 1) == quote_pos(input@, at as int),
        decreases input.len() - at,
    {
        at += 1;
    }
    if at < input.len() {
        Ok((at + 1, text_between(input, 1, at)))
    } else {
        Err(Error::UnexpectedEnd)
    }
}

fn expect_word(input: &[char], word: &str) -> (r: Result<(), Error>)
    ensures
        match word_check(input@, word@, 0) {
            Ok(_) => r is Ok && word@.len() <= input.len(),
            Err(e) => r is Err && r->Err_0@ == e,
        },
{
    let mut k: usize = 0;
    for c in it: word.chars()
        invariant
            it.seq() == word@,
            k == it.index(),
            k <= input.len(),
            word_check(input@, word@, 0) == word_check(input@, word@, k as int),
    {
        if k < input.len() && input[k] == c {
            k += 1;
        } else {
            return Err(rejection(input, k));
        }
    }
    Ok(())
}

/// Checks that `input` starts with the keyword `null`.
pub fn expect_null(input: &[char]) -> (r: Result<(), Error>)
    ensures
        match word_check(input@, "null"@, 0) {
            Ok(_) => r is Ok && 4 <= input.len(),
            Err(e) => r is Err && r->Err_0@ == e,
        },
{
    proof {
        reveal_strlit("null");
    }
    expect_word(input, "null")
}

/// Checks that `input` starts with the keyword `false`.
pub fn expect_false(input: &[char]) -> (r: Result<(), Error>)
    ensures
        match word_check(input@, "false"@, 0) {
            Ok(_) => r is Ok && 5 <= input.len(),
            Err(e) => r is Err && r->Err_0@ == e,
        },
{
    proof {
        reveal_strlit("false");
    }
    expect_word(input, "false")
}

/// Checks that `input` starts with the keyword `true`.
pub fn expect_true(input: &[char]) -> (r: Result<(), Error>)
    ensures
        match word_check(input@, "true"@, 0) {
            Ok(_) => r is Ok && 4 <= input.len(),
            Err(e) => r is Err && r->Err_0@ == e,
        },
{
    proof {
        reveal_strlit("true");
    }
    expect_word(input, "true")
}

/// The view of a token that a step may have read.
pub open spec fn step_token(token: Option<Token>) -> Option<TokenModel> {
    match token {
        Some(t) => Some(t@),
        None => None,
    }
}

/// `r` with `prefix` put in front of its tokens.
pub open spec fn after(prefix: Seq<TokenModel>, r: Result<Seq<TokenModel>, ErrorModel>) -> Result<
    Seq<TokenModel>,
    ErrorModel,
> {
    match r {
        Ok(rest) => Ok(prefix + rest),
        Err(e) => Err(e),
    }
}

/// The result of a scan, as the contracts speak of it.
pub open spec fn scanned(r: Result<Vec<Token>, Error>) -> Result<Seq<TokenModel>, ErrorModel> {
    match r {
        Ok(tokens) => Ok(models(tokens@)),
        Err(e) => Err(e@),
    }
}

proof fn lemma_lex_step(
    s: Seq<char>,
    before: Seq<TokenModel>,
    token: Option<TokenModel>,
    n: int,
)
    requires
        s.len() > 0,
        first_step(s) == Ok::<Step, ErrorModel>(Step { token, len: n }),
        0 < n <= s.len(),
    ensures
        after(before, lex(s)) == after(
            match token {
                Some(t) => before.push(t),
                None => before,
            },
            lex(s.skip(n)),
        ),
{
    match lex(s.skip(n)) {
        Ok(rest) => {
            match token {
                Some(t) => {
                    assert(before + (seq![t] + rest) =~= before.push(t) + rest);
                },
                None => {},
            }
        },
        Err(_) => {},
    }
}

/// Scans `input` into its tokens, in document order. Whitespace separates
/// tokens and is otherwise ignored. The scan stops at the first character
/// that cannot be read, and then no token is returned.
pub fn tokenize(input: &str) -> (r: Result<Vec<Token>, Error>)
    ensures
        scanned(r) == lex(input@),
{
    let chars = chars_of(input);
    let mut tokens: Vec<Token> = Vec::new();
    let mut p: &[char] = chars.as_slice();
    proof {
        assert(models(tokens@) =~= Seq::empty());
        assert(after(Seq::empty(), lex(p@)) == lex(p@)) by {
            if let Ok(rest) = lex(p@) {
                assert(Seq::<TokenModel>::empty() + rest =~= rest);
            }
        }
    }
    while p.len() > 0
        invariant
            lex(input@) == after(models(tokens@), lex(p@)),
        decreases p.len(),
    {
        let ghost s = p@;
        let ghost before = models(tokens@);
        let c = p[0];
        let (token, n): (Option<Token>, usize) = if c == ' ' || c == '\t' || c == '\n' || c
            == '\r' {
            (None, 1)
        } else if c == '[' {
            (Some(Token::BeginArray), 1)
        } else if c == '{' {
            (Some(Token::BeginObject), 1)
        } else if c == ']' {
            (Some(Token::EndArray), 1)
        } else if c == '}' {
            (Some(Token::EndObject), 1)
        } else if c == ':' {
            (Some(Token::NameSeparator), 1)
        } else if c == ',' {
            (Some(Token::ValueSeparator), 1)
        } else if c == '"' {
            let (cnt, text) = expect_string(p)?;
            (Some(Token::String(text)), cnt)
        } else if c == '-' || (c >= '0' && c <= '9') {
            let (cnt, literal) = expect_number(p)?;
            (Some(Token::Number(literal)), cnt)
        } else if c == 'f' {
            expect_false(p)?;
            (Some(Token::False), 5)
        } else if c == 'n' {
            expect_null(p)?;
            (Some(Token::Null), 4)
        } else if c == 't' {
            expect_true(p)?;
            (Some(Token::True), 4)
        } else {
            return Err(Error::UnexpectedChar(c));
        };
        proof {
            reveal_strlit("false");
            reveal_strlit("null");
            reveal_strlit("true");
            lemma_lex_step(s, before, step_token(token), n as int);
        }
        if let Some(t) = token {
            tokens.push(t);
            assert(models(tokens@) =~= before.push(t@));
        }
        p = slice_subrange(p, n, p.len());
        assert(p@ =~= s.skip(n as int));
    }
    Ok(tokens)
}

proof fn lemma_word_check_fits(s: Seq<char>, word: Seq<char>, k: int)
    requires
        0 <= k <= word.len(),
        k <= s.len(),
        word_check(s, word, k) is Ok,
    ensures
        word.len() <= s.len(),
    decreases word.len() - k,
{
    if k < word.len() {
        lemma_word_check_fits(s, word, k + 1);
    }
}

/// Whether the characters of `s` from `from` up to `to` are digits, and at
/// least one.
pub open spec fn digits_between(s: Seq<char>, from: int, to: int) -> bool {
    0 <= from < to <= s.len() && forall|i: int| from <= i < to ==> is_digit(#[trigger] s[i])
}

/// Whether `t` is a number literal whose integer part ends at `whole` and
/// whose fraction, if it has one, ends at `mantissa`: an optional minus
/// sign, one or more digits, optionally a point and one or more digits,
/// optionally an `e`, an optional sign and one or more digits.
pub open spec fn has_number_shape(t: Seq<char>, whole: int, mantissa: int) -> bool {
    &&& digits_between(t, if has_char(t, 0, '-') { 1int } else { 0int }, whole)
    &&& mantissa == whole || (has_char(t, whole, '.') && digits_between(t, whole + 1, mantissa))
    &&& mantissa == t.len() || (has_char(t, mantissa, 'e') && digits_between(
        t,
        exponent_start(t, mantissa),
        t.len() as int,
    ))
}

/// Whether `t` is a number literal.
pub open spec fn is_number_literal(t: Seq<char>) -> bool {
    exists|whole: int, mantissa: int| has_number_shape(t, whole, mantissa)
}

proof fn lemma_digits_end(s: Seq<char>, from: int)
    requires
        0 <= from <= s.len(),
    ensures
        from <= digits_end(s, from) <= s.len(),
        forall|i: int| from <= i < digits_end(s, from) ==> is_digit(#[trigger] s[i]),
        digits_end(s, from) < s.len() ==> !is_digit(s[digits_end(s, from)]),
    decreases s.len() - from,
{
    if from < s.len() && is_digit(s[from]) {
        lemma_digits_end(s, from + 1);
    }
}

proof fn lemma_digits_end_is(s: Seq<char>, from: int, to: int)
    requires
        0 <= from <= to <= s.len(),
        forall|i: int| from <= i < to ==> is_digit(#[trigger] s[i]),
        to < s.len() ==> !is_digit(s[to]),
    ensures
        digits_end(s, from) == to,
    decreases to - from,
{
    if from < to {
        lemma_digits_end_is(s, from + 1, to);
    }
}

/// What the scanner takes as a number is a number literal, and the longest
/// there is: no digit follows it.
pub proof fn number_end_is_a_literal(s: Seq<char>)
    requires
        number_end(s) is Ok,
    ensures
        0 < number_end(s)->Ok_0 <= s.len(),
        is_number_literal(s.take(number_end(s)->Ok_0)),
        number_end(s)->Ok_0 < s.len() ==> !is_digit(s[number_end(s)->Ok_0]),
{
    let n = number_end(s)->Ok_0;
    let start: int = if has_char(s, 0, '-') { 1 } else { 0 };
    lemma_digits_end(s, start);
    let whole = digits_end(s, start);
    if has_char(s, whole, '.') {
        lemma_digits_end(s, whole + 1);
    }
    let mantissa = if has_char(s, whole, '.') { digits_end(s, whole + 1) } else { whole };
    if has_char(s, mantissa, 'e') {
        lemma_digits_end(s, exponent_start(s, mantissa));
    }
    let t = s.take(n);
    assert(forall|i: int| 0 <= i < n ==> t[i] == s[i]);
    assert(exponent_start(t, mantissa) == exponent_start(s, mantissa) || !has_char(
        s,
        mantissa,
        'e',
    ));
    assert(has_number_shape(t, whole, mantissa));
}

/// Every number literal is taken by the scanner, and in full.
pub proof fn number_literal_is_taken(t: Seq<char>)
    requires
        is_number_literal(t),
    ensures
        number_end(t) == Ok::<int, ErrorModel>(t.len() as int),
{
    let (whole, mantissa) = choose|whole: int, mantissa: int| has_number_shape(t, whole, mantissa);
    let start: int = if has_char(t, 0, '-') { 1 } else { 0 };
    assert(whole < t.len() ==> !is_digit('.') && !is_digit('e'));
    lemma_digits_end_is(t, start, whole);
    if mantissa != whole {
        lemma_digits_end_is(t, whole + 1, mantissa);
    }
    if mantissa != t.len() {
        lemma_digits_end_is(t, exponent_start(t, mantissa), t.len() as int);
    }
}

/// What the scanner takes as a string starts with a double quote and ends
/// with the next one.
pub proof fn string_end_is_the_next_quote(s: Seq<char>)
    requires
        string_end(s) is Ok,
    ensures
        2 <= string_end(s)->Ok_0 <= s.len(),
        s[0] == '"',
        s[string_end(s)->Ok_0 - 1] == '"',
        forall|i: int| 1 <= i < string_end(s)->Ok_0 - 1 ==> #[trigger] s[i] != '"',
{
    lemma_quote_pos(s, 1);
}

proof fn lemma_quote_pos(s: Seq<char>, from: int)
    requires
        0 <= from <= s.len(),
    ensures
        from <= quote_pos(s, from) <= s.len(),
        forall|i: int| from <= i < quote_pos(s, from) ==> #[trigger] s[i] != '"',
        quote_pos(s, from) < s.len() ==> s[quote_pos(s, from)] == '"',
    decreases s.len() - from,
{
    if from < s.len() && s[from] != '"' {
        lemma_quote_pos(s, from + 1);
    }
}

/// Every step on a non-empty text takes at least one character and no more
/// than the text has.
pub proof fn first_step_advances(s: Seq<char>)
    requires
        s.len() > 0,
        first_step(s) is Ok,
    ensures
        0 < first_step(s)->Ok_0.len <= s.len(),
{
    reveal_strlit("false");
    reveal_strlit("null");
    reveal_strlit("true");
    let c = s[0];
    if c == '"' {
        lemma_quote_pos(s, 1);
    } else if c == '-' || is_digit(c) {
        let start: int = if has_char(s, 0, '-') { 1 } else { 0 };
        lemma_digits_end(s, start);
        let whole = digits_end(s, start);
        if has_char(s, whole, '.') {
            lemma_digits_end(s, whole + 1);
        }
        let mantissa = if has_char(s, whole, '.') { digits_end(s, whole + 1) } else { whole };
        if has_char(s, mantissa, 'e') {
            lemma_digits_end(s, exponent_start(s, mantissa));
        }
    } else if c == 'f' {
        lemma_word_check_fits(s, "false"@, 0);
    } else if c == 'n' {
        lemma_word_check_fits(s, "null"@, 0);
    } else if c == 't' {
        lemma_word_check_fits(s, "true"@, 0);
    }
}

/// Whether every character of `w` is whitespace.
pub open spec fn all_whitespace(w: Seq<char>) -> bool {
    forall|i: int| 0 <= i < w.len() ==> is_whitespace(#[trigger] w[i])
}

/// Whitespace in front of a text does not change what the text scans to.
pub proof fn lex_ignores_leading_whitespace(w: Seq<char>, s: Seq<char>)
    requires
        all_whitespace(w),
    ensures
        lex(w + s) == lex(s),
    decreases w.len(),
{
    if w.len() > 0 {
        assert(is_whitespace(w[0]));
        assert((w + s).skip(1) =~= w.skip(1) + s);
        lex_ignores_leading_whitespace(w.skip(1), s);
        assert(lex(w + s) == lex((w + s).skip(1))) by {
            if let Ok(rest) = lex((w + s).skip(1)) {
                assert(with_token(None, rest) == rest);
            }
        }
    } else {
        assert(w + s =~= s);
    }
}

/// Whether `w` is empty or starts with whitespace.
pub open spec fn starts_blank(w: Seq<char>) -> bool {
    w.len() == 0 || is_whitespace(w[0])
}

proof fn lemma_digits_end_append(s: Seq<char>, w: Seq<char>, from: int)
    requires
        starts_blank(w),
        0 <= from <= s.len(),
    ensures
        digits_end(s + w, from) == digits_end(s, from),
    decreases s.len() - from,
{
    if from < s.len() {
        assert((s + w)[from] == s[from]);
        if is_digit(s[from]) {
            lemma_digits_end_append(s, w, from + 1);
        }
    } else if w.len() > 0 {
        assert((s + w)[from] == w[0]);
    }
}

proof fn lemma_has_char_append(s: Seq<char>, w: Seq<char>, at: int, c: char)
    requires
        starts_blank(w),
        !is_whitespace(c),
        at <= s.len(),
    ensures
        has_char(s + w, at, c) == has_char(s, at, c),
{
    if 0 <= at < s.len() {
        assert((s + w)[at] == s[at]);
    } else if at == s.len() && w.len() > 0 {
        assert((s + w)[at] == w[0]);
    }
}

proof fn lemma_number_end_append(s: Seq<char>, w: Seq<char>)
    requires
        starts_blank(w),
        number_end(s) is Ok,
    ensures
        number_end(s + w) == number_end(s),
{
    let start: int = if has_char(s, 0, '-') { 1 } else { 0 };
    lemma_has_char_append(s, w, 0, '-');
    lemma_digits_end(s, start);
    lemma_digits_end_append(s, w, start);
    let whole = digits_end(s, start);
    lemma_has_char_append(s, w, whole, '.');
    if has_char(s, whole, '.') {
        lemma_digits_end(s, whole + 1);
        lemma_digits_end_append(s, w, whole + 1);
    }
    let mantissa = if has_char(s, whole, '.') { digits_end(s, whole + 1) } else { whole };
    lemma_has_char_append(s, w, mantissa, 'e');
    if has_char(s, mantissa, 'e') {
        lemma_has_char_append(s, w, mantissa + 1, '+');
        lemma_has_char_append(s, w, mantissa + 1, '-');
        lemma_digits_end(s, exponent_start(s, mantissa));
        lemma_digits_end_append(s, w, exponent_start(s, mantissa));
    }
}

proof fn lemma_quote_pos_append(s: Seq<char>, w: Seq<char>, from: int)
    requires
        0 <= from <= s.len(),
        quote_pos(s, from) < s.len(),
    ensures
        quote_pos(s + w, from) == quote_pos(s, from),
    decreases s.len() - from,
{
    assert((s + w)[from] == s[from]);
    if s[from] != '"' {
        lemma_quote_pos_append(s, w, from + 1);
    }
}

proof fn lemma_word_check_append(s: Seq<char>, w: Seq<char>, word: Seq<char>, k: int)
    requires
        0 <= k,
        word_check(s, word, k) is Ok,
    ensures
        word_check(s + w, word, k) is Ok,
    decreases word.len() - k,
{
    if k < word.len() {
        assert((s + w)[k] == s[k]);
        lemma_word_check_append(s, w, word, k + 1);
    }
}

proof fn lemma_first_step_append(s: Seq<char>, w: Seq<char>)
    requires
        starts_blank(w),
        s.len() > 0,
        first_step(s) is Ok,
    ensures
        first_step(s + w) == first_step(s),
{
    let c = s[0];
    assert((s + w)[0] == c);
    if c == '"' {
        lemma_has_char_append(s, w, 0, '"');
        lemma_quote_pos(s, 1);
        lemma_quote_pos_append(s, w, 1);
        let n = string_end(s)->Ok_0;
        assert((s + w).subrange(1, n - 1) =~= s.subrange(1, n - 1));
    } else if c == '-' || is_digit(c) {
        lemma_number_end_append(s, w);
        number_end_is_a_literal(s);
        let n = number_end(s)->Ok_0;
        assert((s + w).take(n) =~= s.take(n));
    } else if c == 'f' {
        lemma_word_check_append(s, w, "false"@, 0);
    } else if c == 'n' {
        lemma_word_check_append(s, w, "null"@, 0);
    } else if c == 't' {
        lemma_word_check_append(s, w, "true"@, 0);
    }
}

/// Two texts with whitespace between them scan one after the other: where
/// `s` scans and `w` is empty or starts with whitespace, the tokens of `s`
/// followed by `w` are those of `s` and then whatever `w` scans to.
pub proof fn lex_of_separated_texts(s: Seq<char>, w: Seq<char>)
    requires
        lex(s) is Ok,
        starts_blank(w),
    ensures
        lex(s + w) == after(lex(s)->Ok_0, lex(w)),
    decreases s.len(),
{
    if s.len() == 0 {
        assert(s + w =~= w);
        if let Ok(rest) = lex(w) {
            assert(Seq::<TokenModel>::empty() + rest =~= rest);
        }
    } else {
        first_step_advances(s);
        lemma_first_step_append(s, w);
        let step = first_step(s)->Ok_0;
        assert((s + w).skip(step.len) =~= s.skip(step.len) + w);
        lex_of_separated_texts(s.skip(step.len), w);
        if let Ok(rest) = lex(w) {
            let inner = lex(s.skip(step.len))->Ok_0;
            assert(with_token(step.token, inner + rest) =~= with_token(step.token, inner) + rest);
        }
    }
}

/// Whitespace behind a text that scans does not change what the text scans
/// to.
pub proof fn lex_ignores_trailing_whitespace(s: Seq<char>, w: Seq<char>)
    requires
        all_whitespace(w),
        lex(s) is Ok,
    ensures
        lex(s + w) == lex(s),
{
    lex_ignores_leading_whitespace(w, Seq::empty());
    assert(w + Seq::<char>::empty() =~= w);
    if w.len() > 0 {
        assert(is_whitespace(w[0]));
    }
    lex_of_separated_texts(s, w);
    assert(lex(s)->Ok_0 + Seq::<TokenModel>::empty() =~= lex(s)->Ok_0);
}

} // verus!
