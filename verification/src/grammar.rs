//! The grammar of documents, and the proof that the reader reads exactly
//! what the grammar writes: the parser on tokens, the scanner on text, and
//! the two together.

use vstd::prelude::*;
use crate::error::ErrorModel;
use crate::json::{document, ValueModel};
use crate::parse::{items_of, members_of, starts_with, value_of, value_of_advances, Parsed};
use crate::tokenize::{
    has_number_shape, is_number_literal, lex, lex_ignores_leading_whitespace,
    first_step, lex_of_separated_texts, number_literal_is_taken, quote_pos, token_text,
    word_check, Step, TokenModel,
};

verus! {

/// A document as it is written: like a value, but an object keeps its
/// members in the order they stand in, a repeated key included.
pub enum Syntax {
    Null,
    Bool(bool),
    Number(Seq<char>),
    String(Seq<char>),
    Array(Seq<Syntax>),
    Object(Seq<(Seq<char>, Syntax)>),
}

/// The tokens that `x` is written as.
pub open spec fn tokens_of(x: Syntax) -> Seq<TokenModel>
    decreases x, 0nat,
{
    match x {
        Syntax::Null => seq![TokenModel::Null],
        Syntax::Bool(b) => seq![if b { TokenModel::True } else { TokenModel::False }],
        Syntax::Number(n) => seq![TokenModel::Number(n)],
        Syntax::String(s) => seq![TokenModel::String(s)],
        Syntax::Array(items) => seq![TokenModel::BeginArray] + items_tokens(items, 0),
        Syntax::Object(members) => seq![TokenModel::BeginObject] + members_tokens(members, 0),
    }
}

/// The tokens of the items of an array from the one at `from` on, each but
/// the very first behind a comma, and of the closing bracket.
pub open spec fn items_tokens(items: Seq<Syntax>, from: nat) -> Seq<TokenModel>
    decreases items, items.len() - from,
{
    if from >= items.len() {
        seq![TokenModel::EndArray]
    } else {
        let comma = if from > 0 { seq![TokenModel::ValueSeparator] } else { Seq::empty() };
        comma + tokens_of(items[from as int]) + items_tokens(items, from + 1)
    }
}

/// The tokens of the members of an object from the one at `from` on, each
/// but the very first behind a comma, and of the closing brace. A member is
/// its key, a colon and its value.
pub open spec fn members_tokens(members: Seq<(Seq<char>, Syntax)>, from: nat) -> Seq<TokenModel>
    decreases members, members.len() - from,
{
    if from >= members.len() {
        seq![TokenModel::EndObject]
    } else {
        let comma = if from > 0 { seq![TokenModel::ValueSeparator] } else { Seq::empty() };
        comma + seq![TokenModel::String(members[from as int].0), TokenModel::NameSeparator]
            + tokens_of(members[from as int].1) + members_tokens(members, from + 1)
    }
}

/// The value that `x` stands for. Of two members with the same key the later
/// one counts.
pub open spec fn meaning(x: Syntax) -> ValueModel
    decreases x, 0nat,
{
    match x {
        Syntax::Null => ValueModel::Null,
        Syntax::Bool(b) => ValueModel::Bool(b),
        Syntax::Number(n) => ValueModel::Number(n),
        Syntax::String(s) => ValueModel::String(s),
        Syntax::Array(items) => ValueModel::Array(items_meaning(items, items.len())),
        Syntax::Object(members) => ValueModel::Object(members_meaning(members, members.len())),
    }
}

/// The values that the first `n` items of an array stand for.
pub open spec fn items_meaning(items: Seq<Syntax>, n: nat) -> Seq<ValueModel>
    decreases items, n,
{
    if n == 0 || n > items.len() {
        Seq::empty()
    } else {
        items_meaning(items, (n - 1) as nat).push(meaning(items[n - 1]))
    }
}

/// The mapping that the first `n` members of an object stand for.
pub open spec fn members_meaning(members: Seq<(Seq<char>, Syntax)>, n: nat) -> Map<
    Seq<char>,
    ValueModel,
>
    decreases members, n,
{
    if n == 0 || n > members.len() {
        Map::empty()
    } else {
        members_meaning(members, (n - 1) as nat).insert(
            members[n - 1].0,
            meaning(members[n - 1].1),
        )
    }
}

/// Whether a value may start with the token `t`.
pub open spec fn starts_value(t: TokenModel) -> bool {
    t is Null || t is False || t is True || t is Number || t is String || t is BeginArray
        || t is BeginObject
}

proof fn lemma_first_token(x: Syntax)
    ensures
        tokens_of(x).len() > 0,
        starts_value(tokens_of(x)[0]),
{
}

proof fn lemma_items_meaning_len(items: Seq<Syntax>, n: nat)
    requires
        n <= items.len(),
    ensures
        items_meaning(items, n).len() == n,
    decreases n,
{
    if n > 0 {
        lemma_items_meaning_len(items, (n - 1) as nat);
    }
}

proof fn lemma_members_meaning_empty(members: Seq<(Seq<char>, Syntax)>, n: nat)
    requires
        n <= members.len(),
    ensures
        (members_meaning(members, n) == Map::<Seq<char>, ValueModel>::empty()) == (n == 0),
{
    if n > 0 {
        assert(members_meaning(members, n).contains_key(members[n - 1].0));
    }
}

/// The parser reads whatever the grammar writes: from the tokens of `x`,
/// whatever follows them, it reads the value that `x` stands for and leaves
/// what follows.
pub proof fn value_of_reads_what_is_written(x: Syntax, rest: Seq<TokenModel>)
    ensures
        value_of(tokens_of(x) + rest) == Ok::<Parsed, ErrorModel>(
            Parsed { value: meaning(x), rest },
        ),
    decreases x, 0nat,
{
    let ts = tokens_of(x) + rest;
    match x {
        Syntax::Array(items) => {
            lemma_items_written(items, 0, rest);
            assert(ts.skip(1) =~= items_tokens(items, 0) + rest);
        },
        Syntax::Object(members) => {
            lemma_members_written(members, 0, rest);
            assert(ts.skip(1) =~= members_tokens(members, 0) + rest);
        },
        _ => {
            assert(ts.skip(1) =~= rest);
        },
    }
}

#[verifier::rlimit(40)]
proof fn lemma_items_written(items: Seq<Syntax>, from: nat, rest: Seq<TokenModel>)
    requires
        from <= items.len(),
    ensures
        items_of(items_tokens(items, from) + rest, items_meaning(items, from)) == Ok::<
            Parsed,
            ErrorModel,
        >(Parsed { value: ValueModel::Array(items_meaning(items, items.len())), rest }),
    decreases items, items.len() - from,
{
    let ts = items_tokens(items, from) + rest;
    lemma_items_meaning_len(items, from);
    if from >= items.len() {
        assert(ts.skip(1) =~= rest);
    } else {
        let item = items[from as int];
        let tail = items_tokens(items, from + 1) + rest;
        let next = if from > 0 { ts.skip(1) } else { ts };
        lemma_first_token(item);
        assert(next =~= tokens_of(item) + tail);
        assert(ts[0] == if from > 0 { TokenModel::ValueSeparator } else { tokens_of(item)[0] });
        value_of_reads_what_is_written(item, tail);
        lemma_items_written(items, from + 1, rest);
    }
}

#[verifier::rlimit(40)]
proof fn lemma_members_written(
    members: Seq<(Seq<char>, Syntax)>,
    from: nat,
    rest: Seq<TokenModel>,
)
    requires
        from <= members.len(),
    ensures
        members_of(members_tokens(members, from) + rest, members_meaning(members, from)) == Ok::<
            Parsed,
            ErrorModel,
        >(Parsed { value: ValueModel::Object(members_meaning(members, members.len())), rest }),
    decreases members, members.len() - from,
{
    let ts = members_tokens(members, from) + rest;
    lemma_members_meaning_empty(members, from);
    if from >= members.len() {
        assert(ts.skip(1) =~= rest);
    } else {
        let key = members[from as int].0;
        let value = members[from as int].1;
        let tail = members_tokens(members, from + 1) + rest;
        let next = if from > 0 { ts.skip(1) } else { ts };
        assert(next =~= seq![TokenModel::String(key), TokenModel::NameSeparator] + tokens_of(value)
            + tail);
        assert(ts[0] == if from > 0 { TokenModel::ValueSeparator } else { TokenModel::String(key) });
        assert(next[0] == TokenModel::String(key));
        assert(next.skip(1)[0] == TokenModel::NameSeparator);
        assert(next.skip(2) =~= tokens_of(value) + tail);
        lemma_first_token(value);
        value_of_reads_what_is_written(value, tail);
        lemma_members_written(members, from + 1, rest);
    }
}

proof fn lemma_join(
    a: Seq<TokenModel>,
    b: Seq<TokenModel>,
    c: Seq<TokenModel>,
    d: Seq<TokenModel>,
    e: Seq<TokenModel>,
)
    ensures
        (a + b + c + d) + e == a + (b + (c + (d + e))),
{
    assert((a + b + c + d) + e =~= a + (b + (c + (d + e))));
}

proof fn lemma_items_meaning_prefix(a: Seq<Syntax>, b: Seq<Syntax>, n: nat)
    requires
        n <= a.len(),
        n <= b.len(),
        forall|i: int| 0 <= i < n ==> a[i] == b[i],
    ensures
        items_meaning(a, n) == items_meaning(b, n),
    decreases n,
{
    if n > 0 {
        lemma_items_meaning_prefix(a, b, (n - 1) as nat);
    }
}

proof fn lemma_members_meaning_prefix(
    a: Seq<(Seq<char>, Syntax)>,
    b: Seq<(Seq<char>, Syntax)>,
    n: nat,
)
    requires
        n <= a.len(),
        n <= b.len(),
        forall|i: int| 0 <= i < n ==> a[i] == b[i],
    ensures
        members_meaning(a, n) == members_meaning(b, n),
    decreases n,
{
    if n > 0 {
        lemma_members_meaning_prefix(a, b, (n - 1) as nat);
    }
}

/// The parser reads only what the grammar writes: where it reads a value
/// from the front of `ts`, the tokens it takes are those of some `x` that
/// stands for that value.
pub proof fn value_of_reads_only_what_is_written(ts: Seq<TokenModel>) -> (x: Syntax)
    requires
        value_of(ts) is Ok,
    ensures
        tokens_of(x) + value_of(ts)->Ok_0.rest == ts,
        meaning(x) == value_of(ts)->Ok_0.value,
    decreases ts.len(), 1int,
{
    let rest = value_of(ts)->Ok_0.rest;
    assert(seq![ts[0]] + ts.skip(1) =~= ts);
    match ts[0] {
        TokenModel::Null => Syntax::Null,
        TokenModel::False => Syntax::Bool(false),
        TokenModel::True => Syntax::Bool(true),
        TokenModel::Number(n) => Syntax::Number(n),
        TokenModel::String(s) => Syntax::String(s),
        TokenModel::BeginArray => {
            let items = lemma_items_read(ts.skip(1), Seq::empty());
            let inner = items_tokens(items, 0);
            assert((seq![ts[0]] + inner) + rest =~= seq![ts[0]] + (inner + rest));
            Syntax::Array(items)
        },
        _ => {
            let members = lemma_members_read(ts.skip(1), Seq::empty());
            let inner = members_tokens(members, 0);
            assert((seq![ts[0]] + inner) + rest =~= seq![ts[0]] + (inner + rest));
            Syntax::Object(members)
        },
    }
}

#[verifier::rlimit(40)]
proof fn lemma_items_read(ts: Seq<TokenModel>, done: Seq<Syntax>) -> (all: Seq<Syntax>)
    requires
        items_of(ts, items_meaning(done, done.len())) is Ok,
    ensures
        done.len() <= all.len(),
        forall|i: int| 0 <= i < done.len() ==> all[i] == done[i],
        items_tokens(all, done.len()) + items_of(ts, items_meaning(done, done.len()))->Ok_0.rest
            == ts,
        items_of(ts, items_meaning(done, done.len()))->Ok_0.value == ValueModel::Array(
            items_meaning(all, all.len()),
        ),
    decreases ts.len(), 2int,
{
    let k = done.len();
    let read = items_of(ts, items_meaning(done, k))->Ok_0;
    lemma_items_meaning_len(done, k);
    if starts_with(ts, TokenModel::EndArray) {
        assert(items_tokens(done, k) + read.rest =~= ts);
        done
    } else {
        let next = if k > 0 { ts.skip(1) } else { ts };
        let item = value_of_reads_only_what_is_written(next);
        value_of_advances(next);
        let longer = done.push(item);
        lemma_items_meaning_prefix(done, longer, k);
        let left = value_of(next)->Ok_0.rest;
        let so_far = items_meaning(done, k).push(meaning(item));
        assert(items_meaning(longer, longer.len()) == so_far);
        assert(items_of(ts, items_meaning(done, k)) == items_of(left, so_far));
        let all = lemma_items_read(left, longer);
        assert(all[k as int] == longer[k as int]);
        let comma = if k > 0 { seq![TokenModel::ValueSeparator] } else { Seq::empty() };
        let later = items_tokens(all, k + 1);
        assert(comma + next =~= ts);
        assert(items_tokens(all, k) == comma + tokens_of(item) + later);
        lemma_join(comma, Seq::empty(), tokens_of(item), later, read.rest);
        assert(comma + Seq::<TokenModel>::empty() =~= comma);
        assert(Seq::<TokenModel>::empty() + next =~= next);
        all
    }
}

#[verifier::rlimit(40)]
proof fn lemma_members_read(ts: Seq<TokenModel>, done: Seq<(Seq<char>, Syntax)>) -> (all: Seq<
    (Seq<char>, Syntax),
>)
    requires
        members_of(ts, members_meaning(done, done.len())) is Ok,
    ensures
        done.len() <= all.len(),
        forall|i: int| 0 <= i < done.len() ==> all[i] == done[i],
        members_tokens(all, done.len()) + members_of(
            ts,
            members_meaning(done, done.len()),
        )->Ok_0.rest == ts,
        members_of(ts, members_meaning(done, done.len()))->Ok_0.value == ValueModel::Object(
            members_meaning(all, all.len()),
        ),
    decreases ts.len(), 2int,
{
    let k = done.len();
    let read = members_of(ts, members_meaning(done, k))->Ok_0;
    lemma_members_meaning_empty(done, k);
    if starts_with(ts, TokenModel::EndObject) {
        assert(members_tokens(done, k) + read.rest =~= ts);
        done
    } else {
        let next = if k > 0 { ts.skip(1) } else { ts };
        let value = value_of_reads_only_what_is_written(next.skip(2));
        value_of_advances(next.skip(2));
        let longer = done.push((next[0]->String_0, value));
        lemma_members_meaning_prefix(done, longer, k);
        let left = value_of(next.skip(2))->Ok_0.rest;
        let so_far = members_meaning(done, k).insert(next[0]->String_0, meaning(value));
        assert(members_meaning(longer, longer.len()) == so_far);
        assert(members_of(ts, members_meaning(done, k)) == members_of(left, so_far));
        let all = lemma_members_read(left, longer);
        assert(all[k as int] == longer[k as int]);
        let comma = if k > 0 { seq![TokenModel::ValueSeparator] } else { Seq::empty() };
        let head = seq![TokenModel::String(next[0]->String_0), TokenModel::NameSeparator];
        let later = members_tokens(all, k + 1);
        assert(head + next.skip(2) =~= next);
        assert(comma + next =~= ts);
        assert(members_tokens(all, k) == comma + head + tokens_of(value) + later);
        lemma_join(comma, head, tokens_of(value), later, read.rest);
        all
    }
}

/// Whether a token can be written down and read again: the literal of a
/// number is a number literal, and the text of a string holds no double
/// quote.
pub open spec fn is_writable(t: TokenModel) -> bool {
    match t {
        TokenModel::Number(n) => is_number_literal(n),
        TokenModel::String(s) => forall|i: int| 0 <= i < s.len() ==> #[trigger] s[i] != '"',
        _ => true,
    }
}

/// Whether every token of `tokens` can be written down and read again.
pub open spec fn all_writable(tokens: Seq<TokenModel>) -> bool {
    forall|i: int| 0 <= i < tokens.len() ==> is_writable(#[trigger] tokens[i])
}

/// The text of `tokens`: each token as it is written, with a space behind it.
pub open spec fn written(tokens: Seq<TokenModel>) -> Seq<char>
    decreases tokens.len(),
{
    if tokens.len() == 0 {
        Seq::empty()
    } else {
        token_text(tokens[0]) + (seq![' '] + written(tokens.skip(1)))
    }
}

proof fn lemma_quote_pos_is(s: Seq<char>, from: int, to: int)
    requires
        0 <= from <= to < s.len(),
        forall|i: int| from <= i < to ==> #[trigger] s[i] != '"',
        s[to] == '"',
    ensures
        quote_pos(s, from) == to,
    decreases to - from,
{
    if from < to {
        lemma_quote_pos_is(s, from + 1, to);
    }
}

proof fn lemma_lex_of_one(s: Seq<char>, t: TokenModel)
    requires
        s.len() > 0,
        first_step(s) == Ok::<Step, ErrorModel>(Step { token: Some(t), len: s.len() as int }),
    ensures
        lex(s) == Ok::<Seq<TokenModel>, ErrorModel>(seq![t]),
{
    let end = s.skip(s.len() as int);
    assert(end.len() == 0);
    assert(lex(end) == Ok::<Seq<TokenModel>, ErrorModel>(Seq::empty()));
    assert(seq![t] + Seq::<TokenModel>::empty() =~= seq![t]);
}

/// The scanner reads a token that is written alone as that token.
pub proof fn lex_reads_a_written_token(t: TokenModel)
    requires
        is_writable(t),
    ensures
        lex(token_text(t)) == Ok::<Seq<TokenModel>, ErrorModel>(seq![t]),
{
    let s = token_text(t);
    match t {
        TokenModel::Number(n) => {
            let (whole, mantissa) = choose|whole: int, mantissa: int|
                has_number_shape(n, whole, mantissa);
            assert(has_number_shape(n, whole, mantissa));
            number_literal_is_taken(n);
            assert(n.take(n.len() as int) =~= n);
        },
        TokenModel::String(text) => {
            let close = text.len() as int + 1;
            lemma_quote_pos_is(s, 1, close);
            assert(s.subrange(1, close) =~= text);
        },
        TokenModel::False => {
            reveal_strlit("false");
            reveal_with_fuel(word_check, 6);
        },
        TokenModel::Null => {
            reveal_strlit("null");
            reveal_with_fuel(word_check, 5);
        },
        TokenModel::True => {
            reveal_strlit("true");
            reveal_with_fuel(word_check, 5);
        },
        _ => {},
    }
    lemma_lex_of_one(s, t);
}

/// The scanner reads whatever is written: from the text of tokens that can
/// be written it reads those tokens.
pub proof fn lex_reads_what_is_written(tokens: Seq<TokenModel>)
    requires
        all_writable(tokens),
    ensures
        lex(written(tokens)) == Ok::<Seq<TokenModel>, ErrorModel>(tokens),
    decreases tokens.len(),
{
    if tokens.len() > 0 {
        let later = tokens.skip(1);
        assert forall|i: int| 0 <= i < later.len() implies is_writable(#[trigger] later[i]) by {
            assert(later[i] == tokens[i + 1]);
        }
        lex_reads_what_is_written(later);
        lex_ignores_leading_whitespace(seq![' '], written(later));
        lex_reads_a_written_token(tokens[0]);
        lex_of_separated_texts(token_text(tokens[0]), seq![' '] + written(later));
        assert(seq![tokens[0]] + later =~= tokens);
    } else {
        assert(tokens =~= Seq::empty());
    }
}

/// The reader reads whatever the grammar writes: the text of `x`, where its
/// tokens can be written, is a document that stands for what `x` means.
pub proof fn document_reads_what_is_written(x: Syntax)
    requires
        all_writable(tokens_of(x)),
    ensures
        document(written(tokens_of(x))) == Ok::<ValueModel, ErrorModel>(meaning(x)),
{
    lex_reads_what_is_written(tokens_of(x));
    value_of_reads_what_is_written(x, Seq::empty());
    assert(tokens_of(x) + Seq::<TokenModel>::empty() =~= tokens_of(x));
}

} // verus!
