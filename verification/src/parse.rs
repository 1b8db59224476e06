//! The parser: from a sequence of tokens to a value tree.

use vstd::prelude::*;
use vstd::slice::slice_subrange;
use crate::error::{Error, ErrorModel};
use crate::json::{array_view, item_models, outcome, Object, Value, ValueModel};
use crate::tokenize::{models, token_text, Token, TokenModel};

verus! {

/// A value read from the front of a token sequence, and the tokens after it.
pub struct Parsed {
    pub value: ValueModel,
    pub rest: Seq<TokenModel>,
}

/// Whether the first token of `ts` is `t`.
pub open spec fn starts_with(ts: Seq<TokenModel>, t: TokenModel) -> bool {
    ts.len() > 0 && ts[0] == t
}

/// What the parser reports when the token it needs is not the first of `ts`:
/// the token that stands there instead, or the end of the input.
pub open spec fn unexpected(ts: Seq<TokenModel>) -> ErrorModel {
    if ts.len() > 0 {
        ErrorModel::UnexpectedToken(token_text(ts[0]))
    } else {
        ErrorModel::UnexpectedEnd
    }
}

/// The value at the front of `ts`.
pub open spec fn value_of(ts: Seq<TokenModel>) -> Result<Parsed, ErrorModel>
    decreases ts.len(), 1int,
{
    if ts.len() == 0 {
        Err(ErrorModel::UnexpectedEnd)
    } else {
        match ts[0] {
            TokenModel::Null => Ok(Parsed { value: ValueModel::Null, rest: ts.skip(1) }),
            TokenModel::False => Ok(Parsed { value: ValueModel::Bool(false), rest: ts.skip(1) }),
            TokenModel::True => Ok(Parsed { value: ValueModel::Bool(true), rest: ts.skip(1) }),
            TokenModel::Number(n) => Ok(Parsed { value: ValueModel::Number(n), rest: ts.skip(1) }),
            TokenModel::String(s) => Ok(Parsed { value: ValueModel::String(s), rest: ts.skip(1) }),
            TokenModel::BeginObject => object_of(ts),
            TokenModel::BeginArray => array_of(ts),
            _ => Err(unexpected(ts)),
        }
    }
}

/// The array at the front of `ts`.
pub open spec fn array_of(ts: Seq<TokenModel>) -> Result<Parsed, ErrorModel>
    decreases ts.len(), 0int,
{
    if starts_with(ts, TokenModel::BeginArray) {
        items_of(ts.skip(1), Seq::empty())
    } else {
        Err(unexpected(ts))
    }
}

/// The array whose first items are `items` and whose other items, with the
/// closing bracket, are at the front of `ts`. A value always takes at least
/// one token (`value_of_advances`), so the last branch is never taken.
pub open spec fn items_of(ts: Seq<TokenModel>, items: Seq<ValueModel>) -> Result<
    Parsed,
    ErrorModel,
>
    decreases ts.len(), 2int,
{
    if starts_with(ts, TokenModel::EndArray) {
        Ok(Parsed { value: ValueModel::Array(items), rest: ts.skip(1) })
    } else if items.len() > 0 && !starts_with(ts, TokenModel::ValueSeparator) {
        Err(unexpected(ts))
    } else {
        let next = if items.len() > 0 { ts.skip(1) } else { ts };
        match value_of(next) {
            Err(e) => Err(e),
            Ok(item) => if item.rest.len() < next.len() {
                items_of(item.rest, items.push(item.value))
            } else {
                Err(ErrorModel::UnexpectedEnd)
            },
        }
    }
}

/// The object at the front of `ts`.
pub open spec fn object_of(ts: Seq<TokenModel>) -> Result<Parsed, ErrorModel>
    decreases ts.len(), 0int,
{
    if starts_with(ts, TokenModel::BeginObject) {
        members_of(ts.skip(1), Map::empty())
    } else {
        Err(unexpected(ts))
    }
}

/// The object whose first members are `members` and whose other members,
/// with the closing brace, are at the front of `ts`. A member whose key was
/// seen before replaces the earlier one. A value always takes at least one
/// token (`value_of_advances`), so the last branch is never taken.
pub open spec fn members_of(ts: Seq<TokenModel>, members: Map<Seq<char>, ValueModel>) -> Result<
    Parsed,
    ErrorModel,
>
    decreases ts.len(), 2int,
{
    let first = members == Map::<Seq<char>, ValueModel>::empty();
    if starts_with(ts, TokenModel::EndObject) {
        Ok(Parsed { value: ValueModel::Object(members), rest: ts.skip(1) })
    } else if !first && !starts_with(ts, TokenModel::ValueSeparator) {
        Err(unexpected(ts))
    } else {
        let next = if first { ts } else { ts.skip(1) };
        if !(next.len() > 0 && next[0] is String) {
            Err(unexpected(next))
        } else if !starts_with(next.skip(1), TokenModel::NameSeparator) {
            Err(unexpected(next.skip(1)))
        } else {
            match value_of(next.skip(2)) {
                Err(e) => Err(e),
                Ok(member) => if member.rest.len() < next.len() {
                    members_of(member.rest, members.insert(next[0]->String_0, member.value))
                } else {
                    Err(ErrorModel::UnexpectedEnd)
                },
            }
        }
    }
}

/// The value that the whole of `ts` stands for: one value, and no token
/// after it.
pub open spec fn document_of(ts: Seq<TokenModel>) -> Result<ValueModel, ErrorModel> {
    match value_of(ts) {
        Err(e) => Err(e),
        Ok(parsed) => if parsed.rest.len() == 0 {
            Ok(parsed.value)
        } else {
            Err(unexpected(parsed.rest))
        },
    }
}

/// Whether `rest` is what is left of `ts` after some of its first tokens.
pub open spec fn is_rest_of(rest: Seq<Token>, ts: Seq<Token>) -> bool {
    rest.len() <= ts.len() && rest =~= ts.skip(ts.len() - rest.len())
}

/// Whether `r`, with the tokens `left` behind the cursor, is the outcome
/// `expected`: the same value and the same tokens left, or the same error.
pub open spec fn reads(
    r: Result<Value, Error>,
    left: Seq<Token>,
    expected: Result<Parsed, ErrorModel>,
) -> bool {
    match expected {
        Ok(parsed) => r is Ok && r->Ok_0@ == parsed.value && models(left) == parsed.rest,
        Err(e) => r is Err && r->Err_0@ == e,
    }
}

/// Whether `rest` is what is left of `ts` after one or more of its first
/// tokens.
pub open spec fn is_proper_rest(rest: Seq<TokenModel>, ts: Seq<TokenModel>) -> bool {
    rest.len() < ts.len() && rest =~= ts.skip(ts.len() - rest.len())
}

/// A value read from the front of a token sequence takes at least one token,
/// and only from the front: what is left is the end of what was there.
pub proof fn value_of_advances(ts: Seq<TokenModel>)
    ensures
        value_of(ts) is Ok ==> is_proper_rest(value_of(ts)->Ok_0.rest, ts),
    decreases ts.len(), 1int,
{
    if ts.len() > 0 {
        match ts[0] {
            TokenModel::BeginObject => lemma_members_advance(ts.skip(1), Map::empty()),
            TokenModel::BeginArray => lemma_items_advance(ts.skip(1), Seq::empty()),
            _ => {},
        }
    }
}

proof fn lemma_items_advance(ts: Seq<TokenModel>, items: Seq<ValueModel>)
    ensures
        items_of(ts, items) is Ok ==> is_proper_rest(items_of(ts, items)->Ok_0.rest, ts),
    decreases ts.len(), 2int,
{
    if items_of(ts, items) is Ok && !starts_with(ts, TokenModel::EndArray) {
        let next = if items.len() > 0 { ts.skip(1) } else { ts };
        value_of_advances(next);
        let item = value_of(next)->Ok_0;
        lemma_items_advance(item.rest, items.push(item.value));
    }
}

proof fn lemma_members_advance(ts: Seq<TokenModel>, members: Map<Seq<char>, ValueModel>)
    ensures
        members_of(ts, members) is Ok ==> is_proper_rest(members_of(ts, members)->Ok_0.rest, ts),
    decreases ts.len(), 2int,
{
    if members_of(ts, members) is Ok && !starts_with(ts, TokenModel::EndObject) {
        let first = members == Map::<Seq<char>, ValueModel>::empty();
        let next = if first { ts } else { ts.skip(1) };
        value_of_advances(next.skip(2));
        let member = value_of(next.skip(2))->Ok_0;
        lemma_members_advance(member.rest, members.insert(next[0]->String_0, member.value));
    }
}

/// A token sequence stands for a document exactly where one value can be
/// read from its front and no token is left behind it; the document is then
/// that value. Otherwise it stands for no value at all: a token left behind
/// the value is reported as unexpected.
pub proof fn document_takes_every_token(ts: Seq<TokenModel>)
    ensures
        document_of(ts) is Ok <==> value_of(ts) is Ok && value_of(ts)->Ok_0.rest.len() == 0,
        document_of(ts) is Ok ==> document_of(ts)->Ok_0 == value_of(ts)->Ok_0.value,
        value_of(ts) is Ok && value_of(ts)->Ok_0.rest.len() > 0 ==> document_of(ts) == Err::<
            ValueModel,
            ErrorModel,
        >(unexpected(value_of(ts)->Ok_0.rest)),
        value_of(ts) is Err ==> document_of(ts) == Err::<ValueModel, ErrorModel>(
            value_of(ts)->Err_0,
        ),
{
}

proof fn lemma_models_skip(ts: Seq<Token>, n: int)
    requires
        0 <= n <= ts.len(),
    ensures
        models(ts.skip(n)) == models(ts).skip(n),
{
    assert(models(ts.skip(n)) =~= models(ts).skip(n));
}

fn advance(tokens: &mut &[Token])
    requires
        old(tokens)@.len() > 0,
    ensures
        final(tokens)@ == old(tokens)@.skip(1),
        models(final(tokens)@) == models(old(tokens)@).skip(1),
        is_rest_of(final(tokens)@, old(tokens)@),
{
    proof {
        lemma_models_skip(tokens@, 1);
    }
    *tokens = slice_subrange(*tokens, 1, tokens.len());
    assert(final(tokens)@ =~= old(tokens)@.skip(1));
}

fn rejection(tokens: &[Token]) -> (e: Error)
    ensures
        e@ == unexpected(models(tokens@)),
{
    if tokens.len() > 0 {
        Error::UnexpectedToken(tokens[0].text())
    } else {
        Error::UnexpectedEnd
    }
}

/// Reads one value from the front of `tokens` and moves `tokens` past it.
/// After a failure `tokens` is left at some tail of what it was.
pub fn parse_value(tokens: &mut &[Token]) -> (r: Result<Value, Error>)
    ensures
        reads(r, final(tokens)@, value_of(models(old(tokens)@))),
        is_rest_of(final(tokens)@, old(tokens)@),
    decreases old(tokens)@.len(), 1int,
{
    if tokens.len() == 0 {
        return Err(Error::UnexpectedEnd);
    }
    match &tokens[0] {
        Token::Null => {
            advance(tokens);
            Ok(Value::Null)
        },
        Token::False => {
            advance(tokens);
            Ok(Value::Bool(false))
        },
        Token::True => {
            advance(tokens);
            Ok(Value::Bool(true))
        },
        Token::Number(n) => {
            let literal = n.clone();
            advance(tokens);
            Ok(Value::Number(literal))
        },
        Token::String(s) => {
            let text = s.clone();
            advance(tokens);
            Ok(Value::String(text))
        },
        Token::BeginObject => parse_object(tokens),
        Token::BeginArray => parse_array(tokens),
        _ => Err(rejection(tokens)),
    }
}

/// Reads one array from the front of `tokens` and moves `tokens` past it.
/// After a failure `tokens` is left at some tail of what it was.
pub fn parse_array(tokens: &mut &[Token]) -> (r: Result<Value, Error>)
    ensures
        reads(r, final(tokens)@, array_of(models(old(tokens)@))),
        is_rest_of(final(tokens)@, old(tokens)@),
    decreases old(tokens)@.len(), 0int,
{
    if tokens.len() > 0 && matches!(tokens[0], Token::BeginArray) {
        advance(tokens);
    } else {
        return Err(rejection(tokens));
    }
    let mut items: Vec<Value> = Vec::new();
    assert(item_models(items@) =~= Seq::empty());
    loop
        invariant
            is_rest_of(tokens@, old(tokens)@),
            tokens@.len() < old(tokens)@.len(),
            array_of(models(old(tokens)@)) == items_of(models(tokens@), item_models(items@)),
        decreases tokens@.len(),
    {
        if tokens.len() > 0 && matches!(tokens[0], Token::EndArray) {
            advance(tokens);
            proof {
                array_view(items);
            }
            return Ok(Value::Array(items));
        }
        if items.len() > 0 {
            if tokens.len() > 0 && matches!(tokens[0], Token::ValueSeparator) {
                advance(tokens);
            } else {
                return Err(rejection(tokens));
            }
        }
        let ghost next = tokens@;
        let ghost before = item_models(items@);
        let item = parse_value(tokens)?;
        proof {
            value_of_advances(models(next));
        }
        items.push(item);
        assert(item_models(items@) =~= before.push(item@));
    }
}

/// Reads one object from the front of `tokens` and moves `tokens` past it.
/// After a failure `tokens` is left at some tail of what it was.
pub fn parse_object(tokens: &mut &[Token]) -> (r: Result<Value, Error>)
    ensures
        reads(r, final(tokens)@, object_of(models(old(tokens)@))),
        is_rest_of(final(tokens)@, old(tokens)@),
    decreases old(tokens)@.len(), 0int,
{
    if tokens.len() > 0 && matches!(tokens[0], Token::BeginObject) {
        advance(tokens);
    } else {
        return Err(rejection(tokens));
    }
    let mut members = Object::new();
    loop
        invariant
            is_rest_of(tokens@, old(tokens)@),
            tokens@.len() < old(tokens)@.len(),
            object_of(models(old(tokens)@)) == members_of(models(tokens@), members@),
        decreases tokens@.len(),
    {
        if tokens.len() > 0 && matches!(tokens[0], Token::EndObject) {
            advance(tokens);
            return Ok(Value::Object(members));
        }
        if !members.is_empty() {
            if tokens.len() > 0 && matches!(tokens[0], Token::ValueSeparator) {
                advance(tokens);
            } else {
                return Err(rejection(tokens));
            }
        }
        let ghost next = tokens@;
        if tokens.len() == 0 {
            return Err(Error::UnexpectedEnd);
        }
        let key = match &tokens[0] {
            Token::String(k) => k.clone(),
            _ => {
                return Err(rejection(tokens));
            },
        };
        advance(tokens);
        if tokens.len() > 0 && matches!(tokens[0], Token::NameSeparator) {
            advance(tokens);
        } else {
            return Err(rejection(tokens));
        }
        assert(models(tokens@) == models(next).skip(2)) by {
            assert(models(next).skip(1).skip(1) =~= models(next).skip(2));
        }
        let value = parse_value(tokens)?;
        proof {
            value_of_advances(models(next).skip(2));
        }
        members.insert(key, value);
    }
}

/// Reads the one value that the whole of `tokens` stands for. A token left
/// after the value is an error.
pub fn parse(tokens: &[Token]) -> (r: Result<Value, Error>)
    ensures
        outcome(r) == document_of(models(tokens@)),
{
    let mut p: &[Token] = tokens;
    let value = parse_value(&mut p)?;
    if p.len() > 0 {
        return Err(rejection(p));
    }
    Ok(value)
}

} // verus!
