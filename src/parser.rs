use vstd::prelude::*;

use crate::error::{Error, ErrorKind};
use crate::lexer::{
    end_of_input_msg, fault_of, fault_quoting, fault_text, lex_from, quoting, single, token_model,
    token_models, unexpected_msg, Fault, JsonToken, Tok,
};
use crate::text::chars_of;
use crate::text::trimmed;
use crate::value::{
    lemma_member_models_index, lemma_member_models_push, lemma_models_push, member_models, models,
    Json, JsonValue,
};

verus! {

/// Whether some member of `members` has the key `k`.
pub open spec fn has_key(members: Seq<(Seq<char>, Json)>, k: Seq<char>) -> bool {
    exists|m: int| 0 <= m < members.len() && #[trigger] members[m].0 == k
}

/// The message for a key seen twice in one object.
pub open spec fn duplicate_key_msg(k: Seq<char>) -> Seq<char> {
    quoting("Duplicate key '"@, k)
}

/// The character that a symbol token is written with.
pub open spec fn tok_symbol(t: Tok) -> char {
    match t {
        Tok::Colon => ':',
        Tok::Comma => ',',
        Tok::LBracket => '[',
        Tok::RBracket => ']',
        Tok::LBrace => '{',
        _ => '}',
    }
}

/// The value that starts at token `i`, and the index of the token after it.
/// `n` is the length of the text, where the token sequence ends.
pub open spec fn p_value(ts: Seq<(Tok, int)>, n: int, i: int) -> Result<(Json, int), Fault>
    decreases ts.len() - i, 1nat,
{
    if i < 0 || i >= ts.len() {
        Err((ErrorKind::UnexpectedEof, n, end_of_input_msg()))
    } else {
        let pos = ts[i].1;
        match ts[i].0 {
            Tok::Null => Ok((Json::Null, i + 1)),
            Tok::Str(v) => Ok((Json::Str(v), i + 1)),
            Tok::Num(v) => Ok((Json::Num(v), i + 1)),
            Tok::Bool(b) => Ok((Json::Bool(b), i + 1)),
            Tok::LBracket => p_array(ts, n, i + 1, Seq::empty()),
            Tok::LBrace => p_object(ts, n, i + 1, Seq::empty()),
            Tok::Eof => Err((ErrorKind::UnexpectedEof, pos, end_of_input_msg())),
            _ => Err((ErrorKind::UnexpectedToken, pos, unexpected_msg(seq![tok_symbol(ts[i].0)]))),
        }
    }
}

/// The rest of an array from token `i`, with the elements `acc` read so far.
pub open spec fn p_array(ts: Seq<(Tok, int)>, n: int, i: int, acc: Seq<Json>) -> Result<
    (Json, int),
    Fault,
>
    decreases ts.len() - i, 2nat,
{
    if i < 0 || i >= ts.len() {
        Err((ErrorKind::UnexpectedEof, n, end_of_input_msg()))
    } else {
        match ts[i].0 {
            Tok::RBracket => Ok((Json::Arr(acc), i + 1)),
            Tok::Colon => Err((ErrorKind::ExpectedValue, ts[i].1, "Expected a value"@)),
            Tok::Comma => Err((ErrorKind::ExpectedValue, ts[i].1, "Expected a value"@)),
            _ => match p_value(ts, n, i) {
                Err(e) => Err(e),
                Ok((v, j)) => if j <= i || j >= ts.len() {
                    Err((ErrorKind::UnexpectedEof, n, end_of_input_msg()))
                } else {
                    match ts[j].0 {
                        Tok::Comma => p_array(ts, n, j + 1, acc.push(v)),
                        Tok::RBracket => Ok((Json::Arr(acc.push(v)), j + 1)),
                        Tok::Eof => Err((ErrorKind::UnexpectedEof, ts[j].1, end_of_input_msg())),
                        _ => Err(
                            (ErrorKind::ExpectedCommaOrBracket, ts[j].1, "Expected ',' or ']'"@),
                        ),
                    }
                },
            },
        }
    }
}

/// The rest of an object from token `i`, with the members `acc` read so far.
pub open spec fn p_object(
    ts: Seq<(Tok, int)>,
    n: int,
    i: int,
    acc: Seq<(Seq<char>, Json)>,
) -> Result<(Json, int), Fault>
    decreases ts.len() - i, 2nat,
{
    if i < 0 || i >= ts.len() {
        Err((ErrorKind::UnexpectedEof, n, end_of_input_msg()))
    } else {
        match ts[i].0 {
            Tok::RBrace => Ok((Json::Obj(acc), i + 1)),
            Tok::Eof => Err((ErrorKind::UnexpectedEof, ts[i].1, end_of_input_msg())),
            Tok::Str(k) => if i + 1 >= ts.len() {
                Err((ErrorKind::UnexpectedEof, n, end_of_input_msg()))
            } else if ts[i + 1].0 is Eof {
                Err((ErrorKind::UnexpectedEof, ts[i + 1].1, end_of_input_msg()))
            } else if !(ts[i + 1].0 is Colon) {
                Err((ErrorKind::ExpectedColon, ts[i + 1].1, "Expected ':'"@))
            } else if has_key(acc, k) {
                Err((ErrorKind::DuplicateKey, ts[i].1, duplicate_key_msg(k)))
            } else {
                match p_value(ts, n, i + 2) {
                    Err(e) => Err(e),
                    Ok((v, j)) => if j <= i || j >= ts.len() {
                        Err((ErrorKind::UnexpectedEof, n, end_of_input_msg()))
                    } else {
                        match ts[j].0 {
                            Tok::Comma => p_object(ts, n, j + 1, acc.push((k, v))),
                            Tok::RBrace => Ok((Json::Obj(acc.push((k, v))), j + 1)),
                            Tok::Eof => Err((ErrorKind::UnexpectedEof, ts[j].1, end_of_input_msg())),
                            _ => Err(
                                (ErrorKind::ExpectedCommaOrBrace, ts[j].1, "Expected ',' or '}'"@),
                            ),
                        }
                    },
                }
            },
            _ => Err((ErrorKind::UnexpectedToken, ts[i].1, "Expected string"@)),
        }
    }
}

/// The single value that a token sequence spells; tokens after it are a fault.
pub open spec fn parse_tokens(ts: Seq<(Tok, int)>, n: int) -> Result<Json, Fault> {
    match p_value(ts, n, 0) {
        Err(e) => Err(e),
        Ok((v, j)) => if 0 <= j < ts.len() {
            Err((ErrorKind::UnexpectedToken, ts[j].1, "Unexpected content after the value"@))
        } else {
            Ok(v)
        },
    }
}

/// What JSON text means: a value, or the first fault, with offsets into the trimmed text.
pub open spec fn parse_text(text: Seq<char>) -> Result<Json, Fault> {
    let s = trimmed(text);
    match lex_from(s, 0) {
        Err(e) => Err(e),
        Ok(ts) => parse_tokens(ts, s.len() as int),
    }
}

/// The offset where a token starts.
pub fn token_pos(t: &JsonToken) -> (r: usize)
    ensures
        r == token_model(*t).1,
{
    match t {
        JsonToken::Null { pos } => *pos,
        JsonToken::String { pos, .. } => *pos,
        JsonToken::Number { pos, .. } => *pos,
        JsonToken::Boolean { pos, .. } => *pos,
        JsonToken::Colon { pos } => *pos,
        JsonToken::Comma { pos } => *pos,
        JsonToken::LeftBracket { pos } => *pos,
        JsonToken::RightBracket { pos } => *pos,
        JsonToken::LeftBrace { pos } => *pos,
        JsonToken::RightBrace { pos } => *pos,
        JsonToken::Eof { pos } => *pos,
    }
}

/// The character that a symbol token is written with.
pub fn token_symbol(t: &JsonToken) -> (r: char)
    ensures
        r == tok_symbol(token_model(*t).0),
{
    match t {
        JsonToken::Colon { .. } => ':',
        JsonToken::Comma { .. } => ',',
        JsonToken::LeftBracket { .. } => '[',
        JsonToken::RightBracket { .. } => ']',
        JsonToken::LeftBrace { .. } => '{',
        _ => '}',
    }
}

/// Reads the value that starts at token `i`.
pub fn parse_value(ts: &Vec<JsonToken>, n: usize, i: usize) -> (r: Result<(JsonValue, usize), Error>)
    requires
        i <= ts.len(),
    ensures
        match p_value(token_models(ts@), n as int, i as int) {
            Ok((v, j)) => r is Ok && r->Ok_0.0@ == v && r->Ok_0.1 == j,
            Err(e) => r is Err && fault_of(r->Err_0) == e,
        },
        r is Ok ==> i < r->Ok_0.1 <= ts.len(),
    decreases ts.len() - i, 1nat,
{
    let ghost tm = token_models(ts@);
    if i >= ts.len() {
        return Err(fault_text(ErrorKind::UnexpectedEof, n, "Unexpected end of input"));
    }
    assert(tm[i as int] == token_model(ts@[i as int]));
    match &ts[i] {
        JsonToken::Null { .. } => Ok((JsonValue::Null, i + 1)),
        JsonToken::String { val, .. } => Ok((JsonValue::String(val.clone()), i + 1)),
        JsonToken::Number { val, .. } => Ok((JsonValue::Number(val.clone()), i + 1)),
        JsonToken::Boolean { val, .. } => Ok((JsonValue::Boolean(*val), i + 1)),
        JsonToken::LeftBracket { .. } => parse_array(ts, n, i + 1),
        JsonToken::LeftBrace { .. } => parse_object(ts, n, i + 1),
        JsonToken::Eof { pos } => Err(fault_text(ErrorKind::UnexpectedEof, *pos, "Unexpected end of input")),
        t => Err(
            fault_quoting(ErrorKind::UnexpectedToken, token_pos(t), "Unexpected '", &single(token_symbol(t))),
        ),
    }
}

/// Reads the rest of an array whose `[` stands just before token `i`.
pub fn parse_array(ts: &Vec<JsonToken>, n: usize, i: usize) -> (r: Result<(JsonValue, usize), Error>)
    requires
        i <= ts.len(),
    ensures
        match p_array(token_models(ts@), n as int, i as int, Seq::empty()) {
            Ok((v, j)) => r is Ok && r->Ok_0.0@ == v && r->Ok_0.1 == j,
            Err(e) => r is Err && fault_of(r->Err_0) == e,
        },
        r is Ok ==> i < r->Ok_0.1 <= ts.len(),
    decreases ts.len() - i, 2nat,
{
    let ghost tm = token_models(ts@);
    let mut result: Vec<JsonValue> = Vec::new();
    let mut k: usize = i;
    loop
        invariant
            i <= k <= ts.len(),
            tm == token_models(ts@),
            p_array(tm, n as int, i as int, Seq::empty()) == p_array(
                tm,
                n as int,
                k as int,
                models(result@),
            ),
        decreases ts.len() - k,
    {
        if k >= ts.len() {
            return Err(fault_text(ErrorKind::UnexpectedEof, n, "Unexpected end of input"));
        }
        assert(tm[k as int] == token_model(ts@[k as int]));
        match &ts[k] {
            JsonToken::RightBracket { .. } => {
                return Ok((JsonValue::Array(result), k + 1));
            },
            JsonToken::Colon { pos } => {
                return Err(fault_text(ErrorKind::ExpectedValue, *pos, "Expected a value"));
            },
            JsonToken::Comma { pos } => {
                return Err(fault_text(ErrorKind::ExpectedValue, *pos, "Expected a value"));
            },
            _ => {},
        }
        let (v, j) = match parse_value(ts, n, k) {
            Ok(x) => x,
            Err(e) => {
                return Err(e);
            },
        };
        if j >= ts.len() {
            return Err(fault_text(ErrorKind::UnexpectedEof, n, "Unexpected end of input"));
        }
        assert(tm[j as int] == token_model(ts@[j as int]));
        proof {
            lemma_models_push(result@, v);
        }
        match &ts[j] {
            JsonToken::Comma { .. } => {
                result.push(v);
                k = j + 1;
            },
            JsonToken::RightBracket { .. } => {
                result.push(v);
                return Ok((JsonValue::Array(result), j + 1));
            },
            JsonToken::Eof { pos } => {
                return Err(fault_text(ErrorKind::UnexpectedEof, *pos, "Unexpected end of input"));
            },
            t => {
                return Err(fault_text(ErrorKind::ExpectedCommaOrBracket, token_pos(t), "Expected ',' or ']'"));
            },
        }
    }
}

/// Tells whether some member of `members` has the key `key`.
fn contains_key(members: &Vec<(String, JsonValue)>, key: &String) -> (r: bool)
    ensures
        r == has_key(member_models(members@), key@),
{
    proof {
        lemma_member_models_index(members@);
    }
    let mut m: usize = 0;
    while m < members.len()
        invariant
            0 <= m <= members.len(),
            forall|q: int| 0 <= q < m ==> member_models(members@)[q].0 != key@,
        decreases members.len() - m,
    {
        proof {
            lemma_member_models_index(members@);
        }
        if members[m].0 == *key {
            assert(member_models(members@)[m as int].0 == key@);
            return true;
        }
        m = m + 1;
    }
    proof {
        lemma_member_models_index(members@);
    }
    false
}

/// Reads the rest of an object whose `{` stands just before token `i`.
pub fn parse_object(ts: &Vec<JsonToken>, n: usize, i: usize) -> (r: Result<
    (JsonValue, usize),
    Error,
>)
    requires
        i <= ts.len(),
    ensures
        match p_object(token_models(ts@), n as int, i as int, Seq::empty()) {
            Ok((v, j)) => r is Ok && r->Ok_0.0@ == v && r->Ok_0.1 == j,
            Err(e) => r is Err && fault_of(r->Err_0) == e,
        },
        r is Ok ==> i < r->Ok_0.1 <= ts.len(),
    decreases ts.len() - i, 2nat,
{
    let ghost tm = token_models(ts@);
    let mut result: Vec<(String, JsonValue)> = Vec::new();
    let mut k: usize = i;
    loop
        invariant
            i <= k <= ts.len(),
            tm == token_models(ts@),
            p_object(tm, n as int, i as int, Seq::empty()) == p_object(
                tm,
                n as int,
                k as int,
                member_models(result@),
            ),
        decreases ts.len() - k,
    {
        if k >= ts.len() {
            return Err(fault_text(ErrorKind::UnexpectedEof, n, "Unexpected end of input"));
        }
        assert(tm[k as int] == token_model(ts@[k as int]));
        let key = match &ts[k] {
            JsonToken::RightBrace { .. } => {
                return Ok((JsonValue::Object(result), k + 1));
            },
            JsonToken::Eof { pos } => {
                return Err(fault_text(ErrorKind::UnexpectedEof, *pos, "Unexpected end of input"));
            },
            JsonToken::String { val, .. } => val.clone(),
            t => {
                return Err(fault_text(ErrorKind::UnexpectedToken, token_pos(t), "Expected string"));
            },
        };
        if k + 1 >= ts.len() {
            return Err(fault_text(ErrorKind::UnexpectedEof, n, "Unexpected end of input"));
        }
        assert(tm[k + 1] == token_model(ts@[k + 1]));
        match &ts[k + 1] {
            JsonToken::Colon { .. } => {},
            JsonToken::Eof { pos } => {
                return Err(fault_text(ErrorKind::UnexpectedEof, *pos, "Unexpected end of input"));
            },
            t => {
                return Err(fault_text(ErrorKind::ExpectedColon, token_pos(t), "Expected ':'"));
            },
        }
        if contains_key(&result, &key) {
            let key_chars = chars_of(key.as_str());
            return Err(fault_quoting(ErrorKind::DuplicateKey, token_pos(&ts[k]), "Duplicate key '", &key_chars));
        }
        let (v, j) = match parse_value(ts, n, k + 2) {
            Ok(x) => x,
            Err(e) => {
                return Err(e);
            },
        };
        if j >= ts.len() {
            return Err(fault_text(ErrorKind::UnexpectedEof, n, "Unexpected end of input"));
        }
        assert(tm[j as int] == token_model(ts@[j as int]));
        let ghost member = (key, v);
        proof {
            lemma_member_models_push(result@, member);
        }
        match &ts[j] {
            JsonToken::Comma { .. } => {
                result.push((key, v));
                k = j + 1;
            },
            JsonToken::RightBrace { .. } => {
                result.push((key, v));
                return Ok((JsonValue::Object(result), j + 1));
            },
            JsonToken::Eof { pos } => {
                return Err(fault_text(ErrorKind::UnexpectedEof, *pos, "Unexpected end of input"));
            },
            t => {
                return Err(fault_text(ErrorKind::ExpectedCommaOrBrace, token_pos(t), "Expected ',' or '}'"));
            },
        }
    }
}

} // verus!
