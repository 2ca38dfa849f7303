use vstd::prelude::*;

use crate::error::{Error, ErrorKind};
use crate::text::{
    is_whitespace, lemma_ws_end_bounds, push_char, push_chars, push_str_chars, trimmed,
    trimmed_chars, ws_end,
};

verus! {

/// A token as a mathematical object.
pub enum Tok {
    Null,
    Str(Seq<char>),
    Num(Seq<char>),
    Bool(bool),
    Colon,
    Comma,
    LBracket,
    RBracket,
    LBrace,
    RBrace,
    Eof,
}

/// A fault as a mathematical object: its kind, its character offset and its message.
pub type Fault = (ErrorKind, int, Seq<char>);

/// A token of JSON text with the offset of its first character.
#[derive(Debug)]
pub enum JsonToken {
    Null { pos: usize },
    String { val: String, pos: usize },
    Number { val: String, pos: usize },
    Boolean { val: bool, pos: usize },
    Colon { pos: usize },
    Comma { pos: usize },
    LeftBracket { pos: usize },
    RightBracket { pos: usize },
    LeftBrace { pos: usize },
    RightBrace { pos: usize },
    Eof { pos: usize },
}

pub open spec fn token_model(t: JsonToken) -> (Tok, int) {
    match t {
        JsonToken::Null { pos } => (Tok::Null, pos as int),
        JsonToken::String { val, pos } => (Tok::Str(val@), pos as int),
        JsonToken::Number { val, pos } => (Tok::Num(val@), pos as int),
        JsonToken::Boolean { val, pos } => (Tok::Bool(val), pos as int),
        JsonToken::Colon { pos } => (Tok::Colon, pos as int),
        JsonToken::Comma { pos } => (Tok::Comma, pos as int),
        JsonToken::LeftBracket { pos } => (Tok::LBracket, pos as int),
        JsonToken::RightBracket { pos } => (Tok::RBracket, pos as int),
        JsonToken::LeftBrace { pos } => (Tok::LBrace, pos as int),
        JsonToken::RightBrace { pos } => (Tok::RBrace, pos as int),
        JsonToken::Eof { pos } => (Tok::Eof, pos as int),
    }
}

pub open spec fn token_models(s: Seq<JsonToken>) -> Seq<(Tok, int)> {
    s.map_values(|t: JsonToken| token_model(t))
}

pub open spec fn fault_of(e: Error) -> Fault {
    (e.kind, e.index as int, e.message@)
}

/// A message that quotes `body` after `prefix`, which ends in an opening quote.
pub open spec fn quoting(prefix: Seq<char>, body: Seq<char>) -> Seq<char> {
    prefix + body + "'"@
}

/// The message for a word or character that may not stand where it is.
pub open spec fn unexpected_msg(w: Seq<char>) -> Seq<char> {
    quoting("Unexpected '"@, w)
}

/// The message for a run of number characters that is not a number.
pub open spec fn invalid_number_msg(t: Seq<char>) -> Seq<char> {
    quoting("Invalid number '"@, t)
}

/// The message for an escape that is not one, with its escape character.
pub open spec fn invalid_escape_msg(c: char) -> Seq<char> {
    quoting("Invalid escape sequence '\\"@, seq![c])
}

/// The message for text that ends inside a string.
pub open spec fn end_of_string_msg() -> Seq<char> {
    "Unexpected end of string"@
}

/// The message for text that ends where a token should stand.
pub open spec fn end_of_input_msg() -> Seq<char> {
    "Unexpected end of input"@
}

/// The character that an escape letter stands for.
pub open spec fn unescaped(c: char) -> Option<char> {
    if c == '"' {
        Some('"')
    } else if c == '\\' {
        Some('\\')
    } else if c == '/' {
        Some('/')
    } else if c == 'b' {
        Some('\u{8}')
    } else if c == 'f' {
        Some('\u{c}')
    } else if c == 'n' {
        Some('\n')
    } else if c == 'r' {
        Some('\r')
    } else if c == 't' {
        Some('\t')
    } else {
        None
    }
}

/// The value of a hexadecimal digit.
pub open spec fn hex_value(c: char) -> Option<int> {
    if '0' <= c && c <= '9' {
        Some(c as int - '0' as int)
    } else if 'a' <= c && c <= 'f' {
        Some(c as int - 'a' as int + 10)
    } else if 'A' <= c && c <= 'F' {
        Some(c as int - 'A' as int + 10)
    } else {
        None
    }
}

/// The value of the four hexadecimal digits from index `k`, if they are that.
pub open spec fn hex4(s: Seq<char>, k: int) -> Option<int> {
    if 0 <= k && k + 4 <= s.len() && hex_value(s[k]) is Some && hex_value(s[k + 1]) is Some
        && hex_value(s[k + 2]) is Some && hex_value(s[k + 3]) is Some {
        Some(
            hex_value(s[k])->Some_0 * 4096 + hex_value(s[k + 1])->Some_0 * 256 + hex_value(
                s[k + 2],
            )->Some_0 * 16 + hex_value(s[k + 3])->Some_0,
        )
    } else {
        None
    }
}

/// The scalar value of a character.
pub open spec fn scalar_of(c: char) -> int {
    c as int
}

/// The character whose scalar value is `u`.
pub open spec fn code_char(u: int) -> char {
    choose|c: char| #[trigger] scalar_of(c) == u
}

/// A `\u` escape whose `u` stands at index `k`: the scalar value it gives and
/// the index after it. A high surrogate must be followed by an escaped low one.
pub open spec fn unicode_escape(s: Seq<char>, k: int) -> Result<(int, int), Fault> {
    if k + 5 > s.len() {
        Err((ErrorKind::UnexpectedEof, s.len() as int, end_of_string_msg()))
    } else {
        match hex4(s, k + 1) {
            None => Err((ErrorKind::InvalidEscape, k, invalid_escape_msg('u'))),
            Some(u) => if 0xDC00 <= u && u <= 0xDFFF {
                Err((ErrorKind::InvalidEscape, k, invalid_escape_msg('u')))
            } else if 0xD800 <= u && u <= 0xDBFF {
                if k + 7 <= s.len() && s[k + 5] == '\\' && s[k + 6] == 'u' {
                    if k + 11 > s.len() {
                        Err((ErrorKind::UnexpectedEof, s.len() as int, end_of_string_msg()))
                    } else {
                        match hex4(s, k + 7) {
                            Some(w) => if 0xDC00 <= w && w <= 0xDFFF {
                                Ok((0x10000 + (u - 0xD800) * 0x400 + (w - 0xDC00), k + 11))
                            } else {
                                Err((ErrorKind::InvalidEscape, k + 6, invalid_escape_msg('u')))
                            },
                            None => Err((ErrorKind::InvalidEscape, k + 6, invalid_escape_msg('u'))),
                        }
                    }
                } else {
                    Err((ErrorKind::InvalidEscape, k, invalid_escape_msg('u')))
                }
            } else {
                Ok((u, k + 5))
            },
        }
    }
}

/// Reads the rest of a string literal from `j`, with `acc` decoded so far:
/// its decoded text and the index after the closing quote.
pub open spec fn scan_string(s: Seq<char>, j: int, acc: Seq<char>) -> Result<(Seq<char>, int), Fault>
    decreases s.len() - j,
{
    if j < 0 || j >= s.len() {
        Err((ErrorKind::UnexpectedEof, s.len() as int, end_of_string_msg()))
    } else if s[j] == '"' {
        Ok((acc, j + 1))
    } else if s[j] == '\\' {
        if j + 1 >= s.len() {
            Err((ErrorKind::UnexpectedEof, s.len() as int, end_of_string_msg()))
        } else if s[j + 1] == 'u' {
            match unicode_escape(s, j + 1) {
                Ok((u, k)) => scan_string(s, k, acc.push(code_char(u))),
                Err(e) => Err(e),
            }
        } else {
            match unescaped(s[j + 1]) {
                Some(d) => scan_string(s, j + 2, acc.push(d)),
                None => Err((ErrorKind::InvalidEscape, j + 1, invalid_escape_msg(s[j + 1]))),
            }
        }
    } else {
        scan_string(s, j + 1, acc.push(s[j]))
    }
}

pub open spec fn is_digit(c: char) -> bool {
    '0' <= c && c <= '9'
}

/// The characters that a number token is made of.
pub open spec fn is_number_char(c: char) -> bool {
    is_digit(c) || c == '.' || c == '-' || c == '+' || c == 'e' || c == 'E'
}

pub open spec fn is_sign(c: char) -> bool {
    c == '+' || c == '-'
}

/// The first index at or after `k` that holds no number character (or the length).
pub open spec fn number_end(s: Seq<char>, k: int) -> int
    decreases s.len() - k,
{
    if 0 <= k < s.len() && is_number_char(s[k]) {
        number_end(s, k + 1)
    } else {
        k
    }
}

/// The first index at or after `k` that holds no digit (or the length).
pub open spec fn digits_end(s: Seq<char>, k: int) -> int
    decreases s.len() - k,
{
    if 0 <= k < s.len() && is_digit(s[k]) {
        digits_end(s, k + 1)
    } else {
        k
    }
}

/// The first index at or after `k` that holds no lower-case letter (or the length).
pub open spec fn word_end(s: Seq<char>, k: int) -> int
    decreases s.len() - k,
{
    if 0 <= k < s.len() && 'a' <= s[k] && s[k] <= 'z' {
        word_end(s, k + 1)
    } else {
        k
    }
}

/// The exponent part from `d` on: `e` or `E`, an optional sign, one digit or more, to the end.
pub open spec fn valid_exponent(t: Seq<char>, d: int) -> bool {
    let f = if d + 1 < t.len() && is_sign(t[d + 1]) { d + 2 } else { d + 1 };
    &&& d < t.len()
    &&& (t[d] == 'e' || t[d] == 'E')
    &&& digits_end(t, f) > f
    &&& digits_end(t, f) == t.len()
}

/// The number syntax: an optional sign; digits with an optional point and
/// fraction digits, at least one digit in all; an optional exponent.
pub open spec fn valid_number(t: Seq<char>) -> bool {
    let a: int = if t.len() > 0 && is_sign(t[0]) { 1 } else { 0 };
    let b = digits_end(t, a);
    let point = b < t.len() && t[b] == '.';
    let c = if point { b + 1 } else { b };
    let d = if point { digits_end(t, c) } else { b };
    &&& (b > a || d > c)
    &&& (d == t.len() || valid_exponent(t, d))
}

/// The keyword that a word spells, if any.
pub open spec fn keyword(w: Seq<char>) -> Option<Tok> {
    if w == seq!['n', 'u', 'l', 'l'] {
        Some(Tok::Null)
    } else if w == seq!['t', 'r', 'u', 'e'] {
        Some(Tok::Bool(true))
    } else if w == seq!['f', 'a', 'l', 's', 'e'] {
        Some(Tok::Bool(false))
    } else {
        None
    }
}

/// The token that a one-character symbol stands for, if any.
pub open spec fn symbol(c: char) -> Option<Tok> {
    if c == ':' {
        Some(Tok::Colon)
    } else if c == ',' {
        Some(Tok::Comma)
    } else if c == '[' {
        Some(Tok::LBracket)
    } else if c == ']' {
        Some(Tok::RBracket)
    } else if c == '{' {
        Some(Tok::LBrace)
    } else if c == '}' {
        Some(Tok::RBrace)
    } else {
        None
    }
}

pub open spec fn starts_blank(c: char) -> bool {
    c == ' ' || c == '\t' || c == '\n' || c == '\r'
}

/// One scanning step at index `i` (below the length): the tokens it gives (none
/// or one) and the index where scanning goes on.
pub open spec fn lex_step(s: Seq<char>, i: int) -> Result<(Seq<(Tok, int)>, int), Fault> {
    let c = s[i];
    if starts_blank(c) {
        Ok((Seq::empty(), ws_end(s, i)))
    } else if c == '"' {
        match scan_string(s, i + 1, Seq::empty()) {
            Ok((v, j)) => Ok((seq![(Tok::Str(v), i)], j)),
            Err(e) => Err(e),
        }
    } else if is_digit(c) || c == '-' {
        let j = number_end(s, i);
        if valid_number(s.subrange(i, j)) {
            Ok((seq![(Tok::Num(s.subrange(i, j)), i)], j))
        } else {
            Err((ErrorKind::InvalidNumber, i, invalid_number_msg(s.subrange(i, j))))
        }
    } else if 'f' <= c && c <= 't' {
        let j = word_end(s, i);
        match keyword(s.subrange(i, j)) {
            Some(t) => Ok((seq![(t, i)], j)),
            None => Err((ErrorKind::UnexpectedToken, i, unexpected_msg(s.subrange(i, j)))),
        }
    } else {
        match symbol(c) {
            Some(t) => Ok((seq![(t, i)], i + 1)),
            None => Err((ErrorKind::UnexpectedToken, i, unexpected_msg(seq![c]))),
        }
    }
}

/// The tokens of `s` from index `i` on, or the first fault.
pub open spec fn lex_from(s: Seq<char>, i: int) -> Result<Seq<(Tok, int)>, Fault>
    decreases s.len() - i,
{
    if i < 0 || i >= s.len() {
        Ok(Seq::empty())
    } else {
        match lex_step(s, i) {
            Err(e) => Err(e),
            Ok((t, j)) => if j <= i || j > s.len() {
                Err((ErrorKind::UnexpectedEof, i, end_of_input_msg()))
            } else {
                prefixed(t, lex_from(s, j))
            },
        }
    }
}

/// `r` with `p` put before its tokens.
pub open spec fn prefixed(p: Seq<(Tok, int)>, r: Result<Seq<(Tok, int)>, Fault>) -> Result<
    Seq<(Tok, int)>,
    Fault,
> {
    match r {
        Ok(t) => Ok(p + t),
        Err(e) => Err(e),
    }
}

fn unescape(c: char) -> (r: Option<char>)
    ensures
        r == unescaped(c),
{
    match c {
        '"' => Some('"'),
        '\\' => Some('\\'),
        '/' => Some('/'),
        'b' => Some('\u{8}'),
        'f' => Some('\u{c}'),
        'n' => Some('\n'),
        'r' => Some('\r'),
        't' => Some('\t'),
        _ => None,
    }
}

/// Relies on `char::from_u32`: it gives the character whose scalar value is
/// `u`, and nothing where `u` is a surrogate or above U+10FFFF.
#[verifier::external_body]
fn char_from_u32(u: u32) -> (r: Option<char>)
    ensures
        r is Some <==> (u < 0xD800 || (0xE000 <= u && u <= 0x10FFFF)),
        r is Some ==> r->Some_0 as int == u as int,
{
    char::from_u32(u)
}

fn hex_digit(c: char) -> (r: Option<u32>)
    ensures
        r is Some <==> hex_value(c) is Some,
        r is Some ==> r->Some_0 as int == hex_value(c)->Some_0,
{
    if '0' <= c && c <= '9' {
        Some(c as u32 - '0' as u32)
    } else if 'a' <= c && c <= 'f' {
        Some(c as u32 - 'a' as u32 + 10)
    } else if 'A' <= c && c <= 'F' {
        Some(c as u32 - 'A' as u32 + 10)
    } else {
        None
    }
}

fn read_hex4(s: &Vec<char>, k: usize) -> (r: Option<u32>)
    requires
        k + 4 <= s.len(),
    ensures
        r is Some <==> hex4(s@, k as int) is Some,
        r is Some ==> r->Some_0 as int == hex4(s@, k as int)->Some_0,
        r is Some ==> r->Some_0 <= 0xFFFF,
{
    let a = match hex_digit(s[k]) {
        Some(x) => x,
        None => {
            return None;
        },
    };
    let b = match hex_digit(s[k + 1]) {
        Some(x) => x,
        None => {
            return None;
        },
    };
    let c = match hex_digit(s[k + 2]) {
        Some(x) => x,
        None => {
            return None;
        },
    };
    let d = match hex_digit(s[k + 3]) {
        Some(x) => x,
        None => {
            return None;
        },
    };
    Some(a * 4096 + b * 256 + c * 16 + d)
}

/// Reads a `\u` escape whose `u` stands at index `k`.
fn read_unicode_escape(s: &Vec<char>, k: usize) -> (r: Result<(char, usize), Error>)
    requires
        k < s.len(),
    ensures
        match unicode_escape(s@, k as int) {
            Ok((u, e)) => r is Ok && r->Ok_0.0 == code_char(u) && r->Ok_0.1 == e,
            Err(f) => r is Err && fault_of(r->Err_0) == f,
        },
{
    let n = s.len();
    if n - k < 5 {
        return Err(fault_text(ErrorKind::UnexpectedEof, n, "Unexpected end of string"));
    }
    let u = match read_hex4(s, k + 1) {
        Some(u) => u,
        None => {
            return Err(bad_escape(k, 'u'));
        },
    };
    let (code, next): (u32, usize) = if 0xDC00 <= u && u <= 0xDFFF {
        return Err(bad_escape(k, 'u'));
    } else if 0xD800 <= u && u <= 0xDBFF {
        if n - k >= 7 && s[k + 5] == '\\' && s[k + 6] == 'u' {
            if n - k < 11 {
                return Err(fault_text(ErrorKind::UnexpectedEof, n, "Unexpected end of string"));
            }
            match read_hex4(s, k + 7) {
                Some(w) => {
                    if 0xDC00 <= w && w <= 0xDFFF {
                        (0x10000 + (u - 0xD800) * 0x400 + (w - 0xDC00), k + 11)
                    } else {
                        return Err(bad_escape(k + 6, 'u'));
                    }
                },
                None => {
                    return Err(bad_escape(k + 6, 'u'));
                },
            }
        } else {
            return Err(bad_escape(k, 'u'));
        }
    } else {
        (u, k + 5)
    };
    match char_from_u32(code) {
        Some(c) => {
            assert(scalar_of(c) == code as int);
            assert(scalar_of(code_char(code as int)) == code as int);
            Ok((c, next))
        },
        None => Err(bad_escape(k, 'u')),
    }
}

fn digits_end_at(t: &Vec<char>, k: usize) -> (r: usize)
    requires
        k <= t.len(),
    ensures
        r == digits_end(t@, k as int),
        k <= r <= t.len(),
{
    let mut j = k;
    while j < t.len() && '0' <= t[j] && t[j] <= '9'
        invariant
            k <= j <= t.len(),
            digits_end(t@, k as int) == digits_end(t@, j as int),
        decreases t.len() - j,
    {
        j = j + 1;
    }
    j
}

/// Tells whether `t` is written in the number syntax.
pub fn is_number_text(t: &Vec<char>) -> (r: bool)
    ensures
        r == valid_number(t@),
{
    let n = t.len();
    let a: usize = if n > 0 && (t[0] == '+' || t[0] == '-') { 1 } else { 0 };
    let b = digits_end_at(t, a);
    let point = b < n && t[b] == '.';
    let c: usize = if point { b + 1 } else { b };
    let d: usize = if point { digits_end_at(t, c) } else { b };
    if !(b > a || d > c) {
        return false;
    }
    if d == n {
        return true;
    }
    if !(t[d] == 'e' || t[d] == 'E') {
        return false;
    }
    let f: usize = if d + 1 < n && (t[d + 1] == '+' || t[d + 1] == '-') { d + 2 } else { d + 1 };
    let g = digits_end_at(t, f);
    g > f && g == n
}

/// A fault whose message is `message`.
pub(crate) fn fault_text(kind: ErrorKind, index: usize, message: &str) -> (r: Error)
    ensures
        fault_of(r) == (kind, index as int, message@),
{
    let mut m = String::new();
    push_str_chars(&mut m, message);
    Error::json(kind, m, index)
}

/// A fault whose message quotes `body` after `prefix`.
pub(crate) fn fault_quoting(kind: ErrorKind, index: usize, prefix: &str, body: &Vec<char>) -> (r:
    Error)
    ensures
        fault_of(r) == (kind, index as int, quoting(prefix@, body@)),
{
    let mut m = String::new();
    push_str_chars(&mut m, prefix);
    push_chars(&mut m, body);
    push_str_chars(&mut m, "'");
    Error::json(kind, m, index)
}

/// The characters of a one-character text.
pub(crate) fn single(c: char) -> (r: Vec<char>)
    ensures
        r@ == seq![c],
{
    let mut r: Vec<char> = Vec::new();
    r.push(c);
    assert(r@ =~= seq![c]);
    r
}

/// The fault for an escape whose escape character `c` stands at `index`.
fn bad_escape(index: usize, c: char) -> (r: Error)
    ensures
        fault_of(r) == (ErrorKind::InvalidEscape, index as int, invalid_escape_msg(c)),
{
    fault_quoting(ErrorKind::InvalidEscape, index, "Invalid escape sequence '\\", &single(c))
}

/// Scans trimmed JSON text into tokens.
pub struct JsonLexer {
    pub json: Vec<char>,
    pub index: usize,
}

impl JsonLexer {
    pub fn new(json: String) -> (r: Self)
        ensures
            r.json@ == trimmed(json@),
            r.index == 0,
    {
        JsonLexer { json: trimmed_chars(json.as_str()), index: 0 }
    }

    /// Moves one character on (not past the end) and gives the character there.
    pub fn advance(&mut self) -> (r: Option<char>)
        ensures
            final(self).json@ == old(self).json@,
            final(self).index == if old(self).index < old(self).json.len() {
                old(self).index + 1
            } else {
                old(self).index as int
            },
            r == if final(self).index < final(self).json.len() {
                Some(final(self).json@[final(self).index as int])
            } else {
                None::<char>
            },
    {
        if self.index < self.json.len() {
            self.index = self.index + 1;
        }
        self.current()
    }

    /// The character at the current index, if any.
    pub fn current(&self) -> (r: Option<char>)
        ensures
            r == if self.index < self.json.len() {
                Some(self.json@[self.index as int])
            } else {
                None::<char>
            },
    {
        if self.index < self.json.len() {
            Some(self.json[self.index])
        } else {
            None
        }
    }

    /// Reads a string literal that starts at the current index.
    pub fn make_string(&mut self) -> (r: Result<JsonToken, Error>)
        requires
            old(self).index < old(self).json.len(),
            old(self).json@[old(self).index as int] == '"',
        ensures
            final(self).json@ == old(self).json@,
            match scan_string(old(self).json@, old(self).index + 1, Seq::empty()) {
                Ok((v, j)) => r is Ok && token_model(r->Ok_0) == (Tok::Str(v), old(self).index as int)
                    && final(self).index == j && old(self).index < j <= old(self).json.len(),
                Err(e) => r is Err && fault_of(r->Err_0) == e,
            },
    {
        let ghost s = self.json@;
        let start = self.index;
        let n = self.json.len();
        let mut result = String::new();
        let mut j: usize = start + 1;
        loop
            invariant
                start < j <= n,
                n == self.json.len(),
                s == self.json@,
                s == old(self).json@,
                self.index == start,
                start == old(self).index,
                scan_string(s, start + 1, Seq::empty()) == scan_string(s, j as int, result@),
            decreases n - j,
        {
            if j >= n {
                return Err(fault_text(ErrorKind::UnexpectedEof, n, "Unexpected end of string"));
            }
            let c = self.json[j];
            if c == '"' {
                self.index = j + 1;
                return Ok(JsonToken::String { val: result, pos: start });
            } else if c == '\\' {
                if j + 1 >= n {
                    return Err(fault_text(ErrorKind::UnexpectedEof, n, "Unexpected end of string"));
                }
                let d = self.json[j + 1];
                if d == 'u' {
                    let (e, k) = match read_unicode_escape(&self.json, j + 1) {
                        Ok(x) => x,
                        Err(e) => {
                            return Err(e);
                        },
                    };
                    push_char(&mut result, e);
                    j = k;
                    continue;
                }
                match unescape(d) {
                    Some(e) => {
                        push_char(&mut result, e);
                        j = j + 2;
                    },
                    None => {
                        return Err(bad_escape(j + 1, d));
                    },
                }
            } else {
                push_char(&mut result, c);
                j = j + 1;
            }
        }
    }

    /// Reads a number that starts at the current index.
    pub fn make_number(&mut self) -> (r: Result<JsonToken, Error>)
        requires
            old(self).index < old(self).json.len(),
            is_number_char(old(self).json@[old(self).index as int]),
        ensures
            final(self).json@ == old(self).json@,
            ({
                let s = old(self).json@;
                let i = old(self).index as int;
                let j = number_end(s, i);
                if valid_number(s.subrange(i, j)) {
                    r is Ok && token_model(r->Ok_0) == (Tok::Num(s.subrange(i, j)), i)
                        && final(self).index == j && i < j <= s.len()
                } else {
                    r is Err && fault_of(r->Err_0) == (
                        ErrorKind::InvalidNumber,
                        i,
                        invalid_number_msg(s.subrange(i, j)),
                    ) && final(self).index == j
                }
            }),
    {
        let ghost s = self.json@;
        let start = self.index;
        let mut lexeme: Vec<char> = Vec::new();
        let mut text = String::new();
        loop
            invariant
                start <= self.index <= self.json.len(),
                start == old(self).index,
                s == self.json@,
                s == old(self).json@,
                number_end(s, start as int) == number_end(s, self.index as int),
                start < s.len(),
                is_number_char(s[start as int]),
                lexeme@ == s.subrange(start as int, self.index as int),
                text@ == lexeme@,
            ensures
                start < self.index <= self.json.len(),
                s == self.json@,
                number_end(s, start as int) == self.index as int,
                lexeme@ == s.subrange(start as int, self.index as int),
                text@ == lexeme@,
            decreases self.json.len() - self.index,
        {
            let c = match self.current() {
                Some(c) => c,
                None => break,
            };
            if '0' <= c && c <= '9' || c == '.' || c == '-' || c == '+' || c == 'e' || c == 'E' {
                lexeme.push(c);
                push_char(&mut text, c);
                self.advance();
                proof {
                    assert(lexeme@ =~= s.subrange(start as int, self.index as int));
                }
            } else {
                break;
            }
        }
        if is_number_text(&lexeme) {
            Ok(JsonToken::Number { val: text, pos: start })
        } else {
            Err(fault_quoting(ErrorKind::InvalidNumber, start, "Invalid number '", &lexeme))
        }
    }

    /// Reads a keyword that starts at the current index.
    pub fn make_keyword(&mut self) -> (r: Result<JsonToken, Error>)
        requires
            old(self).index < old(self).json.len(),
            'a' <= old(self).json@[old(self).index as int] <= 'z',
        ensures
            final(self).json@ == old(self).json@,
            ({
                let s = old(self).json@;
                let i = old(self).index as int;
                let j = word_end(s, i);
                match keyword(s.subrange(i, j)) {
                    Some(t) => r is Ok && token_model(r->Ok_0) == (t, i) && final(self).index == j
                        && i < j <= s.len(),
                    None => r is Err && fault_of(r->Err_0) == (
                        ErrorKind::UnexpectedToken,
                        i,
                        unexpected_msg(s.subrange(i, j)),
                    ) && final(self).index == j,
                }
            }),
    {
        let ghost s = self.json@;
        let start = self.index;
        let mut word: Vec<char> = Vec::new();
        loop
            invariant
                start <= self.index <= self.json.len(),
                start == old(self).index,
                s == self.json@,
                s == old(self).json@,
                word_end(s, start as int) == word_end(s, self.index as int),
                start < s.len(),
                'a' <= s[start as int] <= 'z',
                word@ == s.subrange(start as int, self.index as int),
            ensures
                start < self.index <= self.json.len(),
                s == self.json@,
                word_end(s, start as int) == self.index as int,
                word@ == s.subrange(start as int, self.index as int),
            decreases self.json.len() - self.index,
        {
            let c = match self.current() {
                Some(c) => c,
                None => break,
            };
            if 'a' <= c && c <= 'z' {
                word.push(c);
                self.advance();
                proof {
                    assert(word@ =~= s.subrange(start as int, self.index as int));
                }
            } else {
                break;
            }
        }
        if word.len() == 4 && word[0] == 'n' && word[1] == 'u' && word[2] == 'l' && word[3] == 'l' {
            assert(word@ =~= seq!['n', 'u', 'l', 'l']);
            Ok(JsonToken::Null { pos: start })
        } else if word.len() == 4 && word[0] == 't' && word[1] == 'r' && word[2] == 'u' && word[3]
            == 'e' {
            assert(word@ =~= seq!['t', 'r', 'u', 'e']);
            Ok(JsonToken::Boolean { val: true, pos: start })
        } else if word.len() == 5 && word[0] == 'f' && word[1] == 'a' && word[2] == 'l' && word[3]
            == 's' && word[4] == 'e' {
            assert(word@ =~= seq!['f', 'a', 'l', 's', 'e']);
            Ok(JsonToken::Boolean { val: false, pos: start })
        } else {
            Err(fault_quoting(ErrorKind::UnexpectedToken, start, "Unexpected '", &word))
        }
    }

    /// Reads a one-character symbol at the current index.
    pub fn make_symbol(&mut self) -> (r: Result<JsonToken, Error>)
        requires
            old(self).index < old(self).json.len(),
        ensures
            final(self).json@ == old(self).json@,
            ({
                let i = old(self).index as int;
                match symbol(old(self).json@[i]) {
                    Some(t) => r is Ok && token_model(r->Ok_0) == (t, i) && final(self).index == i + 1,
                    None => r is Err && fault_of(r->Err_0) == (
                        ErrorKind::UnexpectedToken,
                        i,
                        unexpected_msg(seq![old(self).json@[i]]),
                    ),
                }
            }),
    {
        let start = self.index;
        let result = match self.json[start] {
            ':' => JsonToken::Colon { pos: start },
            ',' => JsonToken::Comma { pos: start },
            '[' => JsonToken::LeftBracket { pos: start },
            ']' => JsonToken::RightBracket { pos: start },
            '{' => JsonToken::LeftBrace { pos: start },
            '}' => JsonToken::RightBrace { pos: start },
            c => {
                return Err(fault_quoting(ErrorKind::UnexpectedToken, start, "Unexpected '", &single(c)));
            },
        };
        self.advance();
        Ok(result)
    }

    /// Scans from the current index to the end into tokens, or gives the first fault.
    pub fn lex(&mut self) -> (r: Result<Vec<JsonToken>, Error>)
        requires
            old(self).index <= old(self).json.len(),
        ensures
            match lex_from(old(self).json@, old(self).index as int) {
                Ok(t) => r is Ok && token_models(r->Ok_0@) == t,
                Err(e) => r is Err && fault_of(r->Err_0) == e,
            },
    {
        let ghost s = self.json@;
        let ghost i0 = self.index as int;
        let mut result: Vec<JsonToken> = Vec::new();
        loop
            invariant
                self.index <= self.json.len(),
                i0 == old(self).index,
                s == self.json@,
                s == old(self).json@,
                lex_from(s, i0) == prefixed(token_models(result@), lex_from(s, self.index as int)),
            ensures
                self.index == self.json.len(),
                s == self.json@,
                lex_from(s, i0) == prefixed(token_models(result@), lex_from(s, self.index as int)),
            decreases self.json.len() - self.index,
        {
            let c = match self.current() {
                Some(c) => c,
                None => break,
            };
            let ghost i = self.index as int;
            let ghost before = result@;
            proof {
                lemma_ws_end_bounds(s, i + 1);
            }
            if c == ' ' || c == '\t' || c == '\n' || c == '\r' {
                while self.current().is_some() && is_whitespace(self.current().unwrap())
                    invariant
                        i <= self.index <= self.json.len(),
                        s == self.json@,
                s == old(self).json@,
                        ws_end(s, i) == ws_end(s, self.index as int),
                    decreases self.json.len() - self.index,
                {
                    self.advance();
                }
                proof {
                    assert(token_models(result@) + Seq::empty() =~= token_models(result@));
                    assert(lex_from(s, i) == prefixed(Seq::empty(), lex_from(s, self.index as int)));
                    match lex_from(s, self.index as int) {
                        Ok(x) => {
                            assert(token_models(before) + (Seq::empty() + x) =~= token_models(
                                before,
                            ) + x);
                        },
                        Err(_) => {},
                    }
                }
            } else {
                let tok = if c == '"' {
                    self.make_string()
                } else if '0' <= c && c <= '9' || c == '-' {
                    self.make_number()
                } else if 'f' <= c && c <= 't' {
                    self.make_keyword()
                } else {
                    self.make_symbol()
                };
                match tok {
                    Ok(t) => {
                        result.push(t);
                        proof {
                            assert(token_models(result@) =~= token_models(before) + seq![
                                token_model(t),
                            ]);
                            assert(lex_from(s, i) == prefixed(
                                seq![token_model(t)],
                                lex_from(s, self.index as int),
                            ));
                            match lex_from(s, self.index as int) {
                                Ok(x) => {
                                    assert(token_models(before) + (seq![token_model(t)] + x)
                                        =~= token_models(result@) + x);
                                },
                                Err(_) => {},
                            }
                        }
                    },
                    Err(e) => {
                        return Err(e);
                    },
                }
            }
        }
        proof {
            assert(token_models(result@) + Seq::empty() =~= token_models(result@));
        }
        Ok(result)
    }
}

} // verus!
