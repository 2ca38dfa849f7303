use vstd::prelude::*;

use crate::error::{Error, ErrorKind};
use crate::lexer::{fault_of, fault_text, JsonLexer, JsonToken};
use crate::parser::{parse_text, parse_value, token_pos};
use crate::serializer::{render, write_value};
use crate::value::JsonValue;

verus! {

/// Reads a whole JSON text: it scans the text into tokens, then reads one value from them.
pub struct JsonParser {
    pub json: String,
    pub tokens: Vec<JsonToken>,
    pub index: usize,
}

impl JsonParser {
    pub fn new(json: String) -> (r: Self)
        ensures
            r.json@ == json@,
            r.tokens@.len() == 0,
            r.index == 0,
    {
        JsonParser { json, tokens: Vec::new(), index: 0 }
    }

    /// Reads the text as one value; anything after that value is a fault.
    pub fn parse(&mut self) -> (r: Result<JsonValue, Error>)
        ensures
            final(self).json@ == old(self).json@,
            match parse_text(old(self).json@) {
                Ok(v) => r is Ok && r->Ok_0@ == v,
                Err(e) => r is Err && fault_of(r->Err_0) == e,
            },
    {
        let mut lexer = JsonLexer::new(self.json.clone());
        let n = lexer.json.len();
        let tokens = match lexer.lex() {
            Ok(t) => t,
            Err(e) => {
                return Err(e);
            },
        };
        self.tokens = tokens;
        let (v, j) = match parse_value(&self.tokens, n, 0) {
            Ok(x) => x,
            Err(e) => {
                return Err(e);
            },
        };
        self.index = j;
        if j < self.tokens.len() {
            return Err(
                fault_text(
                    ErrorKind::UnexpectedToken,
                    token_pos(&self.tokens[j]),
                    "Unexpected content after the value",
                ),
            );
        }
        Ok(v)
    }
}

/// Parsing and stringifying of JSON text, in the manner of JavaScript's `JSON` object.
pub struct JSON {}

impl JSON {
    /// Parses JSON text into a value tree, or gives the first fault.
    pub fn parse(json: String) -> (r: Result<JsonValue, Error>)
        ensures
            match parse_text(json@) {
                Ok(v) => r is Ok && r->Ok_0@ == v,
                Err(e) => r is Err && fault_of(r->Err_0) == e,
            },
    {
        let mut parser = JsonParser::new(json);
        parser.parse()
    }

    /// Writes a value tree as JSON text: `pretty` 0 for no white space, 1 for
    /// spaces, 2 for lines and indentation.
    pub fn stringify(value: JsonValue, pretty: i32) -> (r: String)
        ensures
            r@ == render(value@, pretty as int, Seq::empty()),
    {
        let mut out = String::new();
        let ind: Vec<char> = Vec::new();
        write_value(&mut out, &value, pretty, &ind);
        assert(out@ =~= render(value@, pretty as int, Seq::empty()));
        out
    }
}

} // verus!
