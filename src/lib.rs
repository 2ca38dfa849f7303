pub mod error;
pub mod json;
pub mod laws;
pub mod lexer;
pub mod parser;
pub mod serializer;
pub mod text;
pub mod value;

pub use error::{Error, ErrorKind, FileType};
pub use json::{JsonParser, JSON};
pub use lexer::{JsonLexer, JsonToken};
pub use value::{AccessError, JsonValue};
