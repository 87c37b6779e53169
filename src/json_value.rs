use vstd::prelude::*;

verus! {

/// The value tree that a parser builds from the token stream
/// (RFC 8259, section 3). The tokenizer itself does not build it.
#[derive(Debug, PartialEq)]
pub enum JsonValue {
    Null,
    Boolean(bool),
    Number(i64),
    String(String),
    Array(Vec<JsonValue>),
    /// Members in the order they appear; keys may repeat.
    Object(Vec<(String, JsonValue)>),
}

} // verus!
