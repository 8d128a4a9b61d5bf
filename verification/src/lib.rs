//! Reading, writing, pointing into, patching, diffing and merging JSON documents.
use vstd::prelude::*;

mod diff;
mod error;
mod lexer;
mod members;
mod merge_patch;
mod message;
mod number;
mod parser;
mod patch;
mod patch_text;
mod roundtrip;
mod pointer;

mod serializer;
mod text;
mod value;
mod wellformed;

pub use diff::{diff, join_path};
pub use error::{JsonError, Position};
pub use lexer::{Lexer, LexerError, SpannedToken, Token};
pub use merge_patch::merge_patch;
pub use message::decode_error_message;
pub use number::JsonNumber;
pub use parser::{Parser, ParserError};
pub use patch::{PatchError, PatchOperation};
pub use patch_text::{
    PatchDecodeError, json_string, json_to_patch_operation, json_to_patch_operations,
    patch_operation_to_json, patch_operations_to_json, take_string, take_value,
};
pub use pointer::{decode_pointer_segment, split_parent};
pub use serializer::depth_of;
pub use value::{JsonObject, JsonValue};

use crate::parser::parse_text;
use crate::serializer::{compact, depth, pretty};

verus! {

/// Reads one JSON document from `input`.
pub fn parse_from_str(input: &str) -> (r: Result<JsonValue, JsonError>)
    requires
        input@.len() < usize::MAX,
    ensures
        match parse_text(input@) {
            Ok(v) => r matches Ok(x) && x@ == v,
            Err(e) => r == Err::<JsonValue, JsonError>(e),
        },
{
    let lexer = Lexer::new(input);
    let mut parser = match Parser::new(lexer) {
        Ok(p) => p,
        Err(e) => {
            return Err(e);
        },
    };
    parser.parse()
}

/// The compact JSON text of `value`.
pub fn to_json_string(value: &JsonValue) -> (r: String)
    ensures
        r@ == compact(value@),
{
    let mut output = String::new();
    serializer::serialize(value, &mut output);
    assert(output@ =~= compact(value@));
    output
}

/// The JSON text of `value`, indented by two spaces per level.
pub fn to_pretty_string(value: &JsonValue) -> (r: String)
    requires
        depth(value@) <= usize::MAX,
    ensures
        r@ == pretty(value@, 0),
{
    let mut output = String::new();
    serializer::pretty_serialize(value, &mut output, 0);
    assert(output@ =~= pretty(value@, 0));
    output
}

} // verus!
