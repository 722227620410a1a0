//! The answer the schema plugin sends back to protoc: the written files, or
//! an error, as the protobuf encoding of a code generation response.

use vstd::prelude::*;
use vstd::string::StringExecFns;
use vstd::utf8::encode_utf8;
use crate::plugin::pairs_view;
use crate::serialize::spec_varint_bytes;

verus! {

/// The text of an optional error.
pub open spec fn error_view(error: Option<String>) -> Option<Seq<char>> {
    match error {
        Some(e) => Some(e@),
        None => None,
    }
}

/// A length-delimited protobuf field: its key byte, the payload's length
/// in base 128 (low groups first), and the payload.
pub open spec fn delimited(key: u8, payload: Seq<u8>) -> Seq<u8> {
    seq![key] + spec_varint_bytes(payload.len()) + payload
}

/// The encoding of a response file: its name as field 1 and its content as
/// field 15, both strings.
pub open spec fn file_bytes(name: Seq<char>, content: Seq<char>) -> Seq<u8> {
    delimited(0x0au8, encode_utf8(name)) + delimited(0x7au8, encode_utf8(content))
}

/// The encodings of the files, each as field 15, in order.
pub open spec fn files_bytes(files: Seq<(Seq<char>, Seq<char>)>) -> Seq<u8>
    decreases files.len(),
{
    if files.len() == 0 {
        Seq::empty()
    } else {
        files_bytes(files.drop_last()) + delimited(0x7au8, file_bytes(files.last().0, files.last().1))
    }
}

/// The protobuf encoding of a `CodeGeneratorResponse` whose files are
/// `files` (each a name and a content, in order), with no insertion points
/// and no feature flags, and whose error is `error`: the error as field 1,
/// when there is one, then the files.
pub open spec fn spec_response_bytes(files: Seq<(Seq<char>, Seq<char>)>, error: Option<Seq<char>>) -> Seq<u8> {
    match error {
        Some(e) => delimited(0x0au8, encode_utf8(e)) + files_bytes(files),
        None => files_bytes(files),
    }
}

/// `prost::Message::encode_to_vec` of a
/// `prost_types::compiler::CodeGeneratorResponse` built from the files and
/// the error: prost writes the set fields in field-number order, each
/// string and message as a length-delimited field.
#[verifier::external_body]
fn encode_response(files: &Vec<(String, String)>, error: Option<String>) -> (r: Vec<u8>)
    ensures
        r@ == spec_response_bytes(pairs_view(files@), error_view(error)),
{
    let file = files
        .iter()
        .map(|(name, content)| prost_types::compiler::code_generator_response::File {
            name: Some(name.clone()),
            insertion_point: None,
            content: Some(content.clone()),
            generated_code_info: None,
        })
        .collect();
    let response = prost_types::compiler::CodeGeneratorResponse { error, supported_features: None, file };
    prost::Message::encode_to_vec(&response)
}

/// The bytes answered to protoc: the written files when generation
/// succeeded, or no file and the error.
pub fn response_bytes(outputs: &Result<Vec<(String, String)>, String>) -> (r: Vec<u8>)
    ensures
        r@ == match outputs {
            Ok(v) => spec_response_bytes(pairs_view(v@), None),
            Err(e) => spec_response_bytes(Seq::empty(), Some(e@)),
        },
{
    match outputs {
        Ok(v) => encode_response(v, None),
        Err(e) => {
            let empty: Vec<(String, String)> = Vec::new();
            assert(pairs_view(empty@) =~= Seq::<(Seq<char>, Seq<char>)>::empty());
            encode_response(&empty, Some(String::from_str(e.as_str())))
        },
    }
}

} // verus!
