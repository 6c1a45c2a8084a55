//! The `write` tool: create or fully replace a file.

use vstd::prelude::*;
use vstd::string::*;
use vstd::utf8::*;

use crate::bytes;
use crate::chars;
use crate::tools::{WriteOutput, WriteParams};

verus! {

/// The bytes to commit and the confirmation once they are.
pub fn run(params: &WriteParams) -> (r: (Vec<u8>, WriteOutput))
    ensures
        r.0@ == encode_utf8(params.content@),
        r.1.success,
        r.1.path@ == params.path@,
        r.1.bytes == r.0@.len(),
{
    let data: Vec<u8> = bytes::copy(params.content.as_str().as_bytes());
    let size: usize = data.len();
    (data, WriteOutput { success: true, path: params.path.clone(), bytes: size })
}

/// The message for parent directories that cannot be created.
pub fn parent_failure_message(path: &str, detail: &str) -> (r: String)
    ensures
        r@ == "failed to create parent directory for "@ + path@ + ": "@ + detail@,
{
    let mut m: String = String::from_str("failed to create parent directory for ");
    m.append(path);
    m.append(": ");
    m.append(detail);
    m
}

/// The message for a file that cannot be committed.
pub fn commit_failure_message(path: &str, detail: &str) -> (r: String)
    ensures
        r@ == "failed to write "@ + path@ + ": "@ + detail@,
{
    let mut m: String = String::from_str("failed to write ");
    m.append(path);
    m.append(": ");
    m.append(detail);
    m
}

/// What is written is the content: reading the bytes as text gives it back, and
/// their number is its length in UTF-8.
pub proof fn written_bytes_are_the_content(content: Seq<char>)
    ensures
        valid_utf8(encode_utf8(content)),
        decode_utf8(encode_utf8(content)) == content,
        encode_utf8(content).len() == chars::utf8_len(content),
{
    encode_utf8_valid_utf8(content);
    encode_utf8_decode_utf8(content);
}

} // verus!
