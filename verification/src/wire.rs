use vstd::prelude::*;
use vstd::utf8::*;

verus! {

#[verifier::external_type_specification]
#[verifier::external_body]
pub struct ExUtf8Error(core::str::Utf8Error);

/// `core::str::from_utf8`, copied into a `String`. Its documentation: the
/// bytes are accepted exactly when they are valid UTF-8, and the text is
/// then what they encode; otherwise the error says where decoding failed.
/// The contract states the first two with vstd's UTF-8 model; nothing is
/// said of the error's fields.
#[verifier::external_body]
pub fn decode_text(bytes: &[u8]) -> (r: Result<String, core::str::Utf8Error>)
    ensures
        r is Ok <==> valid_utf8(bytes@),
        r matches Ok(text) ==> text@ == decode_utf8(bytes@),
{
    match core::str::from_utf8(bytes) {
        Ok(text) => Ok(text.to_owned()),
        Err(e) => Err(e),
    }
}

/// The bytes of a received chunk without its last two bytes, the line ending
/// that a terminal sends (`\r\n`): the first `size - 2` bytes of `data`.
pub fn strip_line_ending(data: &[u8], size: usize) -> (line: Vec<u8>)
    requires
        2 <= size <= data@.len() + 2,
    ensures
        line@ == data@.subrange(0, size - 2),
{
    let end = size - 2;
    let mut line: Vec<u8> = Vec::new();
    let mut i: usize = 0;
    while i < end
        invariant
            end == size - 2,
            2 <= size <= data@.len() + 2,
            i <= end,
            line@ == data@.subrange(0, i as int),
        decreases end - i,
    {
        line.push(data[i]);
        i = i + 1;
        assert(line@ == data@.subrange(0, i as int));
    }
    line
}

/// What the client makes of a chunk of `size` bytes read into `message`:
/// nothing for an empty read, otherwise the text of the chunk without its
/// line ending, or the decoding error where it is not UTF-8.
pub fn message_text(message: &[u8], size: usize) -> (r: Option<Result<String, core::str::Utf8Error>>)
    requires
        size == 0 || 2 <= size <= message@.len() + 2,
    ensures
        size == 0 ==> r is None,
        size > 0 ==> (r matches Some(decoded) && (decoded is Ok <==> valid_utf8(
            message@.subrange(0, size - 2),
        )) && (decoded matches Ok(text) ==> text@ == decode_utf8(message@.subrange(0, size - 2)))),
{
    if size > 0 {
        let line = strip_line_ending(message, size);
        Some(decode_text(line.as_slice()))
    } else {
        None
    }
}

} // verus!
