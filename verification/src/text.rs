use vstd::prelude::*;

verus! {

/// `String::push`: its documentation says that it appends the character to
/// the end of the string.
pub assume_specification[ String::push ](s: &mut String, ch: char)
    ensures
        final(s)@ == old(s)@.push(ch),
;

/// `str`'s `==`: two string slices are equal exactly when they hold the same
/// characters.
#[verifier::external_body]
pub fn same_text(a: &str, b: &str) -> (r: bool)
    ensures
        r == (a@ == b@),
{
    a == b
}

/// What `format!("\n{:?}", name)` gives for a string: a line break, then the
/// string in double quotes with each character escaped as
/// `char::escape_debug` does.
pub uninterp spec fn debug_line(name: Seq<char>) -> Seq<char>;

pub open spec fn is_ascii_alphanumeric(c: char) -> bool {
    ('0' <= c && c <= '9') || ('a' <= c && c <= 'z') || ('A' <= c && c <= 'Z')
}

/// `format!("\n{:?}", name)`. The contract names the result `debug_line` of
/// the name's characters. Of the escaping it states only the case that the
/// documentation of `escape_debug` makes plain: ASCII letters and digits are
/// written as they are, so such a name comes out between double quotes.
#[verifier::external_body]
pub fn quoted_line(name: &String) -> (r: String)
    ensures
        r@ == debug_line(name@),
        (forall|i: int| 0 <= i < name@.len() ==> #[trigger] is_ascii_alphanumeric(name@[i]))
            ==> r@ == "\n\""@ + name@ + "\""@,
{
    format!("\n{:?}", name)
}

} // verus!
