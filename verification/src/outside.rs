//! Functions of the standard library that the analysis calls and whose contracts are taken on trust.

use vstd::prelude::*;
use vstd::utf8;
use crate::text;

verus! {

/// `String::from_utf8`: the text that the bytes encode, where they are valid UTF-8.
#[verifier::external_body]
pub(crate) fn text_of_utf8(bytes: Vec<u8>) -> (r: Option<String>)
    ensures
        match r {
            Some(s) => utf8::valid_utf8(bytes@) && utf8::encode_utf8(s@) == bytes@,
            None => !utf8::valid_utf8(bytes@),
        },
{
    String::from_utf8(bytes).ok()
}

/// What `{:?}` writes for a list of strings.
pub uninterp spec fn listed(items: Seq<Seq<char>>) -> Seq<char>;

/// `format!` of a list of strings with `{:?}`: the text depends on the strings alone. Its form, with
/// brackets, quotes and escapes, is left unsaid.
#[verifier::external_body]
pub(crate) fn list_text(items: &Vec<String>) -> (r: String)
    ensures
        r@ == listed(text::texts(items@)),
{
    format!("{:?}", items)
}

} // verus!
