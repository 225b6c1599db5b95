//! Folding a text to lower case, for matching without regard to letter case.

use vstd::prelude::*;
use vstd::string::*;

verus! {

/// The lower-case form that the standard library gives a text. It follows the
/// Unicode tables and depends on nothing but the text; it may be longer or
/// shorter than the text, and a character's form may depend on its neighbours.
pub uninterp spec fn lowercase(text: Seq<char>) -> Seq<char>;

/// Calls `str::to_lowercase`. Nothing is proved of it: the contract only
/// gives its result the name `lowercase`, which says that the result depends
/// on the characters of `text` alone.
#[verifier::external_body]
fn to_lowercase(text: &str) -> (lowered: String)
    ensures
        lowered@ == lowercase(text@),
{
    text.to_lowercase()
}

/// The folded form of a text: its lower-case form, and the empty text for the
/// empty text.
pub open spec fn folded(text: Seq<char>) -> Seq<char> {
    if text.len() == 0 {
        text
    } else {
        lowercase(text)
    }
}

/// Folds `text` to lower case. The empty text is answered without a call.
pub fn fold_case(text: &str) -> (lowered: String)
    ensures
        lowered@ == folded(text@),
{
    if text.is_empty() {
        String::new()
    } else {
        to_lowercase(text)
    }
}

} // verus!
