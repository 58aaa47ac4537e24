use confusables::Confusable;
use vstd::prelude::*;

verus! {

/// The confusable skeleton of a text: each character that the Unicode
/// confusables table lists is replaced by its prototype.
pub uninterp spec fn skeleton_of(s: Seq<char>) -> Seq<char>;

/// The upper-case mapping of one character (one or more characters).
pub uninterp spec fn upper_of(c: char) -> Seq<char>;

/// The lower-case mapping of a text.
pub uninterp spec fn lower_of(s: Seq<char>) -> Seq<char>;

/// Relies on `confusables::Confusable::detect_replace_confusable`: the
/// skeleton of `s`, a function of the text alone.
#[verifier::external_body]
pub(crate) fn skeleton(s: &str) -> (r: String)
    ensures
        r@ == skeleton_of(s@),
{
    s.detect_replace_confusable().into_owned()
}

/// Relies on `char::to_string`: the string that holds `c` alone.
#[verifier::external_body]
pub(crate) fn char_string(c: char) -> (r: String)
    ensures
        r@ == seq![c],
{
    c.to_string()
}

/// Relies on `char::to_uppercase`: the upper-case mapping of `c`.
#[verifier::external_body]
pub(crate) fn uppercase(c: char) -> (r: String)
    ensures
        r@ == upper_of(c),
{
    c.to_uppercase().collect::<String>()
}

/// Relies on `str::to_lowercase`: the lower-case mapping of `s`, in which
/// each character becomes one or more characters.
#[verifier::external_body]
pub(crate) fn lowercase(s: &str) -> (r: String)
    ensures
        r@ == lower_of(s@),
        s@.len() > 0 ==> r@.len() > 0,
{
    s.to_lowercase()
}

} // verus!
