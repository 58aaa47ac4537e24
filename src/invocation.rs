use vstd::prelude::*;

verus! {

/// `k` is the index of the first space of `s`.
pub open spec fn is_first_space(s: Seq<char>, k: int) -> bool {
    0 <= k < s.len() && s[k] == ' ' && forall|j: int| 0 <= j < k ==> s[j] != ' '
}

/// Relies on `str::split_once`: the text before and after the first space,
/// or `None` when there is no space.
#[verifier::external_body]
fn split_at_space<'a>(s: &'a str) -> (r: Option<(&'a str, &'a str)>)
    ensures
        match r {
            Some((a, b)) => s@ == a@ + seq![' '] + b@ && !a@.contains(' '),
            None => !s@.contains(' '),
        },
{
    s.split_once(' ')
}

/// Splits a command argument or an inline query into the pattern (before
/// the first space) and the input (after it). `None` when there is no space,
/// or when the pattern or the input would be empty.
pub fn split_invocation<'a>(text: &'a str) -> (r: Option<(&'a str, &'a str)>)
    ensures
        match r {
            Some((pattern, input)) => {
                &&& text@ == pattern@ + seq![' '] + input@
                &&& is_first_space(text@, pattern@.len() as int)
                &&& pattern@.len() > 0
                &&& input@.len() > 0
            },
            None => forall|k: int|
                #[trigger] is_first_space(text@, k) ==> k == 0 || k == text@.len() - 1,
        },
{
    match split_at_space(text) {
        Some((pattern, input)) => {
            let ghost k = pattern@.len() as int;
            assert(text@[k] == ' ');
            assert forall|j: int| 0 <= j < k implies text@[j] != ' ' by {
                assert(text@[j] == pattern@[j]);
            }
            assert forall|m: int| #[trigger] is_first_space(text@, m) implies m == k by {
                if m < k {
                    assert(text@[m] == pattern@[m]);
                }
            }
            if pattern.is_empty() || input.is_empty() {
                None
            } else {
                Some((pattern, input))
            }
        },
        None => None,
    }
}

} // verus!
