use vstd::prelude::*;

verus! {

/// Number of UTF-16 code units that encode `c`: one inside the Basic
/// Multilingual Plane, two (a surrogate pair) above it.
pub open spec fn char_width(c: char) -> int {
    if (c as u32) < 0x10000 {
        1
    } else {
        2
    }
}

/// Number of UTF-16 code units that encode the characters of `s`.
pub open spec fn units(s: Seq<char>) -> int
    decreases s.len(),
{
    if s.len() == 0 {
        0
    } else {
        units(s.drop_last()) + char_width(s.last())
    }
}

/// Code-unit offset of the character at index `i` of `s`.
pub open spec fn offset_of(s: Seq<char>, i: int) -> int {
    units(s.take(i))
}

/// Width of `c` in UTF-16 code units.
pub fn utf16_width(c: char) -> (w: usize)
    ensures
        w == char_width(c),
{
    if (c as u32) < 0x10000 {
        1
    } else {
        2
    }
}

/// The offset of the character after index `i` is the offset of `i` plus its width.
pub proof fn lemma_offset_step(s: Seq<char>, i: int)
    requires
        0 <= i < s.len(),
    ensures
        offset_of(s, i + 1) == offset_of(s, i) + char_width(s[i]),
{
    assert(s.take(i + 1).drop_last() =~= s.take(i));
}

/// Offsets never decrease along the text, and are bounded by its total width.
pub proof fn lemma_offset_monotone(s: Seq<char>, i: int, j: int)
    requires
        0 <= i <= j <= s.len(),
    ensures
        offset_of(s, i) + (j - i) <= offset_of(s, j),
        offset_of(s, j) <= units(s),
        0 <= offset_of(s, i),
    decreases j - i,
{
    if i < j {
        lemma_offset_step(s, j - 1);
        lemma_offset_monotone(s, i, j - 1);
    } else {
        lemma_units_nonneg(s.take(i));
    }
    lemma_offset_bounded(s, j);
}

pub proof fn lemma_offset_bounded(s: Seq<char>, j: int)
    requires
        0 <= j <= s.len(),
    ensures
        offset_of(s, j) <= units(s),
    decreases s.len() - j,
{
    if j < s.len() {
        lemma_offset_step(s, j);
        lemma_offset_bounded(s, j + 1);
    } else {
        assert(s.take(j) =~= s);
    }
}

proof fn lemma_units_nonneg(s: Seq<char>)
    ensures
        units(s) >= 0,
    decreases s.len(),
{
    if s.len() > 0 {
        lemma_units_nonneg(s.drop_last());
    }
}

} // verus!
