use crate::confusable::{lower_of, skeleton_of};
use crate::spans::{
    gap_spans, lemma_pass_hits_shape, lemma_spans_from_nonempty, pass_hits, skeletons, spans_from,
    spoiler_spans, targets, Target,
};
use crate::units::{char_width, lemma_offset_monotone, lemma_offset_step, offset_of, units};
use vstd::prelude::*;

verus! {

/// Every span has a non-negative length and lies inside `[lo, hi]`.
pub open spec fn spans_within(sp: Seq<(int, int)>, lo: int, hi: int) -> bool {
    forall|i: int|
        0 <= i < sp.len() ==> lo <= (#[trigger] sp[i]).0 && 0 <= sp[i].1 && sp[i].0 + sp[i].1 <= hi
}

/// Each span ends at or before the start of every later span.
pub open spec fn spans_ordered(sp: Seq<(int, int)>) -> bool {
    forall|i: int, j: int|
        0 <= i < j < sp.len() ==> (#[trigger] sp[i]).0 <= (#[trigger] sp[j]).0 && sp[i].0 + sp[i].1
            <= sp[j].0
}

/// Every span but the last has a positive length.
pub open spec fn spans_positive_but_last(sp: Seq<(int, int)>) -> bool {
    forall|i: int| 0 <= i < sp.len() - 1 ==> (#[trigger] sp[i]).1 > 0
}

proof fn lemma_positive_concat(a: Seq<(int, int)>, b: Seq<(int, int)>)
    requires
        forall|i: int| 0 <= i < a.len() ==> (#[trigger] a[i]).1 > 0,
        spans_positive_but_last(b),
        b.len() > 0,
    ensures
        spans_positive_but_last(a + b),
{
    let c = a + b;
    assert forall|i: int| 0 <= i < c.len() - 1 implies (#[trigger] c[i]).1 > 0 by {
        if i < a.len() {
            assert(c[i] == a[i]);
        } else {
            assert(c[i] == b[i - a.len()]);
        }
    }
}

proof fn lemma_concat(a: Seq<(int, int)>, b: Seq<(int, int)>, lo: int, mid: int, hi: int)
    requires
        spans_within(a, lo, mid),
        spans_within(b, mid, hi),
        spans_ordered(a),
        spans_ordered(b),
        lo <= mid <= hi,
    ensures
        spans_within(a + b, lo, hi),
        spans_ordered(a + b),
{
    let c = a + b;
    assert forall|i: int| 0 <= i < c.len() implies lo <= (#[trigger] c[i]).0 && 0 <= c[i].1 && c[i].0
        + c[i].1 <= hi by {
        if i >= a.len() {
            assert(c[i] == b[i - a.len()]);
        } else {
            assert(c[i] == a[i]);
        }
    }
    assert forall|i: int, j: int| 0 <= i < j < c.len() implies (#[trigger] c[i]).0 <= (
    #[trigger] c[j]).0 && c[i].0 + c[i].1 <= c[j].0 by {
        if j >= a.len() {
            assert(c[j] == b[j - a.len()]);
            if i >= a.len() {
                assert(c[i] == b[i - a.len()]);
            } else {
                assert(c[i] == a[i]);
            }
        } else {
            assert(c[i] == a[i] && c[j] == a[j]);
        }
    }
}

proof fn lemma_gap_spans_bounds(g: int, ms: Seq<int>, hi: int)
    requires
        forall|i: int| 0 <= i < ms.len() ==> g <= #[trigger] ms[i] <= hi,
        forall|i: int, j: int| 0 <= i < j < ms.len() ==> ms[i] < ms[j],
        g <= hi,
    ensures
        spans_within(gap_spans(g, ms), g, hi),
        spans_ordered(gap_spans(g, ms)),
        forall|i: int| 0 <= i < gap_spans(g, ms).len() ==> (#[trigger] gap_spans(g, ms)[i]).1 > 0,
    decreases ms.len(),
{
    if ms.len() > 0 {
        let rest = ms.drop_first();
        assert forall|i: int, j: int| 0 <= i < j < rest.len() implies rest[i] < rest[j] by {
            assert(rest[i] == ms[i + 1] && rest[j] == ms[j + 1]);
        }
        if ms.len() > 1 {
            assert(ms[1] <= hi && ms[0] < ms[1]);
        }
        if ms[0] + 1 <= hi {
            lemma_gap_spans_bounds(ms[0] + 1, rest, hi);
        } else {
            assert(rest.len() == 0);
            assert(gap_spans(ms[0] + 1, rest) =~= seq![]);
        }
        assert forall|i: int| 0 <= i < rest.len() implies ms[0] + 1 <= #[trigger] rest[i] <= hi by {
            assert(rest[i] == ms[i + 1]);
        }
        let tail = gap_spans(ms[0] + 1, rest);
        assert(spans_within(tail, ms[0], hi));
        if ms[0] > g {
            let head = seq![(g, ms[0] - g)];
            lemma_concat(head, tail, g, ms[0], hi);
            let c = head + tail;
            assert forall|i: int| 0 <= i < c.len() implies (#[trigger] c[i]).1 > 0 by {
                if i > 0 {
                    assert(c[i] == tail[i - 1]);
                }
            }
        }
    }
}

proof fn lemma_spans_from_bounds(text: Seq<char>, sks: Seq<Seq<char>>, tg: Seq<Target>, pos: int)
    requires
        sks.len() == text.len(),
        tg.len() > 0,
        0 <= pos <= text.len(),
    ensures
        spans_within(spans_from(text, sks, tg, pos), offset_of(text, pos), units(text)),
        spans_ordered(spans_from(text, sks, tg, pos)),
        spans_positive_but_last(spans_from(text, sks, tg, pos)),
    decreases sks.len() - pos,
{
    let start = offset_of(text, pos);
    lemma_offset_monotone(text, pos, text.len() as int);
    match pass_hits(sks, tg, pos, 0) {
        None => {},
        Some(hs) => {
            lemma_pass_hits_shape(sks, tg, pos, 0);
            let last = hs.last();
            let ms = hs.map_values(|j: int| offset_of(text, j));
            assert forall|i: int| 0 <= i < ms.len() implies start <= #[trigger] ms[i] <= offset_of(
                text,
                last,
            ) by {
                lemma_offset_monotone(text, pos, hs[i]);
                if i < hs.len() - 1 {
                    lemma_offset_monotone(text, hs[i], last);
                }
            }
            assert forall|i: int, j: int| 0 <= i < j < ms.len() implies ms[i] < ms[j] by {
                lemma_offset_monotone(text, hs[i], hs[j]);
            }
            lemma_offset_monotone(text, pos, last);
            lemma_gap_spans_bounds(start, ms, offset_of(text, last));
            lemma_spans_from_bounds(text, sks, tg, last + 1);
            lemma_offset_monotone(text, last, last + 1);
            let a = gap_spans(start, ms);
            let b = spans_from(text, sks, tg, last + 1);
            assert(spans_within(b, offset_of(text, last), units(text)));
            lemma_concat(a, b, start, offset_of(text, last), units(text));
            lemma_spans_from_nonempty(text, sks, tg, last + 1);
            lemma_positive_concat(a, b);
        },
    }
}

/// The spans are sorted by strictly increasing offset and do not overlap:
/// each one ends at or before the start of the next, and no length is
/// negative.
pub proof fn law_spans_ordered(input: Seq<char>, pattern: Seq<char>)
    ensures
        spans_ordered(spoiler_spans(input, pattern)),
        forall|i: int, j: int|
            0 <= i < j < spoiler_spans(input, pattern).len() ==> (#[trigger] spoiler_spans(
                input,
                pattern,
            )[i]).0 < (#[trigger] spoiler_spans(input, pattern)[j]).0,
        forall|i: int|
            0 <= i < spoiler_spans(input, pattern).len() ==> 0 <= (#[trigger] spoiler_spans(
                input,
                pattern,
            )[i]).1,
{
    lemma_spoiler_bounds(input, pattern);
    let sp = spoiler_spans(input, pattern);
    assert forall|i: int, j: int| 0 <= i < j < sp.len() implies (#[trigger] sp[i]).0 < (
    #[trigger] sp[j]).0 by {
        assert(sp[i].1 > 0);
        assert(sp[i].0 + sp[i].1 <= sp[j].0);
    }
}

/// An empty input or an empty pattern gives no spans.
pub proof fn law_empty_gives_no_spans(input: Seq<char>, pattern: Seq<char>)
    ensures
        spoiler_spans(seq![], pattern).len() == 0,
        spoiler_spans(input, seq![]).len() == 0,
{
}

/// Every span lies inside the text: from offset zero to its length in
/// UTF-16 code units.
pub proof fn law_spans_inside(input: Seq<char>, pattern: Seq<char>)
    ensures
        spans_within(spoiler_spans(input, pattern), 0, units(input)),
{
    lemma_spoiler_bounds(input, pattern);
}

proof fn lemma_spoiler_bounds(input: Seq<char>, pattern: Seq<char>)
    ensures
        spans_within(spoiler_spans(input, pattern), 0, units(input)),
        spans_ordered(spoiler_spans(input, pattern)),
        spans_positive_but_last(spoiler_spans(input, pattern)),
{
    let sks = skeletons(input);
    let tg = targets(pattern);
    if pattern.len() > 0 && input.len() > 0 && tg.len() > 0 {
        lemma_spans_from_bounds(input, sks, tg, 0);
        assert(input.take(0) =~= seq![]);
    }
}


proof fn lemma_units_same_widths(s1: Seq<char>, s2: Seq<char>)
    requires
        s1.len() == s2.len(),
        forall|k: int| 0 <= k < s1.len() ==> char_width(#[trigger] s1[k]) == char_width(s2[k]),
    ensures
        units(s1) == units(s2),
    decreases s1.len(),
{
    if s1.len() > 0 {
        lemma_units_same_widths(s1.drop_last(), s2.drop_last());
    }
}

proof fn lemma_spans_from_same_offsets(
    t1: Seq<char>,
    t2: Seq<char>,
    sks: Seq<Seq<char>>,
    tg: Seq<Target>,
    pos: int,
)
    requires
        sks.len() == t1.len(),
        t1.len() == t2.len(),
        tg.len() > 0,
        0 <= pos <= t1.len(),
        units(t1) == units(t2),
        forall|j: int| 0 <= j <= t1.len() ==> offset_of(t1, j) == offset_of(t2, j),
    ensures
        spans_from(t1, sks, tg, pos) == spans_from(t2, sks, tg, pos),
    decreases sks.len() - pos,
{
    if let Some(hs) = pass_hits(sks, tg, pos, 0) {
        lemma_pass_hits_shape(sks, tg, pos, 0);
        assert(hs.map_values(|j: int| offset_of(t1, j)) =~= hs.map_values(|j: int| offset_of(t2, j)));
        lemma_spans_from_same_offsets(t1, t2, sks, tg, hs.last() + 1);
    }
}

/// Replacing one character of the input by another with the same
/// confusable skeleton and the same UTF-16 width leaves the spans unchanged.
/// (A replacement of another width moves every later offset, so it changes
/// the spans whenever the lower-cased pattern is not empty.)
pub proof fn law_confusable_substitution(input: Seq<char>, pattern: Seq<char>, i: int, c: char)
    requires
        0 <= i < input.len(),
        skeleton_of(seq![c]) == skeleton_of(seq![input[i]]),
        char_width(c) == char_width(input[i]) || pattern.len() == 0 || lower_of(pattern).len() == 0,
    ensures
        spoiler_spans(input.update(i, c), pattern) == spoiler_spans(input, pattern),
{
    let changed = input.update(i, c);
    assert(skeletons(changed) =~= skeletons(input));
    let tg = targets(pattern);
    if pattern.len() > 0 && tg.len() > 0 {
        assert forall|j: int| 0 <= j <= input.len() implies offset_of(changed, j) == offset_of(
            input,
            j,
        ) by {
            lemma_units_same_widths(changed.take(j), input.take(j));
        }
        assert(changed.take(input.len() as int) =~= changed);
        assert(input.take(input.len() as int) =~= input);
        assert(offset_of(changed, input.len() as int) == offset_of(input, input.len() as int));
        lemma_spans_from_same_offsets(changed, input, skeletons(input), tg, 0);
    }
}


/// Some span covers the code unit `u`.
pub open spec fn covered(sp: Seq<(int, int)>, u: int) -> bool {
    exists|i: int| 0 <= i < sp.len() && (#[trigger] sp[i]).0 <= u < sp[i].0 + sp[i].1
}

/// The offsets of the characters matched by the complete passes that start
/// at character index `pos`.
pub open spec fn visible_from(text: Seq<char>, sks: Seq<Seq<char>>, tg: Seq<Target>, pos: int) -> Set<
    int,
>
    decreases sks.len() - pos,
    when tg.len() > 0
    via visible_from_decreases
{
    match pass_hits(sks, tg, pos, 0) {
        None => Set::empty(),
        Some(hs) => hs.map_values(|j: int| offset_of(text, j)).to_set().union(
            visible_from(text, sks, tg, hs.last() + 1),
        ),
    }
}

#[via_fn]
proof fn visible_from_decreases(text: Seq<char>, sks: Seq<Seq<char>>, tg: Seq<Target>, pos: int) {
    if let Some(hs) = pass_hits(sks, tg, pos, 0) {
        lemma_pass_hits_shape(sks, tg, pos, 0);
    }
}

/// The character index at which the passes from `pos` stop: the start of
/// the first pass that does not complete.
pub open spec fn matched_end(sks: Seq<Seq<char>>, tg: Seq<Target>, pos: int) -> int
    decreases sks.len() - pos,
    when tg.len() > 0
    via matched_end_decreases
{
    match pass_hits(sks, tg, pos, 0) {
        None => pos,
        Some(hs) => matched_end(sks, tg, hs.last() + 1),
    }
}

#[via_fn]
proof fn matched_end_decreases(sks: Seq<Seq<char>>, tg: Seq<Target>, pos: int) {
    if let Some(hs) = pass_hits(sks, tg, pos, 0) {
        lemma_pass_hits_shape(sks, tg, pos, 0);
    }
}

/// Every complete pass from `pos` ends on a character of width one.
pub open spec fn passes_end_narrow(text: Seq<char>, sks: Seq<Seq<char>>, tg: Seq<Target>, pos: int) -> bool
    decreases sks.len() - pos,
    when tg.len() > 0
    via passes_end_narrow_decreases
{
    match pass_hits(sks, tg, pos, 0) {
        None => true,
        Some(hs) => char_width(text[hs.last()]) == 1 && passes_end_narrow(text, sks, tg, hs.last() + 1),
    }
}

#[via_fn]
proof fn passes_end_narrow_decreases(text: Seq<char>, sks: Seq<Seq<char>>, tg: Seq<Target>, pos: int) {
    if let Some(hs) = pass_hits(sks, tg, pos, 0) {
        lemma_pass_hits_shape(sks, tg, pos, 0);
    }
}

proof fn lemma_covered_concat(a: Seq<(int, int)>, b: Seq<(int, int)>, u: int)
    ensures
        covered(a + b, u) <==> covered(a, u) || covered(b, u),
{
    let c = a + b;
    if covered(c, u) {
        let i = choose|i: int| 0 <= i < c.len() && (#[trigger] c[i]).0 <= u < c[i].0 + c[i].1;
        if i < a.len() {
            assert(c[i] == a[i]);
        } else {
            assert(c[i] == b[i - a.len()]);
        }
    }
    if covered(a, u) {
        let i = choose|i: int| 0 <= i < a.len() && (#[trigger] a[i]).0 <= u < a[i].0 + a[i].1;
        assert(c[i] == a[i]);
    }
    if covered(b, u) {
        let i = choose|i: int| 0 <= i < b.len() && (#[trigger] b[i]).0 <= u < b[i].0 + b[i].1;
        assert(c[i + a.len()] == b[i]);
    }
}

proof fn lemma_not_covered_outside(sp: Seq<(int, int)>, lo: int, hi: int, u: int)
    requires
        spans_within(sp, lo, hi),
        u < lo || hi <= u,
    ensures
        !covered(sp, u),
{
}

proof fn lemma_gap_spans_cover(g: int, ms: Seq<int>, u: int)
    requires
        ms.len() > 0,
        forall|i: int| 0 <= i < ms.len() ==> g <= #[trigger] ms[i],
        forall|i: int, j: int| 0 <= i < j < ms.len() ==> ms[i] < ms[j],
        g <= u <= ms.last(),
    ensures
        covered(gap_spans(g, ms), u) <==> !ms.contains(u),
    decreases ms.len(),
{
    let rest = ms.drop_first();
    assert forall|i: int, j: int| 0 <= i < j < rest.len() implies rest[i] < rest[j] by {
        assert(rest[i] == ms[i + 1] && rest[j] == ms[j + 1]);
    }
    assert forall|i: int| 0 <= i < rest.len() implies ms[0] + 1 <= #[trigger] rest[i] by {
        assert(rest[i] == ms[i + 1]);
    }
    assert forall|i: int| 0 <= i < ms.len() implies ms[0] <= #[trigger] ms[i] by {
        if i > 0 {
            assert(ms[0] < ms[i]);
        }
    }
    let tail = gap_spans(ms[0] + 1, rest);
    if rest.len() > 0 {
        assert(rest.last() == ms.last());
        assert forall|i: int| 0 <= i < rest.len() implies #[trigger] rest[i] <= rest.last() by {
            if i < rest.len() - 1 {
                assert(rest[i] < rest[rest.len() - 1]);
            }
        }
        lemma_gap_spans_bounds(ms[0] + 1, rest, rest.last());
        if u > ms[0] {
            lemma_gap_spans_cover(ms[0] + 1, rest, u);
        } else {
            lemma_not_covered_outside(tail, ms[0] + 1, rest.last(), u);
        }
    } else {
        assert(tail =~= seq![]);
    }
    assert(ms.contains(u) <==> (u == ms[0] || rest.contains(u))) by {
        if ms.contains(u) {
            let i = choose|i: int| 0 <= i < ms.len() && ms[i] == u;
            if i > 0 {
                assert(rest[i - 1] == u);
            }
        }
        if rest.contains(u) {
            let i = choose|i: int| 0 <= i < rest.len() && rest[i] == u;
            assert(ms[i + 1] == u);
        }
    }
    if u < ms[0] {
        assert forall|i: int| 0 <= i < rest.len() implies rest[i] != u by {
            assert(rest[i] >= ms[0] + 1);
        }
    }
    if ms[0] > g {
        let head = seq![(g, ms[0] - g)];
        lemma_covered_concat(head, tail, u);
        if u < ms[0] {
            assert(head[0].0 <= u < head[0].0 + head[0].1);
        }
    }
}


proof fn lemma_pass_offsets(text: Seq<char>, sks: Seq<Seq<char>>, tg: Seq<Target>, pos: int)
    requires
        sks.len() == text.len(),
        tg.len() > 0,
        0 <= pos <= text.len(),
        pass_hits(sks, tg, pos, 0) is Some,
    ensures
        ({
            let hs = pass_hits(sks, tg, pos, 0)->0;
            let ms = hs.map_values(|j: int| offset_of(text, j));
            &&& hs.len() == tg.len()
            &&& pos <= hs.last() < text.len()
            &&& ms.last() == offset_of(text, hs.last())
            &&& forall|i: int|
                0 <= i < ms.len() ==> offset_of(text, pos) <= #[trigger] ms[i] <= offset_of(
                    text,
                    hs.last(),
                )
            &&& forall|i: int, j: int| 0 <= i < j < ms.len() ==> ms[i] < ms[j]
        }),
{
    lemma_pass_hits_shape(sks, tg, pos, 0);
    let hs = pass_hits(sks, tg, pos, 0)->0;
    let last = hs.last();
    let ms = hs.map_values(|j: int| offset_of(text, j));
    assert forall|i: int| 0 <= i < ms.len() implies offset_of(text, pos) <= #[trigger] ms[i]
        <= offset_of(text, last) by {
        lemma_offset_monotone(text, pos, hs[i]);
        if i < hs.len() - 1 {
            lemma_offset_monotone(text, hs[i], last);
        }
    }
    assert forall|i: int, j: int| 0 <= i < j < ms.len() implies ms[i] < ms[j] by {
        lemma_offset_monotone(text, hs[i], hs[j]);
    }
}

proof fn lemma_visible_from_lower(text: Seq<char>, sks: Seq<Seq<char>>, tg: Seq<Target>, pos: int)
    requires
        sks.len() == text.len(),
        tg.len() > 0,
        0 <= pos <= text.len(),
    ensures
        forall|v: int| #[trigger] visible_from(text, sks, tg, pos).contains(v) ==> offset_of(text, pos) <= v,
        pos <= matched_end(sks, tg, pos) <= text.len(),
    decreases sks.len() - pos,
{
    if let Some(hs) = pass_hits(sks, tg, pos, 0) {
        lemma_pass_offsets(text, sks, tg, pos);
        let last = hs.last();
        let ms = hs.map_values(|j: int| offset_of(text, j));
        lemma_visible_from_lower(text, sks, tg, last + 1);
        lemma_offset_monotone(text, pos, last + 1);
        assert forall|v: int| #[trigger] visible_from(text, sks, tg, pos).contains(v) implies offset_of(
            text,
            pos,
        ) <= v by {
            assert(visible_from(text, sks, tg, pos) == ms.to_set().union(
                visible_from(text, sks, tg, last + 1),
            ));
            if ms.to_set().contains(v) {
                assert(ms.contains(v));
                let i = choose|i: int| 0 <= i < ms.len() && ms[i] == v;
                assert(offset_of(text, pos) <= ms[i]);
            } else {
                assert(visible_from(text, sks, tg, last + 1).contains(v));
            }
        }
    }
}

proof fn lemma_spans_from_cover(
    text: Seq<char>,
    sks: Seq<Seq<char>>,
    tg: Seq<Target>,
    pos: int,
    u: int,
)
    requires
        sks.len() == text.len(),
        tg.len() > 0,
        0 <= pos <= text.len(),
        passes_end_narrow(text, sks, tg, pos),
        offset_of(text, pos) <= u < offset_of(text, matched_end(sks, tg, pos)),
    ensures
        covered(spans_from(text, sks, tg, pos), u) <==> !visible_from(text, sks, tg, pos).contains(u),
    decreases sks.len() - pos,
{
    if let Some(hs) = pass_hits(sks, tg, pos, 0) {
        lemma_pass_offsets(text, sks, tg, pos);
        let start = offset_of(text, pos);
        let last = hs.last();
        let next = last + 1;
        let ms = hs.map_values(|j: int| offset_of(text, j));
        lemma_offset_step(text, last);
        let a = gap_spans(start, ms);
        let b = spans_from(text, sks, tg, next);
        lemma_covered_concat(a, b, u);
        lemma_spans_from_bounds(text, sks, tg, next);
        lemma_visible_from_lower(text, sks, tg, next);
        assert(ms.to_set().contains(u) <==> ms.contains(u));
        if u <= offset_of(text, last) {
            lemma_gap_spans_cover(start, ms, u);
            lemma_not_covered_outside(b, offset_of(text, next), units(text), u);
            assert(!visible_from(text, sks, tg, next).contains(u));
        } else {
            lemma_gap_spans_bounds(start, ms, offset_of(text, last));
            lemma_not_covered_outside(a, start, offset_of(text, last), u);
            lemma_spans_from_cover(text, sks, tg, next, u);
        }
    } else {
        assert(matched_end(sks, tg, pos) == pos);
    }
}

/// Code-unit length of the part of `input` that complete passes matched.
pub open spec fn matched_prefix_units(input: Seq<char>, pattern: Seq<char>) -> int {
    if pattern.len() == 0 || input.len() == 0 || targets(pattern).len() == 0 {
        0
    } else {
        offset_of(input, matched_end(skeletons(input), targets(pattern), 0))
    }
}

/// Offsets of the input characters that complete passes matched.
pub open spec fn matched_units(input: Seq<char>, pattern: Seq<char>) -> Set<int> {
    if pattern.len() == 0 || input.len() == 0 || targets(pattern).len() == 0 {
        Set::empty()
    } else {
        visible_from(input, skeletons(input), targets(pattern), 0)
    }
}

/// No complete pass ends on a character of two code units.
pub open spec fn no_pass_ends_wide(input: Seq<char>, pattern: Seq<char>) -> bool {
    if pattern.len() == 0 || input.len() == 0 || targets(pattern).len() == 0 {
        true
    } else {
        passes_end_narrow(input, skeletons(input), targets(pattern), 0)
    }
}

/// Within the matched part of the input, a code unit is left visible exactly
/// when a pattern character was matched at that offset. This needs every
/// complete pass to end on a one-unit character: after a two-unit match
/// that closes a pass, the match's second unit is neither hidden nor a
/// match offset.
pub proof fn law_visible_are_matched(input: Seq<char>, pattern: Seq<char>, u: int)
    requires
        no_pass_ends_wide(input, pattern),
        0 <= u < matched_prefix_units(input, pattern),
    ensures
        covered(spoiler_spans(input, pattern), u) <==> !matched_units(input, pattern).contains(u),
{
    assert(input.take(0) =~= seq![]);
    lemma_spans_from_cover(input, skeletons(input), targets(pattern), 0, u);
}

} // verus!
