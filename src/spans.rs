use crate::confusable::{
    char_string, lower_of, lowercase, skeleton, skeleton_of, upper_of, uppercase,
};
use crate::units::{
    lemma_offset_bounded, lemma_offset_monotone, lemma_offset_step, offset_of, units, utf16_width,
};
use vstd::prelude::*;
use vstd::std_specs::iter::IteratorSpec;

verus! {

/// A range of the text to hide, in UTF-16 code units.
#[derive(Clone, Copy, Debug, PartialEq, Eq, Structural)]
pub struct HideSpan {
    pub offset: usize,
    pub length: usize,
}

impl View for HideSpan {
    type V = (int, int);

    open spec fn view(&self) -> (int, int) {
        (self.offset as int, self.length as int)
    }
}

/// The spans as (offset, length) pairs.
pub open spec fn spans_view(v: Seq<HideSpan>) -> Seq<(int, int)> {
    v.map_values(|s: HideSpan| s@)
}

/// What one pattern character is compared against: the skeleton of its
/// lower-case form and the skeleton of its upper-case form.
pub type Target = (Seq<char>, Seq<char>);

/// An input character whose skeleton is `sk` matches the pattern character
/// with target `t`.
pub open spec fn is_hit(sk: Seq<char>, t: Target) -> bool {
    sk == t.0 || sk == t.1
}

/// The first index at or after `from` whose skeleton matches `t`, or
/// `sks.len()` when there is none.
pub open spec fn first_hit(sks: Seq<Seq<char>>, t: Target, from: int) -> int
    decreases sks.len() - from,
{
    if from >= sks.len() {
        sks.len() as int
    } else if is_hit(sks[from], t) {
        from
    } else {
        first_hit(sks, t, from + 1)
    }
}

/// One greedy pass: the indices at which `tg[k..]` are found in order, each
/// search resuming after the previous match, starting at index `from`;
/// `None` when some target is not found.
pub open spec fn pass_hits(sks: Seq<Seq<char>>, tg: Seq<Target>, from: int, k: int) -> Option<
    Seq<int>,
>
    decreases tg.len() - k,
{
    if k >= tg.len() {
        Some(seq![])
    } else {
        let j = first_hit(sks, tg[k], from);
        if j >= sks.len() {
            None
        } else {
            match pass_hits(sks, tg, j + 1, k + 1) {
                Some(rest) => Some(seq![j] + rest),
                None => None,
            }
        }
    }
}

/// The spans covering the gaps before each match offset of `ms`, the first
/// gap starting at offset `g`; a gap of width zero gives no span, and the
/// gap after a match starts one unit after the match's offset.
pub open spec fn gap_spans(g: int, ms: Seq<int>) -> Seq<(int, int)>
    decreases ms.len(),
{
    if ms.len() == 0 {
        seq![]
    } else {
        let rest = gap_spans(ms[0] + 1, ms.drop_first());
        if ms[0] > g {
            seq![(g, ms[0] - g)] + rest
        } else {
            rest
        }
    }
}

/// The spans produced by the passes that start at character index `pos`:
/// each complete pass hides its gaps and the next pass starts after its last
/// match; the first pass that fails hides everything from its start to the
/// end of the text.
pub open spec fn spans_from(text: Seq<char>, sks: Seq<Seq<char>>, tg: Seq<Target>, pos: int) -> Seq<
    (int, int),
>
    decreases sks.len() - pos,
    when tg.len() > 0
    via spans_from_decreases
{
    let start = offset_of(text, pos);
    match pass_hits(sks, tg, pos, 0) {
        None => seq![(start, units(text) - start)],
        Some(hs) => gap_spans(start, hs.map_values(|j: int| offset_of(text, j))) + spans_from(
            text,
            sks,
            tg,
            hs.last() + 1,
        ),
    }
}

#[via_fn]
proof fn spans_from_decreases(text: Seq<char>, sks: Seq<Seq<char>>, tg: Seq<Target>, pos: int) {
    if let Some(hs) = pass_hits(sks, tg, pos, 0) {
        lemma_pass_hits_shape(sks, tg, pos, 0);
    }
}

/// The hide spans of `text`, given the skeleton of each of its characters
/// and the target of each pattern character.
pub open spec fn hide_model(text: Seq<char>, sks: Seq<Seq<char>>, tg: Seq<Target>) -> Seq<
    (int, int),
> {
    if text.len() == 0 || tg.len() == 0 {
        seq![]
    } else {
        spans_from(text, sks, tg, 0)
    }
}

proof fn lemma_first_hit_range(sks: Seq<Seq<char>>, t: Target, from: int)
    ensures
        first_hit(sks, t, from) < sks.len() ==> from <= first_hit(sks, t, from),
        first_hit(sks, t, from) <= sks.len() || first_hit(sks, t, from) == from,
    decreases sks.len() - from,
{
    if from < sks.len() && !is_hit(sks[from], t) {
        lemma_first_hit_range(sks, t, from + 1);
    }
}

/// A successful pass yields one index per remaining target, strictly
/// increasing, all at or after `from` and inside the text.
pub proof fn lemma_pass_hits_shape(sks: Seq<Seq<char>>, tg: Seq<Target>, from: int, k: int)
    requires
        0 <= k <= tg.len(),
        pass_hits(sks, tg, from, k) is Some,
    ensures
        ({
            let hs = pass_hits(sks, tg, from, k)->0;
            &&& hs.len() == tg.len() - k
            &&& forall|i: int| 0 <= i < hs.len() ==> from <= #[trigger] hs[i] < sks.len()
            &&& forall|i: int, j: int| 0 <= i < j < hs.len() ==> hs[i] < hs[j]
        }),
    decreases tg.len() - k,
{
    if k < tg.len() {
        let j = first_hit(sks, tg[k], from);
        lemma_first_hit_range(sks, tg[k], from);
        lemma_pass_hits_shape(sks, tg, j + 1, k + 1);
        let rest = pass_hits(sks, tg, j + 1, k + 1)->0;
        let hs = pass_hits(sks, tg, from, k)->0;
        assert(hs == seq![j] + rest);
        assert forall|i: int| 0 <= i < hs.len() implies from <= #[trigger] hs[i] < sks.len() by {
            if i > 0 {
                assert(hs[i] == rest[i - 1]);
            }
        }
        assert forall|a: int, b: int| 0 <= a < b < hs.len() implies hs[a] < hs[b] by {
            assert(hs[b] == rest[b - 1]);
            if a > 0 {
                assert(hs[a] == rest[a - 1]);
            }
        }
    }
}

/// Computes the hide spans of `text` from the skeleton of each of its
/// characters (`skels[i]` belongs to `text[i]`) and, for each pattern
/// character in order, the pair of skeletons it is compared against.
pub fn hide_spans(text: &Vec<char>, skels: &Vec<String>, targets: &Vec<(String, String)>) -> (r: Vec<
    HideSpan,
>)
    requires
        skels.len() == text.len(),
        units(text@) <= usize::MAX,
    ensures
        spans_view(r@) == hide_model(text@, skels.deep_view(), targets.deep_view()),
{
    let ghost sks = skels.deep_view();
    let ghost tg = targets.deep_view();
    let mut out: Vec<HideSpan> = Vec::new();
    if text.len() == 0 || targets.len() == 0 {
        assert(spans_view(out@) =~= seq![]);
        return out;
    }
    let n = text.len();
    let mut pos: usize = 0;
    let mut unit: usize = 0;
    proof {
        assert(text@.take(0) =~= seq![]);
        assert(spans_view(out@) =~= seq![]);
        assert(spans_view(out@) + spans_from(text@, sks, tg, 0) =~= spans_from(text@, sks, tg, 0));
    }
    loop
        invariant
            0 <= pos <= n,
            n == text.len(),
            n == skels.len(),
            targets.len() > 0,
            sks == skels.deep_view(),
            tg == targets.deep_view(),
            units(text@) <= usize::MAX,
            unit == offset_of(text@, pos as int),
            spans_view(out@) + spans_from(text@, sks, tg, pos as int) == hide_model(text@, sks, tg),
        decreases n - pos,
    {
        let pass_start = pos;
        let pass_unit = unit;
        let mut hit_units: Vec<usize> = Vec::new();
        let ghost mut hits: Seq<int> = seq![];
        let mut k: usize = 0;
        proof {
            assert(pass_hits(sks, tg, pass_start as int, 0) == (match pass_hits(sks, tg, pos as int, 0) {
                Some(rest) => Some(hits + rest),
                None => None,
            })) by {
                if let Some(rest) = pass_hits(sks, tg, pos as int, 0) {
                    assert(hits + rest =~= rest);
                }
            }
        }
        while k < targets.len()
            invariant
                pass_start <= pos <= n,
                n == text.len(),
                n == skels.len(),
                sks == skels.deep_view(),
                tg == targets.deep_view(),
                units(text@) <= usize::MAX,
                unit == offset_of(text@, pos as int),
                pass_unit == offset_of(text@, pass_start as int),
                spans_view(out@) + spans_from(text@, sks, tg, pass_start as int) == hide_model(
                    text@,
                    sks,
                    tg,
                ),
                k <= targets.len(),
                hits.len() == k,
                hit_units@.len() == k,
                forall|t: int| 0 <= t < k ==> hit_units@[t] == offset_of(text@, #[trigger] hits[t]),
                pass_hits(sks, tg, pass_start as int, 0) == (match pass_hits(
                    sks,
                    tg,
                    pos as int,
                    k as int,
                ) {
                    Some(rest) => Some(hits + rest),
                    None => None,
                }),
                k == 0 ==> pos == pass_start,
                k > 0 ==> pos == hits.last() + 1,
            decreases targets.len() - k,
        {
            let lower = &targets[k].0;
            let upper = &targets[k].1;
            let mut found = false;
            let ghost from = pos as int;
            let ghost hits0 = hits;
            assert(tg[k as int] == (lower@, upper@));
            while pos < n && !found
                invariant
                    from <= pos <= n,
                    n == text.len(),
                    n == skels.len(),
                    sks == skels.deep_view(),
                    k < targets.len(),
                    units(text@) <= usize::MAX,
                    unit == offset_of(text@, pos as int),
                    tg[k as int] == (lower@, upper@),
                    hits0.len() == k,
                    !found ==> first_hit(sks, tg[k as int], from) == first_hit(
                        sks,
                        tg[k as int],
                        pos as int,
                    ),
                    !found ==> hits == hits0 && hit_units@.len() == k,
                    found ==> first_hit(sks, tg[k as int], from) == pos - 1 && from < pos,
                    found ==> hits == hits0.push(pos - 1) && hit_units@.len() == k + 1,
                    forall|t: int|
                        0 <= t < hits.len() ==> hit_units@[t] == offset_of(text@, #[trigger] hits[t]),
                decreases n - pos,
            {
                let w = utf16_width(text[pos]);
                proof {
                    lemma_offset_step(text@, pos as int);
                    lemma_offset_bounded(text@, pos as int + 1);
                }
                let here = unit;
                unit = unit + w;
                pos = pos + 1;
                assert(sks[pos - 1] == skels@[pos - 1]@);
                if skels[pos - 1] == *lower || skels[pos - 1] == *upper {
                    hit_units.push(here);
                    proof {
                        hits = hits.push(pos - 1);
                    }
                    found = true;
                }
            }
            if !found {
                let ghost before = out@;
                proof {
                    assert(pass_hits(sks, tg, pos as int, k as int) is None);
                    assert(spans_from(text@, sks, tg, pass_start as int) == seq![
                        (pass_unit as int, units(text@) - pass_unit),
                    ]);
                    assert(text@.take(n as int) =~= text@);
                    lemma_offset_monotone(text@, pass_start as int, n as int);
                }
                out.push(HideSpan { offset: pass_unit, length: unit - pass_unit });
                proof {
                    assert(spans_view(out@) =~= spans_view(before) + seq![
                        (pass_unit as int, units(text@) - pass_unit),
                    ]);
                }
                return out;
            }
            proof {
                if let Some(rest) = pass_hits(sks, tg, pos as int, k as int + 1) {
                    assert(hits0 + (seq![pos - 1] + rest) =~= hits + rest);
                }
            }
            k = k + 1;
        }
        proof {
            assert(hits + seq![] =~= hits);
            lemma_pass_hits_shape(sks, tg, pass_start as int, 0);
        }
        let ghost ms = hits.map_values(|j: int| offset_of(text@, j));
        let ghost out0 = spans_view(out@);
        assert forall|i: int| 0 <= i < ms.len() implies #[trigger] ms[i] < units(text@) by {
            lemma_offset_monotone(text@, hits[i], hits[i] + 1);
        }
        let mut g: usize = pass_unit;
        let mut t: usize = 0;
        assert(ms.skip(0) =~= ms);
        while t < hit_units.len()
            invariant
                t <= hit_units.len(),
                hit_units@.len() == ms.len(),
                forall|i: int| 0 <= i < ms.len() ==> hit_units@[i] == #[trigger] ms[i],
                forall|i: int| 0 <= i < ms.len() ==> #[trigger] ms[i] < units(text@),
                units(text@) <= usize::MAX,
                spans_view(out@) + gap_spans(g as int, ms.skip(t as int)) == out0 + gap_spans(
                    pass_unit as int,
                    ms,
                ),
            decreases hit_units.len() - t,
        {
            let m = hit_units[t];
            let ghost before = out@;
            assert(ms.skip(t as int).drop_first() =~= ms.skip(t as int + 1));
            if m > g {
                out.push(HideSpan { offset: g, length: m - g });
                assert(spans_view(out@) =~= spans_view(before) + seq![(g as int, m - g)]);
            }
            g = m + 1;
            t = t + 1;
        }
        proof {
            assert(ms.skip(t as int) =~= seq![]);
            assert(spans_view(out@) =~= spans_view(out@) + gap_spans(g as int, ms.skip(t as int)));
            assert(spans_from(text@, sks, tg, pass_start as int) == gap_spans(pass_unit as int, ms)
                + spans_from(text@, sks, tg, pos as int));
            assert(out0 + (gap_spans(pass_unit as int, ms) + spans_from(text@, sks, tg, pos as int))
                =~= (out0 + gap_spans(pass_unit as int, ms)) + spans_from(text@, sks, tg, pos as int));
        }
    }
}


/// The skeleton of each character of `text`.
pub open spec fn skeletons(text: Seq<char>) -> Seq<Seq<char>> {
    text.map_values(|c: char| skeleton_of(seq![c]))
}

/// The target of each character of the lower-cased pattern.
pub open spec fn targets(pattern: Seq<char>) -> Seq<Target> {
    lower_of(pattern).map_values(|p: char| (skeleton_of(seq![p]), skeleton_of(upper_of(p))))
}

/// The hide spans of `input` for `pattern`: none when either is empty.
pub open spec fn spoiler_spans(input: Seq<char>, pattern: Seq<char>) -> Seq<(int, int)> {
    if pattern.len() == 0 {
        seq![]
    } else {
        hide_model(input, skeletons(input), targets(pattern))
    }
}

fn chars_of(s: &str) -> (r: Vec<char>)
    ensures
        r@ == s@,
{
    broadcast use vstd::string::group_string_axioms;

    let mut it = s.chars();
    let mut out: Vec<char> = Vec::new();
    loop
        invariant
            out.len() <= s@.len(),
            it.remaining() == s@.skip(out.len() as int),
            out@ == s@.take(out.len() as int),
        decreases s@.len() - out.len(),
    {
        match it.next() {
            Some(c) => {
                assert(s@.skip(out.len() as int).drop_first() =~= s@.skip(out.len() as int + 1));
                assert(s@.take(out.len() as int).push(c) =~= s@.take(out.len() as int + 1));
                out.push(c);
            },
            None => {
                assert(s@.take(out.len() as int) =~= s@);
                return out;
            },
        }
    }
}

/// The hide spans that leave visible, in `input`, only the characters
/// matched by repeated greedy passes of `pattern`, compared by confusable
/// skeleton and ignoring case; offsets and lengths are in UTF-16 code units.
pub fn spoilerify(input: &str, pattern: &str) -> (r: Vec<HideSpan>)
    requires
        units(input@) <= usize::MAX,
    ensures
        spans_view(r@) == spoiler_spans(input@, pattern@),
        input@.len() == 0 || pattern@.len() == 0 ==> r@.len() == 0,
        input@.len() > 0 && pattern@.len() > 0 ==> r@.len() > 0,
{
    if input.is_empty() || pattern.is_empty() {
        let out: Vec<HideSpan> = Vec::new();
        assert(spans_view(out@) =~= seq![]);
        return out;
    }
    let text = chars_of(input);
    let mut skels: Vec<String> = Vec::new();
    let mut i: usize = 0;
    while i < text.len()
        invariant
            i <= text.len(),
            text@ == input@,
            skels.deep_view() =~= skeletons(text@).take(i as int),
        decreases text.len() - i,
    {
        let one = char_string(text[i]);
        let sk = skeleton(one.as_str());
        let ghost before = skels.deep_view();
        skels.push(sk);
        assert(skels.deep_view() =~= before.push(skeleton_of(seq![text@[i as int]])));
        i = i + 1;
    }
    assert(skeletons(text@).take(i as int) =~= skeletons(text@));
    let lowered = lowercase(pattern);
    let pchars = chars_of(lowered.as_str());
    let mut tgs: Vec<(String, String)> = Vec::new();
    let mut k: usize = 0;
    while k < pchars.len()
        invariant
            k <= pchars.len(),
            pchars@ == lower_of(pattern@),
            tgs.deep_view() =~= targets(pattern@).take(k as int),
        decreases pchars.len() - k,
    {
        let p = pchars[k];
        let lower = skeleton(char_string(p).as_str());
        let upper = skeleton(uppercase(p).as_str());
        let ghost before = tgs.deep_view();
        tgs.push((lower, upper));
        assert(tgs.deep_view() =~= before.push(targets(pattern@)[k as int]));
        k = k + 1;
    }
    assert(targets(pattern@).take(k as int) =~= targets(pattern@));
    let r = hide_spans(&text, &skels, &tgs);
    proof {
        lemma_spans_from_nonempty(text@, skels.deep_view(), tgs.deep_view(), 0);
        assert(spans_view(r@).len() == r@.len());
    }
    r
}


/// The passes always end with the span of the pass that fails, so they
/// yield at least one span.
pub proof fn lemma_spans_from_nonempty(
    text: Seq<char>,
    sks: Seq<Seq<char>>,
    tg: Seq<Target>,
    pos: int,
)
    requires
        tg.len() > 0,
        0 <= pos,
    ensures
        spans_from(text, sks, tg, pos).len() > 0,
    decreases sks.len() - pos,
{
    if let Some(hs) = pass_hits(sks, tg, pos, 0) {
        lemma_pass_hits_shape(sks, tg, pos, 0);
        lemma_spans_from_nonempty(text, sks, tg, hs.last() + 1);
    }
}

} // verus!
