use patternify::units::utf16_width;
use patternify::{hide_spans, spoilerify, HideSpan};

fn pairs(spans: &[HideSpan]) -> Vec<(usize, usize)> {
    spans.iter().map(|s| (s.offset, s.length)).collect()
}

fn utf16_len(s: &str) -> usize {
    s.encode_utf16().count()
}

#[test]
fn no_occurrence_hides_everything() {
    assert_eq!(pairs(&spoilerify("abc", "z")), vec![(0, 3)]);
}

#[test]
fn hello_world_keeps_o_and_l() {
    assert_eq!(
        pairs(&spoilerify("hello world", "ol")),
        vec![(0, 4), (5, 4), (10, 1)]
    );
}

#[test]
fn empty_input_gives_no_spans() {
    assert!(spoilerify("", "x").is_empty());
}

#[test]
fn empty_pattern_gives_no_spans() {
    assert!(spoilerify("x", "").is_empty());
}

#[test]
fn both_empty_give_no_spans() {
    assert!(spoilerify("", "").is_empty());
}

#[test]
fn surrogate_pair_counts_two_units() {
    assert_eq!(pairs(&spoilerify("😀a", "a")), vec![(0, 2), (3, 0)]);
}

#[test]
fn wide_characters_shift_later_offsets() {
    assert_eq!(
        pairs(&spoilerify("x😀😀ab", "b")),
        vec![(0, 6), (7, 0)]
    );
}

#[test]
fn repeated_pattern_stamps_each_pass() {
    assert_eq!(
        pairs(&spoilerify("abxab", "ab")),
        vec![(2, 1), (5, 0)]
    );
}

#[test]
fn pattern_tiling_input_ends_with_empty_span() {
    assert_eq!(pairs(&spoilerify("abab", "ab")), vec![(4, 0)]);
}

#[test]
fn pattern_longer_than_input() {
    assert_eq!(pairs(&spoilerify("ab", "abc")), vec![(0, 2)]);
}

#[test]
fn upper_case_pattern_matches_lower_case_input() {
    assert_eq!(pairs(&spoilerify("hello", "O")), vec![(0, 4), (5, 0)]);
}

#[test]
fn lower_case_pattern_matches_upper_case_input() {
    assert_eq!(pairs(&spoilerify("xAy", "a")), vec![(0, 1), (2, 1)]);
}

#[test]
fn confusable_digit_matches_letter() {
    assert_eq!(pairs(&spoilerify("x0y", "o")), vec![(0, 1), (2, 1)]);
}

#[test]
fn confusable_substitution_keeps_spans() {
    let latin = spoilerify("bac", "a");
    let cyrillic = spoilerify("b\u{430}c", "a");
    assert_eq!(pairs(&latin), vec![(0, 1), (2, 1)]);
    assert_eq!(pairs(&latin), pairs(&cyrillic));
}

#[test]
fn spans_ordered_and_inside_text() {
    let inputs = ["hello world", "aaa bbb aaa", "😀x😀y😀", "no match here", "ababab"];
    let patterns = ["ol", "ab", "xy", "q", "a"];
    for input in inputs {
        for pattern in patterns {
            let spans = spoilerify(input, pattern);
            let total = utf16_len(input);
            for (i, s) in spans.iter().enumerate() {
                assert!(s.offset + s.length <= total);
                if i + 1 < spans.len() {
                    assert!(s.offset + s.length <= spans[i + 1].offset);
                }
            }
        }
    }
}

#[test]
fn hide_spans_on_given_skeletons() {
    let text: Vec<char> = "a-b".chars().collect();
    let skels = vec!["a".to_string(), "-".to_string(), "b".to_string()];
    let targets = vec![("a".to_string(), "A".to_string()), ("b".to_string(), "B".to_string())];
    assert_eq!(pairs(&hide_spans(&text, &skels, &targets)), vec![(1, 1), (3, 0)]);
}

#[test]
fn hide_spans_second_target_matches() {
    let text: Vec<char> = "xy".chars().collect();
    let skels = vec!["x".to_string(), "Q".to_string()];
    let targets = vec![("q".to_string(), "Q".to_string())];
    assert_eq!(pairs(&hide_spans(&text, &skels, &targets)), vec![(0, 1), (2, 0)]);
}

#[test]
fn hide_spans_without_targets_is_empty() {
    let text: Vec<char> = "xy".chars().collect();
    let skels = vec!["x".to_string(), "y".to_string()];
    assert!(hide_spans(&text, &skels, &Vec::new()).is_empty());
}

#[test]
fn utf16_widths() {
    assert_eq!(utf16_width('a'), 1);
    assert_eq!(utf16_width('\u{ffff}'), 1);
    assert_eq!(utf16_width('\u{10000}'), 2);
    assert_eq!(utf16_width('😀'), 2);
}

#[test]
fn wide_match_closing_a_pass_leaves_second_unit_unhidden() {
    assert_eq!(pairs(&spoilerify("😀b", "😀")), vec![(2, 1)]);
}

#[test]
fn wide_match_inside_a_pass_hides_second_unit() {
    assert_eq!(pairs(&spoilerify("😀b", "😀b")), vec![(1, 1), (3, 0)]);
}

#[test]
fn non_empty_arguments_give_spans() {
    let inputs = ["a", "abab", "😀", "xyz", "hello world"];
    let patterns = ["a", "ab", "😀", "q", "ol"];
    for input in inputs {
        for pattern in patterns {
            assert!(!spoilerify(input, pattern).is_empty());
        }
    }
}

#[test]
fn offsets_strictly_increase() {
    let spans = spoilerify("xaxbxaxb", "ab");
    assert_eq!(pairs(&spans), vec![(0, 1), (2, 1), (4, 1), (6, 1), (8, 0)]);
    for w in spans.windows(2) {
        assert!(w[0].offset < w[1].offset);
    }
}
