use diffo::inline_diff::{
    affix_ranges, append_range, diff_ranges, PairRanges, Range, MAX_LCS_TOKENS,
};

fn parts<'a>(text: &'a str, ranges: &[Range]) -> Vec<&'a str> {
    ranges
        .iter()
        .map(|range| &text[range.start..range.end])
        .collect()
}

#[test]
fn token_diff_keeps_moved_common_run_unhighlighted() {
    let old = "    snapshot.files[state.active_file], store, view, state,";
    let new = "    state, snapshot.files[state.active_file],";
    let ranges = diff_ranges(old, new);
    assert_eq!(parts(old, &ranges.old), ["store, view, state,"]);
    assert_eq!(parts(new, &ranges.new), ["state,"]);
}

#[test]
fn token_diff_marks_only_changed_suffix() {
    let old = "const name = oldValue;";
    let new = "const name = newValue;";
    let ranges = diff_ranges(old, new);
    assert_eq!(parts(old, &ranges.old), ["oldValue"]);
    assert_eq!(parts(new, &ranges.new), ["newValue"]);
}

#[test]
fn token_diff_preserves_whitespace_only_changes() {
    let ranges = diff_ranges("call(a, b)", "call(a,b)");
    assert_eq!(parts("call(a, b)", &ranges.old), [" "]);
    assert!(ranges.new.is_empty());
    let ranges = diff_ranges(" \t", "  ");
    assert_eq!(parts(" \t", &ranges.old), [" \t"]);
    assert_eq!(parts("  ", &ranges.new), ["  "]);
}

#[test]
fn multiple_edits_preserve_common_middle() {
    let old = "old(first, shared, last);";
    let new = "new(first, shared, end);";
    let ranges = diff_ranges(old, new);
    assert_eq!(parts(old, &ranges.old), ["old", "last"]);
    assert_eq!(parts(new, &ranges.new), ["new", "end"]);
}

#[test]
fn identical_empty_insert_and_delete() {
    for text in ["", "a", "架😀e\u{301}"] {
        assert_eq!(diff_ranges(text, text), PairRanges::default());
    }
    assert_eq!(
        diff_ranges("", "架"),
        PairRanges {
            old: vec![],
            new: vec![Range { start: 0, end: 3 }]
        }
    );
    assert_eq!(
        diff_ranges("架", ""),
        PairRanges {
            old: vec![Range { start: 0, end: 3 }],
            new: vec![]
        }
    );
}

#[test]
fn unicode_tokens_keep_byte_boundaries_and_common_characters() {
    let old = "call(架构, 😀);";
    let new = "call(架子, 😃);";
    let ranges = diff_ranges(old, new);
    assert_eq!(parts(old, &ranges.old), ["构", "😀"]);
    assert_eq!(parts(new, &ranges.new), ["子", "😃"]);
}

#[test]
fn lcs_limits_use_utf8_safe_affix_ranges() {
    // 241 punctuation tokens exceed the token cap; 160 exceed the cell cap.
    for count in [160, MAX_LCS_TOKENS + 1] {
        let common = ";".repeat(count);
        let old = format!("{common}😀 middle À{common}");
        let new = format!("{common}😃 middle Ā{common}");
        let ranges = diff_ranges(&old, &new);
        assert_eq!(parts(&old, &ranges.old), ["😀 middle À"]);
        assert_eq!(parts(&new, &ranges.new), ["😃 middle Ā"]);
    }
}

#[test]
fn affix_does_not_overlap_or_split_unicode() {
    for (old, new, old_parts, new_parts) in [
        ("😀", "😃", vec!["😀"], vec!["😃"]),
        ("À", "Ā", vec!["À"], vec!["Ā"]),
        ("a", "aa", vec![], vec!["a"]),
        ("架a", "架", vec!["a"], vec![]),
    ] {
        let ranges = affix_ranges(old, new);
        assert_eq!(parts(old, &ranges.old), old_parts);
        assert_eq!(parts(new, &ranges.new), new_parts);
    }
}

#[test]
fn coalesce_only_overlapping_or_adjacent_nonempty_ranges() {
    let mut ranges = vec![];
    for (start, end) in [(1, 3), (2, 4), (4, 6), (9, 10), (11, 11)] {
        append_range(&mut ranges, Range { start, end });
    }
    assert_eq!(
        ranges,
        [Range { start: 1, end: 6 }, Range { start: 9, end: 10 }]
    );
}

#[test]
fn generated_unicode_ranges_are_ordered_nonempty_and_in_bounds() {
    let atoms = [
        "", "a", "_", " ", "\t", "架", "😀", "\u{301}", ";", "old new",
    ];
    for a in atoms {
        for b in atoms {
            let old = format!("{a}({b}){a}");
            let new = format!("{b}({a}){b}");
            let pair = diff_ranges(&old, &new);
            for (text, ranges) in [(&old, &pair.old), (&new, &pair.new)] {
                let mut previous = 0;
                for range in ranges {
                    assert!(
                        previous <= range.start
                            && range.start < range.end
                            && range.end <= text.len()
                    );
                    assert!(
                        text.is_char_boundary(range.start) && text.is_char_boundary(range.end)
                    );
                    previous = range.end;
                }
            }
        }
    }
}
