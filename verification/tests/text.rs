use drey::json::Json;
use drey::text::Text;

fn change(sl: u64, sc: u64, el: u64, ec: u64, text: &str) -> Json {
    let at = |line: u64, character: u64| {
        Json::object()
            .with("line", Json::unsigned(line))
            .with("character", Json::unsigned(character))
    };
    Json::object()
        .with("range", Json::object().with("start", at(sl, sc)).with("end", at(el, ec)))
        .with("text", Json::string(text))
}

fn edited(before: &str, change: &Json) -> String {
    let mut t = Text::new(before.to_string());
    t.apply(change);
    t.content
}

#[test]
fn full_replacement_when_range_absent() {
    let new = Json::object().with("text", Json::string("new"));
    assert_eq!(edited("old", &new), "new");
}

#[test]
fn single_line_edit() {
    assert_eq!(edited("let x = 1;", &change(0, 8, 0, 9, "42")), "let x = 42;");
}

#[test]
fn multi_line_edit() {
    assert_eq!(edited("a\nb\nc\n", &change(0, 1, 2, 0, "X")), "aXc\n");
}

#[test]
fn insertion_at_empty_range() {
    assert_eq!(edited("ac", &change(0, 1, 0, 1, "b")), "abc");
}

#[test]
fn positions_count_utf16_units_not_chars() {
    // A crab is one char but two UTF-16 units.
    assert_eq!(edited("x🦀y", &change(0, 3, 0, 4, "Z")), "x🦀Z");
}

#[test]
fn character_past_end_of_line_clamps_to_line_end() {
    assert_eq!(edited("ab\ncd", &change(0, 99, 0, 99, "!")), "ab!\ncd");
}

#[test]
fn line_past_end_clamps_to_document_end() {
    assert_eq!(edited("ab", &change(9, 9, 9, 9, "!")), "ab!");
}

#[test]
fn inverted_range_does_not_panic() {
    assert_eq!(edited("abcdef", &change(0, 4, 0, 1, "Z")), "abcdZef");
}

#[test]
fn sequential_changes_compose() {
    let mut t = Text::new("fn main() {}".into());
    t.apply(&change(0, 11, 0, 11, "\n    todo!();\n"));
    t.apply(&change(1, 4, 1, 8, "done"));
    assert_eq!(t.content, "fn main() {\n    done!();\n}");
}

#[test]
fn empty_document_accepts_an_insertion_at_the_origin() {
    let mut t = Text::default();
    t.apply(&change(0, 0, 0, 0, "hello"));
    assert_eq!(t.content, "hello");
}

#[test]
fn empty_document_clamps_any_position() {
    assert_eq!(edited("", &change(4, 7, 9, 2, "x")), "x");
}

#[test]
fn deleting_a_whole_document_leaves_it_empty() {
    assert_eq!(edited("a\nb\nc", &change(0, 0, 2, 1, "")), "");
}

#[test]
fn crlf_carriage_returns_count_as_characters() {
    // LSP lines are delimited by \n; the \r belongs to the preceding line and occupies a
    // UTF-16 unit like anything else.
    assert_eq!(edited("ab\r\ncd", &change(1, 0, 1, 1, "X")), "ab\r\nXd");
}

#[test]
fn a_position_at_the_crlf_line_end_does_not_eat_the_carriage_return() {
    assert_eq!(edited("ab\r\ncd", &change(0, 2, 0, 2, "!")), "ab!\r\ncd");
}

#[test]
fn astral_characters_occupy_two_utf16_units() {
    // Character 2 is the boundary between the two crabs.
    assert_eq!(edited("🦀🦀", &change(0, 2, 0, 2, "|")), "🦀|🦀");
}

#[test]
fn a_position_inside_a_surrogate_pair_snaps_to_the_char_boundary() {
    // Character 1 is halfway through a crab. Splitting the string there would panic, so it
    // must round to a boundary instead.
    let content = edited("🦀x", &change(0, 1, 0, 1, "!"));
    assert!(content == "!🦀x" || content == "🦀!x", "{}", content);
}

#[test]
fn multi_byte_bmp_characters_are_one_unit_each() {
    // é is two bytes but one UTF-16 unit.
    assert_eq!(edited("éé", &change(0, 1, 0, 2, "Z")), "éZ");
}

#[test]
fn a_line_ending_edit_can_join_two_lines() {
    assert_eq!(edited("a\nb", &change(0, 1, 1, 0, "")), "ab");
}

#[test]
fn a_trailing_newline_makes_one_more_empty_line() {
    assert_eq!(edited("a\n", &change(1, 0, 1, 0, "b")), "a\nb");
}

#[test]
fn a_change_without_text_deletes_the_range() {
    let range = change(0, 0, 0, 2, "").field("range");
    assert_eq!(edited("abc", &Json::object().with("range", range)), "c");
}

#[test]
fn a_malformed_range_is_treated_as_the_origin() {
    let range = Json::object().with("start", Json::object()).with("end", Json::object());
    let malformed = Json::object().with("range", range).with("text", Json::string("Z"));
    assert_eq!(edited("abc", &malformed), "Zabc");
}

#[test]
fn an_explicit_null_range_is_not_a_full_replacement() {
    // A present-but-null `range` still takes the ranged branch, where the missing
    // line/character read as zero. Pinned because it is the one shape where "no range" and
    // "range: null" part ways.
    let null = Json::object().with("range", Json::Null).with("text", Json::string("Z"));
    assert_eq!(edited("abc", &null), "Zabc");
}

#[test]
fn documents_compare_by_content() {
    assert_eq!(Text::new("a".into()), Text::new("a".into()));
    assert_ne!(Text::new("a".into()), Text::new("b".into()));
}

#[test]
fn a_full_replacement_always_wins() {
    for (before, after) in [("", "x"), ("x", ""), ("a\nb", "🦀\r\n"), ("same", "same")] {
        let new = Json::object().with("text", Json::string(after));
        assert_eq!(edited(before, &new), after);
    }
}

#[test]
fn an_empty_range_edit_only_inserts() {
    for content in ["", "a", "a\nb", "🦀a\n\nb🦀", "\n"] {
        for line in 0..3 {
            for character in 0..6 {
                let after = edited(content, &change(line, character, line, character, "MARK"));
                assert_eq!(after.len(), content.len() + 4);
                assert!(after.contains("MARK"));
            }
        }
    }
}

/// LSP position semantics over byte offsets rather than characters.
fn apply_by_byte_offsets(text: &str, sl: u64, sc: u64, el: u64, ec: u64, new_text: &str) -> String {
    let offset = |line: u64, character: u64| -> usize {
        let mut idx = 0usize;
        for _ in 0..line {
            match text[idx..].find('\n') {
                Some(i) => idx += i + 1,
                None => return text.len(),
            }
        }
        let mut units = 0u64;
        for (rel, ch) in text[idx..].char_indices() {
            if units >= character || ch == '\n' {
                return idx + rel;
            }
            units += ch.len_utf16() as u64;
        }
        text.len()
    };
    let start = offset(sl, sc);
    let end = offset(el, ec).max(start);
    format!("{}{}{}", &text[..start], new_text, &text[end..])
}

#[test]
fn any_single_edit_agrees_with_byte_offsets() {
    for content in ["", "ab\ncd", "é🦀\r\n\nx🦀y", "\n\n", "a🦀"] {
        for sl in 0..4 {
            for sc in 0..5 {
                for el in 0..4 {
                    for ec in 0..5 {
                        assert_eq!(
                            edited(content, &change(sl, sc, el, ec, "n\nw")),
                            apply_by_byte_offsets(content, sl, sc, el, ec, "n\nw")
                        );
                    }
                }
            }
        }
    }
}

#[test]
fn a_sequence_of_edits_agrees_with_byte_offsets() {
    let mut t = Text::new("a\nb\u{e9}\u{1f980}b\na".into());
    let mut expected = t.content.clone();
    for (sl, sc, el, ec, new) in [
        (0, 1, 1, 0, "xy"),
        (0, 4, 0, 6, "\n"),
        (1, 0, 3, 3, ""),
        (2, 0, 0, 0, "y\nx"),
        (0, 0, 1, 2, "x"),
    ] {
        expected = apply_by_byte_offsets(&expected, sl, sc, el, ec, new);
        t.apply(&change(sl, sc, el, ec, new));
        assert_eq!(t.content, expected);
    }
}

#[test]
fn coordinates_are_taken_in_thirty_two_bits() {
    assert_eq!(edited("ab", &change(4_294_967_296, 1, 4_294_967_296, 1, "!")), "a!b");
}
