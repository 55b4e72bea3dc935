use yugioh_combo_test::normalize::{normalize_string, ESCAPE};

fn normal(raw: &str) -> String {
    normalize_string(raw.to_string())
}

#[test]
fn the_escape_marker_is_the_backslash() {
    assert_eq!(ESCAPE, '\\');
}

#[test]
fn a_plain_name_is_unchanged() {
    assert_eq!(normal("Pot of Prosperity"), "Pot of Prosperity");
    assert_eq!(normal("Blue-Eyes White Dragon"), "Blue-Eyes White Dragon");
}

#[test]
fn white_space_around_a_name_is_trimmed() {
    assert_eq!(normal("  Card A \t"), "Card A");
    assert_eq!(normal("Card A\n"), "Card A");
    assert_eq!(normal("\u{a0}Card A\u{3000}"), "Card A");
}

#[test]
fn white_space_within_a_name_is_kept() {
    assert_eq!(normal("Card  A"), "Card  A");
}

#[test]
fn an_escape_deletes_the_marker_and_the_next_character() {
    assert_eq!(normal("a\\bc"), "ac");
    assert_eq!(normal("Card \\(1\\)"), "Card 1");
    assert_eq!(normal("\\Xabc"), "abc");
}

#[test]
fn an_escape_marker_after_an_escape_marker_still_deletes_what_follows() {
    assert_eq!(normal("a\\\\bc"), "ac");
    assert_eq!(normal("a\\\\\\bc"), "ac");
}

#[test]
fn an_escape_marker_at_the_end_is_deleted() {
    assert_eq!(normal("ab\\"), "ab");
    assert_eq!(normal("\\"), "");
}

#[test]
fn white_space_laid_bare_by_an_escape_is_trimmed() {
    assert_eq!(normal("Card \\x"), "Card");
    assert_eq!(normal("\\x  Card"), "Card");
}

#[test]
fn an_escaped_space_is_deleted_like_any_other_character() {
    assert_eq!(normal("a\\ b"), "ab");
}

#[test]
fn the_empty_text_and_blank_text_normalize_to_nothing() {
    assert_eq!(normal(""), "");
    assert_eq!(normal("   "), "");
}

#[test]
fn normalizing_keeps_characters_beyond_ascii() {
    assert_eq!(normal(" Fée \\é verte "), "Fée  verte");
}

#[test]
fn a_text_without_escapes_is_trimmed_as_the_standard_library_trims() {
    for text in [
        "",
        " ",
        "a",
        " a",
        "a ",
        "\u{a0}a\u{2003}",
        "\n\ta b\r\n",
        "   ",
        "\u{200b}a\u{200b}",
        "\u{1680}\u{2028}x y\u{2029}\u{202f}\u{205f}\u{85}",
    ] {
        assert_eq!(normal(text), text.trim());
    }
}

#[test]
fn normalizing_twice_gives_what_normalizing_once_gives() {
    for text in ["", "  a\\ b  ", "\\\\x", " Card \\(A\\) ", "a\\ \\ b", "\\ a \\", "x\\"] {
        let once = normal(text);
        assert_eq!(normal(&once), once);
        assert!(!once.contains('\\'));
        assert_eq!(once.trim(), once);
    }
}
