use yugioh_combo_test::decklist::convert_decklist_to_vec;

fn deck(list: &str) -> Vec<String> {
    convert_decklist_to_vec(list.to_string())
}

fn names(list: &[&str]) -> Vec<String> {
    list.iter().map(|name| name.to_string()).collect()
}

#[test]
fn each_line_gives_as_many_copies_as_its_last_digit_says() {
    assert_eq!(
        deck("Card A 3\nCard B 1\nCard C 2\n"),
        names(&["Card A", "Card A", "Card A", "Card B", "Card C", "Card C"])
    );
}

#[test]
fn the_last_line_needs_no_line_feed() {
    assert_eq!(deck("Card A 2"), names(&["Card A", "Card A"]));
}

#[test]
fn an_empty_list_gives_an_empty_deck() {
    assert_eq!(deck(""), names(&[]));
    assert_eq!(deck("\n\n"), names(&[]));
}

#[test]
fn lines_without_a_trailing_digit_are_skipped() {
    assert_eq!(
        deck("Main deck:\nCard A 1\n\n# comment\nCard B 2 \nCard C 1"),
        names(&["Card A", "Card C"])
    );
}

#[test]
fn the_name_is_the_rest_of_the_line_trimmed() {
    assert_eq!(deck("  Card A   2"), names(&["Card A", "Card A"]));
    assert_eq!(deck("CardA3"), names(&["CardA", "CardA", "CardA"]));
    assert_eq!(deck("Card A x2"), names(&["Card A x", "Card A x"]));
}

#[test]
fn only_the_last_digit_counts() {
    assert_eq!(deck("Card 12"), names(&["Card 1", "Card 1"]));
    assert_eq!(deck("7 1"), names(&["7"]));
}

#[test]
fn a_trailing_zero_gives_no_copies() {
    assert_eq!(deck("Card A 0\nCard B 1"), names(&["Card B"]));
}

#[test]
fn nine_is_the_largest_count() {
    assert_eq!(deck("Card A 9").len(), 9);
}

#[test]
fn a_line_of_a_single_digit_names_the_empty_card() {
    assert_eq!(deck("3"), names(&["", "", ""]));
}

#[test]
fn a_carriage_return_before_the_line_feed_belongs_to_the_line_ending() {
    assert_eq!(deck("Card A 2\r\nCard B 1\r\n"), names(&["Card A", "Card A", "Card B"]));
}

#[test]
fn a_carriage_return_at_the_very_end_is_part_of_the_last_line() {
    assert_eq!(deck("Card A 2\r"), names(&[]));
}

#[test]
fn digits_beyond_ascii_are_no_counts() {
    assert_eq!(deck("Card A ٣"), names(&[]));
}

#[test]
fn the_deck_has_as_many_cards_as_the_counts_add_up_to() {
    let mut list = String::new();
    for i in 0..20 {
        list.push_str(&format!("Card {} 3\n", i));
    }
    let cards = deck(&list);
    assert_eq!(cards.len(), 60);
    assert_eq!(cards[0], "Card 0");
    assert_eq!(cards[59], "Card 19");
}

#[test]
fn lines_are_those_that_the_standard_library_sees() {
    let list = "Card A 1\r\nCard B 1\n\nCard C 1\rCard D 1\nCard E 1\r";
    let expected: Vec<String> = list
        .lines()
        .filter(|line| line.chars().last().map_or(false, |c| c.is_ascii_digit()))
        .map(|line| {
            let mut name: Vec<char> = line.chars().collect();
            name.pop();
            name.into_iter().collect::<String>().trim().to_string()
        })
        .collect();
    assert_eq!(deck(list), expected);
}
