use yugioh_combo_test::grammar::{Expected, Rule};
use yugioh_combo_test::parser::{parse_file, ParseError, ParseNode};

fn token(rule: Rule, text: &str) -> ParseNode {
    ParseNode { rule, text: text.to_string(), inner: Vec::new() }
}

fn tree(rule: Rule, inner: Vec<ParseNode>) -> ParseNode {
    ParseNode { rule, text: String::new(), inner }
}

fn ident(text: &str) -> ParseNode {
    token(Rule::Ident, text)
}

fn counted(literal: ParseNode, comparison: Rule, number: &str) -> ParseNode {
    tree(Rule::NumIdent, vec![literal, tree(comparison, vec![token(Rule::Number, number)])])
}

fn fault(position: usize, expected: Expected) -> Result<Vec<ParseNode>, ParseError> {
    Err(ParseError { position, expected })
}

#[test]
fn an_empty_file_has_no_rules() {
    assert_eq!(parse_file(""), Ok(vec![]));
    assert_eq!(parse_file("  \n\t\r\n \n"), Ok(vec![]));
}

#[test]
fn a_name_of_several_words_is_one_literal() {
    assert_eq!(
        parse_file("Pot of Prosperity"),
        Ok(vec![tree(Rule::Exp, vec![ident("Pot of Prosperity")])])
    );
}

#[test]
fn blanks_around_a_name_are_not_part_of_it() {
    assert_eq!(
        parse_file("   Blue-Eyes   White Dragon \t"),
        Ok(vec![tree(Rule::Exp, vec![ident("Blue-Eyes   White Dragon")])])
    );
}

#[test]
fn connectives_wrap_the_term_that_follows_them() {
    assert_eq!(
        parse_file("A AND B OR C"),
        Ok(vec![tree(
            Rule::Exp,
            vec![
                ident("A"),
                tree(Rule::And, vec![ident("B")]),
                tree(Rule::Or, vec![ident("C")]),
            ]
        )])
    );
}

#[test]
fn terms_keep_their_order() {
    let parsed = parse_file("E OR D OR C OR B OR A").unwrap();
    let texts: Vec<String> = parsed[0]
        .inner
        .iter()
        .map(|term| match term.inner.first() {
            Some(joined) => joined.text.clone(),
            None => term.text.clone(),
        })
        .collect();
    assert_eq!(texts, vec!["E", "D", "C", "B", "A"]);
}

#[test]
fn not_wraps_the_term_that_follows_it() {
    assert_eq!(
        parse_file("NOT A"),
        Ok(vec![tree(Rule::Exp, vec![tree(Rule::Not, vec![ident("A")])])])
    );
    assert_eq!(
        parse_file("NOT NOT A AND NOT B"),
        Ok(vec![tree(
            Rule::Exp,
            vec![
                tree(Rule::Not, vec![tree(Rule::Not, vec![ident("A")])]),
                tree(Rule::And, vec![tree(Rule::Not, vec![ident("B")])]),
            ]
        )])
    );
}

#[test]
fn a_tilde_marks_a_substring_literal() {
    assert_eq!(
        parse_file("~Blue-Eyes"),
        Ok(vec![tree(Rule::Exp, vec![token(Rule::ContainsIdent, "Blue-Eyes")])])
    );
    assert_eq!(
        parse_file("~ Blue-Eyes"),
        Ok(vec![tree(Rule::Exp, vec![token(Rule::ContainsIdent, "Blue-Eyes")])])
    );
}

#[test]
fn a_comparison_after_a_literal_makes_a_counted_condition() {
    assert_eq!(
        parse_file("Card A = 2"),
        Ok(vec![tree(Rule::Exp, vec![counted(ident("Card A"), Rule::Equal, "2")])])
    );
    assert_eq!(
        parse_file("Card A>10"),
        Ok(vec![tree(Rule::Exp, vec![counted(ident("Card A"), Rule::Greater, "10")])])
    );
    assert_eq!(
        parse_file("~Dragon < 3 AND B"),
        Ok(vec![tree(
            Rule::Exp,
            vec![
                counted(token(Rule::ContainsIdent, "Dragon"), Rule::Less, "3"),
                tree(Rule::And, vec![ident("B")]),
            ]
        )])
    );
}

#[test]
fn the_digits_of_a_number_are_kept_as_written() {
    assert_eq!(
        parse_file("A = 007"),
        Ok(vec![tree(Rule::Exp, vec![counted(ident("A"), Rule::Equal, "007")])])
    );
}

#[test]
fn a_pick_lists_its_count_and_its_options() {
    assert_eq!(
        parse_file("[2: A, B, C]"),
        Ok(vec![tree(
            Rule::Exp,
            vec![tree(
                Rule::PickMulti,
                vec![token(Rule::Number, "2"), ident("A"), ident("B"), ident("C")]
            )]
        )])
    );
    assert_eq!(
        parse_file("[ 1 :Card A,\"Card, B\" ] OR C"),
        Ok(vec![tree(
            Rule::Exp,
            vec![
                tree(
                    Rule::PickMulti,
                    vec![token(Rule::Number, "1"), ident("Card A"), ident("Card, B")]
                ),
                tree(Rule::Or, vec![ident("C")]),
            ]
        )])
    );
}

#[test]
fn parentheses_nest_a_sequence() {
    assert_eq!(
        parse_file("(A OR B) AND C"),
        Ok(vec![tree(
            Rule::Exp,
            vec![
                tree(Rule::Exp, vec![ident("A"), tree(Rule::Or, vec![ident("B")])]),
                tree(Rule::And, vec![ident("C")]),
            ]
        )])
    );
    assert_eq!(
        parse_file("((A))"),
        Ok(vec![tree(
            Rule::Exp,
            vec![tree(Rule::Exp, vec![tree(Rule::Exp, vec![ident("A")])])]
        )])
    );
}

#[test]
fn a_keyword_needs_no_blank_before_a_delimiter() {
    assert_eq!(
        parse_file("A AND(B)OR~C"),
        Ok(vec![tree(
            Rule::Exp,
            vec![
                ident("A"),
                tree(Rule::And, vec![tree(Rule::Exp, vec![ident("B")])]),
                tree(Rule::Or, vec![token(Rule::ContainsIdent, "C")]),
            ]
        )])
    );
}

#[test]
fn a_quoted_name_may_hold_keywords_and_delimiters() {
    assert_eq!(
        parse_file("\"Card NOT Found\" AND \"a (b) [c], d: ~e > f\""),
        Ok(vec![tree(
            Rule::Exp,
            vec![
                ident("Card NOT Found"),
                tree(Rule::And, vec![ident("a (b) [c], d: ~e > f")]),
            ]
        )])
    );
}

#[test]
fn a_quoted_name_keeps_its_blanks_and_may_be_empty() {
    assert_eq!(parse_file("\" A \""), Ok(vec![tree(Rule::Exp, vec![ident(" A ")])]));
    assert_eq!(parse_file("\"\""), Ok(vec![tree(Rule::Exp, vec![ident("")])]));
}

#[test]
fn an_escaped_quote_does_not_end_a_quoted_name() {
    assert_eq!(
        parse_file("\"say \\\"hi\\\"\""),
        Ok(vec![tree(Rule::Exp, vec![ident("say \\\"hi\\\"")])])
    );
}

#[test]
fn an_escape_makes_any_character_part_of_a_word() {
    assert_eq!(
        parse_file("Card\\(1\\) AND x\\ y"),
        Ok(vec![tree(
            Rule::Exp,
            vec![ident("Card\\(1\\)"), tree(Rule::And, vec![ident("x\\ y")])]
        )])
    );
}

#[test]
fn keywords_are_whole_words_only() {
    assert_eq!(
        parse_file("SANDY ORB"),
        Ok(vec![tree(Rule::Exp, vec![ident("SANDY ORB")])])
    );
    assert_eq!(
        parse_file("ANDROID OR NOTHING"),
        Ok(vec![tree(Rule::Exp, vec![ident("ANDROID"), tree(Rule::Or, vec![ident("NOTHING")])])])
    );
    assert_eq!(parse_file("and"), Ok(vec![tree(Rule::Exp, vec![ident("and")])]));
}

#[test]
fn an_escaped_keyword_is_an_ordinary_word() {
    assert_eq!(
        parse_file("Card \\AND More"),
        Ok(vec![tree(Rule::Exp, vec![ident("Card \\AND More")])])
    );
}

#[test]
fn each_line_is_a_rule() {
    assert_eq!(
        parse_file("A\n\n  B AND C  \r\n~D\n"),
        Ok(vec![
            tree(Rule::Exp, vec![ident("A")]),
            tree(Rule::Exp, vec![ident("B"), tree(Rule::And, vec![ident("C")])]),
            tree(Rule::Exp, vec![token(Rule::ContainsIdent, "D")]),
        ])
    );
}

#[test]
fn a_missing_term_is_reported_where_it_should_start() {
    assert_eq!(parse_file("AND A"), fault(0, Expected::Term));
    assert_eq!(parse_file("OR"), fault(0, Expected::Term));
    assert_eq!(parse_file("A AND"), fault(5, Expected::Term));
    assert_eq!(parse_file("A AND   "), fault(8, Expected::Term));
    assert_eq!(parse_file("A OR OR B"), fault(5, Expected::Term));
    assert_eq!(parse_file(")"), fault(0, Expected::Term));
    assert_eq!(parse_file("NOT"), fault(3, Expected::Term));
    assert_eq!(parse_file("()"), fault(1, Expected::Term));
    assert_eq!(parse_file("> 2"), fault(0, Expected::Term));
    assert_eq!(parse_file("A AND \\"), fault(6, Expected::Term));
}

#[test]
fn a_term_does_not_run_over_the_end_of_its_line() {
    assert_eq!(parse_file("A AND\nB"), fault(5, Expected::Term));
}

#[test]
fn a_missing_name_is_reported_where_it_should_start() {
    assert_eq!(parse_file("[2: ]"), fault(4, Expected::Name));
    assert_eq!(parse_file("[2: A, ]"), fault(7, Expected::Name));
    assert_eq!(parse_file("[2: A, AND]"), fault(7, Expected::Name));
    assert_eq!(parse_file("~ > 1"), fault(2, Expected::Name));
    assert_eq!(parse_file("~"), fault(1, Expected::Name));
    assert_eq!(parse_file("~NOT"), fault(1, Expected::Name));
}

#[test]
fn a_missing_integer_is_reported_where_it_should_start() {
    assert_eq!(parse_file("A > x"), fault(4, Expected::Integer));
    assert_eq!(parse_file("A ="), fault(3, Expected::Integer));
    assert_eq!(parse_file("[x: A]"), fault(1, Expected::Integer));
    assert_eq!(parse_file("A > -1"), fault(4, Expected::Integer));
}

#[test]
fn an_integer_too_large_is_reported_at_its_first_digit() {
    assert_eq!(
        parse_file("A > 99999999999999999999999999"),
        fault(4, Expected::IntegerThatFits)
    );
    let past = format!("[{}: A]", usize::MAX as u128 + 1);
    assert_eq!(parse_file(&past), fault(1, Expected::IntegerThatFits));
    let largest = format!("A = {}", usize::MAX);
    assert!(parse_file(&largest).is_ok());
}

#[test]
fn a_missing_colon_is_reported() {
    assert_eq!(parse_file("[2 A]"), fault(3, Expected::Colon));
    assert_eq!(parse_file("[2"), fault(2, Expected::Colon));
}

#[test]
fn an_unfinished_pick_is_reported() {
    assert_eq!(parse_file("[2: A"), fault(5, Expected::CommaOrBracket));
    assert_eq!(parse_file("[2: A ~B]"), fault(6, Expected::CommaOrBracket));
    assert_eq!(parse_file("[2: A\n, B]"), fault(5, Expected::CommaOrBracket));
}

#[test]
fn a_missing_closing_parenthesis_is_reported() {
    assert_eq!(parse_file("(A"), fault(2, Expected::ClosingParen));
    assert_eq!(parse_file("(A ~B)"), fault(3, Expected::ClosingParen));
    assert_eq!(parse_file("((A) AND B"), fault(10, Expected::ClosingParen));
}

#[test]
fn a_missing_closing_quote_is_reported_where_the_line_ends() {
    assert_eq!(parse_file("\"abc"), fault(4, Expected::ClosingQuote));
    assert_eq!(parse_file("\"ab\ncd\""), fault(3, Expected::ClosingQuote));
    assert_eq!(parse_file("A AND \"b\\\""), fault(10, Expected::ClosingQuote));
}

#[test]
fn text_after_a_rule_on_its_line_is_reported() {
    assert_eq!(parse_file("A )"), fault(2, Expected::LineEnd));
    assert_eq!(parse_file("A ~B"), fault(2, Expected::LineEnd));
    assert_eq!(parse_file("A = 2 3"), fault(6, Expected::LineEnd));
    assert_eq!(parse_file("\"A\" \"B\""), fault(4, Expected::LineEnd));
    assert_eq!(parse_file("[1: A] B"), fault(7, Expected::LineEnd));
}

#[test]
fn the_first_fault_of_a_file_is_the_one_reported() {
    assert_eq!(parse_file("A\nB AND\nC )"), fault(7, Expected::Term));
}

#[test]
fn positions_count_characters() {
    assert_eq!(parse_file("é AND"), fault(5, Expected::Term));
    assert_eq!(parse_file("日本語 )"), fault(4, Expected::LineEnd));
}
