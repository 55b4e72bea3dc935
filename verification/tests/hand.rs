use yugioh_combo_test::hand::Hand;

fn hand_cards(names: &[&str]) -> Vec<String> {
    names.iter().map(|name| name.to_string()).collect()
}

fn drain(hand: &mut Hand) -> Vec<String> {
    let mut seen = Vec::new();
    while let Some(card) = hand.next() {
        seen.push(card.clone());
    }
    seen
}

#[test]
fn len_counts_the_base_hand_alone_without_a_pool() {
    let main = hand_cards(&["A", "B", "C", "D", "E"]);
    let pool = hand_cards(&[]);
    let hand = Hand::new(&main, &pool);
    assert_eq!(hand.len(), 5);
}

#[test]
fn len_counts_one_more_card_with_a_pool() {
    let main = hand_cards(&["A", "B", "C", "D", "E"]);
    let pool = hand_cards(&["P", "Q", "R", "S", "T", "U"]);
    let hand = Hand::new(&main, &pool);
    assert_eq!(hand.len(), 6);
}

#[test]
fn len_of_an_empty_hand_is_zero() {
    let main = hand_cards(&[]);
    let pool = hand_cards(&[]);
    let hand = Hand::new(&main, &pool);
    assert_eq!(hand.len(), 0);
}

#[test]
fn next_yields_the_base_hand_in_order_and_then_nothing() {
    let main = hand_cards(&["A", "B", "C"]);
    let pool = hand_cards(&[]);
    let mut hand = Hand::new(&main, &pool);
    assert_eq!(hand.next().map(|c| c.as_str()), Some("A"));
    assert_eq!(hand.next().map(|c| c.as_str()), Some("B"));
    assert_eq!(hand.next().map(|c| c.as_str()), Some("C"));
    assert_eq!(hand.next(), None);
    assert_eq!(hand.next(), None);
}

#[test]
fn next_yields_the_first_pool_card_after_the_base_hand() {
    let main = hand_cards(&["A", "B"]);
    let pool = hand_cards(&["P", "Q"]);
    let mut hand = Hand::new(&main, &pool);
    assert_eq!(drain(&mut hand), hand_cards(&["A", "B", "P"]));
    assert_eq!(hand.next(), None);
}

#[test]
fn next_hand_steps_through_the_pool_one_card_at_a_time() {
    let main = hand_cards(&["A", "B"]);
    let pool = hand_cards(&["P", "Q", "R"]);
    let mut hand = Hand::new(&main, &pool);
    assert_eq!(drain(&mut hand), hand_cards(&["A", "B", "P"]));
    assert!(hand.next_hand());
    assert_eq!(drain(&mut hand), hand_cards(&["A", "B", "Q"]));
    assert!(hand.next_hand());
    assert_eq!(drain(&mut hand), hand_cards(&["A", "B", "R"]));
    assert!(!hand.next_hand());
    assert_eq!(drain(&mut hand), hand_cards(&["A", "B"]));
    assert!(!hand.next_hand());
}

#[test]
fn next_hand_without_a_pool_reports_no_further_variant() {
    let main = hand_cards(&["A"]);
    let pool = hand_cards(&[]);
    let mut hand = Hand::new(&main, &pool);
    assert!(!hand.next_hand());
    assert_eq!(drain(&mut hand), hand_cards(&["A"]));
}

#[test]
fn next_hand_past_the_pool_keeps_reporting_no_further_variant() {
    let main = hand_cards(&["A"]);
    let pool = hand_cards(&["P"]);
    let mut hand = Hand::new(&main, &pool);
    for _ in 0..5 {
        assert!(!hand.next_hand());
        assert_eq!(hand.len(), 2);
        assert_eq!(drain(&mut hand), hand_cards(&["A"]));
    }
}

#[test]
fn next_hand_rewinds_a_cursor_that_has_moved() {
    let main = hand_cards(&["A", "B"]);
    let pool = hand_cards(&["P", "Q"]);
    let mut hand = Hand::new(&main, &pool);
    assert_eq!(hand.next().map(|c| c.as_str()), Some("A"));
    assert!(hand.next_hand());
    assert_eq!(drain(&mut hand), hand_cards(&["A", "B", "Q"]));
}

#[test]
fn a_copy_of_a_hand_walks_on_its_own() {
    let main = hand_cards(&["A", "B"]);
    let pool = hand_cards(&[]);
    let mut hand = Hand::new(&main, &pool);
    assert_eq!(hand.next().map(|c| c.as_str()), Some("A"));
    let mut copy = hand;
    assert_eq!(drain(&mut copy), hand_cards(&["B"]));
    assert_eq!(drain(&mut hand), hand_cards(&["B"]));
}
