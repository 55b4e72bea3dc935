use yugioh_combo_test::engine::{
    any_rule_matches, run_trials, trial_succeeds, Tally, HAND_SIZE, POOL_SIZE,
};
use yugioh_combo_test::hand::Hand;
use yugioh_combo_test::tree::{Comparator, RuleTree, Target};

const POT: &str = "Pot of Prosperity";

fn deck_of(names: &[&str]) -> Vec<String> {
    names.iter().map(|name| name.to_string()).collect()
}

fn numbered(count: usize) -> Vec<String> {
    (0..count).map(|i| format!("Card {}", i)).collect()
}

fn named(name: &str) -> RuleTree {
    RuleTree::Ident(name.to_string())
}

fn sorted(mut deck: Vec<String>) -> Vec<String> {
    deck.sort();
    deck
}

fn always() -> RuleTree {
    RuleTree::Not(Box::new(RuleTree::Unknown))
}

#[test]
fn the_hand_has_five_cards_and_the_pool_six() {
    assert_eq!(HAND_SIZE, 5);
    assert_eq!(POOL_SIZE, 6);
}

#[test]
fn a_hand_succeeds_if_any_rule_holds() {
    let main = deck_of(&["A", "B"]);
    let pool = deck_of(&[]);
    let hand = Hand::new(&main, &pool);
    assert!(any_rule_matches(hand, &vec![named("Z"), named("B")]));
    assert!(any_rule_matches(hand, &vec![named("A"), named("Z")]));
    assert!(!any_rule_matches(hand, &vec![named("Y"), named("Z")]));
}

#[test]
fn no_rules_means_no_success() {
    let main = deck_of(&["A", "B"]);
    let pool = deck_of(&[]);
    assert!(!any_rule_matches(Hand::new(&main, &pool), &vec![]));
}

#[test]
fn a_trial_reads_the_first_five_cards() {
    let deck = deck_of(&["A", "B", "C", "D", "E", "F", "G"]);
    assert!(trial_succeeds(&deck, &vec![named("A")], true));
    assert!(trial_succeeds(&deck, &vec![named("E")], true));
    assert!(!trial_succeeds(&deck, &vec![named("F")], true));
    assert!(!trial_succeeds(&deck, &vec![named("G")], false));
}

#[test]
fn a_trial_on_a_deck_of_five_cards_reads_them_all() {
    let deck = deck_of(&["A", "B", "C", "D", "E"]);
    assert!(trial_succeeds(&deck, &vec![named("E")], true));
    assert!(!trial_succeeds(&deck, &vec![named("F")], true));
}

#[test]
fn a_hand_without_the_pot_never_reads_the_pool() {
    let deck = deck_of(&["A", "B", "C", "D", "E", "X", "X", "X", "X", "X", "X"]);
    for use_prosp in [false, true] {
        assert!(!trial_succeeds(&deck, &vec![named("X")], use_prosp));
        assert!(trial_succeeds(&deck, &vec![named("C")], use_prosp));
    }
}

#[test]
fn the_pot_beyond_the_hand_does_not_open_the_pool() {
    let deck = deck_of(&["A", "B", "C", "D", "E", POT, "X", "X", "X", "X", "X"]);
    assert!(!trial_succeeds(&deck, &vec![named("X")], true));
    assert!(!trial_succeeds(&deck, &vec![named(POT)], true));
}

#[test]
fn a_hand_with_the_pot_tries_each_pool_card() {
    for place in 0..6 {
        let mut deck = deck_of(&["A", POT, "C", "D", "E", "F", "G", "H", "I", "J", "K", "L"]);
        deck[5 + place] = "X".to_string();
        assert!(trial_succeeds(&deck, &vec![named("X")], true));
    }
}

#[test]
fn the_pool_ends_after_six_cards() {
    let deck = deck_of(&["A", POT, "C", "D", "E", "F", "G", "H", "I", "J", "K", "X"]);
    assert!(!trial_succeeds(&deck, &vec![named("X")], true));
}

#[test]
fn a_hand_with_the_pot_and_handling_off_reads_the_hand_alone() {
    let deck = deck_of(&["A", POT, "C", "D", "E", "X", "X", "X", "X", "X", "X"]);
    assert!(!trial_succeeds(&deck, &vec![named("X")], false));
    assert!(trial_succeeds(&deck, &vec![named(POT)], false));
    let short = deck_of(&["A", POT, "C", "D", "E"]);
    assert!(trial_succeeds(&short, &vec![named("A")], false));
    assert!(!trial_succeeds(&short, &vec![named("X")], false));
}

#[test]
fn pool_cards_are_tried_one_at_a_time() {
    let deck = deck_of(&["A", POT, "C", "D", "E", "X", "Y", "H", "I", "J", "K"]);
    let both = RuleTree::Exp(vec![named("X"), RuleTree::And(Box::new(named("Y")))]);
    assert!(!trial_succeeds(&deck, &vec![both], true));
    let either = vec![named("X"), named("Y")];
    assert!(trial_succeeds(&deck, &either, true));
    let with_hand = RuleTree::Exp(vec![named("A"), RuleTree::And(Box::new(named("Y")))]);
    assert!(trial_succeeds(&deck, &vec![with_hand], true));
}

#[test]
fn with_the_pool_every_hand_tried_has_six_cards() {
    let deck = deck_of(&["A", POT, "C", "D", "E", "F", "G", "H", "I", "J", "K"]);
    let five = RuleTree::NumIdent(Target::ContainsIdent(String::new()), Comparator::Equal, 5);
    let six = RuleTree::NumIdent(Target::ContainsIdent(String::new()), Comparator::Equal, 6);
    assert!(!trial_succeeds(&deck, &vec![five], true));
    assert!(trial_succeeds(&deck, &vec![six], true));
}

#[test]
fn the_pot_is_named_exactly() {
    let deck = deck_of(&["A", "pot of prosperity", "Pot of Prosperity 2", "D", "E", "X"]);
    assert!(!trial_succeeds(&deck, &vec![named("X")], true));
}

#[test]
fn a_run_of_no_trials_has_no_success_and_no_rate() {
    let mut deck = numbered(40);
    let tally = run_trials(&mut deck, &vec![always()], true, 0, 7);
    assert_eq!(tally.trials(), 0);
    assert_eq!(tally.successes(), 0);
    assert_eq!(tally.per_million(), None);
    assert_eq!(deck, numbered(40));
}

#[test]
fn a_rule_that_always_holds_succeeds_in_every_trial() {
    let mut deck = numbered(40);
    let tally = run_trials(&mut deck, &vec![always()], true, 500, 7);
    assert_eq!(tally.trials(), 500);
    assert_eq!(tally.successes(), 500);
    assert_eq!(tally.per_million(), Some(1_000_000));
}

#[test]
fn a_rule_that_never_holds_succeeds_in_no_trial() {
    let mut deck = numbered(40);
    let tally = run_trials(&mut deck, &vec![RuleTree::Unknown], true, 500, 7);
    assert_eq!(tally.trials(), 500);
    assert_eq!(tally.successes(), 0);
    assert_eq!(tally.per_million(), Some(0));
}

#[test]
fn the_rate_is_the_share_of_successes_in_a_million_rounded_down() {
    assert_eq!(Tally::new(1, 3).unwrap().per_million(), Some(333_333));
    assert_eq!(Tally::new(2, 3).unwrap().per_million(), Some(666_666));
    assert_eq!(Tally::new(1, 4).unwrap().per_million(), Some(250_000));
    assert_eq!(Tally::new(0, 5).unwrap().per_million(), Some(0));
    assert_eq!(Tally::new(5, 5).unwrap().per_million(), Some(1_000_000));
    assert_eq!(Tally::new(u64::MAX, u64::MAX).unwrap().per_million(), Some(1_000_000));
    assert_eq!(Tally::new(1, u64::MAX).unwrap().per_million(), Some(0));
    assert_eq!(Tally::new(0, 0).unwrap().per_million(), None);
}

#[test]
fn a_tally_cannot_hold_more_successes_than_trials() {
    assert_eq!(Tally::new(6, 5), None);
    let tally = Tally::new(2, 5).unwrap();
    assert_eq!(tally.successes(), 2);
    assert_eq!(tally.trials(), 5);
}

#[test]
fn the_same_seed_gives_the_same_run() {
    let rules = vec![named("Card 3"), named("Card 17")];
    let mut first = numbered(40);
    let mut second = numbered(40);
    let one = run_trials(&mut first, &rules, true, 2_000, 12345);
    let two = run_trials(&mut second, &rules, true, 2_000, 12345);
    assert_eq!(one, two);
    assert_eq!(first, second);
    assert!(one.successes() > 0);
    assert!(one.successes() < 2_000);
}

#[test]
fn a_run_shuffles_the_deck() {
    let mut deck = numbered(60);
    run_trials(&mut deck, &vec![always()], true, 1, 99);
    assert_ne!(deck, numbered(60));
    let mut other = numbered(60);
    run_trials(&mut other, &vec![always()], true, 1, 100);
    assert_ne!(other, deck);
}

#[test]
fn a_run_shuffles_as_one_seeded_generator_does() {
    let mut deck = numbered(60);
    run_trials(&mut deck, &vec![always()], true, 25, 424242);
    let mut expected = numbered(60);
    let mut rng = fastrand::Rng::with_seed(424242);
    for _ in 0..25 {
        rng.shuffle(&mut expected);
    }
    assert_eq!(deck, expected);
}

#[test]
fn each_trial_shuffles_anew() {
    let mut once = numbered(60);
    run_trials(&mut once, &vec![always()], true, 1, 5);
    let mut twice = numbered(60);
    run_trials(&mut twice, &vec![always()], true, 2, 5);
    assert_ne!(once, twice);
}

#[test]
fn a_run_leaves_the_deck_with_the_cards_it_had() {
    let mut list = vec![POT.to_string(); 3];
    for i in 0..19 {
        for _ in 0..3 {
            list.push(format!("Card {}", i));
        }
    }
    let mut deck = list.clone();
    run_trials(&mut deck, &vec![named("Card 1")], true, 1_000, 2024);
    assert_eq!(deck.len(), 60);
    assert_eq!(sorted(deck), sorted(list));
}

#[test]
fn a_card_held_by_every_hand_is_found_in_every_trial() {
    let mut deck = deck_of(&["A", "A", "A", "A", "A", "A"]);
    let tally = run_trials(&mut deck, &vec![named("A")], false, 300, 1);
    assert_eq!(tally.successes(), 300);
}

#[test]
fn the_rate_of_drawing_one_of_three_copies_nears_its_closed_form() {
    let mut deck = vec![POT.to_string(); 3];
    for i in 0..57 {
        deck.push(format!("Filler {}", i));
    }
    let trials = 200_000;
    let tally = run_trials(&mut deck, &vec![named(POT)], true, trials, 0x5eed);
    let mut none = 1.0f64;
    for i in 0..5 {
        none *= (57 - i) as f64 / (60 - i) as f64;
    }
    let expected = 1.0 - none;
    let observed = tally.successes() as f64 / tally.trials() as f64;
    assert!((observed - expected).abs() < 0.01, "observed {} expected {}", observed, expected);
    let shown = tally.per_million().unwrap() as f64 / 1_000_000.0;
    assert!((shown - observed).abs() < 0.000_001);
}

#[test]
fn the_pool_raises_the_rate_of_finding_a_card() {
    let mut deck = vec![POT.to_string(); 3];
    deck.push("Target".to_string());
    for i in 0..36 {
        deck.push(format!("Filler {}", i));
    }
    let rules = vec![named("Target")];
    let mut plain_deck = deck.clone();
    let with_pool = run_trials(&mut deck, &rules, true, 50_000, 11);
    let without = run_trials(&mut plain_deck, &rules, false, 50_000, 11);
    let plain = 5.0 / 40.0;
    let observed = without.successes() as f64 / 50_000.0;
    assert!((observed - plain).abs() < 0.01, "observed {}", observed);
    assert!(with_pool.successes() > without.successes());
}

#[test]
fn the_count_is_that_of_the_hands_a_seeded_generator_deals() {
    let mut list = vec![POT.to_string(); 3];
    list.push("Target".to_string());
    for i in 0..36 {
        list.push(format!("Filler {}", i));
    }
    for use_prosp in [false, true] {
        let mut deck = list.clone();
        let tally = run_trials(&mut deck, &vec![named("Target")], use_prosp, 3_000, 77);
        let mut dealt = list.clone();
        let mut rng = fastrand::Rng::with_seed(77);
        let mut expected = 0;
        for _ in 0..3_000 {
            rng.shuffle(&mut dealt);
            let reach = if use_prosp && dealt[..5].iter().any(|card| card == POT) { 11 } else { 5 };
            if dealt[..reach].iter().any(|card| card == "Target") {
                expected += 1;
            }
        }
        assert_eq!(tally.successes(), expected);
        assert_eq!(deck, dealt);
    }
}

#[test]
fn a_run_of_no_trials_takes_any_deck() {
    for use_prosp in [false, true] {
        let mut empty: Vec<String> = Vec::new();
        let tally = run_trials(&mut empty, &vec![always()], use_prosp, 0, 3);
        assert_eq!(tally.trials(), 0);
        assert_eq!(tally.successes(), 0);
        assert_eq!(tally.per_million(), None);
        assert!(empty.is_empty());
        let mut short = deck_of(&[POT, "A"]);
        let tally = run_trials(&mut short, &vec![named(POT)], use_prosp, 0, 3);
        assert_eq!(tally.successes(), 0);
        assert_eq!(tally.per_million(), None);
        assert_eq!(short, deck_of(&[POT, "A"]));
    }
}

#[test]
fn the_rule_that_names_the_pot_succeeds_where_the_base_hand_holds_it() {
    let with_pot = deck_of(&["A", "B", POT, "D", "E", "F", "G", "H", "I", "J", "K"]);
    let pot_in_pool = deck_of(&["A", "B", "C", "D", "E", POT, POT, POT, "I", "J", "K"]);
    for use_prosp in [false, true] {
        assert!(trial_succeeds(&with_pot, &vec![named(POT)], use_prosp));
        assert!(!trial_succeeds(&pot_in_pool, &vec![named(POT)], use_prosp));
    }
}
