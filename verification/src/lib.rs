//! Monte-Carlo estimation of how often an opening hand drawn from a card deck
//! satisfies one of a set of combo rules written in a small boolean query
//! language over card names.
//!
//! A deck list is expanded into a deck ([`decklist`]); a combo file is read
//! into parse trees ([`grammar`], [`parser`]) and from these into expression
//! trees with normalized literals ([`normalize`], [`tree`]). The engine
//! ([`engine`]) then shuffles the deck, draws a hand ([`hand`]) and evaluates
//! the rules against it ([`eval`]), trial after trial, and counts the
//! successes.

pub mod decklist;
pub mod engine;
pub mod eval;
pub mod grammar;
pub mod hand;
pub mod normalize;
pub mod parsed;
pub mod parser;
pub mod text;
pub mod tree;

pub use crate::decklist::convert_decklist_to_vec;
pub use crate::engine::{any_rule_matches, run_trials, trial_succeeds, Tally, HAND_SIZE, POOL_SIZE};
pub use crate::eval::match_rule;
pub use crate::grammar::{Expected, Rule};
pub use crate::hand::Hand;
pub use crate::normalize::normalize_string;
pub use crate::parser::{parse_file, ParseError, ParseNode};
pub use crate::tree::{create_tree, Comparator, RuleTree, Target};
