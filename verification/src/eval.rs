//! What it means for a hand to satisfy a rule, and the evaluator that decides it.

use vstd::multiset::Multiset;
use vstd::prelude::*;
use crate::grammar::{leaf, Rule};
use crate::hand::Hand;
use crate::normalize::normalized;
use crate::text::{contains_str, is_substring, names};
use crate::tree::{tree_of, Comparator, Expr, RuleTree, Target, TargetModel};

verus! {

/// Whether a card of this name is counted for the target.
pub open spec fn target_matches(target: TargetModel, card: Seq<char>) -> bool {
    match target {
        TargetModel::Ident(name) => card == name,
        TargetModel::ContainsIdent(part) => is_substring(part, card),
    }
}

/// The number of cards in the hand that the target counts.
pub open spec fn occurrences(hand: Seq<Seq<char>>, target: TargetModel) -> nat {
    hand.filter(|card: Seq<char>| target_matches(target, card)).len()
}

/// The comparison that a comparator stands for.
pub open spec fn compares(comparator: Comparator, found: nat, threshold: nat) -> bool {
    match comparator {
        Comparator::Greater => found > threshold,
        Comparator::Less => found < threshold,
        Comparator::Equal => found == threshold,
    }
}

/// The first position at or after `from` that is not in `used` and holds a
/// card named `name`.
pub open spec fn first_free(
    hand: Seq<Seq<char>>,
    used: Set<int>,
    name: Seq<char>,
    from: int,
) -> Option<int>
    decreases hand.len() - from,
{
    if from < 0 || from >= hand.len() {
        None
    } else if !used.contains(from) && hand[from] == name {
        Some(from)
    } else {
        first_free(hand, used, name, from + 1)
    }
}

/// The number of options that find a card when each option in turn, in the
/// order given, takes the first card of its name that no earlier option took.
/// `used` holds the positions already taken.
pub open spec fn greedy_hits(options: Seq<Seq<char>>, hand: Seq<Seq<char>>, used: Set<int>) -> nat
    decreases options.len(),
{
    if options.len() == 0 {
        0
    } else {
        match first_free(hand, used, options[0], 0) {
            Some(at) => 1 + greedy_hits(options.drop_first(), hand, used.insert(at)),
            None => greedy_hits(options.drop_first(), hand, used),
        }
    }
}

/// Whether the hand satisfies the expression.
pub open spec fn holds(expr: Expr, hand: Seq<Seq<char>>) -> bool
    decreases expr,
{
    match expr {
        Expr::Ident(name) => hand.contains(name),
        Expr::ContainsIdent(part) => exists|i: int|
            0 <= i < hand.len() && is_substring(part, #[trigger] hand[i]),
        Expr::NumIdent(target, comparator, threshold) => compares(
            comparator,
            occurrences(hand, target),
            threshold,
        ),
        Expr::Not(child) => !holds(*child, hand),
        Expr::And(child) => holds(*child, hand),
        Expr::Or(child) => holds(*child, hand),
        Expr::Exp(terms) => sequence_value(terms, hand),
        Expr::PickMulti(count, options) => greedy_hits(options, hand, Set::empty()) >= count,
        Expr::Unknown => false,
    }
}

/// The value of a sequence of terms, read from left to right starting from
/// `true`: a term under `AND` or `OR` combines with the value so far, and
/// any other term replaces it.
pub open spec fn sequence_value(terms: Seq<Expr>, hand: Seq<Seq<char>>) -> bool
    decreases terms,
{
    if terms.len() == 0 {
        true
    } else {
        let so_far = sequence_value(terms.drop_last(), hand);
        match terms.last() {
            Expr::And(term) => so_far && holds(*term, hand),
            Expr::Or(term) => so_far || holds(*term, hand),
            term => holds(term, hand),
        }
    }
}

/// An exact-match literal holds exactly where some card of the hand has its
/// name, character for character.
pub proof fn lemma_ident_means_card_present(name: Seq<char>, hand: Seq<Seq<char>>)
    ensures
        holds(Expr::Ident(name), hand) <==> exists|i: int| 0 <= i < hand.len() && hand[i] == name,
{
}

/// A substring literal holds exactly where the name of some card of the hand
/// contains its text.
pub proof fn lemma_contains_means_part_present(part: Seq<char>, hand: Seq<Seq<char>>)
    ensures
        holds(Expr::ContainsIdent(part), hand) <==> exists|i: int|
            0 <= i < hand.len() && is_substring(part, #[trigger] hand[i]),
{
}

/// A literal read from a file is matched in its normalized form: the hand
/// satisfies an exact-match literal written as `raw` exactly where it holds a
/// card whose name is `raw` normalized, and a substring literal exactly where
/// it holds a card whose name contains `raw` normalized.
pub proof fn lemma_literal_matches_normalized(raw: Seq<char>, hand: Seq<Seq<char>>)
    ensures
        holds(tree_of(leaf(Rule::Ident, raw)), hand) <==> hand.contains(normalized(raw)),
        holds(tree_of(leaf(Rule::ContainsIdent, raw)), hand) <==> exists|i: int|
            0 <= i < hand.len() && is_substring(normalized(raw), #[trigger] hand[i]),
{
}

/// For an exact-match target, the cards counted are the copies of the name
/// in the hand.
pub proof fn lemma_exact_occurrences_are_copies(hand: Seq<Seq<char>>, name: Seq<char>)
    ensures
        occurrences(hand, TargetModel::Ident(name)) == hand.to_multiset().count(name),
    decreases hand.len(),
{
    broadcast use vstd::seq_lib::to_multiset_build;

    reveal(Seq::filter);
    if hand.len() == 0 {
        hand.to_multiset_ensures();
        assert(!hand.contains(name));
    } else {
        let before = hand.drop_last();
        lemma_exact_occurrences_are_copies(before, name);
        lemma_occurrences_push(before, hand.last(), TargetModel::Ident(name));
        assert(hand =~= before.push(hand.last()));
        assert(hand.to_multiset() =~= before.to_multiset().insert(hand.last()));
    }
}

/// A condition that counts an exact name with `Equal` holds exactly where the
/// hand has that many copies of the name: not with fewer, not with more.
pub proof fn lemma_counted_equal_means_exactly(
    name: Seq<char>,
    threshold: nat,
    hand: Seq<Seq<char>>,
)
    ensures
        holds(Expr::NumIdent(TargetModel::Ident(name), Comparator::Equal, threshold), hand)
            <==> hand.to_multiset().count(name) == threshold,
{
    lemma_exact_occurrences_are_copies(hand, name);
}

/// A sequence whose last term stands under neither `AND` nor `OR` has the
/// value of that term alone, whatever comes before it.
pub proof fn lemma_last_bare_term_decides(terms: Seq<Expr>, hand: Seq<Seq<char>>)
    requires
        terms.len() > 0,
        !(terms.last() is And),
        !(terms.last() is Or),
    ensures
        holds(Expr::Exp(terms), hand) == holds(terms.last(), hand),
{
    assert(holds(Expr::Exp(terms), hand) == sequence_value(terms, hand));
    assert(sequence_value(terms, hand) == holds(terms.last(), hand)) by {
        reveal_with_fuel(sequence_value, 2);
    }
}

/// The cards at the positions that are not in `used`, as a multiset.
pub open spec fn free_cards(hand: Seq<Seq<char>>, used: Set<int>) -> Multiset<Seq<char>>
    decreases hand.len(),
{
    if hand.len() == 0 {
        Multiset::empty()
    } else if used.contains(hand.len() - 1) {
        free_cards(hand.drop_last(), used)
    } else {
        free_cards(hand.drop_last(), used).insert(hand.last())
    }
}

/// What the search for a free card finds is a free position at or after
/// `from` that holds the name; where it finds nothing, there is none.
proof fn lemma_first_free(hand: Seq<Seq<char>>, used: Set<int>, name: Seq<char>, from: int)
    requires
        0 <= from,
    ensures
        match first_free(hand, used, name, from) {
            Some(at) => from <= at < hand.len() && !used.contains(at) && hand[at] == name,
            None => forall|i: int| from <= i < hand.len() ==> used.contains(i) || hand[i] != name,
        },
    decreases hand.len() - from,
{
    if from < hand.len() && !(!used.contains(from) && hand[from] == name) {
        lemma_first_free(hand, used, name, from + 1);
    }
}

/// A name that no free position holds is not among the free cards.
proof fn lemma_free_cards_lack(hand: Seq<Seq<char>>, used: Set<int>, name: Seq<char>)
    requires
        forall|i: int| 0 <= i < hand.len() ==> used.contains(i) || hand[i] != name,
    ensures
        free_cards(hand, used).count(name) == 0,
    decreases hand.len(),
{
    broadcast use vstd::multiset::group_multiset_axioms;

    if hand.len() > 0 {
        lemma_free_cards_lack(hand.drop_last(), used, name);
    }
}

/// Taking a position that the hand does not have changes nothing.
proof fn lemma_free_cards_outside(hand: Seq<Seq<char>>, used: Set<int>, at: int)
    requires
        at >= hand.len(),
    ensures
        free_cards(hand, used.insert(at)) == free_cards(hand, used),
    decreases hand.len(),
{
    if hand.len() > 0 {
        lemma_free_cards_outside(hand.drop_last(), used, at);
    }
}

/// Taking a free position removes one copy of its card from the free cards.
proof fn lemma_free_cards_take(hand: Seq<Seq<char>>, used: Set<int>, at: int)
    requires
        0 <= at < hand.len(),
        !used.contains(at),
    ensures
        free_cards(hand, used).count(hand[at]) >= 1,
        free_cards(hand, used.insert(at)) == free_cards(hand, used).remove(hand[at]),
    decreases hand.len(),
{
    broadcast use vstd::multiset::group_multiset_axioms;

    let before = hand.drop_last();
    if at == hand.len() - 1 {
        lemma_free_cards_outside(before, used, at);
        assert(free_cards(hand, used.insert(at)) =~= free_cards(hand, used).remove(hand[at]));
    } else {
        lemma_free_cards_take(before, used, at);
        assert(before[at] == hand[at]);
        assert(free_cards(hand, used.insert(at)) =~= free_cards(hand, used).remove(hand[at]));
    }
}

/// With no position taken, the free cards are the cards of the hand.
proof fn lemma_free_cards_all(hand: Seq<Seq<char>>)
    ensures
        free_cards(hand, Set::empty()) == hand.to_multiset(),
    decreases hand.len(),
{
    broadcast use vstd::seq_lib::to_multiset_build;

    if hand.len() == 0 {
        hand.to_multiset_ensures();
        assert(hand.to_multiset() =~= Multiset::empty()) by {
            broadcast use vstd::multiset::group_multiset_axioms;

            assert forall|name: Seq<char>| hand.to_multiset().count(name) == 0 by {
                assert(!hand.contains(name));
            }
        }
    } else {
        lemma_free_cards_all(hand.drop_last());
        assert(hand =~= hand.drop_last().push(hand.last()));
    }
}

/// The overlap of two multisets when the first gains an element.
proof fn lemma_overlap_insert(
    one: Multiset<Seq<char>>,
    other: Multiset<Seq<char>>,
    name: Seq<char>,
)
    ensures
        one.insert(name).intersection_with(other).len() == if other.count(name) >= 1 {
            one.intersection_with(other.remove(name)).len() + 1
        } else {
            one.intersection_with(other).len()
        },
{
    broadcast use {vstd::multiset::group_multiset_axioms, vstd::multiset::lemma_intersection_count};

    if other.count(name) >= 1 {
        assert(one.insert(name).intersection_with(other) =~= one.intersection_with(
            other.remove(name),
        ).insert(name));
    } else {
        assert(one.insert(name).intersection_with(other) =~= one.intersection_with(other));
    }
}

/// The options that find a card are as many as the options and the free
/// cards have in common, counted with multiplicity.
proof fn lemma_greedy_hits_overlap(
    options: Seq<Seq<char>>,
    hand: Seq<Seq<char>>,
    used: Set<int>,
)
    ensures
        greedy_hits(options, hand, used) == options.to_multiset().intersection_with(
            free_cards(hand, used),
        ).len(),
    decreases options.len(),
{
    broadcast use {vstd::multiset::group_multiset_axioms, vstd::multiset::lemma_intersection_count};

    if options.len() == 0 {
        options.to_multiset_ensures();
        assert(options.to_multiset().intersection_with(free_cards(hand, used)) =~= Multiset::empty(
        )) by {
            assert forall|name: Seq<char>| options.to_multiset().count(name) == 0 by {
                assert(!options.contains(name));
            }
        }
    } else {
        let first = options[0];
        let rest = options.drop_first();
        assert(rest.insert(0, first) =~= options);
        vstd::seq_lib::to_multiset_insert(rest, 0, first);
        lemma_overlap_insert(rest.to_multiset(), free_cards(hand, used), first);
        lemma_first_free(hand, used, first, 0);
        match first_free(hand, used, first, 0) {
            Some(at) => {
                lemma_free_cards_take(hand, used, at);
                lemma_greedy_hits_overlap(rest, hand, used.insert(at));
            },
            None => {
                lemma_free_cards_lack(hand, used, first);
                lemma_greedy_hits_overlap(rest, hand, used);
            },
        }
    }
}

/// A pick holds exactly where the options and the cards of the hand,
/// both counted with multiplicity, have at least `count` names in common:
/// no card stands for two options, and neither the order of the options nor
/// that of the cards matters.
pub proof fn lemma_pick_means_overlap(count: nat, options: Seq<Seq<char>>, hand: Seq<Seq<char>>)
    ensures
        holds(Expr::PickMulti(count, options), hand) <==> options.to_multiset().intersection_with(
            hand.to_multiset(),
        ).len() >= count,
{
    lemma_greedy_hits_overlap(options, hand, Set::empty());
    lemma_free_cards_all(hand);
}

/// Counting one more card adds one where the target counts it.
proof fn lemma_occurrences_push(hand: Seq<Seq<char>>, card: Seq<char>, target: TargetModel)
    ensures
        occurrences(hand.push(card), target) == occurrences(hand, target) + if target_matches(
            target,
            card,
        ) {
            1nat
        } else {
            0nat
        },
{
    reveal(Seq::filter);
    assert(hand.push(card).drop_last() =~= hand);
}

/// Whether one of the cards that the hand has yet to yield is named `name`.
pub(crate) fn has_card(hand: Hand, name: &String) -> (found: bool)
    ensures
        found == hand.remaining().contains(name@),
{
    let mut rest = hand;
    let ghost mut seen: Seq<Seq<char>> = Seq::empty();
    loop
        invariant
            hand.remaining() == seen + rest.remaining(),
            !seen.contains(name@),
        decreases rest.remaining().len(),
    {
        match rest.next() {
            Some(card) => {
                if *card == *name {
                    assert(hand.remaining()[seen.len() as int] == name@);
                    return true;
                }
                proof {
                    let ghost before = seen;
                    seen = seen.push(card@);
                    assert(hand.remaining() =~= seen + rest.remaining());
                    assert(!seen.contains(name@)) by {
                        if seen.contains(name@) {
                            let i = choose|i: int| 0 <= i < seen.len() && seen[i] == name@;
                            if i < before.len() {
                                assert(before[i] == name@);
                            }
                        }
                    }
                }
            },
            None => {
                assert(hand.remaining() =~= seen);
                return false;
            },
        }
    }
}

/// Whether the name of one of the cards that the hand has yet to yield
/// contains `part`.
fn has_card_containing(hand: Hand, part: &String) -> (found: bool)
    ensures
        found == (exists|i: int|
            0 <= i < hand.remaining().len() && is_substring(part@, #[trigger] hand.remaining()[i])),
{
    let mut rest = hand;
    let ghost mut seen: Seq<Seq<char>> = Seq::empty();
    loop
        invariant
            hand.remaining() == seen + rest.remaining(),
            forall|i: int| 0 <= i < seen.len() ==> !is_substring(part@, #[trigger] seen[i]),
        decreases rest.remaining().len(),
    {
        match rest.next() {
            Some(card) => {
                if contains_str(card.as_str(), part.as_str()) {
                    assert(hand.remaining()[seen.len() as int] == card@);
                    return true;
                }
                proof {
                    seen = seen.push(card@);
                    assert(hand.remaining() =~= seen + rest.remaining());
                }
            },
            None => {
                assert(hand.remaining() =~= seen);
                return false;
            },
        }
    }
}

/// The number of cards that the hand has yet to yield and the target counts.
fn count_matching(hand: Hand, target: &Target) -> (found: usize)
    ensures
        found == occurrences(hand.remaining(), target@),
{
    let mut rest = hand;
    let mut found: usize = 0;
    let ghost mut seen: Seq<Seq<char>> = Seq::empty();
    proof {
        reveal(Seq::filter);
    }
    loop
        invariant
            hand.remaining() == seen + rest.remaining(),
            found == occurrences(seen, target@),
            found <= seen.len(),
            seen.len() == 0 || hand.remaining().len() <= usize::MAX,
        decreases rest.remaining().len(),
    {
        match rest.next() {
            Some(card) => {
                let counted = match target {
                    Target::Ident(name) => *card == *name,
                    Target::ContainsIdent(part) => contains_str(card.as_str(), part.as_str()),
                };
                proof {
                    lemma_occurrences_push(seen, card@, target@);
                    seen = seen.push(card@);
                    assert(hand.remaining() =~= seen + rest.remaining());
                }
                if counted {
                    found += 1;
                }
            },
            None => {
                assert(hand.remaining() =~= seen);
                return found;
            },
        }
    }
}

/// The positions that a row of flags marks as taken.
pub open spec fn taken(flags: Seq<bool>) -> Set<int> {
    Set::new(|at: int| 0 <= at < flags.len() && flags[at])
}

/// The first position whose flag is not set and whose card, among those that
/// the hand has yet to yield, is named `name`.
fn find_free(hand: Hand, cards_used: &Vec<bool>, name: &String) -> (at: Option<usize>)
    requires
        hand.remaining().len() <= cards_used@.len(),
    ensures
        match at {
            Some(i) => i < hand.remaining().len() && first_free(
                hand.remaining(),
                taken(cards_used@),
                name@,
                0,
            ) == Some(i as int),
            None => first_free(hand.remaining(), taken(cards_used@), name@, 0) is None,
        },
{
    let ghost cards = hand.remaining();
    let ghost used = taken(cards_used@);
    let mut rest = hand;
    let mut at: usize = 0;
    loop
        invariant
            cards == hand.remaining(),
            used == taken(cards_used@),
            cards.len() <= cards_used@.len(),
            at <= cards.len(),
            rest.remaining() == cards.skip(at as int),
            first_free(cards, used, name@, 0) == first_free(cards, used, name@, at as int),
        decreases rest.remaining().len(),
    {
        match rest.next() {
            Some(card) => {
                assert(card@ == cards[at as int]);
                if !cards_used[at] && *card == *name {
                    return Some(at);
                }
                assert(rest.remaining() =~= cards.skip(at + 1));
                assert(at < cards_used.len());
                at += 1;
            },
            None => {
                return None;
            },
        }
    }
}

/// Whether at least `count` of the options find a card among those that the
/// hand has yet to yield, each option in turn taking the first card of its
/// name that no earlier option took.
fn pick_multi(hand: Hand, count: usize, options: &Vec<String>) -> (picked: bool)
    ensures
        picked == (greedy_hits(names(options@), hand.remaining(), Set::empty()) >= count),
{
    if count == 0 {
        return true;
    }
    let size = hand.len();
    let mut cards_used: Vec<bool> = Vec::new();
    let mut n: usize = 0;
    while n < size
        invariant
            n <= size,
            cards_used@.len() == n,
            forall|j: int| 0 <= j < n ==> !cards_used@[j],
        decreases size - n,
    {
        cards_used.push(false);
        n += 1;
    }
    let ghost all = names(options@);
    let ghost cards = hand.remaining();
    let ghost mut hits: nat = 0;
    let mut num: usize = count;
    let mut k: usize = 0;
    assert(taken(cards_used@) =~= Set::<int>::empty());
    assert(all.skip(0) =~= all);
    while k < options.len()
        invariant
            k <= options.len(),
            all == names(options@),
            cards == hand.remaining(),
            cards.len() <= cards_used@.len(),
            num == count - hits,
            num > 0,
            greedy_hits(all, cards, Set::empty()) == hits + greedy_hits(
                all.skip(k as int),
                cards,
                taken(cards_used@),
            ),
        decreases options.len() - k,
    {
        let ghost used = taken(cards_used@);
        proof {
            assert(all.skip(k as int)[0] == options@[k as int]@);
            assert(all.skip(k as int).drop_first() =~= all.skip(k + 1));
        }
        match find_free(hand, &cards_used, &options[k]) {
            Some(at) => {
                cards_used[at] = true;
                num -= 1;
                proof {
                    hits = hits + 1;
                    assert(taken(cards_used@) =~= used.insert(at as int));
                }
                if num == 0 {
                    return true;
                }
            },
            None => {},
        }
        k += 1;
    }
    false
}

/// Decides whether the cards that the hand has yet to yield satisfy the rule.
pub fn match_rule(hand: Hand, rule_tree: &RuleTree) -> (result: bool)
    ensures
        result == holds(rule_tree@, hand.remaining()),
    decreases rule_tree,
{
    match rule_tree {
        RuleTree::Ident(name) => has_card(hand, name),
        RuleTree::ContainsIdent(part) => has_card_containing(hand, part),
        RuleTree::NumIdent(target, comparator, threshold) => {
            let found = count_matching(hand, target);
            match comparator {
                Comparator::Greater => found > *threshold,
                Comparator::Less => found < *threshold,
                Comparator::Equal => found == *threshold,
            }
        },
        RuleTree::Not(child) => !match_rule(hand, child),
        RuleTree::And(child) => match_rule(hand, child),
        RuleTree::Or(child) => match_rule(hand, child),
        RuleTree::Exp(children) => {
            let ghost terms = rule_tree@->Exp_0;
            let mut result = true;
            let mut i: usize = 0;
            assert(terms.take(0) =~= Seq::<Expr>::empty());
            while i < children.len()
                invariant
                    i <= children.len(),
                    rule_tree == RuleTree::Exp(*children),
                    terms == rule_tree@->Exp_0,
                    result == sequence_value(terms.take(i as int), hand.remaining()),
                decreases children.len() - i,
            {
                let term = &children[i];
                proof {
                    assert(terms.take(i + 1).drop_last() =~= terms.take(i as int));
                    assert(terms.take(i + 1).last() == term@);
                }
                match term {
                    RuleTree::And(inner) => {
                        result = result && match_rule(hand, inner);
                    },
                    RuleTree::Or(inner) => {
                        result = result || match_rule(hand, inner);
                    },
                    _ => {
                        result = match_rule(hand, term);
                    },
                }
                i += 1;
            }
            assert(terms.take(i as int) =~= terms);
            result
        },
        RuleTree::PickMulti(count, options) => pick_multi(hand, *count, options),
        RuleTree::Unknown => false,
    }
}

} // verus!
