//! The sampling engine: it shuffles the deck, draws a hand, decides whether
//! the hand satisfies one of the rules, and counts the trials that do.

use vstd::prelude::*;
use vstd::slice::slice_subrange;
use crate::eval::{has_card, holds, match_rule};
use crate::hand::Hand;
use crate::text::names;
use crate::tree::{models, Expr, RuleTree};

verus! {

/// The number of cards in the base hand.
pub const HAND_SIZE: usize = 5;

/// The number of cards that follow the base hand in the deck and form the
/// pool from which one extra card may be taken.
pub const POOL_SIZE: usize = 6;

/// The name of the card that opens the pool to the hand that holds it.
pub open spec fn pot() -> Seq<char> {
    "Pot of Prosperity"@
}

/// Whether the hand satisfies at least one of the rules.
pub open spec fn any_rule_holds(rules: Seq<Expr>, hand: Seq<Seq<char>>) -> bool {
    exists|r: int| 0 <= r < rules.len() && holds(#[trigger] rules[r], hand)
}

/// The base hand of a shuffled deck: its first cards.
pub open spec fn base_hand(deck: Seq<Seq<char>>) -> Seq<Seq<char>> {
    deck.take(HAND_SIZE as int)
}

/// Whether a trial on this deck draws from the pool: pool handling is on and
/// the base hand holds the card that opens the pool.
pub open spec fn uses_pool(deck: Seq<Seq<char>>, use_prosp: bool) -> bool {
    use_prosp && base_hand(deck).contains(pot())
}

/// Whether a trial on a deck in this order succeeds. Without the pool, the
/// base hand must satisfy a rule; with it, the base hand extended by one of
/// the pool cards must, for at least one of them.
pub open spec fn trial_outcome(deck: Seq<Seq<char>>, rules: Seq<Expr>, use_prosp: bool) -> bool {
    if uses_pool(deck, use_prosp) {
        exists|p: int|
            0 <= p < POOL_SIZE && any_rule_holds(
                rules,
                #[trigger] base_hand(deck).push(deck[HAND_SIZE + p]),
            )
    } else {
        any_rule_holds(rules, base_hand(deck))
    }
}

/// Whether a deck in this order has the cards that a trial reads.
pub open spec fn deck_serves(deck: Seq<Seq<char>>, use_prosp: bool) -> bool {
    &&& deck.len() >= HAND_SIZE
    &&& uses_pool(deck, use_prosp) ==> deck.len() >= HAND_SIZE + POOL_SIZE
}

/// Whether a deck has the cards that a trial reads, in whatever order a
/// shuffle leaves it.
pub open spec fn deck_suffices(deck: Seq<Seq<char>>, use_prosp: bool) -> bool {
    &&& deck.len() >= HAND_SIZE
    &&& use_prosp && deck.contains(pot()) ==> deck.len() >= HAND_SIZE + POOL_SIZE
}

/// A trial whose base hand lacks the card that opens the pool reads the
/// base hand alone: decks that agree on it have the same outcome, whether or
/// not pool handling is on.
pub proof fn lemma_pool_unread_without_pot(
    deck: Seq<Seq<char>>,
    other: Seq<Seq<char>>,
    rules: Seq<Expr>,
    use_prosp: bool,
)
    requires
        base_hand(deck) == base_hand(other),
        !base_hand(deck).contains(pot()),
    ensures
        trial_outcome(deck, rules, use_prosp) == any_rule_holds(rules, base_hand(deck)),
        trial_outcome(deck, rules, use_prosp) == trial_outcome(other, rules, use_prosp),
{
}

/// With pool handling off, a trial reads the base hand alone, also where the
/// base hand holds the card that would open the pool.
pub proof fn lemma_pool_unread_when_disabled(
    deck: Seq<Seq<char>>,
    other: Seq<Seq<char>>,
    rules: Seq<Expr>,
)
    requires
        base_hand(deck) == base_hand(other),
    ensures
        trial_outcome(deck, rules, false) == any_rule_holds(rules, base_hand(deck)),
        trial_outcome(deck, rules, false) == trial_outcome(other, rules, false),
{
}

/// Under the one rule that names the card that opens the pool, a trial
/// succeeds exactly where the base hand holds that card, whatever the pool
/// holds and whether or not pool handling is on.
pub proof fn lemma_pot_rule_reads_base_hand(deck: Seq<Seq<char>>, use_prosp: bool)
    ensures
        trial_outcome(deck, seq![Expr::Ident(pot())], use_prosp) <==> base_hand(deck).contains(
            pot(),
        ),
{
    let rules = seq![Expr::Ident(pot())];
    let base = base_hand(deck);
    assert(rules[0] == Expr::Ident(pot()));
    assert(any_rule_holds(rules, base) <==> base.contains(pot())) by {
        if base.contains(pot()) {
            assert(holds(rules[0], base));
        }
    }
    if uses_pool(deck, use_prosp) {
        let at = choose|i: int| 0 <= i < base.len() && base[i] == pot();
        let extended = base.push(deck[HAND_SIZE + 0]);
        assert(extended[at] == pot());
        assert(holds(rules[0], extended));
        assert(any_rule_holds(rules, extended));
    }
}

/// Decides whether the cards that the hand has yet to yield satisfy at least
/// one of the rules.
pub fn any_rule_matches(hand: Hand, rules: &Vec<RuleTree>) -> (matched: bool)
    ensures
        matched == any_rule_holds(models(rules@), hand.remaining()),
{
    let mut at: usize = 0;
    while at < rules.len()
        invariant
            at <= rules@.len(),
            forall|r: int| 0 <= r < at ==> !holds(#[trigger] models(rules@)[r], hand.remaining()),
        decreases rules@.len() - at,
    {
        if match_rule(hand, &rules[at]) {
            assert(holds(models(rules@)[at as int], hand.remaining()));
            return true;
        }
        at += 1;
    }
    false
}

/// Runs one trial on a deck in the order given: draws the base hand and, where
/// the pool applies, tries each pool card in turn as a sixth card.
pub fn trial_succeeds(deck: &Vec<String>, rules: &Vec<RuleTree>, use_prosp: bool) -> (success: bool)
    requires
        deck_serves(names(deck@), use_prosp),
    ensures
        success == trial_outcome(names(deck@), models(rules@), use_prosp),
{
    let ghost cards = names(deck@);
    let ghost base = base_hand(cards);
    let main = slice_subrange(deck.as_slice(), 0, HAND_SIZE);
    assert(names(main@) =~= base);
    let prosp = String::from_str("Pot of Prosperity");
    let mut hand = Hand::new(main, slice_subrange(deck.as_slice(), HAND_SIZE, HAND_SIZE));
    assert(hand.remaining() =~= base);
    if use_prosp && has_card(hand, &prosp) {
        let pool = slice_subrange(deck.as_slice(), HAND_SIZE, HAND_SIZE + POOL_SIZE);
        hand = Hand::new(main, pool);
    }
    let ghost pool = hand.pool();
    assert(uses_pool(cards, use_prosp) ==> pool.len() == POOL_SIZE && forall|p: int|
        0 <= p < POOL_SIZE ==> pool[p] == cards[HAND_SIZE + p]);
    assert(!uses_pool(cards, use_prosp) ==> pool.len() == 0);
    loop
        invariant
            cards == names(deck@),
            base == base_hand(cards),
            hand.base() == base,
            hand.pool() == pool,
            hand.consumed() == 0,
            !hand.extra_taken(),
            uses_pool(cards, use_prosp) ==> pool.len() == POOL_SIZE && forall|p: int|
                0 <= p < POOL_SIZE ==> pool[p] == cards[HAND_SIZE + p],
            !uses_pool(cards, use_prosp) ==> pool.len() == 0,
            hand.pool_index() < pool.len() || (pool.len() == 0 && hand.pool_index() == 0),
            forall|p: int|
                0 <= p < hand.pool_index() ==> !any_rule_holds(
                    models(rules@),
                    #[trigger] base.push(cards[HAND_SIZE + p]),
                ),
        decreases pool.len() - hand.pool_index(),
    {
        let ghost tried = hand.pool_index() as int;
        proof {
            if pool.len() == 0 {
                assert(hand.remaining() =~= base);
            } else {
                assert(hand.remaining() =~= base.push(cards[HAND_SIZE + tried]));
            }
        }
        if any_rule_matches(hand, rules) {
            return true;
        }
        if !hand.next_hand() {
            return false;
        }
    }
}

/// The order in which `fastrand::Rng::shuffle` leaves a deck whose cards have
/// these names, and the state in which it leaves the generator, when the
/// generator starts from the state `seed`. The generator draws from its state
/// alone, so the same seed and the same deck always give the same outcome,
/// for a given width of `usize`, the type in which the positions to swap are
/// drawn.
pub uninterp spec fn shuffle_outcome(seed: u64, deck: Seq<Seq<char>>) -> (Seq<Seq<char>>, u64);

/// Shuffles the deck with `fastrand::Rng::shuffle`, on a generator made from
/// `seed` by `fastrand::Rng::with_seed`, and returns the state that
/// `fastrand::Rng::get_seed` then reports. The shuffle only swaps elements of
/// the slice, so the deck holds the same cards afterwards; which order comes
/// out, and which state, is what `shuffle_outcome` names.
#[verifier::external_body]
fn shuffle_deck(seed: u64, deck: &mut Vec<String>) -> (next: u64)
    ensures
        (names(final(deck)@), next) == shuffle_outcome(seed, names(old(deck)@)),
        names(final(deck)@).to_multiset() == names(old(deck)@).to_multiset(),
{
    let mut rng = fastrand::Rng::with_seed(seed);
    rng.shuffle(deck);
    rng.get_seed()
}

/// The count of a run: how many trials were made, and how many succeeded.
#[derive(Clone, Copy, Debug, PartialEq, Eq)]
pub struct Tally {
    successes: u64,
    trials: u64,
}

impl Tally {
    #[verifier::type_invariant]
    spec fn inv(self) -> bool {
        self.successes <= self.trials
    }

    /// The number of trials that succeeded.
    pub closed spec fn wins(self) -> nat {
        self.successes as nat
    }

    /// The number of trials made.
    pub closed spec fn total(self) -> nat {
        self.trials as nat
    }

    /// A tally of `successes` out of `trials`, unless that is more than all.
    pub fn new(successes: u64, trials: u64) -> (tally: Option<Self>)
        ensures
            match tally {
                Some(t) => successes <= trials && t.wins() == successes && t.total() == trials,
                None => successes > trials,
            },
    {
        if successes <= trials {
            Some(Tally { successes, trials })
        } else {
            None
        }
    }

    /// The number of trials that succeeded.
    pub fn successes(&self) -> (count: u64)
        ensures
            count == self.wins(),
            count <= self.total(),
    {
        proof {
            use_type_invariant(self);
        }
        self.successes
    }

    /// The number of trials made.
    pub fn trials(&self) -> (count: u64)
        ensures
            count == self.total(),
    {
        self.trials
    }

    /// The share of trials that succeeded, in successes per million trials,
    /// rounded down. A run of no trials has no such share.
    pub fn per_million(&self) -> (rate: Option<u64>)
        ensures
            match rate {
                Some(r) => self.total() > 0 && r == self.wins() * 1_000_000 / self.total(),
                None => self.total() == 0,
            },
    {
        proof {
            use_type_invariant(self);
        }
        if self.trials == 0 {
            None
        } else {
            let scaled: u128 = self.successes as u128 * 1_000_000u128;
            let rate: u128 = scaled / (self.trials as u128);
            proof {
                lemma_share_bounded(self.successes as int, self.trials as int);
            }
            Some(rate as u64)
        }
    }
}

/// A share of at most the whole is at most a million per million.
proof fn lemma_share_bounded(wins: int, total: int)
    requires
        0 <= wins <= total,
        0 < total,
    ensures
        0 <= wins * 1_000_000 / total <= 1_000_000,
{
    assert(wins * 1_000_000 <= total * 1_000_000) by (nonlinear_arith)
        requires
            wins <= total,
    ;
    assert(wins * 1_000_000 / total <= 1_000_000) by (nonlinear_arith)
        requires
            0 <= wins * 1_000_000 <= total * 1_000_000,
            0 < total,
    ;
    assert(0 <= wins * 1_000_000 / total) by (nonlinear_arith)
        requires
            0 <= wins,
            0 < total,
    ;
}

/// The state of a run after a number of trials: the successes so far, the
/// order of the deck, and the state of the generator.
pub ghost struct RunState {
    pub wins: nat,
    pub deck: Seq<Seq<char>>,
    pub seed: u64,
}

/// The state of a run that started from `seed` with the deck in the order
/// `deck`, after `trials` trials. Each trial shuffles the deck as the last
/// trial left it and then draws from it.
pub open spec fn run_state(
    seed: u64,
    deck: Seq<Seq<char>>,
    rules: Seq<Expr>,
    use_prosp: bool,
    trials: nat,
) -> RunState
    decreases trials,
{
    if trials == 0 {
        RunState { wins: 0, deck, seed }
    } else {
        let before = run_state(seed, deck, rules, use_prosp, (trials - 1) as nat);
        let (shuffled, next) = shuffle_outcome(before.seed, before.deck);
        RunState {
            wins: before.wins + if trial_outcome(shuffled, rules, use_prosp) {
                1nat
            } else {
                0nat
            },
            deck: shuffled,
            seed: next,
        }
    }
}

/// Under the one rule that names the card that opens the pool, a run counts
/// the trials whose base hand holds that card, so pool handling changes
/// neither the count nor the order of the deck nor the state of the generator.
pub proof fn lemma_pot_rule_run_ignores_pool(seed: u64, deck: Seq<Seq<char>>, trials: nat)
    ensures
        run_state(seed, deck, seq![Expr::Ident(pot())], true, trials) == run_state(
            seed,
            deck,
            seq![Expr::Ident(pot())],
            false,
            trials,
        ),
    decreases trials,
{
    if trials > 0 {
        lemma_pot_rule_run_ignores_pool(seed, deck, (trials - 1) as nat);
        let before = run_state(seed, deck, seq![Expr::Ident(pot())], false, (trials - 1) as nat);
        let shuffled = shuffle_outcome(before.seed, before.deck).0;
        lemma_pot_rule_reads_base_hand(shuffled, true);
        lemma_pot_rule_reads_base_hand(shuffled, false);
    }
}

/// A deck that holds the same cards as one that suffices, suffices.
proof fn lemma_same_cards_suffice(before: Seq<Seq<char>>, after: Seq<Seq<char>>, use_prosp: bool)
    requires
        before.to_multiset() == after.to_multiset(),
        deck_suffices(before, use_prosp),
    ensures
        deck_suffices(after, use_prosp),
        deck_serves(after, use_prosp),
        after.len() == before.len(),
{
    broadcast use {vstd::seq_lib::to_multiset_len, vstd::seq_lib::to_multiset_contains};

    assert(before.to_multiset().len() == before.len());
    assert(after.to_multiset().len() == after.len());
    assert(after.contains(pot()) <==> after.to_multiset().count(pot()) > 0);
    assert(before.contains(pot()) <==> before.to_multiset().count(pot()) > 0);
    if base_hand(after).contains(pot()) {
        let i = choose|i: int| 0 <= i < base_hand(after).len() && base_hand(after)[i] == pot();
        assert(after[i] == pot());
    }
}

/// Runs `trials` trials, shuffling the deck before each with a generator that
/// starts from `seed` and goes on from the state in which the last shuffle
/// left it, and counts the trials that succeed. The deck is left in the order
/// of the last shuffle, with the cards it had. A run of no trials reads no
/// card and takes any deck.
pub fn run_trials(
    deck: &mut Vec<String>,
    rules: &Vec<RuleTree>,
    use_prosp: bool,
    trials: u64,
    seed: u64,
) -> (tally: Tally)
    requires
        trials > 0 ==> deck_suffices(names(old(deck)@), use_prosp),
    ensures
        tally.total() == trials,
        tally.wins() == run_state(
            seed,
            names(old(deck)@),
            models(rules@),
            use_prosp,
            trials as nat,
        ).wins,
        names(final(deck)@) == run_state(
            seed,
            names(old(deck)@),
            models(rules@),
            use_prosp,
            trials as nat,
        ).deck,
        names(final(deck)@).to_multiset() == names(old(deck)@).to_multiset(),
        final(deck)@.len() == old(deck)@.len(),
{
    let ghost start = names(deck@);
    let ghost exprs = models(rules@);
    let mut sum: u64 = 0;
    let mut done: u64 = 0;
    let mut state = seed;
    while done < trials
        invariant
            done <= trials,
            sum <= done,
            exprs == models(rules@),
            trials > 0 ==> deck_suffices(start, use_prosp),
            names(deck@).to_multiset() == start.to_multiset(),
            deck@.len() == start.len(),
            run_state(seed, start, exprs, use_prosp, done as nat) == (RunState {
                wins: sum as nat,
                deck: names(deck@),
                seed: state,
            }),
        decreases trials - done,
    {
        state = shuffle_deck(state, deck);
        proof {
            lemma_same_cards_suffice(start, names(deck@), use_prosp);
        }
        if trial_succeeds(deck, rules, use_prosp) {
            sum += 1;
        }
        done += 1;
    }
    Tally { successes: sum, trials }
}

} // verus!
