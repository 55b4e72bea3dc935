//! The cards considered in one trial: a base hand, and at most one extra card
//! taken from a pool of candidates.

use vstd::prelude::*;
use crate::text::names;

verus! {

/// A read-only view of the base hand and of the pool of candidate extra cards,
/// together with a cursor that walks the cards of the current variant.
///
/// The current variant is the base hand followed by the pool card at the
/// current pool position, if the pool has one there.
#[derive(Clone, Copy)]
pub struct Hand<'b> {
    main: &'b [String],
    pool_cards: &'b [String],
    pool_at: usize,
    main_at: usize,
    extra_done: bool,
}

impl<'b> Hand<'b> {
    #[verifier::type_invariant]
    spec fn inv(self) -> bool {
        &&& self.main@.len() < usize::MAX
        &&& self.main_at <= self.main@.len()
    }

    /// The names of the base hand.
    pub closed spec fn base(self) -> Seq<Seq<char>> {
        names(self.main@)
    }

    /// The names of the candidate extra cards.
    pub closed spec fn pool(self) -> Seq<Seq<char>> {
        names(self.pool_cards@)
    }

    /// The position in the pool of the extra card of the current variant.
    pub closed spec fn pool_index(self) -> nat {
        self.pool_at as nat
    }

    /// How many cards of the base hand the cursor has passed.
    pub closed spec fn consumed(self) -> nat {
        self.main_at as nat
    }

    /// Whether the cursor has already yielded the extra card.
    pub closed spec fn extra_taken(self) -> bool {
        self.extra_done
    }

    /// The extra card of the current variant, as a sequence of zero or one names.
    pub open spec fn extra(self) -> Seq<Seq<char>> {
        if self.pool_index() < self.pool().len() {
            seq![self.pool()[self.pool_index() as int]]
        } else {
            Seq::empty()
        }
    }

    /// All cards of the current variant, wherever the cursor stands.
    pub open spec fn cards(self) -> Seq<Seq<char>> {
        self.base() + self.extra()
    }

    /// The cards that the cursor has yet to yield.
    pub open spec fn remaining(self) -> Seq<Seq<char>> {
        if self.consumed() < self.base().len() {
            self.base().skip(self.consumed() as int) + if self.extra_taken() {
                Seq::empty()
            } else {
                self.extra()
            }
        } else if self.extra_taken() {
            Seq::empty()
        } else {
            self.extra()
        }
    }

    /// A hand over `main`, with its cursor at the first card and the first
    /// card of `pool`, if any, as its extra card.
    pub fn new(main: &'b [String], pool: &'b [String]) -> (hand: Self)
        requires
            main@.len() < usize::MAX,
        ensures
            hand.base() == names(main@),
            hand.pool() == names(pool@),
            hand.pool_index() == 0,
            hand.consumed() == 0,
            !hand.extra_taken(),
    {
        Hand { main, pool_cards: pool, pool_at: 0, main_at: 0, extra_done: false }
    }

    /// The number of cards in a variant of this hand: the base hand, and one
    /// more where the pool is not empty.
    pub fn len(&self) -> (result: usize)
        ensures
            result == self.base().len() + if self.pool().len() != 0 { 1int } else { 0int },
    {
        proof {
            use_type_invariant(self);
        }
        let mut result: usize = self.main.len();
        if self.pool_cards.len() != 0 {
            result += 1;
        }
        result
    }

    /// Yields the next card of the current variant and moves the cursor past
    /// it, or yields nothing and stays put once every card has been yielded.
    pub fn next(&mut self) -> (card: Option<&'b String>)
        ensures
            final(self).base() == old(self).base(),
            final(self).pool() == old(self).pool(),
            final(self).pool_index() == old(self).pool_index(),
            old(self).remaining().len() <= usize::MAX,
            match card {
                Some(c) => {
                    &&& old(self).remaining().len() > 0
                    &&& c@ == old(self).remaining()[0]
                    &&& final(self).remaining() == old(self).remaining().drop_first()
                },
                None => old(self).remaining().len() == 0 && *final(self) == *old(self),
            },
    {
        proof {
            use_type_invariant(&*self);
        }
        if self.main_at < self.main.len() {
            let card = &self.main[self.main_at];
            self.main_at += 1;
            Some(card)
        } else if self.pool_at < self.pool_cards.len() && !self.extra_done {
            self.extra_done = true;
            Some(&self.pool_cards[self.pool_at])
        } else {
            None
        }
    }

    /// Moves on to the variant with the next pool card as its extra card, with
    /// the cursor back at the first card: the pool position goes up by one,
    /// also where it leaves the pool. Tells whether the pool has a card at the
    /// new position; where it has none, the variant is the base hand alone.
    pub fn next_hand(&mut self) -> (more: bool)
        requires
            old(self).pool_index() < usize::MAX,
        ensures
            final(self).base() == old(self).base(),
            final(self).pool() == old(self).pool(),
            final(self).pool_index() == old(self).pool_index() + 1,
            final(self).consumed() == 0,
            !final(self).extra_taken(),
            more == (final(self).pool_index() < final(self).pool().len()),
    {
        proof {
            use_type_invariant(&*self);
        }
        self.pool_at += 1;
        self.extra_done = false;
        self.main_at = 0;
        self.pool_at < self.pool_cards.len()
    }
}

} // verus!
