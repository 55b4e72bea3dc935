//! Reading a deck list: one line per card name, ending in the number of copies.

use vstd::prelude::*;
use crate::text::{chars_of, digit_value, is_digit, names, trimmed, trimmed_string};

verus! {

/// The position of the first line feed in `text`, or its length if it has none.
pub open spec fn line_end(text: Seq<char>) -> int
    decreases text.len(),
{
    if text.len() == 0 || text.first() == '\n' {
        0
    } else {
        1 + line_end(text.drop_first())
    }
}

/// A line without the carriage return that ended it, if one did.
pub open spec fn strip_cr(line: Seq<char>) -> Seq<char> {
    if line.len() > 0 && line.last() == '\r' {
        line.drop_last()
    } else {
        line
    }
}

/// The lines of a text. A line ends at a line feed, or at a carriage return
/// directly followed by one; the last line needs no ending.
pub open spec fn lines(text: Seq<char>) -> Seq<Seq<char>>
    decreases text.len(),
{
    if text.len() == 0 {
        Seq::empty()
    } else if 0 <= line_end(text) < text.len() {
        seq![strip_cr(text.take(line_end(text)))] + lines(text.skip(line_end(text) + 1))
    } else {
        seq![text]
    }
}

/// The cards that one line of a deck list declares: where its last character
/// is a digit, that many copies of the rest of the line, trimmed; else none.
pub open spec fn copies(line: Seq<char>) -> Seq<Seq<char>> {
    if line.len() > 0 && is_digit(line.last()) {
        Seq::new(digit_value(line.last()), |i: int| trimmed(line.drop_last()))
    } else {
        Seq::empty()
    }
}

/// The cards that a run of lines declares, in order.
pub open spec fn expand(lines: Seq<Seq<char>>) -> Seq<Seq<char>>
    decreases lines.len(),
{
    if lines.len() == 0 {
        Seq::empty()
    } else {
        expand(lines.drop_last()) + copies(lines.last())
    }
}

/// The deck that a deck list declares: one entry per physical copy.
pub open spec fn deck_of(decklist: Seq<char>) -> Seq<Seq<char>> {
    expand(lines(decklist))
}

/// The number of copies that one line of a deck list declares.
pub open spec fn declared(line: Seq<char>) -> nat {
    if line.len() > 0 && is_digit(line.last()) {
        digit_value(line.last())
    } else {
        0
    }
}

/// The number of copies that a run of lines declares in all.
pub open spec fn total_declared(lines: Seq<Seq<char>>) -> nat
    decreases lines.len(),
{
    if lines.len() == 0 {
        0
    } else {
        total_declared(lines.drop_last()) + declared(lines.last())
    }
}

/// A deck has as many cards as the lines of its list declare, and each line
/// declares at most nine.
pub proof fn lemma_deck_has_declared_size(decklist: Seq<char>)
    ensures
        deck_of(decklist).len() == total_declared(lines(decklist)),
        deck_of(decklist).len() <= 9 * lines(decklist).len(),
{
    lemma_expand_size(lines(decklist));
}

/// A run of lines expands to as many cards as it declares.
proof fn lemma_expand_size(lines: Seq<Seq<char>>)
    ensures
        expand(lines).len() == total_declared(lines),
        expand(lines).len() <= 9 * lines.len(),
    decreases lines.len(),
{
    if lines.len() > 0 {
        lemma_expand_size(lines.drop_last());
        assert(copies(lines.last()).len() == declared(lines.last()));
        assert(declared(lines.last()) <= 9);
    }
}

/// The first line feed at or after `from` is where the line that starts at
/// `from` ends.
proof fn lemma_line_end(text: Seq<char>, from: int, at: int)
    requires
        0 <= from <= at <= text.len(),
        forall|i: int| from <= i < at ==> text[i] != '\n',
        at == text.len() || text[at] == '\n',
    ensures
        line_end(text.skip(from)) == at - from,
    decreases at - from,
{
    if from < at {
        assert(text.skip(from).drop_first() =~= text.skip(from + 1));
        lemma_line_end(text, from + 1, at);
    }
}

/// Expands a deck list into the deck, one entry per physical copy.
pub fn convert_decklist_to_vec(decklist: String) -> (deck: Vec<String>)
    ensures
        names(deck@) == deck_of(decklist@),
{
    let text = chars_of(decklist.as_str());
    let mut deck: Vec<String> = Vec::new();
    let ghost mut done: Seq<Seq<char>> = Seq::empty();
    let mut start: usize = 0;
    assert(text@.skip(0) =~= text@);
    while start < text.len()
        invariant
            start <= text.len(),
            text@ == decklist@,
            lines(text@) == done + lines(text@.skip(start as int)),
            names(deck@) == expand(done),
        decreases text.len() - start,
    {
        let mut at = start;
        while at < text.len() && text[at] != '\n'
            invariant
                start <= at <= text.len(),
                forall|i: int| start <= i < at ==> text@[i] != '\n',
            decreases text.len() - at,
        {
            at += 1;
        }
        let ghost rest = text@.skip(start as int);
        let ghost line: Seq<char>;
        proof {
            lemma_line_end(text@, start as int, at as int);
            assert(rest.take(at - start) =~= text@.subrange(start as int, at as int));
            assert(rest.len() > 0);
        }
        let mut end = at;
        let next = if at < text.len() {
            if end > start && text[end - 1] == '\r' {
                end -= 1;
            }
            proof {
                line = text@.subrange(start as int, end as int);
                assert(line =~= strip_cr(text@.subrange(start as int, at as int)));
                assert(rest.skip(at - start + 1) =~= text@.skip(at + 1));
                assert(lines(rest) == seq![line] + lines(text@.skip(at + 1)));
            }
            at + 1
        } else {
            proof {
                line = text@.subrange(start as int, end as int);
                assert(line =~= rest);
                assert(text@.skip(at as int) =~= Seq::<char>::empty());
                assert(lines(rest) =~= seq![line] + lines(text@.skip(at as int)));
            }
            at
        };
        proof {
            assert(done.push(line).drop_last() =~= done);
            assert(expand(done.push(line)) == expand(done) + copies(line));
            assert(done + (seq![line] + lines(text@.skip(next as int))) =~= done.push(line)
                + lines(text@.skip(next as int)));
        }
        if end > start {
            let last = text[end - 1];
            if '0' <= last && last <= '9' {
                let num = last as u32 - '0' as u32;
                assert(line.drop_last() =~= text@.subrange(start as int, end - 1));
                let card = trimmed_string(&text, start, end - 1);
                let ghost before = names(deck@);
                let mut made: u32 = 0;
                while made < num
                    invariant
                        made <= num,
                        names(deck@) == before + Seq::new(made as nat, |i: int| card@),
                    decreases num - made,
                {
                    let ghost earlier = names(deck@);
                    let copy = card.clone();
                    deck.push(copy);
                    made += 1;
                    assert(names(deck@) =~= earlier.push(card@));
                    assert(names(deck@) =~= before + Seq::new(made as nat, |i: int| card@));
                }
                assert(names(deck@) =~= before + copies(line));
            }
        }
        proof {
            done = done.push(line);
        }
        start = next;
    }
    assert(lines(text@.skip(start as int)) =~= Seq::<Seq<char>>::empty());
    assert(done + Seq::<Seq<char>>::empty() =~= done);
    deck
}

} // verus!
