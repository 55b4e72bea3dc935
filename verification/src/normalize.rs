//! Normalizing the literal text of a card-name token.

use vstd::prelude::*;
use crate::text::{chars_of, is_whitespace, trim_end, trim_start, trimmed, trimmed_string};

verus! {

/// The character that marks an escape in a card-name token.
pub const ESCAPE: char = '\\';

/// Whether the character at position `at` outlives the removal of escapes:
/// it is no escape marker, and it does not follow one.
pub open spec fn survives(raw: Seq<char>, at: int) -> bool {
    raw[at] != ESCAPE && (at == 0 || raw[at - 1] != ESCAPE)
}

/// `raw` without its escape markers and without the character that follows
/// each of them.
pub open spec fn strip_escapes(raw: Seq<char>) -> Seq<char>
    decreases raw.len(),
{
    if raw.len() == 0 {
        Seq::empty()
    } else if survives(raw, raw.len() - 1) {
        strip_escapes(raw.drop_last()).push(raw.last())
    } else {
        strip_escapes(raw.drop_last())
    }
}

/// The normalized form of a literal: escapes removed, then white space
/// trimmed from both ends.
pub open spec fn normalized(raw: Seq<char>) -> Seq<char> {
    trimmed(strip_escapes(raw))
}

/// Whether a text is in normalized form: it holds no escape marker, and no
/// white space at its start or at its end.
pub open spec fn is_normal(text: Seq<char>) -> bool {
    &&& forall|i: int| 0 <= i < text.len() ==> text[i] != ESCAPE
    &&& text.len() > 0 ==> !is_whitespace(text.first()) && !is_whitespace(text.last())
}

/// What is left after the removal of escapes holds no escape marker.
proof fn lemma_stripped_has_no_escape(raw: Seq<char>)
    ensures
        forall|i: int| 0 <= i < strip_escapes(raw).len() ==> strip_escapes(raw)[i] != ESCAPE,
    decreases raw.len(),
{
    if raw.len() > 0 {
        lemma_stripped_has_no_escape(raw.drop_last());
        let before = strip_escapes(raw.drop_last());
        assert forall|i: int| 0 <= i < strip_escapes(raw).len() implies strip_escapes(raw)[i]
            != ESCAPE by {
            if i < before.len() {
                assert(strip_escapes(raw)[i] == before[i]);
            }
        }
    }
}

/// A text without escape markers has no escapes to remove.
proof fn lemma_strip_keeps_plain(text: Seq<char>)
    requires
        forall|i: int| 0 <= i < text.len() ==> text[i] != ESCAPE,
    ensures
        strip_escapes(text) == text,
    decreases text.len(),
{
    if text.len() > 0 {
        lemma_strip_keeps_plain(text.drop_last());
        assert(text.drop_last().push(text.last()) =~= text);
    }
}

/// Trimming the end leaves a prefix that does not end in white space.
proof fn lemma_trim_end(text: Seq<char>)
    ensures
        trim_end(text).len() <= text.len(),
        trim_end(text) == text.take(trim_end(text).len() as int),
        trim_end(text).len() > 0 ==> !is_whitespace(trim_end(text).last()),
    decreases text.len(),
{
    if text.len() > 0 && is_whitespace(text.last()) {
        lemma_trim_end(text.drop_last());
        let kept = trim_end(text).len() as int;
        assert(text.drop_last().take(kept) =~= text.take(kept));
    } else {
        assert(text.take(text.len() as int) =~= text);
    }
}

/// Trimming the start leaves a suffix that does not start with white space.
proof fn lemma_trim_start(text: Seq<char>)
    ensures
        trim_start(text).len() <= text.len(),
        trim_start(text) == text.skip(text.len() - trim_start(text).len()),
        trim_start(text).len() > 0 ==> !is_whitespace(trim_start(text).first()),
    decreases text.len(),
{
    if text.len() > 0 && is_whitespace(text.first()) {
        lemma_trim_start(text.drop_first());
        let dropped = text.len() - trim_start(text).len();
        assert(text.drop_first().skip(dropped - 1) =~= text.skip(dropped));
    } else {
        assert(text.skip(0) =~= text);
    }
}

/// Normalizing gives a text in normalized form.
pub proof fn lemma_normalized_is_normal(raw: Seq<char>)
    ensures
        is_normal(normalized(raw)),
{
    let stripped = strip_escapes(raw);
    lemma_stripped_has_no_escape(raw);
    lemma_trim_end(stripped);
    lemma_trim_start(trim_end(stripped));
}

/// Normalizing changes nothing in a text that is in normalized form. So
/// normalizing twice gives what normalizing once gives.
pub proof fn lemma_normal_is_unchanged(text: Seq<char>)
    requires
        is_normal(text),
    ensures
        normalized(text) == text,
{
    lemma_strip_keeps_plain(text);
}

/// Removing escapes from a prefix depends on that prefix alone.
proof fn lemma_strip_step(raw: Seq<char>, upto: int)
    requires
        0 <= upto < raw.len(),
    ensures
        strip_escapes(raw.take(upto + 1)) == if survives(raw, upto) {
            strip_escapes(raw.take(upto)).push(raw[upto])
        } else {
            strip_escapes(raw.take(upto))
        },
{
    assert(raw.take(upto + 1).drop_last() =~= raw.take(upto));
}

/// Normalizes the literal text of a card-name token.
pub fn normalize_string(raw: String) -> (result: String)
    ensures
        result@ == normalized(raw@),
        is_normal(result@),
{
    proof {
        lemma_normalized_is_normal(raw@);
    }
    let chars = chars_of(raw.as_str());
    let mut new_str: Vec<char> = Vec::new();
    let mut keep = true;
    let mut at: usize = 0;
    while at < chars.len()
        invariant
            at <= chars.len(),
            chars@ == raw@,
            keep == (at == 0 || chars@[at - 1] != ESCAPE),
            new_str@ == strip_escapes(chars@.take(at as int)),
        decreases chars.len() - at,
    {
        let c = chars[at];
        proof {
            lemma_strip_step(chars@, at as int);
        }
        if c == ESCAPE {
            keep = false;
        } else if !keep {
            keep = true;
        } else {
            new_str.push(c);
        }
        at += 1;
    }
    assert(chars@.take(at as int) =~= chars@);
    let end = new_str.len();
    assert(new_str@.subrange(0, end as int) =~= new_str@);
    trimmed_string(&new_str, 0, end)
}

} // verus!
