//! The grammar of combo files, as functions from a text and a position to
//! what is read there.
//!
//! A combo file holds one rule per line; blank lines are allowed.
//!
//! ```text
//! file        := rule? (line-feed rule?)*
//! rule        := exp
//! exp         := term (('AND' | 'OR') term)*
//! term        := 'NOT' term | '(' exp ')' | pick | literal comparison?
//! literal     := '~' name | name
//! comparison  := ('>' | '<' | '=') integer
//! pick        := '[' integer ':' name (',' name)* ']'
//! name        := '"' quoted-character* '"' | word (blank+ word)*
//! ```
//!
//! A word is a run of characters other than blanks, line feeds, the
//! delimiters `( ) [ ] , : ~ > < = "` and the escape marker; an escape marker
//! with the character after it counts as part of a word whatever that
//! character is, short of a line feed. The words `AND`, `OR` and `NOT` are
//! keywords and never part of an unquoted name. Blanks between tokens are
//! skipped. The text of a name is what stands between the quotes, or from the
//! first character of the first word to the last character of the last.
//!
//! Each function returns the node read and the number of characters read from
//! the position given, or the position at which the text stops fitting the
//! grammar together with what was expected there.

use vstd::prelude::*;
use crate::normalize::ESCAPE;
use crate::text::{decimal, is_digit};

verus! {

/// The kinds of node in a parse tree.
#[derive(Clone, Copy, Debug, PartialEq, Eq, Structural)]
pub enum Rule {
    /// A sequence of terms; its children are the terms, in order.
    Exp,
    /// A term under `AND`; its child is the term.
    And,
    /// A term under `OR`; its child is the term.
    Or,
    /// A negation; its child is the term negated.
    Not,
    /// An exact-match literal; its text is the name as written.
    Ident,
    /// A substring literal; its text is the name as written, without the tilde.
    ContainsIdent,
    /// A counted condition; its children are a literal and a comparison.
    NumIdent,
    /// The comparison `>`; its child is the number compared with.
    Greater,
    /// The comparison `<`; its child is the number compared with.
    Less,
    /// The comparison `=`; its child is the number compared with.
    Equal,
    /// A number; its text is the digits as written.
    Number,
    /// A pick; its children are the count and then the options.
    PickMulti,
}

/// What the grammar asks for at the place where a text stops fitting it.
#[derive(Clone, Copy, Debug, PartialEq, Eq, Structural)]
pub enum Expected {
    /// The start of a term.
    Term,
    /// A card name.
    Name,
    /// A run of digits.
    Integer,
    /// A number small enough for the machine.
    IntegerThatFits,
    /// The colon after the count of a pick.
    Colon,
    /// A comma or the closing bracket of a pick.
    CommaOrBracket,
    /// The closing parenthesis of a group.
    ClosingParen,
    /// The closing quote of a name.
    ClosingQuote,
    /// The end of the line after a rule.
    LineEnd,
}

/// The model of a parse tree node: its kind, the text of its token where it
/// is a name or a number, and its children.
pub ghost struct ParseModel {
    pub rule: Rule,
    pub text: Seq<char>,
    pub inner: Seq<ParseModel>,
}

/// A position in the text and what was expected there.
pub type Fault = (int, Expected);

/// What reading at a position gives: a value and the number of characters
/// read, or a fault.
pub type Read<T> = Result<(T, nat), Fault>;

/// A reading that began `by` characters before the one given.
pub open spec fn shifted<T>(read: Read<T>, by: nat) -> Read<T> {
    match read {
        Ok((value, len)) => Ok((value, by + len)),
        Err(fault) => Err(fault),
    }
}

/// A node that stands for a token.
pub open spec fn leaf(rule: Rule, text: Seq<char>) -> ParseModel {
    ParseModel { rule, text, inner: Seq::empty() }
}

/// A node with children.
pub open spec fn node(rule: Rule, inner: Seq<ParseModel>) -> ParseModel {
    ParseModel { rule, text: Seq::empty(), inner }
}

/// Whether a character is a blank: white space that does not end a line.
pub open spec fn is_blank(c: char) -> bool {
    c == ' ' || c == '\t' || c == '\r'
}

/// Whether a character is one of the delimiters of the grammar.
pub open spec fn is_delimiter(c: char) -> bool {
    ||| c == '('
    ||| c == ')'
    ||| c == '['
    ||| c == ']'
    ||| c == ','
    ||| c == ':'
    ||| c == '~'
    ||| c == '>'
    ||| c == '<'
    ||| c == '='
    ||| c == '"'
}

/// Whether a character can stand in a word without an escape marker before it.
pub open spec fn is_word_char(c: char) -> bool {
    !is_blank(c) && !is_delimiter(c) && c != '\n' && c != ESCAPE
}

/// The number of blanks that stand at `pos`.
pub open spec fn blank_run(text: Seq<char>, pos: int) -> nat
    decreases text.len() - pos,
{
    if 0 <= pos < text.len() && is_blank(text[pos]) {
        1 + blank_run(text, pos + 1)
    } else {
        0
    }
}

/// The number of blanks and line feeds that stand at `pos`.
pub open spec fn space_run(text: Seq<char>, pos: int) -> nat
    decreases text.len() - pos,
{
    if 0 <= pos < text.len() && (is_blank(text[pos]) || text[pos] == '\n') {
        1 + space_run(text, pos + 1)
    } else {
        0
    }
}

/// The number of digits that stand at `pos`.
pub open spec fn digit_run(text: Seq<char>, pos: int) -> nat
    decreases text.len() - pos,
{
    if 0 <= pos < text.len() && is_digit(text[pos]) {
        1 + digit_run(text, pos + 1)
    } else {
        0
    }
}

/// The length of the word that starts at `pos`.
pub open spec fn word_len(text: Seq<char>, pos: int) -> nat
    decreases text.len() - pos,
{
    if 0 <= pos < text.len() && is_word_char(text[pos]) {
        1 + word_len(text, pos + 1)
    } else if 0 <= pos && pos + 1 < text.len() && text[pos] == ESCAPE && text[pos + 1] != '\n' {
        2 + word_len(text, pos + 2)
    } else {
        0
    }
}

/// The word that starts at `pos`.
pub open spec fn word_at(text: Seq<char>, pos: int) -> Seq<char> {
    text.subrange(pos, pos + word_len(text, pos))
}

/// The keyword that joins a term to what precedes it so that both must hold.
pub open spec fn kw_and() -> Seq<char> {
    seq!['A', 'N', 'D']
}

/// The keyword that joins a term to what precedes it so that either may hold.
pub open spec fn kw_or() -> Seq<char> {
    seq!['O', 'R']
}

/// The keyword that negates the term after it.
pub open spec fn kw_not() -> Seq<char> {
    seq!['N', 'O', 'T']
}

/// The keyword that the word at `pos` is, if it is one, as the kind of node
/// that the keyword makes.
#[verifier::opaque]
pub open spec fn keyword(text: Seq<char>, pos: int) -> Option<Rule> {
    let word = word_at(text, pos);
    if word == kw_and() {
        Some(Rule::And)
    } else if word == kw_or() {
        Some(Rule::Or)
    } else if word == kw_not() {
        Some(Rule::Not)
    } else {
        None
    }
}

/// Whether a word that can be part of a name starts at `pos`.
pub open spec fn starts_word(text: Seq<char>, pos: int) -> bool {
    word_len(text, pos) > 0 && keyword(text, pos) is None
}

/// The length of the unquoted name that starts at `pos`: its first word, and
/// each further word that is no keyword and that only blanks part from the
/// word before it.
pub open spec fn bare_len(text: Seq<char>, pos: int) -> nat
    decreases text.len() - pos,
{
    let first = word_len(text, pos);
    let gap = blank_run(text, pos + first);
    if first > 0 && gap > 0 && starts_word(text, pos + first + gap) {
        first + gap + bare_len(text, pos + first + gap)
    } else {
        first
    }
}

/// The number of characters from `pos` to the next quote, line feed or end
/// of the text; a quote right after an escape marker does not count as one.
pub open spec fn quote_scan(text: Seq<char>, pos: int) -> nat
    decreases text.len() - pos,
{
    if !(0 <= pos < text.len()) || text[pos] == '\n' || text[pos] == '"' {
        0
    } else if text[pos] == ESCAPE && pos + 1 < text.len() && text[pos + 1] != '\n' {
        2 + quote_scan(text, pos + 2)
    } else {
        1 + quote_scan(text, pos + 1)
    }
}

/// Reads a name at `pos`: its text, and the characters read.
pub open spec fn name(text: Seq<char>, pos: int) -> Read<Seq<char>> {
    if 0 <= pos < text.len() && text[pos] == '"' {
        let within = quote_scan(text, pos + 1);
        let close = pos + 1 + within;
        if 0 <= close < text.len() && text[close] == '"' {
            Ok((text.subrange(pos + 1, close), within + 2))
        } else {
            Err((close, Expected::ClosingQuote))
        }
    } else if starts_word(text, pos) {
        Ok((text.subrange(pos, pos + bare_len(text, pos)), bare_len(text, pos)))
    } else {
        Err((pos, Expected::Name))
    }
}

/// Reads a number at `pos`.
pub open spec fn integer(text: Seq<char>, pos: int) -> Read<ParseModel> {
    let len = digit_run(text, pos);
    let digits = text.subrange(pos, pos + len);
    if len == 0 {
        Err((pos, Expected::Integer))
    } else if decimal(digits) > usize::MAX {
        Err((pos, Expected::IntegerThatFits))
    } else {
        Ok((leaf(Rule::Number, digits), len))
    }
}

/// The kind of comparison that a character stands for, if any.
pub open spec fn comparison(c: char) -> Option<Rule> {
    if c == '>' {
        Some(Rule::Greater)
    } else if c == '<' {
        Some(Rule::Less)
    } else if c == '=' {
        Some(Rule::Equal)
    } else {
        None
    }
}

/// Reads what may follow a literal that ends at `pos`: a comparison, which
/// turns the literal into a counted condition, or nothing.
pub open spec fn after_literal(text: Seq<char>, pos: int, literal: ParseModel) -> Read<ParseModel> {
    let gap = blank_run(text, pos);
    let at = pos + gap;
    if 0 <= at < text.len() && comparison(text[at]) is Some {
        let gap2 = blank_run(text, at + 1);
        match integer(text, at + 1 + gap2) {
            Ok((number, len)) => Ok(
                (
                    node(
                        Rule::NumIdent,
                        seq![literal, node(comparison(text[at])->Some_0, seq![number])],
                    ),
                    gap + 1 + gap2 + len,
                ),
            ),
            Err(fault) => Err(fault),
        }
    } else {
        Ok((literal, 0))
    }
}

/// Reads the options of a pick from `pos` on, up to the closing bracket.
/// `inner` holds the count and the options read so far.
pub open spec fn options(text: Seq<char>, pos: int, inner: Seq<ParseModel>) -> Read<ParseModel>
    decreases text.len() - pos,
{
    let gap = blank_run(text, pos);
    match name(text, pos + gap) {
        Ok((raw, len)) => {
            let gap2 = blank_run(text, pos + gap + len);
            let at = pos + gap + len + gap2;
            let inner2 = inner.push(leaf(Rule::Ident, raw));
            if 0 <= at < text.len() && text[at] == ',' {
                shifted(options(text, at + 1, inner2), (gap + len + gap2 + 1) as nat)
            } else if 0 <= at < text.len() && text[at] == ']' {
                Ok((node(Rule::PickMulti, inner2), gap + len + gap2 + 1))
            } else {
                Err((at, Expected::CommaOrBracket))
            }
        },
        Err(fault) => Err(fault),
    }
}

/// Reads a pick whose opening bracket stands just before `pos`.
pub open spec fn pick(text: Seq<char>, pos: int) -> Read<ParseModel> {
    let gap = blank_run(text, pos);
    match integer(text, pos + gap) {
        Ok((count, len)) => {
            let gap2 = blank_run(text, pos + gap + len);
            let at = pos + gap + len + gap2;
            if 0 <= at < text.len() && text[at] == ':' {
                shifted(options(text, at + 1, seq![count]), (gap + len + gap2 + 1) as nat)
            } else {
                Err((at, Expected::Colon))
            }
        },
        Err(fault) => Err(fault),
    }
}

/// Reads a literal whose name starts at `pos`, with what may follow it.
pub open spec fn literal(text: Seq<char>, pos: int, rule: Rule) -> Read<ParseModel> {
    match name(text, pos) {
        Ok((raw, len)) => shifted(after_literal(text, pos + len, leaf(rule, raw)), len),
        Err(fault) => Err(fault),
    }
}

/// The number of characters from `pos` to the end of the text.
pub open spec fn room(text: Seq<char>, pos: int) -> nat {
    if pos <= text.len() {
        (text.len() - pos) as nat
    } else {
        0
    }
}

/// Reads a term at `pos`, after any blanks.
pub open spec fn term(text: Seq<char>, pos: int) -> Read<ParseModel>
    decreases room(text, pos), 0int,
{
    let gap = blank_run(text, pos);
    let at = pos + gap;
    if !(0 <= at < text.len()) {
        Err((at, Expected::Term))
    } else if text[at] == '(' {
        shifted(group(text, at + 1), (gap + 1) as nat)
    } else if text[at] == '[' {
        shifted(pick(text, at + 1), (gap + 1) as nat)
    } else if keyword(text, at) == Some(Rule::Not) {
        shifted(negation(text, at + 3), (gap + 3) as nat)
    } else if text[at] == '~' {
        let gap2 = blank_run(text, at + 1);
        shifted(literal(text, at + 1 + gap2, Rule::ContainsIdent), (gap + 1 + gap2) as nat)
    } else if text[at] == '"' || starts_word(text, at) {
        shifted(literal(text, at, Rule::Ident), gap)
    } else {
        Err((at, Expected::Term))
    }
}

/// Reads a group whose opening parenthesis stands just before `pos`: a
/// sequence of terms and the closing parenthesis.
pub open spec fn group(text: Seq<char>, pos: int) -> Read<ParseModel>
    decreases room(text, pos), 2int,
{
    match exp(text, pos) {
        Ok((inside, len)) => {
            let gap = blank_run(text, pos + len);
            let close = pos + len + gap;
            if 0 <= close < text.len() && text[close] == ')' {
                Ok((inside, len + gap + 1))
            } else {
                Err((close, Expected::ClosingParen))
            }
        },
        Err(fault) => Err(fault),
    }
}

/// Reads the term that a `NOT` just before `pos` negates.
pub open spec fn negation(text: Seq<char>, pos: int) -> Read<ParseModel>
    decreases room(text, pos), 1int,
{
    match term(text, pos) {
        Ok((child, len)) => Ok((node(Rule::Not, seq![child]), len)),
        Err(fault) => Err(fault),
    }
}

/// Reads the terms that follow the first term of a sequence, each after its
/// `AND` or `OR`. `inner` holds the terms read so far.
pub open spec fn exp_rest(text: Seq<char>, pos: int, inner: Seq<ParseModel>) -> Read<ParseModel>
    decreases room(text, pos), 0int,
{
    let gap = blank_run(text, pos);
    let at = pos + gap;
    if !(0 <= at < text.len()) {
        Ok((node(Rule::Exp, inner), 0))
    } else if keyword(text, at) == Some(Rule::And) {
        match term(text, at + 3) {
            Ok((child, len)) => shifted(
                exp_rest(text, at + 3 + len, inner.push(node(Rule::And, seq![child]))),
                (gap + 3 + len) as nat,
            ),
            Err(fault) => Err(fault),
        }
    } else if keyword(text, at) == Some(Rule::Or) {
        match term(text, at + 2) {
            Ok((child, len)) => shifted(
                exp_rest(text, at + 2 + len, inner.push(node(Rule::Or, seq![child]))),
                (gap + 2 + len) as nat,
            ),
            Err(fault) => Err(fault),
        }
    } else {
        Ok((node(Rule::Exp, inner), 0))
    }
}

/// Reads a sequence of terms at `pos`.
pub open spec fn exp(text: Seq<char>, pos: int) -> Read<ParseModel>
    decreases room(text, pos), 1int,
{
    match term(text, pos) {
        Ok((first, len)) => shifted(exp_rest(text, pos + len, seq![first]), len),
        Err(fault) => Err(fault),
    }
}

/// Reads the rules of a file from `pos` on. `rules` holds those read so far.
pub open spec fn rules(text: Seq<char>, pos: int, rules: Seq<ParseModel>) -> Result<
    Seq<ParseModel>,
    Fault,
>
    decreases text.len() - pos,
{
    let at = pos + space_run(text, pos);
    if !(0 <= at < text.len()) {
        Ok(rules)
    } else {
        match exp(text, at) {
            Ok((rule, len)) => {
                let end = at + len + blank_run(text, at + len);
                if end >= text.len() {
                    Ok(rules.push(rule))
                } else if text[end] == '\n' {
                    self::rules(text, end + 1, rules.push(rule))
                } else {
                    Err((end, Expected::LineEnd))
                }
            },
            Err(fault) => Err(fault),
        }
    }
}

/// Reads a whole combo file: its rules, in order.
pub open spec fn file(text: Seq<char>) -> Result<Seq<ParseModel>, Fault> {
    rules(text, 0, Seq::empty())
}

} // verus!
