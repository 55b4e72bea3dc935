//! The parser of combo files: it reads a text as the grammar says and builds
//! the parse tree, or reports where the text stops fitting.

use vstd::prelude::*;
use vstd::slice::slice_subrange;
use crate::grammar::{
    after_literal, bare_len, blank_run, comparison, digit_run, exp, exp_rest, file, group, integer,
    is_blank, is_word_char, keyword, kw_and, kw_not, kw_or, leaf, literal, name, negation, node,
    options, pick, quote_scan, rules, space_run, starts_word, term, word_at, word_len, Expected,
    Fault, ParseModel, Read, Rule,
};
use crate::normalize::ESCAPE;
use crate::text::{chars_of, is_digit, parse_decimal, string_of};

verus! {

/// A node of the parse tree of a combo file.
#[derive(Debug, PartialEq, Eq)]
pub struct ParseNode {
    /// The kind of node.
    pub rule: Rule,
    /// The text of the token, for a name or a number; empty otherwise.
    pub text: String,
    /// The children, in the order in which they stand in the text.
    pub inner: Vec<ParseNode>,
}

impl ParseNode {
    /// The model of this node.
    pub open spec fn model(self) -> ParseModel
        decreases self,
    {
        ParseModel {
            rule: self.rule,
            text: self.text@,
            inner: Seq::new(
                self.inner@.len(),
                |i: int|
                    if 0 <= i < self.inner@.len() {
                        self.inner@[i].model()
                    } else {
                        leaf(Rule::Exp, Seq::empty())
                    },
            ),
        }
    }
}

impl View for ParseNode {
    type V = ParseModel;

    open spec fn view(&self) -> ParseModel {
        self.model()
    }
}

/// The models of a sequence of nodes.
pub open spec fn node_models(nodes: Seq<ParseNode>) -> Seq<ParseModel> {
    Seq::new(nodes.len(), |i: int| nodes[i]@)
}

/// Where a text stops fitting the grammar, and what was expected there.
#[derive(Clone, Copy, Debug, PartialEq, Eq, Structural)]
pub struct ParseError {
    /// The offending position, counted in characters from the start of the text.
    pub position: usize,
    /// What the grammar asks for at that position.
    pub expected: Expected,
}

/// Whether the outcome of reading at `pos` in a text of `limit` characters is
/// what the grammar reads there.
pub open spec fn agrees(
    outcome: Result<(ParseNode, usize), ParseError>,
    pos: usize,
    limit: nat,
    read: Read<ParseModel>,
) -> bool {
    match outcome {
        Ok((node, next)) => pos <= next <= limit && read == Ok::<(ParseModel, nat), Fault>(
            (node@, (next - pos) as nat),
        ),
        Err(error) => read == Err::<(ParseModel, nat), Fault>(
            (error.position as int, error.expected),
        ),
    }
}

/// A node that stands for a token.
fn make_leaf(rule: Rule, text: String) -> (made: ParseNode)
    ensures
        made@ == leaf(rule, text@),
{
    let made = ParseNode { rule, text, inner: Vec::new() };
    assert(made@.inner =~= Seq::<ParseModel>::empty());
    made
}

/// A node with children.
fn make_node(rule: Rule, inner: Vec<ParseNode>) -> (made: ParseNode)
    ensures
        made@ == node(rule, node_models(inner@)),
{
    let ghost models = node_models(inner@);
    let made = ParseNode { rule, text: String::new(), inner };
    assert(made@.inner =~= models);
    made
}

/// Tells whether a character is a blank.
fn is_blank_char(c: char) -> (blank: bool)
    ensures
        blank == is_blank(c),
{
    c == ' ' || c == '\t' || c == '\r'
}

/// Tells whether a character can stand in a word without an escape marker.
fn is_word_character(c: char) -> (word: bool)
    ensures
        word == is_word_char(c),
{
    !(is_blank_char(c) || c == '(' || c == ')' || c == '[' || c == ']' || c == ',' || c == ':'
        || c == '~' || c == '>' || c == '<' || c == '=' || c == '"' || c == '\n' || c == ESCAPE)
}

/// The position of the first character at or after `pos` that is no blank.
fn skip_blanks(text: &Vec<char>, pos: usize) -> (next: usize)
    requires
        pos <= text@.len(),
    ensures
        next == pos + blank_run(text@, pos as int),
        next <= text@.len(),
{
    let mut at = pos;
    while at < text.len() && is_blank_char(text[at])
        invariant
            pos <= at <= text@.len(),
            blank_run(text@, pos as int) == (at - pos) + blank_run(text@, at as int),
        decreases text@.len() - at,
    {
        at += 1;
    }
    at
}

/// The position of the first character at or after `pos` that is neither a
/// blank nor a line feed.
fn skip_space(text: &Vec<char>, pos: usize) -> (next: usize)
    requires
        pos <= text@.len(),
    ensures
        next == pos + space_run(text@, pos as int),
        next <= text@.len(),
{
    let mut at = pos;
    while at < text.len() && (is_blank_char(text[at]) || text[at] == '\n')
        invariant
            pos <= at <= text@.len(),
            space_run(text@, pos as int) == (at - pos) + space_run(text@, at as int),
        decreases text@.len() - at,
    {
        at += 1;
    }
    at
}

/// The position just after the digits that stand at `pos`.
fn scan_digits(text: &Vec<char>, pos: usize) -> (next: usize)
    requires
        pos <= text@.len(),
    ensures
        next == pos + digit_run(text@, pos as int),
        next <= text@.len(),
        forall|i: int| pos <= i < next ==> is_digit(text@[i]),
{
    let mut at = pos;
    while at < text.len() && '0' <= text[at] && text[at] <= '9'
        invariant
            pos <= at <= text@.len(),
            digit_run(text@, pos as int) == (at - pos) + digit_run(text@, at as int),
            forall|i: int| pos <= i < at ==> is_digit(text@[i]),
        decreases text@.len() - at,
    {
        at += 1;
    }
    at
}

/// The position just after the word that starts at `pos`.
fn scan_word(text: &Vec<char>, pos: usize) -> (next: usize)
    requires
        pos <= text@.len(),
    ensures
        next == pos + word_len(text@, pos as int),
        next <= text@.len(),
{
    let mut at = pos;
    loop
        invariant
            pos <= at <= text@.len(),
            word_len(text@, pos as int) == (at - pos) + word_len(text@, at as int),
        decreases text@.len() - at,
    {
        if at < text.len() && is_word_character(text[at]) {
            at += 1;
        } else if at < text.len() && text[at] == ESCAPE && at + 1 < text.len() && text[at + 1]
            != '\n' {
            at += 2;
        } else {
            return at;
        }
    }
}

/// The position of the next quote, line feed or end of the text from `pos` on.
fn scan_quoted(text: &Vec<char>, pos: usize) -> (next: usize)
    requires
        pos <= text@.len(),
    ensures
        next == pos + quote_scan(text@, pos as int),
        next <= text@.len(),
{
    let mut at = pos;
    loop
        invariant
            pos <= at <= text@.len(),
            quote_scan(text@, pos as int) == (at - pos) + quote_scan(text@, at as int),
        decreases text@.len() - at,
    {
        if at >= text.len() || text[at] == '\n' || text[at] == '"' {
            return at;
        } else if text[at] == ESCAPE && at + 1 < text.len() && text[at + 1] != '\n' {
            at += 2;
        } else {
            at += 1;
        }
    }
}

/// The keyword that the word at `pos` is, if it is one, as the kind of node
/// that the keyword makes.
fn keyword_at(text: &Vec<char>, pos: usize) -> (found: Option<Rule>)
    requires
        pos <= text@.len(),
    ensures
        found == keyword(text@, pos as int),
        found == Some(Rule::And) || found == Some(Rule::Not) ==> pos + 3 <= text@.len(),
        found == Some(Rule::Or) ==> pos + 2 <= text@.len(),
{
    let end = scan_word(text, pos);
    let ghost word = word_at(text@, pos as int);
    proof {
        reveal(keyword);
        assert(word.len() == end - pos);
        assert(kw_and().len() == 3 && kw_and()[0] == 'A' && kw_and()[1] == 'N' && kw_and()[2]
            == 'D');
        assert(kw_not().len() == 3 && kw_not()[0] == 'N' && kw_not()[1] == 'O' && kw_not()[2]
            == 'T');
        assert(kw_or().len() == 2 && kw_or()[0] == 'O' && kw_or()[1] == 'R');
    }
    if end - pos == 3 {
        assert(word[0] == text@[pos as int]);
        assert(word[1] == text@[pos + 1]);
        assert(word[2] == text@[pos + 2]);
        if text[pos] == 'A' && text[pos + 1] == 'N' && text[pos + 2] == 'D' {
            assert(word =~= kw_and());
            Some(Rule::And)
        } else if text[pos] == 'N' && text[pos + 1] == 'O' && text[pos + 2] == 'T' {
            assert(word =~= kw_not());
            Some(Rule::Not)
        } else {
            None
        }
    } else if end - pos == 2 {
        assert(word[0] == text@[pos as int]);
        assert(word[1] == text@[pos + 1]);
        if text[pos] == 'O' && text[pos + 1] == 'R' {
            assert(word =~= kw_or());
            Some(Rule::Or)
        } else {
            None
        }
    } else {
        None
    }
}

/// The position just after the unquoted name that starts at `pos`.
fn scan_bare(text: &Vec<char>, pos: usize) -> (next: usize)
    requires
        pos <= text@.len(),
        starts_word(text@, pos as int),
    ensures
        next == pos + bare_len(text@, pos as int),
        pos < next <= text@.len(),
{
    let mut end = scan_word(text, pos);
    let ghost mut start = pos as int;
    loop
        invariant
            pos <= start < end <= text@.len(),
            end == start + word_len(text@, start),
            bare_len(text@, pos as int) == (start - pos) + bare_len(text@, start),
        decreases text@.len() - end,
    {
        let gap_end = skip_blanks(text, end);
        let mut more = false;
        let mut word_end = gap_end;
        if gap_end > end {
            word_end = scan_word(text, gap_end);
            more = word_end > gap_end && keyword_at(text, gap_end).is_none();
        }
        if more {
            proof {
                start = gap_end as int;
            }
            end = word_end;
        } else {
            return end;
        }
    }
}

/// Reads a name at `pos`: its text and the position just after it.
fn parse_name(text: &Vec<char>, pos: usize) -> (outcome: Result<(String, usize), ParseError>)
    requires
        pos <= text@.len(),
    ensures
        match outcome {
            Ok((raw, next)) => pos < next <= text@.len() && name(text@, pos as int) == Ok::<
                (Seq<char>, nat),
                Fault,
            >((raw@, (next - pos) as nat)),
            Err(error) => name(text@, pos as int) == Err::<(Seq<char>, nat), Fault>(
                (error.position as int, error.expected),
            ),
        },
{
    if pos < text.len() && text[pos] == '"' {
        let close = scan_quoted(text, pos + 1);
        if close < text.len() && text[close] == '"' {
            let raw = string_of(slice_subrange(text.as_slice(), pos + 1, close));
            Ok((raw, close + 1))
        } else {
            Err(ParseError { position: close, expected: Expected::ClosingQuote })
        }
    } else {
        let end = scan_word(text, pos);
        if end > pos && keyword_at(text, pos).is_none() {
            let end = scan_bare(text, pos);
            let raw = string_of(slice_subrange(text.as_slice(), pos, end));
            Ok((raw, end))
        } else {
            Err(ParseError { position: pos, expected: Expected::Name })
        }
    }
}

/// Reads a number at `pos`.
fn parse_integer(text: &Vec<char>, pos: usize) -> (outcome: Result<(ParseNode, usize), ParseError>)
    requires
        pos <= text@.len(),
    ensures
        agrees(outcome, pos, text@.len(), integer(text@, pos as int)),
{
    let end = scan_digits(text, pos);
    if end == pos {
        return Err(ParseError { position: pos, expected: Expected::Integer });
    }
    match parse_decimal(text, pos, end) {
        Some(_) => {
            let digits = string_of(slice_subrange(text.as_slice(), pos, end));
            Ok((make_leaf(Rule::Number, digits), end))
        },
        None => Err(ParseError { position: pos, expected: Expected::IntegerThatFits }),
    }
}

/// Reads what may follow a literal that ends at `pos`.
fn parse_after_literal(text: &Vec<char>, pos: usize, literal: ParseNode) -> (outcome: Result<
    (ParseNode, usize),
    ParseError,
>)
    requires
        pos <= text@.len(),
    ensures
        agrees(outcome, pos, text@.len(), after_literal(text@, pos as int, literal@)),
{
    let at = skip_blanks(text, pos);
    if at < text.len() {
        let c = text[at];
        let rule = if c == '>' {
            Some(Rule::Greater)
        } else if c == '<' {
            Some(Rule::Less)
        } else if c == '=' {
            Some(Rule::Equal)
        } else {
            None
        };
        assert(rule == comparison(c));
        match rule {
            Some(rule) => {
                let start = skip_blanks(text, at + 1);
                match parse_integer(text, start) {
                    Ok((number, next)) => {
                        let ghost literal_model = literal@;
                        let ghost number_model = number@;
                        let mut of_comparison: Vec<ParseNode> = Vec::new();
                        of_comparison.push(number);
                        assert(node_models(of_comparison@) =~= seq![number_model]);
                        let compared = make_node(rule, of_comparison);
                        let ghost compared_model = compared@;
                        let mut inner: Vec<ParseNode> = Vec::new();
                        inner.push(literal);
                        inner.push(compared);
                        assert(node_models(inner@) =~= seq![literal_model, compared_model]);
                        Ok((make_node(Rule::NumIdent, inner), next))
                    },
                    Err(error) => Err(error),
                }
            },
            None => Ok((literal, pos)),
        }
    } else {
        Ok((literal, pos))
    }
}

/// Reads a literal whose name starts at `pos`, with what may follow it.
fn parse_literal(text: &Vec<char>, pos: usize, rule: Rule) -> (outcome: Result<
    (ParseNode, usize),
    ParseError,
>)
    requires
        pos <= text@.len(),
    ensures
        agrees(outcome, pos, text@.len(), literal(text@, pos as int, rule)),
        outcome is Ok ==> pos < outcome->Ok_0.1,
{
    match parse_name(text, pos) {
        Ok((raw, end)) => parse_after_literal(text, end, make_leaf(rule, raw)),
        Err(error) => Err(error),
    }
}

/// Reads the options of a pick from `pos` on, up to the closing bracket.
fn parse_options(text: &Vec<char>, pos: usize, inner: Vec<ParseNode>) -> (outcome: Result<
    (ParseNode, usize),
    ParseError,
>)
    requires
        pos <= text@.len(),
    ensures
        agrees(outcome, pos, text@.len(), options(text@, pos as int, node_models(inner@))),
    decreases text@.len() - pos,
{
    let start = skip_blanks(text, pos);
    match parse_name(text, start) {
        Ok((raw, end)) => {
            let at = skip_blanks(text, end);
            let ghost before = node_models(inner@);
            let mut inner = inner;
            let option = make_leaf(Rule::Ident, raw);
            let ghost option_model = option@;
            inner.push(option);
            assert(node_models(inner@) =~= before.push(option_model));
            if at < text.len() && text[at] == ',' {
                parse_options(text, at + 1, inner)
            } else if at < text.len() && text[at] == ']' {
                Ok((make_node(Rule::PickMulti, inner), at + 1))
            } else {
                Err(ParseError { position: at, expected: Expected::CommaOrBracket })
            }
        },
        Err(error) => Err(error),
    }
}

/// Reads a pick whose opening bracket stands just before `pos`.
fn parse_pick(text: &Vec<char>, pos: usize) -> (outcome: Result<(ParseNode, usize), ParseError>)
    requires
        pos <= text@.len(),
    ensures
        agrees(outcome, pos, text@.len(), pick(text@, pos as int)),
{
    let start = skip_blanks(text, pos);
    match parse_integer(text, start) {
        Ok((count, end)) => {
            let at = skip_blanks(text, end);
            if at < text.len() && text[at] == ':' {
                let ghost count_model = count@;
                let mut inner: Vec<ParseNode> = Vec::new();
                inner.push(count);
                assert(node_models(inner@) =~= seq![count_model]);
                parse_options(text, at + 1, inner)
            } else {
                Err(ParseError { position: at, expected: Expected::Colon })
            }
        },
        Err(error) => Err(error),
    }
}

/// Reads a term at `pos`, after any blanks.
fn parse_term(text: &Vec<char>, pos: usize) -> (outcome: Result<(ParseNode, usize), ParseError>)
    requires
        pos <= text@.len(),
    ensures
        agrees(outcome, pos, text@.len(), term(text@, pos as int)),
        outcome is Ok ==> pos < outcome->Ok_0.1,
    decreases text@.len() - pos, 0int,
{
    let at = skip_blanks(text, pos);
    if at >= text.len() {
        return Err(ParseError { position: at, expected: Expected::Term });
    }
    let c = text[at];
    if c == '(' {
        parse_group(text, at + 1)
    } else if c == '[' {
        parse_pick(text, at + 1)
    } else {
        let keyword = keyword_at(text, at);
        if let Some(Rule::Not) = keyword {
            parse_negation(text, at + 3)
        } else if c == '~' {
            let start = skip_blanks(text, at + 1);
            parse_literal(text, start, Rule::ContainsIdent)
        } else if c == '"' || (scan_word(text, at) > at && keyword.is_none()) {
            parse_literal(text, at, Rule::Ident)
        } else {
            Err(ParseError { position: at, expected: Expected::Term })
        }
    }
}

/// Reads a group whose opening parenthesis stands just before `pos`.
fn parse_group(text: &Vec<char>, pos: usize) -> (outcome: Result<(ParseNode, usize), ParseError>)
    requires
        pos <= text@.len(),
    ensures
        agrees(outcome, pos, text@.len(), group(text@, pos as int)),
    decreases text@.len() - pos, 2int,
{
    match parse_exp(text, pos) {
        Ok((inside, end)) => {
            let close = skip_blanks(text, end);
            if close < text.len() && text[close] == ')' {
                Ok((inside, close + 1))
            } else {
                Err(ParseError { position: close, expected: Expected::ClosingParen })
            }
        },
        Err(error) => Err(error),
    }
}

/// Reads the term that a `NOT` just before `pos` negates.
fn parse_negation(text: &Vec<char>, pos: usize) -> (outcome: Result<(ParseNode, usize), ParseError>)
    requires
        pos <= text@.len(),
    ensures
        agrees(outcome, pos, text@.len(), negation(text@, pos as int)),
    decreases text@.len() - pos, 1int,
{
    match parse_term(text, pos) {
        Ok((child, end)) => {
            let ghost child_model = child@;
            let mut inner: Vec<ParseNode> = Vec::new();
            inner.push(child);
            assert(node_models(inner@) =~= seq![child_model]);
            Ok((make_node(Rule::Not, inner), end))
        },
        Err(error) => Err(error),
    }
}

/// Reads the terms that follow the first term of a sequence.
fn parse_exp_rest(text: &Vec<char>, pos: usize, inner: Vec<ParseNode>) -> (outcome: Result<
    (ParseNode, usize),
    ParseError,
>)
    requires
        pos <= text@.len(),
    ensures
        agrees(outcome, pos, text@.len(), exp_rest(text@, pos as int, node_models(inner@))),
    decreases text@.len() - pos, 0int,
{
    let at = skip_blanks(text, pos);
    if at >= text.len() {
        return Ok((make_node(Rule::Exp, inner), pos));
    }
    let keyword = keyword_at(text, at);
    let connective = match keyword {
        Some(Rule::And) => Some((Rule::And, 3usize)),
        Some(Rule::Or) => Some((Rule::Or, 2usize)),
        _ => None,
    };
    match connective {
        Some((rule, width)) => {
            match parse_term(text, at + width) {
                Ok((child, end)) => {
                    let ghost child_model = child@;
                    let ghost before = node_models(inner@);
                    let mut of_connective: Vec<ParseNode> = Vec::new();
                    of_connective.push(child);
                    assert(node_models(of_connective@) =~= seq![child_model]);
                    let joined = make_node(rule, of_connective);
                    let ghost joined_model = joined@;
                    let mut inner = inner;
                    inner.push(joined);
                    assert(node_models(inner@) =~= before.push(joined_model));
                    parse_exp_rest(text, end, inner)
                },
                Err(error) => Err(error),
            }
        },
        None => Ok((make_node(Rule::Exp, inner), pos)),
    }
}

/// Reads a sequence of terms at `pos`.
fn parse_exp(text: &Vec<char>, pos: usize) -> (outcome: Result<(ParseNode, usize), ParseError>)
    requires
        pos <= text@.len(),
    ensures
        agrees(outcome, pos, text@.len(), exp(text@, pos as int)),
        outcome is Ok ==> pos < outcome->Ok_0.1,
    decreases text@.len() - pos, 1int,
{
    match parse_term(text, pos) {
        Ok((first, end)) => {
            let ghost first_model = first@;
            let mut inner: Vec<ParseNode> = Vec::new();
            inner.push(first);
            assert(node_models(inner@) =~= seq![first_model]);
            parse_exp_rest(text, end, inner)
        },
        Err(error) => Err(error),
    }
}

/// Reads a combo file: the parse trees of its rules, in order, or the first
/// place where the text does not fit the grammar.
pub fn parse_file(text: &str) -> (outcome: Result<Vec<ParseNode>, ParseError>)
    ensures
        match outcome {
            Ok(trees) => file(text@) == Ok::<Seq<ParseModel>, Fault>(node_models(trees@)),
            Err(error) => file(text@) == Err::<Seq<ParseModel>, Fault>(
                (error.position as int, error.expected),
            ),
        },
{
    let chars = chars_of(text);
    let mut trees: Vec<ParseNode> = Vec::new();
    let mut pos: usize = 0;
    assert(node_models(trees@) =~= Seq::<ParseModel>::empty());
    loop
        invariant
            chars@ == text@,
            pos <= chars@.len(),
            file(text@) == rules(chars@, pos as int, node_models(trees@)),
        decreases chars@.len() - pos,
    {
        let at = skip_space(&chars, pos);
        if at >= chars.len() {
            return Ok(trees);
        }
        match parse_exp(&chars, at) {
            Ok((rule, next)) => {
                let end = skip_blanks(&chars, next);
                let ghost before = node_models(trees@);
                let ghost rule_model = rule@;
                trees.push(rule);
                assert(node_models(trees@) =~= before.push(rule_model));
                if end >= chars.len() {
                    return Ok(trees);
                } else if chars[end] == '\n' {
                    pos = end + 1;
                } else {
                    return Err(ParseError { position: end, expected: Expected::LineEnd });
                }
            },
            Err(error) => {
                return Err(error);
            },
        }
    }
}

} // verus!
