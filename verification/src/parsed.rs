//! What holds of the trees that the parser builds: every node has the shape
//! that the tree builder expects, so no rule read from a file holds a node of
//! unknown kind.

use vstd::prelude::*;
use crate::grammar::{
    after_literal, blank_run, comparison, digit_run, exp, exp_rest, file, group, integer, keyword,
    leaf, literal, name, negation, node, options, pick, room, rules, space_run, term, ParseModel,
    Rule,
};
use crate::text::{is_digit, number_of};
use crate::tree::{comparator_of, first_number, target_of, tree_of, Expr};

verus! {

/// Whether an expression holds no node of unknown kind.
pub open spec fn known(expr: Expr) -> bool
    decreases expr,
{
    match expr {
        Expr::Unknown => false,
        Expr::Not(child) => known(*child),
        Expr::And(child) => known(*child),
        Expr::Or(child) => known(*child),
        Expr::Exp(terms) => forall|i: int| 0 <= i < terms.len() ==> known(#[trigger] terms[i]),
        _ => true,
    }
}

/// Whether a parse tree has the shape of a term: each node is of a kind that
/// stands for an expression and has the children that its kind needs.
pub open spec fn well_formed(tree: ParseModel) -> bool
    decreases tree,
{
    match tree.rule {
        Rule::Ident => true,
        Rule::ContainsIdent => true,
        Rule::NumIdent => {
            &&& tree.inner.len() >= 2
            &&& target_of(tree.inner[0]) is Some
            &&& comparator_of(tree.inner[1].rule) is Some
            &&& first_number(tree.inner[1]) is Some
        },
        Rule::Not => tree.inner.len() >= 1 && well_formed(tree.inner[0]),
        Rule::And => tree.inner.len() >= 1 && well_formed(tree.inner[0]),
        Rule::Or => tree.inner.len() >= 1 && well_formed(tree.inner[0]),
        Rule::Exp => forall|i: int|
            0 <= i < tree.inner.len() ==> well_formed(#[trigger] tree.inner[i]),
        Rule::PickMulti => first_number(tree) is Some,
        _ => false,
    }
}

/// The expression of a well-formed parse tree holds no node of unknown kind.
pub proof fn lemma_well_formed_is_known(tree: ParseModel)
    requires
        well_formed(tree),
    ensures
        known(tree_of(tree)),
    decreases tree,
{
    match tree.rule {
        Rule::Not => lemma_well_formed_is_known(tree.inner[0]),
        Rule::And => lemma_well_formed_is_known(tree.inner[0]),
        Rule::Or => lemma_well_formed_is_known(tree.inner[0]),
        Rule::Exp => {
            let terms = tree_of(tree)->Exp_0;
            assert forall|i: int| 0 <= i < terms.len() implies known(#[trigger] terms[i]) by {
                assert(well_formed(tree.inner[i]));
                lemma_well_formed_is_known(tree.inner[i]);
            }
        },
        _ => {},
    }
}

/// The characters of a run of digits are digits, and they lie in the text.
proof fn lemma_digit_run(text: Seq<char>, pos: int)
    requires
        0 <= pos,
    ensures
        digit_run(text, pos) > 0 ==> pos + digit_run(text, pos) <= text.len(),
        forall|i: int| pos <= i < pos + digit_run(text, pos) ==> is_digit(#[trigger] text[i]),
    decreases text.len() - pos,
{
    if pos < text.len() && is_digit(text[pos]) {
        lemma_digit_run(text, pos + 1);
    }
}

/// The text of a number read by the grammar is a number.
proof fn lemma_integer(text: Seq<char>, pos: int)
    requires
        0 <= pos,
    ensures
        integer(text, pos) matches Ok((number, len)) ==> number_of(number.text) is Some,
{
    lemma_digit_run(text, pos);
}

/// What a literal becomes with what follows it is well formed.
proof fn lemma_after_literal(text: Seq<char>, pos: int, given: ParseModel)
    requires
        0 <= pos,
        given.rule == Rule::Ident || given.rule == Rule::ContainsIdent,
    ensures
        after_literal(text, pos, given) matches Ok((tree, len)) ==> well_formed(tree),
{
    let at = pos + blank_run(text, pos);
    if 0 <= at < text.len() && comparison(text[at]) is Some {
        lemma_integer(text, at + 1 + blank_run(text, at + 1));
    }
}

/// A literal read by the grammar is well formed.
proof fn lemma_literal(text: Seq<char>, pos: int, rule: Rule)
    requires
        0 <= pos,
        rule == Rule::Ident || rule == Rule::ContainsIdent,
    ensures
        literal(text, pos, rule) matches Ok((tree, len)) ==> well_formed(tree),
{
    match name(text, pos) {
        Ok((raw, len)) => lemma_after_literal(text, pos + len, leaf(rule, raw)),
        Err(_) => {},
    }
}

/// A pick read by the grammar is well formed, given that its count is a number.
proof fn lemma_options(text: Seq<char>, pos: int, inner: Seq<ParseModel>)
    requires
        0 <= pos,
        inner.len() >= 1,
        number_of(inner[0].text) is Some,
    ensures
        options(text, pos, inner) matches Ok((tree, len)) ==> well_formed(tree),
    decreases text.len() - pos,
{
    let gap = blank_run(text, pos);
    match name(text, pos + gap) {
        Ok((raw, len)) => {
            let at = pos + gap + len + blank_run(text, pos + gap + len);
            let inner2 = inner.push(leaf(Rule::Ident, raw));
            if 0 <= at < text.len() && text[at] == ',' {
                lemma_options(text, at + 1, inner2);
            }
        },
        Err(_) => {},
    }
}

/// A pick read by the grammar is well formed.
proof fn lemma_pick(text: Seq<char>, pos: int)
    requires
        0 <= pos,
    ensures
        pick(text, pos) matches Ok((tree, len)) ==> well_formed(tree),
{
    let gap = blank_run(text, pos);
    lemma_integer(text, pos + gap);
    match integer(text, pos + gap) {
        Ok((count, len)) => {
            let at = pos + gap + len + blank_run(text, pos + gap + len);
            if 0 <= at < text.len() && text[at] == ':' {
                lemma_options(text, at + 1, seq![count]);
            }
        },
        Err(_) => {},
    }
}

/// A term read by the grammar is well formed.
proof fn lemma_term(text: Seq<char>, pos: int)
    requires
        0 <= pos,
    ensures
        term(text, pos) matches Ok((tree, len)) ==> well_formed(tree),
    decreases room(text, pos), 0int,
{
    let gap = blank_run(text, pos);
    let at = pos + gap;
    if !(0 <= at < text.len()) {
    } else if text[at] == '(' {
        lemma_group(text, at + 1);
    } else if text[at] == '[' {
        lemma_pick(text, at + 1);
    } else if keyword(text, at) == Some(Rule::Not) {
        lemma_negation(text, at + 3);
    } else if text[at] == '~' {
        lemma_literal(text, at + 1 + blank_run(text, at + 1), Rule::ContainsIdent);
    } else {
        lemma_literal(text, at, Rule::Ident);
    }
}

/// A group read by the grammar is well formed.
proof fn lemma_group(text: Seq<char>, pos: int)
    requires
        0 <= pos,
    ensures
        group(text, pos) matches Ok((tree, len)) ==> well_formed(tree),
    decreases room(text, pos), 2int,
{
    lemma_exp(text, pos);
}

/// A negation read by the grammar is well formed.
proof fn lemma_negation(text: Seq<char>, pos: int)
    requires
        0 <= pos,
    ensures
        negation(text, pos) matches Ok((tree, len)) ==> well_formed(tree),
    decreases room(text, pos), 1int,
{
    lemma_term(text, pos);
}

/// A sequence read by the grammar is well formed, given that the terms read
/// so far are.
proof fn lemma_exp_rest(text: Seq<char>, pos: int, inner: Seq<ParseModel>)
    requires
        0 <= pos,
        forall|i: int| 0 <= i < inner.len() ==> well_formed(#[trigger] inner[i]),
    ensures
        exp_rest(text, pos, inner) matches Ok((tree, len)) ==> well_formed(tree),
    decreases room(text, pos), 0int,
{
    let gap = blank_run(text, pos);
    let at = pos + gap;
    if !(0 <= at < text.len()) {
    } else if keyword(text, at) == Some(Rule::And) {
        lemma_term(text, at + 3);
        match term(text, at + 3) {
            Ok((child, len)) => {
                let joined = node(Rule::And, seq![child]);
                assert(well_formed(joined));
                lemma_exp_rest(text, at + 3 + len, inner.push(joined));
            },
            Err(_) => {},
        }
    } else if keyword(text, at) == Some(Rule::Or) {
        lemma_term(text, at + 2);
        match term(text, at + 2) {
            Ok((child, len)) => {
                let joined = node(Rule::Or, seq![child]);
                assert(well_formed(joined));
                lemma_exp_rest(text, at + 2 + len, inner.push(joined));
            },
            Err(_) => {},
        }
    }
}

/// A sequence read by the grammar is well formed.
proof fn lemma_exp(text: Seq<char>, pos: int)
    requires
        0 <= pos,
    ensures
        exp(text, pos) matches Ok((tree, len)) ==> well_formed(tree),
    decreases room(text, pos), 1int,
{
    lemma_term(text, pos);
    match term(text, pos) {
        Ok((first, len)) => lemma_exp_rest(text, pos + len, seq![first]),
        Err(_) => {},
    }
}

/// The rules read by the grammar are well formed, given that those read so
/// far are.
proof fn lemma_rules(text: Seq<char>, pos: int, read: Seq<ParseModel>)
    requires
        0 <= pos,
        forall|i: int| 0 <= i < read.len() ==> well_formed(#[trigger] read[i]),
    ensures
        rules(text, pos, read) matches Ok(trees) ==> forall|i: int|
            0 <= i < trees.len() ==> well_formed(#[trigger] trees[i]),
    decreases text.len() - pos,
{
    let at = pos + space_run(text, pos);
    if 0 <= at < text.len() {
        lemma_exp(text, at);
        match exp(text, at) {
            Ok((rule, len)) => {
                let end = at + len + blank_run(text, at + len);
                if end < text.len() && text[end] == '\n' {
                    lemma_rules(text, end + 1, read.push(rule));
                }
            },
            Err(_) => {},
        }
    }
}

/// The rules read from a file are well formed, and their expressions hold no
/// node of unknown kind.
pub proof fn lemma_parsed_rules_are_known(text: Seq<char>)
    ensures
        file(text) matches Ok(trees) ==> forall|i: int|
            0 <= i < trees.len() ==> well_formed(#[trigger] trees[i]) && known(
                tree_of(trees[i]),
            ),
{
    lemma_rules(text, 0, Seq::empty());
    match file(text) {
        Ok(trees) => {
            assert forall|i: int| 0 <= i < trees.len() implies well_formed(#[trigger] trees[i])
                && known(tree_of(trees[i])) by {
                lemma_well_formed_is_known(trees[i]);
            }
        },
        Err(_) => {},
    }
}

} // verus!
