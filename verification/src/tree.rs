//! The expression tree of a combo rule, and its mathematical model.

use vstd::prelude::*;
use crate::grammar::{ParseModel, Rule};
use crate::normalize::{is_normal, lemma_normalized_is_normal, normalize_string, normalized};
use crate::parser::ParseNode;
use crate::text::{names, number_of, parse_number};

verus! {

/// How the number of matching cards is compared with a threshold.
#[derive(Clone, Copy, Debug, PartialEq, Eq, Structural)]
pub enum Comparator {
    Greater,
    Less,
    Equal,
}

/// The literal that a counted-occurrence condition counts.
#[derive(Debug, PartialEq, Eq)]
pub enum Target {
    /// Cards whose name is exactly the literal.
    Ident(String),
    /// Cards whose name contains the literal.
    ContainsIdent(String),
}

/// One node of a combo rule. The tree builder leaves every literal in
/// normalized form.
#[derive(Debug, PartialEq, Eq)]
pub enum RuleTree {
    /// Some card has exactly this name.
    Ident(String),
    /// Some card's name contains this text.
    ContainsIdent(String),
    /// The number of cards matching the target compares as stated with the threshold.
    NumIdent(Target, Comparator, usize),
    /// The child does not hold.
    Not(Box<RuleTree>),
    /// A term joined to what precedes it in a sequence by `AND`.
    And(Box<RuleTree>),
    /// A term joined to what precedes it in a sequence by `OR`.
    Or(Box<RuleTree>),
    /// A sequence of terms, evaluated from left to right.
    Exp(Vec<RuleTree>),
    /// At least this many of the named options are in the hand, no card
    /// standing for two options.
    PickMulti(usize, Vec<String>),
    /// A node of no known kind; it never holds.
    Unknown,
}

/// The model of a [`Target`].
pub ghost enum TargetModel {
    Ident(Seq<char>),
    ContainsIdent(Seq<char>),
}

/// The model of a [`RuleTree`]: the same tree over sequences of characters.
pub ghost enum Expr {
    Ident(Seq<char>),
    ContainsIdent(Seq<char>),
    NumIdent(TargetModel, Comparator, nat),
    Not(Box<Expr>),
    And(Box<Expr>),
    Or(Box<Expr>),
    Exp(Seq<Expr>),
    PickMulti(nat, Seq<Seq<char>>),
    Unknown,
}

impl View for Target {
    type V = TargetModel;

    open spec fn view(&self) -> TargetModel {
        match self {
            Target::Ident(name) => TargetModel::Ident(name@),
            Target::ContainsIdent(part) => TargetModel::ContainsIdent(part@),
        }
    }
}

impl RuleTree {
    /// The model of this tree.
    pub open spec fn model(self) -> Expr
        decreases self,
    {
        match self {
            RuleTree::Ident(name) => Expr::Ident(name@),
            RuleTree::ContainsIdent(part) => Expr::ContainsIdent(part@),
            RuleTree::NumIdent(target, comparator, threshold) => Expr::NumIdent(
                target@,
                comparator,
                threshold as nat,
            ),
            RuleTree::Not(child) => Expr::Not(Box::new(child.model())),
            RuleTree::And(child) => Expr::And(Box::new(child.model())),
            RuleTree::Or(child) => Expr::Or(Box::new(child.model())),
            RuleTree::Exp(children) => Expr::Exp(
                Seq::new(
                    children@.len(),
                    |i: int|
                        if 0 <= i < children@.len() {
                            children@[i].model()
                        } else {
                            Expr::Unknown
                        },
                ),
            ),
            RuleTree::PickMulti(count, options) => Expr::PickMulti(count as nat, names(options@)),
            RuleTree::Unknown => Expr::Unknown,
        }
    }
}

impl View for RuleTree {
    type V = Expr;

    open spec fn view(&self) -> Expr {
        self.model()
    }
}

/// The models of a sequence of trees.
pub open spec fn models(trees: Seq<RuleTree>) -> Seq<Expr> {
    Seq::new(trees.len(), |i: int| trees[i]@)
}

/// The comparator that a kind of node stands for, if any.
pub open spec fn comparator_of(rule: Rule) -> Option<Comparator> {
    match rule {
        Rule::Greater => Some(Comparator::Greater),
        Rule::Less => Some(Comparator::Less),
        Rule::Equal => Some(Comparator::Equal),
        _ => None,
    }
}

/// The target that a literal node stands for, if it is a literal.
pub open spec fn target_of(node: ParseModel) -> Option<TargetModel> {
    match node.rule {
        Rule::Ident => Some(TargetModel::Ident(normalized(node.text))),
        Rule::ContainsIdent => Some(TargetModel::ContainsIdent(normalized(node.text))),
        _ => None,
    }
}

/// The number that the first child of a node holds, if it has a child and
/// that child's text is a number.
pub open spec fn first_number(node: ParseModel) -> Option<nat> {
    if node.inner.len() >= 1 {
        number_of(node.inner[0].text)
    } else {
        None
    }
}

/// The normalized names of those of the nodes that are exact-match
/// literals, in order.
pub open spec fn option_names(nodes: Seq<ParseModel>) -> Seq<Seq<char>>
    decreases nodes.len(),
{
    if nodes.len() == 0 {
        Seq::empty()
    } else if nodes.last().rule == Rule::Ident {
        option_names(nodes.drop_last()).push(normalized(nodes.last().text))
    } else {
        option_names(nodes.drop_last())
    }
}

/// The expression that a parse tree stands for. Literals are normalized; a
/// node whose kind or shape fits no expression becomes `Unknown`.
pub open spec fn tree_of(node: ParseModel) -> Expr
    decreases node,
{
    match node.rule {
        Rule::Ident => Expr::Ident(normalized(node.text)),
        Rule::ContainsIdent => Expr::ContainsIdent(normalized(node.text)),
        Rule::NumIdent => if node.inner.len() >= 2 {
            match (
                target_of(node.inner[0]),
                comparator_of(node.inner[1].rule),
                first_number(node.inner[1]),
            ) {
                (Some(target), Some(comparator), Some(threshold)) => Expr::NumIdent(
                    target,
                    comparator,
                    threshold,
                ),
                _ => Expr::Unknown,
            }
        } else {
            Expr::Unknown
        },
        Rule::Not => if node.inner.len() >= 1 {
            Expr::Not(Box::new(tree_of(node.inner[0])))
        } else {
            Expr::Unknown
        },
        Rule::And => if node.inner.len() >= 1 {
            Expr::And(Box::new(tree_of(node.inner[0])))
        } else {
            Expr::Unknown
        },
        Rule::Or => if node.inner.len() >= 1 {
            Expr::Or(Box::new(tree_of(node.inner[0])))
        } else {
            Expr::Unknown
        },
        Rule::Exp => Expr::Exp(
            Seq::new(
                node.inner.len(),
                |i: int|
                    if 0 <= i < node.inner.len() {
                        tree_of(node.inner[i])
                    } else {
                        Expr::Unknown
                    },
            ),
        ),
        Rule::PickMulti => match first_number(node) {
            Some(count) => Expr::PickMulti(count, option_names(node.inner.skip(1))),
            None => Expr::Unknown,
        },
        _ => Expr::Unknown,
    }
}

/// Whether every literal of an expression is in normalized form.
pub open spec fn literals_normal(expr: Expr) -> bool
    decreases expr,
{
    match expr {
        Expr::Ident(name) => is_normal(name),
        Expr::ContainsIdent(part) => is_normal(part),
        Expr::NumIdent(TargetModel::Ident(name), _, _) => is_normal(name),
        Expr::NumIdent(TargetModel::ContainsIdent(part), _, _) => is_normal(part),
        Expr::Not(child) => literals_normal(*child),
        Expr::And(child) => literals_normal(*child),
        Expr::Or(child) => literals_normal(*child),
        Expr::Exp(terms) => forall|i: int|
            0 <= i < terms.len() ==> literals_normal(#[trigger] terms[i]),
        Expr::PickMulti(_, options) => forall|i: int|
            0 <= i < options.len() ==> is_normal(#[trigger] options[i]),
        Expr::Unknown => true,
    }
}

/// The names of the options of a pick are in normalized form.
proof fn lemma_option_names_are_normal(nodes: Seq<ParseModel>)
    ensures
        forall|i: int|
            0 <= i < option_names(nodes).len() ==> is_normal(#[trigger] option_names(nodes)[i]),
    decreases nodes.len(),
{
    if nodes.len() > 0 {
        lemma_option_names_are_normal(nodes.drop_last());
        lemma_normalized_is_normal(nodes.last().text);
        let before = option_names(nodes.drop_last());
        assert forall|i: int| 0 <= i < option_names(nodes).len() implies is_normal(
            #[trigger] option_names(nodes)[i],
        ) by {
            if i < before.len() {
                assert(option_names(nodes)[i] == before[i]);
            }
        }
    }
}

/// Whatever the parse tree, every literal of the expression built from it is
/// in normalized form.
pub proof fn lemma_built_literals_are_normal(node: ParseModel)
    ensures
        literals_normal(tree_of(node)),
    decreases node,
{
    lemma_normalized_is_normal(node.text);
    match node.rule {
        Rule::NumIdent => {
            if node.inner.len() >= 2 {
                lemma_normalized_is_normal(node.inner[0].text);
            }
        },
        Rule::Not | Rule::And | Rule::Or => {
            if node.inner.len() >= 1 {
                lemma_built_literals_are_normal(node.inner[0]);
            }
        },
        Rule::Exp => {
            let terms = tree_of(node)->Exp_0;
            assert forall|i: int| 0 <= i < terms.len() implies literals_normal(
                #[trigger] terms[i],
            ) by {
                lemma_built_literals_are_normal(node.inner[i]);
            }
        },
        Rule::PickMulti => {
            lemma_option_names_are_normal(node.inner.skip(1));
        },
        _ => {},
    }
}

/// The target of a counted condition, from the literal node that names it.
fn create_target(literal: &ParseNode) -> (target: Option<Target>)
    ensures
        match target {
            Some(t) => target_of(literal@) == Some(t@),
            None => target_of(literal@) is None,
        },
{
    match literal.rule {
        Rule::Ident => Some(Target::Ident(normalize_string(literal.text.clone()))),
        Rule::ContainsIdent => Some(
            Target::ContainsIdent(normalize_string(literal.text.clone())),
        ),
        _ => None,
    }
}

/// The number that the first child of a node holds.
fn read_first_number(node: &ParseNode) -> (value: Option<usize>)
    ensures
        match value {
            Some(v) => first_number(node@) == Some(v as nat),
            None => first_number(node@) is None,
        },
{
    if node.inner.len() >= 1 {
        assert(node@.inner[0] == node.inner@[0]@);
        parse_number(node.inner[0].text.as_str())
    } else {
        None
    }
}

/// The normalized names of the options of a pick: its children after the
/// count, as far as they are exact-match literals.
fn create_options(node: &ParseNode) -> (options: Vec<String>)
    requires
        node.inner@.len() >= 1,
    ensures
        names(options@) == option_names(node@.inner.skip(1)),
{
    let mut options: Vec<String> = Vec::new();
    let mut at: usize = 1;
    let ghost rest = node@.inner.skip(1);
    assert(rest.take(0) =~= Seq::<ParseModel>::empty());
    while at < node.inner.len()
        invariant
            1 <= at <= node.inner@.len(),
            rest == node@.inner.skip(1),
            names(options@) == option_names(rest.take(at - 1)),
        decreases node.inner@.len() - at,
    {
        let option = &node.inner[at];
        proof {
            assert(rest.take(at as int).drop_last() =~= rest.take(at - 1));
            assert(rest.take(at as int).last() == option@);
        }
        if let Rule::Ident = option.rule {
            let ghost before = names(options@);
            let name = normalize_string(option.text.clone());
            let ghost added = name@;
            options.push(name);
            assert(names(options@) =~= before.push(added));
        }
        at += 1;
    }
    assert(rest.take(at - 1) =~= rest);
    options
}

/// Builds the expression tree of a rule from its parse tree, normalizing
/// each literal once.
pub fn create_tree(rule: &ParseNode) -> (tree: RuleTree)
    ensures
        tree@ == tree_of(rule@),
        literals_normal(tree@),
    decreases rule,
{
    proof {
        lemma_built_literals_are_normal(rule@);
    }
    match rule.rule {
        Rule::Ident => RuleTree::Ident(normalize_string(rule.text.clone())),
        Rule::ContainsIdent => RuleTree::ContainsIdent(normalize_string(rule.text.clone())),
        Rule::NumIdent => {
            if rule.inner.len() < 2 {
                return RuleTree::Unknown;
            }
            let comparator = match rule.inner[1].rule {
                Rule::Greater => Some(Comparator::Greater),
                Rule::Less => Some(Comparator::Less),
                Rule::Equal => Some(Comparator::Equal),
                _ => None,
            };
            match (create_target(&rule.inner[0]), comparator, read_first_number(&rule.inner[1])) {
                (Some(target), Some(comparator), Some(threshold)) => RuleTree::NumIdent(
                    target,
                    comparator,
                    threshold,
                ),
                _ => RuleTree::Unknown,
            }
        },
        Rule::Not => {
            if rule.inner.len() >= 1 {
                RuleTree::Not(Box::new(create_tree(&rule.inner[0])))
            } else {
                RuleTree::Unknown
            }
        },
        Rule::And => {
            if rule.inner.len() >= 1 {
                RuleTree::And(Box::new(create_tree(&rule.inner[0])))
            } else {
                RuleTree::Unknown
            }
        },
        Rule::Or => {
            if rule.inner.len() >= 1 {
                RuleTree::Or(Box::new(create_tree(&rule.inner[0])))
            } else {
                RuleTree::Unknown
            }
        },
        Rule::Exp => {
            let mut inner: Vec<RuleTree> = Vec::new();
            let mut at: usize = 0;
            while at < rule.inner.len()
                invariant
                    at <= rule.inner@.len(),
                    inner@.len() == at,
                    forall|i: int|
                        0 <= i < at ==> (#[trigger] inner@[i])@ == tree_of(rule@.inner[i]),
                decreases rule.inner@.len() - at,
            {
                let child = create_tree(&rule.inner[at]);
                inner.push(child);
                at += 1;
            }
            let tree = RuleTree::Exp(inner);
            assert(tree@->Exp_0 =~= tree_of(rule@)->Exp_0);
            tree
        },
        Rule::PickMulti => {
            match read_first_number(rule) {
                Some(count) => RuleTree::PickMulti(count, create_options(rule)),
                None => RuleTree::Unknown,
            }
        },
        _ => RuleTree::Unknown,
    }
}

} // verus!
