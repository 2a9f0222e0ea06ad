use crate::element::{ElementView, ExpressionView, LoopRange, Maxable};
use crate::class::regex_find_start;
use crate::tree::{expand_children, line_table, position_in, ChildView, NodeView};
use crate::{find_rule, VoltView};
use vstd::prelude::*;

verus! {

/// Why a parse is given up.
pub enum ParserErrorView {
    NoMatchedRule,
    RuleNotExists { id: Seq<char> },
    ExceededMaxRecursion,
}

/// What a parse runs on: the rules and the input, in scalars.
pub struct Setting {
    pub grammar: VoltView,
    pub input: Seq<char>,
}

/// What comes of matching an element at a place of the input.
pub enum Outcome {
    /// The element matches up to `index`, and emits these children.
    Matched { children: Seq<ChildView>, index: nat },
    /// The element does not match here.
    Failed,
    /// The parse as a whole is given up.
    Fatal { error: ParserErrorView },
}

/// The leaf for the input from `index` on that reads `value`.
pub open spec fn leaf_at(setting: Setting, index: nat, value: Seq<char>) -> ChildView {
    ChildView::Leaf { start: position_in(line_table(setting.input), index as usize), value }
}

/// A match that emitted `children`, followed by `rest`.
pub open spec fn continued(children: Seq<ChildView>, rest: Outcome) -> Outcome {
    match rest {
        Outcome::Matched { children: more, index } => Outcome::Matched {
            children: children + more,
            index,
        },
        other => other,
    }
}

pub open spec fn rule_reference(id: Seq<char>) -> ElementView {
    ElementView::Expression(ExpressionView::Rule(id))
}

/// How a loop ends that has gone round `count` times and stands at `index`.
pub open spec fn loop_end(range: LoopRange, count: nat, index: nat) -> Outcome {
    if count >= range.min {
        Outcome::Matched { children: Seq::empty(), index }
    } else {
        Outcome::Failed
    }
}

/// How far a loop is from its end: the rounds that are left where there is a
/// limit, the input that is left where there is none.
pub open spec fn loop_budget(setting: Setting, range: LoopRange, index: nat, count: nat) -> nat {
    match range.max {
        Maxable::Max(max) => if max >= count {
            (max - count) as nat
        } else {
            0
        },
        Maxable::NoLimit => if setting.input.len() >= index {
            (setting.input.len() - index) as nat
        } else {
            0
        },
    }
}

/// What matching `element` gives where the input has been consumed up to
/// `index` and `depth` rules are active. A rule that is referred to is looked
/// up first, and then held against the limit of active rules; its children
/// stand under a node of its name. A fatal outcome of a part is the outcome
/// of the whole, whatever stands around it.
pub open spec fn evaluate(setting: Setting, element: ElementView, index: nat, depth: nat) -> Outcome
    decreases setting.grammar.max_recursion - depth, element, 0nat, 0nat,
{
    match element {
        ElementView::Expression(ExpressionView::Rule(id)) => match find_rule(
            setting.grammar.rules,
            id,
        ) {
            None => Outcome::Fatal { error: ParserErrorView::RuleNotExists { id } },
            Some(body) => if depth >= setting.grammar.max_recursion {
                Outcome::Fatal { error: ParserErrorView::ExceededMaxRecursion }
            } else {
                match evaluate(setting, body, index, depth + 1) {
                    Outcome::Matched { children, index: next } => Outcome::Matched {
                        children: seq![ChildView::Node { name: id, children }],
                        index: next,
                    },
                    other => other,
                }
            },
        },
        ElementView::Expression(ExpressionView::String(value)) => if index + value.len()
            <= setting.input.len() && setting.input.subrange(
            index as int,
            (index + value.len()) as int,
        ) == value {
            Outcome::Matched {
                children: seq![leaf_at(setting, index, value)],
                index: index + value.len(),
            }
        } else {
            Outcome::Failed
        },
        ElementView::Expression(ExpressionView::CharacterClass(regex)) => if index
            < setting.input.len() && regex_find_start(regex, seq![setting.input[index as int]])
            == Some(0usize) {
            Outcome::Matched {
                children: seq![leaf_at(setting, index, seq![setting.input[index as int]])],
                index: index + 1,
            }
        } else {
            Outcome::Failed
        },
        ElementView::Expression(ExpressionView::Wildcard) => if index < setting.input.len() {
            Outcome::Matched {
                children: seq![leaf_at(setting, index, seq![setting.input[index as int]])],
                index: index + 1,
            }
        } else {
            Outcome::Failed
        },
        ElementView::Choice(elements) => evaluate_choice(setting, elements, index, depth),
        ElementView::Sequence(elements) => evaluate_sequence(setting, elements, index, depth),
        ElementView::Loop(inner, range) => if range.is_once() {
            evaluate(setting, *inner, index, depth)
        } else {
            evaluate_loop(setting, *inner, range, index, depth, 0)
        },
        ElementView::PositiveLookahead(inner) => match evaluate(setting, *inner, index, depth) {
            Outcome::Matched { .. } => Outcome::Matched { children: Seq::empty(), index },
            other => other,
        },
        ElementView::NegativeLookahead(inner) => match evaluate(setting, *inner, index, depth) {
            Outcome::Matched { .. } => Outcome::Failed,
            Outcome::Failed => Outcome::Matched { children: Seq::empty(), index },
            other => other,
        },
        ElementView::Error(inner, message) => match evaluate(setting, *inner, index, depth) {
            Outcome::Matched { children, index: next } => Outcome::Matched {
                children: seq![ChildView::Error { message, children }],
                index: next,
            },
            Outcome::Failed => Outcome::Matched { children: Seq::empty(), index },
            other => other,
        },
        ElementView::CatchSkip(inner, message, to) => match evaluate(
            setting,
            *inner,
            index,
            depth,
        ) {
            Outcome::Failed => evaluate_recovery(setting, *to, message, index, depth),
            other => other,
        },
        ElementView::Group(inner, name) => match evaluate(setting, *inner, index, depth) {
            Outcome::Matched { children, index: next } => Outcome::Matched {
                children: seq![ChildView::Node { name, children }],
                index: next,
            },
            other => other,
        },
        ElementView::Expansion(inner) => match evaluate(setting, *inner, index, depth) {
            Outcome::Matched { children, index: next } => Outcome::Matched {
                children: expand_children(children, 0, true),
                index: next,
            },
            other => other,
        },
        ElementView::ExpansionOnce(inner) => match evaluate(setting, *inner, index, depth) {
            Outcome::Matched { children, index: next } => Outcome::Matched {
                children: expand_children(children, 0, false),
                index: next,
            },
            other => other,
        },
        ElementView::Hidden(inner) => match evaluate(setting, *inner, index, depth) {
            Outcome::Matched { index: next, .. } => Outcome::Matched {
                children: Seq::empty(),
                index: next,
            },
            other => other,
        },
    }
}

/// The first alternative that does not fail decides.
pub open spec fn evaluate_choice(
    setting: Setting,
    elements: Seq<ElementView>,
    index: nat,
    depth: nat,
) -> Outcome
    decreases setting.grammar.max_recursion - depth, elements, 0nat, 0nat,
{
    if elements.len() == 0 {
        Outcome::Failed
    } else {
        match evaluate(setting, elements.first(), index, depth) {
            Outcome::Failed => evaluate_choice(setting, elements.drop_first(), index, depth),
            other => other,
        }
    }
}

/// Each item matches where the one before it ended; the children follow one
/// another.
pub open spec fn evaluate_sequence(
    setting: Setting,
    elements: Seq<ElementView>,
    index: nat,
    depth: nat,
) -> Outcome
    decreases setting.grammar.max_recursion - depth, elements, 0nat, 0nat,
{
    if elements.len() == 0 {
        Outcome::Matched { children: Seq::empty(), index }
    } else {
        match evaluate(setting, elements.first(), index, depth) {
            Outcome::Matched { children, index: next } => continued(
                children,
                evaluate_sequence(setting, elements.drop_first(), next, depth),
            ),
            other => other,
        }
    }
}

/// The rounds of a loop from the round after `count` on. The loop ends where
/// its limit is reached or the element fails. Without a limit it also ends
/// after a round that consumed nothing, which counts. (No match ends beyond
/// the input: the comparison with its length only makes plain that the
/// rounds come to an end.)
pub open spec fn evaluate_loop(
    setting: Setting,
    element: ElementView,
    range: LoopRange,
    index: nat,
    depth: nat,
    count: nat,
) -> Outcome
    decreases setting.grammar.max_recursion - depth, element, 1nat, loop_budget(
        setting,
        range,
        index,
        count,
    ),
{
    if range.max matches Maxable::Max(max) && count >= max {
        loop_end(range, count, index)
    } else {
        match evaluate(setting, element, index, depth) {
            Outcome::Matched { children, index: next } => if range.max is NoLimit && !(index
                < next <= setting.input.len()) {
                continued(children, loop_end(range, count + 1, next))
            } else {
                continued(
                    children,
                    evaluate_loop(setting, element, range, next, depth, count + 1),
                )
            },
            Outcome::Failed => loop_end(range, count, index),
            other => other,
        }
    }
}

/// The search for the place from which `to` matches, one scalar further at
/// each try; what `to` emits there stands under an error marker. Where `to`
/// does not match at the end of the input either, the parse is given up.
pub open spec fn evaluate_recovery(
    setting: Setting,
    to: ElementView,
    message: Seq<char>,
    index: nat,
    depth: nat,
) -> Outcome
    decreases setting.grammar.max_recursion - depth, to, 1nat, setting.input.len() - index,
{
    match evaluate(setting, to, index, depth) {
        Outcome::Matched { children, index: next } => Outcome::Matched {
            children: seq![ChildView::Error { message, children }],
            index: next,
        },
        Outcome::Failed => if index < setting.input.len() {
            evaluate_recovery(setting, to, message, index + 1, depth)
        } else {
            Outcome::Fatal { error: ParserErrorView::NoMatchedRule }
        },
        other => other,
    }
}

/// What a parse gives: the tree of the entry rule where that rule matches
/// the whole input, else the reason why there is none.
pub open spec fn parse_result(grammar: VoltView, input: Seq<char>, entry: Seq<char>) -> Result<
    NodeView,
    ParserErrorView,
> {
    match find_rule(grammar.rules, entry) {
        None => Err(ParserErrorView::RuleNotExists { id: entry }),
        Some(body) => if grammar.max_recursion == 0 {
            Err(ParserErrorView::ExceededMaxRecursion)
        } else {
            match evaluate(Setting { grammar, input }, body, 0, 1) {
                Outcome::Matched { children, index } => if index == input.len() {
                    Ok(NodeView { name: entry, children })
                } else {
                    Err(ParserErrorView::NoMatchedRule)
                },
                Outcome::Failed => Err(ParserErrorView::NoMatchedRule),
                Outcome::Fatal { error } => Err(error),
            }
        },
    }
}

} // verus!
