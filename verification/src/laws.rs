use crate::element::{loop_of, optional_of, ElementView, ExpressionView, LoopRange, Maxable};
use crate::matching::{
    evaluate, evaluate_choice, evaluate_loop, evaluate_recovery, evaluate_sequence, loop_budget,
    loop_end, parse_result, Outcome, Setting,
};
use crate::rule::RuleView;
use crate::tree::{
    expand_child, expand_children, leaf_text, leaves_text, line_index, line_table, position_in,
    scan_lines, ChildView, InputPosition,
};
use crate::{find_rule, lemma_rule_index, VoltView};
use vstd::prelude::*;

verus! {

/// Where an element raises no fatal error, its negative lookahead matches
/// exactly where its positive lookahead does not, and a lookahead that
/// matches emits nothing and ends where it began.
pub proof fn lemma_lookaheads_are_complements(
    setting: Setting,
    element: ElementView,
    index: nat,
    depth: nat,
)
    requires
        !(evaluate(setting, element, index, depth) is Fatal),
    ensures
        evaluate(setting, ElementView::NegativeLookahead(Box::new(element)), index, depth)
            is Matched <==> !(evaluate(
            setting,
            ElementView::PositiveLookahead(Box::new(element)),
            index,
            depth,
        ) is Matched),
        evaluate(setting, ElementView::PositiveLookahead(Box::new(element)), index, depth)
            is Matched ==> evaluate(
            setting,
            ElementView::PositiveLookahead(Box::new(element)),
            index,
            depth,
        ) == (Outcome::Matched { children: Seq::empty(), index }),
        evaluate(setting, ElementView::NegativeLookahead(Box::new(element)), index, depth)
            is Matched ==> evaluate(
            setting,
            ElementView::NegativeLookahead(Box::new(element)),
            index,
            depth,
        ) == (Outcome::Matched { children: Seq::empty(), index }),
{
}

/// A lookahead raises the fatal error of its element.
pub proof fn lemma_lookahead_fatal(setting: Setting, element: ElementView, index: nat, depth: nat)
    requires
        evaluate(setting, element, index, depth) is Fatal,
    ensures
        evaluate(setting, ElementView::PositiveLookahead(Box::new(element)), index, depth)
            == evaluate(setting, element, index, depth),
        evaluate(setting, ElementView::NegativeLookahead(Box::new(element)), index, depth)
            == evaluate(setting, element, index, depth),
{
}

/// An element that is looped exactly once is the element itself.
pub proof fn lemma_once_is_identity(setting: Setting, element: ElementView, index: nat, depth: nat)
    ensures
        evaluate(
            setting,
            loop_of(element, LoopRange { min: 1, max: Maxable::Max(1) }),
            index,
            depth,
        ) == evaluate(setting, element, index, depth),
{
}

/// An optional element matches what the element matches, and matches nothing
/// where the element fails; only a fatal error of the element comes through.
pub proof fn lemma_optional(setting: Setting, element: ElementView, index: nat, depth: nat)
    ensures
        evaluate(setting, optional_of(element), index, depth) == match evaluate(
            setting,
            element,
            index,
            depth,
        ) {
            Outcome::Failed => Outcome::Matched { children: Seq::empty(), index },
            other => other,
        },
{
    let range = LoopRange { min: 0, max: Maxable::Max(1) };
    assert(evaluate(setting, optional_of(element), index, depth) == evaluate_loop(
        setting,
        element,
        range,
        index,
        depth,
        0,
    ));
    match evaluate(setting, element, index, depth) {
        Outcome::Matched { children, index: next } => {
            assert(evaluate_loop(setting, element, range, next, depth, 1) == loop_end(
                range,
                1,
                next,
            ));
            assert(children + Seq::<ChildView>::empty() =~= children);
        },
        _ => {},
    }
}

/// A hidden element consumes what the element consumes and emits nothing.
pub proof fn lemma_hidden(setting: Setting, element: ElementView, index: nat, depth: nat)
    ensures
        evaluate(setting, ElementView::Hidden(Box::new(element)), index, depth) == match evaluate(
            setting,
            element,
            index,
            depth,
        ) {
            Outcome::Matched { index: next, .. } => Outcome::Matched {
                children: Seq::empty(),
                index: next,
            },
            other => other,
        },
{
}

/// A list without nodes is flat.
pub open spec fn flat(children: Seq<ChildView>) -> bool {
    forall|i: int| 0 <= i < children.len() ==> !(#[trigger] children[i] is Node)
}

/// Expanding a flat list changes nothing.
pub proof fn lemma_expand_flat(children: Seq<ChildView>, level: nat, recursive: bool)
    requires
        flat(children),
    ensures
        expand_children(children, level, recursive) == children,
    decreases children.len(),
{
    if children.len() > 0 {
        let front = children.drop_last();
        assert forall|i: int| 0 <= i < front.len() implies !(#[trigger] front[i] is Node) by {
            assert(front[i] == children[i]);
        }
        lemma_expand_flat(front, level, recursive);
        assert(!(children[children.len() - 1] is Node));
        assert(expand_child(children.last(), level, recursive) == seq![children.last()]);
        assert(front + seq![children.last()] =~= children);
    } else {
        assert(children =~= Seq::empty());
    }
}

/// What a recursive expansion gives is flat.
pub proof fn lemma_expanded_is_flat(children: Seq<ChildView>, level: nat)
    ensures
        flat(expand_children(children, level, true)),
    decreases children, 1nat,
{
    if children.len() > 0 {
        lemma_expanded_is_flat(children.drop_last(), level);
        match children.last() {
            ChildView::Node { children: inner, .. } => {
                lemma_expanded_is_flat(inner, level + 1);
            },
            _ => {},
        }
        let front = expand_children(children.drop_last(), level, true);
        let back = expand_child(children.last(), level, true);
        let whole = expand_children(children, level, true);
        assert(whole == front + back);
        assert forall|i: int| 0 <= i < whole.len() implies !(#[trigger] whole[i] is Node) by {
            if i < front.len() {
                assert(whole[i] == front[i]);
            } else {
                assert(whole[i] == back[i - front.len()]);
            }
        }
    }
}

/// Expanding recursively twice is expanding once.
pub proof fn lemma_expand_idempotent(children: Seq<ChildView>, level: nat, again: nat)
    ensures
        expand_children(expand_children(children, level, true), again, true) == expand_children(
            children,
            level,
            true,
        ),
{
    lemma_expanded_is_flat(children, level);
    lemma_expand_flat(expand_children(children, level, true), again, true);
}

/// A match ends at or behind its start, and within the input.
pub open spec fn within(setting: Setting, index: nat, outcome: Outcome) -> bool {
    outcome matches Outcome::Matched { index: next, .. } ==> index <= next <= setting.input.len()
}

/// No element matches backwards or beyond the input.
pub proof fn lemma_match_within_input(
    setting: Setting,
    element: ElementView,
    index: nat,
    depth: nat,
)
    requires
        index <= setting.input.len(),
    ensures
        within(setting, index, evaluate(setting, element, index, depth)),
    decreases setting.grammar.max_recursion - depth, element, 0nat, 0nat,
{
    match element {
        ElementView::Expression(ExpressionView::Rule(id)) => {
            match find_rule(setting.grammar.rules, id) {
                Some(body) => {
                    if depth < setting.grammar.max_recursion {
                        lemma_match_within_input(setting, body, index, depth + 1);
                    }
                },
                None => {},
            }
        },
        ElementView::Expression(_) => {},
        ElementView::Choice(elements) => {
            lemma_choice_within_input(setting, elements, index, depth);
        },
        ElementView::Sequence(elements) => {
            lemma_sequence_within_input(setting, elements, index, depth);
        },
        ElementView::Loop(inner, range) => {
            if range.is_once() {
                lemma_match_within_input(setting, *inner, index, depth);
            } else {
                lemma_loop_within_input(setting, *inner, range, index, depth, 0);
            }
        },
        ElementView::PositiveLookahead(inner) => {},
        ElementView::NegativeLookahead(inner) => {},
        ElementView::Error(inner, _) => {
            lemma_match_within_input(setting, *inner, index, depth);
        },
        ElementView::CatchSkip(inner, message, to) => {
            lemma_match_within_input(setting, *inner, index, depth);
            lemma_recovery_within_input(setting, *to, message, index, index, depth);
        },
        ElementView::Group(inner, _) => {
            lemma_match_within_input(setting, *inner, index, depth);
        },
        ElementView::Expansion(inner) => {
            lemma_match_within_input(setting, *inner, index, depth);
        },
        ElementView::ExpansionOnce(inner) => {
            lemma_match_within_input(setting, *inner, index, depth);
        },
        ElementView::Hidden(inner) => {
            lemma_match_within_input(setting, *inner, index, depth);
        },
    }
}

proof fn lemma_choice_within_input(
    setting: Setting,
    elements: Seq<ElementView>,
    index: nat,
    depth: nat,
)
    requires
        index <= setting.input.len(),
    ensures
        within(setting, index, evaluate_choice(setting, elements, index, depth)),
    decreases setting.grammar.max_recursion - depth, elements, 0nat, 0nat,
{
    if elements.len() > 0 {
        lemma_match_within_input(setting, elements.first(), index, depth);
        lemma_choice_within_input(setting, elements.drop_first(), index, depth);
    }
}

proof fn lemma_sequence_within_input(
    setting: Setting,
    elements: Seq<ElementView>,
    index: nat,
    depth: nat,
)
    requires
        index <= setting.input.len(),
    ensures
        within(setting, index, evaluate_sequence(setting, elements, index, depth)),
    decreases setting.grammar.max_recursion - depth, elements, 0nat, 0nat,
{
    if elements.len() > 0 {
        lemma_match_within_input(setting, elements.first(), index, depth);
        match evaluate(setting, elements.first(), index, depth) {
            Outcome::Matched { index: next, .. } => {
                lemma_sequence_within_input(setting, elements.drop_first(), next, depth);
            },
            _ => {},
        }
    }
}

proof fn lemma_loop_within_input(
    setting: Setting,
    element: ElementView,
    range: LoopRange,
    index: nat,
    depth: nat,
    count: nat,
)
    requires
        index <= setting.input.len(),
    ensures
        within(setting, index, evaluate_loop(setting, element, range, index, depth, count)),
    decreases setting.grammar.max_recursion - depth, element, 1nat, loop_budget(
        setting,
        range,
        index,
        count,
    ),
{
    if !(range.max matches Maxable::Max(max) && count >= max) {
        lemma_match_within_input(setting, element, index, depth);
        match evaluate(setting, element, index, depth) {
            Outcome::Matched { index: next, .. } => {
                if !(range.max is NoLimit && !(index < next <= setting.input.len())) {
                    lemma_loop_within_input(setting, element, range, next, depth, count + 1);
                }
            },
            _ => {},
        }
    }
}

proof fn lemma_recovery_within_input(
    setting: Setting,
    to: ElementView,
    message: Seq<char>,
    start: nat,
    index: nat,
    depth: nat,
)
    requires
        start <= index <= setting.input.len(),
    ensures
        within(setting, start, evaluate_recovery(setting, to, message, index, depth)),
    decreases setting.grammar.max_recursion - depth, to, 1nat, setting.input.len() - index,
{
    lemma_match_within_input(setting, to, index, depth);
    match evaluate(setting, to, index, depth) {
        Outcome::Failed => {
            if index < setting.input.len() {
                lemma_recovery_within_input(setting, to, message, start, index + 1, depth);
            }
        },
        _ => {},
    }
}

/// An element is transparent where all that it consumes shows in the leaves
/// that it emits: nothing in it is hidden, and nothing in it stands under an
/// error marker. What a lookahead looks at does not matter, as it consumes
/// nothing.
pub open spec fn transparent(element: ElementView) -> bool
    decreases element,
{
    match element {
        ElementView::Expression(_) => true,
        ElementView::Choice(elements) => forall|i: int|
            0 <= i < elements.len() ==> transparent(#[trigger] elements[i]),
        ElementView::Sequence(elements) => forall|i: int|
            0 <= i < elements.len() ==> transparent(#[trigger] elements[i]),
        ElementView::Loop(inner, _) => transparent(*inner),
        ElementView::PositiveLookahead(_) => true,
        ElementView::NegativeLookahead(_) => true,
        ElementView::Error(_, _) => false,
        ElementView::CatchSkip(_, _, _) => false,
        ElementView::Group(inner, _) => transparent(*inner),
        ElementView::Expansion(inner) => transparent(*inner),
        ElementView::ExpansionOnce(inner) => transparent(*inner),
        ElementView::Hidden(_) => false,
    }
}

/// All the rules of a grammar are transparent.
pub open spec fn transparent_rules(rules: Seq<RuleView>) -> bool {
    forall|k: int| 0 <= k < rules.len() ==> transparent((#[trigger] rules[k]).element)
}

/// A match of a transparent element ends behind its start, within the input,
/// and its leaves read what lies between.
pub open spec fn covers(setting: Setting, index: nat, outcome: Outcome) -> bool {
    outcome matches Outcome::Matched { children, index: next } ==> index <= next
        <= setting.input.len() && leaves_text(children) == setting.input.subrange(
        index as int,
        next as int,
    )
}

pub proof fn lemma_leaves_text_add(front: Seq<ChildView>, back: Seq<ChildView>)
    ensures
        leaves_text(front + back) == leaves_text(front) + leaves_text(back),
    decreases back.len(),
{
    if back.len() == 0 {
        assert(front + back =~= front);
        assert(leaves_text(front) + Seq::<char>::empty() =~= leaves_text(front));
    } else {
        lemma_leaves_text_add(front, back.drop_last());
        assert((front + back).drop_last() =~= front + back.drop_last());
        assert((front + back).last() == back.last());
        assert(leaves_text(front) + (leaves_text(back.drop_last()) + leaf_text(back.last()))
            =~= (leaves_text(front) + leaves_text(back.drop_last())) + leaf_text(back.last()));
    }
}

pub proof fn lemma_leaves_text_single(child: ChildView)
    ensures
        leaves_text(seq![child]) == leaf_text(child),
{
    let single = seq![child];
    assert(single.drop_last() =~= Seq::empty());
    assert(leaves_text(single.drop_last()) =~= Seq::empty());
    assert(single.last() == child);
    assert(Seq::<char>::empty() + leaf_text(child) =~= leaf_text(child));
}

/// Expanding moves no leaf: the text of a list stays.
pub proof fn lemma_expand_keeps_text(children: Seq<ChildView>, level: nat, recursive: bool)
    ensures
        leaves_text(expand_children(children, level, recursive)) == leaves_text(children),
    decreases children, 1nat,
{
    if children.len() > 0 {
        let last = children.last();
        lemma_expand_keeps_text(children.drop_last(), level, recursive);
        lemma_leaves_text_add(
            expand_children(children.drop_last(), level, recursive),
            expand_child(last, level, recursive),
        );
        match last {
            ChildView::Node { children: inner, .. } => {
                if level == 0 || recursive {
                    lemma_expand_keeps_text(inner, level + 1, recursive);
                } else {
                    lemma_leaves_text_single(last);
                }
            },
            _ => {
                lemma_leaves_text_single(last);
            },
        }
        assert(leaves_text(expand_child(last, level, recursive)) == leaf_text(last));
        assert(expand_children(children, level, recursive) == expand_children(
            children.drop_last(),
            level,
            recursive,
        ) + expand_child(last, level, recursive));
    } else {
        assert(expand_children(children, level, recursive) =~= children);
    }
}

/// In a grammar of transparent rules, the leaves that a transparent element
/// emits read, in order, what the element consumes.
pub proof fn lemma_transparent_covers(
    setting: Setting,
    element: ElementView,
    index: nat,
    depth: nat,
)
    requires
        transparent_rules(setting.grammar.rules),
        transparent(element),
        index <= setting.input.len(),
    ensures
        covers(setting, index, evaluate(setting, element, index, depth)),
    decreases setting.grammar.max_recursion - depth, element, 0nat, 0nat,
{
    let input = setting.input;
    match element {
        ElementView::Expression(ExpressionView::Rule(id)) => {
            lemma_rule_index(setting.grammar.rules, id);
            match find_rule(setting.grammar.rules, id) {
                Some(body) => {
                    if depth < setting.grammar.max_recursion {
                        lemma_transparent_covers(setting, body, index, depth + 1);
                        match evaluate(setting, body, index, depth + 1) {
                            Outcome::Matched { children, index: next } => {
                                lemma_leaves_text_single(ChildView::Node { name: id, children });
                            },
                            _ => {},
                        }
                    }
                },
                None => {},
            }
        },
        ElementView::Expression(ExpressionView::String(value)) => {
            match evaluate(setting, element, index, depth) {
                Outcome::Matched { children, index: next } => {
                    lemma_leaves_text_single(children[0]);
                    assert(children =~= seq![children[0]]);
                },
                _ => {},
            }
        },
        ElementView::Expression(ExpressionView::CharacterClass(regex)) => {
            match evaluate(setting, element, index, depth) {
                Outcome::Matched { children, index: next } => {
                    lemma_leaves_text_single(children[0]);
                    assert(children =~= seq![children[0]]);
                    assert(input.subrange(index as int, next as int) =~= seq![input[index as int]]);
                },
                _ => {},
            }
        },
        ElementView::Expression(ExpressionView::Wildcard) => {
            match evaluate(setting, element, index, depth) {
                Outcome::Matched { children, index: next } => {
                    lemma_leaves_text_single(children[0]);
                    assert(children =~= seq![children[0]]);
                    assert(input.subrange(index as int, next as int) =~= seq![input[index as int]]);
                },
                _ => {},
            }
        },
        ElementView::Choice(elements) => {
            lemma_choice_covers(setting, elements, index, depth);
        },
        ElementView::Sequence(elements) => {
            lemma_sequence_covers(setting, elements, index, depth);
        },
        ElementView::Loop(inner, range) => {
            if range.is_once() {
                lemma_transparent_covers(setting, *inner, index, depth);
            } else {
                lemma_loop_covers(setting, *inner, range, index, depth, 0);
            }
        },
        ElementView::PositiveLookahead(inner) => {
            assert(leaves_text(Seq::<ChildView>::empty()) =~= input.subrange(
                index as int,
                index as int,
            ));
        },
        ElementView::NegativeLookahead(inner) => {
            assert(leaves_text(Seq::<ChildView>::empty()) =~= input.subrange(
                index as int,
                index as int,
            ));
        },
        ElementView::Group(inner, name) => {
            lemma_transparent_covers(setting, *inner, index, depth);
            match evaluate(setting, *inner, index, depth) {
                Outcome::Matched { children, index: next } => {
                    lemma_leaves_text_single(ChildView::Node { name, children });
                },
                _ => {},
            }
        },
        ElementView::Expansion(inner) => {
            lemma_transparent_covers(setting, *inner, index, depth);
            match evaluate(setting, *inner, index, depth) {
                Outcome::Matched { children, index: next } => {
                    lemma_expand_keeps_text(children, 0, true);
                },
                _ => {},
            }
        },
        ElementView::ExpansionOnce(inner) => {
            lemma_transparent_covers(setting, *inner, index, depth);
            match evaluate(setting, *inner, index, depth) {
                Outcome::Matched { children, index: next } => {
                    lemma_expand_keeps_text(children, 0, false);
                },
                _ => {},
            }
        },
        _ => {},
    }
}

proof fn lemma_choice_covers(setting: Setting, elements: Seq<ElementView>, index: nat, depth: nat)
    requires
        transparent_rules(setting.grammar.rules),
        forall|i: int| 0 <= i < elements.len() ==> transparent(#[trigger] elements[i]),
        index <= setting.input.len(),
    ensures
        covers(setting, index, evaluate_choice(setting, elements, index, depth)),
    decreases setting.grammar.max_recursion - depth, elements, 0nat, 0nat,
{
    if elements.len() > 0 {
        let rest = elements.drop_first();
        assert(transparent(elements[0]));
        lemma_transparent_covers(setting, elements.first(), index, depth);
        assert forall|i: int| 0 <= i < rest.len() implies transparent(#[trigger] rest[i]) by {
            assert(rest[i] == elements[i + 1]);
        }
        lemma_choice_covers(setting, rest, index, depth);
    }
}

proof fn lemma_sequence_covers(
    setting: Setting,
    elements: Seq<ElementView>,
    index: nat,
    depth: nat,
)
    requires
        transparent_rules(setting.grammar.rules),
        forall|i: int| 0 <= i < elements.len() ==> transparent(#[trigger] elements[i]),
        index <= setting.input.len(),
    ensures
        covers(setting, index, evaluate_sequence(setting, elements, index, depth)),
    decreases setting.grammar.max_recursion - depth, elements, 0nat, 0nat,
{
    let input = setting.input;
    if elements.len() == 0 {
        assert(leaves_text(Seq::<ChildView>::empty()) =~= input.subrange(
            index as int,
            index as int,
        ));
    } else {
        let rest = elements.drop_first();
        assert(transparent(elements[0]));
        lemma_transparent_covers(setting, elements.first(), index, depth);
        assert forall|i: int| 0 <= i < rest.len() implies transparent(#[trigger] rest[i]) by {
            assert(rest[i] == elements[i + 1]);
        }
        match evaluate(setting, elements.first(), index, depth) {
            Outcome::Matched { children, index: next } => {
                lemma_sequence_covers(setting, rest, next, depth);
                match evaluate_sequence(setting, rest, next, depth) {
                    Outcome::Matched { children: more, index: end } => {
                        lemma_leaves_text_add(children, more);
                        assert(input.subrange(index as int, next as int) + input.subrange(
                            next as int,
                            end as int,
                        ) =~= input.subrange(index as int, end as int));
                    },
                    _ => {},
                }
            },
            _ => {},
        }
    }
}

proof fn lemma_loop_covers(
    setting: Setting,
    element: ElementView,
    range: LoopRange,
    index: nat,
    depth: nat,
    count: nat,
)
    requires
        transparent_rules(setting.grammar.rules),
        transparent(element),
        index <= setting.input.len(),
    ensures
        covers(setting, index, evaluate_loop(setting, element, range, index, depth, count)),
    decreases setting.grammar.max_recursion - depth, element, 1nat, loop_budget(
        setting,
        range,
        index,
        count,
    ),
{
    let input = setting.input;
    assert(leaves_text(Seq::<ChildView>::empty()) =~= input.subrange(index as int, index as int));
    if !(range.max matches Maxable::Max(max) && count >= max) {
        lemma_transparent_covers(setting, element, index, depth);
        match evaluate(setting, element, index, depth) {
            Outcome::Matched { children, index: next } => {
                if range.max is NoLimit && !(index < next <= input.len()) {
                    assert(children + Seq::<ChildView>::empty() =~= children);
                } else {
                    lemma_loop_covers(setting, element, range, next, depth, count + 1);
                    match evaluate_loop(setting, element, range, next, depth, count + 1) {
                        Outcome::Matched { children: more, index: end } => {
                            lemma_leaves_text_add(children, more);
                            assert(input.subrange(index as int, next as int) + input.subrange(
                                next as int,
                                end as int,
                            ) =~= input.subrange(index as int, end as int));
                        },
                        _ => {},
                    }
                }
            },
            _ => {},
        }
    }
}

/// Where all the rules of a grammar are transparent, the leaves of the tree
/// of a parse read the input, from its first scalar to its last.
pub proof fn lemma_parse_covers_input(grammar: VoltView, input: Seq<char>, entry: Seq<char>)
    requires
        transparent_rules(grammar.rules),
        parse_result(grammar, input, entry) is Ok,
    ensures
        leaves_text(parse_result(grammar, input, entry)->Ok_0.children) == input,
{
    let setting = Setting { grammar, input };
    lemma_rule_index(grammar.rules, entry);
    let body = find_rule(grammar.rules, entry)->0;
    lemma_transparent_covers(setting, body, 0, 1);
    assert(input.subrange(0, input.len() as int) =~= input);
}

/// The leaves under a child, from left to right, those under error markers
/// too: of each its start and its value.
pub open spec fn leaves_in(child: ChildView) -> Seq<(InputPosition, Seq<char>)>
    decreases child, 0nat,
{
    match child {
        ChildView::Node { children, .. } => leaves_among(children),
        ChildView::Leaf { start, value } => seq![(start, value)],
        ChildView::Error { children, .. } => leaves_among(children),
    }
}

/// The leaves under the children of a list.
pub open spec fn leaves_among(children: Seq<ChildView>) -> Seq<(InputPosition, Seq<char>)>
    decreases children, 1nat,
{
    if children.len() == 0 {
        Seq::empty()
    } else {
        leaves_among(children.drop_last()) + leaves_in(children.last())
    }
}

/// The leaves are pieces of the input between `from` and `to`: each reads
/// the input from its start on, is stamped with the position of its start,
/// and starts where the one before it ends or later.
pub open spec fn pieces(
    input: Seq<char>,
    leaves: Seq<(InputPosition, Seq<char>)>,
    from: nat,
    to: nat,
) -> bool
    decreases leaves.len(),
{
    if leaves.len() == 0 {
        from <= to <= input.len()
    } else {
        let (start, value) = leaves.first();
        &&& from <= start.index
        &&& start.index + value.len() <= to
        &&& start == position_in(line_table(input), start.index)
        &&& input.subrange(start.index as int, start.index + value.len()) == value
        &&& pieces(input, leaves.drop_first(), (start.index + value.len()) as nat, to)
    }
}

proof fn lemma_pieces_bounds(
    input: Seq<char>,
    leaves: Seq<(InputPosition, Seq<char>)>,
    from: nat,
    to: nat,
)
    requires
        pieces(input, leaves, from, to),
    ensures
        from <= to <= input.len(),
    decreases leaves.len(),
{
    if leaves.len() > 0 {
        let (start, value) = leaves.first();
        lemma_pieces_bounds(input, leaves.drop_first(), (start.index + value.len()) as nat, to);
    }
}

proof fn lemma_pieces_widen(
    input: Seq<char>,
    leaves: Seq<(InputPosition, Seq<char>)>,
    from: nat,
    to: nat,
    wider_from: nat,
    wider_to: nat,
)
    requires
        pieces(input, leaves, from, to),
        wider_from <= from,
        to <= wider_to <= input.len(),
    ensures
        pieces(input, leaves, wider_from, wider_to),
    decreases leaves.len(),
{
    if leaves.len() > 0 {
        let (start, value) = leaves.first();
        let next = (start.index + value.len()) as nat;
        lemma_pieces_widen(input, leaves.drop_first(), next, to, next, wider_to);
    }
}

proof fn lemma_pieces_add(
    input: Seq<char>,
    front: Seq<(InputPosition, Seq<char>)>,
    back: Seq<(InputPosition, Seq<char>)>,
    from: nat,
    middle: nat,
    to: nat,
)
    requires
        pieces(input, front, from, middle),
        pieces(input, back, middle, to),
    ensures
        pieces(input, front + back, from, to),
    decreases front.len(),
{
    if front.len() == 0 {
        assert(front + back =~= back);
        lemma_pieces_bounds(input, back, middle, to);
        lemma_pieces_widen(input, back, middle, to, from, to);
    } else {
        let (start, value) = front.first();
        let next = (start.index + value.len()) as nat;
        lemma_pieces_add(input, front.drop_first(), back, next, middle, to);
        assert((front + back).drop_first() =~= front.drop_first() + back);
        assert((front + back).first() == front.first());
    }
}

proof fn lemma_leaves_among_add(front: Seq<ChildView>, back: Seq<ChildView>)
    ensures
        leaves_among(front + back) == leaves_among(front) + leaves_among(back),
    decreases back.len(),
{
    if back.len() == 0 {
        assert(front + back =~= front);
        assert(leaves_among(front) + Seq::<(InputPosition, Seq<char>)>::empty() =~= leaves_among(
            front,
        ));
    } else {
        lemma_leaves_among_add(front, back.drop_last());
        assert((front + back).drop_last() =~= front + back.drop_last());
        assert((front + back).last() == back.last());
        assert(leaves_among(front) + (leaves_among(back.drop_last()) + leaves_in(back.last()))
            =~= (leaves_among(front) + leaves_among(back.drop_last())) + leaves_in(back.last()));
    }
}

proof fn lemma_leaves_among_single(child: ChildView)
    ensures
        leaves_among(seq![child]) == leaves_in(child),
{
    let single = seq![child];
    assert(single.drop_last() =~= Seq::empty());
    assert(leaves_among(single.drop_last()) =~= Seq::empty());
    assert(single.last() == child);
    assert(Seq::<(InputPosition, Seq<char>)>::empty() + leaves_in(child) =~= leaves_in(child));
}

/// Expanding keeps the leaves and their order.
pub proof fn lemma_expand_keeps_leaves(children: Seq<ChildView>, level: nat, recursive: bool)
    ensures
        leaves_among(expand_children(children, level, recursive)) == leaves_among(children),
    decreases children, 1nat,
{
    if children.len() > 0 {
        let last = children.last();
        lemma_expand_keeps_leaves(children.drop_last(), level, recursive);
        lemma_leaves_among_add(
            expand_children(children.drop_last(), level, recursive),
            expand_child(last, level, recursive),
        );
        match last {
            ChildView::Node { children: inner, .. } => {
                if level == 0 || recursive {
                    lemma_expand_keeps_leaves(inner, level + 1, recursive);
                } else {
                    lemma_leaves_among_single(last);
                }
            },
            _ => {
                lemma_leaves_among_single(last);
            },
        }
        assert(leaves_among(expand_child(last, level, recursive)) == leaves_in(last));
        assert(expand_children(children, level, recursive) == expand_children(
            children.drop_last(),
            level,
            recursive,
        ) + expand_child(last, level, recursive));
    } else {
        assert(expand_children(children, level, recursive) =~= children);
    }
}

/// What a match emits is made of pieces of what it consumes.
pub open spec fn in_pieces(setting: Setting, index: nat, outcome: Outcome) -> bool {
    outcome matches Outcome::Matched { children, index: next } ==> pieces(
        setting.input,
        leaves_among(children),
        index,
        next,
    )
}

/// Whatever the grammar, the leaves that a match emits, those under error
/// markers too, are pieces of the input that the match consumes, in the
/// order of the input, each stamped with the position it was read from.
pub proof fn lemma_leaves_are_pieces(
    setting: Setting,
    element: ElementView,
    index: nat,
    depth: nat,
)
    requires
        index <= setting.input.len() <= usize::MAX,
    ensures
        in_pieces(setting, index, evaluate(setting, element, index, depth)),
    decreases setting.grammar.max_recursion - depth, element, 0nat, 0nat,
{
    let input = setting.input;
    let none = Seq::<ChildView>::empty();
    assert(leaves_among(none) =~= Seq::empty());
    match element {
        ElementView::Expression(ExpressionView::Rule(id)) => {
            match find_rule(setting.grammar.rules, id) {
                Some(body) => {
                    if depth < setting.grammar.max_recursion {
                        lemma_leaves_are_pieces(setting, body, index, depth + 1);
                        match evaluate(setting, body, index, depth + 1) {
                            Outcome::Matched { children, index: next } => {
                                lemma_leaves_among_single(ChildView::Node { name: id, children });
                            },
                            _ => {},
                        }
                    }
                },
                None => {},
            }
        },
        ElementView::Expression(_) => {
            match evaluate(setting, element, index, depth) {
                Outcome::Matched { children, index: next } => {
                    lemma_leaves_among_single(children[0]);
                    assert(children =~= seq![children[0]]);
                    let leaves = leaves_among(children);
                    assert(leaves.drop_first() =~= Seq::empty());
                    if !(element matches ElementView::Expression(ExpressionView::String(_))) {
                        assert(input.subrange(index as int, next as int) =~= seq![
                            input[index as int],
                        ]);
                    }
                    assert(pieces(input, leaves.drop_first(), next, next));
                },
                _ => {},
            }
        },
        ElementView::Choice(elements) => {
            lemma_choice_in_pieces(setting, elements, index, depth);
        },
        ElementView::Sequence(elements) => {
            lemma_sequence_in_pieces(setting, elements, index, depth);
        },
        ElementView::Loop(inner, range) => {
            if range.is_once() {
                lemma_leaves_are_pieces(setting, *inner, index, depth);
            } else {
                lemma_loop_in_pieces(setting, *inner, range, index, depth, 0);
            }
        },
        ElementView::PositiveLookahead(inner) => {},
        ElementView::NegativeLookahead(inner) => {},
        ElementView::Error(inner, message) => {
            lemma_leaves_are_pieces(setting, *inner, index, depth);
            match evaluate(setting, *inner, index, depth) {
                Outcome::Matched { children, index: next } => {
                    lemma_leaves_among_single(ChildView::Error { message, children });
                },
                _ => {},
            }
        },
        ElementView::CatchSkip(inner, message, to) => {
            lemma_leaves_are_pieces(setting, *inner, index, depth);
            lemma_recovery_in_pieces(setting, *to, message, index, index, depth);
        },
        ElementView::Group(inner, name) => {
            lemma_leaves_are_pieces(setting, *inner, index, depth);
            match evaluate(setting, *inner, index, depth) {
                Outcome::Matched { children, index: next } => {
                    lemma_leaves_among_single(ChildView::Node { name, children });
                },
                _ => {},
            }
        },
        ElementView::Expansion(inner) => {
            lemma_leaves_are_pieces(setting, *inner, index, depth);
            match evaluate(setting, *inner, index, depth) {
                Outcome::Matched { children, index: next } => {
                    lemma_expand_keeps_leaves(children, 0, true);
                },
                _ => {},
            }
        },
        ElementView::ExpansionOnce(inner) => {
            lemma_leaves_are_pieces(setting, *inner, index, depth);
            match evaluate(setting, *inner, index, depth) {
                Outcome::Matched { children, index: next } => {
                    lemma_expand_keeps_leaves(children, 0, false);
                },
                _ => {},
            }
        },
        ElementView::Hidden(inner) => {
            lemma_match_within_input(setting, *inner, index, depth);
        },
    }
}

proof fn lemma_choice_in_pieces(
    setting: Setting,
    elements: Seq<ElementView>,
    index: nat,
    depth: nat,
)
    requires
        index <= setting.input.len() <= usize::MAX,
    ensures
        in_pieces(setting, index, evaluate_choice(setting, elements, index, depth)),
    decreases setting.grammar.max_recursion - depth, elements, 0nat, 0nat,
{
    if elements.len() > 0 {
        lemma_leaves_are_pieces(setting, elements.first(), index, depth);
        lemma_choice_in_pieces(setting, elements.drop_first(), index, depth);
    }
}

proof fn lemma_sequence_in_pieces(
    setting: Setting,
    elements: Seq<ElementView>,
    index: nat,
    depth: nat,
)
    requires
        index <= setting.input.len() <= usize::MAX,
    ensures
        in_pieces(setting, index, evaluate_sequence(setting, elements, index, depth)),
    decreases setting.grammar.max_recursion - depth, elements, 0nat, 0nat,
{
    let input = setting.input;
    if elements.len() == 0 {
        assert(leaves_among(Seq::<ChildView>::empty()) =~= Seq::empty());
    } else {
        lemma_leaves_are_pieces(setting, elements.first(), index, depth);
        lemma_match_within_input(setting, elements.first(), index, depth);
        match evaluate(setting, elements.first(), index, depth) {
            Outcome::Matched { children, index: next } => {
                lemma_sequence_in_pieces(setting, elements.drop_first(), next, depth);
                match evaluate_sequence(setting, elements.drop_first(), next, depth) {
                    Outcome::Matched { children: more, index: end } => {
                        lemma_leaves_among_add(children, more);
                        lemma_pieces_add(
                            input,
                            leaves_among(children),
                            leaves_among(more),
                            index,
                            next,
                            end,
                        );
                    },
                    _ => {},
                }
            },
            _ => {},
        }
    }
}

proof fn lemma_loop_in_pieces(
    setting: Setting,
    element: ElementView,
    range: LoopRange,
    index: nat,
    depth: nat,
    count: nat,
)
    requires
        index <= setting.input.len() <= usize::MAX,
    ensures
        in_pieces(setting, index, evaluate_loop(setting, element, range, index, depth, count)),
    decreases setting.grammar.max_recursion - depth, element, 1nat, loop_budget(
        setting,
        range,
        index,
        count,
    ),
{
    let input = setting.input;
    assert(leaves_among(Seq::<ChildView>::empty()) =~= Seq::empty());
    if !(range.max matches Maxable::Max(max) && count >= max) {
        lemma_leaves_are_pieces(setting, element, index, depth);
        lemma_match_within_input(setting, element, index, depth);
        match evaluate(setting, element, index, depth) {
            Outcome::Matched { children, index: next } => {
                if range.max is NoLimit && !(index < next <= input.len()) {
                    assert(children + Seq::<ChildView>::empty() =~= children);
                } else {
                    lemma_loop_in_pieces(setting, element, range, next, depth, count + 1);
                    match evaluate_loop(setting, element, range, next, depth, count + 1) {
                        Outcome::Matched { children: more, index: end } => {
                            lemma_leaves_among_add(children, more);
                            lemma_pieces_add(
                                input,
                                leaves_among(children),
                                leaves_among(more),
                                index,
                                next,
                                end,
                            );
                        },
                        _ => {},
                    }
                }
            },
            _ => {},
        }
    }
}

proof fn lemma_recovery_in_pieces(
    setting: Setting,
    to: ElementView,
    message: Seq<char>,
    start: nat,
    index: nat,
    depth: nat,
)
    requires
        start <= index <= setting.input.len() <= usize::MAX,
    ensures
        in_pieces(setting, start, evaluate_recovery(setting, to, message, index, depth)),
    decreases setting.grammar.max_recursion - depth, to, 1nat, setting.input.len() - index,
{
    lemma_leaves_are_pieces(setting, to, index, depth);
    match evaluate(setting, to, index, depth) {
        Outcome::Matched { children, index: next } => {
            lemma_leaves_among_single(ChildView::Error { message, children });
            lemma_pieces_bounds(setting.input, leaves_among(children), index, next);
            lemma_pieces_widen(setting.input, leaves_among(children), index, next, start, next);
        },
        Outcome::Failed => {
            if index < setting.input.len() {
                lemma_recovery_in_pieces(setting, to, message, start, index + 1, depth);
            }
        },
        _ => {},
    }
}

/// The leaves of the tree of a parse are pieces of the input, in its order.
pub proof fn lemma_parse_leaves_are_pieces(grammar: VoltView, input: Seq<char>, entry: Seq<char>)
    requires
        input.len() <= usize::MAX,
        parse_result(grammar, input, entry) is Ok,
    ensures
        pieces(
            input,
            leaves_among(parse_result(grammar, input, entry)->Ok_0.children),
            0,
            input.len(),
        ),
{
    let setting = Setting { grammar, input };
    let body = find_rule(grammar.rules, entry)->0;
    lemma_leaves_are_pieces(setting, body, 0, 1);
}

/// How many newlines stand before `index`.
pub open spec fn newlines_before(input: Seq<char>, index: int) -> int
    decreases index,
{
    if index <= 0 {
        0
    } else if input[index - 1] == '\n' {
        newlines_before(input, index - 1) + 1
    } else {
        newlines_before(input, index - 1)
    }
}

/// Where the line starts in which `index` stands: behind the last newline
/// before it, or at 0.
pub open spec fn line_start_before(input: Seq<char>, index: int) -> int
    decreases index,
{
    if index <= 0 {
        0
    } else if input[index - 1] == '\n' {
        index
    } else {
        line_start_before(input, index - 1)
    }
}

proof fn lemma_same_line(input: Seq<char>, from: int, to: int)
    requires
        0 <= from <= to,
        from == 0 || input[from - 1] == '\n',
        forall|j: int| from <= j < to ==> input[j] != '\n',
    ensures
        newlines_before(input, to) == newlines_before(input, from),
        line_start_before(input, to) == from,
    decreases to - from,
{
    if from < to {
        lemma_same_line(input, from, to - 1);
    }
}

proof fn lemma_scanned_lines(input: Seq<char>, line_start: nat, at: nat, index: int)
    requires
        line_start <= at <= input.len() <= usize::MAX,
        line_start <= index < input.len(),
        line_start == 0 || input[line_start - 1] == '\n',
        forall|j: int| line_start <= j < at ==> input[j] != '\n',
    ensures
        ({
            let table = scan_lines(input, line_start, at);
            let line = line_index(table, index);
            &&& 0 <= line < table.len()
            &&& line == newlines_before(input, index) - newlines_before(input, line_start as int)
            &&& table[line].0 == line_start_before(input, index)
        }),
    decreases input.len() - at,
{
    let table = scan_lines(input, line_start, at);
    if at >= input.len() {
        lemma_same_line(input, line_start as int, index);
    } else if input[at as int] == '\n' {
        let rest = scan_lines(input, at + 1, at + 1);
        assert(table.drop_first() =~= rest);
        if index <= at {
            lemma_same_line(input, line_start as int, index);
        } else {
            lemma_scanned_lines(input, at + 1, at + 1, index);
            lemma_same_line(input, line_start as int, at as int);
            let line = line_index(rest, index);
            assert(table[line + 1] == rest[line]);
        }
    } else {
        assert forall|j: int| line_start <= j < at + 1 implies input[j] != '\n' by {}
        lemma_scanned_lines(input, line_start, at + 1, index);
    }
}

/// The position of a scalar of the input: its line is the number of newlines
/// before it, its column the distance from the start of its line.
pub proof fn lemma_position_counts_newlines(input: Seq<char>, index: usize)
    requires
        index < input.len() <= usize::MAX,
    ensures
        position_in(line_table(input), index) == (InputPosition {
            index,
            line: newlines_before(input, index as int) as usize,
            column: (index - line_start_before(input, index as int)) as usize,
        }),
{
    lemma_scanned_lines(input, 0, 0, index as int);
}

} // verus!
