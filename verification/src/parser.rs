use crate::class::find_start;
use crate::element::{
    elements_view, Element, ElementView, Expression, ExpressionView, LoopRange, Maxable,
};
use crate::matching::{
    continued, evaluate, evaluate_choice, evaluate_loop, evaluate_recovery, evaluate_sequence,
    loop_budget, loop_end, parse_result, rule_reference, Outcome, ParserErrorView, Setting,
};
use crate::rule::RuleId;
use crate::text::to_scalars;
use crate::tree::{
    children_view, lemma_children_view_add, line_table, ChildView, InputPositionCounter,
    SyntaxChild, SyntaxChildVec, SyntaxNode, SyntaxTree,
};
use crate::Volt;
use regex::Regex;
use vstd::prelude::*;

verus! {

/// Why a parse is given up.
#[derive(Debug, PartialEq)]
pub enum ParserError {
    /// The entry rule does not match the whole input, or a recovery found no
    /// place to go on from.
    NoMatchedRule,
    /// A rule is referred to that the registry does not hold.
    RuleNotExists { id: RuleId },
    /// More rules would be active at once than the registry allows.
    ExceededMaxRecursion,
}

impl View for ParserError {
    type V = ParserErrorView;

    open spec fn view(&self) -> ParserErrorView {
        match self {
            ParserError::NoMatchedRule => ParserErrorView::NoMatchedRule,
            ParserError::RuleNotExists { id } => ParserErrorView::RuleNotExists { id: id@ },
            ParserError::ExceededMaxRecursion => ParserErrorView::ExceededMaxRecursion,
        }
    }
}

impl Clone for ParserError {
    fn clone(&self) -> (copy: ParserError)
        ensures
            copy == *self,
    {
        match self {
            ParserError::NoMatchedRule => ParserError::NoMatchedRule,
            ParserError::RuleNotExists { id } => ParserError::RuleNotExists { id: id.clone() },
            ParserError::ExceededMaxRecursion => ParserError::ExceededMaxRecursion,
        }
    }
}

pub type ParserResult = Result<SyntaxTree, ParserError>;

pub type OptionalParserResult<T> = Result<Option<T>, ParserError>;

/// The state of a parse: what it runs on, how far the input is consumed, and
/// how many rules are active.
pub struct ParserView {
    pub setting: Setting,
    pub index: nat,
    pub recursion: nat,
}

/// How many more rules may become active.
pub open spec fn headroom(state: ParserView) -> nat {
    if state.setting.grammar.max_recursion >= state.recursion {
        (state.setting.grammar.max_recursion - state.recursion) as nat
    } else {
        0
    }
}

/// What a step of the engine does, given what matching says of it: the
/// setting and the number of active rules stay; a match hands out its
/// children and moves the index to its end; a failure leaves the index where
/// it was; a fatal outcome is raised as its error.
pub open spec fn stepped(
    before: ParserView,
    after: ParserView,
    result: OptionalParserResult<Vec<SyntaxChild>>,
    outcome: Outcome,
) -> bool {
    &&& after.setting == before.setting
    &&& after.recursion == before.recursion
    &&& match outcome {
        Outcome::Matched { children, index } => result matches Ok(Some(found)) && children_view(
            found@,
        ) == children && after.index == index,
        Outcome::Failed => result matches Ok(None) && after.index == before.index,
        Outcome::Fatal { error } => result matches Err(raised) && raised@ == error,
    }
}

proof fn lemma_continued_twice(first: Seq<ChildView>, second: Seq<ChildView>, rest: Outcome)
    ensures
        continued(first, continued(second, rest)) == continued(first + second, rest),
{
    match rest {
        Outcome::Matched { children, index } => {
            assert(first + (second + children) =~= (first + second) + children);
        },
        _ => {},
    }
}

/// The engine: a recursive descent over the elements of a grammar.
pub struct Parser<'a> {
    volt: &'a Volt,
    input: Vec<char>,
    positions: InputPositionCounter,
    index: usize,
    recursion: usize,
}

impl<'a> View for Parser<'a> {
    type V = ParserView;

    closed spec fn view(&self) -> ParserView {
        ParserView {
            setting: Setting { grammar: self.volt@, input: self.input@ },
            index: self.index as nat,
            recursion: self.recursion as nat,
        }
    }
}

impl<'a> Parser<'a> {
    /// The index is within the input, and the positions are those of the
    /// input.
    #[verifier::type_invariant]
    pub closed spec fn wf(self) -> bool {
        &&& self.index <= self.input@.len()
        &&& self.positions@ == line_table(self.input@)
    }

    /// An engine at the start of the input, with no rule active.
    pub fn new(volt: &'a Volt, input: &str) -> (parser: Parser<'a>)
        ensures
            parser@ == (ParserView {
                setting: Setting { grammar: volt@, input: input@ },
                index: 0,
                recursion: 0,
            }),
    {
        let input = to_scalars(input);
        let positions = InputPositionCounter::from_scalars(&input);
        Parser { volt, input, positions, index: 0, recursion: 0 }
    }

    /// How many scalars of the input are consumed.
    pub fn index(&self) -> (index: usize)
        ensures
            index == self@.index,
            index <= self@.setting.input.len(),
    {
        proof {
            use_type_invariant(self);
        }
        self.index
    }

    /// How many rules are active.
    pub fn recursion(&self) -> (recursion: usize)
        ensures
            recursion == self@.recursion,
    {
        self.recursion
    }

    /// Parses the input with the rule `entry_rule_id`: the tree of that rule
    /// where it matches all of the input.
    pub fn parse(volt: &'a Volt, input: &str, entry_rule_id: &RuleId) -> (result: ParserResult)
        ensures
            match parse_result(volt@, input@, entry_rule_id@) {
                Ok(tree) => result matches Ok(found) && found@ == tree,
                Err(error) => result matches Err(raised) && raised@ == error,
            },
    {
        let mut parser = Parser::new(volt, input);
        let ghost setting = parser@.setting;
        let ghost outcome = evaluate(setting, rule_reference(entry_rule_id@), 0, 0);
        match parser.rule(entry_rule_id) {
            Ok(Some(root)) => {
                proof {
                    assert(outcome->children[0] == SyntaxChild::Node(root)@);
                }
                if parser.index == parser.input.len() {
                    Ok(SyntaxTree::new(root))
                } else {
                    Err(ParserError::NoMatchedRule)
                }
            },
            Ok(None) => Err(ParserError::NoMatchedRule),
            Err(error) => Err(error),
        }
    }

    /// Matches the rule of that name where the input stands.
    pub fn rule(&mut self, rule_id: &RuleId) -> (result: OptionalParserResult<SyntaxNode>)
        ensures
            final(self).wf(),
            final(self)@.setting == old(self)@.setting,
            final(self)@.recursion == old(self)@.recursion,
            match evaluate(
                old(self)@.setting,
                rule_reference(rule_id@),
                old(self)@.index,
                old(self)@.recursion,
            ) {
                Outcome::Matched { children, index } => result matches Ok(Some(node)) && children
                    == seq![SyntaxChild::Node(node)@] && final(self)@.index == index,
                Outcome::Failed => result matches Ok(None) && final(self)@.index == old(
                    self,
                )@.index,
                Outcome::Fatal { error } => result matches Err(raised) && raised@ == error,
            },
        decreases 2 * headroom(old(self)@), rule_id, 0nat,
    {
        proof {
            use_type_invariant(&*self);
        }
        let volt: &'a Volt = self.volt;
        let elem = match volt.rule(rule_id) {
            Some(elem) => elem,
            None => {
                return Err(ParserError::RuleNotExists { id: rule_id.clone() });
            },
        };
        if self.recursion >= volt.max_recursion() {
            return Err(ParserError::ExceededMaxRecursion);
        }
        self.recursion += 1;
        let result = match self.element(elem) {
            Ok(Some(children)) => Ok(Some(SyntaxNode::new(rule_id.to_string(), children))),
            Ok(None) => Ok(None),
            Err(error) => Err(error),
        };
        self.recursion -= 1;
        result
    }

    /// Matches an element where the input stands.
    pub fn element(&mut self, elem: &Element) -> (result: OptionalParserResult<Vec<SyntaxChild>>)
        ensures
            final(self).wf(),
            stepped(
                old(self)@,
                final(self)@,
                result,
                evaluate(old(self)@.setting, elem@, old(self)@.index, old(self)@.recursion),
            ),
        decreases 2 * headroom(old(self)@) + 1, elem, 0nat,
    {
        proof {
            use_type_invariant(&*self);
        }
        match elem {
            Element::Choice(elems) => self.choice(elems),
            Element::Sequence(elems) => self.sequence(elems),
            Element::Expression(expr) => match expr {
                Expression::Rule(id) => match self.rule(id) {
                    Ok(Some(child_node)) => {
                        let children = vec![SyntaxChild::Node(child_node)];
                        proof {
                            assert(children_view(children@) =~= seq![children@[0]@]);
                        }
                        Ok(Some(children))
                    },
                    Ok(None) => Ok(None),
                    Err(error) => Err(error),
                },
                Expression::String(s) => self.string(s),
                Expression::CharacterClass(v) => self.character_class(v),
                Expression::Wildcard => self.wildcard(),
            },
            Element::Loop(elem, range) => self.times(elem, range),
            Element::PositiveLookahead(elem) => self.lookahead(elem, true),
            Element::NegativeLookahead(elem) => self.lookahead(elem, false),
            Element::Error(elem, message) => match self.element(elem) {
                Ok(Some(children)) => {
                    let marked = vec![SyntaxChild::error(message.clone(), children)];
                    proof {
                        assert(children_view(marked@) =~= seq![marked@[0]@]);
                    }
                    Ok(Some(marked))
                },
                Ok(None) => {
                    let nothing: Vec<SyntaxChild> = Vec::new();
                    proof {
                        assert(children_view(nothing@) =~= Seq::empty());
                    }
                    Ok(Some(nothing))
                },
                Err(error) => Err(error),
            },
            Element::CatchSkip(elem, message, to) => match self.element(elem) {
                Ok(Some(children)) => Ok(Some(children)),
                Ok(None) => self.skip_to(to, message),
                Err(error) => Err(error),
            },
            Element::Group(elem, name) => match self.element(elem) {
                Ok(Some(children)) => {
                    let grouped = vec![SyntaxChild::node(name.clone(), children)];
                    proof {
                        assert(children_view(grouped@) =~= seq![grouped@[0]@]);
                    }
                    Ok(Some(grouped))
                },
                Ok(None) => Ok(None),
                Err(error) => Err(error),
            },
            Element::Expansion(elem) => match self.element(elem) {
                Ok(Some(children)) => Ok(Some(children.expand(0, true))),
                Ok(None) => Ok(None),
                Err(error) => Err(error),
            },
            Element::ExpansionOnce(elem) => match self.element(elem) {
                Ok(Some(children)) => Ok(Some(children.expand(0, false))),
                Ok(None) => Ok(None),
                Err(error) => Err(error),
            },
            Element::Hidden(elem) => match self.element(elem) {
                Ok(Some(_)) => {
                    let nothing: Vec<SyntaxChild> = Vec::new();
                    proof {
                        assert(children_view(nothing@) =~= Seq::empty());
                    }
                    Ok(Some(nothing))
                },
                Ok(None) => Ok(None),
                Err(error) => Err(error),
            },
        }
    }

    fn choice(&mut self, elems: &Vec<Element>) -> (result: OptionalParserResult<Vec<SyntaxChild>>)
        ensures
            final(self).wf(),
            stepped(
                old(self)@,
                final(self)@,
                result,
                evaluate_choice(
                    old(self)@.setting,
                    elements_view(elems@),
                    old(self)@.index,
                    old(self)@.recursion,
                ),
            ),
        decreases 2 * headroom(old(self)@) + 1, elems, 0nat,
    {
        proof {
            use_type_invariant(&*self);
        }
        let tmp_index = self.index;
        let ghost views = elements_view(elems@);
        let ghost start = self@;
        let mut k: usize = 0;
        proof {
            assert(views.skip(0) =~= views);
        }
        while k < elems.len()
            invariant
                self.wf(),
                k <= elems.len(),
                views == elements_view(elems@),
                start == old(self)@,
                self@ == start,
                tmp_index == self@.index,
                evaluate_choice(start.setting, views, start.index, start.recursion)
                    == evaluate_choice(
                    start.setting,
                    views.skip(k as int),
                    start.index,
                    start.recursion,
                ),
            decreases elems.len() - k,
        {
            proof {
                assert(views.skip(k as int).first() == elems@[k as int]@);
                assert(views.skip(k as int).drop_first() =~= views.skip(k + 1));
            }
            match self.element(&elems[k]) {
                Ok(Some(children)) => {
                    return Ok(Some(children));
                },
                Ok(None) => {
                    self.index = tmp_index;
                },
                Err(error) => {
                    return Err(error);
                },
            }
            k += 1;
        }
        Ok(None)
    }

    fn sequence(&mut self, elems: &Vec<Element>) -> (result: OptionalParserResult<
        Vec<SyntaxChild>,
    >)
        ensures
            final(self).wf(),
            stepped(
                old(self)@,
                final(self)@,
                result,
                evaluate_sequence(
                    old(self)@.setting,
                    elements_view(elems@),
                    old(self)@.index,
                    old(self)@.recursion,
                ),
            ),
        decreases 2 * headroom(old(self)@) + 1, elems, 0nat,
    {
        proof {
            use_type_invariant(&*self);
        }
        let tmp_index = self.index;
        let mut children: Vec<SyntaxChild> = Vec::new();
        let ghost views = elements_view(elems@);
        let ghost start = self@;
        let mut k: usize = 0;
        proof {
            assert(views.skip(0) =~= views);
            assert(children_view(children@) =~= Seq::empty());
            lemma_continued_twice(
                Seq::empty(),
                Seq::empty(),
                evaluate_sequence(start.setting, views, start.index, start.recursion),
            );
            assert(Seq::<ChildView>::empty() + Seq::<ChildView>::empty() =~= Seq::<
                ChildView,
            >::empty());
        }
        while k < elems.len()
            invariant
                self.wf(),
                k <= elems.len(),
                views == elements_view(elems@),
                start == old(self)@,
                self@.setting == start.setting,
                self@.recursion == start.recursion,
                tmp_index == start.index,
                tmp_index <= start.setting.input.len(),
                evaluate_sequence(start.setting, views, start.index, start.recursion) == continued(
                    children_view(children@),
                    evaluate_sequence(
                        start.setting,
                        views.skip(k as int),
                        self@.index,
                        start.recursion,
                    ),
                ),
            decreases elems.len() - k,
        {
            let ghost before = children@;
            let ghost here = self@.index;
            proof {
                assert(views.skip(k as int).first() == elems@[k as int]@);
                assert(views.skip(k as int).drop_first() =~= views.skip(k + 1));
            }
            match self.element(&elems[k]) {
                Ok(Some(new_children)) => {
                    let mut new_children = new_children;
                    proof {
                        lemma_children_view_add(before, new_children@);
                        lemma_continued_twice(
                            children_view(before),
                            children_view(new_children@),
                            evaluate_sequence(
                                start.setting,
                                views.skip(k + 1),
                                self@.index,
                                start.recursion,
                            ),
                        );
                    }
                    children.append(&mut new_children);
                },
                Ok(None) => {
                    self.index = tmp_index;
                    return Ok(None);
                },
                Err(error) => {
                    return Err(error);
                },
            }
            k += 1;
        }
        proof {
            assert(children_view(children@) + Seq::<ChildView>::empty() =~= children_view(
                children@,
            ));
        }
        Ok(Some(children))
    }

    fn times(&mut self, elem: &Element, range: &LoopRange) -> (result: OptionalParserResult<
        Vec<SyntaxChild>,
    >)
        ensures
            final(self).wf(),
            stepped(
                old(self)@,
                final(self)@,
                result,
                if range.is_once() {
                    evaluate(old(self)@.setting, elem@, old(self)@.index, old(self)@.recursion)
                } else {
                    evaluate_loop(
                        old(self)@.setting,
                        elem@,
                        *range,
                        old(self)@.index,
                        old(self)@.recursion,
                        0,
                    )
                },
            ),
        decreases 2 * headroom(old(self)@) + 1, elem, 1nat,
    {
        proof {
            use_type_invariant(&*self);
        }
        if range.is_single_times() {
            self.element(elem)
        } else {
            let tmp_index = self.index;
            let mut children: Vec<SyntaxChild> = Vec::new();
            let mut count: usize = 0;
            let ghost start = self@;
            let ghost whole = evaluate_loop(
                start.setting,
                elem@,
                *range,
                start.index,
                start.recursion,
                0,
            );
            let ghost mut rest = whole;
            proof {
                assert(children_view(children@) =~= Seq::empty());
                lemma_continued_twice(Seq::empty(), Seq::empty(), whole);
                assert(Seq::<ChildView>::empty() + Seq::<ChildView>::empty() =~= Seq::<
                    ChildView,
                >::empty());
            }
            loop
                invariant_except_break
                    rest == evaluate_loop(
                        start.setting,
                        elem@,
                        *range,
                        self@.index,
                        start.recursion,
                        count as nat,
                    ),
                    range.max is NoLimit ==> tmp_index <= self@.index && count <= self@.index
                        - tmp_index,
                invariant
                    self.wf(),
                    !range.is_once(),
                    start == old(self)@,
                    self@.setting == start.setting,
                    self@.recursion == start.recursion,
                    tmp_index == start.index,
                    tmp_index <= start.setting.input.len(),
                    self@.index <= start.setting.input.len(),
                    whole == evaluate_loop(
                        start.setting,
                        elem@,
                        *range,
                        start.index,
                        start.recursion,
                        0,
                    ),
                    whole == continued(children_view(children@), rest),
                ensures
                    rest == loop_end(*range, count as nat, self@.index),
                decreases loop_budget(start.setting, *range, self@.index, count as nat),
            {
                if let Maxable::Max(max) = range.max {
                    if count >= max {
                        break ;
                    }
                }
                let ghost before = children@;
                let iteration_start = self.index;
                let mut new_children = match self.element(elem) {
                    Ok(Some(new_children)) => new_children,
                    Ok(None) => {
                        break ;
                    },
                    Err(error) => {
                        return Err(error);
                    },
                };
                proof {
                    lemma_children_view_add(before, new_children@);
                }
                let ghost emitted = children_view(new_children@);
                children.append(&mut new_children);
                match range.max {
                    Maxable::Max(_) => {
                        count += 1;
                        proof {
                            rest = evaluate_loop(
                                start.setting,
                                elem@,
                                *range,
                                self@.index,
                                start.recursion,
                                count as nat,
                            );
                            lemma_continued_twice(children_view(before), emitted, rest);
                        }
                    },
                    Maxable::NoLimit => {
                        if self.index <= iteration_start {
                            proof {
                                rest = loop_end(*range, (count + 1) as nat, self@.index);
                                lemma_continued_twice(children_view(before), emitted, rest);
                            }
                            if range.min == 0 || count >= range.min - 1 {
                                proof {
                                    assert(children_view(children@) + Seq::<ChildView>::empty()
                                        =~= children_view(children@));
                                }
                                return Ok(Some(children));
                            } else {
                                self.index = tmp_index;
                                return Ok(None);
                            }
                        }
                        count += 1;
                        proof {
                            rest = evaluate_loop(
                                start.setting,
                                elem@,
                                *range,
                                self@.index,
                                start.recursion,
                                count as nat,
                            );
                            lemma_continued_twice(children_view(before), emitted, rest);
                        }
                    },
                }
            }
            if count >= range.min {
                proof {
                    assert(children_view(children@) + Seq::<ChildView>::empty() =~= children_view(
                        children@,
                    ));
                }
                Ok(Some(children))
            } else {
                self.index = tmp_index;
                Ok(None)
            }
        }
    }

    fn lookahead(&mut self, elem: &Element, is_positive: bool) -> (result: OptionalParserResult<
        Vec<SyntaxChild>,
    >)
        ensures
            final(self).wf(),
            stepped(
                old(self)@,
                final(self)@,
                result,
                match evaluate(old(self)@.setting, elem@, old(self)@.index, old(self)@.recursion) {
                    Outcome::Matched { .. } => if is_positive {
                        Outcome::Matched { children: Seq::empty(), index: old(self)@.index }
                    } else {
                        Outcome::Failed
                    },
                    Outcome::Failed => if is_positive {
                        Outcome::Failed
                    } else {
                        Outcome::Matched { children: Seq::empty(), index: old(self)@.index }
                    },
                    other => other,
                },
            ),
        decreases 2 * headroom(old(self)@) + 1, elem, 1nat,
    {
        proof {
            use_type_invariant(&*self);
        }
        let tmp_index = self.index;
        let result = self.element(elem);
        match result {
            Ok(option) => {
                self.index = tmp_index;
                let has_succeeded = if is_positive {
                    option.is_some()
                } else {
                    option.is_none()
                };
                if has_succeeded {
                    let nothing: Vec<SyntaxChild> = Vec::new();
                    proof {
                        assert(children_view(nothing@) =~= Seq::empty());
                    }
                    Ok(Some(nothing))
                } else {
                    Ok(None)
                }
            },
            Err(e) => Err(e),
        }
    }

    /// Looks for the place from which `to` matches, a scalar further at each
    /// try.
    fn skip_to(&mut self, to: &Element, message: &String) -> (result: OptionalParserResult<
        Vec<SyntaxChild>,
    >)
        ensures
            final(self).wf(),
            stepped(
                old(self)@,
                final(self)@,
                result,
                evaluate_recovery(
                    old(self)@.setting,
                    to@,
                    message@,
                    old(self)@.index,
                    old(self)@.recursion,
                ),
            ),
        decreases 2 * headroom(old(self)@) + 1, to, 1nat,
    {
        proof {
            use_type_invariant(&*self);
        }
        let ghost start = self@;
        loop
            invariant
                self.wf(),
                start == old(self)@,
                self@.setting == start.setting,
                self@.recursion == start.recursion,
                self@.index <= start.setting.input.len(),
                evaluate_recovery(start.setting, to@, message@, start.index, start.recursion)
                    == evaluate_recovery(
                    start.setting,
                    to@,
                    message@,
                    self@.index,
                    start.recursion,
                ),
            decreases start.setting.input.len() - self@.index,
        {
            match self.element(to) {
                Ok(Some(children)) => {
                    let marked = vec![SyntaxChild::error(message.clone(), children)];
                    proof {
                        assert(children_view(marked@) =~= seq![marked@[0]@]);
                    }
                    return Ok(Some(marked));
                },
                Ok(None) => {
                    if self.index < self.input.len() {
                        self.index += 1;
                    } else {
                        return Err(ParserError::NoMatchedRule);
                    }
                },
                Err(error) => {
                    return Err(error);
                },
            }
        }
    }

    fn string(&mut self, s: &String) -> (result: OptionalParserResult<Vec<SyntaxChild>>)
        ensures
            final(self).wf(),
            stepped(
                old(self)@,
                final(self)@,
                result,
                evaluate(
                    old(self)@.setting,
                    ElementView::Expression(ExpressionView::String(s@)),
                    old(self)@.index,
                    old(self)@.recursion,
                ),
            ),
    {
        proof {
            use_type_invariant(&*self);
        }
        let ghost input = self.input@;
        let ghost from = self.index as int;
        let remaining = self.input.len() - self.index;
        let mut k: usize = 0;
        for scalar in it: s.as_str().chars()
            invariant
                self.wf(),
                self@ == old(self)@,
                input == self.input@,
                from == self.index,
                remaining == input.len() - from,
                input.len() <= usize::MAX,
                it.seq() == s@,
                k == it.index(),
                k <= remaining,
                forall|j: int| 0 <= j < k ==> input[from + j] == s@[j],
        {
            if k >= remaining {
                return Ok(None);
            }
            if self.input[self.index + k] != scalar {
                proof {
                    if from + s@.len() <= input.len() {
                        assert(input.subrange(from, from + s@.len())[k as int] == input[from + k]);
                    }
                }
                return Ok(None);
            }
            k += 1;
        }
        proof {
            assert(input.subrange(from, from + s@.len()) =~= s@);
        }
        let start = self.positions.get_position(self.index);
        self.index += k;
        let children = vec![SyntaxChild::leaf(start, s.clone())];
        proof {
            assert(children_view(children@) =~= seq![children@[0]@]);
        }
        Ok(Some(children))
    }

    fn character_class(&mut self, regex: &Regex) -> (result: OptionalParserResult<
        Vec<SyntaxChild>,
    >)
        ensures
            final(self).wf(),
            stepped(
                old(self)@,
                final(self)@,
                result,
                evaluate(
                    old(self)@.setting,
                    ElementView::Expression(ExpressionView::CharacterClass(*regex)),
                    old(self)@.index,
                    old(self)@.recursion,
                ),
            ),
    {
        proof {
            use_type_invariant(&*self);
        }
        if self.index < self.input.len() {
            let mut target = String::new();
            target.push(self.input[self.index]);
            match find_start(regex, target.as_str()) {
                Some(found) => {
                    if found == 0 {
                        let start = self.positions.get_position(self.index);
                        self.index += 1;
                        let children = vec![SyntaxChild::leaf(start, target)];
                        proof {
                            assert(children_view(children@) =~= seq![children@[0]@]);
                        }
                        Ok(Some(children))
                    } else {
                        Ok(None)
                    }
                },
                None => Ok(None),
            }
        } else {
            Ok(None)
        }
    }

    fn wildcard(&mut self) -> (result: OptionalParserResult<Vec<SyntaxChild>>)
        ensures
            final(self).wf(),
            stepped(
                old(self)@,
                final(self)@,
                result,
                evaluate(
                    old(self)@.setting,
                    ElementView::Expression(ExpressionView::Wildcard),
                    old(self)@.index,
                    old(self)@.recursion,
                ),
            ),
    {
        proof {
            use_type_invariant(&*self);
        }
        if self.index < self.input.len() {
            let mut s = String::new();
            s.push(self.input[self.index]);
            let start = self.positions.get_position(self.index);
            self.index += 1;
            let children = vec![SyntaxChild::leaf(start, s)];
            proof {
                assert(children_view(children@) =~= seq![children@[0]@]);
            }
            Ok(Some(children))
        } else {
            Ok(None)
        }
    }
}

} // verus!
