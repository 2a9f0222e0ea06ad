use crate::class::{compile, regex_compiles, regex_source};
use crate::rule::RuleId;
use crate::text::{decimal, push_decimal};
use regex::Regex;
use vstd::prelude::*;
use vstd::string::StringExecFns;

verus! {

/// The upper end of a loop's range.
#[derive(Copy, Clone, Debug, PartialEq)]
pub enum Maxable {
    Max(usize),
    NoLimit,
}

/// How often a loop may repeat its element: at least `min` times, and at most
/// `max` times where there is a limit.
#[derive(Copy, Clone, Debug, PartialEq)]
pub struct LoopRange {
    pub min: usize,
    pub max: Maxable,
}

impl LoopRange {
    /// The range whose loop is its element itself: once, no more and no less.
    pub open spec fn is_once(&self) -> bool {
        self.min == 1 && self.max == Maxable::Max(1)
    }

    pub fn times(n: usize) -> (range: LoopRange)
        ensures
            range == (LoopRange { min: n, max: Maxable::Max(n) }),
    {
        LoopRange::min_max(n, n)
    }

    pub fn min_max(min: usize, max: usize) -> (range: LoopRange)
        ensures
            range == (LoopRange { min, max: Maxable::Max(max) }),
    {
        LoopRange { min, max: Maxable::Max(max) }
    }

    pub fn min(min: usize) -> (range: LoopRange)
        ensures
            range == (LoopRange { min, max: Maxable::NoLimit }),
    {
        LoopRange { min, max: Maxable::NoLimit }
    }

    pub fn max(max: usize) -> (range: LoopRange)
        ensures
            range == (LoopRange { min: 0, max: Maxable::Max(max) }),
    {
        LoopRange { min: 0, max: Maxable::Max(max) }
    }

    pub fn is_single_times(&self) -> (single: bool)
        ensures
            single == self.is_once(),
    {
        match self.max {
            Maxable::Max(max) => self.min == 1 && max == 1,
            Maxable::NoLimit => false,
        }
    }
}

/// How a range reads behind its element: `*`, `+` and `?` for none or more,
/// one or more, and at most one; else the two ends between braces, the upper
/// one left out where there is no limit.
pub open spec fn range_form(range: LoopRange) -> Seq<char> {
    match range.max {
        Maxable::NoLimit => if range.min == 0 {
            "*"@
        } else if range.min == 1 {
            "+"@
        } else {
            "{"@ + decimal(range.min as nat) + ",}"@
        },
        Maxable::Max(max) => if range.min == 0 && max == 1 {
            "?"@
        } else {
            "{"@ + decimal(range.min as nat) + ","@ + decimal(max as nat) + "}"@
        },
    }
}

impl LoopRange {
    /// The range as it reads behind its element.
    pub fn to_string(&self) -> (text: String)
        ensures
            text@ == range_form(*self),
    {
        match self.max {
            Maxable::NoLimit => {
                if self.min == 0 {
                    String::from_str("*")
                } else if self.min == 1 {
                    String::from_str("+")
                } else {
                    let mut text = String::from_str("{");
                    push_decimal(&mut text, self.min);
                    text.append(",}");
                    text
                }
            },
            Maxable::Max(max) => {
                if self.min == 0 && max == 1 {
                    String::from_str("?")
                } else {
                    let mut text = String::from_str("{");
                    push_decimal(&mut text, self.min);
                    text.append(",");
                    push_decimal(&mut text, max);
                    text.append("}");
                    text
                }
            },
        }
    }
}

/// An atomic matcher.
pub enum Expression {
    Rule(RuleId),
    String(String),
    CharacterClass(Regex),
    Wildcard,
}

/// An expression of a grammar.
pub enum Element {
    Expression(Expression),
    Choice(Vec<Element>),
    Sequence(Vec<Element>),
    Loop(Box<Element>, LoopRange),
    PositiveLookahead(Box<Element>),
    NegativeLookahead(Box<Element>),
    Error(Box<Element>, String),
    CatchSkip(Box<Element>, String, Box<Element>),
    Group(Box<Element>, String),
    Expansion(Box<Element>),
    ExpansionOnce(Box<Element>),
    Hidden(Box<Element>),
}

pub enum ExpressionView {
    Rule(Seq<char>),
    String(Seq<char>),
    CharacterClass(Regex),
    Wildcard,
}

/// What an `Element` stands for: the same expression over sequences.
pub enum ElementView {
    Expression(ExpressionView),
    Choice(Seq<ElementView>),
    Sequence(Seq<ElementView>),
    Loop(Box<ElementView>, LoopRange),
    PositiveLookahead(Box<ElementView>),
    NegativeLookahead(Box<ElementView>),
    Error(Box<ElementView>, Seq<char>),
    CatchSkip(Box<ElementView>, Seq<char>, Box<ElementView>),
    Group(Box<ElementView>, Seq<char>),
    Expansion(Box<ElementView>),
    ExpansionOnce(Box<ElementView>),
    Hidden(Box<ElementView>),
}

impl View for Expression {
    type V = ExpressionView;

    open spec fn view(&self) -> ExpressionView {
        match self {
            Expression::Rule(id) => ExpressionView::Rule(id@),
            Expression::String(value) => ExpressionView::String(value@),
            Expression::CharacterClass(regex) => ExpressionView::CharacterClass(*regex),
            Expression::Wildcard => ExpressionView::Wildcard,
        }
    }
}

pub open spec fn element_view(element: Element) -> ElementView
    decreases element, 0nat,
{
    match element {
        Element::Expression(expression) => ElementView::Expression(expression@),
        Element::Choice(elements) => ElementView::Choice(elements_view(elements@)),
        Element::Sequence(elements) => ElementView::Sequence(elements_view(elements@)),
        Element::Loop(inner, range) => ElementView::Loop(Box::new(element_view(*inner)), range),
        Element::PositiveLookahead(inner) => ElementView::PositiveLookahead(
            Box::new(element_view(*inner)),
        ),
        Element::NegativeLookahead(inner) => ElementView::NegativeLookahead(
            Box::new(element_view(*inner)),
        ),
        Element::Error(inner, message) => ElementView::Error(
            Box::new(element_view(*inner)),
            message@,
        ),
        Element::CatchSkip(inner, message, to) => ElementView::CatchSkip(
            Box::new(element_view(*inner)),
            message@,
            Box::new(element_view(*to)),
        ),
        Element::Group(inner, name) => ElementView::Group(Box::new(element_view(*inner)), name@),
        Element::Expansion(inner) => ElementView::Expansion(Box::new(element_view(*inner))),
        Element::ExpansionOnce(inner) => ElementView::ExpansionOnce(
            Box::new(element_view(*inner)),
        ),
        Element::Hidden(inner) => ElementView::Hidden(Box::new(element_view(*inner))),
    }
}

/// The views of a list of elements, item by item.
pub open spec fn elements_view(elements: Seq<Element>) -> Seq<ElementView>
    decreases elements, 1nat,
{
    Seq::new(
        elements.len(),
        |i: int|
            if 0 <= i < elements.len() {
                element_view(elements[i])
            } else {
                arbitrary()
            },
    )
}

impl View for Element {
    type V = ElementView;

    open spec fn view(&self) -> ElementView {
        element_view(*self)
    }
}

impl Clone for Expression {
    fn clone(&self) -> (copy: Expression)
        ensures
            copy@ == self@,
    {
        match self {
            Expression::Rule(id) => Expression::Rule(id.clone()),
            Expression::String(value) => Expression::String(value.clone()),
            Expression::CharacterClass(regex) => Expression::CharacterClass(regex.clone()),
            Expression::Wildcard => Expression::Wildcard,
        }
    }
}

fn copy_element(element: &Element) -> (copy: Element)
    ensures
        copy@ == element@,
    decreases element, 0nat,
{
    match element {
        Element::Expression(expression) => Element::Expression(expression.clone()),
        Element::Choice(elements) => Element::Choice(copy_elements(elements)),
        Element::Sequence(elements) => Element::Sequence(copy_elements(elements)),
        Element::Loop(inner, range) => Element::Loop(Box::new(copy_element(inner)), *range),
        Element::PositiveLookahead(inner) => Element::PositiveLookahead(
            Box::new(copy_element(inner)),
        ),
        Element::NegativeLookahead(inner) => Element::NegativeLookahead(
            Box::new(copy_element(inner)),
        ),
        Element::Error(inner, message) => Element::Error(
            Box::new(copy_element(inner)),
            message.clone(),
        ),
        Element::CatchSkip(inner, message, to) => Element::CatchSkip(
            Box::new(copy_element(inner)),
            message.clone(),
            Box::new(copy_element(to)),
        ),
        Element::Group(inner, name) => Element::Group(Box::new(copy_element(inner)), name.clone()),
        Element::Expansion(inner) => Element::Expansion(Box::new(copy_element(inner))),
        Element::ExpansionOnce(inner) => Element::ExpansionOnce(Box::new(copy_element(inner))),
        Element::Hidden(inner) => Element::Hidden(Box::new(copy_element(inner))),
    }
}

fn copy_elements(elements: &Vec<Element>) -> (copies: Vec<Element>)
    ensures
        elements_view(copies@) == elements_view(elements@),
    decreases elements, 1nat,
{
    let mut copies: Vec<Element> = Vec::new();
    let mut k: usize = 0;
    while k < elements.len()
        invariant
            k <= elements.len(),
            copies@.len() == k,
            forall|j: int| 0 <= j < k ==> copies@[j]@ == elements@[j]@,
        decreases elements.len() - k,
    {
        copies.push(copy_element(&elements[k]));
        k += 1;
    }
    proof {
        assert(elements_view(copies@) =~= elements_view(elements@));
    }
    copies
}

impl Clone for Element {
    fn clone(&self) -> (copy: Element)
        ensures
            copy@ == self@,
    {
        copy_element(self)
    }
}

/// Whether the leftmost place of an element, reached before any input is
/// consumed, refers to the rule `id`: the first item of a choice or of a
/// sequence is looked into, a rule reference is compared, anything else does
/// not.
pub open spec fn left_recursive(element: ElementView, id: Seq<char>) -> bool
    decreases element,
{
    match element {
        ElementView::Choice(elements) => elements.len() > 0 && left_recursive(elements[0], id),
        ElementView::Sequence(elements) => elements.len() > 0 && left_recursive(elements[0], id),
        ElementView::Expression(ExpressionView::Rule(found)) => found == id,
        _ => false,
    }
}

pub open spec fn loop_of(element: ElementView, range: LoopRange) -> ElementView {
    ElementView::Loop(Box::new(element), range)
}

/// `e?`: at most once.
pub open spec fn optional_of(element: ElementView) -> ElementView {
    loop_of(element, LoopRange { min: 0, max: Maxable::Max(1) })
}

/// `enclosure self enclosure`.
pub open spec fn around_of(element: ElementView, enclosure: ElementView) -> ElementView {
    ElementView::Sequence(seq![enclosure, element, enclosure])
}

/// `self (separator self){range} separator?`.
pub open spec fn separate_times_of(
    element: ElementView,
    separator: ElementView,
    range: LoopRange,
) -> ElementView {
    ElementView::Sequence(
        seq![
            element,
            loop_of(ElementView::Sequence(seq![separator, element]), range),
            optional_of(separator),
        ],
    )
}

/// `self (separator self)* separator?`.
pub open spec fn separate_of(element: ElementView, separator: ElementView) -> ElementView {
    separate_times_of(element, separator, LoopRange { min: 0, max: Maxable::NoLimit })
}

/// `separator? self (separator self)* separator?`.
pub open spec fn separate_around_of(element: ElementView, separator: ElementView) -> ElementView {
    ElementView::Sequence(
        seq![
            optional_of(separator),
            element,
            loop_of(
                ElementView::Sequence(seq![separator, element]),
                LoopRange { min: 0, max: Maxable::NoLimit },
            ),
            optional_of(separator),
        ],
    )
}

fn sequence_of_two(first: Element, second: Element) -> (element: Element)
    ensures
        element@ == ElementView::Sequence(seq![first@, second@]),
{
    let mut elements: Vec<Element> = Vec::new();
    elements.push(first);
    elements.push(second);
    proof {
        assert(elements_view(elements@) =~= seq![first@, second@]);
    }
    Element::Sequence(elements)
}

impl Element {
    fn range(self, range: LoopRange) -> (element: Element)
        ensures
            element@ == loop_of(self@, range),
    {
        Element::Loop(Box::new(self), range)
    }

    /// Exactly `n` times.
    pub fn times(self, n: usize) -> (element: Element)
        ensures
            element@ == loop_of(self@, LoopRange { min: n, max: Maxable::Max(n) }),
    {
        self.min_max(n, n)
    }

    /// At least `min` and at most `max` times.
    pub fn min_max(self, min: usize, max: usize) -> (element: Element)
        ensures
            element@ == loop_of(self@, LoopRange { min, max: Maxable::Max(max) }),
    {
        self.range(LoopRange::min_max(min, max))
    }

    /// At least `min` times.
    pub fn min(self, min: usize) -> (element: Element)
        ensures
            element@ == loop_of(self@, LoopRange { min, max: Maxable::NoLimit }),
    {
        self.range(LoopRange::min(min))
    }

    /// At most `max` times.
    pub fn max(self, max: usize) -> (element: Element)
        ensures
            element@ == loop_of(self@, LoopRange { min: 0, max: Maxable::Max(max) }),
    {
        self.range(LoopRange::max(max))
    }

    pub fn optional(self) -> (element: Element)
        ensures
            element@ == optional_of(self@),
    {
        self.min_max(0, 1)
    }

    pub fn poslook(self) -> (element: Element)
        ensures
            element@ == ElementView::PositiveLookahead(Box::new(self@)),
    {
        Element::PositiveLookahead(Box::new(self))
    }

    pub fn neglook(self) -> (element: Element)
        ensures
            element@ == ElementView::NegativeLookahead(Box::new(self@)),
    {
        Element::NegativeLookahead(Box::new(self))
    }

    pub fn err(self, message: &str) -> (element: Element)
        ensures
            element@ == ElementView::Error(Box::new(self@), message@),
    {
        Element::Error(Box::new(self), String::from_str(message))
    }

    pub fn catch_to(self, message: &str, to: Element) -> (element: Element)
        ensures
            element@ == ElementView::CatchSkip(Box::new(self@), message@, Box::new(to@)),
    {
        Element::CatchSkip(Box::new(self), String::from_str(message), Box::new(to))
    }

    pub fn group(self, name: &str) -> (element: Element)
        ensures
            element@ == ElementView::Group(Box::new(self@), name@),
    {
        Element::Group(Box::new(self), String::from_str(name))
    }

    pub fn expand(self) -> (element: Element)
        ensures
            element@ == ElementView::Expansion(Box::new(self@)),
    {
        Element::Expansion(Box::new(self))
    }

    pub fn expand_once(self) -> (element: Element)
        ensures
            element@ == ElementView::ExpansionOnce(Box::new(self@)),
    {
        Element::ExpansionOnce(Box::new(self))
    }

    pub fn hidden(self) -> (element: Element)
        ensures
            element@ == ElementView::Hidden(Box::new(self@)),
    {
        Element::Hidden(Box::new(self))
    }

    pub fn around(self, enclosure: Element) -> (element: Element)
        ensures
            element@ == around_of(self@, enclosure@),
    {
        let mut elements: Vec<Element> = Vec::new();
        elements.push(enclosure.clone());
        elements.push(self);
        elements.push(enclosure);
        proof {
            assert(elements_view(elements@) =~= seq![enclosure@, self@, enclosure@]);
        }
        Element::Sequence(elements)
    }

    pub fn separate(self, separator: Element) -> (element: Element)
        ensures
            element@ == separate_of(self@, separator@),
    {
        self.separate_times(separator, LoopRange::min(0))
    }

    pub fn separate_times(self, separator: Element, loop_range: LoopRange) -> (element: Element)
        ensures
            element@ == separate_times_of(self@, separator@, loop_range),
    {
        let mut elements: Vec<Element> = Vec::new();
        elements.push(self.clone());
        elements.push(sequence_of_two(separator.clone(), self).range(loop_range));
        elements.push(separator.optional());
        proof {
            assert(elements_view(elements@) =~= seq![
                self@,
                loop_of(ElementView::Sequence(seq![separator@, self@]), loop_range),
                optional_of(separator@),
            ]);
        }
        Element::Sequence(elements)
    }

    pub fn separate_around(self, separator: Element) -> (element: Element)
        ensures
            element@ == separate_around_of(self@, separator@),
    {
        let mut elements: Vec<Element> = Vec::new();
        elements.push(separator.clone().optional());
        elements.push(self.clone());
        elements.push(sequence_of_two(separator.clone(), self).min(0));
        elements.push(separator.optional());
        proof {
            assert(elements_view(elements@) =~= seq![
                optional_of(separator@),
                self@,
                loop_of(
                    ElementView::Sequence(seq![separator@, self@]),
                    LoopRange { min: 0, max: Maxable::NoLimit },
                ),
                optional_of(separator@),
            ]);
        }
        Element::Sequence(elements)
    }

    /// Whether the rule `rule_id`, with this element as its body, would call
    /// itself before it has consumed anything.
    pub fn has_left_recursion(&self, rule_id: &RuleId) -> (found: bool)
        ensures
            found == left_recursive(self@, rule_id@),
        decreases self,
    {
        match self {
            Element::Choice(elems) | Element::Sequence(elems) => {
                assert(elements_view(elems@).len() == elems@.len());
                if elems.len() > 0 {
                    assert(elements_view(elems@)[0] == elems@[0]@);
                    elems[0].has_left_recursion(rule_id)
                } else {
                    false
                }
            },
            Element::Expression(expr) => match expr {
                Expression::Rule(id) => rule_id.0 == id.0,
                _ => false,
            },
            _ => false,
        }
    }
}

/// How an atomic matcher reads: a rule by its name, a literal between double
/// quotes, a character class as its regular expression, the wildcard as `_`.
pub open spec fn expression_form(expression: ExpressionView) -> Seq<char> {
    match expression {
        ExpressionView::Rule(id) => id,
        ExpressionView::String(value) => "\""@ + value + "\""@,
        ExpressionView::CharacterClass(regex) => regex_source(regex),
        ExpressionView::Wildcard => "_"@,
    }
}

/// How an element reads.
pub open spec fn element_form(element: ElementView) -> Seq<char>
    decreases element, 0nat,
{
    match element {
        ElementView::Expression(expression) => expression_form(expression),
        ElementView::Choice(elements) => "("@ + joined_forms(elements, " / "@) + ")"@,
        ElementView::Sequence(elements) => "("@ + joined_forms(elements, " "@) + ")"@,
        ElementView::Loop(inner, range) => element_form(*inner) + range_form(range),
        ElementView::PositiveLookahead(inner) => "&"@ + element_form(*inner),
        ElementView::NegativeLookahead(inner) => "!"@ + element_form(*inner),
        ElementView::Error(inner, message) => element_form(*inner) + ".err("@ + message + ")"@,
        ElementView::CatchSkip(inner, message, to) => element_form(*inner) + ".catch_to("@
            + element_form(*to) + ","@ + message + ")"@,
        ElementView::Group(inner, name) => element_form(*inner) + "#"@ + name,
        ElementView::Expansion(inner) => element_form(*inner) + "###"@,
        ElementView::ExpansionOnce(inner) => element_form(*inner) + "###"@,
        ElementView::Hidden(inner) => element_form(*inner) + "##"@,
    }
}

/// The forms of a list of elements with the separator between each two.
pub open spec fn joined_forms(elements: Seq<ElementView>, separator: Seq<char>) -> Seq<char>
    decreases elements, 1nat,
{
    if elements.len() == 0 {
        Seq::empty()
    } else if elements.len() == 1 {
        element_form(elements[0])
    } else {
        joined_forms(elements.drop_last(), separator) + separator + element_form(elements.last())
    }
}

impl Expression {
    /// The expression as it reads in a grammar.
    pub fn to_string(&self) -> (text: String)
        ensures
            text@ == expression_form(self@),
    {
        match self {
            Expression::Rule(id) => id.to_string(),
            Expression::String(value) => {
                let mut text = String::from_str("\"");
                text.append(value.as_str());
                text.append("\"");
                text
            },
            Expression::CharacterClass(regex) => String::from_str(regex.as_str()),
            Expression::Wildcard => String::from_str("_"),
        }
    }
}

fn form_of(element: &Element) -> (text: String)
    ensures
        text@ == element_form(element@),
    decreases element, 0nat,
{
    match element {
        Element::Expression(expression) => expression.to_string(),
        Element::Choice(elements) => {
            let mut text = String::from_str("(");
            let inner = forms_of(elements, " / ");
            text.append(inner.as_str());
            text.append(")");
            text
        },
        Element::Sequence(elements) => {
            let mut text = String::from_str("(");
            let inner = forms_of(elements, " ");
            text.append(inner.as_str());
            text.append(")");
            text
        },
        Element::Loop(inner, range) => {
            let mut text = form_of(inner);
            let suffix = range.to_string();
            text.append(suffix.as_str());
            text
        },
        Element::PositiveLookahead(inner) => {
            let mut text = String::from_str("&");
            let rest = form_of(inner);
            text.append(rest.as_str());
            text
        },
        Element::NegativeLookahead(inner) => {
            let mut text = String::from_str("!");
            let rest = form_of(inner);
            text.append(rest.as_str());
            text
        },
        Element::Error(inner, message) => {
            let mut text = form_of(inner);
            text.append(".err(");
            text.append(message.as_str());
            text.append(")");
            text
        },
        Element::CatchSkip(inner, message, to) => {
            let mut text = form_of(inner);
            text.append(".catch_to(");
            let target = form_of(to);
            text.append(target.as_str());
            text.append(",");
            text.append(message.as_str());
            text.append(")");
            text
        },
        Element::Group(inner, name) => {
            let mut text = form_of(inner);
            text.append("#");
            text.append(name.as_str());
            text
        },
        Element::Expansion(inner) => {
            let mut text = form_of(inner);
            text.append("###");
            text
        },
        Element::ExpansionOnce(inner) => {
            let mut text = form_of(inner);
            text.append("###");
            text
        },
        Element::Hidden(inner) => {
            let mut text = form_of(inner);
            text.append("##");
            text
        },
    }
}

fn forms_of(elements: &Vec<Element>, separator: &str) -> (text: String)
    ensures
        text@ == joined_forms(elements_view(elements@), separator@),
    decreases elements, 1nat,
{
    let ghost views = elements_view(elements@);
    let mut text = String::new();
    let mut k: usize = 0;
    while k < elements.len()
        invariant
            k <= elements.len(),
            views == elements_view(elements@),
            text@ == joined_forms(views.take(k as int), separator@),
        decreases elements.len() - k,
    {
        proof {
            let upto = views.take(k + 1);
            assert(upto.drop_last() =~= views.take(k as int));
            assert(upto.last() == elements@[k as int]@);
            assert(upto[0] == views[0]);
        }
        if k > 0 {
            text.append(separator);
        }
        let part = form_of(&elements[k]);
        text.append(part.as_str());
        k += 1;
    }
    proof {
        assert(views.take(k as int) =~= views);
    }
    text
}

impl Element {
    /// The element in the notation of grammars.
    pub fn to_string(&self) -> (text: String)
        ensures
            text@ == element_form(self@),
    {
        form_of(self)
    }
}

/// Why an element could not be built.
#[derive(Copy, Clone, Debug, PartialEq, Eq)]
pub enum ElementError {
    /// A literal must hold at least one scalar.
    EmptyString,
    /// The character class is no valid regular expression.
    InvalidCharacterClass,
}

/// The regular expression of a character class: the class's text between
/// square brackets, with a backslash before each square bracket of its own.
pub open spec fn class_pattern(class: Seq<char>) -> Seq<char> {
    seq!['['] + escape_brackets(class) + seq![']']
}

pub open spec fn escape_brackets(class: Seq<char>) -> Seq<char>
    decreases class.len(),
{
    if class.len() == 0 {
        Seq::empty()
    } else if class.last() == '[' || class.last() == ']' {
        escape_brackets(class.drop_last()).push('\\').push(class.last())
    } else {
        escape_brackets(class.drop_last()).push(class.last())
    }
}

/// The literal `s`. An empty literal is refused.
pub fn str(s: &str) -> (element: Result<Element, ElementError>)
    ensures
        s@.len() == 0 ==> element == Err::<Element, ElementError>(ElementError::EmptyString),
        s@.len() > 0 ==> element is Ok && element->Ok_0@ == ElementView::Expression(
            ExpressionView::String(s@),
        ),
{
    if s.is_empty() {
        Err(ElementError::EmptyString)
    } else {
        Ok(Element::Expression(Expression::String(String::from_str(s))))
    }
}

/// One scalar out of the class `s`, which is written as between the square
/// brackets of a regular expression. A class that the regex crate does not
/// accept is refused.
pub fn chars(s: &str) -> (element: Result<Element, ElementError>)
    ensures
        !regex_compiles(class_pattern(s@)) ==> element == Err::<Element, ElementError>(
            ElementError::InvalidCharacterClass,
        ),
        regex_compiles(class_pattern(s@)) ==> element is Ok && (element->Ok_0@
            matches ElementView::Expression(ExpressionView::CharacterClass(regex))
            && regex_source(regex) == class_pattern(s@)),
{
    let mut pattern = String::new();
    pattern.push('[');
    let ghost mut done: Seq<char> = Seq::empty();
    for scalar in it: s.chars()
        invariant
            it.seq() == s@,
            done == s@.take(it.index() as int),
            pattern@ == seq!['['] + escape_brackets(done),
    {
        proof {
            let upto = s@.take(it.index() + 1);
            assert(upto.drop_last() =~= done);
            assert(upto.last() == scalar);
            done = upto;
        }
        if scalar == '[' || scalar == ']' {
            pattern.push('\\');
        }
        pattern.push(scalar);
        assert(pattern@ =~= seq!['['] + escape_brackets(done));
    }
    proof {
        assert(s@.take(s@.len() as int) =~= s@);
    }
    pattern.push(']');
    assert(pattern@ =~= class_pattern(s@));
    match compile(pattern.as_str()) {
        Ok(regex) => Ok(Element::Expression(Expression::CharacterClass(regex))),
        Err(_) => Err(ElementError::InvalidCharacterClass),
    }
}

/// Any one scalar.
pub fn wildcard() -> (element: Element)
    ensures
        element@ == ElementView::Expression(ExpressionView::Wildcard),
{
    Element::Expression(Expression::Wildcard)
}

/// The rule of that name.
pub fn rule_ref(id: &str) -> (element: Element)
    ensures
        element@ == ElementView::Expression(ExpressionView::Rule(id@)),
{
    Element::Expression(Expression::Rule(RuleId(String::from_str(id))))
}

/// The elements one after the other.
pub fn sequence(elements: Vec<Element>) -> (element: Element)
    ensures
        element@ == ElementView::Sequence(elements_view(elements@)),
{
    Element::Sequence(elements)
}

/// The first of the elements that matches.
pub fn choice(elements: Vec<Element>) -> (element: Element)
    ensures
        element@ == ElementView::Choice(elements_view(elements@)),
{
    Element::Choice(elements)
}

} // verus!
