use crate::element::{element_form, left_recursive, Element, ElementView};
use vstd::prelude::*;
use vstd::string::StringExecFns;
use vstd::std_specs::cmp::PartialEqSpecImpl;

verus! {

/// The name of a rule.
#[derive(Debug, Eq, Hash)]
pub struct RuleId(pub String);

impl View for RuleId {
    type V = Seq<char>;

    open spec fn view(&self) -> Seq<char> {
        self.0@
    }
}

impl Clone for RuleId {
    fn clone(&self) -> (copy: RuleId)
        ensures
            copy == *self,
    {
        RuleId(self.0.clone())
    }
}

impl PartialEq for RuleId {
    fn eq(&self, other: &Self) -> (equal: bool) {
        self.0 == other.0
    }
}

impl PartialEqSpecImpl for RuleId {
    open spec fn obeys_eq_spec() -> bool {
        true
    }

    open spec fn eq_spec(&self, other: &Self) -> bool {
        self@ == other@
    }
}

impl RuleId {
    /// The identifier as text.
    pub fn to_string(&self) -> (text: String)
        ensures
            text@ == self@,
    {
        self.0.clone()
    }
}

/// A named element.
pub struct Rule {
    pub id: RuleId,
    pub element: Element,
}

pub struct RuleView {
    pub id: Seq<char>,
    pub element: ElementView,
}

impl View for Rule {
    type V = RuleView;

    open spec fn view(&self) -> RuleView {
        RuleView { id: self.id@, element: self.element@ }
    }
}

impl Clone for Rule {
    fn clone(&self) -> (copy: Rule)
        ensures
            copy@ == self@,
    {
        Rule { id: self.id.clone(), element: self.element.clone() }
    }
}

/// Why a rule is refused.
#[derive(Debug, PartialEq)]
pub enum RuleError {
    /// A rule of that name is there already.
    AlreadyDeclared { id: RuleId },
    /// The rule would call itself before it has consumed anything.
    LeftRecursion { id: RuleId },
}

pub enum RuleErrorView {
    AlreadyDeclared { id: Seq<char> },
    LeftRecursion { id: Seq<char> },
}

impl View for RuleError {
    type V = RuleErrorView;

    open spec fn view(&self) -> RuleErrorView {
        match self {
            RuleError::AlreadyDeclared { id } => RuleErrorView::AlreadyDeclared { id: id@ },
            RuleError::LeftRecursion { id } => RuleErrorView::LeftRecursion { id: id@ },
        }
    }
}

/// The message of a refusal.
pub open spec fn error_message(error: RuleErrorView) -> Seq<char> {
    match error {
        RuleErrorView::AlreadyDeclared { id } => "Rule ID `"@ + id + "` is already declared."@,
        RuleErrorView::LeftRecursion { id } => "Left recursion detected at rule definition of `"@
            + id + "`."@,
    }
}

impl RuleError {
    pub fn to_string(&self) -> (text: String)
        ensures
            text@ == error_message(self@),
    {
        match self {
            RuleError::AlreadyDeclared { id } => {
                let mut text = String::from_str("Rule ID `");
                text.append(id.0.as_str());
                text.append("` is already declared.");
                text
            },
            RuleError::LeftRecursion { id } => {
                let mut text = String::from_str("Left recursion detected at rule definition of `");
                text.append(id.0.as_str());
                text.append("`.");
                text
            },
        }
    }
}

/// How a rule reads: `id := element;`.
pub open spec fn rule_form(rule: RuleView) -> Seq<char> {
    rule.id + " := "@ + element_form(rule.element) + ";"@
}

/// The rules of a list, one on each line.
pub open spec fn rules_form(rules: Seq<RuleView>) -> Seq<char>
    decreases rules.len(),
{
    if rules.len() == 0 {
        Seq::empty()
    } else if rules.len() == 1 {
        rule_form(rules[0])
    } else {
        rules_form(rules.drop_last()) + "\n"@ + rule_form(rules.last())
    }
}

pub open spec fn rules_view(rules: Seq<Rule>) -> Seq<RuleView> {
    Seq::new(rules.len(), |i: int| rules[i]@)
}

impl Rule {
    pub fn new(id: RuleId, element: Element) -> (rule: Rule)
        ensures
            rule.id == id,
            rule.element == element,
    {
        Rule { id, element }
    }

    /// The rule itself, unless its element is left-recursive in the rule's
    /// own name.
    pub fn detect_left_recursion(self) -> (checked: Result<Rule, RuleError>)
        ensures
            left_recursive(self.element@, self.id@) ==> checked is Err && checked->Err_0@ == (
            RuleErrorView::LeftRecursion { id: self.id@ }),
            !left_recursive(self.element@, self.id@) ==> checked == Ok::<Rule, RuleError>(self),
    {
        if self.element.has_left_recursion(&self.id) {
            Err(RuleError::LeftRecursion { id: self.id })
        } else {
            Ok(self)
        }
    }

    pub fn to_string(&self) -> (text: String)
        ensures
            text@ == rule_form(self@),
    {
        let mut text = self.id.to_string();
        text.append(" := ");
        let element = self.element.to_string();
        text.append(element.as_str());
        text.append(";");
        text
    }
}

/// The rules of a module, in the order in which they are registered.
pub struct RuleVec(pub Vec<Rule>);

impl View for RuleVec {
    type V = Seq<RuleView>;

    open spec fn view(&self) -> Seq<RuleView> {
        rules_view(self.0@)
    }
}

impl Clone for RuleVec {
    fn clone(&self) -> (copy: RuleVec)
        ensures
            copy@ == self@,
    {
        let mut rules: Vec<Rule> = Vec::new();
        let mut k: usize = 0;
        while k < self.0.len()
            invariant
                k <= self.0.len(),
                rules@.len() == k,
                forall|j: int| 0 <= j < k ==> rules@[j]@ == self.0@[j]@,
            decreases self.0.len() - k,
        {
            rules.push(self.0[k].clone());
            k += 1;
        }
        proof {
            assert(rules_view(rules@) =~= rules_view(self.0@));
        }
        RuleVec(rules)
    }
}

impl RuleVec {
    pub fn to_string(&self) -> (text: String)
        ensures
            text@ == rules_form(self@),
    {
        let ghost views = rules_view(self.0@);
        let mut text = String::new();
        let mut k: usize = 0;
        while k < self.0.len()
            invariant
                k <= self.0.len(),
                views == rules_view(self.0@),
                text@ == rules_form(views.take(k as int)),
            decreases self.0.len() - k,
        {
            proof {
                let upto = views.take(k + 1);
                assert(upto.drop_last() =~= views.take(k as int));
                assert(upto.last() == self.0@[k as int]@);
                assert(upto[0] == views[0]);
            }
            if k > 0 {
                text.append("\n");
            }
            let line = self.0[k].to_string();
            text.append(line.as_str());
            k += 1;
        }
        proof {
            assert(views.take(k as int) =~= views);
        }
        text
    }

    /// The rules themselves.
    pub fn into_vec(self) -> (rules: Vec<Rule>)
        ensures
            rules == self.0,
    {
        self.0
    }
}

} // verus!
