pub mod class;
pub mod element;
pub mod laws;
pub mod matching;
pub mod parser;
pub mod rule;
pub mod text;
pub mod tree;

use element::{left_recursive, Element, ElementView};
use matching::parse_result;
use parser::{Parser, ParserResult};
use rule::{rules_view, Rule, RuleError, RuleErrorView, RuleId, RuleVec, RuleView};
use vstd::prelude::*;

verus! {

/// What a registry holds: its rules in the order in which they came, and the
/// number of rules that may be active at once during a parse.
pub struct VoltView {
    pub rules: Seq<RuleView>,
    pub max_recursion: nat,
}

/// Whether a rule of that name is among the rules.
pub open spec fn has_rule(rules: Seq<RuleView>, id: Seq<char>) -> bool {
    exists|k: int| 0 <= k < rules.len() && (#[trigger] rules[k]).id == id
}

/// The index of the first rule of that name, or the number of rules where
/// there is none.
pub open spec fn rule_index(rules: Seq<RuleView>, id: Seq<char>) -> int
    decreases rules.len(),
{
    if rules.len() == 0 {
        0
    } else if rules.first().id == id {
        0
    } else {
        1 + rule_index(rules.drop_first(), id)
    }
}

/// The element of the rule of that name.
pub open spec fn find_rule(rules: Seq<RuleView>, id: Seq<char>) -> Option<ElementView> {
    let k = rule_index(rules, id);
    if k < rules.len() {
        Some(rules[k].element)
    } else {
        None
    }
}

/// No two rules share a name, and no rule is left-recursive in its own name.
pub open spec fn well_formed(rules: Seq<RuleView>) -> bool {
    &&& forall|i: int, j: int|
        0 <= i < j < rules.len() ==> (#[trigger] rules[i]).id != (#[trigger] rules[j]).id
    &&& forall|i: int|
        0 <= i < rules.len() ==> !left_recursive((#[trigger] rules[i]).element, rules[i].id)
}

/// What comes of adding rules to those that are there, one after the other:
/// all of them, or the refusal of the first that cannot be added, because
/// its name is taken or because it is left-recursive.
pub open spec fn register(existing: Seq<RuleView>, added: Seq<RuleView>) -> Result<
    Seq<RuleView>,
    RuleErrorView,
>
    decreases added.len(),
{
    if added.len() == 0 {
        Ok(existing)
    } else {
        let rule = added.first();
        if has_rule(existing, rule.id) {
            Err(RuleErrorView::AlreadyDeclared { id: rule.id })
        } else if left_recursive(rule.element, rule.id) {
            Err(RuleErrorView::LeftRecursion { id: rule.id })
        } else {
            register(existing.push(rule), added.drop_first())
        }
    }
}

/// What `add_rules` makes of a registry: with all the rules added, or
/// unchanged with the refusal.
pub open spec fn registered(
    before: VoltView,
    added: Seq<RuleView>,
    after: VoltView,
    result: Result<(), RuleError>,
) -> bool {
    match register(before.rules, added) {
        Ok(rules) => result is Ok && after == (VoltView { rules, ..before }),
        Err(error) => result is Err && result->Err_0@ == error && after == before,
    }
}

/// `rule_index` gives the first rule of that name, or the length.
pub proof fn lemma_rule_index(rules: Seq<RuleView>, id: Seq<char>)
    ensures
        0 <= rule_index(rules, id) <= rules.len(),
        rule_index(rules, id) < rules.len() <==> has_rule(rules, id),
        rule_index(rules, id) < rules.len() ==> rules[rule_index(rules, id)].id == id,
        forall|j: int| 0 <= j < rule_index(rules, id) ==> (#[trigger] rules[j]).id != id,
    decreases rules.len(),
{
    if rules.len() > 0 {
        let rest = rules.drop_first();
        lemma_rule_index(rest, id);
        if rules.first().id != id {
            assert forall|j: int| 0 <= j < rule_index(rules, id) implies (#[trigger] rules[j]).id
                != id by {
                if j > 0 {
                    assert(rules[j] == rest[j - 1]);
                }
            }
            if has_rule(rules, id) {
                let k = choose|k: int| 0 <= k < rules.len() && (#[trigger] rules[k]).id == id;
                assert(rest[k - 1] == rules[k]);
            }
            if has_rule(rest, id) {
                let k = choose|k: int| 0 <= k < rest.len() && (#[trigger] rest[k]).id == id;
                assert(rules[k + 1] == rest[k]);
            }
        } else {
            assert(rules[0].id == id);
        }
    }
}

/// Adding succeeds exactly where each new rule has a name that neither a rule
/// of the registry nor an earlier new rule has, and is not left-recursive;
/// the registry then holds the old rules followed by the new ones, and is
/// well-formed if it was.
pub proof fn lemma_register(existing: Seq<RuleView>, added: Seq<RuleView>)
    ensures
        register(existing, added) is Ok <==> (forall|k: int|
            0 <= k < added.len() ==> !has_rule(existing + added.take(k), (#[trigger] added[k]).id)
                && !left_recursive(added[k].element, added[k].id)),
        register(existing, added) is Ok ==> register(existing, added) == Ok::<
            Seq<RuleView>,
            RuleErrorView,
        >(existing + added),
        register(existing, added) is Ok && well_formed(existing) ==> well_formed(existing + added),
    decreases added.len(),
{
    if added.len() == 0 {
        assert(existing + added =~= existing);
    } else {
        let rule = added.first();
        let rest = added.drop_first();
        assert(existing + added.take(0) =~= existing);
        if !has_rule(existing, rule.id) && !left_recursive(rule.element, rule.id) {
            let grown = existing.push(rule);
            lemma_register(grown, rest);
            assert(grown + rest =~= existing + added);
            assert forall|k: int| 0 <= k < rest.len() implies (grown + rest.take(k) =~= existing
                + added.take(k + 1)) && #[trigger] rest[k] == added[k + 1] by {}
            if register(existing, added) is Ok {
                assert forall|k: int| 0 <= k < added.len() implies !has_rule(
                    existing + added.take(k),
                    (#[trigger] added[k]).id,
                ) && !left_recursive(added[k].element, added[k].id) by {
                    if k > 0 {
                        assert(rest[k - 1] == added[k]);
                        assert(grown + rest.take(k - 1) =~= existing + added.take(k));
                    }
                }
            }
            if forall|k: int|
                0 <= k < added.len() ==> !has_rule(
                    existing + added.take(k),
                    (#[trigger] added[k]).id,
                ) && !left_recursive(added[k].element, added[k].id) {
                assert forall|k: int| 0 <= k < rest.len() implies !has_rule(
                    grown + rest.take(k),
                    (#[trigger] rest[k]).id,
                ) && !left_recursive(rest[k].element, rest[k].id) by {
                    assert(rest[k] == added[k + 1]);
                    assert(grown + rest.take(k) =~= existing + added.take(k + 1));
                }
            }
            if well_formed(existing) {
                assert(well_formed(grown)) by {
                    assert forall|i: int, j: int| 0 <= i < j < grown.len() implies (
                    #[trigger] grown[i]).id != (#[trigger] grown[j]).id by {
                        if j == existing.len() {
                            assert(existing[i].id != rule.id);
                        }
                    }
                }
            }
        } else {
            assert(added[0] == rule);
        }
    }
}

/// A batch that holds a left-recursive rule is refused.
pub proof fn lemma_left_recursion_is_refused(
    before: VoltView,
    added: Seq<RuleView>,
    after: VoltView,
    result: Result<(), RuleError>,
    k: int,
)
    requires
        registered(before, added, after, result),
        0 <= k < added.len(),
        left_recursive(added[k].element, added[k].id),
    ensures
        result is Err,
        after == before,
{
    lemma_register(before.rules, added);
}

/// A registry of rules: the grammar that a parse runs on.
pub struct Volt {
    rules: Vec<Rule>,
    max_recursion: usize,
}

impl View for Volt {
    type V = VoltView;

    closed spec fn view(&self) -> VoltView {
        VoltView { rules: rules_view(self.rules@), max_recursion: self.max_recursion as nat }
    }
}

/// Whether one of the first `upto` rules has that name.
fn holds_rule(rules: &Vec<Rule>, upto: usize, id: &RuleId) -> (found: bool)
    requires
        upto <= rules.len(),
    ensures
        found == has_rule(rules_view(rules@).take(upto as int), id@),
{
    let ghost views = rules_view(rules@).take(upto as int);
    let mut k: usize = 0;
    while k < upto
        invariant
            k <= upto <= rules.len(),
            views == rules_view(rules@).take(upto as int),
            forall|j: int| 0 <= j < k ==> (#[trigger] views[j]).id != id@,
        decreases upto - k,
    {
        if rules[k].id.0 == id.0 {
            assert(views[k as int].id == id@);
            return true;
        }
        k += 1;
    }
    false
}

impl Volt {
    /// A registry without rules, which lets 1024 rules be active at once.
    pub fn new() -> (volt: Volt)
        ensures
            volt@ == (VoltView { rules: Seq::empty(), max_recursion: 1024 }),
    {
        let volt = Volt { rules: Vec::new(), max_recursion: 1024 };
        assert(volt@.rules =~= Seq::empty());
        volt
    }

    /// Adds the rules of a module, all of them or none. What the rules are is
    /// the module's matter; what becomes of them is what `add_rules` says.
    pub fn add_module<T: VoltModuleAssist>(&mut self, module: T) -> (result: Result<(), RuleError>)
        ensures
            exists|added: Seq<RuleView>| registered(old(self)@, added, final(self)@, result),
            well_formed(old(self)@.rules) ==> well_formed(final(self)@.rules),
    {
        let rules = module.into_rule_vec().into_vec();
        let ghost added = rules_view(rules@);
        let result = self.add_rules(rules);
        assert(registered(old(self)@, added, self@, result));
        result
    }

    /// Adds rules, all of them or none: a rule whose name is taken, by a rule
    /// of the registry or by an earlier one of the new rules, or that is
    /// left-recursive in its own name, is refused, and the registry stays as
    /// it was.
    pub fn add_rules(&mut self, rules: Vec<Rule>) -> (result: Result<(), RuleError>)
        ensures
            registered(old(self)@, rules_view(rules@), final(self)@, result),
            well_formed(old(self)@.rules) ==> well_formed(final(self)@.rules),
            (exists|k: int|
                0 <= k < rules@.len() && left_recursive(
                    (#[trigger] rules@[k])@.element,
                    rules@[k]@.id,
                )) ==> result is Err,
    {
        let ghost existing = rules_view(self.rules@);
        let ghost added = rules_view(rules@);
        proof {
            lemma_register(existing, added);
            if exists|k: int|
                0 <= k < rules@.len() && left_recursive(
                    (#[trigger] rules@[k])@.element,
                    rules@[k]@.id,
                ) {
                let k = choose|k: int|
                    0 <= k < rules@.len() && left_recursive(
                        (#[trigger] rules@[k])@.element,
                        rules@[k]@.id,
                    );
                assert(added[k] == rules@[k]@);
            }
        }
        let mut k: usize = 0;
        proof {
            assert(existing + added.take(0) =~= existing);
            assert(added.skip(0) =~= added);
        }
        while k < rules.len()
            invariant
                k <= rules.len(),
                existing == rules_view(self.rules@),
                added == rules_view(rules@),
                self@ == old(self)@,
                register(existing, added) == register(
                    existing + added.take(k as int),
                    added.skip(k as int),
                ),
            decreases rules.len() - k,
        {
            let rule = &rules[k];
            let ghost so_far = existing + added.take(k as int);
            let ghost rest = added.skip(k as int);
            let taken = holds_rule(&self.rules, self.rules.len(), &rule.id) || holds_rule(
                &rules,
                k,
                &rule.id,
            );
            proof {
                assert(rest.first() == rule@);
                assert(rest.drop_first() =~= added.skip(k + 1));
                assert(so_far.push(rule@) =~= existing + added.take(k + 1));
                assert(existing.take(existing.len() as int) =~= existing);
                let early = added.take(k as int);
                if has_rule(existing, rule.id@) {
                    let j = choose|j: int|
                        0 <= j < existing.len() && (#[trigger] existing[j]).id == rule.id@;
                    assert(so_far[j] == existing[j]);
                }
                if has_rule(early, rule.id@) {
                    let j = choose|j: int|
                        0 <= j < early.len() && (#[trigger] early[j]).id == rule.id@;
                    assert(so_far[existing.len() + j] == early[j]);
                }
                if has_rule(so_far, rule.id@) {
                    let j = choose|j: int|
                        0 <= j < so_far.len() && (#[trigger] so_far[j]).id == rule.id@;
                    if j < existing.len() {
                        assert(existing[j] == so_far[j]);
                    } else {
                        assert(early[j - existing.len()] == so_far[j]);
                    }
                }
                assert(taken == has_rule(so_far, rule.id@));
            }
            if taken {
                return Err(RuleError::AlreadyDeclared { id: rule.id.clone() });
            }
            if rule.element.has_left_recursion(&rule.id) {
                return Err(RuleError::LeftRecursion { id: rule.id.clone() });
            }
            k += 1;
        }
        let mut rules = rules;
        proof {
            assert(added.take(k as int) =~= added);
            assert(rules_view(self.rules@ + rules@) =~= existing + added);
        }
        self.rules.append(&mut rules);
        Ok(())
    }

    /// Sets how many rules may be active at once during a parse.
    pub fn set_max_recursion(&mut self, max_recursion: usize)
        ensures
            final(self)@ == (VoltView { max_recursion: max_recursion as nat, ..old(self)@ }),
    {
        self.max_recursion = max_recursion;
    }

    /// Parses the input with the rule `entry_rule_id`: the tree of that rule
    /// where it matches all of the input.
    pub fn parse(&self, input: &str, entry_rule_id: &RuleId) -> (result: ParserResult)
        ensures
            match parse_result(self@, input@, entry_rule_id@) {
                Ok(tree) => result matches Ok(found) && found@ == tree,
                Err(error) => result matches Err(raised) && raised@ == error,
            },
    {
        Parser::parse(self, input, entry_rule_id)
    }

    pub fn max_recursion(&self) -> (max_recursion: usize)
        ensures
            max_recursion == self@.max_recursion,
    {
        self.max_recursion
    }

    /// The element of the rule of that name.
    pub fn rule(&self, id: &RuleId) -> (element: Option<&Element>)
        ensures
            match element {
                Some(element) => find_rule(self@.rules, id@) == Some(element@),
                None => find_rule(self@.rules, id@) is None,
            },
    {
        let ghost views = rules_view(self.rules@);
        let mut k: usize = 0;
        proof {
            assert(views.skip(0) =~= views);
        }
        while k < self.rules.len()
            invariant
                k <= self.rules.len(),
                views == rules_view(self.rules@),
                rule_index(views, id@) == k + rule_index(views.skip(k as int), id@),
            decreases self.rules.len() - k,
        {
            proof {
                assert(views.skip(k as int).first() == self.rules@[k as int]@);
                assert(views.skip(k as int).drop_first() =~= views.skip(k + 1));
            }
            if self.rules[k].id.0 == id.0 {
                return Some(&self.rules[k].element);
            }
            k += 1;
        }
        None
    }
}

/// A module of a grammar: a value that can be made from nothing and then
/// hands out its rules.
pub trait VoltModule: VoltModuleAssist {
    fn new() -> Self;
}

/// What hands its rules to a registry.
pub trait VoltModuleAssist: Sized {
    fn into_rule_vec(self) -> RuleVec;
}

} // verus!
