use volt::element::{str, wildcard, Element, Expression};
use volt::parser::ParserError;
use volt::rule::{Rule, RuleError, RuleId, RuleVec};
use volt::{Volt, VoltModule, VoltModuleAssist};

fn id(name: &str) -> RuleId {
    RuleId(name.to_string())
}

fn reference(name: &str) -> Element {
    Element::Expression(Expression::Rule(id(name)))
}

struct Letters {
    a: Element,
    b: Element,
}

impl VoltModule for Letters {
    fn new() -> Letters {
        Letters { a: str("a").unwrap(), b: str("b").unwrap() }
    }
}

impl VoltModuleAssist for Letters {
    fn into_rule_vec(self) -> RuleVec {
        RuleVec(vec![Rule::new(id("Letters::a"), self.a), Rule::new(id("Letters::b"), self.b)])
    }
}

#[test]
fn module_rules_are_registered() {
    let mut volt = Volt::new();
    assert_eq!(volt.add_module(Letters::new()), Ok(()));
    assert!(volt.parse("a", &id("Letters::a")).is_ok());
    assert!(volt.parse("b", &id("Letters::b")).is_ok());
    assert!(volt.rule(&id("Letters::a")).is_some());
    assert!(volt.rule(&id("Letters::c")).is_none());
}

#[test]
fn second_registration_of_a_module_is_refused() {
    let mut volt = Volt::new();
    assert_eq!(volt.add_module(Letters::new()), Ok(()));
    assert_eq!(
        volt.add_module(Letters::new()),
        Err(RuleError::AlreadyDeclared { id: id("Letters::a") })
    );
}

#[test]
fn left_recursive_rule_is_refused() {
    let mut volt = Volt::new();
    let rules = vec![
        Rule::new(id("fine"), wildcard()),
        Rule::new(id("bad"), Element::Sequence(vec![reference("bad"), wildcard()])),
    ];
    assert_eq!(volt.add_rules(rules), Err(RuleError::LeftRecursion { id: id("bad") }));
}

#[test]
fn refused_batch_leaves_the_registry_as_it_was() {
    let mut volt = Volt::new();
    assert_eq!(volt.add_rules(vec![Rule::new(id("old"), str("o").unwrap())]), Ok(()));
    let rules = vec![
        Rule::new(id("new"), wildcard()),
        Rule::new(id("old"), str("x").unwrap()),
    ];
    assert_eq!(volt.add_rules(rules), Err(RuleError::AlreadyDeclared { id: id("old") }));
    assert_eq!(volt.parse("x", &id("new")), Err(ParserError::RuleNotExists { id: id("new") }));
    assert!(volt.parse("o", &id("old")).is_ok());
    assert_eq!(volt.parse("x", &id("old")), Err(ParserError::NoMatchedRule));
}

#[test]
fn name_taken_within_the_batch_is_refused() {
    let mut volt = Volt::new();
    let rules = vec![Rule::new(id("a"), wildcard()), Rule::new(id("a"), wildcard())];
    assert_eq!(volt.add_rules(rules), Err(RuleError::AlreadyDeclared { id: id("a") }));
    assert!(volt.rule(&id("a")).is_none());
}

#[test]
fn first_refusal_in_order_is_reported() {
    let mut volt = Volt::new();
    assert_eq!(volt.add_rules(vec![Rule::new(id("a"), wildcard())]), Ok(()));
    let rules = vec![
        Rule::new(id("b"), reference("b")),
        Rule::new(id("a"), wildcard()),
    ];
    assert_eq!(volt.add_rules(rules), Err(RuleError::LeftRecursion { id: id("b") }));
    let rules = vec![Rule::new(id("a"), reference("a"))];
    assert_eq!(volt.add_rules(rules), Err(RuleError::AlreadyDeclared { id: id("a") }));
}

#[test]
fn empty_batch_is_accepted() {
    let mut volt = Volt::new();
    assert_eq!(volt.add_rules(vec![]), Ok(()));
}

#[test]
fn rules_are_found_by_name() {
    let mut volt = Volt::new();
    volt.add_rules(vec![
        Rule::new(id("a"), str("a").unwrap()),
        Rule::new(id("b"), wildcard().min(1)),
    ])
    .unwrap();
    assert_eq!(volt.rule(&id("b")).unwrap().to_string(), "_+");
    assert_eq!(volt.rule(&id("a")).unwrap().to_string(), "\"a\"");
}
