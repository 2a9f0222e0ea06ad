use volt::element::{
    chars, choice, rule_ref, sequence, str, wildcard, Element, ElementError, Expression, LoopRange,
    Maxable,
};
use volt::rule::{Rule, RuleError, RuleId, RuleVec};

fn id(name: &str) -> RuleId {
    RuleId(name.to_string())
}

fn reference(name: &str) -> Element {
    Element::Expression(Expression::Rule(id(name)))
}

#[test]
fn empty_literal_is_refused() {
    assert_eq!(str("").err(), Some(ElementError::EmptyString));
    assert!(str("a").is_ok());
}

#[test]
fn invalid_character_class_is_refused() {
    assert_eq!(chars("z-a").err(), Some(ElementError::InvalidCharacterClass));
    assert_eq!(chars("").err(), Some(ElementError::InvalidCharacterClass));
    assert!(chars("a-z").is_ok());
}

#[test]
fn loop_range_constructors() {
    assert_eq!(LoopRange::times(3), LoopRange { min: 3, max: Maxable::Max(3) });
    assert_eq!(LoopRange::min_max(1, 4), LoopRange { min: 1, max: Maxable::Max(4) });
    assert_eq!(LoopRange::min(2), LoopRange { min: 2, max: Maxable::NoLimit });
    assert_eq!(LoopRange::max(5), LoopRange { min: 0, max: Maxable::Max(5) });
}

#[test]
fn only_one_to_one_is_single() {
    assert!(LoopRange::times(1).is_single_times());
    assert!(!LoopRange::times(2).is_single_times());
    assert!(!LoopRange::min(1).is_single_times());
    assert!(!LoopRange::max(1).is_single_times());
    assert!(!LoopRange::min_max(1, 2).is_single_times());
}

#[test]
fn loop_range_forms() {
    assert_eq!(LoopRange::min(0).to_string(), "*");
    assert_eq!(LoopRange::min(1).to_string(), "+");
    assert_eq!(LoopRange::max(1).to_string(), "?");
    assert_eq!(LoopRange::min(2).to_string(), "{2,}");
    assert_eq!(LoopRange::min_max(2, 3).to_string(), "{2,3}");
    assert_eq!(LoopRange::times(1).to_string(), "{1,1}");
    assert_eq!(LoopRange::max(0).to_string(), "{0,0}");
    assert_eq!(LoopRange::min_max(10, 1205).to_string(), "{10,1205}");
}

#[test]
fn element_forms() {
    assert_eq!(str("ab").unwrap().to_string(), "\"ab\"");
    assert_eq!(wildcard().to_string(), "_");
    assert_eq!(reference("Main::rule").to_string(), "Main::rule");
    assert_eq!(chars("ab").unwrap().to_string(), "[ab]");
    assert_eq!(chars("[a]").unwrap().to_string(), "[\\[a\\]]");
    assert_eq!(
        Element::Choice(vec![str("a").unwrap(), str("b").unwrap(), wildcard()]).to_string(),
        "(\"a\" / \"b\" / _)"
    );
    assert_eq!(
        Element::Sequence(vec![str("a").unwrap(), wildcard()]).to_string(),
        "(\"a\" _)"
    );
    assert_eq!(Element::Sequence(vec![wildcard()]).to_string(), "(_)");
    assert_eq!(Element::Choice(vec![]).to_string(), "()");
    assert_eq!(wildcard().min(0).to_string(), "_*");
    assert_eq!(wildcard().min(1).to_string(), "_+");
    assert_eq!(wildcard().optional().to_string(), "_?");
    assert_eq!(wildcard().times(2).to_string(), "_{2,2}");
    assert_eq!(wildcard().poslook().to_string(), "&_");
    assert_eq!(wildcard().neglook().to_string(), "!_");
    assert_eq!(wildcard().group("g").to_string(), "_#g");
    assert_eq!(wildcard().hidden().to_string(), "_##");
    assert_eq!(wildcard().expand().to_string(), "_###");
    assert_eq!(wildcard().expand_once().to_string(), "_###");
    assert_eq!(wildcard().err("msg").to_string(), "_.err(msg)");
    assert_eq!(
        wildcard().catch_to("msg", str(";").unwrap()).to_string(),
        "_.catch_to(\";\",msg)"
    );
    assert_eq!(
        wildcard().separate(str(",").unwrap()).to_string(),
        "(_ (\",\" _)* \",\"?)"
    );
}

#[test]
fn leftmost_reference_to_the_rule_is_left_recursion() {
    let me = id("me");
    assert!(reference("me").has_left_recursion(&me));
    assert!(!reference("other").has_left_recursion(&me));
    assert!(Element::Sequence(vec![reference("me"), wildcard()]).has_left_recursion(&me));
    assert!(!Element::Sequence(vec![wildcard(), reference("me")]).has_left_recursion(&me));
    assert!(Element::Choice(vec![
        Element::Sequence(vec![reference("me")]),
        wildcard()
    ])
    .has_left_recursion(&me));
    assert!(!Element::Choice(vec![wildcard(), reference("me")]).has_left_recursion(&me));
    assert!(!Element::Choice(vec![]).has_left_recursion(&me));
    assert!(!reference("me").optional().has_left_recursion(&me));
    assert!(!reference("me").group("g").has_left_recursion(&me));
    assert!(!str("me").unwrap().has_left_recursion(&me));
}

#[test]
fn rule_is_checked_for_left_recursion() {
    let bad = Rule::new(id("a"), Element::Sequence(vec![reference("a"), wildcard()]));
    assert_eq!(
        bad.detect_left_recursion().err(),
        Some(RuleError::LeftRecursion { id: id("a") })
    );
    let good = Rule::new(id("a"), Element::Sequence(vec![wildcard(), reference("a")]));
    let checked = good.detect_left_recursion().ok().unwrap();
    assert_eq!(checked.id, id("a"));
    assert_eq!(checked.element.to_string(), "(_ a)");
}

#[test]
fn rules_read_as_definitions() {
    let rule = Rule::new(id("a"), wildcard().min(1));
    assert_eq!(rule.to_string(), "a := _+;");
    assert_eq!(rule.clone().to_string(), "a := _+;");
    let rules = RuleVec(vec![rule, Rule::new(id("b"), str("x").unwrap())]);
    assert_eq!(rules.to_string(), "a := _+;\nb := \"x\";");
    assert_eq!(rules.clone().to_string(), "a := _+;\nb := \"x\";");
    assert_eq!(RuleVec(vec![]).to_string(), "");
    assert_eq!(rules.into_vec().len(), 2);
}

#[test]
fn rule_id_reads_as_its_name() {
    assert_eq!(id("Main::rule").to_string(), "Main::rule");
    assert_eq!(id("a"), id("a").clone());
    assert_ne!(id("a"), id("b"));
}

#[test]
fn refusals_read_as_messages() {
    assert_eq!(
        RuleError::AlreadyDeclared { id: id("a") }.to_string(),
        "Rule ID `a` is already declared."
    );
    assert_eq!(
        RuleError::LeftRecursion { id: id("a") }.to_string(),
        "Left recursion detected at rule definition of `a`."
    );
}

#[test]
fn clone_keeps_the_element() {
    let element = Element::Sequence(vec![
        chars("a-c").unwrap().min_max(1, 2).group("g"),
        str("x").unwrap().catch_to("m", wildcard().neglook()),
    ]);
    assert_eq!(element.clone().to_string(), element.to_string());
    assert_eq!(element.to_string(), "([a-c]{1,2}#g \"x\".catch_to(!_,m))");
}

#[test]
fn constructors_build_the_variants() {
    assert_eq!(rule_ref("a").to_string(), "a");
    assert!(rule_ref("a").has_left_recursion(&id("a")));
    assert_eq!(sequence(vec![rule_ref("a"), wildcard()]).to_string(), "(a _)");
    assert_eq!(choice(vec![rule_ref("a"), wildcard()]).to_string(), "(a / _)");
    assert!(matches!(sequence(vec![]), Element::Sequence(_)));
    assert!(matches!(choice(vec![]), Element::Choice(_)));
    assert!(matches!(wildcard(), Element::Expression(Expression::Wildcard)));
}
