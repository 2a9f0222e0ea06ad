use volt::element::{chars, str, wildcard, Element, Expression, LoopRange};
use volt::parser::{Parser, ParserError};
use volt::rule::{Rule, RuleId};
use volt::tree::{InputPosition, SyntaxChild, SyntaxChildVec, SyntaxTree};
use volt::Volt;

fn id(name: &str) -> RuleId {
    RuleId(name.to_string())
}

fn reference(name: &str) -> Element {
    Element::Expression(Expression::Rule(id(name)))
}

fn registry(rules: Vec<(&str, Element)>) -> Volt {
    let mut volt = Volt::new();
    volt.add_rules(rules.into_iter().map(|(name, element)| Rule::new(id(name), element)).collect())
        .unwrap();
    volt
}

fn anywhere(value: &str) -> SyntaxChild {
    SyntaxChild::leaf(InputPosition::new(usize::MAX, usize::MAX, usize::MAX), value.to_string())
}

fn placed(index: usize, line: usize, column: usize, value: &str) -> SyntaxChild {
    SyntaxChild::leaf(InputPosition::new(index, line, column), value.to_string())
}

fn start_of(child: &SyntaxChild) -> (usize, usize, usize) {
    let start = &child.into_leaf().start;
    (start.index, start.line, start.column)
}

#[test]
fn multibyte_literal_advances_index_by_two_scalars() {
    let volt = Volt::new();
    let mut parser = Parser::new(&volt, "あい");
    let found = parser.element(&str("あい").unwrap()).unwrap().unwrap();
    assert_eq!(found, vec![anywhere("あい")]);
    assert_eq!(parser.index(), 2);
}

#[test]
fn failed_element_leaves_the_index_where_it_was() {
    let volt = Volt::new();
    let mut parser = Parser::new(&volt, "xac");
    assert!(parser.element(&wildcard()).unwrap().is_some());
    assert_eq!(parser.index(), 1);
    let sequence = Element::Sequence(vec![str("a").unwrap(), str("b").unwrap()]);
    assert_eq!(parser.element(&sequence), Ok(None));
    assert_eq!(parser.index(), 1);
    let choice = Element::Choice(vec![str("b").unwrap(), str("c").unwrap()]);
    assert_eq!(parser.element(&choice), Ok(None));
    assert_eq!(parser.index(), 1);
    assert_eq!(parser.element(&wildcard().times(3)), Ok(None));
    assert_eq!(parser.index(), 1);
    assert_eq!(parser.element(&wildcard().min(3)), Ok(None));
    assert_eq!(parser.index(), 1);
}

#[test]
fn recursion_counter_returns_on_every_exit() {
    let volt = registry(vec![
        ("a", str("a").unwrap()),
        ("nested", reference("a")),
        ("broken", reference("missing")),
    ]);
    let mut parser = Parser::new(&volt, "ab");
    assert_eq!(parser.recursion(), 0);
    assert!(parser.element(&reference("nested")).unwrap().is_some());
    assert_eq!(parser.recursion(), 0);
    assert_eq!(parser.element(&reference("nested")), Ok(None));
    assert_eq!(parser.recursion(), 0);
    assert_eq!(
        parser.element(&reference("broken")),
        Err(ParserError::RuleNotExists { id: id("missing") })
    );
    assert_eq!(parser.recursion(), 0);
}

#[test]
fn rule_wraps_children_in_a_node_of_its_name() {
    let volt = registry(vec![("a", str("a").unwrap())]);
    let mut parser = Parser::new(&volt, "a");
    let node = parser.rule(&id("a")).unwrap().unwrap();
    assert_eq!(node.name, "a");
    assert_eq!(node.children, vec![anywhere("a")]);
    assert_eq!(parser.index(), 1);
}

#[test]
fn unknown_entry_rule_is_reported() {
    let volt = registry(vec![("a", str("a").unwrap())]);
    assert_eq!(volt.parse("a", &id("b")), Err(ParserError::RuleNotExists { id: id("b") }));
}

#[test]
fn unknown_referenced_rule_is_fatal_even_inside_a_choice() {
    let volt =
        registry(vec![("a", Element::Choice(vec![reference("missing"), str("a").unwrap()]))]);
    assert_eq!(volt.parse("a", &id("a")), Err(ParserError::RuleNotExists { id: id("missing") }));
}

#[test]
fn indirect_recursion_exceeds_the_limit() {
    let volt = registry(vec![("a", reference("b")), ("b", reference("a"))]);
    assert_eq!(volt.parse("x", &id("a")), Err(ParserError::ExceededMaxRecursion));
}

#[test]
fn limit_counts_active_rules() {
    let mut volt = registry(vec![("a", reference("b")), ("b", str("x").unwrap())]);
    volt.set_max_recursion(2);
    assert!(volt.parse("x", &id("a")).is_ok());
    volt.set_max_recursion(1);
    assert_eq!(volt.parse("x", &id("a")), Err(ParserError::ExceededMaxRecursion));
    volt.set_max_recursion(0);
    assert_eq!(volt.parse("x", &id("b")), Err(ParserError::ExceededMaxRecursion));
}

#[test]
fn missing_rule_is_reported_before_the_limit() {
    let mut volt = registry(vec![("a", reference("missing"))]);
    volt.set_max_recursion(1);
    assert_eq!(volt.parse("x", &id("a")), Err(ParserError::RuleNotExists { id: id("missing") }));
}

#[test]
fn default_limit_is_1024() {
    assert_eq!(Volt::new().max_recursion(), 1024);
}

#[test]
fn leaves_are_stamped_with_their_positions() {
    let volt = registry(vec![("all", wildcard().min(0))]);
    let tree = volt.parse("a\nb", &id("all")).unwrap();
    assert_eq!(tree.root.name, "all");
    assert_eq!(tree.root.children.len(), 3);
    assert_eq!(start_of(&tree.root.children[0]), (0, 0, 0));
    assert_eq!(start_of(&tree.root.children[1]), (1, 0, 1));
    assert_eq!(start_of(&tree.root.children[2]), (2, 1, 0));
    assert_eq!(
        tree,
        SyntaxTree::new(volt::tree::SyntaxNode::new(
            "all".to_string(),
            vec![placed(0, 0, 0, "a"), placed(1, 0, 1, "\n"), placed(2, 1, 0, "b")],
        ))
    );
}

#[test]
fn literal_leaf_starts_where_the_literal_starts() {
    let volt = Volt::new();
    let mut parser = Parser::new(&volt, "\n\nab");
    assert!(parser.element(&wildcard().times(2)).unwrap().is_some());
    let found = parser.element(&str("ab").unwrap()).unwrap().unwrap();
    assert_eq!(start_of(&found[0]), (2, 2, 0));
    assert_eq!(parser.index(), 4);
}

#[test]
fn unbounded_loop_ends_after_a_round_that_consumes_nothing() {
    let volt = Volt::new();
    let element = str("a").unwrap().optional().min(0);
    let mut parser = Parser::new(&volt, "aab");
    assert_eq!(parser.element(&element), Ok(Some(vec![anywhere("a"), anywhere("a")])));
    assert_eq!(parser.index(), 2);
}

#[test]
fn round_that_consumes_nothing_counts() {
    let volt = Volt::new();
    let mut parser = Parser::new(&volt, "aab");
    let three = str("a").unwrap().optional().min(3);
    assert_eq!(parser.element(&three), Ok(Some(vec![anywhere("a"), anywhere("a")])));
    assert_eq!(parser.index(), 2);
    let mut parser = Parser::new(&volt, "aab");
    let four = str("a").unwrap().optional().min(4);
    assert_eq!(parser.element(&four), Ok(None));
    assert_eq!(parser.index(), 0);
    let mut parser = Parser::new(&volt, "b");
    let lookahead = str("a").unwrap().neglook().min(1);
    assert_eq!(parser.element(&lookahead), Ok(Some(vec![])));
    assert_eq!(parser.index(), 0);
}

#[test]
fn bounded_loop_goes_on_to_its_limit() {
    let volt = Volt::new();
    let mut parser = Parser::new(&volt, "ab");
    let element = str("a").unwrap().optional().min_max(3, 5);
    assert_eq!(parser.element(&element), Ok(Some(vec![anywhere("a")])));
    assert_eq!(parser.index(), 1);
}

#[test]
fn loop_with_zero_limit_matches_nothing() {
    let volt = Volt::new();
    let mut parser = Parser::new(&volt, "a");
    assert_eq!(parser.element(&wildcard().max(0)), Ok(Some(vec![])));
    assert_eq!(parser.index(), 0);
    assert_eq!(parser.element(&wildcard().min_max(1, 0)), Ok(None));
    assert_eq!(parser.index(), 0);
}

#[test]
fn loop_stops_at_its_limit() {
    let volt = Volt::new();
    let mut parser = Parser::new(&volt, "aaaa");
    assert_eq!(
        parser.element(&wildcard().min_max(1, 3)),
        Ok(Some(vec![anywhere("a"), anywhere("a"), anywhere("a")]))
    );
    assert_eq!(parser.index(), 3);
}

#[test]
fn lookaheads_are_complements_and_consume_nothing() {
    let volt = Volt::new();
    for input in ["a", "b", ""] {
        let mut parser = Parser::new(&volt, input);
        let positive = parser.element(&str("a").unwrap().poslook()).unwrap();
        assert_eq!(parser.index(), 0);
        let negative = parser.element(&str("a").unwrap().neglook()).unwrap();
        assert_eq!(parser.index(), 0);
        assert_eq!(positive.is_some(), negative.is_none());
        assert_eq!(positive.is_some(), input == "a");
        if let Some(children) = positive {
            assert!(children.is_empty());
        }
        if let Some(children) = negative {
            assert!(children.is_empty());
        }
    }
}

#[test]
fn lookahead_raises_the_fatal_error_of_its_element() {
    let volt = Volt::new();
    let mut parser = Parser::new(&volt, "a");
    assert_eq!(
        parser.element(&reference("missing").neglook()),
        Err(ParserError::RuleNotExists { id: id("missing") })
    );
    assert_eq!(
        parser.element(&reference("missing").poslook()),
        Err(ParserError::RuleNotExists { id: id("missing") })
    );
}

#[test]
fn once_is_the_element_itself() {
    let volt = Volt::new();
    for input in ["ab", "b", ""] {
        let mut plain = Parser::new(&volt, input);
        let mut looped = Parser::new(&volt, input);
        assert_eq!(
            plain.element(&str("a").unwrap()),
            looped.element(&str("a").unwrap().times(1))
        );
        assert_eq!(plain.index(), looped.index());
    }
}

#[test]
fn optional_always_matches() {
    let volt = Volt::new();
    let mut parser = Parser::new(&volt, "ab");
    assert_eq!(parser.element(&str("a").unwrap().optional()), Ok(Some(vec![anywhere("a")])));
    assert_eq!(parser.index(), 1);
    assert_eq!(parser.element(&str("a").unwrap().optional()), Ok(Some(vec![])));
    assert_eq!(parser.index(), 1);
}

#[test]
fn hidden_consumes_as_much_and_emits_nothing() {
    let volt = Volt::new();
    let element = Element::Sequence(vec![str("a").unwrap(), str("b").unwrap()]);
    let mut plain = Parser::new(&volt, "abc");
    let mut hidden = Parser::new(&volt, "abc");
    assert!(plain.element(&element).unwrap().is_some());
    assert_eq!(hidden.element(&element.clone().hidden()), Ok(Some(vec![])));
    assert_eq!(plain.index(), 2);
    assert_eq!(hidden.index(), 2);
    let mut hidden = Parser::new(&volt, "ac");
    assert_eq!(hidden.element(&element.hidden()), Ok(None));
    assert_eq!(hidden.index(), 0);
}

#[test]
fn recovery_skips_to_the_first_place_where_it_matches() {
    let volt = Volt::new();
    let element = str("a").unwrap().catch_to("msg", str(";").unwrap());
    let mut parser = Parser::new(&volt, "xyz;;");
    assert_eq!(
        parser.element(&element),
        Ok(Some(vec![SyntaxChild::error("msg".to_string(), vec![anywhere(";")])]))
    );
    assert_eq!(parser.index(), 4);
}

#[test]
fn recovery_is_tried_at_the_end_of_the_input() {
    let volt = Volt::new();
    let element = str("a").unwrap().catch_to("msg", wildcard().neglook());
    let mut parser = Parser::new(&volt, "xy");
    assert_eq!(
        parser.element(&element),
        Ok(Some(vec![SyntaxChild::error("msg".to_string(), vec![])]))
    );
    assert_eq!(parser.index(), 2);
}

#[test]
fn recovery_without_a_place_gives_up_the_parse() {
    let volt = Volt::new();
    let element = Element::Choice(vec![
        str("a").unwrap().catch_to("msg", str(";").unwrap()),
        wildcard(),
    ]);
    let mut parser = Parser::new(&volt, "xy");
    assert_eq!(parser.element(&element), Err(ParserError::NoMatchedRule));
}

#[test]
fn error_marker_consumes_what_its_element_consumes() {
    let volt = Volt::new();
    let mut parser = Parser::new(&volt, "ab");
    assert_eq!(
        parser.element(&str("a").unwrap().err("msg")),
        Ok(Some(vec![SyntaxChild::error("msg".to_string(), vec![anywhere("a")])]))
    );
    assert_eq!(parser.index(), 1);
    assert_eq!(parser.element(&str("a").unwrap().err("msg")), Ok(Some(vec![])));
    assert_eq!(parser.index(), 1);
}

#[test]
fn character_class_takes_one_scalar_of_the_class() {
    let volt = Volt::new();
    let mut parser = Parser::new(&volt, "いa]");
    assert_eq!(parser.element(&chars("あい").unwrap()), Ok(Some(vec![anywhere("い")])));
    assert_eq!(parser.index(), 1);
    assert_eq!(parser.element(&chars("b-z").unwrap()), Ok(None));
    assert_eq!(parser.element(&chars("a-z").unwrap()), Ok(Some(vec![anywhere("a")])));
    assert_eq!(parser.element(&chars("[]").unwrap()), Ok(Some(vec![anywhere("]")])));
    assert_eq!(parser.index(), 3);
    assert_eq!(parser.element(&chars("a").unwrap()), Ok(None));
}

#[test]
fn leaves_of_a_transparent_grammar_read_the_input() {
    let volt = registry(vec![
        ("list", reference("item").separate(str(",").unwrap())),
        (
            "item",
            Element::Choice(vec![chars("a-z").unwrap().min(1).group("word"), reference("num")]),
        ),
        ("num", chars("0-9").unwrap().min(1).expand()),
    ]);
    let input = "abc,12,x,";
    let tree = volt.parse(input, &id("list")).unwrap();
    assert_eq!(tree.root.children.join_into_string(), input);
    assert_eq!(SyntaxChild::Node(tree.root).join_children(), input);
}

#[test]
fn hidden_and_marked_parts_are_missing_from_the_leaves() {
    let volt = registry(vec![(
        "r",
        Element::Sequence(vec![
            str("a").unwrap(),
            str("b").unwrap().hidden(),
            str("c").unwrap().err("msg"),
            str("d").unwrap(),
        ]),
    )]);
    let tree = volt.parse("abcd", &id("r")).unwrap();
    assert_eq!(tree.root.children.join_into_string(), "ad");
}

#[test]
fn around_and_separate_around_build_sequences() {
    let volt = registry(vec![
        ("quoted", chars("a-z").unwrap().min(0).around(str("'").unwrap())),
        ("list", wildcard().separate_around(str(",").unwrap())),
        ("pair", chars("a-z").unwrap().separate_times(str(",").unwrap(), LoopRange::times(1))),
    ]);
    let tree = volt.parse("'ab'", &id("quoted")).unwrap();
    assert_eq!(tree.root.children.join_into_string(), "'ab'");
    assert!(volt.parse("'ab", &id("quoted")).is_err());
    assert!(volt.parse(",a,b,", &id("list")).is_ok());
    assert!(volt.parse("a,b", &id("list")).is_ok());
    assert!(volt.parse("a,b", &id("pair")).is_ok());
    assert!(volt.parse("a,b,", &id("pair")).is_ok());
    assert_eq!(volt.parse("a", &id("pair")), Err(ParserError::NoMatchedRule));
    assert_eq!(volt.parse("a,b,c", &id("pair")), Err(ParserError::NoMatchedRule));
}
