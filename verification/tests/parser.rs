use volt::element::{chars, str, wildcard, Element};
use volt::parser::{Parser, ParserError, ParserResult};
use volt::rule::{Rule, RuleId, RuleVec};
use volt::tree::{InputPosition, SyntaxChild, SyntaxTree};
use volt::{Volt, VoltModule, VoltModuleAssist};

struct TestModule {
    rules: Vec<(&'static str, Element)>,
}

fn lit(s: &str) -> Element {
    str(s).unwrap()
}

fn class(s: &str) -> Element {
    chars(s).unwrap()
}

fn seq(elements: Vec<Element>) -> Element {
    Element::Sequence(elements)
}

fn choice(elements: Vec<Element>) -> Element {
    Element::Choice(elements)
}

impl VoltModule for TestModule {
    fn new() -> TestModule {
        TestModule {
            rules: vec![
                ("choice", choice(vec![lit("a"), lit("b")])),
                ("sequence", seq(vec![lit("a"), lit("b")])),
                ("loop_range1", seq(vec![wildcard().times(2)])),
                ("loop_range2", seq(vec![wildcard().min(1)])),
                ("loop_range3", seq(vec![wildcard().max(1)])),
                ("poslook", seq(vec![lit("a").poslook(), wildcard()])),
                ("neglook", seq(vec![lit("a").neglook(), wildcard()])),
                ("error", lit("a").err("msg")),
                ("error_to", seq(vec![lit("a"), lit(";")]).catch_to("msg", lit(";"))),
                ("sequence_group", seq(vec![wildcard(), wildcard()]).group("group")),
                ("expression_group", wildcard().group("group")),
                (
                    "expansion",
                    seq(vec![
                        wildcard(),
                        seq(vec![wildcard(), seq(vec![wildcard()]).group("group_b")])
                            .group("group_a")
                            .expand(),
                    ]),
                ),
                (
                    "expansion_once",
                    seq(vec![
                        wildcard(),
                        seq(vec![wildcard(), seq(vec![wildcard()]).group("group_b")])
                            .group("group_a")
                            .expand_once(),
                    ]),
                ),
                ("hidden", wildcard().hidden()),
                ("separated", wildcard().separate(lit(","))),
                ("separated_with_hidden_separator", wildcard().separate(lit(",").hidden())),
                ("string", lit("ab")),
                ("multibyte_string", lit("あい")),
                ("character_class1", class("ab")),
                ("character_class2", class(r"\d")),
                ("character_class3", class("[")),
                ("wildcard", wildcard()),
            ],
        }
    }
}

impl VoltModuleAssist for TestModule {
    fn into_rule_vec(self) -> RuleVec {
        RuleVec(
            self.rules
                .into_iter()
                .map(|(name, element)| {
                    Rule::new(RuleId(format!("TestModule::{}", name)), element)
                })
                .collect(),
        )
    }
}

fn volt() -> Volt {
    let mut volt = Volt::new();
    volt.add_module(TestModule::new()).unwrap();
    volt
}

fn assert_ast(input: &str, rule_id: &str, expected: ParserResult) {
    let volt = volt();
    assert_eq!(Parser::parse(&volt, input, &RuleId(rule_id.to_string())), expected);
}

fn expect_success(input: &str, rule_id: &str, expected: SyntaxTree) {
    assert_ast(input, rule_id, Ok(expected));
}

fn expect_failure(input: &str, rule_id: &str, expected: ParserError) {
    assert_ast(input, rule_id, Err(expected));
}

fn tree(root: SyntaxChild) -> SyntaxTree {
    match root {
        SyntaxChild::Node(node) => SyntaxTree::new(node),
        _ => panic!("cannot set leaf as syntax tree root"),
    }
}

fn node(name: &str, children: Vec<SyntaxChild>) -> SyntaxChild {
    SyntaxChild::node(name.to_string(), children)
}

fn leaf(value: &str) -> SyntaxChild {
    SyntaxChild::leaf(InputPosition::new(usize::MAX, usize::MAX, usize::MAX), value.to_string())
}

fn error(message: &str, children: Vec<SyntaxChild>) -> SyntaxChild {
    SyntaxChild::error(message.to_string(), children)
}

#[test]
fn choice_consumes_characters_as_much_its_children_1() {
    expect_failure("", "TestModule::choice", ParserError::NoMatchedRule);
}

#[test]
fn choice_consumes_characters_as_much_its_children_2() {
    expect_failure("ab", "TestModule::choice", ParserError::NoMatchedRule);
}

#[test]
fn choices_first_choice_when_match() {
    expect_success("a", "TestModule::choice", tree(node("TestModule::choice", vec![leaf("a")])));
}

#[test]
fn choices_the_next_choice_when_first_choice_doesnt_match() {
    expect_success("b", "TestModule::choice", tree(node("TestModule::choice", vec![leaf("b")])));
}

#[test]
fn choice_doesnt_match_element_not_exist_in_children() {
    expect_failure("c", "TestModule::choice", ParserError::NoMatchedRule);
}

#[test]
fn sequence_consumes_characters_as_much_its_children_1() {
    expect_failure("a", "TestModule::sequence", ParserError::NoMatchedRule);
}

#[test]
fn sequence_consumes_characters_as_much_its_children_2() {
    expect_failure("abc", "TestModule::sequence", ParserError::NoMatchedRule);
}

#[test]
fn sequence_matches_completely_same_input_1() {
    expect_success(
        "ab",
        "TestModule::sequence",
        tree(node("TestModule::sequence", vec![leaf("a"), leaf("b")])),
    );
}

#[test]
fn sequence_matches_completely_same_input_2() {
    expect_failure("ac", "TestModule::sequence", ParserError::NoMatchedRule);
}

#[test]
fn repeats_for_the_number_of_times_in_the_specified_range_1_1() {
    expect_failure("a", "TestModule::loop_range1", ParserError::NoMatchedRule);
}

#[test]
fn repeats_for_the_number_of_times_in_the_specified_range_1_2() {
    expect_success(
        "aa",
        "TestModule::loop_range1",
        tree(node("TestModule::loop_range1", vec![leaf("a"), leaf("a")])),
    );
}

#[test]
fn repeats_for_the_number_of_times_in_the_specified_range_1_3() {
    expect_failure("aaa", "TestModule::loop_range1", ParserError::NoMatchedRule);
}

#[test]
fn repeats_for_the_number_of_times_in_the_specified_range_2_1() {
    expect_failure("", "TestModule::loop_range2", ParserError::NoMatchedRule);
}

#[test]
fn repeats_for_the_number_of_times_in_the_specified_range_2_2() {
    expect_success(
        "a",
        "TestModule::loop_range2",
        tree(node("TestModule::loop_range2", vec![leaf("a")])),
    );
}

#[test]
fn repeats_for_the_number_of_times_in_the_specified_range_2_3() {
    expect_success(
        "aa",
        "TestModule::loop_range2",
        tree(node("TestModule::loop_range2", vec![leaf("a"), leaf("a")])),
    );
}

#[test]
fn repeats_for_the_number_of_times_in_the_specified_range_3_1() {
    expect_success("", "TestModule::loop_range3", tree(node("TestModule::loop_range3", vec![])));
}

#[test]
fn repeats_for_the_number_of_times_in_the_specified_range_3_2() {
    expect_success(
        "a",
        "TestModule::loop_range3",
        tree(node("TestModule::loop_range3", vec![leaf("a")])),
    );
}

#[test]
fn repeats_for_the_number_of_times_in_the_specified_range_3_3() {
    expect_failure("aa", "TestModule::loop_range3", ParserError::NoMatchedRule);
}

#[test]
fn positive_lookahead_doesnt_change_input_index_1() {
    expect_success("a", "TestModule::poslook", tree(node("TestModule::poslook", vec![leaf("a")])));
}

#[test]
fn positive_lookahead_doesnt_change_input_index_2() {
    expect_failure("b", "TestModule::poslook", ParserError::NoMatchedRule);
}

#[test]
fn negative_lookahead_doesnt_change_input_index_1() {
    expect_failure("a", "TestModule::neglook", ParserError::NoMatchedRule);
}

#[test]
fn negative_lookahead_doesnt_change_input_index_2() {
    expect_success("b", "TestModule::neglook", tree(node("TestModule::neglook", vec![leaf("b")])));
}

#[test]
fn error_generates_error_when_matched() {
    expect_success(
        "a",
        "TestModule::error",
        tree(node("TestModule::error", vec![error("msg", vec![leaf("a")])])),
    );
}

#[test]
fn error_doesnt_add_input_index_when_not_matched() {
    expect_success("", "TestModule::error", tree(node("TestModule::error", vec![])));
}

#[test]
fn error_skip_successes_parsing_normally() {
    expect_success(
        "a;",
        "TestModule::error_to",
        tree(node("TestModule::error_to", vec![leaf("a"), leaf(";")])),
    );
}

#[test]
fn error_skip_adds_input_index_until_end_string_on_failure() {
    expect_success(
        "b;",
        "TestModule::error_to",
        tree(node("TestModule::error_to", vec![error("msg", vec![leaf(";")])])),
    );
}

#[test]
fn error_skip_try_parsing_until_end_of_input() {
    expect_failure("b", "TestModule::error_to", ParserError::NoMatchedRule);
}

#[test]
fn group_a_sequence() {
    expect_success(
        "aa",
        "TestModule::sequence_group",
        tree(node(
            "TestModule::sequence_group",
            vec![node("group", vec![leaf("a"), leaf("a")])],
        )),
    );
}

#[test]
fn group_an_expression() {
    expect_success(
        "a",
        "TestModule::expression_group",
        tree(node("TestModule::expression_group", vec![node("group", vec![leaf("a")])])),
    );
}

#[test]
fn expands_children_at_all_levels_of_hierarchy() {
    expect_success(
        "abc",
        "TestModule::expansion",
        tree(node("TestModule::expansion", vec![leaf("a"), leaf("b"), leaf("c")])),
    );
}

#[test]
fn expands_children_at_the_first_level_of_hierarchy() {
    expect_success(
        "abc",
        "TestModule::expansion_once",
        tree(node(
            "TestModule::expansion_once",
            vec![leaf("a"), leaf("b"), node("group_b", vec![leaf("c")])],
        )),
    );
}

#[test]
fn hidden_element_shouldnt_reflected_in_ast() {
    expect_success("a", "TestModule::hidden", tree(node("TestModule::hidden", vec![])));
}

#[test]
fn separated_should_contain_at_least_one_item() {
    expect_failure("", "TestModule::separated", ParserError::NoMatchedRule);
}

#[test]
fn separated_can_put_single_item() {
    expect_success(
        "a",
        "TestModule::separated",
        tree(node("TestModule::separated", vec![leaf("a")])),
    );
}

#[test]
fn separated_can_put_a_separator_at_the_last_of_single_item() {
    expect_success(
        "a,",
        "TestModule::separated",
        tree(node("TestModule::separated", vec![leaf("a"), leaf(",")])),
    );
}

#[test]
fn separated_can_put_multiple_items() {
    expect_success(
        "a,a",
        "TestModule::separated",
        tree(node("TestModule::separated", vec![leaf("a"), leaf(","), leaf("a")])),
    );
}

#[test]
fn separated_can_put_a_separator_at_the_last_of_multiple_items() {
    expect_success(
        "a,a,",
        "TestModule::separated",
        tree(node(
            "TestModule::separated",
            vec![leaf("a"), leaf(","), leaf("a"), leaf(",")],
        )),
    );
}

#[test]
fn separators_can_be_hidden() {
    expect_success(
        "a,a",
        "TestModule::separated_with_hidden_separator",
        tree(node("TestModule::separated_with_hidden_separator", vec![leaf("a"), leaf("a")])),
    );
}

#[test]
fn string_consumes_characters_as_much_its_length_1() {
    expect_failure("a", "TestModule::string", ParserError::NoMatchedRule);
}

#[test]
fn string_consumes_characters_as_much_its_length_2() {
    expect_failure("abc", "TestModule::string", ParserError::NoMatchedRule);
}

#[test]
fn string_generates_single_leaf() {
    expect_success("ab", "TestModule::string", tree(node("TestModule::string", vec![leaf("ab")])));
}

#[test]
fn string_supports_multibyte_characters() {
    expect_success(
        "あい",
        "TestModule::multibyte_string",
        tree(node("TestModule::multibyte_string", vec![leaf("あい")])),
    );
}

#[test]
fn character_class_matches_a_specified_character_1() {
    expect_success(
        "a",
        "TestModule::character_class1",
        tree(node("TestModule::character_class1", vec![leaf("a")])),
    );
}

#[test]
fn character_class_matches_a_specified_character_2() {
    expect_success(
        "b",
        "TestModule::character_class1",
        tree(node("TestModule::character_class1", vec![leaf("b")])),
    );
}

#[test]
fn character_class_matches_a_specified_character_3() {
    expect_failure("c", "TestModule::character_class1", ParserError::NoMatchedRule);
}

#[test]
fn character_class_consumes_only_one_character() {
    expect_failure("aa", "TestModule::character_class1", ParserError::NoMatchedRule);
}

#[test]
fn character_class_supports_number_specification() {
    expect_success(
        "0",
        "TestModule::character_class2",
        tree(node("TestModule::character_class2", vec![leaf("0")])),
    );
}

#[test]
fn character_class_supports_regex_pattern_enclosure() {
    expect_success(
        "[",
        "TestModule::character_class3",
        tree(node("TestModule::character_class3", vec![leaf("[")])),
    );
}

#[test]
fn wildcard_consumes_single_character_1() {
    expect_failure("", "TestModule::wildcard", ParserError::NoMatchedRule);
}

#[test]
fn wildcard_consumes_single_character_2() {
    expect_failure("aa", "TestModule::wildcard", ParserError::NoMatchedRule);
}

#[test]
fn wildcard_generates_single_leaf() {
    expect_success(
        "a",
        "TestModule::wildcard",
        tree(node("TestModule::wildcard", vec![leaf("a")])),
    );
}

#[test]
fn wildcard_treats_single_multibyte_character_as_a_character() {
    expect_success(
        "あ",
        "TestModule::wildcard",
        tree(node("TestModule::wildcard", vec![leaf("あ")])),
    );
}
