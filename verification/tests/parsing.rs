use revset::expression::{
    parse_expression_rule, parse_first_pair, parse_function_argument_to_expression,
    parse_function_argument_to_string, parse_function_expression, parse_primary_rule,
};
use revset::{parse, Pair, RevsetExpression, RevsetParseError, RevsetParser, Rule};

fn symbol(text: &str) -> RevsetExpression {
    RevsetExpression::Symbol(text.to_string())
}

fn parents(base: RevsetExpression) -> RevsetExpression {
    RevsetExpression::Parents(Box::new(base))
}

fn ancestors(base: RevsetExpression) -> RevsetExpression {
    RevsetExpression::Ancestors(Box::new(base))
}

fn non_obsolete_heads(base: RevsetExpression) -> RevsetExpression {
    RevsetExpression::NonObsoleteHeads(Box::new(base))
}

fn description(needle: &str, base: RevsetExpression) -> RevsetExpression {
    RevsetExpression::Description {
        needle: needle.to_string(),
        base_expression: Box::new(base),
    }
}

fn invalid(name: &str, message: &str) -> RevsetParseError {
    RevsetParseError::InvalidFunctionArguments {
        name: name.to_string(),
        message: message.to_string(),
    }
}

fn leaf(rule: Rule, text: &str) -> Pair {
    branch(rule, text, vec![])
}

fn branch(rule: Rule, text: &str, inner: Vec<Pair>) -> Pair {
    Pair {
        rule,
        text: text.to_string(),
        inner,
    }
}

#[test]
fn a_symbol_is_an_expression() {
    assert_eq!(parse("foo"), Ok(symbol("foo")));
    assert_eq!(parse("@"), Ok(symbol("@")));
    assert_eq!(parse("refs/heads/my-branch_1.0"), Ok(symbol("refs/heads/my-branch_1.0")));
}

#[test]
fn parentheses_do_not_change_the_meaning() {
    assert_eq!(parse("(foo)"), Ok(symbol("foo")));
    assert_eq!(parse("((:foo))"), parse(":foo"));
}

#[test]
fn prefix_operators() {
    assert_eq!(parse(":@"), Ok(parents(symbol("@"))));
    assert_eq!(parse("*:@"), Ok(ancestors(symbol("@"))));
    assert_eq!(parse(":*::@"), Ok(parents(ancestors(parents(symbol("@"))))));
}

#[test]
fn operators_and_functions_agree() {
    assert_eq!(parse("parents(@)"), parse(":@"));
    assert_eq!(parse("ancestors(@)"), parse("*:@"));
    assert_eq!(parse("ancestors(parents(@))"), Ok(ancestors(parents(symbol("@")))));
}

#[test]
fn heads_functions() {
    assert_eq!(parse("all_heads()"), Ok(RevsetExpression::AllHeads));
    assert_eq!(
        parse("non_obsolete_heads()"),
        Ok(non_obsolete_heads(RevsetExpression::AllHeads))
    );
    assert_eq!(parse("non_obsolete_heads()"), parse("non_obsolete_heads(all_heads())"));
    assert_eq!(parse("non_obsolete_heads(*:x)"), Ok(non_obsolete_heads(ancestors(symbol("x")))));
}

#[test]
fn description_function() {
    let default = ancestors(non_obsolete_heads(RevsetExpression::AllHeads));
    assert_eq!(parse("description(\"a b\")"), Ok(description("a b", default)));
    assert_eq!(parse("description(foo)"), parse("description(\"foo\")"));
    assert_eq!(parse("description(foo)"), parse("description(foo,*:non_obsolete_heads())"));
    assert_eq!(parse("description(\"(foo)\",:bar)"), Ok(description("(foo)", parents(symbol("bar")))));
    assert_eq!(parse("description(\"\",@)"), Ok(description("", symbol("@"))));
}

#[test]
fn argument_counts() {
    assert_eq!(parse("parents()"), Err(invalid("parents", "Expected 1 argument")));
    assert_eq!(parse("parents(a,b)"), Err(invalid("parents", "Expected 1 argument")));
    assert_eq!(parse("ancestors()"), Err(invalid("ancestors", "Expected 1 argument")));
    assert_eq!(
        parse("ancestors(a,\"b\",c)"),
        Err(invalid("ancestors", "Expected 1 argument"))
    );
    assert_eq!(parse("all_heads(a)"), Err(invalid("all_heads", "Expected 0 arguments")));
    assert_eq!(
        parse("non_obsolete_heads(a,b)"),
        Err(invalid("non_obsolete_heads", "Expected 0 or 1 argument"))
    );
    assert_eq!(
        parse("description()"),
        Err(invalid("description", "Expected 1 or 2 arguments"))
    );
    assert_eq!(
        parse("description(a,b,c)"),
        Err(invalid("description", "Expected 1 or 2 arguments"))
    );
}

#[test]
fn argument_types() {
    assert_eq!(
        parse("parents(\"@\")"),
        Err(invalid(
            "parents",
            "Expected function argument of type expression, found: \"@\""
        ))
    );
    assert_eq!(
        parse("description((foo),bar)"),
        Err(invalid(
            "description",
            "Expected function argument of type string, found: (foo)"
        ))
    );
    assert_eq!(
        parse("description(all_heads())"),
        Err(invalid(
            "description",
            "Expected function argument of type string, found: all_heads()"
        ))
    );
    assert_eq!(
        parse("description(foo,\"bar\")"),
        Err(invalid(
            "description",
            "Expected function argument of type expression, found: \"bar\""
        ))
    );
}

#[test]
fn unknown_functions() {
    assert_eq!(
        parse("heads(a,\"b\")"),
        Err(RevsetParseError::NoSuchFunction("heads".to_string()))
    );
    assert_eq!(
        parse("parents(nothing())"),
        Err(RevsetParseError::NoSuchFunction("nothing".to_string()))
    );
}

#[test]
fn errors_name_the_call_that_they_are_about() {
    assert_eq!(
        parse("parents(non_obsolete_heads(\"nothing()\"))"),
        Err(invalid(
            "non_obsolete_heads",
            "Expected function argument of type expression, found: \"nothing()\""
        ))
    );
    assert_eq!(
        parse("description(foo,ancestors(all_heads(x)))"),
        Err(invalid("all_heads", "Expected 0 arguments"))
    );
    assert_eq!(
        parse("parents(a,nothing())"),
        Err(invalid("parents", "Expected 1 argument"))
    );
}

#[test]
fn what_was_parsed_can_be_written() {
    assert_eq!(
        parse("description(foo,parents((bar)))"),
        parse("description(\"foo\",:bar)")
    );
}

#[test]
fn incomplete_texts() {
    assert_eq!(
        parse("foo bar"),
        Err(RevsetParseError::SyntaxError(
            "Failed to parse revset \"foo bar\" past position 3".to_string()
        ))
    );
    assert_eq!(
        parse("parents(foo"),
        Err(RevsetParseError::SyntaxError(
            "Failed to parse revset \"parents(foo\" past position 7".to_string()
        ))
    );
    assert_eq!(
        parse("description(\"\u{e9}\u{20ac}\"))"),
        Err(RevsetParseError::SyntaxError(
            "Failed to parse revset \"description(\"\u{e9}\u{20ac}\"))\" past position 20".to_string()
        ))
    );
}

#[test]
fn texts_without_an_expression() {
    assert!(RevsetParser::parse("").is_none());
    assert!(RevsetParser::parse("|").is_none());
    assert!(RevsetParser::parse(":").is_none());
    assert!(RevsetParser::parse("(foo").is_none());
    assert!(RevsetParser::parse("\"foo\"").is_none());
    assert!(RevsetParser::parse(" foo").is_none());
}

#[test]
fn the_tree_of_a_call() {
    let (first, end) = RevsetParser::parse("description(\"x\",:@)!").unwrap();
    assert_eq!(end, 19);
    assert_eq!(first.rule, Rule::Expression);
    assert_eq!(first.text, "description(\"x\",:@)");
    assert_eq!(first.inner.len(), 2);
    assert_eq!(first.inner[0].rule, Rule::FunctionName);
    assert_eq!(first.inner[0].text, "description");
    let arguments = &first.inner[1];
    assert_eq!(arguments.rule, Rule::FunctionArguments);
    assert_eq!(arguments.text, "\"x\",:@");
    assert_eq!(arguments.inner.len(), 2);
    assert_eq!(arguments.inner[0].rule, Rule::FunctionArgument);
    assert_eq!(arguments.inner[0].inner[0].rule, Rule::LiteralString);
    assert_eq!(arguments.inner[0].inner[0].text, "\"x\"");
    let base = &arguments.inner[1].inner[0];
    assert_eq!(base.rule, Rule::Expression);
    assert_eq!(base.inner[0].rule, Rule::Parents);
    assert_eq!(base.inner[1].inner[0].rule, Rule::Primary);
    assert_eq!(base.inner[1].inner[0].inner[0].rule, Rule::Symbol);
    assert_eq!(base.inner[1].inner[0].inner[0].text, "@");
}

#[test]
fn trees_are_read_rule_by_rule() {
    let symbol_pair = || leaf(Rule::Symbol, "foo");
    let primary = || branch(Rule::Primary, "foo", vec![symbol_pair()]);
    let expression = || branch(Rule::Expression, "foo", vec![primary()]);
    assert_eq!(parse_primary_rule(&vec![symbol_pair()]), Ok(symbol("foo")));
    assert_eq!(parse_primary_rule(&vec![expression()]), Ok(symbol("foo")));
    assert_eq!(
        parse_expression_rule(&vec![leaf(Rule::Ancestors, "*:"), expression()]),
        Ok(ancestors(symbol("foo")))
    );
    assert_eq!(
        parse_function_argument_to_expression("f", &vec![expression()]),
        Ok(symbol("foo"))
    );
    assert_eq!(
        parse_function_argument_to_string("f", &vec![leaf(Rule::LiteralString, "\"a\"")]),
        Ok("a".to_string())
    );
    assert_eq!(
        parse_function_argument_to_string("f", &vec![leaf(Rule::Primary, "p")]),
        Err(invalid("f", "Expected function argument of type string, found: p"))
    );
    assert_eq!(
        parse_function_expression("nothing".to_string(), &vec![leaf(Rule::Symbol, "")]),
        Err(RevsetParseError::NoSuchFunction("nothing".to_string()))
    );
    assert_eq!(parse_first_pair("foo", &expression(), 3), Ok(symbol("foo")));
    assert_eq!(
        parse_first_pair("foo|", &expression(), 3),
        Err(RevsetParseError::SyntaxError(
            "Failed to parse revset \"foo|\" past position 3".to_string()
        ))
    );
}

#[test]
fn messages() {
    assert_eq!(RevsetParseError::SyntaxError("bad".to_string()).message(), "bad");
    assert_eq!(
        RevsetParseError::NoSuchFunction("f".to_string()).message(),
        "Revset function \"f\" doesn't exist"
    );
    assert_eq!(
        invalid("f", "Expected 1 argument").message(),
        "Invalid arguments to revset function \"f\": Expected 1 argument"
    );
}

#[test]
fn a_written_expression_is_read_back() {
    let text = "description(\"fix\",non_obsolete_heads(*::all_heads()))";
    let expected = description(
        "fix",
        non_obsolete_heads(ancestors(parents(RevsetExpression::AllHeads))),
    );
    assert_eq!(parse(text), Ok(expected));
}
