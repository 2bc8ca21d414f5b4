use mongoexpand::{ExpansionBuildError, ExpansionEngine, QueryError};

fn strip_whitespace(s: &str) -> String {
    s.chars().filter(|c| !c.is_whitespace()).collect()
}

#[test]
fn group_count_scenario() {
    let mut engine = ExpansionEngine::new();
    let added =
        engine.add_expansion("$count{ $field }{ { $group: { _id: '$field', cnt: { $sum: 1 } } } }");
    assert_eq!(added, Ok(()));
    let out = engine.query("count:{branch}").unwrap();
    assert_eq!(out, "{$group:{_id:'branch',cnt:{$sum:1}}}");
    assert_eq!(
        out,
        strip_whitespace("{ $group: { _id: 'branch', cnt: { $sum: 1 } } }")
    );
}

#[test]
fn too_few_arguments_scenario() {
    let mut engine = ExpansionEngine::new();
    assert_eq!(engine.add_expansion("$pair{ $a, $b }{ { x: $a, y: $b } }"), Ok(()));
    assert_eq!(
        engine.query("pair:{one}"),
        Err(QueryError::ArgumentCountMismatch(2))
    );
}

#[test]
fn too_many_arguments() {
    let mut engine = ExpansionEngine::new();
    assert_eq!(engine.add_expansion("$pair{ $a, $b }{ { x: $a, y: $b } }"), Ok(()));
    assert_eq!(
        engine.query("db.find(pair:{one, two, three})"),
        Err(QueryError::ArgumentCountMismatch(6))
    );
}

#[test]
fn exact_arguments_repeated_parameter() {
    let mut engine = ExpansionEngine::new();
    assert_eq!(engine.add_expansion("$twice{ $a, $b }{ $a-$b-$a }"), Ok(()));
    assert_eq!(engine.query("twice:{x, y}"), Ok("x-y-x".to_string()));
}

#[test]
fn unknown_name_passes_through() {
    let mut engine = ExpansionEngine::new();
    assert_eq!(engine.add_expansion("$count{ $f }{ $f }"), Ok(()));
    assert_eq!(engine.query("other:{branch}"), Ok("other:{branch}".to_string()));
}

#[test]
fn missing_final_brace_is_an_error() {
    let mut engine = ExpansionEngine::new();
    assert_eq!(
        engine.add_expansion("$count{ $f }{ { $f }"),
        Err(ExpansionBuildError::MissingClosingParentheses(11))
    );
}

#[test]
fn build_errors_point_at_the_offending_token() {
    let cases: [(&str, ExpansionBuildError); 11] = [
        ("", ExpansionBuildError::MissingDollar(0)),
        ("count{ $f }{ $f }", ExpansionBuildError::MissingDollar(0)),
        ("${ $f }{ $f }", ExpansionBuildError::MissingName(1)),
        ("$count( $f ){ $f }", ExpansionBuildError::MissingParentheses(2)),
        ("$count{ f }{ f }", ExpansionBuildError::MissingDollar(3)),
        ("$count{ $, }{ x }", ExpansionBuildError::MissingName(4)),
        ("$count{ $a, $a }{ x }", ExpansionBuildError::DuplicateParameter(7)),
        ("$count{ $a x }{ x }", ExpansionBuildError::MissingClosingParentheses(5)),
        ("$count{ $a", ExpansionBuildError::MissingClosingParentheses(5)),
        ("$count{ $a } x", ExpansionBuildError::MissingParentheses(6)),
        ("$count{ $a }{ x } y", ExpansionBuildError::MissingParentheses(9)),
    ];
    for (text, expected) in cases {
        let mut engine = ExpansionEngine::new();
        assert_eq!(engine.add_expansion(text), Err(expected), "{}", text);
    }
}

#[test]
fn every_truncation_of_a_definition_is_rejected() {
    let tokens = mongoexpand::tokenize(
        "$count{ $field }{ { $group: { _id: '$field', cnt: { $sum: 1 } } } }",
    );
    assert!(mongoexpand::Expansion::build(tokens.clone()).is_ok());
    for k in 0..tokens.len() {
        assert!(mongoexpand::Expansion::build(tokens[..k].to_vec()).is_err(), "prefix {}", k);
    }
}

#[test]
fn empty_parameter_list() {
    let mut engine = ExpansionEngine::new();
    assert_eq!(engine.add_expansion("$all{}{ { $match: {} } }"), Ok(()));
    assert_eq!(engine.query("db.c.aggregate([all:{}])"), Ok("db.c.aggregate([{$match:{}}])".to_string()));
}

#[test]
fn query_keeps_surrounding_text() {
    let mut engine = ExpansionEngine::new();
    assert_eq!(engine.add_expansion("$count{ $field }{ { $group: { _id: '$field' } } }"), Ok(()));
    assert_eq!(
        engine.query("db.c.aggregate([ count:{ branch }, count:{city} ])"),
        Ok("db.c.aggregate([{$group:{_id:'branch'}},{$group:{_id:'city'}}])".to_string())
    );
}

#[test]
fn expanded_body_is_not_rescanned() {
    let mut engine = ExpansionEngine::new();
    assert_eq!(engine.add_expansion("$inner{ $a }{ $a }"), Ok(()));
    assert_eq!(engine.add_expansion("$outer{ $a }{ inner:{ $a } }"), Ok(()));
    assert_eq!(engine.query("outer:{x}"), Ok("inner:{x}".to_string()));
}

#[test]
fn unmatched_references_stay() {
    let mut engine = ExpansionEngine::new();
    assert_eq!(engine.add_expansion("$m{ $a }{ $a $b a }"), Ok(()));
    assert_eq!(engine.query("m:{x}"), Ok("x$ba".to_string()));
}

#[test]
fn nested_braces_in_arguments() {
    let mut engine = ExpansionEngine::new();
    assert_eq!(engine.add_expansion("$m{ $a, $b }{ $b$a }"), Ok(()));
    assert_eq!(engine.query("m:{ { x }, y }"), Ok("yx".to_string()));
}

#[test]
fn invocation_without_colon_and_brace() {
    let mut engine = ExpansionEngine::new();
    assert_eq!(engine.add_expansion("$count{ $f }{ $f }"), Ok(()));
    assert_eq!(engine.query("x count branch"), Err(QueryError::MissingParentheses(2)));
    assert_eq!(engine.query("count"), Err(QueryError::MissingParentheses(1)));
    assert_eq!(engine.query("count:"), Err(QueryError::MissingParentheses(1)));
}

#[test]
fn argument_span_that_never_closes() {
    let mut engine = ExpansionEngine::new();
    assert_eq!(engine.add_expansion("$count{ $f }{ $f }"), Ok(()));
    assert_eq!(engine.query("count:{ branch"), Err(QueryError::UnbalancedBraces(2)));
    assert_eq!(engine.query("count:{ { branch }"), Err(QueryError::UnbalancedBraces(2)));
}

#[test]
fn expand_at_an_unregistered_name() {
    let mut engine = ExpansionEngine::new();
    assert_eq!(engine.add_expansion("$count{ $f }{ $f }"), Ok(()));
    let tokens = mongoexpand::tokenize("other:{x} count:{y}");
    assert_eq!(engine.expand_at(&tokens, 0), Err(QueryError::UnknownReference(0)));
    assert_eq!(engine.expand_at(&tokens, 1), Err(QueryError::UnknownReference(1)));
    assert_eq!(engine.expand_at(&tokens, 99), Err(QueryError::UnknownReference(99)));
    assert_eq!(engine.expand_at(&tokens, 5), Ok(("y".to_string(), 10)));
}

#[test]
fn later_definition_replaces_earlier() {
    let mut engine = ExpansionEngine::new();
    assert_eq!(engine.add_expansion("$m{ $a }{ first $a }"), Ok(()));
    assert_eq!(engine.add_expansion("$m{ $a, $b }{ second $a $b }"), Ok(()));
    assert_eq!(engine.query("m:{x, y}"), Ok("secondxy".to_string()));
    assert_eq!(engine.query("m:{x}"), Err(QueryError::ArgumentCountMismatch(2)));
}

#[test]
fn failed_definition_leaves_registry_unchanged() {
    let mut engine = ExpansionEngine::new();
    assert_eq!(engine.add_expansion("$m{ $a }{ $a }"), Ok(()));
    assert!(engine.add_expansion("$m{ $a, $b }{ $a").is_err());
    assert_eq!(engine.query("m:{x}"), Ok("x".to_string()));
    assert!(engine.lookup(&"m".to_string()).is_some());
    assert!(engine.lookup(&"n".to_string()).is_none());
}

#[test]
fn lookup_finds_registered_macro() {
    let mut engine = ExpansionEngine::new();
    assert_eq!(engine.add_expansion("$count{ $f }{ $f }"), Ok(()));
    let mac = engine.lookup(&"count".to_string()).unwrap();
    assert_eq!(mac.name(), "count");
}

#[test]
fn expansion_query_on_a_span() {
    let mac = mongoexpand::Expansion::build(mongoexpand::tokenize("$m{ $a, $b }{ $b-$a }")).unwrap();
    assert_eq!(mac.name(), "m");
    let tokens = mongoexpand::tokenize("m:{ x, y }");
    let out = mac.query(&tokens, 2, 6).unwrap();
    assert_eq!(mongoexpand::render_tokens(&out), "y-x");
    assert_eq!(mac.query(&tokens, 2, 4), Err(QueryError::ArgumentCountMismatch(2)));
}

#[test]
fn error_indices() {
    assert_eq!(ExpansionBuildError::DuplicateParameter(7).index(), 7);
    assert_eq!(ExpansionBuildError::MissingName(4).index(), 4);
    assert_eq!(QueryError::UnbalancedBraces(3).index(), 3);
    assert_eq!(QueryError::UnknownReference(0).index(), 0);
}

#[test]
fn diagnostic_for_a_duplicate_parameter() {
    let source = "$c{ $a, $a }{ x }";
    let mut engine = ExpansionEngine::new();
    let err = engine.add_expansion(source).unwrap_err();
    assert_eq!(err, ExpansionBuildError::DuplicateParameter(7));
    assert_eq!(
        err.format_diagnostic(source),
        format!(
            "error: duplicate parameter\n --> line 1, column 10\n1 | $c{{ $a, $a }}{{ x }}\n  | {}^",
            " ".repeat(9)
        )
    );
}

#[test]
fn diagnostic_at_end_of_text_on_second_line() {
    let source = "$c{ $a }\n{ x ";
    let mut engine = ExpansionEngine::new();
    let err = engine.add_expansion(source).unwrap_err();
    assert_eq!(err, ExpansionBuildError::MissingClosingParentheses(8));
    assert_eq!(
        err.format_diagnostic(source),
        "error: missing closing parentheses\n --> line 2, column 5\n2 | { x \n  |     ^"
    );
}

#[test]
fn diagnostic_for_a_query_error() {
    let mut engine = ExpansionEngine::new();
    assert_eq!(engine.add_expansion("$pair{ $a, $b }{ $a $b }"), Ok(()));
    let err = engine.query("pair:{one}").unwrap_err();
    assert_eq!(
        err.format_diagnostic("pair:{one}"),
        "error: argument count mismatch\n --> line 1, column 6\n1 | pair:{one}\n  |      ^"
    );
}

#[test]
fn diagnostic_counts_columns_in_characters() {
    assert_eq!(
        mongoexpand::diagnostic::format_error("oops", 1, "é €x"),
        "error: oops\n --> line 1, column 3\n1 | é €x\n  |   ^"
    );
}

#[test]
fn diagnostic_line_numbers_past_nine() {
    let source = format!("{}x", "\n".repeat(10));
    assert_eq!(
        mongoexpand::diagnostic::format_error("oops", 0, &source),
        "error: oops\n --> line 11, column 1\n11 | x\n   | ^"
    );
}
