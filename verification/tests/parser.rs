use keikaku::lexer::{Position, Source, Span, Token};
use keikaku::parser::{Ast, ParseError};

fn lex(text: &str) -> Vec<(Token, Span)> {
    Source::new("test".to_string(), text.chars().collect())
        .tokenize()
        .collect()
}

fn parse(text: &str) -> Result<Vec<(Ast, Span)>, ParseError> {
    Ast::parse(&lex(text))
}

fn at(line: usize, from: usize, to: usize) -> Span {
    Span {
        from: Position { line, col: from },
        to: Position { line, col: to },
    }
}

fn sym(name: &str) -> Ast {
    Ast::Symbol(name.to_string())
}

fn invalid(span: Span, detail: &str) -> ParseError {
    ParseError::InvalidNumberFormat(span, detail.to_string())
}

#[test]
fn parses_a_call() {
    assert_eq!(
        parse("(+ 1 2)"),
        Ok(vec![(
            Ast::List(vec![
                (sym("+"), at(0, 1, 1)),
                (Ast::Int(1), at(0, 3, 3)),
                (Ast::Int(2), at(0, 5, 5)),
            ]),
            at(0, 0, 6)
        )])
    );
}

#[test]
fn parses_nothing_from_nothing() {
    assert_eq!(parse(""), Ok(vec![]));
    assert_eq!(parse("   \n "), Ok(vec![]));
}

#[test]
fn parses_the_empty_list() {
    assert_eq!(parse("()"), Ok(vec![(Ast::List(vec![]), at(0, 0, 1))]));
}

#[test]
fn promotes_def() {
    assert_eq!(parse("def"), Ok(vec![(Ast::Def, at(0, 0, 2))]));
    assert_eq!(
        parse("(def x 5)"),
        Ok(vec![(
            Ast::List(vec![
                (Ast::Def, at(0, 1, 3)),
                (sym("x"), at(0, 5, 5)),
                (Ast::Int(5), at(0, 7, 7)),
            ]),
            at(0, 0, 8)
        )])
    );
}

#[test]
fn words_near_def_are_symbols() {
    assert_eq!(parse("define"), Ok(vec![(sym("define"), at(0, 0, 5))]));
    assert_eq!(parse("de"), Ok(vec![(sym("de"), at(0, 0, 1))]));
    assert_eq!(parse("Def"), Ok(vec![(sym("Def"), at(0, 0, 2))]));
}

#[test]
fn parses_nested_lists() {
    assert_eq!(
        parse("(a (b (c)) ())"),
        Ok(vec![(
            Ast::List(vec![
                (sym("a"), at(0, 1, 1)),
                (
                    Ast::List(vec![
                        (sym("b"), at(0, 4, 4)),
                        (Ast::List(vec![(sym("c"), at(0, 7, 7))]), at(0, 6, 8)),
                    ]),
                    at(0, 3, 9)
                ),
                (Ast::List(vec![]), at(0, 11, 12)),
            ]),
            at(0, 0, 13)
        )])
    );
}

#[test]
fn parses_top_level_expressions_in_order() {
    assert_eq!(
        parse("1 x\n(y) -3"),
        Ok(vec![
            (Ast::Int(1), at(0, 0, 0)),
            (sym("x"), at(0, 2, 2)),
            (Ast::List(vec![(sym("y"), at(1, 1, 1))]), at(1, 0, 2)),
            (Ast::Int(-3), at(1, 4, 5)),
        ])
    );
}

#[test]
fn rejects_a_closing_brace_without_an_opening_one() {
    assert_eq!(parse(")"), Err(ParseError::MismatchedClosingBrace(at(0, 0, 0))));
    assert_eq!(parse("(a) )"), Err(ParseError::MismatchedClosingBrace(at(0, 4, 4))));
    assert_eq!(parse("1 ) ("), Err(ParseError::MismatchedClosingBrace(at(0, 2, 2))));
}

#[test]
fn rejects_an_unclosed_list() {
    assert_eq!(parse("("), Err(ParseError::UnexpectedEndOfInput));
    assert_eq!(parse("(a"), Err(ParseError::UnexpectedEndOfInput));
    assert_eq!(parse("(a (b)"), Err(ParseError::UnexpectedEndOfInput));
    assert_eq!(parse("(()"), Err(ParseError::UnexpectedEndOfInput));
}

#[test]
fn rejects_malformed_numbers() {
    assert_eq!(parse("1-2"), Err(invalid(at(0, 0, 2), "invalid digit found in string")));
    assert_eq!(parse("(+ 1 2x)"), Err(invalid(at(0, 5, 6), "invalid digit found in string")));
    assert_eq!(parse("-1-"), Err(invalid(at(0, 0, 2), "invalid digit found in string")));
}

#[test]
fn the_first_error_wins() {
    assert_eq!(parse("(1x"), Err(invalid(at(0, 1, 2), "invalid digit found in string")));
    assert_eq!(parse(") 1x"), Err(ParseError::MismatchedClosingBrace(at(0, 0, 0))));
    assert_eq!(parse("1x )"), Err(invalid(at(0, 0, 1), "invalid digit found in string")));
}

#[test]
fn parses_the_ends_of_the_range() {
    assert_eq!(
        parse("170141183460469231731687303715884105727"),
        Ok(vec![(Ast::Int(i128::MAX), at(0, 0, 38))])
    );
    assert_eq!(
        parse("-170141183460469231731687303715884105728"),
        Ok(vec![(Ast::Int(i128::MIN), at(0, 0, 39))])
    );
}

#[test]
fn rejects_numbers_out_of_range() {
    assert_eq!(
        parse("170141183460469231731687303715884105728"),
        Err(invalid(at(0, 0, 38), "number too large to fit in target type"))
    );
    assert_eq!(
        parse("-170141183460469231731687303715884105729"),
        Err(invalid(at(0, 0, 39), "number too small to fit in target type"))
    );
}

#[test]
fn leading_zeros_do_not_change_the_value() {
    assert_eq!(parse("007"), Ok(vec![(Ast::Int(7), at(0, 0, 2))]));
    assert_eq!(parse("-000"), Ok(vec![(Ast::Int(0), at(0, 0, 3))]));
}

#[test]
fn integer_text_round_trips() {
    let values: [i128; 9] = [0, 1, -1, 9, 10, -10, 1234567890123456789, i128::MAX, i128::MIN];
    for value in values {
        let text = format!("{}", value);
        let width = text.chars().count();
        assert_eq!(parse(&text), Ok(vec![(Ast::Int(value), at(0, 0, width - 1))]));
    }
}

#[test]
fn number_tokens_made_by_hand_are_read_as_literals() {
    let span = at(2, 4, 5);
    let plus = vec![(Token::Num("+5".to_string()), span)];
    assert_eq!(Ast::parse(&plus), Ok(vec![(Ast::Int(5), span)]));
    let empty = vec![(Token::Num(String::new()), span)];
    assert_eq!(
        Ast::parse(&empty),
        Err(invalid(span, "cannot parse integer from empty string"))
    );
    let sign = vec![(Token::Num("-".to_string()), span)];
    assert_eq!(Ast::parse(&sign), Err(invalid(span, "invalid digit found in string")));
}

#[test]
fn parse_expr_says_where_the_next_expression_starts() {
    let tokens = lex("(a b) c");
    let first = Ast::parse_expr(&tokens, 0);
    assert_eq!(
        first,
        Ok((
            (
                Ast::List(vec![(sym("a"), at(0, 1, 1)), (sym("b"), at(0, 3, 3))]),
                at(0, 0, 4)
            ),
            4
        ))
    );
    assert_eq!(Ast::parse_expr(&tokens, 1), Ok(((sym("a"), at(0, 1, 1)), 2)));
    assert_eq!(Ast::parse_expr(&tokens, 4), Ok(((sym("c"), at(0, 6, 6)), 5)));
    assert_eq!(
        Ast::parse_expr(&tokens, 3),
        Err(ParseError::MismatchedClosingBrace(at(0, 4, 4)))
    );
}

#[test]
fn parse_expr_past_the_end_is_an_error() {
    let tokens = lex("a");
    assert_eq!(Ast::parse_expr(&tokens, 1), Err(ParseError::UnexpectedEndOfInput));
    assert_eq!(Ast::parse_expr(&tokens, 7), Err(ParseError::UnexpectedEndOfInput));
    assert_eq!(Ast::parse_expr(&vec![], 0), Err(ParseError::UnexpectedEndOfInput));
}

#[test]
fn number_node_keeps_value_and_span() {
    let span = at(1, 2, 3);
    assert_eq!(Ast::number_node(Ok(-42), span), Ok((Ast::Int(-42), span)));
    assert_eq!(
        Ast::number_node(Err("no good".to_string()), span),
        Err(invalid(span, "no good"))
    );
}

#[test]
fn child_counts_and_depth_are_kept() {
    let parsed = parse("((1 2 3) (4 (5 6)) 7)").unwrap();
    assert_eq!(parsed.len(), 1);
    match &parsed[0].0 {
        Ast::List(outer) => {
            assert_eq!(outer.len(), 3);
            match &outer[0].0 {
                Ast::List(inner) => assert_eq!(inner.len(), 3),
                other => panic!("not a list: {:?}", other),
            }
            match &outer[1].0 {
                Ast::List(inner) => {
                    assert_eq!(inner.len(), 2);
                    match &inner[1].0 {
                        Ast::List(deepest) => assert_eq!(deepest.len(), 2),
                        other => panic!("not a list: {:?}", other),
                    }
                }
                other => panic!("not a list: {:?}", other),
            }
            assert_eq!(outer[2].0, Ast::Int(7));
        }
        other => panic!("not a list: {:?}", other),
    }
}

#[test]
fn ast_clone_is_deep_and_equal() {
    let parsed = parse("(a (b 1) ())").unwrap();
    let copy = parsed[0].0.clone();
    assert_eq!(copy, parsed[0].0);
}

#[test]
fn parse_errors_render_as_sentences() {
    assert_eq!(
        ParseError::MismatchedClosingBrace(at(0, 4, 4)).as_string(),
        "mismatched closing brace at 1:4-1:4"
    );
    assert_eq!(ParseError::UnexpectedEndOfInput.as_string(), "unexpected end of input");
    assert_eq!(
        invalid(at(1, 0, 2), "invalid digit found in string").as_string(),
        "invalid number format: invalid digit found in string at 2:0-2:2"
    );
}

#[test]
fn a_list_spans_from_its_opening_to_its_closing_brace() {
    let parsed = parse("(a b)").unwrap();
    assert_eq!(parsed[0].1.from, Position { line: 0, col: 0 });
    assert_eq!(parsed[0].1.to, Position { line: 0, col: 4 });
}

#[test]
fn a_list_can_span_lines() {
    let parsed = parse(" (a\n  (b\n c)\n)").unwrap();
    assert_eq!(
        parsed,
        vec![(
            Ast::List(vec![
                (sym("a"), at(0, 2, 2)),
                (
                    Ast::List(vec![(sym("b"), at(1, 3, 3)), (sym("c"), at(2, 1, 1))]),
                    Span {
                        from: Position { line: 1, col: 2 },
                        to: Position { line: 2, col: 2 },
                    }
                ),
            ]),
            Span {
                from: Position { line: 0, col: 1 },
                to: Position { line: 3, col: 0 },
            }
        )]
    );
}

#[test]
fn a_list_made_by_hand_takes_the_ends_of_its_braces() {
    let open = Span {
        from: Position { line: 1, col: 2 },
        to: Position { line: 3, col: 4 },
    };
    let close = Span {
        from: Position { line: 5, col: 6 },
        to: Position { line: 7, col: 8 },
    };
    let tokens = vec![(Token::OpeningBrace, open), (Token::ClosingBrace, close)];
    assert_eq!(
        Ast::parse(&tokens),
        Ok(vec![(
            Ast::List(vec![]),
            Span {
                from: Position { line: 1, col: 2 },
                to: Position { line: 7, col: 8 },
            }
        )])
    );
}
