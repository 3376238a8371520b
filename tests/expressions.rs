use calc_parser::diagnostic::{colour_runs_of, highlight_at, ExcerptLine, Highlight, Run};
use calc_parser::lexer::{tokenize, Span, Token, TokenType, Tokens};
use calc_parser::parser::{parse, BinOp, Expr};
use calc_parser::source::{find_lines, Source};

fn value(source: &Source, e: &Expr) -> f64 {
    match e {
        Expr::Number(s) => source.text[s.start..s.end].parse().unwrap(),
        Expr::Paren(x) => value(source, x),
        Expr::Binary(op, l, r) => {
            let (a, b) = (value(source, l), value(source, r));
            match op {
                BinOp::Add => a + b,
                BinOp::Sub => a - b,
                BinOp::Mul => a * b,
                BinOp::Div => a / b,
            }
        }
    }
}

fn eval(text: &str) -> f64 {
    let source = Source::new(text.to_string());
    let tokens = match tokenize(&source) {
        Ok(t) => t,
        Err(e) => panic!("lex error: {}", e.message),
    };
    let result = match parse(&tokens) {
        Ok(e) => value(&source, &e),
        Err(e) => panic!("parse error: {}", e.message),
    };
    result
}

fn kinds(tokens: &Tokens) -> Vec<TokenType> {
    tokens.tokens.iter().map(|t| t.ttype).collect()
}

#[test]
fn precedence_and_parentheses() {
    assert_eq!(eval("2 + 3 * 4"), 14.0);
    assert_eq!(eval("(2 + 3) * 4"), 20.0);
    assert_eq!(eval("2 * 3 + 4"), 10.0);
    assert_eq!(eval("((7))"), 7.0);
}

#[test]
fn left_associativity() {
    assert_eq!(eval("8 - 3 - 2"), 3.0);
    assert_eq!(eval("16 / 4 / 2"), 2.0);
    assert_eq!(eval("1 - 2 + 3"), 2.0);
}

#[test]
fn fractional_literals() {
    assert_eq!(eval("1.5 * 2"), 3.0);
    assert_eq!(eval("0.25 + 0.25"), 0.5);
}

#[test]
fn tree_shape_follows_grammar() {
    let source = Source::new("1 + 2 * 3".to_string());
    let tokens = tokenize(&source).ok().unwrap();
    let e = parse(&tokens).ok().unwrap();
    match e {
        Expr::Binary(BinOp::Add, l, r) => {
            assert!(matches!(*l, Expr::Number(Span { start: 0, end: 1 })));
            assert!(matches!(*r, Expr::Binary(BinOp::Mul, _, _)));
        }
        _ => panic!("expected a sum at the top"),
    }
}

#[test]
fn division_by_zero_is_infinity() {
    assert_eq!(eval("1 / 0"), f64::INFINITY);
    assert!(eval("0 / 0").is_nan());
}

#[test]
fn whitespace_is_insignificant() {
    assert_eq!(eval("1+2"), 3.0);
    assert_eq!(eval("1 + 2"), 3.0);
    assert_eq!(eval(" 1  +   2 "), 3.0);
    assert_eq!(eval("1\n+\t2\r\n"), 3.0);
}

#[test]
fn stray_character_is_a_lex_error() {
    let source = Source::new("2 & 3".to_string());
    let err = match tokenize(&source) {
        Ok(_) => panic!("expected a lex error"),
        Err(e) => e,
    };
    assert_eq!(err.span, Span { start: 2, end: 5 });
    assert_eq!(err.message, "unrecognized character(s)");
    assert_eq!(kinds(&err.tokens), vec![TokenType::Number, TokenType::EOF]);
    assert_eq!(err.tokens.tokens[0].span, Span { start: 0, end: 1 });
}

#[test]
fn dangling_dot_is_a_lex_error() {
    let source = Source::new("1.".to_string());
    let err = tokenize(&source).err().unwrap();
    assert_eq!(err.span, Span { start: 1, end: 2 });
}

#[test]
fn leading_garbage_spans_whole_text() {
    let source = Source::new("  x".to_string());
    let err = tokenize(&source).err().unwrap();
    assert_eq!(err.span, Span { start: 0, end: 3 });
    assert_eq!(kinds(&err.tokens), vec![TokenType::EOF]);
}

#[test]
fn token_stream_spans() {
    let source = Source::new(" 12.5*(3) ".to_string());
    let tokens = tokenize(&source).ok().unwrap();
    let expected = vec![
        Token::from(TokenType::Number, 1, 5),
        Token::from(TokenType::Mul, 5, 6),
        Token::from(TokenType::LParen, 6, 7),
        Token::from(TokenType::Number, 7, 8),
        Token::from(TokenType::RParen, 8, 9),
        Token::eof(10),
    ];
    assert_eq!(tokens.tokens, expected);
}

#[test]
fn whitespace_only_input_has_eof_at_start() {
    let source = Source::new("   ".to_string());
    let tokens = tokenize(&source).ok().unwrap();
    assert_eq!(tokens.tokens, vec![Token::eof(0)]);
    let err = parse(&tokens).err().unwrap();
    assert_eq!(err.message, "Expected number or '(', found end of input");
    assert_eq!(err.span, Span { start: 0, end: 0 });
}

#[test]
fn unclosed_parenthesis_fails_at_end_of_input() {
    let source = Source::new("(1 + 2".to_string());
    let tokens = tokenize(&source).ok().unwrap();
    let err = parse(&tokens).err().unwrap();
    assert_eq!(err.span, Span { start: 6, end: 6 });
    assert_eq!(err.message, "Expected ')', found end of input");
}

#[test]
fn stray_closing_parenthesis_fails_there() {
    let source = Source::new("1 + 2)".to_string());
    let tokens = tokenize(&source).ok().unwrap();
    let err = parse(&tokens).err().unwrap();
    assert_eq!(err.span, Span { start: 5, end: 6 });
    assert_eq!(
        err.message,
        "Expected end of input, '+', '-', '*', or '/', found ')'"
    );
    assert_eq!(err.tokens.tokens, tokens.tokens);
}

#[test]
fn operator_where_value_expected() {
    let source = Source::new("1 + * 2".to_string());
    let tokens = tokenize(&source).ok().unwrap();
    let err = parse(&tokens).err().unwrap();
    assert_eq!(err.span, Span { start: 4, end: 5 });
    assert_eq!(err.message, "Expected number or '(', found '*'");
}

#[test]
fn second_expression_is_trailing_input() {
    let source = Source::new("1 2".to_string());
    let tokens = tokenize(&source).ok().unwrap();
    let err = parse(&tokens).err().unwrap();
    assert_eq!(err.span, Span { start: 2, end: 3 });
    assert_eq!(
        err.message,
        "Expected end of input, '+', '-', '*', or '/', found '2'"
    );
}

#[test]
fn same_text_same_result() {
    let a = Source::new("(4 - 1) * 2 / 3".to_string());
    let b = Source::new("(4 - 1) * 2 / 3".to_string());
    let ta = tokenize(&a).ok().unwrap();
    let tb = tokenize(&b).ok().unwrap();
    assert_eq!(ta.tokens, tb.tokens);
    assert_eq!(
        value(&a, &parse(&ta).ok().unwrap()).to_bits(),
        value(&b, &parse(&tb).ok().unwrap()).to_bits()
    );
    let ea = parse(&ta).ok().unwrap();
    let eb = parse(&tb).ok().unwrap();
    assert_eq!(format!("{:?}", ea), format!("{:?}", eb));
}

#[test]
fn line_table() {
    assert_eq!(find_lines("a\nbc\n"), vec![2, 5]);
    assert_eq!(find_lines("a\nb\n"), vec![2, 4]);
    assert_eq!(find_lines(""), Vec::<usize>::new());
    assert_eq!(find_lines("1+2"), Vec::<usize>::new());
    assert_eq!(Source::new(String::new()).lines, vec![0]);
    let source = Source::new("1 +\n2\n\n3".to_string());
    assert_eq!(source.lines, vec![0, 4, 6, 7]);
    assert_eq!(source.line_of(0), 0);
    assert_eq!(source.line_of(3), 0);
    assert_eq!(source.line_of(4), 1);
    assert_eq!(source.line_of(6), 2);
    assert_eq!(source.line_of(8), 3);
    assert_eq!(source.line_end(0), 4);
    assert_eq!(source.line_end(3), 8);
}

#[test]
fn single_line_underline() {
    let source = Source::new("12 + 345".to_string());
    let tokens = tokenize(&source).ok().unwrap();
    let lines = Span { start: 5, end: 8 }.print(&tokens);
    assert_eq!(
        lines,
        vec![ExcerptLine { line: 0, start: 0, end: 8, column: 5, width: 3 }]
    );
    assert_eq!(lines[0].underline(), "     ^^^");
}

#[test]
fn empty_span_still_underlined() {
    let source = Source::new("(1 + 2  ".to_string());
    let tokens = tokenize(&source).ok().unwrap();
    let err = parse(&tokens).err().unwrap();
    let lines = err.excerpt();
    assert_eq!(lines.len(), 1);
    assert_eq!(lines[0].column, 8);
    assert_eq!(lines[0].width, 1);
    assert_eq!(lines[0].end, 6);
    assert_eq!(lines[0].underline(), "        ^");
}

#[test]
fn two_line_span_gives_two_excerpts() {
    let source = Source::new("1 +\n  2 )".to_string());
    let tokens = tokenize(&source).ok().unwrap();
    let lines = Span { start: 2, end: 7 }.print(&tokens);
    assert_eq!(
        lines,
        vec![
            ExcerptLine { line: 0, start: 0, end: 3, column: 2, width: 1 },
            ExcerptLine { line: 1, start: 4, end: 9, column: 0, width: 3 },
        ]
    );
}

#[test]
fn three_line_span_underlines_middle_in_full() {
    let source = Source::new("1 +\n22 +\n3".to_string());
    let tokens = tokenize(&source).ok().unwrap();
    let lines = Span { start: 0, end: 10 }.print(&tokens);
    assert_eq!(lines.len(), 3);
    assert_eq!(lines[1], ExcerptLine { line: 1, start: 4, end: 8, column: 0, width: 4 });
    assert_eq!(lines[2], ExcerptLine { line: 2, start: 9, end: 10, column: 0, width: 1 });
}

#[test]
fn highlight_classes() {
    let source = Source::new("12 + (3)".to_string());
    let tokens = tokenize(&source).ok().unwrap();
    let span = Span { start: 5, end: 6 };
    assert_eq!(highlight_at(&tokens, span, 0), Highlight::Number);
    assert_eq!(highlight_at(&tokens, span, 1), Highlight::Number);
    assert_eq!(highlight_at(&tokens, span, 2), Highlight::Plain);
    assert_eq!(highlight_at(&tokens, span, 3), Highlight::Symbol);
    assert_eq!(highlight_at(&tokens, span, 5), Highlight::Error);
    assert_eq!(highlight_at(&tokens, span, 7), Highlight::Symbol);
}

#[test]
fn cursor_peeks_and_advances() {
    let source = Source::new("1+2".to_string());
    let tokens = tokenize(&source).ok().unwrap();
    let mut it = tokens.iter();
    assert_eq!(it.peek().ttype, TokenType::Number);
    assert_eq!(it.index, 0);
    assert_eq!(it.next().map(|t| t.ttype), Some(TokenType::Number));
    assert_eq!(it.peek().ttype, TokenType::Add);
    it.next();
    it.next();
    assert_eq!(it.next().map(|t| t.ttype), Some(TokenType::EOF));
    assert_eq!(it.next(), None);
}

#[test]
fn colour_runs_split_line() {
    let source = Source::new("12 + (3)".to_string());
    let tokens = tokenize(&source).ok().unwrap();
    let span = Span { start: 5, end: 6 };
    let runs = colour_runs_of(&tokens, span, 0, 8);
    assert_eq!(
        runs,
        vec![
            Run { start: 0, end: 2, highlight: Highlight::Number },
            Run { start: 2, end: 3, highlight: Highlight::Plain },
            Run { start: 3, end: 4, highlight: Highlight::Symbol },
            Run { start: 4, end: 5, highlight: Highlight::Plain },
            Run { start: 5, end: 6, highlight: Highlight::Error },
            Run { start: 6, end: 7, highlight: Highlight::Number },
            Run { start: 7, end: 8, highlight: Highlight::Symbol },
        ]
    );
    assert!(colour_runs_of(&tokens, span, 4, 4).is_empty());
}

#[test]
fn extra_opening_parenthesis_is_rejected() {
    let source = Source::new("((1)".to_string());
    let tokens = tokenize(&source).ok().unwrap();
    let err = parse(&tokens).err().unwrap();
    assert_eq!(err.span, Span { start: 4, end: 4 });
    assert_eq!(err.message, "Expected ')', found end of input");
}

#[test]
fn number_in_message_is_quoted_source_text() {
    let source = Source::new("(1 + 2.50 3.25".to_string());
    let tokens = tokenize(&source).ok().unwrap();
    let err = parse(&tokens).err().unwrap();
    assert_eq!(err.span, Span { start: 10, end: 14 });
    assert_eq!(err.message, "Expected ')', found '3.25'");
}
