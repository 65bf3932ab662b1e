use arith_parser::ast::{Node, ParseErrorType, Parser, Span};
use arith_parser::grammar::{Factor, Number, Term};
use arith_parser::lexer::{CharIndex, IndexedCharIter, LexerErrorType, LexerStream, WhitespaceMode};
use arith_parser::matchers::{AnyChar, CharMatcher, NumericChar, SpecificChar};

fn number_value(n: &Number) -> f64 {
    let v: f64 = n.digits.parse().unwrap();
    if n.negative {
        -v
    } else {
        v
    }
}

fn factor_value(f: &Factor) -> f64 {
    match f {
        Factor::Val(n) => number_value(n),
        Factor::Parenthesis(t) => term_value(t),
        Factor::Mul(a, b) => factor_value(a) * factor_value(b),
        Factor::Div(a, b) => factor_value(a) / factor_value(b),
    }
}

fn term_value(t: &Term) -> f64 {
    match t {
        Term::Val(f) => factor_value(f),
        Term::Add(a, b) => term_value(a) + term_value(b),
        Term::Sub(a, b) => term_value(a) - term_value(b),
    }
}

fn eval(s: &str) -> f64 {
    let mut parser = Parser::new(s);
    let node: Node<Term> = parser.parse::<Term>().unwrap();
    term_value(&node)
}

fn at(line: usize, column: usize) -> CharIndex {
    CharIndex { line, column }
}

#[test]
fn parenthesis() {
    let mut v = LexerStream::new(IndexedCharIter::new("(abcd)(bcda)"));
    let expected = ['a', 'b', 'c', 'd', 'b', 'c', 'd', 'a'];
    let mut received = vec![];

    while v.advance(&SpecificChar { expected: '(' }).is_ok() {
        let mut second_stream = v.eat_until(&SpecificChar { expected: ')' }).unwrap();

        while let Ok(v) = second_stream.advance(&AnyChar) {
            received.push(v);
        }
        v.eat(')').unwrap();
    }

    assert_eq!(received, expected)
}

#[test]
fn precedence_test() {
    assert_eq!(eval("1+2*5"), 11.0);
}

#[test]
fn long_expr() {
    assert_eq!(eval("2/3*9"), 6.0);
}

#[test]
fn subtraction_groups_from_the_left() {
    assert_eq!(eval("1-2-3"), -4.0);
    assert_eq!(eval("8/4/2"), 1.0);
}

#[test]
fn parentheses_override_precedence() {
    assert_eq!(eval("(1+2)*3"), 9.0);
    assert_eq!(eval("2*(3-1)"), 4.0);
}

#[test]
fn whitespace_is_skipped() {
    assert_eq!(eval(" 1 +\t2 * 3 "), 7.0);
}

#[test]
fn signed_decimal_literal() {
    let mut parser = Parser::new("-12.5");
    let n = parser.parse::<Number>().unwrap();
    assert!(n.negative);
    assert_eq!(n.digits, "12.5");
    assert_eq!(number_value(&n), -12.5);
    assert!(parser.lexer().is_finished());
}

#[test]
fn literal_stops_before_an_operator() {
    let mut parser = Parser::new("42*2");
    let n = parser.parse::<Number>().unwrap();
    assert!(!n.negative);
    assert_eq!(n.digits, "42");
    assert_eq!(parser.lexer().peek().unwrap(), (at(0, 2), '*'));
}

#[test]
fn extra_dot_is_refused() {
    let mut parser = Parser::new("1.2.3");
    let e = parser.parse::<Number>().unwrap_err();
    assert!(matches!(e.ty, ParseErrorType::ExtraDotInNumberLiteral));
    assert_eq!(e.span.start, at(0, 0));
    assert_eq!(e.span.end, at(0, 3));
}

#[test]
fn literal_without_digits_is_refused() {
    let e = Parser::new("-").parse::<Number>().unwrap_err();
    assert!(matches!(e.ty, ParseErrorType::EmptyNumberLiteral));
    let e = Parser::new(".").parse::<Number>().unwrap_err();
    assert!(matches!(e.ty, ParseErrorType::EmptyNumberLiteral));
    let e = Parser::new("").parse::<Number>().unwrap_err();
    assert!(matches!(e.ty, ParseErrorType::EmptyNumberLiteral));
}

#[test]
fn extraction_is_exact() {
    let mut v = LexerStream::new(IndexedCharIter::new("(1234)(2345)(22)"));
    let mut regions = vec![];
    while v.advance(&SpecificChar { expected: '(' }).is_ok() {
        let mut inner = v.eat_until(&SpecificChar { expected: ')' }).unwrap();
        let mut text = String::new();
        while let Ok(c) = inner.advance(&NumericChar) {
            text.push(c);
        }
        assert!(inner.is_finished());
        regions.push(text);
        v.eat(')').unwrap();
    }
    assert_eq!(regions, vec!["1234", "2345", "22"]);
    assert!(v.is_finished());
}

#[test]
fn failed_rule_leaves_the_cursor_as_it_was() {
    let mut parser = Parser::new("12.3.4");
    let before = parser.lexer().span();
    assert!(parser.parse::<Term>().is_err());
    assert_eq!(parser.lexer().position(), at(0, 0));
    assert_eq!(parser.lexer().span(), before);
    assert_eq!(parser.lexer().peek().unwrap(), (at(0, 0), '1'));
}

#[test]
fn span_covers_the_consumed_text() {
    let text = "12+345";
    let mut parser = Parser::new(text);
    let node = parser.parse::<Term>().unwrap();
    let span = node.span();
    assert_eq!(span.start, at(0, 0));
    assert_eq!(span.end, at(0, 6));
    assert_eq!(&text[span.start.column..span.end.column], "12+345");

    let text = "7*(8-1)+2";
    let mut parser = Parser::new(text);
    let node = parser.parse::<Factor>().unwrap();
    let span = node.span();
    assert_eq!(&text[span.start.column..span.end.column], "7*(8-1)");
    match &*node {
        Factor::Mul(a, b) => {
            assert_eq!(&text[a.span().start.column..a.span().end.column], "7");
            assert_eq!(&text[b.span().start.column..b.span().end.column], "(8-1)");
        }
        _ => panic!("expected a product"),
    }
}

#[test]
fn span_starts_after_leading_whitespace() {
    let mut parser = Parser::new("  42 ");
    let node = parser.parse::<Number>().unwrap();
    assert_eq!(node.span().start, at(0, 2));
    assert_eq!(node.span().end, at(0, 4));
}

#[test]
fn trailing_data_is_left_unconsumed() {
    let mut parser = Parser::new("1+2 extra");
    let node = parser.parse::<Term>().unwrap();
    assert_eq!(term_value(&node), 3.0);
    assert!(!parser.lexer().is_finished());
    assert_eq!(parser.lexer().position(), at(0, 4));
    assert_eq!(parser.lexer().peek().unwrap(), (at(0, 4), 'e'));
}

#[test]
fn dangling_operator_is_an_empty_literal() {
    let mut parser = Parser::new("1+");
    let e = parser.parse::<Term>().unwrap_err();
    assert!(matches!(e.ty, ParseErrorType::EmptyNumberLiteral));
    assert_eq!(e.span.start, at(0, 2));
    assert_eq!(e.span.end, at(0, 2));
}

#[test]
fn unclosed_parenthesis_is_an_end_of_input() {
    let mut parser = Parser::new("(1");
    let e = parser.parse::<Term>().unwrap_err();
    match e.ty {
        ParseErrorType::LexerError(l) => {
            assert!(l.is_eof());
            assert_eq!(l.position(), at(0, 2));
        }
        _ => panic!("expected a lexer error"),
    }
}

#[test]
fn refused_character_is_described() {
    let mut v = LexerStream::new(IndexedCharIter::new("x1"));
    let e = v.advance(&SpecificChar { expected: '(' }).unwrap_err();
    match e.err {
        LexerErrorType::IncorrectChar(got, s) => {
            assert_eq!(got, Some('x'));
            assert_eq!(s, "got x but expected (");
        }
        LexerErrorType::EOF => panic!("expected an incorrect character"),
    }
    let e = v.advance(&NumericChar).unwrap_err();
    match e.err {
        LexerErrorType::IncorrectChar(_, s) => assert_eq!(s, "got non-numeric character x"),
        LexerErrorType::EOF => panic!("expected an incorrect character"),
    }
    assert_eq!(v.advance(&AnyChar).unwrap(), 'x');
    assert_eq!(v.advance(&NumericChar).unwrap(), '1');
    assert!(v.advance(&AnyChar).unwrap_err().is_eof());
}

#[test]
fn matchers_accept_their_class() {
    assert!(NumericChar.is_match('7').is_ok());
    assert!(NumericChar.is_match('a').is_err());
    assert!(AnyChar.is_match('a').is_ok());
    assert!(SpecificChar { expected: ')' }.is_match(')').is_ok());
    assert!(SpecificChar { expected: ')' }.is_match('(').is_err());
}

#[test]
fn positions_follow_lines() {
    let p = at(3, 7);
    assert_eq!(p.advance('\n'), at(4, 0));
    assert_eq!(p.advance('x'), at(3, 8));
    assert_eq!(p.advance_num(5), at(3, 12));
}

#[test]
fn nested_parentheses_end_at_the_first_close() {
    let mut parser = Parser::new("((1))");
    assert!(parser.parse::<Term>().is_err());
}

#[test]
fn whitespace_can_be_handed_out() {
    let mut chars = IndexedCharIter::with_mode("a\n b", WhitespaceMode::Allow);
    assert_eq!(chars.next(), Some((at(0, 0), 'a')));
    assert_eq!(chars.next(), Some((at(0, 1), '\n')));
    assert_eq!(chars.next(), Some((at(1, 0), ' ')));
    assert_eq!(chars.next(), Some((at(1, 1), 'b')));
    assert_eq!(chars.next(), None);
    assert_eq!(chars.index(), at(1, 2));
}

#[test]
fn skipped_whitespace_still_moves_the_position() {
    let mut chars = IndexedCharIter::new("a\n  b");
    assert_eq!(chars.next(), Some((at(0, 0), 'a')));
    assert_eq!(chars.next(), Some((at(1, 2), 'b')));
    assert_eq!(chars.next(), None);
}

#[test]
fn nested_nodes_keep_their_spans() {
    let mut parser = Parser::new("(1+2)*3");
    let f = parser.parse::<Factor>().unwrap();
    assert_eq!(f.span(), Span::new(at(0, 0), at(0, 7)));
    match &*f {
        Factor::Mul(a, b) => {
            assert_eq!(a.span(), Span::new(at(0, 0), at(0, 5)));
            assert_eq!(b.span(), Span::new(at(0, 6), at(0, 7)));
            match &**a {
                Factor::Parenthesis(t) => {
                    assert_eq!(t.span(), Span::new(at(0, 1), at(0, 4)));
                    match &**t {
                        Term::Add(x, y) => {
                            assert_eq!(x.span(), Span::new(at(0, 1), at(0, 2)));
                            assert_eq!(y.span(), Span::new(at(0, 3), at(0, 4)));
                        }
                        _ => panic!("expected a sum"),
                    }
                }
                _ => panic!("expected a parenthesized term"),
            }
        }
        _ => panic!("expected a product"),
    }
}

#[test]
fn peek_sees_the_bound_character() {
    let mut v = LexerStream::new(IndexedCharIter::new("(1)"));
    v.eat('(').unwrap();
    let mut inner = v.eat_until(&SpecificChar { expected: ')' }).unwrap();
    assert_eq!(inner.peek().unwrap(), (at(0, 1), '1'));
    assert_eq!(inner.advance(&AnyChar).unwrap(), '1');
    assert_eq!(inner.peek().unwrap(), (at(0, 2), ')'));
    assert!(inner.is_finished());
    let e = inner.advance(&AnyChar).unwrap_err();
    assert!(e.is_eof());
    assert_eq!(e.position(), at(0, 2));
    assert_eq!(v.peek().unwrap(), (at(0, 2), ')'));
}

#[test]
fn parsing_with_another_cursor_restores_the_first() {
    let mut parser = Parser::new("9");
    let mut v = LexerStream::new(IndexedCharIter::new("(4*5)"));
    v.eat('(').unwrap();
    let inner = v.eat_until(&SpecificChar { expected: ')' }).unwrap();
    let t = parser.parse_with_lexer::<Term>(inner).unwrap();
    assert_eq!(term_value(&t), 20.0);
    assert_eq!(t.span(), Span::new(at(0, 1), at(0, 4)));
    assert_eq!(parser.lexer().peek().unwrap(), (at(0, 0), '9'));
}

#[test]
fn error_inside_parentheses_is_placed_in_the_text() {
    let e = Parser::new("2*(1+)").parse::<Term>().unwrap_err();
    assert!(matches!(e.ty, ParseErrorType::EmptyNumberLiteral));
    assert_eq!(e.span, Span::new(at(0, 5), at(0, 5)));
}
