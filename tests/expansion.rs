use seq_expand::decimal::decimal_string;
use seq_expand::expand::expand;
use seq_expand::invocation::{Diagnostic, ErrorKind, Invocation};
use seq_expand::marker::{locate_and_expand, repeat_substitute};
use seq_expand::substitute::substitute;
use seq_expand::token::{Delimiter, Pos, Span, Token};

fn span(lo: usize, hi: usize) -> Span {
    Span { lo: Pos { line: 1, column: lo }, hi: Pos { line: 1, column: hi } }
}

/// Reads one line of source text into token trees; columns are character
/// offsets, so tokens written without a space between them touch.
fn lex(src: &str) -> Vec<Token> {
    let chars: Vec<char> = src.chars().collect();
    let mut pos = 0;
    let toks = lex_until(&chars, &mut pos, None);
    assert_eq!(pos, chars.len());
    toks
}

fn lex_until(chars: &[char], pos: &mut usize, close: Option<char>) -> Vec<Token> {
    let mut out = Vec::new();
    while *pos < chars.len() {
        let c = chars[*pos];
        let start = *pos;
        if c.is_whitespace() {
            *pos += 1;
        } else if Some(c) == close {
            *pos += 1;
            return out;
        } else if c == '(' || c == '[' || c == '{' {
            let (delimiter, end) = match c {
                '(' => (Delimiter::Parenthesis, ')'),
                '[' => (Delimiter::Bracket, ']'),
                _ => (Delimiter::Brace, '}'),
            };
            *pos += 1;
            let stream = lex_until(chars, pos, Some(end));
            out.push(Token::Group { delimiter, stream, span: span(start, *pos) });
        } else if c.is_alphabetic() || c == '_' {
            while *pos < chars.len() && (chars[*pos].is_alphanumeric() || chars[*pos] == '_') {
                *pos += 1;
            }
            let text: String = chars[start..*pos].iter().collect();
            out.push(Token::Ident { text, span: span(start, *pos) });
        } else if c.is_ascii_digit() {
            while *pos < chars.len() && (chars[*pos].is_alphanumeric() || chars[*pos] == '_') {
                *pos += 1;
            }
            let text: String = chars[start..*pos].iter().collect();
            out.push(Token::Literal { text, span: span(start, *pos) });
        } else if c == '\'' {
            *pos += 1;
            while *pos < chars.len() && (chars[*pos].is_alphanumeric() || chars[*pos] == '_') {
                *pos += 1;
            }
            let text: String = chars[start..*pos].iter().collect();
            out.push(Token::Lifetime { text, span: span(start, *pos) });
        } else {
            *pos += 1;
            out.push(Token::Punct { ch: c, span: span(start, *pos) });
        }
    }
    assert!(close.is_none(), "unclosed group");
    out
}

/// Writes token trees back as text, one space between tokens.
fn render(toks: &[Token]) -> String {
    let mut parts: Vec<String> = Vec::new();
    for t in toks {
        parts.push(match t {
            Token::Ident { text, .. } | Token::Literal { text, .. } | Token::Lifetime { text, .. } => {
                text.clone()
            }
            Token::Punct { ch, .. } => ch.to_string(),
            Token::Group { delimiter, stream, .. } => {
                let (open, close) = match delimiter {
                    Delimiter::Parenthesis => ("(", ")"),
                    Delimiter::Bracket => ("[", "]"),
                    Delimiter::Brace => ("{", "}"),
                };
                let inner = render(stream);
                if inner.is_empty() {
                    format!("{} {}", open, close)
                } else {
                    format!("{} {} {}", open, inner, close)
                }
            }
        });
    }
    parts.join(" ")
}

fn run(src: &str) -> String {
    match seq_expand::expand::seq(&lex(src)) {
        Ok(out) => render(&out),
        Err(d) => panic!("unexpected diagnostic {:?}", d),
    }
}

fn run_err(src: &str) -> Diagnostic {
    match seq_expand::expand::seq(&lex(src)) {
        Ok(out) => panic!("unexpected output {}", render(&out)),
        Err(d) => d,
    }
}

fn placeholder() -> String {
    String::from("N")
}

#[test]
fn scenario_functions_per_index() {
    let out = seq_expand::expand::seq(&lex("N in 0..3 { fn f#N() -> Int { N } }")).unwrap();
    assert_eq!(
        render(&out),
        "fn f0 ( ) - > Int { 0 } fn f1 ( ) - > Int { 1 } fn f2 ( ) - > Int { 2 }"
    );
    assert!(matches!(&out[1], Token::Ident { text, .. } if text == "f0"));
    match &out[6] {
        Token::Group { stream, .. } => {
            assert!(matches!(&stream[0], Token::Literal { text, .. } if text == "0"))
        }
        other => panic!("expected a group, got {:?}", other),
    }
}

#[test]
fn scenario_inclusive_range() {
    assert_eq!(run("N in 0..=2 { item#N , }"), "item0 , item1 , item2 ,");
}

#[test]
fn scenario_marker_inside_brackets() {
    assert_eq!(
        run("N in 0..4 { const LUT = [ #( N * 2 , )* ]; }"),
        "const LUT = [ 0 * 2 , 1 * 2 , 2 * 2 , 3 * 2 , ] ;"
    );
}

#[test]
fn separator_between_group_and_star_is_no_marker() {
    assert_eq!(
        run("N in 0..2 { [ #( N * 2 ),* ] }"),
        "[ # ( 0 * 2 ) , * ] [ # ( 1 * 2 ) , * ]"
    );
}

#[test]
fn scenario_empty_range() {
    let out = seq_expand::expand::seq(&lex("N in 5..5 { x#N : Int , }")).unwrap();
    assert!(out.is_empty());
}

#[test]
fn scenario_missing_in() {
    let d = run_err("N 0..3 { x }");
    assert_eq!(d.kind, ErrorKind::ExpectedIn);
    assert_eq!(d.index, 1);
    assert_eq!(d.span, Some(span(2, 3)));
    assert_eq!(d.message(), "expected `in`");
}

#[test]
fn reversed_range_is_empty_not_an_error() {
    assert_eq!(run("N in 3..1 { x N }"), "");
}

#[test]
fn reversed_range_with_marker_keeps_the_rest() {
    assert_eq!(run("N in 3..1 { a #( N )* b }"), "a b");
}

#[test]
fn negative_bounds() {
    let out = seq_expand::expand::seq(&lex("N in -2..1 { N }")).unwrap();
    assert_eq!(render(&out), "-2 -1 0");
    assert!(out.iter().all(|t| matches!(t, Token::Literal { .. })));
}

#[test]
fn spaced_negative_bound() {
    assert_eq!(run("N in - 1..=1 { N }"), "-1 0 1");
}

#[test]
fn smallest_index() {
    assert_eq!(
        run("N in -9223372036854775808..-9223372036854775807 { v#N N }"),
        "v-9223372036854775808 -9223372036854775808"
    );
}

#[test]
fn literal_forms_of_bounds() {
    assert_eq!(run("N in 0x2..0b101 { N }"), "2 3 4");
    assert_eq!(run("N in 1_0..12u8 { N }"), "10 11");
}

#[test]
fn concatenation_makes_one_identifier() {
    let body = lex("foo#N");
    let out = substitute(&body, 3, &placeholder());
    assert_eq!(out.len(), 1);
    match &out[0] {
        Token::Ident { text, span: s } => {
            assert_eq!(text, "foo3");
            assert_eq!(*s, span(0, 3));
        }
        other => panic!("expected one identifier, got {:?}", other),
    }
}

#[test]
fn spaced_concatenation_is_not_joined() {
    let out = substitute(&lex("foo # N"), 3, &placeholder());
    assert_eq!(render(&out), "foo # 3");
    assert!(matches!(&out[0], Token::Ident { text, .. } if text == "foo"));
    assert!(matches!(&out[2], Token::Literal { text, .. } if text == "3"));
}

#[test]
fn concatenation_needs_the_placeholder() {
    let out = substitute(&lex("foo#M"), 3, &placeholder());
    assert_eq!(render(&out), "foo # M");
}

#[test]
fn placeholder_after_concatenation_prefix() {
    let out = substitute(&lex("N#N N"), 7, &placeholder());
    assert_eq!(render(&out), "N7 7");
    assert!(matches!(&out[0], Token::Ident { .. }));
    assert!(matches!(&out[1], Token::Literal { .. }));
}

#[test]
fn bare_placeholder_becomes_literal() {
    let out = substitute(&lex("N"), 12, &placeholder());
    assert_eq!(out.len(), 1);
    match &out[0] {
        Token::Literal { text, span: s } => {
            assert_eq!(text, "12");
            assert_eq!(*s, span(0, 1));
        }
        other => panic!("expected a literal, got {:?}", other),
    }
}

#[test]
fn substitution_reaches_nested_groups() {
    let out = substitute(&lex("a ( [ N ] { x#N } ) 'b"), 4, &placeholder());
    assert_eq!(render(&out), "a ( [ 4 ] { x4 } ) 'b");
}

#[test]
fn nested_marker_expands_in_place() {
    assert_eq!(run("N in 0..2 { a { b #( N )* c } d }"), "a { b 0 1 c } d");
}

#[test]
fn only_first_marker_expands() {
    assert_eq!(run("N in 0..2 { #( a N )* #( b N )* }"), "a 0 a 1 # ( b N ) *");
}

#[test]
fn first_marker_in_depth_first_order() {
    assert_eq!(run("N in 1..3 { ( #( x )* ) #( y )* }"), "( x x ) # ( y ) *");
}

#[test]
fn marker_with_empty_range_leaves_nothing_at_its_site() {
    assert_eq!(run("N in 0..0 { [ #( N )* ] ; }"), "[ ] ;");
}

#[test]
fn near_marker_falls_back_to_whole_body() {
    assert_eq!(run("N in 0..2 { #( N ) }"), "# ( 0 ) # ( 1 )");
}

#[test]
fn marker_tokens_outside_stay_unsubstituted() {
    assert_eq!(run("N in 0..2 { N #( N )* N }"), "N 0 1 N");
}

#[test]
fn locate_reports_absence() {
    let body = lex("a ( b ) [ # ( c ) ]");
    let (out, found) = locate_and_expand(&body, 0, 3, &placeholder());
    assert!(!found);
    assert_eq!(render(&out), "a ( b ) [ # ( c ) ]");
}

#[test]
fn repeat_in_increasing_order() {
    let out = repeat_substitute(&lex("x#N ;"), 2, 5, &placeholder());
    assert_eq!(render(&out), "x2 ; x3 ; x4 ;");
    assert!(repeat_substitute(&lex("x"), 5, 2, &placeholder()).is_empty());
}

#[test]
fn whole_body_length() {
    let out = seq_expand::expand::seq(&lex("N in 2..6 { a N ( N ) ; }")).unwrap();
    assert_eq!(out.len(), 4 * 4);
}

#[test]
fn expansion_is_deterministic() {
    let src = "N in 0..3 { fn f#N() { [ #( N , )* ] } }";
    let first = render(&seq_expand::expand::seq(&lex(src)).unwrap());
    let second = render(&seq_expand::expand::seq(&lex(src)).unwrap());
    assert_eq!(first, second);
    assert_eq!(first, "fn f # N ( ) { [ 0 , 1 , 2 , ] }");
}

#[test]
fn parse_normalizes_inclusive_end() {
    let inv = Invocation::parse(&lex("i in 3..=7 { i }")).unwrap();
    assert_eq!(inv.placeholder, "i");
    assert_eq!(inv.start, 3);
    assert_eq!(inv.end, 8);
    assert_eq!(render(&inv.body), "i");
    assert_eq!(render(&expand(&inv)), "3 4 5 6 7");
}

#[test]
fn parse_exclusive_end() {
    let inv = Invocation::parse(&lex("i in 3..7 {}")).unwrap();
    assert_eq!((inv.start, inv.end), (3, 7));
    assert!(inv.body.is_empty());
}

#[test]
fn spaced_equals_still_inclusive() {
    assert_eq!(run("N in 0.. =1 { N }"), "0 1");
}

#[test]
fn error_placeholder_not_identifier() {
    let d = run_err("5 in 0..3 { }");
    assert_eq!((d.kind, d.index), (ErrorKind::ExpectedIdent, 0));
    assert_eq!(d.message(), "expected identifier");
}

#[test]
fn error_placeholder_is_keyword() {
    let d = run_err("in in 0..3 { }");
    assert_eq!((d.kind, d.index), (ErrorKind::ExpectedIdent, 0));
    let d = run_err("_ in 0..3 { }");
    assert_eq!((d.kind, d.index), (ErrorKind::ExpectedIdent, 0));
}

#[test]
fn error_empty_input() {
    let d = run_err("");
    assert_eq!((d.kind, d.index, d.span), (ErrorKind::ExpectedIdent, 0, None));
}

#[test]
fn error_bound_not_integer() {
    let d = run_err("N in x..3 { }");
    assert_eq!((d.kind, d.index), (ErrorKind::ExpectedInteger, 2));
    assert_eq!(d.message(), "expected integer literal");
    let d = run_err("N in 0..y { }");
    assert_eq!((d.kind, d.index), (ErrorKind::ExpectedInteger, 5));
}

#[test]
fn error_bound_too_large() {
    let d = run_err("N in 0..9223372036854775808 { }");
    assert_eq!((d.kind, d.index), (ErrorKind::ExpectedInteger, 5));
}

#[test]
fn error_missing_dot_dot() {
    let d = run_err("N in 0 3 { }");
    assert_eq!((d.kind, d.index), (ErrorKind::ExpectedDotDot, 3));
    assert_eq!(d.span, Some(span(7, 8)));
    assert_eq!(d.message(), "expected `..`");
}

#[test]
fn error_spaced_dots() {
    let d = run_err("N in 0. .3 { }");
    assert_eq!((d.kind, d.index), (ErrorKind::ExpectedDotDot, 3));
}

#[test]
fn error_missing_braces() {
    let d = run_err("N in 0..3 ( x )");
    assert_eq!((d.kind, d.index), (ErrorKind::ExpectedBraces, 6));
    assert_eq!(d.message(), "expected curly braces");
}

#[test]
fn error_end_of_input() {
    let d = run_err("N in 0..3");
    assert_eq!((d.kind, d.index, d.span), (ErrorKind::ExpectedBraces, 6, None));
    let d = run_err("N in");
    assert_eq!((d.kind, d.index, d.span), (ErrorKind::ExpectedInteger, 2, None));
}

#[test]
fn error_trailing_token() {
    let d = run_err("N in 0..3 { x } y");
    assert_eq!((d.kind, d.index), (ErrorKind::UnexpectedToken, 7));
    assert_eq!(d.message(), "unexpected token");
}

#[test]
fn largest_inclusive_end() {
    assert_eq!(
        run("N in 9223372036854775806..=9223372036854775807 { x#N }"),
        "x9223372036854775806 x9223372036854775807"
    );
    let inv = Invocation::parse(&lex("N in 0..=9223372036854775807 { }")).unwrap();
    assert_eq!(inv.end, 9223372036854775808i128);
}

#[test]
fn largest_exclusive_end() {
    assert_eq!(run("N in 9223372036854775806..9223372036854775807 { N }"), "9223372036854775806");
}

#[test]
fn decimal_text() {
    assert_eq!(decimal_string(0), "0");
    assert_eq!(decimal_string(907), "907");
    assert_eq!(decimal_string(-45), "-45");
    assert_eq!(decimal_string(i64::MAX), "9223372036854775807");
    assert_eq!(decimal_string(i64::MIN), "-9223372036854775808");
}

#[test]
fn parse_given_normalizes_inclusive_end() {
    let toks = lex("N in 0..=2 { x }");
    let inv = Invocation::parse_given(&toks, true, Some(0), Some(2)).unwrap();
    assert_eq!((inv.start, inv.end), (0, 3));
    assert_eq!(inv.placeholder, "N");
    assert_eq!(render(&inv.body), "x");
}

#[test]
fn parse_given_takes_the_values_it_is_given() {
    let toks = lex("N in 0..2 { x }");
    let inv = Invocation::parse_given(&toks, true, Some(-4), Some(9)).unwrap();
    assert_eq!((inv.start, inv.end), (-4, 9));
}

#[test]
fn parse_given_errors_follow_the_given_verdicts() {
    let toks = lex("N in 0..2 { x }");
    let d = Invocation::parse_given(&toks, false, Some(0), Some(2)).unwrap_err();
    assert_eq!((d.kind, d.index, d.span), (ErrorKind::ExpectedIdent, 0, Some(span(0, 1))));
    let d = Invocation::parse_given(&toks, true, None, Some(2)).unwrap_err();
    assert_eq!((d.kind, d.index, d.span), (ErrorKind::ExpectedInteger, 2, Some(span(5, 6))));
    let d = Invocation::parse_given(&toks, true, Some(0), None).unwrap_err();
    assert_eq!((d.kind, d.index, d.span), (ErrorKind::ExpectedInteger, 5, Some(span(8, 9))));
    let d = Invocation::parse_given(&lex("N in 0..2 ( )"), true, Some(0), Some(2)).unwrap_err();
    assert_eq!((d.kind, d.index), (ErrorKind::ExpectedBraces, 6));
}

#[test]
fn c_string_bound_is_rejected() {
    let mut toks = lex("N in 0..3 { }");
    toks[2] = Token::Literal { text: String::from("c\"x\""), span: span(5, 9) };
    let d = seq_expand::expand::seq(&toks).unwrap_err();
    assert_eq!((d.kind, d.index), (ErrorKind::ExpectedInteger, 2));
    let mut toks = lex("N in 0..3 { }");
    toks[5] = Token::Literal { text: String::from("cr\"x\""), span: span(8, 9) };
    let d = seq_expand::expand::seq(&toks).unwrap_err();
    assert_eq!((d.kind, d.index), (ErrorKind::ExpectedInteger, 5));
}

#[test]
fn bound_with_bad_digit_is_rejected() {
    let d = run_err("N in 0b2..3 { }");
    assert_eq!((d.kind, d.index), (ErrorKind::ExpectedInteger, 2));
    let d = run_err("N in 1e5..3 { }");
    assert_eq!((d.kind, d.index), (ErrorKind::ExpectedInteger, 2));
}

#[test]
fn string_bound_is_rejected() {
    let mut toks = lex("N in 0..3 { }");
    toks[2] = Token::Literal { text: String::from("\"3\""), span: span(5, 8) };
    let d = seq_expand::expand::seq(&toks).unwrap_err();
    assert_eq!((d.kind, d.index), (ErrorKind::ExpectedInteger, 2));
}
