//! Snapshot-style checks over a small inline corpus: syntactically valid
//! inputs produce no diagnostics, invalid ones produce at least one, and
//! the dumps have the expected shape.

use lossless_parser::render::{lex, parse, parse_with};
use lossless_parser::parser::TopEntryPoint;

fn ok_sources() -> Vec<&'static str> {
    vec![
        "",
        "fn main ( ) { }",
        "fn main ( ) { let x = 1 ; x + 2 }",
        "fn a ( ) { \"s\" ; } fn b ( ) { ( 1 + 2 ) * 3 }",
        "// leading comment\nfn main ( ) { /* body */ 1 }",
    ]
}

fn err_sources() -> Vec<&'static str> {
    vec![
        "fn",
        "fn main ( ) { let = 1 ; }",
        "fn main ( ) { ( 1 + ; }",
        "+ -",
        "\"unterminated",
        "@",
    ]
}

#[test]
fn lex_ok() {
    for src in ok_sources() {
        let dump = lex(src);
        assert!(!dump.contains(" error: "), "lex errors in an OK source {:?}:\n{}", src, dump);
    }
    assert_eq!(lex("fn"), "FnKw \"fn\"\n");
    assert_eq!(
        lex("1 + 2"),
        "IntNumber \"1\"\nWhitespace \" \"\nPlus \"+\"\nWhitespace \" \"\nIntNumber \"2\"\n"
    );
    assert_eq!(lex("// hi"), "LineComment \"// hi\"\n");
    assert_eq!(lex("let x"), "LetKw \"let\"\nWhitespace \" \"\nIdent \"x\"\n");
    assert_eq!(lex("/* a */"), "BlockComment \"/* a */\"\n");
    assert_eq!(lex("\"a b\""), "Str \"\\\"a b\\\"\"\n");
}

#[test]
fn lex_err() {
    assert_eq!(lex("@"), "ErrorTok \"@\" error: unknown character\n");
    assert_eq!(
        lex("123abc"),
        "IntNumber \"123abc\" error: invalid number literal\n"
    );
    assert_eq!(
        lex("/* x"),
        "BlockComment \"/* x\" error: unterminated block comment\n"
    );
    assert_eq!(
        lex("\"abc"),
        "Str \"\\\"abc\" error: unterminated string\n"
    );
}

#[test]
fn parse_ok() {
    for src in ok_sources() {
        let (dump, errors) = parse(src);
        assert!(!errors, "errors in an OK source {:?}:\n{}", src, dump);
        assert!(dump.starts_with("SourceFile\n"));
    }
}

#[test]
fn parse_inline_ok() {
    let cases: Vec<(TopEntryPoint, &str)> = vec![
        (TopEntryPoint::Expr, "1 + 2 * 3"),
        (TopEntryPoint::Expr, "( a + \"s\" )"),
        (TopEntryPoint::Type, "& ( T )"),
        (TopEntryPoint::Block, "{ let x = 1 ; x }"),
        (TopEntryPoint::Pattern, "_"),
    ];
    for (entry, src) in cases {
        let (dump, errors) = parse_with(entry, src);
        assert!(!errors, "errors in an OK fragment {:?}:\n{}", src, dump);
    }
}

#[test]
fn parse_err() {
    for src in err_sources() {
        let (dump, errors) = parse(src);
        assert!(errors, "no errors in an ERR source {:?}:\n{}", src, dump);
    }
}

#[test]
fn parse_inline_err() {
    let cases: Vec<(TopEntryPoint, &str)> = vec![
        (TopEntryPoint::Expr, "1 + "),
        (TopEntryPoint::Expr, "( 1"),
        (TopEntryPoint::Type, "&"),
        (TopEntryPoint::Block, "{ 1"),
        (TopEntryPoint::Pattern, "1"),
        (TopEntryPoint::Expr, "1 2"),
    ];
    for (entry, src) in cases {
        let (dump, errors) = parse_with(entry, src);
        assert!(errors, "no errors in an ERR fragment {:?}:\n{}", src, dump);
    }
}
