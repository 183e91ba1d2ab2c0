//! Concrete end-to-end scenarios: exact dumps for small inputs, error
//! positions, recovery behaviour, and the ordering of merged diagnostics.

use lossless_parser::render::{lex, parse, parse_with};
use lossless_parser::parser::TopEntryPoint;

#[test]
fn empty_input_yields_root_only() {
    assert_eq!(lex(""), "");
    let (dump, errors) = parse("");
    assert_eq!(dump, "SourceFile\n");
    assert!(!errors);
}

#[test]
fn comment_only_is_reinserted_inside_root() {
    let (dump, errors) = parse("// hi");
    assert_eq!(dump, "SourceFile\n  LineComment \"// hi\"\n");
    assert!(!errors);
}

#[test]
fn unterminated_string_still_completes() {
    let (dump, errors) = parse("\"abc");
    assert!(errors);
    assert!(dump.contains("error 0: unterminated string\n"));
    // the parse still covers the token and closes the tree
    assert!(dump.starts_with("SourceFile\n"));
}

#[test]
fn expr_entry_error_right_after_operator() {
    let (dump, errors) = parse_with(TopEntryPoint::Expr, "1 + ");
    assert!(errors);
    let expected_tree = "ExprFragment\n  Expr\n    Literal\n      IntNumber \"1\"\n    \
        Whitespace \" \"\n    Plus \"+\"\n  Whitespace \" \"\n";
    assert_eq!(dump, format!("{}error 4: expected an expression\n", expected_tree));
}

#[test]
fn two_malformed_constructs_give_two_errors() {
    let (dump, errors) = parse("+ -");
    assert!(errors);
    assert!(dump.contains("error 0: expected an item\n"));
    assert!(dump.contains("error 2: expected an item\n"));
    // recovery wraps each offending token and parsing continues
    let wrapped: usize = dump.matches("ErrorNode").count();
    assert_eq!(wrapped, 2);
}

#[test]
fn recovery_continues_after_bad_item() {
    // a malformed construct followed by a healthy sibling
    let (dump, errors) = parse("; fn main ( ) { }");
    assert!(errors);
    assert!(dump.contains("FnItem"));
    assert!(dump.contains("error 0: expected an item\n"));
}

#[test]
fn lexical_error_precedes_syntactic_error_on_same_offset() {
    // `@` at offset 0 carries a lexical error, and the parser reports an
    // expected item at the same offset: the lexical one comes first
    let (dump, _) = parse("@");
    let lex_pos: usize = dump.find("error 0: unknown character\n").unwrap();
    let syn_pos: usize = dump.find("error 0: expected an item\n").unwrap();
    assert!(lex_pos < syn_pos);
}

#[test]
fn errors_positions_are_monotone() {
    let (dump, errors) = parse("@ fn ( ) { } #");
    assert!(errors);
    let mut last: i64 = -1;
    for line in dump.lines() {
        if let Some(rest) = line.strip_prefix("error ") {
            let num: i64 = rest.split(':').next().unwrap().parse().unwrap();
            assert!(num >= last);
            last = num;
        }
    }
    assert!(last >= 0);
}

#[test]
fn escaped_characters_in_dump() {
    assert_eq!(lex("\t"), "Whitespace \"\\t\"\n");
    assert_eq!(lex("\n"), "Whitespace \"\\n\"\n");
    assert_eq!(lex("\"a\\\"b\""), "Str \"\\\"a\\\\\\\"b\\\"\"\n");
}

#[test]
fn keywords_and_numbers_lex_with_maximal_munch() {
    // a run of digits followed by letters is one invalid number, not two
    // tokens
    let dump = lex("12ab");
    assert_eq!(dump.lines().count(), 1);
    assert!(dump.contains("invalid number literal"));
    // identifier prefixes of keywords stay identifiers
    assert_eq!(lex("fnx"), "Ident \"fnx\"\n");
    assert_eq!(lex("lets"), "Ident \"lets\"\n");
}

#[test]
fn offsets_count_characters_not_bytes() {
    // a two-byte character is one unknown-character token of length one,
    // and the following error position counts characters
    assert_eq!(lex("é"), "ErrorTok \"é\" error: unknown character\n");
    let (dump, errors) = parse("é @");
    assert!(errors);
    assert!(dump.contains("error 0: unknown character\n"));
    assert!(dump.contains("error 2: unknown character\n"));
}

#[test]
fn whitespace_runs_coalesce() {
    assert_eq!(lex("  \t "), "Whitespace \"  \\t \"\n");
}

#[test]
fn trailing_trivia_stays_inside_root() {
    let (dump, errors) = parse("fn main ( ) { } // tail");
    assert!(!errors);
    // the tail comment is the last emitted token line, indented under the
    // root, after the item
    let lines: Vec<&str> = dump.lines().collect();
    assert_eq!(lines[lines.len() - 1], "  LineComment \"// tail\"");
}

#[test]
fn missing_name_reports_position_past_keyword() {
    let (dump, errors) = parse("fn");
    assert!(errors);
    assert!(dump.contains("error 2: expected an identifier\n"));
}

#[test]
fn every_syntax_error_variant_is_reachable() {
    let cases: Vec<(TopEntryPoint, &str, &str)> = vec![
        (TopEntryPoint::SourceFile, "+", "expected an item"),
        (TopEntryPoint::Expr, "", "expected an expression"),
        (TopEntryPoint::Type, "", "expected a type"),
        (TopEntryPoint::Pattern, "", "expected a pattern"),
        (TopEntryPoint::SourceFile, "fn ( )", "expected an identifier"),
        (TopEntryPoint::SourceFile, "fn f { }", "expected an opening paren"),
        (TopEntryPoint::SourceFile, "fn f ( { }", "expected a closing paren"),
        (TopEntryPoint::SourceFile, "fn f ( )", "expected an opening brace"),
        (TopEntryPoint::SourceFile, "fn f ( ) {", "expected a closing brace"),
        (TopEntryPoint::SourceFile, "fn f ( ) { let x 1 ; }", "expected an equals sign"),
        (TopEntryPoint::SourceFile, "fn f ( ) { let x = 1 }", "expected a semicolon"),
        (TopEntryPoint::Expr, "1 2", "unexpected trailing input"),
    ];
    for (entry, src, message) in cases {
        let (dump, errors) = parse_with(entry, src);
        assert!(errors, "expected errors for {:?}", src);
        assert!(
            dump.contains(message),
            "missing {:?} in dump for {:?}:\n{}",
            message,
            src,
            dump
        );
    }
}

#[test]
fn error_positions_point_at_offending_offset() {
    // the unknown character sits at offset 2
    let dump = lex("a @");
    assert!(dump.contains("error: unknown character"));
    let (pdump, errors) = parse("a @");
    assert!(errors);
    assert!(pdump.contains("error 2: unknown character\n"));
}
