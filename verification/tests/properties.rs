//! Instances of the library's general guarantees on concrete inputs:
//! lossless coverage, tree well-formedness, totality over all entry
//! points, and determinism of reconciliation.

use lossless_parser::lexed::LexedStr;
use lossless_parser::parser::TopEntryPoint;
use lossless_parser::reconcile::{reconcile, RecStep};
use lossless_parser::events::Event;

fn sample_inputs() -> Vec<&'static str> {
    vec![
        "",
        " ",
        "fn main ( ) { let x = 1 ; x + 2 }",
        "// only a comment",
        "/* unterminated",
        "\"open string",
        "12ab @ # fn",
        "( 1 + ",
        "let x = \"a\\\"b\" ;",
        "+ - * / = ; , : & ( ) { }",
        "é λ 1",
    ]
}

fn entries() -> Vec<TopEntryPoint> {
    vec![
        TopEntryPoint::SourceFile,
        TopEntryPoint::Expr,
        TopEntryPoint::Type,
        TopEntryPoint::Block,
        TopEntryPoint::Pattern,
    ]
}

#[test]
fn lexer_coverage_reconstructs_input() {
    for src in sample_inputs() {
        let lexed = LexedStr::new(src);
        let mut rebuilt = String::new();
        for i in 0..lexed.len() {
            let piece: String = lexed.text(i).into_iter().collect();
            rebuilt.push_str(&piece);
        }
        assert_eq!(rebuilt, src, "token texts must tile the input");
    }
}

#[test]
fn reconciled_coverage_reconstructs_input() {
    for src in sample_inputs() {
        for entry in entries() {
            let lexed = LexedStr::new(src);
            let kinds = lexed.to_input();
            let events = entry.parse(kinds);
            let steps = reconcile(&events, &lexed);
            let chars: Vec<char> = src.chars().collect();
            let mut rebuilt = String::new();
            for step in &steps {
                if let RecStep::Token { start, end, .. } = step {
                    let piece: String = chars[*start..*end].iter().collect();
                    rebuilt.push_str(&piece);
                }
            }
            assert_eq!(rebuilt, src, "reconciled token texts must tile the input");
        }
    }
}

#[test]
fn events_are_well_nested() {
    for src in sample_inputs() {
        for entry in entries() {
            let lexed = LexedStr::new(src);
            let kinds = lexed.to_input();
            let expected_tokens = kinds.len();
            let events = entry.parse(kinds);
            let mut depth: i64 = 0;
            let mut tokens: usize = 0;
            for (i, e) in events.iter().enumerate() {
                match e {
                    Event::Enter { .. } => depth += 1,
                    Event::Exit => {
                        depth -= 1;
                        assert!(depth >= 0, "stack depth went negative");
                        if i + 1 < events.len() {
                            assert!(depth >= 1, "root closed before the end");
                        }
                    }
                    Event::Token => {
                        assert!(depth >= 1, "token outside any open node");
                        tokens += 1;
                    }
                    Event::Error { .. } => {}
                }
            }
            assert_eq!(depth, 0, "unbalanced tree");
            assert_eq!(tokens, expected_tokens, "input not fully consumed");
        }
    }
}

#[test]
fn totality_over_all_entry_points() {
    for src in sample_inputs() {
        for entry in entries() {
            let lexed = LexedStr::new(src);
            let kinds = lexed.to_input();
            let events = entry.parse(kinds);
            assert!(events.len() >= 2, "root enter and exit are always present");
            assert!(matches!(events[0], Event::Enter { .. }));
            assert!(matches!(events[events.len() - 1], Event::Exit));
        }
    }
}

#[test]
fn reconciliation_is_deterministic() {
    for src in sample_inputs() {
        let lexed = LexedStr::new(src);
        let kinds = lexed.to_input();
        let events = TopEntryPoint::SourceFile.parse(kinds);
        let once = reconcile(&events, &lexed);
        let twice = reconcile(&events, &lexed);
        assert_eq!(once, twice, "same inputs must give identical output");
    }
}

#[test]
fn token_stream_view_offsets() {
    let lexed = LexedStr::new("fn x");
    assert_eq!(lexed.len(), 3);
    assert_eq!(lexed.text_start(0), 0);
    assert_eq!(lexed.text_start(1), 2);
    assert_eq!(lexed.text_start(2), 3);
    assert_eq!(lexed.text_start(3), 4);
    assert!(lexed.error(0).is_none());
}
