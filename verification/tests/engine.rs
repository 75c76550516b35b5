use belay::engine::finding::fails_on;
use belay::engine::finding::Severity;
use belay::engine::prompt::{assemble_pass1, frozen_prefix, judgment_span, rubric_for};
use belay::report::summary::summary;
use belay::engine::slash::{graph_report, parse_slash, SlashCommand};
use belay::engine::tools::{grep, run_tool, ToolRequest, ToolResult};
use belay::index::source::SourceFile;
use belay::index::span::{LineTable, Span};
use belay::index::symbol::{number_symbols, SymbolDraft, SymbolKind};
use belay::index::resolve::NameIndex;
use belay::index::graph::CsrGraph;
use belay::index::scc::condense;
use belay::index::labels::ReachLabels;

#[test]
fn prefix_is_versioned_and_stable() {
    assert!(frozen_prefix("v3").contains("Rubric version: v3"));
    assert_eq!(frozen_prefix("v3"), frozen_prefix("v3"));
}

#[test]
fn assembly_contains_all_parts() {
    let p = frozen_prefix("v3");
    let prompt = assemble_pass1(&p, "panic-on-input", "fn f(){ x.unwrap(); }");
    assert!(prompt.contains("belay"));
    assert!(prompt.contains("panic-on-input"));
    assert!(prompt.contains("x.unwrap()"));
}

#[test]
fn rubric_falls_back_for_unknown_class() {
    assert!(rubric_for("tenant-isolation").starts_with("tenant-isolation: a cache key"));
    assert!(rubric_for("injection").starts_with("injection: report only if"));
    let p = assemble_pass1("P", "x", "BODY");
    assert_eq!(p, format!("P\n{}\n\nSource:\n```\nBODY\n```\n", rubric_for("x")));
}

#[test]
fn judgment_span_brace_order() {
    let s = r#"some text {"verdict":"vuln","p":0.93,"note":"ok"} trailing"#;
    let (a, b) = judgment_span(s).unwrap();
    assert_eq!(&s[a..b], r#"{"verdict":"vuln","p":0.93,"note":"ok"}"#);
    assert!(judgment_span(r#"} trailing {"verdict":"vuln""#).is_none());
    assert!(judgment_span("no braces").is_none());
}

#[test]
fn severity_labels() {
    assert_eq!(Severity::Critical.as_str(), "critical");
    assert_eq!(Severity::Info.as_str(), "info");
    assert_eq!(Severity::High.sarif_level(), "error");
    assert_eq!(Severity::Medium.sarif_level(), "warning");
    assert_eq!(Severity::Low.sarif_level(), "note");
}

#[test]
fn summary_counts_severities() {
    let s = summary(&[Severity::High]);
    assert_eq!(s.high, 1);
    assert_eq!(s.total, 1);
}

#[test]
fn summary_counts_add_up() {
    let s = summary(&[Severity::Low, Severity::Low, Severity::Critical, Severity::Info]);
    assert_eq!((s.total, s.critical, s.high, s.medium, s.low, s.info), (4, 1, 0, 0, 2, 1));
}

fn source(id: u32, rel: &str, bytes: &[u8]) -> SourceFile {
    SourceFile {
        id,
        path: std::path::PathBuf::from(format!("/ws/{rel}")),
        rel_path: rel.to_string(),
        bytes: bytes.to_vec(),
        line_table: LineTable::from_bytes(bytes),
    }
}

#[test]
fn grep_reports_matching_lines_as_str_lines_cuts_them() {
    let files = vec![
        source(0, "a.rs", b"let foo = 1;\r\nbar();\nfoo\n"),
        source(1, "b.rs", b"\xff foo\n"),
        source(2, "c.rs", b"x\n\nfoo"),
    ];
    assert_eq!(grep(&files, "foo"), vec![(0, 1), (0, 3), (2, 3)]);
    assert_eq!(grep(&files, "1;\r"), vec![]);
    assert_eq!(grep(&files, ""), vec![(0, 1), (0, 2), (0, 3), (2, 1), (2, 2), (2, 3)]);
}

#[test]
fn run_tool_answers_each_tool_from_the_index() {
    let mut rodeo = lasso::Rodeo::default();
    let files = vec![source(0, "src/lib.rs", b"fn main() { helper(); }\nfn helper() {}\n")];
    let drafts = vec![
        SymbolDraft {
            name: rodeo.get_or_intern("main"),
            qual: rodeo.get_or_intern("lib::main"),
            kind: SymbolKind::Fn,
            file: 0,
            span: Span::new(0, 0, 23),
            name_span: Span::new(0, 3, 7),
            entry_reason: Some("main".to_string()),
        },
        SymbolDraft {
            name: rodeo.get_or_intern("helper"),
            qual: rodeo.get_or_intern("lib::helper"),
            kind: SymbolKind::Fn,
            file: 0,
            span: Span::new(0, 24, 38),
            name_span: Span::new(0, 27, 33),
            entry_reason: None,
        },
    ];
    let symbols = number_symbols(&drafts);
    let names: Vec<_> = symbols.iter().map(|s| s.name).collect();
    let quals: Vec<_> = symbols.iter().map(|s| s.qual).collect();
    let idx = NameIndex::build(&names, &quals);
    let graph = CsrGraph::from_edges(2, vec![(0, 1)]);
    let cond = condense(&graph);
    let labels = ReachLabels::build(&cond.dag, 1024);
    let mut key = |s: &str| rodeo.get_or_intern(s);
    let (helper, main) = (key("helper"), key("main"));
    let run = |req: ToolRequest| run_tool(&files, &idx, &symbols, &graph, &cond, &labels, &req);

    match run(ToolRequest::ReadSpan { path: "src/lib.rs".to_string(), start: 3, end: 7 }) {
        ToolResult::Text(t) => assert_eq!(t, "main"),
        _ => panic!("expected text"),
    }
    assert!(matches!(run(ToolRequest::ReadSpan { path: "nope.rs".to_string(), start: 0, end: 1 }), ToolResult::FileNotFound));
    assert!(matches!(run(ToolRequest::DefinitionOf { qual: helper, last: helper }), ToolResult::Definition(1)));
    match run(ToolRequest::CallersOf { qual: helper, last: helper }) {
        ToolResult::Callers(c) => assert_eq!(c, vec![0]),
        _ => panic!("expected callers"),
    }
    match run(ToolRequest::Reaches { from_qual: main, from_last: main, to_qual: helper, to_last: helper }) {
        ToolResult::Reach { reaches, witness } => {
            assert!(reaches);
            assert_eq!(witness, vec![0, 1]);
        }
        _ => panic!("expected reach"),
    }
    match run(ToolRequest::Reaches { from_qual: helper, from_last: helper, to_qual: main, to_last: main }) {
        ToolResult::Reach { reaches, witness } => {
            assert!(!reaches);
            assert!(witness.is_empty());
        }
        _ => panic!("expected reach"),
    }
    match run(ToolRequest::Grep { pattern: "helper".to_string() }) {
        ToolResult::Hits(h) => assert_eq!(h, vec![(0, 1), (0, 2)]),
        _ => panic!("expected hits"),
    }
    assert!(matches!(run(ToolRequest::Unknown), ToolResult::UnknownTool));
}

#[test]
fn parse_slash_reads_the_command_word_and_its_argument() {
    assert!(matches!(parse_slash("/quit"), SlashCommand::Quit));
    assert!(matches!(parse_slash("/q"), SlashCommand::Quit));
    assert!(matches!(parse_slash("  hello"), SlashCommand::Chat));
    assert!(matches!(parse_slash(""), SlashCommand::Chat));
    assert!(matches!(parse_slash("/entrypoints extra"), SlashCommand::EntryPoints));
    assert!(matches!(parse_slash("/cost"), SlashCommand::Cost));
    match parse_slash("/graph  app::run now") {
        SlashCommand::Graph { symbol } => assert_eq!(symbol, "app::run"),
        _ => panic!("expected graph"),
    }
    match parse_slash("/graph") {
        SlashCommand::Graph { symbol } => assert_eq!(symbol, ""),
        _ => panic!("expected graph"),
    }
    match parse_slash("/frob x") {
        SlashCommand::Unknown { cmd } => assert_eq!(cmd, "frob"),
        _ => panic!("expected unknown"),
    }
    match parse_slash("/") {
        SlashCommand::Unknown { cmd } => assert_eq!(cmd, ""),
        _ => panic!("expected unknown"),
    }
}

#[test]
fn graph_report_lists_neighbours_and_reaching_entries() {
    let mut rodeo = lasso::Rodeo::default();
    let mk = |rodeo: &mut lasso::Rodeo, name: &str| SymbolDraft {
        name: rodeo.get_or_intern(name),
        qual: rodeo.get_or_intern(format!("app::{name}")),
        kind: SymbolKind::Fn,
        file: 0,
        span: Span::new(0, 0, 0),
        name_span: Span::new(0, 0, 0),
        entry_reason: None,
    };
    let drafts = vec![mk(&mut rodeo, "main"), mk(&mut rodeo, "serve"), mk(&mut rodeo, "db"), mk(&mut rodeo, "cli")];
    let symbols = number_symbols(&drafts);
    let names: Vec<_> = symbols.iter().map(|s| s.name).collect();
    let quals: Vec<_> = symbols.iter().map(|s| s.qual).collect();
    let idx = NameIndex::build(&names, &quals);
    let graph = CsrGraph::from_edges(4, vec![(0, 1), (1, 2), (3, 2)]);
    let cond = condense(&graph);
    let labels = ReachLabels::build(&cond.dag, 1024);
    let db = rodeo.get_or_intern("db");
    let r = graph_report(&idx, &symbols, &graph, &cond, &labels, &[0, 3, 1], db, db).unwrap();
    assert_eq!(r.id, 2);
    assert_eq!(r.callers, vec![1, 3]);
    assert!(r.callees.is_empty());
    assert_eq!(r.reached_from, vec![0, 3, 1]);
    let main = rodeo.get_or_intern("main");
    let r = graph_report(&idx, &symbols, &graph, &cond, &labels, &[0, 3], main, main).unwrap();
    assert_eq!(r.callees, vec![1]);
    assert_eq!(r.reached_from, vec![0]);
    let none = rodeo.get_or_intern("none");
    assert!(graph_report(&idx, &symbols, &graph, &cond, &labels, &[0], none, none).is_none());
}

#[test]
fn fails_on_compares_the_worst_finding_with_the_level() {
    let sev = [Severity::Low, Severity::High, Severity::Info];
    assert!(fails_on("high", &sev));
    assert!(fails_on("medium", &sev));
    assert!(!fails_on("critical", &sev));
    assert!(!fails_on("info", &sev));
    assert!(!fails_on("bogus", &sev));
    assert!(!fails_on("low", &[]));
}
