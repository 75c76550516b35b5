use belay::index::graph::CsrGraph;
use belay::index::resolve::resolve_calls;
use belay::index::witness::{bfs_node_path, symbol_reaches, witness_chain};
use belay::index::model::{collect_expr, walk_items, DeclModel, ExprModel, FnModel, ItemModel, StmtModel};
use belay::index::naming::{qual_of, root_module_of, WalkCtx};
use belay::index::resolve::NameIndex;
use belay::index::symbol::{number_symbols, Symbol, SymbolDraft, SymbolKind};
use belay::index::scc::Condensation;
use belay::index::entry::last_segment_of;
use belay::index::reach::{bit_parallel_bfs, intersects};
use belay::index::scc::{condense, tarjan_scc};
use belay::index::labels::ReachLabels;
use belay::index::entry::classify_fn_entry;
use belay::index::span::{LineCol, LineTable, Span};

/// A small deterministic LCG so the property tests are reproducible.
struct Rng(u64);
impl Rng {
    fn new(seed: u64) -> Self {
        Self(seed)
    }
    fn next(&mut self) -> u64 {
        self.0 = self.0.wrapping_mul(6364136223846793005).wrapping_add(1442695040888963407);
        self.0
    }
    fn below(&mut self, n: u64) -> u64 {
        self.next() % n
    }
}

fn build_random_graph(n: u32, edge_denom: u64, seed: u64, add_cycles: bool) -> CsrGraph {
    let mut rng = Rng::new(seed);
    let mut edges: Vec<(u32, u32)> = Vec::new();
    for i in 0..n {
        for j in 0..n {
            if i == j {
                continue;
            }
            if rng.next() % edge_denom == 0 {
                edges.push((i, j));
            }
        }
    }
    if add_cycles {
        for _ in 0..(n / 20).max(1) {
            let a = (rng.next() % n as u64) as u32;
            let b = (rng.next() % n as u64) as u32;
            if a != b {
                edges.push((a, b));
                edges.push((b, a));
            }
        }
    }
    CsrGraph::from_edges(n, edges)
}

#[test]
fn line_table_is_byte_accurate() {
    let src = "fn a() {\n    let x = 1; // c\n    b();\n}\n".as_bytes();
    let lt = LineTable::from_bytes(src);
    assert_eq!(lt.to_byte(LineCol::new(1, 0)), Some(0));
    assert_eq!(lt.to_byte(LineCol::new(1, 7)), Some(7));
    assert_eq!(lt.to_byte(LineCol::new(2, 0)), Some(9));
    assert_eq!(lt.to_byte(LineCol::new(99, 1)), None);
}

#[test]
fn line_table_clamps_column_to_line_end() {
    let lt = LineTable::from_bytes(b"ab\ncd\n");
    assert_eq!(lt.line_starts, vec![0, 3, 6, 6]);
    assert_eq!(lt.to_byte(LineCol::new(1, 10)), Some(3));
    assert_eq!(lt.to_byte(LineCol::new(0, 0)), None);
    let s = lt.to_span(7, LineCol::new(2, 1), LineCol::new(1, 0));
    assert_eq!(s, Span::new(7, 4, 4));
}

#[test]
fn span_basics() {
    let a = Span::new(1, 10, 20);
    assert_eq!(a.len(), 10);
    assert!(!a.is_empty());
    assert!(a.contains(&Span::new(1, 12, 15)));
    assert!(!a.contains(&Span::new(2, 12, 15)));
    let p = Span::point(1, 5);
    assert!(p.is_empty());
    assert_eq!(Span::new(1, 9, 3).len(), 0);
}

#[test]
fn bit_parallel_small_dag() {
    let g = CsrGraph::from_edges(4, vec![(0, 1), (1, 2)]);
    let reach = bit_parallel_bfs(&g, &[0, 1, 2, 3]);
    assert_eq!((reach[2] >> 0) & 1, 1, "0 should reach 2");
    assert_eq!((reach[0] >> 3) & 1, 0, "3 should not reach 0");
    assert_eq!((reach[1] >> 3) & 1, 0, "3 should not reach 1");
    assert_eq!((reach[2] >> 3) & 1, 0, "3 should not reach 2");
}

#[test]
fn bit_parallel_duplicate_sources_keep_both_lanes() {
    // Two lanes start at node 0; both must propagate to node 1.
    let g = CsrGraph::from_edges(2, vec![(0, 1)]);
    let reach = bit_parallel_bfs(&g, &[0, 0]);
    assert_eq!(reach[1] & 0b11, 0b11);
    let none = bit_parallel_bfs(&g, &[]);
    assert_eq!(none, vec![0, 0]);
}

#[test]
fn bit_parallel_matches_single_source() {
    let n = 200;
    let g = build_random_graph(n, 20, 0xBEEF, false);
    let sources: Vec<u32> = (0..n).collect();
    let reach = bit_parallel_bfs(&g, &sources);
    assert_eq!(reach.len(), n as usize);
    for (chunk_idx, chunk) in sources.chunks(64).enumerate() {
        for (local_i, &s) in chunk.iter().enumerate() {
            let single = g.reachable_set(s);
            for w in 0..n {
                let bp = (reach[w as usize] >> local_i) & 1 == 1;
                let ss = single.contains(w as usize);
                assert_eq!(bp, ss, "chunk={chunk_idx} local_i={local_i} source={s} target={w}");
            }
        }
    }
}

#[test]
fn bit_parallel_bfs_matches_per_source() {
    let g = build_random_graph(120, 60, 0xABC, true);
    let cond = condense(&g);
    let dag = &cond.dag;
    let n = dag.node_count();
    let sources: Vec<u32> = (0..n.min(64)).collect();
    let reach = bit_parallel_bfs(dag, &sources);
    for (i, &s) in sources.iter().enumerate() {
        let truth = dag.reachable_set(s);
        for w in 0..n {
            let expected = truth.contains(w as usize);
            let got = (reach[w as usize] >> i) & 1 == 1;
            assert_eq!(got, expected, "src={s} node={w}");
        }
    }
}

#[test]
fn scc_condensation_is_acyclic_and_complete() {
    let g = CsrGraph::from_edges(6, vec![(0, 1), (1, 2), (2, 0), (3, 4), (4, 3), (2, 3), (5, 0)]);
    let cond = condense(&g);
    assert!(cond.is_acyclic());
    assert_eq!(cond.scc_count, 3);
    assert_eq!(cond.scc_of(0), cond.scc_of(1));
    assert_eq!(cond.scc_of(1), cond.scc_of(2));
    assert_eq!(cond.scc_of(3), cond.scc_of(4));
    assert_ne!(cond.scc_of(0), cond.scc_of(3));
    assert_ne!(cond.scc_of(0), cond.scc_of(5));
}

#[test]
fn condensation_is_acyclic() {
    let g = build_random_graph(150, 40, 0x5EED, true);
    let cond = condense(&g);
    assert!(cond.is_acyclic(), "condensation has a self-loop");
    // Every edge of g maps to a DAG edge or stays inside one component.
    for u in 0..g.node_count() {
        for &v in g.out(u) {
            let (a, b) = (cond.scc_of(u), cond.scc_of(v));
            if a != b {
                assert!(cond.dag.out(a).contains(&b));
            }
        }
    }
}

#[test]
fn tarjan_ids_are_dense() {
    let g = CsrGraph::from_edges(4, vec![(0, 1), (1, 0), (2, 3)]);
    let (ids, count) = tarjan_scc(&g);
    assert_eq!(count, 3);
    assert_eq!(ids[0], ids[1]);
    assert!(ids.iter().all(|&c| c < count));
}

#[test]
fn csr_from_edges_dedups_and_sorts() {
    let g = CsrGraph::from_edges(3, vec![(0, 2), (0, 1), (0, 2), (2, 1)]);
    assert_eq!(g.node_count(), 3);
    assert_eq!(g.edge_count(), 3);
    assert_eq!(g.out(0), &[1, 2]);
    assert_eq!(g.rev(1), &[0, 2]);
    assert_eq!(g.out_deg(0), 2);
    assert!(g.bfs_reachable(0, 1));
    assert!(!g.bfs_reachable(1, 0));
    assert!(g.bfs_reachable(1, 1));
    let many = g.reachable_from_many(&[2, 7]);
    assert!(many.contains(1) && many.contains(2) && !many.contains(0));
}

#[test]
fn sorted_intersection() {
    assert!(intersects(&[1, 4, 9], &[2, 4]));
    assert!(!intersects(&[1, 3, 5], &[2, 4, 6]));
    assert!(!intersects(&[], &[1]));
}

#[test]
fn reaches_matches_brute_force_bfs() {
    let n = 300;
    let g = build_random_graph(n, 25, 0xC0FFEE, true);
    let cond = condense(&g);
    assert!(cond.is_acyclic(), "condensation must be a DAG");
    let labels = ReachLabels::build(&cond.dag, 1024);

    let mut rng = Rng::new(0x1234567);
    let mut checked = 0;
    let mut mismatches = 0;
    while checked < 100_000 {
        let u = rng.below(n as u64) as u32;
        let v = rng.below(n as u64) as u32;
        let su = cond.scc_of(u);
        let sv = cond.scc_of(v);
        let by_labels = labels.reaches(&cond.dag, su, sv);
        let by_bfs = cond.dag.bfs_reachable(su, sv);
        if by_labels != by_bfs {
            mismatches += 1;
        }
        checked += 1;
    }
    assert_eq!(mismatches, 0, "labels disagree with BFS on {mismatches}/{checked} pairs");
}

#[test]
fn synthetic_graph_reach_and_scc() {
    // A -> B -> C, C -> A (cycle A,B,C), D -> B, E isolated.
    let edges = vec![(0, 1), (1, 2), (2, 0), (3, 1)];
    let g = CsrGraph::from_edges(5, edges);
    let cond = condense(&g);
    assert_eq!(cond.scc_of(0), cond.scc_of(1));
    assert_eq!(cond.scc_of(1), cond.scc_of(2));
    assert_ne!(cond.scc_of(3), cond.scc_of(0));
    assert_ne!(cond.scc_of(4), cond.scc_of(0));
    assert!(cond.is_acyclic());
    let labels = ReachLabels::build(&cond.dag, 1024);
    let d_scc = cond.scc_of(3);
    let a_scc = cond.scc_of(0);
    let e_scc = cond.scc_of(4);
    assert!(labels.reaches(&cond.dag, d_scc, a_scc), "D should reach A");
    assert!(!labels.reaches(&cond.dag, e_scc, a_scc), "E should not reach A");
}

#[test]
fn labels_capped_fall_back_and_stay_exact() {
    let n = 120;
    let g = build_random_graph(n, 30, 0xABCD, true);
    let cond = condense(&g);
    let m = cond.dag.node_count();
    for cap in [0u32, 1, 2] {
        let labels = ReachLabels::build(&cond.dag, cap);
        for u in 0..m {
            let single = cond.dag.reachable_set(u);
            for v in 0..m {
                assert_eq!(labels.reaches(&cond.dag, u, v), single.contains(v as usize), "cap {cap}: {u} -> {v}");
            }
        }
        if cap == 0 {
            // Every label already holds its own node, so a zero cap marks
            // every node reached by some landmark traversal incomplete.
            assert!(m == 0 || labels.complete.count_ones(..) < m as usize);
        }
    }
}

#[test]
fn labels_on_a_chain_are_complete_and_small() {
    // 0 -> 1 -> 2 -> 3
    let g = CsrGraph::from_edges(4, vec![(0, 1), (1, 2), (2, 3)]);
    let labels = ReachLabels::build(&g, u32::MAX);
    assert_eq!(labels.node_count(), 4);
    assert_eq!(labels.complete.count_ones(..), 4);
    for u in 0..4u32 {
        for v in 0..4u32 {
            assert_eq!(labels.reaches(&g, u, v), u <= v, "{u} -> {v}");
        }
    }
    for w in 0..4 {
        assert!(labels.l_out[w].windows(2).all(|p| p[0] < p[1]));
        assert!(labels.l_in[w].windows(2).all(|p| p[0] < p[1]));
        assert!(labels.l_out[w].contains(&(w as u32)));
    }
}

#[test]
fn labels_answer_on_a_graph_with_cycles() {
    // Labels are exact on any graph, not only on a condensation.
    let g = CsrGraph::from_edges(5, vec![(0, 1), (1, 0), (1, 2), (3, 4)]);
    let labels = ReachLabels::build(&g, 8);
    assert!(labels.reaches(&g, 0, 2));
    assert!(labels.reaches(&g, 1, 0));
    assert!(!labels.reaches(&g, 2, 0));
    assert!(labels.reaches(&g, 3, 4));
    assert!(!labels.reaches(&g, 0, 4));
    assert!(labels.reaches(&g, 4, 4));
}

fn strs(v: &[&str]) -> Vec<String> {
    v.iter().map(|s| s.to_string()).collect()
}

#[test]
fn entry_main_wins_first() {
    let r = classify_fn_entry("main", &strs(&["get"]), &strs(&["axum::extract::State<S>"]));
    assert_eq!(r.as_deref(), Some("fn main"));
}

#[test]
fn entry_handler_attribute_by_last_segment() {
    let r = classify_fn_entry("h", &strs(&["inline", "axum::debug_handler"]), &[]);
    assert_eq!(r.as_deref(), Some("handler attribute #[axum::debug_handler]"));
    let r = classify_fn_entry("h", &strs(&["post"]), &strs(&["Path<Id>"]));
    assert_eq!(r.as_deref(), Some("handler attribute #[post]"));
    // `a:::get` ends with `::get` after the last separator.
    let r = classify_fn_entry("h", &strs(&["a:::get"]), &[]);
    assert_eq!(r.as_deref(), Some("handler attribute #[a:::get]"));
}

#[test]
fn entry_extractor_parameters() {
    let r = classify_fn_entry("h", &strs(&["inline"]), &strs(&["String", "axum::extract::State<AppState>"]));
    assert_eq!(r.as_deref(), Some("extractor parameter `axum::extract::State<AppState>` (axum)"));
    let r = classify_fn_entry("h", &[], &strs(&["u64", "Path<Id>"]));
    assert_eq!(r.as_deref(), Some("extractor parameter `Path<Id>`"));
    let r = classify_fn_entry("h", &[], &strs(&["web::Json<Body>"]));
    assert_eq!(r.as_deref(), Some("extractor parameter `web::Json<Body>`"));
    // The first framework in list order wins.
    let r = classify_fn_entry("h", &[], &strs(&["warp::axum::X"]));
    assert_eq!(r.as_deref(), Some("extractor parameter `warp::axum::X` (axum)"));
}

#[test]
fn entry_plain_helpers_are_not_entries() {
    assert_eq!(classify_fn_entry("helper", &strs(&["inline"]), &strs(&["String", "u64", "Vec<u8>"])), None);
    // A reference's head is empty, so `&Path<T>` is not an extractor.
    assert_eq!(classify_fn_entry("helper", &[], &strs(&["&Path<T>"])), None);
    assert_eq!(classify_fn_entry("helper", &[], &[]), None);
}

#[test]
fn tarjan_numbers_components_in_completion_order() {
    // 0 -> 1 -> 2 -> 0, 2 -> 3, 3 <-> 4: {3, 4} completes first.
    let g = CsrGraph::from_edges(5, vec![(0, 1), (1, 2), (2, 0), (2, 3), (3, 4), (4, 3)]);
    let (scc_of, count) = tarjan_scc(&g);
    assert_eq!(count, 2);
    assert_eq!(scc_of, vec![1, 1, 1, 0, 0]);
}

#[test]
fn edges_never_lead_to_a_higher_component() {
    let g = build_random_graph(200, 50, 0xD1A6, true);
    let (scc_of, count) = tarjan_scc(&g);
    for u in 0..g.node_count() {
        assert!(scc_of[u as usize] < count);
        for &v in g.out(u) {
            assert!(scc_of[v as usize] <= scc_of[u as usize], "edge {u}->{v} climbs");
        }
    }
    let cond = condense(&g);
    for a in 0..cond.scc_count {
        for &b in cond.dag.out(a) {
            assert!(b < a);
        }
    }
}

#[test]
fn resolve_calls_prefers_the_qualified_path_then_a_unique_short_name() {
    let mut rodeo = lasso::Rodeo::default();
    let names = vec![
        rodeo.get_or_intern("main"),
        rodeo.get_or_intern("helper"),
        rodeo.get_or_intern("run"),
        rodeo.get_or_intern("run"),
        rodeo.get_or_intern("helper"),
    ];
    let quals = vec![
        rodeo.get_or_intern("app::main"),
        rodeo.get_or_intern("app::util::helper"),
        rodeo.get_or_intern("app::a::run"),
        rodeo.get_or_intern("app::b::run"),
        rodeo.get_or_intern("app::util::helper"),
    ];
    let call = |rodeo: &mut lasso::Rodeo, caller: u32, path: &str| {
        let last = path.rsplit("::").next().unwrap_or(path);
        (caller, rodeo.get_or_intern(path), rodeo.get_or_intern(last))
    };
    let calls = vec![
        // The qualified path names two symbols: the later one wins.
        call(&mut rodeo, 0, "app::util::helper"),
        // `run` is ambiguous by its short name and is dropped.
        call(&mut rodeo, 0, "run"),
        // A qualified path resolves even where the short name is shared.
        call(&mut rodeo, 1, "app::b::run"),
        // `main` is unique by its short name.
        call(&mut rodeo, 2, "crate::main"),
        // Unknown names and callers outside the symbol table give nothing.
        call(&mut rodeo, 3, "nowhere"),
        call(&mut rodeo, 9, "app::main"),
        // The same edge twice is kept once.
        call(&mut rodeo, 0, "app::util::helper"),
    ];
    let edges = resolve_calls(&names, &quals, &calls);
    assert_eq!(edges, vec![(0, 4), (1, 3), (2, 0)]);
}

#[test]
fn resolve_calls_with_no_symbols_resolves_nothing() {
    let mut rodeo = lasso::Rodeo::default();
    let f = rodeo.get_or_intern("f");
    let edges = resolve_calls(&[], &[], &[(0, f, f)]);
    assert!(edges.is_empty());
}

#[test]
fn bfs_node_path_walks_edges_from_source_to_target() {
    let g = CsrGraph::from_edges(5, vec![(0, 1), (1, 2), (0, 3), (3, 2), (2, 4)]);
    assert_eq!(bfs_node_path(&g, 0, 4), Some(vec![0, 1, 2, 4]));
    assert_eq!(bfs_node_path(&g, 0, 0), Some(vec![0]));
    assert_eq!(bfs_node_path(&g, 3, 4), Some(vec![3, 2, 4]));
    assert_eq!(bfs_node_path(&g, 4, 0), None);
    assert_eq!(bfs_node_path(&g, 0, 7), None);
}

#[test]
fn witness_chain_follows_call_edges_to_the_target() {
    let g = CsrGraph::from_edges(5, vec![(0, 1), (1, 0), (1, 2), (2, 3), (3, 2), (3, 4)]);
    assert_eq!(witness_chain(&g, 0, 4), Some(vec![0, 1, 2, 3, 4]));
    assert_eq!(witness_chain(&g, 0, 1), Some(vec![0, 1]));
    assert_eq!(witness_chain(&g, 2, 2), Some(vec![2]));
    assert_eq!(witness_chain(&g, 4, 0), None);
    assert_eq!(witness_chain(&g, 2, 0), None);
}

#[test]
fn definition_of_prefers_the_path_then_the_only_or_first_callable_name() {
    let mut rodeo = lasso::Rodeo::default();
    let table: Vec<(&str, &str, SymbolKind)> = vec![
        ("Config", "app::Config", SymbolKind::Struct),
        ("run", "app::a::run", SymbolKind::Mod),
        ("run", "app::b::run", SymbolKind::Fn),
        ("run", "app::c::run", SymbolKind::Fn),
        ("Tag", "app::Tag", SymbolKind::Struct),
        ("Tag", "app::other::Tag", SymbolKind::Enum),
    ];
    let mut symbols = Vec::new();
    for (i, (name, qual, kind)) in table.iter().enumerate() {
        symbols.push(Symbol {
            id: i as u32,
            name: rodeo.get_or_intern(name),
            qual: rodeo.get_or_intern(qual),
            kind: *kind,
            file: 0,
            span: Span::new(0, 0, 0),
            name_span: Span::new(0, 0, 0),
            entry: false,
            entry_reason: None,
        });
    }
    let names: Vec<_> = symbols.iter().map(|s| s.name).collect();
    let quals: Vec<_> = symbols.iter().map(|s| s.qual).collect();
    let idx = NameIndex::build(&names, &quals);
    let mut query = |q: &str| {
        let last = q.rsplit("::").next().unwrap_or(q);
        let qk = rodeo.get_or_intern(q);
        let lk = rodeo.get_or_intern(last);
        idx.definition_of(qk, lk, &symbols)
    };
    // A full path names its symbol.
    assert_eq!(query("app::c::run"), Some(3));
    // A unique short name is enough.
    assert_eq!(query("Config"), Some(0));
    assert_eq!(query("x::Config"), Some(0));
    // A shared short name picks the first callable symbol.
    assert_eq!(query("run"), Some(2));
    // Shared, and nothing callable: no answer.
    assert_eq!(query("Tag"), None);
    // Unknown names resolve to nothing.
    assert_eq!(query("missing"), None);
}

#[test]
fn name_index_lookups_list_symbols_by_path_and_short_name() {
    let mut rodeo = lasso::Rodeo::default();
    let f = rodeo.get_or_intern("f");
    let g = rodeo.get_or_intern("g");
    let a_f = rodeo.get_or_intern("a::f");
    let b_f = rodeo.get_or_intern("b::f");
    let idx = NameIndex::build(&[f, g, f], &[a_f, b_f, a_f]);
    assert_eq!(idx.lookup_qual(a_f), Some(2));
    assert_eq!(idx.lookup_qual(b_f), Some(1));
    assert_eq!(idx.lookup_qual(f), None);
    assert_eq!(idx.lookup_name(f), Some(&vec![0, 2]));
    assert_eq!(idx.lookup_name(a_f), None);
    assert_eq!(idx.resolve((1, rodeo.get_or_intern("zzz"), g)), Some((1, 1)));
    assert_eq!(idx.resolve((1, b_f, f)), Some((1, 1)));
    assert_eq!(idx.resolve((1, rodeo.get_or_intern("q"), f)), None);
    assert_eq!(idx.resolve((3, a_f, f)), None);
}

#[test]
fn root_module_of_reads_the_file_path_as_a_module_path() {
    assert_eq!(root_module_of("src/lib.rs"), "");
    assert_eq!(root_module_of("src/main.rs"), "");
    assert_eq!(root_module_of("src/foo/bar.rs"), "foo::bar");
    assert_eq!(root_module_of("src/foo/mod.rs"), "foo");
    assert_eq!(root_module_of("tests/it.rs"), "tests::it");
    assert_eq!(root_module_of("build.rs"), "build");
    assert_eq!(root_module_of("src/a/b/main.rs"), "a::b");
}

#[test]
fn qual_of_joins_the_module_path_and_the_name() {
    let ctx = WalkCtx { mod_path: vec!["app".to_string(), "net".to_string()] };
    assert_eq!(qual_of(&ctx, "serve"), "app::net::serve");
    let ctx = WalkCtx { mod_path: vec![String::new()] };
    assert_eq!(qual_of(&ctx, "main"), "main");
    let ctx = WalkCtx { mod_path: vec![String::new(), "util".to_string()] };
    assert_eq!(qual_of(&ctx, "f"), "::util::f");
    let ctx = WalkCtx { mod_path: vec!["app".to_string(), String::new(), "x".to_string()] };
    assert_eq!(qual_of(&ctx, "g"), "app::x::g");
}

#[test]
fn symbol_reaches_agrees_with_breadth_first_search() {
    let mut rng = Rng::new(11);
    for _ in 0..20 {
        let n = 1 + rng.below(12) as u32;
        let mut edges = Vec::new();
        for _ in 0..rng.below(30) {
            edges.push((rng.below(n as u64) as u32, rng.below(n as u64) as u32));
        }
        let g = CsrGraph::from_edges(n, edges);
        let c = condense(&g);
        let labels = ReachLabels::build(&c.dag, 2);
        for u in 0..n {
            for v in 0..n {
                assert_eq!(symbol_reaches(&g, &c, &labels, u, v), g.bfs_reachable(u, v));
                assert_eq!(witness_chain(&g, u, v).is_some(), g.bfs_reachable(u, v));
            }
        }
    }
}

#[test]
fn a_line_past_the_end_of_the_file_has_no_offset() {
    let lt = LineTable::from_bytes(b"fn a() {\n    let x = 1; // c\n    b();\n}\n");
    assert_eq!(lt.to_byte(LineCol::new(1, 0)), Some(0));
    assert_eq!(lt.to_byte(LineCol::new(1, 7)), Some(7));
    assert_eq!(lt.to_byte(LineCol::new(2, 0)), Some(9));
    // The empty line after the final newline starts at the end of the file.
    assert_eq!(lt.to_byte(LineCol::new(5, 0)), Some(40));
    assert_eq!(lt.to_byte(LineCol::new(6, 0)), None);
    assert_eq!(lt.to_byte(LineCol::new(99, 1)), None);
    assert_eq!(LineTable::default().to_byte(LineCol::new(1, 0)), None);
}

#[test]
fn a_two_cycle_between_components_is_not_acyclic() {
    let c = Condensation {
        scc_of: vec![0, 1],
        scc_count: 2,
        dag: CsrGraph::from_edges(2, vec![(0, 1), (1, 0)]),
        members: vec![vec![0], vec![1]],
    };
    assert!(!c.is_acyclic());
    let d = Condensation {
        scc_of: vec![0, 1],
        scc_count: 2,
        dag: CsrGraph::from_edges(2, vec![(1, 0)]),
        members: vec![vec![0], vec![1]],
    };
    assert!(d.is_acyclic());
}

#[test]
fn condensation_uses_every_component_id() {
    let g = CsrGraph::from_edges(6, vec![(0, 1), (1, 2), (2, 0), (3, 4), (4, 3), (2, 3), (5, 0)]);
    let c = condense(&g);
    assert!(c.is_acyclic());
    assert_eq!(c.scc_count, 3);
    assert_eq!(c.scc_of(0), c.scc_of(1));
    assert_eq!(c.scc_of(1), c.scc_of(2));
    assert_eq!(c.scc_of(3), c.scc_of(4));
    assert_ne!(c.scc_of(0), c.scc_of(3));
    assert_ne!(c.scc_of(0), c.scc_of(5));
    assert!(c.members.iter().all(|m| !m.is_empty()));
    let (ids, count) = tarjan_scc(&g);
    for a in 0..count {
        assert!(ids.contains(&a));
    }
}

#[test]
fn number_symbols_gives_each_symbol_its_position_as_id() {
    let mut rodeo = lasso::Rodeo::default();
    let mk = |rodeo: &mut lasso::Rodeo, name: &str, reason: Option<&str>| SymbolDraft {
        name: rodeo.get_or_intern(name),
        qual: rodeo.get_or_intern(format!("app::{name}")),
        kind: SymbolKind::Fn,
        file: 1,
        span: Span::new(1, 0, 5),
        name_span: Span::new(1, 3, 4),
        entry_reason: reason.map(|r| r.to_string()),
    };
    let drafts = vec![mk(&mut rodeo, "main", Some("main")), mk(&mut rodeo, "helper", None)];
    let syms: Vec<Symbol> = number_symbols(&drafts);
    assert_eq!(syms.len(), 2);
    assert_eq!(syms[0].id, 0);
    assert_eq!(syms[1].id, 1);
    assert!(syms[0].entry);
    assert!(!syms[1].entry);
    assert_eq!(syms[0].entry_reason.as_deref(), Some("main"));
    assert_eq!(syms[1].name, drafts[1].name);
    assert_eq!(syms[1].span, Span::new(1, 0, 5));
}

#[test]
fn last_segment_of_takes_the_text_after_the_last_separator() {
    assert_eq!(last_segment_of("a::b::c"), "c");
    assert_eq!(last_segment_of("f"), "f");
    assert_eq!(last_segment_of("a::"), "");
}

fn model_decl(name: &str) -> DeclModel {
    DeclModel {
        name: name.to_string(),
        span_start: LineCol::new(1, 0),
        span_end: LineCol::new(1, 9),
        name_start: LineCol::new(1, 3),
        name_end: LineCol::new(1, 7),
    }
}

fn model_fn(name: &str, body: Vec<StmtModel>) -> FnModel {
    FnModel { decl: model_decl(name), attrs: vec![], param_types: vec![], body: Some(body) }
}

#[test]
fn collect_expr_lists_calls_in_walk_order() {
    let e = ExprModel::Call {
        callee: "a".to_string(),
        args: vec![
            ExprModel::MethodCall {
                method: "b".to_string(),
                receiver: Box::new(ExprModel::Call { callee: "c".to_string(), args: vec![] }),
                args: vec![ExprModel::Leaf, ExprModel::Call { callee: "d".to_string(), args: vec![] }],
            },
            ExprModel::If {
                cond: Box::new(ExprModel::Call { callee: "e".to_string(), args: vec![] }),
                then: vec![StmtModel::Expr { expr: ExprModel::Call { callee: "f".to_string(), args: vec![] } }, StmtModel::Skip],
                otherwise: Some(Box::new(ExprModel::Call { callee: "g".to_string(), args: vec![] })),
            },
        ],
    };
    let mut out = Vec::new();
    collect_expr(&e, &mut out);
    assert_eq!(out, vec!["a", "b", "c", "d", "e", "f", "g"]);
}

#[test]
fn walk_items_qualifies_symbols_and_attributes_calls() {
    let items = vec![
        ItemModel::Fn {
            f: model_fn(
                "main",
                vec![StmtModel::Expr {
                    expr: ExprModel::Call {
                        callee: "helper".to_string(),
                        args: vec![ExprModel::MethodCall {
                            method: "len".to_string(),
                            receiver: Box::new(ExprModel::Leaf),
                            args: vec![ExprModel::Call { callee: "inner".to_string(), args: vec![] }],
                        }],
                    },
                }],
            ),
        },
        ItemModel::Mod {
            decl: model_decl("util"),
            inline: Some(vec![
                ItemModel::Struct { decl: model_decl("S"), fields: vec![model_decl("x")] },
                ItemModel::Impl {
                    decl: model_decl("S"),
                    methods: vec![model_fn("new", vec![StmtModel::Expr {
                        expr: ExprModel::Call { callee: "S::default".to_string(), args: vec![] },
                    }])],
                },
            ]),
        },
        ItemModel::Simple { kind: SymbolKind::Const, decl: model_decl("C") },
        ItemModel::Other,
    ];
    let mut ctx = WalkCtx { mod_path: vec!["app".to_string()] };
    let mut symbols = Vec::new();
    let mut calls = Vec::new();
    walk_items(&items, &mut ctx, &mut symbols, &mut calls);
    assert_eq!(ctx.mod_path, vec!["app".to_string()]);
    let quals: Vec<&str> = symbols.iter().map(|s| s.qual.as_str()).collect();
    assert_eq!(
        quals,
        vec!["app::main", "app::util", "app::util::S", "app::util::x", "app::util::<impl S>", "app::util::new", "app::C"]
    );
    assert_eq!(symbols[0].entry_reason.as_deref(), Some("fn main"));
    assert_eq!(symbols[3].kind, SymbolKind::Field);
    assert_eq!(symbols[4].name, "S");
    assert_eq!(symbols[4].kind, SymbolKind::Impl);
    let cs: Vec<(usize, &str)> = calls.iter().map(|c| (c.caller_local, c.callee.as_str())).collect();
    assert_eq!(cs, vec![(0, "helper"), (0, "len"), (0, "inner"), (5, "S::default")]);
}
