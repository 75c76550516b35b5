use belay::taint::ifds::{funcs_of_flows, reachable_functions, Flow, Function, Operand, SinkSite, Source, Stmt, TaintProblem, Var};
use belay::taint::steensgaard::Steensgaard;
use belay::taint::lattice::{solve_forward, Cfg, Lattice, SetLattice};
use belay::taint::lower::lower_to_taint;
use belay::index::symbol::SymbolKind;
use fixedbitset::FixedBitSet;

fn var(name: &str, map: &mut Vec<String>) -> Var {
    if let Some(i) = map.iter().position(|n| n == name) {
        return i as Var;
    }
    map.push(name.to_string());
    (map.len() - 1) as Var
}

#[test]
fn unify_merges_classes() {
    let mut s = Steensgaard::new();
    let a = s.add_node();
    let b = s.add_node();
    let c = s.add_node();
    s.unify(a, b);
    assert!(s.may_alias(a, b));
    assert!(!s.may_alias(a, c));
    s.unify(b, c);
    assert!(s.may_alias(a, c));
}

#[test]
fn find_grows_and_unify_is_idempotent() {
    let mut s = Steensgaard::new();
    assert_eq!(s.find(5), 5);
    assert!(!s.may_alias(0, 5));
    s.unify(3, 3);
    s.unify(1, 4);
    s.unify(4, 1);
    assert!(s.may_alias(4, 1));
    assert!(!s.may_alias(1, 2));
    s.ensure(9);
    assert!(s.may_alias(9, 9));
}

#[test]
fn intraprocedural_taint_reaches_sink() {
    let mut names = Vec::new();
    let req = var("req", &mut names);
    let x = var("x", &mut names);
    let f = Function {
        id: 0,
        params: vec![req],
        body: vec![
            Stmt::Assign { dst: x, src: Operand::Var(req) },
            Stmt::Sink { val: Operand::Var(x) },
            Stmt::Return { val: Operand::Var(x) },
        ],
    };
    let tp = TaintProblem {
        functions: vec![f],
        sources: vec![Source { func: 0, var: req }],
        sinks: vec![SinkSite { func: 0, stmt: 1 }],
    };
    let flows = tp.solve();
    assert_eq!(flows.len(), 1);
    assert_eq!(flows[0].sink.stmt, 1);
}

#[test]
fn sanitizer_cuts_the_flow() {
    let mut names = Vec::new();
    let req = var("req", &mut names);
    let f = Function {
        id: 0,
        params: vec![req],
        body: vec![
            Stmt::Sanitize { var: req },
            Stmt::Sink { val: Operand::Var(req) },
            Stmt::Return { val: Operand::Var(req) },
        ],
    };
    let tp = TaintProblem {
        functions: vec![f],
        sources: vec![Source { func: 0, var: req }],
        sinks: vec![SinkSite { func: 0, stmt: 1 }],
    };
    let flows = tp.solve();
    assert!(flows.is_empty(), "sanitizer should cut the flow");
}

#[test]
fn interprocedural_taint_through_call() {
    let mut names = Vec::new();
    let req = var("req", &mut names);
    let p = var("p", &mut names);
    let r = var("r", &mut names);
    let helper = Function {
        id: 1,
        params: vec![p],
        body: vec![Stmt::Sink { val: Operand::Var(p) }, Stmt::Return { val: Operand::Var(p) }],
    };
    let f = Function {
        id: 0,
        params: vec![req],
        body: vec![
            Stmt::Call { dst: Some(r), callee: 1, args: vec![Operand::Var(req)] },
            Stmt::Sink { val: Operand::Var(r) },
            Stmt::Return { val: Operand::Var(r) },
        ],
    };
    let tp = TaintProblem {
        functions: vec![f, helper],
        sources: vec![Source { func: 0, var: req }],
        sinks: vec![SinkSite { func: 1, stmt: 0 }, SinkSite { func: 0, stmt: 1 }],
    };
    let flows = tp.solve();
    assert!(flows.iter().any(|fl| fl.sink.func == 1 && fl.sink.stmt == 0));
    assert!(flows.iter().any(|fl| fl.sink.func == 0 && fl.sink.stmt == 1));
}

#[test]
fn untainted_path_is_not_reported() {
    let mut names = Vec::new();
    let req = var("req", &mut names);
    let safe = var("safe", &mut names);
    let f = Function {
        id: 0,
        params: vec![req],
        body: vec![
            Stmt::Assign { dst: safe, src: Operand::Const },
            Stmt::Sink { val: Operand::Var(safe) },
            Stmt::Return { val: Operand::Var(req) },
        ],
    };
    let tp = TaintProblem {
        functions: vec![f],
        sources: vec![Source { func: 0, var: req }],
        sinks: vec![SinkSite { func: 0, stmt: 1 }],
    };
    let flows = tp.solve();
    assert!(flows.is_empty(), "untainted path should not be reported");
}

#[test]
fn witness_runs_from_source_to_sink() {
    let f = Function {
        id: 0,
        params: vec![0],
        body: vec![
            Stmt::Nop,
            Stmt::Assign { dst: 1, src: Operand::Var(0) },
            Stmt::Sink { val: Operand::Var(1) },
        ],
    };
    let tp = TaintProblem {
        functions: vec![f],
        sources: vec![Source { func: 0, var: 0 }],
        sinks: vec![SinkSite { func: 0, stmt: 2 }, SinkSite { func: 0, stmt: 0 }],
    };
    let flows = tp.solve();
    assert_eq!(flows.len(), 1);
    assert_eq!(flows[0].source, Source { func: 0, var: 0 });
    assert_eq!(flows[0].witness, vec![(0, 0), (0, 1), (0, 2)]);
}

fn idx(b: &FixedBitSet) -> Vec<usize> {
    b.ones().collect()
}

#[test]
fn reaching_definitions_fixedpoint() {
    // 0: x=1 (def0)  -> 1
    // 1: x=2 (def1)  -> 2
    // 2: sink        -> 3
    // 3: x=3 (def2)  -> (end)
    let mut cfg = Cfg::new(0, 4);
    cfg.add_edge(0, 1);
    cfg.add_edge(1, 2);
    cfg.add_edge(2, 3);
    let universe = 3;
    let transfer = |node: usize, inn: &SetLattice| -> SetLattice {
        let mut out = inn.clone();
        match node {
            0 => {
                out.insert(0);
            }
            1 => {
                out.insert(1);
            }
            3 => {
                out.insert(2);
            }
            _ => {}
        }
        out
    };
    let out = solve_forward(&cfg, universe, &[], transfer);
    assert_eq!(idx(out[0].bits()), vec![0]);
    assert_eq!(idx(out[1].bits()), vec![0, 1]);
    assert_eq!(idx(out[2].bits()), vec![0, 1]);
    assert_eq!(idx(out[3].bits()), vec![0, 1, 2]);
}

#[test]
fn dataflow_loop_and_seeds_reach_the_least_fixed_point() {
    // 0 -> 1 -> 2 -> 1 (a loop), node 2 adds atom 1; node 0 is seeded with atom 0.
    let mut cfg = Cfg::new(0, 3);
    cfg.add_edge(0, 1);
    cfg.add_edge(1, 2);
    cfg.add_edge(2, 1);
    assert_eq!(cfg.n(), 3);
    let mut seed = SetLattice::bottom(4);
    seed.insert(0);
    let transfer = |node: usize, inn: &SetLattice| -> SetLattice {
        let mut out = inn.clone();
        if node == 2 {
            out.insert(1);
        }
        out
    };
    let out = solve_forward(&cfg, 4, &[(0, seed)], transfer);
    assert_eq!(idx(out[0].bits()), vec![0]);
    assert_eq!(idx(out[1].bits()), vec![0, 1]);
    assert_eq!(idx(out[2].bits()), vec![0, 1]);
    // Atom 3 is never produced: the solution is the least one.
    assert!(!out[1].contains(3));
}

#[test]
fn set_lattice_order_and_join() {
    let mut a = SetLattice::bottom(5);
    a.insert(1);
    let mut b = SetLattice::bottom(5);
    b.insert(3);
    let j = a.join(&b);
    assert_eq!(idx(j.bits()), vec![1, 3]);
    assert!(a.less_equal(&j) && b.less_equal(&j));
    assert!(!j.less_equal(&a));
    assert!(SetLattice::bottom(5).less_equal(&a));
    assert_eq!(j.universe(), 5);
    assert!(j.contains(3) && !j.contains(2) && !j.contains(9));
    let from = SetLattice::from_bits(j.bits().clone());
    assert_eq!(idx(from.bits()), vec![1, 3]);
}

#[test]
fn cfg_edges_mirror() {
    let mut cfg = Cfg::new(2, 3);
    cfg.add_edge(0, 2);
    cfg.add_edge(1, 2);
    assert_eq!(cfg.entry, 2);
    assert_eq!(cfg.succ[0], vec![2]);
    assert_eq!(cfg.pred[2], vec![0, 1]);
    assert!(cfg.succ[2].is_empty());
}

#[test]
fn reachable_functions_cover_both_ends_of_a_call() {
    let mut names = Vec::new();
    let req = var("req", &mut names);
    let p = var("p", &mut names);
    let r = var("r", &mut names);
    let helper = Function {
        id: 1,
        params: vec![p],
        body: vec![Stmt::Sink { val: Operand::Var(p) }, Stmt::Return { val: Operand::Var(p) }],
    };
    let f = Function {
        id: 0,
        params: vec![req],
        body: vec![
            Stmt::Call { dst: Some(r), callee: 1, args: vec![Operand::Var(req)] },
            Stmt::Return { val: Operand::Var(r) },
        ],
    };
    let idle = Function { id: 2, params: vec![], body: vec![Stmt::Return { val: Operand::Const }] };
    let tp = TaintProblem {
        functions: vec![f, helper, idle],
        sources: vec![Source { func: 0, var: req }],
        sinks: vec![SinkSite { func: 1, stmt: 0 }],
    };
    let set = reachable_functions(&tp);
    assert!(set.contains(&0));
    assert!(set.contains(&1));
    assert!(!set.contains(&2));
    assert_eq!(set.len(), 2);
}

#[test]
fn funcs_of_flows_collects_sources_sinks_and_witnesses() {
    let fl = Flow {
        source: Source { func: 4, var: 0 },
        sink: SinkSite { func: 9, stmt: 1 },
        witness: vec![(4, 0), (7, 2), (9, 1)],
    };
    let set = funcs_of_flows(&[fl]);
    let mut v: Vec<u32> = set.into_iter().collect();
    v.sort();
    assert_eq!(v, vec![4, 7, 9]);
    assert!(funcs_of_flows(&[]).is_empty());
}

#[test]
fn lowering_turns_sink_calls_into_sinks_and_flows_reach_them() {
    // 0: handler (fn) calls 2 then 1; 1: helper `db::Query` (a sink by its
    // last segment, up to case); 2: `util::parse` (an ordinary call); 3: a struct.
    let kinds = vec![SymbolKind::Fn, SymbolKind::Fn, SymbolKind::Fn, SymbolKind::Struct];
    let names: Vec<String> = vec!["handler".into(), "db::Query".into(), "util::parse".into(), "Config".into()];
    let callees = vec![vec![2, 1], vec![], vec![], vec![]];
    let tp = lower_to_taint(&kinds, &names, &callees, &[0]);
    assert_eq!(tp.functions.len(), 4);
    let h = &tp.functions[0];
    assert_eq!(h.params, vec![0]);
    // Callees in increasing id order: 1 (sink), then 2 (call), then return.
    assert!(matches!(h.body[0], Stmt::Sink { val: Operand::Var(0) }));
    assert!(matches!(&h.body[1], Stmt::Call { dst: Some(0), callee: 2, .. }));
    assert!(matches!(h.body[2], Stmt::Return { val: Operand::Var(0) }));
    assert_eq!(h.body.len(), 3);
    assert!(tp.functions[3].params.is_empty());
    assert!(matches!(tp.functions[3].body[0], Stmt::Return { val: Operand::Const }));
    assert_eq!(tp.sources.len(), 1);
    assert_eq!(tp.sources[0].func, 0);
    assert_eq!(tp.sinks.len(), 1);
    assert_eq!((tp.sinks[0].func, tp.sinks[0].stmt), (0, 0));
    let flows = tp.solve();
    assert_eq!(flows.len(), 1);
    assert_eq!(flows[0].source.func, 0);
}

#[test]
fn lowering_matches_sink_names_ignoring_ascii_case_only() {
    let kinds = vec![SymbolKind::Fn, SymbolKind::Fn, SymbolKind::Fn];
    let names: Vec<String> = vec!["f".into(), "UNWRAP".into(), "unwrapper".into()];
    let callees = vec![vec![1, 2], vec![], vec![]];
    let tp = lower_to_taint(&kinds, &names, &callees, &[]);
    assert!(matches!(tp.functions[0].body[0], Stmt::Sink { .. }));
    assert!(matches!(tp.functions[0].body[1], Stmt::Call { .. }));
    assert!(tp.sources.is_empty());
}
