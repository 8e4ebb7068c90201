use live_crab::ast::{Expr, Operator};
use live_crab::lexer::Lexer;
use live_crab::liveness::ControlFlowGraph;
use live_crab::liveness::NodeKind;
use live_crab::parser::Parser;
use std::collections::HashSet;

// The small example programs the file-based tests read in.
const EXAMPLE_S1: &str = "a = 2;\nb = 3;\nreturn a;\n";
const EXAMPLE_DO_WHILE: &str = "i = 0;\ndo {\ni = i + 1;\ni = i + 1;\n}\nwhile (i < 9);\nreturn i;\n";
const EXAMPLE_BOOK: &str = "a = 0;\ndo {\nb = a + 1;\nc = c + 1;\na = b * 2;\n}\nwhile (a < 9);\nreturn c;\n";

fn make_ass_node_lit(id: &str, lit: i32) -> NodeKind {
    NodeKind::Assignment(Box::new(Expr::Id(id.to_string())), Box::new(Expr::Int(lit)))
}

fn make_ass_node_exp(id: &str, exp: Expr) -> NodeKind {
    NodeKind::Assignment(Box::new(Expr::Id(id.to_string())), Box::new(exp))
}

fn make_inc(id: &str) -> Expr {
    Expr::BinOp(
        Box::new(Expr::Id(id.to_string())),
        Operator::Plus,
        Box::new(Expr::Int(1)),
    )
}

fn make_return(e: Expr) -> NodeKind {
    NodeKind::Return(Box::new(e))
}

fn debug_nodes(cfg: ControlFlowGraph) {
    for (idx, n) in cfg.get_nodes().iter().enumerate() {
        println!("Node {idx}: {:?}\n", n)
    }
}

fn build(source: &str) -> ControlFlowGraph {
    let lexer = Lexer::new(source);
    let tokens = lexer.tokenize();
    let mut parser = Parser::new(tokens);
    let prog = parser.parse();
    ControlFlowGraph::from(&prog)
}

fn has(names: &[String], wanted: &str) -> bool {
    names.iter().any(|n| n == wanted)
}

fn name_set(names: &[String]) -> HashSet<String> {
    names.iter().cloned().collect()
}

// flatten tests
#[test]
fn flatten_single_assignment() {
    let cfg = build("a = 42;");
    assert_eq!(cfg.get_nodes().len(), 1);
    let want = make_ass_node_lit("a", 42);
    let got = cfg.get_nodes().first().unwrap().get_node_kind().clone();
    assert_eq!(Some(got), Some(want));
}

#[test]
fn flatten_simple_example1() {
    // a = 2; b = 3; return a;
    let cfg = build(EXAMPLE_S1);
    let got = cfg.get_nodes();
    let want_vec = [
        make_ass_node_lit("a", 2),
        make_ass_node_lit("b", 3),
        make_return(Expr::Id(String::from("a"))),
    ];
    assert_eq!(
        Some(got.first().unwrap().get_node_kind()),
        Some(&want_vec[0])
    );
    assert_eq!(Some(got.get(1).unwrap().get_node_kind()), Some(&want_vec[1]));
    assert_eq!(Some(got.get(2).unwrap().get_node_kind()), Some(&want_vec[2]));
}

#[test]
fn flatten_if() {
    let file = "
         i = 0;
         if ( i < 3 ) {
          i = i + 1;
          i = i + i;
          i = i * i;
         }";
    let cfg = build(file);
    let got = cfg.get_nodes();
    let want_vec = [
        make_ass_node_lit("i", 0),
        NodeKind::Condition(Box::new(Expr::BinOp(
            Box::new(Expr::Id("i".to_string())),
            Operator::LessThan,
            Box::new(Expr::Int(3)),
        ))),
        make_ass_node_exp("i", make_inc("i")),
        NodeKind::Assignment(
            Box::new(Expr::Id("i".to_string())),
            Box::new(Expr::BinOp(
                Box::new(Expr::Id("i".to_string())),
                Operator::Plus,
                Box::new(Expr::Id("i".to_string())),
            )),
        ),
        NodeKind::Assignment(
            Box::new(Expr::Id("i".to_string())),
            Box::new(Expr::BinOp(
                Box::new(Expr::Id("i".to_string())),
                Operator::Mult,
                Box::new(Expr::Id("i".to_string())),
            )),
        ),
        NodeKind::Return(Box::new(Expr::Id("a".to_string()))),
    ];
    assert_eq!(got.len(), 5);
    assert_eq!(
        Some(got.first().unwrap().get_node_kind()),
        Some(&want_vec[0])
    );
    assert_eq!(Some(got.get(1).unwrap().get_node_kind()), Some(&want_vec[1]));
    assert_eq!(Some(got.get(2).unwrap().get_node_kind()), Some(&want_vec[2]));
    assert_eq!(Some(got.get(3).unwrap().get_node_kind()), Some(&want_vec[3]));
    assert_eq!(Some(got.get(4).unwrap().get_node_kind()), Some(&want_vec[4]));
}

#[test]
fn flatten_do_while() {
    // i = 0;
    // do {
    // i = i + 1;
    // i = i + 1;
    // }
    // while (i < 9);
    // return i;
    let cfg = build(EXAMPLE_DO_WHILE);
    let got = cfg.get_nodes();
    let want_vec = [
        make_ass_node_lit("i", 0),
        make_ass_node_exp("i", make_inc("i")),
        make_ass_node_exp("i", make_inc("i")),
        NodeKind::Condition(Box::new(Expr::BinOp(
            Box::new(Expr::Id("i".to_string())),
            Operator::LessThan,
            Box::new(Expr::Int(9)),
        ))),
        make_return(Expr::Id("i".to_string())),
    ];
    assert_eq!(
        Some(got.first().unwrap().get_node_kind()),
        Some(&want_vec[0])
    );
    assert_eq!(Some(got.get(1).unwrap().get_node_kind()), Some(&want_vec[1]));
    assert_eq!(Some(got.get(2).unwrap().get_node_kind()), Some(&want_vec[2]));
    assert_eq!(Some(got.get(3).unwrap().get_node_kind()), Some(&want_vec[3]));
    assert_eq!(Some(got.get(4).unwrap().get_node_kind()), Some(&want_vec[4]));
}

// Use and Def tests
#[test]
fn node_single_def_and_empty_use() {
    let cfg = build("a = 42;");
    let got1_def = cfg.get_node(0).get_defs();
    let got1_use = cfg.get_node(0).get_uses();
    assert!(has(got1_def, "a"));
    assert!(got1_use.is_empty());
}

#[test]
fn node_two_def_and_use() {
    let cfg = build("b = 41;a = b + 1;");
    let got_def = cfg.get_node(1).get_defs();
    let got_use = cfg.get_node(1).get_uses();
    assert!(has(got_def, "a"));
    assert!(has(got_use, "b"));
}

// if and return
#[test]
fn use_if_cond() {
    let cfg = build("a = 42; if ( a < 24 ) {a = 69;}");
    let got_def = cfg.get_node(1).get_defs();
    let got_use = cfg.get_node(1).get_uses();
    assert!(got_def.is_empty(), "{:?}", cfg.get_node(1));
    assert!(has(got_use, "a"), "{:?}", cfg.get_node(1));
}

#[test]
fn use_return() {
    let cfg = build("a = 42; return a;");
    let got_def = cfg.get_node(1).get_defs();
    let got_use = cfg.get_node(1).get_uses();
    assert!(got_def.is_empty(), "{:?}", cfg.get_node(1));
    assert!(has(got_use, "a"), "{:?}", cfg.get_node(1));
}

fn check_def_use(cfg: &ControlFlowGraph, node_idx: usize, wanted_def: Vec<&str>, wanted_use: Vec<&str>) {
    for u in wanted_use.iter() {
        assert!(cfg.get_node(node_idx).contains_use(u.to_string()));
    }
    for d in wanted_def.iter() {
        assert!(cfg.get_node(node_idx).contains_def(d.to_string()));
    }
}

#[test]
fn use_def_book_ex() {
    let cfg = build(EXAMPLE_BOOK);
    //This is how it should be:
    //0: a = 0;
    //	def: {"a"}, use: {}
    //1: b = a + 1;
    //	def: {"b"}, use: {"a"}
    //2: c = c + 1;
    //	def: {"c"}, use: {"c"}
    //3: a = b * 2;
    //	def: {"a"}, use: {"b"}
    //4: if a < 9
    //	def: {}, use: {"a"}
    //5: return c;
    //	def: {}, use: {"c"}

    // Node 0:
    check_def_use(&cfg, 0, vec!["a"], vec![]);
    // Node 1:
    check_def_use(&cfg, 1, vec!["b"], vec!["a"]);
    // Node 2:
    check_def_use(&cfg, 2, vec!["c"], vec!["c"]);
    // Node 3:
    check_def_use(&cfg, 3, vec!["a"], vec!["b"]);
    // Node 4:
    check_def_use(&cfg, 4, vec![], vec!["a"]);
    // Node 5:
    check_def_use(&cfg, 5, vec![], vec!["c"]);
}

// succ and pred tests - positive
// SUCC
#[test]
fn succ_three_ass() {
    let s = "a = 41;
             b = 1;
             x = a;
             ";
    let cfg = build(s);
    let got1 = cfg.get_node(0).get_succs().contains(&1);
    let got2 = cfg.get_node(1).get_succs().contains(&2);
    let got3 = cfg.get_node(2).get_succs().is_empty();
    assert!(got1, "Node 1 did not succede Node 0");
    assert!(got2, "Node 2 did not succede Node 1");
    assert!(got3, "Node 3 did have a successor");
}

#[test]
fn succ_do_while() {
    let s = "a = 41;do {a = a+1;} while( a < 42 ); return a;";
    let cfg = build(s);
    let got1 = cfg.get_node(0).get_succs().contains(&1);
    let got2 = cfg.get_node(1).get_succs().contains(&2);
    let got3 = cfg.get_node(2).get_succs().contains(&1);
    let got4 = cfg.get_node(2).get_succs().contains(&3);
    let got5 = cfg.get_node(3).get_succs().is_empty();
    for (idx, n) in cfg.get_nodes().iter().enumerate() {
        println!(
            "Node {idx}: succ: {:?}, preds: {:?}",
            n.get_succs(),
            n.get_preds()
        );
    }
    assert!(got1, "Node 1 did not succede to the body");
    assert!(got2, "Node 2 did not succede to the cond");
    assert!(got3, "Node 3 (cond) not branch conditionally, true");
    assert!(got4, "Node 3 (cond) not branch conditionally, false ");
    assert!(got5, "Node 4 did have a successor");
}

#[test]
fn succ_while() {
    let s = "a = 901;
        while ( a < 4 ) {
            a = a+2;
            a = a-1;
        }
        return a;";
    let cfg = build(s);
    let cond_branch_true = cfg.get_node(1).get_succs().contains(&2);
    let cond_branch_false = cfg.get_node(1).get_succs().contains(&4);
    assert!(cond_branch_true, "Cond did not branch to body");
    assert!(cond_branch_false, "Cond did not branch to after the body");
}

#[test]
fn succ_if() {
    let s = "i = 0;
        if ( a < 1337 ) {
            a = a+1;
            a = 2+1;
            a = a*2;
        }
        return a;";
    let cfg = build(s);
    // ------------------------------
    // node 0: assignment
    // node 1: cond (expr) - If
    // node 2: body (assignment)
    // node 3: body (assignment)
    // node 4: body (assignment)
    // node 5: return
    // ------------------------------
    let cond_is_after_initial = cfg.get_node(0).get_succs().contains(&1);
    let cond_branch_true = cfg.get_node(1).get_succs().contains(&2);
    let cond_branch_false = cfg.get_node(1).get_succs().contains(&5);
    let last_body_branch_to_rest = cfg.get_node(4).get_succs().contains(&5);
    let return_is_empty = cfg.get_node(5).get_succs().is_empty();
    assert!(
        cond_is_after_initial,
        "Node 0 did not continue to the condition (if)"
    );
    assert!(cond_branch_true, "Cond did not branch to body");
    assert!(cond_branch_false, "Cond did not branch to after the body");
    assert!(
        last_body_branch_to_rest,
        "Last node in body did not continue"
    );
    assert!(return_is_empty, "Last statment did have a successor");
}

// Pred test
#[test]
fn pred_if() {
    let s = "i = 0;
        if ( a < 1337 ) {
            a = a+1;
            a = 2+1;
            a = a*2;
        }
        return a;";
    let cfg = build(s);
    // ------------------------------
    // node 0: assignment
    // node 1: cond (expr) - If
    // node 2: body (assignment)
    // node 3: body (assignment)
    // node 4: body (assignment)
    // node 5: return
    // ------------------------------
    let no_pred_to_entry = cfg.get_node(0).get_preds().is_empty();
    let entry_to_cond = cfg.get_node(1).get_preds().contains(&0);
    let return_has_cond_preds = cfg.get_node(5).get_preds().contains(&1);
    let return_has_body_preds = cfg.get_node(5).get_preds().contains(&4);
    debug_nodes(cfg);
    assert!(no_pred_to_entry, "There was pred to the entry");
    assert!(entry_to_cond, "The entry was not a pred to the cond");
    assert!(
        return_has_cond_preds,
        "The false branch was not a pred to return"
    );
    assert!(
        return_has_body_preds,
        "The true branch (last node in the body) was not a pred to return"
    );
}

#[test]
fn pred_do_while() {
    let s = "a = 41;do {a = a+1;} while( a < 42 ); return a;";
    let cfg = build(s);
    // node 0: assignment
    // node 1: body (assignment)
    // node 2: cond (expr)
    // node 3: return
    let got1 = cfg.get_node(0).get_preds().is_empty();
    let got2 = cfg.get_node(1).get_preds().contains(&0);
    let got3 = cfg.get_node(1).get_preds().contains(&2);
    let got4 = cfg.get_node(2).get_preds().contains(&1);
    let got5 = cfg.get_node(3).get_preds().contains(&2);
    debug_nodes(cfg);
    assert!(got1, "Node 0 was not empty");
    assert!(got2, "Node 0 did not continue to the body");
    assert!(got3, "Node 2 did not loop back to the body");
    assert!(got4, "Node 1 did not continue to the cond");
    assert!(got5, "Node 2 did not continue to the return");
}

fn check_pred(cfg: &ControlFlowGraph, node_idx: usize, size: usize, wanted_vec: Vec<usize>) {
    assert_eq!(
        cfg.get_node(node_idx).get_preds().len(),
        size,
        "It was excepted to have size {size}"
    );
    assert_eq!(wanted_vec.len(), size, "Dev error!");
    for wanted in wanted_vec {
        assert!(
            cfg.get_node(node_idx).get_preds().contains(&wanted),
            "Node {wanted} was not a pred to Node {node_idx}"
        );
    }
}

#[test]
fn pred_book_ex() {
    let cfg = build(EXAMPLE_BOOK);
    //This is how it should be:
    //0: a = 0;
    //	pred: {}
    //1: b = a + 1;
    //	pred: {0, 4}
    //2: c = c + 1;
    //	pred: {1}
    //3: a = b * 2;
    //	pred: {2}
    //4: if a < 9
    //	pred: {3}
    //5: return c;
    //	pred: {4}

    // Node 0:
    assert_eq!(cfg.get_node(0).get_preds().len(), 0, "Node 0 was not empty");
    check_pred(&cfg, 0, 0, vec![]);
    // Node 1:
    check_pred(&cfg, 1, 2, vec![0, 4]);
    // Node 2:
    check_pred(&cfg, 2, 1, vec![1]);
    // Node 3:
    check_pred(&cfg, 3, 1, vec![2]);
    // Node 4:
    check_pred(&cfg, 4, 1, vec![3]);
    // Node 5:
    check_pred(&cfg, 5, 1, vec![4]);
}

fn check_succ(cfg: &ControlFlowGraph, node_idx: usize, size: usize, wanted_vec: Vec<usize>) {
    assert_eq!(wanted_vec.len(), size, "Dev error!");
    assert_eq!(
        cfg.get_node(node_idx).get_succs().len(),
        size,
        "It was excepted to have size {size}"
    );
    for wanted in wanted_vec {
        assert!(
            cfg.get_node(node_idx).get_succs().contains(&wanted),
            "Node {wanted} was not a succ to Node {node_idx}"
        );
    }
}

#[test]
fn succ_book_ex() {
    let cfg = build(EXAMPLE_BOOK);
    //This is how it should be:
    //0: a = 0;
    //	succ: {1}
    //1: b = a + 1;
    //	succ: {2}
    //2: c = c + 1;
    //	succ: {3}
    //3: a = b * 2;
    //	succ: {4}
    //4: if a < 9
    //	succ: {1, 5}
    //5: return c;
    //	succ: {}

    // Node 0:
    check_succ(&cfg, 0, 1, vec![1]);
    // Node 1:
    check_succ(&cfg, 1, 1, vec![2]);
    // Node 2:
    check_succ(&cfg, 2, 1, vec![3]);
    // Node 3:
    check_succ(&cfg, 3, 1, vec![4]);
    // Node 4:
    check_succ(&cfg, 4, 2, vec![1, 5]);
    // Node 5:
    check_succ(&cfg, 5, 0, vec![]);
}

// in and out tests
// in set
#[test]
fn in_set_contains_use() {
    let mut cfg = build("b = 41;a = b + 1;");
    cfg.fast_perform_liveness_analysis();
    let got_in = cfg.get_live_in(1);
    assert_eq!(
        got_in.len(),
        1,
        "Second node did not have exactly 1 live in variable"
    );
    assert!(
        got_in.contains(&String::from("b")),
        "Did not contain variable b"
    )
}

// out set
#[test]
fn out_set_succ() {
    let mut cfg = build("b = 41;a = b + 1;");
    cfg.fast_perform_liveness_analysis();
    let got_out = cfg.get_live_out(0);
    assert_eq!(
        got_out.len(),
        1,
        "First node did not have exactly 1 live in variable"
    );
    assert!(
        got_out.contains(&String::from("b")),
        "Did not contain variable b"
    )
}

// liveness book_ex
#[test]
fn liveranges_book_ex() {
    let mut cfg = build(EXAMPLE_BOOK);
    cfg.fast_perform_liveness_analysis();

    let c_live = cfg.get_live_range(String::from("c"));
    let b_live = cfg.get_live_range(String::from("b"));
    let a_live = cfg.get_live_range(String::from("a"));

    assert!(c_live.contains(&(0, 1)));
    assert!(c_live.contains(&(1, 2)));
    assert!(c_live.contains(&(2, 3)));
    assert!(c_live.contains(&(3, 4)));
    assert!(c_live.contains(&(4, 5)));
    assert!(c_live.contains(&(4, 1)));
    assert_eq!(c_live.len(), 6);

    assert!(b_live.contains(&(1, 2)));
    assert!(b_live.contains(&(2, 3)));
    assert_eq!(b_live.len(), 2);

    assert!(a_live.contains(&(0, 1)));
    assert!(a_live.contains(&(3, 4)));
    assert!(a_live.contains(&(4, 1)));
    assert!(!a_live.contains(&(1, 2)));
    assert!(!a_live.contains(&(2, 3)));
    assert_eq!(a_live.len(), 3);
}

// Scenario: `a = 42;` gives one node defining `a` and using nothing.
#[test]
fn scenario_single_assignment() {
    let cfg = build("a = 42;");
    assert_eq!(cfg.get_nodes().len(), 1);
    assert_eq!(cfg.get_node(0).get_defs(), &vec![String::from("a")]);
    assert!(cfg.get_node(0).get_uses().is_empty());
}

// Scenario: `b = 41; a = b + 1;` — defs, uses and liveness around `b`.
#[test]
fn scenario_two_assignments() {
    let mut cfg = build("b = 41; a = b + 1;");
    assert!(has(cfg.get_node(0).get_defs(), "b"));
    assert!(cfg.get_node(0).get_uses().is_empty());
    assert!(has(cfg.get_node(1).get_defs(), "a"));
    assert!(has(cfg.get_node(1).get_uses(), "b"));
    cfg.perform_liveness_analysis();
    assert_eq!(name_set(cfg.get_live_out(0)), name_set(&[String::from("b")]));
    assert_eq!(name_set(cfg.get_live_in(1)), name_set(&[String::from("b")]));
}

// Scenario: a while loop — the condition branches to the body start and to
// the first index after the loop; the final return has no successor; the
// body's last node loops back to the condition.
#[test]
fn scenario_while_loop() {
    let cfg = build("a = 0; while (a < 3) { a = a + 1; } return a;");
    // 0: a = 0; 1: cond; 2: body; 3: return
    assert_eq!(cfg.get_nodes().len(), 4);
    check_succ(&cfg, 1, 2, vec![2, 3]);
    check_succ(&cfg, 2, 1, vec![1]);
    check_succ(&cfg, 3, 0, vec![]);
}

// Scenario: a do-while loop — the body runs first, the condition follows it
// and branches back to the body start or out.
#[test]
fn scenario_do_while_loop() {
    let cfg = build("a = 41; do { a = a + 1; } while (a < 42); return a;");
    check_succ(&cfg, 0, 1, vec![1]);
    check_succ(&cfg, 1, 1, vec![2]);
    check_succ(&cfg, 2, 2, vec![1, 3]);
    check_succ(&cfg, 3, 0, vec![]);
}

// Scenario: the six-node book example — predecessors and the live range of
// `c` across every edge.
#[test]
fn scenario_book_example() {
    let mut cfg = build(EXAMPLE_BOOK);
    check_pred(&cfg, 1, 2, vec![0, 4]);
    check_pred(&cfg, 5, 1, vec![4]);
    cfg.fast_perform_liveness_analysis();
    let c_live = cfg.get_live_range(String::from("c"));
    let want: HashSet<(usize, usize)> =
        [(0, 1), (1, 2), (2, 3), (3, 4), (4, 5), (4, 1)].into_iter().collect();
    let got: HashSet<(usize, usize)> = c_live.into_iter().collect();
    assert_eq!(got, want);
}

// Node count: one node per assignment, return and condition, whatever the
// nesting.
#[test]
fn node_count_nested() {
    let s = "a = 0; while (a < 9) { if (a < 4) { a = a + 1; } b = a; } return b;";
    // constructs: a=0, while-cond, if-cond, a=a+1, b=a, return  -> 6 nodes
    let cfg = build(s);
    assert_eq!(cfg.get_nodes().len(), 6);
}

// An empty program flattens to no nodes.
#[test]
fn node_count_empty() {
    let cfg = build("");
    assert_eq!(cfg.get_nodes().len(), 0);
}

// Edge symmetry: j is a successor of i exactly when i is a predecessor of j.
#[test]
fn edge_symmetry_book_ex() {
    let cfg = build(EXAMPLE_BOOK);
    let n = cfg.get_nodes().len();
    for i in 0..n {
        for j in 0..n {
            let fwd = cfg.get_node(i).get_succs().contains(&j);
            let bwd = cfg.get_node(j).get_preds().contains(&i);
            assert_eq!(fwd, bwd, "edge ({i}, {j}) is not symmetric");
        }
    }
}

// A do-while at the very end of the program: the final condition node is the
// program exit, so its successors are cleared and the loop-back predecessor
// is removed with them.
#[test]
fn do_while_at_end_is_exit() {
    let cfg = build("a = 41; do { a = a + 1; } while (a < 42);");
    // 0: a = 41; 1: a = a + 1; 2: cond (exit)
    assert_eq!(cfg.get_nodes().len(), 3);
    assert!(cfg.get_node(2).get_succs().is_empty());
    check_pred(&cfg, 1, 1, vec![0]);
}

// Idempotence: re-running the analysis reproduces identical live sets.
#[test]
fn analysis_idempotent() {
    let mut cfg = build(EXAMPLE_BOOK);
    cfg.perform_liveness_analysis();
    let (in1, out1) = {
        let (i, o) = cfg.get_live_sets();
        (i.clone(), o.clone())
    };
    cfg.perform_liveness_analysis();
    let (in2, out2) = cfg.get_live_sets();
    assert_eq!(&in1, in2);
    assert_eq!(&out1, out2);
}

// Order independence: the increasing-order and decreasing-order analyses
// converge to the same live sets.
#[test]
fn analysis_order_independent() {
    let mut slow = build(EXAMPLE_BOOK);
    let mut fast = build(EXAMPLE_BOOK);
    slow.perform_liveness_analysis();
    fast.fast_perform_liveness_analysis();
    let n = slow.get_nodes().len();
    for i in 0..n {
        assert_eq!(name_set(slow.get_live_in(i)), name_set(fast.get_live_in(i)));
        assert_eq!(
            name_set(slow.get_live_out(i)),
            name_set(fast.get_live_out(i))
        );
    }
}

// Equation satisfaction: after convergence every node satisfies
// live-in = use ∪ (live-out − def) and live-out = ⋃ live-in over successors.
#[test]
fn analysis_satisfies_equations() {
    let mut cfg = build(EXAMPLE_BOOK);
    cfg.fast_perform_liveness_analysis();
    let n = cfg.get_nodes().len();
    for i in 0..n {
        let uses = name_set(cfg.get_node(i).get_uses());
        let defs = name_set(cfg.get_node(i).get_defs());
        let live_in = name_set(cfg.get_live_in(i));
        let live_out = name_set(cfg.get_live_out(i));
        let expect_in: HashSet<String> =
            uses.union(&live_out.difference(&defs).cloned().collect()).cloned().collect();
        assert_eq!(live_in, expect_in, "live-in equation fails at node {i}");
        let mut expect_out: HashSet<String> = HashSet::new();
        for s in cfg.get_node(i).get_succs() {
            for v in cfg.get_live_in(*s) {
                expect_out.insert(v.clone());
            }
        }
        assert_eq!(live_out, expect_out, "live-out equation fails at node {i}");
    }
}

// The graph description of a one-node program.
#[test]
fn dot_single_assignment() {
    let cfg = build("a = 42;");
    let dot = cfg.generate_dot();
    assert_eq!(
        dot,
        "digraph CFG {\n\tnode [shape=rectangle];\n\n\tblock0 [label=\"a = 42\"];\n\n}"
    );
}

// The graph description carries live variables on the edges once liveness
// has been computed.
#[test]
fn dot_with_liveness() {
    let mut cfg = build("b = 1; return b;");
    cfg.perform_liveness_analysis();
    let dot = cfg.generate_dot();
    assert_eq!(
        dot,
        "digraph CFG {\n\tnode [shape=rectangle];\n\n\tblock0 [label=\"b = 1\"];\n\tblock1 [label=\"return b\"];\n\n\tblock0 -> block1 [label=\"b\"];\n}"
    );
}

// Node mutators keep their sets consistent.
#[test]
fn node_mutators() {
    let mut n = live_crab::liveness::Node::new(0, make_return(Expr::Id("x".to_string())));
    n.insert_use(String::from("x"));
    n.insert_use(String::from("x"));
    assert_eq!(n.get_uses().len(), 1);
    assert!(n.contains_use(String::from("x")));
    n.insert_def(String::from("y"));
    assert!(n.contains_def(String::from("y")));
    n.add_succ(3);
    n.add_succ(3);
    assert_eq!(n.get_succs(), &vec![3]);
    n.add_pred(1);
    n.set_pred(vec![7, 8]);
    assert_eq!(n.get_preds(), &vec![7, 8]);
    n.clear_pred();
    assert!(n.get_preds().is_empty());
    n.set_succ(vec![5]);
    assert_eq!(n.get_succs(), &vec![5]);
    n.clear_succ();
    assert!(n.get_succs().is_empty());
    n.use_extend(vec![String::from("p"), String::from("q"), String::from("p")]);
    assert_eq!(n.get_uses().len(), 3);
}

// get_ids_from_expr yields identifiers in pre-order with repetitions.
#[test]
fn ids_from_expr_preorder() {
    let e = Box::new(Expr::BinOp(
        Box::new(Expr::Id("a".to_string())),
        Operator::Plus,
        Box::new(Expr::BinOp(
            Box::new(Expr::Id("b".to_string())),
            Operator::Mult,
            Box::new(Expr::Id("a".to_string())),
        )),
    ));
    let ids = live_crab::liveness::get_ids_from_expr(e);
    assert_eq!(
        ids,
        vec![String::from("a"), String::from("b"), String::from("a")]
    );
}

// An empty graph can be made and analyzed.
#[test]
fn empty_graph_analysis() {
    let mut cfg = ControlFlowGraph::new();
    cfg.perform_liveness_analysis();
    let (li, lo) = cfg.get_live_sets();
    assert!(li.is_empty());
    assert!(lo.is_empty());
}
