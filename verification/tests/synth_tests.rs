use r2deob::ast::Expression;
use r2deob::calc::Operator;
use r2deob::engine::{FcnConfig, Session, Synthesiser, TraceMatrix};
use r2deob::score::{Score, SCALE};
use r2deob::synth_tree::{pop_best, QueueScore, SynthResult, Synthesis, WorkerTask};

fn matrix(cols: Vec<(&str, Vec<i64>)>) -> TraceMatrix {
    let names: Vec<String> = cols.iter().map(|c| c.0.to_string()).collect();
    let mut m = TraceMatrix::new(&names);
    let n = cols[0].1.len();
    for row in 0..n {
        let values: Vec<i64> = cols.iter().map(|c| c.1[row]).collect();
        m.push_row(&values);
    }
    m
}

fn names(regs: &[&str]) -> Vec<String> {
    regs.iter().map(|r| r.to_string()).collect()
}

#[test]
fn worker_test_finite_perfect_expression() {
    let ast = Expression::Operation(
        Operator::Add,
        Box::new(Expression::Terminal("rax".to_string())),
        Box::new(Expression::Operation(
            Operator::Sub,
            Box::new(Expression::Terminal("rbx".to_string())),
            Box::new(Expression::Terminal("rcx".to_string())),
        )),
    );
    let inputs = matrix(vec![
        ("rax", vec![1, 2, 3, 4, 5, 6, 7, 8]),
        ("rbx", vec![1, 2, 3, 4, 5, 6, 7, 8]),
        ("rcx", vec![1, 2, 3, 4, 5, 6, 7, 8]),
    ]);
    let result = WorkerTask::work(&inputs, &vec![1, 2, 3, 4, 5, 6, 7, 8], &ast);
    assert_eq!(result.score, Score::Combined(SCALE));
}

#[test]
fn worker_reports_unsat_for_open_expression() {
    let inputs = matrix(vec![("rax", vec![1, 2])]);
    let result = WorkerTask::work(&inputs, &vec![1, 2], &Expression::NonTerminal);
    assert_eq!(result.score, Score::UnSat);
}

#[test]
fn synthesize_addition() {
    // registers ["a","b"], ops {Add}: the winner reproduces y = a + b
    let inputs = matrix(vec![("a", vec![1, 2, 3, 4]), ("b", vec![10, 20, 30, 40])]);
    let outputs = vec![11, 22, 33, 44];
    let mut synthesis = Synthesis::new(&names(&["a", "b"]), &vec![Operator::Add], 64, 8, 32);
    let result = synthesis.synthesize(&inputs, &outputs);
    let winner = result.winner.expect("a winner was expected");
    assert_eq!(winner.eval(&inputs).unwrap(), outputs);
    assert_eq!(result.best_score, SCALE);
}

#[test]
fn synthesize_add_sub_trivial_identity() {
    // y equals register a itself, so a perfect candidate exists
    let inputs = matrix(vec![
        ("a", vec![20, 10]),
        ("b", vec![2, 2]),
        ("c", vec![2, 2]),
    ]);
    let outputs = vec![20, 10];
    let mut synthesis = Synthesis::new(
        &names(&["a", "b", "c"]),
        &vec![Operator::Add, Operator::Sub],
        64,
        8,
        32,
    );
    let result = synthesis.synthesize(&inputs, &outputs);
    let winner = result.winner.expect("a winner was expected");
    assert_eq!(winner.eval(&inputs).unwrap(), outputs);
    assert_eq!(result.best_score, SCALE);
}

#[test]
fn synthesize_square() {
    // registers ["x"], ops {Mul}: the winner reproduces y = x * x
    let inputs = matrix(vec![("x", vec![0, 1, 2, 3])]);
    let outputs = vec![0, 1, 4, 9];
    let mut synthesis = Synthesis::new(&names(&["x"]), &vec![Operator::Mul], 64, 8, 32);
    let result = synthesis.synthesize(&inputs, &outputs);
    let winner = result.winner.expect("a winner was expected");
    assert_eq!(winner.eval(&inputs).unwrap(), outputs);
}

#[test]
fn synthesize_all_zero_divisions() {
    // the division convention makes an all-zero trace satisfiable
    let inputs = matrix(vec![("a", vec![0, 0, 0])]);
    let outputs = vec![0, 0, 0];
    let mut synthesis = Synthesis::new(&names(&["a"]), &vec![Operator::Div], 64, 8, 32);
    let result = synthesis.synthesize(&inputs, &outputs);
    let winner = result.winner.expect("a winner was expected");
    assert_eq!(winner.eval(&inputs).unwrap(), outputs);
}

#[test]
fn synthesize_without_operators_stops_at_once() {
    let inputs = matrix(vec![("a", vec![1, 2])]);
    let outputs = vec![1, 2];
    let mut synthesis = Synthesis::new(&names(&["a"]), &Vec::new(), 64, 8, 32);
    let result = synthesis.synthesize(&inputs, &outputs);
    assert!(result.winner.is_none());
    assert_eq!(result.expanded_nodes, 0);
    assert_eq!(synthesis.tree.len(), 1);
}

#[test]
fn synthesize_again_returns_same_winner() {
    // a session that already holds its winner returns it again
    let inputs = matrix(vec![("a", vec![1, 2, 3, 4]), ("b", vec![10, 20, 30, 40])]);
    let outputs = vec![11, 22, 33, 44];
    let mut synthesis = Synthesis::new(&names(&["a", "b"]), &vec![Operator::Add], 64, 8, 32);
    let first = synthesis.synthesize(&inputs, &outputs);
    let second = synthesis.synthesize(&inputs, &outputs);
    let w1 = first.winner.expect("a winner was expected");
    let w2 = second.winner.expect("a winner was expected on the re-run");
    assert_eq!(w1.math_notation(), w2.math_notation());
    assert_eq!(second.expanded_nodes, 0);
}

#[test]
fn tree_structure_invariants_hold_after_search() {
    let inputs = matrix(vec![("a", vec![1, 2, 3, 4]), ("b", vec![10, 20, 30, 40])]);
    let outputs = vec![11, 22, 33, 44];
    let mut synthesis = Synthesis::new(&names(&["a", "b"]), &vec![Operator::Add], 8, 4, 32);
    let _ = synthesis.synthesize(&inputs, &outputs);
    assert!(synthesis.tree.len() > 1);
    for (i, node) in synthesis.tree.iter().enumerate() {
        // every node records its position; the root is its own parent and
        // every other node's parent lies strictly before it
        assert_eq!(node.index, i);
        if i == 0 {
            assert_eq!(node.prev, 0);
        } else {
            assert!(node.prev < i);
            // the parent's child list holds this node
            assert!(synthesis.tree[node.prev].next.contains(&i));
        }
        // children lie strictly after their parent and point back to it
        for &c in node.next.iter() {
            assert!(c > i && c < synthesis.tree.len());
            assert_eq!(synthesis.tree[c].prev, i);
        }
        // only expressions with holes were ever expanded
        if !node.next.is_empty() {
            assert!(!node.expression.is_finite());
        }
        assert!(node.score <= SCALE);
    }
}

#[test]
fn finite_leaf_scores_equal_recomputation() {
    let inputs = matrix(vec![("x", vec![0, 1, 2, 3])]);
    let outputs = vec![0, 1, 4, 9];
    let mut synthesis = Synthesis::new(&names(&["x"]), &vec![Operator::Mul], 8, 4, 32);
    let _ = synthesis.synthesize(&inputs, &outputs);
    let mut checked = 0;
    for node in synthesis.tree.iter() {
        if node.expression.is_finite() {
            assert!(node.next.is_empty());
            let cols = node.expression.eval(&inputs).unwrap();
            assert_eq!(Score::get(&cols, &outputs), Score::Combined(node.score));
            checked += 1;
        }
    }
    assert!(checked > 0);
}

#[test]
fn rebuild_queue_holds_exactly_the_childless_nodes() {
    let inputs = matrix(vec![("a", vec![1, 2, 3, 4]), ("b", vec![10, 20, 30, 40])]);
    let outputs = vec![11, 22, 33, 44];
    let mut synthesis = Synthesis::new(&names(&["a", "b"]), &vec![Operator::Add], 4, 2, 32);
    let _ = synthesis.synthesize(&inputs, &outputs);
    synthesis.rebuild_queue();
    let mut expected: Vec<QueueScore> = Vec::new();
    for (i, node) in synthesis.tree.iter().enumerate() {
        if node.next.is_empty() {
            expected.push(QueueScore(node.score, i));
        }
    }
    assert_eq!(synthesis.queue, expected);
}

#[test]
fn pop_best_orders_by_score_then_index() {
    let mut queue = vec![
        QueueScore(10, 3),
        QueueScore(40, 7),
        QueueScore(40, 2),
        QueueScore(5, 1),
    ];
    assert_eq!(pop_best(&mut queue), Some(QueueScore(40, 2)));
    assert_eq!(pop_best(&mut queue), Some(QueueScore(40, 7)));
    assert_eq!(pop_best(&mut queue), Some(QueueScore(10, 3)));
    assert_eq!(pop_best(&mut queue), Some(QueueScore(5, 1)));
    assert_eq!(pop_best(&mut queue), None);
}

#[test]
fn update_applies_drained_results() {
    let regs = names(&["a"]);
    let mut synthesis = Synthesis::new(&regs, &vec![Operator::Add], 4, 1, 32);
    let inputs = matrix(vec![("a", vec![1, 2])]);
    let outputs = vec![9, 9];
    // expand the root once so there are scored children to overwrite
    let _ = synthesis.synthesize(&inputs, &outputs);
    let target = synthesis.tree.len() - 1;
    let winner = synthesis.update(&vec![(SCALE / 2, target), (SCALE, target)]);
    assert_eq!(winner, Some(target));
    assert_eq!(synthesis.tree[target].score, SCALE);
    let none = synthesis.update(&vec![(SCALE / 4, target)]);
    assert_eq!(none, None);
}

#[test]
fn update_clamps_scores_and_drops_unknown_nodes() {
    let regs = names(&["a"]);
    let mut synthesis = Synthesis::new(&regs, &vec![Operator::Add], 4, 1, 32);
    let inputs = matrix(vec![("a", vec![1, 2])]);
    let outputs = vec![9, 9];
    let _ = synthesis.synthesize(&inputs, &outputs);
    let target = synthesis.tree.len() - 1;
    // a result naming no node is dropped; an oversized score clamps to SCALE
    let winner = synthesis.update(&vec![(SCALE, synthesis.tree.len() + 7), (2 * SCALE, target)]);
    assert_eq!(winner, Some(target));
    assert_eq!(synthesis.tree[target].score, SCALE);
}

#[test]
fn session_deobfuscate_finds_addition() {
    let mut session = Session::init(FcnConfig {
        path: "target/binary".to_string(),
        loc: "sym.calc".to_string(),
        len: "12".to_string(),
        input_regs: names(&["esi", "edi"]),
        output_reg: "rax".to_string(),
    });
    for (a, b) in [(1i64, 2i64), (5, 7), (10, 30), (100, 1)] {
        session
            .add_trace(
                &vec![("esi".to_string(), a), ("edi".to_string(), b)],
                a + b,
            )
            .unwrap();
    }
    let inputs = session.traces.inputs.cols.clone();
    let (result, search): (SynthResult, Synthesis) = session.deobfuscate(Synthesiser::Tree);
    let winner = result.winner.expect("a winner was expected");
    let m = TraceMatrix { cols: inputs };
    assert_eq!(winner.eval(&m).unwrap(), vec![3, 12, 40, 101]);
    assert_eq!(result.expanded_nodes, search.tree.len() - 1);
}
