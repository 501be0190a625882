use r2deob::ast::Expression;
use r2deob::calc::Operator;
use r2deob::engine::TraceMatrix;

fn matrix(cols: Vec<(&str, Vec<i64>)>) -> TraceMatrix {
    let names: Vec<String> = cols.iter().map(|c| c.0.to_string()).collect();
    let mut m = TraceMatrix::new(&names);
    let n = cols[0].1.len();
    for row in 0..n {
        let values: Vec<i64> = cols.iter().map(|c| c.1[row]).collect();
        m.push_row(&values);
    }
    m
}

#[test]
fn test_derive() {
    let combinations = Expression::combinations(
        &vec!["rax".to_string(), "rbx".to_string()],
        &vec![Operator::Add, Operator::Sub],
    );
    let _ = Expression::NonTerminal.derive(&combinations);
}

#[test]
fn test_format() {
    let ast = Expression::Operation(
        Operator::Add,
        Box::new(Expression::Terminal("rax".to_string())),
        Box::new(Expression::Operation(
            Operator::Sub,
            Box::new(Expression::NonTerminal),
            Box::new(Expression::NonTerminal),
        )),
    );
    assert_eq!("(+ rax (- U U))", ast.prefix_notation());
}

#[test]
fn test_math_notation() {
    let ast = Expression::Operation(
        Operator::Add,
        Box::new(Expression::Terminal("rax".to_string())),
        Box::new(Expression::Operation(
            Operator::Sub,
            Box::new(Expression::NonTerminal),
            Box::new(Expression::NonTerminal),
        )),
    );
    assert_eq!("(rax + (U - U))", ast.math_notation());
}

#[test]
fn test_eval_easy() {
    let ast = Expression::Terminal("rax".to_string());
    let inputs = matrix(vec![("rax", vec![1, 2, 3])]);
    let result = ast.eval(&inputs).unwrap();
    assert!(result == vec![1, 2, 3], "Test result was: {:?}", result);
}

#[test]
fn test_eval_add_sub() {
    let ast = Expression::Operation(
        Operator::Add,
        Box::new(Expression::Terminal("rax".to_string())),
        Box::new(Expression::Operation(
            Operator::Sub,
            Box::new(Expression::Terminal("rbx".to_string())),
            Box::new(Expression::Terminal("rcx".to_string())),
        )),
    );
    let inputs = matrix(vec![
        ("rax", vec![1, 2, 3, 1, 1, 1, 1, 1]),
        ("rbx", vec![1, 4, 9, 1, 1, 1, 1, 1]),
        ("rcx", vec![1, 2, 3, 1, 1, 1, 1, 1]),
    ]);
    let result = ast.eval(&inputs).unwrap();
    assert!(result == vec![1, 4, 9, 1, 1, 1, 1, 1], "Test result was: {:?}", result);
}

#[test]
fn test_eval_mul_div() {
    let ast = Expression::Operation(
        Operator::Mul,
        Box::new(Expression::Terminal("rax".to_string())),
        Box::new(Expression::Operation(
            Operator::Div,
            Box::new(Expression::Terminal("rbx".to_string())),
            Box::new(Expression::Terminal("rcx".to_string())),
        )),
    );
    let inputs = matrix(vec![
        ("rax", vec![1, 2, 3, 1, 1, 1, 1, 1]),
        ("rbx", vec![1, 4, 9, 1, 1, 1, 1, 1]),
        ("rcx", vec![1, 2, 3, 1, 1, 1, 1, 1]),
    ]);
    let result = ast.eval(&inputs).unwrap();
    assert!(result == vec![1, 4, 9, 1, 1, 1, 1, 1], "Test result was: {:?}", result);
}

#[test]
fn combinations_order_single_register() {
    let terms = Expression::combinations(&vec!["a".to_string()], &vec![Operator::Add]);
    let rendered: Vec<String> = terms.iter().map(|t| t.prefix_notation()).collect();
    assert_eq!(rendered, vec!["a", "(+ a U)", "(+ U a)", "(+ U U)"]);
}

#[test]
fn combinations_counts_registers_and_operators() {
    let regs = vec!["a".to_string(), "b".to_string(), "c".to_string()];
    let ops = vec![Operator::Add, Operator::Sub, Operator::Mul, Operator::Div];
    let terms = Expression::combinations(&regs, &ops);
    // each register: one terminal and two mixes per operator; then one
    // two-hole operation per operator
    assert_eq!(terms.len(), 3 * (1 + 2 * 4) + 4);
}

#[test]
fn derive_len_is_holes_times_terms() {
    // (U - U) has two holes
    let e = Expression::Operation(
        Operator::Sub,
        Box::new(Expression::NonTerminal),
        Box::new(Expression::NonTerminal),
    );
    let terms = Expression::combinations(
        &vec!["a".to_string(), "b".to_string()],
        &vec![Operator::Add],
    );
    assert_eq!(terms.len(), 7);
    assert_eq!(e.derive(&terms).len(), 2 * 7);
    // a finite expression derives nothing
    let t = Expression::Terminal("a".to_string());
    assert_eq!(t.derive(&terms).len(), 0);
}

#[test]
fn eval_is_some_iff_finite() {
    let inputs = matrix(vec![("a", vec![5, 6])]);
    let finite = Expression::Operation(
        Operator::Add,
        Box::new(Expression::Terminal("a".to_string())),
        Box::new(Expression::Terminal("a".to_string())),
    );
    assert!(finite.is_finite());
    assert!(finite.eval(&inputs).is_some());
    let open_expr = Expression::Operation(
        Operator::Add,
        Box::new(Expression::Terminal("a".to_string())),
        Box::new(Expression::NonTerminal),
    );
    assert!(!open_expr.is_finite());
    assert!(open_expr.eval(&inputs).is_none());
    // a finite expression over an unknown register has no value either
    let unknown = Expression::Terminal("z".to_string());
    assert!(unknown.is_finite());
    assert!(unknown.eval(&inputs).is_none());
}

#[test]
fn eval_length_matches_trace_width() {
    let inputs = matrix(vec![("a", vec![1, 2, 3, 4, 5]), ("b", vec![5, 4, 3, 2, 1])]);
    let e = Expression::Operation(
        Operator::Mul,
        Box::new(Expression::Terminal("a".to_string())),
        Box::new(Expression::Terminal("b".to_string())),
    );
    let result = e.eval(&inputs).unwrap();
    assert_eq!(result.len(), 5);
    assert_eq!(result, vec![5, 8, 9, 8, 5]);
}
