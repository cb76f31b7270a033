use blockscope::interp::{Interpreter, Report, Stmt};

fn run(stmts: Vec<Stmt>) -> Vec<Report> {
    let mut interpreter = Interpreter::new();
    let mut reports: Vec<Report> = Vec::new();
    for stmt in &stmts {
        interpreter.execute(stmt, &mut reports);
    }
    reports
}

fn expect_printed(report: &Report, name: &str, value: Option<i32>) {
    match report {
        Report::Printed(n, v) => {
            assert_eq!(n, name);
            assert_eq!(*v, value);
        },
        Report::UndefinedAssign(n) => {
            panic!("expected a print of {}, got a failed assignment of {}", name, n)
        },
    }
}

fn expect_undefined_assign(report: &Report, name: &str) {
    match report {
        Report::UndefinedAssign(n) => assert_eq!(n, name),
        Report::Printed(n, _) => {
            panic!("expected a failed assignment of {}, got a print of {}", name, n)
        },
    }
}

#[test]
fn let_then_print_reports_the_bound_value() {
    let reports = run(vec![Stmt::Let("n".to_string(), 5), Stmt::Print("n".to_string())]);
    assert_eq!(reports.len(), 1);
    expect_printed(&reports[0], "n", Some(5));
}

#[test]
fn shadowing_hides_but_does_not_alter_the_outer_binding() {
    let reports = run(vec![
        Stmt::Let("n".to_string(), 1),
        Stmt::Block(vec![Stmt::Let("n".to_string(), 2), Stmt::Print("n".to_string())]),
        Stmt::Print("n".to_string()),
    ]);
    assert_eq!(reports.len(), 2);
    expect_printed(&reports[0], "n", Some(2));
    expect_printed(&reports[1], "n", Some(1));
}

#[test]
fn assignment_inside_a_block_reaches_the_outer_binding() {
    let reports = run(vec![
        Stmt::Let("n".to_string(), 1),
        Stmt::Block(vec![Stmt::Assign("n".to_string(), 9), Stmt::Print("n".to_string())]),
        Stmt::Print("n".to_string()),
    ]);
    assert_eq!(reports.len(), 2);
    expect_printed(&reports[0], "n", Some(9));
    expect_printed(&reports[1], "n", Some(9));
}

#[test]
fn undefined_print_reports_and_execution_continues() {
    let reports = run(vec![
        Stmt::Print("n".to_string()),
        Stmt::Let("m".to_string(), 3),
        Stmt::Print("m".to_string()),
    ]);
    assert_eq!(reports.len(), 2);
    expect_printed(&reports[0], "n", None);
    expect_printed(&reports[1], "m", Some(3));
}

#[test]
fn undefined_assignment_reports_and_binds_nothing() {
    let reports = run(vec![
        Stmt::Assign("n".to_string(), 5),
        Stmt::Print("n".to_string()),
    ]);
    assert_eq!(reports.len(), 2);
    expect_undefined_assign(&reports[0], "n");
    expect_printed(&reports[1], "n", None);
}

#[test]
fn names_defined_in_a_block_vanish_when_it_exits() {
    let reports = run(vec![
        Stmt::Block(vec![
            Stmt::Let("inner".to_string(), 2),
            Stmt::Print("inner".to_string()),
        ]),
        Stmt::Print("inner".to_string()),
    ]);
    assert_eq!(reports.len(), 2);
    expect_printed(&reports[0], "inner", Some(2));
    expect_printed(&reports[1], "inner", None);
}

#[test]
fn empty_block_is_a_no_op() {
    let reports = run(vec![
        Stmt::Let("n".to_string(), 1),
        Stmt::Block(vec![]),
        Stmt::Print("n".to_string()),
    ]);
    assert_eq!(reports.len(), 1);
    expect_printed(&reports[0], "n", Some(1));
}

#[test]
fn deeply_nested_blocks_restore_each_scope_in_turn() {
    let reports = run(vec![
        Stmt::Let("n".to_string(), 1),
        Stmt::Block(vec![
            Stmt::Let("n".to_string(), 2),
            Stmt::Block(vec![
                Stmt::Let("n".to_string(), 3),
                Stmt::Print("n".to_string()),
            ]),
            Stmt::Print("n".to_string()),
        ]),
        Stmt::Print("n".to_string()),
    ]);
    assert_eq!(reports.len(), 3);
    expect_printed(&reports[0], "n", Some(3));
    expect_printed(&reports[1], "n", Some(2));
    expect_printed(&reports[2], "n", Some(1));
}

#[test]
fn end_to_end_scenario() {
    let reports = run(vec![
        Stmt::Let("a".to_string(), 1),
        Stmt::Let("c".to_string(), 4),
        Stmt::Block(vec![
            Stmt::Let("a".to_string(), 2),
            Stmt::Let("b".to_string(), 3),
            Stmt::Assign("c".to_string(), 5),
            Stmt::Assign("d".to_string(), 6),
            Stmt::Print("a".to_string()),
            Stmt::Print("b".to_string()),
            Stmt::Print("c".to_string()),
            Stmt::Print("d".to_string()),
        ]),
        Stmt::Print("a".to_string()),
        Stmt::Print("b".to_string()),
        Stmt::Print("c".to_string()),
    ]);
    assert_eq!(reports.len(), 8);
    expect_undefined_assign(&reports[0], "d");
    expect_printed(&reports[1], "a", Some(2));
    expect_printed(&reports[2], "b", Some(3));
    expect_printed(&reports[3], "c", Some(5));
    expect_printed(&reports[4], "d", None);
    expect_printed(&reports[5], "a", Some(1));
    expect_printed(&reports[6], "b", None);
    expect_printed(&reports[7], "c", Some(5));
}

#[test]
fn default_interpreter_behaves_like_a_new_one() {
    let mut interpreter = Interpreter::default();
    let mut reports: Vec<Report> = Vec::new();
    interpreter.execute(&Stmt::Let("n".to_string(), 1), &mut reports);
    interpreter.execute(&Stmt::Print("n".to_string()), &mut reports);
    assert_eq!(reports.len(), 1);
    expect_printed(&reports[0], "n", Some(1));
}
