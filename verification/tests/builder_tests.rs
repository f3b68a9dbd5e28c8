use cwc::ast::{AssignmentLhs, ExportStmt, Expression, ImportPath, Primary, Statement};
use cwc::ast_builder::{get_expr_span, program_builds_to_end, AstBuilder, ParseNode, Rule};
use cwc::frontend_types::Span;
use cwc::parser::{build_file, fatal_syntax_error};

fn leaf(rule: Rule, text: &str, start: usize) -> ParseNode {
    ParseNode { rule, text: text.to_string(), span: Span { start, end: start + text.len() }, children: Vec::new() }
}

fn node(rule: Rule, text: &str, start: usize, children: Vec<ParseNode>) -> ParseNode {
    ParseNode { rule, text: text.to_string(), span: Span { start, end: start + text.len() }, children }
}

fn show(e: &Expression) -> String {
    match e {
        Expression::Primary(p) => show_primary(p),
        Expression::Infix { lhs, op, rhs, .. } => format!("({}{}{})", show(lhs), op, show(rhs)),
    }
}

fn show_primary(p: &Primary) -> String {
    match p {
        Primary::Number(t, _) => t.clone(),
        Primary::PathIdentifier(path, _) => path.join("::"),
        Primary::Expression(e, _) => format!("[{}]", show(e)),
        Primary::AbsVal(e, _) => format!("|{}|", show(e)),
        Primary::FuncCall { target, args, .. } => {
            format!("{}({})", show_primary(target), args.iter().map(show).collect::<Vec<_>>().join(","))
        },
        Primary::List(items, _) => format!("[{}]", items.iter().map(show_primary).collect::<Vec<_>>().join(",")),
        Primary::StringLit(s) => format!("\"{}\"", s.value),
        _ => "?".to_string(),
    }
}

/// `a op b op c ...` as an expression node, each operand a number or a name.
fn expr(parts: &[&str]) -> ParseNode {
    let mut children = Vec::new();
    let mut pos = 0;
    for (i, p) in parts.iter().enumerate() {
        let rule = if i % 2 == 1 {
            match *p {
                "+" | "-" => Rule::AddOp,
                "*" | "/" => Rule::MulOp,
                "^" => Rule::Power,
                _ => Rule::CompOp,
            }
        } else if p.chars().next().unwrap().is_ascii_digit() {
            Rule::Number
        } else {
            Rule::PathIdentifier
        };
        children.push(leaf(rule, p, pos));
        pos += p.len() + 1;
    }
    node(Rule::Expression, &parts.join(" "), 0, children)
}

fn build(e: &ParseNode) -> Expression {
    let mut b = AstBuilder::new();
    b.build_expression(e).unwrap()
}

#[test]
fn products_bind_tighter_than_sums() {
    assert_eq!(show(&build(&expr(&["1", "+", "2", "*", "3"]))), "(1+(2*3))");
    assert_eq!(show(&build(&expr(&["1", "*", "2", "+", "3"]))), "((1*2)+3)");
}

#[test]
fn sums_group_to_the_left_and_powers_to_the_right() {
    assert_eq!(show(&build(&expr(&["1", "-", "2", "-", "3"]))), "((1-2)-3)");
    assert_eq!(show(&build(&expr(&["2", "^", "3", "^", "2"]))), "(2^(3^2))");
}

#[test]
fn comparisons_bind_loosest() {
    assert_eq!(show(&build(&expr(&["a", "<", "b", "+", "1", "^", "2"]))), "(a<(b+(1^2)))");
}

#[test]
fn infix_span_runs_from_first_to_last_operand() {
    let e = build(&expr(&["10", "+", "2", "*", "345"]));
    assert_eq!(get_expr_span(&e), Span { start: 0, end: 12 });
}

#[test]
fn operands_go_down_to_the_first_operand_rule() {
    // term -> factor -> number
    let inner = node(Rule::Other("factor".to_string()), "7", 0, vec![leaf(Rule::Number, "7", 0)]);
    let term = node(Rule::Other("term".to_string()), "7", 0, vec![inner]);
    let e = node(Rule::Expression, "7", 0, vec![term]);
    assert_eq!(show(&build(&e)), "7");
}

#[test]
fn unknown_operand_becomes_zero_with_an_error() {
    let e = node(Rule::Expression, "?", 0, vec![leaf(Rule::Other("weird".to_string()), "?", 4)]);
    let mut b = AstBuilder::new();
    let built = b.build_expression(&e).unwrap();
    assert_eq!(show(&built), "0");
    assert_eq!(b.errors.len(), 1);
    assert_eq!(b.errors[0].message, "Unknown primary token: weird");
    assert_eq!(b.errors[0].span, Span { start: 4, end: 5 });
}

#[test]
fn invalid_number_is_an_error() {
    let e = expr(&["1.2.3"]);
    let mut b = AstBuilder::new();
    let built = b.build_expression(&e).unwrap();
    assert_eq!(show(&built), "0");
    assert_eq!(b.errors[0].message, "Invalid number format");
}

#[test]
fn parenthesised_expression_stands_for_itself() {
    let inner = expr(&["1", "+", "2"]);
    let e = node(Rule::Expression, "(1 + 2) * 3", 0, vec![inner, leaf(Rule::MulOp, "*", 8), leaf(Rule::Number, "3", 10)]);
    assert_eq!(show(&build(&e)), "((1+2)*3)");
}

#[test]
fn function_calls_lists_and_strings() {
    let call = node(
        Rule::FuncCall,
        "f(x, 2)",
        0,
        vec![leaf(Rule::PathIdentifier, "m::f", 0), expr(&["x"]), expr(&["2"])],
    );
    let list = node(Rule::List, "[1, q]", 0, vec![leaf(Rule::Number, "1", 1), leaf(Rule::PathIdentifier, "q", 4)]);
    let string = node(Rule::StringLit, "\"hi\"", 0, vec![leaf(Rule::Other("inner".to_string()), "hi", 1)]);
    let e = node(
        Rule::Expression,
        "",
        0,
        vec![call, leaf(Rule::AddOp, "+", 0), list, leaf(Rule::AddOp, "+", 0), string],
    );
    assert_eq!(show(&build(&e)), "((m::f(x,2)+[1,q])+\"hi\")");
}

fn declare(name: &str, value: &[&str]) -> ParseNode {
    let lhs = node(Rule::Other("assignment_lhs".to_string()), name, 0, vec![leaf(Rule::PathIdentifier, name, 0)]);
    node(Rule::Declare, "", 0, vec![lhs, leaf(Rule::Other("assign_op".to_string()), "=", 0), expr(value)])
}

fn import(segments: &[&str], star: bool) -> ParseNode {
    let mut parts: Vec<ParseNode> = segments.iter().map(|s| leaf(Rule::Identifier, s, 0)).collect();
    if star {
        parts.push(leaf(Rule::Asterix, "*", 0));
    }
    node(Rule::ImportStmt, "", 0, vec![node(Rule::ImportPath, "", 0, parts)])
}

#[test]
fn program_statements_and_dependencies() {
    let root = node(
        Rule::Program,
        "",
        0,
        vec![
            import(&["lib", "util"], true),
            declare("a::b", &["1"]),
            leaf(Rule::Eoi, "", 0),
            declare("ignored", &["2"]),
        ],
    );
    assert!(program_builds_to_end(&root));
    let (program, errors, deps) = build_file(&root);
    let program = program.unwrap();
    assert!(errors.is_empty());
    assert_eq!(deps, vec![vec!["lib/util.cara".to_string(), "lib.cara".to_string()]]);
    assert_eq!(program.statements.len(), 2);
    match &program.statements[0] {
        Statement::Import(i) => match &i.path {
            ImportPath::Path(segs, star) => {
                assert_eq!(segs, &vec!["lib".to_string(), "util".to_string()]);
                assert!(*star);
            },
            _ => panic!("not a path"),
        },
        _ => panic!("not an import"),
    }
    match &program.statements[1] {
        Statement::Declare(d) => match &d.lhs {
            AssignmentLhs::PathIdentifier { path, .. } => assert_eq!(path, &vec!["a".to_string(), "b".to_string()]),
            _ => panic!("not a path"),
        },
        _ => panic!("not a declaration"),
    }
}

#[test]
fn function_head_keeps_its_parameters() {
    let head = node(
        Rule::FuncDecl,
        "",
        0,
        vec![leaf(Rule::PathIdentifier, "f", 0), leaf(Rule::Identifier, "x", 0), leaf(Rule::Identifier, "y", 0)],
    );
    let lhs = node(Rule::Other("assignment_lhs".to_string()), "", 0, vec![head]);
    let decl = node(Rule::Declare, "", 0, vec![lhs, leaf(Rule::Other("assign_op".to_string()), "=", 0), expr(&["x"])]);
    let root = node(Rule::Program, "", 0, vec![decl]);
    let (program, _, _) = build_file(&root);
    match &program.unwrap().statements[0] {
        Statement::Declare(d) => match &d.lhs {
            AssignmentLhs::FuncDecl { name, args, .. } => {
                assert_eq!(name, &vec!["f".to_string()]);
                assert_eq!(args, &vec!["x".to_string(), "y".to_string()]);
            },
            _ => panic!("not a function head"),
        },
        _ => panic!("not a declaration"),
    }
}

#[test]
fn unexpected_statement_and_invalid_import_target_are_errors() {
    let bad_import = node(Rule::ImportStmt, "", 0, vec![leaf(Rule::Number, "3", 7)]);
    let root = node(Rule::Program, "", 0, vec![leaf(Rule::Other("junk".to_string()), "x", 2), bad_import]);
    let (program, errors, deps) = build_file(&root);
    assert!(program.unwrap().statements.is_empty());
    assert!(deps.is_empty());
    assert_eq!(errors.len(), 2);
    assert_eq!(errors[0].message, "Unexpected rule in statement: junk");
    assert_eq!(errors[0].span, Span { start: 2, end: 3 });
    assert_eq!(errors[1].message, "Invalid import target");
    assert_eq!(errors[1].span, Span { start: 7, end: 8 });
}

#[test]
fn exports_and_modules() {
    let module = node(Rule::ModuleDef, "", 0, vec![leaf(Rule::Identifier, "geo", 0), declare("r", &["2"])]);
    let export = node(Rule::ExportStmt, "", 0, vec![leaf(Rule::Identifier, "r", 0)]);
    let root = node(Rule::Program, "", 0, vec![module, export]);
    let (program, errors, _) = build_file(&root);
    assert!(errors.is_empty());
    let program = program.unwrap();
    match &program.statements[0] {
        Statement::ModuleDef(m) => {
            assert_eq!(m.name, "geo");
            assert_eq!(m.statements.len(), 1);
        },
        _ => panic!("not a module"),
    }
    match &program.statements[1] {
        Statement::Export(ExportStmt::Identifier(n)) => assert_eq!(n, "r"),
        _ => panic!("not an export"),
    }
}

#[test]
fn builds_that_would_not_run_to_their_end_are_found() {
    // an operator where an operand belongs
    let e = node(Rule::Expression, "", 0, vec![leaf(Rule::AddOp, "+", 0)]);
    let root = node(Rule::Program, "", 0, vec![e]);
    assert!(!program_builds_to_end(&root));
    // an export of an import that cannot be built
    let bad = node(Rule::ImportStmt, "", 0, vec![]);
    let export = node(Rule::ExportStmt, "", 0, vec![bad]);
    let root = node(Rule::Program, "", 0, vec![export]);
    assert!(!program_builds_to_end(&root));
    // a sound program
    let root = node(Rule::Program, "", 0, vec![declare("x", &["1", "+", "2"])]);
    assert!(program_builds_to_end(&root));
}

#[test]
fn syntax_errors_are_fatal() {
    let e = fatal_syntax_error(Span { start: 4, end: 4 }, "expected expression");
    assert_eq!(e.message, "Fatal syntax error: expected expression");
    assert_eq!(e.span, Span { start: 4, end: 4 });
}

#[test]
fn grouping_keeps_operands_and_operators_in_order() {
    let parts = ["a", "+", "b", "*", "c", "^", "d", "-", "e", "<", "f", "/", "2"];
    let shown = show(&build(&expr(&parts)));
    assert_eq!(shown, "(((a+(b*(c^d)))-e)<(f/2))");
    let read: String = shown.chars().filter(|c| *c != '(' && *c != ')').collect();
    assert_eq!(read, parts.concat());
}
