use cwc::ast::{
    AssignmentLhs, Declare, ExportStmt, Expression, ImportPath, ImportStmt, ModuleDef, Primary, Program, Statement, StringLit,
};
use cwc::frontend_types::{FileState, Span};
use cwc::merge::AstFlattener;

fn s(v: &[&str]) -> Vec<String> {
    v.iter().map(|x| x.to_string()).collect()
}

fn declare(path: &[&str], value: &[&str]) -> Statement {
    Statement::Declare(Declare {
        lhs: AssignmentLhs::PathIdentifier { path: s(path), span: Span::default() },
        expr: Expression::Primary(Primary::PathIdentifier(s(value), Span::default())),
        span: Span::default(),
    })
}

fn names(p: &Program) -> Vec<(Vec<String>, Vec<String>)> {
    p.statements
        .iter()
        .filter_map(|st| match st {
            Statement::Declare(d) => match (&d.lhs, &d.expr) {
                (AssignmentLhs::PathIdentifier { path, .. }, Expression::Primary(Primary::PathIdentifier(v, _))) => {
                    Some((path.clone(), v.clone()))
                },
                _ => None,
            },
            _ => None,
        })
        .collect()
}

#[test]
fn modules_dissolve_into_namespaced_names() {
    let module = Statement::ModuleDef(ModuleDef {
        name: "geo".to_string(),
        statements: vec![declare(&["r"], &["pi"])],
        span: Span::default(),
    });
    let import = Statement::Import(ImportStmt { path: ImportPath::Path(s(&["lib"]), true), alias: None, span: Span::default() });
    let comment = Statement::ExportedComment(StringLit { value: "note".to_string(), span: Span::default() });
    let program = Program { statements: vec![import, declare(&["x"], &["y"]), module, comment], span: Span::default() };
    let files = vec![("src/main.cara".to_string(), FileState::Done(program))];
    let mut flattener = AstFlattener::new();
    let flat = flattener.flatten(files);
    assert_eq!(flat.statements.len(), 3);
    assert_eq!(
        names(&flat),
        vec![
            (s(&["src/main", "x"]), s(&["src/main", "y"])),
            (s(&["src/main", "geo", "r"]), s(&["src/main", "geo", "pi"])),
        ]
    );
    assert!(matches!(flat.statements[2], Statement::ExportedComment(_)));
    assert_eq!(flat.span, Span { start: 0, end: 0 });
}

#[test]
fn files_follow_one_another_and_accumulate() {
    let a = Program { statements: vec![declare(&["a"], &["b"])], span: Span::default() };
    let b = Program { statements: vec![declare(&["c"], &["d"])], span: Span::default() };
    let mut flattener = AstFlattener::new();
    let first = flattener.flatten(vec![("one.cara".to_string(), FileState::Done(a))]);
    assert_eq!(names(&first), vec![(s(&["one", "a"]), s(&["one", "b"]))]);
    let both = flattener.flatten(vec![("two.cara".to_string(), FileState::Done(b))]);
    assert_eq!(names(&both), vec![(s(&["one", "a"]), s(&["one", "b"])), (s(&["two", "c"]), s(&["two", "d"]))]);
}

#[test]
fn exported_items_keep_their_namespace() {
    // math.cara: module addition { export add = a } ; export identity = a ; export use x
    let add = Statement::Export(ExportStmt::Declare(Declare {
        lhs: AssignmentLhs::PathIdentifier { path: s(&["add"]), span: Span::default() },
        expr: Expression::Primary(Primary::PathIdentifier(s(&["a"]), Span::default())),
        span: Span::default(),
    }));
    let module = Statement::ModuleDef(ModuleDef { name: "addition".to_string(), statements: vec![add], span: Span::default() });
    let identity = Statement::Export(ExportStmt::Declare(Declare {
        lhs: AssignmentLhs::PathIdentifier { path: s(&["identity"]), span: Span::default() },
        expr: Expression::Primary(Primary::PathIdentifier(s(&["a"]), Span::default())),
        span: Span::default(),
    }));
    let inner = Statement::Export(ExportStmt::ModuleDef(ModuleDef {
        name: "inner".to_string(),
        statements: vec![declare(&["k"], &["v"])],
        span: Span::default(),
    }));
    let reexport = Statement::Export(ExportStmt::Use(ImportStmt {
        path: ImportPath::Path(s(&["cheeto", "color"]), false),
        alias: None,
        span: Span::default(),
    }));
    let program = Program { statements: vec![module, identity, inner, reexport], span: Span::default() };
    let mut flattener = AstFlattener::new();
    let flat = flattener.flatten(vec![("math.cara".to_string(), FileState::Done(program))]);
    assert_eq!(
        names(&flat),
        vec![
            (s(&["math", "addition", "add"]), s(&["math", "addition", "a"])),
            (s(&["math", "identity"]), s(&["math", "a"])),
            (s(&["math", "inner", "k"]), s(&["math", "inner", "v"])),
        ]
    );
    assert_eq!(flat.statements.len(), 3);
}
