use cwc::ast::{
    AssignmentLhs, Declare, ExportStmt, Expression, ImportPath, ImportStmt, ModuleDef, Primary, Program, Statement,
};
use cwc::frontend_types::{FileState, Span};
use cwc::resolve::{candidate_files, choose_file, collect_declarations, collect_imports, lhs_name, qualified_name, resolve_dependencies, resolve_import_path};

fn s(v: &[&str]) -> Vec<String> {
    v.iter().map(|x| x.to_string()).collect()
}

fn decl(path: &[&str]) -> Statement {
    Statement::Declare(Declare {
        lhs: AssignmentLhs::PathIdentifier { path: s(path), span: Span::default() },
        expr: Expression::Primary(Primary::Number("1".to_string(), Span::default())),
        span: Span::default(),
    })
}

fn import(path: &[&str], star: bool) -> Statement {
    Statement::Import(ImportStmt { path: ImportPath::Path(s(path), star), alias: None, span: Span::default() })
}

fn done(statements: Vec<Statement>) -> FileState {
    FileState::Done(Program { statements, span: Span::default() })
}

#[test]
fn qualified_names() {
    assert_eq!(qualified_name(&"".to_string(), &"x".to_string()), "x");
    assert_eq!(qualified_name(&"geo".to_string(), &"x".to_string()), "geo::x");
}

#[test]
fn import_paths_try_the_longest_file_first() {
    let known = s(&["lib/util.cara", "lib.cara"]);
    assert_eq!(resolve_import_path(&s(&["lib", "util"]), &known), Some(("lib/util.cara".to_string(), vec![])));
    assert_eq!(resolve_import_path(&s(&["lib", "util", "f"]), &known), Some(("lib/util.cara".to_string(), s(&["f"]))));
    assert_eq!(resolve_import_path(&s(&["lib", "g", "h"]), &known), Some(("lib.cara".to_string(), s(&["g", "h"]))));
    assert_eq!(resolve_import_path(&s(&["other"]), &known), None);
}

#[test]
fn import_paths_are_built_as_paths() {
    // An extension in the last segment is replaced.
    let known = s(&["lib/util.cara"]);
    assert_eq!(resolve_import_path(&s(&["lib", "util.x"]), &known), Some(("lib/util.cara".to_string(), vec![])));
    // An absolute segment starts the path afresh.
    let known = s(&["/abs.cara"]);
    assert_eq!(resolve_import_path(&s(&["lib", "/abs"]), &known), Some(("/abs.cara".to_string(), vec![])));
    // Trailing separators are dropped, and `..` gets no extension.
    let known = s(&["a/b.cara", "a/.."]);
    assert_eq!(resolve_import_path(&s(&["a", "b/"]), &known), Some(("a/b.cara".to_string(), vec![])));
    assert_eq!(resolve_import_path(&s(&["a", ".."]), &known), Some(("a/..".to_string(), vec![])));
    // A name that only opens with a dot keeps it.
    let known = s(&["d/.hidden.cara"]);
    assert_eq!(resolve_import_path(&s(&["d", ".hidden"]), &known), Some(("d/.hidden.cara".to_string(), vec![])));
}

#[test]
fn names_of_targets() {
    let f = AssignmentLhs::FuncDecl { name: s(&["a", "f"]), args: s(&["x"]), span: Span::default() };
    assert_eq!(lhs_name(&f), Some("a::f".to_string()));
    let m = AssignmentLhs::MacroCall { name: "hex".to_string(), content: "".to_string(), span: Span::default() };
    assert_eq!(lhs_name(&m), None);
}

#[test]
fn declarations_include_modules_and_exports() {
    let module = Statement::ModuleDef(ModuleDef { name: "geo".to_string(), statements: vec![decl(&["r"])], span: Span::default() });
    let exported = Statement::Export(ExportStmt::Declare(match decl(&["e"]) {
        Statement::Declare(d) => d,
        _ => unreachable!(),
    }));
    let mut out = Vec::new();
    collect_declarations(&vec![decl(&["x"]), module, exported], &"".to_string(), &mut out);
    out.sort();
    assert_eq!(out, s(&["e", "geo", "geo::r", "x"]));
}

#[test]
fn imports_that_resolve_are_collected() {
    let known = s(&["lib.cara"]);
    let imports = collect_imports(&vec![import(&["lib", "f"], false), import(&["nowhere"], true)], &known);
    assert_eq!(imports, vec![("lib.cara".to_string(), s(&["f"]), false)]);
}

#[test]
fn unresolved_import_is_reported() {
    let files = vec![
        ("main.cara".to_string(), done(vec![import(&["lib", "foo"], false), import(&["lib", "bar"], false)])),
        ("lib.cara".to_string(), done(vec![decl(&["bar"])])),
    ];
    let errors = resolve_dependencies(&files);
    assert_eq!(errors.len(), 1);
    assert_eq!(errors[0].file, "main.cara");
    assert_eq!(errors[0].message, "Unresolved import: 'foo' not found in 'lib.cara'");
}

#[test]
fn wildcard_and_whole_file_imports_are_not_checked() {
    let files = vec![
        ("main.cara".to_string(), done(vec![import(&["lib", "foo"], true), import(&["lib"], false)])),
        ("lib.cara".to_string(), done(vec![])),
    ];
    assert!(resolve_dependencies(&files).is_empty());
}

#[test]
fn circular_imports_are_reported_last() {
    let files = vec![
        ("a.cara".to_string(), done(vec![import(&["b", "x"], false)])),
        ("b.cara".to_string(), done(vec![import(&["a"], true), decl(&["y"])])),
    ];
    let errors = resolve_dependencies(&files);
    assert_eq!(errors.len(), 2);
    assert_eq!(errors[0].file, "a.cara");
    assert_eq!(errors[0].message, "Unresolved import: 'x' not found in 'b.cara'");
    assert_eq!(errors[1].file, "");
    assert_eq!(errors[1].message, "Circular import detected between files");
}

#[test]
fn import_candidates_agree_with_pathbuf() {
    let pieces = ["a", "b.x", ".h", "..", ".", "", "/r", "c/", "d/.", "e..f", "g.", "/"];
    for x in pieces {
        for y in pieces {
            let segs = s(&[x, y]);
            let mut p = std::path::PathBuf::new();
            for seg in &segs {
                p.push(seg);
            }
            p.set_extension("cara");
            let candidate = p.to_string_lossy().to_string();
            let known = vec![candidate.clone()];
            assert_eq!(resolve_import_path(&segs, &known), Some((candidate, vec![])), "segments {:?}", segs);
        }
    }
}

#[test]
fn an_element_import_asks_for_the_file_that_holds_it() {
    // import draw_thingy::draw as draw_thingy_draw
    let candidates = candidate_files(&s(&["draw_thingy", "draw"]));
    assert_eq!(candidates, s(&["draw_thingy/draw.cara", "draw_thingy.cara"]));
    assert_eq!(choose_file(&candidates, &vec![false, true]), Some("draw_thingy.cara".to_string()));
    // A module file, when it is there, comes first.
    assert_eq!(choose_file(&candidates, &vec![true, true]), Some("draw_thingy/draw.cara".to_string()));
    // When none is there, the longest is asked for and will fail to be read.
    assert_eq!(choose_file(&candidates, &vec![false, false]), Some("draw_thingy/draw.cara".to_string()));
    assert_eq!(choose_file(&vec![], &vec![]), None);
    // import matrix_math::*
    assert_eq!(candidate_files(&s(&["matrix_math"])), s(&["matrix_math.cara"]));
}
