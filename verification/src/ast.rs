use vstd::prelude::*;

use crate::frontend_types::Span;

verus! {

/// A parsed source file.
#[derive(Debug)]
pub struct Program {
    pub statements: Vec<Statement>,
    pub span: Span,
}

/// A statement of a file, a module or a block.
#[derive(Debug)]
pub enum Statement {
    Import(ImportStmt),
    Export(ExportStmt),
    ModuleDef(ModuleDef),
    Declare(Declare),
    Update(Update),
    ExportedComment(StringLit),
    Expression(Expression),
}

/// `import path [as alias]`.
#[derive(Debug)]
pub struct ImportStmt {
    pub path: ImportPath,
    pub alias: Option<String>,
    pub span: Span,
}

/// What an import names: a macro, or a path whose flag tells whether it ends in `*`.
#[derive(Debug)]
pub enum ImportPath {
    Macro(String),
    Path(Vec<String>, bool),
}

/// What follows `export`.
#[derive(Debug)]
pub enum ExportStmt {
    Use(ImportStmt),
    ModuleDef(ModuleDef),
    Declare(Declare),
    Identifier(String),
    Span(Span),
}

/// `module name { statements }`.
#[derive(Debug)]
pub struct ModuleDef {
    pub name: String,
    pub statements: Vec<Statement>,
    pub span: Span,
}

/// The target of a declaration or an update.
#[derive(Debug)]
pub enum AssignmentLhs {
    FuncDecl { name: Vec<String>, args: Vec<String>, span: Span },
    PathIdentifier { path: Vec<String>, span: Span },
    MacroCall { name: String, content: String, span: Span },
}

/// `lhs = expr`.
#[derive(Debug)]
pub struct Declare {
    pub lhs: AssignmentLhs,
    pub expr: Expression,
    pub span: Span,
}

/// `lhs -> expr`.
#[derive(Debug)]
pub struct Update {
    pub lhs: AssignmentLhs,
    pub expr: Expression,
    pub span: Span,
}

/// An expression tree of infix operators over primaries.
#[derive(Debug)]
pub enum Expression {
    Primary(Primary),
    Infix { lhs: Box<Expression>, op: String, rhs: Box<Expression>, span: Span },
}

/// An operand. A number is kept as the text of its literal.
#[derive(Debug)]
pub enum Primary {
    Number(String, Span),
    StringLit(StringLit),
    FuncCall { target: Box<Primary>, args: Vec<Expression>, span: Span },
    MacroCall { name: String, content: String, span: Span },
    PathIdentifier(Vec<String>, Span),
    Expression(Box<Expression>, Span),
    Block(Vec<Statement>, Span),
    AbsVal(Box<Expression>, Span),
    List(Vec<Primary>, Span),
    Point(Box<Primary>, Box<Primary>, Span),
    Update(Box<Update>, Span),
}

/// A string literal without its quotes.
#[derive(Debug)]
pub struct StringLit {
    pub value: String,
    pub span: Span,
}

// ----- The mathematical model: the same trees over sequences of characters -----

pub type Text = Seq<char>;

pub ghost struct SpecProgram {
    pub statements: Seq<SpecStatement>,
    pub span: Span,
}

pub ghost enum SpecStatement {
    Import(SpecImportStmt),
    Export(SpecExportStmt),
    ModuleDef(SpecModuleDef),
    Declare(SpecDeclare),
    Update(SpecUpdate),
    ExportedComment(SpecStringLit),
    Expression(SpecExpression),
}

pub ghost struct SpecImportStmt {
    pub path: SpecImportPath,
    pub alias: Option<Text>,
    pub span: Span,
}

pub ghost enum SpecImportPath {
    Macro(Text),
    Path(Seq<Text>, bool),
}

pub ghost enum SpecExportStmt {
    Use(SpecImportStmt),
    ModuleDef(SpecModuleDef),
    Declare(SpecDeclare),
    Identifier(Text),
    Span(Span),
}

pub ghost struct SpecModuleDef {
    pub name: Text,
    pub statements: Seq<SpecStatement>,
    pub span: Span,
}

pub ghost enum SpecAssignmentLhs {
    FuncDecl { name: Seq<Text>, args: Seq<Text>, span: Span },
    PathIdentifier { path: Seq<Text>, span: Span },
    MacroCall { name: Text, content: Text, span: Span },
}

pub ghost struct SpecDeclare {
    pub lhs: SpecAssignmentLhs,
    pub expr: SpecExpression,
    pub span: Span,
}

pub ghost struct SpecUpdate {
    pub lhs: SpecAssignmentLhs,
    pub expr: SpecExpression,
    pub span: Span,
}

pub ghost enum SpecExpression {
    Primary(SpecPrimary),
    Infix { lhs: Box<SpecExpression>, op: Text, rhs: Box<SpecExpression>, span: Span },
}

pub ghost enum SpecPrimary {
    Number(Text, Span),
    StringLit(SpecStringLit),
    FuncCall { target: Box<SpecPrimary>, args: Seq<SpecExpression>, span: Span },
    MacroCall { name: Text, content: Text, span: Span },
    PathIdentifier(Seq<Text>, Span),
    Expression(Box<SpecExpression>, Span),
    Block(Seq<SpecStatement>, Span),
    AbsVal(Box<SpecExpression>, Span),
    List(Seq<SpecPrimary>, Span),
    Point(Box<SpecPrimary>, Box<SpecPrimary>, Span),
    Update(Box<SpecUpdate>, Span),
}

pub ghost struct SpecStringLit {
    pub value: Text,
    pub span: Span,
}

pub open spec fn texts(v: Seq<String>) -> Seq<Text> {
    v.map_values(|s: String| s@)
}

pub open spec fn opt_text(o: Option<String>) -> Option<Text> {
    match o {
        Some(s) => Some(s@),
        None => None,
    }
}

pub open spec fn string_lit_view(s: StringLit) -> SpecStringLit {
    SpecStringLit { value: s.value@, span: s.span }
}

pub open spec fn import_path_view(p: ImportPath) -> SpecImportPath {
    match p {
        ImportPath::Macro(m) => SpecImportPath::Macro(m@),
        ImportPath::Path(segs, star) => SpecImportPath::Path(texts(segs@), star),
    }
}

pub open spec fn import_view(i: ImportStmt) -> SpecImportStmt {
    SpecImportStmt { path: import_path_view(i.path), alias: opt_text(i.alias), span: i.span }
}

pub open spec fn lhs_view(l: AssignmentLhs) -> SpecAssignmentLhs {
    match l {
        AssignmentLhs::FuncDecl { name, args, span } => SpecAssignmentLhs::FuncDecl {
            name: texts(name@),
            args: texts(args@),
            span,
        },
        AssignmentLhs::PathIdentifier { path, span } => SpecAssignmentLhs::PathIdentifier {
            path: texts(path@),
            span,
        },
        AssignmentLhs::MacroCall { name, content, span } => SpecAssignmentLhs::MacroCall {
            name: name@,
            content: content@,
            span,
        },
    }
}

pub open spec fn statements_view(s: Seq<Statement>) -> Seq<SpecStatement>
    decreases s,
{
    if s.len() == 0 {
        Seq::empty()
    } else {
        seq![statement_view(s[0])] + statements_view(s.drop_first())
    }
}

pub open spec fn expressions_view(s: Seq<Expression>) -> Seq<SpecExpression>
    decreases s,
{
    if s.len() == 0 {
        Seq::empty()
    } else {
        seq![expression_view(s[0])] + expressions_view(s.drop_first())
    }
}

pub open spec fn primaries_view(s: Seq<Primary>) -> Seq<SpecPrimary>
    decreases s,
{
    if s.len() == 0 {
        Seq::empty()
    } else {
        seq![primary_view(s[0])] + primaries_view(s.drop_first())
    }
}

pub open spec fn module_view(m: ModuleDef) -> SpecModuleDef
    decreases m,
{
    SpecModuleDef { name: m.name@, statements: statements_view(m.statements@), span: m.span }
}

pub open spec fn declare_view(d: Declare) -> SpecDeclare
    decreases d,
{
    SpecDeclare { lhs: lhs_view(d.lhs), expr: expression_view(d.expr), span: d.span }
}

pub open spec fn update_view(u: Update) -> SpecUpdate
    decreases u,
{
    SpecUpdate { lhs: lhs_view(u.lhs), expr: expression_view(u.expr), span: u.span }
}

pub open spec fn export_view(e: ExportStmt) -> SpecExportStmt
    decreases e,
{
    match e {
        ExportStmt::Use(i) => SpecExportStmt::Use(import_view(i)),
        ExportStmt::ModuleDef(m) => SpecExportStmt::ModuleDef(module_view(m)),
        ExportStmt::Declare(d) => SpecExportStmt::Declare(declare_view(d)),
        ExportStmt::Identifier(s) => SpecExportStmt::Identifier(s@),
        ExportStmt::Span(sp) => SpecExportStmt::Span(sp),
    }
}

pub open spec fn statement_view(s: Statement) -> SpecStatement
    decreases s,
{
    match s {
        Statement::Import(i) => SpecStatement::Import(import_view(i)),
        Statement::Export(e) => SpecStatement::Export(export_view(e)),
        Statement::ModuleDef(m) => SpecStatement::ModuleDef(module_view(m)),
        Statement::Declare(d) => SpecStatement::Declare(declare_view(d)),
        Statement::Update(u) => SpecStatement::Update(update_view(u)),
        Statement::ExportedComment(c) => SpecStatement::ExportedComment(string_lit_view(c)),
        Statement::Expression(e) => SpecStatement::Expression(expression_view(e)),
    }
}

pub open spec fn expression_view(e: Expression) -> SpecExpression
    decreases e,
{
    match e {
        Expression::Primary(p) => SpecExpression::Primary(primary_view(p)),
        Expression::Infix { lhs, op, rhs, span } => SpecExpression::Infix {
            lhs: Box::new(expression_view(*lhs)),
            op: op@,
            rhs: Box::new(expression_view(*rhs)),
            span,
        },
    }
}

pub open spec fn primary_view(p: Primary) -> SpecPrimary
    decreases p,
{
    match p {
        Primary::Number(t, sp) => SpecPrimary::Number(t@, sp),
        Primary::StringLit(s) => SpecPrimary::StringLit(string_lit_view(s)),
        Primary::FuncCall { target, args, span } => SpecPrimary::FuncCall {
            target: Box::new(primary_view(*target)),
            args: expressions_view(args@),
            span,
        },
        Primary::MacroCall { name, content, span } => SpecPrimary::MacroCall {
            name: name@,
            content: content@,
            span,
        },
        Primary::PathIdentifier(path, sp) => SpecPrimary::PathIdentifier(texts(path@), sp),
        Primary::Expression(e, sp) => SpecPrimary::Expression(Box::new(expression_view(*e)), sp),
        Primary::Block(stmts, sp) => SpecPrimary::Block(statements_view(stmts@), sp),
        Primary::AbsVal(e, sp) => SpecPrimary::AbsVal(Box::new(expression_view(*e)), sp),
        Primary::List(items, sp) => SpecPrimary::List(primaries_view(items@), sp),
        Primary::Point(x, y, sp) => SpecPrimary::Point(
            Box::new(primary_view(*x)),
            Box::new(primary_view(*y)),
            sp,
        ),
        Primary::Update(u, sp) => SpecPrimary::Update(Box::new(update_view(*u)), sp),
    }
}

impl View for Statement {
    type V = SpecStatement;

    open spec fn view(&self) -> SpecStatement {
        statement_view(*self)
    }
}

impl View for Expression {
    type V = SpecExpression;

    open spec fn view(&self) -> SpecExpression {
        expression_view(*self)
    }
}

impl View for Primary {
    type V = SpecPrimary;

    open spec fn view(&self) -> SpecPrimary {
        primary_view(*self)
    }
}

impl View for ImportStmt {
    type V = SpecImportStmt;

    open spec fn view(&self) -> SpecImportStmt {
        import_view(*self)
    }
}

impl View for ExportStmt {
    type V = SpecExportStmt;

    open spec fn view(&self) -> SpecExportStmt {
        export_view(*self)
    }
}

impl View for ModuleDef {
    type V = SpecModuleDef;

    open spec fn view(&self) -> SpecModuleDef {
        module_view(*self)
    }
}

impl View for Declare {
    type V = SpecDeclare;

    open spec fn view(&self) -> SpecDeclare {
        declare_view(*self)
    }
}

impl View for Update {
    type V = SpecUpdate;

    open spec fn view(&self) -> SpecUpdate {
        update_view(*self)
    }
}

impl View for AssignmentLhs {
    type V = SpecAssignmentLhs;

    open spec fn view(&self) -> SpecAssignmentLhs {
        lhs_view(*self)
    }
}

impl View for StringLit {
    type V = SpecStringLit;

    open spec fn view(&self) -> SpecStringLit {
        string_lit_view(*self)
    }
}

/// The view of an optional value.
pub open spec fn opt_view<T: View>(o: Option<T>) -> Option<T::V> {
    match o {
        Some(x) => Some(x@),
        None => None,
    }
}

impl View for Program {
    type V = SpecProgram;

    open spec fn view(&self) -> SpecProgram {
        SpecProgram { statements: statements_view(self.statements@), span: self.span }
    }
}

} // verus!

verus! {

pub proof fn lemma_statements_view(s: Seq<Statement>)
    ensures
        statements_view(s).len() == s.len(),
        forall|i: int| 0 <= i < s.len() ==> #[trigger] statements_view(s)[i] == statement_view(s[i]),
    decreases s.len(),
{
    if s.len() > 0 {
        lemma_statements_view(s.drop_first());
        assert forall|i: int| 0 <= i < s.len() implies #[trigger] statements_view(s)[i] == statement_view(s[i]) by {
            if i > 0 {
                assert(s.drop_first()[i - 1] == s[i]);
            }
        }
    }
}

pub proof fn lemma_expressions_view(s: Seq<Expression>)
    ensures
        expressions_view(s).len() == s.len(),
        forall|i: int| 0 <= i < s.len() ==> #[trigger] expressions_view(s)[i] == expression_view(s[i]),
    decreases s.len(),
{
    if s.len() > 0 {
        lemma_expressions_view(s.drop_first());
        assert forall|i: int| 0 <= i < s.len() implies #[trigger] expressions_view(s)[i] == expression_view(s[i]) by {
            if i > 0 {
                assert(s.drop_first()[i - 1] == s[i]);
            }
        }
    }
}

pub proof fn lemma_primaries_view(s: Seq<Primary>)
    ensures
        primaries_view(s).len() == s.len(),
        forall|i: int| 0 <= i < s.len() ==> #[trigger] primaries_view(s)[i] == primary_view(s[i]),
    decreases s.len(),
{
    if s.len() > 0 {
        lemma_primaries_view(s.drop_first());
        assert forall|i: int| 0 <= i < s.len() implies #[trigger] primaries_view(s)[i] == primary_view(s[i]) by {
            if i > 0 {
                assert(s.drop_first()[i - 1] == s[i]);
            }
        }
    }
}

} // verus!

verus! {

// ----- Copies: the trees hold no shared parts, so a copy is rebuilt node by node -----

pub fn copy_string_lit(s: &StringLit) -> (r: StringLit)
    ensures
        string_lit_view(r) == string_lit_view(*s),
{
    StringLit { value: s.value.clone(), span: s.span }
}

fn copy_opt_string(o: &Option<String>) -> (r: Option<String>)
    ensures
        opt_text(r) == opt_text(*o),
{
    match o {
        Some(s) => Some(s.clone()),
        None => None,
    }
}

pub fn copy_import(i: &ImportStmt) -> (r: ImportStmt)
    ensures
        import_view(r) == import_view(*i),
{
    let path = match &i.path {
        ImportPath::Macro(m) => ImportPath::Macro(m.clone()),
        ImportPath::Path(segs, star) => ImportPath::Path(crate::text::copy_strings(segs), *star),
    };
    ImportStmt { path, alias: copy_opt_string(&i.alias), span: i.span }
}

pub fn copy_lhs(l: &AssignmentLhs) -> (r: AssignmentLhs)
    ensures
        lhs_view(r) == lhs_view(*l),
{
    match l {
        AssignmentLhs::FuncDecl { name, args, span } => AssignmentLhs::FuncDecl {
            name: crate::text::copy_strings(name),
            args: crate::text::copy_strings(args),
            span: *span,
        },
        AssignmentLhs::PathIdentifier { path, span } => AssignmentLhs::PathIdentifier {
            path: crate::text::copy_strings(path),
            span: *span,
        },
        AssignmentLhs::MacroCall { name, content, span } => AssignmentLhs::MacroCall {
            name: name.clone(),
            content: content.clone(),
            span: *span,
        },
    }
}

/// A copy of a sequence of statements.
pub fn copy_statements(v: &Vec<Statement>) -> (r: Vec<Statement>)
    ensures
        statements_view(r@) == statements_view(v@),
    decreases v@,
{
    proof { lemma_statements_view(v@); }
    let mut r: Vec<Statement> = Vec::new();
    let mut i: usize = 0;
    while i < v.len()
        invariant
            i <= v@.len(),
            r@.len() == i,
            statements_view(v@).len() == v@.len(),
            forall|k: int| 0 <= k < v@.len() ==> #[trigger] statements_view(v@)[k] == statement_view(v@[k]),
            forall|k: int| 0 <= k < i ==> #[trigger] statement_view(r@[k]) == statement_view(v@[k]),
        decreases v@.len() - i,
    {
        assert(decreases_to!(v@ => v@[i as int]));
        r.push(copy_statement(&v[i]));
        i = i + 1;
    }
    proof { lemma_statements_view(r@); }
    assert(statements_view(r@) =~= statements_view(v@));
    r
}

pub fn copy_expressions(v: &Vec<Expression>) -> (r: Vec<Expression>)
    ensures
        expressions_view(r@) == expressions_view(v@),
    decreases v@,
{
    proof { lemma_expressions_view(v@); }
    let mut r: Vec<Expression> = Vec::new();
    let mut i: usize = 0;
    while i < v.len()
        invariant
            i <= v@.len(),
            r@.len() == i,
            expressions_view(v@).len() == v@.len(),
            forall|k: int| 0 <= k < v@.len() ==> #[trigger] expressions_view(v@)[k] == expression_view(v@[k]),
            forall|k: int| 0 <= k < i ==> #[trigger] expression_view(r@[k]) == expression_view(v@[k]),
        decreases v@.len() - i,
    {
        assert(decreases_to!(v@ => v@[i as int]));
        r.push(copy_expression(&v[i]));
        i = i + 1;
    }
    proof { lemma_expressions_view(r@); }
    assert(expressions_view(r@) =~= expressions_view(v@));
    r
}

pub fn copy_primaries(v: &Vec<Primary>) -> (r: Vec<Primary>)
    ensures
        primaries_view(r@) == primaries_view(v@),
    decreases v@,
{
    proof { lemma_primaries_view(v@); }
    let mut r: Vec<Primary> = Vec::new();
    let mut i: usize = 0;
    while i < v.len()
        invariant
            i <= v@.len(),
            r@.len() == i,
            primaries_view(v@).len() == v@.len(),
            forall|k: int| 0 <= k < v@.len() ==> #[trigger] primaries_view(v@)[k] == primary_view(v@[k]),
            forall|k: int| 0 <= k < i ==> #[trigger] primary_view(r@[k]) == primary_view(v@[k]),
        decreases v@.len() - i,
    {
        assert(decreases_to!(v@ => v@[i as int]));
        r.push(copy_primary(&v[i]));
        i = i + 1;
    }
    proof { lemma_primaries_view(r@); }
    assert(primaries_view(r@) =~= primaries_view(v@));
    r
}

pub fn copy_module(m: &ModuleDef) -> (r: ModuleDef)
    ensures
        module_view(r) == module_view(*m),
    decreases *m,
{
    ModuleDef { name: m.name.clone(), statements: copy_statements(&m.statements), span: m.span }
}

pub fn copy_declare(d: &Declare) -> (r: Declare)
    ensures
        declare_view(r) == declare_view(*d),
    decreases *d,
{
    Declare { lhs: copy_lhs(&d.lhs), expr: copy_expression(&d.expr), span: d.span }
}

pub fn copy_update(u: &Update) -> (r: Update)
    ensures
        update_view(r) == update_view(*u),
    decreases *u,
{
    Update { lhs: copy_lhs(&u.lhs), expr: copy_expression(&u.expr), span: u.span }
}

/// A copy of a statement.
pub fn copy_statement(s: &Statement) -> (r: Statement)
    ensures
        statement_view(r) == statement_view(*s),
    decreases *s,
{
    match s {
        Statement::Import(i) => Statement::Import(copy_import(i)),
        Statement::Export(e) => Statement::Export(
            match e {
                ExportStmt::Use(i) => ExportStmt::Use(copy_import(i)),
                ExportStmt::ModuleDef(m) => ExportStmt::ModuleDef(copy_module(m)),
                ExportStmt::Declare(d) => ExportStmt::Declare(copy_declare(d)),
                ExportStmt::Identifier(n) => ExportStmt::Identifier(n.clone()),
                ExportStmt::Span(sp) => ExportStmt::Span(*sp),
            },
        ),
        Statement::ModuleDef(m) => Statement::ModuleDef(copy_module(m)),
        Statement::Declare(d) => Statement::Declare(copy_declare(d)),
        Statement::Update(u) => Statement::Update(copy_update(u)),
        Statement::ExportedComment(c) => Statement::ExportedComment(copy_string_lit(c)),
        Statement::Expression(e) => Statement::Expression(copy_expression(e)),
    }
}

/// A copy of an expression.
pub fn copy_expression(e: &Expression) -> (r: Expression)
    ensures
        expression_view(r) == expression_view(*e),
    decreases *e,
{
    match e {
        Expression::Primary(p) => Expression::Primary(copy_primary(p)),
        Expression::Infix { lhs, op, rhs, span } => Expression::Infix {
            lhs: Box::new(copy_expression(lhs)),
            op: op.clone(),
            rhs: Box::new(copy_expression(rhs)),
            span: *span,
        },
    }
}

/// A copy of a primary.
pub fn copy_primary(p: &Primary) -> (r: Primary)
    ensures
        primary_view(r) == primary_view(*p),
    decreases *p,
{
    match p {
        Primary::Number(t, sp) => Primary::Number(t.clone(), *sp),
        Primary::StringLit(s) => Primary::StringLit(copy_string_lit(s)),
        Primary::FuncCall { target, args, span } => Primary::FuncCall {
            target: Box::new(copy_primary(target)),
            args: copy_expressions(args),
            span: *span,
        },
        Primary::MacroCall { name, content, span } => Primary::MacroCall {
            name: name.clone(),
            content: content.clone(),
            span: *span,
        },
        Primary::PathIdentifier(path, sp) => Primary::PathIdentifier(crate::text::copy_strings(path), *sp),
        Primary::Expression(e, sp) => Primary::Expression(Box::new(copy_expression(e)), *sp),
        Primary::Block(stmts, sp) => Primary::Block(copy_statements(stmts), *sp),
        Primary::AbsVal(e, sp) => Primary::AbsVal(Box::new(copy_expression(e)), *sp),
        Primary::List(items, sp) => Primary::List(copy_primaries(items), *sp),
        Primary::Point(x, y, sp) => Primary::Point(Box::new(copy_primary(x)), Box::new(copy_primary(y)), *sp),
        Primary::Update(u, sp) => Primary::Update(Box::new(copy_update(u)), *sp),
    }
}

/// A copy of a program.
pub fn copy_program(p: &Program) -> (r: Program)
    ensures
        r@ == p@,
{
    Program { statements: copy_statements(&p.statements), span: p.span }
}

} // verus!
