use vstd::prelude::*;

use crate::ast::{
    copy_statements, expression_view, expressions_view, lemma_expressions_view, lemma_primaries_view,
    lemma_statements_view, lhs_view, primaries_view, primary_view, statement_view, statements_view, texts,
    update_view, AssignmentLhs, Declare, ExportStmt, Expression, Primary, Program, SpecAssignmentLhs, SpecDeclare,
    SpecExportStmt, SpecExpression, SpecPrimary, SpecProgram, SpecStatement, SpecUpdate, Statement, Text, Update,
};
use crate::frontend_types::{FileState, Span};
use crate::text::{copy_strings, remove_all, remove_occurrences};

verus! {

// ----- What flattening makes of a tree -----

/// A declaration target with its name moved into the namespace `prefix`; the
/// parameters of a function are local and stay as they are, and so does a macro.
pub open spec fn prefixed_lhs(lhs: SpecAssignmentLhs, prefix: Seq<Text>) -> SpecAssignmentLhs {
    match lhs {
        SpecAssignmentLhs::FuncDecl { name, args, span } => SpecAssignmentLhs::FuncDecl {
            name: prefix + name,
            args,
            span,
        },
        SpecAssignmentLhs::PathIdentifier { path, span } => SpecAssignmentLhs::PathIdentifier {
            path: prefix + path,
            span,
        },
        SpecAssignmentLhs::MacroCall { .. } => lhs,
    }
}

/// The statements with modules dissolved into `prefix`, imports left out, and
/// every name moved into its namespace. An exported declaration or module is
/// flattened as the declaration or module itself, in the namespace it stands in;
/// other exports are left out.
pub open spec fn flat_statements(s: Seq<SpecStatement>, prefix: Seq<Text>) -> Seq<SpecStatement>
    decreases s,
{
    if s.len() == 0 {
        Seq::empty()
    } else {
        flat_statements(s.drop_last(), prefix) + flat_statement(s.last(), prefix)
    }
}

/// What one statement becomes when flattened under `prefix`.
pub open spec fn flat_statement(st: SpecStatement, prefix: Seq<Text>) -> Seq<SpecStatement>
    decreases st,
{
    match st {
        SpecStatement::ModuleDef(m) => flat_statements(m.statements, prefix.push(m.name)),
        SpecStatement::Declare(d) => seq![
            SpecStatement::Declare(
                SpecDeclare {
                    lhs: prefixed_lhs(d.lhs, prefix),
                    expr: prefixed_expr(d.expr, prefix),
                    span: d.span,
                },
            ),
        ],
        SpecStatement::Update(u) => seq![SpecStatement::Update(prefixed_update(u, prefix))],
        SpecStatement::Expression(e) => seq![SpecStatement::Expression(prefixed_expr(e, prefix))],
        SpecStatement::ExportedComment(_) => seq![st],
        SpecStatement::Import(_) => Seq::empty(),
        SpecStatement::Export(SpecExportStmt::ModuleDef(m)) => flat_statements(m.statements, prefix.push(m.name)),
        SpecStatement::Export(SpecExportStmt::Declare(d)) => seq![
            SpecStatement::Declare(
                SpecDeclare {
                    lhs: prefixed_lhs(d.lhs, prefix),
                    expr: prefixed_expr(d.expr, prefix),
                    span: d.span,
                },
            ),
        ],
        SpecStatement::Export(_) => Seq::empty(),
    }
}

pub open spec fn prefixed_update(u: SpecUpdate, prefix: Seq<Text>) -> SpecUpdate
    decreases u,
{
    SpecUpdate { lhs: prefixed_lhs(u.lhs, prefix), expr: prefixed_expr(u.expr, prefix), span: u.span }
}

/// An expression with every name it refers to moved into `prefix`.
pub open spec fn prefixed_expr(e: SpecExpression, prefix: Seq<Text>) -> SpecExpression
    decreases e,
{
    match e {
        SpecExpression::Primary(p) => SpecExpression::Primary(prefixed_primary(p, prefix)),
        SpecExpression::Infix { lhs, op, rhs, span } => SpecExpression::Infix {
            lhs: Box::new(prefixed_expr(*lhs, prefix)),
            op,
            rhs: Box::new(prefixed_expr(*rhs, prefix)),
            span,
        },
    }
}

pub open spec fn prefixed_exprs(s: Seq<SpecExpression>, prefix: Seq<Text>) -> Seq<SpecExpression>
    decreases s,
{
    if s.len() == 0 {
        Seq::empty()
    } else {
        prefixed_exprs(s.drop_last(), prefix).push(prefixed_expr(s.last(), prefix))
    }
}

pub open spec fn prefixed_primaries(s: Seq<SpecPrimary>, prefix: Seq<Text>) -> Seq<SpecPrimary>
    decreases s,
{
    if s.len() == 0 {
        Seq::empty()
    } else {
        prefixed_primaries(s.drop_last(), prefix).push(prefixed_primary(s.last(), prefix))
    }
}

/// A primary with every name it refers to moved into `prefix`; a block is
/// flattened like a file.
pub open spec fn prefixed_primary(p: SpecPrimary, prefix: Seq<Text>) -> SpecPrimary
    decreases p,
{
    match p {
        SpecPrimary::PathIdentifier(path, sp) => SpecPrimary::PathIdentifier(prefix + path, sp),
        SpecPrimary::FuncCall { target, args, span } => SpecPrimary::FuncCall {
            target: Box::new(prefixed_primary(*target, prefix)),
            args: prefixed_exprs(args, prefix),
            span,
        },
        SpecPrimary::Expression(e, sp) => SpecPrimary::Expression(Box::new(prefixed_expr(*e, prefix)), sp),
        SpecPrimary::Block(stmts, sp) => SpecPrimary::Block(flat_statements(stmts, prefix), sp),
        SpecPrimary::AbsVal(e, sp) => SpecPrimary::AbsVal(Box::new(prefixed_expr(*e, prefix)), sp),
        SpecPrimary::List(items, sp) => SpecPrimary::List(prefixed_primaries(items, prefix), sp),
        SpecPrimary::Point(x, y, sp) => SpecPrimary::Point(
            Box::new(prefixed_primary(*x, prefix)),
            Box::new(prefixed_primary(*y, prefix)),
            sp,
        ),
        SpecPrimary::Update(u, sp) => SpecPrimary::Update(Box::new(prefixed_update(*u, prefix)), sp),
        _ => p,
    }
}

/// The namespace of a file: its path with `.cara` taken out.
pub open spec fn file_namespace(path: Text) -> Seq<Text> {
    seq![remove_all(path, ".cara"@)]
}

/// The flattened statements of the parsed files, file after file.
pub open spec fn flat_files(files: Seq<(String, FileState)>) -> Seq<SpecStatement>
    decreases files.len(),
{
    if files.len() == 0 {
        Seq::empty()
    } else {
        flat_files(files.drop_last()) + match files.last().1 {
            FileState::Done(p) => flat_statements(statements_view(p.statements@), file_namespace(files.last().0@)),
            _ => Seq::empty(),
        }
    }
}

/// Whether every file has been parsed.
pub open spec fn all_done(files: Seq<(String, FileState)>) -> bool {
    forall|i: int| 0 <= i < files.len() ==> (#[trigger] files[i]).1 is Done
}

/// Merges the parsed files into one program, in which modules are gone and every
/// name carries the namespace of its file and modules.
pub struct AstFlattener {
    pub flattened_statements: Vec<Statement>,
}

/// `prefix` followed by `path`.
fn prepend(prefix: &Vec<String>, path: Vec<String>) -> (r: Vec<String>)
    ensures
        texts(r@) == texts(prefix@) + texts(path@),
{
    let mut r = copy_strings(prefix);
    let mut path = path;
    let ghost r0 = texts(r@);
    let ghost p0 = texts(path@);
    let ghost mut k: int = 0;
    while path.len() > 0
        invariant
            0 <= k <= p0.len(),
            texts(path@) == p0.skip(k),
            texts(r@) == r0 + p0.take(k),
            r0 == texts(prefix@),
        decreases path@.len(),
    {
        let ghost before = r@;
        let ghost path0 = path@;
        let s = path.remove(0);
        assert(p0.skip(k)[0] == s@) by {
            assert(texts(path0)[0] == s@);
        }
        proof {
            assert(texts(path@) =~= p0.skip(k + 1)) by {
                assert(p0.skip(k).drop_first() =~= p0.skip(k + 1));
            }
        }
        r.push(s);
        proof {
            assert(p0.take(k + 1) =~= p0.take(k).push(p0[k]));
            assert(r@ =~= before.push(s));
            assert(texts(r@) =~= texts(before).push(s@));
            assert(p0[k] == s@);
            k = k + 1;
        }
    }
    assert(p0.take(k) =~= p0);
    r
}

impl AstFlattener {
    pub fn new() -> (r: Self)
        ensures
            r.flattened_statements@.len() == 0,
    {
        AstFlattener { flattened_statements: Vec::new() }
    }

    /// Appends the flattened statements of every file to those gathered so far, and
    /// returns all of them as one program. Each file's names go into the namespace
    /// of its path with `.cara` taken out.
    pub fn flatten(&mut self, files: Vec<(String, FileState)>) -> (r: Program)
        requires
            all_done(files@),
        ensures
            statements_view(final(self).flattened_statements@) == statements_view(
                old(self).flattened_statements@,
            ) + flat_files(files@),
            r@ == (SpecProgram {
                statements: statements_view(final(self).flattened_statements@),
                span: Span { start: 0, end: 0 },
            }),
    {
        let ghost orig = files@;
        let ghost acc0 = statements_view(self.flattened_statements@);
        let mut files = files;
        let ghost mut k: int = 0;
        proof {
            assert(orig.take(0) =~= Seq::<(String, FileState)>::empty());
            assert(acc0 + flat_files(orig.take(0)) =~= acc0);
        }
        while files.len() > 0
            invariant
                0 <= k <= orig.len(),
                files@ == orig.skip(k),
                all_done(orig),
                statements_view(self.flattened_statements@) == acc0 + flat_files(orig.take(k)),
            decreases files@.len(),
        {
            let (path, state) = files.remove(0);
            assert(orig[k] == (path, state)) by {
                assert(orig.skip(k)[0] == orig[k]);
            }
            assert(files@ =~= orig.skip(k + 1));
            assert(state is Done);
            proof {
                assert(orig.take(k + 1).drop_last() =~= orig.take(k));
                assert(orig.take(k + 1).last() == orig[k]);
            }
            match state {
                FileState::Done(program) => {
                    let mut base_prefix: Vec<String> = Vec::new();
                    base_prefix.push(remove_occurrences(path.as_str(), ".cara"));
                    assert(texts(base_prefix@) =~= file_namespace(path@));
                    let mut stmts = Self::process_statements(program.statements, &base_prefix);
                    let ghost before = self.flattened_statements@;
                    let ghost added = stmts@;
                    self.flattened_statements.append(&mut stmts);
                    proof {
                        lemma_statements_view_concat(before, added);
                        assert(flat_files(orig.take(k + 1)) == flat_files(orig.take(k)) + statements_view(added));
                    }
                },
                _ => {},
            }
            proof {
                k = k + 1;
            }
        }
        assert(orig.take(k) =~= orig);
        Program { statements: copy_statements(&self.flattened_statements), span: Span::default() }
    }

    /// The statements with modules dissolved into `prefix`, imports left out, and
    /// every name moved into its namespace; exported declarations and modules are
    /// flattened as if they were not exported.
    #[verifier::loop_isolation(false)]
    fn process_statements(statements: Vec<Statement>, prefix: &Vec<String>) -> (r: Vec<Statement>)
        ensures
            statements_view(r@) == flat_statements(statements_view(statements@), texts(prefix@)),
        decreases statements@,
    {
        let ghost orig = statements@;
        let ghost sv = statements_view(orig);
        let ghost pre = texts(prefix@);
        proof { lemma_statements_view(orig); }
        let mut statements = statements;
        let mut flat: Vec<Statement> = Vec::new();
        let ghost mut k: int = 0;
        proof {
            assert(sv.take(0) =~= Seq::<SpecStatement>::empty());
            assert(statements_view(flat@) =~= Seq::<SpecStatement>::empty());
        }
        while statements.len() > 0
            invariant
                0 <= k <= orig.len(),
                statements@ == orig.skip(k),
                sv == statements_view(orig),
                sv.len() == orig.len(),
                forall|j: int| 0 <= j < orig.len() ==> #[trigger] sv[j] == statement_view(orig[j]),
                pre == texts(prefix@),
                statements_view(flat@) == flat_statements(sv.take(k), pre),
            decreases statements@.len(),
        {
            let stmt = statements.remove(0);
            assert(orig[k] == stmt) by {
                assert(orig.skip(k)[0] == orig[k]);
            }
            assert(statements@ =~= orig.skip(k + 1));
            assert(decreases_to!(orig => orig[k]));
            proof {
                assert(sv.take(k + 1).drop_last() =~= sv.take(k));
                assert(sv.take(k + 1).last() == statement_view(stmt));
            }
            let ghost before = flat@;
            let ghost sview = statement_view(stmt);
            match stmt {
                Statement::ModuleDef(mod_def) => {
                    assert(decreases_to!(orig[k] => mod_def));
                    assert(decreases_to!(mod_def => mod_def.statements));
                    assert(decreases_to!(mod_def.statements => mod_def.statements@));
                    assert(decreases_to!(orig => mod_def.statements@));
                    let mut new_prefix = copy_strings(prefix);
                    new_prefix.push(mod_def.name);
                    assert(texts(new_prefix@) =~= pre.push(mod_def.name@));
                    let mut inner_stmts = Self::process_statements(mod_def.statements, &new_prefix);
                    let ghost added = inner_stmts@;
                    flat.append(&mut inner_stmts);
                    proof { lemma_statements_view_concat(before, added); }
                    assert(statements_view(flat@) == statements_view(before) + flat_statement(sview, pre));
                },
                Statement::Declare(decl) => {
                    assert(decreases_to!(orig[k] => decl));
                    assert(decreases_to!(decl => decl.expr));
                    assert(decreases_to!(orig => decl.expr));
                    let Declare { lhs, expr, span } = decl;
                    let d = Declare { lhs: Self::prefix_lhs(lhs, prefix), expr: Self::prefix_expr(expr, prefix), span };
                    flat.push(Statement::Declare(d));
                    proof { lemma_statements_view_push(before, flat@.last()); }
                    assert(statements_view(flat@) == statements_view(before) + flat_statement(sview, pre));
                },
                Statement::Update(update) => {
                    let u = Self::prefix_update(update, prefix);
                    flat.push(Statement::Update(u));
                    proof { lemma_statements_view_push(before, flat@.last()); }
                    assert(statements_view(flat@) == statements_view(before) + flat_statement(sview, pre));
                },
                Statement::Expression(expr) => {
                    flat.push(Statement::Expression(Self::prefix_expr(expr, prefix)));
                    proof { lemma_statements_view_push(before, flat@.last()); }
                    assert(statements_view(flat@) == statements_view(before) + flat_statement(sview, pre));
                },
                Statement::ExportedComment(c) => {
                    flat.push(Statement::ExportedComment(c));
                    proof { lemma_statements_view_push(before, flat@.last()); }
                    assert(statements_view(flat@) == statements_view(before) + flat_statement(sview, pre));
                },
                Statement::Import(_) => {
                    assert(statements_view(flat@) =~= statements_view(before) + flat_statement(sview, pre));
                },
                Statement::Export(ex) => {
                    assert(decreases_to!(orig[k] => ex));
                    match ex {
                        ExportStmt::ModuleDef(mod_def) => {
                            assert(decreases_to!(ex => mod_def));
                            assert(decreases_to!(mod_def => mod_def.statements));
                            assert(decreases_to!(mod_def.statements => mod_def.statements@));
                            assert(decreases_to!(orig => mod_def.statements@));
                            let mut new_prefix = copy_strings(prefix);
                            new_prefix.push(mod_def.name);
                            assert(texts(new_prefix@) =~= pre.push(mod_def.name@));
                            let mut inner_stmts = Self::process_statements(mod_def.statements, &new_prefix);
                            let ghost added = inner_stmts@;
                            flat.append(&mut inner_stmts);
                            proof { lemma_statements_view_concat(before, added); }
                            assert(statements_view(flat@) == statements_view(before) + flat_statement(sview, pre));
                        },
                        ExportStmt::Declare(decl) => {
                            assert(decreases_to!(ex => decl));
                            assert(decreases_to!(decl => decl.expr));
                            assert(decreases_to!(orig => decl.expr));
                            let Declare { lhs, expr, span } = decl;
                            let d = Declare { lhs: Self::prefix_lhs(lhs, prefix), expr: Self::prefix_expr(expr, prefix), span };
                            flat.push(Statement::Declare(d));
                            proof { lemma_statements_view_push(before, flat@.last()); }
                            assert(statements_view(flat@) == statements_view(before) + flat_statement(sview, pre));
                        },
                        _ => {
                            assert(statements_view(flat@) =~= statements_view(before) + flat_statement(sview, pre));
                        },
                    }
                },
            }
            assert(flat_statements(sv.take(k + 1), pre) == flat_statements(sv.take(k), pre) + flat_statement(sview, pre));
            proof {
                k = k + 1;
            }
        }
        assert(sv.take(k) =~= sv);
        flat
    }

    /// A declaration target with its name moved into `prefix`; the parameters of a
    /// function are local and are left as they are.
    fn prefix_lhs(lhs: AssignmentLhs, prefix: &Vec<String>) -> (r: AssignmentLhs)
        ensures
            lhs_view(r) == prefixed_lhs(lhs_view(lhs), texts(prefix@)),
    {
        match lhs {
            AssignmentLhs::FuncDecl { name, args, span } => AssignmentLhs::FuncDecl {
                name: prepend(prefix, name),
                args,
                span,
            },
            AssignmentLhs::PathIdentifier { path, span } => AssignmentLhs::PathIdentifier {
                path: prepend(prefix, path),
                span,
            },
            AssignmentLhs::MacroCall { name, content, span } => AssignmentLhs::MacroCall { name, content, span },
        }
    }

    fn prefix_update(update: Update, prefix: &Vec<String>) -> (r: Update)
        ensures
            update_view(r) == prefixed_update(update_view(update), texts(prefix@)),
        decreases update,
    {
        let Update { lhs, expr, span } = update;
        Update { lhs: Self::prefix_lhs(lhs, prefix), expr: Self::prefix_expr(expr, prefix), span }
    }

    /// An expression with every name it refers to moved into `prefix`.
    fn prefix_expr(expr: Expression, prefix: &Vec<String>) -> (r: Expression)
        ensures
            expression_view(r) == prefixed_expr(expression_view(expr), texts(prefix@)),
        decreases expr,
    {
        match expr {
            Expression::Primary(primary) => Expression::Primary(Self::prefix_primary(primary, prefix)),
            Expression::Infix { lhs, op, rhs, span } => Expression::Infix {
                lhs: Box::new(Self::prefix_expr(*lhs, prefix)),
                op,
                rhs: Box::new(Self::prefix_expr(*rhs, prefix)),
                span,
            },
        }
    }

    #[verifier::loop_isolation(false)]
    fn prefix_exprs(exprs: Vec<Expression>, prefix: &Vec<String>) -> (r: Vec<Expression>)
        ensures
            expressions_view(r@) == prefixed_exprs(expressions_view(exprs@), texts(prefix@)),
        decreases exprs@,
    {
        let ghost orig = exprs@;
        let ghost ev = expressions_view(orig);
        let ghost pre = texts(prefix@);
        proof { lemma_expressions_view(orig); }
        let mut exprs = exprs;
        let mut out: Vec<Expression> = Vec::new();
        let ghost mut k: int = 0;
        proof {
            assert(ev.take(0) =~= Seq::<SpecExpression>::empty());
            assert(expressions_view(out@) =~= Seq::<SpecExpression>::empty());
        }
        while exprs.len() > 0
            invariant
                0 <= k <= orig.len(),
                exprs@ == orig.skip(k),
                ev == expressions_view(orig),
                ev.len() == orig.len(),
                forall|j: int| 0 <= j < orig.len() ==> #[trigger] ev[j] == expression_view(orig[j]),
                pre == texts(prefix@),
                expressions_view(out@) == prefixed_exprs(ev.take(k), pre),
            decreases exprs@.len(),
        {
            let e = exprs.remove(0);
            assert(orig[k] == e) by {
                assert(orig.skip(k)[0] == orig[k]);
            }
            assert(exprs@ =~= orig.skip(k + 1));
            assert(decreases_to!(orig => orig[k]));
            let ghost before = out@;
            assert(decreases_to!(orig => e));
            out.push(Self::prefix_expr(e, prefix));
            proof {
                assert(ev.take(k + 1).drop_last() =~= ev.take(k));
                lemma_expressions_view_push(before, out@.last());
                assert(out@ =~= before.push(out@.last()));
                k = k + 1;
            }
        }
        assert(ev.take(k) =~= ev);
        out
    }

    #[verifier::loop_isolation(false)]
    fn prefix_primaries(items: Vec<Primary>, prefix: &Vec<String>) -> (r: Vec<Primary>)
        ensures
            primaries_view(r@) == prefixed_primaries(primaries_view(items@), texts(prefix@)),
        decreases items@,
    {
        let ghost orig = items@;
        let ghost pv = primaries_view(orig);
        let ghost pre = texts(prefix@);
        proof { lemma_primaries_view(orig); }
        let mut items = items;
        let mut out: Vec<Primary> = Vec::new();
        let ghost mut k: int = 0;
        proof {
            assert(pv.take(0) =~= Seq::<SpecPrimary>::empty());
            assert(primaries_view(out@) =~= Seq::<SpecPrimary>::empty());
        }
        while items.len() > 0
            invariant
                0 <= k <= orig.len(),
                items@ == orig.skip(k),
                pv == primaries_view(orig),
                pv.len() == orig.len(),
                forall|j: int| 0 <= j < orig.len() ==> #[trigger] pv[j] == primary_view(orig[j]),
                pre == texts(prefix@),
                primaries_view(out@) == prefixed_primaries(pv.take(k), pre),
            decreases items@.len(),
        {
            let p = items.remove(0);
            assert(orig[k] == p) by {
                assert(orig.skip(k)[0] == orig[k]);
            }
            assert(items@ =~= orig.skip(k + 1));
            assert(decreases_to!(orig => orig[k]));
            let ghost before = out@;
            assert(decreases_to!(orig => p));
            out.push(Self::prefix_primary(p, prefix));
            proof {
                assert(pv.take(k + 1).drop_last() =~= pv.take(k));
                lemma_primaries_view_push(before, out@.last());
                assert(out@ =~= before.push(out@.last()));
                k = k + 1;
            }
        }
        assert(pv.take(k) =~= pv);
        out
    }

    /// A primary with every name it refers to moved into `prefix`; a block is
    /// flattened like a file.
    fn prefix_primary(primary: Primary, prefix: &Vec<String>) -> (r: Primary)
        ensures
            primary_view(r) == prefixed_primary(primary_view(primary), texts(prefix@)),
        decreases primary,
    {
        match primary {
            Primary::PathIdentifier(path, span) => Primary::PathIdentifier(prepend(prefix, path), span),
            Primary::FuncCall { target, args, span } => Primary::FuncCall {
                target: Box::new(Self::prefix_primary(*target, prefix)),
                args: Self::prefix_exprs(args, prefix),
                span,
            },
            Primary::Expression(expr, span) => Primary::Expression(Box::new(Self::prefix_expr(*expr, prefix)), span),
            Primary::Block(stmts, span) => Primary::Block(Self::process_statements(stmts, prefix), span),
            Primary::AbsVal(expr, span) => Primary::AbsVal(Box::new(Self::prefix_expr(*expr, prefix)), span),
            Primary::List(items, span) => Primary::List(Self::prefix_primaries(items, prefix), span),
            Primary::Point(x, y, span) => Primary::Point(
                Box::new(Self::prefix_primary(*x, prefix)),
                Box::new(Self::prefix_primary(*y, prefix)),
                span,
            ),
            Primary::Update(update, span) => Primary::Update(Box::new(Self::prefix_update(*update, prefix)), span),
            Primary::Number(t, span) => Primary::Number(t, span),
            Primary::StringLit(s) => Primary::StringLit(s),
            Primary::MacroCall { name, content, span } => Primary::MacroCall { name, content, span },
        }
    }
}

proof fn lemma_statements_view_concat(a: Seq<Statement>, b: Seq<Statement>)
    ensures
        statements_view(a + b) == statements_view(a) + statements_view(b),
{
    lemma_statements_view(a);
    lemma_statements_view(b);
    lemma_statements_view(a + b);
    assert(statements_view(a + b) =~= statements_view(a) + statements_view(b));
}

proof fn lemma_statements_view_push(a: Seq<Statement>, s: Statement)
    ensures
        statements_view(a.push(s)) == statements_view(a).push(statement_view(s)),
{
    lemma_statements_view(a);
    lemma_statements_view(a.push(s));
    assert(statements_view(a.push(s)) =~= statements_view(a).push(statement_view(s)));
}

proof fn lemma_expressions_view_push(a: Seq<Expression>, e: Expression)
    ensures
        expressions_view(a.push(e)) == expressions_view(a).push(expression_view(e)),
{
    lemma_expressions_view(a);
    lemma_expressions_view(a.push(e));
    assert(expressions_view(a.push(e)) =~= expressions_view(a).push(expression_view(e)));
}

proof fn lemma_primaries_view_push(a: Seq<Primary>, p: Primary)
    ensures
        primaries_view(a.push(p)) == primaries_view(a).push(primary_view(p)),
{
    lemma_primaries_view(a);
    lemma_primaries_view(a.push(p));
    assert(primaries_view(a.push(p)) =~= primaries_view(a).push(primary_view(p)));
}

// ----- What holds of every flattened program -----

/// A statement that can stand in a flattened program: no module, import or export.
pub open spec fn is_flat(s: SpecStatement) -> bool {
    !(s is ModuleDef) && !(s is Import) && !(s is Export)
}

/// `prefix` is the start of `path`.
pub open spec fn starts_with(path: Seq<Text>, prefix: Seq<Text>) -> bool {
    prefix.len() <= path.len() && path.take(prefix.len() as int) == prefix
}

/// A declaration target whose name lies in the namespace `prefix`.
pub open spec fn lhs_in_namespace(lhs: SpecAssignmentLhs, prefix: Seq<Text>) -> bool {
    match lhs {
        SpecAssignmentLhs::FuncDecl { name, .. } => starts_with(name, prefix),
        SpecAssignmentLhs::PathIdentifier { path, .. } => starts_with(path, prefix),
        SpecAssignmentLhs::MacroCall { .. } => true,
    }
}

/// A declaration or update whose target lies in the namespace `prefix`; other
/// statements declare nothing.
pub open spec fn in_namespace(s: SpecStatement, prefix: Seq<Text>) -> bool {
    match s {
        SpecStatement::Declare(d) => lhs_in_namespace(d.lhs, prefix),
        SpecStatement::Update(u) => lhs_in_namespace(u.lhs, prefix),
        _ => true,
    }
}

proof fn lemma_lhs_widen(lhs: SpecAssignmentLhs, prefix: Seq<Text>, name: Text)
    requires
        lhs_in_namespace(lhs, prefix.push(name)),
    ensures
        lhs_in_namespace(lhs, prefix),
{
    let p2 = prefix.push(name);
    match lhs {
        SpecAssignmentLhs::FuncDecl { name: n, .. } => {
            assert(n.take(prefix.len() as int) =~= n.take(p2.len() as int).take(prefix.len() as int));
            assert(p2.take(prefix.len() as int) =~= prefix);
        },
        SpecAssignmentLhs::PathIdentifier { path, .. } => {
            assert(path.take(prefix.len() as int) =~= path.take(p2.len() as int).take(prefix.len() as int));
            assert(p2.take(prefix.len() as int) =~= prefix);
        },
        _ => {},
    }
}

proof fn lemma_namespace_widen(s: SpecStatement, prefix: Seq<Text>, name: Text)
    requires
        in_namespace(s, prefix.push(name)),
    ensures
        in_namespace(s, prefix),
{
    match s {
        SpecStatement::Declare(d) => lemma_lhs_widen(d.lhs, prefix, name),
        SpecStatement::Update(u) => lemma_lhs_widen(u.lhs, prefix, name),
        _ => {},
    }
}

proof fn lemma_prefixed_lhs_in_namespace(lhs: SpecAssignmentLhs, prefix: Seq<Text>)
    ensures
        lhs_in_namespace(prefixed_lhs(lhs, prefix), prefix),
{
    match lhs {
        SpecAssignmentLhs::FuncDecl { name, .. } => {
            assert((prefix + name).take(prefix.len() as int) =~= prefix);
        },
        SpecAssignmentLhs::PathIdentifier { path, .. } => {
            assert((prefix + path).take(prefix.len() as int) =~= prefix);
        },
        _ => {},
    }
}

/// Flattening leaves no module, import or export among the statements, and every
/// declaration and update it keeps names something in the namespace `prefix`.
pub proof fn lemma_flat_statements(s: Seq<SpecStatement>, prefix: Seq<Text>)
    ensures
        forall|i: int| 0 <= i < flat_statements(s, prefix).len() ==> is_flat(#[trigger] flat_statements(s, prefix)[i]),
        forall|i: int| 0 <= i < flat_statements(s, prefix).len() ==> in_namespace(#[trigger] flat_statements(s, prefix)[i], prefix),
    decreases s,
{
    if s.len() > 0 {
        lemma_flat_statements(s.drop_last(), prefix);
        lemma_flat_statement(s.last(), prefix);
        let a = flat_statements(s.drop_last(), prefix);
        let b = flat_statement(s.last(), prefix);
        assert(flat_statements(s, prefix) == a + b);
        assert forall|i: int| 0 <= i < (a + b).len() implies is_flat(#[trigger] (a + b)[i]) && in_namespace((a + b)[i], prefix) by {
            if i < a.len() {
                assert((a + b)[i] == a[i]);
            } else {
                assert((a + b)[i] == b[i - a.len()]);
            }
        }
    }
}

/// What one statement becomes when flattened holds no module, import or export,
/// and names only things in the namespace `prefix`.
pub proof fn lemma_flat_statement(st: SpecStatement, prefix: Seq<Text>)
    ensures
        forall|i: int| 0 <= i < flat_statement(st, prefix).len() ==> is_flat(#[trigger] flat_statement(st, prefix)[i]),
        forall|i: int| 0 <= i < flat_statement(st, prefix).len() ==> in_namespace(#[trigger] flat_statement(st, prefix)[i], prefix),
    decreases st,
{
    match st {
        SpecStatement::ModuleDef(m) => {
            lemma_flat_statements(m.statements, prefix.push(m.name));
            let r = flat_statements(m.statements, prefix.push(m.name));
            assert forall|i: int| 0 <= i < r.len() implies in_namespace(#[trigger] r[i], prefix) by {
                lemma_namespace_widen(r[i], prefix, m.name);
            }
        },
        SpecStatement::Declare(d) => {
            lemma_prefixed_lhs_in_namespace(d.lhs, prefix);
        },
        SpecStatement::Update(u) => {
            lemma_prefixed_lhs_in_namespace(u.lhs, prefix);
        },
        SpecStatement::Export(SpecExportStmt::ModuleDef(m)) => {
            lemma_flat_statements(m.statements, prefix.push(m.name));
            let r = flat_statements(m.statements, prefix.push(m.name));
            assert forall|i: int| 0 <= i < r.len() implies in_namespace(#[trigger] r[i], prefix) by {
                lemma_namespace_widen(r[i], prefix, m.name);
            }
        },
        SpecStatement::Export(SpecExportStmt::Declare(d)) => {
            lemma_prefixed_lhs_in_namespace(d.lhs, prefix);
        },
        _ => {},
    }
}

/// A flattened program holds no module, import or export.
pub proof fn lemma_flat_files(files: Seq<(String, FileState)>)
    ensures
        forall|i: int| 0 <= i < flat_files(files).len() ==> is_flat(#[trigger] flat_files(files)[i]),
    decreases files.len(),
{
    if files.len() > 0 {
        lemma_flat_files(files.drop_last());
        let a = flat_files(files.drop_last());
        let b = match files.last().1 {
            FileState::Done(p) => flat_statements(statements_view(p.statements@), file_namespace(files.last().0@)),
            _ => Seq::empty(),
        };
        match files.last().1 {
            FileState::Done(p) => {
                lemma_flat_statements(statements_view(p.statements@), file_namespace(files.last().0@));
            },
            _ => {},
        }
        assert(flat_files(files) == a + b);
        assert forall|i: int| 0 <= i < (a + b).len() implies is_flat(#[trigger] (a + b)[i]) by {
            if i < a.len() {
                assert((a + b)[i] == a[i]);
            } else {
                assert((a + b)[i] == b[i - a.len()]);
            }
        }
    }
}


// ----- Every name in a flattened expression lies in its namespace -----

/// Every path that `p` refers to, in call targets, arguments, lists, points,
/// parentheses, absolute values, updates and blocks, starts with `q`.
pub open spec fn primary_names_within(p: SpecPrimary, q: Seq<Text>) -> bool
    decreases p,
{
    match p {
        SpecPrimary::PathIdentifier(path, _) => starts_with(path, q),
        SpecPrimary::FuncCall { target, args, .. } => primary_names_within(*target, q) && exprs_names_within(args, q),
        SpecPrimary::Expression(e, _) => expr_names_within(*e, q),
        SpecPrimary::Block(stmts, _) => stmts_names_within(stmts, q),
        SpecPrimary::AbsVal(e, _) => expr_names_within(*e, q),
        SpecPrimary::List(items, _) => primaries_names_within(items, q),
        SpecPrimary::Point(x, y, _) => primary_names_within(*x, q) && primary_names_within(*y, q),
        SpecPrimary::Update(u, _) => expr_names_within(u.expr, q),
        _ => true,
    }
}

/// Every path that `e` refers to starts with `q`.
pub open spec fn expr_names_within(e: SpecExpression, q: Seq<Text>) -> bool
    decreases e,
{
    match e {
        SpecExpression::Primary(p) => primary_names_within(p, q),
        SpecExpression::Infix { lhs, rhs, .. } => expr_names_within(*lhs, q) && expr_names_within(*rhs, q),
    }
}

/// Every path that the expressions refer to starts with `q`.
pub open spec fn exprs_names_within(s: Seq<SpecExpression>, q: Seq<Text>) -> bool
    decreases s,
{
    if s.len() == 0 {
        true
    } else {
        exprs_names_within(s.drop_last(), q) && expr_names_within(s.last(), q)
    }
}

/// Every path that the primaries refer to starts with `q`.
pub open spec fn primaries_names_within(s: Seq<SpecPrimary>, q: Seq<Text>) -> bool
    decreases s,
{
    if s.len() == 0 {
        true
    } else {
        primaries_names_within(s.drop_last(), q) && primary_names_within(s.last(), q)
    }
}

/// Every path that the expressions of the statements refer to starts with `q`.
pub open spec fn stmts_names_within(s: Seq<SpecStatement>, q: Seq<Text>) -> bool
    decreases s,
{
    if s.len() == 0 {
        true
    } else {
        stmts_names_within(s.drop_last(), q) && stmt_names_within(s.last(), q)
    }
}

/// Every path that the expressions of a statement refer to starts with `q`.
pub open spec fn stmt_names_within(st: SpecStatement, q: Seq<Text>) -> bool
    decreases st,
{
    match st {
        SpecStatement::Declare(d) => expr_names_within(d.expr, q),
        SpecStatement::Update(u) => expr_names_within(u.expr, q),
        SpecStatement::Expression(e) => expr_names_within(e, q),
        SpecStatement::ModuleDef(m) => stmts_names_within(m.statements, q),
        SpecStatement::Export(SpecExportStmt::Declare(d)) => expr_names_within(d.expr, q),
        SpecStatement::Export(SpecExportStmt::ModuleDef(m)) => stmts_names_within(m.statements, q),
        _ => true,
    }
}

proof fn lemma_stmts_names_concat(a: Seq<SpecStatement>, b: Seq<SpecStatement>, q: Seq<Text>)
    ensures
        stmts_names_within(a + b, q) == (stmts_names_within(a, q) && stmts_names_within(b, q)),
    decreases b.len(),
{
    if b.len() == 0 {
        assert(a + b =~= a);
    } else {
        lemma_stmts_names_concat(a, b.drop_last(), q);
        assert((a + b).drop_last() =~= a + b.drop_last());
        assert((a + b).last() == b.last());
    }
}

/// Moving a primary into the namespace `prefix` puts every name it refers to,
/// the target of a call included, in every namespace that `prefix` lies in.
pub proof fn lemma_prefixed_primary_within(p: SpecPrimary, prefix: Seq<Text>, q: Seq<Text>)
    requires
        starts_with(prefix, q),
    ensures
        primary_names_within(prefixed_primary(p, prefix), q),
    decreases p,
{
    match p {
        SpecPrimary::PathIdentifier(path, sp) => {
            assert((prefix + path).take(q.len() as int) =~= prefix.take(q.len() as int));
            assert(starts_with(prefix + path, q));
            assert(prefixed_primary(p, prefix) == SpecPrimary::PathIdentifier(prefix + path, sp));
            assert(primary_names_within(prefixed_primary(p, prefix), q));
        },
        SpecPrimary::FuncCall { target, args, .. } => {
            lemma_prefixed_primary_within(*target, prefix, q);
            lemma_prefixed_exprs_within(args, prefix, q);
            assert(primary_names_within(prefixed_primary(p, prefix), q));
        },
        SpecPrimary::Expression(e, _) => {
            lemma_prefixed_expr_within(*e, prefix, q);
            assert(primary_names_within(prefixed_primary(p, prefix), q));
        },
        SpecPrimary::Block(stmts, _) => {
            lemma_flat_statements_within(stmts, prefix, q);
            assert(primary_names_within(prefixed_primary(p, prefix), q));
        },
        SpecPrimary::AbsVal(e, _) => {
            lemma_prefixed_expr_within(*e, prefix, q);
            assert(primary_names_within(prefixed_primary(p, prefix), q));
        },
        SpecPrimary::List(items, _) => {
            lemma_prefixed_primaries_within(items, prefix, q);
            assert(primary_names_within(prefixed_primary(p, prefix), q));
        },
        SpecPrimary::Point(x, y, _) => {
            lemma_prefixed_primary_within(*x, prefix, q);
            lemma_prefixed_primary_within(*y, prefix, q);
            assert(primary_names_within(prefixed_primary(p, prefix), q));
        },
        SpecPrimary::Update(u, _) => {
            lemma_prefixed_expr_within(u.expr, prefix, q);
            assert(prefixed_update(*u, prefix).expr == prefixed_expr(u.expr, prefix));
            assert(primary_names_within(prefixed_primary(p, prefix), q));
        },
        _ => {
            assert(primary_names_within(prefixed_primary(p, prefix), q));
        },
    }
}

/// Moving an expression into the namespace `prefix` puts every name it refers to
/// in every namespace that `prefix` lies in.
pub proof fn lemma_prefixed_expr_within(e: SpecExpression, prefix: Seq<Text>, q: Seq<Text>)
    requires
        starts_with(prefix, q),
    ensures
        expr_names_within(prefixed_expr(e, prefix), q),
    decreases e,
{
    match e {
        SpecExpression::Primary(p) => {
            lemma_prefixed_primary_within(p, prefix, q);
        },
        SpecExpression::Infix { lhs, rhs, .. } => {
            lemma_prefixed_expr_within(*lhs, prefix, q);
            lemma_prefixed_expr_within(*rhs, prefix, q);
        },
    }
}

proof fn lemma_prefixed_exprs_within(s: Seq<SpecExpression>, prefix: Seq<Text>, q: Seq<Text>)
    requires
        starts_with(prefix, q),
    ensures
        exprs_names_within(prefixed_exprs(s, prefix), q),
    decreases s,
{
    if s.len() > 0 {
        lemma_prefixed_exprs_within(s.drop_last(), prefix, q);
        lemma_prefixed_expr_within(s.last(), prefix, q);
        let r = prefixed_exprs(s, prefix);
        assert(r.drop_last() =~= prefixed_exprs(s.drop_last(), prefix));
    }
}

proof fn lemma_prefixed_primaries_within(s: Seq<SpecPrimary>, prefix: Seq<Text>, q: Seq<Text>)
    requires
        starts_with(prefix, q),
    ensures
        primaries_names_within(prefixed_primaries(s, prefix), q),
    decreases s,
{
    if s.len() > 0 {
        lemma_prefixed_primaries_within(s.drop_last(), prefix, q);
        lemma_prefixed_primary_within(s.last(), prefix, q);
        let r = prefixed_primaries(s, prefix);
        assert(r.drop_last() =~= prefixed_primaries(s.drop_last(), prefix));
    }
}

/// Flattening statements into the namespace `prefix` puts every name that their
/// expressions refer to in every namespace that `prefix` lies in.
pub proof fn lemma_flat_statements_within(s: Seq<SpecStatement>, prefix: Seq<Text>, q: Seq<Text>)
    requires
        starts_with(prefix, q),
    ensures
        stmts_names_within(flat_statements(s, prefix), q),
    decreases s,
{
    if s.len() > 0 {
        lemma_flat_statements_within(s.drop_last(), prefix, q);
        lemma_flat_statement_within(s.last(), prefix, q);
        lemma_stmts_names_concat(flat_statements(s.drop_last(), prefix), flat_statement(s.last(), prefix), q);
    }
}

proof fn lemma_flat_statement_within(st: SpecStatement, prefix: Seq<Text>, q: Seq<Text>)
    requires
        starts_with(prefix, q),
    ensures
        stmts_names_within(flat_statement(st, prefix), q),
    decreases st,
{
    match st {
        SpecStatement::ModuleDef(m) => {
            assert(prefix.push(m.name).take(q.len() as int) =~= prefix.take(q.len() as int));
            lemma_flat_statements_within(m.statements, prefix.push(m.name), q);
            assert(flat_statement(st, prefix) == flat_statements(m.statements, prefix.push(m.name)));
            assert(stmts_names_within(flat_statement(st, prefix), q));
        },
        SpecStatement::Declare(d) => {
            lemma_prefixed_expr_within(d.expr, prefix, q);
            let r = flat_statement(st, prefix);
            assert(r.drop_last() =~= Seq::<SpecStatement>::empty());
            assert(stmt_names_within(r.last(), q));
            assert(stmts_names_within(r.drop_last(), q));
            assert(stmts_names_within(flat_statement(st, prefix), q));
        },
        SpecStatement::Update(u) => {
            lemma_prefixed_expr_within(u.expr, prefix, q);
            let r = flat_statement(st, prefix);
            assert(r.drop_last() =~= Seq::<SpecStatement>::empty());
            assert(prefixed_update(u, prefix).expr == prefixed_expr(u.expr, prefix));
            assert(stmt_names_within(r.last(), q));
            assert(stmts_names_within(r.drop_last(), q));
            assert(stmts_names_within(flat_statement(st, prefix), q));
        },
        SpecStatement::Expression(e) => {
            lemma_prefixed_expr_within(e, prefix, q);
            let r = flat_statement(st, prefix);
            assert(r.drop_last() =~= Seq::<SpecStatement>::empty());
            assert(stmt_names_within(r.last(), q));
            assert(stmts_names_within(r.drop_last(), q));
            assert(stmts_names_within(flat_statement(st, prefix), q));
        },
        SpecStatement::ExportedComment(_) => {
            let r = flat_statement(st, prefix);
            assert(r.drop_last() =~= Seq::<SpecStatement>::empty());
            assert(stmt_names_within(r.last(), q));
            assert(stmts_names_within(r.drop_last(), q));
            assert(stmts_names_within(flat_statement(st, prefix), q));
        },
        SpecStatement::Export(SpecExportStmt::ModuleDef(m)) => {
            assert(prefix.push(m.name).take(q.len() as int) =~= prefix.take(q.len() as int));
            lemma_flat_statements_within(m.statements, prefix.push(m.name), q);
            assert(stmts_names_within(flat_statement(st, prefix), q));
        },
        SpecStatement::Export(SpecExportStmt::Declare(d)) => {
            lemma_prefixed_expr_within(d.expr, prefix, q);
            let r = flat_statement(st, prefix);
            assert(r.drop_last() =~= Seq::<SpecStatement>::empty());
            assert(stmt_names_within(r.last(), q));
            assert(stmts_names_within(r.drop_last(), q));
            assert(stmts_names_within(flat_statement(st, prefix), q));
        },
        _ => {
            assert(stmts_names_within(flat_statement(st, prefix), q));
        },
    }
}

/// A flattened file refers only to names in its own namespace: every path in its
/// expressions, call targets included, starts with the namespace of the file.
pub proof fn lemma_flat_names_in_namespace(s: Seq<SpecStatement>, prefix: Seq<Text>)
    ensures
        stmts_names_within(flat_statements(s, prefix), prefix),
{
    assert(prefix.take(prefix.len() as int) =~= prefix);
    lemma_flat_statements_within(s, prefix, prefix);
}

} // verus!
