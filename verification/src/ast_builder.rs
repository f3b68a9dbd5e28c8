use vstd::prelude::*;

use crate::ast::{
    expression_view, expressions_view, lemma_expressions_view, lemma_primaries_view, lemma_statements_view,
    opt_view, primaries_view, primary_view, statement_view, statements_view, texts, AssignmentLhs, Declare, ExportStmt, Expression, ImportPath, ImportStmt, ModuleDef,
    Primary, Program, Statement, StringLit, Update, SpecAssignmentLhs, SpecDeclare, SpecExportStmt, SpecExpression, SpecImportPath, SpecImportStmt,
    SpecModuleDef, SpecPrimary, SpecProgram, SpecStatement, SpecStringLit, SpecUpdate, Text,
};
use crate::frontend_types::{ParseError, Span};
use crate::text::{float_literal, is_float_literal, join, join_all, split_on, split_text};
use crate::resolve::{candidate_files, import_candidates};

verus! {

// ----- The parse tree that the grammar gives -----

/// The grammar rules that the builder tells apart; any other rule keeps its name.
#[derive(Debug)]
pub enum Rule {
    Program,
    Eoi,
    ImportStmt,
    ExportStmt,
    ModuleDef,
    Declare,
    Update,
    ExportedComment,
    Expression,
    MacroCall,
    ImportPath,
    Asterix,
    Identifier,
    Number,
    StringLit,
    PathIdentifier,
    FuncCall,
    Block,
    AbsVal,
    List,
    Point,
    FuncDecl,
    CompOp,
    AddOp,
    MulOp,
    Power,
    Other(String),
}

/// The name of a rule in the grammar.
pub open spec fn rule_name(r: Rule) -> Text {
    match r {
        Rule::Program => "program"@,
        Rule::Eoi => "EOI"@,
        Rule::ImportStmt => "import_stmt"@,
        Rule::ExportStmt => "export_stmt"@,
        Rule::ModuleDef => "module_def"@,
        Rule::Declare => "declare"@,
        Rule::Update => "update"@,
        Rule::ExportedComment => "exported_comment"@,
        Rule::Expression => "expression"@,
        Rule::MacroCall => "macro_call"@,
        Rule::ImportPath => "import_path"@,
        Rule::Asterix => "asterix"@,
        Rule::Identifier => "identifier"@,
        Rule::Number => "number"@,
        Rule::StringLit => "string_lit"@,
        Rule::PathIdentifier => "path_identifier"@,
        Rule::FuncCall => "func_call"@,
        Rule::Block => "block"@,
        Rule::AbsVal => "abs_val"@,
        Rule::List => "list"@,
        Rule::Point => "point"@,
        Rule::FuncDecl => "func_decl"@,
        Rule::CompOp => "comp_op"@,
        Rule::AddOp => "add_op"@,
        Rule::MulOp => "mul_op"@,
        Rule::Power => "power"@,
        Rule::Other(name) => name@,
    }
}

/// A node of the parse tree: the rule it matched, the text and byte range it
/// covers, and the nodes inside it.
#[derive(Debug)]
pub struct ParseNode {
    pub rule: Rule,
    pub text: String,
    pub span: Span,
    pub children: Vec<ParseNode>,
}

// ----- What building does: a value, the errors and dependencies it records -----

/// The result of building part of the tree: the value, if one is built; the
/// errors and the dependencies recorded on the way, in order; and whether the
/// build runs to its end rather than stopping the program.
pub ghost struct Outcome<T> {
    pub value: Option<T>,
    pub errors: Seq<(Span, Text)>,
    pub deps: Seq<Seq<Text>>,
    pub completes: bool,
}

pub open spec fn found<T>(v: T) -> Outcome<T> {
    Outcome { value: Some(v), errors: Seq::empty(), deps: Seq::empty(), completes: true }
}

pub open spec fn missing<T>() -> Outcome<T> {
    Outcome { value: None, errors: Seq::empty(), deps: Seq::empty(), completes: true }
}

pub open spec fn failed<T>(span: Span, message: Text) -> Outcome<T> {
    Outcome { value: None, errors: seq![(span, message)], deps: Seq::empty(), completes: true }
}

/// The effects of `o` with another value.
pub open spec fn with_value<T, U>(o: Outcome<T>, v: Option<U>) -> Outcome<U> {
    Outcome { value: v, errors: o.errors, deps: o.deps, completes: o.completes }
}

/// The effects of `a`, then those of `b`, with the value of `b`.
pub open spec fn then<T, U>(a: Outcome<T>, b: Outcome<U>) -> Outcome<U> {
    Outcome {
        value: b.value,
        errors: a.errors + b.errors,
        deps: a.deps + b.deps,
        completes: a.completes && b.completes,
    }
}

/// The value kept, if there is one, after those gathered before.
pub open spec fn keep<T>(acc: Seq<T>, v: Option<T>) -> Seq<T> {
    match v {
        Some(x) => acc.push(x),
        None => acc,
    }
}

pub open spec fn node_texts(ns: Seq<ParseNode>) -> Seq<Text> {
    ns.map_values(|m: ParseNode| m.text@)
}

/// The rules that stand for an operand of an expression.
pub open spec fn is_primary_rule(r: Rule) -> bool {
    ||| r is Number
    ||| r is StringLit
    ||| r is PathIdentifier
    ||| r is FuncCall
    ||| r is Block
    ||| r is AbsVal
    ||| r is List
    ||| r is Point
    ||| r is Expression
}

/// The precedence of an operator rule: comparisons bind loosest, then sums, then
/// products, then powers; 0 for a rule that is no operator.
pub open spec fn op_prec(r: Rule) -> int {
    match r {
        Rule::CompOp => 1,
        Rule::AddOp => 2,
        Rule::MulOp => 3,
        Rule::Power => 4,
        _ => 0,
    }
}

/// Operands and operators alternate, starting and ending with an operand.
pub open spec fn alternates(c: Seq<ParseNode>) -> bool {
    &&& c.len() % 2 == 1
    &&& forall|i: int| 0 <= i < c.len() ==> ((i % 2 == 0) <==> op_prec(#[trigger] c[i].rule) == 0)
}

/// The operators between the operands, with their precedence.
pub open spec fn operators_of(c: Seq<ParseNode>) -> Seq<(Text, int)> {
    Seq::new(c.len() / 2, |i: int| (c[2 * i + 1].text@, op_prec(c[2 * i + 1].rule)))
}

pub open spec fn min_int(a: int, b: int) -> int {
    if a <= b {
        a
    } else {
        b
    }
}

/// The loosest precedence among the operators.
pub open spec fn lowest(ops: Seq<(Text, int)>) -> int
    decreases ops.len(),
{
    if ops.len() == 0 {
        5
    } else {
        min_int(lowest(ops.drop_last()), ops.last().1)
    }
}

pub open spec fn first_with(ops: Seq<(Text, int)>, p: int) -> int
    decreases ops.len(),
{
    if ops.len() == 0 {
        -1
    } else if first_with(ops.drop_last(), p) >= 0 {
        first_with(ops.drop_last(), p)
    } else if ops.last().1 == p {
        ops.len() - 1
    } else {
        -1
    }
}

pub open spec fn last_with(ops: Seq<(Text, int)>, p: int) -> int
    decreases ops.len(),
{
    if ops.len() == 0 {
        -1
    } else if ops.last().1 == p {
        ops.len() - 1
    } else {
        last_with(ops.drop_last(), p)
    }
}

/// The operator at the root of the tree: the last one of the loosest precedence,
/// or the first one when that precedence is that of powers, which group to the
/// right.
pub open spec fn root_index(ops: Seq<(Text, int)>) -> int {
    if lowest(ops) == 4 {
        first_with(ops, 4)
    } else {
        last_with(ops, lowest(ops))
    }
}

pub open spec fn primary_span(p: SpecPrimary) -> Span {
    match p {
        SpecPrimary::Number(_, sp) => sp,
        SpecPrimary::StringLit(s) => s.span,
        SpecPrimary::FuncCall { span, .. } => span,
        SpecPrimary::MacroCall { span, .. } => span,
        SpecPrimary::PathIdentifier(_, sp) => sp,
        SpecPrimary::Expression(_, sp) => sp,
        SpecPrimary::Block(_, sp) => sp,
        SpecPrimary::AbsVal(_, sp) => sp,
        SpecPrimary::List(_, sp) => sp,
        SpecPrimary::Point(_, _, sp) => sp,
        SpecPrimary::Update(_, sp) => sp,
    }
}

pub open spec fn expr_span(e: SpecExpression) -> Span {
    match e {
        SpecExpression::Primary(p) => primary_span(p),
        SpecExpression::Infix { span, .. } => span,
    }
}

/// The expression tree over the operands and operators, grouped by precedence;
/// an operator's range runs from the start of its left operand to the end of its
/// right one.
pub open spec fn combine(operands: Seq<SpecExpression>, ops: Seq<(Text, int)>) -> SpecExpression
    decreases ops.len(),
{
    let k = root_index(ops);
    if ops.len() == 0 || operands.len() != ops.len() + 1 || !(0 <= k < ops.len()) {
        operands[0]
    } else {
        let l = combine(operands.take(k + 1), ops.take(k));
        let r = combine(operands.skip(k + 1), ops.skip(k + 1));
        SpecExpression::Infix {
            lhs: Box::new(l),
            op: ops[k].0,
            rhs: Box::new(r),
            span: Span { start: expr_span(l).start, end: expr_span(r).end },
        }
    }
}

/// What stands in for an operand that could not be built.
pub open spec fn zero_operand() -> SpecExpression {
    SpecExpression::Primary(SpecPrimary::Number(seq!['0'], Span { start: 0, end: 0 }))
}

/// The target that the left side of a declaration or update names, if it is a
/// function head or a path.
pub open spec fn lhs_of(n: ParseNode) -> Option<SpecAssignmentLhs> {
    let c = n.children@;
    if c.len() == 0 {
        None
    } else {
        let inner = c[0];
        let it = inner.children@;
        match inner.rule {
            Rule::FuncDecl => if it.len() == 0 {
                None
            } else {
                Some(
                    SpecAssignmentLhs::FuncDecl {
                        name: split_on(it[0].text@, "::"@),
                        args: node_texts(it.skip(1)),
                        span: inner.span,
                    },
                )
            },
            Rule::PathIdentifier => Some(
                SpecAssignmentLhs::PathIdentifier { path: split_on(inner.text@, "::"@), span: inner.span },
            ),
            _ => None,
        }
    }
}

/// The segments of an import path, the `*` left out.
pub open spec fn import_segments(ns: Seq<ParseNode>) -> Seq<Text>
    decreases ns.len(),
{
    if ns.len() == 0 {
        Seq::empty()
    } else if ns.last().rule is Asterix {
        import_segments(ns.drop_last())
    } else {
        import_segments(ns.drop_last()).push(ns.last().text@)
    }
}

/// Whether some node among `ns` is an asterisk.
pub open spec fn has_asterix_child(ns: Seq<ParseNode>) -> bool {
    exists|i: int| 0 <= i < ns.len() && #[trigger] ns[i].rule is Asterix
}

/// An import of `path`, with the alias that follows the target, if any.
pub open spec fn import_with(path: SpecImportPath, c: Seq<ParseNode>, span: Span) -> SpecImportStmt {
    SpecImportStmt {
        path,
        alias: if c.len() > 1 && c[1].rule is Identifier {
            Some(c[1].text@)
        } else {
            None
        },
        span,
    }
}

pub open spec fn import_outcome(n: ParseNode) -> Outcome<SpecImportStmt>
    decreases n, 0int,
{
    let c = n.children@;
    if c.len() == 0 {
        missing()
    } else {
        let t = c[0];
        match t.rule {
            Rule::MacroCall => if t.children@.len() == 0 {
                missing()
            } else {
                found(import_with(SpecImportPath::Macro(t.children@[0].text@), c, n.span))
            },
            Rule::ImportPath => {
                let segs = import_segments(t.children@);
                Outcome {
                    value: Some(import_with(SpecImportPath::Path(segs, has_asterix_child(t.children@)), c, n.span)),
                    errors: Seq::empty(),
                    deps: seq![import_candidates(segs)],
                    completes: true,
                }
            },
            _ => failed(t.span, "Invalid import target"@),
        }
    }
}

pub open spec fn comment_outcome(n: ParseNode) -> Outcome<SpecStringLit> {
    let c = n.children@;
    if c.len() == 0 || c[0].children@.len() == 0 {
        missing()
    } else {
        found(SpecStringLit { value: c[0].children@[0].text@, span: c[0].span })
    }
}

pub open spec fn statements_outcome(ns: Seq<ParseNode>) -> Outcome<Seq<SpecStatement>>
    decreases ns, 0int,
{
    if ns.len() == 0 {
        found(Seq::empty())
    } else {
        let a = statements_outcome(ns.drop_last());
        let b = statement_outcome(ns.last());
        then(a, with_value(b, Some(keep(a.value.unwrap(), b.value))))
    }
}

pub open spec fn statement_outcome(n: ParseNode) -> Outcome<SpecStatement>
    decreases n, 1int,
{
    match n.rule {
        Rule::ImportStmt => {
            let o = import_outcome(n);
            with_value(o, match o.value { Some(v) => Some(SpecStatement::Import(v)), None => None })
        },
        Rule::ExportStmt => {
            let o = export_outcome(n);
            with_value(o, match o.value { Some(v) => Some(SpecStatement::Export(v)), None => None })
        },
        Rule::ModuleDef => {
            let o = module_outcome(n);
            with_value(o, match o.value { Some(v) => Some(SpecStatement::ModuleDef(v)), None => None })
        },
        Rule::Declare => {
            let o = declare_outcome(n);
            with_value(o, match o.value { Some(v) => Some(SpecStatement::Declare(v)), None => None })
        },
        Rule::Update => {
            let o = update_outcome(n);
            with_value(o, match o.value { Some(v) => Some(SpecStatement::Update(v)), None => None })
        },
        Rule::ExportedComment => {
            let o = comment_outcome(n);
            with_value(o, match o.value { Some(v) => Some(SpecStatement::ExportedComment(v)), None => None })
        },
        Rule::Expression => {
            let o = expression_outcome(n);
            with_value(o, match o.value { Some(v) => Some(SpecStatement::Expression(v)), None => None })
        },
        _ => failed(n.span, "Unexpected rule in statement: "@ + rule_name(n.rule)),
    }
}

pub open spec fn export_outcome(n: ParseNode) -> Outcome<SpecExportStmt>
    decreases n, 0int,
{
    let c = n.children@;
    if c.len() == 0 {
        missing()
    } else {
        let inner = c[0];
        match inner.rule {
            Rule::ModuleDef => {
                let o = module_outcome(inner);
                with_value(o, match o.value { Some(v) => Some(SpecExportStmt::ModuleDef(v)), None => None })
            },
            Rule::Declare => {
                let o = declare_outcome(inner);
                with_value(o, match o.value { Some(v) => Some(SpecExportStmt::Declare(v)), None => None })
            },
            Rule::Identifier => found(SpecExportStmt::Identifier(inner.text@)),
            Rule::ImportStmt => {
                let o = import_outcome(inner);
                Outcome {
                    value: match o.value { Some(v) => Some(SpecExportStmt::Use(v)), None => None },
                    errors: o.errors,
                    deps: o.deps,
                    completes: o.completes && o.value is Some,
                }
            },
            _ => failed(inner.span, "Invalid export target"@),
        }
    }
}

pub open spec fn module_outcome(n: ParseNode) -> Outcome<SpecModuleDef>
    decreases n, 0int,
{
    let c = n.children@;
    if c.len() == 0 {
        missing()
    } else {
        let b = statements_outcome(c.skip(1));
        with_value(b, Some(SpecModuleDef { name: c[0].text@, statements: b.value.unwrap(), span: n.span }))
    }
}

pub open spec fn declare_outcome(n: ParseNode) -> Outcome<SpecDeclare>
    decreases n, 0int,
{
    let c = n.children@;
    match if c.len() == 0 { None } else { lhs_of(c[0]) } {
        None => missing(),
        Some(l) => if c.len() < 3 {
            missing()
        } else {
            let e = expression_outcome(c[2]);
            with_value(e, Some(SpecDeclare { lhs: l, expr: e.value.unwrap(), span: n.span }))
        },
    }
}

pub open spec fn update_outcome(n: ParseNode) -> Outcome<SpecUpdate>
    decreases n, 0int,
{
    let c = n.children@;
    match if c.len() == 0 { None } else { lhs_of(c[0]) } {
        None => missing(),
        Some(l) => if c.len() < 3 {
            missing()
        } else {
            let e = expression_outcome(c[2]);
            with_value(e, Some(SpecUpdate { lhs: l, expr: e.value.unwrap(), span: n.span }))
        },
    }
}

/// An expression: its operands built from left to right, then grouped by the
/// precedence of the operators between them.
pub open spec fn expression_outcome(n: ParseNode) -> Outcome<SpecExpression>
    decreases n, 0int,
{
    let c = n.children@;
    let o = operands_outcome(c);
    Outcome {
        value: Some(combine(o.value.unwrap(), operators_of(c))),
        errors: o.errors,
        deps: o.deps,
        completes: alternates(c) && o.completes,
    }
}

/// The operands among `ns`, at the even positions.
pub open spec fn operands_outcome(ns: Seq<ParseNode>) -> Outcome<Seq<SpecExpression>>
    decreases ns, 0int,
{
    if ns.len() == 0 {
        found(Seq::empty())
    } else if (ns.len() - 1) % 2 == 0 {
        let a = operands_outcome(ns.drop_last());
        let b = operand_outcome(ns.last());
        then(a, with_value(b, Some(a.value.unwrap().push(b.value.unwrap()))))
    } else {
        operands_outcome(ns.drop_last())
    }
}

/// One operand: the first node down the tree that stands for an operand, or
/// that has nothing inside it; a parenthesised expression stands for itself, and
/// an operand that cannot be built for the number 0.
pub open spec fn operand_outcome(m: ParseNode) -> Outcome<SpecExpression>
    decreases m, 2int,
{
    if !is_primary_rule(m.rule) && m.children@.len() > 0 {
        operand_outcome(m.children@[0])
    } else if m.rule is Expression {
        expression_outcome(m)
    } else {
        let p = primary_outcome(m);
        with_value(
            p,
            Some(
                match p.value {
                    Some(x) => SpecExpression::Primary(x),
                    None => zero_operand(),
                },
            ),
        )
    }
}

pub open spec fn expressions_outcome(ns: Seq<ParseNode>) -> Outcome<Seq<SpecExpression>>
    decreases ns, 0int,
{
    if ns.len() == 0 {
        found(Seq::empty())
    } else {
        let a = expressions_outcome(ns.drop_last());
        let b = expression_outcome(ns.last());
        then(a, with_value(b, Some(keep(a.value.unwrap(), b.value))))
    }
}

pub open spec fn primaries_outcome(ns: Seq<ParseNode>) -> Outcome<Seq<SpecPrimary>>
    decreases ns, 0int,
{
    if ns.len() == 0 {
        found(Seq::empty())
    } else {
        let a = primaries_outcome(ns.drop_last());
        let b = primary_outcome(ns.last());
        then(a, with_value(b, Some(keep(a.value.unwrap(), b.value))))
    }
}

pub open spec fn primary_outcome(n: ParseNode) -> Outcome<SpecPrimary>
    decreases n, 1int,
{
    let c = n.children@;
    let sp = n.span;
    match n.rule {
        Rule::Number => if float_literal(n.text@) {
            found(SpecPrimary::Number(n.text@, sp))
        } else {
            failed(sp, "Invalid number format"@)
        },
        Rule::StringLit => found(
            SpecPrimary::StringLit(
                SpecStringLit {
                    value: if c.len() > 0 {
                        c[0].text@
                    } else {
                        Seq::empty()
                    },
                    span: sp,
                },
            ),
        ),
        Rule::PathIdentifier => found(SpecPrimary::PathIdentifier(split_on(n.text@, "::"@), sp)),
        Rule::FuncCall => if c.len() == 0 {
            missing()
        } else {
            let t = primary_outcome(c[0]);
            match t.value {
                None => with_value(t, None),
                Some(tv) => {
                    let a = expressions_outcome(c.skip(1));
                    then(
                        t,
                        with_value(
                            a,
                            Some(SpecPrimary::FuncCall { target: Box::new(tv), args: a.value.unwrap(), span: sp }),
                        ),
                    )
                },
            }
        },
        Rule::Block => {
            let b = statements_outcome(c);
            with_value(b, Some(SpecPrimary::Block(b.value.unwrap(), sp)))
        },
        Rule::AbsVal => if c.len() == 0 {
            missing()
        } else {
            let e = expression_outcome(c[0]);
            with_value(e, Some(SpecPrimary::AbsVal(Box::new(e.value.unwrap()), sp)))
        },
        Rule::List => {
            let l = primaries_outcome(c);
            with_value(l, Some(SpecPrimary::List(l.value.unwrap(), sp)))
        },
        Rule::Point => if c.len() < 2 {
            missing()
        } else {
            let x = primary_outcome(c[0]);
            match x.value {
                None => with_value(x, None),
                Some(xv) => {
                    let y = primary_outcome(c[1]);
                    then(
                        x,
                        with_value(
                            y,
                            match y.value {
                                Some(yv) => Some(SpecPrimary::Point(Box::new(xv), Box::new(yv), sp)),
                                None => None,
                            },
                        ),
                    )
                },
            }
        },
        Rule::Expression => {
            let e = expression_outcome(n);
            with_value(e, Some(SpecPrimary::Expression(Box::new(e.value.unwrap()), sp)))
        },
        _ => failed(sp, "Unknown primary token: "@ + rule_name(n.rule)),
    }
}

/// The position of the first end-of-input node, or the number of nodes.
pub open spec fn first_eoi(ns: Seq<ParseNode>) -> int
    decreases ns.len(),
{
    if ns.len() == 0 || ns[0].rule is Eoi {
        0
    } else {
        1 + first_eoi(ns.drop_first())
    }
}

/// A program: the statements before the end of the input.
pub open spec fn program_outcome(n: ParseNode) -> Outcome<SpecProgram> {
    let b = statements_outcome(n.children@.take(first_eoi(n.children@)));
    with_value(b, Some(SpecProgram { statements: b.value.unwrap(), span: n.span }))
}

// ----- The builder -----

/// Builds the syntax tree of one file from its parse tree, gathering the errors it
/// finds and, for each import of a path, the files it may ask for, longest path
/// first.
pub struct AstBuilder {
    pub errors: Vec<ParseError>,
    pub dependencies: Vec<Vec<String>>,
}

/// The candidate files of each import, as texts.
pub open spec fn deps_view(v: Seq<Vec<String>>) -> Seq<Seq<Text>> {
    v.map_values(|d: Vec<String>| texts(d@))
}

pub open spec fn errors_of(v: Seq<ParseError>) -> Seq<(Span, Text)> {
    v.map_values(|e: ParseError| e@)
}

/// `after` is `before` with the errors and dependencies of `o` recorded.
pub open spec fn applies<T>(before: AstBuilder, after: AstBuilder, o: Outcome<T>) -> bool {
    &&& errors_of(after.errors@) == errors_of(before.errors@) + o.errors
    &&& deps_view(after.dependencies@) == deps_view(before.dependencies@) + o.deps
}

proof fn lemma_applies_then<T, U>(a: AstBuilder, b: AstBuilder, c: AstBuilder, o1: Outcome<T>, o2: Outcome<U>)
    requires
        applies(a, b, o1),
        applies(b, c, o2),
    ensures
        applies(a, c, then(o1, o2)),
{
    assert(errors_of(a.errors@) + o1.errors + o2.errors =~= errors_of(a.errors@) + (o1.errors + o2.errors));
    assert(deps_view(a.dependencies@) + o1.deps + o2.deps =~= deps_view(a.dependencies@) + (o1.deps + o2.deps));
}

proof fn lemma_applies_nothing<T>(a: AstBuilder, o: Outcome<T>)
    requires
        o.errors.len() == 0,
        o.deps.len() == 0,
    ensures
        applies(a, a, o),
{
    assert(errors_of(a.errors@) + o.errors =~= errors_of(a.errors@));
    assert(deps_view(a.dependencies@) + o.deps =~= deps_view(a.dependencies@));
}

/// The name of a rule in the grammar.
pub fn rule_text(r: &Rule) -> (s: String)
    ensures
        s@ == rule_name(*r),
{
    match r {
        Rule::Program => "program".to_owned(),
        Rule::Eoi => "EOI".to_owned(),
        Rule::ImportStmt => "import_stmt".to_owned(),
        Rule::ExportStmt => "export_stmt".to_owned(),
        Rule::ModuleDef => "module_def".to_owned(),
        Rule::Declare => "declare".to_owned(),
        Rule::Update => "update".to_owned(),
        Rule::ExportedComment => "exported_comment".to_owned(),
        Rule::Expression => "expression".to_owned(),
        Rule::MacroCall => "macro_call".to_owned(),
        Rule::ImportPath => "import_path".to_owned(),
        Rule::Asterix => "asterix".to_owned(),
        Rule::Identifier => "identifier".to_owned(),
        Rule::Number => "number".to_owned(),
        Rule::StringLit => "string_lit".to_owned(),
        Rule::PathIdentifier => "path_identifier".to_owned(),
        Rule::FuncCall => "func_call".to_owned(),
        Rule::Block => "block".to_owned(),
        Rule::AbsVal => "abs_val".to_owned(),
        Rule::List => "list".to_owned(),
        Rule::Point => "point".to_owned(),
        Rule::FuncDecl => "func_decl".to_owned(),
        Rule::CompOp => "comp_op".to_owned(),
        Rule::AddOp => "add_op".to_owned(),
        Rule::MulOp => "mul_op".to_owned(),
        Rule::Power => "power".to_owned(),
        Rule::Other(name) => name.clone(),
    }
}

fn stands_for_operand(r: &Rule) -> (b: bool)
    ensures
        b == is_primary_rule(*r),
{
    match r {
        Rule::Number | Rule::StringLit | Rule::PathIdentifier | Rule::FuncCall | Rule::Block | Rule::AbsVal
        | Rule::List | Rule::Point | Rule::Expression => true,
        _ => false,
    }
}

fn precedence(r: &Rule) -> (p: usize)
    ensures
        p == op_prec(*r),
{
    match r {
        Rule::CompOp => 1,
        Rule::AddOp => 2,
        Rule::MulOp => 3,
        Rule::Power => 4,
        _ => 0,
    }
}

/// The texts of the nodes from position `from` on.
fn texts_from(nodes: &Vec<ParseNode>, from: usize) -> (r: Vec<String>)
    requires
        from <= nodes@.len(),
    ensures
        texts(r@) == node_texts(nodes@.skip(from as int)),
{
    let mut r: Vec<String> = Vec::new();
    let mut i = from;
    while i < nodes.len()
        invariant
            from <= i <= nodes@.len(),
            texts(r@) == node_texts(nodes@.subrange(from as int, i as int)),
        decreases nodes@.len() - i,
    {
        let ghost r0 = r@;
        r.push(nodes[i].text.clone());
        assert(texts(r@) =~= texts(r0).push(nodes@[i as int].text@));
        assert(node_texts(nodes@.subrange(from as int, i + 1)) =~= node_texts(nodes@.subrange(from as int, i as int)).push(nodes@[i as int].text@));
        i = i + 1;
    }
    assert(nodes@.subrange(from as int, nodes@.len() as int) =~= nodes@.skip(from as int));
    r
}

impl AstBuilder {
    pub fn new() -> (r: Self)
        ensures
            r.errors@.len() == 0,
            r.dependencies@.len() == 0,
    {
        AstBuilder { errors: Vec::new(), dependencies: Vec::new() }
    }

    fn push_error(&mut self, span: Span, message: String)
        ensures
            errors_of(final(self).errors@) == errors_of(old(self).errors@).push((span, message@)),
            final(self).dependencies == old(self).dependencies,
    {
        let ghost e0 = self.errors@;
        let m = message;
        self.errors.push(ParseError { span, message: m });
        assert(errors_of(self.errors@) =~= errors_of(e0).push((span, m@)));
    }

    /// The target that the left side of a declaration or update names: a function
    /// head, whose parameters are kept apart, or a path.
    fn build_assignment_lhs(&self, node: &ParseNode) -> (r: Option<AssignmentLhs>)
        ensures
            opt_view(r) == lhs_of(*node),
    {
        if node.children.len() == 0 {
            return None;
        }
        let inner = &node.children[0];
        let span = inner.span;
        proof { reveal_strlit("::"); }
        match &inner.rule {
            Rule::FuncDecl => {
                if inner.children.len() == 0 {
                    return None;
                }
                let path = split_text(inner.children[0].text.as_str(), "::");
                let args = texts_from(&inner.children, 1);
                Some(AssignmentLhs::FuncDecl { name: path, args, span })
            },
            Rule::PathIdentifier => {
                let path = split_text(inner.text.as_str(), "::");
                Some(AssignmentLhs::PathIdentifier { path, span })
            },
            _ => None,
        }
    }

    fn build_exported_comment(&mut self, node: &ParseNode) -> (r: Option<StringLit>)
        ensures
            opt_view(r) == comment_outcome(*node).value,
            applies(*old(self), *final(self), comment_outcome(*node)),
    {
        proof { lemma_applies_nothing(*self, comment_outcome(*node)); }
        if node.children.len() == 0 {
            return None;
        }
        let inner = &node.children[0];
        if inner.children.len() == 0 {
            return None;
        }
        Some(StringLit { value: inner.children[0].text.clone(), span: inner.span })
    }

    /// An import: its target, a macro or a path, and its alias. The file that a
    /// path asks for is recorded as a dependency.
    fn build_import(&mut self, node: &ParseNode) -> (r: Option<ImportStmt>)
        ensures
            opt_view(r) == import_outcome(*node).value,
            applies(*old(self), *final(self), import_outcome(*node)),
    {
        let c = &node.children;
        if c.len() == 0 {
            proof { lemma_applies_nothing(*self, import_outcome(*node)); }
            return None;
        }
        let target = &c[0];
        let path = match &target.rule {
            Rule::MacroCall => {
                proof { lemma_applies_nothing(*self, import_outcome(*node)); }
                if target.children.len() == 0 {
                    return None;
                }
                ImportPath::Macro(target.children[0].text.clone())
            },
            Rule::ImportPath => {
                let ts = &target.children;
                let mut segments: Vec<String> = Vec::new();
                let mut has_asterix = false;
                let mut i: usize = 0;
                while i < ts.len()
                    invariant
                        i <= ts@.len(),
                        texts(segments@) == import_segments(ts@.take(i as int)),
                        has_asterix == has_asterix_child(ts@.take(i as int)),
                    decreases ts@.len() - i,
                {
                    let ghost s0 = segments@;
                    assert(ts@.take(i + 1).drop_last() =~= ts@.take(i as int));
                    assert(ts@.take(i + 1).last() == ts@[i as int]);
                    if let Rule::Asterix = ts[i].rule {
                        has_asterix = true;
                        assert(ts@.take(i + 1)[i as int].rule is Asterix);
                    } else {
                        segments.push(ts[i].text.clone());
                        assert(texts(segments@) =~= texts(s0).push(ts@[i as int].text@));
                        assert(has_asterix_child(ts@.take(i + 1)) == has_asterix_child(ts@.take(i as int))) by {
                            if has_asterix_child(ts@.take(i + 1)) {
                                let j = choose|j: int| 0 <= j < i + 1 && #[trigger] ts@.take(i + 1)[j].rule is Asterix;
                                assert(ts@.take(i as int)[j].rule is Asterix);
                            }
                            if has_asterix_child(ts@.take(i as int)) {
                                let j = choose|j: int| 0 <= j < i && #[trigger] ts@.take(i as int)[j].rule is Asterix;
                                assert(ts@.take(i + 1)[j].rule is Asterix);
                            }
                        }
                    }
                    i = i + 1;
                }
                assert(ts@.take(ts@.len() as int) =~= ts@);
                let dep = candidate_files(&segments);
                let ghost d0 = self.dependencies@;
                self.dependencies.push(dep);
                assert(deps_view(self.dependencies@) =~= deps_view(d0) + seq![import_candidates(texts(segments@))]);
                assert(errors_of(self.errors@) =~= errors_of(self.errors@) + Seq::<(Span, Text)>::empty());
                ImportPath::Path(segments, has_asterix)
            },
            _ => {
                let ghost e0 = errors_of(self.errors@);
                self.push_error(target.span, "Invalid import target".to_owned());
                assert(errors_of(self.errors@) =~= e0 + seq![(target.span, "Invalid import target"@)]);
                assert(deps_view(self.dependencies@) =~= deps_view(self.dependencies@) + Seq::<Seq<Text>>::empty());
                return None;
            },
        };
        let mut alias: Option<String> = None;
        if c.len() > 1 {
            if let Rule::Identifier = c[1].rule {
                alias = Some(c[1].text.clone());
            }
        }
        Some(ImportStmt { path, alias, span: node.span })
    }

    /// The program of a parse tree: the statements before the end of the input,
    /// each built in turn; those that cannot be built are left out.
    pub fn build_program(&mut self, node: &ParseNode) -> (r: Program)
        requires
            program_outcome(*node).completes,
        ensures
            r@ == program_outcome(*node).value.unwrap(),
            applies(*old(self), *final(self), program_outcome(*node)),
    {
        let end = eoi_position(&node.children);
        assert(node.children@.subrange(0, end as int) =~= node.children@.take(first_eoi(node.children@)));
        let statements = self.build_statements(&node.children, 0, end);
        Program { statements, span: node.span }
    }

    /// The statements among `nodes[from..to]`, each built in turn; those that
    /// cannot be built are left out.
    fn build_statements(&mut self, nodes: &Vec<ParseNode>, from: usize, to: usize) -> (r: Vec<Statement>)
        requires
            from <= to <= nodes@.len(),
            statements_outcome(nodes@.subrange(from as int, to as int)).completes,
        ensures
            statements_view(r@) == statements_outcome(nodes@.subrange(from as int, to as int)).value.unwrap(),
            applies(*old(self), *final(self), statements_outcome(nodes@.subrange(from as int, to as int))),
        decreases nodes@, 0int,
    {
        let ghost start = *self;
        let ghost whole = nodes@.subrange(from as int, to as int);
        proof {
            lemma_statements_parts(whole);
            assert(nodes@.subrange(from as int, from as int) =~= Seq::<ParseNode>::empty());
            lemma_applies_nothing(*self, statements_outcome(Seq::<ParseNode>::empty()));
            assert(statements_view(Seq::<Statement>::empty()) =~= Seq::<SpecStatement>::empty());
        }
        let mut out: Vec<Statement> = Vec::new();
        let mut i = from;
        while i < to
            invariant
                from <= i <= to <= nodes@.len(),
                whole == nodes@.subrange(from as int, to as int),
                forall|k: int| 0 <= k < whole.len() ==> #[trigger] statement_outcome(whole[k]).completes,
                statements_view(out@) == statements_outcome(nodes@.subrange(from as int, i as int)).value.unwrap(),
                applies(start, *self, statements_outcome(nodes@.subrange(from as int, i as int))),
            decreases to - i,
        {
            let ghost mid = *self;
            let ghost o0 = statements_outcome(nodes@.subrange(from as int, i as int));
            let ghost out0 = out@;
            assert(whole[i - from] == nodes@[i as int]);
            assert(decreases_to!(nodes@ => nodes@[i as int]));
            let built = self.build_statement(&nodes[i]);
            proof {
                assert(nodes@.subrange(from as int, i + 1).drop_last() =~= nodes@.subrange(from as int, i as int));
                assert(nodes@.subrange(from as int, i + 1).last() == nodes@[i as int]);
                lemma_applies_then(start, mid, *self, o0, statement_outcome(nodes@[i as int]));
            }
            match built {
                Some(st) => {
                    out.push(st);
                    proof { lemma_statements_view(out@); lemma_statements_view(out0); }
                    assert(statements_view(out@) =~= statements_view(out0).push(statement_view(out@.last())));
                },
                None => {},
            }
            i = i + 1;
        }
        out
    }

    /// One statement, by the rule it matched; any other rule is an error.
    fn build_statement(&mut self, node: &ParseNode) -> (r: Option<Statement>)
        requires
            statement_outcome(*node).completes,
        ensures
            opt_view(r) == statement_outcome(*node).value,
            applies(*old(self), *final(self), statement_outcome(*node)),
        decreases *node, 1int,
    {
        match &node.rule {
            Rule::ImportStmt => match self.build_import(node) {
                Some(i) => Some(Statement::Import(i)),
                None => None,
            },
            Rule::ExportStmt => match self.build_export(node) {
                Some(e) => Some(Statement::Export(e)),
                None => None,
            },
            Rule::ModuleDef => match self.build_module(node) {
                Some(m) => Some(Statement::ModuleDef(m)),
                None => None,
            },
            Rule::Declare => match self.build_declare(node) {
                Some(d) => Some(Statement::Declare(d)),
                None => None,
            },
            Rule::Update => match self.build_update(node) {
                Some(u) => Some(Statement::Update(u)),
                None => None,
            },
            Rule::ExportedComment => match self.build_exported_comment(node) {
                Some(c) => Some(Statement::ExportedComment(c)),
                None => None,
            },
            Rule::Expression => match self.build_expression(node) {
                Some(e) => Some(Statement::Expression(e)),
                None => None,
            },
            _ => {
                let mut message = "Unexpected rule in statement: ".to_owned();
                message.append(rule_text(&node.rule).as_str());
                let ghost e0 = errors_of(self.errors@);
                let ghost m = message@;
                self.push_error(node.span, message);
                assert(errors_of(self.errors@) =~= e0 + seq![(node.span, m)]);
                assert(deps_view(self.dependencies@) =~= deps_view(self.dependencies@) + Seq::<Seq<Text>>::empty());
                None
            },
        }
    }

    /// What follows `export`: a module, a declaration, a name or an import.
    fn build_export(&mut self, node: &ParseNode) -> (r: Option<ExportStmt>)
        requires
            export_outcome(*node).completes,
        ensures
            opt_view(r) == export_outcome(*node).value,
            applies(*old(self), *final(self), export_outcome(*node)),
        decreases *node, 0int,
    {
        if node.children.len() == 0 {
            proof { lemma_applies_nothing(*self, export_outcome(*node)); }
            return None;
        }
        let inner = &node.children[0];
        assert(decreases_to!(*node => node.children@[0]));
        match &inner.rule {
            Rule::ModuleDef => match self.build_module(inner) {
                Some(m) => Some(ExportStmt::ModuleDef(m)),
                None => None,
            },
            Rule::Declare => match self.build_declare(inner) {
                Some(d) => Some(ExportStmt::Declare(d)),
                None => None,
            },
            Rule::Identifier => {
                proof { lemma_applies_nothing(*self, export_outcome(*node)); }
                Some(ExportStmt::Identifier(inner.text.clone()))
            },
            Rule::ImportStmt => match self.build_import(inner) {
                Some(i) => Some(ExportStmt::Use(i)),
                None => None,
            },
            _ => {
                let ghost e0 = errors_of(self.errors@);
                self.push_error(inner.span, "Invalid export target".to_owned());
                assert(errors_of(self.errors@) =~= e0 + seq![(inner.span, "Invalid export target"@)]);
                assert(deps_view(self.dependencies@) =~= deps_view(self.dependencies@) + Seq::<Seq<Text>>::empty());
                None
            },
        }
    }

    /// A module: its name, then its statements.
    fn build_module(&mut self, node: &ParseNode) -> (r: Option<ModuleDef>)
        requires
            module_outcome(*node).completes,
        ensures
            opt_view(r) == module_outcome(*node).value,
            applies(*old(self), *final(self), module_outcome(*node)),
        decreases *node, 0int,
    {
        let c = &node.children;
        if c.len() == 0 {
            proof { lemma_applies_nothing(*self, module_outcome(*node)); }
            return None;
        }
        let name = c[0].text.clone();
        assert(c@.subrange(1, c@.len() as int) =~= c@.skip(1));
        assert(decreases_to!(*node => node.children@));
        let statements = self.build_statements(c, 1, c.len());
        Some(ModuleDef { name, statements, span: node.span })
    }

    /// A declaration: its target, the `=`, and its expression.
    fn build_declare(&mut self, node: &ParseNode) -> (r: Option<Declare>)
        requires
            declare_outcome(*node).completes,
        ensures
            opt_view(r) == declare_outcome(*node).value,
            applies(*old(self), *final(self), declare_outcome(*node)),
        decreases *node, 0int,
    {
        let c = &node.children;
        if c.len() == 0 {
            proof { lemma_applies_nothing(*self, declare_outcome(*node)); }
            return None;
        }
        let lhs = match self.build_assignment_lhs(&c[0]) {
            Some(l) => l,
            None => {
                proof { lemma_applies_nothing(*self, declare_outcome(*node)); }
                return None;
            },
        };
        if c.len() < 3 {
            proof { lemma_applies_nothing(*self, declare_outcome(*node)); }
            return None;
        }
        assert(decreases_to!(*node => node.children@[2]));
        let expr = match self.build_expression(&c[2]) {
            Some(e) => e,
            None => {
                return None;
            },
        };
        Some(Declare { lhs, expr, span: node.span })
    }

    /// An update: its target, the `->`, and its expression.
    fn build_update(&mut self, node: &ParseNode) -> (r: Option<Update>)
        requires
            update_outcome(*node).completes,
        ensures
            opt_view(r) == update_outcome(*node).value,
            applies(*old(self), *final(self), update_outcome(*node)),
        decreases *node, 0int,
    {
        let c = &node.children;
        if c.len() == 0 {
            proof { lemma_applies_nothing(*self, update_outcome(*node)); }
            return None;
        }
        let lhs = match self.build_assignment_lhs(&c[0]) {
            Some(l) => l,
            None => {
                proof { lemma_applies_nothing(*self, update_outcome(*node)); }
                return None;
            },
        };
        if c.len() < 3 {
            proof { lemma_applies_nothing(*self, update_outcome(*node)); }
            return None;
        }
        assert(decreases_to!(*node => node.children@[2]));
        let expr = match self.build_expression(&c[2]) {
            Some(e) => e,
            None => {
                return None;
            },
        };
        Some(Update { lhs, expr, span: node.span })
    }

    /// An expression: its operands built from left to right, then grouped by the
    /// precedence of the operators between them.
    #[verifier::loop_isolation(false)]
    #[verifier::rlimit(40)]
    pub fn build_expression(&mut self, node: &ParseNode) -> (r: Option<Expression>)
        requires
            expression_outcome(*node).completes,
        ensures
            r is Some,
            opt_view(r) == expression_outcome(*node).value,
            applies(*old(self), *final(self), expression_outcome(*node)),
        decreases *node, 0int,
    {
        let c = &node.children;
        let ghost start = *self;
        proof {
            lemma_operands_parts(c@);
            assert(c@.take(0) =~= Seq::<ParseNode>::empty());
            lemma_applies_nothing(*self, operands_outcome(Seq::<ParseNode>::empty()));
            assert(expressions_view(Seq::<Expression>::empty()) =~= Seq::<SpecExpression>::empty());
            assert(ops_view(Seq::<(String, usize)>::empty()) =~= operators_of(c@.take(0)));
        }
        let mut operands: Vec<Expression> = Vec::new();
        let mut ops: Vec<(String, usize)> = Vec::new();
        let mut i: usize = 0;
        while i < c.len()
            invariant
                i <= c@.len(),
                alternates(c@),
                forall|k: int| 0 <= k < c@.len() && k % 2 == 0 ==> #[trigger] operand_outcome(c@[k]).completes,
                operands@.len() == (i + 1) / 2,
                ops@.len() == i / 2,
                expressions_view(operands@) == operands_outcome(c@.take(i as int)).value.unwrap(),
                applies(start, *self, operands_outcome(c@.take(i as int))),
                ops_view(ops@) == operators_of(c@.take(i as int)),
                forall|j: int| 0 <= j < ops@.len() ==> 1 <= #[trigger] ops@[j].1 <= 4,
            decreases c@.len() - i,
        {
            let ghost mid = *self;
            let ghost o0 = operands_outcome(c@.take(i as int));
            let ghost ev0 = expressions_view(operands@);
            let ghost ov0 = ops_view(ops@);
            proof {
                assert(c@.take(i + 1).drop_last() =~= c@.take(i as int));
                assert(c@.take(i + 1).last() == c@[i as int]);
                lemma_operands_parts(c@.take(i as int));
            }
            if i % 2 == 0 {
                assert(decreases_to!(*node => node.children@[i as int]));
                let e = self.build_operand(&c[i]);
                let ghost operands0 = operands@;
                operands.push(e);
                proof {
                    lemma_applies_then(start, mid, *self, o0, operand_outcome(c@[i as int]));
                    lemma_expressions_view(operands0);
                    lemma_expressions_view(operands@);
                    assert(expressions_view(operands@) =~= ev0.push(expression_view(e)));
                    assert(operators_of(c@.take(i + 1)) =~= operators_of(c@.take(i as int)));
                }
            } else {
                let p = precedence(&c[i].rule);
                ops.push((c[i].text.clone(), p));
                proof {
                    assert(op_prec(c@[i as int].rule) != 0);
                    assert(ops_view(ops@) =~= ov0.push((c@[i as int].text@, p as int)));
                    assert(2 * (i / 2) + 1 == i);
                    assert(operators_of(c@.take(i + 1)) =~= operators_of(c@.take(i as int)).push((c@[i as int].text@, p as int)));
                    assert(mid == *self);
                }
            }
            i = i + 1;
        }
        proof {
            assert(c@.take(c@.len() as int) =~= c@);
        }
        Some(combine_operands(operands, ops))
    }

    /// One operand: the first node down the tree that stands for an operand, or
    /// that has nothing inside it. A parenthesised expression stands for itself,
    /// and an operand that cannot be built for the number 0.
    fn build_operand(&mut self, m: &ParseNode) -> (r: Expression)
        requires
            operand_outcome(*m).completes,
        ensures
            Some(expression_view(r)) == operand_outcome(*m).value,
            applies(*old(self), *final(self), operand_outcome(*m)),
        decreases *m, 2int,
    {
        if !stands_for_operand(&m.rule) && m.children.len() > 0 {
            assert(decreases_to!(*m => m.children@[0]));
            return self.build_operand(&m.children[0]);
        }
        if let Rule::Expression = m.rule {
            assert(m.rule is Expression);
            assert(operand_outcome(*m) == expression_outcome(*m));
            match self.build_expression(m) {
                Some(e) => e,
                None => Expression::Primary(Primary::Number("0".to_owned(), Span { start: 0, end: 0 })),
            }
        } else {
            assert(!(m.rule is Expression));
            let ghost p_o = primary_outcome(*m);
            assert(operand_outcome(*m) == with_value(
                p_o,
                Some(
                    match p_o.value {
                        Some(x) => SpecExpression::Primary(x),
                        None => zero_operand(),
                    },
                ),
            ));
            match self.build_primary(m) {
                Some(p) => {
                    assert(p_o.value == Some(primary_view(p)));
                    Expression::Primary(p)
                },
                None => {
                    proof { reveal_strlit("0"); }
                    let t = "0".to_owned();
                    assert(t@ =~= seq!['0']);
                    let zp = Primary::Number(t, Span { start: 0, end: 0 });
                    assert(primary_view(zp) == SpecPrimary::Number(seq!['0'], Span { start: 0, end: 0 }));
                    let z = Expression::Primary(zp);
                    assert(expression_view(z) == zero_operand());
                    z
                },
            }
        }
    }

    /// The expressions among `nodes[from..to]`, each built in turn.
    fn build_expressions(&mut self, nodes: &Vec<ParseNode>, from: usize, to: usize) -> (r: Vec<Expression>)
        requires
            from <= to <= nodes@.len(),
            expressions_outcome(nodes@.subrange(from as int, to as int)).completes,
        ensures
            expressions_view(r@) == expressions_outcome(nodes@.subrange(from as int, to as int)).value.unwrap(),
            applies(*old(self), *final(self), expressions_outcome(nodes@.subrange(from as int, to as int))),
        decreases nodes@, 0int,
    {
        let ghost start = *self;
        let ghost whole = nodes@.subrange(from as int, to as int);
        proof {
            lemma_expressions_parts(whole);
            assert(nodes@.subrange(from as int, from as int) =~= Seq::<ParseNode>::empty());
            lemma_applies_nothing(*self, expressions_outcome(Seq::<ParseNode>::empty()));
            assert(expressions_view(Seq::<Expression>::empty()) =~= Seq::<SpecExpression>::empty());
        }
        let mut out: Vec<Expression> = Vec::new();
        let mut i = from;
        while i < to
            invariant
                from <= i <= to <= nodes@.len(),
                whole == nodes@.subrange(from as int, to as int),
                forall|k: int| 0 <= k < whole.len() ==> #[trigger] expression_outcome(whole[k]).completes,
                expressions_view(out@) == expressions_outcome(nodes@.subrange(from as int, i as int)).value.unwrap(),
                applies(start, *self, expressions_outcome(nodes@.subrange(from as int, i as int))),
            decreases to - i,
        {
            let ghost mid = *self;
            let ghost o0 = expressions_outcome(nodes@.subrange(from as int, i as int));
            let ghost out0 = out@;
            assert(whole[i - from] == nodes@[i as int]);
            assert(decreases_to!(nodes@ => nodes@[i as int]));
            let built = self.build_expression(&nodes[i]);
            proof {
                assert(nodes@.subrange(from as int, i + 1).drop_last() =~= nodes@.subrange(from as int, i as int));
                assert(nodes@.subrange(from as int, i + 1).last() == nodes@[i as int]);
                lemma_applies_then(start, mid, *self, o0, expression_outcome(nodes@[i as int]));
            }
            match built {
                Some(e) => {
                    out.push(e);
                    proof { lemma_expressions_view(out@); lemma_expressions_view(out0); }
                    assert(expressions_view(out@) =~= expressions_view(out0).push(expression_view(out@.last())));
                },
                None => {},
            }
            i = i + 1;
        }
        out
    }

    /// The primaries among `nodes[from..to]`, each built in turn; those that
    /// cannot be built are left out.
    fn build_primaries(&mut self, nodes: &Vec<ParseNode>, from: usize, to: usize) -> (r: Vec<Primary>)
        requires
            from <= to <= nodes@.len(),
            primaries_outcome(nodes@.subrange(from as int, to as int)).completes,
        ensures
            primaries_view(r@) == primaries_outcome(nodes@.subrange(from as int, to as int)).value.unwrap(),
            applies(*old(self), *final(self), primaries_outcome(nodes@.subrange(from as int, to as int))),
        decreases nodes@, 0int,
    {
        let ghost start = *self;
        let ghost whole = nodes@.subrange(from as int, to as int);
        proof {
            lemma_primaries_parts(whole);
            assert(nodes@.subrange(from as int, from as int) =~= Seq::<ParseNode>::empty());
            lemma_applies_nothing(*self, primaries_outcome(Seq::<ParseNode>::empty()));
            assert(primaries_view(Seq::<Primary>::empty()) =~= Seq::<SpecPrimary>::empty());
        }
        let mut out: Vec<Primary> = Vec::new();
        let mut i = from;
        while i < to
            invariant
                from <= i <= to <= nodes@.len(),
                whole == nodes@.subrange(from as int, to as int),
                forall|k: int| 0 <= k < whole.len() ==> #[trigger] primary_outcome(whole[k]).completes,
                primaries_view(out@) == primaries_outcome(nodes@.subrange(from as int, i as int)).value.unwrap(),
                applies(start, *self, primaries_outcome(nodes@.subrange(from as int, i as int))),
            decreases to - i,
        {
            let ghost mid = *self;
            let ghost o0 = primaries_outcome(nodes@.subrange(from as int, i as int));
            let ghost out0 = out@;
            assert(whole[i - from] == nodes@[i as int]);
            assert(decreases_to!(nodes@ => nodes@[i as int]));
            let built = self.build_primary(&nodes[i]);
            proof {
                assert(nodes@.subrange(from as int, i + 1).drop_last() =~= nodes@.subrange(from as int, i as int));
                assert(nodes@.subrange(from as int, i + 1).last() == nodes@[i as int]);
                lemma_applies_then(start, mid, *self, o0, primary_outcome(nodes@[i as int]));
            }
            match built {
                Some(p) => {
                    out.push(p);
                    proof { lemma_primaries_view(out@); lemma_primaries_view(out0); }
                    assert(primaries_view(out@) =~= primaries_view(out0).push(primary_view(out@.last())));
                },
                None => {},
            }
            i = i + 1;
        }
        out
    }

    /// One operand, by the rule it matched; any other rule is an error.
    fn build_primary(&mut self, node: &ParseNode) -> (r: Option<Primary>)
        requires
            primary_outcome(*node).completes,
        ensures
            opt_view(r) == primary_outcome(*node).value,
            applies(*old(self), *final(self), primary_outcome(*node)),
        decreases *node, 1int,
    {
        let c = &node.children;
        let span = node.span;
        proof { reveal_strlit("::"); }
        match &node.rule {
            Rule::Number => {
                if is_float_literal(node.text.as_str()) {
                    proof { lemma_applies_nothing(*self, primary_outcome(*node)); }
                    Some(Primary::Number(node.text.clone(), span))
                } else {
                    let ghost e0 = errors_of(self.errors@);
                    self.push_error(span, "Invalid number format".to_owned());
                    assert(errors_of(self.errors@) =~= e0 + seq![(span, "Invalid number format"@)]);
                    assert(deps_view(self.dependencies@) =~= deps_view(self.dependencies@) + Seq::<Seq<Text>>::empty());
                    None
                }
            },
            Rule::StringLit => {
                proof { lemma_applies_nothing(*self, primary_outcome(*node)); }
                let value = if c.len() > 0 {
                    c[0].text.clone()
                } else {
                    String::new()
                };
                Some(Primary::StringLit(StringLit { value, span }))
            },
            Rule::PathIdentifier => {
                proof { lemma_applies_nothing(*self, primary_outcome(*node)); }
                Some(Primary::PathIdentifier(split_text(node.text.as_str(), "::"), span))
            },
            Rule::FuncCall => {
                if c.len() == 0 {
                    proof { lemma_applies_nothing(*self, primary_outcome(*node)); }
                    return None;
                }
                let ghost start = *self;
                assert(decreases_to!(*node => node.children@[0]));
                let target = match self.build_primary(&c[0]) {
                    Some(t) => t,
                    None => {
                        return None;
                    },
                };
                let ghost mid = *self;
                assert(c@.subrange(1, c@.len() as int) =~= c@.skip(1));
                assert(decreases_to!(*node => node.children@));
                let args = self.build_expressions(c, 1, c.len());
                proof {
                    lemma_applies_then(start, mid, *self, primary_outcome(c@[0]), expressions_outcome(c@.skip(1)));
                }
                Some(Primary::FuncCall { target: Box::new(target), args, span })
            },
            Rule::Block => {
                assert(c@.subrange(0, c@.len() as int) =~= c@);
                assert(decreases_to!(*node => node.children@));
                let statements = self.build_statements(c, 0, c.len());
                Some(Primary::Block(statements, span))
            },
            Rule::AbsVal => {
                if c.len() == 0 {
                    proof { lemma_applies_nothing(*self, primary_outcome(*node)); }
                    return None;
                }
                assert(decreases_to!(*node => node.children@[0]));
                match self.build_expression(&c[0]) {
                    Some(e) => Some(Primary::AbsVal(Box::new(e), span)),
                    None => None,
                }
            },
            Rule::List => {
                assert(c@.subrange(0, c@.len() as int) =~= c@);
                assert(decreases_to!(*node => node.children@));
                let elements = self.build_primaries(c, 0, c.len());
                Some(Primary::List(elements, span))
            },
            Rule::Point => {
                if c.len() < 2 {
                    proof { lemma_applies_nothing(*self, primary_outcome(*node)); }
                    return None;
                }
                let ghost start = *self;
                assert(decreases_to!(*node => node.children@[0]));
                assert(decreases_to!(*node => node.children@[1]));
                let x = match self.build_primary(&c[0]) {
                    Some(x) => x,
                    None => {
                        return None;
                    },
                };
                let ghost mid = *self;
                let y = self.build_primary(&c[1]);
                proof {
                    lemma_applies_then(start, mid, *self, primary_outcome(c@[0]), primary_outcome(c@[1]));
                }
                match y {
                    Some(y) => Some(Primary::Point(Box::new(x), Box::new(y), span)),
                    None => None,
                }
            },
            Rule::Expression => match self.build_expression(node) {
                Some(e) => Some(Primary::Expression(Box::new(e), span)),
                None => None,
            },
            _ => {
                let mut message = "Unknown primary token: ".to_owned();
                message.append(rule_text(&node.rule).as_str());
                let ghost e0 = errors_of(self.errors@);
                let ghost m = message@;
                self.push_error(span, message);
                assert(errors_of(self.errors@) =~= e0 + seq![(span, m)]);
                assert(deps_view(self.dependencies@) =~= deps_view(self.dependencies@) + Seq::<Seq<Text>>::empty());
                None
            },
        }
    }
}

/// The position of the first end-of-input node, or the number of nodes.
fn eoi_position(nodes: &Vec<ParseNode>) -> (r: usize)
    ensures
        r == first_eoi(nodes@),
        r <= nodes@.len(),
{
    let mut i: usize = 0;
    assert(nodes@.skip(0) =~= nodes@);
    while i < nodes.len()
        invariant
            i <= nodes@.len(),
            first_eoi(nodes@) == i + first_eoi(nodes@.skip(i as int)),
        decreases nodes@.len() - i,
    {
        assert(nodes@.skip(i as int)[0] == nodes@[i as int]);
        if let Rule::Eoi = nodes[i].rule {
            return i;
        }
        assert(nodes@.skip(i as int).drop_first() =~= nodes@.skip(i + 1));
        i = i + 1;
    }
    assert(nodes@.skip(i as int).len() == 0);
    i
}

/// The operators with their texts as character sequences.
pub open spec fn ops_view(v: Seq<(String, usize)>) -> Seq<(Text, int)> {
    v.map_values(|o: (String, usize)| (o.0@, o.1 as int))
}

/// The range of an expression.
pub fn get_expr_span(expr: &Expression) -> (r: Span)
    ensures
        r == expr_span(expression_view(*expr)),
{
    match expr {
        Expression::Primary(p) => get_primary_span(p),
        Expression::Infix { span, .. } => *span,
    }
}

/// The range of a primary.
pub fn get_primary_span(prim: &Primary) -> (r: Span)
    ensures
        r == primary_span(primary_view(*prim)),
{
    match prim {
        Primary::Number(_, span) => *span,
        Primary::StringLit(lit) => lit.span,
        Primary::FuncCall { span, .. } => *span,
        Primary::MacroCall { span, .. } => *span,
        Primary::PathIdentifier(_, span) => *span,
        Primary::Expression(_, span) => *span,
        Primary::Block(_, span) => *span,
        Primary::AbsVal(_, span) => *span,
        Primary::List(_, span) => *span,
        Primary::Point(_, _, span) => *span,
        Primary::Update(_, span) => *span,
    }
}

proof fn lemma_lowest(ops: Seq<(Text, int)>)
    requires
        ops.len() > 0,
        forall|j: int| 0 <= j < ops.len() ==> 1 <= #[trigger] ops[j].1 <= 4,
    ensures
        exists|j: int| 0 <= j < ops.len() && #[trigger] ops[j].1 == lowest(ops),
        forall|j: int| 0 <= j < ops.len() ==> lowest(ops) <= #[trigger] ops[j].1,
    decreases ops.len(),
{
    if ops.len() == 1 {
        assert(ops.drop_last().len() == 0);
        assert(lowest(ops.drop_last()) == 5);
        assert(ops.last() == ops[0]);
        assert(ops[0].1 == lowest(ops));
    } else {
        lemma_lowest(ops.drop_last());
        assert forall|j: int| 0 <= j < ops.len() implies lowest(ops) <= #[trigger] ops[j].1 by {
            if j < ops.len() - 1 {
                assert(ops.drop_last()[j] == ops[j]);
            }
        }
        if lowest(ops) == ops.last().1 {
            assert(ops[ops.len() - 1].1 == lowest(ops));
        } else {
            let j = choose|j: int| 0 <= j < ops.drop_last().len() && #[trigger] ops.drop_last()[j].1 == lowest(ops.drop_last());
            assert(ops[j].1 == lowest(ops));
        }
    }
}

proof fn lemma_first_with(ops: Seq<(Text, int)>, p: int)
    ensures
        -1 <= first_with(ops, p) < ops.len(),
        first_with(ops, p) >= 0 ==> ops[first_with(ops, p)].1 == p,
        (exists|j: int| 0 <= j < ops.len() && #[trigger] ops[j].1 == p) ==> first_with(ops, p) >= 0,
        first_with(ops, p) >= 0 ==> forall|j: int| 0 <= j < first_with(ops, p) ==> #[trigger] ops[j].1 != p,
    decreases ops.len(),
{
    if ops.len() > 0 {
        lemma_first_with(ops.drop_last(), p);
        if exists|j: int| 0 <= j < ops.len() && #[trigger] ops[j].1 == p {
            let j = choose|j: int| 0 <= j < ops.len() && #[trigger] ops[j].1 == p;
            if j < ops.len() - 1 {
                assert(ops.drop_last()[j].1 == p);
            }
        }
        if first_with(ops.drop_last(), p) >= 0 {
            assert(ops.drop_last()[first_with(ops.drop_last(), p)] == ops[first_with(ops.drop_last(), p)]);
            assert forall|j: int| 0 <= j < first_with(ops, p) implies #[trigger] ops[j].1 != p by {
                assert(ops.drop_last()[j] == ops[j]);
            }
        } else {
            assert forall|j: int| 0 <= j < ops.len() - 1 implies #[trigger] ops[j].1 != p by {
                assert(ops.drop_last()[j] == ops[j]);
                if ops[j].1 == p {
                    assert(ops.drop_last()[j].1 == p);
                }
            }
        }
    }
}

proof fn lemma_last_with(ops: Seq<(Text, int)>, p: int)
    ensures
        -1 <= last_with(ops, p) < ops.len(),
        last_with(ops, p) >= 0 ==> ops[last_with(ops, p)].1 == p,
        (exists|j: int| 0 <= j < ops.len() && #[trigger] ops[j].1 == p) ==> last_with(ops, p) >= 0,
        last_with(ops, p) >= 0 ==> forall|j: int| last_with(ops, p) < j < ops.len() ==> #[trigger] ops[j].1 != p,
    decreases ops.len(),
{
    if ops.len() > 0 {
        lemma_last_with(ops.drop_last(), p);
        if exists|j: int| 0 <= j < ops.len() && #[trigger] ops[j].1 == p {
            let j = choose|j: int| 0 <= j < ops.len() && #[trigger] ops[j].1 == p;
            if j < ops.len() - 1 {
                assert(ops.drop_last()[j].1 == p);
            }
        }
        if last_with(ops.drop_last(), p) >= 0 {
            assert(ops.drop_last()[last_with(ops.drop_last(), p)] == ops[last_with(ops.drop_last(), p)]);
        }
        if ops.last().1 != p && last_with(ops, p) >= 0 {
            assert forall|j: int| last_with(ops, p) < j < ops.len() implies #[trigger] ops[j].1 != p by {
                if j < ops.len() - 1 {
                    assert(ops.drop_last()[j] == ops[j]);
                }
            }
        }
    }
}

proof fn lemma_root_in_range(ops: Seq<(Text, int)>)
    requires
        ops.len() > 0,
        forall|j: int| 0 <= j < ops.len() ==> 1 <= #[trigger] ops[j].1 <= 4,
    ensures
        0 <= root_index(ops) < ops.len(),
{
    lemma_lowest(ops);
    lemma_first_with(ops, 4);
    lemma_last_with(ops, lowest(ops));
}

/// The operator at the root of a grouped expression binds loosest: every other
/// operator binds at least as tightly. Among the operators of its precedence it
/// is the last, so that they group to the left, except for powers, where it is
/// the first, so that they group to the right.
pub proof fn lemma_root_binds_loosest(ops: Seq<(Text, int)>)
    requires
        ops.len() > 0,
        forall|j: int| 0 <= j < ops.len() ==> 1 <= #[trigger] ops[j].1 <= 4,
    ensures
        0 <= root_index(ops) < ops.len(),
        forall|j: int| 0 <= j < ops.len() ==> ops[root_index(ops)].1 <= #[trigger] ops[j].1,
        ops[root_index(ops)].1 < 4 ==> forall|j: int|
            root_index(ops) < j < ops.len() ==> ops[root_index(ops)].1 < #[trigger] ops[j].1,
        ops[root_index(ops)].1 == 4 ==> forall|j: int|
            0 <= j < root_index(ops) ==> ops[root_index(ops)].1 < #[trigger] ops[j].1,
{
    lemma_lowest(ops);
    lemma_first_with(ops, 4);
    lemma_last_with(ops, lowest(ops));
}

/// Grouping operands by precedence puts at the root an operator that binds
/// loosest, with the operands and operators before it grouped on its left and
/// those after it on its right. Every operator after the root binds more tightly
/// unless the root is a power, so that equal precedences group to the left; when
/// the root is a power, every operator before it binds more tightly, so that
/// powers group to the right.
pub proof fn lemma_combine_root(operands: Seq<SpecExpression>, ops: Seq<(Text, int)>) -> (k: int)
    requires
        operands.len() == ops.len() + 1,
        ops.len() > 0,
        forall|j: int| 0 <= j < ops.len() ==> 1 <= #[trigger] ops[j].1 <= 4,
    ensures
        0 <= k < ops.len(),
        combine(operands, ops) matches SpecExpression::Infix { lhs, op, rhs, .. } && op == ops[k].0
            && *lhs == combine(operands.take(k + 1), ops.take(k)) && *rhs == combine(operands.skip(k + 1), ops.skip(k + 1)),
        forall|j: int| 0 <= j < ops.len() ==> ops[k].1 <= #[trigger] ops[j].1,
        ops[k].1 < 4 ==> forall|j: int| k < j < ops.len() ==> ops[k].1 < #[trigger] ops[j].1,
        ops[k].1 == 4 ==> forall|j: int| 0 <= j < k ==> ops[k].1 < #[trigger] ops[j].1,
{
    lemma_root_binds_loosest(ops);
    root_index(ops)
}

/// The operands of an expression tree, read from left to right through its
/// operators.
pub open spec fn tree_operands(e: SpecExpression) -> Seq<SpecExpression>
    decreases e,
{
    match e {
        SpecExpression::Infix { lhs, rhs, .. } => tree_operands(*lhs) + tree_operands(*rhs),
        _ => seq![e],
    }
}

/// The operators of an expression tree, read from left to right.
pub open spec fn tree_operators(e: SpecExpression) -> Seq<Text>
    decreases e,
{
    match e {
        SpecExpression::Infix { lhs, op, rhs, .. } => tree_operators(*lhs).push(op) + tree_operators(*rhs),
        _ => Seq::empty(),
    }
}

/// The texts of the operators.
pub open spec fn op_texts(ops: Seq<(Text, int)>) -> Seq<Text> {
    ops.map_values(|o: (Text, int)| o.0)
}

/// Grouping operands by precedence keeps them and the operators between them in
/// their order: reading the tree from left to right gives back the operands that
/// are not themselves operator expressions, and the operators.
pub proof fn lemma_combine_keeps_order(operands: Seq<SpecExpression>, ops: Seq<(Text, int)>)
    requires
        operands.len() == ops.len() + 1,
        forall|j: int| 0 <= j < ops.len() ==> 1 <= #[trigger] ops[j].1 <= 4,
        forall|i: int| 0 <= i < operands.len() ==> (#[trigger] operands[i]) is Primary,
    ensures
        tree_operands(combine(operands, ops)) == operands,
        tree_operators(combine(operands, ops)) == op_texts(ops),
    decreases ops.len(),
{
    if ops.len() == 0 {
        assert(operands =~= seq![operands[0]]);
        assert(op_texts(ops) =~= Seq::<Text>::empty());
    } else {
        lemma_root_in_range(ops);
        let k = root_index(ops);
        let lo = operands.take(k + 1);
        let ro = operands.skip(k + 1);
        assert forall|i: int| 0 <= i < lo.len() implies (#[trigger] lo[i]) is Primary by {
            assert(lo[i] == operands[i]);
        }
        assert forall|i: int| 0 <= i < ro.len() implies (#[trigger] ro[i]) is Primary by {
            assert(ro[i] == operands[i + k + 1]);
        }
        assert forall|j: int| 0 <= j < ops.take(k).len() implies 1 <= #[trigger] ops.take(k)[j].1 <= 4 by {
            assert(ops.take(k)[j] == ops[j]);
        }
        assert forall|j: int| 0 <= j < ops.skip(k + 1).len() implies 1 <= #[trigger] ops.skip(k + 1)[j].1 <= 4 by {
            assert(ops.skip(k + 1)[j] == ops[j + k + 1]);
        }
        lemma_combine_keeps_order(lo, ops.take(k));
        lemma_combine_keeps_order(ro, ops.skip(k + 1));
        assert(lo + ro =~= operands);
        assert(op_texts(ops.take(k)).push(ops[k].0) + op_texts(ops.skip(k + 1)) =~= op_texts(ops));
    }
}

/// The range of a grouped expression runs from the start of its first operand to
/// the end of its last.
pub proof fn lemma_combine_span(operands: Seq<SpecExpression>, ops: Seq<(Text, int)>)
    requires
        operands.len() == ops.len() + 1,
        forall|j: int| 0 <= j < ops.len() ==> 1 <= #[trigger] ops[j].1 <= 4,
    ensures
        expr_span(combine(operands, ops)).start == expr_span(operands[0]).start,
        expr_span(combine(operands, ops)).end == expr_span(operands.last()).end,
    decreases ops.len(),
{
    if ops.len() > 0 {
        lemma_root_in_range(ops);
        let k = root_index(ops);
        assert forall|j: int| 0 <= j < ops.take(k).len() implies 1 <= #[trigger] ops.take(k)[j].1 <= 4 by {
            assert(ops.take(k)[j] == ops[j]);
        }
        assert forall|j: int| 0 <= j < ops.skip(k + 1).len() implies 1 <= #[trigger] ops.skip(k + 1)[j].1 <= 4 by {
            assert(ops.skip(k + 1)[j] == ops[j + k + 1]);
        }
        lemma_combine_span(operands.take(k + 1), ops.take(k));
        lemma_combine_span(operands.skip(k + 1), ops.skip(k + 1));
        assert(operands.take(k + 1)[0] == operands[0]);
        assert(operands.skip(k + 1).last() == operands.last());
    }
}

/// The position of the operator at the root of the tree.
fn root_position(ops: &Vec<(String, usize)>) -> (k: usize)
    requires
        ops@.len() > 0,
        forall|j: int| 0 <= j < ops@.len() ==> 1 <= #[trigger] ops@[j].1 <= 4,
    ensures
        k == root_index(ops_view(ops@)),
{
    let ghost v = ops_view(ops@);
    let n = ops.len();
    let mut low: usize = 5;
    let mut i: usize = 0;
    assert(v.take(0) =~= Seq::<(Text, int)>::empty());
    while i < n
        invariant
            n == ops@.len(),
            v == ops_view(ops@),
            i <= n,
            low == lowest(v.take(i as int)),
        decreases n - i,
    {
        assert(v.take(i + 1).drop_last() =~= v.take(i as int));
        if ops[i].1 < low {
            low = ops[i].1;
        }
        i = i + 1;
    }
    assert(v.take(n as int) =~= v);
    let mut found = false;
    let mut pos: usize = 0;
    let mut i: usize = 0;
    while i < n
        invariant
            n == ops@.len(),
            v == ops_view(ops@),
            i <= n,
            low == lowest(v),
            found ==> pos < n,
            found ==> pos == (if low == 4 { first_with(v.take(i as int), 4) } else { last_with(v.take(i as int), low as int) }),
            !found ==> (if low == 4 { first_with(v.take(i as int), 4) } else { last_with(v.take(i as int), low as int) }) == -1,
        decreases n - i,
    {
        assert(v.take(i + 1).drop_last() =~= v.take(i as int));
        if ops[i].1 == low && (low != 4 || !found) {
            found = true;
            pos = i;
        }
        i = i + 1;
    }
    proof {
        lemma_root_in_range(v);
    }
    pos
}

/// The expression tree over the operands and the operators between them, grouped
/// by precedence.
fn combine_operands(operands: Vec<Expression>, ops: Vec<(String, usize)>) -> (r: Expression)
    requires
        operands@.len() == ops@.len() + 1,
        forall|j: int| 0 <= j < ops@.len() ==> 1 <= #[trigger] ops@[j].1 <= 4,
    ensures
        expression_view(r) == combine(expressions_view(operands@), ops_view(ops@)),
    decreases ops@.len(),
{
    proof { lemma_expressions_view(operands@); }
    let ghost ev = expressions_view(operands@);
    let ghost ov = ops_view(ops@);
    if ops.len() == 0 {
        let mut operands = operands;
        let e = operands.remove(0);
        return e;
    }
    let k = root_position(&ops);
    proof { lemma_root_in_range(ov); }
    let mut left_operands = operands;
    let right_operands = left_operands.split_off(k + 1);
    let mut left_ops = ops;
    let mut right_ops = left_ops.split_off(k);
    let (op, _) = right_ops.remove(0);
    proof {
        lemma_expressions_view(left_operands@);
        lemma_expressions_view(right_operands@);
        assert(expressions_view(left_operands@) =~= ev.take(k + 1));
        assert(expressions_view(right_operands@) =~= ev.skip(k + 1));
        assert(ops_view(left_ops@) =~= ov.take(k as int));
        assert(ops_view(right_ops@) =~= ov.skip(k + 1));
        assert(op@ == ov[k as int].0);
    }
    let l = combine_operands(left_operands, left_ops);
    let r = combine_operands(right_operands, right_ops);
    let span = Span { start: get_expr_span(&l).start, end: get_expr_span(&r).end };
    Expression::Infix { lhs: Box::new(l), op, rhs: Box::new(r), span }
}

proof fn lemma_operands_parts(ns: Seq<ParseNode>)
    ensures
        operands_outcome(ns).value is Some,
        operands_outcome(ns).value.unwrap().len() == (ns.len() + 1) / 2,
        operands_outcome(ns).completes ==> forall|i: int| 0 <= i < ns.len() && i % 2 == 0 ==> #[trigger] operand_outcome(ns[i]).completes,
    decreases ns.len(),
{
    if ns.len() > 0 {
        lemma_operands_parts(ns.drop_last());
        if operands_outcome(ns).completes {
            assert forall|i: int| 0 <= i < ns.len() && i % 2 == 0 implies #[trigger] operand_outcome(ns[i]).completes by {
                if i < ns.len() - 1 {
                    assert(ns.drop_last()[i] == ns[i]);
                }
            }
        }
    }
}

proof fn lemma_expressions_parts(ns: Seq<ParseNode>)
    ensures
        expressions_outcome(ns).value is Some,
        expressions_outcome(ns).completes ==> forall|i: int| 0 <= i < ns.len() ==> #[trigger] expression_outcome(ns[i]).completes,
    decreases ns.len(),
{
    if ns.len() > 0 {
        lemma_expressions_parts(ns.drop_last());
        if expressions_outcome(ns).completes {
            assert forall|i: int| 0 <= i < ns.len() implies #[trigger] expression_outcome(ns[i]).completes by {
                if i < ns.len() - 1 {
                    assert(ns.drop_last()[i] == ns[i]);
                }
            }
        }
    }
}

proof fn lemma_primaries_parts(ns: Seq<ParseNode>)
    ensures
        primaries_outcome(ns).value is Some,
        primaries_outcome(ns).completes ==> forall|i: int| 0 <= i < ns.len() ==> #[trigger] primary_outcome(ns[i]).completes,
    decreases ns.len(),
{
    if ns.len() > 0 {
        lemma_primaries_parts(ns.drop_last());
        if primaries_outcome(ns).completes {
            assert forall|i: int| 0 <= i < ns.len() implies #[trigger] primary_outcome(ns[i]).completes by {
                if i < ns.len() - 1 {
                    assert(ns.drop_last()[i] == ns[i]);
                }
            }
        }
    }
}

proof fn lemma_statements_parts(ns: Seq<ParseNode>)
    ensures
        statements_outcome(ns).value is Some,
        statements_outcome(ns).completes ==> forall|i: int| 0 <= i < ns.len() ==> #[trigger] statement_outcome(ns[i]).completes,
    decreases ns.len(),
{
    if ns.len() > 0 {
        lemma_statements_parts(ns.drop_last());
        if statements_outcome(ns).completes {
            assert forall|i: int| 0 <= i < ns.len() implies #[trigger] statement_outcome(ns[i]).completes by {
                if i < ns.len() - 1 {
                    assert(ns.drop_last()[i] == ns[i]);
                }
            }
        }
    }
}

// ----- Whether a build runs to its end -----

proof fn lemma_statements_complete(ns: Seq<ParseNode>)
    ensures
        statements_outcome(ns).completes == forall|i: int| 0 <= i < ns.len() ==> #[trigger] statement_outcome(ns[i]).completes,
    decreases ns.len(),
{
    if ns.len() > 0 {
        lemma_statements_complete(ns.drop_last());
        let d = ns.drop_last();
        let all = forall|i: int| 0 <= i < ns.len() ==> #[trigger] statement_outcome(ns[i]).completes;
        let all_d = forall|i: int| 0 <= i < d.len() ==> #[trigger] statement_outcome(d[i]).completes;
        assert(ns.last() == ns[ns.len() - 1]);
        if all {
            assert forall|i: int| 0 <= i < d.len() implies #[trigger] statement_outcome(d[i]).completes by {
                assert(d[i] == ns[i]);
            }
        }
        if all_d && statement_outcome(ns.last()).completes {
            assert forall|i: int| 0 <= i < ns.len() implies #[trigger] statement_outcome(ns[i]).completes by {
                if i < d.len() {
                    assert(d[i] == ns[i]);
                }
            }
        }
    }
}

proof fn lemma_expressions_complete(ns: Seq<ParseNode>)
    ensures
        expressions_outcome(ns).completes == forall|i: int| 0 <= i < ns.len() ==> #[trigger] expression_outcome(ns[i]).completes,
    decreases ns.len(),
{
    if ns.len() > 0 {
        lemma_expressions_complete(ns.drop_last());
        let d = ns.drop_last();
        let all = forall|i: int| 0 <= i < ns.len() ==> #[trigger] expression_outcome(ns[i]).completes;
        let all_d = forall|i: int| 0 <= i < d.len() ==> #[trigger] expression_outcome(d[i]).completes;
        assert(ns.last() == ns[ns.len() - 1]);
        if all {
            assert forall|i: int| 0 <= i < d.len() implies #[trigger] expression_outcome(d[i]).completes by {
                assert(d[i] == ns[i]);
            }
        }
        if all_d && expression_outcome(ns.last()).completes {
            assert forall|i: int| 0 <= i < ns.len() implies #[trigger] expression_outcome(ns[i]).completes by {
                if i < d.len() {
                    assert(d[i] == ns[i]);
                }
            }
        }
    }
}

proof fn lemma_primaries_complete(ns: Seq<ParseNode>)
    ensures
        primaries_outcome(ns).completes == forall|i: int| 0 <= i < ns.len() ==> #[trigger] primary_outcome(ns[i]).completes,
    decreases ns.len(),
{
    if ns.len() > 0 {
        lemma_primaries_complete(ns.drop_last());
        let d = ns.drop_last();
        let all = forall|i: int| 0 <= i < ns.len() ==> #[trigger] primary_outcome(ns[i]).completes;
        let all_d = forall|i: int| 0 <= i < d.len() ==> #[trigger] primary_outcome(d[i]).completes;
        assert(ns.last() == ns[ns.len() - 1]);
        if all {
            assert forall|i: int| 0 <= i < d.len() implies #[trigger] primary_outcome(d[i]).completes by {
                assert(d[i] == ns[i]);
            }
        }
        if all_d && primary_outcome(ns.last()).completes {
            assert forall|i: int| 0 <= i < ns.len() implies #[trigger] primary_outcome(ns[i]).completes by {
                if i < d.len() {
                    assert(d[i] == ns[i]);
                }
            }
        }
    }
}

proof fn lemma_operands_complete(ns: Seq<ParseNode>)
    ensures
        operands_outcome(ns).completes == forall|i: int| 0 <= i < ns.len() && i % 2 == 0 ==> #[trigger] operand_outcome(ns[i]).completes,
    decreases ns.len(),
{
    if ns.len() > 0 {
        lemma_operands_complete(ns.drop_last());
        let d = ns.drop_last();
        let all = forall|i: int| 0 <= i < ns.len() && i % 2 == 0 ==> #[trigger] operand_outcome(ns[i]).completes;
        let all_d = forall|i: int| 0 <= i < d.len() && i % 2 == 0 ==> #[trigger] operand_outcome(d[i]).completes;
        assert(ns.last() == ns[ns.len() - 1]);
        if all {
            assert forall|i: int| 0 <= i < d.len() && i % 2 == 0 implies #[trigger] operand_outcome(d[i]).completes by {
                assert(d[i] == ns[i]);
            }
        }
        if all_d && (operand_outcome(ns.last()).completes || (ns.len() - 1) % 2 != 0) {
            assert forall|i: int| 0 <= i < ns.len() && i % 2 == 0 implies #[trigger] operand_outcome(ns[i]).completes by {
                if i < d.len() {
                    assert(d[i] == ns[i]);
                }
            }
        }
    }
}

/// Whether an import can be built.
fn import_builds(node: &ParseNode) -> (r: bool)
    ensures
        r == import_outcome(*node).value is Some,
{
    if node.children.len() == 0 {
        return false;
    }
    let t = &node.children[0];
    match &t.rule {
        Rule::MacroCall => t.children.len() > 0,
        Rule::ImportPath => true,
        _ => false,
    }
}

/// Whether the left side of a declaration or update names a target.
fn names_target(node: &ParseNode) -> (r: bool)
    ensures
        r == lhs_of(*node) is Some,
{
    if node.children.len() == 0 {
        return false;
    }
    let inner = &node.children[0];
    match &inner.rule {
        Rule::FuncDecl => inner.children.len() > 0,
        Rule::PathIdentifier => true,
        _ => false,
    }
}

/// Whether operands and operators alternate among the nodes, starting and ending
/// with an operand.
fn operators_alternate(c: &Vec<ParseNode>) -> (r: bool)
    ensures
        r == alternates(c@),
{
    if c.len() % 2 != 1 {
        return false;
    }
    let mut i: usize = 0;
    while i < c.len()
        invariant
            i <= c@.len(),
            forall|k: int| 0 <= k < i ==> ((k % 2 == 0) <==> op_prec(#[trigger] c@[k].rule) == 0),
        decreases c@.len() - i,
    {
        if (i % 2 == 0) != (precedence(&c[i].rule) == 0) {
            return false;
        }
        i = i + 1;
    }
    true
}

/// Whether building the statements among `nodes[from..to]` runs to its end.
fn statements_complete(nodes: &Vec<ParseNode>, from: usize, to: usize) -> (r: bool)
    requires
        from <= to <= nodes@.len(),
    ensures
        r == statements_outcome(nodes@.subrange(from as int, to as int)).completes,
    decreases nodes@, 0int,
{
    proof { lemma_statements_complete(nodes@.subrange(from as int, to as int)); }
    let mut i = from;
    while i < to
        invariant
            from <= i <= to <= nodes@.len(),
            forall|k: int| from <= k < i ==> #[trigger] statement_outcome(nodes@[k]).completes,
        decreases to - i,
    {
        assert(decreases_to!(nodes@ => nodes@[i as int]));
        if !statement_completes(&nodes[i]) {
            assert(nodes@.subrange(from as int, to as int)[i - from] == nodes@[i as int]);
            assert(!statement_outcome(nodes@.subrange(from as int, to as int)[i - from]).completes);
            proof { lemma_statements_complete(nodes@.subrange(from as int, to as int)); }
            return false;
        }
        i = i + 1;
    }
    assert forall|k: int| 0 <= k < to - from implies #[trigger] statement_outcome(nodes@.subrange(from as int, to as int)[k]).completes by {
        assert(nodes@.subrange(from as int, to as int)[k] == nodes@[from + k]);
    }
    true
}

fn expressions_complete(nodes: &Vec<ParseNode>, from: usize, to: usize) -> (r: bool)
    requires
        from <= to <= nodes@.len(),
    ensures
        r == expressions_outcome(nodes@.subrange(from as int, to as int)).completes,
    decreases nodes@, 0int,
{
    proof { lemma_expressions_complete(nodes@.subrange(from as int, to as int)); }
    let mut i = from;
    while i < to
        invariant
            from <= i <= to <= nodes@.len(),
            forall|k: int| from <= k < i ==> #[trigger] expression_outcome(nodes@[k]).completes,
        decreases to - i,
    {
        assert(decreases_to!(nodes@ => nodes@[i as int]));
        if !expression_completes(&nodes[i]) {
            assert(nodes@.subrange(from as int, to as int)[i - from] == nodes@[i as int]);
            assert(!expression_outcome(nodes@.subrange(from as int, to as int)[i - from]).completes);
            proof { lemma_expressions_complete(nodes@.subrange(from as int, to as int)); }
            return false;
        }
        i = i + 1;
    }
    assert forall|k: int| 0 <= k < to - from implies #[trigger] expression_outcome(nodes@.subrange(from as int, to as int)[k]).completes by {
        assert(nodes@.subrange(from as int, to as int)[k] == nodes@[from + k]);
    }
    true
}

fn primaries_complete(nodes: &Vec<ParseNode>, from: usize, to: usize) -> (r: bool)
    requires
        from <= to <= nodes@.len(),
    ensures
        r == primaries_outcome(nodes@.subrange(from as int, to as int)).completes,
    decreases nodes@, 0int,
{
    proof { lemma_primaries_complete(nodes@.subrange(from as int, to as int)); }
    let mut i = from;
    while i < to
        invariant
            from <= i <= to <= nodes@.len(),
            forall|k: int| from <= k < i ==> #[trigger] primary_outcome(nodes@[k]).completes,
        decreases to - i,
    {
        assert(decreases_to!(nodes@ => nodes@[i as int]));
        if !primary_check(&nodes[i]).0 {
            assert(nodes@.subrange(from as int, to as int)[i - from] == nodes@[i as int]);
            assert(!primary_outcome(nodes@.subrange(from as int, to as int)[i - from]).completes);
            proof { lemma_primaries_complete(nodes@.subrange(from as int, to as int)); }
            return false;
        }
        i = i + 1;
    }
    assert forall|k: int| 0 <= k < to - from implies #[trigger] primary_outcome(nodes@.subrange(from as int, to as int)[k]).completes by {
        assert(nodes@.subrange(from as int, to as int)[k] == nodes@[from + k]);
    }
    true
}

fn statement_completes(node: &ParseNode) -> (r: bool)
    ensures
        r == statement_outcome(*node).completes,
    decreases *node, 1int,
{
    match &node.rule {
        Rule::ExportStmt => export_completes(node),
        Rule::ModuleDef => module_completes(node),
        Rule::Declare => assignment_completes(node),
        Rule::Update => assignment_completes(node),
        Rule::Expression => expression_completes(node),
        _ => true,
    }
}

fn export_completes(node: &ParseNode) -> (r: bool)
    ensures
        r == export_outcome(*node).completes,
    decreases *node, 0int,
{
    if node.children.len() == 0 {
        return true;
    }
    let inner = &node.children[0];
    assert(decreases_to!(*node => node.children@[0]));
    match &inner.rule {
        Rule::ModuleDef => module_completes(inner),
        Rule::Declare => assignment_completes(inner),
        Rule::ImportStmt => import_builds(inner),
        _ => true,
    }
}

fn module_completes(node: &ParseNode) -> (r: bool)
    ensures
        r == module_outcome(*node).completes,
    decreases *node, 0int,
{
    let c = &node.children;
    if c.len() == 0 {
        return true;
    }
    assert(c@.subrange(1, c@.len() as int) =~= c@.skip(1));
    assert(decreases_to!(*node => node.children@));
    statements_complete(c, 1, c.len())
}

/// Whether building a declaration or an update runs to its end.
fn assignment_completes(node: &ParseNode) -> (r: bool)
    ensures
        r == declare_outcome(*node).completes,
        r == update_outcome(*node).completes,
    decreases *node, 0int,
{
    let c = &node.children;
    if c.len() == 0 || !names_target(&c[0]) || c.len() < 3 {
        return true;
    }
    assert(decreases_to!(*node => node.children@[2]));
    expression_completes(&c[2])
}

fn expression_completes(node: &ParseNode) -> (r: bool)
    ensures
        r == expression_outcome(*node).completes,
    decreases *node, 0int,
{
    let c = &node.children;
    proof { lemma_operands_complete(c@); }
    if !operators_alternate(c) {
        return false;
    }
    let mut i: usize = 0;
    while i < c.len()
        invariant
            i <= c@.len(),
            c@ == node.children@,
            forall|k: int| 0 <= k < i && k % 2 == 0 ==> #[trigger] operand_outcome(c@[k]).completes,
        decreases c@.len() - i,
    {
        if i % 2 == 0 {
            assert(decreases_to!(*node => node.children@[i as int]));
            if !operand_completes(&c[i]) {
                proof { lemma_operands_complete(c@); }
                return false;
            }
        }
        i = i + 1;
    }
    true
}

fn operand_completes(m: &ParseNode) -> (r: bool)
    ensures
        r == operand_outcome(*m).completes,
    decreases *m, 2int,
{
    if !stands_for_operand(&m.rule) && m.children.len() > 0 {
        assert(decreases_to!(*m => m.children@[0]));
        return operand_completes(&m.children[0]);
    }
    if let Rule::Expression = m.rule {
        expression_completes(m)
    } else {
        primary_check(m).0
    }
}

/// Whether building a primary runs to its end, and whether it builds one.
fn primary_check(node: &ParseNode) -> (r: (bool, bool))
    ensures
        r.0 == primary_outcome(*node).completes,
        r.1 == primary_outcome(*node).value is Some,
    decreases *node, 1int,
{
    let c = &node.children;
    match &node.rule {
        Rule::Number => (true, is_float_literal(node.text.as_str())),
        Rule::StringLit => (true, true),
        Rule::PathIdentifier => (true, true),
        Rule::FuncCall => {
            if c.len() == 0 {
                return (true, false);
            }
            assert(decreases_to!(*node => node.children@[0]));
            let t = primary_check(&c[0]);
            if !t.1 {
                return (t.0, false);
            }
            assert(c@.subrange(1, c@.len() as int) =~= c@.skip(1));
            assert(decreases_to!(*node => node.children@));
            (t.0 && expressions_complete(c, 1, c.len()), true)
        },
        Rule::Block => {
            assert(c@.subrange(0, c@.len() as int) =~= c@);
            assert(decreases_to!(*node => node.children@));
            (statements_complete(c, 0, c.len()), true)
        },
        Rule::AbsVal => {
            if c.len() == 0 {
                return (true, false);
            }
            assert(decreases_to!(*node => node.children@[0]));
            (expression_completes(&c[0]), true)
        },
        Rule::List => {
            assert(c@.subrange(0, c@.len() as int) =~= c@);
            assert(decreases_to!(*node => node.children@));
            (primaries_complete(c, 0, c.len()), true)
        },
        Rule::Point => {
            if c.len() < 2 {
                return (true, false);
            }
            assert(decreases_to!(*node => node.children@[0]));
            assert(decreases_to!(*node => node.children@[1]));
            let x = primary_check(&c[0]);
            if !x.1 {
                return (x.0, false);
            }
            let y = primary_check(&c[1]);
            (x.0 && y.0, y.1)
        },
        Rule::Expression => (expression_completes(node), true),
        _ => (true, false),
    }
}

/// Whether building the program of this tree runs to its end: the builder would
/// otherwise stop on an export of an import that cannot be built, or on an
/// expression whose operands and operators do not alternate.
pub fn program_builds_to_end(node: &ParseNode) -> (r: bool)
    ensures
        r == program_outcome(*node).completes,
{
    let end = eoi_position(&node.children);
    assert(node.children@.subrange(0, end as int) =~= node.children@.take(first_eoi(node.children@)));
    statements_complete(&node.children, 0, end)
}

} // verus!
