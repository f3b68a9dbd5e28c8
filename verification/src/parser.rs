use vstd::prelude::*;

use crate::ast::{texts, Program, Text};
use crate::ast_builder::{deps_view, errors_of, program_outcome, AstBuilder, ParseNode};
use crate::frontend_types::{ParseError, Span};

verus! {

/// The error for a source that does not match the grammar: the place where
/// matching failed and what the grammar expected there.
pub fn fatal_syntax_error(span: Span, detail: &str) -> (r: ParseError)
    ensures
        r@ == (span, "Fatal syntax error: "@ + detail@),
{
    let mut message = "Fatal syntax error: ".to_owned();
    message.append(detail);
    ParseError { span, message }
}

/// The program of a file's parse tree, the errors found while building it, and,
/// for each of its imports in order, the files it may ask for, longest path first.
pub fn build_file(root: &ParseNode) -> (r: (Option<Program>, Vec<ParseError>, Vec<Vec<String>>))
    requires
        program_outcome(*root).completes,
    ensures
        r.0 matches Some(p) && p@ == program_outcome(*root).value.unwrap(),
        errors_of(r.1@) == program_outcome(*root).errors,
        deps_view(r.2@) == program_outcome(*root).deps,
{
    let mut builder = AstBuilder::new();
    assert(errors_of(builder.errors@) =~= Seq::<(Span, Text)>::empty());
    assert(deps_view(builder.dependencies@) =~= Seq::<Seq<Text>>::empty());
    let program = builder.build_program(root);
    assert(errors_of(builder.errors@) =~= program_outcome(*root).errors);
    assert(deps_view(builder.dependencies@) =~= program_outcome(*root).deps);
    let AstBuilder { errors, dependencies } = builder;
    (Some(program), errors, dependencies)
}

} // verus!
