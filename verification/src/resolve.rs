use vstd::prelude::*;

use crate::ast::{
    lemma_statements_view, lhs_view, statement_view, statements_view, texts, AssignmentLhs, ExportStmt,
    ImportPath, SpecAssignmentLhs, SpecDeclare, SpecExportStmt, SpecImportPath, SpecImportStmt, SpecModuleDef, SpecStatement,
    Statement, Text,
};
use crate::frontend_types::FileState;
use crate::graph::{is_acyclic, Graph};
use crate::text::{contains_string, copy_strings, join, join_all, join_first};

verus! {

/// A problem found while checking the imports between files; `file` is empty when
/// the problem concerns no single file.
#[derive(Debug)]
pub struct ResolveError {
    pub file: String,
    pub message: String,
}

impl View for ResolveError {
    type V = (Text, Text);

    open spec fn view(&self) -> (Text, Text) {
        (self.file@, self.message@)
    }
}

/// `name` inside the namespace `prefix`.
pub open spec fn qualified(prefix: Text, name: Text) -> Text {
    if prefix.len() == 0 {
        name
    } else {
        prefix + "::"@ + name
    }
}

/// `buf` with `seg` pushed on as `PathBuf::push` does with `/` as separator: a
/// `seg` that starts with `/` replaces it; otherwise a `/` goes between the two
/// unless `buf` is empty or already ends in one.
pub open spec fn path_push(buf: Text, seg: Text) -> Text {
    if seg.len() > 0 && seg[0] == '/' {
        seg
    } else if buf.len() == 0 || buf.last() == '/' {
        buf + seg
    } else {
        buf + "/"@ + seg
    }
}

/// The segments pushed one after the other onto an empty path.
pub open spec fn path_of(segments: Seq<Text>) -> Text
    decreases segments.len(),
{
    if segments.len() == 0 {
        Seq::empty()
    } else {
        path_push(path_of(segments.drop_last()), segments.last())
    }
}

/// `p` without the trailing separators and `.` components that the last
/// component of a path is found behind.
pub open spec fn trim_tail(p: Text) -> Text
    decreases p.len(),
{
    if p.len() >= 2 && p.last() == '/' {
        trim_tail(p.drop_last())
    } else if p.len() >= 2 && p.last() == '.' && p[p.len() - 2] == '/' {
        trim_tail(p.drop_last())
    } else {
        p
    }
}

/// The position of the last `c` in `t`, or -1.
pub open spec fn last_index(t: Text, c: char) -> int
    decreases t.len(),
{
    if t.len() == 0 {
        -1
    } else if t.last() == c {
        t.len() - 1
    } else {
        last_index(t.drop_last(), c)
    }
}

/// The length of the stem of a file name: the name up to its last `.`, unless the
/// only `.` opens it (or there is none), when the stem is the whole name.
pub open spec fn stem_len(name: Text) -> int {
    if last_index(name, '.') <= 0 {
        name.len() as int
    } else {
        last_index(name, '.')
    }
}

/// `p` with its extension set to `ext`, as `PathBuf::set_extension` does: the
/// last component, behind any trailing separators and `.` components, has what
/// follows its stem replaced by `.` and `ext`. A path whose last component is
/// missing, `.` or `..` is left as it is.
pub open spec fn with_extension(p: Text, ext: Text) -> Text {
    let t = trim_tail(p);
    let start = last_index(t, '/') + 1;
    let name = t.skip(start);
    if name.len() == 0 || name == "."@ || name == ".."@ {
        p
    } else {
        t.take(start + stem_len(name)) + "."@ + ext
    }
}

/// The file that holds the module named by `segments`: the segments pushed onto a
/// path, with the extension `cara`.
pub open spec fn module_file(segments: Seq<Text>) -> Text {
    with_extension(path_of(segments), "cara"@)
}

/// Among the first `split` segments and fewer, the longest run that names a known
/// file: that file, and the segments after it.
pub open spec fn resolve_from(segments: Seq<Text>, known: Set<Text>, split: int) -> Option<(Text, Seq<Text>)>
    decreases split,
{
    if split < 1 {
        None
    } else if known.contains(module_file(segments.take(split))) {
        Some((module_file(segments.take(split)), segments.skip(split)))
    } else {
        resolve_from(segments, known, split - 1)
    }
}

/// The file an import path resolves to, trying the longest prefix first, and the
/// symbol path left inside that file.
pub open spec fn resolve_import(segments: Seq<Text>, known: Set<Text>) -> Option<(Text, Seq<Text>)> {
    resolve_from(segments, known, segments.len() as int)
}

/// The name that an assignment target declares, if it is not a macro.
pub open spec fn lhs_declared_name(lhs: SpecAssignmentLhs) -> Option<Text> {
    match lhs {
        SpecAssignmentLhs::FuncDecl { name, .. } => Some(join(name, "::"@)),
        SpecAssignmentLhs::PathIdentifier { path, .. } => Some(join(path, "::"@)),
        SpecAssignmentLhs::MacroCall { .. } => None,
    }
}

/// The qualified names declared by a declaration target under `prefix`.
pub open spec fn declared_by_lhs(lhs: SpecAssignmentLhs, prefix: Text) -> Set<Text> {
    match lhs_declared_name(lhs) {
        Some(n) => set![qualified(prefix, n)],
        None => Set::empty(),
    }
}

/// Every name that the statements declare under `prefix`, modules included and
/// searched recursively.
pub open spec fn declarations(statements: Seq<SpecStatement>, prefix: Text) -> Set<Text>
    decreases statements,
{
    if statements.len() == 0 {
        Set::empty()
    } else {
        declarations(statements.drop_last(), prefix) + declared_by(statements.last(), prefix)
    }
}

/// The names one statement declares under `prefix`.
pub open spec fn declared_by(statement: SpecStatement, prefix: Text) -> Set<Text>
    decreases statement,
{
    match statement {
        SpecStatement::Declare(d) => declared_by_lhs(d.lhs, prefix),
        SpecStatement::Export(SpecExportStmt::Declare(d)) => declared_by_lhs(d.lhs, prefix),
        SpecStatement::ModuleDef(m) => set![qualified(prefix, m.name)] + declarations(
            m.statements,
            qualified(prefix, m.name),
        ),
        SpecStatement::Export(SpecExportStmt::ModuleDef(m)) => set![qualified(prefix, m.name)]
            + declarations(m.statements, qualified(prefix, m.name)),
        _ => Set::empty(),
    }
}

/// Exporting a module or a declaration does not change what it declares: the
/// module's own name and every name declared inside it, each under the module's
/// namespace, or the declaration's name.
pub proof fn lemma_export_declares_the_same(m: SpecModuleDef, d: SpecDeclare, prefix: Text)
    ensures
        declared_by(SpecStatement::Export(SpecExportStmt::ModuleDef(m)), prefix) == declared_by(
            SpecStatement::ModuleDef(m),
            prefix,
        ),
        declared_by(SpecStatement::ModuleDef(m), prefix).contains(qualified(prefix, m.name)),
        forall|n: Text| #[trigger] declarations(m.statements, qualified(prefix, m.name)).contains(n) ==> declared_by(
            SpecStatement::Export(SpecExportStmt::ModuleDef(m)),
            prefix,
        ).contains(n),
        declared_by(SpecStatement::Export(SpecExportStmt::Declare(d)), prefix) == declared_by(
            SpecStatement::Declare(d),
            prefix,
        ),
{
}

/// The texts of a sequence of strings, as a set.
pub open spec fn text_set(v: Seq<String>) -> Set<Text> {
    texts(v).to_set()
}

proof fn lemma_text_set_push(v: Seq<String>, s: String)
    ensures
        text_set(v.push(s)) == text_set(v).insert(s@),
{
    assert(texts(v.push(s)) =~= texts(v).push(s@));
    assert forall|t: Text| text_set(v.push(s)).contains(t) <==> text_set(v).insert(s@).contains(t) by {
        let p = texts(v.push(s));
        if p.contains(t) && t != s@ {
            let k = choose|k: int| 0 <= k < p.len() && p[k] == t;
            assert(texts(v)[k] == t);
        }
        if texts(v).contains(t) {
            let k = choose|k: int| 0 <= k < texts(v).len() && texts(v)[k] == t;
            assert(p[k] == t);
        }
        if t == s@ {
            assert(p[v.len() as int] == t);
        }
    }
    assert(text_set(v.push(s)) =~= text_set(v).insert(s@));
}

/// `name` inside the namespace `prefix`.
pub fn qualified_name(prefix: &String, name: &String) -> (r: String)
    ensures
        r@ == qualified(prefix@, name@),
{
    if prefix.as_str().is_empty() {
        name.clone()
    } else {
        let mut r = prefix.clone();
        r.append("::");
        r.append(name.as_str());
        r
    }
}

/// Pushes `seg` onto the path `buf`, with `/` as separator.
fn push_path(buf: &mut String, seg: &str)
    ensures
        final(buf)@ == path_push(old(buf)@, seg@),
{
    let m = seg.unicode_len();
    if m > 0 && seg.get_char(0) == '/' {
        *buf = seg.to_owned();
        return;
    }
    let n = buf.as_str().unicode_len();
    if n == 0 || buf.as_str().get_char(n - 1) == '/' {
        buf.append(seg);
    } else {
        buf.append("/");
        buf.append(seg);
    }
}

/// The path `p` with the extension `cara`.
#[verifier::rlimit(40)]
fn with_cara_extension(p: String) -> (r: String)
    ensures
        r@ == with_extension(p@, "cara"@),
{
    proof {
        reveal_strlit(".");
        reveal_strlit("..");
        reveal_strlit("cara");
        reveal_strlit(".cara");
    }
    let s = p.as_str();
    let ghost t0 = s@;
    let n = s.unicode_len();
    let mut e = n;
    assert(t0.take(n as int) =~= t0);
    while e >= 2 && (s.get_char(e - 1) == '/' || (s.get_char(e - 1) == '.' && s.get_char(e - 2) == '/'))
        invariant
            t0 == s@,
            n == t0.len(),
            e <= n,
            trim_tail(t0) == trim_tail(t0.take(e as int)),
        decreases e,
    {
        assert(t0.take(e as int).drop_last() =~= t0.take(e - 1));
        e = e - 1;
    }
    let ghost t = t0.take(e as int);
    assert(trim_tail(t) == t);
    let mut j = e;
    assert(t.take(e as int) =~= t);
    while j > 0 && s.get_char(j - 1) != '/'
        invariant
            t0 == s@,
            n == t0.len(),
            t == t0.take(e as int),
            j <= e <= n,
            last_index(t, '/') == last_index(t.take(j as int), '/'),
        decreases j,
    {
        assert(t.take(j as int).drop_last() =~= t.take(j - 1));
        j = j - 1;
    }
    let start = j;
    assert(last_index(t, '/') + 1 == start);
    let ghost name = t.skip(start as int);
    assert(name =~= t0.subrange(start as int, e as int));
    if e == start {
        assert(name.len() == 0);
        return p;
    }
    if e - start == 1 && s.get_char(start) == '.' {
        assert(name =~= "."@);
        return p;
    }
    if e - start == 2 && s.get_char(start) == '.' && s.get_char(start + 1) == '.' {
        assert(name =~= ".."@);
        return p;
    }
    assert(name != "."@) by {
        if name == "."@ {
            assert(name[0] == t0[start as int]);
        }
    }
    assert(name != ".."@) by {
        if name == ".."@ {
            assert(name[0] == t0[start as int]);
            assert(name[1] == t0[start + 1]);
        }
    }
    let mut k = e;
    assert(name.take(name.len() as int) =~= name);
    while k > start && s.get_char(k - 1) != '.'
        invariant
            t0 == s@,
            n == t0.len(),
            start < e <= n,
            start <= k <= e,
            name == t0.subrange(start as int, e as int),
            last_index(name, '.') == last_index(name.take(k - start), '.'),
        decreases k,
    {
        assert(name.take(k - start).drop_last() =~= name.take(k - start - 1));
        k = k - 1;
    }
    let end = if k - start <= 1 {
        e
    } else {
        k - 1
    };
    assert(start + stem_len(name) == end) by {
        if k > start {
            assert(name.take(k - start).last() == t0[k - 1]);
        }
    }
    let mut r = String::new();
    r.append(s.substring_char(0, end));
    r.append(".cara");
    assert(t.take(end as int) =~= t0.subrange(0, end as int));
    assert(".cara"@ =~= "."@ + "cara"@);
    assert(r@ =~= t.take(end as int) + "."@ + "cara"@);
    r
}

/// The file that holds the module named by the first `split` segments.
pub fn module_file_of(segments: &Vec<String>, split: usize) -> (r: String)
    requires
        split <= segments@.len(),
    ensures
        r@ == module_file(texts(segments@).take(split as int)),
{
    let ghost segs = texts(segments@);
    let mut path = String::new();
    let mut i: usize = 0;
    while i < split
        invariant
            split <= segments@.len(),
            segs == texts(segments@),
            i <= split,
            path@ == path_of(segs.take(i as int)),
        decreases split - i,
    {
        push_path(&mut path, segments[i].as_str());
        i = i + 1;
        assert(segs.take(i as int).drop_last() =~= segs.take(i - 1));
    }
    with_cara_extension(path)
}

/// The files an import path may ask for, as the resolver tries them: the module
/// file of all the segments first, then of ever shorter prefixes.
pub open spec fn import_candidates(segments: Seq<Text>) -> Seq<Text> {
    Seq::new(segments.len(), |i: int| module_file(segments.take(segments.len() - i)))
}

/// The files an import path may ask for, longest prefix first.
pub fn candidate_files(segments: &Vec<String>) -> (r: Vec<String>)
    ensures
        texts(r@) == import_candidates(texts(segments@)),
{
    let n = segments.len();
    let mut r: Vec<String> = Vec::new();
    let mut i: usize = 0;
    while i < n
        invariant
            n == segments@.len(),
            i <= n,
            r@.len() == i,
            forall|k: int| 0 <= k < i ==> #[trigger] r@[k]@ == module_file(texts(segments@).take(n - k)),
        decreases n - i,
    {
        r.push(module_file_of(segments, n - i));
        i = i + 1;
    }
    assert(texts(r@) =~= import_candidates(texts(segments@)));
    r
}

/// The position of the first `true` in `present`, or -1.
pub open spec fn first_present(present: Seq<bool>) -> int
    decreases present.len(),
{
    if present.len() == 0 {
        -1
    } else if present[0] {
        0
    } else if first_present(present.drop_first()) >= 0 {
        1 + first_present(present.drop_first())
    } else {
        -1
    }
}

/// The file to queue for an import among its candidates: the first one that is
/// present, or the first one when none is.
pub open spec fn chosen_file(candidates: Seq<Text>, present: Seq<bool>) -> Option<Text> {
    if candidates.len() == 0 {
        None
    } else if 0 <= first_present(present) < candidates.len() {
        Some(candidates[first_present(present)])
    } else {
        Some(candidates[0])
    }
}

/// The file to queue for an import among its candidates, given which of them are
/// present: the first present one, or the first one when none is.
pub fn choose_file(candidates: &Vec<String>, present: &Vec<bool>) -> (r: Option<String>)
    requires
        present@.len() == candidates@.len(),
    ensures
        r matches Some(f) ==> chosen_file(texts(candidates@), present@) == Some(f@),
        r is None ==> chosen_file(texts(candidates@), present@) is None,
{
    let n = candidates.len();
    if n == 0 {
        return None;
    }
    let mut i: usize = 0;
    assert(present@.skip(0) =~= present@);
    while i < n && !present[i]
        invariant
            n == candidates@.len(),
            n == present@.len(),
            i <= n,
            first_present(present@) == (if first_present(present@.skip(i as int)) >= 0 {
                i + first_present(present@.skip(i as int))
            } else {
                -1
            }),
        decreases n - i,
    {
        assert(present@.skip(i as int).drop_first() =~= present@.skip(i + 1));
        assert(present@.skip(i as int)[0] == present@[i as int]);
        i = i + 1;
    }
    if i < n {
        assert(present@.skip(i as int)[0] == present@[i as int]);
        Some(candidates[i].clone())
    } else {
        assert(present@.skip(i as int) =~= Seq::<bool>::empty());
        Some(candidates[0].clone())
    }
}

/// The file an import path resolves to and the symbol path left inside it:
/// first `a/b/c.cara`, then `a/b.cara` for `c`, then `a.cara` for `b::c`. Each
/// candidate is built as a path: the segments pushed one after the other, then
/// the extension set to `cara`.
pub fn resolve_import_path(segments: &Vec<String>, known_files: &Vec<String>) -> (r: Option<(String, Vec<String>)>)
    ensures
        match r {
            Some((file, rest)) => resolve_import(texts(segments@), text_set(known_files@)) == Some((file@, texts(rest@))),
            None => resolve_import(texts(segments@), text_set(known_files@)) is None,
        },
{
    let ghost segs = texts(segments@);
    let mut split = segments.len();
    while split >= 1
        invariant
            split <= segments@.len(),
            segs == texts(segments@),
            resolve_import(segs, text_set(known_files@)) == resolve_from(segs, text_set(known_files@), split as int),
        decreases split,
    {
        let candidate = module_file_of(segments, split);
        if contains_string(known_files, &candidate) {
            let mut rest: Vec<String> = Vec::new();
            let mut k = split;
            while k < segments.len()
                invariant
                    split <= k <= segments@.len(),
                    segs == texts(segments@),
                    rest@.len() == k - split,
                    forall|m: int| 0 <= m < rest@.len() ==> #[trigger] rest@[m]@ == segments@[split + m]@,
                decreases segments@.len() - k,
            {
                rest.push(segments[k].clone());
                k = k + 1;
            }
            assert(texts(rest@) =~= segs.skip(split as int));
            return Some((candidate, rest));
        }
        split = split - 1;
    }
    None
}

/// The name that an assignment target declares, if it is not a macro.
pub fn lhs_name(lhs: &AssignmentLhs) -> (r: Option<String>)
    ensures
        match r {
            Some(n) => lhs_declared_name(lhs_view(*lhs)) == Some(n@),
            None => lhs_declared_name(lhs_view(*lhs)) is None,
        },
{
    match lhs {
        AssignmentLhs::FuncDecl { name, .. } => Some(join_all(name, "::")),
        AssignmentLhs::PathIdentifier { path, .. } => Some(join_all(path, "::")),
        AssignmentLhs::MacroCall { .. } => None,
    }
}

/// Adds to `out` every name that `statements` declare under `prefix`, modules
/// included and searched recursively.
pub fn collect_declarations(statements: &Vec<Statement>, prefix: &String, out: &mut Vec<String>)
    ensures
        text_set(final(out)@) == text_set(old(out)@) + declarations(statements_view(statements@), prefix@),
    decreases statements@,
{
    let ghost sv = statements_view(statements@);
    proof { lemma_statements_view(statements@); }
    let mut i: usize = 0;
    while i < statements.len()
        invariant
            i <= statements@.len(),
            sv == statements_view(statements@),
            sv.len() == statements@.len(),
            forall|k: int| 0 <= k < statements@.len() ==> #[trigger] sv[k] == statement_view(statements@[k]),
            text_set(out@) == text_set(old(out)@) + declarations(sv.take(i as int), prefix@),
        decreases statements@.len() - i,
    {
        let ghost before = text_set(out@);
        assert(sv.take(i + 1).drop_last() =~= sv.take(i as int));
        assert(sv.take(i + 1).last() == statement_view(statements@[i as int]));
        match &statements[i] {
            Statement::Declare(decl) => {
                if let Some(name) = lhs_name(&decl.lhs) {
                    let q = qualified_name(prefix, &name);
                    proof { lemma_text_set_push(out@, q); }
                    out.push(q);
                }
                assert(text_set(out@) =~= before + declared_by(sv[i as int], prefix@));
            },
            Statement::Export(ExportStmt::Declare(decl)) => {
                if let Some(name) = lhs_name(&decl.lhs) {
                    let q = qualified_name(prefix, &name);
                    proof { lemma_text_set_push(out@, q); }
                    out.push(q);
                }
                assert(text_set(out@) =~= before + declared_by(sv[i as int], prefix@));
            },
            Statement::ModuleDef(module) => {
                let q = qualified_name(prefix, &module.name);
                proof { lemma_text_set_push(out@, q); }
                out.push(q.clone());
                assert(decreases_to!(statements@ => statements@[i as int]));
                collect_declarations(&module.statements, &q, out);
                assert(text_set(out@) =~= before + declared_by(sv[i as int], prefix@));
            },
            Statement::Export(ExportStmt::ModuleDef(module)) => {
                let q = qualified_name(prefix, &module.name);
                proof { lemma_text_set_push(out@, q); }
                out.push(q.clone());
                assert(decreases_to!(statements@ => statements@[i as int]));
                collect_declarations(&module.statements, &q, out);
                assert(text_set(out@) =~= before + declared_by(sv[i as int], prefix@));
            },
            _ => {
                assert(text_set(out@) =~= before + declared_by(sv[i as int], prefix@));
            },
        }
        i = i + 1;
        assert(text_set(out@) =~= text_set(old(out)@) + declarations(sv.take(i as int), prefix@));
    }
    assert(sv.take(statements@.len() as int) =~= sv);
}


/// The import statement a statement makes, if any.
pub open spec fn import_of(statement: SpecStatement) -> Option<SpecImportStmt> {
    match statement {
        SpecStatement::Import(i) => Some(i),
        SpecStatement::Export(SpecExportStmt::Use(i)) => Some(i),
        _ => None,
    }
}

/// The path imports among `statements` that resolve against `known`, in order:
/// the file, the symbol path inside it, and whether the path ends in `*`.
pub open spec fn resolved_imports(statements: Seq<SpecStatement>, known: Set<Text>) -> Seq<(Text, Seq<Text>, bool)>
    decreases statements.len(),
{
    if statements.len() == 0 {
        Seq::empty()
    } else {
        resolved_imports(statements.drop_last(), known) + match import_of(statements.last()) {
            Some(i) => match i.path {
                SpecImportPath::Path(segments, wildcard) => match resolve_import(segments, known) {
                    Some((file, symbol)) => seq![(file, symbol, wildcard)],
                    None => Seq::empty(),
                },
                SpecImportPath::Macro(_) => Seq::empty(),
            },
            None => Seq::empty(),
        }
    }
}

pub open spec fn import_triples_view(v: Seq<(String, Vec<String>, bool)>) -> Seq<(Text, Seq<Text>, bool)> {
    v.map_values(|t: (String, Vec<String>, bool)| (t.0@, texts(t.1@), t.2))
}

/// The path imports that `statements` make and that resolve to one of
/// `known_files`, in order.
pub fn collect_imports(statements: &Vec<Statement>, known_files: &Vec<String>) -> (r: Vec<(String, Vec<String>, bool)>)
    ensures
        import_triples_view(r@) == resolved_imports(statements_view(statements@), text_set(known_files@)),
{
    let ghost sv = statements_view(statements@);
    let ghost known = text_set(known_files@);
    proof { lemma_statements_view(statements@); }
    let mut imports: Vec<(String, Vec<String>, bool)> = Vec::new();
    let mut i: usize = 0;
    while i < statements.len()
        invariant
            i <= statements@.len(),
            sv == statements_view(statements@),
            known == text_set(known_files@),
            sv.len() == statements@.len(),
            forall|k: int| 0 <= k < statements@.len() ==> #[trigger] sv[k] == statement_view(statements@[k]),
            import_triples_view(imports@) == resolved_imports(sv.take(i as int), known),
        decreases statements@.len() - i,
    {
        assert(sv.take(i + 1).drop_last() =~= sv.take(i as int));
        assert(sv.take(i + 1).last() == statement_view(statements@[i as int]));
        let ghost before = import_triples_view(imports@);
        let import = match &statements[i] {
            Statement::Import(imp) => Some(imp),
            Statement::Export(ExportStmt::Use(imp)) => Some(imp),
            _ => None,
        };
        if let Some(imp) = import {
            if let ImportPath::Path(segments, wildcard) = &imp.path {
                if let Some((file_path, symbol_path)) = resolve_import_path(segments, known_files) {
                    imports.push((file_path, symbol_path, *wildcard));
                }
            }
        }
        assert(import_triples_view(imports@) =~= resolved_imports(sv.take(i + 1), known));
        i = i + 1;
    }
    assert(sv.take(statements@.len() as int) =~= sv);
    imports
}

/// The statements of a file whose parse is done.
pub open spec fn done_statements(state: FileState) -> Option<Seq<SpecStatement>> {
    match state {
        FileState::Done(p) => Some(statements_view(p.statements@)),
        _ => None,
    }
}

/// The names of all files.
pub open spec fn file_names(files: Seq<(String, FileState)>) -> Set<Text> {
    Set::new(|t: Text| exists|i: int| 0 <= i < files.len() && #[trigger] files[i].0@ == t)
}

/// Whether a file named `t` has been parsed.
pub open spec fn is_done_file(files: Seq<(String, FileState)>, t: Text) -> bool {
    exists|i: int| 0 <= i < files.len() && #[trigger] files[i].0@ == t && files[i].1 is Done
}

/// The imports of the file at position `a`, when it has been parsed.
pub open spec fn imports_of(files: Seq<(String, FileState)>, a: int) -> Seq<(Text, Seq<Text>, bool)> {
    match done_statements(files[a].1) {
        Some(st) => resolved_imports(st, file_names(files)),
        None => Seq::empty(),
    }
}

/// Which parsed files import which: an edge from `p` to `q` when `p` has an import
/// that resolves to the parsed file `q`.
pub open spec fn import_graph(files: Seq<(String, FileState)>) -> Map<Text, Set<Text>> {
    Map::new(
        |p: Text| is_done_file(files, p),
        |p: Text|
            Set::new(
                |q: Text|
                    is_done_file(files, q) && exists|a: int, m: int|
                        0 <= a < files.len() && files[a].0@ == p && 0 <= m < imports_of(files, a).len()
                            && #[trigger] imports_of(files, a)[m].0 == q,
            ),
    )
}

/// An import names a symbol path that the parsed file it resolves to does not
/// declare.
pub open spec fn is_unresolved(files: Seq<(String, FileState)>, imp: (Text, Seq<Text>, bool)) -> bool {
    &&& !imp.2
    &&& imp.1.len() > 0
    &&& exists|j: int| 0 <= j < files.len() && #[trigger] files[j].0@ == imp.0 && lacks_symbol(files[j].1, join(imp.1, "::"@))
}

/// A parsed file that does not declare `symbol` at its top level or in its modules.
pub open spec fn lacks_symbol(state: FileState, symbol: Text) -> bool {
    match done_statements(state) {
        Some(st) => !declarations(st, Seq::empty()).contains(symbol),
        None => false,
    }
}

pub open spec fn unresolved_message(imp: (Text, Seq<Text>, bool)) -> Text {
    "Unresolved import: '"@ + join(imp.1, "::"@) + "' not found in '"@ + imp.0 + "'"@
}

/// The unresolved-import errors of file `name` among `imps`, in order.
pub open spec fn file_errors(files: Seq<(String, FileState)>, name: Text, imps: Seq<(Text, Seq<Text>, bool)>) -> Seq<(Text, Text)>
    decreases imps.len(),
{
    if imps.len() == 0 {
        Seq::empty()
    } else {
        file_errors(files, name, imps.drop_last()) + if is_unresolved(files, imps.last()) {
            seq![(name, unresolved_message(imps.last()))]
        } else {
            Seq::empty()
        }
    }
}

/// The unresolved-import errors of the first `k` files, in order.
pub open spec fn errors_upto(files: Seq<(String, FileState)>, k: int) -> Seq<(Text, Text)>
    decreases k,
{
    if k <= 0 {
        Seq::empty()
    } else {
        errors_upto(files, k - 1) + file_errors(files, files[k - 1].0@, imports_of(files, k - 1))
    }
}

/// Every problem with the imports between the files: each unresolved import, in
/// the order of the files and of their imports, then a cycle among the imports of
/// parsed files, if there is one.
pub open spec fn resolution_errors(files: Seq<(String, FileState)>) -> Seq<(Text, Text)> {
    errors_upto(files, files.len() as int) + if is_acyclic(import_graph(files)) {
        Seq::empty()
    } else {
        seq![(Seq::empty(), "Circular import detected between files"@)]
    }
}

pub open spec fn errors_view(v: Seq<ResolveError>) -> Seq<(Text, Text)> {
    v.map_values(|e: ResolveError| e@)
}

/// The edges of the import graph found so far: those of the files before `i`,
/// and the first `k` imports of file `i`.
pub open spec fn import_graph_upto(files: Seq<(String, FileState)>, i: int, k: int) -> Map<Text, Set<Text>> {
    Map::new(
        |p: Text| is_done_file(files, p),
        |p: Text|
            Set::new(
                |q: Text|
                    is_done_file(files, q) && exists|a: int, m: int|
                        0 <= a < files.len() && files[a].0@ == p && 0 <= m < imports_of(files, a).len()
                            && (a < i || (a == i && m < k)) && #[trigger] imports_of(files, a)[m].0 == q,
            ),
    )
}

/// The position of the declaration table entry named `name`.
fn find_table_entry(names: &Vec<String>, name: &String) -> (r: Option<usize>)
    ensures
        r matches Some(t) ==> t < names@.len() && names@[t as int]@ == name@,
        r is None ==> forall|t: int| 0 <= t < names@.len() ==> names@[t]@ != name@,
{
    let mut t: usize = 0;
    while t < names.len()
        invariant
            t <= names@.len(),
            forall|u: int| 0 <= u < t ==> names@[u]@ != name@,
        decreases names@.len() - t,
    {
        if names[t] == *name {
            return Some(t);
        }
        t = t + 1;
    }
    None
}

/// Checks the imports between the files: every import of a symbol path must name
/// something that the file it resolves to declares, and the imports between
/// parsed files must not form a cycle. The problems come in the order of the
/// files and of their imports, the cycle last.
pub fn resolve_dependencies(files: &Vec<(String, FileState)>) -> (r: Vec<ResolveError>)
    requires
        forall|i: int, j: int| 0 <= i < j < files@.len() ==> files@[i].0@ != files@[j].0@,
    ensures
        errors_view(r@) == resolution_errors(files@),
{
    let ghost fs = files@;
    let n = files.len();
    let mut known: Vec<String> = Vec::new();
    let mut i: usize = 0;
    while i < n
        invariant
            n == files@.len(),
            i <= n,
            known@.len() == i,
            forall|a: int| 0 <= a < i ==> #[trigger] known@[a]@ == files@[a].0@,
        decreases n - i,
    {
        known.push(files[i].0.clone());
        i = i + 1;
    }
    assert(text_set(known@) =~= file_names(fs)) by {
        assert forall|t: Text| text_set(known@).contains(t) implies file_names(fs).contains(t) by {
            let a = choose|a: int| 0 <= a < texts(known@).len() && texts(known@)[a] == t;
            assert(known@[a]@ == t);
        }
        assert forall|t: Text| file_names(fs).contains(t) implies text_set(known@).contains(t) by {
            let a = choose|a: int| 0 <= a < fs.len() && #[trigger] fs[a].0@ == t;
            assert(texts(known@)[a] == t);
        }
    }
    let mut table_names: Vec<String> = Vec::new();
    let mut table_decls: Vec<Vec<String>> = Vec::new();
    let ghost mut table_pos: Seq<int> = Seq::empty();
    let mut i: usize = 0;
    while i < n
        invariant
            n == files@.len(),
            fs == files@,
            i <= n,
            table_names@.len() == table_decls@.len(),
            table_pos.len() == table_names@.len(),
            forall|t: int| 0 <= t < table_pos.len() ==> 0 <= #[trigger] table_pos[t] < i,
            forall|t: int| 0 <= t < table_pos.len() ==> #[trigger] table_names@[t]@ == files@[table_pos[t]].0@,
            forall|t: int| 0 <= t < table_pos.len() ==> lacks_or_declares(files@[#[trigger] table_pos[t]].1, table_decls@[t]),
            forall|a: int| 0 <= a < i && (#[trigger] files@[a]).1 is Done ==> exists|t: int| 0 <= t < table_pos.len() && table_pos[t] == a,
        decreases n - i,
    {
        let ghost pos0 = table_pos;
        let ghost decls0 = table_decls@;
        match &files[i].1 {
            FileState::Done(program) => {
                let mut syms: Vec<String> = Vec::new();
                let empty = String::new();
                assert(text_set(syms@) =~= Set::<Text>::empty());
                assert(empty@ =~= Seq::<char>::empty());
                collect_declarations(&program.statements, &empty, &mut syms);
                assert(files@[i as int].1 == FileState::Done(*program));
                assert(text_set(syms@) =~= declarations(statements_view(program.statements@), Seq::empty()));
                assert(lacks_or_declares(files@[i as int].1, syms));
                table_names.push(files[i].0.clone());
                table_decls.push(syms);
                proof {
                    table_pos = table_pos.push(i as int);
                    assert(table_pos[pos0.len() as int] == i);
                    assert forall|t: int| 0 <= t < table_pos.len() implies lacks_or_declares(
                        files@[#[trigger] table_pos[t]].1,
                        table_decls@[t],
                    ) by {
                        if t < pos0.len() {
                            assert(table_pos[t] == pos0[t]);
                            assert(table_decls@[t] == decls0[t]);
                        }
                    }
                    assert forall|a: int| 0 <= a < i + 1 && (#[trigger] files@[a]).1 is Done implies exists|t: int|
                        0 <= t < table_pos.len() && table_pos[t] == a by {
                        if a == i {
                            assert(table_pos[pos0.len() as int] == a);
                        } else {
                            let t = choose|t: int| 0 <= t < pos0.len() && pos0[t] == a;
                            assert(table_pos[t] == a);
                        }
                    }
                }
            },
            _ => {
                proof {
                    assert forall|a: int| 0 <= a < i + 1 && (#[trigger] files@[a]).1 is Done implies exists|t: int|
                        0 <= t < table_pos.len() && table_pos[t] == a by {
                        assert(a != i);
                    }
                }
            },
        }
        i = i + 1;
    }
    let mut graph: Graph<String> = Graph::new();
    let mut t: usize = 0;
    while t < table_names.len()
        invariant
            n == files@.len(),
            fs == files@,
            t <= table_names@.len(),
            table_pos.len() == table_names@.len(),
            forall|u: int| 0 <= u < table_pos.len() ==> #[trigger] table_names@[u]@ == files@[table_pos[u]].0@,
            forall|u: int| 0 <= u < table_pos.len() ==> 0 <= #[trigger] table_pos[u] < n,
            forall|u: int| 0 <= u < table_pos.len() ==> lacks_or_declares(files@[#[trigger] table_pos[u]].1, table_decls@[u]),
            graph@ == Map::new(|p: Text| exists|u: int| 0 <= u < t && #[trigger] table_names@[u]@ == p, |p: Text| Set::<Text>::empty()),
        decreases table_names@.len() - t,
    {
        let ghost g0 = graph@;
        graph.add_node(&table_names[t]);
        t = t + 1;
        assert(graph@ =~~= Map::new(|p: Text| exists|u: int| 0 <= u < t && #[trigger] table_names@[u]@ == p, |p: Text| Set::<Text>::empty())) by {
            assert forall|p: Text| (exists|u: int| 0 <= u < t && #[trigger] table_names@[u]@ == p) <==> (g0.dom().contains(p) || p == table_names@[t - 1]@) by {
                if exists|u: int| 0 <= u < t && #[trigger] table_names@[u]@ == p {
                    let u = choose|u: int| 0 <= u < t && #[trigger] table_names@[u]@ == p;
                    if u < t - 1 {
                        assert(g0.dom().contains(p));
                    }
                }
                if g0.dom().contains(p) {
                    let u = choose|u: int| 0 <= u < t - 1 && #[trigger] table_names@[u]@ == p;
                    assert(table_names@[u]@ == p);
                }
            }
        }
    }
    proof {
        assert(graph@ =~~= import_graph_upto(fs, 0, 0)) by {
            assert forall|p: Text| graph@.dom().contains(p) <==> is_done_file(fs, p) by {
                if graph@.dom().contains(p) {
                    let u = choose|u: int| 0 <= u < table_names@.len() && #[trigger] table_names@[u]@ == p;
                    assert(fs[table_pos[u]].0@ == p);
                    assert(lacks_or_declares(fs[table_pos[u]].1, table_decls@[u]));
                }
                if is_done_file(fs, p) {
                    let a = choose|a: int| 0 <= a < fs.len() && #[trigger] fs[a].0@ == p && fs[a].1 is Done;
                    assert(fs[a].1 is Done);
                    let u = choose|u: int| 0 <= u < table_pos.len() && table_pos[u] == a;
                    assert(table_names@[u]@ == p);
                }
            }
            assert forall|p: Text| graph@.dom().contains(p) implies graph@[p] =~= import_graph_upto(fs, 0, 0)[p] by {}
        }
    }
    let mut errors: Vec<ResolveError> = Vec::new();
    let mut i: usize = 0;
    while i < n
        invariant
            n == files@.len(),
            fs == files@,
            i <= n,
            forall|a: int, b: int| 0 <= a < b < fs.len() ==> fs[a].0@ != fs[b].0@,
            text_set(known@) == file_names(fs),
            table_pos.len() == table_names@.len(),
            table_decls@.len() == table_names@.len(),
            forall|u: int| 0 <= u < table_pos.len() ==> #[trigger] table_names@[u]@ == files@[table_pos[u]].0@,
            forall|u: int| 0 <= u < table_pos.len() ==> 0 <= #[trigger] table_pos[u] < n,
            forall|u: int| 0 <= u < table_pos.len() ==> lacks_or_declares(files@[#[trigger] table_pos[u]].1, table_decls@[u]),
            forall|a: int| 0 <= a < n && (#[trigger] files@[a]).1 is Done ==> exists|t: int| 0 <= t < table_pos.len() && table_pos[t] == a,
            graph@ == import_graph_upto(fs, i as int, 0),
            errors_view(errors@) == errors_upto(fs, i as int),
        decreases n - i,
    {
        if let FileState::Done(program) = &files[i].1 {
            let imports = collect_imports(&program.statements, &known);
            assert(import_triples_view(imports@) == imports_of(fs, i as int));
            let mut k: usize = 0;
            while k < imports.len()
                invariant
                    n == files@.len(),
                    fs == files@,
                    i < n,
                    k <= imports@.len(),
                    files@[i as int].1 is Done,
                    forall|a: int, b: int| 0 <= a < b < fs.len() ==> fs[a].0@ != fs[b].0@,
                    import_triples_view(imports@) == imports_of(fs, i as int),
                    table_pos.len() == table_names@.len(),
                    table_decls@.len() == table_names@.len(),
                    forall|u: int| 0 <= u < table_pos.len() ==> #[trigger] table_names@[u]@ == files@[table_pos[u]].0@,
                    forall|u: int| 0 <= u < table_pos.len() ==> 0 <= #[trigger] table_pos[u] < n,
                    forall|u: int| 0 <= u < table_pos.len() ==> lacks_or_declares(files@[#[trigger] table_pos[u]].1, table_decls@[u]),
                    forall|a: int| 0 <= a < n && (#[trigger] files@[a]).1 is Done ==> exists|t: int| 0 <= t < table_pos.len() && table_pos[t] == a,
                    graph@ == import_graph_upto(fs, i as int, k as int),
                    errors_view(errors@) == errors_upto(fs, i as int) + file_errors(fs, fs[i as int].0@, imports_of(fs, i as int).take(k as int)),
                decreases imports@.len() - k,
            {
                let ghost imps = imports_of(fs, i as int);
                let ghost g0 = graph@;
                let (source_file, symbol_path, wildcard) = &imports[k];
                assert(imps[k as int] == (source_file@, texts(symbol_path@), *wildcard));
                graph.add_connection(&files[i].0, source_file);
                proof {
                    lemma_graph_step(fs, i as int, k as int, g0, graph@);
                }
                assert(imps.take(k + 1).drop_last() =~= imps.take(k as int));
                assert(imps.take(k + 1).last() == imps[k as int]);
                if !*wildcard && symbol_path.len() > 0 {
                    let symbol = join_all(symbol_path, "::");
                    match find_table_entry(&table_names, source_file) {
                        Some(t) => {
                            let declared = contains_string(&table_decls[t], &symbol);
                            proof {
                                assert(lacks_or_declares(fs[table_pos[t as int]].1, table_decls@[t as int]));
                                if is_unresolved(fs, imps[k as int]) {
                                    let j = choose|j: int| 0 <= j < fs.len() && #[trigger] fs[j].0@ == imps[k as int].0 && lacks_symbol(fs[j].1, join(imps[k as int].1, "::"@));
                                    assert(table_pos[t as int] == j);
                                }
                            }
                            if !declared {
                                proof {
                                    let j = table_pos[t as int];
                                    assert(fs[j].0@ == imps[k as int].0);
                                    assert(!text_set(table_decls@[t as int]@).contains(symbol@));
                                    assert(lacks_symbol(fs[j].1, join(imps[k as int].1, "::"@)));
                                    assert(is_unresolved(fs, imps[k as int]));
                                }
                                let mut message = String::new();
                                message.append("Unresolved import: '");
                                message.append(symbol.as_str());
                                message.append("' not found in '");
                                message.append(source_file.as_str());
                                message.append("'");
                                assert(message@ == unresolved_message(imps[k as int]));
                                let ghost ev0 = errors_view(errors@);
                                let file = files[i].0.clone();
                                errors.push(ResolveError { file, message });
                                assert(errors_view(errors@) =~= ev0.push((fs[i as int].0@, unresolved_message(imps[k as int]))));
                                assert(errors_view(errors@) =~= errors_upto(fs, i as int) + file_errors(fs, fs[i as int].0@, imps.take(k + 1)));
                            } else {
                                assert(errors_view(errors@) =~= errors_upto(fs, i as int) + file_errors(fs, fs[i as int].0@, imps.take(k + 1)));
                            }
                        },
                        None => {
                            proof {
                                if is_unresolved(fs, imps[k as int]) {
                                    let j = choose|j: int| 0 <= j < fs.len() && #[trigger] fs[j].0@ == imps[k as int].0 && lacks_symbol(fs[j].1, join(imps[k as int].1, "::"@));
                                    assert(fs[j].1 is Done);
                                    let u = choose|u: int| 0 <= u < table_pos.len() && table_pos[u] == j;
                                    assert(table_names@[u]@ == source_file@);
                                }
                            }
                            assert(errors_view(errors@) =~= errors_upto(fs, i as int) + file_errors(fs, fs[i as int].0@, imps.take(k + 1)));
                        },
                    }
                } else {
                    assert(errors_view(errors@) =~= errors_upto(fs, i as int) + file_errors(fs, fs[i as int].0@, imps.take(k + 1)));
                }
                k = k + 1;
            }
            assert(imports_of(fs, i as int).take(imports@.len() as int) =~= imports_of(fs, i as int));
        } else {
            assert(imports_of(fs, i as int) =~= Seq::empty());
        }
        proof {
            lemma_graph_next_file(fs, i as int);
        }
        i = i + 1;
    }
    proof {
        assert(graph@ =~~= import_graph(fs)) by {
            assert forall|p: Text| graph@.dom().contains(p) implies graph@[p] =~= import_graph(fs)[p] by {}
        }
    }
    if graph.topological_order().is_none() {
        errors.push(ResolveError { file: String::new(), message: "Circular import detected between files".to_owned() });
    }
    assert(errors_view(errors@) =~= resolution_errors(fs));
    errors
}

/// A table entry `decls` for a file state: the state is done, and `decls` holds
/// exactly the names its statements declare.
pub open spec fn lacks_or_declares(state: FileState, decls: Vec<String>) -> bool {
    match done_statements(state) {
        Some(st) => text_set(decls@) == declarations(st, Seq::empty()),
        None => false,
    }
}

proof fn lemma_graph_step(files: Seq<(String, FileState)>, i: int, k: int, g0: Map<Text, Set<Text>>, g1: Map<Text, Set<Text>>)
    requires
        0 <= i < files.len(),
        files[i].1 is Done,
        0 <= k < imports_of(files, i).len(),
        g0 == import_graph_upto(files, i, k),
        g1 == (if g0.dom().contains(files[i].0@) && g0.dom().contains(imports_of(files, i)[k].0) && !g0[files[i].0@].contains(imports_of(files, i)[k].0) {
            g0.insert(files[i].0@, g0[files[i].0@].insert(imports_of(files, i)[k].0))
        } else {
            g0
        }),
    ensures
        g1 == import_graph_upto(files, i, k + 1),
{
    let p0 = files[i].0@;
    let q0 = imports_of(files, i)[k].0;
    let target = import_graph_upto(files, i, k + 1);
    assert(is_done_file(files, p0));
    assert forall|p: Text| #[trigger] target.dom().contains(p) implies g1[p] =~= target[p] by {
        assert forall|q: Text| g1[p].contains(q) <==> target[p].contains(q) by {
            if p == p0 && q == q0 && is_done_file(files, q) {
                assert(imports_of(files, i)[k].0 == q);
            }
            if target[p].contains(q) {
                let (a, m) = choose|a: int, m: int|
                    0 <= a < files.len() && files[a].0@ == p && 0 <= m < imports_of(files, a).len()
                        && (a < i || (a == i && m < k + 1)) && #[trigger] imports_of(files, a)[m].0 == q;
                if !(a == i && m == k) {
                    assert(g0[p].contains(q));
                } else {
                    assert(p == p0 && q == q0);
                }
            }
            if g0[p].contains(q) {
                let (a, m) = choose|a: int, m: int|
                    0 <= a < files.len() && files[a].0@ == p && 0 <= m < imports_of(files, a).len()
                        && (a < i || (a == i && m < k)) && #[trigger] imports_of(files, a)[m].0 == q;
                assert(target[p].contains(q));
            }
        }
    }
    assert(g1 =~~= target);
}

proof fn lemma_graph_next_file(files: Seq<(String, FileState)>, i: int)
    requires
        0 <= i < files.len(),
    ensures
        import_graph_upto(files, i, imports_of(files, i).len() as int) == import_graph_upto(files, i + 1, 0),
{
    let a1 = import_graph_upto(files, i, imports_of(files, i).len() as int);
    let a2 = import_graph_upto(files, i + 1, 0);
    assert forall|p: Text| #[trigger] a1.dom().contains(p) implies a1[p] =~= a2[p] by {
        assert forall|q: Text| a1[p].contains(q) <==> a2[p].contains(q) by {
            if a1[p].contains(q) {
                let (a, m) = choose|a: int, m: int|
                    0 <= a < files.len() && files[a].0@ == p && 0 <= m < imports_of(files, a).len()
                        && (a < i || (a == i && m < imports_of(files, i).len())) && #[trigger] imports_of(files, a)[m].0 == q;
                assert(a2[p].contains(q));
            }
            if a2[p].contains(q) {
                let (a, m) = choose|a: int, m: int|
                    0 <= a < files.len() && files[a].0@ == p && 0 <= m < imports_of(files, a).len()
                        && (a < i + 1 || (a == i + 1 && m < 0)) && #[trigger] imports_of(files, a)[m].0 == q;
                assert(a1[p].contains(q));
            }
        }
    }
    assert(a1 =~~= a2);
}

} // verus!
