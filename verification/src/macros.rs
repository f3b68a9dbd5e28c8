use vstd::prelude::*;

use crate::ast::{AssignmentLhs, ImportPath, Primary, Text};
use crate::frontend_types::Span;
use std::sync::Arc;

verus! {

/// The message for a macro used where it cannot stand; `place` ends the
/// sentence.
pub open spec fn misplaced(name: Text, place: Text) -> Text {
    "Macro '@"@ + name + place
}

/// A macro of the language. A macro expands to different parts of the syntax
/// tree depending on where it is called; by default it is an error to call it
/// anywhere, and each macro overrides the places it supports.
pub trait CarawayMacro {
    /// The name the macro is called by.
    spec fn macro_name(&self) -> Text;

    /// Whether expanding `content` as an expression runs to its end; a macro that
    /// cannot stand for an expression fails on every content.
    open spec fn expands_primary(&self, content: Text) -> bool {
        true
    }

    fn name(&self) -> (r: &'static str)
        ensures
            r@ == self.macro_name(),
    ;

    /// The expression that the macro stands for, or why it cannot be built.
    fn expand_primary(&self, content: &str, span: Span) -> (r: Result<Primary, String>)
        requires
            self.expands_primary(content@),
        default_ensures
            r matches Err(m) && m@ == misplaced(self.macro_name(), "' cannot be used as an expression."@),
    {
        let mut m = "Macro '@".to_owned();
        m.append(self.name());
        m.append("' cannot be used as an expression.");
        Err(m)
    }

    /// The assignment target that the macro stands for, or why it cannot be built.
    fn expand_lhs(&self, content: &str, span: Span) -> (r: Result<AssignmentLhs, String>)
        default_ensures
            r matches Err(m) && m@ == misplaced(self.macro_name(), "' cannot be used as an assignment target."@),
    {
        let mut m = "Macro '@".to_owned();
        m.append(self.name());
        m.append("' cannot be used as an assignment target.");
        Err(m)
    }

    /// The import path that the macro stands for, or why it cannot be built.
    fn expand_import(&self, content: &str, span: Span) -> (r: Result<ImportPath, String>)
        default_ensures
            r matches Err(m) && m@ == misplaced(self.macro_name(), "' cannot be used in an import statement."@),
    {
        let mut m = "Macro '@".to_owned();
        m.append(self.name());
        m.append("' cannot be used in an import statement.");
        Err(m)
    }
}


/// Another handle on the macro that `a` points to: `Arc::clone` makes a new
/// pointer to the same allocation, so the macro it points to is the same.
#[verifier::external_body]
fn share<M: ?Sized>(a: &Arc<M>) -> (r: Arc<M>)
    ensures
        r == *a,
{
    Arc::clone(a)
}

/// The position of the name `n` among `names`.
spec fn named_index(names: Seq<String>, n: Text) -> int {
    index_of_text(names.map_values(|s: String| s@), n)
}

/// A position of `n` in `texts`.
spec fn index_of_text(texts: Seq<Text>, n: Text) -> int {
    choose|i: int| 0 <= i < texts.len() && texts[i] == n
}

/// Among names that are all different, a name is found at its own position.
proof fn lemma_named_index(names: Seq<String>, i: int)
    requires
        0 <= i < names.len(),
        forall|a: int, b: int| 0 <= a < b < names.len() ==> names[a]@ != names[b]@,
    ensures
        named_index(names, names[i]@) == i,
{
    let t = names.map_values(|s: String| s@);
    assert(t[i] == names[i]@);
    let j = named_index(names, names[i]@);
    assert(0 <= j < names.len() && t[j] == names[i]@);
    assert(t[j] == names[j]@);
    if j < i {
        assert(names[j]@ != names[i]@);
    } else if i < j {
        assert(names[i]@ != names[j]@);
    }
}

/// The macros of the language, found by name. `M` is the type the macros are
/// held as, usually `dyn CarawayMacro`.
pub struct MacroRegistry<M: CarawayMacro + ?Sized> {
    names: Vec<String>,
    macros: Vec<Arc<M>>,
}

impl<M: CarawayMacro + ?Sized> MacroRegistry<M> {
    /// Each name stands beside its macro, no two names are the same, and each
    /// macro is filed under its own name.
    #[verifier::type_invariant]
    spec fn wf(&self) -> bool {
        &&& self.names@.len() == self.macros@.len()
        &&& forall|a: int, b: int| 0 <= a < b < self.names@.len() ==> self.names@[a]@ != self.names@[b]@
        &&& forall|a: int| 0 <= a < self.names@.len() ==> (#[trigger] self.macros@[a]).macro_name() == self.names@[a]@
    }

    /// The names of the registered macros, in the order they were first added.
    pub closed spec fn names(&self) -> Seq<Text> {
        self.names@.map_values(|n: String| n@)
    }

    /// The macro registered under `n`; meaningful where `n` is among `names()`.
    pub closed spec fn macro_named(&self, n: Text) -> Arc<M> {
        self.macros@[named_index(self.names@, n)]
    }

    /// An empty registry.
    pub fn new() -> (r: Self)
        ensures
            r.names() == Seq::<Text>::empty(),
    {
        let r = MacroRegistry { names: Vec::new(), macros: Vec::new() };
        assert(r.names() =~= Seq::<Text>::empty());
        r
    }

    /// The position of the macro named `name`.
    fn find(&self, name: &String) -> (r: Option<usize>)
        ensures
            r matches Some(i) ==> i < self.names@.len() && self.names@[i as int]@ == name@,
            r is None ==> !self.names().contains(name@),
    {
        let mut i: usize = 0;
        while i < self.names.len()
            invariant
                i <= self.names@.len(),
                forall|k: int| 0 <= k < i ==> self.names@[k]@ != name@,
            decreases self.names@.len() - i,
        {
            if self.names[i] == *name {
                return Some(i);
            }
            i = i + 1;
        }
        proof {
            if self.names().contains(name@) {
                let k = choose|k: int| 0 <= k < self.names().len() && self.names()[k] == name@;
                assert(self.names@[k]@ == name@);
            }
        }
        None
    }

    /// The registry with `m` added under its name, in place of a macro of the same
    /// name.
    pub fn with_macro(self, m: Arc<M>) -> (r: Self)
        ensures
            r.names() == (if self.names().contains(m.macro_name()) {
                self.names()
            } else {
                self.names().push(m.macro_name())
            }),
            r.macro_named(m.macro_name()) == m,
            forall|n: Text|
                self.names().contains(n) && n != m.macro_name() ==> #[trigger] r.macro_named(n) == self.macro_named(n),
    {
        proof { use_type_invariant(&self); }
        let name = m.name().to_owned();
        assert(name@ == m.macro_name());
        let found = self.find(&name);
        let MacroRegistry { mut names, mut macros } = self;
        let ghost n0 = names@;
        match found {
            Some(i) => {
                assert(self.names()[i as int] == name@);
                assert(self.names().contains(m.macro_name()));
                let ghost mac0 = macros@;
                macros.set(i, m);
                proof {
                    lemma_named_index(n0, i as int);
                    assert forall|n: Text| self.names().contains(n) && n != m.macro_name() implies macros@[named_index(n0, n)] == mac0[named_index(n0, n)] by {
                        let k = choose|k: int| 0 <= k < self.names().len() && self.names()[k] == n;
                        assert(n0[k]@ == n);
                        lemma_named_index(n0, k);
                    }
                }
            },
            None => {
                let ghost nv = name@;
                let ghost mac0 = macros@;
                names.push(name);
                macros.push(m);
                assert(names@.map_values(|n: String| n@) =~= n0.map_values(|n: String| n@).push(nv));
                proof {
                    assert forall|a: int, b: int| 0 <= a < b < names@.len() implies names@[a]@ != names@[b]@ by {
                        if b == n0.len() {
                            assert(names@[a] == n0[a]);
                            assert(self.names()[a] == n0[a]@);
                        }
                    }
                    assert(names@[n0.len() as int]@ == nv);
                    lemma_named_index(names@, n0.len() as int);
                    assert forall|n: Text| self.names().contains(n) && n != m.macro_name() implies macros@[named_index(names@, n)] == mac0[named_index(n0, n)] by {
                        let k = choose|k: int| 0 <= k < self.names().len() && self.names()[k] == n;
                        assert(n0[k]@ == n);
                        lemma_named_index(n0, k);
                        assert(names@[k] == n0[k]);
                        lemma_named_index(names@, k);
                    }
                }
            },
        }
        let r = MacroRegistry { names, macros };
        assert(n0.map_values(|n: String| n@) == self.names());
        assert(r.names() =~= (if self.names().contains(m.macro_name()) {
            self.names()
        } else {
            self.names().push(m.macro_name())
        }));
        r
    }

    /// The macro named `name`, if one is registered.
    pub fn get(&self, name: &str) -> (r: Option<&M>)
        ensures
            r is Some <==> self.names().contains(name@),
            r matches Some(m) ==> m.macro_name() == name@ && m == &*self.macro_named(name@),
    {
        proof { use_type_invariant(self); }
        match self.find(&name.to_owned()) {
            Some(i) => {
                assert(self.names()[i as int] == name@);
                proof { lemma_named_index(self.names@, i as int); }
                Some(&*self.macros[i])
            },
            None => None,
        }
    }
}

impl<M: CarawayMacro + ?Sized> Clone for MacroRegistry<M> {
    /// A registry with the same names and the same macros, shared with this one.
    fn clone(&self) -> (r: Self)
        ensures
            r.names() == self.names(),
            forall|n: Text| #[trigger] r.macro_named(n) == self.macro_named(n),
    {
        proof { use_type_invariant(self); }
        let mut names: Vec<String> = Vec::new();
        let mut macros: Vec<Arc<M>> = Vec::new();
        let mut i: usize = 0;
        while i < self.names.len()
            invariant
                self.names@.len() == self.macros@.len(),
                forall|a: int, b: int| 0 <= a < b < self.names@.len() ==> self.names@[a]@ != self.names@[b]@,
                forall|a: int| 0 <= a < self.names@.len() ==> (#[trigger] self.macros@[a]).macro_name() == self.names@[a]@,
                i <= self.names@.len(),
                names@.len() == i,
                macros@.len() == i,
                forall|a: int| 0 <= a < i ==> #[trigger] names@[a]@ == self.names@[a]@,
                forall|a: int| 0 <= a < i ==> #[trigger] macros@[a] == self.macros@[a],
            decreases self.names@.len() - i,
        {
            names.push(self.names[i].clone());
            macros.push(share(&self.macros[i]));
            i = i + 1;
        }
        assert(names@.map_values(|n: String| n@) =~= self.names());
        assert(macros@ =~= self.macros@);
        let r = MacroRegistry { names, macros };
        assert forall|n: Text| #[trigger] r.macro_named(n) == self.macro_named(n) by {
            assert forall|k: int| 0 <= k < names@.len() implies (names@[k]@ == n <==> self.names@[k]@ == n) by {}
            if exists|k: int| 0 <= k < names@.len() && names@[k]@ == n {
                let k = choose|k: int| 0 <= k < names@.len() && names@[k]@ == n;
                lemma_named_index(names@, k);
                lemma_named_index(self.names@, k);
            } else {
                assert(names@.map_values(|s: String| s@) =~= self.names@.map_values(|s: String| s@));
            }
        }
        r
    }
}

} // verus!
