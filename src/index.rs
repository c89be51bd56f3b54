use vstd::prelude::*;

use crate::ast::{Decl, TranslationUnit};
use crate::error::Error;
use crate::source::same_text;

verus! {

/// The declared names of `decls`, in order.
pub open spec fn decl_names(decls: Seq<Decl>) -> Seq<Seq<char>> {
    decls.map_values(|d: Decl| d.name.name@)
}

/// No name is declared twice.
pub open spec fn names_distinct(decls: Seq<Decl>) -> bool {
    forall|i: int, j: int|
        0 <= i < j < decls.len() ==> decls[i].name.name@ != decls[j].name.name@
}

/// Declaration `j` is the first to repeat a name, and declaration `i` the
/// first earlier one with that name.
pub open spec fn first_redefinition(decls: Seq<Decl>, i: int, j: int) -> bool {
    &&& 0 <= i < j < decls.len()
    &&& decls[i].name.name@ == decls[j].name.name@
    &&& forall|a: int, b: int| 0 <= a < b < j ==> decls[a].name.name@ != decls[b].name.name@
    &&& forall|a: int| 0 <= a < i ==> decls[a].name.name@ != decls[j].name.name@
}

/// The names declared at the top level of one translation unit, checked to
/// be distinct, in declaration order.
pub struct Index {
    names: Vec<String>,
}

impl Index {
    pub closed spec fn spec_names(&self) -> Seq<Seq<char>> {
        self.names@.map_values(|s: String| s@)
    }

    /// Index the declarations of `unit`; fails on the first declaration
    /// whose name an earlier one already declared.
    pub fn generate(unit: &TranslationUnit) -> (r: Result<Index, Error>)
        ensures
            r is Ok <==> names_distinct(unit.decls@),
            r matches Ok(index) ==> index.spec_names() == decl_names(unit.decls@),
            r matches Err(e) ==> exists|i: int, j: int|
                first_redefinition(unit.decls@, i, j) && e == (Error::Redefinition {
                    previous: unit.decls@[i].name.span,
                    current: unit.decls@[j].name.span,
                }),
    {
        let decls = &unit.decls;
        let mut names: Vec<String> = Vec::new();
        let mut j: usize = 0;
        while j < decls.len()
            invariant
                j <= decls@.len(),
                decls@ == unit.decls@,
                forall|a: int, b: int|
                    0 <= a < b < j ==> #[trigger] decls@[a].name.name@ != #[trigger] decls@[b].name.name@,
                names@.len() == j,
                forall|k: int| 0 <= k < j ==> #[trigger] names@[k]@ == decls@[k].name.name@,
            decreases decls@.len() - j,
        {
            let mut i: usize = 0;
            while i < j
                invariant
                    i <= j < decls@.len(),
                    decls@ == unit.decls@,
                    forall|a: int, b: int|
                        0 <= a < b < j ==> #[trigger] decls@[a].name.name@ != #[trigger] decls@[b].name.name@,
                    forall|k: int| 0 <= k < i ==> decls@[k].name.name@ != decls@[j as int].name.name@,
                decreases j - i,
            {
                if same_text(decls[i].name.name.as_str(), decls[j].name.name.as_str()) {
                    assert(decls@[i as int].name.name@ == decls@[j as int].name.name@);
                    assert(!names_distinct(decls@));
                    assert(first_redefinition(decls@, i as int, j as int));
                    return Err(
                        Error::Redefinition { previous: decls[i].name.span, current: decls[j].name.span },
                    );
                }
                i += 1;
            }
            let name = decls[j].name.name.clone();
            names.push(name);
            j += 1;
        }
        assert(names@.map_values(|s: String| s@) =~= decl_names(decls@));
        Ok(Index { names })
    }

    /// The indexed names, in declaration order.
    pub fn names(&self) -> (r: &Vec<String>)
        ensures
            r@.map_values(|s: String| s@) == self.spec_names(),
    {
        &self.names
    }

    /// Number of indexed declarations.
    pub fn len(&self) -> (r: usize)
        ensures
            r == self.spec_names().len(),
    {
        self.names.len()
    }
}

} // verus!
