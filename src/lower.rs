use vstd::prelude::*;

use crate::ast::{Import, TranslationUnit};
use crate::error::Error;
use crate::index::{decl_names, Index};
use crate::source::same_text;

verus! {

/// `names` holds `name`.
pub open spec fn seq_has(names: Seq<Seq<char>>, name: Seq<char>) -> bool {
    exists|k: int| 0 <= k < names.len() && names[k] == name
}

/// The lowered form of one translation unit: its declarations, in order.
#[derive(Clone, Debug)]
pub struct Module {
    names: Vec<String>,
}

impl Module {
    pub closed spec fn spec_names(&self) -> Seq<Seq<char>> {
        self.names@.map_values(|s: String| s@)
    }

    /// Number of declarations in the module.
    pub fn len(&self) -> (r: usize)
        ensures
            r == self.spec_names().len(),
    {
        self.names.len()
    }

    /// Whether the module declares `name`.
    pub fn declares(&self, name: &str) -> (r: bool)
        ensures
            r == seq_has(self.spec_names(), name@),
    {
        has_name(&self.names, name)
    }

    /// The name of declaration `i`.
    pub fn name(&self, i: usize) -> (r: &str)
        requires
            i < self.spec_names().len(),
        ensures
            r@ == self.spec_names()[i as int],
    {
        self.names[i].as_str()
    }
}

fn has_name(names: &Vec<String>, name: &str) -> (r: bool)
    ensures
        r == seq_has(names@.map_values(|s: String| s@), name@),
{
    let ghost view = names@.map_values(|s: String| s@);
    let mut k: usize = 0;
    while k < names.len()
        invariant
            k <= names@.len(),
            view == names@.map_values(|s: String| s@),
            forall|m: int| 0 <= m < k ==> view[m] != name@,
        decreases names@.len() - k,
    {
        if same_text(names[k].as_str(), name) {
            assert(view[k as int] == name@);
            return true;
        }
        k += 1;
    }
    false
}

/// The lowered modules by the path of their file; no path twice.
pub open spec fn is_module_map(deps: Seq<(String, Module)>) -> bool {
    forall|i: int, j: int| 0 <= i < j < deps.len() ==> deps[i].0@ != deps[j].0@
}

/// A module for `path` has been lowered.
pub open spec fn has_module(deps: Seq<(String, Module)>, path: Seq<char>) -> bool {
    exists|j: int| 0 <= j < deps.len() && deps[j].0@ == path
}

/// The import is resolved and its module has been lowered.
pub open spec fn import_lowered(deps: Seq<(String, Module)>, import: Import) -> bool {
    match import.resolved {
        Some(p) => has_module(deps, p@),
        None => false,
    }
}

/// Some import resolves to a lowered module that declares `name`.
pub open spec fn imported(imports: Seq<Import>, deps: Seq<(String, Module)>, name: Seq<char>) -> bool {
    exists|k: int, j: int|
        0 <= k < imports.len() && 0 <= j < deps.len() && (match #[trigger] imports[k].resolved {
            Some(p) => deps[j].0@ == p@,
            None => false,
        }) && seq_has(#[trigger] deps[j].1.spec_names(), name)
}

/// `name` is declared in `unit` or, when lowering against already lowered
/// modules, in the module of one of its imports.
pub open spec fn visible(
    unit: TranslationUnit,
    deps: Option<Seq<(String, Module)>>,
    name: Seq<char>,
) -> bool {
    seq_has(decl_names(unit.decls@), name) || match deps {
        Some(d) => imported(unit.imports@, d, name),
        None => false,
    }
}

/// Every name that a declaration of `unit` uses is visible.
pub open spec fn uses_bound(unit: TranslationUnit, deps: Option<Seq<(String, Module)>>) -> bool {
    forall|a: int, b: int|
        0 <= a < unit.decls@.len() && 0 <= b < unit.decls@[a].uses@.len() ==> visible(
            unit,
            deps,
            #[trigger] unit.decls@[a].uses@[b].name@,
        )
}

/// Every import of `unit` has its module, when lowering against modules.
pub open spec fn imports_ready(unit: TranslationUnit, deps: Option<Seq<(String, Module)>>) -> bool {
    match deps {
        Some(d) => forall|k: int|
            0 <= k < unit.imports@.len() ==> import_lowered(d, #[trigger] unit.imports@[k]),
        None => true,
    }
}

/// Import `k` is the first whose module has not been lowered.
pub open spec fn first_missing(unit: TranslationUnit, deps: Option<Seq<(String, Module)>>, k: int) -> bool {
    match deps {
        Some(d) => {
            &&& 0 <= k < unit.imports@.len()
            &&& !import_lowered(d, unit.imports@[k])
            &&& forall|m: int| 0 <= m < k ==> import_lowered(d, #[trigger] unit.imports@[m])
        },
        None => false,
    }
}

/// Use `b` of declaration `a` is the first use, in declaration order, of a
/// name that is not visible.
pub open spec fn first_unbound(
    unit: TranslationUnit,
    deps: Option<Seq<(String, Module)>>,
    a: int,
    b: int,
) -> bool {
    &&& 0 <= a < unit.decls@.len()
    &&& 0 <= b < unit.decls@[a].uses@.len()
    &&& !visible(unit, deps, unit.decls@[a].uses@[b].name@)
    &&& forall|x: int, y: int|
        0 <= x < a && 0 <= y < unit.decls@[x].uses@.len() ==> visible(
            unit,
            deps,
            #[trigger] unit.decls@[x].uses@[y].name@,
        )
    &&& forall|y: int| 0 <= y < b ==> visible(unit, deps, #[trigger] unit.decls@[a].uses@[y].name@)
}

pub open spec fn deps_view(deps: Option<&Vec<(String, Module)>>) -> Option<Seq<(String, Module)>> {
    match deps {
        Some(d) => Some(d@),
        None => None,
    }
}

/// The first lowered module for `path`.
fn module_for(deps: &Vec<(String, Module)>, path: &str) -> (r: Option<usize>)
    ensures
        r matches Some(j) ==> j < deps@.len() && deps@[j as int].0@ == path@,
        r is None ==> !has_module(deps@, path@),
{
    let mut j: usize = 0;
    while j < deps.len()
        invariant
            j <= deps@.len(),
            forall|m: int| 0 <= m < j ==> deps@[m].0@ != path@,
        decreases deps@.len() - j,
    {
        if same_text(deps[j].0.as_str(), path) {
            return Some(j);
        }
        j += 1;
    }
    None
}

fn imported_name(imports: &Vec<Import>, deps: &Vec<(String, Module)>, name: &str) -> (r: bool)
    requires
        is_module_map(deps@),
    ensures
        r == imported(imports@, deps@, name@),
{
    let mut k: usize = 0;
    while k < imports.len()
        invariant
            is_module_map(deps@),
            k <= imports@.len(),
            forall|m: int, j: int|
                0 <= m < k && 0 <= j < deps@.len() ==> !((match #[trigger] imports@[m].resolved {
                    Some(p) => deps@[j].0@ == p@,
                    None => false,
                }) && seq_has(#[trigger] deps@[j].1.spec_names(), name@)),
        decreases imports@.len() - k,
    {
        if let Some(p) = &imports[k].resolved {
            if let Some(j) = module_for(deps, p.as_str()) {
                if deps[j].1.declares(name) {
                    return true;
                }
                assert forall|i: int|
                    0 <= i < deps@.len() && deps@[i].0@ == p@ implies !seq_has(
                    deps@[i].1.spec_names(),
                    name@,
                ) by {
                    if i != j {
                        assert(deps@[i].0@ != deps@[j as int].0@);
                    }
                }
            }
        }
        k += 1;
    }
    false
}

/// Turns an indexed translation unit into a module.
pub struct Lowerer<'a> {
    index: &'a Index,
}

impl<'a> Lowerer<'a> {
    pub closed spec fn spec_index(&self) -> &'a Index {
        self.index
    }

    pub fn new(index: &'a Index) -> (r: Lowerer<'a>)
        ensures
            r.spec_index() == index,
    {
        Lowerer { index }
    }

    /// Lower `unit`, the unit this lowerer's index was made from. With
    /// `deps`, the unit is one module among several: each of its imports
    /// must already have its module in `deps`, and names declared there are
    /// visible. Without, the unit holds every declaration it may use.
    pub fn lower(&self, unit: &TranslationUnit, deps: Option<&Vec<(String, Module)>>) -> (r:
        Result<Module, Error>)
        requires
            self.spec_index().spec_names() == decl_names(unit.decls@),
            deps matches Some(d) ==> is_module_map(d@),
        ensures
            r is Ok <==> imports_ready(*unit, deps_view(deps)) && uses_bound(*unit, deps_view(deps)),
            r matches Ok(m) ==> m.spec_names() == decl_names(unit.decls@),
            deps is None ==> (r matches Err(e) ==> e is UnknownIdent),
            r matches Err(e) ==> match e {
                Error::MissingModule { span } => exists|k: int|
                    first_missing(*unit, deps_view(deps), k) && unit.imports@[k].span == span,
                Error::UnknownIdent { span } => imports_ready(*unit, deps_view(deps)) && exists|
                    a: int,
                    b: int,
                | first_unbound(*unit, deps_view(deps), a, b) && unit.decls@[a].uses@[b].span == span,
                _ => false,
            },
    {
        if let Some(d) = deps {
            let mut k: usize = 0;
            while k < unit.imports.len()
                invariant
                    deps == Some(d),
                    k <= unit.imports@.len(),
                    forall|m: int| 0 <= m < k ==> import_lowered(d@, #[trigger] unit.imports@[m]),
                decreases unit.imports@.len() - k,
            {
                let import = &unit.imports[k];
                let found = match &import.resolved {
                    Some(p) => module_for(d, p.as_str()).is_some(),
                    None => false,
                };
                if !found {
                    assert(first_missing(*unit, deps_view(deps), k as int));
                    return Err(Error::MissingModule { span: import.span });
                }
                k += 1;
            }
        }
        let names = self.index.names();
        let mut a: usize = 0;
        while a < unit.decls.len()
            invariant
                deps matches Some(d) ==> is_module_map(d@),
                names@.map_values(|s: String| s@) == decl_names(unit.decls@),
                imports_ready(*unit, deps_view(deps)),
                a <= unit.decls@.len(),
                forall|x: int, y: int|
                    0 <= x < a && 0 <= y < unit.decls@[x].uses@.len() ==> visible(
                        *unit,
                        deps_view(deps),
                        #[trigger] unit.decls@[x].uses@[y].name@,
                    ),
            decreases unit.decls@.len() - a,
        {
            let uses = &unit.decls[a].uses;
            let mut b: usize = 0;
            while b < uses.len()
                invariant
                    deps matches Some(d) ==> is_module_map(d@),
                    names@.map_values(|s: String| s@) == decl_names(unit.decls@),
                    a < unit.decls@.len(),
                    imports_ready(*unit, deps_view(deps)),
                    uses@ == unit.decls@[a as int].uses@,
                    b <= uses@.len(),
                    forall|x: int, y: int|
                        0 <= x < a && 0 <= y < unit.decls@[x].uses@.len() ==> visible(
                            *unit,
                            deps_view(deps),
                            #[trigger] unit.decls@[x].uses@[y].name@,
                        ),
                    forall|y: int|
                        0 <= y < b ==> visible(
                            *unit,
                            deps_view(deps),
                            #[trigger] unit.decls@[a as int].uses@[y].name@,
                        ),
                decreases uses@.len() - b,
            {
                let used = &uses[b];
                let name = used.name.as_str();
                let found = has_name(names, name) || match deps {
                    Some(d) => imported_name(&unit.imports, d, name),
                    None => false,
                };
                if !found {
                    assert(first_unbound(*unit, deps_view(deps), a as int, b as int));
                    return Err(Error::UnknownIdent { span: used.span });
                }
                b += 1;
            }
            a += 1;
        }
        let mut out: Vec<String> = Vec::new();
        let mut i: usize = 0;
        while i < names.len()
            invariant
                i <= names@.len(),
                out@.len() == i,
                forall|m: int| 0 <= m < i ==> #[trigger] out@[m]@ == names@[m]@,
            decreases names@.len() - i,
        {
            out.push(names[i].clone());
            i += 1;
        }
        let module = Module { names: out };
        assert(module.spec_names() =~= names@.map_values(|s: String| s@));
        Ok(module)
    }
}

} // verus!
