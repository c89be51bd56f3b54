use vstd::prelude::*;

use crate::ast::{decl_in, ident_in, import_in, TranslationUnit};
use crate::error::{locates, Error, ParseError};
use crate::index::{decl_names, names_distinct, Index};
use crate::lower::{imports_ready, uses_bound, Lowerer, Module};
use crate::parse::Parser;
use crate::registry::SourceRegistry;
use crate::resolve::{fails_at, graph_good, is_resolution, reachable, resolve_units, unit_file};
use crate::source::{bytes_of, is_line_of, line_starts_of, File};
use crate::span::FileId;

verus! {

/// The declarations of `units`, unit after unit.
pub open spec fn all_decls(units: Seq<(String, TranslationUnit)>) -> Seq<crate::ast::Decl>
    decreases units.len(),
{
    if units.len() == 0 {
        seq![]
    } else {
        all_decls(units.drop_last()) + units.last().1.decls@
    }
}

/// The import directives of `units`, unit after unit.
pub open spec fn all_imports(units: Seq<(String, TranslationUnit)>) -> Seq<crate::ast::Import>
    decreases units.len(),
{
    if units.len() == 0 {
        seq![]
    } else {
        all_imports(units.drop_last()) + units.last().1.imports@
    }
}

/// `unit` folds the per-file `units` together, in their order.
pub open spec fn merged_of(units: Seq<(String, TranslationUnit)>, unit: TranslationUnit) -> bool {
    &&& unit.decls@ == all_decls(units)
    &&& unit.imports@ == all_imports(units)
    &&& unit.files@ == units.map_values(|u: (String, TranslationUnit)| unit_file(u))
}

/// `unit` is the single unit that resolving the imports of `entry` folds
/// together.
pub open spec fn is_merged_resolution(reg: Seq<File>, entry: FileId, unit: TranslationUnit) -> bool {
    exists|units: Seq<(String, TranslationUnit)>| is_resolution(reg, entry, units) && merged_of(units, unit)
}

/// `unit` indexes and lowers on its own, giving a module of its declarations.
pub open spec fn lowers_to(unit: TranslationUnit, module: Module) -> bool {
    &&& names_distinct(unit.decls@)
    &&& uses_bound(unit, None)
    &&& module.spec_names() == decl_names(unit.decls@)
}

/// `module` is what resolving the imports of `entry`, folding the files
/// into one unit and lowering that unit gives.
pub open spec fn compiles_to(reg: Seq<File>, entry: FileId, module: Module) -> bool {
    exists|unit: TranslationUnit| #[trigger] is_merged_resolution(reg, entry, unit) && lowers_to(unit, module)
}

/// Fold per-file units into one unit, keeping their order.
pub fn merge_units(units: Vec<(String, TranslationUnit)>) -> (r: TranslationUnit)
    requires
        forall|i: int| 0 <= i < units@.len() ==> #[trigger] units@[i].1.files@.len() >= 1,
    ensures
        merged_of(units@, r),
{
    let ghost all = units@;
    let mut rest = units;
    let mut merged = TranslationUnit::new();
    proof {
        let none = all.subrange(0, 0);
        assert(none.len() == 0);
        assert(merged.files@ =~= none.map_values(|u: (String, TranslationUnit)| unit_file(u)));
        assert(merged.decls@ =~= all_decls(none));
        assert(merged.imports@ =~= all_imports(none));
        assert(all.subrange(0, all.len() as int) =~= all);
    }
    while rest.len() > 0
        invariant
            forall|i: int| 0 <= i < all.len() ==> #[trigger] all[i].1.files@.len() >= 1,
            rest@.len() <= all.len(),
            rest@ == all.subrange(all.len() - rest@.len(), all.len() as int),
            merged_of(all.subrange(0, all.len() - rest@.len()), merged),
        decreases rest@.len(),
    {
        let ghost done = all.subrange(0, all.len() - rest@.len());
        let (_, mut unit) = rest.remove(0);
        let ghost next = all.subrange(0, all.len() - rest@.len());
        assert(next.drop_last() =~= done);
        assert(next.last() == (all[all.len() - rest@.len() - 1]));
        merged.decls.append(&mut unit.decls);
        merged.imports.append(&mut unit.imports);
        merged.files.push(unit.files[0]);
        assert(merged.files@ =~= next.map_values(|u: (String, TranslationUnit)| unit_file(u)));
        assert(rest@ =~= all.subrange(all.len() - rest@.len(), all.len() as int));
    }
    assert(all.subrange(0, all.len() as int) =~= all);
    merged
}

/// Resolve the imports of `entry` and fold every file reached into one
/// translation unit, each file once, in the order the files were reached.
pub fn parse_translation_unit(registry: &SourceRegistry, entry: FileId) -> (r: Result<
    TranslationUnit,
    Error,
>)
    requires
        registry.wf(),
        (entry as int) < registry@.len(),
    ensures
        r is Ok <==> graph_good(registry@, entry),
        r matches Ok(unit) ==> is_merged_resolution(registry@, entry, unit),
        r matches Err(e) ==> exists|f: int|
            #[trigger] reachable(registry@, entry, f) && fails_at(registry@, f, e),
        r matches Err(e) ==> match e.spec_span().file_id {
            Some(f) => (f as int) < registry@.len(),
            None => false,
        },
{
    let units = match resolve_units(registry, entry) {
        Ok(units) => units,
        Err(e) => return Err(e),
    };
    let ghost all = units@;
    let unit = merge_units(units);
    assert(is_resolution(registry@, entry, all) && merged_of(all, unit));
    Ok(unit)
}

/// The span of `e` lies on a declaration, a use or an import of `unit`.
pub open spec fn error_in_unit(unit: TranslationUnit, e: Error) -> bool {
    match e {
        Error::Redefinition { current, .. } => exists|j: int|
            0 <= j < unit.decls@.len() && #[trigger] unit.decls@[j].name.span == current,
        Error::UnknownIdent { span } => exists|a: int, b: int|
            0 <= a < unit.decls@.len() && 0 <= b < unit.decls@[a].uses@.len()
                && #[trigger] unit.decls@[a].uses@[b].span == span,
        Error::MissingModule { span } => exists|k: int|
            0 <= k < unit.imports@.len() && #[trigger] unit.imports@[k].span == span,
        _ => false,
    }
}

/// Index and lower one translation unit that holds everything it uses.
pub fn lower(unit: &TranslationUnit) -> (r: Result<Module, Error>)
    ensures
        r is Ok <==> names_distinct(unit.decls@) && uses_bound(*unit, None),
        lowered_as(*unit, r),
        r matches Err(e) ==> (e is Redefinition || e is UnknownIdent) && error_in_unit(*unit, e),
{
    let index = match Index::generate(unit) {
        Ok(index) => index,
        Err(e) => return Err(e),
    };
    Lowerer::new(&index).lower(unit, None)
}

/// `r` is what indexing and then lowering `unit` on its own gives: the
/// module of its declarations, or the index's first redefinition, or else
/// the lowerer's first use of a name that is not visible.
pub open spec fn lowered_as(unit: TranslationUnit, r: Result<Module, Error>) -> bool {
    match r {
        Ok(m) => lowers_to(unit, m),
        Err(e) => if !names_distinct(unit.decls@) {
            exists|i: int, j: int|
                #[trigger] crate::index::first_redefinition(unit.decls@, i, j) && e == (
                Error::Redefinition {
                    previous: unit.decls@[i].name.span,
                    current: unit.decls@[j].name.span,
                })
        } else {
            exists|a: int, b: int|
                #[trigger] crate::lower::first_unbound(unit, None, a, b) && e == (Error::UnknownIdent {
                    span: unit.decls@[a].uses@[b].span,
                })
        },
    }
}

/// `unit` holds exactly the declarations `ds` and import directives `is`
/// parsed from `source` as file 0, and nothing else.
pub open spec fn parsed_exactly(
    unit: TranslationUnit,
    source: Seq<char>,
    ds: Seq<crate::parse::DeclAt>,
    is: Seq<crate::parse::ImportAt>,
) -> bool {
    &&& unit.decls@.map_values(|d: crate::ast::Decl| crate::parse::decl_at(d)) == ds
    &&& unit.imports@.map_values(|m: crate::ast::Import| crate::parse::import_at(m)) == is
    &&& unit.files@.len() == 0
    &&& parsed_from(unit, source)
    &&& forall|k: int|
        0 <= k < unit.imports@.len() ==> import_in(#[trigger] unit.imports@[k], 0, bytes_of(source))
}

/// `r` is what parsing `source` as file 0 and lowering it on its own gives.
pub open spec fn compiles_source(source: Seq<char>, r: Result<Module, Error>) -> bool {
    match crate::parse::items_from(bytes_of(source), 0, 0) {
        Err(e) => r == Err::<Module, Error>(e),
        Ok((ds, is)) => exists|unit: TranslationUnit|
            #[trigger] parsed_exactly(unit, source, ds, is) && (r is Ok <==> names_distinct(
                unit.decls@,
            ) && uses_bound(unit, None)) && lowered_as(unit, r),
    }
}

/// The diagnostic `pe` reports the error `e`.
pub open spec fn reports(pe: ParseError, e: Error) -> bool {
    pe.span == e.spec_span() && pe.message@ == crate::error::message_of(e)
}

/// `r` is `compiles_source` with its error reported as a diagnostic.
pub open spec fn compiles_source_reported(source: Seq<char>, r: Result<Module, ParseError>) -> bool {
    exists|inner: Result<Module, Error>|
        #[trigger] compiles_source(source, inner) && match (inner, r) {
            (Ok(m1), Ok(m2)) => m1 == m2,
            (Err(e), Err(pe)) => reports(pe, e),
            _ => false,
        }
}

/// `u` lowers against the modules `before`: its names are distinct, each of
/// its imports has its module there, and every name it uses is visible.
pub open spec fn lowers_against(u: (String, TranslationUnit), before: Seq<(String, Module)>) -> bool {
    &&& names_distinct(u.1.decls@)
    &&& imports_ready(u.1, Some(before))
    &&& uses_bound(u.1, Some(before))
}

/// `mods` are the modules of the last `mods.len()` units, last unit first,
/// each lowered against the modules before it.
pub open spec fn lowered_prefix(units: Seq<(String, TranslationUnit)>, mods: Seq<(String, Module)>) -> bool {
    &&& mods.len() <= units.len()
    &&& forall|k: int|
        0 <= k < mods.len() ==> {
            let u = #[trigger] units[units.len() - 1 - k];
            &&& mods[k].0@ == u.0@
            &&& mods[k].1.spec_names() == decl_names(u.1.decls@)
            &&& lowers_against(u, mods.subrange(0, k))
        }
}

/// `e` is the error of lowering `u` against `before`: the index's first
/// redefinition, else the first import without its module, else the first
/// use of a name that is not visible.
pub open spec fn unit_error(u: (String, TranslationUnit), before: Seq<(String, Module)>, e: Error) -> bool {
    if !names_distinct(u.1.decls@) {
        exists|i: int, j: int|
            #[trigger] crate::index::first_redefinition(u.1.decls@, i, j) && e == (
            Error::Redefinition {
                previous: u.1.decls@[i].name.span,
                current: u.1.decls@[j].name.span,
            })
    } else if !imports_ready(u.1, Some(before)) {
        exists|k: int|
            #[trigger] crate::lower::first_missing(u.1, Some(before), k) && e == (
            Error::MissingModule { span: u.1.imports@[k].span })
    } else {
        exists|a: int, b: int|
            #[trigger] crate::lower::first_unbound(u.1, Some(before), a, b) && e == (
            Error::UnknownIdent { span: u.1.decls@[a].uses@[b].span })
    }
}

/// Lowering `units` stopped at a unit that does not lower against the
/// modules of the units after it, and `e` is why.
pub open spec fn lowering_failed(units: Seq<(String, TranslationUnit)>, e: Error) -> bool {
    exists|mods: Seq<(String, Module)>|
        #[trigger] lowered_prefix(units, mods) && mods.len() < units.len() && !lowers_against(
            units[units.len() - 1 - mods.len()],
            mods,
        ) && unit_error(units[units.len() - 1 - mods.len()], mods, e)
}

/// Lower per-file units one by one, last unit first, each against the
/// modules lowered before it; a module joins the map, under the path of its
/// file, right after it is lowered.
pub fn lower_units(units: &Vec<(String, TranslationUnit)>) -> (r: Result<Vec<(String, Module)>, Error>)
    requires
        forall|i: int, j: int| 0 <= i < j < units@.len() ==> units@[i].0@ != units@[j].0@,
    ensures
        r matches Ok(mods) ==> mods@.len() == units@.len() && lowered_prefix(units@, mods@),
        r matches Err(e) ==> lowering_failed(units@, e),
{
    let n = units.len();
    let mut mods: Vec<(String, Module)> = Vec::new();
    let mut i = n;
    while i > 0
        invariant
            n == units@.len(),
            i <= n,
            mods@.len() == n - i,
            forall|i: int, j: int| 0 <= i < j < units@.len() ==> units@[i].0@ != units@[j].0@,
            lowered_prefix(units@, mods@),
        decreases i,
    {
        let unit = &units[i - 1];
        proof {
            assert forall|a: int, b: int| 0 <= a < b < mods@.len() implies mods@[a].0@
                != mods@[b].0@ by {
                assert(units@[n - 1 - a].0@ != units@[n - 1 - b].0@);
            }
            assert(units@[n - 1 - mods@.len()] == *unit);
        }
        let index = match Index::generate(&unit.1) {
            Ok(index) => index,
            Err(e) => {
                assert(unit_error(*unit, mods@, e));
                assert(lowering_failed(units@, e));
                return Err(e);
            },
        };
        let module = match Lowerer::new(&index).lower(&unit.1, Some(&mods)) {
            Ok(module) => module,
            Err(e) => {
                assert(unit_error(*unit, mods@, e));
                assert(lowering_failed(units@, e));
                return Err(e);
            },
        };
        let ghost before = mods@;
        mods.push((unit.0.clone(), module));
        proof {
            assert(mods@.subrange(0, before.len() as int) =~= before);
            assert forall|k: int| 0 <= k < before.len() implies mods@.subrange(0, k) == before.subrange(0, k) by {
                assert(mods@.subrange(0, k) =~= before.subrange(0, k));
            }
            assert forall|k: int| 0 <= k < mods@.len() implies ({
                let u = #[trigger] units@[units@.len() - 1 - k];
                &&& mods@[k].0@ == u.0@
                &&& mods@[k].1.spec_names() == decl_names(u.1.decls@)
                &&& lowers_against(u, mods@.subrange(0, k))
            }) by {
                if k < before.len() {
                    assert(mods@[k] == before[k]);
                }
            }
        }
        i -= 1;
    }
    Ok(mods)
}

/// Resolve the imports of `entry` into one translation unit and lower it to
/// a single module; errors are reported against the file they belong to.
pub fn parse_module(registry: &SourceRegistry, id: FileId) -> (r: Result<Module, ParseError>)
    requires
        registry.wf(),
        (id as int) < registry@.len(),
    ensures
        r matches Ok(m) ==> compiles_to(registry@, id, m),
        !graph_good(registry@, id) ==> resolution_failed(registry@, id, r),
        graph_good(registry@, id) ==> exists|unit: TranslationUnit|
            #[trigger] is_merged_resolution(registry@, id, unit) && unit_compiled(unit, r),
        r matches Err(e) ==> locates(registry@, e.span, e.location),
{
    let unit = match parse_translation_unit(registry, id) {
        Ok(unit) => unit,
        Err(e) => {
            let pe = e.as_parse_error(registry);
            assert(reports(pe, e));
            let ghost r = Err::<Module, ParseError>(pe);
            assert(resolution_failed(registry@, id, r));
            return Err(pe);
        },
    };
    let lowered = lower(&unit);
    match lowered {
        Ok(module) => {
            assert(is_merged_resolution(registry@, id, unit) && lowers_to(unit, module));
            assert(compiles_to(registry@, id, module));
            assert(unit_compiled(unit, Ok::<Module, ParseError>(module)));
            Ok(module)
        },
        Err(e) => {
            let pe = e.as_parse_error(registry);
            assert(reports(pe, e));
            assert(unit_compiled(unit, Err::<Module, ParseError>(pe)));
            Err(pe)
        },
    }
}

/// Resolution from `entry` failed at a reached file, and `r` reports why.
pub open spec fn resolution_failed<T>(reg: Seq<File>, entry: FileId, r: Result<T, ParseError>) -> bool {
    match r {
        Ok(_) => false,
        Err(pe) => exists|f: int, e: Error|
            #![trigger reachable(reg, entry, f), fails_at(reg, f, e)]
            reachable(reg, entry, f) && fails_at(reg, f, e) && reports(pe, e),
    }
}

/// `r` is what lowering `unit` on its own gives, with its error reported.
pub open spec fn unit_compiled(unit: TranslationUnit, r: Result<Module, ParseError>) -> bool {
    exists|inner: Result<Module, Error>|
        #[trigger] lowered_as(unit, inner) && (inner is Ok <==> names_distinct(unit.decls@)
            && uses_bound(unit, None)) && match (inner, r) {
            (Ok(m1), Ok(m2)) => m1 == m2,
            (Err(e), Err(pe)) => reports(pe, e),
            _ => false,
        }
}

/// Resolve the imports of `entry` into one unit per file and lower them one
/// by one, dependencies before the files that import them as far as the
/// reversed walk order gives it; the result lists each file's path with its
/// module, in the order they were lowered.
pub fn parse_modules(registry: &SourceRegistry, id: FileId) -> (r: Result<
    Vec<(String, Module)>,
    ParseError,
>)
    requires
        registry.wf(),
        (id as int) < registry@.len(),
    ensures
        r matches Ok(mods) ==> exists|units: Seq<(String, TranslationUnit)>|
            #[trigger] is_resolution(registry@, id, units) && lowered_in_order(units, mods@),
        !graph_good(registry@, id) ==> resolution_failed(registry@, id, r),
        graph_good(registry@, id) ==> exists|units: Seq<(String, TranslationUnit)>|
            #[trigger] is_resolution(registry@, id, units) && units_compiled(units, r),
        r matches Err(e) ==> locates(registry@, e.span, e.location),
{
    let units = match resolve_units(registry, id) {
        Ok(units) => units,
        Err(e) => {
            let pe = e.as_parse_error(registry);
            assert(reports(pe, e));
            let ghost r = Err::<Vec<(String, Module)>, ParseError>(pe);
            assert(resolution_failed(registry@, id, r));
            return Err(pe);
        },
    };
    proof {
        let reg = registry@;
        assert forall|i: int, j: int| 0 <= i < j < units@.len() implies units@[i].0@
            != units@[j].0@ by {
            let fi = unit_file(units@[i]);
            let fj = unit_file(units@[j]);
            assert(fi != fj);
            if fi < fj {
                assert(reg[fi as int].spec_path() != reg[fj as int].spec_path());
            } else {
                assert(reg[fj as int].spec_path() != reg[fi as int].spec_path());
            }
        }
    }
    match lower_units(&units) {
        Ok(mods) => {
            assert(is_resolution(registry@, id, units@) && lowered_in_order(units@, mods@));
            assert(units_compiled(units@, Ok::<Vec<(String, Module)>, ParseError>(mods)));
            Ok(mods)
        },
        Err(e) => {
            let pe = e.as_parse_error(registry);
            assert(reports(pe, e));
            assert(units_compiled(units@, Err::<Vec<(String, Module)>, ParseError>(pe)));
            Err(pe)
        },
    }
}

/// `r` is what lowering the per-file `units` gives, with its error reported.
pub open spec fn units_compiled(
    units: Seq<(String, TranslationUnit)>,
    r: Result<Vec<(String, Module)>, ParseError>,
) -> bool {
    match r {
        Ok(mods) => mods@.len() == units.len() && lowered_prefix(units, mods@),
        Err(pe) => exists|e: Error| #[trigger] lowering_failed(units, e) && reports(pe, e),
    }
}

/// `mods` lowers `units` last unit first, each against the modules before it.
pub open spec fn lowered_in_order(
    units: Seq<(String, TranslationUnit)>,
    mods: Seq<(String, Module)>,
) -> bool {
    &&& mods.len() == units.len()
    &&& forall|k: int|
        0 <= k < mods.len() ==> {
            let u = #[trigger] units[units.len() - 1 - k];
            let before = Some(mods.subrange(0, k));
            &&& mods[k].0@ == u.0@
            &&& names_distinct(u.1.decls@)
            &&& imports_ready(u.1, before)
            &&& uses_bound(u.1, before)
            &&& mods[k].1.spec_names() == decl_names(u.1.decls@)
        }
}

/// Every declaration of `unit` was parsed from `source`, as file 0.
pub open spec fn parsed_from(unit: TranslationUnit, source: Seq<char>) -> bool {
    forall|d: int|
        0 <= d < unit.decls@.len() ==> decl_in(#[trigger] unit.decls@[d], 0, bytes_of(source))
}

/// The front end for one source text at a time.
pub struct Frontend {
    parser: Parser,
}

impl Frontend {
    /// The front end as it starts: the parser carries no state, and each
    /// compilation starts from an empty translation unit of its own.
    pub closed spec fn initial() -> Frontend {
        Frontend { parser: Parser {} }
    }

    pub fn new() -> (r: Frontend)
        ensures
            r == Frontend::initial(),
    {
        Frontend { parser: Parser::new() }
    }

    /// Parse `source` as file 0 into a fresh unit and lower it on its own.
    pub fn inner(&mut self, source: &str) -> (r: Result<Module, Error>)
        ensures
            compiles_source(source@, r),
            r matches Err(e) ==> e.spec_span().file_id == Some(0u32),
    {
        let mut unit = TranslationUnit::new();
        match self.parser.parse(&mut unit, source, 0) {
            Ok(()) => {},
            Err(e) => return Err(e),
        }
        proof {
            let m1 = |d: crate::ast::Decl| crate::parse::decl_at(d);
            let m2 = |m: crate::ast::Import| crate::parse::import_at(m);
            assert(unit.decls@.subrange(0, unit.decls@.len() as int) =~= unit.decls@);
            assert(unit.imports@.subrange(0, unit.imports@.len() as int) =~= unit.imports@);
            let (ds, is) = crate::parse::items_from(bytes_of(source@), 0, 0)->Ok_0;
            assert(parsed_exactly(unit, source@, ds, is));
        }
        match lower(&unit) {
            Ok(module) => {
                assert(parsed_from(unit, source@) && lowers_to(unit, module));
                Ok(module)
            },
            Err(e) => {
                proof {
                    match e {
                        Error::UnknownIdent { span } => {
                            let (a, b) = choose|a: int, b: int|
                                0 <= a < unit.decls@.len() && 0 <= b < unit.decls@[a].uses@.len()
                                    && #[trigger] unit.decls@[a].uses@[b].span == span;
                            assert(decl_in(unit.decls@[a], 0, bytes_of(source@)));
                            assert(ident_in(unit.decls@[a].uses@[b], 0, bytes_of(source@)));
                        },
                        Error::Redefinition { current, .. } => {
                            let j = choose|j: int|
                                0 <= j < unit.decls@.len() && #[trigger] unit.decls@[j].name.span == current;
                            assert(decl_in(unit.decls@[j], 0, bytes_of(source@)));
                        },
                        _ => {},
                    }
                }
                Err(e)
            },
        }
    }

    /// Parse and lower one source text; a diagnostic points into it under
    /// the name `<source>`.
    pub fn parse(&mut self, source: &str) -> (r: Result<Module, ParseError>)
        ensures
            compiles_source_reported(source@, r),
            r matches Err(e) ==> e.span.file_id == Some(0u32) && (e.location matches Some(l)
                && is_line_of(line_starts_of(bytes_of(source@)), e.span.start as int, l.line as int)),
    {
        let inner = self.inner(source);
        match inner {
            Ok(module) => {
                assert(compiles_source(source@, inner));
                Ok(module)
            },
            Err(e) => {
                let mut registry = SourceRegistry::new();
                let text = source.to_owned();
                let id = registry.register("<source>".to_owned(), text);
                assert(id == 0);
                assert(registry@[0].wf());
                let diagnostic = e.as_parse_error(&registry);
                assert(compiles_source(source@, inner));
                Err(diagnostic)
            },
        }
    }

    /// Parse the text of `file` into `unit`, after what `unit` holds.
    pub fn parse_into(&mut self, unit: &mut TranslationUnit, file: &File) -> (r: Result<(), Error>)
        ensures
            final(unit).decls@.subrange(0, old(unit).decls@.len() as int) == old(unit).decls@,
            final(unit).imports@.subrange(0, old(unit).imports@.len() as int)
                == old(unit).imports@,
            forall|k: int|
                old(unit).decls@.len() <= k < final(unit).decls@.len() ==> decl_in(
                    #[trigger] final(unit).decls@[k],
                    file.spec_id(),
                    file.bytes(),
                ),
            forall|k: int|
                old(unit).imports@.len() <= k < final(unit).imports@.len() ==> import_in(
                    #[trigger] final(unit).imports@[k],
                    file.spec_id(),
                    file.bytes(),
                ),
            r matches Err(e) ==> e.spec_span().file_id == Some(file.spec_id()),
            crate::parse::parsed_as(
                crate::parse::items_from(file.bytes(), 0, file.spec_id()),
                old(unit).decls@,
                old(unit).imports@,
                *final(unit),
                r,
            ),
    {
        self.parser.parse(unit, file.source(), file.id())
    }
}

/// Parse and lower one source text.
pub fn parse_str(source: &str) -> (r: Result<Module, ParseError>)
    ensures
        compiles_source_reported(source@, r),
        r matches Err(e) ==> e.span.file_id == Some(0u32) && (e.location matches Some(l)
            && is_line_of(line_starts_of(bytes_of(source@)), e.span.start as int, l.line as int)),
{
    Frontend::new().parse(source)
}

} // verus!
