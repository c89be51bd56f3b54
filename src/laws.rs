use vstd::prelude::*;

use crate::ast::span_in;
use crate::frontend::{is_merged_resolution, merged_of};
use crate::registry::{has_path, registered, slice_of, SourceRegistry};
use crate::resolve::{is_resolution, unit_file, unit_files};
use crate::source::{is_line_of, is_line_table, lemma_line_of_line_start, lemma_line_of_unique, File};
use crate::span::{FileId, Span};
use crate::ast::TranslationUnit;

verus! {

/// The line table of a file starts at 0, strictly increases and stays
/// within the text; the start of line `i` lies on line `i` and on no other.
pub proof fn law_line_starts(file: File, i: int)
    requires
        file.wf(),
        0 <= i < file.spec_line_starts().len(),
    ensures
        is_line_table(file.spec_line_starts(), file.len()),
        is_line_of(file.spec_line_starts(), file.spec_line_starts()[i], i),
        forall|line: int|
            is_line_of(file.spec_line_starts(), file.spec_line_starts()[i], line) ==> line == i,
{
    crate::source::lemma_line_starts_table(file.bytes());
    let starts = file.spec_line_starts();
    lemma_line_of_line_start(starts, file.len(), i);
    assert forall|line: int| is_line_of(starts, starts[i], line) implies line == i by {
        lemma_line_of_unique(starts, file.len(), starts[i], line, i);
    }
}

/// A span that the parser gives for file `f` (it belongs to `f` and fits its
/// text) slices exactly bytes `[start, end)` of that text.
pub proof fn law_parsed_span_slices(registry: &SourceRegistry, f: FileId, span: Span)
    requires
        registry.wf(),
        (f as int) < registry@.len(),
        span_in(span, f, registry@[f as int].bytes()),
    ensures
        slice_of(registry@, span) == Some(
            registry@[f as int].bytes().subrange(span.start as int, span.end as int),
        ),
{
}

/// Registering the same path twice gives the same identity both times, and
/// the second registration changes nothing.
pub proof fn law_register_twice(
    first: &SourceRegistry,
    second: &SourceRegistry,
    third: &SourceRegistry,
    path: Seq<char>,
    source1: Seq<char>,
    source2: Seq<char>,
    id1: FileId,
    id2: FileId,
)
    requires
        second.wf(),
        registered(first@, path, source1, second@, id1),
        registered(second@, path, source2, third@, id2),
    ensures
        id1 == id2,
        third@ == second@,
{
    assert(has_path(second@, path, id1 as int));
    assert(third@ == second@);
    if id1 < id2 {
        assert(second@[id1 as int].spec_path() != second@[id2 as int].spec_path());
    } else if id2 < id1 {
        assert(second@[id2 as int].spec_path() != second@[id1 as int].spec_path());
    }
}

/// In a resolution every import reaches exactly one unit: the walk parsed
/// each file it reached once, however many imports lead to it (a diamond or
/// a cycle included).
pub proof fn law_import_reaches_one_unit(
    registry: &SourceRegistry,
    entry: FileId,
    units: Seq<(String, TranslationUnit)>,
    i: int,
    k: int,
)
    requires
        registry.wf(),
        is_resolution(registry@, entry, units),
        0 <= i < units.len(),
        0 <= k < units[i].1.imports@.len(),
    ensures
        units[i].1.imports@[k].resolved is Some,
        exists|j: int|
            0 <= j < units.len() && has_path(
                registry@,
                units[i].1.imports@[k].resolved->Some_0@,
                unit_file(#[trigger] units[j]) as int,
            ),
        forall|a: int, b: int|
            0 <= a < units.len() && 0 <= b < units.len() && has_path(
                registry@,
                units[i].1.imports@[k].resolved->Some_0@,
                unit_file(#[trigger] units[a]) as int,
            ) && has_path(
                registry@,
                units[i].1.imports@[k].resolved->Some_0@,
                unit_file(#[trigger] units[b]) as int,
            ) ==> a == b,
{
    let reg = registry@;
    let import = units[i].1.imports@[k];
    let p = import.resolved->Some_0@;
    assert(crate::resolve::reaches(reg, unit_files(units), import));
    let t = choose|t: int| unit_files(units).contains(t) && #[trigger] has_path(reg, p, t);
    let j = choose|j: int| 0 <= j < units.len() && unit_file(#[trigger] units[j]) == t;
    assert(has_path(reg, p, unit_file(units[j]) as int));
    assert forall|a: int, b: int|
        0 <= a < units.len() && 0 <= b < units.len() && has_path(
            reg,
            p,
            unit_file(#[trigger] units[a]) as int,
        ) && has_path(reg, p, unit_file(#[trigger] units[b]) as int) implies a == b by {
        let fa = unit_file(units[a]) as int;
        let fb = unit_file(units[b]) as int;
        if fa < fb {
            assert(reg[fa].spec_path() != reg[fb].spec_path());
        } else if fb < fa {
            assert(reg[fb].spec_path() != reg[fa].spec_path());
        }
        if a < b {
            assert(unit_file(units[a]) != unit_file(units[b]));
        } else if b < a {
            assert(unit_file(units[b]) != unit_file(units[a]));
        }
    }
}

/// The unit that folds a resolution together holds each file once, the
/// entry first, so no file's declarations are folded in twice.
pub proof fn law_merged_files_once(registry: &SourceRegistry, entry: FileId, unit: TranslationUnit)
    requires
        is_merged_resolution(registry@, entry, unit),
    ensures
        unit.files@.len() >= 1,
        unit.files@[0] == entry,
        forall|a: int, b: int| 0 <= a < b < unit.files@.len() ==> unit.files@[a] != unit.files@[b],
{
    let units = choose|units: Seq<(String, TranslationUnit)>|
        is_resolution(registry@, entry, units) && merged_of(units, unit);
    assert forall|a: int, b: int| 0 <= a < b < unit.files@.len() implies unit.files@[a]
        != unit.files@[b] by {
        assert(unit.files@[a] == unit_file(units[a]));
        assert(unit.files@[b] == unit_file(units[b]));
    }
}

} // verus!

verus! {

/// Two units parsed from the same text as the same items hold the same
/// names at the same places.
proof fn lemma_same_parse(
    u1: TranslationUnit,
    u2: TranslationUnit,
    source: Seq<char>,
    ds: Seq<crate::parse::DeclAt>,
    is: Seq<crate::parse::ImportAt>,
)
    requires
        crate::frontend::parsed_exactly(u1, source, ds, is),
        crate::frontend::parsed_exactly(u2, source, ds, is),
    ensures
        u1.decls@.len() == u2.decls@.len(),
        forall|d: int|
            0 <= d < u1.decls@.len() ==> {
                &&& #[trigger] u1.decls@[d].name.name@ == u2.decls@[d].name.name@
                &&& u1.decls@[d].name.span == u2.decls@[d].name.span
                &&& u1.decls@[d].uses@.len() == u2.decls@[d].uses@.len()
                &&& forall|b: int|
                    0 <= b < u1.decls@[d].uses@.len() ==> #[trigger] u1.decls@[d].uses@[b].name@
                        == u2.decls@[d].uses@[b].name@ && u1.decls@[d].uses@[b].span
                        == u2.decls@[d].uses@[b].span
            },
{
    let bytes = crate::source::bytes_of(source);
    assert(u1.decls@.len() == ds.len() && u2.decls@.len() == ds.len());
    assert forall|d: int| 0 <= d < u1.decls@.len() implies {
        &&& #[trigger] u1.decls@[d].name.name@ == u2.decls@[d].name.name@
        &&& u1.decls@[d].name.span == u2.decls@[d].name.span
        &&& u1.decls@[d].uses@.len() == u2.decls@[d].uses@.len()
        &&& forall|b: int|
            0 <= b < u1.decls@[d].uses@.len() ==> #[trigger] u1.decls@[d].uses@[b].name@
                == u2.decls@[d].uses@[b].name@ && u1.decls@[d].uses@[b].span
                == u2.decls@[d].uses@[b].span
    } by {
        let d1 = u1.decls@[d];
        let d2 = u2.decls@[d];
        assert(crate::parse::decl_at(d1) == ds[d]);
        assert(crate::parse::decl_at(d2) == ds[d]);
        assert(crate::ast::decl_in(d1, 0, bytes) && crate::ast::decl_in(d2, 0, bytes));
        crate::resolve::lemma_name_text(d1.name.name@, bytes, d1.name.span.start as int, d1.name.span.end as int);
        crate::resolve::lemma_name_text(d2.name.name@, bytes, d2.name.span.start as int, d2.name.span.end as int);
        let m = |u: crate::ast::Ident| (u.span.start as int, u.span.end as int);
        assert(d1.uses@.map_values(m) == d2.uses@.map_values(m));
        assert(d1.uses@.len() == d2.uses@.len());
        assert forall|b: int| 0 <= b < d1.uses@.len() implies #[trigger] d1.uses@[b].name@
            == d2.uses@[b].name@ && d1.uses@[b].span == d2.uses@[b].span by {
            assert(d1.uses@.map_values(m)[b] == d2.uses@.map_values(m)[b]);
            assert(crate::ast::ident_in(d1.uses@[b], 0, bytes));
            assert(crate::ast::ident_in(d2.uses@[b], 0, bytes));
            crate::resolve::lemma_name_text(d1.uses@[b].name@, bytes, d1.uses@[b].span.start as int, d1.uses@[b].span.end as int);
            crate::resolve::lemma_name_text(d2.uses@[b].name@, bytes, d2.uses@[b].span.start as int, d2.uses@[b].span.end as int);
        }
    }
}

/// Compiling a source text has one outcome: two results that both meet the
/// contract of `Frontend::inner` on the same text agree on success, on the
/// module's declarations, and on the error.
pub proof fn law_source_compiles_one_way(
    source: Seq<char>,
    r1: Result<crate::lower::Module, crate::error::Error>,
    r2: Result<crate::lower::Module, crate::error::Error>,
)
    requires
        crate::frontend::compiles_source(source, r1),
        crate::frontend::compiles_source(source, r2),
    ensures
        r1 is Ok <==> r2 is Ok,
        r1 matches Ok(m1) ==> r2 matches Ok(m2) && m1.spec_names() == m2.spec_names(),
        r1 matches Err(e1) ==> r2 == Err::<crate::lower::Module, crate::error::Error>(e1),
{
    let bytes = crate::source::bytes_of(source);
    match crate::parse::items_from(bytes, 0, 0) {
        Err(e) => {},
        Ok((ds, is)) => {
            let u1 = choose|u: TranslationUnit| #[trigger] crate::frontend::parsed_exactly(u, source, ds, is)
                && (r1 is Ok <==> crate::index::names_distinct(u.decls@) && crate::lower::uses_bound(u, None))
                && crate::frontend::lowered_as(u, r1);
            let u2 = choose|u: TranslationUnit| #[trigger] crate::frontend::parsed_exactly(u, source, ds, is)
                && (r2 is Ok <==> crate::index::names_distinct(u.decls@) && crate::lower::uses_bound(u, None))
                && crate::frontend::lowered_as(u, r2);
            lemma_same_parse(u1, u2, source, ds, is);
            assert(crate::index::decl_names(u1.decls@) =~= crate::index::decl_names(u2.decls@));
            let n = u1.decls@.len();
            assert forall|x: Seq<char>| crate::lower::visible(u1, None, x) == crate::lower::visible(
                u2,
                None,
                x,
            ) by {}
            if crate::index::names_distinct(u1.decls@) {
                assert forall|i: int, j: int| 0 <= i < j < n implies u2.decls@[i].name.name@
                    != u2.decls@[j].name.name@ by {
                    assert(u1.decls@[i].name.name@ == u2.decls@[i].name.name@);
                    assert(u1.decls@[j].name.name@ == u2.decls@[j].name.name@);
                }
            }
            if crate::index::names_distinct(u2.decls@) {
                assert forall|i: int, j: int| 0 <= i < j < n implies u1.decls@[i].name.name@
                    != u1.decls@[j].name.name@ by {
                    assert(u1.decls@[i].name.name@ == u2.decls@[i].name.name@);
                    assert(u1.decls@[j].name.name@ == u2.decls@[j].name.name@);
                }
            }
            if crate::lower::uses_bound(u1, None) {
                assert forall|a: int, b: int|
                    0 <= a < n && 0 <= b < u2.decls@[a].uses@.len() implies crate::lower::visible(
                    u2,
                    None,
                    #[trigger] u2.decls@[a].uses@[b].name@,
                ) by {
                    assert(u1.decls@[a].uses@[b].name@ == u2.decls@[a].uses@[b].name@);
                    assert(crate::lower::visible(u1, None, u1.decls@[a].uses@[b].name@));
                }
            }
            if crate::lower::uses_bound(u2, None) {
                assert forall|a: int, b: int|
                    0 <= a < n && 0 <= b < u1.decls@[a].uses@.len() implies crate::lower::visible(
                    u1,
                    None,
                    #[trigger] u1.decls@[a].uses@[b].name@,
                ) by {
                    assert(u1.decls@[a].uses@[b].name@ == u2.decls@[a].uses@[b].name@);
                    assert(crate::lower::visible(u2, None, u2.decls@[a].uses@[b].name@));
                }
            }
            if let Err(e1) = r1 {
                let e2 = r2->Err_0;
                if !crate::index::names_distinct(u1.decls@) {
                    let (i1, j1) = choose|i: int, j: int|
                        #[trigger] crate::index::first_redefinition(u1.decls@, i, j) && e1 == (
                        crate::error::Error::Redefinition {
                            previous: u1.decls@[i].name.span,
                            current: u1.decls@[j].name.span,
                        });
                    let (i2, j2) = choose|i: int, j: int|
                        #[trigger] crate::index::first_redefinition(u2.decls@, i, j) && e2 == (
                        crate::error::Error::Redefinition {
                            previous: u2.decls@[i].name.span,
                            current: u2.decls@[j].name.span,
                        });
                    if j1 < j2 {
                        assert(u2.decls@[i1].name.name@ == u2.decls@[j1].name.name@);
                    } else if j2 < j1 {
                        assert(u1.decls@[i2].name.name@ == u1.decls@[j2].name.name@);
                    }
                    if i1 < i2 {
                        assert(u2.decls@[i1].name.name@ == u2.decls@[j2].name.name@);
                    } else if i2 < i1 {
                        assert(u1.decls@[i2].name.name@ == u1.decls@[j1].name.name@);
                    }
                } else {
                    let (a1, b1) = choose|a: int, b: int|
                        #[trigger] crate::lower::first_unbound(u1, None, a, b) && e1 == (
                        crate::error::Error::UnknownIdent { span: u1.decls@[a].uses@[b].span });
                    let (a2, b2) = choose|a: int, b: int|
                        #[trigger] crate::lower::first_unbound(u2, None, a, b) && e2 == (
                        crate::error::Error::UnknownIdent { span: u2.decls@[a].uses@[b].span });
                    assert(!crate::lower::visible(u2, None, u2.decls@[a2].uses@[b2].name@));
                    assert(crate::lower::visible(u1, None, u1.decls@[a2].uses@[b2].name@)
                        == crate::lower::visible(u2, None, u2.decls@[a2].uses@[b2].name@));
                    assert(crate::lower::visible(u1, None, u1.decls@[a1].uses@[b1].name@)
                        == crate::lower::visible(u2, None, u2.decls@[a1].uses@[b1].name@));
                    if a1 < a2 || (a1 == a2 && b1 < b2) {
                        assert(false);
                    } else if a2 < a1 || (a1 == a2 && b2 < b1) {
                        assert(false);
                    }
                }
            }
        },
    }
}

} // verus!
