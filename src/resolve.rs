use vstd::prelude::*;

use crate::ast::{decl_in, ident_in, span_in, Ident, Import, TranslationUnit};
use crate::error::Error;
use crate::parse::Parser;
use crate::path::{join_path, parent_path, resolve_of};
use crate::registry::{has_path, SourceRegistry};
use crate::parse::{decl_at, import_at, items_from, DeclAt, ImportAt};
use crate::source::{bytes_of, File};
use crate::span::{FileId, Span};

verus! {

/// The file a per-file unit was parsed from.
pub open spec fn unit_file(u: (String, TranslationUnit)) -> FileId {
    u.1.files@[0]
}

/// An import directive of file `f`, resolved against the directory of `f`.
pub open spec fn import_resolved(reg: Seq<File>, f: FileId, import: Import) -> bool {
    &&& span_in(import.span, f, reg[f as int].bytes())
    &&& ident_in(import.path, f, reg[f as int].bytes())
    &&& match import.resolved {
        Some(p) => resolve_of(reg[f as int].spec_path(), import.path.name@) == Some(p@),
        None => false,
    }
}

/// The resolved path of `import` is registered as one of the files `files`.
pub open spec fn reaches(reg: Seq<File>, files: Set<int>, import: Import) -> bool {
    match import.resolved {
        Some(p) => exists|t: int| files.contains(t) && #[trigger] has_path(reg, p@, t),
        None => false,
    }
}

/// Each unit holds what was parsed from one registered file, under that
/// file's path, with every import resolved.
pub open spec fn units_ok(reg: Seq<File>, units: Seq<(String, TranslationUnit)>) -> bool {
    forall|i: int|
        0 <= i < units.len() ==> {
            let u = #[trigger] units[i];
            let f = unit_file(u);
            &&& u.1.files@.len() == 1
            &&& f < reg.len()
            &&& u.0@ == reg[f as int].spec_path()
            &&& file_items(reg, f as int) == Ok::<(Seq<DeclAt>, Seq<ImportAt>), Error>(
                (
                    u.1.decls@.map_values(|d: crate::ast::Decl| decl_at(d)),
                    u.1.imports@.map_values(|m: Import| import_at(m)),
                ),
            )
            &&& forall|d: int|
                0 <= d < u.1.decls@.len() ==> decl_in(#[trigger] u.1.decls@[d], f, reg[f as int].bytes())
            &&& forall|k: int|
                0 <= k < u.1.imports@.len() ==> import_resolved(reg, f, #[trigger] u.1.imports@[k])
        }
}

/// The files of `units`.
pub open spec fn unit_files(units: Seq<(String, TranslationUnit)>) -> Set<int> {
    Set::new(|t: int| exists|j: int| 0 <= j < units.len() && unit_file(#[trigger] units[j]) == t)
}

/// Every import of every unit reaches a file in `files`.
pub open spec fn units_reach(reg: Seq<File>, files: Set<int>, units: Seq<(String, TranslationUnit)>) -> bool {
    forall|i: int, k: int|
        0 <= i < units.len() && 0 <= k < units[i].1.imports@.len() ==> reaches(
            reg,
            files,
            #[trigger] units[i].1.imports@[k],
        )
}

/// No file has two units.
pub open spec fn files_distinct(units: Seq<(String, TranslationUnit)>) -> bool {
    forall|i: int, j: int| 0 <= i < j < units.len() ==> unit_file(units[i]) != unit_file(units[j])
}

/// The outcome of resolving the import graph from `entry`: one unit per
/// file reached, the entry first, no file twice, and every import resolved
/// to a file that has its unit.
pub open spec fn is_resolution(
    reg: Seq<File>,
    entry: FileId,
    units: Seq<(String, TranslationUnit)>,
) -> bool {
    &&& units.len() >= 1
    &&& unit_file(units[0]) == entry
    &&& units_ok(reg, units)
    &&& files_distinct(units)
    &&& units_reach(reg, unit_files(units), units)
    &&& forall|f: int| #[trigger] reachable(reg, entry, f) <==> unit_files(units).contains(f)
    &&& discovered_in_order(reg, units)
    &&& unit_file_seq(units) == dfs_order(reg, entry)
}

/// Each unit after the first belongs to a file that an earlier unit's file
/// imports: a file is taken only after a file importing it was parsed.
pub open spec fn discovered_in_order(reg: Seq<File>, units: Seq<(String, TranslationUnit)>) -> bool {
    forall|j: int| 0 < j < units.len() ==> #[trigger] imported_before(reg, units, j, unit_file(units[j]) as int)
}

/// One of the first `j` units' files imports file `t`.
pub open spec fn imported_before(reg: Seq<File>, units: Seq<(String, TranslationUnit)>, j: int, t: int) -> bool {
    exists|i: int| 0 <= i < j && #[trigger] imports_file(reg, unit_file(units[i]) as int, t)
}

/// Every file waiting on the stack is imported by a file already parsed.
spec fn stack_discovered(reg: Seq<File>, stack: Seq<(FileId, Span)>, units: Seq<(String, TranslationUnit)>) -> bool {
    units.len() > 0 ==> forall|a: int|
        0 <= a < stack.len() ==> #[trigger] imported_before(reg, units, units.len() as int, stack[a].0 as int)
}

/// What parsing the text of file `f` gives.
pub open spec fn file_items(reg: Seq<File>, f: int) -> Result<(Seq<DeclAt>, Seq<ImportAt>), Error> {
    items_from(reg[f].bytes(), 0, f as FileId)
}

/// The path an import directive of file `f` spells, between its quotes.
pub open spec fn import_text(reg: Seq<File>, f: int, at: ImportAt) -> Seq<char> {
    vstd::utf8::decode_utf8(reg[f].bytes().subrange(at.path.0, at.path.1))
}

/// The import directive `at` of file `f` resolves to registered file `t`.
pub open spec fn import_target(reg: Seq<File>, f: int, at: ImportAt, t: int) -> bool {
    match resolve_of(reg[f].spec_path(), import_text(reg, f, at)) {
        Some(p) => has_path(reg, p, t),
        None => false,
    }
}

/// File `f` parses and one of its import directives resolves to file `t`.
pub open spec fn imports_file(reg: Seq<File>, f: int, t: int) -> bool {
    &&& 0 <= f < reg.len()
    &&& match file_items(reg, f) {
        Ok((ds, is)) => exists|k: int| 0 <= k < is.len() && #[trigger] import_target(reg, f, is[k], t),
        Err(_) => false,
    }
}

/// `path` leads from `entry` along imports.
pub open spec fn import_path(reg: Seq<File>, entry: FileId, path: Seq<int>) -> bool {
    &&& path.len() >= 1
    &&& path[0] == entry
    &&& forall|i: int| 0 <= i < path.len() - 1 ==> #[trigger] imports_file(reg, path[i], path[i + 1])
}

/// File `f` is reached from `entry` by following imports.
pub open spec fn reachable(reg: Seq<File>, entry: FileId, f: int) -> bool {
    exists|path: Seq<int>| #[trigger] import_path(reg, entry, path) && path.last() == f
}

/// File `f` parses and each of its import directives resolves to a
/// registered file.
pub open spec fn file_good(reg: Seq<File>, f: int) -> bool {
    match file_items(reg, f) {
        Ok((ds, is)) => forall|k: int| 0 <= k < is.len() ==> import_resolves(reg, f, #[trigger] is[k]),
        Err(_) => false,
    }
}

/// The import directive `at` of file `f` resolves to some registered file.
pub open spec fn import_resolves(reg: Seq<File>, f: int, at: ImportAt) -> bool {
    exists|t: int| #[trigger] import_target(reg, f, at, t)
}

/// Every file reached from `entry` parses and has all its imports resolve.
pub open spec fn graph_good(reg: Seq<File>, entry: FileId) -> bool {
    forall|f: int| #[trigger] reachable(reg, entry, f) ==> file_good(reg, f)
}

/// Resolution stopped at file `f` with `e`: its text does not parse, or
/// one of its import directives, at `e`'s span, resolves to no file.
pub open spec fn fails_at(reg: Seq<File>, f: int, e: Error) -> bool {
    match e {
        Error::Unexpected { .. } => file_items(reg, f) == Err::<(Seq<DeclAt>, Seq<ImportAt>), Error>(e),
        Error::BadPath { span } => {
            &&& span.file_id == Some(f as FileId)
            &&& match file_items(reg, f) {
                Ok((ds, is)) => exists|k: int|
                    0 <= k < is.len() && is[k].span == (span.start as int, span.end as int) && forall|
                        t: int,
                    | !#[trigger] import_target(reg, f, is[k], t),
                Err(_) => false,
            }
        },
        _ => false,
    }
}

pub proof fn lemma_reach_extend(reg: Seq<File>, entry: FileId, f: int, t: int)
    requires
        reachable(reg, entry, f),
        imports_file(reg, f, t),
    ensures
        reachable(reg, entry, t),
{
    let path = choose|path: Seq<int>| #[trigger] import_path(reg, entry, path) && path.last() == f;
    let longer = path.push(t);
    assert forall|i: int| 0 <= i < longer.len() - 1 implies #[trigger] imports_file(
        reg,
        longer[i],
        longer[i + 1],
    ) by {
        if i < path.len() - 1 {
            assert(longer[i] == path[i] && longer[i + 1] == path[i + 1]);
        }
    }
    assert(import_path(reg, entry, longer));
}

pub proof fn lemma_entry_reachable(reg: Seq<File>, entry: FileId)
    ensures
        reachable(reg, entry, entry as int),
{
    assert(import_path(reg, entry, seq![entry as int]));
}

/// The text named by a parsed identifier is what its bytes decode to.
pub proof fn lemma_name_text(name: Seq<char>, b: Seq<u8>, s: int, e: int)
    requires
        bytes_of(name) == b.subrange(s, e),
    ensures
        vstd::utf8::decode_utf8(b.subrange(s, e)) == name,
{
    vstd::utf8::encode_utf8_decode_utf8(name);
}

/// The facts a finished walk leaves about its units.
pub open spec fn walk_closed(reg: Seq<File>, entry: FileId, units: Seq<(String, TranslationUnit)>) -> bool {
    &&& units_ok(reg, units)
    &&& units_reach(reg, unit_files(units), units)
    &&& unit_files(units).contains(entry as int)
    &&& forall|j: int| 0 <= j < units.len() ==> reachable(reg, entry, unit_file(#[trigger] units[j]) as int)
}

proof fn lemma_import_of_unit(
    registry: &SourceRegistry,
    units: Seq<(String, TranslationUnit)>,
    j: int,
    k: int,
)
    requires
        registry.wf(),
        units_ok(registry@, units),
        units_reach(registry@, unit_files(units), units),
        0 <= j < units.len(),
        0 <= k < units[j].1.imports@.len(),
    ensures
        ({
            let reg = registry@;
            let f = unit_file(units[j]) as int;
            let at = import_at(units[j].1.imports@[k]);
            &&& import_resolves(reg, f, at)
            &&& forall|t: int| #[trigger] import_target(reg, f, at, t) ==> unit_files(units).contains(t)
        }),
{
    let reg = registry@;
    let u = units[j];
    let f = unit_file(u) as int;
    let imp = u.1.imports@[k];
    let at = import_at(imp);
    assert(import_resolved(reg, f as FileId, imp));
    lemma_name_text(imp.path.name@, reg[f].bytes(), imp.path.span.start as int, imp.path.span.end as int);
    assert(import_text(reg, f, at) == imp.path.name@);
    assert(reaches(reg, unit_files(units), imp));
    let p = imp.resolved->Some_0;
    let w = choose|w: int| unit_files(units).contains(w) && #[trigger] has_path(reg, p@, w);
    assert(import_target(reg, f, at, w));
    assert forall|t: int| #[trigger] import_target(reg, f, at, t) implies unit_files(units).contains(t) by {
        assert(has_path(reg, p@, t));
        if t < w {
            assert(reg[t].spec_path() != reg[w].spec_path());
        } else if w < t {
            assert(reg[w].spec_path() != reg[t].spec_path());
        }
    }
}

proof fn lemma_path_in_units(
    registry: &SourceRegistry,
    entry: FileId,
    units: Seq<(String, TranslationUnit)>,
    path: Seq<int>,
    i: int,
)
    requires
        registry.wf(),
        walk_closed(registry@, entry, units),
        import_path(registry@, entry, path),
        0 <= i < path.len(),
    ensures
        unit_files(units).contains(path[i]),
    decreases i,
{
    let reg = registry@;
    if i > 0 {
        lemma_path_in_units(registry, entry, units, path, i - 1);
        let f = path[i - 1];
        let t = path[i];
        assert(imports_file(reg, path[i - 1], path[i - 1 + 1]));
        let j = choose|j: int| 0 <= j < units.len() && unit_file(#[trigger] units[j]) == f;
        let u = units[j];
        let is = file_items(reg, f)->Ok_0.1;
        let k = choose|k: int| 0 <= k < is.len() && #[trigger] import_target(reg, f, is[k], t);
        assert(is == u.1.imports@.map_values(|m: Import| import_at(m)));
        lemma_import_of_unit(registry, units, j, k);
    }
}

/// A finished walk holds exactly the files reached from the entry, and each
/// of them parses and has all its imports resolve.
proof fn lemma_walk_closed(registry: &SourceRegistry, entry: FileId, units: Seq<(String, TranslationUnit)>)
    requires
        registry.wf(),
        walk_closed(registry@, entry, units),
    ensures
        forall|f: int| #[trigger] reachable(registry@, entry, f) <==> unit_files(units).contains(f),
        graph_good(registry@, entry),
{
    let reg = registry@;
    assert forall|f: int| #[trigger] reachable(reg, entry, f) implies unit_files(units).contains(f) by {
        let path = choose|path: Seq<int>| #[trigger] import_path(reg, entry, path) && path.last() == f;
        lemma_path_in_units(registry, entry, units, path, path.len() - 1);
    }
    assert forall|f: int| unit_files(units).contains(f) implies #[trigger] reachable(reg, entry, f) by {
        let j = choose|j: int| 0 <= j < units.len() && unit_file(#[trigger] units[j]) == f;
    }
    assert forall|f: int| #[trigger] reachable(reg, entry, f) implies file_good(reg, f) by {
        let j = choose|j: int| 0 <= j < units.len() && unit_file(#[trigger] units[j]) == f;
        let u = units[j];
        let is = u.1.imports@.map_values(|m: Import| import_at(m));
        assert forall|k: int| 0 <= k < is.len() implies import_resolves(reg, f, #[trigger] is[k]) by {
            lemma_import_of_unit(registry, units, j, k);
        }
    }
}

/// The file an import directive of file `f` resolves to.
pub open spec fn target_of(reg: Seq<File>, f: int, at: ImportAt) -> int {
    choose|t: int| import_target(reg, f, at, t)
}

/// The stack and the set of files seen after the first `k` import
/// directives `is` of file `f` are taken in order: each one's file is pushed
/// unless it was seen before.
pub open spec fn pushed(
    reg: Seq<File>,
    f: int,
    is: Seq<ImportAt>,
    stack: Seq<int>,
    seen: Set<int>,
    k: int,
) -> (Seq<int>, Set<int>)
    decreases k,
{
    if k <= 0 {
        (stack, seen)
    } else {
        let (s, sn) = pushed(reg, f, is, stack, seen, k - 1);
        let t = target_of(reg, f, is[k - 1]);
        if sn.contains(t) {
            (s, sn)
        } else {
            (s.push(t), sn.insert(t))
        }
    }
}

/// The files the walk takes, in order, from the state `stack`, `seen`: it
/// takes the file on top of the stack, then pushes the unseen files its
/// imports name, in the order they are written.
pub open spec fn walk_order(reg: Seq<File>, stack: Seq<int>, seen: Set<int>, fuel: nat) -> Seq<int>
    decreases fuel,
{
    if fuel == 0 || stack.len() == 0 {
        seq![]
    } else {
        let f = stack.last();
        let is = file_items(reg, f)->Ok_0.1;
        let (s2, sn2) = pushed(reg, f, is, stack.drop_last(), seen, is.len() as int);
        seq![f] + walk_order(reg, s2, sn2, (fuel - 1) as nat)
    }
}

/// The order, depth first and last pushed first, in which resolution takes
/// the files reached from `entry`.
pub open spec fn dfs_order(reg: Seq<File>, entry: FileId) -> Seq<int> {
    walk_order(reg, seq![entry as int], set![entry as int], (reg.len() + 1) as nat)
}

/// The files of `units`, in order.
pub open spec fn unit_file_seq(units: Seq<(String, TranslationUnit)>) -> Seq<int> {
    units.map_values(|u: (String, TranslationUnit)| unit_file(u) as int)
}

spec fn stack_ids(stack: Seq<(FileId, Span)>) -> Seq<int> {
    stack.map_values(|p: (FileId, Span)| p.0 as int)
}

spec fn marks_ok(n: nat, marked: Seq<bool>, seen: Set<int>) -> bool {
    &&& marked.len() == n
    &&& forall|i: int| 0 <= i < n ==> (#[trigger] marked[i] <==> seen.contains(i))
    &&& seen.finite()
    &&& forall|t: int| #[trigger] seen.contains(t) ==> 0 <= t < n
    &&& seen.len() <= n
}

spec fn walk_distinct(stack: Seq<(FileId, Span)>, units: Seq<(String, TranslationUnit)>) -> bool {
    &&& files_distinct(units)
    &&& forall|a: int, b: int| 0 <= a < b < stack.len() ==> stack[a].0 != stack[b].0
    &&& forall|a: int, j: int|
        0 <= a < stack.len() && 0 <= j < units.len() ==> stack[a].0 != unit_file(units[j])
}

/// `span` is the span of an import directive of file `f`, as parsed from its
/// text, whose path has no directory to resolve against or resolves to no
/// registered file.
pub open spec fn bad_import(reg: Seq<File>, span: Span) -> bool {
    match span.file_id {
        Some(f) => (f as int) < reg.len() && exists|import: Import|
            #[trigger] crate::ast::import_in(import, f, reg[f as int].bytes()) && import.span == span
                && match resolve_of(reg[f as int].spec_path(), import.path.name@) {
                Some(p) => forall|i: int| !has_path(reg, p, i),
                None => true,
            },
        None => false,
    }
}

proof fn lemma_seen_bound(seen: Set<int>, n: nat)
    requires
        seen.finite(),
        forall|t: int| #[trigger] seen.contains(t) ==> 0 <= t < n,
    ensures
        seen.len() <= n,
{
    vstd::set_lib::lemma_int_range(0, n as int);
    assert(seen.subset_of(vstd::set_lib::set_int_range(0, n as int)));
    vstd::set_lib::lemma_len_subset(seen, vstd::set_lib::set_int_range(0, n as int));
}

/// Resolve the import graph rooted at `entry`, parsing each file reached
/// exactly once into a unit of its own. Files are taken from a stack, so the
/// graph is walked depth first and the units come in the order their files
/// were taken; an import of a file already reached adds nothing.
#[verifier::loop_isolation(false)]
#[verifier::rlimit(50)]
pub fn resolve_units(registry: &SourceRegistry, entry: FileId) -> (r: Result<
    Vec<(String, TranslationUnit)>,
    Error,
>)
    requires
        registry.wf(),
        (entry as int) < registry@.len(),
    ensures
        r is Ok <==> graph_good(registry@, entry),
        r matches Ok(units) ==> is_resolution(registry@, entry, units@),
        r matches Err(e) ==> exists|f: int| #[trigger] reachable(registry@, entry, f) && fails_at(registry@, f, e),
        r matches Err(e) ==> match e.spec_span().file_id {
            Some(f) => (f as int) < registry@.len(),
            None => false,
        },
        r matches Err(e) ==> e is Unexpected || e is BadPath,
        r matches Err(Error::BadPath { span }) ==> bad_import(registry@, span),
{
    let ghost reg = registry@;
    let ghost n = reg.len();
    let count = registry.len();
    let mut marked: Vec<bool> = Vec::new();
    while marked.len() < count
        invariant
            count == n,
            marked@.len() <= n,
            forall|i: int| 0 <= i < marked@.len() ==> marked@[i] == (i == entry),
        decreases n - marked@.len(),
    {
        marked.push(marked.len() == entry as usize);
    }
    let ghost mut seen: Set<int> = set![entry as int];
    let mut stack: Vec<(FileId, Span)> = Vec::new();
    stack.push((entry, Span::root()));
    let mut units: Vec<(String, TranslationUnit)> = Vec::new();
    let mut parser = Parser::new();
    proof {
        lemma_seen_bound(seen, n);
        lemma_entry_reachable(reg, entry);
        assert(stack_ids(stack@) =~= seq![entry as int]);
        assert(unit_file_seq(units@) =~= seq![]);
        assert(seq![] + dfs_order(reg, entry) =~= dfs_order(reg, entry));
        assert forall|t: int| #[trigger] seen.contains(t) implies (exists|a: int|
            0 <= a < stack@.len() && #[trigger] stack@[a].0 == t) by {
            assert(stack@[0].0 == t);
        }
    }
    loop
        invariant
            marks_ok(n, marked@, seen),
            units_ok(reg, units@),
            units_reach(reg, seen, units@),
            walk_distinct(stack@, units@),
            forall|j: int| 0 <= j < units@.len() ==> seen.contains(unit_file(#[trigger] units@[j]) as int),
            forall|a: int| 0 <= a < stack@.len() ==> seen.contains(#[trigger] stack@[a].0 as int),
            forall|t: int| #[trigger] seen.contains(t) ==> (exists|j: int| 0 <= j < units@.len() && unit_file(#[trigger] units@[j]) == t)
                || (exists|a: int| 0 <= a < stack@.len() && #[trigger] stack@[a].0 == t),
            units@.len() == 0 ==> stack@.len() == 1 && stack@[0].0 == entry,
            units@.len() > 0 ==> unit_file(units@[0]) == entry,
            forall|j: int| 0 <= j < units@.len() ==> reachable(reg, entry, unit_file(#[trigger] units@[j]) as int),
            forall|a: int| 0 <= a < stack@.len() ==> reachable(reg, entry, #[trigger] stack@[a].0 as int),
            discovered_in_order(reg, units@),
            stack_discovered(reg, stack@, units@),
            units@.len() <= n,
            unit_file_seq(units@) + walk_order(reg, stack_ids(stack@), seen, (n + 1 - units@.len()) as nat)
                == dfs_order(reg, entry),
        decreases 2 * (n - seen.len()) + stack@.len(),
    {
        let ghost stack_before = stack@;
        let ghost units_before = units@;
        let ghost seen_before = seen;
        let (id, _from) = match stack.pop() {
            Some(item) => item,
            None => break,
        };
        let ghost popped = stack@;
        let ghost pl = popped.len();
        assert(stack_before[pl as int].0 == id);
        assert(seen_before.contains(id as int));
        let file = registry.get(id).unwrap();
        let mut scratch = TranslationUnit::new();
        proof {
            lemma_entry_reachable(reg, entry);
        }
        match parser.parse(&mut scratch, file.source(), id) {
            Ok(()) => {},
            Err(e) => {
                assert(stack_before[pl as int].0 == id);
                assert(reachable(reg, entry, id as int) && fails_at(reg, id as int, e));
                return Err(e);
            },
        }
        let ghost ds = file_items(reg, id as int)->Ok_0.0;
        let ghost is = file_items(reg, id as int)->Ok_0.1;
        proof {
            assert(scratch.decls@.subrange(0, scratch.decls@.len() as int) =~= scratch.decls@);
            assert(scratch.imports@.subrange(0, scratch.imports@.len() as int) =~= scratch.imports@);
            assert(reachable(reg, entry, id as int));
            assert(stack_ids(stack@) == stack_ids(popped));
        }
        let mut imports: Vec<Import> = Vec::new();
        let mut k: usize = 0;
        while k < scratch.imports.len()
            invariant
                marks_ok(n, marked@, seen),
                seen_before.subset_of(seen),
                k <= scratch.imports@.len(),
                imports@.len() == k,
                forall|m: int|
                    0 <= m < k ==> import_resolved(reg, id, #[trigger] imports@[m]) && reaches(
                        reg,
                        seen,
                        imports@[m],
                    ),
                stack@.len() >= pl,
                forall|a: int| 0 <= a < pl ==> #[trigger] stack@[a] == popped[a],
                forall|a: int|
                    pl <= a < stack@.len() ==> !seen_before.contains(#[trigger] stack@[a].0 as int)
                        && seen.contains(stack@[a].0 as int),
                forall|a: int, b: int| pl <= a < b < stack@.len() ==> stack@[a].0 != stack@[b].0,
                forall|t: int|
                    #[trigger] seen.contains(t) && !seen_before.contains(t) ==> exists|a: int|
                        pl <= a < stack@.len() && #[trigger] stack@[a].0 == t,
                seen.len() == seen_before.len() + (stack@.len() - pl),
                reachable(reg, entry, id as int),
                file_items(reg, id as int) == Ok::<(Seq<DeclAt>, Seq<ImportAt>), Error>((ds, is)),
                scratch.imports@.map_values(|m: Import| import_at(m)) == is,
                imports@.map_values(|m: Import| import_at(m)) == is.subrange(0, k as int),
                forall|a: int| pl <= a < stack@.len() ==> reachable(reg, entry, #[trigger] stack@[a].0 as int),
                forall|a: int| pl <= a < stack@.len() ==> imports_file(reg, id as int, #[trigger] stack@[a].0 as int),
                pushed(reg, id as int, is, stack_ids(popped), seen_before, k as int) == (stack_ids(stack@), seen),
            decreases scratch.imports@.len() - k,
        {
            let import = &scratch.imports[k];
            assert(crate::ast::import_in(*import, id, reg[id as int].bytes()));
            proof {
                assert(is[k as int] == import_at(*import));
                lemma_name_text(
                    import.path.name@,
                    reg[id as int].bytes(),
                    import.path.span.start as int,
                    import.path.span.end as int,
                );
                assert(import_text(reg, id as int, is[k as int]) == import.path.name@);
            }
            let target = match parent_path(file.path()) {
                Some(dir) => join_path(dir.as_str(), import.path.name.as_str()),
                None => {
                    assert(bad_import(reg, import.span));
                    assert(forall|t: int| !#[trigger] import_target(reg, id as int, is[k as int], t));
                    assert(fails_at(reg, id as int, Error::BadPath { span: import.span }));
                    return Err(Error::BadPath { span: import.span });
                },
            };
            let t = match registry.visit(target.as_str()) {
                Some(t) => t,
                None => {
                    assert(bad_import(reg, import.span));
                    assert(forall|t: int| !#[trigger] import_target(reg, id as int, is[k as int], t));
                    assert(fails_at(reg, id as int, Error::BadPath { span: import.span }));
                    return Err(Error::BadPath { span: import.span });
                },
            };
            proof {
                assert(import_target(reg, id as int, is[k as int], t as int));
                assert(imports_file(reg, id as int, t as int));
                lemma_reach_extend(reg, entry, id as int, t as int);
                let c = target_of(reg, id as int, is[k as int]);
                assert(import_target(reg, id as int, is[k as int], c));
                if c < t as int {
                    assert(reg[c].spec_path() != reg[t as int].spec_path());
                } else if (t as int) < c {
                    assert(reg[t as int].spec_path() != reg[c].spec_path());
                }
                assert(c == t as int);
            }
            let ghost ids_prev = stack_ids(stack@);
            let ghost seen_prev2 = seen;
            if !marked[t as usize] {
                let ghost stack_prev = stack@;
                let ghost seen_prev = seen;
                marked.set(t as usize, true);
                stack.push((t, import.span));
                proof {
                    assert(!seen.contains(t as int));
                    seen = seen.insert(t as int);
                    lemma_seen_bound(seen, n);
                    assert(stack@[stack@.len() - 1].0 == t);
                    assert forall|a: int| pl <= a < stack@.len() implies imports_file(reg, id as int, #[trigger] stack@[a].0 as int) by {
                        if a < stack@.len() - 1 {
                            assert(stack@[a] == stack_prev[a]);
                        }
                    }
                    assert forall|x: int|
                        #[trigger] seen.contains(x) && !seen_before.contains(x) implies exists|a: int|
                        pl <= a < stack@.len() && #[trigger] stack@[a].0 == x by {
                        if x == t as int {
                            assert(stack@[stack@.len() - 1].0 == x);
                        } else {
                            assert(seen_prev.contains(x));
                            let a = choose|a: int|
                                pl <= a < stack_prev.len() && #[trigger] stack_prev[a].0 == x;
                            assert(stack@[a] == stack_prev[a]);
                        }
                    }
                }
            }
            proof {
                if seen_prev2.contains(t as int) {
                    assert(stack_ids(stack@) == ids_prev);
                } else {
                    assert(stack_ids(stack@) =~= ids_prev.push(t as int));
                }
            }
            let resolved = Import {
                path: Ident { name: import.path.name.clone(), span: import.path.span },
                span: import.span,
                resolved: Some(target),
            };
            assert(seen.contains(t as int));
            assert(has_path(reg, resolved.resolved->Some_0@, t as int));
            let ghost done = imports@;
            imports.push(resolved);
            proof {
                assert(imports@.map_values(|m: Import| import_at(m)) =~= is.subrange(0, k + 1));
            }
            k += 1;
        }
        proof {
            assert(is.subrange(0, is.len() as int) =~= is);
            assert(imports@.map_values(|m: Import| import_at(m)) == is);
            assert(scratch.decls@.map_values(|d: crate::ast::Decl| decl_at(d)) == ds);
        }
        let mut files: Vec<FileId> = Vec::new();
        files.push(id);
        let unit = TranslationUnit { decls: scratch.decls, imports, files };
        units.push((file.path().to_owned(), unit));
        proof {
            let last = units_before.len() as int;
            assert(unit_file(units@[last]) == id);
            assert forall|i: int| 0 <= i < last implies #[trigger] units@[i] == units_before[i] by {}
            assert forall|i: int, m: int|
                0 <= i < units@.len() && 0 <= m < units@[i].1.imports@.len() implies reaches(
                reg,
                seen,
                #[trigger] units@[i].1.imports@[m],
            ) by {
                if i < last {
                    let imp = units_before[i].1.imports@[m];
                    assert(reaches(reg, seen_before, imp));
                    let p = imp.resolved->Some_0;
                    let w = choose|w: int| seen_before.contains(w) && #[trigger] has_path(reg, p@, w);
                    assert(seen.contains(w));
                }
            }
            assert forall|t: int| #[trigger] seen.contains(t) implies (exists|j: int|
                0 <= j < units@.len() && unit_file(#[trigger] units@[j]) == t) || (exists|a: int|
                0 <= a < stack@.len() && #[trigger] stack@[a].0 == t) by {
                if seen_before.contains(t) {
                    if exists|j: int| 0 <= j < units_before.len() && unit_file(#[trigger] units_before[j]) == t {
                        let j = choose|j: int| 0 <= j < units_before.len() && unit_file(#[trigger] units_before[j]) == t;
                        assert(units@[j] == units_before[j]);
                    } else {
                        let a = choose|a: int| 0 <= a < stack_before.len() && #[trigger] stack_before[a].0 == t;
                        if a == pl {
                            assert(unit_file(units@[last]) == t);
                        } else {
                            assert(stack@[a] == popped[a]);
                        }
                    }
                }
            }
            assert forall|a: int, b: int| 0 <= a < b < stack@.len() implies stack@[a].0 != stack@[b].0 by {
                if b < pl {
                    assert(stack_before[a].0 != stack_before[b].0);
                } else if a < pl {
                    assert(seen_before.contains(stack_before[a].0 as int));
                }
            }
            assert forall|a: int, j: int|
                0 <= a < stack@.len() && 0 <= j < units@.len() implies stack@[a].0 != unit_file(
                units@[j],
            ) by {
                if a < pl {
                    if j < last {
                        assert(stack_before[a].0 != unit_file(units_before[j]));
                    } else {
                        assert(stack_before[a].0 != stack_before[pl as int].0);
                    }
                } else {
                    if j < last {
                        assert(seen_before.contains(unit_file(units_before[j]) as int));
                    }
                }
            }
            assert forall|i: int, j: int| 0 <= i < j < units@.len() implies unit_file(units@[i])
                != unit_file(units@[j]) by {
                if j == last {
                    assert(stack_before[pl as int].0 != unit_file(units_before[i]));
                }
            }
            assert(units_ok(reg, units@));
            let fuel = (n + 1 - last) as nat;
            assert(stack_ids(stack_before).last() == id as int);
            assert(stack_ids(stack_before).drop_last() =~= stack_ids(popped));
            assert(walk_order(reg, stack_ids(stack_before), seen_before, fuel) == seq![id as int]
                + walk_order(reg, stack_ids(stack@), seen, (fuel - 1) as nat));
            assert(unit_file_seq(units@) =~= unit_file_seq(units_before).push(id as int));
            assert(unit_file_seq(units@) + walk_order(reg, stack_ids(stack@), seen, (fuel - 1) as nat)
                =~= unit_file_seq(units_before) + (seq![id as int] + walk_order(reg, stack_ids(stack@), seen, (fuel - 1) as nat)));
            let files = unit_file_seq(units@);
            assert(files.no_duplicates()) by {
                assert forall|a: int, b: int| 0 <= a < files.len() && 0 <= b < files.len() && a != b implies files[a] != files[b] by {
                    if a < b {
                        assert(unit_file(units@[a]) != unit_file(units@[b]));
                    } else {
                        assert(unit_file(units@[b]) != unit_file(units@[a]));
                    }
                }
            }
            files.unique_seq_to_set();
            assert(files.to_set().subset_of(seen)) by {
                assert forall|x: int| files.to_set().contains(x) implies seen.contains(x) by {
                    let j = choose|j: int| 0 <= j < files.len() && files[j] == x;
                    assert(seen.contains(unit_file(units@[j]) as int));
                }
            }
            vstd::set_lib::lemma_len_subset(files.to_set(), seen);
            assert forall|j: int| 0 < j < units@.len() implies #[trigger] imported_before(
                reg,
                units@,
                j,
                unit_file(units@[j]) as int,
            ) by {
                if j < last {
                    assert(imported_before(reg, units_before, j, unit_file(units_before[j]) as int));
                    let i = choose|i: int| 0 <= i < j && #[trigger] imports_file(reg, unit_file(units_before[i]) as int, unit_file(units_before[j]) as int);
                    assert(units@[i] == units_before[i]);
                    assert(units@[j] == units_before[j]);
                } else {
                    assert(stack_before[pl as int].0 == id);
                    assert(imported_before(reg, units_before, last, stack_before[pl as int].0 as int));
                    let i = choose|i: int| 0 <= i < last && #[trigger] imports_file(reg, unit_file(units_before[i]) as int, stack_before[pl as int].0 as int);
                    assert(units@[i] == units_before[i]);
                }
            }
            assert forall|a: int| 0 <= a < stack@.len() implies #[trigger] imported_before(
                reg,
                units@,
                units@.len() as int,
                stack@[a].0 as int,
            ) by {
                if a < pl {
                    assert(stack@[a] == popped[a]);
                    assert(stack_before[a] == popped[a]);
                    assert(imported_before(reg, units_before, last, stack_before[a].0 as int));
                    let i = choose|i: int| 0 <= i < last && #[trigger] imports_file(reg, unit_file(units_before[i]) as int, stack_before[a].0 as int);
                    assert(units@[i] == units_before[i]);
                } else {
                    assert(imports_file(reg, unit_file(units@[last]) as int, stack@[a].0 as int));
                }
            }
        }
    }
    proof {
        assert(stack_ids(stack@) =~= seq![]);
        assert(unit_file_seq(units@) + seq![] =~= unit_file_seq(units@));
        assert(seen =~= unit_files(units@));
        assert(unit_files(units@).contains(entry as int));
        lemma_walk_closed(registry, entry, units@);
    }
    Ok(units)
}

} // verus!

verus! {

/// For a `BadPath` span that resolution reported, the path that import
/// directive names, taken against the directory of the importing file: the
/// file a source provider loads before resolving again. `None` when the span
/// is not that of an import directive of a registered, parsable file, or
/// the importing file has no directory.
pub fn unresolved_import(registry: &SourceRegistry, span: Span) -> (r: Option<String>)
    requires
        registry.wf(),
    ensures
        r matches Some(p) ==> match span.file_id {
            Some(f) => (f as int) < registry@.len() && match file_items(registry@, f as int) {
                Ok((ds, is)) => exists|k: int|
                    0 <= k < is.len() && is[k].span == (span.start as int, span.end as int)
                        && resolve_of(
                        registry@[f as int].spec_path(),
                        #[trigger] import_text(registry@, f as int, is[k]),
                    ) == Some(p@),
                Err(_) => false,
            },
            None => false,
        },
{
    let f = match span.file_id {
        Some(f) => f,
        None => return None,
    };
    let file = match registry.get(f) {
        Some(file) => file,
        None => return None,
    };
    let mut scratch = TranslationUnit::new();
    let mut parser = Parser::new();
    match parser.parse(&mut scratch, file.source(), f) {
        Ok(()) => {},
        Err(_) => return None,
    }
    let ghost reg = registry@;
    let ghost is = file_items(reg, f as int)->Ok_0.1;
    proof {
        assert(scratch.imports@.subrange(0, scratch.imports@.len() as int) =~= scratch.imports@);
    }
    let mut k: usize = 0;
    while k < scratch.imports.len()
        invariant
            registry.wf(),
            reg == registry@,
            (f as int) < reg.len(),
            *file == reg[f as int],
            file_items(reg, f as int) is Ok,
            span.file_id == Some(f),
            is == file_items(reg, f as int)->Ok_0.1,
            k <= scratch.imports@.len(),
            scratch.imports@.map_values(|m: Import| import_at(m)) == is,
            forall|m: int|
                0 <= m < scratch.imports@.len() ==> crate::ast::import_in(
                    #[trigger] scratch.imports@[m],
                    f,
                    reg[f as int].bytes(),
                ),
        decreases scratch.imports@.len() - k,
    {
        let import = &scratch.imports[k];
        if import.span.start == span.start && import.span.end == span.end {
            return match parent_path(file.path()) {
                Some(dir) => {
                    let target = join_path(dir.as_str(), import.path.name.as_str());
                    proof {
                        assert(is[k as int] == import_at(*import));
                        lemma_name_text(
                            import.path.name@,
                            reg[f as int].bytes(),
                            import.path.span.start as int,
                            import.path.span.end as int,
                        );
                        assert(import_text(reg, f as int, is[k as int]) == import.path.name@);
                    }
                    Some(target)
                },
                None => None,
            };
        }
        k += 1;
    }
    None
}

} // verus!
