use vstd::prelude::*;

use crate::ast::{decl_in, ident_in, import_in, Decl, Ident, Import, TranslationUnit};
use crate::error::{Error, Expected};
use crate::source::{bytes_of, slice_text};
use crate::span::{range_fits, FileId, Span};

verus! {

pub const QUOTE: u8 = 34;

pub const NEWLINE: u8 = 10;

pub const SEMICOLON: u8 = 59;

pub const EQUALS: u8 = 61;

pub open spec fn is_space(c: u8) -> bool {
    c == 32 || c == 9 || c == 10 || c == 13
}

pub open spec fn is_digit(c: u8) -> bool {
    48 <= c <= 57
}

pub open spec fn is_word_byte(c: u8) -> bool {
    is_digit(c) || (65 <= c <= 90) || (97 <= c <= 122) || c == 95
}

/// The first offset at or after `i` that holds no white space.
pub open spec fn skip_space_from(b: Seq<u8>, i: int) -> int
    decreases b.len() - i,
{
    if 0 <= i < b.len() && is_space(b[i]) {
        skip_space_from(b, i + 1)
    } else {
        i
    }
}

/// The end of the run of word bytes that starts at `i`.
pub open spec fn word_end_from(b: Seq<u8>, i: int) -> int
    decreases b.len() - i,
{
    if 0 <= i < b.len() && is_word_byte(b[i]) {
        word_end_from(b, i + 1)
    } else {
        i
    }
}

/// The first offset at or after `i` that holds a `"` or a line break.
pub open spec fn quote_end_from(b: Seq<u8>, i: int) -> int
    decreases b.len() - i,
{
    if 0 <= i < b.len() && b[i] != QUOTE && b[i] != NEWLINE {
        quote_end_from(b, i + 1)
    } else {
        i
    }
}

pub proof fn lemma_scans(b: Seq<u8>, i: int)
    requires
        0 <= i,
    ensures
        i <= skip_space_from(b, i),
        skip_space_from(b, i) <= b.len() || skip_space_from(b, i) == i,
        i <= word_end_from(b, i),
        word_end_from(b, i) <= b.len() || word_end_from(b, i) == i,
        i < b.len() && is_word_byte(b[i]) ==> i < word_end_from(b, i),
        i <= quote_end_from(b, i),
        quote_end_from(b, i) <= b.len() || quote_end_from(b, i) == i,
    decreases b.len() - i,
{
    if i < b.len() {
        lemma_scans(b, i + 1);
    }
}

/// A declaration as offsets into the text: its name, the names it uses and
/// the whole declaration, each as `(start, end)`.
pub struct DeclAt {
    pub name: (int, int),
    pub uses: Seq<(int, int)>,
    pub span: (int, int),
}

/// An import directive as offsets: its quoted path and the whole directive.
pub struct ImportAt {
    pub path: (int, int),
    pub span: (int, int),
}

pub open spec fn error_at(s: int, e: int, f: FileId, expected: Expected) -> Error {
    Error::Unexpected { span: Span { start: s as usize, end: e as usize, file_id: Some(f) }, expected }
}

/// `[s, e)` spells the word `w`.
pub open spec fn spells(b: Seq<u8>, s: int, e: int, w: Seq<u8>) -> bool {
    b.subrange(s, e) == w
}

/// `[s, e)` is a keyword that opens a declaration.
pub open spec fn is_decl_keyword_at(b: Seq<u8>, s: int, e: int) -> bool {
    spells(b, s, e, seq![102u8, 110u8]) || spells(b, s, e, seq![118u8, 97u8, 114u8])
        || spells(b, s, e, seq![108u8, 101u8, 116u8]) || spells(
        b,
        s,
        e,
        seq![99u8, 111u8, 110u8, 115u8, 116u8],
    ) || spells(b, s, e, seq![97u8, 108u8, 105u8, 97u8, 115u8]) || spells(
        b,
        s,
        e,
        seq![115u8, 116u8, 114u8, 117u8, 99u8, 116u8],
    ) || spells(b, s, e, seq![111u8, 118u8, 101u8, 114u8, 114u8, 105u8, 100u8, 101u8])
}

/// The word `import`.
pub open spec fn import_word() -> Seq<u8> {
    seq![105u8, 109u8, 112u8, 111u8, 114u8, 116u8]
}

/// The names used from `p` up to the `;` that ends a declaration, and the
/// offset of that `;`; a name is a word after the first `=` that does not
/// start with a digit.
pub open spec fn uses_from(b: Seq<u8>, p: int, after_eq: bool, f: FileId) -> Result<
    (Seq<(int, int)>, int),
    Error,
>
    decreases b.len() - p,
{
    if p < 0 || p >= b.len() {
        Err(error_at(p, p, f, Expected::Semicolon))
    } else if b[p] == SEMICOLON {
        Ok((seq![], p))
    } else if is_word_byte(b[p]) {
        let q = word_end_from(b, p);
        let named = after_eq && !is_digit(b[p]);
        if named && !range_fits(p, q, b) {
            Err(error_at(p, q, f, Expected::Semicolon))
        } else if q <= p || q > b.len() {
            Err(error_at(p, q, f, Expected::Semicolon))
        } else {
            match uses_from(b, q, after_eq, f) {
                Ok((rest, end)) => Ok(
                    (
                        if named {
                            seq![(p, q)] + rest
                        } else {
                            rest
                        },
                        end,
                    ),
                ),
                Err(e) => Err(e),
            }
        }
    } else {
        uses_from(b, p + 1, after_eq || b[p] == EQUALS, f)
    }
}

/// The declaration whose keyword spans `[start, after_kw)`, and the offset
/// after its `;`.
pub open spec fn decl_from(b: Seq<u8>, start: int, after_kw: int, f: FileId) -> Result<
    (DeclAt, int),
    Error,
> {
    let k = skip_space_from(b, after_kw);
    let n = word_end_from(b, k);
    if n == k || is_digit(b[k]) || !range_fits(k, n, b) {
        Err(error_at(k, n, f, Expected::Name))
    } else {
        match uses_from(b, n, false, f) {
            Ok((uses, p)) => if range_fits(start, p + 1, b) {
                Ok((DeclAt { name: (k, n), uses, span: (start, p + 1) }, p + 1))
            } else {
                Err(error_at(p, p, f, Expected::Semicolon))
            },
            Err(e) => Err(e),
        }
    }
}

/// The import directive whose keyword spans `[start, after_kw)`, and the
/// offset after its `;`.
pub open spec fn import_from(b: Seq<u8>, start: int, after_kw: int, f: FileId) -> Result<
    (ImportAt, int),
    Error,
> {
    let k = skip_space_from(b, after_kw);
    if k >= b.len() || b[k] != QUOTE {
        Err(error_at(k, k, f, Expected::PathLiteral))
    } else {
        let q = quote_end_from(b, k + 1);
        if q >= b.len() || b[q] != QUOTE || !range_fits(k + 1, q, b) {
            Err(error_at(k, q, f, Expected::PathLiteral))
        } else {
            let s = skip_space_from(b, q + 1);
            if s >= b.len() || b[s] != SEMICOLON || !range_fits(start, s + 1, b) {
                Err(error_at(s, s, f, Expected::Semicolon))
            } else {
                Ok((ImportAt { path: (k + 1, q), span: (start, s + 1) }, s + 1))
            }
        }
    }
}

/// What parsing the text `b` of file `f` from offset `i` on gives: its
/// declarations and its import directives in order, or the first syntax
/// error.
pub open spec fn items_from(b: Seq<u8>, i: int, f: FileId) -> Result<
    (Seq<DeclAt>, Seq<ImportAt>),
    Error,
>
    decreases b.len() - i,
{
    let j0 = skip_space_from(b, i);
    if i < 0 || j0 >= b.len() {
        Ok((seq![], seq![]))
    } else {
        let j = word_end_from(b, j0);
        if j == j0 {
            Err(error_at(j0, j0, f, Expected::Item))
        } else if spells(b, j0, j, import_word()) {
            match import_from(b, j0, j, f) {
                Ok((import, next)) => if next <= i {
                    Err(error_at(j0, j0, f, Expected::Item))
                } else {
                    match items_from(b, next, f) {
                        Ok((ds, is)) => Ok((ds, seq![import] + is)),
                        Err(e) => Err(e),
                    }
                },
                Err(e) => Err(e),
            }
        } else if is_decl_keyword_at(b, j0, j) {
            match decl_from(b, j0, j, f) {
                Ok((decl, next)) => if next <= i {
                    Err(error_at(j0, j0, f, Expected::Item))
                } else {
                    match items_from(b, next, f) {
                        Ok((ds, is)) => Ok((seq![decl] + ds, is)),
                        Err(e) => Err(e),
                    }
                },
                Err(e) => Err(e),
            }
        } else {
            Err(error_at(j0, j, f, Expected::Item))
        }
    }
}

/// The offsets of a parsed declaration.
pub open spec fn decl_at(d: Decl) -> DeclAt {
    DeclAt {
        name: (d.name.span.start as int, d.name.span.end as int),
        uses: d.uses@.map_values(|u: Ident| (u.span.start as int, u.span.end as int)),
        span: (d.span.start as int, d.span.end as int),
    }
}

/// The offsets of a parsed import directive.
pub open spec fn import_at(i: Import) -> ImportAt {
    ImportAt {
        path: (i.path.span.start as int, i.path.span.end as int),
        span: (i.span.start as int, i.span.end as int),
    }
}

fn space(c: u8) -> (r: bool)
    ensures
        r == is_space(c),
{
    c == 32 || c == 9 || c == 10 || c == 13
}

fn digit(c: u8) -> (r: bool)
    ensures
        r == is_digit(c),
{
    48 <= c && c <= 57
}

fn word_byte(c: u8) -> (r: bool)
    ensures
        r == is_word_byte(c),
{
    digit(c) || (65 <= c && c <= 90) || (97 <= c && c <= 122) || c == 95
}

/// The first offset at or after `i` that does not hold white space.
fn skip_space(b: &[u8], i: usize) -> (j: usize)
    requires
        i <= b@.len(),
    ensures
        i <= j <= b@.len(),
        j == b@.len() || !is_space(b@[j as int]),
        j == skip_space_from(b@, i as int),
{
    let mut j = i;
    while j < b.len() && space(b[j])
        invariant
            i <= j <= b@.len(),
            skip_space_from(b@, j as int) == skip_space_from(b@, i as int),
        decreases b@.len() - j,
    {
        j += 1;
    }
    j
}

/// The end of the run of word bytes that starts at `i`.
fn scan_word(b: &[u8], i: usize) -> (j: usize)
    requires
        i <= b@.len(),
    ensures
        i <= j <= b@.len(),
        j == b@.len() || !is_word_byte(b@[j as int]),
        j == word_end_from(b@, i as int),
{
    let mut j = i;
    while j < b.len() && word_byte(b[j])
        invariant
            i <= j <= b@.len(),
            word_end_from(b@, j as int) == word_end_from(b@, i as int),
        decreases b@.len() - j,
    {
        j += 1;
    }
    j
}

/// Whether bytes `[s, e)` of `b` spell `w`.
fn word_is(b: &[u8], s: usize, e: usize, w: &Vec<u8>) -> (r: bool)
    requires
        s <= e <= b@.len(),
    ensures
        r == (b@.subrange(s as int, e as int) == w@),
{
    if e - s != w.len() {
        return false;
    }
    let mut k: usize = 0;
    while k < w.len()
        invariant
            e - s == w@.len(),
            s <= e <= b@.len(),
            k <= w@.len(),
            forall|m: int| 0 <= m < k ==> b@[s + m] == w@[m],
        decreases w@.len() - k,
    {
        if b[s + k] != w[k] {
            assert(b@.subrange(s as int, e as int)[k as int] != w@[k as int]);
            return false;
        }
        k += 1;
    }
    assert(b@.subrange(s as int, e as int) =~= w@);
    true
}

/// Whether bytes `[s, e)` of `b` are a keyword that opens a declaration.
fn is_decl_keyword(b: &[u8], s: usize, e: usize) -> (r: bool)
    requires
        s <= e <= b@.len(),
    ensures
        r == is_decl_keyword_at(b@, s as int, e as int),
{
    // fn, var, let, const, alias, struct, override
    word_is(b, s, e, &vec![102, 110])
        || word_is(b, s, e, &vec![118, 97, 114])
        || word_is(b, s, e, &vec![108, 101, 116])
        || word_is(b, s, e, &vec![99, 111, 110, 115, 116])
        || word_is(b, s, e, &vec![97, 108, 105, 97, 115])
        || word_is(b, s, e, &vec![115, 116, 114, 117, 99, 116])
        || word_is(b, s, e, &vec![111, 118, 101, 114, 114, 105, 100, 101])
}

fn unexpected(s: usize, e: usize, file_id: FileId, expected: Expected) -> (r: Error)
    ensures
        r.spec_span().file_id == Some(file_id),
        r is Unexpected,
        r == error_at(s as int, e as int, file_id, expected),
{
    Error::Unexpected { span: Span::new(s, e, Some(file_id)), expected }
}

/// The identifier at bytes `[s, e)` of `source`, if that range may slice it.
fn ident_at(source: &str, s: usize, e: usize, file_id: FileId) -> (r: Option<Ident>)
    ensures
        r matches Some(id) ==> ident_in(id, file_id, bytes_of(source@)) && id.span.start == s
            && id.span.end == e,
        r is Some <==> range_fits(s as int, e as int, bytes_of(source@)),
{
    match slice_text(source, s, e) {
        Some(t) => Some(Ident { name: t.to_owned(), span: Span::new(s, e, Some(file_id)) }),
        None => None,
    }
}

/// The span `[s, e)` of file `file_id`, if it may slice `source`.
fn span_at(source: &str, s: usize, e: usize, file_id: FileId) -> (r: Option<Span>)
    ensures
        r matches Some(span) ==> crate::ast::span_in(span, file_id, bytes_of(source@))
            && span.start == s && span.end == e,
        r is Some <==> range_fits(s as int, e as int, bytes_of(source@)),
{
    match slice_text(source, s, e) {
        Some(_) => Some(Span::new(s, e, Some(file_id))),
        None => None,
    }
}

/// An import directive whose keyword ends at `after_kw`; returns it and the
/// offset after its `;`.
fn parse_import(source: &str, b: &[u8], file_id: FileId, start: usize, after_kw: usize) -> (r:
    Result<(Import, usize), Error>)
    requires
        b@ == bytes_of(source@),
        start < after_kw <= b@.len(),
    ensures
        r matches Ok((import, next)) ==> import_in(import, file_id, b@) && after_kw < next
            <= b@.len(),
        r matches Err(e) ==> e.spec_span().file_id == Some(file_id) && e is Unexpected,
        match import_from(b@, start as int, after_kw as int, file_id) {
            Ok((at, next)) => r matches Ok((import, n)) && import_at(import) == at && n == next,
            Err(e) => r == Err::<(Import, usize), Error>(e),
        },
{
    proof {
        lemma_scans(b@, after_kw as int);
    }
    let k = skip_space(b, after_kw);
    if k == b.len() || b[k] != QUOTE {
        return Err(unexpected(k, k, file_id, Expected::PathLiteral));
    }
    let mut q = k + 1;
    while q < b.len() && b[q] != QUOTE && b[q] != NEWLINE
        invariant
            k < q <= b@.len(),
            quote_end_from(b@, q as int) == quote_end_from(b@, k + 1),
        decreases b@.len() - q,
    {
        q += 1;
    }
    if q == b.len() || b[q] != QUOTE {
        return Err(unexpected(k, q, file_id, Expected::PathLiteral));
    }
    let path = match ident_at(source, k + 1, q, file_id) {
        Some(p) => p,
        None => return Err(unexpected(k, q, file_id, Expected::PathLiteral)),
    };
    proof {
        lemma_scans(b@, q + 1);
    }
    let s = skip_space(b, q + 1);
    if s == b.len() || b[s] != SEMICOLON {
        return Err(unexpected(s, s, file_id, Expected::Semicolon));
    }
    let span = match span_at(source, start, s + 1, file_id) {
        Some(sp) => sp,
        None => return Err(unexpected(s, s, file_id, Expected::Semicolon)),
    };
    Ok((Import { path, span, resolved: None }, s + 1))
}

/// A declaration whose keyword ends at `after_kw`; returns it and the offset
/// after its `;`. The names it uses are the words after its first `=` that
/// do not start with a digit.
fn parse_decl(source: &str, b: &[u8], file_id: FileId, start: usize, after_kw: usize) -> (r:
    Result<(Decl, usize), Error>)
    requires
        b@ == bytes_of(source@),
        start < after_kw <= b@.len(),
    ensures
        r matches Ok((decl, next)) ==> decl_in(decl, file_id, b@) && after_kw < next <= b@.len(),
        r matches Err(e) ==> e.spec_span().file_id == Some(file_id) && e is Unexpected,
        match decl_from(b@, start as int, after_kw as int, file_id) {
            Ok((at, next)) => r matches Ok((decl, n)) && decl_at(decl) == at && n == next,
            Err(e) => r == Err::<(Decl, usize), Error>(e),
        },
{
    proof {
        lemma_scans(b@, after_kw as int);
    }
    let k = skip_space(b, after_kw);
    proof {
        lemma_scans(b@, k as int);
    }
    let n = scan_word(b, k);
    if n == k || digit(b[k]) {
        return Err(unexpected(k, n, file_id, Expected::Name));
    }
    let name = match ident_at(source, k, n, file_id) {
        Some(id) => id,
        None => return Err(unexpected(k, n, file_id, Expected::Name)),
    };
    let mut uses: Vec<Ident> = Vec::new();
    let mut after_eq = false;
    let mut p = n;
    loop
        invariant
            b@ == bytes_of(source@),
            n <= p <= b@.len(),
            k as int == skip_space_from(b@, after_kw as int),
            n as int == word_end_from(b@, k as int),
            !(n == k || is_digit(b@[k as int]) || !range_fits(k as int, n as int, b@)),
            forall|m: int| 0 <= m < uses@.len() ==> ident_in(#[trigger] uses@[m], file_id, b@),
            uses_from(b@, n as int, false, file_id) == with_uses(
                uses@.map_values(|u: Ident| (u.span.start as int, u.span.end as int)),
                uses_from(b@, p as int, after_eq, file_id),
            ),
        ensures
            p < b@.len(),
            b@[p as int] == SEMICOLON,
            uses_from(b@, n as int, false, file_id) == Ok::<(Seq<(int, int)>, int), Error>(
                (uses@.map_values(|u: Ident| (u.span.start as int, u.span.end as int)), p as int),
            ),
        decreases b@.len() - p,
    {
        if p == b.len() {
            assert(uses_from(b@, p as int, after_eq, file_id) == Err::<(Seq<(int, int)>, int), Error>(
                error_at(p as int, p as int, file_id, Expected::Semicolon),
            ));
            return Err(unexpected(p, p, file_id, Expected::Semicolon));
        }
        let c = b[p];
        if c == SEMICOLON {
            break;
        }
        if word_byte(c) {
            proof {
                lemma_scans(b@, p as int);
            }
            let q = scan_word(b, p);
            let ghost before = uses@;
            if after_eq && !digit(c) {
                match ident_at(source, p, q, file_id) {
                    Some(id) => uses.push(id),
                    None => {
                        assert(uses_from(b@, p as int, after_eq, file_id) == Err::<
                            (Seq<(int, int)>, int),
                            Error,
                        >(error_at(p as int, q as int, file_id, Expected::Semicolon)));
                        return Err(unexpected(p, q, file_id, Expected::Semicolon));
                    },
                }
            }
            proof {
                let m = |u: Ident| (u.span.start as int, u.span.end as int);
                let rest = uses_from(b@, q as int, after_eq, file_id);
                if after_eq && !is_digit(c) {
                    assert(uses@.map_values(m) =~= before.map_values(m) + seq![(p as int, q as int)]);
                    assert(uses_from(b@, p as int, after_eq, file_id) == with_uses(
                        seq![(p as int, q as int)],
                        rest,
                    ));
                    lemma_with_uses_join(before.map_values(m), seq![(p as int, q as int)], rest);
                } else {
                    assert(uses@.map_values(m) =~= before.map_values(m));
                    assert(uses_from(b@, p as int, after_eq, file_id) == rest);
                }
            }
            p = q;
        } else {
            if c == EQUALS {
                after_eq = true;
            }
            p += 1;
        }
    }
    let span = match span_at(source, start, p + 1, file_id) {
        Some(sp) => sp,
        None => return Err(unexpected(p, p, file_id, Expected::Semicolon)),
    };
    Ok((Decl { name, uses, span }, p + 1))
}

/// `found` followed by what `rest` finds.
pub open spec fn with_uses(
    found: Seq<(int, int)>,
    rest: Result<(Seq<(int, int)>, int), Error>,
) -> Result<(Seq<(int, int)>, int), Error> {
    match rest {
        Ok((more, end)) => Ok((found + more, end)),
        Err(e) => Err(e),
    }
}

proof fn lemma_with_uses_join(
    found: Seq<(int, int)>,
    more: Seq<(int, int)>,
    rest: Result<(Seq<(int, int)>, int), Error>,
)
    ensures
        with_uses(found, with_uses(more, rest)) == with_uses(found + more, rest),
{
    if let Ok((tail, end)) = rest {
        assert(found + (more + tail) =~= (found + more) + tail);
    }
}

/// `ds` and `is` followed by what `rest` finds.
pub open spec fn with_items(
    ds: Seq<DeclAt>,
    is: Seq<ImportAt>,
    rest: Result<(Seq<DeclAt>, Seq<ImportAt>), Error>,
) -> Result<(Seq<DeclAt>, Seq<ImportAt>), Error> {
    match rest {
        Ok((more_ds, more_is)) => Ok((ds + more_ds, is + more_is)),
        Err(e) => Err(e),
    }
}

proof fn lemma_with_items_join(
    ds: Seq<DeclAt>,
    is: Seq<ImportAt>,
    d: Seq<DeclAt>,
    i: Seq<ImportAt>,
    rest: Result<(Seq<DeclAt>, Seq<ImportAt>), Error>,
)
    ensures
        with_items(ds, is, with_items(d, i, rest)) == with_items(ds + d, is + i, rest),
{
    if let Ok((a, c)) = rest {
        assert(ds + (d + a) =~= (ds + d) + a);
        assert(is + (i + c) =~= (is + i) + c);
    }
}

proof fn lemma_with_items_err(ds: Seq<DeclAt>, is: Seq<ImportAt>, e: Error)
    ensures
        with_items(ds, is, Err(e)) == Err::<(Seq<DeclAt>, Seq<ImportAt>), Error>(e),
{
}

/// A call that appended to a unit holding `decls` and `imports`, giving
/// `unit` and `r`, did what `parsed` says: on success the appended items are
/// exactly the parsed ones, and on a syntax error that error is returned.
pub open spec fn parsed_as(
    parsed: Result<(Seq<DeclAt>, Seq<ImportAt>), Error>,
    decls: Seq<Decl>,
    imports: Seq<Import>,
    unit: TranslationUnit,
    r: Result<(), Error>,
) -> bool {
    match parsed {
        Ok((ds, is)) => {
            &&& r is Ok
            &&& unit.decls@.subrange(decls.len() as int, unit.decls@.len() as int).map_values(
                |d: Decl| decl_at(d),
            ) == ds
            &&& unit.imports@.subrange(imports.len() as int, unit.imports@.len() as int).map_values(
                |m: Import| import_at(m),
            ) == is
        },
        Err(e) => r == Err::<(), Error>(e),
    }
}

/// Turns the text of one file into declarations and import directives.
pub struct Parser {}

impl Parser {
    pub fn new() -> (r: Parser) {
        Parser {}
    }

    /// Parse `source`, the text of file `file_id`, appending its
    /// declarations and import directives to `unit`. A file is a sequence of
    /// `import "path";` directives and declarations `keyword name ... ;`
    /// whose keyword is one of `fn`, `var`, `let`, `const`, `alias`,
    /// `struct`, `override`.
    pub fn parse(&mut self, unit: &mut TranslationUnit, source: &str, file_id: FileId) -> (r:
        Result<(), Error>)
        ensures
            final(unit).decls@.len() >= old(unit).decls@.len(),
            final(unit).decls@.subrange(0, old(unit).decls@.len() as int) == old(unit).decls@,
            final(unit).imports@.len() >= old(unit).imports@.len(),
            final(unit).imports@.subrange(0, old(unit).imports@.len() as int)
                == old(unit).imports@,
            final(unit).files@ == old(unit).files@,
            forall|k: int|
                old(unit).decls@.len() <= k < final(unit).decls@.len() ==> decl_in(
                    #[trigger] final(unit).decls@[k],
                    file_id,
                    bytes_of(source@),
                ),
            forall|k: int|
                old(unit).imports@.len() <= k < final(unit).imports@.len() ==> import_in(
                    #[trigger] final(unit).imports@[k],
                    file_id,
                    bytes_of(source@),
                ),
            r matches Err(e) ==> e.spec_span().file_id == Some(file_id) && e is Unexpected,
            parsed_as(
                items_from(bytes_of(source@), 0, file_id),
                old(unit).decls@,
                old(unit).imports@,
                *final(unit),
                r,
            ),
    {
        let b = source.as_bytes();
        let ghost d0 = old(unit).decls@;
        let ghost i0 = old(unit).imports@;
        let mut i: usize = 0;
        loop
            invariant
                b@ == bytes_of(source@),
                i <= b@.len(),
                unit.decls@.len() >= d0.len(),
                unit.decls@.subrange(0, d0.len() as int) == d0,
                unit.imports@.len() >= i0.len(),
                unit.imports@.subrange(0, i0.len() as int) == i0,
                unit.files@ == old(unit).files@,
                d0 == old(unit).decls@,
                i0 == old(unit).imports@,
                forall|k: int|
                    d0.len() <= k < unit.decls@.len() ==> decl_in(
                        #[trigger] unit.decls@[k],
                        file_id,
                        b@,
                    ),
                forall|k: int|
                    i0.len() <= k < unit.imports@.len() ==> import_in(
                        #[trigger] unit.imports@[k],
                        file_id,
                        b@,
                    ),
                items_from(b@, 0, file_id) == with_items(
                    unit.decls@.subrange(d0.len() as int, unit.decls@.len() as int).map_values(
                        |d: Decl| decl_at(d),
                    ),
                    unit.imports@.subrange(i0.len() as int, unit.imports@.len() as int).map_values(
                        |m: Import| import_at(m),
                    ),
                    items_from(b@, i as int, file_id),
                ),
            ensures
                i == b@.len(),
            decreases b@.len() - i,
        {
            let ghost here = i as int;
            let ghost ds = unit.decls@.subrange(d0.len() as int, unit.decls@.len() as int).map_values(
                |d: Decl| decl_at(d),
            );
            let ghost is = unit.imports@.subrange(i0.len() as int, unit.imports@.len() as int).map_values(
                |m: Import| import_at(m),
            );
            proof {
                lemma_scans(b@, here);
            }
            i = skip_space(b, i);
            if i == b.len() {
                assert(items_from(b@, here, file_id) == Ok::<(Seq<DeclAt>, Seq<ImportAt>), Error>(
                    (seq![], seq![]),
                ));
                assert(ds + seq![] =~= ds);
                assert(is + seq![] =~= is);
                break;
            }
            let start = i;
            let j = scan_word(b, i);
            if j == i {
                proof {
                    lemma_with_items_err(ds, is, error_at(i as int, i as int, file_id, Expected::Item));
                }
                return Err(unexpected(i, i, file_id, Expected::Item));
            }
            if word_is(b, i, j, &vec![105, 109, 112, 111, 114, 116] /* import */) {
                assert(spells(b@, start as int, j as int, import_word()));
                match parse_import(source, b, file_id, start, j) {
                    Ok((import, next)) => {
                        let ghost at = import_at(import);
                        unit.imports.push(import);
                        assert(unit.imports@.subrange(0, i0.len() as int) =~= i0);
                        proof {
                            let new_is = unit.imports@.subrange(i0.len() as int, unit.imports@.len() as int).map_values(
                                |m: Import| import_at(m),
                            );
                            assert(new_is =~= is + seq![at]);
                            assert(unit.decls@.subrange(d0.len() as int, unit.decls@.len() as int).map_values(
                                |d: Decl| decl_at(d),
                            ) == ds);
                            lemma_with_items_join(ds, is, seq![], seq![at], items_from(b@, next as int, file_id));
                            assert(ds + seq![] =~= ds);
                        }
                        i = next;
                    },
                    Err(e) => {
                        proof {
                            lemma_with_items_err(ds, is, e);
                        }
                        return Err(e);
                    },
                }
            } else if is_decl_keyword(b, i, j) {
                assert(!spells(b@, start as int, j as int, import_word()));
                match parse_decl(source, b, file_id, start, j) {
                    Ok((decl, next)) => {
                        let ghost at = decl_at(decl);
                        unit.decls.push(decl);
                        assert(unit.decls@.subrange(0, d0.len() as int) =~= d0);
                        proof {
                            let new_ds = unit.decls@.subrange(d0.len() as int, unit.decls@.len() as int).map_values(
                                |d: Decl| decl_at(d),
                            );
                            assert(new_ds =~= ds + seq![at]);
                            assert(unit.imports@.subrange(i0.len() as int, unit.imports@.len() as int).map_values(
                                |m: Import| import_at(m),
                            ) == is);
                            lemma_with_items_join(ds, is, seq![at], seq![], items_from(b@, next as int, file_id));
                            assert(is + seq![] =~= is);
                        }
                        i = next;
                    },
                    Err(e) => {
                        proof {
                            lemma_with_items_err(ds, is, e);
                        }
                        return Err(e);
                    },
                }
            } else {
                assert(!spells(b@, start as int, j as int, import_word()));
                proof {
                    lemma_with_items_err(ds, is, error_at(i as int, j as int, file_id, Expected::Item));
                }
                return Err(unexpected(i, j, file_id, Expected::Item));
            }
        }
        proof {
            let ds = unit.decls@.subrange(d0.len() as int, unit.decls@.len() as int).map_values(
                |d: Decl| decl_at(d),
            );
            let is = unit.imports@.subrange(i0.len() as int, unit.imports@.len() as int).map_values(
                |m: Import| import_at(m),
            );
            assert(items_from(b@, i as int, file_id) == Ok::<(Seq<DeclAt>, Seq<ImportAt>), Error>(
                (seq![], seq![]),
            ));
            assert(ds + seq![] =~= ds);
            assert(is + seq![] =~= is);
        }
        Ok(())
    }
}

} // verus!
