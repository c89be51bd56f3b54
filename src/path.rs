use vstd::prelude::*;

verus! {

/// The index of the last `'/'` among the first `n` characters of `p`, or -1.
pub open spec fn last_slash(p: Seq<char>, n: nat) -> int
    decreases n,
{
    if n == 0 {
        -1
    } else if p[n - 1] == '/' {
        n - 1
    } else {
        last_slash(p, (n - 1) as nat)
    }
}

/// The directory holding `p`: what precedes its last `'/'` (`"/"` for a file
/// at the root, `""` for a bare name). The empty path and the root have none.
/// Paths are taken as written: a trailing `'/'` is not dropped first, so
/// `"a/b/"` has the directory `"a/b"` (where `std::path::Path::parent` would
/// give `"a"`); import paths name files, so such a path never names one.
pub open spec fn parent_of(p: Seq<char>) -> Option<Seq<char>> {
    let k = last_slash(p, p.len());
    if p.len() == 0 || p == seq!['/'] {
        None
    } else if k < 0 {
        Some(Seq::empty())
    } else if k == 0 {
        Some(seq!['/'])
    } else {
        Some(p.subrange(0, k))
    }
}

/// `raw` taken relative to the directory `dir`; an absolute `raw` stands as
/// it is.
pub open spec fn join_of(dir: Seq<char>, raw: Seq<char>) -> Seq<char> {
    if raw.len() > 0 && raw[0] == '/' {
        raw
    } else if dir.len() == 0 {
        raw
    } else if dir[dir.len() - 1] == '/' {
        dir + raw
    } else {
        dir + seq!['/'] + raw
    }
}

/// The path an import of `raw` written in the file at `importer` refers to.
pub open spec fn resolve_of(importer: Seq<char>, raw: Seq<char>) -> Option<Seq<char>> {
    match parent_of(importer) {
        Some(dir) => Some(join_of(dir, raw)),
        None => None,
    }
}

proof fn lemma_last_slash(p: Seq<char>, n: nat)
    requires
        n <= p.len(),
    ensures
        -1 <= last_slash(p, n) < n,
        last_slash(p, n) >= 0 ==> p[last_slash(p, n)] == '/',
        forall|i: int| last_slash(p, n) < i < n ==> p[i] != '/',
    decreases n,
{
    if n > 0 {
        lemma_last_slash(p, (n - 1) as nat);
    }
}

/// The directory holding `path`, if it has one.
pub fn parent_path(path: &str) -> (r: Option<String>)
    ensures
        r matches Some(d) ==> parent_of(path@) == Some(d@),
        r is None ==> parent_of(path@) is None,
{
    let n = path.unicode_len();
    let mut k = n;
    while k > 0 && path.get_char(k - 1) != '/'
        invariant
            k <= n == path@.len(),
            forall|i: int| k <= i < n ==> path@[i] != '/',
        decreases k,
    {
        k -= 1;
    }
    proof {
        lemma_last_slash(path@, n as nat);
        let l = last_slash(path@, n as nat);
        if k > 0 {
            assert(path@[k - 1] == '/');
            assert(l >= k - 1);
        }
        assert(l == k - 1);
        reveal_strlit("/");
    }
    if n == 0 {
        None
    } else if k == 0 {
        Some(String::new())
    } else if k == 1 {
        if n == 1 {
            assert(path@ =~= seq!['/']);
            None
        } else {
            assert(path@ != seq!['/']);
            Some("/".to_owned())
        }
    } else {
        assert(path@ != seq!['/']);
        Some(path.substring_char(0, k - 1).to_owned())
    }
}

/// `raw` taken relative to the directory `dir`.
pub fn join_path(dir: &str, raw: &str) -> (r: String)
    ensures
        r@ == join_of(dir@, raw@),
{
    let raw_len = raw.unicode_len();
    let dir_len = dir.unicode_len();
    proof {
        reveal_strlit("/");
    }
    if raw_len > 0 && raw.get_char(0) == '/' {
        raw.to_owned()
    } else if dir_len == 0 {
        raw.to_owned()
    } else if dir.get_char(dir_len - 1) == '/' {
        dir.to_owned().concat(raw)
    } else {
        let with_slash = dir.to_owned().concat("/");
        assert(with_slash@ == dir@ + seq!['/']);
        with_slash.concat(raw)
    }
}

} // verus!
