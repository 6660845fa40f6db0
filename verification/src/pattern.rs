//! Canonical form of a user-written path pattern.

use vstd::prelude::*;
use crate::text::{
    chars_of, is_space, lemma_trim_end_concat, lemma_trim_end_prefix, lemma_trim_shape,
    lemma_trim_start_suffix, string_of, trim_bounds,
    trim_end_spec, trim_spec, trim_start_spec,
};

verus! {

/// `s` with every backslash turned into a forward slash.
pub open spec fn unbackslash(s: Seq<char>) -> Seq<char> {
    Seq::new(s.len(), |i: int| if s[i] == '\\' { '/' } else { s[i] })
}

/// `s` without any number of leading `./`.
pub open spec fn strip_dot_slash(s: Seq<char>) -> Seq<char>
    decreases s.len(),
{
    if s.len() >= 2 && s[0] == '.' && s[1] == '/' {
        strip_dot_slash(s.subrange(2, s.len() as int))
    } else {
        s
    }
}

/// `s` without one leading `/`.
pub open spec fn strip_root(s: Seq<char>) -> Seq<char> {
    if s.len() > 0 && s[0] == '/' {
        s.drop_first()
    } else {
        s
    }
}

/// What is left of a raw pattern once white space, backslashes, leading `./`
/// and one leading `/` are dealt with.
pub open spec fn stem(raw: Seq<char>) -> Seq<char> {
    strip_root(strip_dot_slash(unbackslash(trim_spec(raw))))
}

/// A directory reference `dir/` becomes `dir/**`.
pub open spec fn expand_dir(s: Seq<char>) -> Seq<char> {
    if s.len() > 0 && s.last() == '/' {
        s.drop_last() + seq!['/', '*', '*']
    } else {
        s
    }
}

/// A pattern without any `/` matches at every depth.
pub open spec fn anchor(s: Seq<char>) -> Seq<char> {
    if s.contains('/') {
        s
    } else {
        seq!['*', '*', '/'] + s
    }
}

/// The canonical glob of a raw pattern.
pub open spec fn normalize_spec(raw: Seq<char>) -> Seq<char> {
    if trim_spec(raw).len() == 0 {
        Seq::<char>::empty()
    } else if stem(raw) =~= seq!['/'] {
        seq!['*', '*']
    } else {
        anchor(expand_dir(stem(raw)))
    }
}

/// A nonempty glob that normalization leaves as it is.
pub open spec fn is_canonical(s: Seq<char>) -> bool {
    &&& s.len() > 0
    &&& !s.contains('\\')
    &&& !is_space(s[0])
    &&& !is_space(s.last())
    &&& s[0] != '/'
    &&& !(s.len() >= 2 && s[0] == '.' && s[1] == '/')
    &&& s.last() != '/'
    &&& s.contains('/')
}

/// The raw patterns whose canonical form is canonical again.
pub open spec fn settles(raw: Seq<char>) -> bool {
    let s = stem(raw);
    &&& trim_spec(raw).len() > 0
    &&& s.len() > 0
    &&& !(s =~= seq!['/'])
    &&& s.contains('/') ==> !is_space(s[0]) && s[0] != '/' && !(s.len() >= 2 && s[0] == '.' && s[1]
        == '/')
}

/// Skipping a leading run of `./` pairs does not change what stripping gives.
pub proof fn lemma_strip_dot_slash_skip(s: Seq<char>, k: int)
    requires
        0 <= k <= s.len(),
        k % 2 == 0,
        forall|i: int| 0 <= i < k ==> #[trigger] s[i] == (if i % 2 == 0 { '.' } else { '/' }),
    ensures
        strip_dot_slash(s) == strip_dot_slash(s.subrange(k, s.len() as int)),
    decreases k,
{
    if k == 0 {
        assert(s.subrange(0, s.len() as int) =~= s);
    } else {
        assert(s[0] == '.');
        assert(s[1] == '/');
        let t = s.subrange(2, s.len() as int);
        assert forall|i: int| 0 <= i < k - 2 implies #[trigger] t[i] == (if i % 2 == 0 {
            '.'
        } else {
            '/'
        }) by {
            assert(t[i] == s[i + 2]);
        }
        lemma_strip_dot_slash_skip(t, k - 2);
        assert(t.subrange(k - 2, t.len() as int) =~= s.subrange(k, s.len() as int));
    }
}

/// Whether `v[from..]` holds a `/`.
fn has_slash(v: &Vec<char>, from: usize) -> (b: bool)
    requires
        from <= v@.len(),
    ensures
        b == v@.subrange(from as int, v@.len() as int).contains('/'),
{
    let ghost s = v@.subrange(from as int, v@.len() as int);
    let mut i: usize = from;
    while i < v.len()
        invariant
            from <= i <= v@.len(),
            s == v@.subrange(from as int, v@.len() as int),
            forall|j: int| 0 <= j < i - from ==> s[j] != '/',
        decreases v@.len() - i,
    {
        if v[i] == '/' {
            assert(s[i - from] == '/');
            return true;
        }
        i += 1;
    }
    false
}

/// Rewrites a user-written pattern into its canonical glob: trims it, turns
/// backslashes into slashes, drops leading `./` and one leading `/`, expands a
/// trailing `/` to `/**`, and lets a pattern without `/` match at any depth.
pub fn normalize_pattern(pat: &str) -> (res: String)
    ensures
        res@ == normalize_spec(pat@),
{
    let raw = chars_of(pat);
    let (lo, hi) = trim_bounds(&raw, 0, raw.len());
    assert(raw@.subrange(0, raw@.len() as int) =~= raw@);
    if lo == hi {
        return String::new();
    }
    let mut v: Vec<char> = Vec::new();
    let mut i: usize = lo;
    while i < hi
        invariant
            lo <= i <= hi <= raw@.len(),
            v@ == unbackslash(raw@.subrange(lo as int, i as int)),
        decreases hi - i,
    {
        let c = raw[i];
        v.push(if c == '\\' { '/' } else { c });
        i += 1;
        assert(v@ =~= unbackslash(raw@.subrange(lo as int, i as int)));
    }
    let n: usize = v.len();
    let mut k: usize = 0;
    while k + 1 < n && v[k] == '.' && v[k + 1] == '/'
        invariant
            n == v@.len(),
            k <= n,
            k % 2 == 0,
            forall|i: int| 0 <= i < k ==> #[trigger] v@[i] == (if i % 2 == 0 { '.' } else { '/' }),
        decreases n - k,
    {
        k += 2;
    }
    proof {
        lemma_strip_dot_slash_skip(v@, k as int);
    }
    assert(strip_dot_slash(v@) == v@.subrange(k as int, n as int));
    if k < n && v[k] == '/' {
        assert(v@.subrange(k as int, n as int).drop_first() =~= v@.subrange(k + 1, n as int));
        k += 1;
    }
    let ghost s = v@.subrange(k as int, n as int);
    assert(s == stem(pat@));
    if k < n && v[n - 1] == '/' {
        if n - k == 1 {
            assert(s =~= seq!['/']);
            let mut out = String::new();
            out.push('*');
            out.push('*');
            assert(out@ =~= seq!['*', '*']);
            return out;
        }
        let mut out = string_of(&v, k, n - 1);
        out.push('/');
        out.push('*');
        out.push('*');
        proof {
            assert(v@.subrange(k as int, n - 1) =~= s.drop_last());
            assert(out@ =~= expand_dir(s));
            assert(out@[out@.len() - 3] == '/');
            assert(out@.contains('/'));
        }
        return out;
    }
    assert(expand_dir(s) == s);
    if has_slash(&v, k) {
        string_of(&v, k, n)
    } else {
        let mut out = String::new();
        out.push('*');
        out.push('*');
        out.push('/');
        let mut j: usize = k;
        while j < n
            invariant
                k <= j <= n,
                n == v@.len(),
                out@ == seq!['*', '*', '/'] + v@.subrange(k as int, j as int),
            decreases n - j,
        {
            out.push(v[j]);
            j += 1;
            assert(out@ =~= seq!['*', '*', '/'] + v@.subrange(k as int, j as int));
        }
        out
    }
}

/// A canonical glob is a fixed point of normalization.
pub proof fn lemma_canonical_is_fixed(s: Seq<char>)
    requires
        is_canonical(s),
    ensures
        normalize_spec(s) == s,
{
    assert(trim_start_spec(s) == s);
    assert(trim_end_spec(s) == s);
    assert(unbackslash(s) =~= s) by {
        assert forall|i: int| 0 <= i < s.len() implies s[i] != '\\' by {
            if s[i] == '\\' {
                assert(s.contains('\\'));
            }
        }
    }
    assert(strip_dot_slash(s) == s);
    assert(stem(s) == s);
}

/// The canonical form of a pattern that settles is canonical.
pub proof fn lemma_settled_is_canonical(raw: Seq<char>)
    requires
        settles(raw),
    ensures
        is_canonical(normalize_spec(raw)),
{
    let t = trim_spec(raw);
    lemma_trim_shape(raw);
    let u = unbackslash(t);
    lemma_strip_dot_slash_suffix(u);
    let d = strip_dot_slash(u);
    let s = stem(raw);
    let e = expand_dir(s);
    let n = normalize_spec(raw);
    // No backslash survives, and the last character of the stem is the last of
    // the trimmed pattern.
    assert(!s.contains('\\')) by {
        assert forall|i: int| 0 <= i < s.len() implies s[i] != '\\' by {
            assert(s[i] == u[i + (u.len() - s.len())]);
        }
    }
    assert(s.last() == u.last());
    assert(!is_space(s.last()));
    if s.last() == '/' {
        let x = s.drop_last();
        assert(e =~= x + seq!['/', '*', '*']);
        assert(e[e.len() - 3] == '/');
        assert(e.contains('/'));
        assert(n == e);
        assert(e[0] == s[0]);
        assert(s.contains('/'));
        assert(e.len() >= 2 ==> e[1] == if s.len() >= 3 { s[1] } else { '/' });
        assert(!n.contains('\\')) by {
            assert forall|i: int| 0 <= i < e.len() implies e[i] != '\\' by {
                if i < x.len() {
                    assert(e[i] == s[i]);
                }
            }
        }
        if s.len() == 2 {
            assert(s[1] == '/');
            assert(s[0] != '.');
        }
    } else if s.contains('/') {
        assert(n == s);
    } else {
        assert(n =~= seq!['*', '*', '/'] + s);
        assert(n[2] == '/');
        assert(n.contains('/'));
        assert(n.last() == s.last());
        assert(!n.contains('\\')) by {
            assert forall|i: int| 0 <= i < n.len() implies n[i] != '\\' by {
                if i >= 3 {
                    assert(n[i] == s[i - 3]);
                }
            }
        }
    }
}

/// Stripping leading `./` leaves a suffix.
pub proof fn lemma_strip_dot_slash_suffix(s: Seq<char>)
    ensures
        strip_dot_slash(s).len() <= s.len(),
        strip_dot_slash(s) == s.subrange(s.len() - strip_dot_slash(s).len(), s.len() as int),
        !(strip_dot_slash(s).len() >= 2 && strip_dot_slash(s)[0] == '.' && strip_dot_slash(s)[1]
            == '/'),
    decreases s.len(),
{
    if s.len() >= 2 && s[0] == '.' && s[1] == '/' {
        let t = s.subrange(2, s.len() as int);
        lemma_strip_dot_slash_suffix(t);
        let r = strip_dot_slash(t);
        assert(t.subrange(t.len() - r.len(), t.len() as int) =~= s.subrange(
            s.len() - r.len(),
            s.len() as int,
        ));
    } else {
        assert(s.subrange(0, s.len() as int) =~= s);
    }
}

/// No backslash is left in a canonical glob.
pub proof fn lemma_no_backslash(raw: Seq<char>)
    ensures
        !normalize_spec(raw).contains('\\'),
{
    let t = trim_spec(raw);
    let u = unbackslash(t);
    lemma_strip_dot_slash_suffix(u);
    let s = stem(raw);
    let e = expand_dir(s);
    let n = normalize_spec(raw);
    assert forall|i: int| 0 <= i < s.len() implies s[i] != '\\' by {
        assert(s[i] == u[i + (u.len() - s.len())]);
    }
    assert forall|i: int| 0 <= i < e.len() implies e[i] != '\\' by {
        if s.len() > 0 && s.last() == '/' {
            if i < s.len() - 1 {
                assert(e[i] == s[i]);
            }
        }
    }
    assert forall|i: int| 0 <= i < n.len() implies n[i] != '\\' by {
        if t.len() == 0 {
        } else if s =~= seq!['/'] {
        } else if e.contains('/') {
        } else {
            if i >= 3 {
                assert(n[i] == e[i - 3]);
            }
        }
    }
}

/// A pattern has an empty canonical form exactly when it is blank.
pub proof fn lemma_empty_iff_blank(raw: Seq<char>)
    ensures
        normalize_spec(raw).len() == 0 <==> trim_spec(raw).len() == 0,
{
    let e = expand_dir(stem(raw));
    if trim_spec(raw).len() > 0 && !(stem(raw) =~= seq!['/']) {
        if e.contains('/') {
            let i = choose|i: int| 0 <= i < e.len() && e[i] == '/';
        }
    }
}

/// A nonempty fixed point of normalization is a canonical glob.
pub proof fn lemma_fixed_is_canonical(n: Seq<char>)
    requires
        n.len() > 0,
        normalize_spec(n) == n,
    ensures
        is_canonical(n),
{
    let ts = trim_start_spec(n);
    let t = trim_spec(n);
    let u = unbackslash(t);
    let d = strip_dot_slash(u);
    let s = stem(n);
    let e = expand_dir(s);
    let star = '*';
    lemma_no_backslash(n);
    lemma_trim_start_suffix(n);
    lemma_trim_end_prefix(ts);
    lemma_trim_shape(n);
    lemma_strip_dot_slash_suffix(u);
    assert(!is_space(star) && !is_space('/'));
    assert(t.len() > 0);
    assert forall|i: int| 0 <= i < t.len() implies t[i] != '\\' by {
        assert(t[i] == n[i + (n.len() - ts.len())]);
    }
    assert(u =~= t);
    assert(s.len() > 0 ==> s.last() == t.last());
    // Where both ends of `n` are free of white space, trimming changes nothing.
    if !is_space(n[0]) && !is_space(n.last()) {
        assert(ts == n);
        assert(t == n);
    }
    // The shape of the result: what it starts and ends with.
    if s =~= seq!['/'] {
        assert(n =~= seq![star, star]);
        assert(t == n);
        assert(false);
    }
    if !e.contains('/') {
        assert(e == s);
        assert(n =~= seq![star, star, '/'] + s);
        assert(n[0] == star && n[2] == '/');
        assert(n.last() == if s.len() > 0 { s.last() } else { '/' });
        assert(t == n);
        assert(d == n);
        assert(s == n);
        assert(false);
    }
    assert(n == e);
    if s.len() > 0 && s.last() == '/' {
        assert(e =~= s.drop_last() + seq!['/', star, star]);
        assert(n.last() == star);
        assert(ts.len() > 0 && ts.last() == n.last());
        assert(t == ts);
        assert(t.last() == star);
        assert(false);
    }
    assert(n == s);
    assert(s.len() <= d.len() <= t.len() <= ts.len() <= n.len());
    assert(ts == n && t == n && d == n);
    assert(n.contains('/'));
}

/// The canonical form of a pattern that is not blank is canonical only where
/// the pattern settles.
pub proof fn lemma_canonical_is_settled(raw: Seq<char>)
    requires
        trim_spec(raw).len() > 0,
        is_canonical(normalize_spec(raw)),
    ensures
        settles(raw),
{
    let s = stem(raw);
    let e = expand_dir(s);
    let n = normalize_spec(raw);
    let star = '*';
    if s.len() == 0 {
        assert(!e.contains('/'));
        assert(n =~= seq![star, star, '/']);
        assert(n.last() == '/');
    } else if s =~= seq!['/'] {
        assert(n =~= seq![star, star]);
        if n.contains('/') {
            let i = choose|i: int| 0 <= i < n.len() && n[i] == '/';
            assert(n[i] == star);
        }
    } else if s.contains('/') {
        let i = choose|i: int| 0 <= i < s.len() && s[i] == '/';
        if s.last() == '/' {
            let x = s.drop_last();
            assert(e =~= x + seq!['/', star, star]);
            assert(e[e.len() - 3] == '/');
            assert(e[0] == s[0]);
            if s.len() >= 2 && s[0] == '.' && s[1] == '/' {
                assert(e[1] == '/');
            }
        }
        assert(e.contains('/'));
        assert(n == e);
    }
}

/// Idempotence: for a pattern whose canonical form is not empty, normalizing
/// twice gives what normalizing once gives exactly where the pattern settles.
pub proof fn lemma_normalize_idempotent(raw: Seq<char>)
    requires
        normalize_spec(raw).len() > 0,
    ensures
        settles(raw) ==> normalize_spec(normalize_spec(raw)) == normalize_spec(raw),
        normalize_spec(normalize_spec(raw)) == normalize_spec(raw) ==> settles(raw),
{
    if settles(raw) {
        lemma_settled_is_canonical(raw);
        lemma_canonical_is_fixed(normalize_spec(raw));
    }
    if normalize_spec(normalize_spec(raw)) == normalize_spec(raw) {
        lemma_fixed_is_canonical(normalize_spec(raw));
        lemma_canonical_is_settled(raw);
    }
}

/// A pattern that starts with neither white space, a separator nor `./`.
pub open spec fn starts_plainly(p: Seq<char>) -> bool {
    &&& p.len() > 0
    &&& !is_space(p[0])
    &&& p[0] != '/'
    &&& p[0] != '\\'
    &&& !(p.len() >= 2 && p[0] == '.' && (p[1] == '/' || p[1] == '\\'))
}

/// The stem of a pattern that starts plainly is the pattern without trailing
/// white space, with slashes for backslashes.
pub proof fn lemma_plain_stem(p: Seq<char>)
    requires
        starts_plainly(p),
    ensures
        trim_spec(p) == trim_end_spec(p),
        trim_spec(p).len() > 0,
        stem(p) == unbackslash(trim_end_spec(p)),
{
    lemma_trim_end_concat(Seq::<char>::empty(), p);
    lemma_trim_end_prefix(p);
    let t = trim_end_spec(p);
    let u = unbackslash(t);
    assert(u[0] == p[0]);
    if t.len() >= 2 {
        assert(t[1] == p[1]);
    }
    assert(strip_dot_slash(u) == u);
}

/// Leading-slash equivalence: a pattern that starts plainly has the same
/// canonical form with a `/` in front of it.
pub proof fn lemma_leading_slash(p: Seq<char>)
    requires
        starts_plainly(p),
    ensures
        normalize_spec(seq!['/'] + p) == normalize_spec(p),
{
    let head = seq!['/'];
    let a = head + p;
    lemma_plain_stem(p);
    lemma_trim_end_concat(head, p);
    let t = trim_end_spec(p);
    assert(!is_space('/'));
    assert(trim_start_spec(a) == a);
    assert(trim_spec(a) == head + t);
    let ua = unbackslash(head + t);
    assert(ua =~= head + unbackslash(t));
    assert(strip_dot_slash(ua) == ua);
    assert(ua.drop_first() =~= unbackslash(t));
    assert(stem(a) == stem(p));
}

/// Trailing-slash equivalence: behind a pattern that starts plainly and is
/// not a lone `.`, a trailing `/` and a trailing `/**` give one canonical
/// form, the pattern followed by `/**`.
pub proof fn lemma_trailing_slash(p: Seq<char>)
    requires
        starts_plainly(p),
        !(p.len() == 1 && p[0] == '.'),
    ensures
        normalize_spec(p + seq!['/']) == unbackslash(p) + seq!['/', '*', '*'],
        normalize_spec(p + seq!['/', '*', '*']) == unbackslash(p) + seq!['/', '*', '*'],
{
    let star = '*';
    let a = p + seq!['/'];
    let b = p + seq!['/', star, star];
    let up = unbackslash(p);
    let want = up + seq!['/', star, star];
    assert(!is_space('/') && !is_space(star));
    assert(a[0] == p[0] && b[0] == p[0]);
    assert(a.last() == '/' && b.last() == star);
    assert(trim_start_spec(a) == a && trim_end_spec(a) == a);
    assert(trim_start_spec(b) == b && trim_end_spec(b) == b);
    let ua = unbackslash(a);
    let ub = unbackslash(b);
    assert(ua =~= up + seq!['/']);
    assert(ub =~= want);
    assert(ua[0] == p[0] && ub[0] == p[0]);
    if p.len() >= 2 {
        assert(ua[1] == up[1] && ub[1] == up[1]);
    }
    assert(strip_dot_slash(ua) == ua);
    assert(strip_dot_slash(ub) == ub);
    assert(stem(a) == ua);
    assert(stem(b) == ub);
    assert(ua.drop_last() =~= up);
    assert(expand_dir(ua) =~= want);
    assert(expand_dir(ub) == ub);
    assert(want[up.len() as int] == '/');
    assert(want.contains('/'));
}

} // verus!
