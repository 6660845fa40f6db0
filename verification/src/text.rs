//! Character-level helpers shared by the pattern and rule-document code.

use vstd::prelude::*;
use vstd::string::*;

verus! {

/// Appending one character to a `String` extends its view by that character.
pub assume_specification[ String::push ](s: &mut String, c: char)
    ensures
        final(s)@ == old(s)@.push(c),
;

/// The characters that carry the Unicode `White_Space` property.
pub open spec fn is_space(c: char) -> bool {
    let n = c as u32;
    ||| 0x09 <= n <= 0x0D
    ||| n == 0x20
    ||| n == 0x85
    ||| n == 0xA0
    ||| n == 0x1680
    ||| 0x2000 <= n <= 0x200A
    ||| n == 0x2028
    ||| n == 0x2029
    ||| n == 0x202F
    ||| n == 0x205F
    ||| n == 0x3000
}

pub fn is_whitespace(c: char) -> (b: bool)
    ensures
        b == is_space(c),
{
    let n: u32 = c as u32;
    (0x09 <= n && n <= 0x0D) || n == 0x20 || n == 0x85 || n == 0xA0 || n == 0x1680 || (0x2000 <= n
        && n <= 0x200A) || n == 0x2028 || n == 0x2029 || n == 0x202F || n == 0x205F || n == 0x3000
}

/// The characters of a string slice, in order.
pub fn chars_of(s: &str) -> (v: Vec<char>)
    ensures
        v@ == s@,
{
    let mut v: Vec<char> = Vec::new();
    for c in it: s.chars()
        invariant
            it.seq() == s@,
            v@ == s@.subrange(0, it.index() as int),
    {
        v.push(c);
        assert(v@ =~= s@.subrange(0, it.index() + 1));
    }
    assert(s@.subrange(0, s@.len() as int) =~= s@);
    v
}

/// A `String` holding the characters `v[from..to]`.
pub fn string_of(v: &Vec<char>, from: usize, to: usize) -> (s: String)
    requires
        from <= to <= v@.len(),
    ensures
        s@ == v@.subrange(from as int, to as int),
{
    let mut s = String::new();
    let mut i: usize = from;
    while i < to
        invariant
            from <= i <= to <= v@.len(),
            s@ == v@.subrange(from as int, i as int),
        decreases to - i,
    {
        s.push(v[i]);
        i += 1;
        assert(s@ =~= v@.subrange(from as int, i as int));
    }
    s
}

/// `s` without its leading white space.
pub open spec fn trim_start_spec(s: Seq<char>) -> Seq<char>
    decreases s.len(),
{
    if s.len() > 0 && is_space(s[0]) {
        trim_start_spec(s.drop_first())
    } else {
        s
    }
}

/// `s` without its trailing white space.
pub open spec fn trim_end_spec(s: Seq<char>) -> Seq<char>
    decreases s.len(),
{
    if s.len() > 0 && is_space(s.last()) {
        trim_end_spec(s.drop_last())
    } else {
        s
    }
}

/// `s` without surrounding white space.
pub open spec fn trim_spec(s: Seq<char>) -> Seq<char> {
    trim_end_spec(trim_start_spec(s))
}

/// Dropping `k` leading white-space characters does not change what trimming gives.
pub proof fn lemma_trim_start_skip(s: Seq<char>, k: int)
    requires
        0 <= k <= s.len(),
        forall|j: int| 0 <= j < k ==> is_space(#[trigger] s[j]),
    ensures
        trim_start_spec(s) == trim_start_spec(s.subrange(k, s.len() as int)),
    decreases k,
{
    if k == 0 {
        assert(s.subrange(0, s.len() as int) =~= s);
    } else {
        assert(is_space(s[0]));
        let t = s.drop_first();
        assert forall|j: int| 0 <= j < k - 1 implies is_space(#[trigger] t[j]) by {
            assert(t[j] == s[j + 1]);
        }
        lemma_trim_start_skip(t, k - 1);
        assert(t.subrange(k - 1, t.len() as int) =~= s.subrange(k, s.len() as int));
    }
}

/// Dropping trailing white-space characters does not change what trimming gives.
pub proof fn lemma_trim_end_skip(s: Seq<char>, k: int)
    requires
        0 <= k <= s.len(),
        forall|j: int| k <= j < s.len() ==> is_space(#[trigger] s[j]),
    ensures
        trim_end_spec(s) == trim_end_spec(s.subrange(0, k)),
    decreases s.len() - k,
{
    if k == s.len() {
        assert(s.subrange(0, k) =~= s);
    } else {
        assert(is_space(s.last()));
        let t = s.drop_last();
        assert forall|j: int| k <= j < t.len() implies is_space(#[trigger] t[j]) by {
            assert(t[j] == s[j]);
        }
        lemma_trim_end_skip(t, k);
        assert(t.subrange(0, k) =~= s.subrange(0, k));
    }
}

/// The bounds `(lo, hi)` of `v[from..to]` without its surrounding white space.
pub fn trim_bounds(v: &Vec<char>, from: usize, to: usize) -> (r: (usize, usize))
    requires
        from <= to <= v@.len(),
    ensures
        from <= r.0 <= r.1 <= to,
        v@.subrange(r.0 as int, r.1 as int) == trim_spec(v@.subrange(from as int, to as int)),
{
    let mut lo: usize = from;
    while lo < to && is_whitespace(v[lo])
        invariant
            from <= lo <= to <= v@.len(),
            forall|j: int| from <= j < lo ==> is_space(#[trigger] v@[j]),
        decreases to - lo,
    {
        lo += 1;
    }
    let mut hi: usize = to;
    while hi > lo && is_whitespace(v[hi - 1])
        invariant
            lo <= hi <= to <= v@.len(),
            forall|j: int| hi <= j < to ==> is_space(#[trigger] v@[j]),
        decreases hi,
    {
        hi -= 1;
    }
    proof {
        let s = v@.subrange(from as int, to as int);
        let a = s.subrange(lo - from, s.len() as int);
        lemma_trim_start_skip(s, lo - from);
        assert(a =~= v@.subrange(lo as int, to as int));
        assert(trim_start_spec(a) == a);
        lemma_trim_end_skip(a, hi - lo);
        let b = a.subrange(0, hi - lo);
        assert(b =~= v@.subrange(lo as int, hi as int));
        assert(trim_end_spec(b) == b);
    }
    (lo, hi)
}

/// A class of characters to look for.
pub enum CharClass {
    /// White space.
    Space,
    /// The given character.
    Exactly(char),
    /// Every character but the given one.
    Except(char),
}

impl CharClass {
    /// Whether `c` belongs to the class.
    pub open spec fn holds(self, c: char) -> bool {
        match self {
            CharClass::Space => is_space(c),
            CharClass::Exactly(x) => c == x,
            CharClass::Except(x) => c != x,
        }
    }
}

/// The index of the first character of `s` that belongs to `p`, or the length
/// of `s` where none does.
pub open spec fn index_where(s: Seq<char>, p: CharClass) -> nat
    decreases s.len(),
{
    if s.len() == 0 || p.holds(s[0]) {
        0
    } else {
        1 + index_where(s.drop_first(), p)
    }
}

/// `k` is the first index at which `p` holds, or the length.
pub proof fn lemma_index_where(s: Seq<char>, p: CharClass, k: int)
    requires
        0 <= k <= s.len(),
        forall|j: int| 0 <= j < k ==> !p.holds(#[trigger] s[j]),
        k < s.len() ==> p.holds(s[k]),
    ensures
        index_where(s, p) == k,
    decreases s.len(),
{
    if s.len() == 0 || p.holds(s[0]) {
        if k > 0 {
            assert(!p.holds(s[0]));
        }
    } else {
        let t = s.drop_first();
        assert forall|j: int| 0 <= j < k - 1 implies !p.holds(#[trigger] t[j]) by {
            assert(t[j] == s[j + 1]);
        }
        lemma_index_where(t, p, k - 1);
    }
}

/// The first index in `v[from..to]` that holds white space, or `to`.
pub fn find_space(v: &Vec<char>, from: usize, to: usize) -> (k: usize)
    requires
        from <= to <= v@.len(),
    ensures
        from <= k <= to,
        k - from == index_where(v@.subrange(from as int, to as int), CharClass::Space),
{
    let mut k: usize = from;
    while k < to && !is_whitespace(v[k])
        invariant
            from <= k <= to <= v@.len(),
            forall|j: int| from <= j < k ==> !is_space(#[trigger] v@[j]),
        decreases to - k,
    {
        k += 1;
    }
    proof {
        lemma_index_where(v@.subrange(from as int, to as int), CharClass::Space, k - from);
    }
    k
}

/// The first index in `v[from..to]` that holds the character `sep`, or `to`.
pub fn find_char(v: &Vec<char>, from: usize, to: usize, sep: char) -> (k: usize)
    requires
        from <= to <= v@.len(),
    ensures
        from <= k <= to,
        k - from == index_where(v@.subrange(from as int, to as int), CharClass::Exactly(sep)),
{
    let mut k: usize = from;
    while k < to && v[k] != sep
        invariant
            from <= k <= to <= v@.len(),
            forall|j: int| from <= j < k ==> #[trigger] v@[j] != sep,
        decreases to - k,
    {
        k += 1;
    }
    proof {
        lemma_index_where(v@.subrange(from as int, to as int), CharClass::Exactly(sep), k - from);
    }
    k
}

/// The lines of a document: the pieces between line feeds, without a last
/// empty piece.
pub open spec fn lines_spec(s: Seq<char>) -> Seq<Seq<char>>
    decreases s.len(),
{
    let k = index_where(s, CharClass::Exactly('\n'));
    if s.len() == 0 {
        Seq::<Seq<char>>::empty()
    } else if k >= s.len() {
        seq![s]
    } else {
        seq![s.subrange(0, k as int)] + lines_spec(s.subrange(k as int + 1, s.len() as int))
    }
}

/// Cuts the first line off `doc[pos..]`: it ends at `end`, and the rest of the
/// document starts at `next`.
pub fn next_line(doc: &Vec<char>, pos: usize) -> (r: (usize, usize))
    requires
        pos < doc@.len(),
    ensures
        pos <= r.0 <= doc@.len(),
        pos < r.1 <= doc@.len(),
        r.0 <= r.1,
        lines_spec(doc@.subrange(pos as int, doc@.len() as int)) == seq![
            doc@.subrange(pos as int, r.0 as int),
        ] + lines_spec(doc@.subrange(r.1 as int, doc@.len() as int)),
{
    let len: usize = doc.len();
    let end = find_char(doc, pos, len, '\n');
    let next: usize = if end < len { end + 1 } else { len };
    proof {
        let rest = doc@.subrange(pos as int, len as int);
        assert(rest.subrange(0, end - pos) =~= doc@.subrange(pos as int, end as int));
        if end < len {
            assert(rest.subrange(end - pos + 1, rest.len() as int) =~= doc@.subrange(
                next as int,
                len as int,
            ));
        } else {
            assert(rest =~= doc@.subrange(pos as int, end as int));
            assert(doc@.subrange(len as int, len as int) =~= Seq::<char>::empty());
            assert(lines_spec(doc@.subrange(len as int, len as int)) =~= Seq::<Seq<char>>::empty());
            assert(seq![rest] + Seq::<Seq<char>>::empty() =~= seq![rest]);
        }
    }
    (end, next)
}

/// `s` without its leading run of the character `c`.
pub open spec fn strip_leading(s: Seq<char>, c: char) -> Seq<char> {
    s.subrange(index_where(s, CharClass::Except(c)) as int, s.len() as int)
}

/// `s` without its trailing run of the character `c`.
pub open spec fn strip_trailing(s: Seq<char>, c: char) -> Seq<char>
    decreases s.len(),
{
    if s.len() > 0 && s.last() == c {
        strip_trailing(s.drop_last(), c)
    } else {
        s
    }
}

/// Dropping a trailing run of `c` does not change what stripping gives.
pub proof fn lemma_strip_trailing_skip(s: Seq<char>, c: char, k: int)
    requires
        0 <= k <= s.len(),
        forall|j: int| k <= j < s.len() ==> #[trigger] s[j] == c,
    ensures
        strip_trailing(s, c) == strip_trailing(s.subrange(0, k), c),
    decreases s.len() - k,
{
    if k == s.len() {
        assert(s.subrange(0, k) =~= s);
    } else {
        assert(s.last() == c);
        let t = s.drop_last();
        assert forall|j: int| k <= j < t.len() implies #[trigger] t[j] == c by {
            assert(t[j] == s[j]);
        }
        lemma_strip_trailing_skip(t, c, k);
        assert(t.subrange(0, k) =~= s.subrange(0, k));
    }
}

/// The bounds of `v[from..to]` without its leading and then its trailing run
/// of the character `c`.
pub fn strip_bounds(v: &Vec<char>, from: usize, to: usize, c: char) -> (r: (usize, usize))
    requires
        from <= to <= v@.len(),
    ensures
        from <= r.0 <= r.1 <= to,
        v@.subrange(r.0 as int, to as int) == strip_leading(v@.subrange(from as int, to as int), c),
        v@.subrange(r.0 as int, r.1 as int) == strip_trailing(
            strip_leading(v@.subrange(from as int, to as int), c),
            c,
        ),
{
    let mut lo: usize = from;
    while lo < to && v[lo] == c
        invariant
            from <= lo <= to <= v@.len(),
            forall|j: int| from <= j < lo ==> #[trigger] v@[j] == c,
        decreases to - lo,
    {
        lo += 1;
    }
    let mut hi: usize = to;
    while hi > lo && v[hi - 1] == c
        invariant
            lo <= hi <= to <= v@.len(),
            forall|j: int| hi <= j < to ==> #[trigger] v@[j] == c,
        decreases hi,
    {
        hi -= 1;
    }
    proof {
        let s = v@.subrange(from as int, to as int);
        lemma_index_where(s, CharClass::Except(c), lo - from);
        let a = strip_leading(s, c);
        assert(a =~= v@.subrange(lo as int, to as int));
        lemma_strip_trailing_skip(a, c, hi - lo);
        let b = a.subrange(0, hi - lo);
        assert(b =~= v@.subrange(lo as int, hi as int));
        assert(strip_trailing(b, c) == b);
    }
    (lo, hi)
}

/// The pieces of `s` between occurrences of `sep`; at least one piece.
pub open spec fn split_spec(s: Seq<char>, sep: char) -> Seq<Seq<char>>
    decreases s.len(),
{
    let k = index_where(s, CharClass::Exactly(sep)) as int;
    if 0 <= k < s.len() {
        seq![s.subrange(0, k)] + split_spec(s.subrange(k + 1, s.len() as int), sep)
    } else {
        seq![s]
    }
}

/// What trimming at the front leaves is a suffix, and a proper one where the
/// text starts with white space.
pub proof fn lemma_trim_start_suffix(s: Seq<char>)
    ensures
        trim_start_spec(s).len() <= s.len(),
        trim_start_spec(s) == s.subrange(s.len() - trim_start_spec(s).len(), s.len() as int),
        s.len() > 0 && is_space(s[0]) ==> trim_start_spec(s).len() < s.len(),
    decreases s.len(),
{
    if s.len() > 0 && is_space(s[0]) {
        let t = s.drop_first();
        lemma_trim_start_suffix(t);
        let r = trim_start_spec(t);
        assert(t.subrange(t.len() - r.len(), t.len() as int) =~= s.subrange(
            s.len() - r.len(),
            s.len() as int,
        ));
    } else {
        assert(s.subrange(0, s.len() as int) =~= s);
    }
}

/// What trimming at the end leaves is a prefix.
pub proof fn lemma_trim_end_prefix(s: Seq<char>)
    ensures
        trim_end_spec(s).len() <= s.len(),
        trim_end_spec(s) == s.subrange(0, trim_end_spec(s).len() as int),
    decreases s.len(),
{
    if s.len() > 0 && is_space(s.last()) {
        let t = s.drop_last();
        lemma_trim_end_prefix(t);
        let r = trim_end_spec(t);
        assert(t.subrange(0, r.len() as int) =~= s.subrange(0, r.len() as int));
    } else {
        assert(s.subrange(0, s.len() as int) =~= s);
    }
}

/// `index_where` stays within the text, passes over characters outside the
/// class only, and stops at one that belongs to it.
pub proof fn lemma_index_where_found(s: Seq<char>, p: CharClass)
    ensures
        index_where(s, p) <= s.len(),
        forall|j: int| 0 <= j < index_where(s, p) ==> !p.holds(#[trigger] s[j]),
        index_where(s, p) < s.len() ==> p.holds(s[index_where(s, p) as int]),
    decreases s.len(),
{
    if s.len() == 0 || p.holds(s[0]) {
    } else {
        let t = s.drop_first();
        lemma_index_where_found(t, p);
        assert forall|j: int| 0 <= j < index_where(s, p) implies !p.holds(#[trigger] s[j]) by {
            if j > 0 {
                assert(s[j] == t[j - 1]);
            }
        }
    }
}

/// Trimming at the end does not reach into what stands before a text that
/// starts with a character that is no white space.
pub proof fn lemma_trim_end_concat(head: Seq<char>, s: Seq<char>)
    requires
        s.len() > 0,
        !is_space(s[0]),
    ensures
        trim_end_spec(head + s) == head + trim_end_spec(s),
        trim_end_spec(s).len() > 0,
        trim_end_spec(s)[0] == s[0],
    decreases s.len(),
{
    if is_space(s.last()) {
        assert((head + s).last() == s.last());
        assert((head + s).drop_last() =~= head + s.drop_last());
        lemma_trim_end_concat(head, s.drop_last());
    } else {
        assert((head + s).last() == s.last());
    }
}

/// A nonempty trimmed text neither starts nor ends with white space.
pub proof fn lemma_trim_shape(raw: Seq<char>)
    ensures
        trim_spec(raw).len() > 0 ==> !is_space(trim_spec(raw)[0]) && !is_space(
            trim_spec(raw).last(),
        ),
{
    lemma_trim_start_shape(raw);
    lemma_trim_end_shape(trim_start_spec(raw));
}

proof fn lemma_trim_start_shape(s: Seq<char>)
    ensures
        trim_start_spec(s).len() > 0 ==> !is_space(trim_start_spec(s)[0]),
    decreases s.len(),
{
    if s.len() > 0 && is_space(s[0]) {
        lemma_trim_start_shape(s.drop_first());
    }
}

proof fn lemma_trim_end_shape(s: Seq<char>)
    ensures
        trim_end_spec(s).len() > 0 ==> !is_space(trim_end_spec(s).last()) && trim_end_spec(s)[0]
            == s[0],
    decreases s.len(),
{
    if s.len() > 0 && is_space(s.last()) {
        lemma_trim_end_shape(s.drop_last());
    }
}

} // verus!
