//! A first rule document derived from a legacy owners file. What it infers is
//! a starting point, to be checked by hand.

use vstd::prelude::*;
use vstd::string::*;
use crate::text::{
    CharClass, chars_of, find_char, find_space, index_where, is_space, lines_spec, next_line, split_spec,
    string_of, strip_bounds, strip_leading, strip_trailing, trim_bounds, trim_spec,
};

verus! {

/// Whether a character is alphanumeric, as `char::is_alphanumeric` tells.
pub uninterp spec fn alphanumeric(c: char) -> bool;

/// The lower-case form of a text, as `str::to_lowercase` gives it.
pub uninterp spec fn lowercased(s: Seq<char>) -> Seq<char>;

/// `char::is_alphanumeric`: a property of the character alone, read from the
/// Unicode tables.
pub assume_specification[ char::is_alphanumeric ](c: char) -> (b: bool)
    ensures
        b == alphanumeric(c),
;

/// `str::to_lowercase`: the lower-case form of the text, a function of the
/// text alone.
pub assume_specification[ str::to_lowercase ](s: &str) -> (r: String)
    ensures
        r@ == lowercased(s@),
;

/// The path segments that say nothing about the service.
pub open spec fn is_stop(seg: Seq<char>) -> bool {
    ||| seg =~= seq!['*']
    ||| seg =~= seq!['*', '*']
    ||| seg =~= seq!['s', 'r', 'c']
    ||| seg =~= seq!['l', 'i', 'b']
    ||| seg =~= seq!['a', 'p', 'p', 's']
    ||| seg =~= seq!['p', 'a', 'c', 'k', 'a', 'g', 'e', 's']
}

/// The first of two choices that is there.
pub open spec fn or_else(a: Option<Seq<char>>, b: Option<Seq<char>>) -> Option<Seq<char>> {
    if a is Some {
        a
    } else {
        b
    }
}

/// The last segment that is no stop word.
pub open spec fn last_candidate(segs: Seq<Seq<char>>) -> Option<Seq<char>>
    decreases segs.len(),
{
    if segs.len() == 0 {
        None
    } else {
        or_else(
            last_candidate(segs.drop_first()),
            if is_stop(segs[0]) {
                None
            } else {
                Some(segs[0])
            },
        )
    }
}

/// A segment with every character that is not alphanumeric turned into `_`.
pub open spec fn sanitize(seg: Seq<char>) -> Seq<char> {
    Seq::new(seg.len(), |i: int| if alphanumeric(seg[i]) { seg[i] } else { '_' })
}

/// A text with every `-` turned into `_`.
pub open spec fn underscored(s: Seq<char>) -> Seq<char> {
    Seq::new(s.len(), |i: int| if s[i] == '-' { '_' } else { s[i] })
}

/// The label that an identity gives: without leading `@`, the part after the
/// first `/` if there is one, hyphens as underscores, in lower case.
pub open spec fn owner_label(owner: Seq<char>) -> Seq<char> {
    let o = strip_leading(owner, '@');
    let k = index_where(o, CharClass::Exactly('/')) as int;
    if k < o.len() {
        lowercased(underscored(o.subrange(k + 1, o.len() as int)))
    } else {
        lowercased(underscored(o))
    }
}

/// The service name inferred from a legacy pattern and the first identity
/// that owns it.
pub open spec fn infer_spec(pattern: Seq<char>, first_owner: Option<Seq<char>>) -> Seq<char> {
    let p = strip_trailing(strip_leading(pattern, '/'), '/');
    let seg = last_candidate(split_spec(p, '/'));
    if seg is Some && seg->Some_0.len() > 0 {
        lowercased(sanitize(seg->Some_0))
    } else if first_owner is Some {
        owner_label(first_owner->Some_0)
    } else {
        "unknown_service"@
    }
}

/// Whether `v[a..b]` is a stop word.
fn is_stop_word(v: &Vec<char>, a: usize, b: usize) -> (r: bool)
    requires
        a <= b <= v@.len(),
    ensures
        r == is_stop(v@.subrange(a as int, b as int)),
{
    let ghost seg = v@.subrange(a as int, b as int);
    let n: usize = b - a;
    if n == 1 {
        assert(seg[0] == v@[a as int]);
        v[a] == '*'
    } else if n == 2 {
        assert(seg[0] == v@[a as int] && seg[1] == v@[a + 1]);
        v[a] == '*' && v[a + 1] == '*'
    } else if n == 3 {
        assert(seg[0] == v@[a as int] && seg[1] == v@[a + 1] && seg[2] == v@[a + 2]);
        (v[a] == 's' && v[a + 1] == 'r' && v[a + 2] == 'c') || (v[a] == 'l' && v[a + 1] == 'i'
            && v[a + 2] == 'b')
    } else if n == 4 {
        assert(seg[0] == v@[a as int] && seg[1] == v@[a + 1] && seg[2] == v@[a + 2] && seg[3]
            == v@[a + 3]);
        v[a] == 'a' && v[a + 1] == 'p' && v[a + 2] == 'p' && v[a + 3] == 's'
    } else if n == 8 {
        assert(seg[0] == v@[a as int] && seg[1] == v@[a + 1] && seg[2] == v@[a + 2] && seg[3]
            == v@[a + 3]);
        assert(seg[4] == v@[a + 4] && seg[5] == v@[a + 5] && seg[6] == v@[a + 6] && seg[7] == v@[a
            + 7]);
        v[a] == 'p' && v[a + 1] == 'a' && v[a + 2] == 'c' && v[a + 3] == 'k' && v[a + 4] == 'a'
            && v[a + 5] == 'g' && v[a + 6] == 'e' && v[a + 7] == 's'
    } else {
        false
    }
}

/// The label that an identity gives.
fn label_of_owner(owner: &str) -> (res: String)
    ensures
        res@ == owner_label(owner@),
{
    let o = chars_of(owner);
    let n: usize = o.len();
    let (start, _) = strip_bounds(&o, 0, n, '@');
    assert(o@.subrange(0, n as int) =~= o@);
    let ghost stripped = o@.subrange(start as int, n as int);
    let k = find_char(&o, start, n, '/');
    let from: usize = if k < n { k + 1 } else { start };
    let ghost name = o@.subrange(from as int, n as int);
    proof {
        if k < n {
            assert(stripped.subrange(k - start + 1, stripped.len() as int) =~= name);
        }
    }
    let mut out = String::new();
    let mut i: usize = from;
    while i < n
        invariant
            from <= i <= n,
            n == o@.len(),
            out@ == underscored(o@.subrange(from as int, i as int)),
        decreases n - i,
    {
        let c = o[i];
        out.push(if c == '-' { '_' } else { c });
        i += 1;
        assert(out@ =~= underscored(o@.subrange(from as int, i as int)));
    }
    out.as_str().to_lowercase()
}

/// The service name for a legacy pattern and, where no segment of the pattern
/// serves, the first identity that owns it.
pub fn infer_from(pattern: &str, first_owner: Option<&str>) -> (res: String)
    ensures
        res@ == infer_spec(
            pattern@,
            match first_owner {
                Some(o) => Some(o@),
                None => None,
            },
        ),
{
    let p = chars_of(pattern);
    let (lo, hi) = strip_bounds(&p, 0, p.len(), '/');
    assert(p@.subrange(0, p@.len() as int) =~= p@);
    let ghost body = p@.subrange(lo as int, hi as int);
    let ghost target = last_candidate(split_spec(body, '/'));
    let mut found: bool = false;
    let mut best_lo: usize = lo;
    let mut best_hi: usize = lo;
    let mut pos: usize = lo;
    let mut done: bool = false;
    assert(p@.subrange(lo as int, hi as int) =~= body);
    while !done
        invariant
            lo <= pos <= hi <= p@.len(),
            lo <= best_lo <= best_hi <= hi,
            body == p@.subrange(lo as int, hi as int),
            target == last_candidate(split_spec(body, '/')),
            !done ==> target == or_else(
                last_candidate(split_spec(p@.subrange(pos as int, hi as int), '/')),
                if found {
                    Some(p@.subrange(best_lo as int, best_hi as int))
                } else {
                    None
                },
            ),
            done ==> target == (if found {
                Some(p@.subrange(best_lo as int, best_hi as int))
            } else {
                None::<Seq<char>>
            }),
        decreases (hi - pos) + (if done { 0int } else { 1int }),
    {
        let ghost rest = p@.subrange(pos as int, hi as int);
        let end = find_char(&p, pos, hi, '/');
        let ghost seg = p@.subrange(pos as int, end as int);
        proof {
            assert(rest.subrange(0, end - pos) =~= seg);
            if end < hi {
                let tail = split_spec(p@.subrange(end + 1, hi as int), '/');
                assert(rest.subrange(end - pos + 1, rest.len() as int) =~= p@.subrange(
                    end + 1,
                    hi as int,
                ));
                assert(split_spec(rest, '/') == seq![seg] + tail);
                assert((seq![seg] + tail).drop_first() =~= tail);
            } else {
                assert(rest =~= seg);
                assert(split_spec(rest, '/') == seq![seg]);
                assert(seq![seg].drop_first() =~= Seq::<Seq<char>>::empty());
                assert(seq![seg][0] == seg);
                assert(last_candidate(Seq::<Seq<char>>::empty()) == None::<Seq<char>>);
                assert(last_candidate(seq![seg]) == (if is_stop(seg) {
                    None
                } else {
                    Some(seg)
                }));
            }
        }
        if !is_stop_word(&p, pos, end) {
            found = true;
            best_lo = pos;
            best_hi = end;
        }
        if end == hi {
            done = true;
        } else {
            pos = end + 1;
        }
    }
    if found && best_lo < best_hi {
        let mut name = String::new();
        let mut i: usize = best_lo;
        while i < best_hi
            invariant
                best_lo <= i <= best_hi <= p@.len(),
                name@ == sanitize(p@.subrange(best_lo as int, i as int)),
            decreases best_hi - i,
        {
            let c = p[i];
            name.push(if c.is_alphanumeric() { c } else { '_' });
            i += 1;
            assert(name@ =~= sanitize(p@.subrange(best_lo as int, i as int)));
        }
        return name.as_str().to_lowercase();
    }
    match first_owner {
        Some(owner) => label_of_owner(owner),
        None => String::from_str("unknown_service"),
    }
}

/// The service name for a legacy pattern and its identity list: the last
/// telling segment of the pattern, else the label of the first identity, else
/// a placeholder.
pub fn infer_service_name(pattern: &str, owners: &[&str]) -> (res: String)
    ensures
        res@ == infer_spec(
            pattern@,
            if owners@.len() > 0 {
                Some(owners@[0]@)
            } else {
                None
            },
        ),
{
    if owners.len() > 0 {
        infer_from(pattern, Some(owners[0]))
    } else {
        infer_from(pattern, None)
    }
}

/// What a line of a legacy owners file holds: its pattern and its first
/// identity, unless the line is blank, a comment, or without an identity.
pub open spec fn legacy_entry(line: Seq<char>) -> Option<(Seq<char>, Seq<char>)> {
    let t = trim_spec(line);
    let k = index_where(t, CharClass::Space) as int;
    let rest = trim_spec(t.subrange(k, t.len() as int));
    if t.len() == 0 || t[0] == '#' || k >= t.len() {
        None
    } else {
        Some((t.subrange(0, k), rest.subrange(0, index_where(rest, CharClass::Space) as int)))
    }
}

/// `s`, filled with blanks on the right up to `width` characters.
pub open spec fn padded(s: Seq<char>, width: int) -> Seq<char> {
    s + Seq::new((if width > s.len() { width - s.len() } else { 0 }) as nat, |i: int| ' ')
}

/// The rule line drafted for a legacy pattern and its first identity.
pub open spec fn draft_line(pattern: Seq<char>, owner: Seq<char>) -> Seq<char> {
    padded(pattern, 20) + seq![' '] + infer_spec(pattern, Some(owner)) + seq!['\n']
}

/// The two comment lines that open a drafted document.
pub open spec fn draft_header() -> Seq<char> {
    "# Generated from CODEOWNERS by serviceowners (init)\n"@ + "# pattern            service\n"@
}

/// The document drafted from the first `n` lines.
pub open spec fn draft_upto(lines: Seq<Seq<char>>, n: int) -> Seq<char>
    decreases n,
{
    if n <= 0 {
        draft_header()
    } else {
        match legacy_entry(lines[n - 1]) {
            Some((pattern, owner)) => draft_upto(lines, n - 1) + draft_line(pattern, owner),
            None => draft_upto(lines, n - 1),
        }
    }
}

/// The rule document drafted from a legacy owners file.
pub open spec fn draft_spec(doc: Seq<char>) -> Seq<char> {
    draft_upto(lines_spec(doc), lines_spec(doc).len() as int)
}

/// Drafts a rule document from the text of a legacy owners file: a header,
/// then one rule line for each line that holds a pattern and an identity.
pub fn init_from_codeowners(content: &str) -> (out: String)
    ensures
        out@ == draft_spec(content@),
{
    let doc = chars_of(content);
    let len: usize = doc.len();
    let ghost lines = lines_spec(doc@);
    let mut out = String::from_str("# Generated from CODEOWNERS by serviceowners (init)\n");
    out.append("# pattern            service\n");
    let mut pos: usize = 0;
    let ghost mut n: int = 0;
    assert(doc@.subrange(0, len as int) =~= doc@);
    assert(lines.subrange(0, lines.len() as int) =~= lines);
    while pos < len
        invariant
            len == doc@.len(),
            doc@ == content@,
            lines == lines_spec(doc@),
            pos <= len,
            0 <= n <= lines.len(),
            lines.subrange(n, lines.len() as int) == lines_spec(
                doc@.subrange(pos as int, len as int),
            ),
            out@ == draft_upto(lines, n),
        decreases len - pos,
    {
        let ghost tail = lines.subrange(n, lines.len() as int);
        let (end, next) = next_line(&doc, pos);
        let ghost line = doc@.subrange(pos as int, end as int);
        proof {
            assert(tail.len() > 0);
            assert(tail[0] == line);
            assert(lines[n] == tail[0]);
            assert(lines.subrange(n + 1, lines.len() as int) =~= tail.subrange(
                1,
                tail.len() as int,
            ));
            assert(tail.subrange(1, tail.len() as int) =~= lines_spec(
                doc@.subrange(next as int, len as int),
            ));
        }
        let (lo, hi) = trim_bounds(&doc, pos, end);
        let ghost t = doc@.subrange(lo as int, hi as int);
        if lo < hi && doc[lo] != '#' {
            let k = find_space(&doc, lo, hi);
            if k < hi {
                let (olo, ohi) = trim_bounds(&doc, k, hi);
                let oend = find_space(&doc, olo, ohi);
                let pattern = string_of(&doc, lo, k);
                let owner = string_of(&doc, olo, oend);
                proof {
                    let rest = doc@.subrange(olo as int, ohi as int);
                    assert(t.subrange(0, k - lo) =~= pattern@);
                    assert(t.subrange(k - lo, t.len() as int) =~= doc@.subrange(
                        k as int,
                        hi as int,
                    ));
                    assert(rest.subrange(0, oend - olo) =~= owner@);
                    assert(legacy_entry(line) == Some((pattern@, owner@)));
                }
                let service = infer_from(pattern.as_str(), Some(owner.as_str()));
                let ghost before = out@;
                out.append(pattern.as_str());
                let mut width: usize = k - lo;
                while width < 20
                    invariant
                        k - lo <= width,
                        width <= 20 || width == k - lo,
                        out@ == before + pattern@ + Seq::new(
                            (width - (k - lo)) as nat,
                            |i: int| ' ',
                        ),
                    decreases 20 - width,
                {
                    out.push(' ');
                    width += 1;
                    assert(out@ =~= before + pattern@ + Seq::new(
                        (width - (k - lo)) as nat,
                        |i: int| ' ',
                    ));
                }
                out.push(' ');
                out.append(service.as_str());
                out.push('\n');
                assert(out@ =~= before + draft_line(pattern@, owner@));
            }
        }
        pos = next;
        proof {
            n = n + 1;
        }
    }
    proof {
        assert(doc@.subrange(len as int, len as int) =~= Seq::<char>::empty());
        assert(n == lines.len());
    }
    out
}

} // verus!
