//! Character-level helpers for the lease-store text format: splitting on a
//! separator, splitting into lines, and string comparison.
use vstd::prelude::*;

verus! {

/// The fields obtained by cutting `s` at every occurrence of `sep`.
/// There is always at least one field; an empty input yields one empty field.
pub open spec fn split_on(s: Seq<char>, sep: char) -> Seq<Seq<char>>
    decreases s.len(),
{
    if s.len() == 0 {
        seq![Seq::<char>::empty()]
    } else if s[s.len() - 1] == sep {
        split_on(s.drop_last(), sep).push(Seq::<char>::empty())
    } else {
        let r = split_on(s.drop_last(), sep);
        r.update(r.len() - 1, r[r.len() - 1].push(s[s.len() - 1]))
    }
}

pub proof fn lemma_split_on_len(s: Seq<char>, sep: char)
    ensures
        split_on(s, sep).len() >= 1,
    decreases s.len(),
{
    if s.len() > 0 {
        lemma_split_on_len(s.drop_last(), sep);
    }
}

/// Cuts `s` at every occurrence of `sep`, returning the fields in order.
pub fn split_str(s: &str, sep: char) -> (r: Vec<String>)
    ensures
        r.deep_view() == split_on(s@, sep),
{
    let n = s.unicode_len();
    let mut fields: Vec<String> = Vec::new();
    let mut start: usize = 0;
    let mut i: usize = 0;
    proof {
        assert(s@.take(0) =~= Seq::<char>::empty());
        assert(fields.deep_view().push(s@.subrange(0, 0)) =~= split_on(s@.take(0), sep));
    }
    while i < n
        invariant
            start <= i <= n,
            n == s@.len(),
            split_on(s@.take(i as int), sep) == fields.deep_view().push(
                s@.subrange(start as int, i as int),
            ),
        decreases n - i,
    {
        let c = s.get_char(i);
        proof {
            assert(s@.take(i + 1).drop_last() =~= s@.take(i as int));
            assert(s@.take(i + 1)[i as int] == s@[i as int]);
        }
        if c == sep {
            let f = s.substring_char(start, i);
            let ghost old_fields = fields.deep_view();
            fields.push(f.to_owned());
            proof {
                assert(fields.deep_view() =~= old_fields.push(s@.subrange(
                    start as int,
                    i as int,
                )));
                assert(split_on(s@.take(i + 1), sep) =~~= fields.deep_view().push(s@.subrange(
                    i + 1,
                    i + 1,
                )));
            }
            start = i + 1;
        } else {
            proof {
                let r = split_on(s@.take(i as int), sep);
                lemma_split_on_len(s@.take(i as int), sep);
                assert(r[r.len() - 1] == s@.subrange(start as int, i as int));
                assert(s@.subrange(start as int, i as int).push(s@[i as int]) =~= s@.subrange(
                    start as int,
                    i + 1,
                ));
                assert(split_on(s@.take(i + 1), sep) =~= fields.deep_view().push(s@.subrange(
                    start as int,
                    i + 1,
                )));
            }
        }
        i += 1;
    }
    let f = s.substring_char(start, n);
    fields.push(f.to_owned());
    proof {
        assert(s@.take(n as int) =~= s@);
        assert(fields.deep_view() =~= split_on(s@, sep));
    }
    fields
}

/// A line with a trailing carriage return dropped.
pub open spec fn strip_cr(l: Seq<char>) -> Seq<char> {
    if l.len() > 0 && l[l.len() - 1] == '\r' {
        l.drop_last()
    } else {
        l
    }
}

/// `strip_cr` applied to every element.
pub open spec fn strip_crs(ls: Seq<Seq<char>>) -> Seq<Seq<char>> {
    Seq::new(ls.len(), |k: int| strip_cr(ls[k]))
}

/// The lines of `s`: pieces cut at every newline, a final trailing newline
/// ending the last line rather than opening an empty one, and a carriage
/// return before any newline dropped. An empty text has no lines.
pub open spec fn spec_lines(s: Seq<char>) -> Seq<Seq<char>> {
    if s.len() == 0 {
        Seq::empty()
    } else if s[s.len() - 1] == '\n' {
        strip_crs(split_on(s.drop_last(), '\n'))
    } else {
        strip_crs(split_on(s, '\n'))
    }
}

/// Cuts `s` into lines.
pub fn split_lines(s: &str) -> (r: Vec<String>)
    ensures
        r.deep_view() == spec_lines(s@),
{
    let n = s.unicode_len();
    if n == 0 {
        let r: Vec<String> = Vec::new();
        proof {
            assert(r.deep_view() =~= spec_lines(s@));
        }
        return r;
    }
    let core: &str = if s.get_char(n - 1) == '\n' {
        s.substring_char(0, n - 1)
    } else {
        s
    };
    proof {
        if s@[n - 1] == '\n' {
            assert(core@ =~= s@.drop_last());
        }
    }
    let parts = split_str(core, '\n');
    let mut out: Vec<String> = Vec::new();
    let mut j: usize = 0;
    while j < parts.len()
        invariant
            j <= parts.len(),
            parts.deep_view() == split_on(core@, '\n'),
            out.deep_view() == strip_crs(parts.deep_view()).take(j as int),
        decreases parts.len() - j,
    {
        let p = parts[j].as_str();
        let m = p.unicode_len();
        let q: String = if m > 0 && p.get_char(m - 1) == '\r' {
            let stripped = p.substring_char(0, m - 1);
            proof {
                assert(stripped@ =~= p@.drop_last());
            }
            stripped.to_owned()
        } else {
            parts[j].clone()
        };
        proof {
            assert(q@ == strip_cr(parts.deep_view()[j as int]));
        }
        let ghost prev = out.deep_view();
        let ghost prev_raw = out@;
        out.push(q);
        proof {
            assert(prev.len() == j);
            assert(prev_raw.len() == j);
            assert(out@.len() == j + 1);
            assert forall|k: int| 0 <= k < out@.len() implies out.deep_view()[k] == prev.push(
                q@,
            )[k] by {
                if k < j {
                    assert(out@[k] == prev_raw[k]);
                } else {
                    assert(out@[k] == q);
                }
            }
            assert(out.deep_view() =~= prev.push(q@));
            assert(strip_crs(parts.deep_view()).take(j + 1) =~= prev.push(q@));
        }
        j += 1;
    }
    proof {
        assert(out.deep_view() =~~= strip_crs(parts.deep_view()));
        assert(out.deep_view() =~~= spec_lines(s@));
    }
    out
}

/// Character-for-character string equality.
pub fn str_eq(a: &str, b: &str) -> (r: bool)
    ensures
        r == (a@ == b@),
{
    let na = a.unicode_len();
    let nb = b.unicode_len();
    if na != nb {
        return false;
    }
    let mut i: usize = 0;
    while i < na
        invariant
            i <= na,
            na == a@.len(),
            na == b@.len(),
            forall|k: int| 0 <= k < i ==> a@[k] == b@[k],
        decreases na - i,
    {
        if a.get_char(i) != b.get_char(i) {
            return false;
        }
        i += 1;
    }
    proof {
        assert(a@ =~= b@);
    }
    true
}


/// Lexicographic order on character sequences, by code point.
pub open spec fn lex_le(a: Seq<char>, b: Seq<char>) -> bool
    decreases a.len(),
{
    if a.len() == 0 {
        true
    } else if b.len() == 0 {
        false
    } else if a[0] < b[0] {
        true
    } else if b[0] < a[0] {
        false
    } else {
        lex_le(a.drop_first(), b.drop_first())
    }
}

pub proof fn lemma_lex_le_total(a: Seq<char>, b: Seq<char>)
    ensures
        lex_le(a, b) || lex_le(b, a),
    decreases a.len(),
{
    if a.len() > 0 && b.len() > 0 && !(a[0] < b[0]) && !(b[0] < a[0]) {
        lemma_lex_le_total(a.drop_first(), b.drop_first());
    }
}

pub proof fn lemma_lex_le_trans(a: Seq<char>, b: Seq<char>, c: Seq<char>)
    requires
        lex_le(a, b),
        lex_le(b, c),
    ensures
        lex_le(a, c),
    decreases a.len(),
{
    if a.len() > 0 && b.len() > 0 && c.len() > 0 && !(a[0] < b[0]) && !(b[0] < a[0]) && !(b[0]
        < c[0]) && !(c[0] < b[0]) {
        lemma_lex_le_trans(a.drop_first(), b.drop_first(), c.drop_first());
    }
}

pub proof fn lemma_lex_le_antisym(a: Seq<char>, b: Seq<char>)
    requires
        lex_le(a, b),
        lex_le(b, a),
    ensures
        a == b,
    decreases a.len(),
{
    if a.len() == 0 {
        assert(b.len() == 0);
        assert(a =~= b);
    } else {
        assert(b.len() > 0);
        lemma_lex_le_antisym(a.drop_first(), b.drop_first());
        assert(a =~= b) by {
            assert(a[0] == b[0]);
            assert(forall|k: int|
                1 <= k < a.len() ==> a[k] == a.drop_first()[k - 1] && b[k] == b.drop_first()[k
                    - 1]);
        }
    }
}

/// `lex_le` is unchanged by removing an equal prefix of both strings.
pub proof fn lemma_lex_le_skip(a: Seq<char>, b: Seq<char>, i: int)
    requires
        0 <= i <= a.len(),
        i <= b.len(),
        forall|k: int| 0 <= k < i ==> a[k] == b[k],
    ensures
        lex_le(a, b) == lex_le(a.skip(i), b.skip(i)),
    decreases i,
{
    if i > 0 {
        assert(a.len() > 0 && b.len() > 0);
        assert(a[0] == b[0]);
        assert(a.drop_first().skip(i - 1) =~= a.skip(i));
        assert(b.drop_first().skip(i - 1) =~= b.skip(i));
        assert(forall|k: int|
            0 <= k < i - 1 ==> a.drop_first()[k] == a[k + 1] && b.drop_first()[k] == b[k + 1]);
        lemma_lex_le_skip(a.drop_first(), b.drop_first(), i - 1);
    } else {
        assert(a.skip(0) =~= a);
        assert(b.skip(0) =~= b);
    }
}

/// Lexicographic comparison of two strings: is `a` at most `b`?
pub fn str_le(a: &str, b: &str) -> (r: bool)
    ensures
        r == lex_le(a@, b@),
{
    let na = a.unicode_len();
    let nb = b.unicode_len();
    let mut i: usize = 0;
    while i < na && i < nb
        invariant
            i <= na,
            i <= nb,
            na == a@.len(),
            nb == b@.len(),
            forall|k: int| 0 <= k < i ==> a@[k] == b@[k],
        decreases na - i,
    {
        let ca = a.get_char(i);
        let cb = b.get_char(i);
        if ca < cb {
            proof {
                lemma_lex_le_skip(a@, b@, i as int);
                assert(a@.skip(i as int)[0] == a@[i as int]);
                assert(b@.skip(i as int)[0] == b@[i as int]);
            }
            return true;
        }
        if cb < ca {
            proof {
                lemma_lex_le_skip(a@, b@, i as int);
                assert(a@.skip(i as int)[0] == a@[i as int]);
                assert(b@.skip(i as int)[0] == b@[i as int]);
            }
            return false;
        }
        i += 1;
    }
    proof {
        lemma_lex_le_skip(a@, b@, if i <= nb { i as int } else { nb as int });
        if na <= nb {
            assert(a@.skip(i as int).len() == 0);
        } else {
            assert(b@.skip(nb as int).len() == 0);
        }
    }
    na <= nb
}

/// Whether `p` is a prefix of `s`.
pub open spec fn is_prefix(p: Seq<char>, s: Seq<char>) -> bool {
    p.len() <= s.len() && forall|k: int| 0 <= k < p.len() ==> s[k] == p[k]
}

pub fn starts_with_str(s: &str, p: &str) -> (r: bool)
    ensures
        r == is_prefix(p@, s@),
{
    let ns = s.unicode_len();
    let np = p.unicode_len();
    if np > ns {
        return false;
    }
    let mut i: usize = 0;
    while i < np
        invariant
            i <= np,
            np <= ns,
            ns == s@.len(),
            np == p@.len(),
            forall|k: int| 0 <= k < i ==> s@[k] == p@[k],
        decreases np - i,
    {
        if s.get_char(i) != p.get_char(i) {
            return false;
        }
        i += 1;
    }
    true
}

/// Whether `p` is a suffix of `s`.
pub open spec fn is_suffix(p: Seq<char>, s: Seq<char>) -> bool {
    p.len() <= s.len() && forall|k: int| 0 <= k < p.len() ==> s[s.len() - p.len() + k] == p[k]
}

pub fn ends_with_str(s: &str, p: &str) -> (r: bool)
    ensures
        r == is_suffix(p@, s@),
{
    let ns = s.unicode_len();
    let np = p.unicode_len();
    if np > ns {
        return false;
    }
    let mut i: usize = 0;
    while i < np
        invariant
            i <= np,
            np <= ns,
            ns == s@.len(),
            np == p@.len(),
            forall|k: int| 0 <= k < i ==> s@[s@.len() - p@.len() + k] == p@[k],
        decreases np - i,
    {
        if s.get_char(ns - np + i) != p.get_char(i) {
            return false;
        }
        i += 1;
    }
    true
}

} // verus!

