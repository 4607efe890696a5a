//! Verified executable string operations, each specified against the
//! sequence-level vocabulary in `chars`.
use vstd::prelude::*;
use vstd::string::*;
use crate::chars::{
    contains_sub, escape_quot, find_ch, find_sub, is_space, lemma_find_ch, lemma_find_ch_at,
    lemma_find_sub, lemma_rfind_ch, lemma_ws_run_len_at, lex_le, lower_ch, lower_s, match_at,
    rfind_ch, sp2, split_ch, split_ws, starts_with_s, trim_end_s, trim_s, trim_start_s,
    ws_run_len,
};

verus! {

/// View of a vector of strings as a sequence of character sequences.
pub open spec fn strs_view(v: Seq<String>) -> Seq<Seq<char>> {
    v.map_values(|x: String| x@)
}

/// Relies on std's `String::push`: appends one character at the end.
#[verifier::external_body]
pub fn push_char(out: &mut String, c: char)
    ensures
        final(out)@ == old(out)@ + seq![c],
{
    out.push(c);
}

pub fn is_space_ch(c: char) -> (r: bool)
    ensures
        r == is_space(c),
{
    c == ' ' || c == '\t' || c == '\n' || c == '\r'
}

/// Character-wise string equality.
pub fn str_eq(a: &str, b: &str) -> (r: bool)
    ensures
        r == (a@ == b@),
{
    let an = a.unicode_len();
    let bn = b.unicode_len();
    if an != bn {
        proof {
            assert(a@ != b@);
        }
        return false;
    }
    let mut i: usize = 0;
    while i < an
        invariant
            i <= an,
            an == a@.len(),
            an == b@.len(),
            forall|k: int| 0 <= k < i ==> a@[k] == b@[k],
        decreases an - i,
    {
        if a.get_char(i) != b.get_char(i) {
            return false;
        }
        i += 1;
    }
    proof {
        assert(a@ =~= b@);
    }
    true
}

/// Lexicographic comparison by code point.
pub fn str_le(a: &str, b: &str) -> (r: bool)
    ensures
        r == lex_le(a@, b@),
{
    let an = a.unicode_len();
    let bn = b.unicode_len();
    let mut i: usize = 0;
    proof {
        assert(a@.skip(0) =~= a@);
        assert(b@.skip(0) =~= b@);
    }
    while i < an && i < bn
        invariant
            i <= an,
            i <= bn,
            an == a@.len(),
            bn == b@.len(),
            lex_le(a@, b@) == lex_le(a@.skip(i as int), b@.skip(i as int)),
        decreases an - i,
    {
        let ca = a.get_char(i);
        let cb = b.get_char(i);
        if ca != cb {
            proof {
                assert(a@.skip(i as int)[0] == a@[i as int]);
                assert(b@.skip(i as int)[0] == b@[i as int]);
            }
            return (ca as u32) < (cb as u32);
        }
        proof {
            assert(a@.skip(i as int).drop_first() =~= a@.skip(i as int + 1));
            assert(b@.skip(i as int).drop_first() =~= b@.skip(i as int + 1));
            assert(a@.skip(i as int)[0] == a@[i as int]);
            assert(b@.skip(i as int)[0] == b@[i as int]);
        }
        i += 1;
    }
    proof {
        if i >= an {
            assert(a@.skip(i as int).len() == 0);
        } else {
            assert(b@.skip(i as int).len() == 0);
            assert(a@.skip(i as int).len() > 0);
        }
    }
    i >= an
}

/// First occurrence of `c` at or after index `from`.
pub fn find_char_from(s: &str, c: char, from: usize) -> (r: Option<usize>)
    requires
        from <= s@.len(),
    ensures
        match r {
            Some(i) => from <= i < s@.len() && s@[i as int] == c && forall|k: int|
                from <= k < i ==> s@[k] != c,
            None => forall|k: int| from <= k < s@.len() ==> s@[k] != c,
        },
{
    let n = s.unicode_len();
    let mut i: usize = from;
    while i < n
        invariant
            from <= i <= n,
            n == s@.len(),
            forall|k: int| from <= k < i ==> s@[k] != c,
        decreases n - i,
    {
        if s.get_char(i) == c {
            return Some(i);
        }
        i += 1;
    }
    None
}

/// First occurrence of `c` in `s`, as the specification `find_ch` gives it.
pub fn find_char_str(s: &str, c: char) -> (r: Option<usize>)
    ensures
        match r {
            Some(i) => find_ch(s@, c) == Some(i as int),
            None => find_ch(s@, c) is None,
        },
{
    let r = find_char_from(s, c, 0);
    proof {
        lemma_find_ch(s@, c);
    }
    r
}

/// Last occurrence of `c` in `s`, as the specification `rfind_ch` gives it.
pub fn rfind_char_str(s: &str, c: char) -> (r: Option<usize>)
    ensures
        match r {
            Some(i) => rfind_ch(s@, c) == Some(i as int),
            None => rfind_ch(s@, c) is None,
        },
{
    let n = s.unicode_len();
    let mut j: usize = n;
    while j > 0
        invariant
            j <= n,
            n == s@.len(),
            forall|k: int| j <= k < n ==> s@[k] != c,
        decreases j,
    {
        if s.get_char(j - 1) == c {
            proof {
                lemma_rfind_ch(s@, c);
            }
            return Some(j - 1);
        }
        j -= 1;
    }
    proof {
        lemma_rfind_ch(s@, c);
    }
    None
}

/// Whether `p` is a prefix of `s`.
pub fn starts_with_str(s: &str, p: &str) -> (r: bool)
    ensures
        r == starts_with_s(s@, p@),
{
    let n = s.unicode_len();
    let m = p.unicode_len();
    if m > n {
        return false;
    }
    let mut i: usize = 0;
    while i < m
        invariant
            i <= m,
            m <= n,
            n == s@.len(),
            m == p@.len(),
            forall|k: int| 0 <= k < i ==> s@[k] == p@[k],
        decreases m - i,
    {
        if s.get_char(i) != p.get_char(i) {
            proof {
                assert(s@.subrange(0, m as int)[i as int] == s@[i as int]);
            }
            return false;
        }
        i += 1;
    }
    proof {
        assert(s@.subrange(0, m as int) =~= p@);
    }
    true
}

/// Whether `s` ends in the character `c`.
pub fn ends_with_ch(s: &str, c: char) -> (r: bool)
    ensures
        r == (s@.len() > 0 && s@[s@.len() - 1] == c),
{
    let n = s.unicode_len();
    if n == 0 {
        false
    } else {
        s.get_char(n - 1) == c
    }
}

/// Whether `p` starts at index `i` of `s`.
fn match_at_exec(s: &str, p: &str, i: usize) -> (r: bool)
    requires
        i <= s@.len(),
    ensures
        r == match_at(s@, p@, i as int),
{
    let n = s.unicode_len();
    let m = p.unicode_len();
    if m > n - i {
        return false;
    }
    let mut j: usize = 0;
    while j < m
        invariant
            j <= m,
            i + m <= n,
            n == s@.len(),
            m == p@.len(),
            forall|k: int| 0 <= k < j ==> s@[i + k] == p@[k],
        decreases m - j,
    {
        if s.get_char(i + j) != p.get_char(j) {
            proof {
                assert(s@.subrange(i as int, i as int + m as int)[j as int] == s@[i as int + j]);
            }
            return false;
        }
        j += 1;
    }
    proof {
        assert(s@.subrange(i as int, i as int + m as int) =~= p@);
    }
    true
}

/// First occurrence of `p` as a contiguous substring of `s`, as the
/// specification `find_sub` gives it.
pub fn find_sub_str(s: &str, p: &str) -> (r: Option<usize>)
    ensures
        match r {
            Some(i) => find_sub(s@, p@) == Some(i as int),
            None => find_sub(s@, p@) is None,
        },
{
    let n = s.unicode_len();
    let mut i: usize = 0;
    while i < n
        invariant
            i <= n,
            n == s@.len(),
            forall|k: int| 0 <= k < i ==> !match_at(s@, p@, k),
        decreases n - i,
    {
        if match_at_exec(s, p, i) {
            proof {
                lemma_find_sub(s@, p@);
            }
            return Some(i);
        }
        i += 1;
    }
    if match_at_exec(s, p, n) {
        proof {
            lemma_find_sub(s@, p@);
        }
        return Some(n);
    }
    proof {
        lemma_find_sub(s@, p@);
        assert forall|k: int| 0 <= k implies !match_at(s@, p@, k) by {
            if k <= n {
            } else {
                assert(k + p@.len() > s@.len());
            }
        }
    }
    None
}

/// Whether `p` occurs anywhere in `s`.
pub fn contains_str(s: &str, p: &str) -> (r: bool)
    ensures
        r == contains_sub(s@, p@),
{
    match find_sub_str(s, p) {
        Some(_) => true,
        None => false,
    }
}

proof fn lemma_trim_start_idx(s: Seq<char>, i: int)
    requires
        0 <= i <= s.len(),
        forall|k: int| 0 <= k < i ==> is_space(s[k]),
        i < s.len() ==> !is_space(s[i]),
    ensures
        trim_start_s(s) == s.subrange(i, s.len() as int),
    decreases i,
{
    if i == 0 {
        assert(s.subrange(0, s.len() as int) =~= s);
    } else {
        let t = s.drop_first();
        assert(is_space(s[0]));
        assert forall|k: int| 0 <= k < i - 1 implies is_space(t[k]) by {
            assert(t[k] == s[k + 1]);
        }
        if i - 1 < t.len() {
            assert(t[i - 1] == s[i]);
        }
        lemma_trim_start_idx(t, i - 1);
        assert(t.subrange(i - 1, t.len() as int) =~= s.subrange(i, s.len() as int));
    }
}

proof fn lemma_trim_end_idx(s: Seq<char>, j: int)
    requires
        0 <= j <= s.len(),
        forall|k: int| j <= k < s.len() ==> is_space(s[k]),
        j > 0 ==> !is_space(s[j - 1]),
    ensures
        trim_end_s(s) == s.subrange(0, j),
    decreases s.len() - j,
{
    if j == s.len() {
        assert(s.subrange(0, s.len() as int) =~= s);
    } else {
        let t = s.drop_last();
        assert(is_space(s[s.len() - 1]));
        assert forall|k: int| j <= k < t.len() implies is_space(t[k]) by {
            assert(t[k] == s[k]);
        }
        if j > 0 {
            assert(t[j - 1] == s[j - 1]);
        }
        lemma_trim_end_idx(t, j);
        assert(t.subrange(0, j) =~= s.subrange(0, j));
    }
}

/// `s` with leading whitespace removed.
pub fn trim_start_str(s: &str) -> (r: String)
    ensures
        r@ == trim_start_s(s@),
{
    let n = s.unicode_len();
    let mut i: usize = 0;
    while i < n && is_space_ch(s.get_char(i))
        invariant
            i <= n,
            n == s@.len(),
            forall|k: int| 0 <= k < i ==> is_space(s@[k]),
        decreases n - i,
    {
        i += 1;
    }
    proof {
        lemma_trim_start_idx(s@, i as int);
    }
    String::from_str(s.substring_char(i, n))
}

/// `s` with leading and trailing whitespace removed.
pub fn trim_str(s: &str) -> (r: String)
    ensures
        r@ == trim_s(s@),
{
    let n = s.unicode_len();
    let mut i: usize = 0;
    while i < n && is_space_ch(s.get_char(i))
        invariant
            i <= n,
            n == s@.len(),
            forall|k: int| 0 <= k < i ==> is_space(s@[k]),
        decreases n - i,
    {
        i += 1;
    }
    let mut j: usize = n;
    while j > i && is_space_ch(s.get_char(j - 1))
        invariant
            i <= j <= n,
            n == s@.len(),
            forall|k: int| j <= k < n ==> is_space(s@[k]),
        decreases j,
    {
        j -= 1;
    }
    proof {
        lemma_trim_start_idx(s@, i as int);
        let u = s@.subrange(i as int, s@.len() as int);
        assert forall|k: int| j - i <= k < u.len() implies is_space(u[k]) by {
            assert(u[k] == s@[k + i]);
        }
        if j > i {
            assert(u[j - i - 1] == s@[j - 1]);
        }
        lemma_trim_end_idx(u, j - i);
        assert(u.subrange(0, j - i) =~= s@.subrange(i as int, j as int));
    }
    String::from_str(s.substring_char(i, j))
}

/// Append `n` levels of two-space indentation.
pub fn push_sp2(out: &mut String, n: usize)
    ensures
        final(out)@ == old(out)@ + sp2(n as nat),
{
    proof {
        assert(old(out)@ + sp2(0) =~= old(out)@);
    }
    let mut k: usize = 0;
    while k < n
        invariant
            k <= n,
            out@ == old(out)@ + sp2(k as nat),
        decreases n - k,
    {
        out.append("  ");
        proof {
            assert(old(out)@ + sp2(k as nat) + "  "@ =~= old(out)@ + (sp2(k as nat) + "  "@));
        }
        k += 1;
    }
}

/// Append `v` with `"` escaped as `&quot;`.
pub fn push_escaped(out: &mut String, v: &str)
    ensures
        final(out)@ == old(out)@ + escape_quot(v@),
{
    let n = v.unicode_len();
    let mut i: usize = 0;
    proof {
        assert(v@.skip(0) =~= v@);
    }
    while i < n
        invariant
            i <= n,
            n == v@.len(),
            out@ + escape_quot(v@.skip(i as int)) == old(out)@ + escape_quot(v@),
        decreases n - i,
    {
        let c = v.get_char(i);
        let ghost pre = out@;
        proof {
            assert(v@.skip(i as int)[0] == v@[i as int]);
            assert(v@.skip(i as int).drop_first() =~= v@.skip(i as int + 1));
        }
        if c == '"' {
            out.append("&quot;");
        } else {
            push_char(out, c);
        }
        proof {
            let f = if c == '"' {
                "&quot;"@
            } else {
                seq![c]
            };
            assert(out@ == pre + f);
            assert(pre + f + escape_quot(v@.skip(i as int + 1)) =~= pre + (f + escape_quot(
                v@.skip(i as int + 1),
            )));
            assert(f + escape_quot(v@.skip(i as int + 1)) == escape_quot(v@.skip(i as int)));
        }
        i += 1;
    }
    proof {
        assert(escape_quot(v@.skip(n as int)).len() == 0);
        assert(out@ + escape_quot(v@.skip(n as int)) =~= out@);
    }
}

/// `s` split at every occurrence of `c`, as the specification `split_ch`
/// gives it.
pub fn split_char_str(s: &str, c: char) -> (r: Vec<String>)
    ensures
        strs_view(r@) == split_ch(s@, c),
{
    let n = s.unicode_len();
    let mut parts: Vec<String> = Vec::new();
    let mut start: usize = 0;
    proof {
        assert(s@.skip(0) =~= s@);
        assert(strs_view(parts@) =~= Seq::<Seq<char>>::empty());
    }
    loop
        invariant
            start <= n,
            n == s@.len(),
            strs_view(parts@) + split_ch(s@.skip(start as int), c) == split_ch(s@, c),
        decreases n - start,
    {
        let ghost pre = strs_view(parts@);
        let ghost tail = s@.skip(start as int);
        match find_char_from(s, c, start) {
            Some(i) => {
                let piece = String::from_str(s.substring_char(start, i));
                parts.push(piece);
                proof {
                    assert forall|k: int| 0 <= k < i - start implies tail[k] != c by {
                        assert(tail[k] == s@[start + k]);
                    }
                    assert(tail[i - start] == s@[i as int]);
                    lemma_find_ch_at(tail, c, i - start);
                    assert(tail.subrange(0, i - start) =~= s@.subrange(start as int, i as int));
                    assert(tail.subrange(i - start + 1, tail.len() as int) =~= s@.skip(
                        i as int + 1,
                    ));
                    assert(split_ch(tail, c) == seq![s@.subrange(start as int, i as int)]
                        + split_ch(s@.skip(i as int + 1), c));
                    assert(strs_view(parts@) =~~= pre.push(s@.subrange(start as int, i as int)));
                    assert(pre.push(s@.subrange(start as int, i as int)) + split_ch(
                        s@.skip(i as int + 1),
                        c,
                    ) =~= pre + (seq![s@.subrange(start as int, i as int)] + split_ch(
                        s@.skip(i as int + 1),
                        c,
                    )));
                }
                start = i + 1;
            },
            None => {
                let piece = String::from_str(s.substring_char(start, n));
                parts.push(piece);
                proof {
                    assert forall|k: int| 0 <= k < tail.len() implies tail[k] != c by {
                        assert(tail[k] == s@[start + k]);
                    }
                    lemma_find_ch(tail, c);
                    assert(find_ch(tail, c) is None);
                    assert(split_ch(tail, c) == seq![tail]);
                    assert(tail =~= s@.subrange(start as int, n as int));
                    assert(strs_view(parts@) =~~= pre.push(tail));
                    assert(pre.push(tail) =~= pre + seq![tail]);
                }
                return parts;
            },
        }
    }
}

/// The maximal non-empty whitespace-free runs of `s`, in order, as the
/// specification `split_ws` gives them.
pub fn split_ws_str(s: &str) -> (r: Vec<String>)
    ensures
        strs_view(r@) == split_ws(s@),
{
    let n = s.unicode_len();
    let mut parts: Vec<String> = Vec::new();
    let mut pos: usize = 0;
    proof {
        assert(s@.skip(0) =~= s@);
        assert(strs_view(parts@) =~= Seq::<Seq<char>>::empty());
    }
    while pos < n
        invariant
            pos <= n,
            n == s@.len(),
            strs_view(parts@) + split_ws(s@.skip(pos as int)) == split_ws(s@),
        decreases n - pos,
    {
        let ghost tail = s@.skip(pos as int);
        if is_space_ch(s.get_char(pos)) {
            proof {
                assert(tail[0] == s@[pos as int]);
                assert(tail.drop_first() =~= s@.skip(pos as int + 1));
                assert(split_ws(tail) == split_ws(s@.skip(pos as int + 1)));
            }
            pos += 1;
        } else {
            let mut e: usize = pos;
            while e < n && !is_space_ch(s.get_char(e))
                invariant
                    pos <= e <= n,
                    n == s@.len(),
                    forall|k: int| pos <= k < e ==> !is_space(s@[k]),
                decreases n - e,
            {
                e += 1;
            }
            let ghost pre = strs_view(parts@);
            let piece = String::from_str(s.substring_char(pos, e));
            parts.push(piece);
            proof {
                assert forall|k: int| 0 <= k < e - pos implies !is_space(tail[k]) by {
                    assert(tail[k] == s@[pos + k]);
                }
                if (e as int) - (pos as int) < tail.len() {
                    assert(tail[e - pos] == s@[e as int]);
                }
                lemma_ws_run_len_at(tail, e - pos);
                assert(!is_space(tail[0]));
                assert(1 <= ws_run_len(tail) <= tail.len());
                assert(tail.subrange(0, e - pos) =~= s@.subrange(pos as int, e as int));
                assert(tail.subrange(e - pos, tail.len() as int) =~= s@.skip(e as int));
                assert(split_ws(tail) == seq![s@.subrange(pos as int, e as int)] + split_ws(
                    s@.skip(e as int),
                ));
                assert(strs_view(parts@) =~~= pre.push(s@.subrange(pos as int, e as int)));
                assert(pre.push(s@.subrange(pos as int, e as int)) + split_ws(s@.skip(e as int))
                    =~= pre + (seq![s@.subrange(pos as int, e as int)] + split_ws(
                    s@.skip(e as int),
                )));
            }
            pos = e;
        }
    }
    proof {
        assert(s@.skip(n as int).len() == 0);
        assert(split_ws(s@.skip(n as int)) =~= Seq::<Seq<char>>::empty());
        assert(strs_view(parts@) + split_ws(s@.skip(n as int)) =~= strs_view(parts@));
    }
    parts
}

/// ASCII lowercasing, character by character.
pub fn lower_str(s: &str) -> (r: String)
    ensures
        r@ == lower_s(s@),
{
    let n = s.unicode_len();
    let mut out = String::new();
    let mut i: usize = 0;
    while i < n
        invariant
            i <= n,
            n == s@.len(),
            out@ == lower_s(s@.take(i as int)),
        decreases n - i,
    {
        let c = s.get_char(i);
        let u = c as u32;
        if u >= 65 && u <= 90 {
            let b = (u + 32) as u8;
            push_char(&mut out, b as char);
        } else {
            push_char(&mut out, c);
        }
        proof {
            assert(lower_s(s@.take(i as int + 1)) =~= lower_s(s@.take(i as int)) + seq![
                lower_ch(s@[i as int]),
            ]);
        }
        i += 1;
    }
    proof {
        assert(s@.take(n as int) =~= s@);
    }
    out
}

} // verus!
