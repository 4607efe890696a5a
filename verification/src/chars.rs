//! Character-sequence utilities: the specification-level vocabulary
//! (trimming, searching, ordering, splitting, joining, escaping) that the
//! rendering contracts are written in, together with verified executable
//! counterparts operating on `&str` / `String`.
use vstd::prelude::*;
use vstd::string::*;

verus! {

/// The whitespace characters recognised by trimming and splitting.
pub open spec fn is_space(c: char) -> bool {
    c == ' ' || c == '\t' || c == '\n' || c == '\r'
}

/// `s` with leading whitespace removed.
pub open spec fn trim_start_s(s: Seq<char>) -> Seq<char>
    decreases s.len(),
{
    if s.len() > 0 && is_space(s[0]) {
        trim_start_s(s.drop_first())
    } else {
        s
    }
}

/// `s` with trailing whitespace removed.
pub open spec fn trim_end_s(s: Seq<char>) -> Seq<char>
    decreases s.len(),
{
    if s.len() > 0 && is_space(s[s.len() - 1]) {
        trim_end_s(s.drop_last())
    } else {
        s
    }
}

/// `s` with both leading and trailing whitespace removed.
pub open spec fn trim_s(s: Seq<char>) -> Seq<char> {
    trim_end_s(trim_start_s(s))
}

/// Total lexicographic order on character sequences, by code point.
pub open spec fn lex_le(a: Seq<char>, b: Seq<char>) -> bool
    decreases a.len(),
{
    if a.len() == 0 {
        true
    } else if b.len() == 0 {
        false
    } else if a[0] == b[0] {
        lex_le(a.drop_first(), b.drop_first())
    } else {
        (a[0] as int) < (b[0] as int)
    }
}

pub proof fn lemma_lex_le_refl(a: Seq<char>)
    ensures
        lex_le(a, a),
    decreases a.len(),
{
    if a.len() > 0 {
        lemma_lex_le_refl(a.drop_first());
    }
}

pub proof fn lemma_lex_le_total(a: Seq<char>, b: Seq<char>)
    ensures
        lex_le(a, b) || lex_le(b, a),
    decreases a.len(),
{
    if a.len() > 0 && b.len() > 0 {
        if a[0] == b[0] {
            lemma_lex_le_total(a.drop_first(), b.drop_first());
        } else {
            assert((a[0] as int) != (b[0] as int));
        }
    }
}

pub proof fn lemma_lex_le_antisym(a: Seq<char>, b: Seq<char>)
    requires
        lex_le(a, b),
        lex_le(b, a),
    ensures
        a == b,
    decreases a.len(),
{
    if a.len() == 0 {
        assert(b.len() == 0);
        assert(a =~= b);
    } else {
        assert(b.len() > 0);
        if a[0] == b[0] {
            lemma_lex_le_antisym(a.drop_first(), b.drop_first());
            assert(a =~= seq![a[0]] + a.drop_first());
            assert(b =~= seq![b[0]] + b.drop_first());
        } else {
            assert((a[0] as int) < (b[0] as int) && (b[0] as int) < (a[0] as int));
            assert(false);
        }
    }
}

pub proof fn lemma_lex_le_trans(a: Seq<char>, b: Seq<char>, c: Seq<char>)
    requires
        lex_le(a, b),
        lex_le(b, c),
    ensures
        lex_le(a, c),
    decreases a.len(),
{
    if a.len() == 0 {
    } else {
        assert(b.len() > 0);
        if b.len() > 0 && c.len() > 0 {
            if a[0] == b[0] && b[0] == c[0] {
                lemma_lex_le_trans(a.drop_first(), b.drop_first(), c.drop_first());
            }
        }
    }
}

/// Index of the first occurrence of `c` in `s`, if any.
pub open spec fn find_ch(s: Seq<char>, c: char) -> Option<int>
    decreases s.len(),
{
    if s.len() == 0 {
        None
    } else if s[0] == c {
        Some(0)
    } else {
        match find_ch(s.drop_first(), c) {
            Some(i) => Some(i + 1),
            None => None,
        }
    }
}

pub proof fn lemma_find_ch(s: Seq<char>, c: char)
    ensures
        match find_ch(s, c) {
            Some(i) => 0 <= i < s.len() && s[i] == c && forall|k: int| 0 <= k < i ==> s[k] != c,
            None => forall|k: int| 0 <= k < s.len() ==> s[k] != c,
        },
    decreases s.len(),
{
    if s.len() > 0 && s[0] != c {
        let t = s.drop_first();
        lemma_find_ch(t, c);
        match find_ch(t, c) {
            Some(i) => {
                assert(s[i + 1] == t[i]);
                assert forall|k: int| 0 <= k < i + 1 implies s[k] != c by {
                    if k > 0 {
                        assert(s[k] == t[k - 1]);
                    }
                }
            },
            None => {
                assert forall|k: int| 0 <= k < s.len() implies s[k] != c by {
                    if k > 0 {
                        assert(s[k] == t[k - 1]);
                    }
                }
            },
        }
    }
}

/// When `i` is the first index holding `c`, `find_ch` returns it.
pub proof fn lemma_find_ch_at(s: Seq<char>, c: char, i: int)
    requires
        0 <= i < s.len(),
        s[i] == c,
        forall|k: int| 0 <= k < i ==> s[k] != c,
    ensures
        find_ch(s, c) == Some(i),
    decreases i,
{
    if i > 0 {
        let t = s.drop_first();
        assert(s[0] != c);
        assert(t[i - 1] == s[i]);
        assert forall|k: int| 0 <= k < i - 1 implies t[k] != c by {
            assert(t[k] == s[k + 1]);
        }
        lemma_find_ch_at(t, c, i - 1);
    }
}

/// Index of the last occurrence of `c` in `s`, if any.
pub open spec fn rfind_ch(s: Seq<char>, c: char) -> Option<int>
    decreases s.len(),
{
    if s.len() == 0 {
        None
    } else if s[s.len() - 1] == c {
        Some(s.len() - 1)
    } else {
        rfind_ch(s.drop_last(), c)
    }
}

pub proof fn lemma_rfind_ch(s: Seq<char>, c: char)
    ensures
        match rfind_ch(s, c) {
            Some(i) => 0 <= i < s.len() && s[i] == c && forall|k: int| i < k < s.len() ==> s[k] != c,
            None => forall|k: int| 0 <= k < s.len() ==> s[k] != c,
        },
    decreases s.len(),
{
    if s.len() > 0 && s[s.len() - 1] != c {
        let t = s.drop_last();
        lemma_rfind_ch(t, c);
        match rfind_ch(t, c) {
            Some(i) => {
                assert(s[i] == t[i]);
                assert forall|k: int| i < k < s.len() implies s[k] != c by {
                    if k < s.len() - 1 {
                        assert(s[k] == t[k]);
                    }
                }
            },
            None => {
                assert forall|k: int| 0 <= k < s.len() implies s[k] != c by {
                    if k < s.len() - 1 {
                        assert(s[k] == t[k]);
                    }
                }
            },
        }
    }
}

/// Whether `p` is a prefix of `s`.
pub open spec fn starts_with_s(s: Seq<char>, p: Seq<char>) -> bool {
    p.len() <= s.len() && s.subrange(0, p.len() as int) == p
}

/// Whether `p` occurs in `s` starting at index `i`.
pub open spec fn match_at(s: Seq<char>, p: Seq<char>, i: int) -> bool {
    0 <= i && i + p.len() <= s.len() && s.subrange(i, i + p.len()) == p
}

/// Index of the first occurrence of `p` as a contiguous subsequence of `s`.
pub open spec fn find_sub(s: Seq<char>, p: Seq<char>) -> Option<int>
    decreases s.len(),
{
    if p.len() > s.len() {
        None
    } else if starts_with_s(s, p) {
        Some(0)
    } else if s.len() == 0 {
        None
    } else {
        match find_sub(s.drop_first(), p) {
            Some(i) => Some(i + 1),
            None => None,
        }
    }
}

pub proof fn lemma_find_sub(s: Seq<char>, p: Seq<char>)
    ensures
        match find_sub(s, p) {
            Some(i) => match_at(s, p, i) && forall|k: int| 0 <= k < i ==> !match_at(s, p, k),
            None => forall|k: int| 0 <= k ==> !match_at(s, p, k),
        },
    decreases s.len(),
{
    if p.len() > s.len() {
        assert forall|k: int| 0 <= k implies !match_at(s, p, k) by {}
    } else if starts_with_s(s, p) {
    } else if s.len() == 0 {
    } else {
        let t = s.drop_first();
        lemma_find_sub(t, p);
        assert forall|k: int| 0 <= k && match_at(s, p, k + 1) implies match_at(t, p, k) by {
            assert(s.subrange(k + 1, k + 1 + p.len()) =~= t.subrange(k, k + p.len()));
        }
        assert forall|k: int| 0 <= k && match_at(t, p, k) implies match_at(s, p, k + 1) by {
            assert(s.subrange(k + 1, k + 1 + p.len()) =~= t.subrange(k, k + p.len()));
        }
        match find_sub(t, p) {
            Some(i) => {
                assert(match_at(s, p, i + 1));
                assert forall|k: int| 0 <= k < i + 1 implies !match_at(s, p, k) by {
                    if k == 0 {
                        assert(match_at(s, p, 0) ==> starts_with_s(s, p));
                    } else {
                        assert(!match_at(t, p, k - 1));
                    }
                }
            },
            None => {
                assert forall|k: int| 0 <= k implies !match_at(s, p, k) by {
                    if k == 0 {
                        assert(match_at(s, p, 0) ==> starts_with_s(s, p));
                    } else {
                        assert(!match_at(t, p, k - 1));
                    }
                }
            },
        }
    }
}

/// Whether `p` occurs anywhere in `s`.
pub open spec fn contains_sub(s: Seq<char>, p: Seq<char>) -> bool {
    find_sub(s, p) is Some
}

/// Concatenation of character sequences is associative; usable as an
/// ambient rewrite where long concatenations are regrouped.
pub broadcast proof fn seq_cat_assoc(a: Seq<char>, b: Seq<char>, c: Seq<char>)
    ensures
        #[trigger] ((a + b) + c) == a + (b + c),
{
    assert((a + b) + c =~= a + (b + c));
}

/// Attribute-value escaping on output: only `"` is escaped, to `&quot;`.
pub open spec fn escape_quot(s: Seq<char>) -> Seq<char>
    decreases s.len(),
{
    if s.len() == 0 {
        Seq::empty()
    } else if s[0] == '"' {
        "&quot;"@ + escape_quot(s.drop_first())
    } else {
        seq![s[0]] + escape_quot(s.drop_first())
    }
}

/// The given parts joined by the separator `sep`.
pub open spec fn join_with(parts: Seq<Seq<char>>, sep: Seq<char>) -> Seq<char>
    decreases parts.len(),
{
    if parts.len() == 0 {
        Seq::empty()
    } else if parts.len() == 1 {
        parts[0]
    } else {
        parts[0] + sep + join_with(parts.drop_first(), sep)
    }
}

/// `s` split at every occurrence of `c`; the separators are not kept, and
/// empty pieces are kept, so the result always has one more piece than
/// there are separators.
pub open spec fn split_ch(s: Seq<char>, c: char) -> Seq<Seq<char>>
    decreases s.len(),
{
    match find_ch(s, c) {
        None => seq![s],
        Some(i) => if 0 <= i < s.len() {
            seq![s.subrange(0, i)] + split_ch(s.subrange(i + 1, s.len() as int), c)
        } else {
            seq![s]
        },
    }
}

/// The maximal non-empty whitespace-free runs of `s`, in order.
pub open spec fn split_ws(s: Seq<char>) -> Seq<Seq<char>>
    decreases s.len(),
{
    if s.len() == 0 {
        Seq::empty()
    } else if is_space(s[0]) {
        split_ws(s.drop_first())
    } else {
        let run_len = ws_run_len(s);
        if 1 <= run_len <= s.len() {
            seq![s.subrange(0, run_len)] + split_ws(s.subrange(run_len, s.len() as int))
        } else {
            seq![s]
        }
    }
}

/// Length of the leading whitespace-free run of `s`.
pub open spec fn ws_run_len(s: Seq<char>) -> int
    decreases s.len(),
{
    if s.len() == 0 || is_space(s[0]) {
        0
    } else {
        1 + ws_run_len(s.drop_first())
    }
}

pub proof fn lemma_ws_run_len(s: Seq<char>)
    ensures
        0 <= ws_run_len(s) <= s.len(),
        forall|k: int| 0 <= k < ws_run_len(s) ==> !is_space(s[k]),
        ws_run_len(s) < s.len() ==> is_space(s[ws_run_len(s)]),
    decreases s.len(),
{
    if s.len() > 0 && !is_space(s[0]) {
        let t = s.drop_first();
        lemma_ws_run_len(t);
        assert forall|k: int| 0 <= k < ws_run_len(s) implies !is_space(s[k]) by {
            if k > 0 {
                assert(s[k] == t[k - 1]);
            }
        }
        if ws_run_len(s) < s.len() {
            assert(s[ws_run_len(s)] == t[ws_run_len(t)]);
        }
    }
}

/// When the first `m` characters are the leading whitespace-free run,
/// `ws_run_len` is `m`.
pub proof fn lemma_ws_run_len_at(t: Seq<char>, m: int)
    requires
        0 <= m <= t.len(),
        forall|k: int| 0 <= k < m ==> !is_space(t[k]),
        m < t.len() ==> is_space(t[m]),
    ensures
        ws_run_len(t) == m,
    decreases m,
{
    if m == 0 {
    } else {
        let u = t.drop_first();
        assert(!is_space(t[0]));
        assert forall|k: int| 0 <= k < m - 1 implies !is_space(u[k]) by {
            assert(u[k] == t[k + 1]);
        }
        if m - 1 < u.len() {
            assert(u[m - 1] == t[m]);
        }
        lemma_ws_run_len_at(u, m - 1);
    }
}

/// ASCII lowercasing of one character; characters outside `A`..`Z` are kept.
pub open spec fn lower_ch(c: char) -> char {
    if 'A' <= c && c <= 'Z' {
        ((c as u8) + 32) as char
    } else {
        c
    }
}

/// ASCII lowercasing of a sequence, character by character.
pub open spec fn lower_s(s: Seq<char>) -> Seq<char> {
    s.map_values(|c: char| lower_ch(c))
}

/// Two spaces of indentation per depth level.
pub open spec fn sp2(n: nat) -> Seq<char>
    decreases n,
{
    if n == 0 {
        Seq::empty()
    } else {
        sp2((n - 1) as nat) + "  "@
    }
}

/// The last `/`-separated segment of `s`: the text after the final `/`, or
/// all of `s` when it has none.
pub open spec fn last_segment(s: Seq<char>) -> Seq<char> {
    match rfind_ch(s, '/') {
        None => s,
        Some(i) => s.subrange(i + 1, s.len() as int),
    }
}

/// Order on attribute pairs: by key, ties broken by value, so that the
/// order is total and a sorted sequence of pairs is unique.
pub open spec fn pair_le(x: (Seq<char>, Seq<char>), y: (Seq<char>, Seq<char>)) -> bool {
    if x.0 == y.0 {
        lex_le(x.1, y.1)
    } else {
        lex_le(x.0, y.0)
    }
}

pub proof fn lemma_pair_le_total_ordering()
    ensures
        vstd::relations::total_ordering(
            |x: (Seq<char>, Seq<char>), y: (Seq<char>, Seq<char>)| pair_le(x, y),
        ),
{
    let leq = |x: (Seq<char>, Seq<char>), y: (Seq<char>, Seq<char>)| pair_le(x, y);
    assert forall|x: (Seq<char>, Seq<char>)| #[trigger] leq(x, x) by {
        lemma_lex_le_refl(x.1);
    }
    assert forall|x: (Seq<char>, Seq<char>), y: (Seq<char>, Seq<char>)|
        #[trigger] leq(x, y) && #[trigger] leq(y, x) implies x == y by {
        if x.0 == y.0 {
            lemma_lex_le_antisym(x.1, y.1);
        } else {
            lemma_lex_le_antisym(x.0, y.0);
        }
    }
    assert forall|x: (Seq<char>, Seq<char>), y: (Seq<char>, Seq<char>), z: (Seq<char>, Seq<char>)|
        #[trigger] leq(x, y) && #[trigger] leq(y, z) implies leq(x, z) by {
        if x.0 == y.0 && y.0 == z.0 {
            lemma_lex_le_trans(x.1, y.1, z.1);
        } else if x.0 == y.0 {
        } else if y.0 == z.0 {
        } else {
            lemma_lex_le_trans(x.0, y.0, z.0);
            if x.0 == z.0 {
                lemma_lex_le_antisym(x.0, y.0);
            }
        }
    }
    assert forall|x: (Seq<char>, Seq<char>), y: (Seq<char>, Seq<char>)|
        #[trigger] leq(x, y) || #[trigger] leq(y, x) by {
        if x.0 == y.0 {
            lemma_lex_le_total(x.1, y.1);
        } else {
            lemma_lex_le_total(x.0, y.0);
        }
    }
}

} // verus!
