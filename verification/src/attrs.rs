//! Pug-style attribute rendering: attributes are partitioned into *valued*
//! and *boolean* ones, each partition is sorted by key ascending, and the
//! result is printed as `(k="v", ..., bare, ...)`.
use vstd::prelude::*;
use vstd::string::*;
use vstd::relations::sorted_by;
use vstd::seq_lib::lemma_sorted_unique;
use crate::chars::{
    escape_quot, join_with, lemma_pair_le_total_ordering, pair_le, starts_with_s,
};
use crate::elem::attrs_view;
use crate::strutil::{push_escaped, starts_with_str, str_eq, str_le};

verus! {

/// Keys that stay valued even when their value is empty: attributes whose
/// empty value is meaningful in HTML, so they are never shown bare.
pub open spec fn value_like_key(k: Seq<char>) -> bool {
    ||| k == "value"@
    ||| k == "alt"@
    ||| k == "title"@
    ||| k == "placeholder"@
    ||| k == "content"@
    ||| k == "href"@
    ||| k == "src"@
    ||| starts_with_s(k, "data-"@)
    ||| starts_with_s(k, "aria-"@)
}

/// A boolean attribute: empty value and not on the value-like list.
pub open spec fn is_boolean_attr(p: (Seq<char>, Seq<char>)) -> bool {
    p.1.len() == 0 && !value_like_key(p.0)
}

/// The pair order used for sorting, as a function value.
pub open spec fn pair_leq_fn() -> spec_fn((Seq<char>, Seq<char>), (Seq<char>, Seq<char>)) -> bool {
    |x: (Seq<char>, Seq<char>), y: (Seq<char>, Seq<char>)| pair_le(x, y)
}

/// The valued attributes of `s`, in order.
pub open spec fn valued_of(s: Seq<(Seq<char>, Seq<char>)>) -> Seq<(Seq<char>, Seq<char>)>
    decreases s.len(),
{
    if s.len() == 0 {
        Seq::empty()
    } else {
        let rest = valued_of(s.drop_first());
        if !is_boolean_attr(s[0]) {
            seq![s[0]] + rest
        } else {
            rest
        }
    }
}

/// The boolean attributes of `s`, in order.
pub open spec fn bools_of(s: Seq<(Seq<char>, Seq<char>)>) -> Seq<(Seq<char>, Seq<char>)>
    decreases s.len(),
{
    if s.len() == 0 {
        Seq::empty()
    } else {
        let rest = bools_of(s.drop_first());
        if is_boolean_attr(s[0]) {
            seq![s[0]] + rest
        } else {
            rest
        }
    }
}

/// The printed pieces of an attribute list: valued attributes first as
/// `key="escaped-value"`, then boolean attributes bare, each partition
/// sorted ascending.
pub open spec fn attr_parts(attrs: Seq<(Seq<char>, Seq<char>)>) -> Seq<Seq<char>> {
    let valued = valued_of(attrs).sort_by(pair_leq_fn());
    let bools = bools_of(attrs).sort_by(pair_leq_fn());
    valued.map_values(|p: (Seq<char>, Seq<char>)| p.0 + "=\""@ + escape_quot(p.1) + "\""@)
        + bools.map_values(|p: (Seq<char>, Seq<char>)| p.0)
}

/// The whole parenthesised attribute block, empty when there is nothing to
/// print.
pub open spec fn attr_block(attrs: Seq<(Seq<char>, Seq<char>)>) -> Seq<char> {
    let parts = attr_parts(attrs);
    if parts.len() == 0 {
        Seq::empty()
    } else {
        "("@ + join_with(parts, ", "@) + ")"@
    }
}

fn value_like_key_exec(k: &str) -> (r: bool)
    ensures
        r == value_like_key(k@),
{
    str_eq(k, "value") || str_eq(k, "alt") || str_eq(k, "title") || str_eq(k, "placeholder")
        || str_eq(k, "content") || str_eq(k, "href") || str_eq(k, "src") || starts_with_str(
        k,
        "data-",
    ) || starts_with_str(k, "aria-")
}

fn is_boolean_attr_exec(p: &(String, String)) -> (r: bool)
    ensures
        r == is_boolean_attr((p.0@, p.1@)),
{
    p.1.as_str().unicode_len() == 0 && !value_like_key_exec(p.0.as_str())
}

fn pair_le_exec(a: &(String, String), b: &(String, String)) -> (r: bool)
    ensures
        r == pair_le((a.0@, a.1@), (b.0@, b.1@)),
{
    if str_eq(a.0.as_str(), b.0.as_str()) {
        str_le(a.1.as_str(), b.1.as_str())
    } else {
        str_le(a.0.as_str(), b.0.as_str())
    }
}

/// Sort a pair list ascending in the pair order; the result is exactly the
/// specification-level `sort_by`.
fn sort_pairs(v: Vec<(String, String)>) -> (r: Vec<(String, String)>)
    ensures
        attrs_view(r@) == attrs_view(v@).sort_by(pair_leq_fn()),
{
    broadcast use vstd::seq_lib::group_seq_properties;

    proof {
        lemma_pair_le_total_ordering();
    }
    let mut src = v;
    let mut out: Vec<(String, String)> = Vec::new();
    let ghost orig_ms = attrs_view(src@).to_multiset();
    proof {
        attrs_view(src@).to_multiset_ensures();
        attrs_view(out@).to_multiset_ensures();
        assert(attrs_view(out@) =~= Seq::<(Seq<char>, Seq<char>)>::empty());
        assert(attrs_view(out@).to_multiset().add(attrs_view(src@).to_multiset()) =~= orig_ms);
    }
    while src.len() > 0
        invariant
            attrs_view(out@).to_multiset().add(attrs_view(src@).to_multiset()) == orig_ms,
            sorted_by(attrs_view(out@), pair_leq_fn()),
            forall|a: int, b: int|
                0 <= a < attrs_view(out@).len() && 0 <= b < attrs_view(src@).len() ==> pair_le(
                    #[trigger] attrs_view(out@)[a],
                    #[trigger] attrs_view(src@)[b],
                ),
            orig_ms == attrs_view(v@).to_multiset(),
        decreases src.len(),
    {
        let n = src.len();
        let mut m: usize = 0;
        let mut i: usize = 1;
        proof {
            lemma_pair_le_refl_pair(attrs_view(src@)[0]);
        }
        while i < n
            invariant
                m < i <= n,
                n == src.len(),
                forall|k: int| 0 <= k < i ==> pair_le(
                    attrs_view(src@)[m as int],
                    #[trigger] attrs_view(src@)[k],
                ),
            decreases n - i,
        {
            if pair_le_exec(&src[i], &src[m]) {
                proof {
                    assert forall|k: int| 0 <= k < i + 1 implies pair_le(
                        attrs_view(src@)[i as int],
                        attrs_view(src@)[k],
                    ) by {
                        if k < i {
                            assert(pair_le(attrs_view(src@)[m as int], attrs_view(src@)[k]));
                            lemma_pair_le_trans_pairs(
                                attrs_view(src@)[i as int],
                                attrs_view(src@)[m as int],
                                attrs_view(src@)[k],
                            );
                        } else {
                            lemma_pair_le_refl_pair(attrs_view(src@)[i as int]);
                        }
                    }
                }
                m = i;
            } else {
                proof {
                    lemma_pair_le_total_pair(attrs_view(src@)[m as int], attrs_view(src@)[i as int]);
                }
            }
            i += 1;
        }
        let ghost pre_src = attrs_view(src@);
        let ghost pre_out = attrs_view(out@);
        let x = src.remove(m);
        out.push(x);
        proof {
            let xv = (x.0@, x.1@);
            assert(xv == pre_src[m as int]);
            assert(attrs_view(src@) =~~= pre_src.remove(m as int));
            assert(attrs_view(out@) =~~= pre_out.push(xv));
            pre_src.to_multiset_ensures();
            pre_out.to_multiset_ensures();
            assert(attrs_view(src@).to_multiset() =~= pre_src.to_multiset().remove(xv));
            assert(attrs_view(out@).to_multiset() =~= pre_out.to_multiset().insert(xv));
            assert(pre_src.to_multiset().count(xv) > 0) by {
                assert(pre_src.contains(xv));
            }
            assert(attrs_view(out@).to_multiset().add(attrs_view(src@).to_multiset())
                =~= pre_out.to_multiset().add(pre_src.to_multiset()));
            assert forall|a: int, b: int|
                0 <= a < attrs_view(out@).len() && 0 <= b
                    < attrs_view(src@).len() implies pair_le(
                #[trigger] attrs_view(out@)[a],
                #[trigger] attrs_view(src@)[b],
            ) by {
                let sb = if b < m {
                    b
                } else {
                    b + 1
                };
                assert(attrs_view(src@)[b] == pre_src[sb]);
                if a < pre_out.len() {
                    assert(pair_le(pre_out[a], pre_src[sb]));
                } else {
                    assert(attrs_view(out@)[a] == xv);
                    assert(pair_le(pre_src[m as int], pre_src[sb]));
                }
            }
            assert(sorted_by(attrs_view(out@), pair_leq_fn())) by {
                assert forall|a: int, b: int|
                    0 <= a < b < attrs_view(out@).len() implies #[trigger] pair_leq_fn()(
                    attrs_view(out@)[a],
                    attrs_view(out@)[b],
                ) by {
                    if b < pre_out.len() {
                        assert(pair_leq_fn()(pre_out[a], pre_out[b]));
                    } else {
                        assert(attrs_view(out@)[b] == xv);
                        assert(pair_le(pre_out[a], pre_src[m as int]));
                    }
                }
            }
        }
    }
    proof {
        assert(attrs_view(src@) =~= Seq::<(Seq<char>, Seq<char>)>::empty());
        attrs_view(src@).to_multiset_ensures();
        assert(attrs_view(out@).to_multiset() =~= attrs_view(v@).to_multiset());
        attrs_view(v@).lemma_sort_by_ensures(pair_leq_fn());
        lemma_sorted_unique(
            attrs_view(out@),
            attrs_view(v@).sort_by(pair_leq_fn()),
            pair_leq_fn(),
        );
    }
    out
}

/// The printed pieces of a plain `k="v"` block: every attribute valued,
/// sorted ascending.
pub open spec fn kv_parts(attrs: Seq<(Seq<char>, Seq<char>)>) -> Seq<Seq<char>> {
    attrs.sort_by(pair_leq_fn()).map_values(
        |p: (Seq<char>, Seq<char>)| p.0 + "=\""@ + escape_quot(p.1) + "\""@,
    )
}

/// A parenthesised `(k="v", ...)` block with every attribute valued and
/// sorted ascending, empty when there are no attributes.
pub open spec fn kv_block(attrs: Seq<(Seq<char>, Seq<char>)>) -> Seq<char> {
    if attrs.len() == 0 {
        Seq::empty()
    } else {
        "("@ + join_with(kv_parts(attrs), ", "@) + ")"@
    }
}

/// Append the plain `k="v"` block of `attrs`.
pub fn push_kv_block(out: &mut String, attrs: &Vec<(String, String)>)
    ensures
        final(out)@ == old(out)@ + kv_block(attrs_view(attrs@)),
{
    let ghost av = attrs_view(attrs@);
    if attrs.len() == 0 {
        proof {
            assert(old(out)@ + kv_block(av) =~= old(out)@);
        }
        return ;
    }
    let mut copy: Vec<(String, String)> = Vec::new();
    let n = attrs.len();
    let mut i: usize = 0;
    while i < n
        invariant
            i <= n,
            n == attrs.len(),
            av == attrs_view(attrs@),
            copy@.len() == i,
            forall|j: int| 0 <= j < i ==> (#[trigger] copy@[j].0@, copy@[j].1@) == av[j],
        decreases n - i,
    {
        copy.push((attrs[i].0.clone(), attrs[i].1.clone()));
        i += 1;
    }
    proof {
        assert(attrs_view(copy@) =~~= av);
    }
    let sorted = sort_pairs(copy);
    let ghost vparts = kv_parts(av);
    let mut parts: Vec<String> = Vec::new();
    let sn = sorted.len();
    let mut j: usize = 0;
    proof {
        lemma_pair_le_total_ordering();
        av.lemma_sort_by_ensures(pair_leq_fn());
        broadcast use vstd::seq_lib::group_seq_properties;

        av.to_multiset_ensures();
        av.sort_by(pair_leq_fn()).to_multiset_ensures();
        assert(av.sort_by(pair_leq_fn()).len() == av.len());
    }
    while j < sn
        invariant
            j <= sn,
            sn == sorted.len(),
            attrs_view(sorted@) == av.sort_by(pair_leq_fn()),
            sn == av.sort_by(pair_leq_fn()).len(),
            vparts == kv_parts(av),
            vparts.len() == sn,
            parts@.len() == j,
            forall|t: int| 0 <= t < j ==> #[trigger] parts@[t]@ == vparts[t],
        decreases sn - j,
    {
        let mut part = sorted[j].0.clone();
        part.append("=\"");
        push_escaped(&mut part, sorted[j].1.as_str());
        part.append("\"");
        proof {
            assert(attrs_view(sorted@)[j as int] == (
                sorted@[j as int].0@,
                sorted@[j as int].1@,
            ));
        }
        parts.push(part);
        j += 1;
    }
    proof {
        assert(crate::strutil::strs_view(parts@) =~~= kv_parts(av));
    }
    out.append("(");
    push_join(out, &parts, ", ");
    out.append(")");
    proof {
        assert(old(out)@ + "("@ + join_with(kv_parts(av), ", "@) + ")"@ =~= old(out)@ + ("("@
            + join_with(kv_parts(av), ", "@) + ")"@));
    }
}

proof fn lemma_join_take(s: Seq<Seq<char>>, sep: Seq<char>, i: int)
    requires
        1 <= i < s.len(),
    ensures
        join_with(s.take(i + 1), sep) == join_with(s.take(i), sep) + sep + s[i],
    decreases i,
{
    let a = s.take(i + 1);
    let b = s.take(i);
    if i == 1 {
        assert(a.drop_first() =~= seq![s[1]]);
        assert(join_with(a.drop_first(), sep) == s[1]);
        assert(join_with(a, sep) == a[0] + sep + join_with(a.drop_first(), sep));
        assert(join_with(b, sep) == s[0]);
    } else {
        let t = s.drop_first();
        lemma_join_take(t, sep, i - 1);
        assert(a.drop_first() =~= t.take(i));
        assert(b.drop_first() =~= t.take(i - 1));
        assert(t[i - 1] == s[i]);
        assert(join_with(a, sep) == s[0] + sep + join_with(t.take(i), sep));
        assert(join_with(b, sep) == s[0] + sep + join_with(t.take(i - 1), sep));
        assert(join_with(t.take(i), sep) == join_with(t.take(i - 1), sep) + sep + t[i - 1]);
        assert(s[0] + sep + (join_with(t.take(i - 1), sep) + sep + t[i - 1]) =~= (s[0] + sep
            + join_with(t.take(i - 1), sep)) + sep + t[i - 1]);
    }
}

/// Append the given parts joined by `sep`.
pub fn push_join(out: &mut String, parts: &Vec<String>, sep: &str)
    ensures
        final(out)@ == old(out)@ + join_with(crate::strutil::strs_view(parts@), sep@),
{
    let ghost sv = crate::strutil::strs_view(parts@);
    let n = parts.len();
    if n == 0 {
        proof {
            assert(old(out)@ + join_with(sv, sep@) =~= old(out)@);
        }
        return ;
    }
    out.append(parts[0].as_str());
    let mut i: usize = 1;
    proof {
        assert(sv.take(1) =~= seq![sv[0]]);
        assert(join_with(sv.take(1), sep@) == sv[0]);
    }
    while i < n
        invariant
            1 <= i <= n,
            n == parts.len(),
            sv == crate::strutil::strs_view(parts@),
            out@ == old(out)@ + join_with(sv.take(i as int), sep@),
        decreases n - i,
    {
        out.append(sep);
        out.append(parts[i].as_str());
        proof {
            lemma_join_take(sv, sep@, i as int);
            assert(old(out)@ + join_with(sv.take(i as int), sep@) + sep@ + sv[i as int] =~= old(
                out,
            )@ + (join_with(sv.take(i as int), sep@) + sep@ + sv[i as int]));
        }
        i += 1;
    }
    proof {
        assert(sv.take(n as int) =~= sv);
    }
}

/// Append the whole Pug-style attribute block of `attrs`, empty when there
/// is nothing to print.
pub fn push_attr_block(out: &mut String, attrs: &Vec<(String, String)>)
    ensures
        final(out)@ == old(out)@ + attr_block(attrs_view(attrs@)),
{
    broadcast use vstd::seq_lib::group_seq_properties;

    proof {
        lemma_pair_le_total_ordering();
    }
    let ghost av = attrs_view(attrs@);
    let mut valued: Vec<(String, String)> = Vec::new();
    let mut bools: Vec<(String, String)> = Vec::new();
    let n = attrs.len();
    let mut i: usize = 0;
    proof {
        assert(av.skip(0) =~= av);
        assert(attrs_view(valued@) =~= Seq::<(Seq<char>, Seq<char>)>::empty());
        assert(attrs_view(bools@) =~= Seq::<(Seq<char>, Seq<char>)>::empty());
    }
    while i < n
        invariant
            i <= n,
            n == attrs.len(),
            av == attrs_view(attrs@),
            attrs_view(valued@) + valued_of(av.skip(i as int)) == valued_of(av),
            attrs_view(bools@) + bools_of(av.skip(i as int)) == bools_of(av),
        decreases n - i,
    {
        let ghost pre_valued = attrs_view(valued@);
        let ghost pre_bools = attrs_view(bools@);
        let k = attrs[i].0.clone();
        let v = attrs[i].1.clone();
        let is_b = is_boolean_attr_exec(&attrs[i]);
        if is_b {
            bools.push((k, v));
        } else {
            valued.push((k, v));
        }
        proof {
            let xv = av[i as int];
            assert(xv == (attrs@[i as int].0@, attrs@[i as int].1@));
            let tail = av.skip(i as int);
            assert(tail[0] == xv);
            assert(tail.drop_first() =~= av.skip(i as int + 1));
            if is_b {
                assert(attrs_view(bools@) =~~= pre_bools.push(xv));
                assert(attrs_view(valued@) =~~= pre_valued);
                assert(bools_of(tail) == seq![xv] + bools_of(av.skip(i as int + 1)));
                assert(pre_bools.push(xv) + bools_of(av.skip(i as int + 1)) =~= pre_bools + (seq![
                    xv,
                ] + bools_of(av.skip(i as int + 1))));
                assert(valued_of(tail) == valued_of(av.skip(i as int + 1)));
            } else {
                assert(attrs_view(valued@) =~~= pre_valued.push(xv));
                assert(attrs_view(bools@) =~~= pre_bools);
                assert(valued_of(tail) == seq![xv] + valued_of(av.skip(i as int + 1)));
                assert(pre_valued.push(xv) + valued_of(av.skip(i as int + 1)) =~= pre_valued + (
                seq![xv] + valued_of(av.skip(i as int + 1))));
                assert(bools_of(tail) == bools_of(av.skip(i as int + 1)));
            }
        }
        i += 1;
    }
    proof {
        assert(valued_of(av.skip(n as int)).len() == 0);
        assert(bools_of(av.skip(n as int)).len() == 0);
        assert(attrs_view(valued@) + valued_of(av.skip(n as int)) =~= attrs_view(valued@));
        assert(attrs_view(bools@) + bools_of(av.skip(n as int)) =~= attrs_view(bools@));
    }
    let sorted_valued = sort_pairs(valued);
    let sorted_bools = sort_pairs(bools);
    let mut parts: Vec<String> = Vec::new();
    let ghost vparts = valued_of(av).sort_by(pair_leq_fn()).map_values(
        |p: (Seq<char>, Seq<char>)| p.0 + "=\""@ + escape_quot(p.1) + "\""@,
    );
    let ghost bparts = bools_of(av).sort_by(pair_leq_fn()).map_values(
        |p: (Seq<char>, Seq<char>)| p.0,
    );
    let vn = sorted_valued.len();
    let mut j: usize = 0;
    while j < vn
        invariant
            j <= vn,
            vn == sorted_valued.len(),
            attrs_view(sorted_valued@) == valued_of(av).sort_by(pair_leq_fn()),
            vparts == valued_of(av).sort_by(pair_leq_fn()).map_values(
                |p: (Seq<char>, Seq<char>)| p.0 + "=\""@ + escape_quot(p.1) + "\""@,
            ),
            parts@.len() == j,
            forall|t: int| 0 <= t < j ==> #[trigger] parts@[t]@ == vparts[t],
        decreases vn - j,
    {
        let mut part = sorted_valued[j].0.clone();
        part.append("=\"");
        push_escaped(&mut part, sorted_valued[j].1.as_str());
        part.append("\"");
        proof {
            assert(attrs_view(sorted_valued@)[j as int] == (
                sorted_valued@[j as int].0@,
                sorted_valued@[j as int].1@,
            ));
        }
        parts.push(part);
        j += 1;
    }
    let bn = sorted_bools.len();
    let mut t: usize = 0;
    while t < bn
        invariant
            t <= bn,
            bn == sorted_bools.len(),
            vn == vparts.len(),
            attrs_view(sorted_bools@) == bools_of(av).sort_by(pair_leq_fn()),
            bparts == bools_of(av).sort_by(pair_leq_fn()).map_values(
                |p: (Seq<char>, Seq<char>)| p.0,
            ),
            parts@.len() == vn + t,
            forall|u: int| 0 <= u < vn ==> #[trigger] parts@[u]@ == vparts[u],
            forall|u: int| 0 <= u < t ==> #[trigger] parts@[vn + u]@ == bparts[u],
        decreases bn - t,
    {
        let key = sorted_bools[t].0.clone();
        proof {
            assert(attrs_view(sorted_bools@)[t as int] == (
                sorted_bools@[t as int].0@,
                sorted_bools@[t as int].1@,
            ));
        }
        parts.push(key);
        t += 1;
    }
    proof {
        let sv = crate::strutil::strs_view(parts@);
        let ap = attr_parts(av);
        let vs = valued_of(av).sort_by(pair_leq_fn());
        let bs = bools_of(av).sort_by(pair_leq_fn());
        assert(sv.len() == ap.len());
        assert forall|u: int| 0 <= u < ap.len() implies sv[u] == ap[u] by {
            if u < vn {
                assert(ap[u] == vs[u].0 + "=\""@ + escape_quot(vs[u].1) + "\""@);
                assert(sv[u] == parts@[u]@);
                assert(parts@[u]@ == vparts[u]);
                assert(vparts[u] == vs[u].0 + "=\""@ + escape_quot(vs[u].1) + "\""@);
            } else {
                assert(ap[u] == bs[u - vn].0);
                assert(sv[u] == parts@[u]@);
                assert(parts@[vn + (u - vn)]@ == bparts[u - vn]);
                assert(vn + (u - vn) == u);
                assert(bparts[u - vn] == bs[u - vn].0);
            }
        }
        assert(sv =~= ap);
    }
    if parts.len() == 0 {
        proof {
            assert(old(out)@ + attr_block(av) =~= old(out)@);
        }
        return ;
    }
    out.append("(");
    push_join(out, &parts, ", ");
    out.append(")");
    proof {
        assert(old(out)@ + "("@ + join_with(crate::strutil::strs_view(parts@), ", "@) + ")"@
            =~= old(out)@ + ("("@ + join_with(attr_parts(av), ", "@) + ")"@));
    }
}

proof fn lemma_pair_le_refl_pair(x: (Seq<char>, Seq<char>))
    ensures
        pair_le(x, x),
{
    crate::chars::lemma_lex_le_refl(x.1);
}

proof fn lemma_pair_le_total_pair(x: (Seq<char>, Seq<char>), y: (Seq<char>, Seq<char>))
    ensures
        pair_le(x, y) || pair_le(y, x),
{
    if x.0 == y.0 {
        crate::chars::lemma_lex_le_total(x.1, y.1);
    } else {
        crate::chars::lemma_lex_le_total(x.0, y.0);
    }
}

proof fn lemma_pair_le_trans_pairs(
    x: (Seq<char>, Seq<char>),
    y: (Seq<char>, Seq<char>),
    z: (Seq<char>, Seq<char>),
)
    requires
        pair_le(x, y),
        pair_le(y, z),
    ensures
        pair_le(x, z),
{
    if x.0 == y.0 && y.0 == z.0 {
        crate::chars::lemma_lex_le_trans(x.1, y.1, z.1);
    } else if x.0 == y.0 {
    } else if y.0 == z.0 {
    } else {
        crate::chars::lemma_lex_le_trans(x.0, y.0, z.0);
        if x.0 == z.0 {
            crate::chars::lemma_lex_le_antisym(x.0, y.0);
        }
    }
}

} // verus!
