//! General properties of the rendering engine and the registry, stated
//! and proved over the same specification functions the public contracts
//! use.
use vstd::prelude::*;
use vstd::multiset::Multiset;
use vstd::seq_lib::lemma_sorted_unique;
use crate::attrs::{attr_block, attr_parts, bools_of, is_boolean_attr, pair_leq_fn, valued_of};
use crate::chars::{last_segment, lemma_pair_le_total_ordering, lex_le, sp2, trim_s};
use crate::attrs::{kv_block, kv_parts};
use crate::elem::{attr_get, attr_find, attr_remove, elem_height, forest_height, unique_keys,
    ElemModel, lemma_attr_find};
use crate::registry::{pat_matches, reg_find, reg_find_union, reg_lookup,
    lemma_reg_find_union, lemma_reg_find_union_at};
use crate::elem::wf_elem;
use crate::render::{k_cond, k_loop, loop_header, render_elem, render_elem2, render_elem3,
    render_seq, render_special, strip_attr, template_extras, xslt_shape, ShapeModel};

verus! {

/// Rendering is a pure function: two renderings of the same element with
/// the same configuration are byte-identical, whatever produced them.
pub proof fn lemma_render_pure(
    a: Seq<char>,
    b: Seq<char>,
    e: ElemModel,
    d: nat,
    sp: bool,
    xs: bool,
    rm: Option<Seq<(Seq<char>, ElemModel)>>,
    fuel: nat,
)
    requires
        a == render_elem(e, d, sp, xs, rm, fuel),
        b == render_elem(e, d, sp, xs, rm, fuel),
    ensures
        a == b,
{
}

proof fn lemma_remove_has_no_key(attrs: Seq<(Seq<char>, Seq<char>)>, k: Seq<char>)
    ensures
        forall|j: int| 0 <= j < attr_remove(attrs, k).len() ==> (#[trigger] attr_remove(
            attrs,
            k,
        )[j]).0 != k,
    decreases attrs.len(),
{
    if attrs.len() > 0 {
        let t = attrs.drop_first();
        lemma_remove_has_no_key(t, k);
        let r = attr_remove(attrs, k);
        assert forall|j: int| 0 <= j < r.len() implies (#[trigger] r[j]).0 != k by {
            if attrs[0].0 != k {
                if j > 0 {
                    assert(r[j] == attr_remove(t, k)[j - 1]);
                }
            } else {
                assert(r[j] == attr_remove(t, k)[j]);
            }
        }
    }
}

/// Removing an attribute really removes it: the stripped element has no
/// binding for the removed key.
pub proof fn lemma_attr_remove_absent(attrs: Seq<(Seq<char>, Seq<char>)>, k: Seq<char>)
    ensures
        attr_get(attr_remove(attrs, k), k) is None,
{
    lemma_remove_has_no_key(attrs, k);
    lemma_attr_find(attr_remove(attrs, k), k);
    match attr_find(attr_remove(attrs, k), k) {
        Some(i) => {
            assert(attr_remove(attrs, k)[i].0 == k);
            assert(false);
        },
        None => {},
    }
}

/// Round trip of the loop directive: in special mode, an element with a
/// `loopDataSource` attribute renders as the `each` header followed by
/// the rendering, one level deeper, of the same element with the
/// attribute removed — exactly as if the attribute never existed.
pub proof fn lemma_loop_round_trip(
    e: ElemModel,
    d: nat,
    xs: bool,
    rm: Option<Seq<(Seq<char>, ElemModel)>>,
    fuel: nat,
)
    requires
        attr_get(e.attrs, k_loop()) is Some,
    ensures
        render_elem(e, d, true, xs, rm, fuel) == sp2(d) + loop_header(
            attr_get(e.attrs, k_loop())->Some_0,
        ) + "\n"@ + render_elem(strip_attr(e, k_loop()), d + 1, true, xs, rm, fuel),
{
    let stripped = strip_attr(e, k_loop());
    lemma_attr_remove_absent(e.attrs, k_loop());
    assert(attr_get(stripped.attrs, k_loop()) is None);
    assert(render_elem(stripped, d + 1, true, xs, rm, fuel) == render_elem2(
        stripped,
        d + 1,
        true,
        xs,
        rm,
        fuel,
    ));
}

proof fn lemma_valued_bools_count(attrs: Seq<(Seq<char>, Seq<char>)>, p: (Seq<char>, Seq<char>))
    ensures
        valued_of(attrs).to_multiset().count(p) == if !is_boolean_attr(p) {
            attrs.to_multiset().count(p)
        } else {
            0
        },
        bools_of(attrs).to_multiset().count(p) == if is_boolean_attr(p) {
            attrs.to_multiset().count(p)
        } else {
            0
        },
    decreases attrs.len(),
{
    broadcast use vstd::seq_lib::group_seq_properties;
    broadcast use vstd::multiset::group_multiset_axioms;

    attrs.to_multiset_ensures();
    valued_of(attrs).to_multiset_ensures();
    bools_of(attrs).to_multiset_ensures();
    if attrs.len() == 0 {
        assert(valued_of(attrs).to_multiset() =~= Multiset::<(Seq<char>, Seq<char>)>::empty());
        assert(bools_of(attrs).to_multiset() =~= Multiset::<(Seq<char>, Seq<char>)>::empty());
        assert(attrs.to_multiset() =~= Multiset::<(Seq<char>, Seq<char>)>::empty());
    } else {
        let t = attrs.drop_first();
        lemma_valued_bools_count(t, p);
        assert(attrs =~= seq![attrs[0]] + t);
        vstd::seq_lib::lemma_multiset_commutative(seq![attrs[0]], t);
        assert(attrs.to_multiset().count(p) == seq![attrs[0]].to_multiset().count(p)
            + t.to_multiset().count(p));
        assert(seq![attrs[0]].to_multiset() =~= Multiset::<(Seq<char>, Seq<char>)>::empty().insert(
            attrs[0],
        ));
        if !is_boolean_attr(attrs[0]) {
            assert(valued_of(attrs) == seq![attrs[0]] + valued_of(t));
            vstd::seq_lib::lemma_multiset_commutative(seq![attrs[0]], valued_of(t));
            assert(bools_of(attrs) == bools_of(t));
        } else {
            assert(bools_of(attrs) == seq![attrs[0]] + bools_of(t));
            vstd::seq_lib::lemma_multiset_commutative(seq![attrs[0]], bools_of(t));
            assert(valued_of(attrs) == valued_of(t));
        }
    }
}

/// Determinism under sorting, insertion-order independence: two attribute
/// lists holding the same attributes, in any orders, print as the same
/// Pug-style block.
pub proof fn lemma_attr_block_order_independent(
    a1: Seq<(Seq<char>, Seq<char>)>,
    a2: Seq<(Seq<char>, Seq<char>)>,
)
    requires
        a1.to_multiset() == a2.to_multiset(),
    ensures
        attr_block(a1) == attr_block(a2),
{
    broadcast use vstd::seq_lib::group_seq_properties;
    broadcast use vstd::multiset::group_multiset_axioms;

    lemma_pair_le_total_ordering();
    assert forall|p: (Seq<char>, Seq<char>)|
        #[trigger] valued_of(a1).to_multiset().count(p) == valued_of(a2).to_multiset().count(
        p,
    ) by {
        lemma_valued_bools_count(a1, p);
        lemma_valued_bools_count(a2, p);
    }
    assert(valued_of(a1).to_multiset() =~= valued_of(a2).to_multiset());
    assert forall|p: (Seq<char>, Seq<char>)|
        #[trigger] bools_of(a1).to_multiset().count(p) == bools_of(a2).to_multiset().count(p) by {
        lemma_valued_bools_count(a1, p);
        lemma_valued_bools_count(a2, p);
    }
    assert(bools_of(a1).to_multiset() =~= bools_of(a2).to_multiset());
    valued_of(a1).lemma_sort_by_ensures(pair_leq_fn());
    valued_of(a2).lemma_sort_by_ensures(pair_leq_fn());
    bools_of(a1).lemma_sort_by_ensures(pair_leq_fn());
    bools_of(a2).lemma_sort_by_ensures(pair_leq_fn());
    lemma_sorted_unique(
        valued_of(a1).sort_by(pair_leq_fn()),
        valued_of(a2).sort_by(pair_leq_fn()),
        pair_leq_fn(),
    );
    lemma_sorted_unique(
        bools_of(a1).sort_by(pair_leq_fn()),
        bools_of(a2).sort_by(pair_leq_fn()),
        pair_leq_fn(),
    );
    assert(attr_parts(a1) == attr_parts(a2));
}

proof fn lemma_partition_contains(attrs: Seq<(Seq<char>, Seq<char>)>, j: int, booleans: bool)
    requires
        0 <= j < (if booleans {
            bools_of(attrs)
        } else {
            valued_of(attrs)
        }).len(),
    ensures
        attrs.contains(
            (if booleans {
                bools_of(attrs)
            } else {
                valued_of(attrs)
            })[j],
        ),
    decreases attrs.len(),
{
    if attrs.len() > 0 {
        let t = attrs.drop_first();
        let v = if booleans {
            bools_of(attrs)
        } else {
            valued_of(attrs)
        };
        let vt = if booleans {
            bools_of(t)
        } else {
            valued_of(t)
        };
        if is_boolean_attr(attrs[0]) == booleans {
            if j == 0 {
                assert(v[0] == attrs[0]);
            } else {
                assert(v[j] == vt[j - 1]);
                lemma_partition_contains(t, j - 1, booleans);
                let w = choose|w: int| 0 <= w < t.len() && t[w] == vt[j - 1];
                assert(attrs[w + 1] == t[w]);
            }
        } else {
            assert(v[j] == vt[j]);
            lemma_partition_contains(t, j, booleans);
            let w = choose|w: int| 0 <= w < t.len() && t[w] == vt[j];
            assert(attrs[w + 1] == t[w]);
        }
    }
}

/// No two positions of a key-unique list's partition share a key.
proof fn lemma_partition_keys_unique(attrs: Seq<(Seq<char>, Seq<char>)>, booleans: bool)
    requires
        unique_keys(attrs),
    ensures
        unique_keys(
            if booleans {
                bools_of(attrs)
            } else {
                valued_of(attrs)
            },
        ),
    decreases attrs.len(),
{
    if attrs.len() > 0 {
        let t = attrs.drop_first();
        assert forall|a: int, c: int| 0 <= a < c < t.len() implies t[a].0 != t[c].0 by {
            assert(t[a] == attrs[a + 1]);
            assert(t[c] == attrs[c + 1]);
        }
        lemma_partition_keys_unique(t, booleans);
        let v = if booleans {
            bools_of(attrs)
        } else {
            valued_of(attrs)
        };
        let vt = if booleans {
            bools_of(t)
        } else {
            valued_of(t)
        };
        if is_boolean_attr(attrs[0]) == booleans {
            assert forall|a: int, c: int| 0 <= a < c < v.len() implies v[a].0 != v[c].0 by {
                if a == 0 {
                    assert(v[0] == attrs[0]);
                    assert(v[c] == vt[c - 1]);
                    lemma_partition_contains(t, c - 1, booleans);
                    let w = choose|w: int| 0 <= w < t.len() && t[w] == vt[c - 1];
                    assert(attrs[w + 1] == t[w]);
                } else {
                    assert(v[a] == vt[a - 1]);
                    assert(v[c] == vt[c - 1]);
                }
            }
        } else {
            assert forall|a: int, c: int| 0 <= a < c < v.len() implies v[a].0 != v[c].0 by {
                assert(v[a] == vt[a]);
                assert(v[c] == vt[c]);
            }
        }
    }
}

/// A pair counted at least twice sits at two distinct positions.
proof fn lemma_count_two_positions(s: Seq<(Seq<char>, Seq<char>)>, p: (Seq<char>, Seq<char>))
    requires
        s.to_multiset().count(p) >= 2,
    ensures
        exists|i: int, j: int| 0 <= i < j < s.len() && s[i] == p && s[j] == p,
{
    broadcast use vstd::seq_lib::group_seq_properties;
    broadcast use vstd::multiset::group_multiset_axioms;

    s.to_multiset_ensures();
    assert(s.contains(p));
    let i = choose|i: int| 0 <= i < s.len() && s[i] == p;
    assert(s.remove(i).to_multiset() =~= s.to_multiset().remove(p));
    s.remove(i).to_multiset_ensures();
    assert(s.remove(i).to_multiset().count(p) >= 1);
    assert(s.remove(i).contains(p));
    let k = choose|k: int| 0 <= k < s.remove(i).len() && s.remove(i)[k] == p;
    s.remove_ensures(i);
    let j = if k < i {
        k
    } else {
        k + 1
    };
    assert(s[j] == p);
    assert(i != j);
    if i < j {
        assert(0 <= i < j < s.len() && s[i] == p && s[j] == p);
    } else {
        assert(0 <= j < i < s.len() && s[j] == p && s[i] == p);
    }
}

/// Key uniqueness carries over any reordering.
proof fn lemma_unique_keys_permutation(
    s1: Seq<(Seq<char>, Seq<char>)>,
    s2: Seq<(Seq<char>, Seq<char>)>,
)
    requires
        unique_keys(s1),
        s1.to_multiset() == s2.to_multiset(),
    ensures
        unique_keys(s2),
{
    broadcast use vstd::seq_lib::group_seq_properties;
    broadcast use vstd::multiset::group_multiset_axioms;

    s1.to_multiset_ensures();
    s2.to_multiset_ensures();
    assert forall|i: int, j: int| 0 <= i < j < s2.len() implies s2[i].0 != s2[j].0 by {
        if s2[i].0 == s2[j].0 {
            if s2[i] == s2[j] {
                let p = s2[i];
                s2.remove_ensures(j);
                assert(s2.remove(j)[i] == s2[i]);
                assert(s2.remove(j).contains(p));
                s2.remove(j).to_multiset_ensures();
                assert(s2.remove(j).to_multiset().count(p) > 0);
                assert(s2.remove(j).to_multiset() =~= s2.to_multiset().remove(p));
                assert(s2.contains(p)) by {
                    assert(s2[i] == p);
                }
                assert(s2.to_multiset().count(p) > 0);
                assert(s2.to_multiset().remove(p).count(p) == s2.to_multiset().count(p) - 1);
                assert(s2.to_multiset().count(p) >= 2);
                lemma_count_two_positions(s1, p);
                let (a, c): (int, int) = choose|a: int, c: int|
                    0 <= a < c < s1.len() && s1[a] == p && s1[c] == p;
                assert(s1[a].0 == s1[c].0);
                assert(false);
            } else {
                assert(s2.contains(s2[i]) && s2.contains(s2[j]));
                assert(s2.to_multiset().count(s2[i]) > 0);
                assert(s2.to_multiset().count(s2[j]) > 0);
                assert(s1.to_multiset().count(s2[i]) > 0);
                assert(s1.to_multiset().count(s2[j]) > 0);
                assert(s1.contains(s2[i]) && s1.contains(s2[j]));
                let a = choose|a: int| 0 <= a < s1.len() && s1[a] == s2[i];
                let c = choose|c: int| 0 <= c < s1.len() && s1[c] == s2[j];
                assert(a != c);
                if a < c {
                    assert(s1[a].0 != s1[c].0);
                } else {
                    assert(s1[c].0 != s1[a].0);
                }
                assert(false);
            }
        }
    }
}

/// Determinism under sorting, ascending order: with unique keys, the
/// valued and the boolean partition are each emitted in strictly
/// ascending key order.
pub proof fn lemma_partitions_strictly_sorted(attrs: Seq<(Seq<char>, Seq<char>)>)
    requires
        unique_keys(attrs),
    ensures
        ({
            let v = valued_of(attrs).sort_by(pair_leq_fn());
            forall|i: int, j: int|
                0 <= i < j < v.len() ==> lex_le(#[trigger] v[i].0, #[trigger] v[j].0) && v[i].0
                    != v[j].0
        }),
        ({
            let b = bools_of(attrs).sort_by(pair_leq_fn());
            forall|i: int, j: int|
                0 <= i < j < b.len() ==> lex_le(#[trigger] b[i].0, #[trigger] b[j].0) && b[i].0
                    != b[j].0
        }),
{
    lemma_pair_le_total_ordering();
    valued_of(attrs).lemma_sort_by_ensures(pair_leq_fn());
    bools_of(attrs).lemma_sort_by_ensures(pair_leq_fn());
    lemma_partition_keys_unique(attrs, false);
    lemma_partition_keys_unique(attrs, true);
    let v = valued_of(attrs).sort_by(pair_leq_fn());
    let b = bools_of(attrs).sort_by(pair_leq_fn());
    lemma_unique_keys_permutation(valued_of(attrs), v);
    lemma_unique_keys_permutation(bools_of(attrs), b);
    assert forall|i: int, j: int| 0 <= i < j < v.len() implies lex_le(
        #[trigger] v[i].0,
        #[trigger] v[j].0,
    ) && v[i].0 != v[j].0 by {
        assert(pair_leq_fn()(v[i], v[j]));
        assert(v[i].0 != v[j].0);
    }
    assert forall|i: int, j: int| 0 <= i < j < b.len() implies lex_le(
        #[trigger] b[i].0,
        #[trigger] b[j].0,
    ) && b[i].0 != b[j].0 by {
        assert(pair_leq_fn()(b[i], b[j]));
        assert(b[i].0 != b[j].0);
    }
}

/// Union pattern resolution: with no exact match, the first registered
/// pattern with a trimmed `|`-alternative equal to the selection or to
/// its last path segment resolves the selection.
pub proof fn lemma_union_pattern_resolves(
    reg: Seq<(Seq<char>, ElemModel)>,
    sel: Seq<char>,
    i: int,
)
    requires
        reg_find(reg, sel) is None,
        0 <= i < reg.len(),
        pat_matches(reg[i].0, sel, last_segment(sel)),
        forall|j: int| 0 <= j < i ==> !pat_matches(reg[j].0, sel, last_segment(sel)),
    ensures
        reg_lookup(reg, sel) == Some(reg[i].1),
{
    lemma_reg_find_union_at(reg, sel, last_segment(sel), i);
}

/// Union pattern resolution, the negative side: a selection with no exact
/// match and no matching alternative resolves to nothing.
pub proof fn lemma_lookup_misses(reg: Seq<(Seq<char>, ElemModel)>, sel: Seq<char>)
    requires
        reg_find(reg, sel) is None,
        forall|j: int| 0 <= j < reg.len() ==> !pat_matches(
            #[trigger] reg[j].0,
            sel,
            last_segment(sel),
        ),
    ensures
        reg_lookup(reg, sel) is None,
{
    lemma_reg_find_union(reg, sel, last_segment(sel));
    match reg_find_union(reg, sel, last_segment(sel)) {
        Some(i) => {
            assert(pat_matches(reg[i].0, sel, last_segment(sel)));
            assert(false);
        },
        None => {},
    }
}

proof fn reveal_rule_names()
    ensures
        "section"@.len() == 7,
        "command"@.len() == 7,
        "section"@ != "command"@,
        "builtInMethodParameterList"@.len() == 26,
        "builtinmethodparameterlist"@.len() == 26,
        "parameter"@.len() == 9,
        "variable"@.len() == 8,
        "method"@.len() == 6,
        "xsl:template"@.len() == 12,
        "xsl:apply-templates"@.len() == 19,
        "xsl:value-of"@.len() == 12,
        "xsl:copy-of"@.len() == 11,
        "xsl:if"@.len() == 6,
        "xsl:choose"@.len() == 10,
        "xsl:when"@.len() == 8,
        "xsl:otherwise"@.len() == 13,
        "xsl:variable"@.len() == 12,
        "xsl:with-param"@.len() == 14,
        "xsl:call-template"@.len() == 17,
        "xsl:for-each"@.len() == 12,
        "xsl:text"@.len() == 8,
        "xsl:element"@.len() == 11,
        "xsl:attribute"@.len() == 13,
        "xsl:param"@.len() == 9,
        "xsl:apply-templates"@ != "parameter"@,
        "xsl:apply-templates"@ != "xsl:param"@,
        "method"@ != "xsl:if"@,
{
    reveal_strlit("section");
    reveal_strlit("command");
    reveal_strlit("builtInMethodParameterList");
    reveal_strlit("builtinmethodparameterlist");
    reveal_strlit("parameter");
    reveal_strlit("variable");
    reveal_strlit("method");
    reveal_strlit("xsl:template");
    reveal_strlit("xsl:apply-templates");
    reveal_strlit("xsl:value-of");
    reveal_strlit("xsl:copy-of");
    reveal_strlit("xsl:if");
    reveal_strlit("xsl:choose");
    reveal_strlit("xsl:when");
    reveal_strlit("xsl:otherwise");
    reveal_strlit("xsl:variable");
    reveal_strlit("xsl:with-param");
    reveal_strlit("xsl:call-template");
    reveal_strlit("xsl:for-each");
    reveal_strlit("xsl:text");
    reveal_strlit("xsl:element");
    reveal_strlit("xsl:attribute");
    reveal_strlit("xsl:param");
    assert("section"@[0] != "command"@[0]);
    assert("method"@[0] != "xsl:if"@[0]);
    assert("xsl:apply-templates"@.len() != "parameter"@.len());
    assert("xsl:apply-templates"@ != "parameter"@);
    assert("xsl:apply-templates"@.len() != "xsl:param"@.len());
    assert("xsl:apply-templates"@ != "xsl:param"@);
}

/// Decline and fall through: in special mode, a `section` element whose
/// attribute shape is not exactly one `name` attribute does not take the
/// `#name` shorthand; with neither special attribute present it renders
/// via the generic fallback, every attribute shown.
pub proof fn lemma_section_decline(
    e: ElemModel,
    d: nat,
    xs: bool,
    rm: Option<Seq<(Seq<char>, ElemModel)>>,
    fuel: nat,
)
    requires
        e.name == "section"@,
        attr_get(e.attrs, k_loop()) is None,
        attr_get(e.attrs, k_cond()) is None,
        !(attr_get(e.attrs, "name"@) is Some && e.attrs.len() == 1),
        !xs,
    ensures
        render_elem(e, d, true, xs, rm, fuel) == sp2(d) + e.name + attr_block(e.attrs) + (
        if trim_s(e.text).len() > 0 {
            " = "@ + trim_s(e.text)
        } else {
            Seq::<char>::empty()
        }) + "
"@ + render_seq(e.children, d + 1, true, xs, rm, fuel),
{
    reveal_rule_names();
    assert(e.name != "builtInMethodParameterList"@);
    assert(e.name != "builtinmethodparameterlist"@);
    assert(e.name != "parameter"@);
    assert(e.name != "variable"@);
    assert(e.name != "method"@);
    assert(e.name != "command"@);
    assert(render_special(e, d, true, xs, rm, fuel) is None);
    assert(render_elem(e, d, true, xs, rm, fuel) == render_elem2(e, d, true, xs, rm, fuel));
    assert(render_elem2(e, d, true, xs, rm, fuel) == render_elem3(e, d, true, xs, rm, fuel));
}

/// Expansion depth preservation: an `apply-templates` expansion emits the
/// diagnostic line at the node's own depth and inlines the matched
/// template's children at that same depth, not one level deeper.
pub proof fn lemma_expansion_same_depth(
    e: ElemModel,
    d: nat,
    sp: bool,
    reg: Seq<(Seq<char>, ElemModel)>,
    fuel: nat,
    sel: Seq<char>,
    tpl: ElemModel,
)
    requires
        e.name == "xsl:apply-templates"@,
        attr_get(e.attrs, "select"@) == Some(sel),
        sp ==> attr_get(e.attrs, k_loop()) is None && attr_get(e.attrs, k_cond()) is None,
        reg_lookup(reg, sel) == Some(tpl),
        fuel > 0,
    ensures
        render_elem(e, d, sp, true, Some(reg), fuel) == sp2(d) + "# [expanded: apply "@ + sel
            + "]"@ + "
"@ + render_seq(tpl.children, d, sp, true, Some(reg), (fuel - 1) as nat),
{
    reveal_rule_names();
    assert(e.name != "builtInMethodParameterList"@);
    assert(e.name != "builtinmethodparameterlist"@);
    assert(e.name != "parameter"@);
    assert(e.name != "variable"@);
    assert(e.name != "method"@);
    assert(e.name != "section"@);
    assert(e.name != "command"@);
    assert(e.name != "xsl:template"@);
    assert(render_special(e, d, sp, true, Some(reg), fuel) is None);
    assert(xslt_shape(e) == (ShapeModel::Apply { sel: Some(sel) }));
    assert(render_elem(e, d, sp, true, Some(reg), fuel) == render_elem2(
        e,
        d,
        sp,
        true,
        Some(reg),
        fuel,
    ));
    assert(render_elem2(e, d, sp, true, Some(reg), fuel) == render_elem3(
        e,
        d,
        sp,
        true,
        Some(reg),
        fuel,
    ));
}

/// With unique keys, the binding of a key is a matter of membership, not
/// of position.
proof fn lemma_attr_get_member(s: Seq<(Seq<char>, Seq<char>)>, k: Seq<char>)
    requires
        unique_keys(s),
    ensures
        match attr_get(s, k) {
            Some(v) => s.contains((k, v)),
            None => forall|j: int| 0 <= j < s.len() ==> (#[trigger] s[j]).0 != k,
        },
{
    lemma_attr_find(s, k);
    match attr_find(s, k) {
        Some(i) => {
            assert(s[i] == (k, s[i].1));
            assert(s.contains((k, s[i].1)));
        },
        None => {},
    }
}

/// Reordering an attribute list with unique keys changes no lookup.
pub proof fn lemma_attr_get_equiv(
    a1: Seq<(Seq<char>, Seq<char>)>,
    a2: Seq<(Seq<char>, Seq<char>)>,
    k: Seq<char>,
)
    requires
        unique_keys(a1),
        a1.to_multiset() == a2.to_multiset(),
    ensures
        attr_get(a1, k) == attr_get(a2, k),
{
    broadcast use vstd::seq_lib::group_seq_properties;
    broadcast use vstd::multiset::group_multiset_axioms;

    a1.to_multiset_ensures();
    a2.to_multiset_ensures();
    lemma_unique_keys_permutation(a1, a2);
    lemma_attr_get_member(a1, k);
    lemma_attr_get_member(a2, k);
    lemma_attr_find(a1, k);
    lemma_attr_find(a2, k);
    match (attr_get(a1, k), attr_get(a2, k)) {
        (Some(v1), Some(v2)) => {
            if v1 != v2 {
                assert(a1.to_multiset().count((k, v1)) > 0);
                assert(a2.to_multiset().count((k, v1)) > 0);
                assert(a2.contains((k, v1)));
                let j1 = choose|j: int| 0 <= j < a2.len() && a2[j] == (k, v1);
                assert(a2.contains((k, v2)));
                let j2 = choose|j: int| 0 <= j < a2.len() && a2[j] == (k, v2);
                assert(a2[j1].0 == k && a2[j2].0 == k);
                assert(j1 != j2);
                if j1 < j2 {
                    assert(a2[j1].0 != a2[j2].0);
                } else {
                    assert(a2[j2].0 != a2[j1].0);
                }
                assert(false);
            }
        },
        (Some(v1), None) => {
            assert(a1.to_multiset().count((k, v1)) > 0);
            assert(a2.to_multiset().count((k, v1)) > 0);
            assert(a2.contains((k, v1)));
            let j = choose|j: int| 0 <= j < a2.len() && a2[j] == (k, v1);
            assert(a2[j].0 == k);
            assert(false);
        },
        (None, Some(v2)) => {
            assert(a2.to_multiset().count((k, v2)) > 0);
            assert(a1.to_multiset().count((k, v2)) > 0);
            assert(a1.contains((k, v2)));
            let j = choose|j: int| 0 <= j < a1.len() && a1[j] == (k, v2);
            assert(a1[j].0 == k);
            assert(false);
        },
        (None, None) => {},
    }
}

/// How removal changes the attribute multiset: pairs under the removed
/// key vanish, all others keep their count.
proof fn lemma_remove_count(
    s: Seq<(Seq<char>, Seq<char>)>,
    k: Seq<char>,
    p: (Seq<char>, Seq<char>),
)
    ensures
        attr_remove(s, k).to_multiset().count(p) == if p.0 != k {
            s.to_multiset().count(p)
        } else {
            0
        },
    decreases s.len(),
{
    broadcast use vstd::seq_lib::group_seq_properties;
    broadcast use vstd::multiset::group_multiset_axioms;

    s.to_multiset_ensures();
    attr_remove(s, k).to_multiset_ensures();
    if s.len() == 0 {
        assert(attr_remove(s, k).to_multiset() =~= Multiset::<(Seq<char>, Seq<char>)>::empty());
        assert(s.to_multiset() =~= Multiset::<(Seq<char>, Seq<char>)>::empty());
    } else {
        let t = s.drop_first();
        lemma_remove_count(t, k, p);
        assert(s =~= seq![s[0]] + t);
        vstd::seq_lib::lemma_multiset_commutative(seq![s[0]], t);
        assert(seq![s[0]].to_multiset() =~= Multiset::<(Seq<char>, Seq<char>)>::empty().insert(
            s[0],
        ));
        if s[0].0 != k {
            assert(attr_remove(s, k) == seq![s[0]] + attr_remove(t, k));
            vstd::seq_lib::lemma_multiset_commutative(seq![s[0]], attr_remove(t, k));
        } else {
            assert(attr_remove(s, k) == attr_remove(t, k));
        }
    }
}

/// Removal keeps the remaining multisets of two reorderings equal.
proof fn lemma_remove_ms_equiv(
    a1: Seq<(Seq<char>, Seq<char>)>,
    a2: Seq<(Seq<char>, Seq<char>)>,
    k: Seq<char>,
)
    requires
        a1.to_multiset() == a2.to_multiset(),
    ensures
        attr_remove(a1, k).to_multiset() == attr_remove(a2, k).to_multiset(),
{
    assert forall|p: (Seq<char>, Seq<char>)|
        #[trigger] attr_remove(a1, k).to_multiset().count(p) == attr_remove(
        a2,
        k,
    ).to_multiset().count(p) by {
        lemma_remove_count(a1, k, p);
        lemma_remove_count(a2, k, p);
    }
    assert(attr_remove(a1, k).to_multiset() =~= attr_remove(a2, k).to_multiset());
}

/// Every pair of the removal result stands in the original list.
proof fn lemma_remove_contains(s: Seq<(Seq<char>, Seq<char>)>, k: Seq<char>, j: int)
    requires
        0 <= j < attr_remove(s, k).len(),
    ensures
        s.contains(attr_remove(s, k)[j]),
    decreases s.len(),
{
    if s.len() > 0 {
        let t = s.drop_first();
        let r = attr_remove(s, k);
        if s[0].0 != k {
            if j == 0 {
                assert(r[0] == s[0]);
            } else {
                assert(r[j] == attr_remove(t, k)[j - 1]);
                lemma_remove_contains(t, k, j - 1);
                let w = choose|w: int| 0 <= w < t.len() && t[w] == attr_remove(t, k)[j - 1];
                assert(s[w + 1] == t[w]);
            }
        } else {
            assert(r[j] == attr_remove(t, k)[j]);
            lemma_remove_contains(t, k, j);
            let w = choose|w: int| 0 <= w < t.len() && t[w] == attr_remove(t, k)[j];
            assert(s[w + 1] == t[w]);
        }
    }
}

/// Removal keeps keys unique.
proof fn lemma_remove_keys_unique(s: Seq<(Seq<char>, Seq<char>)>, k: Seq<char>)
    requires
        unique_keys(s),
    ensures
        unique_keys(attr_remove(s, k)),
    decreases s.len(),
{
    if s.len() > 0 {
        let t = s.drop_first();
        assert forall|a: int, c: int| 0 <= a < c < t.len() implies t[a].0 != t[c].0 by {
            assert(t[a] == s[a + 1]);
            assert(t[c] == s[c + 1]);
        }
        lemma_remove_keys_unique(t, k);
        let r = attr_remove(s, k);
        if s[0].0 != k {
            assert forall|a: int, c: int| 0 <= a < c < r.len() implies r[a].0 != r[c].0 by {
                if a == 0 {
                    assert(r[0] == s[0]);
                    assert(r[c] == attr_remove(t, k)[c - 1]);
                    lemma_remove_contains(t, k, c - 1);
                    let w = choose|w: int| 0 <= w < t.len() && t[w] == attr_remove(t, k)[c - 1];
                    assert(s[w + 1] == t[w]);
                } else {
                    assert(r[a] == attr_remove(t, k)[a - 1]);
                    assert(r[c] == attr_remove(t, k)[c - 1]);
                }
            }
        } else {
            assert forall|a: int, c: int| 0 <= a < c < r.len() implies r[a].0 != r[c].0 by {
                assert(r[a] == attr_remove(t, k)[a]);
                assert(r[c] == attr_remove(t, k)[c]);
            }
        }
    }
}

/// A plain `k="v"` block is a sorted print of its multiset: any
/// reordering prints the same.
pub proof fn lemma_kv_block_order_independent(
    a1: Seq<(Seq<char>, Seq<char>)>,
    a2: Seq<(Seq<char>, Seq<char>)>,
)
    requires
        a1.to_multiset() == a2.to_multiset(),
    ensures
        kv_block(a1) == kv_block(a2),
{
    broadcast use vstd::seq_lib::group_seq_properties;
    broadcast use vstd::multiset::group_multiset_axioms;

    lemma_pair_le_total_ordering();
    a1.to_multiset_ensures();
    a2.to_multiset_ensures();
    a1.lemma_sort_by_ensures(pair_leq_fn());
    a2.lemma_sort_by_ensures(pair_leq_fn());
    lemma_sorted_unique(a1.sort_by(pair_leq_fn()), a2.sort_by(pair_leq_fn()), pair_leq_fn());
    assert(kv_parts(a1) == kv_parts(a2));
    assert(a1.len() == a2.len());
}

/// Two trees equal but for the order of each node's attributes.
pub open spec fn attr_equiv(a: ElemModel, b: ElemModel) -> bool
    decreases a,
{
    &&& a.name == b.name
    &&& a.text == b.text
    &&& a.attrs.to_multiset() == b.attrs.to_multiset()
    &&& a.children.len() == b.children.len()
    &&& forall|i: int|
        0 <= i < a.children.len() ==> attr_equiv(#[trigger] a.children[i], b.children[i])
}

/// The facts rendering reads off a node's attributes are order-blind.
proof fn lemma_node_congruence(a: ElemModel, b: ElemModel)
    requires
        unique_keys(a.attrs),
        attr_equiv(a, b),
    ensures
        forall|k: Seq<char>| #[trigger] attr_get(a.attrs, k) == attr_get(b.attrs, k),
        a.attrs.len() == b.attrs.len(),
        attr_block(a.attrs) == attr_block(b.attrs),
        unique_keys(b.attrs),
        forall|k: Seq<char>|
            #[trigger] attr_remove(a.attrs, k).to_multiset() == attr_remove(
                b.attrs,
                k,
            ).to_multiset(),
        xslt_shape(a) == xslt_shape(b),
{
    broadcast use vstd::seq_lib::group_seq_properties;
    broadcast use vstd::multiset::group_multiset_axioms;

    a.attrs.to_multiset_ensures();
    b.attrs.to_multiset_ensures();
    lemma_unique_keys_permutation(a.attrs, b.attrs);
    assert forall|k: Seq<char>| #[trigger] attr_get(a.attrs, k) == attr_get(b.attrs, k) by {
        lemma_attr_get_equiv(a.attrs, b.attrs, k);
    }
    lemma_attr_block_order_independent(a.attrs, b.attrs);
    assert forall|k: Seq<char>|
        #[trigger] attr_remove(a.attrs, k).to_multiset() == attr_remove(
        b.attrs,
        k,
    ).to_multiset() by {
        lemma_remove_ms_equiv(a.attrs, b.attrs, k);
    }
    assert(xslt_shape(a) == xslt_shape(b)) by {
        lemma_remove_ms_equiv(
            attr_remove(a.attrs, "match"@),
            attr_remove(b.attrs, "match"@),
            "name"@,
        );
        assert(template_extras(a.attrs) == template_extras(b.attrs)) by {
            lemma_remove_ms_equiv(a.attrs, b.attrs, "match"@);
            lemma_remove_ms_equiv(
                attr_remove(a.attrs, "match"@),
                attr_remove(b.attrs, "match"@),
                "name"@,
            );
            lemma_kv_block_order_independent(
                attr_remove(attr_remove(a.attrs, "match"@), "name"@),
                attr_remove(attr_remove(b.attrs, "match"@), "name"@),
            );
        }
    }
}

/// The equivalence carries to the copies the conditional rules make.
proof fn lemma_strip_equiv(a: ElemModel, b: ElemModel, k: Seq<char>)
    requires
        wf_elem(a),
        attr_equiv(a, b),
    ensures
        wf_elem(strip_attr(a, k)),
        attr_equiv(strip_attr(a, k), strip_attr(b, k)),
        elem_height(strip_attr(a, k)) == elem_height(a),
{
    lemma_remove_keys_unique(a.attrs, k);
    lemma_remove_ms_equiv(a.attrs, b.attrs, k);
    assert(strip_attr(a, k).children == a.children);
    assert(elem_height(strip_attr(a, k)) == elem_height(a));
}

/// Determinism under attribute insertion order, for the whole output:
/// two trees equal but for the order in which each node's attributes were
/// inserted render byte-identically, at every depth and under every
/// configuration.
#[verifier::rlimit(100)]
#[verifier::spinoff_prover]
pub proof fn lemma_render_order_blind(
    a: ElemModel,
    b: ElemModel,
    d: nat,
    sp: bool,
    xs: bool,
    rm: Option<Seq<(Seq<char>, ElemModel)>>,
    fuel: nat,
)
    requires
        wf_elem(a),
        attr_equiv(a, b),
    ensures
        render_elem(a, d, sp, xs, rm, fuel) == render_elem(b, d, sp, xs, rm, fuel),
    decreases fuel, elem_height(a), 2int, 0int,
{
    lemma_node_congruence(a, b);
    if sp && attr_get(a.attrs, k_loop()) is Some {
        lemma_strip_equiv(a, b, k_loop());
        lemma_render_order_blind2(
            strip_attr(a, k_loop()),
            strip_attr(b, k_loop()),
            d + 1,
            sp,
            xs,
            rm,
            fuel,
        );
    } else {
        lemma_render_order_blind2(a, b, d, sp, xs, rm, fuel);
    }
}

/// The same, from the conditional-inclusion rule down.
#[verifier::rlimit(100)]
#[verifier::spinoff_prover]
proof fn lemma_render_order_blind2(
    a: ElemModel,
    b: ElemModel,
    d: nat,
    sp: bool,
    xs: bool,
    rm: Option<Seq<(Seq<char>, ElemModel)>>,
    fuel: nat,
)
    requires
        wf_elem(a),
        attr_equiv(a, b),
    ensures
        render_elem2(a, d, sp, xs, rm, fuel) == render_elem2(b, d, sp, xs, rm, fuel),
    decreases fuel, elem_height(a), 1int, 0int,
{
    lemma_node_congruence(a, b);
    if sp && attr_get(a.attrs, k_cond()) is Some {
        let ca = strip_attr(a, k_cond());
        let cb = strip_attr(b, k_cond());
        lemma_strip_equiv(a, b, k_cond());
        lemma_node_congruence(ca, cb);
        assert(elem_height(a) == 1 + forest_height(a.children));
        if a.name == "section"@ && attr_get(ca.attrs, "name"@) is Some && ca.attrs.len() == 1 {
            lemma_render_order_blind_seq(ca.children, cb.children, d + 2, sp, xs, rm, fuel);
        } else if ca.attrs.len() == 0 && trim_s(ca.text).len() == 0 {
            lemma_render_order_blind_seq(ca.children, cb.children, d + 1, sp, xs, rm, fuel);
        } else {
            lemma_render_order_blind3(ca, cb, d + 1, sp, xs, rm, fuel);
        }
    } else {
        lemma_render_order_blind3(a, b, d, sp, xs, rm, fuel);
    }
}

/// The same, from the name rules, the mapper and the fallback down.
#[verifier::rlimit(100)]
#[verifier::spinoff_prover]
proof fn lemma_render_order_blind3(
    a: ElemModel,
    b: ElemModel,
    d: nat,
    sp: bool,
    xs: bool,
    rm: Option<Seq<(Seq<char>, ElemModel)>>,
    fuel: nat,
)
    requires
        wf_elem(a),
        attr_equiv(a, b),
    ensures
        render_elem3(a, d, sp, xs, rm, fuel) == render_elem3(b, d, sp, xs, rm, fuel),
    decreases fuel, elem_height(a), 0int, 1int,
{
    lemma_node_congruence(a, b);
    assert(elem_height(a) == 1 + forest_height(a.children));
    lemma_render_order_blind_special(a, b, d, sp, xs, rm, fuel);
    if render_special(a, d, sp, xs, rm, fuel) is Some {
    } else if xs && !(xslt_shape(a) is Decline) {
        match xslt_shape(a) {
            ShapeModel::Head { line, control } => {
                lemma_render_order_blind_seq(a.children, b.children, d + 1, sp, control, rm, fuel);
            },
            ShapeModel::TextOut { line } => {},
            ShapeModel::Apply { sel } => {},
            ShapeModel::Decline => {},
        }
    } else {
        lemma_render_order_blind_seq(a.children, b.children, d + 1, sp, xs, rm, fuel);
    }
}

/// The same, for the special name rules.
#[verifier::rlimit(100)]
#[verifier::spinoff_prover]
proof fn lemma_render_order_blind_special(
    a: ElemModel,
    b: ElemModel,
    d: nat,
    sp: bool,
    xs: bool,
    rm: Option<Seq<(Seq<char>, ElemModel)>>,
    fuel: nat,
)
    requires
        wf_elem(a),
        attr_equiv(a, b),
    ensures
        render_special(a, d, sp, xs, rm, fuel) == render_special(b, d, sp, xs, rm, fuel),
    decreases fuel, elem_height(a), 0int, 0int,
{
    lemma_node_congruence(a, b);
    assert(elem_height(a) == 1 + forest_height(a.children));
    if sp && (a.name == "builtInMethodParameterList"@ || a.name == "builtinmethodparameterlist"@)
        && attr_get(a.attrs, "name"@) is Some {
        lemma_render_order_blind_seq(a.children, b.children, d + 1, sp, xs, rm, fuel);
    } else if sp && a.name == "parameter"@ && attr_get(a.attrs, "name"@) is Some && a.attrs.len()
        == 1 {
        lemma_render_order_blind_seq(a.children, b.children, d + 1, sp, xs, rm, fuel);
    } else if sp && a.name == "variable"@ && attr_get(a.attrs, "name"@) is Some && a.attrs.len()
        == 1 {
        lemma_render_order_blind_seq(a.children, b.children, d + 1, sp, xs, rm, fuel);
    } else if sp && a.name == "method"@ && attr_get(a.attrs, "jumpToXmlFile"@) is Some && attr_get(
        a.attrs,
        "jumpToXPath"@,
    ) is Some {
        lemma_render_order_blind_seq(a.children, b.children, d + 1, sp, xs, rm, fuel);
    } else if sp && a.name == "section"@ && attr_get(a.attrs, "name"@) is Some && a.attrs.len()
        == 1 {
        lemma_render_order_blind_seq(a.children, b.children, d + 1, sp, xs, rm, fuel);
    } else if sp && a.name == "command"@ && attr_get(a.attrs, "type"@) is Some {
        lemma_attr_block_order_independent(
            attr_remove(a.attrs, "type"@),
            attr_remove(b.attrs, "type"@),
        );
        lemma_render_order_blind_seq(a.children, b.children, d + 1, sp, xs, rm, fuel);
    }
}

/// The same, over a sequence of siblings.
#[verifier::rlimit(100)]
#[verifier::spinoff_prover]
proof fn lemma_render_order_blind_seq(
    cs: Seq<ElemModel>,
    ds: Seq<ElemModel>,
    d: nat,
    sp: bool,
    xs: bool,
    rm: Option<Seq<(Seq<char>, ElemModel)>>,
    fuel: nat,
)
    requires
        cs.len() == ds.len(),
        forall|i: int| 0 <= i < cs.len() ==> wf_elem(#[trigger] cs[i]),
        forall|i: int| 0 <= i < cs.len() ==> attr_equiv(#[trigger] cs[i], ds[i]),
    ensures
        render_seq(cs, d, sp, xs, rm, fuel) == render_seq(ds, d, sp, xs, rm, fuel),
    decreases fuel, forest_height(cs), 3int, cs.len(),
{
    if cs.len() > 0 {
        assert(elem_height(cs[0]) <= forest_height(cs));
        lemma_render_order_blind(cs[0], ds[0], d, sp, xs, rm, fuel);
        let ct = cs.drop_first();
        let dt = ds.drop_first();
        assert(forest_height(ct) <= forest_height(cs));
        assert forall|i: int| 0 <= i < ct.len() implies wf_elem(#[trigger] ct[i]) by {
            assert(ct[i] == cs[i + 1]);
        }
        assert forall|i: int| 0 <= i < ct.len() implies attr_equiv(#[trigger] ct[i], dt[i]) by {
            assert(ct[i] == cs[i + 1]);
            assert(dt[i] == ds[i + 1]);
        }
        lemma_render_order_blind_seq(ct, dt, d, sp, xs, rm, fuel);
    }
}

} // verus!
