//! The generic element tree: the in-memory representation every other part
//! of the crate operates on, together with its mathematical model.
//!
//! An element has a name, a set of attributes with unique keys (last write
//! wins at construction time), its own direct text, and an ordered sequence
//! of children.
use vstd::prelude::*;
use vstd::string::*;
use crate::strutil::str_eq;

verus! {

/// Mathematical model of one element: every field a plain sequence.
pub struct ElemModel {
    pub name: Seq<char>,
    pub attrs: Seq<(Seq<char>, Seq<char>)>,
    pub text: Seq<char>,
    pub children: Seq<ElemModel>,
}

/// The element tree.
#[derive(Debug)]
pub struct XmlElement {
    pub name: String,
    pub attributes: Vec<(String, String)>,
    pub text_content: String,
    pub children: Vec<XmlElement>,
}

/// View of an attribute vector as a sequence of pairs of character sequences.
pub open spec fn attrs_view(v: Seq<(String, String)>) -> Seq<(Seq<char>, Seq<char>)> {
    v.map_values(|p: (String, String)| (p.0@, p.1@))
}

/// Model of one element.
pub open spec fn elem_model(e: XmlElement) -> ElemModel
    decreases e,
{
    ElemModel {
        name: e.name@,
        attrs: attrs_view(e.attributes@),
        text: e.text_content@,
        children: forest_model(e.children@),
    }
}

/// Model of a sequence of elements, in order.
pub open spec fn forest_model(s: Seq<XmlElement>) -> Seq<ElemModel>
    decreases s,
{
    if s.len() == 0 {
        Seq::empty()
    } else {
        seq![elem_model(s[0])] + forest_model(s.drop_first())
    }
}

pub proof fn lemma_forest_model(s: Seq<XmlElement>)
    ensures
        forest_model(s).len() == s.len(),
        forall|i: int| 0 <= i < s.len() ==> forest_model(s)[i] == elem_model(s[i]),
    decreases s,
{
    if s.len() > 0 {
        let t = s.drop_first();
        lemma_forest_model(t);
        assert forall|i: int| 0 <= i < s.len() implies forest_model(s)[i] == elem_model(s[i]) by {
            if i > 0 {
                assert(forest_model(s)[i] == forest_model(t)[i - 1]);
                assert(t[i - 1] == s[i]);
            }
        }
    }
}

impl XmlElement {
    /// The mathematical model of this element.
    pub open spec fn model(self) -> ElemModel {
        elem_model(self)
    }
}

/// Height of one element; used as a termination measure by the rendering
/// engine, which recurses both into children and into copies of a node
/// that share its children.
pub open spec fn elem_height(e: ElemModel) -> nat
    decreases e,
{
    1 + forest_height(e.children)
}

/// Height of a sequence of elements: the greatest height among them.
pub open spec fn forest_height(s: Seq<ElemModel>) -> nat
    decreases s,
{
    if s.len() == 0 {
        0
    } else {
        let h0 = elem_height(s[0]);
        let hr = forest_height(s.drop_first());
        if h0 >= hr {
            h0
        } else {
            hr
        }
    }
}

pub proof fn lemma_forest_height(s: Seq<ElemModel>)
    ensures
        forall|i: int| 0 <= i < s.len() ==> elem_height(#[trigger] s[i]) <= forest_height(s),
    decreases s,
{
    if s.len() > 0 {
        let t = s.drop_first();
        lemma_forest_height(t);
        assert forall|i: int| 0 <= i < s.len() implies elem_height(s[i]) <= forest_height(s) by {
            if i > 0 {
                assert(t[i - 1] == s[i]);
                assert(elem_height(t[i - 1]) <= forest_height(t));
            }
        }
    }
}

/// Index of the first attribute with key `k`.
pub open spec fn attr_find(attrs: Seq<(Seq<char>, Seq<char>)>, k: Seq<char>) -> Option<int>
    decreases attrs.len(),
{
    if attrs.len() == 0 {
        None
    } else if attrs[0].0 == k {
        Some(0)
    } else {
        match attr_find(attrs.drop_first(), k) {
            Some(i) => Some(i + 1),
            None => None,
        }
    }
}

pub proof fn lemma_attr_find(attrs: Seq<(Seq<char>, Seq<char>)>, k: Seq<char>)
    ensures
        match attr_find(attrs, k) {
            Some(i) => 0 <= i < attrs.len() && attrs[i].0 == k && forall|j: int|
                0 <= j < i ==> attrs[j].0 != k,
            None => forall|j: int| 0 <= j < attrs.len() ==> attrs[j].0 != k,
        },
    decreases attrs.len(),
{
    if attrs.len() > 0 && attrs[0].0 != k {
        let t = attrs.drop_first();
        lemma_attr_find(t, k);
        match attr_find(t, k) {
            Some(i) => {
                assert(attrs[i + 1] == t[i]);
                assert forall|j: int| 0 <= j < i + 1 implies attrs[j].0 != k by {
                    if j > 0 {
                        assert(attrs[j] == t[j - 1]);
                    }
                }
            },
            None => {
                assert forall|j: int| 0 <= j < attrs.len() implies attrs[j].0 != k by {
                    if j > 0 {
                        assert(attrs[j] == t[j - 1]);
                    }
                }
            },
        }
    }
}

/// When `i` is the first index with key `k`, `attr_find` returns it.
pub proof fn lemma_attr_find_at(attrs: Seq<(Seq<char>, Seq<char>)>, k: Seq<char>, i: int)
    requires
        0 <= i < attrs.len(),
        attrs[i].0 == k,
        forall|j: int| 0 <= j < i ==> attrs[j].0 != k,
    ensures
        attr_find(attrs, k) == Some(i),
    decreases i,
{
    if i == 0 {
    } else {
        let t = attrs.drop_first();
        assert(attrs[0].0 != k);
        assert(t[i - 1] == attrs[i]);
        assert forall|j: int| 0 <= j < i - 1 implies t[j].0 != k by {
            assert(t[j] == attrs[j + 1]);
        }
        lemma_attr_find_at(t, k, i - 1);
    }
}

/// The value of the attribute named `k`, if present.
pub open spec fn attr_get(attrs: Seq<(Seq<char>, Seq<char>)>, k: Seq<char>) -> Option<Seq<char>> {
    match attr_find(attrs, k) {
        Some(i) => if 0 <= i < attrs.len() {
            Some(attrs[i].1)
        } else {
            None
        },
        None => None,
    }
}

/// The attribute list without any pair keyed `k`.
pub open spec fn attr_remove(
    attrs: Seq<(Seq<char>, Seq<char>)>,
    k: Seq<char>,
) -> Seq<(Seq<char>, Seq<char>)>
    decreases attrs.len(),
{
    if attrs.len() == 0 {
        Seq::empty()
    } else {
        let rest = attr_remove(attrs.drop_first(), k);
        if attrs[0].0 != k {
            seq![attrs[0]] + rest
        } else {
            rest
        }
    }
}

/// The attribute list with `k` bound to `v`: the first pair keyed `k` is
/// replaced in place, or the pair is appended when `k` is new.
pub open spec fn attr_upsert(
    attrs: Seq<(Seq<char>, Seq<char>)>,
    k: Seq<char>,
    v: Seq<char>,
) -> Seq<(Seq<char>, Seq<char>)> {
    match attr_find(attrs, k) {
        Some(i) => if 0 <= i < attrs.len() {
            attrs.update(i, (k, v))
        } else {
            attrs
        },
        None => attrs.push((k, v)),
    }
}

/// No two attributes share a key.
pub open spec fn unique_keys(attrs: Seq<(Seq<char>, Seq<char>)>) -> bool {
    forall|i: int, j: int| 0 <= i < j < attrs.len() ==> attrs[i].0 != attrs[j].0
}

/// Well-formedness of a whole tree: unique attribute keys at every node.
pub open spec fn wf_elem(e: ElemModel) -> bool
    decreases e,
{
    unique_keys(e.attrs) && forall|i: int|
        0 <= i < e.children.len() ==> wf_elem(#[trigger] e.children[i])
}

impl XmlElement {
    /// A fresh element with the given name and nothing else.
    pub fn new(name: String) -> (r: XmlElement)
        ensures
            r.model().name == name@,
            r.model().attrs == Seq::<(Seq<char>, Seq<char>)>::empty(),
            r.model().text == Seq::<char>::empty(),
            r.model().children == Seq::<ElemModel>::empty(),
            wf_elem(r.model()),
    {
        let r = XmlElement {
            name,
            attributes: Vec::new(),
            text_content: String::new(),
            children: Vec::new(),
        };
        proof {
            assert(attrs_view(r.attributes@) =~= Seq::<(Seq<char>, Seq<char>)>::empty());
            assert(forest_model(r.children@) =~= Seq::<ElemModel>::empty());
        }
        r
    }

    /// The value of the attribute named `key`, if present.
    pub fn get_attr(&self, key: &str) -> (r: Option<&String>)
        ensures
            match r {
                Some(v) => attr_get(self.model().attrs, key@) == Some(v@),
                None => attr_get(self.model().attrs, key@) is None,
            },
    {
        proof {
            lemma_attr_find(self.model().attrs, key@);
        }
        let n = self.attributes.len();
        let mut i: usize = 0;
        while i < n
            invariant
                i <= n,
                n == self.attributes.len(),
                forall|j: int| 0 <= j < i ==> self.model().attrs[j].0 != key@,
            decreases n - i,
        {
            if str_eq(self.attributes[i].0.as_str(), key) {
                proof {
                    assert(self.model().attrs[i as int].0 == key@);
                    lemma_attr_find_at(self.model().attrs, key@, i as int);
                }
                return Some(&self.attributes[i].1);
            }
            i += 1;
        }
        proof {
            lemma_attr_find(self.model().attrs, key@);
        }
        None
    }

    /// Whether the attribute named `key` is present.
    pub fn has_attr(&self, key: &str) -> (r: bool)
        ensures
            r == (attr_get(self.model().attrs, key@) is Some),
    {
        match self.get_attr(key) {
            Some(_) => true,
            None => false,
        }
    }

    /// Number of attributes.
    pub fn attr_count(&self) -> (r: usize)
        ensures
            r == self.model().attrs.len(),
    {
        self.attributes.len()
    }

    /// Index of the attribute named `key`, if present.
    fn find_attr_idx(&self, key: &str) -> (r: Option<usize>)
        ensures
            match r {
                Some(i) => attr_find(self.model().attrs, key@) == Some(i as int),
                None => attr_find(self.model().attrs, key@) is None,
            },
    {
        proof {
            lemma_attr_find(self.model().attrs, key@);
        }
        let n = self.attributes.len();
        let mut i: usize = 0;
        while i < n
            invariant
                i <= n,
                n == self.attributes.len(),
                forall|j: int| 0 <= j < i ==> self.model().attrs[j].0 != key@,
            decreases n - i,
        {
            if str_eq(self.attributes[i].0.as_str(), key) {
                proof {
                    assert(self.model().attrs[i as int].0 == key@);
                    lemma_attr_find_at(self.model().attrs, key@, i as int);
                }
                return Some(i);
            }
            i += 1;
        }
        None
    }

    /// Bind `key` to `val`, replacing any earlier value of the same key.
    pub fn set_attr(&mut self, key: &str, val: String)
        ensures
            final(self).model().name == old(self).model().name,
            final(self).model().text == old(self).model().text,
            final(self).model().children == old(self).model().children,
            final(self).model().attrs == attr_upsert(old(self).model().attrs, key@, val@),
            unique_keys(old(self).model().attrs) ==> unique_keys(final(self).model().attrs),
    {
        let ghost orig = old(self).model().attrs;
        let idx = self.find_attr_idx(key);
        let owned_key = String::from_str(key);
        match idx {
            Some(i) => {
                proof {
                    lemma_attr_find(orig, key@);
                    assert(orig.len() == self.attributes@.len());
                }
                self.attributes.set(i, (owned_key, val));
                proof {
                    assert(attrs_view(self.attributes@) =~~= attr_upsert(orig, key@, val@));
                    if unique_keys(orig) {
                        lemma_upsert_unique(orig, key@, val@);
                    }
                }
            },
            None => {
                self.attributes.push((owned_key, val));
                proof {
                    assert(attrs_view(self.attributes@) =~~= attr_upsert(orig, key@, val@));
                    if unique_keys(orig) {
                        lemma_upsert_unique(orig, key@, val@);
                    }
                }
            },
        }
    }

    /// Replace the element's direct text.
    pub fn set_text(&mut self, t: String)
        ensures
            final(self).model().name == old(self).model().name,
            final(self).model().attrs == old(self).model().attrs,
            final(self).model().children == old(self).model().children,
            final(self).model().text == t@,
    {
        self.text_content = t;
    }

    /// Append a child element.
    pub fn add_child(&mut self, c: XmlElement)
        ensures
            final(self).model().name == old(self).model().name,
            final(self).model().attrs == old(self).model().attrs,
            final(self).model().text == old(self).model().text,
            final(self).model().children == old(self).model().children.push(c.model()),
    {
        let ghost orig = self.children@;
        self.children.push(c);
        proof {
            lemma_forest_model_push(orig, c);
        }
    }
}

/// The attribute pairs of `v` whose key is not `key`, in order.
pub(crate) fn remove_attr_vec(v: &Vec<(String, String)>, key: &str) -> (r: Vec<(String, String)>)
    ensures
        attrs_view(r@) == attr_remove(attrs_view(v@), key@),
{
    let ghost av = attrs_view(v@);
    let mut out: Vec<(String, String)> = Vec::new();
    let n = v.len();
    let mut i: usize = 0;
    proof {
        assert(av.skip(0) =~= av);
        assert(attrs_view(out@) =~= Seq::<(Seq<char>, Seq<char>)>::empty());
    }
    while i < n
        invariant
            i <= n,
            n == v.len(),
            av == attrs_view(v@),
            attrs_view(out@) + attr_remove(av.skip(i as int), key@) == attr_remove(av, key@),
        decreases n - i,
    {
        let ghost pre = attrs_view(out@);
        let keep = !crate::strutil::str_eq(v[i].0.as_str(), key);
        if keep {
            out.push((v[i].0.clone(), v[i].1.clone()));
        }
        proof {
            let xv = av[i as int];
            assert(xv == (v@[i as int].0@, v@[i as int].1@));
            let tail = av.skip(i as int);
            assert(tail[0] == xv);
            assert(tail.drop_first() =~= av.skip(i as int + 1));
            if keep {
                assert(attrs_view(out@) =~~= pre.push(xv));
                assert(attr_remove(tail, key@) == seq![xv] + attr_remove(av.skip(i as int + 1), key@));
                assert(pre.push(xv) + attr_remove(av.skip(i as int + 1), key@) =~= pre + (seq![xv]
                    + attr_remove(av.skip(i as int + 1), key@)));
            } else {
                assert(attrs_view(out@) =~~= pre);
                assert(attr_remove(tail, key@) == attr_remove(av.skip(i as int + 1), key@));
            }
        }
        i += 1;
    }
    proof {
        assert(attr_remove(av.skip(n as int), key@).len() == 0);
        assert(attrs_view(out@) + attr_remove(av.skip(n as int), key@) =~= attrs_view(out@));
    }
    out
}

impl XmlElement {
    /// A copy of the whole tree without the attribute named `key`.
    pub fn copy_without_attr(&self, key: &str) -> (r: XmlElement)
        ensures
            r.model().name == self.model().name,
            r.model().text == self.model().text,
            r.model().children == self.model().children,
            r.model().attrs == attr_remove(self.model().attrs, key@),
    {
        let mut full = self.deep_copy();
        let filtered = remove_attr_vec(&full.attributes, key);
        full.attributes = filtered;
        full
    }

    /// A structurally equal copy of the whole tree.
    pub fn deep_copy(&self) -> (r: XmlElement)
        ensures
            r.model() == self.model(),
        decreases elem_height(self.model()),
    {
        let mut attributes: Vec<(String, String)> = Vec::new();
        let mut i: usize = 0;
        let an = self.attributes.len();
        while i < an
            invariant
                i <= an,
                an == self.attributes.len(),
                attributes@.len() == i,
                forall|j: int| 0 <= j < i ==> attributes@[j].0@ == self.attributes@[j].0@
                    && attributes@[j].1@ == self.attributes@[j].1@,
            decreases an - i,
        {
            let k = self.attributes[i].0.clone();
            let v = self.attributes[i].1.clone();
            attributes.push((k, v));
            i += 1;
        }
        let mut children: Vec<XmlElement> = Vec::new();
        let mut j: usize = 0;
        let cn = self.children.len();
        proof {
            lemma_forest_model(self.children@);
            lemma_forest_height(self.model().children);
        }
        while j < cn
            invariant
                j <= cn,
                cn == self.children.len(),
                children@.len() == j,
                forall|k: int| 0 <= k < j ==> elem_model(#[trigger] children@[k]) == elem_model(
                    self.children@[k],
                ),
                forall|k: int| 0 <= k < cn ==> elem_model(#[trigger] self.children@[k])
                    == self.model().children[k],
                forall|k: int| 0 <= k < cn ==> elem_height(#[trigger] self.model().children[k])
                    < elem_height(self.model()),
            decreases cn - j,
        {
            let c = self.children[j].deep_copy();
            children.push(c);
            j += 1;
        }
        let r = XmlElement {
            name: self.name.clone(),
            attributes,
            text_content: self.text_content.clone(),
            children,
        };
        proof {
            assert(attrs_view(r.attributes@) =~= attrs_view(self.attributes@));
            lemma_forest_model(r.children@);
            assert(forest_model(r.children@) =~= forest_model(self.children@));
        }
        r
    }
}

proof fn lemma_forest_model_push(s: Seq<XmlElement>, c: XmlElement)
    ensures
        forest_model(s.push(c)) == forest_model(s).push(elem_model(c)),
    decreases s,
{
    lemma_forest_model(s.push(c));
    lemma_forest_model(s);
    assert(forest_model(s.push(c)) =~= forest_model(s).push(elem_model(c)));
}

proof fn lemma_upsert_unique(attrs: Seq<(Seq<char>, Seq<char>)>, k: Seq<char>, v: Seq<char>)
    requires
        unique_keys(attrs),
    ensures
        unique_keys(attr_upsert(attrs, k, v)),
{
    lemma_attr_find(attrs, k);
    let r = attr_upsert(attrs, k, v);
    match attr_find(attrs, k) {
        Some(i) => {
            assert forall|a: int, b: int| 0 <= a < b < r.len() implies r[a].0 != r[b].0 by {
                assert(attrs[a].0 != attrs[b].0);
            }
        },
        None => {
            assert forall|a: int, b: int| 0 <= a < b < r.len() implies r[a].0 != r[b].0 by {
                if b < attrs.len() {
                    assert(attrs[a].0 != attrs[b].0);
                } else {
                    assert(r[b].0 == k);
                    assert(attrs[a].0 != k);
                }
            }
        },
    }
}

} // verus!
