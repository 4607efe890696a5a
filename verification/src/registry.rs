//! The template registry: a lookup from selection strings to the
//! best-matching `xsl:template` element, supporting `apply-templates`
//! inlining. Patterns are matched exactly first, then as `|`-separated
//! union alternatives against the selection or its last path segment.
//!
//! Registry construction follows imports across files; the decision logic
//! (scan a tree for templates, remember visited files, resolve `href`
//! values against the current directory) lives here, while reading and
//! parsing the files themselves is the caller's part.
use vstd::prelude::*;
use vstd::string::*;
use crate::chars::{last_segment, lemma_rfind_ch, rfind_ch, split_ch, trim_s};
use crate::elem::{attr_get, elem_height, elem_model, forest_height, forest_model, ElemModel,
    XmlElement, lemma_forest_model, lemma_forest_height};
use crate::strutil::{rfind_char_str, split_char_str, str_eq, strs_view, trim_str};

verus! {

/// View of a pattern-to-template vector.
pub open spec fn reg_view(v: Seq<(String, XmlElement)>) -> Seq<(Seq<char>, ElemModel)> {
    v.map_values(|p: (String, XmlElement)| (p.0@, elem_model(p.1)))
}

/// Index of the first entry registered under exactly `pat`.
pub open spec fn reg_find(reg: Seq<(Seq<char>, ElemModel)>, pat: Seq<char>) -> Option<int>
    decreases reg.len(),
{
    if reg.len() == 0 {
        None
    } else if reg[0].0 == pat {
        Some(0)
    } else {
        match reg_find(reg.drop_first(), pat) {
            Some(i) => Some(i + 1),
            None => None,
        }
    }
}

pub proof fn lemma_reg_find(reg: Seq<(Seq<char>, ElemModel)>, pat: Seq<char>)
    ensures
        match reg_find(reg, pat) {
            Some(i) => 0 <= i < reg.len() && reg[i].0 == pat && forall|j: int|
                0 <= j < i ==> reg[j].0 != pat,
            None => forall|j: int| 0 <= j < reg.len() ==> reg[j].0 != pat,
        },
    decreases reg.len(),
{
    if reg.len() > 0 && reg[0].0 != pat {
        let t = reg.drop_first();
        lemma_reg_find(t, pat);
        match reg_find(t, pat) {
            Some(i) => {
                assert(reg[i + 1] == t[i]);
                assert forall|j: int| 0 <= j < i + 1 implies reg[j].0 != pat by {
                    if j > 0 {
                        assert(reg[j] == t[j - 1]);
                    }
                }
            },
            None => {
                assert forall|j: int| 0 <= j < reg.len() implies reg[j].0 != pat by {
                    if j > 0 {
                        assert(reg[j] == t[j - 1]);
                    }
                }
            },
        }
    }
}

pub proof fn lemma_reg_find_at(reg: Seq<(Seq<char>, ElemModel)>, pat: Seq<char>, i: int)
    requires
        0 <= i < reg.len(),
        reg[i].0 == pat,
        forall|j: int| 0 <= j < i ==> reg[j].0 != pat,
    ensures
        reg_find(reg, pat) == Some(i),
    decreases i,
{
    if i > 0 {
        let t = reg.drop_first();
        assert(t[i - 1] == reg[i]);
        assert forall|j: int| 0 <= j < i - 1 implies t[j].0 != pat by {
            assert(t[j] == reg[j + 1]);
        }
        lemma_reg_find_at(t, pat, i - 1);
    }
}

/// Whether the pattern `pat` has a `|`-separated alternative that, after
/// trimming, equals the selection or its last path segment.
pub open spec fn pat_matches(pat: Seq<char>, sel: Seq<char>, lastseg: Seq<char>) -> bool {
    exists|t: int|
        0 <= t < split_ch(pat, '|').len() && (trim_s(#[trigger] split_ch(pat, '|')[t]) == sel
            || trim_s(split_ch(pat, '|')[t]) == lastseg)
}

/// Index of the first entry whose pattern matches `sel` as a union
/// alternative.
pub open spec fn reg_find_union(
    reg: Seq<(Seq<char>, ElemModel)>,
    sel: Seq<char>,
    lastseg: Seq<char>,
) -> Option<int>
    decreases reg.len(),
{
    if reg.len() == 0 {
        None
    } else if pat_matches(reg[0].0, sel, lastseg) {
        Some(0)
    } else {
        match reg_find_union(reg.drop_first(), sel, lastseg) {
            Some(i) => Some(i + 1),
            None => None,
        }
    }
}

pub proof fn lemma_reg_find_union(
    reg: Seq<(Seq<char>, ElemModel)>,
    sel: Seq<char>,
    lastseg: Seq<char>,
)
    ensures
        match reg_find_union(reg, sel, lastseg) {
            Some(i) => 0 <= i < reg.len() && pat_matches(reg[i].0, sel, lastseg) && forall|j: int|
                0 <= j < i ==> !pat_matches(reg[j].0, sel, lastseg),
            None => forall|j: int| 0 <= j < reg.len() ==> !pat_matches(reg[j].0, sel, lastseg),
        },
    decreases reg.len(),
{
    if reg.len() > 0 && !pat_matches(reg[0].0, sel, lastseg) {
        let t = reg.drop_first();
        lemma_reg_find_union(t, sel, lastseg);
        match reg_find_union(t, sel, lastseg) {
            Some(i) => {
                assert(reg[i + 1] == t[i]);
                assert forall|j: int| 0 <= j < i + 1 implies !pat_matches(
                    reg[j].0,
                    sel,
                    lastseg,
                ) by {
                    if j > 0 {
                        assert(reg[j] == t[j - 1]);
                    }
                }
            },
            None => {
                assert forall|j: int| 0 <= j < reg.len() implies !pat_matches(
                    reg[j].0,
                    sel,
                    lastseg,
                ) by {
                    if j > 0 {
                        assert(reg[j] == t[j - 1]);
                    }
                }
            },
        }
    }
}

pub proof fn lemma_reg_find_union_at(
    reg: Seq<(Seq<char>, ElemModel)>,
    sel: Seq<char>,
    lastseg: Seq<char>,
    i: int,
)
    requires
        0 <= i < reg.len(),
        pat_matches(reg[i].0, sel, lastseg),
        forall|j: int| 0 <= j < i ==> !pat_matches(reg[j].0, sel, lastseg),
    ensures
        reg_find_union(reg, sel, lastseg) == Some(i),
    decreases i,
{
    if i > 0 {
        let t = reg.drop_first();
        assert(t[i - 1] == reg[i]);
        assert forall|j: int| 0 <= j < i - 1 implies !pat_matches(t[j].0, sel, lastseg) by {
            assert(t[j] == reg[j + 1]);
        }
        lemma_reg_find_union_at(t, sel, lastseg, i - 1);
    }
}

/// Resolution of a selection string: exact pattern match first, then union
/// alternatives against the selection or its last path segment; absent when
/// neither applies.
pub open spec fn reg_lookup(reg: Seq<(Seq<char>, ElemModel)>, sel: Seq<char>) -> Option<ElemModel> {
    match reg_find(reg, sel) {
        Some(i) => if 0 <= i < reg.len() {
            Some(reg[i].1)
        } else {
            None
        },
        None => match reg_find_union(reg, sel, last_segment(sel)) {
            Some(i) => if 0 <= i < reg.len() {
                Some(reg[i].1)
            } else {
                None
            },
            None => None,
        },
    }
}

/// The registry after indexing `pat` to the template `tpl`: an existing
/// entry for the same pattern is overwritten (last write wins), otherwise
/// the entry is appended.
pub open spec fn reg_upsert(
    reg: Seq<(Seq<char>, ElemModel)>,
    pat: Seq<char>,
    tpl: ElemModel,
) -> Seq<(Seq<char>, ElemModel)> {
    match reg_find(reg, pat) {
        Some(i) => if 0 <= i < reg.len() {
            reg.update(i, (pat, tpl))
        } else {
            reg
        },
        None => reg.push((pat, tpl)),
    }
}

/// The registry after scanning one element tree in document order: each
/// `xsl:template` element carrying a `match` attribute is indexed under
/// that attribute's verbatim value.
pub open spec fn reg_add_elem(
    reg: Seq<(Seq<char>, ElemModel)>,
    e: ElemModel,
) -> Seq<(Seq<char>, ElemModel)>
    decreases elem_height(e), 1int, 0int,
{
    let reg1 = if e.name == "xsl:template"@ && attr_get(e.attrs, "match"@) is Some {
        reg_upsert(reg, attr_get(e.attrs, "match"@)->Some_0, e)
    } else {
        reg
    };
    reg_add_forest(reg1, e.children)
}

/// The registry after scanning a sequence of trees, left to right.
pub open spec fn reg_add_forest(
    reg: Seq<(Seq<char>, ElemModel)>,
    cs: Seq<ElemModel>,
) -> Seq<(Seq<char>, ElemModel)>
    decreases forest_height(cs), 2int, cs.len(),
{
    if cs.len() == 0 {
        reg
    } else {
        reg_add_forest(reg_add_elem(reg, cs[0]), cs.drop_first())
    }
}

/// The `href` values of the `xsl:import` and `xsl:include` elements of a
/// tree, in document order.
pub open spec fn imports_of(e: ElemModel) -> Seq<Seq<char>>
    decreases elem_height(e), 1int, 0int,
{
    let own = if (e.name == "xsl:import"@ || e.name == ("xsl:inclu"@ + "de"@)) && attr_get(
        e.attrs,
        "href"@,
    ) is Some {
        seq![attr_get(e.attrs, "href"@)->Some_0]
    } else {
        Seq::empty()
    };
    own + imports_of_forest(e.children)
}

/// The import targets of a sequence of trees, in order.
pub open spec fn imports_of_forest(cs: Seq<ElemModel>) -> Seq<Seq<char>>
    decreases forest_height(cs), 2int, cs.len(),
{
    if cs.len() == 0 {
        Seq::empty()
    } else {
        imports_of(cs[0]) + imports_of_forest(cs.drop_first())
    }
}

/// An import `href` resolved against the directory of the importing file.
pub open spec fn join_path(dir: Seq<char>, href: Seq<char>) -> Seq<char> {
    if dir.len() == 0 {
        href
    } else {
        dir + "/"@ + href
    }
}

/// The directory part of a path: the text before the final `/`, empty when
/// the path has none.
pub open spec fn dir_of(path: Seq<char>) -> Seq<char> {
    match rfind_ch(path, '/') {
        None => Seq::empty(),
        Some(i) => path.subrange(0, i),
    }
}

/// The import targets of a forest, each resolved against `dir`.
pub open spec fn resolved_imports(dir: Seq<char>, cs: Seq<ElemModel>) -> Seq<Seq<char>> {
    imports_of_forest(cs).map_values(|h: Seq<char>| join_path(dir, h))
}

/// The registry of templates, keyed by match pattern.
#[derive(Debug)]
pub struct TemplateRegistry {
    pub entries: Vec<(String, XmlElement)>,
}

impl TemplateRegistry {
    /// The mathematical model: pattern-to-template pairs in registration
    /// order, patterns unique.
    pub open spec fn model(self) -> Seq<(Seq<char>, ElemModel)> {
        reg_view(self.entries@)
    }

    /// An empty registry.
    pub fn new() -> (r: TemplateRegistry)
        ensures
            r.model() == Seq::<(Seq<char>, ElemModel)>::empty(),
    {
        let r = TemplateRegistry { entries: Vec::new() };
        proof {
            assert(r.model() =~= Seq::<(Seq<char>, ElemModel)>::empty());
        }
        r
    }

    /// Index of the entry registered under exactly `pat`.
    fn find_idx(&self, pat: &str) -> (r: Option<usize>)
        ensures
            match r {
                Some(i) => reg_find(self.model(), pat@) == Some(i as int),
                None => reg_find(self.model(), pat@) is None,
            },
    {
        proof {
            lemma_reg_find(self.model(), pat@);
        }
        let n = self.entries.len();
        let mut i: usize = 0;
        while i < n
            invariant
                i <= n,
                n == self.entries.len(),
                forall|j: int| 0 <= j < i ==> self.model()[j].0 != pat@,
            decreases n - i,
        {
            if str_eq(self.entries[i].0.as_str(), pat) {
                proof {
                    assert(self.model()[i as int].0 == pat@);
                    lemma_reg_find_at(self.model(), pat@, i as int);
                }
                return Some(i);
            }
            i += 1;
        }
        None
    }

    /// Register `tpl` under `pat`; the last registration of a pattern wins.
    pub fn register(&mut self, pat: &str, tpl: XmlElement)
        ensures
            final(self).model() == reg_upsert(old(self).model(), pat@, elem_model(tpl)),
    {
        let ghost orig = old(self).model();
        let idx = self.find_idx(pat);
        let owned = String::from_str(pat);
        match idx {
            Some(i) => {
                proof {
                    lemma_reg_find(orig, pat@);
                    assert(orig.len() == self.entries@.len());
                }
                self.entries.set(i, (owned, tpl));
                proof {
                    assert(reg_view(self.entries@) =~~= reg_upsert(orig, pat@, elem_model(tpl)));
                }
            },
            None => {
                self.entries.push((owned, tpl));
                proof {
                    assert(reg_view(self.entries@) =~~= reg_upsert(orig, pat@, elem_model(tpl)));
                }
            },
        }
    }

    /// Whether `pat` has a trimmed `|`-alternative equal to `sel` or to
    /// `lastseg`.
    fn pat_matches_exec(pat: &str, sel: &str, lastseg: &str) -> (r: bool)
        ensures
            r == pat_matches(pat@, sel@, lastseg@),
    {
        let alts = split_char_str(pat, '|');
        let n = alts.len();
        let ghost av = split_ch(pat@, '|');
        let mut t: usize = 0;
        while t < n
            invariant
                t <= n,
                n == av.len(),
                av == split_ch(pat@, '|'),
                strs_view(alts@) == av,
                forall|j: int| 0 <= j < t ==> trim_s(#[trigger] av[j]) != sel@ && trim_s(av[j])
                    != lastseg@,
            decreases n - t,
        {
            let alt = trim_str(alts[t].as_str());
            if str_eq(alt.as_str(), sel) || str_eq(alt.as_str(), lastseg) {
                proof {
                    assert(alts@[t as int]@ == av[t as int]);
                    assert(trim_s(av[t as int]) == sel@ || trim_s(av[t as int]) == lastseg@);
                }
                return true;
            }
            proof {
                assert(alts@[t as int]@ == av[t as int]);
            }
            t += 1;
        }
        false
    }

    /// Resolve `sel`: exact pattern match first, then union alternatives
    /// against `sel` or its last path segment.
    pub fn lookup(&self, sel: &str) -> (r: Option<&XmlElement>)
        ensures
            match r {
                Some(t) => reg_lookup(self.model(), sel@) == Some(elem_model(*t)),
                None => reg_lookup(self.model(), sel@) is None,
            },
    {
        proof {
            lemma_reg_find(self.model(), sel@);
        }
        match self.find_idx(sel) {
            Some(i) => {
                return Some(&self.entries[i].1);
            },
            None => {},
        }
        let n = sel.unicode_len();
        proof {
            lemma_rfind_ch(sel@, '/');
        }
        let lastseg: String = match rfind_char_str(sel, '/') {
            Some(i) => String::from_str(sel.substring_char(i + 1, n)),
            None => String::from_str(sel),
        };
        proof {
            assert(lastseg@ == last_segment(sel@));
        }
        let en = self.entries.len();
        let mut j: usize = 0;
        while j < en
            invariant
                j <= en,
                en == self.entries.len(),
                lastseg@ == last_segment(sel@),
                reg_find(self.model(), sel@) is None,
                forall|k: int| 0 <= k < j ==> !pat_matches(self.model()[k].0, sel@, lastseg@),
            decreases en - j,
        {
            if Self::pat_matches_exec(self.entries[j].0.as_str(), sel, lastseg.as_str()) {
                proof {
                    assert(self.model()[j as int].0 == self.entries@[j as int].0@);
                    lemma_reg_find_union_at(self.model(), sel@, lastseg@, j as int);
                }
                return Some(&self.entries[j].1);
            }
            proof {
                assert(self.model()[j as int].0 == self.entries@[j as int].0@);
            }
            j += 1;
        }
        proof {
            lemma_reg_find_union(self.model(), sel@, lastseg@);
        }
        None
    }

    /// Scan one tree in document order and index every `xsl:template`
    /// element that carries a `match` attribute.
    pub fn add_tree(&mut self, tree: &XmlElement)
        ensures
            final(self).model() == reg_add_elem(old(self).model(), tree.model()),
        decreases elem_height(tree.model()),
    {
        let ghost orig = old(self).model();
        if str_eq(tree.name.as_str(), "xsl:template") {
            let matched = match tree.get_attr("match") {
                Some(m) => Some(m.clone()),
                None => None,
            };
            match matched {
                Some(m) => {
                    let cp = tree.deep_copy();
                    self.register(m.as_str(), cp);
                },
                None => {},
            }
        }
        let ghost mid = self.model();
        let ghost cs = tree.model().children;
        proof {
            lemma_forest_model(tree.children@);
            lemma_forest_height(cs);
            assert(cs.skip(0) =~= cs);
        }
        let cn = tree.children.len();
        let mut i: usize = 0;
        while i < cn
            invariant
                i <= cn,
                cn == tree.children.len(),
                cs == tree.model().children,
                cs.len() == cn,
                forall|k: int| 0 <= k < cn ==> elem_model(#[trigger] tree.children@[k]) == cs[k],
                forall|k: int| 0 <= k < cn ==> elem_height(#[trigger] cs[k]) <= forest_height(cs),
                elem_height(tree.model()) == 1 + forest_height(cs),
                reg_add_forest(self.model(), cs.skip(i as int)) == reg_add_forest(mid, cs),
            decreases cn - i,
        {
            let ghost pre = self.model();
            self.add_tree(&tree.children[i]);
            proof {
                let tail = cs.skip(i as int);
                assert(tail[0] == cs[i as int]);
                assert(tail.drop_first() =~= cs.skip(i as int + 1));
                assert(self.model() == reg_add_elem(pre, cs[i as int]));
                assert(reg_add_forest(pre, tail) == reg_add_forest(
                    reg_add_elem(pre, cs[i as int]),
                    cs.skip(i as int + 1),
                ));
            }
            i += 1;
        }
        proof {
            assert(cs.skip(cn as int).len() == 0);
            assert(reg_add_forest(self.model(), cs.skip(cn as int)) == self.model());
            assert(reg_add_forest(mid, cs) == self.model());
            assert(reg_add_elem(orig, tree.model()) == reg_add_forest(mid, cs));
        }
    }
}

/// Append the resolved `href` values of the `xsl:import` and
/// `xsl:include` elements of `tree`, in document order.
fn push_imports(tree: &XmlElement, out: &mut Vec<String>)
    ensures
        strs_view(final(out)@) == strs_view(old(out)@) + imports_of(tree.model()),
    decreases elem_height(tree.model()),
{
    let ghost orig = strs_view(old(out)@);
    let is_import = str_eq(tree.name.as_str(), "xsl:import") || {
        let mut key = String::from_str("xsl:inclu");
        key.append("de");
        str_eq(tree.name.as_str(), key.as_str())
    };
    if is_import {
        match tree.get_attr("href") {
            Some(h) => {
                let hv = h.clone();
                out.push(hv);
            },
            None => {},
        }
    }
    proof {
        assert(strs_view(out@) =~~= orig + own_imports(tree.model()));
    }
    let ghost mid = strs_view(out@);
    let ghost cs = tree.model().children;
    proof {
        lemma_forest_model(tree.children@);
        lemma_forest_height(cs);
        assert(cs.skip(0) =~= cs);
        assert(mid + imports_of_forest(cs.skip(0)) == mid + imports_of_forest(cs));
    }
    let cn = tree.children.len();
    let mut i: usize = 0;
    while i < cn
        invariant
            i <= cn,
            cn == tree.children.len(),
            cs == tree.model().children,
            cs.len() == cn,
            forall|k: int| 0 <= k < cn ==> elem_model(#[trigger] tree.children@[k]) == cs[k],
            forall|k: int| 0 <= k < cn ==> elem_height(#[trigger] cs[k]) <= forest_height(cs),
            elem_height(tree.model()) == 1 + forest_height(cs),
            strs_view(out@) + imports_of_forest(cs.skip(i as int)) == mid + imports_of_forest(cs),
        decreases cn - i,
    {
        let ghost pre = strs_view(out@);
        push_imports(&tree.children[i], out);
        proof {
            let tail = cs.skip(i as int);
            assert(tail[0] == cs[i as int]);
            assert(tail.drop_first() =~= cs.skip(i as int + 1));
            assert(imports_of_forest(tail) == imports_of(cs[i as int]) + imports_of_forest(
                cs.skip(i as int + 1),
            ));
            assert(strs_view(out@) == pre + imports_of(cs[i as int]));
            assert(pre + imports_of(cs[i as int]) + imports_of_forest(cs.skip(i as int + 1)) =~= pre
                + (imports_of(cs[i as int]) + imports_of_forest(cs.skip(i as int + 1))));
        }
        i += 1;
    }
    proof {
        assert(imports_of_forest(cs.skip(cn as int)).len() == 0);
        assert(strs_view(out@) + imports_of_forest(cs.skip(cn as int)) =~= strs_view(out@));
        assert(imports_of(tree.model()) == own_imports(tree.model()) + imports_of_forest(cs));
        assert(orig + own_imports(tree.model()) + imports_of_forest(cs) =~= orig + (own_imports(
            tree.model(),
        ) + imports_of_forest(cs)));
    }
}

/// The `href` values of the `xsl:import` and `xsl:include` elements of
/// `tree`, in document order.
pub fn collect_imports(tree: &XmlElement) -> (r: Vec<String>)
    ensures
        strs_view(r@) == imports_of(tree.model()),
{
    let mut out: Vec<String> = Vec::new();
    proof {
        assert(strs_view(out@) =~= Seq::<Seq<char>>::empty());
    }
    push_imports(tree, &mut out);
    proof {
        assert(Seq::<Seq<char>>::empty() + imports_of(tree.model()) =~= imports_of(tree.model()));
    }
    out
}

/// Builds one registry from a root file and the files it transitively
/// imports. The caller reads and parses files; the builder decides, by a
/// visited set of canonical file identities, whether a file's templates
/// are indexed, so that an import cycle or a diamond import is followed at
/// most once per file.
#[derive(Debug)]
pub struct RegistryBuilder {
    pub registry: TemplateRegistry,
    pub visited: Vec<String>,
}

/// Whether a canonical file identity has been processed already.
pub open spec fn is_visited(visited: Seq<Seq<char>>, id: Seq<char>) -> bool {
    exists|i: int| 0 <= i < visited.len() && visited[i] == id
}

impl RegistryBuilder {
    /// A builder with an empty registry and no file visited.
    pub fn new() -> (r: RegistryBuilder)
        ensures
            r.registry.model() == Seq::<(Seq<char>, ElemModel)>::empty(),
            r.visited@.len() == 0,
    {
        RegistryBuilder { registry: TemplateRegistry::new(), visited: Vec::new() }
    }

    /// Feed one loaded file: its canonical identity and its parsed root
    /// elements. A file seen before changes nothing and asks for no
    /// imports; a new file is marked visited, its templates are indexed in
    /// document order, and the paths of its imports, resolved against the
    /// file's directory, are returned for the caller to load next.
    pub fn add_file(&mut self, canon_id: &str, trees: &Vec<XmlElement>) -> (imports: Vec<String>)
        ensures
            is_visited(strs_view(old(self).visited@), canon_id@) ==> {
                &&& final(self).registry.model() == old(self).registry.model()
                &&& final(self).visited@ == old(self).visited@
                &&& imports@.len() == 0
            },
            !is_visited(strs_view(old(self).visited@), canon_id@) ==> {
                &&& final(self).registry.model() == reg_add_forest(
                    old(self).registry.model(),
                    forest_model(trees@),
                )
                &&& strs_view(final(self).visited@) == strs_view(old(self).visited@).push(
                    canon_id@,
                )
                &&& strs_view(imports@) == resolved_imports(
                    dir_of(canon_id@),
                    forest_model(trees@),
                )
            },
    {
        let ghost old_visited = strs_view(old(self).visited@);
        let vn = self.visited.len();
        let mut vi: usize = 0;
        while vi < vn
            invariant
                vi <= vn,
                vn == self.visited.len(),
                strs_view(self.visited@) == old_visited,
                self.registry.model() == old(self).registry.model(),
                self.visited@ == old(self).visited@,
                forall|j: int| 0 <= j < vi ==> old_visited[j] != canon_id@,
            decreases vn - vi,
        {
            if str_eq(self.visited[vi].as_str(), canon_id) {
                proof {
                    assert(old_visited[vi as int] == canon_id@);
                    assert(is_visited(old_visited, canon_id@));
                }
                return Vec::new();
            }
            vi += 1;
        }
        proof {
            assert(!is_visited(old_visited, canon_id@));
        }
        let owned_id = String::from_str(canon_id);
        self.visited.push(owned_id);
        proof {
            assert(strs_view(self.visited@) =~~= old_visited.push(canon_id@));
        }
        let ghost fm = forest_model(trees@);
        let ghost reg0 = self.registry.model();
        proof {
            lemma_forest_model(trees@);
            assert(fm.skip(0) =~= fm);
        }
        let tn = trees.len();
        let mut ti: usize = 0;
        while ti < tn
            invariant
                ti <= tn,
                tn == trees.len(),
                fm == forest_model(trees@),
                fm.len() == tn,
                forall|k: int| 0 <= k < tn ==> elem_model(#[trigger] trees@[k]) == fm[k],
                strs_view(self.visited@) == old_visited.push(canon_id@),
                reg_add_forest(self.registry.model(), fm.skip(ti as int)) == reg_add_forest(
                    reg0,
                    fm,
                ),
                reg0 == old(self).registry.model(),
            decreases tn - ti,
        {
            let ghost pre = self.registry.model();
            self.registry.add_tree(&trees[ti]);
            proof {
                let tail = fm.skip(ti as int);
                assert(tail[0] == fm[ti as int]);
                assert(tail.drop_first() =~= fm.skip(ti as int + 1));
            }
            ti += 1;
        }
        proof {
            assert(fm.skip(tn as int).len() == 0);
            assert(reg_add_forest(self.registry.model(), fm.skip(tn as int))
                == self.registry.model());
        }
        proof {
            lemma_rfind_ch(canon_id@, '/');
        }
        let dir: String = match rfind_char_str(canon_id, '/') {
            Some(i) => String::from_str(canon_id.substring_char(0, i)),
            None => String::new(),
        };
        proof {
            assert(dir@ == dir_of(canon_id@));
        }
        let mut resolved: Vec<String> = Vec::new();
        let ghost hrefs = imports_of_forest(fm);
        let mut hs: Vec<String> = Vec::new();
        proof {
            assert(strs_view(hs@) =~= Seq::<Seq<char>>::empty());
            assert(hrefs.skip(0) =~= hrefs);
        }
        let mut fi: usize = 0;
        while fi < tn
            invariant
                fi <= tn,
                tn == trees.len(),
                fm == forest_model(trees@),
                fm.len() == tn,
                forall|k: int| 0 <= k < tn ==> elem_model(#[trigger] trees@[k]) == fm[k],
                strs_view(hs@) + imports_of_forest(fm.skip(fi as int)) == imports_of_forest(fm),
            decreases tn - fi,
        {
            let ghost pre = strs_view(hs@);
            push_imports(&trees[fi], &mut hs);
            proof {
                let tail = fm.skip(fi as int);
                assert(tail[0] == fm[fi as int]);
                assert(tail.drop_first() =~= fm.skip(fi as int + 1));
                assert(imports_of_forest(tail) == imports_of(fm[fi as int]) + imports_of_forest(
                    fm.skip(fi as int + 1),
                ));
                assert(pre + imports_of(fm[fi as int]) + imports_of_forest(fm.skip(fi as int + 1))
                    =~= pre + (imports_of(fm[fi as int]) + imports_of_forest(
                    fm.skip(fi as int + 1),
                )));
            }
            fi += 1;
        }
        proof {
            assert(imports_of_forest(fm.skip(tn as int)).len() == 0);
            assert(strs_view(hs@) + imports_of_forest(fm.skip(tn as int)) =~= strs_view(hs@));
            assert(strs_view(hs@) == hrefs);
        }
        let hn = hs.len();
        let mut hi: usize = 0;
        while hi < hn
            invariant
                hi <= hn,
                hn == hs.len(),
                strs_view(hs@) == hrefs,
                dir@ == dir_of(canon_id@),
                resolved@.len() == hi,
                forall|k: int| 0 <= k < hi ==> #[trigger] resolved@[k]@ == join_path(
                    dir_of(canon_id@),
                    hrefs[k],
                ),
            decreases hn - hi,
        {
            let href = &hs[hi];
            let joined: String = if dir.as_str().unicode_len() == 0 {
                href.clone()
            } else {
                let mut j = dir.clone();
                j.append("/");
                j.append(href.as_str());
                j
            };
            proof {
                assert(hs@[hi as int]@ == hrefs[hi as int]);
            }
            resolved.push(joined);
            hi += 1;
        }
        proof {
            assert(strs_view(resolved@) =~~= resolved_imports(dir_of(canon_id@), fm));
        }
        resolved
    }

    /// The finished registry.
    pub fn into_registry(self) -> (r: TemplateRegistry)
        ensures
            r.model() == self.registry.model(),
    {
        self.registry
    }
}

/// The import targets named by the element itself, without its children.
pub open spec fn own_imports(e: ElemModel) -> Seq<Seq<char>> {
    if (e.name == "xsl:import"@ || e.name == ("xsl:inclu"@ + "de"@)) && attr_get(
        e.attrs,
        "href"@,
    ) is Some {
        seq![attr_get(e.attrs, "href"@)->Some_0]
    } else {
        Seq::empty()
    }
}

} // verus!
