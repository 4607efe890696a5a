//! HTML parsing: scraper builds the document, and the verified logic here
//! converts its element nodes into the generic tree — class folding into
//! the element name, last-write-wins attributes, and leaf text runs joined
//! by single spaces.
//!
//! The parsed document is a function of its text alone, so its queries are
//! given names — `html_selected` for what a selector matches, `dom_view`
//! for what one node holds — and both the conversion and `parse_html` are
//! specified exactly over them. HTML parsing itself never fails.
use vstd::prelude::*;
use vstd::string::*;
use scraper::{ElementRef, Html, Selector};
use crate::chars::{join_with, split_ws, trim_s};
use crate::detect::InputFormat;
use crate::elem::{attr_upsert, forest_model, lemma_forest_model, wf_elem, ElemModel,
    XmlElement};
use crate::strutil::{split_ws_str, str_eq, strs_view, trim_str};
use crate::xmlparse::all_wf;
use crate::attrs::push_join;

verus! {

#[verifier::external_type_specification]
#[verifier::external_body]
pub struct ExHtml(Html);

#[verifier::external_type_specification]
#[verifier::external_body]
pub struct ExSelector(Selector);

#[verifier::external_type_specification]
#[verifier::external_body]
pub struct ExElementRef<'a>(ElementRef<'a>);

/// Plain-valued model of one parsed element node: its tag, attributes,
/// descendant text runs and child elements, all in document order.
pub struct DomModel {
    pub tag: Seq<char>,
    pub attrs: Seq<(Seq<char>, Seq<char>)>,
    pub runs: Seq<Seq<char>>,
    pub kids: Seq<DomModel>,
}

/// What one parsed node holds, a function of the node alone.
pub uninterp spec fn dom_view(e: ElementRef<'_>) -> DomModel;

/// Whether a node's parent exists and is itself an element, a function of
/// the node alone.
pub uninterp spec fn node_parented(e: ElementRef<'_>) -> bool;

/// The text a document was parsed from, a function of the document alone.
pub uninterp spec fn html_content_of(doc: Html) -> Seq<char>;

/// The text a selector was compiled from, a function of the selector
/// alone.
pub uninterp spec fn sel_text_of(sel: Selector) -> Seq<char>;

/// The nodes a selector matches in a parsed document, in document order:
/// a function of the document text and the selector text alone.
pub uninterp spec fn html_selected(content: Seq<char>, sel: Seq<char>) -> Seq<DomModel>;

/// For each matched node, whether its parent is itself an element; the
/// companion of `html_selected`, index by index.
pub uninterp spec fn html_parented(content: Seq<char>, sel: Seq<char>) -> Seq<bool>;

/// Relies on scraper's `Html::parse_document`: the parsed document.
/// HTML5 parsing is total and deterministic: it always yields a document,
/// a function of the input text.
#[verifier::external_body]
fn parse_document(content: &str) -> (r: Html)
    ensures
        html_content_of(r) == content@,
{
    Html::parse_document(content)
}

/// Relies on scraper's `Selector::parse`: a compiled CSS selector, `None`
/// only for invalid selector text; `html`, `body > *, html > *` and `*`
/// are valid selectors, so those always compile.
#[verifier::external_body]
fn selector_parse(s: &str) -> (r: Option<Selector>)
    ensures
        match r {
            Some(sel) => sel_text_of(sel) == s@,
            None => true,
        },
        (s@ == "html"@ || s@ == "body > *, html > *"@ || s@ == "*"@) ==> r is Some,
{
    Selector::parse(s).ok()
}

/// Relies on scraper's `Html::select`: every node the selector matches,
/// in document order — the nodes of the named query, with their
/// parent-is-element flags.
#[verifier::external_body]
fn select_all<'a>(doc: &'a Html, sel: &Selector) -> (r: Vec<ElementRef<'a>>)
    ensures
        r@.len() == html_selected(html_content_of(*doc), sel_text_of(*sel)).len(),
        r@.len() == html_parented(html_content_of(*doc), sel_text_of(*sel)).len(),
        forall|i: int|
            0 <= i < r@.len() ==> dom_view(#[trigger] r@[i]) == html_selected(
                html_content_of(*doc),
                sel_text_of(*sel),
            )[i],
        forall|i: int|
            0 <= i < r@.len() ==> node_parented(#[trigger] r@[i]) == html_parented(
                html_content_of(*doc),
                sel_text_of(*sel),
            )[i],
{
    doc.select(sel).collect()
}

/// Relies on scraper's `Element::name`: the node's tag name.
#[verifier::external_body]
fn elem_name(e: &ElementRef<'_>) -> (r: String)
    ensures
        r@ == dom_view(*e).tag,
{
    e.value().name().to_string()
}

/// Relies on scraper's `Element::attrs`: the node's attributes as owned
/// key-value pairs, in document order.
#[verifier::external_body]
fn elem_attrs(e: &ElementRef<'_>) -> (r: Vec<(String, String)>)
    ensures
        crate::elem::attrs_view(r@) == dom_view(*e).attrs,
{
    e.value().attrs().map(|(k, v)| (k.to_string(), v.to_string())).collect()
}

/// Relies on scraper's `ElementRef::child_elements`: the child elements,
/// in document order; each child's view is the matching entry of the
/// node's view.
#[verifier::external_body]
fn child_elements<'a>(e: &ElementRef<'a>) -> (r: Vec<ElementRef<'a>>)
    ensures
        r@.len() == dom_view(*e).kids.len(),
        forall|i: int|
            0 <= i < r@.len() ==> dom_view(#[trigger] r@[i]) == dom_view(*e).kids[i],
{
    e.child_elements().collect()
}

/// Relies on scraper's `ElementRef::text`: the descendant text runs, in
/// document order.
#[verifier::external_body]
fn text_runs(e: &ElementRef<'_>) -> (r: Vec<String>)
    ensures
        strs_view(r@) == dom_view(*e).runs,
{
    e.text().map(|t| t.to_string()).collect()
}

/// Relies on scraper's `ElementRef::wrap` and ego_tree's `NodeRef::parent`:
/// whether the node's parent exists and is itself an element.
#[verifier::external_body]
fn has_element_parent(e: &ElementRef<'_>) -> (r: bool)
    ensures
        r == node_parented(*e),
{
    match e.parent() {
        Some(p) => ElementRef::wrap(p).is_some(),
        None => false,
    }
}

/// The element name after HTML class folding: the classes of the `class`
/// attribute are appended as `.class1.class2`, and a classed `div` drops
/// its own tag name; an element without classes keeps its name.
pub open spec fn folded_name(tag: Seq<char>, class_val: Seq<char>) -> Seq<char> {
    let classes = split_ws(class_val);
    if classes.len() == 0 {
        tag
    } else {
        let base = if tag == "div"@ {
            Seq::<char>::empty()
        } else {
            tag
        };
        base + dot_join(classes)
    }
}

/// `.c1.c2...`: each class prefixed by a dot.
pub open spec fn dot_join(classes: Seq<Seq<char>>) -> Seq<char>
    decreases classes.len(),
{
    if classes.len() == 0 {
        Seq::empty()
    } else {
        "."@ + classes[0] + dot_join(classes.drop_first())
    }
}

/// Fold a `class` attribute value into the element name.
pub fn fold_class_name(tag: &str, class_val: &str) -> (r: String)
    ensures
        r@ == folded_name(tag@, class_val@),
{
    let classes = split_ws_str(class_val);
    let ghost cl = split_ws(class_val@);
    if classes.len() == 0 {
        return String::from_str(tag);
    }
    let mut name = if str_eq(tag, "div") {
        String::new()
    } else {
        String::from_str(tag)
    };
    let ghost base = name@;
    let n = classes.len();
    let mut i: usize = 0;
    proof {
        assert(cl.skip(0) =~= cl);
        assert(base + dot_join(cl.skip(0)) == base + dot_join(cl));
    }
    while i < n
        invariant
            i <= n,
            n == classes.len(),
            cl == split_ws(class_val@),
            strs_view(classes@) == cl,
            cl.len() == n,
            name@ + dot_join(cl.skip(i as int)) == base + dot_join(cl),
        decreases n - i,
    {
        let ghost pre = name@;
        name.append(".");
        name.append(classes[i].as_str());
        proof {
            let tail = cl.skip(i as int);
            assert(tail[0] == cl[i as int]);
            assert(classes@[i as int]@ == cl[i as int]);
            assert(tail.drop_first() =~= cl.skip(i as int + 1));
            assert(dot_join(tail) == "."@ + cl[i as int] + dot_join(cl.skip(i as int + 1)));
            assert(pre + "."@ + cl[i as int] + dot_join(cl.skip(i as int + 1)) =~= pre + ("."@
                + cl[i as int] + dot_join(cl.skip(i as int + 1))));
        }
        i += 1;
    }
    proof {
        assert(dot_join(cl.skip(n as int)).len() == 0);
        assert(name@ + dot_join(cl.skip(n as int)) =~= name@);
    }
    name
}

/// The direct text of a leaf: the runs joined by single spaces, trimmed.
pub open spec fn joined_runs(runs: Seq<Seq<char>>) -> Seq<char> {
    trim_s(join_with(runs, " "@))
}

/// Join text runs by single spaces and trim the result.
pub fn join_runs(runs: &Vec<String>) -> (r: String)
    ensures
        r@ == joined_runs(strs_view(runs@)),
{
    let mut joined = String::new();
    push_join(&mut joined, runs, " ");
    proof {
        assert(Seq::<char>::empty() + join_with(strs_view(runs@), " "@) =~= join_with(
            strs_view(runs@),
            " "@,
        ));
    }
    trim_str(joined.as_str())
}

/// The converted name of a node: the tag, unless HTML mode and a `class`
/// attribute stands among the attributes — then the fold of the last one.
pub open spec fn conv_name(tag: Seq<char>, attrs: Seq<(Seq<char>, Seq<char>)>, is_html: bool) -> Seq<
    char,
>
    decreases attrs.len(),
{
    if attrs.len() == 0 {
        tag
    } else if is_html && attrs.last().0 == "class"@ {
        folded_name(tag, attrs.last().1)
    } else {
        conv_name(tag, attrs.drop_last(), is_html)
    }
}

/// The converted attributes of a node: folded left to right with the last
/// write winning; in HTML mode the `class` attribute is left out.
pub open spec fn conv_attrs(attrs: Seq<(Seq<char>, Seq<char>)>, is_html: bool) -> Seq<
    (Seq<char>, Seq<char>),
>
    decreases attrs.len(),
{
    if attrs.len() == 0 {
        Seq::empty()
    } else {
        let p = conv_attrs(attrs.drop_last(), is_html);
        if is_html && attrs.last().0 == "class"@ {
            p
        } else {
            attr_upsert(p, attrs.last().0, attrs.last().1)
        }
    }
}

/// The conversion of one parsed node, descending `fuel` levels: folded
/// name, class-free attributes, children in order, and text only on a
/// leaf.
pub open spec fn conv_spec(m: DomModel, is_html: bool, fuel: nat) -> ElemModel
    decreases fuel, 0int, 0int,
{
    let kids = if fuel > 0 {
        conv_kids(m.kids, is_html, (fuel - 1) as nat)
    } else {
        Seq::<ElemModel>::empty()
    };
    ElemModel {
        name: conv_name(m.tag, m.attrs, is_html),
        attrs: conv_attrs(m.attrs, is_html),
        text: if kids.len() == 0 {
            joined_runs(m.runs)
        } else {
            Seq::empty()
        },
        children: kids,
    }
}

/// The conversion of a sequence of nodes, in order.
pub open spec fn conv_kids(kids: Seq<DomModel>, is_html: bool, fuel: nat) -> Seq<ElemModel>
    decreases fuel, 1int, kids.len(),
{
    if kids.len() == 0 {
        Seq::empty()
    } else {
        seq![conv_spec(kids[0], is_html, fuel)] + conv_kids(kids.drop_first(), is_html, fuel)
    }
}

pub proof fn lemma_conv_kids(kids: Seq<DomModel>, is_html: bool, fuel: nat)
    ensures
        conv_kids(kids, is_html, fuel).len() == kids.len(),
        forall|i: int|
            0 <= i < kids.len() ==> conv_kids(kids, is_html, fuel)[i] == conv_spec(
                kids[i],
                is_html,
                fuel,
            ),
    decreases kids.len(),
{
    if kids.len() > 0 {
        let t = kids.drop_first();
        lemma_conv_kids(t, is_html, fuel);
        assert forall|i: int| 0 <= i < kids.len() implies conv_kids(kids, is_html, fuel)[i]
            == conv_spec(kids[i], is_html, fuel) by {
            if i > 0 {
                assert(conv_kids(kids, is_html, fuel)[i] == conv_kids(t, is_html, fuel)[i - 1]);
                assert(t[i - 1] == kids[i]);
            }
        }
    }
}

/// Whether a format is the HTML one.
pub open spec fn is_html_fmt(f: InputFormat) -> bool {
    f == InputFormat::Html
}

/// Convert one parsed HTML element (and, up to `fuel` levels deep, its
/// subtree) into the generic element tree: exactly the conversion of the
/// node's view. In HTML mode the `class` attribute is folded into the
/// name; only leaves carry text.
pub fn convert_element_to_xml(
    element: &ElementRef<'_>,
    format: &InputFormat,
    fuel: u32,
) -> (r: XmlElement)
    ensures
        r.model() == conv_spec(dom_view(*element), is_html_fmt(*format), fuel as nat),
        wf_elem(r.model()),
    decreases fuel,
{
    let ghost dm = dom_view(*element);
    let is_html = match format {
        InputFormat::Html => true,
        InputFormat::Xml => false,
    };
    let tag = elem_name(element);
    let mut xml_element = XmlElement::new(tag.clone());
    let attrs = elem_attrs(element);
    let ghost av = dm.attrs;
    let an = attrs.len();
    let mut i: usize = 0;
    proof {
        assert(av.take(0) =~= Seq::<(Seq<char>, Seq<char>)>::empty());
        assert(crate::elem::attrs_view(attrs@) == av);
    }
    while i < an
        invariant
            i <= an,
            an == attrs.len(),
            crate::elem::attrs_view(attrs@) == av,
            av.len() == an,
            tag@ == dm.tag,
            is_html == (match format {
                InputFormat::Html => true,
                InputFormat::Xml => false,
            }),
            xml_element.model().name == conv_name(dm.tag, av.take(i as int), is_html),
            xml_element.model().attrs == conv_attrs(av.take(i as int), is_html),
            xml_element.model().text == Seq::<char>::empty(),
            xml_element.model().children == Seq::<ElemModel>::empty(),
            wf_elem(xml_element.model()),
        decreases an - i,
    {
        proof {
            assert(av.take(i as int + 1).drop_last() =~= av.take(i as int));
            assert(av.take(i as int + 1).last() == (attrs@[i as int].0@, attrs@[i as int].1@));
        }
        let is_class = str_eq(attrs[i].0.as_str(), "class");
        if is_html && is_class {
            let folded = fold_class_name(tag.as_str(), attrs[i].1.as_str());
            let ghost m = xml_element.model();
            xml_element.name = folded;
            proof {
                assert(xml_element.model().attrs == m.attrs);
                assert(xml_element.model().children == m.children);
                assert(xml_element.model().text == m.text);
            }
        } else {
            let k = attrs[i].0.clone();
            let v = attrs[i].1.clone();
            xml_element.set_attr(k.as_str(), v);
        }
        i += 1;
    }
    proof {
        assert(av.take(an as int) =~= av);
    }
    if fuel > 0 {
        let children = child_elements(element);
        let ghost target = conv_kids(dm.kids, is_html, (fuel - 1) as nat);
        let cn = children.len();
        let mut j: usize = 0;
        proof {
            lemma_conv_kids(dm.kids, is_html, (fuel - 1) as nat);
        }
        while j < cn
            invariant
                j <= cn,
                cn == children.len(),
                fuel >= 1,
                dm.kids.len() == cn,
                is_html == (match format {
                    InputFormat::Html => true,
                    InputFormat::Xml => false,
                }),
                forall|k: int|
                    0 <= k < cn ==> dom_view(#[trigger] children@[k]) == dm.kids[k],
                target == conv_kids(dm.kids, is_html, (fuel - 1) as nat),
                target.len() == cn,
                forall|k: int| 0 <= k < cn ==> target[k] == conv_spec(
                    dm.kids[k],
                    is_html,
                    (fuel - 1) as nat,
                ),
                xml_element.model().name == conv_name(dm.tag, av, is_html),
                xml_element.model().attrs == conv_attrs(av, is_html),
                xml_element.model().text == Seq::<char>::empty(),
                xml_element.model().children.len() == j,
                forall|k: int| 0 <= k < j ==> xml_element.model().children[k] == target[k],
                wf_elem(xml_element.model()),
            decreases cn - j,
        {
            let child = convert_element_to_xml(&children[j], format, fuel - 1);
            let ghost pm = xml_element.model();
            let ghost cm = child.model();
            xml_element.add_child(child);
            proof {
                crate::xmlparse::lemma_wf_add_child(pm, cm);
                assert(xml_element.model() == (ElemModel {
                    name: pm.name,
                    attrs: pm.attrs,
                    text: pm.text,
                    children: pm.children.push(cm),
                }));
            }
            j += 1;
        }
        proof {
            assert(xml_element.model().children =~= target);
        }
    }
    if xml_element.children.len() == 0 {
        let runs = text_runs(element);
        let text = join_runs(&runs);
        if text.as_str().unicode_len() > 0 {
            xml_element.set_text(text);
        }
        proof {
            assert(xml_element.model().text == joined_runs(dm.runs));
        }
    }
    proof {
        assert(forest_model(xml_element.children@) == xml_element.model().children);
        assert(xml_element.model() == conv_spec(dm, is_html, fuel as nat)) by {
            let target = conv_spec(dm, is_html, fuel as nat);
            assert(xml_element.model().children =~= target.children);
            assert(xml_element.model().name == target.name);
            assert(xml_element.model().attrs == target.attrs);
            assert(xml_element.model().text == target.text);
        }
    }
    xml_element
}

/// The chosen root elements of a candidate list: the conversions of those
/// whose parent is not itself an element, in order.
pub open spec fn picked_roots(
    cands: Seq<DomModel>,
    flags: Seq<bool>,
    is_html: bool,
    fuel: nat,
) -> Seq<ElemModel>
    decreases cands.len(),
{
    if cands.len() == 0 {
        Seq::empty()
    } else {
        let rest = picked_roots(cands.drop_first(), flags.drop_first(), is_html, fuel);
        if flags.len() > 0 && !flags[0] {
            seq![conv_spec(cands[0], is_html, fuel)] + rest
        } else {
            rest
        }
    }
}

/// The root elements parsing an HTML document yields: the conversion of
/// its `html` element; or, without one, of the top-level elements; or, as
/// a last resort, of the first element at all.
pub open spec fn parse_html_spec(content: Seq<char>, is_html: bool, fuel: nat) -> Seq<ElemModel> {
    let top = html_selected(content, "html"@);
    if top.len() > 0 {
        seq![conv_spec(top[0], is_html, fuel)]
    } else {
        let cands = html_selected(content, "body > *, html > *"@);
        let flags = html_parented(content, "body > *, html > *"@);
        let picked = picked_roots(cands, flags, is_html, fuel);
        if picked.len() > 0 {
            picked
        } else {
            let any = html_selected(content, "*"@);
            if any.len() > 0 {
                seq![conv_spec(any[0], is_html, fuel)]
            } else {
                Seq::empty()
            }
        }
    }
}

/// Parse an HTML document into root elements of the generic tree: exactly
/// the roots `parse_html_spec` names, always successfully, every tree
/// well-formed. The conversion descends at most `fuel` levels.
pub fn parse_html(content: &str, format: &InputFormat, fuel: u32) -> (r: Result<
    Vec<XmlElement>,
    String,
>)
    ensures
        r is Ok,
        forest_model(r->Ok_0@) == parse_html_spec(content@, is_html_fmt(*format), fuel as nat),
        all_wf(r->Ok_0@),
{
    let ghost is_html = is_html_fmt(*format);
    let document = parse_document(content);
    let selector = match selector_parse("html") {
        Some(s) => s,
        None => {
            proof {
                assert(false);
            }
            vstd::pervasive::unreached()
        },
    };
    let mut root_elements: Vec<XmlElement> = Vec::new();
    let top = select_all(&document, &selector);
    if top.len() > 0 {
        let converted = convert_element_to_xml(&top[0], format, fuel);
        root_elements.push(converted);
        proof {
            lemma_forest_model(root_elements@);
            assert(forest_model(root_elements@) =~= parse_html_spec(
                content@,
                is_html,
                fuel as nat,
            ));
        }
        return Ok(root_elements);
    }
    let all_selector = match selector_parse("body > *, html > *") {
        Some(s) => s,
        None => {
            proof {
                assert(false);
            }
            vstd::pervasive::unreached()
        },
    };
    let candidates = select_all(&document, &all_selector);
    let ghost cands = html_selected(content@, "body > *, html > *"@);
    let ghost flags = html_parented(content@, "body > *, html > *"@);
    let n = candidates.len();
    let mut i: usize = 0;
    proof {
        assert(cands.skip(0) =~= cands);
        assert(flags.skip(0) =~= flags);
        assert(forest_model(root_elements@) =~= Seq::<ElemModel>::empty());
    }
    while i < n
        invariant
            i <= n,
            n == candidates.len(),
            cands.len() == n,
            flags.len() == n,
            is_html == is_html_fmt(*format),
            forall|k: int|
                0 <= k < n ==> dom_view(#[trigger] candidates@[k]) == cands[k],
            forall|k: int|
                0 <= k < n ==> node_parented(#[trigger] candidates@[k]) == flags[k],
            all_wf(root_elements@),
            forest_model(root_elements@) + picked_roots(
                cands.skip(i as int),
                flags.skip(i as int),
                is_html,
                fuel as nat,
            ) == picked_roots(cands, flags, is_html, fuel as nat),
        decreases n - i,
    {
        let ghost pre = forest_model(root_elements@);
        proof {
            let ct = cands.skip(i as int);
            let ft = flags.skip(i as int);
            assert(ct[0] == cands[i as int]);
            assert(ft[0] == flags[i as int]);
            assert(ct.drop_first() =~= cands.skip(i as int + 1));
            assert(ft.drop_first() =~= flags.skip(i as int + 1));
            lemma_forest_model(root_elements@);
        }
        if !has_element_parent(&candidates[i]) {
            let converted = convert_element_to_xml(&candidates[i], format, fuel);
            let ghost cm = converted.model();
            root_elements.push(converted);
            proof {
                lemma_forest_model(root_elements@);
                assert(forest_model(root_elements@) =~= pre.push(cm));
                assert(pre.push(cm) + picked_roots(
                    cands.skip(i as int + 1),
                    flags.skip(i as int + 1),
                    is_html,
                    fuel as nat,
                ) =~= pre + (seq![cm] + picked_roots(
                    cands.skip(i as int + 1),
                    flags.skip(i as int + 1),
                    is_html,
                    fuel as nat,
                )));
                assert(all_wf(root_elements@)) by {
                    assert forall|k: int| 0 <= k < root_elements@.len() implies wf_elem(
                        #[trigger] root_elements@[k].model(),
                    ) by {}
                }
            }
        }
        i += 1;
    }
    proof {
        assert(picked_roots(cands.skip(n as int), flags.skip(n as int), is_html, fuel as nat).len()
            == 0);
        assert(forest_model(root_elements@) + picked_roots(
            cands.skip(n as int),
            flags.skip(n as int),
            is_html,
            fuel as nat,
        ) =~= forest_model(root_elements@));
    }
    if root_elements.len() == 0 {
        let fallback = match selector_parse("*") {
            Some(s) => s,
            None => {
                proof {
                    assert(false);
                }
                vstd::pervasive::unreached()
            },
        };
        let any = select_all(&document, &fallback);
        proof {
            lemma_forest_model(root_elements@);
            assert(picked_roots(cands, flags, is_html, fuel as nat).len() == 0);
        }
        if any.len() > 0 {
            let converted = convert_element_to_xml(&any[0], format, fuel);
            root_elements.push(converted);
            proof {
                lemma_forest_model(root_elements@);
                assert(forest_model(root_elements@) =~= parse_html_spec(
                    content@,
                    is_html,
                    fuel as nat,
                ));
            }
        } else {
            proof {
                assert(forest_model(root_elements@) =~= parse_html_spec(
                    content@,
                    is_html,
                    fuel as nat,
                ));
            }
        }
    } else {
        proof {
            assert(forest_model(root_elements@) =~= parse_html_spec(content@, is_html, fuel as nat));
        }
    }
    Ok(root_elements)
}

} // verus!
