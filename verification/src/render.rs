//! The rendering engine: one element (and recursively its subtree) is
//! turned into indented notation lines, two spaces per depth level.
//!
//! Rule precedence per node, first match wins:
//! 1. special mode, `loopDataSource` attribute: an `each` header, then the
//!    node without that attribute one level deeper;
//! 2. special mode, the conditional-inclusion attribute: an `if` header,
//!    then the node without that attribute, with a shorthand for `section`
//!    wrappers and elision of emptied wrappers;
//! 3. special mode, a fixed set of element names with specific attribute
//!    shapes (`parameter`, `variable`, `method`, `section`, `command`, and
//!    the built-in method parameter list);
//! 4. XSLT mode: the instruction mapper, which may decline;
//! 5. the generic fallback: name, sorted Pug-style attributes, `= text`.
use vstd::prelude::*;
use vstd::string::*;
use crate::attrs::{attr_block, kv_block, push_attr_block, push_kv_block};
use crate::chars::{find_ch, find_sub, lemma_find_ch, lemma_find_sub, sp2, starts_with_s, trim_s};
use crate::elem::{attr_get, attr_remove, elem_height, elem_model, forest_height, forest_model,
    lemma_forest_height, lemma_forest_model, ElemModel, XmlElement};
use crate::registry::{reg_lookup, TemplateRegistry};
use crate::strutil::{ends_with_ch, find_char_str, find_sub_str, push_sp2, starts_with_str,
    str_eq, trim_str};

verus! {

/// The loop-directive attribute.
pub open spec fn k_loop() -> Seq<char> {
    "loopDataSource"@
}

/// The conditional-inclusion attribute.
pub open spec fn k_cond() -> Seq<char> {
    "inclu"@ + "de"@
}

/// The conditional-inclusion attribute, as a string.
pub fn cond_key() -> (r: String)
    ensures
        r@ == k_cond(),
{
    let mut s = String::from_str("inclu");
    s.append("de");
    s
}

/// `e` with the attribute `k` removed and everything else kept.
pub open spec fn strip_attr(e: ElemModel, k: Seq<char>) -> ElemModel {
    ElemModel { name: e.name, attrs: attr_remove(e.attrs, k), text: e.text, children: e.children }
}

/// The `each` header of the loop directive: `var;xpath` is split once at
/// the first `;` into `each var in xpath`; a value without `;` is echoed
/// as `each value`.
pub open spec fn loop_header(v: Seq<char>) -> Seq<char> {
    match find_ch(v, ';') {
        Some(i) => if 0 <= i < v.len() {
            "each "@ + v.subrange(0, i) + " in "@ + v.subrange(i + 1, v.len() as int)
        } else {
            "each "@ + v
        },
        None => "each "@ + v,
    }
}

/// The file part of a `method` jump target: a `{v,...}` wrapper is
/// stripped when present.
pub open spec fn method_file(f: Seq<char>) -> Seq<char> {
    if starts_with_s(f, "{v,"@) && f.len() >= 4 && f[f.len() - 1] == '}' {
        f.subrange(3, f.len() - 1)
    } else {
        f
    }
}

/// The section part of a `method` jump target: the value of the first
/// `[@name='...']` predicate of the XPath, `UnknownSection` when the
/// predicate is absent or unclosed.
pub open spec fn method_section(xp: Seq<char>) -> Seq<char> {
    match find_sub(xp, "[@name='"@) {
        Some(st) => if 0 <= st && st + 8 <= xp.len() {
            let rest = xp.subrange(st + 8, xp.len() as int);
            match find_sub(rest, "']"@) {
                Some(e2) => if 0 <= e2 <= rest.len() {
                    rest.subrange(0, e2)
                } else {
                    "UnknownSection"@
                },
                None => "UnknownSection"@,
            }
        } else {
            "UnknownSection"@
        },
        None => "UnknownSection"@,
    }
}

/// Outcome of the XSLT instruction mapper for one node.
pub enum ShapeModel {
    /// Not an XSLT construct: the caller falls through to the generic rule.
    Decline,
    /// A head line, then the children one level deeper; `control` says
    /// whether the construct keeps translating nested XSLT instructions.
    Head { line: Seq<char>, control: bool },
    /// `xsl:text`: either one quoted line or nothing at all.
    TextOut { line: Option<Seq<char>> },
    /// `xsl:apply-templates`: expansion or an `apply` line.
    Apply { sel: Option<Seq<char>> },
}

/// The mapping table of the XSLT instruction mapper (`select`, `match`,
/// `test` and `name` values are opaque echoed strings).
pub open spec fn xslt_shape(e: ElemModel) -> ShapeModel {
    let n = e.name;
    if n == "xsl:template"@ {
        match attr_get(e.attrs, "match"@) {
            Some(m) => ShapeModel::Head {
                line: "template "@ + m + template_extras(e.attrs),
                control: true,
            },
            None => match attr_get(e.attrs, "name"@) {
                Some(nm) => ShapeModel::Head {
                    line: "template #"@ + nm + template_extras(e.attrs),
                    control: true,
                },
                None => ShapeModel::Decline,
            },
        }
    } else if n == "xsl:apply-templates"@ {
        ShapeModel::Apply { sel: attr_get(e.attrs, "select"@) }
    } else if n == "xsl:value-of"@ {
        match attr_get(e.attrs, "select"@) {
            Some(s) => ShapeModel::Head { line: "<- "@ + s, control: false },
            None => ShapeModel::Decline,
        }
    } else if n == "xsl:copy-of"@ {
        match attr_get(e.attrs, "select"@) {
            Some(s) => ShapeModel::Head { line: "copy "@ + s, control: false },
            None => ShapeModel::Decline,
        }
    } else if n == "xsl:if"@ {
        match attr_get(e.attrs, "test"@) {
            Some(t) => ShapeModel::Head { line: "if "@ + t, control: true },
            None => ShapeModel::Decline,
        }
    } else if n == "xsl:choose"@ {
        ShapeModel::Head { line: "choose"@, control: true }
    } else if n == "xsl:when"@ {
        match attr_get(e.attrs, "test"@) {
            Some(t) => ShapeModel::Head { line: "when "@ + t, control: true },
            None => ShapeModel::Decline,
        }
    } else if n == "xsl:otherwise"@ {
        ShapeModel::Head { line: "else"@, control: true }
    } else if n == "xsl:variable"@ || n == "xsl:with-param"@ {
        match attr_get(e.attrs, "name"@) {
            None => ShapeModel::Decline,
            Some(nm) => match attr_get(e.attrs, "select"@) {
                Some(s) => ShapeModel::Head { line: nm + " := "@ + s, control: false },
                None => if trim_s(e.text).len() > 0 {
                    ShapeModel::Head { line: nm + " := "@ + trim_s(e.text), control: false }
                } else {
                    ShapeModel::Head { line: nm + " :="@, control: false }
                },
            },
        }
    } else if n == "xsl:call-template"@ {
        match attr_get(e.attrs, "name"@) {
            Some(nm) => ShapeModel::Head { line: "call "@ + nm, control: true },
            None => ShapeModel::Decline,
        }
    } else if n == "xsl:for-each"@ {
        match attr_get(e.attrs, "select"@) {
            Some(s) => ShapeModel::Head { line: "foreach "@ + s, control: true },
            None => ShapeModel::Decline,
        }
    } else if n == "xsl:text"@ {
        ShapeModel::TextOut {
            line: if trim_s(e.text).len() == 0 {
                None
            } else {
                Some("\""@ + trim_s(e.text) + "\""@)
            },
        }
    } else if n == "xsl:element"@ {
        match attr_get(e.attrs, "name"@) {
            Some(nm) => ShapeModel::Head { line: "element "@ + nm, control: true },
            None => ShapeModel::Decline,
        }
    } else if n == "xsl:attribute"@ {
        match attr_get(e.attrs, "name"@) {
            Some(nm) => ShapeModel::Head {
                line: if trim_s(e.text).len() > 0 {
                    "@"@ + nm + " = "@ + trim_s(e.text)
                } else {
                    "@"@ + nm
                },
                control: true,
            },
            None => ShapeModel::Decline,
        }
    } else if n == "xsl:param"@ {
        match attr_get(e.attrs, "name"@) {
            Some(nm) => match attr_get(e.attrs, "select"@) {
                Some(s) => ShapeModel::Head {
                    line: "param "@ + nm + " := "@ + s,
                    control: true,
                },
                None => ShapeModel::Head { line: "param "@ + nm, control: true },
            },
            None => ShapeModel::Decline,
        }
    } else {
        ShapeModel::Decline
    }
}

/// The attributes of an `xsl:template` other than `match` and `name`,
/// appended to its head as a sorted `(k="v", ...)` block.
pub open spec fn template_extras(attrs: Seq<(Seq<char>, Seq<char>)>) -> Seq<char> {
    kv_block(attr_remove(attr_remove(attrs, "match"@), "name"@))
}

/// Rendering of one element at depth `d`. `rm` is the registry model, if
/// expansion is available, and `fuel` bounds nested expansions.
pub open spec fn render_elem(
    e: ElemModel,
    d: nat,
    sp: bool,
    xs: bool,
    rm: Option<Seq<(Seq<char>, ElemModel)>>,
    fuel: nat,
) -> Seq<char>
    decreases fuel, elem_height(e), 2int, 0int,
{
    if sp && attr_get(e.attrs, k_loop()) is Some {
        let v = attr_get(e.attrs, k_loop())->Some_0;
        sp2(d) + loop_header(v) + "\n"@ + render_elem2(strip_attr(e, k_loop()), d + 1, sp, xs, rm, fuel)
    } else {
        render_elem2(e, d, sp, xs, rm, fuel)
    }
}

/// Rendering after the loop rule: the conditional-inclusion rule, then
/// the rest.
pub open spec fn render_elem2(
    e: ElemModel,
    d: nat,
    sp: bool,
    xs: bool,
    rm: Option<Seq<(Seq<char>, ElemModel)>>,
    fuel: nat,
) -> Seq<char>
    decreases fuel, elem_height(e), 1int, 0int,
{
    if sp && attr_get(e.attrs, k_cond()) is Some {
        let v = attr_get(e.attrs, k_cond())->Some_0;
        let head = sp2(d) + "if "@ + v + "\n"@;
        let copy = strip_attr(e, k_cond());
        if e.name == "section"@ && attr_get(copy.attrs, "name"@) is Some && copy.attrs.len() == 1 {
            head + sp2(d + 2) + "#"@ + attr_get(copy.attrs, "name"@)->Some_0 + "\n"@ + render_seq(
                copy.children,
                d + 2,
                sp,
                xs,
                rm,
                fuel,
            )
        } else if copy.attrs.len() == 0 && trim_s(copy.text).len() == 0 {
            head + render_seq(copy.children, d + 1, sp, xs, rm, fuel)
        } else {
            head + render_elem3(copy, d + 1, sp, xs, rm, fuel)
        }
    } else {
        render_elem3(e, d, sp, xs, rm, fuel)
    }
}

/// The special name rules: a fixed set of element names, each requiring a
/// specific attribute shape; a shape mismatch declines, letting the caller
/// fall through to the less specific rules.
pub open spec fn render_special(
    e: ElemModel,
    d: nat,
    sp: bool,
    xs: bool,
    rm: Option<Seq<(Seq<char>, ElemModel)>>,
    fuel: nat,
) -> Option<Seq<char>>
    decreases fuel, elem_height(e), 0int, 0int,
{
    if sp && (e.name == "builtInMethodParameterList"@ || e.name == "builtinmethodparameterlist"@)
        && attr_get(e.attrs, "name"@) is Some {
        Some(
            sp2(d) + attr_get(e.attrs, "name"@)->Some_0 + "()"@ + "\n"@ + render_seq(
            e.children,
            d + 1,
            sp,
            xs,
            rm,
            fuel,
        )
        )
    } else if sp && e.name == "parameter"@ && attr_get(e.attrs, "name"@) is Some && e.attrs.len()
        == 1 {
        Some(
            sp2(d) + attr_get(e.attrs, "name"@)->Some_0 + " := "@ + trim_s(e.text) + "\n"@
            + render_seq(e.children, d + 1, sp, xs, rm, fuel)
        )
    } else if sp && e.name == "variable"@ && attr_get(e.attrs, "name"@) is Some && e.attrs.len()
        == 1 {
        Some(
            sp2(d) + attr_get(e.attrs, "name"@)->Some_0 + " :== "@ + trim_s(e.text) + "\n"@
            + render_seq(e.children, d + 1, sp, xs, rm, fuel)
        )
    } else if sp && e.name == "method"@ && attr_get(e.attrs, "jumpToXmlFile"@) is Some && attr_get(
        e.attrs,
        "jumpToXPath"@,
    ) is Some {
        let file = method_file(attr_get(e.attrs, "jumpToXmlFile"@)->Some_0);
        let sect = method_section(attr_get(e.attrs, "jumpToXPath"@)->Some_0);
        let args = match attr_get(e.attrs, "name"@) {
            Some(nm) => "(name=\""@ + nm + "\")"@,
            None => "()"@,
        };
        Some(
            sp2(d) + file + "::"@ + sect + args + "\n"@ + render_seq(e.children, d + 1, sp, xs, rm, fuel)
        )
    } else if sp && e.name == "section"@ && attr_get(e.attrs, "name"@) is Some && e.attrs.len()
        == 1 {
        Some(
            sp2(d) + "#"@ + attr_get(e.attrs, "name"@)->Some_0 + "\n"@ + render_seq(
            e.children,
            d + 1,
            sp,
            xs,
            rm,
            fuel,
        )
        )
    } else if sp && e.name == "command"@ && attr_get(e.attrs, "type"@) is Some {
        let tail = if trim_s(e.text).len() > 0 {
            " = "@ + trim_s(e.text)
        } else {
            Seq::<char>::empty()
        };
        Some(
            sp2(d) + "command."@ + attr_get(e.attrs, "type"@)->Some_0 + attr_block(
            attr_remove(e.attrs, "type"@),
        ) + tail + "\n"@ + render_seq(e.children, d + 1, sp, xs, rm, fuel)
        )
    } else {
        None
    }
}

/// Rendering after the attribute rules: the special name rules, the XSLT
/// instruction mapper, and the generic fallback.
pub open spec fn render_elem3(
    e: ElemModel,
    d: nat,
    sp: bool,
    xs: bool,
    rm: Option<Seq<(Seq<char>, ElemModel)>>,
    fuel: nat,
) -> Seq<char>
    decreases fuel, elem_height(e), 0int, 1int,
{
    if render_special(e, d, sp, xs, rm, fuel) is Some {
        render_special(e, d, sp, xs, rm, fuel)->Some_0
    } else if xs && !(xslt_shape(e) is Decline) {
        match xslt_shape(e) {
            ShapeModel::Head { line, control } => sp2(d) + line + "\n"@ + render_seq(
                e.children,
                d + 1,
                sp,
                control,
                rm,
                fuel,
            ),
            ShapeModel::TextOut { line } => match line {
                Some(l) => sp2(d) + l + "\n"@,
                None => Seq::empty(),
            },
            ShapeModel::Apply { sel } => match sel {
                None => sp2(d) + "apply"@ + "\n"@,
                Some(sel) => match rm {
                    Some(reg) => match reg_lookup(reg, sel) {
                        Some(tpl) => if fuel > 0 {
                            sp2(d) + "# [expanded: apply "@ + sel + "]"@ + "\n"@ + render_seq(
                                tpl.children,
                                d,
                                sp,
                                true,
                                rm,
                                (fuel - 1) as nat,
                            )
                        } else {
                            sp2(d) + "apply "@ + sel + "\n"@
                        },
                        None => sp2(d) + "apply "@ + sel + "\n"@,
                    },
                    None => sp2(d) + "apply "@ + sel + "\n"@,
                },
            },
            ShapeModel::Decline => Seq::empty(),
        }
    } else {
        let tail = if trim_s(e.text).len() > 0 {
            " = "@ + trim_s(e.text)
        } else {
            Seq::<char>::empty()
        };
        sp2(d) + e.name + attr_block(e.attrs) + tail + "\n"@ + render_seq(
            e.children,
            d + 1,
            sp,
            xs,
            rm,
            fuel,
        )
    }
}

/// The registry model carried by an optional registry reference.
pub open spec fn reg_model_of(reg: Option<&TemplateRegistry>) -> Option<
    Seq<(Seq<char>, ElemModel)>,
> {
    match reg {
        Some(r) => Some(r.model()),
        None => None,
    }
}

/// Outcome of the XSLT instruction mapper, executable form.
enum ShapeExec {
    Decline,
    Head(String, bool),
    TextOut(Option<String>),
    Apply(Option<String>),
}

/// The XSLT instruction mapper: classify one node and build its head.
fn xslt_shape_exec(e: &XmlElement) -> (r: ShapeExec)
    ensures
        match r {
            ShapeExec::Decline => xslt_shape(e.model()) is Decline,
            ShapeExec::Head(l, c) => xslt_shape(e.model()) == (ShapeModel::Head {
                line: l@,
                control: c,
            }),
            ShapeExec::TextOut(l) => xslt_shape(e.model()) == (ShapeModel::TextOut {
                line: match l {
                    Some(s) => Some(s@),
                    None => None,
                },
            }),
            ShapeExec::Apply(sel) => xslt_shape(e.model()) == (ShapeModel::Apply {
                sel: match sel {
                    Some(s) => Some(s@),
                    None => None,
                },
            }),
        },
{
    let nm = e.name.as_str();
    if str_eq(nm, "xsl:template") {
        let head_val: Option<(String, bool)> = match e.get_attr("match") {
            Some(m) => Some((m.clone(), true)),
            None => match e.get_attr("name") {
                Some(n) => Some((n.clone(), false)),
                None => None,
            },
        };
        match head_val {
            Some((v, by_match)) => {
                let mut line = if by_match {
                    String::from_str("template ")
                } else {
                    String::from_str("template #")
                };
                line.append(v.as_str());
                let extras = crate::elem::remove_attr_vec(
                    &crate::elem::remove_attr_vec(&e.attributes, "match"),
                    "name",
                );
                push_kv_block(&mut line, &extras);
                ShapeExec::Head(line, true)
            },
            None => ShapeExec::Decline,
        }
    } else if str_eq(nm, "xsl:apply-templates") {
        match e.get_attr("select") {
            Some(s) => ShapeExec::Apply(Some(s.clone())),
            None => ShapeExec::Apply(None),
        }
    } else if str_eq(nm, "xsl:value-of") {
        match e.get_attr("select") {
            Some(s) => {
                let mut line = String::from_str("<- ");
                line.append(s.as_str());
                ShapeExec::Head(line, false)
            },
            None => ShapeExec::Decline,
        }
    } else if str_eq(nm, "xsl:copy-of") {
        match e.get_attr("select") {
            Some(s) => {
                let mut line = String::from_str("copy ");
                line.append(s.as_str());
                ShapeExec::Head(line, false)
            },
            None => ShapeExec::Decline,
        }
    } else if str_eq(nm, "xsl:if") {
        match e.get_attr("test") {
            Some(t) => {
                let mut line = String::from_str("if ");
                line.append(t.as_str());
                ShapeExec::Head(line, true)
            },
            None => ShapeExec::Decline,
        }
    } else if str_eq(nm, "xsl:choose") {
        ShapeExec::Head(String::from_str("choose"), true)
    } else if str_eq(nm, "xsl:when") {
        match e.get_attr("test") {
            Some(t) => {
                let mut line = String::from_str("when ");
                line.append(t.as_str());
                ShapeExec::Head(line, true)
            },
            None => ShapeExec::Decline,
        }
    } else if str_eq(nm, "xsl:otherwise") {
        ShapeExec::Head(String::from_str("else"), true)
    } else if str_eq(nm, "xsl:variable") || str_eq(nm, "xsl:with-param") {
        match e.get_attr("name") {
            None => ShapeExec::Decline,
            Some(vn) => {
                let mut line = vn.clone();
                match e.get_attr("select") {
                    Some(s) => {
                        line.append(" := ");
                        line.append(s.as_str());
                    },
                    None => {
                        let t = trim_str(e.text_content.as_str());
                        if t.as_str().unicode_len() > 0 {
                            line.append(" := ");
                            line.append(t.as_str());
                        } else {
                            line.append(" :=");
                        }
                    },
                }
                ShapeExec::Head(line, false)
            },
        }
    } else if str_eq(nm, "xsl:call-template") {
        match e.get_attr("name") {
            Some(n) => {
                let mut line = String::from_str("call ");
                line.append(n.as_str());
                ShapeExec::Head(line, true)
            },
            None => ShapeExec::Decline,
        }
    } else if str_eq(nm, "xsl:for-each") {
        match e.get_attr("select") {
            Some(s) => {
                let mut line = String::from_str("foreach ");
                line.append(s.as_str());
                ShapeExec::Head(line, true)
            },
            None => ShapeExec::Decline,
        }
    } else if str_eq(nm, "xsl:text") {
        let t = trim_str(e.text_content.as_str());
        if t.as_str().unicode_len() == 0 {
            ShapeExec::TextOut(None)
        } else {
            let mut line = String::from_str("\"");
            line.append(t.as_str());
            line.append("\"");
            ShapeExec::TextOut(Some(line))
        }
    } else if str_eq(nm, "xsl:element") {
        match e.get_attr("name") {
            Some(n) => {
                let mut line = String::from_str("element ");
                line.append(n.as_str());
                ShapeExec::Head(line, true)
            },
            None => ShapeExec::Decline,
        }
    } else if str_eq(nm, "xsl:attribute") {
        match e.get_attr("name") {
            Some(n) => {
                let mut line = String::from_str("@");
                line.append(n.as_str());
                let t = trim_str(e.text_content.as_str());
                if t.as_str().unicode_len() > 0 {
                    line.append(" = ");
                    line.append(t.as_str());
                }
                ShapeExec::Head(line, true)
            },
            None => ShapeExec::Decline,
        }
    } else if str_eq(nm, "xsl:param") {
        match e.get_attr("name") {
            Some(n) => {
                let mut line = String::from_str("param ");
                line.append(n.as_str());
                match e.get_attr("select") {
                    Some(s) => {
                        line.append(" := ");
                        line.append(s.as_str());
                    },
                    None => {},
                }
                ShapeExec::Head(line, true)
            },
            None => ShapeExec::Decline,
        }
    } else {
        ShapeExec::Decline
    }
}

/// Render one element, appending to `out`; `ind` is the indentation of
/// depth `d`.
fn rend_elem(
    e: &XmlElement,
    Ghost(d): Ghost<nat>,
    ind: &String,
    out: &mut String,
    sp: bool,
    xs: bool,
    reg: Option<&TemplateRegistry>,
    fuel: u32,
)
    requires
        ind@ == sp2(d),
    ensures
        final(out)@ == old(out)@ + render_elem(e.model(), d, sp, xs, reg_model_of(reg), fuel as nat),
    decreases fuel, elem_height(e.model()), 2int, 0int,
{
    broadcast use crate::chars::seq_cat_assoc;

    let mut loop_val: Option<String> = None;
    if sp {
        match e.get_attr("loopDataSource") {
            Some(v) => {
                loop_val = Some(v.clone());
            },
            None => {},
        }
    }
    match loop_val {
        Some(v) => {
            out.append(ind.as_str());
            out.append("each ");
            let n = v.as_str().unicode_len();
            match find_char_str(v.as_str(), ';') {
                Some(i) => {
                    proof {
                        lemma_find_ch(v@, ';');
                    }
                    out.append(v.as_str().substring_char(0, i));
                    out.append(" in ");
                    out.append(v.as_str().substring_char(i + 1, n));
                },
                None => {
                    out.append(v.as_str());
                },
            }
            out.append("\n");
            let mut child_ind = ind.clone();
            child_ind.append("  ");
            let stripped = e.copy_without_attr("loopDataSource");
            proof {
                assert(stripped.model().children == e.model().children);
                assert(elem_height(stripped.model()) == elem_height(e.model()));
                assert(stripped.model() == strip_attr(e.model(), k_loop()));
            }
            rend_elem2(&stripped, Ghost(d + 1), &child_ind, out, sp, xs, reg, fuel);
            proof {
                assert(final(out)@ == old(out)@ + render_elem(
                    e.model(),
                    d,
                    sp,
                    xs,
                    reg_model_of(reg),
                    fuel as nat,
                ));
            }
        },
        None => {
            rend_elem2(e, Ghost(d), ind, out, sp, xs, reg, fuel);
        },
    }
}

/// The conditional-inclusion rule, then the remaining rules.
#[verifier::rlimit(100)]
#[verifier::spinoff_prover]
fn rend_elem2(
    e: &XmlElement,
    Ghost(d): Ghost<nat>,
    ind: &String,
    out: &mut String,
    sp: bool,
    xs: bool,
    reg: Option<&TemplateRegistry>,
    fuel: u32,
)
    requires
        ind@ == sp2(d),
    ensures
        final(out)@ == old(out)@ + render_elem2(
            e.model(),
            d,
            sp,
            xs,
            reg_model_of(reg),
            fuel as nat,
        ),
    decreases fuel, elem_height(e.model()), 1int, 0int,
{
    broadcast use crate::chars::seq_cat_assoc;

    let ck = cond_key();
    let mut cond_val: Option<String> = None;
    if sp {
        match e.get_attr(ck.as_str()) {
            Some(v) => {
                cond_val = Some(v.clone());
            },
            None => {},
        }
    }
    match cond_val {
        Some(v) => {
            out.append(ind.as_str());
            out.append("if ");
            out.append(v.as_str());
            out.append("\n");
            proof {
                assert(out@ == old(out)@ + (sp2(d) + "if "@ + v@ + "\n"@));
            }
            let copy = e.copy_without_attr(ck.as_str());
            proof {
                assert(copy.model().children == e.model().children);
                assert(elem_height(copy.model()) == elem_height(e.model()));
                assert(copy.model() == strip_attr(e.model(), k_cond()));
                assert(elem_height(e.model()) == 1 + forest_height(e.model().children));
            }
            let mut ind1 = ind.clone();
            ind1.append("  ");
            proof {
                assert(ind1@ == sp2(d + 1));
            }
            let is_sec = str_eq(e.name.as_str(), "section");
            let name_val: Option<String> = match copy.get_attr("name") {
                Some(nm) => Some(nm.clone()),
                None => None,
            };
            if is_sec && name_val.is_some() && copy.attr_count() == 1 {
                let mut ind2 = ind1.clone();
                ind2.append("  ");
                proof {
                    assert(ind2@ == sp2(d + 2));
                }
                out.append(ind2.as_str());
                out.append("#");
                match name_val {
                    Some(nm) => {
                        out.append(nm.as_str());
                    },
                    None => {},
                }
                out.append("\n");
                rend_seq(&copy.children, Ghost(d + 2), &ind2, out, sp, xs, reg, fuel);
                proof {
                    assert(out@ == old(out)@ + render_elem2(
                        e.model(),
                        d,
                        sp,
                        xs,
                        reg_model_of(reg),
                        fuel as nat,
                    ));
                }
            } else if copy.attr_count() == 0 && trim_str(
                copy.text_content.as_str(),
            ).as_str().unicode_len() == 0 {
                rend_seq(&copy.children, Ghost(d + 1), &ind1, out, sp, xs, reg, fuel);
                proof {
                    assert(out@ == old(out)@ + render_elem2(
                        e.model(),
                        d,
                        sp,
                        xs,
                        reg_model_of(reg),
                        fuel as nat,
                    ));
                }
            } else {
                rend_elem3(&copy, Ghost(d + 1), &ind1, out, sp, xs, reg, fuel);
                proof {
                    assert(out@ == old(out)@ + render_elem2(
                        e.model(),
                        d,
                        sp,
                        xs,
                        reg_model_of(reg),
                        fuel as nat,
                    ));
                }
            }
            proof {
                assert(final(out)@ == old(out)@ + render_elem2(
                    e.model(),
                    d,
                    sp,
                    xs,
                    reg_model_of(reg),
                    fuel as nat,
                ));
            }
        },
        None => {
            rend_elem3(e, Ghost(d), ind, out, sp, xs, reg, fuel);
        },
    }
}

/// The special name rules; the return value says whether one applied and
/// wrote its output.
#[verifier::rlimit(100)]
#[verifier::spinoff_prover]
fn rend_special(
    e: &XmlElement,
    Ghost(d): Ghost<nat>,
    ind: &String,
    out: &mut String,
    sp: bool,
    xs: bool,
    reg: Option<&TemplateRegistry>,
    fuel: u32,
) -> (handled: bool)
    requires
        ind@ == sp2(d),
    ensures
        match render_special(e.model(), d, sp, xs, reg_model_of(reg), fuel as nat) {
            Some(t) => handled && final(out)@ == old(out)@ + t,
            None => !handled && final(out)@ == old(out)@,
        },
    decreases fuel, elem_height(e.model()), 0int, 0int,
{
    broadcast use crate::chars::seq_cat_assoc;

    proof {
        assert(elem_height(e.model()) == 1 + forest_height(e.model().children));
    }
    let mut ind1 = ind.clone();
    ind1.append("  ");
    proof {
        assert(ind1@ == sp2(d + 1));
    }
    let nm = e.name.as_str();
    let name_attr: Option<String> = match e.get_attr("name") {
        Some(v) => Some(v.clone()),
        None => None,
    };
    if sp && (str_eq(nm, "builtInMethodParameterList") || str_eq(nm, "builtinmethodparameterlist"))
        && name_attr.is_some() {
        out.append(ind.as_str());
        match &name_attr {
            Some(v) => {
                out.append(v.as_str());
            },
            None => {},
        }
        out.append("()");
        out.append("\n");
        rend_seq(&e.children, Ghost(d + 1), &ind1, out, sp, xs, reg, fuel);
        proof {
            assert(out@ == old(out)@ + render_special(
                e.model(),
                d,
                sp,
                xs,
                reg_model_of(reg),
                fuel as nat,
            )->Some_0);
        }
    } else if sp && str_eq(nm, "parameter") && name_attr.is_some() && e.attr_count() == 1 {
        out.append(ind.as_str());
        match &name_attr {
            Some(v) => {
                out.append(v.as_str());
            },
            None => {},
        }
        out.append(" := ");
        let t = trim_str(e.text_content.as_str());
        out.append(t.as_str());
        out.append("\n");
        rend_seq(&e.children, Ghost(d + 1), &ind1, out, sp, xs, reg, fuel);
        proof {
            assert(out@ == old(out)@ + render_special(
                e.model(),
                d,
                sp,
                xs,
                reg_model_of(reg),
                fuel as nat,
            )->Some_0);
        }
    } else if sp && str_eq(nm, "variable") && name_attr.is_some() && e.attr_count() == 1 {
        out.append(ind.as_str());
        match &name_attr {
            Some(v) => {
                out.append(v.as_str());
            },
            None => {},
        }
        out.append(" :== ");
        let t = trim_str(e.text_content.as_str());
        out.append(t.as_str());
        out.append("\n");
        rend_seq(&e.children, Ghost(d + 1), &ind1, out, sp, xs, reg, fuel);
        proof {
            assert(out@ == old(out)@ + render_special(
                e.model(),
                d,
                sp,
                xs,
                reg_model_of(reg),
                fuel as nat,
            )->Some_0);
        }
    } else if sp && str_eq(nm, "method") && e.has_attr("jumpToXmlFile") && e.has_attr(
        "jumpToXPath",
    ) {
        out.append(ind.as_str());
        let jf: String = match e.get_attr("jumpToXmlFile") {
            Some(v) => v.clone(),
            None => String::new(),
        };
        let fx = jf.as_str();
        let fn_len = fx.unicode_len();
        if starts_with_str(fx, "{v,") && fn_len >= 4 && ends_with_ch(fx, '}') {
            out.append(fx.substring_char(3, fn_len - 1));
        } else {
            out.append(fx);
        }
        out.append("::");
        let xp: String = match e.get_attr("jumpToXPath") {
            Some(v) => v.clone(),
            None => String::new(),
        };
        let xs_str = xp.as_str();
        let xn = xs_str.unicode_len();
        proof {
            lemma_find_sub(xp@, "[@name='"@);
        }
        match find_sub_str(xs_str, "[@name='") {
            Some(st) => {
                proof {
                    reveal_strlit("[@name='");
                }
                let rest = xs_str.substring_char(st + 8, xn);
                proof {
                    lemma_find_sub(rest@, "']"@);
                }
                match find_sub_str(rest, "']") {
                    Some(e2) => {
                        out.append(rest.substring_char(0, e2));
                    },
                    None => {
                        out.append("UnknownSection");
                    },
                }
            },
            None => {
                out.append("UnknownSection");
            },
        }
        match &name_attr {
            Some(v) => {
                out.append("(name=\"");
                out.append(v.as_str());
                out.append("\")");
            },
            None => {
                out.append("()");
            },
        }
        out.append("\n");
        rend_seq(&e.children, Ghost(d + 1), &ind1, out, sp, xs, reg, fuel);
        proof {
            assert(out@ == old(out)@ + render_special(
                e.model(),
                d,
                sp,
                xs,
                reg_model_of(reg),
                fuel as nat,
            )->Some_0);
        }
    } else if sp && str_eq(nm, "section") && name_attr.is_some() && e.attr_count() == 1 {
        out.append(ind.as_str());
        out.append("#");
        match &name_attr {
            Some(v) => {
                out.append(v.as_str());
            },
            None => {},
        }
        out.append("\n");
        rend_seq(&e.children, Ghost(d + 1), &ind1, out, sp, xs, reg, fuel);
        proof {
            assert(out@ == old(out)@ + render_special(
                e.model(),
                d,
                sp,
                xs,
                reg_model_of(reg),
                fuel as nat,
            )->Some_0);
        }
    } else if sp && str_eq(nm, "command") && e.has_attr("type") {
        out.append(ind.as_str());
        out.append("command.");
        match e.get_attr("type") {
            Some(v) => {
                let tv = v.clone();
                out.append(tv.as_str());
            },
            None => {},
        }
        let removed = crate::elem::remove_attr_vec(&e.attributes, "type");
        push_attr_block(out, &removed);
        let t = trim_str(e.text_content.as_str());
        if t.as_str().unicode_len() > 0 {
            out.append(" = ");
            out.append(t.as_str());
        }
        out.append("\n");
        rend_seq(&e.children, Ghost(d + 1), &ind1, out, sp, xs, reg, fuel);
        proof {
            assert(out@ == old(out)@ + render_special(
                e.model(),
                d,
                sp,
                xs,
                reg_model_of(reg),
                fuel as nat,
            )->Some_0);
        }
    } else {
        return false;
    }
    true
}

/// The remaining rules: the XSLT instruction mapper and the generic
/// fallback, after the special name rules have declined.
#[verifier::rlimit(100)]
#[verifier::spinoff_prover]
fn rend_elem3(
    e: &XmlElement,
    Ghost(d): Ghost<nat>,
    ind: &String,
    out: &mut String,
    sp: bool,
    xs: bool,
    reg: Option<&TemplateRegistry>,
    fuel: u32,
)
    requires
        ind@ == sp2(d),
    ensures
        final(out)@ == old(out)@ + render_elem3(
            e.model(),
            d,
            sp,
            xs,
            reg_model_of(reg),
            fuel as nat,
        ),
    decreases fuel, elem_height(e.model()), 0int, 1int,
{
    broadcast use crate::chars::seq_cat_assoc;

    proof {
        assert(elem_height(e.model()) == 1 + forest_height(e.model().children));
    }
    let handled = rend_special(e, Ghost(d), ind, out, sp, xs, reg, fuel);
    if !handled {
        let mut ind1 = ind.clone();
        ind1.append("  ");
        proof {
            assert(ind1@ == sp2(d + 1));
        }
        let shape = if xs {
            xslt_shape_exec(e)
        } else {
            ShapeExec::Decline
        };
        let is_decline = match &shape {
            ShapeExec::Decline => true,
            _ => false,
        };
        if xs && !is_decline {
            match shape {
                ShapeExec::Head(line, control) => {
                    out.append(ind.as_str());
                    out.append(line.as_str());
                    out.append("\n");
                    rend_seq(&e.children, Ghost(d + 1), &ind1, out, sp, control, reg, fuel);
        proof {
            assert(out@ == old(out)@ + render_elem3(
                e.model(),
                d,
                sp,
                xs,
                reg_model_of(reg),
                fuel as nat,
            ));
        }
                },
                ShapeExec::TextOut(line) => {
                    match line {
                        Some(l) => {
                            out.append(ind.as_str());
                            out.append(l.as_str());
                            out.append("\n");
                        },
                        None => {},
                    }
        proof {
            assert(out@ == old(out)@ + render_elem3(
                e.model(),
                d,
                sp,
                xs,
                reg_model_of(reg),
                fuel as nat,
            ));
        }
                },
                ShapeExec::Apply(sel) => {
                    match sel {
                        None => {
                            out.append(ind.as_str());
                            out.append("apply");
                            out.append("\n");
                        },
                        Some(sel) => {
                            let mut expanded = false;
                            match reg {
                                Some(r) => {
                                    match r.lookup(sel.as_str()) {
                                        Some(tpl) => {
                                            if fuel > 0 {
                                                expanded = true;
                                                out.append(ind.as_str());
                                                out.append("# [expanded: apply ");
                                                out.append(sel.as_str());
                                                out.append("]");
                                                out.append("\n");
                                                rend_seq(
                                                    &tpl.children,
                                                    Ghost(d),
                                                    ind,
                                                    out,
                                                    sp,
                                                    true,
                                                    reg,
                                                    fuel - 1,
                                                );
                                            }
                                        },
                                        None => {},
                                    }
                                },
                                None => {},
                            }
                            if !expanded {
                                out.append(ind.as_str());
                                out.append("apply ");
                                out.append(sel.as_str());
                                out.append("\n");
                            }
                        },
                    }
        proof {
            assert(out@ == old(out)@ + render_elem3(
                e.model(),
                d,
                sp,
                xs,
                reg_model_of(reg),
                fuel as nat,
            ));
        }
                },
                ShapeExec::Decline => {},
            }
        } else {
            out.append(ind.as_str());
            out.append(e.name.as_str());
            push_attr_block(out, &e.attributes);
            let t = trim_str(e.text_content.as_str());
            if t.as_str().unicode_len() > 0 {
                out.append(" = ");
                out.append(t.as_str());
            }
            out.append("\n");
            rend_seq(&e.children, Ghost(d + 1), &ind1, out, sp, xs, reg, fuel);
            proof {
            assert(out@ == old(out)@ + render_elem3(
                e.model(),
                d,
                sp,
                xs,
                reg_model_of(reg),
                fuel as nat,
            ));
        }
        }
    }
}

/// Render a sequence of elements at one depth, appending to `out`.
fn rend_seq(
    cs: &Vec<XmlElement>,
    Ghost(d): Ghost<nat>,
    ind: &String,
    out: &mut String,
    sp: bool,
    xs: bool,
    reg: Option<&TemplateRegistry>,
    fuel: u32,
)
    requires
        ind@ == sp2(d),
    ensures
        final(out)@ == old(out)@ + render_seq(
            forest_model(cs@),
            d,
            sp,
            xs,
            reg_model_of(reg),
            fuel as nat,
        ),
    decreases fuel, forest_height(forest_model(cs@)), 3int, cs@.len(),
{
    let ghost fm = forest_model(cs@);
    proof {
        lemma_forest_model(cs@);
        lemma_forest_height(fm);
        assert(fm.skip(0) =~= fm);
    }
    let n = cs.len();
    let mut i: usize = 0;
    while i < n
        invariant
            i <= n,
            n == cs.len(),
            fm == forest_model(cs@),
            fm.len() == n,
            ind@ == sp2(d),
            forall|k: int| 0 <= k < n ==> elem_model(#[trigger] cs@[k]) == fm[k],
            forall|k: int| 0 <= k < n ==> elem_height(#[trigger] fm[k]) <= forest_height(fm),
            out@ + render_seq(fm.skip(i as int), d, sp, xs, reg_model_of(reg), fuel as nat) == old(
                out,
            )@ + render_seq(fm, d, sp, xs, reg_model_of(reg), fuel as nat),
        decreases n - i,
    {
        let ghost pre = out@;
        rend_elem(&cs[i], Ghost(d), ind, out, sp, xs, reg, fuel);
        proof {
            let tail = fm.skip(i as int);
            assert(tail[0] == fm[i as int]);
            assert(tail.drop_first() =~= fm.skip(i as int + 1));
            let rme = render_elem(fm[i as int], d, sp, xs, reg_model_of(reg), fuel as nat);
            let rrest = render_seq(fm.skip(i as int + 1), d, sp, xs, reg_model_of(reg), fuel as nat);
            assert(render_seq(tail, d, sp, xs, reg_model_of(reg), fuel as nat) == rme + rrest);
            assert(pre + rme + rrest =~= pre + (rme + rrest));
        }
        i += 1;
    }
    proof {
        assert(render_seq(fm.skip(n as int), d, sp, xs, reg_model_of(reg), fuel as nat).len() == 0);
        assert(out@ + render_seq(fm.skip(n as int), d, sp, xs, reg_model_of(reg), fuel as nat)
            =~= out@);
    }
}

/// Rendering of a sequence of elements, in order, at one depth.
pub open spec fn render_seq(
    cs: Seq<ElemModel>,
    d: nat,
    sp: bool,
    xs: bool,
    rm: Option<Seq<(Seq<char>, ElemModel)>>,
    fuel: nat,
) -> Seq<char>
    decreases fuel, forest_height(cs), 3int, cs.len(),
{
    if cs.len() == 0 {
        Seq::empty()
    } else {
        render_elem(cs[0], d, sp, xs, rm, fuel) + render_seq(cs.drop_first(), d, sp, xs, rm, fuel)
    }
}

impl XmlElement {
    /// Render this element and its subtree as indented notation lines,
    /// starting `indent` levels deep; `special` enables the proprietary
    /// attribute and name rules.
    pub fn format_yaml_like(&self, indent: usize, special: bool) -> (r: String)
        ensures
            r@ == render_elem(self.model(), indent as nat, special, false, None, 0),
    {
        self.render_with(indent, special, false, None, 0)
    }

    /// Render with the full configuration: XSLT instruction mapping and,
    /// when a registry is given, `apply-templates` expansion with at most
    /// `fuel` nested expansions.
    pub fn render_with(
        &self,
        indent: usize,
        special: bool,
        xslt: bool,
        registry: Option<&TemplateRegistry>,
        fuel: u32,
    ) -> (r: String)
        ensures
            r@ == render_elem(
                self.model(),
                indent as nat,
                special,
                xslt,
                reg_model_of(registry),
                fuel as nat,
            ),
    {
        let mut out = String::new();
        let mut ind = String::new();
        push_sp2(&mut ind, indent);
        proof {
            assert(ind@ == Seq::<char>::empty() + sp2(indent as nat));
            assert(Seq::<char>::empty() + sp2(indent as nat) =~= sp2(indent as nat));
        }
        rend_elem(self, Ghost(indent as nat), &ind, &mut out, special, xslt, registry, fuel);
        proof {
            assert(out@ =~= render_elem(
                self.model(),
                indent as nat,
                special,
                xslt,
                reg_model_of(registry),
                fuel as nat,
            ));
        }
        out
    }
}

/// Render a whole forest of root elements at depth zero, in order.
pub fn render_all(
    elements: &Vec<XmlElement>,
    special: bool,
    xslt: bool,
    registry: Option<&TemplateRegistry>,
    fuel: u32,
) -> (r: String)
    ensures
        r@ == render_seq(
            forest_model(elements@),
            0,
            special,
            xslt,
            reg_model_of(registry),
            fuel as nat,
        ),
{
    let mut out = String::new();
    let ind = String::new();
    proof {
        assert(ind@ =~= sp2(0));
    }
    rend_seq(elements, Ghost(0nat), &ind, &mut out, special, xslt, registry, fuel);
    proof {
        assert(out@ =~= render_seq(
            forest_model(elements@),
            0,
            special,
            xslt,
            reg_model_of(registry),
            fuel as nat,
        ));
    }
    out
}

} // verus!
