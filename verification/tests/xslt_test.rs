use unxml::elem::XmlElement;

fn elem(name: &str) -> XmlElement {
    XmlElement::new(String::from(name))
}

fn xslt(e: &XmlElement) -> String {
    e.render_with(0, false, true, None, 0)
}

#[test]
fn test_mapper_value_of_and_copy_of() {
    let mut v = elem("xsl:value-of");
    v.set_attr("select", String::from("Name"));
    assert_eq!(xslt(&v), "<- Name\n");
    let mut c = elem("xsl:copy-of");
    c.set_attr("select", String::from("Node"));
    assert_eq!(xslt(&c), "copy Node\n");
}

#[test]
fn test_mapper_control_constructs() {
    let mut i = elem("xsl:if");
    i.set_attr("test", String::from("cond"));
    assert_eq!(xslt(&i), "if cond\n");
    let ch = elem("xsl:choose");
    assert_eq!(xslt(&ch), "choose\n");
    let mut w = elem("xsl:when");
    w.set_attr("test", String::from("t2"));
    assert_eq!(xslt(&w), "when t2\n");
    let o = elem("xsl:otherwise");
    assert_eq!(xslt(&o), "else\n");
    let mut f = elem("xsl:for-each");
    f.set_attr("select", String::from("rows"));
    assert_eq!(xslt(&f), "foreach rows\n");
    let mut ct = elem("xsl:call-template");
    ct.set_attr("name", String::from("tmpl"));
    assert_eq!(xslt(&ct), "call tmpl\n");
    let mut el = elem("xsl:element");
    el.set_attr("name", String::from("p"));
    assert_eq!(xslt(&el), "element p\n");
}

#[test]
fn test_mapper_template_heads() {
    let mut by_match = elem("xsl:template");
    by_match.set_attr("match", String::from("Row"));
    assert_eq!(xslt(&by_match), "template Row\n");
    let mut by_name = elem("xsl:template");
    by_name.set_attr("name", String::from("helper"));
    assert_eq!(xslt(&by_name), "template #helper\n");
    let mut with_extras = elem("xsl:template");
    with_extras.set_attr("match", String::from("Row"));
    with_extras.set_attr("mode", String::from("m"));
    assert_eq!(xslt(&with_extras), "template Row(mode=\"m\")\n");
}

#[test]
fn test_mapper_template_declines_without_match_or_name() {
    let t = elem("xsl:template");
    assert_eq!(xslt(&t), "xsl:template\n");
}

#[test]
fn test_mapper_variable_precedence() {
    let mut with_select = elem("xsl:variable");
    with_select.set_attr("name", String::from("v"));
    with_select.set_attr("select", String::from("expr"));
    with_select.set_text(String::from("ignored"));
    assert_eq!(xslt(&with_select), "v := expr\n");
    let mut with_text = elem("xsl:variable");
    with_text.set_attr("name", String::from("v"));
    with_text.set_text(String::from("  val "));
    assert_eq!(xslt(&with_text), "v := val\n");
    let mut bare = elem("xsl:variable");
    bare.set_attr("name", String::from("v"));
    assert_eq!(xslt(&bare), "v :=\n");
}

#[test]
fn test_mapper_with_param_like_variable() {
    let mut wp = elem("xsl:with-param");
    wp.set_attr("name", String::from("p"));
    wp.set_text(String::from("x"));
    assert_eq!(xslt(&wp), "p := x\n");
}

#[test]
fn test_mapper_text_quotes_or_vanishes() {
    let mut t = elem("xsl:text");
    t.set_text(String::from("  hello  "));
    assert_eq!(xslt(&t), "\"hello\"\n");
    let mut empty = elem("xsl:text");
    empty.set_text(String::from("   "));
    assert_eq!(xslt(&empty), "");
}

#[test]
fn test_mapper_attribute_forms() {
    let mut with_text = elem("xsl:attribute");
    with_text.set_attr("name", String::from("href"));
    with_text.set_text(String::from("url"));
    assert_eq!(xslt(&with_text), "@href = url\n");
    let mut bare = elem("xsl:attribute");
    bare.set_attr("name", String::from("class"));
    assert_eq!(xslt(&bare), "@class\n");
}

#[test]
fn test_mapper_param_forms() {
    let mut bare = elem("xsl:param");
    bare.set_attr("name", String::from("p"));
    assert_eq!(xslt(&bare), "param p\n");
    let mut with_select = elem("xsl:param");
    with_select.set_attr("name", String::from("p"));
    with_select.set_attr("select", String::from("dflt"));
    assert_eq!(xslt(&with_select), "param p := dflt\n");
}

#[test]
fn test_mapper_apply_without_select() {
    let a = elem("xsl:apply-templates");
    assert_eq!(xslt(&a), "apply\n");
}

#[test]
fn test_mapper_declines_to_generic() {
    let mut v = elem("xsl:value-of");
    v.set_attr("other", String::from("1"));
    assert_eq!(xslt(&v), "xsl:value-of(other=\"1\")\n");
    let unknown = elem("xsl:import");
    assert_eq!(xslt(&unknown), "xsl:import\n");
}

#[test]
fn test_mapper_disables_itself_for_data_children() {
    // the body of a value-of is plain data: a nested instruction inside it
    // is not translated
    let mut v = elem("xsl:value-of");
    v.set_attr("select", String::from("x"));
    let mut nested = elem("xsl:if");
    nested.set_attr("test", String::from("c"));
    v.add_child(nested);
    assert_eq!(xslt(&v), "<- x\n  xsl:if(test=\"c\")\n");
}

#[test]
fn test_mapper_control_keeps_translating_children() {
    let mut i = elem("xsl:if");
    i.set_attr("test", String::from("c"));
    let mut inner = elem("xsl:value-of");
    inner.set_attr("select", String::from("y"));
    i.add_child(inner);
    assert_eq!(xslt(&i), "if c\n  <- y\n");
}

#[test]
fn test_xslt_off_renders_generic() {
    let mut v = elem("xsl:value-of");
    v.set_attr("select", String::from("Name"));
    assert_eq!(v.format_yaml_like(0, false), "xsl:value-of(select=\"Name\")\n");
}
