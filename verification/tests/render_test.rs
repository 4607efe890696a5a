use unxml::elem::XmlElement;

fn elem(name: &str) -> XmlElement {
    XmlElement::new(String::from(name))
}

#[test]
fn test_generic_fallback_sorted_attrs() {
    let mut e = elem("div");
    e.set_attr("z", String::from("1"));
    e.set_attr("a", String::from("2"));
    e.set_attr("disabled", String::from(""));
    e.set_attr("value", String::from(""));
    let out = e.format_yaml_like(0, false);
    assert_eq!(out, "div(a=\"2\", value=\"\", z=\"1\", disabled)\n");
}

#[test]
fn test_render_idempotent() {
    let mut e = elem("entry");
    e.set_attr("b", String::from("2"));
    e.set_attr("a", String::from("1"));
    let mut c = elem("child");
    c.set_text(String::from("  some text  "));
    e.add_child(c);
    let first = e.format_yaml_like(0, true);
    let second = e.format_yaml_like(0, true);
    assert_eq!(first, second);
}

#[test]
fn test_sorting_insertion_order_independent() {
    let mut e1 = elem("item");
    e1.set_attr("gamma", String::from("3"));
    e1.set_attr("alpha", String::from("1"));
    e1.set_attr("beta", String::from(""));
    let mut e2 = elem("item");
    e2.set_attr("beta", String::from(""));
    e2.set_attr("alpha", String::from("1"));
    e2.set_attr("gamma", String::from("3"));
    assert_eq!(e1.format_yaml_like(0, false), e2.format_yaml_like(0, false));
    assert_eq!(e1.format_yaml_like(0, false), "item(alpha=\"1\", gamma=\"3\", beta)\n");
}

#[test]
fn test_attr_value_escaping() {
    let mut e = elem("p");
    e.set_attr("title", String::from("say \"hi\""));
    let out = e.format_yaml_like(0, false);
    assert_eq!(out, "p(title=\"say &quot;hi&quot;\")\n");
}

#[test]
fn test_text_content_assignment() {
    let mut e = elem("note");
    e.set_text(String::from("  trimmed text "));
    assert_eq!(e.format_yaml_like(0, false), "note = trimmed text\n");
}

#[test]
fn test_indentation_two_spaces_per_level() {
    let mut root = elem("a");
    let mut mid = elem("b");
    mid.add_child(elem("c"));
    root.add_child(mid);
    assert_eq!(root.format_yaml_like(0, false), "a\n  b\n    c\n");
}

#[test]
fn test_loop_directive_round_trip() {
    let mut e = elem("section");
    e.set_attr("loopDataSource", String::from("x;/A/B"));
    e.set_attr("name", String::from("s1"));
    let out = e.format_yaml_like(0, true);
    let stripped = e.copy_without_attr("loopDataSource");
    let rest = stripped.format_yaml_like(1, true);
    assert_eq!(out, format!("each x in /A/B\n{rest}"));
    assert!(out.starts_with("each x in /A/B\n"));
}

#[test]
fn test_loop_directive_without_semicolon() {
    let mut e = elem("row");
    e.set_attr("loopDataSource", String::from("foo"));
    let out = e.format_yaml_like(0, true);
    assert!(out.starts_with("each foo\n"));
}

#[test]
fn test_conditional_attribute_section_shorthand() {
    let key = format!("inclu{}", "de");
    let mut e = elem("section");
    e.set_attr(&key, String::from("flagA"));
    e.set_attr("name", String::from("Main"));
    let mut c = elem("entry");
    c.set_text(String::from("v"));
    e.add_child(c);
    let out = e.format_yaml_like(0, true);
    assert_eq!(out, "if flagA\n    #Main\n    entry = v\n");
}

#[test]
fn test_conditional_attribute_elides_empty_wrapper() {
    let key = format!("inclu{}", "de");
    let mut e = elem("wrapper");
    e.set_attr(&key, String::from("flagB"));
    e.add_child(elem("inner"));
    let out = e.format_yaml_like(0, true);
    assert_eq!(out, "if flagB\n  inner\n");
}

#[test]
fn test_section_decline_and_fallthrough() {
    let mut e = elem("section");
    e.set_attr("name", String::from("x"));
    e.set_attr("other", String::from("y"));
    let out = e.format_yaml_like(0, true);
    assert_eq!(out, "section(name=\"x\", other=\"y\")\n");
    assert!(!out.contains("#x"));
}

#[test]
fn test_section_shorthand() {
    let mut e = elem("section");
    e.set_attr("name", String::from("Main"));
    assert_eq!(e.format_yaml_like(0, true), "#Main\n");
}

#[test]
fn test_parameter_and_variable_rules() {
    let mut p = elem("parameter");
    p.set_attr("name", String::from("p1"));
    p.set_text(String::from("val"));
    assert_eq!(p.format_yaml_like(0, true), "p1 := val\n");
    let mut v = elem("variable");
    v.set_attr("name", String::from("v1"));
    v.set_text(String::from("w"));
    assert_eq!(v.format_yaml_like(0, true), "v1 :== w\n");
    let mut bare = elem("parameter");
    bare.set_attr("name", String::from("p2"));
    assert_eq!(bare.format_yaml_like(0, true), "p2 := \n");
}

#[test]
fn test_parameter_with_extra_attr_falls_through() {
    let mut p = elem("parameter");
    p.set_attr("name", String::from("p1"));
    p.set_attr("kind", String::from("k"));
    assert_eq!(p.format_yaml_like(0, true), "parameter(kind=\"k\", name=\"p1\")\n");
}

#[test]
fn test_method_jump_rule() {
    let mut m = elem("method");
    m.set_attr("jumpToXmlFile", String::from("{v,Common.xml}"));
    m.set_attr("jumpToXPath", String::from("//section[@name='Helpers']"));
    m.set_attr("name", String::from("doIt"));
    assert_eq!(m.format_yaml_like(0, true), "Common.xml::Helpers(name=\"doIt\")\n");
}

#[test]
fn test_method_jump_rule_unknown_section() {
    let mut m = elem("method");
    m.set_attr("jumpToXmlFile", String::from("File.xml"));
    m.set_attr("jumpToXPath", String::from("//section"));
    assert_eq!(m.format_yaml_like(0, true), "File.xml::UnknownSection()\n");
}

#[test]
fn test_builtin_method_parameter_list() {
    let mut b = elem("builtInMethodParameterList");
    b.set_attr("name", String::from("args"));
    assert_eq!(b.format_yaml_like(0, true), "args()\n");
}

#[test]
fn test_command_rule() {
    let mut c = elem("command");
    c.set_attr("type", String::from("run"));
    c.set_attr("b", String::from(""));
    c.set_attr("a", String::from("1"));
    c.set_text(String::from(" go "));
    assert_eq!(c.format_yaml_like(0, true), "command.run(a=\"1\", b) = go\n");
}

#[test]
fn test_special_rules_off_without_flag() {
    let mut e = elem("section");
    e.set_attr("name", String::from("Main"));
    assert_eq!(e.format_yaml_like(0, false), "section(name=\"Main\")\n");
}
