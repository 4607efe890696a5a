use unxml::elem::XmlElement;
use unxml::registry::{RegistryBuilder, TemplateRegistry};
use unxml::render::render_all;

fn elem(name: &str) -> XmlElement {
    XmlElement::new(String::from(name))
}

fn value_of(select: &str) -> XmlElement {
    let mut v = elem("xsl:value-of");
    v.set_attr("select", String::from(select));
    v
}

/// The main stylesheet: a root template applying `Input/Header` and
/// `Input/Body`, a local `Body` template, and an import of the header
/// stylesheet.
fn main_stylesheet() -> Vec<XmlElement> {
    let mut style = elem("xsl:stylesheet");
    let mut imp = elem("xsl:import");
    imp.set_attr("href", String::from("header.xsl"));
    style.add_child(imp);
    let mut root_tpl = elem("xsl:template");
    root_tpl.set_attr("match", String::from("/"));
    let mut apply_header = elem("xsl:apply-templates");
    apply_header.set_attr("select", String::from("Input/Header"));
    root_tpl.add_child(apply_header);
    let mut apply_body = elem("xsl:apply-templates");
    apply_body.set_attr("select", String::from("Input/Body"));
    root_tpl.add_child(apply_body);
    style.add_child(root_tpl);
    let mut body_tpl = elem("xsl:template");
    body_tpl.set_attr("match", String::from("Body"));
    body_tpl.add_child(value_of("Text"));
    style.add_child(body_tpl);
    vec![style]
}

/// The imported stylesheet: one template matching `Header|Footer`.
fn header_stylesheet() -> Vec<XmlElement> {
    let mut style = elem("xsl:stylesheet");
    let mut tpl = elem("xsl:template");
    tpl.set_attr("match", String::from("Header|Footer"));
    let mut section = elem("Section");
    section.add_child(value_of("Name"));
    section.add_child(value_of("Timestamp"));
    tpl.add_child(section);
    style.add_child(tpl);
    vec![style]
}

fn build_registry() -> TemplateRegistry {
    let mut builder = RegistryBuilder::new();
    let main_trees = main_stylesheet();
    let imports = builder.add_file("tests/fixtures/main.xsl", &main_trees);
    assert_eq!(imports, vec![String::from("tests/fixtures/header.xsl")]);
    let header_trees = header_stylesheet();
    builder.add_file("tests/fixtures/header.xsl", &header_trees);
    builder.into_registry()
}

#[test]
fn test_xslt_without_expand() {
    let trees = main_stylesheet();
    let output = render_all(&trees, false, true, None, 0);

    assert!(output.contains("apply Input/Header"));
    assert!(output.contains("apply Input/Body"));
    assert!(!output.contains("# [expanded:"));
}

#[test]
fn test_xslt_with_expand() {
    let registry = build_registry();
    let trees = main_stylesheet();
    let output = render_all(&trees, false, true, Some(&registry), 8);

    assert!(output.contains("# [expanded: apply Input/Header]"));
    assert!(output.contains("Section"));
    assert!(output.contains("<- Name"));
    assert!(output.contains("<- Timestamp"));
}

#[test]
fn test_expand_union_pattern() {
    let registry = build_registry();
    let trees = main_stylesheet();
    let output = render_all(&trees, false, true, Some(&registry), 8);

    assert!(output.contains("# [expanded: apply Input/Header]"));
}

#[test]
fn test_expand_preserves_local_templates() {
    let registry = build_registry();
    let trees = main_stylesheet();
    let output = render_all(&trees, false, true, Some(&registry), 8);

    assert!(output.contains("template Body"));
    assert!(output.contains("<- Text"));
}

#[test]
fn test_expansion_keeps_depth() {
    let registry = build_registry();
    let mut wrapper = elem("Wrapper");
    let mut apply = elem("xsl:apply-templates");
    apply.set_attr("select", String::from("Header"));
    wrapper.add_child(apply);
    let output = wrapper.render_with(0, false, true, Some(&registry), 8);
    // the apply-templates node sits at depth 1; the inlined template
    // children stay at depth 1, two spaces, not four
    assert!(output.contains("\n  # [expanded: apply Header]\n"));
    assert!(output.contains("\n  Section\n"));
    assert!(output.contains("\n    <- Name\n"));
}

#[test]
fn test_union_pattern_lookup() {
    let mut registry = TemplateRegistry::new();
    let mut tpl = elem("xsl:template");
    tpl.set_attr("match", String::from("Header|Footer"));
    registry.register("Header|Footer", tpl);

    assert!(registry.lookup("Header").is_some());
    assert!(registry.lookup("Input/Header").is_some());
    assert!(registry.lookup("Footer").is_some());
    assert!(registry.lookup("Body").is_none());
}

#[test]
fn test_exact_match_wins_over_union() {
    let mut registry = TemplateRegistry::new();
    let mut union_tpl = elem("xsl:template");
    union_tpl.set_attr("match", String::from("A|B"));
    union_tpl.set_attr("id", String::from("union"));
    registry.register("A|B", union_tpl);
    let mut exact_tpl = elem("xsl:template");
    exact_tpl.set_attr("match", String::from("A"));
    exact_tpl.set_attr("id", String::from("exact"));
    registry.register("A", exact_tpl);

    let found = registry.lookup("A").expect("A resolves");
    assert_eq!(found.get_attr("id"), Some(&String::from("exact")));
}

#[test]
fn test_import_cycle_builds_once() {
    let mut builder = RegistryBuilder::new();

    let mut a = elem("xsl:stylesheet");
    let mut a_imp = elem("xsl:import");
    a_imp.set_attr("href", String::from("b.xsl"));
    a.add_child(a_imp);
    let mut a_tpl = elem("xsl:template");
    a_tpl.set_attr("match", String::from("FromA"));
    a.add_child(a_tpl);
    let a_trees = vec![a];

    let mut b = elem("xsl:stylesheet");
    let mut b_imp = elem("xsl:import");
    b_imp.set_attr("href", String::from("a.xsl"));
    b.add_child(b_imp);
    let mut b_tpl = elem("xsl:template");
    b_tpl.set_attr("match", String::from("FromB"));
    b.add_child(b_tpl);
    let b_trees = vec![b];

    let first = builder.add_file("dir/a.xsl", &a_trees);
    assert_eq!(first, vec![String::from("dir/b.xsl")]);
    let second = builder.add_file("dir/b.xsl", &b_trees);
    assert_eq!(second, vec![String::from("dir/a.xsl")]);
    // the cycle comes back to a.xsl: nothing changes, nothing to load
    let third = builder.add_file("dir/a.xsl", &a_trees);
    assert!(third.is_empty());

    let registry = builder.into_registry();
    assert_eq!(registry.entries.len(), 2);
    assert!(registry.lookup("FromA").is_some());
    assert!(registry.lookup("FromB").is_some());
}

#[test]
fn test_last_registration_wins() {
    let mut registry = TemplateRegistry::new();
    let mut t1 = elem("xsl:template");
    t1.set_attr("match", String::from("X"));
    t1.set_attr("id", String::from("first"));
    registry.register("X", t1);
    let mut t2 = elem("xsl:template");
    t2.set_attr("match", String::from("X"));
    t2.set_attr("id", String::from("second"));
    registry.register("X", t2);

    assert_eq!(registry.entries.len(), 1);
    let found = registry.lookup("X").expect("X resolves");
    assert_eq!(found.get_attr("id"), Some(&String::from("second")));
}
