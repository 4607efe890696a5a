use unxml::detect::{detect_format, InputFormat};
use unxml::process::{process_content, process_content_with};
use unxml::registry::RegistryBuilder;
use unxml::xmlparse::parse_xml;

#[test]
fn test_detect_format_by_extension() {
    assert_eq!(detect_format("", "a/b/page.HTML"), InputFormat::Html);
    assert_eq!(detect_format("", "page.htm"), InputFormat::Html);
    assert_eq!(detect_format("", "data.xml"), InputFormat::Xml);
    assert_eq!(detect_format("", "sheet.xsl"), InputFormat::Xml);
    assert_eq!(detect_format("", "schema.xsd"), InputFormat::Xml);
    assert_eq!(detect_format("", "svc.wsdl"), InputFormat::Xml);
}

#[test]
fn test_detect_format_by_content() {
    assert_eq!(detect_format("<!DOCTYPE html><p>x</p>", "stdin"), InputFormat::Html);
    assert_eq!(detect_format("<HTML><p>x</p>", "stdin"), InputFormat::Html);
    assert_eq!(detect_format("<head>...</head>", "stdin"), InputFormat::Html);
    assert_eq!(detect_format("<body>...</body>", "stdin"), InputFormat::Html);
    assert_eq!(detect_format("<?xml version=\"1.0\"?><a/>", "stdin"), InputFormat::Xml);
    assert_eq!(detect_format("<data/>", "stdin"), InputFormat::Xml);
}

#[test]
fn test_process_simple_xml() {
    let out = process_content("<root><item id=\"1\">hello</item></root>", "t.xml", None, false)
        .expect("parses");
    assert_eq!(out, "root\n  item(id=\"1\") = hello\n");
}

#[test]
fn test_process_self_closing_and_attrs() {
    let out = process_content("<a><b x=\"1\" y=\"\"/></a>", "t.xml", None, false)
        .expect("parses");
    assert_eq!(out, "a\n  b(x=\"1\", y)\n");
}

#[test]
fn test_process_entities_resolved() {
    let out = process_content("<m t=\"a&quot;b\">x &amp; y</m>", "t.xml", None, false)
        .expect("parses");
    assert_eq!(out, "m(t=\"a&quot;b\") = x & y\n");
}

#[test]
fn test_process_numeric_character_reference() {
    let out = process_content("<m>A&#66;&#x43;</m>", "t.xml", None, false).expect("parses");
    assert_eq!(out, "m = ABC\n");
}

#[test]
fn test_process_text_runs_joined() {
    let out = process_content("<m> one <b/> two </m>", "t.xml", None, false).expect("parses");
    assert_eq!(out, "m = one two\n  b\n");
}

#[test]
fn test_process_bad_override_rejected() {
    let err = process_content("<a/>", "t.xml", Some("yaml"), false).unwrap_err();
    assert_eq!(err, "Unsupported format: yaml. Use 'xml' or 'html'");
}

#[test]
fn test_process_override_case_insensitive() {
    assert!(process_content("<a/>", "weird.bin", Some("XML"), false).is_ok());
}

#[test]
fn test_process_malformed_xml_fails() {
    let err = process_content("<a><b></a>", "t.xml", None, false).unwrap_err();
    assert!(err.starts_with("Failed to parse XML: Error at position"), "unexpected: {err}");
}

#[test]
fn test_process_unknown_entity_fails() {
    let err = process_content("<a>&nosuch;</a>", "t.xml", None, false).unwrap_err();
    assert_eq!(err, "Failed to parse XML: Failed to unescape text");
}

#[test]
fn test_process_matches_parse_then_render() {
    let src = "<root a=\"1\"><x/>text</root>";
    let parsed = parse_xml(src).expect("parses");
    let rendered = unxml::render::render_all(&parsed, true, false, None, 0);
    let processed = process_content(src, "t.xml", None, true).expect("processes");
    assert_eq!(processed, rendered);
}

#[test]
fn test_process_special_rules_end_to_end() {
    let src = "<section name=\"Main\"><parameter name=\"p\">v</parameter></section>";
    let out = process_content(src, "t.xml", None, true).expect("parses");
    assert_eq!(out, "#Main\n  p := v\n");
}

#[test]
fn test_process_html_class_folding() {
    let src = "<html><body><div class=\"a b\">t</div></body></html>";
    let out = process_content(src, "page.html", None, false).expect("parses");
    assert!(out.contains(".a.b"), "class folding missing in: {out}");
    assert!(!out.contains("div.a.b"), "div name should be dropped in: {out}");
}

#[test]
fn test_process_html_keeps_other_names() {
    let src = "<html><body><span class=\"x\">t</span></body></html>";
    let out = process_content(src, "page.html", None, false).expect("parses");
    assert!(out.contains("span.x"), "span keeps its name in: {out}");
}

#[test]
fn test_process_with_expansion_end_to_end() {
    let main_src = "<xsl:stylesheet xmlns:xsl=\"http://www.w3.org/1999/XSL/Transform\">\
                    <xsl:template match=\"/\">\
                    <xsl:apply-templates select=\"Input/Header\"/>\
                    </xsl:template></xsl:stylesheet>";
    let header_src = "<xsl:stylesheet xmlns:xsl=\"http://www.w3.org/1999/XSL/Transform\">\
                      <xsl:template match=\"Header|Footer\">\
                      <Section><xsl:value-of select=\"Name\"/></Section>\
                      </xsl:template></xsl:stylesheet>";
    let mut builder = RegistryBuilder::new();
    let main_trees = parse_xml(main_src).expect("main parses");
    let imports = builder.add_file("main.xsl", &main_trees);
    assert!(imports.is_empty());
    let header_trees = parse_xml(header_src).expect("header parses");
    builder.add_file("header.xsl", &header_trees);
    let registry = builder.into_registry();
    let out = process_content_with(main_src, "main.xsl", None, false, true, Some(&registry), 8)
        .expect("renders");
    assert!(out.contains("# [expanded: apply Input/Header]"), "no expansion in: {out}");
    assert!(out.contains("Section"));
    assert!(out.contains("<- Name"));
}
