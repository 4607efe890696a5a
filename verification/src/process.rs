//! End-to-end processing of one document: determine the input format,
//! parse with the matching parser, and render every root element.
//!
//! The contract is exact: the result is `Err` precisely when the format
//! override is unsupported (with that message) or the chosen parser fails
//! on the content (with the parser's message in context), and otherwise
//! the output is exactly the rendering of the roots parsed from the
//! content.
use vstd::prelude::*;
use vstd::string::*;
use crate::chars::lower_s;
use crate::detect::{detect_format, detect_format_s, InputFormat};
use crate::elem::{forest_model, ElemModel};
use crate::htmlparse::{parse_html, parse_html_spec};
use crate::registry::TemplateRegistry;
use crate::render::{reg_model_of, render_all, render_seq};
use crate::strutil::{lower_str, str_eq};
use crate::xmlparse::{parse_xml, xml_parse_spec};

verus! {

/// How deep HTML conversion descends.
pub const HTML_DEPTH: u32 = 4096;

/// The input format chosen by an explicit override or by detection; an
/// override that is neither `xml` nor `html` (case-insensitively) is
/// rejected.
pub open spec fn chosen_format(
    content: Seq<char>,
    path: Seq<char>,
    over: Option<Seq<char>>,
) -> Option<InputFormat> {
    match over {
        Some(f) => if lower_s(f) == "html"@ {
            Some(InputFormat::Html)
        } else if lower_s(f) == "xml"@ {
            Some(InputFormat::Xml)
        } else {
            None
        },
        None => Some(detect_format_s(content, path)),
    }
}

/// The message rejecting an unsupported format override.
pub open spec fn unsupported_msg(f: Seq<char>) -> Seq<char> {
    "Unsupported format: "@ + f + ". Use 'xml' or 'html'"@
}

/// What the chosen parser makes of the content: HTML parsing always
/// succeeds; XML parsing yields the fold of the document's event stream.
pub open spec fn parse_spec(fmt: InputFormat, content: Seq<char>) -> Result<
    Seq<ElemModel>,
    Seq<char>,
> {
    match fmt {
        InputFormat::Xml => xml_parse_spec(content),
        InputFormat::Html => Ok(parse_html_spec(content, true, HTML_DEPTH as nat)),
    }
}

/// What processing one document yields, for a given configuration.
pub open spec fn process_spec(
    content: Seq<char>,
    path: Seq<char>,
    over: Option<Seq<char>>,
    sp: bool,
    xs: bool,
    rm: Option<Seq<(Seq<char>, ElemModel)>>,
    fuel: nat,
) -> Result<Seq<char>, Seq<char>> {
    match chosen_format(content, path, over) {
        None => Err(unsupported_msg(over->Some_0)),
        Some(fmt) => match parse_spec(fmt, content) {
            Ok(roots) => Ok(render_seq(roots, 0, sp, xs, rm, fuel)),
            Err(m) => Err("Failed to parse XML: "@ + m),
        },
    }
}

/// The view of a format override argument.
pub open spec fn over_view(format_override: Option<&str>) -> Option<Seq<char>> {
    match format_override {
        Some(f) => Some(f@),
        None => None,
    }
}

/// Process one document with the full configuration: exactly
/// `process_spec` — `Err` precisely on an unsupported override or a
/// failed parse, with the stated message, and on success exactly the
/// rendering of the roots parsed from the content.
pub fn process_content_with(
    content: &str,
    file_path: &str,
    format_override: Option<&str>,
    special: bool,
    xslt: bool,
    registry: Option<&TemplateRegistry>,
    fuel: u32,
) -> (r: Result<String, String>)
    ensures
        match r {
            Ok(out) => process_spec(
                content@,
                file_path@,
                over_view(format_override),
                special,
                xslt,
                reg_model_of(registry),
                fuel as nat,
            ) == Ok::<Seq<char>, Seq<char>>(out@),
            Err(m) => process_spec(
                content@,
                file_path@,
                over_view(format_override),
                special,
                xslt,
                reg_model_of(registry),
                fuel as nat,
            ) == Err::<Seq<char>, Seq<char>>(m@),
        },
{
    let format: InputFormat = match format_override {
        Some(f) => {
            let lf = lower_str(f);
            if str_eq(lf.as_str(), "html") {
                InputFormat::Html
            } else if str_eq(lf.as_str(), "xml") {
                InputFormat::Xml
            } else {
                let mut m = String::from_str("Unsupported format: ");
                m.append(f);
                m.append(". Use 'xml' or 'html'");
                proof {
                    assert(m@ =~= unsupported_msg(f@));
                }
                return Err(m);
            }
        },
        None => detect_format(content, file_path),
    };
    proof {
        assert(chosen_format(content@, file_path@, over_view(format_override)) == Some(format));
    }
    match format {
        InputFormat::Html => {
            match parse_html(content, &format, HTML_DEPTH) {
                Ok(elements) => {
                    let out = render_all(&elements, special, xslt, registry, fuel);
                    proof {
                        assert(forest_model(elements@) == parse_html_spec(
                            content@,
                            true,
                            HTML_DEPTH as nat,
                        ));
                    }
                    Ok(out)
                },
                Err(_) => vstd::pervasive::unreached(),
            }
        },
        InputFormat::Xml => {
            match parse_xml(content) {
                Ok(elements) => {
                    let out = render_all(&elements, special, xslt, registry, fuel);
                    Ok(out)
                },
                Err(m) => {
                    let mut e = String::from_str("Failed to parse XML: ");
                    e.append(m.as_str());
                    proof {
                        assert(e@ =~= "Failed to parse XML: "@ + m@);
                    }
                    Err(e)
                },
            }
        },
    }
}

/// Process one document: format determination, parsing, rendering; the
/// XSLT mapper stays off and no expansion is available. Exactly
/// `process_spec` for that configuration.
pub fn process_content(
    content: &str,
    file_path: &str,
    format_override: Option<&str>,
    special: bool,
) -> (r: Result<String, String>)
    ensures
        match r {
            Ok(out) => process_spec(
                content@,
                file_path@,
                over_view(format_override),
                special,
                false,
                None,
                0,
            ) == Ok::<Seq<char>, Seq<char>>(out@),
            Err(m) => process_spec(
                content@,
                file_path@,
                over_view(format_override),
                special,
                false,
                None,
                0,
            ) == Err::<Seq<char>, Seq<char>>(m@),
        },
{
    let r = process_content_with(content, file_path, format_override, special, false, None, 0);
    proof {
        assert(reg_model_of(None) is None);
    }
    r
}

} // verus!
