//! Input format detection: the file extension decides when it is a known
//! markup extension; otherwise well-known HTML markers in the content,
//! then an XML declaration, are looked for, and XML is the default.
use vstd::prelude::*;
use vstd::string::*;
use crate::chars::{contains_sub, last_segment, lower_s, rfind_ch, lemma_rfind_ch};
use crate::strutil::{contains_str, lower_str, rfind_char_str, str_eq};

verus! {

/// The two input formats the tool understands.
#[derive(Debug, PartialEq, Eq, Structural, Clone, Copy)]
pub enum InputFormat {
    Xml,
    Html,
}

/// The extension of a path: the text after the last `.` of the last
/// `/`-separated segment, provided that `.` is not the segment's first
/// character; empty when there is none.
pub open spec fn ext_of(path: Seq<char>) -> Seq<char> {
    let fname = last_segment(path);
    match rfind_ch(fname, '.') {
        None => Seq::empty(),
        Some(i) => if 0 < i < fname.len() {
            fname.subrange(i + 1, fname.len() as int)
        } else {
            Seq::empty()
        },
    }
}

/// Format detection: extension first, then HTML markers in the
/// ASCII-lowercased content, then a leading XML declaration; XML is the
/// default for ambiguous input.
pub open spec fn detect_format_s(content: Seq<char>, path: Seq<char>) -> InputFormat {
    let ext = lower_s(ext_of(path));
    if ext == "html"@ || ext == "htm"@ {
        InputFormat::Html
    } else if ext == "xml"@ || ext == "xsl"@ || ext == "xsd"@ || ext == "wsdl"@ {
        InputFormat::Xml
    } else {
        let lc = lower_s(content);
        if contains_sub(lc, "<!doctype html"@) || contains_sub(lc, "<html"@) || contains_sub(
            lc,
            "<head>"@,
        ) || contains_sub(lc, "<body>"@) {
            InputFormat::Html
        } else {
            InputFormat::Xml
        }
    }
}

/// Detect the input format of `content` coming from `file_path`.
pub fn detect_format(content: &str, file_path: &str) -> (r: InputFormat)
    ensures
        r == detect_format_s(content@, file_path@),
{
    let n = file_path.unicode_len();
    proof {
        lemma_rfind_ch(file_path@, '/');
    }
    let fname: String = match rfind_char_str(file_path, '/') {
        Some(i) => String::from_str(file_path.substring_char(i + 1, n)),
        None => String::from_str(file_path),
    };
    proof {
        assert(fname@ == last_segment(file_path@));
        lemma_rfind_ch(fname@, '.');
    }
    let fn_len = fname.as_str().unicode_len();
    let ext_raw: String = match rfind_char_str(fname.as_str(), '.') {
        Some(i) => {
            if 0 < i {
                String::from_str(fname.as_str().substring_char(i + 1, fn_len))
            } else {
                String::new()
            }
        },
        None => String::new(),
    };
    proof {
        assert(ext_raw@ == ext_of(file_path@));
    }
    let ext = lower_str(ext_raw.as_str());
    let e = ext.as_str();
    if str_eq(e, "html") || str_eq(e, "htm") {
        return InputFormat::Html;
    }
    if str_eq(e, "xml") || str_eq(e, "xsl") || str_eq(e, "xsd") || str_eq(e, "wsdl") {
        return InputFormat::Xml;
    }
    let lc = lower_str(content);
    if contains_str(lc.as_str(), "<!doctype html") || contains_str(lc.as_str(), "<html")
        || contains_str(lc.as_str(), "<head>") || contains_str(lc.as_str(), "<body>") {
        return InputFormat::Html;
    }
    InputFormat::Xml
}

} // verus!
