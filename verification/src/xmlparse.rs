//! XML parsing: quick_xml produces the event stream, and the verified
//! logic here folds the events into the element tree — element stack
//! management, last-write-wins attributes, text runs joined by single
//! spaces, and resolution of character and predefined entity references.
//!
//! The event stream of a document is a function of its text alone, so it
//! is given a name, `xml_event_at`, and `parse_xml` is specified exactly:
//! its result is the fold of that stream, `Ok` precisely when the stream
//! is well formed.
use vstd::prelude::*;
use vstd::string::*;
use quick_xml::Reader;
use quick_xml::events::{BytesStart, Event};
use crate::chars::trim_s;
use crate::elem::{attr_upsert, attrs_view, elem_model, forest_model, lemma_forest_model,
    unique_keys, wf_elem, ElemModel, XmlElement};
use crate::strutil::{push_char, str_eq, trim_str};

verus! {

#[verifier::external_type_specification]
#[verifier::external_body]
#[verifier::reject_recursive_types(R)]
pub struct ExReader<R>(Reader<R>);

#[verifier::external_type_specification]
#[verifier::external_body]
pub struct ExBytesStart<'a>(BytesStart<'a>);

/// One event of the XML event stream, reduced to plain values and owned
/// tag data.
pub enum RawEvent {
    /// An opening tag.
    Start(BytesStart<'static>),
    /// A self-closing tag.
    Empty(BytesStart<'static>),
    /// A closing tag.
    End,
    /// Literal character data between tags, as it stands in the source.
    Text(String),
    /// A general reference `&name;` or `&#N;`, the text between `&` and `;`.
    Reference(String),
    /// End of the document.
    Eof,
    /// An event the tree does not record (comment, declaration, CDATA...).
    Skip,
    /// A malformed document, with the position in the message.
    Fail(String),
}

/// Plain-valued model of one event; a tag carries its name and either its
/// attribute pairs or nothing when one of them is malformed.
pub enum EventModel {
    Start { name: Seq<char>, attrs: Option<Seq<(Seq<char>, Seq<char>)>> },
    Empty { name: Seq<char>, attrs: Option<Seq<(Seq<char>, Seq<char>)>> },
    End,
    Text(Seq<char>),
    Reference(Seq<char>),
    Eof,
    Skip,
    Fail(Seq<char>),
}

/// The event at position `i` of the stream that parsing `content` yields:
/// a function of the document text alone.
pub uninterp spec fn xml_event_at(content: Seq<char>, i: int) -> EventModel;

/// The name of a tag event, a function of the tag data alone.
pub uninterp spec fn tag_name_of(tag: BytesStart<'static>) -> Seq<char>;

/// The unescaped attribute pairs of a tag event, in document order, or
/// nothing when one of them is malformed; a function of the tag data
/// alone.
pub uninterp spec fn tag_attrs_of(tag: BytesStart<'static>) -> Option<Seq<(Seq<char>, Seq<char>)>>;

/// The model of one returned event.
pub open spec fn raw_event_view(ev: RawEvent) -> EventModel {
    match ev {
        RawEvent::Start(t) => EventModel::Start { name: tag_name_of(t), attrs: tag_attrs_of(t) },
        RawEvent::Empty(t) => EventModel::Empty { name: tag_name_of(t), attrs: tag_attrs_of(t) },
        RawEvent::End => EventModel::End,
        RawEvent::Text(s) => EventModel::Text(s@),
        RawEvent::Reference(s) => EventModel::Reference(s@),
        RawEvent::Eof => EventModel::Eof,
        RawEvent::Skip => EventModel::Skip,
        RawEvent::Fail(m) => EventModel::Fail(m@),
    }
}

/// A reader over one document, carrying as ghost state the document text
/// and the position of the next event.
pub struct XmlReader<'a> {
    inner: Reader<&'a [u8]>,
    pub content: Ghost<Seq<char>>,
    pub pos: Ghost<int>,
}

/// Relies on quick_xml's `Reader::from_str`: a reader over the document.
#[verifier::external_body]
fn raw_reader_from_str<'a>(s: &'a str) -> (r: Reader<&'a [u8]>) {
    Reader::from_str(s)
}

/// A reader at the start of the document.
fn reader_from_str<'a>(s: &'a str) -> (r: XmlReader<'a>)
    ensures
        r.content@ == s@,
        r.pos@ == 0,
{
    XmlReader { inner: raw_reader_from_str(s), content: Ghost(s@), pos: Ghost(0int) }
}

/// Relies on quick_xml's `Reader::read_event` and `Reader::error_position`:
/// the next event of the stream, converted variant by variant to
/// `RawEvent`, with the reader's position in the message of a failed
/// parse. The parse is deterministic, so the event is the one the stream
/// model holds at the reader's position.
#[verifier::external_body]
fn next_raw_event<'a>(r: &mut XmlReader<'a>) -> (ev: RawEvent)
    ensures
        final(r).content@ == old(r).content@,
        final(r).pos@ == old(r).pos@ + 1,
        raw_event_view(ev) == xml_event_at(old(r).content@, old(r).pos@),
{
    match r.inner.read_event() {
        Ok(Event::Start(e)) => RawEvent::Start(e.into_owned()),
        Ok(Event::Empty(e)) => RawEvent::Empty(e.into_owned()),
        Ok(Event::End(_)) => RawEvent::End,
        Ok(Event::Text(t)) => RawEvent::Text(t.into_inner().into_owned()),
        Ok(Event::GeneralRef(e)) => RawEvent::Reference(e.as_ref().to_string()),
        Ok(Event::Eof) => RawEvent::Eof,
        Ok(_) => RawEvent::Skip,
        Err(e) => RawEvent::Fail(
            format!("Error at position {}: {:?}", r.inner.error_position(), e),
        ),
    }
}

/// Relies on quick_xml's `BytesStart::name`: the tag name, decoded
/// lossily from its bytes.
#[verifier::external_body]
fn start_name(e: &BytesStart<'static>) -> (r: String)
    ensures
        r@ == tag_name_of(*e),
{
    e.name().as_ref().to_string()
}

/// Relies on quick_xml's `BytesStart::attributes` and
/// `Attribute::unescape_value`: each attribute as an owned key and
/// unescaped value, `None` when one is malformed or cannot be unescaped.
#[verifier::external_body]
fn start_attrs(e: &BytesStart<'static>) -> (r: Option<Vec<(String, String)>>)
    ensures
        match r {
            Some(v) => tag_attrs_of(*e) == Some(attrs_view(v@)),
            None => tag_attrs_of(*e) is None,
        },
{
    #[allow(deprecated)]
    e.attributes().map(
        |a|
            a.ok().and_then(
                |a|
                    a.unescape_value().ok().map(
                        |v| (a.key.as_ref().to_string(), v.into_owned()),
                    ),
            ),
    ).collect()
}

/// Relies on std's `char::from_u32`: `Some` exactly for the Unicode scalar
/// values (not a surrogate, at most 0x10FFFF), and then the character with
/// that code point.
#[verifier::external_body]
fn char_from_u32(n: u32) -> (r: Option<char>)
    ensures
        match r {
            Some(c) => c == (n as int) as char && !(0xD800 <= n <= 0xDFFF) && n <= 0x10FFFF,
            None => 0xD800 <= n <= 0xDFFF || n > 0x10FFFF,
        },
{
    char::from_u32(n)
}

/// The value of one reference digit, or nothing for a non-digit.
pub open spec fn digit_val(c: char, hex: bool) -> Option<int> {
    let u = c as int;
    if 48 <= u <= 57 {
        Some(u - 48)
    } else if hex && 97 <= u <= 102 {
        Some(u - 87)
    } else if hex && 65 <= u <= 70 {
        Some(u - 55)
    } else {
        None
    }
}

/// The numeric value of the digits of `s` from index `i` on, read onto the
/// accumulator `acc`; nothing on a non-digit, and nothing once the
/// accumulator has left the code-point range.
pub open spec fn num_val(s: Seq<char>, i: int, acc: int, hex: bool) -> Option<int>
    decreases s.len() - i,
{
    if i < 0 || i >= s.len() {
        Some(acc)
    } else {
        match digit_val(s[i], hex) {
            None => None,
            Some(d) => if acc > 0x10FFFF {
                None
            } else {
                num_val(s, i + 1, acc * (if hex {
                    16int
                } else {
                    10int
                }) + d, hex)
            },
        }
    }
}

/// Resolution of one general reference: the five predefined entities, and
/// decimal `#N` / hexadecimal `#xN` character references whose value is a
/// Unicode scalar value; anything else resolves to nothing.
pub open spec fn resolve_ref_s(name: Seq<char>) -> Option<Seq<char>> {
    if name == "amp"@ {
        Some("&"@)
    } else if name == "lt"@ {
        Some("<"@)
    } else if name == "gt"@ {
        Some(">"@)
    } else if name == "quot"@ {
        Some("\""@)
    } else if name == "apos"@ {
        Some("'"@)
    } else if name.len() >= 2 && name[0] == '#' {
        let hex = name[1] == 'x' || name[1] == 'X';
        let start = if hex {
            2int
        } else {
            1int
        };
        if start >= name.len() {
            None
        } else {
            match num_val(name, start, 0, hex) {
                None => None,
                Some(v) => if 0 <= v <= 0x10FFFF && !(0xD800 <= v <= 0xDFFF) {
                    Some(seq![v as char])
                } else {
                    None
                },
            }
        }
    } else {
        None
    }
}

/// Resolve one general reference, exactly as `resolve_ref_s` gives it.
fn resolve_reference(name: &str) -> (r: Option<String>)
    ensures
        match r {
            Some(s) => resolve_ref_s(name@) == Some(s@),
            None => resolve_ref_s(name@) is None,
        },
{
    if str_eq(name, "amp") {
        return Some(String::from_str("&"));
    }
    if str_eq(name, "lt") {
        return Some(String::from_str("<"));
    }
    if str_eq(name, "gt") {
        return Some(String::from_str(">"));
    }
    if str_eq(name, "quot") {
        return Some(String::from_str("\""));
    }
    if str_eq(name, "apos") {
        return Some(String::from_str("'"));
    }
    let n = name.unicode_len();
    if n >= 2 && name.get_char(0) == '#' {
        let hex = name.get_char(1) == 'x' || name.get_char(1) == 'X';
        let start: usize = if hex {
            2
        } else {
            1
        };
        if start >= n {
            return None;
        }
        let mut value: u32 = 0;
        let mut i: usize = start;
        let base: u32 = if hex {
            16
        } else {
            10
        };
        proof {
            assert(resolve_ref_s(name@) == (match num_val(name@, start as int, 0, hex) {
                None => None::<Seq<char>>,
                Some(v) => if 0 <= v <= 0x10FFFF && !(0xD800 <= v <= 0xDFFF) {
                    Some(seq![v as char])
                } else {
                    None
                },
            }));
        }
        while i < n
            invariant
                start <= i <= n,
                n == name@.len(),
                base == (if hex {
                    16u32
                } else {
                    10u32
                }),
                value <= 0x10FFFF * 16 + 15,
                num_val(name@, start as int, 0, hex) == num_val(name@, i as int, value as int, hex),
                resolve_ref_s(name@) == (match num_val(name@, start as int, 0, hex) {
                    None => None::<Seq<char>>,
                    Some(v) => if 0 <= v <= 0x10FFFF && !(0xD800 <= v <= 0xDFFF) {
                        Some(seq![v as char])
                    } else {
                        None
                    },
                }),
            decreases n - i,
        {
            let c = name.get_char(i);
            let u = c as u32;
            let digit: u32 = if u >= 48 && u <= 57 {
                u - 48
            } else if base == 16 && u >= 97 && u <= 102 {
                u - 87
            } else if base == 16 && u >= 65 && u <= 70 {
                u - 55
            } else {
                proof {
                    assert(digit_val(name@[i as int], hex) is None);
                    assert(num_val(name@, i as int, value as int, hex) is None);
                    assert(num_val(name@, start as int, 0, hex) is None);
                    assert(resolve_ref_s(name@) is None);
                }
                return None;
            };
            proof {
                assert(digit_val(name@[i as int], hex) == Some(digit as int));
            }
            if value > 0x10FFFF {
                proof {
                    assert(num_val(name@, i as int, value as int, hex) is None);
                    assert(num_val(name@, start as int, 0, hex) is None);
                    assert(resolve_ref_s(name@) is None);
                }
                return None;
            }
            value = value * base + digit;
            i += 1;
        }
        match char_from_u32(value) {
            Some(c) => {
                let mut s = String::new();
                push_char(&mut s, c);
                proof {
                    assert(num_val(name@, start as int, 0, hex) == Some(value as int));
                    assert(c == (value as int) as char);
                    assert(s@ =~= seq![(value as int) as char]);
                }
                Some(s)
            },
            None => None,
        }
    } else {
        None
    }
}

/// Well-formedness of every tree in a vector.
pub open spec fn all_wf(cs: Seq<XmlElement>) -> bool {
    forall|i: int| 0 <= i < cs.len() ==> wf_elem(#[trigger] cs[i].model())
}

pub(crate) proof fn lemma_wf_add_child(parent: ElemModel, child: ElemModel)
    requires
        wf_elem(parent),
        wf_elem(child),
    ensures
        wf_elem(
            ElemModel {
                name: parent.name,
                attrs: parent.attrs,
                text: parent.text,
                children: parent.children.push(child),
            },
        ),
{
    let p2 = ElemModel {
        name: parent.name,
        attrs: parent.attrs,
        text: parent.text,
        children: parent.children.push(child),
    };
    assert forall|i: int| 0 <= i < p2.children.len() implies wf_elem(#[trigger] p2.children[i]) by {
        if i < parent.children.len() {
            assert(p2.children[i] == parent.children[i]);
        } else {
            assert(p2.children[i] == child);
        }
    }
}

/// A fresh element made from a tag: its name, and its attributes folded
/// left to right with the last write winning.
pub open spec fn elem_of_tag(name: Seq<char>, attrs: Seq<(Seq<char>, Seq<char>)>) -> ElemModel {
    ElemModel {
        name,
        attrs: upsert_all(attrs),
        text: Seq::empty(),
        children: Seq::empty(),
    }
}

/// The attribute pairs folded into a unique-key list, last write wins.
pub open spec fn upsert_all(attrs: Seq<(Seq<char>, Seq<char>)>) -> Seq<(Seq<char>, Seq<char>)>
    decreases attrs.len(),
{
    if attrs.len() == 0 {
        Seq::empty()
    } else {
        attr_upsert(upsert_all(attrs.drop_last()), attrs.last().0, attrs.last().1)
    }
}

/// A text run appended to an element's text: runs are joined by single
/// spaces, empty runs change nothing.
pub open spec fn append_run(text: Seq<char>, run: Seq<char>) -> Seq<char> {
    if run.len() == 0 {
        text
    } else if text.len() == 0 {
        run
    } else {
        text + " "@ + run
    }
}

/// The state while folding the event stream: the stack of open elements,
/// the finished roots, and the text gathered since the last tag.
pub struct ParseState {
    pub stack: Seq<ElemModel>,
    pub roots: Seq<ElemModel>,
    pub pending: Seq<char>,
}

/// The starting state: nothing open, nothing finished, no text.
pub open spec fn init_state() -> ParseState {
    ParseState { stack: Seq::empty(), roots: Seq::empty(), pending: Seq::empty() }
}

/// What one event does to the state.
pub enum StepOutcome {
    Next(ParseState),
    Done(Seq<ElemModel>),
    Abort(Seq<char>),
}

/// The pending text, trimmed, joined onto the innermost open element;
/// dropped when nothing is open.
pub open spec fn flush_pending(st: ParseState) -> ParseState {
    if st.stack.len() > 0 {
        let top = st.stack.last();
        let top2 = ElemModel {
            name: top.name,
            attrs: top.attrs,
            text: append_run(top.text, trim_s(st.pending)),
            children: top.children,
        };
        ParseState {
            stack: st.stack.update(st.stack.len() - 1, top2),
            roots: st.roots,
            pending: Seq::empty(),
        }
    } else {
        ParseState { stack: st.stack, roots: st.roots, pending: Seq::empty() }
    }
}

/// A finished element joined to its parent, or made a root when nothing
/// is open.
pub open spec fn attach(st: ParseState, e: ElemModel) -> ParseState {
    if st.stack.len() > 0 {
        let p = st.stack.last();
        let p2 = ElemModel {
            name: p.name,
            attrs: p.attrs,
            text: p.text,
            children: p.children.push(e),
        };
        ParseState { stack: st.stack.update(st.stack.len() - 1, p2), roots: st.roots, pending: st.pending }
    } else {
        ParseState { stack: st.stack, roots: st.roots.push(e), pending: st.pending }
    }
}

/// One step of the fold. Text and references gather into the pending run;
/// every other event first flushes that run. A malformed attribute or an
/// unresolvable reference aborts with the library's error; a parser
/// failure aborts with the parser's message.
pub open spec fn parse_step(st: ParseState, ev: EventModel) -> StepOutcome {
    match ev {
        EventModel::Text(t) => StepOutcome::Next(
            ParseState { stack: st.stack, roots: st.roots, pending: st.pending + t },
        ),
        EventModel::Reference(nm) => match resolve_ref_s(nm) {
            Some(x) => StepOutcome::Next(
                ParseState { stack: st.stack, roots: st.roots, pending: st.pending + x },
            ),
            None => StepOutcome::Abort("Failed to unescape text"@),
        },
        EventModel::Start { name, attrs } => match attrs {
            None => StepOutcome::Abort("Failed to parse attribute"@),
            Some(al) => {
                let f = flush_pending(st);
                StepOutcome::Next(
                    ParseState {
                        stack: f.stack.push(elem_of_tag(name, al)),
                        roots: f.roots,
                        pending: f.pending,
                    },
                )
            },
        },
        EventModel::Empty { name, attrs } => match attrs {
            None => StepOutcome::Abort("Failed to parse attribute"@),
            Some(al) => StepOutcome::Next(attach(flush_pending(st), elem_of_tag(name, al))),
        },
        EventModel::End => {
            let f = flush_pending(st);
            if f.stack.len() > 0 {
                let completed = f.stack.last();
                let popped = ParseState {
                    stack: f.stack.drop_last(),
                    roots: f.roots,
                    pending: f.pending,
                };
                StepOutcome::Next(attach(popped, completed))
            } else {
                StepOutcome::Next(f)
            }
        },
        EventModel::Skip => StepOutcome::Next(flush_pending(st)),
        EventModel::Eof => StepOutcome::Done(flush_pending(st).roots),
        EventModel::Fail(m) => StepOutcome::Abort(m),
    }
}

/// The stream folded from position `i` in state `st`. The fuel only rules
/// out a stream that never ends; the starting budget admits far more
/// events than any document can hold.
pub open spec fn parse_run(content: Seq<char>, i: int, st: ParseState, fuel: nat) -> Result<
    Seq<ElemModel>,
    Seq<char>,
>
    decreases fuel,
{
    if fuel == 0 {
        Err("document does not end"@)
    } else {
        match parse_step(st, xml_event_at(content, i)) {
            StepOutcome::Next(st2) => parse_run(content, i + 1, st2, (fuel - 1) as nat),
            StepOutcome::Done(roots) => Ok(roots),
            StepOutcome::Abort(m) => Err(m),
        }
    }
}

/// The budget of events granted to one document.
pub const EVENT_BUDGET: u64 = 0xFFFF_FFFF_FFFF_FFFF;

/// What parsing a document yields: the fold of its event stream.
pub open spec fn xml_parse_spec(content: Seq<char>) -> Result<Seq<ElemModel>, Seq<char>> {
    parse_run(content, 0, init_state(), EVENT_BUDGET as nat)
}

/// Build one element from a tag: name and attributes, last write wins.
fn element_from_tag(tag: &BytesStart<'static>) -> (r: Result<XmlElement, String>)
    ensures
        match r {
            Ok(e) => tag_attrs_of(*tag) is Some && e.model() == elem_of_tag(
                tag_name_of(*tag),
                tag_attrs_of(*tag)->Some_0,
            ) && wf_elem(e.model()),
            Err(m) => tag_attrs_of(*tag) is None && m@ == "Failed to parse attribute"@,
        },
{
    let name = start_name(tag);
    let mut element = XmlElement::new(name);
    match start_attrs(tag) {
        None => Err(String::from_str("Failed to parse attribute")),
        Some(attrs) => {
            let ghost av = attrs_view(attrs@);
            let n = attrs.len();
            let mut i: usize = 0;
            proof {
                assert(av.take(0) =~= Seq::<(Seq<char>, Seq<char>)>::empty());
            }
            while i < n
                invariant
                    i <= n,
                    n == attrs.len(),
                    av == attrs_view(attrs@),
                    element.model().name == tag_name_of(*tag),
                    element.model().text == Seq::<char>::empty(),
                    element.model().children == Seq::<ElemModel>::empty(),
                    element.model().attrs == upsert_all(av.take(i as int)),
                    unique_keys(element.model().attrs),
                    wf_elem(element.model()),
                decreases n - i,
            {
                let k = attrs[i].0.clone();
                let v = attrs[i].1.clone();
                proof {
                    assert(av.take(i as int + 1).drop_last() =~= av.take(i as int));
                    assert(av.take(i as int + 1).last() == (attrs@[i as int].0@, attrs@[i as int].1@));
                }
                element.set_attr(k.as_str(), v);
                i += 1;
            }
            proof {
                assert(av.take(n as int) =~= av);
            }
            Ok(element)
        },
    }
}

/// Append a finished text run to the element under construction: runs are
/// joined by single spaces, empty runs are dropped.
fn append_text_run(element: &mut XmlElement, pending: &str)
    ensures
        final(element).model().name == old(element).model().name,
        final(element).model().attrs == old(element).model().attrs,
        final(element).model().children == old(element).model().children,
        final(element).model().text == append_run(old(element).model().text, trim_s(pending@)),
        wf_elem(old(element).model()) ==> wf_elem(final(element).model()),
{
    let run = trim_str(pending);
    if run.as_str().unicode_len() > 0 {
        let mut t = element.text_content.clone();
        if t.as_str().unicode_len() > 0 {
            t.append(" ");
        }
        t.append(run.as_str());
        element.set_text(t);
    }
}

/// The parse states on the two sides agree.
pub open spec fn state_matches(
    stack: Seq<XmlElement>,
    roots: Seq<XmlElement>,
    pending: Seq<char>,
    st: ParseState,
) -> bool {
    &&& forest_model(stack) == st.stack
    &&& forest_model(roots) == st.roots
    &&& pending == st.pending
}

/// Parse an XML document into its root elements: exactly the fold of the
/// document's event stream, `Ok` precisely when the stream is well
/// formed, and every tree that comes back is well-formed.
pub fn parse_xml(content: &str) -> (r: Result<Vec<XmlElement>, String>)
    ensures
        match r {
            Ok(roots) => xml_parse_spec(content@) == Ok::<Seq<ElemModel>, Seq<char>>(
                forest_model(roots@),
            ) && all_wf(roots@),
            Err(m) => xml_parse_spec(content@) == Err::<Seq<ElemModel>, Seq<char>>(m@),
        },
{
    let mut reader = reader_from_str(content);
    let mut stack: Vec<XmlElement> = Vec::new();
    let mut roots: Vec<XmlElement> = Vec::new();
    let mut pending = String::new();
    let mut budget: u64 = EVENT_BUDGET;
    proof {
        assert(forest_model(stack@) =~= Seq::<ElemModel>::empty());
        assert(forest_model(roots@) =~= Seq::<ElemModel>::empty());
    }
    loop
        invariant
            reader.content@ == content@,
            all_wf(stack@),
            all_wf(roots@),
            parse_run(
                content@,
                reader.pos@,
                ParseState {
                    stack: forest_model(stack@),
                    roots: forest_model(roots@),
                    pending: pending@,
                },
                budget as nat,
            ) == xml_parse_spec(content@),
        decreases budget,
    {
        let ghost st = ParseState {
            stack: forest_model(stack@),
            roots: forest_model(roots@),
            pending: pending@,
        };
        if budget == 0 {
            proof {
                assert(parse_run(content@, reader.pos@, st, 0) == Err::<
                    Seq<ElemModel>,
                    Seq<char>,
                >("document does not end"@));
            }
            return Err(String::from_str("document does not end"));
        }
        let ghost b0 = budget as nat;
        budget = budget - 1;
        let ghost pos0 = reader.pos@;
        let ev = next_raw_event(&mut reader);
        let ghost evm = xml_event_at(content@, pos0);
        let ghost stepped = parse_step(st, evm);
        proof {
            assert(raw_event_view(ev) == evm);
        }
        let is_text = match &ev {
            RawEvent::Text(_) => true,
            RawEvent::Reference(_) => true,
            _ => false,
        };
        if !is_text && stack.len() > 0 {
            let ghost pre_stack = forest_model(stack@);
            let top = stack.len() - 1;
            proof {
                lemma_forest_model(stack@);
            }
            let mut current = stack.remove(top);
            let ghost mid_stack = forest_model(stack@);
            proof {
                lemma_forest_model(stack@);
                assert(elem_model(current) == pre_stack.last());
                assert forall|k: int| 0 <= k < mid_stack.len() implies mid_stack[k]
                    == pre_stack.drop_last()[k] by {}
                assert(mid_stack =~= pre_stack.drop_last());
            }
            append_text_run(&mut current, pending.as_str());
            let ghost top2 = elem_model(current);
            stack.push(current);
            pending = String::new();
            proof {
                lemma_forest_model(stack@);
                assert(forest_model(stack@) =~= mid_stack.push(top2));
                assert(top2 == flush_pending(st).stack.last());
                assert(forest_model(stack@) =~= flush_pending(st).stack) by {
                    assert(pre_stack.drop_last().push(top2) =~= pre_stack.update(
                        pre_stack.len() - 1,
                        top2,
                    ));
                }
                assert(all_wf(stack@)) by {
                    assert forall|k: int| 0 <= k < stack@.len() implies wf_elem(
                        #[trigger] stack@[k].model(),
                    ) by {}
                }
            }
        } else if !is_text {
            pending = String::new();
        }
        let ghost fst = flush_pending(st);
        proof {
            if !is_text {
                assert(forest_model(stack@) == fst.stack);
                assert(forest_model(roots@) == fst.roots);
                assert(pending@ =~= fst.pending);
            }
        }
        match ev {
            RawEvent::Start(tag) => {
                match element_from_tag(&tag) {
                    Ok(element) => {
                        let ghost em = element.model();
                        let ghost pre = forest_model(stack@);
                        proof {
                            assert(wf_elem(em));
                        }
                        stack.push(element);
                        proof {
                            crate::elem::lemma_forest_model(stack@);
                            assert(forest_model(stack@) =~= pre.push(em));
                            assert(all_wf(stack@)) by {
                                assert forall|k: int| 0 <= k < stack@.len() implies wf_elem(
                                    #[trigger] stack@[k].model(),
                                ) by {}
                            }
                        }
                    },
                    Err(m) => {
                        proof {
                            assert(stepped == StepOutcome::Abort("Failed to parse attribute"@));
                            assert(parse_run(content@, pos0, st, b0) == Err::<
                                Seq<ElemModel>,
                                Seq<char>,
                            >(m@));
                        }
                        return Err(m);
                    },
                }
            },
            RawEvent::Empty(tag) => {
                match element_from_tag(&tag) {
                    Ok(element) => {
                        let ghost em = element.model();
                        if stack.len() > 0 {
                            let top = stack.len() - 1;
                            proof {
                                lemma_forest_model(stack@);
                            }
                            let ghost pre_stack = forest_model(stack@);
                            let mut parent = stack.remove(top);
                            let ghost mid_stack = forest_model(stack@);
                            let ghost pm = parent.model();
                            proof {
                                lemma_forest_model(stack@);
                                assert(pm == pre_stack.last());
                                assert(mid_stack =~= pre_stack.drop_last());
                            }
                            parent.add_child(element);
                            proof {
                                lemma_wf_add_child(pm, em);
                                assert(parent.model() == (ElemModel {
                                    name: pm.name,
                                    attrs: pm.attrs,
                                    text: pm.text,
                                    children: pm.children.push(em),
                                }));
                            }
                            let ghost p2 = parent.model();
                            stack.push(parent);
                            proof {
                                lemma_forest_model(stack@);
                                assert(forest_model(stack@) =~= mid_stack.push(p2));
                                assert(forest_model(stack@) =~= attach(fst, em).stack) by {
                                    assert(pre_stack.drop_last().push(p2) =~= pre_stack.update(
                                        pre_stack.len() - 1,
                                        p2,
                                    ));
                                }
                                assert(all_wf(stack@)) by {
                                    assert forall|k: int| 0 <= k < stack@.len() implies wf_elem(
                                        #[trigger] stack@[k].model(),
                                    ) by {}
                                }
                            }
                        } else {
                            let ghost pre_roots = forest_model(roots@);
                            proof {
                                lemma_forest_model(roots@);
                            }
                            roots.push(element);
                            proof {
                                lemma_forest_model(roots@);
                                assert(forest_model(roots@) =~= pre_roots.push(em));
                                assert(all_wf(roots@)) by {
                                    assert forall|k: int| 0 <= k < roots@.len() implies wf_elem(
                                        #[trigger] roots@[k].model(),
                                    ) by {}
                                }
                            }
                        }
                    },
                    Err(m) => {
                        proof {
                            assert(stepped == StepOutcome::Abort("Failed to parse attribute"@));
                            assert(parse_run(content@, pos0, st, b0) == Err::<
                                Seq<ElemModel>,
                                Seq<char>,
                            >(m@));
                        }
                        return Err(m);
                    },
                }
            },
            RawEvent::End => {
                if stack.len() > 0 {
                    let top = stack.len() - 1;
                    proof {
                        lemma_forest_model(stack@);
                    }
                    let ghost pre_stack = forest_model(stack@);
                    let completed = stack.remove(top);
                    let ghost cm = completed.model();
                    proof {
                        lemma_forest_model(stack@);
                        assert(cm == pre_stack.last());
                        assert(forest_model(stack@) =~= pre_stack.drop_last());
                    }
                    let ghost popped = ParseState {
                        stack: fst.stack.drop_last(),
                        roots: fst.roots,
                        pending: fst.pending,
                    };
                    if stack.len() > 0 {
                        let ptop = stack.len() - 1;
                        proof {
                            lemma_forest_model(stack@);
                        }
                        let ghost pre2 = forest_model(stack@);
                        let mut parent = stack.remove(ptop);
                        let ghost mid2 = forest_model(stack@);
                        let ghost pm = parent.model();
                        proof {
                            lemma_forest_model(stack@);
                            assert(pm == pre2.last());
                            assert(mid2 =~= pre2.drop_last());
                        }
                        parent.add_child(completed);
                        proof {
                            lemma_wf_add_child(pm, cm);
                            assert(parent.model() == (ElemModel {
                                name: pm.name,
                                attrs: pm.attrs,
                                text: pm.text,
                                children: pm.children.push(cm),
                            }));
                        }
                        let ghost p2 = parent.model();
                        stack.push(parent);
                        proof {
                            lemma_forest_model(stack@);
                            assert(forest_model(stack@) =~= mid2.push(p2));
                            assert(forest_model(stack@) =~= attach(popped, cm).stack) by {
                                assert(pre2.drop_last().push(p2) =~= pre2.update(
                                    pre2.len() - 1,
                                    p2,
                                ));
                            }
                            assert(all_wf(stack@)) by {
                                assert forall|k: int| 0 <= k < stack@.len() implies wf_elem(
                                    #[trigger] stack@[k].model(),
                                ) by {}
                            }
                        }
                    } else {
                        let ghost pre_roots = forest_model(roots@);
                        proof {
                            lemma_forest_model(roots@);
                        }
                        roots.push(completed);
                        proof {
                            lemma_forest_model(roots@);
                            assert(forest_model(roots@) =~= pre_roots.push(cm));
                            assert(all_wf(roots@)) by {
                                assert forall|k: int| 0 <= k < roots@.len() implies wf_elem(
                                    #[trigger] roots@[k].model(),
                                ) by {}
                            }
                        }
                    }
                }
            },
            RawEvent::Text(t) => {
                pending.append(t.as_str());
            },
            RawEvent::Reference(name) => {
                match resolve_reference(name.as_str()) {
                    Some(resolved) => {
                        pending.append(resolved.as_str());
                    },
                    None => {
                        proof {
                            assert(stepped == StepOutcome::Abort("Failed to unescape text"@));
                            assert(parse_run(content@, pos0, st, b0) == Err::<
                                Seq<ElemModel>,
                                Seq<char>,
                            >("Failed to unescape text"@));
                        }
                        return Err(String::from_str("Failed to unescape text"));
                    },
                }
            },
            RawEvent::Eof => {
                proof {
                    assert(stepped == StepOutcome::Done(fst.roots));
                    assert(parse_run(content@, pos0, st, b0) == Ok::<
                        Seq<ElemModel>,
                        Seq<char>,
                    >(fst.roots));
                    assert(forest_model(roots@) == fst.roots);
                }
                return Ok(roots);
            },
            RawEvent::Skip => {},
            RawEvent::Fail(m) => {
                proof {
                    assert(stepped == StepOutcome::Abort(m@));
                    assert(parse_run(content@, pos0, st, b0) == Err::<
                        Seq<ElemModel>,
                        Seq<char>,
                    >(m@));
                }
                return Err(m);
            },
        }
        proof {
            let st2 = ParseState {
                stack: forest_model(stack@),
                roots: forest_model(roots@),
                pending: pending@,
            };
            assert(stepped == StepOutcome::Next(st2)) by {
                match evm {
                    EventModel::Text(t) => {
                        assert(st2.pending =~= st.pending + t);
                        assert(st2.stack == st.stack && st2.roots == st.roots);
                        assert(st2 == (ParseState {
                            stack: st.stack,
                            roots: st.roots,
                            pending: st.pending + t,
                        }));
                    },
                    EventModel::Reference(nm) => {
                        assert(st2.pending =~= st.pending + resolve_ref_s(nm)->Some_0);
                        assert(st2 == (ParseState {
                            stack: st.stack,
                            roots: st.roots,
                            pending: st.pending + resolve_ref_s(nm)->Some_0,
                        }));
                    },
                    EventModel::Start { name, attrs } => {
                        assert(st2.stack == fst.stack.push(elem_of_tag(name, attrs->Some_0)));
                        assert(st2 == (ParseState {
                            stack: fst.stack.push(elem_of_tag(name, attrs->Some_0)),
                            roots: fst.roots,
                            pending: fst.pending,
                        }));
                    },
                    EventModel::Empty { name, attrs } => {
                        assert(st2 == attach(fst, elem_of_tag(name, attrs->Some_0)));
                    },
                    EventModel::End => {
                        if fst.stack.len() > 0 {
                            let popped = ParseState {
                                stack: fst.stack.drop_last(),
                                roots: fst.roots,
                                pending: fst.pending,
                            };
                            assert(st2 == attach(popped, fst.stack.last()));
                        } else {
                            assert(st2 == fst);
                        }
                    },
                    EventModel::Skip => {
                        assert(st2 == fst);
                    },
                    _ => {
                        assert(false);
                    },
                }
            }
            assert(parse_run(content@, pos0, st, b0) == parse_run(
                content@,
                pos0 + 1,
                st2,
                budget as nat,
            ));
        }
    }
}

} // verus!