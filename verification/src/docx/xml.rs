//! XML parts as sequences of events: reading, writing and structure hashes.

use crate::chars::{append, lossy, lossy_text, owned, str_eq};
use crate::digest::{sha256_hex_bytes, sha256_hex_of};
use crate::docx::shape::{faithful, plain, shaped};
use crate::vecs::{clone_opt, pop_deep, popped, push_deep};
use quick_xml::events::{BytesDecl, Event};
use quick_xml::{Reader, Writer};
use vstd::prelude::*;
use vstd::utf8::*;

verus! {

/// One event of an XML part. Attribute values are kept as they are written.
#[derive(Clone, Debug)]
pub enum XmlEvent {
    Decl { version: String, encoding: Option<String>, standalone: Option<String> },
    Start { name: String, attrs: Vec<(String, String)> },
    End { name: String },
    Empty { name: String, attrs: Vec<(String, String)> },
    Text { text: String },
    CData { text: String },
    Comment { text: String },
    PI { content: String },
    DocType { text: String },
}

/// A list of attributes, keys before values.
pub type AttrsV = Seq<(Seq<char>, Seq<char>)>;

/// The model of an [`XmlEvent`].
#[verifier::ext_equal]
pub enum EventV {
    Decl { version: Seq<char>, encoding: Option<Seq<char>>, standalone: Option<Seq<char>> },
    Start { name: Seq<char>, attrs: AttrsV },
    End { name: Seq<char> },
    Empty { name: Seq<char>, attrs: AttrsV },
    Text { text: Seq<char> },
    CData { text: Seq<char> },
    Comment { text: Seq<char> },
    PI { content: Seq<char> },
    DocType { text: Seq<char> },
}

impl DeepView for XmlEvent {
    type V = EventV;

    open spec fn deep_view(&self) -> EventV {
        match self {
            XmlEvent::Decl { version, encoding, standalone } => EventV::Decl {
                version: version@,
                encoding: encoding.deep_view(),
                standalone: standalone.deep_view(),
            },
            XmlEvent::Start { name, attrs } => EventV::Start {
                name: name@,
                attrs: attrs.deep_view(),
            },
            XmlEvent::End { name } => EventV::End { name: name@ },
            XmlEvent::Empty { name, attrs } => EventV::Empty {
                name: name@,
                attrs: attrs.deep_view(),
            },
            XmlEvent::Text { text } => EventV::Text { text: text@ },
            XmlEvent::CData { text } => EventV::CData { text: text@ },
            XmlEvent::Comment { text } => EventV::Comment { text: text@ },
            XmlEvent::PI { content } => EventV::PI { content: content@ },
            XmlEvent::DocType { text } => EventV::DocType { text: text@ },
        }
    }
}

/// A named XML part with the hash that its structure had when it was read.
#[derive(Clone)]
pub struct XmlPart {
    pub name: String,
    pub events: Vec<XmlEvent>,
    pub baseline_hash: String,
}

/// The model of an [`XmlPart`].
#[verifier::ext_equal]
pub struct PartV {
    pub name: Seq<char>,
    pub events: Seq<EventV>,
    pub baseline_hash: Seq<char>,
}

impl DeepView for XmlPart {
    type V = PartV;

    open spec fn deep_view(&self) -> PartV {
        PartV {
            name: self.name@,
            events: self.events.deep_view(),
            baseline_hash: self.baseline_hash@,
        }
    }
}

/// Why an XML part could not be read. Each holds the parser's own words.
#[derive(Clone, Debug)]
pub enum XmlError {
    /// The bytes are not well-formed.
    Read(String),
    /// The XML declaration has no version.
    DeclVersion(String),
    /// An attribute cannot be read.
    Attr(String),
    /// A text holds an unknown or malformed entity, or is not UTF-8.
    Unescape(String),
}

/// The model of an [`XmlError`].
pub enum XmlErrorV {
    Read(Seq<char>),
    DeclVersion(Seq<char>),
    Attr(Seq<char>),
    Unescape(Seq<char>),
}

impl DeepView for XmlError {
    type V = XmlErrorV;

    open spec fn deep_view(&self) -> XmlErrorV {
        match self {
            XmlError::Read(m) => XmlErrorV::Read(m@),
            XmlError::DeclVersion(m) => XmlErrorV::DeclVersion(m@),
            XmlError::Attr(m) => XmlErrorV::Attr(m@),
            XmlError::Unescape(m) => XmlErrorV::Unescape(m@),
        }
    }
}

/// The deep view of a result.
pub open spec fn result_view<T: DeepView, E: DeepView>(r: Result<T, E>) -> Result<T::V, E::V> {
    match r {
        Ok(x) => Ok(x.deep_view()),
        Err(e) => Err(e.deep_view()),
    }
}

/// The kind of a token of the XML reader.
#[derive(Clone, Copy, Debug, PartialEq, Eq, Structural)]
pub enum RawKind {
    Start,
    End,
    Empty,
    Text,
    CData,
    Comment,
    Decl,
    Pi,
    DocType,
}

/// A token's kind, and its bytes between the delimiters.
pub struct RawXml {
    pub kind: RawKind,
    pub bytes: Vec<u8>,
}

/// What the XML reader tells of one token.
pub struct TokenV {
    pub kind: RawKind,
    pub bytes: Seq<u8>,
    /// Of a start or an empty tag or an instruction: how many of the bytes make its name.
    pub name_len: nat,
    /// Of a start or an empty tag: its attributes, as they are written.
    pub attrs: Result<Seq<(Seq<u8>, Seq<u8>)>, Seq<char>>,
    /// Of a text: its characters, with entities resolved.
    pub text: Result<Seq<char>, Seq<char>>,
    /// Of a declaration: its fields.
    pub version: Result<Seq<u8>, Seq<char>>,
    pub encoding: Option<Seq<u8>>,
    pub standalone: Option<Seq<u8>>,
}

#[verifier::external_type_specification]
#[verifier::external_body]
#[verifier::reject_recursive_types(R)]
pub struct ExReader<R>(Reader<R>);

/// The tokens of a byte string up to its end, or up to the first fault, which is then the last
/// item.
pub uninterp spec fn xml_tokens(input: Seq<u8>) -> Seq<Result<TokenV, Seq<char>>>;

/// The tokens that a reader has still to give.
pub uninterp spec fn pending_tokens(r: Reader<&[u8]>) -> Seq<Result<TokenV, Seq<char>>>;

/// `quick_xml::Reader::from_reader`, which leaves white space round texts in place: the reader
/// gives the tokens of `xml`. By default it checks the names of end tags, takes attributes that come
/// twice for a fault, takes off a byte order mark, and changes neither line ends nor names. So the
/// events that it tells of have the shape that [`shaped`] says, and events of that shape, with plain
/// names, are read from the bytes that they are written as: each delimiter is the first that the
/// reader finds, and the entities of a text are resolved to what was escaped.
#[verifier::external_body]
fn open_reader<'a>(xml: &'a [u8]) -> (r: Reader<&'a [u8]>)
    ensures
        pending_tokens(r) == xml_tokens(xml@),
        faithful(xml@, pending_tokens(r)),
{
    let mut reader = Reader::from_reader(xml);
    reader.config_mut().trim_text(false);
    reader
}

/// What `peek_raw` returns of the tokens that are pending.
pub open spec fn raw_read(
    pending: Seq<Result<TokenV, Seq<char>>>,
    t: Result<Option<RawXml>, String>,
) -> bool {
    match t {
        Ok(None) => pending.len() == 0,
        Ok(Some(x)) => pending.len() > 0 && pending[0] is Ok && pending[0]->Ok_0.kind == x.kind
            && pending[0]->Ok_0.bytes == x.bytes@,
        Err(e) => pending.len() > 0 && pending[0] == Err::<TokenV, Seq<char>>(e@),
    }
}

/// `quick_xml::Reader::read_event_into` on a copy of the reader: the next token, `None` at the
/// end, or the reader's fault. A token's name is a prefix of its bytes.
#[verifier::external_body]
fn peek_raw(r: &Reader<&[u8]>) -> (t: Result<Option<RawXml>, String>)
    ensures
        raw_read(pending_tokens(*r), t),
{
    let mut buf = Vec::new();
    let ev = r.clone().read_event_into(&mut buf).map_err(|e| e.to_string())?.into_owned();
    let kind = match &ev {
        Event::Start(_) => RawKind::Start,
        Event::Empty(_) => RawKind::Empty,
        Event::End(_) => RawKind::End,
        Event::Text(_) => RawKind::Text,
        Event::CData(_) => RawKind::CData,
        Event::Comment(_) => RawKind::Comment,
        Event::Decl(_) => RawKind::Decl,
        Event::PI(_) => RawKind::Pi,
        Event::DocType(_) => RawKind::DocType,
        Event::Eof => return Ok(None),
    };
    Ok(Some(RawXml { kind, bytes: ev.to_vec() }))
}

/// Whether a token has a name at its beginning.
pub open spec fn is_named(t: TokenV) -> bool {
    t.kind is Start || t.kind is Empty || t.kind is Pi
}

/// What `peek_name_len` returns of the tokens that are pending.
pub open spec fn name_len_read(pending: Seq<Result<TokenV, Seq<char>>>, n: usize) -> bool {
    pending.len() > 0 && pending[0] is Ok && is_named(pending[0]->Ok_0) ==> pending[0]->Ok_0.name_len
        == n && n <= pending[0]->Ok_0.bytes.len()
}

/// `quick_xml::events::BytesStart::name` and `quick_xml::events::BytesPI::target` of the next token:
/// how many bytes at the beginning of a start or an empty tag or an instruction make its name.
#[verifier::external_body]
fn peek_name_len(r: &Reader<&[u8]>) -> (n: usize)
    ensures
        name_len_read(pending_tokens(*r), n),
{
    let mut buf = Vec::new();
    match r.clone().read_event_into(&mut buf) {
        Ok(Event::Start(e)) | Ok(Event::Empty(e)) => e.name().0.len(),
        Ok(Event::PI(p)) => p.target().len(),
        _ => 0,
    }
}

/// `quick_xml::Reader::read_event_into`: takes one token off those that are pending. It is for a
/// reader whose next item is a token.
#[verifier::external_body]
fn skip_token(r: &mut Reader<&[u8]>)
    requires
        pending_tokens(*old(r)).len() > 0,
        pending_tokens(*old(r))[0] is Ok,
    ensures
        pending_tokens(*final(r)) == pending_tokens(*old(r)).drop_first(),
{
    let mut buf = Vec::new();
    let _ = r.read_event_into(&mut buf);
}

/// The characters that a result's bytes and words stand for.
pub open spec fn attrs_read(
    pending: Seq<Result<TokenV, Seq<char>>>,
    a: Result<Vec<(Vec<u8>, Vec<u8>)>, String>,
) -> bool {
    pending.len() > 0 && pending[0] is Ok && (pending[0]->Ok_0.kind is Start
        || pending[0]->Ok_0.kind is Empty) ==> pending[0]->Ok_0.attrs == result_view(a)
}

/// `quick_xml::events::BytesStart::attributes` of the next token: the attributes of a start or an
/// empty tag in their order, with their values as they are written, or the first fault among them.
#[verifier::external_body]
fn peek_attrs(r: &Reader<&[u8]>) -> (a: Result<Vec<(Vec<u8>, Vec<u8>)>, String>)
    ensures
        attrs_read(pending_tokens(*r), a),
{
    let mut buf = Vec::new();
    match r.clone().read_event_into(&mut buf) {
        Ok(Event::Start(e)) | Ok(Event::Empty(e)) => e.attributes().map(
            |a| a.map(|a| (a.key.0.to_vec(), a.value.to_vec())).map_err(|x| x.to_string()),
        ).collect(),
        _ => Ok(Vec::new()),
    }
}

/// What `peek_text` returns of the tokens that are pending.
pub open spec fn text_read(
    pending: Seq<Result<TokenV, Seq<char>>>,
    t: Result<String, String>,
) -> bool {
    pending.len() > 0 && pending[0] is Ok && pending[0]->Ok_0.kind is Text
        ==> pending[0]->Ok_0.text == result_view(t)
}

/// `quick_xml::events::BytesText::unescape` of the next token: the characters of a text with its
/// entities resolved.
#[verifier::external_body]
fn peek_text(r: &Reader<&[u8]>) -> (t: Result<String, String>)
    ensures
        text_read(pending_tokens(*r), t),
{
    let mut buf = Vec::new();
    match r.clone().read_event_into(&mut buf) {
        Ok(Event::Text(t)) => t.unescape().map(|s| s.into_owned()).map_err(|e| e.to_string()),
        _ => Ok(String::new()),
    }
}

/// The fields of an XML declaration, as they are written.
pub struct RawDecl {
    pub version: Result<Vec<u8>, String>,
    pub encoding: Option<Vec<u8>>,
    pub standalone: Option<Vec<u8>>,
}

/// What `peek_decl` returns of the tokens that are pending.
pub open spec fn decl_read(pending: Seq<Result<TokenV, Seq<char>>>, d: RawDecl) -> bool {
    pending.len() > 0 && pending[0] is Ok && pending[0]->Ok_0.kind is Decl ==> {
        &&& pending[0]->Ok_0.version == result_view(d.version)
        &&& pending[0]->Ok_0.encoding == d.encoding.deep_view()
        &&& pending[0]->Ok_0.standalone == d.standalone.deep_view()
    }
}

/// `quick_xml::events::BytesDecl::version`, `encoding` and `standalone` of the next token. An
/// encoding or a standalone flag that cannot be read counts as absent.
#[verifier::external_body]
fn peek_decl(r: &Reader<&[u8]>) -> (d: RawDecl)
    ensures
        decl_read(pending_tokens(*r), d),
{
    let mut buf = Vec::new();
    match r.clone().read_event_into(&mut buf) {
        Ok(Event::Decl(d)) => RawDecl {
            version: d.version().map(|v| v.to_vec()).map_err(|e| e.to_string()),
            encoding: d.encoding().and_then(|e| e.ok()).map(|e| e.to_vec()),
            standalone: d.standalone().and_then(|s| s.ok()).map(|s| s.to_vec()),
        },
        _ => RawDecl { version: Ok(Vec::new()), encoding: None, standalone: None },
    }
}

/// Attributes as text.
pub open spec fn attrs_text(a: Seq<(Seq<u8>, Seq<u8>)>) -> AttrsV {
    a.map_values(|kv: (Seq<u8>, Seq<u8>)| (lossy(kv.0), lossy(kv.1)))
}

/// An optional field as text.
pub open spec fn opt_text(o: Option<Seq<u8>>) -> Option<Seq<char>> {
    match o {
        Some(b) => Some(lossy(b)),
        None => None,
    }
}

/// The event that a token stands for.
pub open spec fn event_of(t: TokenV) -> Result<EventV, XmlErrorV> {
    match t.kind {
        RawKind::Start => match t.attrs {
            Ok(a) => Ok(
                EventV::Start { name: lossy(t.bytes.take(t.name_len as int)), attrs: attrs_text(a) },
            ),
            Err(m) => Err(XmlErrorV::Attr(m)),
        },
        RawKind::Empty => match t.attrs {
            Ok(a) => Ok(
                EventV::Empty { name: lossy(t.bytes.take(t.name_len as int)), attrs: attrs_text(a) },
            ),
            Err(m) => Err(XmlErrorV::Attr(m)),
        },
        RawKind::End => Ok(EventV::End { name: lossy(t.bytes) }),
        RawKind::Text => match t.text {
            Ok(s) => Ok(EventV::Text { text: s }),
            Err(m) => Err(XmlErrorV::Unescape(m)),
        },
        RawKind::CData => Ok(EventV::CData { text: lossy(t.bytes) }),
        RawKind::Comment => Ok(EventV::Comment { text: lossy(t.bytes) }),
        RawKind::Decl => match t.version {
            Ok(v) => Ok(
                EventV::Decl {
                    version: lossy(v),
                    encoding: opt_text(t.encoding),
                    standalone: opt_text(t.standalone),
                },
            ),
            Err(m) => Err(XmlErrorV::DeclVersion(m)),
        },
        RawKind::Pi => Ok(
            EventV::PI {
                content: lossy(t.bytes.take(t.name_len as int)) + lossy(
                    t.bytes.skip(t.name_len as int),
                ),
            },
        ),
        RawKind::DocType => Ok(EventV::DocType { text: lossy(t.bytes) }),
    }
}

/// The events that a sequence of tokens stands for, or the first fault among them.
pub open spec fn events_of(tokens: Seq<Result<TokenV, Seq<char>>>) -> Result<Seq<EventV>, XmlErrorV>
    decreases tokens.len(),
{
    if tokens.len() == 0 {
        Ok(Seq::empty())
    } else {
        match tokens[0] {
            Err(m) => Err(XmlErrorV::Read(m)),
            Ok(t) => match event_of(t) {
                Err(e) => Err(e),
                Ok(ev) => match events_of(tokens.drop_first()) {
                    Err(e) => Err(e),
                    Ok(rest) => Ok(seq![ev] + rest),
                },
            },
        }
    }
}

/// The events of a byte string.
pub open spec fn parsed(xml: Seq<u8>) -> Result<Seq<EventV>, XmlErrorV> {
    events_of(xml_tokens(xml))
}


/// Whether the events of a byte string have their shape, and are those that were written, if the
/// bytes are what shaped and plain events are written as.
pub open spec fn reads_own(xml: Seq<u8>) -> bool {
    &&& parsed(xml) matches Ok(events) ==> shaped(events)
    &&& forall|events: Seq<EventV>|
        shaped(events) && plain(events) && xml == encode_utf8(#[trigger] events_written(events))
            ==> parsed(xml) == Ok::<_, XmlErrorV>(events)
}

/// The attributes of the next token, as text.
fn read_attrs(r: &Reader<&[u8]>) -> (a: Result<Vec<(String, String)>, XmlError>)
    requires
        pending_tokens(*r).len() > 0,
        pending_tokens(*r)[0] is Ok,
        pending_tokens(*r)[0]->Ok_0.kind is Start || pending_tokens(*r)[0]->Ok_0.kind is Empty,
    ensures
        match a {
            Ok(v) => pending_tokens(*r)[0]->Ok_0.attrs is Ok && v.deep_view() == attrs_text(
                pending_tokens(*r)[0]->Ok_0.attrs->Ok_0,
            ),
            Err(e) => pending_tokens(*r)[0]->Ok_0.attrs is Err && e.deep_view() == XmlErrorV::Attr(
                pending_tokens(*r)[0]->Ok_0.attrs->Err_0,
            ),
        },
{
    let raw: Vec<(Vec<u8>, Vec<u8>)> = match peek_attrs(r) {
        Ok(v) => v,
        Err(m) => return Err(XmlError::Attr(m)),
    };
    let ghost model = raw.deep_view();
    let mut out: Vec<(String, String)> = Vec::new();
    let mut i: usize = 0;
    while i < raw.len()
        invariant
            i <= raw@.len(),
            model == raw.deep_view(),
            out.deep_view() == attrs_text(model.take(i as int)),
        decreases raw@.len() - i,
    {
        let k: String = lossy_text(raw[i].0.as_slice());
        let v: String = lossy_text(raw[i].1.as_slice());
        assert(model[i as int] == raw@[i as int].deep_view());
        assert(raw@[i as int].0.deep_view() =~= raw@[i as int].0@);
        assert(raw@[i as int].1.deep_view() =~= raw@[i as int].1@);
        push_deep(&mut out, (k, v));
        i = i + 1;
        assert(attrs_text(model.take(i as int)) =~= attrs_text(model.take(i - 1)).push(
            (lossy(model[i - 1].0), lossy(model[i - 1].1)),
        ));
    }
    assert(model.take(i as int) =~= model);
    Ok(out)
}

fn opt_lossy(o: &Option<Vec<u8>>) -> (r: Option<String>)
    ensures
        r.deep_view() == opt_text(o.deep_view()),
{
    match o {
        Some(b) => {
            assert(b.deep_view() =~= b@);
            Some(lossy_text(b.as_slice()))
        },
        None => None,
    }
}

/// The name of the next token.
fn read_name(r: &Reader<&[u8]>, raw: &RawXml) -> (name: String)
    requires
        pending_tokens(*r).len() > 0,
        pending_tokens(*r)[0] is Ok,
        is_named(pending_tokens(*r)[0]->Ok_0),
        pending_tokens(*r)[0]->Ok_0.bytes == raw.bytes@,
    ensures
        name@ == lossy(raw.bytes@.take(pending_tokens(*r)[0]->Ok_0.name_len as int)),
{
    let n: usize = peek_name_len(r);
    let name: &[u8] = vstd::slice::slice_subrange(raw.bytes.as_slice(), 0, n);
    assert(name@ =~= raw.bytes@.take(n as int));
    lossy_text(name)
}

/// The event that the next token stands for.
fn read_event(r: &Reader<&[u8]>, raw: &RawXml) -> (e: Result<XmlEvent, XmlError>)
    requires
        pending_tokens(*r).len() > 0,
        pending_tokens(*r)[0] is Ok,
        pending_tokens(*r)[0]->Ok_0.kind == raw.kind,
        pending_tokens(*r)[0]->Ok_0.bytes == raw.bytes@,
    ensures
        result_view(e) == event_of(pending_tokens(*r)[0]->Ok_0),
{
    let whole: &[u8] = raw.bytes.as_slice();
    match raw.kind {
        RawKind::Start => match read_attrs(r) {
            Ok(attrs) => Ok(XmlEvent::Start { name: read_name(r, raw), attrs }),
            Err(x) => Err(x),
        },
        RawKind::Empty => match read_attrs(r) {
            Ok(attrs) => Ok(XmlEvent::Empty { name: read_name(r, raw), attrs }),
            Err(x) => Err(x),
        },
        RawKind::End => Ok(XmlEvent::End { name: lossy_text(whole) }),
        RawKind::Text => match peek_text(r) {
            Ok(text) => Ok(XmlEvent::Text { text }),
            Err(m) => Err(XmlError::Unescape(m)),
        },
        RawKind::CData => Ok(XmlEvent::CData { text: lossy_text(whole) }),
        RawKind::Comment => Ok(XmlEvent::Comment { text: lossy_text(whole) }),
        RawKind::Decl => {
            let d: RawDecl = peek_decl(r);
            match d.version {
                Ok(v) => {
                    assert(v.deep_view() =~= v@);
                    Ok(
                        XmlEvent::Decl {
                            version: lossy_text(v.as_slice()),
                            encoding: opt_lossy(&d.encoding),
                            standalone: opt_lossy(&d.standalone),
                        },
                    )
                },
                Err(m) => Err(XmlError::DeclVersion(m)),
            }
        },
        RawKind::Pi => {
            let n: usize = peek_name_len(r);
            let rest: &[u8] = vstd::slice::slice_subrange(whole, n, whole.len());
            assert(rest@ =~= raw.bytes@.skip(n as int));
            let mut content: String = read_name(r, raw);
            let tail: String = lossy_text(rest);
            append(&mut content, tail.as_str());
            Ok(XmlEvent::PI { content })
        },
        RawKind::DocType => Ok(XmlEvent::DocType { text: lossy_text(whole) }),
    }
}

/// The events of an XML part.
fn read_events(xml_bytes: &[u8]) -> (r: Result<Vec<XmlEvent>, XmlError>)
    ensures
        result_view(r) == parsed(xml_bytes@),
        reads_own(xml_bytes@),
{
    let mut reader = open_reader(xml_bytes);
    let mut events: Vec<XmlEvent> = Vec::new();
    loop
        invariant
            reads_own(xml_bytes@),
            parsed(xml_bytes@) == match events_of(pending_tokens(reader)) {
                Ok(rest) => Ok(events.deep_view() + rest),
                Err(e) => Err(e),
            },
        decreases pending_tokens(reader).len(),
    {
        match peek_raw(&reader) {
            Err(m) => return Err(XmlError::Read(m)),
            Ok(None) => {
                assert(events.deep_view() + Seq::<EventV>::empty() =~= events.deep_view());
                return Ok(events);
            },
            Ok(Some(raw)) => match read_event(&reader, &raw) {
                Err(e) => return Err(e),
                Ok(ev) => {
                    let ghost before = events.deep_view();
                    let ghost v = ev.deep_view();
                    let ghost rest = events_of(pending_tokens(reader).drop_first());
                    skip_token(&mut reader);
                    push_deep(&mut events, ev);
                    proof {
                        if rest is Ok {
                            assert(before + (seq![v] + rest->Ok_0) =~= events.deep_view() + rest->Ok_0);
                        }
                    }
                },
            },
        }
    }
}

/// Reads an XML part. The bytes that [`write_xml_part`] gives are read as the events that were
/// written, where these are shaped as a reader gives them and their names are plain.
pub fn parse_xml_part(name: &str, xml_bytes: &[u8]) -> (r: Result<XmlPart, XmlError>)
    ensures
        result_view(r) == parsed_part(name@, xml_bytes@),
        reads_own(xml_bytes@),
        r matches Ok(part) ==> shaped(part.deep_view().events),
        forall|events: Seq<EventV>|
            shaped(events) && plain(events) && xml_bytes@ == encode_utf8(
                #[trigger] events_written(events),
            ) ==> result_view(r) == Ok::<_, XmlErrorV>(
                PartV { name: name@, events, baseline_hash: structure_hash_of(events) },
            ),
{
    match read_events(xml_bytes) {
        Ok(events) => {
            let baseline_hash: String = structure_hash(&events);
            Ok(XmlPart { name: owned(name), events, baseline_hash })
        },
        Err(e) => Err(e),
    }
}

/// The part that the bytes `xml` are read as under the name `name`.
pub open spec fn parsed_part(name: Seq<char>, xml: Seq<u8>) -> Result<PartV, XmlErrorV> {
    match parsed(xml) {
        Ok(events) => Ok(PartV { name, events, baseline_hash: structure_hash_of(events) }),
        Err(e) => Err(e),
    }
}

/// A text with the characters `&`, `<` and `>` replaced by their entities.
pub open spec fn escaped(s: Seq<char>) -> Seq<char>
    decreases s.len(),
{
    if s.len() == 0 {
        Seq::empty()
    } else {
        escaped(s.drop_last()) + escaped_char(s.last())
    }
}

/// A character as it stands in an XML text.
pub open spec fn escaped_char(c: char) -> Seq<char> {
    if c == '&' {
        "&amp;"@
    } else if c == '<' {
        "&lt;"@
    } else if c == '>' {
        "&gt;"@
    } else {
        seq![c]
    }
}

/// The quotation mark round an attribute value: a double one, unless the value holds it.
pub open spec fn quote_of(v: Seq<char>) -> Seq<char> {
    if v.contains('"') {
        "'"@
    } else {
        "\""@
    }
}

/// Attributes as they stand in a tag, each after a space.
pub open spec fn attrs_written(attrs: AttrsV) -> Seq<char>
    decreases attrs.len(),
{
    if attrs.len() == 0 {
        Seq::empty()
    } else {
        attrs_written(attrs.drop_last()) + " "@ + attrs.last().0 + "="@ + quote_of(attrs.last().1)
            + attrs.last().1 + quote_of(attrs.last().1)
    }
}

/// A declaration as it stands in a file.
pub open spec fn decl_written(
    version: Seq<char>,
    encoding: Option<Seq<char>>,
    standalone: Option<Seq<char>>,
) -> Seq<char> {
    let e = match encoding {
        Some(x) => "\" encoding=\""@ + x,
        None => Seq::empty(),
    };
    let s = match standalone {
        Some(x) => "\" standalone=\""@ + x,
        None => Seq::empty(),
    };
    "<?xml version=\""@ + version + e + s + "\"?>"@
}

/// An event as it stands in a file.
pub open spec fn event_written(ev: EventV) -> Seq<char> {
    match ev {
        EventV::Decl { version, encoding, standalone } => decl_written(version, encoding, standalone),
        EventV::Start { name, attrs } => "<"@ + name + attrs_written(attrs) + ">"@,
        EventV::End { name } => "</"@ + name + ">"@,
        EventV::Empty { name, attrs } => "<"@ + name + attrs_written(attrs) + "/>"@,
        EventV::Text { text } => escaped(text),
        EventV::CData { text } => "<![CDATA["@ + text + "]]>"@,
        EventV::Comment { text } => "<!--"@ + text + "-->"@,
        EventV::PI { content } => "<?"@ + content + "?>"@,
        EventV::DocType { text } => "<!DOCTYPE "@ + text + ">"@,
    }
}

/// A sequence of events as it stands in a file.
pub open spec fn events_written(events: Seq<EventV>) -> Seq<char>
    decreases events.len(),
{
    if events.len() == 0 {
        Seq::empty()
    } else {
        events_written(events.drop_last()) + event_written(events.last())
    }
}

/// `quick_xml::events::BytesDecl::new` and `quick_xml::Writer::write_event`: the declaration with
/// its fields in double quotes, which are not escaped.
#[verifier::external_body]
fn write_decl(version: &str, encoding: Option<&str>, standalone: Option<&str>) -> (r: String)
    ensures
        r@ == decl_written(version@, encoding.deep_view(), standalone.deep_view()),
{
    let mut writer = Writer::new(Vec::new());
    let _ = writer.write_event(Event::Decl(BytesDecl::new(version, encoding, standalone)));
    String::from_utf8_lossy(&writer.into_inner()).into_owned()
}

fn escape_text_into(out: &mut String, text: &str)
    ensures
        final(out)@ == old(out)@ + escaped(text@),
{
    let ghost start = out@;
    let v: Vec<char> = crate::chars::to_chars(text);
    let mut i: usize = 0;
    assert(v@.take(0) =~= Seq::<char>::empty());
    assert(start + Seq::<char>::empty() =~= start);
    while i < v.len()
        invariant
            i <= v@.len(),
            out@ == start + escaped(v@.take(i as int)),
        decreases v@.len() - i,
    {
        let c: char = v[i];
        let ghost before = out@;
        if c == '&' {
            append(out, "&amp;");
        } else if c == '<' {
            append(out, "&lt;");
        } else if c == '>' {
            append(out, "&gt;");
        } else {
            out.push(c);
            assert(out@ =~= before + seq![c]);
        }
        i = i + 1;
        assert(v@.take(i as int).drop_last() =~= v@.take(i - 1));
        assert(start + escaped(v@.take(i - 1)) + escaped_char(c) =~= start + (escaped(v@.take(i - 1))
            + escaped_char(c)));
    }
    assert(v@.take(i as int) =~= v@);
}

/// The quotation mark to put round an attribute value.
fn quote_for(v: &str) -> (r: &'static str)
    ensures
        r@ == quote_of(v@),
{
    let c: Vec<char> = crate::chars::to_chars(v);
    let mut i: usize = 0;
    while i < c.len()
        invariant
            i <= c@.len(),
            c@ == v@,
            forall|j: int| 0 <= j < i ==> c@[j] != '"',
        decreases c@.len() - i,
    {
        if c[i] == '"' {
            assert(v@[i as int] == '"');
            return "'";
        }
        i = i + 1;
    }
    "\""
}

fn write_start_like(out: &mut String, name: &str, attrs: &Vec<(String, String)>, empty: bool)
    ensures
        final(out)@ == old(out)@ + ("<"@ + name@ + attrs_written(attrs.deep_view()) + if empty {
            "/>"@
        } else {
            ">"@
        }),
{
    let ghost start = out@;
    append(out, "<");
    append(out, name);
    let mut i: usize = 0;
    let ghost model = attrs.deep_view();
    let ghost head = out@;
    assert(model.take(0) =~= Seq::<(Seq<char>, Seq<char>)>::empty());
    assert(head + attrs_written(model.take(0)) =~= head);
    while i < attrs.len()
        invariant
            i <= attrs@.len(),
            model == attrs.deep_view(),
            out@ == head + attrs_written(model.take(i as int)),
        decreases attrs@.len() - i,
    {
        let ghost before = attrs_written(model.take(i as int));
        append(out, " ");
        append(out, attrs[i].0.as_str());
        append(out, "=");
        let q: &str = quote_for(attrs[i].1.as_str());
        append(out, q);
        append(out, attrs[i].1.as_str());
        append(out, q);
        i = i + 1;
        proof {
            let kv = model[i - 1];
            assert(kv == attrs@[i - 1].deep_view());
            assert(model.take(i as int).drop_last() =~= model.take(i - 1));
            assert(head + before + " "@ + kv.0 + "="@ + q@ + kv.1 + q@ =~= head + (before + " "@ + kv.0
                + "="@ + q@ + kv.1 + q@));
        }
    }
    assert(model.take(i as int) =~= model);
    if empty {
        append(out, "/>");
    } else {
        append(out, ">");
    }
    proof {
        let tail = if empty {
            "/>"@
        } else {
            ">"@
        };
        assert(start + "<"@ + name@ + attrs_written(model) + tail =~= start + ("<"@ + name@
            + attrs_written(model) + tail));
    }
}

/// Appends `a`, `b` and `c` to `out`.
fn append3(out: &mut String, a: &str, b: &str, c: &str)
    ensures
        final(out)@ == old(out)@ + (a@ + b@ + c@),
{
    let ghost start = out@;
    append(out, a);
    append(out, b);
    append(out, c);
    assert(start + a@ + b@ + c@ =~= start + (a@ + b@ + c@));
}

fn opt_str(o: &Option<String>) -> (r: Option<&str>)
    ensures
        r.deep_view() == o.deep_view(),
{
    match o {
        Some(s) => Some(s.as_str()),
        None => None,
    }
}

fn write_event_into(out: &mut String, ev: &XmlEvent)
    ensures
        final(out)@ == old(out)@ + event_written(ev.deep_view()),
{
    match ev {
        XmlEvent::Decl { version, encoding, standalone } => {
            let d: String = write_decl(version.as_str(), opt_str(encoding), opt_str(standalone));
            append(out, d.as_str());
        },
        XmlEvent::Start { name, attrs } => write_start_like(out, name.as_str(), attrs, false),
        XmlEvent::End { name } => append3(out, "</", name.as_str(), ">"),
        XmlEvent::Empty { name, attrs } => write_start_like(out, name.as_str(), attrs, true),
        XmlEvent::Text { text } => escape_text_into(out, text.as_str()),
        XmlEvent::CData { text } => append3(out, "<![CDATA[", text.as_str(), "]]>"),
        XmlEvent::Comment { text } => append3(out, "<!--", text.as_str(), "-->"),
        XmlEvent::PI { content } => append3(out, "<?", content.as_str(), "?>"),
        XmlEvent::DocType { text } => append3(out, "<!DOCTYPE ", text.as_str(), ">"),
    }
}

/// The bytes of an XML part. Texts are escaped; attribute values are written as they are, in the
/// quotation marks that they do not hold.
pub fn write_xml_part(part: &XmlPart) -> (r: Result<Vec<u8>, XmlError>)
    ensures
        r is Ok,
        r->Ok_0@ == encode_utf8(events_written(part.deep_view().events)),
{
    let mut out: String = String::new();
    let mut i: usize = 0;
    let ghost model = part.events.deep_view();
    assert(model.take(0) =~= Seq::<EventV>::empty());
    while i < part.events.len()
        invariant
            i <= part.events@.len(),
            model == part.events.deep_view(),
            out@ == events_written(model.take(i as int)),
        decreases part.events@.len() - i,
    {
        write_event_into(&mut out, &part.events[i]);
        i = i + 1;
        assert(model.take(i as int).drop_last() =~= model.take(i - 1));
    }
    assert(model.take(i as int) =~= model);
    let mut bytes: Vec<u8> = Vec::new();
    bytes.extend_from_slice(out.as_str().as_bytes());
    assert(bytes@ =~= encode_utf8(out@));
    Ok(bytes)
}


/// Whether `a` comes before `b` in the order of their characters.
pub open spec fn text_less(a: Seq<char>, b: Seq<char>) -> bool
    decreases a.len(),
{
    if b.len() == 0 {
        false
    } else if a.len() == 0 {
        true
    } else if a[0] == b[0] {
        text_less(a.drop_first(), b.drop_first())
    } else {
        a[0] < b[0]
    }
}

/// Whether the texts stand in their order, none of them twice.
pub open spec fn increasing(v: Seq<Seq<char>>) -> bool {
    forall|i: int, j: int| 0 <= i < j < v.len() ==> text_less(#[trigger] v[i], #[trigger] v[j])
}

/// Texts are ordered as words are.
pub(crate) proof fn lemma_text_less(a: Seq<char>, b: Seq<char>, c: Seq<char>)
    ensures
        !text_less(a, a),
        text_less(a, b) || text_less(b, a) || a == b,
        text_less(a, b) && text_less(b, c) ==> text_less(a, c),
    decreases a.len(),
{
    if a.len() > 0 && b.len() > 0 {
        let x = if c.len() > 0 {
            c.drop_first()
        } else {
            c
        };
        lemma_text_less(a.drop_first(), b.drop_first(), x);
        if a[0] == b[0] && a.drop_first() == b.drop_first() {
            assert(a =~= seq![a[0]] + a.drop_first());
            assert(b =~= seq![b[0]] + b.drop_first());
        }
    } else if a.len() > 0 {
        lemma_text_less(a.drop_first(), b, c);
    } else if b.len() == 0 {
        assert(a =~= b);
    }
}

pub(crate) fn text_before(a: &str, b: &str) -> (r: bool)
    ensures
        r == text_less(a@, b@),
{
    let x: Vec<char> = crate::chars::to_chars(a);
    let y: Vec<char> = crate::chars::to_chars(b);
    let mut i: usize = 0;
    assert(x@.skip(0) =~= x@);
    assert(y@.skip(0) =~= y@);
    while i < x.len() && i < y.len() && x[i] == y[i]
        invariant
            i <= x@.len(),
            i <= y@.len(),
            x@ == a@,
            y@ == b@,
            text_less(x@.skip(i as int), y@.skip(i as int)) == text_less(a@, b@),
        decreases x@.len() - i,
    {
        assert(x@.skip(i as int).drop_first() =~= x@.skip(i + 1));
        assert(y@.skip(i as int).drop_first() =~= y@.skip(i + 1));
        i = i + 1;
    }
    if i >= y.len() {
        false
    } else if i >= x.len() {
        true
    } else {
        x[i] < y[i]
    }
}

/// A list of attributes in the order of their keys, with the value of `k` set to `v`.
pub open spec fn with_attr(m: AttrsV, k: Seq<char>, v: Seq<char>) -> AttrsV
    decreases m.len(),
{
    if m.len() == 0 {
        seq![(k, v)]
    } else if m[0].0 == k {
        m.update(0, (k, v))
    } else if text_less(k, m[0].0) {
        seq![(k, v)] + m
    } else {
        seq![m[0]] + with_attr(m.drop_first(), k, v)
    }
}

fn set_attr(m: &mut Vec<(String, String)>, k: String, v: String)
    ensures
        final(m).deep_view() == with_attr(old(m).deep_view(), k@, v@),
{
    let ghost model = m.deep_view();
    let mut i: usize = 0;
    assert(model.take(0) + with_attr(model.skip(0), k@, v@) =~= with_attr(model, k@, v@)) by {
        assert(model.skip(0) =~= model);
    }
    while i < m.len() && !str_eq(m[i].0.as_str(), k.as_str()) && !text_before(
        k.as_str(),
        m[i].0.as_str(),
    )
        invariant
            i <= m@.len(),
            model == m.deep_view(),
            model.take(i as int) + with_attr(model.skip(i as int), k@, v@) == with_attr(
                model,
                k@,
                v@,
            ),
        decreases m@.len() - i,
    {
        proof {
            let rest = model.skip(i as int);
            assert(rest[0] == m@[i as int].deep_view());
            assert(rest.drop_first() =~= model.skip(i + 1));
            assert(model.take(i as int) + (seq![rest[0]] + with_attr(rest.drop_first(), k@, v@))
                =~= model.take(i + 1) + with_attr(model.skip(i + 1), k@, v@));
        }
        i = i + 1;
    }
    let ghost rest = model.skip(i as int);
    let ghost kv = (k@, v@);
    if i < m.len() && str_eq(m[i].0.as_str(), k.as_str()) {
        assert(rest[0] == m@[i as int].deep_view());
        m.set(i, (k, v));
        assert(m.deep_view() =~= model.take(i as int) + rest.update(0, kv));
    } else {
        proof {
            if i < m@.len() {
                assert(rest[0] == m@[i as int].deep_view());
            }
        }
        m.insert(i, (k, v));
        assert(m.deep_view() =~= model.take(i as int) + (seq![kv] + rest));
        assert(rest.len() == 0 ==> seq![kv] + rest =~= seq![kv]);
    }
}

/// The attributes of a tag that enter a hash, in the order of their keys. Unless the hash is a
/// full one, `xml:space` and the text of a list level stay out of it.
pub open spec fn hashed_attrs(full: bool, name: Seq<char>, attrs: AttrsV) -> AttrsV
    decreases attrs.len(),
{
    if attrs.len() == 0 {
        Seq::empty()
    } else {
        let before = hashed_attrs(full, name, attrs.drop_last());
        let (k, v) = attrs.last();
        if !full && k == "xml:space"@ {
            before
        } else if !full && name == "w:lvlText"@ && k == "w:val"@ {
            with_attr(before, k, Seq::empty())
        } else {
            with_attr(before, k, v)
        }
    }
}

/// Attributes as they enter a hash.
pub open spec fn attrs_hashed_text(m: AttrsV) -> Seq<char>
    decreases m.len(),
{
    if m.len() == 0 {
        Seq::empty()
    } else {
        attrs_hashed_text(m.drop_last()) + m.last().0 + "="@ + m.last().1 + ";"@
    }
}

/// A start tag as it enters a hash.
pub open spec fn start_hashed(full: bool, name: Seq<char>, attrs: AttrsV) -> Seq<char> {
    "S:"@ + name + "|"@ + attrs_hashed_text(hashed_attrs(full, name, attrs)) + "\n"@
}

/// An end tag as it enters a hash.
pub open spec fn end_hashed(name: Seq<char>) -> Seq<char> {
    "E:"@ + name + "\n"@
}

/// The tags whose text is the document's text.
pub open spec fn text_tag(name: Seq<char>) -> bool {
    name == "w:t"@ || name == "a:t"@ || name == "w:delText"@
}

/// The innermost open tag.
pub open spec fn top(stack: Seq<Seq<char>>) -> Seq<char> {
    if stack.len() > 0 {
        stack.last()
    } else {
        Seq::empty()
    }
}

/// The open tags and the text that was fed to the hash so far.
#[verifier::ext_equal]
pub struct HashV {
    pub stack: Seq<Seq<char>>,
    pub text: Seq<char>,
}

/// What an event other than a tag or a text adds to a hash.
pub open spec fn other_hashed(ev: EventV) -> Seq<char> {
    match ev {
        EventV::Decl { version, encoding, standalone } => "D:"@ + version + "|"@ + (match encoding {
            Some(e) => e,
            None => Seq::empty(),
        }) + "|"@ + (match standalone {
            Some(s) => s,
            None => Seq::empty(),
        }) + "\n"@,
        EventV::CData { text } => "C:"@ + text + "\n"@,
        EventV::Comment { text } => "M:"@ + text + "\n"@,
        EventV::PI { content } => "P:"@ + content + "\n"@,
        EventV::DocType { text } => "Y:"@ + text + "\n"@,
        _ => Seq::empty(),
    }
}

/// What one event does to the state of a hash. A structure hash passes over the text of the
/// document; a full one takes it in with the tag round it.
pub open spec fn hash_step(full: bool, st: HashV, ev: EventV) -> HashV {
    match ev {
        EventV::Start { name, attrs } => HashV {
            stack: st.stack.push(name),
            text: st.text + start_hashed(full, name, attrs),
        },
        EventV::Empty { name, attrs } => HashV {
            stack: st.stack,
            text: st.text + start_hashed(full, name, attrs) + end_hashed(name),
        },
        EventV::End { name } => HashV {
            stack: popped(st.stack),
            text: st.text + end_hashed(name),
        },
        EventV::Text { text } => if full {
            HashV {
                stack: st.stack,
                text: st.text + ("T:"@ + top(st.stack) + "|"@) + (text + "\n"@),
            }
        } else if text_tag(top(st.stack)) {
            st
        } else {
            HashV { stack: st.stack, text: st.text + ("T:"@ + text + "\n"@) }
        },
        _ => HashV { stack: st.stack, text: st.text + other_hashed(ev) },
    }
}

/// The state of a hash after a sequence of events.
pub open spec fn hash_run(full: bool, events: Seq<EventV>) -> HashV
    decreases events.len(),
{
    if events.len() == 0 {
        HashV { stack: Seq::empty(), text: Seq::empty() }
    } else {
        hash_step(full, hash_run(full, events.drop_last()), events.last())
    }
}

/// The hash of a document's structure: everything but its text.
pub open spec fn structure_hash_of(events: Seq<EventV>) -> Seq<char> {
    sha256_hex_of(encode_utf8(hash_run(false, events).text))
}

/// The hash of everything in a part.
pub open spec fn full_hash_of(events: Seq<EventV>) -> Seq<char> {
    sha256_hex_of(encode_utf8(hash_run(true, events).text))
}

/// The innermost open tag, or the empty text.
pub fn top_of(stack: &Vec<String>) -> (r: &str)
    ensures
        r@ == top(stack.deep_view()),
{
    if stack.len() > 0 {
        stack[stack.len() - 1].as_str()
    } else {
        proof {
            reveal_strlit("");
        }
        assert(""@ =~= Seq::<char>::empty());
        ""
    }
}

fn is_text_tag(name: &str) -> (r: bool)
    ensures
        r == text_tag(name@),
{
    str_eq(name, "w:t") || str_eq(name, "a:t") || str_eq(name, "w:delText")
}

fn is_lvltext(name: &str) -> (r: bool)
    ensures
        r == (name@ == "w:lvlText"@),
{
    str_eq(name, "w:lvlText")
}

fn sorted_attrs(full: bool, name: &str, attrs: &Vec<(String, String)>) -> (r: Vec<(String, String)>)
    ensures
        r.deep_view() == hashed_attrs(full, name@, attrs.deep_view()),
{
    let mut map: Vec<(String, String)> = Vec::new();
    let ghost model = attrs.deep_view();
    let mut i: usize = 0;
    assert(model.take(0) =~= Seq::<(Seq<char>, Seq<char>)>::empty());
    assert(map.deep_view() =~= Seq::<(Seq<char>, Seq<char>)>::empty());
    while i < attrs.len()
        invariant
            i <= attrs@.len(),
            model == attrs.deep_view(),
            map.deep_view() == hashed_attrs(full, name@, model.take(i as int)),
        decreases attrs@.len() - i,
    {
        let k: &str = attrs[i].0.as_str();
        let v: &str = attrs[i].1.as_str();
        proof {
            assert(model[i as int] == attrs@[i as int].deep_view());
            assert(model.take(i + 1).drop_last() =~= model.take(i as int));
        }
        if !full && str_eq(k, "xml:space") {
        } else if !full && is_lvltext(name) && str_eq(k, "w:val") {
            set_attr(&mut map, owned(k), String::new());
        } else {
            set_attr(&mut map, owned(k), owned(v));
        }
        i = i + 1;
    }
    assert(model.take(i as int) =~= model);
    map
}

fn hash_start_like(out: &mut String, full: bool, name: &str, attrs: &Vec<(String, String)>)
    ensures
        final(out)@ == old(out)@ + start_hashed(full, name@, attrs.deep_view()),
{
    let ghost start = out@;
    append(out, "S:");
    append(out, name);
    append(out, "|");
    let ghost head = out@;
    let map: Vec<(String, String)> = sorted_attrs(full, name, attrs);
    let ghost model = map.deep_view();
    let mut i: usize = 0;
    assert(model.take(0) =~= Seq::<(Seq<char>, Seq<char>)>::empty());
    assert(head + attrs_hashed_text(model.take(0)) =~= head);
    while i < map.len()
        invariant
            i <= map@.len(),
            model == map.deep_view(),
            out@ == head + attrs_hashed_text(model.take(i as int)),
        decreases map@.len() - i,
    {
        let ghost before = attrs_hashed_text(model.take(i as int));
        append(out, map[i].0.as_str());
        append(out, "=");
        append(out, map[i].1.as_str());
        append(out, ";");
        i = i + 1;
        proof {
            let kv = model[i - 1];
            assert(kv == map@[i - 1].deep_view());
            assert(model.take(i as int).drop_last() =~= model.take(i - 1));
            assert(head + before + kv.0 + "="@ + kv.1 + ";"@ =~= head + (before + kv.0 + "="@ + kv.1
                + ";"@));
        }
    }
    append(out, "\n");
    proof {
        assert(model.take(i as int) =~= model);
        assert(start + "S:"@ + name@ + "|"@ + attrs_hashed_text(model) + "\n"@ =~= start + ("S:"@
            + name@ + "|"@ + attrs_hashed_text(model) + "\n"@));
    }
}

fn hash_end_like(out: &mut String, name: &str)
    ensures
        final(out)@ == old(out)@ + end_hashed(name@),
{
    append3(out, "E:", name, "\n");
}

fn hash_other(out: &mut String, ev: &XmlEvent)
    ensures
        final(out)@ == old(out)@ + other_hashed(ev.deep_view()),
{
    let ghost start = out@;
    match ev {
        XmlEvent::Decl { version, encoding, standalone } => {
            append(out, "D:");
            append(out, version.as_str());
            append(out, "|");
            let ghost a = out@;
            if let Some(e) = encoding {
                append(out, e.as_str());
            }
            proof {
                assert(a + Seq::<char>::empty() =~= a);
            }
            append(out, "|");
            let ghost b = out@;
            if let Some(s) = standalone {
                append(out, s.as_str());
            }
            proof {
                assert(b + Seq::<char>::empty() =~= b);
            }
            append(out, "\n");
            proof {
                let e = match encoding {
                    Some(e) => e@,
                    None => Seq::empty(),
                };
                let s = match standalone {
                    Some(s) => s@,
                    None => Seq::empty(),
                };
                assert(start + "D:"@ + version@ + "|"@ + e + "|"@ + s + "\n"@ =~= start + ("D:"@
                    + version@ + "|"@ + e + "|"@ + s + "\n"@));
            }
        },
        XmlEvent::CData { text } => append3(out, "C:", text.as_str(), "\n"),
        XmlEvent::Comment { text } => append3(out, "M:", text.as_str(), "\n"),
        XmlEvent::PI { content } => append3(out, "P:", content.as_str(), "\n"),
        XmlEvent::DocType { text } => append3(out, "Y:", text.as_str(), "\n"),
        _ => {
            assert(start + Seq::<char>::empty() =~= start);
        },
    }
}

/// The text that a hash is taken of.
fn hash_input(full: bool, events: &Vec<XmlEvent>) -> (r: String)
    ensures
        r@ == hash_run(full, events.deep_view()).text,
{
    let mut out: String = String::new();
    let mut stack: Vec<String> = Vec::new();
    let ghost model = events.deep_view();
    let mut i: usize = 0;
    assert(model.take(0) =~= Seq::<EventV>::empty());
    assert(stack.deep_view() =~= Seq::<Seq<char>>::empty());
    while i < events.len()
        invariant
            i <= events@.len(),
            model == events.deep_view(),
            out@ == hash_run(full, model.take(i as int)).text,
            stack.deep_view() == hash_run(full, model.take(i as int)).stack,
        decreases events@.len() - i,
    {
        proof {
            assert(model[i as int] == events@[i as int].deep_view());
            assert(model.take(i + 1).drop_last() =~= model.take(i as int));
        }
        match &events[i] {
            XmlEvent::Start { name, attrs } => {
                push_deep(&mut stack, name.clone());
                hash_start_like(&mut out, full, name.as_str(), attrs);
            },
            XmlEvent::Empty { name, attrs } => {
                hash_start_like(&mut out, full, name.as_str(), attrs);
                hash_end_like(&mut out, name.as_str());
            },
            XmlEvent::End { name } => {
                hash_end_like(&mut out, name.as_str());
                let _ = pop_deep(&mut stack);
            },
            XmlEvent::Text { text } => {
                let cur: &str = top_of(&stack);
                if full {
                    append3(&mut out, "T:", cur, "|");
                    append(&mut out, text.as_str());
                    let ghost a = out@;
                    append(&mut out, "\n");
                    proof {
                        let st = hash_run(full, model.take(i as int));
                        assert(st.text + ("T:"@ + top(st.stack) + "|"@) + text@ + "\n"@ =~= st.text + (
                        "T:"@ + top(st.stack) + "|"@) + (text@ + "\n"@));
                    }
                } else if !is_text_tag(cur) {
                    append3(&mut out, "T:", text.as_str(), "\n");
                }
            },
            _ => hash_other(&mut out, &events[i]),
        }
        i = i + 1;
    }
    assert(model.take(i as int) =~= model);
    out
}

fn structure_hash(events: &Vec<XmlEvent>) -> (r: String)
    ensures
        r@ == structure_hash_of(events.deep_view()),
{
    let input: String = hash_input(false, events);
    sha256_hex_bytes(input.as_str().as_bytes())
}

/// The hash of everything in a part: tags, attributes, and texts with the tag round them.
pub fn full_hash(events: &Vec<XmlEvent>) -> (r: String)
    ensures
        r@ == full_hash_of(events.deep_view()),
{
    let input: String = hash_input(true, events);
    sha256_hex_bytes(input.as_str().as_bytes())
}

/// A part whose structure is not the one it was read with.
#[derive(Clone, Debug)]
pub struct StructureChanged {
    pub name: String,
    pub baseline: String,
    pub current: String,
}

/// Succeeds where the structure of a part has the hash that it was read with.
pub fn verify_structure_unchanged(part: &XmlPart) -> (r: Result<(), StructureChanged>)
    ensures
        r is Ok <==> part.baseline_hash@ == structure_hash_of(part.deep_view().events),
        r is Err ==> r->Err_0.name@ == part.name@ && r->Err_0.baseline@ == part.baseline_hash@
            && r->Err_0.current@ == structure_hash_of(part.deep_view().events),
{
    let cur: String = structure_hash(&part.events);
    if !str_eq(cur.as_str(), part.baseline_hash.as_str()) {
        return Err(
            StructureChanged {
                name: part.name.clone(),
                baseline: part.baseline_hash.clone(),
                current: cur,
            },
        );
    }
    Ok(())
}


/// The tags that are open after a sequence of events, the innermost last.
pub open spec fn open_tags(events: Seq<EventV>) -> Seq<Seq<char>>
    decreases events.len(),
{
    if events.len() == 0 {
        Seq::empty()
    } else {
        let before = open_tags(events.drop_last());
        match events.last() {
            EventV::Start { name, .. } => before.push(name),
            EventV::End { .. } => popped(before),
            _ => before,
        }
    }
}

pub(crate) proof fn lemma_hash_stack(full: bool, events: Seq<EventV>)
    ensures
        hash_run(full, events).stack == open_tags(events),
    decreases events.len(),
{
    if events.len() > 0 {
        lemma_hash_stack(full, events.drop_last());
    }
}

/// Whether two events differ only in the document's text, in `xml:space`, or in the text of a
/// list level. `tag` is the innermost tag that is open before them.
pub open spec fn alike(a: EventV, b: EventV, tag: Seq<char>) -> bool {
    ||| a == b
    ||| a is Text && b is Text && text_tag(tag)
    ||| {
        &&& a is Start && b is Start && a->Start_name == b->Start_name
        &&& hashed_attrs(false, a->Start_name, a->Start_attrs) == hashed_attrs(
            false,
            a->Start_name,
            b->Start_attrs,
        )
    }
    ||| {
        &&& a is Empty && b is Empty && a->Empty_name == b->Empty_name
        &&& hashed_attrs(false, a->Empty_name, a->Empty_attrs) == hashed_attrs(
            false,
            a->Empty_name,
            b->Empty_attrs,
        )
    }
}

/// Whether two sequences of events have the same structure.
pub open spec fn same_structure(a: Seq<EventV>, b: Seq<EventV>) -> bool {
    &&& a.len() == b.len()
    &&& forall|i: int|
        0 <= i < a.len() ==> alike(#[trigger] a[i], b[i], top(open_tags(a.take(i))))
}

/// Parts that differ only in the document's text, in `xml:space` or in the text of list levels
/// have the same structure hash.
pub proof fn law_structure_hash_ignores_text(a: Seq<EventV>, b: Seq<EventV>)
    requires
        same_structure(a, b),
    ensures
        structure_hash_of(a) == structure_hash_of(b),
{
    lemma_same_hash_run(a, b);
}

proof fn lemma_same_hash_run(a: Seq<EventV>, b: Seq<EventV>)
    requires
        same_structure(a, b),
    ensures
        hash_run(false, a) == hash_run(false, b),
    decreases a.len(),
{
    if a.len() > 0 {
        let x = a.drop_last();
        let y = b.drop_last();
        assert(same_structure(x, y)) by {
            assert forall|i: int| 0 <= i < x.len() implies alike(
                #[trigger] x[i],
                y[i],
                top(open_tags(x.take(i))),
            ) by {
                assert(x.take(i) =~= a.take(i));
                assert(a[i] == x[i] && b[i] == y[i]);
            }
        }
        lemma_same_hash_run(x, y);
        lemma_hash_stack(false, x);
        let n = a.len() - 1;
        assert(a.take(n) =~= x);
        assert(alike(a[n], b[n], top(open_tags(a.take(n)))));
    }
}

/// Setting the text of an event inside a text tag keeps the structure.
pub proof fn law_set_text_keeps_structure(events: Seq<EventV>, i: int, t: Seq<char>)
    requires
        0 <= i < events.len(),
        events[i] is Text,
        text_tag(top(open_tags(events.take(i)))),
    ensures
        structure_hash_of(events.update(i, EventV::Text { text: t })) == structure_hash_of(events),
{
    let b = events.update(i, EventV::Text { text: t });
    assert(same_structure(events, b));
    law_structure_hash_ignores_text(events, b);
}


/// A copy of a list of attributes.
pub fn clone_attrs(attrs: &Vec<(String, String)>) -> (r: Vec<(String, String)>)
    ensures
        r.deep_view() == attrs.deep_view(),
{
    let ghost model = attrs.deep_view();
    let mut out: Vec<(String, String)> = Vec::new();
    let mut i: usize = 0;
    assert(out.deep_view() =~= model.take(0));
    while i < attrs.len()
        invariant
            i <= attrs@.len(),
            model == attrs.deep_view(),
            out.deep_view() == model.take(i as int),
        decreases attrs@.len() - i,
    {
        assert(model[i as int] == attrs@[i as int].deep_view());
        push_deep(&mut out, (attrs[i].0.clone(), attrs[i].1.clone()));
        i = i + 1;
        assert(model.take(i as int) =~= model.take(i - 1).push(model[i - 1]));
    }
    assert(model.take(i as int) =~= model);
    out
}

/// A copy of an event.
pub fn clone_event(ev: &XmlEvent) -> (r: XmlEvent)
    ensures
        r.deep_view() == ev.deep_view(),
{
    match ev {
        XmlEvent::Decl { version, encoding, standalone } => XmlEvent::Decl {
            version: version.clone(),
            encoding: clone_opt(encoding),
            standalone: clone_opt(standalone),
        },
        XmlEvent::Start { name, attrs } => XmlEvent::Start {
            name: name.clone(),
            attrs: clone_attrs(attrs),
        },
        XmlEvent::End { name } => XmlEvent::End { name: name.clone() },
        XmlEvent::Empty { name, attrs } => XmlEvent::Empty {
            name: name.clone(),
            attrs: clone_attrs(attrs),
        },
        XmlEvent::Text { text } => XmlEvent::Text { text: text.clone() },
        XmlEvent::CData { text } => XmlEvent::CData { text: text.clone() },
        XmlEvent::Comment { text } => XmlEvent::Comment { text: text.clone() },
        XmlEvent::PI { content } => XmlEvent::PI { content: content.clone() },
        XmlEvent::DocType { text } => XmlEvent::DocType { text: text.clone() },
    }
}

} // verus!
