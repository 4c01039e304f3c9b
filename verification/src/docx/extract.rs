//! The units of translation of a part: its paragraphs and its list levels.

use crate::chars::{
    append, ascii_lower, blank, dec, dec_usize, lower_ascii, owned, str_eq, trim, trimmed,
};
use crate::docx::error::DocxError;
use crate::docx::pure_text::{attr, find_attr};
use crate::docx::xml::{AttrsV, EventV, XmlEvent, XmlPart};
use crate::ir::{
    clone_node, Atom, AtomKind, AtomV, FormatSpan, NodeV, SpanV, TextNodeKind,
    TextNodeRef, TranslationUnit, UnitV,
};
use crate::sentinels::{BR, NBH, SHY, TAB};
use crate::vecs::{pop_deep, popped, push_deep};
use vstd::prelude::*;

verus! {

/// The properties of a run of a document.
struct WRunStyle {
    b: Option<bool>,
    i: Option<bool>,
    u: Option<String>,
    strike: Option<bool>,
    color: Option<String>,
    highlight: Option<String>,
    sz: Option<String>,
    sz_cs: Option<String>,
    r_style: Option<String>,
    fonts_ascii: Option<String>,
    fonts_hansi: Option<String>,
    fonts_eastasia: Option<String>,
    fonts_cs: Option<String>,
    seen_rpr: bool,
}

/// The model of the properties of a run of a document.
#[verifier::ext_equal]
pub struct WStyleV {
    pub b: Option<bool>,
    pub i: Option<bool>,
    pub u: Option<Seq<char>>,
    pub strike: Option<bool>,
    pub color: Option<Seq<char>>,
    pub highlight: Option<Seq<char>>,
    pub sz: Option<Seq<char>>,
    pub sz_cs: Option<Seq<char>>,
    pub r_style: Option<Seq<char>>,
    pub fonts_ascii: Option<Seq<char>>,
    pub fonts_hansi: Option<Seq<char>>,
    pub fonts_eastasia: Option<Seq<char>>,
    pub fonts_cs: Option<Seq<char>>,
    pub seen: bool,
}

impl DeepView for WRunStyle {
    type V = WStyleV;

    closed spec fn deep_view(&self) -> WStyleV {
        WStyleV {
            b: self.b,
            i: self.i,
            u: self.u.deep_view(),
            strike: self.strike,
            color: self.color.deep_view(),
            highlight: self.highlight.deep_view(),
            sz: self.sz.deep_view(),
            sz_cs: self.sz_cs.deep_view(),
            r_style: self.r_style.deep_view(),
            fonts_ascii: self.fonts_ascii.deep_view(),
            fonts_hansi: self.fonts_hansi.deep_view(),
            fonts_eastasia: self.fonts_eastasia.deep_view(),
            fonts_cs: self.fonts_cs.deep_view(),
            seen: self.seen_rpr,
        }
    }
}

/// A run of a document without properties.
pub open spec fn plain_w() -> WStyleV {
    WStyleV {
        b: None,
        i: None,
        u: None,
        strike: None,
        color: None,
        highlight: None,
        sz: None,
        sz_cs: None,
        r_style: None,
        fonts_ascii: None,
        fonts_hansi: None,
        fonts_eastasia: None,
        fonts_cs: None,
        seen: false,
    }
}

/// A text that may be absent.
pub open spec fn or_empty(o: Option<Seq<char>>) -> Seq<char> {
    match o {
        Some(s) => s,
        None => Seq::empty(),
    }
}

/// A flag that may be absent.
pub open spec fn flag_sig(o: Option<bool>) -> Seq<char> {
    if o == Some(true) {
        "1"@
    } else {
        "0"@
    }
}

/// The text by which runs of one style are told.
pub open spec fn w_signature(st: WStyleV) -> Seq<char> {
    if !st.seen {
        "w:rPr()"@
    } else {
        "b="@ + flag_sig(st.b) + "|i="@ + flag_sig(st.i) + "|u="@ + or_empty(st.u) + "|strike="@
            + flag_sig(st.strike) + "|color="@ + or_empty(st.color) + "|highlight="@ + or_empty(
            st.highlight,
        ) + "|sz="@ + or_empty(st.sz) + "|szCs="@ + or_empty(st.sz_cs) + "|rStyle="@ + or_empty(
            st.r_style,
        ) + "|fonts="@ + or_empty(st.fonts_ascii) + "|"@ + or_empty(st.fonts_hansi) + "|"@
            + or_empty(st.fonts_eastasia) + "|"@ + or_empty(st.fonts_cs)
    }
}

fn append_opt(out: &mut String, o: &Option<String>)
    ensures
        final(out)@ == old(out)@ + or_empty(o.deep_view()),
{
    match o {
        Some(s) => append(out, s.as_str()),
        None => {
            assert(out@ + Seq::<char>::empty() =~= out@);
        },
    }
}

fn bool_to_sig(v: Option<bool>) -> (r: &'static str)
    ensures
        r@ == flag_sig(v),
{
    match v {
        Some(true) => "1",
        _ => "0",
    }
}

/// Whether the value of an on-off property switches it on.
pub open spec fn w_bool(attrs: AttrsV) -> bool {
    match attr(attrs, "w:val"@) {
        Some(v) => {
            let s = ascii_lower(trimmed(v));
            !(s == "0"@ || s == "false"@ || s == "off"@ || s == "none"@)
        },
        None => true,
    }
}

fn parse_w_bool(attrs: &Vec<(String, String)>) -> (r: bool)
    ensures
        r == w_bool(attrs.deep_view()),
{
    match find_attr(attrs, "w:val") {
        Some(v) => {
            let t: String = trim(v);
            let s: String = lower_ascii(t.as_str());
            !(str_eq(s.as_str(), "0") || str_eq(s.as_str(), "false") || str_eq(s.as_str(), "off")
                || str_eq(s.as_str(), "none"))
        },
        None => true,
    }
}

/// The properties of a run after one more property tag.
pub open spec fn w_property(st: WStyleV, name: Seq<char>, attrs: AttrsV) -> WStyleV {
    if name == "w:b"@ {
        WStyleV { b: Some(w_bool(attrs)), ..st }
    } else if name == "w:i"@ {
        WStyleV { i: Some(w_bool(attrs)), ..st }
    } else if name == "w:strike"@ {
        WStyleV { strike: Some(w_bool(attrs)), ..st }
    } else if name == "w:u"@ {
        WStyleV { u: attr(attrs, "w:val"@), ..st }
    } else if name == "w:color"@ {
        WStyleV { color: attr(attrs, "w:val"@), ..st }
    } else if name == "w:highlight"@ {
        WStyleV { highlight: attr(attrs, "w:val"@), ..st }
    } else if name == "w:sz"@ {
        WStyleV { sz: attr(attrs, "w:val"@), ..st }
    } else if name == "w:szCs"@ {
        WStyleV { sz_cs: attr(attrs, "w:val"@), ..st }
    } else if name == "w:rStyle"@ {
        WStyleV { r_style: attr(attrs, "w:val"@), ..st }
    } else if name == "w:rFonts"@ {
        WStyleV {
            fonts_ascii: attr(attrs, "w:ascii"@),
            fonts_hansi: attr(attrs, "w:hAnsi"@),
            fonts_eastasia: attr(attrs, "w:eastAsia"@),
            fonts_cs: attr(attrs, "w:cs"@),
            ..st
        }
    } else {
        st
    }
}

fn attr_owned(attrs: &Vec<(String, String)>, key: &str) -> (r: Option<String>)
    ensures
        r.deep_view() == attr(attrs.deep_view(), key@),
{
    match find_attr(attrs, key) {
        Some(v) => Some(owned(v)),
        None => None,
    }
}

fn parse_w_rpr_property(style: &mut WRunStyle, name: &str, attrs: &Vec<(String, String)>)
    ensures
        final(style).deep_view() == w_property(old(style).deep_view(), name@, attrs.deep_view()),
{
    if str_eq(name, "w:b") {
        style.b = Some(parse_w_bool(attrs));
    } else if str_eq(name, "w:i") {
        style.i = Some(parse_w_bool(attrs));
    } else if str_eq(name, "w:strike") {
        style.strike = Some(parse_w_bool(attrs));
    } else if str_eq(name, "w:u") {
        style.u = attr_owned(attrs, "w:val");
    } else if str_eq(name, "w:color") {
        style.color = attr_owned(attrs, "w:val");
    } else if str_eq(name, "w:highlight") {
        style.highlight = attr_owned(attrs, "w:val");
    } else if str_eq(name, "w:sz") {
        style.sz = attr_owned(attrs, "w:val");
    } else if str_eq(name, "w:szCs") {
        style.sz_cs = attr_owned(attrs, "w:val");
    } else if str_eq(name, "w:rStyle") {
        style.r_style = attr_owned(attrs, "w:val");
    } else if str_eq(name, "w:rFonts") {
        style.fonts_ascii = attr_owned(attrs, "w:ascii");
        style.fonts_hansi = attr_owned(attrs, "w:hAnsi");
        style.fonts_eastasia = attr_owned(attrs, "w:eastAsia");
        style.fonts_cs = attr_owned(attrs, "w:cs");
    }
    assert(style.deep_view() =~= w_property(old(style).deep_view(), name@, attrs.deep_view()));
}

impl WRunStyle {
    fn new() -> (r: WRunStyle)
        ensures
            r.deep_view() == plain_w(),
    {
        let r = WRunStyle {
            b: None,
            i: None,
            u: None,
            strike: None,
            color: None,
            highlight: None,
            sz: None,
            sz_cs: None,
            r_style: None,
            fonts_ascii: None,
            fonts_hansi: None,
            fonts_eastasia: None,
            fonts_cs: None,
            seen_rpr: false,
        };
        assert(r.deep_view() =~= plain_w());
        r
    }

    fn signature(&self) -> (r: String)
        ensures
            r@ == w_signature(self.deep_view()),
    {
        if !self.seen_rpr {
            return owned("w:rPr()");
        }
        let mut s: String = owned("b=");
        append(&mut s, bool_to_sig(self.b));
        append(&mut s, "|i=");
        append(&mut s, bool_to_sig(self.i));
        append(&mut s, "|u=");
        append_opt(&mut s, &self.u);
        append(&mut s, "|strike=");
        append(&mut s, bool_to_sig(self.strike));
        append(&mut s, "|color=");
        append_opt(&mut s, &self.color);
        append(&mut s, "|highlight=");
        append_opt(&mut s, &self.highlight);
        append(&mut s, "|sz=");
        append_opt(&mut s, &self.sz);
        append(&mut s, "|szCs=");
        append_opt(&mut s, &self.sz_cs);
        append(&mut s, "|rStyle=");
        append_opt(&mut s, &self.r_style);
        append(&mut s, "|fonts=");
        append_opt(&mut s, &self.fonts_ascii);
        append(&mut s, "|");
        append_opt(&mut s, &self.fonts_hansi);
        append(&mut s, "|");
        append_opt(&mut s, &self.fonts_eastasia);
        append(&mut s, "|");
        append_opt(&mut s, &self.fonts_cs);
        s
    }
}

/// The properties of a run of a drawing.
struct ARunStyle {
    b: Option<String>,
    i: Option<String>,
    u: Option<String>,
    strike: Option<String>,
    sz: Option<String>,
    typeface: Option<String>,
    seen_rpr: bool,
}

/// The model of the properties of a run of a drawing.
#[verifier::ext_equal]
pub struct AStyleV {
    pub b: Option<Seq<char>>,
    pub i: Option<Seq<char>>,
    pub u: Option<Seq<char>>,
    pub strike: Option<Seq<char>>,
    pub sz: Option<Seq<char>>,
    pub typeface: Option<Seq<char>>,
    pub seen: bool,
}

impl DeepView for ARunStyle {
    type V = AStyleV;

    closed spec fn deep_view(&self) -> AStyleV {
        AStyleV {
            b: self.b.deep_view(),
            i: self.i.deep_view(),
            u: self.u.deep_view(),
            strike: self.strike.deep_view(),
            sz: self.sz.deep_view(),
            typeface: self.typeface.deep_view(),
            seen: self.seen_rpr,
        }
    }
}

/// A run of a drawing without properties.
pub open spec fn plain_a() -> AStyleV {
    AStyleV { b: None, i: None, u: None, strike: None, sz: None, typeface: None, seen: false }
}

/// The text by which runs of one style are told.
pub open spec fn a_signature(st: AStyleV) -> Seq<char> {
    if !st.seen {
        "a:rPr()"@
    } else {
        "b="@ + or_empty(st.b) + "|i="@ + or_empty(st.i) + "|u="@ + or_empty(st.u) + "|strike="@
            + or_empty(st.strike) + "|sz="@ + or_empty(st.sz) + "|typeface="@ + or_empty(
            st.typeface,
        )
    }
}

/// The properties of a run after the attributes of its property tag.
pub open spec fn a_attrs(st: AStyleV, attrs: AttrsV) -> AStyleV
    decreases attrs.len(),
{
    if attrs.len() == 0 {
        st
    } else {
        let before = a_attrs(st, attrs.drop_last());
        let (k, v) = attrs.last();
        if k == "b"@ {
            AStyleV { b: Some(v), ..before }
        } else if k == "i"@ {
            AStyleV { i: Some(v), ..before }
        } else if k == "u"@ {
            AStyleV { u: Some(v), ..before }
        } else if k == "strike"@ {
            AStyleV { strike: Some(v), ..before }
        } else if k == "sz"@ {
            AStyleV { sz: Some(v), ..before }
        } else {
            before
        }
    }
}

impl ARunStyle {
    fn new() -> (r: ARunStyle)
        ensures
            r.deep_view() == plain_a(),
    {
        let r = ARunStyle {
            b: None,
            i: None,
            u: None,
            strike: None,
            sz: None,
            typeface: None,
            seen_rpr: false,
        };
        assert(r.deep_view() =~= plain_a());
        r
    }

    fn signature(&self) -> (r: String)
        ensures
            r@ == a_signature(self.deep_view()),
    {
        if !self.seen_rpr {
            return owned("a:rPr()");
        }
        let mut s: String = owned("b=");
        append_opt(&mut s, &self.b);
        append(&mut s, "|i=");
        append_opt(&mut s, &self.i);
        append(&mut s, "|u=");
        append_opt(&mut s, &self.u);
        append(&mut s, "|strike=");
        append_opt(&mut s, &self.strike);
        append(&mut s, "|sz=");
        append_opt(&mut s, &self.sz);
        append(&mut s, "|typeface=");
        append_opt(&mut s, &self.typeface);
        s
    }

    fn read_attrs(&mut self, attrs: &Vec<(String, String)>)
        ensures
            final(self).deep_view() == a_attrs(old(self).deep_view(), attrs.deep_view()),
    {
        let ghost start = self.deep_view();
        let ghost model = attrs.deep_view();
        let mut n: usize = 0;
        assert(model.take(0) =~= Seq::<(Seq<char>, Seq<char>)>::empty());
        while n < attrs.len()
            invariant
                n <= attrs@.len(),
                model == attrs.deep_view(),
                self.deep_view() == a_attrs(start, model.take(n as int)),
            decreases attrs@.len() - n,
        {
            let ghost before = self.deep_view();
            assert(model.take(n + 1).drop_last() =~= model.take(n as int));
            assert(model.take(n + 1).last() == attrs@[n as int].deep_view());
            let k: &str = attrs[n].0.as_str();
            let v: String = attrs[n].1.clone();
            if str_eq(k, "b") {
                self.b = Some(v);
            } else if str_eq(k, "i") {
                self.i = Some(v);
            } else if str_eq(k, "u") {
                self.u = Some(v);
            } else if str_eq(k, "strike") {
                self.strike = Some(v);
            } else if str_eq(k, "sz") {
                self.sz = Some(v);
            }
            n = n + 1;
            assert(self.deep_view() =~= a_attrs(start, model.take(n as int)));
        }
        assert(model.take(n as int) =~= model);
    }
}

/// The state of gathering adjacent texts of one style.
#[verifier::ext_equal]
pub struct SpansV {
    pub spans: Seq<SpanV>,
    pub style: Option<Seq<char>>,
    pub nodes: Seq<NodeV>,
    pub text: Seq<char>,
}

/// The state after the span at hand is complete.
pub open spec fn spans_flushed(st: SpansV) -> SpansV {
    SpansV {
        spans: if st.nodes.len() > 0 {
            st.spans.push(
                SpanV { style_sig: or_empty(st.style), node_refs: st.nodes, source_text: st.text },
            )
        } else {
            st.spans
        },
        style: None,
        nodes: Seq::empty(),
        text: Seq::empty(),
    }
}

/// The state after one more atom. A control marker, or a text of another style, completes the span.
pub open spec fn spans_step(st: SpansV, a: AtomV) -> SpansV {
    if a.kind != AtomKind::Text {
        spans_flushed(st)
    } else {
        let cur = if st.style == Some(a.style_sig) {
            st
        } else {
            SpansV { style: Some(a.style_sig), ..spans_flushed(st) }
        };
        match a.node_ref {
            Some(n) => SpansV { nodes: cur.nodes.push(n), text: cur.text + a.value, ..cur },
            None => cur,
        }
    }
}

/// The state after a sequence of atoms.
pub open spec fn spans_run(atoms: Seq<AtomV>) -> SpansV
    decreases atoms.len(),
{
    if atoms.len() == 0 {
        SpansV { spans: Seq::empty(), style: None, nodes: Seq::empty(), text: Seq::empty() }
    } else {
        spans_step(spans_run(atoms.drop_last()), atoms.last())
    }
}

/// The spans of a sequence of atoms.
pub open spec fn spans_of(atoms: Seq<AtomV>) -> Seq<SpanV> {
    spans_flushed(spans_run(atoms)).spans
}

struct SpanBuilder {
    spans: Vec<FormatSpan>,
    style: Option<String>,
    nodes: Vec<TextNodeRef>,
    text: String,
}

impl DeepView for SpanBuilder {
    type V = SpansV;

    closed spec fn deep_view(&self) -> SpansV {
        SpansV {
            spans: self.spans.deep_view(),
            style: self.style.deep_view(),
            nodes: self.nodes.deep_view(),
            text: self.text@,
        }
    }
}

impl SpanBuilder {
    fn flush(&mut self)
        ensures
            final(self).deep_view() == spans_flushed(old(self).deep_view()),
    {
        let ghost before = self.deep_view();
        let mut nodes: Vec<TextNodeRef> = Vec::new();
        let mut text: String = String::new();
        std::mem::swap(&mut nodes, &mut self.nodes);
        std::mem::swap(&mut text, &mut self.text);
        let style = self.style.take();
        if nodes.len() > 0 {
            let style_sig: String = match style {
                Some(s) => s,
                None => String::new(),
            };
            push_deep(
                &mut self.spans,
                FormatSpan { style_sig, node_refs: nodes, source_text: text },
            );
        }
        assert(self.deep_view() =~= spans_flushed(before));
    }

    fn step(&mut self, a: &Atom)
        ensures
            final(self).deep_view() == spans_step(old(self).deep_view(), a.deep_view()),
    {
        let ghost before = self.deep_view();
        if a.kind != AtomKind::Text {
            self.flush();
        } else {
            let same: bool = match &self.style {
                Some(s) => str_eq(s.as_str(), a.style_sig.as_str()),
                None => false,
            };
            if !same {
                self.flush();
                self.style = Some(a.style_sig.clone());
            }
            if let Some(n) = &a.node_ref {
                push_deep(&mut self.nodes, clone_node(n));
                append(&mut self.text, a.value.as_str());
            }
        }
        assert(self.deep_view() =~= spans_step(before, a.deep_view()));
    }
}

fn build_spans(atoms: &Vec<Atom>) -> (r: Vec<FormatSpan>)
    ensures
        r.deep_view() == spans_of(atoms.deep_view()),
{
    let mut st = SpanBuilder {
        spans: Vec::new(),
        style: None,
        nodes: Vec::new(),
        text: String::new(),
    };
    let ghost model = atoms.deep_view();
    let mut i: usize = 0;
    assert(model.take(0) =~= Seq::<AtomV>::empty());
    assert(st.deep_view() =~= spans_run(model.take(0)));
    while i < atoms.len()
        invariant
            i <= atoms@.len(),
            model == atoms.deep_view(),
            st.deep_view() == spans_run(model.take(i as int)),
        decreases atoms@.len() - i,
    {
        assert(model.take(i + 1).drop_last() =~= model.take(i as int));
        st.step(&atoms[i]);
        i = i + 1;
    }
    assert(model.take(i as int) =~= model);
    st.flush();
    st.spans
}


/// A unit that nothing was done with yet.
pub open spec fn fresh_unit(
    tu_id: nat,
    part_name: Seq<char>,
    scope_key: Seq<char>,
    para_style: Option<Seq<char>>,
    atoms: Seq<AtomV>,
    spans: Seq<SpanV>,
    source_surface: Seq<char>,
) -> UnitV {
    UnitV {
        tu_id,
        part_name,
        scope_key,
        para_style,
        atoms,
        spans,
        source_surface,
        frozen_surface: Seq::empty(),
        nt_map: Seq::empty(),
        nt_mask: Seq::empty(),
        draft_translation: None,
        final_translation: None,
        alt_translation: None,
        draft_translation_model: None,
        alt_translation_model: None,
        qe_score: None,
        qe_flags: Seq::empty(),
    }
}

/// The text of a sequence of atoms, with markers for the controls.
pub open spec fn surface(atoms: Seq<AtomV>) -> Seq<char>
    decreases atoms.len(),
{
    if atoms.len() == 0 {
        Seq::empty()
    } else {
        surface(atoms.drop_last()) + atoms.last().value
    }
}

/// Whether one of the atoms is a text that is not blank.
pub open spec fn has_text(atoms: Seq<AtomV>) -> bool {
    exists|i: int|
        0 <= i < atoms.len() && (#[trigger] atoms[i]).kind == AtomKind::Text && trimmed(
            atoms[i].value,
        ).len() > 0
}

/// The key of the unit that the event `start` of a part opens.
pub open spec fn unit_key(part_name: Seq<char>, tag: Seq<char>, start: nat) -> Seq<char> {
    part_name + "#"@ + tag + "@"@ + dec(start)
}

/// The units with one more for a paragraph, unless it holds no text.
pub open spec fn with_unit(
    units: Seq<UnitV>,
    first_id: nat,
    part_name: Seq<char>,
    tag: Seq<char>,
    start: nat,
    atoms: Seq<AtomV>,
    style: Option<Seq<char>>,
) -> Seq<UnitV> {
    if !has_text(atoms) {
        units
    } else {
        units.push(
            fresh_unit(
                first_id + units.len(),
                part_name,
                unit_key(part_name, tag, start),
                style,
                atoms,
                spans_of(atoms),
                surface(atoms),
            ),
        )
    }
}

/// The node of an attribute.
pub open spec fn attr_node(part_name: Seq<char>, idx: nat, val: Seq<char>) -> NodeV {
    NodeV {
        part_name,
        kind: TextNodeKind::Attr,
        elem_event_index: idx,
        text_event_index: None,
        attr_name: Some("w:val"@),
        original_text: val,
    }
}

/// The units with one more for the text of a list level.
pub open spec fn with_attr_unit(
    units: Seq<UnitV>,
    first_id: nat,
    part_name: Seq<char>,
    idx: nat,
    val: Seq<char>,
) -> Seq<UnitV> {
    let node = attr_node(part_name, idx, val);
    let atom = AtomV {
        kind: AtomKind::Text,
        node_ref: Some(node),
        value: val,
        style_sig: "attr"@,
    };
    let span = SpanV { style_sig: "attr"@, node_refs: seq![node], source_text: val };
    units.push(
        fresh_unit(
            first_id + units.len(),
            part_name,
            unit_key(part_name, "w:lvlText"@, idx),
            None,
            seq![atom],
            seq![span],
            val,
        ),
    )
}

/// The state of reading the units of a part.
#[verifier::ext_equal]
pub struct UnitsV {
    pub units: Seq<UnitV>,
    pub in_w_p: bool,
    pub in_a_p: bool,
    pub start: nat,
    pub atoms: Seq<AtomV>,
    pub style: Option<Seq<char>>,
    pub w_runs: Seq<WStyleV>,
    pub a_runs: Seq<AStyleV>,
    pub in_w_rpr: bool,
    pub in_a_rpr: bool,
    pub text_elem: Option<(TextNodeKind, nat)>,
}

/// `s` with its last item replaced, if it has one.
pub open spec fn with_last<A>(s: Seq<A>, x: A) -> Seq<A> {
    if s.len() > 0 {
        s.update(s.len() - 1, x)
    } else {
        s
    }
}

/// A starting tag may open a paragraph.
pub open spec fn start_paragraph(st: UnitsV, idx: nat, name: Seq<char>) -> UnitsV {
    if name == "w:p"@ {
        UnitsV { in_w_p: true, in_a_p: false, start: idx, atoms: Seq::empty(), style: None, ..st }
    } else if name == "a:p"@ {
        UnitsV { in_a_p: true, in_w_p: false, start: idx, atoms: Seq::empty(), style: None, ..st }
    } else {
        st
    }
}

/// A tag may name the style of the paragraph.
pub open spec fn paragraph_style(st: UnitsV, name: Seq<char>, attrs: AttrsV) -> UnitsV {
    match attr(attrs, "w:val"@) {
        Some(v) if st.in_w_p && name == "w:pStyle"@ && trimmed(v).len() > 0 => UnitsV {
            style: Some(trimmed(v)),
            ..st
        },
        _ => st,
    }
}

/// A starting tag may open a run or its properties.
pub open spec fn start_run(st: UnitsV, name: Seq<char>, attrs: AttrsV) -> UnitsV {
    if st.in_w_p && name == "w:r"@ {
        UnitsV { w_runs: st.w_runs.push(plain_w()), ..st }
    } else if st.in_a_p && name == "a:r"@ {
        UnitsV { a_runs: st.a_runs.push(plain_a()), ..st }
    } else if st.in_w_p && name == "w:rPr"@ {
        UnitsV {
            in_w_rpr: true,
            w_runs: with_last(st.w_runs, WStyleV { seen: true, ..st.w_runs.last() }),
            ..st
        }
    } else if st.in_a_p && name == "a:rPr"@ {
        UnitsV {
            in_a_rpr: true,
            a_runs: with_last(
                st.a_runs,
                a_attrs(AStyleV { seen: true, ..st.a_runs.last() }, attrs),
            ),
            ..st
        }
    } else {
        st
    }
}

/// A starting tag may open a text.
pub open spec fn start_text(st: UnitsV, idx: nat, name: Seq<char>) -> UnitsV {
    if (st.in_w_p || st.in_a_p) && name == "w:t"@ {
        UnitsV { text_elem: Some((TextNodeKind::Wt, idx)), ..st }
    } else if (st.in_w_p || st.in_a_p) && name == "a:t"@ {
        UnitsV { text_elem: Some((TextNodeKind::At, idx)), ..st }
    } else {
        st
    }
}

/// A starting tag among the properties of a run is one of them.
pub open spec fn start_property(st: UnitsV, name: Seq<char>, attrs: AttrsV) -> UnitsV {
    let a = if st.in_w_rpr {
        UnitsV { w_runs: with_last(st.w_runs, w_property(st.w_runs.last(), name, attrs)), ..st }
    } else {
        st
    };
    match attr(attrs, "typeface"@) {
        Some(v) if a.in_a_rpr && name == "a:latin"@ => UnitsV {
            a_runs: with_last(a.a_runs, AStyleV { typeface: Some(v), ..a.a_runs.last() }),
            ..a
        },
        _ => a,
    }
}

/// The text of a list level is a unit of its own.
pub open spec fn list_level(
    st: UnitsV,
    first_id: nat,
    part_name: Seq<char>,
    idx: nat,
    name: Seq<char>,
    attrs: AttrsV,
) -> UnitsV {
    match attr(attrs, "w:val"@) {
        Some(v) if name == "w:lvlText"@ && trimmed(v).len() > 0 => UnitsV {
            units: with_attr_unit(st.units, first_id, part_name, idx, v),
            ..st
        },
        _ => st,
    }
}

/// The control that an empty tag stands for.
pub open spec fn control_atom(st: UnitsV, name: Seq<char>) -> Option<AtomV> {
    let kind = if st.in_w_p {
        if name == "w:tab"@ {
            Some((AtomKind::Tab, TAB@))
        } else if name == "w:br"@ || name == "w:cr"@ {
            Some((AtomKind::Br, BR@))
        } else if name == "w:noBreakHyphen"@ {
            Some((AtomKind::Nbh, NBH@))
        } else if name == "w:softHyphen"@ {
            Some((AtomKind::Shy, SHY@))
        } else {
            None
        }
    } else if st.in_a_p {
        if name == "a:tab"@ {
            Some((AtomKind::Tab, TAB@))
        } else if name == "a:br"@ {
            Some((AtomKind::Br, BR@))
        } else {
            None
        }
    } else {
        None
    };
    match kind {
        Some((kind, value)) => Some(
            AtomV { kind, node_ref: None, value, style_sig: Seq::empty() },
        ),
        None => None,
    }
}

/// A closing tag may complete a paragraph.
pub open spec fn end_paragraph(
    st: UnitsV,
    first_id: nat,
    part_name: Seq<char>,
    name: Seq<char>,
) -> UnitsV {
    if st.in_w_p && name == "w:p"@ {
        UnitsV {
            units: with_unit(
                st.units,
                first_id,
                part_name,
                "w:p"@,
                st.start,
                st.atoms,
                st.style,
            ),
            in_w_p: false,
            atoms: Seq::empty(),
            style: None,
            ..st
        }
    } else if st.in_a_p && name == "a:p"@ {
        UnitsV {
            units: with_unit(st.units, first_id, part_name, "a:p"@, st.start, st.atoms, None),
            in_a_p: false,
            atoms: Seq::empty(),
            style: None,
            ..st
        }
    } else {
        st
    }
}

/// A closing tag may close a run, its properties or a text.
pub open spec fn end_run(st: UnitsV, name: Seq<char>) -> UnitsV {
    if st.in_w_p && name == "w:rPr"@ {
        UnitsV { in_w_rpr: false, ..st }
    } else if st.in_a_p && name == "a:rPr"@ {
        UnitsV { in_a_rpr: false, ..st }
    } else if st.in_w_p && name == "w:r"@ {
        UnitsV { w_runs: popped(st.w_runs), ..st }
    } else if st.in_a_p && name == "a:r"@ {
        UnitsV { a_runs: popped(st.a_runs), ..st }
    } else if (st.in_w_p || st.in_a_p) && (name == "w:t"@ || name == "a:t"@) {
        UnitsV { text_elem: None, ..st }
    } else {
        st
    }
}

/// The style of the run that a text stands in.
pub open spec fn text_style(st: UnitsV, kind: TextNodeKind) -> Seq<char> {
    match kind {
        TextNodeKind::Wt => w_signature(
            if st.w_runs.len() > 0 {
                st.w_runs.last()
            } else {
                plain_w()
            },
        ),
        TextNodeKind::At => a_signature(
            if st.a_runs.len() > 0 {
                st.a_runs.last()
            } else {
                plain_a()
            },
        ),
        TextNodeKind::Attr => "attr"@,
    }
}

/// What one event does to the state of reading the units of a part.
pub open spec fn unit_step(
    part_name: Seq<char>,
    first_id: nat,
    st: UnitsV,
    idx: nat,
    ev: EventV,
) -> UnitsV {
    match ev {
        EventV::Start { name, attrs } => {
            let a = paragraph_style(start_paragraph(st, idx, name), name, attrs);
            let b = start_text(start_run(a, name, attrs), idx, name);
            list_level(start_property(b, name, attrs), first_id, part_name, idx, name, attrs)
        },
        EventV::Empty { name, attrs } => {
            let a = paragraph_style(st, name, attrs);
            let b = match control_atom(a, name) {
                Some(atom) => UnitsV { atoms: a.atoms.push(atom), ..a },
                None => a,
            };
            list_level(b, first_id, part_name, idx, name, attrs)
        },
        EventV::End { name } => end_run(end_paragraph(st, first_id, part_name, name), name),
        EventV::Text { text } => match st.text_elem {
            Some((kind, elem)) if st.in_w_p || st.in_a_p => UnitsV {
                atoms: st.atoms.push(
                    AtomV {
                        kind: AtomKind::Text,
                        node_ref: Some(
                            NodeV {
                                part_name,
                                kind,
                                elem_event_index: elem,
                                text_event_index: Some(idx),
                                attr_name: None,
                                original_text: text,
                            },
                        ),
                        value: text,
                        style_sig: text_style(st, kind),
                    },
                ),
                ..st
            },
            _ => st,
        },
        _ => st,
    }
}

/// The state of reading the units of a part after a sequence of events.
pub open spec fn unit_run(part_name: Seq<char>, first_id: nat, events: Seq<EventV>) -> UnitsV
    decreases events.len(),
{
    if events.len() == 0 {
        UnitsV {
            units: Seq::empty(),
            in_w_p: false,
            in_a_p: false,
            start: 0,
            atoms: Seq::empty(),
            style: None,
            w_runs: Seq::empty(),
            a_runs: Seq::empty(),
            in_w_rpr: false,
            in_a_rpr: false,
            text_elem: None,
        }
    } else {
        let before = events.drop_last();
        unit_step(
            part_name,
            first_id,
            unit_run(part_name, first_id, before),
            before.len(),
            events.last(),
        )
    }
}

struct UnitReader {
    units: Vec<TranslationUnit>,
    in_w_p: bool,
    in_a_p: bool,
    start: usize,
    atoms: Vec<Atom>,
    style: Option<String>,
    w_runs: Vec<WRunStyle>,
    a_runs: Vec<ARunStyle>,
    in_w_rpr: bool,
    in_a_rpr: bool,
    text_elem: Option<(TextNodeKind, usize)>,
}

spec fn elem_view(o: Option<(TextNodeKind, usize)>) -> Option<(TextNodeKind, nat)> {
    match o {
        Some((k, n)) => Some((k, n as nat)),
        None => None,
    }
}

impl DeepView for UnitReader {
    type V = UnitsV;

    closed spec fn deep_view(&self) -> UnitsV {
        UnitsV {
            units: self.units.deep_view(),
            in_w_p: self.in_w_p,
            in_a_p: self.in_a_p,
            start: self.start as nat,
            atoms: self.atoms.deep_view(),
            style: self.style.deep_view(),
            w_runs: self.w_runs.deep_view(),
            a_runs: self.a_runs.deep_view(),
            in_w_rpr: self.in_w_rpr,
            in_a_rpr: self.in_a_rpr,
            text_elem: elem_view(self.text_elem),
        }
    }
}

fn any_text(atoms: &Vec<Atom>) -> (r: bool)
    ensures
        r == has_text(atoms.deep_view()),
{
    let ghost model = atoms.deep_view();
    let mut i: usize = 0;
    while i < atoms.len()
        invariant
            i <= atoms@.len(),
            model == atoms.deep_view(),
            forall|j: int|
                0 <= j < i ==> !((#[trigger] model[j]).kind == AtomKind::Text && trimmed(
                    model[j].value,
                ).len() > 0),
        decreases atoms@.len() - i,
    {
        assert(model[i as int] == atoms@[i as int].deep_view());
        if atoms[i].kind == AtomKind::Text && !blank(atoms[i].value.as_str()) {
            return true;
        }
        i = i + 1;
    }
    false
}

fn surface_of(atoms: &Vec<Atom>) -> (r: String)
    ensures
        r@ == surface(atoms.deep_view()),
{
    let ghost model = atoms.deep_view();
    let mut out: String = String::new();
    let mut i: usize = 0;
    assert(model.take(0) =~= Seq::<AtomV>::empty());
    while i < atoms.len()
        invariant
            i <= atoms@.len(),
            model == atoms.deep_view(),
            out@ == surface(model.take(i as int)),
        decreases atoms@.len() - i,
    {
        assert(model.take(i + 1).drop_last() =~= model.take(i as int));
        append(&mut out, atoms[i].value.as_str());
        i = i + 1;
    }
    assert(model.take(i as int) =~= model);
    out
}

fn make_key(part_name: &str, tag: &str, start: usize) -> (r: String)
    ensures
        r@ == unit_key(part_name@, tag@, start as nat),
{
    let mut s: String = owned(part_name);
    append(&mut s, "#");
    append(&mut s, tag);
    append(&mut s, "@");
    let d: String = dec_usize(start);
    append(&mut s, d.as_str());
    s
}

fn new_unit(
    tu_id: usize,
    part_name: &str,
    scope_key: String,
    para_style: Option<String>,
    atoms: Vec<Atom>,
    spans: Vec<FormatSpan>,
    source_surface: String,
) -> (r: TranslationUnit)
    ensures
        r.deep_view() == fresh_unit(
            tu_id as nat,
            part_name@,
            scope_key@,
            para_style.deep_view(),
            atoms.deep_view(),
            spans.deep_view(),
            source_surface@,
        ),
{
    let r = TranslationUnit {
        tu_id,
        part_name: owned(part_name),
        scope_key,
        para_style,
        atoms,
        spans,
        source_surface,
        frozen_surface: String::new(),
        nt_map: Vec::new(),
        nt_mask: Vec::new(),
        draft_translation: None,
        final_translation: None,
        alt_translation: None,
        draft_translation_model: None,
        alt_translation_model: None,
        qe_score: None,
        qe_flags: Vec::new(),
    };
    assert(r.deep_view() =~= fresh_unit(
        tu_id as nat,
        part_name@,
        scope_key@,
        para_style.deep_view(),
        atoms.deep_view(),
        spans.deep_view(),
        source_surface@,
    ));
    r
}

fn finalize_paragraph(
    units: &mut Vec<TranslationUnit>,
    first_id: usize,
    part_name: &str,
    tag: &str,
    start: usize,
    atoms: Vec<Atom>,
    style: Option<String>,
)
    requires
        first_id + old(units)@.len() <= usize::MAX,
    ensures
        final(units).deep_view() == with_unit(
            old(units).deep_view(),
            first_id as nat,
            part_name@,
            tag@,
            start as nat,
            atoms.deep_view(),
            style.deep_view(),
        ),
{
    if !any_text(&atoms) {
        return;
    }
    let spans: Vec<FormatSpan> = build_spans(&atoms);
    let text: String = surface_of(&atoms);
    let key: String = make_key(part_name, tag, start);
    let id: usize = first_id + units.len();
    push_deep(units, new_unit(id, part_name, key, style, atoms, spans, text));
}

fn add_attr_tu(
    units: &mut Vec<TranslationUnit>,
    first_id: usize,
    part_name: &str,
    idx: usize,
    val: &str,
)
    requires
        first_id + old(units)@.len() <= usize::MAX,
    ensures
        final(units).deep_view() == with_attr_unit(
            old(units).deep_view(),
            first_id as nat,
            part_name@,
            idx as nat,
            val@,
        ),
{
    let node = TextNodeRef {
        part_name: owned(part_name),
        kind: TextNodeKind::Attr,
        elem_event_index: idx,
        text_event_index: None,
        attr_name: Some(owned("w:val")),
        original_text: owned(val),
    };
    let ghost node_model = attr_node(part_name@, idx as nat, val@);
    let mut node_refs: Vec<TextNodeRef> = Vec::new();
    node_refs.push(clone_node(&node));
    assert(node_refs.deep_view() =~= seq![node_model]);
    let mut spans: Vec<FormatSpan> = Vec::new();
    spans.push(FormatSpan { style_sig: owned("attr"), node_refs, source_text: owned(val) });
    assert(spans.deep_view() =~= seq![
        SpanV { style_sig: "attr"@, node_refs: seq![node_model], source_text: val@ },
    ]);
    let mut atoms: Vec<Atom> = Vec::new();
    atoms.push(
        Atom {
            kind: AtomKind::Text,
            node_ref: Some(node),
            value: owned(val),
            style_sig: owned("attr"),
        },
    );
    assert(atoms.deep_view() =~= seq![
        AtomV {
            kind: AtomKind::Text,
            node_ref: Some(node_model),
            value: val@,
            style_sig: "attr"@,
        },
    ]);
    let key: String = make_key(part_name, "w:lvlText", idx);
    let id: usize = first_id + units.len();
    push_deep(units, new_unit(id, part_name, key, None, atoms, spans, owned(val)));
}

impl UnitReader {
    fn start_paragraph(&mut self, idx: usize, name: &str)
        ensures
            final(self).deep_view() == start_paragraph(old(self).deep_view(), idx as nat, name@),
    {
        let ghost before = self.deep_view();
        if str_eq(name, "w:p") {
            self.in_w_p = true;
            self.in_a_p = false;
            self.start = idx;
            self.atoms = Vec::new();
            self.style = None;
        } else if str_eq(name, "a:p") {
            self.in_a_p = true;
            self.in_w_p = false;
            self.start = idx;
            self.atoms = Vec::new();
            self.style = None;
        }
        assert(self.deep_view() =~= start_paragraph(before, idx as nat, name@));
    }

    fn paragraph_style(&mut self, name: &str, attrs: &Vec<(String, String)>)
        ensures
            final(self).deep_view() == paragraph_style(
                old(self).deep_view(),
                name@,
                attrs.deep_view(),
            ),
    {
        let ghost before = self.deep_view();
        if self.in_w_p && str_eq(name, "w:pStyle") {
            if let Some(v) = find_attr(attrs, "w:val") {
                let t: String = trim(v);
                if !t.as_str().is_empty() {
                    self.style = Some(t);
                }
            }
        }
        assert(self.deep_view() =~= paragraph_style(before, name@, attrs.deep_view()));
    }

    fn start_run(&mut self, name: &str, attrs: &Vec<(String, String)>)
        ensures
            final(self).deep_view() == start_run(old(self).deep_view(), name@, attrs.deep_view()),
    {
        let ghost before = self.deep_view();
        if self.in_w_p && str_eq(name, "w:r") {
            push_deep(&mut self.w_runs, WRunStyle::new());
        } else if self.in_a_p && str_eq(name, "a:r") {
            push_deep(&mut self.a_runs, ARunStyle::new());
        } else if self.in_w_p && str_eq(name, "w:rPr") {
            self.in_w_rpr = true;
            let n: usize = self.w_runs.len();
            if n > 0 {
                self.w_runs[n - 1].seen_rpr = true;
                assert(self.w_runs.deep_view() =~= with_last(
                    before.w_runs,
                    WStyleV { seen: true, ..before.w_runs.last() },
                ));
            }
        } else if self.in_a_p && str_eq(name, "a:rPr") {
            self.in_a_rpr = true;
            let n: usize = self.a_runs.len();
            if n > 0 {
                assert(before.a_runs.last() == self.a_runs@[n - 1].deep_view());
                self.a_runs[n - 1].seen_rpr = true;
                assert(self.a_runs@[n - 1].deep_view() =~= (AStyleV {
                    seen: true,
                    ..before.a_runs.last()
                }));
                self.a_runs[n - 1].read_attrs(attrs);
                assert(self.a_runs.deep_view() =~= with_last(
                    before.a_runs,
                    a_attrs(AStyleV { seen: true, ..before.a_runs.last() }, attrs.deep_view()),
                ));
            }
        }
        assert(self.deep_view() =~= start_run(before, name@, attrs.deep_view()));
    }

    fn start_text(&mut self, idx: usize, name: &str)
        ensures
            final(self).deep_view() == start_text(old(self).deep_view(), idx as nat, name@),
    {
        let ghost before = self.deep_view();
        if self.in_w_p || self.in_a_p {
            if str_eq(name, "w:t") {
                self.text_elem = Some((TextNodeKind::Wt, idx));
            } else if str_eq(name, "a:t") {
                self.text_elem = Some((TextNodeKind::At, idx));
            }
        }
        assert(self.deep_view() =~= start_text(before, idx as nat, name@));
    }

    fn start_property(&mut self, name: &str, attrs: &Vec<(String, String)>)
        ensures
            final(self).deep_view() == start_property(
                old(self).deep_view(),
                name@,
                attrs.deep_view(),
            ),
    {
        let ghost before = self.deep_view();
        if self.in_w_rpr {
            let n: usize = self.w_runs.len();
            if n > 0 {
                assert(before.w_runs.last() == self.w_runs@[n - 1].deep_view());
                parse_w_rpr_property(&mut self.w_runs[n - 1], name, attrs);
                assert(self.w_runs.deep_view() =~= with_last(
                    before.w_runs,
                    w_property(before.w_runs.last(), name@, attrs.deep_view()),
                ));
            }
        }
        if self.in_a_rpr && str_eq(name, "a:latin") {
            if let Some(v) = find_attr(attrs, "typeface") {
                let n: usize = self.a_runs.len();
                if n > 0 {
                    assert(before.a_runs.last() == self.a_runs@[n - 1].deep_view());
                    self.a_runs[n - 1].typeface = Some(owned(v));
                    assert(self.a_runs@[n - 1].deep_view() =~= (AStyleV {
                        typeface: Some(v@),
                        ..before.a_runs.last()
                    }));
                    assert(self.a_runs.deep_view() =~= with_last(
                        before.a_runs,
                        AStyleV { typeface: Some(v@), ..before.a_runs.last() },
                    ));
                }
            }
        }
        assert(self.deep_view() =~= start_property(before, name@, attrs.deep_view()));
    }

    fn list_level(
        &mut self,
        first_id: usize,
        part_name: &str,
        idx: usize,
        name: &str,
        attrs: &Vec<(String, String)>,
    )
        requires
            first_id + old(self).units@.len() <= usize::MAX,
        ensures
            final(self).deep_view() == list_level(
                old(self).deep_view(),
                first_id as nat,
                part_name@,
                idx as nat,
                name@,
                attrs.deep_view(),
            ),
    {
        let ghost before = self.deep_view();
        if str_eq(name, "w:lvlText") {
            if let Some(v) = find_attr(attrs, "w:val") {
                if !blank(v) {
                    add_attr_tu(&mut self.units, first_id, part_name, idx, v);
                }
            }
        }
        assert(self.deep_view() =~= list_level(
            before,
            first_id as nat,
            part_name@,
            idx as nat,
            name@,
            attrs.deep_view(),
        ));
    }

    fn push_control(&mut self, name: &str)
        ensures
            final(self).deep_view() == match control_atom(old(self).deep_view(), name@) {
                Some(a) => UnitsV {
                    atoms: old(self).deep_view().atoms.push(a),
                    ..old(self).deep_view()
                },
                None => old(self).deep_view(),
            },
    {
        let ghost before = self.deep_view();
        let found = if self.in_w_p {
            if str_eq(name, "w:tab") {
                Some((AtomKind::Tab, TAB))
            } else if str_eq(name, "w:br") || str_eq(name, "w:cr") {
                Some((AtomKind::Br, BR))
            } else if str_eq(name, "w:noBreakHyphen") {
                Some((AtomKind::Nbh, NBH))
            } else if str_eq(name, "w:softHyphen") {
                Some((AtomKind::Shy, SHY))
            } else {
                None
            }
        } else if self.in_a_p {
            if str_eq(name, "a:tab") {
                Some((AtomKind::Tab, TAB))
            } else if str_eq(name, "a:br") {
                Some((AtomKind::Br, BR))
            } else {
                None
            }
        } else {
            None
        };
        if let Some((kind, value)) = found {
            push_deep(
                &mut self.atoms,
                Atom { kind, node_ref: None, value: owned(value), style_sig: String::new() },
            );
        }
        proof {
            let want = match control_atom(before, name@) {
                Some(a) => UnitsV { atoms: before.atoms.push(a), ..before },
                None => before,
            };
            assert(self.deep_view() =~= want);
        }
    }

    fn end_paragraph(&mut self, first_id: usize, part_name: &str, name: &str)
        requires
            first_id + old(self).units@.len() <= usize::MAX,
        ensures
            final(self).deep_view() == end_paragraph(
                old(self).deep_view(),
                first_id as nat,
                part_name@,
                name@,
            ),
    {
        let ghost before = self.deep_view();
        if self.in_w_p && str_eq(name, "w:p") {
            let mut atoms: Vec<Atom> = Vec::new();
            std::mem::swap(&mut atoms, &mut self.atoms);
            let style = self.style.take();
            finalize_paragraph(
                &mut self.units,
                first_id,
                part_name,
                "w:p",
                self.start,
                atoms,
                style,
            );
            self.in_w_p = false;
        } else if self.in_a_p && str_eq(name, "a:p") {
            let mut atoms: Vec<Atom> = Vec::new();
            std::mem::swap(&mut atoms, &mut self.atoms);
            finalize_paragraph(
                &mut self.units,
                first_id,
                part_name,
                "a:p",
                self.start,
                atoms,
                None,
            );
            self.in_a_p = false;
            self.style = None;
        }
        assert(self.deep_view() =~= end_paragraph(before, first_id as nat, part_name@, name@));
    }

    fn end_run(&mut self, name: &str)
        ensures
            final(self).deep_view() == end_run(old(self).deep_view(), name@),
    {
        let ghost before = self.deep_view();
        if self.in_w_p && str_eq(name, "w:rPr") {
            self.in_w_rpr = false;
        } else if self.in_a_p && str_eq(name, "a:rPr") {
            self.in_a_rpr = false;
        } else if self.in_w_p && str_eq(name, "w:r") {
            let _ = pop_deep(&mut self.w_runs);
        } else if self.in_a_p && str_eq(name, "a:r") {
            let _ = pop_deep(&mut self.a_runs);
        } else if (self.in_w_p || self.in_a_p) && (str_eq(name, "w:t") || str_eq(name, "a:t")) {
            self.text_elem = None;
        }
        assert(self.deep_view() =~= end_run(before, name@));
    }

    fn text_style(&self, kind: TextNodeKind) -> (r: String)
        ensures
            r@ == text_style(self.deep_view(), kind),
    {
        match kind {
            TextNodeKind::Wt => {
                let n: usize = self.w_runs.len();
                if n > 0 {
                    assert(self.w_runs.deep_view().last() == self.w_runs@[n - 1].deep_view());
                    self.w_runs[n - 1].signature()
                } else {
                    WRunStyle::new().signature()
                }
            },
            TextNodeKind::At => {
                let n: usize = self.a_runs.len();
                if n > 0 {
                    assert(self.a_runs.deep_view().last() == self.a_runs@[n - 1].deep_view());
                    self.a_runs[n - 1].signature()
                } else {
                    ARunStyle::new().signature()
                }
            },
            TextNodeKind::Attr => owned("attr"),
        }
    }

    fn step(&mut self, part_name: &str, first_id: usize, idx: usize, ev: &XmlEvent)
        requires
            first_id + old(self).units@.len() <= usize::MAX,
        ensures
            final(self).deep_view() == unit_step(
                part_name@,
                first_id as nat,
                old(self).deep_view(),
                idx as nat,
                ev.deep_view(),
            ),
            final(self).units@.len() <= old(self).units@.len() + 1,
    {
        let ghost before = self.deep_view();
        assert(self.units.deep_view().len() == self.units@.len());
        match ev {
            XmlEvent::Start { name, attrs } => {
                let n: &str = name.as_str();
                self.start_paragraph(idx, n);
                self.paragraph_style(n, attrs);
                self.start_run(n, attrs);
                self.start_text(idx, n);
                self.start_property(n, attrs);
                assert(self.units.deep_view().len() == self.units@.len());
                self.list_level(first_id, part_name, idx, n, attrs);
            },
            XmlEvent::Empty { name, attrs } => {
                let n: &str = name.as_str();
                self.paragraph_style(n, attrs);
                self.push_control(n);
                assert(self.units.deep_view().len() == self.units@.len());
                self.list_level(first_id, part_name, idx, n, attrs);
            },
            XmlEvent::End { name } => {
                let n: &str = name.as_str();
                self.end_paragraph(first_id, part_name, n);
                self.end_run(n);
            },
            XmlEvent::Text { text } => {
                if let Some((kind, elem)) = self.text_elem {
                    if self.in_w_p || self.in_a_p {
                        let style_sig: String = self.text_style(kind);
                        let node = TextNodeRef {
                            part_name: owned(part_name),
                            kind,
                            elem_event_index: elem,
                            text_event_index: Some(idx),
                            attr_name: None,
                            original_text: text.clone(),
                        };
                        push_deep(
                            &mut self.atoms,
                            Atom {
                                kind: AtomKind::Text,
                                node_ref: Some(node),
                                value: text.clone(),
                                style_sig,
                            },
                        );
                    }
                }
            },
            _ => {},
        }
        assert(self.units.deep_view().len() == self.units@.len());
        assert(self.deep_view() =~= unit_step(
            part_name@,
            first_id as nat,
            before,
            idx as nat,
            ev.deep_view(),
        ));
    }
}

/// The units of translation of a part, numbered from `start_id` on, and the next number.
pub fn extract_translation_units(part: &XmlPart, start_id: usize) -> (r: Result<
    (Vec<TranslationUnit>, usize),
    DocxError,
>)
    requires
        start_id + part.events@.len() <= usize::MAX,
    ensures
        r is Ok,
        r->Ok_0.0.deep_view() == unit_run(
            part.name@,
            start_id as nat,
            part.events.deep_view(),
        ).units,
        r->Ok_0.1 == start_id + r->Ok_0.0@.len(),
{
    let mut st = UnitReader {
        units: Vec::new(),
        in_w_p: false,
        in_a_p: false,
        start: 0,
        atoms: Vec::new(),
        style: None,
        w_runs: Vec::new(),
        a_runs: Vec::new(),
        in_w_rpr: false,
        in_a_rpr: false,
        text_elem: None,
    };
    let ghost model = part.events.deep_view();
    let mut idx: usize = 0;
    assert(model.take(0) =~= Seq::<EventV>::empty());
    assert(st.deep_view() =~= unit_run(part.name@, start_id as nat, model.take(0)));
    while idx < part.events.len()
        invariant
            idx <= part.events@.len(),
            model == part.events.deep_view(),
            start_id + part.events@.len() <= usize::MAX,
            st.deep_view() == unit_run(part.name@, start_id as nat, model.take(idx as int)),
            st.units@.len() <= idx,
        decreases part.events@.len() - idx,
    {
        assert(model[idx as int] == part.events@[idx as int].deep_view());
        assert(model.take(idx + 1).drop_last() =~= model.take(idx as int));
        st.step(part.name.as_str(), start_id, idx, &part.events[idx]);
        idx = idx + 1;
    }
    assert(model.take(idx as int) =~= model);
    let next: usize = start_id + st.units.len();
    Ok((st.units, next))
}


/// The nodes of the texts among a sequence of atoms.
pub open spec fn atom_nodes(atoms: Seq<AtomV>) -> Seq<NodeV>
    decreases atoms.len(),
{
    if atoms.len() == 0 {
        Seq::empty()
    } else {
        let a = atoms.last();
        match a.node_ref {
            Some(n) if a.kind == AtomKind::Text => atom_nodes(atoms.drop_last()).push(n),
            _ => atom_nodes(atoms.drop_last()),
        }
    }
}

/// The characters of the texts with a node among a sequence of atoms.
pub open spec fn atom_text(atoms: Seq<AtomV>) -> Seq<char>
    decreases atoms.len(),
{
    if atoms.len() == 0 {
        Seq::empty()
    } else {
        let a = atoms.last();
        if a.node_ref is Some && a.kind == AtomKind::Text {
            atom_text(atoms.drop_last()) + a.value
        } else {
            atom_text(atoms.drop_last())
        }
    }
}

/// The nodes of a sequence of spans.
pub open spec fn span_nodes(spans: Seq<SpanV>) -> Seq<NodeV>
    decreases spans.len(),
{
    if spans.len() == 0 {
        Seq::empty()
    } else {
        span_nodes(spans.drop_last()) + spans.last().node_refs
    }
}

/// The characters of a sequence of spans.
pub open spec fn span_text(spans: Seq<SpanV>) -> Seq<char>
    decreases spans.len(),
{
    if spans.len() == 0 {
        Seq::empty()
    } else {
        span_text(spans.drop_last()) + spans.last().source_text
    }
}

/// Whether no span is without nodes.
pub open spec fn spans_filled(spans: Seq<SpanV>) -> bool {
    forall|i: int| 0 <= i < spans.len() ==> (#[trigger] spans[i]).node_refs.len() > 0
}

spec fn spans_inv(st: SpansV, atoms: Seq<AtomV>) -> bool {
    &&& span_nodes(st.spans) + st.nodes == atom_nodes(atoms)
    &&& span_text(st.spans) + st.text == atom_text(atoms)
    &&& st.nodes.len() == 0 ==> st.text.len() == 0
    &&& spans_filled(st.spans)
}

proof fn lemma_flushed(st: SpansV, atoms: Seq<AtomV>)
    requires
        spans_inv(st, atoms),
    ensures
        spans_inv(spans_flushed(st), atoms),
        span_nodes(spans_flushed(st).spans) == atom_nodes(atoms),
        span_text(spans_flushed(st).spans) == atom_text(atoms),
{
    let f = spans_flushed(st);
    if st.nodes.len() > 0 {
        assert(f.spans.drop_last() =~= st.spans);
    } else {
        assert(st.nodes =~= Seq::<NodeV>::empty());
        assert(st.text =~= Seq::<char>::empty());
    }
    assert(span_nodes(f.spans) + Seq::<NodeV>::empty() =~= span_nodes(f.spans));
    assert(span_text(f.spans) + Seq::<char>::empty() =~= span_text(f.spans));
    assert(span_nodes(st.spans) + Seq::<NodeV>::empty() =~= span_nodes(st.spans));
    assert(span_text(st.spans) + Seq::<char>::empty() =~= span_text(st.spans));
}

proof fn lemma_spans_run(atoms: Seq<AtomV>)
    ensures
        spans_inv(spans_run(atoms), atoms),
    decreases atoms.len(),
{
    if atoms.len() > 0 {
        let before = atoms.drop_last();
        let a = atoms.last();
        let st = spans_run(before);
        lemma_spans_run(before);
        lemma_flushed(st, before);
        if a.kind == AtomKind::Text {
            let cur = if st.style == Some(a.style_sig) {
                st
            } else {
                SpansV { style: Some(a.style_sig), ..spans_flushed(st) }
            };
            if let Some(n) = a.node_ref {
                assert(span_nodes(cur.spans) + cur.nodes.push(n) =~= (span_nodes(cur.spans)
                    + cur.nodes).push(n));
                assert(span_text(cur.spans) + (cur.text + a.value) =~= (span_text(cur.spans)
                    + cur.text) + a.value);
            }
        }
    } else {
        assert(span_nodes(Seq::<SpanV>::empty()) + Seq::<NodeV>::empty() =~= Seq::<NodeV>::empty());
        assert(span_text(Seq::<SpanV>::empty()) + Seq::<char>::empty() =~= Seq::<char>::empty());
    }
}

/// The spans of a paragraph hold the nodes and the characters of its texts, all of them and in their
/// order, and none is without nodes.
pub proof fn law_spans_cover(atoms: Seq<AtomV>)
    ensures
        span_nodes(spans_of(atoms)) == atom_nodes(atoms),
        span_text(spans_of(atoms)) == atom_text(atoms),
        spans_filled(spans_of(atoms)),
{
    lemma_spans_run(atoms);
    lemma_flushed(spans_run(atoms), atoms);
}

/// What holds of the units of a part: they are numbered without gaps from the first number on, carry
/// the name of the part, hold a text that is not blank, and no translation.
pub open spec fn units_ok(part_name: Seq<char>, first_id: nat, units: Seq<UnitV>) -> bool {
    forall|i: int|
        0 <= i < units.len() ==> {
            let u = #[trigger] units[i];
            &&& u.tu_id == first_id + i
            &&& u.part_name == part_name
            &&& span_nodes(u.spans) == atom_nodes(u.atoms)
            &&& u.source_surface == surface(u.atoms)
            &&& u.frozen_surface.len() == 0 && u.nt_map.len() == 0
            &&& has_text(u.atoms)
            &&& u.draft_translation is None && u.alt_translation is None && u.final_translation is None
        }
}

proof fn lemma_unit_step(
    part_name: Seq<char>,
    first_id: nat,
    st: UnitsV,
    idx: nat,
    ev: EventV,
)
    requires
        units_ok(part_name, first_id, st.units),
    ensures
        units_ok(part_name, first_id, unit_step(part_name, first_id, st, idx, ev).units),
{
    law_spans_cover(st.atoms);
    match ev {
        EventV::Start { name, attrs } => {
            if let Some(v) = attr(attrs, "w:val"@) {
                if trimmed(v).len() > 0 {
                    lemma_attr_unit(part_name, first_id, st.units, idx, v);
                }
            }
        },
        EventV::Empty { name, attrs } => {
            if let Some(v) = attr(attrs, "w:val"@) {
                if trimmed(v).len() > 0 {
                    lemma_attr_unit(part_name, first_id, st.units, idx, v);
                }
            }
        },
        _ => {},
    }
}

proof fn lemma_attr_unit(
    part_name: Seq<char>,
    first_id: nat,
    units: Seq<UnitV>,
    idx: nat,
    val: Seq<char>,
)
    requires
        units_ok(part_name, first_id, units),
        trimmed(val).len() > 0,
    ensures
        units_ok(part_name, first_id, with_attr_unit(units, first_id, part_name, idx, val)),
{
    let u = with_attr_unit(units, first_id, part_name, idx, val).last();
    reveal_with_fuel(span_nodes, 2);
    reveal_with_fuel(atom_nodes, 2);
    reveal_with_fuel(surface, 2);
    assert(u.spans.drop_last() =~= Seq::<SpanV>::empty());
    assert(u.atoms.drop_last() =~= Seq::<AtomV>::empty());
    assert(span_nodes(u.spans) =~= atom_nodes(u.atoms));
    assert(u.source_surface =~= surface(u.atoms));
    assert(u.atoms[0].kind == AtomKind::Text);
}

/// The units of a part are numbered without gaps from the first number on, and each one's spans hold
/// the nodes of its texts, all of them and in their order.
pub proof fn law_units(part_name: Seq<char>, first_id: nat, events: Seq<EventV>)
    ensures
        units_ok(part_name, first_id, unit_run(part_name, first_id, events).units),
    decreases events.len(),
{
    if events.len() > 0 {
        let before = events.drop_last();
        law_units(part_name, first_id, before);
        lemma_unit_step(
            part_name,
            first_id,
            unit_run(part_name, first_id, before),
            before.len(),
            events.last(),
        );
    }
}

} // verus!
