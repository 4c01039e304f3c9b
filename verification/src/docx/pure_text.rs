//! The paragraphs of a document as plain text.

use crate::chars::{
    append, blank, dec, dec_usize, i32_of, opt_i32, opt_nat, owned, parse_i32, replace, replaced,
    str_eq, trim, trim_start_matches, trimmed, without_prefix,
};
use crate::docx::decompose::{
    extract_slot_texts, output_file_name, output_name, slot_texts_of_docx,
};
use crate::docx::error::{DocxError, DocxErrorV};
use crate::docx::package::{package_of, DocxEntry, DocxPackage, EntryV};
use crate::docx::xml::{
    parse_xml_part, parsed, result_view, top, top_of, AttrsV, EventV, XmlEvent, XmlPart,
};
use crate::vecs::{clone_opt, pop_deep, popped, push_deep};
use vstd::prelude::*;

verus! {

/// Where a paragraph stands.
#[derive(Clone, Copy, Debug, PartialEq, Eq, Structural)]
pub enum ParaContainer {
    DocumentBody,
    TableCell,
    Header,
    Footer,
}

/// A paragraph that holds text.
#[derive(Clone, Debug)]
pub struct PureParagraph {
    pub para_id: usize,
    pub part_name: String,
    pub scope_key: String,
    pub xml_event_index: usize,
    pub container: ParaContainer,
    pub section_index: Option<usize>,
    pub table_index: Option<usize>,
    pub row_index: Option<usize>,
    pub cell_index: Option<usize>,
    pub p_style: Option<String>,
    pub num_id: Option<i32>,
    pub num_ilvl: Option<i32>,
    pub outline_lvl: Option<i32>,
    pub text: String,
}

/// The model of a [`PureParagraph`].
#[verifier::ext_equal]
pub struct ParaV {
    pub para_id: nat,
    pub part_name: Seq<char>,
    pub scope_key: Seq<char>,
    pub xml_event_index: nat,
    pub container: ParaContainer,
    pub section_index: Option<nat>,
    pub table_index: Option<nat>,
    pub row_index: Option<nat>,
    pub cell_index: Option<nat>,
    pub p_style: Option<Seq<char>>,
    pub num_id: Option<int>,
    pub num_ilvl: Option<int>,
    pub outline_lvl: Option<int>,
    pub text: Seq<char>,
}

impl DeepView for PureParagraph {
    type V = ParaV;

    open spec fn deep_view(&self) -> ParaV {
        ParaV {
            para_id: self.para_id as nat,
            part_name: self.part_name@,
            scope_key: self.scope_key@,
            xml_event_index: self.xml_event_index as nat,
            container: self.container,
            section_index: opt_nat(self.section_index),
            table_index: opt_nat(self.table_index),
            row_index: opt_nat(self.row_index),
            cell_index: opt_nat(self.cell_index),
            p_style: self.p_style.deep_view(),
            num_id: opt_i32(self.num_id),
            num_ilvl: opt_i32(self.num_ilvl),
            outline_lvl: opt_i32(self.outline_lvl),
            text: self.text@,
        }
    }
}

/// The paragraphs of a document, and the texts of its slots.
#[derive(Clone, Debug)]
pub struct PureTextJson {
    pub version: u32,
    pub placeholder_prefix: String,
    pub slot_texts: Vec<String>,
    pub paragraphs: Vec<PureParagraph>,
}

/// The model of a [`PureTextJson`].
#[verifier::ext_equal]
pub struct PureTextV {
    pub version: u32,
    pub placeholder_prefix: Seq<char>,
    pub slot_texts: Seq<Seq<char>>,
    pub paragraphs: Seq<ParaV>,
}

impl DeepView for PureTextJson {
    type V = PureTextV;

    open spec fn deep_view(&self) -> PureTextV {
        PureTextV {
            version: self.version,
            placeholder_prefix: self.placeholder_prefix@,
            slot_texts: self.slot_texts.deep_view(),
            paragraphs: self.paragraphs.deep_view(),
        }
    }
}

/// The value of the first attribute with the key `key`.
pub open spec fn attr(attrs: AttrsV, key: Seq<char>) -> Option<Seq<char>>
    decreases attrs.len(),
{
    if attrs.len() == 0 {
        None
    } else if attrs[0].0 == key {
        Some(attrs[0].1)
    } else {
        attr(attrs.drop_first(), key)
    }
}

/// The position of the first attribute with the key `key`.
pub fn attr_position(attrs: &Vec<(String, String)>, key: &str) -> (r: Option<usize>)
    ensures
        match r {
            Some(i) => i < attrs@.len() && attrs@[i as int].0@ == key@ && (forall|j: int|
                0 <= j < i ==> (#[trigger] attrs@[j]).0@ != key@) && attr(attrs.deep_view(), key@)
                == Some(attrs@[i as int].1@),
            None => attr(attrs.deep_view(), key@) is None && (forall|j: int|
                0 <= j < attrs@.len() ==> (#[trigger] attrs@[j]).0@ != key@),
        },
{
    let ghost model = attrs.deep_view();
    let mut i: usize = 0;
    assert(model.skip(0) =~= model);
    while i < attrs.len()
        invariant
            i <= attrs@.len(),
            model == attrs.deep_view(),
            attr(model.skip(i as int), key@) == attr(model, key@),
            forall|j: int| 0 <= j < i ==> (#[trigger] attrs@[j]).0@ != key@,
        decreases attrs@.len() - i,
    {
        assert(model.skip(i as int)[0] == attrs@[i as int].deep_view());
        assert(model.skip(i as int).drop_first() =~= model.skip(i + 1));
        if str_eq(attrs[i].0.as_str(), key) {
            return Some(i);
        }
        i = i + 1;
    }
    None
}

/// The value of the first attribute with the key `key`.
pub fn find_attr<'a>(attrs: &'a Vec<(String, String)>, key: &str) -> (r: Option<&'a str>)
    ensures
        r.deep_view() == attr(attrs.deep_view(), key@),
{
    match attr_position(attrs, key) {
        Some(i) => Some(attrs[i].1.as_str()),
        None => None,
    }
}

/// The integer that the attribute `key` holds, between white space.
pub open spec fn i32_attr(attrs: AttrsV, key: Seq<char>) -> Option<int> {
    match attr(attrs, key) {
        Some(v) => i32_of(trimmed(v)),
        None => None,
    }
}

fn parse_i32_attr(attrs: &Vec<(String, String)>, key: &str) -> (r: Option<i32>)
    ensures
        opt_i32(r) == i32_attr(attrs.deep_view(), key@),
{
    match find_attr(attrs, key) {
        Some(v) => {
            let t: String = trim(v);
            parse_i32(t.as_str())
        },
        None => None,
    }
}

/// The tags inside a run that may stand for a character.
pub open spec fn run_control(name: Seq<char>) -> bool {
    name == "w:tab"@ || name == "w:ptab"@ || name == "w:cr"@ || name == "w:br"@ || name
        == "w:noBreakHyphen"@ || name == "w:softHyphen"@
}

/// The text that a tag inside a run stands for.
pub open spec fn control_text(name: Seq<char>, attrs: AttrsV) -> Seq<char> {
    if name == "w:tab"@ || name == "w:ptab"@ {
        seq!['\t']
    } else if name == "w:cr"@ {
        seq!['\n']
    } else if name == "w:br"@ {
        match attr(attrs, "w:type"@) {
            Some(t) if t != "textWrapping"@ => Seq::empty(),
            _ => seq!['\n'],
        }
    } else if name == "w:noBreakHyphen"@ {
        seq!['-']
    } else {
        Seq::empty()
    }
}

fn is_run_control(name: &str) -> (r: bool)
    ensures
        r == run_control(name@),
{
    str_eq(name, "w:tab") || str_eq(name, "w:ptab") || str_eq(name, "w:cr") || str_eq(name, "w:br")
        || str_eq(name, "w:noBreakHyphen") || str_eq(name, "w:softHyphen")
}

fn control_append(buf: &mut String, name: &str, attrs: &Vec<(String, String)>)
    ensures
        final(buf)@ == old(buf)@ + control_text(name@, attrs.deep_view()),
{
    let ghost start = buf@;
    if str_eq(name, "w:tab") || str_eq(name, "w:ptab") {
        buf.push('\t');
        assert(buf@ =~= start + seq!['\t']);
    } else if str_eq(name, "w:cr") {
        buf.push('\n');
        assert(buf@ =~= start + seq!['\n']);
    } else if str_eq(name, "w:br") {
        let wraps: bool = match find_attr(attrs, "w:type") {
            Some(t) => str_eq(t, "textWrapping"),
            None => true,
        };
        if wraps {
            buf.push('\n');
            assert(buf@ =~= start + seq!['\n']);
        } else {
            assert(buf@ =~= start + Seq::<char>::empty());
        }
    } else if str_eq(name, "w:noBreakHyphen") {
        buf.push('-');
        assert(buf@ =~= start + seq!['-']);
    } else {
        assert(buf@ =~= start + Seq::<char>::empty());
    }
}

/// What was gathered of the paragraph that is being read. A depth is the number of open tags up to
/// and with the tag in question.
struct ParaCapture {
    start_event_index: usize,
    p_stack_len: usize,
    text: String,
    p_style: Option<String>,
    num_id: Option<i32>,
    num_ilvl: Option<i32>,
    outline_lvl: Option<i32>,
    direct_ppr_stack_len: Option<usize>,
    direct_r_stack_len: Option<usize>,
    hyperlink_stack_len: Option<usize>,
    hyperlink_r_stack_len: Option<usize>,
    w_t_stack_len: Option<usize>,
}

/// The model of what was gathered of a paragraph.
#[verifier::ext_equal]
pub struct CaptureV {
    /// The index of the event that opened the paragraph.
    pub start: nat,
    /// The depth of the paragraph.
    pub p: nat,
    pub text: Seq<char>,
    pub p_style: Option<Seq<char>>,
    pub num_id: Option<int>,
    pub num_ilvl: Option<int>,
    pub outline_lvl: Option<int>,
    /// The depth of the paragraph's own properties, while they are open.
    pub ppr: Option<nat>,
    /// The depth of the run directly in the paragraph, while it is open.
    pub run: Option<nat>,
    /// The depth of the hyperlink directly in the paragraph, while it is open.
    pub link: Option<nat>,
    /// The depth of the run in that hyperlink, while it is open.
    pub link_run: Option<nat>,
    /// The depth of the text tag in such a run, while it is open.
    pub t: Option<nat>,
}

impl DeepView for ParaCapture {
    type V = CaptureV;

    closed spec fn deep_view(&self) -> CaptureV {
        CaptureV {
            start: self.start_event_index as nat,
            p: self.p_stack_len as nat,
            text: self.text@,
            p_style: self.p_style.deep_view(),
            num_id: opt_i32(self.num_id),
            num_ilvl: opt_i32(self.num_ilvl),
            outline_lvl: opt_i32(self.outline_lvl),
            ppr: opt_nat(self.direct_ppr_stack_len),
            run: opt_nat(self.direct_r_stack_len),
            link: opt_nat(self.hyperlink_stack_len),
            link_run: opt_nat(self.hyperlink_r_stack_len),
            t: opt_nat(self.w_t_stack_len),
        }
    }
}

/// A paragraph of which nothing was gathered yet.
pub open spec fn new_capture(start: nat, p: nat) -> CaptureV {
    CaptureV {
        start,
        p,
        text: Seq::empty(),
        p_style: None,
        num_id: None,
        num_ilvl: None,
        outline_lvl: None,
        ppr: None,
        run: None,
        link: None,
        link_run: None,
        t: None,
    }
}

/// Whether `depth` is the depth of an open run of the paragraph.
pub open spec fn in_run(cap: CaptureV, depth: nat) -> bool {
    cap.run == Some(depth) || cap.link_run == Some(depth)
}

/// What an opening tag adds to a paragraph. `parent` is the tag round it, `depth` the number of
/// tags round it, and `empty` tells a tag that closes itself.
pub open spec fn capture_open(
    cap: CaptureV,
    name: Seq<char>,
    attrs: AttrsV,
    parent: Seq<char>,
    depth: nat,
    empty: bool,
) -> CaptureV {
    let direct = parent == "w:p"@ && depth == cap.p;
    if name == "w:pPr"@ {
        if direct {
            CaptureV { ppr: Some(depth + 1), ..cap }
        } else {
            cap
        }
    } else if !empty && name == "w:hyperlink"@ {
        if direct {
            CaptureV { link: Some(depth + 1), ..cap }
        } else {
            cap
        }
    } else if !empty && name == "w:r"@ {
        if direct {
            CaptureV { run: Some(depth + 1), ..cap }
        } else if parent == "w:hyperlink"@ && cap.link == Some(depth) {
            CaptureV { link_run: Some(depth + 1), ..cap }
        } else {
            cap
        }
    } else if !empty && name == "w:t"@ {
        if parent == "w:r"@ && in_run(cap, depth) {
            CaptureV { t: Some(depth + 1), ..cap }
        } else {
            cap
        }
    } else if name == "w:pStyle"@ {
        match attr(attrs, "w:val"@) {
            Some(v) if cap.ppr is Some && parent == "w:pPr"@ && trimmed(v).len() > 0 => CaptureV {
                p_style: Some(trimmed(v)),
                ..cap
            },
            _ => cap,
        }
    } else if name == "w:ilvl"@ {
        if cap.ppr is Some && parent == "w:numPr"@ && cap.num_ilvl is None {
            CaptureV { num_ilvl: i32_attr(attrs, "w:val"@), ..cap }
        } else {
            cap
        }
    } else if name == "w:numId"@ {
        if cap.ppr is Some && parent == "w:numPr"@ && cap.num_id is None {
            CaptureV { num_id: i32_attr(attrs, "w:val"@), ..cap }
        } else {
            cap
        }
    } else if name == "w:outlineLvl"@ {
        if cap.ppr is Some && parent == "w:pPr"@ && cap.outline_lvl is None {
            CaptureV { outline_lvl: i32_attr(attrs, "w:val"@), ..cap }
        } else {
            cap
        }
    } else if run_control(name) {
        if parent == "w:r"@ && in_run(cap, depth) {
            CaptureV { text: cap.text + control_text(name, attrs), ..cap }
        } else {
            cap
        }
    } else {
        cap
    }
}

/// What a text adds to a paragraph.
pub open spec fn capture_text(cap: CaptureV, text: Seq<char>) -> CaptureV {
    if cap.t is Some {
        CaptureV { text: cap.text + text, ..cap }
    } else {
        cap
    }
}

/// What a closing tag does to a paragraph. `depth` is the number of tags that are open up to and
/// with the one that is closed.
pub open spec fn capture_close(cap: CaptureV, name: Seq<char>, depth: nat) -> CaptureV {
    if name == "w:t"@ {
        if cap.t == Some(depth) {
            CaptureV { t: None, ..cap }
        } else {
            cap
        }
    } else if name == "w:pPr"@ {
        if cap.ppr == Some(depth) {
            CaptureV { ppr: None, ..cap }
        } else {
            cap
        }
    } else if name == "w:r"@ {
        CaptureV {
            run: if cap.run == Some(depth) {
                None
            } else {
                cap.run
            },
            link_run: if cap.link_run == Some(depth) {
                None
            } else {
                cap.link_run
            },
            ..cap
        }
    } else if name == "w:hyperlink"@ {
        if cap.link == Some(depth) {
            CaptureV { link: None, link_run: None, ..cap }
        } else {
            cap
        }
    } else {
        cap
    }
}

fn is_depth(o: &Option<usize>, n: usize) -> (r: bool)
    ensures
        r == (opt_nat(*o) == Some(n as nat)),
{
    match o {
        Some(x) => *x == n,
        None => false,
    }
}

impl ParaCapture {
    fn new(start: usize, p: usize) -> (r: ParaCapture)
        ensures
            r.deep_view() == new_capture(start as nat, p as nat),
    {
        let r = ParaCapture {
            start_event_index: start,
            p_stack_len: p,
            text: String::new(),
            p_style: None,
            num_id: None,
            num_ilvl: None,
            outline_lvl: None,
            direct_ppr_stack_len: None,
            direct_r_stack_len: None,
            hyperlink_stack_len: None,
            hyperlink_r_stack_len: None,
            w_t_stack_len: None,
        };
        assert(r.deep_view() =~= new_capture(start as nat, p as nat));
        r
    }

    fn open(
        &mut self,
        name: &str,
        attrs: &Vec<(String, String)>,
        parent: &str,
        depth: usize,
        empty: bool,
    )
        requires
            depth < usize::MAX,
        ensures
            final(self).deep_view() == capture_open(
                old(self).deep_view(),
                name@,
                attrs.deep_view(),
                parent@,
                depth as nat,
                empty,
            ),
    {
        let direct: bool = str_eq(parent, "w:p") && depth == self.p_stack_len;
        if str_eq(name, "w:pPr") {
            if direct {
                self.direct_ppr_stack_len = Some(depth + 1);
            }
        } else if !empty && str_eq(name, "w:hyperlink") {
            if direct {
                self.hyperlink_stack_len = Some(depth + 1);
            }
        } else if !empty && str_eq(name, "w:r") {
            if direct {
                self.direct_r_stack_len = Some(depth + 1);
            } else if str_eq(parent, "w:hyperlink") && is_depth(&self.hyperlink_stack_len, depth) {
                self.hyperlink_r_stack_len = Some(depth + 1);
            }
        } else if !empty && str_eq(name, "w:t") {
            if str_eq(parent, "w:r") && (is_depth(&self.direct_r_stack_len, depth) || is_depth(
                &self.hyperlink_r_stack_len,
                depth,
            )) {
                self.w_t_stack_len = Some(depth + 1);
            }
        } else if str_eq(name, "w:pStyle") {
            if self.direct_ppr_stack_len.is_some() && str_eq(parent, "w:pPr") {
                if let Some(v) = find_attr(attrs, "w:val") {
                    let t: String = trim(v);
                    if !t.as_str().is_empty() {
                        self.p_style = Some(t);
                    }
                }
            }
        } else if str_eq(name, "w:ilvl") {
            if self.direct_ppr_stack_len.is_some() && str_eq(parent, "w:numPr")
                && self.num_ilvl.is_none() {
                self.num_ilvl = parse_i32_attr(attrs, "w:val");
            }
        } else if str_eq(name, "w:numId") {
            if self.direct_ppr_stack_len.is_some() && str_eq(parent, "w:numPr")
                && self.num_id.is_none() {
                self.num_id = parse_i32_attr(attrs, "w:val");
            }
        } else if str_eq(name, "w:outlineLvl") {
            if self.direct_ppr_stack_len.is_some() && str_eq(parent, "w:pPr")
                && self.outline_lvl.is_none() {
                self.outline_lvl = parse_i32_attr(attrs, "w:val");
            }
        } else if is_run_control(name) {
            if str_eq(parent, "w:r") && (is_depth(&self.direct_r_stack_len, depth) || is_depth(
                &self.hyperlink_r_stack_len,
                depth,
            )) {
                control_append(&mut self.text, name, attrs);
            }
        }
        assert(self.deep_view() =~= capture_open(
            old(self).deep_view(),
            name@,
            attrs.deep_view(),
            parent@,
            depth as nat,
            empty,
        ));
    }

    fn take_text(&mut self, text: &str)
        ensures
            final(self).deep_view() == capture_text(old(self).deep_view(), text@),
    {
        if self.w_t_stack_len.is_some() {
            append(&mut self.text, text);
        }
        assert(self.deep_view() =~= capture_text(old(self).deep_view(), text@));
    }

    fn close(&mut self, name: &str, depth: usize)
        ensures
            final(self).deep_view() == capture_close(old(self).deep_view(), name@, depth as nat),
    {
        if str_eq(name, "w:t") {
            if is_depth(&self.w_t_stack_len, depth) {
                self.w_t_stack_len = None;
            }
        } else if str_eq(name, "w:pPr") {
            if is_depth(&self.direct_ppr_stack_len, depth) {
                self.direct_ppr_stack_len = None;
            }
        } else if str_eq(name, "w:r") {
            if is_depth(&self.direct_r_stack_len, depth) {
                self.direct_r_stack_len = None;
            }
            if is_depth(&self.hyperlink_r_stack_len, depth) {
                self.hyperlink_r_stack_len = None;
            }
        } else if str_eq(name, "w:hyperlink") {
            if is_depth(&self.hyperlink_stack_len, depth) {
                self.hyperlink_stack_len = None;
                self.hyperlink_r_stack_len = None;
            }
        }
        assert(self.deep_view() =~= capture_close(old(self).deep_view(), name@, depth as nat));
    }
}

/// Where a paragraph stands: its container, and the section or the table cell.
#[verifier::ext_equal]
pub struct PlaceV {
    pub container: ParaContainer,
    pub section: Option<nat>,
    pub table: Option<nat>,
    pub row: Option<nat>,
    pub cell: Option<nat>,
}

#[derive(Clone, Copy)]
struct Place {
    container: ParaContainer,
    section: Option<usize>,
    table: Option<usize>,
    row: Option<usize>,
    cell: Option<usize>,
}

impl DeepView for Place {
    type V = PlaceV;

    closed spec fn deep_view(&self) -> PlaceV {
        PlaceV {
            container: self.container,
            section: opt_nat(self.section),
            table: opt_nat(self.table),
            row: opt_nat(self.row),
            cell: opt_nat(self.cell),
        }
    }
}

/// The key of the paragraph that the event `start` of a part opens.
pub open spec fn para_key(part_name: Seq<char>, start: nat) -> Seq<char> {
    part_name + "#w:p@"@ + dec(start)
}

/// The paragraphs after one more is complete: it is added, with the next id, unless its text is
/// blank.
pub open spec fn with_paragraph(
    out: Seq<ParaV>,
    part_name: Seq<char>,
    cap: CaptureV,
    place: PlaceV,
) -> Seq<ParaV> {
    if trimmed(cap.text).len() == 0 {
        out
    } else {
        out.push(
            ParaV {
                para_id: out.len() + 1,
                part_name,
                scope_key: para_key(part_name, cap.start),
                xml_event_index: cap.start,
                container: place.container,
                section_index: place.section,
                table_index: place.table,
                row_index: place.row,
                cell_index: place.cell,
                p_style: cap.p_style,
                num_id: cap.num_id,
                num_ilvl: cap.num_ilvl,
                outline_lvl: cap.outline_lvl,
                text: cap.text,
            },
        )
    }
}

fn finalize_paragraph(out: &mut Vec<PureParagraph>, part_name: &str, cap: ParaCapture, place: Place)
    ensures
        final(out).deep_view() == with_paragraph(
            old(out).deep_view(),
            part_name@,
            cap.deep_view(),
            place.deep_view(),
        ),
{
    if blank(cap.text.as_str()) {
        return;
    }
    let ghost before = out.deep_view();
    let mut scope_key: String = owned(part_name);
    append(&mut scope_key, "#w:p@");
    let at: String = dec_usize(cap.start_event_index);
    append(&mut scope_key, at.as_str());
    let p = PureParagraph {
        para_id: 0,
        part_name: owned(part_name),
        scope_key,
        xml_event_index: cap.start_event_index,
        container: place.container,
        section_index: place.section,
        table_index: place.table,
        row_index: place.row,
        cell_index: place.cell,
        p_style: cap.p_style,
        num_id: cap.num_id,
        num_ilvl: cap.num_ilvl,
        outline_lvl: cap.outline_lvl,
        text: cap.text,
    };
    out.push(p);
    let n: usize = out.len();
    out[n - 1].para_id = n;
    assert(out.deep_view() =~= with_paragraph(
        before,
        part_name@,
        cap.deep_view(),
        place.deep_view(),
    ));
}


/// A paragraph that is being read, and where it stands.
#[verifier::ext_equal]
pub struct CapturingV {
    pub cap: CaptureV,
    pub place: PlaceV,
}

/// The state of reading the paragraphs of a document's body and of its tables.
#[verifier::ext_equal]
pub struct BodyV {
    pub stack: Seq<Seq<char>>,
    pub tbl_depth: nat,
    pub table: nat,
    pub row: nat,
    pub cell: nat,
    pub capturing: Option<CapturingV>,
    pub out: Seq<ParaV>,
}

pub open spec fn body_place() -> PlaceV {
    PlaceV {
        container: ParaContainer::DocumentBody,
        section: None,
        table: None,
        row: None,
        cell: None,
    }
}

/// The counters of tables, rows and cells after an opening tag. Only tables directly in the body
/// count, and only their own rows and cells.
pub open spec fn table_counters(st: BodyV, name: Seq<char>, parent: Seq<char>, empty: bool) -> BodyV {
    if name == "w:tbl"@ {
        let fresh = if parent == "w:body"@ && st.tbl_depth == 0 {
            BodyV { table: st.table + 1, row: 0, cell: 0, ..st }
        } else {
            st
        };
        if empty {
            fresh
        } else {
            BodyV { tbl_depth: st.tbl_depth + 1, ..fresh }
        }
    } else if !empty && name == "w:tr"@ {
        if st.tbl_depth == 1 && parent == "w:tbl"@ {
            BodyV { row: st.row + 1, cell: 0, ..st }
        } else {
            st
        }
    } else if !empty && name == "w:tc"@ {
        if st.tbl_depth == 1 && parent == "w:tr"@ {
            BodyV { cell: st.cell + 1, ..st }
        } else {
            st
        }
    } else {
        st
    }
}

/// The paragraph that a starting tag opens, or the one that is open already.
pub open spec fn body_paragraph(st: BodyV, idx: nat, name: Seq<char>, parent: Seq<char>) -> Option<
    CapturingV,
> {
    if st.capturing is Some {
        st.capturing
    } else if name == "w:p"@ && parent == "w:body"@ && st.tbl_depth == 0 {
        Some(CapturingV { cap: new_capture(idx, st.stack.len() + 1), place: body_place() })
    } else if name == "w:p"@ && parent == "w:tc"@ && st.tbl_depth == 1 {
        Some(
            CapturingV {
                cap: new_capture(idx, st.stack.len() + 1),
                place: PlaceV {
                    container: ParaContainer::TableCell,
                    section: None,
                    table: Some(st.table),
                    row: Some(st.row),
                    cell: Some(st.cell),
                },
            },
        )
    } else {
        None
    }
}

/// The open paragraph after an opening tag inside it.
pub open spec fn capturing_open(
    c: Option<CapturingV>,
    name: Seq<char>,
    attrs: AttrsV,
    parent: Seq<char>,
    depth: nat,
    empty: bool,
) -> Option<CapturingV> {
    match c {
        Some(c) => Some(
            CapturingV { cap: capture_open(c.cap, name, attrs, parent, depth, empty), place: c.place },
        ),
        None => None,
    }
}

/// Whether an end tag closes the paragraph that is read, and not one inside it, such as one of a text
/// box.
pub open spec fn closes_paragraph(cap: CaptureV, name: Seq<char>, depth: nat) -> bool {
    name == "w:p"@ && depth == cap.p
}

/// What one event does to the state of reading a document.
pub open spec fn body_step(part_name: Seq<char>, st: BodyV, idx: nat, ev: EventV) -> BodyV {
    let parent = top(st.stack);
    let depth = st.stack.len();
    match ev {
        EventV::Start { name, attrs } => {
            let counted = table_counters(st, name, parent, false);
            let capturing = body_paragraph(counted, idx, name, parent);
            BodyV {
                stack: st.stack.push(name),
                capturing: capturing_open(capturing, name, attrs, parent, depth, false),
                ..counted
            }
        },
        EventV::Empty { name, attrs } => {
            let counted = table_counters(st, name, parent, true);
            BodyV {
                capturing: capturing_open(st.capturing, name, attrs, parent, depth, true),
                ..counted
            }
        },
        EventV::Text { text } => match st.capturing {
            Some(c) => BodyV {
                capturing: Some(CapturingV { cap: capture_text(c.cap, text), place: c.place }),
                ..st
            },
            None => st,
        },
        EventV::End { name } => {
            let closed = match st.capturing {
                Some(c) => Some(
                    CapturingV { cap: capture_close(c.cap, name, depth), place: c.place },
                ),
                None => None,
            };
            BodyV {
                stack: popped(st.stack),
                tbl_depth: if name == "w:tbl"@ && st.tbl_depth > 0 {
                    (st.tbl_depth - 1) as nat
                } else {
                    st.tbl_depth
                },
                capturing: match closed {
                    Some(c) if closes_paragraph(c.cap, name, depth) => None,
                    _ => closed,
                },
                out: match closed {
                    Some(c) if closes_paragraph(c.cap, name, depth) => with_paragraph(
                        st.out,
                        part_name,
                        c.cap,
                        c.place,
                    ),
                    _ => st.out,
                },
                ..st
            }
        },
        _ => st,
    }
}

/// The state of reading a document after a sequence of events.
pub open spec fn body_run(part_name: Seq<char>, events: Seq<EventV>) -> BodyV
    decreases events.len(),
{
    if events.len() == 0 {
        BodyV {
            stack: Seq::empty(),
            tbl_depth: 0,
            table: 0,
            row: 0,
            cell: 0,
            capturing: None,
            out: Seq::empty(),
        }
    } else {
        let before = events.drop_last();
        body_step(part_name, body_run(part_name, before), before.len(), events.last())
    }
}

struct Capturing {
    cap: ParaCapture,
    place: Place,
}

impl DeepView for Capturing {
    type V = CapturingV;

    closed spec fn deep_view(&self) -> CapturingV {
        CapturingV { cap: self.cap.deep_view(), place: self.place.deep_view() }
    }
}

struct BodyReader {
    stack: Vec<String>,
    tbl_depth: usize,
    table: usize,
    row: usize,
    cell: usize,
    capturing: Option<Capturing>,
    out: Vec<PureParagraph>,
}

impl DeepView for BodyReader {
    type V = BodyV;

    closed spec fn deep_view(&self) -> BodyV {
        BodyV {
            stack: self.stack.deep_view(),
            tbl_depth: self.tbl_depth as nat,
            table: self.table as nat,
            row: self.row as nat,
            cell: self.cell as nat,
            capturing: self.capturing.deep_view(),
            out: self.out.deep_view(),
        }
    }
}

/// The bounds that keep the counters in range: each grows by at most one with each event.
spec fn body_bounded(st: BodyV, n: nat) -> bool {
    st.stack.len() <= n && st.tbl_depth <= n && st.table <= n && st.row <= n && st.cell <= n
}

impl BodyReader {
    fn count_tables(&mut self, name: &str, parent: &str, empty: bool)
        requires
            old(self).tbl_depth < usize::MAX,
            old(self).table < usize::MAX,
            old(self).row < usize::MAX,
            old(self).cell < usize::MAX,
        ensures
            final(self).deep_view() == table_counters(old(self).deep_view(), name@, parent@, empty),
    {
        if str_eq(name, "w:tbl") {
            if str_eq(parent, "w:body") && self.tbl_depth == 0 {
                self.table = self.table + 1;
                self.row = 0;
                self.cell = 0;
            }
            if !empty {
                self.tbl_depth = self.tbl_depth + 1;
            }
        } else if !empty && str_eq(name, "w:tr") {
            if self.tbl_depth == 1 && str_eq(parent, "w:tbl") {
                self.row = self.row + 1;
                self.cell = 0;
            }
        } else if !empty && str_eq(name, "w:tc") {
            if self.tbl_depth == 1 && str_eq(parent, "w:tr") {
                self.cell = self.cell + 1;
            }
        }
        assert(self.deep_view() =~= table_counters(old(self).deep_view(), name@, parent@, empty));
    }

    fn open_paragraph(&mut self, idx: usize, name: &str, parent: &str)
        requires
            old(self).stack@.len() < usize::MAX,
        ensures
            final(self).deep_view() == (BodyV {
                capturing: body_paragraph(old(self).deep_view(), idx as nat, name@, parent@),
                ..old(self).deep_view()
            }),
    {
        if self.capturing.is_none() && str_eq(name, "w:p") {
            if str_eq(parent, "w:body") && self.tbl_depth == 0 {
                self.capturing = Some(
                    Capturing {
                        cap: ParaCapture::new(idx, self.stack.len() + 1),
                        place: Place {
                            container: ParaContainer::DocumentBody,
                            section: None,
                            table: None,
                            row: None,
                            cell: None,
                        },
                    },
                );
            } else if str_eq(parent, "w:tc") && self.tbl_depth == 1 {
                self.capturing = Some(
                    Capturing {
                        cap: ParaCapture::new(idx, self.stack.len() + 1),
                        place: Place {
                            container: ParaContainer::TableCell,
                            section: None,
                            table: Some(self.table),
                            row: Some(self.row),
                            cell: Some(self.cell),
                        },
                    },
                );
            }
        }
        assert(self.deep_view() =~= (BodyV {
            capturing: body_paragraph(old(self).deep_view(), idx as nat, name@, parent@),
            ..old(self).deep_view()
        }));
    }

    fn step(&mut self, part_name: &str, idx: usize, ev: &XmlEvent)
        requires
            body_bounded(old(self).deep_view(), idx as nat),
            idx < usize::MAX,
        ensures
            final(self).deep_view() == body_step(
                part_name@,
                old(self).deep_view(),
                idx as nat,
                ev.deep_view(),
            ),
            body_bounded(final(self).deep_view(), (idx + 1) as nat),
    {
        let ghost before = self.deep_view();
        match ev {
            XmlEvent::Start { name, attrs } => {
                let parent: String = owned(top_of(&self.stack));
                let depth: usize = self.stack.len();
                self.count_tables(name.as_str(), parent.as_str(), false);
                self.open_paragraph(idx, name.as_str(), parent.as_str());
                let c = self.capturing.take();
                self.capturing = match c {
                    Some(mut c) => {
                        c.cap.open(name.as_str(), attrs, parent.as_str(), depth, false);
                        Some(c)
                    },
                    None => None,
                };
                push_deep(&mut self.stack, name.clone());
            },
            XmlEvent::Empty { name, attrs } => {
                let parent: String = owned(top_of(&self.stack));
                let depth: usize = self.stack.len();
                self.count_tables(name.as_str(), parent.as_str(), true);
                let c = self.capturing.take();
                self.capturing = match c {
                    Some(mut c) => {
                        c.cap.open(name.as_str(), attrs, parent.as_str(), depth, true);
                        Some(c)
                    },
                    None => None,
                };
            },
            XmlEvent::Text { text } => {
                let c = self.capturing.take();
                self.capturing = match c {
                    Some(mut c) => {
                        c.cap.take_text(text.as_str());
                        Some(c)
                    },
                    None => None,
                };
            },
            XmlEvent::End { name } => {
                let depth: usize = self.stack.len();
                let c = self.capturing.take();
                match c {
                    Some(mut c) => {
                        c.cap.close(name.as_str(), depth);
                        if str_eq(name.as_str(), "w:p") && depth == c.cap.p_stack_len {
                            finalize_paragraph(&mut self.out, part_name, c.cap, c.place);
                        } else {
                            self.capturing = Some(c);
                        }
                    },
                    None => {},
                }
                if str_eq(name.as_str(), "w:tbl") && self.tbl_depth > 0 {
                    self.tbl_depth = self.tbl_depth - 1;
                }
                let _ = pop_deep(&mut self.stack);
            },
            _ => {},
        }
        assert(self.deep_view() =~= body_step(part_name@, before, idx as nat, ev.deep_view()));
    }
}

/// The paragraphs of the body and of the tables of a document.
fn extract_body_and_tables_from_document(part: &XmlPart) -> (out: Vec<PureParagraph>)
    ensures
        out.deep_view() == body_run(part.name@, part.events.deep_view()).out,
{
    let mut st = BodyReader {
        stack: Vec::new(),
        tbl_depth: 0,
        table: 0,
        row: 0,
        cell: 0,
        capturing: None,
        out: Vec::new(),
    };
    let ghost model = part.events.deep_view();
    let mut idx: usize = 0;
    assert(model.take(0) =~= Seq::<EventV>::empty());
    assert(st.deep_view() =~= body_run(part.name@, model.take(0)));
    while idx < part.events.len()
        invariant
            idx <= part.events@.len(),
            model == part.events.deep_view(),
            st.deep_view() == body_run(part.name@, model.take(idx as int)),
            body_bounded(st.deep_view(), idx as nat),
        decreases part.events@.len() - idx,
    {
        assert(model[idx as int] == part.events@[idx as int].deep_view());
        assert(model.take(idx + 1).drop_last() =~= model.take(idx as int));
        st.step(part.name.as_str(), idx, &part.events[idx]);
        idx = idx + 1;
    }
    assert(model.take(idx as int) =~= model);
    st.out
}

/// The state of reading the paragraphs directly under the root of a header or a footer.
#[verifier::ext_equal]
pub struct DirectV {
    pub stack: Seq<Seq<char>>,
    pub cap: Option<CaptureV>,
    pub out: Seq<ParaV>,
}

/// What one event does to the state of reading a header or a footer.
pub open spec fn direct_step(
    part_name: Seq<char>,
    root: Seq<char>,
    place: PlaceV,
    st: DirectV,
    idx: nat,
    ev: EventV,
) -> DirectV {
    let parent = top(st.stack);
    let depth = st.stack.len();
    match ev {
        EventV::Start { name, attrs } => {
            let cap = if name == "w:p"@ && parent == root {
                Some(new_capture(idx, depth + 1))
            } else {
                st.cap
            };
            DirectV {
                stack: st.stack.push(name),
                cap: match cap {
                    Some(c) => Some(capture_open(c, name, attrs, parent, depth, false)),
                    None => None,
                },
                out: st.out,
            }
        },
        EventV::Empty { name, attrs } => if name == "w:p"@ && parent == root {
            DirectV {
                out: with_paragraph(st.out, part_name, new_capture(idx, 0), place),
                ..st
            }
        } else {
            DirectV {
                cap: match st.cap {
                    Some(c) => Some(capture_open(c, name, attrs, parent, depth, true)),
                    None => None,
                },
                ..st
            }
        },
        EventV::Text { text } => DirectV {
            cap: match st.cap {
                Some(c) => Some(capture_text(c, text)),
                None => None,
            },
            ..st
        },
        EventV::End { name } => {
            let closed = match st.cap {
                Some(c) => Some(capture_close(c, name, depth)),
                None => None,
            };
            DirectV {
                stack: popped(st.stack),
                cap: match closed {
                    Some(c) if closes_paragraph(c, name, depth) => None,
                    _ => closed,
                },
                out: match closed {
                    Some(c) if closes_paragraph(c, name, depth) => with_paragraph(
                        st.out,
                        part_name,
                        c,
                        place,
                    ),
                    _ => st.out,
                },
            }
        },
        _ => st,
    }
}

/// The state of reading a header or a footer after a sequence of events; `start` holds the
/// paragraphs that were read before it.
pub open spec fn direct_run(
    part_name: Seq<char>,
    root: Seq<char>,
    place: PlaceV,
    start: Seq<ParaV>,
    events: Seq<EventV>,
) -> DirectV
    decreases events.len(),
{
    if events.len() == 0 {
        DirectV { stack: Seq::empty(), cap: None, out: start }
    } else {
        let before = events.drop_last();
        direct_step(
            part_name,
            root,
            place,
            direct_run(part_name, root, place, start, before),
            before.len(),
            events.last(),
        )
    }
}

struct DirectReader {
    stack: Vec<String>,
    cap: Option<ParaCapture>,
    out: Vec<PureParagraph>,
}

impl DeepView for DirectReader {
    type V = DirectV;

    closed spec fn deep_view(&self) -> DirectV {
        DirectV {
            stack: self.stack.deep_view(),
            cap: self.cap.deep_view(),
            out: self.out.deep_view(),
        }
    }
}

impl DirectReader {
    fn step(&mut self, part_name: &str, root: &str, place: Place, idx: usize, ev: &XmlEvent)
        requires
            old(self).stack@.len() <= idx,
            idx < usize::MAX,
        ensures
            final(self).deep_view() == direct_step(
                part_name@,
                root@,
                place.deep_view(),
                old(self).deep_view(),
                idx as nat,
                ev.deep_view(),
            ),
            final(self).stack@.len() <= idx + 1,
    {
        let ghost before = self.deep_view();
        assert(self.stack.deep_view().len() == self.stack@.len());
        match ev {
            XmlEvent::Start { name, attrs } => {
                let parent: String = owned(top_of(&self.stack));
                let depth: usize = self.stack.len();
                if str_eq(name.as_str(), "w:p") && str_eq(parent.as_str(), root) {
                    self.cap = Some(ParaCapture::new(idx, depth + 1));
                }
                let c = self.cap.take();
                self.cap = match c {
                    Some(mut c) => {
                        c.open(name.as_str(), attrs, parent.as_str(), depth, false);
                        Some(c)
                    },
                    None => None,
                };
                push_deep(&mut self.stack, name.clone());
            },
            XmlEvent::Empty { name, attrs } => {
                let parent: String = owned(top_of(&self.stack));
                let depth: usize = self.stack.len();
                if str_eq(name.as_str(), "w:p") && str_eq(parent.as_str(), root) {
                    finalize_paragraph(&mut self.out, part_name, ParaCapture::new(idx, 0), place);
                } else {
                    let c = self.cap.take();
                    self.cap = match c {
                        Some(mut c) => {
                            c.open(name.as_str(), attrs, parent.as_str(), depth, true);
                            Some(c)
                        },
                        None => None,
                    };
                }
            },
            XmlEvent::Text { text } => {
                let c = self.cap.take();
                self.cap = match c {
                    Some(mut c) => {
                        c.take_text(text.as_str());
                        Some(c)
                    },
                    None => None,
                };
            },
            XmlEvent::End { name } => {
                let depth: usize = self.stack.len();
                let c = self.cap.take();
                match c {
                    Some(mut c) => {
                        c.close(name.as_str(), depth);
                        if str_eq(name.as_str(), "w:p") && depth == c.p_stack_len {
                            finalize_paragraph(&mut self.out, part_name, c, place);
                        } else {
                            self.cap = Some(c);
                        }
                    },
                    None => {},
                }
                let _ = pop_deep(&mut self.stack);
            },
            _ => {},
        }
        assert(self.stack.deep_view().len() == self.stack@.len());
        assert(self.deep_view() =~= direct_step(
            part_name@,
            root@,
            place.deep_view(),
            before,
            idx as nat,
            ev.deep_view(),
        ));
    }
}

/// Adds the paragraphs directly under the root of a header or a footer.
fn extract_direct_paragraphs_from_part(
    part: &XmlPart,
    root_tag: &str,
    place: Place,
    out: Vec<PureParagraph>,
) -> (r: Vec<PureParagraph>)
    ensures
        r.deep_view() == direct_run(
            part.name@,
            root_tag@,
            place.deep_view(),
            out.deep_view(),
            part.events.deep_view(),
        ).out,
{
    let ghost start = out.deep_view();
    let mut st = DirectReader { stack: Vec::new(), cap: None, out };
    let ghost model = part.events.deep_view();
    let mut idx: usize = 0;
    assert(model.take(0) =~= Seq::<EventV>::empty());
    assert(st.deep_view() =~= direct_run(
        part.name@,
        root_tag@,
        place.deep_view(),
        start,
        model.take(0),
    ));
    while idx < part.events.len()
        invariant
            idx <= part.events@.len(),
            model == part.events.deep_view(),
            st.deep_view() == direct_run(
                part.name@,
                root_tag@,
                place.deep_view(),
                start,
                model.take(idx as int),
            ),
            st.stack@.len() <= idx,
        decreases part.events@.len() - idx,
    {
        assert(model[idx as int] == part.events@[idx as int].deep_view());
        assert(model.take(idx + 1).drop_last() =~= model.take(idx as int));
        st.step(part.name.as_str(), root_tag, place, idx, &part.events[idx]);
        idx = idx + 1;
    }
    assert(model.take(idx as int) =~= model);
    st.out
}


/// The name of the part that a relationship's target stands for: without leading slashes and
/// without leading `../`, after `base`.
pub open spec fn target_name(base: Seq<char>, target: Seq<char>) -> Seq<char> {
    base + without_prefix(
        without_prefix(replaced(target, "\\"@, "/"@), "/"@),
        "../"@,
    )
}

fn normalize_target(base: &str, target: &str) -> (r: String)
    ensures
        r@ == target_name(base@, target@),
{
    proof {
        reveal_strlit("\\");
    }
    let t: String = replace(target, "\\", "/");
    let t: String = trim_start_matches(t.as_str(), "/");
    let t: String = trim_start_matches(t.as_str(), "../");
    let mut r: String = owned(base);
    append(&mut r, t.as_str());
    r
}

/// The value of an attribute without white space round it, or nothing.
pub open spec fn attr_trimmed(attrs: AttrsV, key: Seq<char>) -> Seq<char> {
    match attr(attrs, key) {
        Some(v) => trimmed(v),
        None => Seq::empty(),
    }
}

fn find_attr_trimmed(attrs: &Vec<(String, String)>, key: &str) -> (r: String)
    ensures
        r@ == attr_trimmed(attrs.deep_view(), key@),
{
    match find_attr(attrs, key) {
        Some(v) => trim(v),
        None => String::new(),
    }
}

/// The relationship that a tag states: its id and the name of its part.
pub open spec fn relationship(name: Seq<char>, attrs: AttrsV) -> Option<(Seq<char>, Seq<char>)> {
    let id = attr_trimmed(attrs, "Id"@);
    let target = attr_trimmed(attrs, "Target"@);
    if name != "Relationship"@ || id.len() == 0 || target.len() == 0 {
        None
    } else {
        Some((id, target_name("word/"@, target)))
    }
}

/// The relationship that an event states.
pub open spec fn event_relationship(ev: EventV) -> Option<(Seq<char>, Seq<char>)> {
    match ev {
        EventV::Start { name, attrs } => relationship(name, attrs),
        EventV::Empty { name, attrs } => relationship(name, attrs),
        _ => None,
    }
}

/// The name of the part with the relationship id `id`. The last statement counts.
pub open spec fn rel_target(events: Seq<EventV>, id: Seq<char>) -> Option<Seq<char>>
    decreases events.len(),
{
    if events.len() == 0 {
        None
    } else {
        match event_relationship(events.last()) {
            Some((k, t)) if k == id => Some(t),
            _ => rel_target(events.drop_last(), id),
        }
    }
}

/// The name that the last pair with the key `id` holds.
pub open spec fn last_value(map: Seq<(Seq<char>, Seq<char>)>, id: Seq<char>) -> Option<Seq<char>>
    decreases map.len(),
{
    if map.len() == 0 {
        None
    } else if map.last().0 == id {
        Some(map.last().1)
    } else {
        last_value(map.drop_last(), id)
    }
}

fn find_last<'a>(map: &'a Vec<(String, String)>, id: &str) -> (r: Option<&'a str>)
    ensures
        r.deep_view() == last_value(map.deep_view(), id@),
{
    let ghost model = map.deep_view();
    let mut i: usize = map.len();
    assert(model.take(i as int) =~= model);
    while i > 0
        invariant
            i <= map@.len(),
            model == map.deep_view(),
            last_value(model.take(i as int), id@) == last_value(model, id@),
        decreases i,
    {
        assert(model.take(i as int).last() == map@[i - 1].deep_view());
        assert(model.take(i as int).drop_last() =~= model.take(i - 1));
        if str_eq(map[i - 1].0.as_str(), id) {
            return Some(map[i - 1].1.as_str());
        }
        i = i - 1;
    }
    None
}

fn read_relationship(name: &str, attrs: &Vec<(String, String)>) -> (r: Option<(String, String)>)
    ensures
        r.deep_view() == relationship(name@, attrs.deep_view()),
{
    if !str_eq(name, "Relationship") {
        return None;
    }
    let id: String = find_attr_trimmed(attrs, "Id");
    let target: String = find_attr_trimmed(attrs, "Target");
    if id.as_str().is_empty() || target.as_str().is_empty() {
        return None;
    }
    Some((id, normalize_target("word/", target.as_str())))
}

/// The relationships that a part states.
fn extract_doc_rels_map(doc_rels: &XmlPart) -> (r: Vec<(String, String)>)
    ensures
        forall|id: Seq<char>| #[trigger]
            last_value(r.deep_view(), id) == rel_target(doc_rels.events.deep_view(), id),
{
    let ghost model = doc_rels.events.deep_view();
    let mut map: Vec<(String, String)> = Vec::new();
    let mut i: usize = 0;
    assert(model.take(0) =~= Seq::<EventV>::empty());
    while i < doc_rels.events.len()
        invariant
            i <= doc_rels.events@.len(),
            model == doc_rels.events.deep_view(),
            forall|id: Seq<char>| #[trigger]
                last_value(map.deep_view(), id) == rel_target(model.take(i as int), id),
        decreases doc_rels.events@.len() - i,
    {
        let ghost before = map.deep_view();
        let ev: &XmlEvent = &doc_rels.events[i];
        assert(model.take(i + 1).last() == ev.deep_view());
        assert(model.take(i + 1).drop_last() =~= model.take(i as int));
        let rel = match ev {
            XmlEvent::Start { name, attrs } => read_relationship(name.as_str(), attrs),
            XmlEvent::Empty { name, attrs } => read_relationship(name.as_str(), attrs),
            _ => None,
        };
        if let Some(kv) = rel {
            push_deep(&mut map, kv);
            assert(map.deep_view().drop_last() =~= before);
        }
        assert forall|id: Seq<char>| #[trigger]
            last_value(map.deep_view(), id) == rel_target(model.take(i + 1), id) by {
            assert(last_value(before, id) == rel_target(model.take(i as int), id));
        }
        i = i + 1;
    }
    assert(model.take(i as int) =~= model);
    map
}

/// The header and the footer of a section, by relationship id.
#[verifier::ext_equal]
pub struct SectionV {
    pub header: Option<Seq<char>>,
    pub footer: Option<Seq<char>>,
}

struct SectionRefs {
    header_rid: Option<String>,
    footer_rid: Option<String>,
}

impl DeepView for SectionRefs {
    type V = SectionV;

    closed spec fn deep_view(&self) -> SectionV {
        SectionV { header: self.header_rid.deep_view(), footer: self.footer_rid.deep_view() }
    }
}

/// The state of reading the sections of a document.
#[verifier::ext_equal]
pub struct SectionsV {
    pub sections: Seq<SectionV>,
    pub stack: Seq<Seq<char>>,
    /// How many tags are open around the section properties that are open.
    pub sectpr: Option<nat>,
    pub cur: SectionV,
    pub pending: SectionV,
}

/// Whether a tag holds the properties of a section: one directly in the body, or in the properties
/// of a paragraph of the body.
pub open spec fn section_tag(name: Seq<char>, stack: Seq<Seq<char>>) -> bool {
    name == "w:sectPr"@ && (top(stack) == "w:body"@ || (top(stack) == "w:pPr"@ && stack.len() >= 3
        && stack[stack.len() - 2] == "w:p"@ && stack[stack.len() - 3] == "w:body"@))
}

/// The section before, with what is pending in place of what it had.
pub open spec fn updated_section(cur: SectionV, pending: SectionV) -> SectionV {
    SectionV {
        header: if pending.header is Some {
            pending.header
        } else {
            cur.header
        },
        footer: if pending.footer is Some {
            pending.footer
        } else {
            cur.footer
        },
    }
}

pub open spec fn no_section() -> SectionV {
    SectionV { header: None, footer: None }
}

/// The state after a section is complete.
pub open spec fn section_done(st: SectionsV) -> SectionsV {
    let cur = updated_section(st.cur, st.pending);
    SectionsV {
        sections: st.sections.push(cur),
        sectpr: None,
        cur,
        pending: no_section(),
        ..st
    }
}

pub open spec fn reference_tag(name: Seq<char>) -> bool {
    name == "w:headerReference"@ || name == "w:footerReference"@
}

/// Whether a reference is of the default type.
pub open spec fn default_type(attrs: AttrsV) -> bool {
    match attr(attrs, "w:type"@) {
        Some(t) => t == "default"@,
        None => true,
    }
}

/// What a reference of the default type makes pending.
pub open spec fn with_reference(pending: SectionV, name: Seq<char>, attrs: AttrsV) -> SectionV {
    let rid = attr_trimmed(attrs, "r:id"@);
    if rid.len() == 0 {
        pending
    } else if name == "w:headerReference"@ {
        SectionV { header: Some(rid), ..pending }
    } else {
        SectionV { footer: Some(rid), ..pending }
    }
}

/// What one event does to the state of reading the sections. A reference of another type than the
/// default one is passed over. A section is complete where the tag that opened it is closed, and not
/// where older properties inside it are.
pub open spec fn section_step(st: SectionsV, ev: EventV) -> SectionsV {
    match ev {
        EventV::Start { name, attrs } => if section_tag(name, st.stack) {
            SectionsV {
                sectpr: Some(st.stack.len()),
                pending: no_section(),
                stack: st.stack.push(name),
                ..st
            }
        } else if st.sectpr is Some && reference_tag(name) && default_type(attrs) {
            SectionsV {
                pending: with_reference(st.pending, name, attrs),
                stack: st.stack.push(name),
                ..st
            }
        } else {
            SectionsV { stack: st.stack.push(name), ..st }
        },
        EventV::Empty { name, attrs } => if section_tag(name, st.stack) {
            section_done(st)
        } else if st.sectpr is Some && reference_tag(name) && default_type(attrs) {
            SectionsV { pending: with_reference(st.pending, name, attrs), ..st }
        } else {
            st
        },
        EventV::End { name } => {
            let done = if name == "w:sectPr"@ && st.stack.len() > 0 && st.sectpr == Some(
                (st.stack.len() - 1) as nat,
            ) {
                section_done(st)
            } else {
                st
            };
            SectionsV { stack: popped(st.stack), ..done }
        },
        _ => st,
    }
}

/// The state of reading the sections after a sequence of events.
pub open spec fn section_run(events: Seq<EventV>) -> SectionsV
    decreases events.len(),
{
    if events.len() == 0 {
        SectionsV {
            sections: Seq::empty(),
            stack: Seq::empty(),
            sectpr: None,
            cur: no_section(),
            pending: no_section(),
        }
    } else {
        section_step(section_run(events.drop_last()), events.last())
    }
}

struct SectionReader {
    sections: Vec<SectionRefs>,
    stack: Vec<String>,
    sectpr: Option<usize>,
    cur: SectionRefs,
    pending: SectionRefs,
}

impl DeepView for SectionReader {
    type V = SectionsV;

    closed spec fn deep_view(&self) -> SectionsV {
        SectionsV {
            sections: self.sections.deep_view(),
            stack: self.stack.deep_view(),
            sectpr: opt_nat(self.sectpr),
            cur: self.cur.deep_view(),
            pending: self.pending.deep_view(),
        }
    }
}

fn is_section_tag(name: &str, stack: &Vec<String>) -> (r: bool)
    ensures
        r == section_tag(name@, stack.deep_view()),
{
    let n: usize = stack.len();
    let ghost model = stack.deep_view();
    if !str_eq(name, "w:sectPr") {
        return false;
    }
    let parent: &str = top_of(stack);
    if str_eq(parent, "w:body") {
        return true;
    }
    if !str_eq(parent, "w:pPr") || n < 3 {
        return false;
    }
    assert(model[n - 2] == stack@[n - 2]@);
    assert(model[n - 3] == stack@[n - 3]@);
    str_eq(stack[n - 2].as_str(), "w:p") && str_eq(stack[n - 3].as_str(), "w:body")
}

fn is_default_type(attrs: &Vec<(String, String)>) -> (r: bool)
    ensures
        r == default_type(attrs.deep_view()),
{
    match find_attr(attrs, "w:type") {
        Some(t) => str_eq(t, "default"),
        None => true,
    }
}

impl SectionReader {
    fn done(&mut self)
        ensures
            final(self).deep_view() == section_done(old(self).deep_view()),
    {
        let ghost before = self.deep_view();
        if let Some(h) = self.pending.header_rid.take() {
            self.cur.header_rid = Some(h);
        }
        if let Some(f) = self.pending.footer_rid.take() {
            self.cur.footer_rid = Some(f);
        }
        let section = SectionRefs {
            header_rid: clone_opt(&self.cur.header_rid),
            footer_rid: clone_opt(&self.cur.footer_rid),
        };
        push_deep(&mut self.sections, section);
        self.sectpr = None;
        assert(self.deep_view() =~= section_done(before));
    }

    fn reference(&mut self, name: &str, attrs: &Vec<(String, String)>)
        ensures
            final(self).deep_view() == (SectionsV {
                pending: with_reference(old(self).deep_view().pending, name@, attrs.deep_view()),
                ..old(self).deep_view()
            }),
    {
        let ghost before = self.deep_view();
        let rid: String = find_attr_trimmed(attrs, "r:id");
        if !rid.as_str().is_empty() {
            if str_eq(name, "w:headerReference") {
                self.pending.header_rid = Some(rid);
            } else {
                self.pending.footer_rid = Some(rid);
            }
        }
        assert(self.deep_view() =~= (SectionsV {
            pending: with_reference(before.pending, name@, attrs.deep_view()),
            ..before
        }));
    }

    fn step(&mut self, ev: &XmlEvent)
        ensures
            final(self).deep_view() == section_step(old(self).deep_view(), ev.deep_view()),
    {
        let ghost before = self.deep_view();
        match ev {
            XmlEvent::Start { name, attrs } => {
                if is_section_tag(name.as_str(), &self.stack) {
                    self.sectpr = Some(self.stack.len());
                    self.pending = SectionRefs { header_rid: None, footer_rid: None };
                    push_deep(&mut self.stack, name.clone());
                } else {
                    if self.sectpr.is_some() && (str_eq(name.as_str(), "w:headerReference")
                        || str_eq(name.as_str(), "w:footerReference")) && is_default_type(attrs) {
                        self.reference(name.as_str(), attrs);
                    }
                    push_deep(&mut self.stack, name.clone());
                }
            },
            XmlEvent::Empty { name, attrs } => {
                if is_section_tag(name.as_str(), &self.stack) {
                    self.done();
                } else if self.sectpr.is_some() && (str_eq(name.as_str(), "w:headerReference") || str_eq(
                    name.as_str(),
                    "w:footerReference",
                )) && is_default_type(attrs) {
                    self.reference(name.as_str(), attrs);
                }
            },
            XmlEvent::End { name } => {
                let n: usize = self.stack.len();
                if str_eq(name.as_str(), "w:sectPr") && n > 0 && is_depth(&self.sectpr, n - 1) {
                    self.done();
                }
                let _ = pop_deep(&mut self.stack);
            },
            _ => {},
        }
        assert(self.deep_view() =~= section_step(before, ev.deep_view()));
    }
}

/// The sections of a document, with the header and the footer that each has.
fn extract_sections_from_document_xml(doc: &XmlPart) -> (r: Vec<SectionRefs>)
    ensures
        r.deep_view() == section_run(doc.events.deep_view()).sections,
{
    let mut st = SectionReader {
        sections: Vec::new(),
        stack: Vec::new(),
        sectpr: None,
        cur: SectionRefs { header_rid: None, footer_rid: None },
        pending: SectionRefs { header_rid: None, footer_rid: None },
    };
    let ghost model = doc.events.deep_view();
    let mut i: usize = 0;
    assert(model.take(0) =~= Seq::<EventV>::empty());
    assert(st.deep_view() =~= section_run(model.take(0)));
    while i < doc.events.len()
        invariant
            i <= doc.events@.len(),
            model == doc.events.deep_view(),
            st.deep_view() == section_run(model.take(i as int)),
        decreases doc.events@.len() - i,
    {
        assert(model[i as int] == doc.events@[i as int].deep_view());
        assert(model.take(i + 1).drop_last() =~= model.take(i as int));
        st.step(&doc.events[i]);
        i = i + 1;
    }
    assert(model.take(i as int) =~= model);
    st.sections
}


/// The data of the last entry with the name `name`.
pub open spec fn entry_data(entries: Seq<EntryV>, name: Seq<char>) -> Option<Seq<u8>>
    decreases entries.len(),
{
    if entries.len() == 0 {
        None
    } else if entries.last().name == name {
        Some(entries.last().data)
    } else {
        entry_data(entries.drop_last(), name)
    }
}

/// The view of an optional byte vector.
pub open spec fn opt_vec(o: Option<&Vec<u8>>) -> Option<Seq<u8>> {
    match o {
        Some(b) => Some(b@),
        None => None,
    }
}

fn find_entry<'a>(entries: &'a Vec<DocxEntry>, name: &str) -> (r: Option<&'a Vec<u8>>)
    ensures
        opt_vec(r) == entry_data(entries.deep_view(), name@),
{
    let ghost model = entries.deep_view();
    let mut i: usize = entries.len();
    assert(model.take(i as int) =~= model);
    while i > 0
        invariant
            i <= entries@.len(),
            model == entries.deep_view(),
            entry_data(model.take(i as int), name@) == entry_data(model, name@),
        decreases i,
    {
        assert(model.take(i as int).last() == entries@[i - 1].deep_view());
        assert(model.take(i as int).drop_last() =~= model.take(i - 1));
        if str_eq(entries[i - 1].name.as_str(), name) {
            return Some(&entries[i - 1].data);
        }
        i = i - 1;
    }
    None
}

/// The paragraphs after those of the header or the footer with the relationship id `rid`. One that
/// is not in the package, or that is empty, adds none.
pub open spec fn with_header_footer(
    entries: Seq<EntryV>,
    rels: Seq<EventV>,
    out: Seq<ParaV>,
    rid: Option<Seq<char>>,
    root: Seq<char>,
    place: PlaceV,
) -> Result<Seq<ParaV>, DocxErrorV> {
    match rid {
        None => Ok(out),
        Some(rid) => match rel_target(rels, rid) {
            None => Ok(out),
            Some(name) => match entry_data(entries, name) {
                None => Ok(out),
                Some(data) => if data.len() == 0 {
                    Ok(out)
                } else {
                    match parsed(data) {
                        Err(error) => Err(DocxErrorV::Xml { part: name, error }),
                        Ok(events) => Ok(direct_run(name, root, place, out, events).out),
                    }
                },
            },
        },
    }
}

/// The place of a header or a footer.
pub open spec fn margin_place(container: ParaContainer, section: nat) -> PlaceV {
    PlaceV { container, section: Some(section), table: None, row: None, cell: None }
}

/// The paragraphs after those of the headers and footers of the sections from `i` on.
pub open spec fn with_sections(
    entries: Seq<EntryV>,
    rels: Seq<EventV>,
    out: Seq<ParaV>,
    sections: Seq<SectionV>,
    i: nat,
) -> Result<Seq<ParaV>, DocxErrorV>
    decreases sections.len() - i,
{
    if i >= sections.len() {
        Ok(out)
    } else {
        let s = sections[i as int];
        match with_header_footer(
            entries,
            rels,
            out,
            s.header,
            "w:hdr"@,
            margin_place(ParaContainer::Header, i + 1),
        ) {
            Err(e) => Err(e),
            Ok(a) => match with_header_footer(
                entries,
                rels,
                a,
                s.footer,
                "w:ftr"@,
                margin_place(ParaContainer::Footer, i + 1),
            ) {
                Err(e) => Err(e),
                Ok(b) => with_sections(entries, rels, b, sections, i + 1),
            },
        }
    }
}

/// The relationships of the document part: the events that state them.
pub open spec fn document_rels(entries: Seq<EntryV>) -> Result<Seq<EventV>, DocxErrorV> {
    match entry_data(entries, "word/_rels/document.xml.rels"@) {
        None => Ok(Seq::empty()),
        Some(data) => match parsed(data) {
            Err(error) => Err(DocxErrorV::Xml { part: "word/_rels/document.xml.rels"@, error }),
            Ok(events) => Ok(events),
        },
    }
}

/// The paragraphs of a package: those of the body and its tables, then those of the headers and
/// footers of its sections.
pub open spec fn paragraphs_of(entries: Seq<EntryV>) -> Result<Seq<ParaV>, DocxErrorV> {
    match entry_data(entries, "word/document.xml"@) {
        None => Err(DocxErrorV::MissingDocument),
        Some(data) => match parsed(data) {
            Err(error) => Err(DocxErrorV::Xml { part: "word/document.xml"@, error }),
            Ok(doc) => match document_rels(entries) {
                Err(e) => Err(e),
                Ok(rels) => with_sections(
                    entries,
                    rels,
                    body_run("word/document.xml"@, doc).out,
                    section_run(doc).sections,
                    0,
                ),
            },
        },
    }
}

/// The paragraphs of a document, and the texts in its slots.
pub open spec fn pure_text_of(docx: Seq<u8>) -> Result<PureTextV, DocxErrorV> {
    match package_of(docx) {
        Err(e) => Err(e),
        Ok(entries) => match paragraphs_of(entries) {
            Err(e) => Err(e),
            Ok(paragraphs) => match slot_texts_of_docx(docx) {
                Err(e) => Err(e),
                Ok((placeholder_prefix, slot_texts)) => Ok(
                    PureTextV { version: 3, placeholder_prefix, slot_texts, paragraphs },
                ),
            },
        },
    }
}

fn add_header_footer(
    entries: &Vec<DocxEntry>,
    rels: &Vec<(String, String)>,
    Ghost(rel_events): Ghost<Seq<EventV>>,
    out: Vec<PureParagraph>,
    rid: &Option<String>,
    root: &str,
    place: Place,
) -> (r: Result<Vec<PureParagraph>, DocxError>)
    requires
        forall|id: Seq<char>| #[trigger]
            last_value(rels.deep_view(), id) == rel_target(rel_events, id),
    ensures
        result_view(r) == with_header_footer(
            entries.deep_view(),
            rel_events,
            out.deep_view(),
            rid.deep_view(),
            root@,
            place.deep_view(),
        ),
{
    let id: &str = match rid {
        Some(s) => s.as_str(),
        None => return Ok(out),
    };
    assert(last_value(rels.deep_view(), id@) == rel_target(rel_events, id@));
    let name: &str = match find_last(rels, id) {
        Some(n) => n,
        None => return Ok(out),
    };
    let bytes: &Vec<u8> = match find_entry(entries, name) {
        Some(b) => b,
        None => return Ok(out),
    };
    if bytes.len() == 0 {
        return Ok(out);
    }
    match parse_xml_part(name, bytes.as_slice()) {
        Ok(part) => Ok(extract_direct_paragraphs_from_part(&part, root, place, out)),
        Err(error) => Err(DocxError::Xml { part: owned(name), error }),
    }
}

/// The paragraphs of a package.
fn extract_paragraphs(entries: &Vec<DocxEntry>) -> (r: Result<Vec<PureParagraph>, DocxError>)
    ensures
        result_view(r) == paragraphs_of(entries.deep_view()),
{
    let doc_bytes: &Vec<u8> = match find_entry(entries, "word/document.xml") {
        Some(b) => b,
        None => return Err(DocxError::MissingDocument),
    };
    let doc: XmlPart = match parse_xml_part("word/document.xml", doc_bytes.as_slice()) {
        Ok(p) => p,
        Err(error) => return Err(DocxError::Xml { part: owned("word/document.xml"), error }),
    };
    let mut out: Vec<PureParagraph> = extract_body_and_tables_from_document(&doc);
    let ghost mut rel_events: Seq<EventV> = Seq::empty();
    let rels: Vec<(String, String)> = match find_entry(entries, "word/_rels/document.xml.rels") {
        Some(b) => match parse_xml_part("word/_rels/document.xml.rels", b.as_slice()) {
            Ok(p) => {
                proof {
                    rel_events = p.events.deep_view();
                }
                extract_doc_rels_map(&p)
            },
            Err(error) => return Err(
                DocxError::Xml { part: owned("word/_rels/document.xml.rels"), error },
            ),
        },
        None => Vec::new(),
    };
    let sections: Vec<SectionRefs> = extract_sections_from_document_xml(&doc);
    let ghost model = sections.deep_view();
    let mut i: usize = 0;
    while i < sections.len()
        invariant
            i <= sections@.len(),
            model == sections.deep_view(),
            forall|id: Seq<char>| #[trigger]
                last_value(rels.deep_view(), id) == rel_target(rel_events, id),
            with_sections(entries.deep_view(), rel_events, out.deep_view(), model, i as nat)
                == paragraphs_of(entries.deep_view()),
        decreases sections@.len() - i,
    {
        let s: &SectionRefs = &sections[i];
        assert(model[i as int] == s.deep_view());
        let header = Place {
            container: ParaContainer::Header,
            section: Some(i + 1),
            table: None,
            row: None,
            cell: None,
        };
        let footer = Place { container: ParaContainer::Footer, ..header };
        assert(header.deep_view() =~= margin_place(ParaContainer::Header, (i + 1) as nat));
        assert(footer.deep_view() =~= margin_place(ParaContainer::Footer, (i + 1) as nat));
        out =
        match add_header_footer(
            entries,
            &rels,
            Ghost(rel_events),
            out,
            &s.header_rid,
            "w:hdr",
            header,
        ) {
            Ok(v) => v,
            Err(e) => return Err(e),
        };
        out =
        match add_header_footer(
            entries,
            &rels,
            Ghost(rel_events),
            out,
            &s.footer_rid,
            "w:ftr",
            footer,
        ) {
            Ok(v) => v,
            Err(e) => return Err(e),
        };
        i = i + 1;
    }
    Ok(out)
}

/// The paragraphs of a document, and the texts in its slots.
pub fn extract_pure_text(docx: &[u8]) -> (r: Result<PureTextJson, DocxError>)
    ensures
        result_view(r) == pure_text_of(docx@),
{
    let pkg: DocxPackage = match DocxPackage::read(docx) {
        Ok(p) => p,
        Err(e) => return Err(e),
    };
    let paragraphs: Vec<PureParagraph> = match extract_paragraphs(&pkg.entries) {
        Ok(v) => v,
        Err(e) => return Err(e),
    };
    match extract_slot_texts(docx) {
        Ok((placeholder_prefix, slot_texts)) => Ok(
            PureTextJson { version: 3, placeholder_prefix, slot_texts, paragraphs },
        ),
        Err(e) => Err(e),
    }
}

/// The name of the file that the paragraphs of a document are written to.
pub struct PureTextOutputs {
    pub text_json_path: String,
}

/// The name of the file that the paragraphs of a document are written to, beside the document.
pub fn default_text_output_for(stem: Option<&str>) -> (r: PureTextOutputs)
    ensures
        r.text_json_path@ == output_name(stem.deep_view(), ".text.json"@),
{
    PureTextOutputs { text_json_path: output_file_name(stem, ".text.json") }
}

/// What holds of the paragraphs that were read from one part, the first of which has the index
/// `from`: they are numbered without gaps, hold text, carry the part's name and a key of their own,
/// and refer to the tags that open them, in their order.
pub open spec fn paras_of_part(
    part_name: Seq<char>,
    events: Seq<EventV>,
    paras: Seq<ParaV>,
    from: nat,
) -> bool {
    &&& from <= paras.len()
    &&& forall|i: int|
        from <= i < paras.len() ==> {
            let p = #[trigger] paras[i];
            &&& p.para_id == i + 1
            &&& p.part_name == part_name
            &&& p.scope_key == para_key(part_name, p.xml_event_index)
            &&& p.xml_event_index < events.len()
            &&& events[p.xml_event_index as int] is Start
            &&& events[p.xml_event_index as int]->Start_name == "w:p"@
            &&& trimmed(p.text).len() > 0
        }
    &&& forall|i: int, j: int|
        from <= i < j < paras.len() ==> (#[trigger] paras[i]).xml_event_index < (
        #[trigger] paras[j]).xml_event_index
}

spec fn capture_ok(
    events: Seq<EventV>,
    paras: Seq<ParaV>,
    from: nat,
    start: nat,
) -> bool {
    &&& start < events.len()
    &&& events[start as int] is Start
    &&& events[start as int]->Start_name == "w:p"@
    &&& forall|i: int| from <= i < paras.len() ==> (#[trigger] paras[i]).xml_event_index < start
}

proof fn lemma_paras_grow(
    part_name: Seq<char>,
    events: Seq<EventV>,
    ev: EventV,
    paras: Seq<ParaV>,
    from: nat,
)
    requires
        paras_of_part(part_name, events, paras, from),
    ensures
        paras_of_part(part_name, events.push(ev), paras, from),
        forall|start: nat| #[trigger]
            capture_ok(events, paras, from, start) ==> capture_ok(
                events.push(ev),
                paras,
                from,
                start,
            ),
        forall|i: int|
            from <= i < paras.len() ==> (#[trigger] paras[i]).xml_event_index < events.len(),
{
    let more = events.push(ev);
    assert forall|i: int| from <= i < paras.len() implies {
        let p = #[trigger] paras[i];
        &&& more[p.xml_event_index as int] is Start
        &&& more[p.xml_event_index as int]->Start_name == "w:p"@
    } by {
        let p = paras[i];
        assert(more[p.xml_event_index as int] == events[p.xml_event_index as int]);
    }
}

proof fn lemma_with_paragraph(
    part_name: Seq<char>,
    events: Seq<EventV>,
    paras: Seq<ParaV>,
    from: nat,
    cap: CaptureV,
    place: PlaceV,
)
    requires
        paras_of_part(part_name, events, paras, from),
        capture_ok(events, paras, from, cap.start),
    ensures
        paras_of_part(part_name, events, with_paragraph(paras, part_name, cap, place), from),
{
}

proof fn lemma_body_run(part_name: Seq<char>, events: Seq<EventV>)
    ensures
        paras_of_part(part_name, events, body_run(part_name, events).out, 0),
        body_run(part_name, events).capturing matches Some(c) ==> capture_ok(
            events,
            body_run(part_name, events).out,
            0,
            c.cap.start,
        ),
    decreases events.len(),
{
    if events.len() > 0 {
        let before = events.drop_last();
        let ev = events.last();
        lemma_body_run(part_name, before);
        let st = body_run(part_name, before);
        lemma_paras_grow(part_name, before, ev, st.out, 0);
        assert(before.push(ev) =~= events);
        match ev {
            EventV::End { name } => {
                if let Some(c) = st.capturing {
                    assert(capture_ok(before, st.out, 0, c.cap.start));
                    let closed = capture_close(c.cap, name, st.stack.len());
                    lemma_with_paragraph(part_name, events, st.out, 0, closed, c.place);
                }
            },
            _ => {},
        }
    }
}

/// The paragraphs that are read from the body of a document are numbered from 1 without gaps, hold
/// text, and refer to the tags that open them, in their order.
pub proof fn law_body_paragraphs(part_name: Seq<char>, events: Seq<EventV>)
    ensures
        paras_of_part(part_name, events, body_run(part_name, events).out, 0),
{
    lemma_body_run(part_name, events);
}

proof fn lemma_direct_run(
    part_name: Seq<char>,
    root: Seq<char>,
    place: PlaceV,
    start: Seq<ParaV>,
    events: Seq<EventV>,
)
    ensures
        direct_run(part_name, root, place, start, events).out.len() >= start.len(),
        direct_run(part_name, root, place, start, events).out.take(start.len() as int) == start,
        paras_of_part(
            part_name,
            events,
            direct_run(part_name, root, place, start, events).out,
            start.len(),
        ),
        direct_run(part_name, root, place, start, events).cap matches Some(c) ==> capture_ok(
            events,
            direct_run(part_name, root, place, start, events).out,
            start.len(),
            c.start,
        ),
    decreases events.len(),
{
    if events.len() == 0 {
        assert(start.take(start.len() as int) =~= start);
    } else {
        let before = events.drop_last();
        let ev = events.last();
        lemma_direct_run(part_name, root, place, start, before);
        let st = direct_run(part_name, root, place, start, before);
        lemma_paras_grow(part_name, before, ev, st.out, start.len());
        assert(before.push(ev) =~= events);
        match ev {
            EventV::End { name } => {
                if let Some(c) = st.cap {
                    assert(capture_ok(before, st.out, start.len(), c.start));
                    let closed = capture_close(c, name, st.stack.len());
                    lemma_with_paragraph(part_name, events, st.out, start.len(), closed, place);
                    let out = with_paragraph(st.out, part_name, closed, place);
                    assert(out.take(start.len() as int) =~= st.out.take(start.len() as int));
                }
            },
            EventV::Empty { name, attrs } => {
                lemma_empty_blank();
            },
            _ => {},
        }
    }
}

proof fn lemma_empty_blank()
    ensures
        trimmed(Seq::<char>::empty()).len() == 0,
{
}

/// The paragraphs of a header or a footer come after those before it, are numbered on without gaps,
/// hold text, and refer to the tags that open them, in their order.
pub proof fn law_margin_paragraphs(
    part_name: Seq<char>,
    root: Seq<char>,
    place: PlaceV,
    start: Seq<ParaV>,
    events: Seq<EventV>,
)
    ensures
        direct_run(part_name, root, place, start, events).out.len() >= start.len(),
        direct_run(part_name, root, place, start, events).out.take(start.len() as int) == start,
        paras_of_part(
            part_name,
            events,
            direct_run(part_name, root, place, start, events).out,
            start.len(),
        ),
{
    lemma_direct_run(part_name, root, place, start, events);
}

/// Whether paragraphs are numbered from 1 without gaps and all hold text.
pub open spec fn numbered(paras: Seq<ParaV>) -> bool {
    forall|i: int|
        0 <= i < paras.len() ==> (#[trigger] paras[i]).para_id == i + 1 && trimmed(
            paras[i].text,
        ).len() > 0
}

proof fn lemma_numbered_margin(
    entries: Seq<EntryV>,
    rels: Seq<EventV>,
    out: Seq<ParaV>,
    rid: Option<Seq<char>>,
    root: Seq<char>,
    place: PlaceV,
)
    requires
        numbered(out),
    ensures
        with_header_footer(entries, rels, out, rid, root, place) matches Ok(r) ==> numbered(r),
{
    if let Some(id) = rid {
        if let Some(name) = rel_target(rels, id) {
            if let Some(data) = entry_data(entries, name) {
                if let Ok(events) = parsed(data) {
                    lemma_direct_run(name, root, place, out, events);
                    let r = direct_run(name, root, place, out, events).out;
                    assert forall|i: int| 0 <= i < r.len() implies (#[trigger] r[i]).para_id == i + 1
                        && trimmed(r[i].text).len() > 0 by {
                        if i < out.len() {
                            assert(r.take(out.len() as int)[i] == r[i]);
                            assert(out[i].para_id == i + 1);
                        }
                    }
                }
            }
        }
    }
}

proof fn lemma_numbered_sections(
    entries: Seq<EntryV>,
    rels: Seq<EventV>,
    out: Seq<ParaV>,
    sections: Seq<SectionV>,
    i: nat,
)
    requires
        numbered(out),
    ensures
        with_sections(entries, rels, out, sections, i) matches Ok(r) ==> numbered(r),
    decreases sections.len() - i,
{
    if i < sections.len() {
        let s = sections[i as int];
        let hp = margin_place(ParaContainer::Header, i + 1);
        let fp = margin_place(ParaContainer::Footer, i + 1);
        lemma_numbered_margin(entries, rels, out, s.header, "w:hdr"@, hp);
        if let Ok(a) = with_header_footer(entries, rels, out, s.header, "w:hdr"@, hp) {
            lemma_numbered_margin(entries, rels, a, s.footer, "w:ftr"@, fp);
            if let Ok(b) = with_header_footer(entries, rels, a, s.footer, "w:ftr"@, fp) {
                lemma_numbered_sections(entries, rels, b, sections, i + 1);
            }
        }
    }
}

/// The paragraphs of a document are numbered from 1 without gaps over all of its parts, and none is
/// blank.
pub proof fn law_paragraphs_numbered(docx: Seq<u8>)
    ensures
        pure_text_of(docx) matches Ok(t) ==> numbered(t.paragraphs),
{
    if let Ok(entries) = package_of(docx) {
        if let Some(data) = entry_data(entries, "word/document.xml"@) {
            if let Ok(doc) = parsed(data) {
                if let Ok(rels) = document_rels(entries) {
                    lemma_body_run("word/document.xml"@, doc);
                    lemma_numbered_sections(
                        entries,
                        rels,
                        body_run("word/document.xml"@, doc).out,
                        section_run(doc).sections,
                        0,
                    );
                }
            }
        }
    }
}

} // verus!
