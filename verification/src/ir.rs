//! The units of translation and what they are made of.

use crate::chars::opt_i32;
use crate::chars::opt_nat;
use crate::vecs::{clone_opt, push_deep};
use vstd::prelude::*;

verus! {

/// What holds the text of a node: a text tag of a document or of a drawing, or an attribute.
#[derive(Clone, Copy, Debug, PartialEq, Eq, Structural)]
pub enum TextNodeKind {
    Wt,
    At,
    Attr,
}

/// A node of a part that holds text.
#[derive(Clone, Debug)]
pub struct TextNodeRef {
    pub part_name: String,
    pub kind: TextNodeKind,
    pub elem_event_index: usize,
    pub text_event_index: Option<usize>,
    pub attr_name: Option<String>,
    pub original_text: String,
}

/// The model of a [`TextNodeRef`].
#[verifier::ext_equal]
pub struct NodeV {
    pub part_name: Seq<char>,
    pub kind: TextNodeKind,
    pub elem_event_index: nat,
    pub text_event_index: Option<nat>,
    pub attr_name: Option<Seq<char>>,
    pub original_text: Seq<char>,
}

impl DeepView for TextNodeRef {
    type V = NodeV;

    open spec fn deep_view(&self) -> NodeV {
        NodeV {
            part_name: self.part_name@,
            kind: self.kind,
            elem_event_index: self.elem_event_index as nat,
            text_event_index: opt_nat(self.text_event_index),
            attr_name: self.attr_name.deep_view(),
            original_text: self.original_text@,
        }
    }
}

/// What an atom of a paragraph is.
#[derive(Clone, Copy, Debug, PartialEq, Eq, Structural)]
pub enum AtomKind {
    Text,
    Tab,
    Br,
    Nbh,
    Shy,
}

/// A piece of a paragraph: a text, or a control marker.
#[derive(Clone, Debug)]
pub struct Atom {
    pub kind: AtomKind,
    pub node_ref: Option<TextNodeRef>,
    pub value: String,
    pub style_sig: String,
}

/// The model of an [`Atom`].
#[verifier::ext_equal]
pub struct AtomV {
    pub kind: AtomKind,
    pub node_ref: Option<NodeV>,
    pub value: Seq<char>,
    pub style_sig: Seq<char>,
}

impl DeepView for Atom {
    type V = AtomV;

    open spec fn deep_view(&self) -> AtomV {
        AtomV {
            kind: self.kind,
            node_ref: self.node_ref.deep_view(),
            value: self.value@,
            style_sig: self.style_sig@,
        }
    }
}

/// Adjacent texts of one style.
#[derive(Clone, Debug)]
pub struct FormatSpan {
    pub style_sig: String,
    pub node_refs: Vec<TextNodeRef>,
    pub source_text: String,
}

/// The model of a [`FormatSpan`].
#[verifier::ext_equal]
pub struct SpanV {
    pub style_sig: Seq<char>,
    pub node_refs: Seq<NodeV>,
    pub source_text: Seq<char>,
}

impl DeepView for FormatSpan {
    type V = SpanV;

    open spec fn deep_view(&self) -> SpanV {
        SpanV {
            style_sig: self.style_sig@,
            node_refs: self.node_refs.deep_view(),
            source_text: self.source_text@,
        }
    }
}

/// A frozen stretch of a text, by its bounds in bytes, with the marker in its place.
#[derive(Clone, Debug)]
pub struct FreezeMaskSpan {
    pub src_start: usize,
    pub src_end: usize,
    pub token: String,
    pub original: String,
}

/// The model of a [`FreezeMaskSpan`].
#[verifier::ext_equal]
pub struct FreezeSpanV {
    pub src_start: nat,
    pub src_end: nat,
    pub token: Seq<char>,
    pub original: Seq<char>,
}

impl DeepView for FreezeMaskSpan {
    type V = FreezeSpanV;

    open spec fn deep_view(&self) -> FreezeSpanV {
        FreezeSpanV {
            src_start: self.src_start as nat,
            src_end: self.src_end as nat,
            token: self.token@,
            original: self.original@,
        }
    }
}

/// A paragraph, or a list level, to be translated.
#[derive(Clone, Debug)]
pub struct TranslationUnit {
    pub tu_id: usize,
    pub part_name: String,
    pub scope_key: String,
    pub para_style: Option<String>,
    pub atoms: Vec<Atom>,
    pub spans: Vec<FormatSpan>,
    pub source_surface: String,
    pub frozen_surface: String,
    /// The markers of frozen text and what they stand for.
    pub nt_map: Vec<(String, String)>,
    pub nt_mask: Vec<FreezeMaskSpan>,
    pub draft_translation: Option<String>,
    pub final_translation: Option<String>,
    pub alt_translation: Option<String>,
    pub draft_translation_model: Option<String>,
    pub alt_translation_model: Option<String>,
    pub qe_score: Option<i32>,
    pub qe_flags: Vec<String>,
}

/// The model of a [`TranslationUnit`].
#[verifier::ext_equal]
pub struct UnitV {
    pub tu_id: nat,
    pub part_name: Seq<char>,
    pub scope_key: Seq<char>,
    pub para_style: Option<Seq<char>>,
    pub atoms: Seq<AtomV>,
    pub spans: Seq<SpanV>,
    pub source_surface: Seq<char>,
    pub frozen_surface: Seq<char>,
    pub nt_map: Seq<(Seq<char>, Seq<char>)>,
    pub nt_mask: Seq<FreezeSpanV>,
    pub draft_translation: Option<Seq<char>>,
    pub final_translation: Option<Seq<char>>,
    pub alt_translation: Option<Seq<char>>,
    pub draft_translation_model: Option<Seq<char>>,
    pub alt_translation_model: Option<Seq<char>>,
    pub qe_score: Option<int>,
    pub qe_flags: Seq<Seq<char>>,
}

impl DeepView for TranslationUnit {
    type V = UnitV;

    open spec fn deep_view(&self) -> UnitV {
        UnitV {
            tu_id: self.tu_id as nat,
            part_name: self.part_name@,
            scope_key: self.scope_key@,
            para_style: self.para_style.deep_view(),
            atoms: self.atoms.deep_view(),
            spans: self.spans.deep_view(),
            source_surface: self.source_surface@,
            frozen_surface: self.frozen_surface@,
            nt_map: self.nt_map.deep_view(),
            nt_mask: self.nt_mask.deep_view(),
            draft_translation: self.draft_translation.deep_view(),
            final_translation: self.final_translation.deep_view(),
            alt_translation: self.alt_translation.deep_view(),
            draft_translation_model: self.draft_translation_model.deep_view(),
            alt_translation_model: self.alt_translation_model.deep_view(),
            qe_score: opt_i32(self.qe_score),
            qe_flags: self.qe_flags.deep_view(),
        }
    }
}

/// A copy of a node.
pub fn clone_node(n: &TextNodeRef) -> (r: TextNodeRef)
    ensures
        r.deep_view() == n.deep_view(),
{
    TextNodeRef {
        part_name: n.part_name.clone(),
        kind: n.kind,
        elem_event_index: n.elem_event_index,
        text_event_index: n.text_event_index,
        attr_name: clone_opt(&n.attr_name),
        original_text: n.original_text.clone(),
    }
}

/// A copy of a list of nodes.
pub fn clone_nodes(v: &Vec<TextNodeRef>) -> (r: Vec<TextNodeRef>)
    ensures
        r.deep_view() == v.deep_view(),
{
    let ghost model = v.deep_view();
    let mut out: Vec<TextNodeRef> = Vec::new();
    let mut i: usize = 0;
    assert(out.deep_view() =~= model.take(0));
    while i < v.len()
        invariant
            i <= v@.len(),
            model == v.deep_view(),
            out.deep_view() == model.take(i as int),
        decreases v@.len() - i,
    {
        push_deep(&mut out, clone_node(&v[i]));
        i = i + 1;
        assert(model.take(i as int) =~= model.take(i - 1).push(model[i - 1]));
    }
    assert(model.take(i as int) =~= model);
    out
}

/// A copy of a span.
pub fn clone_span(s: &FormatSpan) -> (r: FormatSpan)
    ensures
        r.deep_view() == s.deep_view(),
{
    FormatSpan {
        style_sig: s.style_sig.clone(),
        node_refs: clone_nodes(&s.node_refs),
        source_text: s.source_text.clone(),
    }
}

} // verus!
