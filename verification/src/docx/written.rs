//! What a translation leaves in the events of its part.

use crate::chars::{begins, byte_len, ends, lemma_trimmed_empty, lowercase};
use crate::docx::apply::{attrs_set, node_applied};
use crate::docx::decompose::attrs_with;
use crate::docx::filter::{inked, lemma_inked_add, lemma_inked_blank};
use crate::docx::package::{replaced_data, xml_name};
use crate::docx::project::{
    block_end, empty_slices, law_shared_text, lemma_block_end, project_from, projected, shared_text,
    slices_of, span_weights, SliceV,
};
use crate::docx::pure_text::attr;
use crate::docx::xml::{AttrsV, EventV};
use crate::freezer::unfrozen;
use crate::ir::{NodeV, SpanV, TextNodeKind};
use crate::sentinels::{control_pieces, control_token, joined, tokens, TokenClass};
use vstd::prelude::*;

verus! {

/// Whether an event opens a tag, or is one that closes itself.
pub open spec fn is_tag(ev: EventV) -> bool {
    ev is Start || ev is Empty
}

/// The attributes of a tag.
pub open spec fn attrs_of(ev: EventV) -> AttrsV {
    match ev {
        EventV::Start { attrs, .. } => attrs,
        EventV::Empty { attrs, .. } => attrs,
        _ => Seq::empty(),
    }
}

proof fn lemma_attr_set(attrs: AttrsV, key: Seq<char>, v: Seq<char>)
    ensures
        attr(attrs_set(attrs, key, v), key) == Some(v),
        forall|k: Seq<char>|
            k != key ==> #[trigger] attr(attrs_set(attrs, key, v), k) == attr(attrs, k),
    decreases attrs.len(),
{
    let out = attrs_set(attrs, key, v);
    if attrs.len() == 0 {
        assert(out[0] == (key, v));
        assert(out.drop_first() =~= Seq::<(Seq<char>, Seq<char>)>::empty());
        assert forall|k: Seq<char>| k != key implies #[trigger] attr(out, k) == attr(attrs, k) by {
            assert(attr(out.drop_first(), k) == attr(attrs, k));
        }
    } else {
        let rest = attrs.drop_first();
        lemma_attr_set(rest, key, v);
        if attrs[0].0 == key {
            assert(attrs_with(attrs, key, v) == attrs.update(0, (key, v)));
            assert(out.drop_first() =~= rest);
        } else {
            assert(out[0] == attrs[0]);
            assert(out.drop_first() =~= attrs_set(rest, key, v));
        }
        assert forall|k: Seq<char>| k != key implies #[trigger] attr(out, k) == attr(attrs, k) by {
            if attrs[0].0 == key {
                assert(attr(out.drop_first(), k) == attr(rest, k));
            } else {
                assert(attr(attrs_set(rest, key, v), k) == attr(rest, k));
            }
        }
    }
}

/// A text that is written into a node stands in the event that the node refers to, or in the attribute,
/// and all other events stay. Where it begins or ends with a blank, the tag round it says that blanks
/// are kept, and its other attributes stay.
pub proof fn law_node_takes_the_text(events: Seq<EventV>, node: NodeV, text: Seq<char>, k: int)
    requires
        node.elem_event_index < events.len(),
        is_tag(events[node.elem_event_index as int]),
        0 <= k < events.len(),
    ensures
        node.kind != TextNodeKind::Attr ==> (node.text_event_index matches Some(i) ==> (i
            < events.len() && events[i as int] is Text ==> {
            let (out, r) = node_applied(events, node, text);
            let elem = node.elem_event_index as int;
            &&& r is Ok
            &&& out.len() == events.len()
            &&& out[i as int] == (EventV::Text { text })
            &&& k != i && k != elem ==> out[k] == events[k]
            &&& text.len() > 0 && (text[0] == ' ' || text.last() == ' ') ==> is_tag(out[elem])
                && attr(attrs_of(out[elem]), "xml:space"@) == Some("preserve"@) && forall|key:
                Seq<char>|
                key != "xml:space"@ ==> #[trigger] attr(attrs_of(out[elem]), key) == attr(
                    attrs_of(events[elem]),
                    key,
                )
            &&& text.len() > 0 && text[0] != ' ' && text.last() != ' ' ==> out[elem] == events[elem]
        })),
        node.kind == TextNodeKind::Attr ==> (node.attr_name matches Some(key) ==> {
            let (out, r) = node_applied(events, node, text);
            let elem = node.elem_event_index as int;
            &&& r is Ok
            &&& out.len() == events.len()
            &&& is_tag(out[elem])
            &&& attr(attrs_of(out[elem]), key) == Some(text)
            &&& k != elem ==> out[k] == events[k]
        }),
{
    let elem = node.elem_event_index as int;
    let ev = events[elem];
    lemma_attr_set(attrs_of(ev), "xml:space"@, "preserve"@);
    if let Some(key) = node.attr_name {
        lemma_attr_set(attrs_of(ev), key, text);
    }
    reveal_strlit(" ");
    let b = " "@;
    if text.len() > 0 {
        assert(begins(text, b) <==> text[0] == ' ') by {
            if text[0] == ' ' {
                assert(text.subrange(0, 1) =~= b);
            }
            if begins(text, b) {
                assert(text.subrange(0, 1)[0] == b[0]);
            }
        }
        assert(ends(text, b) <==> text.last() == ' ') by {
            let n = text.len() as int;
            if text.last() == ' ' {
                assert(text.subrange(n - 1, n) =~= b);
            }
            if ends(text, b) {
                assert(text.subrange(n - 1, n)[0] == b[0]);
            }
        }
    }
}

/// The texts of a translation between its control markers, from the `k`-th piece on.
pub open spec fn texts_between(src: Seq<Seq<char>>, tgt: Seq<Seq<char>>, k: int) -> Seq<char>
    decreases src.len() - k,
{
    if k < 0 || k >= src.len() {
        Seq::empty()
    } else if control_token(src[k]) {
        texts_between(src, tgt, k + 1)
    } else {
        tgt[k] + texts_between(src, tgt, k + 1)
    }
}

proof fn lemma_joined_add(a: Seq<Seq<char>>, b: Seq<Seq<char>>)
    ensures
        joined(a + b) == joined(a) + joined(b),
    decreases a.len(),
{
    if a.len() == 0 {
        assert(a + b =~= b);
        assert(joined(a + b) =~= joined(a) + joined(b));
    } else {
        lemma_joined_add(a.drop_first(), b);
        assert((a + b).drop_first() =~= a.drop_first() + b);
        assert(joined(a + b) =~= joined(a) + joined(b));
    }
}

proof fn lemma_empties(n: nat)
    ensures
        joined(Seq::new(n, |i: int| Seq::<char>::empty())).len() == 0,
    decreases n,
{
    if n > 0 {
        lemma_empties((n - 1) as nat);
        let all = Seq::new(n, |i: int| Seq::<char>::empty());
        assert(all.drop_first() =~= Seq::new((n - 1) as nat, |i: int| Seq::<char>::empty()));
    }
}

/// Whether each slice holds its piece, with what was frozen put back.
pub open spec fn slices_hold(
    slices: Seq<SliceV>,
    pieces: Seq<Seq<char>>,
    nt_map: Seq<(Seq<char>, Seq<char>)>,
) -> bool {
    &&& slices.len() == pieces.len()
    &&& forall|j: int|
        0 <= j < slices.len() ==> (#[trigger] slices[j]).text == unfrozen(pieces[j], nt_map)
}

proof fn lemma_project_text(
    spans: Seq<SpanV>,
    src: Seq<Seq<char>>,
    tgt: Seq<Seq<char>>,
    nt_map: Seq<(Seq<char>, Seq<char>)>,
    k: nat,
    i: nat,
    out: Seq<SliceV>,
    held: Seq<Seq<char>>,
) -> (pieces: Seq<Seq<char>>)
    requires
        i <= spans.len(),
        slices_hold(out, held, nt_map),
        project_from(spans, src, tgt, nt_map, k, i, out) is Ok,
    ensures
        slices_hold(project_from(spans, src, tgt, nt_map, k, i, out)->Ok_0, pieces, nt_map),
        inked(joined(pieces)) == inked(joined(held)) + inked(texts_between(src, tgt, k as int)),
    decreases src.len() - k,
{
    if k >= src.len() {
        let left = spans.skip(i as int);
        let none = Seq::new(left.len(), |j: int| Seq::<char>::empty());
        let r = out + empty_slices(left);
        let pieces = held + none;
        lemma_empties(left.len());
        lemma_joined_add(held, none);
        assert(joined(pieces) =~= joined(held));
        assert(inked(texts_between(src, tgt, k as int)) =~= Seq::<char>::empty());
        assert(inked(joined(pieces)) =~= inked(joined(held)) + inked(
            texts_between(src, tgt, k as int),
        ));
        lemma_unfrozen_empty(nt_map);
        assert(slices_hold(r, pieces, nt_map));
        pieces
    } else {
        let s = src[k as int];
        let t = tgt[k as int];
        let rest = texts_between(src, tgt, k as int + 1);
        if control_token(s) {
            lemma_project_text(spans, src, tgt, nt_map, k + 1, i, out, held)
        } else {
            lemma_block_end(spans, i, byte_len(s), 0);
            let j = block_end(spans, i, byte_len(s), 0);
            let block = spans.subrange(i as int, j as int);
            lemma_inked_add(t, rest);
            if block.len() == 0 {
                lemma_trimmed_empty(t);
                lemma_inked_blank(t);
                let pieces = lemma_project_text(spans, src, tgt, nt_map, k + 1, j, out, held);
                assert(inked(joined(pieces)) =~= inked(joined(held)) + (inked(t) + inked(rest)));
                pieces
            } else {
                let shared = shared_text(t, span_weights(block));
                law_shared_text(t, span_weights(block));
                let more = out + slices_of(block, shared, nt_map);
                let now = held + shared;
                assert(slices_hold(more, now, nt_map));
                lemma_joined_add(held, shared);
                lemma_inked_add(joined(held), t);
                let pieces = lemma_project_text(spans, src, tgt, nt_map, k + 1, j, more, now);
                assert(inked(joined(pieces)) =~= inked(joined(held)) + (inked(t) + inked(rest)));
                pieces
            }
        }
    }
}

proof fn lemma_unfrozen_empty(nt_map: Seq<(Seq<char>, Seq<char>)>)
    ensures
        unfrozen(Seq::empty(), nt_map) == Seq::<char>::empty(),
{
    let none = Seq::<char>::empty();
    assert(tokens(TokenClass::Nt, none) =~= Seq::<(int, int)>::empty());
    assert(none.subrange(0, 0) =~= none);
}

/// A translation that is shared out among spans is in them whole: the slices hold pieces, with what was
/// frozen put back, that make up the texts of the translation between its control markers, but for
/// white space.
pub proof fn law_slices_hold_the_translation(
    spans: Seq<SpanV>,
    source: Seq<char>,
    target: Seq<char>,
    nt_map: Seq<(Seq<char>, Seq<char>)>,
)
    ensures
        projected(spans, source, target, nt_map) matches Ok(r) ==> exists|pieces: Seq<Seq<char>>|
            #[trigger] slices_hold(r, pieces, nt_map) && inked(joined(pieces)) == inked(
                texts_between(control_pieces(source), control_pieces(target), 0),
            ),
{
    if let Ok(r) = projected(spans, source, target, nt_map) {
        let none = Seq::<Seq<char>>::empty();
        let pieces = lemma_project_text(
            spans,
            control_pieces(source),
            control_pieces(target),
            nt_map,
            0,
            0,
            Seq::empty(),
            none,
        );
        assert(inked(joined(none)) =~= Seq::<char>::empty());
        assert(inked(joined(pieces)) =~= inked(
            texts_between(control_pieces(source), control_pieces(target), 0),
        ));
        assert(slices_hold(r, pieces, nt_map));
    }
}

/// An entry of which a new form is given is written with the first that is, and every other with what
/// it held.
pub proof fn law_new_data_is_written(
    replacements: Seq<(Seq<char>, Seq<u8>)>,
    name: Seq<char>,
    data: Seq<u8>,
    k: int,
)
    ensures
        0 <= k < replacements.len() && replacements[k].0 == name && (forall|j: int|
            0 <= j < k ==> (#[trigger] replacements[j]).0 != name) ==> replaced_data(
            replacements,
            name,
            data,
        ) == replacements[k].1,
        (forall|j: int| 0 <= j < replacements.len() ==> (#[trigger] replacements[j]).0 != name)
            ==> replaced_data(replacements, name, data) == data,
    decreases replacements.len(),
{
    if replacements.len() > 0 {
        let rest = replacements.drop_first();
        assert(forall|j: int| 0 <= j < rest.len() ==> #[trigger] rest[j] == replacements[j + 1]);
        law_new_data_is_written(rest, name, data, k - 1);
        if 0 < k < replacements.len() && (forall|j: int|
            0 <= j < k ==> (#[trigger] replacements[j]).0 != name) {
            assert(rest[k - 1] == replacements[k]);
            assert(replacements[0].0 != name);
        }
    }
}

/// A part is taken for XML by the end of its name, in any case.
pub proof fn law_xml_parts(name: Seq<char>, base: Seq<char>)
    ensures
        lowercase(name) == base + ".xml"@ ==> xml_name(name),
        lowercase(name) == base + ".rels"@ ==> !xml_name(name),
        lowercase(name) == base + ".png"@ ==> !xml_name(name),
{
    reveal_strlit(".xml");
    reveal_strlit(".rels");
    reveal_strlit(".png");
    let low = lowercase(name);
    let n = low.len() as int;
    let x = ".xml"@;
    if low == base + x {
        assert(low.subrange(n - 4, n) =~= x);
    }
    if low == base + ".rels"@ {
        if ends(low, x) {
            assert(low.subrange(n - 4, n)[3] == x[3]);
            assert(low[n - 1] == ".rels"@[4]);
        }
    }
    if low == base + ".png"@ {
        if ends(low, x) {
            assert(low.subrange(n - 4, n)[3] == x[3]);
            assert(low[n - 1] == ".png"@[3]);
        }
    }
}

} // verus!
