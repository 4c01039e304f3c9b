//! Where the texts of a unit stand in its part.

use crate::docx::apply::node_fits;
use crate::docx::extract::{
    atom_nodes, atom_text, attr_node, control_atom, end_paragraph, law_spans_cover, paragraph_style,
    span_nodes, span_text, spans_flushed, spans_of, spans_run, start_paragraph, start_property,
    start_run, start_text, surface, unit_run, unit_step, with_attr_unit, SpansV, UnitsV,
};
use crate::docx::pure_text::attr;
use crate::docx::xml::{open_tags, text_tag, top, EventV};
use crate::ir::{AtomKind, AtomV, NodeV, SpanV, TextNodeKind, UnitV};
use vstd::prelude::*;

verus! {

/// Whether a span holds the texts of the atoms from `cut.0` to `cut.1`: they are all texts, and of
/// one style.
pub open spec fn span_holds(atoms: Seq<AtomV>, span: SpanV, cut: (int, int)) -> bool {
    &&& 0 <= cut.0 <= cut.1 <= atoms.len()
    &&& forall|i: int|
        cut.0 <= i < cut.1 ==> (#[trigger] atoms[i]).kind == AtomKind::Text && atoms[i].style_sig
            == span.style_sig
    &&& span.node_refs == atom_nodes(atoms.subrange(cut.0, cut.1))
    &&& span.source_text == atom_text(atoms.subrange(cut.0, cut.1))
}

/// Whether each span holds the texts of its own stretch of the atoms, and the stretches follow each
/// other.
pub open spec fn spans_cut(atoms: Seq<AtomV>, spans: Seq<SpanV>, cuts: Seq<(int, int)>) -> bool {
    &&& cuts.len() == spans.len()
    &&& forall|k: int|
        0 <= k < spans.len() ==> span_holds(atoms, #[trigger] spans[k], cuts[k])
    &&& forall|j: int, k: int|
        0 <= j < k < cuts.len() ==> (#[trigger] cuts[j]).1 <= (#[trigger] cuts[k]).0
}

/// What holds of the span at hand: it began at `from`.
spec fn at_hand(atoms: Seq<AtomV>, st: SpansV, cuts: Seq<(int, int)>, from: int) -> bool {
    &&& spans_cut(atoms, st.spans, cuts)
    &&& forall|k: int| 0 <= k < cuts.len() ==> (#[trigger] cuts[k]).1 <= from
    &&& 0 <= from <= atoms.len()
    &&& forall|i: int|
        from <= i < atoms.len() ==> (#[trigger] atoms[i]).kind == AtomKind::Text && st.style
            == Some(atoms[i].style_sig)
    &&& st.nodes == atom_nodes(atoms.subrange(from, atoms.len() as int))
    &&& st.text == atom_text(atoms.subrange(from, atoms.len() as int))
}

proof fn lemma_held_longer(atoms: Seq<AtomV>, a: AtomV, spans: Seq<SpanV>, cuts: Seq<(int, int)>)
    requires
        spans_cut(atoms, spans, cuts),
    ensures
        spans_cut(atoms.push(a), spans, cuts),
{
    let more = atoms.push(a);
    assert forall|k: int| 0 <= k < spans.len() implies span_holds(
        more,
        #[trigger] spans[k],
        cuts[k],
    ) by {
        assert(span_holds(atoms, spans[k], cuts[k]));
        let (lo, hi) = cuts[k];
        assert(more.subrange(lo, hi) =~= atoms.subrange(lo, hi));
    }
}

proof fn lemma_cut_flushed(
    atoms: Seq<AtomV>,
    st: SpansV,
    cuts: Seq<(int, int)>,
    from: int,
) -> (r: Seq<(int, int)>)
    requires
        at_hand(atoms, st, cuts, from),
    ensures
        at_hand(atoms, spans_flushed(st), r, atoms.len() as int),
{
    let n = atoms.len() as int;
    assert(atoms.subrange(n, n) =~= Seq::<AtomV>::empty());
    if st.nodes.len() > 0 {
        let r = cuts.push((from, n));
        let spans = spans_flushed(st).spans;
        assert(from < n) by {
            if from == n {
                assert(atoms.subrange(from, n) =~= Seq::<AtomV>::empty());
            }
        }
        assert(st.style == Some(atoms[from].style_sig));
        assert forall|k: int| 0 <= k < spans.len() implies span_holds(
            atoms,
            #[trigger] spans[k],
            r[k],
        ) by {
            if k < st.spans.len() {
                assert(span_holds(atoms, st.spans[k], cuts[k]));
            }
        }
        r
    } else {
        cuts
    }
}

proof fn lemma_cuts(atoms: Seq<AtomV>) -> (r: (Seq<(int, int)>, int))
    ensures
        at_hand(atoms, spans_run(atoms), r.0, r.1),
    decreases atoms.len(),
{
    if atoms.len() == 0 {
        assert(atoms.subrange(0, 0) =~= Seq::<AtomV>::empty());
        (Seq::empty(), 0)
    } else {
        let before = atoms.drop_last();
        let a = atoms.last();
        let st = spans_run(before);
        let n = before.len() as int;
        let (cuts, from) = lemma_cuts(before);
        assert(before.push(a) =~= atoms);
        let flushed = lemma_cut_flushed(before, st, cuts, from);
        lemma_held_longer(before, a, spans_flushed(st).spans, flushed);
        lemma_held_longer(before, a, st.spans, cuts);
        if a.kind != AtomKind::Text {
            assert(atoms.subrange(n + 1, n + 1) =~= Seq::<AtomV>::empty());
            (flushed, n + 1)
        } else {
            let (cur, c, f) = if st.style == Some(a.style_sig) {
                (st, cuts, from)
            } else {
                (SpansV { style: Some(a.style_sig), ..spans_flushed(st) }, flushed, n)
            };
            assert(atoms.subrange(f, n + 1).drop_last() =~= before.subrange(f, n));
            assert(before.subrange(n, n) =~= Seq::<AtomV>::empty());
            assert(atoms.subrange(f, n + 1).last() == a);
            assert forall|i: int| f <= i < atoms.len() implies (#[trigger] atoms[i]).kind
                == AtomKind::Text && spans_run(atoms).style == Some(atoms[i].style_sig) by {
                if i < n {
                    assert(atoms[i] == before[i]);
                }
            }
            (c, f)
        }
    }
}

/// No span of a paragraph mixes styles or reaches over a control marker: each holds the texts of a
/// stretch of the atoms that are texts of its style, and the stretches follow each other.
pub proof fn law_spans_have_one_style(atoms: Seq<AtomV>)
    ensures
        exists|cuts: Seq<(int, int)>| #[trigger] spans_cut(atoms, spans_of(atoms), cuts),
{
    let (cuts, from) = lemma_cuts(atoms);
    let r = lemma_cut_flushed(atoms, spans_run(atoms), cuts, from);
    assert(spans_cut(atoms, spans_of(atoms), r));
}

/// The name of the tag that a text of a kind stands in.
pub open spec fn tag_of_kind(kind: TextNodeKind) -> Seq<char> {
    match kind {
        TextNodeKind::Wt => "w:t"@,
        TextNodeKind::At => "a:t"@,
        TextNodeKind::Attr => "w:lvlText"@,
    }
}

/// Whether the event is the tag of a list level with the text `val`.
pub open spec fn level_with(ev: EventV, val: Seq<char>) -> bool {
    match ev {
        EventV::Start { name, attrs } => name == "w:lvlText"@ && attr(attrs, "w:val"@) == Some(val),
        EventV::Empty { name, attrs } => name == "w:lvlText"@ && attr(attrs, "w:val"@) == Some(val),
        _ => false,
    }
}

/// Whether the event opens a tag of that name.
pub open spec fn opens(ev: EventV, tag: Seq<char>) -> bool {
    match ev {
        EventV::Start { name, .. } => name == tag,
        _ => false,
    }
}

/// Whether a node refers to the text that it holds: to that of a list level, or to a text that comes
/// after the text tag it names.
pub open spec fn anchored(events: Seq<EventV>, part_name: Seq<char>, n: NodeV) -> bool {
    &&& n.part_name == part_name
    &&& n.elem_event_index < events.len()
    &&& match n.kind {
        TextNodeKind::Attr => {
            &&& n.attr_name == Some("w:val"@)
            &&& n.text_event_index is None
            &&& level_with(events[n.elem_event_index as int], n.original_text)
        },
        _ => {
            &&& n.attr_name is None
            &&& opens(events[n.elem_event_index as int], tag_of_kind(n.kind))
            &&& match n.text_event_index {
                Some(i) => {
                    &&& n.elem_event_index < i < events.len()
                    &&& events[i as int] == (EventV::Text { text: n.original_text })
                },
                None => false,
            }
        },
    }
}

/// Whether the texts among the atoms, and no others, refer to the texts that they hold.
pub open spec fn atoms_anchored(
    events: Seq<EventV>,
    part_name: Seq<char>,
    atoms: Seq<AtomV>,
) -> bool {
    forall|i: int|
        0 <= i < atoms.len() ==> match (#[trigger] atoms[i]).node_ref {
            Some(n) => {
                &&& atoms[i].kind == AtomKind::Text
                &&& anchored(events, part_name, n)
                &&& n.original_text == atoms[i].value
            },
            None => atoms[i].kind != AtomKind::Text,
        }
}

/// Whether a unit holds the texts of its part.
pub open spec fn unit_anchored(events: Seq<EventV>, part_name: Seq<char>, u: UnitV) -> bool {
    &&& atoms_anchored(events, part_name, u.atoms)
    &&& u.spans == spans_of(u.atoms)
    &&& u.source_surface == surface(u.atoms)
}

spec fn state_anchored(events: Seq<EventV>, part_name: Seq<char>, st: UnitsV) -> bool {
    &&& atoms_anchored(events, part_name, st.atoms)
    &&& forall|i: int|
        0 <= i < st.units.len() ==> unit_anchored(events, part_name, #[trigger] st.units[i])
    &&& match st.text_elem {
        Some((kind, elem)) => {
            &&& kind != TextNodeKind::Attr
            &&& elem < events.len()
            &&& opens(events[elem as int], tag_of_kind(kind))
        },
        None => true,
    }
}

/// What refers to a text of some events refers to it among more of them.
proof fn lemma_anchored_longer(events: Seq<EventV>, ev: EventV, part_name: Seq<char>, st: UnitsV)
    requires
        state_anchored(events, part_name, st),
    ensures
        state_anchored(events.push(ev), part_name, st),
{
    let more = events.push(ev);
    lemma_atoms_longer(events, ev, part_name, st.atoms);
    assert forall|i: int| 0 <= i < st.units.len() implies unit_anchored(
        more,
        part_name,
        #[trigger] st.units[i],
    ) by {
        lemma_atoms_longer(events, ev, part_name, st.units[i].atoms);
    }
}

proof fn lemma_atoms_longer(
    events: Seq<EventV>,
    ev: EventV,
    part_name: Seq<char>,
    atoms: Seq<AtomV>,
)
    requires
        atoms_anchored(events, part_name, atoms),
    ensures
        atoms_anchored(events.push(ev), part_name, atoms),
{
    let more = events.push(ev);
    assert forall|i: int| 0 <= i < atoms.len() implies match (#[trigger] atoms[i]).node_ref {
        Some(n) => {
            &&& atoms[i].kind == AtomKind::Text
            &&& anchored(more, part_name, n)
            &&& n.original_text == atoms[i].value
        },
        None => atoms[i].kind != AtomKind::Text,
    } by {
        if let Some(n) = atoms[i].node_ref {
            assert(more[n.elem_event_index as int] == events[n.elem_event_index as int]);
        }
    }
}

proof fn lemma_level_anchored(
    events: Seq<EventV>,
    part_name: Seq<char>,
    first_id: nat,
    st: UnitsV,
    val: Seq<char>,
)
    requires
        state_anchored(events, part_name, st),
        events.len() > 0,
        level_with(events.last(), val),
    ensures
        state_anchored(
            events,
            part_name,
            UnitsV {
                units: with_attr_unit(
                    st.units,
                    first_id,
                    part_name,
                    (events.len() - 1) as nat,
                    val,
                ),
                ..st
            },
        ),
{
    let idx = (events.len() - 1) as nat;
    let units = with_attr_unit(st.units, first_id, part_name, idx, val);
    let u = units.last();
    let node = attr_node(part_name, idx, val);
    assert(anchored(events, part_name, node));
    assert(u.atoms.drop_last() =~= Seq::<AtomV>::empty());
    assert(Seq::<char>::empty() + val =~= val);
    assert(Seq::<NodeV>::empty().push(node) =~= seq![node]);
    reveal_with_fuel(spans_run, 2);
    reveal_with_fuel(surface, 2);
    assert(spans_of(u.atoms) =~= u.spans);
    assert(surface(u.atoms) =~= u.source_surface);
    assert(unit_anchored(events, part_name, u));
}

proof fn lemma_step_anchored(
    events: Seq<EventV>,
    part_name: Seq<char>,
    first_id: nat,
    st: UnitsV,
)
    requires
        events.len() > 0,
        state_anchored(events.drop_last(), part_name, st),
    ensures
        state_anchored(
            events,
            part_name,
            unit_step(part_name, first_id, st, (events.len() - 1) as nat, events.last()),
        ),
{
    let idx = (events.len() - 1) as nat;
    let ev = events.last();
    lemma_anchored_longer(events.drop_last(), ev, part_name, st);
    assert(events.drop_last().push(ev) =~= events);
    match ev {
        EventV::Start { name, attrs } => {
            let a = paragraph_style(start_paragraph(st, idx, name), name, attrs);
            assert(state_anchored(events, part_name, a));
            let b = start_text(start_run(a, name, attrs), idx, name);
            assert(state_anchored(events, part_name, b));
            let c = start_property(b, name, attrs);
            assert(state_anchored(events, part_name, c));
            if let Some(v) = attr(attrs, "w:val"@) {
                if name == "w:lvlText"@ {
                    lemma_level_anchored(events, part_name, first_id, c, v);
                }
            }
        },
        EventV::Empty { name, attrs } => {
            let a = paragraph_style(st, name, attrs);
            let b = match control_atom(a, name) {
                Some(atom) => UnitsV { atoms: a.atoms.push(atom), ..a },
                None => a,
            };
            assert(state_anchored(events, part_name, b));
            if let Some(v) = attr(attrs, "w:val"@) {
                if name == "w:lvlText"@ {
                    lemma_level_anchored(events, part_name, first_id, b, v);
                }
            }
        },
        EventV::End { name } => {
            let a = end_paragraph(st, first_id, part_name, name);
            assert(state_anchored(events, part_name, a));
        },
        _ => {},
    }
}

/// The units of a part hold its texts: each text among a unit's atoms refers to the event that holds
/// it, the surface is made of all the atoms, and the spans hold the texts, all of them and in their
/// order, none of them mixing styles or reaching over a control marker.
pub proof fn law_units_hold_the_texts(part_name: Seq<char>, first_id: nat, events: Seq<EventV>)
    ensures
        forall|i: int|
            0 <= i < unit_run(part_name, first_id, events).units.len() ==> {
                let u = #[trigger] unit_run(part_name, first_id, events).units[i];
                &&& unit_anchored(events, part_name, u)
                &&& span_nodes(u.spans) == atom_nodes(u.atoms)
                &&& span_text(u.spans) == atom_text(u.atoms)
                &&& exists|cuts: Seq<(int, int)>| #[trigger] spans_cut(u.atoms, u.spans, cuts)
            },
{
    let units = unit_run(part_name, first_id, events).units;
    lemma_run_anchored(part_name, first_id, events);
    assert forall|i: int| 0 <= i < units.len() implies {
        let u = #[trigger] units[i];
        &&& unit_anchored(events, part_name, u)
        &&& span_nodes(u.spans) == atom_nodes(u.atoms)
        &&& span_text(u.spans) == atom_text(u.atoms)
        &&& exists|cuts: Seq<(int, int)>| #[trigger] spans_cut(u.atoms, u.spans, cuts)
    } by {
        assert(unit_anchored(events, part_name, units[i]));
        law_spans_cover(units[i].atoms);
        law_spans_have_one_style(units[i].atoms);
    }
}

proof fn lemma_run_anchored(part_name: Seq<char>, first_id: nat, events: Seq<EventV>)
    ensures
        state_anchored(events, part_name, unit_run(part_name, first_id, events)),
    decreases events.len(),
{
    if events.len() > 0 {
        let before = events.drop_last();
        lemma_run_anchored(part_name, first_id, before);
        lemma_step_anchored(events, part_name, first_id, unit_run(part_name, first_id, before));
    }
}

/// Whether no tag is opened inside a text tag, and every closing tag closes the innermost open one.
pub open spec fn texts_flat(events: Seq<EventV>) -> bool {
    forall|j: int|
        0 <= j < events.len() ==> {
            let inner = top(open_tags(events.take(j)));
            match #[trigger] events[j] {
                EventV::Start { .. } => !text_tag(inner),
                EventV::End { name } => name == inner,
                _ => true,
            }
        }
}

/// Whether the texts among the atoms stand in a text tag.
spec fn atoms_inside(events: Seq<EventV>, atoms: Seq<AtomV>) -> bool {
    forall|i: int|
        0 <= i < atoms.len() ==> match (#[trigger] atoms[i]).node_ref {
            Some(n) => n.kind != TextNodeKind::Attr ==> match n.text_event_index {
                Some(k) => k < events.len() && text_tag(top(open_tags(events.take(k as int)))),
                None => false,
            },
            None => true,
        }
}

spec fn state_inside(events: Seq<EventV>, st: UnitsV) -> bool {
    &&& atoms_inside(events, st.atoms)
    &&& forall|i: int|
        0 <= i < st.units.len() ==> atoms_inside(events, (#[trigger] st.units[i]).atoms)
    &&& match st.text_elem {
        Some((kind, elem)) => {
            &&& kind != TextNodeKind::Attr
            &&& top(open_tags(events)) == tag_of_kind(kind)
            &&& st.in_w_p || st.in_a_p
        },
        None => true,
    }
}

proof fn lemma_inside_longer(events: Seq<EventV>, ev: EventV, atoms: Seq<AtomV>)
    requires
        atoms_inside(events, atoms),
    ensures
        atoms_inside(events.push(ev), atoms),
{
    let more = events.push(ev);
    assert forall|i: int| 0 <= i < atoms.len() implies match (#[trigger] atoms[i]).node_ref {
        Some(n) => n.kind != TextNodeKind::Attr ==> match n.text_event_index {
            Some(k) => k < more.len() && text_tag(top(open_tags(more.take(k as int)))),
            None => false,
        },
        None => true,
    } by {
        if let Some(n) = atoms[i].node_ref {
            if let Some(k) = n.text_event_index {
                if n.kind != TextNodeKind::Attr {
                    assert(more.take(k as int) =~= events.take(k as int));
                }
            }
        }
    }
}

proof fn lemma_step_inside(events: Seq<EventV>, part_name: Seq<char>, first_id: nat, st: UnitsV)
    requires
        events.len() > 0,
        texts_flat(events),
        state_inside(events.drop_last(), st),
    ensures
        state_inside(
            events,
            unit_step(part_name, first_id, st, (events.len() - 1) as nat, events.last()),
        ),
{
    let idx = (events.len() - 1) as nat;
    let ev = events.last();
    let before = events.drop_last();
    let after = unit_step(part_name, first_id, st, idx, ev);
    assert(before.push(ev) =~= events);
    assert(events.take(idx as int) =~= before);
    assert(events[idx as int] == ev);
    lemma_inside_longer(before, ev, st.atoms);
    assert forall|i: int| 0 <= i < st.units.len() implies atoms_inside(
        events,
        (#[trigger] st.units[i]).atoms,
    ) by {
        lemma_inside_longer(before, ev, st.units[i].atoms);
    }
    reveal_strlit("w:t");
    reveal_strlit("a:t");
    reveal_strlit("w:p");
    reveal_strlit("a:p");
    reveal_strlit("w:r");
    reveal_strlit("a:r");
    reveal_strlit("w:rPr");
    reveal_strlit("a:rPr");
    assert(!("w:t"@ =~= "w:p"@) && !("w:t"@ =~= "a:p"@) && !("a:t"@ =~= "w:p"@) && !("a:t"@
        =~= "a:p"@)) by {
        assert("w:t"@[2] != "w:p"@[2]);
        assert("w:t"@[2] != "a:p"@[2]);
        assert("a:t"@[2] != "w:p"@[2]);
        assert("a:t"@[2] != "a:p"@[2]);
    }
    match ev {
        EventV::Start { name, attrs } => {
            assert(st.text_elem is None);
            assert(open_tags(events).last() == name);
            if let Some(v) = attr(attrs, "w:val"@) {
                let u = with_attr_unit(st.units, first_id, part_name, idx, v).last();
                assert(atoms_inside(events, u.atoms));
            }
        },
        EventV::Empty { name, attrs } => {
            assert(open_tags(events) == open_tags(before));
            if let Some(v) = attr(attrs, "w:val"@) {
                let u = with_attr_unit(st.units, first_id, part_name, idx, v).last();
                assert(atoms_inside(events, u.atoms));
            }
        },
        EventV::End { name } => {
            if let Some((kind, elem)) = st.text_elem {
                assert(name == "w:t"@ || name == "a:t"@);
                assert("w:t"@[2] != "w:r"@[2]);
                assert("w:t"@[2] != "a:r"@[2]);
                assert("a:t"@[2] != "a:r"@[2]);
                assert("a:t"@[2] != "w:r"@[2]);
                assert("w:rPr"@.len() == 5 && "a:rPr"@.len() == 5);
                assert(end_paragraph(st, first_id, part_name, name) == st);
                assert(after.text_elem is None);
            }
        },
        _ => {
            assert(open_tags(events) == open_tags(before));
        },
    }
}

proof fn lemma_run_inside(part_name: Seq<char>, first_id: nat, events: Seq<EventV>)
    requires
        texts_flat(events),
    ensures
        state_inside(events, unit_run(part_name, first_id, events)),
    decreases events.len(),
{
    if events.len() > 0 {
        let before = events.drop_last();
        assert forall|j: int| 0 <= j < before.len() implies {
            let inner = top(open_tags(before.take(j)));
            match #[trigger] before[j] {
                EventV::Start { .. } => !text_tag(inner),
                EventV::End { name } => name == inner,
                _ => true,
            }
        } by {
            assert(before.take(j) =~= events.take(j));
            assert(events[j] == before[j]);
        }
        lemma_run_inside(part_name, first_id, before);
        lemma_step_inside(events, part_name, first_id, unit_run(part_name, first_id, before));
    }
}

/// Where text tags hold texts only, a translation can be written into every text of every unit: each
/// node of a unit refers to text of the document.
pub proof fn law_nodes_of_units_fit(part_name: Seq<char>, first_id: nat, events: Seq<EventV>)
    requires
        texts_flat(events),
    ensures
        forall|i: int, k: int|
            0 <= i < unit_run(part_name, first_id, events).units.len() && 0 <= k < unit_run(
                part_name,
                first_id,
                events,
            ).units[i].atoms.len() ==> match (#[trigger] unit_run(
                part_name,
                first_id,
                events,
            ).units[i].atoms[k]).node_ref {
                Some(n) => node_fits(events, n),
                None => true,
            },
{
    let units = unit_run(part_name, first_id, events).units;
    lemma_run_anchored(part_name, first_id, events);
    lemma_run_inside(part_name, first_id, events);
    assert forall|i: int, k: int|
        0 <= i < units.len() && 0 <= k < units[i].atoms.len() implies match (
    #[trigger] units[i].atoms[k]).node_ref {
        Some(n) => node_fits(events, n),
        None => true,
    } by {
        assert(unit_anchored(events, part_name, units[i]));
        assert(atoms_inside(events, units[i].atoms));
        if let Some(n) = units[i].atoms[k].node_ref {
            assert(anchored(events, part_name, n));
        }
    }
}

} // verus!
