//! What the unit of a paragraph says: the texts of the paragraph, with markers for its breaks.

use crate::chars::{ascii_lower, is_ws, lemma_trimmed_empty, trimmed};
use crate::docx::extract::{
    control_atom, has_text, surface, unit_run, unit_step, w_property, w_signature, UnitsV, WStyleV,
};
use crate::docx::pure_text::attr;
use crate::docx::shown::{first_attr_is, lacks_attr, lemma_attr};
use crate::docx::xml::{AttrsV, EventV};
use crate::ir::{AtomKind, AtomV, UnitV};
use crate::sentinels::{BR, NBH, SHY, TAB};
use vstd::prelude::*;

verus! {

/// The tag of a paragraph of a text, or of a drawing.
pub open spec fn para_tag(drawing: bool) -> Seq<char> {
    if drawing {
        "a:p"@
    } else {
        "w:p"@
    }
}

/// Whether an event opens or closes a paragraph, or holds the format of a list level.
pub open spec fn cuts_in(ev: EventV) -> bool {
    match ev {
        EventV::Start { name, .. } => name == "w:p"@ || name == "a:p"@ || name == "w:lvlText"@,
        EventV::End { name } => name == "w:p"@ || name == "a:p"@,
        EventV::Empty { name, .. } => name == "w:lvlText"@,
        _ => false,
    }
}

/// Whether the events at `s` and `e` are the tags of a paragraph, with no other paragraph in it.
pub open spec fn simple_paragraph(events: Seq<EventV>, drawing: bool, s: int, e: int) -> bool {
    &&& 0 <= s < e < events.len()
    &&& events[s] matches EventV::Start { name, .. } && name == para_tag(drawing)
    &&& events[e] == (EventV::End { name: para_tag(drawing) })
    &&& forall|k: int| s < k < e ==> !cuts_in(#[trigger] events[k])
}

/// Whether a text tag that was opened after the event at `s` is open before the event at `n`.
pub open spec fn in_text(events: Seq<EventV>, s: int, n: int) -> bool
    decreases n - s,
{
    if n <= s + 1 {
        false
    } else {
        match events[n - 1] {
            EventV::Start { name, .. } => name == "w:t"@ || name == "a:t"@ || in_text(
                events,
                s,
                n - 1,
            ),
            EventV::End { name } => name != "w:t"@ && name != "a:t"@ && in_text(events, s, n - 1),
            _ => in_text(events, s, n - 1),
        }
    }
}

/// The marker of a tag: of a tab, a break between lines, a hyphen that does not break, or one that
/// shows only where it does.
pub open spec fn marker_for(drawing: bool, name: Seq<char>) -> Seq<char> {
    if drawing {
        if name == "a:tab"@ {
            "<<MT_TAB>>"@
        } else if name == "a:br"@ {
            "<<MT_BR>>"@
        } else {
            Seq::empty()
        }
    } else if name == "w:tab"@ {
        "<<MT_TAB>>"@
    } else if name == "w:br"@ || name == "w:cr"@ {
        "<<MT_BR>>"@
    } else if name == "w:noBreakHyphen"@ {
        "<<MT_NBH>>"@
    } else if name == "w:softHyphen"@ {
        "<<MT_SHY>>"@
    } else {
        Seq::empty()
    }
}

/// What the event at `k` says in the paragraph that the event at `s` opens.
pub open spec fn said_at(events: Seq<EventV>, drawing: bool, s: int, k: int) -> Seq<char> {
    match events[k] {
        EventV::Text { text } => if in_text(events, s, k) {
            text
        } else {
            Seq::empty()
        },
        EventV::Empty { name, .. } => marker_for(drawing, name),
        _ => Seq::empty(),
    }
}

/// What the events before `n` say in the paragraph that the event at `s` opens.
pub open spec fn said(events: Seq<EventV>, drawing: bool, s: int, n: int) -> Seq<char>
    decreases n - s,
{
    if n <= s + 1 {
        Seq::empty()
    } else {
        said(events, drawing, s, n - 1) + said_at(events, drawing, s, n - 1)
    }
}

/// Whether the event at `k` is a text of the paragraph that the event at `s` opens, and not only white
/// space.
pub open spec fn speaks(events: Seq<EventV>, s: int, k: int) -> bool {
    &&& in_text(events, s, k)
    &&& events[k] matches EventV::Text { text } && exists|i: int|
        0 <= i < text.len() && !is_ws(#[trigger] text[i])
}

proof fn lemma_tags()
    ensures
        "w:p"@.len() == 3,
        "w:p"@[2] == 'p',
        "a:p"@.len() == 3,
        "a:p"@[0] == 'a',
        "w:p"@[0] == 'w',
        "w:t"@.len() == 3,
        "w:t"@[2] == 't',
        "w:t"@[0] == 'w',
        "a:t"@.len() == 3,
        "a:t"@[0] == 'a',
        "a:t"@[2] == 't',
        "a:p"@[2] == 'p',
        "w:r"@.len() == 3,
        "w:r"@[2] == 'r',
        "w:r"@[0] == 'w',
        "a:r"@.len() == 3,
        "a:r"@[0] == 'a',
        "a:r"@[2] == 'r',
        "w:rPr"@.len() == 5,
        "a:rPr"@.len() == 5,
        "w:rPr"@[0] == 'w',
        "a:rPr"@[0] == 'a',
        "w:lvlText"@.len() == 9,
        "w:pStyle"@.len() == 8,
        TAB@ == "<<MT_TAB>>"@,
        BR@ == "<<MT_BR>>"@,
        NBH@ == "<<MT_NBH>>"@,
        SHY@ == "<<MT_SHY>>"@,
{
    reveal_strlit("w:p");
    reveal_strlit("a:p");
    reveal_strlit("w:t");
    reveal_strlit("a:t");
    reveal_strlit("w:r");
    reveal_strlit("a:r");
    reveal_strlit("w:rPr");
    reveal_strlit("a:rPr");
    reveal_strlit("w:lvlText");
    reveal_strlit("w:pStyle");
}

/// What is gathered of a paragraph before the event at `n`.
spec fn hears(
    events: Seq<EventV>,
    drawing: bool,
    s: int,
    n: int,
    units: Seq<UnitV>,
    st: UnitsV,
) -> bool {
    &&& st.in_w_p == !drawing
    &&& st.in_a_p == drawing
    &&& st.start == s
    &&& st.units == units
    &&& st.text_elem is Some <==> in_text(events, s, n)
    &&& surface(st.atoms) == said(events, drawing, s, n)
    &&& has_text(st.atoms) <==> exists|k: int| s < k < n && #[trigger] speaks(events, s, k)
}

proof fn lemma_has_text_push(atoms: Seq<AtomV>, a: AtomV)
    ensures
        has_text(atoms.push(a)) <==> has_text(atoms) || (a.kind == AtomKind::Text && exists|i: int|
            0 <= i < a.value.len() && !is_ws(#[trigger] a.value[i])),
        surface(atoms.push(a)) == surface(atoms) + a.value,
{
    let more = atoms.push(a);
    assert(more.drop_last() =~= atoms);
    lemma_trimmed_empty(a.value);
    if has_text(atoms) {
        let i = choose|i: int|
            0 <= i < atoms.len() && (#[trigger] atoms[i]).kind == AtomKind::Text
                && trimmed(atoms[i].value).len() > 0;
        assert(more[i] == atoms[i]);
    }
    if a.kind == AtomKind::Text && exists|i: int|
        0 <= i < a.value.len() && !is_ws(#[trigger] a.value[i]) {
        assert(more[atoms.len() as int] == a);
    }
    if has_text(more) {
        let i = choose|i: int|
            0 <= i < more.len() && (#[trigger] more[i]).kind == AtomKind::Text
                && trimmed(more[i].value).len() > 0;
        if i < atoms.len() {
            assert(atoms[i] == more[i]);
        }
    }
}

proof fn lemma_hears_step(
    part_name: Seq<char>,
    first_id: nat,
    events: Seq<EventV>,
    drawing: bool,
    s: int,
    n: int,
    units: Seq<UnitV>,
    st: UnitsV,
)
    requires
        0 <= s < n < events.len(),
        hears(events, drawing, s, n, units, st),
        !cuts_in(events[n]),
    ensures
        hears(
            events,
            drawing,
            s,
            n + 1,
            units,
            unit_step(part_name, first_id, st, n as nat, events[n]),
        ),
{
    lemma_tags();
    let now = unit_step(part_name, first_id, st, n as nat, events[n]);
    let before = said(events, drawing, s, n);
    assert(before + Seq::<char>::empty() =~= before);
    assert((exists|k: int| s < k < n + 1 && #[trigger] speaks(events, s, k)) <==> (exists|k: int|
        s < k < n && #[trigger] speaks(events, s, k)) || speaks(events, s, n)) by {
        if exists|k: int| s < k < n + 1 && #[trigger] speaks(events, s, k) {
            let k = choose|k: int| s < k < n + 1 && #[trigger] speaks(events, s, k);
            if k < n {
                assert(speaks(events, s, k));
            }
        }
        if exists|k: int| s < k < n && #[trigger] speaks(events, s, k) {
            let k = choose|k: int| s < k < n && #[trigger] speaks(events, s, k);
            assert(speaks(events, s, k));
        }
    }
    match events[n] {
        EventV::Start { name, attrs } => {
            assert(now.atoms == st.atoms);
            assert(said_at(events, drawing, s, n) =~= Seq::<char>::empty());
        },
        EventV::End { name } => {
            assert(now.atoms == st.atoms);
            assert(said_at(events, drawing, s, n) =~= Seq::<char>::empty());
        },
        EventV::Empty { name, attrs } => {
            match control_atom(st, name) {
                Some(atom) => {
                    lemma_has_text_push(st.atoms, atom);
                },
                None => {},
            }
        },
        EventV::Text { text } => {
            if in_text(events, s, n) {
                assert(now.atoms.len() == st.atoms.len() + 1);
                let a = now.atoms.last();
                assert(now.atoms == st.atoms.push(a));
                lemma_has_text_push(st.atoms, a);
            }
        },
        _ => {},
    }
}

proof fn lemma_hears(
    part_name: Seq<char>,
    first_id: nat,
    events: Seq<EventV>,
    drawing: bool,
    s: int,
    n: int,
)
    requires
        0 <= s < n <= events.len(),
        events[s] matches EventV::Start { name, .. } && name == para_tag(drawing),
        forall|k: int| s < k < n ==> !cuts_in(#[trigger] events[k]),
        unit_run(part_name, first_id, events.take(s)).text_elem is None,
    ensures
        hears(
            events,
            drawing,
            s,
            n,
            unit_run(part_name, first_id, events.take(s)).units,
            unit_run(part_name, first_id, events.take(n)),
        ),
    decreases n,
{
    let m = n - 1;
    assert(events.take(n).drop_last() =~= events.take(m));
    assert(events.take(n).last() == events[m]);
    let before = unit_run(part_name, first_id, events.take(m));
    if m == s {
        lemma_tags();
        let now = unit_run(part_name, first_id, events.take(n));
        assert(now == unit_step(part_name, first_id, before, m as nat, events[m]));
        assert(now.atoms =~= Seq::<AtomV>::empty());
    } else {
        lemma_hears(part_name, first_id, events, drawing, s, m);
        lemma_hears_step(
            part_name,
            first_id,
            events,
            drawing,
            s,
            m,
            unit_run(part_name, first_id, events.take(s)).units,
            before,
        );
    }
}

/// Units that are there stay.
proof fn lemma_units_stay(part_name: Seq<char>, first_id: nat, events: Seq<EventV>, n: int)
    requires
        0 <= n <= events.len(),
    ensures
        ({
            let some = unit_run(part_name, first_id, events.take(n)).units;
            let all = unit_run(part_name, first_id, events).units;
            some.len() <= all.len() && forall|i: int|
                0 <= i < some.len() ==> #[trigger] all[i] == some[i]
        }),
    decreases events.len() - n,
{
    if n < events.len() {
        let next = events.take(n + 1);
        assert(next.drop_last() =~= events.take(n));
        lemma_units_stay(part_name, first_id, events, n + 1);
        let st = unit_run(part_name, first_id, events.take(n));
        let now = unit_run(part_name, first_id, next);
        assert(now == unit_step(part_name, first_id, st, events.take(n).len(), events[n]));
        assert(st.units.len() <= now.units.len());
        assert forall|i: int| 0 <= i < st.units.len() implies #[trigger] now.units[i]
            == st.units[i] by {}
    } else {
        assert(events.take(n) =~= events);
    }
}

/// A paragraph of a part, with no other in it, has a unit if and only if one of its texts is not only
/// white space. The unit says what the paragraph does: its texts in their order, with a marker for each
/// tab, break and special hyphen between them. It comes behind the units of what stands before the
/// paragraph, and its key names the part, the kind of paragraph and the tag.
pub proof fn law_paragraph_has_its_unit(
    part_name: Seq<char>,
    first_id: nat,
    events: Seq<EventV>,
    drawing: bool,
    s: int,
    e: int,
)
    requires
        simple_paragraph(events, drawing, s, e),
        unit_run(part_name, first_id, events.take(s)).text_elem is None,
    ensures
        ({
            let before = unit_run(part_name, first_id, events.take(s)).units;
            let after = unit_run(part_name, first_id, events.take(e + 1)).units;
            let all = unit_run(part_name, first_id, events).units;
            if exists|k: int| s < k < e && #[trigger] speaks(events, s, k) {
                let u = all[before.len() as int];
                &&& after.len() == before.len() + 1
                &&& before.len() < all.len()
                &&& u.source_surface == said(events, drawing, s, e)
                &&& u.tu_id == first_id + before.len()
                &&& u.part_name == part_name
                &&& u.scope_key == part_name + "#"@ + para_tag(drawing) + "@"@ + crate::chars::dec(
                    s as nat,
                )
            } else {
                after == before
            }
        }),
{
    lemma_hears(part_name, first_id, events, drawing, s, e);
    let st = unit_run(part_name, first_id, events.take(e));
    assert(events.take(e + 1).drop_last() =~= events.take(e));
    assert(events.take(e + 1).last() == events[e]);
    lemma_tags();
    lemma_units_stay(part_name, first_id, events, e + 1);
    let now = unit_run(part_name, first_id, events.take(e + 1));
    assert(now == unit_step(part_name, first_id, st, e as nat, events[e]));
}

/// A property of a run that is switched on or off: it is on, unless its value is one of those for off.
pub open spec fn is_on(attrs: AttrsV) -> bool {
    lacks_attr(attrs, "w:val"@) || exists|v: Seq<char>| #[trigger]
        first_attr_is(attrs, "w:val"@, v) && ascii_lower(trimmed(v)) != "0"@ && ascii_lower(
            trimmed(v),
        ) != "false"@ && ascii_lower(trimmed(v)) != "off"@ && ascii_lower(trimmed(v)) != "none"@
}

/// Bold, italic and struck-through text is told by the properties of its run, and so are the
/// underlining, the colour and the size. One property does not change another.
pub proof fn law_run_properties(st: WStyleV, attrs: AttrsV)
    ensures
        w_property(st, "w:b"@, attrs) == (WStyleV { b: Some(is_on(attrs)), ..st }),
        w_property(st, "w:i"@, attrs) == (WStyleV { i: Some(is_on(attrs)), ..st }),
        w_property(st, "w:strike"@, attrs) == (WStyleV { strike: Some(is_on(attrs)), ..st }),
        forall|v: Seq<char>| #[trigger]
            first_attr_is(attrs, "w:val"@, v) ==> w_property(st, "w:u"@, attrs) == (WStyleV {
                u: Some(v),
                ..st
            }) && w_property(st, "w:color"@, attrs) == (WStyleV { color: Some(v), ..st })
                && w_property(st, "w:highlight"@, attrs) == (WStyleV { highlight: Some(v), ..st })
                && w_property(st, "w:sz"@, attrs) == (WStyleV { sz: Some(v), ..st }) && w_property(
                st,
                "w:rStyle"@,
                attrs,
            ) == (WStyleV { r_style: Some(v), ..st }),
{
    lemma_attr(attrs, "w:val"@);
    match attr(attrs, "w:val"@) {
        Some(v) => {
            assert(first_attr_is(attrs, "w:val"@, v));
        },
        None => {},
    }
    reveal_strlit("w:b");
    reveal_strlit("w:i");
    reveal_strlit("w:u");
    reveal_strlit("w:strike");
    reveal_strlit("w:color");
    reveal_strlit("w:highlight");
    reveal_strlit("w:sz");
    reveal_strlit("w:szCs");
    reveal_strlit("w:rStyle");
    reveal_strlit("w:rFonts");
    assert("w:b"@.len() == 3 && "w:i"@.len() == 3 && "w:u"@.len() == 3 && "w:strike"@.len() == 8
        && "w:color"@.len() == 7 && "w:highlight"@.len() == 11 && "w:sz"@.len() == 4
        && "w:szCs"@.len() == 6 && "w:rStyle"@.len() == 8 && "w:rFonts"@.len() == 8);
    assert("w:b"@[2] == 'b' && "w:i"@[2] == 'i' && "w:u"@[2] == 'u' && "w:strike"@[2] == 's'
        && "w:rStyle"@[2] == 'r' && "w:rStyle"@[3] == 'S' && "w:rFonts"@[3] == 'F');
}

/// The signature by which runs are told apart tells bold from plain text, and italic from upright.
pub proof fn law_signature_tells_styles(st: WStyleV, t: WStyleV)
    requires
        st.seen,
        t.seen,
        w_signature(st) == w_signature(t),
    ensures
        st.b == Some(true) <==> t.b == Some(true),
        st.i == Some(true) <==> t.i == Some(true),
{
    reveal_strlit("b=");
    reveal_strlit("|i=");
    reveal_strlit("1");
    reveal_strlit("0");
    let x = w_signature(st);
    let y = w_signature(t);
    assert(x[2] == (if st.b == Some(true) {
        '1'
    } else {
        '0'
    }));
    assert(y[2] == (if t.b == Some(true) {
        '1'
    } else {
        '0'
    }));
    assert(x[6] == (if st.i == Some(true) {
        '1'
    } else {
        '0'
    }));
    assert(y[6] == (if t.i == Some(true) {
        '1'
    } else {
        '0'
    }));
}

} // verus!
