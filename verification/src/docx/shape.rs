//! Events that stand in a file as they are: what can be written and read back.

use crate::chars::{dec_padded, find_from, is_digit, lemma_dec_padded, lemma_find_from};
use crate::docx::decompose::{
    attrs_with, law_slot_text_set, mask_run, placeholder_of, slot_text, slot_texts_of,
    with_slot_text, SlotV,
};
use crate::docx::refilled::refilled;
use crate::docx::xml::{events_of, events_written, open_tags, AttrsV, EventV, TokenV, XmlErrorV};
use vstd::prelude::*;
use vstd::utf8::*;

verus! {

/// The white space of XML.
pub open spec fn xml_blank(c: char) -> bool {
    c == ' ' || c == '\r' || c == '\n' || c == '\t'
}

/// Whether a character can stand in any place of a name.
pub open spec fn name_char(c: char) -> bool {
    !xml_blank(c) && c != '"' && c != '\'' && c != '>' && c != '/' && c != '='
}

/// Whether a text is a name: not empty, without white space, quotation marks and the other marks that
/// end a name, and not beginning as an instruction or a comment does.
pub open spec fn plain_name(n: Seq<char>) -> bool {
    &&& n.len() > 0
    &&& n[0] != '!' && n[0] != '?'
    &&& forall|i: int| 0 <= i < n.len() ==> name_char(#[trigger] n[i])
}

/// Whether there is a quotation mark that a value does not hold.
pub open spec fn quotable(v: Seq<char>) -> bool {
    !(v.contains('"') && v.contains('\''))
}

/// Whether each `<` of a text has its `>`, where `depth` of them are open before it.
pub open spec fn nested(s: Seq<char>, depth: nat) -> bool
    decreases s.len(),
{
    if s.len() == 0 {
        depth == 0
    } else if s[0] == '<' {
        nested(s.drop_first(), depth + 1)
    } else if s[0] == '>' {
        depth > 0 && nested(s.drop_first(), (depth - 1) as nat)
    } else {
        nested(s.drop_first(), depth)
    }
}

/// Whether the content of an instruction makes it a declaration.
pub open spec fn declares(content: Seq<char>) -> bool {
    &&& content.len() >= 3
    &&& content[0] == 'x' && content[1] == 'm' && content[2] == 'l'
    &&& content.len() == 3 || xml_blank(content[3])
}

/// Whether a field of a declaration does not end it.
pub open spec fn field_shaped(f: Option<Seq<char>>) -> bool {
    f matches Some(s) ==> find_from(s, "?>"@, 0) is None
}

/// Whether a field of a declaration can stand in double quotes.
pub open spec fn field_plain(f: Option<Seq<char>>) -> bool {
    f matches Some(s) ==> !s.contains('"')
}

/// Whether the values of a list of attributes can be quoted.
pub open spec fn values_shaped(attrs: AttrsV) -> bool {
    forall|i: int| 0 <= i < attrs.len() ==> quotable((#[trigger] attrs[i]).1)
}

/// Whether the keys of a list of attributes are names, each of them once.
pub open spec fn keys_plain(attrs: AttrsV) -> bool {
    &&& forall|i: int| 0 <= i < attrs.len() ==> plain_name((#[trigger] attrs[i]).0)
    &&& forall|i: int, j: int|
        0 <= i < j < attrs.len() ==> (#[trigger] attrs[i]).0 != (#[trigger] attrs[j]).0
}

/// Whether what an event holds does not end it: an XML reader gives no other events.
pub open spec fn event_shaped(ev: EventV) -> bool {
    match ev {
        EventV::Decl { version, encoding, standalone } => field_shaped(Some(version))
            && field_shaped(encoding) && field_shaped(standalone),
        EventV::Start { attrs, .. } => values_shaped(attrs),
        EventV::End { .. } => true,
        EventV::Empty { attrs, .. } => values_shaped(attrs),
        EventV::Text { text } => text.len() > 0,
        EventV::CData { text } => find_from(text, "]]>"@, 0) is None,
        EventV::Comment { text } => find_from(text, "-->"@, 0) is None,
        EventV::PI { content } => {
            &&& find_from(content, "?>"@, 0) is None
            &&& !(content.len() > 0 && content[0] == '>')
            &&& !declares(content)
        },
        EventV::DocType { text } => text.len() > 0 && !xml_blank(text[0]) && nested(text, 0),
    }
}

/// Whether the event at `i`, if it is an end tag, closes the innermost open tag.
pub open spec fn closes(events: Seq<EventV>, i: int) -> bool {
    let open = open_tags(events.take(i));
    events[i] matches EventV::End { name } ==> open.len() > 0 && open.last() == name
}

/// Whether the event at `i` is a text after a text.
pub open spec fn touches(events: Seq<EventV>, i: int) -> bool {
    events[i - 1] is Text && events[i] is Text
}

/// Whether events have the shape that an XML reader gives: end tags close the innermost open tag, texts
/// are neither empty nor side by side, and no event holds what would end it.
pub open spec fn shaped(events: Seq<EventV>) -> bool {
    &&& forall|i: int| 0 <= i < events.len() ==> event_shaped(#[trigger] events[i])
    &&& forall|i: int| 0 <= i < events.len() ==> #[trigger] closes(events, i)
    &&& forall|i: int| 0 < i < events.len() ==> !(#[trigger] touches(events, i))
}

/// Whether the names in an event are names, and the fields of a declaration fit in double quotes.
pub open spec fn event_plain(ev: EventV) -> bool {
    match ev {
        EventV::Decl { version, encoding, standalone } => field_plain(Some(version)) && field_plain(
            encoding,
        ) && field_plain(standalone),
        EventV::Start { name, attrs } => plain_name(name) && keys_plain(attrs),
        EventV::Empty { name, attrs } => plain_name(name) && keys_plain(attrs),
        _ => true,
    }
}

/// Whether events begin with a byte order mark, which a reader passes over.
pub open spec fn marked(events: Seq<EventV>) -> bool {
    events.len() > 0 && (events[0] matches EventV::Text { text } && text.len() > 0 && text[0]
        == '\u{feff}')
}

/// Whether the names in events are names, and they do not begin with a byte order mark.
pub open spec fn plain(events: Seq<EventV>) -> bool {
    &&& forall|i: int| 0 <= i < events.len() ==> event_plain(#[trigger] events[i])
    &&& !marked(events)
}

/// What an XML reader makes of the bytes `xml`, where `tokens` are what it tells of them: its events have
/// their shape, and where the bytes are those of shaped and plain events, it gives those events.
pub open spec fn faithful(xml: Seq<u8>, tokens: Seq<Result<TokenV, Seq<char>>>) -> bool {
    &&& events_of(tokens) matches Ok(events) ==> shaped(events)
    &&& forall|events: Seq<EventV>|
        shaped(events) && plain(events) && xml == encode_utf8(#[trigger] events_written(events))
            ==> events_of(tokens) == Ok::<_, XmlErrorV>(events)
}

/// Whether a text can stand in the slot of an event.
pub open spec fn slot_takes(ev: EventV, t: Seq<char>) -> bool {
    match ev {
        EventV::Text { .. } => t.len() > 0,
        EventV::CData { .. } => find_from(t, "]]>"@, 0) is None,
        _ => quotable(t),
    }
}

/// Whether the texts can stand in the slots of the events, one after the other, or stand there.
pub open spec fn fillable(events: Seq<EventV>, texts: Seq<Seq<char>>) -> bool
    decreases events.len(),
{
    if events.len() == 0 {
        true
    } else if slot_text(events.last()) is Some {
        &&& slot_takes(events.last(), texts.last()) || slot_text(events.last()) == Some(texts.last())
        &&& fillable(events.drop_last(), texts.drop_last())
    } else {
        fillable(events.drop_last(), texts)
    }
}

/// Whether a text holds lower-case hexadecimal digits only.
pub open spec fn hex_tag(s: Seq<char>) -> bool {
    forall|i: int| 0 <= i < s.len() ==> is_digit(#[trigger] s[i]) || 'a' <= s[i] <= 'f'
}

/// Whether two events are of one kind with one name.
spec fn same_frame(a: EventV, b: EventV) -> bool {
    match a {
        EventV::Start { name, .. } => b matches EventV::Start { name: other, .. } && name == other,
        EventV::End { .. } => a == b,
        EventV::Text { .. } => b is Text,
        _ => !(b is Start) && !(b is End) && !(b is Text),
    }
}

proof fn lemma_attrs_with(attrs: AttrsV, key: Seq<char>, v: Seq<char>)
    ensures
        attrs_with(attrs, key, v).len() == attrs.len(),
        forall|i: int|
            0 <= i < attrs.len() ==> (#[trigger] attrs_with(attrs, key, v)[i]).0 == attrs[i].0 && (
            attrs_with(attrs, key, v)[i].1 == attrs[i].1 || attrs_with(attrs, key, v)[i].1 == v),
    decreases attrs.len(),
{
    if attrs.len() > 0 && attrs[0].0 != key {
        let rest = attrs.drop_first();
        lemma_attrs_with(rest, key, v);
        let r = attrs_with(attrs, key, v);
        assert forall|i: int| 0 <= i < attrs.len() implies (#[trigger] r[i]).0 == attrs[i].0 && (r[i].1
            == attrs[i].1 || r[i].1 == v) by {
            if i > 0 {
                assert(r[i] == attrs_with(rest, key, v)[i - 1]);
                assert(rest[i - 1] == attrs[i]);
            }
        }
    }
}

/// An event keeps its shape with a text in its slot that can stand there.
proof fn lemma_slot_filled(ev: EventV, t: Seq<char>)
    requires
        slot_text(ev) is Some,
        slot_takes(ev, t),
        event_shaped(ev),
        event_plain(ev),
    ensures
        event_shaped(with_slot_text(ev, t)),
        event_plain(with_slot_text(ev, t)),
        same_frame(ev, with_slot_text(ev, t)),
{
    match ev {
        EventV::Start { attrs, .. } => lemma_filled_attrs(attrs, t),
        EventV::Empty { attrs, .. } => lemma_filled_attrs(attrs, t),
        _ => {},
    }
}

proof fn lemma_filled_attrs(attrs: AttrsV, t: Seq<char>)
    requires
        quotable(t),
        values_shaped(attrs),
        keys_plain(attrs),
    ensures
        values_shaped(attrs_with(attrs, "w:val"@, t)),
        keys_plain(attrs_with(attrs, "w:val"@, t)),
{
    lemma_attrs_with(attrs, "w:val"@, t);
    let r = attrs_with(attrs, "w:val"@, t);
    assert forall|i: int, j: int| 0 <= i < j < r.len() implies (#[trigger] r[i]).0 != (
    #[trigger] r[j]).0 by {
        assert(attrs[i].0 != attrs[j].0);
    }
    assert forall|i: int| 0 <= i < r.len() implies plain_name((#[trigger] r[i]).0) by {
        assert(plain_name(attrs[i].0));
    }
    assert forall|i: int| 0 <= i < r.len() implies quotable((#[trigger] r[i]).1) by {
        assert(quotable(attrs[i].1));
    }
}

proof fn lemma_same_tags(a: Seq<EventV>, b: Seq<EventV>)
    requires
        a.len() == b.len(),
        forall|i: int| 0 <= i < a.len() ==> same_frame(#[trigger] a[i], b[i]),
    ensures
        open_tags(a) == open_tags(b),
    decreases a.len(),
{
    if a.len() > 0 {
        let (x, y) = (a.drop_last(), b.drop_last());
        assert forall|i: int| 0 <= i < x.len() implies same_frame(#[trigger] x[i], y[i]) by {
            assert(x[i] == a[i]);
        }
        lemma_same_tags(x, y);
        assert(same_frame(a[a.len() - 1], b[a.len() - 1]));
    }
}

/// Events with the kinds and names of shaped ones are shaped, where each of them is.
proof fn lemma_fits_like(a: Seq<EventV>, b: Seq<EventV>)
    requires
        shaped(a),
        a.len() == b.len(),
        forall|i: int|
            0 <= i < a.len() ==> same_frame(#[trigger] a[i], b[i]) && event_shaped(b[i])
                && event_plain(b[i]),
        !marked(b),
    ensures
        shaped(b),
        plain(b),
{
    assert forall|i: int| 0 <= i < b.len() implies event_shaped(#[trigger] b[i]) && event_plain(
        b[i],
    ) by {
        assert(same_frame(a[i], b[i]));
    }
    assert forall|i: int| 0 <= i < b.len() implies #[trigger] closes(b, i) by {
        let (x, y) = (a.take(i), b.take(i));
        assert forall|k: int| 0 <= k < x.len() implies same_frame(#[trigger] x[k], y[k]) by {
            assert(x[k] == a[k]);
        }
        lemma_same_tags(x, y);
        assert(same_frame(a[i], b[i]));
        assert(closes(a, i));
    }
    assert forall|i: int| 0 < i < b.len() implies !(#[trigger] touches(b, i)) by {
        assert(!touches(a, i));
        assert(same_frame(a[i - 1], b[i - 1]));
        assert(same_frame(a[i], b[i]));
    }
}

/// A placeholder can stand in any slot, and does not begin with a byte order mark.
proof fn lemma_placeholder_fits(prefix: Seq<char>, id: nat, ev: EventV)
    requires
        hex_tag(prefix),
    ensures
        slot_takes(ev, placeholder_of(prefix, id)),
        placeholder_of(prefix, id).len() > 0,
        placeholder_of(prefix, id)[0] == '_',
{
    let t = placeholder_of(prefix, id);
    let d = dec_padded(id, 8);
    lemma_dec_padded(id, 8);
    reveal_strlit("__MT_MASK_");
    reveal_strlit("_");
    reveal_strlit("__");
    reveal_strlit("]]>");
    assert forall|i: int| 0 <= i < t.len() implies #[trigger] t[i] != '"' && t[i] != ']' by {
        let n = prefix.len();
        if 10 <= i < 10 + n {
            assert(t[i] == prefix[i - 10]);
        } else if 11 + n <= i < 11 + n + d.len() {
            assert(t[i] == d[i - 11 - n]);
            assert(is_digit(d[i - 11 - n]));
        }
    }
    lemma_find_from(t, "]]>"@, 0);
    if let Some(j) = find_from(t, "]]>"@, 0) {
        assert(t.subrange(j, j + 3)[0] == t[j]);
    }
}

/// What is put in the place of each event of a masked part.
proof fn lemma_masked(prefix: Seq<char>, name: Seq<char>, before: Seq<SlotV>, events: Seq<EventV>)
    requires
        hex_tag(prefix),
        forall|i: int|
            0 <= i < events.len() ==> event_shaped(#[trigger] events[i]) && event_plain(events[i]),
    ensures
        ({
            let r = mask_run(prefix, name, before, events).events;
            &&& r.len() == events.len()
            &&& forall|i: int|
                0 <= i < events.len() ==> same_frame(events[i], #[trigger] r[i]) && event_shaped(
                    r[i],
                ) && event_plain(r[i])
            &&& !marked(r) || marked(events)
        }),
    decreases events.len(),
{
    if events.len() > 0 {
        let front = events.drop_last();
        assert forall|i: int| 0 <= i < front.len() implies event_shaped(#[trigger] front[i])
            && event_plain(front[i]) by {
            assert(front[i] == events[i]);
        }
        lemma_masked(prefix, name, before, front);
        let st = mask_run(prefix, name, before, front);
        let r = mask_run(prefix, name, before, events).events;
        let ev = events.last();
        assert(ev == events[events.len() - 1]);
        let id = st.slots.len() + 1;
        if slot_text(ev) is Some {
            lemma_placeholder_fits(prefix, id, ev);
            lemma_slot_filled(ev, placeholder_of(prefix, id));
        }
        assert forall|i: int| 0 <= i < events.len() implies same_frame(events[i], #[trigger] r[i])
            && event_shaped(r[i]) && event_plain(r[i]) by {
            if i < front.len() {
                assert(r[i] == st.events[i]);
                assert(front[i] == events[i]);
            }
        }
    }
}

/// Masking a part keeps its shape and its names.
pub proof fn law_masked_parts_fit(
    prefix: Seq<char>,
    name: Seq<char>,
    before: Seq<SlotV>,
    events: Seq<EventV>,
)
    requires
        hex_tag(prefix),
        shaped(events),
        plain(events),
    ensures
        shaped(mask_run(prefix, name, before, events).events),
        plain(mask_run(prefix, name, before, events).events),
{
    lemma_masked(prefix, name, before, events);
    lemma_fits_like(events, mask_run(prefix, name, before, events).events);
}

proof fn lemma_refilled_fits(events: Seq<EventV>, texts: Seq<Seq<char>>)
    requires
        texts.len() == slot_texts_of(events).len(),
        fillable(events, texts),
        forall|i: int|
            0 <= i < events.len() ==> event_shaped(#[trigger] events[i]) && event_plain(events[i]),
    ensures
        ({
            let r = refilled(events, texts);
            &&& r.len() == events.len()
            &&& forall|i: int|
                0 <= i < events.len() ==> same_frame(events[i], #[trigger] r[i]) && event_shaped(
                    r[i],
                ) && event_plain(r[i])
        }),
    decreases events.len(),
{
    if events.len() > 0 {
        let front = events.drop_last();
        assert forall|i: int| 0 <= i < front.len() implies event_shaped(#[trigger] front[i])
            && event_plain(front[i]) by {
            assert(front[i] == events[i]);
        }
        let ev = events.last();
        assert(ev == events[events.len() - 1]);
        let some = slot_text(ev) is Some;
        let rest = if some {
            texts.drop_last()
        } else {
            texts
        };
        lemma_refilled_fits(front, rest);
        let r = refilled(events, texts);
        if some {
            if slot_takes(ev, texts.last()) {
                lemma_slot_filled(ev, texts.last());
            } else {
                law_slot_text_set(ev, texts.last(), texts.last());
            }
        }
        assert forall|i: int| 0 <= i < events.len() implies same_frame(events[i], #[trigger] r[i])
            && event_shaped(r[i]) && event_plain(r[i]) by {
            if i < front.len() {
                assert(r[i] == refilled(front, rest)[i]);
                assert(front[i] == events[i]);
            }
        }
    }
}

/// Other texts that can stand in the slots of a part keep its shape and its names: in a text any that
/// is not empty, in a CDATA section any without its end, in an attribute any without one of the
/// quotation marks. At the very beginning no byte order mark can stand.
pub proof fn law_filled_parts_fit(events: Seq<EventV>, texts: Seq<Seq<char>>)
    requires
        shaped(events),
        plain(events),
        texts.len() == slot_texts_of(events).len(),
        fillable(events, texts),
        !marked(refilled(events, texts)),
    ensures
        shaped(refilled(events, texts)),
        plain(refilled(events, texts)),
{
    lemma_refilled_fits(events, texts);
    lemma_fits_like(events, refilled(events, texts));
}

} // verus!
