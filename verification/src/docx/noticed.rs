//! What is noticed where two parts, or two packages, are compared.

use crate::chars::has;
use crate::docx::decompose::{
    entries_difference, entry_difference, first_impure, leftover_attr, leftover_event, placeholder_form,
    slot_text,
};
use crate::docx::package::{xml_name, EntryV};
use crate::docx::xml::{
    full_hash_of, hash_run, lemma_hash_stack, open_tags, parsed, start_hashed, text_tag, top, AttrsV,
    EventV,
};
use vstd::prelude::*;

verus! {

proof fn lemma_cancel(a: Seq<char>, x: Seq<char>, y: Seq<char>)
    requires
        a + x == a + y,
    ensures
        x == y,
{
    assert((a + x).skip(a.len() as int) =~= x);
    assert((a + y).skip(a.len() as int) =~= y);
}

proof fn lemma_cancel_end(x: Seq<char>, y: Seq<char>, z: Seq<char>)
    requires
        x + z == y + z,
    ensures
        x == y,
{
    assert((x + z).len() == x.len() + z.len());
    assert((y + z).len() == y.len() + z.len());
    assert(x.len() == y.len());
    assert((x + z).take(x.len() as int) =~= x);
    assert((y + z).take(y.len() as int) =~= y);
}

/// Whether a name holds no bar.
pub open spec fn no_bar(s: Seq<char>) -> bool {
    forall|i: int| 0 <= i < s.len() ==> #[trigger] s[i] != '|'
}

proof fn lemma_before_bar(x: Seq<char>, p: Seq<char>, y: Seq<char>, q: Seq<char>)
    requires
        no_bar(x),
        no_bar(y),
        x + seq!['|'] + p == y + seq!['|'] + q,
    ensures
        x == y,
        p == q,
{
    let s = x + seq!['|'] + p;
    let t = y + seq!['|'] + q;
    assert(s[x.len() as int] == '|');
    assert(t[y.len() as int] == '|');
    if x.len() < y.len() {
        assert(t[x.len() as int] == y[x.len() as int]);
    } else if y.len() < x.len() {
        assert(s[y.len() as int] == x[y.len() as int]);
    }
    assert(s.take(x.len() as int) =~= x);
    assert(t.take(y.len() as int) =~= y);
    assert(s.skip(x.len() as int + 1) =~= p);
    assert(t.skip(y.len() as int + 1) =~= q);
}

/// What is hashed of a part tells its events apart: the names of tags, the tags that open from those
/// that close, comments and the like, and the texts that are not the document's own; in the full form
/// those as well.
pub proof fn law_hashed_text_tells_apart(full: bool, events: Seq<EventV>, a: EventV, b: EventV)
    requires
        hash_run(full, events.push(a)).text == hash_run(full, events.push(b)).text,
    ensures
        a is Text && b is Text && (full || !text_tag(top(open_tags(events)))) ==> a == b,
        a is End && b is End ==> a == b,
        a is CData && b is CData ==> a == b,
        a is Comment && b is Comment ==> a == b,
        a is PI && b is PI ==> a == b,
        a is Start && b is Start && no_bar(a->Start_name) && no_bar(b->Start_name) ==> a->Start_name
            == b->Start_name,
        !(a is Start && b is End),
        !(a is Start && b is Text && (full || !text_tag(top(open_tags(events))))),
        !(a is End && b is Text && (full || !text_tag(top(open_tags(events))))),
        !(a is Start && b is Text && !full),
        !(a is End && b is Text && !full),
{
    assert(events.push(a).drop_last() =~= events);
    assert(events.push(b).drop_last() =~= events);
    lemma_hash_stack(full, events);
    let st = hash_run(full, events);
    let fed = st.text;
    let tag = top(st.stack);
    reveal_strlit("S:");
    reveal_strlit("E:");
    reveal_strlit("T:");
    reveal_strlit("C:");
    reveal_strlit("M:");
    reveal_strlit("P:");
    reveal_strlit("|");
    reveal_strlit("\n");
    assert("|"@ =~= seq!['|']);
    let nl = "\n"@;
    match (a, b) {
        (EventV::Text { text: t }, EventV::Text { text: u }) => {
            if full {
                let h = "T:"@ + tag + "|"@;
                assert(fed + h + (t + nl) =~= fed + (h + (t + nl)));
                assert(fed + h + (u + nl) =~= fed + (h + (u + nl)));
                lemma_cancel(fed, h + (t + nl), h + (u + nl));
                lemma_cancel(h, t + nl, u + nl);
                lemma_cancel_end(t, u, nl);
            } else if !text_tag(tag) {
                lemma_cancel(fed, "T:"@ + t + nl, "T:"@ + u + nl);
                assert("T:"@ + t + nl =~= "T:"@ + (t + nl));
                assert("T:"@ + u + nl =~= "T:"@ + (u + nl));
                lemma_cancel("T:"@, t + nl, u + nl);
                lemma_cancel_end(t, u, nl);
            }
        },
        (EventV::End { name: t }, EventV::End { name: u }) => {
            lemma_cancel(fed, "E:"@ + t + nl, "E:"@ + u + nl);
            assert("E:"@ + t + nl =~= "E:"@ + (t + nl));
            assert("E:"@ + u + nl =~= "E:"@ + (u + nl));
            lemma_cancel("E:"@, t + nl, u + nl);
            lemma_cancel_end(t, u, nl);
        },
        (EventV::CData { text: t }, EventV::CData { text: u }) => {
            lemma_cancel(fed, "C:"@ + t + nl, "C:"@ + u + nl);
            assert("C:"@ + t + nl =~= "C:"@ + (t + nl));
            assert("C:"@ + u + nl =~= "C:"@ + (u + nl));
            lemma_cancel("C:"@, t + nl, u + nl);
            lemma_cancel_end(t, u, nl);
        },
        (EventV::Comment { text: t }, EventV::Comment { text: u }) => {
            lemma_cancel(fed, "M:"@ + t + nl, "M:"@ + u + nl);
            assert("M:"@ + t + nl =~= "M:"@ + (t + nl));
            assert("M:"@ + u + nl =~= "M:"@ + (u + nl));
            lemma_cancel("M:"@, t + nl, u + nl);
            lemma_cancel_end(t, u, nl);
        },
        (EventV::PI { content: t }, EventV::PI { content: u }) => {
            lemma_cancel(fed, "P:"@ + t + nl, "P:"@ + u + nl);
            assert("P:"@ + t + nl =~= "P:"@ + (t + nl));
            assert("P:"@ + u + nl =~= "P:"@ + (u + nl));
            lemma_cancel("P:"@, t + nl, u + nl);
            lemma_cancel_end(t, u, nl);
        },
        (EventV::Start { name: t, attrs: v }, EventV::Start { name: u, attrs: w }) => {
            let x = start_hashed(full, t, v);
            let y = start_hashed(full, u, w);
            lemma_cancel(fed, x, y);
            if no_bar(t) && no_bar(u) {
                let p = crate::docx::xml::attrs_hashed_text(
                    crate::docx::xml::hashed_attrs(full, t, v),
                ) + nl;
                let q = crate::docx::xml::attrs_hashed_text(
                    crate::docx::xml::hashed_attrs(full, u, w),
                ) + nl;
                assert(x =~= "S:"@ + (t + seq!['|'] + p));
                assert(y =~= "S:"@ + (u + seq!['|'] + q));
                lemma_cancel("S:"@, t + seq!['|'] + p, u + seq!['|'] + q);
                lemma_before_bar(t, p, u, q);
            }
        },
        _ => {
            if (a is Start || a is End) && (b is End || b is Text) {
                lemma_first_fed(full, events, a, b);
            }
        },
    }
}

/// What is fed for a tag that opens, one that closes, and a text begins with a letter of its own.
proof fn lemma_first_fed(full: bool, events: Seq<EventV>, a: EventV, b: EventV)
    requires
        a is Start || a is End,
        b is End || b is Text,
        !(a is End && b is End),
    ensures
        hash_run(full, events.push(a)).text != hash_run(full, events.push(b)).text,
{
    assert(events.push(a).drop_last() =~= events);
    assert(events.push(b).drop_last() =~= events);
    let fed = hash_run(full, events).text;
    let n = fed.len() as int;
    reveal_strlit("S:");
    reveal_strlit("E:");
    reveal_strlit("T:");
    let x = hash_run(full, events.push(a)).text;
    let y = hash_run(full, events.push(b)).text;
    if a is Start {
        assert(x[n] == 'S');
    } else {
        assert(x[n] == 'E');
    }
    if b is End {
        assert(y[n] == 'E');
    } else if y.len() > n {
        assert(y[n] == 'T');
    }
}

/// Whether two entries are the same to a comparison: in name, packing, time and kind, and in what they
/// hold, byte by byte, or for XML as far as the digest of their events tells.
pub open spec fn entries_agree(a: EntryV, b: EntryV) -> bool {
    &&& a.name == b.name
    &&& a.compression == b.compression
    &&& a.last_modified == b.last_modified
    &&& a.is_dir == b.is_dir
    &&& if !xml_name(a.name) {
        a.data == b.data
    } else {
        (a.data.len() == 0 && b.data.len() == 0) || (parsed(a.data) matches Ok(x) && (parsed(
            b.data,
        ) matches Ok(y) && full_hash_of(x) == full_hash_of(y)))
    }
}

/// Two packages are taken for the same if and only if their entries agree one by one.
pub proof fn law_differences_are_noticed(a: Seq<EntryV>, b: Seq<EntryV>)
    requires
        a.len() == b.len(),
    ensures
        entries_difference(a, b) is None <==> forall|k: int|
            0 <= k < a.len() ==> entries_agree(#[trigger] a[k], b[k]),
    decreases a.len(),
{
    if a.len() > 0 {
        let (x, y) = (a.drop_first(), b.drop_first());
        law_differences_are_noticed(x, y);
        assert(entry_difference(a[0], b[0]) is None <==> entries_agree(a[0], b[0]));
        if entries_difference(a, b) is None {
            assert forall|k: int| 0 <= k < a.len() implies entries_agree(#[trigger] a[k], b[k]) by {
                if k > 0 {
                    assert(x[k - 1] == a[k] && y[k - 1] == b[k]);
                    assert(entries_agree(x[k - 1], y[k - 1]));
                }
            }
        } else if forall|k: int| 0 <= k < a.len() ==> entries_agree(#[trigger] a[k], b[k]) {
            assert(entries_agree(a[0], b[0]));
            assert forall|k: int| 0 <= k < x.len() implies entries_agree(#[trigger] x[k], y[k]) by {
                assert(x[k] == a[k + 1] && y[k] == b[k + 1]);
                assert(entries_agree(a[k + 1], b[k + 1]));
            }
        }
    }
}

/// A masked part is found to be pure if and only if all of its slots hold placeholders.
pub proof fn law_impure_text_is_found(prefix: Seq<char>, events: Seq<EventV>)
    ensures
        first_impure(prefix, events) is None <==> forall|k: int|
            0 <= k < events.len() ==> (slot_text(#[trigger] events[k]) matches Some(t)
                ==> placeholder_form(t, prefix)),
    decreases events.len(),
{
    if events.len() > 0 {
        let rest = events.drop_first();
        law_impure_text_is_found(prefix, rest);
        if first_impure(prefix, events) is None {
            assert forall|k: int| 0 <= k < events.len() implies (slot_text(
                #[trigger] events[k],
            ) matches Some(t) ==> placeholder_form(t, prefix)) by {
                if k > 0 {
                    assert(rest[k - 1] == events[k]);
                }
            }
        } else if forall|k: int|
            0 <= k < events.len() ==> (slot_text(#[trigger] events[k]) matches Some(t)
                ==> placeholder_form(t, prefix)) {
            assert(slot_text(events[0]) matches Some(t) ==> placeholder_form(t, prefix));
            assert forall|k: int| 0 <= k < rest.len() implies (slot_text(
                #[trigger] rest[k],
            ) matches Some(t) ==> placeholder_form(t, prefix)) by {
                assert(rest[k] == events[k + 1]);
            }
        }
    }
}

proof fn lemma_leftover_attr(prefix: Seq<char>, attrs: AttrsV)
    ensures
        leftover_attr(prefix, attrs) is None <==> forall|k: int|
            0 <= k < attrs.len() ==> !(has((#[trigger] attrs[k]).1, prefix)),
    decreases attrs.len(),
{
    if attrs.len() > 0 {
        let rest = attrs.drop_first();
        lemma_leftover_attr(prefix, rest);
        if leftover_attr(prefix, attrs) is None {
            assert forall|k: int| 0 <= k < attrs.len() implies !(has(
                (#[trigger] attrs[k]).1,
                prefix,
            )) by {
                if k > 0 {
                    assert(rest[k - 1] == attrs[k]);
                }
            }
        } else if forall|k: int| 0 <= k < attrs.len() ==> !(has((#[trigger] attrs[k]).1, prefix)) {
            assert(!(has(attrs[0].1, prefix)));
            assert forall|k: int| 0 <= k < rest.len() implies !(has((#[trigger] rest[k]).1, prefix)) by {
                assert(rest[k] == attrs[k + 1]);
            }
        }
    }
}

/// A placeholder that is left in a text or in the value of an attribute is found, and nothing else is.
pub proof fn law_leftover_is_found(prefix: Seq<char>, ev: EventV)
    ensures
        leftover_event(prefix, ev) is None <==> match ev {
            EventV::Text { text } => !(has(text, prefix)),
            EventV::CData { text } => !(has(text, prefix)),
            EventV::Start { attrs, .. } => forall|k: int|
                0 <= k < attrs.len() ==> !(has((#[trigger] attrs[k]).1, prefix)),
            EventV::Empty { attrs, .. } => forall|k: int|
                0 <= k < attrs.len() ==> !(has((#[trigger] attrs[k]).1, prefix)),
            _ => true,
        },
{
    match ev {
        EventV::Start { attrs, .. } => lemma_leftover_attr(prefix, attrs),
        EventV::Empty { attrs, .. } => lemma_leftover_attr(prefix, attrs),
        _ => {},
    }
}

} // verus!
