//! What a filter takes out of a part, and what it leaves.

use crate::chars::is_ws;
use crate::docx::filter::{filter_run, filter_step, filtered, kept_attrs, FilterV, RulesV};
use crate::docx::shape::closes;
use crate::docx::shown::{around, balanced, lemma_around_step};
use crate::docx::xml::{top, AttrsV, EventV};
use vstd::prelude::*;

verus! {

/// Whether the rules take out the tag at `d` with all that is in it: an element that they name, or a
/// property of a run that they name.
pub open spec fn taken_out(rules: RulesV, tags: Seq<Seq<char>>, d: int) -> bool {
    &&& 0 <= d < tags.len()
    &&& rules.drop_elements.contains(tags[d]) || (d > 0 && tags[d - 1] == "w:rPr"@
        && rules.drop_run_properties.contains(tags[d]))
}

/// The tags that an event stands in, or opens.
pub open spec fn tags_of(events: Seq<EventV>, k: int) -> Seq<Seq<char>> {
    match events[k] {
        EventV::Start { name, .. } => around(events, k).push(name),
        EventV::Empty { name, .. } => around(events, k).push(name),
        _ => around(events, k),
    }
}

/// Whether a text is only white space, in a tag in which the rules do not keep that.
pub open spec fn empty_text(rules: RulesV, text: Seq<char>, tag: Seq<char>) -> bool {
    &&& forall|i: int| 0 <= i < text.len() ==> is_ws(#[trigger] text[i])
    &&& !rules.preserve_whitespace_text_in.contains(tag)
}

/// Whether the event at `k` is left: it stands in no tag that the rules take out, and is no text of
/// white space that they do not keep.
pub open spec fn is_left(rules: RulesV, events: Seq<EventV>, k: int) -> bool {
    &&& forall|d: int| !#[trigger] taken_out(rules, tags_of(events, k), d)
    &&& match events[k] {
        EventV::Text { text } => !empty_text(rules, text, top(around(events, k))),
        EventV::CData { text } => !empty_text(rules, text, top(around(events, k))),
        _ => true,
    }
}

/// An event without the attributes that the rules take out.
pub open spec fn bare(rules: RulesV, ev: EventV) -> EventV {
    match ev {
        EventV::Start { name, attrs } => EventV::Start {
            name,
            attrs: attrs.filter(|a: (Seq<char>, Seq<char>)| !rules.strip_attributes.contains(a.0)),
        },
        EventV::Empty { name, attrs } => EventV::Empty {
            name,
            attrs: attrs.filter(|a: (Seq<char>, Seq<char>)| !rules.strip_attributes.contains(a.0)),
        },
        _ => ev,
    }
}

/// The events before `n` that are left, in their order.
pub open spec fn left_of(rules: RulesV, events: Seq<EventV>, n: int) -> Seq<EventV>
    decreases n,
{
    if n <= 0 {
        Seq::empty()
    } else if is_left(rules, events, n - 1) {
        left_of(rules, events, n - 1).push(bare(rules, events[n - 1]))
    } else {
        left_of(rules, events, n - 1)
    }
}

proof fn lemma_kept_attrs(attrs: AttrsV, strip: Seq<Seq<char>>)
    ensures
        kept_attrs(attrs, strip) == attrs.filter(|a: (Seq<char>, Seq<char>)| !strip.contains(a.0)),
    decreases attrs.len(),
{
    reveal(Seq::filter);
    if attrs.len() > 0 {
        lemma_kept_attrs(attrs.drop_last(), strip);
    }
}

proof fn lemma_taken_push(rules: RulesV, tags: Seq<Seq<char>>, name: Seq<char>)
    ensures
        forall|d: int|
            d < tags.len() ==> #[trigger] taken_out(rules, tags.push(name), d) == taken_out(
                rules,
                tags,
                d,
            ),
        taken_out(rules, tags.push(name), tags.len() as int) == (rules.drop_elements.contains(name)
            || (tags.len() > 0 && tags.last() == "w:rPr"@ && rules.drop_run_properties.contains(
            name,
        ))),
{
    assert forall|d: int| d < tags.len() implies #[trigger] taken_out(rules, tags.push(name), d)
        == taken_out(rules, tags, d) by {
        if 0 <= d {
            assert(tags.push(name)[d] == tags[d]);
            if 0 < d {
                assert(tags.push(name)[d - 1] == tags[d - 1]);
            }
        }
    }
}

spec fn sifts(rules: RulesV, events: Seq<EventV>, n: int, st: FilterV) -> bool {
    let tags = around(events, n);
    &&& st.stack == tags
    &&& st.out == left_of(rules, events, n)
    &&& st.element is Some <==> st.skip > 0
    &&& st.skip == 0 ==> forall|d: int| !#[trigger] taken_out(rules, tags, d)
    &&& st.skip > 0 ==> {
        &&& taken_out(rules, tags, tags.len() - st.skip)
        &&& forall|d: int| d < tags.len() - st.skip ==> !#[trigger] taken_out(rules, tags, d)
    }
}

proof fn lemma_sifts(rules: RulesV, events: Seq<EventV>, n: int)
    requires
        balanced(events),
        0 <= n <= events.len(),
    ensures
        sifts(rules, events, n, filter_run(rules, events.take(n))),
    decreases n,
{
    let st = filter_run(rules, events.take(n));
    if n == 0 {
        assert(events.take(0) =~= Seq::empty());
    } else {
        let m = n - 1;
        let before = filter_run(rules, events.take(m));
        lemma_sifts(rules, events, m);
        lemma_around_step(events, m);
        assert(closes(events, m));
        let tags = around(events, m);
        let now = around(events, n);
        assert(st == filter_step(rules, before, events[m]));
        reveal_strlit("w:rPr");
        assert("w:rPr"@.len() > 0);
        match events[m] {
            EventV::Start { name, attrs } => {
                lemma_taken_push(rules, tags, name);
                lemma_kept_attrs(attrs, rules.strip_attributes);
                if before.skip > 0 {
                    assert(taken_out(rules, now, tags.len() - before.skip));
                    assert(taken_out(rules, tags_of(events, m), tags.len() - before.skip));
                } else if taken_out(rules, now, tags.len() as int) {
                    assert(taken_out(rules, tags_of(events, m), tags.len() as int));
                } else {
                    assert forall|d: int| !#[trigger] taken_out(rules, now, d) by {
                        if d < tags.len() {
                            assert(!taken_out(rules, tags, d));
                        }
                    }
                    assert(is_left(rules, events, m));
                }
                assert(sifts(rules, events, n, st));
            },
            EventV::Empty { name, attrs } => {
                lemma_taken_push(rules, tags, name);
                lemma_kept_attrs(attrs, rules.strip_attributes);
                let all = tags_of(events, m);
                if before.skip > 0 {
                    assert(taken_out(rules, tags, tags.len() - before.skip));
                    assert(taken_out(rules, all, tags.len() - before.skip));
                } else if taken_out(rules, all, tags.len() as int) {
                } else {
                    assert forall|d: int| !#[trigger] taken_out(rules, all, d) by {
                        if d < tags.len() {
                            assert(!taken_out(rules, tags, d));
                        }
                    }
                    assert(is_left(rules, events, m));
                }
                assert(sifts(rules, events, n, st));
            },
            EventV::End { name } => {
                assert(tags =~= now.push(name));
                lemma_taken_push(rules, now, name);
                if before.skip > 0 {
                    assert(taken_out(rules, tags, tags.len() - before.skip));
                    assert(taken_out(rules, tags_of(events, m), tags.len() - before.skip));
                    if before.skip > 1 {
                        assert(taken_out(rules, now.push(name), tags.len() - before.skip));
                        assert(taken_out(rules, now, tags.len() - before.skip));
                        assert forall|d: int| d < now.len() - st.skip implies !#[trigger] taken_out(
                            rules,
                            now,
                            d,
                        ) by {
                            assert(!taken_out(rules, now.push(name), d));
                        }
                    } else {
                        assert forall|d: int| !#[trigger] taken_out(rules, now, d) by {
                            if d < now.len() {
                                assert(!taken_out(rules, now.push(name), d));
                            }
                        }
                    }
                } else {
                    assert forall|d: int| !#[trigger] taken_out(rules, now, d) by {
                        if d < now.len() {
                            assert(!taken_out(rules, now.push(name), d));
                        }
                    }
                    assert(is_left(rules, events, m));
                }
                assert(sifts(rules, events, n, st));
            },
            _ => {
                if before.skip > 0 {
                    assert(taken_out(rules, tags, tags.len() - before.skip));
                    assert(taken_out(rules, tags_of(events, m), tags.len() - before.skip));
                }
                assert(sifts(rules, events, n, st));
            },
        }
    }
}

/// A filter takes out of a part the elements and the properties of runs that its rules name, with all
/// that is in them, the texts of white space that the rules do not keep, and the attributes that they
/// name. Everything else is left, in its order. It fails only on a part that ends inside such an
/// element.
pub proof fn law_filter_leaves_the_rest(rules: RulesV, part_name: Seq<char>, events: Seq<EventV>)
    requires
        balanced(events),
    ensures
        (forall|d: int|
            !#[trigger] taken_out(rules, around(events, events.len() as int), d)) ==> filtered(
            rules,
            part_name,
            events,
        ) is Ok,
        filtered(rules, part_name, events) matches Ok(out) ==> out == left_of(
            rules,
            events,
            events.len() as int,
        ),
{
    let n = events.len() as int;
    assert(events.take(n) =~= events);
    lemma_sifts(rules, events, n);
}

} // verus!
