//! What a filter leaves of a part.

use crate::docx::error::DocxErrorV;
use crate::docx::filter::{
    attrs_clean, blank_dropped, dropped, filter_run, filter_step, filtered, kept_attrs,
    lemma_kept_attrs, FilterV, RulesV,
};
use crate::docx::xml::{open_tags, top, AttrsV, EventV};
use vstd::prelude::*;

verus! {

/// Whether the rules leave an event as it is where the tag `inner` is the innermost open one: no
/// element is one that is dropped there, no attribute one that is dropped, and no text a blank one
/// outside of the elements in which blank texts stay.
pub open spec fn left_alone(rules: RulesV, ev: EventV, inner: Seq<char>) -> bool {
    match ev {
        EventV::Start { name, attrs } => !dropped(rules, name, inner) && attrs_clean(rules, attrs),
        EventV::Empty { name, attrs } => !dropped(rules, name, inner) && attrs_clean(rules, attrs),
        EventV::Text { text } => !blank_dropped(rules, text, inner),
        EventV::CData { text } => !blank_dropped(rules, text, inner),
        _ => true,
    }
}

/// Whether the rules leave all the events as they are.
pub open spec fn clean(rules: RulesV, events: Seq<EventV>) -> bool {
    forall|i: int|
        0 <= i < events.len() ==> left_alone(
            rules,
            #[trigger] events[i],
            top(open_tags(events.take(i))),
        )
}

/// An event without the attributes that are dropped.
pub open spec fn without_attrs(rules: RulesV, ev: EventV) -> EventV {
    match ev {
        EventV::Start { name, attrs } => EventV::Start {
            name,
            attrs: kept_attrs(attrs, rules.strip_attributes),
        },
        EventV::Empty { name, attrs } => EventV::Empty {
            name,
            attrs: kept_attrs(attrs, rules.strip_attributes),
        },
        _ => ev,
    }
}

/// Whether `out` holds the events at the rising places `at`, without the attributes that are dropped.
pub open spec fn picked(
    rules: RulesV,
    events: Seq<EventV>,
    out: Seq<EventV>,
    at: Seq<int>,
) -> bool {
    &&& at.len() == out.len()
    &&& forall|k: int|
        0 <= k < at.len() ==> 0 <= #[trigger] at[k] < events.len() && out[k] == without_attrs(
            rules,
            events[at[k]],
        )
    &&& forall|j: int, k: int|
        0 <= j < k < at.len() ==> #[trigger] at[j] < #[trigger] at[k]
}

proof fn lemma_clean_attrs(rules: RulesV, attrs: AttrsV)
    requires
        attrs_clean(rules, attrs),
    ensures
        kept_attrs(attrs, rules.strip_attributes) == attrs,
    decreases attrs.len(),
{
    if attrs.len() > 0 {
        assert(attrs_clean(rules, attrs.drop_last())) by {
            assert forall|i: int| 0 <= i < attrs.drop_last().len() implies
                !rules.strip_attributes.contains((#[trigger] attrs.drop_last()[i]).0) by {
                assert(attrs.drop_last()[i] == attrs[i]);
            }
        }
        lemma_clean_attrs(rules, attrs.drop_last());
        assert(attrs.last() == attrs[attrs.len() - 1]);
        assert(attrs.drop_last().push(attrs.last()) =~= attrs);
    } else {
        assert(attrs =~= Seq::<(Seq<char>, Seq<char>)>::empty());
    }
}

/// Events that the rules leave as they are stay as they are.
proof fn lemma_clean_stays(rules: RulesV, events: Seq<EventV>)
    requires
        clean(rules, events),
    ensures
        filter_run(rules, events) == (FilterV {
            out: events,
            stack: open_tags(events),
            skip: 0,
            element: None,
        }),
    decreases events.len(),
{
    let st = filter_run(rules, events);
    if events.len() > 0 {
        let before = events.drop_last();
        let ev = events.last();
        assert(clean(rules, before)) by {
            assert forall|i: int| 0 <= i < before.len() implies left_alone(
                rules,
                #[trigger] before[i],
                top(open_tags(before.take(i))),
            ) by {
                assert(before[i] == events[i]);
                assert(before.take(i) =~= events.take(i));
            }
        }
        lemma_clean_stays(rules, before);
        assert(events[events.len() - 1] == ev);
        assert(events.take(events.len() - 1) =~= before);
        assert(before.push(ev) =~= events);
        match ev {
            EventV::Start { name, attrs } => lemma_clean_attrs(rules, attrs),
            EventV::Empty { name, attrs } => lemma_clean_attrs(rules, attrs),
            _ => {},
        }
    } else {
        assert(events =~= Seq::<EventV>::empty());
    }
}

/// What holds of the state of filtering: what is kept is clean, and its open tags are those around
/// the element that is dropped.
spec fn state_clean(rules: RulesV, st: FilterV) -> bool {
    &&& clean(rules, st.out)
    &&& st.skip <= st.stack.len()
    &&& open_tags(st.out) == st.stack.take(st.stack.len() - st.skip)
}

proof fn lemma_pushed_clean(rules: RulesV, out: Seq<EventV>, ev: EventV)
    requires
        clean(rules, out),
        left_alone(rules, ev, top(open_tags(out))),
    ensures
        clean(rules, out.push(ev)),
{
    let more = out.push(ev);
    assert forall|i: int| 0 <= i < more.len() implies left_alone(
        rules,
        #[trigger] more[i],
        top(open_tags(more.take(i))),
    ) by {
        assert(more.take(i) =~= out.take(i));
        if i == out.len() {
            assert(out.take(i) =~= out);
        } else {
            assert(more[i] == out[i]);
        }
    }
}

proof fn lemma_step_clean(rules: RulesV, st: FilterV, ev: EventV)
    requires
        state_clean(rules, st),
    ensures
        state_clean(rules, filter_step(rules, st, ev)),
{
    let after = filter_step(rules, st, ev);
    let base = st.stack.take(st.stack.len() - st.skip);
    if st.skip > 0 {
        assert(after.stack.take(after.stack.len() - after.skip) =~= base);
    } else {
        assert(base =~= st.stack);
        let kept = without_attrs(rules, ev);
        match ev {
            EventV::Start { name, attrs } => lemma_kept_attrs(rules, attrs),
            EventV::Empty { name, attrs } => lemma_kept_attrs(rules, attrs),
            _ => {},
        }
        if after.out.len() > st.out.len() {
            lemma_pushed_clean(rules, st.out, kept);
            assert(after.out == st.out.push(kept));
            assert(after.out.drop_last() =~= st.out);
            assert(after.stack.take(after.stack.len() as int) =~= after.stack);
        } else {
            assert(after.stack.take(after.stack.len() - after.skip) =~= st.stack);
        }
    }
}

proof fn lemma_run_clean(rules: RulesV, events: Seq<EventV>) -> (at: Seq<int>)
    ensures
        state_clean(rules, filter_run(rules, events)),
        picked(rules, events, filter_run(rules, events).out, at),
    decreases events.len(),
{
    let st = filter_run(rules, events);
    if events.len() == 0 {
        assert(st.stack.take(0) =~= Seq::<Seq<char>>::empty());
        Seq::empty()
    } else {
        let before = events.drop_last();
        let last = filter_run(rules, before);
        let at = lemma_run_clean(rules, before);
        lemma_step_clean(rules, last, events.last());
        assert forall|k: int| 0 <= k < at.len() implies 0 <= #[trigger] at[k] < events.len()
            && last.out[k] == without_attrs(rules, events[at[k]]) by {
            assert(before[at[k]] == events[at[k]]);
        }
        if st.out.len() > last.out.len() {
            assert(st.out == last.out.push(without_attrs(rules, events.last())));
            at.push(events.len() - 1)
        } else {
            assert(st.out == last.out);
            at
        }
    }
}

/// What a filter leaves of a part is clean: it holds no element, no run property, no attribute and no
/// blank text that the rules drop. It is made of events of the part in their order, with nothing but
/// attributes taken out. Filtering it again changes nothing.
pub proof fn law_filter_leaves_what_is_clean(
    rules: RulesV,
    part_name: Seq<char>,
    events: Seq<EventV>,
)
    ensures
        match filtered(rules, part_name, events) {
            Ok(out) => {
                &&& clean(rules, out)
                &&& exists|at: Seq<int>| #[trigger] picked(rules, events, out, at)
                &&& filtered(rules, part_name, out) == Ok::<Seq<EventV>, DocxErrorV>(out)
            },
            Err(_) => true,
        },
{
    let at = lemma_run_clean(rules, events);
    lemma_clean_stays(rules, filter_run(rules, events).out);
}

} // verus!
