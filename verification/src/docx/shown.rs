//! What a paragraph shows: the texts and the breaks of its own runs.

use crate::chars::{is_blank, lemma_trimmed_empty};
use crate::docx::pure_text::{
    attr, body_run, body_step, capture_close, capture_open, capture_text, direct_run, direct_step,
    new_capture, with_paragraph, BodyV, CaptureV, ParaContainer, ParaV, PlaceV,
};
use crate::docx::shape::closes;
use crate::docx::xml::{open_tags, top, AttrsV, EventV};
use vstd::prelude::*;

verus! {

/// Whether every end tag closes the innermost open tag.
pub open spec fn balanced(events: Seq<EventV>) -> bool {
    forall|i: int| 0 <= i < events.len() ==> #[trigger] closes(events, i)
}

/// The tags that are open before the event at `k`, the innermost last.
pub open spec fn around(events: Seq<EventV>, k: int) -> Seq<Seq<char>> {
    open_tags(events.take(k))
}

/// Whether the tag that the event at `s` opens is closed by the event at `e`.
pub open spec fn spans(events: Seq<EventV>, s: int, e: int) -> bool {
    &&& 0 <= s < e < events.len()
    &&& events[s] is Start
    &&& events[e] is End
    &&& around(events, e).len() == around(events, s).len() + 1
    &&& forall|k: int| s < k <= e ==> #[trigger] around(events, k).len() > around(events, s).len()
}

/// The tags that are open before the event at `k` inside the tag that the event at `s` opens.
pub open spec fn within_tag(events: Seq<EventV>, s: int, k: int) -> Seq<Seq<char>> {
    around(events, k).skip(around(events, s).len() as int + 1)
}

/// Whether a way leads from a paragraph to one of its own runs: a run directly in it, or in a link
/// directly in it.
pub open spec fn own_run(way: Seq<Seq<char>>) -> bool {
    way == seq!["w:r"@] || way == seq!["w:hyperlink"@, "w:r"@]
}

/// Whether a way leads from a paragraph into a text tag of one of its own runs.
pub open spec fn own_text(way: Seq<Seq<char>>) -> bool {
    (way.len() >= 2 && own_run(way.take(1)) && way[1] == "w:t"@) || (way.len() >= 3 && own_run(
        way.take(2),
    ) && way[2] == "w:t"@)
}

/// Whether attributes lack the key `key`.
pub open spec fn lacks_attr(attrs: AttrsV, key: Seq<char>) -> bool {
    forall|i: int| 0 <= i < attrs.len() ==> (#[trigger] attrs[i]).0 != key
}

/// Whether the first attribute `key` has the value `value`.
pub open spec fn first_attr_is(attrs: AttrsV, key: Seq<char>, value: Seq<char>) -> bool {
    exists|i: int|
        0 <= i < attrs.len() && #[trigger] attrs[i] == (key, value) && lacks_attr(attrs.take(i), key)
}

/// What a tag in a run shows: a tab, a break between lines, or a hyphen. A break of another type, to a
/// new page or column, shows nothing.
pub open spec fn glyph(name: Seq<char>, attrs: AttrsV) -> Seq<char> {
    if name == "w:tab"@ || name == "w:ptab"@ {
        "\t"@
    } else if name == "w:cr"@ {
        "\n"@
    } else if name == "w:br"@ && (lacks_attr(attrs, "w:type"@) || first_attr_is(
        attrs,
        "w:type"@,
        "textWrapping"@,
    )) {
        "\n"@
    } else if name == "w:noBreakHyphen"@ {
        "-"@
    } else {
        Seq::empty()
    }
}

/// What the event at `k` shows in the paragraph that the event at `s` opens.
pub open spec fn shown_at(events: Seq<EventV>, s: int, k: int) -> Seq<char> {
    let way = within_tag(events, s, k);
    match events[k] {
        EventV::Text { text } if own_text(way) => text,
        EventV::Start { name, attrs } if own_run(way) => glyph(name, attrs),
        EventV::Empty { name, attrs } if own_run(way) => glyph(name, attrs),
        _ => Seq::empty(),
    }
}

/// What the events from `a` to before `b` show in the paragraph that the event at `s` opens, in their
/// order.
pub open spec fn shown(events: Seq<EventV>, s: int, a: int, b: int) -> Seq<char>
    decreases b - a,
{
    if b <= a {
        Seq::empty()
    } else {
        shown(events, s, a, b - 1) + shown_at(events, s, b - 1)
    }
}

proof fn lemma_shown_split(events: Seq<EventV>, s: int, a: int, k: int, b: int)
    requires
        a <= k < b,
    ensures
        shown(events, s, a, b) == shown(events, s, a, k) + shown_at(events, s, k) + shown(
            events,
            s,
            k + 1,
            b,
        ),
    decreases b - k,
{
    if k + 1 < b {
        lemma_shown_split(events, s, a, k, b - 1);
        assert(shown(events, s, a, b) =~= shown(events, s, a, k) + shown_at(events, s, k) + shown(
            events,
            s,
            k + 1,
            b,
        ));
    } else {
        assert(shown(events, s, k + 1, b) =~= Seq::<char>::empty());
        assert(shown(events, s, a, b) =~= shown(events, s, a, k) + shown_at(events, s, k) + shown(
            events,
            s,
            k + 1,
            b,
        ));
    }
}

/// The tags that are open after one event more.
pub(crate) proof fn lemma_around_step(events: Seq<EventV>, n: int)
    requires
        0 <= n < events.len(),
    ensures
        events.take(n + 1).drop_last() == events.take(n),
        events.take(n + 1).last() == events[n],
        events[n] matches EventV::Start { name, .. } ==> around(events, n + 1) == around(
            events,
            n,
        ).push(name),
        events[n] is End && around(events, n).len() > 0 ==> around(events, n + 1) == around(
            events,
            n,
        ).drop_last(),
        !(events[n] is Start) && !(events[n] is End) ==> around(events, n + 1) == around(events, n),
{
    assert(events.take(n + 1).drop_last() =~= events.take(n));
}

/// The first attribute of a key, or none.
pub(crate) proof fn lemma_attr(attrs: AttrsV, key: Seq<char>)
    ensures
        attr(attrs, key) is None <==> lacks_attr(attrs, key),
        forall|v: Seq<char>| #[trigger]
            first_attr_is(attrs, key, v) <==> attr(attrs, key) == Some(v),
    decreases attrs.len(),
{
    if attrs.len() > 0 {
        let rest = attrs.drop_first();
        lemma_attr(rest, key);
        if attrs[0].0 == key {
            assert(attrs.take(0) =~= Seq::empty());
            assert forall|v: Seq<char>| #[trigger]
                first_attr_is(attrs, key, v) <==> attr(attrs, key) == Some(v) by {
                if first_attr_is(attrs, key, v) {
                    let i = choose|i: int|
                        0 <= i < attrs.len() && #[trigger] attrs[i] == (key, v) && lacks_attr(
                            attrs.take(i),
                            key,
                        );
                    if i > 0 {
                        assert(attrs.take(i)[0] == attrs[0]);
                    }
                }
                if attr(attrs, key) == Some(v) {
                    assert(attrs[0] == (key, v));
                    assert(lacks_attr(attrs.take(0), key));
                }
            }
        } else {
            assert(lacks_attr(attrs, key) <==> lacks_attr(rest, key)) by {
                if lacks_attr(attrs, key) {
                    assert forall|i: int| 0 <= i < rest.len() implies (#[trigger] rest[i]).0
                        != key by {
                        assert(rest[i] == attrs[i + 1]);
                    }
                }
                if lacks_attr(rest, key) {
                    assert forall|i: int| 0 <= i < attrs.len() implies (#[trigger] attrs[i]).0
                        != key by {
                        if i > 0 {
                            assert(rest[i - 1] == attrs[i]);
                        }
                    }
                }
            }
            assert forall|v: Seq<char>| #[trigger]
                first_attr_is(attrs, key, v) <==> attr(attrs, key) == Some(v) by {
                if first_attr_is(attrs, key, v) {
                    let i = choose|i: int|
                        0 <= i < attrs.len() && #[trigger] attrs[i] == (key, v) && lacks_attr(
                            attrs.take(i),
                            key,
                        );
                    assert(i > 0);
                    assert(rest[i - 1] == (key, v));
                    assert forall|j: int| 0 <= j < i - 1 implies (#[trigger] rest.take(i - 1)[j]).0
                        != key by {
                        assert(rest.take(i - 1)[j] == attrs.take(i)[j + 1]);
                    }
                    assert(first_attr_is(rest, key, v));
                }
                if first_attr_is(rest, key, v) {
                    let i = choose|i: int|
                        0 <= i < rest.len() && #[trigger] rest[i] == (key, v) && lacks_attr(
                            rest.take(i),
                            key,
                        );
                    assert(attrs[i + 1] == (key, v));
                    assert forall|j: int| 0 <= j < i + 1 implies (#[trigger] attrs.take(i + 1)[j]).0
                        != key by {
                        if j > 0 {
                            assert(attrs.take(i + 1)[j] == rest.take(i)[j - 1]);
                        }
                    }
                    assert(first_attr_is(attrs, key, v));
                }
            }
        }
    }
}

/// The names of tags, as far as it takes to tell them apart.
pub(crate) proof fn lemma_lengths()
    ensures
        "w:r"@.len() == 3,
        "w:t"@.len() == 3,
        "w:p"@.len() == 3,
        "w:pPr"@.len() == 5,
        "w:hyperlink"@.len() == 11,
        "w:pStyle"@.len() == 8,
        "w:ilvl"@.len() == 6,
        "w:numId"@.len() == 7,
        "w:outlineLvl"@.len() == 12,
        "w:tab"@.len() == 5,
        "w:ptab"@.len() == 6,
        "w:cr"@.len() == 4,
        "w:br"@.len() == 4,
        "w:noBreakHyphen"@.len() == 15,
        "w:softHyphen"@.len() == 12,
        "w:tbl"@.len() == 5,
        "w:body"@.len() == 6,
        "w:tc"@.len() == 4,
        "w:tr"@.len() == 4,
        "w:tr"@[3] == 'r',
        "w:tc"@[3] == 'c',
        "w:r"@[2] == 'r',
        "w:t"@[2] == 't',
        "w:p"@[2] == 'p',
        "w:pPr"@[2] == 'p',
        "w:ilvl"@[2] == 'i',
        "w:outlineLvl"@[2] == 'o',
        "w:tab"@[2] == 't',
        "w:ptab"@[2] == 'p',
        "w:cr"@[2] == 'c',
        "w:br"@[2] == 'b',
        "w:softHyphen"@[2] == 's',
        "w:tbl"@[2] == 't',
        "w:body"@[2] == 'b',
        "w:tc"@[2] == 't',
        "w:tab"@[3] == 'a',
        "w:tbl"@[3] == 'b',
{
    reveal_strlit("w:r");
    reveal_strlit("w:t");
    reveal_strlit("w:p");
    reveal_strlit("w:pPr");
    reveal_strlit("w:hyperlink");
    reveal_strlit("w:pStyle");
    reveal_strlit("w:ilvl");
    reveal_strlit("w:numId");
    reveal_strlit("w:outlineLvl");
    reveal_strlit("w:tab");
    reveal_strlit("w:ptab");
    reveal_strlit("w:cr");
    reveal_strlit("w:br");
    reveal_strlit("w:noBreakHyphen");
    reveal_strlit("w:softHyphen");
    reveal_strlit("w:tbl");
    reveal_strlit("w:body");
    reveal_strlit("w:tc");
    reveal_strlit("w:tr");
}

/// Tags that have different names.
proof fn lemma_names()
    ensures
        "w:r"@ != "w:t"@,
        "w:r"@ != "w:p"@,
        "w:t"@ != "w:p"@,
        "w:hyperlink"@ != "w:r"@,
        "w:hyperlink"@ != "w:t"@,
        "w:hyperlink"@ != "w:p"@,
        "w:tbl"@ != "w:p"@,
        "w:body"@ != "w:tc"@,
        "w:tbl"@ != "w:tr"@,
        "w:tbl"@ != "w:tc"@,
        "w:tr"@ != "w:tc"@,
        "w:tr"@ != "w:p"@,
        "w:body"@ != "w:p"@,
        "w:tc"@ != "w:p"@,
{
    lemma_lengths();
}

/// What shows something is no tag with another meaning.
proof fn lemma_glyph_names(name: Seq<char>, attrs: AttrsV)
    ensures
        name == "w:pPr"@ || name == "w:hyperlink"@ || name == "w:r"@ || name == "w:t"@ || name
            == "w:pStyle"@ || name == "w:ilvl"@ || name == "w:numId"@ || name == "w:outlineLvl"@
            || name == "w:p"@ ==> glyph(name, attrs) == Seq::<char>::empty(),
{
    lemma_lengths();
}

/// The run, the link, and the text tag that are open at the end of a way from a paragraph of the depth
/// `p`.
pub(crate) open spec fn marks(cap: CaptureV, way: Seq<Seq<char>>) -> bool {
    let p = cap.p;
    &&& cap.run == (if way.len() > 0 && way[0] == "w:r"@ {
        Some((p + 1) as nat)
    } else {
        None
    })
    &&& cap.link == (if way.len() > 0 && way[0] == "w:hyperlink"@ {
        Some((p + 1) as nat)
    } else {
        None
    })
    &&& cap.link_run == (if way.len() > 1 && way[0] == "w:hyperlink"@ && way[1] == "w:r"@ {
        Some((p + 2) as nat)
    } else {
        None
    })
    &&& cap.t == (if way.len() > 1 && way[0] == "w:r"@ && way[1] == "w:t"@ {
        Some((p + 2) as nat)
    } else if way.len() > 2 && way[0] == "w:hyperlink"@ && way[1] == "w:r"@ && way[2] == "w:t"@ {
        Some((p + 3) as nat)
    } else {
        None
    })
}

/// What the marks tell of a way.
proof fn lemma_marks(cap: CaptureV, way: Seq<Seq<char>>)
    requires
        marks(cap, way),
    ensures
        own_text(way) <==> cap.t is Some,
        own_run(way) <==> way.len() > 0 && way.last() == "w:r"@ && (cap.run == Some(
            (cap.p + way.len()) as nat,
        ) || cap.link_run == Some((cap.p + way.len()) as nat)),
{
    lemma_names();
    let one = seq!["w:r"@];
    let two = seq!["w:hyperlink"@, "w:r"@];
    if way.len() >= 1 {
        assert(way.take(1)[0] == way[0]);
        assert(way[0] == "w:r"@ ==> way.take(1) =~= one);
        assert(way.len() == 1 && way[0] == "w:r"@ ==> way =~= one);
        assert(way == one ==> way.len() == 1 && way[0] == one[0]);
        assert(way.take(1) == one ==> way[0] == one[0]);
        assert(way.take(1) != two);
    }
    if way.len() >= 2 {
        assert(way.take(2)[0] == way[0] && way.take(2)[1] == way[1]);
        assert(way[0] == "w:hyperlink"@ && way[1] == "w:r"@ ==> way.take(2) =~= two);
        assert(way.len() == 2 && way[0] == "w:hyperlink"@ && way[1] == "w:r"@ ==> way =~= two);
        assert(way.take(2) == two ==> way[0] == two[0] && way[1] == two[1]);
        assert(way.take(2) != one);
    }
    assert(two.len() == 2 && one.len() == 1);
    assert(way == two ==> way[0] == two[0] && way[1] == two[1]);
}

/// An opening tag inside a paragraph, where `way` leads to it.
proof fn lemma_marks_open(cap: CaptureV, way: Seq<Seq<char>>, name: Seq<char>, attrs: AttrsV)
    requires
        marks(cap, way),
    ensures
        ({
            let parent = if way.len() > 0 {
                way.last()
            } else {
                "w:p"@
            };
            let depth = (cap.p + way.len()) as nat;
            let open = capture_open(cap, name, attrs, parent, depth, false);
            let empty = capture_open(cap, name, attrs, parent, depth, true);
            let text = cap.text + (if own_run(way) {
                glyph(name, attrs)
            } else {
                Seq::empty()
            });
            &&& marks(open, way.push(name))
            &&& open.text == text
            &&& open.start == cap.start
            &&& open.p == cap.p
            &&& marks(empty, way)
            &&& empty.text == text
            &&& empty.start == cap.start
            &&& empty.p == cap.p
        }),
{
    lemma_lengths();
    lemma_names();
    lemma_marks(cap, way);
    lemma_glyph_names(name, attrs);
    lemma_attr(attrs, "w:type"@);
    lemma_named_glyphs();
    assert(cap.text + Seq::<char>::empty() =~= cap.text);
    reveal_strlit("\t");
    reveal_strlit("\n");
    reveal_strlit("-");
    assert("\t"@ =~= seq!['\t']);
    assert("\n"@ =~= seq!['\n']);
    assert("-"@ =~= seq!['-']);
    match attr(attrs, "w:type"@) {
        Some(v) => {
            assert(first_attr_is(attrs, "w:type"@, v));
            assert(first_attr_is(attrs, "w:type"@, "textWrapping"@) <==> v == "textWrapping"@);
        },
        None => {
            assert(lacks_attr(attrs, "w:type"@));
        },
    }
}

/// Every tag that shows something is one of those that are told apart in a run.
proof fn lemma_named_glyphs()
    ensures
        "w:tab"@ != "w:r"@,
        "w:ptab"@ != "w:r"@,
        "w:cr"@ != "w:r"@,
        "w:br"@ != "w:r"@,
        "w:br"@ != "w:cr"@,
        "w:br"@ != "w:tab"@,
        "w:br"@ != "w:ptab"@,
        "w:noBreakHyphen"@ != "w:r"@,
        "w:noBreakHyphen"@ != "w:br"@,
        "w:softHyphen"@ != "w:tab"@,
        "w:softHyphen"@ != "w:ptab"@,
        "w:softHyphen"@ != "w:br"@,
        "w:softHyphen"@ != "w:cr"@,
        "w:softHyphen"@ != "w:noBreakHyphen"@,
{
    lemma_lengths();
}

/// An end tag inside a paragraph, where `way` leads up to and into the tag that it closes.
proof fn lemma_marks_close(cap: CaptureV, way: Seq<Seq<char>>)
    requires
        marks(cap, way),
        way.len() > 0,
    ensures
        ({
            let closed = capture_close(cap, way.last(), (cap.p + way.len()) as nat);
            &&& marks(closed, way.drop_last())
            &&& closed.text == cap.text
            &&& closed.start == cap.start
            &&& closed.p == cap.p
        }),
{
    lemma_lengths();
    lemma_names();
}

/// Whether `cap` holds what was gathered of a paragraph before the event at `n`.
pub(crate) open spec fn gathered(events: Seq<EventV>, n: int, cap: CaptureV) -> bool {
    let s = cap.start as int;
    let p = cap.p as int;
    &&& 0 <= s < n <= events.len()
    &&& events[s] is Start
    &&& events[s]->Start_name == "w:p"@
    &&& p == around(events, s).len() + 1
    &&& forall|k: int| s < k <= n ==> #[trigger] around(events, k).len() >= p
    &&& around(events, n).take(p) == around(events, s).push("w:p"@)
    &&& marks(cap, within_tag(events, s, n))
    &&& cap.text == shown(events, s, s + 1, n)
}

/// What an event adds to a paragraph that it does not close.
pub(crate) open spec fn added(cap: CaptureV, stack: Seq<Seq<char>>, ev: EventV) -> CaptureV {
    match ev {
        EventV::Start { name, attrs } => capture_open(
            cap,
            name,
            attrs,
            top(stack),
            stack.len(),
            false,
        ),
        EventV::Empty { name, attrs } => capture_open(
            cap,
            name,
            attrs,
            top(stack),
            stack.len(),
            true,
        ),
        EventV::Text { text } => capture_text(cap, text),
        EventV::End { name } => capture_close(cap, name, stack.len()),
        _ => cap,
    }
}

proof fn lemma_gathered_step(events: Seq<EventV>, n: int, cap: CaptureV)
    requires
        balanced(events),
        gathered(events, n, cap),
        n < events.len(),
        events[n] is End ==> around(events, n).len() > cap.p,
    ensures
        gathered(events, n + 1, added(cap, around(events, n), events[n])),
        added(cap, around(events, n), events[n]).start == cap.start,
        added(cap, around(events, n), events[n]).p == cap.p,
{
    let s = cap.start as int;
    let p = cap.p as int;
    let stack = around(events, n);
    let way = within_tag(events, s, n);
    let now = around(events, n + 1);
    lemma_around_step(events, n);
    assert(closes(events, n));
    assert(way == stack.skip(p));
    assert(around(events, n).len() >= p);
    assert(stack.len() == p + way.len());
    let parent = if way.len() > 0 {
        way.last()
    } else {
        "w:p"@
    };
    assert(parent == top(stack)) by {
        if way.len() == 0 {
            assert(stack.take(p) =~= stack);
        }
    }
    lemma_marks(cap, way);
    let next = added(cap, stack, events[n]);
    match events[n] {
        EventV::Start { name, attrs } => {
            lemma_marks_open(cap, way, name, attrs);
            assert(now.take(p) =~= stack.take(p));
            assert(now.skip(p) =~= way.push(name));
        },
        EventV::Empty { name, attrs } => {
            lemma_marks_open(cap, way, name, attrs);
        },
        EventV::End { name } => {
            lemma_marks_close(cap, way);
            assert(now.take(p) =~= stack.take(p));
            assert(now.skip(p) =~= way.drop_last());
        },
        _ => {},
    }
    assert(marks(next, within_tag(events, s, n + 1)));
    assert(cap.text + Seq::<char>::empty() =~= cap.text);
    assert(next.text =~= cap.text + shown_at(events, s, n));
}

/// The tag that closes a paragraph changes nothing of it.
proof fn lemma_gathered_end(events: Seq<EventV>, n: int, cap: CaptureV)
    requires
        balanced(events),
        gathered(events, n, cap),
        n < events.len(),
        events[n] is End,
        around(events, n).len() == cap.p,
    ensures
        events[n]->End_name == "w:p"@,
        added(cap, around(events, n), events[n]) == cap,
        spans(events, cap.start as int, n),
{
    lemma_names();
    lemma_lengths();
    assert(closes(events, n));
    let stack = around(events, n);
    assert(stack.take(cap.p as int) =~= stack);
}

/// A paragraph of which nothing was gathered yet.
proof fn lemma_gathered_new(events: Seq<EventV>, n: int)
    requires
        0 <= n < events.len(),
        events[n] is Start,
        events[n]->Start_name == "w:p"@,
    ensures
        ({
            let new = new_capture(n as nat, around(events, n).len() + 1);
            &&& gathered(events, n + 1, new)
            &&& added(new, around(events, n), events[n]) == new
        }),
{
    lemma_around_step(events, n);
    lemma_names();
    lemma_lengths();
    let new = new_capture(n as nat, around(events, n).len() + 1);
    let p = new.p as int;
    let now = around(events, n + 1);
    assert(now.take(p) =~= now);
    assert(within_tag(events, n, n + 1) =~= Seq::<Seq<char>>::empty());
    assert(shown(events, n, n + 1, n + 1) =~= Seq::<char>::empty());
}

/// Between a tag and its end the tags round it stay open, and so does it.
pub(crate) proof fn lemma_spans_prefix(events: Seq<EventV>, s: int, k: int)
    requires
        0 <= s < k <= events.len(),
        events[s] is Start,
        forall|j: int| s < j <= k ==> #[trigger] around(events, j).len() > around(events, s).len(),
    ensures
        around(events, k).take(around(events, s).len() as int + 1) == around(events, s + 1),
        around(events, s + 1) == around(events, s).push(events[s]->Start_name),
    decreases k - s,
{
    let p = around(events, s).len() as int + 1;
    lemma_around_step(events, s);
    if k == s + 1 {
        assert(around(events, k).take(p) =~= around(events, s + 1));
    } else {
        lemma_spans_prefix(events, s, k - 1);
        lemma_around_step(events, k - 1);
        assert(around(events, k - 1).len() >= p);
        assert(around(events, k).len() >= p);
        assert(around(events, k).take(p) =~= around(events, k - 1).take(p));
    }
}

/// How many of the tags have a name.
pub open spec fn count_of(tags: Seq<Seq<char>>, name: Seq<char>) -> nat
    decreases tags.len(),
{
    if tags.len() == 0 {
        0
    } else {
        count_of(tags.drop_last(), name) + (if tags.last() == name {
            1nat
        } else {
            0
        })
    }
}

/// Whether the tag at `d` is a paragraph directly in the body, in no table, or directly in a cell of a
/// table that stands in no other.
pub open spec fn stands(tags: Seq<Seq<char>>, d: int) -> bool {
    &&& 0 < d < tags.len()
    &&& tags[d] == "w:p"@
    &&& (tags[d - 1] == "w:body"@ && count_of(tags.take(d), "w:tbl"@) == 0) || (tags[d - 1]
        == "w:tc"@ && count_of(tags.take(d), "w:tbl"@) == 1)
}

/// Whether the innermost tag is a paragraph of the body or of a cell, and stands in no other such.
pub open spec fn body_para(tags: Seq<Seq<char>>) -> bool {
    &&& stands(tags, tags.len() - 1)
    &&& forall|d: int| 0 <= d < tags.len() - 1 ==> !#[trigger] stands(tags, d)
}

proof fn lemma_stands_push(tags: Seq<Seq<char>>, name: Seq<char>)
    ensures
        forall|d: int| d < tags.len() ==> #[trigger] stands(tags.push(name), d) == stands(tags, d),
        count_of(tags.push(name), "w:tbl"@) == count_of(tags, "w:tbl"@) + (if name == "w:tbl"@ {
            1nat
        } else {
            0
        }),
        stands(tags.push(name), tags.len() as int) == (name == "w:p"@ && tags.len() > 0 && (
        tags.last() == "w:body"@ && count_of(tags, "w:tbl"@) == 0 || tags.last() == "w:tc"@
            && count_of(tags, "w:tbl"@) == 1)),
{
    assert forall|d: int| d < tags.len() implies #[trigger] stands(tags.push(name), d) == stands(
        tags,
        d,
    ) by {
        if 0 < d {
            assert(tags.push(name).take(d) =~= tags.take(d));
        }
    }
    assert(tags.push(name).drop_last() =~= tags);
    assert(tags.push(name).take(tags.len() as int) =~= tags);
}

/// Whether the event at `k` begins a table directly in the body.
pub open spec fn opens_table(events: Seq<EventV>, k: int) -> bool {
    let tags = around(events, k);
    &&& match events[k] {
        EventV::Start { name, .. } => name == "w:tbl"@,
        EventV::Empty { name, .. } => name == "w:tbl"@,
        _ => false,
    }
    &&& tags.len() > 0 && tags.last() == "w:body"@
    &&& count_of(tags, "w:tbl"@) == 0
}

/// Whether the event at `k` begins a row of a table that stands in no other.
pub open spec fn opens_row(events: Seq<EventV>, k: int) -> bool {
    let tags = around(events, k);
    &&& events[k] matches EventV::Start { name, .. } && name == "w:tr"@
    &&& tags.len() > 0 && tags.last() == "w:tbl"@
    &&& count_of(tags, "w:tbl"@) == 1
}

/// Whether the event at `k` begins a cell of a table that stands in no other.
pub open spec fn opens_cell(events: Seq<EventV>, k: int) -> bool {
    let tags = around(events, k);
    &&& events[k] matches EventV::Start { name, .. } && name == "w:tc"@
    &&& tags.len() > 0 && tags.last() == "w:tr"@
    &&& count_of(tags, "w:tbl"@) == 1
}

/// How many tables of the body begin before the event at `n`.
pub open spec fn tables_before(events: Seq<EventV>, n: int) -> nat
    decreases n,
{
    if n <= 0 {
        0
    } else {
        tables_before(events, n - 1) + (if opens_table(events, n - 1) {
            1nat
        } else {
            0
        })
    }
}

/// How many rows begin before the event at `n` and after the last table of the body.
pub open spec fn rows_before(events: Seq<EventV>, n: int) -> nat
    decreases n,
{
    if n <= 0 || opens_table(events, n - 1) {
        0
    } else {
        rows_before(events, n - 1) + (if opens_row(events, n - 1) {
            1nat
        } else {
            0
        })
    }
}

/// How many cells begin before the event at `n` and after the last row and the last table of the
/// body.
pub open spec fn cells_before(events: Seq<EventV>, n: int) -> nat
    decreases n,
{
    if n <= 0 || opens_table(events, n - 1) || opens_row(events, n - 1) {
        0
    } else {
        cells_before(events, n - 1) + (if opens_cell(events, n - 1) {
            1nat
        } else {
            0
        })
    }
}

/// Where the paragraph that the event at `s` opens stands: in the body, or in a cell, with the numbers
/// of its table, its row in that and its cell in that.
pub open spec fn place_at(events: Seq<EventV>, s: int) -> PlaceV {
    if top(around(events, s)) == "w:body"@ {
        PlaceV {
            container: ParaContainer::DocumentBody,
            section: None,
            table: None,
            row: None,
            cell: None,
        }
    } else {
        PlaceV {
            container: ParaContainer::TableCell,
            section: None,
            table: Some(tables_before(events, s)),
            row: Some(rows_before(events, s)),
            cell: Some(cells_before(events, s)),
        }
    }
}

/// What is open of the body before the event at `n`: the innermost paragraph that is read, if any.
pub(crate) open spec fn body_gathers(events: Seq<EventV>, n: int, st: BodyV) -> bool {
    let stack = around(events, n);
    &&& st.stack == stack
    &&& st.tbl_depth == count_of(stack, "w:tbl"@)
    &&& match st.capturing {
        None => forall|d: int| 0 <= d < stack.len() ==> !#[trigger] stands(stack, d),
        Some(c) => {
            &&& gathered(events, n, c.cap)
            &&& stands(stack, c.cap.p - 1)
            &&& forall|d: int| 0 <= d < c.cap.p - 1 ==> !#[trigger] stands(stack, d)
        },
    }
}

pub(crate) proof fn lemma_body_gathers(part_name: Seq<char>, events: Seq<EventV>, n: int)
    requires
        balanced(events),
        0 <= n <= events.len(),
    ensures
        body_gathers(events, n, body_run(part_name, events.take(n))),
    decreases n,
{
    let st = body_run(part_name, events.take(n));
    if n == 0 {
        assert(events.take(0) =~= Seq::empty());
    } else {
        let m = n - 1;
        let before = body_run(part_name, events.take(m));
        lemma_body_gathers(part_name, events, m);
        lemma_around_step(events, m);
        assert(closes(events, m));
        let stack = around(events, m);
        lemma_names();
        lemma_lengths();
        let now = around(events, n);
        assert(st == body_step(part_name, before, m as nat, events[m]));
        match events[m] {
            EventV::Start { name, attrs } => {
                lemma_stands_push(stack, name);
                match before.capturing {
                    Some(c) => {
                        lemma_gathered_step(events, m, c.cap);
                        assert(stands(stack, c.cap.p - 1));
                    },
                    None => {
                        assert(top(stack) == (if stack.len() > 0 {
                            stack.last()
                        } else {
                            Seq::empty()
                        }));
                        if stands(stack.push(name), stack.len() as int) {
                            lemma_gathered_new(events, m);
                        }
                    },
                }
                assert(body_gathers(events, n, st));
            },
            EventV::End { name } => {
                let less = stack.drop_last();
                assert(stack =~= less.push(name));
                lemma_stands_push(less, name);
                assert(forall|d: int|
                    0 <= d < less.len() ==> #[trigger] stands(less, d) == stands(
                        less.push(name),
                        d,
                    ));
                match before.capturing {
                    Some(c) => {
                        assert(around(events, m).len() >= c.cap.p);
                        if stack.len() == c.cap.p {
                            lemma_gathered_end(events, m, c.cap);
                        } else {
                            lemma_gathered_step(events, m, c.cap);
                            assert(stands(less.push(name), c.cap.p - 1));
                        }
                    },
                    None => {},
                }
                assert(st.tbl_depth == count_of(now, "w:tbl"@));
                assert(body_gathers(events, n, st));
            },
            _ => {
                match before.capturing {
                    Some(c) => {
                        lemma_gathered_step(events, m, c.cap);
                    },
                    None => {},
                }
                assert(body_gathers(events, n, st));
            },
        }
    }
}

/// The counts of tables, rows and cells before the event at `n`, and where the paragraph that is read
/// stands.
proof fn lemma_body_places(part_name: Seq<char>, events: Seq<EventV>, n: int)
    requires
        balanced(events),
        0 <= n <= events.len(),
    ensures
        ({
            let st = body_run(part_name, events.take(n));
            &&& st.table == tables_before(events, n)
            &&& st.row == rows_before(events, n)
            &&& st.cell == cells_before(events, n)
            &&& st.capturing matches Some(c) ==> c.place == place_at(events, c.cap.start as int)
        }),
    decreases n,
{
    if n == 0 {
        assert(events.take(0) =~= Seq::empty());
    } else {
        let m = n - 1;
        let before = body_run(part_name, events.take(m));
        lemma_body_places(part_name, events, m);
        lemma_body_gathers(part_name, events, m);
        lemma_around_step(events, m);
        lemma_names();
        lemma_lengths();
        let stack = around(events, m);
        assert(top(stack) == (if stack.len() > 0 {
            stack.last()
        } else {
            Seq::empty()
        }));
        match before.capturing {
            Some(c) => lemma_same_start(c.cap, stack, events[m]),
            None => if events[m] is Start {
                lemma_same_start(
                    new_capture(m as nat, stack.len() + 1),
                    stack,
                    events[m],
                );
            },
        }
    }
}

/// No event changes where a paragraph begins.
pub(crate) proof fn lemma_same_start(cap: CaptureV, stack: Seq<Seq<char>>, ev: EventV)
    ensures
        added(cap, stack, ev).start == cap.start,
{
}

/// Whether a paragraph was read between the events at its index and at `e`: it shows what is between
/// them, and stands where they do.
pub open spec fn read_between(events: Seq<EventV>, para: ParaV, e: int) -> bool {
    let s = para.xml_event_index as int;
    let place = place_at(events, s);
    &&& spans(events, s, e)
    &&& body_para(around(events, s + 1))
    &&& para.text == shown(events, s, s + 1, e)
    &&& para.container == place.container
    &&& para.section_index == place.section
    &&& para.table_index == place.table
    &&& para.row_index == place.row
    &&& para.cell_index == place.cell
}

/// Whether a paragraph was read from the events.
pub open spec fn was_read(events: Seq<EventV>, para: ParaV) -> bool {
    exists|e: int| #[trigger] read_between(events, para, e)
}

/// Whether one of the paragraphs begins at the event at `s`.
pub open spec fn begins_at(paras: Seq<ParaV>, s: int) -> bool {
    exists|i: int| 0 <= i < paras.len() && (#[trigger] paras[i]).xml_event_index == s
}

/// A paragraph of the body is the one that is read, up to its end.
proof fn lemma_para_is_open(part_name: Seq<char>, events: Seq<EventV>, s: int, e: int)
    requires
        balanced(events),
        spans(events, s, e),
        body_para(around(events, s + 1)),
    ensures
        body_run(part_name, events.take(e)).capturing matches Some(c) && c.cap.start == s && c.cap.p
            == around(events, s).len() + 1,
{
    let st = body_run(part_name, events.take(e));
    lemma_body_gathers(part_name, events, e);
    lemma_spans_prefix(events, s, e);
    let stack = around(events, e);
    let p = around(events, s).len() as int + 1;
    assert(around(events, e).take(p) =~= stack);
    assert(stack == around(events, s + 1));
    assert(stands(stack, p - 1));
    let c = st.capturing->Some_0;
    assert(stands(stack, c.cap.p - 1));
    if c.cap.p - 1 < p - 1 {
        assert(!stands(stack, c.cap.p - 1));
    }
    let a = c.cap.start as int;
    if a < s {
        assert(around(events, s).len() >= c.cap.p);
    } else if s < a {
        assert(around(events, a).len() > around(events, s).len());
    }
}

/// What the paragraphs are after one event more.
pub(crate) proof fn lemma_body_out(part_name: Seq<char>, events: Seq<EventV>, m: int)
    requires
        balanced(events),
        0 <= m < events.len(),
    ensures
        ({
            let st = body_run(part_name, events.take(m));
            let out = body_run(part_name, events.take(m + 1)).out;
            match st.capturing {
                Some(c) if events[m] is End && around(events, m).len() == c.cap.p => out
                    == with_paragraph(st.out, part_name, c.cap, c.place) && spans(
                    events,
                    c.cap.start as int,
                    m,
                ),
                _ => out == st.out,
            }
        }),
{
    let st = body_run(part_name, events.take(m));
    lemma_body_gathers(part_name, events, m);
    lemma_around_step(events, m);
    match (events[m], st.capturing) {
        (EventV::End { name }, Some(c)) => {
            if around(events, m).len() == c.cap.p {
                lemma_gathered_end(events, m, c.cap);
            } else {
                assert(around(events, m).len() >= c.cap.p);
                lemma_gathered_step(events, m, c.cap);
            }
        },
        _ => {},
    }
}

proof fn lemma_body_sound(part_name: Seq<char>, events: Seq<EventV>, n: int)
    requires
        balanced(events),
        0 <= n <= events.len(),
    ensures
        ({
            let out = body_run(part_name, events.take(n)).out;
            forall|i: int| 0 <= i < out.len() ==> was_read(events, #[trigger] out[i])
        }),
    decreases n,
{
    if n == 0 {
        assert(events.take(0) =~= Seq::empty());
    } else {
        let m = n - 1;
        let st = body_run(part_name, events.take(m));
        lemma_body_sound(part_name, events, m);
        lemma_body_out(part_name, events, m);
        lemma_body_gathers(part_name, events, m);
        lemma_body_places(part_name, events, m);
        match st.capturing {
            Some(c) if events[m] is End && around(events, m).len() == c.cap.p => {
                let stack = around(events, m);
                let out = with_paragraph(st.out, part_name, c.cap, c.place);
                lemma_spans_prefix(events, c.cap.start as int, m);
                assert(stack.take(c.cap.p as int) =~= stack);
                assert forall|i: int| 0 <= i < out.len() implies was_read(
                    events,
                    #[trigger] out[i],
                ) by {
                    if i < st.out.len() {
                        assert(out[i] == st.out[i]);
                    } else {
                        assert(read_between(events, out[i], m));
                    }
                }
            },
            _ => {},
        }
    }
}

proof fn lemma_body_complete(part_name: Seq<char>, events: Seq<EventV>, n: int, s: int, e: int)
    requires
        balanced(events),
        0 <= e < n <= events.len(),
        spans(events, s, e),
        body_para(around(events, s + 1)),
        !is_blank(shown(events, s, s + 1, e)),
    ensures
        begins_at(body_run(part_name, events.take(n)).out, s),
    decreases n,
{
    let m = n - 1;
    let st = body_run(part_name, events.take(m));
    let out = body_run(part_name, events.take(n)).out;
    lemma_body_out(part_name, events, m);
    if e < m {
        lemma_body_complete(part_name, events, m, s, e);
        let i = choose|i: int|
            0 <= i < st.out.len() && (#[trigger] st.out[i]).xml_event_index == s;
        assert(out[i] == st.out[i]);
    } else {
        lemma_para_is_open(part_name, events, s, m);
        lemma_body_gathers(part_name, events, m);
        let c = st.capturing->Some_0;
        lemma_trimmed_empty(c.cap.text);
        assert(out[st.out.len() as int].xml_event_index == s);
    }
}

/// The paragraphs that are read from the body of a document are those directly in the body and in the
/// cells of its tables that show anything but white space, and no others. The text of each is what its
/// own runs show, in their order: their texts, their tabs and their breaks. Each stands where its tag
/// does.
pub proof fn law_body_paragraphs_show_their_runs(part_name: Seq<char>, events: Seq<EventV>)
    requires
        balanced(events),
    ensures
        forall|i: int|
            0 <= i < body_run(part_name, events).out.len() ==> was_read(
                events,
                #[trigger] body_run(part_name, events).out[i],
            ),
        forall|s: int, e: int| #[trigger]
            spans(events, s, e) && body_para(around(events, s + 1)) && !is_blank(
                shown(events, s, s + 1, e),
            ) ==> begins_at(body_run(part_name, events).out, s),
{
    let n = events.len() as int;
    assert(events.take(n) =~= events);
    lemma_body_sound(part_name, events, n);
    assert forall|s: int, e: int| #[trigger]
        spans(events, s, e) && body_para(around(events, s + 1)) && !is_blank(
            shown(events, s, s + 1, e),
        ) implies begins_at(body_run(part_name, events).out, s) by {
        lemma_body_complete(part_name, events, n, s, e);
    }
}

/// Whether the event at `k` opens a paragraph directly in a tag.
pub open spec fn opens_para_in(events: Seq<EventV>, root: Seq<char>, k: int) -> bool {
    &&& events[k] is Start
    &&& events[k]->Start_name == "w:p"@
    &&& top(around(events, k)) == root
}

proof fn lemma_margin_gathers(
    part_name: Seq<char>,
    root: Seq<char>,
    place: PlaceV,
    start: Seq<ParaV>,
    events: Seq<EventV>,
    n: int,
)
    requires
        balanced(events),
        0 <= n <= events.len(),
    ensures
        ({
            let st = direct_run(part_name, root, place, start, events.take(n));
            &&& st.stack == around(events, n)
            &&& st.cap matches Some(c) ==> gathered(events, n, c) && opens_para_in(
                events,
                root,
                c.start as int,
            )
        }),
    decreases n,
{
    if n == 0 {
        assert(events.take(0) =~= Seq::empty());
    } else {
        let m = n - 1;
        let before = direct_run(part_name, root, place, start, events.take(m));
        let st = direct_run(part_name, root, place, start, events.take(n));
        lemma_margin_gathers(part_name, root, place, start, events, m);
        lemma_around_step(events, m);
        assert(closes(events, m));
        let stack = around(events, m);
        assert(st == direct_step(part_name, root, place, before, m as nat, events[m]));
        if opens_para_in(events, root, m) {
            lemma_gathered_new(events, m);
        } else {
            match before.cap {
                Some(c) => {
                    assert(stack.len() >= c.p);
                    if events[m] is End && stack.len() == c.p {
                        lemma_gathered_end(events, m, c);
                    } else {
                        lemma_gathered_step(events, m, c);
                        if events[m] is Empty && events[m]->Empty_name == "w:p"@ {
                            lemma_empty_para(c, stack, events[m]);
                        }
                    }
                },
                None => {},
            }
        }
    }
}

/// An empty paragraph in a paragraph adds nothing to it.
proof fn lemma_empty_para(cap: CaptureV, stack: Seq<Seq<char>>, ev: EventV)
    requires
        ev is Empty,
        ev->Empty_name == "w:p"@,
    ensures
        added(cap, stack, ev) == cap,
{
    lemma_names();
    lemma_lengths();
}

/// Whether one of the paragraphs from `from` on begins at the event at `s`.
pub open spec fn begins_from(paras: Seq<ParaV>, from: nat, s: int) -> bool {
    exists|i: int| from <= i < paras.len() && (#[trigger] paras[i]).xml_event_index == s
}

/// What the paragraphs of a margin are after one event more.
proof fn lemma_margin_out(
    part_name: Seq<char>,
    root: Seq<char>,
    place: PlaceV,
    start: Seq<ParaV>,
    events: Seq<EventV>,
    m: int,
)
    requires
        balanced(events),
        0 <= m < events.len(),
    ensures
        ({
            let st = direct_run(part_name, root, place, start, events.take(m));
            let out = direct_run(part_name, root, place, start, events.take(m + 1)).out;
            match st.cap {
                Some(c) if events[m] is End && around(events, m).len() == c.p => out
                    == with_paragraph(st.out, part_name, c, place) && spans(
                    events,
                    c.start as int,
                    m,
                ),
                _ => out == st.out,
            }
        }),
{
    let st = direct_run(part_name, root, place, start, events.take(m));
    lemma_margin_gathers(part_name, root, place, start, events, m);
    lemma_around_step(events, m);
    lemma_trimmed_empty(Seq::empty());
    match (events[m], st.cap) {
        (EventV::End { name }, Some(c)) => {
            if around(events, m).len() == c.p {
                lemma_gathered_end(events, m, c);
            } else {
                assert(around(events, m).len() >= c.p);
                lemma_gathered_step(events, m, c);
            }
        },
        _ => {},
    }
}

/// Whether a paragraph of a header or a footer was read between the events at its index and at `e`.
pub open spec fn margin_read(
    events: Seq<EventV>,
    root: Seq<char>,
    place: PlaceV,
    para: ParaV,
    e: int,
) -> bool {
    let s = para.xml_event_index as int;
    &&& spans(events, s, e)
    &&& opens_para_in(events, root, s)
    &&& para.text == shown(events, s, s + 1, e)
    &&& para.container == place.container
    &&& para.section_index == place.section
    &&& para.table_index == place.table
    &&& para.row_index == place.row
    &&& para.cell_index == place.cell
}

/// Whether a paragraph was read from the events of a header or a footer.
pub open spec fn was_read_in(
    events: Seq<EventV>,
    root: Seq<char>,
    place: PlaceV,
    para: ParaV,
) -> bool {
    exists|e: int| #[trigger] margin_read(events, root, place, para, e)
}

proof fn lemma_margin_sound(
    part_name: Seq<char>,
    root: Seq<char>,
    place: PlaceV,
    start: Seq<ParaV>,
    events: Seq<EventV>,
    n: int,
)
    requires
        balanced(events),
        0 <= n <= events.len(),
    ensures
        ({
            let out = direct_run(part_name, root, place, start, events.take(n)).out;
            forall|i: int|
                start.len() <= i < out.len() ==> was_read_in(
                    events,
                    root,
                    place,
                    #[trigger] out[i],
                )
        }),
        direct_run(part_name, root, place, start, events.take(n)).out.len() >= start.len(),
    decreases n,
{
    if n == 0 {
        assert(events.take(0) =~= Seq::empty());
    } else {
        let m = n - 1;
        let st = direct_run(part_name, root, place, start, events.take(m));
        lemma_margin_sound(part_name, root, place, start, events, m);
        lemma_margin_out(part_name, root, place, start, events, m);
        lemma_margin_gathers(part_name, root, place, start, events, m);
        match st.cap {
            Some(c) if events[m] is End && around(events, m).len() == c.p => {
                let out = with_paragraph(st.out, part_name, c, place);
                assert forall|i: int| start.len() <= i < out.len() implies was_read_in(
                    events,
                    root,
                    place,
                    #[trigger] out[i],
                ) by {
                    if i < st.out.len() {
                        assert(out[i] == st.out[i]);
                    } else {
                        assert(margin_read(events, root, place, out[i], m));
                    }
                }
            },
            _ => {},
        }
    }
}

/// A paragraph of a margin is the one that is read up to its end, where no other begins in it.
proof fn lemma_margin_is_open(
    part_name: Seq<char>,
    root: Seq<char>,
    place: PlaceV,
    start: Seq<ParaV>,
    events: Seq<EventV>,
    s: int,
    k: int,
)
    requires
        balanced(events),
        0 <= s < k <= events.len(),
        opens_para_in(events, root, s),
        forall|j: int| s < j <= k ==> #[trigger] around(events, j).len() > around(events, s).len(),
        forall|j: int| s < j < k ==> !#[trigger] opens_para_in(events, root, j),
    ensures
        direct_run(part_name, root, place, start, events.take(k)).cap matches Some(c) && c.start == s
            && c.p == around(events, s).len() + 1,
    decreases k,
{
    let m = k - 1;
    let before = direct_run(part_name, root, place, start, events.take(m));
    let st = direct_run(part_name, root, place, start, events.take(k));
    lemma_margin_gathers(part_name, root, place, start, events, m);
    lemma_margin_gathers(part_name, root, place, start, events, k);
    lemma_around_step(events, m);
    assert(closes(events, m));
    assert(st == direct_step(part_name, root, place, before, m as nat, events[m]));
    if m == s {
        lemma_gathered_new(events, m);
    } else {
        lemma_margin_is_open(part_name, root, place, start, events, s, m);
        assert(!opens_para_in(events, root, m));
        let c = before.cap->Some_0;
        assert(around(events, k).len() > around(events, s).len());
        lemma_gathered_step(events, m, c);
        if events[m] is Empty && events[m]->Empty_name == "w:p"@ {
            lemma_empty_para(c, around(events, m), events[m]);
        }
    }
}

proof fn lemma_margin_complete(
    part_name: Seq<char>,
    root: Seq<char>,
    place: PlaceV,
    start: Seq<ParaV>,
    events: Seq<EventV>,
    n: int,
    s: int,
    e: int,
)
    requires
        balanced(events),
        0 <= e < n <= events.len(),
        spans(events, s, e),
        opens_para_in(events, root, s),
        forall|j: int| s < j < e ==> !#[trigger] opens_para_in(events, root, j),
        !is_blank(shown(events, s, s + 1, e)),
    ensures
        begins_from(
            direct_run(part_name, root, place, start, events.take(n)).out,
            start.len(),
            s,
        ),
    decreases n,
{
    let m = n - 1;
    let st = direct_run(part_name, root, place, start, events.take(m));
    let out = direct_run(part_name, root, place, start, events.take(n)).out;
    lemma_margin_out(part_name, root, place, start, events, m);
    lemma_margin_sound(part_name, root, place, start, events, m);
    if e < m {
        lemma_margin_complete(part_name, root, place, start, events, m, s, e);
        let i = choose|i: int|
            start.len() <= i < st.out.len() && (#[trigger] st.out[i]).xml_event_index == s;
        assert(out[i] == st.out[i]);
    } else {
        lemma_margin_is_open(part_name, root, place, start, events, s, m);
        lemma_margin_gathers(part_name, root, place, start, events, m);
        let c = st.cap->Some_0;
        lemma_trimmed_empty(c.text);
        assert(out[st.out.len() as int].xml_event_index == s);
    }
}

/// The paragraphs that are read from a header or a footer are those directly in it that show anything
/// but white space, and no others. The text of each is what its own runs show, in their order, and
/// each stands at the given place. One in which the header or footer begins anew is left out of the
/// account.
pub proof fn law_margin_paragraphs_show_their_runs(
    part_name: Seq<char>,
    root: Seq<char>,
    place: PlaceV,
    start: Seq<ParaV>,
    events: Seq<EventV>,
)
    requires
        balanced(events),
    ensures
        forall|i: int|
            start.len() <= i < direct_run(part_name, root, place, start, events).out.len() ==> was_read_in(
                events,
                root,
                place,
                #[trigger] direct_run(part_name, root, place, start, events).out[i],
            ),
        forall|s: int, e: int| #[trigger]
            spans(events, s, e) && opens_para_in(events, root, s) && (forall|j: int|
                s < j < e ==> !#[trigger] opens_para_in(events, root, j)) && !is_blank(
                shown(events, s, s + 1, e),
            ) ==> begins_from(
                direct_run(part_name, root, place, start, events).out,
                start.len(),
                s,
            ),
{
    let n = events.len() as int;
    assert(events.take(n) =~= events);
    lemma_margin_sound(part_name, root, place, start, events, n);
    assert forall|s: int, e: int| #[trigger]
        spans(events, s, e) && opens_para_in(events, root, s) && (forall|j: int|
            s < j < e ==> !#[trigger] opens_para_in(events, root, j)) && !is_blank(
            shown(events, s, s + 1, e),
        ) implies begins_from(
                direct_run(part_name, root, place, start, events).out,
                start.len(),
                s,
            ) by {
        lemma_margin_complete(part_name, root, place, start, events, n, s, e);
    }
}

/// A break without a type in a run of a paragraph, or in a run of a link in it, adds one line break to
/// what the paragraph shows, between what stands before it and what stands after it. So does one of
/// the type `textWrapping`, and a break of another type adds nothing.
pub proof fn law_breaks_are_shown(events: Seq<EventV>, s: int, e: int, k: int, attrs: AttrsV)
    requires
        spans(events, s, e),
        s < k < e,
        own_run(within_tag(events, s, k)),
        events[k] == (EventV::Start { name: "w:br"@, attrs }) || events[k] == (EventV::Empty {
            name: "w:br"@,
            attrs,
        }),
    ensures
        shown(events, s, s + 1, e) == shown(events, s, s + 1, k) + (if lacks_attr(attrs, "w:type"@)
            || first_attr_is(attrs, "w:type"@, "textWrapping"@) {
            seq!['\n']
        } else {
            Seq::empty()
        }) + shown(events, s, k + 1, e),
{
    lemma_shown_split(events, s, s + 1, k, e);
    lemma_lengths();
    lemma_named_glyphs();
    reveal_strlit("\n");
    assert("\n"@ =~= seq!['\n']);
}

} // verus!
