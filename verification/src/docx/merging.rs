//! What merging runs leaves of a part.

use crate::chars::is_ws;
use crate::docx::filter::{
    lemma_subtree_end, merge_flushed, merge_other, merge_run, merged_from, merged_runs, opens_run,
    run_read, run_read_step, run_rendered, subtree_end, text_run, MergeV, RunReadV, TextRunV,
};
use crate::docx::xml::{top, EventV};
use vstd::prelude::*;

verus! {

/// By how many tags the events open more than they close.
spec fn level(events: Seq<EventV>) -> int
    decreases events.len(),
{
    if events.len() == 0 {
        0
    } else {
        level(events.drop_last()) + match events.last() {
            EventV::Start { .. } => 1int,
            EventV::End { .. } => -1,
            _ => 0,
        }
    }
}

proof fn lemma_level_add(a: Seq<EventV>, b: Seq<EventV>)
    ensures
        level(a + b) == level(a) + level(b),
    decreases b.len(),
{
    if b.len() == 0 {
        assert(a + b =~= a);
    } else {
        assert((a + b).drop_last() =~= a + b.drop_last());
        lemma_level_add(a, b.drop_last());
    }
}

proof fn lemma_level_one(ev: EventV)
    ensures
        level(seq![ev]) == match ev {
            EventV::Start { .. } => 1int,
            EventV::End { .. } => -1,
            _ => 0,
        },
{
    reveal_with_fuel(level, 2);
    assert(seq![ev].drop_last() =~= Seq::<EventV>::empty());
}

/// Inside an element its tag is open, and at its end it is closed, unless the events end before.
proof fn lemma_subtree_levels(events: Seq<EventV>, i: int, depth: int)
    requires
        0 <= i < events.len(),
        depth > 0 || depth == 0 && events[i] is Start,
    ensures
        ({
            let end = subtree_end(events, i, depth);
            &&& i < end <= events.len()
            &&& forall|k: int|
                i < k < end ==> depth + level(#[trigger] events.subrange(i, k)) >= 1
            &&& depth + level(events.subrange(i, end)) == 0 || (end == events.len() && depth
                + level(events.subrange(i, end)) >= 1)
        }),
    decreases events.len() - i,
{
    lemma_subtree_end(events, i, depth);
    let end = subtree_end(events, i, depth);
    let one = seq![events[i]];
    lemma_level_one(events[i]);
    let now = depth + level(one);
    assert(events.subrange(i, i + 1) =~= one);
    if now == 0 {
        assert(end == i + 1);
    } else if i + 1 >= events.len() {
        assert(end == i + 1);
    } else {
        lemma_subtree_levels(events, i + 1, now);
        assert(end == subtree_end(events, i + 1, now));
        assert forall|k: int| i < k < end implies depth + level(#[trigger] events.subrange(i, k))
            >= 1 by {
            if k > i + 1 {
                assert(events.subrange(i, k) =~= one + events.subrange(i + 1, k));
                lemma_level_add(one, events.subrange(i + 1, k));
            }
        }
        assert(events.subrange(i, end) =~= one + events.subrange(i + 1, end));
        lemma_level_add(one, events.subrange(i + 1, end));
    }
}

/// An element ends where its own events say, whatever stands around it.
proof fn lemma_subtree_here(o: Seq<EventV>, pos: int, chunk: Seq<EventV>, depth: int)
    requires
        0 <= pos <= pos + chunk.len() <= o.len(),
        chunk.len() > 0,
        o.subrange(pos, pos + chunk.len()) == chunk,
        forall|k: int| 0 < k < chunk.len() ==> depth + level(#[trigger] chunk.take(k)) != 0,
        depth + level(chunk) == 0 || pos + chunk.len() == o.len(),
    ensures
        subtree_end(o, pos, depth) == pos + chunk.len(),
    decreases chunk.len(),
{
    let one = seq![chunk[0]];
    lemma_level_one(chunk[0]);
    assert(o[pos] == chunk[0]);
    let now = depth + level(one);
    if chunk.len() == 1 {
        assert(chunk =~= one);
        if now != 0 {
            reveal_with_fuel(subtree_end, 2);
        }
    } else {
        assert(chunk.take(1) =~= one);
        let rest = chunk.skip(1);
        assert(chunk =~= one + rest);
        lemma_level_add(one, rest);
        assert(o.subrange(pos + 1, pos + 1 + rest.len()) =~= rest);
        assert forall|k: int| 0 < k < rest.len() implies now + level(#[trigger] rest.take(k))
            != 0 by {
            assert(chunk.take(k + 1) =~= one + rest.take(k));
            lemma_level_add(one, rest.take(k));
        }
        lemma_subtree_here(o, pos + 1, rest, now);
    }
}

/// What is read of the events of a run's style alone.
spec fn style_read(style: Seq<EventV>, fingerprint: Seq<Seq<char>>) -> RunReadV {
    RunReadV {
        in_style: false,
        in_text: false,
        depth: 0,
        style,
        fingerprint,
        text: Seq::empty(),
        preserve: false,
    }
}

/// Whether a run reads as itself after it was written.
spec fn good_run(run: TextRunV) -> bool {
    &&& run_read(run.style) == Some(style_read(run.style, run.fingerprint))
    &&& level(run.style) == 0
    &&& run.style.len() != 2
    &&& forall|k: int| 0 <= k <= run.style.len() ==> level(#[trigger] run.style.take(k)) >= 0
}

spec fn as_int(b: bool) -> int {
    if b {
        1
    } else {
        0
    }
}

/// The events of the style, read alone, give the same style.
proof fn lemma_read_style(inner: Seq<EventV>)
    requires
        run_read(inner) is Some,
        forall|k: int| 0 <= k <= inner.len() ==> level(#[trigger] inner.take(k)) >= 0,
    ensures
        ({
            let st = run_read(inner)->Some_0;
            let depth = st.depth - as_int(st.in_text);
            &&& depth >= 0
            &&& st.in_text ==> depth == 0 && !st.in_style
            &&& run_read(st.style) == Some(
                RunReadV {
                    in_style: st.in_style,
                    depth: depth as nat,
                    ..style_read(st.style, st.fingerprint)
                },
            )
            &&& level(inner) == level(st.style) + as_int(st.in_text)
            &&& level(st.style) <= depth + as_int(st.in_style)
            &&& forall|k: int| 0 <= k <= st.style.len() ==> level(#[trigger] st.style.take(k)) >= 0
        }),
    decreases inner.len(),
{
    let st = run_read(inner)->Some_0;
    if inner.len() == 0 {
        assert(st.style.take(0) =~= Seq::<EventV>::empty());
    } else {
        let before = inner.drop_last();
        let ev = inner.last();
        assert forall|k: int| 0 <= k <= before.len() implies level(#[trigger] before.take(k))
            >= 0 by {
            assert(before.take(k) =~= inner.take(k));
        }
        lemma_read_style(before);
        let last = run_read(before)->Some_0;
        assert(inner.take(inner.len() as int) =~= inner);
        if st.style.len() > last.style.len() {
            assert(st.style == last.style.push(ev));
            assert(st.style.drop_last() =~= last.style);
            assert forall|k: int| 0 <= k <= st.style.len() implies level(
                #[trigger] st.style.take(k),
            ) >= 0 by {
                if k < st.style.len() {
                    assert(st.style.take(k) =~= last.style.take(k));
                } else {
                    assert(st.style.take(k) =~= st.style);
                }
            }
        } else {
            assert(st.style == last.style);
        }
    }
}

/// A text run of a part reads as itself after it was written.
proof fn lemma_text_run_good(events: Seq<EventV>, i: int)
    requires
        0 <= i < events.len(),
        events[i] is Start,
        text_run(events.subrange(i, subtree_end(events, i, 0))) is Some,
    ensures
        good_run(text_run(events.subrange(i, subtree_end(events, i, 0)))->Some_0),
{
    lemma_subtree_levels(events, i, 0);
    let end = subtree_end(events, i, 0);
    let run = events.subrange(i, end);
    let inner = run.subrange(1, run.len() - 1);
    let head = seq![run[0]];
    let tail = seq![run.last()];
    lemma_level_one(run[0]);
    lemma_level_one(run.last());
    assert forall|k: int| 0 <= k <= inner.len() implies level(#[trigger] inner.take(k)) >= 0 by {
        assert(events.subrange(i, i + 1 + k) =~= head + inner.take(k));
        lemma_level_add(head, inner.take(k));
    }
    lemma_read_style(inner);
    let st = run_read(inner)->Some_0;
    assert(run =~= head + inner + tail);
    lemma_level_add(head + inner, tail);
    lemma_level_add(head, inner);
    assert(inner.take(inner.len() as int) =~= inner);
    assert(level(st.style) == 0);
    if st.style.len() == 2 {
        let p = text_run(run)->Some_0;
        reveal_with_fuel(run_read, 3);
        assert(st.style.drop_last().drop_last() =~= Seq::<EventV>::empty());
        assert(p.fingerprint =~= Seq::<Seq<char>>::empty());
        assert(p.style.take(0) =~= Seq::<EventV>::empty());
    }
}

/// A run as it is read after it was written.
spec fn seen(run: TextRunV) -> TextRunV {
    TextRunV {
        preserve: run.preserve || (run.text.len() > 0 && (is_ws(run.text[0]) || is_ws(
            run.text.last(),
        ))),
        ..run
    }
}

proof fn lemma_reread(run: TextRunV)
    requires
        good_run(run),
    ensures
        text_run(run_rendered(run)) == Some(seen(run)),
        run_rendered(seen(run)) == run_rendered(run),
{
    let all = run_rendered(run);
    let n = all.len() as int;
    let inner = all.subrange(1, n - 1);
    let space = match all[n - 4] {
        EventV::Start { attrs, .. } => attrs,
        _ => Seq::empty(),
    };
    reveal_strlit("w:t");
    reveal_strlit("w:rPr");
    assert("w:t"@.len() != "w:rPr"@.len());
    assert(inner.drop_last().drop_last().drop_last() =~= run.style);
    assert(inner.drop_last().drop_last().last() == all[n - 4]);
    assert(inner.drop_last().last() == all[n - 3]);
    assert(inner.last() == all[n - 2]);
    let a = run_read_step(style_read(run.style, run.fingerprint), all[n - 4]);
    assert(run_read(inner.drop_last().drop_last()) == a);
    assert(run_read(inner.drop_last()) == run_read_step(a->Some_0, all[n - 3]));
    assert(Seq::<char>::empty() + run.text =~= run.text);
    if seen(run).preserve {
        assert(space == seq![("xml:space"@, "preserve"@)]);
        assert(space[0] == ("xml:space"@, "preserve"@));
        assert(space.contains(("xml:space"@, "preserve"@)));
    } else {
        assert(space == Seq::<(Seq<char>, Seq<char>)>::empty());
    }
    assert(run_read(inner) == Some(
        RunReadV {
            text: run.text,
            preserve: seen(run).preserve,
            ..style_read(run.style, run.fingerprint)
        },
    ));
}

/// Where a written run ends.
proof fn lemma_rendered_here(o: Seq<EventV>, pos: int, run: TextRunV)
    requires
        good_run(run),
        0 <= pos <= pos + run_rendered(run).len() <= o.len(),
        o.subrange(pos, pos + run_rendered(run).len()) == run_rendered(run),
    ensures
        subtree_end(o, pos, 0) == pos + run_rendered(run).len(),
{
    let all = run_rendered(run);
    let n = all.len() as int;
    let m = run.style.len() as int;
    let head = seq![all[0]];
    lemma_level_one(all[0]);
    assert forall|k: int| 0 < k <= m + 1 implies level(#[trigger] all.take(k)) >= 1 by {
        assert(all.take(k) =~= head + run.style.take(k - 1));
        lemma_level_add(head, run.style.take(k - 1));
    }
    assert(run.style.take(m) =~= run.style);
    assert(all.take(m + 1) =~= head + run.style);
    lemma_level_add(head, run.style);
    assert(all.take(m + 2).drop_last() =~= all.take(m + 1));
    assert(all.take(m + 3).drop_last() =~= all.take(m + 2));
    assert(all.take(m + 4).drop_last() =~= all.take(m + 3));
    assert(all.take(m + 5).drop_last() =~= all.take(m + 4));
    assert(all.take(m + 5) =~= all);
    assert(level(all.take(m + 2)) == 2);
    assert(level(all.take(m + 3)) == 2);
    assert(level(all.take(m + 4)) == 1);
    assert(level(all) == 0);
    assert forall|k: int| 0 < k < n implies 0 + level(#[trigger] all.take(k)) != 0 by {
        if k > m + 1 {
            assert(k == m + 2 || k == m + 3 || k == m + 4);
        }
    }
    lemma_subtree_here(o, pos, all, 0);
}

/// A piece of what a part says: an event, or a character of a text run.
#[verifier::ext_equal]
pub enum PieceV {
    Event(EventV),
    Letter(Seq<char>),
}

/// The characters of a text.
pub open spec fn chars_of(text: Seq<char>) -> Seq<PieceV>
    decreases text.len(),
{
    if text.len() == 0 {
        Seq::empty()
    } else {
        chars_of(text.drop_last()).push(PieceV::Letter(seq![text.last()]))
    }
}

proof fn lemma_chars_add(a: Seq<char>, b: Seq<char>)
    ensures
        chars_of(a + b) == chars_of(a) + chars_of(b),
    decreases b.len(),
{
    if b.len() == 0 {
        assert(a + b =~= a);
        assert(chars_of(a) + chars_of(b) =~= chars_of(a));
    } else {
        lemma_chars_add(a, b.drop_last());
        assert((a + b).drop_last() =~= a + b.drop_last());
        assert(chars_of(a + b) =~= chars_of(a) + chars_of(b));
    }
}

/// Events as they are.
pub open spec fn events_of(events: Seq<EventV>) -> Seq<PieceV>
    decreases events.len(),
{
    if events.len() == 0 {
        Seq::empty()
    } else {
        events_of(events.drop_last()).push(PieceV::Event(events.last()))
    }
}

/// The state with nothing but some open tags.
pub open spec fn inside(stack: Seq<Seq<char>>) -> MergeV {
    MergeV { out: Seq::empty(), stack, pending: None }
}

/// What the events from `i` on say inside some open tags: of a text run in a paragraph the
/// characters, and everything else as it is.
pub open spec fn gist_from(stack: Seq<Seq<char>>, events: Seq<EventV>, i: int) -> Seq<PieceV>
    decreases events.len() - i,
{
    proof {
        if 0 <= i <= events.len() {
            lemma_subtree_end(events, i, 0);
        }
    }
    if i < 0 || i >= events.len() {
        Seq::empty()
    } else if opens_run(inside(stack), events[i]) {
        let end = subtree_end(events, i, 0);
        let run = events.subrange(i, end);
        (match text_run(run) {
            Some(r) => chars_of(r.text),
            None => events_of(run),
        }) + gist_from(stack, events, end)
    } else {
        seq![PieceV::Event(events[i])] + gist_from(
            merge_other(inside(stack), events[i]).stack,
            events,
            i + 1,
        )
    }
}

/// What a part says.
pub open spec fn gist(events: Seq<EventV>) -> Seq<PieceV> {
    gist_from(Seq::empty(), events, 0)
}

/// Whether no text run, from `i` on, comes right after one of the same style.
pub open spec fn settled_from(st: MergeV, events: Seq<EventV>, i: int) -> bool
    decreases events.len() - i,
{
    proof {
        if 0 <= i <= events.len() {
            lemma_subtree_end(events, i, 0);
        }
    }
    if i < 0 || i >= events.len() {
        true
    } else if opens_run(st, events[i]) {
        let end = subtree_end(events, i, 0);
        let run = events.subrange(i, end);
        &&& match (st.pending, text_run(run)) {
            (Some(prev), Some(next)) => prev.fingerprint != next.fingerprint,
            _ => true,
        }
        &&& settled_from(merge_run(st, run), events, end)
    } else {
        settled_from(merge_other(st, events[i]), events, i + 1)
    }
}

/// Whether no text run in a paragraph comes right after one of the same style.
pub open spec fn settled(events: Seq<EventV>) -> bool {
    settled_from(inside(Seq::empty()), events, 0)
}

spec fn pending_gist(st: MergeV) -> Seq<PieceV> {
    match st.pending {
        Some(run) => chars_of(run.text),
        None => Seq::empty(),
    }
}

/// What is written stays at the front of what is written in the end.
proof fn lemma_front(st: MergeV, events: Seq<EventV>, i: int)
    requires
        0 <= i <= events.len(),
    ensures
        st.out.len() <= merged_from(st, events, i).len(),
        merged_from(st, events, i).take(st.out.len() as int) == st.out,
    decreases events.len() - i,
{
    let o = merged_from(st, events, i);
    if i < events.len() {
        lemma_subtree_end(events, i, 0);
        let (next, j) = if opens_run(st, events[i]) {
            let end = subtree_end(events, i, 0);
            (merge_run(st, events.subrange(i, end)), end)
        } else {
            (merge_other(st, events[i]), i + 1)
        };
        lemma_front(next, events, j);
        assert(next.out.take(st.out.len() as int) =~= st.out);
        assert(o.take(st.out.len() as int) =~= o.take(next.out.len() as int).take(
            st.out.len() as int,
        ));
    } else {
        assert(o.take(st.out.len() as int) =~= st.out);
    }
}

/// Whether merging again what is written so far, `st.out` of `o`, leads to the state `again` and
/// changed nothing, and has said `done`.
spec fn tracks(o: Seq<EventV>, st: MergeV, again: MergeV, done: Seq<PieceV>) -> bool {
    let n = st.out.len() as int;
    &&& again.stack == st.stack
    &&& merge_flushed(again).out == st.out
    &&& match st.pending {
        Some(p) => {
            &&& good_run(p)
            &&& top(st.stack) == "w:p"@
            &&& match again.pending {
                Some(q) => q.fingerprint != p.fingerprint,
                None => true,
            }
        },
        None => again.pending is None,
    }
    &&& n <= o.len()
    &&& o.take(n) == st.out
    &&& merged_runs(o) == merged_from(again, o, n)
    &&& settled(o) == settled_from(again, o, n)
    &&& gist(o) == done + gist_from(st.stack, o, n)
}

/// Merging again reads the run that was pending when it was written.
proof fn lemma_consume(o: Seq<EventV>, st: MergeV, again: MergeV, done: Seq<PieceV>) -> (r: MergeV)
    requires
        tracks(o, st, again, done),
        st.pending is Some,
        merge_flushed(st).out.len() <= o.len(),
        o.take(merge_flushed(st).out.len() as int) == merge_flushed(st).out,
    ensures
        ({
            let n = merge_flushed(st).out.len() as int;
            &&& r.stack == st.stack
            &&& r.pending == Some(seen(st.pending->Some_0))
            &&& merge_flushed(r).out == merge_flushed(st).out
            &&& merged_runs(o) == merged_from(r, o, n)
            &&& settled(o) == settled_from(r, o, n)
            &&& gist(o) == done + pending_gist(st) + gist_from(st.stack, o, n)
        }),
{
    let p = st.pending->Some_0;
    let chunk = run_rendered(p);
    let pos = st.out.len() as int;
    let n = merge_flushed(st).out.len() as int;
    assert(o.subrange(pos, n) =~= chunk) by {
        assert forall|k: int| 0 <= k < chunk.len() implies o.subrange(pos, n)[k] == chunk[k] by {
            assert(o.take(n)[pos + k] == merge_flushed(st).out[pos + k]);
        }
    }
    lemma_reread(p);
    lemma_rendered_here(o, pos, p);
    assert(o[pos] == o.subrange(pos, n)[0]);
    let r = merge_run(again, chunk);
    assert(opens_run(again, o[pos]));
    assert(opens_run(inside(st.stack), o[pos]));
    assert(done + (chars_of(p.text) + gist_from(st.stack, o, n)) =~= done + pending_gist(st)
        + gist_from(st.stack, o, n));
    r
}

/// A run that is copied ends in the copy where it ends in the part.
proof fn lemma_plain_run(events: Seq<EventV>, i: int, o: Seq<EventV>, out: Seq<EventV>, n: int)
    requires
        0 <= i < events.len(),
        events[i] is Start,
        ({
            let run = events.subrange(i, subtree_end(events, i, 0));
            &&& 0 <= n <= n + run.len() == out.len() <= o.len()
            &&& out.subrange(n, out.len() as int) == run
            &&& o.take(out.len() as int) == out
            &&& subtree_end(events, i, 0) == events.len() ==> out.len() == o.len()
        }),
    ensures
        subtree_end(o, n, 0) == out.len(),
        o[n] == events[i],
        o.subrange(n, out.len() as int) == events.subrange(i, subtree_end(events, i, 0)),
{
    let end = subtree_end(events, i, 0);
    let run = events.subrange(i, end);
    lemma_subtree_levels(events, i, 0);
    assert(o.subrange(n, out.len() as int) =~= run) by {
        assert forall|k: int| 0 <= k < run.len() implies o[n + k] == run[k] by {
            assert(o.take(out.len() as int)[n + k] == out[n + k]);
            assert(out.subrange(n, out.len() as int)[k] == run[k]);
        }
    }
    assert(o[n] == run[0]);
    assert forall|k: int| 0 < k < run.len() implies 0 + level(#[trigger] run.take(k)) != 0 by {
        assert(run.take(k) =~= events.subrange(i, i + k));
    }
    lemma_subtree_here(o, n, run, 0);
}

/// Merging again reads a run that was copied.
proof fn lemma_copied(
    st: MergeV,
    events: Seq<EventV>,
    i: int,
    o: Seq<EventV>,
    again: MergeV,
    done: Seq<PieceV>,
) -> (r: (MergeV, Seq<PieceV>))
    requires
        0 <= i < events.len(),
        o == merged_from(st, events, i),
        tracks(o, st, again, done),
        gist(events) == done + pending_gist(st) + gist_from(st.stack, events, i),
        opens_run(st, events[i]),
        text_run(events.subrange(i, subtree_end(events, i, 0))) is None,
    ensures
        ({
            let end = subtree_end(events, i, 0);
            let next = merge_run(st, events.subrange(i, end));
            &&& tracks(o, next, r.0, r.1)
            &&& gist(events) == r.1 + pending_gist(next) + gist_from(next.stack, events, end)
        }),
{
    lemma_subtree_end(events, i, 0);
    let end = subtree_end(events, i, 0);
    let run = events.subrange(i, end);
    let next = merge_run(st, run);
    let flushed = merge_flushed(st).out;
    let n = flushed.len() as int;
    lemma_front(next, events, end);
    assert(next.out == flushed + run);
    assert(n <= o.len() && o.take(n) =~= flushed) by {
        assert forall|k: int| 0 <= k < n implies o[k] == flushed[k] by {
            assert(o.take(next.out.len() as int)[k] == next.out[k]);
        }
    }
    let r = if st.pending is Some {
        lemma_consume(o, st, again, done)
    } else {
        again
    };
    let now = done + pending_gist(st);
    if st.pending is None {
        assert(now =~= done);
    }
    assert(next.out.subrange(n, next.out.len() as int) =~= run);
    if end == events.len() {
        assert(o == next.out);
    }
    lemma_plain_run(events, i, o, next.out, n);
    let after = merge_run(r, run);
    assert(merge_flushed(r).out == flushed);
    assert(after.out == next.out);
    assert(opens_run(r, o[n]));
    assert(opens_run(inside(st.stack), o[n]));
    assert(opens_run(inside(st.stack), events[i]));
    let said = now + events_of(run);
    assert(gist(o) =~= said + gist_from(st.stack, o, next.out.len() as int));
    assert(said + pending_gist(next) + gist_from(st.stack, events, end) =~= gist(events));
    (after, said)
}

/// Merging again reads an event outside of runs.
proof fn lemma_passed(
    st: MergeV,
    events: Seq<EventV>,
    i: int,
    o: Seq<EventV>,
    again: MergeV,
    done: Seq<PieceV>,
) -> (r: (MergeV, Seq<PieceV>))
    requires
        0 <= i < events.len(),
        o == merged_from(st, events, i),
        tracks(o, st, again, done),
        gist(events) == done + pending_gist(st) + gist_from(st.stack, events, i),
        !opens_run(st, events[i]),
    ensures
        ({
            let next = merge_other(st, events[i]);
            &&& tracks(o, next, r.0, r.1)
            &&& gist(events) == r.1 + pending_gist(next) + gist_from(next.stack, events, i + 1)
        }),
{
    let ev = events[i];
    let next = merge_other(st, ev);
    let flushed = merge_flushed(st).out;
    let n = flushed.len() as int;
    lemma_front(next, events, i + 1);
    assert(n <= o.len() && o.take(n) =~= flushed) by {
        assert forall|k: int| 0 <= k < n implies o[k] == flushed[k] by {
            assert(o.take(next.out.len() as int)[k] == next.out[k]);
        }
    }
    let r = if st.pending is Some {
        lemma_consume(o, st, again, done)
    } else {
        again
    };
    let now = done + pending_gist(st);
    if st.pending is None {
        assert(now =~= done);
    }
    assert(o.take(n + 1)[n] == next.out[n]);
    assert(o[n] == ev);
    let after = merge_other(r, ev);
    assert(merge_flushed(r).out == flushed);
    assert(after.out == next.out);
    assert(!opens_run(r, o[n]));
    assert(!opens_run(inside(st.stack), o[n]));
    assert(!opens_run(inside(st.stack), events[i]));
    let said = now + seq![PieceV::Event(ev)];
    assert(gist(o) =~= said + gist_from(next.stack, o, n + 1));
    assert(said + pending_gist(next) + gist_from(next.stack, events, i + 1) =~= gist(events));
    (after, said)
}

/// Merging again goes on after a text run.
proof fn lemma_gathered(
    st: MergeV,
    events: Seq<EventV>,
    i: int,
    o: Seq<EventV>,
    again: MergeV,
    done: Seq<PieceV>,
) -> (r: (MergeV, Seq<PieceV>))
    requires
        0 <= i < events.len(),
        o == merged_from(st, events, i),
        tracks(o, st, again, done),
        gist(events) == done + pending_gist(st) + gist_from(st.stack, events, i),
        opens_run(st, events[i]),
        text_run(events.subrange(i, subtree_end(events, i, 0))) is Some,
    ensures
        ({
            let end = subtree_end(events, i, 0);
            let next = merge_run(st, events.subrange(i, end));
            &&& tracks(o, next, r.0, r.1)
            &&& gist(events) == r.1 + pending_gist(next) + gist_from(next.stack, events, end)
        }),
{
    lemma_subtree_end(events, i, 0);
    let end = subtree_end(events, i, 0);
    let run = events.subrange(i, end);
    let next = merge_run(st, run);
    let p = text_run(run)->Some_0;
    lemma_front(next, events, end);
    lemma_text_run_good(events, i);
    assert(opens_run(inside(st.stack), events[i]));
    let rest = gist_from(st.stack, events, end);
    assert(gist_from(st.stack, events, i) == chars_of(p.text) + rest);
    match st.pending {
        Some(prev) => if prev.fingerprint == p.fingerprint {
            lemma_chars_add(prev.text, p.text);
            assert(done + pending_gist(next) + rest =~= gist(events));
            (again, done)
        } else {
            let r = lemma_consume(o, st, again, done);
            let now = done + pending_gist(st);
            assert(now + pending_gist(next) + rest =~= gist(events));
            (r, now)
        },
        None => {
            assert(done + pending_gist(next) + rest =~= gist(events));
            (again, done)
        },
    }
}

proof fn lemma_again(
    st: MergeV,
    events: Seq<EventV>,
    i: int,
    o: Seq<EventV>,
    again: MergeV,
    done: Seq<PieceV>,
)
    requires
        0 <= i <= events.len(),
        o == merged_from(st, events, i),
        tracks(o, st, again, done),
        gist(events) == done + pending_gist(st) + gist_from(st.stack, events, i),
    ensures
        merged_runs(o) == o,
        settled(o),
        gist(o) == gist(events),
    decreases events.len() - i,
{
    if i >= events.len() {
        assert(o.take(o.len() as int) =~= o);
        if st.pending is Some {
            let r = lemma_consume(o, st, again, done);
            assert(merged_from(r, o, o.len() as int) == o);
        }
        assert(gist(o) =~= gist(events));
    } else if opens_run(st, events[i]) {
        lemma_subtree_end(events, i, 0);
        let end = subtree_end(events, i, 0);
        let run = events.subrange(i, end);
        let (after, said) = if text_run(run) is Some {
            lemma_gathered(st, events, i, o, again, done)
        } else {
            lemma_copied(st, events, i, o, again, done)
        };
        lemma_again(merge_run(st, run), events, end, o, after, said);
    } else {
        let (after, said) = lemma_passed(st, events, i, o, again, done);
        lemma_again(merge_other(st, events[i]), events, i + 1, o, after, said);
    }
}

/// Merging runs leaves what a part says: the characters of its text runs, and everything else as it
/// is and in its place. After it no text run in a paragraph comes right after one of the same style,
/// and merging again changes nothing.
pub proof fn law_merging_settles(events: Seq<EventV>)
    ensures
        gist(merged_runs(events)) == gist(events),
        settled(merged_runs(events)),
        merged_runs(merged_runs(events)) == merged_runs(events),
{
    let st = inside(Seq::empty());
    let o = merged_runs(events);
    lemma_front(st, events, 0);
    assert(o.take(0) =~= Seq::<EventV>::empty());
    let none = Seq::<PieceV>::empty();
    assert(none + gist(o) =~= gist(o));
    assert(none + pending_gist(st) + gist(events) =~= gist(events));
    lemma_again(st, events, 0, o, st, none);
}

} // verus!
