//! Sharing out a translation among the spans and nodes that held its source.

use crate::chars::{
    append, blank, byte_len, byte_length, is_digit, is_whitespace, is_ws, str_eq, text_of,
    to_chars, trimmed,
};
use crate::docx::allocate::{allocate_plain_counts, allocated, nats, total_of};
use crate::freezer::{unfreeze_text, unfrozen};
use crate::ir::{clone_node, clone_span, FormatSpan, NodeV, SpanV, TextNodeRef};
use crate::sentinels::{
    bounds_ok, bounds_view, control_pieces, control_token, control_tokens,
    control_tokens_from_text, cut, find_tokens, has_token, is_control_token, joined,
    lemma_bounds_at, lemma_tokens_ok, split_by_control_sequence, tokens, TokenClass,
};
use crate::vecs::push_deep;
use vstd::prelude::*;

verus! {

/// A span and its part of a translation.
#[derive(Clone, Debug)]
pub struct SpanSlice {
    pub span: FormatSpan,
    pub text: String,
}

/// The model of a [`SpanSlice`].
#[verifier::ext_equal]
pub struct SliceV {
    pub span: SpanV,
    pub text: Seq<char>,
}

impl DeepView for SpanSlice {
    type V = SliceV;

    open spec fn deep_view(&self) -> SliceV {
        SliceV { span: self.span.deep_view(), text: self.text@ }
    }
}

/// Why a translation does not fit the spans of its source.
#[derive(Clone, Copy, Debug, PartialEq, Eq, Structural)]
pub enum ProjectError {
    /// The translation has other control markers than its source.
    ControlSequence,
    /// The translation falls into another number of parts than its source.
    PartCount,
    /// A control marker stands in place of another.
    ControlToken,
    /// There is text where the source has none.
    EmptyBlock,
    /// There are spans with text that the source does not account for.
    Coverage,
}

/// The length of a text in bytes, or 1 where it is empty.
pub open spec fn weight(s: Seq<char>) -> nat {
    if byte_len(s) > 1 {
        byte_len(s)
    } else {
        1
    }
}

pub fn weight_of(s: &str) -> (r: usize)
    ensures
        r == weight(s@),
{
    let n: usize = byte_length(s);
    if n > 1 {
        n
    } else {
        1
    }
}

/// The weights of spans.
pub open spec fn span_weights(spans: Seq<SpanV>) -> Seq<nat> {
    spans.map_values(|s: SpanV| weight(s.source_text))
}

/// The weights of nodes.
pub open spec fn node_weights(nodes: Seq<NodeV>) -> Seq<nat> {
    nodes.map_values(|n: NodeV| weight(n.original_text))
}

/// The characters of a text as texts of their own.
pub open spec fn singles(s: Seq<char>) -> Seq<Seq<char>> {
    s.map_values(|c: char| seq![c])
}

/// A text from `pos` on in units: its markers at `t`, and single characters.
pub open spec fn units_at(s: Seq<char>, t: Seq<(int, int)>, pos: int) -> Seq<Seq<char>>
    decreases t.len(),
{
    if t.len() == 0 {
        singles(s.subrange(pos, s.len() as int))
    } else {
        singles(s.subrange(pos, t[0].0)) + seq![s.subrange(t[0].0, t[0].1)] + units_at(
            s,
            t.drop_first(),
            t[0].1,
        )
    }
}

/// A text in units: its markers, and single characters.
pub open spec fn units_of(s: Seq<char>) -> Seq<Seq<char>> {
    units_at(s, tokens(TokenClass::Sentinel, s), 0)
}

/// Whether a unit is a marker.
pub open spec fn sentinel_unit(u: Seq<char>) -> bool {
    tokens(TokenClass::Sentinel, u).len() > 0
}

/// The number of units that are no markers.
pub open spec fn plain_count(units: Seq<Seq<char>>) -> nat
    decreases units.len(),
{
    if units.len() == 0 {
        0
    } else {
        plain_count(units.drop_last()) + if sentinel_unit(units.last()) {
            0nat
        } else {
            1
        }
    }
}

fn push_singles(out: &mut Vec<String>, v: &Vec<char>, from: usize, to: usize)
    requires
        from <= to <= v@.len(),
    ensures
        final(out).deep_view() == old(out).deep_view() + singles(
            v@.subrange(from as int, to as int),
        ),
{
    let ghost start = out.deep_view();
    let mut i: usize = from;
    assert(out.deep_view() =~= start + singles(v@.subrange(from as int, from as int)));
    while i < to
        invariant
            from <= i <= to <= v@.len(),
            out.deep_view() == start + singles(v@.subrange(from as int, i as int)),
        decreases to - i,
    {
        let ghost before = out.deep_view();
        push_deep(out, text_of(v, i, i + 1));
        assert(v@.subrange(i as int, i + 1) =~= seq![v@[i as int]]);
        i = i + 1;
        assert(start + singles(v@.subrange(from as int, i as int)) =~= before.push(
            seq![v@[i - 1]],
        ));
    }
}

fn unitize(text: &str) -> (r: Vec<String>)
    ensures
        r.deep_view() == units_of(text@),
{
    let v: Vec<char> = to_chars(text);
    let b: Vec<(usize, usize)> = find_tokens(TokenClass::Sentinel, &v);
    let ghost t = tokens(TokenClass::Sentinel, v@);
    proof {
        lemma_tokens_ok(TokenClass::Sentinel, v@, 0);
    }
    let mut out: Vec<String> = Vec::new();
    let mut pos: usize = 0;
    let mut k: usize = 0;
    assert(t.skip(0) =~= t);
    assert(out.deep_view() + units_at(v@, t.skip(0), 0) =~= units_of(v@));
    while k < b.len()
        invariant
            k <= b@.len(),
            t == bounds_view(b@),
            bounds_ok(t, 0, v@.len() as int),
            pos == cut(t, k as int),
            out.deep_view() + units_at(v@, t.skip(k as int), pos as int) == units_of(v@),
        decreases b@.len() - k,
    {
        let ghost before = out.deep_view();
        proof {
            lemma_bounds_at(t, 0, v@.len() as int, k as int);
            assert(t[k as int] == (b@[k as int].0 as int, b@[k as int].1 as int));
            assert(t.skip(k as int).drop_first() =~= t.skip(k + 1));
        }
        push_singles(&mut out, &v, pos, b[k].0);
        push_deep(&mut out, text_of(&v, b[k].0, b[k].1));
        proof {
            let rest = units_at(v@, t.skip(k + 1), t[k as int].1);
            assert(before + (singles(v@.subrange(pos as int, t[k as int].0)) + seq![
                v@.subrange(t[k as int].0, t[k as int].1),
            ] + rest) =~= out.deep_view() + rest);
        }
        pos = b[k].1;
        k = k + 1;
    }
    proof {
        lemma_bounds_at(t, 0, v@.len() as int, k as int);
        assert(t.skip(k as int) =~= Seq::<(int, int)>::empty());
    }
    push_singles(&mut out, &v, pos, v.len());
    out
}

fn count_plain_units(units: &Vec<String>) -> (r: usize)
    ensures
        r == plain_count(units.deep_view()),
{
    let ghost model = units.deep_view();
    let mut n: usize = 0;
    let mut i: usize = 0;
    assert(model.take(0) =~= Seq::<Seq<char>>::empty());
    while i < units.len()
        invariant
            i <= units@.len(),
            model == units.deep_view(),
            n == plain_count(model.take(i as int)),
            n <= i,
        decreases units@.len() - i,
    {
        assert(model.take(i + 1).drop_last() =~= model.take(i as int));
        if !has_token(TokenClass::Sentinel, units[i].as_str()) {
            n = n + 1;
        }
        i = i + 1;
    }
    assert(model.take(i as int) =~= model);
    n
}

/// The state of handing out units: the texts so far, the one that is being filled, and how many
/// units that are no markers it got.
#[verifier::ext_equal]
pub struct FillV {
    pub texts: Seq<Seq<char>>,
    pub cur: nat,
    pub plain: nat,
}

/// The state after one more unit. Once a text has its share, the next one is filled; the last takes
/// the rest.
pub open spec fn fill_step(desired: Seq<nat>, st: FillV, unit: Seq<char>) -> FillV {
    let texts = st.texts.update(st.cur as int, st.texts[st.cur as int] + unit);
    let plain = if sentinel_unit(unit) {
        st.plain
    } else {
        st.plain + 1
    };
    if st.cur + 1 < st.texts.len() && plain >= desired[st.cur as int] {
        FillV { texts, cur: st.cur + 1, plain: 0 }
    } else {
        FillV { texts, cur: st.cur, plain }
    }
}

/// The state after a sequence of units, which are handed out among `n` texts.
pub open spec fn fill_run(desired: Seq<nat>, n: nat, units: Seq<Seq<char>>) -> FillV
    decreases units.len(),
{
    if units.len() == 0 {
        FillV { texts: Seq::new(n, |i: int| Seq::<char>::empty()), cur: 0, plain: 0 }
    } else {
        fill_step(desired, fill_run(desired, n, units.drop_last()), units.last())
    }
}

/// A text shared out by weight.
pub open spec fn shared_text(text: Seq<char>, weights: Seq<nat>) -> Seq<Seq<char>> {
    let units = units_of(text);
    fill_run(allocated(plain_count(units), weights), weights.len(), units).texts
}

/// The number of spans, from the `i`-th on, that make up the first `need` bytes; `have` bytes are
/// there already.
pub open spec fn block_end(spans: Seq<SpanV>, i: nat, need: nat, have: nat) -> nat
    decreases spans.len() - i,
{
    if i >= spans.len() || have >= need {
        i
    } else {
        block_end(spans, i + 1, need, have + byte_len(spans[i as int].source_text))
    }
}

/// Spans with their texts, unfrozen.
pub open spec fn slices_of(
    spans: Seq<SpanV>,
    texts: Seq<Seq<char>>,
    nt_map: Seq<(Seq<char>, Seq<char>)>,
) -> Seq<SliceV> {
    Seq::new(
        spans.len(),
        |i: int| SliceV { span: spans[i], text: unfrozen(texts[i], nt_map) },
    )
}

/// Spans without text.
pub open spec fn empty_slices(spans: Seq<SpanV>) -> Seq<SliceV> {
    Seq::new(spans.len(), |i: int| SliceV { span: spans[i], text: Seq::empty() })
}

/// Whether a span among those from `i` on holds text that is not blank.
pub open spec fn text_left(spans: Seq<SpanV>, i: int) -> bool {
    exists|k: int|
        i <= k < spans.len() && trimmed((#[trigger] spans[k]).source_text).len() > 0
}

/// The slices for the parts from the `k`-th on, where the spans before the `i`-th have theirs.
pub open spec fn project_from(
    spans: Seq<SpanV>,
    src: Seq<Seq<char>>,
    tgt: Seq<Seq<char>>,
    nt_map: Seq<(Seq<char>, Seq<char>)>,
    k: nat,
    i: nat,
    out: Seq<SliceV>,
) -> Result<Seq<SliceV>, ProjectError>
    decreases src.len() - k,
{
    if k >= src.len() {
        if i < spans.len() && text_left(spans, i as int) {
            Err(ProjectError::Coverage)
        } else {
            Ok(out + empty_slices(spans.skip(i as int)))
        }
    } else {
        let s = src[k as int];
        let t = tgt[k as int];
        if control_token(s) {
            if s != t {
                Err(ProjectError::ControlToken)
            } else {
                project_from(spans, src, tgt, nt_map, k + 1, i, out)
            }
        } else {
            let j = block_end(spans, i, byte_len(s), 0);
            let block = spans.subrange(i as int, j as int);
            if block.len() == 0 {
                if trimmed(t).len() > 0 {
                    Err(ProjectError::EmptyBlock)
                } else {
                    project_from(spans, src, tgt, nt_map, k + 1, j, out)
                }
            } else {
                project_from(
                    spans,
                    src,
                    tgt,
                    nt_map,
                    k + 1,
                    j,
                    out + slices_of(block, shared_text(t, span_weights(block)), nt_map),
                )
            }
        }
    }
}

/// The slices of a translation: each part between control markers is shared out among the spans
/// that made up the part of the source in its place.
pub open spec fn projected(
    spans: Seq<SpanV>,
    source: Seq<char>,
    target: Seq<char>,
    nt_map: Seq<(Seq<char>, Seq<char>)>,
) -> Result<Seq<SliceV>, ProjectError> {
    if control_tokens(source) != control_tokens(target) {
        Err(ProjectError::ControlSequence)
    } else if control_pieces(source).len() != control_pieces(target).len() {
        Err(ProjectError::PartCount)
    } else {
        project_from(
            spans,
            control_pieces(source),
            control_pieces(target),
            nt_map,
            0,
            0,
            Seq::empty(),
        )
    }
}


proof fn lemma_fill_run(desired: Seq<nat>, n: nat, units: Seq<Seq<char>>)
    requires
        n > 0,
    ensures
        fill_run(desired, n, units).texts.len() == n,
        fill_run(desired, n, units).cur < n,
        fill_run(desired, n, units).plain <= units.len(),
        joined(fill_run(desired, n, units).texts) == joined(units),
        forall|i: int|
            fill_run(desired, n, units).cur < i < n ==> (#[trigger] fill_run(
                desired,
                n,
                units,
            ).texts[i]).len() == 0,
    decreases units.len(),
{
    let st = fill_run(desired, n, units);
    if units.len() == 0 {
        lemma_joined_blank(st.texts);
    } else {
        let before = fill_run(desired, n, units.drop_last());
        lemma_fill_run(desired, n, units.drop_last());
        lemma_joined_append(before.texts, before.cur as int, units.last());
        lemma_joined_push(units.drop_last(), units.last());
        assert(units.drop_last().push(units.last()) =~= units);
        assert forall|i: int| st.cur < i < n implies (#[trigger] st.texts[i]).len() == 0 by {
            assert(st.texts[i] == before.texts[i]);
        }
    }
}

proof fn lemma_joined_blank(t: Seq<Seq<char>>)
    requires
        forall|i: int| 0 <= i < t.len() ==> (#[trigger] t[i]).len() == 0,
    ensures
        joined(t) == Seq::<char>::empty(),
    decreases t.len(),
{
    if t.len() > 0 {
        assert forall|i: int| 0 <= i < t.drop_first().len() implies (#[trigger] t.drop_first()[i]).len()
            == 0 by {
            assert(t.drop_first()[i] == t[i + 1]);
        }
        lemma_joined_blank(t.drop_first());
        assert(t[0].len() == 0);
        assert(joined(t) =~= Seq::<char>::empty());
    }
}

/// Joining is additive.
pub proof fn lemma_joined_push(t: Seq<Seq<char>>, u: Seq<char>)
    ensures
        joined(t.push(u)) == joined(t) + u,
    decreases t.len(),
{
    let all = t.push(u);
    if t.len() == 0 {
        reveal_with_fuel(joined, 2);
        assert(all.drop_first() =~= Seq::<Seq<char>>::empty());
        assert(joined(all) =~= joined(t) + u);
    } else {
        lemma_joined_push(t.drop_first(), u);
        assert(all.drop_first() =~= t.drop_first().push(u));
        assert(joined(all) =~= joined(t) + u);
    }
}

proof fn lemma_joined_append(t: Seq<Seq<char>>, k: int, u: Seq<char>)
    requires
        0 <= k < t.len(),
        forall|i: int| k < i < t.len() ==> (#[trigger] t[i]).len() == 0,
    ensures
        joined(t.update(k, t[k] + u)) == joined(t) + u,
    decreases t.len(),
{
    let d = t.update(k, t[k] + u);
    if k == 0 {
        assert forall|i: int| 0 <= i < t.drop_first().len() implies (#[trigger] t.drop_first()[i]).len()
            == 0 by {
            assert(t.drop_first()[i] == t[i + 1]);
        }
        lemma_joined_blank(t.drop_first());
        assert(d.drop_first() =~= t.drop_first());
        assert(joined(d) =~= joined(t) + u);
    } else {
        assert forall|i: int| k - 1 < i < t.drop_first().len() implies (#[trigger] t.drop_first()[i]).len()
            == 0 by {
            assert(t.drop_first()[i] == t[i + 1]);
        }
        lemma_joined_append(t.drop_first(), k - 1, u);
        assert(d.drop_first() =~= t.drop_first().update(k - 1, t.drop_first()[k - 1] + u));
        assert(joined(d) =~= joined(t) + u);
    }
}

/// A shared text is all of the text, in order, whatever the weights.
pub proof fn law_shared_text(text: Seq<char>, weights: Seq<nat>)
    requires
        weights.len() > 0,
    ensures
        joined(shared_text(text, weights)) == text,
        shared_text(text, weights).len() == weights.len(),
{
    let units = units_of(text);
    lemma_fill_run(allocated(plain_count(units), weights), weights.len(), units);
    lemma_tokens_ok(TokenClass::Sentinel, text, 0);
    lemma_units_joined(text, tokens(TokenClass::Sentinel, text), 0);
    assert(text.subrange(0, text.len() as int) =~= text);
}

proof fn lemma_singles_joined(s: Seq<char>)
    ensures
        joined(singles(s)) == s,
    decreases s.len(),
{
    if s.len() == 0 {
        assert(joined(singles(s)) =~= s);
    } else {
        lemma_singles_joined(s.drop_first());
        assert(singles(s).drop_first() =~= singles(s.drop_first()));
        assert(joined(singles(s)) =~= s);
    }
}

/// Joining two sequences of texts one after another joins all of them.
pub proof fn lemma_joined_add(a: Seq<Seq<char>>, b: Seq<Seq<char>>)
    ensures
        joined(a + b) == joined(a) + joined(b),
    decreases a.len(),
{
    if a.len() == 0 {
        assert(a + b =~= b);
        assert(joined(a) + joined(b) =~= joined(b));
    } else {
        lemma_joined_add(a.drop_first(), b);
        assert((a + b).drop_first() =~= a.drop_first() + b);
        assert(joined(a + b) =~= joined(a) + joined(b));
    }
}

proof fn lemma_units_joined(s: Seq<char>, t: Seq<(int, int)>, pos: int)
    requires
        bounds_ok(t, pos, s.len() as int),
        0 <= pos,
    ensures
        joined(units_at(s, t, pos)) == s.subrange(pos, s.len() as int),
    decreases t.len(),
{
    lemma_bounds_at(t, pos, s.len() as int, 0);
    if t.len() == 0 {
        lemma_singles_joined(s.subrange(pos, s.len() as int));
    } else {
        let a = s.subrange(pos, t[0].0);
        let b = s.subrange(t[0].0, t[0].1);
        let rest = units_at(s, t.drop_first(), t[0].1);
        lemma_units_joined(s, t.drop_first(), t[0].1);
        lemma_bounds_at(t, pos, s.len() as int, 1);
        lemma_singles_joined(a);
        lemma_joined_push(singles(a), b);
        lemma_joined_add(singles(a).push(b), rest);
        assert(singles(a) + seq![b] =~= singles(a).push(b));
        assert(a + b + s.subrange(t[0].1, s.len() as int) =~= s.subrange(pos, s.len() as int));
    }
}

fn empty_texts(n: usize) -> (r: Vec<String>)
    ensures
        r.deep_view() == Seq::new(n as nat, |i: int| Seq::<char>::empty()),
{
    let mut out: Vec<String> = Vec::new();
    let mut i: usize = 0;
    assert(out.deep_view() =~= Seq::new(0, |i: int| Seq::<char>::empty()));
    while i < n
        invariant
            i <= n,
            out.deep_view() == Seq::new(i as nat, |i: int| Seq::<char>::empty()),
        decreases n - i,
    {
        push_deep(&mut out, String::new());
        i = i + 1;
        assert(out.deep_view() =~= Seq::new(i as nat, |i: int| Seq::<char>::empty()));
    }
    out
}

proof fn lemma_plain_bound(units: Seq<Seq<char>>)
    ensures
        plain_count(units) <= units.len(),
    decreases units.len(),
{
    if units.len() > 0 {
        lemma_plain_bound(units.drop_last());
    }
}

proof fn lemma_units_len(s: Seq<char>, t: Seq<(int, int)>, pos: int)
    requires
        bounds_ok(t, pos, s.len() as int),
        0 <= pos,
    ensures
        units_at(s, t, pos).len() <= s.len() - pos,
    decreases t.len(),
{
    lemma_bounds_at(t, pos, s.len() as int, 0);
    if t.len() > 0 {
        lemma_units_len(s, t.drop_first(), t[0].1);
    }
}

/// Shares out a text by weight.
fn share_text(text: &str, weights: &Vec<u64>) -> (r: Vec<String>)
    requires
        weights@.len() > 0,
        text@.len() < 0x20_0000_0000_0000,
        total_of(nats(weights@)) < 0x20_0000_0000_0000,
    ensures
        r.deep_view() == shared_text(text@, nats(weights@)),
        r@.len() == weights@.len(),
{
    let units: Vec<String> = unitize(text);
    let ghost model = units.deep_view();
    let total: usize = count_plain_units(&units);
    proof {
        lemma_plain_bound(model);
        lemma_tokens_ok(TokenClass::Sentinel, text@, 0);
        lemma_units_len(text@, tokens(TokenClass::Sentinel, text@), 0);
    }
    let desired: Vec<u64> = allocate_plain_counts(total as u64, weights);
    let ghost want = nats(desired@);
    let n: usize = weights.len();
    let mut texts: Vec<String> = empty_texts(n);
    let mut cur: usize = 0;
    let mut plain: u64 = 0;
    let mut i: usize = 0;
    assert(model.take(0) =~= Seq::<Seq<char>>::empty());
    while i < units.len()
        invariant
            i <= units@.len(),
            model == units.deep_view(),
            want == nats(desired@),
            n == desired@.len(),
            n > 0,
            units@.len() < 0x20_0000_0000_0000,
            texts.deep_view() == fill_run(want, n as nat, model.take(i as int)).texts,
            cur == fill_run(want, n as nat, model.take(i as int)).cur,
            plain == fill_run(want, n as nat, model.take(i as int)).plain,
        decreases units@.len() - i,
    {
        let ghost st = fill_run(want, n as nat, model.take(i as int));
        proof {
            lemma_fill_run(want, n as nat, model.take(i as int));
            assert(model.take(i + 1).drop_last() =~= model.take(i as int));
            assert(texts.deep_view().len() == texts@.len());
            assert(model[i as int] == units@[i as int]@);
        }
        append(&mut texts[cur], units[i].as_str());
        assert(texts.deep_view() =~= st.texts.update(
            cur as int,
            st.texts[cur as int] + model[i as int],
        ));
        if !has_token(TokenClass::Sentinel, units[i].as_str()) {
            plain = plain + 1;
        }
        assert(want[cur as int] == desired@[cur as int]);
        if cur + 1 < n && plain >= desired[cur] {
            cur = cur + 1;
            plain = 0;
        }
        i = i + 1;
    }
    assert(model.take(i as int) =~= model);
    proof {
        lemma_fill_run(want, n as nat, model);
        assert(texts.deep_view().len() == texts@.len());
    }
    texts
}

pub(crate) proof fn lemma_block_end(spans: Seq<SpanV>, i: nat, need: nat, have: nat)
    requires
        i <= spans.len(),
    ensures
        i <= block_end(spans, i, need, have) <= spans.len(),
    decreases spans.len() - i,
{
    if i < spans.len() && have < need {
        lemma_block_end(spans, i + 1, need, have + byte_len(spans[i as int].source_text));
    }
}

fn find_block_end(spans: &Vec<FormatSpan>, from: usize, need: usize) -> (r: usize)
    requires
        from <= spans@.len(),
    ensures
        r == block_end(spans.deep_view(), from as nat, need as nat, 0),
        from <= r <= spans@.len(),
{
    let ghost model = spans.deep_view();
    let mut i: usize = from;
    let mut have: u128 = 0;
    while i < spans.len() && have < need as u128
        invariant
            from <= i <= spans@.len(),
            model == spans.deep_view(),
            have <= 2 * 0xffff_ffff_ffff_ffff,
            block_end(model, i as nat, need as nat, have as nat) == block_end(
                model,
                from as nat,
                need as nat,
                0,
            ),
        decreases spans@.len() - i,
    {
        assert(model[i as int] == spans@[i as int].deep_view());
        have = have + byte_length(spans[i].source_text.as_str()) as u128;
        i = i + 1;
    }
    i
}

/// The weights of the spans `spans[from..to]`.
fn weights_between(spans: &Vec<FormatSpan>, from: usize, to: usize) -> (r: Vec<u64>)
    requires
        from <= to <= spans@.len(),
    ensures
        nats(r@) == span_weights(spans.deep_view().subrange(from as int, to as int)),
        r@.len() == to - from,
{
    let ghost model = spans.deep_view();
    let mut out: Vec<u64> = Vec::new();
    let mut i: usize = from;
    assert(nats(out@) =~= span_weights(model.subrange(from as int, from as int)));
    while i < to
        invariant
            from <= i <= to <= spans@.len(),
            model == spans.deep_view(),
            nats(out@) == span_weights(model.subrange(from as int, i as int)),
            out@.len() == i - from,
        decreases to - i,
    {
        let ghost before = nats(out@);
        let w: usize = weight_of(spans[i].source_text.as_str());
        out.push(w as u64);
        i = i + 1;
        proof {
            assert(model[i - 1] == spans@[i - 1].deep_view());
            assert(nats(out@) =~= before.push(w as nat));
            assert(span_weights(model.subrange(from as int, i as int)) =~= span_weights(
                model.subrange(from as int, i - 1),
            ).push(weight(model[i - 1].source_text)));
        }
    }
    out
}

proof fn lemma_weights_part(w: Seq<nat>, a: int, b: int)
    requires
        0 <= a <= b <= w.len(),
    ensures
        total_of(w.subrange(a, b)) <= total_of(w),
    decreases w.len(),
{
    if b < w.len() {
        lemma_weights_part(w.drop_last(), a, b);
        assert(w.drop_last().subrange(a, b) =~= w.subrange(a, b));
    } else if a < b {
        lemma_weights_part(w.drop_last(), a, b - 1);
        assert(w.subrange(a, b).drop_last() =~= w.drop_last().subrange(a, b - 1));
    } else {
        assert(w.subrange(a, b) =~= Seq::<nat>::empty());
    }
}

fn push_slices(
    out: &mut Vec<SpanSlice>,
    spans: &Vec<FormatSpan>,
    from: usize,
    to: usize,
    texts: &Vec<String>,
    nt_map: &Vec<(String, String)>,
)
    requires
        from <= to <= spans@.len(),
        texts@.len() == to - from,
    ensures
        final(out).deep_view() == old(out).deep_view() + slices_of(
            spans.deep_view().subrange(from as int, to as int),
            texts.deep_view(),
            nt_map.deep_view(),
        ),
{
    let ghost start = out.deep_view();
    let ghost block = spans.deep_view().subrange(from as int, to as int);
    let ghost all = slices_of(block, texts.deep_view(), nt_map.deep_view());
    let mut i: usize = from;
    assert(out.deep_view() =~= start + all.take(0));
    while i < to
        invariant
            from <= i <= to <= spans@.len(),
            texts@.len() == to - from,
            block == spans.deep_view().subrange(from as int, to as int),
            all == slices_of(block, texts.deep_view(), nt_map.deep_view()),
            out.deep_view() == start + all.take(i - from),
        decreases to - i,
    {
        let ghost before = out.deep_view();
        let text: String = unfreeze_text(texts[i - from].as_str(), nt_map);
        push_deep(out, SpanSlice { span: clone_span(&spans[i]), text });
        i = i + 1;
        proof {
            let k = i - 1 - from;
            assert(block[k] == spans@[i - 1].deep_view());
            assert(texts.deep_view()[k] == texts@[k]@);
            assert(start + all.take(k + 1) =~= before.push(all[k]));
        }
    }
    assert(all.take(to - from) =~= all);
}

fn same_texts(a: &Vec<String>, b: &Vec<String>) -> (r: bool)
    ensures
        r == (a.deep_view() == b.deep_view()),
{
    if a.len() != b.len() {
        assert(a.deep_view().len() != b.deep_view().len());
        return false;
    }
    let mut i: usize = 0;
    while i < a.len()
        invariant
            i <= a@.len() == b@.len(),
            forall|j: int| 0 <= j < i ==> #[trigger] a.deep_view()[j] == b.deep_view()[j],
        decreases a@.len() - i,
    {
        if !str_eq(a[i].as_str(), b[i].as_str()) {
            assert(a.deep_view()[i as int] != b.deep_view()[i as int]);
            return false;
        }
        i = i + 1;
    }
    assert(a.deep_view() =~= b.deep_view());
    true
}

fn any_text_left(spans: &Vec<FormatSpan>, from: usize) -> (r: bool)
    requires
        from <= spans@.len(),
    ensures
        r == text_left(spans.deep_view(), from as int),
{
    let ghost model = spans.deep_view();
    let mut i: usize = from;
    while i < spans.len()
        invariant
            from <= i <= spans@.len(),
            model == spans.deep_view(),
            forall|k: int|
                from <= k < i ==> trimmed((#[trigger] model[k]).source_text).len() == 0,
        decreases spans@.len() - i,
    {
        assert(model[i as int] == spans@[i as int].deep_view());
        if !blank(spans[i].source_text.as_str()) {
            return true;
        }
        i = i + 1;
    }
    false
}

/// Shares out a translation among the spans of its source: each part between control markers goes
/// to the spans that made up the part of the source in its place, by the length of their texts.
pub fn project_translation_to_spans(
    spans: &Vec<FormatSpan>,
    source_surface: &str,
    target_surface: &str,
    nt_map: &Vec<(String, String)>,
) -> (r: Result<Vec<SpanSlice>, ProjectError>)
    requires
        byte_len(target_surface@) < 0x20_0000_0000_0000,
        total_of(span_weights(spans.deep_view())) < 0x20_0000_0000_0000,
    ensures
        match r {
            Ok(v) => projected(
                spans.deep_view(),
                source_surface@,
                target_surface@,
                nt_map.deep_view(),
            ) == Ok::<_, ProjectError>(v.deep_view()),
            Err(e) => projected(
                spans.deep_view(),
                source_surface@,
                target_surface@,
                nt_map.deep_view(),
            ) == Err::<Seq<SliceV>, _>(e),
        },
{
    let ghost model = spans.deep_view();
    let ghost map = nt_map.deep_view();
    let a: Vec<String> = control_tokens_from_text(source_surface);
    let b: Vec<String> = control_tokens_from_text(target_surface);
    if !same_texts(&a, &b) {
        return Err(ProjectError::ControlSequence);
    }
    let src: Vec<String> = split_by_control_sequence(source_surface);
    let tgt: Vec<String> = split_by_control_sequence(target_surface);
    let ghost s = src.deep_view();
    let ghost t = tgt.deep_view();
    if src.len() != tgt.len() {
        return Err(ProjectError::PartCount);
    }
    let mut out: Vec<SpanSlice> = Vec::new();
    let mut i: usize = 0;
    let mut k: usize = 0;
    assert(out.deep_view() =~= Seq::<SliceV>::empty());
    while k < src.len()
        invariant
            k <= src@.len() == tgt@.len(),
            i <= spans@.len(),
            model == spans.deep_view(),
            map == nt_map.deep_view(),
            s == src.deep_view(),
            t == tgt.deep_view(),
            t == control_pieces(target_surface@),
            byte_len(target_surface@) < 0x20_0000_0000_0000,
            total_of(span_weights(model)) < 0x20_0000_0000_0000,
            project_from(model, s, t, map, k as nat, i as nat, out.deep_view()) == projected(
                model,
                source_surface@,
                target_surface@,
                map,
            ),
        decreases src@.len() - k,
    {
        let sp: &str = src[k].as_str();
        let tp: &str = tgt[k].as_str();
        assert(s[k as int] == sp@);
        assert(t[k as int] == tp@);
        if is_control_token(sp) {
            if !str_eq(sp, tp) {
                return Err(ProjectError::ControlToken);
            }
        } else {
            let j: usize = find_block_end(spans, i, byte_length(sp));
            let ghost block = model.subrange(i as int, j as int);
            if j == i {
                if !blank(tp) {
                    return Err(ProjectError::EmptyBlock);
                }
            } else {
                let weights: Vec<u64> = weights_between(spans, i, j);
                proof {
                    lemma_weights_part(span_weights(model), i as int, j as int);
                    assert(span_weights(block) =~= span_weights(model).subrange(i as int, j as int));
                    lemma_piece_len(target_surface@, k as int);
                }
                let texts: Vec<String> = share_text(tp, &weights);
                push_slices(&mut out, spans, i, j, &texts, nt_map);
            }
            i = j;
        }
        k = k + 1;
    }
    if i < spans.len() {
        if any_text_left(spans, i) {
            return Err(ProjectError::Coverage);
        }
    }
    let ghost all = empty_slices(model.skip(i as int));
    let ghost start = out.deep_view();
    let ghost from = i;
    assert(start + all.take(0) =~= start);
    while i < spans.len()
        invariant
            from <= i <= spans@.len(),
            model == spans.deep_view(),
            all == empty_slices(model.skip(from as int)),
            out.deep_view() == start + all.take(i - from),
        decreases spans@.len() - i,
    {
        let ghost before = out.deep_view();
        push_deep(&mut out, SpanSlice { span: clone_span(&spans[i]), text: String::new() });
        i = i + 1;
        proof {
            let n = i - 1 - from;
            assert(model.skip(from as int)[n] == spans@[i - 1].deep_view());
            assert(start + all.take(n + 1) =~= before.push(all[n]));
        }
    }
    assert(all.take(spans@.len() - from) =~= all);
    Ok(out)
}

/// A piece of a text is no longer than the text.
proof fn lemma_piece_len(s: Seq<char>, k: int)
    requires
        0 <= k < control_pieces(s).len(),
    ensures
        control_pieces(s)[k].len() <= byte_len(s),
{
    crate::sentinels::law_control_pieces(s);
    lemma_joined_item(control_pieces(s), k);
    crate::chars::lemma_byte_len(s, Seq::empty());
}

proof fn lemma_joined_item(p: Seq<Seq<char>>, k: int)
    requires
        0 <= k < p.len(),
    ensures
        p[k].len() <= joined(p).len(),
    decreases p.len(),
{
    if k > 0 {
        lemma_joined_item(p.drop_first(), k - 1);
        assert(p.drop_first()[k - 1] == p[k]);
    }
}


pub open spec fn ascii_word_char(c: char) -> bool {
    'A' <= c <= 'Z' || 'a' <= c <= 'z' || is_digit(c)
}

fn is_ascii_word_char(c: char) -> (r: bool)
    ensures
        r == ascii_word_char(c),
{
    (c >= 'A' && c <= 'Z') || (c >= 'a' && c <= 'z') || (c >= '0' && c <= '9')
}

/// Whether a boundary does not part an ASCII word or number.
pub open spec fn boundary_ok(s: Seq<char>, pos: int) -> bool {
    pos <= 0 || pos >= s.len() || !(ascii_word_char(s[pos - 1]) && ascii_word_char(s[pos]))
}

/// Whether a boundary is beside white space, or at an end.
pub open spec fn boundary_white(s: Seq<char>, pos: int) -> bool {
    pos <= 0 || pos >= s.len() || is_ws(s[pos - 1]) || is_ws(s[pos])
}

/// How far two positions are apart.
pub open spec fn distance(a: int, b: int) -> int {
    if a < b {
        b - a
    } else {
        a - b
    }
}

/// A candidate for a boundary.
#[verifier::ext_equal]
pub struct CandidateV {
    pub at: int,
    pub white: bool,
}

/// Whether the boundary `at` is to be taken in place of the best so far: it is nearer, or as near
/// and beside white space where the other is not.
pub open spec fn better(s: Seq<char>, orig: int, at: int, best: Option<CandidateV>) -> bool {
    match best {
        None => true,
        Some(b) => distance(orig, at) < distance(orig, b.at) || (distance(orig, at) == distance(
            orig,
            b.at,
        ) && boundary_white(s, at) && !b.white),
    }
}

/// The best boundary among those from `at` to `end` that are not before `prev`.
pub open spec fn best_from(
    s: Seq<char>,
    orig: int,
    prev: int,
    at: int,
    end: int,
    best: Option<CandidateV>,
) -> Option<CandidateV>
    decreases end + 1 - at,
{
    if at > end {
        best
    } else if at < prev || !boundary_ok(s, at) || !better(s, orig, at, best) {
        best_from(s, orig, prev, at + 1, end, best)
    } else {
        best_from(
            s,
            orig,
            prev,
            at + 1,
            end,
            Some(CandidateV { at, white: boundary_white(s, at) }),
        )
    }
}

/// The first position that a boundary may be moved to.
pub open spec fn window_start(orig: int) -> int {
    if orig >= 12 {
        orig - 12
    } else {
        0
    }
}

/// The last position that a boundary may be moved to.
pub open spec fn window_end(orig: int, n: int) -> int {
    if orig + 12 <= n {
        orig + 12
    } else {
        n
    }
}

/// A boundary moved by at most twelve characters, not before `prev`, so as not to part an ASCII word
/// or number.
pub open spec fn smoothed(s: Seq<char>, orig: int, prev: int) -> int {
    match best_from(
        s,
        orig,
        prev,
        window_start(orig),
        window_end(orig, s.len() as int),
        None,
    ) {
        Some(b) => b.at,
        None => orig,
    }
}

/// The `k`-th boundary by weight alone.
pub open spec fn raw_boundary(desired: Seq<nat>, n: nat, k: int) -> nat
    decreases k + 1,
{
    if k < 0 {
        0
    } else {
        let p = raw_boundary(desired, n, k - 1) + desired[k];
        if p < n {
            p
        } else {
            n
        }
    }
}

/// The `k`-th boundary.
pub open spec fn boundary(s: Seq<char>, desired: Seq<nat>, k: int) -> int
    decreases k + 1,
{
    if k < 0 {
        0
    } else {
        smoothed(s, raw_boundary(desired, s.len(), k) as int, boundary(s, desired, k - 1))
    }
}

/// The end of the piece for the `k`-th of `n` nodes.
pub open spec fn piece_end(s: Seq<char>, desired: Seq<nat>, n: nat, k: int) -> int {
    if k < n - 1 {
        boundary(s, desired, k)
    } else {
        s.len() as int
    }
}

/// The pieces of a text for nodes of the given weights.
pub open spec fn node_pieces(s: Seq<char>, weights: Seq<nat>) -> Seq<Seq<char>> {
    let desired = allocated(s.len(), weights);
    if weights.len() == 1 {
        seq![s]
    } else {
        Seq::new(
            weights.len(),
            |k: int|
                s.subrange(
                    if k > 0 {
                        piece_end(s, desired, weights.len(), k - 1)
                    } else {
                        0
                    },
                    piece_end(s, desired, weights.len(), k),
                ),
        )
    }
}

proof fn lemma_best_from(
    s: Seq<char>,
    orig: int,
    prev: int,
    at: int,
    end: int,
    best: Option<CandidateV>,
)
    requires
        best matches Some(b) ==> prev <= b.at <= end && boundary_ok(s, b.at),
    ensures
        best_from(s, orig, prev, at, end, best) matches Some(b) ==> prev <= b.at <= end
            && boundary_ok(s, b.at),
        best is Some ==> best_from(s, orig, prev, at, end, best) is Some,
        at <= prev <= end && boundary_ok(s, prev) ==> best_from(s, orig, prev, at, end, best) is Some,
    decreases end + 1 - at,
{
    if at <= end {
        if at < prev || !boundary_ok(s, at) || !better(s, orig, at, best) {
            lemma_best_from(s, orig, prev, at + 1, end, best);
        } else {
            let b = Some(CandidateV { at, white: boundary_white(s, at) });
            lemma_best_from(s, orig, prev, at + 1, end, b);
        }
    }
}

proof fn lemma_smoothed(s: Seq<char>, orig: int, prev: int)
    requires
        0 <= orig <= s.len(),
        0 <= prev <= s.len(),
        prev <= orig || (boundary_ok(s, prev) && prev <= orig + 12),
    ensures
        prev <= smoothed(s, orig, prev) <= s.len(),
        smoothed(s, orig, prev) <= orig || (boundary_ok(s, smoothed(s, orig, prev)) && smoothed(
            s,
            orig,
            prev,
        ) <= orig + 12),
{
    lemma_best_from(
        s,
        orig,
        prev,
        window_start(orig),
        window_end(orig, s.len() as int),
        None,
    );
}

proof fn lemma_boundaries(s: Seq<char>, desired: Seq<nat>, k: int)
    requires
        0 <= k,
    ensures
        raw_boundary(desired, s.len(), k - 1) <= raw_boundary(desired, s.len(), k) <= s.len(),
        0 <= boundary(s, desired, k - 1) <= boundary(s, desired, k) <= s.len(),
        boundary(s, desired, k) <= raw_boundary(desired, s.len(), k) || (boundary_ok(
            s,
            boundary(s, desired, k),
        ) && boundary(s, desired, k) <= raw_boundary(desired, s.len(), k) + 12),
    decreases k,
{
    if k > 0 {
        lemma_boundaries(s, desired, k - 1);
    }
    lemma_smoothed(s, raw_boundary(desired, s.len(), k) as int, boundary(s, desired, k - 1));
}

fn smooth_boundary(v: &Vec<char>, orig: usize, prev: usize) -> (r: usize)
    requires
        orig <= v@.len(),
        prev <= v@.len(),
        prev <= orig || (boundary_ok(v@, prev as int) && prev <= orig + 12),
    ensures
        r == smoothed(v@, orig as int, prev as int),
        prev <= r <= v@.len(),
{
    let n: usize = v.len();
    let start: usize = if orig >= 12 {
        orig - 12
    } else {
        0
    };
    let end: usize = if n - orig >= 12 {
        orig + 12
    } else {
        n
    };
    let ghost o = orig as int;
    let ghost p = prev as int;
    let mut found: bool = false;
    let mut best: usize = orig;
    let mut best_white: bool = false;
    let mut at: usize = start;
    let mut done: bool = false;
    proof {
        lemma_smoothed(v@, o, p);
    }
    let ghost mut cand: Option<CandidateV> = None;
    while !done
        invariant
            n == v@.len(),
            o == orig,
            p == prev,
            orig <= n,
            end == window_end(o, n as int),
            start <= at,
            done ==> at == end,
            at <= end,
            cand == if found {
                Some(CandidateV { at: best as int, white: best_white })
            } else {
                None
            },
            !found ==> best == orig,
            best <= n,
            end <= n,
            best_from(
                v@,
                o,
                p,
                if done {
                    at + 1
                } else {
                    at as int
                },
                end as int,
                cand,
            ) == best_from(v@, o, p, window_start(o), window_end(o, n as int), None),
        decreases
                end - at + if done {
                    0int
                } else {
                    1
                },
    {
        let ok: bool = at == 0 || at >= n || !(is_ascii_word_char(v[at - 1]) && is_ascii_word_char(
            v[at],
        ));
        if at >= prev && ok {
            let white: bool = at == 0 || at >= n || is_whitespace(v[at - 1]) || is_whitespace(v[at]);
            let d: usize = if at < orig {
                orig - at
            } else {
                at - orig
            };
            let bd: usize = if best < orig {
                orig - best
            } else {
                best - orig
            };
            if !found || d < bd || (d == bd && white && !best_white) {
                found = true;
                best = at;
                best_white = white;
                proof {
                    cand = Some(CandidateV { at: at as int, white });
                }
            }
        }
        if at == end {
            done = true;
        } else {
            at = at + 1;
        }
    }
    best
}

/// The weights of nodes.
fn weights_of_nodes(nodes: &Vec<TextNodeRef>) -> (r: Vec<u64>)
    ensures
        nats(r@) == node_weights(nodes.deep_view()),
        r@.len() == nodes@.len(),
{
    let ghost model = nodes.deep_view();
    let mut out: Vec<u64> = Vec::new();
    let mut i: usize = 0;
    assert(nats(out@) =~= node_weights(model.take(0)));
    while i < nodes.len()
        invariant
            i <= nodes@.len(),
            model == nodes.deep_view(),
            nats(out@) == node_weights(model.take(i as int)),
            out@.len() == i,
        decreases nodes@.len() - i,
    {
        let ghost before = nats(out@);
        let w: usize = weight_of(nodes[i].original_text.as_str());
        out.push(w as u64);
        i = i + 1;
        proof {
            assert(model[i - 1] == nodes@[i - 1].deep_view());
            assert(nats(out@) =~= before.push(w as nat));
            assert(node_weights(model.take(i as int)) =~= node_weights(model.take(i - 1)).push(
                weight(model[i - 1].original_text),
            ));
        }
    }
    assert(model.take(i as int) =~= model);
    out
}

/// Nodes with their pieces of a text.
pub open spec fn distributed(span: SpanV, text: Seq<char>) -> Seq<(NodeV, Seq<char>)> {
    let pieces = node_pieces(text, node_weights(span.node_refs));
    Seq::new(span.node_refs.len(), |k: int| (span.node_refs[k], pieces[k]))
}

/// Shares out the text of a span among its nodes by the length of their texts, without parting ASCII
/// words and numbers where that can be helped.
pub fn distribute_span_text_to_nodes(span: &FormatSpan, text: &str) -> (r: Vec<
    (TextNodeRef, String),
>)
    requires
        byte_len(text@) < 0x20_0000_0000_0000,
        total_of(node_weights(span.deep_view().node_refs)) < 0x20_0000_0000_0000,
    ensures
        r.deep_view() == distributed(span.deep_view(), text@),
{
    let ghost want = distributed(span.deep_view(), text@);
    let ghost nodes = span.node_refs.deep_view();
    let n: usize = span.node_refs.len();
    let mut out: Vec<(TextNodeRef, String)> = Vec::new();
    if n == 0 {
        assert(out.deep_view() =~= want);
        return out;
    }
    if n == 1 {
        push_deep(&mut out, (clone_node(&span.node_refs[0]), crate::chars::owned(text)));
        assert(nodes[0] == span.node_refs@[0].deep_view());
        assert(out.deep_view() =~= want);
        return out;
    }
    let weights: Vec<u64> = weights_of_nodes(&span.node_refs);
    let v: Vec<char> = to_chars(text);
    proof {
        crate::chars::lemma_byte_len(text@, Seq::empty());
    }
    let desired: Vec<u64> = allocate_plain_counts(v.len() as u64, &weights);
    let ghost d = nats(desired@);
    let len: usize = v.len();
    let mut raw: usize = 0;
    let mut prev: usize = 0;
    let mut k: usize = 0;
    assert(out.deep_view() =~= want.take(0));
    while k < n
        invariant
            k <= n == span.node_refs@.len() == desired@.len(),
            n >= 2,
            len == v@.len(),
            v@ == text@,
            nodes == span.node_refs.deep_view(),
            d == nats(desired@),
            d == allocated(text@.len(), node_weights(nodes)),
            want == distributed(span.deep_view(), text@),
            raw == raw_boundary(d, text@.len(), if k < n {
                k - 1
            } else {
                n - 2
            }),
            raw <= len,
            prev == if k < n {
                boundary(text@, d, k - 1)
            } else {
                len as int
            },
            prev <= len,
            out.deep_view() == want.take(k as int),
        decreases n - k,
    {
        let end: usize = if k < n - 1 {
            proof {
                lemma_boundaries(text@, d, k as int);
                if k > 0 {
                    lemma_boundaries(text@, d, k - 1);
                }
                assert(d[k as int] == desired@[k as int]);
            }
            let step: u64 = desired[k];
            raw =
            if step >= (len - raw) as u64 {
                len
            } else {
                raw + step as usize
            };
            smooth_boundary(&v, raw, prev)
        } else {
            len
        };
        proof {
            assert(nodes[k as int] == span.node_refs@[k as int].deep_view());
            assert(want[k as int] == (nodes[k as int], text@.subrange(prev as int, end as int)));
        }
        push_deep(&mut out, (clone_node(&span.node_refs[k]), text_of(&v, prev, end)));
        prev = end;
        k = k + 1;
        assert(want.take(k as int) =~= want.take(k - 1).push(want[k - 1]));
    }
    assert(want.take(k as int) =~= want);
    out
}

proof fn lemma_node_pieces(s: Seq<char>, desired: Seq<nat>, n: nat, k: int)
    requires
        0 <= k < n,
    ensures
        ({
            let from = if k > 0 {
                piece_end(s, desired, n, k - 1)
            } else {
                0
            };
            0 <= from <= piece_end(s, desired, n, k) <= s.len()
        }),
{
    lemma_boundaries(s, desired, k);
    if k > 0 {
        lemma_boundaries(s, desired, k - 1);
    }
}

proof fn lemma_pieces_joined(s: Seq<char>, desired: Seq<nat>, n: nat, k: int)
    requires
        0 <= k <= n,
        0 < n,
    ensures
        joined(
            Seq::new(
                n,
                |k: int|
                    s.subrange(
                        if k > 0 {
                            piece_end(s, desired, n, k - 1)
                        } else {
                            0
                        },
                        piece_end(s, desired, n, k),
                    ),
            ).take(k),
        ) == s.take(
            if k > 0 {
                piece_end(s, desired, n, k - 1)
            } else {
                0
            },
        ),
    decreases k,
{
    let p = Seq::new(
        n,
        |k: int|
            s.subrange(
                if k > 0 {
                    piece_end(s, desired, n, k - 1)
                } else {
                    0
                },
                piece_end(s, desired, n, k),
            ),
    );
    if k == 0 {
        assert(p.take(0) =~= Seq::<Seq<char>>::empty());
        assert(s.take(0) =~= Seq::<char>::empty());
    } else {
        lemma_pieces_joined(s, desired, n, k - 1);
        lemma_node_pieces(s, desired, n, k - 1);
        assert(p.take(k) =~= p.take(k - 1).push(p[k - 1]));
        lemma_joined_push(p.take(k - 1), p[k - 1]);
        let from = if k > 1 {
            piece_end(s, desired, n, k - 2)
        } else {
            0
        };
        assert(s.take(from) + s.subrange(from, piece_end(s, desired, n, k - 1)) =~= s.take(
            piece_end(s, desired, n, k - 1),
        ));
    }
}

/// The pieces of a text that go to nodes make up the text, whatever the weights.
pub proof fn law_node_pieces(s: Seq<char>, weights: Seq<nat>)
    requires
        weights.len() > 0,
    ensures
        joined(node_pieces(s, weights)) == s,
        node_pieces(s, weights).len() == weights.len(),
{
    let desired = allocated(s.len(), weights);
    let n = weights.len();
    if n == 1 {
        reveal_with_fuel(joined, 2);
        assert(node_pieces(s, weights).drop_first() =~= Seq::<Seq<char>>::empty());
        assert(joined(node_pieces(s, weights)) =~= s);
    } else {
        lemma_pieces_joined(s, desired, n, n as int);
        assert(node_pieces(s, weights).take(n as int) =~= node_pieces(s, weights));
        assert(s.take(s.len() as int) =~= s);
    }
}


proof fn lemma_project_from(
    spans: Seq<SpanV>,
    src: Seq<Seq<char>>,
    tgt: Seq<Seq<char>>,
    nt_map: Seq<(Seq<char>, Seq<char>)>,
    k: nat,
    i: nat,
    out: Seq<SliceV>,
)
    requires
        i <= spans.len(),
        out.len() == i,
        forall|j: int| 0 <= j < i ==> (#[trigger] out[j]).span == spans[j],
    ensures
        project_from(spans, src, tgt, nt_map, k, i, out) matches Ok(r) ==> r.len() == spans.len() && (
        forall|j: int| 0 <= j < r.len() ==> (#[trigger] r[j]).span == spans[j]),
    decreases src.len() - k,
{
    if k < src.len() {
        let s = src[k as int];
        let t = tgt[k as int];
        if control_token(s) {
            lemma_project_from(spans, src, tgt, nt_map, k + 1, i, out);
        } else {
            lemma_block_end(spans, i, byte_len(s), 0);
            let j = block_end(spans, i, byte_len(s), 0);
            let block = spans.subrange(i as int, j as int);
            if block.len() == 0 {
                lemma_project_from(spans, src, tgt, nt_map, k + 1, j, out);
            } else {
                let more = slices_of(block, shared_text(t, span_weights(block)), nt_map);
                assert forall|x: int| 0 <= x < (out + more).len() implies (#[trigger] (out
                    + more)[x]).span == spans[x] by {
                    if x >= out.len() {
                        assert((out + more)[x] == more[x - out.len()]);
                        assert(block[x - i] == spans[x]);
                    }
                }
                lemma_project_from(spans, src, tgt, nt_map, k + 1, j, out + more);
            }
        }
    }
}

/// A translation that fits is shared out among all spans, one slice for each and in their order.
pub proof fn law_projected_spans(
    spans: Seq<SpanV>,
    source: Seq<char>,
    target: Seq<char>,
    nt_map: Seq<(Seq<char>, Seq<char>)>,
)
    ensures
        projected(spans, source, target, nt_map) matches Ok(r) ==> r.len() == spans.len() && (
        forall|j: int| 0 <= j < r.len() ==> (#[trigger] r[j]).span == spans[j]),
{
    lemma_project_from(
        spans,
        control_pieces(source),
        control_pieces(target),
        nt_map,
        0,
        0,
        Seq::empty(),
    );
}

/// Whether the characters from `a` to `b` are an ASCII word or number.
pub open spec fn word_at(s: Seq<char>, a: int, b: int) -> bool {
    &&& 0 <= a < b <= s.len()
    &&& forall|i: int| a <= i < b ==> ascii_word_char(#[trigger] s[i])
    &&& a == 0 || !ascii_word_char(s[a - 1])
    &&& b == s.len() || !ascii_word_char(s[b])
}

/// Where there is a boundary to be had, one is found.
proof fn lemma_best_found(
    s: Seq<char>,
    orig: int,
    prev: int,
    at: int,
    end: int,
    best: Option<CandidateV>,
    c: int,
)
    requires
        best is Some || (at <= c <= end && prev <= c && boundary_ok(s, c)),
    ensures
        best_from(s, orig, prev, at, end, best) is Some,
    decreases end + 1 - at,
{
    if at <= end {
        let next = if at < prev || !boundary_ok(s, at) || !better(s, orig, at, best) {
            best
        } else {
            Some(CandidateV { at, white: boundary_white(s, at) })
        };
        lemma_best_found(s, orig, prev, at + 1, end, next, c);
    }
}

proof fn lemma_word_whole(s: Seq<char>, desired: Seq<nat>, k: int, a: int, b: int)
    requires
        -1 <= k,
        word_at(s, a, b),
        b - a <= 24,
    ensures
        !(a < boundary(s, desired, k) < b),
    decreases k + 1,
{
    if k >= 0 {
        let orig = raw_boundary(desired, s.len(), k) as int;
        let prev = boundary(s, desired, k - 1);
        let lo = window_start(orig);
        let hi = window_end(orig, s.len() as int);
        lemma_word_whole(s, desired, k - 1, a, b);
        lemma_boundaries(s, desired, k);
        if k > 0 {
            lemma_boundaries(s, desired, k - 1);
        }
        lemma_best_from(s, orig, prev, lo, hi, None);
        if a < orig < b {
            let c = if prev >= b {
                prev
            } else if orig - a <= 12 {
                a
            } else {
                b
            };
            lemma_best_found(s, orig, prev, lo, hi, None, c);
        }
        let p = boundary(s, desired, k);
        if a < p < b {
            assert(ascii_word_char(s[p - 1]) && ascii_word_char(s[p]));
        }
    }
}

/// No ASCII word or number of at most twenty-four characters is parted by the end of a piece.
pub proof fn law_words_stay_whole(s: Seq<char>, weights: Seq<nat>, k: int, a: int, b: int)
    requires
        0 <= k < weights.len(),
        word_at(s, a, b),
        b - a <= 24,
    ensures
        !(a < piece_end(s, allocated(s.len(), weights), weights.len(), k) < b),
{
    lemma_word_whole(s, allocated(s.len(), weights), k, a, b);
}

} // verus!
