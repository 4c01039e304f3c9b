//! Freezing: markers in place of what must come out of a translation as it went in.

use crate::chars::{
    append, byte_len, byte_length, dec, dec_padded, digits_value, is_digit, lemma_dec,
    lemma_dec_padded, occurs_at, str_eq, text_of, to_chars,
};
use crate::ir::{FreezeMaskSpan, FreezeSpanV};
use crate::patterns::{find_all, found, FREEZE};
use crate::sentinels::{
    bounds_ok, bounds_view, cut, find_tokens, lemma_between_slots, lemma_bounds_at, lemma_slot_token,
    lemma_tokens_ok, marker_digit,
    nt_token, nt_token_of, opens_once, slot_token_of, token_at, tokens, tokens_from, TokenClass,
};
use crate::vecs::push_deep;
use vstd::prelude::*;

verus! {

/// A frozen text: the text with markers, what each marker stands for, and where it stood.
#[derive(Clone, Debug)]
pub struct FreezeResult {
    pub text: String,
    pub nt_map: Vec<(String, String)>,
    pub mask: Vec<FreezeMaskSpan>,
}

/// The model of a [`FreezeResult`].
#[verifier::ext_equal]
pub struct FreezeV {
    pub text: Seq<char>,
    pub nt_map: Seq<(Seq<char>, Seq<char>)>,
    pub mask: Seq<FreezeSpanV>,
}

impl DeepView for FreezeResult {
    type V = FreezeV;

    open spec fn deep_view(&self) -> FreezeV {
        FreezeV {
            text: self.text@,
            nt_map: self.nt_map.deep_view(),
            mask: self.mask.deep_view(),
        }
    }
}

/// The bounds of the stretches of a text that are frozen.
pub open spec fn freeze_spans(s: Seq<char>) -> Seq<(int, int)> {
    found(FREEZE@, s)
}

/// Bounds moved by `n`.
pub open spec fn moved(t: Seq<(int, int)>, n: int) -> Seq<(int, int)> {
    t.map_values(|b: (int, int)| (b.0 + n, b.1 + n))
}

/// The bounds of what is frozen in the text from `pos` on, outside the markers at `t`.
pub open spec fn frozen_between(s: Seq<char>, t: Seq<(int, int)>, pos: int) -> Seq<(int, int)>
    decreases t.len(),
{
    if t.len() == 0 {
        moved(freeze_spans(s.subrange(pos, s.len() as int)), pos)
    } else {
        moved(freeze_spans(s.subrange(pos, t[0].0)), pos) + frozen_between(
            s,
            t.drop_first(),
            t[0].1,
        )
    }
}

/// The bounds of what is frozen in a text: the matches outside its markers.
pub open spec fn frozen_bounds(s: Seq<char>) -> Seq<(int, int)> {
    frozen_between(s, tokens(TokenClass::Sentinel, s), 0)
}

/// The text from `pos` on with markers in place of what stands between the bounds; `n` markers came
/// before.
pub open spec fn with_markers(s: Seq<char>, t: Seq<(int, int)>, pos: int, n: nat) -> Seq<char>
    decreases t.len(),
{
    if t.len() == 0 {
        s.subrange(pos, s.len() as int)
    } else {
        s.subrange(pos, t[0].0) + nt_token_of(n + 1) + with_markers(s, t.drop_first(), t[0].1, n + 1)
    }
}

/// What the markers stand for.
pub open spec fn marker_map(s: Seq<char>, t: Seq<(int, int)>) -> Seq<(Seq<char>, Seq<char>)> {
    Seq::new(t.len(), |k: int| (nt_token_of((k + 1) as nat), s.subrange(t[k].0, t[k].1)))
}

/// Where the markers stand, in bytes of the text before it was frozen.
pub open spec fn marker_mask(s: Seq<char>, t: Seq<(int, int)>) -> Seq<FreezeSpanV> {
    Seq::new(
        t.len(),
        |k: int|
            FreezeSpanV {
                src_start: byte_len(s.take(t[k].0)),
                src_end: byte_len(s.take(t[k].1)),
                token: nt_token_of((k + 1) as nat),
                original: s.subrange(t[k].0, t[k].1),
            },
    )
}

/// A text with markers in place of what stands between bounds.
pub open spec fn frozen_at(s: Seq<char>, t: Seq<(int, int)>) -> FreezeV {
    FreezeV { text: with_markers(s, t, 0, 0), nt_map: marker_map(s, t), mask: marker_mask(s, t) }
}

/// A text with markers in place of what is frozen.
pub open spec fn frozen(s: Seq<char>) -> FreezeV {
    frozen_at(s, frozen_bounds(s))
}

fn add_frozen(v: &Vec<char>, from: usize, to: usize, out: &mut Vec<(usize, usize)>)
    requires
        from <= to <= v@.len(),
    ensures
        bounds_view(final(out)@) == bounds_view(old(out)@) + moved(
            freeze_spans(v@.subrange(from as int, to as int)),
            from as int,
        ),
        bounds_ok(freeze_spans(v@.subrange(from as int, to as int)), 0, to - from),
{
    let plain: String = text_of(v, from, to);
    let len: usize = v.len();
    let m: Vec<(usize, usize)> = find_all(FREEZE, plain.as_str());
    let ghost spans = bounds_view(m@);
    let ghost start = bounds_view(out@);
    let mut k: usize = 0;
    assert(bounds_view(out@) =~= start + moved(spans.take(0), from as int));
    while k < m.len()
        invariant
            k <= m@.len(),
            spans == bounds_view(m@),
            from <= to <= v@.len(),
            v@.len() <= usize::MAX,
            bounds_ok(spans, 0, to - from),
            bounds_view(out@) == start + moved(spans.take(k as int), from as int),
        decreases m@.len() - k,
    {
        proof {
            lemma_bounds_at(spans, 0, to - from, k as int);
            assert(spans[k as int] == (m@[k as int].0 as int, m@[k as int].1 as int));
        }
        let ghost before = bounds_view(out@);
        out.push((from + m[k].0, from + m[k].1));
        k = k + 1;
        assert(bounds_view(out@) =~= before.push(
            (spans[k - 1].0 + from, spans[k - 1].1 + from),
        ));
        assert(start + moved(spans.take(k as int), from as int) =~= bounds_view(out@));
    }
    assert(spans.take(k as int) =~= spans);
}

proof fn lemma_bounds_join(a: Seq<(int, int)>, b: Seq<(int, int)>, from: int, mid: int, to: int, n: int)
    requires
        bounds_ok(a, 0, mid - from),
        bounds_ok(b, to, n),
        mid <= to,
    ensures
        bounds_ok(moved(a, from) + b, from, n),
    decreases a.len(),
{
    lemma_join(a, b, from, 0, mid, to, n);
}

proof fn lemma_join(
    a: Seq<(int, int)>,
    b: Seq<(int, int)>,
    from: int,
    x: int,
    mid: int,
    to: int,
    n: int,
)
    requires
        bounds_ok(a, x, mid - from),
        bounds_ok(b, to, n),
        mid <= to,
    ensures
        bounds_ok(moved(a, from) + b, from + x, n),
    decreases a.len(),
{
    let all = moved(a, from) + b;
    if a.len() == 0 {
        assert(all =~= b);
    } else {
        lemma_join(a.drop_first(), b, from, a[0].1, mid, to, n);
        assert(all.drop_first() =~= moved(a.drop_first(), from) + b);
        assert(all[0] == (a[0].0 + from, a[0].1 + from));
        lemma_bounds_at(a, x, mid - from, 0);
        crate::freezer::lemma_bounds_le(b, to, n);
    }
}

proof fn lemma_bounds_le(b: Seq<(int, int)>, to: int, n: int)
    requires
        bounds_ok(b, to, n),
    ensures
        to <= n,
{
    lemma_bounds_at(b, to, n, 0);
}

/// Whether no stretch overlaps a marker.
pub open spec fn apart(f: Seq<(int, int)>, t: Seq<(int, int)>) -> bool {
    forall|i: int, j: int|
        0 <= i < f.len() && 0 <= j < t.len() ==> (#[trigger] f[i]).1 <= (#[trigger] t[j]).0 || t[j].1
            <= f[i].0
}

pub(crate) proof fn lemma_in_order(t: Seq<(int, int)>, n: int, i: int, j: int)
    requires
        bounds_ok(t, 0, n),
        0 <= i < j < t.len(),
    ensures
        t[i].1 <= t[j].0,
    decreases j - i,
{
    lemma_bounds_at(t, 0, n, j);
    if i < j - 1 {
        lemma_in_order(t, n, i, j - 1);
        lemma_bounds_at(t, 0, n, j - 1);
    }
}

/// What stands between the markers before and at `k` overlaps none.
proof fn lemma_gap_apart(t: Seq<(int, int)>, n: int, k: int, end: int, f: Seq<(int, int)>, here: Seq<
    (int, int),
>)
    requires
        bounds_ok(t, 0, n),
        0 <= k <= t.len(),
        end == if k < t.len() {
            t[k].0
        } else {
            n
        },
        apart(f, t),
        bounds_ok(here, 0, end - cut(t, k)),
    ensures
        apart(f + moved(here, cut(t, k)), t),
{
    let pos = cut(t, k);
    let all = f + moved(here, pos);
    assert forall|i: int, j: int| 0 <= i < all.len() && 0 <= j < t.len() implies (
    #[trigger] all[i]).1 <= (#[trigger] t[j]).0 || t[j].1 <= all[i].0 by {
        if i < f.len() {
            assert(all[i] == f[i]);
        } else {
            let m = i - f.len();
            assert(all[i] == (here[m].0 + pos, here[m].1 + pos));
            lemma_bounds_at(here, 0, end - pos, m);
            if j < k - 1 {
                lemma_in_order(t, n, j, k - 1);
                lemma_bounds_at(t, 0, n, k - 1);
            } else if j > k {
                lemma_in_order(t, n, k, j);
                lemma_bounds_at(t, 0, n, k);
            }
        }
    }
}

/// The bounds of what is frozen in a text.
fn find_frozen(v: &Vec<char>) -> (r: Vec<(usize, usize)>)
    ensures
        bounds_view(r@) == frozen_bounds(v@),
        bounds_ok(frozen_bounds(v@), 0, v@.len() as int),
        apart(frozen_bounds(v@), tokens(TokenClass::Sentinel, v@)),
{
    let b: Vec<(usize, usize)> = find_tokens(TokenClass::Sentinel, v);
    let ghost t = tokens(TokenClass::Sentinel, v@);
    proof {
        lemma_tokens_ok(TokenClass::Sentinel, v@, 0);
    }
    let mut out: Vec<(usize, usize)> = Vec::new();
    let mut pos: usize = 0;
    let mut k: usize = 0;
    let ghost n = v@.len() as int;
    assert(t.skip(0) =~= t);
    assert(bounds_view(out@) + frozen_between(v@, t.skip(0), 0) =~= frozen_bounds(v@));
    while k < b.len()
        invariant
            k <= b@.len(),
            n == v@.len(),
            t == bounds_view(b@),
            bounds_ok(t, 0, n),
            pos == cut(t, k as int),
            bounds_view(out@) + frozen_between(v@, t.skip(k as int), pos as int) == frozen_bounds(v@),
            apart(bounds_view(out@), t),
            bounds_ok(frozen_between(v@, t.skip(k as int), pos as int), pos as int, n) ==> bounds_ok(
                frozen_bounds(v@),
                0,
                n,
            ),
        decreases b@.len() - k,
    {
        proof {
            lemma_bounds_at(t, 0, n, k as int);
            assert(t[k as int] == (b@[k as int].0 as int, b@[k as int].1 as int));
            assert(t.skip(k as int).drop_first() =~= t.skip(k + 1));
        }
        let ghost before = bounds_view(out@);
        add_frozen(v, pos, b[k].0, &mut out);
        proof {
            let here = freeze_spans(v@.subrange(pos as int, t[k as int].0));
            lemma_gap_apart(t, n, k as int, t[k as int].0, before, here);
            let rest = frozen_between(v@, t.skip(k + 1), t[k as int].1);
            assert(before + (moved(here, pos as int) + rest) =~= bounds_view(out@) + rest);
            if bounds_ok(rest, t[k as int].1, n) {
                lemma_bounds_join(here, rest, pos as int, t[k as int].0, t[k as int].1, n);
            }
        }
        pos = b[k].1;
        k = k + 1;
    }
    proof {
        lemma_bounds_at(t, 0, n, k as int);
        assert(t.skip(k as int) =~= Seq::<(int, int)>::empty());
    }
    let ghost before = bounds_view(out@);
    add_frozen(v, pos, v.len(), &mut out);
    proof {
        let here = freeze_spans(v@.subrange(pos as int, n));
        lemma_gap_apart(t, n, k as int, n, before, here);
        lemma_bounds_join(here, Seq::empty(), pos as int, n, n, n);
        assert(moved(here, pos as int) + Seq::<(int, int)>::empty() =~= moved(here, pos as int));
    }
    out
}

/// Puts markers in place of what must come out of a translation as it went in. What is frozen lies
/// outside the markers that the text holds. Unfreezing gives the text back, where it holds no marker
/// of frozen text of its own and fewer than ten thousand stretches of it are frozen.
pub fn freeze_text(text: &str) -> (r: FreezeResult)
    ensures
        r.deep_view() == frozen(text@),
        bounds_ok(frozen_bounds(text@), 0, text@.len() as int),
        apart(frozen_bounds(text@), tokens(TokenClass::Sentinel, text@)),
        tokens(TokenClass::Nt, text@).len() == 0 && r.nt_map@.len() < 10000 ==> unfrozen(
            r.text@,
            r.nt_map.deep_view(),
        ) == text@,
{
    let v: Vec<char> = to_chars(text);
    let b: Vec<(usize, usize)> = find_frozen(&v);
    let r: FreezeResult = freeze_at(text, &b);
    proof {
        if tokens(TokenClass::Nt, v@).len() == 0 && r.nt_map@.len() < 10000 {
            assert(r.nt_map.deep_view().len() == r.nt_map@.len());
            law_unfreeze_restores(v@);
        }
    }
    r
}

/// Puts markers in place of what stands between bounds, which are in order, without overlap and
/// within the text.
pub fn freeze_at(text: &str, b: &Vec<(usize, usize)>) -> (r: FreezeResult)
    requires
        bounds_ok(bounds_view(b@), 0, text@.len() as int),
    ensures
        r.deep_view() == frozen_at(text@, bounds_view(b@)),
{
    let v: Vec<char> = to_chars(text);
    let ghost t = bounds_view(b@);
    let mut out: String = String::new();
    let mut nt_map: Vec<(String, String)> = Vec::new();
    let mut mask: Vec<FreezeMaskSpan> = Vec::new();
    let mut pos: usize = 0;
    let mut k: usize = 0;
    assert(t.skip(0) =~= t);
    assert(out@ + with_markers(v@, t.skip(0), 0, 0) =~= with_markers(v@, t, 0, 0));
    assert(nt_map.deep_view() =~= marker_map(v@, t.take(0)));
    assert(mask.deep_view() =~= marker_mask(v@, t.take(0)));
    while k < b.len()
        invariant
            k <= b@.len(),
            t == bounds_view(b@),
            bounds_ok(t, 0, v@.len() as int),
            pos == cut(t, k as int),
            out@ + with_markers(v@, t.skip(k as int), pos as int, k as nat) == with_markers(
                v@,
                t,
                0,
                0,
            ),
            nt_map.deep_view() == marker_map(v@, t.take(k as int)),
            mask.deep_view() == marker_mask(v@, t.take(k as int)),
        decreases b@.len() - k,
    {
        let ghost before = out@;
        proof {
            lemma_bounds_at(t, 0, v@.len() as int, k as int);
            assert(t[k as int] == (b@[k as int].0 as int, b@[k as int].1 as int));
            assert(t.skip(k as int).drop_first() =~= t.skip(k + 1));
        }
        let (from, to) = b[k];
        let plain: String = text_of(&v, pos, from);
        let original: String = text_of(&v, from, to);
        let token: String = nt_token(k + 1);
        let head: String = text_of(&v, 0, from);
        let whole: String = text_of(&v, 0, to);
        append(&mut out, plain.as_str());
        append(&mut out, token.as_str());
        proof {
            let rest = with_markers(v@, t.skip(k + 1), t[k as int].1, (k + 1) as nat);
            assert(before + (v@.subrange(pos as int, from as int) + nt_token_of((k + 1) as nat)
                + rest) =~= out@ + rest);
            assert(head@ =~= v@.take(from as int));
            assert(whole@ =~= v@.take(to as int));
        }
        push_deep(&mut nt_map, (token.clone(), original.clone()));
        push_deep(
            &mut mask,
            FreezeMaskSpan {
                src_start: byte_length(head.as_str()),
                src_end: byte_length(whole.as_str()),
                token,
                original,
            },
        );
        pos = to;
        k = k + 1;
        proof {
            assert(t.take(k as int).take(k - 1) =~= t.take(k - 1));
            assert(nt_map.deep_view() =~= marker_map(v@, t.take(k as int)));
            assert(mask.deep_view() =~= marker_mask(v@, t.take(k as int)));
        }
    }
    proof {
        lemma_bounds_at(t, 0, v@.len() as int, k as int);
        assert(t.skip(k as int) =~= Seq::<(int, int)>::empty());
        assert(t.take(k as int) =~= t);
    }
    let tail: String = text_of(&v, pos, v.len());
    append(&mut out, tail.as_str());
    FreezeResult { text: out, nt_map, mask }
}

/// What a marker stands for.
pub open spec fn marker_text(map: Seq<(Seq<char>, Seq<char>)>, token: Seq<char>) -> Option<Seq<char>>
    decreases map.len(),
{
    if map.len() == 0 {
        None
    } else if map[0].0 == token {
        Some(map[0].1)
    } else {
        marker_text(map.drop_first(), token)
    }
}

/// The text from `pos` on with the markers at `t` replaced by what they stand for.
pub open spec fn unfrozen_at(
    s: Seq<char>,
    map: Seq<(Seq<char>, Seq<char>)>,
    t: Seq<(int, int)>,
    pos: int,
) -> Seq<char>
    decreases t.len(),
{
    if t.len() == 0 {
        s.subrange(pos, s.len() as int)
    } else {
        let token = s.subrange(t[0].0, t[0].1);
        let text = match marker_text(map, token) {
            Some(x) => x,
            None => token,
        };
        s.subrange(pos, t[0].0) + text + unfrozen_at(s, map, t.drop_first(), t[0].1)
    }
}

/// A text with its markers of frozen text replaced by what they stand for. A marker that stands for
/// nothing stays.
pub open spec fn unfrozen(s: Seq<char>, map: Seq<(Seq<char>, Seq<char>)>) -> Seq<char> {
    unfrozen_at(s, map, tokens(TokenClass::Nt, s), 0)
}

fn find_marker<'a>(map: &'a Vec<(String, String)>, token: &str) -> (r: Option<&'a str>)
    ensures
        r.deep_view() == marker_text(map.deep_view(), token@),
{
    let ghost model = map.deep_view();
    let mut i: usize = 0;
    assert(model.skip(0) =~= model);
    while i < map.len()
        invariant
            i <= map@.len(),
            model == map.deep_view(),
            marker_text(model.skip(i as int), token@) == marker_text(model, token@),
        decreases map@.len() - i,
    {
        assert(model.skip(i as int)[0] == map@[i as int].deep_view());
        assert(model.skip(i as int).drop_first() =~= model.skip(i + 1));
        if str_eq(map[i].0.as_str(), token) {
            return Some(map[i].1.as_str());
        }
        i = i + 1;
    }
    None
}

/// Replaces the markers of frozen text by what they stand for.
pub fn unfreeze_text(text: &str, nt_map: &Vec<(String, String)>) -> (r: String)
    ensures
        r@ == unfrozen(text@, nt_map.deep_view()),
{
    let v: Vec<char> = to_chars(text);
    let b: Vec<(usize, usize)> = find_tokens(TokenClass::Nt, &v);
    let ghost t = tokens(TokenClass::Nt, v@);
    let ghost map = nt_map.deep_view();
    proof {
        lemma_tokens_ok(TokenClass::Nt, v@, 0);
    }
    let mut out: String = String::new();
    let mut pos: usize = 0;
    let mut k: usize = 0;
    assert(t.skip(0) =~= t);
    assert(out@ + unfrozen_at(v@, map, t.skip(0), 0) =~= unfrozen(v@, map));
    while k < b.len()
        invariant
            k <= b@.len(),
            map == nt_map.deep_view(),
            t == bounds_view(b@),
            bounds_ok(t, 0, v@.len() as int),
            pos == cut(t, k as int),
            out@ + unfrozen_at(v@, map, t.skip(k as int), pos as int) == unfrozen(v@, map),
        decreases b@.len() - k,
    {
        let ghost before = out@;
        proof {
            lemma_bounds_at(t, 0, v@.len() as int, k as int);
            assert(t[k as int] == (b@[k as int].0 as int, b@[k as int].1 as int));
            assert(t.skip(k as int).drop_first() =~= t.skip(k + 1));
        }
        let (from, to) = b[k];
        let plain: String = text_of(&v, pos, from);
        let token: String = text_of(&v, from, to);
        append(&mut out, plain.as_str());
        let ghost mid = out@;
        match find_marker(nt_map, token.as_str()) {
            Some(x) => append(&mut out, x),
            None => append(&mut out, token.as_str()),
        }
        proof {
            let text = match marker_text(map, token@) {
                Some(x) => x,
                None => token@,
            };
            let rest = unfrozen_at(v@, map, t.skip(k + 1), t[k as int].1);
            assert(before + (v@.subrange(pos as int, from as int) + text + rest) =~= out@ + rest);
        }
        pos = to;
        k = k + 1;
    }
    proof {
        lemma_bounds_at(t, 0, v@.len() as int, k as int);
        assert(t.skip(k as int) =~= Seq::<(int, int)>::empty());
    }
    let tail: String = text_of(&v, pos, v.len());
    append(&mut out, tail.as_str());
    out
}


/// Whether the characters from `i` on are those of a marker of frozen text.
spec fn nt_shape(s: Seq<char>, i: int) -> bool {
    &&& 0 <= i && i + 14 <= s.len()
    &&& s[i] == '<' && s[i + 1] == '<' && s[i + 2] == 'M' && s[i + 3] == 'T' && s[i + 4] == '_'
    &&& s[i + 5] == 'N' && s[i + 6] == 'T' && s[i + 7] == ':'
    &&& marker_digit(s[i + 8]) && marker_digit(s[i + 9]) && marker_digit(s[i + 10]) && marker_digit(
        s[i + 11],
    )
    &&& s[i + 12] == '>' && s[i + 13] == '>'
}

proof fn lemma_nt_shape(s: Seq<char>, i: int)
    requires
        0 <= i,
    ensures
        token_at(TokenClass::Nt, s, i) == if nt_shape(s, i) {
            Some(14nat)
        } else {
            None
        },
{
    reveal_strlit("<<MT_NT:");
    reveal_strlit(">>");
    let head = "<<MT_NT:"@;
    if nt_shape(s, i) {
        assert(s.subrange(i, i + 8) =~= head);
        assert(s.subrange(i + 12, i + 14) =~= ">>"@);
    }
    if token_at(TokenClass::Nt, s, i) is Some {
        assert(forall|k: int| 0 <= k < 8 ==> s.subrange(i, i + 8)[k] == head[k]);
        assert(forall|k: int| 0 <= k < 8 ==> #[trigger] s.subrange(i, i + 8)[k] == s[i + k]);
        assert(forall|k: int| 0 <= k < 2 ==> #[trigger] s.subrange(i + 12, i + 14)[k] == s[i + 12 + k]);
        assert(s.subrange(i, i + 8)[0] == s[i]);
        assert(s.subrange(i, i + 8)[1] == s[i + 1]);
        assert(s.subrange(i, i + 8)[2] == s[i + 2]);
        assert(s.subrange(i, i + 8)[3] == s[i + 3]);
        assert(s.subrange(i, i + 8)[4] == s[i + 4]);
        assert(s.subrange(i, i + 8)[5] == s[i + 5]);
        assert(s.subrange(i, i + 8)[6] == s[i + 6]);
        assert(s.subrange(i, i + 8)[7] == s[i + 7]);
        assert(s.subrange(i + 12, i + 14)[0] == s[i + 12]);
        assert(s.subrange(i + 12, i + 14)[1] == s[i + 13]);
    }
}

proof fn lemma_nt_token(k: nat)
    requires
        k < 10000,
    ensures
        nt_token_of(k).len() == 14,
        nt_shape(nt_token_of(k), 0),
        digits_value(nt_token_of(k).subrange(8, 12)) == k,
{
    reveal_strlit("<<MT_NT:");
    reveal_strlit(">>");
    lemma_dec(k);
    lemma_dec_padded(k, 4);
    reveal_with_fuel(dec, 5);
    assert(dec(k).len() <= 4);
    let d = dec_padded(k, 4);
    let t = nt_token_of(k);
    assert(d.len() == 4);
    assert(forall|i: int| 0 <= i < 4 ==> is_digit(#[trigger] d[i]));
    assert(t[8] == d[0] && t[9] == d[1] && t[10] == d[2] && t[11] == d[3]);
    assert(t.subrange(8, 12) =~= d);
}

proof fn lemma_marker_text(s: Seq<char>, b: Seq<(int, int)>, k: int)
    requires
        0 <= k < b.len() < 10000,
    ensures
        marker_text(marker_map(s, b), nt_token_of((k + 1) as nat)) == Some(
            s.subrange(b[k].0, b[k].1),
        ),
{
    lemma_marker_text_from(s, b, k, 0);
    assert(marker_map(s, b).skip(0) =~= marker_map(s, b));
}

proof fn lemma_marker_text_from(s: Seq<char>, b: Seq<(int, int)>, k: int, j: int)
    requires
        0 <= j <= k < b.len() < 10000,
    ensures
        marker_text(marker_map(s, b).skip(j), nt_token_of((k + 1) as nat)) == Some(
            s.subrange(b[k].0, b[k].1),
        ),
    decreases k - j,
{
    let rest = marker_map(s, b).skip(j);
    assert(rest[0] == marker_map(s, b)[j]);
    lemma_nt_token((k + 1) as nat);
    lemma_nt_token((j + 1) as nat);
    if j < k {
        assert(rest[0].0 != nt_token_of((k + 1) as nat));
        assert(rest.drop_first() =~= marker_map(s, b).skip(j + 1));
        lemma_marker_text_from(s, b, k, j + 1);
    }
}

/// Where no marker begins in a stretch, the search goes on after it.
proof fn lemma_skip_plain(s: Seq<char>, from: int, to: int)
    requires
        0 <= from <= to <= s.len(),
        forall|i: int| from <= i < to ==> !#[trigger] nt_shape(s, i),
    ensures
        tokens_from(TokenClass::Nt, s, from) == tokens_from(TokenClass::Nt, s, to),
    decreases to - from,
{
    if from < to {
        lemma_nt_shape(s, from);
        assert(!nt_shape(s, from));
        lemma_skip_plain(s, from + 1, to);
    }
}

proof fn lemma_same_shape(x: Seq<char>, i: int, y: Seq<char>, j: int)
    requires
        0 <= i,
        0 <= j,
        i + 14 <= x.len(),
        j + 14 <= y.len(),
        x.subrange(i, i + 14) == y.subrange(j, j + 14),
    ensures
        nt_shape(x, i) == nt_shape(y, j),
{
    let a = x.subrange(i, i + 14);
    let b = y.subrange(j, j + 14);
    assert(a[0] == x[i] && a[1] == x[i + 1] && a[2] == x[i + 2] && a[3] == x[i + 3] && a[4] == x[i + 4]
        && a[5] == x[i + 5] && a[6] == x[i + 6] && a[7] == x[i + 7] && a[8] == x[i + 8] && a[9] == x[i
        + 9] && a[10] == x[i + 10] && a[11] == x[i + 11] && a[12] == x[i + 12] && a[13] == x[i + 13]);
    assert(b[0] == y[j] && b[1] == y[j + 1] && b[2] == y[j + 2] && b[3] == y[j + 3] && b[4] == y[j + 4]
        && b[5] == y[j + 5] && b[6] == y[j + 6] && b[7] == y[j + 7] && b[8] == y[j + 8] && b[9] == y[j
        + 9] && b[10] == y[j + 10] && b[11] == y[j + 11] && b[12] == y[j + 12] && b[13] == y[j + 13]);
}

/// A marker does not hold the beginning of another.
proof fn lemma_no_overlap(x: Seq<char>, i: int, d: int)
    requires
        0 <= i,
        1 <= d < 14,
        i + d + 1 < x.len(),
        x[i + d] == '<',
        x[i + d + 1] == '<',
    ensures
        !nt_shape(x, i),
{
    assert(!marker_digit('<'));
}

/// No marker begins in a stretch of `out` that is the stretch of `s` from `pos` on, where none begins
/// in `s` and what follows the stretch begins with `<<` or is the end.
proof fn lemma_plain_stretch(out: Seq<char>, p: int, s: Seq<char>, pos: int, l: int)
    requires
        0 <= p,
        0 <= pos,
        0 <= l,
        p + l <= out.len(),
        pos + l <= s.len(),
        out.subrange(p, p + l) == s.subrange(pos, pos + l),
        p + l == out.len() || (p + l + 1 < out.len() && out[p + l] == '<' && out[p + l + 1] == '<'),
        forall|i: int| 0 <= i < s.len() ==> !#[trigger] nt_shape(s, i),
    ensures
        forall|i: int| p <= i < p + l ==> !#[trigger] nt_shape(out, i),
{
    assert forall|i: int| p <= i < p + l implies !#[trigger] nt_shape(out, i) by {
        let j = i - p + pos;
        if i + 14 <= p + l {
            assert(!nt_shape(s, j));
            assert(out.subrange(i, i + 14) =~= out.subrange(p, p + l).subrange(i - p, i - p + 14));
            assert(s.subrange(j, j + 14) =~= s.subrange(pos, pos + l).subrange(i - p, i - p + 14));
            lemma_same_shape(out, i, s, j);
        } else if p + l < out.len() {
            lemma_no_overlap(out, i, p + l - i);
        }
    }
}

/// Whether the markers stand for what is between the bounds.
spec fn stand_for(map: Seq<(Seq<char>, Seq<char>)>, s: Seq<char>, b: Seq<(int, int)>) -> bool {
    forall|k: int|
        0 <= k < b.len() ==> marker_text(map, #[trigger] nt_token_of((k + 1) as nat)) == Some(
            s.subrange(b[k].0, b[k].1),
        )
}

proof fn lemma_unfrozen_once(
    out: Seq<char>,
    map: Seq<(Seq<char>, Seq<char>)>,
    p: int,
    at: int,
    n: int,
    rest: Seq<(int, int)>,
    text: Seq<char>,
)
    requires
        marker_text(map, out.subrange(at, n)) == Some(text),
    ensures
        unfrozen_at(out, map, seq![(at, n)] + rest, p) == out.subrange(p, at) + text + unfrozen_at(
            out,
            map,
            rest,
            n,
        ),
{
    let t = seq![(at, n)] + rest;
    assert(t.drop_first() =~= rest);
}

proof fn lemma_unfreeze_from(
    s: Seq<char>,
    b: Seq<(int, int)>,
    k: int,
    pos: int,
    pre: Seq<char>,
    map: Seq<(Seq<char>, Seq<char>)>,
)
    requires
        0 <= k <= b.len() < 10000,
        stand_for(map, s, b),
        0 <= pos,
        bounds_ok(b.skip(k), pos, s.len() as int),
        forall|i: int| 0 <= i < s.len() ==> !#[trigger] nt_shape(s, i),
    ensures
        unfrozen_at(
            pre + with_markers(s, b.skip(k), pos, k as nat),
            map,
            tokens_from(
                TokenClass::Nt,
                pre + with_markers(s, b.skip(k), pos, k as nat),
                pre.len() as int,
            ),
            pre.len() as int,
        ) == s.subrange(pos, s.len() as int),
    decreases b.len() - k,
{
    let t = b.skip(k);
    let w = with_markers(s, t, pos, k as nat);
    let out = pre + w;
    let p = pre.len() as int;
    lemma_bounds_at(t, pos, s.len() as int, 0);
    if k == b.len() {
        let l = s.len() - pos;
        assert(out.subrange(p, p + l) =~= s.subrange(pos, pos + l));
        lemma_plain_stretch(out, p, s, pos, l);
        lemma_skip_plain(out, p, out.len() as int);
        assert(out.subrange(p, out.len() as int) =~= s.subrange(pos, s.len() as int));
    } else {
        lemma_unfreeze_step(s, b, k, pos, pre);
        let at = p + b[k].0 - pos;
        let rest = with_markers(s, b.skip(k + 1), b[k].1, (k + 1) as nat);
        let pre2 = out.take(at + 14);
        let text = s.subrange(b[k].0, b[k].1);
        assert(t[0] == b[k]);
        lemma_bounds_at(t, pos, s.len() as int, 1);
        assert(t.skip(1) =~= b.skip(k + 1));
        assert(pre2 + rest == out);
        assert(pre2.len() == at + 14);
        lemma_unfreeze_from(s, b, k + 1, b[k].1, pre2, map);
        assert(marker_text(map, nt_token_of((k + 1) as nat)) == Some(text));
        let toks = tokens_from(TokenClass::Nt, out, at + 14);
        lemma_unfrozen_once(out, map, p, at, at + 14, toks, text);
        assert(s.subrange(pos, b[k].0) + text + s.subrange(b[k].1, s.len() as int) =~= s.subrange(
            pos,
            s.len() as int,
        ));
    }
}

/// The first marker in a frozen text stands where the first frozen stretch stood.
proof fn lemma_unfreeze_step(
    s: Seq<char>,
    b: Seq<(int, int)>,
    k: int,
    pos: int,
    pre: Seq<char>,
)
    requires
        0 <= k < b.len() < 10000,
        0 <= pos,
        bounds_ok(b.skip(k), pos, s.len() as int),
        forall|i: int| 0 <= i < s.len() ==> !#[trigger] nt_shape(s, i),
    ensures
        ({
            let out = pre + with_markers(s, b.skip(k), pos, k as nat);
            let p = pre.len() as int;
            let at = p + b[k].0 - pos;
            let rest = with_markers(s, b.skip(k + 1), b[k].1, (k + 1) as nat);
            &&& pos <= b[k].0 <= b[k].1 <= s.len()
            &&& at + 14 <= out.len()
            &&& out == out.take(at + 14) + rest
            &&& out.subrange(p, at) == s.subrange(pos, b[k].0)
            &&& out.subrange(at, at + 14) == nt_token_of((k + 1) as nat)
            &&& tokens_from(TokenClass::Nt, out, p) == seq![(at, at + 14)] + tokens_from(
                TokenClass::Nt,
                out,
                at + 14,
            )
        }),
{
    let t = b.skip(k);
    let w = with_markers(s, t, pos, k as nat);
    let out = pre + w;
    let p = pre.len() as int;
    lemma_bounds_at(t, pos, s.len() as int, 0);
    assert(t[0] == b[k]);
    assert(t.drop_first() =~= b.skip(k + 1));
    let l = t[0].0 - pos;
    let tok = nt_token_of((k + 1) as nat);
    lemma_nt_token((k + 1) as nat);
    let rest = with_markers(s, b.skip(k + 1), t[0].1, (k + 1) as nat);
    let at = p + l;
    assert(w =~= s.subrange(pos, t[0].0) + tok + rest);
    assert(out.subrange(at, at + 14) =~= tok);
    assert(out.subrange(p, at) =~= s.subrange(pos, t[0].0));
    assert(out =~= out.take(at + 14) + rest);
    assert(out[at] == tok[0] && out[at + 1] == tok[1]);
    lemma_plain_stretch(out, p, s, pos, l);
    lemma_skip_plain(out, p, at);
    assert(tok.subrange(0, 14) =~= tok);
    lemma_same_shape(out, at, tok, 0);
    lemma_nt_shape(out, at);
}

/// Unfreezing what was frozen gives the text back, where the text holds no marker of frozen text of
/// its own and fewer than ten thousand stretches of it are frozen.
pub proof fn law_unfreeze_restores(s: Seq<char>)
    requires
        tokens(TokenClass::Nt, s).len() == 0,
        frozen_bounds(s).len() < 10000,
        bounds_ok(frozen_bounds(s), 0, s.len() as int),
    ensures
        unfrozen(frozen(s).text, frozen(s).nt_map) == s,
{
    let b = frozen_bounds(s);
    assert(b.skip(0) =~= b);
    assert forall|i: int| 0 <= i < s.len() implies !#[trigger] nt_shape(s, i) by {
        lemma_no_tokens(s, 0, i);
        lemma_nt_shape(s, i);
    }
    assert forall|k: int| 0 <= k < b.len() implies marker_text(
        frozen(s).nt_map,
        #[trigger] nt_token_of((k + 1) as nat),
    ) == Some(s.subrange(b[k].0, b[k].1)) by {
        lemma_marker_text(s, b, k);
    }
    lemma_unfreeze_from(s, b, 0, 0, Seq::empty(), frozen(s).nt_map);
    assert(Seq::<char>::empty() + with_markers(s, b, 0, 0) =~= with_markers(s, b, 0, 0));
    assert(s.subrange(0, s.len() as int) =~= s);
}

proof fn lemma_no_tokens(s: Seq<char>, from: int, i: int)
    requires
        0 <= from <= i < s.len(),
        tokens_from(TokenClass::Nt, s, from).len() == 0,
    ensures
        token_at(TokenClass::Nt, s, i) is None,
    decreases i - from,
{
    lemma_nt_shape(s, from);
    if from < i {
        lemma_no_tokens(s, from + 1, i);
    }
}

/// The stretch of a frozen text that stands for `s` from `pos` to `c`, where the bounds from `k` to `m`
/// lie in it.
pub(crate) open spec fn frozen_stretch(
    s: Seq<char>,
    b: Seq<(int, int)>,
    k: int,
    m: int,
    pos: int,
    c: int,
) -> Seq<char> {
    with_markers(s.take(c), b.subrange(k, m), pos, k as nat)
}

/// A frozen text is made of that of a stretch and of what follows it.
pub(crate) proof fn lemma_frozen_cut(
    s: Seq<char>,
    b: Seq<(int, int)>,
    k: int,
    m: int,
    pos: int,
    c: int,
)
    requires
        0 <= k <= m <= b.len(),
        0 <= pos <= c <= s.len(),
        forall|i: int| k <= i < m ==> pos <= (#[trigger] b[i]).0 <= b[i].1 <= c,
        forall|i: int, j: int|
            k <= i < j < m ==> (#[trigger] b[i]).1 <= (#[trigger] b[j]).0,
        m < b.len() ==> c <= b[m].0 <= s.len(),
    ensures
        with_markers(s, b.skip(k), pos, k as nat) == frozen_stretch(s, b, k, m, pos, c)
            + with_markers(s, b.skip(m), c, m as nat),
    decreases m - k,
{
    let front = s.take(c);
    if k == m {
        assert(b.subrange(k, m) =~= Seq::<(int, int)>::empty());
        assert(front.subrange(pos, front.len() as int) =~= s.subrange(pos, c));
        if m < b.len() {
            assert(b.skip(m)[0] == b[m]);
            assert(s.subrange(pos, b[m].0) =~= s.subrange(pos, c) + s.subrange(c, b[m].0));
            assert(with_markers(s, b.skip(m), pos, m as nat) =~= s.subrange(pos, c) + with_markers(
                s,
                b.skip(m),
                c,
                m as nat,
            ));
        } else {
            assert(b.skip(m) =~= Seq::<(int, int)>::empty());
            assert(s.subrange(pos, s.len() as int) =~= s.subrange(pos, c) + s.subrange(
                c,
                s.len() as int,
            ));
        }
    } else {
        assert(b.skip(k)[0] == b[k]);
        assert(b.skip(k).drop_first() =~= b.skip(k + 1));
        assert(b.subrange(k, m)[0] == b[k]);
        assert(b.subrange(k, m).drop_first() =~= b.subrange(k + 1, m));
        lemma_frozen_cut(s, b, k + 1, m, b[k].1, c);
        assert(front.subrange(pos, b[k].0) =~= s.subrange(pos, b[k].0));
        let tok = nt_token_of((k + 1) as nat);
        let x = s.subrange(pos, b[k].0);
        let one = frozen_stretch(s, b, k + 1, m, b[k].1, c);
        let two = with_markers(s, b.skip(m), c, m as nat);
        assert(x + tok + (one + two) =~= x + tok + one + two);
    }
}

/// A stretch of a frozen text gives its own text back.
pub(crate) proof fn lemma_stretch_unfreezes(
    s: Seq<char>,
    b: Seq<(int, int)>,
    k: int,
    m: int,
    pos: int,
    c: int,
)
    requires
        tokens(TokenClass::Nt, s).len() == 0,
        0 <= k <= m <= b.len() < 10000,
        0 <= pos <= c <= s.len(),
        bounds_ok(b.subrange(k, m), pos, c),
        forall|i: int| 0 <= i < m ==> 0 <= (#[trigger] b[i]).0 <= b[i].1 <= c,
    ensures
        unfrozen(frozen_stretch(s, b, k, m, pos, c), marker_map(s, b)) == s.subrange(pos, c),
{
    let front = s.take(c);
    let own = b.take(m);
    let map = marker_map(s, b);
    assert forall|j: int| 0 <= j < own.len() implies marker_text(
        map,
        #[trigger] nt_token_of((j + 1) as nat),
    ) == Some(front.subrange(own[j].0, own[j].1)) by {
        lemma_marker_text(s, b, j);
        assert(own[j] == b[j]);
        assert(front.subrange(b[j].0, b[j].1) =~= s.subrange(b[j].0, b[j].1));
    }
    assert forall|i: int| 0 <= i < front.len() implies !#[trigger] nt_shape(front, i) by {
        lemma_no_tokens(s, 0, i);
        lemma_nt_shape(s, i);
        if i + 14 <= front.len() {
            assert(front.subrange(i, i + 14) =~= s.subrange(i, i + 14));
            lemma_same_shape(front, i, s, i);
        }
    }
    assert(own.skip(k) =~= b.subrange(k, m));
    lemma_unfreeze_from(front, own, k, pos, Seq::empty(), map);
    let w = frozen_stretch(s, b, k, m, pos, c);
    assert(Seq::<char>::empty() + w =~= w);
    assert(front.subrange(pos, front.len() as int) =~= s.subrange(pos, c));
}

/// A stretch of a frozen text holds no slot marker, where the text holds none.
pub(crate) proof fn lemma_stretch_free(
    s: Seq<char>,
    t: Seq<(int, int)>,
    pos: int,
    n: nat,
    mark: Seq<char>,
    i: int,
)
    requires
        n + t.len() < 10000,
        bounds_ok(t, pos, s.len() as int),
        0 <= pos,
        opens_once(mark),
        mark.len() > 5 && mark[5] != 'N',
        forall|q: int| pos <= q ==> !#[trigger] occurs_at(s, mark, q),
    ensures
        !occurs_at(with_markers(s, t, pos, n), mark, i),
    decreases t.len(),
{
    let out = with_markers(s, t, pos, n);
    if occurs_at(out, mark, i) {
        let seen = out.subrange(i, i + mark.len());
        lemma_bounds_at(t, pos, s.len() as int, 0);
        if t.len() == 0 {
            assert(s.subrange(pos + i, pos + i + mark.len()) =~= seen);
            assert(occurs_at(s, mark, pos + i));
        } else {
            let x = s.subrange(pos, t[0].0);
            let tok = nt_token_of(n + 1);
            let rest = with_markers(s, t.drop_first(), t[0].1, n + 1);
            let l = x.len() as int;
            lemma_nt_token(n + 1);
            assert(out =~= x + tok + rest);
            if i + mark.len() <= l {
                assert(s.subrange(pos + i, pos + i + mark.len()) =~= seen);
                assert(occurs_at(s, mark, pos + i));
            } else if i < l {
                let d = l - i;
                assert(seen[d] == tok[0]);
                assert(d == 1);
                assert(seen[2] == tok[1]);
            } else if i == l {
                assert(seen[5] == tok[5]);
            } else if i == l + 1 {
                assert(seen[1] == tok[2]);
            } else if i < l + 14 {
                assert(seen[0] == tok[i - l]);
                assert(!marker_digit('<'));
            } else {
                lemma_stretch_free(s, t.drop_first(), t[0].1, n + 1, mark, i - l - 14);
                assert(rest.subrange(i - l - 14, i - l - 14 + mark.len()) =~= seen);
            }
        }
    }
}

/// In a text without slot marks everything that the pattern finds is frozen, in its order: each match
/// has a marker of its own, numbered from 1, that stands for it and stands in its place, and what is
/// between the matches stays.
pub proof fn law_matches_are_frozen(s: Seq<char>, k: int)
    requires
        tokens(TokenClass::Sentinel, s).len() == 0,
        bounds_ok(found(FREEZE@, s), 0, s.len() as int),
    ensures
        frozen(s).nt_map.len() == found(FREEZE@, s).len(),
        frozen(s).mask.len() == found(FREEZE@, s).len(),
        0 <= k < found(FREEZE@, s).len() ==> {
            let (a, b) = found(FREEZE@, s)[k];
            &&& frozen(s).nt_map[k] == (nt_token_of((k + 1) as nat), s.subrange(a, b))
            &&& frozen(s).mask[k].token == nt_token_of((k + 1) as nat)
            &&& frozen(s).mask[k].original == s.subrange(a, b)
        },
        found(FREEZE@, s).len() == 0 ==> frozen(s).text == s,
        found(FREEZE@, s).len() == 1 ==> {
            let (a, b) = found(FREEZE@, s)[0];
            frozen(s).text == s.take(a) + nt_token_of(1) + s.skip(b)
        },
{
    let t = tokens(TokenClass::Sentinel, s);
    assert(t =~= Seq::<(int, int)>::empty());
    assert(s.subrange(0, s.len() as int) =~= s);
    let f = found(FREEZE@, s);
    assert(moved(f, 0) =~= f);
    assert(frozen_bounds(s) == f);
    if f.len() == 1 {
        let (a, b) = f[0];
        assert(f.drop_first() =~= Seq::<(int, int)>::empty());
        reveal_with_fuel(with_markers, 2);
        assert(s.subrange(0, a) =~= s.take(a));
        assert(s.subrange(b, s.len() as int) =~= s.skip(b));
        assert(frozen(s).text =~= s.take(a) + nt_token_of(1) + s.skip(b));
    }
}

/// A text without markers is not changed where frozen things are put back.
pub proof fn law_plain_text_stays(s: Seq<char>, map: Seq<(Seq<char>, Seq<char>)>)
    requires
        tokens(TokenClass::Nt, s).len() == 0,
    ensures
        unfrozen(s, map) == s,
{
    assert(tokens(TokenClass::Nt, s) =~= Seq::<(int, int)>::empty());
    assert(s.subrange(0, s.len() as int) =~= s);
}

/// In a text between slot marks everything that the pattern finds is frozen, as it is in a text without
/// marks.
pub proof fn law_matches_between_marks_are_frozen(s: Seq<char>, a: nat, b: nat, k: int)
    requires
        a < 1000000,
        b < 1000000,
        forall|i: int| 0 <= i < s.len() ==> #[trigger] s[i] != '<',
        found(FREEZE@, Seq::empty()).len() == 0,
        0 <= k < found(FREEZE@, s).len(),
        bounds_ok(found(FREEZE@, s), 0, s.len() as int),
    ensures
        frozen(slot_token_of(a) + s + slot_token_of(b)).nt_map.len() == found(FREEZE@, s).len(),
        frozen(slot_token_of(a) + s + slot_token_of(b)).nt_map[k] == (
            nt_token_of((k + 1) as nat),
            s.subrange(found(FREEZE@, s)[k].0, found(FREEZE@, s)[k].1),
        ),
{
    let (x, y) = (slot_token_of(a), slot_token_of(b));
    let all = x + s + y;
    let n = s.len() as int;
    lemma_slot_token(a);
    lemma_slot_token(b);
    lemma_between_slots(s, a, b);
    let t = tokens(TokenClass::Sentinel, all);
    let f = found(FREEZE@, s);
    let none = Seq::<(int, int)>::empty();
    assert(found(FREEZE@, Seq::empty()) =~= none);
    assert(all.subrange(0, 0) =~= Seq::<char>::empty());
    assert(all.subrange(18, 18 + n) =~= s);
    assert(all.subrange(36 + n, all.len() as int) =~= Seq::<char>::empty());
    assert(moved(none, 0) =~= none);
    assert(moved(none, 36 + n) =~= none);
    let rest = t.drop_first();
    assert(rest[0] == (18 + n, 36 + n));
    assert(rest.drop_first() =~= none);
    assert(frozen_between(all, none, 36 + n) =~= none);
    assert(frozen_between(all, rest, 18) =~= moved(f, 18));
    assert(frozen_between(all, t, 0) =~= moved(f, 18));
    lemma_bounds_at(f, 0, n, k);
    let (p, q) = f[k];
    assert(moved(f, 18)[k] == (p + 18, q + 18));
    assert(all.subrange(p + 18, q + 18) =~= s.subrange(p, q));
}

} // verus!
