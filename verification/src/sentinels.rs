//! The markers that stand in a text for what must not be translated.
//!
//! A marker begins with `<<MT_` and ends with `>>`. Control markers stand for tabs, breaks and
//! hyphens; numbered markers stand for frozen text, segments and slots.

use crate::chars::{
    append, dec, dec_pad, dec_padded, find_from, is_ascii_char, is_digit, lemma_dec_padded,
    lemma_find_from, lemma_find_is, lemma_trimmed_empty, matches_at, occurs_at, owned, position, str_eq, text_of, to_chars,
    trim_bounds, trimmed,
};
use crate::patterns::{is_match, matched, DIGIT};
use crate::vecs::push_deep;
use std::collections::HashMap;
use vstd::prelude::*;

verus! {

pub const SEG_ID_WIDTH: usize = 6;

pub const NT_ID_WIDTH: usize = 4;

pub const SLOT_ID_WIDTH: usize = 6;

pub const TAB: &'static str = "<<MT_TAB>>";

pub const BR: &'static str = "<<MT_BR>>";

pub const NBH: &'static str = "<<MT_NBH>>";

pub const SHY: &'static str = "<<MT_SHY>>";

/// `head`, the id in at least `width` digits, and `>>`.
pub open spec fn numbered_token(head: Seq<char>, id: nat, width: nat) -> Seq<char> {
    head + dec_padded(id, width) + ">>"@
}

pub open spec fn nt_token_of(id: nat) -> Seq<char> {
    numbered_token("<<MT_NT:"@, id, 4)
}

pub open spec fn seg_start_of(id: nat) -> Seq<char> {
    numbered_token("<<MT_SEG:"@, id, 6)
}

pub open spec fn seg_end_of(id: nat) -> Seq<char> {
    numbered_token("<<MT_END:"@, id, 6)
}

pub open spec fn slot_token_of(id: nat) -> Seq<char> {
    numbered_token("<<MT_SLOT:"@, id, 6)
}

fn make_token(head: &str, id: usize, width: usize) -> (r: String)
    ensures
        r@ == numbered_token(head@, id as nat, width as nat),
{
    let mut s: String = owned(head);
    let d: String = dec_pad(id, width);
    append(&mut s, d.as_str());
    append(&mut s, ">>");
    s
}

/// The marker of a frozen piece of text.
pub fn nt_token(nt_id: usize) -> (r: String)
    ensures
        r@ == nt_token_of(nt_id as nat),
{
    make_token("<<MT_NT:", nt_id, NT_ID_WIDTH)
}

/// The marker before a segment.
pub fn seg_start(seg_id: usize) -> (r: String)
    ensures
        r@ == seg_start_of(seg_id as nat),
{
    make_token("<<MT_SEG:", seg_id, SEG_ID_WIDTH)
}

/// The marker after a segment.
pub fn seg_end(seg_id: usize) -> (r: String)
    ensures
        r@ == seg_end_of(seg_id as nat),
{
    make_token("<<MT_END:", seg_id, SEG_ID_WIDTH)
}

/// The marker before the text of a slot.
pub fn slot_token(slot_id: usize) -> (r: String)
    ensures
        r@ == slot_token_of(slot_id as nat),
{
    make_token("<<MT_SLOT:", slot_id, SLOT_ID_WIDTH)
}

/// Whether a character is a decimal digit of some script.
pub open spec fn unicode_digit(c: char) -> bool {
    matched(DIGIT@, seq![c])
}

/// Whether a character counts as a digit in a numbered marker.
pub open spec fn marker_digit(c: char) -> bool {
    if is_ascii_char(c) {
        is_digit(c)
    } else {
        unicode_digit(c)
    }
}

pub fn is_marker_digit(c: char) -> (r: bool)
    ensures
        r == marker_digit(c),
{
    if c <= '\u{7f}' {
        c >= '0' && c <= '9'
    } else {
        let mut one: String = String::new();
        one.push(c);
        assert(one@ =~= seq![c]);
        is_match(DIGIT, one.as_str())
    }
}

/// A class of markers.
#[derive(Clone, Copy, Debug, PartialEq, Eq, Structural)]
pub enum TokenClass {
    /// Tabs, breaks and hyphens.
    Control,
    /// Frozen text.
    Nt,
    /// Control markers, frozen text, segments and slots.
    Sentinel,
    /// Whatever has the form of a marker.
    Mt,
}

/// The length of the numbered marker with `width` digits at position `i`.
pub open spec fn numbered_at(s: Seq<char>, i: int, head: Seq<char>, width: int) -> Option<nat> {
    let d = i + head.len();
    if occurs_at(s, head, i) && occurs_at(s, ">>"@, d + width) && (forall|k: int|
        d <= k < d + width ==> marker_digit(#[trigger] s[k])) {
        Some((head.len() + width + 2) as nat)
    } else {
        None
    }
}

/// The length of the marker `t` at position `i`.
pub open spec fn fixed_at(s: Seq<char>, i: int, t: Seq<char>) -> Option<nat> {
    if occurs_at(s, t, i) {
        Some(t.len())
    } else {
        None
    }
}

pub open spec fn control_at(s: Seq<char>, i: int) -> Option<nat> {
    if occurs_at(s, TAB@, i) {
        Some(TAB@.len())
    } else if occurs_at(s, BR@, i) {
        Some(BR@.len())
    } else if occurs_at(s, NBH@, i) {
        Some(NBH@.len())
    } else if occurs_at(s, SHY@, i) {
        Some(SHY@.len())
    } else {
        None
    }
}

pub open spec fn sentinel_at(s: Seq<char>, i: int) -> Option<nat> {
    if control_at(s, i) is Some {
        control_at(s, i)
    } else if numbered_at(s, i, "<<MT_NT:"@, 4) is Some {
        numbered_at(s, i, "<<MT_NT:"@, 4)
    } else if numbered_at(s, i, "<<MT_SEG:"@, 6) is Some {
        numbered_at(s, i, "<<MT_SEG:"@, 6)
    } else if numbered_at(s, i, "<<MT_END:"@, 6) is Some {
        numbered_at(s, i, "<<MT_END:"@, 6)
    } else {
        numbered_at(s, i, "<<MT_SLOT:"@, 6)
    }
}

/// The characters inside a marker of any form.
pub open spec fn marker_char(c: char) -> bool {
    'A' <= c <= 'Z' || 'a' <= c <= 'z' || is_digit(c) || c == '_' || c == ':' || c == '-'
}

/// The end of the run of marker characters that begins at `i`.
pub open spec fn marker_run_end(s: Seq<char>, i: int) -> int
    decreases s.len() - i,
{
    if 0 <= i < s.len() && marker_char(s[i]) {
        marker_run_end(s, i + 1)
    } else {
        i
    }
}

pub open spec fn mt_at(s: Seq<char>, i: int) -> Option<nat> {
    let d = i + "<<MT_"@.len();
    let e = marker_run_end(s, d);
    if occurs_at(s, "<<MT_"@, i) && 1 <= e - d <= 64 && occurs_at(s, ">>"@, e) {
        Some((e + 2 - i) as nat)
    } else {
        None
    }
}

/// The length of the marker of a class at position `i`.
pub open spec fn token_at(class: TokenClass, s: Seq<char>, i: int) -> Option<nat> {
    match class {
        TokenClass::Control => control_at(s, i),
        TokenClass::Nt => numbered_at(s, i, "<<MT_NT:"@, 4),
        TokenClass::Sentinel => sentinel_at(s, i),
        TokenClass::Mt => mt_at(s, i),
    }
}

/// The bounds of the markers of a class from position `i` on, from the left and without overlap.
pub open spec fn tokens_from(class: TokenClass, s: Seq<char>, i: int) -> Seq<(int, int)>
    decreases s.len() - i,
{
    if i < 0 || i >= s.len() {
        Seq::empty()
    } else {
        match token_at(class, s, i) {
            Some(n) if 0 < n <= s.len() - i => seq![(i, i + n)] + tokens_from(class, s, i + n),
            _ => tokens_from(class, s, i + 1),
        }
    }
}

/// The bounds of the markers of a class in a text.
pub open spec fn tokens(class: TokenClass, s: Seq<char>) -> Seq<(int, int)> {
    tokens_from(class, s, 0)
}

fn numbered_len(v: &Vec<char>, i: usize, head: &str, width: usize) -> (r: Option<usize>)
    requires
        i <= v@.len(),
    ensures
        opt_len(r) == numbered_at(v@, i as int, head@, width as int),
        r matches Some(n) ==> i + n <= v@.len(),
{
    proof {
        reveal_strlit(">>");
    }
    let h: Vec<char> = to_chars(head);
    let len: usize = v.len();
    if !matches_at(v, &h, i) {
        return None;
    }
    let d: usize = i + h.len();
    if width > len - d || 2 > len - d - width {
        return None;
    }
    let mut k: usize = d;
    while k < d + width
        invariant
            d <= k <= d + width,
            d + width + 2 <= v@.len() <= usize::MAX,
            d == i + head@.len(),
            forall|j: int| d <= j < k ==> marker_digit(#[trigger] v@[j]),
        decreases d + width - k,
    {
        if !is_marker_digit(v[k]) {
            assert(!marker_digit(v@[k as int]));
            return None;
        }
        k = k + 1;
    }
    let close: Vec<char> = to_chars(">>");
    if !matches_at(v, &close, d + width) {
        return None;
    }
    Some(h.len() + width + 2)
}

/// The number in an option.
pub open spec fn opt_len(o: Option<usize>) -> Option<nat> {
    match o {
        Some(n) => Some(n as nat),
        None => None,
    }
}

fn fixed_len(v: &Vec<char>, i: usize, t: &str) -> (r: Option<usize>)
    requires
        i <= v@.len(),
    ensures
        opt_len(r) == fixed_at(v@, i as int, t@),
        r matches Some(n) ==> i + n <= v@.len(),
{
    let p: Vec<char> = to_chars(t);
    if matches_at(v, &p, i) {
        Some(p.len())
    } else {
        None
    }
}

fn control_len(v: &Vec<char>, i: usize) -> (r: Option<usize>)
    requires
        i <= v@.len(),
    ensures
        opt_len(r) == control_at(v@, i as int),
        r matches Some(n) ==> i + n <= v@.len(),
{
    let a = fixed_len(v, i, TAB);
    if a.is_some() {
        return a;
    }
    let b = fixed_len(v, i, BR);
    if b.is_some() {
        return b;
    }
    let c = fixed_len(v, i, NBH);
    if c.is_some() {
        return c;
    }
    fixed_len(v, i, SHY)
}

fn sentinel_len(v: &Vec<char>, i: usize) -> (r: Option<usize>)
    requires
        i <= v@.len(),
    ensures
        opt_len(r) == sentinel_at(v@, i as int),
        r matches Some(n) ==> i + n <= v@.len(),
{
    let a = control_len(v, i);
    if a.is_some() {
        return a;
    }
    let b = numbered_len(v, i, "<<MT_NT:", 4);
    if b.is_some() {
        return b;
    }
    let c = numbered_len(v, i, "<<MT_SEG:", 6);
    if c.is_some() {
        return c;
    }
    let d = numbered_len(v, i, "<<MT_END:", 6);
    if d.is_some() {
        return d;
    }
    numbered_len(v, i, "<<MT_SLOT:", 6)
}

fn mt_len(v: &Vec<char>, i: usize) -> (r: Option<usize>)
    requires
        i <= v@.len(),
    ensures
        opt_len(r) == mt_at(v@, i as int),
        r matches Some(n) ==> i + n <= v@.len(),
{
    proof {
        reveal_strlit(">>");
    }
    let h: Vec<char> = to_chars("<<MT_");
    let len: usize = v.len();
    if !matches_at(v, &h, i) {
        return None;
    }
    let d: usize = i + h.len();
    let mut e: usize = d;
    while e < len && (('A' <= v[e] && v[e] <= 'Z') || ('a' <= v[e] && v[e] <= 'z') || ('0' <= v[e]
        && v[e] <= '9') || v[e] == '_' || v[e] == ':' || v[e] == '-')
        invariant
            d <= e <= v@.len(),
            len == v@.len(),
            marker_run_end(v@, e as int) == marker_run_end(v@, d as int),
        decreases v@.len() - e,
    {
        e = e + 1;
    }
    if e - d < 1 || e - d > 64 {
        return None;
    }
    let close: Vec<char> = to_chars(">>");
    if !matches_at(v, &close, e) {
        return None;
    }
    Some(e + 2 - i)
}

fn token_len(class: TokenClass, v: &Vec<char>, i: usize) -> (r: Option<usize>)
    requires
        i <= v@.len(),
    ensures
        opt_len(r) == token_at(class, v@, i as int),
        r matches Some(n) ==> i + n <= v@.len(),
{
    match class {
        TokenClass::Control => control_len(v, i),
        TokenClass::Nt => numbered_len(v, i, "<<MT_NT:", 4),
        TokenClass::Sentinel => sentinel_len(v, i),
        TokenClass::Mt => mt_len(v, i),
    }
}

/// The bounds as integers.
pub open spec fn bounds_view(v: Seq<(usize, usize)>) -> Seq<(int, int)> {
    v.map_values(|b: (usize, usize)| (b.0 as int, b.1 as int))
}

/// Whether bounds are in order, without overlap, and within a text of `n` characters from `from` on.
pub open spec fn bounds_ok(t: Seq<(int, int)>, from: int, n: int) -> bool
    decreases t.len(),
{
    if t.len() == 0 {
        from <= n
    } else {
        from <= t[0].0 < t[0].1 <= n && bounds_ok(t.drop_first(), t[0].1, n)
    }
}

/// The bounds of the markers in a text are in order, without overlap, and within the text.
pub proof fn lemma_tokens_ok(class: TokenClass, s: Seq<char>, i: int)
    requires
        0 <= i <= s.len(),
    ensures
        bounds_ok(tokens_from(class, s, i), i, s.len() as int),
    decreases s.len() - i,
{
    if i < s.len() {
        lemma_token_within(class, s, i);
        match token_at(class, s, i) {
            Some(n) if 0 < n <= s.len() - i => {
                lemma_tokens_ok(class, s, i + n);
                let t = tokens_from(class, s, i);
                assert(t.drop_first() =~= tokens_from(class, s, i + n));
            },
            _ => {
                lemma_tokens_ok(class, s, i + 1);
                lemma_bounds_from(tokens_from(class, s, i + 1), i + 1, i, s.len() as int);
            },
        }
    }
}

proof fn lemma_bounds_from(t: Seq<(int, int)>, a: int, b: int, n: int)
    requires
        bounds_ok(t, a, n),
        b <= a,
    ensures
        bounds_ok(t, b, n),
{
}

proof fn lemma_token_within(class: TokenClass, s: Seq<char>, i: int)
    requires
        0 <= i <= s.len(),
    ensures
        token_at(class, s, i) matches Some(n) ==> i + n <= s.len(),
{
    reveal_strlit(">>");
}

/// The bounds of the markers of a class in a text.
pub fn find_tokens(class: TokenClass, v: &Vec<char>) -> (r: Vec<(usize, usize)>)
    ensures
        bounds_view(r@) == tokens(class, v@),
{
    let mut out: Vec<(usize, usize)> = Vec::new();
    let mut i: usize = 0;
    assert(bounds_view(out@) + tokens_from(class, v@, 0) =~= tokens(class, v@));
    while i < v.len()
        invariant
            i <= v@.len(),
            bounds_view(out@) + tokens_from(class, v@, i as int) == tokens(class, v@),
        decreases v@.len() - i,
    {
        let ghost before = bounds_view(out@);
        match token_len(class, v, i) {
            Some(n) if n > 0 => {
                out.push((i, i + n));
                proof {
                    assert(bounds_view(out@) =~= before.push((i as int, i + n)));
                    assert(before + (seq![(i as int, i + n)] + tokens_from(class, v@, i + n))
                        =~= bounds_view(out@) + tokens_from(class, v@, i + n));
                }
                i = i + n;
            },
            _ => {
                i = i + 1;
            },
        }
    }
    assert(bounds_view(out@) + tokens_from(class, v@, i as int) =~= bounds_view(out@));
    out
}


/// The texts between bounds.
pub open spec fn texts_at(s: Seq<char>, t: Seq<(int, int)>) -> Seq<Seq<char>> {
    t.map_values(|b: (int, int)| s.subrange(b.0, b.1))
}

/// The text from `pos` on in pieces: what stands before each of the bounds, what stands between
/// them, and the rest.
pub open spec fn pieces_at(s: Seq<char>, t: Seq<(int, int)>, pos: int) -> Seq<Seq<char>>
    decreases t.len(),
{
    if t.len() == 0 {
        seq![s.subrange(pos, s.len() as int)]
    } else {
        seq![s.subrange(pos, t[0].0), s.subrange(t[0].0, t[0].1)] + pieces_at(
            s,
            t.drop_first(),
            t[0].1,
        )
    }
}

/// The text from `pos` on with `r` in place of what stands between the bounds.
pub open spec fn with_replacement(s: Seq<char>, t: Seq<(int, int)>, pos: int, r: Seq<char>) -> Seq<
    char,
>
    decreases t.len(),
{
    if t.len() == 0 {
        s.subrange(pos, s.len() as int)
    } else {
        s.subrange(pos, t[0].0) + r + with_replacement(s, t.drop_first(), t[0].1, r)
    }
}

/// Texts one after another.
pub open spec fn joined(p: Seq<Seq<char>>) -> Seq<char>
    decreases p.len(),
{
    if p.len() == 0 {
        Seq::empty()
    } else {
        p[0] + joined(p.drop_first())
    }
}

/// The bounds from the `k`-th on, with what they are bounded by.
pub(crate) proof fn lemma_bounds_at(t: Seq<(int, int)>, from: int, n: int, k: int)
    requires
        bounds_ok(t, from, n),
        0 <= k <= t.len(),
    ensures
        k < t.len() ==> from <= t[k].0 < t[k].1 <= n,
        k > 0 ==> from < t[k - 1].1 <= n && bounds_ok(t.skip(k), t[k - 1].1, n),
        k > 0 && k < t.len() ==> t[k - 1].1 <= t[k].0,
        from <= n,
    decreases k,
{
    if k == 0 {
        lemma_bounds_end(t, from, n);
    } else {
        lemma_bounds_end(t, from, n);
        lemma_bounds_at(t.drop_first(), t[0].1, n, k - 1);
        assert(t.drop_first().skip(k - 1) =~= t.skip(k));
        if k == 1 {
            assert(t.skip(1) =~= t.drop_first());
            if t.len() > 1 {
                assert(t.drop_first()[0] == t[1]);
            }
        }
    }
}

proof fn lemma_bounds_end(t: Seq<(int, int)>, from: int, n: int)
    requires
        bounds_ok(t, from, n),
    ensures
        from <= n,
    decreases t.len(),
{
    if t.len() > 0 {
        lemma_bounds_end(t.drop_first(), t[0].1, n);
    }
}

/// The end of the bounds before the `k`-th.
pub open spec fn cut(t: Seq<(int, int)>, k: int) -> int {
    if k > 0 {
        t[k - 1].1
    } else {
        0
    }
}

/// The markers of a class in a text.
pub fn token_texts(class: TokenClass, text: &str) -> (r: Vec<String>)
    ensures
        r.deep_view() == texts_at(text@, tokens(class, text@)),
{
    let v: Vec<char> = to_chars(text);
    let b: Vec<(usize, usize)> = find_tokens(class, &v);
    let ghost t = tokens(class, v@);
    proof {
        lemma_tokens_ok(class, v@, 0);
    }
    let mut out: Vec<String> = Vec::new();
    let mut k: usize = 0;
    assert(out.deep_view() =~= texts_at(v@, t.take(0)));
    while k < b.len()
        invariant
            k <= b@.len(),
            t == bounds_view(b@),
            bounds_ok(t, 0, v@.len() as int),
            out.deep_view() == texts_at(v@, t.take(k as int)),
        decreases b@.len() - k,
    {
        proof {
            lemma_bounds_at(t, 0, v@.len() as int, k as int);
            assert(t[k as int] == (b@[k as int].0 as int, b@[k as int].1 as int));
        }
        push_deep(&mut out, text_of(&v, b[k].0, b[k].1));
        k = k + 1;
        assert(texts_at(v@, t.take(k as int)) =~= texts_at(v@, t.take(k - 1)).push(
            v@.subrange(t[k - 1].0, t[k - 1].1),
        ));
    }
    assert(t.take(k as int) =~= t);
    out
}

/// A text in pieces: what stands before each marker of a class, the marker, and the rest.
pub fn split_tokens(class: TokenClass, text: &str) -> (r: Vec<String>)
    ensures
        r.deep_view() == pieces_at(text@, tokens(class, text@), 0),
{
    let v: Vec<char> = to_chars(text);
    let b: Vec<(usize, usize)> = find_tokens(class, &v);
    let ghost t = tokens(class, v@);
    proof {
        lemma_tokens_ok(class, v@, 0);
    }
    let mut out: Vec<String> = Vec::new();
    let mut pos: usize = 0;
    let mut k: usize = 0;
    assert(t.skip(0) =~= t);
    assert(out.deep_view() + pieces_at(v@, t.skip(0), 0) =~= pieces_at(v@, t, 0));
    while k < b.len()
        invariant
            k <= b@.len(),
            t == bounds_view(b@),
            bounds_ok(t, 0, v@.len() as int),
            pos == cut(t, k as int),
            out.deep_view() + pieces_at(v@, t.skip(k as int), pos as int) == pieces_at(v@, t, 0),
        decreases b@.len() - k,
    {
        let ghost before = out.deep_view();
        proof {
            lemma_bounds_at(t, 0, v@.len() as int, k as int);
            assert(t[k as int] == (b@[k as int].0 as int, b@[k as int].1 as int));
            assert(t.skip(k as int).drop_first() =~= t.skip(k + 1));
        }
        push_deep(&mut out, text_of(&v, pos, b[k].0));
        push_deep(&mut out, text_of(&v, b[k].0, b[k].1));
        proof {
            let rest = pieces_at(v@, t.skip(k + 1), t[k as int].1);
            assert(before + (seq![
                v@.subrange(pos as int, t[k as int].0),
                v@.subrange(t[k as int].0, t[k as int].1),
            ] + rest) =~= out.deep_view() + rest);
        }
        pos = b[k].1;
        k = k + 1;
    }
    proof {
        lemma_bounds_at(t, 0, v@.len() as int, k as int);
        assert(t.skip(k as int) =~= Seq::<(int, int)>::empty());
    }
    push_deep(&mut out, text_of(&v, pos, v.len()));
    out
}

/// A text with `r` in place of each marker of a class.
pub fn replace_tokens(class: TokenClass, text: &str, r: &str) -> (out: String)
    ensures
        out@ == with_replacement(text@, tokens(class, text@), 0, r@),
{
    let v: Vec<char> = to_chars(text);
    let b: Vec<(usize, usize)> = find_tokens(class, &v);
    let ghost t = tokens(class, v@);
    proof {
        lemma_tokens_ok(class, v@, 0);
    }
    let mut out: String = String::new();
    let mut pos: usize = 0;
    let mut k: usize = 0;
    assert(t.skip(0) =~= t);
    assert(out@ + with_replacement(v@, t.skip(0), 0, r@) =~= with_replacement(v@, t, 0, r@));
    while k < b.len()
        invariant
            k <= b@.len(),
            t == bounds_view(b@),
            bounds_ok(t, 0, v@.len() as int),
            pos == cut(t, k as int),
            out@ + with_replacement(v@, t.skip(k as int), pos as int, r@) == with_replacement(
                v@,
                t,
                0,
                r@,
            ),
        decreases b@.len() - k,
    {
        let ghost before = out@;
        proof {
            lemma_bounds_at(t, 0, v@.len() as int, k as int);
            assert(t[k as int] == (b@[k as int].0 as int, b@[k as int].1 as int));
            assert(t.skip(k as int).drop_first() =~= t.skip(k + 1));
        }
        let plain: String = text_of(&v, pos, b[k].0);
        append(&mut out, plain.as_str());
        append(&mut out, r);
        proof {
            let rest = with_replacement(v@, t.skip(k + 1), t[k as int].1, r@);
            assert(before + (v@.subrange(pos as int, t[k as int].0) + r@ + rest) =~= out@ + rest);
        }
        pos = b[k].1;
        k = k + 1;
    }
    proof {
        lemma_bounds_at(t, 0, v@.len() as int, k as int);
        assert(t.skip(k as int) =~= Seq::<(int, int)>::empty());
    }
    let tail: String = text_of(&v, pos, v.len());
    append(&mut out, tail.as_str());
    out
}

/// Whether a marker of a class stands somewhere in a text.
pub fn has_token(class: TokenClass, text: &str) -> (r: bool)
    ensures
        r == (tokens(class, text@).len() > 0),
{
    let v: Vec<char> = to_chars(text);
    let b: Vec<(usize, usize)> = find_tokens(class, &v);
    b.len() > 0
}

/// The control markers in a text, in their order.
pub open spec fn control_tokens(s: Seq<char>) -> Seq<Seq<char>> {
    texts_at(s, tokens(TokenClass::Control, s))
}

/// The control markers in a text, in their order.
pub fn control_tokens_from_text(text: &str) -> (r: Vec<String>)
    ensures
        r.deep_view() == control_tokens(text@),
{
    token_texts(TokenClass::Control, text)
}

/// Whether a text is a control marker.
pub open spec fn control_token(s: Seq<char>) -> bool {
    s == TAB@ || s == BR@ || s == NBH@ || s == SHY@
}

/// Whether a text is a control marker.
pub fn is_control_token(s: &str) -> (r: bool)
    ensures
        r == control_token(s@),
{
    str_eq(s, TAB) || str_eq(s, BR) || str_eq(s, NBH) || str_eq(s, SHY)
}

/// A text in pieces: what stands before each control marker, the marker, and the rest.
pub open spec fn control_pieces(s: Seq<char>) -> Seq<Seq<char>> {
    pieces_at(s, tokens(TokenClass::Control, s), 0)
}

/// A text in pieces: what stands before each control marker, the marker, and the rest.
pub fn split_by_control_sequence(text: &str) -> (r: Vec<String>)
    ensures
        r.deep_view() == control_pieces(text@),
{
    split_tokens(TokenClass::Control, text)
}

pub(crate) proof fn lemma_pieces(s: Seq<char>, t: Seq<(int, int)>, pos: int)
    requires
        bounds_ok(t, pos, s.len() as int),
        0 <= pos,
    ensures
        pieces_at(s, t, pos).len() == 2 * t.len() + 1,
        joined(pieces_at(s, t, pos)) == s.subrange(pos, s.len() as int),
        forall|k: int|
            0 <= k < t.len() ==> pieces_at(s, t, pos)[2 * k + 1] == #[trigger] texts_at(s, t)[k],
    decreases t.len(),
{
    let p = pieces_at(s, t, pos);
    if t.len() == 0 {
        lemma_bounds_end(t, pos, s.len() as int);
        assert(p.drop_first() =~= Seq::<Seq<char>>::empty());
        reveal_with_fuel(joined, 2);
        assert(joined(p) =~= s.subrange(pos, s.len() as int));
    } else {
        lemma_pieces(s, t.drop_first(), t[0].1);
        lemma_bounds_end(t.drop_first(), t[0].1, s.len() as int);
        let rest = pieces_at(s, t.drop_first(), t[0].1);
        assert(p.drop_first().drop_first() =~= rest);
        reveal_with_fuel(joined, 3);
        assert(joined(p) =~= s.subrange(pos, s.len() as int));
        assert forall|k: int| 0 <= k < t.len() implies p[2 * k + 1] == #[trigger] texts_at(s, t)[k] by {
            if k > 0 {
                assert(texts_at(s, t.drop_first())[k - 1] == texts_at(s, t)[k]);
                assert(p[2 * k + 1] == rest[2 * (k - 1) + 1]);
            }
        }
    }
}

/// The pieces that a text is split into at its control markers make up the text, and every second
/// one is a marker.
pub proof fn law_control_pieces(s: Seq<char>)
    ensures
        joined(control_pieces(s)) == s,
        control_pieces(s).len() == 2 * control_tokens(s).len() + 1,
        forall|k: int|
            0 <= k < control_tokens(s).len() ==> control_pieces(s)[2 * k + 1]
                == #[trigger] control_tokens(s)[k],
{
    lemma_tokens_ok(TokenClass::Control, s, 0);
    lemma_pieces(s, tokens(TokenClass::Control, s), 0);
    assert(s.subrange(0, s.len() as int) =~= s);
}


/// Why a reply cannot be taken apart.
#[derive(Clone, Copy, Debug, PartialEq, Eq, Structural)]
pub enum MarkerError {
    /// The marker before a segment is missing.
    MissingStart { id: usize },
    /// The marker after a segment is missing.
    MissingEnd { id: usize },
    /// The marker of a slot is missing.
    MissingSlot { id: usize },
    /// There is text before the first slot.
    UnexpectedPrefix,
    /// There is text after the last slot.
    UnexpectedSuffix,
}

/// The texts by id.
pub type TextsV = Map<usize, Seq<char>>;

/// The texts by id.
pub open spec fn texts_view(m: HashMap<usize, String>) -> TextsV {
    m@.map_values(|s: String| s@)
}

/// The deep view of a result that holds texts by id.
pub open spec fn texts_result(r: Result<HashMap<usize, String>, MarkerError>) -> Result<
    TextsV,
    MarkerError,
> {
    match r {
        Ok(m) => Ok(texts_view(m)),
        Err(e) => Err(e),
    }
}

/// The texts between the markers of the segments `ids`, which follow one another from `cursor` on.
pub open spec fn segments_from(
    s: Seq<char>,
    ids: Seq<usize>,
    cursor: int,
    acc: TextsV,
) -> Result<TextsV, MarkerError>
    decreases ids.len(),
{
    if ids.len() == 0 {
        Ok(acc)
    } else {
        let id = ids[0];
        match find_from(s, seg_start_of(id as nat), cursor) {
            None => Err(MarkerError::MissingStart { id }),
            Some(a) => {
                let b = a + seg_start_of(id as nat).len();
                match find_from(s, seg_end_of(id as nat), b) {
                    None => Err(MarkerError::MissingEnd { id }),
                    Some(e) => segments_from(
                        s,
                        ids.drop_first(),
                        e + seg_end_of(id as nat).len(),
                        acc.insert(id, s.subrange(b, e)),
                    ),
                }
            },
        }
    }
}

fn insert_text(m: &mut HashMap<usize, String>, id: usize, t: String)
    ensures
        texts_view(*final(m)) == texts_view(*old(m)).insert(id, t@),
{
    broadcast use vstd::std_specs::hash::group_hash_axioms;

    m.insert(id, t);
    assert(texts_view(*m) =~= texts_view(*old(m)).insert(id, t@));
}

fn no_texts() -> (m: HashMap<usize, String>)
    ensures
        texts_view(m) == Map::<usize, Seq<char>>::empty(),
{
    broadcast use vstd::std_specs::hash::group_hash_axioms;

    let m: HashMap<usize, String> = HashMap::new();
    assert(texts_view(m) =~= Map::<usize, Seq<char>>::empty());
    m
}

/// The text of an id.
pub fn get_text<'a>(m: &'a HashMap<usize, String>, id: usize) -> (r: Option<&'a String>)
    ensures
        match r {
            Some(t) => texts_view(*m).contains_key(id) && texts_view(*m)[id] == t@,
            None => !texts_view(*m).contains_key(id),
        },
{
    broadcast use vstd::std_specs::hash::group_hash_axioms;

    m.get(&id)
}

/// Takes apart a reply that holds each of the segments `expected_ids` between its markers.
pub fn parse_segmented_output(text: &str, expected_ids: &Vec<usize>) -> (r: Result<
    HashMap<usize, String>,
    MarkerError,
>)
    ensures
        texts_result(r) == segments_from(text@, expected_ids@, 0, Map::empty()),
{
    let v: Vec<char> = to_chars(text);
    let mut segments: HashMap<usize, String> = no_texts();
    let mut cursor: usize = 0;
    let mut i: usize = 0;
    assert(expected_ids@.skip(0) =~= expected_ids@);
    while i < expected_ids.len()
        invariant
            i <= expected_ids@.len(),
            v@ == text@,
            cursor <= v@.len(),
            segments_from(text@, expected_ids@.skip(i as int), cursor as int, texts_view(segments))
                == segments_from(text@, expected_ids@, 0, Map::empty()),
        decreases expected_ids@.len() - i,
    {
        let id: usize = expected_ids[i];
        assert(expected_ids@.skip(i as int)[0] == id);
        assert(expected_ids@.skip(i as int).drop_first() =~= expected_ids@.skip(i + 1));
        let start_text: String = seg_start(id);
        let end_text: String = seg_end(id);
        let start_marker: Vec<char> = to_chars(start_text.as_str());
        let end_marker: Vec<char> = to_chars(end_text.as_str());
        let n: usize = v.len();
        let a: usize = match position(&v, &start_marker, cursor) {
            Some(a) => a,
            None => return Err(MarkerError::MissingStart { id }),
        };
        let b: usize = a + start_marker.len();
        let e: usize = match position(&v, &end_marker, b) {
            Some(e) => e,
            None => return Err(MarkerError::MissingEnd { id }),
        };
        insert_text(&mut segments, id, text_of(&v, b, e));
        cursor = e + end_marker.len();
        i = i + 1;
    }
    Ok(segments)
}

/// The texts after the markers of the slots `ids`, which follow one another from `cursor` on. The
/// text of the last one goes to the end.
pub open spec fn slots_from(s: Seq<char>, ids: Seq<usize>, cursor: int, acc: TextsV) -> Result<
    TextsV,
    MarkerError,
>
    decreases ids.len(),
{
    if ids.len() == 0 {
        if cursor < s.len() && trimmed(s.subrange(cursor, s.len() as int)).len() > 0 {
            Err(MarkerError::UnexpectedSuffix)
        } else {
            Ok(acc)
        }
    } else {
        let id = ids[0];
        match find_from(s, slot_token_of(id as nat), cursor) {
            None => Err(MarkerError::MissingSlot { id }),
            Some(a) => {
                let b = a + slot_token_of(id as nat).len();
                if ids.len() == 1 {
                    slots_from(
                        s,
                        ids.drop_first(),
                        s.len() as int,
                        acc.insert(id, s.subrange(b, s.len() as int)),
                    )
                } else {
                    match find_from(s, slot_token_of(ids[1] as nat), b) {
                        None => Err(MarkerError::MissingSlot { id: ids[1] }),
                        Some(e) => slots_from(
                            s,
                            ids.drop_first(),
                            e,
                            acc.insert(id, s.subrange(b, e)),
                        ),
                    }
                }
            },
        }
    }
}

/// The texts of the slots `ids` in a reply. Nothing but white space may stand before the first.
pub open spec fn slots_of(s: Seq<char>, ids: Seq<usize>) -> Result<TextsV, MarkerError> {
    if ids.len() == 0 {
        Ok(Map::empty())
    } else {
        match find_from(s, slot_token_of(ids[0] as nat), 0) {
            None => Err(MarkerError::MissingSlot { id: ids[0] }),
            Some(a) => if trimmed(s.subrange(0, a)).len() > 0 {
                Err(MarkerError::UnexpectedPrefix)
            } else {
                slots_from(s, ids, 0, Map::empty())
            },
        }
    }
}

fn find_slot(v: &Vec<char>, id: usize, from: usize) -> (r: Result<(usize, usize), MarkerError>)
    requires
        from <= v@.len(),
    ensures
        match r {
            Ok((a, b)) => find_from(v@, slot_token_of(id as nat), from as int) == Some(a as int) && b
                == a + slot_token_of(id as nat).len() && from <= a && b <= v@.len(),
            Err(e) => find_from(v@, slot_token_of(id as nat), from as int) is None && e
                == MarkerError::MissingSlot { id },
        },
{
    let t: String = slot_token(id);
    let marker: Vec<char> = to_chars(t.as_str());
    let n: usize = v.len();
    match position(v, &marker, from) {
        Some(a) => Ok((a, a + marker.len())),
        None => Err(MarkerError::MissingSlot { id }),
    }
}

/// Takes apart a reply in which the text of each of the slots `expected_ids` follows its marker.
pub fn parse_slot_output(text: &str, expected_ids: &Vec<usize>) -> (r: Result<
    HashMap<usize, String>,
    MarkerError,
>)
    ensures
        texts_result(r) == slots_of(text@, expected_ids@),
{
    let mut segments: HashMap<usize, String> = no_texts();
    if expected_ids.len() == 0 {
        return Ok(segments);
    }
    let v: Vec<char> = to_chars(text);
    let first: usize = match find_slot(&v, expected_ids[0], 0) {
        Ok((a, _)) => a,
        Err(e) => return Err(e),
    };
    let (ta, tb) = trim_bounds(&v, 0, first);
    if tb > ta {
        return Err(MarkerError::UnexpectedPrefix);
    }
    let mut cursor: usize = 0;
    let mut i: usize = 0;
    assert(expected_ids@.skip(0) =~= expected_ids@);
    while i < expected_ids.len()
        invariant
            i <= expected_ids@.len(),
            v@ == text@,
            cursor <= v@.len(),
            slots_from(text@, expected_ids@.skip(i as int), cursor as int, texts_view(segments))
                == slots_of(text@, expected_ids@),
        decreases expected_ids@.len() - i,
    {
        let id: usize = expected_ids[i];
        let ghost rest = expected_ids@.skip(i as int);
        assert(rest[0] == id);
        assert(rest.drop_first() =~= expected_ids@.skip(i + 1));
        let b: usize = match find_slot(&v, id, cursor) {
            Ok((_, b)) => b,
            Err(e) => return Err(e),
        };
        let e: usize = if i + 1 < expected_ids.len() {
            assert(rest[1] == expected_ids@[i + 1]);
            match find_slot(&v, expected_ids[i + 1], b) {
                Ok((a, _)) => a,
                Err(x) => return Err(x),
            }
        } else {
            v.len()
        };
        insert_text(&mut segments, id, text_of(&v, b, e));
        cursor = e;
        i = i + 1;
    }
    if cursor < v.len() {
        let (sa, sb) = trim_bounds(&v, cursor, v.len());
        if sb > sa {
            return Err(MarkerError::UnexpectedSuffix);
        }
    }
    Ok(segments)
}

/// The texts under their ids. Of two texts with one id the second counts.
pub open spec fn texts_by_id(ids: Seq<usize>, texts: Seq<Seq<char>>, acc: TextsV) -> TextsV
    decreases ids.len(),
{
    if ids.len() == 0 || texts.len() == 0 {
        acc
    } else {
        texts_by_id(ids.drop_first(), texts.drop_first(), acc.insert(ids[0], texts[0]))
    }
}

/// Whether `mark` stands in `t` followed by `mark` nowhere but at the end.
spec fn stops_at(t: Seq<char>, mark: Seq<char>) -> bool {
    find_from(t + mark, mark, 0) == Some(t.len() as int)
}

/// A reply that holds each text between the markers of its segment, after the text `gaps` has for
/// it, and `tail` at its end.
pub open spec fn segmented(
    ids: Seq<usize>,
    texts: Seq<Seq<char>>,
    gaps: Seq<Seq<char>>,
    tail: Seq<char>,
) -> Seq<char>
    decreases ids.len(),
{
    if ids.len() == 0 {
        tail
    } else {
        gaps[0] + seg_start_of(ids[0] as nat) + texts[0] + seg_end_of(ids[0] as nat) + segmented(
            ids.drop_first(),
            texts.drop_first(),
            gaps.drop_first(),
            tail,
        )
    }
}

/// A reply that holds each text after the marker of its slot.
pub open spec fn slotted(ids: Seq<usize>, texts: Seq<Seq<char>>) -> Seq<char>
    decreases ids.len(),
{
    if ids.len() == 0 {
        Seq::empty()
    } else {
        slot_token_of(ids[0] as nat) + texts[0] + slotted(ids.drop_first(), texts.drop_first())
    }
}

/// A mark that a text stops at is found right after the text.
proof fn lemma_stop(before: Seq<char>, t: Seq<char>, mark: Seq<char>, after: Seq<char>)
    requires
        stops_at(t, mark),
    ensures
        find_from(before + t + mark + after, mark, before.len() as int) == Some(
            (before.len() + t.len()) as int,
        ),
{
    let s = before + t + mark + after;
    let n = before.len() as int;
    lemma_find_from(t + mark, mark, 0);
    assert(s.subrange(n + t.len(), n + t.len() + mark.len()) =~= mark);
    assert forall|k: int| n <= k < n + t.len() implies !#[trigger] occurs_at(s, mark, k) by {
        assert(!occurs_at(t + mark, mark, k - n));
        assert(s.subrange(k, k + mark.len()) =~= (t + mark).subrange(k - n, k - n + mark.len()));
    }
    lemma_find_is(s, mark, n, n + t.len());
}

proof fn lemma_segmented(
    before: Seq<char>,
    ids: Seq<usize>,
    texts: Seq<Seq<char>>,
    gaps: Seq<Seq<char>>,
    tail: Seq<char>,
    acc: TextsV,
)
    requires
        ids.len() == texts.len() == gaps.len(),
        forall|k: int|
            0 <= k < ids.len() ==> stops_at(#[trigger] texts[k], seg_end_of(ids[k] as nat)),
        forall|k: int|
            0 <= k < ids.len() ==> stops_at(#[trigger] gaps[k], seg_start_of(ids[k] as nat)),
    ensures
        segments_from(
            before + segmented(ids, texts, gaps, tail),
            ids,
            before.len() as int,
            acc,
        ) == Ok::<TextsV, MarkerError>(texts_by_id(ids, texts, acc)),
    decreases ids.len(),
{
    if ids.len() > 0 {
        let a = seg_start_of(ids[0] as nat);
        let z = seg_end_of(ids[0] as nat);
        let (ids1, texts1, gaps1) = (ids.drop_first(), texts.drop_first(), gaps.drop_first());
        let rest = segmented(ids1, texts1, gaps1, tail);
        let s = before + segmented(ids, texts, gaps, tail);
        assert(stops_at(gaps[0], a) && stops_at(texts[0], z));
        assert(s =~= before + gaps[0] + a + (texts[0] + z + rest));
        lemma_stop(before, gaps[0], a, texts[0] + z + rest);
        let b = before + gaps[0] + a;
        assert(s =~= b + texts[0] + z + rest);
        lemma_stop(b, texts[0], z, rest);
        let next = b + texts[0] + z;
        assert(s =~= next + rest);
        assert(s.subrange(b.len() as int, (b.len() + texts[0].len()) as int) =~= texts[0]);
        assert forall|k: int| 0 <= k < ids1.len() implies stops_at(
            #[trigger] texts1[k],
            seg_end_of(ids1[k] as nat),
        ) by {
            assert(stops_at(texts[k + 1], seg_end_of(ids[k + 1] as nat)));
        }
        assert forall|k: int| 0 <= k < ids1.len() implies stops_at(
            #[trigger] gaps1[k],
            seg_start_of(ids1[k] as nat),
        ) by {
            assert(stops_at(gaps[k + 1], seg_start_of(ids[k + 1] as nat)));
        }
        lemma_segmented(next, ids1, texts1, gaps1, tail, acc.insert(ids[0], texts[0]));
    }
}

/// Whether the mark is that of a marker: it begins with the two characters that no other place of it
/// holds.
pub(crate) open spec fn opens_once(mark: Seq<char>) -> bool {
    &&& mark.len() > 2
    &&& mark[0] == '<' && mark[1] == '<'
    &&& forall|d: int| 2 <= d < mark.len() ==> #[trigger] mark[d] != '<'
}

/// No end of a text and beginning of a marker make up the marker: a text without the marker stops at
/// it.
proof fn lemma_free_stops(t: Seq<char>, mark: Seq<char>)
    requires
        opens_once(mark),
        find_from(t, mark, 0) is None,
    ensures
        stops_at(t, mark),
{
    let s = t + mark;
    let n = t.len() as int;
    lemma_find_from(t, mark, 0);
    assert(s.subrange(n, n + mark.len()) =~= mark);
    assert forall|k: int| 0 <= k < n implies !#[trigger] occurs_at(s, mark, k) by {
        if occurs_at(s, mark, k) {
            let found = s.subrange(k, k + mark.len());
            if k + mark.len() <= n {
                assert(t.subrange(k, k + mark.len()) =~= found);
                assert(occurs_at(t, mark, k));
            } else {
                let d = n - k;
                assert(found[d] == s[n]);
                assert(s[n] == mark[0]);
                assert(mark[d] == '<');
                assert(d == 1);
                assert(found[2] == s[n + 1]);
                assert(s[n + 1] == mark[1]);
                assert(mark[2] == '<');
            }
        }
    }
    lemma_find_is(s, mark, 0, n);
}

pub(crate) proof fn lemma_token_opens(head: Seq<char>, id: nat)
    requires
        head == "<<MT_SEG:"@ || head == "<<MT_END:"@ || head == "<<MT_SLOT:"@,
    ensures
        opens_once(numbered_token(head, id, 6)),
{
    reveal_strlit("<<MT_SEG:");
    reveal_strlit("<<MT_END:");
    reveal_strlit("<<MT_SLOT:");
    reveal_strlit(">>");
    lemma_dec_padded(id, 6);
    let mark = numbered_token(head, id, 6);
    let digits = dec_padded(id, 6);
    assert(head.len() == 9 || head.len() == 10);
    assert(mark =~= head + digits + ">>"@);
    assert forall|d: int| 2 <= d < mark.len() implies #[trigger] mark[d] != '<' by {
        if d < head.len() {
            assert(mark[d] == head[d]);
        } else if d < head.len() + digits.len() {
            assert(mark[d] == digits[d - head.len()]);
            assert(is_digit(digits[d - head.len()]));
        } else {
            assert(mark[d] == ">>"@[d - head.len() - digits.len()]);
        }
    }
}

proof fn lemma_text_opens(s: Seq<char>, i: int, mark: Seq<char>)
    requires
        occurs_at(s, mark, i),
        opens_once(mark),
    ensures
        forall|d: int| 2 <= d < mark.len() ==> #[trigger] s[i + d] != '<',
{
    assert forall|d: int| 2 <= d < mark.len() implies #[trigger] s[i + d] != '<' by {
        assert(s.subrange(i, i + mark.len())[d] == mark[d]);
    }
}

proof fn lemma_numbered_opens(s: Seq<char>, i: int, head: Seq<char>, width: int)
    requires
        0 <= i,
        0 <= width,
        opens_once(head),
        numbered_at(s, i, head, width) is Some,
    ensures
        forall|d: int|
            2 <= d < numbered_at(s, i, head, width)->Some_0 ==> #[trigger] s[i + d] != '<',
{
    reveal_strlit(">>");
    lemma_text_opens(s, i, head);
    let n = head.len() + width + 2;
    let e = i + head.len() + width;
    assert forall|d: int| 2 <= d < n implies #[trigger] s[i + d] != '<' by {
        if head.len() <= d < head.len() + width {
            assert(marker_digit(s[i + d]));
        } else if d >= head.len() + width {
            assert(s.subrange(e, e + 2)[i + d - e] == ">>"@[i + d - e]);
        }
    }
}

/// A marker holds the beginning of no other.
proof fn lemma_sentinel_opens(s: Seq<char>, i: int)
    requires
        0 <= i,
        sentinel_at(s, i) is Some,
    ensures
        forall|d: int| 2 <= d < sentinel_at(s, i)->Some_0 ==> #[trigger] s[i + d] != '<',
        sentinel_at(s, i)->Some_0 > 2,
{
    reveal_strlit("<<MT_TAB>>");
    reveal_strlit("<<MT_BR>>");
    reveal_strlit("<<MT_NBH>>");
    reveal_strlit("<<MT_SHY>>");
    reveal_strlit("<<MT_NT:");
    reveal_strlit("<<MT_SEG:");
    reveal_strlit("<<MT_END:");
    reveal_strlit("<<MT_SLOT:");
    if occurs_at(s, TAB@, i) {
        lemma_text_opens(s, i, TAB@);
    } else if occurs_at(s, BR@, i) {
        lemma_text_opens(s, i, BR@);
    } else if occurs_at(s, NBH@, i) {
        lemma_text_opens(s, i, NBH@);
    } else if occurs_at(s, SHY@, i) {
        lemma_text_opens(s, i, SHY@);
    } else if numbered_at(s, i, "<<MT_NT:"@, 4) is Some {
        lemma_numbered_opens(s, i, "<<MT_NT:"@, 4);
    } else if numbered_at(s, i, "<<MT_SEG:"@, 6) is Some {
        lemma_numbered_opens(s, i, "<<MT_SEG:"@, 6);
    } else if numbered_at(s, i, "<<MT_END:"@, 6) is Some {
        lemma_numbered_opens(s, i, "<<MT_END:"@, 6);
    } else {
        lemma_numbered_opens(s, i, "<<MT_SLOT:"@, 6);
    }
}

/// The marker of a slot has six digits.
pub(crate) proof fn lemma_slot_token(id: nat)
    requires
        id < 1000000,
    ensures
        slot_token_of(id).len() == 18,
        slot_token_of(id)[0] == '<' && slot_token_of(id)[1] == '<' && slot_token_of(id)[2] == 'M',
        slot_token_of(id)[5] == 'S' && slot_token_of(id)[6] == 'L',
        slot_token_of(id).take(10) == "<<MT_SLOT:"@,
        slot_token_of(id).subrange(16, 18) == ">>"@,
        forall|k: int| 10 <= k < 16 ==> marker_digit(#[trigger] slot_token_of(id)[k]),
        opens_once(slot_token_of(id)),
{
    reveal_strlit("<<MT_SLOT:");
    reveal_strlit(">>");
    lemma_dec_padded(id, 6);
    reveal_with_fuel(dec, 7);
    assert(dec(id).len() <= 6);
    let d = dec_padded(id, 6);
    let t = slot_token_of(id);
    assert(d.len() == 6);
    assert(t.take(10) =~= "<<MT_SLOT:"@);
    assert(t.subrange(16, 18) =~= ">>"@);
    assert forall|k: int| 10 <= k < 16 implies marker_digit(#[trigger] t[k]) by {
        assert(t[k] == d[k - 10]);
        assert(is_digit(d[k - 10]));
    }
    lemma_token_opens("<<MT_SLOT:"@, id);
}

proof fn lemma_slot_is_marker(s: Seq<char>, id: nat, q: int)
    requires
        id < 1000000,
        occurs_at(s, slot_token_of(id), q),
    ensures
        sentinel_at(s, q) == Some(18nat),
{
    lemma_slot_token(id);
    let t = slot_token_of(id);
    let seen = s.subrange(q, q + 18);
    assert(s[q + 5] == seen[5] && s[q + 6] == seen[6]);
    reveal_strlit("<<MT_TAB>>");
    reveal_strlit("<<MT_BR>>");
    reveal_strlit("<<MT_NBH>>");
    reveal_strlit("<<MT_SHY>>");
    reveal_strlit("<<MT_NT:");
    reveal_strlit("<<MT_SEG:");
    reveal_strlit("<<MT_END:");
    reveal_strlit("<<MT_SLOT:");
    reveal_strlit(">>");
    assert(!occurs_at(s, TAB@, q)) by {
        if occurs_at(s, TAB@, q) {
            assert(s.subrange(q, q + 10)[5] == s[q + 5]);
        }
    }
    assert(!occurs_at(s, BR@, q)) by {
        if occurs_at(s, BR@, q) {
            assert(s.subrange(q, q + 9)[5] == s[q + 5]);
        }
    }
    assert(!occurs_at(s, NBH@, q)) by {
        if occurs_at(s, NBH@, q) {
            assert(s.subrange(q, q + 10)[5] == s[q + 5]);
        }
    }
    assert(!occurs_at(s, SHY@, q)) by {
        if occurs_at(s, SHY@, q) {
            assert(s.subrange(q, q + 10)[6] == s[q + 6]);
        }
    }
    assert(!occurs_at(s, "<<MT_NT:"@, q)) by {
        if occurs_at(s, "<<MT_NT:"@, q) {
            assert(s.subrange(q, q + 8)[5] == s[q + 5]);
        }
    }
    assert(!occurs_at(s, "<<MT_SEG:"@, q)) by {
        if occurs_at(s, "<<MT_SEG:"@, q) {
            assert(s.subrange(q, q + 9)[6] == s[q + 6]);
        }
    }
    assert(!occurs_at(s, "<<MT_END:"@, q)) by {
        if occurs_at(s, "<<MT_END:"@, q) {
            assert(s.subrange(q, q + 9)[5] == s[q + 5]);
        }
    }
    assert(s.subrange(q, q + 10) =~= t.take(10)) by {
        assert(s.subrange(q, q + 10) =~= seen.take(10));
    }
    assert(s.subrange(q + 16, q + 18) =~= t.subrange(16, 18)) by {
        assert(s.subrange(q + 16, q + 18) =~= seen.subrange(16, 18));
    }
    assert forall|k: int| q + 10 <= k < q + 16 implies marker_digit(#[trigger] s[k]) by {
        assert(s[k] == seen[k - q]);
        assert(marker_digit(t[k - q]));
    }
    assert(numbered_at(s, q, "<<MT_SLOT:"@, 6) == Some(18nat));
}

/// The marker of a slot is one of the markers of a text.
pub(crate) proof fn lemma_slot_found(s: Seq<char>, id: nat, q: int, i: int)
    requires
        id < 1000000,
        occurs_at(s, slot_token_of(id), q),
        0 <= i <= q,
    ensures
        tokens_from(TokenClass::Sentinel, s, i).contains((q, q + 18)),
    decreases q - i,
{
    lemma_slot_token(id);
    lemma_slot_is_marker(s, id, q);
    let all = tokens_from(TokenClass::Sentinel, s, i);
    if i == q {
        assert(all[0] == (q, q + 18));
    } else {
        let seen = s.subrange(q, q + 18);
        assert(s[q] == seen[0] && s[q + 1] == seen[1] && s[q + 2] == seen[2]);
        match token_at(TokenClass::Sentinel, s, i) {
            Some(n) if 0 < n <= s.len() - i => {
                lemma_sentinel_opens(s, i);
                if i + n > q {
                    let d = q - i;
                    if d >= 2 {
                        assert(s[i + d] != '<');
                    } else {
                        assert(s[i + 2] != '<');
                    }
                }
                lemma_slot_found(s, id, q, i + n);
                let rest = tokens_from(TokenClass::Sentinel, s, i + n);
                let j = choose|j: int| 0 <= j < rest.len() && rest[j] == (q, q + 18);
                assert(all[j + 1] == rest[j]);
            },
            _ => {
                lemma_slot_found(s, id, q, i + 1);
            },
        }
    }
}

/// A marker begins with two opening angle brackets.
pub(crate) proof fn lemma_sentinel_brackets(s: Seq<char>, i: int)
    requires
        0 <= i,
        sentinel_at(s, i) is Some,
    ensures
        i + 1 < s.len(),
        s[i] == '<' && s[i + 1] == '<',
{
    reveal_strlit("<<MT_TAB>>");
    reveal_strlit("<<MT_BR>>");
    reveal_strlit("<<MT_NBH>>");
    reveal_strlit("<<MT_SHY>>");
    reveal_strlit("<<MT_NT:");
    reveal_strlit("<<MT_SEG:");
    reveal_strlit("<<MT_END:");
    reveal_strlit("<<MT_SLOT:");
    assert forall|head: Seq<char>|
        #[trigger] occurs_at(s, head, i) && head.len() >= 2 && head[0] == '<' && head[1]
            == '<' implies i + 1 < s.len() && s[i] == '<' && s[i + 1] == '<' by {
        let seen = s.subrange(i, i + head.len());
        assert(seen[0] == s[i] && seen[1] == s[i + 1]);
    }
}

proof fn lemma_skip_text(s: Seq<char>, i: int, j: int)
    requires
        0 <= i <= j <= s.len(),
        forall|k: int| i <= k < j ==> #[trigger] s[k] != '<',
    ensures
        tokens_from(TokenClass::Sentinel, s, i) == tokens_from(TokenClass::Sentinel, s, j),
    decreases j - i,
{
    if i < j {
        assert(s[i] != '<');
        if token_at(TokenClass::Sentinel, s, i) is Some {
            lemma_sentinel_brackets(s, i);
        }
        lemma_skip_text(s, i + 1, j);
    }
}

/// A marker of a slot comes before the markers of what follows it.
proof fn lemma_slot_first(s: Seq<char>, id: nat, q: int)
    requires
        id < 1000000,
        occurs_at(s, slot_token_of(id), q),
    ensures
        tokens_from(TokenClass::Sentinel, s, q) == seq![(q, q + 18)] + tokens_from(
            TokenClass::Sentinel,
            s,
            q + 18,
        ),
{
    lemma_slot_token(id);
    lemma_slot_is_marker(s, id, q);
    assert(token_at(TokenClass::Sentinel, s, q) == Some(18nat));
}

/// The markers of a text between the markers of two slots are those of the slots.
pub(crate) proof fn lemma_between_slots(t: Seq<char>, a: nat, b: nat)
    requires
        a < 1000000,
        b < 1000000,
        forall|k: int| 0 <= k < t.len() ==> #[trigger] t[k] != '<',
    ensures
        tokens(TokenClass::Sentinel, slot_token_of(a) + t + slot_token_of(b)) == seq![
            (0int, 18int),
            ((18 + t.len()) as int, (36 + t.len()) as int),
        ],
{
    lemma_slot_token(a);
    lemma_slot_token(b);
    let (x, y) = (slot_token_of(a), slot_token_of(b));
    let s = x + t + y;
    let n = 18 + t.len() as int;
    assert(s.subrange(0, 18) =~= x);
    assert(s.subrange(n, n + 18) =~= y);
    lemma_slot_first(s, a, 0);
    lemma_slot_first(s, b, n);
    assert forall|k: int| 18 <= k < n implies #[trigger] s[k] != '<' by {
        assert(s[k] == t[k - 18]);
    }
    lemma_skip_text(s, 18, n);
    assert(tokens_from(TokenClass::Sentinel, s, n + 18) =~= Seq::<(int, int)>::empty());
    assert(tokens(TokenClass::Sentinel, s) =~= seq![(0int, 18int), (n, n + 18)]);
}

/// A reply in which each text stands between the markers of its segment is taken apart into the
/// texts, whatever stands between the segments, as long as no text and no gap holds the marker that
/// comes next.
pub proof fn law_segments_come_back(
    ids: Seq<usize>,
    texts: Seq<Seq<char>>,
    gaps: Seq<Seq<char>>,
    tail: Seq<char>,
)
    requires
        ids.len() == texts.len() == gaps.len(),
        forall|k: int|
            0 <= k < ids.len() ==> find_from(
                #[trigger] texts[k],
                seg_end_of(ids[k] as nat),
                0,
            ) is None,
        forall|k: int|
            0 <= k < ids.len() ==> find_from(
                #[trigger] gaps[k],
                seg_start_of(ids[k] as nat),
                0,
            ) is None,
    ensures
        segments_from(segmented(ids, texts, gaps, tail), ids, 0, Map::empty()) == Ok::<
            TextsV,
            MarkerError,
        >(texts_by_id(ids, texts, Map::empty())),
{
    let s = segmented(ids, texts, gaps, tail);
    assert forall|k: int| 0 <= k < ids.len() implies stops_at(
        #[trigger] texts[k],
        seg_end_of(ids[k] as nat),
    ) by {
        lemma_token_opens("<<MT_END:"@, ids[k] as nat);
        lemma_free_stops(texts[k], seg_end_of(ids[k] as nat));
    }
    assert forall|k: int| 0 <= k < ids.len() implies stops_at(
        #[trigger] gaps[k],
        seg_start_of(ids[k] as nat),
    ) by {
        lemma_token_opens("<<MT_SEG:"@, ids[k] as nat);
        lemma_free_stops(gaps[k], seg_start_of(ids[k] as nat));
    }
    lemma_segmented(Seq::empty(), ids, texts, gaps, tail, Map::empty());
    assert(Seq::<char>::empty() + s =~= s);
}

proof fn lemma_slotted(
    before: Seq<char>,
    ids: Seq<usize>,
    texts: Seq<Seq<char>>,
    acc: TextsV,
)
    requires
        ids.len() == texts.len(),
        forall|k: int|
            0 <= k < ids.len() - 1 ==> stops_at(
                #[trigger] texts[k],
                slot_token_of(ids[k + 1] as nat),
            ),
    ensures
        slots_from(before + slotted(ids, texts), ids, before.len() as int, acc) == Ok::<
            TextsV,
            MarkerError,
        >(texts_by_id(ids, texts, acc)),
    decreases ids.len(),
{
    let s = before + slotted(ids, texts);
    if ids.len() == 0 {
        assert(s =~= before);
    } else {
        let a = slot_token_of(ids[0] as nat);
        let (ids1, texts1) = (ids.drop_first(), texts.drop_first());
        let rest = slotted(ids1, texts1);
        assert(s =~= before + Seq::<char>::empty() + a + (texts[0] + rest));
        assert(Seq::<char>::empty() + a =~= a);
        assert(a.subrange(0, a.len() as int) =~= a);
        lemma_find_is(a, a, 0, 0);
        lemma_stop(before, Seq::empty(), a, texts[0] + rest);
        let b = before + a;
        if ids.len() == 1 {
            assert(rest =~= Seq::<char>::empty());
            assert(s.subrange(b.len() as int, s.len() as int) =~= texts[0]);
            assert(s =~= s + slotted(ids1, texts1));
            lemma_slotted(s, ids1, texts1, acc.insert(ids[0], texts[0]));
        } else {
            let z = slot_token_of(ids[1] as nat);
            assert(stops_at(texts[0], slot_token_of(ids[1] as nat)));
            assert(ids1[0] == ids[1]);
            let more = texts1[0] + slotted(ids1.drop_first(), texts1.drop_first());
            assert(s =~= b + texts[0] + z + more);
            lemma_stop(b, texts[0], z, more);
            let next = b + texts[0];
            assert(s =~= next + rest);
            assert(s.subrange(b.len() as int, next.len() as int) =~= texts[0]);
            assert forall|k: int| 0 <= k < ids1.len() - 1 implies stops_at(
                #[trigger] texts1[k],
                slot_token_of(ids1[k + 1] as nat),
            ) by {
                assert(stops_at(texts[k + 1], slot_token_of(ids[k + 1 + 1] as nat)));
            }
            lemma_slotted(next, ids1, texts1, acc.insert(ids[0], texts[0]));
        }
    }
}

/// A reply in which each text follows the marker of its slot is taken apart into the texts, as long
/// as no text holds the marker that comes next.
pub proof fn law_slots_come_back(ids: Seq<usize>, texts: Seq<Seq<char>>)
    requires
        ids.len() == texts.len(),
        forall|k: int|
            0 <= k < ids.len() - 1 ==> find_from(
                #[trigger] texts[k],
                slot_token_of(ids[k + 1] as nat),
                0,
            ) is None,
    ensures
        slots_of(slotted(ids, texts), ids) == Ok::<TextsV, MarkerError>(
            texts_by_id(ids, texts, Map::empty()),
        ),
{
    let s = slotted(ids, texts);
    assert forall|k: int| 0 <= k < ids.len() - 1 implies stops_at(
        #[trigger] texts[k],
        slot_token_of(ids[k + 1] as nat),
    ) by {
        lemma_token_opens("<<MT_SLOT:"@, ids[k + 1] as nat);
        lemma_free_stops(texts[k], slot_token_of(ids[k + 1] as nat));
    }
    lemma_slotted(Seq::empty(), ids, texts, Map::empty());
    assert(Seq::<char>::empty() + s =~= s);
    if ids.len() > 0 {
        let a = slot_token_of(ids[0] as nat);
        assert(s.subrange(0, a.len() as int) =~= a);
        lemma_find_is(s, a, 0, 0);
        assert(s.subrange(0, 0) =~= Seq::<char>::empty());
        lemma_trimmed_empty(Seq::empty());
    }
}

} // verus!
