//! Small questions about texts.

use crate::chars::{is_ascii_char, is_ws, lemma_trimmed_within, owned, to_chars, trim, trimmed};
use crate::patterns::{is_match, some_letter, LETTER};
use crate::sentinels::{
    lemma_between_slots, lemma_sentinel_brackets, lemma_slot_token, replace_tokens, slot_token_of,
    token_at, tokens, tokens_from, with_replacement, TokenClass,
};
use vstd::prelude::*;

verus! {

/// A text with a space in place of each marker.
pub open spec fn stripped(s: Seq<char>) -> Seq<char> {
    with_replacement(s, tokens(TokenClass::Sentinel, s), 0, " "@)
}

/// A text with a space in place of each marker.
pub fn strip_sentinels(text: &str) -> (r: String)
    ensures
        r@ == stripped(text@),
{
    replace_tokens(TokenClass::Sentinel, text, " ")
}

pub open spec fn ascii_letter(c: char) -> bool {
    'A' <= c <= 'Z' || 'a' <= c <= 'z'
}

/// Whether a text holds no letter outside its markers.
pub open spec fn trivial_text(s: Seq<char>) -> bool {
    trimmed(stripped(s)).len() == 0 || !some_letter(trimmed(stripped(s)))
}

/// Whether a text holds no letter outside its markers.
pub fn is_trivial_sentinel_text(text: &str) -> (r: bool)
    ensures
        r == trivial_text(text@),
{
    let plain: String = strip_sentinels(text);
    let t: String = trim(plain.as_str());
    if t.as_str().is_empty() {
        return true;
    }
    !is_match(LETTER, t.as_str())
}

/// Whether a character is a unified CJK ideograph of the basic block.
pub open spec fn cjk_char(c: char) -> bool {
    '\u{4e00}' <= c <= '\u{9fff}'
}

/// The number of CJK ideographs in a text.
pub open spec fn cjk_count(s: Seq<char>) -> nat
    decreases s.len(),
{
    if s.len() == 0 {
        0
    } else {
        cjk_count(s.drop_last()) + if cjk_char(s.last()) {
            1nat
        } else {
            0
        }
    }
}

/// The number of ASCII letters in a text.
pub open spec fn latin_count(s: Seq<char>) -> nat
    decreases s.len(),
{
    if s.len() == 0 {
        0
    } else {
        latin_count(s.drop_last()) + if ascii_letter(s.last()) {
            1nat
        } else {
            0
        }
    }
}

/// The numbers of CJK ideographs and of ASCII letters in a text.
pub fn count_scripts(text: &str) -> (r: (usize, usize))
    ensures
        r.0 == cjk_count(text@),
        r.1 == latin_count(text@),
        r.0 + r.1 <= text@.len(),
{
    let v: Vec<char> = to_chars(text);
    let mut cjk: usize = 0;
    let mut latin: usize = 0;
    let mut i: usize = 0;
    assert(v@.take(0) =~= Seq::<char>::empty());
    while i < v.len()
        invariant
            i <= v@.len(),
            cjk == cjk_count(v@.take(i as int)),
            latin == latin_count(v@.take(i as int)),
            cjk + latin <= i,
        decreases v@.len() - i,
    {
        let c: char = v[i];
        assert(v@.take(i + 1).drop_last() =~= v@.take(i as int));
        if c >= '\u{4e00}' && c <= '\u{9fff}' {
            cjk = cjk + 1;
        }
        if (c >= 'A' && c <= 'Z') || (c >= 'a' && c <= 'z') {
            latin = latin + 1;
        }
        i = i + 1;
    }
    assert(v@.take(i as int) =~= v@);
    (cjk, latin)
}

/// The number of CJK ideographs outside the markers of a list of texts.
pub open spec fn cjk_total(texts: Seq<Seq<char>>) -> nat
    decreases texts.len(),
{
    if texts.len() == 0 {
        0
    } else {
        cjk_total(texts.drop_last()) + cjk_count(stripped(texts.last()))
    }
}

/// The number of ASCII letters outside the markers of a list of texts.
pub open spec fn latin_total(texts: Seq<Seq<char>>) -> nat
    decreases texts.len(),
{
    if texts.len() == 0 {
        0
    } else {
        latin_total(texts.drop_last()) + latin_count(stripped(texts.last()))
    }
}

/// The source and the target language, given the numbers of CJK ideographs and of ASCII letters:
/// from Chinese to English where ideographs outnumber letters two to one and there are twelve of
/// them, and from English to Chinese otherwise.
pub open spec fn language_pair(cjk: nat, latin: nat) -> (Seq<char>, Seq<char>) {
    let mostly_latin = latin >= 2 * cjk && latin >= 12;
    if !mostly_latin && cjk >= 2 * latin && cjk >= 12 {
        ("zh"@, "en"@)
    } else {
        ("en"@, "zh"@)
    }
}

/// The source and the target language that a list of excerpts suggests.
pub fn auto_language_pair(excerpts: &Vec<String>) -> (r: (String, String))
    ensures
        r.deep_view() == language_pair(
            cjk_total(excerpts.deep_view()),
            latin_total(excerpts.deep_view()),
        ),
{
    let ghost model = excerpts.deep_view();
    let mut cjk: u128 = 0;
    let mut latin: u128 = 0;
    let mut i: usize = 0;
    assert(model.take(0) =~= Seq::<Seq<char>>::empty());
    while i < excerpts.len()
        invariant
            i <= excerpts@.len(),
            model == excerpts.deep_view(),
            cjk == cjk_total(model.take(i as int)),
            latin == latin_total(model.take(i as int)),
            cjk <= i * 0xffff_ffff_ffff_ffff,
            latin <= i * 0xffff_ffff_ffff_ffff,
        decreases excerpts@.len() - i,
    {
        assert(model.take(i + 1).drop_last() =~= model.take(i as int));
        let plain: String = strip_sentinels(excerpts[i].as_str());
        let (c, l) = count_scripts(plain.as_str());
        assert((i + 1) * 0xffff_ffff_ffff_ffff == i * 0xffff_ffff_ffff_ffff
            + 0xffff_ffff_ffff_ffff);
        assert(i * 0xffff_ffff_ffff_ffff <= 0xffff_ffff_ffff_fffe * 0xffff_ffff_ffff_ffff)
            by (nonlinear_arith)
            requires
                i <= 0xffff_ffff_ffff_fffe,
        ;
        cjk = cjk + c as u128;
        latin = latin + l as u128;
        i = i + 1;
    }
    assert(model.take(i as int) =~= model);
    let mostly_latin: bool = latin / 2 >= cjk && latin >= 12;
    if !mostly_latin && cjk / 2 >= latin && cjk >= 12 {
        (owned("zh"), owned("en"))
    } else {
        (owned("en"), owned("zh"))
    }
}

/// How many characters of some texts are as `p` says.
pub open spec fn how_many(texts: Seq<Seq<char>>, p: spec_fn(char) -> bool) -> nat {
    texts.flatten_alt().filter(p).len()
}

/// Whether no text holds two opening angle brackets side by side, with which every marker begins.
pub open spec fn without_markers(texts: Seq<Seq<char>>) -> bool {
    forall|i: int, k: int|
        0 <= i < texts.len() && 0 <= k < texts[i].len() - 1 && #[trigger] texts[i][k] == '<'
            ==> texts[i][k + 1] != '<'
}

proof fn lemma_no_marker(s: Seq<char>, i: int)
    requires
        0 <= i,
        forall|k: int| 0 <= k < s.len() - 1 && #[trigger] s[k] == '<' ==> s[k + 1] != '<',
    ensures
        tokens_from(TokenClass::Sentinel, s, i).len() == 0,
    decreases s.len() - i,
{
    if i < s.len() {
        if let Some(n) = token_at(TokenClass::Sentinel, s, i) {
            lemma_sentinel_brackets(s, i);
            assert(s[i] == '<');
        }
        lemma_no_marker(s, i + 1);
    }
}

proof fn lemma_script_counts(s: Seq<char>)
    ensures
        cjk_count(s) == s.filter(|c: char| '\u{4e00}' <= c <= '\u{9fff}').len(),
        latin_count(s) == s.filter(|c: char| 'A' <= c <= 'Z' || 'a' <= c <= 'z').len(),
    decreases s.len(),
{
    reveal(Seq::filter);
    if s.len() > 0 {
        lemma_script_counts(s.drop_last());
    }
}

proof fn lemma_script_totals(texts: Seq<Seq<char>>)
    requires
        without_markers(texts),
    ensures
        cjk_total(texts) == how_many(texts, |c: char| '\u{4e00}' <= c <= '\u{9fff}'),
        latin_total(texts) == how_many(texts, |c: char| 'A' <= c <= 'Z' || 'a' <= c <= 'z'),
    decreases texts.len(),
{
    let cjk = |c: char| '\u{4e00}' <= c <= '\u{9fff}';
    let latin = |c: char| 'A' <= c <= 'Z' || 'a' <= c <= 'z';
    reveal(Seq::filter);
    if texts.len() > 0 {
        let front = texts.drop_last();
        let last = texts.last();
        assert forall|i: int, k: int|
            0 <= i < front.len() && 0 <= k < front[i].len() - 1 && #[trigger] front[i][k]
                == '<' implies front[i][k + 1] != '<' by {
            assert(front[i] == texts[i]);
            assert(texts[i][k] == '<');
        }
        lemma_script_totals(front);
        assert forall|k: int| 0 <= k < last.len() - 1 && #[trigger] last[k] == '<' implies last[k + 1]
            != '<' by {
            assert(texts[texts.len() - 1][k] == '<');
        }
        lemma_no_marker(last, 0);
        assert(stripped(last) =~= last);
        lemma_script_counts(last);
        Seq::filter_distributes_over_add(front.flatten_alt(), last, cjk);
        Seq::filter_distributes_over_add(front.flatten_alt(), last, latin);
    }
}

/// A document is taken for a Chinese one if and only if it has at least twelve ideographs and at least
/// twice as many of them as Latin letters, over all excerpts; else it is taken for an English one. The
/// target is the other of the two languages.
pub proof fn law_chinese_is_told_from_english(excerpts: Seq<Seq<char>>)
    requires
        without_markers(excerpts),
    ensures
        ({
            let ideographs = how_many(excerpts, |c: char| '\u{4e00}' <= c <= '\u{9fff}');
            let letters = how_many(excerpts, |c: char| 'A' <= c <= 'Z' || 'a' <= c <= 'z');
            language_pair(cjk_total(excerpts), latin_total(excerpts)) == if ideographs >= 12
                && ideographs >= 2 * letters {
                ("zh"@, "en"@)
            } else {
                ("en"@, "zh"@)
            }
        }),
{
    lemma_script_totals(excerpts);
}

/// Slot marks round a text are taken for blanks.
proof fn lemma_stripped_between(s: Seq<char>, a: nat, b: nat)
    requires
        a < 1000000,
        b < 1000000,
        forall|k: int| 0 <= k < s.len() ==> #[trigger] s[k] != '<',
    ensures
        stripped(slot_token_of(a) + s + slot_token_of(b)) == " "@ + s + " "@,
{
    let (x, y) = (slot_token_of(a), slot_token_of(b));
    let all = x + s + y;
    lemma_slot_token(a);
    lemma_slot_token(b);
    lemma_between_slots(s, a, b);
    reveal_strlit(" ");
    let m = tokens(TokenClass::Sentinel, all);
    assert(m.drop_first().drop_first() =~= Seq::<(int, int)>::empty());
    assert(with_replacement(all, m.drop_first().drop_first(), (36 + s.len()) as int, " "@)
        =~= Seq::<char>::empty());
    assert(all.subrange(18, (18 + s.len()) as int) =~= s);
    assert(with_replacement(all, m.drop_first(), 18, " "@) =~= s + " "@);
    assert(all.subrange(0, 0) =~= Seq::<char>::empty());
    assert(stripped(all) =~= " "@ + s + " "@);
}

/// What stands in markers does not count for the language of a text: a text between the markers of
/// slots has the letters and ideographs of the text itself.
pub proof fn law_markers_do_not_count(s: Seq<char>, a: nat, b: nat)
    requires
        a < 1000000,
        b < 1000000,
        forall|k: int| 0 <= k < s.len() ==> #[trigger] s[k] != '<',
    ensures
        cjk_count(stripped(slot_token_of(a) + s + slot_token_of(b))) == cjk_count(s),
        latin_count(stripped(slot_token_of(a) + s + slot_token_of(b))) == latin_count(s),
{
    let (x, y) = (slot_token_of(a), slot_token_of(b));
    let all = x + s + y;
    lemma_stripped_between(s, a, b);
    reveal_strlit(" ");
    lemma_script_counts(" "@ + s + " "@);
    lemma_script_counts(s);
    reveal(Seq::filter);
    let cjk = |c: char| '\u{4e00}' <= c <= '\u{9fff}';
    let latin = |c: char| 'A' <= c <= 'Z' || 'a' <= c <= 'z';
    Seq::filter_distributes_over_add(" "@ + s, " "@, cjk);
    Seq::filter_distributes_over_add(" "@, s, cjk);
    Seq::filter_distributes_over_add(" "@ + s, " "@, latin);
    Seq::filter_distributes_over_add(" "@, s, latin);
    assert(" "@.drop_last() =~= Seq::<char>::empty());
    assert(" "@.filter(cjk).len() == 0 && " "@.filter(latin).len() == 0) by {
        reveal_with_fuel(Seq::filter, 2);
    }
}

proof fn lemma_letters(t: Seq<char>, s: Seq<char>, n: int)
    requires
        0 <= n,
        n + s.len() <= t.len(),
        t.subrange(n, n + s.len()) == s,
        forall|i: int| 0 <= i < n || n + s.len() <= i < t.len() ==> #[trigger] t[i] == ' ',
    ensures
        (exists|i: int| 0 <= i < s.len() && ('A' <= #[trigger] s[i] <= 'Z' || 'a' <= s[i] <= 'z'))
            ==> trimmed(t).len() > 0 && some_letter(trimmed(t)),
        (forall|i: int|
            0 <= i < s.len() ==> is_ascii_char(#[trigger] s[i]) && !('A' <= s[i] <= 'Z' || 'a'
                <= s[i] <= 'z')) ==> !some_letter(trimmed(t)),
{
    let r = lemma_trimmed_within(t);
    let u = trimmed(t);
    if exists|i: int| 0 <= i < s.len() && ('A' <= #[trigger] s[i] <= 'Z' || 'a' <= s[i] <= 'z') {
        let i = choose|i: int|
            0 <= i < s.len() && ('A' <= #[trigger] s[i] <= 'Z' || 'a' <= s[i] <= 'z');
        assert(t.subrange(n, n + s.len())[i] == t[n + i]);
        assert(!is_ws(t[n + i]));
        assert(r.0 <= n + i < r.1);
        assert(u[n + i - r.0] == t[n + i]);
        assert(ascii_letter(u[n + i - r.0]));
    }
    if forall|i: int|
        0 <= i < s.len() ==> is_ascii_char(#[trigger] s[i]) && !('A' <= s[i] <= 'Z' || 'a' <= s[i]
            <= 'z') {
        assert forall|i: int| 0 <= i < u.len() implies is_ascii_char(#[trigger] u[i])
            && !ascii_letter(u[i]) by {
            let k = r.0 + i;
            assert(u[i] == t[k]);
            if n <= k < n + s.len() {
                assert(t.subrange(n, n + s.len())[k - n] == t[k]);
                assert(is_ascii_char(s[k - n]));
            } else {
                assert(t[k] == ' ');
            }
        }
    }
}

/// A text with an ASCII letter is not trivial, and one of ASCII characters that are no letters is, with
/// slot marks round it or without.
pub proof fn law_letters_are_not_trivial(s: Seq<char>, a: nat, b: nat)
    requires
        a < 1000000,
        b < 1000000,
        forall|k: int| 0 <= k < s.len() ==> #[trigger] s[k] != '<',
    ensures
        (exists|i: int| 0 <= i < s.len() && ('A' <= #[trigger] s[i] <= 'Z' || 'a' <= s[i] <= 'z'))
            ==> !trivial_text(s) && !trivial_text(slot_token_of(a) + s + slot_token_of(b)),
        (forall|i: int|
            0 <= i < s.len() ==> is_ascii_char(#[trigger] s[i]) && !('A' <= s[i] <= 'Z' || 'a'
                <= s[i] <= 'z')) ==> trivial_text(s) && trivial_text(
            slot_token_of(a) + s + slot_token_of(b),
        ),
{
    lemma_stripped_between(s, a, b);
    reveal_strlit(" ");
    let t = " "@ + s + " "@;
    assert(t.subrange(1, (1 + s.len()) as int) =~= s);
    lemma_letters(t, s, 1);
    lemma_no_marker(s, 0);
    assert(tokens(TokenClass::Sentinel, s) =~= Seq::<(int, int)>::empty());
    assert(s.subrange(0, s.len() as int) =~= s);
    assert(stripped(s) =~= s);
    lemma_letters(s, s, 0);
}

} // verus!
