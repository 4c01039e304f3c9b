//! When a translation can stand for its source, and when it is made anew.

use crate::chars::{begins, byte_len, char_lowercase, is_blank, is_ws, occurrences};
use crate::patterns::{captured, EN_LEGAL_REF, LEGAL_ID};
use crate::quality::{
    bracket_count, bracket_flags, compound_ids, count_in, digit_runs, digit_runs_from, first_miscount,
    first_nt_miscount, first_unknown, forces, forcing_flag, identical, ids_checked, lang_name,
    lemma_run_end, length_flags, likeness, markers, metrics, normal_id, plain_flags, plain_text, run_end,
    same_counts, script_flags, validated, BracketKind, FlagsV, InvalidV, MetricsV,
};
use crate::ratio::{above, below, below_quarter, rounded, single, step_from};
use crate::sentinels::{control_pieces, control_token, control_tokens, marker_digit, TokenClass};
use vstd::prelude::*;

verus! {

proof fn lemma_unknown(items: Seq<Seq<char>>, known: Seq<Seq<char>>)
    ensures
        match first_unknown(items, known) {
            None => forall|k: int| 0 <= k < items.len() ==> known.contains(#[trigger] items[k]),
            Some(x) => items.contains(x) && !known.contains(x),
        },
    decreases items.len(),
{
    if items.len() > 0 {
        let rest = items.drop_first();
        lemma_unknown(rest, known);
        if known.contains(items[0]) {
            match first_unknown(rest, known) {
                None => {
                    assert forall|k: int| 0 <= k < items.len() implies known.contains(
                        #[trigger] items[k],
                    ) by {
                        if k > 0 {
                            assert(rest[k - 1] == items[k]);
                        }
                    }
                },
                Some(x) => {
                    let a = choose|a: int| 0 <= a < rest.len() && rest[a] == x;
                    assert(items[a + 1] == x);
                },
            }
        } else {
            assert(items[0] == first_unknown(items, known)->Some_0);
        }
    }
}

proof fn lemma_nt_counts(map: Seq<(Seq<char>, Seq<char>)>, src: Seq<char>, tgt: Seq<char>)
    ensures
        match first_nt_miscount(map, src, tgt) {
            None => forall|k: int|
                0 <= k < map.len() ==> occurrences(src, (#[trigger] map[k]).0) == occurrences(
                    tgt,
                    map[k].0,
                ),
            Some(x) => occurrences(src, x) != occurrences(tgt, x) && exists|k: int|
                0 <= k < map.len() && (#[trigger] map[k]).0 == x,
        },
    decreases map.len(),
{
    if map.len() > 0 {
        let rest = map.drop_first();
        lemma_nt_counts(rest, src, tgt);
        if occurrences(src, map[0].0) == occurrences(tgt, map[0].0) {
            match first_nt_miscount(rest, src, tgt) {
                None => {
                    assert forall|k: int| 0 <= k < map.len() implies occurrences(
                        src,
                        (#[trigger] map[k]).0,
                    ) == occurrences(tgt, map[k].0) by {
                        if k > 0 {
                            assert(rest[k - 1] == map[k]);
                        }
                    }
                },
                Some(x) => {
                    let a = choose|a: int| 0 <= a < rest.len() && (#[trigger] rest[a]).0 == x;
                    assert(map[a + 1].0 == x);
                },
            }
        } else {
            assert(map[0].0 == first_nt_miscount(map, src, tgt)->Some_0);
        }
    }
}

proof fn lemma_miscount(items: Seq<Seq<char>>, all: Seq<Seq<char>>, others: Seq<Seq<char>>)
    ensures
        match first_miscount(items, all, others) {
            None => forall|k: int|
                0 <= k < items.len() ==> count_in(all, #[trigger] items[k]) == count_in(
                    others,
                    items[k],
                ),
            Some(x) => items.contains(x) && count_in(all, x) != count_in(others, x),
        },
    decreases items.len(),
{
    if items.len() > 0 {
        let rest = items.drop_first();
        lemma_miscount(rest, all, others);
        if count_in(all, items[0]) == count_in(others, items[0]) {
            match first_miscount(rest, all, others) {
                None => {
                    assert forall|k: int| 0 <= k < items.len() implies count_in(
                        all,
                        #[trigger] items[k],
                    ) == count_in(others, items[k]) by {
                        if k > 0 {
                            assert(rest[k - 1] == items[k]);
                        }
                    }
                },
                Some(x) => {
                    let a = choose|a: int| 0 <= a < rest.len() && rest[a] == x;
                    assert(items[a + 1] == x);
                },
            }
        } else {
            assert(items[0] == first_miscount(items, all, others)->Some_0);
        }
    }
}

/// Whether the pieces of a text between its control markers hold text where those of another do.
pub open spec fn laid_out_alike(a: Seq<Seq<char>>, b: Seq<Seq<char>>) -> bool {
    &&& a.len() == b.len()
    &&& forall|i: int|
        0 <= i < a.len() ==> if control_token(#[trigger] a[i]) {
            a[i] == b[i]
        } else {
            is_blank(a[i]) <==> is_blank(b[i])
        }
}

/// A translation can stand for its source if and only if it holds text, has no marker that the source
/// does not have, has the slots and control markers of the source in their order with text where the
/// source has text, as often as the source each thing that was frozen, the numbers of the source as
/// often as the source, and its legal references.
pub proof fn law_valid_exactly(
    frozen: Seq<char>,
    map: Seq<(Seq<char>, Seq<char>)>,
    t: Seq<char>,
)
    ensures
        validated(frozen, map, t) is Ok <==> {
            let src = plain_text(frozen, map);
            let tgt = plain_text(t, map);
            &&& exists|i: int| 0 <= i < t.len() && !is_ws(#[trigger] t[i])
            &&& forall|k: int|
                0 <= k < markers(TokenClass::Mt, t).len() ==> markers(
                    TokenClass::Mt,
                    frozen,
                ).contains(#[trigger] markers(TokenClass::Mt, t)[k])
            &&& markers(TokenClass::Sentinel, frozen) == markers(TokenClass::Sentinel, t)
            &&& control_tokens(frozen) == control_tokens(t)
            &&& laid_out_alike(control_pieces(frozen), control_pieces(t))
            &&& forall|k: int|
                0 <= k < map.len() ==> occurrences(frozen, (#[trigger] map[k]).0) == occurrences(
                    t,
                    map[k].0,
                )
            &&& forall|d: Seq<char>| #[trigger]
                count_in(digit_runs(src), d) == count_in(digit_runs(tgt), d)
            &&& ids_checked(
                captured(EN_LEGAL_REF@, src),
                captured(LEGAL_ID@, src),
                captured(LEGAL_ID@, tgt),
            ) is Ok
        },
{
    lemma_unknown(markers(TokenClass::Mt, t), markers(TokenClass::Mt, frozen));
    lemma_nt_counts(map, frozen, t);
    if !is_blank(t) {
        let i = choose|i: int| 0 <= i < t.len() && !is_ws(#[trigger] t[i]);
        assert(!is_ws(t[i]));
    }
}

/// What is said to be wrong with a translation is wrong with it.
pub proof fn law_faults_are_real(frozen: Seq<char>, map: Seq<(Seq<char>, Seq<char>)>, t: Seq<char>)
    ensures
        is_blank(t) <==> validated(frozen, map, t) == Err::<(), InvalidV>(InvalidV::EmptyOutput),
        validated(frozen, map, t) matches Err(InvalidV::UnexpectedMtToken(x)) ==> markers(
            TokenClass::Mt,
            t,
        ).contains(x) && !markers(TokenClass::Mt, frozen).contains(x),
        validated(frozen, map, t) matches Err(InvalidV::SentinelSequence) ==> markers(
            TokenClass::Sentinel,
            frozen,
        ) != markers(TokenClass::Sentinel, t),
        validated(frozen, map, t) matches Err(InvalidV::ControlSequence) ==> control_tokens(frozen)
            != control_tokens(t),
        validated(frozen, map, t) matches Err(InvalidV::ControlLayout) ==> control_tokens(frozen)
            == control_tokens(t) && !laid_out_alike(control_pieces(frozen), control_pieces(t)),
        validated(frozen, map, t) matches Err(InvalidV::NtTokenCount(x)) ==> occurrences(frozen, x)
            != occurrences(t, x),
        validated(frozen, map, t) matches Err(InvalidV::Digits { .. }) ==> !same_counts(
            digit_runs(plain_text(frozen, map)),
            digit_runs(plain_text(t, map)),
        ),
{
    lemma_unknown(markers(TokenClass::Mt, t), markers(TokenClass::Mt, frozen));
    lemma_nt_counts(map, frozen, t);
}

/// The legal references of a translation are right if and only if each structured number that the
/// source refers to comes as often in the translation, and all structured numbers do, where the source
/// has any.
pub proof fn law_legal_numbers(
    src_refs: Seq<Seq<char>>,
    src_ids: Seq<Seq<char>>,
    tgt_ids: Seq<Seq<char>>,
)
    ensures
        ids_checked(src_refs, src_ids, tgt_ids) is Ok <==> {
            let refs = compound_ids(src_refs);
            let src = compound_ids(src_ids);
            let tgt = compound_ids(tgt_ids);
            &&& forall|k: int|
                0 <= k < refs.len() ==> count_in(refs, #[trigger] refs[k]) == count_in(tgt, refs[k])
            &&& src.len() == 0 || forall|d: Seq<char>| #[trigger]
                count_in(src, d) == count_in(tgt, d)
        },
{
    let refs = compound_ids(src_refs);
    lemma_miscount(refs, refs, compound_ids(tgt_ids));
}

/// A number counts as structured where, written plainly and in capitals, it holds a point, a dash, a
/// bracket or a letter. Blanks do not count, and wide marks count as plain ones.
pub proof fn law_structured_numbers(found: Seq<Seq<char>>, x: Seq<char>, c: char)
    ensures
        compound_ids(found.push(x)) == (if exists|i: int|
            0 <= i < normal_id(x).len() && ({
                let d = #[trigger] normal_id(x)[i];
                d == '.' || d == '-' || d == '(' || d == ')' || 'A' <= d <= 'Z' || 'a' <= d <= 'z'
            }) {
            compound_ids(found).push(normal_id(x))
        } else {
            compound_ids(found)
        }),
        normal_id(x.push(c)) == (if is_ws(c) {
            normal_id(x)
        } else if c == '\u{ff08}' {
            normal_id(x).push('(')
        } else if c == '\u{ff09}' {
            normal_id(x).push(')')
        } else if c == ',' || c == '\u{ff0c}' || c == '\u{ff0e}' || c == '\u{3002}' {
            normal_id(x).push('.')
        } else if c == '\u{ff0d}' || c == '\u{2013}' || c == '\u{2014}' || c == '\u{2212}' {
            normal_id(x).push('-')
        } else if 'a' <= c <= 'z' {
            normal_id(x).push(((c as u8 - 32) as u8) as char)
        } else {
            normal_id(x).push(c)
        }),
{
    assert(found.push(x).drop_last() =~= found);
    assert(x.push(c).drop_last() =~= x);
    let id = normal_id(x);
    if exists|i: int| 0 <= i < id.len() && crate::quality::compound_char(#[trigger] id[i]) {
        let i = choose|i: int| 0 <= i < id.len() && crate::quality::compound_char(#[trigger] id[i]);
        assert(crate::quality::compound_char(normal_id(x)[i]));
    }
    if exists|i: int|
        0 <= i < normal_id(x).len() && ({
            let d = #[trigger] normal_id(x)[i];
            d == '.' || d == '-' || d == '(' || d == ')' || 'A' <= d <= 'Z' || 'a' <= d <= 'z'
        }) {
        let i = choose|i: int|
            0 <= i < normal_id(x).len() && ({
                let d = #[trigger] normal_id(x)[i];
                d == '.' || d == '-' || d == '(' || d == ')' || 'A' <= d <= 'Z' || 'a' <= d <= 'z'
            });
        assert(crate::quality::compound_char(id[i]));
    }
}

proof fn lemma_run_end_in(a: Seq<char>, x: Seq<char>, i: int)
    requires
        0 <= i <= a.len(),
        a.len() > 0 ==> !marker_digit(a.last()),
    ensures
        i < a.len() ==> run_end(a + x, i) == run_end(a, i),
    decreases a.len() - i,
{
    if i < a.len() {
        assert((a + x)[i] == a[i]);
        if marker_digit(a[i]) {
            assert(i < a.len() - 1);
            lemma_run_end_in(a, x, i + 1);
        }
    }
}

proof fn lemma_run_end_behind(a: Seq<char>, x: Seq<char>, j: int)
    requires
        0 <= j <= x.len(),
    ensures
        run_end(a + x, a.len() + j) == a.len() + run_end(x, j),
    decreases x.len() - j,
{
    if j < x.len() {
        assert((a + x)[a.len() + j] == x[j]);
        if marker_digit(x[j]) {
            lemma_run_end_behind(a, x, j + 1);
        }
    }
}

proof fn lemma_runs_behind(a: Seq<char>, x: Seq<char>, j: int)
    requires
        0 <= j <= x.len(),
    ensures
        digit_runs_from(a + x, a.len() + j) == digit_runs_from(x, j),
    decreases x.len() - j,
{
    if j < x.len() {
        assert((a + x)[a.len() + j] == x[j]);
        lemma_run_end(x, j);
        lemma_run_end_behind(a, x, j);
        if marker_digit(x[j]) {
            let e = run_end(x, j);
            assert((a + x).subrange(a.len() + j, a.len() + e) =~= x.subrange(j, e));
            lemma_runs_behind(a, x, e);
        } else {
            lemma_runs_behind(a, x, j + 1);
        }
    }
}

proof fn lemma_runs_before(a: Seq<char>, x: Seq<char>, i: int)
    requires
        0 <= i <= a.len(),
        a.len() > 0 ==> !marker_digit(a.last()),
    ensures
        digit_runs_from(a + x, i) == digit_runs_from(a, i) + digit_runs(x),
    decreases a.len() - i,
{
    if i < a.len() {
        assert((a + x)[i] == a[i]);
        lemma_run_end(a, i);
        lemma_run_end_in(a, x, i);
        if marker_digit(a[i]) {
            let e = run_end(a, i);
            assert((a + x).subrange(i, e) =~= a.subrange(i, e));
            lemma_runs_before(a, x, e);
        } else {
            lemma_runs_before(a, x, i + 1);
        }
        assert(digit_runs_from(a + x, i) =~= digit_runs_from(a, i) + digit_runs(x));
    } else {
        lemma_runs_behind(a, x, 0);
        assert(digit_runs_from(a, i) =~= Seq::<Seq<char>>::empty());
        assert(digit_runs_from(a + x, i) =~= digit_runs_from(a, i) + digit_runs(x));
    }
}

proof fn lemma_whole_run(d: Seq<char>, b: Seq<char>, i: int)
    requires
        0 <= i <= d.len(),
        forall|k: int| 0 <= k < d.len() ==> marker_digit(#[trigger] d[k]),
        b.len() > 0 ==> !marker_digit(b[0]),
    ensures
        run_end(d + b, i) == d.len(),
    decreases d.len() - i,
{
    if i < d.len() {
        assert((d + b)[i] == d[i]);
        lemma_whole_run(d, b, i + 1);
    } else if b.len() > 0 {
        assert((d + b)[i] == b[0]);
    }
}

/// A run of digits with no digit before it or behind it is one of the numbers of a text, between those
/// before it and those behind it. A text without digits has none.
pub proof fn law_numbers_of_a_text(a: Seq<char>, d: Seq<char>, b: Seq<char>)
    requires
        forall|k: int| 0 <= k < d.len() ==> marker_digit(#[trigger] d[k]),
        a.len() > 0 ==> !marker_digit(a.last()),
        b.len() > 0 ==> !marker_digit(b[0]),
    ensures
        d.len() > 0 ==> digit_runs(a + d + b) == digit_runs(a).push(d) + digit_runs(b),
        (forall|k: int| 0 <= k < a.len() ==> !marker_digit(#[trigger] a[k])) ==> digit_runs(
            a,
        ).len() == 0,
{
    if d.len() > 0 {
        assert(a + d + b =~= a + (d + b));
        lemma_runs_before(a, d + b, 0);
        lemma_whole_run(d, b, 0);
        let n = d.len() as int;
        assert((d + b)[0] == d[0]);
        assert((d + b).subrange(0, n) =~= d);
        lemma_runs_behind(d, b, 0);
        assert(digit_runs(d + b) =~= seq![d] + digit_runs(b));
        assert(digit_runs(a) + digit_runs(d + b) =~= digit_runs(a).push(d) + digit_runs(b));
    }
    if forall|k: int| 0 <= k < a.len() ==> !marker_digit(#[trigger] a[k]) {
        lemma_no_runs(a, 0);
    }
}

proof fn lemma_no_runs(a: Seq<char>, i: int)
    requires
        forall|k: int| 0 <= k < a.len() ==> !marker_digit(#[trigger] a[k]),
        0 <= i <= a.len(),
    ensures
        digit_runs_from(a, i).len() == 0,
    decreases a.len() - i,
{
    if i < a.len() {
        lemma_no_runs(a, i + 1);
    }
}

/// How many characters of a text are of a kind.
pub open spec fn chars_like(s: Seq<char>, p: spec_fn(char) -> bool) -> nat {
    s.filter(p).len()
}

/// The counts of a text: the characters that are no white space, the Chinese ones and the Latin
/// letters among them, and the Korean ones.
pub proof fn law_counts(s: Seq<char>)
    ensures
        metrics(s).non_ws == chars_like(s, |c: char| !is_ws(c)),
        metrics(s).latin_alpha == chars_like(
            s,
            |c: char| !is_ws(c) && ('a' <= c <= 'z' || 'A' <= c <= 'Z'),
        ),
        metrics(s).han == chars_like(
            s,
            |c: char|
                !is_ws(c) && ('\u{3400}' <= c <= '\u{4dbf}' || '\u{4e00}' <= c <= '\u{9fff}'
                    || '\u{f900}' <= c <= '\u{faff}' || '\u{20000}' <= c <= '\u{2a6df}'
                    || '\u{2a700}' <= c <= '\u{2ebef}'),
        ),
        metrics(s).jp_kana == chars_like(
            s,
            |c: char|
                !is_ws(c) && ('\u{3040}' <= c <= '\u{30ff}' || '\u{31f0}' <= c <= '\u{31ff}'),
        ),
        metrics(s).hangul == chars_like(
            s,
            |c: char|
                !is_ws(c) && ('\u{ac00}' <= c <= '\u{d7af}' || '\u{1100}' <= c <= '\u{11ff}'
                    || '\u{3130}' <= c <= '\u{318f}'),
        ),
    decreases s.len(),
{
    reveal(Seq::filter);
    if s.len() > 0 {
        law_counts(s.drop_last());
    }
}

proof fn lemma_single(n: nat)
    requires
        n < 0x100_0000,
    ensures
        single(n) == n,
{
    assert(step_from(n, 1) == 1);
    assert(rounded(n, 1) == n);
}

/// Whether flags beyond those that were there force a translation to be made anew.
proof fn lemma_forces_push(hard: Seq<Seq<char>>, f: Seq<char>)
    ensures
        forces(hard.push(f)) <==> forces(hard) || forcing_flag(f),
{
    let more = hard.push(f);
    if forces(hard) {
        let i = choose|i: int| 0 <= i < hard.len() && forcing_flag(#[trigger] hard[i]);
        assert(more[i] == hard[i]);
    }
    if forcing_flag(f) {
        assert(more[hard.len() as int] == f);
    }
    if forces(more) {
        let i = choose|i: int| 0 <= i < more.len() && forcing_flag(#[trigger] more[i]);
        if i < hard.len() {
            assert(hard[i] == more[i]);
        }
    }
}

proof fn lemma_brackets_do_not_force(st: FlagsV, kind: BracketKind, src: nat, tgt: nat)
    ensures
        forces(bracket_flags(st, kind, src, tgt).hard) <==> forces(st.hard),
{
    let f = "missing_brackets_"@ + crate::quality::bracket_name(kind);
    lemma_forces_push(st.hard, f);
    reveal_strlit("missing_brackets_");
    reveal_strlit("output_identical_to_source");
    reveal_strlit("target_script_missing_");
    reveal_strlit("len_ratio_too_short_extreme");
    reveal_strlit("len_ratio_too_long_extreme");
    assert(f[0] == 'm');
    assert("output_identical_to_source"@[0] == 'o');
    assert("len_ratio_too_short_extreme"@[0] == 'l');
    assert("len_ratio_too_long_extreme"@[0] == 'l');
    if begins(f, "target_script_missing_"@) {
        assert(f.subrange(0, 22)[0] == "target_script_missing_"@[0]);
    }
}

/// Whether a translation is far shorter or far longer than a source of some length: under a quarter of
/// it, or over four times as long.
pub open spec fn far_off(src: nat, tgt: nat) -> bool {
    src >= 40 && (0 < 4 * tgt < src || tgt > 4 * src)
}

/// Whether the script of a language is missing in a text with the given counts: for Chinese under 6
/// percent of Chinese characters, for Korean under 10 of Korean ones, both with over 25 of Latin
/// letters, and for English under 18 percent of Latin letters with over 20 of Chinese characters.
pub open spec fn script_missing(lang: Seq<char>, m: MetricsV) -> bool {
    if begins(lang, "zh"@) {
        100 * m.han < 6 * m.non_ws && 4 * m.latin_alpha > m.non_ws
    } else if begins(lang, "en"@) {
        100 * m.latin_alpha < 18 * m.non_ws && 5 * m.han > m.non_ws
    } else if begins(lang, "ko"@) {
        10 * m.hangul < m.non_ws && 4 * m.latin_alpha > m.non_ws
    } else {
        false
    }
}

proof fn lemma_length_forces(st: FlagsV, src: nat, tgt: nat)
    requires
        src < 1000000,
        tgt < 1000000,
    ensures
        forces(length_flags(st, src, tgt).hard) <==> forces(st.hard) || far_off(src, tgt),
{
    lemma_single(src);
    lemma_single(tgt);
    assert(below_quarter(tgt, src) == (tgt * 0x800_0000 < src * 0x1ff_ffff));
    assert(above(tgt, src, 8388608, 0x40_0000) == (tgt * 0x40_0000 > src * 16777217));
    lemma_forces_push(st.hard, "len_ratio_too_short_extreme"@);
    lemma_forces_push(st.hard, "len_ratio_too_long_extreme"@);
}

proof fn lemma_metrics_within(s: Seq<char>)
    ensures
        metrics(s).han <= metrics(s).non_ws <= s.len(),
        metrics(s).latin_alpha <= metrics(s).non_ws,
        metrics(s).hangul <= metrics(s).non_ws,
    decreases s.len(),
{
    if s.len() > 0 {
        lemma_metrics_within(s.drop_last());
    }
}

proof fn lemma_script_forces(st: FlagsV, lang: Seq<char>, m: MetricsV)
    requires
        m.non_ws < 1000000,
        m.han <= m.non_ws,
        m.latin_alpha <= m.non_ws,
        m.hangul <= m.non_ws,
        !begins(lang, "ja"@),
    ensures
        forces(script_flags(st, lang, m).hard) <==> forces(st.hard) || script_missing(lang, m),
{
    lemma_single(m.non_ws);
    lemma_single(m.han);
    lemma_single(m.latin_alpha);
    lemma_single(m.hangul);
    let n = m.non_ws;
    assert(below(m.han, n, 16106127, 0x2000_0000) == (m.han * 0x2000_0000 <= n * 32212253));
    assert(above(m.latin_alpha, n, 8388608, 0x400_0000) == (m.latin_alpha * 0x400_0000 > n
        * 16777217));
    assert(below(m.latin_alpha, n, 12079596, 0x800_0000) == (m.latin_alpha * 0x800_0000 < n
        * 24159191));
    assert(above(m.han, n, 13421773, 0x800_0000) == (m.han * 0x800_0000 >= n * 26843547));
    assert(below(m.hangul, n, 13421773, 0x1000_0000) == (m.hangul * 0x1000_0000 <= n * 26843545));
    let h = "target_script_missing_han"@;
    let l = "target_script_missing_latin"@;
    let k = "target_script_missing_korean"@;
    lemma_forces_push(st.hard, h);
    lemma_forces_push(st.hard, l);
    lemma_forces_push(st.hard, k);
    reveal_strlit("target_script_missing_");
    reveal_strlit("target_script_missing_han");
    reveal_strlit("target_script_missing_latin");
    reveal_strlit("target_script_missing_korean");
    let p = "target_script_missing_"@;
    assert(h.subrange(0, 22) =~= p);
    assert(l.subrange(0, 22) =~= p);
    assert(k.subrange(0, 22) =~= p);
}

/// A translation is made anew, though it can stand, if and only if it is its source, it is far shorter
/// or far longer than that, or the script of its language is missing in it. That goes for texts of less
/// than a million characters, and for a language other than Japanese.
pub proof fn law_made_anew(
    src: Seq<char>,
    tgt: Seq<char>,
    source_lang: Seq<char>,
    target_lang: Seq<char>,
)
    requires
        src.len() < 1000000,
        tgt.len() < 1000000,
        !begins(lang_name(target_lang), "ja"@),
    ensures
        forces(plain_flags(src, tgt, source_lang, target_lang).hard) <==> {
            ||| identical(src, tgt)
            ||| far_off(metrics(src).non_ws, metrics(tgt).non_ws)
            ||| {
                &&& lang_name(source_lang).len() > 0
                &&& lang_name(target_lang).len() > 0
                &&& lang_name(source_lang) != lang_name(target_lang)
                &&& metrics(tgt).non_ws >= 20
                &&& script_missing(lang_name(target_lang), metrics(tgt))
            }
        },
{
    let m = metrics(tgt);
    lemma_metrics_within(src);
    lemma_metrics_within(tgt);
    let (a, b) = (lang_name(source_lang), lang_name(target_lang));
    let none = FlagsV { hard: Seq::empty(), soft: Seq::empty(), notes: Seq::empty() };
    let same = if identical(src, tgt) {
        FlagsV { hard: seq!["output_identical_to_source"@], ..none }
    } else {
        none
    };
    assert(forces(same.hard) <==> identical(src, tgt)) by {
        if identical(src, tgt) {
            assert(forcing_flag(same.hard[0]));
        }
    }
    let length = length_flags(same, metrics(src).non_ws, m.non_ws);
    lemma_length_forces(same, metrics(src).non_ws, m.non_ws);
    lemma_script_forces(length, b, m);
    let script = if a.len() > 0 && b.len() > 0 && a != b && m.non_ws >= 20 {
        script_flags(length, b, m)
    } else {
        length
    };
    let f1 = bracket_flags(
        script,
        BracketKind::Parens,
        bracket_count(src, BracketKind::Parens),
        bracket_count(tgt, BracketKind::Parens),
    );
    let f2 = bracket_flags(
        f1,
        BracketKind::Square,
        bracket_count(src, BracketKind::Square),
        bracket_count(tgt, BracketKind::Square),
    );
    let f3 = bracket_flags(
        f2,
        BracketKind::Curly,
        bracket_count(src, BracketKind::Curly),
        bracket_count(tgt, BracketKind::Curly),
    );
    lemma_brackets_do_not_force(
        script,
        BracketKind::Parens,
        bracket_count(src, BracketKind::Parens),
        bracket_count(tgt, BracketKind::Parens),
    );
    lemma_brackets_do_not_force(
        f1,
        BracketKind::Square,
        bracket_count(src, BracketKind::Square),
        bracket_count(tgt, BracketKind::Square),
    );
    lemma_brackets_do_not_force(
        f2,
        BracketKind::Curly,
        bracket_count(src, BracketKind::Curly),
        bracket_count(tgt, BracketKind::Curly),
    );
    lemma_brackets_do_not_force(
        f3,
        BracketKind::Angle,
        bracket_count(src, BracketKind::Angle),
        bracket_count(tgt, BracketKind::Angle),
    );
}

proof fn lemma_flag_stays(st: FlagsV, kind: BracketKind, src: nat, tgt: nat, f: Seq<char>)
    requires
        st.hard.contains(f),
    ensures
        bracket_flags(st, kind, src, tgt).hard.contains(f),
{
    let i = st.hard.index_of(f);
    let now = bracket_flags(st, kind, src, tgt).hard;
    assert(now[i] == f);
}

proof fn lemma_flag_comes(st: FlagsV, kind: BracketKind, src: nat)
    requires
        src > 0,
    ensures
        bracket_flags(st, kind, src, 0).hard.contains(
            "missing_brackets_"@ + crate::quality::bracket_name(kind),
        ),
{
    let f = "missing_brackets_"@ + crate::quality::bracket_name(kind);
    let now = bracket_flags(st, kind, src, 0).hard;
    assert(now[st.hard.len() as int] == f);
}

/// A translation without brackets of a kind that its source has is flagged for that.
pub proof fn law_missing_brackets_are_flagged(
    src: Seq<char>,
    tgt: Seq<char>,
    a: Seq<char>,
    b: Seq<char>,
)
    ensures
        bracket_count(src, BracketKind::Parens) > 0 && bracket_count(tgt, BracketKind::Parens) == 0
            ==> plain_flags(src, tgt, a, b).hard.contains("missing_brackets_"@ + "parens"@),
        bracket_count(src, BracketKind::Square) > 0 && bracket_count(tgt, BracketKind::Square) == 0
            ==> plain_flags(src, tgt, a, b).hard.contains("missing_brackets_"@ + "square"@),
        bracket_count(src, BracketKind::Curly) > 0 && bracket_count(tgt, BracketKind::Curly) == 0
            ==> plain_flags(src, tgt, a, b).hard.contains("missing_brackets_"@ + "curly"@),
        bracket_count(src, BracketKind::Angle) > 0 && bracket_count(tgt, BracketKind::Angle) == 0
            ==> plain_flags(src, tgt, a, b).hard.contains("missing_brackets_"@ + "angle"@),
{
    let m = metrics(tgt);
    let (x, y) = (lang_name(a), lang_name(b));
    let none = FlagsV { hard: Seq::empty(), soft: Seq::empty(), notes: Seq::empty() };
    let same = if identical(src, tgt) {
        FlagsV { hard: seq!["output_identical_to_source"@], ..none }
    } else {
        none
    };
    let length = length_flags(same, metrics(src).non_ws, m.non_ws);
    let st = if x.len() > 0 && y.len() > 0 && x != y && m.non_ws >= 20 {
        script_flags(length, y, m)
    } else {
        length
    };
    let (p, q) = (bracket_count(src, BracketKind::Parens), bracket_count(tgt, BracketKind::Parens));
    let f1 = bracket_flags(st, BracketKind::Parens, p, q);
    let (r, s) = (bracket_count(src, BracketKind::Square), bracket_count(tgt, BracketKind::Square));
    let f2 = bracket_flags(f1, BracketKind::Square, r, s);
    let (t, u) = (bracket_count(src, BracketKind::Curly), bracket_count(tgt, BracketKind::Curly));
    let f3 = bracket_flags(f2, BracketKind::Curly, t, u);
    let (v, w) = (bracket_count(src, BracketKind::Angle), bracket_count(tgt, BracketKind::Angle));
    if p > 0 && q == 0 {
        let f = "missing_brackets_"@ + "parens"@;
        lemma_flag_comes(st, BracketKind::Parens, p);
        lemma_flag_stays(f1, BracketKind::Square, r, s, f);
        lemma_flag_stays(f2, BracketKind::Curly, t, u, f);
        lemma_flag_stays(f3, BracketKind::Angle, v, w, f);
    }
    if r > 0 && s == 0 {
        let f = "missing_brackets_"@ + "square"@;
        lemma_flag_comes(f1, BracketKind::Square, r);
        lemma_flag_stays(f2, BracketKind::Curly, t, u, f);
        lemma_flag_stays(f3, BracketKind::Angle, v, w, f);
    }
    if t > 0 && u == 0 {
        let f = "missing_brackets_"@ + "curly"@;
        lemma_flag_comes(f2, BracketKind::Curly, t);
        lemma_flag_stays(f3, BracketKind::Angle, v, w, f);
    }
    if v > 0 && w == 0 {
        lemma_flag_comes(f3, BracketKind::Angle, v);
    }
}

/// The brackets of a text are counted, plain ones and wide ones alike.
pub proof fn law_brackets_are_counted(s: Seq<char>)
    ensures
        bracket_count(s, BracketKind::Parens) == chars_like(
            s,
            |c: char| c == '(' || c == ')' || c == '\u{ff08}' || c == '\u{ff09}',
        ),
        bracket_count(s, BracketKind::Square) == chars_like(
            s,
            |c: char| c == '[' || c == ']' || c == '\u{3010}' || c == '\u{3011}',
        ),
        bracket_count(s, BracketKind::Curly) == chars_like(
            s,
            |c: char| c == '{' || c == '}' || c == '\u{ff5b}' || c == '\u{ff5d}',
        ),
        bracket_count(s, BracketKind::Angle) == chars_like(
            s,
            |c: char| c == '<' || c == '>' || c == '\u{300a}' || c == '\u{300b}',
        ),
    decreases s.len(),
{
    reveal(Seq::filter);
    if s.len() > 0 {
        law_brackets_are_counted(s.drop_last());
    }
}

/// A mark as it is meant: a wide bracket or mark, or a curved quote, is meant as the plain one.
pub open spec fn meant(c: char) -> char {
    if '\u{201c}' <= c <= '\u{201f}' {
        '"'
    } else if '\u{2018}' <= c <= '\u{201b}' {
        '\''
    } else {
        match c {
            '\u{ff08}' => '(',
            '\u{ff09}' => ')',
            '\u{3010}' => '[',
            '\u{3011}' => ']',
            '\u{ff5b}' => '{',
            '\u{ff5d}' => '}',
            '\u{ff0c}' => ',',
            '\u{3002}' => '.',
            '\u{ff1a}' => ':',
            '\u{ff1b}' => ';',
            '\u{ff01}' => '!',
            '\u{ff1f}' => '?',
            _ => c,
        }
    }
}

/// A translation is taken for its source where the two are the same but for white space, the width of
/// marks and case, and are 24 bytes long or longer without those. A text is always like itself, and
/// white space in it does not matter.
pub proof fn law_likeness(s: Seq<char>, c: char, t: Seq<char>)
    ensures
        is_ws(c) ==> likeness(s.push(c)) == likeness(s),
        !is_ws(c) ==> likeness(s.push(c)) == likeness(s) + char_lowercase(meant(c)),
        likeness(Seq::empty()).len() == 0,
        identical(s, t) <==> likeness(s) == likeness(t) && byte_len(likeness(s)) >= 24,
{
    assert(s.push(c).drop_last() =~= s);
}

} // verus!
