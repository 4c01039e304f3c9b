//! Whether a translation can stand for its source.

use crate::chars::{
    append, ascii_lower, begins, blank, byte_len, byte_length, char_lowercase, count_matches, dec,
    dec_usize, is_blank, is_empty, is_whitespace, is_ws, join, joined_with, lower_ascii, lowercase_char,
    occurrences, owned, starts_with, str_eq, text_of, to_chars, trim, trimmed,
};
use crate::freezer::{unfreeze_text, unfrozen};
use crate::ir::TranslationUnit;
use crate::patterns::{captured, captures, EN_LEGAL_REF, LEGAL_ID};
use crate::ratio::{
    above, below, below_quarter, is_above, is_below, is_below_quarter, is_sum_below_tenth, quotient,
    sum_below_tenth,
};
use crate::sentinels::{
    control_pieces, control_token, control_tokens, control_tokens_from_text, is_control_token,
    is_marker_digit, marker_digit, replace_tokens, split_by_control_sequence, texts_at, token_texts,
    tokens, with_replacement, TokenClass,
};
use crate::vecs::{is_among, push_deep, same_texts};
use vstd::prelude::*;

verus! {

/// Why a translation cannot stand for its source.
#[derive(Debug)]
pub enum ValidationError {
    /// There is no text.
    EmptyOutput,
    /// A marker stands in the translation and not in the source.
    UnexpectedMtToken(String),
    /// The markers are not the same, or in another order.
    SentinelSequence,
    /// The control markers are not the same, or in another order.
    ControlSequence,
    /// Text was moved over a control marker.
    ControlLayout,
    /// A marker of frozen text does not stand as often in the translation.
    NtTokenCount(String),
    /// The numbers are not the same. Holds how often each stands in the source and in the
    /// translation.
    Digits { src: Vec<(String, usize)>, tgt: Vec<(String, usize)> },
    /// The number of a reference does not stand as often in the translation.
    LegalRefId { id: String, expected: usize, got: usize },
    /// The structured numbers are not the same.
    CompoundLegalId { src: Vec<(String, usize)>, tgt: Vec<(String, usize)> },
}

/// The model of a [`ValidationError`].
#[verifier::ext_equal]
pub enum InvalidV {
    EmptyOutput,
    UnexpectedMtToken(Seq<char>),
    SentinelSequence,
    ControlSequence,
    ControlLayout,
    NtTokenCount(Seq<char>),
    Digits { src: Seq<(Seq<char>, nat)>, tgt: Seq<(Seq<char>, nat)> },
    LegalRefId { id: Seq<char>, expected: nat, got: nat },
    CompoundLegalId { src: Seq<(Seq<char>, nat)>, tgt: Seq<(Seq<char>, nat)> },
}

/// Texts with how often they stand somewhere.
pub open spec fn tally_view(v: Seq<(String, usize)>) -> Seq<(Seq<char>, nat)> {
    v.map_values(|e: (String, usize)| (e.0@, e.1 as nat))
}

impl DeepView for ValidationError {
    type V = InvalidV;

    open spec fn deep_view(&self) -> InvalidV {
        match self {
            ValidationError::EmptyOutput => InvalidV::EmptyOutput,
            ValidationError::UnexpectedMtToken(t) => InvalidV::UnexpectedMtToken(t@),
            ValidationError::SentinelSequence => InvalidV::SentinelSequence,
            ValidationError::ControlSequence => InvalidV::ControlSequence,
            ValidationError::ControlLayout => InvalidV::ControlLayout,
            ValidationError::NtTokenCount(t) => InvalidV::NtTokenCount(t@),
            ValidationError::Digits { src, tgt } => InvalidV::Digits {
                src: tally_view(src@),
                tgt: tally_view(tgt@),
            },
            ValidationError::LegalRefId { id, expected, got } => InvalidV::LegalRefId {
                id: id@,
                expected: *expected as nat,
                got: *got as nat,
            },
            ValidationError::CompoundLegalId { src, tgt } => InvalidV::CompoundLegalId {
                src: tally_view(src@),
                tgt: tally_view(tgt@),
            },
        }
    }
}

/// How often a text is among others.
pub open spec fn count_in(items: Seq<Seq<char>>, s: Seq<char>) -> nat
    decreases items.len(),
{
    if items.len() == 0 {
        0
    } else {
        count_in(items.drop_last(), s) + if items.last() == s {
            1nat
        } else {
            0
        }
    }
}

/// Whether every text is as often among the one as among the others.
pub open spec fn same_counts(a: Seq<Seq<char>>, b: Seq<Seq<char>>) -> bool {
    forall|s: Seq<char>| #[trigger] count_in(a, s) == count_in(b, s)
}

/// The place of a text in a tally.
pub open spec fn tally_place(t: Seq<(Seq<char>, nat)>, s: Seq<char>) -> Option<int>
    decreases t.len(),
{
    if t.len() == 0 {
        None
    } else if t.last().0 == s {
        Some(t.len() - 1)
    } else {
        tally_place(t.drop_last(), s)
    }
}

/// How often each text is among others, in the order in which they come first.
pub open spec fn tally(items: Seq<Seq<char>>) -> Seq<(Seq<char>, nat)>
    decreases items.len(),
{
    if items.len() == 0 {
        Seq::empty()
    } else {
        let t = tally(items.drop_last());
        match tally_place(t, items.last()) {
            Some(i) => t.update(i, (items.last(), t[i].1 + 1)),
            None => t.push((items.last(), 1)),
        }
    }
}

proof fn lemma_tally_place(t: Seq<(Seq<char>, nat)>, s: Seq<char>)
    ensures
        match tally_place(t, s) {
            Some(i) => 0 <= i < t.len() && t[i].0 == s,
            None => forall|k: int| 0 <= k < t.len() ==> (#[trigger] t[k]).0 != s,
        },
    decreases t.len(),
{
    if t.len() > 0 {
        lemma_tally_place(t.drop_last(), s);
        if t.last().0 != s && tally_place(t, s) is None {
            assert forall|k: int| 0 <= k < t.len() implies (#[trigger] t[k]).0 != s by {
                if k < t.len() - 1 {
                    assert(t.drop_last()[k] == t[k]);
                }
            }
        }
    }
}

/// A tally holds for each text how often it is among the others.
pub proof fn law_tally(items: Seq<Seq<char>>)
    ensures
        forall|i: int|
            0 <= i < tally(items).len() ==> (#[trigger] tally(items)[i]).1 == count_in(
                items,
                tally(items)[i].0,
            ) && 0 < tally(items)[i].1 <= items.len(),
        forall|i: int, j: int|
            0 <= i < j < tally(items).len() ==> (#[trigger] tally(items)[i]).0 != (
            #[trigger] tally(items)[j]).0,
        forall|s: Seq<char>| #[trigger]
            count_in(items, s) > 0 ==> tally_place(tally(items), s) is Some,
    decreases items.len(),
{
    if items.len() > 0 {
        let rest = items.drop_last();
        law_tally(rest);
        let t = tally(rest);
        lemma_tally_place(t, items.last());
        assert forall|s: Seq<char>| #[trigger] count_in(items, s) > 0 implies tally_place(
            tally(items),
            s,
        ) is Some by {
            lemma_tally_place(tally(items), s);
            lemma_tally_place(t, s);
            if s != items.last() {
                assert(count_in(rest, s) > 0);
                let i = tally_place(t, s)->Some_0;
                assert(tally(items)[i].0 == s);
            } else {
                match tally_place(t, s) {
                    Some(i) => {
                        assert(tally(items)[i].0 == s);
                    },
                    None => {
                        assert(tally(items)[t.len() as int].0 == s);
                    },
                }
            }
        }
        assert forall|i: int| 0 <= i < tally(items).len() implies (#[trigger] tally(items)[i]).1
            == count_in(items, tally(items)[i].0) && 0 < tally(items)[i].1 <= items.len() by {
            match tally_place(t, items.last()) {
                Some(k) => {
                    if i != k {
                        assert(t[i].0 != t[k].0);
                    }
                },
                None => {
                    lemma_uncounted(rest, t, items.last());
                },
            }
        }
    }
}

proof fn lemma_uncounted(items: Seq<Seq<char>>, t: Seq<(Seq<char>, nat)>, s: Seq<char>)
    requires
        tally_place(t, s) is None,
        count_in(items, s) > 0 ==> tally_place(t, s) is Some,
    ensures
        count_in(items, s) == 0,
{
}

fn place_in(t: &Vec<(String, usize)>, s: &str) -> (r: Option<usize>)
    ensures
        match r {
            Some(i) => tally_place(tally_view(t@), s@) == Some(i as int) && i < t@.len(),
            None => tally_place(tally_view(t@), s@) is None,
        },
{
    let ghost model = tally_view(t@);
    let mut i: usize = t.len();
    assert(model.take(i as int) =~= model);
    while i > 0
        invariant
            i <= t@.len(),
            model == tally_view(t@),
            tally_place(model.take(i as int), s@) == tally_place(model, s@),
        decreases i,
    {
        assert(model.take(i as int).last() == model[i - 1]);
        assert(model[i - 1].0 == t@[i - 1].0@);
        assert(model.take(i as int).drop_last() =~= model.take(i - 1));
        if str_eq(t[i - 1].0.as_str(), s) {
            return Some(i - 1);
        }
        i = i - 1;
    }
    None
}

fn tally_of(items: &Vec<String>) -> (r: Vec<(String, usize)>)
    ensures
        tally_view(r@) == tally(items.deep_view()),
{
    let ghost model = items.deep_view();
    let n: usize = items.len();
    let mut out: Vec<(String, usize)> = Vec::new();
    let mut i: usize = 0;
    assert(model.take(0) =~= Seq::<Seq<char>>::empty());
    assert(tally_view(out@) =~= tally(model.take(0)));
    while i < n
        invariant
            i <= n == items@.len(),
            model == items.deep_view(),
            tally_view(out@) == tally(model.take(i as int)),
        decreases n - i,
    {
        assert(model[i as int] == items@[i as int]@);
        assert(model.take(i + 1).drop_last() =~= model.take(i as int));
        proof {
            law_tally(model.take(i as int));
        }
        let ghost before = tally_view(out@);
        match place_in(&out, items[i].as_str()) {
            Some(k) => {
                proof {
                    lemma_tally_place(before, model[i as int]);
                    assert(before[k as int].1 == out@[k as int].1);
                    assert(before[k as int].1 <= i);
                }
                let seen: usize = out[k].1;
                out.set(k, (items[i].clone(), seen + 1));
                assert(tally_view(out@) =~= tally(model.take(i + 1)));
            },
            None => {
                out.push((items[i].clone(), 1));
                assert(tally_view(out@) =~= tally(model.take(i + 1)));
            },
        }
        i = i + 1;
    }
    assert(model.take(i as int) =~= model);
    out
}

fn count_text(items: &Vec<String>, s: &str) -> (r: usize)
    ensures
        r == count_in(items.deep_view(), s@),
{
    let ghost model = items.deep_view();
    let mut count: usize = 0;
    let mut i: usize = 0;
    assert(model.take(0) =~= Seq::<Seq<char>>::empty());
    while i < items.len()
        invariant
            i <= items@.len(),
            model == items.deep_view(),
            count == count_in(model.take(i as int), s@),
            count <= i,
        decreases items@.len() - i,
    {
        assert(model[i as int] == items@[i as int]@);
        assert(model.take(i + 1).drop_last() =~= model.take(i as int));
        if str_eq(items[i].as_str(), s) {
            count = count + 1;
        }
        i = i + 1;
    }
    assert(model.take(i as int) =~= model);
    count
}

proof fn lemma_counted(items: Seq<Seq<char>>, s: Seq<char>)
    ensures
        count_in(items, s) > 0 ==> items.contains(s),
    decreases items.len(),
{
    if items.len() > 0 {
        lemma_counted(items.drop_last(), s);
        if items.last() == s {
            assert(items[items.len() - 1] == s);
        } else if count_in(items, s) > 0 {
            let k = choose|k: int|
                0 <= k < items.drop_last().len() && #[trigger] items.drop_last()[k] == s;
            assert(items[k] == s);
        }
    }
}

/// The first of `items` that is not as often among `others`.
pub open spec fn first_miscount(
    items: Seq<Seq<char>>,
    all: Seq<Seq<char>>,
    others: Seq<Seq<char>>,
) -> Option<Seq<char>>
    decreases items.len(),
{
    if items.len() == 0 {
        None
    } else if count_in(all, items[0]) != count_in(others, items[0]) {
        Some(items[0])
    } else {
        first_miscount(items.drop_first(), all, others)
    }
}

proof fn lemma_miscount(items: Seq<Seq<char>>, all: Seq<Seq<char>>, others: Seq<Seq<char>>, k: int)
    requires
        0 <= k < items.len(),
        first_miscount(items, all, others) is None,
    ensures
        count_in(all, items[k]) == count_in(others, items[k]),
    decreases items.len(),
{
    if k > 0 {
        lemma_miscount(items.drop_first(), all, others, k - 1);
    }
}

fn miscount(all: &Vec<String>, others: &Vec<String>) -> (r: Option<usize>)
    ensures
        match r {
            Some(i) => i < all@.len() && first_miscount(
                all.deep_view(),
                all.deep_view(),
                others.deep_view(),
            ) == Some(all@[i as int]@),
            None => first_miscount(all.deep_view(), all.deep_view(), others.deep_view()) is None,
        },
{
    let ghost a = all.deep_view();
    let ghost b = others.deep_view();
    let mut i: usize = 0;
    assert(a.skip(0) =~= a);
    while i < all.len()
        invariant
            i <= all@.len(),
            a == all.deep_view(),
            b == others.deep_view(),
            first_miscount(a.skip(i as int), a, b) == first_miscount(a, a, b),
        decreases all@.len() - i,
    {
        assert(a.skip(i as int)[0] == all@[i as int]@);
        assert(a.skip(i as int).drop_first() =~= a.skip(i + 1));
        if count_text(all, all[i].as_str()) != count_text(others, all[i].as_str()) {
            return Some(i);
        }
        i = i + 1;
    }
    None
}

fn counts_agree(a: &Vec<String>, b: &Vec<String>) -> (r: bool)
    ensures
        r == same_counts(a.deep_view(), b.deep_view()),
{
    let ghost x = a.deep_view();
    let ghost y = b.deep_view();
    let left: Option<usize> = miscount(a, b);
    let right: Option<usize> = miscount(b, a);
    proof {
        if left is None && right is None {
            assert forall|s: Seq<char>| #[trigger] count_in(x, s) == count_in(y, s) by {
                lemma_counted(x, s);
                lemma_counted(y, s);
                if x.contains(s) {
                    lemma_miscount(x, x, y, choose|k: int| 0 <= k < x.len() && x[k] == s);
                } else if y.contains(s) {
                    lemma_miscount(y, y, x, choose|k: int| 0 <= k < y.len() && y[k] == s);
                }
            }
        } else {
            if left is Some {
                lemma_found_miscount(x, x, y);
            } else {
                lemma_found_miscount(y, y, x);
            }
        }
    }
    left.is_none() && right.is_none()
}

proof fn lemma_found_miscount(items: Seq<Seq<char>>, all: Seq<Seq<char>>, others: Seq<Seq<char>>)
    requires
        first_miscount(items, all, others) is Some,
    ensures
        ({
            let s = first_miscount(items, all, others)->Some_0;
            count_in(all, s) != count_in(others, s)
        }),
    decreases items.len(),
{
    if count_in(all, items[0]) == count_in(others, items[0]) {
        lemma_found_miscount(items.drop_first(), all, others);
    }
}

/// The bounds of the digits that the text from `i` on begins with.
pub open spec fn run_end(s: Seq<char>, i: int) -> int
    decreases s.len() - i,
{
    if i < s.len() && marker_digit(s[i]) {
        run_end(s, i + 1)
    } else {
        i
    }
}

/// A run of digits ends within the text.
pub proof fn lemma_run_end(s: Seq<char>, i: int)
    requires
        0 <= i <= s.len(),
    ensures
        i <= run_end(s, i) <= s.len(),
        i < s.len() && marker_digit(s[i]) ==> i < run_end(s, i),
    decreases s.len() - i,
{
    if i < s.len() && marker_digit(s[i]) {
        lemma_run_end(s, i + 1);
    }
}

/// The runs of digits in the text from `i` on.
pub open spec fn digit_runs_from(s: Seq<char>, i: int) -> Seq<Seq<char>>
    decreases s.len() - i,
{
    proof {
        if 0 <= i <= s.len() {
            lemma_run_end(s, i);
        }
    }
    if i < 0 || i >= s.len() {
        Seq::empty()
    } else if marker_digit(s[i]) {
        seq![s.subrange(i, run_end(s, i))] + digit_runs_from(s, run_end(s, i))
    } else {
        digit_runs_from(s, i + 1)
    }
}

/// The runs of digits in a text.
pub open spec fn digit_runs(s: Seq<char>) -> Seq<Seq<char>> {
    digit_runs_from(s, 0)
}

/// The runs of digits in a text.
pub fn digit_runs_of(text: &str) -> (r: Vec<String>)
    ensures
        r.deep_view() == digit_runs(text@),
{
    let v: Vec<char> = to_chars(text);
    let n: usize = v.len();
    let mut out: Vec<String> = Vec::new();
    let mut i: usize = 0;
    assert(out.deep_view() + digit_runs_from(v@, 0) =~= digit_runs(text@));
    while i < n
        invariant
            i <= n == v@.len(),
            v@ == text@,
            out.deep_view() + digit_runs_from(v@, i as int) == digit_runs(text@),
        decreases n - i,
    {
        if is_marker_digit(v[i]) {
            let mut j: usize = i + 1;
            while j < n && is_marker_digit(v[j])
                invariant
                    i < j <= n == v@.len(),
                    run_end(v@, j as int) == run_end(v@, i as int),
                decreases n - j,
            {
                j = j + 1;
            }
            let ghost before = out.deep_view();
            let ghost rest = digit_runs_from(v@, j as int);
            let ghost run = v@.subrange(i as int, j as int);
            push_deep(&mut out, text_of(&v, i, j));
            assert(out.deep_view() + rest =~= before + (seq![run] + rest));
            i = j;
        } else {
            i = i + 1;
        }
    }
    assert(out.deep_view() + digit_runs_from(v@, i as int) =~= out.deep_view());
    out
}

/// A character of a number as it is compared, if it counts.
pub open spec fn id_char(c: char) -> Option<char> {
    if c == '\u{ff08}' {
        Some('(')
    } else if c == '\u{ff09}' {
        Some(')')
    } else if c == '\u{ff0c}' || c == ',' || c == '\u{ff0e}' || c == '\u{3002}' {
        Some('.')
    } else if c == '\u{ff0d}' || c == '\u{2013}' || c == '\u{2014}' || c == '\u{2212}' {
        Some('-')
    } else if is_ws(c) {
        None
    } else if 'a' <= c <= 'z' {
        Some(((c as u8 - 32) as u8) as char)
    } else {
        Some(c)
    }
}

/// A number as it is compared: in capitals, with plain marks, and without white space.
pub open spec fn normal_id(s: Seq<char>) -> Seq<char>
    decreases s.len(),
{
    if s.len() == 0 {
        Seq::empty()
    } else {
        match id_char(s.last()) {
            Some(c) => normal_id(s.drop_last()).push(c),
            None => normal_id(s.drop_last()),
        }
    }
}

fn normalize_legal_id(id: &str) -> (r: String)
    ensures
        r@ == normal_id(id@),
{
    let v: Vec<char> = to_chars(id);
    let mut out: String = String::new();
    let mut i: usize = 0;
    assert(v@.take(0) =~= Seq::<char>::empty());
    while i < v.len()
        invariant
            i <= v@.len(),
            out@ == normal_id(v@.take(i as int)),
        decreases v@.len() - i,
    {
        let c: char = v[i];
        assert(v@.take(i + 1).drop_last() =~= v@.take(i as int));
        if c == '\u{ff08}' {
            out.push('(');
        } else if c == '\u{ff09}' {
            out.push(')');
        } else if c == '\u{ff0c}' || c == ',' || c == '\u{ff0e}' || c == '\u{3002}' {
            out.push('.');
        } else if c == '\u{ff0d}' || c == '\u{2013}' || c == '\u{2014}' || c == '\u{2212}' {
            out.push('-');
        } else if is_whitespace(c) {
        } else if 'a' <= c && c <= 'z' {
            out.push(((c as u8 - 32) as u8) as char);
        } else {
            out.push(c);
        }
        i = i + 1;
    }
    assert(v@.take(i as int) =~= v@);
    out
}

/// Whether a number has a structure, or letters.
pub open spec fn compound_id(id: Seq<char>) -> bool {
    exists|i: int| 0 <= i < id.len() && compound_char(#[trigger] id[i])
}

/// Whether a character shows that a number has a structure, or letters.
pub open spec fn compound_char(c: char) -> bool {
    c == '.' || c == '-' || c == '(' || c == ')' || 'a' <= c <= 'z' || 'A' <= c <= 'Z'
}

fn is_compound_legal_id(id: &str) -> (r: bool)
    ensures
        r == compound_id(id@),
{
    let v: Vec<char> = to_chars(id);
    let mut i: usize = 0;
    while i < v.len()
        invariant
            i <= v@.len(),
            v@ == id@,
            forall|k: int| 0 <= k < i ==> !compound_char(#[trigger] v@[k]),
        decreases v@.len() - i,
    {
        let c: char = v[i];
        if c == '.' || c == '-' || c == '(' || c == ')' || ('a' <= c && c <= 'z') || ('A' <= c && c
            <= 'Z') {
            assert(compound_char(id@[i as int]));
            return true;
        }
        i = i + 1;
    }
    false
}

/// The structured numbers among the matches of a pattern, as they are compared.
pub open spec fn compound_ids(found: Seq<Seq<char>>) -> Seq<Seq<char>>
    decreases found.len(),
{
    if found.len() == 0 {
        Seq::empty()
    } else {
        let id = normal_id(found.last());
        if compound_id(id) {
            compound_ids(found.drop_last()).push(id)
        } else {
            compound_ids(found.drop_last())
        }
    }
}

fn compound_of(found: &Vec<String>) -> (r: Vec<String>)
    ensures
        r.deep_view() == compound_ids(found.deep_view()),
{
    let ghost model = found.deep_view();
    let mut out: Vec<String> = Vec::new();
    let mut i: usize = 0;
    assert(model.take(0) =~= Seq::<Seq<char>>::empty());
    assert(out.deep_view() =~= Seq::<Seq<char>>::empty());
    while i < found.len()
        invariant
            i <= found@.len(),
            model == found.deep_view(),
            out.deep_view() == compound_ids(model.take(i as int)),
        decreases found@.len() - i,
    {
        assert(model[i as int] == found@[i as int]@);
        assert(model.take(i + 1).drop_last() =~= model.take(i as int));
        let id: String = normalize_legal_id(found[i].as_str());
        if is_compound_legal_id(id.as_str()) {
            push_deep(&mut out, id);
        }
        i = i + 1;
    }
    assert(model.take(i as int) =~= model);
    out
}

/// Whether the numbers of a translation are those of its source, given what was found in them: the
/// references and the numbers of the source, and the numbers of the translation.
pub open spec fn ids_checked(
    src_refs: Seq<Seq<char>>,
    src_ids: Seq<Seq<char>>,
    tgt_ids: Seq<Seq<char>>,
) -> Result<(), InvalidV> {
    let refs = compound_ids(src_refs);
    let src = compound_ids(src_ids);
    let tgt = compound_ids(tgt_ids);
    match first_miscount(refs, refs, tgt) {
        Some(id) => Err(
            InvalidV::LegalRefId { id, expected: count_in(refs, id), got: count_in(tgt, id) },
        ),
        None => if src.len() > 0 && !same_counts(src, tgt) {
            Err(InvalidV::CompoundLegalId { src: tally(src), tgt: tally(tgt) })
        } else {
            Ok(())
        },
    }
}

/// The deep view of a verdict.
pub open spec fn verdict(r: Result<(), ValidationError>) -> Result<(), InvalidV> {
    match r {
        Ok(_) => Ok(()),
        Err(e) => Err(e.deep_view()),
    }
}

/// Whether the numbers of a translation are those of its source, given what was found in them.
pub fn check_legal_ids(src_refs: &Vec<String>, src_ids: &Vec<String>, tgt_ids: &Vec<String>) -> (r:
    Result<(), ValidationError>)
    ensures
        verdict(r) == ids_checked(src_refs.deep_view(), src_ids.deep_view(), tgt_ids.deep_view()),
{
    let refs: Vec<String> = compound_of(src_refs);
    let tgt: Vec<String> = compound_of(tgt_ids);
    match miscount(&refs, &tgt) {
        Some(i) => {
            let expected: usize = count_text(&refs, refs[i].as_str());
            let got: usize = count_text(&tgt, refs[i].as_str());
            return Err(ValidationError::LegalRefId { id: refs[i].clone(), expected, got });
        },
        None => {},
    }
    let src: Vec<String> = compound_of(src_ids);
    if src.len() > 0 && !counts_agree(&src, &tgt) {
        return Err(ValidationError::CompoundLegalId { src: tally_of(&src), tgt: tally_of(&tgt) });
    }
    Ok(())
}

/// The first of `items` that is not among `known`.
pub open spec fn first_unknown(items: Seq<Seq<char>>, known: Seq<Seq<char>>) -> Option<Seq<char>>
    decreases items.len(),
{
    if items.len() == 0 {
        None
    } else if !known.contains(items[0]) {
        Some(items[0])
    } else {
        first_unknown(items.drop_first(), known)
    }
}

fn unknown_among(items: &Vec<String>, known: &Vec<String>) -> (r: Option<String>)
    ensures
        r.deep_view() == first_unknown(items.deep_view(), known.deep_view()),
{
    let ghost model = items.deep_view();
    let mut i: usize = 0;
    assert(model.skip(0) =~= model);
    while i < items.len()
        invariant
            i <= items@.len(),
            model == items.deep_view(),
            first_unknown(model.skip(i as int), known.deep_view()) == first_unknown(
                model,
                known.deep_view(),
            ),
        decreases items@.len() - i,
    {
        assert(model.skip(i as int)[0] == items@[i as int]@);
        assert(model.skip(i as int).drop_first() =~= model.skip(i + 1));
        if !is_among(known, items[i].as_str()) {
            return Some(items[i].clone());
        }
        i = i + 1;
    }
    None
}

/// Whether two lists of pieces are laid out alike: the same control markers, and between them text
/// where there is text, and none where there is none.
pub open spec fn same_layout(a: Seq<Seq<char>>, b: Seq<Seq<char>>) -> bool {
    a.len() == b.len() && forall|i: int|
        0 <= i < a.len() ==> (if control_token(#[trigger] a[i]) {
            a[i] == b[i]
        } else {
            is_blank(a[i]) == is_blank(b[i])
        })
}

fn layouts_agree(a: &Vec<String>, b: &Vec<String>) -> (r: bool)
    ensures
        r == same_layout(a.deep_view(), b.deep_view()),
{
    let ghost x = a.deep_view();
    let ghost y = b.deep_view();
    if a.len() != b.len() {
        return false;
    }
    let mut i: usize = 0;
    while i < a.len()
        invariant
            i <= a@.len(),
            a@.len() == b@.len(),
            x == a.deep_view(),
            y == b.deep_view(),
            forall|k: int|
                0 <= k < i ==> (if control_token(#[trigger] x[k]) {
                    x[k] == y[k]
                } else {
                    is_blank(x[k]) == is_blank(y[k])
                }),
        decreases a@.len() - i,
    {
        assert(x[i as int] == a@[i as int]@);
        assert(y[i as int] == b@[i as int]@);
        let s: &str = a[i].as_str();
        let t: &str = b[i].as_str();
        if is_control_token(s) {
            if !str_eq(s, t) {
                return false;
            }
        } else if blank(s) != blank(t) {
            return false;
        }
        i = i + 1;
    }
    true
}

/// The first marker of a map that does not stand as often in the one text as in the other.
pub open spec fn first_nt_miscount(
    map: Seq<(Seq<char>, Seq<char>)>,
    src: Seq<char>,
    tgt: Seq<char>,
) -> Option<Seq<char>>
    decreases map.len(),
{
    if map.len() == 0 {
        None
    } else if occurrences(src, map[0].0) != occurrences(tgt, map[0].0) {
        Some(map[0].0)
    } else {
        first_nt_miscount(map.drop_first(), src, tgt)
    }
}

fn nt_miscount(map: &Vec<(String, String)>, src: &str, tgt: &str) -> (r: Option<String>)
    ensures
        r.deep_view() == first_nt_miscount(map.deep_view(), src@, tgt@),
{
    let ghost model = map.deep_view();
    let mut i: usize = 0;
    assert(model.skip(0) =~= model);
    while i < map.len()
        invariant
            i <= map@.len(),
            model == map.deep_view(),
            first_nt_miscount(model.skip(i as int), src@, tgt@) == first_nt_miscount(
                model,
                src@,
                tgt@,
            ),
        decreases map@.len() - i,
    {
        assert(model.skip(i as int)[0] == map@[i as int].deep_view());
        assert(model.skip(i as int).drop_first() =~= model.skip(i + 1));
        let tok: &str = map[i].0.as_str();
        if count_matches(src, tok) != count_matches(tgt, tok) {
            return Some(map[i].0.clone());
        }
        i = i + 1;
    }
    None
}

/// A text with what was frozen put back, and a blank in place of every other marker.
pub open spec fn plain_text(s: Seq<char>, map: Seq<(Seq<char>, Seq<char>)>) -> Seq<char> {
    let u = unfrozen(s, map);
    with_replacement(u, tokens(TokenClass::Mt, u), 0, " "@)
}

fn plain_of(s: &str, map: &Vec<(String, String)>) -> (r: String)
    ensures
        r@ == plain_text(s@, map.deep_view()),
{
    let u: String = unfreeze_text(s, map);
    replace_tokens(TokenClass::Mt, u.as_str(), " ")
}

/// The markers of a class in a text.
pub open spec fn markers(class: TokenClass, s: Seq<char>) -> Seq<Seq<char>> {
    texts_at(s, tokens(class, s))
}

/// Whether a translation can stand for a source that was frozen with a map of markers.
pub open spec fn validated(
    frozen: Seq<char>,
    map: Seq<(Seq<char>, Seq<char>)>,
    t: Seq<char>,
) -> Result<(), InvalidV> {
    let unknown = first_unknown(markers(TokenClass::Mt, t), markers(TokenClass::Mt, frozen));
    let miscount = first_nt_miscount(map, frozen, t);
    let src = plain_text(frozen, map);
    let tgt = plain_text(t, map);
    if is_blank(t) {
        Err(InvalidV::EmptyOutput)
    } else if unknown is Some {
        Err(InvalidV::UnexpectedMtToken(unknown->Some_0))
    } else if markers(TokenClass::Sentinel, frozen) != markers(TokenClass::Sentinel, t) {
        Err(InvalidV::SentinelSequence)
    } else if control_tokens(frozen) != control_tokens(t) {
        Err(InvalidV::ControlSequence)
    } else if !same_layout(control_pieces(frozen), control_pieces(t)) {
        Err(InvalidV::ControlLayout)
    } else if miscount is Some {
        Err(InvalidV::NtTokenCount(miscount->Some_0))
    } else if !same_counts(digit_runs(src), digit_runs(tgt)) {
        Err(InvalidV::Digits { src: tally(digit_runs(src)), tgt: tally(digit_runs(tgt)) })
    } else {
        ids_checked(captured(EN_LEGAL_REF@, src), captured(LEGAL_ID@, src), captured(LEGAL_ID@, tgt))
    }
}

/// Whether a translation can stand for its source: it holds text, the markers and the numbers of the
/// source, and no text that was moved over a control marker.
pub fn validate_translation(tu: &TranslationUnit, translated: &str) -> (r: Result<(), ValidationError>)
    ensures
        verdict(r) == validated(tu.frozen_surface@, tu.nt_map.deep_view(), translated@),
{
    if blank(translated) {
        return Err(ValidationError::EmptyOutput);
    }
    let frozen: &str = tu.frozen_surface.as_str();
    let known: Vec<String> = token_texts(TokenClass::Mt, frozen);
    let found: Vec<String> = token_texts(TokenClass::Mt, translated);
    match unknown_among(&found, &known) {
        Some(tok) => {
            return Err(ValidationError::UnexpectedMtToken(tok));
        },
        None => {},
    }
    let src_sentinels: Vec<String> = token_texts(TokenClass::Sentinel, frozen);
    let tgt_sentinels: Vec<String> = token_texts(TokenClass::Sentinel, translated);
    if !same_texts(&src_sentinels, &tgt_sentinels) {
        return Err(ValidationError::SentinelSequence);
    }
    let src_ctrl: Vec<String> = control_tokens_from_text(frozen);
    let tgt_ctrl: Vec<String> = control_tokens_from_text(translated);
    if !same_texts(&src_ctrl, &tgt_ctrl) {
        return Err(ValidationError::ControlSequence);
    }
    let src_parts: Vec<String> = split_by_control_sequence(frozen);
    let tgt_parts: Vec<String> = split_by_control_sequence(translated);
    if !layouts_agree(&src_parts, &tgt_parts) {
        return Err(ValidationError::ControlLayout);
    }
    match nt_miscount(&tu.nt_map, frozen, translated) {
        Some(tok) => {
            return Err(ValidationError::NtTokenCount(tok));
        },
        None => {},
    }
    let src: String = plain_of(frozen, &tu.nt_map);
    let tgt: String = plain_of(translated, &tu.nt_map);
    let src_digits: Vec<String> = digit_runs_of(src.as_str());
    let tgt_digits: Vec<String> = digit_runs_of(tgt.as_str());
    if !counts_agree(&src_digits, &tgt_digits) {
        return Err(
            ValidationError::Digits { src: tally_of(&src_digits), tgt: tally_of(&tgt_digits) },
        );
    }
    let src_refs: Vec<String> = captures(EN_LEGAL_REF, src.as_str());
    let src_ids: Vec<String> = captures(LEGAL_ID, src.as_str());
    let tgt_ids: Vec<String> = captures(LEGAL_ID, tgt.as_str());
    check_legal_ids(&src_refs, &src_ids, &tgt_ids)
}

/// A translation that can stand for its source has its markers, in their order, and its numbers.
pub proof fn law_valid_keeps_markers(
    frozen: Seq<char>,
    map: Seq<(Seq<char>, Seq<char>)>,
    t: Seq<char>,
)
    requires
        validated(frozen, map, t) is Ok,
    ensures
        !is_blank(t),
        markers(TokenClass::Sentinel, t) == markers(TokenClass::Sentinel, frozen),
        control_tokens(t) == control_tokens(frozen),
        same_counts(digit_runs(plain_text(frozen, map)), digit_runs(plain_text(t, map))),
        forall|i: int|
            0 <= i < map.len() ==> occurrences(t, (#[trigger] map[i]).0) == occurrences(
                frozen,
                map[i].0,
            ),
{
    lemma_no_nt_miscount(map, frozen, t);
}

proof fn lemma_no_nt_miscount(map: Seq<(Seq<char>, Seq<char>)>, src: Seq<char>, tgt: Seq<char>)
    requires
        first_nt_miscount(map, src, tgt) is None,
    ensures
        forall|i: int|
            0 <= i < map.len() ==> occurrences(tgt, (#[trigger] map[i]).0) == occurrences(
                src,
                map[i].0,
            ),
    decreases map.len(),
{
    if map.len() > 0 {
        lemma_no_nt_miscount(map.drop_first(), src, tgt);
        assert forall|i: int| 0 <= i < map.len() implies occurrences(tgt, (#[trigger] map[i]).0)
            == occurrences(src, map[i].0) by {
            if i > 0 {
                assert(map.drop_first()[i - 1] == map[i]);
            }
        }
    }
}

/// A tally in words.
pub open spec fn tally_text(t: Seq<(Seq<char>, nat)>) -> Seq<char> {
    "{"@ + tally_entries(t) + "}"@
}

/// The entries of a tally in words.
pub open spec fn tally_entries(t: Seq<(Seq<char>, nat)>) -> Seq<char>
    decreases t.len(),
{
    if t.len() == 0 {
        Seq::empty()
    } else {
        let entry = "\""@ + t.last().0 + "\": "@ + dec(t.last().1);
        if t.len() == 1 {
            entry
        } else {
            tally_entries(t.drop_last()) + ", "@ + entry
        }
    }
}

/// What is said of a translation that cannot stand for its source.
pub open spec fn invalid_text(e: InvalidV) -> Seq<char> {
    match e {
        InvalidV::EmptyOutput => "empty_output"@,
        InvalidV::UnexpectedMtToken(t) => "unexpected_mt_token:"@ + t,
        InvalidV::SentinelSequence => "sentinel_sequence_mismatch"@,
        InvalidV::ControlSequence => "control_token_sequence_mismatch"@,
        InvalidV::ControlLayout => "control_token_layout_mismatch"@,
        InvalidV::NtTokenCount(t) => "nt_token_count_mismatch:"@ + t,
        InvalidV::Digits { src, tgt } => "digits_mismatch src="@ + tally_text(src) + " tgt="@
            + tally_text(tgt),
        InvalidV::LegalRefId { id, expected, got } => "legal_ref_id_mismatch id="@ + id
            + " expected="@ + dec(expected) + " got="@ + dec(got),
        InvalidV::CompoundLegalId { src, tgt } => "compound_legal_id_mismatch src="@ + tally_text(
            src,
        ) + " tgt="@ + tally_text(tgt),
    }
}

fn append_tally(out: &mut String, t: &Vec<(String, usize)>)
    ensures
        final(out)@ == old(out)@ + tally_text(tally_view(t@)),
{
    let ghost model = tally_view(t@);
    append(out, "{");
    let ghost start = out@;
    let mut i: usize = 0;
    assert(model.take(0) =~= Seq::<(Seq<char>, nat)>::empty());
    assert(out@ =~= start + tally_entries(model.take(0)));
    while i < t.len()
        invariant
            i <= t@.len(),
            model == tally_view(t@),
            out@ == start + tally_entries(model.take(i as int)),
        decreases t@.len() - i,
    {
        assert(model[i as int] == (t@[i as int].0@, t@[i as int].1 as nat));
        assert(model.take(i + 1).drop_last() =~= model.take(i as int));
        let n: String = dec_usize(t[i].1);
        if i > 0 {
            append(out, ", ");
        }
        append(out, "\"");
        append(out, t[i].0.as_str());
        append(out, "\": ");
        append(out, n.as_str());
        i = i + 1;
        assert(out@ =~= start + tally_entries(model.take(i as int)));
    }
    assert(model.take(i as int) =~= model);
    append(out, "}");
    assert(out@ =~= old(out)@ + tally_text(model));
}

impl ValidationError {
    /// What is said of the translation.
    pub fn message(&self) -> (r: String)
        ensures
            r@ == invalid_text(self.deep_view()),
    {
        match self {
            ValidationError::EmptyOutput => owned("empty_output"),
            ValidationError::UnexpectedMtToken(t) => {
                let mut s: String = owned("unexpected_mt_token:");
                append(&mut s, t.as_str());
                s
            },
            ValidationError::SentinelSequence => owned("sentinel_sequence_mismatch"),
            ValidationError::ControlSequence => owned("control_token_sequence_mismatch"),
            ValidationError::ControlLayout => owned("control_token_layout_mismatch"),
            ValidationError::NtTokenCount(t) => {
                let mut s: String = owned("nt_token_count_mismatch:");
                append(&mut s, t.as_str());
                s
            },
            ValidationError::Digits { src, tgt } => {
                let mut s: String = owned("digits_mismatch src=");
                append_tally(&mut s, src);
                append(&mut s, " tgt=");
                append_tally(&mut s, tgt);
                s
            },
            ValidationError::LegalRefId { id, expected, got } => {
                let mut s: String = owned("legal_ref_id_mismatch id=");
                let e: String = dec_usize(*expected);
                let g: String = dec_usize(*got);
                append(&mut s, id.as_str());
                append(&mut s, " expected=");
                append(&mut s, e.as_str());
                append(&mut s, " got=");
                append(&mut s, g.as_str());
                s
            },
            ValidationError::CompoundLegalId { src, tgt } => {
                let mut s: String = owned("compound_legal_id_mismatch src=");
                append_tally(&mut s, src);
                append(&mut s, " tgt=");
                append_tally(&mut s, tgt);
                s
            },
        }
    }
}

/// How many characters of each script a text has, white space aside.
#[verifier::ext_equal]
pub struct MetricsV {
    pub non_ws: nat,
    pub han: nat,
    pub latin_alpha: nat,
    pub jp_kana: nat,
    pub hangul: nat,
}

/// Whether a character is a Chinese one.
pub open spec fn han_char(c: char) -> bool {
    ||| '\u{3400}' <= c <= '\u{4dbf}'
    ||| '\u{4e00}' <= c <= '\u{9fff}'
    ||| '\u{f900}' <= c <= '\u{faff}'
    ||| '\u{20000}' <= c <= '\u{2a6df}'
    ||| '\u{2a700}' <= c <= '\u{2b73f}'
    ||| '\u{2b740}' <= c <= '\u{2b81f}'
    ||| '\u{2b820}' <= c <= '\u{2ceaf}'
    ||| '\u{2ceb0}' <= c <= '\u{2ebef}'
}

/// Whether a character is Japanese kana.
pub open spec fn kana_char(c: char) -> bool {
    ||| '\u{3040}' <= c <= '\u{309f}'
    ||| '\u{30a0}' <= c <= '\u{30ff}'
    ||| '\u{31f0}' <= c <= '\u{31ff}'
}

/// Whether a character is a Korean one.
pub open spec fn hangul_char(c: char) -> bool {
    ||| '\u{ac00}' <= c <= '\u{d7af}'
    ||| '\u{1100}' <= c <= '\u{11ff}'
    ||| '\u{3130}' <= c <= '\u{318f}'
}

fn is_han(c: char) -> (r: bool)
    ensures
        r == han_char(c),
{
    ('\u{3400}' <= c && c <= '\u{4dbf}') || ('\u{4e00}' <= c && c <= '\u{9fff}') || ('\u{f900}' <= c
        && c <= '\u{faff}') || ('\u{20000}' <= c && c <= '\u{2a6df}') || ('\u{2a700}' <= c && c
        <= '\u{2b73f}') || ('\u{2b740}' <= c && c <= '\u{2b81f}') || ('\u{2b820}' <= c && c
        <= '\u{2ceaf}') || ('\u{2ceb0}' <= c && c <= '\u{2ebef}')
}

fn is_jp_kana(c: char) -> (r: bool)
    ensures
        r == kana_char(c),
{
    ('\u{3040}' <= c && c <= '\u{309f}') || ('\u{30a0}' <= c && c <= '\u{30ff}') || ('\u{31f0}' <= c
        && c <= '\u{31ff}')
}

fn is_hangul(c: char) -> (r: bool)
    ensures
        r == hangul_char(c),
{
    ('\u{ac00}' <= c && c <= '\u{d7af}') || ('\u{1100}' <= c
        && c <= '\u{11ff}') || ('\u{3130}' <= c && c <= '\u{318f}')
}

/// One if a condition holds.
pub open spec fn one_if(b: bool) -> nat {
    if b {
        1
    } else {
        0
    }
}

/// How many characters of each script a text has.
pub open spec fn metrics(s: Seq<char>) -> MetricsV
    decreases s.len(),
{
    if s.len() == 0 {
        MetricsV { non_ws: 0, han: 0, latin_alpha: 0, jp_kana: 0, hangul: 0 }
    } else {
        let m = metrics(s.drop_last());
        let c = s.last();
        if is_ws(c) {
            m
        } else {
            MetricsV {
                non_ws: m.non_ws + 1,
                latin_alpha: m.latin_alpha + one_if('a' <= c <= 'z' || 'A' <= c <= 'Z'),
                han: m.han + one_if(han_char(c)),
                jp_kana: m.jp_kana + one_if(!han_char(c) && kana_char(c)),
                hangul: m.hangul + one_if(!han_char(c) && !kana_char(c) && hangul_char(c)),
            }
        }
    }
}

struct TextMetrics {
    non_ws: usize,
    han: usize,
    latin_alpha: usize,
    jp_kana: usize,
    hangul: usize,
}

impl DeepView for TextMetrics {
    type V = MetricsV;

    closed spec fn deep_view(&self) -> MetricsV {
        MetricsV {
            non_ws: self.non_ws as nat,
            han: self.han as nat,
            latin_alpha: self.latin_alpha as nat,
            jp_kana: self.jp_kana as nat,
            hangul: self.hangul as nat,
        }
    }
}

fn text_metrics(text: &str) -> (m: TextMetrics)
    ensures
        m.deep_view() == metrics(text@),
        m.han <= m.non_ws,
        m.latin_alpha <= m.non_ws,
        m.jp_kana <= m.non_ws,
        m.hangul <= m.non_ws,
{
    let v: Vec<char> = to_chars(text);
    let mut m = TextMetrics { non_ws: 0, han: 0, latin_alpha: 0, jp_kana: 0, hangul: 0 };
    let mut i: usize = 0;
    assert(v@.take(0) =~= Seq::<char>::empty());
    while i < v.len()
        invariant
            i <= v@.len(),
            m.deep_view() == metrics(v@.take(i as int)),
            m.non_ws <= i,
            m.han <= m.non_ws,
            m.latin_alpha <= m.non_ws,
            m.jp_kana <= m.non_ws,
            m.hangul <= m.non_ws,
        decreases v@.len() - i,
    {
        let c: char = v[i];
        assert(v@.take(i + 1).drop_last() =~= v@.take(i as int));
        if !is_whitespace(c) {
            m.non_ws = m.non_ws + 1;
            if ('a' <= c && c <= 'z') || ('A' <= c && c <= 'Z') {
                m.latin_alpha = m.latin_alpha + 1;
            }
            if is_han(c) {
                m.han = m.han + 1;
            } else if is_jp_kana(c) {
                m.jp_kana = m.jp_kana + 1;
            } else if is_hangul(c) {
                m.hangul = m.hangul + 1;
            }
        }
        i = i + 1;
    }
    assert(v@.take(i as int) =~= v@);
    m
}

/// A mark as it is compared: wide brackets and marks, and curved quotes, as the plain ones.
pub open spec fn plain_mark(c: char) -> char {
    if c == '\u{ff08}' {
        '('
    } else if c == '\u{ff09}' {
        ')'
    } else if c == '\u{3010}' {
        '['
    } else if c == '\u{3011}' {
        ']'
    } else if c == '\u{ff5b}' {
        '{'
    } else if c == '\u{ff5d}' {
        '}'
    } else if c == '\u{ff0c}' {
        ','
    } else if c == '\u{3002}' {
        '.'
    } else if c == '\u{ff1a}' {
        ':'
    } else if c == '\u{ff1b}' {
        ';'
    } else if c == '\u{ff01}' {
        '!'
    } else if c == '\u{ff1f}' {
        '?'
    } else if '\u{201c}' <= c <= '\u{201f}' {
        '"'
    } else if '\u{2018}' <= c <= '\u{201b}' {
        '\''
    } else {
        c
    }
}

fn to_plain_mark(c: char) -> (r: char)
    ensures
        r == plain_mark(c),
{
    if c == '\u{ff08}' {
        '('
    } else if c == '\u{ff09}' {
        ')'
    } else if c == '\u{3010}' {
        '['
    } else if c == '\u{3011}' {
        ']'
    } else if c == '\u{ff5b}' {
        '{'
    } else if c == '\u{ff5d}' {
        '}'
    } else if c == '\u{ff0c}' {
        ','
    } else if c == '\u{3002}' {
        '.'
    } else if c == '\u{ff1a}' {
        ':'
    } else if c == '\u{ff1b}' {
        ';'
    } else if c == '\u{ff01}' {
        '!'
    } else if c == '\u{ff1f}' {
        '?'
    } else if '\u{201c}' <= c && c <= '\u{201f}' {
        '"'
    } else if '\u{2018}' <= c && c <= '\u{201b}' {
        '\''
    } else {
        c
    }
}

/// A text as it is compared with another: without white space, with plain marks, in lower case.
pub open spec fn likeness(s: Seq<char>) -> Seq<char>
    decreases s.len(),
{
    if s.len() == 0 {
        Seq::empty()
    } else if is_ws(s.last()) {
        likeness(s.drop_last())
    } else {
        likeness(s.drop_last()) + char_lowercase(plain_mark(s.last()))
    }
}

fn normalize_for_similarity(text: &str) -> (r: String)
    ensures
        r@ == likeness(text@),
{
    let v: Vec<char> = to_chars(text);
    let mut out: String = String::new();
    let mut i: usize = 0;
    assert(v@.take(0) =~= Seq::<char>::empty());
    while i < v.len()
        invariant
            i <= v@.len(),
            out@ == likeness(v@.take(i as int)),
        decreases v@.len() - i,
    {
        let c: char = v[i];
        assert(v@.take(i + 1).drop_last() =~= v@.take(i as int));
        if !is_whitespace(c) {
            let lower: String = lowercase_char(to_plain_mark(c));
            append(&mut out, lower.as_str());
        }
        i = i + 1;
    }
    assert(v@.take(i as int) =~= v@);
    out
}

/// A kind of brackets.
#[derive(Clone, Copy, Debug, PartialEq, Eq, Structural)]
pub enum BracketKind {
    Parens,
    Square,
    Curly,
    Angle,
}

/// The kind that a character is a bracket of.
pub open spec fn bracket_kind(c: char) -> Option<BracketKind> {
    if c == '(' || c == ')' || c == '\u{ff08}' || c == '\u{ff09}' {
        Some(BracketKind::Parens)
    } else if c == '[' || c == ']' || c == '\u{3010}' || c == '\u{3011}' {
        Some(BracketKind::Square)
    } else if c == '{' || c == '}' || c == '\u{ff5b}' || c == '\u{ff5d}' {
        Some(BracketKind::Curly)
    } else if c == '<' || c == '>' || c == '\u{300a}' || c == '\u{300b}' {
        Some(BracketKind::Angle)
    } else {
        None
    }
}

/// How many brackets of a kind a text has.
pub open spec fn bracket_count(s: Seq<char>, kind: BracketKind) -> nat
    decreases s.len(),
{
    if s.len() == 0 {
        0
    } else {
        bracket_count(s.drop_last(), kind) + one_if(bracket_kind(s.last()) == Some(kind))
    }
}

fn canonical_bracket(c: char) -> (r: Option<BracketKind>)
    ensures
        r == bracket_kind(c),
{
    if c == '(' || c == ')' || c == '\u{ff08}' || c == '\u{ff09}' {
        Some(BracketKind::Parens)
    } else if c == '[' || c == ']' || c == '\u{3010}' || c == '\u{3011}' {
        Some(BracketKind::Square)
    } else if c == '{' || c == '}' || c == '\u{ff5b}' || c == '\u{ff5d}' {
        Some(BracketKind::Curly)
    } else if c == '<' || c == '>' || c == '\u{300a}' || c == '\u{300b}' {
        Some(BracketKind::Angle)
    } else {
        None
    }
}

fn count_brackets(text: &str, kind: BracketKind) -> (r: usize)
    ensures
        r == bracket_count(text@, kind),
{
    let v: Vec<char> = to_chars(text);
    let mut count: usize = 0;
    let mut i: usize = 0;
    assert(v@.take(0) =~= Seq::<char>::empty());
    while i < v.len()
        invariant
            i <= v@.len(),
            count <= i,
            count == bracket_count(v@.take(i as int), kind),
        decreases v@.len() - i,
    {
        assert(v@.take(i + 1).drop_last() =~= v@.take(i as int));
        match canonical_bracket(v[i]) {
            Some(k) => if k == kind {
                count = count + 1;
            },
            None => {},
        }
        i = i + 1;
    }
    assert(v@.take(i as int) =~= v@);
    count
}

/// The name of a kind of brackets.
pub open spec fn bracket_name(kind: BracketKind) -> Seq<char> {
    match kind {
        BracketKind::Parens => "parens"@,
        BracketKind::Square => "square"@,
        BracketKind::Curly => "curly"@,
        BracketKind::Angle => "angle"@,
    }
}

/// A pair of brackets of a kind.
pub open spec fn bracket_pair(kind: BracketKind) -> Seq<char> {
    match kind {
        BracketKind::Parens => "()"@,
        BracketKind::Square => "[]"@,
        BracketKind::Curly => "{}"@,
        BracketKind::Angle => "<>"@,
    }
}

/// What is found of a translation beside its source: flags for what is wrong and for what is odd,
/// and notes on brackets.
#[verifier::ext_equal]
pub struct FlagsV {
    pub hard: Seq<Seq<char>>,
    pub soft: Seq<Seq<char>>,
    pub notes: Seq<Seq<char>>,
}

/// What is found of the brackets of a kind, by how many there are.
pub open spec fn bracket_flags(st: FlagsV, kind: BracketKind, src: nat, tgt: nat) -> FlagsV {
    let note = bracket_pair(kind) + ":src="@ + dec(src) + " tgt="@ + dec(tgt);
    if src == tgt {
        st
    } else if tgt == 0 {
        FlagsV {
            hard: st.hard.push("missing_brackets_"@ + bracket_name(kind)),
            notes: st.notes.push(note),
            ..st
        }
    } else if src - tgt >= 4 || tgt - src >= 4 {
        FlagsV {
            soft: st.soft.push("bracket_count_mismatch_"@ + bracket_name(kind)),
            notes: st.notes.push(note),
            ..st
        }
    } else {
        FlagsV {
            soft: st.soft.push("bracket_count_mismatch"@),
            notes: st.notes.push(note),
            ..st
        }
    }
}

/// What is found of the brackets of all kinds.
pub open spec fn all_bracket_flags(st: FlagsV, src: Seq<char>, tgt: Seq<char>) -> FlagsV {
    let a = bracket_flags(
        st,
        BracketKind::Parens,
        bracket_count(src, BracketKind::Parens),
        bracket_count(tgt, BracketKind::Parens),
    );
    let b = bracket_flags(
        a,
        BracketKind::Square,
        bracket_count(src, BracketKind::Square),
        bracket_count(tgt, BracketKind::Square),
    );
    let c = bracket_flags(
        b,
        BracketKind::Curly,
        bracket_count(src, BracketKind::Curly),
        bracket_count(tgt, BracketKind::Curly),
    );
    bracket_flags(
        c,
        BracketKind::Angle,
        bracket_count(src, BracketKind::Angle),
        bracket_count(tgt, BracketKind::Angle),
    )
}

/// Whether a translation of some length is its source, but for white space, marks and case.
pub open spec fn identical(src: Seq<char>, tgt: Seq<char>) -> bool {
    likeness(src) == likeness(tgt) && byte_len(likeness(src)) >= 24
}

/// What is found of the lengths, by how many characters there are.
pub open spec fn length_flags(st: FlagsV, src: nat, tgt: nat) -> FlagsV {
    if src < 40 {
        st
    } else if tgt > 0 && below_quarter(tgt, src) {
        FlagsV { hard: st.hard.push("len_ratio_too_short_extreme"@), ..st }
    } else if above(tgt, src, 8388608, 0x40_0000) {
        FlagsV { hard: st.hard.push("len_ratio_too_long_extreme"@), ..st }
    } else if tgt > 0 && below(tgt, src, 11744051, 0x400_0000) {
        FlagsV { soft: st.soft.push("len_ratio_too_short"@), ..st }
    } else if above(tgt, src, 11744051, 0x80_0000) {
        FlagsV { soft: st.soft.push("len_ratio_too_long"@), ..st }
    } else {
        st
    }
}

/// What is found of the scripts of a translation into a language.
pub open spec fn script_flags(st: FlagsV, lang: Seq<char>, m: MetricsV) -> FlagsV {
    let n = m.non_ws;
    let much_latin = above(m.latin_alpha, n, 8388608, 0x400_0000);
    if begins(lang, "zh"@) {
        if below(m.han, n, 16106127, 0x2000_0000) && much_latin {
            FlagsV { hard: st.hard.push("target_script_missing_han"@), ..st }
        } else {
            st
        }
    } else if begins(lang, "en"@) {
        if below(m.latin_alpha, n, 12079596, 0x800_0000) && above(m.han, n, 13421773, 0x800_0000) {
            FlagsV { hard: st.hard.push("target_script_missing_latin"@), ..st }
        } else if above(m.han, n, 8388608, 0x400_0000) {
            FlagsV { soft: st.soft.push("target_contains_much_han"@), ..st }
        } else {
            st
        }
    } else if begins(lang, "ja"@) {
        if sum_below_tenth(quotient(m.han, n), quotient(m.jp_kana, n)) && much_latin {
            FlagsV { hard: st.hard.push("target_script_missing_japanese"@), ..st }
        } else {
            st
        }
    } else if begins(lang, "ko"@) {
        if below(m.hangul, n, 13421773, 0x1000_0000) && much_latin {
            FlagsV { hard: st.hard.push("target_script_missing_korean"@), ..st }
        } else {
            st
        }
    } else {
        st
    }
}

/// The name of a language as it is compared.
pub open spec fn lang_name(s: Seq<char>) -> Seq<char> {
    ascii_lower(trimmed(s))
}

/// What is found of a translation beside its source, both without markers.
pub open spec fn plain_flags(
    src: Seq<char>,
    tgt: Seq<char>,
    source_lang: Seq<char>,
    target_lang: Seq<char>,
) -> FlagsV {
    let m = metrics(tgt);
    let (a, b) = (lang_name(source_lang), lang_name(target_lang));
    let none = FlagsV { hard: Seq::empty(), soft: Seq::empty(), notes: Seq::empty() };
    let same = if identical(src, tgt) {
        FlagsV { hard: seq!["output_identical_to_source"@], ..none }
    } else {
        none
    };
    let length = length_flags(same, metrics(src).non_ws, m.non_ws);
    let script = if a.len() > 0 && b.len() > 0 && a != b && m.non_ws >= 20 {
        script_flags(length, b, m)
    } else {
        length
    };
    all_bracket_flags(script, src, tgt)
}

/// What is found of a translation beside its source.
#[derive(Clone, Debug)]
pub struct QualityHeuristics {
    pub hard_flags: Vec<String>,
    pub soft_flags: Vec<String>,
    pub src_chars: usize,
    pub tgt_chars: usize,
    /// How many characters of the translation are Chinese ones.
    pub han: usize,
    /// How many characters of the translation are Latin letters.
    pub latin_alpha: usize,
    pub bracket_notes: Vec<String>,
}

impl QualityHeuristics {
    pub open spec fn flags(&self) -> FlagsV {
        FlagsV {
            hard: self.hard_flags.deep_view(),
            soft: self.soft_flags.deep_view(),
            notes: self.bracket_notes.deep_view(),
        }
    }
}

struct Flags {
    hard: Vec<String>,
    soft: Vec<String>,
    notes: Vec<String>,
}

impl DeepView for Flags {
    type V = FlagsV;

    closed spec fn deep_view(&self) -> FlagsV {
        FlagsV {
            hard: self.hard.deep_view(),
            soft: self.soft.deep_view(),
            notes: self.notes.deep_view(),
        }
    }
}

fn name_of(kind: BracketKind) -> (r: &'static str)
    ensures
        r@ == bracket_name(kind),
{
    match kind {
        BracketKind::Parens => "parens",
        BracketKind::Square => "square",
        BracketKind::Curly => "curly",
        BracketKind::Angle => "angle",
    }
}

fn pair_of(kind: BracketKind) -> (r: &'static str)
    ensures
        r@ == bracket_pair(kind),
{
    match kind {
        BracketKind::Parens => "()",
        BracketKind::Square => "[]",
        BracketKind::Curly => "{}",
        BracketKind::Angle => "<>",
    }
}

impl Flags {
    fn hard(&mut self, flag: &str)
        ensures
            final(self).deep_view() == (FlagsV {
                hard: old(self).deep_view().hard.push(flag@),
                ..old(self).deep_view()
            }),
    {
        push_deep(&mut self.hard, owned(flag));
    }

    fn soft(&mut self, flag: &str)
        ensures
            final(self).deep_view() == (FlagsV {
                soft: old(self).deep_view().soft.push(flag@),
                ..old(self).deep_view()
            }),
    {
        push_deep(&mut self.soft, owned(flag));
    }

    fn brackets(&mut self, kind: BracketKind, src_text: &str, tgt_text: &str)
        ensures
            final(self).deep_view() == bracket_flags(
                old(self).deep_view(),
                kind,
                bracket_count(src_text@, kind),
                bracket_count(tgt_text@, kind),
            ),
    {
        let src: usize = count_brackets(src_text, kind);
        let tgt: usize = count_brackets(tgt_text, kind);
        if src == tgt {
            return;
        }
        let mut note: String = owned(pair_of(kind));
        let a: String = dec_usize(src);
        let b: String = dec_usize(tgt);
        append(&mut note, ":src=");
        append(&mut note, a.as_str());
        append(&mut note, " tgt=");
        append(&mut note, b.as_str());
        if tgt == 0 {
            let mut flag: String = owned("missing_brackets_");
            append(&mut flag, name_of(kind));
            self.hard(flag.as_str());
        } else if (src > tgt && src - tgt >= 4) || (tgt > src && tgt - src >= 4) {
            let mut flag: String = owned("bracket_count_mismatch_");
            append(&mut flag, name_of(kind));
            self.soft(flag.as_str());
        } else {
            self.soft("bracket_count_mismatch");
        }
        push_deep(&mut self.notes, note);
    }

    fn length(&mut self, src: usize, tgt: usize)
        ensures
            final(self).deep_view() == length_flags(old(self).deep_view(), src as nat, tgt as nat),
    {
        if src < 40 {
        } else if tgt > 0 && is_below_quarter(tgt, src) {
            self.hard("len_ratio_too_short_extreme");
        } else if is_above(tgt, src, 8388608, 0x40_0000) {
            self.hard("len_ratio_too_long_extreme");
        } else if tgt > 0 && is_below(tgt, src, 11744051, 0x400_0000) {
            self.soft("len_ratio_too_short");
        } else if is_above(tgt, src, 11744051, 0x80_0000) {
            self.soft("len_ratio_too_long");
        }
    }

    fn script(&mut self, lang: &str, m: &TextMetrics)
        requires
            m.han <= m.non_ws,
            m.jp_kana <= m.non_ws,
        ensures
            final(self).deep_view() == script_flags(old(self).deep_view(), lang@, m.deep_view()),
    {
        let n: usize = m.non_ws;
        let much_latin: bool = is_above(m.latin_alpha, n, 8388608, 0x400_0000);
        if starts_with(lang, "zh") {
            if is_below(m.han, n, 16106127, 0x2000_0000) && much_latin {
                self.hard("target_script_missing_han");
            }
        } else if starts_with(lang, "en") {
            if is_below(m.latin_alpha, n, 12079596, 0x800_0000) && is_above(
                m.han,
                n,
                13421773,
                0x800_0000,
            ) {
                self.hard("target_script_missing_latin");
            } else if is_above(m.han, n, 8388608, 0x400_0000) {
                self.soft("target_contains_much_han");
            }
        } else if starts_with(lang, "ja") {
            if is_sum_below_tenth(m.han, m.jp_kana, n) && much_latin {
                self.hard("target_script_missing_japanese");
            }
        } else if starts_with(lang, "ko") {
            if is_below(m.hangul, n, 13421773, 0x1000_0000) && much_latin {
                self.hard("target_script_missing_korean");
            }
        }
    }
}

/// What is found of a translation beside its source: whether it is left as it was, how its length
/// and its scripts compare, and whether brackets are lost.
pub fn quality_heuristics(
    tu: &TranslationUnit,
    translated: &str,
    source_lang: &str,
    target_lang: &str,
) -> (r: QualityHeuristics)
    ensures
        ({
            let src = plain_text(tu.frozen_surface@, tu.nt_map.deep_view());
            let tgt = plain_text(translated@, tu.nt_map.deep_view());
            &&& r.flags() == plain_flags(src, tgt, source_lang@, target_lang@)
            &&& r.src_chars == metrics(src).non_ws
            &&& r.tgt_chars == metrics(tgt).non_ws
            &&& r.han == metrics(tgt).han
            &&& r.latin_alpha == metrics(tgt).latin_alpha
        }),
{
    let src: String = plain_of(tu.frozen_surface.as_str(), &tu.nt_map);
    let tgt: String = plain_of(translated, &tu.nt_map);
    let src_metrics: TextMetrics = text_metrics(src.as_str());
    let m: TextMetrics = text_metrics(tgt.as_str());
    let mut flags = Flags { hard: Vec::new(), soft: Vec::new(), notes: Vec::new() };
    assert(flags.deep_view() =~= (FlagsV {
        hard: Seq::empty(),
        soft: Seq::empty(),
        notes: Seq::empty(),
    }));
    let src_norm: String = normalize_for_similarity(src.as_str());
    let tgt_norm: String = normalize_for_similarity(tgt.as_str());
    if str_eq(src_norm.as_str(), tgt_norm.as_str()) && byte_length(src_norm.as_str()) >= 24 {
        flags.hard("output_identical_to_source");
        assert(flags.deep_view().hard =~= seq!["output_identical_to_source"@]);
    }
    flags.length(src_metrics.non_ws, m.non_ws);
    let a_trim: String = trim(source_lang);
    let b_trim: String = trim(target_lang);
    let a: String = lower_ascii(a_trim.as_str());
    let b: String = lower_ascii(b_trim.as_str());
    if !is_empty(a.as_str()) && !is_empty(b.as_str()) && !str_eq(a.as_str(), b.as_str()) && m.non_ws
        >= 20 {
        flags.script(b.as_str(), &m);
    }
    flags.brackets(BracketKind::Parens, src.as_str(), tgt.as_str());
    flags.brackets(BracketKind::Square, src.as_str(), tgt.as_str());
    flags.brackets(BracketKind::Curly, src.as_str(), tgt.as_str());
    flags.brackets(BracketKind::Angle, src.as_str(), tgt.as_str());
    QualityHeuristics {
        hard_flags: flags.hard,
        soft_flags: flags.soft,
        src_chars: src_metrics.non_ws,
        tgt_chars: m.non_ws,
        han: m.han,
        latin_alpha: m.latin_alpha,
        bracket_notes: flags.notes,
    }
}

/// Whether a flag is one for which a translation is made anew.
pub open spec fn forcing_flag(f: Seq<char>) -> bool {
    f == "output_identical_to_source"@ || begins(f, "target_script_missing_"@) || f
        == "len_ratio_too_short_extreme"@ || f == "len_ratio_too_long_extreme"@
}

/// Whether flags hold one for which a translation is made anew.
pub open spec fn forces(hard: Seq<Seq<char>>) -> bool {
    exists|i: int| 0 <= i < hard.len() && forcing_flag(#[trigger] hard[i])
}

/// A line of a report, for a list that is not empty.
pub open spec fn report_line(head: Seq<char>, items: Seq<Seq<char>>) -> Seq<char> {
    if items.len() == 0 {
        Seq::empty()
    } else {
        head + joined_with(items, " | "@) + "\n"@
    }
}

fn append_line(out: &mut String, head: &str, items: &Vec<String>)
    ensures
        final(out)@ == old(out)@ + report_line(head@, items.deep_view()),
{
    if items.len() > 0 {
        let list: String = join(items, " | ");
        append(out, head);
        append(out, list.as_str());
        append(out, "\n");
    }
    assert(out@ =~= old(out)@ + report_line(head@, items.deep_view()));
}

impl QualityHeuristics {
    /// A report of what was found, given the quotients in words: of the lengths, of the Chinese
    /// characters and of the Latin letters.
    pub fn render_block(&self, len_ratio: &str, han_ratio: &str, latin_alpha_ratio: &str) -> (r: String)
        ensures
            r@ == trimmed(
                "QUALITY_HEURISTICS:\n"@ + "- len: src_chars="@ + dec(self.src_chars as nat)
                    + " tgt_chars="@ + dec(self.tgt_chars as nat) + " ratio="@ + len_ratio@ + "\n"@
                    + "- scripts: han_ratio="@ + han_ratio@ + " latin_alpha_ratio="@
                    + latin_alpha_ratio@ + "\n"@ + report_line(
                    "- brackets: "@,
                    self.bracket_notes.deep_view(),
                ) + report_line("- hard_flags: "@, self.hard_flags.deep_view()) + report_line(
                    "- soft_flags: "@,
                    self.soft_flags.deep_view(),
                ),
            ),
    {
        let mut out: String = owned("QUALITY_HEURISTICS:\n");
        let a: String = dec_usize(self.src_chars);
        let b: String = dec_usize(self.tgt_chars);
        append(&mut out, "- len: src_chars=");
        append(&mut out, a.as_str());
        append(&mut out, " tgt_chars=");
        append(&mut out, b.as_str());
        append(&mut out, " ratio=");
        append(&mut out, len_ratio);
        append(&mut out, "\n");
        append(&mut out, "- scripts: han_ratio=");
        append(&mut out, han_ratio);
        append(&mut out, " latin_alpha_ratio=");
        append(&mut out, latin_alpha_ratio);
        append(&mut out, "\n");
        append_line(&mut out, "- brackets: ", &self.bracket_notes);
        append_line(&mut out, "- hard_flags: ", &self.hard_flags);
        append_line(&mut out, "- soft_flags: ", &self.soft_flags);
        trim(out.as_str())
    }

    /// Whether the translation is to be made anew.
    pub fn wants_force_retranslate(&self) -> (r: bool)
        ensures
            r == forces(self.flags().hard),
    {
        let ghost model = self.hard_flags.deep_view();
        let mut i: usize = 0;
        while i < self.hard_flags.len()
            invariant
                i <= self.hard_flags@.len(),
                model == self.hard_flags.deep_view(),
                forall|k: int| 0 <= k < i ==> !forcing_flag(#[trigger] model[k]),
            decreases self.hard_flags@.len() - i,
        {
            assert(model[i as int] == self.hard_flags@[i as int]@);
            let f: &str = self.hard_flags[i].as_str();
            if str_eq(f, "output_identical_to_source") || starts_with(f, "target_script_missing_")
                || str_eq(f, "len_ratio_too_short_extreme") || str_eq(
                f,
                "len_ratio_too_long_extreme",
            ) {
                assert(forcing_flag(model[i as int]));
                return true;
            }
            i = i + 1;
        }
        false
    }
}

} // verus!
