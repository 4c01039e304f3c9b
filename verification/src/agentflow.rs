//! Patches to a draft, sentence by sentence.

use crate::agent::{patch_type_of, ActPatch, PatchType};
use crate::chars::{
    append, begins, byte_len, byte_length, contains, count_matches, dec, dec_usize, has, is_digit,
    is_empty, is_whitespace, is_ws, occurrences, owned, starts_with, str_eq, text_of, to_chars,
    trim, trim_end, trim_start, trimmed,
};
use crate::digest::{sha256_hex_bytes, sha256_hex_of};
use crate::patterns::{captured, captures, ACRONYM};
use crate::quality::{count_in, digit_runs, digit_runs_of, markers};
use crate::sentinels::{token_texts, TokenClass};
use crate::vecs::{is_among, push_deep};
use vstd::prelude::*;
use vstd::utf8::*;

verus! {

/// A sentence, and what stands between it and the next one.
#[derive(Clone, Debug)]
pub struct SentenceSegment {
    pub text: String,
    pub suffix: String,
}

/// The model of a [`SentenceSegment`].
#[verifier::ext_equal]
pub struct SentenceV {
    pub text: Seq<char>,
    pub suffix: Seq<char>,
}

impl DeepView for SentenceSegment {
    type V = SentenceV;

    open spec fn deep_view(&self) -> SentenceV {
        SentenceV { text: self.text@, suffix: self.suffix@ }
    }
}

/// Whether a character ends a sentence.
pub open spec fn terminator(c: char) -> bool {
    c == '.' || c == '!' || c == '?' || c == ';' || c == '\u{3002}' || c == '\u{ff01}' || c
        == '\u{ff1f}' || c == '\u{ff1b}'
}

fn is_sentence_terminator(c: char) -> (r: bool)
    ensures
        r == terminator(c),
{
    c == '.' || c == '!' || c == '?' || c == ';' || c == '\u{3002}' || c == '\u{ff01}' || c
        == '\u{ff1f}' || c == '\u{ff1b}'
}

/// Where the sentence from `start` on ends, if it ends at the character at `i`: before a line break,
/// or after a terminator that white space or the end follows.
pub open spec fn sentence_end(s: Seq<char>, start: int, i: int) -> Option<int> {
    if s[i] == '\n' {
        if i > start && s[i - 1] == '\r' {
            Some(i - 1)
        } else {
            Some(i)
        }
    } else if terminator(s[i]) && (i + 1 >= s.len() || is_ws(s[i + 1])) {
        Some(i + 1)
    } else {
        None
    }
}

/// Where the white space from `i` on ends.
pub open spec fn ws_end(s: Seq<char>, i: int) -> int
    decreases s.len() - i,
{
    if 0 <= i < s.len() && is_ws(s[i]) {
        ws_end(s, i + 1)
    } else {
        i
    }
}

/// White space ends within the text.
pub proof fn lemma_ws_end(s: Seq<char>, i: int)
    requires
        0 <= i <= s.len(),
    ensures
        i <= ws_end(s, i) <= s.len(),
    decreases s.len() - i,
{
    if i < s.len() && is_ws(s[i]) {
        lemma_ws_end(s, i + 1);
    }
}

/// The sentences of a text from `start` on, of which the part before `i` holds no end.
pub open spec fn sentences_from(s: Seq<char>, start: int, i: int) -> Seq<SentenceV>
    decreases s.len() - i,
{
    proof {
        if 0 <= i < s.len() {
            lemma_ws_end(s, i + 1);
        }
    }
    if i < 0 || i >= s.len() {
        if start < s.len() {
            seq![SentenceV { text: s.subrange(start, s.len() as int), suffix: Seq::empty() }]
        } else {
            Seq::empty()
        }
    } else {
        match sentence_end(s, start, i) {
            Some(end) => {
                let next = ws_end(s, i + 1);
                seq![SentenceV { text: s.subrange(start, end), suffix: s.subrange(end, next) }]
                    + sentences_from(s, next, next)
            },
            None => sentences_from(s, start, i + 1),
        }
    }
}

/// The sentences of a text.
pub open spec fn sentences(s: Seq<char>) -> Seq<SentenceV> {
    sentences_from(s, 0, 0)
}

/// The sentences of a text, each with what stands between it and the next one.
pub fn split_sentences(text: &str) -> (r: Vec<SentenceSegment>)
    ensures
        r.deep_view() == sentences(text@),
{
    let v: Vec<char> = to_chars(text);
    let n: usize = v.len();
    let mut out: Vec<SentenceSegment> = Vec::new();
    let mut start: usize = 0;
    let mut i: usize = 0;
    assert(out.deep_view() + sentences_from(v@, 0, 0) =~= sentences(text@));
    while i < n
        invariant
            start <= i <= n == v@.len(),
            v@ == text@,
            out.deep_view() + sentences_from(v@, start as int, i as int) == sentences(text@),
        decreases n - i,
    {
        let c: char = v[i];
        let end: Option<usize> = if c == '\n' {
            if i > start && v[i - 1] == '\r' {
                Some(i - 1)
            } else {
                Some(i)
            }
        } else if is_sentence_terminator(c) && (i + 1 >= n || is_whitespace(v[i + 1])) {
            Some(i + 1)
        } else {
            None
        };
        match end {
            Some(end) => {
                let mut next: usize = i + 1;
                while next < n && is_whitespace(v[next])
                    invariant
                        i < next <= n == v@.len(),
                        ws_end(v@, next as int) == ws_end(v@, i + 1),
                    decreases n - next,
                {
                    next = next + 1;
                }
                let ghost before = out.deep_view();
                let ghost rest = sentences_from(v@, next as int, next as int);
                let seg = SentenceSegment {
                    text: text_of(&v, start, end),
                    suffix: text_of(&v, end, next),
                };
                let ghost s = seg.deep_view();
                push_deep(&mut out, seg);
                assert(out.deep_view() + rest =~= before + (seq![s] + rest));
                start = next;
                i = next;
            },
            None => {
                i = i + 1;
            },
        }
    }
    if start < n {
        let ghost before = out.deep_view();
        let none: String = String::new();
        let seg = SentenceSegment { text: text_of(&v, start, n), suffix: none };
        let ghost s = seg.deep_view();
        push_deep(&mut out, seg);
        assert(none@ =~= Seq::<char>::empty());
        assert(out.deep_view() =~= before + seq![s]);
    } else {
        assert(out.deep_view() + Seq::<SentenceV>::empty() =~= out.deep_view());
    }
    out
}

/// Sentences one after another.
pub open spec fn sentences_joined(p: Seq<SentenceV>) -> Seq<char>
    decreases p.len(),
{
    if p.len() == 0 {
        Seq::empty()
    } else {
        sentences_joined(p.drop_last()) + p.last().text + p.last().suffix
    }
}

/// Sentences one after another.
pub fn join_sentences(segments: &Vec<SentenceSegment>) -> (r: String)
    ensures
        r@ == sentences_joined(segments.deep_view()),
{
    let ghost model = segments.deep_view();
    let mut out: String = String::new();
    let mut i: usize = 0;
    assert(model.take(0) =~= Seq::<SentenceV>::empty());
    while i < segments.len()
        invariant
            i <= segments@.len(),
            model == segments.deep_view(),
            out@ == sentences_joined(model.take(i as int)),
        decreases segments@.len() - i,
    {
        assert(model[i as int] == segments@[i as int].deep_view());
        assert(model.take(i + 1).drop_last() =~= model.take(i as int));
        append(&mut out, segments[i].text.as_str());
        append(&mut out, segments[i].suffix.as_str());
        i = i + 1;
    }
    assert(model.take(i as int) =~= model);
    out
}

proof fn lemma_joined_first(a: SentenceV, p: Seq<SentenceV>)
    ensures
        sentences_joined(seq![a] + p) == a.text + a.suffix + sentences_joined(p),
    decreases p.len(),
{
    let all = seq![a] + p;
    if p.len() == 0 {
        reveal_with_fuel(sentences_joined, 2);
        assert(all.drop_last() =~= Seq::<SentenceV>::empty());
        assert(sentences_joined(all) =~= a.text + a.suffix + sentences_joined(p));
    } else {
        assert(all.drop_last() =~= seq![a] + p.drop_last());
        lemma_joined_first(a, p.drop_last());
        assert(sentences_joined(all) =~= a.text + a.suffix + sentences_joined(p));
    }
}

proof fn lemma_sentences_joined(s: Seq<char>, start: int, i: int)
    requires
        0 <= start <= i <= s.len(),
    ensures
        sentences_joined(sentences_from(s, start, i)) == s.subrange(start, s.len() as int),
    decreases s.len() - i,
{
    if i >= s.len() {
        if start < s.len() {
            let a = SentenceV { text: s.subrange(start, s.len() as int), suffix: Seq::empty() };
            lemma_joined_first(a, Seq::empty());
            assert(seq![a] + Seq::<SentenceV>::empty() =~= seq![a]);
            assert(a.text + a.suffix + sentences_joined(Seq::empty()) =~= a.text);
        }
    } else {
        match sentence_end(s, start, i) {
            Some(end) => {
                lemma_ws_end(s, i + 1);
                let next = ws_end(s, i + 1);
                lemma_sentences_joined(s, next, next);
                let a = SentenceV { text: s.subrange(start, end), suffix: s.subrange(end, next) };
                lemma_joined_first(a, sentences_from(s, next, next));
                assert(a.text + a.suffix + s.subrange(next, s.len() as int) =~= s.subrange(
                    start,
                    s.len() as int,
                ));
            },
            None => lemma_sentences_joined(s, start, i + 1),
        }
    }
}

/// The sentences of a text one after another are the text.
pub proof fn law_sentences_join(s: Seq<char>)
    ensures
        sentences_joined(sentences(s)) == s,
{
    lemma_sentences_joined(s, 0, 0);
    assert(s.subrange(0, s.len() as int) =~= s);
}

/// A sentence in a list.
pub open spec fn list_line(i: nat, text: Seq<char>) -> Seq<char> {
    "["@ + dec(i) + "] "@ + text + "\n"@
}

/// The lines of the first sentences, and how many bytes they take.
pub open spec fn list_lines(p: Seq<SentenceV>, n: int) -> Seq<char>
    decreases n,
{
    if n <= 0 {
        Seq::empty()
    } else {
        list_lines(p, n - 1) + list_line((n - 1) as nat, p[n - 1].text)
    }
}

/// How many sentences fit into a list of at most `max` bytes. No bound is 0.
pub open spec fn list_fit(p: Seq<SentenceV>, max: nat, n: int) -> int
    decreases p.len() - n,
{
    if n < 0 || n >= p.len() {
        n
    } else if max > 0 && byte_len(list_lines(p, n + 1)) > max {
        n
    } else {
        list_fit(p, max, n + 1)
    }
}

/// The sentences in a list, as many as fit.
pub open spec fn sentence_list(p: Seq<SentenceV>, max: nat) -> Seq<char> {
    let n = list_fit(p, max, 0);
    if n < p.len() {
        list_lines(p, n) + "... (truncated)\n"@
    } else {
        list_lines(p, n)
    }
}

/// The sentences in a list, as many as fit into a number of bytes, where 0 is no bound.
pub fn render_sentence_list(segments: &Vec<SentenceSegment>, max_chars: usize) -> (r: String)
    ensures
        r@ == sentence_list(segments.deep_view(), max_chars as nat),
{
    let ghost p = segments.deep_view();
    let n: usize = segments.len();
    let mut out: String = String::new();
    let mut i: usize = 0;
    while i < n
        invariant
            i <= n == segments@.len(),
            p == segments.deep_view(),
            out@ == list_lines(p, i as int),
            list_fit(p, max_chars as nat, i as int) == list_fit(p, max_chars as nat, 0),
        decreases n - i,
    {
        assert(p[i as int] == segments@[i as int].deep_view());
        let number: String = dec_usize(i);
        let mut more: String = out.clone();
        append(&mut more, "[");
        append(&mut more, number.as_str());
        append(&mut more, "] ");
        append(&mut more, segments[i].text.as_str());
        append(&mut more, "\n");
        assert(more@ =~= list_lines(p, i + 1));
        if max_chars > 0 && byte_length(more.as_str()) > max_chars {
            append(&mut out, "... (truncated)\n");
            return out;
        }
        out = more;
        i = i + 1;
    }
    out
}

/// A text with every run of white space as one blank.
pub open spec fn spaced(s: Seq<char>) -> Seq<char>
    decreases s.len(),
{
    if s.len() == 0 {
        Seq::empty()
    } else if !is_ws(s.last()) {
        spaced(s.drop_last()).push(s.last())
    } else if s.len() > 1 && is_ws(s[s.len() - 2]) {
        spaced(s.drop_last())
    } else {
        spaced(s.drop_last()).push(' ')
    }
}

/// A text as it is compared with another: without white space at either end, and with one blank for
/// every run of it.
pub open spec fn for_match(s: Seq<char>) -> Seq<char> {
    spaced(trimmed(s))
}

/// A text as it is compared with another.
pub fn normalize_for_match(text: &str) -> (r: String)
    ensures
        r@ == for_match(text@),
{
    let t: String = trim(text);
    let v: Vec<char> = to_chars(t.as_str());
    let mut out: String = String::new();
    let mut i: usize = 0;
    assert(v@.take(0) =~= Seq::<char>::empty());
    while i < v.len()
        invariant
            i <= v@.len(),
            out@ == spaced(v@.take(i as int)),
        decreases v@.len() - i,
    {
        let c: char = v[i];
        assert(v@.take(i + 1).drop_last() =~= v@.take(i as int));
        if !is_whitespace(c) {
            out.push(c);
        } else if i > 0 && is_whitespace(v[i - 1]) {
        } else {
            out.push(' ');
        }
        i = i + 1;
    }
    assert(v@.take(i as int) =~= v@);
    out
}

/// The words of a text, and what stands after the last white space.
#[verifier::ext_equal]
pub struct WordsV {
    pub whole: Seq<Seq<char>>,
    pub open: Seq<char>,
}

/// The words with the open one closed.
pub open spec fn word_closed(w: WordsV) -> WordsV {
    if w.open.len() == 0 {
        w
    } else {
        WordsV { whole: w.whole.push(w.open), open: Seq::empty() }
    }
}

/// The words of a text so far.
pub open spec fn words_run(s: Seq<char>) -> WordsV
    decreases s.len(),
{
    if s.len() == 0 {
        WordsV { whole: Seq::empty(), open: Seq::empty() }
    } else {
        let before = words_run(s.drop_last());
        if is_ws(s.last()) {
            word_closed(before)
        } else {
            WordsV { open: before.open.push(s.last()), ..before }
        }
    }
}

/// The words of a text: what stands between white space.
pub open spec fn words(s: Seq<char>) -> Seq<Seq<char>> {
    word_closed(words_run(s)).whole
}

/// Whether a text is as it is compared with another: no white space at either end, and none in it but
/// single blanks.
pub open spec fn single_spaced(s: Seq<char>) -> bool {
    &&& s.len() > 0 ==> !is_ws(s[0]) && !is_ws(s.last())
    &&& forall|i: int|
        0 <= i < s.len() && is_ws(#[trigger] s[i]) ==> s[i] == ' ' && i + 1 < s.len() && !is_ws(
            s[i + 1],
        )
}

proof fn lemma_words_spaced(s: Seq<char>)
    ensures
        words_run(spaced(s)) == words_run(s),
    decreases s.len(),
{
    if s.len() > 0 {
        let front = s.drop_last();
        lemma_words_spaced(front);
        let p = spaced(front);
        if !is_ws(s.last()) {
            assert(p.push(s.last()).drop_last() =~= p);
        } else if s.len() > 1 && is_ws(s[s.len() - 2]) {
            assert(front.last() == s[s.len() - 2]);
            assert(words_run(front).open.len() == 0);
        } else {
            assert(p.push(' ').drop_last() =~= p);
        }
    }
}

proof fn lemma_words_end(s: Seq<char>)
    ensures
        words(trim_end(s)) == words(s),
    decreases s.len(),
{
    if s.len() > 0 && is_ws(s.last()) {
        lemma_words_end(s.drop_last());
    }
}

proof fn lemma_words_start(s: Seq<char>)
    ensures
        words_run(trim_start(s)) == words_run(s),
    decreases s.len(),
{
    if s.len() > 0 && is_ws(s[0]) {
        lemma_words_start(s.drop_first());
        lemma_words_after(s, s.len() as int);
        assert(s.take(s.len() as int) =~= s);
        assert(s.skip(1).take(s.len() - 1) =~= s.drop_first());
    }
}

/// White space before a text adds no word.
proof fn lemma_words_after(s: Seq<char>, n: int)
    requires
        1 <= n <= s.len(),
        is_ws(s[0]),
    ensures
        words_run(s.take(n)) == words_run(s.skip(1).take(n - 1)),
    decreases n,
{
    let a = s.take(n);
    if n == 1 {
        reveal_with_fuel(words_run, 2);
        assert(a.drop_last() =~= Seq::<char>::empty());
        assert(s.skip(1).take(0) =~= Seq::<char>::empty());
    } else {
        lemma_words_after(s, n - 1);
        assert(a.drop_last() =~= s.take(n - 1));
        assert(s.skip(1).take(n - 1).drop_last() =~= s.skip(1).take(n - 2));
        assert(a.last() == s.skip(1).take(n - 1).last());
    }
}

/// What `spaced` leaves: single blanks, and none that was not white space.
proof fn lemma_spaced(s: Seq<char>)
    requires
        s.len() > 0,
    ensures
        spaced(s).len() > 0,
        is_ws(s.last()) <==> is_ws(spaced(s).last()),
        is_ws(s[0]) <==> is_ws(spaced(s)[0]),
        forall|i: int|
            0 <= i < spaced(s).len() && is_ws(#[trigger] spaced(s)[i]) ==> spaced(s)[i] == ' ' && (i
                + 1 < spaced(s).len() ==> !is_ws(spaced(s)[i + 1])),
    decreases s.len(),
{
    let front = s.drop_last();
    if front.len() == 0 {
        reveal_with_fuel(spaced, 2);
        assert(front =~= Seq::<char>::empty());
    } else {
        lemma_spaced(front);
        assert(front.last() == s[s.len() - 2]);
        let p = spaced(front);
        let out = spaced(s);
        assert forall|i: int| 0 <= i < out.len() && is_ws(#[trigger] out[i]) implies out[i] == ' '
            && (i + 1 < out.len() ==> !is_ws(out[i + 1])) by {
            if i < p.len() {
                assert(out[i] == p[i]);
                if i + 1 < p.len() {
                    assert(out[i + 1] == p[i + 1]);
                }
            }
        }
    }
}

proof fn lemma_single_stays(s: Seq<char>)
    requires
        forall|i: int|
            0 <= i < s.len() && is_ws(#[trigger] s[i]) ==> s[i] == ' ' && (i + 1 < s.len()
                ==> !is_ws(s[i + 1])),
    ensures
        spaced(s) == s,
    decreases s.len(),
{
    if s.len() > 0 {
        let front = s.drop_last();
        assert forall|i: int| 0 <= i < front.len() && is_ws(#[trigger] front[i]) implies front[i]
            == ' ' && (i + 1 < front.len() ==> !is_ws(front[i + 1])) by {
            assert(front[i] == s[i]);
        }
        lemma_single_stays(front);
        assert(front.push(s.last()) =~= s);
        if is_ws(s.last()) {
            assert(s[s.len() - 1] == ' ');
            if s.len() > 1 {
                assert(!is_ws(s[s.len() - 2])) by {
                    if is_ws(s[s.len() - 2]) {
                        assert(!is_ws(s[s.len() - 2 + 1]));
                    }
                }
            }
        }
    } else {
        assert(s =~= Seq::<char>::empty());
    }
}

/// The ends of a trimmed text are no white space.
proof fn lemma_trim_end(s: Seq<char>)
    ensures
        trim_end(s).len() > 0 ==> !is_ws(trim_end(s).last()) && trim_end(s)[0] == s[0],
        s.len() > 0 && !is_ws(s[0]) ==> trim_end(s).len() > 0,
        s.len() > 0 && !is_ws(s.last()) ==> trim_end(s) == s,
    decreases s.len(),
{
    if s.len() > 0 && is_ws(s.last()) {
        lemma_trim_end(s.drop_last());
        if s.len() > 1 {
            assert(s.drop_last()[0] == s[0]);
        }
    }
}

proof fn lemma_trim_start(s: Seq<char>)
    ensures
        trim_start(s).len() > 0 ==> !is_ws(trim_start(s)[0]),
        s.len() > 0 && !is_ws(s[0]) ==> trim_start(s) == s,
    decreases s.len(),
{
    if s.len() > 0 && is_ws(s[0]) {
        lemma_trim_start(s.drop_first());
    }
}

/// A text as it is compared with another has the same words as the text, single blanks between them
/// and no other white space, and it is compared as it is.
pub proof fn law_for_match(s: Seq<char>)
    ensures
        words(for_match(s)) == words(s),
        single_spaced(for_match(s)),
        for_match(for_match(s)) == for_match(s),
{
    let t = trimmed(s);
    let x = for_match(s);
    lemma_words_start(s);
    lemma_words_end(trim_start(s));
    lemma_words_spaced(t);
    lemma_trim_start(s);
    lemma_trim_end(trim_start(s));
    if t.len() > 0 {
        lemma_spaced(t);
        lemma_trim_start(x);
        lemma_trim_end(x);
        lemma_single_stays(x);
    } else {
        assert(x =~= Seq::<char>::empty());
        assert(t =~= x);
    }
}

/// The digest of a text in hexadecimal notation.
pub fn sha256_hex(text: &str) -> (r: String)
    ensures
        r@ == sha256_hex_of(encode_utf8(text@)),
{
    sha256_hex_bytes(text.as_bytes())
}

/// Texts, each once and in the order in which they come first.
pub open spec fn distinct(items: Seq<Seq<char>>) -> Seq<Seq<char>>
    decreases items.len(),
{
    if items.len() == 0 {
        Seq::empty()
    } else {
        let before = distinct(items.drop_last());
        if before.contains(items.last()) {
            before
        } else {
            before.push(items.last())
        }
    }
}

fn add_distinct(out: &mut Vec<String>, items: &Vec<String>, Ghost(before): Ghost<Seq<Seq<char>>>)
    requires
        old(out).deep_view() == distinct(before),
    ensures
        final(out).deep_view() == distinct(before + items.deep_view()),
{
    let ghost model = items.deep_view();
    let mut i: usize = 0;
    assert(before + model.take(0) =~= before);
    while i < items.len()
        invariant
            i <= items@.len(),
            model == items.deep_view(),
            out.deep_view() == distinct(before + model.take(i as int)),
        decreases items@.len() - i,
    {
        assert(model[i as int] == items@[i as int]@);
        assert((before + model.take(i + 1)).drop_last() =~= before + model.take(i as int));
        assert((before + model.take(i + 1)).last() == model[i as int]);
        if !is_among(out, items[i].as_str()) {
            push_deep(out, items[i].clone());
        }
        i = i + 1;
    }
    assert(model.take(i as int) =~= model);
}

/// What must come out of a text as it went in, given the words of capitals in it: these, the markers
/// and the numbers.
pub open spec fn preserved(text: Seq<char>, acronyms: Seq<Seq<char>>) -> Seq<Seq<char>> {
    distinct(markers(TokenClass::Sentinel, text) + digit_runs(text) + acronyms)
}

/// What must come out of a text as it went in, given the words of capitals in it.
pub fn preserved_tokens(text: &str, acronyms: &Vec<String>) -> (r: Vec<String>)
    ensures
        r.deep_view() == preserved(text@, acronyms.deep_view()),
{
    let mut out: Vec<String> = Vec::new();
    let sentinels: Vec<String> = token_texts(TokenClass::Sentinel, text);
    let digits: Vec<String> = digit_runs_of(text);
    let ghost a = sentinels.deep_view();
    let ghost b = digits.deep_view();
    assert(out.deep_view() =~= distinct(Seq::empty()));
    add_distinct(&mut out, &sentinels, Ghost(Seq::empty()));
    assert(Seq::<Seq<char>>::empty() + a =~= a);
    add_distinct(&mut out, &digits, Ghost(a));
    add_distinct(&mut out, acronyms, Ghost(a + b));
    out
}

/// What must come out of a text as it went in: the markers, the numbers and the words of capitals.
pub fn extract_must_preserve_tokens(text: &str) -> (r: Vec<String>)
    ensures
        r.deep_view() == preserved(text@, captured(ACRONYM@, text@)),
{
    let acronyms: Vec<String> = captures(ACRONYM, text);
    preserved_tokens(text, &acronyms)
}

/// Why a patch cannot be applied.
#[derive(Clone, Debug)]
pub enum PatchError {
    EmptyDraft,
    UnknownType(String),
    MissingIndex,
    OutOfRange { index: usize, sentences: usize },
    EmptyAfter,
    LineBreakInAfter,
    BeforeMismatch { index: usize },
    NoChange { index: usize },
    ExpectedBefore(String),
    ExpectedAfter(String),
    MinimalFrom,
    MinimalTo,
    Preserve { token: String, before: u128, after: u128 },
}

/// The model of a [`PatchError`].
#[verifier::ext_equal]
pub enum PatchErrorV {
    EmptyDraft,
    UnknownType(Seq<char>),
    MissingIndex,
    OutOfRange { index: usize, sentences: nat },
    EmptyAfter,
    LineBreakInAfter,
    BeforeMismatch { index: usize },
    NoChange { index: usize },
    ExpectedBefore(Seq<char>),
    ExpectedAfter(Seq<char>),
    MinimalFrom,
    MinimalTo,
    Preserve { token: Seq<char>, before: nat, after: nat },
}

impl DeepView for PatchError {
    type V = PatchErrorV;

    open spec fn deep_view(&self) -> PatchErrorV {
        match self {
            PatchError::EmptyDraft => PatchErrorV::EmptyDraft,
            PatchError::UnknownType(t) => PatchErrorV::UnknownType(t@),
            PatchError::MissingIndex => PatchErrorV::MissingIndex,
            PatchError::OutOfRange { index, sentences } => PatchErrorV::OutOfRange {
                index: *index,
                sentences: *sentences as nat,
            },
            PatchError::EmptyAfter => PatchErrorV::EmptyAfter,
            PatchError::LineBreakInAfter => PatchErrorV::LineBreakInAfter,
            PatchError::BeforeMismatch { index } => PatchErrorV::BeforeMismatch { index: *index },
            PatchError::NoChange { index } => PatchErrorV::NoChange { index: *index },
            PatchError::ExpectedBefore(t) => PatchErrorV::ExpectedBefore(t@),
            PatchError::ExpectedAfter(t) => PatchErrorV::ExpectedAfter(t@),
            PatchError::MinimalFrom => PatchErrorV::MinimalFrom,
            PatchError::MinimalTo => PatchErrorV::MinimalTo,
            PatchError::Preserve { token, before, after } => PatchErrorV::Preserve {
                token: token@,
                before: *before as nat,
                after: *after as nat,
            },
        }
    }
}

/// The first of `items`, without white space around it, that does not stand in a text.
pub open spec fn first_missing(items: Seq<Seq<char>>, text: Seq<char>) -> Option<Seq<char>>
    decreases items.len(),
{
    if items.len() == 0 {
        None
    } else {
        let t = trimmed(items[0]);
        if t.len() > 0 && !(has(text, t)) {
            Some(t)
        } else {
            first_missing(items.drop_first(), text)
        }
    }
}

fn missing_in(items: &Vec<String>, text: &str) -> (r: Option<String>)
    ensures
        r.deep_view() == first_missing(items.deep_view(), text@),
{
    let ghost model = items.deep_view();
    let mut i: usize = 0;
    assert(model.skip(0) =~= model);
    while i < items.len()
        invariant
            i <= items@.len(),
            model == items.deep_view(),
            first_missing(model.skip(i as int), text@) == first_missing(model, text@),
        decreases items@.len() - i,
    {
        assert(model.skip(i as int)[0] == items@[i as int]@);
        assert(model.skip(i as int).drop_first() =~= model.skip(i + 1));
        let t: String = trim(items[i].as_str());
        if !is_empty(t.as_str()) && !contains(text, t.as_str()) {
            return Some(t);
        }
        i = i + 1;
    }
    None
}

/// Whether a text is made of ASCII digits.
pub open spec fn numeric(s: Seq<char>) -> bool {
    crate::chars::all_digits(s)
}

/// How often a token stands in a text: a number only where it stands by itself.
pub open spec fn token_count(text: Seq<char>, token: Seq<char>) -> nat {
    if begins(token, "<<MT_"@) {
        occurrences(text, token)
    } else if numeric(token) {
        count_in(digit_runs(text), token)
    } else {
        occurrences(text, token)
    }
}

fn is_numeric(s: &str) -> (r: bool)
    ensures
        r == numeric(s@),
{
    let v: Vec<char> = to_chars(s);
    let mut i: usize = 0;
    while i < v.len()
        invariant
            i <= v@.len(),
            v@ == s@,
            forall|k: int| 0 <= k < i ==> is_digit(#[trigger] v@[k]),
        decreases v@.len() - i,
    {
        if !(v[i] >= '0' && v[i] <= '9') {
            assert(!is_digit(s@[i as int]));
            return false;
        }
        i = i + 1;
    }
    true
}

fn count_token_occurrences(text: &str, token: &str) -> (r: u128)
    ensures
        r == token_count(text@, token@),
{
    if starts_with(token, "<<MT_") || !is_numeric(token) {
        return count_matches(text, token);
    }
    let runs: Vec<String> = digit_runs_of(text);
    let ghost model = runs.deep_view();
    let mut count: u128 = 0;
    let mut i: usize = 0;
    assert(model.take(0) =~= Seq::<Seq<char>>::empty());
    while i < runs.len()
        invariant
            i <= runs@.len(),
            model == runs.deep_view(),
            count <= i,
            count == count_in(model.take(i as int), token@),
        decreases runs@.len() - i,
    {
        assert(model[i as int] == runs@[i as int]@);
        assert(model.take(i + 1).drop_last() =~= model.take(i as int));
        if str_eq(runs[i].as_str(), token) {
            count = count + 1;
        }
        i = i + 1;
    }
    assert(model.take(i as int) =~= model);
    count
}

/// The first of the tokens that stand in the one text and not as often in the other.
pub open spec fn first_lost(tokens: Seq<Seq<char>>, before: Seq<char>, after: Seq<char>) -> Option<
    Seq<char>,
>
    decreases tokens.len(),
{
    if tokens.len() == 0 {
        None
    } else {
        let t = trimmed(tokens[0]);
        if t.len() > 0 && token_count(before, t) > 0 && token_count(after, t) != token_count(before, t) {
            Some(t)
        } else {
            first_lost(tokens.drop_first(), before, after)
        }
    }
}

fn lost_among(tokens: &Vec<String>, before: &str, after: &str) -> (r: Option<String>)
    ensures
        r.deep_view() == first_lost(tokens.deep_view(), before@, after@),
{
    let ghost model = tokens.deep_view();
    let mut i: usize = 0;
    assert(model.skip(0) =~= model);
    while i < tokens.len()
        invariant
            i <= tokens@.len(),
            model == tokens.deep_view(),
            first_lost(model.skip(i as int), before@, after@) == first_lost(model, before@, after@),
        decreases tokens@.len() - i,
    {
        assert(model.skip(i as int)[0] == tokens@[i as int]@);
        assert(model.skip(i as int).drop_first() =~= model.skip(i + 1));
        let t: String = trim(tokens[i].as_str());
        if !is_empty(t.as_str()) {
            let a: u128 = count_token_occurrences(before, t.as_str());
            if a > 0 && count_token_occurrences(after, t.as_str()) != a {
                return Some(t);
            }
        }
        i = i + 1;
    }
    None
}

/// What a patch makes of the sentence at `index`, or why it cannot be applied.
pub open spec fn sentence_patched(current: Seq<char>, patch: ActPatch, index: usize) -> Result<
    Seq<char>,
    PatchErrorV,
> {
    let before = trimmed(patch.before.sentence@);
    let after = trimmed(patch.after.sentence@);
    let from = trimmed(patch.edit.minimal_from@);
    let to = trimmed(patch.edit.minimal_to@);
    let missing_before = match patch.verification.apply_check {
        Some(c) => first_missing(c.expect_before_contains.deep_view(), current),
        None => None,
    };
    let missing_after = match patch.verification.apply_check {
        Some(c) => first_missing(c.expect_after_contains.deep_view(), after),
        None => None,
    };
    let lost = first_lost(patch.verification.must_preserve_tokens.deep_view(), before, after);
    if after.len() == 0 {
        Err(PatchErrorV::EmptyAfter)
    } else if has(after, "\n"@) || has(after, "\r"@) {
        Err(PatchErrorV::LineBreakInAfter)
    } else if for_match(current) != for_match(before) {
        Err(PatchErrorV::BeforeMismatch { index })
    } else if for_match(after) == for_match(before) {
        Err(PatchErrorV::NoChange { index })
    } else if missing_before is Some {
        Err(PatchErrorV::ExpectedBefore(missing_before->Some_0))
    } else if missing_after is Some {
        Err(PatchErrorV::ExpectedAfter(missing_after->Some_0))
    } else if from.len() > 0 && !(has(before, from)) {
        Err(PatchErrorV::MinimalFrom)
    } else if to.len() > 0 && !(has(after, to)) {
        Err(PatchErrorV::MinimalTo)
    } else if lost is Some {
        Err(
            PatchErrorV::Preserve {
                token: lost->Some_0,
                before: token_count(before, lost->Some_0),
                after: token_count(after, lost->Some_0),
            },
        )
    } else {
        changed_sentence(
            after,
            index,
            sha256_hex_of(encode_utf8(current)),
            sha256_hex_of(encode_utf8(after)),
        )
    }
}

/// A sentence whose digest is another one than that of the sentence before.
pub open spec fn changed_sentence(
    after: Seq<char>,
    index: usize,
    old_hash: Seq<char>,
    new_hash: Seq<char>,
) -> Result<Seq<char>, PatchErrorV> {
    if old_hash == new_hash {
        Err(PatchErrorV::NoChange { index })
    } else {
        Ok(after)
    }
}

/// Takes a sentence if its digest is another one than that of the sentence before.
pub fn take_changed_sentence(after: String, index: usize, old_hash: &str, new_hash: &str) -> (r: Result<
    String,
    PatchError,
>)
    ensures
        match r {
            Ok(t) => changed_sentence(after@, index, old_hash@, new_hash@) == Ok::<_, PatchErrorV>(
                t@,
            ),
            Err(e) => changed_sentence(after@, index, old_hash@, new_hash@) == Err::<Seq<char>, _>(
                e.deep_view(),
            ),
        },
{
    if str_eq(old_hash, new_hash) {
        Err(PatchError::NoChange { index })
    } else {
        Ok(after)
    }
}

/// What a patch does to sentences, or why it cannot be applied.
pub open spec fn patch_applied(p: Seq<SentenceV>, patch: ActPatch) -> Result<
    Seq<SentenceV>,
    PatchErrorV,
> {
    match patch_type_of(patch.patch_type@) {
        PatchType::TermMapUpdate => Ok(p),
        PatchType::Unknown => Err(PatchErrorV::UnknownType(patch.patch_type@)),
        _ => match patch.location.sentence_index {
            None => Err(PatchErrorV::MissingIndex),
            Some(i) => if i >= p.len() {
                Err(PatchErrorV::OutOfRange { index: i, sentences: p.len() })
            } else {
                match sentence_patched(p[i as int].text, patch, i) {
                    Ok(text) => Ok(p.update(i as int, SentenceV { text, ..p[i as int] })),
                    Err(e) => Err(e),
                }
            },
        },
    }
}

/// What patches do to sentences, one after another, or why one of them cannot be applied.
pub open spec fn patches_applied(p: Seq<SentenceV>, patches: Seq<ActPatch>) -> Result<
    Seq<SentenceV>,
    PatchErrorV,
>
    decreases patches.len(),
{
    if patches.len() == 0 {
        Ok(p)
    } else {
        match patch_applied(p, patches[0]) {
            Ok(next) => patches_applied(next, patches.drop_first()),
            Err(e) => Err(e),
        }
    }
}

/// What patches make of a draft, or why one of them cannot be applied.
pub open spec fn draft_patched(draft: Seq<char>, patches: Seq<ActPatch>) -> Result<
    Seq<char>,
    PatchErrorV,
> {
    if patches.len() == 0 {
        Ok(draft)
    } else if draft.len() == 0 {
        Err(PatchErrorV::EmptyDraft)
    } else {
        match patches_applied(sentences(draft), patches) {
            Ok(p) => Ok(sentences_joined(p)),
            Err(e) => Err(e),
        }
    }
}

fn patch_sentence(current: &str, patch: &ActPatch, index: usize) -> (r: Result<String, PatchError>)
    ensures
        match r {
            Ok(t) => sentence_patched(current@, *patch, index) == Ok::<_, PatchErrorV>(t@),
            Err(e) => sentence_patched(current@, *patch, index) == Err::<Seq<char>, _>(e.deep_view()),
        },
{
    let before: String = trim(patch.before.sentence.as_str());
    let after: String = trim(patch.after.sentence.as_str());
    if is_empty(after.as_str()) {
        return Err(PatchError::EmptyAfter);
    }
    if contains(after.as_str(), "\n") || contains(after.as_str(), "\r") {
        return Err(PatchError::LineBreakInAfter);
    }
    let current_n: String = normalize_for_match(current);
    let before_n: String = normalize_for_match(before.as_str());
    if !str_eq(current_n.as_str(), before_n.as_str()) {
        return Err(PatchError::BeforeMismatch { index });
    }
    let after_n: String = normalize_for_match(after.as_str());
    if str_eq(after_n.as_str(), before_n.as_str()) {
        return Err(PatchError::NoChange { index });
    }
    match &patch.verification.apply_check {
        Some(check) => {
            match missing_in(&check.expect_before_contains, current) {
                Some(t) => {
                    return Err(PatchError::ExpectedBefore(t));
                },
                None => {},
            }
            match missing_in(&check.expect_after_contains, after.as_str()) {
                Some(t) => {
                    return Err(PatchError::ExpectedAfter(t));
                },
                None => {},
            }
        },
        None => {},
    }
    let from: String = trim(patch.edit.minimal_from.as_str());
    if !is_empty(from.as_str()) && !contains(before.as_str(), from.as_str()) {
        return Err(PatchError::MinimalFrom);
    }
    let to: String = trim(patch.edit.minimal_to.as_str());
    if !is_empty(to.as_str()) && !contains(after.as_str(), to.as_str()) {
        return Err(PatchError::MinimalTo);
    }
    match lost_among(&patch.verification.must_preserve_tokens, before.as_str(), after.as_str()) {
        Some(token) => {
            let a: u128 = count_token_occurrences(before.as_str(), token.as_str());
            let b: u128 = count_token_occurrences(after.as_str(), token.as_str());
            return Err(PatchError::Preserve { token, before: a, after: b });
        },
        None => {},
    }
    let old_hash: String = sha256_hex(current);
    let new_hash: String = sha256_hex(after.as_str());
    take_changed_sentence(after, index, old_hash.as_str(), new_hash.as_str())
}

fn apply_sentence_patch(segments: &mut Vec<SentenceSegment>, patch: &ActPatch) -> (r: Result<
    (),
    PatchError,
>)
    ensures
        match r {
            Ok(_) => patch_applied(old(segments).deep_view(), *patch) == Ok::<_, PatchErrorV>(
                final(segments).deep_view(),
            ),
            Err(e) => patch_applied(old(segments).deep_view(), *patch) == Err::<Seq<SentenceV>, _>(
                e.deep_view(),
            ) && final(segments).deep_view() == old(segments).deep_view(),
        },
{
    let ghost before = segments.deep_view();
    match PatchType::from_str(patch.patch_type.as_str()) {
        PatchType::TermMapUpdate => Ok(()),
        PatchType::Unknown => Err(PatchError::UnknownType(patch.patch_type.clone())),
        _ => match patch.location.sentence_index {
            None => Err(PatchError::MissingIndex),
            Some(i) => {
                if i >= segments.len() {
                    return Err(PatchError::OutOfRange { index: i, sentences: segments.len() });
                }
                assert(before[i as int] == segments@[i as int].deep_view());
                match patch_sentence(segments[i].text.as_str(), patch, i) {
                    Ok(text) => {
                        let ghost new = text@;
                        segments[i].text = text;
                        assert(segments.deep_view() =~= before.update(
                            i as int,
                            SentenceV { text: new, ..before[i as int] },
                        ));
                        Ok(())
                    },
                    Err(e) => Err(e),
                }
            },
        },
    }
}

/// What patches make of a draft. Each must fit the sentence it is for, as the draft has it after the
/// patches before.
pub fn apply_patches_to_draft(draft: &str, patches: &Vec<ActPatch>) -> (r: Result<String, PatchError>)
    ensures
        match r {
            Ok(t) => draft_patched(draft@, patches@) == Ok::<_, PatchErrorV>(t@),
            Err(e) => draft_patched(draft@, patches@) == Err::<Seq<char>, _>(e.deep_view()),
        },
{
    if patches.len() == 0 {
        return Ok(owned(draft));
    }
    if is_empty(draft) {
        return Err(PatchError::EmptyDraft);
    }
    let mut segments: Vec<SentenceSegment> = split_sentences(draft);
    let mut i: usize = 0;
    assert(patches@.skip(0) =~= patches@);
    while i < patches.len()
        invariant
            i <= patches@.len(),
            patches@.len() > 0,
            draft@.len() > 0,
            patches_applied(segments.deep_view(), patches@.skip(i as int)) == patches_applied(
                sentences(draft@),
                patches@,
            ),
        decreases patches@.len() - i,
    {
        assert(patches@.skip(i as int)[0] == patches@[i as int]);
        assert(patches@.skip(i as int).drop_first() =~= patches@.skip(i + 1));
        match apply_sentence_patch(&mut segments, &patches[i]) {
            Ok(_) => {},
            Err(e) => {
                return Err(e);
            },
        }
        i = i + 1;
    }
    Ok(join_sentences(&segments))
}

/// Patches change no other sentence, and nothing between sentences.
pub proof fn law_patch_is_local(p: Seq<SentenceV>, patch: ActPatch, k: int)
    requires
        patch_applied(p, patch) is Ok,
        0 <= k < p.len(),
    ensures
        patch_applied(p, patch)->Ok_0.len() == p.len(),
        patch_applied(p, patch)->Ok_0[k].suffix == p[k].suffix,
        (match patch.location.sentence_index {
            Some(i) => i != k,
            None => true,
        }) ==> patch_applied(p, patch)->Ok_0[k] == p[k],
{
}

proof fn lemma_missing(items: Seq<Seq<char>>, text: Seq<char>)
    ensures
        first_missing(items, text) is None <==> forall|k: int|
            0 <= k < items.len() && trimmed(#[trigger] items[k]).len() > 0 ==> has(
                text,
                trimmed(items[k]),
            ),
    decreases items.len(),
{
    if items.len() > 0 {
        let rest = items.drop_first();
        lemma_missing(rest, text);
        assert(forall|k: int| 0 <= k < rest.len() ==> #[trigger] rest[k] == items[k + 1]);
        if first_missing(items, text) is None {
            assert forall|k: int|
                0 <= k < items.len() && trimmed(#[trigger] items[k]).len() > 0 implies has(
                text,
                trimmed(items[k]),
            ) by {
                if k > 0 {
                    assert(rest[k - 1] == items[k]);
                }
            }
        } else if forall|k: int|
            0 <= k < items.len() && trimmed(#[trigger] items[k]).len() > 0 ==> has(
                text,
                trimmed(items[k]),
            ) {
            assert(has(text, trimmed(items[0])) || trimmed(items[0]).len() == 0);
            assert forall|k: int|
                0 <= k < rest.len() && trimmed(#[trigger] rest[k]).len() > 0 implies has(
                text,
                trimmed(rest[k]),
            ) by {
                assert(rest[k] == items[k + 1]);
            }
        }
    }
}

proof fn lemma_lost(tokens: Seq<Seq<char>>, before: Seq<char>, after: Seq<char>)
    ensures
        first_lost(tokens, before, after) is None <==> forall|k: int|
            0 <= k < tokens.len() && trimmed(#[trigger] tokens[k]).len() > 0 && token_count(
                before,
                trimmed(tokens[k]),
            ) > 0 ==> token_count(after, trimmed(tokens[k])) == token_count(
                before,
                trimmed(tokens[k]),
            ),
    decreases tokens.len(),
{
    if tokens.len() > 0 {
        let rest = tokens.drop_first();
        lemma_lost(rest, before, after);
        assert(forall|k: int| 0 <= k < rest.len() ==> #[trigger] rest[k] == tokens[k + 1]);
        if first_lost(tokens, before, after) is None {
            assert forall|k: int|
                0 <= k < tokens.len() && trimmed(#[trigger] tokens[k]).len() > 0 && token_count(
                    before,
                    trimmed(tokens[k]),
                ) > 0 implies token_count(after, trimmed(tokens[k])) == token_count(
                before,
                trimmed(tokens[k]),
            ) by {
                if k > 0 {
                    assert(rest[k - 1] == tokens[k]);
                }
            }
        } else if forall|k: int|
            0 <= k < tokens.len() && trimmed(#[trigger] tokens[k]).len() > 0 && token_count(
                before,
                trimmed(tokens[k]),
            ) > 0 ==> token_count(after, trimmed(tokens[k])) == token_count(
                before,
                trimmed(tokens[k]),
            ) {
            assert(trimmed(tokens[0]).len() == 0 || token_count(before, trimmed(tokens[0])) == 0
                || token_count(after, trimmed(tokens[0])) == token_count(
                before,
                trimmed(tokens[0]),
            ));
            assert forall|k: int|
                0 <= k < rest.len() && trimmed(#[trigger] rest[k]).len() > 0 && token_count(
                    before,
                    trimmed(rest[k]),
                ) > 0 implies token_count(after, trimmed(rest[k])) == token_count(
                before,
                trimmed(rest[k]),
            ) by {
                assert(rest[k] == tokens[k + 1]);
            }
        }
    }
}

/// Whether a patch is one that can be made to a sentence: it says what comes after, on one line; it is
/// about the sentence as it is; it changes it; all that it expects is there; and what it must keep is
/// as often in the new sentence as in the old.
pub open spec fn patch_fits(current: Seq<char>, patch: ActPatch) -> bool {
    let before = trimmed(patch.before.sentence@);
    let after = trimmed(patch.after.sentence@);
    let from = trimmed(patch.edit.minimal_from@);
    let to = trimmed(patch.edit.minimal_to@);
    let keep = patch.verification.must_preserve_tokens.deep_view();
    &&& after.len() > 0
    &&& !(has(after, "\n"@))
    &&& !(has(after, "\r"@))
    &&& for_match(current) == for_match(before)
    &&& for_match(after) != for_match(before)
    &&& patch.verification.apply_check matches Some(c) ==> {
        &&& forall|k: int|
            0 <= k < c.expect_before_contains.deep_view().len() && trimmed(
                #[trigger] c.expect_before_contains.deep_view()[k],
            ).len() > 0 ==> has(current, trimmed(c.expect_before_contains.deep_view()[k]))
        &&& forall|k: int|
            0 <= k < c.expect_after_contains.deep_view().len() && trimmed(
                #[trigger] c.expect_after_contains.deep_view()[k],
            ).len() > 0 ==> has(after, trimmed(c.expect_after_contains.deep_view()[k]))
    }
    &&& from.len() == 0 || has(before, from)
    &&& to.len() == 0 || has(after, to)
    &&& forall|k: int|
        0 <= k < keep.len() && trimmed(#[trigger] keep[k]).len() > 0 && token_count(
            before,
            trimmed(keep[k]),
        ) > 0 ==> token_count(after, trimmed(keep[k])) == token_count(before, trimmed(keep[k]))
}

/// A patch that can be made to a sentence is made: the sentence is then what the patch says, unless its
/// digest is that of the old one, and one that cannot be made is refused.
pub proof fn law_patch_is_made(current: Seq<char>, patch: ActPatch, index: usize)
    ensures
        patch_fits(current, patch) && sha256_hex_of(encode_utf8(current)) != sha256_hex_of(
            encode_utf8(trimmed(patch.after.sentence@)),
        ) ==> sentence_patched(current, patch, index) == Ok::<Seq<char>, PatchErrorV>(
            trimmed(patch.after.sentence@),
        ),
        !patch_fits(current, patch) ==> sentence_patched(current, patch, index) is Err,
{
    let before = trimmed(patch.before.sentence@);
    let after = trimmed(patch.after.sentence@);
    if let Some(c) = patch.verification.apply_check {
        lemma_missing(c.expect_before_contains.deep_view(), current);
        lemma_missing(c.expect_after_contains.deep_view(), after);
    }
    lemma_lost(patch.verification.must_preserve_tokens.deep_view(), before, after);
}

/// A patch to a sentence of a draft puts its text there.
pub proof fn law_patch_reaches_its_sentence(p: Seq<SentenceV>, patch: ActPatch, i: usize)
    requires
        patch.location.sentence_index == Some(i),
        i < p.len(),
        trimmed(patch.patch_type@) == "sentence_replace"@ || trimmed(patch.patch_type@)
            == "sentence_minimal_edit"@,
        sentence_patched(p[i as int].text, patch, i) is Ok,
    ensures
        patch_applied(p, patch) is Ok,
        patch_applied(p, patch)->Ok_0[i as int].text == trimmed(patch.after.sentence@),
{
}

/// Texts are listed each once, all of them and no others, and in the order in which they come first.
pub proof fn law_each_once(items: Seq<Seq<char>>)
    ensures
        distinct(items).no_duplicates(),
        forall|x: Seq<char>| #[trigger] distinct(items).contains(x) <==> items.contains(x),
        items.len() > 0 ==> distinct(items)[0] == items[0] && distinct(items).len() > 0,
    decreases items.len(),
{
    if items.len() > 0 {
        let front = items.drop_last();
        let z = items.last();
        law_each_once(front);
        let before = distinct(front);
        let now = distinct(items);
        assert(items[items.len() - 1] == z);
        if !before.contains(z) {
            assert(now[before.len() as int] == z);
        }
        assert forall|x: Seq<char>| #[trigger] now.contains(x) <==> items.contains(x) by {
            if items.contains(x) && x != z {
                let k = items.index_of(x);
                assert(front[k] == x);
            }
            if front.contains(x) {
                let k = front.index_of(x);
                assert(items[k] == x);
            }
            if before.contains(x) {
                let k = before.index_of(x);
                assert(now[k] == x);
            }
            if now.contains(x) {
                let k = now.index_of(x);
                if k < before.len() {
                    assert(before[k] == x);
                }
            }
        }
        if front.len() > 0 {
            assert(front[0] == items[0]);
        }
    } else {
        assert(distinct(items) =~= Seq::<Seq<char>>::empty());
    }
}

proof fn lemma_no_end(s: Seq<char>, start: int, i: int, n: int)
    requires
        0 <= start <= i <= n <= s.len(),
        forall|k: int| i <= k < n ==> s[k] != '\n' && !(terminator(#[trigger] s[k])),
    ensures
        sentences_from(s, start, i) == sentences_from(s, start, n),
    decreases n - i,
{
    if i < n {
        assert(!(terminator(s[i])));
        assert(sentence_end(s, start, i) is None);
        lemma_no_end(s, start, i + 1, n);
    }
}

proof fn lemma_ws_run(s: Seq<char>, i: int, n: int)
    requires
        0 <= i <= n <= s.len(),
        forall|k: int| i <= k < n ==> is_ws(#[trigger] s[k]),
        n == s.len() || !is_ws(s[n]),
    ensures
        ws_end(s, i) == n,
    decreases n - i,
{
    if i < n {
        assert(is_ws(s[i]));
        lemma_ws_run(s, i + 1, n);
    }
}

/// A sentence ends behind a mark that ends sentences where white space follows, and the white space up
/// to the next sentence goes with it. What comes before the mark holds neither such a mark nor a new
/// line.
pub proof fn law_sentence_is_cut(a: Seq<char>, m: char, w: Seq<char>, b: Seq<char>)
    requires
        forall|k: int| 0 <= k < a.len() ==> #[trigger] a[k] != '\n' && !(terminator(a[k])),
        m == '.' || m == '!' || m == '?' || m == ';' || m == '\u{3002}' || m == '\u{ff01}' || m
            == '\u{ff1f}' || m == '\u{ff1b}',
        w.len() > 0,
        forall|k: int| 0 <= k < w.len() ==> is_ws(#[trigger] w[k]),
        b.len() > 0 ==> !is_ws(b[0]),
    ensures
        sentences(a.push(m) + w + b).len() > 0,
        sentences(a.push(m) + w + b)[0].text == a.push(m),
        sentences(a.push(m) + w + b)[0].suffix == w,
{
    let s = a.push(m) + w + b;
    let n = a.len() as int;
    let e = n + 1 + w.len();
    assert forall|k: int| 0 <= k < n implies s[k] != '\n' && !(terminator(#[trigger] s[k])) by {
        assert(s[k] == a[k]);
    }
    lemma_no_end(s, 0, 0, n);
    assert(s[n] == m);
    assert(s[n + 1] == w[0]);
    assert(is_ws(w[0]));
    assert(sentence_end(s, 0, n) == Some(n + 1));
    assert forall|k: int| n + 1 <= k < e implies is_ws(#[trigger] s[k]) by {
        assert(s[k] == w[k - n - 1]);
    }
    if e < s.len() {
        assert(s[e] == b[0]);
    }
    lemma_ws_run(s, n + 1, e);
    assert(s.subrange(0, n + 1) =~= a.push(m));
    assert(s.subrange(n + 1, e) =~= w);
}

/// A list of sentences without a limit has them all, each on a line of its own with its number.
pub proof fn law_list_has_each_sentence(p: Seq<SentenceV>, s: SentenceV)
    ensures
        sentence_list(p.push(s), 0) == sentence_list(p, 0) + "["@ + dec(p.len()) + "] "@ + s.text
            + "\n"@,
        sentence_list(Seq::empty(), 0).len() == 0,
{
    let more = p.push(s);
    let n = p.len() as int;
    lemma_list_fits(p, 0);
    lemma_list_fits(more, 0);
    lemma_same_lines(p, more, n);
    assert(more[n] == s);
    assert(list_lines(more, n + 1) =~= list_lines(p, n) + "["@ + dec(p.len()) + "] "@ + s.text
        + "\n"@);
    lemma_list_fits(Seq::empty(), 0);
}

proof fn lemma_list_fits(p: Seq<SentenceV>, n: int)
    requires
        0 <= n <= p.len(),
    ensures
        list_fit(p, 0, n) == p.len(),
    decreases p.len() - n,
{
    if n < p.len() {
        lemma_list_fits(p, n + 1);
    }
}

proof fn lemma_same_lines(p: Seq<SentenceV>, q: Seq<SentenceV>, n: int)
    requires
        0 <= n <= p.len() <= q.len(),
        forall|k: int| 0 <= k < p.len() ==> #[trigger] q[k] == p[k],
    ensures
        list_lines(q, n) == list_lines(p, n),
    decreases n,
{
    if n > 0 {
        lemma_same_lines(p, q, n - 1);
        assert(q[n - 1] == p[n - 1]);
    }
}

} // verus!
