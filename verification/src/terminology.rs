//! The terms of a document and how they are translated.

use crate::chars::{
    append, byte_len, byte_length, contains, has, is_blank, lemma_find_from, lemma_trimmed_empty, str_eq,
    trim, trimmed,
};
use crate::vecs::push_deep;
use vstd::prelude::*;

verus! {

/// How a term is translated, and how often it was met.
#[derive(Clone, Debug)]
pub struct TermDecision {
    pub src: String,
    pub tgt: String,
    pub kind: Option<String>,
    pub note: Option<String>,
    pub seen: usize,
}

/// The model of a [`TermDecision`].
#[verifier::ext_equal]
pub struct TermV {
    pub src: Seq<char>,
    pub tgt: Seq<char>,
    pub kind: Option<Seq<char>>,
    pub note: Option<Seq<char>>,
    pub seen: nat,
}

impl DeepView for TermDecision {
    type V = TermV;

    open spec fn deep_view(&self) -> TermV {
        TermV {
            src: self.src@,
            tgt: self.tgt@,
            kind: self.kind.deep_view(),
            note: self.note.deep_view(),
            seen: self.seen as nat,
        }
    }
}

/// A translation of a term that is proposed.
#[derive(Clone, Debug)]
pub struct TermUpdate {
    pub src: String,
    pub tgt: String,
    pub kind: Option<String>,
    pub note: Option<String>,
}

/// The model of a [`TermUpdate`].
#[verifier::ext_equal]
pub struct UpdateV {
    pub src: Seq<char>,
    pub tgt: Seq<char>,
    pub kind: Option<Seq<char>>,
    pub note: Option<Seq<char>>,
}

impl DeepView for TermUpdate {
    type V = UpdateV;

    open spec fn deep_view(&self) -> UpdateV {
        UpdateV {
            src: self.src@,
            tgt: self.tgt@,
            kind: self.kind.deep_view(),
            note: self.note.deep_view(),
        }
    }
}

/// What a proposal did.
#[derive(Clone, Debug)]
pub enum TermApplyEvent {
    Added { src: String, tgt: String },
    Conflict { src: String, existing_tgt: String, proposed_tgt: String },
}

/// The model of a [`TermApplyEvent`].
#[verifier::ext_equal]
pub enum TermEventV {
    Added { src: Seq<char>, tgt: Seq<char> },
    Conflict { src: Seq<char>, existing_tgt: Seq<char>, proposed_tgt: Seq<char> },
}

impl DeepView for TermApplyEvent {
    type V = TermEventV;

    open spec fn deep_view(&self) -> TermEventV {
        match self {
            TermApplyEvent::Added { src, tgt } => TermEventV::Added { src: src@, tgt: tgt@ },
            TermApplyEvent::Conflict { src, existing_tgt, proposed_tgt } => TermEventV::Conflict {
                src: src@,
                existing_tgt: existing_tgt@,
                proposed_tgt: proposed_tgt@,
            },
        }
    }
}

/// The terms of a document, each once, in the order in which they were met.
pub struct TermMemory {
    terms: Vec<TermDecision>,
}

impl View for TermMemory {
    type V = Seq<TermV>;

    closed spec fn view(&self) -> Seq<TermV> {
        self.terms.deep_view()
    }
}

/// Whether each term is there once.
pub open spec fn terms_ok(terms: Seq<TermV>) -> bool {
    forall|i: int, j: int|
        0 <= i < j < terms.len() ==> (#[trigger] terms[i]).src != (#[trigger] terms[j]).src
}

/// The place of a term.
pub open spec fn term_place(terms: Seq<TermV>, src: Seq<char>) -> Option<int>
    decreases terms.len(),
{
    if terms.len() == 0 {
        None
    } else if terms.last().src == src {
        Some(terms.len() - 1)
    } else {
        term_place(terms.drop_last(), src)
    }
}

/// A text without white space at either end, if there is any.
pub open spec fn said(t: Option<Seq<char>>) -> Option<Seq<char>> {
    match t {
        Some(t) => if is_blank(t) {
            None
        } else {
            Some(trimmed(t))
        },
        None => None,
    }
}

/// One more, as far as it goes.
pub open spec fn seen_more(n: nat) -> nat {
    if n < usize::MAX {
        n + 1
    } else {
        n
    }
}

/// What a proposal does to the terms, and what is told of it: a new term is added, and a known one
/// keeps its translation.
pub open spec fn term_applied(
    st: (Seq<TermV>, Seq<TermEventV>),
    up: UpdateV,
) -> (Seq<TermV>, Seq<TermEventV>) {
    let src = trimmed(up.src);
    let tgt = trimmed(up.tgt);
    if src.len() == 0 || tgt.len() == 0 {
        st
    } else {
        match term_place(st.0, src) {
            None => (
                st.0.push(
                    TermV { src, tgt, kind: said(up.kind), note: said(up.note), seen: 1 },
                ),
                st.1.push(TermEventV::Added { src, tgt }),
            ),
            Some(i) => (
                st.0.update(i, TermV { seen: seen_more(st.0[i].seen), ..st.0[i] }),
                if st.0[i].tgt == tgt {
                    st.1
                } else {
                    st.1.push(
                        TermEventV::Conflict {
                            src,
                            existing_tgt: st.0[i].tgt,
                            proposed_tgt: tgt,
                        },
                    )
                },
            ),
        }
    }
}

/// What proposals do to the terms, one after another, and what is told of them.
pub open spec fn terms_applied(terms: Seq<TermV>, ups: Seq<UpdateV>) -> (
    Seq<TermV>,
    Seq<TermEventV>,
)
    decreases ups.len(),
{
    if ups.len() == 0 {
        (terms, Seq::empty())
    } else {
        term_applied(terms_applied(terms, ups.drop_last()), ups.last())
    }
}

proof fn lemma_term_place(terms: Seq<TermV>, src: Seq<char>)
    ensures
        match term_place(terms, src) {
            Some(i) => 0 <= i < terms.len() && terms[i].src == src,
            None => forall|k: int| 0 <= k < terms.len() ==> (#[trigger] terms[k]).src != src,
        },
    decreases terms.len(),
{
    if terms.len() > 0 {
        lemma_term_place(terms.drop_last(), src);
        if terms.last().src != src && term_place(terms, src) is None {
            assert forall|k: int| 0 <= k < terms.len() implies (#[trigger] terms[k]).src != src by {
                if k < terms.len() - 1 {
                    assert(terms.drop_last()[k] == terms[k]);
                }
            }
        }
    }
}

/// A term that is known keeps its translation, whatever is proposed.
pub proof fn law_terms_keep_translations(terms: Seq<TermV>, ups: Seq<UpdateV>, i: int)
    requires
        terms_ok(terms),
        0 <= i < terms.len(),
    ensures
        terms_ok(terms_applied(terms, ups).0),
        terms_applied(terms, ups).0.len() >= terms.len(),
        terms_applied(terms, ups).0[i].src == terms[i].src,
        terms_applied(terms, ups).0[i].tgt == terms[i].tgt,
        terms_applied(terms, ups).0[i].seen >= terms[i].seen,
    decreases ups.len(),
{
    if ups.len() > 0 {
        law_terms_keep_translations(terms, ups.drop_last(), i);
        lemma_term_place(terms_applied(terms, ups.drop_last()).0, trimmed(ups.last().src));
    }
}

proof fn lemma_applied_ok(st: (Seq<TermV>, Seq<TermEventV>), up: UpdateV)
    requires
        terms_ok(st.0),
    ensures
        terms_ok(term_applied(st, up).0),
{
    lemma_term_place(st.0, trimmed(up.src));
}

fn say(t: &Option<String>) -> (r: Option<String>)
    ensures
        r.deep_view() == said(t.deep_view()),
{
    match t {
        Some(t) => if crate::chars::blank(t.as_str()) {
            None
        } else {
            Some(trim(t.as_str()))
        },
        None => None,
    }
}

/// Whether one term stands before another: the longer first, and of the same length the one that was
/// met more often.
pub open spec fn term_before(a: TermV, b: TermV) -> bool {
    byte_len(a.src) > byte_len(b.src) || (byte_len(a.src) == byte_len(b.src) && a.seen > b.seen)
}

/// Terms in order, with one more put behind those that do not come after it.
pub open spec fn term_sorted_in(terms: Seq<TermV>, t: TermV) -> Seq<TermV>
    decreases terms.len(),
{
    if terms.len() == 0 {
        seq![t]
    } else if term_before(t, terms.last()) {
        term_sorted_in(terms.drop_last(), t).push(terms.last())
    } else {
        terms.push(t)
    }
}

/// The terms that stand in a text, in order.
pub open spec fn terms_in(terms: Seq<TermV>, text: Seq<char>) -> Seq<TermV>
    decreases terms.len(),
{
    if terms.len() == 0 {
        Seq::empty()
    } else if has(text, terms.last().src) {
        term_sorted_in(terms_in(terms.drop_last(), text), terms.last())
    } else {
        terms_in(terms.drop_last(), text)
    }
}

/// The first of the terms that stand in a text.
pub open spec fn relevant(terms: Seq<TermV>, text: Seq<char>, max: nat) -> Seq<TermV> {
    let all = terms_in(terms, text);
    if text.len() == 0 {
        Seq::empty()
    } else if all.len() <= max {
        all
    } else {
        all.take(max as int)
    }
}

fn comes_before(a: &TermDecision, b: &TermDecision) -> (r: bool)
    ensures
        r == term_before(a.deep_view(), b.deep_view()),
{
    let x: usize = byte_length(a.src.as_str());
    let y: usize = byte_length(b.src.as_str());
    x > y || (x == y && a.seen > b.seen)
}

fn sort_in<'a>(terms: &mut Vec<&'a TermDecision>, t: &'a TermDecision)
    ensures
        final(terms).deep_view() == term_sorted_in(old(terms).deep_view(), t.deep_view()),
{
    let ghost model = terms.deep_view();
    let ghost new = t.deep_view();
    let n: usize = terms.len();
    let mut i: usize = n;
    assert(model.take(n as int) =~= model);
    assert(model.skip(n as int) =~= Seq::<TermV>::empty());
    assert(term_sorted_in(model, new) + Seq::<TermV>::empty() =~= term_sorted_in(model, new));
    while i > 0 && comes_before(t, terms[i - 1])
        invariant
            i <= n == terms@.len(),
            model == terms.deep_view(),
            new == t.deep_view(),
            term_sorted_in(model.take(i as int), new) + model.skip(i as int) == term_sorted_in(
                model,
                new,
            ),
        decreases i,
    {
        proof {
            assert(model[i - 1] == terms@[i - 1].deep_view());
            assert(model.take(i as int).drop_last() =~= model.take(i - 1));
            assert(model.skip(i - 1) =~= seq![model[i - 1]] + model.skip(i as int));
            let rest = term_sorted_in(model.take(i - 1), new);
            assert(rest.push(model[i - 1]) + model.skip(i as int) =~= rest + model.skip(i - 1));
        }
        i = i - 1;
    }
    proof {
        if i > 0 {
            assert(model[i - 1] == terms@[i - 1].deep_view());
            assert(model.take(i as int).last() == model[i - 1]);
        }
        assert(term_sorted_in(model.take(i as int), new) =~= model.take(i as int).push(new));
    }
    terms.insert(i, t);
    assert(terms.deep_view() =~= model.take(i as int).push(new) + model.skip(i as int));
}

/// A term in the text of a prompt.
pub open spec fn term_line(t: TermV) -> Seq<char> {
    "- "@ + t.src + " => "@ + t.tgt + (match said(t.kind) {
        Some(k) => " ["@ + k + "]"@,
        None => Seq::empty(),
    }) + (match said(t.note) {
        Some(n) => " ("@ + n + ")"@,
        None => Seq::empty(),
    }) + "\n"@
}

/// Terms in the text of a prompt.
pub open spec fn term_lines(terms: Seq<TermV>) -> Seq<char>
    decreases terms.len(),
{
    if terms.len() == 0 {
        Seq::empty()
    } else {
        term_lines(terms.drop_last()) + term_line(terms.last())
    }
}

/// A glossary in the text of a prompt.
pub open spec fn glossary(terms: Seq<TermV>) -> Seq<char> {
    if terms.len() == 0 {
        Seq::empty()
    } else {
        "GLOSSARY (when relevant, follow these translations consistently):\n"@ + term_lines(terms)
    }
}

fn append_term(out: &mut String, t: &TermDecision)
    ensures
        final(out)@ == old(out)@ + term_line(t.deep_view()),
{
    append(out, "- ");
    append(out, t.src.as_str());
    append(out, " => ");
    append(out, t.tgt.as_str());
    match say(&t.kind) {
        Some(k) => {
            append(out, " [");
            append(out, k.as_str());
            append(out, "]");
        },
        None => {},
    }
    match say(&t.note) {
        Some(n) => {
            append(out, " (");
            append(out, n.as_str());
            append(out, ")");
        },
        None => {},
    }
    append(out, "\n");
    assert(out@ =~= old(out)@ + term_line(t.deep_view()));
}

impl TermMemory {
    /// No terms.
    pub fn new() -> (r: TermMemory)
        ensures
            r@ == Seq::<TermV>::empty(),
            terms_ok(r@),
    {
        let r = TermMemory { terms: Vec::new() };
        assert(r@ =~= Seq::<TermV>::empty());
        r
    }

    /// How many terms there are.
    pub fn len(&self) -> (r: usize)
        ensures
            r == self@.len(),
    {
        self.terms.len()
    }

    /// Whether there is no term.
    pub fn is_empty(&self) -> (r: bool)
        ensures
            r == (self@.len() == 0),
    {
        self.terms.len() == 0
    }

    fn place(&self, src: &str) -> (r: Option<usize>)
        ensures
            match r {
                Some(i) => term_place(self@, src@) == Some(i as int) && i < self@.len(),
                None => term_place(self@, src@) is None,
            },
    {
        let ghost model = self.terms.deep_view();
        let mut i: usize = self.terms.len();
        assert(model.take(i as int) =~= model);
        while i > 0
            invariant
                i <= self.terms@.len(),
                model == self.terms.deep_view(),
                term_place(model.take(i as int), src@) == term_place(model, src@),
            decreases i,
        {
            assert(model.take(i as int).last() == self.terms@[i - 1].deep_view());
            assert(model.take(i as int).drop_last() =~= model.take(i - 1));
            if str_eq(self.terms[i - 1].src.as_str(), src) {
                return Some(i - 1);
            }
            i = i - 1;
        }
        None
    }

    fn apply_update(&mut self, up: &TermUpdate, events: &mut Vec<TermApplyEvent>)
        ensures
            (final(self)@, final(events).deep_view()) == term_applied(
                (old(self)@, old(events).deep_view()),
                up.deep_view(),
            ),
    {
        let ghost before = self@;
        let src: String = trim(up.src.as_str());
        let tgt: String = trim(up.tgt.as_str());
        if crate::chars::is_empty(src.as_str()) || crate::chars::is_empty(tgt.as_str()) {
            return;
        }
        match self.place(src.as_str()) {
            None => {
                push_deep(
                    &mut self.terms,
                    TermDecision {
                        src: src.clone(),
                        tgt: tgt.clone(),
                        kind: say(&up.kind),
                        note: say(&up.note),
                        seen: 1,
                    },
                );
                push_deep(events, TermApplyEvent::Added { src, tgt });
            },
            Some(i) => {
                assert(before[i as int] == self.terms@[i as int].deep_view());
                if self.terms[i].seen < usize::MAX {
                    let n: usize = self.terms[i].seen;
                    self.terms[i].seen = n + 1;
                }
                assert(self.terms.deep_view() =~= before.update(
                    i as int,
                    TermV { seen: seen_more(before[i as int].seen), ..before[i as int] },
                ));
                if !str_eq(self.terms[i].tgt.as_str(), tgt.as_str()) {
                    push_deep(
                        events,
                        TermApplyEvent::Conflict {
                            src,
                            existing_tgt: self.terms[i].tgt.clone(),
                            proposed_tgt: tgt,
                        },
                    );
                }
            },
        }
    }

    /// Takes in proposals, and tells what they did.
    pub fn apply_updates(&mut self, updates: &Vec<TermUpdate>) -> (r: Vec<TermApplyEvent>)
        requires
            terms_ok(old(self)@),
        ensures
            (final(self)@, r.deep_view()) == terms_applied(old(self)@, updates.deep_view()),
            terms_ok(final(self)@),
    {
        let ghost start = self@;
        let ghost model = updates.deep_view();
        let mut events: Vec<TermApplyEvent> = Vec::new();
        let mut i: usize = 0;
        assert(model.take(0) =~= Seq::<UpdateV>::empty());
        assert(events.deep_view() =~= Seq::<TermEventV>::empty());
        while i < updates.len()
            invariant
                i <= updates@.len(),
                model == updates.deep_view(),
                (self@, events.deep_view()) == terms_applied(start, model.take(i as int)),
                terms_ok(self@),
            decreases updates@.len() - i,
        {
            assert(model[i as int] == updates@[i as int].deep_view());
            assert(model.take(i + 1).drop_last() =~= model.take(i as int));
            proof {
                lemma_applied_ok((self@, events.deep_view()), model[i as int]);
            }
            self.apply_update(&updates[i], &mut events);
            i = i + 1;
        }
        assert(model.take(i as int) =~= model);
        events
    }

    /// The first of the terms that stand in a text: the longer ones before, and of the same length
    /// those that were met more often, and else those that were met first.
    pub fn relevant_for_text<'a>(&'a self, text: &str, max_items: usize) -> (r: Vec<&'a TermDecision>)
        ensures
            r.deep_view() == relevant(self@, text@, max_items as nat),
    {
        let ghost model = self.terms.deep_view();
        let mut out: Vec<&'a TermDecision> = Vec::new();
        assert(out.deep_view() =~= Seq::<TermV>::empty());
        if crate::chars::is_empty(text) {
            return out;
        }
        let mut i: usize = 0;
        assert(model.take(0) =~= Seq::<TermV>::empty());
        while i < self.terms.len()
            invariant
                i <= self.terms@.len(),
                model == self.terms.deep_view(),
                out.deep_view() == terms_in(model.take(i as int), text@),
            decreases self.terms@.len() - i,
        {
            assert(model[i as int] == self.terms@[i as int].deep_view());
            assert(model.take(i + 1).drop_last() =~= model.take(i as int));
            if contains(text, self.terms[i].src.as_str()) {
                sort_in(&mut out, &self.terms[i]);
            }
            i = i + 1;
        }
        assert(model.take(i as int) =~= model);
        let ghost all = out.deep_view();
        if out.len() > max_items {
            out.truncate(max_items);
            assert(out.deep_view() =~= all.take(max_items as int));
        }
        out
    }

    /// A glossary in the text of a prompt.
    pub fn render_for_prompt(terms: &Vec<&TermDecision>) -> (r: String)
        ensures
            r@ == glossary(terms.deep_view()),
    {
        let mut out: String = String::new();
        if terms.len() == 0 {
            assert(out@ =~= Seq::<char>::empty());
            return out;
        }
        let ghost model = terms.deep_view();
        append(&mut out, "GLOSSARY (when relevant, follow these translations consistently):\n");
        let ghost head = out@;
        let mut i: usize = 0;
        assert(model.take(0) =~= Seq::<TermV>::empty());
        assert(out@ =~= head + term_lines(model.take(0)));
        while i < terms.len()
            invariant
                i <= terms@.len(),
                model == terms.deep_view(),
                out@ == head + term_lines(model.take(i as int)),
            decreases terms@.len() - i,
        {
            assert(model[i as int] == terms@[i as int].deep_view());
            assert(model.take(i + 1).drop_last() =~= model.take(i as int));
            append_term(&mut out, terms[i]);
            i = i + 1;
            assert(out@ =~= head + term_lines(model.take(i as int)));
        }
        assert(model.take(i as int) =~= model);
        assert(head =~= "GLOSSARY (when relevant, follow these translations consistently):\n"@);
        out
    }
}

/// A term that is not known yet is added with the translation that is proposed, where neither is blank.
/// Of one that is known, another translation is told as a conflict and counted, and the same is only
/// counted. An update without a term or a translation changes nothing.
pub proof fn law_terms_are_learned(terms: Seq<TermV>, ups: Seq<UpdateV>, up: UpdateV)
    ensures
        ({
            let before = terms_applied(terms, ups);
            let after = terms_applied(terms, ups.push(up));
            &&& is_blank(up.src) || is_blank(up.tgt) ==> after == before
            &&& !is_blank(up.src) && !is_blank(up.tgt) && (forall|k: int|
                0 <= k < before.0.len() ==> (#[trigger] before.0[k]).src != trimmed(up.src)) ==> {
                let t = after.0.last();
                &&& after.0.drop_last() == before.0
                &&& t.src == trimmed(up.src)
                &&& t.tgt == trimmed(up.tgt)
                &&& t.seen == 1
                &&& t.kind == (match up.kind {
                    Some(k) if !is_blank(k) => Some(trimmed(k)),
                    _ => None,
                })
                &&& t.note == (match up.note {
                    Some(n) if !is_blank(n) => Some(trimmed(n)),
                    _ => None,
                })
                &&& after.1 == before.1.push(
                    TermEventV::Added { src: trimmed(up.src), tgt: trimmed(up.tgt) },
                )
            }
            &&& forall|k: int|
                0 <= k < before.0.len() && (#[trigger] before.0[k]).src == trimmed(up.src)
                    && !is_blank(up.src) && !is_blank(up.tgt) && terms_ok(before.0) ==> {
                    &&& after.0.len() == before.0.len()
                    &&& before.0[k].seen < usize::MAX ==> after.0[k].seen == before.0[k].seen + 1
                    &&& after.1 == (if before.0[k].tgt == trimmed(up.tgt) {
                        before.1
                    } else {
                        before.1.push(
                            TermEventV::Conflict {
                                src: trimmed(up.src),
                                existing_tgt: before.0[k].tgt,
                                proposed_tgt: trimmed(up.tgt),
                            },
                        )
                    })
                }
        }),
{
    let before = terms_applied(terms, ups);
    let after = terms_applied(terms, ups.push(up));
    assert(ups.push(up).drop_last() =~= ups);
    lemma_trimmed_empty(up.src);
    lemma_trimmed_empty(up.tgt);
    lemma_term_place(before.0, trimmed(up.src));
    if term_place(before.0, trimmed(up.src)) is None {
        assert(after.0.drop_last() =~= before.0 || after == before);
    }
}

proof fn lemma_term_sorted(terms: Seq<TermV>, t: TermV)
    ensures
        ({
            let r = term_sorted_in(terms, t);
            &&& r.len() == terms.len() + 1
            &&& forall|x: TermV| #[trigger] r.contains(x) <==> x == t || terms.contains(x)
        }),
    decreases terms.len(),
{
    let r = term_sorted_in(terms, t);
    if terms.len() == 0 {
        assert(r[0] == t);
    } else if term_before(t, terms.last()) {
        let front = terms.drop_last();
        let s = term_sorted_in(front, t);
        lemma_term_sorted(front, t);
        assert forall|x: TermV| #[trigger] r.contains(x) <==> x == t || terms.contains(x) by {
            if r.contains(x) {
                let a = choose|a: int| 0 <= a < r.len() && r[a] == x;
                if a < s.len() {
                    assert(s[a] == x);
                    assert(s.contains(x));
                    if front.contains(x) {
                        let b = choose|b: int| 0 <= b < front.len() && front[b] == x;
                        assert(terms[b] == x);
                    }
                } else {
                    assert(terms[terms.len() - 1] == x);
                }
            }
            if x == t || terms.contains(x) {
                if x != t {
                    let b = choose|b: int| 0 <= b < terms.len() && terms[b] == x;
                    if b < front.len() {
                        assert(front[b] == x);
                    } else {
                        assert(r[r.len() - 1] == x);
                    }
                }
                if x == t || front.contains(x) {
                    assert(s.contains(x));
                    let a = choose|a: int| 0 <= a < s.len() && s[a] == x;
                    assert(r[a] == x);
                }
            }
        }
    } else {
        assert forall|x: TermV| #[trigger] r.contains(x) <==> x == t || terms.contains(x) by {
            if x == t {
                assert(r[terms.len() as int] == t);
            }
            if terms.contains(x) {
                let b = choose|b: int| 0 <= b < terms.len() && terms[b] == x;
                assert(r[b] == x);
            }
        }
    }
}

/// The terms of a text are those that stand in it, and no others.
pub proof fn law_terms_of_a_text(terms: Seq<TermV>, text: Seq<char>)
    ensures
        forall|t: TermV| #[trigger]
            terms_in(terms, text).contains(t) <==> terms.contains(t) && exists|i: int|
                0 <= i <= text.len() - t.src.len() && #[trigger] text.subrange(i, i + t.src.len())
                    == t.src,
        terms_in(terms, text).len() <= terms.len(),
    decreases terms.len(),
{
    if terms.len() > 0 {
        let front = terms.drop_last();
        let z = terms.last();
        law_terms_of_a_text(front, text);
        lemma_term_sorted(terms_in(front, text), z);
        lemma_find_from(text, z.src, 0);
        assert(has(text, z.src) <==> exists|i: int|
            0 <= i <= text.len() - z.src.len() && #[trigger] text.subrange(i, i + z.src.len())
                == z.src) by {
            if let Some(i) = crate::chars::find_from(text, z.src, 0) {
                assert(text.subrange(i, i + z.src.len()) == z.src);
            } else if exists|i: int|
                0 <= i <= text.len() - z.src.len() && #[trigger] text.subrange(i, i + z.src.len())
                    == z.src {
                let i = choose|i: int|
                    0 <= i <= text.len() - z.src.len() && #[trigger] text.subrange(
                        i,
                        i + z.src.len(),
                    ) == z.src;
                assert(crate::chars::occurs_at(text, z.src, i));
            }
        }
        assert forall|t: TermV| #[trigger] terms_in(terms, text).contains(t) <==> terms.contains(t)
            && exists|i: int|
            0 <= i <= text.len() - t.src.len() && #[trigger] text.subrange(i, i + t.src.len())
                == t.src by {
            assert(terms[terms.len() - 1] == z);
            if terms.contains(t) && t != z {
                let b = choose|b: int| 0 <= b < terms.len() && terms[b] == t;
                assert(front[b] == t);
            }
            if front.contains(t) {
                let b = choose|b: int| 0 <= b < front.len() && front[b] == t;
                assert(terms[b] == t);
            }
            if terms_in(front, text).contains(t) {
                assert(front.contains(t));
            }
        }
    } else {
        assert(terms_in(terms, text) =~= Seq::<TermV>::empty());
    }
}

/// Of the terms of a text at most `max` are given, the longest first, and all where there are no more.
pub proof fn law_relevant_terms(terms: Seq<TermV>, text: Seq<char>, max: nat)
    requires
        text.len() > 0,
    ensures
        relevant(terms, text, max).len() == (if terms_in(terms, text).len() <= max {
            terms_in(terms, text).len()
        } else {
            max
        }),
        forall|a: int, b: int|
            0 <= a < b < terms_in(terms, text).len() ==> byte_len(
                (#[trigger] terms_in(terms, text)[a]).src,
            ) >= byte_len((#[trigger] terms_in(terms, text)[b]).src),
        forall|a: int|
            0 <= a < relevant(terms, text, max).len() ==> #[trigger] relevant(terms, text, max)[a]
                == terms_in(terms, text)[a],
{
    lemma_terms_fall(terms, text);
}

spec fn falling(terms: Seq<TermV>) -> bool {
    forall|a: int, b: int|
        0 <= a < b < terms.len() ==> byte_len((#[trigger] terms[a]).src) >= byte_len(
            (#[trigger] terms[b]).src,
        )
}

proof fn lemma_terms_fall(terms: Seq<TermV>, text: Seq<char>)
    ensures
        falling(terms_in(terms, text)),
    decreases terms.len(),
{
    if terms.len() > 0 {
        lemma_terms_fall(terms.drop_last(), text);
        lemma_sorted_falls(terms_in(terms.drop_last(), text), terms.last());
    }
}

proof fn lemma_sorted_falls(terms: Seq<TermV>, t: TermV)
    requires
        falling(terms),
    ensures
        falling(term_sorted_in(terms, t)),
    decreases terms.len(),
{
    if terms.len() > 0 {
        let r = term_sorted_in(terms, t);
        let front = terms.drop_last();
        let n = terms.len() - 1;
        if term_before(t, terms.last()) {
            let s = term_sorted_in(front, t);
            lemma_sorted_falls(front, t);
            lemma_term_sorted(front, t);
            assert forall|a: int, b: int| 0 <= a < b < r.len() implies byte_len(
                (#[trigger] r[a]).src,
            ) >= byte_len((#[trigger] r[b]).src) by {
                if b == r.len() - 1 {
                    assert(s.contains(r[a])) by {
                        assert(s[a] == r[a]);
                    }
                    if r[a] != t {
                        let c = choose|c: int| 0 <= c < front.len() && front[c] == r[a];
                        assert(terms[c] == r[a] && terms[n] == terms.last());
                    }
                }
            }
        } else {
            assert forall|a: int, b: int| 0 <= a < b < r.len() implies byte_len(
                (#[trigger] r[a]).src,
            ) >= byte_len((#[trigger] r[b]).src) by {
                if b == r.len() - 1 && a < n {
                    assert(byte_len(terms[a].src) >= byte_len(terms[n].src));
                }
            }
        }
    }
}

/// The glossary has a line for each term, with its translation, in the order of the terms, and is empty
/// where there are none.
pub proof fn law_glossary_has_each_term(terms: Seq<TermV>, t: TermV)
    ensures
        glossary(Seq::empty()).len() == 0,
        glossary(terms.push(t)) == (if terms.len() == 0 {
            "GLOSSARY (when relevant, follow these translations consistently):\n"@
        } else {
            glossary(terms)
        }) + "- "@ + t.src + " => "@ + t.tgt + (match t.kind {
            Some(k) if !is_blank(k) => " ["@ + trimmed(k) + "]"@,
            _ => Seq::empty(),
        }) + (match t.note {
            Some(n) if !is_blank(n) => " ("@ + trimmed(n) + ")"@,
            _ => Seq::empty(),
        }) + "\n"@,
{
    let more = terms.push(t);
    assert(more.drop_last() =~= terms);
    let head = "GLOSSARY (when relevant, follow these translations consistently):\n"@;
    assert(term_lines(more) == term_lines(terms) + term_line(t));
    assert(glossary(more) == head + term_lines(more));
    let kind = match t.kind {
        Some(k) if !is_blank(k) => " ["@ + trimmed(k) + "]"@,
        _ => Seq::empty(),
    };
    let note = match t.note {
        Some(n) if !is_blank(n) => " ("@ + trimmed(n) + ")"@,
        _ => Seq::empty(),
    };
    assert(term_line(t) == "- "@ + t.src + " => "@ + t.tgt + kind + note + "\n"@);
    if terms.len() == 0 {
        assert(term_lines(terms) =~= Seq::<char>::empty());
        assert(head + term_lines(more) =~= head + "- "@ + t.src + " => "@ + t.tgt + kind + note
            + "\n"@);
    } else {
        assert(head + term_lines(more) =~= glossary(terms) + "- "@ + t.src + " => "@ + t.tgt + kind
            + note + "\n"@);
    }
}

} // verus!
