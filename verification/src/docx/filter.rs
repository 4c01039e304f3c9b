//! Cleaning a document by rules: attributes and elements are dropped, and adjacent runs of one style
//! are merged.

use crate::chars::{append, blank, is_blank, is_whitespace, is_ws, owned, str_eq, to_chars};
use crate::docx::cleaned::{clean, law_filter_leaves_what_is_clean, picked};
use crate::docx::error::{DocxError, DocxErrorV};
use crate::docx::merging::{gist, law_merging_settles, settled};
use crate::docx::package::{
    bytes_result, package_of, packed, replacements_view, xml_only, DocxEntry, DocxPackage, EntryV,
};
use crate::docx::xml::{
    clone_attrs, clone_event, events_written, parse_xml_part, parsed, text_before, text_less, top,
    top_of, write_xml_part, AttrsV, EventV, XmlEvent, XmlPart,
};
use crate::vecs::{append_deep, pop_deep, popped, push_deep, same_texts};
use vstd::prelude::*;
use vstd::utf8::*;

verus! {

/// What a filter drops and merges.
#[derive(Clone, Debug)]
pub struct DocxFilterRules {
    pub version: u32,
    /// The keys of attributes to be dropped.
    pub strip_attributes: Vec<String>,
    /// The names of elements to be dropped.
    pub drop_elements: Vec<String>,
    /// The names of run properties to be dropped.
    pub drop_run_properties: Vec<String>,
    /// The names of elements in which blank texts stay.
    pub preserve_whitespace_text_in: Vec<String>,
    pub merge_adjacent_runs: bool,
    /// The patterns of the names of parts in which runs are merged. Without any, they are merged in
    /// all parts.
    pub merge_run_parts: Vec<String>,
}

/// The model of [`DocxFilterRules`].
#[verifier::ext_equal]
pub struct RulesV {
    pub version: u32,
    pub strip_attributes: Seq<Seq<char>>,
    pub drop_elements: Seq<Seq<char>>,
    pub drop_run_properties: Seq<Seq<char>>,
    pub preserve_whitespace_text_in: Seq<Seq<char>>,
    pub merge_adjacent_runs: bool,
    pub merge_run_parts: Seq<Seq<char>>,
}

impl DeepView for DocxFilterRules {
    type V = RulesV;

    open spec fn deep_view(&self) -> RulesV {
        RulesV {
            version: self.version,
            strip_attributes: self.strip_attributes.deep_view(),
            drop_elements: self.drop_elements.deep_view(),
            drop_run_properties: self.drop_run_properties.deep_view(),
            preserve_whitespace_text_in: self.preserve_whitespace_text_in.deep_view(),
            merge_adjacent_runs: self.merge_adjacent_runs,
            merge_run_parts: self.merge_run_parts.deep_view(),
        }
    }
}

impl DocxFilterRules {
    /// Succeeds where the rules are of the version that is known.
    pub fn check_version(&self) -> (r: Result<(), DocxError>)
        ensures
            r is Ok <==> self.version == 1,
            r matches Err(e) ==> e.deep_view() == (DocxErrorV::FilterVersion {
                version: self.version,
            }),
    {
        if self.version != 1 {
            return Err(DocxError::FilterVersion { version: self.version });
        }
        Ok(())
    }
}

/// Whether a text matches a pattern in which `*` stands for any characters.
pub open spec fn glob(pattern: Seq<char>, text: Seq<char>) -> bool
    decreases pattern.len(), text.len(),
{
    if pattern.len() == 0 {
        text.len() == 0
    } else if pattern[0] == '*' {
        glob(pattern.drop_first(), text) || (text.len() > 0 && glob(pattern, text.drop_first()))
    } else {
        text.len() > 0 && text[0] == pattern[0] && glob(pattern.drop_first(), text.drop_first())
    }
}

/// Whether the pattern from `i` on matches the text from `j` on.
spec fn glob_at(p: Seq<char>, t: Seq<char>, i: int, j: int) -> bool {
    glob(p.skip(i), t.skip(j))
}

proof fn lemma_glob_at(p: Seq<char>, t: Seq<char>, i: int, j: int)
    requires
        0 <= i <= p.len(),
        0 <= j <= t.len(),
    ensures
        i == p.len() ==> glob_at(p, t, i, j) == (j == t.len()),
        i < p.len() && p[i] == '*' ==> glob_at(p, t, i, j) == (glob_at(p, t, i + 1, j) || (j < t.len()
            && glob_at(p, t, i, j + 1))),
        i < p.len() && p[i] != '*' ==> glob_at(p, t, i, j) == (j < t.len() && t[j] == p[i]
            && glob_at(p, t, i + 1, j + 1)),
{
    if i < p.len() {
        assert(p.skip(i).drop_first() =~= p.skip(i + 1));
        assert(p.skip(i)[0] == p[i]);
    }
    if j < t.len() {
        assert(t.skip(j).drop_first() =~= t.skip(j + 1));
        assert(t.skip(j)[0] == t[j]);
    }
}

/// Whether a text matches a pattern in which `*` stands for any characters.
fn wildcard_match(pattern: &str, text: &str) -> (r: bool)
    ensures
        r == glob(pattern@, text@),
{
    let p: Vec<char> = to_chars(pattern);
    let t: Vec<char> = to_chars(text);
    let n: usize = t.len();
    let mut row: Vec<bool> = Vec::new();
    let mut end: bool = true;
    let mut j: usize = 0;
    while j < n
        invariant
            j <= n == t@.len(),
            row@.len() == j,
            forall|k: int|
                0 <= k < j ==> #[trigger] row@[k] == glob_at(p@, t@, p@.len() as int, k),
        decreases n - j,
    {
        proof {
            lemma_glob_at(p@, t@, p@.len() as int, j as int);
        }
        row.push(false);
        j = j + 1;
    }
    let mut i: usize = p.len();
    proof {
        lemma_glob_at(p@, t@, i as int, n as int);
    }
    while i > 0
        invariant
            i <= p@.len(),
            n == t@.len() == row@.len(),
            forall|k: int| 0 <= k < n ==> #[trigger] row@[k] == glob_at(p@, t@, i as int, k),
            end == glob_at(p@, t@, i as int, n as int),
        decreases i,
    {
        let c: char = p[i - 1];
        proof {
            lemma_glob_at(p@, t@, i - 1, n as int);
        }
        if c == '*' {
            let mut next: bool = end;
            let mut j: usize = n;
            while j > 0
                invariant
                    j <= n == t@.len() == row@.len(),
                    0 < i <= p@.len(),
                    c == p@[i - 1],
                    c == '*',
                    next == glob_at(p@, t@, i - 1, j as int),
                    forall|k: int|
                        j <= k < n ==> #[trigger] row@[k] == glob_at(p@, t@, i - 1, k),
                    forall|k: int| 0 <= k < j ==> #[trigger] row@[k] == glob_at(p@, t@, i as int, k),
                decreases j,
            {
                proof {
                    lemma_glob_at(p@, t@, i - 1, j - 1);
                }
                next = row[j - 1] || next;
                row.set(j - 1, next);
                j = j - 1;
            }
        } else {
            let mut j: usize = 0;
            while j < n
                invariant
                    j <= n == t@.len() == row@.len(),
                    0 < i <= p@.len(),
                    c == p@[i - 1],
                    c != '*',
                    end == glob_at(p@, t@, i as int, n as int),
                    forall|k: int|
                        0 <= k < j ==> #[trigger] row@[k] == glob_at(p@, t@, i - 1, k),
                    forall|k: int| j <= k < n ==> #[trigger] row@[k] == glob_at(p@, t@, i as int, k),
                decreases n - j,
            {
                proof {
                    lemma_glob_at(p@, t@, i - 1, j as int);
                }
                let rest: bool = if j + 1 < n {
                    row[j + 1]
                } else {
                    end
                };
                row.set(j, t[j] == c && rest);
                j = j + 1;
            }
            end = false;
        }
        i = i - 1;
    }
    assert(p@.skip(0) =~= p@);
    assert(t@.skip(0) =~= t@);
    if n > 0 {
        row[0]
    } else {
        end
    }
}

/// Whether runs are merged in a part.
pub open spec fn merges_runs(rules: RulesV, part_name: Seq<char>) -> bool {
    rules.merge_adjacent_runs && (rules.merge_run_parts.len() == 0 || exists|i: int|
        0 <= i < rules.merge_run_parts.len() && glob(#[trigger] rules.merge_run_parts[i], part_name))
}

fn should_merge_runs_for_part(rules: &DocxFilterRules, part_name: &str) -> (r: bool)
    ensures
        r == merges_runs(rules.deep_view(), part_name@),
{
    if !rules.merge_adjacent_runs {
        return false;
    }
    if rules.merge_run_parts.len() == 0 {
        return true;
    }
    let ghost model = rules.merge_run_parts.deep_view();
    let mut i: usize = 0;
    while i < rules.merge_run_parts.len()
        invariant
            i <= rules.merge_run_parts@.len(),
            rules.merge_adjacent_runs,
            model == rules.merge_run_parts.deep_view(),
            forall|k: int| 0 <= k < i ==> !glob(#[trigger] model[k], part_name@),
        decreases rules.merge_run_parts@.len() - i,
    {
        assert(model[i as int] == rules.merge_run_parts@[i as int]@);
        if wildcard_match(rules.merge_run_parts[i].as_str(), part_name) {
            return true;
        }
        i = i + 1;
    }
    false
}

fn listed(names: &Vec<String>, name: &str) -> (r: bool)
    ensures
        r == names.deep_view().contains(name@),
{
    let ghost model = names.deep_view();
    let mut i: usize = 0;
    while i < names.len()
        invariant
            i <= names@.len(),
            model == names.deep_view(),
            forall|k: int| 0 <= k < i ==> #[trigger] model[k] != name@,
        decreases names@.len() - i,
    {
        assert(model[i as int] == names@[i as int]@);
        if str_eq(names[i].as_str(), name) {
            return true;
        }
        i = i + 1;
    }
    false
}

/// The attributes whose keys are not listed.
pub open spec fn kept_attrs(attrs: AttrsV, strip: Seq<Seq<char>>) -> AttrsV
    decreases attrs.len(),
{
    if attrs.len() == 0 {
        Seq::empty()
    } else if strip.contains(attrs.last().0) {
        kept_attrs(attrs.drop_last(), strip)
    } else {
        kept_attrs(attrs.drop_last(), strip).push(attrs.last())
    }
}

fn keep_attrs(attrs: &Vec<(String, String)>, strip: &Vec<String>) -> (r: Vec<(String, String)>)
    ensures
        r.deep_view() == kept_attrs(attrs.deep_view(), strip.deep_view()),
{
    let ghost model = attrs.deep_view();
    let mut out: Vec<(String, String)> = Vec::new();
    let mut i: usize = 0;
    assert(model.take(0) =~= Seq::<(Seq<char>, Seq<char>)>::empty());
    assert(out.deep_view() =~= Seq::<(Seq<char>, Seq<char>)>::empty());
    while i < attrs.len()
        invariant
            i <= attrs@.len(),
            model == attrs.deep_view(),
            out.deep_view() == kept_attrs(model.take(i as int), strip.deep_view()),
        decreases attrs@.len() - i,
    {
        assert(model.take(i + 1).drop_last() =~= model.take(i as int));
        assert(model.take(i + 1).last() == attrs@[i as int].deep_view());
        if !listed(strip, attrs[i].0.as_str()) {
            push_deep(&mut out, (attrs[i].0.clone(), attrs[i].1.clone()));
        }
        i = i + 1;
    }
    assert(model.take(i as int) =~= model);
    out
}

/// The state of filtering a part: what is kept, the open tags, and how deep inside an element that is
/// dropped the reading is.
#[verifier::ext_equal]
pub struct FilterV {
    pub out: Seq<EventV>,
    pub stack: Seq<Seq<char>>,
    pub skip: nat,
    pub element: Option<Seq<char>>,
}

/// Whether an element is dropped.
pub open spec fn dropped(rules: RulesV, name: Seq<char>, parent: Seq<char>) -> bool {
    (parent == "w:rPr"@ && rules.drop_run_properties.contains(name))
        || rules.drop_elements.contains(name)
}

/// Whether a text is dropped: one that is blank, unless it stands in an element in which blank texts
/// stay.
pub open spec fn blank_dropped(rules: RulesV, text: Seq<char>, parent: Seq<char>) -> bool {
    is_blank(text) && !rules.preserve_whitespace_text_in.contains(parent)
}

/// What one event does to the state of filtering a part.
pub open spec fn filter_step(rules: RulesV, st: FilterV, ev: EventV) -> FilterV {
    let parent = top(st.stack);
    if st.skip > 0 {
        match ev {
            EventV::Start { name, .. } => FilterV {
                stack: st.stack.push(name),
                skip: st.skip + 1,
                ..st
            },
            EventV::End { .. } => FilterV {
                stack: popped(st.stack),
                skip: (st.skip - 1) as nat,
                element: if st.skip == 1 {
                    None
                } else {
                    st.element
                },
                ..st
            },
            _ => st,
        }
    } else {
        match ev {
            EventV::Start { name, attrs } => if dropped(rules, name, parent) {
                FilterV { stack: st.stack.push(name), skip: 1, element: Some(name), ..st }
            } else {
                FilterV {
                    out: st.out.push(
                        EventV::Start { name, attrs: kept_attrs(attrs, rules.strip_attributes) },
                    ),
                    stack: st.stack.push(name),
                    ..st
                }
            },
            EventV::Empty { name, attrs } => if dropped(rules, name, parent) {
                st
            } else {
                FilterV {
                    out: st.out.push(
                        EventV::Empty { name, attrs: kept_attrs(attrs, rules.strip_attributes) },
                    ),
                    ..st
                }
            },
            EventV::End { name } => FilterV { out: st.out.push(ev), stack: popped(st.stack), ..st },
            EventV::Text { text } => if blank_dropped(rules, text, parent) {
                st
            } else {
                FilterV { out: st.out.push(ev), ..st }
            },
            EventV::CData { text } => if blank_dropped(rules, text, parent) {
                st
            } else {
                FilterV { out: st.out.push(ev), ..st }
            },
            _ => FilterV { out: st.out.push(ev), ..st },
        }
    }
}

/// The state of filtering a part after a sequence of events.
pub open spec fn filter_run(rules: RulesV, events: Seq<EventV>) -> FilterV
    decreases events.len(),
{
    if events.len() == 0 {
        FilterV { out: Seq::empty(), stack: Seq::empty(), skip: 0, element: None }
    } else {
        filter_step(rules, filter_run(rules, events.drop_last()), events.last())
    }
}

/// The events of a part that the rules keep, unless an element that is dropped is never closed.
pub open spec fn filtered(rules: RulesV, part_name: Seq<char>, events: Seq<EventV>) -> Result<
    Seq<EventV>,
    DocxErrorV,
> {
    let st = filter_run(rules, events);
    match st.element {
        Some(element) => Err(DocxErrorV::Unterminated { part: part_name, element }),
        None => Ok(st.out),
    }
}

struct FilterState {
    out: Vec<XmlEvent>,
    stack: Vec<String>,
    skip: usize,
    element: Option<String>,
}

impl DeepView for FilterState {
    type V = FilterV;

    closed spec fn deep_view(&self) -> FilterV {
        FilterV {
            out: self.out.deep_view(),
            stack: self.stack.deep_view(),
            skip: self.skip as nat,
            element: self.element.deep_view(),
        }
    }
}

impl FilterState {
    fn drops(&self, rules: &DocxFilterRules, name: &str) -> (r: bool)
        ensures
            r == dropped(rules.deep_view(), name@, top(self.deep_view().stack)),
    {
        (str_eq(top_of(&self.stack), "w:rPr") && listed(&rules.drop_run_properties, name)) || listed(
            &rules.drop_elements,
            name,
        )
    }

    fn drops_blank(&self, rules: &DocxFilterRules, text: &str) -> (r: bool)
        ensures
            r == blank_dropped(rules.deep_view(), text@, top(self.deep_view().stack)),
    {
        blank(text) && !listed(&rules.preserve_whitespace_text_in, top_of(&self.stack))
    }

    fn step(&mut self, rules: &DocxFilterRules, ev: &XmlEvent)
        requires
            old(self).skip < usize::MAX,
        ensures
            final(self).deep_view() == filter_step(
                rules.deep_view(),
                old(self).deep_view(),
                ev.deep_view(),
            ),
            final(self).skip <= old(self).skip + 1,
    {
        let ghost before = self.deep_view();
        if self.skip > 0 {
            match ev {
                XmlEvent::Start { name, .. } => {
                    push_deep(&mut self.stack, name.clone());
                    self.skip = self.skip + 1;
                },
                XmlEvent::End { .. } => {
                    let _ = pop_deep(&mut self.stack);
                    self.skip = self.skip - 1;
                    if self.skip == 0 {
                        self.element = None;
                    }
                },
                _ => {},
            }
        } else {
            match ev {
                XmlEvent::Start { name, attrs } => {
                    if self.drops(rules, name.as_str()) {
                        self.skip = 1;
                        self.element = Some(name.clone());
                    } else {
                        let kept: Vec<(String, String)> = keep_attrs(attrs, &rules.strip_attributes);
                        push_deep(
                            &mut self.out,
                            XmlEvent::Start { name: name.clone(), attrs: kept },
                        );
                    }
                    push_deep(&mut self.stack, name.clone());
                },
                XmlEvent::Empty { name, attrs } => {
                    if !self.drops(rules, name.as_str()) {
                        let kept: Vec<(String, String)> = keep_attrs(attrs, &rules.strip_attributes);
                        push_deep(
                            &mut self.out,
                            XmlEvent::Empty { name: name.clone(), attrs: kept },
                        );
                    }
                },
                XmlEvent::End { name } => {
                    push_deep(&mut self.out, clone_event(ev));
                    let _ = pop_deep(&mut self.stack);
                },
                XmlEvent::Text { text } => {
                    if !self.drops_blank(rules, text.as_str()) {
                        push_deep(&mut self.out, clone_event(ev));
                    }
                },
                XmlEvent::CData { text } => {
                    if !self.drops_blank(rules, text.as_str()) {
                        push_deep(&mut self.out, clone_event(ev));
                    }
                },
                _ => push_deep(&mut self.out, clone_event(ev)),
            }
        }
        assert(self.deep_view() =~= filter_step(rules.deep_view(), before, ev.deep_view()));
    }
}

/// Takes out of a part what the rules drop. What is left is clean, in its order, and stays as it is when
/// it is filtered again. A part in which a dropped element is not closed is refused and not changed.
pub fn filter_xml_part(part: &mut XmlPart, rules: &DocxFilterRules) -> (r: Result<(), DocxError>)
    ensures
        r is Ok ==> {
            let out = final(part).events.deep_view();
            &&& clean(rules.deep_view(), out)
            &&& exists|at: Seq<int>| #[trigger]
                picked(rules.deep_view(), old(part).events.deep_view(), out, at)
            &&& filtered(rules.deep_view(), old(part).name@, out) == Ok::<_, DocxErrorV>(out)
        },
        match r {
            Ok(_) => filtered(rules.deep_view(), old(part).name@, old(part).events.deep_view()) == Ok::<
                _,
                DocxErrorV,
            >(final(part).events.deep_view()),
            Err(e) => filtered(rules.deep_view(), old(part).name@, old(part).events.deep_view())
                == Err::<Seq<EventV>, _>(e.deep_view()) && *final(part) == *old(part),
        },
        final(part).name == old(part).name,
        final(part).baseline_hash == old(part).baseline_hash,
{
    let mut st = FilterState { out: Vec::new(), stack: Vec::new(), skip: 0, element: None };
    let ghost model = part.events.deep_view();
    let mut i: usize = 0;
    assert(model.take(0) =~= Seq::<EventV>::empty());
    assert(st.deep_view() =~= filter_run(rules.deep_view(), model.take(0)));
    while i < part.events.len()
        invariant
            i <= part.events@.len(),
            *part == *old(part),
            model == part.events.deep_view(),
            st.deep_view() == filter_run(rules.deep_view(), model.take(i as int)),
            st.skip <= i,
        decreases part.events@.len() - i,
    {
        assert(model[i as int] == part.events@[i as int].deep_view());
        assert(model.take(i + 1).drop_last() =~= model.take(i as int));
        st.step(rules, &part.events[i]);
        i = i + 1;
    }
    assert(model.take(i as int) =~= model);
    proof {
        law_filter_leaves_what_is_clean(rules.deep_view(), part.name@, model);
    }
    match st.element {
        Some(element) => Err(DocxError::Unterminated { part: part.name.clone(), element }),
        None => {
            part.events = st.out;
            Ok(())
        },
    }
}

/// Whether none of the attributes is one that is dropped.
pub open spec fn attrs_clean(rules: RulesV, attrs: AttrsV) -> bool {
    forall|i: int|
        0 <= i < attrs.len() ==> !rules.strip_attributes.contains((#[trigger] attrs[i]).0)
}

pub(crate) proof fn lemma_kept_attrs(rules: RulesV, attrs: AttrsV)
    ensures
        attrs_clean(rules, kept_attrs(attrs, rules.strip_attributes)),
    decreases attrs.len(),
{
    if attrs.len() > 0 {
        lemma_kept_attrs(rules, attrs.drop_last());
    }
}

/// Whether one attribute stands before another in the order of keys and, for one key, of values.
pub open spec fn attr_less(a: (Seq<char>, Seq<char>), b: (Seq<char>, Seq<char>)) -> bool {
    text_less(a.0, b.0) || (a.0 == b.0 && text_less(a.1, b.1))
}

/// Attributes in order, with one more put in its place.
pub open spec fn attr_placed(m: AttrsV, kv: (Seq<char>, Seq<char>)) -> AttrsV
    decreases m.len(),
{
    if m.len() == 0 {
        seq![kv]
    } else if attr_less(kv, m[0]) {
        seq![kv] + m
    } else {
        seq![m[0]] + attr_placed(m.drop_first(), kv)
    }
}

/// Attributes in order.
pub open spec fn attrs_sorted(attrs: AttrsV) -> AttrsV
    decreases attrs.len(),
{
    if attrs.len() == 0 {
        Seq::empty()
    } else {
        attr_placed(attrs_sorted(attrs.drop_last()), attrs.last())
    }
}

/// Attributes as they enter the fingerprint of a style.
pub open spec fn attrs_print(attrs: AttrsV) -> Seq<char>
    decreases attrs.len(),
{
    if attrs.len() == 0 {
        Seq::empty()
    } else {
        attrs_print(attrs.drop_last()) + " "@ + attrs.last().0 + "="@ + attrs.last().1
    }
}

/// A tag as it enters the fingerprint of a style.
pub open spec fn tag_print(name: Seq<char>, attrs: AttrsV, empty: bool) -> Seq<char> {
    "<"@ + name + attrs_print(attrs_sorted(attrs)) + if empty {
        "/>"@
    } else {
        ">"@
    }
}

fn place_attr(m: &mut Vec<(String, String)>, k: String, v: String)
    ensures
        final(m).deep_view() == attr_placed(old(m).deep_view(), (k@, v@)),
{
    let ghost model = m.deep_view();
    let ghost kv = (k@, v@);
    let mut i: usize = 0;
    assert(model.take(0) + attr_placed(model.skip(0), kv) =~= attr_placed(model, kv)) by {
        assert(model.skip(0) =~= model);
    }
    let n: usize = m.len();
    let mut found: bool = false;
    while i < n && !found
        invariant
            i <= n == m@.len(),
            kv == (k@, v@),
            model == m.deep_view(),
            *m == *old(m),
            model.take(i as int) + attr_placed(model.skip(i as int), kv) == attr_placed(model, kv),
            found ==> i < n && attr_less(kv, model[i as int]),
        decreases n - i, if found {
            0int
        } else {
            1int
        },
    {
        assert(model[i as int] == m@[i as int].deep_view());
        let key: &str = m[i].0.as_str();
        if text_before(k.as_str(), key) || (str_eq(k.as_str(), key) && text_before(
            v.as_str(),
            m[i].1.as_str(),
        )) {
            found = true;
        } else {
            proof {
                let rest = model.skip(i as int);
                assert(rest[0] == model[i as int]);
                assert(rest.drop_first() =~= model.skip(i + 1));
                assert(model.take(i + 1) =~= model.take(i as int).push(model[i as int]));
                assert(model.take(i + 1) + attr_placed(model.skip(i + 1), kv) =~= model.take(
                    i as int,
                ) + attr_placed(rest, kv));
            }
            i = i + 1;
        }
    }
    proof {
        if found {
            assert(model.skip(i as int)[0] == model[i as int]);
        } else {
            assert(model.skip(i as int).len() == 0);
        }
        assert(attr_placed(model.skip(i as int), kv) =~= seq![kv] + model.skip(i as int));
    }
    m.insert(i, (k, v));
    assert(m.deep_view() =~= model.take(i as int) + (seq![kv] + model.skip(i as int)));
}

fn fingerprint_start_like(name: &str, attrs: &Vec<(String, String)>, empty: bool) -> (r: String)
    ensures
        r@ == tag_print(name@, attrs.deep_view(), empty),
{
    let ghost model = attrs.deep_view();
    let mut a: Vec<(String, String)> = Vec::new();
    let mut i: usize = 0;
    assert(model.take(0) =~= Seq::<(Seq<char>, Seq<char>)>::empty());
    assert(a.deep_view() =~= Seq::<(Seq<char>, Seq<char>)>::empty());
    while i < attrs.len()
        invariant
            i <= attrs@.len(),
            model == attrs.deep_view(),
            a.deep_view() == attrs_sorted(model.take(i as int)),
        decreases attrs@.len() - i,
    {
        assert(model[i as int] == attrs@[i as int].deep_view());
        assert(model.take(i + 1).drop_last() =~= model.take(i as int));
        place_attr(&mut a, attrs[i].0.clone(), attrs[i].1.clone());
        i = i + 1;
    }
    assert(model.take(i as int) =~= model);
    let ghost sorted = a.deep_view();
    let mut s: String = owned("<");
    append(&mut s, name);
    let ghost head = s@;
    let mut j: usize = 0;
    assert(sorted.take(0) =~= Seq::<(Seq<char>, Seq<char>)>::empty());
    assert(s@ =~= head + attrs_print(sorted.take(0)));
    while j < a.len()
        invariant
            j <= a@.len(),
            sorted == a.deep_view(),
            s@ == head + attrs_print(sorted.take(j as int)),
        decreases a@.len() - j,
    {
        assert(sorted[j as int] == a@[j as int].deep_view());
        assert(sorted.take(j + 1).drop_last() =~= sorted.take(j as int));
        append(&mut s, " ");
        append(&mut s, a[j].0.as_str());
        append(&mut s, "=");
        append(&mut s, a[j].1.as_str());
        j = j + 1;
        assert(s@ =~= head + attrs_print(sorted.take(j as int)));
    }
    assert(sorted.take(j as int) =~= sorted);
    if empty {
        append(&mut s, "/>");
    } else {
        append(&mut s, ">");
    }
    assert(s@ =~= tag_print(name@, attrs.deep_view(), empty));
    s
}

/// A run that holds nothing but text, with the events and the fingerprint of its style.
#[verifier::ext_equal]
pub struct TextRunV {
    pub attrs: AttrsV,
    pub style: Seq<EventV>,
    pub fingerprint: Seq<Seq<char>>,
    pub text: Seq<char>,
    pub preserve: bool,
}

/// The state of reading what stands inside a run.
#[verifier::ext_equal]
pub struct RunReadV {
    pub in_style: bool,
    pub in_text: bool,
    pub depth: nat,
    pub style: Seq<EventV>,
    pub fingerprint: Seq<Seq<char>>,
    pub text: Seq<char>,
    pub preserve: bool,
}

/// One less, but never less than none.
pub open spec fn less_one(n: nat) -> nat {
    if n == 0 {
        0
    } else {
        (n - 1) as nat
    }
}

/// What one event does to the state of reading a run, unless it shows that the run holds more than
/// text.
pub open spec fn run_read_step(st: RunReadV, ev: EventV) -> Option<RunReadV> {
    match ev {
        EventV::Start { name, attrs } => if st.in_style {
            Some(
                RunReadV {
                    style: st.style.push(ev),
                    fingerprint: st.fingerprint.push(tag_print(name, attrs, false)),
                    depth: st.depth + 1,
                    ..st
                },
            )
        } else if st.in_text || st.depth > 0 {
            None
        } else if name == "w:rPr"@ {
            Some(RunReadV { in_style: true, style: st.style.push(ev), ..st })
        } else if name == "w:t"@ {
            Some(
                RunReadV {
                    in_text: true,
                    preserve: st.preserve || attrs.contains(("xml:space"@, "preserve"@)),
                    depth: st.depth + 1,
                    ..st
                },
            )
        } else {
            None
        },
        EventV::Empty { name, attrs } => if st.in_style {
            Some(
                RunReadV {
                    style: st.style.push(ev),
                    fingerprint: st.fingerprint.push(tag_print(name, attrs, true)),
                    ..st
                },
            )
        } else {
            None
        },
        EventV::End { name } => if st.in_style {
            if name == "w:rPr"@ {
                Some(RunReadV { in_style: false, style: st.style.push(ev), ..st })
            } else {
                Some(
                    RunReadV {
                        style: st.style.push(ev),
                        fingerprint: st.fingerprint.push("</"@ + name + ">"@),
                        depth: less_one(st.depth),
                        ..st
                    },
                )
            }
        } else if st.in_text && name == "w:t"@ {
            Some(RunReadV { in_text: false, depth: less_one(st.depth), ..st })
        } else {
            None
        },
        EventV::Text { text } => if st.in_text {
            Some(RunReadV { text: st.text + text, ..st })
        } else if is_blank(text) {
            Some(st)
        } else {
            None
        },
        _ => None,
    }
}

/// The state of reading a run after some of the events inside it.
pub open spec fn run_read(events: Seq<EventV>) -> Option<RunReadV>
    decreases events.len(),
{
    if events.len() == 0 {
        Some(
            RunReadV {
                in_style: false,
                in_text: false,
                depth: 0,
                style: Seq::empty(),
                fingerprint: Seq::empty(),
                text: Seq::empty(),
                preserve: false,
            },
        )
    } else {
        match run_read(events.drop_last()) {
            Some(st) => run_read_step(st, events.last()),
            None => None,
        }
    }
}

/// The text run that the events of an element are, if they are one.
pub open spec fn text_run(events: Seq<EventV>) -> Option<TextRunV> {
    if events.len() < 2 {
        None
    } else {
        match (events[0], events.last()) {
            (EventV::Start { name, attrs }, EventV::End { name: closed }) => if name == "w:r"@
                && closed == "w:r"@ {
                match run_read(events.subrange(1, events.len() - 1)) {
                    Some(st) => if st.in_style || st.in_text || st.depth > 0 {
                        None
                    } else {
                        Some(
                            TextRunV {
                                attrs,
                                style: if st.style.len() == 2 {
                                    Seq::empty()
                                } else {
                                    st.style
                                },
                                fingerprint: st.fingerprint,
                                text: st.text,
                                preserve: st.preserve,
                            },
                        )
                    },
                    None => None,
                }
            } else {
                None
            },
            _ => None,
        }
    }
}

struct NormalizedRun {
    run_start_attrs: Vec<(String, String)>,
    rpr_events: Vec<XmlEvent>,
    rpr_fingerprint: Vec<String>,
    text: String,
    has_xml_space_preserve: bool,
}

impl DeepView for NormalizedRun {
    type V = TextRunV;

    closed spec fn deep_view(&self) -> TextRunV {
        TextRunV {
            attrs: self.run_start_attrs.deep_view(),
            style: self.rpr_events.deep_view(),
            fingerprint: self.rpr_fingerprint.deep_view(),
            text: self.text@,
            preserve: self.has_xml_space_preserve,
        }
    }
}

struct RunRead {
    in_style: bool,
    in_text: bool,
    depth: usize,
    style: Vec<XmlEvent>,
    fingerprint: Vec<String>,
    text: String,
    preserve: bool,
}

impl DeepView for RunRead {
    type V = RunReadV;

    closed spec fn deep_view(&self) -> RunReadV {
        RunReadV {
            in_style: self.in_style,
            in_text: self.in_text,
            depth: self.depth as nat,
            style: self.style.deep_view(),
            fingerprint: self.fingerprint.deep_view(),
            text: self.text@,
            preserve: self.preserve,
        }
    }
}

fn preserves_space(attrs: &Vec<(String, String)>) -> (r: bool)
    ensures
        r == attrs.deep_view().contains(("xml:space"@, "preserve"@)),
{
    let ghost model = attrs.deep_view();
    let mut i: usize = 0;
    while i < attrs.len()
        invariant
            i <= attrs@.len(),
            model == attrs.deep_view(),
            forall|k: int| 0 <= k < i ==> #[trigger] model[k] != ("xml:space"@, "preserve"@),
        decreases attrs@.len() - i,
    {
        assert(model[i as int] == attrs@[i as int].deep_view());
        if str_eq(attrs[i].0.as_str(), "xml:space") && str_eq(attrs[i].1.as_str(), "preserve") {
            assert(model.contains(("xml:space"@, "preserve"@)));
            return true;
        }
        i = i + 1;
    }
    false
}

fn end_print(name: &str) -> (r: String)
    ensures
        r@ == "</"@ + name@ + ">"@,
{
    let mut s: String = owned("</");
    append(&mut s, name);
    append(&mut s, ">");
    s
}

impl RunRead {
    fn step(&mut self, ev: &XmlEvent) -> (r: bool)
        requires
            old(self).depth < usize::MAX,
        ensures
            r == run_read_step(old(self).deep_view(), ev.deep_view()) is Some,
            r ==> Some(final(self).deep_view()) == run_read_step(
                old(self).deep_view(),
                ev.deep_view(),
            ),
            final(self).depth <= old(self).depth + 1,
    {
        let ghost before = self.deep_view();
        let ok: bool = match ev {
            XmlEvent::Start { name, attrs } => {
                if self.in_style {
                    push_deep(&mut self.style, clone_event(ev));
                    push_deep(
                        &mut self.fingerprint,
                        fingerprint_start_like(name.as_str(), attrs, false),
                    );
                    self.depth = self.depth + 1;
                    true
                } else if self.in_text || self.depth > 0 {
                    false
                } else if str_eq(name.as_str(), "w:rPr") {
                    self.in_style = true;
                    push_deep(&mut self.style, clone_event(ev));
                    true
                } else if str_eq(name.as_str(), "w:t") {
                    self.in_text = true;
                    if preserves_space(attrs) {
                        self.preserve = true;
                    }
                    self.depth = self.depth + 1;
                    true
                } else {
                    false
                }
            },
            XmlEvent::Empty { name, attrs } => {
                if self.in_style {
                    push_deep(&mut self.style, clone_event(ev));
                    push_deep(
                        &mut self.fingerprint,
                        fingerprint_start_like(name.as_str(), attrs, true),
                    );
                    true
                } else {
                    false
                }
            },
            XmlEvent::End { name } => {
                if self.in_style {
                    push_deep(&mut self.style, clone_event(ev));
                    if str_eq(name.as_str(), "w:rPr") {
                        self.in_style = false;
                    } else {
                        push_deep(&mut self.fingerprint, end_print(name.as_str()));
                        if self.depth > 0 {
                            self.depth = self.depth - 1;
                        }
                    }
                    true
                } else if self.in_text && str_eq(name.as_str(), "w:t") {
                    self.in_text = false;
                    if self.depth > 0 {
                        self.depth = self.depth - 1;
                    }
                    true
                } else {
                    false
                }
            },
            XmlEvent::Text { text } => {
                if self.in_text {
                    append(&mut self.text, text.as_str());
                    true
                } else {
                    blank(text.as_str())
                }
            },
            _ => false,
        };
        proof {
            let after = run_read_step(before, ev.deep_view());
            if ok {
                assert(after is Some);
                assert(self.deep_view() =~= after->Some_0);
            }
        }
        ok
    }
}

fn normalize_text_run(run_events: &Vec<XmlEvent>) -> (r: Option<NormalizedRun>)
    ensures
        r.deep_view() == text_run(run_events.deep_view()),
{
    let ghost model = run_events.deep_view();
    let n: usize = run_events.len();
    if n < 2 {
        return None;
    }
    assert(model[0] == run_events@[0].deep_view());
    assert(model.last() == run_events@[n - 1].deep_view());
    let closed: bool = match &run_events[n - 1] {
        XmlEvent::End { name } => str_eq(name.as_str(), "w:r"),
        _ => false,
    };
    let attrs: &Vec<(String, String)> = match &run_events[0] {
        XmlEvent::Start { name, attrs } => {
            if !closed || !str_eq(name.as_str(), "w:r") {
                return None;
            }
            attrs
        },
        _ => {
            return None;
        },
    };
    let ghost inner = model.subrange(1, n - 1);
    let mut st = RunRead {
        in_style: false,
        in_text: false,
        depth: 0,
        style: Vec::new(),
        fingerprint: Vec::new(),
        text: String::new(),
        preserve: false,
    };
    let mut ok: bool = true;
    let mut i: usize = 1;
    assert(inner.take(0) =~= Seq::<EventV>::empty());
    assert(st.deep_view() =~= run_read(inner.take(0))->Some_0);
    while i < n - 1
        invariant
            1 <= i <= n - 1,
            n == run_events@.len(),
            model == run_events.deep_view(),
            inner == model.subrange(1, n - 1),
            ok == run_read(inner.take(i - 1)) is Some,
            ok ==> Some(st.deep_view()) == run_read(inner.take(i - 1)),
            st.depth <= i,
        decreases n - i,
    {
        assert(model[i as int] == run_events@[i as int].deep_view());
        assert(inner.take(i as int).drop_last() =~= inner.take(i - 1));
        assert(inner.take(i as int).last() == model[i as int]);
        if ok {
            ok = st.step(&run_events[i]);
        }
        i = i + 1;
    }
    assert(inner.take(i - 1) =~= inner);
    if !ok || st.in_style || st.in_text || st.depth > 0 {
        return None;
    }
    let style: Vec<XmlEvent> = if st.style.len() == 2 {
        Vec::new()
    } else {
        st.style
    };
    let run = NormalizedRun {
        run_start_attrs: clone_attrs(attrs),
        rpr_events: style,
        rpr_fingerprint: st.fingerprint,
        text: st.text,
        has_xml_space_preserve: st.preserve,
    };
    assert(run.deep_view() =~= text_run(model)->Some_0);
    Some(run)
}

/// The events that a text run is written as.
pub open spec fn run_rendered(run: TextRunV) -> Seq<EventV> {
    let space: AttrsV = if run.preserve || (run.text.len() > 0 && (is_ws(run.text[0])
        || is_ws(run.text.last()))) {
        seq![("xml:space"@, "preserve"@)]
    } else {
        Seq::empty()
    };
    seq![EventV::Start { name: "w:r"@, attrs: run.attrs }] + run.style + seq![
        EventV::Start { name: "w:t"@, attrs: space },
        EventV::Text { text: run.text },
        EventV::End { name: "w:t"@ },
        EventV::End { name: "w:r"@ },
    ]
}

fn clone_events(events: &Vec<XmlEvent>, from: usize, to: usize) -> (r: Vec<XmlEvent>)
    requires
        from <= to <= events@.len(),
    ensures
        r.deep_view() == events.deep_view().subrange(from as int, to as int),
{
    let ghost model = events.deep_view();
    let mut out: Vec<XmlEvent> = Vec::new();
    let mut i: usize = from;
    assert(out.deep_view() =~= model.subrange(from as int, from as int));
    while i < to
        invariant
            from <= i <= to <= events@.len(),
            model == events.deep_view(),
            out.deep_view() == model.subrange(from as int, i as int),
        decreases to - i,
    {
        assert(model[i as int] == events@[i as int].deep_view());
        push_deep(&mut out, clone_event(&events[i]));
        i = i + 1;
        assert(model.subrange(from as int, i as int) =~= model.subrange(from as int, i - 1).push(
            model[i - 1],
        ));
    }
    out
}

fn white_edge(s: &str) -> (r: bool)
    ensures
        r == (s@.len() > 0 && (is_ws(s@[0]) || is_ws(s@.last()))),
{
    let c: Vec<char> = to_chars(s);
    let n: usize = c.len();
    n > 0 && (is_whitespace(c[0]) || is_whitespace(c[n - 1]))
}

fn render_run(run: &NormalizedRun) -> (r: Vec<XmlEvent>)
    ensures
        r.deep_view() == run_rendered(run.deep_view()),
{
    let mut out: Vec<XmlEvent> = Vec::new();
    assert(out.deep_view() =~= Seq::<EventV>::empty());
    push_deep(
        &mut out,
        XmlEvent::Start { name: owned("w:r"), attrs: clone_attrs(&run.run_start_attrs) },
    );
    assert(run.rpr_events.deep_view().subrange(0, run.rpr_events@.len() as int)
        =~= run.rpr_events.deep_view());
    append_deep(&mut out, clone_events(&run.rpr_events, 0, run.rpr_events.len()));
    let mut space: Vec<(String, String)> = Vec::new();
    assert(space.deep_view() =~= Seq::<(Seq<char>, Seq<char>)>::empty());
    if run.has_xml_space_preserve || white_edge(run.text.as_str()) {
        push_deep(&mut space, (owned("xml:space"), owned("preserve")));
        assert(space.deep_view() =~= seq![("xml:space"@, "preserve"@)]);
    }
    push_deep(&mut out, XmlEvent::Start { name: owned("w:t"), attrs: space });
    push_deep(&mut out, XmlEvent::Text { text: run.text.clone() });
    push_deep(&mut out, XmlEvent::End { name: owned("w:t") });
    push_deep(&mut out, XmlEvent::End { name: owned("w:r") });
    assert(out.deep_view() =~= run_rendered(run.deep_view()));
    out
}

/// Where the element ends that the events from `i` on, at a depth inside it, belong to.
pub open spec fn subtree_end(events: Seq<EventV>, i: int, depth: int) -> int
    decreases events.len() - i,
{
    if i >= events.len() {
        i
    } else {
        let now = match events[i] {
            EventV::Start { .. } => depth + 1,
            EventV::End { .. } => depth - 1,
            _ => depth,
        };
        if now == 0 {
            i + 1
        } else {
            subtree_end(events, i + 1, now)
        }
    }
}

/// An element ends after its first event and not after the last.
pub proof fn lemma_subtree_end(events: Seq<EventV>, i: int, depth: int)
    requires
        0 <= i <= events.len(),
    ensures
        i <= subtree_end(events, i, depth) <= events.len(),
        i < events.len() ==> i < subtree_end(events, i, depth),
    decreases events.len() - i,
{
    if i < events.len() {
        let now = match events[i] {
            EventV::Start { .. } => depth + 1,
            EventV::End { .. } => depth - 1,
            _ => depth,
        };
        if now != 0 {
            lemma_subtree_end(events, i + 1, now);
        }
    }
}

fn collect_subtree(events: &Vec<XmlEvent>, start: usize) -> (r: usize)
    requires
        start < events@.len(),
        events.deep_view()[start as int] is Start,
    ensures
        r == subtree_end(events.deep_view(), start as int, 0),
        start < r <= events@.len(),
{
    let ghost model = events.deep_view();
    let n: usize = events.len();
    let mut depth: usize = 1;
    let mut i: usize = start + 1;
    assert(model[start as int] == events@[start as int].deep_view());
    while i < n && depth > 0
        invariant
            start < i <= n == events@.len(),
            model == events.deep_view(),
            depth <= i - start,
            subtree_end(model, start as int, 0) == if depth == 0 {
                i as int
            } else {
                subtree_end(model, i as int, depth as int)
            },
        decreases n - i,
    {
        assert(model[i as int] == events@[i as int].deep_view());
        match &events[i] {
            XmlEvent::Start { .. } => {
                depth = depth + 1;
            },
            XmlEvent::End { .. } => {
                depth = depth - 1;
            },
            _ => {},
        }
        i = i + 1;
    }
    i
}

/// The state of merging runs: what is written, the open tags outside of runs, and the run that more
/// text may be added to.
#[verifier::ext_equal]
pub struct MergeV {
    pub out: Seq<EventV>,
    pub stack: Seq<Seq<char>>,
    pub pending: Option<TextRunV>,
}

/// The state after the pending run was written.
pub open spec fn merge_flushed(st: MergeV) -> MergeV {
    match st.pending {
        Some(run) => MergeV { out: st.out + run_rendered(run), pending: None, ..st },
        None => st,
    }
}

/// What a run of the events `run` does to the state.
pub open spec fn merge_run(st: MergeV, run: Seq<EventV>) -> MergeV {
    match text_run(run) {
        Some(next) => match st.pending {
            Some(prev) => if prev.fingerprint == next.fingerprint {
                MergeV {
                    pending: Some(
                        TextRunV {
                            text: prev.text + next.text,
                            preserve: prev.preserve || next.preserve,
                            ..prev
                        },
                    ),
                    ..st
                }
            } else {
                MergeV { pending: Some(next), ..merge_flushed(st) }
            },
            None => MergeV { pending: Some(next), ..st },
        },
        None => {
            let flushed = merge_flushed(st);
            MergeV { out: flushed.out + run, ..flushed }
        },
    }
}

/// What an event outside of runs does to the state.
pub open spec fn merge_other(st: MergeV, ev: EventV) -> MergeV {
    let flushed = merge_flushed(st);
    MergeV {
        out: flushed.out.push(ev),
        stack: match ev {
            EventV::Start { name, .. } => st.stack.push(name),
            EventV::End { .. } => popped(st.stack),
            _ => st.stack,
        },
        ..flushed
    }
}

/// Whether an event opens a run directly inside a paragraph.
pub open spec fn opens_run(st: MergeV, ev: EventV) -> bool {
    match ev {
        EventV::Start { name, .. } => name == "w:r"@ && top(st.stack) == "w:p"@,
        _ => false,
    }
}

/// The events from `i` on with adjacent text runs of one style merged, after what stands in the
/// state.
pub open spec fn merged_from(st: MergeV, events: Seq<EventV>, i: int) -> Seq<EventV>
    decreases events.len() - i,
{
    proof {
        if 0 <= i <= events.len() {
            lemma_subtree_end(events, i, 0);
        }
    }
    if i < 0 || i >= events.len() {
        merge_flushed(st).out
    } else if opens_run(st, events[i]) {
        let end = subtree_end(events, i, 0);
        merged_from(merge_run(st, events.subrange(i, end)), events, end)
    } else {
        merged_from(merge_other(st, events[i]), events, i + 1)
    }
}

/// Events with adjacent text runs of one style merged.
pub open spec fn merged_runs(events: Seq<EventV>) -> Seq<EventV> {
    merged_from(
        MergeV { out: Seq::empty(), stack: Seq::empty(), pending: None },
        events,
        0,
    )
}

struct MergeState {
    out: Vec<XmlEvent>,
    stack: Vec<String>,
    pending: Option<NormalizedRun>,
}

impl DeepView for MergeState {
    type V = MergeV;

    closed spec fn deep_view(&self) -> MergeV {
        MergeV {
            out: self.out.deep_view(),
            stack: self.stack.deep_view(),
            pending: self.pending.deep_view(),
        }
    }
}

impl MergeState {
    fn flush(&mut self)
        ensures
            final(self).deep_view() == merge_flushed(old(self).deep_view()),
    {
        let ghost before = self.deep_view();
        match self.pending.take() {
            Some(run) => append_deep(&mut self.out, render_run(&run)),
            None => {},
        }
        assert(self.deep_view() =~= merge_flushed(before));
    }

    fn run(&mut self, events: Vec<XmlEvent>)
        ensures
            final(self).deep_view() == merge_run(old(self).deep_view(), events.deep_view()),
    {
        let ghost before = self.deep_view();
        match normalize_text_run(&events) {
            Some(next) => match self.pending.take() {
                Some(prev) => {
                    if same_texts(&prev.rpr_fingerprint, &next.rpr_fingerprint) {
                        let mut prev = prev;
                        append(&mut prev.text, next.text.as_str());
                        if next.has_xml_space_preserve {
                            prev.has_xml_space_preserve = true;
                        }
                        self.pending = Some(prev);
                    } else {
                        append_deep(&mut self.out, render_run(&prev));
                        self.pending = Some(next);
                    }
                },
                None => {
                    self.pending = Some(next);
                },
            },
            None => {
                self.flush();
                append_deep(&mut self.out, events);
            },
        }
        assert(self.deep_view() =~= merge_run(before, events.deep_view()));
    }

    fn other(&mut self, ev: &XmlEvent)
        ensures
            final(self).deep_view() == merge_other(old(self).deep_view(), ev.deep_view()),
    {
        let ghost before = self.deep_view();
        self.flush();
        push_deep(&mut self.out, clone_event(ev));
        match ev {
            XmlEvent::Start { name, .. } => push_deep(&mut self.stack, name.clone()),
            XmlEvent::End { .. } => {
                let _ = pop_deep(&mut self.stack);
            },
            _ => {},
        }
        assert(self.deep_view() =~= merge_other(before, ev.deep_view()));
    }
}

/// Merges the text runs of paragraphs that stand side by side and have the same style. The characters of
/// the runs and everything else stay as they are and in their place, no two such runs are left, and
/// merging again changes nothing.
pub fn merge_adjacent_text_runs_in_paragraphs(events: &Vec<XmlEvent>) -> (r: Vec<XmlEvent>)
    ensures
        r.deep_view() == merged_runs(events.deep_view()),
        gist(r.deep_view()) == gist(events.deep_view()),
        settled(r.deep_view()),
        merged_runs(r.deep_view()) == r.deep_view(),
{
    let ghost model = events.deep_view();
    proof {
        law_merging_settles(model);
    }
    let mut st = MergeState { out: Vec::new(), stack: Vec::new(), pending: None };
    assert(st.deep_view() =~= (MergeV { out: Seq::empty(), stack: Seq::empty(), pending: None }));
    let n: usize = events.len();
    let mut i: usize = 0;
    while i < n
        invariant
            i <= n == events@.len(),
            model == events.deep_view(),
            merged_from(st.deep_view(), model, i as int) == merged_runs(model),
        decreases n - i,
    {
        assert(model[i as int] == events@[i as int].deep_view());
        let opens: bool = match &events[i] {
            XmlEvent::Start { name, .. } => str_eq(name.as_str(), "w:r") && str_eq(
                top_of(&st.stack),
                "w:p",
            ),
            _ => false,
        };
        if opens {
            let end: usize = collect_subtree(events, i);
            st.run(clone_events(events, i, end));
            i = end;
        } else {
            st.other(&events[i]);
            i = i + 1;
        }
    }
    st.flush();
    st.out
}

/// The characters of a text that are no whitespace.
pub open spec fn inked(s: Seq<char>) -> Seq<char>
    decreases s.len(),
{
    if s.len() == 0 {
        Seq::empty()
    } else if is_ws(s.last()) {
        inked(s.drop_last())
    } else {
        inked(s.drop_last()).push(s.last())
    }
}

/// The characters of the texts of events that are no whitespace.
pub open spec fn ink(events: Seq<EventV>) -> Seq<char>
    decreases events.len(),
{
    if events.len() == 0 {
        Seq::empty()
    } else {
        ink(events.drop_last()) + event_ink(events.last())
    }
}

/// The characters of the text of an event that are no whitespace.
pub open spec fn event_ink(ev: EventV) -> Seq<char> {
    match ev {
        EventV::Text { text } => inked(text),
        EventV::CData { text } => inked(text),
        _ => Seq::empty(),
    }
}

pub(crate) proof fn lemma_inked_add(a: Seq<char>, b: Seq<char>)
    ensures
        inked(a + b) == inked(a) + inked(b),
    decreases b.len(),
{
    if b.len() == 0 {
        assert(a + b =~= a);
        assert(inked(a) + inked(b) =~= inked(a));
    } else {
        lemma_inked_add(a, b.drop_last());
        assert((a + b).drop_last() =~= a + b.drop_last());
        assert(inked(a + b) =~= inked(a) + inked(b));
    }
}

pub(crate) proof fn lemma_inked_blank(s: Seq<char>)
    requires
        is_blank(s),
    ensures
        inked(s) == Seq::<char>::empty(),
    decreases s.len(),
{
    if s.len() > 0 {
        assert(is_ws(s.last()));
        lemma_inked_blank(s.drop_last());
    }
}

proof fn lemma_ink_add(a: Seq<EventV>, b: Seq<EventV>)
    ensures
        ink(a + b) == ink(a) + ink(b),
    decreases b.len(),
{
    if b.len() == 0 {
        assert(a + b =~= a);
        assert(ink(a) + ink(b) =~= ink(a));
    } else {
        lemma_ink_add(a, b.drop_last());
        assert((a + b).drop_last() =~= a + b.drop_last());
        assert(ink(a + b) =~= ink(a) + ink(b));
    }
}

proof fn lemma_run_read_ink(events: Seq<EventV>)
    requires
        run_read(events) is Some,
    ensures
        ink(events) == inked(run_read(events)->Some_0.text),
        ink(run_read(events)->Some_0.style) == Seq::<char>::empty(),
    decreases events.len(),
{
    if events.len() > 0 {
        lemma_run_read_ink(events.drop_last());
        let before = run_read(events.drop_last())->Some_0;
        match events.last() {
            EventV::Text { text } => {
                if before.in_text {
                    lemma_inked_add(before.text, text);
                } else {
                    lemma_inked_blank(text);
                }
            },
            _ => {},
        }
        assert(before.style.push(events.last()).drop_last() =~= before.style);
        assert(ink(events) =~= inked(run_read(events)->Some_0.text));
    }
}

proof fn lemma_text_run_ink(events: Seq<EventV>)
    requires
        text_run(events) is Some,
    ensures
        ink(events) == inked(text_run(events)->Some_0.text),
        ink(text_run(events)->Some_0.style) == Seq::<char>::empty(),
{
    let inner = events.subrange(1, events.len() - 1);
    lemma_run_read_ink(inner);
    let head = seq![events[0]];
    let tail = seq![events.last()];
    assert(events =~= head + inner + tail);
    lemma_ink_add(head + inner, tail);
    lemma_ink_add(head, inner);
    reveal_with_fuel(ink, 2);
    assert(head.drop_last() =~= Seq::<EventV>::empty());
    assert(tail.drop_last() =~= Seq::<EventV>::empty());
    assert(ink(events) =~= ink(inner));
}

proof fn lemma_rendered_ink(run: TextRunV)
    requires
        ink(run.style) == Seq::<char>::empty(),
    ensures
        ink(run_rendered(run)) == inked(run.text),
{
    let all = run_rendered(run);
    let n = all.len() as int;
    let head = all.take(1);
    assert(all =~= head + run.style + all.skip(n - 4));
    lemma_ink_add(head + run.style, all.skip(n - 4));
    lemma_ink_add(head, run.style);
    reveal_with_fuel(ink, 5);
    let tail = all.skip(n - 4);
    assert(head.drop_last() =~= Seq::<EventV>::empty());
    assert(tail.drop_last().drop_last().drop_last().drop_last() =~= Seq::<EventV>::empty());
    assert(ink(all) =~= inked(run.text));
}

spec fn pending_ink(st: MergeV) -> Seq<char> {
    match st.pending {
        Some(run) => inked(run.text),
        None => Seq::empty(),
    }
}

spec fn pending_plain(st: MergeV) -> bool {
    match st.pending {
        Some(run) => ink(run.style) == Seq::<char>::empty(),
        None => true,
    }
}

proof fn lemma_flushed_ink(st: MergeV)
    requires
        pending_plain(st),
    ensures
        ink(merge_flushed(st).out) == ink(st.out) + pending_ink(st),
        merge_flushed(st).pending is None,
{
    match st.pending {
        Some(run) => {
            lemma_rendered_ink(run);
            lemma_ink_add(st.out, run_rendered(run));
        },
        None => {
            assert(ink(st.out) + pending_ink(st) =~= ink(st.out));
        },
    }
}

proof fn lemma_merge_run_ink(st: MergeV, run: Seq<EventV>)
    requires
        pending_plain(st),
    ensures
        pending_plain(merge_run(st, run)),
        ink(merge_run(st, run).out) + pending_ink(merge_run(st, run)) == ink(st.out) + pending_ink(st)
            + ink(run),
{
    lemma_flushed_ink(st);
    match text_run(run) {
        Some(next) => {
            lemma_text_run_ink(run);
            match st.pending {
                Some(prev) => {
                    lemma_inked_add(prev.text, next.text);
                },
                None => {},
            }
        },
        None => {
            lemma_ink_add(merge_flushed(st).out, run);
        },
    }
    assert(ink(merge_run(st, run).out) + pending_ink(merge_run(st, run)) =~= ink(st.out)
        + pending_ink(st) + ink(run));
}

proof fn lemma_merged_ink(st: MergeV, events: Seq<EventV>, i: int)
    requires
        0 <= i <= events.len(),
        pending_plain(st),
    ensures
        ink(merged_from(st, events, i)) == ink(st.out) + pending_ink(st) + ink(events.skip(i)),
    decreases events.len() - i,
{
    lemma_flushed_ink(st);
    if i >= events.len() {
        assert(events.skip(i) =~= Seq::<EventV>::empty());
        assert(ink(st.out) + pending_ink(st) + ink(events.skip(i)) =~= ink(st.out) + pending_ink(st));
    } else if opens_run(st, events[i]) {
        lemma_subtree_end(events, i, 0);
        let end = subtree_end(events, i, 0);
        let run = events.subrange(i, end);
        lemma_merge_run_ink(st, run);
        lemma_merged_ink(merge_run(st, run), events, end);
        lemma_ink_add(run, events.skip(end));
        assert(run + events.skip(end) =~= events.skip(i));
        assert(ink(merged_from(st, events, i)) =~= ink(st.out) + pending_ink(st) + ink(
            events.skip(i),
        ));
    } else {
        let next = merge_other(st, events[i]);
        lemma_merged_ink(next, events, i + 1);
        lemma_ink_add(seq![events[i]], events.skip(i + 1));
        assert(seq![events[i]] + events.skip(i + 1) =~= events.skip(i));
        reveal_with_fuel(ink, 2);
        assert(seq![events[i]].drop_last() =~= Seq::<EventV>::empty());
        assert(next.out.drop_last() =~= merge_flushed(st).out);
        assert(ink(merged_from(st, events, i)) =~= ink(st.out) + pending_ink(st) + ink(
            events.skip(i),
        ));
    }
}

/// Merging runs neither loses nor adds nor moves a character that is no whitespace.
pub proof fn law_merging_keeps_ink(events: Seq<EventV>)
    ensures
        ink(merged_runs(events)) == ink(events),
{
    let st = MergeV { out: Seq::empty(), stack: Seq::empty(), pending: None };
    lemma_merged_ink(st, events, 0);
    assert(events.skip(0) =~= events);
    assert(ink(st.out) + pending_ink(st) + ink(events) =~= ink(events));
}

/// The bytes of a part that the rules leave.
pub open spec fn part_filtered(rules: RulesV, e: EntryV) -> Result<Seq<u8>, DocxErrorV> {
    match parsed(e.data) {
        Err(error) => Err(DocxErrorV::Xml { part: e.name, error }),
        Ok(events) => match filtered(rules, e.name, events) {
            Err(fault) => Err(fault),
            Ok(left) => Ok(
                encode_utf8(
                    events_written(
                        if merges_runs(rules, e.name) {
                            merged_runs(left)
                        } else {
                            left
                        },
                    ),
                ),
            ),
        },
    }
}

/// The new data of the XML entries, the last of them first, before what is in `done`. An entry
/// without data keeps it.
pub open spec fn parts_filtered(
    rules: RulesV,
    entries: Seq<EntryV>,
    done: Seq<(Seq<char>, Seq<u8>)>,
) -> Result<Seq<(Seq<char>, Seq<u8>)>, DocxErrorV>
    decreases entries.len(),
{
    if entries.len() == 0 {
        Ok(done)
    } else {
        let e = entries[0];
        if e.data.len() == 0 {
            parts_filtered(rules, entries.drop_first(), done)
        } else {
            match part_filtered(rules, e) {
                Err(fault) => Err(fault),
                Ok(data) => parts_filtered(
                    rules,
                    entries.drop_first(),
                    seq![(e.name, data)] + done,
                ),
            }
        }
    }
}

/// The bytes of a document that the rules leave.
pub open spec fn docx_filtered(rules: RulesV, docx: Seq<u8>) -> Result<Seq<u8>, DocxErrorV> {
    match package_of(docx) {
        Err(fault) => Err(fault),
        Ok(entries) => match parts_filtered(rules, xml_only(entries), Seq::empty()) {
            Err(fault) => Err(fault),
            Ok(replacements) => packed(replacements, entries),
        },
    }
}

fn filter_entry(e: &DocxEntry, rules: &DocxFilterRules) -> (r: Result<Vec<u8>, DocxError>)
    ensures
        bytes_result(r) == part_filtered(rules.deep_view(), e.deep_view()),
{
    let mut part: XmlPart = match parse_xml_part(e.name.as_str(), e.data.as_slice()) {
        Ok(part) => part,
        Err(error) => {
            return Err(DocxError::Xml { part: e.name.clone(), error });
        },
    };
    match filter_xml_part(&mut part, rules) {
        Ok(_) => {},
        Err(fault) => {
            return Err(fault);
        },
    }
    if should_merge_runs_for_part(rules, part.name.as_str()) {
        part.events = merge_adjacent_text_runs_in_paragraphs(&part.events);
    }
    match write_xml_part(&part) {
        Ok(data) => Ok(data),
        Err(error) => Err(DocxError::Xml { part: e.name.clone(), error }),
    }
}

/// Cleans a document by rules.
pub fn filter_docx_with_rules(docx: &[u8], rules: &DocxFilterRules) -> (r: Result<
    Vec<u8>,
    DocxError,
>)
    ensures
        bytes_result(r) == docx_filtered(rules.deep_view(), docx@),
{
    let pkg: DocxPackage = match DocxPackage::read(docx) {
        Ok(pkg) => pkg,
        Err(fault) => {
            return Err(fault);
        },
    };
    let entries: Vec<&DocxEntry> = pkg.xml_entries();
    let ghost model = entries.deep_view();
    let mut replacements: Vec<(String, Vec<u8>)> = Vec::new();
    let mut i: usize = 0;
    assert(model.skip(0) =~= model);
    assert(replacements_view(replacements) =~= Seq::<(Seq<char>, Seq<u8>)>::empty());
    while i < entries.len()
        invariant
            i <= entries@.len(),
            model == entries.deep_view(),
            package_of(docx@) == Ok::<_, DocxErrorV>(pkg.deep_view()),
            model == xml_only(pkg.deep_view()),
            parts_filtered(
                rules.deep_view(),
                model.skip(i as int),
                replacements_view(replacements),
            ) == parts_filtered(rules.deep_view(), model, Seq::empty()),
        decreases entries@.len() - i,
    {
        let e: &DocxEntry = entries[i];
        assert(model[i as int] == e.deep_view());
        assert(model.skip(i as int).drop_first() =~= model.skip(i + 1));
        assert(model.skip(i as int)[0] == model[i as int]);
        if e.data.len() > 0 {
            let data: Vec<u8> = match filter_entry(e, rules) {
                Ok(data) => data,
                Err(fault) => {
                    return Err(fault);
                },
            };
            let ghost before = replacements_view(replacements);
            let ghost kv = (e.name@, data@);
            replacements.insert(0, (e.name.clone(), data));
            assert(replacements_view(replacements) =~= seq![kv] + before);
        }
        i = i + 1;
    }
    assert(model.skip(i as int) =~= Seq::<EntryV>::empty());
    pkg.write_with_replacements(&replacements)
}

} // verus!
