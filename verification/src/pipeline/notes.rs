//! What the model is asked of all paragraphs at once: notes on them, and whether they read well
//! together.

use crate::chars::{append, byte_len, byte_length, dec, dec_usize, has, join, joined_with, owned};
use crate::ir::{TranslationUnit, UnitV};
use crate::pipeline::job::{context_left, less_u32, within};
use crate::pipeline::memory::{NotesV, ParaNotes};
use crate::pipeline::stage::{is_paragraph_unit, paragraph_unit, places};
use crate::pipeline::text::{render_template, rendered, vars_view};
use crate::pipeline::units::{final_or_draft, final_text};
use std::collections::HashMap;
use vstd::prelude::*;

verus! {

broadcast use vstd::std_specs::hash::group_hash_axioms;

/// What the paragraphs are gone through for.
#[derive(Clone, Copy, Debug, PartialEq, Eq, Structural)]
pub enum Survey {
    /// Notes on each paragraph.
    Notes,
    /// Paragraphs that do not read well with those around them.
    Audit,
}

/// Paragraphs in groups, with the group that is open and the room it takes.
#[verifier::ext_equal]
pub struct GroupsV {
    pub groups: Seq<Seq<nat>>,
    pub open: Seq<nat>,
    pub used: nat,
}

/// The groups with the open one closed.
pub open spec fn groups_closed(g: GroupsV) -> GroupsV {
    if g.open.len() == 0 {
        g
    } else {
        GroupsV { groups: g.groups.push(g.open), open: Seq::empty(), used: 0 }
    }
}

/// How much room a paragraph takes.
pub open spec fn survey_room(survey: Survey, u: UnitV) -> nat {
    match survey {
        Survey::Notes => byte_len(u.frozen_surface) + 64,
        Survey::Audit => byte_len(u.frozen_surface) + byte_len(final_or_draft(u)) + 96,
    }
}

/// How much room a group has.
pub open spec fn group_room(survey: Survey, ctx: u32) -> int {
    match survey {
        Survey::Notes => context_left(ctx, 1400),
        Survey::Audit => context_left(ctx, 1800),
    }
}

/// Whether a group is full, as far as the number of its paragraphs goes.
pub open spec fn group_full(survey: Survey, n: nat) -> bool {
    survey == Survey::Notes && n >= 24
}

/// The paragraphs among the first `n` units, in groups.
pub open spec fn groups_of(survey: Survey, ctx: u32, units: Seq<UnitV>, n: int) -> GroupsV
    decreases n,
{
    if n <= 0 {
        GroupsV { groups: Seq::empty(), open: Seq::empty(), used: 0 }
    } else {
        let before = groups_of(survey, ctx, units, n - 1);
        let u = units[n - 1];
        if paragraph_unit(u) {
            let room = survey_room(survey, u);
            let g = if before.used + room > group_room(survey, ctx) || group_full(
                survey,
                before.open.len(),
            ) {
                groups_closed(before)
            } else {
                before
            };
            GroupsV { open: g.open.push((n - 1) as nat), used: g.used + room, ..g }
        } else {
            before
        }
    }
}

/// Groups of units.
pub open spec fn groups_view(v: Seq<Vec<usize>>) -> Seq<Seq<nat>> {
    v.map_values(|g: Vec<usize>| places(g@))
}

struct Groups {
    groups: Vec<Vec<usize>>,
    open: Vec<usize>,
    used: u128,
}

impl DeepView for Groups {
    type V = GroupsV;

    closed spec fn deep_view(&self) -> GroupsV {
        GroupsV {
            groups: groups_view(self.groups@),
            open: places(self.open@),
            used: self.used as nat,
        }
    }
}

impl Groups {
    fn close(&mut self)
        ensures
            final(self).deep_view() == groups_closed(old(self).deep_view()),
            final(self).open@.len() == 0,
            old(self).open@.len() > 0 ==> final(self).used == 0,
            old(self).open@.len() == 0 ==> final(self).used == old(self).used,
    {
        let ghost before = self.deep_view();
        if self.open.len() > 0 {
            let mut g: Vec<usize> = Vec::new();
            std::mem::swap(&mut g, &mut self.open);
            self.groups.push(g);
            self.used = 0;
            assert(groups_view(self.groups@) =~= before.groups.push(before.open));
        }
        assert(self.deep_view() =~= groups_closed(before));
    }
}

fn room_for(survey: Survey, u: &TranslationUnit) -> (r: u128)
    ensures
        r == survey_room(survey, u.deep_view()),
        r <= 0x10_0000_0000_0000_0000,
{
    let n: u128 = byte_length(u.frozen_surface.as_str()) as u128;
    match survey {
        Survey::Notes => n + 64,
        Survey::Audit => n + byte_length(final_text(u)) as u128 + 96,
    }
}

/// The paragraphs in groups, as they go to the model.
pub fn survey_groups(survey: Survey, ctx_size: u32, units: &Vec<TranslationUnit>) -> (r: Vec<Vec<usize>>)
    ensures
        groups_view(r@) == groups_closed(
            groups_of(survey, ctx_size, units.deep_view(), units@.len() as int),
        ).groups,
        forall|i: int|
            0 <= i < r@.len() ==> (forall|k: int|
                0 <= k < r@[i]@.len() ==> #[trigger] r@[i]@[k] < units@.len()) && (#[trigger] r@[i])@.len()
                > 0,
{
    let ghost model = units.deep_view();
    let max: u128 = match survey {
        Survey::Notes => less_u32(ctx_size, 1400) as u128,
        Survey::Audit => less_u32(ctx_size, 1800) as u128,
    };
    let mut g = Groups { groups: Vec::new(), open: Vec::new(), used: 0 };
    assert(g.deep_view() =~= groups_of(survey, ctx_size, model, 0));
    let mut i: usize = 0;
    while i < units.len()
        invariant
            i <= units@.len(),
            model == units.deep_view(),
            max == group_room(survey, ctx_size),
            g.used <= 0x10_0000_0000_0000_0000,
            g.open@.len() == 0 ==> g.used == 0,
            g.deep_view() == groups_of(survey, ctx_size, model, i as int),
            forall|k: int| 0 <= k < g.open@.len() ==> #[trigger] g.open@[k] < units@.len(),
            forall|j: int|
                0 <= j < g.groups@.len() ==> (forall|k: int|
                    0 <= k < g.groups@[j]@.len() ==> #[trigger] g.groups@[j]@[k] < units@.len()) && (
                #[trigger] g.groups@[j])@.len() > 0,
        decreases units@.len() - i,
    {
        assert(model[i as int] == units@[i as int].deep_view());
        if is_paragraph_unit(&units[i]) {
            let room: u128 = room_for(survey, &units[i]);
            let full: bool = survey == Survey::Notes && g.open.len() >= 24;
            if g.used + room > max || full {
                let ghost opened = g.open@;
                let ghost closed = g.groups@;
                g.close();
                proof {
                    if opened.len() > 0 {
                        assert(groups_view(g.groups@).last() == places(opened));
                        lemma_places_same(g.groups@, closed, opened);
                    } else {
                        lemma_groups_same(g.groups@, closed);
                    }
                }
            }
            let ghost mid = g.deep_view();
            g.used = g.used + room;
            g.open.push(i);
            assert(places(g.open@) =~= mid.open.push(i as nat));
        }
        i = i + 1;
        assert(g.deep_view() =~= groups_of(survey, ctx_size, model, i as int));
    }
    let ghost opened = g.open@;
    let ghost closed = g.groups@;
    g.close();
    proof {
        if opened.len() > 0 {
            lemma_places_same(g.groups@, closed, opened);
        } else {
            lemma_groups_same(g.groups@, closed);
        }
    }
    g.groups
}

proof fn lemma_groups_same(a: Seq<Vec<usize>>, b: Seq<Vec<usize>>)
    requires
        groups_view(a) == groups_view(b),
    ensures
        a.len() == b.len(),
        forall|j: int| 0 <= j < a.len() ==> (#[trigger] a[j])@ == b[j]@,
{
    assert(groups_view(a).len() == a.len());
    assert forall|j: int| 0 <= j < a.len() implies (#[trigger] a[j])@ == b[j]@ by {
        assert(groups_view(a)[j] == places(a[j]@));
        assert(groups_view(b)[j] == places(b[j]@));
        lemma_places_inject(a[j]@, b[j]@);
    }
}

proof fn lemma_places_inject(a: Seq<usize>, b: Seq<usize>)
    requires
        places(a) == places(b),
    ensures
        a == b,
{
    assert(places(a).len() == a.len());
    assert forall|k: int| 0 <= k < a.len() implies a[k] == b[k] by {
        assert(places(a)[k] == a[k] as nat);
        assert(places(b)[k] == b[k] as nat);
    }
    assert(a =~= b);
}

proof fn lemma_places_same(a: Seq<Vec<usize>>, closed: Seq<Vec<usize>>, opened: Seq<usize>)
    requires
        groups_view(a) == groups_view(closed).push(places(opened)),
    ensures
        a.len() == closed.len() + 1,
        a.last()@ == opened,
        forall|j: int| 0 <= j < closed.len() ==> (#[trigger] a[j])@ == closed[j]@,
{
    assert(groups_view(a).len() == a.len());
    assert(groups_view(a)[a.len() - 1] == places(a.last()@));
    lemma_places_inject(a.last()@, opened);
    assert forall|j: int| 0 <= j < closed.len() implies (#[trigger] a[j])@ == closed[j]@ by {
        assert(groups_view(a)[j] == places(a[j]@));
        assert(groups_view(closed)[j] == places(closed[j]@));
        lemma_places_inject(a[j]@, closed[j]@);
    }
}

/// A paragraph in the text of a prompt.
pub open spec fn survey_entry(survey: Survey, u: UnitV) -> Seq<char> {
    match survey {
        Survey::Notes => "TU#"@ + dec(u.tu_id) + ":\n"@ + u.frozen_surface + "\n"@,
        Survey::Audit => "TU#"@ + dec(u.tu_id) + " SOURCE:\n"@ + u.frozen_surface + "\nTU#"@ + dec(
            u.tu_id,
        ) + " CURRENT:\n"@ + final_or_draft(u) + "\n"@,
    }
}

/// What the model is told of a group of paragraphs.
pub open spec fn survey_asked(
    survey: Survey,
    template: Seq<char>,
    target_lang: Seq<char>,
    units: Seq<UnitV>,
    group: Seq<nat>,
) -> Seq<char> {
    let block = joined_with(
        group.map_values(|i: nat| survey_entry(survey, units[i as int])),
        "\n"@,
    );
    match survey {
        Survey::Notes => rendered(
            template,
            seq![("target_lang"@, target_lang), ("tu_block"@, block)],
        ),
        Survey::Audit => rendered(
            template,
            seq![("tu_block"@, block), ("target_lang"@, target_lang)],
        ),
    }
}

fn entry_of(survey: Survey, u: &TranslationUnit) -> (r: String)
    ensures
        r@ == survey_entry(survey, u.deep_view()),
{
    let n: String = dec_usize(u.tu_id);
    let mut s: String = owned("TU#");
    append(&mut s, n.as_str());
    match survey {
        Survey::Notes => {
            append(&mut s, ":\n");
            append(&mut s, u.frozen_surface.as_str());
            append(&mut s, "\n");
        },
        Survey::Audit => {
            append(&mut s, " SOURCE:\n");
            append(&mut s, u.frozen_surface.as_str());
            append(&mut s, "\nTU#");
            append(&mut s, n.as_str());
            append(&mut s, " CURRENT:\n");
            append(&mut s, final_text(u));
            append(&mut s, "\n");
        },
    }
    s
}

/// What the model is told of a group of paragraphs.
pub fn survey_prompt(
    survey: Survey,
    template: &str,
    target_lang: &str,
    units: &Vec<TranslationUnit>,
    group: &Vec<usize>,
) -> (r: String)
    requires
        forall|k: int| 0 <= k < group@.len() ==> #[trigger] group@[k] < units@.len(),
    ensures
        r@ == survey_asked(
            survey,
            template@,
            target_lang@,
            units.deep_view(),
            places(group@),
        ),
{
    let ghost us = units.deep_view();
    let ghost want = places(group@).map_values(|i: nat| survey_entry(survey, us[i as int]));
    let mut entries: Vec<String> = Vec::new();
    let mut k: usize = 0;
    while k < group.len()
        invariant
            k <= group@.len(),
            us == units.deep_view(),
            want == places(group@).map_values(|i: nat| survey_entry(survey, us[i as int])),
            forall|j: int| 0 <= j < group@.len() ==> #[trigger] group@[j] < units@.len(),
            entries@.len() == k,
            forall|j: int| 0 <= j < k ==> (#[trigger] entries@[j])@ == want[j],
        decreases group@.len() - k,
    {
        let i: usize = group[k];
        assert(places(group@)[k as int] == i as nat);
        assert(us[i as int] == units@[i as int].deep_view());
        entries.push(entry_of(survey, &units[i]));
        k = k + 1;
    }
    assert(entries.deep_view() =~= want);
    let block: String = join(&entries, "\n");
    let mut vars: Vec<(&str, &str)> = Vec::new();
    match survey {
        Survey::Notes => {
            vars.push(("target_lang", target_lang));
            vars.push(("tu_block", block.as_str()));
            assert(vars_view(vars@) =~= seq![
                ("target_lang"@, target_lang@),
                ("tu_block"@, block@),
            ]);
        },
        Survey::Audit => {
            vars.push(("tu_block", block.as_str()));
            vars.push(("target_lang", target_lang));
            assert(vars_view(vars@) =~= seq![
                ("tu_block"@, block@),
                ("target_lang"@, target_lang@),
            ]);
        },
    }
    render_template(template, &vars)
}

/// How long the reply for a group may be.
pub fn survey_tokens(survey: Survey, group: &Vec<usize>) -> (r: u32)
    ensures
        r == (match survey {
            Survey::Notes => within(140 * group@.len() as int, 900, 3600),
            Survey::Audit => 2400,
        }),
{
    match survey {
        Survey::Notes => {
            let n: usize = group.len();
            if n < 7 {
                900
            } else if n > 25 {
                3600
            } else {
                140 * (n as u32)
            }
        },
        Survey::Audit => 2400,
    }
}

/// Whether a run goes on where the reply about a group holds no object: it does without the notes,
/// and does not do without an audit.
pub fn goes_on_without(survey: Survey) -> (r: bool)
    ensures
        r == (survey is Notes),
{
    match survey {
        Survey::Notes => true,
        Survey::Audit => false,
    }
}

/// What the model noted of a paragraph, by its number.
pub struct NoteItem {
    pub tu_id: usize,
    pub understanding: String,
    pub proper_nouns: Vec<String>,
    pub terms: Vec<String>,
}

/// The notes by number.
pub open spec fn notes_map(m: Map<usize, ParaNotes>) -> Map<usize, NotesV> {
    m.map_values(|n: ParaNotes| n.deep_view())
}

/// The notes of an item.
pub open spec fn item_notes(item: NoteItem) -> NotesV {
    NotesV {
        understanding: Some(item.understanding@),
        proper_nouns: item.proper_nouns.deep_view(),
        terms: item.terms.deep_view(),
    }
}

/// The notes with those of items added, the later ones in place of the earlier.
pub open spec fn notes_recorded(m: Map<usize, NotesV>, items: Seq<NoteItem>) -> Map<usize, NotesV>
    decreases items.len(),
{
    if items.len() == 0 {
        m
    } else {
        notes_recorded(m, items.drop_last()).insert(items.last().tu_id, item_notes(items.last()))
    }
}

/// Adds the notes of items.
pub fn record_notes(notes: &mut HashMap<usize, ParaNotes>, items: &Vec<NoteItem>)
    ensures
        notes_map(final(notes)@) == notes_recorded(notes_map(old(notes)@), items@),
{
    let ghost start = notes_map(notes@);
    let mut i: usize = 0;
    assert(items@.take(0) =~= Seq::<NoteItem>::empty());
    while i < items.len()
        invariant
            i <= items@.len(),
            notes_map(notes@) == notes_recorded(start, items@.take(i as int)),
        decreases items@.len() - i,
    {
        assert(items@.take(i + 1).drop_last() =~= items@.take(i as int));
        let item: &NoteItem = &items[i];
        let ghost before = notes_map(notes@);
        let n = ParaNotes {
            understanding: Some(item.understanding.clone()),
            proper_nouns: crate::vecs::clone_strings(&item.proper_nouns),
            terms: crate::vecs::clone_strings(&item.terms),
        };
        assert(n.deep_view() =~= item_notes(*item));
        notes.insert(item.tu_id, n);
        assert(notes_map(notes@) =~= before.insert(item.tu_id, item_notes(*item)));
        i = i + 1;
    }
    assert(items@.take(i as int) =~= items@);
}

/// The members of groups, one group after another.
pub open spec fn members(groups: Seq<Seq<nat>>) -> Seq<nat>
    decreases groups.len(),
{
    if groups.len() == 0 {
        Seq::empty()
    } else {
        members(groups.drop_last()) + groups.last()
    }
}

/// The places before `n` of units that are paragraphs.
pub open spec fn paragraph_places(units: Seq<UnitV>, n: int) -> Seq<nat>
    decreases n,
{
    if n <= 0 {
        Seq::empty()
    } else if has(units[n - 1].scope_key, "#w:p"@) || has(units[n - 1].scope_key, "#a:p"@) {
        paragraph_places(units, n - 1).push((n - 1) as nat)
    } else {
        paragraph_places(units, n - 1)
    }
}

proof fn lemma_groups_cover(survey: Survey, ctx: u32, units: Seq<UnitV>, n: int)
    ensures
        ({
            let g = groups_of(survey, ctx, units, n);
            &&& members(g.groups) + g.open == paragraph_places(units, n)
            &&& forall|k: int|
                0 <= k < g.groups.len() ==> (#[trigger] g.groups[k]).len() > 0 && (survey
                    == Survey::Notes ==> g.groups[k].len() <= 24)
            &&& survey == Survey::Notes ==> g.open.len() <= 24
        }),
    decreases n,
{
    let g = groups_of(survey, ctx, units, n);
    if n > 0 {
        lemma_groups_cover(survey, ctx, units, n - 1);
        let before = groups_of(survey, ctx, units, n - 1);
        let shut = groups_closed(before);
        assert(shut.groups.drop_last() =~= before.groups || shut.groups == before.groups);
        assert(members(shut.groups) + shut.open =~= members(before.groups) + before.open);
        let all = members(before.groups) + before.open;
        let i = (n - 1) as nat;
        assert(members(before.groups) + before.open.push(i) =~= all.push(i));
        assert(members(shut.groups) + shut.open.push(i) =~= all.push(i));
    } else {
        assert(members(g.groups) + g.open =~= paragraph_places(units, n));
    }
}

/// The groups in which the paragraphs are gone through hold all of them, each once and in their order,
/// no group is empty, and none has more than 24 where notes are taken.
pub proof fn law_groups_cover(survey: Survey, ctx: u32, units: Seq<UnitV>)
    ensures
        ({
            let g = groups_closed(groups_of(survey, ctx, units, units.len() as int));
            &&& members(g.groups) == paragraph_places(units, units.len() as int)
            &&& forall|k: int|
                0 <= k < g.groups.len() ==> (#[trigger] g.groups[k]).len() > 0 && (survey
                    == Survey::Notes ==> g.groups[k].len() <= 24)
        }),
{
    let n = units.len() as int;
    lemma_groups_cover(survey, ctx, units, n);
    let before = groups_of(survey, ctx, units, n);
    let shut = groups_closed(before);
    assert(shut.groups.drop_last() =~= before.groups || shut.groups == before.groups);
    assert(members(shut.groups) =~= members(before.groups) + before.open);
}

/// The last note on a unit is the one that is kept, and notes on other units stay.
pub proof fn law_notes_are_kept(m: Map<usize, NotesV>, items: Seq<NoteItem>, k: int, id: usize)
    ensures
        0 <= k < items.len() && (forall|j: int|
            k < j < items.len() ==> (#[trigger] items[j]).tu_id != items[k].tu_id) ==> {
            let r = notes_recorded(m, items);
            &&& r.contains_key(items[k].tu_id)
            &&& r[items[k].tu_id].understanding == Some(items[k].understanding@)
            &&& r[items[k].tu_id].proper_nouns == items[k].proper_nouns.deep_view()
            &&& r[items[k].tu_id].terms == items[k].terms.deep_view()
        },
        (forall|j: int| 0 <= j < items.len() ==> (#[trigger] items[j]).tu_id != id) ==> (
        notes_recorded(m, items).contains_key(id) <==> m.contains_key(id)) && (m.contains_key(id)
            ==> notes_recorded(m, items)[id] == m[id]),
    decreases items.len(),
{
    if items.len() > 0 {
        let front = items.drop_last();
        law_notes_are_kept(m, front, k, id);
        assert(forall|j: int| 0 <= j < front.len() ==> #[trigger] front[j] == items[j]);
        let z = items.len() - 1;
        assert(items[z] == items.last());
    }
}

} // verus!
