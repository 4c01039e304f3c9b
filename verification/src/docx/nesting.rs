//! How the nodes of an outline stand under one another.

use crate::chars::{ascii_lower, ascii_lower_char, begins, dec, is_digit, lemma_dec, trimmed};
use crate::docx::pure_text::ParaV;
use crate::docx::structure::{
    bare_item, build_ok, item_level, lemma_added_ok, lemma_deepened_ok, lemma_first_digit,
    lemma_heading_level, lemma_nested_ok, lemma_opened_ok, lemma_placed_ok, list_cut, list_deepened,
    list_item, list_nested, list_opened, names_of, node_added, outline, para_heading, para_item, para_placed,
    paras_in, part_built, parts_built, style_heading, table_ok, tree_at, BuildV, ItemV, LocV, NodeV,
    StructureNodeKind, TreeV,
};
use vstd::prelude::*;

verus! {

/// The level of the heading that a paragraph at a place is: by its outline level, or else by its
/// style.
pub open spec fn heading_at(loc: LocV) -> Option<int> {
    match loc.outline_lvl {
        Some(lvl) if lvl >= 0 => Some(lvl + 1),
        _ => match loc.p_style {
            Some(s) => match style_heading(trimmed(s)) {
                Some(n) => Some(n as int),
                None => None,
            },
            None => None,
        },
    }
}

/// The level of the heading that a node is.
pub open spec fn level_of(item: ItemV) -> int {
    match item.loc {
        Some(loc) => match heading_at(loc) {
            Some(n) => n,
            None => 0,
        },
        None => 0,
    }
}

/// The level of a list item: none is above the first.
pub open spec fn row_level(item: ItemV) -> int {
    match item.ilvl {
        Some(l) if l > 0 => l,
        _ => 0,
    }
}

/// Whether a node that stands for a paragraph is what the place of the paragraph says: a heading by its
/// outline level or style, else an item where the place has a list and a level, and else a plain
/// paragraph.
pub open spec fn as_its_place(item: ItemV) -> bool {
    item.loc matches Some(loc) ==> {
        &&& item.num_id == loc.num_id
        &&& item.ilvl == loc.num_ilvl
        &&& item.kind == (if heading_at(loc) is Some {
            StructureNodeKind::Heading
        } else if loc.num_id is Some && loc.num_ilvl is Some {
            StructureNodeKind::ListItem
        } else {
            StructureNodeKind::Paragraph
        })
        &&& item.heading_level == (match heading_at(loc) {
            Some(n) => Some((n % 0x1_0000_0000) as u32),
            None => None,
        })
    }
}

/// Whether a node is a part or a heading.
pub open spec fn section(item: ItemV) -> bool {
    item.kind == StructureNodeKind::Part || item.kind == StructureNodeKind::Heading
}

/// Whether a node may stand directly under another: a part under the root; a heading, a paragraph and
/// a list under a part or a heading; an item under a list of its own number and of its level; and a
/// list under an item of its number that is one level above it.
pub open spec fn kin(up: ItemV, down: ItemV) -> bool {
    match down.kind {
        StructureNodeKind::Root => false,
        StructureNodeKind::Part => up.kind == StructureNodeKind::Root,
        StructureNodeKind::Heading | StructureNodeKind::Paragraph => section(up),
        StructureNodeKind::List => section(up) || (up.kind == StructureNodeKind::ListItem
            && up.num_id == down.num_id && down.ilvl == Some(row_level(up) + 1)),
        StructureNodeKind::ListItem => up.kind == StructureNodeKind::List && down.num_id is Some
            && up.num_id == down.num_id && up.ilvl == Some(row_level(down)),
    }
}

/// Whether the nodes of a tree whose root has the depth `d` stand as they should. Under a part or a
/// heading all that is no heading comes before the headings. A heading is no deeper than its level,
/// and those after the first under one node are exactly as deep.
pub open spec fn nested(t: TreeV, d: int) -> bool
    decreases t,
{
    &&& as_its_place(t.item)
    &&& forall|k: int|
        0 <= k < t.children.len() ==> {
            let c = (#[trigger] t.children[k]).item;
            &&& kin(t.item, c)
            &&& c.kind == StructureNodeKind::Heading ==> d + 1 <= level_of(c)
        }
    &&& forall|k: int, l: int|
        0 <= k < l < t.children.len() && (#[trigger] t.children[k]).item.kind
            == StructureNodeKind::Heading ==> {
            let c = (#[trigger] t.children[l]).item;
            c.kind == StructureNodeKind::Heading && level_of(c) == d + 1
        }
    &&& all_nested(t.children, d + 1)
}

/// Whether the nodes of trees whose roots have the depth `d` stand as they should.
pub open spec fn all_nested(ts: Seq<TreeV>, d: int) -> bool
    decreases ts,
{
    ts.len() == 0 || all_nested(ts.subrange(0, ts.len() - 1), d) && nested(ts[ts.len() - 1], d)
}

/// Whether the nodes of a table stand as they should, where `depths` has the depths of the parts and
/// headings.
spec fn table_nested(table: Seq<NodeV>, depths: Seq<int>) -> bool {
    &&& table_ok(table)
    &&& depths.len() == table.len()
    &&& forall|i: int| 0 <= i < table.len() ==> as_its_place(#[trigger] table[i].item)
    &&& forall|i: int, k: int|
        0 <= i < table.len() && 0 <= k < table[i].children.len() ==> {
            let c = #[trigger] table[i].children[k] as int;
            &&& kin(table[i].item, table[c].item)
            &&& section(table[c].item) ==> depths[c] == depths[i] + 1
            &&& table[c].item.kind == StructureNodeKind::Heading ==> depths[i] + 1 <= level_of(
                table[c].item,
            )
        }
    &&& forall|i: int, k: int, l: int|
        0 <= i < table.len() && 0 <= k < l < table[i].children.len() && table[
            #[trigger] table[i].children[k] as int].item.kind == StructureNodeKind::Heading ==> {
            let c = table[#[trigger] table[i].children[l] as int].item;
            c.kind == StructureNodeKind::Heading && level_of(c) == depths[i] + 1
        }
}

/// Whether no heading stands directly under the node at `i`.
spec fn no_heading_under(table: Seq<NodeV>, i: int) -> bool {
    forall|k: int|
        0 <= k < table[i].children.len() ==> table[
            #[trigger] table[i].children[k] as int].item.kind != StructureNodeKind::Heading
}

proof fn lemma_added_frame(table: Seq<NodeV>, parent: nat, item: ItemV)
    requires
        table_ok(table),
        parent < table.len(),
    ensures
        ({
            let after = node_added(table, Some(parent), item);
            &&& table_ok(after)
            &&& after.len() == table.len() + 1
            &&& forall|i: int| 0 <= i < table.len() ==> #[trigger] after[i].item == table[i].item
            &&& forall|i: int|
                0 <= i < table.len() && i != parent ==> #[trigger] after[i] == table[i]
            &&& after[parent as int].children == table[parent as int].children.push(table.len())
            &&& after[table.len() as int].item == item
            &&& after[table.len() as int].children.len() == 0
        }),
{
    lemma_added_ok(table, Some(parent), item);
}

proof fn lemma_added_nested(
    table: Seq<NodeV>,
    depths: Seq<int>,
    parent: nat,
    item: ItemV,
    depth: int,
)
    requires
        table_nested(table, depths),
        parent < table.len(),
        kin(table[parent as int].item, item),
        as_its_place(item),
        section(item) ==> depth == depths[parent as int] + 1,
        item.kind == StructureNodeKind::Heading ==> depth <= level_of(item),
        no_heading_under(table, parent as int) || (item.kind == StructureNodeKind::Heading
            && level_of(item) == depth),
    ensures
        table_nested(node_added(table, Some(parent), item), depths.push(depth)),
{
    let after = node_added(table, Some(parent), item);
    let more = depths.push(depth);
    lemma_added_frame(table, parent, item);
    assert forall|i: int| 0 <= i < after.len() implies as_its_place(#[trigger] after[i].item) by {
        if i < table.len() {
            assert(as_its_place(table[i].item));
        }
    }
    assert forall|i: int, k: int| 0 <= i < after.len() && 0 <= k < after[i].children.len() implies {
        let c = #[trigger] after[i].children[k] as int;
        &&& kin(after[i].item, after[c].item)
        &&& section(after[c].item) ==> more[c] == more[i] + 1
        &&& after[c].item.kind == StructureNodeKind::Heading ==> more[i] + 1 <= level_of(
            after[c].item,
        )
    } by {
        if i < table.len() {
            if k < table[i].children.len() {
                let c = table[i].children[k] as int;
                assert(i < c < table.len());
                assert(after[i].children[k] == c);
            }
        }
    }
    assert forall|i: int, k: int, l: int|
        0 <= i < after.len() && 0 <= k < l < after[i].children.len() && after[
            #[trigger] after[i].children[k] as int].item.kind
            == StructureNodeKind::Heading implies {
        let c = after[#[trigger] after[i].children[l] as int].item;
        c.kind == StructureNodeKind::Heading && level_of(c) == more[i] + 1
    } by {
        assert(i < table.len());
        let a = table[i].children[k] as int;
        assert(i < a < table.len());
        assert(after[i].children[k] == a);
        assert(table[a].item.kind == StructureNodeKind::Heading);
        if l < table[i].children.len() {
            let b = table[i].children[l] as int;
            assert(i < b < table.len());
            assert(after[i].children[l] == b);
        }
    }
}

/// Whether what is open while an outline is built stands as it should: the part and the headings each
/// under the one before, with no heading under the last, and the lists and their last items each of
/// its level and of one number.
spec fn build_nested(st: BuildV, depths: Seq<int>) -> bool {
    let n = st.sections.len() as int;
    &&& build_ok(st)
    &&& table_nested(st.table, depths)
    &&& st.table[0].item.kind == StructureNodeKind::Root
    &&& depths[0] == -1
    &&& forall|k: int|
        0 <= k < n ==> {
            let s = #[trigger] st.sections[k] as int;
            &&& section(st.table[s].item)
            &&& depths[s] == k
        }
    &&& no_heading_under(st.table, st.sections[n - 1] as int)
    &&& forall|k: int|
        0 <= k < st.list.lists.len() ==> {
            let item = st.table[#[trigger] st.list.lists[k] as int].item;
            &&& st.list.num_id is Some
            &&& item == list_item(st.list.num_id->Some_0, k)
        }
    &&& forall|k: int|
        0 <= k < st.list.items.len() ==> (#[trigger] st.list.items[k] matches Some(i) ==> {
            let item = st.table[i as int].item;
            &&& item.kind == StructureNodeKind::ListItem
            &&& item.num_id == st.list.num_id
            &&& row_level(item) == k
        })
}

/// What adds a node that is no heading under the last heading, or under what is no section.
proof fn lemma_leaf_nested(st: BuildV, depths: Seq<int>, parent: nat, item: ItemV)
    requires
        build_nested(st, depths),
        parent < st.table.len(),
        parent == st.sections.last() || !section(st.table[parent as int].item),
        kin(st.table[parent as int].item, item),
        as_its_place(item),
        !section(item),
    ensures
        build_nested(
            BuildV { table: node_added(st.table, Some(parent), item), ..st },
            depths.push(0),
        ),
{
    let table = st.table;
    let after = node_added(table, Some(parent), item);
    lemma_added_frame(table, parent, item);
    assert(no_heading_under(table, parent as int)) by {
        if !section(table[parent as int].item) {
            assert forall|k: int| 0 <= k < table[parent as int].children.len() implies table[
                #[trigger] table[parent as int].children[k] as int].item.kind
                != StructureNodeKind::Heading by {
                assert(kin(
                    table[parent as int].item,
                    table[table[parent as int].children[k] as int].item,
                ));
            }
        }
    }
    lemma_added_nested(table, depths, parent, item, 0);
    let last = st.sections.last() as int;
    assert(no_heading_under(after, last)) by {
        assert forall|k: int| 0 <= k < after[last].children.len() implies after[
            #[trigger] after[last].children[k] as int].item.kind != StructureNodeKind::Heading by {
            if k < table[last].children.len() {
                let c = table[last].children[k] as int;
                assert(last < c < table.len());
                assert(after[last].children[k] == c);
            }
        }
    }
}

proof fn lemma_deepened_nested(st: BuildV, depths: Seq<int>, num_id: int, level: nat) -> (r: Seq<
    int,
>)
    requires
        build_nested(st, depths),
        st.list.lists.len() > 0,
        st.list.num_id == Some(num_id),
    ensures
        build_nested(list_deepened(st, num_id, level), r),
        list_deepened(st, num_id, level).list.num_id == Some(num_id),
    decreases level + 1 - st.list.lists.len(),
{
    if st.list.lists.len() < level + 1 {
        let n = st.list.lists.len();
        let under = match st.list.items[n - 1] {
            Some(item) => item,
            None => st.sections.last(),
        };
        let item = list_item(num_id, n as int);
        lemma_nested_ok(st, num_id);
        lemma_leaf_nested(st, depths, under, item);
        lemma_added_frame(st.table, under, item);
        let next = list_nested(st, num_id);
        assert(build_nested(next, depths.push(0)));
        lemma_deepened_nested(next, depths.push(0), num_id, level)
    } else {
        depths
    }
}

proof fn lemma_item_nested(st: BuildV, depths: Seq<int>, p: ParaV, num_id: int, ilvl: int) -> (r: Seq<
    int,
>)
    requires
        build_nested(st, depths),
        para_heading(p) is None,
        p.num_id == Some(num_id),
        p.num_ilvl == Some(ilvl),
    ensures
        build_nested(para_placed(st, p), r),
{
    let level = item_level(ilvl);
    let opened = list_opened(st, p, num_id);
    lemma_opened_ok(st, p, num_id);
    lemma_added_frame(st.table, st.sections.last(), list_item(num_id, 0));
    lemma_leaf_nested(st, depths, st.sections.last(), list_item(num_id, 0));
    let d1 = if opened == st {
        depths
    } else {
        depths.push(0)
    };
    assert(build_nested(opened, d1));
    let cut = list_cut(opened, level);
    assert(build_nested(cut, d1));
    lemma_deepened_ok(cut, num_id, level);
    let d2 = lemma_deepened_nested(cut, d1, num_id, level);
    let deep = list_deepened(cut, num_id, level);
    let item = para_item(StructureNodeKind::ListItem, None, p);
    assert(deep.list.lists[level as int] == deep.list.lists.last());
    lemma_leaf_nested(deep, d2, deep.list.lists.last(), item);
    lemma_added_frame(deep.table, deep.list.lists.last(), item);
    assert(row_level(item) == level);
    assert(build_nested(para_placed(st, p), d2.push(0)));
    d2.push(0)
}

proof fn lemma_heading_nested(st: BuildV, depths: Seq<int>, p: ParaV, level: nat) -> (r: Seq<int>)
    requires
        build_nested(st, depths),
        para_heading(p) == Some(level),
    ensures
        build_nested(para_placed(st, p), r),
{
    lemma_heading_level(p);
    lemma_placed_ok(st, p);
    let sections = if st.sections.len() > level {
        st.sections.take(level as int)
    } else {
        st.sections
    };
    let item = para_item(StructureNodeKind::Heading, Some((level % 0x1_0000_0000) as u32), p);
    let parent = sections.last();
    let depth = sections.len() as int;
    assert(parent == st.sections[depth - 1]);
    lemma_added_nested(st.table, depths, parent, item, depth);
    lemma_added_frame(st.table, parent, item);
    let after = para_placed(st, p);
    let more = depths.push(depth);
    assert forall|k: int| 0 <= k < after.sections.len() implies {
        let s = #[trigger] after.sections[k] as int;
        &&& section(after.table[s].item)
        &&& more[s] == k
    } by {
        if k < sections.len() {
            assert(after.sections[k] == st.sections[k]);
        }
    }
    more
}

proof fn lemma_placed_nested(st: BuildV, depths: Seq<int>, p: ParaV) -> (r: Seq<int>)
    requires
        build_nested(st, depths),
    ensures
        build_nested(para_placed(st, p), r),
{
    lemma_placed_ok(st, p);
    match para_heading(p) {
        Some(level) => lemma_heading_nested(st, depths, p, level),
        None => match (p.num_id, p.num_ilvl) {
            (Some(num_id), Some(ilvl)) => lemma_item_nested(st, depths, p, num_id, ilvl),
            _ => {
                let item = para_item(StructureNodeKind::Paragraph, None, p);
                lemma_leaf_nested(st, depths, st.sections.last(), item);
                assert(build_nested(para_placed(st, p), depths.push(0)));
                depths.push(0)
            },
        },
    }
}

proof fn lemma_part_nested(table: Seq<NodeV>, depths: Seq<int>, part: nat, paras: Seq<ParaV>) -> (r:
    Seq<int>)
    requires
        table_nested(table, depths),
        part < table.len(),
        table[part as int].item.kind == StructureNodeKind::Part,
        table[part as int].children.len() == 0,
        depths[part as int] == 0,
        table[0].item.kind == StructureNodeKind::Root,
        depths[0] == -1,
    ensures
        build_nested(part_built(table, part, paras), r),
    decreases paras.len(),
{
    if paras.len() == 0 {
        depths
    } else {
        let d = lemma_part_nested(table, depths, part, paras.drop_last());
        lemma_placed_nested(part_built(table, part, paras.drop_last()), d, paras.last())
    }
}

proof fn lemma_parts_nested(paras: Seq<ParaV>, names: Seq<Seq<char>>) -> (r: Seq<int>)
    ensures
        table_nested(parts_built(paras, names), r),
        parts_built(paras, names)[0].item.kind == StructureNodeKind::Root,
        r[0] == -1,
        parts_built(paras, names).len() > 0,
    decreases names.len(),
{
    let table = parts_built(paras, names);
    if names.len() == 0 {
        assert(table.len() == 1 && table[0].children.len() == 0);
        seq![-1int]
    } else {
        let before = parts_built(paras, names.drop_last());
        let d = lemma_parts_nested(paras, names.drop_last());
        let item = ItemV {
            part_name: Some(names.last()),
            ..bare_item(StructureNodeKind::Part)
        };
        assert(no_heading_under(before, 0)) by {
            assert forall|k: int| 0 <= k < before[0].children.len() implies before[
                #[trigger] before[0].children[k] as int].item.kind != StructureNodeKind::Heading by {
                assert(kin(before[0].item, before[before[0].children[k] as int].item));
            }
        }
        lemma_added_nested(before, d, 0, item, 0);
        lemma_added_frame(before, 0, item);
        let base = node_added(before, Some(0), item);
        lemma_part_nested(base, d.push(0), before.len(), paras_in(paras, names.last()))
    }
}

proof fn lemma_tree_nested(table: Seq<NodeV>, depths: Seq<int>, i: int, d: int)
    requires
        table_nested(table, depths),
        0 <= i < table.len(),
        section(table[i].item) || table[i].item.kind == StructureNodeKind::Root ==> d == depths[i],
    ensures
        nested(tree_at(table, i), d),
    decreases table.len() - i, table[i].children.len() + 1,
{
    let t = tree_at(table, i);
    let n = table[i].children.len();
    assert forall|k: int| 0 <= k < t.children.len() implies {
        let c = (#[trigger] t.children[k]).item;
        &&& kin(t.item, c)
        &&& c.kind == StructureNodeKind::Heading ==> d + 1 <= level_of(c)
    } by {
        let c = table[i].children[k] as int;
        assert(i < c < table.len());
        assert(t.children[k] == tree_at(table, c));
    }
    assert forall|k: int, l: int|
        0 <= k < l < t.children.len() && (#[trigger] t.children[k]).item.kind
            == StructureNodeKind::Heading implies {
        let c = (#[trigger] t.children[l]).item;
        c.kind == StructureNodeKind::Heading && level_of(c) == d + 1
    } by {
        let a = table[i].children[k] as int;
        let b = table[i].children[l] as int;
        assert(i < a < table.len() && i < b < table.len());
        assert(t.children[k] == tree_at(table, a));
        assert(t.children[l] == tree_at(table, b));
        assert(kin(table[i].item, table[a].item));
    }
    lemma_kids_nested(table, depths, i, d, n);
    assert(t.children.take(n as int) =~= t.children);
}

proof fn lemma_kids_nested(table: Seq<NodeV>, depths: Seq<int>, i: int, d: int, k: nat)
    requires
        table_nested(table, depths),
        0 <= i < table.len(),
        section(table[i].item) || table[i].item.kind == StructureNodeKind::Root ==> d == depths[i],
        k <= table[i].children.len(),
    ensures
        all_nested(tree_at(table, i).children.take(k as int), d + 1),
    decreases table.len() - i, k,
{
    let kids = tree_at(table, i).children;
    if k > 0 {
        lemma_kids_nested(table, depths, i, d, (k - 1) as nat);
        let c = table[i].children[k - 1] as int;
        assert(i < c < table.len());
        assert(kin(table[i].item, table[c].item));
        let front = kids.take(k as int);
        assert(front.subrange(0, front.len() - 1) =~= kids.take(k - 1));
        assert(front[k - 1] == tree_at(table, c));
        lemma_tree_nested(table, depths, c, d + 1);
    }
}

/// In an outline every list item stands under a list that has the item's own number and level, and
/// every list that stands under an item has its number and is one level below it. Lists, paragraphs and
/// headings else stand under headings, or under parts where there is none, and parts under the root.
/// Each node is of the kind that its paragraph is. All that is no heading comes before the headings
/// under the same node, and the headings stand as deep as their levels, where there are headings for
/// it.
pub proof fn law_outline_is_nested(paras: Seq<ParaV>)
    ensures
        nested(outline(paras), -1),
{
    let names = names_of(paras);
    let d = lemma_parts_nested(paras, names);
    lemma_tree_nested(parts_built(paras, names), d, 0, -1);
}

/// A style named `Heading`, in any case, and a number behind it makes a heading of that level,
/// whatever stands between them that holds no digit. One named `Title`, in any case, makes one of the
/// first level. No style that begins otherwise makes a heading.
pub proof fn law_heading_styles(word: Seq<char>, gap: Seq<char>, n: nat)
    ensures
        ascii_lower(word) == "heading"@ && (forall|i: int|
            0 <= i < gap.len() ==> !('0' <= #[trigger] gap[i] <= '9')) && 0 < n <= usize::MAX
            ==> style_heading(word + gap + dec(n)) == Some(n),
        ascii_lower(word) == "title"@ ==> style_heading(word) == Some(1nat),
        !begins(ascii_lower(word), "heading"@) && ascii_lower(word) != "title"@ ==> style_heading(
            word,
        ) is None,
{
    reveal_strlit("heading");
    reveal_strlit("title");
    if ascii_lower(word) == "title"@ {
        assert(ascii_lower(word).len() == 5);
        assert("heading"@.len() == 7);
    }
    if ascii_lower(word) == "heading"@ && (forall|i: int|
        0 <= i < gap.len() ==> !('0' <= #[trigger] gap[i] <= '9')) && 0 < n <= usize::MAX {
        let s = word + gap + dec(n);
        let k = (word + gap).len() as int;
        lemma_dec(n);
        assert(word.len() == "heading"@.len());
        assert forall|i: int| 0 <= i < k implies !is_digit(#[trigger] s[i]) by {
            if i < word.len() {
                assert(ascii_lower(word)[i] == ascii_lower_char(word[i]));
                assert(s[i] == word[i]);
                assert("heading"@[i] >= 'a');
            } else {
                assert(s[i] == gap[i - word.len()]);
            }
        }
        assert(s[k] == dec(n)[0]);
        lemma_first_digit(s, k);
        assert(s.skip(k) =~= dec(n));
        assert(begins(ascii_lower(s), "heading"@)) by {
            assert(ascii_lower(s).subrange(0, 7) =~= "heading"@) by {
                assert forall|i: int| 0 <= i < 7 implies ascii_lower(s)[i]
                    == #[trigger] "heading"@[i] by {
                    assert(ascii_lower(word)[i] == ascii_lower_char(word[i]));
                    assert(s[i] == word[i]);
                }
            }
        }
    }
}

} // verus!
