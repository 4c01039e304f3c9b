//! The outline of a document: its parts, headings, lists and paragraphs as a tree.

use crate::chars::{
    all_digits, ascii_lower, begins, digits_at_most, digits_value, is_digit, lower_ascii, opt_i32,
    opt_nat, owned, starts_with, str_eq, to_chars, trim, trimmed,
};
use crate::docx::decompose::{output_file_name, output_name};
use crate::docx::error::DocxError;
use crate::docx::pure_text::{
    extract_pure_text, pure_text_of, ParaContainer, ParaV, PureParagraph, PureTextJson, PureTextV,
};
use crate::docx::xml::{text_before, text_less};
use crate::vecs::{clone_opt, push_deep};
use vstd::prelude::*;

verus! {

/// What a node of the outline stands for.
#[derive(Clone, Copy, Debug, PartialEq, Eq, Structural)]
pub enum StructureNodeKind {
    Root,
    Part,
    Heading,
    List,
    ListItem,
    Paragraph,
}

/// Where a paragraph stands and how it is styled.
#[derive(Clone, Debug)]
pub struct ParaLoc {
    pub para_id: usize,
    pub part_name: String,
    pub xml_event_index: usize,
    pub container: ParaContainer,
    pub section_index: Option<usize>,
    pub table_index: Option<usize>,
    pub row_index: Option<usize>,
    pub cell_index: Option<usize>,
    pub p_style: Option<String>,
    pub num_id: Option<i32>,
    pub num_ilvl: Option<i32>,
    pub outline_lvl: Option<i32>,
}

/// The model of a [`ParaLoc`].
#[verifier::ext_equal]
pub struct LocV {
    pub para_id: nat,
    pub part_name: Seq<char>,
    pub xml_event_index: nat,
    pub container: ParaContainer,
    pub section_index: Option<nat>,
    pub table_index: Option<nat>,
    pub row_index: Option<nat>,
    pub cell_index: Option<nat>,
    pub p_style: Option<Seq<char>>,
    pub num_id: Option<int>,
    pub num_ilvl: Option<int>,
    pub outline_lvl: Option<int>,
}

impl DeepView for ParaLoc {
    type V = LocV;

    open spec fn deep_view(&self) -> LocV {
        LocV {
            para_id: self.para_id as nat,
            part_name: self.part_name@,
            xml_event_index: self.xml_event_index as nat,
            container: self.container,
            section_index: opt_nat(self.section_index),
            table_index: opt_nat(self.table_index),
            row_index: opt_nat(self.row_index),
            cell_index: opt_nat(self.cell_index),
            p_style: self.p_style.deep_view(),
            num_id: opt_i32(self.num_id),
            num_ilvl: opt_i32(self.num_ilvl),
            outline_lvl: opt_i32(self.outline_lvl),
        }
    }
}

/// A node of the outline with the nodes under it.
#[derive(Debug)]
pub struct StructureNode {
    pub kind: StructureNodeKind,
    pub part_name: Option<String>,
    pub loc: Option<ParaLoc>,
    pub heading_level: Option<u32>,
    pub num_id: Option<i32>,
    pub ilvl: Option<i32>,
    pub text: Option<String>,
    pub children: Vec<StructureNode>,
}

/// What a node of the outline holds.
#[verifier::ext_equal]
pub struct ItemV {
    pub kind: StructureNodeKind,
    pub part_name: Option<Seq<char>>,
    pub loc: Option<LocV>,
    pub heading_level: Option<u32>,
    pub num_id: Option<int>,
    pub ilvl: Option<int>,
    pub text: Option<Seq<char>>,
}

/// The model of a [`StructureNode`].
#[verifier::ext_equal]
pub struct TreeV {
    pub item: ItemV,
    pub children: Seq<TreeV>,
}

/// The tree that a node holds.
pub open spec fn tree_of(n: StructureNode) -> TreeV
    decreases n,
{
    TreeV {
        item: ItemV {
            kind: n.kind,
            part_name: n.part_name.deep_view(),
            loc: n.loc.deep_view(),
            heading_level: n.heading_level,
            num_id: opt_i32(n.num_id),
            ilvl: opt_i32(n.ilvl),
            text: n.text.deep_view(),
        },
        children: Seq::new(n.children@.len(), |i: int|
            if 0 <= i < n.children@.len() {
                tree_of(n.children@[i])
            } else {
                arbitrary()
            }),
    }
}

/// The outline of a document.
#[derive(Debug)]
pub struct StructureJson {
    pub version: u32,
    pub placeholder_prefix: String,
    pub root: StructureNode,
}

/// The file that an outline is written to.
pub struct StructureOutputs {
    pub structure_json_path: String,
}

/// A node in the table that an outline is built in: what it holds, and the places of the nodes under
/// it.
#[verifier::ext_equal]
pub struct NodeV {
    pub item: ItemV,
    pub children: Seq<nat>,
}

/// Whether every node stands under at most nodes that come before it in the table.
pub open spec fn table_ok(table: Seq<NodeV>) -> bool {
    forall|i: int, k: int|
        0 <= i < table.len() && 0 <= k < table[i].children.len() ==> i
            < #[trigger] table[i].children[k] < table.len()
}

/// The tree of the node at `i`.
pub open spec fn tree_at(table: Seq<NodeV>, i: int) -> TreeV
    decreases table.len() - i,
{
    TreeV {
        item: table[i].item,
        children: Seq::new(table[i].children.len(), |k: int|
            if i < table[i].children[k] < table.len() {
                tree_at(table, table[i].children[k] as int)
            } else {
                arbitrary()
            }),
    }
}

/// A table with a node added under the one at `parent`.
pub open spec fn node_added(table: Seq<NodeV>, parent: Option<nat>, item: ItemV) -> Seq<NodeV> {
    let more = table.push(NodeV { item, children: Seq::empty() });
    match parent {
        Some(p) => more.update(
            p as int,
            NodeV { children: more[p as int].children.push(table.len()), ..more[p as int] },
        ),
        None => more,
    }
}

struct NodeItem {
    kind: StructureNodeKind,
    part_name: Option<String>,
    loc: Option<ParaLoc>,
    heading_level: Option<u32>,
    num_id: Option<i32>,
    ilvl: Option<i32>,
    text: Option<String>,
}

impl DeepView for NodeItem {
    type V = ItemV;

    closed spec fn deep_view(&self) -> ItemV {
        ItemV {
            kind: self.kind,
            part_name: self.part_name.deep_view(),
            loc: self.loc.deep_view(),
            heading_level: self.heading_level,
            num_id: opt_i32(self.num_id),
            ilvl: opt_i32(self.ilvl),
            text: self.text.deep_view(),
        }
    }
}

struct ArenaNode {
    item: NodeItem,
    children: Vec<usize>,
}

spec fn places(v: Seq<usize>) -> Seq<nat> {
    v.map_values(|i: usize| i as nat)
}

impl DeepView for ArenaNode {
    type V = NodeV;

    closed spec fn deep_view(&self) -> NodeV {
        NodeV { item: self.item.deep_view(), children: places(self.children@) }
    }
}

fn arena_add(arena: &mut Vec<ArenaNode>, parent: Option<usize>, item: NodeItem) -> (r: usize)
    requires
        parent matches Some(p) ==> p < old(arena)@.len(),
        table_ok(old(arena).deep_view()),
    ensures
        final(arena).deep_view() == node_added(
            old(arena).deep_view(),
            opt_nat(parent),
            item.deep_view(),
        ),
        table_ok(final(arena).deep_view()),
        final(arena)@.len() == old(arena)@.len() + 1,
        r == old(arena)@.len(),
{
    let ghost before = arena.deep_view();
    let ghost what = item.deep_view();
    let idx: usize = arena.len();
    let node = ArenaNode { item, children: Vec::new() };
    assert(node.deep_view() =~= (NodeV { item: what, children: Seq::empty() }));
    push_deep(arena, node);
    match parent {
        Some(p) => {
            let ghost mid = arena.deep_view();
            let ghost kids = arena@[p as int].children@;
            arena[p].children.push(idx);
            proof {
                assert(places(kids.push(idx)) =~= places(kids).push(idx as nat));
                let changed = NodeV { children: mid[p as int].children.push(idx as nat), ..mid[p as int] };
                assert(arena@[p as int].deep_view() =~= changed);
                assert(arena.deep_view() =~= mid.update(p as int, changed));
            }
        },
        None => {},
    }
    proof {
        lemma_added_ok(before, opt_nat(parent), what);
    }
    idx
}

pub(crate) proof fn lemma_added_ok(table: Seq<NodeV>, parent: Option<nat>, item: ItemV)
    requires
        table_ok(table),
        parent matches Some(p) ==> p < table.len(),
    ensures
        table_ok(node_added(table, parent, item)),
        node_added(table, parent, item).len() == table.len() + 1,
{
    let after = node_added(table, parent, item);
    assert forall|i: int, k: int|
        0 <= i < after.len() && 0 <= k < after[i].children.len() implies i
        < #[trigger] after[i].children[k] < after.len() by {
        if i < table.len() {
            if k < table[i].children.len() {
                assert(after[i].children[k] == table[i].children[k]);
            }
        }
    }
}

fn clone_loc(p: &ParaLoc) -> (r: ParaLoc)
    ensures
        r.deep_view() == p.deep_view(),
{
    ParaLoc {
        para_id: p.para_id,
        part_name: p.part_name.clone(),
        xml_event_index: p.xml_event_index,
        container: p.container,
        section_index: p.section_index,
        table_index: p.table_index,
        row_index: p.row_index,
        cell_index: p.cell_index,
        p_style: clone_opt(&p.p_style),
        num_id: p.num_id,
        num_ilvl: p.num_ilvl,
        outline_lvl: p.outline_lvl,
    }
}

fn arena_to_tree(idx: usize, arena: &Vec<ArenaNode>) -> (r: StructureNode)
    requires
        idx < arena@.len(),
        table_ok(arena.deep_view()),
    ensures
        tree_of(r) == tree_at(arena.deep_view(), idx as int),
    decreases arena@.len() - idx,
{
    let ghost table = arena.deep_view();
    let n: &ArenaNode = &arena[idx];
    assert(table[idx as int] == n.deep_view());
    let mut children: Vec<StructureNode> = Vec::new();
    let mut k: usize = 0;
    while k < n.children.len()
        invariant
            idx < arena@.len(),
            k <= n.children@.len(),
            children@.len() == k,
            table == arena.deep_view(),
            table_ok(table),
            table[idx as int] == n.deep_view(),
            forall|j: int|
                0 <= j < k ==> tree_of(#[trigger] children@[j]) == tree_at(
                    table,
                    table[idx as int].children[j] as int,
                ),
        decreases n.children@.len() - k,
    {
        assert(table[idx as int].children[k as int] == n.children@[k as int]);
        let child: StructureNode = arena_to_tree(n.children[k], arena);
        children.push(child);
        k = k + 1;
    }
    let loc: Option<ParaLoc> = match &n.item.loc {
        Some(loc) => Some(clone_loc(loc)),
        None => None,
    };
    let r = StructureNode {
        kind: n.item.kind,
        part_name: clone_opt(&n.item.part_name),
        loc,
        heading_level: n.item.heading_level,
        num_id: n.item.num_id,
        ilvl: n.item.ilvl,
        text: clone_opt(&n.item.text),
        children,
    };
    proof {
        let t = tree_at(table, idx as int);
        assert(tree_of(r).children =~= t.children);
        assert(tree_of(r).item =~= t.item);
    }
    r
}

/// Where a text has its first digit, or its length.
pub open spec fn first_digit(s: Seq<char>) -> int
    decreases s.len(),
{
    if s.len() == 0 || is_digit(s[0]) {
        0
    } else {
        1 + first_digit(s.drop_first())
    }
}

/// The level of the heading that a paragraph is: by its outline level, or by the name of its style.
/// A style is a heading's if it is `Heading` and a number, or `Title`, in any case.
pub open spec fn para_heading(p: ParaV) -> Option<nat> {
    match p.outline_lvl {
        Some(lvl) if lvl >= 0 => Some((lvl + 1) as nat),
        _ => match p.p_style {
            Some(s) => style_heading(trimmed(s)),
            None => None,
        },
    }
}

/// The level of the heading that a style without white space around it makes.
pub open spec fn style_heading(style: Seq<char>) -> Option<nat> {
    let d = style.skip(first_digit(style));
    if begins(ascii_lower(style), "heading"@) && d.len() > 0 && all_digits(d) && 0 < digits_value(d)
        <= usize::MAX {
        Some(digits_value(d))
    } else if ascii_lower(style) == "title"@ {
        Some(1)
    } else {
        None
    }
}

pub(crate) proof fn lemma_first_digit(s: Seq<char>, i: int)
    requires
        0 <= i <= s.len(),
        forall|k: int| 0 <= k < i ==> !is_digit(#[trigger] s[k]),
        i == s.len() || is_digit(s[i]),
    ensures
        first_digit(s) == i,
    decreases s.len(),
{
    if i > 0 {
        assert(!is_digit(s[0]));
        lemma_first_digit(s.drop_first(), i - 1);
    }
}

fn style_level(style: &str) -> (r: Option<usize>)
    ensures
        opt_nat(r) == style_heading(style@),
{
    let lower: String = lower_ascii(style);
    let c: Vec<char> = to_chars(style);
    if starts_with(lower.as_str(), "heading") {
        let mut i: usize = 0;
        while i < c.len() && !(c[i] >= '0' && c[i] <= '9')
            invariant
                i <= c@.len(),
                forall|k: int| 0 <= k < i ==> !is_digit(#[trigger] c@[k]),
            decreases c@.len() - i,
        {
            i = i + 1;
        }
        proof {
            lemma_first_digit(c@, i as int);
            assert(c@.skip(i as int) =~= c@.subrange(i as int, c@.len() as int));
        }
        match digits_at_most(&c, i, usize::MAX as u64) {
            Some(n) => if n > 0 {
                return Some(n as usize);
            },
            None => {},
        }
    }
    if str_eq(lower.as_str(), "title") {
        return Some(1);
    }
    None
}

fn heading_level(p: &PureParagraph) -> (r: Option<usize>)
    ensures
        opt_nat(r) == para_heading(p.deep_view()),
{
    match p.outline_lvl {
        Some(lvl) => if lvl >= 0 {
            return Some(lvl as usize + 1);
        },
        None => {},
    }
    match &p.p_style {
        Some(s) => {
            let style: String = trim(s.as_str());
            style_level(style.as_str())
        },
        None => None,
    }
}

/// What keeps the items of one list together.
#[verifier::ext_equal]
pub struct ListKeyV {
    pub container: ParaContainer,
    pub section_index: Option<nat>,
    pub table_index: Option<nat>,
    pub row_index: Option<nat>,
    pub cell_index: Option<nat>,
    pub part_name: Seq<char>,
}

/// The list that is open: the node it stands under, its key and number, and for each level the node
/// of the list and of its last item.
#[verifier::ext_equal]
pub struct ListV {
    pub section_parent: Option<nat>,
    pub key: Option<ListKeyV>,
    pub num_id: Option<int>,
    pub lists: Seq<nat>,
    pub items: Seq<Option<nat>>,
}

/// The state of building the outline of a part: the table, the open headings under the part, and the
/// list that is open.
#[verifier::ext_equal]
pub struct BuildV {
    pub table: Seq<NodeV>,
    pub sections: Seq<nat>,
    pub list: ListV,
}

/// No list is open.
pub open spec fn no_list() -> ListV {
    ListV {
        section_parent: None,
        key: None,
        num_id: None,
        lists: Seq::empty(),
        items: Seq::empty(),
    }
}

/// What keeps a paragraph and the items of its list together.
pub open spec fn list_key_of(p: ParaV) -> ListKeyV {
    ListKeyV {
        container: p.container,
        section_index: p.section_index,
        table_index: p.table_index,
        row_index: p.row_index,
        cell_index: p.cell_index,
        part_name: p.part_name,
    }
}

/// Where a paragraph stands and how it is styled.
pub open spec fn loc_of(p: ParaV) -> LocV {
    LocV {
        para_id: p.para_id,
        part_name: p.part_name,
        xml_event_index: p.xml_event_index,
        container: p.container,
        section_index: p.section_index,
        table_index: p.table_index,
        row_index: p.row_index,
        cell_index: p.cell_index,
        p_style: p.p_style,
        num_id: p.num_id,
        num_ilvl: p.num_ilvl,
        outline_lvl: p.outline_lvl,
    }
}

/// A node without anything but its kind.
pub open spec fn bare_item(kind: StructureNodeKind) -> ItemV {
    ItemV {
        kind,
        part_name: None,
        loc: None,
        heading_level: None,
        num_id: None,
        ilvl: None,
        text: None,
    }
}

/// The node of a paragraph.
pub open spec fn para_item(kind: StructureNodeKind, level: Option<u32>, p: ParaV) -> ItemV {
    ItemV {
        kind,
        part_name: None,
        loc: Some(loc_of(p)),
        heading_level: level,
        num_id: p.num_id,
        ilvl: p.num_ilvl,
        text: Some(p.text),
    }
}

/// The node of a list at a level.
pub open spec fn list_item(num_id: int, level: int) -> ItemV {
    ItemV { num_id: Some(num_id), ilvl: Some(level), ..bare_item(StructureNodeKind::List) }
}

/// The state with a list open that the paragraph `p` belongs to: the one that was open, if it does,
/// and else a new one.
pub open spec fn list_opened(st: BuildV, p: ParaV, num_id: int) -> BuildV {
    let parent = st.sections.last();
    if st.list.section_parent == Some(parent) && st.list.num_id == Some(num_id) && st.list.key
        == Some(list_key_of(p)) && st.list.lists.len() > 0 {
        st
    } else {
        BuildV {
            table: node_added(st.table, Some(parent), list_item(num_id, 0)),
            sections: st.sections,
            list: ListV {
                section_parent: Some(parent),
                key: Some(list_key_of(p)),
                num_id: Some(num_id),
                lists: seq![st.table.len()],
                items: seq![None],
            },
        }
    }
}

/// The state with one more list inside the last item of the innermost one, or beside the list where
/// that has no item.
pub open spec fn list_nested(st: BuildV, num_id: int) -> BuildV {
    let n = st.list.lists.len();
    let under = match st.list.items[n - 1] {
        Some(item) => item,
        None => st.sections.last(),
    };
    BuildV {
        table: node_added(st.table, Some(under), list_item(num_id, n as int)),
        sections: st.sections,
        list: ListV {
            lists: st.list.lists.push(st.table.len()),
            items: st.list.items.push(None),
            ..st.list
        },
    }
}

/// The state with lists nested up to a level.
pub open spec fn list_deepened(st: BuildV, num_id: int, level: nat) -> BuildV
    decreases level + 1 - st.list.lists.len(),
{
    if st.list.lists.len() >= level + 1 {
        st
    } else {
        list_deepened(list_nested(st, num_id), num_id, level)
    }
}

/// The state with no list open beyond a level.
pub open spec fn list_cut(st: BuildV, level: nat) -> BuildV {
    if st.list.lists.len() > level + 1 {
        BuildV {
            list: ListV {
                lists: st.list.lists.take(level as int + 1),
                items: st.list.items.take(level as int + 1),
                ..st.list
            },
            ..st
        }
    } else {
        st
    }
}

/// The state with a paragraph added to the list that is open at its level.
pub open spec fn item_placed(st: BuildV, p: ParaV, level: nat) -> BuildV {
    BuildV {
        table: node_added(
            st.table,
            Some(st.list.lists.last()),
            para_item(StructureNodeKind::ListItem, None, p),
        ),
        sections: st.sections,
        list: ListV {
            items: st.list.items.update(level as int, Some(st.table.len())),
            ..st.list
        },
    }
}

/// The level of a list item.
pub open spec fn item_level(ilvl: int) -> nat {
    if ilvl < 0 {
        0
    } else {
        ilvl as nat
    }
}

/// The state after a paragraph was added to the outline: a heading under the last heading above its
/// level, an item to its list, and any other under the last heading.
pub open spec fn para_placed(st: BuildV, p: ParaV) -> BuildV {
    match para_heading(p) {
        Some(level) => {
            let sections = if st.sections.len() > level {
                st.sections.take(level as int)
            } else {
                st.sections
            };
            BuildV {
                table: node_added(
                    st.table,
                    Some(sections.last()),
                    para_item(StructureNodeKind::Heading, Some((level % 0x1_0000_0000) as u32), p),
                ),
                sections: sections.push(st.table.len()),
                list: no_list(),
            }
        },
        None => match (p.num_id, p.num_ilvl) {
            (Some(num_id), Some(ilvl)) => {
                let level = item_level(ilvl);
                let open = list_cut(list_opened(st, p, num_id), level);
                item_placed(list_deepened(open, num_id, level), p, level)
            },
            _ => BuildV {
                table: node_added(
                    st.table,
                    Some(st.sections.last()),
                    para_item(StructureNodeKind::Paragraph, None, p),
                ),
                sections: st.sections,
                list: no_list(),
            },
        },
    }
}

/// The table after the paragraphs of a part were added under the node at `part`.
pub open spec fn part_built(table: Seq<NodeV>, part: nat, paras: Seq<ParaV>) -> BuildV
    decreases paras.len(),
{
    if paras.len() == 0 {
        BuildV { table, sections: seq![part], list: no_list() }
    } else {
        para_placed(part_built(table, part, paras.drop_last()), paras.last())
    }
}

/// What holds of the state while an outline is built: the nodes it names are in the table, and a
/// list that is open has an entry for each level.
pub open spec fn build_ok(st: BuildV) -> bool {
    &&& table_ok(st.table)
    &&& st.sections.len() > 0
    &&& forall|i: int| 0 <= i < st.sections.len() ==> #[trigger] st.sections[i] < st.table.len()
    &&& st.list.lists.len() == st.list.items.len()
    &&& forall|i: int|
        0 <= i < st.list.lists.len() ==> #[trigger] st.list.lists[i] < st.table.len()
    &&& forall|i: int|
        0 <= i < st.list.items.len() ==> match #[trigger] st.list.items[i] {
            Some(n) => n < st.table.len(),
            None => true,
        }
}

struct ListKey {
    container: ParaContainer,
    section_index: Option<usize>,
    table_index: Option<usize>,
    row_index: Option<usize>,
    cell_index: Option<usize>,
    part_name: String,
}

impl DeepView for ListKey {
    type V = ListKeyV;

    closed spec fn deep_view(&self) -> ListKeyV {
        ListKeyV {
            container: self.container,
            section_index: opt_nat(self.section_index),
            table_index: opt_nat(self.table_index),
            row_index: opt_nat(self.row_index),
            cell_index: opt_nat(self.cell_index),
            part_name: self.part_name@,
        }
    }
}

struct ListCtx {
    section_parent: Option<usize>,
    active_key: Option<ListKey>,
    active_num_id: Option<i32>,
    list_node_stack: Vec<usize>,
    last_item_stack: Vec<Option<usize>>,
}

spec fn item_places(v: Seq<Option<usize>>) -> Seq<Option<nat>> {
    v.map_values(|o: Option<usize>| opt_nat(o))
}

impl DeepView for ListCtx {
    type V = ListV;

    closed spec fn deep_view(&self) -> ListV {
        ListV {
            section_parent: opt_nat(self.section_parent),
            key: self.active_key.deep_view(),
            num_id: opt_i32(self.active_num_id),
            lists: places(self.list_node_stack@),
            items: item_places(self.last_item_stack@),
        }
    }
}

fn new_list_ctx() -> (r: ListCtx)
    ensures
        r.deep_view() == no_list(),
{
    let r = ListCtx {
        section_parent: None,
        active_key: None,
        active_num_id: None,
        list_node_stack: Vec::new(),
        last_item_stack: Vec::new(),
    };
    assert(r.deep_view() =~= no_list());
    r
}

fn same_place(a: Option<usize>, b: Option<usize>) -> (r: bool)
    ensures
        r == (opt_nat(a) == opt_nat(b)),
{
    match (a, b) {
        (Some(x), Some(y)) => x == y,
        (None, None) => true,
        _ => false,
    }
}

fn list_key(p: &PureParagraph) -> (r: ListKey)
    ensures
        r.deep_view() == list_key_of(p.deep_view()),
{
    ListKey {
        container: p.container,
        section_index: p.section_index,
        table_index: p.table_index,
        row_index: p.row_index,
        cell_index: p.cell_index,
        part_name: p.part_name.clone(),
    }
}

fn same_key(a: &ListKey, b: &ListKey) -> (r: bool)
    ensures
        r == (a.deep_view() == b.deep_view()),
{
    a.container == b.container && same_place(a.section_index, b.section_index) && same_place(
        a.table_index,
        b.table_index,
    ) && same_place(a.row_index, b.row_index) && same_place(a.cell_index, b.cell_index) && str_eq(
        a.part_name.as_str(),
        b.part_name.as_str(),
    )
}

fn para_loc(p: &PureParagraph) -> (r: ParaLoc)
    ensures
        r.deep_view() == loc_of(p.deep_view()),
{
    ParaLoc {
        para_id: p.para_id,
        part_name: p.part_name.clone(),
        xml_event_index: p.xml_event_index,
        container: p.container,
        section_index: p.section_index,
        table_index: p.table_index,
        row_index: p.row_index,
        cell_index: p.cell_index,
        p_style: clone_opt(&p.p_style),
        num_id: p.num_id,
        num_ilvl: p.num_ilvl,
        outline_lvl: p.outline_lvl,
    }
}

fn para_node(kind: StructureNodeKind, level: Option<u32>, p: &PureParagraph) -> (r: NodeItem)
    ensures
        r.deep_view() == para_item(kind, level, p.deep_view()),
{
    NodeItem {
        kind,
        part_name: None,
        loc: Some(para_loc(p)),
        heading_level: level,
        num_id: p.num_id,
        ilvl: p.num_ilvl,
        text: Some(p.text.clone()),
    }
}

fn list_node(num_id: i32, level: i32) -> (r: NodeItem)
    ensures
        r.deep_view() == list_item(num_id as int, level as int),
{
    NodeItem {
        kind: StructureNodeKind::List,
        part_name: None,
        loc: None,
        heading_level: None,
        num_id: Some(num_id),
        ilvl: Some(level),
        text: None,
    }
}

struct Build {
    arena: Vec<ArenaNode>,
    sections: Vec<usize>,
    list: ListCtx,
}

impl DeepView for Build {
    type V = BuildV;

    closed spec fn deep_view(&self) -> BuildV {
        BuildV {
            table: self.arena.deep_view(),
            sections: places(self.sections@),
            list: self.list.deep_view(),
        }
    }
}

proof fn lemma_added_keeps(st: BuildV, parent: nat, item: ItemV)
    requires
        build_ok(st),
        parent < st.table.len(),
    ensures
        build_ok(BuildV { table: node_added(st.table, Some(parent), item), ..st }),
        node_added(st.table, Some(parent), item).len() == st.table.len() + 1,
{
    lemma_added_ok(st.table, Some(parent), item);
}

pub(crate) proof fn lemma_opened_ok(st: BuildV, p: ParaV, num_id: int)
    requires
        build_ok(st),
    ensures
        build_ok(list_opened(st, p, num_id)),
        list_opened(st, p, num_id).list.lists.len() > 0,
{
    lemma_added_keeps(st, st.sections.last(), list_item(num_id, 0));
}

pub(crate) proof fn lemma_nested_ok(st: BuildV, num_id: int)
    requires
        build_ok(st),
        st.list.lists.len() > 0,
    ensures
        build_ok(list_nested(st, num_id)),
{
    let n = st.list.lists.len();
    let under = match st.list.items[n - 1] {
        Some(item) => item,
        None => st.sections.last(),
    };
    lemma_added_keeps(st, under, list_item(num_id, n as int));
}

pub(crate) proof fn lemma_deepened_ok(st: BuildV, num_id: int, level: nat)
    requires
        build_ok(st),
        st.list.lists.len() > 0,
    ensures
        build_ok(list_deepened(st, num_id, level)),
        list_deepened(st, num_id, level).list.lists.len() >= level + 1,
        st.list.lists.len() <= level + 1 ==> list_deepened(st, num_id, level).list.lists.len()
            == level + 1,
    decreases level + 1 - st.list.lists.len(),
{
    if st.list.lists.len() < level + 1 {
        lemma_nested_ok(st, num_id);
        lemma_deepened_ok(list_nested(st, num_id), num_id, level);
    }
}

/// Adding a paragraph keeps the nodes that are named in the table.
pub proof fn lemma_placed_ok(st: BuildV, p: ParaV)
    requires
        build_ok(st),
        para_heading(p) matches Some(level) ==> level > 0,
    ensures
        build_ok(para_placed(st, p)),
{
    match para_heading(p) {
        Some(level) => {
            let sections = if st.sections.len() > level {
                st.sections.take(level as int)
            } else {
                st.sections
            };
            let item = para_item(
                StructureNodeKind::Heading,
                Some((level % 0x1_0000_0000) as u32),
                p,
            );
            lemma_added_keeps(BuildV { sections, ..st }, sections.last(), item);
        },
        None => match (p.num_id, p.num_ilvl) {
            (Some(num_id), Some(ilvl)) => {
                let level = item_level(ilvl);
                lemma_opened_ok(st, p, num_id);
                let open = list_cut(list_opened(st, p, num_id), level);
                assert(build_ok(open));
                lemma_deepened_ok(open, num_id, level);
                let deep = list_deepened(open, num_id, level);
                lemma_added_keeps(
                    deep,
                    deep.list.lists.last(),
                    para_item(StructureNodeKind::ListItem, None, p),
                );
            },
            _ => {
                lemma_added_keeps(
                    st,
                    st.sections.last(),
                    para_item(StructureNodeKind::Paragraph, None, p),
                );
            },
        },
    }
}

/// A heading's level is at least one.
pub proof fn lemma_heading_level(p: ParaV)
    ensures
        para_heading(p) matches Some(level) ==> level > 0,
{
}

fn low_bits(n: usize) -> (r: u32)
    ensures
        r == n as nat % 0x1_0000_0000,
{
    let x: u64 = n as u64;
    let y: u64 = x % 0x1_0000_0000;
    y as u32
}

impl Build {
    fn open_list(&mut self, p: &PureParagraph, num_id: i32)
        requires
            build_ok(old(self).deep_view()),
        ensures
            final(self).deep_view() == list_opened(old(self).deep_view(), p.deep_view(), num_id as int),
    {
        let ghost before = self.deep_view();
        let n: usize = self.sections.len();
        let parent: usize = self.sections[n - 1];
        assert(before.sections.last() == parent as nat);
        let key: ListKey = list_key(p);
        let same: bool = match &self.list.active_key {
            Some(k) => same_key(k, &key),
            None => false,
        };
        let same_num: bool = match self.list.active_num_id {
            Some(k) => k == num_id,
            None => false,
        };
        if !same_place(self.list.section_parent, Some(parent)) || !same_num || !same
            || self.list.list_node_stack.len() == 0 {
            assert(before.sections[before.sections.len() - 1] < before.table.len());
            let idx: usize = arena_add(&mut self.arena, Some(parent), list_node(num_id, 0));
            self.list = new_list_ctx();
            self.list.section_parent = Some(parent);
            self.list.active_num_id = Some(num_id);
            self.list.active_key = Some(key);
            self.list.list_node_stack.push(idx);
            self.list.last_item_stack.push(None);
            assert(places(self.list.list_node_stack@) =~= seq![idx as nat]);
            assert(item_places(self.list.last_item_stack@) =~= seq![None]);
        }
        assert(self.deep_view() =~= list_opened(before, p.deep_view(), num_id as int));
    }

    fn cut_list(&mut self, level: usize)
        requires
            build_ok(old(self).deep_view()),
            level <= i32::MAX,
        ensures
            final(self).deep_view() == list_cut(old(self).deep_view(), level as nat),
    {
        let ghost before = self.deep_view();
        if self.list.list_node_stack.len() > level + 1 {
            self.list.list_node_stack.truncate(level + 1);
            self.list.last_item_stack.truncate(level + 1);
            assert(places(self.list.list_node_stack@) =~= before.list.lists.take(level as int + 1));
            assert(item_places(self.list.last_item_stack@) =~= before.list.items.take(
                level as int + 1,
            ));
        }
        assert(self.deep_view() =~= list_cut(before, level as nat));
    }

    fn nest_list(&mut self, num_id: i32)
        requires
            build_ok(old(self).deep_view()),
            0 < old(self).deep_view().list.lists.len() <= i32::MAX,
        ensures
            final(self).deep_view() == list_nested(old(self).deep_view(), num_id as int),
    {
        let ghost before = self.deep_view();
        let n: usize = self.list.list_node_stack.len();
        let m: usize = self.sections.len();
        assert(before.list.items[n - 1] == opt_nat(self.list.last_item_stack@[n - 1]));
        assert(before.sections.last() == self.sections@[m - 1] as nat);
        assert(before.sections[m - 1] < before.table.len());
        let under: usize = match self.list.last_item_stack[n - 1] {
            Some(item) => item,
            None => self.sections[m - 1],
        };
        let idx: usize = arena_add(&mut self.arena, Some(under), list_node(num_id, n as i32));
        self.list.list_node_stack.push(idx);
        self.list.last_item_stack.push(None);
        assert(places(self.list.list_node_stack@) =~= before.list.lists.push(idx as nat));
        assert(item_places(self.list.last_item_stack@) =~= before.list.items.push(None));
        assert(self.deep_view() =~= list_nested(before, num_id as int));
    }

    fn deepen_list(&mut self, num_id: i32, level: usize)
        requires
            build_ok(old(self).deep_view()),
            0 < old(self).deep_view().list.lists.len() <= level + 1,
            level <= i32::MAX,
        ensures
            final(self).deep_view() == list_deepened(
                old(self).deep_view(),
                num_id as int,
                level as nat,
            ),
    {
        while self.list.list_node_stack.len() < level + 1
            invariant
                build_ok(self.deep_view()),
                0 < self.deep_view().list.lists.len() <= level + 1,
                level <= i32::MAX,
                list_deepened(self.deep_view(), num_id as int, level as nat) == list_deepened(
                    old(self).deep_view(),
                    num_id as int,
                    level as nat,
                ),
            decreases level + 1 - self.list.list_node_stack@.len(),
        {
            proof {
                lemma_nested_ok(self.deep_view(), num_id as int);
            }
            self.nest_list(num_id);
        }
    }

    fn place_item(&mut self, p: &PureParagraph, level: usize)
        requires
            build_ok(old(self).deep_view()),
            old(self).deep_view().list.lists.len() == level + 1,
        ensures
            final(self).deep_view() == item_placed(
                old(self).deep_view(),
                p.deep_view(),
                level as nat,
            ),
    {
        let ghost before = self.deep_view();
        let list: usize = self.list.list_node_stack[level];
        assert(before.list.lists[level as int] == list as nat);
        let idx: usize = arena_add(
            &mut self.arena,
            Some(list),
            para_node(StructureNodeKind::ListItem, None, p),
        );
        self.list.last_item_stack.set(level, Some(idx));
        assert(item_places(self.list.last_item_stack@) =~= before.list.items.update(
            level as int,
            Some(idx as nat),
        ));
        assert(self.deep_view() =~= item_placed(before, p.deep_view(), level as nat));
    }

    fn place(&mut self, p: &PureParagraph)
        requires
            build_ok(old(self).deep_view()),
        ensures
            final(self).deep_view() == para_placed(old(self).deep_view(), p.deep_view()),
            build_ok(final(self).deep_view()),
    {
        let ghost before = self.deep_view();
        let ghost model = p.deep_view();
        proof {
            lemma_heading_level(model);
            lemma_placed_ok(before, model);
        }
        match heading_level(p) {
            Some(level) => {
                self.list = new_list_ctx();
                if self.sections.len() > level {
                    self.sections.truncate(level);
                }
                let n: usize = self.sections.len();
                let parent: usize = self.sections[n - 1];
                assert(before.sections[n - 1] == parent as nat);
                let idx: usize = arena_add(
                    &mut self.arena,
                    Some(parent),
                    para_node(StructureNodeKind::Heading, Some(low_bits(level)), p),
                );
                let ghost mid = places(self.sections@);
                self.sections.push(idx);
                assert(places(self.sections@) =~= mid.push(idx as nat));
                proof {
                    let sections = if before.sections.len() > level {
                        before.sections.take(level as int)
                    } else {
                        before.sections
                    };
                    assert(mid =~= sections);
                }
                assert(self.deep_view() =~= para_placed(before, model));
            },
            None => match (p.num_id, p.num_ilvl) {
                (Some(num_id), Some(ilvl)) => {
                    let level: usize = if ilvl < 0 {
                        0
                    } else {
                        ilvl as usize
                    };
                    proof {
                        lemma_opened_ok(before, model, num_id as int);
                    }
                    self.open_list(p, num_id);
                    self.cut_list(level);
                    proof {
                        lemma_deepened_ok(self.deep_view(), num_id as int, level as nat);
                    }
                    self.deepen_list(num_id, level);
                    self.place_item(p, level);
                },
                _ => {
                    self.list = new_list_ctx();
                    let n: usize = self.sections.len();
                    let parent: usize = self.sections[n - 1];
                    assert(before.sections[n - 1] == parent as nat);
                    let _ = arena_add(
                        &mut self.arena,
                        Some(parent),
                        para_node(StructureNodeKind::Paragraph, None, p),
                    );
                    assert(self.deep_view() =~= para_placed(before, model));
                },
            },
        }
    }
}

fn build_part_tree(st: &mut Build, part: usize, paras: &Vec<&PureParagraph>)
    requires
        table_ok(old(st).arena.deep_view()),
        part < old(st).arena@.len(),
    ensures
        final(st).arena.deep_view() == part_built(
            old(st).arena.deep_view(),
            part as nat,
            paras.deep_view(),
        ).table,
        table_ok(final(st).arena.deep_view()),
        final(st).arena@.len() >= old(st).arena@.len(),
{
    let ghost table = st.arena.deep_view();
    let ghost model = paras.deep_view();
    st.sections = Vec::new();
    st.sections.push(part);
    st.list = new_list_ctx();
    let mut i: usize = 0;
    assert(model.take(0) =~= Seq::<ParaV>::empty());
    assert(places(st.sections@) =~= seq![part as nat]);
    assert(st.deep_view() =~= part_built(table, part as nat, model.take(0)));
    while i < paras.len()
        invariant
            i <= paras@.len(),
            model == paras.deep_view(),
            build_ok(st.deep_view()),
            st.deep_view() == part_built(table, part as nat, model.take(i as int)),
            st.arena@.len() >= table.len(),
        decreases paras@.len() - i,
    {
        assert(model[i as int] == paras@[i as int].deep_view());
        assert(model.take(i + 1).drop_last() =~= model.take(i as int));
        proof {
            lemma_heading_level(model[i as int]);
            lemma_placed_grows(st.deep_view(), model[i as int]);
        }
        st.place(paras[i]);
        i = i + 1;
    }
    assert(model.take(i as int) =~= model);
}

proof fn lemma_deepened_grows(st: BuildV, num_id: int, level: nat)
    requires
        st.list.lists.len() > 0,
        build_ok(st),
    ensures
        list_deepened(st, num_id, level).table.len() >= st.table.len(),
    decreases level + 1 - st.list.lists.len(),
{
    if st.list.lists.len() < level + 1 {
        lemma_nested_ok(st, num_id);
        lemma_deepened_grows(list_nested(st, num_id), num_id, level);
    }
}

proof fn lemma_placed_grows(st: BuildV, p: ParaV)
    requires
        build_ok(st),
    ensures
        para_placed(st, p).table.len() >= st.table.len(),
{
    if para_heading(p) is None {
        match (p.num_id, p.num_ilvl) {
            (Some(num_id), Some(ilvl)) => {
                let level = item_level(ilvl);
                lemma_opened_ok(st, p, num_id);
                let opened = list_opened(st, p, num_id);
                assert(opened.table.len() >= st.table.len());
                let open = list_cut(opened, level);
                assert(build_ok(open));
                lemma_deepened_grows(open, num_id, level);
                let deep = list_deepened(open, num_id, level);
                lemma_deepened_ok(open, num_id, level);
                lemma_added_keeps(
                    deep,
                    deep.list.lists.last(),
                    para_item(StructureNodeKind::ListItem, None, p),
                );
            },
            _ => {},
        }
    }
}

/// The names with one more put in its place, unless it is there.
pub open spec fn name_placed(names: Seq<Seq<char>>, name: Seq<char>) -> Seq<Seq<char>>
    decreases names.len(),
{
    if names.len() == 0 {
        seq![name]
    } else if names[0] == name {
        names
    } else if text_less(name, names[0]) {
        seq![name] + names
    } else {
        seq![names[0]] + name_placed(names.drop_first(), name)
    }
}

/// The names of the parts that paragraphs stand in, in their order and each once.
pub open spec fn names_of(paras: Seq<ParaV>) -> Seq<Seq<char>>
    decreases paras.len(),
{
    if paras.len() == 0 {
        Seq::empty()
    } else {
        name_placed(names_of(paras.drop_last()), paras.last().part_name)
    }
}

/// Paragraphs in the order of their events, with one more put behind those that do not come after
/// it.
pub open spec fn para_sorted_in(paras: Seq<ParaV>, p: ParaV) -> Seq<ParaV>
    decreases paras.len(),
{
    if paras.len() == 0 {
        seq![p]
    } else if paras.last().xml_event_index > p.xml_event_index {
        para_sorted_in(paras.drop_last(), p).push(paras.last())
    } else {
        paras.push(p)
    }
}

/// The paragraphs of a part in the order of their events.
pub open spec fn paras_in(paras: Seq<ParaV>, name: Seq<char>) -> Seq<ParaV>
    decreases paras.len(),
{
    if paras.len() == 0 {
        Seq::empty()
    } else if paras.last().part_name == name {
        para_sorted_in(paras_in(paras.drop_last(), name), paras.last())
    } else {
        paras_in(paras.drop_last(), name)
    }
}

/// The table with the outlines of the parts of the given names added.
pub open spec fn parts_built(paras: Seq<ParaV>, names: Seq<Seq<char>>) -> Seq<NodeV>
    decreases names.len(),
{
    if names.len() == 0 {
        node_added(Seq::empty(), None, bare_item(StructureNodeKind::Root))
    } else {
        let table = parts_built(paras, names.drop_last());
        let item = ItemV {
            part_name: Some(names.last()),
            ..bare_item(StructureNodeKind::Part)
        };
        part_built(node_added(table, Some(0), item), table.len(), paras_in(paras, names.last())).table
    }
}

/// The outline of a document's paragraphs.
pub open spec fn outline(paras: Seq<ParaV>) -> TreeV {
    tree_at(parts_built(paras, names_of(paras)), 0)
}

fn place_name(names: &mut Vec<String>, name: &str)
    ensures
        final(names).deep_view() == name_placed(old(names).deep_view(), name@),
{
    let ghost model = names.deep_view();
    let n: usize = names.len();
    let mut i: usize = 0;
    assert(model.skip(0) =~= model);
    assert(model.take(0) + name_placed(model, name@) =~= name_placed(model, name@));
    while i < n
        invariant
            i <= n == names@.len(),
            *names == *old(names),
            model == names.deep_view(),
            model.take(i as int) + name_placed(model.skip(i as int), name@) == name_placed(
                model,
                name@,
            ),
        decreases n - i,
    {
        let ghost rest = model.skip(i as int);
        assert(model[i as int] == names@[i as int]@);
        assert(rest[0] == model[i as int]);
        if str_eq(names[i].as_str(), name) {
            assert(model.take(i as int) + rest =~= model);
            return;
        }
        if text_before(name, names[i].as_str()) {
            names.insert(i, owned(name));
            assert(names.deep_view() =~= model.take(i as int) + (seq![name@] + rest));
            return;
        }
        proof {
            assert(rest.drop_first() =~= model.skip(i + 1));
            assert(model.take(i + 1) =~= model.take(i as int).push(model[i as int]));
            assert(model.take(i + 1) + name_placed(model.skip(i + 1), name@) =~= model.take(
                i as int,
            ) + name_placed(rest, name@));
        }
        i = i + 1;
    }
    assert(model.skip(i as int) =~= Seq::<Seq<char>>::empty());
    push_deep(names, owned(name));
    assert(names.deep_view() =~= model.take(i as int) + seq![name@]);
}

fn sort_in<'a>(paras: &mut Vec<&'a PureParagraph>, p: &'a PureParagraph)
    ensures
        final(paras).deep_view() == para_sorted_in(old(paras).deep_view(), p.deep_view()),
{
    let ghost model = paras.deep_view();
    let ghost new = p.deep_view();
    let n: usize = paras.len();
    let mut i: usize = n;
    assert(model.take(n as int) =~= model);
    assert(model.skip(n as int) =~= Seq::<ParaV>::empty());
    assert(para_sorted_in(model, new) + Seq::<ParaV>::empty() =~= para_sorted_in(model, new));
    while i > 0 && paras[i - 1].xml_event_index > p.xml_event_index
        invariant
            i <= n == paras@.len(),
            model == paras.deep_view(),
            new == p.deep_view(),
            para_sorted_in(model.take(i as int), new) + model.skip(i as int) == para_sorted_in(
                model,
                new,
            ),
        decreases i,
    {
        proof {
            assert(model[i - 1] == paras@[i - 1].deep_view());
            assert(model.take(i as int).drop_last() =~= model.take(i - 1));
            assert(model.skip(i - 1) =~= seq![model[i - 1]] + model.skip(i as int));
            let rest = para_sorted_in(model.take(i - 1), new);
            assert(rest.push(model[i - 1]) + model.skip(i as int) =~= rest + model.skip(i - 1));
        }
        i = i - 1;
    }
    proof {
        if i > 0 {
            assert(model[i - 1] == paras@[i - 1].deep_view());
            assert(model.take(i as int).last() == model[i - 1]);
        }
        assert(para_sorted_in(model.take(i as int), new) =~= model.take(i as int).push(new));
    }
    paras.insert(i, p);
    assert(paras.deep_view() =~= model.take(i as int).push(new) + model.skip(i as int));
}

fn part_paragraphs<'a>(paras: &'a Vec<PureParagraph>, name: &str) -> (r: Vec<&'a PureParagraph>)
    ensures
        r.deep_view() == paras_in(paras.deep_view(), name@),
{
    let ghost model = paras.deep_view();
    let mut out: Vec<&'a PureParagraph> = Vec::new();
    let mut i: usize = 0;
    assert(model.take(0) =~= Seq::<ParaV>::empty());
    assert(out.deep_view() =~= Seq::<ParaV>::empty());
    while i < paras.len()
        invariant
            i <= paras@.len(),
            model == paras.deep_view(),
            out.deep_view() == paras_in(model.take(i as int), name@),
        decreases paras@.len() - i,
    {
        assert(model[i as int] == paras@[i as int].deep_view());
        assert(model.take(i + 1).drop_last() =~= model.take(i as int));
        if str_eq(paras[i].part_name.as_str(), name) {
            sort_in(&mut out, &paras[i]);
        }
        i = i + 1;
    }
    assert(model.take(i as int) =~= model);
    out
}

fn part_names(paras: &Vec<PureParagraph>) -> (r: Vec<String>)
    ensures
        r.deep_view() == names_of(paras.deep_view()),
{
    let ghost model = paras.deep_view();
    let mut out: Vec<String> = Vec::new();
    let mut i: usize = 0;
    assert(model.take(0) =~= Seq::<ParaV>::empty());
    assert(out.deep_view() =~= Seq::<Seq<char>>::empty());
    while i < paras.len()
        invariant
            i <= paras@.len(),
            model == paras.deep_view(),
            out.deep_view() == names_of(model.take(i as int)),
        decreases paras@.len() - i,
    {
        assert(model[i as int] == paras@[i as int].deep_view());
        assert(model.take(i + 1).drop_last() =~= model.take(i as int));
        place_name(&mut out, paras[i].part_name.as_str());
        i = i + 1;
    }
    assert(model.take(i as int) =~= model);
    out
}

fn bare_node(kind: StructureNodeKind, part_name: Option<String>) -> (r: NodeItem)
    ensures
        r.deep_view() == (ItemV { part_name: part_name.deep_view(), ..bare_item(kind) }),
{
    NodeItem {
        kind,
        part_name,
        loc: None,
        heading_level: None,
        num_id: None,
        ilvl: None,
        text: None,
    }
}

/// The outline of a document: under the root its parts by name, and in them, in the order of the
/// text, headings under headings, and lists and paragraphs under the last heading.
pub fn build_structure(pure: &PureTextJson) -> (r: StructureJson)
    ensures
        r.version == 1,
        r.placeholder_prefix@ == pure.placeholder_prefix@,
        tree_of(r.root) == outline(pure.paragraphs.deep_view()),
{
    let ghost paras = pure.paragraphs.deep_view();
    let names: Vec<String> = part_names(&pure.paragraphs);
    let ghost model = names.deep_view();
    let mut st = Build { arena: Vec::new(), sections: Vec::new(), list: new_list_ctx() };
    assert(st.arena.deep_view() =~= Seq::<NodeV>::empty());
    let _ = arena_add(&mut st.arena, None, bare_node(StructureNodeKind::Root, None));
    let mut i: usize = 0;
    assert(model.take(0) =~= Seq::<Seq<char>>::empty());
    while i < names.len()
        invariant
            i <= names@.len(),
            model == names.deep_view(),
            paras == pure.paragraphs.deep_view(),
            table_ok(st.arena.deep_view()),
            st.arena@.len() > 0,
            st.arena.deep_view() == parts_built(paras, model.take(i as int)),
        decreases names@.len() - i,
    {
        assert(model[i as int] == names@[i as int]@);
        assert(model.take(i + 1).drop_last() =~= model.take(i as int));
        let part: usize = arena_add(
            &mut st.arena,
            Some(0),
            bare_node(StructureNodeKind::Part, Some(names[i].clone())),
        );
        let own: Vec<&PureParagraph> = part_paragraphs(&pure.paragraphs, names[i].as_str());
        build_part_tree(&mut st, part, &own);
        i = i + 1;
    }
    assert(model.take(i as int) =~= model);
    StructureJson {
        version: 1,
        placeholder_prefix: pure.placeholder_prefix.clone(),
        root: arena_to_tree(0, &st.arena),
    }
}

/// The outline of a document.
pub fn extract_structure_json(docx: &[u8]) -> (r: Result<StructureJson, DocxError>)
    ensures
        match r {
            Ok(s) => match pure_text_of(docx@) {
                Ok(pure) => s.version == 1 && s.placeholder_prefix@ == pure.placeholder_prefix
                    && tree_of(s.root) == outline(pure.paragraphs),
                Err(_) => false,
            },
            Err(e) => pure_text_of(docx@) == Err::<PureTextV, _>(e.deep_view()),
        },
{
    match extract_pure_text(docx) {
        Ok(pure) => Ok(build_structure(&pure)),
        Err(e) => Err(e),
    }
}

/// The name of the file that the outline of a document is written to, beside the document.
pub fn default_structure_output_for(stem: Option<&str>) -> (r: StructureOutputs)
    ensures
        r.structure_json_path@ == output_name(stem.deep_view(), ".structure.json"@),
{
    StructureOutputs { structure_json_path: output_file_name(stem, ".structure.json") }
}

} // verus!
