//! The outline of a document in reading order.

use crate::docx::nesting::heading_at;
use crate::docx::outline::{grown, item_fits, items_fit, lemma_part_grown};
use crate::docx::pure_text::ParaV;
use crate::docx::structure::{
    bare_item, item_level, lemma_added_ok, lemma_heading_level, list_cut, list_deepened, list_item,
    list_key_of, list_nested, list_opened, names_of, node_added, outline, para_heading, para_item,
    para_placed, para_sorted_in, paras_in, part_built, parts_built, table_ok, tree_at, BuildV, ItemV,
    LocV, NodeV, StructureNodeKind, TreeV,
};
use vstd::prelude::*;

verus! {

/// What the nodes of a tree hold, each before those under it.
pub open spec fn told(t: TreeV) -> Seq<ItemV>
    decreases t,
{
    seq![t.item] + all_told(t.children)
}

/// What the nodes of some trees hold, each before those under it.
pub open spec fn all_told(ts: Seq<TreeV>) -> Seq<ItemV>
    decreases ts,
{
    if ts.len() == 0 {
        Seq::empty()
    } else {
        all_told(ts.subrange(0, ts.len() - 1)) + told(ts[ts.len() - 1])
    }
}

/// Whether all nodes from `i` on downwards come before `b` in the table.
spec fn below(table: Seq<NodeV>, i: int, b: int) -> bool
    decreases table.len() - i,
{
    &&& i < b
    &&& forall|k: int|
        0 <= k < table[i].children.len() ==> i < #[trigger] table[i].children[k] < table.len()
            && below(table, table[i].children[k] as int, b)
}

/// Whether under every node from `i` on downwards all that belongs to one node comes before the next
/// one in the table.
spec fn neat(table: Seq<NodeV>, i: int) -> bool
    decreases table.len() - i,
{
    &&& forall|k: int|
        0 <= k < table[i].children.len() ==> i < #[trigger] table[i].children[k] < table.len()
            && neat(table, table[i].children[k] as int)
    &&& forall|k: int, l: int|
        0 <= k < l < table[i].children.len() ==> below(
            table,
            #[trigger] table[i].children[k] as int,
            #[trigger] table[i].children[l] as int,
        )
}

/// Whether the node `s[k]` is the last one under the one before it.
spec fn linked(table: Seq<NodeV>, s: Seq<nat>, k: int) -> bool {
    let up = table[s[k - 1] as int].children;
    up.len() > 0 && up.last() == s[k]
}

/// Whether each node is the last one under the one before it.
spec fn spine(table: Seq<NodeV>, s: Seq<nat>) -> bool {
    &&& s.len() > 0
    &&& forall|k: int| 0 <= k < s.len() ==> #[trigger] s[k] < table.len()
    &&& forall|k: int| 0 < k < s.len() ==> #[trigger] linked(table, s, k)
}

/// Whether two tables differ only at the node `c` and in what was added.
spec fn differs_at(table: Seq<NodeV>, after: Seq<NodeV>, c: int) -> bool {
    &&& table_ok(table)
    &&& table_ok(after)
    &&& table.len() <= after.len()
    &&& forall|i: int| 0 <= i < table.len() && i != c ==> #[trigger] after[i] == table[i]
}

proof fn lemma_rises(table: Seq<NodeV>, s: Seq<nat>, k: int, l: int)
    requires
        table_ok(table),
        spine(table, s),
        0 <= k <= l < s.len(),
    ensures
        s[k] <= s[l],
        k < l ==> s[k] < s[l],
    decreases l - k,
{
    if k < l {
        lemma_rises(table, s, k, l - 1);
        let up = table[s[l - 1] as int].children;
        assert(linked(table, s, l));
        assert(s[l - 1] < table[s[l - 1] as int].children[up.len() - 1]);
    }
}

/// A node below `b` keeps its tree where nothing before `b` changes.
proof fn lemma_same_below(table: Seq<NodeV>, after: Seq<NodeV>, c: int, i: int, b: int)
    requires
        differs_at(table, after, c),
        0 <= i < table.len(),
        below(table, i, b),
        b <= c,
    ensures
        tree_at(after, i) == tree_at(table, i),
        neat(table, i) ==> neat(after, i),
        below(after, i, b),
    decreases table.len() - i,
{
    assert(after[i] == table[i]);
    let kids = table[i].children;
    assert forall|k: int| 0 <= k < kids.len() implies tree_at(after, #[trigger] kids[k] as int)
        == tree_at(table, kids[k] as int) && below(after, kids[k] as int, b) && (neat(table, i)
        ==> neat(after, kids[k] as int)) by {
        let d = table[i].children[k] as int;
        assert(below(table, d, b));
        lemma_same_below(table, after, c, d, b);
    }
    assert(tree_at(after, i).children =~= tree_at(table, i).children);
    if neat(table, i) {
        assert forall|k: int, l: int| 0 <= k < l < after[i].children.len() implies below(
            after,
            #[trigger] after[i].children[k] as int,
            #[trigger] after[i].children[l] as int,
        ) by {
            let d = table[i].children[k] as int;
            let e = table[i].children[l] as int;
            assert(below(table, d, e));
            assert(below(table, e, b));
            lemma_same_below(table, after, c, d, e);
        }
        assert forall|k: int| 0 <= k < after[i].children.len() implies i
            < #[trigger] after[i].children[k] < after.len() && neat(
            after,
            after[i].children[k] as int,
        ) by {
            assert(kids[k] == after[i].children[k]);
        }
    }
    assert forall|k: int| 0 <= k < after[i].children.len() implies i
        < #[trigger] after[i].children[k] < after.len() && below(
        after,
        after[i].children[k] as int,
        b,
    ) by {
        assert(kids[k] == after[i].children[k]);
    }
}

/// A node behind `c` keeps its tree where only `c` changes.
proof fn lemma_same_behind(table: Seq<NodeV>, after: Seq<NodeV>, c: int, i: int)
    requires
        differs_at(table, after, c),
        0 <= c < i < table.len(),
    ensures
        tree_at(after, i) == tree_at(table, i),
        neat(table, i) ==> neat(after, i),
        below(after, i, table.len() as int),
        forall|b: int| #[trigger] below(table, i, b) ==> below(after, i, b),
    decreases table.len() - i,
{
    assert(after[i] == table[i]);
    let kids = table[i].children;
    assert forall|k: int| 0 <= k < kids.len() implies tree_at(after, #[trigger] kids[k] as int)
        == tree_at(table, kids[k] as int) && below(after, kids[k] as int, table.len() as int) && (
    neat(table, i) ==> neat(after, kids[k] as int)) && i < kids[k] < table.len() && (forall|b: int|
     #[trigger] below(table, kids[k] as int, b) ==> below(after, kids[k] as int, b)) by {
        let d = table[i].children[k] as int;
        assert(i < d < table.len());
        lemma_same_behind(table, after, c, d);
    }
    assert(tree_at(after, i).children =~= tree_at(table, i).children);
    assert forall|b: int| #[trigger] below(table, i, b) implies below(after, i, b) by {
        assert forall|k: int| 0 <= k < after[i].children.len() implies i
            < #[trigger] after[i].children[k] < after.len() && below(
            after,
            after[i].children[k] as int,
            b,
        ) by {
            assert(kids[k] == table[i].children[k]);
            assert(below(table, kids[k] as int, b));
        }
    }
    assert forall|k: int| 0 <= k < after[i].children.len() implies i
        < #[trigger] after[i].children[k] < after.len() && below(
        after,
        after[i].children[k] as int,
        table.len() as int,
    ) by {
        assert(kids[k] == after[i].children[k]);
    }
    if neat(table, i) {
        assert forall|k: int, l: int| 0 <= k < l < after[i].children.len() implies below(
            after,
            #[trigger] after[i].children[k] as int,
            #[trigger] after[i].children[l] as int,
        ) by {
            let d = table[i].children[k] as int;
            let e = table[i].children[l] as int;
            assert(kids[k] == d);
            assert(below(table, d, e));
        }
        assert forall|k: int| 0 <= k < after[i].children.len() implies i
            < #[trigger] after[i].children[k] < after.len() && neat(
            after,
            after[i].children[k] as int,
        ) by {
            assert(kids[k] == after[i].children[k]);
        }
    }
}

proof fn lemma_all_told_push(ts: Seq<TreeV>, t: TreeV)
    ensures
        all_told(ts.push(t)) == all_told(ts) + told(t),
{
    let more = ts.push(t);
    assert(more.subrange(0, more.len() - 1) =~= ts);
}

/// The nodes under `i` after a node was added there.
proof fn lemma_end_kids(table: Seq<NodeV>, i: int, item: ItemV, j: int)
    requires
        table_ok(table),
        table_ok(node_added(table, Some(i as nat), item)),
        0 <= i < table.len(),
        neat(table, i),
        0 <= j < table[i].children.len(),
    ensures
        ({
            let after = node_added(table, Some(i as nat), item);
            let d = table[i].children[j] as int;
            &&& i < d < table.len()
            &&& tree_at(after, d) == tree_at(table, d)
            &&& neat(after, d)
            &&& below(after, d, table.len() as int)
            &&& forall|b: int| #[trigger] below(table, d, b) ==> below(after, d, b)
        }),
{
    let after = node_added(table, Some(i as nat), item);
    let d = table[i].children[j] as int;
    assert(differs_at(table, after, i));
    assert(i < d < table.len());
    lemma_same_behind(table, after, i, d);
}

/// A node that is added under another is told last there.
proof fn lemma_told_end(table: Seq<NodeV>, i: int, item: ItemV)
    requires
        table_ok(table),
        table_ok(node_added(table, Some(i as nat), item)),
        0 <= i < table.len(),
        neat(table, i),
    ensures
        ({
            let after = node_added(table, Some(i as nat), item);
            told(tree_at(after, i)) == told(tree_at(table, i)).push(item)
        }),
{
    let after = node_added(table, Some(i as nat), item);
    let n = table.len() as int;
    let kids = table[i].children;
    let old_t = tree_at(table, i);
    let new_t = tree_at(after, i);
    assert(after[i].children == kids.push(n as nat));
    let leaf = tree_at(after, n);
    assert(after[n] == NodeV { item, children: Seq::empty() });
    assert(leaf.children =~= Seq::<TreeV>::empty());
    assert(told(leaf) =~= seq![item]);
    assert(new_t.children =~= old_t.children.push(leaf)) by {
        assert forall|j: int| 0 <= j < kids.len() implies #[trigger] new_t.children[j]
            == old_t.children[j] by {
            lemma_end_kids(table, i, item, j);
            assert(after[i].children[j] == kids[j]);
        }
    }
    lemma_all_told_push(old_t.children, leaf);
    assert(told(new_t) =~= told(old_t).push(item));
}

proof fn lemma_neat_end(table: Seq<NodeV>, i: int, item: ItemV)
    requires
        table_ok(table),
        table_ok(node_added(table, Some(i as nat), item)),
        0 <= i < table.len(),
        neat(table, i),
    ensures
        neat(node_added(table, Some(i as nat), item), i),
{
    let after = node_added(table, Some(i as nat), item);
    let n = table.len() as int;
    let kids = table[i].children;
    assert(after[i].children == kids.push(n as nat));
    assert(after[n] == NodeV { item, children: Seq::empty() });
    assert(neat(after, n));
    assert forall|j: int| 0 <= j < after[i].children.len() implies i
        < #[trigger] after[i].children[j] < after.len() && neat(
        after,
        after[i].children[j] as int,
    ) by {
        if j < kids.len() {
            lemma_end_kids(table, i, item, j);
            assert(after[i].children[j] == kids[j]);
        }
    }
    assert forall|j: int, l: int| 0 <= j < l < after[i].children.len() implies below(
        after,
        #[trigger] after[i].children[j] as int,
        #[trigger] after[i].children[l] as int,
    ) by {
        lemma_end_kids(table, i, item, j);
        assert(after[i].children[j] == kids[j]);
        if l < kids.len() {
            assert(after[i].children[l] == kids[l]);
            assert(below(table, table[i].children[j] as int, table[i].children[l] as int));
        }
    }
}

/// What is told last under the last node is told last.
proof fn lemma_told_up(table: Seq<NodeV>, after: Seq<NodeV>, c: int, i: int, item: ItemV)
    requires
        differs_at(table, after, c),
        0 <= i < table.len(),
        neat(table, i),
        table[i].children.len() > 0,
        i < table[i].children.last() <= c,
        ({
            let e = table[i].children.last() as int;
            told(tree_at(after, e)) == told(tree_at(table, e)).push(item)
        }),
    ensures
        told(tree_at(after, i)) == told(tree_at(table, i)).push(item),
{
    let kids = table[i].children;
    let old_t = tree_at(table, i);
    let new_t = tree_at(after, i);
    let z = kids.len() - 1;
    let e = table[i].children[z] as int;
    assert(after[i] == table[i]);
    assert(i < e < table.len());
    let front = old_t.children.take(z);
    assert(old_t.children =~= front.push(tree_at(table, e)));
    assert(new_t.children =~= front.push(tree_at(after, e))) by {
        assert forall|j: int| 0 <= j < z implies #[trigger] new_t.children[j] == front[j] by {
            let d = table[i].children[j] as int;
            assert(i < d < table.len());
            assert(below(table, d, e));
            lemma_same_below(table, after, c, d, e);
            assert(after[i].children[j] == kids[j]);
        }
    }
    lemma_all_told_push(front, tree_at(table, e));
    lemma_all_told_push(front, tree_at(after, e));
    assert(told(new_t) =~= told(old_t).push(item));
}

proof fn lemma_neat_up(table: Seq<NodeV>, after: Seq<NodeV>, c: int, i: int)
    requires
        differs_at(table, after, c),
        0 <= i < table.len(),
        neat(table, i),
        table[i].children.len() > 0,
        i < table[i].children.last() <= c,
        neat(after, table[i].children.last() as int),
    ensures
        neat(after, i),
{
    let kids = table[i].children;
    let z = kids.len() - 1;
    let e = table[i].children[z] as int;
    assert(after[i] == table[i]);
    assert(i < e < table.len());
    assert forall|j: int| 0 <= j < after[i].children.len() implies i
        < #[trigger] after[i].children[j] < after.len() && neat(
        after,
        after[i].children[j] as int,
    ) by {
        if j < z {
            let d = table[i].children[j] as int;
            assert(i < d < table.len() && neat(table, d));
            assert(below(table, d, e));
            lemma_same_below(table, after, c, d, e);
        }
    }
    assert forall|j: int, l: int| 0 <= j < l < after[i].children.len() implies below(
        after,
        #[trigger] after[i].children[j] as int,
        #[trigger] after[i].children[l] as int,
    ) by {
        let d = table[i].children[j] as int;
        let f = table[i].children[l] as int;
        assert(i < d < table.len());
        assert(below(table, d, f));
        if l < z {
            assert(below(table, f, e));
        }
        lemma_same_below(table, after, c, d, f);
    }
}

/// A node that is added at the end of a spine is told last.
proof fn lemma_told_added(table: Seq<NodeV>, s: Seq<nat>, item: ItemV, k: int)
    requires
        table_ok(table),
        spine(table, s),
        0 <= k < s.len(),
        neat(table, s[k] as int),
        table_ok(node_added(table, Some(s.last()), item)),
    ensures
        ({
            let after = node_added(table, Some(s.last()), item);
            &&& told(tree_at(after, s[k] as int)) == told(tree_at(table, s[k] as int)).push(item)
            &&& neat(after, s[k] as int)
        }),
    decreases s.len() - k,
{
    let c = s.last() as int;
    assert(s[s.len() - 1] == c);
    let i = s[k] as int;
    let after = node_added(table, Some(s.last()), item);
    if k == s.len() - 1 {
        lemma_told_end(table, i, item);
        lemma_neat_end(table, i, item);
    } else {
        lemma_rises(table, s, k, k + 1);
        lemma_rises(table, s, k + 1, s.len() - 1);
        let kids = table[i].children;
        assert(linked(table, s, k + 1));
        assert(table[i].children[kids.len() - 1] == s[k + 1]);
        lemma_told_added(table, s, item, k + 1);
        assert(differs_at(table, after, c));
        lemma_told_up(table, after, c, i, item);
        lemma_neat_up(table, after, c, i);
    }
}

/// Where a paragraph stands, in the words of the outline.
pub open spec fn place_of(p: ParaV) -> LocV {
    LocV {
        para_id: p.para_id,
        part_name: p.part_name,
        xml_event_index: p.xml_event_index,
        container: p.container,
        section_index: p.section_index,
        table_index: p.table_index,
        row_index: p.row_index,
        cell_index: p.cell_index,
        p_style: p.p_style,
        num_id: p.num_id,
        num_ilvl: p.num_ilvl,
        outline_lvl: p.outline_lvl,
    }
}

/// Whether a paragraph is an item of a list: it has a number and a level, and is no heading.
pub open spec fn is_row(p: ParaV) -> bool {
    heading_at(place_of(p)) is None && p.num_id is Some && p.num_ilvl is Some
}

/// The level of a paragraph in its list: none is above the first.
pub open spec fn level_in_list(p: ParaV) -> int {
    match p.num_ilvl {
        Some(l) if l > 0 => l,
        _ => 0,
    }
}

/// The node that stands for a paragraph.
pub open spec fn node_for(p: ParaV) -> ItemV {
    ItemV {
        kind: if heading_at(place_of(p)) is Some {
            StructureNodeKind::Heading
        } else if is_row(p) {
            StructureNodeKind::ListItem
        } else {
            StructureNodeKind::Paragraph
        },
        part_name: None,
        loc: Some(place_of(p)),
        heading_level: match heading_at(place_of(p)) {
            Some(n) => Some((n % 0x1_0000_0000) as u32),
            None => None,
        },
        num_id: p.num_id,
        ilvl: p.num_ilvl,
        text: Some(p.text),
    }
}

/// The node of a list of a number and a level.
pub open spec fn list_node(num_id: Option<int>, level: int) -> ItemV {
    ItemV {
        kind: StructureNodeKind::List,
        part_name: None,
        loc: None,
        heading_level: None,
        num_id,
        ilvl: Some(level),
        text: None,
    }
}

/// Whether two paragraphs that follow one another are items of one list: they have one number, and
/// stand in one cell, or in none, of one section and part.
pub open spec fn same_list(a: ParaV, b: ParaV) -> bool {
    &&& is_row(a)
    &&& is_row(b)
    &&& a.num_id == b.num_id
    &&& a.container == b.container
    &&& a.section_index == b.section_index
    &&& a.table_index == b.table_index
    &&& a.row_index == b.row_index
    &&& a.cell_index == b.cell_index
    &&& a.part_name == b.part_name
}

/// The list that begins with the last of some paragraphs, if one does: a new one with an item that does
/// not go on with the list before it, and one inside that with an item one level below.
pub open spec fn list_begun(q: Seq<ParaV>) -> Seq<ItemV> {
    let p = q.last();
    let n = q.len() as int;
    if !is_row(p) {
        Seq::empty()
    } else if n > 1 && same_list(q[n - 2], p) {
        if level_in_list(p) == level_in_list(q[n - 2]) + 1 {
            seq![list_node(p.num_id, level_in_list(p))]
        } else {
            Seq::empty()
        }
    } else {
        seq![list_node(p.num_id, 0)]
    }
}

/// The paragraphs in their order, each with the list that begins with it before it.
pub open spec fn read_out(q: Seq<ParaV>) -> Seq<ItemV>
    decreases q.len(),
{
    if q.len() == 0 {
        Seq::empty()
    } else {
        read_out(q.drop_last()) + list_begun(q) + seq![node_for(q.last())]
    }
}

/// Whether the paragraph at `j`, if it is an item, is at the first level where it begins a list, and
/// else at most one level below the item before it.
pub open spec fn level_fits(q: Seq<ParaV>, j: int) -> bool {
    is_row(q[j]) ==> if j > 0 && same_list(q[j - 1], q[j]) {
        level_in_list(q[j]) <= level_in_list(q[j - 1]) + 1
    } else {
        level_in_list(q[j]) == 0
    }
}

/// Whether no list begins below its first level, and no item is more than one level below the one
/// before it.
pub open spec fn smooth(q: Seq<ParaV>) -> bool {
    forall|j: int| 0 <= j < q.len() ==> #[trigger] level_fits(q, j)
}

/// The nodes from a part down to the last that was added: the part and the open headings, and then by
/// turns a list and its last item.
spec fn laid(st: BuildV, chain: Seq<nat>) -> bool {
    let n = st.sections.len() as int;
    &&& n > 0
    &&& st.list.lists.len() == st.list.items.len()
    &&& chain.len() == n + 2 * st.list.lists.len()
    &&& forall|k: int| 0 <= k < n ==> #[trigger] st.sections[k] == chain[k]
    &&& forall|k: int|
        0 <= k < st.list.lists.len() ==> #[trigger] st.list.lists[k] == chain[n + 2 * k]
    &&& forall|k: int|
        0 <= k < st.list.items.len() ==> #[trigger] st.list.items[k] == Some(chain[n + 2 * k + 1])
}

/// Whether what is told from the node `part` on is `out`, and ends with the last node of `chain`.
#[verifier::opaque]
spec fn telling(table: Seq<NodeV>, chain: Seq<nat>, part: nat, out: Seq<ItemV>) -> bool {
    &&& table_ok(table)
    &&& spine(table, chain)
    &&& chain[0] == part
    &&& neat(table, part as int)
    &&& told(tree_at(table, part as int)) == out
}

/// A node that is added at the end of what is left of a spine.
proof fn lemma_grow(
    table: Seq<NodeV>,
    chain: Seq<nat>,
    part: nat,
    out: Seq<ItemV>,
    j: int,
    item: ItemV,
)
    requires
        telling(table, chain, part, out),
        1 <= j <= chain.len(),
    ensures
        telling(
            node_added(table, Some(chain[j - 1]), item),
            chain.take(j).push(table.len()),
            part,
            out.push(item),
        ),
        node_added(table, Some(chain[j - 1]), item).len() == table.len() + 1,
{
    reveal(telling);
    let s = chain.take(j);
    let after = node_added(table, Some(chain[j - 1]), item);
    let more = s.push(table.len());
    assert(s.last() == chain[j - 1]);
    assert(spine(table, s)) by {
        assert forall|k: int| 0 < k < s.len() implies #[trigger] linked(table, s, k) by {
            assert(linked(table, chain, k));
            assert(s[k] == chain[k] && s[k - 1] == chain[k - 1]);
        }
    }
    lemma_added_ok(table, Some(chain[j - 1]), item);
    lemma_told_added(table, s, item, 0);
    assert(spine(after, more)) by {
        assert forall|k: int| 0 < k < more.len() implies #[trigger] linked(after, more, k) by {
            if k < s.len() {
                assert(linked(table, s, k));
                assert(more[k] == s[k] && more[k - 1] == s[k - 1]);
                lemma_rises(table, s, k - 1, s.len() - 1);
                assert(after[s[k - 1] as int] == table[s[k - 1] as int]);
            } else {
                assert(more[k - 1] == s.last());
            }
        }
    }
}

/// Which list is open after some paragraphs: that of the last of them, where it is an item.
spec fn list_of_last(st: BuildV, q: Seq<ParaV>) -> bool {
    if q.len() > 0 && is_row(q.last()) {
        let p = q.last();
        &&& st.list.lists.len() == level_in_list(p) + 1
        &&& st.list.num_id == p.num_id
        &&& st.list.key == Some(list_key_of(p))
        &&& st.list.section_parent == Some(st.sections.last())
    } else {
        st.list.lists.len() == 0
    }
}

proof fn lemma_heading_told(st: BuildV, chain: Seq<nat>, part: nat, out: Seq<ItemV>, p: ParaV) -> (r:
    Seq<nat>)
    requires
        laid(st, chain),
        telling(st.table, chain, part, out),
        heading_at(place_of(p)) is Some,
    ensures
        laid(para_placed(st, p), r),
        telling(para_placed(st, p).table, r, part, out.push(node_for(p))),
        para_placed(st, p).list.lists.len() == 0,
{
    let level = para_heading(p)->Some_0;
    lemma_heading_level(p);
    let sections = if st.sections.len() > level {
        st.sections.take(level as int)
    } else {
        st.sections
    };
    let j = sections.len() as int;
    let item = para_item(StructureNodeKind::Heading, Some((level % 0x1_0000_0000) as u32), p);
    assert(item == node_for(p));
    assert(sections.last() == st.sections[j - 1]);
    lemma_grow(st.table, chain, part, out, j, item);
    chain.take(j).push(st.table.len())
}

proof fn lemma_plain_told(st: BuildV, chain: Seq<nat>, part: nat, out: Seq<ItemV>, p: ParaV) -> (r: Seq<
    nat,
>)
    requires
        laid(st, chain),
        telling(st.table, chain, part, out),
        heading_at(place_of(p)) is None,
        !is_row(p),
    ensures
        laid(para_placed(st, p), r),
        telling(para_placed(st, p).table, r, part, out.push(node_for(p))),
        para_placed(st, p).list.lists.len() == 0,
{
    let j = st.sections.len() as int;
    let item = para_item(StructureNodeKind::Paragraph, None, p);
    assert(item == node_for(p));
    assert(st.sections.last() == chain[j - 1]);
    lemma_grow(st.table, chain, part, out, j, item);
    let more = chain.take(j).push(st.table.len());
    lemma_shorter(node_added(st.table, Some(st.sections.last()), item), more, part, out.push(item), j);
    assert(more.take(j) =~= chain.take(j));
    chain.take(j)
}

/// What is left of a spine is one.
proof fn lemma_shorter(table: Seq<NodeV>, chain: Seq<nat>, part: nat, out: Seq<ItemV>, j: int)
    requires
        telling(table, chain, part, out),
        1 <= j <= chain.len(),
    ensures
        telling(table, chain.take(j), part, out),
{
    reveal(telling);
    let s = chain.take(j);
    assert forall|k: int| 0 < k < s.len() implies #[trigger] linked(table, s, k) by {
        assert(linked(table, chain, k));
        assert(s[k] == chain[k] && s[k - 1] == chain[k - 1]);
    }
}

/// An item that begins a list.
proof fn lemma_new_list_told(
    st: BuildV,
    chain: Seq<nat>,
    part: nat,
    out: Seq<ItemV>,
    p: ParaV,
) -> (r: Seq<nat>)
    requires
        laid(st, chain),
        telling(st.table, chain, part, out),
        is_row(p),
        level_in_list(p) == 0,
        !(st.list.section_parent == Some(st.sections.last()) && st.list.num_id == p.num_id
            && st.list.key == Some(list_key_of(p)) && st.list.lists.len() > 0),
    ensures
        laid(para_placed(st, p), r),
        telling(
            para_placed(st, p).table,
            r,
            part,
            out.push(list_node(p.num_id, 0)).push(node_for(p)),
        ),
        para_placed(st, p).sections == st.sections,
        list_of_last(para_placed(st, p), seq![p]),
{
    let num_id = p.num_id->Some_0;
    let n = st.sections.len() as int;
    let list = list_item(num_id, 0);
    assert(list == list_node(p.num_id, 0));
    assert(st.sections.last() == chain[n - 1]);
    lemma_grow(st.table, chain, part, out, n, list);
    let opened = list_opened(st, p, num_id);
    let c1 = chain.take(n).push(st.table.len());
    assert(item_level(p.num_ilvl->Some_0) == 0);
    assert(list_cut(opened, 0) == opened);
    assert(list_deepened(opened, num_id, 0) == opened);
    let item = para_item(StructureNodeKind::ListItem, None, p);
    assert(item == node_for(p));
    assert(opened.list.lists.last() == c1[n]);
    lemma_grow(opened.table, c1, part, out.push(list), n + 1, item);
    let after = para_placed(st, p);
    let c2 = c1.push(opened.table.len());
    assert(c1.take(n + 1) =~= c1);
    assert forall|k: int| 0 <= k < n implies #[trigger] after.sections[k] == c2[k] by {
        assert(st.sections[k] == chain[k]);
    }
    c2
}

/// An item that goes on with a list, at a level that the list has.
proof fn lemma_next_item_told(
    st: BuildV,
    chain: Seq<nat>,
    part: nat,
    out: Seq<ItemV>,
    p: ParaV,
) -> (r: Seq<nat>)
    requires
        laid(st, chain),
        telling(st.table, chain, part, out),
        is_row(p),
        st.list.section_parent == Some(st.sections.last()),
        st.list.num_id == p.num_id,
        st.list.key == Some(list_key_of(p)),
        level_in_list(p) < st.list.lists.len(),
    ensures
        laid(para_placed(st, p), r),
        telling(para_placed(st, p).table, r, part, out.push(node_for(p))),
        para_placed(st, p).sections == st.sections,
        list_of_last(para_placed(st, p), seq![p]),
{
    let num_id = p.num_id->Some_0;
    let n = st.sections.len() as int;
    let level = item_level(p.num_ilvl->Some_0);
    assert(level == level_in_list(p));
    assert(list_opened(st, p, num_id) == st);
    let cut = list_cut(st, level);
    assert(cut.list.lists.len() == level + 1);
    assert(list_deepened(cut, num_id, level) == cut);
    let item = para_item(StructureNodeKind::ListItem, None, p);
    assert(item == node_for(p));
    let j = n + 2 * level + 1;
    assert(cut.list.lists.last() == st.list.lists[level as int]);
    assert(cut.list.lists.last() == chain[j - 1]);
    lemma_grow(st.table, chain, part, out, j, item);
    let after = para_placed(st, p);
    let r = chain.take(j).push(st.table.len());
    assert forall|k: int| 0 <= k < n implies #[trigger] after.sections[k] == r[k] by {
        assert(st.sections[k] == chain[k]);
    }
    assert forall|k: int| 0 <= k < after.list.lists.len() implies #[trigger] after.list.lists[k]
        == r[n + 2 * k] by {
        assert(after.list.lists[k] == st.list.lists[k]);
    }
    assert forall|k: int| 0 <= k < after.list.items.len() implies #[trigger] after.list.items[k]
        == Some(r[n + 2 * k + 1]) by {
        if k < level {
            assert(after.list.items[k] == st.list.items[k]);
        }
    }
    r
}

/// An item one level below the last, in a list inside that.
proof fn lemma_deeper_item_told(
    st: BuildV,
    chain: Seq<nat>,
    part: nat,
    out: Seq<ItemV>,
    p: ParaV,
) -> (r: Seq<nat>)
    requires
        laid(st, chain),
        telling(st.table, chain, part, out),
        is_row(p),
        st.list.section_parent == Some(st.sections.last()),
        st.list.num_id == p.num_id,
        st.list.key == Some(list_key_of(p)),
        level_in_list(p) == st.list.lists.len() > 0,
    ensures
        laid(para_placed(st, p), r),
        telling(
            para_placed(st, p).table,
            r,
            part,
            out.push(list_node(p.num_id, level_in_list(p))).push(node_for(p)),
        ),
        para_placed(st, p).sections == st.sections,
        list_of_last(para_placed(st, p), seq![p]),
{
    let num_id = p.num_id->Some_0;
    let n = st.sections.len() as int;
    let m = st.list.lists.len() as int;
    let level = item_level(p.num_ilvl->Some_0);
    assert(level == m);
    assert(list_opened(st, p, num_id) == st);
    assert(list_cut(st, level) == st);
    let deep = list_nested(st, num_id);
    reveal_with_fuel(list_deepened, 2);
    assert(list_deepened(st, num_id, level) == deep);
    let list = list_item(num_id, m);
    assert(list == list_node(p.num_id, m));
    let z = n + 2 * m;
    assert(st.list.items[m - 1] == Some(chain[n + 2 * (m - 1) + 1]));
    lemma_grow(st.table, chain, part, out, z, list);
    let c1 = chain.take(z).push(st.table.len());
    let item = para_item(StructureNodeKind::ListItem, None, p);
    assert(item == node_for(p));
    assert(deep.list.lists.last() == c1[z]);
    lemma_grow(deep.table, c1, part, out.push(list), z + 1, item);
    let after = para_placed(st, p);
    let r = c1.push(deep.table.len());
    assert(c1.take(z + 1) =~= c1);
    assert forall|k: int| 0 <= k < n implies #[trigger] after.sections[k] == r[k] by {
        assert(st.sections[k] == chain[k]);
    }
    assert forall|k: int| 0 <= k < after.list.lists.len() implies #[trigger] after.list.lists[k]
        == r[n + 2 * k] by {
        if k < m {
            assert(after.list.lists[k] == st.list.lists[k]);
        }
    }
    assert forall|k: int| 0 <= k < after.list.items.len() implies #[trigger] after.list.items[k]
        == Some(r[n + 2 * k + 1]) by {
        if k < m {
            assert(after.list.items[k] == st.list.items[k]);
        }
    }
    r
}

proof fn lemma_part_told(table: Seq<NodeV>, part: nat, q: Seq<ParaV>) -> (r: Seq<nat>)
    requires
        table_ok(table),
        part < table.len(),
        table[part as int].children.len() == 0,
        smooth(q),
    ensures
        laid(part_built(table, part, q), r),
        telling(
            part_built(table, part, q).table,
            r,
            part,
            seq![table[part as int].item] + read_out(q),
        ),
        list_of_last(part_built(table, part, q), q),
    decreases q.len(),
{
    let head = seq![table[part as int].item];
    if q.len() == 0 {
        reveal(telling);
        let t = tree_at(table, part as int);
        assert(t.children =~= Seq::<TreeV>::empty());
        assert(told(t) =~= head + read_out(q));
        seq![part]
    } else {
        let front = q.drop_last();
        assert(smooth(front)) by {
            assert forall|j: int| 0 <= j < front.len() implies #[trigger] level_fits(front, j) by {
                assert(level_fits(q, j));
                assert(front[j] == q[j]);
                if j > 0 {
                    assert(front[j - 1] == q[j - 1]);
                }
            }
        }
        let chain = lemma_part_told(table, part, front);
        let st = part_built(table, part, front);
        let out = head + read_out(front);
        let p = q.last();
        let n = q.len() as int;
        assert(level_fits(q, n - 1));
        if n > 1 {
            assert(front.last() == q[n - 2]);
        }
        let after = head + read_out(q);
        if !is_row(p) {
            assert(after =~= out.push(node_for(p)));
            if heading_at(place_of(p)) is Some {
                lemma_heading_told(st, chain, part, out, p)
            } else {
                lemma_plain_told(st, chain, part, out, p)
            }
        } else if n > 1 && same_list(q[n - 2], p) {
            assert(list_key_of(q[n - 2]) =~= list_key_of(p));
            if level_in_list(p) == level_in_list(q[n - 2]) + 1 {
                assert(after =~= out.push(list_node(p.num_id, level_in_list(p))).push(node_for(p)));
                lemma_deeper_item_told(st, chain, part, out, p)
            } else {
                assert(after =~= out.push(node_for(p)));
                lemma_next_item_told(st, chain, part, out, p)
            }
        } else {
            assert(after =~= out.push(list_node(p.num_id, 0)).push(node_for(p)));
            lemma_new_list_told(st, chain, part, out, p)
        }
    }
}

/// A node keeps its tree where no node before `n` but the first changes.
proof fn lemma_tree_kept(table: Seq<NodeV>, after: Seq<NodeV>, i: int)
    requires
        table_ok(table),
        table.len() <= after.len(),
        forall|j: int| 0 < j < table.len() ==> #[trigger] after[j] == table[j],
        0 < i < table.len(),
    ensures
        tree_at(after, i) == tree_at(table, i),
    decreases table.len() - i,
{
    let kids = table[i].children;
    assert(after[i] == table[i]);
    assert forall|k: int| 0 <= k < kids.len() implies tree_at(after, #[trigger] kids[k] as int)
        == tree_at(table, kids[k] as int) by {
        let c = table[i].children[k] as int;
        assert(i < c < table.len());
        lemma_tree_kept(table, after, c);
    }
    assert(tree_at(after, i).children =~= tree_at(table, i).children) by {
        assert forall|k: int| 0 <= k < kids.len() implies #[trigger] tree_at(after, i).children[k]
            == tree_at(table, i).children[k] by {
            assert(i < table[i].children[k] < table.len());
            assert(tree_at(after, kids[k] as int) == tree_at(table, kids[k] as int));
        }
    }
}

/// The node of a part of a name.
pub open spec fn part_node(name: Seq<char>) -> ItemV {
    ItemV {
        kind: StructureNodeKind::Part,
        part_name: Some(name),
        loc: None,
        heading_level: None,
        num_id: None,
        ilvl: None,
        text: None,
    }
}

/// What is told from the node of the part `k` on.
spec fn part_told(paras: Seq<ParaV>, names: Seq<Seq<char>>, table: Seq<NodeV>, k: int) -> bool {
    smooth(paras_in(paras, names[k])) ==> told(tree_at(table, table[0].children[k] as int)) == seq![
        part_node(names[k]),
    ] + read_out(paras_in(paras, names[k]))
}

proof fn lemma_parts_told(paras: Seq<ParaV>, names: Seq<Seq<char>>)
    ensures
        ({
            let table = parts_built(paras, names);
            &&& table.len() > 0
            &&& table_ok(table)
            &&& items_fit(table)
            &&& table[0].children.len() == names.len()
            &&& forall|k: int| 0 <= k < names.len() ==> #[trigger] part_told(paras, names, table, k)
        }),
    decreases names.len(),
{
    let table = parts_built(paras, names);
    if names.len() > 0 {
        let front = names.drop_last();
        let before = parts_built(paras, front);
        let name = names.last();
        let item = ItemV { part_name: Some(name), ..bare_item(StructureNodeKind::Part) };
        let base = node_added(before, Some(0), item);
        let part = before.len();
        let q = paras_in(paras, name);
        lemma_parts_told(paras, front);
        lemma_added_ok(before, Some(0), item);
        assert(items_fit(base)) by {
            assert forall|j: int| 0 <= j < base.len() implies item_fits(
                #[trigger] base[j].item,
            ) by {
                if j < before.len() {
                    assert(base[j].item == before[j].item);
                }
            }
        }
        lemma_part_grown(base, part, q);
        assert(grown(base, part, part_built(base, part, q)));
        assert(table[0] == base[0]);
        assert(table[0].children =~= before[0].children.push(part));
        assert forall|k: int| 0 <= k < names.len() implies #[trigger] part_told(
            paras,
            names,
            table,
            k,
        ) by {
            if k < front.len() {
                assert(front[k] == names[k]);
                assert(part_told(paras, front, before, k));
                let c = before[0].children[k] as int;
                assert(0 < c < before.len());
                assert forall|j: int| 0 < j < before.len() implies #[trigger] table[j]
                    == before[j] by {
                    assert(table[j] == base[j]);
                }
                lemma_tree_kept(before, table, c);
            } else if smooth(q) {
                assert(base[part as int] == NodeV { item, children: Seq::empty() });
                let r = lemma_part_told(base, part, q);
                reveal(telling);
                assert(item == part_node(name));
            }
        }
    } else {
        assert(table[0].children =~= Seq::<nat>::empty());
    }
}

/// The outline of a part, read from the top, gives its paragraphs in the order of their events, each
/// with the list that begins with it before it: one for each run of items of one number in one place,
/// and one inside for each step down in it. That goes for a part in which no item stands more than one
/// level below the one before it, nor below the first level at the beginning of a list.
pub proof fn law_outline_reads_in_order(paras: Seq<ParaV>, k: int)
    requires
        0 <= k < names_of(paras).len(),
        smooth(paras_in(paras, names_of(paras)[k])),
    ensures
        outline(paras).children.len() == names_of(paras).len(),
        told(outline(paras).children[k]) == seq![part_node(names_of(paras)[k])] + read_out(
            paras_in(paras, names_of(paras)[k]),
        ),
{
    let names = names_of(paras);
    let table = parts_built(paras, names);
    lemma_parts_told(paras, names);
    assert(part_told(paras, names, table, k));
    assert(0 < table[0].children[k] < table.len());
}

proof fn lemma_sorted_in(paras: Seq<ParaV>, p: ParaV)
    requires
        forall|a: int, b: int|
            0 <= a < b < paras.len() ==> (#[trigger] paras[a]).xml_event_index <= (
            #[trigger] paras[b]).xml_event_index,
    ensures
        ({
            let r = para_sorted_in(paras, p);
            &&& r.len() == paras.len() + 1
            &&& forall|a: int, b: int|
                0 <= a < b < r.len() ==> (#[trigger] r[a]).xml_event_index <= (
                #[trigger] r[b]).xml_event_index
            &&& forall|x: ParaV| #[trigger] r.contains(x) <==> x == p || paras.contains(x)
        }),
    decreases paras.len(),
{
    let r = para_sorted_in(paras, p);
    if paras.len() == 0 {
        assert(r[0] == p);
    } else if paras.last().xml_event_index > p.xml_event_index {
        let front = paras.drop_last();
        let z = paras.last();
        lemma_sorted_in(front, p);
        let s = para_sorted_in(front, p);
        assert forall|x: ParaV| #[trigger] r.contains(x) <==> x == p || paras.contains(x) by {
            if r.contains(x) {
                let a = choose|a: int| 0 <= a < r.len() && r[a] == x;
                if a < s.len() {
                    assert(s[a] == x);
                    assert(s.contains(x));
                    if front.contains(x) {
                        let b = choose|b: int| 0 <= b < front.len() && front[b] == x;
                        assert(paras[b] == x);
                    }
                } else {
                    assert(paras[paras.len() - 1] == x);
                }
            }
            if x == p || paras.contains(x) {
                if x == p {
                    assert(s.contains(p));
                    let a = choose|a: int| 0 <= a < s.len() && s[a] == p;
                    assert(r[a] == p);
                } else {
                    let b = choose|b: int| 0 <= b < paras.len() && paras[b] == x;
                    if b < front.len() {
                        assert(front[b] == x);
                        assert(s.contains(x));
                        let a = choose|a: int| 0 <= a < s.len() && s[a] == x;
                        assert(r[a] == x);
                    } else {
                        assert(r[r.len() - 1] == x);
                    }
                }
            }
        }
        assert forall|a: int, b: int| 0 <= a < b < r.len() implies (#[trigger] r[a]).xml_event_index
            <= (#[trigger] r[b]).xml_event_index by {
            if b == r.len() - 1 {
                assert(s[a] == r[a]);
                assert(s.contains(r[a]));
                if r[a] != p {
                    assert(front.contains(r[a]));
                    let c = choose|c: int| 0 <= c < front.len() && front[c] == r[a];
                    assert(paras[c] == r[a]);
                    assert(paras[c].xml_event_index <= paras[paras.len() - 1].xml_event_index);
                }
            }
        }
    } else {
        assert forall|x: ParaV| #[trigger] r.contains(x) <==> x == p || paras.contains(x) by {
            if x == p {
                assert(r[paras.len() as int] == p);
            }
            if paras.contains(x) {
                let b = choose|b: int| 0 <= b < paras.len() && paras[b] == x;
                assert(r[b] == x);
            }
        }
        assert forall|a: int, b: int| 0 <= a < b < r.len() implies (#[trigger] r[a]).xml_event_index
            <= (#[trigger] r[b]).xml_event_index by {
            if b == r.len() - 1 && a < paras.len() - 1 {
                assert(paras[a].xml_event_index <= paras[paras.len() - 1].xml_event_index);
            }
        }
    }
}

/// The paragraphs of a part are those that stand in it, in the order of their events.
pub proof fn law_paragraphs_of_a_part(paras: Seq<ParaV>, name: Seq<char>)
    ensures
        forall|a: int, b: int|
            0 <= a < b < paras_in(paras, name).len() ==> (#[trigger] paras_in(
                paras,
                name,
            )[a]).xml_event_index <= (#[trigger] paras_in(paras, name)[b]).xml_event_index,
        forall|p: ParaV| #[trigger]
            paras_in(paras, name).contains(p) <==> paras.contains(p) && p.part_name == name,
    decreases paras.len(),
{
    if paras.len() > 0 {
        let front = paras.drop_last();
        let z = paras.last();
        law_paragraphs_of_a_part(front, name);
        lemma_sorted_in(paras_in(front, name), z);
        assert forall|p: ParaV| #[trigger]
            paras_in(paras, name).contains(p) <==> paras.contains(p) && p.part_name == name by {
            if paras.contains(p) && p != z {
                let b = choose|b: int| 0 <= b < paras.len() && paras[b] == p;
                assert(front[b] == p);
            }
            if front.contains(p) {
                let b = choose|b: int| 0 <= b < front.len() && front[b] == p;
                assert(paras[b] == p);
            }
            assert(paras[paras.len() - 1] == z);
            if paras_in(front, name).contains(p) {
                assert(front.contains(p));
            }
        }
    }
}

} // verus!
