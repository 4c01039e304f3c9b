//! Every paragraph of a document has its place in the outline, once.

use crate::docx::pure_text::ParaV;
use crate::docx::structure::{
    bare_item, build_ok, item_level, lemma_added_ok, lemma_deepened_ok, lemma_heading_level,
    lemma_nested_ok, lemma_opened_ok, lemma_placed_ok, list_cut, list_deepened, list_item,
    list_nested, list_opened, loc_of, name_placed, names_of, node_added, outline, para_heading,
    para_item, para_placed, para_sorted_in, paras_in, part_built, parts_built, table_ok, tree_at,
    BuildV, ItemV, LocV, NodeV, StructureNodeKind, TreeV,
};
use crate::docx::xml::{increasing, lemma_text_less, text_less};
use vstd::prelude::*;

verus! {

/// Where a paragraph stands and what it says.
#[verifier::ext_equal]
pub struct MarkV {
    pub loc: LocV,
    pub text: Seq<char>,
}

/// Where the paragraph `p` stands and what it says.
pub open spec fn mark_of(p: ParaV) -> MarkV {
    MarkV { loc: loc_of(p), text: p.text }
}

/// Whether a node stands for a paragraph at that place with that text.
pub open spec fn bears(item: ItemV, m: MarkV) -> bool {
    item.loc == Some(m.loc) && item.text == Some(m.text)
}

/// How many nodes of a tree stand for a paragraph at that place with that text.
pub open spec fn times_in(t: TreeV, m: MarkV) -> nat
    decreases t,
{
    (if bears(t.item, m) {
        1nat
    } else {
        0
    }) + times_among(t.children, m)
}

/// How many nodes of some trees stand for a paragraph at that place with that text.
pub open spec fn times_among(ts: Seq<TreeV>, m: MarkV) -> nat
    decreases ts,
{
    if ts.len() == 0 {
        0
    } else {
        times_among(ts.subrange(0, ts.len() - 1), m) + times_in(ts[ts.len() - 1], m)
    }
}

/// How many paragraphs stand at that place with that text.
pub open spec fn times_at(paras: Seq<ParaV>, m: MarkV) -> nat
    decreases paras.len(),
{
    if paras.len() == 0 {
        0
    } else {
        times_at(paras.drop_last(), m) + if mark_of(paras.last()) == m {
            1nat
        } else {
            0
        }
    }
}

/// The sum of the weights of the nodes under the one at `i`, and of itself.
spec fn total(table: Seq<NodeV>, i: int, w: spec_fn(int) -> nat) -> nat
    decreases table.len() - i, table[i].children.len() + 1,
{
    w(i) + total_of_kids(table, i, table[i].children.len(), w)
}

/// The sum of the weights under the first `k` nodes that stand under the one at `i`.
spec fn total_of_kids(table: Seq<NodeV>, i: int, k: nat, w: spec_fn(int) -> nat) -> nat
    decreases table.len() - i, k,
{
    if k == 0 {
        0
    } else {
        let c = table[i].children[k - 1] as int;
        total_of_kids(table, i, (k - 1) as nat, w) + if i < c < table.len() {
            total(table, c, w)
        } else {
            0
        }
    }
}

spec fn only(q: int) -> spec_fn(int) -> nat {
    |j: int|
        if j == q {
            1nat
        } else {
            0
        }
}

spec fn stands_at(table: Seq<NodeV>, m: MarkV) -> spec_fn(int) -> nat {
    |j: int|
        if bears(table[j].item, m) {
            1nat
        } else {
            0
        }
}

/// A sum depends on the weights of the nodes from `i` on only.
proof fn lemma_same_total(
    table: Seq<NodeV>,
    i: int,
    k: nat,
    v: spec_fn(int) -> nat,
    w: spec_fn(int) -> nat,
)
    requires
        0 <= i < table.len(),
        k <= table[i].children.len(),
        forall|j: int| i <= j < table.len() ==> #[trigger] v(j) == w(j),
    ensures
        total_of_kids(table, i, k, v) == total_of_kids(table, i, k, w),
    decreases table.len() - i, k,
{
    if k > 0 {
        lemma_same_total(table, i, (k - 1) as nat, v, w);
        let c = table[i].children[k - 1] as int;
        if i < c < table.len() {
            assert(v(c) == w(c));
            lemma_same_total(table, c, table[c].children.len(), v, w);
            assert(total(table, c, v) == total(table, c, w));
        }
    }
}

/// Weights that are nothing from `i` on have no sum.
proof fn lemma_no_total(table: Seq<NodeV>, i: int, k: nat, w: spec_fn(int) -> nat)
    requires
        0 <= i < table.len(),
        k <= table[i].children.len(),
        forall|j: int| i <= j < table.len() ==> #[trigger] w(j) == 0,
    ensures
        total_of_kids(table, i, k, w) == 0,
    decreases table.len() - i, k,
{
    if k > 0 {
        lemma_no_total(table, i, (k - 1) as nat, w);
        let c = table[i].children[k - 1] as int;
        if i < c < table.len() {
            assert(w(c) == 0);
            lemma_no_total(table, c, table[c].children.len(), w);
            assert(total(table, c, w) == 0);
        }
    }
}

/// A node that is added under `q` counts as often as `q` stands in the tree.
proof fn lemma_added_total(
    table: Seq<NodeV>,
    q: nat,
    item: ItemV,
    i: int,
    k: nat,
    w: spec_fn(int) -> nat,
)
    requires
        table_ok(table),
        q < table.len(),
        0 <= i < table.len(),
        k <= table[i].children.len(),
    ensures
        ({
            let after = node_added(table, Some(q), item);
            let n = table.len() as int;
            total_of_kids(after, i, k, w) == total_of_kids(table, i, k, w) + total_of_kids(
                table,
                i,
                k,
                only(q as int),
            ) * w(n)
        }),
    decreases table.len() - i, k,
{
    let after = node_added(table, Some(q), item);
    let n = table.len() as int;
    if k > 0 {
        lemma_added_total(table, q, item, i, (k - 1) as nat, w);
        let c = table[i].children[k - 1] as int;
        assert(after[i].children[k - 1] == table[i].children[k - 1]);
        assert(i < c < table.len());
        lemma_added_total_at(table, q, item, c, w);
        let a = total_of_kids(table, i, (k - 1) as nat, only(q as int));
        let b = total(table, c, only(q as int));
        assert((a + b) * w(n) == a * w(n) + b * w(n)) by (nonlinear_arith);
    } else {
        assert(0 * w(n) == 0) by (nonlinear_arith);
    }
}

proof fn lemma_added_total_at(table: Seq<NodeV>, q: nat, item: ItemV, i: int, w: spec_fn(int) -> nat)
    requires
        table_ok(table),
        q < table.len(),
        0 <= i < table.len(),
    ensures
        total(node_added(table, Some(q), item), i, w) == total(table, i, w) + total(
            table,
            i,
            only(q as int),
        ) * w(table.len() as int),
    decreases table.len() - i, table[i].children.len() + 1,
{
    let after = node_added(table, Some(q), item);
    let n = table.len() as int;
    let kids = table[i].children.len();
    lemma_added_total(table, q, item, i, kids, w);
    if i == q {
        assert(after[i].children =~= table[i].children.push(table.len()));
        assert(after[i].children[kids as int] == n);
        assert(after[n].children =~= Seq::<nat>::empty());
        assert(total(after, n, w) == w(n)) by {
            reveal_with_fuel(total_of_kids, 2);
        }
        assert(total_of_kids(after, i, kids + 1, w) == total_of_kids(after, i, kids, w) + w(n));
        lemma_kids_without(table, i, kids, only(q as int));
        assert(0 * w(n) == 0) by (nonlinear_arith);
        assert(1 * w(n) == w(n)) by (nonlinear_arith);
    } else {
        assert(after[i].children == table[i].children);
        let a = total_of_kids(table, i, kids, only(q as int));
        assert(only(q as int)(i) == 0);
    }
}

/// The nodes under the one at `i` come after it in the table.
proof fn lemma_kids_without(table: Seq<NodeV>, i: int, k: nat, w: spec_fn(int) -> nat)
    requires
        table_ok(table),
        0 <= i < table.len(),
        k <= table[i].children.len(),
        forall|j: int| i < j < table.len() ==> #[trigger] w(j) == 0,
    ensures
        total_of_kids(table, i, k, w) == 0,
    decreases k,
{
    if k > 0 {
        lemma_kids_without(table, i, (k - 1) as nat, w);
        let c = table[i].children[k - 1] as int;
        assert(i < c < table.len());
        assert(w(c) == 0);
        lemma_no_total(table, c, table[c].children.len(), w);
        assert(total(table, c, w) == 0);
    }
}

/// Whether every node of the table stands under the first one, in one place.
spec fn once(table: Seq<NodeV>) -> bool {
    &&& table_ok(table)
    &&& table.len() > 0
    &&& forall|p: int| 0 <= p < table.len() ==> total(table, 0, #[trigger] only(p)) == 1
}

/// How many nodes under the first one stand for a paragraph at that place with that text.
spec fn held(table: Seq<NodeV>, m: MarkV) -> nat {
    total(table, 0, stands_at(table, m))
}

spec fn one_if(b: bool) -> nat {
    if b {
        1
    } else {
        0
    }
}

proof fn lemma_added_once(table: Seq<NodeV>, q: nat, item: ItemV, m: MarkV)
    requires
        once(table),
        q < table.len(),
    ensures
        once(node_added(table, Some(q), item)),
        held(node_added(table, Some(q), item), m) == held(table, m) + one_if(bears(item, m)),
{
    let after = node_added(table, Some(q), item);
    let n = table.len() as int;
    let kids = table[0].children.len();
    lemma_added_ok(table, Some(q), item);
    assert(total(table, 0, only(q as int)) == 1);
    assert forall|p: int| 0 <= p < after.len() implies total(after, 0, #[trigger] only(p)) == 1 by {
        lemma_added_total_at(table, q, item, 0, only(p));
        if p == n {
            assert(forall|j: int| 0 <= j < n ==> #[trigger] only(p)(j) == 0);
            lemma_no_total(table, 0, kids, only(p));
            assert(total(table, 0, only(p)) == 0);
        }
    }
    let w = stands_at(after, m);
    lemma_added_total_at(table, q, item, 0, w);
    assert forall|j: int| 0 <= j < n implies #[trigger] w(j) == stands_at(table, m)(j) by {
        assert(after[j].item == table[j].item);
    }
    lemma_same_total(table, 0, kids, w, stands_at(table, m));
    assert(total(table, 0, w) == held(table, m));
    assert(w(n) == one_if(bears(item, m)));
}

proof fn lemma_deepened_once(st: BuildV, num_id: int, level: nat, m: MarkV)
    requires
        build_ok(st),
        once(st.table),
        st.list.lists.len() > 0,
    ensures
        once(list_deepened(st, num_id, level).table),
        held(list_deepened(st, num_id, level).table, m) == held(st.table, m),
    decreases level + 1 - st.list.lists.len(),
{
    let n = st.list.lists.len();
    if n < level + 1 {
        let under = match st.list.items[n - 1] {
            Some(item) => item,
            None => st.sections.last(),
        };
        lemma_added_once(st.table, under, list_item(num_id, n as int), m);
        lemma_nested_ok(st, num_id);
        lemma_deepened_once(list_nested(st, num_id), num_id, level, m);
    }
}

proof fn lemma_placed_once(st: BuildV, p: ParaV, m: MarkV)
    requires
        build_ok(st),
        once(st.table),
    ensures
        build_ok(para_placed(st, p)),
        once(para_placed(st, p).table),
        held(para_placed(st, p).table, m) == held(st.table, m) + one_if(mark_of(p) == m),
{
    lemma_heading_level(p);
    lemma_placed_ok(st, p);
    match para_heading(p) {
        Some(level) => {
            let sections = if st.sections.len() > level {
                st.sections.take(level as int)
            } else {
                st.sections
            };
            assert(sections.last() < st.table.len());
            lemma_added_once(
                st.table,
                sections.last(),
                para_item(StructureNodeKind::Heading, Some((level % 0x1_0000_0000) as u32), p),
                m,
            );
        },
        None => match (p.num_id, p.num_ilvl) {
            (Some(num_id), Some(ilvl)) => {
                let level = item_level(ilvl);
                let opened = list_opened(st, p, num_id);
                lemma_opened_ok(st, p, num_id);
                lemma_added_once(st.table, st.sections.last(), list_item(num_id, 0), m);
                let cut = list_cut(opened, level);
                assert(build_ok(cut));
                let deep = list_deepened(cut, num_id, level);
                lemma_deepened_ok(cut, num_id, level);
                lemma_deepened_once(cut, num_id, level, m);
                lemma_added_once(
                    deep.table,
                    deep.list.lists.last(),
                    para_item(StructureNodeKind::ListItem, None, p),
                    m,
                );
            },
            _ => {
                lemma_added_once(
                    st.table,
                    st.sections.last(),
                    para_item(StructureNodeKind::Paragraph, None, p),
                    m,
                );
            },
        },
    }
}

proof fn lemma_part_once(table: Seq<NodeV>, part: nat, paras: Seq<ParaV>, m: MarkV)
    requires
        once(table),
        part < table.len(),
    ensures
        build_ok(part_built(table, part, paras)),
        once(part_built(table, part, paras).table),
        held(part_built(table, part, paras).table, m) == held(table, m) + times_at(paras, m),
    decreases paras.len(),
{
    if paras.len() > 0 {
        lemma_part_once(table, part, paras.drop_last(), m);
        lemma_placed_once(part_built(table, part, paras.drop_last()), paras.last(), m);
    }
}

proof fn lemma_sorted_times(paras: Seq<ParaV>, p: ParaV, m: MarkV)
    ensures
        times_at(para_sorted_in(paras, p), m) == times_at(paras, m) + one_if(mark_of(p) == m),
    decreases paras.len(),
{
    if paras.len() == 0 {
        reveal_with_fuel(times_at, 2);
        assert(seq![p].drop_last() =~= Seq::<ParaV>::empty());
    } else if paras.last().xml_event_index > p.xml_event_index {
        lemma_sorted_times(paras.drop_last(), p, m);
        let front = para_sorted_in(paras.drop_last(), p);
        assert(front.push(paras.last()).drop_last() =~= front);
    } else {
        assert(paras.push(p).drop_last() =~= paras);
    }
}

proof fn lemma_times_in_part(paras: Seq<ParaV>, name: Seq<char>, m: MarkV)
    ensures
        times_at(paras_in(paras, name), m) == if name == m.loc.part_name {
            times_at(paras, m)
        } else {
            0
        },
    decreases paras.len(),
{
    if paras.len() > 0 {
        lemma_times_in_part(paras.drop_last(), name, m);
        if paras.last().part_name == name {
            lemma_sorted_times(paras_in(paras.drop_last(), name), paras.last(), m);
        }
    }
}

proof fn lemma_parts_once(paras: Seq<ParaV>, names: Seq<Seq<char>>, m: MarkV)
    requires
        increasing(names),
    ensures
        once(parts_built(paras, names)),
        held(parts_built(paras, names), m) == if names.contains(m.loc.part_name) {
            times_at(paras, m)
        } else {
            0
        },
    decreases names.len(),
{
    let table = parts_built(paras, names);
    if names.len() == 0 {
        assert(table[0].children =~= Seq::<nat>::empty());
        assert(forall|w: spec_fn(int) -> nat| #[trigger] total(table, 0, w) == w(0)) by {
            reveal_with_fuel(total, 2);
            reveal_with_fuel(total_of_kids, 2);
        }
    } else {
        let before = parts_built(paras, names.drop_last());
        let name = names.last();
        let item = ItemV { part_name: Some(name), ..bare_item(StructureNodeKind::Part) };
        lemma_parts_once(paras, names.drop_last(), m);
        lemma_added_once(before, 0, item, m);
        lemma_part_once(
            node_added(before, Some(0), item),
            before.len(),
            paras_in(paras, name),
            m,
        );
        lemma_times_in_part(paras, name, m);
        if name == m.loc.part_name {
            assert(names[names.len() - 1] == name);
            assert forall|i: int| 0 <= i < names.len() - 1 implies #[trigger] names.drop_last()[i]
                != name by {
                assert(text_less(names[i], names[names.len() - 1]));
                lemma_text_less(names[i], name, name);
            }
        } else if names.contains(m.loc.part_name) {
            let i = choose|i: int| 0 <= i < names.len() && names[i] == m.loc.part_name;
            assert(names.drop_last()[i] == m.loc.part_name);
        } else if names.drop_last().contains(m.loc.part_name) {
            let i = choose|i: int|
                0 <= i < names.drop_last().len() && names.drop_last()[i] == m.loc.part_name;
            assert(names[i] == m.loc.part_name);
        }
    }
}

proof fn lemma_name_placed(names: Seq<Seq<char>>, name: Seq<char>)
    requires
        increasing(names),
    ensures
        increasing(name_placed(names, name)),
        forall|n: Seq<char>| #[trigger]
            name_placed(names, name).contains(n) <==> names.contains(n) || n == name,
    decreases names.len(),
{
    let placed = name_placed(names, name);
    if names.len() == 0 {
        assert(placed[0] == name);
    } else if names[0] == name {
    } else if text_less(name, names[0]) {
        assert(placed =~= seq![name] + names);
        assert forall|i: int, j: int| 0 <= i < j < placed.len() implies text_less(
            #[trigger] placed[i],
            #[trigger] placed[j],
        ) by {
            if i == 0 && j > 1 {
                lemma_text_less(name, names[0], names[j - 1]);
            }
        }
        assert forall|n: Seq<char>| #[trigger] placed.contains(n) <==> names.contains(n) || n
            == name by {
            if names.contains(n) {
                let i = choose|i: int| 0 <= i < names.len() && names[i] == n;
                assert(placed[i + 1] == n);
            }
            assert(placed[0] == name);
        }
    } else {
        let rest = names.drop_first();
        lemma_name_placed(rest, name);
        let more = name_placed(rest, name);
        assert(placed =~= seq![names[0]] + more);
        lemma_text_less(name, names[0], name);
        assert forall|i: int, j: int| 0 <= i < j < placed.len() implies text_less(
            #[trigger] placed[i],
            #[trigger] placed[j],
        ) by {
            assert(more.contains(more[j - 1]));
            if i == 0 && more[j - 1] != name {
                let k = choose|k: int| 0 <= k < rest.len() && rest[k] == more[j - 1];
                assert(text_less(names[0], names[k + 1]));
            }
        }
        assert forall|n: Seq<char>| #[trigger] placed.contains(n) <==> names.contains(n) || n
            == name by {
            if placed.contains(n) && n != names[0] {
                let i = choose|i: int| 0 <= i < placed.len() && placed[i] == n;
                assert(more[i - 1] == n);
                assert(more.contains(n));
                if n != name {
                    let k = choose|k: int| 0 <= k < rest.len() && rest[k] == n;
                    assert(names[k + 1] == n);
                }
            }
            if names.contains(n) || n == name {
                if n == names[0] {
                    assert(placed[0] == n);
                } else {
                    if names.contains(n) {
                        let k = choose|k: int| 0 <= k < names.len() && names[k] == n;
                        assert(rest[k - 1] == n);
                    }
                    assert(more.contains(n));
                    let i = choose|i: int| 0 <= i < more.len() && more[i] == n;
                    assert(placed[i + 1] == n);
                }
            }
        }
    }
}

proof fn lemma_names(paras: Seq<ParaV>, m: MarkV)
    ensures
        increasing(names_of(paras)),
        !names_of(paras).contains(m.loc.part_name) ==> times_at(paras, m) == 0,
    decreases paras.len(),
{
    if paras.len() > 0 {
        lemma_names(paras.drop_last(), m);
        lemma_name_placed(names_of(paras.drop_last()), paras.last().part_name);
        let all = names_of(paras);
        assert(all.contains(m.loc.part_name) <==> names_of(paras.drop_last()).contains(m.loc.part_name)
            || m.loc.part_name == paras.last().part_name);
    }
}

/// The nodes of the tree at `i` are those of the table under it.
proof fn lemma_tree_total(table: Seq<NodeV>, i: int, k: nat, m: MarkV)
    requires
        table_ok(table),
        0 <= i < table.len(),
        k <= table[i].children.len(),
    ensures
        times_among(tree_at(table, i).children.take(k as int), m) == total_of_kids(
            table,
            i,
            k,
            stands_at(table, m),
        ),
    decreases table.len() - i, k,
{
    let kids = tree_at(table, i).children;
    let w = stands_at(table, m);
    if k > 0 {
        lemma_tree_total(table, i, (k - 1) as nat, m);
        let c = table[i].children[k - 1] as int;
        assert(i < c < table.len());
        let front = kids.take(k as int);
        assert(front.subrange(0, front.len() - 1) =~= kids.take(k - 1));
        assert(front[k - 1] == kids[k - 1]);
        assert(kids[k - 1] == tree_at(table, c));
        lemma_tree_total(table, c, table[c].children.len(), m);
        let t = tree_at(table, c);
        assert(t.children.take(table[c].children.len() as int) =~= t.children);
        assert(times_in(t, m) == total(table, c, w));
    }
}

/// Whether a node has a place and a text, if and only if it stands for a paragraph.
pub open spec fn item_fits(item: ItemV) -> bool {
    &&& item.loc is Some <==> item.kind == StructureNodeKind::Heading || item.kind
        == StructureNodeKind::ListItem || item.kind == StructureNodeKind::Paragraph
    &&& item.loc is Some <==> item.text is Some
}

/// Whether every node of a tree has a place and a text, if and only if it stands for a paragraph.
pub open spec fn fits(t: TreeV) -> bool
    decreases t,
{
    item_fits(t.item) && all_fit(t.children)
}

/// Whether every node of some trees has a place and a text, if and only if it stands for a paragraph.
pub open spec fn all_fit(ts: Seq<TreeV>) -> bool
    decreases ts,
{
    ts.len() == 0 || all_fit(ts.subrange(0, ts.len() - 1)) && fits(ts[ts.len() - 1])
}

pub(crate) open spec fn items_fit(table: Seq<NodeV>) -> bool {
    forall|j: int| 0 <= j < table.len() ==> item_fits(#[trigger] table[j].item)
}

/// Whether only nodes from `part` on were added or changed since the table was `base`, and the nodes
/// that are named come from there.
pub(crate) open spec fn grown(base: Seq<NodeV>, part: nat, st: BuildV) -> bool {
    &&& build_ok(st)
    &&& part < base.len() <= st.table.len()
    &&& forall|j: int| 0 <= j < part ==> #[trigger] st.table[j] == base[j]
    &&& st.table[part as int].item == base[part as int].item
    &&& items_fit(st.table)
    &&& forall|i: int| 0 <= i < st.sections.len() ==> part <= #[trigger] st.sections[i]
    &&& forall|i: int| 0 <= i < st.list.lists.len() ==> part <= #[trigger] st.list.lists[i]
    &&& forall|i: int|
        0 <= i < st.list.items.len() ==> match #[trigger] st.list.items[i] {
            Some(n) => part <= n,
            None => true,
        }
}

proof fn lemma_deepened_grown(base: Seq<NodeV>, part: nat, st: BuildV, num_id: int, level: nat)
    requires
        grown(base, part, st),
        st.list.lists.len() > 0,
    ensures
        grown(base, part, list_deepened(st, num_id, level)),
    decreases level + 1 - st.list.lists.len(),
{
    if st.list.lists.len() < level + 1 {
        lemma_nested_ok(st, num_id);
        lemma_deepened_grown(base, part, list_nested(st, num_id), num_id, level);
    }
}

proof fn lemma_placed_grown(base: Seq<NodeV>, part: nat, st: BuildV, p: ParaV)
    requires
        grown(base, part, st),
    ensures
        grown(base, part, para_placed(st, p)),
{
    lemma_heading_level(p);
    lemma_placed_ok(st, p);
    match para_heading(p) {
        Some(level) => {},
        None => match (p.num_id, p.num_ilvl) {
            (Some(num_id), Some(ilvl)) => {
                let level = item_level(ilvl);
                lemma_opened_ok(st, p, num_id);
                let open = list_cut(list_opened(st, p, num_id), level);
                assert(build_ok(open));
                assert(grown(base, part, list_opened(st, p, num_id)));
                assert(grown(base, part, open));
                lemma_deepened_ok(open, num_id, level);
                lemma_deepened_grown(base, part, open, num_id, level);
            },
            _ => {},
        },
    }
}

pub(crate) proof fn lemma_part_grown(base: Seq<NodeV>, part: nat, paras: Seq<ParaV>)
    requires
        table_ok(base),
        items_fit(base),
        part < base.len(),
    ensures
        grown(base, part, part_built(base, part, paras)),
    decreases paras.len(),
{
    if paras.len() > 0 {
        lemma_part_grown(base, part, paras.drop_last());
        lemma_placed_grown(base, part, part_built(base, part, paras.drop_last()), paras.last());
    }
}

/// The sum under a node stays where the nodes before `end` stay and name none from there on.
proof fn lemma_kept_total(
    before: Seq<NodeV>,
    after: Seq<NodeV>,
    i: int,
    k: nat,
    w: spec_fn(int) -> nat,
)
    requires
        table_ok(before),
        before.len() <= after.len(),
        forall|j: int| 0 < j < before.len() ==> #[trigger] after[j] == before[j],
        0 < i < before.len(),
        k <= before[i].children.len(),
    ensures
        total_of_kids(after, i, k, w) == total_of_kids(before, i, k, w),
    decreases before.len() - i, k,
{
    if k > 0 {
        lemma_kept_total(before, after, i, (k - 1) as nat, w);
        let c = before[i].children[k - 1] as int;
        assert(after[i].children[k - 1] == c);
        assert(i < c < before.len());
        lemma_kept_total(before, after, c, before[c].children.len(), w);
        assert(after[c] == before[c]);
        assert(total(after, c, w) == total(before, c, w));
    }
}

proof fn lemma_kept_root(
    before: Seq<NodeV>,
    after: Seq<NodeV>,
    k: nat,
    w: spec_fn(int) -> nat,
)
    requires
        table_ok(before),
        0 < before.len() <= after.len(),
        forall|j: int| 0 < j < before.len() ==> #[trigger] after[j] == before[j],
        k <= before[0].children.len() <= after[0].children.len(),
        forall|j: int|
            0 <= j < before[0].children.len() ==> #[trigger] after[0].children[j]
                == before[0].children[j],
    ensures
        total_of_kids(after, 0, k, w) == total_of_kids(before, 0, k, w),
    decreases k,
{
    if k > 0 {
        lemma_kept_root(before, after, (k - 1) as nat, w);
        let c = before[0].children[k - 1] as int;
        assert(after[0].children[k - 1] == c);
        assert(0 < c < before.len());
        lemma_kept_total(before, after, c, before[c].children.len(), w);
        assert(after[c] == before[c]);
        assert(total(after, c, w) == total(before, c, w));
    }
}

/// What holds of the table once the parts of the given names were added.
spec fn parts_hold(paras: Seq<ParaV>, names: Seq<Seq<char>>, table: Seq<NodeV>, m: MarkV) -> bool {
    let root = table[0];
    &&& items_fit(table)
    &&& root.item == bare_item(StructureNodeKind::Root)
    &&& root.children.len() == names.len()
    &&& forall|k: int|
        0 <= k < names.len() ==> {
            let c = #[trigger] root.children[k] as int;
            &&& table[c].item == (ItemV {
                part_name: Some(names[k]),
                ..bare_item(StructureNodeKind::Part)
            })
            &&& total(table, c, stands_at(table, m)) == if names[k] == m.loc.part_name {
                times_at(paras, m)
            } else {
                0
            }
        }
}

proof fn lemma_parts_hold(paras: Seq<ParaV>, names: Seq<Seq<char>>, m: MarkV)
    requires
        increasing(names),
    ensures
        once(parts_built(paras, names)),
        parts_hold(paras, names, parts_built(paras, names), m),
    decreases names.len(),
{
    lemma_parts_once(paras, names, m);
    let table = parts_built(paras, names);
    if names.len() > 0 {
        let before = parts_built(paras, names.drop_last());
        let name = names.last();
        let item = ItemV { part_name: Some(name), ..bare_item(StructureNodeKind::Part) };
        let base = node_added(before, Some(0), item);
        let part = before.len();
        lemma_parts_hold(paras, names.drop_last(), m);
        lemma_added_ok(before, Some(0), item);
        lemma_part_grown(base, part, paras_in(paras, name));
        let w = stands_at(table, m);
        assert(table[0] == base[0]);
        assert(table[0].children =~= before[0].children.push(part));
        assert forall|j: int| 0 < j < before.len() implies #[trigger] table[j] == before[j] by {
            assert(table[j] == base[j]);
        }
        assert forall|k: int| 0 <= k < names.len() implies ({
            let c = #[trigger] table[0].children[k] as int;
            &&& table[c].item == (ItemV {
                part_name: Some(names[k]),
                ..bare_item(StructureNodeKind::Part)
            })
            &&& total(table, c, w) == if names[k] == m.loc.part_name {
                times_at(paras, m)
            } else {
                0
            }
        }) by {
            if k < names.len() - 1 {
                let c = before[0].children[k] as int;
                assert(0 < c < before.len());
                assert(names.drop_last()[k] == names[k]);
                lemma_kept_total(before, table, c, before[c].children.len(), w);
                lemma_same_total(before, c, before[c].children.len(), w, stands_at(before, m));
            } else {
                lemma_last_part(paras, names, m);
            }
        }
    }
}

proof fn lemma_last_part(paras: Seq<ParaV>, names: Seq<Seq<char>>, m: MarkV)
    requires
        increasing(names),
        names.len() > 0,
        parts_hold(paras, names.drop_last(), parts_built(paras, names.drop_last()), m),
    ensures
        ({
            let table = parts_built(paras, names);
            let part = parts_built(paras, names.drop_last()).len() as int;
            total(table, part, stands_at(table, m)) == if names.last() == m.loc.part_name {
                times_at(paras, m)
            } else {
                0
            }
        }),
{
    let table = parts_built(paras, names);
    let before = parts_built(paras, names.drop_last());
    let name = names.last();
    let item = ItemV { part_name: Some(name), ..bare_item(StructureNodeKind::Part) };
    let base = node_added(before, Some(0), item);
    let part = before.len();
    let w = stands_at(table, m);
    let kids = before[0].children.len();
    lemma_parts_once(paras, names.drop_last(), m);
    lemma_added_once(before, 0, item, m);
    lemma_part_once(base, part, paras_in(paras, name), m);
    lemma_part_grown(base, part, paras_in(paras, name));
    lemma_times_in_part(paras, name, m);
    assert(table[0] == base[0]);
    assert(table[0].children =~= before[0].children.push(part));
    assert forall|j: int| 0 < j < before.len() implies #[trigger] table[j] == before[j] by {
        assert(table[j] == base[j]);
    }
    lemma_kept_root(before, table, kids, w);
    assert forall|j: int| 0 <= j < before.len() implies #[trigger] w(j) == stands_at(before, m)(
        j,
    ) by {
        assert(table[j].item == before[j].item);
    }
    lemma_same_total(before, 0, kids, w, stands_at(before, m));
    assert(total_of_kids(table, 0, kids + 1, w) == total_of_kids(table, 0, kids, w) + total(
        table,
        part as int,
        w,
    ));
    assert(held(table, m) == held(before, m) + total(table, part as int, w));
}

proof fn lemma_tree_fits(table: Seq<NodeV>, i: int, k: nat)
    requires
        table_ok(table),
        items_fit(table),
        0 <= i < table.len(),
        k <= table[i].children.len(),
    ensures
        all_fit(tree_at(table, i).children.take(k as int)),
    decreases table.len() - i, k,
{
    let kids = tree_at(table, i).children;
    if k > 0 {
        lemma_tree_fits(table, i, (k - 1) as nat);
        let c = table[i].children[k - 1] as int;
        assert(i < c < table.len());
        let front = kids.take(k as int);
        assert(front.subrange(0, front.len() - 1) =~= kids.take(k - 1));
        assert(front[k - 1] == tree_at(table, c));
        lemma_tree_fits(table, c, table[c].children.len());
        let t = tree_at(table, c);
        assert(t.children.take(table[c].children.len() as int) =~= t.children);
        assert(item_fits(table[c].item));
        assert(fits(t));
    }
}

proof fn lemma_tree_times(table: Seq<NodeV>, i: int, m: MarkV)
    requires
        table_ok(table),
        0 <= i < table.len(),
    ensures
        times_in(tree_at(table, i), m) == total(table, i, stands_at(table, m)),
{
    lemma_tree_total(table, i, table[i].children.len(), m);
    let t = tree_at(table, i);
    assert(t.children.take(table[i].children.len() as int) =~= t.children);
}

/// The names of the parts are those that paragraphs stand in, and no others.
proof fn lemma_names_used(paras: Seq<ParaV>, name: Seq<char>)
    ensures
        names_of(paras).contains(name) <==> exists|i: int|
            0 <= i < paras.len() && (#[trigger] paras[i]).part_name == name,
    decreases paras.len(),
{
    if paras.len() > 0 {
        let front = paras.drop_last();
        let m = mark_of(paras.last());
        lemma_names(front, m);
        lemma_names_used(front, name);
        lemma_name_placed(names_of(front), paras.last().part_name);
        assert(names_of(paras).contains(name) <==> names_of(front).contains(name) || name
            == paras.last().part_name);
        if exists|i: int| 0 <= i < paras.len() && (#[trigger] paras[i]).part_name == name {
            let i = choose|i: int| 0 <= i < paras.len() && (#[trigger] paras[i]).part_name == name;
            if i < front.len() {
                assert(front[i].part_name == name);
            }
        }
        if names_of(paras).contains(name) {
            if names_of(front).contains(name) {
                let i = choose|i: int|
                    0 <= i < front.len() && (#[trigger] front[i]).part_name == name;
                assert(paras[i].part_name == name);
            } else {
                assert(paras[paras.len() - 1].part_name == name);
            }
        }
    } else {
        assert(names_of(paras) =~= Seq::<Seq<char>>::empty());
    }
}

/// Under the root of an outline stand the parts that have paragraphs, each once and in the order of
/// their names. Every paragraph has its place under its own part, once: for each place in the
/// document and each text, as many nodes stand for it there as there are paragraphs at it with that
/// text, and none under another part. Headings, list items and paragraphs have a place and a text,
/// and no other node has.
pub proof fn law_outline_holds_each_once(paras: Seq<ParaV>, m: MarkV)
    ensures
        ({
            let names = names_of(paras);
            let root = outline(paras);
            &&& increasing(names)
            &&& forall|name: Seq<char>| #[trigger]
                names.contains(name) <==> exists|i: int|
                    0 <= i < paras.len() && (#[trigger] paras[i]).part_name == name
            &&& root.item == bare_item(StructureNodeKind::Root)
            &&& root.children.len() == names.len()
            &&& forall|k: int|
                0 <= k < names.len() ==> {
                    &&& (#[trigger] root.children[k]).item == (ItemV {
                        part_name: Some(names[k]),
                        ..bare_item(StructureNodeKind::Part)
                    })
                    &&& times_in(root.children[k], m) == if names[k] == m.loc.part_name {
                        times_at(paras, m)
                    } else {
                        0
                    }
                }
            &&& times_in(root, m) == times_at(paras, m)
            &&& fits(root)
        }),
{
    let names = names_of(paras);
    let table = parts_built(paras, names);
    let root = outline(paras);
    lemma_names(paras, m);
    assert forall|name: Seq<char>| #[trigger] names.contains(name) <==> exists|i: int|
        0 <= i < paras.len() && (#[trigger] paras[i]).part_name == name by {
        lemma_names_used(paras, name);
    }
    lemma_parts_once(paras, names, m);
    lemma_parts_hold(paras, names, m);
    lemma_tree_times(table, 0, m);
    lemma_tree_fits(table, 0, table[0].children.len());
    assert(root.children.take(table[0].children.len() as int) =~= root.children);
    assert(item_fits(table[0].item));
    assert forall|k: int| 0 <= k < names.len() implies {
        &&& (#[trigger] root.children[k]).item == (ItemV {
            part_name: Some(names[k]),
            ..bare_item(StructureNodeKind::Part)
        })
        &&& times_in(root.children[k], m) == if names[k] == m.loc.part_name {
            times_at(paras, m)
        } else {
            0
        }
    } by {
        let c = table[0].children[k] as int;
        assert(0 < c < table.len());
        lemma_tree_times(table, c, m);
    }
}

} // verus!
