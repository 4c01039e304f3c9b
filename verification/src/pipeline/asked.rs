//! What the model is asked, and what its replies are read as.

use crate::chars::{
    byte_len, find_from, has, is_blank, law_replaced, lemma_find_is, occurs_at, replaced,
};
use crate::ir::UnitV;
use crate::pipeline::job::{
    draft_or_source, force_pieces, forced_text, job_begun, one_by_one, piece_speaks, reassembled,
    repair_asked, speaking, unit_verdict, HintsV, JobPhase, JobV, StageConfigV, StageKind,
};
use crate::pipeline::slots::lemma_by_id;
use crate::pipeline::stage::{
    alt_or_draft, chunk_asked, chunk_block, chunk_ids, chunk_read, plan_closed, plan_of, segment_of,
    unit_keeps, works_of, PlanV, WorkV,
};
use crate::pipeline::text::{cleaned, lemma_nothing_replaced, rendered, variable};
use crate::quality::invalid_text;
use crate::sentinels::{
    joined, law_segments_come_back, lemma_pieces, lemma_tokens_ok, pieces_at, seg_end_of,
    seg_start_of, segmented, texts_by_id, tokens, TokenClass,
};
use crate::textutil::trivial_text;
use vstd::prelude::*;

verus! {

/// Whether a text holds no opening brace, with which the place of a variable begins.
pub open spec fn no_brace(s: Seq<char>) -> bool {
    forall|i: int| 0 <= i < s.len() ==> #[trigger] s[i] != '{'
}

/// A text in which the variable has no place stays.
proof fn lemma_stays(s: Seq<char>, key: Seq<char>, value: Seq<char>)
    requires
        no_brace(s),
    ensures
        replaced(s, variable(key), value) == s,
{
    let p = variable(key);
    reveal_strlit("{{");
    reveal_strlit("}}");
    assert forall|k: int| 0 <= k implies !#[trigger] occurs_at(s, p, k) by {
        if occurs_at(s, p, k) {
            assert(s.subrange(k, k + p.len())[0] == p[0]);
        }
    }
    lemma_nothing_replaced(s, p, value, 0);
    assert(s.skip(0) =~= s);
}

/// A text with the place of one variable stays where another is filled in.
proof fn lemma_other_stays(
    a: Seq<char>,
    key: Seq<char>,
    b: Seq<char>,
    other: Seq<char>,
    value: Seq<char>,
)
    requires
        no_brace(a),
        no_brace(b),
        no_brace(key),
        no_brace(other),
        key != other,
        forall|i: int| 0 <= i < key.len() ==> #[trigger] key[i] != '}',
        forall|i: int| 0 <= i < other.len() ==> #[trigger] other[i] != '}',
    ensures
        replaced(a + variable(key) + b, variable(other), value) == a + variable(key) + b,
{
    let p = variable(other);
    let q = variable(key);
    let s = a + q + b;
    reveal_strlit("{{");
    reveal_strlit("}}");
    let n = a.len() as int;
    assert forall|k: int| 0 <= k implies !#[trigger] occurs_at(s, p, k) by {
        if occurs_at(s, p, k) {
            let f = s.subrange(k, k + p.len());
            assert(f[0] == '{' && f[1] == '{');
            assert(s[k] == '{' && s[k + 1] == '{');
            assert(k == n) by {
                if k < n {
                    assert(s[k] == a[k]);
                } else if k >= n + q.len() {
                    assert(s[k] == b[k - n - q.len()]);
                } else if k == n + 1 {
                    assert(s[k + 1] == q[2]);
                    if key.len() > 0 {
                        assert(q[2] == key[0]);
                    }
                } else if k > n + 1 {
                    let i = k - n;
                    assert(s[k] == q[i]);
                    if i - 2 < key.len() {
                        assert(q[i] == key[i - 2]);
                    }
                }
            }
            if other.len() < key.len() {
                let i = other.len() as int;
                assert(f[2 + i] == p[2 + i]);
                assert(s[n + 2 + i] == q[2 + i]);
                assert(q[2 + i] == key[i]);
            } else if key.len() < other.len() {
                let i = key.len() as int;
                assert(f[2 + i] == p[2 + i]);
                assert(p[2 + i] == other[i]);
                assert(s[n + 2 + i] == q[2 + i]);
            } else {
                assert forall|i: int| 0 <= i < key.len() implies key[i] == other[i] by {
                    assert(f[2 + i] == p[2 + i]);
                    assert(s[n + 2 + i] == q[2 + i]);
                    assert(q[2 + i] == key[i]);
                }
                assert(key =~= other);
            }
        }
    }
    lemma_nothing_replaced(s, p, value, 0);
    assert(s.skip(0) =~= s);
}

/// Whether the names of variables hold no braces, and none comes twice.
pub open spec fn plain_names(vars: Seq<(Seq<char>, Seq<char>)>) -> bool {
    &&& forall|i: int|
        0 <= i < vars.len() ==> no_brace((#[trigger] vars[i]).0) && forall|k: int|
            0 <= k < vars[i].0.len() ==> #[trigger] vars[i].0[k] != '}'
    &&& forall|i: int, j: int|
        0 <= i < j < vars.len() ==> (#[trigger] vars[i]).0 != (#[trigger] vars[j]).0
}

/// A template with the place of one variable is that place filled with the value of the variable,
/// whatever others there are.
pub proof fn law_render_one_of_many(
    a: Seq<char>,
    b: Seq<char>,
    vars: Seq<(Seq<char>, Seq<char>)>,
    n: int,
)
    requires
        no_brace(a),
        no_brace(b),
        plain_names(vars),
        0 <= n < vars.len(),
        no_brace(vars[n].1),
    ensures
        rendered(a + "{{"@ + vars[n].0 + "}}"@ + b, vars) == a + vars[n].1 + b,
{
    let key = vars[n].0;
    assert(a + "{{"@ + key + "}}"@ + b =~= a + variable(key) + b);
    lemma_render_from(a, b, vars, n, vars.len() as int);
    assert(vars.take(vars.len() as int) =~= vars);
}

proof fn lemma_render_from(
    a: Seq<char>,
    b: Seq<char>,
    vars: Seq<(Seq<char>, Seq<char>)>,
    n: int,
    m: int,
)
    requires
        no_brace(a),
        no_brace(b),
        plain_names(vars),
        0 <= n < vars.len(),
        no_brace(vars[n].1),
        0 <= m <= vars.len(),
    ensures
        rendered(a + variable(vars[n].0) + b, vars.take(m)) == (if m <= n {
            a + variable(vars[n].0) + b
        } else {
            a + vars[n].1 + b
        }),
    decreases m,
{
    let key = vars[n].0;
    let value = vars[n].1;
    let t = a + variable(key) + b;
    if m > 0 {
        let some = vars.take(m);
        assert(some.drop_last() =~= vars.take(m - 1));
        assert(some.last() == vars[m - 1]);
        lemma_render_from(a, b, vars, n, m - 1);
        let k = m - 1;
        if k < n {
            assert(vars[k].0 != vars[n].0);
            lemma_other_stays(a, key, b, vars[k].0, vars[k].1);
        } else if k == n {
            let p = variable(key);
            reveal_strlit("{{");
            reveal_strlit("}}");
            assert forall|i: int| 0 <= i < a.len() implies !#[trigger] occurs_at(t, p, i) by {
                if occurs_at(t, p, i) {
                    assert(t.subrange(i, i + p.len())[0] == p[0]);
                    assert(t[i] == a[i]);
                }
            }
            assert(t.subrange(a.len() as int, (a.len() + p.len()) as int) =~= p);
            lemma_find_is(t, p, 0, a.len() as int);
            law_replaced(a, p, value, b);
            lemma_stays(b, key, value);
        } else {
            let s = a + value + b;
            assert(no_brace(s)) by {
                assert forall|i: int| 0 <= i < s.len() implies #[trigger] s[i] != '{' by {
                    if i < a.len() {
                        assert(s[i] == a[i]);
                    } else if i < a.len() + value.len() {
                        assert(s[i] == value[i - a.len()]);
                    } else {
                        assert(s[i] == b[i - a.len() - value.len()]);
                    }
                }
            }
            lemma_stays(s, vars[k].0, vars[k].1);
        }
    }
}

proof fn lemma_var_names()
    ensures
        no_brace("source_lang"@) && no_brace("target_lang"@) && no_brace("tu_block"@) && no_brace(
            "source"@,
        ) && no_brace("bad"@) && no_brace("must_keep_tokens"@) && no_brace("validation_error"@)
            && no_brace("nt_map"@),
        forall|i: int| 0 <= i < "source_lang"@.len() ==> #[trigger] "source_lang"@[i] != '}',
        forall|i: int| 0 <= i < "target_lang"@.len() ==> #[trigger] "target_lang"@[i] != '}',
        forall|i: int| 0 <= i < "tu_block"@.len() ==> #[trigger] "tu_block"@[i] != '}',
        forall|i: int| 0 <= i < "source"@.len() ==> #[trigger] "source"@[i] != '}',
        forall|i: int| 0 <= i < "bad"@.len() ==> #[trigger] "bad"@[i] != '}',
        forall|i: int|
            0 <= i < "must_keep_tokens"@.len() ==> #[trigger] "must_keep_tokens"@[i] != '}',
        forall|i: int|
            0 <= i < "validation_error"@.len() ==> #[trigger] "validation_error"@[i] != '}',
        forall|i: int| 0 <= i < "nt_map"@.len() ==> #[trigger] "nt_map"@[i] != '}',
        "source_lang"@.len() == 11,
        "target_lang"@.len() == 11,
        "source_lang"@[0] == 's',
        "target_lang"@[0] == 't',
        "tu_block"@.len() == 8,
        "source"@.len() == 6,
        "source"@[0] == 's',
        "bad"@.len() == 3,
        "must_keep_tokens"@.len() == 16,
        "must_keep_tokens"@[0] == 'm',
        "validation_error"@.len() == 16,
        "validation_error"@[0] == 'v',
        "nt_map"@.len() == 6,
        "nt_map"@[0] == 'n',
{
    reveal_strlit("source_lang");
    reveal_strlit("target_lang");
    reveal_strlit("tu_block");
    reveal_strlit("source");
    reveal_strlit("bad");
    reveal_strlit("must_keep_tokens");
    reveal_strlit("validation_error");
    reveal_strlit("nt_map");
}

/// The model is shown the units of a chunk where its template has the place for them.
pub proof fn law_chunk_is_shown(
    cfg: StageConfigV,
    units: Seq<UnitV>,
    notes: Seq<Seq<char>>,
    chunk: Seq<nat>,
    a: Seq<char>,
    b: Seq<char>,
)
    requires
        no_brace(a),
        no_brace(b),
        cfg.prompt == a + "{{tu_block}}"@ + b,
        no_brace(chunk_block(cfg.kind, units, notes, chunk)),
    ensures
        chunk_asked(cfg, units, notes, chunk) == a + chunk_block(cfg.kind, units, notes, chunk) + b,
{
    lemma_var_names();
    let block = chunk_block(cfg.kind, units, notes, chunk);
    reveal_strlit("{{tu_block}}");
    reveal_strlit("{{");
    reveal_strlit("}}");
    reveal_strlit("tu_block");
    assert("{{tu_block}}"@ =~= "{{"@ + "tu_block"@ + "}}"@);
    assert(cfg.prompt =~= a + "{{"@ + "tu_block"@ + "}}"@ + b);
    let short = seq![("target_lang"@, cfg.target_label), ("tu_block"@, block)];
    let long = seq![
        ("source_lang"@, cfg.source_label),
        ("target_lang"@, cfg.target_label),
        ("tu_block"@, block),
    ];
    if cfg.kind == StageKind::Fuse {
        assert(plain_names(short));
        law_render_one_of_many(a, b, short, 1);
    } else {
        assert(plain_names(long));
        law_render_one_of_many(a, b, long, 2);
    }
}

/// The units of a chunk are shown one after another, and the source of each stands between the markers
/// of its number.
pub proof fn law_units_are_shown_in_turn(
    kind: StageKind,
    units: Seq<UnitV>,
    notes: Seq<Seq<char>>,
    chunk: Seq<nat>,
    i: nat,
)
    requires
        kind != StageKind::Fuse,
    ensures
        chunk_block(kind, units, notes, chunk.push(i)) == chunk_block(kind, units, notes, chunk)
            + seg_start_of(units[i as int].tu_id) + "\n"@ + units[i as int].frozen_surface + "\n"@
            + seg_end_of(units[i as int].tu_id) + "\n\n"@,
        chunk_block(kind, units, notes, Seq::empty()).len() == 0,
{
    let more = chunk.push(i);
    assert(more.drop_last() =~= chunk);
    assert(chunk_block(kind, units, notes, more) =~= chunk_block(kind, units, notes, chunk)
        + seg_start_of(units[i as int].tu_id) + "\n"@ + units[i as int].frozen_surface + "\n"@
        + seg_end_of(units[i as int].tu_id) + "\n\n"@);
}

/// Where a repair is asked for, the model is shown the source, the text that is to be repaired, and
/// what is wrong with it, where its template has the places for them.
pub proof fn law_repair_is_shown(
    cfg: StageConfigV,
    u: UnitV,
    h: HintsV,
    j: JobV,
    a: Seq<char>,
    b: Seq<char>,
)
    requires
        no_brace(a),
        no_brace(b),
    ensures
        cfg.repair_prompt == a + "{{"@ + "source"@ + "}}"@ + b && no_brace(u.frozen_surface)
            ==> repair_asked(cfg, u, h, j) == a + u.frozen_surface + b,
        cfg.repair_prompt == a + "{{"@ + "bad"@ + "}}"@ + b && no_brace(j.out) ==> repair_asked(
            cfg,
            u,
            h,
            j,
        ) == a + j.out + b,
        cfg.repair_prompt == a + "{{"@ + "validation_error"@ + "}}"@ + b && no_brace(j.reason)
            ==> repair_asked(cfg, u, h, j) == a + j.reason + b,
        cfg.repair_prompt == a + "{{"@ + "must_keep_tokens"@ + "}}"@ + b && no_brace(h.must_keep)
            ==> repair_asked(cfg, u, h, j) == a + h.must_keep + b,
{
    lemma_var_names();
    let vars = seq![
        ("source_lang"@, cfg.source_label),
        ("target_lang"@, cfg.target_label),
        ("source"@, u.frozen_surface),
        ("bad"@, j.out),
        ("must_keep_tokens"@, h.must_keep),
        ("validation_error"@, j.reason),
        ("nt_map"@, h.nt_map),
    ];
    assert(plain_names(vars));
    if no_brace(u.frozen_surface) {
        law_render_one_of_many(a, b, vars, 2);
    }
    if no_brace(j.out) {
        law_render_one_of_many(a, b, vars, 3);
    }
    if no_brace(h.must_keep) {
        law_render_one_of_many(a, b, vars, 4);
    }
    if no_brace(j.reason) {
        law_render_one_of_many(a, b, vars, 5);
    }
}

/// A reply that holds a text between the markers of each unit of a chunk, in their order, is read as
/// those texts.
pub proof fn law_chunk_is_read(
    ids: Seq<usize>,
    chunk: Seq<nat>,
    texts: Seq<Seq<char>>,
    gaps: Seq<Seq<char>>,
    tail: Seq<char>,
    raw: Seq<char>,
)
    requires
        chunk.len() == texts.len() == gaps.len(),
        forall|k: int| 0 <= k < chunk.len() ==> #[trigger] chunk[k] < ids.len(),
        forall|k: int, l: int|
            0 <= k < l < chunk.len() ==> ids[#[trigger] chunk[k] as int] != ids[
                #[trigger] chunk[l] as int],
        forall|k: int, id: nat|
            0 <= k < texts.len() ==> find_from(
                #[trigger] texts[k],
                #[trigger] seg_end_of(id),
                0,
            ) is None,
        forall|k: int, id: nat|
            0 <= k < gaps.len() ==> find_from(
                #[trigger] gaps[k],
                #[trigger] seg_start_of(id),
                0,
            ) is None,
        cleaned(raw) == segmented(chunk_ids(ids, chunk), texts, gaps, tail),
    ensures
        chunk_read(ids, chunk, raw) == Some(
            Seq::new(chunk.len(), |k: int| (chunk[k], cleaned(texts[k]))),
        ),
{
    let own = chunk_ids(ids, chunk);
    law_segments_come_back(own, texts, gaps, tail);
    let found = texts_by_id(own, texts, Map::empty());
    let read = chunk.map_values(|i: nat| (i, cleaned(segment_of(found, ids[i as int]))));
    let want = Seq::new(chunk.len(), |k: int| (chunk[k], cleaned(texts[k])));
    assert forall|a: int, b: int| 0 <= a < own.len() && 0 <= b < own.len() && a != b implies own[a]
        != own[b] by {
        if a < b {
            assert(ids[chunk[a] as int] != ids[chunk[b] as int]);
        } else {
            assert(ids[chunk[b] as int] != ids[chunk[a] as int]);
        }
    }
    assert forall|k: int| 0 <= k < chunk.len() implies read[k] == want[k] by {
        lemma_by_id(own, texts, Map::empty(), k);
        assert(own[k] == ids[chunk[k] as int]);
    }
    assert(read =~= want);
}

/// Whether the unit `i` keeps its text by a work, or is in its chunk.
pub open spec fn work_fits(
    cfg: StageConfigV,
    units: Seq<UnitV>,
    notes: Seq<Seq<char>>,
    w: WorkV,
    most: nat,
) -> bool {
    match w {
        WorkV::Keep(i) => i < units.len() && unit_keeps(cfg.kind, units[i as int]),
        WorkV::Chunk(c) => {
            &&& 0 < c.len() <= most
            &&& forall|k: int|
                0 <= k < c.len() ==> #[trigger] c[k] < units.len() && !unit_keeps(
                    cfg.kind,
                    units[c[k] as int],
                )
        },
    }
}

spec fn plan_fits(
    cfg: StageConfigV,
    units: Seq<UnitV>,
    notes: Seq<Seq<char>>,
    p: PlanV,
    most: nat,
) -> bool {
    &&& forall|k: int|
        0 <= k < p.works.len() ==> work_fits(cfg, units, notes, #[trigger] p.works[k], most)
    &&& p.chunk.len() > 0 ==> work_fits(cfg, units, notes, WorkV::Chunk(p.chunk), most)
}

proof fn lemma_plan_fits(
    cfg: StageConfigV,
    units: Seq<UnitV>,
    notes: Seq<Seq<char>>,
    n: int,
    most: nat,
)
    requires
        0 <= n <= units.len(),
        most == (match cfg.kind {
            StageKind::Slots | StageKind::Paragraphs => 64nat,
            StageKind::DraftA | StageKind::DraftB => 32,
            StageKind::Fuse => 20,
        }),
    ensures
        plan_fits(cfg, units, notes, plan_of(cfg, units, notes, n), most),
    decreases n,
{
    if n > 0 {
        let i = n - 1;
        lemma_plan_fits(cfg, units, notes, i, most);
        let p = plan_of(cfg, units, notes, i);
        let q = plan_closed(p);
        let r = plan_of(cfg, units, notes, n);
        assert(plan_fits(cfg, units, notes, q, most));
        if !unit_keeps(cfg.kind, units[i]) {
            assert(r.chunk == q.chunk.push(i as nat) || r.chunk == p.chunk.push(i as nat));
        }
    }
}

/// In a plan a unit that keeps its text is not asked for, every other one is, and no chunk is empty or
/// holds more than 64 slots or paragraphs, 32 units of a draft, or 20 units with two drafts.
pub proof fn law_plan_asks_for_the_rest(cfg: StageConfigV, units: Seq<UnitV>, notes: Seq<Seq<char>>)
    ensures
        forall|k: int|
            0 <= k < works_of(cfg, units, notes).len() ==> work_fits(
                cfg,
                units,
                notes,
                #[trigger] works_of(cfg, units, notes)[k],
                match cfg.kind {
                    StageKind::Slots | StageKind::Paragraphs => 64nat,
                    StageKind::DraftA | StageKind::DraftB => 32,
                    StageKind::Fuse => 20,
                },
            ),
{
    let most = match cfg.kind {
        StageKind::Slots | StageKind::Paragraphs => 64nat,
        StageKind::DraftA | StageKind::DraftB => 32,
        StageKind::Fuse => 20,
    };
    lemma_plan_fits(cfg, units, notes, units.len() as int, most);
}

proof fn lemma_reassembled(pieces: Seq<Seq<char>>, forced: Seq<Seq<char>>, n: int)
    requires
        0 <= n <= pieces.len(),
        forall|i: int|
            0 <= i < n && #[trigger] piece_speaks(pieces, i) ==> forced[speaking(pieces, i) as int]
                == pieces[i],
    ensures
        reassembled(pieces, forced, n) == joined(pieces.take(n)),
    decreases n,
{
    if n > 0 {
        lemma_reassembled(pieces, forced, n - 1);
        lemma_joined_push(pieces.take(n - 1), pieces[n - 1]);
        assert(pieces.take(n - 1).push(pieces[n - 1]) =~= pieces.take(n));
        assert(piece_speaks(pieces, n - 1) || !piece_speaks(pieces, n - 1));
    }
}

proof fn lemma_joined_push(p: Seq<Seq<char>>, x: Seq<char>)
    ensures
        joined(p.push(x)) == joined(p) + x,
    decreases p.len(),
{
    let more = p.push(x);
    if p.len() == 0 {
        reveal_with_fuel(joined, 2);
        assert(more.drop_first() =~= Seq::<Seq<char>>::empty());
        assert(joined(more) =~= joined(p) + x);
    } else {
        lemma_joined_push(p.drop_first(), x);
        assert(more.drop_first() =~= p.drop_first().push(x));
        assert(joined(more) =~= joined(p) + x);
    }
}

/// A text whose pieces are translated one by one is put together again from them: where each piece is
/// left as it is, the text is.
pub proof fn law_pieces_go_back(s: Seq<char>, forced: Seq<Seq<char>>)
    requires
        forall|i: int|
            0 <= i < force_pieces(s).len() && #[trigger] piece_speaks(force_pieces(s), i) ==> forced[
                speaking(force_pieces(s), i) as int] == force_pieces(s)[i],
    ensures
        forced_text(s, forced) == s,
{
    let t = tokens(TokenClass::Sentinel, s);
    let all = pieces_at(s, t, 0);
    let p = force_pieces(s);
    lemma_tokens_ok(TokenClass::Sentinel, s, 0);
    lemma_pieces(s, t, 0);
    lemma_reassembled(p, forced, p.len() as int);
    assert(p.take(p.len() as int) =~= p);
    assert(s.subrange(0, s.len() as int) =~= s);
    if all.last().len() == 0 {
        lemma_joined_push(all.drop_last(), all.last());
        assert(all.drop_last().push(all.last()) =~= all);
        assert(joined(p) + all.last() =~= joined(p));
    }
}

/// The reply for one unit is taken whole where it holds no markers.
pub proof fn law_bare_reply_is_taken(ids: Seq<usize>, i: nat, raw: Seq<char>)
    requires
        i < ids.len(),
        find_from(cleaned(raw), seg_start_of(ids[i as int] as nat), 0) is None,
        find_from(cleaned(raw), seg_end_of(ids[i as int] as nat), 0) is None,
    ensures
        chunk_read(ids, seq![i], raw) == Some(seq![(i, cleaned(cleaned(raw)))]),
{
    assert(chunk_ids(ids, seq![i])[0] == ids[i as int]);
}

/// The room that the units of a chunk take.
pub open spec fn room_taken(
    kind: StageKind,
    units: Seq<UnitV>,
    notes: Seq<Seq<char>>,
    chunk: Seq<nat>,
) -> nat
    decreases chunk.len(),
{
    if chunk.len() == 0 {
        0
    } else {
        let i = chunk.last() as int;
        room_taken(kind, units, notes, chunk.drop_last()) + byte_len(units[i].frozen_surface) + (
        match kind {
            StageKind::Slots | StageKind::Paragraphs => 64nat,
            StageKind::DraftA | StageKind::DraftB => 96,
            StageKind::Fuse => 160 + byte_len(draft_or_source(units[i])) + byte_len(
                alt_or_draft(units[i]),
            ) + byte_len(notes[i]),
        })
    }
}

/// The room that there is for the units of a chunk, by the size of the context.
pub open spec fn room_given(kind: StageKind, ctx: u32) -> int {
    if kind == StageKind::Fuse {
        if 2 * ctx < 8200 {
            6000
        } else {
            2 * ctx - 2200
        }
    } else if 2 * ctx < 5800 {
        4000
    } else {
        2 * ctx - 1800
    }
}

spec fn plan_has_room(
    cfg: StageConfigV,
    units: Seq<UnitV>,
    notes: Seq<Seq<char>>,
    p: PlanV,
) -> bool {
    &&& p.used == room_taken(cfg.kind, units, notes, p.chunk)
    &&& p.chunk.len() > 1 ==> p.used <= room_given(cfg.kind, cfg.ctx_size)
    &&& forall|k: int|
        0 <= k < p.works.len() ==> chunk_has_room(cfg, units, notes, #[trigger] p.works[k])
}

/// Whether the units of a chunk fit in the room that there is, or the chunk has only one.
pub open spec fn chunk_has_room(
    cfg: StageConfigV,
    units: Seq<UnitV>,
    notes: Seq<Seq<char>>,
    w: WorkV,
) -> bool {
    w matches WorkV::Chunk(c) ==> c.len() <= 1 || room_taken(cfg.kind, units, notes, c)
        <= room_given(cfg.kind, cfg.ctx_size)
}

proof fn lemma_plan_has_room(
    cfg: StageConfigV,
    units: Seq<UnitV>,
    notes: Seq<Seq<char>>,
    n: int,
)
    requires
        0 <= n <= units.len(),
    ensures
        plan_has_room(cfg, units, notes, plan_of(cfg, units, notes, n)),
    decreases n,
{
    if n > 0 {
        let i = n - 1;
        lemma_plan_has_room(cfg, units, notes, i);
        let p = plan_of(cfg, units, notes, i);
        let q = plan_closed(p);
        let r = plan_of(cfg, units, notes, n);
        assert(plan_has_room(cfg, units, notes, q));
        assert(q.chunk.push(i as nat).drop_last() =~= q.chunk);
        assert(p.chunk.push(i as nat).drop_last() =~= p.chunk);
    }
}

/// The units of a chunk fit in the room that the context leaves for them, unless the chunk has only
/// one.
pub proof fn law_chunks_have_room(cfg: StageConfigV, units: Seq<UnitV>, notes: Seq<Seq<char>>)
    ensures
        forall|k: int|
            0 <= k < works_of(cfg, units, notes).len() ==> chunk_has_room(
                cfg,
                units,
                notes,
                #[trigger] works_of(cfg, units, notes)[k],
            ),
{
    lemma_plan_has_room(cfg, units, notes, units.len() as int);
}

/// A unit keeps its text where there is nothing to translate in it: where it holds no letter, or in a
/// draft nothing at all. Where drafts are fused, units that are no paragraphs keep theirs. Every other
/// unit is translated.
pub proof fn law_who_keeps_its_text(u: UnitV)
    ensures
        unit_keeps(StageKind::Slots, u) <==> trivial_text(u.frozen_surface),
        unit_keeps(StageKind::Paragraphs, u) <==> trivial_text(u.frozen_surface),
        unit_keeps(StageKind::DraftA, u) <==> is_blank(u.frozen_surface) || trivial_text(
            u.source_surface,
        ),
        unit_keeps(StageKind::DraftB, u) <==> is_blank(u.frozen_surface) || trivial_text(
            u.source_surface,
        ),
        unit_keeps(StageKind::Fuse, u) <==> !(has(u.scope_key, "#w:p"@)) && !(has(
            u.scope_key,
            "#a:p"@,
        )),
{
}

/// The reply for one unit in which one of the two markers is missing is read from the one that is
/// there: what stands behind the first, or before the second.
pub proof fn law_one_marker_is_enough(ids: Seq<usize>, i: nat, raw: Seq<char>, at: int)
    requires
        i < ids.len(),
    ensures
        ({
            let id = ids[i as int] as nat;
            let c = cleaned(raw);
            &&& find_from(c, seg_start_of(id), 0) == Some(at) && find_from(
                c.skip(at + seg_start_of(id).len()),
                seg_end_of(id),
                0,
            ) is None && find_from(c, seg_end_of(id), at + seg_start_of(id).len()) is None
                ==> chunk_read(ids, seq![i], raw) == Some(
                seq![(i, cleaned(c.skip(at + seg_start_of(id).len())))],
            )
            &&& find_from(c, seg_start_of(id), 0) is None && find_from(c, seg_end_of(id), 0) == Some(
                at,
            ) ==> chunk_read(ids, seq![i], raw) == Some(seq![(i, cleaned(c.take(at)))])
        }),
{
    assert(chunk_ids(ids, seq![i])[0] == ids[i as int]);
}

/// A repair is asked for with what is wrong with the text: with the fault that the checks found, or
/// else with a word for a text that is to be made anew.
pub proof fn law_reason_is_told(
    cfg: StageConfigV,
    u: UnitV,
    slots: Seq<usize>,
    texts: Seq<Seq<char>>,
    text: Seq<char>,
)
    requires
        !one_by_one(cfg.kind),
        job_begun(cfg, u, slots, texts, text).0.phase == JobPhase::Repair,
    ensures
        job_begun(cfg, u, slots, texts, text).0.out == text,
        job_begun(cfg, u, slots, texts, text).0.reason == (match unit_verdict(u, text) {
            Err(e) => invalid_text(e),
            Ok(_) => "quality_force_retranslate"@,
        }),
{
}

} // verus!
