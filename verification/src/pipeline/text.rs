//! What is done to the text of replies and prompts.

use crate::chars::{
    append, begins, find_from, is_blank, is_ws, law_replaced, law_trimmed, lemma_find_is, matches_at,
    occurs_at, owned, position, replace, replaced, starts_with, text_of, to_chars, trim, trimmed,
};
use vstd::prelude::*;

verus! {

/// What stands after the first `p` in `s`, or all of `s`.
pub open spec fn after_first(s: Seq<char>, p: Seq<char>) -> Seq<char> {
    match find_from(s, p, 0) {
        Some(i) => s.skip(i + p.len()),
        None => s,
    }
}

/// What stands before the first `p` in `s`, or all of `s`.
pub open spec fn before_first(s: Seq<char>, p: Seq<char>) -> Seq<char> {
    match find_from(s, p, 0) {
        Some(i) => s.take(i),
        None => s,
    }
}

/// The last position up to `i` at which `p` stands in `s`.
pub open spec fn find_back(s: Seq<char>, p: Seq<char>, i: int) -> Option<int>
    decreases i + 1,
{
    if i < 0 {
        None
    } else if occurs_at(s, p, i) {
        Some(i)
    } else {
        find_back(s, p, i - 1)
    }
}

/// What stands before the last `p` in `s`, or all of `s`.
pub open spec fn before_last(s: Seq<char>, p: Seq<char>) -> Seq<char> {
    match find_back(s, p, s.len() as int) {
        Some(i) => s.take(i),
        None => s,
    }
}

/// `s` without quotes at its beginning.
pub open spec fn unquoted_start(s: Seq<char>) -> Seq<char>
    decreases s.len(),
{
    if s.len() > 0 && s[0] == '"' {
        unquoted_start(s.drop_first())
    } else {
        s
    }
}

/// `s` without quotes at its end.
pub open spec fn unquoted_end(s: Seq<char>) -> Seq<char>
    decreases s.len(),
{
    if s.len() > 0 && s.last() == '"' {
        unquoted_end(s.drop_last())
    } else {
        s
    }
}

/// `s` without quotes at either end.
pub open spec fn unquoted(s: Seq<char>) -> Seq<char> {
    unquoted_end(unquoted_start(s))
}

/// The text of a reply without a fence around it, and without quotes or white space at either end.
pub open spec fn cleaned(s: Seq<char>) -> Seq<char> {
    let t = trimmed(s);
    let u = if begins(t, "```"@) {
        before_last(after_first(t, "\n"@), "```"@)
    } else {
        t
    };
    trimmed(unquoted(trimmed(u)))
}

/// What stands after the first `p` in `s`, or all of `s`.
pub fn cut_after(s: &str, p: &str) -> (r: String)
    ensures
        r@ == after_first(s@, p@),
{
    let v: Vec<char> = to_chars(s);
    let q: Vec<char> = to_chars(p);
    let n: usize = v.len();
    match position(&v, &q, 0) {
        Some(i) => {
            let r: String = text_of(&v, i + q.len(), n);
            assert(r@ =~= after_first(s@, p@));
            r
        },
        None => owned(s),
    }
}

/// What stands before the first `p` in `s`, or all of `s`.
pub fn cut_before(s: &str, p: &str) -> (r: String)
    ensures
        r@ == before_first(s@, p@),
{
    let v: Vec<char> = to_chars(s);
    let q: Vec<char> = to_chars(p);
    match position(&v, &q, 0) {
        Some(i) => {
            let r: String = text_of(&v, 0, i);
            assert(r@ =~= before_first(s@, p@));
            r
        },
        None => owned(s),
    }
}

fn cut_before_last(s: &str, p: &str) -> (r: String)
    ensures
        r@ == before_last(s@, p@),
{
    let v: Vec<char> = to_chars(s);
    let q: Vec<char> = to_chars(p);
    let mut i: usize = v.len();
    while i > 0 && !matches_at(&v, &q, i)
        invariant
            i <= v@.len(),
            v@ == s@,
            q@ == p@,
            find_back(v@, q@, i as int) == find_back(v@, q@, v@.len() as int),
        decreases i,
    {
        i = i - 1;
    }
    if matches_at(&v, &q, i) {
        let r: String = text_of(&v, 0, i);
        assert(r@ =~= before_last(s@, p@));
        r
    } else {
        assert(find_back(v@, q@, -1) is None);
        owned(s)
    }
}

fn trim_quotes(s: &str) -> (r: String)
    ensures
        r@ == unquoted(s@),
{
    let v: Vec<char> = to_chars(s);
    let n: usize = v.len();
    let mut a: usize = 0;
    let ghost mut rest = v@;
    assert(v@.subrange(0, n as int) =~= v@);
    while a < n && v[a] == '"'
        invariant
            a <= n == v@.len(),
            rest == v@.subrange(a as int, n as int),
            unquoted_start(rest) == unquoted_start(v@),
        decreases n - a,
    {
        assert(rest[0] == '"');
        a = a + 1;
        proof {
            let next = rest.drop_first();
            assert(next =~= v@.subrange(a as int, n as int));
            rest = next;
        }
    }
    assert(a < n ==> rest[0] == v@[a as int]);
    assert(unquoted_start(v@) == rest);
    let mut b: usize = n;
    let ghost mut part = rest;
    while b > a && v[b - 1] == '"'
        invariant
            a <= b <= n == v@.len(),
            part == v@.subrange(a as int, b as int),
            unquoted_end(part) == unquoted_end(rest),
        decreases b,
    {
        assert(part.last() == '"');
        b = b - 1;
        proof {
            let next = part.drop_last();
            assert(next =~= v@.subrange(a as int, b as int));
            part = next;
        }
    }
    assert(b > a ==> part.last() == v@[b - 1]);
    assert(unquoted_end(part) == part);
    text_of(&v, a, b)
}

/// The text of a reply without a fence around it, and without quotes or white space at either end.
pub fn cleanup_model_text(text: &str) -> (r: String)
    ensures
        r@ == cleaned(text@),
{
    let t: String = trim(text);
    let u: String = if starts_with(t.as_str(), "```") {
        let body: String = cut_after(t.as_str(), "\n");
        cut_before_last(body.as_str(), "```")
    } else {
        t
    };
    let inner: String = trim(u.as_str());
    let plain: String = trim_quotes(inner.as_str());
    trim(plain.as_str())
}

/// The place of a variable in a template.
pub open spec fn variable(key: Seq<char>) -> Seq<char> {
    "{{"@ + key + "}}"@
}

/// A template with its variables replaced, one after another.
pub open spec fn rendered(template: Seq<char>, vars: Seq<(Seq<char>, Seq<char>)>) -> Seq<char>
    decreases vars.len(),
{
    if vars.len() == 0 {
        template
    } else {
        replaced(
            rendered(template, vars.drop_last()),
            variable(vars.last().0),
            vars.last().1,
        )
    }
}

/// The keys and values of variables.
pub open spec fn vars_view(vars: Seq<(&str, &str)>) -> Seq<(Seq<char>, Seq<char>)> {
    vars.map_values(|kv: (&str, &str)| (kv.0@, kv.1@))
}

/// A template with its variables replaced, one after another.
pub fn render_template(template: &str, vars: &Vec<(&str, &str)>) -> (r: String)
    ensures
        r@ == rendered(template@, vars_view(vars@)),
{
    let ghost model = vars_view(vars@);
    let mut out: String = owned(template);
    let mut i: usize = 0;
    assert(model.take(0) =~= Seq::<(Seq<char>, Seq<char>)>::empty());
    while i < vars.len()
        invariant
            i <= vars@.len(),
            model == vars_view(vars@),
            out@ == rendered(template@, model.take(i as int)),
        decreases vars@.len() - i,
    {
        assert(model[i as int] == (vars@[i as int].0@, vars@[i as int].1@));
        assert(model.take(i + 1).drop_last() =~= model.take(i as int));
        let mut pat: String = owned("{{");
        append(&mut pat, vars[i].0);
        append(&mut pat, "}}");
        proof {
            reveal_strlit("{{");
            assert(pat@.len() > 0);
        }
        out = replace(out.as_str(), pat.as_str(), vars[i].1);
        i = i + 1;
    }
    assert(model.take(i as int) =~= model);
    out
}

/// A template without the place of a variable is left as it is by it.
pub proof fn law_render_unused(template: Seq<char>, key: Seq<char>, value: Seq<char>)
    requires
        find_from(template, variable(key), 0) is None,
    ensures
        rendered(template, seq![(key, value)]) == template,
{
    let vars = seq![(key, value)];
    assert(vars.drop_last() =~= Seq::<(Seq<char>, Seq<char>)>::empty());
    reveal_with_fuel(rendered, 2);
    crate::chars::lemma_find_from(template, variable(key), 0);
    reveal_strlit("{{");
    lemma_nothing_replaced(template, variable(key), value, 0);
    assert(template.skip(0) =~= template);
}

pub(crate) proof fn lemma_nothing_replaced(s: Seq<char>, p: Seq<char>, t: Seq<char>, i: int)
    requires
        0 <= i <= s.len(),
        p.len() > 0,
        forall|k: int| 0 <= k ==> !#[trigger] occurs_at(s, p, k),
    ensures
        crate::chars::replaced_from(s, p, t, i) == s.skip(i),
    decreases s.len() - i,
{
    if i < s.len() {
        assert(!occurs_at(s, p, i));
        lemma_nothing_replaced(s, p, t, i + 1);
        assert(seq![s[i]] + s.skip(i + 1) =~= s.skip(i));
    } else {
        assert(s.skip(i) =~= Seq::<char>::empty());
    }
}

/// A reply that is nothing but a text is taken as it is: where the text has neither white space nor
/// quotes at either end, and does not begin with a fence.
pub proof fn law_plain_reply_is_kept(a: Seq<char>, s: Seq<char>, b: Seq<char>)
    requires
        is_blank(a),
        is_blank(b),
        s.len() > 0,
        !is_ws(s[0]) && s[0] != '"' && s[0] != '`',
        !is_ws(s.last()) && s.last() != '"',
    ensures
        cleaned(a + s + b) == s,
{
    law_trimmed(a, s, b);
    let none = Seq::<char>::empty();
    law_trimmed(none, s, none);
    assert(none + s + none =~= s);
    reveal_strlit("```");
    assert(!begins(s, "```"@)) by {
        if begins(s, "```"@) {
            assert(s.subrange(0, 3)[0] == "```"@[0]);
        }
    }
}

/// Quotes round the text of a reply are taken off.
pub proof fn law_quotes_are_taken_off(s: Seq<char>)
    requires
        s.len() > 0,
        !is_ws(s[0]) && s[0] != '"',
        !is_ws(s.last()) && s.last() != '"',
    ensures
        cleaned("\""@ + s + "\""@) == s,
{
    let none = Seq::<char>::empty();
    reveal_strlit("\"");
    reveal_strlit("```");
    let q = "\""@ + s + "\""@;
    law_trimmed(none, q, none);
    assert(none + q + none =~= q);
    assert(q[0] == '"' && q.last() == '"');
    assert(!begins(q, "```"@)) by {
        if begins(q, "```"@) {
            assert(q.subrange(0, 3)[0] == "```"@[0]);
        }
    }
    let r = s + "\""@;
    assert(q.drop_first() =~= r);
    assert(r[0] == s[0]);
    assert(unquoted_start(r) == r);
    assert(unquoted_start(q) == r);
    assert(r.last() == '"');
    assert(r.drop_last() =~= s);
    assert(unquoted_end(s) == s);
    assert(unquoted_end(r) == s);
    law_trimmed(none, s, none);
    assert(none + s + none =~= s);
}

/// A fence round the text of a reply, with whatever stands in its first line, is taken off.
pub proof fn law_fence_is_taken_off(word: Seq<char>, s: Seq<char>)
    requires
        s.len() > 0,
        !is_ws(s[0]) && s[0] != '"',
        !is_ws(s.last()) && s.last() != '"',
        forall|i: int| 0 <= i < word.len() ==> #[trigger] word[i] != '\n',
    ensures
        cleaned("```"@ + word + "\n"@ + s + "\n```"@) == s,
{
    let none = Seq::<char>::empty();
    reveal_strlit("```");
    reveal_strlit("\n");
    reveal_strlit("\n```");
    let nl = "\n"@;
    let f = "```"@;
    let head = f + word;
    let body = s + "\n```"@;
    let all = f + word + nl + s + "\n```"@;
    assert(all =~= head + nl + body);
    law_trimmed(none, all, none);
    assert(none + all + none =~= all);
    assert(all[0] == '`' && all.last() == '`');
    assert(all.subrange(0, 3) =~= f);
    let n = head.len() as int;
    assert forall|k: int| 0 <= k < n implies !#[trigger] occurs_at(all, nl, k) by {
        if occurs_at(all, nl, k) {
            assert(all.subrange(k, k + 1)[0] == nl[0]);
            assert(all[k] == head[k]);
            if k >= 3 {
                assert(head[k] == word[k - 3]);
            }
        }
    }
    assert(all.subrange(n, n + 1) =~= nl);
    lemma_find_is(all, nl, 0, n);
    assert(all.skip(n + 1) =~= body);
    let m = body.len() as int;
    assert(body.subrange(m - 3, m) =~= f);
    lemma_find_back_fence(body, f, m);
    let inner = s + nl;
    assert(body.take(m - 3) =~= inner);
    law_trimmed(none, s, nl);
    assert(none + s + nl =~= inner);
    assert(unquoted_start(s) == s && unquoted_end(s) == s);
    law_trimmed(none, s, none);
    assert(none + s + none =~= s);
}

proof fn lemma_find_back_fence(s: Seq<char>, p: Seq<char>, i: int)
    requires
        p.len() == 3,
        s.len() >= 3,
        i == s.len(),
        s.subrange(s.len() - 3, s.len() as int) == p,
    ensures
        find_back(s, p, i) == Some(s.len() - 3),
{
    reveal_with_fuel(find_back, 4);
    assert(!occurs_at(s, p, i));
    assert(!occurs_at(s, p, i - 1));
    assert(!occurs_at(s, p, i - 2));
    assert(occurs_at(s, p, i - 3));
}

/// The place of a variable in a template is filled with its value, and what stands before it and behind
/// it stays.
pub proof fn law_render_fills(a: Seq<char>, key: Seq<char>, b: Seq<char>, value: Seq<char>)
    requires
        forall|i: int| 0 <= i < a.len() ==> #[trigger] a[i] != '{',
        forall|i: int| 0 <= i < b.len() ==> #[trigger] b[i] != '{',
    ensures
        rendered(a + "{{"@ + key + "}}"@ + b, seq![(key, value)]) == a + value + b,
{
    let vars = seq![(key, value)];
    let p = variable(key);
    reveal_strlit("{{");
    reveal_strlit("}}");
    let all = a + p + b;
    assert(a + "{{"@ + key + "}}"@ + b =~= all);
    assert(vars.drop_last() =~= Seq::<(Seq<char>, Seq<char>)>::empty());
    reveal_with_fuel(rendered, 2);
    let n = a.len() as int;
    assert forall|k: int| 0 <= k < n implies !#[trigger] occurs_at(all, p, k) by {
        if occurs_at(all, p, k) {
            assert(all.subrange(k, k + p.len())[0] == p[0]);
            assert(all[k] == a[k]);
        }
    }
    assert(all.subrange(n, n + p.len()) =~= p);
    lemma_find_is(all, p, 0, n);
    law_replaced(a, p, value, b);
    assert forall|k: int| 0 <= k implies !#[trigger] occurs_at(b, p, k) by {
        if occurs_at(b, p, k) {
            assert(b.subrange(k, k + p.len())[0] == p[0]);
        }
    }
    lemma_nothing_replaced(b, p, value, 0);
    assert(b.skip(0) =~= b);
}

} // verus!
