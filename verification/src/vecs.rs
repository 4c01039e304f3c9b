//! Helpers on vectors that are stated over their deep views.

use crate::chars::str_eq;
use vstd::prelude::*;

verus! {

/// Appends one item.
pub fn push_deep<T: DeepView>(v: &mut Vec<T>, x: T)
    ensures
        final(v).deep_view() == old(v).deep_view().push(x.deep_view()),
        final(v)@ == old(v)@.push(x),
{
    v.push(x);
    assert(v.deep_view() =~= old(v).deep_view().push(x.deep_view()));
}

/// Removes the last item, if there is one.
pub fn pop_deep<T: DeepView>(v: &mut Vec<T>) -> (r: Option<T>)
    ensures
        final(v).deep_view() == popped(old(v).deep_view()),
        r.deep_view() == last_of(old(v).deep_view()),
{
    let r = v.pop();
    assert(v.deep_view() =~= popped(old(v).deep_view()));
    r
}

/// `s` without its last item.
pub open spec fn popped<A>(s: Seq<A>) -> Seq<A> {
    if s.len() > 0 {
        s.drop_last()
    } else {
        s
    }
}

/// The last item of `s`.
pub open spec fn last_of<A>(s: Seq<A>) -> Option<A> {
    if s.len() > 0 {
        Some(s.last())
    } else {
        None
    }
}

/// Moves the items of `b` to the end of `a`.
pub fn append_deep<T: DeepView>(a: &mut Vec<T>, b: Vec<T>)
    ensures
        final(a).deep_view() == old(a).deep_view() + b.deep_view(),
        final(a)@ == old(a)@ + b@,
{
    let mut b = b;
    let ghost whole = b.deep_view();
    a.append(&mut b);
    assert(a.deep_view() =~= old(a).deep_view() + whole);
}

/// A copy of a vector of texts.
pub fn clone_strings(v: &Vec<String>) -> (r: Vec<String>)
    ensures
        r.deep_view() == v.deep_view(),
{
    let mut out: Vec<String> = Vec::new();
    let mut i: usize = 0;
    while i < v.len()
        invariant
            i <= v@.len(),
            out.deep_view() == v.deep_view().take(i as int),
        decreases v@.len() - i,
    {
        push_deep(&mut out, v[i].clone());
        i = i + 1;
        assert(v.deep_view().take(i as int) == v.deep_view().take(i - 1).push(v.deep_view()[i - 1]));
    }
    assert(v.deep_view().take(i as int) == v.deep_view());
    out
}

/// A copy of an optional text.
pub fn clone_opt(o: &Option<String>) -> (r: Option<String>)
    ensures
        r.deep_view() == o.deep_view(),
{
    match o {
        Some(s) => Some(s.clone()),
        None => None,
    }
}

/// Whether two lists hold the same texts.
pub fn same_texts(a: &Vec<String>, b: &Vec<String>) -> (r: bool)
    ensures
        r == (a.deep_view() == b.deep_view()),
{
    let ghost x = a.deep_view();
    let ghost y = b.deep_view();
    if a.len() != b.len() {
        assert(x.len() != y.len());
        return false;
    }
    let mut i: usize = 0;
    while i < a.len()
        invariant
            i <= a@.len(),
            a@.len() == b@.len(),
            x == a.deep_view(),
            y == b.deep_view(),
            forall|k: int| 0 <= k < i ==> #[trigger] x[k] == y[k],
        decreases a@.len() - i,
    {
        assert(x[i as int] == a@[i as int]@);
        assert(y[i as int] == b@[i as int]@);
        if !str_eq(a[i].as_str(), b[i].as_str()) {
            return false;
        }
        i = i + 1;
    }
    assert(x =~= y);
    true
}

/// Whether a text is one of some.
pub fn is_among(items: &Vec<String>, s: &str) -> (r: bool)
    ensures
        r == items.deep_view().contains(s@),
{
    let ghost model = items.deep_view();
    let mut i: usize = 0;
    while i < items.len()
        invariant
            i <= items@.len(),
            model == items.deep_view(),
            forall|k: int| 0 <= k < i ==> #[trigger] model[k] != s@,
        decreases items@.len() - i,
    {
        assert(model[i as int] == items@[i as int]@);
        if str_eq(items[i].as_str(), s) {
            return true;
        }
        i = i + 1;
    }
    false
}

} // verus!
