//! Text primitives over sequences of characters.
//!
//! A `str` is viewed as a `Seq<char>`; positions count characters.

use vstd::prelude::*;
use vstd::string::*;
use vstd::utf8::*;

verus! {

/// `String::push` appends one character.
pub assume_specification[ String::push ](s: &mut String, c: char)
    ensures
        final(s)@ == old(s)@.push(c),
;

/// The characters of `s`.
pub fn to_chars(s: &str) -> (r: Vec<char>)
    ensures
        r@ == s@,
{
    let mut v: Vec<char> = Vec::new();
    for c in it: s.chars()
        invariant
            v@ == it.seq().take(it.index() as int),
            it.seq() == s@,
    {
        v.push(c);
        proof {
            assert(it.seq().take(it.index() as int + 1) == it.seq().take(it.index() as int).push(c));
        }
    }
    assert(s@.take(s@.len() as int) == s@);
    v
}

/// The text made of the characters `v[from..to]`.
pub fn text_of(v: &Vec<char>, from: usize, to: usize) -> (r: String)
    requires
        from <= to <= v@.len(),
    ensures
        r@ == v@.subrange(from as int, to as int),
{
    let mut out: String = String::new();
    let mut i: usize = from;
    while i < to
        invariant
            from <= i <= to <= v@.len(),
            out@ == v@.subrange(from as int, i as int),
        decreases to - i,
    {
        out.push(v[i]);
        i = i + 1;
        assert(v@.subrange(from as int, i as int) == v@.subrange(from as int, i as int - 1).push(v@[i as int - 1]));
    }
    out
}

/// Whether two texts hold the same characters.
pub fn str_eq(a: &str, b: &str) -> (r: bool)
    ensures
        r == (a@ == b@),
{
    let x: &[u8] = a.as_bytes();
    let y: &[u8] = b.as_bytes();
    proof {
        encode_utf8_decode_utf8(a@);
        encode_utf8_decode_utf8(b@);
    }
    if x.len() != y.len() {
        return false;
    }
    let mut i: usize = 0;
    while i < x.len()
        invariant
            i <= x@.len(),
            x@.len() == y@.len(),
            x@ == encode_utf8(a@),
            y@ == encode_utf8(b@),
            forall|j: int| 0 <= j < i ==> x@[j] == y@[j],
        decreases x@.len() - i,
    {
        if x[i] != y[i] {
            return false;
        }
        i = i + 1;
    }
    assert(x@ == y@);
    true
}


/// The characters with the Unicode `White_Space` property.
pub open spec fn is_ws(c: char) -> bool {
    ||| '\u{9}' <= c <= '\u{d}'
    ||| c == ' '
    ||| c == '\u{85}'
    ||| c == '\u{a0}'
    ||| c == '\u{1680}'
    ||| '\u{2000}' <= c <= '\u{200a}'
    ||| c == '\u{2028}'
    ||| c == '\u{2029}'
    ||| c == '\u{202f}'
    ||| c == '\u{205f}'
    ||| c == '\u{3000}'
}

/// Whether `c` is white space.
pub fn is_whitespace(c: char) -> (r: bool)
    ensures
        r == is_ws(c),
{
    ('\u{9}' <= c && c <= '\u{d}') || c == ' ' || c == '\u{85}' || c == '\u{a0}' || c == '\u{1680}' || (
    '\u{2000}' <= c && c <= '\u{200a}') || c == '\u{2028}' || c == '\u{2029}' || c == '\u{202f}' || c
        == '\u{205f}' || c == '\u{3000}'
}

/// `s` without its leading white space.
pub open spec fn trim_start(s: Seq<char>) -> Seq<char>
    decreases s.len(),
{
    if s.len() > 0 && is_ws(s[0]) {
        trim_start(s.drop_first())
    } else {
        s
    }
}

/// `s` without its trailing white space.
pub open spec fn trim_end(s: Seq<char>) -> Seq<char>
    decreases s.len(),
{
    if s.len() > 0 && is_ws(s.last()) {
        trim_end(s.drop_last())
    } else {
        s
    }
}

/// `s` without white space at either end.
pub open spec fn trimmed(s: Seq<char>) -> Seq<char> {
    trim_end(trim_start(s))
}

/// Whether `s` holds white space only.
pub open spec fn is_blank(s: Seq<char>) -> bool {
    forall|i: int| 0 <= i < s.len() ==> is_ws(#[trigger] s[i])
}

proof fn lemma_trim_start_blank(s: Seq<char>)
    ensures
        trim_start(s).len() == 0 <==> is_blank(s),
        trim_start(s).len() > 0 ==> !is_ws(trim_start(s)[0]),
        is_blank(trim_start(s)) ==> trim_start(s).len() == 0,
    decreases s.len(),
{
    if s.len() > 0 && is_ws(s[0]) {
        lemma_trim_start_blank(s.drop_first());
        if is_blank(s.drop_first()) {
            assert forall|i: int| 0 <= i < s.len() implies is_ws(#[trigger] s[i]) by {
                if i > 0 {
                    assert(s.drop_first()[i - 1] == s[i]);
                }
            }
        }
        if is_blank(s) {
            assert forall|i: int| 0 <= i < s.drop_first().len() implies is_ws(
                #[trigger] s.drop_first()[i],
            ) by {
                assert(s.drop_first()[i] == s[i + 1]);
            }
        }
    } else if s.len() > 0 {
        assert(!is_ws(s[0]));
    }
}

proof fn lemma_trim_end_blank(s: Seq<char>)
    ensures
        trim_end(s).len() == 0 <==> is_blank(s),
    decreases s.len(),
{
    if s.len() > 0 && is_ws(s.last()) {
        lemma_trim_end_blank(s.drop_last());
        if is_blank(s.drop_last()) {
            assert forall|i: int| 0 <= i < s.len() implies is_ws(#[trigger] s[i]) by {
                if i < s.len() - 1 {
                    assert(s.drop_last()[i] == s[i]);
                }
            }
        }
        if is_blank(s) {
            assert forall|i: int| 0 <= i < s.drop_last().len() implies is_ws(
                #[trigger] s.drop_last()[i],
            ) by {
                assert(s.drop_last()[i] == s[i]);
            }
        }
    } else if s.len() > 0 {
        assert(!is_ws(s[s.len() - 1]));
    }
}

/// Trimming leaves nothing exactly where there is white space only.
pub proof fn lemma_trimmed_empty(s: Seq<char>)
    ensures
        trimmed(s).len() == 0 <==> is_blank(s),
{
    lemma_trim_start_blank(s);
    lemma_trim_end_blank(trim_start(s));
}

/// The bounds of `v[from..to]` without white space at either end.
pub fn trim_bounds(v: &Vec<char>, from: usize, to: usize) -> (r: (usize, usize))
    requires
        from <= to <= v@.len(),
    ensures
        from <= r.0 <= r.1 <= to,
        v@.subrange(r.0 as int, r.1 as int) == trimmed(v@.subrange(from as int, to as int)),
{
    let mut a: usize = from;
    while a < to && is_whitespace(v[a])
        invariant
            from <= a <= to <= v@.len(),
            trim_start(v@.subrange(a as int, to as int)) == trim_start(
                v@.subrange(from as int, to as int),
            ),
        decreases to - a,
    {
        assert(v@.subrange(a as int, to as int).drop_first() == v@.subrange(a + 1, to as int));
        a = a + 1;
    }
    let mut b: usize = to;
    while b > a && is_whitespace(v[b - 1])
        invariant
            a <= b <= to <= v@.len(),
            trim_end(v@.subrange(a as int, b as int)) == trim_end(
                v@.subrange(a as int, to as int),
            ),
        decreases b - a,
    {
        assert(v@.subrange(a as int, b as int).drop_last() == v@.subrange(a as int, b - 1));
        b = b - 1;
    }
    (a, b)
}

/// `s` without white space at either end.
pub fn trim(s: &str) -> (r: String)
    ensures
        r@ == trimmed(s@),
{
    let v: Vec<char> = to_chars(s);
    let (a, b) = trim_bounds(&v, 0, v.len());
    assert(v@.subrange(0, v@.len() as int) == v@);
    text_of(&v, a, b)
}

/// Whether trimming `s` leaves nothing.
pub fn blank(s: &str) -> (r: bool)
    ensures
        r == is_blank(s@),
        r == (trimmed(s@).len() == 0),
{
    let t: String = trim(s);
    proof {
        lemma_trimmed_empty(s@);
    }
    t.as_str().is_empty()
}

/// Whether `p` stands in `s` at position `i`.
pub open spec fn occurs_at(s: Seq<char>, p: Seq<char>, i: int) -> bool {
    0 <= i && i + p.len() <= s.len() && s.subrange(i, i + p.len()) == p
}

/// The first position from `i` on at which `p` stands in `s`.
pub open spec fn find_from(s: Seq<char>, p: Seq<char>, i: int) -> Option<int>
    decreases s.len() + 1 - i,
{
    if i < 0 || i + p.len() > s.len() {
        None
    } else if occurs_at(s, p, i) {
        Some(i)
    } else {
        find_from(s, p, i + 1)
    }
}

/// Whether `p` stands somewhere in `s`.
pub open spec fn has(s: Seq<char>, p: Seq<char>) -> bool {
    find_from(s, p, 0) is Some
}

pub open spec fn begins(s: Seq<char>, p: Seq<char>) -> bool {
    occurs_at(s, p, 0)
}

pub open spec fn ends(s: Seq<char>, p: Seq<char>) -> bool {
    occurs_at(s, p, s.len() - p.len())
}

/// What `find_from` finds is the least position at which `p` stands.
pub proof fn lemma_find_from(s: Seq<char>, p: Seq<char>, i: int)
    requires
        0 <= i,
    ensures
        match find_from(s, p, i) {
            Some(j) => i <= j && occurs_at(s, p, j) && (forall|k: int|
                i <= k < j ==> !#[trigger] occurs_at(s, p, k)),
            None => forall|k: int| i <= k ==> !#[trigger] occurs_at(s, p, k),
        },
    decreases s.len() + 1 - i,
{
    if i + p.len() <= s.len() && !occurs_at(s, p, i) {
        lemma_find_from(s, p, i + 1);
    }
}

/// A position at which `p` stands, with none before it, is the one that is found.
pub proof fn lemma_find_is(s: Seq<char>, p: Seq<char>, i: int, j: int)
    requires
        0 <= i <= j,
        occurs_at(s, p, j),
        forall|k: int| i <= k < j ==> !#[trigger] occurs_at(s, p, k),
    ensures
        find_from(s, p, i) == Some(j),
{
    lemma_find_from(s, p, i);
    match find_from(s, p, i) {
        Some(q) => {
            if q < j {
                assert(!occurs_at(s, p, q));
            }
            if q > j {
                assert(!occurs_at(s, p, j));
            }
        },
        None => {
            assert(!occurs_at(s, p, j));
        },
    }
}

/// Whether `p` stands in `v` at position `i`.
pub fn matches_at(v: &Vec<char>, p: &Vec<char>, i: usize) -> (r: bool)
    requires
        i <= v@.len(),
    ensures
        r == occurs_at(v@, p@, i as int),
{
    if p.len() > v.len() - i {
        return false;
    }
    let mut k: usize = 0;
    while k < p.len()
        invariant
            k <= p@.len(),
            i + p@.len() <= v@.len(),
            v@.len() <= usize::MAX,
            forall|j: int| 0 <= j < k ==> v@[i + j] == #[trigger] p@[j],
        decreases p@.len() - k,
    {
        if v[i + k] != p[k] {
            assert(v@.subrange(i as int, i + p@.len())[k as int] != p@[k as int]);
            return false;
        }
        k = k + 1;
    }
    assert(v@.subrange(i as int, i + p@.len()) == p@);
    true
}

/// The first position from `from` on at which `p` stands in `v`.
pub fn position(v: &Vec<char>, p: &Vec<char>, from: usize) -> (r: Option<usize>)
    requires
        from <= v@.len(),
    ensures
        match r {
            Some(j) => find_from(v@, p@, from as int) == Some(j as int) && from <= j && j + p@.len()
                <= v@.len(),
            None => find_from(v@, p@, from as int) is None,
        },
{
    let mut i: usize = from;
    while i < v.len() && p.len() <= v.len() - i
        invariant
            from <= i <= v@.len(),
            find_from(v@, p@, i as int) == find_from(v@, p@, from as int),
        decreases v@.len() - i,
    {
        if matches_at(v, p, i) {
            return Some(i);
        }
        i = i + 1;
    }
    if i == v.len() && p.len() == 0 {
        assert(v@.subrange(i as int, i as int) == p@);
        return Some(i);
    }
    None
}

/// Whether `p` stands somewhere in `s`.
pub fn contains(s: &str, p: &str) -> (r: bool)
    ensures
        r == has(s@, p@),
{
    let v: Vec<char> = to_chars(s);
    let q: Vec<char> = to_chars(p);
    position(&v, &q, 0).is_some()
}

/// Whether `s` begins with `p`.
pub fn starts_with(s: &str, p: &str) -> (r: bool)
    ensures
        r == begins(s@, p@),
{
    let v: Vec<char> = to_chars(s);
    let q: Vec<char> = to_chars(p);
    matches_at(&v, &q, 0)
}

/// Whether `s` ends with `p`.
pub fn ends_with(s: &str, p: &str) -> (r: bool)
    ensures
        r == ends(s@, p@),
{
    let v: Vec<char> = to_chars(s);
    let q: Vec<char> = to_chars(p);
    if q.len() > v.len() {
        return false;
    }
    matches_at(&v, &q, v.len() - q.len())
}


/// The text `s` as a value of its own.
pub fn owned(s: &str) -> (r: String)
    ensures
        r@ == s@,
{
    s.to_owned()
}

/// Appends `t` to `s`.
pub fn append(s: &mut String, t: &str)
    ensures
        final(s)@ == old(s)@ + t@,
{
    s.append(t);
}

/// The decimal digit of value `d`.
pub open spec fn digit_char(d: nat) -> char {
    ((48 + d) as u8) as char
}

pub open spec fn is_digit(c: char) -> bool {
    '0' <= c <= '9'
}

pub open spec fn digit_value(c: char) -> nat {
    (c as int - 48) as nat
}

/// The decimal notation of `n`.
pub open spec fn dec(n: nat) -> Seq<char>
    decreases n,
{
    if n < 10 {
        seq![digit_char(n)]
    } else {
        dec(n / 10).push(digit_char(n % 10))
    }
}

pub open spec fn all_digits(s: Seq<char>) -> bool {
    forall|i: int| 0 <= i < s.len() ==> is_digit(#[trigger] s[i])
}

/// The number that a run of digits stands for.
pub open spec fn digits_value(s: Seq<char>) -> nat
    decreases s.len(),
{
    if s.len() == 0 {
        0
    } else {
        digits_value(s.drop_last()) * 10 + digit_value(s.last())
    }
}

/// Decimal notation is a non-empty run of digits that stands for the number.
pub proof fn lemma_dec(n: nat)
    ensures
        dec(n).len() > 0,
        all_digits(dec(n)),
        digits_value(dec(n)) == n,
    decreases n,
{
    if n < 10 {
        reveal_with_fuel(digits_value, 2);
        assert(dec(n).drop_last() =~= Seq::<char>::empty());
    } else {
        lemma_dec(n / 10);
        assert(dec(n).drop_last() =~= dec(n / 10));
        assert forall|i: int| 0 <= i < dec(n).len() implies is_digit(#[trigger] dec(n)[i]) by {
            if i < dec(n).len() - 1 {
                assert(dec(n)[i] == dec(n / 10)[i]);
            }
        }
    }
}

/// The decimal notation of `n`.
pub fn dec_text(n: u64) -> (r: String)
    ensures
        r@ == dec(n as nat),
    decreases n,
{
    let d: char = (48u8 + (n % 10) as u8) as char;
    if n < 10 {
        let mut s: String = String::new();
        s.push(d);
        assert(s@ =~= dec(n as nat));
        s
    } else {
        let mut s: String = dec_text(n / 10);
        s.push(d);
        s
    }
}

/// The decimal notation of `n`.
pub fn dec_usize(n: usize) -> (r: String)
    ensures
        r@ == dec(n as nat),
{
    dec_text(n as u64)
}

/// A sign and the digits after it: whether the number is negative, and the digits.
pub open spec fn signed_parts(s: Seq<char>) -> (bool, Seq<char>) {
    if s.len() > 0 && s[0] == '-' {
        (true, s.drop_first())
    } else if s.len() > 0 && s[0] == '+' {
        (false, s.drop_first())
    } else {
        (false, s)
    }
}

/// The integer that `s` spells: an optional sign, then one digit or more.
pub open spec fn int_of(s: Seq<char>) -> Option<int> {
    let (neg, d) = signed_parts(s);
    if d.len() == 0 || !all_digits(d) {
        None
    } else if neg {
        Some(-(digits_value(d) as int))
    } else {
        Some(digits_value(d) as int)
    }
}

/// The 32-bit integer that `s` spells.
pub open spec fn i32_of(s: Seq<char>) -> Option<int> {
    match int_of(s) {
        Some(n) if i32::MIN <= n <= i32::MAX => Some(n),
        _ => None,
    }
}

proof fn lemma_digits_value_grows(s: Seq<char>, i: int)
    requires
        0 <= i <= s.len(),
    ensures
        digits_value(s.take(i)) <= digits_value(s),
    decreases s.len() - i,
{
    if i < s.len() {
        lemma_digits_value_grows(s, i + 1);
        assert(s.take(i + 1).drop_last() =~= s.take(i));
        assert(digits_value(s.take(i + 1)) >= digits_value(s.take(i)));
    } else {
        assert(s.take(i) =~= s);
    }
}

/// The value of the digits `v[from..]`, where they are digits and stand for at most `max`.
pub(crate) fn digits_at_most(v: &Vec<char>, from: usize, max: u64) -> (r: Option<u64>)
    requires
        from <= v@.len(),
    ensures
        match r {
            Some(n) => {
                let d = v@.subrange(from as int, v@.len() as int);
                d.len() > 0 && all_digits(d) && digits_value(d) == n && n <= max
            },
            None => {
                let d = v@.subrange(from as int, v@.len() as int);
                d.len() == 0 || !all_digits(d) || digits_value(d) > max
            },
        },
{
    if from == v.len() {
        return None;
    }
    let ghost d = v@.subrange(from as int, v@.len() as int);
    let mut n: u128 = 0;
    let mut i: usize = from;
    assert(d.take(0) =~= Seq::<char>::empty());
    while i < v.len()
        invariant
            from <= i <= v@.len(),
            from < v@.len(),
            d == v@.subrange(from as int, v@.len() as int),
            n <= max,
            n == digits_value(d.take(i - from)),
            forall|k: int| 0 <= k < i - from ==> is_digit(#[trigger] d[k]),
        decreases v@.len() - i,
    {
        let c: char = v[i];
        assert(d[i - from] == c);
        if !(c >= '0' && c <= '9') {
            assert(!is_digit(d[i - from]));
            return None;
        }
        let k: u128 = (c as u128) - 48;
        assert(d.take(i - from + 1).drop_last() =~= d.take(i - from));
        assert(d.take(i - from + 1).last() == c);
        n = n * 10 + k;
        i = i + 1;
        if n > max as u128 {
            proof {
                lemma_digits_value_grows(d, i - from);
            }
            return None;
        }
    }
    assert(d.take(i - from) =~= d);
    Some(n as u64)
}

/// The 32-bit integer that `s` spells, if it spells one.
pub fn parse_i32(s: &str) -> (r: Option<i32>)
    ensures
        opt_i32(r) == i32_of(s@),
{
    let v: Vec<char> = to_chars(s);
    let neg: bool = v.len() > 0 && v[0] == '-';
    let from: usize = if v.len() > 0 && (v[0] == '-' || v[0] == '+') {
        1
    } else {
        0
    };
    let max: u64 = if neg {
        0x8000_0000
    } else {
        0x7fff_ffff
    };
    assert(v@.subrange(from as int, v@.len() as int) =~= signed_parts(s@).1);
    match digits_at_most(&v, from, max) {
        Some(n) => if neg {
            Some((0 - n as i64) as i32)
        } else {
            Some(n as i32)
        },
        None => None,
    }
}

pub open spec fn opt_i32(o: Option<i32>) -> Option<int> {
    match o {
        Some(n) => Some(n as int),
        None => None,
    }
}

pub open spec fn opt_nat(o: Option<usize>) -> Option<nat> {
    match o {
        Some(n) => Some(n as nat),
        None => None,
    }
}

/// `s` with each occurrence of `p`, from the left and without overlap, replaced by `t`,
/// from position `i` on.
pub open spec fn replaced_from(s: Seq<char>, p: Seq<char>, t: Seq<char>, i: int) -> Seq<char>
    decreases s.len() - i,
{
    if i < 0 || i >= s.len() || p.len() == 0 {
        Seq::empty()
    } else if occurs_at(s, p, i) {
        t + replaced_from(s, p, t, i + p.len())
    } else {
        seq![s[i]] + replaced_from(s, p, t, i + 1)
    }
}

/// `s` with `p`, which is not empty, replaced by `t` throughout.
pub open spec fn replaced(s: Seq<char>, p: Seq<char>, t: Seq<char>) -> Seq<char> {
    replaced_from(s, p, t, 0)
}

/// `s` with `p` replaced by `t` throughout.
pub fn replace(s: &str, p: &str, t: &str) -> (r: String)
    requires
        p@.len() > 0,
    ensures
        r@ == replaced(s@, p@, t@),
{
    let v: Vec<char> = to_chars(s);
    let q: Vec<char> = to_chars(p);
    let mut out: String = String::new();
    let mut i: usize = 0;
    while i < v.len()
        invariant
            i <= v@.len(),
            q@ == p@,
            p@.len() > 0,
            out@ + replaced_from(v@, p@, t@, i as int) == replaced(v@, p@, t@),
        decreases v@.len() - i,
    {
        let ghost before = out@;
        if matches_at(&v, &q, i) {
            append(&mut out, t);
            proof {
                assert(before + (t@ + replaced_from(v@, p@, t@, i + p@.len())) =~= out@
                    + replaced_from(v@, p@, t@, i + p@.len()));
            }
            i = i + q.len();
        } else {
            out.push(v[i]);
            proof {
                assert(before + (seq![v@[i as int]] + replaced_from(v@, p@, t@, i + 1)) =~= out@
                    + replaced_from(v@, p@, t@, i + 1));
            }
            i = i + 1;
        }
    }
    assert(out@ + replaced_from(v@, p@, t@, i as int) =~= out@);
    out
}

/// `s` without the copies of `p` that it begins with.
pub open spec fn without_prefix(s: Seq<char>, p: Seq<char>) -> Seq<char>
    decreases s.len(),
{
    if p.len() > 0 && begins(s, p) {
        without_prefix(s.skip(p.len() as int), p)
    } else {
        s
    }
}

/// `s` without the copies of `p` that it begins with.
pub fn trim_start_matches(s: &str, p: &str) -> (r: String)
    ensures
        r@ == without_prefix(s@, p@),
{
    let v: Vec<char> = to_chars(s);
    let q: Vec<char> = to_chars(p);
    let mut i: usize = 0;
    let n: usize = v.len();
    assert(v@.skip(0) =~= v@);
    while q.len() > 0 && matches_at(&v, &q, i)
        invariant
            i <= v@.len(),
            v@.len() <= usize::MAX,
            v@ == s@,
            q@ == p@,
            without_prefix(v@.skip(i as int), p@) == without_prefix(s@, p@),
        decreases v@.len() - i,
    {
        assert(v@.skip(i as int).subrange(0, p@.len() as int) =~= v@.subrange(i as int, i + p@.len()));
        assert(v@.skip(i as int).skip(p@.len() as int) =~= v@.skip(i + p@.len()));
        i = i + q.len();
    }
    proof {
        if p@.len() > 0 && begins(v@.skip(i as int), p@) {
            assert(v@.skip(i as int).subrange(0, p@.len() as int) =~= v@.subrange(
                i as int,
                i + p@.len(),
            ));
        }
        assert(v@.skip(i as int) =~= v@.subrange(i as int, v@.len() as int));
    }
    text_of(&v, i, n)
}


/// The characters of a byte string, with what is not UTF-8 replaced by U+FFFD.
pub uninterp spec fn lossy(b: Seq<u8>) -> Seq<char>;

/// `String::from_utf8_lossy`: bytes that are UTF-8 give the characters that they encode.
#[verifier::external_body]
pub(crate) fn lossy_text(b: &[u8]) -> (r: String)
    ensures
        r@ == lossy(b@),
        valid_utf8(b@) ==> r@ == decode_utf8(b@),
{
    String::from_utf8_lossy(b).into_owned()
}


/// A copy of a text.
pub fn clone_text(s: &String) -> (r: String)
    ensures
        r@ == s@,
{
    s.clone()
}

pub open spec fn is_ascii_char(c: char) -> bool {
    c <= '\u{7f}'
}

/// Whether all characters of `s` are ASCII.
pub open spec fn ascii(s: Seq<char>) -> bool {
    forall|i: int| 0 <= i < s.len() ==> is_ascii_char(#[trigger] s[i])
}

/// An ASCII letter in lower case; other characters stay.
pub open spec fn ascii_lower_char(c: char) -> char {
    if 'A' <= c <= 'Z' {
        ((c as u8 + 32) as u8) as char
    } else {
        c
    }
}

/// `s` with its ASCII letters in lower case.
pub open spec fn ascii_lower(s: Seq<char>) -> Seq<char> {
    s.map_values(|c: char| ascii_lower_char(c))
}

/// `s` in lower case, as Unicode defines it.
pub uninterp spec fn lowercase(s: Seq<char>) -> Seq<char>;

/// `str::to_lowercase`: ASCII text has its ASCII letters put in lower case.
#[verifier::external_body]
pub(crate) fn lowercase_text(s: &str) -> (r: String)
    ensures
        r@ == lowercase(s@),
        ascii(s@) ==> r@ == ascii_lower(s@),
{
    s.to_lowercase()
}


/// The length of `s` in bytes.
pub open spec fn byte_len(s: Seq<char>) -> nat {
    encode_utf8(s).len()
}

/// The length of `s` in bytes.
pub fn byte_length(s: &str) -> (r: usize)
    ensures
        r == byte_len(s@),
{
    s.as_bytes().len()
}

/// The length in bytes is additive, and at least the number of characters.
pub proof fn lemma_byte_len(a: Seq<char>, b: Seq<char>)
    ensures
        byte_len(a + b) == byte_len(a) + byte_len(b),
        byte_len(a) >= a.len(),
    decreases a.len(),
{
    if a.len() == 0 {
        assert(a + b =~= b);
    } else {
        lemma_byte_len(a.drop_first(), b);
        assert((a + b).drop_first() =~= a.drop_first() + b);
    }
}

/// A run of `n` zeros.
pub open spec fn zeros(n: int) -> Seq<char> {
    Seq::new(
        if n > 0 {
            n as nat
        } else {
            0
        },
        |i: int| '0',
    )
}

/// The decimal notation of `n`, filled up with zeros to `width` digits.
pub open spec fn dec_padded(n: nat, width: nat) -> Seq<char> {
    zeros(width - dec(n).len()) + dec(n)
}

/// The decimal notation of `n`, filled up with zeros to `width` digits.
pub fn dec_pad(n: usize, width: usize) -> (r: String)
    ensures
        r@ == dec_padded(n as nat, width as nat),
{
    dec_pad_u64(n as u64, width)
}

/// The decimal notation of `n`, filled up with zeros to `width` digits.
pub fn dec_pad_u64(n: u64, width: usize) -> (r: String)
    ensures
        r@ == dec_padded(n as nat, width as nat),
{
    let d: String = dec_text(n);
    let len: usize = to_chars(d.as_str()).len();
    let mut out: String = String::new();
    let mut i: usize = len;
    while i < width
        invariant
            len <= i,
            i <= width || i == len,
            out@ == zeros(i - len),
        decreases width - i,
    {
        out.push('0');
        i = i + 1;
        assert(out@ =~= zeros(i - len));
    }
    assert(out@ =~= zeros(width - len));
    append(&mut out, d.as_str());
    out
}


/// Zeros before a number do not change it.
pub proof fn lemma_dec_padded(n: nat, width: nat)
    ensures
        digits_value(dec_padded(n, width)) == n,
        all_digits(dec_padded(n, width)),
        dec_padded(n, width).len() >= width,
{
    lemma_dec(n);
    lemma_zeros_value(width - dec(n).len(), dec(n));
    let d = dec_padded(n, width);
    assert forall|i: int| 0 <= i < d.len() implies is_digit(#[trigger] d[i]) by {
        let z = zeros(width - dec(n).len());
        if i >= z.len() {
            assert(d[i] == dec(n)[i - z.len()]);
        }
    }
}

proof fn lemma_zeros_value(n: int, d: Seq<char>)
    ensures
        digits_value(zeros(n) + d) == digits_value(d),
    decreases d.len(), n,
{
    let s = zeros(n) + d;
    if d.len() > 0 {
        assert(s.drop_last() =~= zeros(n) + d.drop_last());
        lemma_zeros_value(n, d.drop_last());
    } else {
        assert(s =~= zeros(n));
        if n > 0 {
            assert(s.drop_last() =~= zeros(n - 1) + d);
            lemma_zeros_value(n - 1, d);
        }
    }
}


/// `s` with its ASCII letters in lower case.
pub fn lower_ascii(s: &str) -> (r: String)
    ensures
        r@ == ascii_lower(s@),
{
    let v: Vec<char> = to_chars(s);
    let mut out: String = String::new();
    let mut i: usize = 0;
    assert(out@ =~= ascii_lower(v@.take(0)));
    while i < v.len()
        invariant
            i <= v@.len(),
            out@ == ascii_lower(v@.take(i as int)),
        decreases v@.len() - i,
    {
        let c: char = v[i];
        let l: char = if c >= 'A' && c <= 'Z' {
            (c as u8 + 32) as char
        } else {
            c
        };
        out.push(l);
        i = i + 1;
        assert(ascii_lower(v@.take(i as int)) =~= ascii_lower(v@.take(i - 1)).push(
            ascii_lower_char(c),
        ));
    }
    assert(v@.take(i as int) =~= v@);
    out
}

/// How often `p`, which is not empty, stands in `s` from `i` on, without overlaps.
pub open spec fn occurrences_from(s: Seq<char>, p: Seq<char>, i: int) -> nat
    decreases s.len() - i,
{
    if i < 0 || i >= s.len() || p.len() == 0 {
        0
    } else if occurs_at(s, p, i) {
        1 + occurrences_from(s, p, i + p.len())
    } else {
        occurrences_from(s, p, i + 1)
    }
}

/// How often `p` stands in `s`, without overlaps. The empty text stands before each character and at
/// the end.
pub open spec fn occurrences(s: Seq<char>, p: Seq<char>) -> nat {
    if p.len() == 0 {
        s.len() + 1
    } else {
        occurrences_from(s, p, 0)
    }
}

/// How often `p` stands in `s`, without overlaps.
pub fn count_matches(s: &str, p: &str) -> (r: u128)
    ensures
        r == occurrences(s@, p@),
{
    let v: Vec<char> = to_chars(s);
    let q: Vec<char> = to_chars(p);
    let n: usize = v.len();
    if q.len() == 0 {
        return n as u128 + 1;
    }
    let mut count: u128 = 0;
    let mut i: usize = 0;
    while i < n
        invariant
            i <= n == v@.len(),
            q@ == p@,
            v@ == s@,
            p@.len() > 0,
            count <= i,
            count + occurrences_from(v@, p@, i as int) == occurrences_from(v@, p@, 0),
        decreases n - i,
    {
        if matches_at(&v, &q, i) {
            i = i + q.len();
            count = count + 1;
        } else {
            i = i + 1;
        }
    }
    count
}

/// Texts one after another, with `sep` between them.
pub open spec fn joined_with(texts: Seq<Seq<char>>, sep: Seq<char>) -> Seq<char>
    decreases texts.len(),
{
    if texts.len() == 0 {
        Seq::empty()
    } else if texts.len() == 1 {
        texts[0]
    } else {
        joined_with(texts.drop_last(), sep) + sep + texts.last()
    }
}

/// Texts one after another, with `sep` between them.
pub fn join(texts: &Vec<String>, sep: &str) -> (r: String)
    ensures
        r@ == joined_with(texts.deep_view(), sep@),
{
    let ghost model = texts.deep_view();
    let mut out: String = String::new();
    let mut i: usize = 0;
    assert(model.take(0) =~= Seq::<Seq<char>>::empty());
    while i < texts.len()
        invariant
            i <= texts@.len(),
            model == texts.deep_view(),
            out@ == joined_with(model.take(i as int), sep@),
        decreases texts@.len() - i,
    {
        assert(model[i as int] == texts@[i as int]@);
        assert(model.take(i + 1).drop_last() =~= model.take(i as int));
        if i > 0 {
            append(&mut out, sep);
        }
        append(&mut out, texts[i].as_str());
        proof {
            if i == 0 {
                assert(out@ =~= model[0]);
            }
        }
        i = i + 1;
    }
    assert(model.take(i as int) =~= model);
    out
}

/// The first `n` characters of `s`, or all of them.
pub open spec fn head(s: Seq<char>, n: nat) -> Seq<char> {
    if s.len() <= n {
        s
    } else {
        s.take(n as int)
    }
}

/// The first `n` characters of `s`, or all of them.
pub fn head_of(s: &str, n: usize) -> (r: String)
    ensures
        r@ == head(s@, n as nat),
{
    let v: Vec<char> = to_chars(s);
    let end: usize = if v.len() <= n {
        v.len()
    } else {
        n
    };
    let r: String = text_of(&v, 0, end);
    assert(r@ =~= head(s@, n as nat));
    r
}

/// A character in lower case, as Unicode defines it for a character by itself.
pub uninterp spec fn char_lowercase(c: char) -> Seq<char>;

/// `char::to_lowercase`: the lower case of a character, which may be several characters. An ASCII
/// letter has its ASCII lower case, and any other ASCII character itself.
#[verifier::external_body]
pub(crate) fn lowercase_char(c: char) -> (r: String)
    ensures
        r@ == char_lowercase(c),
        is_ascii_char(c) ==> r@ == seq![ascii_lower_char(c)],
{
    c.to_lowercase().collect()
}

/// Whether a text has no character.
pub fn is_empty(s: &str) -> (r: bool)
    ensures
        r == (s@.len() == 0),
{
    let v: Vec<char> = to_chars(s);
    v.len() == 0
}

proof fn lemma_trim_start_blank_off(a: Seq<char>, s: Seq<char>)
    requires
        is_blank(a),
        s.len() > 0 ==> !is_ws(s[0]),
    ensures
        trim_start(a + s) == s,
    decreases a.len(),
{
    if a.len() > 0 {
        let rest = a.drop_first();
        assert(is_blank(rest)) by {
            assert forall|i: int| 0 <= i < rest.len() implies is_ws(#[trigger] rest[i]) by {
                assert(rest[i] == a[i + 1]);
            }
        }
        lemma_trim_start_blank_off(rest, s);
        assert((a + s).drop_first() =~= rest + s);
        assert(is_ws(a[0]));
        assert((a + s)[0] == a[0]);
    } else {
        assert(a + s =~= s);
    }
}

proof fn lemma_trim_end_blank_off(s: Seq<char>, b: Seq<char>)
    requires
        is_blank(b),
        s.len() > 0 ==> !is_ws(s.last()),
    ensures
        trim_end(s + b) == s,
    decreases b.len(),
{
    if b.len() > 0 {
        let rest = b.drop_last();
        assert(is_blank(rest)) by {
            assert forall|i: int| 0 <= i < rest.len() implies is_ws(#[trigger] rest[i]) by {
                assert(rest[i] == b[i]);
            }
        }
        lemma_trim_end_blank_off(s, rest);
        assert((s + b).drop_last() =~= s + rest);
        assert((s + b).last() == b[b.len() - 1]);
        assert(is_ws(b[b.len() - 1]));
    } else {
        assert(s + b =~= s);
    }
}

/// White space before and after a text that neither begins nor ends with any is taken off, and nothing
/// else.
pub proof fn law_trimmed(a: Seq<char>, s: Seq<char>, b: Seq<char>)
    requires
        is_blank(a),
        is_blank(b),
        s.len() > 0 ==> !is_ws(s[0]) && !is_ws(s.last()),
    ensures
        trimmed(a + s + b) == s,
{
    if s.len() > 0 {
        assert(a + s + b =~= a + (s + b));
        assert((s + b)[0] == s[0]);
        lemma_trim_start_blank_off(a, s + b);
        lemma_trim_end_blank_off(s, b);
    } else {
        let all = a + s + b;
        assert(is_blank(all)) by {
            assert forall|i: int| 0 <= i < all.len() implies is_ws(#[trigger] all[i]) by {
                if i < a.len() {
                    assert(all[i] == a[i]);
                } else {
                    assert(all[i] == b[i - a.len()]);
                }
            }
        }
        lemma_trimmed_empty(all);
        assert(trimmed(all) =~= s);
    }
}

proof fn lemma_replaced_step(a: Seq<char>, p: Seq<char>, t: Seq<char>, b: Seq<char>, i: int)
    requires
        p.len() > 0,
        0 <= i <= a.len(),
        forall|k: int| i <= k < a.len() ==> !#[trigger] occurs_at(a + p + b, p, k),
    ensures
        replaced_from(a + p + b, p, t, i) == a.skip(i) + t + replaced_from(
            a + p + b,
            p,
            t,
            (a.len() + p.len()) as int,
        ),
    decreases a.len() - i,
{
    let s = a + p + b;
    if i < a.len() {
        lemma_replaced_step(a, p, t, b, i + 1);
        assert(!occurs_at(s, p, i));
        assert(s[i] == a[i]);
        assert(replaced_from(s, p, t, i) =~= a.skip(i) + t + replaced_from(
            s,
            p,
            t,
            (a.len() + p.len()) as int,
        ));
    } else {
        assert(s.subrange(i, i + p.len()) =~= p);
        assert(a.skip(i) =~= Seq::<char>::empty());
        assert(replaced_from(s, p, t, i) =~= a.skip(i) + t + replaced_from(
            s,
            p,
            t,
            (a.len() + p.len()) as int,
        ));
    }
}

proof fn lemma_replaced_shift(a: Seq<char>, s: Seq<char>, p: Seq<char>, t: Seq<char>, i: int)
    requires
        0 <= i <= s.len(),
        p.len() > 0,
    ensures
        replaced_from(a + s, p, t, a.len() + i) == replaced_from(s, p, t, i),
    decreases s.len() - i,
{
    if i < s.len() {
        let all = a + s;
        assert(occurs_at(all, p, a.len() + i) == occurs_at(s, p, i)) by {
            if i + p.len() <= s.len() {
                assert(all.subrange(a.len() + i, a.len() + i + p.len()) =~= s.subrange(
                    i,
                    i + p.len(),
                ));
            }
        }
        if occurs_at(s, p, i) {
            lemma_replaced_shift(a, s, p, t, i + p.len());
        } else {
            lemma_replaced_shift(a, s, p, t, i + 1);
        }
    }
}

/// Where a text first holds what is to be replaced, the text before that stays, what is put in its
/// place comes next, and the replacing goes on behind it.
pub proof fn law_replaced(a: Seq<char>, p: Seq<char>, t: Seq<char>, b: Seq<char>)
    requires
        p.len() > 0,
        find_from(a + p + b, p, 0) == Some(a.len() as int),
    ensures
        replaced(a + p + b, p, t) == a + t + replaced(b, p, t),
{
    let s = a + p + b;
    lemma_find_from(s, p, 0);
    assert forall|k: int| 0 <= k < a.len() implies !#[trigger] occurs_at(s, p, k) by {}
    lemma_replaced_step(a, p, t, b, 0);
    assert(a + p + b =~= (a + p) + b);
    lemma_replaced_shift(a + p, b, p, t, 0);
    assert(a.skip(0) =~= a);
}

proof fn lemma_trim_start_from(s: Seq<char>) -> (a: int)
    ensures
        0 <= a <= s.len(),
        trim_start(s) == s.skip(a),
        forall|i: int| 0 <= i < a ==> is_ws(#[trigger] s[i]),
    decreases s.len(),
{
    if s.len() > 0 && is_ws(s[0]) {
        let rest = s.drop_first();
        let a = lemma_trim_start_from(rest);
        assert(rest.skip(a) =~= s.skip(a + 1));
        assert forall|i: int| 0 <= i < a + 1 implies is_ws(#[trigger] s[i]) by {
            if i > 0 {
                assert(rest[i - 1] == s[i]);
            }
        }
        a + 1
    } else {
        assert(s.skip(0) =~= s);
        0
    }
}

proof fn lemma_trim_end_to(s: Seq<char>) -> (b: int)
    ensures
        0 <= b <= s.len(),
        trim_end(s) == s.take(b),
        forall|i: int| b <= i < s.len() ==> is_ws(#[trigger] s[i]),
    decreases s.len(),
{
    if s.len() > 0 && is_ws(s.last()) {
        let rest = s.drop_last();
        let b = lemma_trim_end_to(rest);
        assert(rest.take(b) =~= s.take(b));
        assert forall|i: int| b <= i < s.len() implies is_ws(#[trigger] s[i]) by {
            if i < rest.len() {
                assert(rest[i] == s[i]);
            }
        }
        b
    } else {
        assert(s.take(s.len() as int) =~= s);
        s.len() as int
    }
}

/// What is left of a text without white space at either end is a stretch of it, and only white space
/// stands outside that.
pub proof fn lemma_trimmed_within(s: Seq<char>) -> (r: (int, int))
    ensures
        0 <= r.0 <= r.1 <= s.len(),
        trimmed(s) == s.subrange(r.0, r.1),
        forall|i: int| 0 <= i < r.0 || r.1 <= i < s.len() ==> is_ws(#[trigger] s[i]),
{
    let a = lemma_trim_start_from(s);
    let t = trim_start(s);
    let b = lemma_trim_end_to(t);
    assert(t.take(b) =~= s.subrange(a, a + b));
    assert forall|i: int| 0 <= i < a || a + b <= i < s.len() implies is_ws(#[trigger] s[i]) by {
        if i >= a {
            assert(t[i - a] == s[i]);
        }
    }
    (a, a + b)
}

} // verus!
