//! How far the work has come.

use crate::chars::{
    append, dec, dec_pad_u64, dec_padded, dec_usize, digits_value, lemma_dec_padded, owned,
};
use vstd::prelude::*;

verus! {

/// A time in seconds as minutes and seconds, and hours where it has any.
pub open spec fn elapsed(seconds: u64) -> Seq<char> {
    let ms = dec_padded(((seconds % 3600) / 60) as nat, 2) + ":"@ + dec_padded(
        (seconds % 60) as nat,
        2,
    );
    if seconds >= 3600 {
        dec_padded((seconds / 3600) as nat, 2) + ":"@ + ms
    } else {
        ms
    }
}

/// A time in seconds as it is shown.
pub fn fmt_elapsed(seconds: u64) -> (r: String)
    ensures
        r@ == elapsed(seconds),
{
    let h: u64 = seconds / 3600;
    let m: u64 = (seconds % 3600) / 60;
    let s: u64 = seconds % 60;
    let mut ms: String = dec_pad_u64(m, 2);
    append(&mut ms, ":");
    let secs: String = dec_pad_u64(s, 2);
    append(&mut ms, secs.as_str());
    if h > 0 {
        let mut r: String = dec_pad_u64(h, 2);
        append(&mut r, ":");
        append(&mut r, ms.as_str());
        assert(r@ =~= elapsed(seconds));
        r
    } else {
        ms
    }
}

/// The count of what is done and the count of all that is shown: there is always something to do,
/// and never more is done than there is.
pub fn shown_counts(current: usize, total: usize) -> (r: (usize, usize))
    ensures
        r.1 == (if total == 0 {
            1
        } else {
            total
        }),
        r.0 == (if current <= r.1 {
            current
        } else {
            r.1
        }),
{
    let total: usize = if total == 0 {
        1
    } else {
        total
    };
    let current: usize = if current <= total {
        current
    } else {
        total
    };
    (current, total)
}

/// A message as it is shown, after the time in seconds.
pub fn info_line(seconds: u64, msg: &str) -> (r: String)
    ensures
        r@ == "["@ + elapsed(seconds) + "] "@ + msg@,
{
    let mut r: String = owned("[");
    let t: String = fmt_elapsed(seconds);
    append(&mut r, t.as_str());
    append(&mut r, "] ");
    append(&mut r, msg);
    r
}

/// How far the work has come as it is shown, after the time in seconds; `percent` is the share of
/// what is done.
pub fn progress_line(seconds: u64, label: &str, current: usize, total: usize, percent: &str) -> (r:
    String)
    ensures
        r@ == "["@ + elapsed(seconds) + "] "@ + label@ + " "@ + dec(current as nat) + "/"@ + dec(
            total as nat,
        ) + " ("@ + percent@ + "%)"@,
{
    let mut r: String = info_line(seconds, label);
    append(&mut r, " ");
    let c: String = dec_usize(current);
    append(&mut r, c.as_str());
    append(&mut r, "/");
    let t: String = dec_usize(total);
    append(&mut r, t.as_str());
    append(&mut r, " (");
    append(&mut r, percent);
    append(&mut r, "%)");
    r
}

/// A time in words gives back its seconds: the hours where there are any, the minutes, and the seconds,
/// both of them less than sixty.
pub proof fn law_elapsed(seconds: u64)
    ensures
        ({
            let m = dec_padded(((seconds / 60) % 60) as nat, 2);
            let s = dec_padded((seconds % 60) as nat, 2);
            let h = dec_padded((seconds / 3600) as nat, 2);
            &&& elapsed(seconds) == (if seconds >= 3600 {
                h + ":"@ + m + ":"@ + s
            } else {
                m + ":"@ + s
            })
            &&& digits_value(h) * 3600 + digits_value(m) * 60 + digits_value(s) == seconds
            &&& digits_value(m) < 60 && digits_value(s) < 60
        }),
{
    let m = dec_padded(((seconds / 60) % 60) as nat, 2);
    let s = dec_padded((seconds % 60) as nat, 2);
    let h = dec_padded((seconds / 3600) as nat, 2);
    lemma_dec_padded(((seconds / 60) % 60) as nat, 2);
    lemma_dec_padded((seconds % 60) as nat, 2);
    lemma_dec_padded((seconds / 3600) as nat, 2);
    assert((seconds % 3600) / 60 == (seconds / 60) % 60);
    assert(h + (":"@ + (m + ":"@ + s)) =~= h + ":"@ + m + ":"@ + s);
    assert(h + ":"@ + (m + ":"@ + s) =~= h + ":"@ + m + ":"@ + s);
}

} // verus!
