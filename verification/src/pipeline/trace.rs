//! What was asked and answered, as it is kept in files.

use crate::chars::{append, dec_pad, dec_padded, owned};
use vstd::prelude::*;

verus! {

/// Whether a character cannot stand in the name of a file.
pub open spec fn unfit(c: char) -> bool {
    c == '/' || c == '\\' || c == ':' || c == '*' || c == '?' || c == '"' || c == '<' || c == '>'
        || c == '|'
}

/// A text in which every character that cannot stand in the name of a file is an underscore.
pub open spec fn sanitized(t: Seq<char>) -> Seq<char> {
    t.map_values(
        |c: char|
            if unfit(c) {
                '_'
            } else {
                c
            },
    )
}

/// A name for a file.
pub fn sanitize_filename(name: &str) -> (r: String)
    ensures
        r@ == sanitized(name@),
{
    let chars: Vec<char> = crate::chars::to_chars(name);
    let mut out: Vec<char> = Vec::new();
    let mut i: usize = 0;
    while i < chars.len()
        invariant
            i <= chars@.len(),
            chars@ == name@,
            out@ == sanitized(name@.take(i as int)),
        decreases chars@.len() - i,
    {
        let c: char = chars[i];
        assert(name@.take(i + 1) =~= name@.take(i as int).push(c));
        if c == '/' || c == '\\' || c == ':' || c == '*' || c == '?' || c == '"' || c == '<' || c
            == '>' || c == '|' {
            out.push('_');
        } else {
            out.push(c);
        }
        assert(out@ =~= sanitized(name@.take(i + 1)));
        i = i + 1;
    }
    assert(name@.take(i as int) =~= name@);
    let n: usize = out.len();
    let r = crate::chars::text_of(&out, 0, n);
    assert(out@.subrange(0, n as int) =~= out@);
    r
}

/// The name of the file in which a text of a unit is kept.
pub fn tu_trace_name(tu_id: usize, stage: &str, kind: &str) -> (r: String)
    ensures
        r@ == "tu_"@ + dec_padded(tu_id as nat, 6) + "."@ + stage@ + "."@ + kind@ + ".txt"@,
{
    let mut r: String = owned("tu_");
    let id: String = dec_pad(tu_id, 6);
    append(&mut r, id.as_str());
    append(&mut r, ".");
    append(&mut r, stage);
    append(&mut r, ".");
    append(&mut r, kind);
    append(&mut r, ".txt");
    r
}

/// A name for a file has no character that cannot stand in one, is as long as the text that it is
/// made from, and is a name for a file again.
pub proof fn law_sanitized(t: Seq<char>)
    ensures
        sanitized(t).len() == t.len(),
        forall|i: int| 0 <= i < t.len() ==> !unfit(#[trigger] sanitized(t)[i]),
        sanitized(sanitized(t)) == sanitized(t),
{
    assert(sanitized(sanitized(t)) =~= sanitized(t));
}

/// A file that is to be written.
#[derive(Clone, Debug)]
pub struct TraceFile {
    pub name: String,
    pub text: String,
}

/// Keeps texts in the files of a directory, where that is wanted.
#[derive(Clone, Debug)]
pub struct TraceWriter {
    dir: String,
    enabled: bool,
}

impl TraceWriter {
    /// The directory.
    pub closed spec fn spec_dir(&self) -> Seq<char> {
        self.dir@
    }

    /// Whether texts are kept.
    pub closed spec fn keeps(&self) -> bool {
        self.enabled
    }

    /// Keeps texts in `dir`, or keeps none.
    pub fn new(dir: String, enabled: bool) -> (r: TraceWriter)
        ensures
            r.spec_dir() == dir@,
            r.keeps() == enabled,
    {
        TraceWriter { dir, enabled }
    }

    /// The directory.
    pub fn dir(&self) -> (r: &str)
        ensures
            r@ == self.spec_dir(),
    {
        self.dir.as_str()
    }

    /// What is to be written for a text with a name.
    pub fn write_named_text(&self, name: &str, text: &str) -> (r: Option<TraceFile>)
        ensures
            r is Some == self.keeps(),
            r matches Some(f) ==> f.name@ == sanitized(name@) && f.text@ == text@,
    {
        if self.enabled {
            Some(TraceFile { name: sanitize_filename(name), text: owned(text) })
        } else {
            None
        }
    }

    /// What is to be written for a text of a unit.
    pub fn write_tu_text(&self, tu_id: usize, stage: &str, kind: &str, text: &str) -> (r: Option<
        TraceFile,
    >)
        ensures
            r is Some == self.keeps(),
            r matches Some(f) ==> f.name@ == sanitized(
                "tu_"@ + dec_padded(tu_id as nat, 6) + "."@ + stage@ + "."@ + kind@ + ".txt"@,
            ) && f.text@ == text@,
    {
        let name: String = tu_trace_name(tu_id, stage, kind);
        self.write_named_text(name.as_str(), text)
    }
}

/// Only what cannot stand in the name of a file is replaced, each by an underscore.
pub proof fn law_rest_is_kept(t: Seq<char>, i: int)
    requires
        0 <= i < t.len(),
    ensures
        sanitized(t)[i] == (if "/\\:*?\"<>|"@.contains(t[i]) {
            '_'
        } else {
            t[i]
        }),
{
    reveal_strlit("/\\:*?\"<>|");
    let bad = "/\\:*?\"<>|"@;
    assert(bad[0] == '/' && bad[1] == '\\' && bad[2] == ':' && bad[3] == '*' && bad[4] == '?'
        && bad[5] == '"' && bad[6] == '<' && bad[7] == '>' && bad[8] == '|');
}

} // verus!
