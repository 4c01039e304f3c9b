//! JSON objects in the replies of the model.

use crate::chars::{find_from, head, head_of, position, text_of, to_chars};
use crate::pipeline::text::{render_template, rendered, vars_view};
use serde::Deserialize;
use serde_json::Value;
use vstd::prelude::*;

verus! {

/// Why there is no JSON object.
#[derive(Clone, Debug)]
pub enum JsonError {
    /// No brace is opened.
    NoObject,
    /// What the brace opens cannot be read. Holds the reader's words.
    Malformed(String),
}

/// The model of a [`JsonError`].
#[verifier::ext_equal]
pub enum JsonErrorV {
    NoObject,
    Malformed(Seq<char>),
}

impl DeepView for JsonError {
    type V = JsonErrorV;

    open spec fn deep_view(&self) -> JsonErrorV {
        match self {
            JsonError::NoObject => JsonErrorV::NoObject,
            JsonError::Malformed(m) => JsonErrorV::Malformed(m@),
        }
    }
}

/// The JSON value that a text begins with, written out, or why there is none.
pub uninterp spec fn json_value(s: Seq<char>) -> Result<Seq<char>, Seq<char>>;

/// The deep view of a text or a reason.
pub open spec fn text_result(r: Result<String, String>) -> Result<Seq<char>, Seq<char>> {
    match r {
        Ok(t) => Ok(t@),
        Err(m) => Err(m@),
    }
}

/// `serde_json::Value::deserialize` on a `serde_json::Deserializer` of the text: the value that the
/// text begins with, as `Value::to_string` writes it. What follows the value does not matter.
#[verifier::external_body]
fn read_json_value(s: &str) -> (r: Result<String, String>)
    ensures
        text_result(r) == json_value(s@),
{
    let mut de = serde_json::Deserializer::from_str(s);
    match Value::deserialize(&mut de) {
        Ok(v) => Ok(v.to_string()),
        Err(e) => Err(e.to_string()),
    }
}

/// The JSON object in a text: the value that begins with the first brace.
pub open spec fn json_object(s: Seq<char>) -> Result<Seq<char>, JsonErrorV> {
    match find_from(s, "{"@, 0) {
        None => Err(JsonErrorV::NoObject),
        Some(i) => object_read(json_value(s.skip(i))),
    }
}

/// What becomes of the value that was read from the first brace on.
pub open spec fn object_read(value: Result<Seq<char>, Seq<char>>) -> Result<Seq<char>, JsonErrorV> {
    match value {
        Ok(v) => Ok(v),
        Err(m) => Err(JsonErrorV::Malformed(m)),
    }
}

/// The deep view of an object or a reason.
pub open spec fn object_result(r: Result<String, JsonError>) -> Result<Seq<char>, JsonErrorV> {
    match r {
        Ok(t) => Ok(t@),
        Err(e) => Err(e.deep_view()),
    }
}

/// The text from the first brace on.
pub fn from_first_brace(text: &str) -> (r: Option<String>)
    ensures
        r.deep_view() == (match find_from(text@, "{"@, 0) {
            Some(i) => Some(text@.skip(i)),
            None => None,
        }),
{
    let v: Vec<char> = to_chars(text);
    let q: Vec<char> = to_chars("{");
    match position(&v, &q, 0) {
        Some(i) => {
            let t: String = text_of(&v, i, v.len());
            assert(t@ =~= text@.skip(i as int));
            Some(t)
        },
        None => None,
    }
}

/// The JSON object in a text, written out.
pub fn must_extract_json_obj(text: &str) -> (r: Result<String, JsonError>)
    ensures
        object_result(r) == json_object(text@),
{
    match from_first_brace(text) {
        Some(slice) => match read_json_value(slice.as_str()) {
            Ok(v) => Ok(v),
            Err(m) => Err(JsonError::Malformed(m)),
        },
        None => Err(JsonError::NoObject),
    }
}

/// The reading of a reply that should hold a JSON object, with up to two repairs by the model.
pub struct JsonRead {
    /// The first reply, and what was made of it.
    pub raw: String,
    pub first: Result<String, JsonError>,
    /// The last reply.
    pub last: String,
    pub tries: usize,
    /// The object, once there is one.
    pub found: Option<String>,
}

/// The model of a [`JsonRead`].
#[verifier::ext_equal]
pub struct JsonReadV {
    pub raw: Seq<char>,
    pub first: Result<Seq<char>, JsonErrorV>,
    pub last: Seq<char>,
    pub tries: nat,
    pub found: Option<Seq<char>>,
}

impl DeepView for JsonRead {
    type V = JsonReadV;

    open spec fn deep_view(&self) -> JsonReadV {
        JsonReadV {
            raw: self.raw@,
            first: object_result(self.first),
            last: self.last@,
            tries: self.tries as nat,
            found: self.found.deep_view(),
        }
    }
}

/// The object of a result.
pub open spec fn object_of(r: Result<Seq<char>, JsonErrorV>) -> Option<Seq<char>> {
    match r {
        Ok(t) => Some(t),
        Err(_) => None,
    }
}

/// The reading at its start, given what was made of the first reply.
pub open spec fn json_begun(raw: Seq<char>, first: Result<Seq<char>, JsonErrorV>) -> JsonReadV {
    JsonReadV { raw, first, last: raw, tries: 0, found: object_of(first) }
}

/// The reading after a repair, given what was made of it.
pub open spec fn json_fed(
    st: JsonReadV,
    out: Seq<char>,
    read: Result<Seq<char>, JsonErrorV>,
) -> JsonReadV {
    if st.found is Some || st.tries >= 2 {
        st
    } else {
        JsonReadV { last: out, tries: st.tries + 1, found: object_of(read), ..st }
    }
}

/// What the model is told to repair a reply, if that is to be done.
pub open spec fn json_asked(st: JsonReadV, template: Seq<char>) -> Option<Seq<char>> {
    if st.found is Some || st.tries >= 2 {
        None
    } else {
        Some(rendered(template, seq![("raw"@, head(st.last, 8000))]))
    }
}

/// What came of the reading: the object, or why the first reply holds none.
pub open spec fn json_outcome(st: JsonReadV) -> Result<Seq<char>, JsonErrorV> {
    match st.found {
        Some(t) => Ok(t),
        None => st.first,
    }
}

impl JsonRead {
    /// Begins to read a reply.
    pub fn begin(raw: &str) -> (r: JsonRead)
        ensures
            r.deep_view() == json_begun(raw@, json_object(raw@)),
    {
        let first: Result<String, JsonError> = must_extract_json_obj(raw);
        JsonRead::begin_with(raw, first)
    }

    /// Begins to read a reply, given what was made of it.
    pub fn begin_with(raw: &str, first: Result<String, JsonError>) -> (r: JsonRead)
        ensures
            r.deep_view() == json_begun(raw@, object_result(first)),
    {
        let found: Option<String> = match &first {
            Ok(t) => Some(t.clone()),
            Err(_) => None,
        };
        JsonRead {
            raw: crate::chars::owned(raw),
            first,
            last: crate::chars::owned(raw),
            tries: 0,
            found,
        }
    }

    /// What the model is told to repair the reply, if that is to be done.
    pub fn ask(&self, template: &str) -> (r: Option<String>)
        ensures
            r.deep_view() == json_asked(self.deep_view(), template@),
    {
        if self.found.is_some() || self.tries >= 2 {
            return None;
        }
        let part: String = head_of(self.last.as_str(), 8000);
        let mut vars: Vec<(&str, &str)> = Vec::new();
        vars.push(("raw", part.as_str()));
        assert(vars_view(vars@) =~= seq![("raw"@, part@)]);
        Some(render_template(template, &vars))
    }

    /// Goes on with a repair.
    pub fn feed(&mut self, out: &str)
        ensures
            final(self).deep_view() == json_fed(old(self).deep_view(), out@, json_object(out@)),
    {
        let read: Result<String, JsonError> = must_extract_json_obj(out);
        self.feed_with(out, read);
    }

    /// Goes on with a repair, given what was made of it.
    pub fn feed_with(&mut self, out: &str, read: Result<String, JsonError>)
        ensures
            final(self).deep_view() == json_fed(old(self).deep_view(), out@, object_result(read)),
    {
        if self.found.is_some() || self.tries >= 2 {
            return;
        }
        self.last = crate::chars::owned(out);
        self.tries = self.tries + 1;
        self.found = match read {
            Ok(t) => Some(t),
            Err(_) => None,
        };
    }

    /// What came of the reading.
    pub fn outcome(self) -> (r: Result<String, JsonError>)
        ensures
            object_result(r) == json_outcome(self.deep_view()),
    {
        match self.found {
            Some(t) => Ok(t),
            None => self.first,
        }
    }
}

/// The first object that is read stands, in the reply or in one of two repairs; where none is, the
/// first error is told. The model is asked for a repair until there is one, but no more than twice.
pub proof fn law_first_object_stands(
    st: JsonReadV,
    raw: Seq<char>,
    out: Seq<char>,
    read: Result<Seq<char>, JsonErrorV>,
    template: Seq<char>,
)
    ensures
        read matches Ok(t) ==> json_outcome(json_begun(raw, read)) == Ok::<_, JsonErrorV>(t)
            && json_asked(json_begun(raw, read), template) is None,
        read is Err ==> json_outcome(json_begun(raw, read)) == read && json_asked(
            json_begun(raw, read),
            template,
        ) is Some,
        st.found matches Some(t) ==> json_outcome(json_fed(st, out, read)) == Ok::<_, JsonErrorV>(t),
        st.found is None && st.tries < 2 ==> (read matches Ok(t) ==> json_outcome(
            json_fed(st, out, read),
        ) == Ok::<_, JsonErrorV>(t)) && json_fed(st, out, read).tries == st.tries + 1,
        st.found is None && (read is Err || st.tries >= 2) ==> json_outcome(
            json_fed(st, out, read),
        ) == st.first,
        st.tries >= 2 ==> json_asked(st, template) is None,
        json_asked(st, template) is Some <==> st.found is None && st.tries < 2,
{
}

} // verus!
