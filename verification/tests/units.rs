use muggle_translator::docx::allocate::allocate_plain_counts;
use muggle_translator::docx::apply::{apply_node_text, apply_translation_unit, ApplyError};
use muggle_translator::docx::extract::extract_translation_units;
use muggle_translator::docx::project::{
    distribute_span_text_to_nodes, project_translation_to_spans, ProjectError,
};
use muggle_translator::docx::xml::{
    parse_xml_part, verify_structure_unchanged, write_xml_part, XmlEvent, XmlPart,
};
use muggle_translator::ir::{FormatSpan, TextNodeKind, TextNodeRef, TranslationUnit};

/// The same shares in floating point, the largest remainders first.
fn shares(total: usize, weights: &[usize]) -> Vec<usize> {
    let total_w: usize = weights.iter().sum();
    let raw: Vec<f64> =
        weights.iter().map(|w| (total as f64) * (*w as f64) / (total_w as f64)).collect();
    let mut out: Vec<usize> = raw.iter().map(|x| x.floor() as usize).collect();
    let mut frac: Vec<(f64, usize)> =
        raw.iter().enumerate().map(|(i, x)| (x - (out[i] as f64), i)).collect();
    frac.sort_by(|a, b| b.0.partial_cmp(&a.0).expect("finite"));
    let used: usize = out.iter().sum();
    for k in 0..total - used {
        out[frac[k % frac.len()].1] += 1;
    }
    out
}

#[test]
fn counts_are_shared_out_as_in_floating_point() {
    let mut seed: u64 = 1;
    let mut next = |n: u64| {
        seed = seed.wrapping_mul(6364136223846793005).wrapping_add(1442695040888963407);
        (seed >> 33) % n
    };
    for _ in 0..20000 {
        let n = 1 + next(6) as usize;
        let weights: Vec<u64> = (0..n).map(|_| 1 + next(40)).collect();
        let total = next(300);
        let plain: Vec<usize> = weights.iter().map(|w| *w as usize).collect();
        let want: Vec<u64> = if total == 0 {
            vec![0; n]
        } else {
            shares(total as usize, &plain).iter().map(|x| *x as u64).collect()
        };
        assert_eq!(allocate_plain_counts(total, &weights), want, "{total} over {weights:?}");
    }
    assert_eq!(allocate_plain_counts(5, &vec![]), Vec::<u64>::new());
    assert_eq!(allocate_plain_counts(7, &vec![0, 0, 0]), vec![2, 2, 3]);
    assert_eq!(allocate_plain_counts(10, &vec![1, 1, 1]), vec![4, 3, 3]);
}

fn part(xml: &str) -> XmlPart {
    parse_xml_part("word/document.xml", xml.as_bytes()).ok().expect("parse")
}

const TWO_RUNS: &str = "<w:document><w:body><w:p><w:pPr><w:pStyle w:val=\"Body\"/></w:pPr>\
<w:r><w:rPr><w:b></w:b></w:rPr><w:t>Hello</w:t></w:r>\
<w:r><w:tab/><w:t>big world</w:t></w:r></w:p>\
<w:p><w:r><w:br/></w:r></w:p></w:body></w:document>";

fn units_of(p: &XmlPart) -> Vec<TranslationUnit> {
    extract_translation_units(p, 7).ok().expect("units").0
}

#[test]
fn paragraphs_become_units_with_spans() {
    let p = part(TWO_RUNS);
    let (units, next) = extract_translation_units(&p, 7).ok().expect("units");
    assert_eq!(units.len(), 1);
    assert_eq!(next, 8);
    let u = &units[0];
    assert_eq!(u.tu_id, 7);
    assert_eq!(u.part_name, "word/document.xml");
    assert_eq!(u.scope_key, "word/document.xml#w:p@2");
    assert_eq!(u.para_style.as_deref(), Some("Body"));
    assert_eq!(u.source_surface, "Hello<<MT_TAB>>big world");
    assert_eq!(u.atoms.len(), 3);
    assert_eq!(u.spans.len(), 2);
    assert_eq!(u.spans[0].source_text, "Hello");
    assert!(u.spans[0].style_sig.starts_with("b=1|i=0|u=|strike=0|"));
    assert_eq!(u.spans[1].style_sig, "w:rPr()");
    assert_eq!(u.spans[1].node_refs[0].kind, TextNodeKind::Wt);
}

#[test]
fn a_list_level_is_a_unit_of_its_own() {
    let p = part("<w:numbering><w:lvlText w:val=\"Article %1\"/></w:numbering>");
    let units = units_of(&p);
    assert_eq!(units.len(), 1);
    assert_eq!(units[0].source_surface, "Article %1");
    assert_eq!(units[0].spans[0].node_refs[0].attr_name.as_deref(), Some("w:val"));
}

#[test]
fn a_unit_is_put_back_into_its_part() {
    let p = part(TWO_RUNS);
    let mut u = units_of(&p).remove(0);
    u.frozen_surface = u.source_surface.clone();
    let mut parts = vec![p];
    assert!(apply_translation_unit(&mut parts, &u, "Bonjour<<MT_TAB>> le monde").is_ok());
    let out = String::from_utf8(write_xml_part(&parts[0]).ok().expect("write")).expect("utf8");
    assert_eq!(
        out,
        TWO_RUNS
            .replace("<w:t>Hello</w:t>", "<w:t>Bonjour</w:t>")
            .replace("<w:t>big world</w:t>", "<w:t xml:space=\"preserve\"> le monde</w:t>")
    );
    assert_eq!(
        apply_translation_unit(&mut parts, &u, "no tab").err(),
        Some(ApplyError::Project(ProjectError::ControlSequence))
    );
    let mut none: Vec<XmlPart> = Vec::new();
    assert_eq!(
        apply_translation_unit(&mut none, &u, "a<<MT_TAB>>b").err(),
        Some(ApplyError::MissingPart)
    );
}

fn node(text: &str) -> TextNodeRef {
    TextNodeRef {
        part_name: "p".to_string(),
        kind: TextNodeKind::Wt,
        elem_event_index: 0,
        text_event_index: Some(1),
        attr_name: None,
        original_text: text.to_string(),
    }
}

fn span(text: &str) -> FormatSpan {
    FormatSpan {
        style_sig: String::new(),
        node_refs: vec![node(text)],
        source_text: text.to_string(),
    }
}

fn projected(spans: &Vec<FormatSpan>, src: &str, tgt: &str) -> Result<Vec<String>, ProjectError> {
    let map = vec![("<<MT_NT:0001>>".to_string(), "X1".to_string())];
    project_translation_to_spans(spans, src, tgt, &map)
        .map(|v| v.iter().map(|s| s.text.clone()).collect())
}

#[test]
fn a_translation_is_spread_over_the_spans() {
    let spans = vec![span("abc"), span("defghi")];
    assert_eq!(projected(&spans, "abcdefghi", "123456").expect("spans"), vec!["12", "3456"]);
    assert_eq!(
        projected(&spans, "abcdefghi", "<<MT_NT:0001>>12").expect("spans"),
        vec!["X11", "2"]
    );
    let two = vec![span("ab"), span("cd")];
    assert_eq!(
        projected(&two, "ab<<MT_BR>>cd", "xyz<<MT_BR>>").expect("spans"),
        vec!["xyz", ""]
    );
}

#[test]
fn translations_that_do_not_fit_the_spans() {
    let spans = vec![span("ab"), span("cd")];
    assert_eq!(
        projected(&spans, "ab<<MT_BR>>cd", "xy").err(),
        Some(ProjectError::ControlSequence)
    );
    assert_eq!(
        projected(&vec![], "", "x").err(),
        Some(ProjectError::EmptyBlock)
    );
    assert_eq!(projected(&spans, "ab", "x").err(), Some(ProjectError::Coverage));
    assert_eq!(projected(&vec![span("ab"), span(" ")], "ab", "x").expect("spans"), vec!["x", ""]);
}

#[test]
fn words_are_not_split_between_nodes() {
    let mut s = span("");
    s.node_refs = vec![node("aaaaa"), node("bbbbb")];
    let texts = |t: &str| -> Vec<String> {
        distribute_span_text_to_nodes(&s, t).iter().map(|x| x.1.clone()).collect()
    };
    assert_eq!(texts("hello world"), vec!["hello ", "world"]);
    assert_eq!(texts("\u{4e00}\u{4e01}\u{4e02}\u{4e03}"), vec!["\u{4e00}\u{4e01}", "\u{4e02}\u{4e03}"]);
    assert_eq!(texts(""), vec!["", ""]);
    let mut one = span("x");
    assert_eq!(distribute_span_text_to_nodes(&one, "abc")[0].1, "abc");
    one.node_refs.clear();
    assert_eq!(distribute_span_text_to_nodes(&one, "abc").len(), 0);
}

#[test]
fn a_node_takes_its_text() {
    let mut p = part("<w:t>x</w:t>");
    assert!(apply_node_text(&mut p, &node("x"), "y ").is_ok());
    let out = String::from_utf8(write_xml_part(&p).ok().expect("write")).expect("utf8");
    assert_eq!(out, "<w:t xml:space=\"preserve\">y </w:t>");
    let mut n = node("x");
    n.text_event_index = None;
    assert_eq!(apply_node_text(&mut p, &n, "y").err(), Some(ApplyError::NoTextIndex));
    n.text_event_index = Some(0);
    assert_eq!(apply_node_text(&mut p, &n, "y").err(), Some(ApplyError::NotText));
    n.text_event_index = Some(1);
    n.elem_event_index = 99;
    assert_eq!(apply_node_text(&mut p, &n, " y").err(), Some(ApplyError::ElemIndex));
    n.kind = TextNodeKind::Attr;
    assert_eq!(apply_node_text(&mut p, &n, "y").err(), Some(ApplyError::NoAttrName));
    n.attr_name = Some("a".to_string());
    assert_eq!(apply_node_text(&mut p, &n, "y").err(), Some(ApplyError::ElemIndex));
    n.elem_event_index = 0;
    assert!(apply_node_text(&mut p, &n, "v").is_ok());
    let out = String::from_utf8(write_xml_part(&p).ok().expect("write")).expect("utf8");
    assert_eq!(out, "<w:t xml:space=\"preserve\" a=\"v\"> y</w:t>");
}

#[test]
fn nodes_of_units_point_at_their_texts() {
    let p = part(TWO_RUNS);
    let u = units_of(&p).remove(0);
    let mut texts = Vec::new();
    for s in &u.spans {
        for n in &s.node_refs {
            let at = n.text_event_index.expect("text");
            match (&p.events[n.elem_event_index], &p.events[at]) {
                (XmlEvent::Start { name, .. }, XmlEvent::Text { text }) => {
                    assert_eq!(name, "w:t");
                    assert_eq!(text, &n.original_text);
                }
                _ => panic!("no text"),
            }
            texts.push(n.original_text.clone());
        }
    }
    assert_eq!(texts, vec!["Hello", "big world"]);
}

#[test]
fn a_control_marker_ends_a_span() {
    let p = part("<w:p><w:r><w:t>a</w:t><w:t>b</w:t><w:br/><w:t>c</w:t></w:r></w:p>");
    let u = units_of(&p).remove(0);
    let texts: Vec<&str> = u.spans.iter().map(|s| s.source_text.as_str()).collect();
    assert_eq!(texts, vec!["ab", "c"]);
    assert_eq!(u.spans[0].style_sig, u.spans[1].style_sig);
}

#[test]
fn words_of_twenty_four_characters_stay_whole() {
    let mut s = span("");
    s.node_refs = vec![node("aaaaaaaaaaaa"), node("bbbbbbbbbbbb")];
    let texts = |t: &str| -> Vec<String> {
        distribute_span_text_to_nodes(&s, t).iter().map(|x| x.1.clone()).collect()
    };
    let word = "abcdefghijklmnopqrstuvwx";
    assert_eq!(texts(word), vec!["", word]);
    assert_eq!(texts("abcdefghijklmnopqrstuvwxyz"), vec!["abcdefghijklm", "nopqrstuvwxyz"]);
}

#[test]
fn any_number_of_texts_keeps_the_structure() {
    let mut p = part(TWO_RUNS);
    let nodes: Vec<TextNodeRef> =
        units_of(&p).iter().flat_map(|u| u.spans.clone()).flat_map(|s| s.node_refs).collect();
    assert!(nodes.len() > 1);
    for t in [" one", "two ", "", "<three>"] {
        for n in nodes.iter().rev() {
            assert!(apply_node_text(&mut p, n, t).is_ok());
            assert!(verify_structure_unchanged(&p).is_ok());
        }
    }
}
