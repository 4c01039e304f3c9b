use muggle_translator::docx::xml::{
    full_hash, parse_xml_part, verify_structure_unchanged, write_xml_part, XmlError, XmlEvent, XmlPart,
};

fn events_of(xml: &[u8]) -> Vec<XmlEvent> {
    parse_xml_part("test.xml", xml).ok().expect("parse xml").events
}

fn rewritten(xml: &str) -> String {
    let part = parse_xml_part("test.xml", xml.as_bytes()).ok().expect("parse xml");
    String::from_utf8(write_xml_part(&part).ok().expect("write xml")).expect("utf8")
}

#[test]
fn write_preserves_attr_entity_refs() {
    let xml = br#"<?xml version="1.0" encoding="UTF-8"?><root xmlns:o="urn:test" o:gfxdata="A&#xD;&#xA;B"/>"#;
    let part = parse_xml_part("test.xml", xml).ok().expect("parse xml");
    let out = write_xml_part(&part).ok().expect("write xml");
    let s = String::from_utf8(out).expect("utf8");

    assert!(s.contains(r#"o:gfxdata="A&#xD;&#xA;B""#));
    assert!(!s.contains(r#"o:gfxdata="A&amp;#xD;"#));
}

#[test]
fn every_kind_of_event_is_read_and_written() {
    let xml = "<?xml version=\"1.0\" encoding=\"UTF-8\" standalone=\"yes\"?><a x=\"1\"><!--c--><b/><?pi d?>t &lt; u<![CDATA[v<w]]></a>";
    assert_eq!(rewritten(xml), xml);
    let events = events_of(xml.as_bytes());
    assert_eq!(events.len(), 8);
    assert!(matches!(&events[0], XmlEvent::Decl { version, encoding: Some(e), standalone: Some(s) }
        if version == "1.0" && e == "UTF-8" && s == "yes"));
    assert!(matches!(&events[1], XmlEvent::Start { name, attrs }
        if name == "a" && attrs.len() == 1 && attrs[0].0 == "x" && attrs[0].1 == "1"));
    assert!(matches!(&events[2], XmlEvent::Comment { text } if text == "c"));
    assert!(matches!(&events[3], XmlEvent::Empty { name, attrs } if name == "b" && attrs.is_empty()));
    assert!(matches!(&events[4], XmlEvent::PI { content } if content == "pi d"));
    assert!(matches!(&events[5], XmlEvent::Text { text } if text == "t < u"));
    assert!(matches!(&events[6], XmlEvent::CData { text } if text == "v<w"));
    assert!(matches!(&events[7], XmlEvent::End { name } if name == "a"));
}

#[test]
fn text_is_unescaped_when_read_and_escaped_when_written() {
    let events = events_of("<a>1 &amp; 2 &gt; 3 \u{4e2d}</a>".as_bytes());
    assert!(matches!(&events[1], XmlEvent::Text { text } if text == "1 & 2 > 3 \u{4e2d}"));
    assert_eq!(rewritten("<a>1 &amp; 2 &gt; 3</a>"), "<a>1 &amp; 2 &gt; 3</a>");
    assert_eq!(rewritten("<a>\"quoted\" 'too'</a>"), "<a>\"quoted\" 'too'</a>");
}

#[test]
fn a_document_type_is_read() {
    let events = events_of(b"<!DOCTYPE note><note/>");
    assert!(matches!(&events[0], XmlEvent::DocType { text } if text == "note"));
    assert!(matches!(&events[1], XmlEvent::Empty { name, .. } if name == "note"));
}

#[test]
fn malformed_xml_is_an_error() {
    assert!(matches!(parse_xml_part("p", b"<a></b>"), Err(XmlError::Read(_))));
    assert!(matches!(parse_xml_part("p", b"<a x=1></a>"), Err(XmlError::Attr(_))));
    assert!(matches!(parse_xml_part("p", b"<a>&nope;</a>"), Err(XmlError::Unescape(_))));
    assert!(matches!(
        parse_xml_part("p", b"<?xml encoding=\"UTF-8\"?><a/>"),
        Err(XmlError::DeclVersion(_))
    ));
}

#[test]
fn the_structure_hash_ignores_texts_only() {
    let mut part =
        parse_xml_part("p", b"<w:r><w:t>one</w:t></w:r>").ok().expect("parse xml");
    assert!(verify_structure_unchanged(&part).is_ok());
    part.events[2] = XmlEvent::Text { text: "two".to_string() };
    assert!(verify_structure_unchanged(&part).is_ok());
    part.events[1] = XmlEvent::Start { name: "w:delText".to_string(), attrs: vec![] };
    let fault = verify_structure_unchanged(&part).err().expect("changed");
    assert_eq!(fault.name, "p");
    assert_eq!(fault.baseline, part.baseline_hash);
    assert_ne!(fault.baseline, fault.current);
}

#[test]
fn the_full_hash_sees_texts_and_not_the_order_of_attributes() {
    let a = events_of(b"<w:p a=\"1\" b=\"2\"><w:t>x</w:t></w:p>");
    let b = events_of(b"<w:p b=\"2\" a=\"1\"><w:t>x</w:t></w:p>");
    let c = events_of(b"<w:p a=\"1\" b=\"2\"><w:t>y</w:t></w:p>");
    assert_eq!(full_hash(&a), full_hash(&b));
    assert_ne!(full_hash(&a), full_hash(&c));
    assert_eq!(full_hash(&a).len(), 64);
}

#[test]
fn a_document_type_and_quoted_quotes_are_written_as_they_were() {
    assert_eq!(rewritten("<!DOCTYPE note><note/>"), "<!DOCTYPE note><note/>");
    assert_eq!(
        rewritten("<!DOCTYPE a [<!ELEMENT a (#PCDATA)>]><a/>"),
        "<!DOCTYPE a [<!ELEMENT a (#PCDATA)>]><a/>"
    );
    assert_eq!(rewritten("<a x='say \"hi\"' y=\"it's\"/>"), "<a x='say \"hi\"' y=\"it's\"/>");
}

fn start(name: &str, attrs: &[(&str, &str)]) -> XmlEvent {
    let attrs = attrs.iter().map(|(k, v)| (k.to_string(), v.to_string())).collect();
    XmlEvent::Start { name: name.to_string(), attrs }
}

fn empty(name: &str, attrs: &[(&str, &str)]) -> XmlEvent {
    let attrs = attrs.iter().map(|(k, v)| (k.to_string(), v.to_string())).collect();
    XmlEvent::Empty { name: name.to_string(), attrs }
}

fn end(name: &str) -> XmlEvent {
    XmlEvent::End { name: name.to_string() }
}

fn text(t: &str) -> XmlEvent {
    XmlEvent::Text { text: t.to_string() }
}

fn cdata(t: &str) -> XmlEvent {
    XmlEvent::CData { text: t.to_string() }
}

fn comment(t: &str) -> XmlEvent {
    XmlEvent::Comment { text: t.to_string() }
}

fn instruction(t: &str) -> XmlEvent {
    XmlEvent::PI { content: t.to_string() }
}

fn doctype(t: &str) -> XmlEvent {
    XmlEvent::DocType { text: t.to_string() }
}

fn decl(v: &str, e: Option<&str>, s: Option<&str>) -> XmlEvent {
    XmlEvent::Decl {
        version: v.to_string(),
        encoding: e.map(|x| x.to_string()),
        standalone: s.map(|x| x.to_string()),
    }
}

/// What is read of the events once they are written.
fn read_again(events: Vec<XmlEvent>) -> Result<Vec<XmlEvent>, XmlError> {
    let part = XmlPart { name: "p".to_string(), events, baseline_hash: String::new() };
    let bytes = write_xml_part(&part).ok().expect("write xml");
    parse_xml_part("p", &bytes).map(|p| p.events)
}

#[test]
fn written_events_are_read_back() {
    let cases: Vec<Vec<XmlEvent>> = vec![
        vec![],
        vec![text("only text; & no \u{feff}tag <")],
        vec![text("a"), comment(""), text("\r\n\t "), cdata(""), text("]]>")],
        vec![decl("1.0", None, None), doctype("a"), empty("a", &[])],
        vec![decl("1.0", Some("UTF-8"), Some("yes")), text("\n"), start("a", &[]), end("a")],
        vec![decl("it's > 1?", Some(""), None), decl("", None, Some("?"))],
        vec![decl("1", Some("utf-16"), None), empty("\u{e9}", &[("\u{4e2d}", "\u{1f600}")])],
        vec![doctype("note [<!ELEMENT a (b)> <!-- x -->]"), doctype("[<>]")],
        vec![comment(">"), comment("->"), comment("-"), comment("--"), comment("--x"), comment("a-")],
        vec![comment("x->y"), comment("<a>"), comment("- >"), comment("]]>"), comment("?>")],
        vec![cdata("]"), cdata("]]"), cdata(">"), cdata("]>"), cdata("]] >"), cdata("<![CDATA[")],
        vec![cdata("-->"), cdata("&amp;"), cdata("\u{feff}")],
        vec![instruction(""), instruction("x"), instruction("xmlx y"), instruction("XML "), instruction("?")],
        vec![instruction("xm"), instruction(" xml "), instruction("a>b"), instruction("a ? b"), instruction("<")],
        vec![start("a", &[("b", ">"), ("c", "/"), ("d", "a=\"b\""), ("e", "it's")]), empty("f", &[("g", "/>")])],
        vec![start("a", &[("b", "'"), ("c", "\""), ("d", ""), ("e", " < & \n")]), text("t"), end("a")],
        vec![start("a", &[]), start("a", &[]), end("a"), text("x"), end("a"), empty("a", &[]), start("b", &[])],
        vec![start("a<b", &[("c<&;", "d")]), end("a<b"), start("a!?", &[]), end("a!?")],
        vec![empty("a", &[]), text("\u{feff}"), empty("a", &[])],
        vec![start("w:lvlText", &[("w:val", "%1.")]), text("&lt; stays"), end("w:lvlText")],
    ];
    for events in cases {
        let wanted = format!("{:?}", events);
        let back = read_again(events).ok().expect("read again");
        assert_eq!(format!("{:?}", back), wanted);
    }
}

#[test]
fn events_that_a_reader_does_not_give_are_not_read_back() {
    assert!(read_again(vec![empty("a", &[("k", "1"), ("k", "2")])]).is_err());
    assert!(read_again(vec![start("a", &[]), end("b")]).is_err());
    assert!(read_again(vec![end("a")]).is_err());
    assert!(read_again(vec![instruction(">")]).is_err());
    let read = |events: Vec<XmlEvent>| format!("{:?}", read_again(events).ok().expect("read"));
    assert_eq!(read(vec![text("a"), text("b")]), format!("{:?}", vec![text("ab")]));
    assert_eq!(read(vec![text("")]), "[]");
    assert_eq!(read(vec![text("\u{feff}a")]), format!("{:?}", vec![text("a")]));
    assert_eq!(read(vec![start("a/", &[])]), format!("{:?}", vec![empty("a", &[])]));
    assert_eq!(read(vec![comment("x-->y")]), format!("{:?}", vec![comment("x"), text("y-->")]));
    assert_eq!(read(vec![instruction("xml version='1'")]), format!("{:?}", vec![decl("1", None, None)]));
}

#[test]
fn what_is_read_is_read_back_after_it_was_written() {
    let cases = [
        "\u{feff}<?xml version='1.0'?>\n<!doctype x><a  b = 'c' d=\"e\" ><f /></a >",
        "<a x='\"'><![CDATA[x]]]><!-->--><?p?>&#65;&lt;&quot;</a> tail",
        "< a='b'/><>",
        "<a><b>",
        "",
    ];
    for xml in cases {
        let part = parse_xml_part("p", xml.as_bytes()).ok().expect("parse xml");
        let bytes = write_xml_part(&part).ok().expect("write xml");
        let again = parse_xml_part("p", &bytes).ok().expect("parse again");
        assert_eq!(format!("{:?}", again.events), format!("{:?}", part.events));
        assert_eq!(again.baseline_hash, part.baseline_hash);
        assert_eq!(write_xml_part(&again).ok().expect("write xml"), bytes);
    }
}

/// Numbers that look random, and are the same each time.
struct Numbers(u64);

impl Numbers {
    fn below(&mut self, n: usize) -> usize {
        self.0 = self.0.wrapping_mul(6364136223846793005).wrapping_add(1442695040888963407);
        ((self.0 >> 33) as usize) % n
    }

    fn text(&mut self, alphabet: &[&str], most: usize) -> String {
        let n = self.below(most + 1);
        (0..n).map(|_| alphabet[self.below(alphabet.len())]).collect()
    }
}

fn is_blank_char(c: char) -> bool {
    matches!(c, ' ' | '\r' | '\n' | '\t')
}

fn nested(s: &str) -> bool {
    let mut depth = 0usize;
    for c in s.chars() {
        if c == '<' {
            depth += 1;
        } else if c == '>' {
            if depth == 0 {
                return false;
            }
            depth -= 1;
        }
    }
    depth == 0
}

fn declares(s: &str) -> bool {
    s == "xml" || (s.starts_with("xml") && s[3..].starts_with(is_blank_char))
}

fn event_shaped(ev: &XmlEvent) -> bool {
    match ev {
        XmlEvent::Decl { version, encoding, standalone } => [Some(version), encoding.as_ref(), standalone.as_ref()]
            .iter()
            .all(|f| f.map_or(true, |s| !s.contains("?>"))),
        XmlEvent::Start { attrs, .. } | XmlEvent::Empty { attrs, .. } => {
            attrs.iter().all(|(_, v)| !(v.contains('"') && v.contains('\'')))
        }
        XmlEvent::End { .. } => true,
        XmlEvent::Text { text } => !text.is_empty(),
        XmlEvent::CData { text } => !text.contains("]]>"),
        XmlEvent::Comment { text } => !text.contains("-->"),
        XmlEvent::PI { content } => {
            !content.contains("?>") && !content.starts_with('>') && !declares(content)
        }
        XmlEvent::DocType { text } => !text.is_empty() && !text.starts_with(is_blank_char) && nested(text),
    }
}

fn shaped(events: &[XmlEvent]) -> bool {
    let mut open: Vec<&String> = Vec::new();
    for (i, ev) in events.iter().enumerate() {
        if !event_shaped(ev) {
            return false;
        }
        match ev {
            XmlEvent::Start { name, .. } => open.push(name),
            XmlEvent::End { name } => {
                if open.pop() != Some(name) {
                    return false;
                }
            }
            XmlEvent::Text { .. } if i > 0 && matches!(events[i - 1], XmlEvent::Text { .. }) => return false,
            _ => {}
        }
    }
    true
}

fn plain_name(n: &str) -> bool {
    !n.is_empty()
        && !n.starts_with(['!', '?'])
        && !n.contains(|c: char| is_blank_char(c) || matches!(c, '"' | '\'' | '>' | '/' | '='))
}

fn plain(events: &[XmlEvent]) -> bool {
    let first = match events.first() {
        Some(XmlEvent::Text { text }) => !text.starts_with('\u{feff}'),
        _ => true,
    };
    first
        && events.iter().all(|ev| match ev {
            XmlEvent::Start { name, attrs } | XmlEvent::Empty { name, attrs } => {
                plain_name(name)
                    && attrs.iter().all(|(k, _)| plain_name(k))
                    && (0..attrs.len()).all(|i| attrs[..i].iter().all(|(k, _)| *k != attrs[i].0))
            }
            XmlEvent::Decl { version, encoding, standalone } => [Some(version), encoding.as_ref(), standalone.as_ref()]
                .iter()
                .all(|f| f.map_or(true, |s| !s.contains('"'))),
            _ => true,
        })
}

const MARKS: [&str; 24] = [
    "<", ">", "!", "-", "--", "[", "]", "]]", "?", "/", "\"", "'", "=", " ", "\n", "&", ";", "a", "b",
    "xml", "x", "\u{feff}", "\u{e9}", "%",
];

#[test]
fn any_shaped_and_plain_events_are_read_back() {
    let mut r = Numbers(7);
    let mut seen = 0;
    for _ in 0..60000 {
        let mut events: Vec<XmlEvent> = Vec::new();
        let mut open: Vec<String> = Vec::new();
        for _ in 0..r.below(5) {
            let t = r.text(&MARKS, 5);
            let attrs: Vec<(String, String)> =
                (0..r.below(3)).map(|_| (r.text(&MARKS, 2), r.text(&MARKS, 4))).collect();
            events.push(match r.below(9) {
                0 => {
                    let name = r.text(&MARKS, 2);
                    open.push(name.clone());
                    XmlEvent::Start { name, attrs }
                }
                1 => XmlEvent::Empty { name: r.text(&MARKS, 2), attrs },
                2 => XmlEvent::End { name: open.pop().unwrap_or(t) },
                3 => XmlEvent::Text { text: t },
                4 => XmlEvent::CData { text: t },
                5 => XmlEvent::Comment { text: t },
                6 => XmlEvent::PI { content: t },
                7 => XmlEvent::DocType { text: t },
                _ => {
                    let e = r.text(&MARKS, 3);
                    decl(&t, if r.below(2) == 0 { Some(&e) } else { None }, if r.below(2) == 0 { Some("no") } else { None })
                }
            });
        }
        if shaped(&events) && plain(&events) {
            seen += 1;
            let wanted = format!("{:?}", events);
            let back = read_again(events);
            assert_eq!(format!("{:?}", back.ok()), format!("Some({wanted})"));
        }
    }
    assert!(seen > 5000);
}

#[test]
fn events_have_their_shape_whatever_is_read() {
    let parts = [
        "<", ">", "<a", "<b ", "</a>", "</b>", "</", "/>", " ", "x=", "y='", "z=\"", "\"", "'", "<!--", "-->", "--",
        "<![CDATA[", "]]>", "]", "<?", "?>", "xml", " version=", "'1'", " encoding=", "<!DOCTYPE", "<!doctype ", "t",
        "&amp;", "&#65;", "\n", "\u{feff}", "/", "=", "!",
    ];
    let mut r = Numbers(11);
    let mut seen = 0;
    for _ in 0..200000 {
        let xml = r.text(&parts, 9);
        if let Ok(part) = parse_xml_part("p", xml.as_bytes()) {
            seen += 1;
            assert!(shaped(&part.events));
            if plain(&part.events) {
                let wanted = format!("{:?}", part.events);
                assert_eq!(format!("{:?}", read_again(part.events).ok()), format!("Some({wanted})"));
            }
        }
    }
    assert!(seen > 5000);
}
