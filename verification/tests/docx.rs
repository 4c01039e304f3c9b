use muggle_translator::docx::decompose::{
    check_merge_inputs, default_outputs_for, extract_mask_json_and_offsets, extract_slot_texts,
    hash_file_prefix, merge_mask_json_and_offsets, output_file_name, verify_docx_roundtrip,
    MaskBlobRef, MaskEntryData, MaskedDocx, SlotKind,
};
use muggle_translator::docx::error::{DataFault, Difference, DocxError, SlotFault};
use muggle_translator::docx::filter::{
    filter_docx_with_rules, filter_xml_part, merge_adjacent_text_runs_in_paragraphs, DocxFilterRules,
};
use muggle_translator::docx::package::{is_dir_entry, is_xml_name, DocxEntry, DocxPackage};
use muggle_translator::docx::pure_text::{
    default_text_output_for, extract_pure_text, ParaContainer, PureTextJson,
};
use muggle_translator::docx::roundtrip::{rejoin_docx, rewrite_docx};
use muggle_translator::docx::structure::{
    build_structure, default_structure_output_for, extract_structure_json, StructureNode,
    StructureNodeKind,
};
use muggle_translator::docx::xml::parse_xml_part;
use muggle_translator::pipeline::docmap::build_para_slot_units;
use std::io::Read;

const DATE: (u16, u16) = (0x5821, 0x6000);

fn entry(name: &str, data: &[u8]) -> DocxEntry {
    DocxEntry {
        name: name.to_string(),
        data: data.to_vec(),
        compression: 8,
        last_modified: DATE,
        unix_mode: None,
        is_dir: name.ends_with('/'),
    }
}

fn packed(entries: Vec<DocxEntry>) -> Vec<u8> {
    DocxPackage { entries }.write_with_replacements(&vec![]).expect("pack")
}

const BODY: &str = "<?xml version=\"1.0\" encoding=\"UTF-8\"?><w:document><w:body>\
<w:p><w:pPr><w:pStyle w:val=\"Heading1\"/></w:pPr><w:r><w:t>Title</w:t></w:r></w:p>\
<w:p><w:pPr><w:numPr><w:ilvl w:val=\"0\"/><w:numId w:val=\"5\"/></w:numPr></w:pPr><w:r><w:t>Item</w:t></w:r></w:p>\
<w:p><w:pPr><w:numPr><w:ilvl w:val=\"1\"/><w:numId w:val=\"5\"/></w:numPr></w:pPr><w:r><w:t>Sub</w:t></w:r></w:p>\
<w:p><w:r><w:t xml:space=\"preserve\">Hello </w:t></w:r><w:r><w:tab/><w:t>A &amp; B</w:t></w:r></w:p>\
<w:tbl><w:tr><w:tc><w:p><w:r><w:t>Cell</w:t></w:r></w:p></w:tc></w:tr></w:tbl>\
<w:p><w:r><w:t> </w:t></w:r></w:p>\
<w:sectPr><w:headerReference w:type=\"default\" r:id=\"rId1\"/></w:sectPr>\
</w:body></w:document>";

const RELS: &str = "<Relationships><Relationship Id=\"rId1\" Target=\"header1.xml\"/></Relationships>";
const HEADER: &str = "<w:hdr><w:p><w:r><w:t>Head</w:t></w:r></w:p></w:hdr>";
const NUMBERING: &str = "<w:numbering><w:lvl><w:lvlText w:val=\"%1.\"/></w:lvl></w:numbering>";

fn sample() -> Vec<u8> {
    packed(vec![
        entry("word/", b""),
        entry("word/document.xml", BODY.as_bytes()),
        entry("word/_rels/document.xml.rels", RELS.as_bytes()),
        entry("word/header1.xml", HEADER.as_bytes()),
        entry("word/numbering.xml", NUMBERING.as_bytes()),
        entry("word/media/image1.png", &[0u8, 1, 2, 250]),
        entry("word/empty.xml", b""),
    ])
}

fn part_text(docx: &[u8], name: &str) -> String {
    let pkg = DocxPackage::read(docx).ok().expect("read");
    let e = pkg.entries.iter().find(|e| e.name == name).expect("entry");
    String::from_utf8(e.data.clone()).expect("utf8")
}

#[test]
fn what_is_packed_is_read_back() {
    let docx = sample();
    let pkg = DocxPackage::read(&docx).ok().expect("read");
    let names: Vec<&str> = pkg.entries.iter().map(|e| e.name.as_str()).collect();
    assert_eq!(
        names,
        vec![
            "word/",
            "word/document.xml",
            "word/_rels/document.xml.rels",
            "word/header1.xml",
            "word/numbering.xml",
            "word/media/image1.png",
            "word/empty.xml"
        ]
    );
    assert_eq!(pkg.entries[1].data, BODY.as_bytes());
    assert_eq!(pkg.entries[1].compression, 8);
    assert_eq!(pkg.entries[1].last_modified, DATE);
    assert_eq!(pkg.entries[5].data, vec![0u8, 1, 2, 250]);
    assert!(pkg.entries[0].is_dir && is_dir_entry(&pkg.entries[0]) && !is_dir_entry(&pkg.entries[1]));
    let xml: Vec<&str> = pkg.xml_entries().iter().map(|e| e.name.as_str()).collect();
    assert_eq!(
        xml,
        vec!["word/document.xml", "word/header1.xml", "word/numbering.xml", "word/empty.xml"]
    );
    assert!(is_xml_name("A.XML") && !is_xml_name("a.rels"));
}

#[test]
fn the_archive_is_an_ordinary_zip() {
    let docx = sample();
    let mut zip = zip::ZipArchive::new(std::io::Cursor::new(docx)).expect("zip");
    let mut text = String::new();
    zip.by_name("word/header1.xml").expect("entry").read_to_string(&mut text).expect("read");
    assert_eq!(text, HEADER);
}

#[test]
fn replacements_take_the_place_of_data() {
    let pkg = DocxPackage { entries: vec![entry("a", b"1"), entry("b", b"2")] };
    let out = pkg.write_with_replacements(&vec![("b".to_string(), b"new".to_vec())]).expect("pack");
    let back = DocxPackage::read(&out).ok().expect("read");
    assert_eq!(back.entries[0].data, b"1");
    assert_eq!(back.entries[1].data, b"new");
}

#[test]
fn packages_that_cannot_be_read_or_written() {
    assert!(matches!(DocxPackage::read(b"no archive"), Err(DocxError::Unpack(_))));
    let twice = DocxPackage { entries: vec![entry("a", b"1"), entry("a", b"2")] };
    assert!(matches!(twice.write_with_replacements(&vec![]), Err(DocxError::Pack(_))));
    let long = "x".repeat(65536);
    let pkg = DocxPackage { entries: vec![entry(&long, b"1")] };
    assert!(matches!(pkg.write_with_replacements(&vec![]),
        Err(DocxError::LongName { entry }) if entry == long));
    let fits = "x".repeat(65535);
    let pkg = DocxPackage { entries: vec![entry(&fits, b"1")] };
    assert!(pkg.write_with_replacements(&vec![]).is_ok());
}

fn masked() -> (Vec<u8>, MaskedDocx, PureTextJson) {
    let docx = sample();
    let m = extract_mask_json_and_offsets(&docx, "x.mask.blobs.bin").ok().expect("mask");
    let text = extract_pure_text(&docx).ok().expect("text");
    (docx, m, text)
}

#[test]
fn masking_takes_out_every_text() {
    let (docx, m, text) = masked();
    let prefix = hash_file_prefix(&docx);
    assert_eq!(prefix.len(), 10);
    assert_eq!(m.mask.placeholder_prefix, prefix);
    assert_eq!(m.mask.version, 2);
    assert_eq!(m.mask.blobs_file.as_deref(), Some("x.mask.blobs.bin"));
    assert_eq!(m.offsets.version, 1);
    assert_eq!(m.offsets.slots.len(), 9);
    assert_eq!(m.offsets.slots[8].kind, SlotKind::Attr);
    assert_eq!(m.offsets.slots[8].attr_name.as_deref(), Some("w:val"));
    assert_eq!(m.offsets.slots[8].part_name, "word/numbering.xml");
    assert_eq!(
        text.slot_texts,
        vec!["Title", "Item", "Sub", "Hello ", "A & B", "Cell", " ", "Head", "%1."]
    );
    let (p, texts) = extract_slot_texts(&docx).ok().expect("slots");
    assert_eq!(p, prefix);
    assert_eq!(texts, text.slot_texts);
    assert!(matches!(m.mask.entries[0].data, MaskEntryData::Empty));
    if let MaskEntryData::External(b) = &m.mask.entries[1].data {
        let xml = String::from_utf8(
            m.blobs[b.offset as usize..(b.offset + b.length) as usize].to_vec(),
        )
        .expect("utf8");
        assert!(xml.contains(&format!("<w:t>__MT_MASK_{prefix}_00000001__</w:t>")));
        assert!(!xml.contains("Title") && !xml.contains("A &amp; B"));
    } else {
        panic!("document.xml is not among the blobs");
    }
}

#[test]
fn filling_with_the_same_texts_restores_the_document() {
    let (docx, m, text) = masked();
    let back = merge_mask_json_and_offsets(&m.mask, &m.offsets, &text, Some(&m.blobs)).ok().expect("merge");
    assert!(verify_docx_roundtrip(&docx, &back).is_ok());
    assert_eq!(part_text(&back, "word/document.xml"), BODY);
    assert_eq!(part_text(&back, "word/numbering.xml"), NUMBERING);
}

#[test]
fn filling_with_other_texts_changes_them_only() {
    let (docx, m, mut text) = masked();
    text.slot_texts[0] = "<Titel>".to_string();
    text.slot_texts[8] = "(%1)".to_string();
    let out = merge_mask_json_and_offsets(&m.mask, &m.offsets, &text, Some(&m.blobs)).ok().expect("merge");
    assert_eq!(
        part_text(&out, "word/document.xml"),
        BODY.replace("<w:t>Title</w:t>", "<w:t>&lt;Titel&gt;</w:t>")
    );
    assert_eq!(part_text(&out, "word/numbering.xml"), NUMBERING.replace("%1.", "(%1)"));
    assert_eq!(extract_pure_text(&out).ok().expect("text").slot_texts, text.slot_texts);
    assert!(matches!(verify_docx_roundtrip(&docx, &out),
        Err(DocxError::Differs { entry, what: Difference::Xml }) if entry == "word/document.xml"));
}

#[test]
fn inputs_that_do_not_belong_together_are_refused() {
    let (_, m, text) = masked();
    assert!(check_merge_inputs(&m.mask, &m.offsets, &text).is_ok());

    let (_, mut m2, _) = masked();
    m2.mask.placeholder_prefix = "other".to_string();
    assert!(matches!(check_merge_inputs(&m2.mask, &m2.offsets, &text),
        Err(DocxError::PrefixMismatch { left, .. }) if left == "other"));

    let mut t = text.clone();
    t.placeholder_prefix = "other".to_string();
    assert!(matches!(check_merge_inputs(&m.mask, &m.offsets, &t),
        Err(DocxError::PrefixMismatch { left, .. }) if left == "other"));

    let mut o = m.offsets.clone();
    o.slots.remove(0);
    assert!(matches!(check_merge_inputs(&m.mask, &o, &text), Err(DocxError::SlotIdsStart { min_id: 2 })));

    let mut o = m.offsets.clone();
    o.slots.remove(4);
    assert!(matches!(check_merge_inputs(&m.mask, &o, &text),
        Err(DocxError::SlotIdsGap { max_id: 9, slots: 8 })));

    let mut t = text.clone();
    t.slot_texts.pop();
    assert!(matches!(check_merge_inputs(&m.mask, &m.offsets, &t),
        Err(DocxError::SlotTextCount { texts: 8, expected: 9 })));
}

#[test]
fn masked_data_that_is_broken_is_refused() {
    let (_, m, text) = masked();
    let merge = |m: &MaskedDocx, blobs: Option<&Vec<u8>>| {
        merge_mask_json_and_offsets(&m.mask, &m.offsets, &text, blobs).err().expect("refused")
    };
    assert!(matches!(merge(&m, None), DocxError::EntryData { fault: DataFault::NoBlobs, .. }));
    let short = m.blobs[..10].to_vec();
    assert!(matches!(merge(&m, Some(&short)),
        DocxError::EntryData { fault: DataFault::OutOfRange { .. }, .. }));
    let mut wrong = m.blobs.clone();
    wrong[0] ^= 1;
    assert!(matches!(merge(&m, Some(&wrong)),
        DocxError::EntryData { fault: DataFault::Digest { .. }, .. }));

    let (_, mut m2, _) = masked();
    m2.mask.entries[5].data = MaskEntryData::Base64("!".to_string());
    assert!(matches!(merge(&m2, Some(&m.blobs)),
        DocxError::EntryData { fault: DataFault::Base64(_), .. }));
    m2.mask.entries[5].data = MaskEntryData::Base64("AAEC+g==".to_string());
    let out = merge_mask_json_and_offsets(&m2.mask, &m2.offsets, &text, Some(&m.blobs)).ok().expect("merge");
    let pkg = DocxPackage::read(&out).ok().expect("read");
    assert_eq!(pkg.entries[5].data, vec![0u8, 1, 2, 250]);
    m2.mask.entries[5].data = MaskEntryData::Utf8("plain".to_string());
    let out = merge_mask_json_and_offsets(&m2.mask, &m2.offsets, &text, Some(&m.blobs)).ok().expect("merge");
    assert_eq!(part_text(&out, "word/media/image1.png"), "plain");
    m2.mask.entries[5].data = MaskEntryData::External(MaskBlobRef {
        offset: 0,
        length: 0,
        sha256: "e3b0c44298fc1c149afbf4c8996fb92427ae41e4649b934ca495991b7852b855".to_string(),
    });
    let out = merge_mask_json_and_offsets(&m2.mask, &m2.offsets, &text, Some(&m.blobs)).ok().expect("merge");
    assert_eq!(part_text(&out, "word/media/image1.png"), "");
}

#[test]
fn slots_that_do_not_fit_are_refused() {
    let (_, m, text) = masked();
    let why = |change: &dyn Fn(&mut MaskedDocx)| {
        let (_, mut m2, _) = masked();
        change(&mut m2);
        match merge_mask_json_and_offsets(&m2.mask, &m2.offsets, &text, Some(&m.blobs)) {
            Err(DocxError::Slot { why, .. }) => why,
            _ => panic!("not a slot fault"),
        }
    };
    assert_eq!(why(&|m| m.offsets.slots[0].part_name = "x".to_string()), SlotFault::NoPart);
    assert_eq!(why(&|m| m.offsets.slots[0].event_index = 9999), SlotFault::NoEvent);
    assert_eq!(why(&|m| m.offsets.slots[0].event_index = 0), SlotFault::WrongEvent);
    assert_eq!(why(&|m| m.offsets.slots[0].kind = SlotKind::Attr), SlotFault::NoAttrName);
    assert_eq!(
        why(&|m| m.offsets.slots[8].attr_name = Some("w:x".to_string())),
        SlotFault::NoAttr
    );
    assert_eq!(
        why(&|m| {
            let at = m.offsets.slots[1].event_index;
            m.offsets.slots[0].event_index = at;
        }),
        SlotFault::NotPlaceholder
    );
}

#[test]
fn a_text_with_the_tag_of_the_document_is_a_leftover() {
    let (docx, m, mut text) = masked();
    text.slot_texts[0] = hash_file_prefix(&docx);
    assert!(matches!(
        merge_mask_json_and_offsets(&m.mask, &m.offsets, &text, Some(&m.blobs)),
        Err(DocxError::Leftover { part, .. }) if part == "word/document.xml"
    ));
}

#[test]
fn documents_are_compared_entry_by_entry() {
    let one = |e: DocxEntry| packed(vec![e]);
    let differs = |a: &[u8], b: &[u8]| match verify_docx_roundtrip(a, b) {
        Err(DocxError::Differs { what, .. }) => what,
        _ => panic!("no difference"),
    };
    let a = one(entry("a.bin", b"1"));
    assert!(verify_docx_roundtrip(&a, &a).is_ok());
    assert_eq!(differs(&a, &packed(vec![])), Difference::Count);
    assert_eq!(differs(&a, &one(entry("b.bin", b"1"))), Difference::Name);
    assert_eq!(differs(&a, &one(entry("a.bin", b"2"))), Difference::Bytes);
    let mut stored = entry("a.bin", b"1");
    stored.compression = 0;
    assert_eq!(differs(&a, &one(stored)), Difference::Compression);
    let mut later = entry("a.bin", b"1");
    later.last_modified = (0x5822, 0x6000);
    assert_eq!(differs(&a, &one(later)), Difference::Timestamp);
    let x = one(entry("a.xml", b"<a b=\"1\" c=\"2\"/>"));
    let y = one(entry("a.xml", b"<a c=\"2\" b=\"1\"/>"));
    assert!(verify_docx_roundtrip(&x, &y).is_ok());
}

#[test]
fn times_are_kept_where_they_are_dates() {
    let read_time = |t: (u16, u16)| {
        let mut e = entry("a.bin", b"1");
        e.last_modified = t;
        DocxPackage::read(&packed(vec![e])).ok().expect("read").entries[0].last_modified
    };
    // The 29th of February 2024, 23:59:58, and the same day a year later.
    let leap = (44 << 9 | 2 << 5 | 29, 23 << 11 | 59 << 5 | 29);
    assert_eq!(read_time(leap), leap);
    assert_eq!(read_time((45 << 9 | 2 << 5 | 29, 0)), (1 << 5 | 1, 0));
    assert_eq!(read_time((0, 0)), (1 << 5 | 1, 0));
}

#[test]
fn names_of_directories_end_in_a_slash() {
    let pkg = |name: &str| {
        let mut e = entry(name, b"");
        e.is_dir = true;
        let p = DocxPackage::read(&packed(vec![e])).ok().expect("read");
        (p.entries[0].name.clone(), p.entries[0].is_dir, p.entries[0].compression)
    };
    assert_eq!(pkg("word"), ("word/".to_string(), true, 0));
    assert_eq!(pkg("word/"), ("word/".to_string(), true, 0));
}

#[test]
fn a_document_is_rewritten() {
    let docx = sample();
    let out = rewrite_docx(&docx).ok().expect("rewrite");
    assert!(verify_docx_roundtrip(&docx, &out).is_ok());
    assert_eq!(part_text(&out, "word/document.xml"), BODY);
    let bad = packed(vec![entry("word/document.xml", b"<a></b>")]);
    assert!(matches!(rewrite_docx(&bad), Err(DocxError::Xml { part, .. }) if part == "word/document.xml"));
    assert!(matches!(extract_slot_texts(&bad), Err(DocxError::Xml { .. })));
    assert!(matches!(extract_mask_json_and_offsets(&bad, "b"), Err(DocxError::Xml { .. })));
}

#[test]
fn paragraphs_are_found_where_they_stand() {
    let docx = sample();
    let t = extract_pure_text(&docx).ok().expect("text");
    assert_eq!(t.version, 3);
    let texts: Vec<&str> = t.paragraphs.iter().map(|p| p.text.as_str()).collect();
    assert_eq!(texts, vec!["Title", "Item", "Sub", "Hello \tA & B", "Cell", "Head"]);
    let ids: Vec<usize> = t.paragraphs.iter().map(|p| p.para_id).collect();
    assert_eq!(ids, vec![1, 2, 3, 4, 5, 6]);
    assert_eq!(t.paragraphs[0].p_style.as_deref(), Some("Heading1"));
    assert_eq!(t.paragraphs[0].xml_event_index, 3);
    assert_eq!(t.paragraphs[0].scope_key, "word/document.xml#w:p@3");
    assert_eq!((t.paragraphs[2].num_id, t.paragraphs[2].num_ilvl), (Some(5), Some(1)));
    let cell = &t.paragraphs[4];
    assert_eq!(cell.container, ParaContainer::TableCell);
    assert_eq!((cell.table_index, cell.row_index, cell.cell_index), (Some(1), Some(1), Some(1)));
    let head = &t.paragraphs[5];
    assert_eq!(head.container, ParaContainer::Header);
    assert_eq!(head.section_index, Some(1));
    assert_eq!(head.part_name, "word/header1.xml");
    let none = packed(vec![entry("a.xml", b"<a/>")]);
    assert!(matches!(extract_pure_text(&none), Err(DocxError::MissingDocument)));
}

fn shape(n: &StructureNode) -> String {
    let kids: Vec<String> = n.children.iter().map(shape).collect();
    let label = match n.kind {
        StructureNodeKind::Root => "root".to_string(),
        StructureNodeKind::Part => n.part_name.clone().expect("part"),
        StructureNodeKind::List => "list".to_string(),
        _ => n.text.clone().expect("text"),
    };
    if kids.is_empty() {
        label
    } else {
        format!("{label}({})", kids.join(","))
    }
}

#[test]
fn the_outline_has_headings_lists_and_paragraphs() {
    let docx = sample();
    let s = extract_structure_json(&docx).ok().expect("structure");
    assert_eq!(s.version, 1);
    assert_eq!(
        shape(&s.root),
        "root(word/document.xml(Title(list(Item(list(Sub))),Hello \tA & B,Cell)),word/header1.xml(Head))"
    );
    let title = &s.root.children[0].children[0];
    assert_eq!(title.heading_level, Some(1));
    assert_eq!(title.loc.as_ref().expect("loc").para_id, 1);
    assert_eq!(title.children[0].num_id, Some(5));
    assert_eq!(title.children[0].children[0].ilvl, Some(0));
}

fn ids(n: &StructureNode, out: &mut Vec<usize>) {
    if let Some(l) = &n.loc {
        out.push(l.para_id);
    }
    for c in &n.children {
        ids(c, out);
    }
}

#[test]
fn the_outline_holds_each_paragraph_once() {
    let docx = sample();
    let mut t = extract_pure_text(&docx).ok().expect("text");
    t.paragraphs.reverse();
    let mut got = Vec::new();
    ids(&build_structure(&t).root, &mut got);
    got.sort();
    let mut want: Vec<usize> = t.paragraphs.iter().map(|p| p.para_id).collect();
    want.sort();
    assert_eq!(got, want);
}

#[test]
fn headings_nest_by_their_level() {
    let docx = sample();
    let mut t = extract_pure_text(&docx).ok().expect("text");
    t.paragraphs.truncate(4);
    let styles = ["heading 2", "Title", "HEADING3", "Headingx"];
    for (p, s) in t.paragraphs.iter_mut().zip(styles) {
        p.p_style = Some(s.to_string());
        p.num_id = None;
    }
    t.paragraphs[3].outline_lvl = Some(1);
    let s = build_structure(&t);
    assert_eq!(shape(&s.root), "root(word/document.xml(Title,Item(Sub,Hello \tA & B)))");
}

#[test]
fn slots_of_a_paragraph_make_a_unit() {
    let (docx, m, text) = masked();
    let units = build_para_slot_units(&docx, &text, &m.offsets).ok().expect("units");
    assert_eq!(units.len(), 6);
    assert_eq!(units[3].slot_ids, vec![4, 5]);
    assert_eq!(
        units[3].source_surface,
        "<<MT_SLOT:000004>>Hello <<MT_SLOT:000005>>A & B<<MT_SLOT:000000>>"
    );
    assert_eq!(units[5].part_name, "word/header1.xml");
    let mut few = text.clone();
    few.slot_texts.truncate(4);
    assert!(matches!(
        build_para_slot_units(&docx, &few, &m.offsets),
        Err(DocxError::MissingSlotText { id: 5 })
    ));
}

#[test]
fn output_files_are_named_after_the_document() {
    let o = default_outputs_for(Some("a"));
    assert_eq!(o.mask_json_path, "a.mask.json");
    assert_eq!(o.offsets_json_path, "a.offsets.json");
    assert_eq!(o.blobs_bin_path, "a.mask.blobs.bin");
    assert_eq!(default_text_output_for(None).text_json_path, "docx.text.json");
    assert_eq!(default_structure_output_for(Some("b")).structure_json_path, "b.structure.json");
    assert_eq!(output_file_name(None, ".x"), "docx.x");
}

fn rules() -> DocxFilterRules {
    DocxFilterRules {
        version: 1,
        strip_attributes: vec!["w:rsidR".to_string()],
        drop_elements: vec!["w:proofErr".to_string(), "w:drop".to_string()],
        drop_run_properties: vec!["w:spacing".to_string()],
        preserve_whitespace_text_in: vec!["w:t".to_string()],
        merge_adjacent_runs: true,
        merge_run_parts: vec!["word/doc*.xml".to_string()],
    }
}

#[test]
fn a_document_is_cleaned_by_rules() {
    let xml = "<w:document>\n <w:p w:rsidR=\"1\" w:x=\"2\"><w:proofErr/><w:drop><w:t>gone</w:t></w:drop>\
<w:r><w:rPr><w:b/><w:spacing w:val=\"1\"/></w:rPr><w:t>Hel</w:t></w:r>\
<w:r><w:rPr><w:b/></w:rPr><w:t xml:space=\"preserve\">lo </w:t></w:r></w:p></w:document>";
    let docx = packed(vec![entry("word/document.xml", xml.as_bytes()), entry("word/x.xml", xml.as_bytes())]);
    let out = filter_docx_with_rules(&docx, &rules()).ok().expect("filter");
    assert_eq!(
        part_text(&out, "word/document.xml"),
        "<w:document><w:p w:x=\"2\"><w:r><w:rPr><w:b/></w:rPr><w:t xml:space=\"preserve\">Hello </w:t></w:r></w:p></w:document>"
    );
    assert_eq!(
        part_text(&out, "word/x.xml"),
        "<w:document><w:p w:x=\"2\"><w:r><w:rPr><w:b/></w:rPr><w:t>Hel</w:t></w:r>\
<w:r><w:rPr><w:b/></w:rPr><w:t xml:space=\"preserve\">lo </w:t></w:r></w:p></w:document>"
    );
}

#[test]
fn rules_of_another_version_are_refused() {
    assert!(rules().check_version().is_ok());
    let mut r = rules();
    r.version = 2;
    assert!(matches!(r.check_version(), Err(DocxError::FilterVersion { version: 2 })));
}

fn body_of(inner: &str) -> Vec<u8> {
    let xml = format!("<w:document><w:body>{inner}</w:body></w:document>");
    packed(vec![
        entry("word/document.xml", xml.as_bytes()),
        entry("word/_rels/document.xml.rels", RELS.as_bytes()),
        entry("word/header1.xml", HEADER.as_bytes()),
    ])
}

#[test]
fn a_paragraph_goes_on_after_a_text_box() {
    let docx = body_of(
        "<w:p><w:r><w:t>A</w:t></w:r><w:r><w:txbxContent><w:p><w:r><w:t>B</w:t></w:r></w:p>\
<w:tbl><w:tr><w:tc><w:p><w:r><w:t>D</w:t></w:r></w:p></w:tc></w:tr></w:tbl></w:txbxContent></w:r>\
<w:r><w:t>C</w:t></w:r></w:p>",
    );
    let t = extract_pure_text(&docx).ok().expect("text");
    let texts: Vec<&str> = t.paragraphs.iter().map(|p| p.text.as_str()).collect();
    assert_eq!(texts, vec!["AC"]);
    let head = "<w:hdr><w:p><w:r><w:t>A</w:t></w:r><w:r><w:txbxContent><w:p/><w:p><w:r><w:t>B</w:t></w:r></w:p>\
</w:txbxContent></w:r><w:r><w:t>C</w:t></w:r></w:p></w:hdr>";
    let body = "<w:document><w:body><w:sectPr><w:headerReference r:id=\"rId1\"/></w:sectPr></w:body></w:document>";
    let docx = packed(vec![
        entry("word/document.xml", body.as_bytes()),
        entry("word/_rels/document.xml.rels", RELS.as_bytes()),
        entry("word/header1.xml", head.as_bytes()),
    ]);
    let t = extract_pure_text(&docx).ok().expect("text");
    let texts: Vec<&str> = t.paragraphs.iter().map(|p| p.text.as_str()).collect();
    assert_eq!(texts, vec!["AC"]);
}

#[test]
fn sections_are_those_of_the_body() {
    let docx = body_of(
        "<w:p><w:pPr><w:sectPr><w:headerReference w:type=\"first\" r:id=\"rId9\"></w:headerReference>\
</w:sectPr></w:pPr><w:r><w:t>A</w:t></w:r></w:p>\
<w:sectPr><w:headerReference w:type=\"default\" r:id=\"rId1\"></w:headerReference>\
<w:sectPrChange><w:sectPr></w:sectPr></w:sectPrChange></w:sectPr>",
    );
    let t = extract_pure_text(&docx).ok().expect("text");
    let got: Vec<(&str, Option<usize>)> =
        t.paragraphs.iter().map(|p| (p.text.as_str(), p.section_index)).collect();
    assert_eq!(got.len(), 2);
    assert_eq!(got[0], ("A", None));
    assert_eq!(got[1].0, "Head");
}

#[test]
fn only_shown_texts_are_slots_of_a_paragraph() {
    let docx = body_of(
        "<w:p><w:ins><w:r><w:t>X</w:t></w:r></w:ins><w:r><w:t>Y</w:t></w:r>\
<w:hyperlink><w:r><w:t>Z</w:t></w:r></w:hyperlink></w:p>",
    );
    let m = extract_mask_json_and_offsets(&docx, "b").ok().expect("mask");
    let t = extract_pure_text(&docx).ok().expect("text");
    let units = build_para_slot_units(&docx, &t, &m.offsets).ok().expect("units");
    assert_eq!(units.len(), 1);
    let texts: Vec<&str> =
        units[0].slot_ids.iter().map(|id| t.slot_texts[*id - 1].as_str()).collect();
    assert_eq!(texts, vec!["Y", "Z"]);
    assert_eq!(t.paragraphs[0].text, "YZ");
}

#[test]
fn cleaning_again_changes_nothing() {
    let xml = "<w:document>\n<w:p><w:r><w:rPr><w:b/><w:spacing w:val=\"1\"/></w:rPr><w:t>a </w:t></w:r>\
<w:r><w:rPr><w:b/></w:rPr><w:t>b</w:t></w:r><w:r><w:t>c</w:t></w:r><w:r><w:tab/></w:r>\
<w:r><w:t>d</w:t></w:r></w:p></w:document>";
    let docx = packed(vec![entry("word/document.xml", xml.as_bytes())]);
    let once = filter_docx_with_rules(&docx, &rules()).ok().expect("filter");
    let text = part_text(&once, "word/document.xml");
    assert_eq!(
        text,
        "<w:document><w:p><w:r><w:rPr><w:b/></w:rPr><w:t>a b</w:t></w:r><w:r><w:t>c</w:t></w:r>\
<w:r><w:tab/></w:r><w:r><w:t>d</w:t></w:r></w:p></w:document>"
    );
    let twice = filter_docx_with_rules(&once, &rules()).ok().expect("filter");
    assert_eq!(part_text(&twice, "word/document.xml"), text);
}

#[test]
fn parts_of_the_outline_are_in_the_order_of_their_names() {
    let docx = sample();
    let mut t = extract_pure_text(&docx).ok().expect("text");
    t.paragraphs[0].part_name = "word/z.xml".to_string();
    t.paragraphs[1].part_name = "word/a.xml".to_string();
    let s = build_structure(&t);
    let names: Vec<&str> =
        s.root.children.iter().map(|c| c.part_name.as_deref().expect("name")).collect();
    assert_eq!(names, vec!["word/a.xml", "word/document.xml", "word/header1.xml", "word/z.xml"]);
    assert!(s.root.children.iter().all(|c| c.kind == StructureNodeKind::Part && c.loc.is_none()));
    let mut under = Vec::new();
    ids(&s.root.children[3], &mut under);
    assert_eq!(under, vec![t.paragraphs[0].para_id]);
    assert_eq!(s.root.children[3].children[0].text.as_deref(), Some("Title"));
}

#[test]
fn slots_of_units_rise_and_differ() {
    let (docx, m, text) = masked();
    let units = build_para_slot_units(&docx, &text, &m.offsets).ok().expect("units");
    let all: Vec<usize> = units.iter().flat_map(|u| u.slot_ids.clone()).collect();
    let mut sorted = all.clone();
    sorted.sort();
    sorted.dedup();
    assert_eq!(sorted.len(), all.len());
    assert!(units.iter().all(|u| u.slot_ids.windows(2).all(|w| w[0] < w[1])));
}

#[test]
fn a_document_that_is_taken_apart_comes_back() {
    let docx = sample();
    let back = rejoin_docx(&docx, "x.bin").ok().expect("rejoin");
    assert_eq!(part_text(&back, "word/document.xml"), BODY);
    assert!(verify_docx_roundtrip(&docx, &back).is_ok());
    let odd = "<!DOCTYPE w><w x='\"'><t>a</t><![CDATA[b]]></w>";
    let docx = packed(vec![
        entry("word/document.xml", BODY.as_bytes()),
        entry("a.xml", odd.as_bytes()),
        entry("b/", b""),
        entry("c.bin", b"<"),
    ]);
    let back = rejoin_docx(&docx, "x.bin").ok().expect("rejoin");
    assert_eq!(part_text(&back, "a.xml"), odd);
    let bad = packed(vec![entry("word/document.xml", BODY.as_bytes()), entry("a.xml", b"<a></b>")]);
    assert!(matches!(rejoin_docx(&bad, "x"), Err(DocxError::Xml { part, .. }) if part == "a.xml"));
}

#[test]
fn texts_that_were_filled_in_are_read_back() {
    let (_, m, mut text) = masked();
    let n = text.slot_texts.len();
    for (i, t) in text.slot_texts.iter_mut().enumerate() {
        if m.offsets.slots[i].kind == SlotKind::Text {
            *t = format!("{i} <&> \"'\n");
        }
    }
    let out = merge_mask_json_and_offsets(&m.mask, &m.offsets, &text, Some(&m.blobs)).ok().expect("merge");
    let (prefix, texts) = extract_slot_texts(&out).ok().expect("texts");
    assert_eq!(texts, text.slot_texts);
    assert_eq!(texts.len(), n);
    assert_eq!(prefix, hash_file_prefix(&out));
    assert!(prefix.len() == 10 && prefix.chars().all(|c| c.is_ascii_digit() || ('a'..='f').contains(&c)));
}

#[test]
fn a_part_is_filtered() {
    let xml = b"<w:p w:rsidR=\"1\"> <w:drop><w:t>x</w:t></w:drop><w:rPr><w:spacing/><w:b/></w:rPr><w:t> </w:t></w:p>";
    let mut part = parse_xml_part("word/document.xml", xml).ok().expect("parse");
    let hash = part.baseline_hash.clone();
    assert!(filter_xml_part(&mut part, &rules()).is_ok());
    let wanted = parse_xml_part(
        "word/document.xml",
        b"<w:p><w:rPr><w:b/></w:rPr><w:t> </w:t></w:p>",
    )
    .ok()
    .expect("parse");
    assert_eq!(format!("{:?}", part.events), format!("{:?}", wanted.events));
    assert_eq!(part.baseline_hash, hash);
    assert!(filter_xml_part(&mut part, &rules()).is_ok());
    assert_eq!(format!("{:?}", part.events), format!("{:?}", wanted.events));
    let mut open = parse_xml_part("p", b"<w:p><w:drop>").ok().expect("parse");
    let before = format!("{:?}", open.events);
    assert!(matches!(filter_xml_part(&mut open, &rules()), Err(DocxError::Unterminated { .. })));
    assert_eq!(format!("{:?}", open.events), before);
}

#[test]
fn runs_of_one_style_are_merged() {
    let events = |xml: &str| parse_xml_part("p", xml.as_bytes()).ok().expect("parse").events;
    let b = "<w:rPr><w:b/></w:rPr>";
    let merged = merge_adjacent_text_runs_in_paragraphs(&events(&format!(
        "<w:p><w:r>{b}<w:t>a</w:t></w:r><w:r>{b}<w:t>b</w:t></w:r><w:r><w:t>c</w:t></w:r></w:p>"
    )));
    let wanted = events(&format!("<w:p><w:r>{b}<w:t>ab</w:t></w:r><w:r><w:t>c</w:t></w:r></w:p>"));
    assert_eq!(format!("{:?}", merged), format!("{:?}", wanted));
    let again = merge_adjacent_text_runs_in_paragraphs(&merged);
    assert_eq!(format!("{:?}", again), format!("{:?}", wanted));
}
