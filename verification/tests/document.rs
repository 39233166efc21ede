use lopdf::content::Content;
use lopdf::{Document, Object, Stream};
use pdf_replacer::{extract_page_cmaps, replace_text, ReplaceError, ReplaceMap, UnicodeMapper};

fn rules(pairs: &[(&str, &str)]) -> Vec<ReplaceMap> {
    pairs
        .iter()
        .map(|(k, v)| ReplaceMap { key: k.to_string(), value: v.to_string() })
        .collect()
}

/// A one-page document whose only font carries the given encoding name and
/// whose content stream is the given bytes.
fn build_doc(encoding: &str, content: &[u8]) -> Document {
    let mut doc = Document::with_version("1.5");
    let pages_id = doc.new_object_id();

    let mut font = lopdf::Dictionary::new();
    font.set("Type", Object::Name(b"Font".to_vec()));
    font.set("Subtype", Object::Name(b"Type1".to_vec()));
    font.set("BaseFont", Object::Name(b"Helvetica".to_vec()));
    font.set("Encoding", Object::Name(encoding.as_bytes().to_vec()));
    let font_id = doc.add_object(font);

    let mut fonts = lopdf::Dictionary::new();
    fonts.set("F1", Object::Reference(font_id));
    let mut resources = lopdf::Dictionary::new();
    resources.set("Font", Object::Dictionary(fonts));
    let resources_id = doc.add_object(resources);

    let content_id = doc.add_object(Stream::new(lopdf::Dictionary::new(), content.to_vec()));

    let mut page = lopdf::Dictionary::new();
    page.set("Type", Object::Name(b"Page".to_vec()));
    page.set("Parent", Object::Reference(pages_id));
    page.set("Contents", Object::Reference(content_id));
    page.set("Resources", Object::Reference(resources_id));
    let page_id = doc.add_object(page);

    let mut pages = lopdf::Dictionary::new();
    pages.set("Type", Object::Name(b"Pages".to_vec()));
    pages.set("Kids", Object::Array(vec![Object::Reference(page_id)]));
    pages.set("Count", Object::Integer(1));
    doc.objects.insert(pages_id, Object::Dictionary(pages));

    let mut catalog = lopdf::Dictionary::new();
    catalog.set("Type", Object::Name(b"Catalog".to_vec()));
    catalog.set("Pages", Object::Reference(pages_id));
    let catalog_id = doc.add_object(catalog);
    doc.trailer.set("Root", Object::Reference(catalog_id));
    doc
}

fn first_tj_text(doc: &Document) -> (String, Vec<u8>) {
    let page_id = *doc.get_pages().get(&1).expect("page 1");
    let data = doc.get_page_content(page_id).expect("content");
    let content = Content::decode(&data).expect("decodable");
    for op in &content.operations {
        if op.operator == "Tj" {
            if let Object::String(bytes, _) = &op.operands[0] {
                return (op.operator.clone(), bytes.clone());
            }
        }
    }
    panic!("no Tj operation found");
}

#[test]
fn page_with_matching_text_is_rewritten() {
    let mut doc = build_doc("WinAnsiEncoding", b"BT /F1 12 Tf (Hello World) Tj ET");
    replace_text(&mut doc, 1, &rules(&[("Hello", "Goodbye")])).expect("page processed");
    let (operator, bytes) = first_tj_text(&doc);
    assert_eq!(operator, "Tj");
    assert_eq!(bytes, b"Goodbye World".to_vec());
}

#[test]
fn page_without_matching_text_keeps_its_bytes_exactly() {
    let original = b"BT /F1 12 Tf (Hello World) Tj ET";
    let mut doc = build_doc("WinAnsiEncoding", original);
    let page_id = *doc.get_pages().get(&1).expect("page 1");
    replace_text(&mut doc, 1, &rules(&[("absent", "x")])).expect("page processed");
    let after = doc.get_page_content(page_id).expect("content");
    assert_eq!(after, original.to_vec());
}

#[test]
fn unsupported_font_page_keeps_its_bytes_exactly() {
    let original = b"BT /F1 12 Tf (Hello World) Tj ET";
    let mut doc = build_doc("SomePrivateEncoding", original);
    let page_id = *doc.get_pages().get(&1).expect("page 1");
    replace_text(&mut doc, 1, &rules(&[("Hello", "Goodbye")])).expect("page processed");
    let after = doc.get_page_content(page_id).expect("content");
    assert_eq!(after, original.to_vec());
}

/// A one-page document with an Identity-H font carrying the given ToUnicode
/// stream bytes.
fn build_identity_doc(cmap: &[u8], content: &[u8]) -> Document {
    let mut doc = Document::with_version("1.5");
    let pages_id = doc.new_object_id();

    // the collaborator reads the mapping stream through its decompressor,
    // which expects a filtered stream
    let mut cmap_stream = Stream::new(lopdf::Dictionary::new(), cmap.to_vec());
    cmap_stream.compress().expect("compressible");
    let cmap_id = doc.add_object(cmap_stream);
    let mut font = lopdf::Dictionary::new();
    font.set("Type", Object::Name(b"Font".to_vec()));
    font.set("Subtype", Object::Name(b"Type0".to_vec()));
    font.set("BaseFont", Object::Name(b"Dummy".to_vec()));
    font.set("Encoding", Object::Name(b"Identity-H".to_vec()));
    font.set("ToUnicode", Object::Reference(cmap_id));
    let font_id = doc.add_object(font);

    let mut fonts = lopdf::Dictionary::new();
    fonts.set("F1", Object::Reference(font_id));
    let mut resources = lopdf::Dictionary::new();
    resources.set("Font", Object::Dictionary(fonts));
    let resources_id = doc.add_object(resources);

    let content_id = doc.add_object(Stream::new(lopdf::Dictionary::new(), content.to_vec()));

    let mut page = lopdf::Dictionary::new();
    page.set("Type", Object::Name(b"Page".to_vec()));
    page.set("Parent", Object::Reference(pages_id));
    page.set("Contents", Object::Reference(content_id));
    page.set("Resources", Object::Reference(resources_id));
    let page_id = doc.add_object(page);

    let mut pages = lopdf::Dictionary::new();
    pages.set("Type", Object::Name(b"Pages".to_vec()));
    pages.set("Kids", Object::Array(vec![Object::Reference(page_id)]));
    pages.set("Count", Object::Integer(1));
    doc.objects.insert(pages_id, Object::Dictionary(pages));

    let mut catalog = lopdf::Dictionary::new();
    catalog.set("Type", Object::Name(b"Catalog".to_vec()));
    catalog.set("Pages", Object::Reference(pages_id));
    let catalog_id = doc.add_object(catalog);
    doc.trailer.set("Root", Object::Reference(catalog_id));
    doc
}

/// A ToUnicode stream mapping code 0x0041 to "H" and code 0x0042 to "i".
fn hi_cmap() -> Vec<u8> {
    b"/CIDInit /ProcSet findresource begin\n\
        12 dict begin\n\
        begincmap\n\
        1 begincodespacerange\n\
        <0000> <FFFF>\n\
        endcodespacerange\n\
        2 beginbfchar\n\
        <0041> <0048>\n\
        <0042> <0069>\n\
        endbfchar\n\
        endcmap\n\
        end\n\
        end\n"
        .to_vec()
}

fn build_composite_doc(content: &[u8]) -> Document {
    build_identity_doc(&hi_cmap(), content)
}

#[test]
fn composite_font_table_is_built_from_the_mapping_stream() {
    let doc = build_composite_doc(b"BT ET");
    let table = extract_page_cmaps(&doc, 1).expect("page exists");
    let mapper = UnicodeMapper::new(table);
    let name = b"F1".to_vec();
    assert_eq!(mapper.decode(&name, &[0x00, 0x41, 0x00, 0x42]), "Hi");
    assert_eq!(mapper.encode(&name, "Hi"), vec![0x00, 0x41, 0x00, 0x42]);
}

#[test]
fn truncated_mapping_table_is_a_soft_failure() {
    // the declared count overruns the stream's remaining tokens: the font is
    // marked as having no map instead of aborting the run
    let doc = build_identity_doc(b"9 beginbfchar\n<0041> <0048>\nendbfchar\n", b"BT ET");
    let table = extract_page_cmaps(&doc, 1).expect("page exists");
    let mapper = UnicodeMapper::new(table);
    let name = b"F1".to_vec();
    assert_eq!(mapper.decode(&name, &[0x00, 0x41]), "");
    assert_eq!(mapper.encode(&name, "H"), Vec::<u8>::new());
}

#[test]
fn odd_range_start_is_a_soft_failure() {
    // a bfrange start string of three bytes: the font is marked as having no
    // map instead of aborting the run
    let doc = build_identity_doc(
        b"1 beginbfrange\n<0041> <0042> <004100>\nendbfrange\n",
        b"BT ET",
    );
    let table = extract_page_cmaps(&doc, 1).expect("page exists");
    let mapper = UnicodeMapper::new(table);
    let name = b"F1".to_vec();
    assert_eq!(mapper.decode(&name, &[0x00, 0x41]), "");
}

#[test]
fn reverse_collision_resolves_to_highest_code_regardless_of_parse_order() {
    // two codes map to the same character: re-encoding must pick the highest
    // code, however the parser's map happened to be walked
    let cmap = b"/CIDInit /ProcSet findresource begin\n\
        12 dict begin\n\
        begincmap\n\
        1 begincodespacerange\n\
        <0000> <FFFF>\n\
        endcodespacerange\n\
        2 beginbfchar\n\
        <0041> <0058>\n\
        <0042> <0058>\n\
        endbfchar\n\
        endcmap\n\
        end\n\
        end\n";
    for _ in 0..8 {
        let doc = build_identity_doc(cmap, b"BT ET");
        let table = extract_page_cmaps(&doc, 1).expect("page exists");
        let mapper = UnicodeMapper::new(table);
        let name = b"F1".to_vec();
        assert_eq!(mapper.encode(&name, "X"), vec![0x00, 0x42]);
        assert_eq!(mapper.decode(&name, &[0x00, 0x41]), "X");
        assert_eq!(mapper.decode(&name, &[0x00, 0x42]), "X");
    }
}

#[test]
fn composite_page_text_is_rewritten_through_the_mapping_stream() {
    let mut doc = build_composite_doc(b"BT /F1 12 Tf <00410042> Tj ET");
    replace_text(&mut doc, 1, &rules(&[("Hi", "HH")])).expect("page processed");
    let (_, bytes) = first_tj_text(&doc);
    assert_eq!(bytes, vec![0x00, 0x41, 0x00, 0x41]);
}

#[test]
fn real_spacing_in_a_stored_stream_reads_as_a_word_gap() {
    // the boundary classifies a stored non-integer spacing number exactly:
    // -150.5 is more negative than -100 and reads as a word gap
    let mut doc = build_doc("WinAnsiEncoding", b"BT /F1 12 Tf [(New) -150.5 (York)] TJ ET");
    replace_text(&mut doc, 1, &rules(&[("New York", "Boston")])).expect("page processed");
    let (operator, bytes) = first_tj_text(&doc);
    assert_eq!(operator, "Tj");
    // the TJ operand is one nested array, which contributes a trailing space
    assert_eq!(bytes, b"Boston ".to_vec());
}

#[test]
fn real_spacing_at_the_threshold_adds_no_gap() {
    // -100.0 is not more negative than -100: no gap, so the merged text is
    // "HelloWorld " and a split key does not match
    let original = b"BT /F1 12 Tf [(Hello) -100.0 (World)] TJ ET";
    let mut doc = build_doc("WinAnsiEncoding", original);
    let page_id = *doc.get_pages().get(&1).expect("page 1");
    replace_text(&mut doc, 1, &rules(&[("Hello World", "Bye")])).expect("page processed");
    let after = doc.get_page_content(page_id).expect("content");
    assert_eq!(after, original.to_vec());
}

#[test]
fn missing_page_is_a_fatal_condition() {
    let mut doc = build_doc("WinAnsiEncoding", b"BT ET");
    let r = replace_text(&mut doc, 5, &rules(&[]));
    assert_eq!(r, Err(ReplaceError::PageNotFound));
}

#[test]
fn extracted_table_reads_the_font_encoding() {
    let doc = build_doc("WinAnsiEncoding", b"BT ET");
    let table = extract_page_cmaps(&doc, 1).expect("page exists");
    assert_eq!(table.len(), 1);
    assert_eq!(table[0].0, b"F1".to_vec());
    let mapper = UnicodeMapper::new(table);
    let bytes = mapper.encode(&b"F1".to_vec(), "ok");
    assert_eq!(mapper.decode(&b"F1".to_vec(), &bytes), "ok");
}

#[test]
fn malformed_tf_aborts_the_page() {
    let mut doc = build_doc("WinAnsiEncoding", b"BT 12 Tf (Hello) Tj ET");
    let r = replace_text(&mut doc, 1, &rules(&[("Hello", "Hi")]));
    assert_eq!(r, Err(ReplaceError::FontOperandNotAName));
}
