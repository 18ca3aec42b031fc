use mumford::docx::{docx_diff, parse_document_xml, table_sig, DocxTable};
use mumford::ops::{paired_line_ops, OpType};

#[test]
fn parses_paragraphs_and_tables() {
    let xml = r#"<w:document xmlns:w="x"><w:body>
            <w:p><w:r><w:t>Hello world</w:t></w:r></w:p>
            <w:p><w:r><w:t>Second </w:t><w:t>paragraph</w:t></w:r></w:p>
            <w:tbl>
              <w:tr><w:tc><w:p><w:r><w:t>A1</w:t></w:r></w:p></w:tc><w:tc><w:p><w:r><w:t>B1</w:t></w:r></w:p></w:tc></w:tr>
              <w:tr><w:tc><w:p><w:r><w:t>A2</w:t></w:r></w:p></w:tc><w:tc><w:p><w:r><w:t>B2</w:t></w:r></w:p></w:tc></w:tr>
            </w:tbl>
            </w:body></w:document>"#;
    let (paras, tables) = parse_document_xml(xml);
    assert_eq!(paras.len(), 2);
    assert_eq!(paras[0].text, "Hello world");
    assert_eq!(paras[1].text, "Second paragraph");
    assert_eq!(tables.len(), 1);
    assert_eq!(tables[0].rows, vec![vec!["A1", "B1"], vec!["A2", "B2"]]);
}

#[test]
fn paragraph_lcs_no_cascade() {
    let xml_a = r#"<w:document xmlns:w="x"><w:body>
            <w:p><w:r><w:t>Alpha</w:t></w:r></w:p>
            <w:p><w:r><w:t>Charlie</w:t></w:r></w:p>
            </w:body></w:document>"#;
    let xml_b = r#"<w:document xmlns:w="x"><w:body>
            <w:p><w:r><w:t>Alpha</w:t></w:r></w:p>
            <w:p><w:r><w:t>Beta NEW</w:t></w:r></w:p>
            <w:p><w:r><w:t>Charlie</w:t></w:r></w:p>
            </w:body></w:document>"#;

    let (paras_a, _) = parse_document_xml(xml_a);
    let (paras_b, _) = parse_document_xml(xml_b);

    let text_a: Vec<String> = paras_a.iter().map(|p| p.text.clone()).collect();
    let text_b: Vec<String> = paras_b.iter().map(|p| p.text.clone()).collect();
    let ops = paired_line_ops(&text_a, &text_b);

    let inserts = ops.iter().filter(|o| o.typ == OpType::Insert).count();
    let deletes = ops.iter().filter(|o| o.typ == OpType::Delete).count();
    let replaces = ops.iter().filter(|o| o.typ == OpType::Replace).count();
    let equals = ops.iter().filter(|o| o.typ == OpType::Equal).count();

    assert_eq!(inserts, 1, "should be 1 insert, got {inserts}");
    assert_eq!(deletes, 0);
    assert_eq!(replaces, 0);
    assert_eq!(equals, 2, "Alpha and Charlie should still match");
}

#[test]
fn table_lcs_no_cascade() {
    let tables_a = vec![
        DocxTable { index: 0, rows: vec![vec!["A".into()]] },
        DocxTable { index: 1, rows: vec![vec!["C".into()]] },
    ];
    let tables_b = vec![
        DocxTable { index: 0, rows: vec![vec!["A".into()]] },
        DocxTable { index: 1, rows: vec![vec!["B".into()]] },
        DocxTable { index: 2, rows: vec![vec!["C".into()]] },
    ];

    let sig_a: Vec<String> = tables_a.iter().map(table_sig).collect();
    let sig_b: Vec<String> = tables_b.iter().map(table_sig).collect();
    let ops = paired_line_ops(&sig_a, &sig_b);

    let inserts = ops.iter().filter(|o| o.typ == OpType::Insert).count();
    let deletes = ops.iter().filter(|o| o.typ == OpType::Delete).count();
    let equals = ops.iter().filter(|o| o.typ == OpType::Equal).count();

    assert_eq!(inserts, 1, "should be 1 table insert");
    assert_eq!(deletes, 0);
    assert_eq!(equals, 2, "table A and C should match");
}

#[test]
fn table_sig_joins_cells_and_rows() {
    let t = DocxTable { index: 0, rows: vec![vec!["a".into(), "b".into()], vec!["c".into()]] };
    assert_eq!(table_sig(&t), "a\tb\nc");
}

#[test]
fn nested_tables_and_empty_paragraphs() {
    let xml = r#"<w:document xmlns:w="x"><w:body>
        <w:p><w:r><w:t>   </w:t></w:r></w:p>
        <w:tbl><w:tr><w:tc><w:tbl><w:tr><w:tc><w:p><w:r><w:t>inner</w:t></w:r></w:p></w:tc></w:tr></w:tbl></w:tc></w:tr></w:tbl>
        <w:p><w:r><w:t> after &amp; more </w:t></w:r></w:p>
        </w:body></w:document>"#;
    let (paras, tables) = parse_document_xml(xml);
    assert_eq!(paras.len(), 1);
    assert_eq!(paras[0].index, 0);
    assert_eq!(paras[0].text, "after & more");
    assert_eq!(tables.len(), 1);
}

fn doc(paras: &[&str]) -> String {
    let mut s = String::from(r#"<w:document xmlns:w="x"><w:body>"#);
    for p in paras {
        s.push_str(&format!("<w:p><w:r><w:t>{p}</w:t></w:r></w:p>"));
    }
    s.push_str("</w:body></w:document>");
    s
}

#[test]
fn docx_diff_reports_added_and_deleted_paragraphs() {
    let a = doc(&["one", "two", "three"]);
    let b = doc(&["one", "three", "four"]);
    let r = docx_diff("a.docx", "b.docx", Ok(Some(a)), Ok(Some(b))).unwrap();
    assert_eq!(r.file_type, "docx");
    assert_eq!(r.paragraphs.len(), 3);
    assert_eq!(r.added_t + r.deleted_t + r.modified_t, 0);
    let added: Vec<&str> = r.added_p.iter().map(|p| p.text.as_str()).collect();
    let deleted: Vec<&str> = r.deleted_p.iter().map(|p| p.text.as_str()).collect();
    assert_eq!(added, vec!["four"]);
    assert_eq!(deleted, vec!["two"]);
    assert_eq!(r.added_p[0].index, 2);
    assert_eq!(r.deleted_p[0].index, 1);
    assert!(r.modified_p.is_empty());
}

#[test]
fn docx_diff_errors_name_the_side() {
    let r = docx_diff("a.docx", "b.docx", Err("no such file".into()), Ok(None));
    assert_eq!(r.err().unwrap(), "read A: no such file");
    let r = docx_diff("a.docx", "b.docx", Ok(None), Err("zip".into()));
    assert_eq!(r.err().unwrap(), "read B: zip");
}

#[test]
fn docx_diff_absent_side_is_empty() {
    let r = docx_diff("", "b.docx", Ok(None), Ok(Some(doc(&["x", "y"])))).unwrap();
    assert!(r.paragraphs.is_empty());
    assert!(r.deleted_p.is_empty());
}

#[test]
fn identical_documents_report_no_changes() {
    let a = doc(&["one", "two", "three"]);
    let r = docx_diff("a.docx", "b.docx", Ok(Some(a.clone())), Ok(Some(a))).unwrap();
    assert_eq!(r.paragraphs.len(), 3);
    assert!(r.added_p.is_empty());
    assert!(r.deleted_p.is_empty());
    assert!(r.modified_p.is_empty());
    assert_eq!(r.added_t + r.deleted_t + r.modified_t, 0);
}

#[test]
fn paragraphs_are_numbered_in_order_and_trimmed() {
    let xml = doc(&["  first ", "   ", "second\t", "", "third"]);
    let (paras, _) = parse_document_xml(&xml);
    let got: Vec<(usize, &str)> = paras.iter().map(|p| (p.index, p.text.as_str())).collect();
    assert_eq!(got, vec![(0, "first"), (1, "second"), (2, "third")]);
}

#[test]
fn inserted_paragraph_is_reported_at_its_place() {
    let a = doc(&["Alpha", "Charlie"]);
    let b = doc(&["Alpha", "Beta NEW", "Charlie"]);
    let r = docx_diff("a.docx", "b.docx", Ok(Some(a)), Ok(Some(b))).unwrap();
    assert_eq!(r.added_p.len(), 1);
    assert_eq!(r.added_p[0].index, 1);
    assert_eq!(r.added_p[0].text, "Beta NEW");
    assert!(r.deleted_p.is_empty());
    assert!(r.modified_p.is_empty());
    let r = docx_diff("", "b.docx", Ok(None), Ok(Some(doc(&["only"])))).unwrap();
    assert_eq!(r.added_p.len(), 1);
    assert_eq!(r.added_p[0].text, "only");
}

#[test]
fn element_prefixes_do_not_matter() {
    let w = r#"<w:document xmlns:w="x"><w:body><w:p><w:r><w:t>one</w:t></w:r></w:p><w:tbl><w:tr><w:tc><w:p><w:r><w:t>c</w:t></w:r></w:p></w:tc></w:tr></w:tbl></w:body></w:document>"#;
    let x = w.replace("w:", "x:").replace("xmlns:x", "xmlns:w");
    let bare = w.replace("w:", "").replace("xmlns:w", "xmlns");
    let (pw, tw) = parse_document_xml(w);
    for other in [x, bare] {
        let (po, to) = parse_document_xml(&other);
        assert_eq!(po.len(), pw.len());
        assert_eq!(po[0].text, pw[0].text);
        assert_eq!(to.len(), tw.len());
        assert_eq!(to[0].rows, tw[0].rows);
    }
}
