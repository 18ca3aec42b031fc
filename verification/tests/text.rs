use mumford::pdf::{document_lines, pdf_diff};
use mumford::text::{build_text_result, split_lines};
use mumford::ops::OpType;
use mumford::hex;

#[test]
fn basic_text_diff() {
    let a = vec!["hello".into(), "world".into()];
    let b = vec!["hello".into(), "rust".into()];
    let r = build_text_result("a", "b", a, b);
    assert!(r.summary.delete >= 1 || r.summary.insert >= 1);
}

#[test]
fn identical_text_no_changes() {
    let a: Vec<String> = vec!["line1".into(), "line2".into()];
    let r = build_text_result("a", "a", a.clone(), a);
    assert_eq!(r.summary.equal, 2);
    assert_eq!(r.summary.insert, 0);
    assert_eq!(r.summary.delete, 0);
}

#[test]
fn replaced_line_counts_once_each_side() {
    let a: Vec<String> = vec!["Section A.1 .... 17".into(), "tail".into()];
    let b: Vec<String> = vec!["Section A.1 .... 18".into(), "tail".into()];
    let r = build_text_result("a", "b", a, b);
    assert_eq!(r.ops[0].typ, OpType::Replace);
    assert_eq!((r.summary.equal, r.summary.insert, r.summary.delete), (1, 1, 1));
    assert_eq!(r.file_type, "text");
}

#[test]
fn split_lines_handles_crlf_and_trailing_newline() {
    assert_eq!(split_lines(b"a\r\nb\nc\n"), vec!["a", "b", "c"]);
    assert_eq!(split_lines(b"a\n\nb"), vec!["a", "", "b"]);
    assert_eq!(split_lines(b"\r\r\n"), vec!["\r"]);
    assert!(split_lines(b"").is_empty());
    assert_eq!(split_lines(b"\n\n"), vec!["", ""]);
}

#[test]
fn split_lines_decodes_lossily() {
    assert_eq!(split_lines(&[0x66, 0xff, 0x6f]), vec!["f\u{fffd}o"]);
}

#[test]
fn hex_encodes_lowercase() {
    assert_eq!(hex(&[0x00, 0x0f, 0xab, 0xff]), "000fabff");
    assert_eq!(hex(&[]), "");
}

#[test]
fn lines_join_back_to_the_text() {
    let text = "a\r\nb\n\nc\n";
    let lines = split_lines(text.as_bytes());
    assert!(lines.iter().all(|l| !l.contains('\n')));
    let mut joined = lines.join("\n");
    joined.push('\n');
    assert_eq!(joined, text.replace("\r\n", "\n"));
    let text = "x\ny";
    assert_eq!(split_lines(text.as_bytes()).join("\n"), text);
}

#[test]
fn pdf_pages_lose_running_header_and_footer() {
    let pages: Vec<String> = vec![
        "ACME Report\nintro\nPage footer".into(),
        "ACME Report\nbody one\nbody two\nPage footer\n".into(),
    ];
    assert_eq!(document_lines(&pages), vec!["intro", "body one", "body two"]);
    let single: Vec<String> = vec!["ACME Report\nonly".into()];
    assert_eq!(document_lines(&single), vec!["ACME Report", "only"]);
    let mixed: Vec<String> = vec!["A\nx".into(), "B\ny\nx".into()];
    assert_eq!(document_lines(&mixed), vec!["A", "B", "y"]);
    let b: Vec<String> = vec!["ACME Report\nintro\nPage footer".into(), "ACME Report\nbody one\nbody 2\nPage footer".into()];
    let r = pdf_diff("a.pdf", "b.pdf", Ok(pages), Ok(b)).unwrap();
    assert_eq!(r.file_type, "text");
    assert_eq!(r.summary.equal, 2);
    assert_eq!(r.summary.insert, 1);
    assert_eq!(r.summary.delete, 1);
    let e = pdf_diff("a.pdf", "b.pdf", Err("no text".into()), Ok(Vec::new()));
    assert_eq!(e.err().unwrap(), "no text");
}
