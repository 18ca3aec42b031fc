use mumford::{dispatch, dispatch_checked, engine_for, ext_of, Engine, EngineOutcome};
use mumford::text::build_text_result;

#[test]
fn engine_by_extension() {
    assert_eq!(engine_for("old.XLSX", "new.xlsx"), Engine::Excel);
    assert_eq!(engine_for("", "b.xlsm"), Engine::Excel);
    assert_eq!(engine_for("a.docx", ""), Engine::Docx);
    assert_eq!(engine_for("deck.pptx", "deck2.pptx"), Engine::Pptx);
    assert_eq!(engine_for("r.pdf", "s.pdf"), Engine::Pdf);
    assert_eq!(engine_for("notes.txt", "notes.md"), Engine::Text);
    assert_eq!(engine_for("Makefile", "x.docx"), Engine::Docx);
    assert_eq!(engine_for("", ""), Engine::Text);
}

#[test]
fn ext_of_lowercases() {
    assert_eq!(ext_of("a/B.XLS"), Some("xls".to_string()));
    assert_eq!(ext_of(".bashrc"), None);
    assert_eq!(ext_of(""), None);
    assert_eq!(ext_of("x."), None);
}

#[test]
fn dispatch_wraps_one_engine() {
    let t = build_text_result("a.txt", "b.txt", vec!["x".into()], vec!["y".into()]);
    let r = dispatch("a.txt", "b.txt", EngineOutcome::Text(Ok(t))).unwrap();
    assert_eq!(r.file_type, "text");
    assert_eq!(r.path_a, "a.txt");
    assert!(r.text.is_some() && r.excel.is_none() && r.docx.is_none() && r.pptx.is_none());
    assert!(r.error.is_empty());
    let e = dispatch("a.docx", "b.docx", EngineOutcome::Docx(Err("read A: x".into())));
    assert_eq!(e.err().unwrap(), "read A: x");
}

#[test]
fn checked_dispatch_refuses_another_engine() {
    let t = build_text_result("a.docx", "b.docx", Vec::new(), Vec::new());
    let e = dispatch_checked("a.docx", "b.docx", EngineOutcome::Text(Ok(t)));
    assert_eq!(e.err().unwrap(), "the outcome is not from the engine for these paths");
    let t = build_text_result("a.txt", "b.txt", Vec::new(), Vec::new());
    let r = dispatch_checked("a.txt", "b.txt", EngineOutcome::Text(Ok(t))).unwrap();
    assert_eq!(r.file_type, "text");
}
