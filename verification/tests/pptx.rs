use mumford::ops::{diff_lines, OpType};
use mumford::pptx::{align_slides, extract_slide_text, pptx_diff, slide_entries, slide_number, slide_similarity, SlideContent};

#[test]
fn extract_text_from_slide_xml() {
    let xml = r#"<xml xmlns:a="x">
            <a:p><a:r><a:t>Title Here</a:t></a:r></a:p>
            <a:p><a:r><a:t>Bullet 1</a:t></a:r></a:p>
            <a:p><a:r><a:t>Bullet 2</a:t></a:r></a:p>
        </xml>"#;
    let lines = extract_slide_text(xml);
    assert_eq!(lines, vec!["Title Here", "Bullet 1", "Bullet 2"]);
}

#[test]
fn empty_slide_produces_no_lines() {
    let xml = r#"<xml xmlns:a="x"><a:p><a:r><a:t>  </a:t></a:r></a:p></xml>"#;
    let lines = extract_slide_text(xml);
    assert!(lines.is_empty());
}

#[test]
fn slide_similarity_identical() {
    let a = vec!["Hello".into(), "World".into()];
    let s = slide_similarity(&a, &a);
    assert_eq!(s.num, s.den);
}

#[test]
fn slide_similarity_half_match() {
    let a = vec!["A".into(), "B".into(), "C".into(), "D".into()];
    let b = vec!["A".into(), "B".into(), "X".into(), "Y".into()];
    let sim = slide_similarity(&a, &b);
    // Jaccard: {A,B} ∩ {A,B} / {A,B,C,D,X,Y} = 2/6 ≈ 0.33
    assert!(2 * sim.num < sim.den);
    assert_eq!((sim.num, sim.den), (2, 6));
}

#[test]
fn slide_similarity_counts_sets() {
    let a: Vec<String> = vec!["A".into(), "A".into()];
    let b: Vec<String> = vec!["A".into()];
    let s = slide_similarity(&a, &b);
    assert_eq!((s.num, s.den), (1, 1));
    let e: Vec<String> = Vec::new();
    let s = slide_similarity(&e, &e);
    assert_eq!((s.num, s.den), (1, 1));
    let s = slide_similarity(&e, &b);
    assert_eq!((s.num, s.den), (0, 1));
}

#[test]
fn align_identical_slides() {
    let a = vec![
        SlideContent { slide: 1, lines: vec!["A".into(), "B".into()] },
        SlideContent { slide: 2, lines: vec!["C".into()] },
    ];
    let b = vec![
        SlideContent { slide: 1, lines: vec!["A".into(), "B".into()] },
        SlideContent { slide: 2, lines: vec!["C".into()] },
    ];
    let pairs = align_slides(&a, &b);
    assert_eq!(pairs.len(), 2);
    assert!(pairs.iter().all(|p| p.a.is_some() && p.b.is_some()));
}

#[test]
fn align_with_added_slide() {
    let a = vec![SlideContent { slide: 1, lines: vec!["A".into()] }];
    let b = vec![
        SlideContent { slide: 1, lines: vec!["A".into()] },
        SlideContent { slide: 2, lines: vec!["NEW".into()] },
    ];
    let pairs = align_slides(&a, &b);
    assert_eq!(pairs.len(), 2);
    assert!(pairs[1].a.is_none() && pairs[1].b.is_some());
}

#[test]
fn align_with_removed_slide() {
    let a = vec![
        SlideContent { slide: 1, lines: vec!["A".into()] },
        SlideContent { slide: 2, lines: vec!["GONE".into()] },
    ];
    let b = vec![SlideContent { slide: 1, lines: vec!["A".into()] }];
    let pairs = align_slides(&a, &b);
    assert_eq!(pairs.len(), 2);
    assert!(pairs[1].a.is_some() && pairs[1].b.is_none());
}

#[test]
fn align_finds_moved_slide() {
    let a = vec![
        SlideContent { slide: 1, lines: vec!["X".into(), "Y".into()] },
        SlideContent { slide: 2, lines: vec!["P".into(), "Q".into()] },
    ];
    let b = vec![
        SlideContent { slide: 1, lines: vec!["P".into(), "Q".into()] },
        SlideContent { slide: 2, lines: vec!["X".into(), "Y".into()] },
    ];
    let pairs = align_slides(&a, &b);
    let got: Vec<(Option<usize>, Option<usize>)> = pairs.iter().map(|p| (p.a, p.b)).collect();
    assert_eq!(got, vec![(Some(0), Some(1)), (Some(1), Some(0))]);
}

#[test]
fn diff_identical_pptx_content() {
    let a_lines: Vec<String> = vec!["Title".into(), "Bullet 1".into(), "Bullet 2".into()];
    let b_lines = a_lines.clone();
    let raw = diff_lines(&a_lines, &b_lines);
    assert!(raw.iter().all(|o| o.typ == OpType::Equal));
}

#[test]
fn pptx_diff_counts_statuses() {
    let a = vec![
        SlideContent { slide: 1, lines: vec!["A".into(), "B".into()] },
        SlideContent { slide: 2, lines: vec!["C".into(), "D".into()] },
        SlideContent { slide: 3, lines: vec!["GONE".into()] },
    ];
    let b = vec![
        SlideContent { slide: 1, lines: vec!["A".into(), "B".into()] },
        SlideContent { slide: 2, lines: vec!["C".into(), "D".into(), "E".into()] },
    ];
    let r = pptx_diff("a.pptx", "b.pptx", Ok(a), Ok(b)).unwrap();
    assert_eq!(r.file_type, "pptx");
    let st: Vec<&str> = r.slides.iter().map(|s| s.status.as_str()).collect();
    assert_eq!(st, vec!["equal", "modified", "removed"]);
    assert_eq!((r.added, r.modified, r.removed), (0, 1, 1));
    assert_eq!((r.slides[1].slide_a, r.slides[1].slide_b), (2, 2));
    assert!(!r.slides[1].ops.is_empty());
    assert_eq!((r.slides[2].slide_a, r.slides[2].slide_b), (3, 0));
}

#[test]
fn pptx_diff_passes_read_errors() {
    let r = pptx_diff("a.pptx", "b.pptx", Err("open a.pptx: gone".into()), Ok(Vec::new()));
    assert_eq!(r.err().unwrap(), "open a.pptx: gone");
}

#[test]
fn slide_entry_names() {
    assert_eq!(slide_number("ppt/slides/slide12.xml"), Some(12));
    assert_eq!(slide_number("ppt/slides/slide+3.xml"), Some(3));
    assert_eq!(slide_number("ppt/slides/slide.xml"), None);
    assert_eq!(slide_number("ppt/slides/_rels/slide1.xml.rels"), None);
    assert_eq!(slide_number("ppt/slides/slideX.xml"), None);
    let names: Vec<String> = vec![
        "ppt/slides/slide10.xml".into(),
        "docProps/app.xml".into(),
        "ppt/slides/slide2.xml".into(),
        "ppt/slides/slide1.xml".into(),
    ];
    let e = slide_entries(&names);
    let nums: Vec<usize> = e.iter().map(|(n, _)| *n).collect();
    assert_eq!(nums, vec![1, 2, 10]);
    assert_eq!(e[2].1, "ppt/slides/slide10.xml");
}

#[test]
fn alignment_lists_each_slide_once() {
    let s = |n: usize, l: &[&str]| SlideContent { slide: n, lines: l.iter().map(|x| x.to_string()).collect() };
    let a = vec![s(1, &["title", "x"]), s(2, &["only in a"]), s(3, &["p", "q", "r"])];
    let b = vec![s(1, &["p", "q", "r"]), s(2, &["title", "x"]), s(3, &["new"]), s(4, &["newer"])];
    let pairs = align_slides(&a, &b);
    for (k, p) in pairs.iter().enumerate() {
        if k < a.len() {
            assert_eq!(p.a, Some(k));
        } else {
            assert_eq!(p.a, None);
            assert!(p.b.is_some());
        }
    }
    let mut seen: Vec<usize> = pairs.iter().filter_map(|p| p.b).collect();
    seen.sort();
    assert_eq!(seen, vec![0, 1, 2, 3]);
    assert_eq!(pairs[0].b, Some(1));
    assert_eq!(pairs[1].b, None);
    assert_eq!(pairs[2].b, Some(0));
}

#[test]
fn identical_decks_are_all_equal() {
    let s = |n: usize, l: &[&str]| SlideContent { slide: n, lines: l.iter().map(|x| x.to_string()).collect() };
    let a = vec![s(1, &[]), s(2, &["x"]), s(3, &["x"])];
    let b = vec![s(1, &[]), s(2, &["x"]), s(3, &["x"])];
    let r = pptx_diff("a.pptx", "b.pptx", Ok(a), Ok(b)).unwrap();
    assert_eq!(r.slides.len(), 3);
    for (k, d) in r.slides.iter().enumerate() {
        assert_eq!(d.status, "equal");
        assert_eq!(d.slide_a, k + 1);
        assert_eq!(d.slide_b, k + 1);
    }
    assert_eq!(r.added + r.modified + r.removed, 0);
}

#[test]
fn slide_text_lines_are_trimmed() {
    let xml = r#"<p:sld xmlns:a="x" xmlns:p="y"><a:t>  hi  </a:t><a:t>   </a:t><a:t>there</a:t></p:sld>"#;
    assert_eq!(extract_slide_text(xml), vec!["hi", "there"]);
}

#[test]
fn slide_similarity_is_symmetric() {
    let a: Vec<String> = vec!["A".into(), "B".into(), "B".into(), "C".into()];
    let b: Vec<String> = vec!["C".into(), "D".into(), "A".into()];
    let ab = slide_similarity(&a, &b);
    let ba = slide_similarity(&b, &a);
    assert_eq!((ab.num, ab.den), (2, 4));
    assert_eq!((ab.num, ab.den), (ba.num, ba.den));
    assert!(ab.num <= ab.den);
}
