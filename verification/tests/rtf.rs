use mumford::grid::CellStatus;
use mumford::rtf::{read_rtf_rows, rtf_diff};

const DOC_A: &str = r"{\rtf1\ansi{\fonttbl{\f0 Arial;}}{\colortbl;\red255\green0\blue0;}
Intro text\par
\trowd\cellx1000\cellx2000 \intbl Name\cell Qty\cell\row
\trowd\cellx1000\cellx2000 \intbl Bolt\cell 10\cell\row
\trowd\cellx1000\cellx2000 \intbl Caf\'e9\cell {\b 3}\cell\row
}";

#[test]
fn rtf_tables_read_as_rows_of_cells() {
    let rows = read_rtf_rows(DOC_A.as_bytes());
    assert_eq!(
        rows,
        vec![
            vec!["Name".to_string(), "Qty".to_string()],
            vec!["Bolt".to_string(), "10".to_string()],
            vec!["Caf\u{e9}".to_string(), "3".to_string()],
        ]
    );
}

#[test]
fn rtf_skips_destinations_and_escapes() {
    let doc = r"{\rtf1{\*\generator Writer;}\trowd\intbl a\{b\}\cell c\\d\~e\cell\row}";
    assert_eq!(read_rtf_rows(doc.as_bytes()), vec![vec!["a{b}".to_string(), "c\\d e".to_string()]]);
}

#[test]
fn rtf_diff_tags_changed_cells() {
    let b = DOC_A.replace("Bolt\\cell 10", "Bolt\\cell 12");
    let r = rtf_diff("a.rtf", "b.rtf", Ok(DOC_A.as_bytes().to_vec()), Ok(b.into_bytes())).unwrap();
    assert_eq!(r.file_type, "rtf");
    assert_eq!(r.grid.modified_rows, 1);
    assert_eq!(r.grid.rows[1].cells[1].status, CellStatus::Modified);
    assert_eq!(r.grid.rows[1].cells[1].old, "10");
    assert_eq!(r.grid.rows[1].cells[1].new, "12");
    let e = rtf_diff("a.rtf", "b.rtf", Ok(Vec::new()), Err("open b.rtf: gone".into()));
    assert_eq!(e.err().unwrap(), "open b.rtf: gone");
}
