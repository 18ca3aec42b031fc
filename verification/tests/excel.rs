use mumford::excel::{
    content_fingerprint, detect_header_row, excel_diff, excel_diff_with, normalize_row, sheet_rows, union_strings,
    ExcelOptions, RawSheet,
};
use mumford::grid::{grid_diff, CellStatus, GridOptions};

fn grid(rows: &[&[&str]]) -> Vec<Vec<String>> {
    rows.iter().map(|r| r.iter().map(|s| s.to_string()).collect()).collect()
}

#[test]
fn diff_sheet_basic() {
    let a = grid(&[&["id", "v"], &["1", "a"], &["2", "b"], &["3", "c"]]);
    let b = grid(&[&["id", "v"], &["1", "a"], &["2", "CHANGED"], &["3", "c"]]);
    let opts = GridOptions::default();
    let gd = grid_diff(&a, &b, &opts);
    assert_eq!(gd.modified_rows, 1);
    assert_eq!(gd.rows.len(), 4);
    assert_eq!(gd.columns.len(), 2);
    let row = &gd.rows[2];
    assert_eq!(row.status, CellStatus::Modified);
    assert_eq!((row.row_a, row.row_b), (3, 3));
    assert_eq!(row.cells[1].status, CellStatus::Modified);
    assert_eq!(row.cells[1].old, "b");
    assert_eq!(row.cells[1].new, "CHANGED");
    assert_eq!(gd.rows[0].status, CellStatus::Equal);
}

#[test]
fn empty_grids_produce_empty_result() {
    let a: Vec<Vec<String>> = Vec::new();
    let b: Vec<Vec<String>> = Vec::new();
    let opts = GridOptions::default();
    let gd = grid_diff(&a, &b, &opts);
    assert!(gd.rows.is_empty());
    assert!(gd.columns.is_empty());
}

#[test]
fn detect_header_row_skips_metadata_block() {
    let g = grid(&[
        &["My Spec Title"],
        &["Protocol", "", "", "D8450C00005"],
        &[],
        &["Domain", "Variable", "Label", "Type", "Length"],
        &["DM", "AGE", "Age", "num", "8"],
    ]);
    assert_eq!(detect_header_row(&g), 3);
}

#[test]
fn detect_header_row_defaults_to_zero_when_dense() {
    let g = grid(&[
        &["Output", "Program", "Programmer", "Time", "Status"],
        &["adsl", "adsl.sas", "x", "10:00", "ok"],
    ]);
    assert_eq!(detect_header_row(&g), 0);
}

#[test]
fn union_strings_preserves_unique_sorted() {
    let a = vec!["Sheet2".to_string(), "Sheet1".to_string()];
    let b = vec!["Sheet3".to_string(), "Sheet1".to_string()];
    let u = union_strings(&a, &b);
    assert_eq!(u, vec!["Sheet1", "Sheet2", "Sheet3"]);
}

#[test]
fn detect_header_row_narrow_sheet_is_zero() {
    let g = grid(&[&[""], &["only"], &["one column"]]);
    assert_eq!(detect_header_row(&g), 0);
}

#[test]
fn detect_header_row_whitespace_cells_are_empty() {
    let g = grid(&[&["  ", "\t", "x"], &["a", "b", "c"]]);
    assert_eq!(detect_header_row(&g), 1);
}

#[test]
fn normalize_row_cuts_and_trims() {
    let mut cells: Vec<String> = (0..300).map(|i| format!("c{i}")).collect();
    cells[255] = String::new();
    cells[254] = String::new();
    let (r, cut) = normalize_row(cells);
    assert!(cut);
    assert_eq!(r.len(), 254);
    let (r2, cut2) = normalize_row(vec!["a".into(), "".into(), "".into()]);
    assert!(!cut2);
    assert_eq!(r2, vec!["a"]);
}

#[test]
fn sheet_rows_drops_trailing_empty_rows() {
    let raw = grid(&[&["a"], &["", ""], &[""]]);
    let (rows, cut_rows, cut_cols) = sheet_rows(raw);
    assert_eq!(rows, vec![vec!["a".to_string()]]);
    assert!(!cut_rows);
    assert!(!cut_cols);
}

#[test]
fn sheet_rows_cuts_long_sheets() {
    let raw: Vec<Vec<String>> = (0..50_010).map(|i| vec![i.to_string()]).collect();
    let (rows, cut_rows, _) = sheet_rows(raw);
    assert!(cut_rows);
    assert_eq!(rows.len(), 50_000);
}

fn sheet(name: &str, rows: &[&[&str]]) -> RawSheet {
    RawSheet { name: name.to_string(), rows: grid(rows) }
}

#[test]
fn workbook_status_per_sheet() {
    let a = vec![sheet("Same", &[&["x", "y"]]), sheet("Gone", &[&["1"]]), sheet("Edit", &[&["k", "v"], &["1", "a"]])];
    let b = vec![sheet("Same", &[&["x", "y"]]), sheet("New", &[&["2"]]), sheet("Edit", &[&["k", "v"], &["1", "b"]])];
    let r = excel_diff("a.xlsx", "b.xlsx", Ok(a), Ok(b)).unwrap();
    assert_eq!(r.file_type, "excel");
    let names: Vec<&str> = r.sheets.iter().map(|s| s.name.as_str()).collect();
    assert_eq!(names, vec!["Edit", "Gone", "New", "Same"]);
    let status: Vec<&str> = r.sheets.iter().map(|s| s.status.as_str()).collect();
    assert_eq!(status, vec!["modified", "removed", "added", "equal"]);
    assert!(r.notes.is_empty());
}

#[test]
fn workbook_read_error_is_passed_on() {
    let r = excel_diff("a.xlsx", "b.xlsx", Err("open a.xlsx: bad".to_string()), Ok(Vec::new()));
    assert_eq!(r.err().unwrap(), "open a.xlsx: bad");
    let r = excel_diff("", "b.xlsx", Err("never read".to_string()), Err("open b.xlsx: bad".to_string()));
    assert_eq!(r.err().unwrap(), "open b.xlsx: bad");
}

#[test]
fn absent_workbook_side_adds_every_sheet() {
    let b = vec![sheet("S", &[&["1"]])];
    let r = excel_diff_with("", "b.xlsx", Ok(Vec::new()), Ok(b), &ExcelOptions { detect_header: true, lock_columns: true })
        .unwrap();
    assert_eq!(r.sheets.len(), 1);
    assert_eq!(r.sheets[0].status, "added");
}

#[test]
fn truncation_notes_name_the_sheet() {
    let wide: Vec<&str> = vec!["v"; 300];
    let a = vec![RawSheet { name: "Wide".to_string(), rows: vec![wide.iter().map(|s| s.to_string()).collect()] }];
    let r = excel_diff("a.xlsx", "", Ok(a), Ok(Vec::new())).unwrap();
    assert_eq!(r.notes, vec!["sheet \"Wide\" truncated to 256 columns".to_string()]);
    assert_eq!(r.sheets[0].status, "removed");
}

#[test]
fn fingerprint_is_hex_sha256_and_tracks_content() {
    let a = vec![sheet("S", &[&["1", "2"], &[]])];
    let b = vec![sheet("S", &[&["1", "2", ""]])];
    let c = vec![sheet("S", &[&["1", "3"]])];
    let fa = content_fingerprint(Some(a)).unwrap();
    let fb = content_fingerprint(Some(b)).unwrap();
    let fc = content_fingerprint(Some(c)).unwrap();
    assert_eq!(fa.len(), 64);
    assert_eq!(fa, fb);
    assert_ne!(fa, fc);
    assert!(content_fingerprint(None).is_none());
}

#[test]
fn fingerprint_of_empty_workbook() {
    // SHA-256 of the empty message.
    assert_eq!(
        content_fingerprint(Some(Vec::new())).unwrap(),
        "e3b0c44298fc1c149afbf4c8996fb92427ae41e4649b934ca495991b7852b855"
    );
}

#[test]
fn identical_workbooks_are_all_equal() {
    let book = || {
        vec![
            sheet("Report", &[&["Title"], &[], &["id", "name", "qty"], &["1", "bolt", "10"], &["1", "bolt", "10"]]),
            sheet("Notes", &[&["a", "", "c"], &["", "b"]]),
        ]
    };
    for opts in [
        ExcelOptions { detect_header: false, lock_columns: false },
        ExcelOptions { detect_header: true, lock_columns: true },
    ] {
        let r = excel_diff_with("a.xlsx", "b.xlsx", Ok(book()), Ok(book()), &opts).unwrap();
        assert_eq!(r.sheets.len(), 2);
        for s in &r.sheets {
            assert_eq!(s.status, "equal");
            assert_eq!(s.grid.added_rows + s.grid.removed_rows + s.grid.modified_rows, 0);
            assert_eq!(s.grid.added_cols + s.grid.removed_cols, 0);
        }
    }
}

#[test]
fn excel_diff_is_excel_diff_with_defaults() {
    let a = || vec![sheet("S", &[&["k", "v"], &["1", "a"]]), sheet("T", &[&["x"]])];
    let b = || vec![sheet("S", &[&["k", "v"], &["1", "b"]]), sheet("U", &[&["y"]])];
    let r1 = excel_diff("a.xlsx", "b.xlsx", Ok(a()), Ok(b())).unwrap();
    let r2 = excel_diff_with("a.xlsx", "b.xlsx", Ok(a()), Ok(b()), &ExcelOptions::default()).unwrap();
    assert_eq!(r1.sheets.len(), r2.sheets.len());
    for (s1, s2) in r1.sheets.iter().zip(r2.sheets.iter()) {
        assert_eq!(s1.name, s2.name);
        assert_eq!(s1.status, s2.status);
        assert_eq!(s1.grid.rows.len(), s2.grid.rows.len());
        assert_eq!(s1.grid.modified_rows, s2.grid.modified_rows);
    }
}
