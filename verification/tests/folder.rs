use mumford::folder::{compare, compare_files, FolderFile};

fn file(path: &str, content: &str) -> FolderFile {
    FolderFile { path: path.to_string(), content: content.as_bytes().to_vec() }
}

fn rows(entries: &[mumford::folder::FolderEntry]) -> Vec<(String, String, String)> {
    entries.iter().map(|e| (e.status.clone(), e.path_a.clone(), e.path_b.clone())).collect()
}

#[test]
fn folders_match_by_path_then_by_content() {
    let a = vec![file("a.txt", "one"), file("b.txt", "two"), file("old.txt", "moved"), file("gone.txt", "bye")];
    let b = vec![file("a.txt", "one"), file("b.txt", "TWO"), file("new/place.txt", "moved"), file("fresh.txt", "hi")];
    let e = rows(&compare_files(&a, &b));
    let s = |x: &str| x.to_string();
    assert_eq!(
        e,
        vec![
            (s("equal"), s("a.txt"), s("a.txt")),
            (s("modified"), s("b.txt"), s("b.txt")),
            (s("renamed"), s("old.txt"), s("new/place.txt")),
            (s("removed"), s("gone.txt"), s("")),
            (s("added"), s(""), s("fresh.txt")),
        ]
    );
}

#[test]
fn each_new_file_is_taken_once_as_a_rename() {
    let a = vec![file("x", "same"), file("y", "same")];
    let b = vec![file("z", "same")];
    let e = rows(&compare_files(&a, &b));
    assert_eq!(e[0].0, "renamed");
    assert_eq!(e[0].2, "z");
    assert_eq!(e[1].0, "removed");
    assert_eq!(e.len(), 2);
}

#[test]
fn folder_errors_are_passed_on() {
    let err = std::io::Error::new(std::io::ErrorKind::NotFound, "missing");
    let r = compare("a", "b", Err(err), Ok(Vec::new()));
    assert_eq!(r.err().unwrap().kind(), std::io::ErrorKind::NotFound);
    let c = compare("a", "b", Ok(vec![file("f", "1")]), Ok(vec![file("f", "1")])).unwrap();
    assert_eq!((c.path_a.as_str(), c.path_b.as_str()), ("a", "b"));
    assert_eq!(c.entries.len(), 1);
    assert_eq!(c.entries[0].status, "equal");
}

#[test]
fn identical_folders_are_all_equal() {
    let a = vec![file("a", "1"), file("d/b", "2"), file("c", "2")];
    let e = rows(&compare_files(&a, &a.clone()));
    assert_eq!(e.len(), 3);
    for (k, (status, pa, pb)) in e.iter().enumerate() {
        assert_eq!(status, "equal");
        assert_eq!(pa, &a[k].path);
        assert_eq!(pb, &a[k].path);
    }
}
