//! Folder comparison: the files of two folders, each given by its path
//! relative to its folder and its content, are matched by path; files on one
//! side only are matched by SHA-256 content hash to find renames. Walking the
//! folders and reading the files is the caller's part.

use vstd::prelude::*;

use crate::excel::{sha256, sha256_spec};
use crate::strs::str_eq;

verus! {

#[verifier::external_type_specification]
#[verifier::external_body]
pub struct ExIoError(std::io::Error);

/// One file of a folder: its path relative to the folder and its content.
#[derive(Debug, Clone)]
pub struct FolderFile {
    pub path: String,
    pub content: Vec<u8>,
}

/// One row of a folder comparison: `equal`, `modified`, `renamed`,
/// `removed` or `added`, with the relative path on each side (empty where
/// the file is absent).
#[derive(Debug, Clone)]
pub struct FolderEntry {
    pub status: String,
    pub path_a: String,
    pub path_b: String,
}

/// The result of comparing two folders: both paths and one entry per file.
#[derive(Debug, Clone)]
pub struct Comparison {
    pub path_a: String,
    pub path_b: String,
    pub entries: Vec<FolderEntry>,
}

/// The value of a list of files: paths and contents.
pub open spec fn files_view(v: Seq<FolderFile>) -> Seq<(Seq<char>, Seq<u8>)> {
    v.map_values(|f: FolderFile| (f.path@, f.content@))
}

/// The value of an entry: status and both paths.
pub open spec fn entry_view(e: FolderEntry) -> (Seq<char>, Seq<char>, Seq<char>) {
    (e.status@, e.path_a@, e.path_b@)
}

/// The values of a list of entries.
pub open spec fn entries_view(v: Seq<FolderEntry>) -> Seq<(Seq<char>, Seq<char>, Seq<char>)> {
    v.map_values(|e: FolderEntry| entry_view(e))
}

/// The first of the first `k` files with path `p`.
pub open spec fn find_path(files: Seq<(Seq<char>, Seq<u8>)>, p: Seq<char>, k: nat) -> Option<nat>
    decreases k,
{
    if k == 0 {
        None
    } else {
        match find_path(files, p, (k - 1) as nat) {
            Some(i) => Some(i),
            None => if files[k - 1].0 == p { Some((k - 1) as nat) } else { None },
        }
    }
}

/// Whether `files` has a file with path `p`.
pub open spec fn has_path(files: Seq<(Seq<char>, Seq<u8>)>, p: Seq<char>) -> bool {
    find_path(files, p, files.len()) is Some
}

/// Whether B file `j` can be the new name of a file with content `c` that
/// has no counterpart by path: it is not in A by path, it is not taken yet,
/// and its content has the same SHA-256 digest.
pub open spec fn rename_target(
    a: Seq<(Seq<char>, Seq<u8>)>,
    b: Seq<(Seq<char>, Seq<u8>)>,
    used: Seq<bool>,
    c: Seq<u8>,
    j: int,
) -> bool {
    &&& !has_path(a, b[j].0)
    &&& !used[j]
    &&& sha256_spec(b[j].1) == sha256_spec(c)
}

/// The first B file among the first `k` that can be the new name of a file
/// with content `c`.
pub open spec fn first_target(
    a: Seq<(Seq<char>, Seq<u8>)>,
    b: Seq<(Seq<char>, Seq<u8>)>,
    used: Seq<bool>,
    c: Seq<u8>,
    k: nat,
) -> Option<nat>
    decreases k,
{
    if k == 0 {
        None
    } else {
        match first_target(a, b, used, c, (k - 1) as nat) {
            Some(j) => Some(j),
            None => if rename_target(a, b, used, c, k - 1) { Some((k - 1) as nat) } else { None },
        }
    }
}

/// The entries for the first `i` A files, with the B files taken as new
/// names: a file at the same path on both sides is `equal` when the digests
/// of the contents agree, else `modified`; a file only in A is `renamed` to
/// the first B file only in B, not taken yet, with the same digest, else
/// `removed`.
pub open spec fn compare_prefix(
    a: Seq<(Seq<char>, Seq<u8>)>,
    b: Seq<(Seq<char>, Seq<u8>)>,
    i: nat,
) -> (Seq<(Seq<char>, Seq<char>, Seq<char>)>, Seq<bool>)
    decreases i,
{
    if i == 0 {
        (Seq::empty(), Seq::new(b.len(), |j: int| false))
    } else {
        let (entries, used) = compare_prefix(a, b, (i - 1) as nat);
        let f = a[i - 1];
        match find_path(b, f.0, b.len()) {
            Some(j) => {
                let status = if sha256_spec(b[j as int].1) == sha256_spec(f.1) { "equal"@ } else { "modified"@ };
                (entries.push((status, f.0, b[j as int].0)), used)
            },
            None => match first_target(a, b, used, f.1, b.len()) {
                Some(j) => (entries.push(("renamed"@, f.0, b[j as int].0)), used.update(j as int, true)),
                None => (entries.push(("removed"@, f.0, Seq::empty())), used),
            },
        }
    }
}

/// The B files among the first `k` that are only in B and not taken as new
/// names, as `added` entries.
pub open spec fn added_rest(
    a: Seq<(Seq<char>, Seq<u8>)>,
    b: Seq<(Seq<char>, Seq<u8>)>,
    used: Seq<bool>,
    k: nat,
) -> Seq<(Seq<char>, Seq<char>, Seq<char>)>
    decreases k,
{
    if k == 0 {
        Seq::empty()
    } else {
        let prev = added_rest(a, b, used, (k - 1) as nat);
        if !has_path(a, b[k - 1].0) && !used[k - 1] {
            prev.push(("added"@, Seq::empty(), b[k - 1].0))
        } else {
            prev
        }
    }
}

/// The entries of a folder comparison: one per A file in A's order, then
/// the B files left over, in B's order.
pub open spec fn compare_spec(
    a: Seq<(Seq<char>, Seq<u8>)>,
    b: Seq<(Seq<char>, Seq<u8>)>,
) -> Seq<(Seq<char>, Seq<char>, Seq<char>)> {
    let (entries, used) = compare_prefix(a, b, a.len());
    entries + added_rest(a, b, used, b.len())
}

proof fn lemma_compare_prefix_len(a: Seq<(Seq<char>, Seq<u8>)>, b: Seq<(Seq<char>, Seq<u8>)>, i: nat)
    requires
        i <= a.len(),
    ensures
        compare_prefix(a, b, i).1.len() == b.len(),
        compare_prefix(a, b, i).0.len() == i,
    decreases i,
{
    if i > 0 {
        lemma_compare_prefix_len(a, b, (i - 1) as nat);
        let (entries, used) = compare_prefix(a, b, (i - 1) as nat);
        lemma_first_target_bound(a, b, used, a[i - 1].1, b.len());
    }
}

proof fn lemma_first_target_bound(
    a: Seq<(Seq<char>, Seq<u8>)>,
    b: Seq<(Seq<char>, Seq<u8>)>,
    used: Seq<bool>,
    c: Seq<u8>,
    k: nat,
)
    ensures
        first_target(a, b, used, c, k) matches Some(j) ==> j < k && rename_target(a, b, used, c, j as int),
    decreases k,
{
    if k > 0 {
        lemma_first_target_bound(a, b, used, c, (k - 1) as nat);
    }
}

proof fn lemma_find_path_bound(files: Seq<(Seq<char>, Seq<u8>)>, p: Seq<char>, k: nat)
    ensures
        find_path(files, p, k) matches Some(j) ==> j < k && files[j as int].0 == p,
    decreases k,
{
    if k > 0 {
        lemma_find_path_bound(files, p, (k - 1) as nat);
    }
}

/// Whether the two byte strings are equal.
fn bytes_eq(x: &Vec<u8>, y: &Vec<u8>) -> (b: bool)
    ensures
        b == (x@ == y@),
{
    if x.len() != y.len() {
        return false;
    }
    let mut i: usize = 0;
    while i < x.len()
        invariant
            x@.len() == y@.len(),
            i <= x@.len(),
            forall|k: int| 0 <= k < i ==> x@[k] == y@[k],
        decreases x@.len() - i,
    {
        if x[i] != y[i] {
            return false;
        }
        i += 1;
    }
    assert(x@ =~= y@);
    true
}

/// The first file with path `p`, if any.
fn find(files: &Vec<FolderFile>, p: &String) -> (r: Option<usize>)
    ensures
        match r {
            Some(j) => find_path(files_view(files@), p@, files@.len() as nat) == Some(j as nat),
            None => find_path(files_view(files@), p@, files@.len() as nat) is None,
        },
{
    let ghost fv = files_view(files@);
    let mut k: usize = 0;
    while k < files.len()
        invariant
            fv == files_view(files@),
            k <= files@.len(),
            find_path(fv, p@, k as nat) is None,
        decreases files@.len() - k,
    {
        assert(fv[k as int].0 == files@[k as int].path@);
        if str_eq(files[k].path.as_str(), p.as_str()) {
            proof {
                lemma_find_path_extends(fv, p@, k as nat + 1);
            }
            return Some(k);
        }
        k += 1;
    }
    None
}

proof fn lemma_find_path_extends(files: Seq<(Seq<char>, Seq<u8>)>, p: Seq<char>, k: nat)
    requires
        k <= files.len(),
        find_path(files, p, k) is Some,
    ensures
        find_path(files, p, files.len()) == find_path(files, p, k),
    decreases files.len() - k,
{
    if k < files.len() {
        lemma_find_path_extends(files, p, k + 1);
    }
}

proof fn lemma_first_target_extends(
    a: Seq<(Seq<char>, Seq<u8>)>,
    b: Seq<(Seq<char>, Seq<u8>)>,
    used: Seq<bool>,
    c: Seq<u8>,
    k: nat,
)
    requires
        k <= b.len(),
        first_target(a, b, used, c, k) is Some,
    ensures
        first_target(a, b, used, c, b.len()) == first_target(a, b, used, c, k),
    decreases b.len() - k,
{
    if k < b.len() {
        lemma_first_target_extends(a, b, used, c, k + 1);
    }
}

fn status_text(s: &str) -> (r: String)
    ensures
        r@ == s@,
{
    String::from_str(s)
}

/// The entries of a folder comparison of two file lists.
pub fn compare_files(files_a: &Vec<FolderFile>, files_b: &Vec<FolderFile>) -> (r: Vec<FolderEntry>)
    ensures
        entries_view(r@) == compare_spec(files_view(files_a@), files_view(files_b@)),
{
    let ghost a = files_view(files_a@);
    let ghost b = files_view(files_b@);
    let mut hash_a: Vec<Vec<u8>> = Vec::new();
    let mut i: usize = 0;
    while i < files_a.len()
        invariant
            i <= files_a@.len(),
            hash_a@.len() == i,
            forall|k: int| 0 <= k < i ==> (#[trigger] hash_a@[k])@ == sha256_spec(files_a@[k].content@),
        decreases files_a@.len() - i,
    {
        hash_a.push(sha256(files_a[i].content.as_slice()));
        i += 1;
    }
    let mut hash_b: Vec<Vec<u8>> = Vec::new();
    let mut j: usize = 0;
    while j < files_b.len()
        invariant
            j <= files_b@.len(),
            hash_b@.len() == j,
            forall|k: int| 0 <= k < j ==> (#[trigger] hash_b@[k])@ == sha256_spec(files_b@[k].content@),
        decreases files_b@.len() - j,
    {
        hash_b.push(sha256(files_b[j].content.as_slice()));
        j += 1;
    }
    // Which B files have no counterpart by path in A.
    let mut only_b: Vec<bool> = Vec::new();
    let mut j: usize = 0;
    while j < files_b.len()
        invariant
            a == files_view(files_a@),
            b == files_view(files_b@),
            j <= files_b@.len(),
            only_b@.len() == j,
            forall|k: int| 0 <= k < j ==> (#[trigger] only_b@[k]) == !has_path(a, b[k].0),
        decreases files_b@.len() - j,
    {
        assert(b[j as int].0 == files_b@[j as int].path@);
        let found = find(files_a, &files_b[j].path);
        only_b.push(found.is_none());
        j += 1;
    }
    let mut entries: Vec<FolderEntry> = Vec::new();
    let mut used: Vec<bool> = vec![false; files_b.len()];
    proof {
        assert(used@ =~= Seq::new(b.len(), |j: int| false));
    }
    let mut i: usize = 0;
    while i < files_a.len()
        invariant
            a == files_view(files_a@),
            b == files_view(files_b@),
            i <= files_a@.len(),
            hash_a@.len() == files_a@.len(),
            forall|k: int| 0 <= k < files_a@.len() ==> (#[trigger] hash_a@[k])@ == sha256_spec(files_a@[k].content@),
            hash_b@.len() == files_b@.len(),
            forall|k: int| 0 <= k < files_b@.len() ==> (#[trigger] hash_b@[k])@ == sha256_spec(files_b@[k].content@),
            only_b@.len() == files_b@.len(),
            forall|k: int| 0 <= k < files_b@.len() ==> (#[trigger] only_b@[k]) == !has_path(a, b[k].0),
            entries_view(entries@) == compare_prefix(a, b, i as nat).0,
            used@ == compare_prefix(a, b, i as nat).1,
            used@.len() == files_b@.len(),
        decreases files_a@.len() - i,
    {
        proof {
            lemma_compare_prefix_len(a, b, i as nat);
        }
        let ghost used0 = used@;
        let ghost prev = entries@;
        let ghost f = a[i as int];
        assert(f.0 == files_a@[i as int].path@ && f.1 == files_a@[i as int].content@);
        let e = match find(files_b, &files_a[i].path) {
            Some(jj) => {
                proof {
                    lemma_find_path_bound(b, f.0, b.len());
                }
                assert(b[jj as int].1 == files_b@[jj as int].content@);
                assert(b[jj as int].0 == files_b@[jj as int].path@);
                let same = bytes_eq(&hash_a[i], &hash_b[jj]);
                let status = if same { status_text("equal") } else { status_text("modified") };
                FolderEntry { status, path_a: files_a[i].path.clone(), path_b: files_b[jj].path.clone() }
            },
            None => {
                let mut target: Option<usize> = None;
                let mut k: usize = 0;
                while k < files_b.len()
                    invariant
                        a == files_view(files_a@),
                        b == files_view(files_b@),
                        i < files_a@.len(),
                        f == a[i as int],
                        k <= files_b@.len(),
                        used@ == used0,
                        used0.len() == files_b@.len(),
                        hash_a@.len() == files_a@.len(),
                        forall|m: int| 0 <= m < files_a@.len() ==> (#[trigger] hash_a@[m])@ == sha256_spec(files_a@[m].content@),
                        hash_b@.len() == files_b@.len(),
                        forall|m: int| 0 <= m < files_b@.len() ==> (#[trigger] hash_b@[m])@ == sha256_spec(files_b@[m].content@),
                        only_b@.len() == files_b@.len(),
                        forall|m: int| 0 <= m < files_b@.len() ==> (#[trigger] only_b@[m]) == !has_path(a, b[m].0),
                        target is None ==> first_target(a, b, used0, f.1, k as nat) is None,
                        target matches Some(t) ==> first_target(a, b, used0, f.1, b.len()) == Some(t as nat),
                    decreases files_b@.len() - k,
                {
                    if target.is_none() {
                        assert(b[k as int].1 == files_b@[k as int].content@);
                        assert(f.1 == files_a@[i as int].content@);
                        if only_b[k] && !used[k] && bytes_eq(&hash_b[k], &hash_a[i]) {
                            proof {
                                assert(rename_target(a, b, used0, f.1, k as int));
                                lemma_first_target_extends(a, b, used0, f.1, k as nat + 1);
                            }
                            target = Some(k);
                        } else {
                            assert(!rename_target(a, b, used0, f.1, k as int));
                        }
                    }
                    k += 1;
                }
                proof {
                    lemma_first_target_bound(a, b, used0, f.1, b.len());
                }
                match target {
                    Some(t) => {
                        used.set(t, true);
                        assert(b[t as int].0 == files_b@[t as int].path@);
                        FolderEntry {
                            status: status_text("renamed"),
                            path_a: files_a[i].path.clone(),
                            path_b: files_b[t].path.clone(),
                        }
                    },
                    None => FolderEntry { status: status_text("removed"), path_a: files_a[i].path.clone(), path_b: String::new() },
                }
            },
        };
        entries.push(e);
        assert(entries_view(entries@) =~= entries_view(prev).push(entry_view(e)));
        i += 1;
    }
    let ghost main = entries@;
    let ghost used_all = used@;
    let mut j: usize = 0;
    while j < files_b.len()
        invariant
            a == files_view(files_a@),
            b == files_view(files_b@),
            j <= files_b@.len(),
            used@ == used_all,
            used_all.len() == files_b@.len(),
            only_b@.len() == files_b@.len(),
            forall|k: int| 0 <= k < files_b@.len() ==> (#[trigger] only_b@[k]) == !has_path(a, b[k].0),
            entries_view(entries@) == entries_view(main) + added_rest(a, b, used_all, j as nat),
        decreases files_b@.len() - j,
    {
        if only_b[j] && !used[j] {
            assert(b[j as int].0 == files_b@[j as int].path@);
            let e = FolderEntry { status: status_text("added"), path_a: String::new(), path_b: files_b[j].path.clone() };
            let ghost prev = entries@;
            entries.push(e);
            assert(entries_view(entries@) =~= entries_view(prev).push(entry_view(e)));
        }
        j += 1;
    }
    entries
}

/// Compare two folders given by their files as read (path relative to the
/// folder, content), or by the error that reading them gave, which is
/// passed on, side A first: one entry per A file (`equal`, `modified`,
/// `renamed` or `removed`), then the files added in B.
pub fn compare(
    path_a: &str,
    path_b: &str,
    files_a: std::io::Result<Vec<FolderFile>>,
    files_b: std::io::Result<Vec<FolderFile>>,
) -> (r: std::io::Result<Comparison>)
    ensures
        files_a matches Err(e) ==> r matches Err(x) && x == e,
        files_a is Ok ==> (files_b matches Err(e) ==> r matches Err(x) && x == e),
        files_a matches Ok(a) ==> (files_b matches Ok(b) ==> r matches Ok(c) && {
            &&& c.path_a@ == path_a@
            &&& c.path_b@ == path_b@
            &&& entries_view(c.entries@) == compare_spec(files_view(a@), files_view(b@))
        }),
{
    let a = match files_a {
        Ok(v) => v,
        Err(e) => return Err(e),
    };
    let b = match files_b {
        Ok(v) => v,
        Err(e) => return Err(e),
    };
    let entries = compare_files(&a, &b);
    Ok(Comparison { path_a: String::from_str(path_a), path_b: String::from_str(path_b), entries })
}

} // verus!

verus! {

/// No two files share a path.
pub open spec fn distinct_paths(files: Seq<(Seq<char>, Seq<u8>)>) -> bool {
    forall|i: int, j: int| 0 <= i < j < files.len() ==> (#[trigger] files[i]).0 != (#[trigger] files[j]).0
}

proof fn lemma_find_own_path(files: Seq<(Seq<char>, Seq<u8>)>, i: int, k: nat)
    requires
        distinct_paths(files),
        0 <= i < k <= files.len(),
    ensures
        find_path(files, files[i].0, k) == Some(i as nat),
    decreases k,
{
    if k - 1 > i {
        lemma_find_own_path(files, i, (k - 1) as nat);
    } else {
        lemma_find_none(files, files[i].0, i as nat);
    }
}

proof fn lemma_find_none(files: Seq<(Seq<char>, Seq<u8>)>, p: Seq<char>, k: nat)
    requires
        distinct_paths(files),
        k < files.len(),
        files[k as int].0 == p,
    ensures
        find_path(files, p, k) is None,
    decreases k,
{
    if k > 0 {
        lemma_find_none_before(files, p, k, (k - 1) as nat);
    }
}

proof fn lemma_find_none_before(files: Seq<(Seq<char>, Seq<u8>)>, p: Seq<char>, owner: nat, k: nat)
    requires
        distinct_paths(files),
        owner < files.len(),
        files[owner as int].0 == p,
        k < owner,
    ensures
        find_path(files, p, k + 1) is None,
    decreases k,
{
    if k > 0 {
        lemma_find_none_before(files, p, owner, (k - 1) as nat);
    } else {
        assert(find_path(files, p, 0) is None);
    }
    assert(files[k as int].0 != files[owner as int].0);
    assert(find_path(files, p, k) is None);
}

proof fn lemma_compare_self_prefix(a: Seq<(Seq<char>, Seq<u8>)>, i: nat)
    requires
        distinct_paths(a),
        i <= a.len(),
    ensures
        compare_prefix(a, a, i).0 == Seq::new(i, |k: int| ("equal"@, a[k].0, a[k].0)),
        compare_prefix(a, a, i).1 == Seq::new(a.len(), |j: int| false),
    decreases i,
{
    if i > 0 {
        let x = (i - 1) as int;
        lemma_compare_self_prefix(a, (i - 1) as nat);
        lemma_find_own_path(a, x, a.len());
        assert(compare_prefix(a, a, i).0 =~= Seq::new(i, |k: int| ("equal"@, a[k].0, a[k].0)));
    }
}

proof fn lemma_added_rest_none(a: Seq<(Seq<char>, Seq<u8>)>, used: Seq<bool>, k: nat)
    requires
        distinct_paths(a),
        k <= a.len(),
    ensures
        added_rest(a, a, used, k) == Seq::<(Seq<char>, Seq<char>, Seq<char>)>::empty(),
    decreases k,
{
    if k > 0 {
        lemma_added_rest_none(a, used, (k - 1) as nat);
        lemma_find_own_path(a, k - 1, a.len());
    }
}

/// A folder compared with itself, where no two files share a path: each
/// file is `equal` to itself, in order, and nothing is added.
pub proof fn lemma_identical_folders(a: Seq<(Seq<char>, Seq<u8>)>)
    requires
        distinct_paths(a),
    ensures
        compare_spec(a, a) == Seq::new(a.len(), |k: int| ("equal"@, a[k].0, a[k].0)),
{
    lemma_compare_self_prefix(a, a.len());
    lemma_added_rest_none(a, Seq::new(a.len(), |j: int| false), a.len());
    assert(compare_spec(a, a) =~= Seq::new(a.len(), |k: int| ("equal"@, a[k].0, a[k].0)));
}

} // verus!

verus! {

proof fn lemma_no_path(files: Seq<(Seq<char>, Seq<u8>)>, p: Seq<char>, k: nat)
    requires
        k <= files.len(),
        find_path(files, p, k) is None,
    ensures
        forall|i: int| 0 <= i < k ==> (#[trigger] files[i]).0 != p,
    decreases k,
{
    if k > 0 {
        lemma_no_path(files, p, (k - 1) as nat);
    }
}

/// What holds of the entries for the first `i` A files and the B files
/// they take as new names.
spec fn prefix_facts(
    a: Seq<(Seq<char>, Seq<u8>)>,
    b: Seq<(Seq<char>, Seq<u8>)>,
    entries: Seq<(Seq<char>, Seq<char>, Seq<char>)>,
    used: Seq<bool>,
) -> bool {
    &&& used.len() == b.len()
    &&& forall|k: int|
        0 <= k < entries.len() ==> {
            let e = #[trigger] entries[k];
            &&& e.0 == "equal"@ || e.0 == "modified"@ || e.0 == "renamed"@ || e.0 == "removed"@
            &&& (e.0 == "equal"@ || e.0 == "modified"@ ==> e.2 == a[k].0)
            &&& (e.0 == "removed"@ ==> e.2 == Seq::<char>::empty())
            &&& (e.0 == "renamed"@ ==> exists|j: int|
                0 <= j < b.len() && #[trigger] used[j] && b[j].0 == e.2 && !has_path(a, b[j].0))
        }
    &&& distinct_paths(b) ==> forall|k1: int, k2: int|
        0 <= k1 < entries.len() && 0 <= k2 < entries.len() && k1 != k2 && (#[trigger] entries[k1]).0 == "renamed"@
            && (#[trigger] entries[k2]).0 == "renamed"@ ==> entries[k1].2 != entries[k2].2
}

proof fn lemma_statuses_differ()
    ensures
        "equal"@ != "modified"@,
        "equal"@ != "renamed"@,
        "equal"@ != "removed"@,
        "equal"@ != "added"@,
        "modified"@ != "renamed"@,
        "modified"@ != "removed"@,
        "modified"@ != "added"@,
        "renamed"@ != "removed"@,
        "renamed"@ != "added"@,
        "removed"@ != "added"@,
{
    reveal_strlit("equal");
    reveal_strlit("modified");
    reveal_strlit("renamed");
    reveal_strlit("removed");
    reveal_strlit("added");
    assert("equal"@[0] != "modified"@[0] && "equal"@[0] != "renamed"@[0] && "equal"@[0] != "added"@[0]);
    assert("modified"@[0] != "renamed"@[0] && "modified"@[0] != "added"@[0] && "renamed"@[0] != "added"@[0]);
    assert("removed"@[0] != "added"@[0] && "removed"@[0] != "modified"@[0] && "removed"@[0] != "equal"@[0]);
    assert("renamed"@[2] != "removed"@[2]);
}

proof fn lemma_prefix_facts(a: Seq<(Seq<char>, Seq<u8>)>, b: Seq<(Seq<char>, Seq<u8>)>, i: nat)
    requires
        i <= a.len(),
    ensures
        prefix_facts(a, b, compare_prefix(a, b, i).0, compare_prefix(a, b, i).1),
    decreases i,
{
    lemma_statuses_differ();
    lemma_compare_prefix_len(a, b, i);
    if i > 0 {
        let x = (i - 1) as nat;
        lemma_prefix_facts(a, b, x);
        lemma_compare_prefix_len(a, b, x);
        let (entries, used) = compare_prefix(a, b, x);
        let (ne, nu) = compare_prefix(a, b, i);
        let f = a[x as int];
        lemma_find_path_bound(b, f.0, b.len());
        lemma_first_target_bound(a, b, used, f.1, b.len());
        assert forall|k: int| 0 <= k < ne.len() implies {
            let e = #[trigger] ne[k];
            &&& e.0 == "equal"@ || e.0 == "modified"@ || e.0 == "renamed"@ || e.0 == "removed"@
            &&& (e.0 == "equal"@ || e.0 == "modified"@ ==> e.2 == a[k].0)
            &&& (e.0 == "removed"@ ==> e.2 == Seq::<char>::empty())
            &&& (e.0 == "renamed"@ ==> exists|j: int|
                0 <= j < b.len() && #[trigger] nu[j] && b[j].0 == e.2 && !has_path(a, b[j].0))
        } by {
            if k < entries.len() {
                assert(ne[k] == entries[k]);
                if ne[k].0 == "renamed"@ {
                    let j = choose|j: int| 0 <= j < b.len() && #[trigger] used[j] && b[j].0 == entries[k].2 && !has_path(a, b[j].0);
                    assert(nu[j]);
                }
            } else {
                if ne[k].0 == "renamed"@ {
                    let j = first_target(a, b, used, f.1, b.len())->0;
                    assert(nu[j as int]);
                }
            }
        }
        if distinct_paths(b) {
            assert forall|k1: int, k2: int|
                0 <= k1 < ne.len() && 0 <= k2 < ne.len() && k1 != k2 && (#[trigger] ne[k1]).0 == "renamed"@
                    && (#[trigger] ne[k2]).0 == "renamed"@ implies ne[k1].2 != ne[k2].2 by {
                if k1 < entries.len() && k2 < entries.len() {
                    assert(ne[k1] == entries[k1] && ne[k2] == entries[k2]);
                } else {
                    let (old_k, new_k) = if k1 < entries.len() { (k1, k2) } else { (k2, k1) };
                    assert(ne[old_k] == entries[old_k]);
                    let j0 = choose|j: int| 0 <= j < b.len() && #[trigger] used[j] && b[j].0 == entries[old_k].2 && !has_path(a, b[j].0);
                    let j = first_target(a, b, used, f.1, b.len())->0;
                    assert(!used[j as int]);
                    assert(j0 != j);
                    assert(b[j0].0 != b[j as int].0);
                }
            }
        }
    } else {
        assert(compare_prefix(a, b, 0).0.len() == 0);
    }
}

/// What holds of the `added` entries for the first `k` B files.
proof fn lemma_added_facts(a: Seq<(Seq<char>, Seq<u8>)>, b: Seq<(Seq<char>, Seq<u8>)>, used: Seq<bool>, k: nat)
    requires
        k <= b.len(),
        used.len() == b.len(),
    ensures
        forall|m: int|
            0 <= m < added_rest(a, b, used, k).len() ==> exists|j: int|
                0 <= j < k && !used[j] && !has_path(a, b[j].0) && #[trigger] added_rest(a, b, used, k)[m] == (
                    "added"@,
                    Seq::<char>::empty(),
                    b[j].0,
                ),
        distinct_paths(b) ==> forall|m1: int, m2: int|
            0 <= m1 < added_rest(a, b, used, k).len() && 0 <= m2 < added_rest(a, b, used, k).len() && m1 != m2
                ==> (#[trigger] added_rest(a, b, used, k)[m1]).2 != (#[trigger] added_rest(a, b, used, k)[m2]).2,
    decreases k,
{
    if k > 0 {
        let k1 = (k - 1) as nat;
        lemma_added_facts(a, b, used, k1);
        let prev = added_rest(a, b, used, k1);
        let l = added_rest(a, b, used, k);
        assert forall|m: int| 0 <= m < l.len() implies exists|j: int|
            0 <= j < k && !used[j] && !has_path(a, b[j].0) && #[trigger] l[m] == ("added"@, Seq::<char>::empty(), b[j].0) by {
            if m < prev.len() {
                assert(l[m] == prev[m]);
                let j = choose|j: int|
                    0 <= j < k1 && !used[j] && !has_path(a, b[j].0) && #[trigger] prev[m] == ("added"@, Seq::<char>::empty(), b[j].0);
            } else {
                assert(l[m] == ("added"@, Seq::<char>::empty(), b[k1 as int].0));
            }
        }
        if distinct_paths(b) {
            assert forall|m1: int, m2: int|
                0 <= m1 < l.len() && 0 <= m2 < l.len() && m1 != m2 implies (#[trigger] l[m1]).2 != (#[trigger] l[m2]).2 by {
                if m1 < prev.len() && m2 < prev.len() {
                    assert(l[m1] == prev[m1] && l[m2] == prev[m2]);
                } else {
                    let old_m = if m1 < prev.len() { m1 } else { m2 };
                    assert(l[old_m] == prev[old_m]);
                    let j = choose|j: int|
                        0 <= j < k1 && !used[j] && !has_path(a, b[j].0) && #[trigger] prev[old_m] == ("added"@, Seq::<char>::empty(), b[j].0);
                    assert(b[j].0 != b[k1 as int].0);
                }
            }
        }
    }
}

/// Renames and matches in a folder comparison are sound: a `renamed` entry
/// names as the file's new path a file of folder B that folder A does not
/// hold, and, where neither folder holds two files at one path, no file of B
/// is named by two entries (a B file matched by path is never also the new
/// name of another file, and each new name is used once).
pub proof fn lemma_folder_entries_law(a: Seq<(Seq<char>, Seq<u8>)>, b: Seq<(Seq<char>, Seq<u8>)>)
    ensures
        forall|k: int|
            0 <= k < compare_spec(a, b).len() && (#[trigger] compare_spec(a, b)[k]).0 == "renamed"@ ==> {
                &&& forall|i: int| 0 <= i < a.len() ==> (#[trigger] a[i]).0 != compare_spec(a, b)[k].2
                &&& exists|j: int| 0 <= j < b.len() && (#[trigger] b[j]).0 == compare_spec(a, b)[k].2
            },
        distinct_paths(a) && distinct_paths(b) ==> forall|k1: int, k2: int|
            0 <= k1 < compare_spec(a, b).len() && 0 <= k2 < compare_spec(a, b).len() && k1 != k2
                && (#[trigger] compare_spec(a, b)[k1]).0 != "removed"@ && (#[trigger] compare_spec(a, b)[k2]).0
                != "removed"@ ==> compare_spec(a, b)[k1].2 != compare_spec(a, b)[k2].2,
{
    lemma_statuses_differ();
    lemma_prefix_facts(a, b, a.len());
    lemma_compare_prefix_len(a, b, a.len());
    let (entries, used) = compare_prefix(a, b, a.len());
    lemma_added_facts(a, b, used, b.len());
    let l = added_rest(a, b, used, b.len());
    let cs = compare_spec(a, b);
    assert(cs == entries + l);
    let n = entries.len() as int;
    // Where an entry's new path lies outside folder A.
    assert forall|k: int| 0 <= k < cs.len() && (#[trigger] cs[k]).0 != "removed"@ && cs[k].0 != "equal"@
        && cs[k].0 != "modified"@ implies (forall|i: int| 0 <= i < a.len() ==> (#[trigger] a[i]).0 != cs[k].2)
        && exists|j: int| 0 <= j < b.len() && !used[j] == (cs[k].0 == "added"@) && (#[trigger] b[j]).0 == cs[k].2 by {
        if k < n {
            assert(cs[k] == entries[k]);
            let j = choose|j: int| 0 <= j < b.len() && #[trigger] used[j] && b[j].0 == entries[k].2 && !has_path(a, b[j].0);
            lemma_no_path(a, b[j].0, a.len());
        } else {
            assert(cs[k] == l[k - n]);
            let j = choose|j: int|
                0 <= j < b.len() && !used[j] && !has_path(a, b[j].0) && #[trigger] l[k - n] == ("added"@, Seq::<char>::empty(), b[j].0);
            lemma_no_path(a, b[j].0, a.len());
        }
    }
    if distinct_paths(a) && distinct_paths(b) {
        assert forall|k1: int, k2: int|
            0 <= k1 < cs.len() && 0 <= k2 < cs.len() && k1 != k2 && (#[trigger] cs[k1]).0 != "removed"@
                && (#[trigger] cs[k2]).0 != "removed"@ implies cs[k1].2 != cs[k2].2 by {
            let in_a1 = cs[k1].0 == "equal"@ || cs[k1].0 == "modified"@;
            let in_a2 = cs[k2].0 == "equal"@ || cs[k2].0 == "modified"@;
            if k1 < n {
                assert(cs[k1] == entries[k1]);
            } else {
                assert(cs[k1] == l[k1 - n]);
            }
            if k2 < n {
                assert(cs[k2] == entries[k2]);
            } else {
                assert(cs[k2] == l[k2 - n]);
            }
            if in_a1 && in_a2 {
                assert(k1 < n && k2 < n);
                assert(cs[k1].2 == a[k1].0 && cs[k2].2 == a[k2].0);
                if k1 < k2 {
                    assert(a[k1].0 != a[k2].0);
                } else {
                    assert(a[k2].0 != a[k1].0);
                }
            } else if in_a1 {
                assert(cs[k1].2 == a[k1].0);
                assert(a[k1].0 != cs[k2].2);
            } else if in_a2 {
                assert(cs[k2].2 == a[k2].0);
                assert(a[k2].0 != cs[k1].2);
            } else if k1 < n && k2 < n {
                assert(entries[k1].0 == "renamed"@ && entries[k2].0 == "renamed"@);
            } else if k1 >= n && k2 >= n {
                assert(l[k1 - n].2 != l[k2 - n].2);
            } else {
                let (kr, ka) = if k1 < n { (k1, k2) } else { (k2, k1) };
                let jr = choose|j: int| 0 <= j < b.len() && #[trigger] used[j] && b[j].0 == entries[kr].2 && !has_path(a, b[j].0);
                let ja = choose|j: int|
                    0 <= j < b.len() && !used[j] && !has_path(a, b[j].0) && #[trigger] l[ka - n] == ("added"@, Seq::<char>::empty(), b[j].0);
                assert(jr != ja);
                assert(b[jr].0 != b[ja].0);
            }
        }
    }
}

} // verus!
