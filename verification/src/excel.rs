//! Excel (.xlsx/.xls/.xlsm) diff: the sheets of both workbooks, their cells
//! as strings, aligned row by row and column by column.

use vstd::prelude::*;

use sha2::Digest;

use crate::grid::{change_counts, grid_diff, grid_spec, GridOptions, GridResult, GridView, Init};
use crate::order::{lemma_lex_irreflexive, lemma_lex_total, lemma_lex_transitive, lex_lt, str_lt};
use crate::strs::{debug_str, debug_str_spec, grid_view, str_eq, strings_view, trim, trim_spec};

verus! {

/// Rows read from a sheet beyond this many are left out.
pub const MAX_EXCEL_ROWS: usize = 50000;

/// Cells of a row beyond this many are left out.
pub const MAX_EXCEL_COLS: usize = 256;

/// Options controlling how [`excel_diff_with`] aligns each sheet.
///
/// The default is a zero-assumption positional alignment (identity init, no
/// column locking), the same behaviour as [`excel_diff`]. Callers that know
/// their sheets are tabular (a header row followed by data rows) can opt into
/// header-based column alignment and column locking.
#[derive(Debug, Clone)]
pub struct ExcelOptions {
    /// Detect each sheet's header row and seed column alignment from it.
    pub detect_header: bool,
    /// Lock the column alignment after initialization.
    pub lock_columns: bool,
}

impl Default for ExcelOptions {
    fn default() -> (r: Self)
        ensures
            !r.detect_header,
            !r.lock_columns,
    {
        ExcelOptions { detect_header: false, lock_columns: false }
    }
}

/// `s` strictly ascending in string order.
pub open spec fn strictly_sorted(s: Seq<Seq<char>>) -> bool {
    forall|i: int, j: int| 0 <= i < j < s.len() ==> lex_lt(#[trigger] s[i], #[trigger] s[j])
}

/// The union of two name lists, each name once, in string order.
pub open spec fn is_sorted_union(r: Seq<Seq<char>>, a: Seq<Seq<char>>, b: Seq<Seq<char>>) -> bool {
    &&& strictly_sorted(r)
    &&& forall|x: Seq<char>| #[trigger] r.contains(x) <==> (a.contains(x) || b.contains(x))
}

/// A strictly ascending list is fixed by the names it holds: two such lists
/// with the same names are equal.
pub proof fn lemma_strictly_sorted_unique(r1: Seq<Seq<char>>, r2: Seq<Seq<char>>)
    requires
        strictly_sorted(r1),
        strictly_sorted(r2),
        forall|x: Seq<char>| r1.contains(x) <==> r2.contains(x),
    ensures
        r1 == r2,
    decreases r1.len(),
{
    if r1.len() == 0 {
        if r2.len() > 0 {
            assert(r2.contains(r2[0]));
        }
        assert(r1 =~= r2);
    } else {
        assert(r1.contains(r1[0]));
        assert(r2.len() > 0);
        assert(r2.contains(r2[0]));
        let k = choose|k: int| 0 <= k < r2.len() && r2[k] == r1[0];
        let m = choose|m: int| 0 <= m < r1.len() && r1[m] == r2[0];
        if k > 0 {
            assert(lex_lt(r2[0], r2[k]));
            if m == 0 {
                lemma_lex_irreflexive(r1[0]);
            } else {
                assert(lex_lt(r1[0], r1[m]));
                lemma_lex_transitive(r1[0], r1[m], r1[0]);
                lemma_lex_irreflexive(r1[0]);
            }
        }
        assert(r1[0] == r2[0]);
        let t1 = r1.drop_first();
        let t2 = r2.drop_first();
        assert(strictly_sorted(t1)) by {
            assert forall|i: int, j: int| 0 <= i < j < t1.len() implies lex_lt(#[trigger] t1[i], #[trigger] t1[j]) by {
                assert(t1[i] == r1[i + 1] && t1[j] == r1[j + 1]);
            }
        }
        assert(strictly_sorted(t2)) by {
            assert forall|i: int, j: int| 0 <= i < j < t2.len() implies lex_lt(#[trigger] t2[i], #[trigger] t2[j]) by {
                assert(t2[i] == r2[i + 1] && t2[j] == r2[j + 1]);
            }
        }
        assert forall|x: Seq<char>| t1.contains(x) <==> t2.contains(x) by {
            if t1.contains(x) {
                let i = choose|i: int| 0 <= i < t1.len() && t1[i] == x;
                assert(r1[i + 1] == x);
                assert(lex_lt(r1[0], x));
                assert(r2.contains(x));
                let j = choose|j: int| 0 <= j < r2.len() && r2[j] == x;
                if j == 0 {
                    lemma_lex_irreflexive(x);
                }
                assert(t2[j - 1] == x);
            }
            if t2.contains(x) {
                let i = choose|i: int| 0 <= i < t2.len() && t2[i] == x;
                assert(r2[i + 1] == x);
                assert(lex_lt(r2[0], x));
                assert(r1.contains(x));
                let j = choose|j: int| 0 <= j < r1.len() && r1[j] == x;
                if j == 0 {
                    lemma_lex_irreflexive(x);
                }
                assert(t1[j - 1] == x);
            }
        }
        lemma_strictly_sorted_unique(t1, t2);
        assert(r1 =~= seq![r1[0]] + t1);
        assert(r2 =~= seq![r2[0]] + t2);
    }
}

/// The sorted union of two name lists is one list: any two lists that are
/// sorted unions of the same sides are equal.
pub proof fn lemma_sorted_union_unique(r1: Seq<Seq<char>>, r2: Seq<Seq<char>>, a: Seq<Seq<char>>, b: Seq<Seq<char>>)
    requires
        is_sorted_union(r1, a, b),
        is_sorted_union(r2, a, b),
    ensures
        r1 == r2,
{
    assert forall|x: Seq<char>| r1.contains(x) <==> r2.contains(x) by {
        assert(r1.contains(x) <==> (a.contains(x) || b.contains(x)));
        assert(r2.contains(x) <==> (a.contains(x) || b.contains(x)));
    }
    lemma_strictly_sorted_unique(r1, r2);
}

/// Insert `x` into the sorted, duplicate-free list unless it is there.
fn insert_sorted(r: &mut Vec<String>, x: &String)
    requires
        strictly_sorted(strings_view(old(r)@)),
    ensures
        strictly_sorted(strings_view(final(r)@)),
        forall|y: Seq<char>| #[trigger] strings_view(final(r)@).contains(y) <==> (strings_view(old(r)@).contains(y) || y == x@),
{
    let ghost s = strings_view(r@);
    let mut p: usize = 0;
    while p < r.len() && str_lt(r[p].as_str(), x.as_str())
        invariant
            s == strings_view(r@),
            p <= r@.len(),
            forall|k: int| 0 <= k < p ==> lex_lt(#[trigger] s[k], x@),
        decreases r@.len() - p,
    {
        p += 1;
    }
    if p < r.len() && str_eq(r[p].as_str(), x.as_str()) {
        assert(s[p as int] == x@);
        return;
    }
    proof {
        if p < s.len() {
            lemma_lex_total(s[p as int], x@);
        }
        assert forall|k: int| 0 <= k < s.len() implies s[k] != x@ by {
            if k < p {
                lemma_lex_irreflexive(x@);
            } else if k > p {
                lemma_lex_transitive(x@, s[p as int], s[k]);
                lemma_lex_irreflexive(x@);
            }
        }
    }
    r.insert(p, x.clone());
    let ghost t = strings_view(r@);
    assert(t =~= s.insert(p as int, x@));
    assert forall|i: int, j: int| 0 <= i < j < t.len() implies lex_lt(#[trigger] t[i], #[trigger] t[j]) by {
        if j < p {
        } else if i < p && j == p {
        } else if i < p && j > p {
            assert(t[j] == s[j - 1]);
            if j - 1 > p {
                lemma_lex_transitive(x@, s[p as int], s[j - 1]);
            }
            lemma_lex_transitive(s[i], x@, s[j - 1]);
        } else if i == p {
            assert(t[j] == s[j - 1]);
            if j - 1 > p {
                lemma_lex_transitive(x@, s[p as int], s[j - 1]);
            }
        } else {
            assert(t[i] == s[i - 1] && t[j] == s[j - 1]);
        }
    }
    assert forall|y: Seq<char>| #[trigger] t.contains(y) <==> (s.contains(y) || y == x@) by {
        if t.contains(y) {
            let k = choose|k: int| 0 <= k < t.len() && t[k] == y;
            if k < p {
                assert(s[k] == y);
            } else if k > p {
                assert(s[k - 1] == y);
            }
        }
        if s.contains(y) {
            let k = choose|k: int| 0 <= k < s.len() && s[k] == y;
            if k < p {
                assert(t[k] == y);
            } else {
                assert(t[k + 1] == y);
            }
        }
        if y == x@ {
            assert(t[p as int] == y);
        }
    }
}

/// The sorted union of two name lists, each name once.
pub fn union_strings(a: &Vec<String>, b: &Vec<String>) -> (r: Vec<String>)
    ensures
        is_sorted_union(strings_view(r@), strings_view(a@), strings_view(b@)),
{
    let mut r: Vec<String> = Vec::new();
    let ghost av = strings_view(a@);
    let ghost bv = strings_view(b@);
    let mut i: usize = 0;
    while i < a.len()
        invariant
            av == strings_view(a@),
            i <= a@.len(),
            is_sorted_union(strings_view(r@), av.take(i as int), Seq::empty()),
        decreases a@.len() - i,
    {
        insert_sorted(&mut r, &a[i]);
        let ghost rv = strings_view(r@);
        let ghost now = av.take(i + 1);
        let ghost was = av.take(i as int);
        assert(now =~= was.push(a@[i as int]@));
        assert forall|x: Seq<char>| #[trigger] rv.contains(x) <==> (now.contains(x) || Seq::<Seq<char>>::empty().contains(x)) by {
            if now.contains(x) {
                let k = choose|k: int| 0 <= k < now.len() && now[k] == x;
                if k < i {
                    assert(was[k] == x);
                }
            }
            if was.contains(x) {
                let k = choose|k: int| 0 <= k < was.len() && was[k] == x;
                assert(now[k] == x);
            }
            assert(now[i as int] == a@[i as int]@);
        }
        i += 1;
    }
    assert(av.take(i as int) =~= av);
    let mut j: usize = 0;
    while j < b.len()
        invariant
            av == strings_view(a@),
            bv == strings_view(b@),
            j <= b@.len(),
            is_sorted_union(strings_view(r@), av, bv.take(j as int)),
        decreases b@.len() - j,
    {
        insert_sorted(&mut r, &b[j]);
        let ghost rv = strings_view(r@);
        let ghost now = bv.take(j + 1);
        let ghost was = bv.take(j as int);
        assert(now =~= was.push(b@[j as int]@));
        assert forall|x: Seq<char>| #[trigger] rv.contains(x) <==> (av.contains(x) || now.contains(x)) by {
            if now.contains(x) {
                let k = choose|k: int| 0 <= k < now.len() && now[k] == x;
                if k < j {
                    assert(was[k] == x);
                }
            }
            if was.contains(x) {
                let k = choose|k: int| 0 <= k < was.len() && was[k] == x;
                assert(now[k] == x);
            }
            assert(now[j as int] == b@[j as int]@);
        }
        j += 1;
    }
    assert(bv.take(j as int) =~= bv);
    r
}

} // verus!

verus! {

/// The length of the longest row.
pub open spec fn max_width(rows: Seq<Seq<Seq<char>>>) -> nat
    decreases rows.len(),
{
    if rows.len() == 0 {
        0
    } else {
        let w = max_width(rows.drop_last());
        if rows.last().len() > w { rows.last().len() } else { w }
    }
}

/// How many cells of the row hold more than whitespace.
pub open spec fn filled(r: Seq<Seq<char>>) -> nat
    decreases r.len(),
{
    if r.len() == 0 {
        0
    } else {
        filled(r.drop_last()) + if trim_spec(r.last()).len() > 0 { 1nat } else { 0nat }
    }
}

/// Whether at least 8/10 of the sheet width is filled in the row.
pub open spec fn dense(r: Seq<Seq<char>>, width: nat) -> bool {
    filled(r) * 10 >= width * 8
}

/// The first dense row, if any.
pub open spec fn first_dense(rows: Seq<Seq<Seq<char>>>, width: nat) -> Option<nat>
    decreases rows.len(),
{
    if rows.len() == 0 {
        None
    } else {
        match first_dense(rows.drop_last(), width) {
            Some(i) => Some(i),
            None => if dense(rows.last(), width) {
                Some((rows.len() - 1) as nat)
            } else {
                None
            },
        }
    }
}

/// The header row: the first row at least 8/10 full of non-empty cells,
/// where the sheet is at least two columns wide; row 0 otherwise.
pub open spec fn header_row_spec(rows: Seq<Seq<Seq<char>>>) -> nat {
    let w = max_width(rows);
    if w < 2 {
        0
    } else {
        match first_dense(rows, w) {
            Some(i) => i,
            None => 0,
        }
    }
}

fn filled_cells(r: &Vec<String>) -> (n: usize)
    ensures
        n == filled(strings_view(r@)),
        n <= r@.len(),
{
    let mut n: usize = 0;
    let mut i: usize = 0;
    while i < r.len()
        invariant
            i <= r@.len(),
            n <= i,
            n == filled(strings_view(r@).take(i as int)),
        decreases r@.len() - i,
    {
        let ghost sv = strings_view(r@);
        assert(sv.take(i as int + 1).drop_last() =~= sv.take(i as int));
        assert(sv.take(i as int + 1).last() == r@[i as int]@);
        if !trim(r[i].as_str()).is_empty() {
            n += 1;
        }
        i += 1;
    }
    assert(strings_view(r@).take(i as int) =~= strings_view(r@));
    n
}

fn row_width(rows: &Vec<Vec<String>>) -> (w: usize)
    ensures
        w == max_width(grid_view(rows@)),
{
    let mut w: usize = 0;
    let mut i: usize = 0;
    while i < rows.len()
        invariant
            i <= rows@.len(),
            w == max_width(grid_view(rows@).take(i as int)),
        decreases rows@.len() - i,
    {
        let ghost g = grid_view(rows@);
        assert(g.take(i as int + 1).drop_last() =~= g.take(i as int));
        assert(g.take(i as int + 1).last() == strings_view(rows@[i as int]@));
        if rows[i].len() > w {
            w = rows[i].len();
        }
        i += 1;
    }
    assert(grid_view(rows@).take(i as int) =~= grid_view(rows@));
    w
}

/// Detect the header row of a sheet: the first row at least 8/10 full of
/// non-empty cells. Falls back to row 0 when nothing qualifies or the sheet
/// is narrower than two columns.
pub fn detect_header_row(rows: &Vec<Vec<String>>) -> (h: usize)
    ensures
        h == header_row_spec(grid_view(rows@)),
        h == 0 || h < rows@.len(),
{
    let ghost g = grid_view(rows@);
    proof {
        lemma_header_row_bound(g);
    }
    let width = row_width(rows);
    if width < 2 {
        return 0;
    }
    let mut i: usize = 0;
    while i < rows.len()
        invariant
            g == grid_view(rows@),
            width == max_width(g),
            width >= 2,
            i <= rows@.len(),
            first_dense(g.take(i as int), width as nat) is None,
        decreases rows@.len() - i,
    {
        assert(g.take(i as int + 1).drop_last() =~= g.take(i as int));
        assert(g.take(i as int + 1).last() == strings_view(rows@[i as int]@));
        let f = filled_cells(&rows[i]);
        if (f as u128) * 10 >= (width as u128) * 8 {
            proof {
                assert(dense(g.take(i as int + 1).last(), width as nat));
                assert(first_dense(g.take(i as int + 1), width as nat) == Some(i as nat));
                lemma_first_dense_extends(g, width as nat, i as nat + 1);
            }
            return i;
        }
        i += 1;
    }
    assert(g.take(i as int) =~= g);
    0
}

proof fn lemma_first_dense_bound(g: Seq<Seq<Seq<char>>>, w: nat)
    ensures
        first_dense(g, w) matches Some(i) ==> i < g.len(),
    decreases g.len(),
{
    if g.len() > 0 {
        lemma_first_dense_bound(g.drop_last(), w);
    }
}

/// The header row is a row of the sheet, or row 0.
pub proof fn lemma_header_row_bound(g: Seq<Seq<Seq<char>>>)
    ensures
        header_row_spec(g) == 0 || header_row_spec(g) < g.len(),
{
    lemma_first_dense_bound(g, max_width(g));
}

proof fn lemma_first_dense_extends(g: Seq<Seq<Seq<char>>>, w: nat, k: nat)
    requires
        k <= g.len(),
        first_dense(g.take(k as int), w) is Some,
    ensures
        first_dense(g, w) == first_dense(g.take(k as int), w),
    decreases g.len() - k,
{
    if k < g.len() {
        assert(g.take(k as int + 1).drop_last() =~= g.take(k as int));
        lemma_first_dense_extends(g, w, k + 1);
    } else {
        assert(g.take(k as int) =~= g);
    }
}

} // verus!

verus! {

/// `s` without its trailing empty strings.
pub open spec fn strip_trailing_empty(s: Seq<Seq<char>>) -> Seq<Seq<char>>
    decreases s.len(),
{
    if s.len() > 0 && s.last().len() == 0 {
        strip_trailing_empty(s.drop_last())
    } else {
        s
    }
}

/// `rows` without its trailing empty rows.
pub open spec fn strip_trailing_empty_rows(rows: Seq<Seq<Seq<char>>>) -> Seq<Seq<Seq<char>>>
    decreases rows.len(),
{
    if rows.len() > 0 && rows.last().len() == 0 {
        strip_trailing_empty_rows(rows.drop_last())
    } else {
        rows
    }
}

/// A row cut to at most `MAX_EXCEL_COLS` cells, without trailing empty cells.
pub open spec fn normalize_spec(cells: Seq<Seq<char>>) -> Seq<Seq<char>> {
    strip_trailing_empty(if cells.len() > MAX_EXCEL_COLS { cells.take(MAX_EXCEL_COLS as int) } else { cells })
}

/// Cut a row to at most `MAX_EXCEL_COLS` cells and drop its trailing empty
/// cells; say whether cells were cut.
pub fn normalize_row(cells: Vec<String>) -> (r: (Vec<String>, bool))
    ensures
        strings_view(r.0@) == normalize_spec(strings_view(cells@)),
        r.1 == (cells@.len() > MAX_EXCEL_COLS),
{
    let mut cells = cells;
    let ghost orig = strings_view(cells@);
    let mut truncated = false;
    if cells.len() > MAX_EXCEL_COLS {
        cells.truncate(MAX_EXCEL_COLS);
        truncated = true;
    }
    assert(strings_view(cells@) =~= if orig.len() > MAX_EXCEL_COLS { orig.take(MAX_EXCEL_COLS as int) } else { orig });
    while cells.len() > 0 && cells[cells.len() - 1].as_str().is_empty()
        invariant
            strip_trailing_empty(strings_view(cells@)) == normalize_spec(orig),
        decreases cells@.len(),
    {
        let ghost before = cells@;
        cells.pop();
        assert(strings_view(cells@) =~= strings_view(before).drop_last());
    }
    (cells, truncated)
}

/// A sheet's rows as read: the first `MAX_EXCEL_ROWS` rows, each normalized,
/// without trailing empty rows.
pub open spec fn sheet_rows_spec(raw: Seq<Seq<Seq<char>>>) -> Seq<Seq<Seq<char>>> {
    let kept = if raw.len() > MAX_EXCEL_ROWS { raw.take(MAX_EXCEL_ROWS as int) } else { raw };
    strip_trailing_empty_rows(kept.map_values(|r: Seq<Seq<char>>| normalize_spec(r)))
}

proof fn lemma_strip_cells(s: Seq<Seq<char>>)
    ensures
        strip_trailing_empty(s).len() <= s.len(),
        strip_trailing_empty(s) == s.take(strip_trailing_empty(s).len() as int),
        strip_trailing_empty(s).len() > 0 ==> strip_trailing_empty(s).last().len() > 0,
    decreases s.len(),
{
    if s.len() > 0 && s.last().len() == 0 {
        lemma_strip_cells(s.drop_last());
        let t = strip_trailing_empty(s.drop_last());
        assert(s.drop_last().take(t.len() as int) =~= s.take(t.len() as int));
    } else {
        assert(s.take(s.len() as int) =~= s);
    }
}

proof fn lemma_strip_rows(s: Seq<Seq<Seq<char>>>)
    ensures
        strip_trailing_empty_rows(s).len() <= s.len(),
        strip_trailing_empty_rows(s) == s.take(strip_trailing_empty_rows(s).len() as int),
        strip_trailing_empty_rows(s).len() > 0 ==> strip_trailing_empty_rows(s).last().len() > 0,
    decreases s.len(),
{
    if s.len() > 0 && s.last().len() == 0 {
        lemma_strip_rows(s.drop_last());
        let t = strip_trailing_empty_rows(s.drop_last());
        assert(s.drop_last().take(t.len() as int) =~= s.take(t.len() as int));
    } else {
        assert(s.take(s.len() as int) =~= s);
    }
}

/// A normalized row has at most `MAX_EXCEL_COLS` cells and does not end in
/// an empty cell; it is a prefix of the row as read.
pub proof fn lemma_normalized_row(cells: Seq<Seq<char>>)
    ensures
        normalize_spec(cells).len() <= MAX_EXCEL_COLS,
        normalize_spec(cells).len() <= cells.len(),
        normalize_spec(cells) == cells.take(normalize_spec(cells).len() as int),
        normalize_spec(cells).len() > 0 ==> normalize_spec(cells).last().len() > 0,
{
    let cut = if cells.len() > MAX_EXCEL_COLS { cells.take(MAX_EXCEL_COLS as int) } else { cells };
    lemma_strip_cells(cut);
    let n = normalize_spec(cells).len() as int;
    assert(cut.take(n) =~= cells.take(n));
}

/// The rows of a sheet as read are at most `MAX_EXCEL_ROWS`, none of them
/// longer than `MAX_EXCEL_COLS` cells or ending in an empty cell, and the
/// last of them is not empty; row `i` is the normalized row `i` as read.
pub proof fn lemma_sheet_rows_shape(raw: Seq<Seq<Seq<char>>>)
    ensures
        sheet_rows_spec(raw).len() <= MAX_EXCEL_ROWS,
        sheet_rows_spec(raw).len() <= raw.len(),
        sheet_rows_spec(raw).len() > 0 ==> sheet_rows_spec(raw).last().len() > 0,
        forall|i: int| 0 <= i < sheet_rows_spec(raw).len() ==> #[trigger] sheet_rows_spec(raw)[i] == normalize_spec(raw[i]),
        forall|i: int| 0 <= i < sheet_rows_spec(raw).len() ==> (#[trigger] sheet_rows_spec(raw)[i]).len() <= MAX_EXCEL_COLS,
        forall|i: int| 0 <= i < sheet_rows_spec(raw).len() ==> (#[trigger] sheet_rows_spec(raw)[i]).len() > 0
            ==> sheet_rows_spec(raw)[i].last().len() > 0,
{
    let kept = if raw.len() > MAX_EXCEL_ROWS { raw.take(MAX_EXCEL_ROWS as int) } else { raw };
    let m = kept.map_values(|r: Seq<Seq<char>>| normalize_spec(r));
    lemma_strip_rows(m);
    let out = sheet_rows_spec(raw);
    assert forall|i: int| 0 <= i < out.len() implies #[trigger] out[i] == normalize_spec(raw[i]) by {
        assert(out[i] == m[i]);
        assert(kept[i] == raw[i]);
    }
    assert forall|i: int| 0 <= i < out.len() implies (#[trigger] out[i]).len() <= MAX_EXCEL_COLS by {
        assert(out[i] == normalize_spec(raw[i]));
        lemma_normalized_row(raw[i]);
    }
    assert forall|i: int| 0 <= i < out.len() && (#[trigger] out[i]).len() > 0 implies out[i].last().len() > 0 by {
        assert(out[i] == normalize_spec(raw[i]));
        lemma_normalized_row(raw[i]);
    }
}

/// Whether some kept row had its cells cut.
pub open spec fn cols_cut(raw: Seq<Seq<Seq<char>>>) -> bool {
    exists|i: int| 0 <= i < raw.len() && i < MAX_EXCEL_ROWS && (#[trigger] raw[i]).len() > MAX_EXCEL_COLS
}

/// The rows of a sheet as read from its cells; whether rows were cut, and
/// whether cells were.
pub fn sheet_rows(raw: Vec<Vec<String>>) -> (r: (Vec<Vec<String>>, bool, bool))
    ensures
        grid_view(r.0@) == sheet_rows_spec(grid_view(raw@)),
        r.1 == (raw@.len() > MAX_EXCEL_ROWS),
        r.2 == cols_cut(grid_view(raw@)),
{
    let ghost g = grid_view(raw@);
    let mut raw = raw;
    let n = raw.len();
    let mut rows: Vec<Vec<String>> = Vec::new();
    let mut truncated_cols = false;
    // Take rows from the back so that each is moved, not copied.
    let keep = if n > MAX_EXCEL_ROWS { MAX_EXCEL_ROWS } else { n };
    raw.truncate(keep);
    let ghost kept = if g.len() > MAX_EXCEL_ROWS { g.take(MAX_EXCEL_ROWS as int) } else { g };
    assert(grid_view(raw@) =~= kept);
    let mut rev: Vec<Vec<String>> = Vec::new();
    while raw.len() > 0
        invariant
            raw@.len() + rev@.len() == keep,
            keep == kept.len(),
            grid_view(raw@) == kept.take(raw@.len() as int),
            forall|k: int| 0 <= k < rev@.len() ==> strings_view((#[trigger] rev@[k])@) == kept[keep - 1 - k],
        decreases raw@.len(),
    {
        let ghost before = raw@;
        let ghost rev_before = rev@;
        let r = raw.pop().unwrap();
        assert(strings_view(r@) == grid_view(before)[before.len() - 1]);
        rev.push(r);
        assert(grid_view(raw@) =~= kept.take(raw@.len() as int));
        assert forall|k: int| 0 <= k < rev@.len() implies strings_view((#[trigger] rev@[k])@) == kept[keep - 1 - k] by {
            if k < rev_before.len() {
                assert(rev@[k] == rev_before[k]);
            }
        }
    }
    let mut i: usize = 0;
    while rev.len() > 0
        invariant
            i + rev@.len() == keep,
            keep == kept.len(),
            kept == (if g.len() > MAX_EXCEL_ROWS { g.take(MAX_EXCEL_ROWS as int) } else { g }),
            forall|k: int| 0 <= k < rev@.len() ==> strings_view((#[trigger] rev@[k])@) == kept[keep - 1 - k],
            grid_view(rows@) == kept.take(i as int).map_values(|r: Seq<Seq<char>>| normalize_spec(r)),
            truncated_cols == exists|k: int| 0 <= k < i && (#[trigger] kept[k]).len() > MAX_EXCEL_COLS,
        decreases rev@.len(),
    {
        let ghost rev_before = rev@;
        let r = rev.pop().unwrap();
        assert(strings_view(r@) == kept[i as int]);
        assert forall|k: int| 0 <= k < rev@.len() implies strings_view((#[trigger] rev@[k])@) == kept[keep - 1 - k] by {
            assert(rev@[k] == rev_before[k]);
        }
        let (cells, tc) = normalize_row(r);
        if tc {
            truncated_cols = true;
        }
        let ghost prev = rows@;
        rows.push(cells);
        assert(grid_view(rows@) =~= grid_view(prev).push(strings_view(cells@)));
        assert(kept.take(i as int + 1).map_values(|r: Seq<Seq<char>>| normalize_spec(r))
            =~= kept.take(i as int).map_values(|r: Seq<Seq<char>>| normalize_spec(r)).push(normalize_spec(kept[i as int])));
        i += 1;
    }
    assert(kept.take(i as int) =~= kept);
    assert(truncated_cols == cols_cut(g)) by {
        if truncated_cols {
            let k = choose|k: int| 0 <= k < i && (#[trigger] kept[k]).len() > MAX_EXCEL_COLS;
            assert(g[k] == kept[k]);
        }
        if cols_cut(g) {
            let k = choose|k: int| 0 <= k < g.len() && k < MAX_EXCEL_ROWS && (#[trigger] g[k]).len() > MAX_EXCEL_COLS;
            assert(g[k] == kept[k]);
        }
    }
    let ghost all = grid_view(rows@);
    while rows.len() > 0 && rows[rows.len() - 1].len() == 0
        invariant
            strip_trailing_empty_rows(grid_view(rows@)) == strip_trailing_empty_rows(all),
        decreases rows@.len(),
    {
        let ghost before = rows@;
        rows.pop();
        assert(grid_view(rows@) =~= grid_view(before).drop_last());
    }
    (rows, n > MAX_EXCEL_ROWS, truncated_cols)
}

} // verus!

verus! {

/// One sheet as read from a workbook: its name and its cells as strings.
#[derive(Debug, Clone)]
pub struct RawSheet {
    pub name: String,
    pub rows: Vec<Vec<String>>,
}

impl View for RawSheet {
    type V = (Seq<char>, Seq<Seq<Seq<char>>>);

    open spec fn view(&self) -> (Seq<char>, Seq<Seq<Seq<char>>>) {
        (self.name@, grid_view(self.rows@))
    }
}

/// The views of a list of sheets.
pub open spec fn sheets_view(v: Seq<RawSheet>) -> Seq<(Seq<char>, Seq<Seq<Seq<char>>>)> {
    v.map_values(|s: RawSheet| s@)
}

/// The sheets of a workbook with their rows as kept for the diff.
pub open spec fn book_spec(sheets: Seq<(Seq<char>, Seq<Seq<Seq<char>>>)>) -> Seq<(Seq<char>, Seq<Seq<Seq<char>>>)> {
    sheets.map_values(|s: (Seq<char>, Seq<Seq<Seq<char>>>)| (s.0, sheet_rows_spec(s.1)))
}

/// The notes about one sheet: one if rows were cut, one if cells were.
pub open spec fn sheet_notes(s: (Seq<char>, Seq<Seq<Seq<char>>>)) -> Seq<Seq<char>> {
    let name = debug_str_spec(s.0);
    let r: Seq<Seq<char>> = if s.1.len() > MAX_EXCEL_ROWS {
        seq!["sheet "@ + name + " truncated to 50000 rows"@]
    } else {
        Seq::empty()
    };
    if cols_cut(s.1) {
        r.push("sheet "@ + name + " truncated to 256 columns"@)
    } else {
        r
    }
}

/// The notes about a workbook, sheet by sheet.
pub open spec fn book_notes(sheets: Seq<(Seq<char>, Seq<Seq<Seq<char>>>)>) -> Seq<Seq<char>>
    decreases sheets.len(),
{
    if sheets.len() == 0 {
        Seq::empty()
    } else {
        book_notes(sheets.drop_last()) + sheet_notes(sheets.last())
    }
}

fn note(name: &String, tail: &str) -> (r: String)
    ensures
        r@ == "sheet "@ + debug_str_spec(name@) + tail@,
{
    let mut r = String::from_str("sheet ");
    let q = debug_str(name.as_str());
    r.append(q.as_str());
    r.append(tail);
    r
}

/// Keep each sheet's rows as the diff reads them, and note the sheets whose
/// rows or cells were cut.
pub fn read_workbook(sheets: Vec<RawSheet>, notes: &mut Vec<String>) -> (r: Vec<RawSheet>)
    ensures
        sheets_view(r@) == book_spec(sheets_view(sheets@)),
        strings_view(final(notes)@) == strings_view(old(notes)@) + book_notes(sheets_view(sheets@)),
{
    let ghost sv = sheets_view(sheets@);
    let ghost notes0 = strings_view(notes@);
    let mut sheets = sheets;
    let mut rev: Vec<RawSheet> = Vec::new();
    let n = sheets.len();
    while sheets.len() > 0
        invariant
            sheets@.len() + rev@.len() == n,
            n == sv.len(),
            sheets_view(sheets@) == sv.take(sheets@.len() as int),
            forall|k: int| 0 <= k < rev@.len() ==> (#[trigger] rev@[k])@ == sv[n - 1 - k],
        decreases sheets@.len(),
    {
        let ghost before = sheets@;
        let ghost rev_before = rev@;
        let s = sheets.pop().unwrap();
        assert(s@ == sheets_view(before)[before.len() - 1]);
        rev.push(s);
        assert(sheets_view(sheets@) =~= sv.take(sheets@.len() as int));
        assert forall|k: int| 0 <= k < rev@.len() implies (#[trigger] rev@[k])@ == sv[n - 1 - k] by {
            if k < rev_before.len() {
                assert(rev@[k] == rev_before[k]);
            }
        }
    }
    let mut out: Vec<RawSheet> = Vec::new();
    let mut i: usize = 0;
    while rev.len() > 0
        invariant
            i + rev@.len() == n,
            n == sv.len(),
            forall|k: int| 0 <= k < rev@.len() ==> (#[trigger] rev@[k])@ == sv[n - 1 - k],
            sheets_view(out@) == book_spec(sv.take(i as int)),
            strings_view(notes@) == notes0 + book_notes(sv.take(i as int)),
        decreases rev@.len(),
    {
        let ghost rev_before = rev@;
        let s = rev.pop().unwrap();
        assert(s@ == sv[i as int]);
        assert forall|k: int| 0 <= k < rev@.len() implies (#[trigger] rev@[k])@ == sv[n - 1 - k] by {
            assert(rev@[k] == rev_before[k]);
        }
        let RawSheet { name, rows } = s;
        let (kept, truncated_rows, truncated_cols) = sheet_rows(rows);
        let ghost notes_before = strings_view(notes@);
        if truncated_rows {
            let m = note(&name, " truncated to 50000 rows");
            notes.push(m);
        }
        if truncated_cols {
            let m = note(&name, " truncated to 256 columns");
            notes.push(m);
        }
        proof {
            reveal_strlit(" truncated to 50000 rows");
            reveal_strlit(" truncated to 256 columns");
            assert(strings_view(notes@) =~= notes_before + sheet_notes(sv[i as int]));
            assert(sv.take(i as int + 1).drop_last() =~= sv.take(i as int));
            assert(notes0 + book_notes(sv.take(i as int)) + sheet_notes(sv[i as int])
                =~= notes0 + book_notes(sv.take(i as int + 1)));
        }
        let t = RawSheet { name, rows: kept };
        let ghost prev = out@;
        out.push(t);
        assert(sheets_view(out@) =~= sheets_view(prev).push(t@));
        assert(book_spec(sv.take(i as int + 1)) =~= book_spec(sv.take(i as int)).push((sv[i as int].0, sheet_rows_spec(sv[i as int].1))));
        i += 1;
    }
    assert(sv.take(i as int) =~= sv);
    out
}

} // verus!

verus! {

/// One sheet's diff result: the sheet name, the sheet-level status
/// (`equal` / `modified` / `added` / `removed`) and the aligned grid.
#[derive(Debug)]
pub struct SheetDiff {
    pub name: String,
    pub status: String,
    pub grid: GridResult,
}

#[derive(Debug)]
pub struct ExcelResult {
    pub file_type: String,
    pub path_a: String,
    pub path_b: String,
    pub sheets: Vec<SheetDiff>,
    pub notes: Vec<String>,
}

/// The rows of the last sheet of that name (later sheets replace earlier
/// ones of the same name), if there is one.
pub open spec fn lookup_spec(book: Seq<(Seq<char>, Seq<Seq<Seq<char>>>)>, name: Seq<char>) -> Option<Seq<Seq<Seq<char>>>>
    decreases book.len(),
{
    if book.len() == 0 {
        None
    } else if book.last().0 == name {
        Some(book.last().1)
    } else {
        lookup_spec(book.drop_last(), name)
    }
}

/// The names of the sheets of a workbook.
pub open spec fn names_of(book: Seq<(Seq<char>, Seq<Seq<Seq<char>>>)>) -> Seq<Seq<char>> {
    book.map_values(|s: (Seq<char>, Seq<Seq<Seq<char>>>)| s.0)
}

/// The rows of the named sheet of a workbook that may be absent: none when
/// the workbook or the sheet is absent.
pub open spec fn rows_of(book: Option<Seq<(Seq<char>, Seq<Seq<Seq<char>>>)>>, name: Seq<char>) -> Seq<Seq<Seq<char>>> {
    match book {
        Some(b) => match lookup_spec(b, name) {
            Some(r) => r,
            None => Seq::empty(),
        },
        None => Seq::empty(),
    }
}

/// Whether the workbook (if present) has a sheet of that name.
pub open spec fn has_sheet(book: Option<Seq<(Seq<char>, Seq<Seq<Seq<char>>>)>>, name: Seq<char>) -> bool {
    match book {
        Some(b) => names_of(b).contains(name),
        None => false,
    }
}

/// The grid options for one sheet pair: header rows detected on both sides
/// when asked for, the column lock as asked, and `tate`'s defaults for the
/// rest.
pub open spec fn sheet_grid_options(
    detect_header: bool,
    lock_columns: bool,
    rows_a: Seq<Seq<Seq<char>>>,
    rows_b: Seq<Seq<Seq<char>>>,
) -> (Option<(nat, nat)>, bool, nat, nat) {
    (
        if detect_header {
            Some((header_row_spec(rows_a), header_row_spec(rows_b)))
        } else {
            None
        },
        lock_columns,
        3,
        4000,
    )
}

/// The status of a sheet: added where side A lacks it, removed where side B
/// does, modified where the grid has added, removed or modified rows or
/// added or removed columns, equal otherwise.
pub open spec fn sheet_status(has_a: bool, has_b: bool, c: (nat, nat, nat, nat, nat)) -> Seq<char> {
    if !has_a {
        "added"@
    } else if !has_b {
        "removed"@
    } else if c.0 + c.1 + c.2 + c.3 + c.4 > 0 {
        "modified"@
    } else {
        "equal"@
    }
}

/// What the diff of one sheet holds: its grid is the grid diff of its two
/// sides, and its status follows from that grid's change counts.
pub open spec fn sheet_matches(
    d: SheetDiff,
    detect_header: bool,
    lock_columns: bool,
    book_a: Option<Seq<(Seq<char>, Seq<Seq<Seq<char>>>)>>,
    book_b: Option<Seq<(Seq<char>, Seq<Seq<Seq<char>>>)>>,
) -> bool {
    let name = d.name@;
    let rows_a = rows_of(book_a, name);
    let rows_b = rows_of(book_b, name);
    let g = grid_spec(rows_a, rows_b, sheet_grid_options(detect_header, lock_columns, rows_a, rows_b));
    &&& d.grid@ == g
    &&& d.status@ == sheet_status(has_sheet(book_a, name), has_sheet(book_b, name), change_counts(g))
}

/// The sheet is in both workbooks, with the same rows.
pub open spec fn same_in_both(
    book_a: Option<Seq<(Seq<char>, Seq<Seq<Seq<char>>>)>>,
    book_b: Option<Seq<(Seq<char>, Seq<Seq<Seq<char>>>)>>,
    name: Seq<char>,
) -> bool {
    &&& has_sheet(book_a, name)
    &&& has_sheet(book_b, name)
    &&& rows_of(book_a, name) == rows_of(book_b, name)
}

/// Every sheet diff whose sheet both workbooks hold with the same rows has
/// status `equal`.
pub open spec fn unchanged_sheets_equal(
    sheets: Seq<SheetDiff>,
    book_a: Option<Seq<(Seq<char>, Seq<Seq<Seq<char>>>)>>,
    book_b: Option<Seq<(Seq<char>, Seq<Seq<Seq<char>>>)>>,
) -> bool {
    forall|k: int|
        0 <= k < sheets.len() && same_in_both(book_a, book_b, (#[trigger] sheets[k]).name@) ==> sheets[k].status@
            == "equal"@
}

/// The names of a list of sheet diffs.
pub open spec fn sheet_names(v: Seq<SheetDiff>) -> Seq<Seq<char>> {
    v.map_values(|d: SheetDiff| d.name@)
}

/// The names of a workbook that may be absent.
pub open spec fn opt_names(book: Option<Seq<(Seq<char>, Seq<Seq<Seq<char>>>)>>) -> Seq<Seq<char>> {
    match book {
        Some(b) => names_of(b),
        None => Seq::empty(),
    }
}

/// What an excel result holds: one sheet diff per sheet name of either
/// side, in name order, each as [`sheet_matches`] says.
pub open spec fn excel_matches(
    r: ExcelResult,
    path_a: Seq<char>,
    path_b: Seq<char>,
    detect_header: bool,
    lock_columns: bool,
    book_a: Option<Seq<(Seq<char>, Seq<Seq<Seq<char>>>)>>,
    book_b: Option<Seq<(Seq<char>, Seq<Seq<Seq<char>>>)>>,
) -> bool {
    &&& r.file_type@ == "excel"@
    &&& r.path_a@ == path_a
    &&& r.path_b@ == path_b
    &&& is_sorted_union(sheet_names(r.sheets@), opt_names(book_a), opt_names(book_b))
    &&& forall|k: int| 0 <= k < r.sheets@.len() ==> sheet_matches(#[trigger] r.sheets@[k], detect_header, lock_columns, book_a, book_b)
}

fn copy_rows(rows: &Vec<Vec<String>>) -> (r: Vec<Vec<String>>)
    ensures
        grid_view(r@) == grid_view(rows@),
{
    let mut r: Vec<Vec<String>> = Vec::new();
    let mut i: usize = 0;
    while i < rows.len()
        invariant
            i <= rows@.len(),
            grid_view(r@) == grid_view(rows@).take(i as int),
        decreases rows@.len() - i,
    {
        let mut row: Vec<String> = Vec::new();
        let mut j: usize = 0;
        while j < rows[i].len()
            invariant
                i < rows@.len(),
                j <= rows@[i as int]@.len(),
                strings_view(row@) == strings_view(rows@[i as int]@).take(j as int),
            decreases rows@[i as int]@.len() - j,
        {
            let c = rows[i][j].clone();
            let ghost prev = row@;
            row.push(c);
            assert(strings_view(row@) =~= strings_view(prev).push(c@));
            assert(strings_view(rows@[i as int]@).take(j as int + 1) =~= strings_view(rows@[i as int]@).take(j as int).push(c@));
            j += 1;
        }
        assert(strings_view(rows@[i as int]@).take(j as int) =~= strings_view(rows@[i as int]@));
        let ghost prev = r@;
        r.push(row);
        assert(grid_view(r@) =~= grid_view(prev).push(strings_view(row@)));
        assert(grid_view(rows@).take(i as int + 1) =~= grid_view(rows@).take(i as int).push(strings_view(rows@[i as int]@)));
        i += 1;
    }
    assert(grid_view(rows@).take(i as int) =~= grid_view(rows@));
    r
}

/// The rows of the last sheet of that name, or none.
fn lookup(book: &Vec<RawSheet>, name: &String) -> (r: Option<Vec<Vec<String>>>)
    ensures
        match r {
            Some(rows) => lookup_spec(sheets_view(book@), name@) == Some(grid_view(rows@)),
            None => lookup_spec(sheets_view(book@), name@) is None,
        },
{
    let mut k = book.len();
    assert(sheets_view(book@).take(k as int) =~= sheets_view(book@));
    while k > 0
        invariant
            k <= book@.len(),
            lookup_spec(sheets_view(book@), name@) == lookup_spec(sheets_view(book@).take(k as int), name@),
        decreases k,
    {
        let ghost t = sheets_view(book@).take(k as int);
        assert(t.drop_last() =~= sheets_view(book@).take(k - 1));
        assert(t.last() == book@[k - 1]@);
        if str_eq(book[k - 1].name.as_str(), name.as_str()) {
            return Some(copy_rows(&book[k - 1].rows));
        }
        k -= 1;
    }
    None
}

fn sheet_names_of(book: &Vec<RawSheet>) -> (r: Vec<String>)
    ensures
        strings_view(r@) == names_of(sheets_view(book@)),
{
    let mut r: Vec<String> = Vec::new();
    let mut i: usize = 0;
    while i < book.len()
        invariant
            i <= book@.len(),
            strings_view(r@) == names_of(sheets_view(book@).take(i as int)),
        decreases book@.len() - i,
    {
        let c = book[i].name.clone();
        let ghost prev = r@;
        r.push(c);
        assert(strings_view(r@) =~= strings_view(prev).push(c@));
        assert(names_of(sheets_view(book@).take(i as int + 1)) =~= names_of(sheets_view(book@).take(i as int)).push(c@));
        i += 1;
    }
    assert(sheets_view(book@).take(i as int) =~= sheets_view(book@));
    r
}

fn contains_name(v: &Vec<String>, x: &String) -> (r: bool)
    ensures
        r == strings_view(v@).contains(x@),
{
    let mut i: usize = 0;
    while i < v.len()
        invariant
            i <= v@.len(),
            forall|k: int| 0 <= k < i ==> strings_view(v@)[k] != x@,
        decreases v@.len() - i,
    {
        if str_eq(v[i].as_str(), x.as_str()) {
            assert(strings_view(v@)[i as int] == x@);
            return true;
        }
        i += 1;
    }
    false
}

/// The view of a workbook that may be absent.
pub open spec fn opt_book_view(b: Option<Vec<RawSheet>>) -> Option<Seq<(Seq<char>, Seq<Seq<Seq<char>>>)>> {
    match b {
        Some(v) => Some(sheets_view(v@)),
        None => None,
    }
}

/// Diff two workbooks, each given by its sheets with their rows as kept
/// (`None` for an absent workbook).
pub fn diff_books(
    path_a: &str,
    path_b: &str,
    book_a: &Option<Vec<RawSheet>>,
    book_b: &Option<Vec<RawSheet>>,
    opts: &ExcelOptions,
    notes: Vec<String>,
) -> (r: ExcelResult)
    ensures
        excel_matches(r, path_a@, path_b@, opts.detect_header, opts.lock_columns, opt_book_view(*book_a), opt_book_view(*book_b)),
        unchanged_sheets_equal(r.sheets@, opt_book_view(*book_a), opt_book_view(*book_b)),
        strings_view(r.notes@) == strings_view(notes@),
{
    let ghost ba = opt_book_view(*book_a);
    let ghost bb = opt_book_view(*book_b);
    let names_a = match book_a {
        Some(b) => sheet_names_of(b),
        None => Vec::new(),
    };
    let names_b = match book_b {
        Some(b) => sheet_names_of(b),
        None => Vec::new(),
    };
    assert(strings_view(names_a@) =~= opt_names(ba));
    assert(strings_view(names_b@) =~= opt_names(bb));
    let union = union_strings(&names_a, &names_b);
    let mut sheets: Vec<SheetDiff> = Vec::new();
    let mut i: usize = 0;
    while i < union.len()
        invariant
            ba == opt_book_view(*book_a),
            bb == opt_book_view(*book_b),
            strings_view(names_a@) == opt_names(ba),
            strings_view(names_b@) == opt_names(bb),
            i <= union@.len(),
            sheet_names(sheets@) == strings_view(union@).take(i as int),
            forall|k: int| 0 <= k < sheets@.len() ==> sheet_matches(#[trigger] sheets@[k], opts.detect_header, opts.lock_columns, ba, bb),
            unchanged_sheets_equal(sheets@, ba, bb),
        decreases union@.len() - i,
    {
        let name = &union[i];
        let has_a = contains_name(&names_a, name);
        let has_b = contains_name(&names_b, name);
        let rows_a = match book_a {
            Some(b) => match lookup(b, name) {
                Some(r) => r,
                None => Vec::new(),
            },
            None => Vec::new(),
        };
        let rows_b = match book_b {
            Some(b) => match lookup(b, name) {
                Some(r) => r,
                None => Vec::new(),
            },
            None => Vec::new(),
        };
        assert(grid_view(rows_a@) =~= rows_of(ba, name@));
        assert(grid_view(rows_b@) =~= rows_of(bb, name@));
        assert(has_a == has_sheet(ba, name@));
        assert(has_b == has_sheet(bb, name@));
        let init = if opts.detect_header {
            Init::Header { a: detect_header_row(&rows_a), b: detect_header_row(&rows_b) }
        } else {
            Init::Positional
        };
        let grid_opts = GridOptions { init, lock_columns: opts.lock_columns, max_iters: 3, max_rows: 4000 };
        let grid = grid_diff(&rows_a, &rows_b, &grid_opts);
        let changed = grid.added_rows > 0 || grid.removed_rows > 0 || grid.modified_rows > 0
            || grid.added_cols > 0 || grid.removed_cols > 0;
        let status = if !has_a {
            String::from_str("added")
        } else if !has_b {
            String::from_str("removed")
        } else if changed {
            String::from_str("modified")
        } else {
            String::from_str("equal")
        };
        let d = SheetDiff { name: name.clone(), status, grid };
        assert(sheet_matches(d, opts.detect_header, opts.lock_columns, ba, bb));
        proof {
            if same_in_both(ba, bb, name@) {
                reveal_strlit("equal");
                assert(d.status@ == "equal"@);
            }
        }
        let ghost prev = sheets@;
        sheets.push(d);
        assert(sheet_names(sheets@) =~= sheet_names(prev).push(d.name@));
        assert(strings_view(union@).take(i as int + 1) =~= strings_view(union@).take(i as int).push(union@[i as int]@));
        assert forall|k: int| 0 <= k < sheets@.len() implies sheet_matches(#[trigger] sheets@[k], opts.detect_header, opts.lock_columns, ba, bb) by {
            if k < prev.len() {
                assert(sheets@[k] == prev[k]);
            }
        }
        assert forall|k: int| 0 <= k < sheets@.len() && same_in_both(ba, bb, (#[trigger] sheets@[k]).name@) implies sheets@[k].status@ == "equal"@ by {
            if k < prev.len() {
                assert(sheets@[k] == prev[k]);
            }
        }
        i += 1;
    }
    assert(strings_view(union@).take(i as int) =~= strings_view(union@));
    ExcelResult {
        file_type: String::from_str("excel"),
        path_a: String::from_str(path_a),
        path_b: String::from_str(path_b),
        sheets,
        notes,
    }
}

} // verus!

verus! {

/// The sheets that reading gave (none on an error).
pub open spec fn read_view(r: Result<Vec<RawSheet>, String>) -> Seq<(Seq<char>, Seq<Seq<Seq<char>>>)> {
    match r {
        Ok(v) => sheets_view(v@),
        Err(_) => Seq::empty(),
    }
}

/// The workbook of one side as the diff reads it: none for an empty path,
/// else its sheets with their rows as kept.
pub open spec fn side_book(path: Seq<char>, sheets: Seq<(Seq<char>, Seq<Seq<Seq<char>>>)>) -> Option<Seq<(Seq<char>, Seq<Seq<Seq<char>>>)>> {
    if path.len() == 0 {
        None
    } else {
        Some(book_spec(sheets))
    }
}

/// The notes about one side: none for an empty path.
pub open spec fn side_notes(path: Seq<char>, sheets: Seq<(Seq<char>, Seq<Seq<Seq<char>>>)>) -> Seq<Seq<char>> {
    if path.len() == 0 {
        Seq::empty()
    } else {
        book_notes(sheets)
    }
}

/// Diff two workbooks with explicit [`ExcelOptions`]. Each side is given by
/// what reading its file gave: its sheets (names and cells as strings) or the
/// error. A side with an empty path is absent and is not read.
pub fn excel_diff_with(
    path_a: &str,
    path_b: &str,
    read_a: Result<Vec<RawSheet>, String>,
    read_b: Result<Vec<RawSheet>, String>,
    opts: &ExcelOptions,
) -> (r: Result<ExcelResult, String>)
    ensures
        path_a@.len() > 0 ==> (read_a matches Err(e) ==> r == Err::<ExcelResult, String>(e)),
        (path_a@.len() == 0 || read_a is Ok) ==> (path_b@.len() > 0 ==> (read_b matches Err(e) ==> r == Err::<ExcelResult, String>(e))),
        (path_a@.len() == 0 || read_a is Ok) ==> ((path_b@.len() == 0 || read_b is Ok) ==> (r matches Ok(res) && ({
            let sa = read_view(read_a);
            let sb = read_view(read_b);
            &&& excel_matches(res, path_a@, path_b@, opts.detect_header, opts.lock_columns, side_book(path_a@, sa), side_book(path_b@, sb))
            &&& unchanged_sheets_equal(res.sheets@, side_book(path_a@, sa), side_book(path_b@, sb))
            &&& strings_view(res.notes@) == side_notes(path_a@, sa) + side_notes(path_b@, sb)
        }))),
{
    let ghost sa = read_view(read_a);
    let ghost sb = read_view(read_b);
    let mut notes: Vec<String> = Vec::new();
    let book_a = if path_a.is_empty() {
        None
    } else {
        match read_a {
            Ok(sheets) => Some(read_workbook(sheets, &mut notes)),
            Err(e) => return Err(e),
        }
    };
    let book_b = if path_b.is_empty() {
        None
    } else {
        match read_b {
            Ok(sheets) => Some(read_workbook(sheets, &mut notes)),
            Err(e) => return Err(e),
        }
    };
    assert(strings_view(notes@) =~= side_notes(path_a@, sa) + side_notes(path_b@, sb));
    assert(opt_book_view(book_a) == side_book(path_a@, sa));
    assert(opt_book_view(book_b) == side_book(path_b@, sb));
    Ok(diff_books(path_a, path_b, &book_a, &book_b, opts, notes))
}

/// Diff two workbooks with the default (positional) alignment. Equivalent to
/// [`excel_diff_with`] with [`ExcelOptions::default`].
pub fn excel_diff(
    path_a: &str,
    path_b: &str,
    read_a: Result<Vec<RawSheet>, String>,
    read_b: Result<Vec<RawSheet>, String>,
) -> (r: Result<ExcelResult, String>)
    ensures
        path_a@.len() > 0 ==> (read_a matches Err(e) ==> r == Err::<ExcelResult, String>(e)),
        (path_a@.len() == 0 || read_a is Ok) ==> (path_b@.len() > 0 ==> (read_b matches Err(e) ==> r == Err::<ExcelResult, String>(e))),
        (path_a@.len() == 0 || read_a is Ok) ==> ((path_b@.len() == 0 || read_b is Ok) ==> (r matches Ok(res) && ({
            let sa = read_view(read_a);
            let sb = read_view(read_b);
            &&& excel_matches(res, path_a@, path_b@, false, false, side_book(path_a@, sa), side_book(path_b@, sb))
            &&& unchanged_sheets_equal(res.sheets@, side_book(path_a@, sa), side_book(path_b@, sb))
            &&& strings_view(res.notes@) == side_notes(path_a@, sa) + side_notes(path_b@, sb)
        }))),
{
    excel_diff_with(path_a, path_b, read_a, read_b, &ExcelOptions::default())
}

} // verus!

verus! {

/// The SHA-256 digest of `data`, as `sha2` computes it.
pub uninterp spec fn sha256_spec(data: Seq<u8>) -> Seq<u8>;

/// `Sha256::digest` from `sha2`: the 32-byte SHA-256 digest of `data`. The
/// digest itself is named; its length is that of the output type.
#[verifier::external_body]
pub(crate) fn sha256(data: &[u8]) -> (r: Vec<u8>)
    ensures
        r@ == sha256_spec(data@),
        r@.len() == 32,
{
    sha2::Sha256::digest(data).to_vec()
}

/// The bytes hashed for a row: each cell's UTF-8 followed by 0x1f, then 0x1e.
pub open spec fn row_bytes(row: Seq<Seq<char>>) -> Seq<u8>
    decreases row.len(),
{
    if row.len() == 0 {
        seq![0x1eu8]
    } else {
        row_bytes(row.drop_last()).drop_last() + vstd::utf8::encode_utf8(row.last()) + seq![0x1fu8, 0x1eu8]
    }
}

/// The bytes hashed for the rows of a sheet.
pub open spec fn rows_bytes(rows: Seq<Seq<Seq<char>>>) -> Seq<u8>
    decreases rows.len(),
{
    if rows.len() == 0 {
        Seq::empty()
    } else {
        rows_bytes(rows.drop_last()) + row_bytes(rows.last())
    }
}

/// The bytes hashed for a workbook: per sheet, its name's UTF-8, a zero
/// byte, then its rows as kept for the diff.
pub open spec fn book_bytes(sheets: Seq<(Seq<char>, Seq<Seq<Seq<char>>>)>) -> Seq<u8>
    decreases sheets.len(),
{
    if sheets.len() == 0 {
        Seq::empty()
    } else {
        let s = sheets.last();
        book_bytes(sheets.drop_last()) + vstd::utf8::encode_utf8(s.0) + seq![0u8] + rows_bytes(sheet_rows_spec(s.1))
    }
}

fn append_bytes(v: &mut Vec<u8>, b: &[u8])
    ensures
        final(v)@ == old(v)@ + b@,
{
    let mut i: usize = 0;
    while i < b.len()
        invariant
            i <= b@.len(),
            v@ == old(v)@ + b@.take(i as int),
        decreases b@.len() - i,
    {
        v.push(b[i]);
        assert(b@.take(i as int + 1) =~= b@.take(i as int).push(b@[i as int]));
        assert(v@ =~= old(v)@ + b@.take(i as int + 1));
        i += 1;
    }
    assert(b@.take(i as int) =~= b@);
}

/// Content fingerprint: every sheet's normalized cell grid hashed with
/// SHA-256 and written in lowercase hex, ignoring zip packaging noise. The
/// workbook is given by its sheets as read (`None` where it could not be
/// opened, which gives no fingerprint).
pub fn content_fingerprint(book: Option<Vec<RawSheet>>) -> (r: Option<String>)
    ensures
        match book {
            None => r is None,
            Some(b) => r matches Some(h) && h@ == crate::hex_spec(sha256_spec(book_bytes(sheets_view(b@)))),
        },
        r matches Some(h) ==> h@.len() == 64 && forall|k: int| 0 <= k < h@.len() ==> crate::is_lower_hex(#[trigger] h@[k]),
{
    let sheets = match book {
        None => return None,
        Some(b) => b,
    };
    let ghost sv = sheets_view(sheets@);
    let mut msg: Vec<u8> = Vec::new();
    let mut i: usize = 0;
    while i < sheets.len()
        invariant
            sv == sheets_view(sheets@),
            i <= sheets@.len(),
            msg@ == book_bytes(sv.take(i as int)),
        decreases sheets@.len() - i,
    {
        assert(sv.take(i as int + 1).drop_last() =~= sv.take(i as int));
        assert(sv.take(i as int + 1).last() == sheets@[i as int]@);
        append_bytes(&mut msg, sheets[i].name.as_str().as_bytes());
        msg.push(0u8);
        let (rows, _, _) = sheet_rows(copy_rows(&sheets[i].rows));
        let ghost rv = grid_view(rows@);
        let ghost before_rows = msg@;
        let mut k: usize = 0;
        while k < rows.len()
            invariant
                k <= rows@.len(),
                rv == grid_view(rows@),
                msg@ == before_rows + rows_bytes(rv.take(k as int)),
            decreases rows@.len() - k,
        {
            assert(rv.take(k as int + 1).drop_last() =~= rv.take(k as int));
            assert(rv.take(k as int + 1).last() == strings_view(rows@[k as int]@));
            let ghost before_row = msg@;
            let ghost cv = strings_view(rows@[k as int]@);
            let mut c: usize = 0;
            msg.push(0x1eu8);
            while c < rows[k].len()
                invariant
                    k < rows@.len(),
                    c <= rows@[k as int]@.len(),
                    cv == strings_view(rows@[k as int]@),
                    msg@ == before_row + row_bytes(cv.take(c as int)),
                decreases rows@[k as int]@.len() - c,
            {
                assert(cv.take(c as int + 1).drop_last() =~= cv.take(c as int));
                assert(cv.take(c as int + 1).last() == rows@[k as int]@[c as int]@);
                let ghost rb = row_bytes(cv.take(c as int));
                assert(rb.len() > 0) by {
                    lemma_row_bytes_ends(cv.take(c as int));
                }
                msg.pop();
                assert(msg@ =~= before_row + rb.drop_last());
                append_bytes(&mut msg, rows[k][c].as_str().as_bytes());
                msg.push(0x1fu8);
                msg.push(0x1eu8);
                assert(msg@ =~= before_row + row_bytes(cv.take(c as int + 1)));
                c += 1;
            }
            assert(cv.take(c as int) =~= cv);
            assert(msg@ =~= before_rows + rows_bytes(rv.take(k as int + 1)));
            k += 1;
        }
        assert(rv.take(k as int) =~= rv);
        assert(msg@ =~= book_bytes(sv.take(i as int + 1)));
        i += 1;
    }
    assert(sv.take(i as int) =~= sv);
    let digest = sha256(msg.as_slice());
    Some(crate::hex(digest.as_slice()))
}

proof fn lemma_row_bytes_ends(row: Seq<Seq<char>>)
    ensures
        row_bytes(row).len() > 0,
        row_bytes(row).last() == 0x1eu8,
    decreases row.len(),
{
    if row.len() > 0 {
        lemma_row_bytes_ends(row.drop_last());
    }
}

} // verus!

verus! {

/// A workbook compared with itself: every sheet of the result has status
/// `equal`.
pub proof fn lemma_identical_workbooks(sheets: Seq<SheetDiff>, book: Seq<(Seq<char>, Seq<Seq<Seq<char>>>)>)
    requires
        is_sorted_union(sheet_names(sheets), names_of(book), names_of(book)),
        unchanged_sheets_equal(sheets, Some(book), Some(book)),
    ensures
        forall|k: int| 0 <= k < sheets.len() ==> (#[trigger] sheets[k]).status@ == "equal"@,
{
    assert forall|k: int| 0 <= k < sheets.len() implies (#[trigger] sheets[k]).status@ == "equal"@ by {
        let name = sheets[k].name@;
        assert(sheet_names(sheets)[k] == name);
        assert(sheet_names(sheets).contains(name));
        assert(names_of(book).contains(name));
        assert(same_in_both(Some(book), Some(book), name));
    }
}

} // verus!

verus! {

/// The value of a sheet diff: its name, status and aligned grid.
pub open spec fn sheet_diff_view(d: SheetDiff) -> (Seq<char>, Seq<char>, GridView) {
    (d.name@, d.status@, d.grid@)
}

/// The values of a list of sheet diffs.
pub open spec fn sheet_diffs_view(v: Seq<SheetDiff>) -> Seq<(Seq<char>, Seq<char>, GridView)> {
    v.map_values(|d: SheetDiff| sheet_diff_view(d))
}

/// An excel result is fixed by its inputs: two results that both hold what
/// [`excel_matches`] asks for the same paths, options and workbooks have the
/// same file type, paths and sheet diffs (names, statuses and grids). So
/// `excel_diff`, whose contract is that of `excel_diff_with` at the default
/// options, gives what `excel_diff_with` gives there.
pub proof fn lemma_excel_result_unique(
    r1: ExcelResult,
    r2: ExcelResult,
    path_a: Seq<char>,
    path_b: Seq<char>,
    detect_header: bool,
    lock_columns: bool,
    book_a: Option<Seq<(Seq<char>, Seq<Seq<Seq<char>>>)>>,
    book_b: Option<Seq<(Seq<char>, Seq<Seq<Seq<char>>>)>>,
)
    requires
        excel_matches(r1, path_a, path_b, detect_header, lock_columns, book_a, book_b),
        excel_matches(r2, path_a, path_b, detect_header, lock_columns, book_a, book_b),
    ensures
        r1.file_type@ == r2.file_type@,
        r1.path_a@ == r2.path_a@,
        r1.path_b@ == r2.path_b@,
        sheet_diffs_view(r1.sheets@) == sheet_diffs_view(r2.sheets@),
{
    let s1 = r1.sheets@;
    let s2 = r2.sheets@;
    lemma_sorted_union_unique(sheet_names(s1), sheet_names(s2), opt_names(book_a), opt_names(book_b));
    assert(s1.len() == sheet_names(s1).len());
    assert forall|k: int| 0 <= k < s1.len() implies #[trigger] sheet_diffs_view(s1)[k] == sheet_diffs_view(s2)[k] by {
        assert(sheet_names(s1)[k] == sheet_names(s2)[k]);
        assert(sheet_matches(s1[k], detect_header, lock_columns, book_a, book_b));
        assert(sheet_matches(s2[k], detect_header, lock_columns, book_a, book_b));
    }
    assert(sheet_diffs_view(s1) =~= sheet_diffs_view(s2));
}

} // verus!

verus! {

/// The status of a sheet diff says what happened to the sheet: `added`
/// where workbook A has no sheet of that name, `removed` where A has it and
/// B does not, and where both have it, `equal` exactly when its grid shows
/// no added, removed or modified row and no added or removed column, and
/// `modified` otherwise.
pub proof fn lemma_sheet_status_law(
    d: SheetDiff,
    detect_header: bool,
    lock_columns: bool,
    book_a: Option<Seq<(Seq<char>, Seq<Seq<Seq<char>>>)>>,
    book_b: Option<Seq<(Seq<char>, Seq<Seq<Seq<char>>>)>>,
)
    requires
        sheet_matches(d, detect_header, lock_columns, book_a, book_b),
    ensures
        !(book_a matches Some(a) && exists|i: int| 0 <= i < a.len() && (#[trigger] a[i]).0 == d.name@) ==> d.status@
            == "added"@,
        (book_a matches Some(a) && exists|i: int| 0 <= i < a.len() && (#[trigger] a[i]).0 == d.name@) && !(
        book_b matches Some(b) && exists|i: int| 0 <= i < b.len() && (#[trigger] b[i]).0 == d.name@) ==> d.status@
            == "removed"@,
        (book_a matches Some(a) && exists|i: int| 0 <= i < a.len() && (#[trigger] a[i]).0 == d.name@) && (
        book_b matches Some(b) && exists|i: int| 0 <= i < b.len() && (#[trigger] b[i]).0 == d.name@) ==> {
            &&& (d.status@ == "equal"@ || d.status@ == "modified"@)
            &&& (d.status@ == "equal"@ <==> (d.grid@.added_rows == 0 && d.grid@.removed_rows == 0
                && d.grid@.modified_rows == 0 && d.grid@.added_cols == 0 && d.grid@.removed_cols == 0))
        },
{
    reveal_strlit("equal");
    reveal_strlit("modified");
    reveal_strlit("added");
    reveal_strlit("removed");
    assert("equal"@[0] != "modified"@[0]);
    let name = d.name@;
    match book_a {
        Some(a) => {
            if exists|i: int| 0 <= i < a.len() && (#[trigger] a[i]).0 == name {
                let i = choose|i: int| 0 <= i < a.len() && (#[trigger] a[i]).0 == name;
                assert(names_of(a)[i] == name);
            } else {
                if names_of(a).contains(name) {
                    let i = choose|i: int| 0 <= i < names_of(a).len() && names_of(a)[i] == name;
                    assert(a[i].0 == name);
                }
            }
        },
        None => {},
    }
    match book_b {
        Some(b) => {
            if exists|i: int| 0 <= i < b.len() && (#[trigger] b[i]).0 == name {
                let i = choose|i: int| 0 <= i < b.len() && (#[trigger] b[i]).0 == name;
                assert(names_of(b)[i] == name);
            } else {
                if names_of(b).contains(name) {
                    let i = choose|i: int| 0 <= i < names_of(b).len() && names_of(b)[i] == name;
                    assert(b[i].0 == name);
                }
            }
        },
        None => {},
    }
}

} // verus!
