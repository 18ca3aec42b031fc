//! PDF text diff: the text of each page is split into lines, running headers
//! and footers (a line that opens, or closes, every page alike) are
//! stripped, and the flat line stream of each side is diffed as plain text.
//! Extracting the page texts from the files is the caller's part.

use vstd::prelude::*;

use crate::strs::{grid_view, str_eq, strings_view};
use crate::text::{build_text_result, lines_spec, text_lines, text_result_matches, TextResult};

verus! {

/// The pages, at least two, all open with the same line.
pub open spec fn has_running_header(pages: Seq<Seq<Seq<char>>>) -> bool {
    &&& pages.len() >= 2
    &&& forall|i: int| 0 <= i < pages.len() ==> (#[trigger] pages[i]).len() > 0 && pages[i][0] == pages[0][0]
}

/// The pages, at least two, all close with the same line.
pub open spec fn has_running_footer(pages: Seq<Seq<Seq<char>>>) -> bool {
    &&& pages.len() >= 2
    &&& forall|i: int| 0 <= i < pages.len() ==> (#[trigger] pages[i]).len() > 0 && pages[i].last() == pages[0].last()
}

/// The pages without their running header, if they have one.
pub open spec fn strip_header(pages: Seq<Seq<Seq<char>>>) -> Seq<Seq<Seq<char>>> {
    if has_running_header(pages) {
        pages.map_values(|p: Seq<Seq<char>>| p.drop_first())
    } else {
        pages
    }
}

/// The pages without their running footer, if they have one.
pub open spec fn strip_footer(pages: Seq<Seq<Seq<char>>>) -> Seq<Seq<Seq<char>>> {
    if has_running_footer(pages) {
        pages.map_values(|p: Seq<Seq<char>>| p.drop_last())
    } else {
        pages
    }
}

/// The lines of all pages, page after page.
pub open spec fn flatten_lines(pages: Seq<Seq<Seq<char>>>) -> Seq<Seq<char>>
    decreases pages.len(),
{
    if pages.len() == 0 {
        Seq::empty()
    } else {
        flatten_lines(pages.drop_last()) + pages.last()
    }
}

/// The lines that a document's page texts are compared by: each page split
/// into lines, the running header stripped, then the running footer, and the
/// pages read one after the other.
pub open spec fn pdf_lines(pages: Seq<Seq<char>>) -> Seq<Seq<char>> {
    flatten_lines(strip_footer(strip_header(pages.map_values(|p: Seq<char>| lines_spec(p)))))
}

/// The strings `v[lo..hi]`, copied.
fn copy_range(v: &Vec<String>, lo: usize, hi: usize) -> (r: Vec<String>)
    requires
        lo <= hi <= v@.len(),
    ensures
        strings_view(r@) == strings_view(v@).subrange(lo as int, hi as int),
{
    let mut r: Vec<String> = Vec::new();
    let mut i = lo;
    while i < hi
        invariant
            lo <= i <= hi <= v@.len(),
            strings_view(r@) == strings_view(v@).subrange(lo as int, i as int),
        decreases hi - i,
    {
        let s = v[i].clone();
        let ghost prev = r@;
        r.push(s);
        assert(strings_view(r@) =~= strings_view(prev).push(s@));
        i += 1;
        assert(strings_view(r@) =~= strings_view(v@).subrange(lo as int, i as int));
    }
    r
}

/// Whether the pages have a running header.
fn running_header(g: &Vec<Vec<String>>) -> (b: bool)
    ensures
        b == has_running_header(grid_view(g@)),
{
    let ghost gv = grid_view(g@);
    if g.len() < 2 || g[0].len() == 0 {
        assert(g@.len() >= 2 ==> gv[0].len() == 0);
        return false;
    }
    let mut i: usize = 0;
    while i < g.len()
        invariant
            gv == grid_view(g@),
            g@.len() >= 2,
            g@[0]@.len() > 0,
            i <= g@.len(),
            forall|k: int| 0 <= k < i ==> (#[trigger] gv[k]).len() > 0 && gv[k][0] == gv[0][0],
        decreases g@.len() - i,
    {
        assert(gv[i as int] == strings_view(g@[i as int]@));
        if g[i].len() == 0 || !str_eq(g[i][0].as_str(), g[0][0].as_str()) {
            return false;
        }
        i += 1;
    }
    true
}

/// Whether the pages have a running footer.
fn running_footer(g: &Vec<Vec<String>>) -> (b: bool)
    ensures
        b == has_running_footer(grid_view(g@)),
{
    let ghost gv = grid_view(g@);
    if g.len() < 2 || g[0].len() == 0 {
        assert(g@.len() >= 2 ==> gv[0].len() == 0);
        return false;
    }
    let n0 = g[0].len();
    let mut i: usize = 0;
    while i < g.len()
        invariant
            gv == grid_view(g@),
            g@.len() >= 2,
            n0 == g@[0]@.len(),
            n0 > 0,
            i <= g@.len(),
            forall|k: int| 0 <= k < i ==> (#[trigger] gv[k]).len() > 0 && gv[k].last() == gv[0].last(),
        decreases g@.len() - i,
    {
        assert(gv[i as int] == strings_view(g@[i as int]@));
        let n = g[i].len();
        if n == 0 || !str_eq(g[i][n - 1].as_str(), g[0][n0 - 1].as_str()) {
            return false;
        }
        i += 1;
    }
    true
}

/// Each page with the lines `skip_first` and `skip_last` taken off its ends.
fn trim_pages(g: &Vec<Vec<String>>, skip_first: bool, skip_last: bool) -> (r: Vec<Vec<String>>)
    requires
        skip_first || skip_last ==> forall|k: int| 0 <= k < g@.len() ==> (#[trigger] g@[k])@.len() > 0,
    ensures
        grid_view(r@) == grid_view(g@).map_values(
            |p: Seq<Seq<char>>| if skip_first { p.drop_first() } else if skip_last { p.drop_last() } else { p },
        ),
{
    let mut r: Vec<Vec<String>> = Vec::new();
    let mut i: usize = 0;
    while i < g.len()
        invariant
            i <= g@.len(),
            skip_first || skip_last ==> forall|k: int| 0 <= k < g@.len() ==> (#[trigger] g@[k])@.len() > 0,
            grid_view(r@) == grid_view(g@).take(i as int).map_values(
                |p: Seq<Seq<char>>| if skip_first { p.drop_first() } else if skip_last { p.drop_last() } else { p },
            ),
        decreases g@.len() - i,
    {
        let n = g[i].len();
        let page = if skip_first {
            copy_range(&g[i], 1, n)
        } else if skip_last {
            copy_range(&g[i], 0, n - 1)
        } else {
            copy_range(&g[i], 0, n)
        };
        let ghost pv = strings_view(g@[i as int]@);
        assert(pv.subrange(1, n as int) =~= pv.drop_first() || !skip_first);
        assert(skip_first || !skip_last || pv.subrange(0, n - 1) =~= pv.drop_last());
        assert(pv.subrange(0, n as int) =~= pv);
        let ghost prev = r@;
        r.push(page);
        assert(grid_view(r@) =~= grid_view(prev).push(strings_view(page@)));
        assert(grid_view(g@).take(i as int + 1) =~= grid_view(g@).take(i as int).push(pv));
        i += 1;
    }
    assert(grid_view(g@).take(i as int) =~= grid_view(g@));
    r
}

/// The lines of all pages, page after page.
fn flatten(g: &Vec<Vec<String>>) -> (r: Vec<String>)
    ensures
        strings_view(r@) == flatten_lines(grid_view(g@)),
{
    let mut r: Vec<String> = Vec::new();
    let mut i: usize = 0;
    while i < g.len()
        invariant
            i <= g@.len(),
            strings_view(r@) == flatten_lines(grid_view(g@).take(i as int)),
        decreases g@.len() - i,
    {
        let page = copy_range(&g[i], 0, g[i].len());
        let ghost before = strings_view(r@);
        let mut j: usize = 0;
        while j < page.len()
            invariant
                j <= page@.len(),
                strings_view(r@) == before + strings_view(page@).take(j as int),
            decreases page@.len() - j,
        {
            let s = page[j].clone();
            let ghost prev = r@;
            r.push(s);
            assert(strings_view(r@) =~= strings_view(prev).push(s@));
            assert(strings_view(page@).take(j as int + 1) =~= strings_view(page@).take(j as int).push(s@));
            assert(strings_view(r@) =~= before + strings_view(page@).take(j as int + 1));
            j += 1;
        }
        let ghost gv = grid_view(g@);
        assert(strings_view(page@).take(j as int) =~= strings_view(page@));
        assert(strings_view(g@[i as int]@).subrange(0, g@[i as int]@.len() as int) =~= gv[i as int]);
        assert(gv.take(i as int + 1).drop_last() =~= gv.take(i as int));
        i += 1;
    }
    assert(grid_view(g@).take(i as int) =~= grid_view(g@));
    r
}

/// The lines that a document is compared by: its pages split into lines,
/// running header and footer stripped, pages read one after the other.
pub fn document_lines(pages: &Vec<String>) -> (r: Vec<String>)
    ensures
        strings_view(r@) == pdf_lines(strings_view(pages@)),
{
    let ghost split = strings_view(pages@).map_values(|p: Seq<char>| lines_spec(p));
    let mut g: Vec<Vec<String>> = Vec::new();
    let mut i: usize = 0;
    while i < pages.len()
        invariant
            i <= pages@.len(),
            split == strings_view(pages@).map_values(|p: Seq<char>| lines_spec(p)),
            grid_view(g@) == split.take(i as int),
        decreases pages@.len() - i,
    {
        let lines = text_lines(pages[i].as_str());
        let ghost prev = g@;
        g.push(lines);
        assert(grid_view(g@) =~= grid_view(prev).push(strings_view(lines@)));
        assert(split.take(i as int + 1) =~= split.take(i as int).push(split[i as int]));
        i += 1;
    }
    assert(split.take(i as int) =~= split);
    let header = running_header(&g);
    proof {
        if header {
            assert forall|k: int| 0 <= k < g@.len() implies (#[trigger] g@[k])@.len() > 0 by {
                assert(grid_view(g@)[k] == strings_view(g@[k]@));
            }
        }
    }
    let g1 = trim_pages(&g, header, false);
    proof {
        if !header {
            assert(grid_view(g1@) =~= grid_view(g@));
        } else {
            assert(grid_view(g1@) =~= grid_view(g@).map_values(|p: Seq<Seq<char>>| p.drop_first()));
        }
    }
    let footer = running_footer(&g1);
    proof {
        if footer {
            assert forall|k: int| 0 <= k < g1@.len() implies (#[trigger] g1@[k])@.len() > 0 by {
                assert(grid_view(g1@)[k] == strings_view(g1@[k]@));
            }
        }
    }
    let g2 = trim_pages(&g1, false, footer);
    proof {
        if !footer {
            assert(grid_view(g2@) =~= grid_view(g1@));
        } else {
            assert(grid_view(g2@) =~= grid_view(g1@).map_values(|p: Seq<Seq<char>>| p.drop_last()));
        }
    }
    flatten(&g2)
}

/// PDF diff of two documents given by the texts of their pages (none for an
/// absent file), or by the error that extracting them gave, which is passed
/// on, side A first. The lines of each side are its page lines with running
/// headers and footers stripped, diffed as plain text.
pub fn pdf_diff(
    path_a: &str,
    path_b: &str,
    pages_a: Result<Vec<String>, String>,
    pages_b: Result<Vec<String>, String>,
) -> (r: Result<TextResult, String>)
    ensures
        pages_a matches Err(e) ==> r == Err::<TextResult, String>(e),
        pages_a is Ok ==> (pages_b matches Err(e) ==> r == Err::<TextResult, String>(e)),
        pages_a matches Ok(a) ==> (pages_b matches Ok(b) ==> (r matches Ok(res) && text_result_matches(
            res,
            path_a@,
            path_b@,
            pdf_lines(strings_view(a@)),
            pdf_lines(strings_view(b@)),
        ))),
{
    let a = pages_a?;
    let b = pages_b?;
    let la = document_lines(&a);
    let lb = document_lines(&b);
    Ok(build_text_result(path_a, path_b, la, lb))
}

} // verus!
