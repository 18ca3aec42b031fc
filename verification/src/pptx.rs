//! PowerPoint (.pptx) diff: the text runs of each slide, slides aligned by
//! content similarity, then a line diff of each aligned slide pair.

use vstd::prelude::*;

use crate::ops::{edit_script, ops_view, pair_spec, line_diff_spec, paired_line_ops, LineOp, LineOpView};
use crate::sort::{sort_by_key, sorted_by, stable_sort, views, Keyed};
use crate::strs::{lemma_trim_idempotent, parse_usize, parse_usize_spec, str_eq, strings_view, strip_affixes, strip_affixes_spec, trim_spec, trimmed};
use crate::xml::{same_up_to_prefix, streams_same_up_to_prefix, 
    events_view, local_name_spec, xml_events, xml_events_spec, xml_local_name,
    XmlEvent, XmlEventView,
};

verus! {

/// One slide's content: its 1-based slide number and the text lines it contains.
#[derive(Debug, Clone)]
pub struct SlideContent {
    /// 1-based slide number.
    pub slide: usize,
    /// Text blocks extracted from this slide (one per `<a:t>` run).
    pub lines: Vec<String>,
}

/// The text lines of each slide.
pub open spec fn slide_lines(v: Seq<SlideContent>) -> Seq<Seq<Seq<char>>> {
    v.map_values(|s: SlideContent| strings_view(s.lines@))
}

/// Whether `s` holds `x`.
fn contains_line(s: &Vec<String>, x: &String) -> (r: bool)
    ensures
        r == strings_view(s@).contains(x@),
{
    let mut i: usize = 0;
    while i < s.len()
        invariant
            i <= s@.len(),
            forall|k: int| 0 <= k < i ==> strings_view(s@)[k] != x@,
        decreases s@.len() - i,
    {
        if str_eq(s[i].as_str(), x.as_str()) {
            assert(strings_view(s@)[i as int] == x@);
            return true;
        }
        i += 1;
    }
    assert forall|k: int| 0 <= k < strings_view(s@).len() implies strings_view(s@)[k] != x@ by {}
    false
}

/// Whether the two line lists are equal.
pub fn lines_eq(a: &Vec<String>, b: &Vec<String>) -> (r: bool)
    ensures
        r == (strings_view(a@) == strings_view(b@)),
{
    if a.len() != b.len() {
        return false;
    }
    let mut i: usize = 0;
    while i < a.len()
        invariant
            a@.len() == b@.len(),
            i <= a@.len(),
            forall|k: int| 0 <= k < i ==> strings_view(a@)[k] == strings_view(b@)[k],
        decreases a@.len() - i,
    {
        if !str_eq(a[i].as_str(), b[i].as_str()) {
            assert(strings_view(a@)[i as int] != strings_view(b@)[i as int]);
            return false;
        }
        i += 1;
    }
    assert(strings_view(a@) =~= strings_view(b@));
    true
}

/// The distinct lines of `s`, in order of first occurrence.
pub open spec fn distinct(s: Seq<Seq<char>>) -> Seq<Seq<char>>
    decreases s.len(),
{
    if s.len() == 0 {
        s
    } else {
        let d = distinct(s.drop_last());
        if d.contains(s.last()) {
            d
        } else {
            d.push(s.last())
        }
    }
}

/// How many lines of `s` occur (`inside`) or do not occur in `other`.
pub open spec fn count_in(s: Seq<Seq<char>>, other: Seq<Seq<char>>, inside: bool) -> nat
    decreases s.len(),
{
    if s.len() == 0 {
        0
    } else {
        count_in(s.drop_last(), other, inside) + if other.contains(s.last()) == inside {
            1nat
        } else {
            0nat
        }
    }
}

/// The lines the two slides share, as a set.
pub open spec fn shared_lines(a: Seq<Seq<char>>, b: Seq<Seq<char>>) -> nat {
    count_in(distinct(a), b, true)
}

/// The lines of either slide, as a set.
pub open spec fn union_lines(a: Seq<Seq<char>>, b: Seq<Seq<char>>) -> nat {
    distinct(a).len() + count_in(distinct(b), a, false)
}

/// The Jaccard similarity of the two slides' line sets as a fraction
/// `(numerator, denominator)`: 1 for two empty slides, else shared lines over
/// all lines (0 over 1 where there are none).
pub open spec fn similarity_spec(a: Seq<Seq<char>>, b: Seq<Seq<char>>) -> (nat, nat) {
    if a.len() == 0 && b.len() == 0 {
        (1, 1)
    } else if union_lines(a, b) == 0 {
        (0, 1)
    } else {
        (shared_lines(a, b), union_lines(a, b))
    }
}

/// A similarity, the fraction `num / den`.
pub struct Similarity {
    pub num: usize,
    pub den: usize,
}

fn distinct_lines(s: &Vec<String>) -> (r: Vec<String>)
    ensures
        strings_view(r@) == distinct(strings_view(s@)),
        r@.len() <= s@.len(),
{
    let mut r: Vec<String> = Vec::new();
    let mut i: usize = 0;
    while i < s.len()
        invariant
            i <= s@.len(),
            r@.len() <= i,
            strings_view(r@) == distinct(strings_view(s@).take(i as int)),
        decreases s@.len() - i,
    {
        let ghost sv = strings_view(s@);
        assert(sv.take(i as int + 1).drop_last() =~= sv.take(i as int));
        assert(sv.take(i as int + 1).last() == s@[i as int]@);
        if !contains_line(&r, &s[i]) {
            let c = s[i].clone();
            let ghost prev = r@;
            r.push(c);
            assert(strings_view(r@) =~= strings_view(prev).push(c@));
        }
        i += 1;
    }
    assert(strings_view(s@).take(i as int) =~= strings_view(s@));
    r
}

fn count_lines_in(s: &Vec<String>, other: &Vec<String>, inside: bool) -> (n: usize)
    ensures
        n == count_in(strings_view(s@), strings_view(other@), inside),
        n <= s@.len(),
{
    let mut n: usize = 0;
    let mut i: usize = 0;
    while i < s.len()
        invariant
            i <= s@.len(),
            n <= i,
            n == count_in(strings_view(s@).take(i as int), strings_view(other@), inside),
        decreases s@.len() - i,
    {
        let ghost sv = strings_view(s@);
        assert(sv.take(i as int + 1).drop_last() =~= sv.take(i as int));
        assert(sv.take(i as int + 1).last() == s@[i as int]@);
        if contains_line(other, &s[i]) == inside {
            n += 1;
        }
        i += 1;
    }
    assert(strings_view(s@).take(i as int) =~= strings_view(s@));
    n
}

/// Fraction of shared text lines between two slides (Jaccard over line sets).
pub fn slide_similarity(a: &Vec<String>, b: &Vec<String>) -> (r: Similarity)
    requires
        a@.len() + b@.len() <= usize::MAX,
    ensures
        (r.num as nat, r.den as nat) == similarity_spec(strings_view(a@), strings_view(b@)),
{
    if a.len() == 0 && b.len() == 0 {
        return Similarity { num: 1, den: 1 };
    }
    let da = distinct_lines(a);
    let db = distinct_lines(b);
    let shared = count_lines_in(&da, b, true);
    let only_b = count_lines_in(&db, a, false);
    let union = da.len() + only_b;
    if union == 0 {
        Similarity { num: 0, den: 1 }
    } else {
        Similarity { num: shared, den: union }
    }
}

} // verus!

verus! {

/// One aligned slide pair: 0-based indices into A and B, `None` when absent.
#[derive(Clone, Copy, Debug)]
pub struct SlidePair {
    pub a: Option<usize>,
    pub b: Option<usize>,
}

/// The mathematical value of a slide pair.
pub open spec fn pair_view(p: SlidePair) -> (Option<nat>, Option<nat>) {
    (
        match p.a {
            Some(i) => Some(i as nat),
            None => None,
        },
        match p.b {
            Some(j) => Some(j as nat),
            None => None,
        },
    )
}

/// The views of a list of slide pairs.
pub open spec fn pairs_view(v: Seq<SlidePair>) -> Seq<(Option<nat>, Option<nat>)> {
    v.map_values(|p: SlidePair| pair_view(p))
}

/// Every pair of slides fits in memory together: their line counts add up
/// to at most `usize::MAX`.
pub open spec fn slides_fit(a: Seq<Seq<Seq<char>>>, b: Seq<Seq<Seq<char>>>) -> bool {
    forall|i: int, j: int| 0 <= i < a.len() && 0 <= j < b.len() ==> #[trigger] a[i].len() + #[trigger] b[j].len() <= usize::MAX
}

/// Whether the fraction `n1 / d1` exceeds `n2 / d2` (both denominators
/// positive).
pub open spec fn frac_gt(n1: nat, d1: nat, n2: nat, d2: nat) -> bool {
    n1 * d2 > n2 * d1
}

/// The best unused B slide for `lines` among the first `k` B slides: the
/// first one of strictly greatest similarity, if that similarity is above
/// zero, with that similarity.
pub open spec fn best_scan(
    lines: Seq<Seq<char>>,
    b: Seq<Seq<Seq<char>>>,
    used: Seq<bool>,
    k: nat,
) -> (Option<nat>, nat, nat)
    decreases k,
{
    if k == 0 {
        (None, 0, 1)
    } else {
        let (bj, bn, bd) = best_scan(lines, b, used, (k - 1) as nat);
        let j = (k - 1) as nat;
        if used[j as int] {
            (bj, bn, bd)
        } else {
            let (n, d) = similarity_spec(lines, b[j as int]);
            if frac_gt(n, d, bn, bd) {
                (Some(j), n, d)
            } else {
                (bj, bn, bd)
            }
        }
    }
}

/// The alignment after the first `i` A slides: the pairs so far and which B
/// slides are taken.
pub open spec fn align_prefix(
    a: Seq<Seq<Seq<char>>>,
    b: Seq<Seq<Seq<char>>>,
    i: nat,
) -> (Seq<(Option<nat>, Option<nat>)>, Seq<bool>)
    decreases i,
{
    if i == 0 {
        (Seq::empty(), Seq::new(b.len(), |j: int| false))
    } else {
        let (pairs, used) = align_prefix(a, b, (i - 1) as nat);
        let x = (i - 1) as nat;
        let (n, d) = similarity_spec(a[x as int], b[x as int]);
        if x < b.len() && !used[x as int] && 5 * n >= 2 * d {
            (pairs.push((Some(x), Some(x))), used.update(x as int, true))
        } else {
            let (bj, bn, bd) = best_scan(a[x as int], b, used, b.len());
            if bj is Some && 2 * bn >= bd {
                (pairs.push((Some(x), bj)), used.update(bj->0 as int, true))
            } else {
                (pairs.push((Some(x), None)), used)
            }
        }
    }
}

/// The B slides among the first `k` that are not taken, as additions.
pub open spec fn leftovers(used: Seq<bool>, k: nat) -> Seq<(Option<nat>, Option<nat>)>
    decreases k,
{
    if k == 0 {
        Seq::empty()
    } else {
        let prev = leftovers(used, (k - 1) as nat);
        if used[k - 1] {
            prev
        } else {
            prev.push((None, Some((k - 1) as nat)))
        }
    }
}

/// Slide alignment: each A slide in order is paired with the B slide at the
/// same position when that one is free and at least 2/5 similar; else with
/// the first free B slide of greatest similarity when that is at least 1/2;
/// else it stands alone as removed. The B slides left free follow in order
/// as additions.
pub open spec fn align_spec(a: Seq<Seq<Seq<char>>>, b: Seq<Seq<Seq<char>>>) -> Seq<(Option<nat>, Option<nat>)> {
    let (pairs, used) = align_prefix(a, b, a.len());
    pairs + leftovers(used, b.len())
}

proof fn lemma_align_used_len(a: Seq<Seq<Seq<char>>>, b: Seq<Seq<Seq<char>>>, i: nat)
    requires
        i <= a.len(),
    ensures
        align_prefix(a, b, i).1.len() == b.len(),
        align_prefix(a, b, i).0.len() == i,
    decreases i,
{
    if i > 0 {
        lemma_align_used_len(a, b, (i - 1) as nat);
        let (pairs, used) = align_prefix(a, b, (i - 1) as nat);
        lemma_best_scan_bound(a[i - 1], b, used, b.len());
    }
}

proof fn lemma_best_scan_bound(lines: Seq<Seq<char>>, b: Seq<Seq<Seq<char>>>, used: Seq<bool>, k: nat)
    ensures
        best_scan(lines, b, used, k).0 matches Some(j) ==> j < k,
        best_scan(lines, b, used, k).2 > 0,
    decreases k,
{
    if k > 0 {
        lemma_best_scan_bound(lines, b, used, (k - 1) as nat);
    }
}

proof fn lemma_mul_fits(x: u128, y: u128)
    requires
        x <= usize::MAX,
        y <= usize::MAX,
    ensures
        x * y <= u128::MAX,
{
    assert(usize::MAX <= 0xffff_ffff_ffff_ffffu128);
    assert(x * y <= 0xffff_ffff_ffff_ffffu128 * 0xffff_ffff_ffff_ffffu128) by (nonlinear_arith)
        requires
            x <= 0xffff_ffff_ffff_ffffu128,
            y <= 0xffff_ffff_ffff_ffffu128,
    ;
}

proof fn lemma_similarity_den(a: Seq<Seq<char>>, b: Seq<Seq<char>>)
    ensures
        similarity_spec(a, b).1 > 0,
{
}

/// Align slides by content similarity. Identical slides pair as equal;
/// similar slides (at least 2/5 of their lines shared) pair in place; the
/// rest look for the most similar free slide (at least 1/2), with leftovers
/// as pure add/remove.
pub fn align_slides(a: &Vec<SlideContent>, b: &Vec<SlideContent>) -> (r: Vec<SlidePair>)
    requires
        slides_fit(slide_lines(a@), slide_lines(b@)),
    ensures
        pairs_view(r@) == align_spec(slide_lines(a@), slide_lines(b@)),
{
    let ghost la = slide_lines(a@);
    let ghost lb = slide_lines(b@);
    let mut pairs: Vec<SlidePair> = Vec::new();
    let mut used_b: Vec<bool> = vec![false; b.len()];
    proof {
        assert(used_b@ =~= Seq::new(b@.len(), |j: int| false));
    }
    let mut i: usize = 0;
    while i < a.len()
        invariant
            la == slide_lines(a@),
            lb == slide_lines(b@),
            slides_fit(la, lb),
            i <= a@.len(),
            pairs_view(pairs@) == align_prefix(la, lb, i as nat).0,
            used_b@ == align_prefix(la, lb, i as nat).1,
            used_b@.len() == b@.len(),
        decreases a@.len() - i,
    {
        proof {
            lemma_align_used_len(la, lb, i as nat);
        }
        let ghost used0 = used_b@;
        let ghost pairs0 = pairs@;
        assert(la[i as int] == strings_view(a@[i as int].lines@));
        if i < b.len() && !used_b[i] {
            assert(lb[i as int] == strings_view(b@[i as int].lines@));
            assert(la[i as int].len() + lb[i as int].len() <= usize::MAX);
            let sim = slide_similarity(&a[i].lines, &b[i].lines);
            if 5 * (sim.num as u128) >= 2 * (sim.den as u128) {
                used_b.set(i, true);
                let p = SlidePair { a: Some(i), b: Some(i) };
                pairs.push(p);
                assert(pairs_view(pairs@) =~= pairs_view(pairs0).push(pair_view(p)));
                i += 1;
                continue;
            }
        }
        let mut best_j: Option<usize> = None;
        let mut best_num: usize = 0;
        let mut best_den: usize = 1;
        let mut j: usize = 0;
        while j < b.len()
            invariant
                la == slide_lines(a@),
                lb == slide_lines(b@),
                slides_fit(la, lb),
                i < a@.len(),
                j <= b@.len(),
                used_b@ == used0,
                used0.len() == b@.len(),
                ({
                    let (bj, bn, bd) = best_scan(la[i as int], lb, used0, j as nat);
                    &&& bn == best_num
                    &&& bd == best_den
                    &&& bj == match best_j {
                        Some(x) => Some(x as nat),
                        None => None::<nat>,
                    }
                }),
                best_den > 0,
            decreases b@.len() - j,
        {
            if !used_b[j] {
                assert(la[i as int] == strings_view(a@[i as int].lines@));
                assert(lb[j as int] == strings_view(b@[j as int].lines@));
                assert(la[i as int].len() + lb[j as int].len() <= usize::MAX);
                let sim = slide_similarity(&a[i].lines, &b[j].lines);
                proof {
                    lemma_similarity_den(la[i as int], lb[j as int]);
                    lemma_mul_fits(sim.num as u128, best_den as u128);
                    lemma_mul_fits(best_num as u128, sim.den as u128);
                }
                if (sim.num as u128) * (best_den as u128) > (best_num as u128) * (sim.den as u128) {
                    best_num = sim.num;
                    best_den = sim.den;
                    best_j = Some(j);
                }
            }
            j += 1;
        }
        proof {
            lemma_best_scan_bound(la[i as int], lb, used0, b@.len() as nat);
        }
        if best_j.is_some() && 2 * (best_num as u128) >= best_den as u128 {
            let jj = best_j.unwrap();
            used_b.set(jj, true);
            let p = SlidePair { a: Some(i), b: Some(jj) };
            pairs.push(p);
            assert(pairs_view(pairs@) =~= pairs_view(pairs0).push(pair_view(p)));
        } else {
            let p = SlidePair { a: Some(i), b: None };
            pairs.push(p);
            assert(pairs_view(pairs@) =~= pairs_view(pairs0).push(pair_view(p)));
        }
        i += 1;
    }
    let ghost used = used_b@;
    let ghost main = pairs@;
    let mut j: usize = 0;
    while j < b.len()
        invariant
            j <= b@.len(),
            used_b@ == used,
            used.len() == b@.len(),
            pairs_view(pairs@) == pairs_view(main) + leftovers(used, j as nat),
        decreases b@.len() - j,
    {
        if !used_b[j] {
            let p = SlidePair { a: None, b: Some(j) };
            let ghost prev = pairs@;
            pairs.push(p);
            assert(pairs_view(pairs@) =~= pairs_view(prev).push(pair_view(p)));
        }
        j += 1;
    }
    pairs
}

} // verus!

verus! {

/// Strip namespace prefix ("a:t" -> "t").
pub fn local_name(raw: &[u8]) -> (s: String)
    ensures
        s@ == local_name_spec(raw@),
{
    xml_local_name(raw)
}

/// The state of the slide text walker: lines so far, whether inside a text
/// run, the run's text, whether stopped.
pub struct SlideState {
    pub lines: Seq<Seq<char>>,
    pub in_text: bool,
    pub buf: Seq<char>,
    pub done: bool,
}

/// One step of the slide text walker.
pub open spec fn slide_step(s: SlideState, e: XmlEventView) -> SlideState {
    if s.done {
        s
    } else {
        match e {
            XmlEventView::Start(n) => if local_name_spec(n) == "t"@ {
                SlideState { in_text: true, buf: Seq::empty(), ..s }
            } else {
                s
            },
            XmlEventView::Text(t) => if s.in_text {
                SlideState { buf: s.buf + t, ..s }
            } else {
                s
            },
            XmlEventView::End(n) => if local_name_spec(n) == "t"@ && s.in_text {
                let text = trim_spec(s.buf);
                if text.len() > 0 {
                    SlideState { lines: s.lines.push(text), in_text: false, ..s }
                } else {
                    SlideState { in_text: false, ..s }
                }
            } else {
                s
            },
            XmlEventView::Eof => SlideState { done: true, ..s },
            XmlEventView::Failed => SlideState { done: true, ..s },
            XmlEventView::Other => s,
        }
    }
}

/// The walker's state after the given events.
pub open spec fn slide_run(events: Seq<XmlEventView>) -> SlideState
    decreases events.len(),
{
    if events.len() == 0 {
        SlideState { lines: Seq::empty(), in_text: false, buf: Seq::empty(), done: false }
    } else {
        slide_step(slide_run(events.drop_last()), events.last())
    }
}

proof fn lemma_slide_run_done(events: Seq<XmlEventView>, k: int)
    requires
        0 <= k <= events.len(),
        slide_run(events.take(k)).done,
    ensures
        slide_run(events) == slide_run(events.take(k)),
    decreases events.len() - k,
{
    if k < events.len() {
        assert(events.take(k + 1).drop_last() =~= events.take(k));
        lemma_slide_run_done(events, k + 1);
    } else {
        assert(events.take(k) =~= events);
    }
}

/// The trimmed, non-empty text runs (`<a:t>`) among the events, in order.
pub fn slide_text_from_events(events: &Vec<XmlEvent>) -> (lines: Vec<String>)
    ensures
        strings_view(lines@) == slide_run(events_view(events@)).lines,
{
    let ghost evs = events_view(events@);
    let mut lines: Vec<String> = Vec::new();
    let mut in_text = false;
    let mut buf = String::new();
    let mut i: usize = 0;
    while i < events.len()
        invariant
            evs == events_view(events@),
            i <= events@.len(),
            !slide_run(evs.take(i as int)).done,
            ({
                let s = slide_run(evs.take(i as int));
                &&& s.lines == strings_view(lines@)
                &&& s.in_text == in_text
                &&& s.buf == buf@
            }),
        decreases events@.len() - i,
    {
        assert(evs.take(i as int + 1).drop_last() =~= evs.take(i as int));
        assert(evs[i as int] == events@[i as int]@);
        match &events[i] {
            XmlEvent::Start(raw) => {
                if str_eq(local_name(raw.as_slice()).as_str(), "t") {
                    in_text = true;
                    buf = String::new();
                }
            },
            XmlEvent::Text(t) => {
                if in_text {
                    buf.append(t.as_str());
                }
            },
            XmlEvent::End(raw) => {
                if in_text && str_eq(local_name(raw.as_slice()).as_str(), "t") {
                    let text = trimmed(&buf);
                    if !text.as_str().is_empty() {
                        let ghost prev = lines@;
                        lines.push(text);
                        assert(strings_view(lines@) =~= strings_view(prev).push(text@));
                    }
                    in_text = false;
                }
            },
            XmlEvent::Eof => {
                proof {
                    lemma_slide_run_done(evs, i as int + 1);
                }
                return lines;
            },
            XmlEvent::Failed => {
                proof {
                    lemma_slide_run_done(evs, i as int + 1);
                }
                return lines;
            },
            XmlEvent::Other => {},
        }
        i += 1;
    }
    assert(evs.take(i as int) =~= evs);
    lines
}

/// Extract all text runs (`<a:t>...</a:t>`) from a slide XML, in document order.
pub fn extract_slide_text(xml: &str) -> (lines: Vec<String>)
    ensures
        strings_view(lines@) == slide_run(xml_events_spec(xml@)).lines,
{
    let events = xml_events(xml);
    slide_text_from_events(&events)
}

} // verus!

verus! {

/// One aligned slide pair in the diff output.
#[derive(Debug, Clone)]
pub struct SlideDiff {
    /// "equal" | "modified" | "added" | "removed".
    pub status: String,
    /// 1-based slide number in A (0 = absent).
    pub slide_a: usize,
    /// 1-based slide number in B (0 = absent).
    pub slide_b: usize,
    /// Line-level ops for this slide pair (only populated for Modified).
    pub ops: Vec<LineOp>,
}

#[derive(Debug, Clone)]
pub struct PptxResult {
    pub file_type: String,
    pub path_a: String,
    pub path_b: String,
    pub slides: Vec<SlideDiff>,
    pub added: usize,
    pub modified: usize,
    pub removed: usize,
}

/// The mathematical value of a slide diff: status, slide numbers, operations.
pub open spec fn slide_diff_view(d: SlideDiff) -> (Seq<char>, nat, nat, Seq<LineOpView>) {
    (d.status@, d.slide_a as nat, d.slide_b as nat, ops_view(d.ops@))
}

/// The diff row of one aligned pair: both present and equal, both present
/// and modified (with the paired line diff of their texts), only in A
/// (removed), only in B (added).
pub open spec fn slide_diff_spec(
    p: (Option<nat>, Option<nat>),
    la: Seq<Seq<Seq<char>>>,
    lb: Seq<Seq<Seq<char>>>,
) -> (Seq<char>, nat, nat, Seq<LineOpView>) {
    match p {
        (Some(i), Some(j)) => if la[i as int] == lb[j as int] {
            ("equal"@, i + 1, j + 1, Seq::empty())
        } else {
            ("modified"@, i + 1, j + 1, pair_spec(line_diff_spec(la[i as int], lb[j as int])))
        },
        (Some(i), None) => ("removed"@, i + 1, 0, Seq::empty()),
        (None, Some(j)) => ("added"@, 0, j + 1, Seq::empty()),
        (None, None) => (Seq::empty(), 0, 0, Seq::empty()),
    }
}

/// How many diff rows have the given status.
pub open spec fn status_count(rows: Seq<(Seq<char>, nat, nat, Seq<LineOpView>)>, status: Seq<char>) -> nat
    decreases rows.len(),
{
    if rows.len() == 0 {
        0
    } else {
        status_count(rows.drop_last(), status) + if rows.last().0 == status { 1nat } else { 0nat }
    }
}

/// The diff rows of all aligned pairs.
pub open spec fn slide_rows(a: Seq<Seq<Seq<char>>>, b: Seq<Seq<Seq<char>>>) -> Seq<(Seq<char>, nat, nat, Seq<LineOpView>)> {
    align_spec(a, b).map_values(|p: (Option<nat>, Option<nat>)| slide_diff_spec(p, a, b))
}

/// What the pptx result holds for slides with the given texts.
pub open spec fn pptx_result_matches(
    r: PptxResult,
    path_a: Seq<char>,
    path_b: Seq<char>,
    a: Seq<Seq<Seq<char>>>,
    b: Seq<Seq<Seq<char>>>,
) -> bool {
    let rows = slide_rows(a, b);
    &&& r.file_type@ == "pptx"@
    &&& r.path_a@ == path_a
    &&& r.path_b@ == path_b
    &&& r.slides@.map_values(|d: SlideDiff| slide_diff_view(d)) == rows
    &&& r.added == status_count(rows, "added"@)
    &&& r.modified == status_count(rows, "modified"@)
    &&& r.removed == status_count(rows, "removed"@)
    &&& modified_rows_scripted(r.slides@, a, b)
}

/// Each modified row names a slide on both sides whose lines differ, and its
/// operations are a non-empty edit script from the A slide's lines to the B
/// slide's lines.
pub open spec fn modified_rows_scripted(d: Seq<SlideDiff>, a: Seq<Seq<Seq<char>>>, b: Seq<Seq<Seq<char>>>) -> bool {
    forall|k: int|
        0 <= k < d.len() && (#[trigger] d[k]).status@ == "modified"@ ==> {
            &&& 0 < d[k].slide_a <= a.len()
            &&& 0 < d[k].slide_b <= b.len()
            &&& a[d[k].slide_a - 1] != b[d[k].slide_b - 1]
            &&& edit_script(ops_view(d[k].ops@), a[d[k].slide_a - 1], b[d[k].slide_b - 1])
            &&& d[k].ops@.len() > 0
        }
}

proof fn lemma_align_bounds(a: Seq<Seq<Seq<char>>>, b: Seq<Seq<Seq<char>>>)
    ensures
        forall|k: int| 0 <= k < align_spec(a, b).len() ==> {
            let p = #[trigger] align_spec(a, b)[k];
            &&& (p.0 matches Some(i) ==> i < a.len())
            &&& (p.1 matches Some(j) ==> j < b.len())
        },
{
    lemma_align_prefix_bounds(a, b, a.len());
    lemma_leftovers_bounds(align_prefix(a, b, a.len()).1, b.len());
    let (pairs, used) = align_prefix(a, b, a.len());
    lemma_align_used_len(a, b, a.len());
    assert forall|k: int| 0 <= k < align_spec(a, b).len() implies {
        let p = #[trigger] align_spec(a, b)[k];
        &&& (p.0 matches Some(i) ==> i < a.len())
        &&& (p.1 matches Some(j) ==> j < b.len())
    } by {
        if k < pairs.len() {
            assert(align_spec(a, b)[k] == pairs[k]);
        } else {
            assert(align_spec(a, b)[k] == leftovers(used, b.len())[k - pairs.len()]);
        }
    }
}

proof fn lemma_align_prefix_bounds(a: Seq<Seq<Seq<char>>>, b: Seq<Seq<Seq<char>>>, i: nat)
    requires
        i <= a.len(),
    ensures
        forall|k: int| 0 <= k < align_prefix(a, b, i).0.len() ==> {
            let p = #[trigger] align_prefix(a, b, i).0[k];
            &&& (p.0 matches Some(x) ==> x < a.len())
            &&& (p.1 matches Some(j) ==> j < b.len())
        },
    decreases i,
{
    if i > 0 {
        lemma_align_prefix_bounds(a, b, (i - 1) as nat);
        let (pairs, used) = align_prefix(a, b, (i - 1) as nat);
        lemma_align_used_len(a, b, (i - 1) as nat);
        lemma_best_scan_bound(a[i - 1], b, used, b.len());
        assert forall|k: int| 0 <= k < align_prefix(a, b, i).0.len() implies {
            let p = #[trigger] align_prefix(a, b, i).0[k];
            &&& (p.0 matches Some(x) ==> x < a.len())
            &&& (p.1 matches Some(j) ==> j < b.len())
        } by {
            if k < pairs.len() {
                assert(align_prefix(a, b, i).0[k] == pairs[k]);
            }
        }
    }
}

proof fn lemma_leftovers_bounds(used: Seq<bool>, k: nat)
    ensures
        forall|m: int| 0 <= m < leftovers(used, k).len() ==> {
            let p = #[trigger] leftovers(used, k)[m];
            &&& p.0 is None
            &&& (p.1 matches Some(j) ==> j < k)
        },
    decreases k,
{
    if k > 0 {
        lemma_leftovers_bounds(used, (k - 1) as nat);
    }
}

fn status_string(s: &str) -> (r: String)
    ensures
        r@ == s@,
{
    String::from_str(s)
}

/// Build the pptx result from both sides' slides.
#[verifier::rlimit(60)]
pub fn pptx_result(path_a: &str, path_b: &str, slides_a: &Vec<SlideContent>, slides_b: &Vec<SlideContent>) -> (r: PptxResult)
    requires
        slides_fit(slide_lines(slides_a@), slide_lines(slides_b@)),
    ensures
        pptx_result_matches(r, path_a@, path_b@, slide_lines(slides_a@), slide_lines(slides_b@)),
{
    let ghost la = slide_lines(slides_a@);
    let ghost lb = slide_lines(slides_b@);
    let pairs = align_slides(slides_a, slides_b);
    proof {
        lemma_align_bounds(la, lb);
    }
    let ghost rows = slide_rows(la, lb);
    let mut out: Vec<SlideDiff> = Vec::new();
    let mut added: usize = 0;
    let mut modified: usize = 0;
    let mut removed: usize = 0;
    let na = slides_a.len();
    let nb = slides_b.len();
    let mut k: usize = 0;
    while k < pairs.len()
        invariant
            na == slides_a@.len(),
            nb == slides_b@.len(),
            la == slide_lines(slides_a@),
            lb == slide_lines(slides_b@),
            rows == slide_rows(la, lb),
            pairs_view(pairs@) == align_spec(la, lb),
            forall|m: int| 0 <= m < align_spec(la, lb).len() ==> {
                let p = #[trigger] align_spec(la, lb)[m];
                &&& (p.0 matches Some(i) ==> i < la.len())
                &&& (p.1 matches Some(j) ==> j < lb.len())
            },
            k <= pairs@.len(),
            out@.map_values(|d: SlideDiff| slide_diff_view(d)) == rows.take(k as int),
            added == status_count(rows.take(k as int), "added"@),
            modified == status_count(rows.take(k as int), "modified"@),
            removed == status_count(rows.take(k as int), "removed"@),
            added + modified + removed <= k,
            modified_rows_scripted(out@, la, lb),
        decreases pairs@.len() - k,
    {
        proof {
            reveal_strlit("equal");
            reveal_strlit("modified");
            reveal_strlit("added");
            reveal_strlit("removed");
            assert("added"@.len() == 5 && "modified"@.len() == 8 && "removed"@.len() == 7 && "equal"@.len() == 5);
            assert("added"@[0] != "equal"@[0]);
            assert("added"@ != "modified"@ && "added"@ != "removed"@ && "added"@ != "equal"@);
            assert("modified"@ != "removed"@ && "modified"@ != "equal"@ && "removed"@ != "equal"@);
            assert("added"@.len() > 0 && "modified"@.len() > 0 && "removed"@.len() > 0);
        }
        let p = pairs[k];
        let ghost pv = pair_view(p);
        assert(pv == align_spec(la, lb)[k as int]);
        assert(p.a matches Some(x) ==> x < slides_a@.len());
        assert(p.b matches Some(x) ==> x < slides_b@.len());
        assert(rows[k as int] == slide_diff_spec(pv, la, lb));
        assert(rows.take(k as int + 1).drop_last() =~= rows.take(k as int));
        let sd = match (p.a, p.b) {
            (Some(ai), Some(bi)) => {
                assert(pv.0 == Some(ai as nat) && pv.1 == Some(bi as nat));
                assert(ai < slides_a@.len() && bi < slides_b@.len());
                assert(la[ai as int] == strings_view(slides_a@[ai as int].lines@));
                assert(lb[bi as int] == strings_view(slides_b@[bi as int].lines@));
                if lines_eq(&slides_a[ai].lines, &slides_b[bi].lines) {
                    let d = SlideDiff { status: status_string("equal"), slide_a: ai + 1, slide_b: bi + 1, ops: Vec::new() };
                    assert(ops_view(d.ops@) =~= Seq::empty());
                    d
                } else {
                    modified += 1;
                    let ops = paired_line_ops(&slides_a[ai].lines, &slides_b[bi].lines);
                    proof {
                        if ops@.len() == 0 {
                            assert(strings_view(slides_a@[ai as int].lines@).len() == 0);
                            assert(strings_view(slides_b@[bi as int].lines@).len() == 0);
                            assert(la[ai as int] =~= lb[bi as int]);
                        }
                    }
                    SlideDiff { status: status_string("modified"), slide_a: ai + 1, slide_b: bi + 1, ops }
                }
            },
            (Some(ai), None) => {
                assert(pv.0 == Some(ai as nat));
                removed += 1;
                let d = SlideDiff { status: status_string("removed"), slide_a: ai + 1, slide_b: 0, ops: Vec::new() };
                assert(ops_view(d.ops@) =~= Seq::empty());
                d
            },
            (None, Some(bi)) => {
                assert(pv.1 == Some(bi as nat));
                added += 1;
                let d = SlideDiff { status: status_string("added"), slide_a: 0, slide_b: bi + 1, ops: Vec::new() };
                assert(ops_view(d.ops@) =~= Seq::empty());
                d
            },
            (None, None) => {
                let d = SlideDiff { status: String::new(), slide_a: 0, slide_b: 0, ops: Vec::new() };
                assert(ops_view(d.ops@) =~= Seq::empty());
                d
            },
        };
        assert(slide_diff_view(sd) == rows[k as int]);
        let ghost prev = out@;
        out.push(sd);
        assert(out@.map_values(|d: SlideDiff| slide_diff_view(d)) =~= prev.map_values(|d: SlideDiff| slide_diff_view(d)).push(slide_diff_view(sd)));
        assert forall|m: int| 0 <= m < out@.len() && (#[trigger] out@[m]).status@ == "modified"@ implies {
            &&& 0 < out@[m].slide_a <= la.len()
            &&& 0 < out@[m].slide_b <= lb.len()
            &&& la[out@[m].slide_a - 1] != lb[out@[m].slide_b - 1]
            &&& edit_script(ops_view(out@[m].ops@), la[out@[m].slide_a - 1], lb[out@[m].slide_b - 1])
            &&& out@[m].ops@.len() > 0
        } by {
            if m < prev.len() {
                assert(out@[m] == prev[m]);
            }
        }
        k += 1;
    }
    assert(rows.take(k as int) =~= rows);
    PptxResult {
        file_type: status_string("pptx"),
        path_a: String::from_str(path_a),
        path_b: String::from_str(path_b),
        slides: out,
        added,
        modified,
        removed,
    }
}

/// PowerPoint (.pptx) diff: slide-level alignment plus a line diff of each
/// modified slide. Each side is its slides as read from the file (none for an
/// absent file), or the error that reading it gave, which is passed on.
pub fn pptx_diff(
    path_a: &str,
    path_b: &str,
    slides_a: Result<Vec<SlideContent>, String>,
    slides_b: Result<Vec<SlideContent>, String>,
) -> (r: Result<PptxResult, String>)
    requires
        slides_a matches Ok(a) ==> (slides_b matches Ok(b) ==> slides_fit(slide_lines(a@), slide_lines(b@))),
    ensures
        slides_a matches Err(e) ==> r == Err::<PptxResult, String>(e),
        slides_a is Ok ==> (slides_b matches Err(e) ==> r == Err::<PptxResult, String>(e)),
        slides_a matches Ok(a) ==> (slides_b matches Ok(b) ==> r matches Ok(res) && pptx_result_matches(
            res,
            path_a@,
            path_b@,
            slide_lines(a@),
            slide_lines(b@),
        )),
{
    let a = slides_a?;
    let b = slides_b?;
    Ok(pptx_result(path_a, path_b, &a, &b))
}

} // verus!

verus! {

impl Keyed for (usize, String) {
    open spec fn key_of(v: (usize, Seq<char>)) -> nat {
        v.0 as nat
    }

    fn key(&self) -> (k: usize) {
        self.0
    }
}

/// The slide number of a zip entry `ppt/slides/slide<N>.xml`, if it is one.
pub open spec fn slide_number_spec(name: Seq<char>) -> Option<nat> {
    match strip_affixes_spec(name, "ppt/slides/slide"@, ".xml"@) {
        Some(m) => parse_usize_spec(m),
        None => None,
    }
}

/// The slide entries among the zip entry names, with their numbers, in the
/// order of the names.
pub open spec fn entries_of(names: Seq<Seq<char>>) -> Seq<(usize, Seq<char>)>
    decreases names.len(),
{
    if names.len() == 0 {
        Seq::empty()
    } else {
        let prev = entries_of(names.drop_last());
        match slide_number_spec(names.last()) {
            Some(n) => prev.push((n as usize, names.last())),
            None => prev,
        }
    }
}

/// The slide number of a zip entry `ppt/slides/slide<N>.xml`, if it is one.
pub fn slide_number(name: &str) -> (r: Option<usize>)
    ensures
        match r {
            Some(n) => slide_number_spec(name@) == Some(n as nat),
            None => slide_number_spec(name@) is None,
        },
{
    match strip_affixes(name, "ppt/slides/slide", ".xml") {
        Some(m) => parse_usize(m.as_str()),
        None => None,
    }
}

/// The slide entries among the zip entry names with their slide numbers,
/// sorted by number (entries of equal number keep their order).
pub fn slide_entries(names: &Vec<String>) -> (r: Vec<(usize, String)>)
    ensures
        views(r@) == stable_sort(entries_of(strings_view(names@)), |x: (usize, Seq<char>)| x.0 as nat),
        sorted_by(views(r@), |x: (usize, Seq<char>)| x.0 as nat),
{
    let mut found: Vec<(usize, String)> = Vec::new();
    let mut i: usize = 0;
    while i < names.len()
        invariant
            i <= names@.len(),
            views(found@) == entries_of(strings_view(names@).take(i as int)),
        decreases names@.len() - i,
    {
        let ghost nv = strings_view(names@);
        assert(nv.take(i as int + 1).drop_last() =~= nv.take(i as int));
        assert(nv.take(i as int + 1).last() == names@[i as int]@);
        match slide_number(names[i].as_str()) {
            Some(n) => {
                let e = (n, names[i].clone());
                let ghost prev = found@;
                found.push(e);
                assert(views(found@) =~= views(prev).push(e@));
            },
            None => {},
        }
        i += 1;
    }
    assert(strings_view(names@).take(i as int) =~= strings_view(names@));
    let r = sort_by_key(found);
    assert((|x: (usize, Seq<char>)| <(usize, String) as Keyed>::key_of(x)) =~= (|x: (usize, Seq<char>)| x.0 as nat));
    r
}

} // verus!

verus! {

/// Some row of `r` holds B slide `j`.
pub open spec fn has_b_row(r: Seq<(Option<nat>, Option<nat>)>, j: nat) -> bool {
    exists|k: int| 0 <= k < r.len() && (#[trigger] r[k]).1 == Some(j)
}

/// The alignment is complete: the first `na` rows are the A slides in order,
/// each A slide once; every row after them is a B slide alone; every B slide
/// stands in exactly one row.
pub open spec fn alignment_complete(r: Seq<(Option<nat>, Option<nat>)>, na: nat, nb: nat) -> bool {
    &&& na <= r.len()
    &&& forall|k: int| 0 <= k < na ==> (#[trigger] r[k]).0 == Some(k as nat)
    &&& forall|k: int| na <= k < r.len() ==> (#[trigger] r[k]).0 is None && r[k].1 is Some
    &&& forall|k: int| 0 <= k < r.len() ==> ((#[trigger] r[k]).1 matches Some(j) ==> j < nb)
    &&& forall|k1: int, k2: int|
        0 <= k1 < r.len() && 0 <= k2 < r.len() && k1 != k2 && (#[trigger] r[k1]).1 is Some
            ==> r[k1].1 != (#[trigger] r[k2]).1
    &&& forall|j: nat| j < nb ==> #[trigger] has_b_row(r, j)
}

/// What holds of the alignment after `i` A slides, with the B slides taken.
spec fn prefix_ok(pairs: Seq<(Option<nat>, Option<nat>)>, used: Seq<bool>, i: nat, nb: nat) -> bool {
    &&& pairs.len() == i
    &&& used.len() == nb
    &&& forall|k: int| 0 <= k < i ==> (#[trigger] pairs[k]).0 == Some(k as nat)
    &&& forall|k: int| 0 <= k < i ==> ((#[trigger] pairs[k]).1 matches Some(j) ==> j < nb && used[j as int])
    &&& forall|k1: int, k2: int|
        0 <= k1 < i && 0 <= k2 < i && k1 != k2 && (#[trigger] pairs[k1]).1 is Some
            ==> pairs[k1].1 != (#[trigger] pairs[k2]).1
    &&& forall|j: nat| j < nb && used[j as int] ==> #[trigger] has_b_row(pairs, j)
}

/// What holds of the leftover B slides among the first `k`.
spec fn leftovers_ok(l: Seq<(Option<nat>, Option<nat>)>, used: Seq<bool>, k: nat) -> bool {
    &&& forall|m: int| 0 <= m < l.len() ==> {
        let p = #[trigger] l[m];
        &&& p.0 is None
        &&& p.1 is Some
        &&& p.1->0 < k
        &&& !used[p.1->0 as int]
    }
    &&& forall|m1: int, m2: int| 0 <= m1 < l.len() && 0 <= m2 < l.len() && m1 != m2 ==> (#[trigger] l[m1]).1 != (#[trigger] l[m2]).1
    &&& forall|j: nat| j < k && !used[j as int] ==> #[trigger] has_b_row(l, j)
}

proof fn lemma_best_scan_free(lines: Seq<Seq<char>>, b: Seq<Seq<Seq<char>>>, used: Seq<bool>, k: nat)
    ensures
        best_scan(lines, b, used, k).0 matches Some(j) ==> j < k && !used[j as int],
    decreases k,
{
    if k > 0 {
        lemma_best_scan_free(lines, b, used, (k - 1) as nat);
    }
}

/// Adding the pair `(Some(x), q)` to a good prefix, with `q` a free B slide
/// or none, keeps it good.
proof fn lemma_prefix_push(
    pairs: Seq<(Option<nat>, Option<nat>)>,
    used: Seq<bool>,
    x: nat,
    q: Option<nat>,
    nb: nat,
)
    requires
        prefix_ok(pairs, used, x, nb),
        q matches Some(j) ==> j < nb && !used[j as int],
    ensures
        prefix_ok(
            pairs.push((Some(x), q)),
            match q {
                Some(j) => used.update(j as int, true),
                None => used,
            },
            x + 1,
            nb,
        ),
{
    let np = pairs.push((Some(x), q));
    let nu = match q {
        Some(j) => used.update(j as int, true),
        None => used,
    };
    assert forall|k: int| 0 <= k < x + 1 implies (#[trigger] np[k]).0 == Some(k as nat) by {
        if k < x {
            assert(np[k] == pairs[k]);
        }
    }
    assert forall|k: int| 0 <= k < x + 1 implies ((#[trigger] np[k]).1 matches Some(j) ==> j < nb && nu[j as int]) by {
        if k < x {
            assert(np[k] == pairs[k]);
        }
    }
    assert forall|k1: int, k2: int|
        0 <= k1 < x + 1 && 0 <= k2 < x + 1 && k1 != k2 && (#[trigger] np[k1]).1 is Some
        implies np[k1].1 != (#[trigger] np[k2]).1 by {
        if k1 < x && k2 < x {
            assert(np[k1] == pairs[k1] && np[k2] == pairs[k2]);
        } else if k1 < x {
            assert(np[k1] == pairs[k1]);
        } else {
            assert(np[k2] == pairs[k2]);
        }
    }
    assert forall|j: nat| j < nb && nu[j as int] implies #[trigger] has_b_row(np, j) by {
        if q == Some(j) {
            assert(np[x as int].1 == Some(j));
        } else {
            assert(used[j as int]);
            assert(has_b_row(pairs, j));
            let k = choose|k: int| 0 <= k < pairs.len() && (#[trigger] pairs[k]).1 == Some(j);
            assert(np[k] == pairs[k]);
        }
    }
}

proof fn lemma_align_prefix_ok(a: Seq<Seq<Seq<char>>>, b: Seq<Seq<Seq<char>>>, i: nat)
    requires
        i <= a.len(),
    ensures
        prefix_ok(align_prefix(a, b, i).0, align_prefix(a, b, i).1, i, b.len()),
    decreases i,
{
    if i == 0 {
        let used = Seq::new(b.len(), |j: int| false);
        assert forall|j: nat| j < b.len() && used[j as int] implies #[trigger] has_b_row(Seq::<(Option<nat>, Option<nat>)>::empty(), j) by {}
    } else {
        let x = (i - 1) as nat;
        lemma_align_prefix_ok(a, b, x);
        let (pairs, used) = align_prefix(a, b, x);
        let (n, d) = similarity_spec(a[x as int], b[x as int]);
        if x < b.len() && !used[x as int] && 5 * n >= 2 * d {
            lemma_prefix_push(pairs, used, x, Some(x), b.len());
        } else {
            let (bj, bn, bd) = best_scan(a[x as int], b, used, b.len());
            lemma_best_scan_free(a[x as int], b, used, b.len());
            if bj is Some && 2 * bn >= bd {
                lemma_prefix_push(pairs, used, x, bj, b.len());
            } else {
                lemma_prefix_push(pairs, used, x, None, b.len());
            }
        }
    }
}

proof fn lemma_leftovers_ok(used: Seq<bool>, k: nat)
    requires
        k <= used.len(),
    ensures
        leftovers_ok(leftovers(used, k), used, k),
    decreases k,
{
    if k > 0 {
        let k1 = (k - 1) as nat;
        lemma_leftovers_ok(used, k1);
        let prev = leftovers(used, k1);
        let l = leftovers(used, k);
        if !used[k1 as int] {
            assert(l == prev.push((None, Some(k1))));
            assert forall|m: int| 0 <= m < l.len() implies {
                let p = #[trigger] l[m];
                &&& p.0 is None
                &&& p.1 is Some
                &&& p.1->0 < k
                &&& !used[p.1->0 as int]
            } by {
                if m < prev.len() {
                    assert(l[m] == prev[m]);
                }
            }
            assert forall|m1: int, m2: int| 0 <= m1 < l.len() && 0 <= m2 < l.len() && m1 != m2 implies (#[trigger] l[m1]).1 != (#[trigger] l[m2]).1 by {
                if m1 < prev.len() {
                    assert(l[m1] == prev[m1]);
                }
                if m2 < prev.len() {
                    assert(l[m2] == prev[m2]);
                }
            }
            assert forall|j: nat| j < k && !used[j as int] implies #[trigger] has_b_row(l, j) by {
                if j == k1 {
                    assert(l[prev.len() as int].1 == Some(j));
                } else {
                    assert(has_b_row(prev, j));
                    let m = choose|m: int| 0 <= m < prev.len() && (#[trigger] prev[m]).1 == Some(j);
                    assert(l[m] == prev[m]);
                }
            }
        } else {
            assert forall|j: nat| j < k && !used[j as int] implies #[trigger] has_b_row(l, j) by {
                assert(has_b_row(prev, j));
            }
        }
    }
}

/// Slide alignment is complete: each A slide appears once, in order, at its
/// own position; the rows after them hold B slides alone; and each B slide
/// appears in exactly one row.
pub proof fn lemma_alignment_complete(a: Seq<Seq<Seq<char>>>, b: Seq<Seq<Seq<char>>>)
    ensures
        alignment_complete(align_spec(a, b), a.len(), b.len()),
{
    lemma_align_prefix_ok(a, b, a.len());
    let (pairs, used) = align_prefix(a, b, a.len());
    lemma_leftovers_ok(used, b.len());
    let l = leftovers(used, b.len());
    let r = align_spec(a, b);
    assert(r == pairs + l);
    let na = a.len();
    assert forall|k: int| 0 <= k < na implies (#[trigger] r[k]).0 == Some(k as nat) by {
        assert(r[k] == pairs[k]);
    }
    assert forall|k: int| na <= k < r.len() implies (#[trigger] r[k]).0 is None && r[k].1 is Some by {
        assert(r[k] == l[k - na]);
    }
    assert forall|k: int| 0 <= k < r.len() implies ((#[trigger] r[k]).1 matches Some(j) ==> j < b.len()) by {
        if k < na {
            assert(r[k] == pairs[k]);
        } else {
            assert(r[k] == l[k - na]);
        }
    }
    assert forall|k1: int, k2: int|
        0 <= k1 < r.len() && 0 <= k2 < r.len() && k1 != k2 && (#[trigger] r[k1]).1 is Some
        implies r[k1].1 != (#[trigger] r[k2]).1 by {
        if k1 < na {
            assert(r[k1] == pairs[k1]);
        } else {
            assert(r[k1] == l[k1 - na]);
        }
        if k2 < na {
            assert(r[k2] == pairs[k2]);
        } else {
            assert(r[k2] == l[k2 - na]);
        }
    }
    assert forall|j: nat| j < b.len() implies #[trigger] has_b_row(r, j) by {
        if used[j as int] {
            assert(has_b_row(pairs, j));
            let k = choose|k: int| 0 <= k < pairs.len() && (#[trigger] pairs[k]).1 == Some(j);
            assert(r[k] == pairs[k]);
        } else {
            assert(has_b_row(l, j));
            let m = choose|m: int| 0 <= m < l.len() && (#[trigger] l[m]).1 == Some(j);
            assert(r[na + m] == l[m]);
        }
    }
}

} // verus!

verus! {

proof fn lemma_distinct_within(s: Seq<Seq<char>>)
    ensures
        forall|i: int| 0 <= i < distinct(s).len() ==> s.contains(#[trigger] distinct(s)[i]),
        s.len() > 0 ==> distinct(s).len() > 0,
    decreases s.len(),
{
    if s.len() > 0 {
        let t = s.drop_last();
        lemma_distinct_within(t);
        let d = distinct(t);
        assert forall|i: int| 0 <= i < distinct(s).len() implies s.contains(#[trigger] distinct(s)[i]) by {
            if i < d.len() {
                assert(distinct(s)[i] == d[i]);
                let w = choose|w: int| 0 <= w < t.len() && t[w] == d[i];
                assert(s[w] == t[w]);
            } else {
                assert(distinct(s)[i] == s.last());
                assert(s[s.len() - 1] == s.last());
            }
        }
        if d.contains(s.last()) {
            assert(d.len() > 0);
        }
    }
}

proof fn lemma_count_all_in(s: Seq<Seq<char>>, other: Seq<Seq<char>>)
    requires
        forall|i: int| 0 <= i < s.len() ==> other.contains(#[trigger] s[i]),
    ensures
        count_in(s, other, true) == s.len(),
        count_in(s, other, false) == 0,
    decreases s.len(),
{
    if s.len() > 0 {
        let t = s.drop_last();
        assert forall|i: int| 0 <= i < t.len() implies other.contains(#[trigger] t[i]) by {
            assert(t[i] == s[i]);
        }
        lemma_count_all_in(t, other);
        assert(other.contains(s[s.len() - 1]));
    }
}

/// A slide is wholly similar to itself.
proof fn lemma_self_similar(x: Seq<Seq<char>>)
    ensures
        similarity_spec(x, x).0 == similarity_spec(x, x).1,
        similarity_spec(x, x).1 > 0,
{
    if x.len() > 0 {
        lemma_distinct_within(x);
        lemma_count_all_in(distinct(x), x);
    }
}

/// The pairs of a deck aligned with itself: each slide with its own place.
pub open spec fn identity_pairs(n: nat) -> Seq<(Option<nat>, Option<nat>)> {
    Seq::new(n, |k: int| (Some(k as nat), Some(k as nat)))
}

proof fn lemma_align_prefix_identical(a: Seq<Seq<Seq<char>>>, i: nat)
    requires
        i <= a.len(),
    ensures
        align_prefix(a, a, i).0 == identity_pairs(i),
        align_prefix(a, a, i).1 == Seq::new(a.len(), |j: int| j < i),
    decreases i,
{
    if i == 0 {
        assert(Seq::new(a.len(), |j: int| false) =~= Seq::new(a.len(), |j: int| j < 0));
        assert(identity_pairs(0) =~= Seq::empty());
    } else {
        let x = (i - 1) as nat;
        lemma_align_prefix_identical(a, x);
        let (pairs, used) = align_prefix(a, a, x);
        lemma_self_similar(a[x as int]);
        assert(!used[x as int]);
        assert(pairs.push((Some(x), Some(x))) =~= identity_pairs(i));
        assert(used.update(x as int, true) =~= Seq::new(a.len(), |j: int| j < i));
    }
}

proof fn lemma_leftovers_none(used: Seq<bool>, k: nat)
    requires
        k <= used.len(),
        forall|j: int| 0 <= j < k ==> #[trigger] used[j],
    ensures
        leftovers(used, k) == Seq::<(Option<nat>, Option<nat>)>::empty(),
    decreases k,
{
    if k > 0 {
        lemma_leftovers_none(used, (k - 1) as nat);
        assert(used[k - 1]);
    }
}

proof fn lemma_status_count_none(rows: Seq<(Seq<char>, nat, nat, Seq<LineOpView>)>, status: Seq<char>)
    requires
        forall|k: int| 0 <= k < rows.len() ==> (#[trigger] rows[k]).0 != status,
    ensures
        status_count(rows, status) == 0,
    decreases rows.len(),
{
    if rows.len() > 0 {
        let t = rows.drop_last();
        assert forall|k: int| 0 <= k < t.len() implies (#[trigger] t[k]).0 != status by {
            assert(t[k] == rows[k]);
        }
        lemma_status_count_none(t, status);
        assert(rows.last() == rows[rows.len() - 1]);
    }
}

/// A deck compared with itself: each slide pairs with its own place, every
/// row is `equal` with its own slide number on both sides, and nothing is
/// added, modified or removed.
pub proof fn lemma_identical_decks(a: Seq<Seq<Seq<char>>>)
    ensures
        align_spec(a, a) == identity_pairs(a.len()),
        slide_rows(a, a).len() == a.len(),
        forall|k: int| 0 <= k < a.len() ==> #[trigger] slide_rows(a, a)[k] == ("equal"@, (k + 1) as nat, (k + 1) as nat, Seq::<LineOpView>::empty()),
        status_count(slide_rows(a, a), "added"@) == 0,
        status_count(slide_rows(a, a), "modified"@) == 0,
        status_count(slide_rows(a, a), "removed"@) == 0,
{
    lemma_align_prefix_identical(a, a.len());
    let used = Seq::new(a.len(), |j: int| j < a.len());
    lemma_leftovers_none(used, a.len());
    assert(align_spec(a, a) =~= identity_pairs(a.len()));
    let rows = slide_rows(a, a);
    assert forall|k: int| 0 <= k < a.len() implies #[trigger] rows[k] == ("equal"@, (k + 1) as nat, (k + 1) as nat, Seq::<LineOpView>::empty()) by {
        assert(align_spec(a, a)[k] == (Some(k as nat), Some(k as nat)));
    }
    reveal_strlit("equal");
    reveal_strlit("added");
    reveal_strlit("modified");
    reveal_strlit("removed");
    assert("equal"@ != "added"@ && "equal"@ != "modified"@ && "equal"@ != "removed"@) by {
        assert("equal"@[0] != "added"@[0]);
        assert("equal"@.len() != "modified"@.len());
        assert("equal"@.len() != "removed"@.len());
    }
    lemma_status_count_none(rows, "added"@);
    lemma_status_count_none(rows, "modified"@);
    lemma_status_count_none(rows, "removed"@);
}

} // verus!

verus! {

proof fn lemma_slide_run_lines(events: Seq<XmlEventView>)
    ensures
        forall|k: int| 0 <= k < slide_run(events).lines.len() ==> {
            let l = #[trigger] slide_run(events).lines[k];
            &&& l.len() > 0
            &&& trim_spec(l) == l
        },
    decreases events.len(),
{
    if events.len() > 0 {
        let prev = slide_run(events.drop_last());
        lemma_slide_run_lines(events.drop_last());
        lemma_trim_idempotent(prev.buf);
        let cur = slide_run(events);
        assert forall|k: int| 0 <= k < cur.lines.len() implies {
            let l = #[trigger] cur.lines[k];
            &&& l.len() > 0
            &&& trim_spec(l) == l
        } by {
            if k < prev.lines.len() {
                assert(cur.lines[k] == prev.lines[k]);
            }
        }
    }
}

/// Every line taken from a slide is non-empty and already trimmed.
pub proof fn lemma_slide_lines_trimmed(xml: Seq<char>)
    ensures
        forall|k: int| 0 <= k < slide_run(xml_events_spec(xml)).lines.len() ==> {
            let l = #[trigger] slide_run(xml_events_spec(xml)).lines[k];
            &&& l.len() > 0
            &&& trim_spec(l) == l
        },
{
    lemma_slide_run_lines(xml_events_spec(xml));
}

} // verus!

verus! {

/// The distinct lines of `s` hold each line of `s` once.
proof fn lemma_distinct_set(s: Seq<Seq<char>>)
    ensures
        distinct(s).no_duplicates(),
        distinct(s).to_set() == s.to_set(),
    decreases s.len(),
{
    if s.len() == 0 {
    } else {
        let t = s.drop_last();
        lemma_distinct_set(t);
        let d = distinct(t);
        assert(s == t.push(s.last()));
        t.lemma_push_to_set_commute(s.last());
        d.lemma_push_to_set_commute(s.last());
        if d.contains(s.last()) {
            assert(t.to_set().contains(s.last()));
            assert(s.to_set() =~= t.to_set().insert(s.last()));
        } else {
            let e = d.push(s.last());
            assert forall|i: int, j: int| 0 <= i < e.len() && 0 <= j < e.len() && i != j implies e[i] != e[j] by {
                if i < d.len() && j < d.len() {
                    assert(e[i] == d[i] && e[j] == d[j]);
                } else if i < d.len() {
                    assert(e[i] == d[i]);
                } else {
                    assert(e[j] == d[j]);
                }
            }
            assert(e.to_set() =~= d.to_set().insert(s.last()));
            assert(s.to_set() =~= t.to_set().insert(s.last()));
        }
    }
}

/// Over a list without repeats, `count_in` counts the set of its lines that
/// do (or do not) occur in `other`.
proof fn lemma_count_in_set(d: Seq<Seq<char>>, other: Seq<Seq<char>>, inside: bool)
    requires
        d.no_duplicates(),
    ensures
        d.to_set().filter(|x: Seq<char>| other.contains(x) == inside).finite(),
        count_in(d, other, inside) == d.to_set().filter(|x: Seq<char>| other.contains(x) == inside).len(),
    decreases d.len(),
{
    broadcast use vstd::seq_lib::seq_to_set_is_finite;
    let p = |x: Seq<char>| other.contains(x) == inside;
    if d.len() == 0 {
        assert(d.to_set().filter(p) =~= Set::<Seq<char>>::empty());
    } else {
        let t = d.drop_last();
        let x = d.last();
        assert(t.no_duplicates()) by {
            assert forall|i: int, j: int| 0 <= i < t.len() && 0 <= j < t.len() && i != j implies t[i] != t[j] by {
                assert(t[i] == d[i] && t[j] == d[j]);
            }
        }
        lemma_count_in_set(t, other, inside);
        assert(d == t.push(x));
        t.lemma_push_to_set_commute(x);
        assert(d.to_set() =~= t.to_set().insert(x));
        assert(!t.to_set().contains(x)) by {
            if t.contains(x) {
                let k = choose|k: int| 0 <= k < t.len() && t[k] == x;
                assert(d[k] == d[d.len() - 1]);
            }
        }
        let prev = t.to_set().filter(p);
        if p(x) {
            assert(d.to_set().filter(p) =~= prev.insert(x));
            assert(!prev.contains(x));
        } else {
            assert(d.to_set().filter(p) =~= prev);
        }
    }
}

/// The lines two slides share, and the lines of either, as sets.
pub proof fn lemma_similarity_sets(a: Seq<Seq<char>>, b: Seq<Seq<char>>)
    ensures
        shared_lines(a, b) == a.to_set().intersect(b.to_set()).len(),
        union_lines(a, b) == a.to_set().union(b.to_set()).len(),
{
    broadcast use vstd::seq_lib::seq_to_set_is_finite;
    lemma_distinct_set(a);
    lemma_distinct_set(b);
    lemma_count_in_set(distinct(a), b, true);
    lemma_count_in_set(distinct(b), a, false);
    distinct(a).unique_seq_to_set();
    let sa = a.to_set();
    let sb = b.to_set();
    assert(sa.filter(|x: Seq<char>| b.contains(x) == true) =~= sa.intersect(sb));
    let only_b = sb.filter(|x: Seq<char>| a.contains(x) == false);
    assert(only_b =~= sb.difference(sa));
    assert(sa.disjoint(only_b));
    vstd::set_lib::lemma_set_disjoint_lens(sa, only_b);
    assert(sa + only_b =~= sa.union(sb));
}

/// Slide similarity is the Jaccard index of the two line sets (1 for two
/// empty slides): it lies between 0 and 1, it is symmetric, and a slide is
/// wholly similar to itself.
pub proof fn lemma_similarity_symmetric(a: Seq<Seq<char>>, b: Seq<Seq<char>>)
    ensures
        similarity_spec(a, b) == similarity_spec(b, a),
        similarity_spec(a, b).0 <= similarity_spec(a, b).1,
        similarity_spec(a, b).1 > 0,
        similarity_spec(a, a).0 == similarity_spec(a, a).1,
        !(a.len() == 0 && b.len() == 0) ==> similarity_spec(a, b) == (
            a.to_set().intersect(b.to_set()).len(),
            a.to_set().union(b.to_set()).len(),
        ),
{
    lemma_self_similar(a);
    broadcast use vstd::seq_lib::seq_to_set_is_finite;
    lemma_similarity_sets(a, b);
    lemma_similarity_sets(b, a);
    let sa = a.to_set();
    let sb = b.to_set();
    assert(sa.intersect(sb) =~= sb.intersect(sa));
    assert(sa.union(sb) =~= sb.union(sa));
    vstd::set_lib::lemma_len_subset(sa.intersect(sb), sa.union(sb));
}

} // verus!

verus! {

proof fn lemma_slide_run_prefix(e1: Seq<XmlEventView>, e2: Seq<XmlEventView>)
    requires
        streams_same_up_to_prefix(e1, e2),
    ensures
        slide_run(e1) == slide_run(e2),
    decreases e1.len(),
{
    if e1.len() > 0 {
        let t1 = e1.drop_last();
        let t2 = e2.drop_last();
        assert forall|i: int| 0 <= i < t1.len() implies same_up_to_prefix(#[trigger] t1[i], t2[i]) by {
            assert(t1[i] == e1[i] && t2[i] == e2[i]);
        }
        lemma_slide_run_prefix(t1, t2);
        assert(same_up_to_prefix(e1[e1.len() - 1], e2[e2.len() - 1]));
    }
}

/// The slide text walker reads elements by their local names only: two
/// event streams that differ at most in the namespace prefixes of their tag
/// names give the same lines.
pub proof fn lemma_slide_text_prefix_free(e1: Seq<XmlEventView>, e2: Seq<XmlEventView>)
    requires
        streams_same_up_to_prefix(e1, e2),
    ensures
        slide_run(e1).lines == slide_run(e2).lines,
{
    lemma_slide_run_prefix(e1, e2);
}

} // verus!

verus! {

/// The status of a slide row says whether the slides changed: a row is
/// `equal` only for two slides, one on each side, with identical line lists;
/// a row for two slides whose line lists differ is `modified`.
pub proof fn lemma_slide_status_law(
    r: PptxResult,
    path_a: Seq<char>,
    path_b: Seq<char>,
    a: Seq<Seq<Seq<char>>>,
    b: Seq<Seq<Seq<char>>>,
)
    requires
        pptx_result_matches(r, path_a, path_b, a, b),
    ensures
        forall|k: int|
            0 <= k < r.slides@.len() && (#[trigger] r.slides@[k]).status@ == "equal"@ ==> {
                &&& 0 < r.slides@[k].slide_a <= a.len()
                &&& 0 < r.slides@[k].slide_b <= b.len()
                &&& a[r.slides@[k].slide_a - 1] == b[r.slides@[k].slide_b - 1]
            },
        forall|k: int|
            0 <= k < r.slides@.len() && 0 < (#[trigger] r.slides@[k]).slide_a <= a.len() && 0 < r.slides@[k].slide_b
                <= b.len() && a[r.slides@[k].slide_a - 1] != b[r.slides@[k].slide_b - 1] ==> r.slides@[k].status@
                == "modified"@,
{
    reveal_strlit("equal");
    reveal_strlit("modified");
    reveal_strlit("added");
    reveal_strlit("removed");
    assert("equal"@[0] != "modified"@[0] && "equal"@[0] != "added"@[0] && "equal"@[0] != "removed"@[0]);
    lemma_align_bounds(a, b);
    let rows = slide_rows(a, b);
    assert forall|k: int| 0 <= k < r.slides@.len() implies {
        &&& ((#[trigger] r.slides@[k]).status@ == "equal"@ ==> {
            &&& 0 < r.slides@[k].slide_a <= a.len()
            &&& 0 < r.slides@[k].slide_b <= b.len()
            &&& a[r.slides@[k].slide_a - 1] == b[r.slides@[k].slide_b - 1]
        })
        &&& (0 < r.slides@[k].slide_a <= a.len() && 0 < r.slides@[k].slide_b <= b.len() && a[r.slides@[k].slide_a
            - 1] != b[r.slides@[k].slide_b - 1] ==> r.slides@[k].status@ == "modified"@)
    } by {
        let d = r.slides@[k];
        assert(r.slides@.map_values(|d: SlideDiff| slide_diff_view(d))[k] == rows[k]);
        assert(slide_diff_view(d) == slide_diff_spec(align_spec(a, b)[k], a, b));
        let p = align_spec(a, b)[k];
        assert(p.0 matches Some(i) ==> i < a.len());
        assert(p.1 matches Some(j) ==> j < b.len());
        assert(d.status@ == slide_diff_view(d).0);
        assert(d.slide_a as nat == slide_diff_view(d).1);
        assert(d.slide_b as nat == slide_diff_view(d).2);
        match p {
            (Some(i), Some(j)) => {
                assert(d.slide_a == i + 1 && d.slide_b == j + 1);
                if a[i as int] == b[j as int] {
                    assert(d.status@ == "equal"@);
                } else {
                    assert(d.status@ == "modified"@);
                }
            },
            (Some(i), None) => {
                assert(d.slide_b == 0);
                assert(d.status@ == "removed"@);
            },
            (None, Some(j)) => {
                assert(d.slide_a == 0);
                assert(d.status@ == "added"@);
            },
            (None, None) => {
                assert(d.slide_a == 0);
                assert(d.status@ == Seq::<char>::empty());
            },
        }
    }
}

} // verus!
