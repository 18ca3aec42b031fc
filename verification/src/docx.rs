//! Word (.docx) diff: paragraph-level add/delete/modify plus table change
//! counts. The walker reads the events of `word/document.xml`, tracking
//! paragraphs (`<w:p>`), tables (`<w:tbl>`), rows (`<w:tr>`), cells (`<w:tc>`)
//! and text runs (`<w:t>`).

use vstd::prelude::*;

use crate::strs::{grid_view, join_spec, join_strings, lemma_trim_idempotent, strings_view, trim_spec, trimmed};
use crate::ops::{all_equal, count_of, edit_script, lemma_all_equal_counts, lemma_script_positions, takes_new, takes_old, line_diff_spec, ops_view, pair_spec, paired_line_ops, LineOp, LineOpView, OpType};
use crate::sort::{lemma_stable_sort_elements, lemma_stable_sort_sorted, sort_by_key, sorted_by, stable_sort, views, Keyed};
use crate::text::lemma_script_counts;
use crate::xml::{same_up_to_prefix, streams_same_up_to_prefix, 
    events_view, has_local_name, local_name_spec, xml_events, xml_events_spec, XmlEvent,
    XmlEventView,
};

verus! {

#[derive(Debug, Clone)]
pub struct DocxParagraph {
    pub index: usize,
    pub text: String,
}

#[derive(Debug, Clone)]
pub struct DocxTable {
    pub index: usize,
    pub rows: Vec<Vec<String>>,
}

impl View for DocxParagraph {
    type V = (nat, Seq<char>);

    open spec fn view(&self) -> (nat, Seq<char>) {
        (self.index as nat, self.text@)
    }
}

impl View for DocxTable {
    type V = (nat, Seq<Seq<Seq<char>>>);

    open spec fn view(&self) -> (nat, Seq<Seq<Seq<char>>>) {
        (self.index as nat, grid_view(self.rows@))
    }
}

/// The views of a list of paragraphs.
pub open spec fn paras_view(v: Seq<DocxParagraph>) -> Seq<(nat, Seq<char>)> {
    v.map_values(|p: DocxParagraph| p@)
}

/// The views of a list of tables.
pub open spec fn tables_view(v: Seq<DocxTable>) -> Seq<(nat, Seq<Seq<Seq<char>>>)> {
    v.map_values(|t: DocxTable| t@)
}

/// The state of the document walker between two events.
pub struct DocState {
    pub paragraphs: Seq<(nat, Seq<char>)>,
    pub tables: Seq<(nat, Seq<Seq<Seq<char>>>)>,
    pub para_idx: nat,
    /// Nesting depth of tables; unmatched end tags take it below zero.
    pub depth: int,
    pub table_rows: Seq<Seq<Seq<char>>>,
    pub row: Seq<Seq<char>>,
    pub cell: Seq<char>,
    pub para: Seq<char>,
    pub in_text: bool,
    pub text_buf: Seq<char>,
    pub done: bool,
}

pub open spec fn doc_init() -> DocState {
    DocState {
        paragraphs: Seq::empty(),
        tables: Seq::empty(),
        para_idx: 0,
        depth: 0,
        table_rows: Seq::empty(),
        row: Seq::empty(),
        cell: Seq::empty(),
        para: Seq::empty(),
        in_text: false,
        text_buf: Seq::empty(),
        done: false,
    }
}

/// The walker's reaction to a start tag with local name `name`.
pub open spec fn doc_start(s: DocState, name: Seq<char>) -> DocState {
    if name == "tbl"@ {
        if s.depth + 1 == 1 {
            DocState { depth: s.depth + 1, table_rows: Seq::empty(), ..s }
        } else {
            DocState { depth: s.depth + 1, ..s }
        }
    } else if name == "tr"@ && s.depth > 0 {
        DocState { row: Seq::empty(), ..s }
    } else if name == "tc"@ && s.depth > 0 {
        DocState { cell: Seq::empty(), ..s }
    } else if name == "t"@ {
        DocState { in_text: true, text_buf: Seq::empty(), ..s }
    } else {
        s
    }
}

/// The walker's reaction to an end tag with local name `name`.
pub open spec fn doc_end(s: DocState, name: Seq<char>) -> DocState {
    if name == "t"@ && s.in_text {
        if s.depth > 0 {
            DocState { cell: s.cell + s.text_buf, in_text: false, ..s }
        } else {
            DocState { para: s.para + s.text_buf, in_text: false, ..s }
        }
    } else if name == "tc"@ && s.depth > 0 {
        DocState { row: s.row.push(trim_spec(s.cell)), cell: Seq::empty(), ..s }
    } else if name == "tr"@ && s.depth > 0 {
        DocState { table_rows: s.table_rows.push(s.row), row: Seq::empty(), ..s }
    } else if name == "tbl"@ {
        if s.depth - 1 == 0 {
            DocState {
                depth: s.depth - 1,
                tables: s.tables.push((s.tables.len(), s.table_rows)),
                table_rows: Seq::empty(),
                ..s
            }
        } else {
            DocState { depth: s.depth - 1, ..s }
        }
    } else if name == "p"@ && s.depth == 0 {
        let text = trim_spec(s.para);
        if text.len() > 0 {
            DocState {
                paragraphs: s.paragraphs.push((s.para_idx, text)),
                para_idx: s.para_idx + 1,
                para: Seq::empty(),
                ..s
            }
        } else {
            DocState { para: Seq::empty(), ..s }
        }
    } else {
        s
    }
}

/// One step of the walker.
pub open spec fn doc_step(s: DocState, e: XmlEventView) -> DocState {
    if s.done {
        s
    } else {
        match e {
            XmlEventView::Start(n) => doc_start(s, local_name_spec(n)),
            XmlEventView::End(n) => doc_end(s, local_name_spec(n)),
            XmlEventView::Text(t) => if s.in_text {
                DocState { text_buf: s.text_buf + t, ..s }
            } else {
                s
            },
            XmlEventView::Eof => DocState { done: true, ..s },
            XmlEventView::Failed => DocState { done: true, ..s },
            XmlEventView::Other => s,
        }
    }
}

/// The walker's state after the given events.
pub open spec fn doc_run(events: Seq<XmlEventView>) -> DocState
    decreases events.len(),
{
    if events.len() == 0 {
        doc_init()
    } else {
        doc_step(doc_run(events.drop_last()), events.last())
    }
}

/// The flattened text of a table: cells joined by tabs, rows by newlines.
pub open spec fn table_sig_spec(rows: Seq<Seq<Seq<char>>>) -> Seq<char> {
    join_spec(rows.map_values(|r: Seq<Seq<char>>| join_spec(r, "\t"@)), "\n"@)
}

/// Flatten a table into a single comparable string for LCS alignment.
pub fn table_sig(t: &DocxTable) -> (s: String)
    ensures
        s@ == table_sig_spec(grid_view(t.rows@)),
{
    let mut lines: Vec<String> = Vec::new();
    let mut i: usize = 0;
    while i < t.rows.len()
        invariant
            i <= t.rows@.len(),
            strings_view(lines@) == grid_view(t.rows@).take(i as int).map_values(
                |r: Seq<Seq<char>>| join_spec(r, "\t"@),
            ),
        decreases t.rows@.len() - i,
    {
        let line = join_strings(&t.rows[i], "\t");
        assert(grid_view(t.rows@)[i as int] == strings_view(t.rows@[i as int]@));
        let ghost prev = lines@;
        lines.push(line);
        assert(strings_view(lines@) =~= strings_view(prev).push(line@));
        assert(grid_view(t.rows@).take(i as int + 1) =~= grid_view(t.rows@).take(i as int).push(grid_view(t.rows@)[i as int]));
        i += 1;
        assert(strings_view(lines@) =~= grid_view(t.rows@).take(i as int).map_values(
            |r: Seq<Seq<char>>| join_spec(r, "\t"@),
        ));
    }
    assert(grid_view(t.rows@).take(i as int) =~= grid_view(t.rows@));
    join_strings(&lines, "\n")
}

} // verus!

verus! {

/// Once the walker has stopped, further events change nothing.
proof fn lemma_doc_run_done(events: Seq<XmlEventView>, k: int)
    requires
        0 <= k <= events.len(),
        doc_run(events.take(k)).done,
    ensures
        doc_run(events) == doc_run(events.take(k)),
    decreases events.len() - k,
{
    if k < events.len() {
        assert(events.take(k + 1).drop_last() =~= events.take(k));
        lemma_doc_run_done(events, k + 1);
    } else {
        assert(events.take(k) =~= events);
    }
}

/// The paragraphs and tables that the walker collects from the events.
pub open spec fn doc_outcome(events: Seq<XmlEventView>) -> (
    Seq<(nat, Seq<char>)>,
    Seq<(nat, Seq<Seq<Seq<char>>>)>,
) {
    let s = doc_run(events);
    (s.paragraphs, s.tables)
}

/// Walk document events and collect the body paragraphs (trimmed, non-empty,
/// numbered in order) and the top-level tables (rows of trimmed cell texts).
pub fn parse_document_events(events: &Vec<XmlEvent>) -> (r: (Vec<DocxParagraph>, Vec<DocxTable>))
    ensures
        (paras_view(r.0@), tables_view(r.1@)) == doc_outcome(events_view(events@)),
{
    let ghost evs = events_view(events@);
    let mut paragraphs: Vec<DocxParagraph> = Vec::new();
    let mut tables: Vec<DocxTable> = Vec::new();
    let mut para_idx: usize = 0;
    let mut table_depth: i128 = 0;
    let mut cur_table_rows: Vec<Vec<String>> = Vec::new();
    let mut cur_row: Vec<String> = Vec::new();
    let mut cur_cell = String::new();
    let mut cur_para = String::new();
    let mut in_text = false;
    let mut text_buf = String::new();
    let mut i: usize = 0;
    while i < events.len()
        invariant
            evs == events_view(events@),
            i <= events@.len(),
            !doc_run(evs.take(i as int)).done,
            para_idx <= i,
            -(i as int) <= table_depth <= i,
            ({
                let s = doc_run(evs.take(i as int));
                &&& s.paragraphs == paras_view(paragraphs@)
                &&& s.tables == tables_view(tables@)
                &&& s.para_idx == para_idx
                &&& s.depth == table_depth
                &&& s.table_rows == grid_view(cur_table_rows@)
                &&& s.row == strings_view(cur_row@)
                &&& s.cell == cur_cell@
                &&& s.para == cur_para@
                &&& s.in_text == in_text
                &&& s.text_buf == text_buf@
            }),
        decreases events@.len() - i,
    {
        let ghost pre = doc_run(evs.take(i as int));
        assert(evs.take(i as int + 1).drop_last() =~= evs.take(i as int));
        assert(evs[i as int] == events@[i as int]@);
        match &events[i] {
            XmlEvent::Start(raw) => {
                if has_local_name(raw.as_slice(), "tbl") {
                    table_depth = table_depth + 1;
                    if table_depth == 1 {
                        cur_table_rows = Vec::new();
                    }
                } else if has_local_name(raw.as_slice(), "tr") && table_depth > 0 {
                    cur_row = Vec::new();
                } else if has_local_name(raw.as_slice(), "tc") && table_depth > 0 {
                    cur_cell = String::new();
                } else if has_local_name(raw.as_slice(), "t") {
                    in_text = true;
                    text_buf = String::new();
                }
                proof {
                    assert(grid_view(Seq::<Vec<String>>::empty()) =~= Seq::empty());
                    assert(strings_view(Seq::<String>::empty()) =~= Seq::empty());
                }
            },
            XmlEvent::Text(t) => {
                if in_text {
                    text_buf.append(t.as_str());
                }
            },
            XmlEvent::End(raw) => {
                if has_local_name(raw.as_slice(), "t") && in_text {
                    if table_depth > 0 {
                        cur_cell.append(text_buf.as_str());
                    } else {
                        cur_para.append(text_buf.as_str());
                    }
                    in_text = false;
                } else if has_local_name(raw.as_slice(), "tc") && table_depth > 0 {
                    let c = trimmed(&cur_cell);
                    let ghost prev = cur_row@;
                    cur_row.push(c);
                    assert(strings_view(cur_row@) =~= strings_view(prev).push(c@));
                    cur_cell = String::new();
                } else if has_local_name(raw.as_slice(), "tr") && table_depth > 0 {
                    let row = cur_row;
                    cur_row = Vec::new();
                    let ghost prev = cur_table_rows@;
                    cur_table_rows.push(row);
                    assert(grid_view(cur_table_rows@) =~= grid_view(prev).push(strings_view(row@)));
                    assert(strings_view(cur_row@) =~= Seq::empty());
                } else if has_local_name(raw.as_slice(), "tbl") {
                    table_depth = table_depth - 1;
                    if table_depth == 0 {
                        let rows = cur_table_rows;
                        cur_table_rows = Vec::new();
                        let ghost prev = tables@;
                        tables.push(DocxTable { index: tables.len(), rows });
                        assert(tables_view(tables@) =~= tables_view(prev).push((prev.len(), grid_view(rows@))));
                        assert(grid_view(cur_table_rows@) =~= Seq::empty());
                    }
                } else if has_local_name(raw.as_slice(), "p") && table_depth == 0 {
                    let text = trimmed(&cur_para);
                    if !text.as_str().is_empty() {
                        let ghost prev = paragraphs@;
                        paragraphs.push(DocxParagraph { index: para_idx, text });
                        assert(paras_view(paragraphs@) =~= paras_view(prev).push((para_idx as nat, text@)));
                        para_idx = para_idx + 1;
                    }
                    cur_para = String::new();
                }
            },
            XmlEvent::Eof => {
                proof {
                    lemma_doc_run_done(evs, i as int + 1);
                }
                return (paragraphs, tables);
            },
            XmlEvent::Failed => {
                proof {
                    lemma_doc_run_done(evs, i as int + 1);
                }
                return (paragraphs, tables);
            },
            XmlEvent::Other => {},
        }
        i += 1;
    }
    proof {
        if i == events@.len() {
            assert(evs.take(i as int) =~= evs);
        }
    }
    (paragraphs, tables)
}

/// Parse the XML of `word/document.xml` into its paragraphs and tables.
pub fn parse_document_xml(xml: &str) -> (r: (Vec<DocxParagraph>, Vec<DocxTable>))
    ensures
        (paras_view(r.0@), tables_view(r.1@)) == doc_outcome(xml_events_spec(xml@)),
{
    let events = xml_events(xml);
    parse_document_events(&events)
}

} // verus!

verus! {

#[derive(Debug, Clone)]
pub struct DocxParaDiff {
    pub index: usize,
    pub old: String,
    pub new: String,
}

impl View for DocxParaDiff {
    type V = (nat, (Seq<char>, Seq<char>));

    open spec fn view(&self) -> (nat, (Seq<char>, Seq<char>)) {
        (self.index as nat, (self.old@, self.new@))
    }
}

#[derive(Debug, Clone)]
pub struct DocxResult {
    pub file_type: String,
    pub path_a: String,
    pub path_b: String,
    pub paragraphs: Vec<DocxParagraph>,
    pub added_p: Vec<DocxParagraph>,
    pub deleted_p: Vec<DocxParagraph>,
    pub modified_p: Vec<DocxParaDiff>,
    pub tables: Vec<DocxTable>,
    pub added_t: usize,
    pub deleted_t: usize,
    pub modified_t: usize,
}

impl Keyed for DocxParagraph {
    open spec fn key_of(v: (nat, Seq<char>)) -> nat {
        v.0
    }

    fn key(&self) -> (k: usize) {
        self.index
    }
}

impl Keyed for DocxParaDiff {
    open spec fn key_of(v: (nat, (Seq<char>, Seq<char>))) -> nat {
        v.0
    }

    fn key(&self) -> (k: usize) {
        self.index
    }
}

/// Order by the first component, the index.
pub open spec fn by_index<A>() -> spec_fn((nat, A)) -> nat {
    |x: (nat, A)| x.0
}

/// The views of a list of paragraph changes.
pub open spec fn para_diffs_view(v: Seq<DocxParaDiff>) -> Seq<(nat, (Seq<char>, Seq<char>))> {
    v.map_values(|d: DocxParaDiff| d@)
}

/// The new-side paragraphs that the inserts of `ops` name (at the operation's
/// new-side position), in the order of the operations.
pub open spec fn added_of(ops: Seq<LineOpView>, pb: Seq<(nat, Seq<char>)>) -> Seq<(nat, Seq<char>)>
    decreases ops.len(),
{
    if ops.len() == 0 {
        Seq::empty()
    } else {
        let prev = added_of(ops.drop_last(), pb);
        let o = ops.last();
        if o.typ == OpType::Insert && o.b < pb.len() {
            prev.push(pb[o.b as int])
        } else {
            prev
        }
    }
}

/// The old-side paragraphs that the deletes of `ops` name (at the operation's
/// old-side position), in the order of the operations.
pub open spec fn deleted_of(ops: Seq<LineOpView>, pa: Seq<(nat, Seq<char>)>) -> Seq<(nat, Seq<char>)>
    decreases ops.len(),
{
    if ops.len() == 0 {
        Seq::empty()
    } else {
        let prev = deleted_of(ops.drop_last(), pa);
        let o = ops.last();
        if o.typ == OpType::Delete && o.a < pa.len() {
            prev.push(pa[o.a as int])
        } else {
            prev
        }
    }
}

/// The paragraph changes that the replaces of `ops` name, in the order of the
/// operations: the old-side position `a`, with the old text there and the new
/// text at new-side position `b`.
pub open spec fn modified_of(
    ops: Seq<LineOpView>,
    pa: Seq<(nat, Seq<char>)>,
    pb: Seq<(nat, Seq<char>)>,
) -> Seq<(nat, (Seq<char>, Seq<char>))>
    decreases ops.len(),
{
    if ops.len() == 0 {
        Seq::empty()
    } else {
        let prev = modified_of(ops.drop_last(), pa, pb);
        let o = ops.last();
        if o.typ == OpType::Replace && o.a < pa.len() && o.b < pb.len() {
            prev.push((o.a, (pa[o.a as int].1, pb[o.b as int].1)))
        } else {
            prev
        }
    }
}

fn copy_para(p: &DocxParagraph) -> (r: DocxParagraph)
    ensures
        r@ == p@,
{
    DocxParagraph { index: p.index, text: p.text.clone() }
}

fn copy_paras(v: &Vec<DocxParagraph>) -> (r: Vec<DocxParagraph>)
    ensures
        paras_view(r@) == paras_view(v@),
{
    let mut r: Vec<DocxParagraph> = Vec::new();
    let mut i: usize = 0;
    while i < v.len()
        invariant
            i <= v@.len(),
            paras_view(r@) == paras_view(v@.take(i as int)),
        decreases v@.len() - i,
    {
        let p = copy_para(&v[i]);
        let ghost prev = r@;
        r.push(p);
        assert(paras_view(r@) =~= paras_view(prev).push(p@));
        assert(paras_view(v@.take(i as int + 1)) =~= paras_view(v@.take(i as int)).push(v@[i as int]@));
        i += 1;
    }
    assert(v@.take(i as int) =~= v@);
    r
}

fn para_texts(v: &Vec<DocxParagraph>) -> (r: Vec<String>)
    ensures
        strings_view(r@) == texts_of(paras_view(v@)),
{
    let mut r: Vec<String> = Vec::new();
    let mut i: usize = 0;
    while i < v.len()
        invariant
            i <= v@.len(),
            strings_view(r@) == paras_view(v@.take(i as int)).map_values(|p: (nat, Seq<char>)| p.1),
        decreases v@.len() - i,
    {
        let t = v[i].text.clone();
        let ghost prev = r@;
        r.push(t);
        assert(strings_view(r@) =~= strings_view(prev).push(t@));
        assert(paras_view(v@.take(i as int + 1)).map_values(|p: (nat, Seq<char>)| p.1)
            =~= paras_view(v@.take(i as int)).map_values(|p: (nat, Seq<char>)| p.1).push(v@[i as int].text@));
        i += 1;
    }
    assert(v@.take(i as int) =~= v@);
    r
}

fn table_sigs(v: &Vec<DocxTable>) -> (r: Vec<String>)
    ensures
        strings_view(r@) == sigs_of(tables_view(v@)),
{
    let mut r: Vec<String> = Vec::new();
    let mut i: usize = 0;
    while i < v.len()
        invariant
            i <= v@.len(),
            strings_view(r@) == tables_view(v@.take(i as int)).map_values(
                |t: (nat, Seq<Seq<Seq<char>>>)| table_sig_spec(t.1),
            ),
        decreases v@.len() - i,
    {
        let s = table_sig(&v[i]);
        let ghost prev = r@;
        r.push(s);
        assert(strings_view(r@) =~= strings_view(prev).push(s@));
        assert(tables_view(v@.take(i as int + 1)).map_values(|t: (nat, Seq<Seq<Seq<char>>>)| table_sig_spec(t.1))
            =~= tables_view(v@.take(i as int)).map_values(|t: (nat, Seq<Seq<Seq<char>>>)| table_sig_spec(t.1)).push(
                table_sig_spec(grid_view(v@[i as int].rows@)),
            ));
        i += 1;
    }
    assert(v@.take(i as int) =~= v@);
    r
}

/// What a docx result holds for the given sides and edit scripts: side A's
/// paragraphs; the added, deleted and modified paragraphs that the paragraph
/// script names, each list stably sorted by index; side B's tables; and the
/// counts of inserts, deletes and replaces of the table script.
pub open spec fn docx_result_matches(
    r: DocxResult,
    path_a: Seq<char>,
    path_b: Seq<char>,
    pa: Seq<(nat, Seq<char>)>,
    pb: Seq<(nat, Seq<char>)>,
    tb: Seq<(nat, Seq<Seq<Seq<char>>>)>,
    para_ops: Seq<LineOpView>,
    table_ops: Seq<LineOpView>,
) -> bool {
    &&& r.file_type@ == "docx"@
    &&& r.path_a@ == path_a
    &&& r.path_b@ == path_b
    &&& paras_view(r.paragraphs@) == pa
    &&& paras_view(r.added_p@) == stable_sort(added_of(para_ops, pb), by_index::<Seq<char>>())
    &&& paras_view(r.deleted_p@) == stable_sort(deleted_of(para_ops, pa), by_index::<Seq<char>>())
    &&& para_diffs_view(r.modified_p@) == stable_sort(
        modified_of(para_ops, pa, pb),
        by_index::<(Seq<char>, Seq<char>)>(),
    )
    &&& tables_view(r.tables@) == tb
    &&& r.added_t == count_of(table_ops, OpType::Insert)
    &&& r.deleted_t == count_of(table_ops, OpType::Delete)
    &&& r.modified_t == count_of(table_ops, OpType::Replace)
}

/// The texts of a list of paragraphs.
pub open spec fn texts_of(p: Seq<(nat, Seq<char>)>) -> Seq<Seq<char>> {
    p.map_values(|x: (nat, Seq<char>)| x.1)
}

/// The signatures of a list of tables.
pub open spec fn sigs_of(t: Seq<(nat, Seq<Seq<Seq<char>>>)>) -> Seq<Seq<char>> {
    t.map_values(|x: (nat, Seq<Seq<Seq<char>>>)| table_sig_spec(x.1))
}

/// The paragraphs and tables of one side: none for an absent file, else what
/// the walker collects from the document XML.
pub open spec fn document_spec(loaded: Option<Seq<char>>) -> (
    Seq<(nat, Seq<char>)>,
    Seq<(nat, Seq<Seq<Seq<char>>>)>,
) {
    match loaded {
        None => (Seq::empty(), Seq::empty()),
        Some(xml) => doc_outcome(xml_events_spec(xml)),
    }
}

/// Build the docx result from both sides' paragraphs and tables and the
/// paired edit scripts between their paragraph texts and table signatures.
pub fn docx_result_from_ops(
    path_a: &str,
    path_b: &str,
    paras_a: &Vec<DocxParagraph>,
    paras_b: &Vec<DocxParagraph>,
    tables_b: Vec<DocxTable>,
    para_ops: &Vec<LineOp>,
    table_ops: &Vec<LineOp>,
) -> (r: DocxResult)
    ensures
        docx_result_matches(
            r,
            path_a@,
            path_b@,
            paras_view(paras_a@),
            paras_view(paras_b@),
            tables_view(tables_b@),
            ops_view(para_ops@),
            ops_view(table_ops@),
        ),
{
    let ghost pa = paras_view(paras_a@);
    let ghost pb = paras_view(paras_b@);
    let ghost ops = ops_view(para_ops@);
    let mut added_p: Vec<DocxParagraph> = Vec::new();
    let mut deleted_p: Vec<DocxParagraph> = Vec::new();
    let mut modified_p: Vec<DocxParaDiff> = Vec::new();
    let mut i: usize = 0;
    while i < para_ops.len()
        invariant
            i <= para_ops@.len(),
            pa == paras_view(paras_a@),
            pb == paras_view(paras_b@),
            ops == ops_view(para_ops@),
            paras_view(added_p@) == added_of(ops.take(i as int), pb),
            paras_view(deleted_p@) == deleted_of(ops.take(i as int), pa),
            para_diffs_view(modified_p@) == modified_of(ops.take(i as int), pa, pb),
        decreases para_ops@.len() - i,
    {
        let op = &para_ops[i];
        assert(ops.take(i as int + 1).drop_last() =~= ops.take(i as int));
        assert(ops.take(i as int + 1).last() == op@);
        match op.typ {
            OpType::Insert => {
                if op.b < paras_b.len() {
                    let p = copy_para(&paras_b[op.b]);
                    let ghost prev = added_p@;
                    added_p.push(p);
                    assert(paras_view(added_p@) =~= paras_view(prev).push(p@));
                }
            },
            OpType::Delete => {
                if op.a < paras_a.len() {
                    let p = copy_para(&paras_a[op.a]);
                    let ghost prev = deleted_p@;
                    deleted_p.push(p);
                    assert(paras_view(deleted_p@) =~= paras_view(prev).push(p@));
                }
            },
            OpType::Replace => {
                if op.a < paras_a.len() && op.b < paras_b.len() {
                    let d = DocxParaDiff {
                        index: op.a,
                        old: paras_a[op.a].text.clone(),
                        new: paras_b[op.b].text.clone(),
                    };
                    let ghost prev = modified_p@;
                    modified_p.push(d);
                    assert(para_diffs_view(modified_p@) =~= para_diffs_view(prev).push(d@));
                }
            },
            OpType::Equal => {},
        }
        i += 1;
    }
    assert(ops.take(i as int) =~= ops);

    let ghost tops = ops_view(table_ops@);
    let mut added_t: usize = 0;
    let mut deleted_t: usize = 0;
    let mut modified_t: usize = 0;
    let mut j: usize = 0;
    while j < table_ops.len()
        invariant
            j <= table_ops@.len(),
            tops == ops_view(table_ops@),
            added_t == count_of(tops.take(j as int), OpType::Insert),
            deleted_t == count_of(tops.take(j as int), OpType::Delete),
            modified_t == count_of(tops.take(j as int), OpType::Replace),
            added_t + deleted_t + modified_t <= j,
        decreases table_ops@.len() - j,
    {
        assert(tops.take(j as int + 1).drop_last() =~= tops.take(j as int));
        assert(tops.take(j as int + 1).last() == table_ops@[j as int]@);
        match table_ops[j].typ {
            OpType::Equal => {},
            OpType::Delete => deleted_t += 1,
            OpType::Insert => added_t += 1,
            OpType::Replace => modified_t += 1,
        }
        j += 1;
    }
    assert(tops.take(j as int) =~= tops);

    let added_p = sort_by_key(added_p);
    let deleted_p = sort_by_key(deleted_p);
    let modified_p = sort_by_key(modified_p);
    proof {
        assert((|x: (nat, Seq<char>)| DocxParagraph::key_of(x)) =~= by_index::<Seq<char>>());
        assert((|x: (nat, (Seq<char>, Seq<char>))| DocxParaDiff::key_of(x)) =~= by_index::<(Seq<char>, Seq<char>)>());
        assert(views(added_p@) =~= paras_view(added_p@));
        assert(views(deleted_p@) =~= paras_view(deleted_p@));
        assert(views(modified_p@) =~= para_diffs_view(modified_p@));
    }
    DocxResult {
        file_type: String::from_str("docx"),
        path_a: String::from_str(path_a),
        path_b: String::from_str(path_b),
        paragraphs: copy_paras(paras_a),
        added_p,
        deleted_p,
        modified_p,
        tables: tables_b,
        added_t,
        deleted_t,
        modified_t,
    }
}

} // verus!

verus! {

/// The paragraphs and tables of one side of the comparison, from the text of
/// its `word/document.xml` (`None` when the file is absent on that side).
pub fn read_document(loaded: &Option<String>) -> (r: (Vec<DocxParagraph>, Vec<DocxTable>))
    ensures
        (paras_view(r.0@), tables_view(r.1@)) == document_spec(
            match loaded {
                None => None,
                Some(x) => Some(x@),
            },
        ),
{
    match loaded {
        None => {
            let r: (Vec<DocxParagraph>, Vec<DocxTable>) = (Vec::new(), Vec::new());
            assert(paras_view(r.0@) =~= Seq::empty());
            assert(tables_view(r.1@) =~= Seq::empty());
            r
        },
        Some(xml) => parse_document_xml(xml.as_str()),
    }
}

/// The character view of a loaded side.
pub open spec fn loaded_view(l: Option<String>) -> Option<Seq<char>> {
    match l {
        None => None,
        Some(x) => Some(x@),
    }
}

/// `prefix` followed by the error text.
fn prefixed(prefix: &str, e: &String) -> (r: String)
    ensures
        r@ == prefix@ + e@,
{
    let mut r = String::from_str(prefix);
    r.append(e.as_str());
    r
}

/// Word (.docx) diff: paragraph-level add/delete/modify plus table change
/// counts. Each side is the text of its `word/document.xml` as read from the
/// file (`None` for an absent file), or the error that reading it gave.
pub fn docx_diff(
    path_a: &str,
    path_b: &str,
    loaded_a: Result<Option<String>, String>,
    loaded_b: Result<Option<String>, String>,
) -> (r: Result<DocxResult, String>)
    ensures
        loaded_a matches Err(e) ==> r matches Err(m) && m@ == "read A: "@ + e@,
        loaded_a is Ok ==> (loaded_b matches Err(e) ==> r matches Err(m) && m@ == "read B: "@ + e@),
        loaded_a matches Ok(la) ==> (loaded_b matches Ok(lb) ==> r matches Ok(res) && ({
            let (pa, ta) = document_spec(loaded_view(la));
            let (pb, tb) = document_spec(loaded_view(lb));
            docx_result_matches(
                res,
                path_a@,
                path_b@,
                pa,
                pb,
                tb,
                pair_spec(line_diff_spec(texts_of(pa), texts_of(pb))),
                pair_spec(line_diff_spec(sigs_of(ta), sigs_of(tb))),
            )
        })),
        loaded_a matches Ok(la) ==> (loaded_b matches Ok(lb) ==> (r matches Ok(res) && ({
            let (pa, ta) = document_spec(loaded_view(la));
            let (pb, tb) = document_spec(loaded_view(lb));
            &&& pa.len() + res.added_p@.len() == pb.len() + res.deleted_p@.len()
            &&& ta.len() + res.added_t == tb.len() + res.deleted_t
            &&& forall|i: int| 0 <= i < res.modified_p@.len() ==> {
                let m = #[trigger] res.modified_p@[i];
                m.index < pa.len() && m.old@ == pa[m.index as int].1
            }
        }))),
        loaded_a matches Ok(la) ==> (loaded_b matches Ok(lb) ==> (loaded_view(la) == loaded_view(lb) ==> (r matches Ok(res) && {
            &&& res.added_p@.len() == 0
            &&& res.deleted_p@.len() == 0
            &&& res.modified_p@.len() == 0
            &&& res.added_t == 0
            &&& res.deleted_t == 0
            &&& res.modified_t == 0
        }))),
{
    let la = match loaded_a {
        Ok(x) => x,
        Err(e) => return Err(prefixed("read A: ", &e)),
    };
    let lb = match loaded_b {
        Ok(x) => x,
        Err(e) => return Err(prefixed("read B: ", &e)),
    };
    let (paras_a, tables_a) = read_document(&la);
    let (paras_b, tables_b) = read_document(&lb);
    let text_a = para_texts(&paras_a);
    let text_b = para_texts(&paras_b);
    let para_ops = paired_line_ops(&text_a, &text_b);
    let sig_a = table_sigs(&tables_a);
    let sig_b = table_sigs(&tables_b);
    let table_ops = paired_line_ops(&sig_a, &sig_b);
    let res = docx_result_from_ops(path_a, path_b, &paras_a, &paras_b, tables_b, &para_ops, &table_ops);
    proof {
        lemma_docx_balance(
            res,
            path_a@,
            path_b@,
            paras_view(paras_a@),
            paras_view(paras_b@),
            tables_view(tables_a@),
            tables_view(tables_b@),
            ops_view(para_ops@),
            ops_view(table_ops@),
        );
        if loaded_view(la) == loaded_view(lb) {
            lemma_all_equal_no_paragraph_changes(ops_view(para_ops@), paras_view(paras_a@), paras_view(paras_b@));
            lemma_all_equal_counts(ops_view(table_ops@));
        }
    }
    Ok(res)
}

} // verus!

verus! {

/// What the walker keeps of a state: paragraphs numbered by position, each
/// non-empty and trimmed, the next number being their count; tables
/// numbered by position.
pub open spec fn doc_numbered(s: DocState) -> bool {
    &&& s.para_idx == s.paragraphs.len()
    &&& forall|k: int| 0 <= k < s.paragraphs.len() ==> (#[trigger] s.paragraphs[k]).0 == k
    &&& forall|k: int| 0 <= k < s.paragraphs.len() ==> (#[trigger] s.paragraphs[k]).1.len() > 0
    &&& forall|k: int| 0 <= k < s.paragraphs.len() ==> trim_spec((#[trigger] s.paragraphs[k]).1) == s.paragraphs[k].1
    &&& forall|k: int| 0 <= k < s.tables.len() ==> (#[trigger] s.tables[k]).0 == k
}

proof fn lemma_doc_step_numbered(s: DocState, e: XmlEventView)
    requires
        doc_numbered(s),
    ensures
        doc_numbered(doc_step(s, e)),
{
    let t = doc_step(s, e);
    if !s.done {
        if let XmlEventView::End(n) = e {
            let name = local_name_spec(n);
            if !(name == "t"@ && s.in_text) && !(name == "tc"@ && s.depth > 0) && !(name == "tr"@ && s.depth > 0) {
                if name == "tbl"@ {
                    assert forall|k: int| 0 <= k < t.tables.len() implies (#[trigger] t.tables[k]).0 == k by {
                        if k < s.tables.len() {
                            assert(t.tables[k] == s.tables[k]);
                        }
                    }
                } else if name == "p"@ && s.depth == 0 {
                    let text = trim_spec(s.para);
                    lemma_trim_idempotent(s.para);
                    assert forall|k: int| 0 <= k < t.paragraphs.len() implies {
                        &&& (#[trigger] t.paragraphs[k]).0 == k
                        &&& t.paragraphs[k].1.len() > 0
                        &&& trim_spec(t.paragraphs[k].1) == t.paragraphs[k].1
                    } by {
                        if k < s.paragraphs.len() {
                            assert(t.paragraphs[k] == s.paragraphs[k]);
                        }
                    }
                }
            }
        }
    }
}

proof fn lemma_doc_run_numbered(events: Seq<XmlEventView>)
    ensures
        doc_numbered(doc_run(events)),
    decreases events.len(),
{
    if events.len() > 0 {
        lemma_doc_run_numbered(events.drop_last());
        lemma_doc_step_numbered(doc_run(events.drop_last()), events.last());
    }
}

/// Whatever the document, its paragraphs are numbered 0, 1, 2, ... in
/// document order, each holds trimmed, non-empty text, and its top-level
/// tables are numbered 0, 1, 2, ... in document order.
pub proof fn lemma_document_numbering(events: Seq<XmlEventView>)
    ensures
        forall|k: int| 0 <= k < doc_outcome(events).0.len() ==> {
            let p = #[trigger] doc_outcome(events).0[k];
            &&& p.0 == k
            &&& p.1.len() > 0
            &&& trim_spec(p.1) == p.1
        },
        forall|k: int| 0 <= k < doc_outcome(events).1.len() ==> (#[trigger] doc_outcome(events).1[k]).0 == k,
{
    lemma_doc_run_numbered(events);
}

/// A script of `Equal` operations names no added, deleted or modified
/// paragraph.
pub proof fn lemma_all_equal_no_paragraph_changes(
    ops: Seq<LineOpView>,
    pa: Seq<(nat, Seq<char>)>,
    pb: Seq<(nat, Seq<char>)>,
)
    requires
        all_equal(ops),
    ensures
        added_of(ops, pb) == Seq::<(nat, Seq<char>)>::empty(),
        deleted_of(ops, pa) == Seq::<(nat, Seq<char>)>::empty(),
        modified_of(ops, pa, pb) == Seq::<(nat, (Seq<char>, Seq<char>))>::empty(),
    decreases ops.len(),
{
    if ops.len() > 0 {
        let t = ops.drop_last();
        assert(all_equal(t)) by {
            assert forall|k: int| 0 <= k < t.len() implies (#[trigger] t[k]).typ == OpType::Equal by {
                assert(t[k] == ops[k]);
            }
        }
        lemma_all_equal_no_paragraph_changes(t, pa, pb);
        assert(ops.last() == ops[ops.len() - 1]);
    }
}

/// The added, deleted and modified paragraph lists of a docx result come out
/// in ascending order of paragraph index.
pub proof fn lemma_docx_lists_sorted(
    r: DocxResult,
    path_a: Seq<char>,
    path_b: Seq<char>,
    pa: Seq<(nat, Seq<char>)>,
    pb: Seq<(nat, Seq<char>)>,
    tb: Seq<(nat, Seq<Seq<Seq<char>>>)>,
    para_ops: Seq<LineOpView>,
    table_ops: Seq<LineOpView>,
)
    requires
        docx_result_matches(r, path_a, path_b, pa, pb, tb, para_ops, table_ops),
    ensures
        sorted_by(paras_view(r.added_p@), by_index::<Seq<char>>()),
        sorted_by(paras_view(r.deleted_p@), by_index::<Seq<char>>()),
        sorted_by(para_diffs_view(r.modified_p@), by_index::<(Seq<char>, Seq<char>)>()),
{
    lemma_stable_sort_sorted(added_of(para_ops, pb), by_index::<Seq<char>>());
    lemma_stable_sort_sorted(deleted_of(para_ops, pa), by_index::<Seq<char>>());
    lemma_stable_sort_sorted(modified_of(para_ops, pa, pb), by_index::<(Seq<char>, Seq<char>)>());
}

} // verus!

verus! {

/// Where every insert names a paragraph of `pb`, each insert lists one.
proof fn lemma_added_len(ops: Seq<LineOpView>, pb: Seq<(nat, Seq<char>)>)
    requires
        forall|k: int| 0 <= k < ops.len() && (#[trigger] ops[k]).typ == OpType::Insert ==> ops[k].b < pb.len(),
    ensures
        added_of(ops, pb).len() == count_of(ops, OpType::Insert),
    decreases ops.len(),
{
    if ops.len() > 0 {
        let t = ops.drop_last();
        assert forall|k: int| 0 <= k < t.len() && (#[trigger] t[k]).typ == OpType::Insert implies t[k].b < pb.len() by {
            assert(t[k] == ops[k]);
        }
        lemma_added_len(t, pb);
        assert(ops.last() == ops[ops.len() - 1]);
    }
}

/// Where every delete names a paragraph of `pa`, each delete lists one.
proof fn lemma_deleted_len(ops: Seq<LineOpView>, pa: Seq<(nat, Seq<char>)>)
    requires
        forall|k: int| 0 <= k < ops.len() && (#[trigger] ops[k]).typ == OpType::Delete ==> ops[k].a < pa.len(),
    ensures
        deleted_of(ops, pa).len() == count_of(ops, OpType::Delete),
    decreases ops.len(),
{
    if ops.len() > 0 {
        let t = ops.drop_last();
        assert forall|k: int| 0 <= k < t.len() && (#[trigger] t[k]).typ == OpType::Delete implies t[k].a < pa.len() by {
            assert(t[k] == ops[k]);
        }
        lemma_deleted_len(t, pa);
        assert(ops.last() == ops[ops.len() - 1]);
    }
}

/// Each modified paragraph names an old-side paragraph and carries its text.
proof fn lemma_modified_old(ops: Seq<LineOpView>, pa: Seq<(nat, Seq<char>)>, pb: Seq<(nat, Seq<char>)>)
    ensures
        forall|i: int| 0 <= i < modified_of(ops, pa, pb).len() ==> {
            let m = #[trigger] modified_of(ops, pa, pb)[i];
            m.0 < pa.len() && m.1.0 == pa[m.0 as int].1
        },
    decreases ops.len(),
{
    if ops.len() > 0 {
        lemma_modified_old(ops.drop_last(), pa, pb);
        let prev = modified_of(ops.drop_last(), pa, pb);
        let cur = modified_of(ops, pa, pb);
        assert forall|i: int| 0 <= i < cur.len() implies {
            let m = #[trigger] cur[i];
            m.0 < pa.len() && m.1.0 == pa[m.0 as int].1
        } by {
            if i < prev.len() {
                assert(cur[i] == prev[i]);
            }
        }
    }
}

/// The paragraph and table balance of a docx result built from edit
/// scripts: the old paragraphs and the added ones are as many as the new
/// paragraphs and the deleted ones (likewise for tables), and each modified
/// paragraph names an old paragraph and carries its text.
pub proof fn lemma_docx_balance(
    r: DocxResult,
    path_a: Seq<char>,
    path_b: Seq<char>,
    pa: Seq<(nat, Seq<char>)>,
    pb: Seq<(nat, Seq<char>)>,
    ta: Seq<(nat, Seq<Seq<Seq<char>>>)>,
    tb: Seq<(nat, Seq<Seq<Seq<char>>>)>,
    para_ops: Seq<LineOpView>,
    table_ops: Seq<LineOpView>,
)
    requires
        docx_result_matches(r, path_a, path_b, pa, pb, tb, para_ops, table_ops),
        edit_script(para_ops, texts_of(pa), texts_of(pb)),
        edit_script(table_ops, sigs_of(ta), sigs_of(tb)),
    ensures
        pa.len() + r.added_p@.len() == pb.len() + r.deleted_p@.len(),
        ta.len() + r.added_t == tb.len() + r.deleted_t,
        forall|i: int| 0 <= i < r.modified_p@.len() ==> {
            let m = #[trigger] r.modified_p@[i];
            m.index < pa.len() && m.old@ == pa[m.index as int].1
        },
{
    lemma_script_positions(para_ops, texts_of(pa), texts_of(pb));
    lemma_script_counts(para_ops, texts_of(pa), texts_of(pb));
    lemma_script_counts(table_ops, sigs_of(ta), sigs_of(tb));
    assert forall|k: int| 0 <= k < para_ops.len() && (#[trigger] para_ops[k]).typ == OpType::Insert implies para_ops[k].b < pb.len() by {
        assert(takes_new(para_ops[k].typ));
    }
    assert forall|k: int| 0 <= k < para_ops.len() && (#[trigger] para_ops[k]).typ == OpType::Delete implies para_ops[k].a < pa.len() by {
        assert(takes_old(para_ops[k].typ));
    }
    lemma_added_len(para_ops, pb);
    lemma_deleted_len(para_ops, pa);
    lemma_stable_sort_sorted(added_of(para_ops, pb), by_index::<Seq<char>>());
    lemma_stable_sort_sorted(deleted_of(para_ops, pa), by_index::<Seq<char>>());
    assert(r.added_p@.len() == paras_view(r.added_p@).len());
    assert(r.deleted_p@.len() == paras_view(r.deleted_p@).len());
    let mods = modified_of(para_ops, pa, pb);
    lemma_modified_old(para_ops, pa, pb);
    lemma_stable_sort_elements(mods, by_index::<(Seq<char>, Seq<char>)>());
    let sorted = stable_sort(mods, by_index::<(Seq<char>, Seq<char>)>());
    assert forall|i: int| 0 <= i < r.modified_p@.len() implies {
        let m = #[trigger] r.modified_p@[i];
        m.index < pa.len() && m.old@ == pa[m.index as int].1
    } by {
        assert(para_diffs_view(r.modified_p@)[i] == r.modified_p@[i]@);
        assert(sorted[i] == r.modified_p@[i]@);
        assert(mods.contains(sorted[i]));
        let w = choose|w: int| 0 <= w < mods.len() && mods[w] == sorted[i];
        assert(mods[w].0 < pa.len());
    }
}

} // verus!

verus! {

proof fn lemma_doc_run_prefix(e1: Seq<XmlEventView>, e2: Seq<XmlEventView>)
    requires
        streams_same_up_to_prefix(e1, e2),
    ensures
        doc_run(e1) == doc_run(e2),
    decreases e1.len(),
{
    if e1.len() > 0 {
        let t1 = e1.drop_last();
        let t2 = e2.drop_last();
        assert forall|i: int| 0 <= i < t1.len() implies same_up_to_prefix(#[trigger] t1[i], t2[i]) by {
            assert(t1[i] == e1[i] && t2[i] == e2[i]);
        }
        lemma_doc_run_prefix(t1, t2);
        assert(same_up_to_prefix(e1[e1.len() - 1], e2[e2.len() - 1]));
    }
}

/// The document walker reads elements by their local names only: two event
/// streams that differ at most in the namespace prefixes of their tag names
/// (`w:p` read as `x:p` or `p`; see `lemma_local_part_prefix`) give the same
/// paragraphs and tables.
pub proof fn lemma_document_prefix_free(e1: Seq<XmlEventView>, e2: Seq<XmlEventView>)
    requires
        streams_same_up_to_prefix(e1, e2),
    ensures
        doc_outcome(e1) == doc_outcome(e2),
{
    lemma_doc_run_prefix(e1, e2);
}

} // verus!

verus! {

/// Some `Replace` of `ops` at old-side position `m.0` reads `m.1.0` from the
/// old paragraphs there and `m.1.1` from the new paragraphs at its new-side
/// position.
spec fn replace_behind(ops: Seq<LineOpView>, pa: Seq<(nat, Seq<char>)>, pb: Seq<(nat, Seq<char>)>, m: (nat, (Seq<char>, Seq<char>))) -> bool {
    exists|k: int|
        0 <= k < ops.len() && (#[trigger] ops[k]).typ == OpType::Replace && ops[k].a == m.0 && ops[k].a < pa.len()
            && ops[k].b < pb.len() && m.1.0 == pa[ops[k].a as int].1 && m.1.1 == pb[ops[k].b as int].1
}

proof fn lemma_modified_from_replaces(ops: Seq<LineOpView>, pa: Seq<(nat, Seq<char>)>, pb: Seq<(nat, Seq<char>)>)
    ensures
        forall|i: int| 0 <= i < modified_of(ops, pa, pb).len() ==> replace_behind(ops, pa, pb, #[trigger] modified_of(ops, pa, pb)[i]),
    decreases ops.len(),
{
    if ops.len() > 0 {
        let t = ops.drop_last();
        lemma_modified_from_replaces(t, pa, pb);
        let prev = modified_of(t, pa, pb);
        let cur = modified_of(ops, pa, pb);
        assert forall|i: int| 0 <= i < cur.len() implies replace_behind(ops, pa, pb, #[trigger] cur[i]) by {
            if i < prev.len() {
                assert(cur[i] == prev[i]);
                assert(replace_behind(t, pa, pb, prev[i]));
                let k = choose|k: int|
                    0 <= k < t.len() && (#[trigger] t[k]).typ == OpType::Replace && t[k].a == prev[i].0 && t[k].a < pa.len()
                        && t[k].b < pb.len() && prev[i].1.0 == pa[t[k].a as int].1 && prev[i].1.1 == pb[t[k].b as int].1;
                assert(t[k] == ops[k]);
            } else {
                let k = ops.len() - 1;
                assert(ops[k] == ops.last());
            }
        }
    }
}

/// The `Replace` of the paragraph script behind a modified paragraph: at
/// the paragraph's index on the old side, with the paragraph's old and new
/// texts as its old and new lines, the new one being the new paragraph at
/// the operation's new-side position.
pub open spec fn replaced_by(ops: Seq<LineOpView>, pb: Seq<(nat, Seq<char>)>, m: DocxParaDiff) -> bool {
    exists|k: int|
        0 <= k < ops.len() && (#[trigger] ops[k]).typ == OpType::Replace && ops[k].a == m.index && ops[k].b < pb.len()
            && m.new@ == pb[ops[k].b as int].1 && m.old@ == ops[k].old && m.new@ == ops[k].new
}

/// Each modified paragraph comes from a `Replace` of the paragraph script:
/// its index is the operation's old-side position, its old text is the old
/// paragraph there (the operation's old line), and its new text is the new
/// paragraph at the operation's new-side position (the operation's new
/// line).
pub proof fn lemma_modified_texts_law(
    r: DocxResult,
    path_a: Seq<char>,
    path_b: Seq<char>,
    pa: Seq<(nat, Seq<char>)>,
    pb: Seq<(nat, Seq<char>)>,
    tb: Seq<(nat, Seq<Seq<Seq<char>>>)>,
    para_ops: Seq<LineOpView>,
    table_ops: Seq<LineOpView>,
)
    requires
        docx_result_matches(r, path_a, path_b, pa, pb, tb, para_ops, table_ops),
        edit_script(para_ops, texts_of(pa), texts_of(pb)),
    ensures
        forall|i: int| 0 <= i < r.modified_p@.len() ==> {
            &&& (#[trigger] r.modified_p@[i]).index < pa.len()
            &&& r.modified_p@[i].old@ == pa[r.modified_p@[i].index as int].1
            &&& replaced_by(para_ops, pb, r.modified_p@[i])
        },
{
    let mods = modified_of(para_ops, pa, pb);
    lemma_modified_from_replaces(para_ops, pa, pb);
    lemma_stable_sort_elements(mods, by_index::<(Seq<char>, Seq<char>)>());
    let sorted = stable_sort(mods, by_index::<(Seq<char>, Seq<char>)>());
    assert forall|i: int| 0 <= i < r.modified_p@.len() implies {
        &&& (#[trigger] r.modified_p@[i]).index < pa.len()
        &&& r.modified_p@[i].old@ == pa[r.modified_p@[i].index as int].1
        &&& replaced_by(para_ops, pb, r.modified_p@[i])
    } by {
        let m = r.modified_p@[i];
        assert(para_diffs_view(r.modified_p@)[i] == m@);
        assert(sorted[i] == m@);
        assert(mods.contains(sorted[i]));
        let w = choose|w: int| 0 <= w < mods.len() && mods[w] == sorted[i];
        assert(replace_behind(para_ops, pa, pb, mods[w]));
        let k = choose|k: int|
            0 <= k < para_ops.len() && (#[trigger] para_ops[k]).typ == OpType::Replace && para_ops[k].a == mods[w].0
                && para_ops[k].a < pa.len() && para_ops[k].b < pb.len() && mods[w].1.0 == pa[para_ops[k].a as int].1
                && mods[w].1.1 == pb[para_ops[k].b as int].1;
        let o = para_ops[k];
        assert(takes_old(o.typ) && takes_new(o.typ));
        assert(o.old == texts_of(pa)[o.a as int]);
        assert(o.new == texts_of(pb)[o.b as int]);
    }
}

} // verus!
