//! RTF diff: the tables of an RTF document are read into rows of cell texts
//! (`\trowd` opens a row, `\cell` closes a cell, `\row` closes the row), and
//! the two sides' rows are aligned and tagged cell by cell with the grid diff.
//! Font, colour, style and information tables, pictures, headers, footers,
//! footnotes and `\*` destinations are skipped; text outside table rows is
//! not compared.

use vstd::prelude::*;

use crate::grid::{grid_diff, grid_spec, GridOptions, GridResult, Init};
use crate::strs::{grid_view, push_char, str_eq, strings_view, trim_spec, trimmed};

verus! {

/// Where the reader stands between two bytes: in text, just after a
/// backslash, in a control word's letters, in its numeric parameter, or in
/// the first or second digit of a `\'hh` escape.
#[derive(Debug, Clone, Copy, PartialEq, Eq, Structural)]
pub enum RtfMode {
    Text,
    Escape,
    Word,
    Param,
    Hex1,
    Hex2,
}

/// The state of the RTF reader.
pub struct RtfState {
    pub mode: RtfMode,
    pub hi: nat,
    pub word: Seq<char>,
    pub depth: int,
    pub skip: Option<int>,
    pub in_row: bool,
    pub cell: Seq<char>,
    pub row: Seq<Seq<char>>,
    pub rows: Seq<Seq<Seq<char>>>,
}

pub open spec fn rtf_init() -> RtfState {
    RtfState {
        mode: RtfMode::Text,
        hi: 0,
        word: Seq::empty(),
        depth: 0,
        skip: None,
        in_row: false,
        cell: Seq::empty(),
        row: Seq::empty(),
        rows: Seq::empty(),
    }
}

/// The control words that open a destination whose text is not compared.
pub open spec fn skipped_destination(w: Seq<char>) -> bool {
    ||| w == "fonttbl"@
    ||| w == "colortbl"@
    ||| w == "stylesheet"@
    ||| w == "info"@
    ||| w == "pict"@
    ||| w == "header"@
    ||| w == "footer"@
    ||| w == "footnote"@
}

/// A character of the text, kept where the reader is inside a table row and
/// not in a skipped group.
pub open spec fn add_char(s: RtfState, c: char) -> RtfState {
    if s.skip is None && s.in_row {
        RtfState { cell: s.cell.push(c), ..s }
    } else {
        s
    }
}

/// The effect of the control word just read.
pub open spec fn apply_word(s: RtfState) -> RtfState {
    let w = s.word;
    let s = RtfState { mode: RtfMode::Text, ..s };
    if s.skip is Some {
        s
    } else if w == "trowd"@ {
        RtfState { in_row: true, row: Seq::empty(), cell: Seq::empty(), ..s }
    } else if w == "cell"@ {
        if s.in_row {
            RtfState { row: s.row.push(trim_spec(s.cell)), cell: Seq::empty(), ..s }
        } else {
            s
        }
    } else if w == "row"@ {
        if s.in_row {
            RtfState { rows: s.rows.push(s.row), row: Seq::empty(), cell: Seq::empty(), in_row: false, ..s }
        } else {
            s
        }
    } else if w == "par"@ || w == "line"@ || w == "tab"@ {
        add_char(s, ' ')
    } else if skipped_destination(w) {
        RtfState { skip: Some(s.depth), ..s }
    } else {
        s
    }
}

/// Whether `b` is an ASCII letter.
pub open spec fn is_letter(b: u8) -> bool {
    (65 <= b <= 90) || (97 <= b <= 122)
}

/// Whether `b` is an ASCII digit.
pub open spec fn is_digit(b: u8) -> bool {
    48 <= b <= 57
}

/// The value of a hexadecimal digit, if `b` is one.
pub open spec fn hex_value(b: u8) -> Option<nat> {
    if 48 <= b <= 57 {
        Some((b - 48) as nat)
    } else if 97 <= b <= 102 {
        Some((b - 87) as nat)
    } else if 65 <= b <= 70 {
        Some((b - 55) as nat)
    } else {
        None
    }
}

/// A byte read in text.
pub open spec fn text_byte(s: RtfState, b: u8) -> RtfState {
    if b == 92 {
        RtfState { mode: RtfMode::Escape, ..s }
    } else if b == 123 {
        RtfState { depth: s.depth + 1, ..s }
    } else if b == 125 {
        let d = s.depth - 1;
        match s.skip {
            Some(k) => if d < k {
                RtfState { depth: d, skip: None, ..s }
            } else {
                RtfState { depth: d, ..s }
            },
            None => RtfState { depth: d, ..s },
        }
    } else if b == 10 || b == 13 {
        s
    } else {
        add_char(s, b as char)
    }
}

/// One byte of the document.
pub open spec fn rtf_step(s: RtfState, b: u8) -> RtfState {
    match s.mode {
        RtfMode::Text => text_byte(s, b),
        RtfMode::Escape => if is_letter(b) {
            RtfState { mode: RtfMode::Word, word: seq![b as char], ..s }
        } else if b == 39 {
            RtfState { mode: RtfMode::Hex1, ..s }
        } else if b == 92 || b == 123 || b == 125 {
            add_char(RtfState { mode: RtfMode::Text, ..s }, b as char)
        } else if b == 126 {
            add_char(RtfState { mode: RtfMode::Text, ..s }, ' ')
        } else if b == 42 {
            let t = RtfState { mode: RtfMode::Text, ..s };
            if t.skip is None {
                RtfState { skip: Some(t.depth), ..t }
            } else {
                t
            }
        } else if b == 10 || b == 13 {
            apply_word(RtfState { word: "par"@, ..s })
        } else {
            RtfState { mode: RtfMode::Text, ..s }
        },
        RtfMode::Word => if is_letter(b) {
            RtfState { word: s.word.push(b as char), ..s }
        } else if is_digit(b) || b == 45 {
            RtfState { mode: RtfMode::Param, ..s }
        } else if b == 32 {
            apply_word(s)
        } else {
            text_byte(apply_word(s), b)
        },
        RtfMode::Param => if is_digit(b) {
            s
        } else if b == 32 {
            apply_word(s)
        } else {
            text_byte(apply_word(s), b)
        },
        RtfMode::Hex1 => match hex_value(b) {
            Some(v) => RtfState { mode: RtfMode::Hex2, hi: v, ..s },
            None => RtfState { mode: RtfMode::Text, ..s },
        },
        RtfMode::Hex2 => match hex_value(b) {
            Some(v) => add_char(RtfState { mode: RtfMode::Text, ..s }, ((s.hi * 16 + v) as u8) as char),
            None => RtfState { mode: RtfMode::Text, ..s },
        },
    }
}

/// The reader's state after the given bytes.
pub open spec fn rtf_run(bytes: Seq<u8>) -> RtfState
    decreases bytes.len(),
{
    if bytes.len() == 0 {
        rtf_init()
    } else {
        rtf_step(rtf_run(bytes.drop_last()), bytes.last())
    }
}

/// The table rows of an RTF document: each row its trimmed cell texts. A
/// control word at the very end still takes effect; a row left open does not
/// count.
pub open spec fn rtf_rows(bytes: Seq<u8>) -> Seq<Seq<Seq<char>>> {
    let s = rtf_run(bytes);
    if s.mode == RtfMode::Word || s.mode == RtfMode::Param {
        apply_word(s).rows
    } else {
        s.rows
    }
}

/// The reader's state as exec values.
struct RtfReader {
    mode: RtfMode,
    hi: u8,
    word: String,
    depth: i128,
    skip: Option<i128>,
    in_row: bool,
    cell: String,
    row: Vec<String>,
    rows: Vec<Vec<String>>,
}

impl View for RtfReader {
    type V = RtfState;

    closed spec fn view(&self) -> RtfState {
        RtfState {
            mode: self.mode,
            hi: self.hi as nat,
            word: self.word@,
            depth: self.depth as int,
            skip: match self.skip {
                Some(k) => Some(k as int),
                None => None,
            },
            in_row: self.in_row,
            cell: self.cell@,
            row: strings_view(self.row@),
            rows: grid_view(self.rows@),
        }
    }
}

/// The bound the depth and the skip mark stay within.
spec fn bounded(r: RtfReader, n: int) -> bool {
    &&& -n <= r.depth <= n
    &&& (r.skip matches Some(k) ==> -n <= k <= n)
    &&& r.hi < 16
    &&& 0 <= n <= 0x1_0000_0000_0000_0000
}

fn add_char_exec(r: &mut RtfReader, c: char)
    ensures
        final(r)@ == add_char(old(r)@, c),
        final(r).depth == old(r).depth,
        final(r).skip == old(r).skip,
        final(r).hi == old(r).hi,
{
    if r.skip.is_none() && r.in_row {
        push_char(&mut r.cell, c);
    }
}

fn apply_word_exec(r: &mut RtfReader)
    ensures
        final(r)@ == apply_word(old(r)@),
        final(r).depth == old(r).depth,
        final(r).skip is Some ==> final(r).skip == old(r).skip || final(r).skip == Some(old(r).depth),
        final(r).hi == old(r).hi,
{
    r.mode = RtfMode::Text;
    if r.skip.is_some() {
        return;
    }
    let w = r.word.as_str();
    if str_eq(w, "trowd") {
        r.in_row = true;
        r.row = Vec::new();
        r.cell = String::new();
    } else if str_eq(w, "cell") {
        if r.in_row {
            let t = trimmed(&r.cell);
            let ghost prev = r.row@;
            r.row.push(t);
            assert(strings_view(r.row@) =~= strings_view(prev).push(t@));
            r.cell = String::new();
        }
    } else if str_eq(w, "row") {
        if r.in_row {
            let mut row: Vec<String> = Vec::new();
            std::mem::swap(&mut row, &mut r.row);
            let ghost prev = r.rows@;
            r.rows.push(row);
            assert(grid_view(r.rows@) =~= grid_view(prev).push(strings_view(row@)));
            r.cell = String::new();
            r.in_row = false;
        }
    } else if str_eq(w, "par") || str_eq(w, "line") || str_eq(w, "tab") {
        add_char_exec(r, ' ');
    } else if str_eq(w, "fonttbl") || str_eq(w, "colortbl") || str_eq(w, "stylesheet") || str_eq(w, "info")
        || str_eq(w, "pict") || str_eq(w, "header") || str_eq(w, "footer") || str_eq(w, "footnote") {
        r.skip = Some(r.depth);
    }
    proof {
        assert(r@.row =~= apply_word(old(r)@).row);
    }
}

fn text_byte_exec(r: &mut RtfReader, b: u8, Ghost(n): Ghost<int>)
    requires
        bounded(*old(r), n),
        n < 0x1_0000_0000_0000_0000,
    ensures
        final(r)@ == text_byte(old(r)@, b),
        bounded(*final(r), n + 1),
{
    if b == 92 {
        r.mode = RtfMode::Escape;
    } else if b == 123 {
        r.depth = r.depth + 1;
    } else if b == 125 {
        let d = r.depth - 1;
        match r.skip {
            Some(k) => {
                if d < k {
                    r.skip = None;
                }
            },
            None => {},
        }
        r.depth = d;
    } else if b == 10 || b == 13 {
    } else {
        add_char_exec(r, b as char);
    }
}

fn hex_value_exec(b: u8) -> (v: Option<u8>)
    ensures
        match v {
            Some(x) => hex_value(b) == Some(x as nat) && x < 16,
            None => hex_value(b) is None,
        },
{
    if 48 <= b && b <= 57 {
        Some(b - 48)
    } else if 97 <= b && b <= 102 {
        Some(b - 87)
    } else if 65 <= b && b <= 70 {
        Some(b - 55)
    } else {
        None
    }
}

fn step_exec(r: &mut RtfReader, b: u8, Ghost(n): Ghost<int>)
    requires
        bounded(*old(r), n),
        n < 0x1_0000_0000_0000_0000,
    ensures
        final(r)@ == rtf_step(old(r)@, b),
        bounded(*final(r), n + 1),
{
    match r.mode {
        RtfMode::Text => text_byte_exec(r, b, Ghost(n)),
        RtfMode::Escape => {
            if (65 <= b && b <= 90) || (97 <= b && b <= 122) {
                r.mode = RtfMode::Word;
                let mut w = String::new();
                push_char(&mut w, b as char);
                r.word = w;
                assert(r.word@ =~= seq![b as char]);
            } else if b == 39 {
                r.mode = RtfMode::Hex1;
            } else if b == 92 || b == 123 || b == 125 {
                r.mode = RtfMode::Text;
                add_char_exec(r, b as char);
            } else if b == 126 {
                r.mode = RtfMode::Text;
                add_char_exec(r, ' ');
            } else if b == 42 {
                r.mode = RtfMode::Text;
                if r.skip.is_none() {
                    r.skip = Some(r.depth);
                }
            } else if b == 10 || b == 13 {
                r.word = String::from_str("par");
                apply_word_exec(r);
            } else {
                r.mode = RtfMode::Text;
            }
        },
        RtfMode::Word => {
            if (65 <= b && b <= 90) || (97 <= b && b <= 122) {
                push_char(&mut r.word, b as char);
            } else if (48 <= b && b <= 57) || b == 45 {
                r.mode = RtfMode::Param;
            } else if b == 32 {
                apply_word_exec(r);
            } else {
                apply_word_exec(r);
                text_byte_exec(r, b, Ghost(n));
            }
        },
        RtfMode::Param => {
            if 48 <= b && b <= 57 {
            } else if b == 32 {
                apply_word_exec(r);
            } else {
                apply_word_exec(r);
                text_byte_exec(r, b, Ghost(n));
            }
        },
        RtfMode::Hex1 => match hex_value_exec(b) {
            Some(v) => {
                r.mode = RtfMode::Hex2;
                r.hi = v;
            },
            None => {
                r.mode = RtfMode::Text;
            },
        },
        RtfMode::Hex2 => match hex_value_exec(b) {
            Some(v) => {
                r.mode = RtfMode::Text;
                let c = (r.hi * 16 + v) as char;
                assert(((r.hi * 16 + v) as u8) == r.hi * 16 + v);
                add_char_exec(r, c);
            },
            None => {
                r.mode = RtfMode::Text;
            },
        },
    }
}

/// The table rows of an RTF document: each row its trimmed cell texts.
pub fn read_rtf_rows(bytes: &[u8]) -> (rows: Vec<Vec<String>>)
    ensures
        grid_view(rows@) == rtf_rows(bytes@),
{
    let mut r = RtfReader {
        mode: RtfMode::Text,
        hi: 0,
        word: String::new(),
        depth: 0,
        skip: None,
        in_row: false,
        cell: String::new(),
        row: Vec::new(),
        rows: Vec::new(),
    };
    proof {
        assert(strings_view(r.row@) =~= Seq::<Seq<char>>::empty());
        assert(grid_view(r.rows@) =~= Seq::<Seq<Seq<char>>>::empty());
        assert(r.word@ =~= Seq::<char>::empty());
        assert(r.cell@ =~= Seq::<char>::empty());
        assert(r@ == rtf_init());
        assert(bytes@.take(0) =~= Seq::<u8>::empty());
    }
    let mut i: usize = 0;
    while i < bytes.len()
        invariant
            i <= bytes@.len(),
            r@ == rtf_run(bytes@.take(i as int)),
            bounded(r, i as int),
        decreases bytes@.len() - i,
    {
        assert(bytes@.take(i as int + 1).drop_last() =~= bytes@.take(i as int));
        assert(i < 0x1_0000_0000_0000_0000);
        step_exec(&mut r, bytes[i], Ghost(i as int));
        i += 1;
    }
    assert(bytes@.take(i as int) =~= bytes@);
    if r.mode == RtfMode::Word || r.mode == RtfMode::Param {
        apply_word_exec(&mut r);
    }
    r.rows
}

/// The result of an RTF diff: file type, both paths, and the aligned grid of
/// the two documents' table rows with per-cell status.
#[derive(Debug, Clone)]
pub struct RtfResult {
    pub file_type: String,
    pub path_a: String,
    pub path_b: String,
    pub grid: GridResult,
}

/// RTF diff of two documents given by their bytes (none for an absent file),
/// or by the error that reading them gave, which is passed on, side A first.
/// The table rows of both sides are aligned position-first with the grid
/// diff's default options.
pub fn rtf_diff(
    path_a: &str,
    path_b: &str,
    bytes_a: Result<Vec<u8>, String>,
    bytes_b: Result<Vec<u8>, String>,
) -> (r: Result<RtfResult, String>)
    ensures
        bytes_a matches Err(e) ==> r == Err::<RtfResult, String>(e),
        bytes_a is Ok ==> (bytes_b matches Err(e) ==> r == Err::<RtfResult, String>(e)),
        bytes_a matches Ok(a) ==> (bytes_b matches Ok(b) ==> r matches Ok(res) && {
            &&& res.file_type@ == "rtf"@
            &&& res.path_a@ == path_a@
            &&& res.path_b@ == path_b@
            &&& res.grid@ == grid_spec(rtf_rows(a@), rtf_rows(b@), (None, false, 3, 4000))
        }),
{
    let a = bytes_a?;
    let b = bytes_b?;
    let rows_a = read_rtf_rows(a.as_slice());
    let rows_b = read_rtf_rows(b.as_slice());
    let opts = GridOptions::default();
    let grid = grid_diff(&rows_a, &rows_b, &opts);
    Ok(RtfResult {
        file_type: String::from_str("rtf"),
        path_a: String::from_str(path_a),
        path_b: String::from_str(path_b),
        grid,
    })
}

} // verus!
