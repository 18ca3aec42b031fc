//! Format-aware diff engines for common document types.

use vstd::prelude::*;

pub mod folder;
pub mod pdf;
pub mod rtf;
pub mod strs;
pub mod text;
pub mod xml;
pub mod docx;
pub mod excel;
pub mod grid;
pub mod json;
pub mod ops;
pub mod order;
pub mod pptx;
pub mod sort;

use crate::docx::DocxResult;
use crate::excel::ExcelResult;
use crate::pptx::PptxResult;
use crate::strs::{
    after_last_dot, ascii_chars, ascii_lower, lowercase_spec, path_extension, path_extension_spec, plain_file_name, push_char,
    str_eq, to_lowercase,
};
use crate::text::TextResult;

verus! {

/// The lowercase hexadecimal digit for a value below sixteen.
pub open spec fn hex_digit_spec(d: int) -> char {
    if d < 10 {
        (d + 48) as char
    } else {
        (d - 10 + 97) as char
    }
}

/// Lowercase hex encoding: two digits per byte, high nibble first.
pub open spec fn hex_spec(bytes: Seq<u8>) -> Seq<char>
    decreases bytes.len(),
{
    if bytes.len() == 0 {
        Seq::empty()
    } else {
        let b = bytes.last();
        hex_spec(bytes.drop_last()).push(hex_digit_spec(b as int / 16)).push(hex_digit_spec(b as int % 16))
    }
}

fn hex_digit(d: u8) -> (c: char)
    requires
        d < 16,
    ensures
        c == hex_digit_spec(d as int),
{
    if d < 10 {
        (d + 48) as char
    } else {
        (d - 10 + 97) as char
    }
}

/// Whether `c` is a lowercase hexadecimal digit.
pub open spec fn is_lower_hex(c: char) -> bool {
    ('0' <= c && c <= '9') || ('a' <= c && c <= 'f')
}

/// Lowercase hex encoding, shared by the folder hasher.
pub fn hex(bytes: &[u8]) -> (s: String)
    ensures
        s@ == hex_spec(bytes@),
        s@.len() == 2 * bytes@.len(),
        forall|k: int| 0 <= k < s@.len() ==> is_lower_hex(#[trigger] s@[k]),
{
    let mut s = String::new();
    let mut i: usize = 0;
    while i < bytes.len()
        invariant
            i <= bytes@.len(),
            s@ == hex_spec(bytes@.take(i as int)),
            s@.len() == 2 * i,
            forall|k: int| 0 <= k < s@.len() ==> is_lower_hex(#[trigger] s@[k]),
        decreases bytes@.len() - i,
    {
        let b = bytes[i];
        push_char(&mut s, hex_digit(b / 16));
        push_char(&mut s, hex_digit(b % 16));
        assert(bytes@.take(i as int + 1).drop_last() =~= bytes@.take(i as int));
        i += 1;
    }
    assert(bytes@.take(i as int) =~= bytes@);
    s
}

/// The unified diff result that applications consume. Exactly one of the
/// format-specific fields is set, depending on which engine ran.
#[derive(Debug)]
pub struct DiffResult {
    pub file_type: String,
    pub path_a: String,
    pub path_b: String,
    pub text: Option<TextResult>,
    pub excel: Option<ExcelResult>,
    pub docx: Option<DocxResult>,
    pub pptx: Option<PptxResult>,
    pub error: String,
}

/// The extension of a path as the dispatcher reads it: none for an empty
/// path, else the lowercase extension if it is not empty.
pub open spec fn ext_spec(path: Seq<char>) -> Option<Seq<char>> {
    if path.len() == 0 {
        None
    } else {
        match path_extension_spec(path) {
            None => None,
            Some(e) => if lowercase_spec(e).len() == 0 {
                None
            } else {
                Some(lowercase_spec(e))
            },
        }
    }
}

/// The lowercase form of a raw extension, if that is not empty. An ASCII
/// extension is lowercased letter by letter.
pub fn lower_ext(raw: Option<String>) -> (r: Option<String>)
    ensures
        match raw {
            None => r is None,
            Some(e) => if lowercase_spec(e@).len() == 0 {
                r is None
            } else {
                r matches Some(l) && l@ == lowercase_spec(e@)
            },
        },
        raw matches Some(e) ==> (ascii_chars(e@) ==> lowercase_spec(e@) == e@.map_values(|c: char| ascii_lower(c))),
{
    match raw {
        None => None,
        Some(e) => {
            let l = to_lowercase(e.as_str());
            if l.as_str().is_empty() {
                None
            } else {
                Some(l)
            }
        },
    }
}

/// The extension of an ASCII bare file name with an embedded `.` and a
/// non-empty extension, lowercased.
pub open spec fn plain_ext(path: Seq<char>) -> Option<Seq<char>> {
    if plain_file_name(path) && ascii_chars(path) && after_last_dot(path).len() > 0 {
        Some(after_last_dot(path).map_values(|c: char| ascii_lower(c)))
    } else {
        None
    }
}

proof fn lemma_after_last_dot_ascii(s: Seq<char>)
    requires
        ascii_chars(s),
    ensures
        ascii_chars(after_last_dot(s)),
    decreases s.len(),
{
    if s.len() > 0 && s.last() != '.' {
        let t = s.drop_last();
        assert(ascii_chars(t)) by {
            assert forall|i: int| 0 <= i < t.len() implies (#[trigger] t[i] as int) < 128 by {
                assert(t[i] == s[i]);
            }
        }
        lemma_after_last_dot_ascii(t);
        assert(s[s.len() - 1] == s.last());
    }
}

/// The lowercase extension of a path, if it has a non-empty one.
pub fn ext_of(path: &str) -> (r: Option<String>)
    ensures
        match r {
            Some(e) => ext_spec(path@) == Some(e@),
            None => ext_spec(path@) is None,
        },
        plain_ext(path@) matches Some(x) ==> (r matches Some(e) && e@ == x),
{
    if path.is_empty() {
        return None;
    }
    let raw = path_extension(path);
    proof {
        if plain_ext(path@) is Some {
            lemma_after_last_dot_ascii(path@);
        }
    }
    lower_ext(raw)
}

/// The diff engine for a file pair.
#[derive(Debug, Clone, Copy, PartialEq, Eq, Structural)]
pub enum Engine {
    Excel,
    Docx,
    Pptx,
    Pdf,
    Text,
}

/// The engine for an extension: the spreadsheet, Word, PowerPoint and PDF
/// extensions have their own; anything else is plain text.
pub open spec fn engine_of_ext(ext: Seq<char>) -> Engine {
    if ext == "xlsx"@ || ext == "xls"@ || ext == "xlsm"@ {
        Engine::Excel
    } else if ext == "docx"@ {
        Engine::Docx
    } else if ext == "pptx"@ {
        Engine::Pptx
    } else if ext == "pdf"@ {
        Engine::Pdf
    } else {
        Engine::Text
    }
}

/// The engine for a file pair: by the extension of path A, else of path B,
/// else plain text. An empty path is a file absent on that side.
pub open spec fn engine_spec(path_a: Seq<char>, path_b: Seq<char>) -> Engine {
    match ext_spec(path_a) {
        Some(e) => engine_of_ext(e),
        None => match ext_spec(path_b) {
            Some(e) => engine_of_ext(e),
            None => engine_of_ext(Seq::empty()),
        },
    }
}

/// Route a file pair to the right diff engine by extension.
pub fn engine_for(path_a: &str, path_b: &str) -> (r: Engine)
    ensures
        r == engine_spec(path_a@, path_b@),
        plain_ext(path_a@) matches Some(x) ==> r == engine_of_ext(x),
{
    let ext = match ext_of(path_a) {
        Some(e) => e,
        None => match ext_of(path_b) {
            Some(e) => e,
            None => String::new(),
        },
    };
    let e = ext.as_str();
    if str_eq(e, "xlsx") || str_eq(e, "xls") || str_eq(e, "xlsm") {
        Engine::Excel
    } else if str_eq(e, "docx") {
        Engine::Docx
    } else if str_eq(e, "pptx") {
        Engine::Pptx
    } else if str_eq(e, "pdf") {
        Engine::Pdf
    } else {
        Engine::Text
    }
}

/// What the engine that ran gave.
pub enum EngineOutcome {
    Excel(Result<ExcelResult, String>),
    Docx(Result<DocxResult, String>),
    Pptx(Result<PptxResult, String>),
    Pdf(Result<TextResult, String>),
    Text(Result<TextResult, String>),
}

/// The engine that an outcome comes from.
pub open spec fn outcome_engine(o: EngineOutcome) -> Engine {
    match o {
        EngineOutcome::Excel(_) => Engine::Excel,
        EngineOutcome::Docx(_) => Engine::Docx,
        EngineOutcome::Pptx(_) => Engine::Pptx,
        EngineOutcome::Pdf(_) => Engine::Pdf,
        EngineOutcome::Text(_) => Engine::Text,
    }
}

/// The `file_type` of a result from each engine: PDF is diffed as text.
pub open spec fn file_type_of(e: Engine) -> Seq<char> {
    match e {
        Engine::Excel => "excel"@,
        Engine::Docx => "docx"@,
        Engine::Pptx => "pptx"@,
        Engine::Pdf => "text"@,
        Engine::Text => "text"@,
    }
}

/// What the unified result holds for an engine's outcome: the engine's
/// error, or its result in the one field for its kind, with the file type of
/// the engine for the pair, both paths and no error text.
pub open spec fn dispatched(
    path_a: Seq<char>,
    path_b: Seq<char>,
    outcome: EngineOutcome,
    r: Result<DiffResult, String>,
) -> bool {
    match outcome {
        EngineOutcome::Excel(Err(e)) => r == Err::<DiffResult, String>(e),
        EngineOutcome::Docx(Err(e)) => r == Err::<DiffResult, String>(e),
        EngineOutcome::Pptx(Err(e)) => r == Err::<DiffResult, String>(e),
        EngineOutcome::Pdf(Err(e)) => r == Err::<DiffResult, String>(e),
        EngineOutcome::Text(Err(e)) => r == Err::<DiffResult, String>(e),
        _ => r matches Ok(d) && {
            &&& d.file_type@ == file_type_of(engine_spec(path_a, path_b))
            &&& d.path_a@ == path_a
            &&& d.path_b@ == path_b
            &&& d.error@.len() == 0
            &&& (d.excel is Some <==> outcome matches EngineOutcome::Excel(_))
            &&& (d.docx is Some <==> outcome matches EngineOutcome::Docx(_))
            &&& (d.pptx is Some <==> outcome matches EngineOutcome::Pptx(_))
            &&& (d.text is Some <==> (outcome matches EngineOutcome::Pdf(_) || outcome matches EngineOutcome::Text(_)))
            &&& (outcome matches EngineOutcome::Excel(Ok(x)) ==> d.excel == Some(x))
            &&& (outcome matches EngineOutcome::Docx(Ok(x)) ==> d.docx == Some(x))
            &&& (outcome matches EngineOutcome::Pptx(Ok(x)) ==> d.pptx == Some(x))
            &&& (outcome matches EngineOutcome::Pdf(Ok(x)) ==> d.text == Some(x))
            &&& (outcome matches EngineOutcome::Text(Ok(x)) ==> d.text == Some(x))
        },
    }
}

/// Wrap the outcome of the engine that [`engine_for`] picked for the pair
/// into the unified result: the engine's error, or its result in the one
/// field for its kind with the file type and both paths.
pub fn dispatch(path_a: &str, path_b: &str, outcome: EngineOutcome) -> (r: Result<DiffResult, String>)
    requires
        outcome_engine(outcome) == engine_spec(path_a@, path_b@),
    ensures
        dispatched(path_a@, path_b@, outcome, r),
{
    let mut res = DiffResult {
        file_type: String::new(),
        path_a: String::from_str(path_a),
        path_b: String::from_str(path_b),
        text: None,
        excel: None,
        docx: None,
        pptx: None,
        error: String::new(),
    };
    match outcome {
        EngineOutcome::Excel(r) => {
            res.excel = Some(r?);
            res.file_type = String::from_str("excel");
        },
        EngineOutcome::Docx(r) => {
            res.docx = Some(r?);
            res.file_type = String::from_str("docx");
        },
        EngineOutcome::Pptx(r) => {
            res.pptx = Some(r?);
            res.file_type = String::from_str("pptx");
        },
        EngineOutcome::Pdf(r) => {
            res.text = Some(r?);
            res.file_type = String::from_str("text");
        },
        EngineOutcome::Text(r) => {
            res.text = Some(r?);
            res.file_type = String::from_str("text");
        },
    }
    Ok(res)
}

/// The engine that an outcome comes from.
fn engine_of(outcome: &EngineOutcome) -> (e: Engine)
    ensures
        e == outcome_engine(*outcome),
{
    match outcome {
        EngineOutcome::Excel(_) => Engine::Excel,
        EngineOutcome::Docx(_) => Engine::Docx,
        EngineOutcome::Pptx(_) => Engine::Pptx,
        EngineOutcome::Pdf(_) => Engine::Pdf,
        EngineOutcome::Text(_) => Engine::Text,
    }
}

/// Wrap an engine's outcome into the unified result after checking that it
/// comes from the engine that [`engine_for`] picks for the pair; an outcome
/// of another engine is refused with an error.
pub fn dispatch_checked(path_a: &str, path_b: &str, outcome: EngineOutcome) -> (r: Result<DiffResult, String>)
    ensures
        outcome_engine(outcome) == engine_spec(path_a@, path_b@) ==> dispatched(path_a@, path_b@, outcome, r),
        outcome_engine(outcome) != engine_spec(path_a@, path_b@) ==> (r matches Err(m)
            && m@ == "the outcome is not from the engine for these paths"@),
{
    if engine_of(&outcome) == engine_for(path_a, path_b) {
        dispatch(path_a, path_b, outcome)
    } else {
        Err(String::from_str("the outcome is not from the engine for these paths"))
    }
}

} // verus!

verus! {

/// The engine follows the extension: a spreadsheet extension (`xlsx`, `xls`,
/// `xlsm`) picks Excel, `docx` Word, `pptx` PowerPoint, `pdf` PDF, and any
/// other extension plain text. The extension of path A decides; where A has
/// none, that of path B; where neither has one, plain text.
pub proof fn lemma_engine_law(path_a: Seq<char>, path_b: Seq<char>)
    ensures
        ext_spec(path_a) matches Some(e) ==> {
            &&& (e == "xlsx"@ || e == "xls"@ || e == "xlsm"@ ==> engine_spec(path_a, path_b) == Engine::Excel)
            &&& (e == "docx"@ ==> engine_spec(path_a, path_b) == Engine::Docx)
            &&& (e == "pptx"@ ==> engine_spec(path_a, path_b) == Engine::Pptx)
            &&& (e == "pdf"@ ==> engine_spec(path_a, path_b) == Engine::Pdf)
            &&& (e != "xlsx"@ && e != "xls"@ && e != "xlsm"@ && e != "docx"@ && e != "pptx"@ && e != "pdf"@
                ==> engine_spec(path_a, path_b) == Engine::Text)
        },
        ext_spec(path_a) is None ==> (ext_spec(path_b) matches Some(e) ==> {
            &&& (e == "xlsx"@ || e == "xls"@ || e == "xlsm"@ ==> engine_spec(path_a, path_b) == Engine::Excel)
            &&& (e == "docx"@ ==> engine_spec(path_a, path_b) == Engine::Docx)
            &&& (e == "pptx"@ ==> engine_spec(path_a, path_b) == Engine::Pptx)
            &&& (e == "pdf"@ ==> engine_spec(path_a, path_b) == Engine::Pdf)
            &&& (e != "xlsx"@ && e != "xls"@ && e != "xlsm"@ && e != "docx"@ && e != "pptx"@ && e != "pdf"@
                ==> engine_spec(path_a, path_b) == Engine::Text)
        }),
        ext_spec(path_a) is None && ext_spec(path_b) is None ==> engine_spec(path_a, path_b) == Engine::Text,
{
    reveal_strlit("xlsx");
    reveal_strlit("xls");
    reveal_strlit("xlsm");
    reveal_strlit("docx");
    reveal_strlit("pptx");
    reveal_strlit("pdf");
    assert("xlsx"@ != "docx"@ && "xlsx"@ != "pptx"@ && "xlsx"@ != "pdf"@) by {
        assert("xlsx"@[0] != "docx"@[0] && "xlsx"@[0] != "pptx"@[0] && "xlsx"@[0] != "pdf"@[0]);
    }
    assert("xls"@ != "docx"@ && "xls"@ != "pptx"@ && "xls"@ != "pdf"@) by {
        assert("xls"@[0] != "docx"@[0] && "xls"@[0] != "pptx"@[0] && "xls"@[0] != "pdf"@[0]);
    }
    assert("xlsm"@ != "docx"@ && "xlsm"@ != "pptx"@ && "xlsm"@ != "pdf"@) by {
        assert("xlsm"@[0] != "docx"@[0] && "xlsm"@[0] != "pptx"@[0] && "xlsm"@[0] != "pdf"@[0]);
    }
    assert("docx"@ != "pptx"@ && "docx"@ != "pdf"@) by {
        assert("docx"@[0] != "pptx"@[0] && "docx"@[0] != "pdf"@[0]);
    }
    assert("pptx"@ != "pdf"@) by {
        assert("pptx"@[1] != "pdf"@[1]);
    }
    assert("xlsx"@.len() > 0 && "xls"@.len() > 0 && "xlsm"@.len() > 0);
    assert("docx"@.len() > 0 && "pptx"@.len() > 0 && "pdf"@.len() > 0);
}

} // verus!
