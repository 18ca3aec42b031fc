//! Plain-text line diff: the lines of both files, their paired edit script,
//! and the counts of equal, inserted and deleted lines.

use vstd::prelude::*;

use crate::ops::{
    LineOpView, all_equal, count_of, edit_script, lemma_all_equal_counts, lemma_counts, line_diff_spec, ops_view,
    pair_spec, paired_line_ops, LineOp, OpType,
};
use crate::strs::{chars_of, join_spec, push_char, strings_view, utf8_lossy, utf8_lossy_spec};

verus! {

#[derive(Debug, Clone)]
pub struct TextSummary {
    pub equal: usize,
    pub insert: usize,
    pub delete: usize,
}

#[derive(Debug, Clone)]
pub struct TextResult {
    pub file_type: String,
    pub path_a: String,
    pub path_b: String,
    pub ops: Vec<LineOp>,
    pub summary: TextSummary,
}

/// The counts of an edit script from `a` to `b`: its `Equal`, `Delete` and
/// `Replace` operations consume the old lines, its `Equal`, `Insert` and
/// `Replace` operations the new ones; a script between equal sequences that
/// is all `Equal` has as many operations as lines.
pub proof fn lemma_script_counts(ops: Seq<LineOpView>, a: Seq<Seq<char>>, b: Seq<Seq<char>>)
    requires
        edit_script(ops, a, b),
    ensures
        count_of(ops, OpType::Equal) + count_of(ops, OpType::Delete) + count_of(ops, OpType::Replace) == a.len(),
        count_of(ops, OpType::Equal) + count_of(ops, OpType::Insert) + count_of(ops, OpType::Replace) == b.len(),
        all_equal(ops) ==> count_of(ops, OpType::Equal) == a.len() && count_of(ops, OpType::Insert) == 0
            && count_of(ops, OpType::Delete) == 0 && count_of(ops, OpType::Replace) == 0,
{
    lemma_counts(ops, ops.len() as int);
    assert(ops.take(ops.len() as int) =~= ops);
    if all_equal(ops) {
        lemma_all_equal_counts(ops);
    }
}

/// What a text result holds for two line sequences: the file type, both
/// paths, the paired line diff, and its counts, a `Replace` counting as one
/// delete and one insert; equal sequences give only equal lines.
pub open spec fn text_result_matches(
    r: TextResult,
    path_a: Seq<char>,
    path_b: Seq<char>,
    a: Seq<Seq<char>>,
    b: Seq<Seq<char>>,
) -> bool {
    &&& r.file_type@ == "text"@
    &&& r.path_a@ == path_a
    &&& r.path_b@ == path_b
    &&& ops_view(r.ops@) == pair_spec(line_diff_spec(a, b))
    &&& r.summary.equal == count_of(ops_view(r.ops@), OpType::Equal)
    &&& r.summary.insert == count_of(ops_view(r.ops@), OpType::Insert) + count_of(ops_view(r.ops@), OpType::Replace)
    &&& r.summary.delete == count_of(ops_view(r.ops@), OpType::Delete) + count_of(ops_view(r.ops@), OpType::Replace)
    &&& r.summary.equal + r.summary.delete == a.len()
    &&& r.summary.equal + r.summary.insert == b.len()
    &&& (a == b ==> r.summary.equal == a.len() && r.summary.insert == 0 && r.summary.delete == 0)
}

/// Build the text result from both sides' lines: the paired line diff and
/// its counts, a `Replace` counting as one delete and one insert.
pub fn build_text_result(path_a: &str, path_b: &str, a: Vec<String>, b: Vec<String>) -> (r: TextResult)
    ensures
        text_result_matches(r, path_a@, path_b@, strings_view(a@), strings_view(b@)),
{
    let ops = paired_line_ops(&a, &b);
    let ghost ov = ops_view(ops@);
    let mut equal: usize = 0;
    let mut insert: usize = 0;
    let mut delete: usize = 0;
    let mut i: usize = 0;
    while i < ops.len()
        invariant
            ov == ops_view(ops@),
            i <= ops@.len(),
            equal == count_of(ov.take(i as int), OpType::Equal),
            insert == count_of(ov.take(i as int), OpType::Insert) + count_of(ov.take(i as int), OpType::Replace),
            delete == count_of(ov.take(i as int), OpType::Delete) + count_of(ov.take(i as int), OpType::Replace),
            equal + insert <= i,
            equal + delete <= i,
        decreases ops@.len() - i,
    {
        assert(ov.take(i as int + 1).drop_last() =~= ov.take(i as int));
        assert(ov.take(i as int + 1).last() == ops@[i as int]@);
        match ops[i].typ {
            OpType::Equal => equal += 1,
            OpType::Insert => insert += 1,
            OpType::Delete => delete += 1,
            OpType::Replace => {
                delete += 1;
                insert += 1;
            },
        }
        i += 1;
    }
    assert(ov.take(i as int) =~= ov);
    proof {
        lemma_script_counts(ov, strings_view(a@), strings_view(b@));
    }
    TextResult {
        file_type: String::from_str("text"),
        path_a: String::from_str(path_a),
        path_b: String::from_str(path_b),
        ops,
        summary: TextSummary { equal, insert, delete },
    }
}

} // verus!

verus! {

/// `s` with every `"\r\n"` replaced by `"\n"`, left to right.
pub open spec fn crlf_spec(s: Seq<char>) -> Seq<char>
    decreases s.len(),
{
    if s.len() == 0 {
        s
    } else if s.len() >= 2 && s[0] == '\r' && s[1] == '\n' {
        seq!['\n'] + crlf_spec(s.skip(2))
    } else {
        seq![s[0]] + crlf_spec(s.drop_first())
    }
}

/// The pieces of `s` between line feeds (one more piece than line feeds).
pub open spec fn split_spec(s: Seq<char>) -> Seq<Seq<char>>
    decreases s.len(),
{
    if s.len() == 0 {
        seq![Seq::empty()]
    } else {
        let parts = split_spec(s.drop_last());
        if s.last() == '\n' {
            parts.push(Seq::empty())
        } else {
            parts.update(parts.len() - 1, parts.last().push(s.last()))
        }
    }
}

proof fn lemma_split_nonempty(s: Seq<char>)
    ensures
        split_spec(s).len() > 0,
    decreases s.len(),
{
    if s.len() > 0 {
        lemma_split_nonempty(s.drop_last());
    }
}

/// The lines of a text: CRLF taken as LF, split at LF, without the empty
/// piece after a final line feed.
pub open spec fn lines_spec(s: Seq<char>) -> Seq<Seq<char>> {
    let p = split_spec(crlf_spec(s));
    if p.len() > 0 && p.last().len() == 0 {
        p.drop_last()
    } else {
        p
    }
}

/// The lines of a file's bytes, decoded as `String::from_utf8_lossy` does:
/// `"\r\n"` is read as `"\n"`, the text is split at `"\n"`, and a final
/// empty piece (after a trailing newline) is dropped.
pub fn split_lines(bytes: &[u8]) -> (lines: Vec<String>)
    ensures
        strings_view(lines@) == lines_spec(utf8_lossy_spec(bytes@)),
{
    let text = utf8_lossy(bytes);
    text_lines(text.as_str())
}

/// The lines of a text: `"\r\n"` is read as `"\n"`, the text is split at
/// `"\n"`, and a final empty piece (after a trailing newline) is dropped.
pub fn text_lines(text: &str) -> (lines: Vec<String>)
    ensures
        strings_view(lines@) == lines_spec(text@),
{
    let v = chars_of(text);
    let ghost s = v@;
    // Replace CRLF by LF.
    let mut w: Vec<char> = Vec::new();
    let mut i: usize = 0;
    assert(s.skip(0) =~= s);
    assert(w@ + crlf_spec(s.skip(0)) =~= crlf_spec(s));
    while i < v.len()
        invariant
            s == v@,
            i <= v@.len(),
            w@ + crlf_spec(s.skip(i as int)) == crlf_spec(s),
        decreases v@.len() - i,
    {
        let ghost rest = s.skip(i as int);
        if v[i] == '\r' && i + 1 < v.len() && v[i + 1] == '\n' {
            assert(rest[0] == '\r' && rest[1] == '\n');
            assert(rest.skip(2) =~= s.skip(i + 2));
            w.push('\n');
            assert(w@ + crlf_spec(s.skip(i + 2)) =~= crlf_spec(s));
            i += 2;
        } else {
            assert(rest[0] == v@[i as int]);
            assert(rest.drop_first() =~= s.skip(i + 1));
            w.push(v[i]);
            assert(w@ + crlf_spec(s.skip(i + 1)) =~= crlf_spec(s));
            i += 1;
        }
    }
    assert(s.skip(i as int) =~= Seq::<char>::empty());
    assert(w@ =~= crlf_spec(s));
    // Split at LF.
    let ghost t = w@;
    let mut parts: Vec<String> = Vec::new();
    let mut cur = String::new();
    let mut j: usize = 0;
    assert(t.take(0) =~= Seq::<char>::empty());
    assert(strings_view(parts@).push(cur@) =~= split_spec(t.take(0)));
    while j < w.len()
        invariant
            t == w@,
            j <= w@.len(),
            strings_view(parts@).push(cur@) == split_spec(t.take(j as int)),
        decreases w@.len() - j,
    {
        assert(t.take(j as int + 1).drop_last() =~= t.take(j as int));
        assert(t.take(j as int + 1).last() == w@[j as int]);
        proof {
            lemma_split_nonempty(t.take(j as int));
        }
        if w[j] == '\n' {
            let ghost prev = parts@;
            parts.push(cur);
            cur = String::new();
            assert(strings_view(parts@).push(cur@) =~= strings_view(prev).push(strings_view(parts@).last()).push(Seq::<char>::empty()));
        } else {
            let ghost before = cur@;
            push_char(&mut cur, w[j]);
            assert(strings_view(parts@).push(cur@) =~= strings_view(parts@).push(before).update(
                strings_view(parts@).len() as int,
                before.push(w@[j as int]),
            ));
        }
        j += 1;
    }
    assert(t.take(j as int) =~= t);
    let ghost prev = parts@;
    parts.push(cur);
    assert(strings_view(parts@) =~= strings_view(prev).push(cur@));
    let n = parts.len();
    if parts[n - 1].as_str().is_empty() {
        let ghost full = parts@;
        parts.pop();
        assert(strings_view(parts@) =~= strings_view(full).drop_last());
    }
    parts
}

} // verus!

verus! {

proof fn lemma_join_push_last(p: Seq<Seq<char>>, c: char)
    requires
        p.len() > 0,
    ensures
        join_spec(p.update(p.len() - 1, p.last().push(c)), "\n"@) == join_spec(p, "\n"@).push(c),
{
    let q = p.update(p.len() - 1, p.last().push(c));
    if p.len() > 1 {
        assert(q.drop_last() =~= p.drop_last());
        assert(join_spec(q, "\n"@) == join_spec(q.drop_last(), "\n"@) + "\n"@ + q.last());
        assert(join_spec(p, "\n"@) == join_spec(p.drop_last(), "\n"@) + "\n"@ + p.last());
        assert(join_spec(q, "\n"@) =~= join_spec(p, "\n"@).push(c));
    }
}

proof fn lemma_split_join(t: Seq<char>)
    ensures
        split_spec(t).len() > 0,
        join_spec(split_spec(t), "\n"@) == t,
        forall|k: int| 0 <= k < split_spec(t).len() ==> !(#[trigger] split_spec(t)[k]).contains('\n'),
        t.len() > 0 && t.last() == '\n' ==> split_spec(t).len() > 1 && split_spec(t).last().len() == 0,
    decreases t.len(),
{
    reveal_strlit("\n");
    if t.len() == 0 {
        assert(split_spec(t) =~= seq![Seq::<char>::empty()]);
        assert forall|k: int| 0 <= k < split_spec(t).len() implies !(#[trigger] split_spec(t)[k]).contains('\n') by {
            assert(split_spec(t)[k] == Seq::<char>::empty());
        }
    } else {
        let u = t.drop_last();
        lemma_split_join(u);
        let p = split_spec(u);
        if t.last() == '\n' {
            let q = p.push(Seq::<char>::empty());
            assert(split_spec(t) == q);
            assert(q.drop_last() =~= p);
            assert(join_spec(q, "\n"@) == join_spec(p, "\n"@) + "\n"@ + Seq::<char>::empty());
            assert(join_spec(q, "\n"@) =~= t);
            assert forall|k: int| 0 <= k < q.len() implies !(#[trigger] q[k]).contains('\n') by {
                if k < p.len() {
                    assert(q[k] == p[k]);
                } else {
                    assert(q[k] == Seq::<char>::empty());
                }
            }
        } else {
            let q = p.update(p.len() - 1, p.last().push(t.last()));
            assert(split_spec(t) == q);
            lemma_join_push_last(p, t.last());
            assert(join_spec(q, "\n"@) =~= t);
            assert forall|k: int| 0 <= k < q.len() implies !(#[trigger] q[k]).contains('\n') by {
                if k < p.len() - 1 {
                    assert(q[k] == p[k]);
                } else {
                    let x = p.last().push(t.last());
                    assert(q[k] == x);
                    assert(!p[p.len() - 1].contains('\n'));
                    if x.contains('\n') {
                        let w = choose|w: int| 0 <= w < x.len() && x[w] == '\n';
                        assert(w < p.last().len());
                        assert(p.last()[w] == '\n');
                    }
                }
            }
        }
    }
}

/// Reading a text as lines loses nothing but its line endings: no line holds
/// a line feed, and the lines joined with `"\n"`, followed by `"\n"` where
/// the text ends with a line break, give back the text with each `"\r\n"`
/// read as `"\n"`.
pub proof fn lemma_lines_round_trip(s: Seq<char>)
    ensures
        forall|k: int| 0 <= k < lines_spec(s).len() ==> !(#[trigger] lines_spec(s)[k]).contains('\n'),
        join_spec(lines_spec(s), "\n"@) + (if crlf_spec(s).len() > 0 && crlf_spec(s).last() == '\n' {
            "\n"@
        } else {
            Seq::<char>::empty()
        }) == crlf_spec(s),
{
    reveal_strlit("\n");
    let t = crlf_spec(s);
    lemma_split_join(t);
    let p = split_spec(t);
    if p.last().len() == 0 {
        let l = p.drop_last();
        assert(lines_spec(s) == l);
        assert forall|k: int| 0 <= k < l.len() implies !(#[trigger] l[k]).contains('\n') by {
            assert(l[k] == p[k]);
        }
        if t.len() > 0 && t.last() == '\n' {
            assert(join_spec(p, "\n"@) == join_spec(l, "\n"@) + "\n"@ + p.last());
            assert(join_spec(l, "\n"@) + "\n"@ =~= t);
        } else {
            if p.len() > 1 {
                // A final empty piece comes only after a line feed.
                assert(t.len() > 0);
                let u = t.drop_last();
                lemma_split_join(u);
                let pu = split_spec(u);
                assert(p == pu.update(pu.len() - 1, pu.last().push(t.last())));
                assert(p.last().len() > 0);
            }
            assert(p.len() == 1);
            assert(l =~= Seq::<Seq<char>>::empty());
            assert(t == Seq::<char>::empty());
            assert(join_spec(l, "\n"@) + Seq::<char>::empty() =~= t);
        }
    } else {
        assert(lines_spec(s) == p);
        if t.len() > 0 && t.last() == '\n' {
            assert(false);
        }
        assert(join_spec(p, "\n"@) + Seq::<char>::empty() =~= t);
    }
}

} // verus!
